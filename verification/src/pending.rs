//! The table of probes that were sent and not yet answered.

use std::collections::HashMap;
use std::collections::VecDeque;
use vstd::prelude::*;
use vstd::seq_lib::lemma_seq_contains_after_push;
use vstd::std_specs::hash::group_hash_axioms;

verus! {

/// The send time under `id`, if `id` is outstanding.
pub open spec fn lookup(entries: Map<u64, u64>, id: u64) -> Option<u64> {
    if entries.contains_key(id) {
        Some(entries[id])
    } else {
        None
    }
}

/// At `now`, a probe sent at `sent_at` is older than `max_age`.
pub open spec fn is_stale(sent_at: u64, now: u64, max_age: u64) -> bool {
    now - sent_at > max_age
}

/// The entries of `entries` that are not stale at `now`.
pub open spec fn without_stale(entries: Map<u64, u64>, now: u64, max_age: u64) -> Map<u64, u64> {
    Map::new(
        |id: u64| entries.contains_key(id) && !is_stale(entries[id], now, max_age),
        |id: u64| entries[id],
    )
}

/// Round trip: once `id` is registered with `sent_at`, resolving it yields
/// `sent_at`, and resolving it a second time finds nothing.
pub proof fn lemma_register_then_resolve(entries: Map<u64, u64>, id: u64, sent_at: u64)
    ensures
        lookup(entries.insert(id, sent_at), id) == Some(sent_at),
        lookup(entries.insert(id, sent_at).remove(id), id) == None::<u64>,
{
}

/// Resolving an identifier that is not outstanding finds nothing and leaves
/// the table, and so its size, as it was.
pub proof fn lemma_resolve_unknown(entries: Map<u64, u64>, id: u64)
    requires
        !entries.contains_key(id),
    ensures
        lookup(entries, id) == None::<u64>,
        entries.remove(id) == entries,
        entries.remove(id).len() == entries.len(),
{
    assert(entries.remove(id) =~= entries);
}

/// Registering leaves every other identifier's entry as it was.
pub proof fn lemma_register_is_local(entries: Map<u64, u64>, id: u64, sent_at: u64, other: u64)
    requires
        other != id,
    ensures
        lookup(entries.insert(id, sent_at), other) == lookup(entries, other),
        lookup(entries.remove(id), other) == lookup(entries, other),
{
}

/// After a sweep nothing stale is left, and nothing else has gone.
pub proof fn lemma_sweep_bounds_age(entries: Map<u64, u64>, now: u64, max_age: u64, id: u64)
    ensures
        without_stale(entries, now, max_age).contains_key(id) ==> now - without_stale(
            entries,
            now,
            max_age,
        )[id] <= max_age,
        lookup(without_stale(entries, now, max_age), id) == if entries.contains_key(id)
            && !is_stale(entries[id], now, max_age) {
            Some(entries[id])
        } else {
            None
        },
{
}

/// One of the first `upto` pairs of `order` is `(sent_at, id)`.
spec fn listed(order: Seq<(u64, u64)>, upto: int, sent_at: u64, id: u64) -> bool {
    exists|j: int| 0 <= j < upto && j < order.len() && #[trigger] order[j] == (sent_at, id)
}

/// `id` is outstanding in `before`, stale, and among the first `upto` of `order`.
spec fn swept(
    before: Map<u64, u64>,
    order: Seq<(u64, u64)>,
    upto: int,
    now: u64,
    max_age: u64,
    id: u64,
) -> bool {
    before.contains_key(id) && is_stale(before[id], now, max_age) && listed(
        order,
        upto,
        before[id],
        id,
    )
}

/// What is left of `before` once the first `upto` pairs of `order` were swept.
spec fn partly_swept(
    before: Map<u64, u64>,
    order: Seq<(u64, u64)>,
    upto: int,
    now: u64,
    max_age: u64,
) -> Map<u64, u64> {
    Map::new(
        |id: u64| before.contains_key(id) && !swept(before, order, upto, now, max_age, id),
        |id: u64| before[id],
    )
}

proof fn lemma_listed_next(order: Seq<(u64, u64)>, upto: int)
    requires
        0 <= upto < order.len(),
    ensures
        forall|sent_at: u64, id: u64| #[trigger]
            listed(order, upto + 1, sent_at, id) <==> listed(order, upto, sent_at, id)
                || order[upto] == (sent_at, id),
{
    assert forall|sent_at: u64, id: u64| #[trigger]
        listed(order, upto + 1, sent_at, id) <==> listed(order, upto, sent_at, id) || order[upto]
            == (sent_at, id) by {
        if listed(order, upto + 1, sent_at, id) {
            let j = choose|j: int|
                0 <= j < upto + 1 && j < order.len() && #[trigger] order[j] == (sent_at, id);
            if j < upto {
                assert(listed(order, upto, sent_at, id));
            }
        }
        if listed(order, upto, sent_at, id) {
            let j = choose|j: int|
                0 <= j < upto && j < order.len() && #[trigger] order[j] == (sent_at, id);
            assert(order[j] == (sent_at, id));
        }
        if order[upto] == (sent_at, id) {
            assert(listed(order, upto + 1, sent_at, id));
        }
    }
}

proof fn lemma_listed_after_push(order: Seq<(u64, u64)>, pair: (u64, u64))
    ensures
        forall|sent_at: u64, id: u64| #[trigger]
            listed(order.push(pair), order.push(pair).len() as int, sent_at, id) <==> listed(
                order,
                order.len() as int,
                sent_at,
                id,
            ) || pair == (sent_at, id),
{
    let longer = order.push(pair);
    assert forall|sent_at: u64, id: u64| #[trigger]
        listed(longer, longer.len() as int, sent_at, id) <==> listed(
            order,
            order.len() as int,
            sent_at,
            id,
        ) || pair == (sent_at, id) by {
        if listed(longer, longer.len() as int, sent_at, id) {
            let j = choose|j: int|
                0 <= j < longer.len() as int && j < longer.len() && #[trigger] longer[j] == (
                    sent_at,
                    id,
                );
            if j < order.len() {
                assert(order[j] == (sent_at, id));
            }
        }
        if listed(order, order.len() as int, sent_at, id) {
            let j = choose|j: int|
                0 <= j < order.len() && j < order.len() && #[trigger] order[j] == (sent_at, id);
            assert(longer[j] == (sent_at, id));
        }
        if pair == (sent_at, id) {
            assert(longer[order.len() as int] == (sent_at, id));
        }
    }
}

proof fn lemma_listed_after_pop(order: Seq<(u64, u64)>)
    requires
        order.len() > 0,
    ensures
        forall|sent_at: u64, id: u64| #[trigger]
            listed(order, order.len() as int, sent_at, id) <==> listed(
                order.subrange(1, order.len() as int),
                order.len() - 1,
                sent_at,
                id,
            ) || order[0] == (sent_at, id),
{
    let rest = order.subrange(1, order.len() as int);
    assert forall|sent_at: u64, id: u64| #[trigger]
        listed(order, order.len() as int, sent_at, id) <==> listed(
            rest,
            order.len() - 1,
            sent_at,
            id,
        ) || order[0] == (sent_at, id) by {
        if listed(order, order.len() as int, sent_at, id) {
            let j = choose|j: int|
                0 <= j < order.len() && j < order.len() && #[trigger] order[j] == (sent_at, id);
            if j > 0 {
                assert(rest[j - 1] == (sent_at, id));
            }
        }
        if listed(rest, order.len() - 1, sent_at, id) {
            let j = choose|j: int|
                0 <= j < order.len() - 1 && j < rest.len() && #[trigger] rest[j] == (sent_at, id);
            assert(order[j + 1] == (sent_at, id));
        }
        if order[0] == (sent_at, id) {
            assert(listed(order, order.len() as int, sent_at, id));
        }
    }
}

/// Whether a probe sent at `sent_at` is older than `max_age` at `now`.
pub fn stale(sent_at: u64, now: u64, max_age: u64) -> (yes: bool)
    ensures
        yes == is_stale(sent_at, now, max_age),
{
    now > sent_at && now - sent_at > max_age
}

/// Outstanding probes: identifier to send time.
///
/// Beside the map the table keeps the registrations in the order in which
/// they were made, so that a sweep can find the stale ones without walking
/// the map.
pub struct PendingTable {
    entries: HashMap<u64, u64>,
    order: VecDeque<(u64, u64)>,
}

impl View for PendingTable {
    type V = Map<u64, u64>;

    closed spec fn view(&self) -> Map<u64, u64> {
        self.entries@
    }
}

impl PendingTable {
    /// Every outstanding probe is on record in the order of registration.
    pub closed spec fn wf(&self) -> bool {
        forall|id: u64| #[trigger]
            self.entries@.contains_key(id) ==> listed(
                self.order@,
                self.order@.len() as int,
                self.entries@[id],
                id,
            )
    }

    /// A table with nothing outstanding.
    pub fn new() -> (table: PendingTable)
        ensures
            table.wf(),
            table@ == Map::<u64, u64>::empty(),
    {
        PendingTable { entries: HashMap::new(), order: VecDeque::new() }
    }

    /// Records that the probe `id` was sent at `sent_at`. An entry that is
    /// already there under `id` is overwritten, and its send time returned.
    pub fn register(&mut self, id: u64, sent_at: u64) -> (replaced: Option<u64>)
        requires
            old(self).wf(),
        ensures
            final(self).wf(),
            final(self)@ == old(self)@.insert(id, sent_at),
            replaced == lookup(old(self)@, id),
    {
        broadcast use group_hash_axioms;

        proof {
            lemma_listed_after_push(self.order@, (sent_at, id));
        }
        let replaced = self.entries.insert(id, sent_at);
        self.order.push_back((sent_at, id));
        replaced
    }

    /// Takes the entry under `id` out and returns its send time; `None`, and
    /// no change, where `id` is not outstanding: never sent, already
    /// resolved, or swept.
    pub fn resolve(&mut self, id: u64) -> (sent_at: Option<u64>)
        requires
            old(self).wf(),
        ensures
            final(self).wf(),
            final(self)@ == old(self)@.remove(id),
            sent_at == lookup(old(self)@, id),
            sent_at is None ==> final(self)@ == old(self)@,
    {
        broadcast use group_hash_axioms;

        let sent_at = self.entries.remove(&id);
        proof {
            if sent_at is None {
                assert(old(self)@.remove(id) =~= old(self)@);
            }
        }
        self.forget_settled();
        sent_at
    }

    /// Drops from the front of the record what is no longer outstanding: the
    /// record is cut back to its first pair that the table still holds, and
    /// to nothing where it holds none of them. The table itself stays.
    fn forget_settled(&mut self)
        requires
            old(self).wf(),
        ensures
            final(self).wf(),
            final(self)@ == old(self)@,
            final(self).order@ == old(self).order@.skip(
                settled_front(old(self).order@, old(self)@) as int,
            ),
            final(self).order@.len() == 0 || is_current(final(self)@, final(self).order@[0]),
    {
        broadcast use group_hash_axioms;

        proof {
            lemma_settled_front_step(self.order@, self@);
        }
        while self.order.len() > 0
            invariant
                self.wf(),
                self@ == old(self)@,
                settled_front(self.order@, self@) <= self.order@.len(),
                self.order@.skip(settled_front(self.order@, self@) as int) == old(
                    self,
                ).order@.skip(settled_front(old(self).order@, old(self)@) as int),
            ensures
                settled_front(self.order@, self@) == 0,
                self.order@.len() == 0 || is_current(self@, self.order@[0]),
            decreases self.order@.len(),
        {
            let (sent_at, id) = self.order[0];
            let outstanding = match self.entries.get(&id) {
                Some(current) => *current == sent_at,
                None => false,
            };
            if outstanding {
                break ;
            }
            proof {
                lemma_listed_after_pop(self.order@);
                lemma_settled_front_step(self.order@, self@);
                lemma_settled_front_step(
                    self.order@.subrange(1, self.order@.len() as int),
                    self@,
                );
            }
            let _ = self.order.pop_front();
        }
        assert(self.order@.skip(0) =~= self.order@);
    }

    /// How many probes are outstanding.
    pub fn len(&self) -> (n: usize)
        ensures
            n == self@.len(),
            self@.dom().finite(),
    {
        broadcast use group_hash_axioms;

        self.entries.len()
    }

    /// Whether `id` is outstanding.
    pub fn contains(&self, id: u64) -> (yes: bool)
        ensures
            yes == self@.contains_key(id),
    {
        broadcast use group_hash_axioms;

        self.entries.contains_key(&id)
    }

    /// Takes out every probe that at `now` is older than `max_age`, and
    /// returns their identifiers, each once. What is not stale stays.
    pub fn expire(&mut self, now: u64, max_age: u64) -> (timed_out: Vec<u64>)
        requires
            old(self).wf(),
        ensures
            final(self).wf(),
            final(self)@ == without_stale(old(self)@, now, max_age),
            forall|id: u64|
                timed_out@.contains(id) <==> old(self)@.contains_key(id) && is_stale(
                    old(self)@[id],
                    now,
                    max_age,
                ),
            timed_out@.no_duplicates(),
    {
        broadcast use group_hash_axioms;

        let ghost before = self.entries@;
        let ghost order = self.order@;
        let n: usize = self.order.len();
        let mut kept: VecDeque<(u64, u64)> = VecDeque::new();
        let mut timed_out: Vec<u64> = Vec::new();
        let mut i: usize = 0;
        assert(self.entries@ =~= partly_swept(before, order, 0, now, max_age));
        while i < n
            invariant
                i <= n,
                n == order.len(),
                self.order@ == order,
                forall|id: u64| #[trigger]
                    before.contains_key(id) ==> listed(order, n as int, before[id], id),
                self.entries@ == partly_swept(before, order, i as int, now, max_age),
                forall|id: u64|
                    timed_out@.contains(id) <==> swept(before, order, i as int, now, max_age, id),
                timed_out@.no_duplicates(),
                forall|id: u64| #[trigger]
                    self.entries@.contains_key(id) && listed(order, i as int, before[id], id)
                        ==> listed(kept@, kept@.len() as int, before[id], id),
            decreases n - i,
        {
            let (sent_at, id) = self.order[i];
            let outstanding = match self.entries.get(&id) {
                Some(current) => *current == sent_at,
                None => false,
            };
            proof {
                lemma_listed_next(order, i as int);
                lemma_listed_after_push(kept@, (sent_at, id));
            }
            if outstanding {
                if stale(sent_at, now, max_age) {
                    let _ = self.entries.remove(&id);
                    proof {
                        lemma_seq_contains_after_push(timed_out@, id, id);
                        assert forall|other: u64|
                            timed_out@.push(id).contains(other) <==> swept(
                                before,
                                order,
                                i + 1,
                                now,
                                max_age,
                                other,
                            ) by {
                            lemma_seq_contains_after_push(timed_out@, id, other);
                        }
                        assert(!timed_out@.contains(id));
                        assert(timed_out@.push(id).no_duplicates());
                    }
                    timed_out.push(id);
                } else {
                    kept.push_back((sent_at, id));
                }
            }
            assert(self.entries@ =~= partly_swept(before, order, i + 1, now, max_age));
            i += 1;
        }
        self.order = kept;
        assert(self.entries@ =~= without_stale(before, now, max_age));
        timed_out
    }
}

/// `pair` is what the table holds under its identifier.
spec fn is_current(entries: Map<u64, u64>, pair: (u64, u64)) -> bool {
    entries.contains_key(pair.1) && entries[pair.1] == pair.0
}

/// How many pairs at the front of `order` the table no longer holds.
spec fn settled_front(order: Seq<(u64, u64)>, entries: Map<u64, u64>) -> nat
    decreases order.len(),
{
    if order.len() == 0 || is_current(entries, order[0]) {
        0
    } else {
        1 + settled_front(order.subrange(1, order.len() as int), entries)
    }
}

/// The settled front is part of the record, and dropping one settled pair
/// leaves the same record behind the settled front.
proof fn lemma_settled_front_step(order: Seq<(u64, u64)>, entries: Map<u64, u64>)
    ensures
        settled_front(order, entries) <= order.len(),
        order.len() > 0 && !is_current(entries, order[0]) ==> {
            let rest = order.subrange(1, order.len() as int);
            &&& settled_front(order, entries) == 1 + settled_front(rest, entries)
            &&& order.skip(settled_front(order, entries) as int) == rest.skip(
                settled_front(rest, entries) as int,
            )
        },
    decreases order.len(),
{
    if order.len() > 0 && !is_current(entries, order[0]) {
        let rest = order.subrange(1, order.len() as int);
        lemma_settled_front_step(rest, entries);
        assert(order.skip(settled_front(order, entries) as int) =~= rest.skip(
            settled_front(rest, entries) as int,
        ));
    }
}

} // verus!
