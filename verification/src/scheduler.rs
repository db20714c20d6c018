//! Correlation identifiers: how they are generated, and how one travels in a
//! probe's payload.

use crate::pending::PendingTable;
use vstd::prelude::*;

verus! {

/// The width of an identifier on the wire, in bytes.
pub const ID_WIDTH: usize = 8;

/// The identifier generated after `id`: the next integer, wrapping to zero.
pub open spec fn following(id: u64) -> u64 {
    if id == u64::MAX {
        0
    } else {
        (id + 1) as u64
    }
}

/// The identifier generated `steps` ticks after `id`.
pub open spec fn nth_following(id: u64, steps: nat) -> u64 {
    ((id + steps) % 0x1_0000_0000_0000_0000) as u64
}

/// `id` without its `places` least significant bytes.
pub open spec fn high_part(id: u64, places: nat) -> nat
    decreases places,
{
    if places == 0 {
        id as nat
    } else {
        high_part(id, (places - 1) as nat) / 0x100
    }
}

/// The byte of `id` that has `places` bytes below it.
pub open spec fn byte_of(id: u64, places: nat) -> u8 {
    (high_part(id, places) % 0x100) as u8
}

/// The eight bytes of `id`, most significant first.
pub open spec fn be_bytes(id: u64) -> Seq<u8> {
    seq![
        byte_of(id, 7),
        byte_of(id, 6),
        byte_of(id, 5),
        byte_of(id, 4),
        byte_of(id, 3),
        byte_of(id, 2),
        byte_of(id, 1),
        byte_of(id, 0),
    ]
}

/// The integer that the first eight bytes of `bytes` spell, most significant
/// first.
pub open spec fn be_value(bytes: Seq<u8>) -> nat
    recommends
        bytes.len() >= 8,
{
    (((((((bytes[0] * 0x100 + bytes[1]) * 0x100 + bytes[2]) * 0x100 + bytes[3]) * 0x100
        + bytes[4]) * 0x100 + bytes[5]) * 0x100 + bytes[6]) * 0x100 + bytes[7]) as nat
}

/// The identifier that a reply's payload carries: that of its first eight
/// bytes; none where the payload is shorter.
pub open spec fn decoded(payload: Seq<u8>) -> Option<u64> {
    if payload.len() >= 8 {
        Some(be_value(payload) as u64)
    } else {
        None
    }
}

/// The integer that the first `count` bytes of `bytes` spell.
spec fn be_prefix(bytes: Seq<u8>, count: nat) -> nat
    decreases count,
{
    if count == 0 {
        0
    } else {
        be_prefix(bytes, (count - 1) as nat) * 0x100 + bytes[count - 1] as nat
    }
}

/// The integer that `count <= 8` bytes spell fits an identifier.
proof fn lemma_be_prefix_fits(bytes: Seq<u8>, count: nat)
    requires
        count <= 8,
    ensures
        be_prefix(bytes, count) <= u64::MAX,
        count < 8 ==> be_prefix(bytes, count) < 0x100_0000_0000_0000,
{
    reveal_with_fuel(be_prefix, 9);
}

/// Eight bytes spell `be_value`.
proof fn lemma_be_prefix_whole(bytes: Seq<u8>)
    ensures
        be_prefix(bytes, 8) == be_value(bytes),
{
    reveal_with_fuel(be_prefix, 9);
}

/// The parts of `id` above each of its bytes, from the whole of it down to
/// nothing.
proof fn lemma_high_parts(id: u64)
    ensures
        high_part(id, 0) == id,
        high_part(id, 1) == high_part(id, 0) / 0x100,
        high_part(id, 2) == high_part(id, 1) / 0x100,
        high_part(id, 3) == high_part(id, 2) / 0x100,
        high_part(id, 4) == high_part(id, 3) / 0x100,
        high_part(id, 5) == high_part(id, 4) / 0x100,
        high_part(id, 6) == high_part(id, 5) / 0x100,
        high_part(id, 7) == high_part(id, 6) / 0x100,
        high_part(id, 7) < 0x100,
{
    reveal_with_fuel(high_part, 9);
}

/// A payload decodes to the identifier it was encoded from, whatever follows
/// the eight bytes.
pub proof fn lemma_decode_encoded(id: u64, trailer: Seq<u8>)
    ensures
        be_bytes(id).len() == 8,
        be_value(be_bytes(id) + trailer) == id,
        decoded(be_bytes(id) + trailer) == Some(id),
        decoded(be_bytes(id)) == Some(id),
{
    let b = be_bytes(id);
    let longer = b + trailer;
    assert(longer[0] == b[0] && longer[1] == b[1] && longer[2] == b[2] && longer[3] == b[3]);
    assert(longer[4] == b[4] && longer[5] == b[5] && longer[6] == b[6] && longer[7] == b[7]);
    assert(be_value(longer) == be_value(b));
    lemma_high_parts(id);
    let h6 = b[0] * 0x100 + b[1];
    assert(h6 == high_part(id, 6));
    let h5 = h6 * 0x100 + b[2];
    assert(h5 == high_part(id, 5));
    let h4 = h5 * 0x100 + b[3];
    assert(h4 == high_part(id, 4));
    let h3 = h4 * 0x100 + b[4];
    assert(h3 == high_part(id, 3));
    let h2 = h3 * 0x100 + b[5];
    assert(h2 == high_part(id, 2));
    let h1 = h2 * 0x100 + b[6];
    assert(h1 == high_part(id, 1));
    assert(h1 * 0x100 + b[7] == id);
}

/// Encoding what eight bytes decode to gives those bytes back: no two
/// payloads of that width carry the same identifier.
pub proof fn lemma_encode_decoded(bytes: Seq<u8>)
    requires
        bytes.len() == 8,
    ensures
        be_value(bytes) <= u64::MAX,
        be_bytes(be_value(bytes) as u64) == bytes,
{
    let id = be_value(bytes) as u64;
    lemma_high_parts(id);
    let h6 = bytes[0] * 0x100 + bytes[1];
    let h5 = h6 * 0x100 + bytes[2];
    let h4 = h5 * 0x100 + bytes[3];
    let h3 = h4 * 0x100 + bytes[4];
    let h2 = h3 * 0x100 + bytes[5];
    let h1 = h2 * 0x100 + bytes[6];
    assert(id == h1 * 0x100 + bytes[7]);
    assert(high_part(id, 1) == h1);
    assert(high_part(id, 2) == h2);
    assert(high_part(id, 3) == h3);
    assert(high_part(id, 4) == h4);
    assert(high_part(id, 5) == h5);
    assert(high_part(id, 6) == h6);
    assert(high_part(id, 7) == bytes[0]);
    assert(be_bytes(id) =~= bytes);
}

/// One tick further is the following identifier.
pub proof fn lemma_nth_following_step(id: u64, steps: nat)
    ensures
        nth_following(id, 0) == id,
        nth_following(id, steps + 1) == following(nth_following(id, steps)),
{
}

/// Identifiers do not repeat within 2^64 ticks: probes that are outstanding
/// together, fewer than that many ticks apart, carry different identifiers.
pub proof fn lemma_identifiers_distinct(id: u64, earlier: nat, later: nat)
    requires
        earlier < later,
        later - earlier < 0x1_0000_0000_0000_0000,
    ensures
        nth_following(id, earlier) != nth_following(id, later),
{
    let m = 0x1_0000_0000_0000_0000int;
    let a = id + earlier;
    let b = id + later;
    if a % m == b % m {
        assert(a == m * (a / m) + a % m) by (nonlinear_arith)
            requires
                m > 0,
        ;
        assert(b == m * (b / m) + b % m) by (nonlinear_arith)
            requires
                m > 0,
        ;
        let d = b / m - a / m;
        assert(b - a == m * d) by (nonlinear_arith)
            requires
                a == m * (a / m) + a % m,
                b == m * (b / m) + b % m,
                a % m == b % m,
                d == b / m - a / m,
        ;
        assert(false) by (nonlinear_arith)
            requires
                0 < b - a < m,
                b - a == m * d,
        ;
    }
}

/// A probe to send: its identifier and the payload that carries it.
#[derive(Clone, Debug, PartialEq, Eq)]
pub struct Probe {
    pub id: u64,
    pub payload: Vec<u8>,
}

/// The payload that carries `id`: its eight bytes, most significant first.
pub fn encode_id(id: u64) -> (payload: Vec<u8>)
    ensures
        payload@ == be_bytes(id),
        payload@.len() == ID_WIDTH,
        decoded(payload@) == Some(id),
{
    let h1: u64 = id / 0x100;
    let h2: u64 = h1 / 0x100;
    let h3: u64 = h2 / 0x100;
    let h4: u64 = h3 / 0x100;
    let h5: u64 = h4 / 0x100;
    let h6: u64 = h5 / 0x100;
    let h7: u64 = h6 / 0x100;
    proof {
        lemma_high_parts(id);
    }
    let mut payload: Vec<u8> = Vec::with_capacity(ID_WIDTH);
    payload.push((h7 % 0x100) as u8);
    payload.push((h6 % 0x100) as u8);
    payload.push((h5 % 0x100) as u8);
    payload.push((h4 % 0x100) as u8);
    payload.push((h3 % 0x100) as u8);
    payload.push((h2 % 0x100) as u8);
    payload.push((h1 % 0x100) as u8);
    payload.push((id % 0x100) as u8);
    proof {
        assert(payload@ =~= be_bytes(id));
        lemma_decode_encoded(id, Seq::empty());
    }
    payload
}

/// The identifier in a reply's payload: its first eight bytes, most
/// significant first. A payload of fewer than eight bytes carries none.
pub fn decode_id(payload: &[u8]) -> (id: Option<u64>)
    ensures
        id == decoded(payload@),
        id is Some <==> payload@.len() >= ID_WIDTH,
{
    if payload.len() < ID_WIDTH {
        return None;
    }
    let mut id: u64 = 0;
    let mut i: usize = 0;
    while i < ID_WIDTH
        invariant
            i <= ID_WIDTH,
            payload@.len() >= ID_WIDTH,
            id == be_prefix(payload@, i as nat),
        decreases ID_WIDTH - i,
    {
        proof {
            lemma_be_prefix_fits(payload@, i as nat);
            lemma_be_prefix_fits(payload@, (i + 1) as nat);
        }
        id = id * 0x100 + (payload[i] as u64);
        i += 1;
    }
    proof {
        lemma_be_prefix_whole(payload@);
    }
    Some(id)
}

/// The source of correlation identifiers.
pub struct ProbeScheduler {
    last: u64,
}

impl ProbeScheduler {
    /// The identifier generated last; zero before the first.
    pub closed spec fn last_id(&self) -> u64 {
        self.last
    }

    /// A scheduler whose first identifier will be 1.
    pub fn new() -> (scheduler: ProbeScheduler)
        ensures
            scheduler.last_id() == 0,
    {
        ProbeScheduler { last: 0 }
    }

    /// Generates the next identifier.
    pub fn next_id(&mut self) -> (id: u64)
        ensures
            id == following(old(self).last_id()),
            final(self).last_id() == id,
    {
        let id: u64 = if self.last == u64::MAX {
            0
        } else {
            self.last + 1
        };
        self.last = id;
        id
    }

    /// One scheduling tick at `now`: generates the next identifier, records
    /// it in `pending` as sent at `now`, and returns the probe to send. It
    /// does not wait for, or look at, earlier probes.
    pub fn tick(&mut self, pending: &mut PendingTable, now: u64) -> (probe: Probe)
        requires
            old(pending).wf(),
        ensures
            final(pending).wf(),
            probe.id == following(old(self).last_id()),
            final(self).last_id() == probe.id,
            final(pending)@ == old(pending)@.insert(probe.id, now),
            probe.payload@ == be_bytes(probe.id),
    {
        let id = self.next_id();
        let _ = pending.register(id, now);
        Probe { id, payload: encode_id(id) }
    }
}

} // verus!
