//! The rolling window of the most recent latency samples.

use std::collections::VecDeque;
use vstd::prelude::*;

verus! {

/// The capacity of a window made by [`SampleWindow::new`].
pub const DEFAULT_CAPACITY: usize = 1000;

/// The last `capacity` values of `history`, or all of it where it holds fewer.
pub open spec fn newest(history: Seq<u64>, capacity: nat) -> Seq<u64> {
    if history.len() <= capacity {
        history
    } else {
        history.subrange(history.len() - capacity, history.len() as int)
    }
}

/// What a window that holds `held` becomes when `sample` is pushed: the sample
/// goes to the newest end, and where that exceeds the capacity the oldest one
/// leaves.
pub open spec fn pushed(held: Seq<u64>, capacity: nat, sample: u64) -> Seq<u64> {
    let grown = held.push(sample);
    if grown.len() > capacity {
        grown.drop_first()
    } else {
        grown
    }
}

/// What a window becomes when `samples` are pushed one after the other.
pub open spec fn pushed_all(held: Seq<u64>, capacity: nat, samples: Seq<u64>) -> Seq<u64>
    decreases samples.len(),
{
    if samples.len() == 0 {
        held
    } else {
        pushed(pushed_all(held, capacity, samples.drop_last()), capacity, samples.last())
    }
}

/// A push on a window within its capacity keeps the newest of all it has seen.
pub proof fn lemma_pushed_is_newest(held: Seq<u64>, capacity: nat, sample: u64)
    requires
        held.len() <= capacity,
    ensures
        pushed(held, capacity, sample) == newest(held.push(sample), capacity),
        pushed(held, capacity, sample).len() <= capacity,
{
    let grown = held.push(sample);
    if grown.len() > capacity {
        assert(grown.drop_first() =~= grown.subrange(grown.len() - capacity, grown.len() as int));
    }
}

/// Taking the newest of a history, then pushing, is taking the newest of the
/// longer history.
proof fn lemma_newest_then_pushed(history: Seq<u64>, capacity: nat, sample: u64)
    ensures
        pushed(newest(history, capacity), capacity, sample) == newest(
            history.push(sample),
            capacity,
        ),
{
    assert(pushed(newest(history, capacity), capacity, sample) =~= newest(
        history.push(sample),
        capacity,
    ));
}

/// The window bound. After any run of pushes on a window within its capacity,
/// the window is still within its capacity, and it holds exactly the newest
/// `capacity` of what it held and what was pushed, in the order of arrival.
pub proof fn lemma_window_keeps_newest(held: Seq<u64>, capacity: nat, samples: Seq<u64>)
    requires
        held.len() <= capacity,
    ensures
        pushed_all(held, capacity, samples) == newest(held + samples, capacity),
        pushed_all(held, capacity, samples).len() <= capacity,
        pushed_all(held, capacity, samples).len() == if held.len() + samples.len() <= capacity {
            held.len() + samples.len()
        } else {
            capacity
        },
    decreases samples.len(),
{
    if samples.len() == 0 {
        assert(held + samples =~= held);
    } else {
        let front = samples.drop_last();
        lemma_window_keeps_newest(held, capacity, front);
        lemma_newest_then_pushed(held + front, capacity, samples.last());
        assert((held + front).push(samples.last()) =~= held + samples);
    }
}

/// From an empty window, what remains after any run of pushes is the newest
/// `capacity` of the pushed samples, oldest first.
pub proof fn lemma_window_from_empty(capacity: nat, samples: Seq<u64>)
    ensures
        pushed_all(Seq::empty(), capacity, samples) == newest(samples, capacity),
        pushed_all(Seq::empty(), capacity, samples).len() <= capacity,
{
    lemma_window_keeps_newest(Seq::empty(), capacity, samples);
    assert(Seq::<u64>::empty() + samples =~= samples);
}

/// A bounded first-in, first-out buffer of samples, oldest first.
pub struct SampleWindow {
    samples: VecDeque<u64>,
    capacity: usize,
}

impl View for SampleWindow {
    type V = Seq<u64>;

    closed spec fn view(&self) -> Seq<u64> {
        self.samples@
    }
}

impl SampleWindow {
    /// The most samples that the window holds at a time.
    pub closed spec fn spec_capacity(&self) -> nat {
        self.capacity as nat
    }

    /// The window holds no more than its capacity.
    pub open spec fn wf(&self) -> bool {
        self@.len() <= self.spec_capacity()
    }

    /// An empty window of [`DEFAULT_CAPACITY`].
    pub fn new() -> (window: SampleWindow)
        ensures
            window.wf(),
            window@ == Seq::<u64>::empty(),
            window.spec_capacity() == DEFAULT_CAPACITY,
    {
        SampleWindow::with_capacity(DEFAULT_CAPACITY)
    }

    /// An empty window that will hold up to `capacity` samples.
    pub fn with_capacity(capacity: usize) -> (window: SampleWindow)
        ensures
            window.wf(),
            window@ == Seq::<u64>::empty(),
            window.spec_capacity() == capacity,
    {
        SampleWindow { samples: VecDeque::new(), capacity }
    }

    /// Appends `sample` as the newest; at capacity, the oldest sample leaves.
    pub fn push(&mut self, sample: u64)
        requires
            old(self).wf(),
        ensures
            final(self).wf(),
            final(self).spec_capacity() == old(self).spec_capacity(),
            final(self)@ == pushed(old(self)@, old(self).spec_capacity(), sample),
            final(self)@ == newest(old(self)@.push(sample), old(self).spec_capacity()),
    {
        proof {
            lemma_pushed_is_newest(self@, self.spec_capacity(), sample);
        }
        if self.capacity == 0 {
            assert(self@.push(sample).drop_first() =~= self@);
            return ;
        }
        if self.samples.len() == self.capacity {
            let _ = self.samples.pop_front();
        }
        self.samples.push_back(sample);
        assert(self@ =~= pushed(old(self)@, old(self).spec_capacity(), sample));
    }

    /// How many samples the window holds.
    pub fn len(&self) -> (n: usize)
        requires
            self.wf(),
        ensures
            n == self@.len(),
            n <= self.spec_capacity(),
    {
        self.samples.len()
    }

    /// Whether the window holds no sample.
    pub fn is_empty(&self) -> (empty: bool)
        ensures
            empty == (self@.len() == 0),
    {
        self.samples.len() == 0
    }

    /// The most samples that the window holds at a time.
    pub fn capacity(&self) -> (capacity: usize)
        ensures
            capacity == self.spec_capacity(),
    {
        self.capacity
    }

    /// A copy of the samples as they stand, oldest first. Sorting or changing
    /// the copy leaves the window as it is.
    pub fn snapshot(&self) -> (copy: Vec<u64>)
        ensures
            copy@ == self@,
    {
        let n: usize = self.samples.len();
        let mut copy: Vec<u64> = Vec::with_capacity(n);
        let mut i: usize = 0;
        while i < n
            invariant
                n == self.samples@.len(),
                i <= n,
                copy@ == self.samples@.subrange(0, i as int),
            decreases n - i,
        {
            copy.push(self.samples[i]);
            assert(self.samples@.subrange(0, i + 1) =~= self.samples@.subrange(0, i as int).push(
                self.samples@[i as int],
            ));
            i += 1;
        }
        assert(self.samples@.subrange(0, n as int) =~= self.samples@);
        copy
    }
}

} // verus!
