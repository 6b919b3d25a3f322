//! Small pieces shared by the searchers.

use vstd::prelude::*;
use crate::interface::{Evaluation, BEST_EVAL, WORST_EVAL};
use crate::strategies::tree::{higher, total_of};
use std::sync::Arc;
use std::sync::atomic::AtomicBool;

verus! {

/// `v` brought into the range of scores.
pub open spec fn clamp(v: int) -> int {
    if v > BEST_EVAL {
        BEST_EVAL as int
    } else if v < WORST_EVAL {
        WORST_EVAL as int
    } else {
        v
    }
}

/// Tells whether `v` lies between the two sentinels, both included.
pub open spec fn in_range(v: int) -> bool {
    WORST_EVAL <= v <= BEST_EVAL
}

/// Saturates a score into the range between the two sentinels.
pub fn clamp_value(value: Evaluation) -> (v: Evaluation)
    ensures
        v == clamp(value as int),
        in_range(v as int),
{
    if value > BEST_EVAL {
        BEST_EVAL
    } else if value < WORST_EVAL {
        WORST_EVAL
    } else {
        value
    }
}

/// Saturates a wide number into the range of scores.
pub fn saturate(value: i64) -> (v: Evaluation)
    ensures
        v == clamp(value as int),
        in_range(v as int),
{
    if value > 1_000_000_000 {
        BEST_EVAL
    } else if value < -1_000_000_000 {
        WORST_EVAL
    } else {
        value as Evaluation
    }
}

/// Adds up `counts`, stopping at the largest `u64`.
pub fn sum_counts(counts: &Vec<u64>) -> (total: u64)
    ensures
        total == total_of(counts@),
{
    let mut total: u64 = 0;
    let mut i: usize = 0;
    while i < counts.len()
        invariant
            i <= counts@.len(),
            total == total_of(counts@.take(i as int)),
        decreases counts@.len() - i,
    {
        assert(counts@.take(i + 1).drop_last() =~= counts@.take(i as int));
        total = total.saturating_add(counts[i]);
        i += 1;
    }
    assert(counts@.take(i as int) =~= counts@);
    total
}

/// Polls a timeout flag. Without a flag there is no timeout.
pub fn timed_out(flag: &Option<Arc<AtomicBool>>) -> (fired: bool)
    ensures
        flag is None ==> !fired,
{
    match flag {
        Some(signal) => signal.load(std::sync::atomic::Ordering::Relaxed),
        None => false,
    }
}

/// A stack of empty move buffers, kept between the frames of a recursion so
/// that each frame need not allocate its own.
pub struct MovePool<M> {
    pool: Vec<Vec<M>>,
}

impl<M> MovePool<M> {
    /// Every buffer in the pool is empty.
    pub closed spec fn wf(&self) -> bool {
        forall|i: int| 0 <= i < self.pool@.len() ==> (#[trigger] self.pool@[i])@.len() == 0
    }

    /// How many buffers wait in the pool.
    pub closed spec fn spare(&self) -> nat {
        self.pool@.len()
    }

    /// An empty pool.
    pub fn new() -> (p: Self)
        ensures
            p.wf(),
            p.spare() == 0,
    {
        MovePool { pool: Vec::new() }
    }

    /// Hands out an empty buffer, a pooled one if there is any.
    pub fn acquire(&mut self) -> (buf: Vec<M>)
        requires
            old(self).wf(),
        ensures
            final(self).wf(),
            buf@.len() == 0,
            final(self).spare() == if old(self).spare() == 0 {
                0
            } else {
                (old(self).spare() - 1) as nat
            },
    {
        match self.pool.pop() {
            Some(buf) => buf,
            None => Vec::new(),
        }
    }

    /// Takes a buffer back and empties it.
    pub fn release(&mut self, buf: Vec<M>)
        requires
            old(self).wf(),
        ensures
            final(self).wf(),
            final(self).spare() == old(self).spare() + 1,
    {
        let mut buf = buf;
        buf.clear();
        self.pool.push(buf);
    }
}

/// `seen`, but no less than `floor`.
pub fn floored(seen: Evaluation, floor: Evaluation) -> (v: Evaluation)
    ensures
        v == higher(floor as int, seen as int),
{
    if seen < floor {
        floor
    } else {
        seen
    }
}

} // verus!
