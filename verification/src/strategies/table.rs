//! The transposition table: a fixed number of slots, each holding what an
//! earlier search found out about one position.

use vstd::prelude::*;
use vstd::rwlock::{RwLock, RwLockPredicate};
use crate::interface::{Evaluation, Game};
use crate::strategies::util::in_range;
use crate::strategies::iterative::Replacement;

verus! {

/// What a stored score says about the true one.
#[derive(Clone, Copy, Debug, PartialEq, Eq, Structural)]
pub enum EntryFlag {
    Exact,
    Upperbound,
    Lowerbound,
}

/// One slot of the table.
#[derive(Copy)]
pub struct Entry<M> {
    /// The fingerprint of the position; 0 in a slot never written.
    pub hash: u64,
    pub value: Evaluation,
    /// The remaining depth at which `value` was computed.
    pub depth: u8,
    pub flag: EntryFlag,
    /// The generation of the table when the slot was written.
    pub generation: u8,
    /// The move that gave `value` or caused the cutoff.
    pub best_move: Option<M>,
}

impl<M: Copy> Clone for Entry<M> {
    fn clone(&self) -> (copy: Self)
        ensures
            copy == *self,
    {
        *self
    }
}

/// The slot that was never written.
pub open spec fn empty_entry<M>() -> Entry<M> {
    Entry {
        hash: 0,
        value: 0,
        depth: 0,
        flag: EntryFlag::Exact,
        generation: 0,
        best_move: None,
    }
}

/// Tells whether `n` is 1, 2, 4, 8, ...
pub open spec fn is_power_of_two(n: nat) -> bool
    decreases n,
{
    n == 1 || (n > 1 && n % 2 == 0 && is_power_of_two(n / 2))
}

/// Tells whether `p` is the least power of two that is at least `n`.
pub open spec fn is_least_power_of_two(p: nat, n: nat) -> bool {
    &&& is_power_of_two(p)
    &&& p >= n
    &&& p == 1 || p / 2 < n
}

/// The least power of two that is at least `n`.
pub fn least_power_of_two(n: usize) -> (p: usize)
    requires
        n <= usize::MAX / 2,
    ensures
        is_least_power_of_two(p as nat, n as nat),
{
    let mut p: usize = 1;
    while p < n
        invariant
            n <= usize::MAX / 2,
            p >= 1,
            is_power_of_two(p as nat),
            p == 1 || p / 2 < n,
        decreases usize::MAX - p,
    {
        assert(is_power_of_two((p * 2) as nat)) by {
            assert((p * 2) / 2 == p);
        }
        p = p * 2;
    }
    p
}

/// What a probe of the table tells a search: the move to try first, the
/// window after tightening, and the score to return at once, if any.
pub struct Probe<M> {
    pub good_move: Option<M>,
    pub alpha: Evaluation,
    pub beta: Evaluation,
    pub cutoff: Option<Evaluation>,
}

/// The bound that a score `best` is, found in the window from `alpha_orig`
/// to `beta`.
pub open spec fn bound_of(alpha_orig: Evaluation, beta: Evaluation, best: Evaluation) -> EntryFlag {
    if best <= alpha_orig {
        EntryFlag::Upperbound
    } else if best >= beta {
        EntryFlag::Lowerbound
    } else {
        EntryFlag::Exact
    }
}

/// What a search at `depth` with the window from `alpha` to `beta` learns
/// from `found`. An entry always names the move to try first. One searched
/// at least as deep also speaks of the score: an exact one ends the search,
/// a lower bound raises `alpha`, an upper bound lowers `beta`, and if the
/// window is then empty the stored score ends the search as well.
pub open spec fn probe_of<M>(
    found: Option<Entry<M>>,
    depth: u8,
    good_move: Option<M>,
    alpha: Evaluation,
    beta: Evaluation,
) -> Probe<M> {
    match found {
        None => Probe { good_move, alpha, beta, cutoff: None },
        Some(entry) => {
            if entry.depth < depth {
                Probe { good_move: entry.best_move, alpha, beta, cutoff: None }
            } else {
                match entry.flag {
                    EntryFlag::Exact => Probe {
                        good_move: entry.best_move,
                        alpha,
                        beta,
                        cutoff: Some(entry.value),
                    },
                    EntryFlag::Lowerbound => {
                        let raised = if entry.value > alpha {
                            entry.value
                        } else {
                            alpha
                        };
                        Probe {
                            good_move: entry.best_move,
                            alpha: raised,
                            beta,
                            cutoff: if raised >= beta {
                                Some(entry.value)
                            } else {
                                None
                            },
                        }
                    },
                    EntryFlag::Upperbound => {
                        let lowered = if entry.value < beta {
                            entry.value
                        } else {
                            beta
                        };
                        Probe {
                            good_move: entry.best_move,
                            alpha,
                            beta: lowered,
                            cutoff: if alpha >= lowered {
                                Some(entry.value)
                            } else {
                                None
                            },
                        }
                    },
                }
            }
        },
    }
}

/// The table as a mathematical value.
pub struct TableView<M> {
    pub slots: Seq<Entry<M>>,
    pub mask: usize,
    pub generation: u8,
    pub strategy: Replacement,
}

impl<M> TableView<M> {
    /// How many slots one index stands for: a pair under `TwoTier`.
    pub open spec fn stride(self) -> nat {
        if self.strategy == Replacement::TwoTier {
            2
        } else {
            1
        }
    }

    /// The mask covers the slots, without the pair bit under `TwoTier`.
    pub open spec fn framed(self) -> bool {
        self.mask + self.stride() == self.slots.len()
    }

    /// The number of slots is a power of two, the mask covers them, and
    /// every stored score is in range.
    pub open spec fn wf(self) -> bool {
        &&& is_power_of_two(self.slots.len())
        &&& self.slots.len() <= usize::MAX
        &&& self.framed()
        &&& forall|i: int|
            0 <= i < self.slots.len() ==> in_range((#[trigger] self.slots[i]).value as int)
    }

    /// Tells whether `other` has the size, mask, generation and strategy
    /// of this table: all but what the slots hold.
    pub open spec fn same_shape(self, other: Self) -> bool {
        &&& self.slots.len() == other.slots.len()
        &&& self.mask == other.mask
        &&& self.generation == other.generation
        &&& self.strategy == other.strategy
    }

    /// The slot, or the first slot of the pair, that `hash` falls on.
    pub open spec fn index(self, hash: u64) -> int {
        (hash & (self.mask as u64)) as int
    }

    /// The entry stored for `hash`: the slot it falls on if the whole
    /// fingerprint matches, else under `TwoTier` the second of the pair.
    pub open spec fn lookup(self, hash: u64) -> Option<Entry<M>> {
        let i = self.index(hash);
        if self.slots[i].hash == hash {
            Some(self.slots[i])
        } else if self.strategy == Replacement::TwoTier && self.slots[i + 1].hash == hash {
            Some(self.slots[i + 1])
        } else {
            None
        }
    }

    /// Tells whether a result of `depth` may take the place of `occupant`
    /// by the depth-preferred rule: the occupant is of another generation,
    /// or was searched no deeper.
    pub open spec fn yields(self, occupant: Entry<M>, depth: u8) -> bool {
        occupant.generation != self.generation || occupant.depth <= depth
    }

    /// The slot that a result of `depth` for `hash` is written to, if any.
    pub open spec fn destination(self, hash: u64, depth: u8) -> Option<int> {
        let i = self.index(hash);
        match self.strategy {
            Replacement::Always => Some(i),
            Replacement::DepthPreferred => if self.yields(self.slots[i], depth) {
                Some(i)
            } else {
                None
            },
            Replacement::TwoTier => if self.yields(self.slots[i], depth) {
                Some(i)
            } else {
                Some(i + 1)
            },
        }
    }

    /// The entry that a store writes now.
    pub open spec fn stamped(
        self,
        hash: u64,
        value: Evaluation,
        depth: u8,
        flag: EntryFlag,
        best_move: M,
    ) -> Entry<M> {
        Entry { hash, value, depth, flag, generation: self.generation, best_move: Some(best_move) }
    }

    /// The table after a store.
    pub open spec fn store(
        self,
        hash: u64,
        value: Evaluation,
        depth: u8,
        flag: EntryFlag,
        best_move: M,
    ) -> Self {
        match self.destination(hash, depth) {
            Some(i) => TableView {
                slots: self.slots.update(i, self.stamped(hash, value, depth, flag, best_move)),
                ..self
            },
            None => self,
        }
    }

    /// The table in its next generation; after 255 comes 0.
    pub open spec fn advance_generation(self) -> Self {
        TableView {
            generation: if self.generation == 255 {
                0u8
            } else {
                (self.generation + 1) as u8
            },
            ..self
        }
    }

    /// What a search learns from the table about `hash`.
    pub open spec fn check(
        self,
        hash: u64,
        depth: u8,
        good_move: Option<M>,
        alpha: Evaluation,
        beta: Evaluation,
    ) -> Probe<M> {
        probe_of(self.lookup(hash), depth, good_move, alpha, beta)
    }

    /// The table after the result of a search is recorded.
    pub open spec fn update(
        self,
        hash: u64,
        alpha_orig: Evaluation,
        beta: Evaluation,
        depth: u8,
        best: Evaluation,
        best_move: M,
    ) -> Self {
        self.store(hash, best, depth, bound_of(alpha_orig, beta, best), best_move)
    }

    /// Where `hash` falls lies inside the table, pair included.
    pub proof fn lemma_index_in_bounds(self, hash: u64)
        requires
            self.framed(),
        ensures
            0 <= self.index(hash) <= self.mask,
            self.index(hash) + self.stride() <= self.slots.len(),
    {
        let m = self.mask as u64;
        assert(hash & m <= m) by (bit_vector);
    }

    /// A store keeps the table well formed.
    pub proof fn lemma_store_wf(
        self,
        hash: u64,
        value: Evaluation,
        depth: u8,
        flag: EntryFlag,
        best_move: M,
    )
        requires
            self.wf(),
            in_range(value as int),
        ensures
            self.store(hash, value, depth, flag, best_move).wf(),
    {
        self.lemma_index_in_bounds(hash);
    }
}

impl<M> TableView<M> {
    /// Tells whether no slot was ever written.
    pub open spec fn is_empty(self) -> bool {
        forall|i: int| 0 <= i < self.slots.len() ==> #[trigger] self.slots[i] == empty_entry::<M>()
    }

    /// A store leaves the shape of the table alone: its size, mask,
    /// generation and strategy.
    pub proof fn lemma_store_keeps_shape(
        self,
        hash: u64,
        value: Evaluation,
        depth: u8,
        flag: EntryFlag,
        best_move: M,
    )
        requires
            self.wf(),
        ensures
            ({
                let after = self.store(hash, value, depth, flag, best_move);
                &&& after.slots.len() == self.slots.len()
                &&& after.mask == self.mask
                &&& after.generation == self.generation
                &&& after.strategy == self.strategy
                &&& after.index(hash) == self.index(hash)
            }),
    {
        self.lemma_index_in_bounds(hash);
    }

    /// In a table that holds nothing else, what is stored for a position is
    /// what a lookup of it gives back, stamped with the current generation,
    /// whatever the strategy.
    pub proof fn lemma_store_then_lookup(
        self,
        hash: u64,
        value: Evaluation,
        depth: u8,
        flag: EntryFlag,
        best_move: M,
    )
        requires
            self.wf(),
            self.is_empty(),
        ensures
            self.store(hash, value, depth, flag, best_move).lookup(hash) == Some(
                Entry { hash, value, depth, flag, generation: self.generation, best_move: Some(best_move) },
            ),
    {
        self.lemma_index_in_bounds(hash);
        assert(self.slots[self.index(hash)] == empty_entry::<M>());
    }

    /// Under `Always` a store takes the slot whatever it held: afterwards
    /// the slot holds the new entry, a lookup of the new position finds it,
    /// and every other slot is as before.
    pub proof fn lemma_always_overwrites(
        self,
        hash: u64,
        value: Evaluation,
        depth: u8,
        flag: EntryFlag,
        best_move: M,
    )
        requires
            self.wf(),
            self.strategy == Replacement::Always,
        ensures
            ({
                let after = self.store(hash, value, depth, flag, best_move);
                let entry = self.stamped(hash, value, depth, flag, best_move);
                &&& after.slots[self.index(hash)] == entry
                &&& after.lookup(hash) == Some(entry)
                &&& forall|j: int|
                    0 <= j < self.slots.len() && j != self.index(hash) ==> after.slots[j]
                        == self.slots[j]
            }),
    {
        self.lemma_index_in_bounds(hash);
    }

    /// Under `Always`, of two stores that fall on one slot the second stays
    /// and the first is gone.
    pub proof fn lemma_always_second_store_wins(
        self,
        first: Entry<M>,
        first_move: M,
        second: Entry<M>,
        second_move: M,
    )
        requires
            self.wf(),
            self.strategy == Replacement::Always,
            self.index(first.hash) == self.index(second.hash),
        ensures
            ({
                let after = self.store(
                    first.hash,
                    first.value,
                    first.depth,
                    first.flag,
                    first_move,
                ).store(second.hash, second.value, second.depth, second.flag, second_move);
                &&& after.lookup(second.hash) == Some(
                    self.stamped(second.hash, second.value, second.depth, second.flag, second_move),
                )
                &&& first.hash != second.hash ==> after.lookup(first.hash) is None
            }),
    {
        self.lemma_index_in_bounds(first.hash);
        self.lemma_index_in_bounds(second.hash);
    }

    /// Under `DepthPreferred` a store gives way to an occupant of the same
    /// generation that was searched deeper: the table stays as it is.
    pub proof fn lemma_depth_preferred_keeps_deeper(
        self,
        hash: u64,
        value: Evaluation,
        depth: u8,
        flag: EntryFlag,
        best_move: M,
    )
        requires
            self.wf(),
            self.strategy == Replacement::DepthPreferred,
            self.slots[self.index(hash)].generation == self.generation,
            self.slots[self.index(hash)].depth > depth,
        ensures
            self.store(hash, value, depth, flag, best_move) == self,
    {
    }

    /// Under `DepthPreferred` a store takes the slot from an occupant of
    /// another generation, or of no greater depth.
    pub proof fn lemma_depth_preferred_replaces(
        self,
        hash: u64,
        value: Evaluation,
        depth: u8,
        flag: EntryFlag,
        best_move: M,
    )
        requires
            self.wf(),
            self.strategy == Replacement::DepthPreferred,
            self.slots[self.index(hash)].generation != self.generation || self.slots[self.index(
                hash,
            )].depth <= depth,
        ensures
            ({
                let after = self.store(hash, value, depth, flag, best_move);
                let entry = self.stamped(hash, value, depth, flag, best_move);
                &&& after.slots[self.index(hash)] == entry
                &&& after.lookup(hash) == Some(entry)
            }),
    {
        self.lemma_index_in_bounds(hash);
    }

    /// What was written in the current generation gives way to any store
    /// once the generation has advanced, however deep it was searched,
    /// under `DepthPreferred` and in the first slot of a pair under
    /// `TwoTier`.
    pub proof fn lemma_advance_generation_frees(
        self,
        hash: u64,
        value: Evaluation,
        depth: u8,
        flag: EntryFlag,
        best_move: M,
    )
        requires
            self.wf(),
            self.slots[self.index(hash)].generation == self.generation,
        ensures
            ({
                let next = self.advance_generation();
                let after = next.store(hash, value, depth, flag, best_move);
                let entry = next.stamped(hash, value, depth, flag, best_move);
                &&& next.wf()
                &&& next.generation != self.generation
                &&& after.slots[self.index(hash)] == entry
                &&& after.lookup(hash) == Some(entry)
            }),
    {
        self.lemma_index_in_bounds(hash);
        self.advance_generation().lemma_index_in_bounds(hash);
    }

    /// Under `TwoTier` a store that must give way to the first slot of its
    /// pair, because that one is of the same generation and was searched
    /// deeper, goes to the second slot. The first slot stays, and each of
    /// the two positions is found by its own fingerprint.
    pub proof fn lemma_two_tier_fills_second(
        self,
        hash: u64,
        value: Evaluation,
        depth: u8,
        flag: EntryFlag,
        best_move: M,
    )
        requires
            self.wf(),
            self.strategy == Replacement::TwoTier,
            self.slots[self.index(hash)].generation == self.generation,
            self.slots[self.index(hash)].depth > depth,
        ensures
            ({
                let after = self.store(hash, value, depth, flag, best_move);
                let entry = self.stamped(hash, value, depth, flag, best_move);
                let first = self.slots[self.index(hash)];
                &&& after.slots[self.index(hash)] == first
                &&& after.slots[self.index(hash) + 1] == entry
                &&& after.index(first.hash) == self.index(hash) ==> after.lookup(first.hash)
                    == Some(first)
                &&& first.hash != hash ==> after.lookup(hash) == Some(entry)
            }),
    {
        self.lemma_index_in_bounds(hash);
    }

    /// Under `TwoTier` a store takes the first slot of its pair from an
    /// occupant of another generation, or of no greater depth, and leaves
    /// the second slot alone.
    pub proof fn lemma_two_tier_takes_first(
        self,
        hash: u64,
        value: Evaluation,
        depth: u8,
        flag: EntryFlag,
        best_move: M,
    )
        requires
            self.wf(),
            self.strategy == Replacement::TwoTier,
            self.slots[self.index(hash)].generation != self.generation || self.slots[self.index(
                hash,
            )].depth <= depth,
        ensures
            ({
                let after = self.store(hash, value, depth, flag, best_move);
                let entry = self.stamped(hash, value, depth, flag, best_move);
                &&& after.slots[self.index(hash)] == entry
                &&& after.slots[self.index(hash) + 1] == self.slots[self.index(hash) + 1]
                &&& after.lookup(hash) == Some(entry)
            }),
    {
        self.lemma_index_in_bounds(hash);
    }

    /// Under `TwoTier` every fingerprint falls on the first slot of a pair:
    /// an even index.
    pub proof fn lemma_two_tier_index_is_even(self, hash: u64)
        requires
            self.wf(),
            self.strategy == Replacement::TwoTier,
        ensures
            self.index(hash) % 2 == 0,
    {
        let m = self.mask as u64;
        let n = self.slots.len();
        assert(n % 2 == 0) by {
            reveal_with_fuel(is_power_of_two, 2);
        }
        assert(m % 2 == 0);
        assert(m % 2 == 0 ==> (hash & m) % 2 == 0) by (bit_vector);
    }

    /// A lookup only ever returns an entry with the fingerprint asked for,
    /// whose score is in range.
    pub proof fn lemma_lookup_matches(self, hash: u64)
        requires
            self.wf(),
        ensures
            self.lookup(hash) matches Some(entry) ==> entry.hash == hash && in_range(
                entry.value as int,
            ),
    {
        self.lemma_index_in_bounds(hash);
    }
}

/// The score that a search returns and the window it goes on with, given
/// what the table held for the position.
pub fn probe_entry<M: Copy>(
    found: Option<Entry<M>>,
    depth: u8,
    good_move: &mut Option<M>,
    alpha: &mut Evaluation,
    beta: &mut Evaluation,
) -> (cutoff: Option<Evaluation>)
    ensures
        (Probe { good_move: *final(good_move), alpha: *final(alpha), beta: *final(beta), cutoff })
            == probe_of(found, depth, *old(good_move), *old(alpha), *old(beta)),
{
    if let Some(entry) = found {
        *good_move = entry.best_move;
        if entry.depth >= depth {
            match entry.flag {
                EntryFlag::Exact => {
                    return Some(entry.value);
                },
                EntryFlag::Lowerbound => {
                    if entry.value > *alpha {
                        *alpha = entry.value;
                    }
                },
                EntryFlag::Upperbound => {
                    if entry.value < *beta {
                        *beta = entry.value;
                    }
                },
            }
            if *alpha >= *beta {
                return Some(entry.value);
            }
        }
    }
    None
}

/// Classifies a score found in the window from `alpha_orig` to `beta`.
pub fn bound_flag(alpha_orig: Evaluation, beta: Evaluation, best: Evaluation) -> (flag: EntryFlag)
    ensures
        flag == bound_of(alpha_orig, beta, best),
{
    if best <= alpha_orig {
        EntryFlag::Upperbound
    } else if best >= beta {
        EntryFlag::Lowerbound
    } else {
        EntryFlag::Exact
    }
}

/// The line of play that the table remembers from `s`: the stored move
/// of `s`, then that of the position it leads to, and so on, up to
/// `max_len` moves or until the table holds for a position no move, or none
/// that is a move of it.
pub open spec fn principal_variation<G: Game>(
    table: TableView<G::M>,
    s: G::S,
    max_len: nat,
) -> Seq<G::M>
    decreases max_len,
{
    if max_len == 0 {
        Seq::empty()
    } else {
        match table.lookup(G::hash(s)) {
            Some(entry) => match entry.best_move {
                Some(m) => if G::moves(s).contains(m) {
                    seq![m] + principal_variation::<G>(
                        table,
                        G::play(s, m),
                        (max_len - 1) as nat,
                    )
                } else {
                    Seq::empty()
                },
                None => Seq::empty(),
            },
            None => Seq::empty(),
        }
    }
}

/// Tells whether `m` is one of the moves of `s`.
pub fn is_move<G: Game>(s: &G::S, m: G::M) -> (found: bool)
    ensures
        found == G::moves(*s).contains(m),
{
    let mut moves: Vec<G::M> = Vec::new();
    G::generate_moves(s, &mut moves);
    assert(moves@ =~= G::moves(*s));
    let mut i: usize = 0;
    while i < moves.len()
        invariant
            i <= moves@.len(),
            moves@ == G::moves(*s),
            forall|j: int| 0 <= j < i ==> moves@[j] != m,
        decreases moves@.len() - i,
    {
        if G::same_move(&moves[i], &m) {
            return true;
        }
        i += 1;
    }
    false
}

/// Tells whether `line` can be played from `s`: each of its moves is a
/// move of the position that the moves before it lead to.
pub open spec fn playable_line<G: Game>(s: G::S, line: Seq<G::M>) -> bool
    decreases line.len(),
{
    line.len() == 0 || (G::moves(s).contains(line[0]) && playable_line::<G>(
        G::play(s, line[0]),
        line.skip(1),
    ))
}

/// A line whose moves lead from each position of `states` to the next,
/// each a move of the position it is played in, can be played from the
/// `from`-th of them on.
pub proof fn lemma_chain_is_playable<G: Game>(states: Seq<G::S>, line: Seq<G::M>, from: nat)
    requires
        states.len() == line.len() + 1,
        from <= line.len(),
        forall|k: int| 0 <= k < line.len() ==> states[k + 1] == G::play(states[k], line[k]),
        forall|k: int| 0 <= k < line.len() ==> G::moves(#[trigger] states[k]).contains(line[k]),
    ensures
        playable_line::<G>(states[from as int], line.skip(from as int)),
    decreases line.len() - from,
{
    let rest = line.skip(from as int);
    if from < line.len() {
        lemma_chain_is_playable::<G>(states, line, from + 1);
        assert(rest[0] == line[from as int]);
        assert(rest.skip(1) =~= line.skip(from as int + 1));
        assert(states[from as int + 1] == G::play(states[from as int], line[from as int]));
        assert(G::moves(states[from as int]).contains(line[from as int]));
    }
}

/// Takes back the moves of `line`, last first, on a position that they
/// led to from `start`.
fn rewind<G: Game>(line: &Vec<G::M>, s: &mut G::S, Ghost(states): Ghost<Seq<G::S>>)
    requires
        states.len() == line@.len() + 1,
        forall|k: int| 0 <= k < line@.len() ==> states[k + 1] == G::play(states[k], line@[k]),
        forall|k: int| 0 <= k < line@.len() ==> G::moves(#[trigger] states[k]).contains(line@[k]),
        *old(s) == states[line@.len() as int],
    ensures
        *final(s) == states[0],
{
    let mut j: usize = line.len();
    while j > 0
        invariant
            j <= line@.len(),
            states.len() == line@.len() + 1,
            forall|k: int| 0 <= k < line@.len() ==> states[k + 1] == G::play(states[k], line@[k]),
            forall|k: int|
                0 <= k < line@.len() ==> G::moves(#[trigger] states[k]).contains(line@[k]),
            *s == states[j as int],
        decreases j,
    {
        j -= 1;
        assert(states[j + 1] == G::play(states[j as int], line@[j as int]));
        assert(G::moves(states[j as int]).contains(line@[j as int]));
        G::undo(line[j], s);
    }
}

/// How many entries fit in `bytes` when one takes `per_entry`.
pub open spec fn entries_in(bytes: nat, per_entry: nat) -> nat {
    if per_entry == 0 {
        bytes
    } else {
        bytes / per_entry
    }
}

/// A transposition table owned by one searcher.
pub struct TranspositionTable<M> {
    table: Vec<Entry<M>>,
    mask: usize,
    generation: u8,
    strategy: Replacement,
}

impl<M> View for TranspositionTable<M> {
    type V = TableView<M>;

    closed spec fn view(&self) -> TableView<M> {
        TableView {
            slots: self.table@,
            mask: self.mask,
            generation: self.generation,
            strategy: self.strategy,
        }
    }
}

impl<M: Copy> TranspositionTable<M> {
    /// The table, as a mathematical value, is well formed.
    pub open spec fn wf(&self) -> bool {
        self@.wf()
    }

    /// An empty table of about `table_byte_size` bytes: the number of slots
    /// is the least power of two that holds as many entries as fit in that
    /// many bytes, and at least one index.
    pub fn new(table_byte_size: usize, strategy: Replacement) -> (t: Self)
        requires
            table_byte_size <= usize::MAX / 2,
        ensures
            t.wf(),
            t@.strategy == strategy,
            t@.generation == 0,
            is_least_power_of_two(
                t@.slots.len(),
                vstd::math::max(
                    entries_in(
                        table_byte_size as nat,
                        vstd::layout::size_of::<Entry<M>>(),
                    ) as int,
                    t@.stride() as int,
                ) as nat,
            ),
            forall|i: int| 0 <= i < t@.slots.len() ==> t@.slots[i] == empty_entry::<M>(),
    {
        let per_entry = std::mem::size_of::<Entry<M>>();
        let wanted = if per_entry == 0 {
            table_byte_size
        } else {
            table_byte_size / per_entry
        };
        let floor: usize = if strategy == Replacement::TwoTier {
            2
        } else {
            1
        };
        let size = least_power_of_two(if wanted < floor {
            floor
        } else {
            wanted
        });
        let mut table: Vec<Entry<M>> = Vec::with_capacity(size);
        let mut i: usize = 0;
        while i < size
            invariant
                i <= size,
                table@.len() == i,
                forall|j: int| 0 <= j < i ==> table@[j] == empty_entry::<M>(),
            decreases size - i,
        {
            table.push(
                Entry {
                    hash: 0,
                    value: 0,
                    depth: 0,
                    flag: EntryFlag::Exact,
                    generation: 0,
                    best_move: None,
                },
            );
            i += 1;
        }
        TranspositionTable { table, mask: size - floor, generation: 0, strategy }
    }

    fn slot(&self, hash: u64) -> (i: usize)
        requires
            self.wf(),
        ensures
            i == self@.index(hash),
            i + self@.stride() <= self@.slots.len(),
    {
        proof {
            self@.lemma_index_in_bounds(hash);
        }
        (hash & (self.mask as u64)) as usize
    }

    /// The number of slots.
    pub fn capacity(&self) -> (slots: usize)
        ensures
            slots == self@.slots.len(),
    {
        self.table.len()
    }

    /// The generation that stores are stamped with.
    pub fn generation(&self) -> (generation: u8)
        ensures
            generation == self@.generation,
    {
        self.generation
    }

    /// A copy of the entry stored for `hash`, if there is one.
    pub fn lookup(&self, hash: u64) -> (found: Option<Entry<M>>)
        requires
            self.wf(),
        ensures
            found == self@.lookup(hash),
    {
        let index = self.slot(hash);
        let entry = self.table[index];
        if hash == entry.hash {
            Some(entry)
        } else if self.strategy == Replacement::TwoTier {
            let entry = self.table[index + 1];
            if hash == entry.hash {
                Some(entry)
            } else {
                None
            }
        } else {
            None
        }
    }

    /// Records a result where the replacement strategy allows, stamped with
    /// the current generation.
    pub fn store(&mut self, hash: u64, value: Evaluation, depth: u8, flag: EntryFlag, best_move: M)
        requires
            old(self).wf(),
            in_range(value as int),
        ensures
            final(self).wf(),
            final(self)@ == old(self)@.store(hash, value, depth, flag, best_move),
    {
        let index = self.slot(hash);
        let dest = match self.strategy {
            Replacement::Always => Some(index),
            Replacement::DepthPreferred => {
                let entry = self.table[index];
                if entry.generation != self.generation || entry.depth <= depth {
                    Some(index)
                } else {
                    None
                }
            },
            Replacement::TwoTier => {
                let entry = self.table[index];
                if entry.generation != self.generation || entry.depth <= depth {
                    Some(index)
                } else {
                    Some(index + 1)
                }
            },
        };
        if let Some(index) = dest {
            self.table[index] = Entry {
                hash,
                value,
                depth,
                flag,
                generation: self.generation,
                best_move: Some(best_move),
            };
        }
        proof {
            old(self)@.lemma_store_wf(hash, value, depth, flag, best_move);
            assert(self@.slots =~= old(self)@.store(hash, value, depth, flag, best_move).slots);
        }
    }

    /// Starts a new generation, so that what was stored before gives way.
    pub fn advance_generation(&mut self)
        requires
            old(self).wf(),
        ensures
            final(self).wf(),
            final(self)@ == old(self)@.advance_generation(),
    {
        self.generation = self.generation.wrapping_add(1);
    }

    /// Moves the table to the generation `generation`.
    pub fn set_generation(&mut self, generation: u8)
        requires
            old(self).wf(),
        ensures
            final(self).wf(),
            final(self)@ == (TableView { generation, ..old(self)@ }),
    {
        self.generation = generation;
    }

    /// Probes the table for `hash` on behalf of a search at `depth`:
    /// `good_move` gets the stored move, the window is tightened, and a
    /// score is returned if the search can end with it.
    pub fn check(
        &self,
        hash: u64,
        depth: u8,
        good_move: &mut Option<M>,
        alpha: &mut Evaluation,
        beta: &mut Evaluation,
    ) -> (cutoff: Option<Evaluation>)
        requires
            self.wf(),
        ensures
            (Probe {
                good_move: *final(good_move),
                alpha: *final(alpha),
                beta: *final(beta),
                cutoff,
            }) == self@.check(hash, depth, *old(good_move), *old(alpha), *old(beta)),
    {
        probe_entry(self.lookup(hash), depth, good_move, alpha, beta)
    }

    /// Records the result `best` of a search of `hash` at `depth` that
    /// started with the window from `alpha_orig` to `beta`.
    pub fn update(
        &mut self,
        hash: u64,
        alpha_orig: Evaluation,
        beta: Evaluation,
        depth: u8,
        best: Evaluation,
        best_move: M,
    )
        requires
            old(self).wf(),
            in_range(best as int),
        ensures
            final(self).wf(),
            final(self)@ == old(self)@.update(hash, alpha_orig, beta, depth, best, best_move),
    {
        let flag = bound_flag(alpha_orig, beta, best);
        self.store(hash, best, depth, flag, best_move);
    }

    /// Fills `pv` with the line of play that the table remembers from `s`,
    /// at most `max_len` moves long, and leaves `s` as it was. The line ends
    /// where the table holds no move of the position reached.
    pub fn populate_pv<G: Game<M = M>>(&self, pv: &mut Vec<M>, s: &mut G::S, max_len: usize)
        requires
            self.wf(),
        ensures
            final(pv)@ == principal_variation::<G>(self@, *old(s), max_len as nat),
            *final(s) == *old(s),
    {
        pv.clear();
        let ghost mut states: Seq<G::S> = seq![*s];
        let mut open = true;
        while open && pv.len() < max_len
            invariant
                self.wf(),
                pv@.len() <= max_len,
                states.len() == pv@.len() + 1,
                states[0] == *old(s),
                forall|k: int| 0 <= k < pv@.len() ==> states[k + 1] == G::play(states[k], pv@[k]),
                forall|k: int| 0 <= k < pv@.len() ==> G::moves(#[trigger] states[k]).contains(pv@[k]),
                *s == states[pv@.len() as int],
                open ==> pv@ + principal_variation::<G>(self@, *s, (max_len - pv@.len()) as nat)
                    == principal_variation::<G>(self@, *old(s), max_len as nat),
                !open ==> pv@ == principal_variation::<G>(self@, *old(s), max_len as nat),
            decreases (if open { 1nat } else { 0nat }), max_len - pv@.len(),
        {
            let ghost line = pv@;
            let ghost here = *s;
            let hash = G::zobrist_hash(s);
            let stored = match self.lookup(hash) {
                Some(entry) => entry.best_move,
                None => None,
            };
            let next = match stored {
                Some(m) => if is_move::<G>(s, m) {
                    Some(m)
                } else {
                    None
                },
                None => None,
            };
            match next {
                Some(m) => {
                    pv.push(m);
                    G::apply(m, s);
                    proof {
                        states = states.push(*s);
                        let rest = principal_variation::<G>(
                            self@,
                            *s,
                            (max_len - pv@.len()) as nat,
                        );
                        assert(principal_variation::<G>(self@, here, (max_len - line.len()) as nat)
                            == seq![m] + rest);
                        assert(pv@ + rest =~= line + (seq![m] + rest));
                    }
                },
                None => {
                    open = false;
                    proof {
                        assert(principal_variation::<G>(self@, here, (max_len - line.len()) as nat)
                            =~= Seq::<M>::empty());
                        assert(line + Seq::<M>::empty() =~= line);
                    }
                },
            }
        }
        proof {
            if open {
                assert(principal_variation::<G>(self@, *s, 0) =~= Seq::<M>::empty());
                assert(pv@ + Seq::<M>::empty() =~= pv@);
            }
        }
        rewind::<G>(pv, s, Ghost(states));
    }
}

/// What the lock around a shared table guards: a well-formed table of
/// `slots` slots, in pairs, whose every entry is one of which `truth`
/// holds.
#[verifier::reject_recursive_types(M)]
pub struct Guarded<M> {
    pub slots: nat,
    pub truth: spec_fn(Entry<M>) -> bool,
}

impl<M: Copy> RwLockPredicate<TranspositionTable<M>> for Guarded<M> {
    open spec fn inv(self, table: TranspositionTable<M>) -> bool {
        &&& table.wf()
        &&& table@.slots.len() == self.slots
        &&& table@.strategy == Replacement::TwoTier
        &&& forall|i: int| 0 <= i < table@.slots.len() ==> (self.truth)(#[trigger] table@.slots[i])
    }
}

/// Tells whether a lookup of `hash` may have given `found`: nothing, or an
/// entry with that fingerprint and a score in range.
pub open spec fn answers<M>(found: Option<Entry<M>>, hash: u64) -> bool {
    found matches Some(entry) ==> entry.hash == hash && in_range(entry.value as int)
}

/// The generation after `generation`; after 255 comes 0.
pub open spec fn next_generation(generation: u8) -> u8 {
    if generation == 255 {
        0
    } else {
        (generation + 1) as u8
    }
}

/// A transposition table that the threads of one search share. Each
/// operation takes the lock for itself, so an entry is read as one store
/// wrote it, never as a mix of two.
#[verifier::reject_recursive_types(M)]
pub struct ConcurrentTable<M: Copy> {
    shared: RwLock<TranspositionTable<M>, Guarded<M>>,
    generation: u8,
}

impl<M: Copy> ConcurrentTable<M> {
    /// The number of slots.
    pub closed spec fn capacity(&self) -> nat {
        self.shared.pred().slots
    }

    /// The generation that stores are stamped with.
    pub closed spec fn generation(&self) -> u8 {
        self.generation
    }

    /// What holds of every entry of the table, by the lock that guards it.
    pub closed spec fn truth(&self) -> spec_fn(Entry<M>) -> bool {
        self.shared.pred().truth
    }

    /// An empty table of about `table_byte_size` bytes, with pairs of
    /// slots: their number is the least power of two that holds as many
    /// entries as fit in that many bytes, and at least one pair. Nothing is
    /// asked of its entries.
    pub fn new(table_byte_size: usize) -> (t: Self)
        requires
            table_byte_size <= usize::MAX / 2,
        ensures
            t.generation() == 0,
            forall|e: Entry<M>| #[trigger] (t.truth())(e),
            is_least_power_of_two(
                t.capacity(),
                vstd::math::max(
                    entries_in(
                        table_byte_size as nat,
                        vstd::layout::size_of::<Entry<M>>(),
                    ) as int,
                    2,
                ) as nat,
            ),
    {
        Self::guarded(table_byte_size, Ghost(|e: Entry<M>| true))
    }

    /// An empty table as `new` makes it, whose lock lets in no entry but
    /// those of which `truth` holds.
    pub fn guarded(table_byte_size: usize, Ghost(truth): Ghost<spec_fn(Entry<M>) -> bool>) -> (t:
        Self)
        requires
            table_byte_size <= usize::MAX / 2,
            truth(empty_entry::<M>()),
        ensures
            t.generation() == 0,
            t.truth() == truth,
            is_least_power_of_two(
                t.capacity(),
                vstd::math::max(
                    entries_in(
                        table_byte_size as nat,
                        vstd::layout::size_of::<Entry<M>>(),
                    ) as int,
                    2,
                ) as nat,
            ),
    {
        let table = TranspositionTable::new(table_byte_size, Replacement::TwoTier);
        let ghost guarded = Guarded { slots: table@.slots.len(), truth };
        ConcurrentTable { shared: RwLock::new(table, Ghost(guarded)), generation: 0 }
    }

    /// Puts the table under a lock that asks `truth` of its entries, where
    /// that holds of every entry that the lock before let in. The table,
    /// its slots and its generation stay as they are.
    pub fn regard(&mut self, Ghost(truth): Ghost<spec_fn(Entry<M>) -> bool>)
        requires
            forall|e: Entry<M>| #[trigger] (old(self).truth())(e) ==> truth(e),
        ensures
            final(self).truth() == truth,
            final(self).capacity() == old(self).capacity(),
            final(self).generation() == old(self).generation(),
    {
        let spare = TranspositionTable::new(0, Replacement::TwoTier);
        let mut lock = RwLock::new(
            spare,
            Ghost(Guarded { slots: spare@.slots.len(), truth: |e: Entry<M>| true }),
        );
        std::mem::swap(&mut self.shared, &mut lock);
        let table = lock.into_inner();
        let ghost guarded = Guarded { slots: table@.slots.len(), truth };
        assert forall|i: int| 0 <= i < table@.slots.len() implies truth(
            #[trigger] table@.slots[i],
        ) by {
            assert((old(self).truth())(table@.slots[i]));
        }
        self.shared = RwLock::new(table, Ghost(guarded));
    }

    /// The number of slots.
    pub fn slots(&self) -> (slots: usize)
        ensures
            slots == self.capacity(),
    {
        let handle = self.shared.acquire_read();
        let slots = handle.borrow().capacity();
        handle.release_read();
        slots
    }

    /// The generation that stores are stamped with.
    pub fn current_generation(&self) -> (generation: u8)
        ensures
            generation == self.generation(),
    {
        self.generation
    }

    /// A copy of the entry stored for `hash`, if the table holds one at the
    /// moment: what a lookup gives in the table as it stands while the lock
    /// is held, a well-formed table of this one's slots, in pairs.
    pub fn lookup(&self, hash: u64) -> (found: Option<Entry<M>>)
        ensures
            answers(found, hash),
            exists|held: TableView<M>|
                #[trigger] held.lookup(hash) == found && held.wf() && held.slots.len()
                    == self.capacity() && held.strategy == Replacement::TwoTier,
            found matches Some(entry) ==> (self.truth())(entry),
    {
        let handle = self.shared.acquire_read();
        let table = handle.borrow();
        proof {
            table@.lemma_lookup_matches(hash);
            table@.lemma_index_in_bounds(hash);
        }
        let found = table.lookup(hash);
        assert(table@.lookup(hash) == found && table@.wf() && table@.slots.len()
            == self.capacity());
        handle.release_read();
        found
    }

    /// Starts a new generation, so that what was stored before gives way.
    pub fn advance_generation(&mut self)
        ensures
            final(self).generation() == next_generation(old(self).generation()),
            final(self).capacity() == old(self).capacity(),
            final(self).truth() == old(self).truth(),
    {
        self.generation = self.generation.wrapping_add(1);
    }

    /// Probes the table for `hash` on behalf of a search at `depth`, as
    /// `probe_entry` does with what the table holds at the moment.
    pub fn check(
        &self,
        hash: u64,
        depth: u8,
        good_move: &mut Option<M>,
        alpha: &mut Evaluation,
        beta: &mut Evaluation,
    ) -> (cutoff: Option<Evaluation>)
        ensures
            exists|found: Option<Entry<M>>|
                answers(found, hash) && (found matches Some(entry) ==> (self.truth())(entry))
                    && #[trigger] probe_of(found, depth, *old(good_move), *old(alpha), *old(beta))
                    == (Probe {
                    good_move: *final(good_move),
                    alpha: *final(alpha),
                    beta: *final(beta),
                    cutoff,
                }),
    {
        let found = self.lookup(hash);
        let cutoff = probe_entry(found, depth, good_move, alpha, beta);
        assert(probe_of(found, depth, *old(good_move), *old(alpha), *old(beta)) == (Probe {
            good_move: *good_move,
            alpha: *alpha,
            beta: *beta,
            cutoff,
        }));
        cutoff
    }

    /// Records the result `best` of a search of `hash` at `depth` that
    /// started with the window from `alpha_orig` to `beta`, stamped with
    /// the current generation, in one step that no other thread sees half
    /// done. The entry must be one that the lock lets in.
    pub fn concurrent_update(
        &self,
        hash: u64,
        alpha_orig: Evaluation,
        beta: Evaluation,
        depth: u8,
        best: Evaluation,
        best_move: M,
    )
        requires
            in_range(best as int),
            (self.truth())(
                Entry {
                    hash,
                    value: best,
                    depth,
                    flag: bound_of(alpha_orig, beta, best),
                    generation: self.generation(),
                    best_move: Some(best_move),
                },
            ),
    {
        let (mut table, handle) = self.shared.acquire_write();
        let ghost before = table@;
        table.set_generation(self.generation);
        proof {
            table@.lemma_index_in_bounds(hash);
        }
        proof {
            table@.lemma_store_keeps_shape(
                hash,
                best,
                depth,
                bound_of(alpha_orig, beta, best),
                best_move,
            );
        }
        table.update(hash, alpha_orig, beta, depth, best, best_move);
        handle.release_write(table);
    }

    /// Fills `pv` with a line of play that the table remembers from `s`,
    /// at most `max_len` moves long, and leaves `s` as it was. The line ends
    /// where the table holds no move of the position reached, so the line
    /// can be played from `s`. No lock is held from one move to the next.
    pub fn populate_pv<G: Game<M = M>>(&self, pv: &mut Vec<M>, s: &mut G::S, max_len: usize)
        ensures
            final(pv)@.len() <= max_len,
            playable_line::<G>(*old(s), final(pv)@),
            *final(s) == *old(s),
    {
        pv.clear();
        let ghost mut states: Seq<G::S> = seq![*s];
        let mut open = true;
        while open && pv.len() < max_len
            invariant
                pv@.len() <= max_len,
                states.len() == pv@.len() + 1,
                states[0] == *old(s),
                forall|k: int| 0 <= k < pv@.len() ==> states[k + 1] == G::play(states[k], pv@[k]),
                forall|k: int| 0 <= k < pv@.len() ==> G::moves(#[trigger] states[k]).contains(pv@[k]),
                *s == states[pv@.len() as int],
            decreases (if open { 1nat } else { 0nat }), max_len - pv@.len(),
        {
            let hash = G::zobrist_hash(s);
            let stored = match self.lookup(hash) {
                Some(entry) => entry.best_move,
                None => None,
            };
            let next = match stored {
                Some(m) => if is_move::<G>(s, m) {
                    Some(m)
                } else {
                    None
                },
                None => None,
            };
            match next {
                Some(m) => {
                    pv.push(m);
                    G::apply(m, s);
                    proof {
                        states = states.push(*s);
                    }
                },
                None => {
                    open = false;
                },
            }
        }
        proof {
            lemma_chain_is_playable::<G>(states, pv@, 0);
            assert(pv@.skip(0) =~= pv@);
        }
        rewind::<G>(pv, s, Ghost(states));
    }
}

} // verus!
