//! Iterative deepening with each iteration searched in parallel: the
//! first child of a position is searched alone, to have a bound, and its
//! younger siblings are then handed to a pool of worker threads.
//!
//! Which thread comes first is open, and so is what the others have left in
//! the table. What is proved holds whatever they did: the lock around the
//! table lets in none but true entries, and the lock around the best record
//! of a position none but records that their searches bear out.
//!
//! An entry is true where its score, read by its flag, is true of the full
//! score of its position. That is asked of the searches that reach the end
//! of the game on every line, always; and of those that stop at the horizon
//! of a deepening search as long as the table is pledged to that horizon,
//! which a searcher that has not searched yet can pledge, and move on from
//! one iteration to the next. A lock's predicate is fixed, so with each
//! pledge the table is put under a new lock.

use vstd::prelude::*;
use vstd::rwlock::{RwLock, RwLockPredicate};
use crate::interface::{Evaluation, Evaluator, Game, BEST_EVAL, WORST_EVAL};
use crate::strategies::clock::{elapsed, is_zero, now, seconds, spans_no_time};
use crate::strategies::iterative::bring_to_front;
use crate::strategies::pruning::{
    best_reply, bounds, counts_plies, entry_holds, fingerprints_differ, full_negamax,
    lemma_best_reply_in_range, lemma_best_reply_is_above, lemma_best_reply_is_below,
    lemma_full_negamax_in_range, lemma_order_keeps_best_reply, lemma_probe_of_holds,
    lemma_quiescence_bounds, lemma_recorded_score_holds, reply_value, scores_inside, settled,
    to_horizon, to_the_end, Reach,
};
use crate::strategies::solving::attains;
use crate::strategies::table::{
    answers, bound_of, empty_entry, playable_line, entries_in, is_least_power_of_two, next_generation, probe_of,
    ConcurrentTable, Entry, Probe,
};
use crate::strategies::tree;
use crate::strategies::tree::{higher, lemma_ordered_holds_the_same_moves};
use crate::strategies::util::{clamp_value, floored, in_range, timed_out};
use instant::Duration;
use rayon::iter::{IndexedParallelIterator, IntoParallelIterator, ParallelIterator};
use std::sync::Arc;
use std::sync::atomic::{AtomicBool, AtomicI32};

verus! {

/// Settings of the parallel searcher.
#[derive(Clone, Copy)]
pub struct YbwOptions {
    table_byte_size: usize,
    null_window_search: bool,
    step_increment: u8,
    max_quiescence_depth: u8,
    serial_cutoff_depth: u8,
}

impl YbwOptions {
    #[verifier::type_invariant]
    spec fn step_is_one_or_two(self) -> bool {
        self.step_increment == 1 || self.step_increment == 2
    }

    /// About how many bytes the transposition table is to take.
    pub closed spec fn spec_table_byte_size(self) -> usize {
        self.table_byte_size
    }

    /// Whether younger siblings are first probed with an empty window.
    pub closed spec fn spec_null_window_search(self) -> bool {
        self.null_window_search
    }

    /// By how many plies one iteration is deeper than the one before: 1 or 2.
    pub closed spec fn spec_step_increment(self) -> u8 {
        self.step_increment
    }

    /// How deep the search of forcing moves goes at the leaves.
    pub closed spec fn spec_max_quiescence_depth(self) -> u8 {
        self.max_quiescence_depth
    }

    /// Up to which remaining depth the siblings are searched one after
    /// another.
    pub closed spec fn spec_serial_cutoff_depth(self) -> u8 {
        self.serial_cutoff_depth
    }

    /// A table of 32 million bytes, null-window search, every depth in
    /// turn, no quiescence search, and no fan-out at depth 1.
    pub fn new() -> (o: Self)
        ensures
            o.spec_table_byte_size() == 32_000_000,
            o.spec_null_window_search(),
            o.spec_step_increment() == 1,
            o.spec_max_quiescence_depth() == 0,
            o.spec_serial_cutoff_depth() == 1,
    {
        YbwOptions {
            table_byte_size: 32_000_000,
            null_window_search: true,
            step_increment: 1,
            max_quiescence_depth: 0,
            serial_cutoff_depth: 1,
        }
    }

    /// About how many bytes the transposition table is to take.
    pub fn with_table_byte_size(self, size: usize) -> (o: Self)
        ensures
            o.spec_table_byte_size() == size,
            o.spec_null_window_search() == self.spec_null_window_search(),
            o.spec_step_increment() == self.spec_step_increment(),
            o.spec_max_quiescence_depth() == self.spec_max_quiescence_depth(),
            o.spec_serial_cutoff_depth() == self.spec_serial_cutoff_depth(),
    {
        proof {
            use_type_invariant(&self);
        }
        YbwOptions { table_byte_size: size, ..self }
    }

    /// Whether younger siblings are first probed with an empty window.
    pub fn with_null_window_search(self, null: bool) -> (o: Self)
        ensures
            o.spec_table_byte_size() == self.spec_table_byte_size(),
            o.spec_null_window_search() == null,
            o.spec_step_increment() == self.spec_step_increment(),
            o.spec_max_quiescence_depth() == self.spec_max_quiescence_depth(),
            o.spec_serial_cutoff_depth() == self.spec_serial_cutoff_depth(),
    {
        proof {
            use_type_invariant(&self);
        }
        YbwOptions { null_window_search: null, ..self }
    }

    /// Deepens by two plies from one iteration to the next.
    pub fn with_double_step_increment(self) -> (o: Self)
        ensures
            o.spec_table_byte_size() == self.spec_table_byte_size(),
            o.spec_null_window_search() == self.spec_null_window_search(),
            o.spec_step_increment() == 2,
            o.spec_max_quiescence_depth() == self.spec_max_quiescence_depth(),
            o.spec_serial_cutoff_depth() == self.spec_serial_cutoff_depth(),
    {
        YbwOptions { step_increment: 2, ..self }
    }

    /// How deep the search of forcing moves goes at the leaves.
    pub fn with_quiescence_search_depth(self, depth: u8) -> (o: Self)
        ensures
            o.spec_table_byte_size() == self.spec_table_byte_size(),
            o.spec_null_window_search() == self.spec_null_window_search(),
            o.spec_step_increment() == self.spec_step_increment(),
            o.spec_max_quiescence_depth() == depth,
            o.spec_serial_cutoff_depth() == self.spec_serial_cutoff_depth(),
    {
        proof {
            use_type_invariant(&self);
        }
        YbwOptions { max_quiescence_depth: depth, ..self }
    }

    /// Up to which remaining depth the siblings are searched one after
    /// another.
    pub fn with_serial_cutoff_depth(self, depth: u8) -> (o: Self)
        ensures
            o.spec_table_byte_size() == self.spec_table_byte_size(),
            o.spec_null_window_search() == self.spec_null_window_search(),
            o.spec_step_increment() == self.spec_step_increment(),
            o.spec_max_quiescence_depth() == self.spec_max_quiescence_depth(),
            o.spec_serial_cutoff_depth() == depth,
    {
        proof {
            use_type_invariant(&self);
        }
        YbwOptions { serial_cutoff_depth: depth, ..self }
    }

    /// About how many bytes the transposition table is to take.
    pub fn table_byte_size(&self) -> (r: usize)
        ensures
            r == self.spec_table_byte_size(),
    {
        self.table_byte_size
    }

    /// Whether younger siblings are first probed with an empty window.
    pub fn null_window_search(&self) -> (r: bool)
        ensures
            r == self.spec_null_window_search(),
    {
        self.null_window_search
    }

    /// By how many plies one iteration is deeper than the one before.
    pub fn step_increment(&self) -> (r: u8)
        ensures
            r == self.spec_step_increment(),
            r == 1 || r == 2,
    {
        proof {
            use_type_invariant(self);
        }
        self.step_increment
    }

    /// How deep the search of forcing moves goes at the leaves.
    pub fn max_quiescence_depth(&self) -> (r: u8)
        ensures
            r == self.spec_max_quiescence_depth(),
    {
        self.max_quiescence_depth
    }

    /// Up to which remaining depth the siblings are searched one after
    /// another.
    pub fn serial_cutoff_depth(&self) -> (r: u8)
        ensures
            r == self.spec_serial_cutoff_depth(),
    {
        self.serial_cutoff_depth
    }
}

impl Default for YbwOptions {
    fn default() -> (o: Self)
        ensures
            o.spec_table_byte_size() == 32_000_000,
            o.spec_null_window_search(),
            o.spec_step_increment() == 1,
            o.spec_max_quiescence_depth() == 0,
            o.spec_serial_cutoff_depth() == 1,
    {
        YbwOptions::new()
    }
}

/// What the proofs of the searches rest on: the evaluator scores inside the
/// sentinels, and no two positions share a fingerprint.
pub open spec fn premises<E: Evaluator>(eval: E) -> bool {
    scores_inside(eval) && fingerprints_differ::<E::G>()
}

/// What the shared table is pledged to, beside being true of the searches
/// that reach the end of the game.
pub enum Pledge<S> {
    /// Nothing more.
    Open,
    /// Nothing was stored in it yet.
    Pristine,
    /// Nothing in it looks beyond the horizon of the search of `root` at
    /// `depth`, and what ends at that horizon is true of the full search to
    /// its depth.
    Horizon { root: S, depth: nat },
}

/// Tells whether every move of the game leads one ply further: whether
/// there is a count of plies for its positions.
pub open spec fn counted<G: Game>() -> bool {
    exists|plies: spec_fn(G::S) -> nat| #[trigger] counts_plies::<G>(plies)
}

/// Tells whether the search of `s` at `depth` ends at the horizon of
/// `pledge`, by every count of plies; so it is with no horizon.
pub open spec fn on_track<G: Game>(pledge: Pledge<G::S>, s: G::S, depth: u8) -> bool {
    pledge matches Pledge::Horizon { root, depth: deepest } ==> forall|plies: spec_fn(G::S) -> nat| #[trigger]
        counts_plies::<G>(plies) ==> depth + plies(s) == deepest + plies(root)
}

/// Tells whether the score of the search of `s` at `depth` is held to the
/// full score: the search reaches the end of the game on every line, or
/// the table is pledged to a horizon and the game counts plies.
pub open spec fn in_sight<G: Game>(pledge: Pledge<G::S>, s: G::S, depth: u8) -> bool {
    settled::<G>(s, depth) || (pledge is Horizon && counted::<G>())
}

/// Tells whether `entry` is true of every position, held against `reach`.
pub open spec fn true_to<E: Evaluator>(
    eval: E,
    quiescence_depth: u8,
    reach: Reach<<E::G as Game>::S>,
    entry: Entry<<E::G as Game>::M>,
) -> bool {
    forall|p: <E::G as Game>::S| #[trigger] entry_holds(eval, quiescence_depth, reach, entry, p)
}

/// The horizon of `pledge` by the count `plies`.
pub open spec fn horizon_of<S>(pledge: Pledge<S>, plies: spec_fn(S) -> nat) -> Reach<S> {
    match pledge {
        Pledge::Horizon { root, depth } => to_horizon(plies, depth + plies(root)),
        _ => to_the_end(),
    }
}

/// What the lock around the shared table asks of an entry. On the premises
/// it is true of every position, held against the value of the game, and
/// where the table is pledged to a horizon, held against that horizon by
/// every count of plies. In a table in which nothing was stored yet it is
/// blank.
pub open spec fn entry_is_true<E: Evaluator>(
    eval: E,
    quiescence_depth: u8,
    pledge: Pledge<<E::G as Game>::S>,
    entry: Entry<<E::G as Game>::M>,
) -> bool {
    &&& pledge is Pristine ==> entry.depth == 0
    &&& premises(eval) ==> true_to(eval, quiescence_depth, to_the_end(), entry)
    &&& premises(eval) && pledge is Horizon ==> forall|plies: spec_fn(<E::G as Game>::S) -> nat|
        counts_plies::<E::G>(plies) ==> #[trigger] true_to(
            eval,
            quiescence_depth,
            horizon_of(pledge, plies),
            entry,
        )
}

/// What a search in a window that is not empty promises of its score `v`,
/// on the premises, where the score is held to the full score: an upper
/// bound of the full score at or below the window, a lower bound at or
/// above it, and the full score itself inside it.
pub open spec fn held<E: Evaluator>(
    eval: E,
    quiescence_depth: u8,
    pledge: Pledge<<E::G as Game>::S>,
    s: <E::G as Game>::S,
    depth: u8,
    alpha: int,
    beta: int,
    v: int,
) -> bool {
    premises(eval) && alpha < beta && in_sight::<E::G>(pledge, s, depth) ==> bounds(
        v,
        full_negamax(eval, quiescence_depth, s, depth),
        alpha,
        beta,
    )
}

/// Tells whether, on the premises, every move of `moves` leads from `s` to
/// a position whose score, by a search one ply less deep than `depth`, is
/// held to the full score.
pub open spec fn replies_held<E: Evaluator>(
    eval: E,
    pledge: Pledge<<E::G as Game>::S>,
    s: <E::G as Game>::S,
    moves: Seq<<E::G as Game>::M>,
    depth: u8,
) -> bool {
    premises(eval) && forall|j: int|
        0 <= j < moves.len() ==> in_sight::<E::G>(
            pledge,
            E::G::play(s, #[trigger] moves[j]),
            (depth - 1) as u8,
        )
}

/// The searches of the positions that the moves of `s` lead to end at the
/// horizon where that of `s` does, and their scores are held to the full
/// score where that of `s` is.
pub proof fn lemma_replies_in_sight<E: Evaluator>(
    eval: E,
    pledge: Pledge<<E::G as Game>::S>,
    s: <E::G as Game>::S,
    moves: Seq<<E::G as Game>::M>,
    depth: u8,
)
    requires
        depth > 0,
        E::G::winner(s) is None,
        on_track::<E::G>(pledge, s, depth),
        forall|j: int| 0 <= j < moves.len() ==> E::G::moves(s).contains(#[trigger] moves[j]),
    ensures
        forall|j: int|
            0 <= j < moves.len() ==> on_track::<E::G>(
                pledge,
                E::G::play(s, #[trigger] moves[j]),
                (depth - 1) as u8,
            ),
        premises(eval) && in_sight::<E::G>(pledge, s, depth) ==> replies_held(
            eval,
            pledge,
            s,
            moves,
            depth,
        ),
{
    assert forall|j: int| 0 <= j < moves.len() implies on_track::<E::G>(
        pledge,
        E::G::play(s, #[trigger] moves[j]),
        (depth - 1) as u8,
    ) by {
        let k = choose|k: int| 0 <= k < E::G::moves(s).len() && E::G::moves(s)[k] == moves[j];
        if let Pledge::Horizon { root, depth: deepest } = pledge {
            assert forall|plies: spec_fn(<E::G as Game>::S) -> nat| #[trigger]
                counts_plies::<E::G>(plies) implies (depth - 1) + plies(E::G::play(s, moves[j]))
                == deepest + plies(root) by {
                assert(plies(E::G::play(s, E::G::moves(s)[k])) == plies(s) + 1);
            }
        }
    }
    if premises(eval) && in_sight::<E::G>(pledge, s, depth) {
        assert forall|j: int| 0 <= j < moves.len() implies in_sight::<E::G>(
            pledge,
            E::G::play(s, #[trigger] moves[j]),
            (depth - 1) as u8,
        ) by {
            let k = choose|k: int| 0 <= k < E::G::moves(s).len() && E::G::moves(s)[k] == moves[j];
            if settled::<E::G>(s, depth) {
                assert(settled::<E::G>(E::G::play(s, E::G::moves(s)[k]), (depth - 1) as u8));
            }
        }
    }
}

/// What a probe tells a search of `s` is true, if the entry that it read
/// is one that the lock lets in: as `lemma_probe_of_holds` says, wherever
/// the score of the search is held to the full score.
pub proof fn lemma_read_holds<E: Evaluator>(
    eval: E,
    quiescence_depth: u8,
    pledge: Pledge<<E::G as Game>::S>,
    read: Option<Entry<<E::G as Game>::M>>,
    s: <E::G as Game>::S,
    depth: u8,
    alpha: Evaluation,
    beta: Evaluation,
)
    requires
        premises(eval),
        on_track::<E::G>(pledge, s, depth),
        answers(read, E::G::hash(s)),
        read matches Some(entry) ==> entry_is_true(eval, quiescence_depth, pledge, entry),
        E::G::winner(s) is None,
        depth > 0,
        WORST_EVAL <= alpha < beta <= BEST_EVAL,
    ensures
        ({
            let probe = probe_of(read, depth, None, alpha, beta);
            let truth = full_negamax(eval, quiescence_depth, s, depth);
            &&& alpha <= probe.alpha <= BEST_EVAL
            &&& WORST_EVAL <= probe.beta <= beta
            &&& probe.cutoff is None ==> probe.alpha < probe.beta
            &&& probe.cutoff matches Some(v) ==> in_range(v as int)
            &&& in_sight::<E::G>(pledge, s, depth) ==> {
                &&& probe.cutoff matches Some(v) ==> bounds(v as int, truth, alpha as int, beta as int)
                &&& probe.alpha > alpha ==> probe.alpha <= truth
                &&& probe.beta < beta ==> truth <= probe.beta
            }
        }),
{
    let ended = to_the_end::<<E::G as Game>::S>();
    if let Some(entry) = read {
        assert(true_to(eval, quiescence_depth, ended, entry));
        assert(entry_holds(eval, quiescence_depth, ended, entry, s));
    }
    lemma_probe_of_holds(eval, quiescence_depth, ended, read, s, depth, alpha, beta);
    if !settled::<E::G>(s, depth) && pledge is Horizon && counted::<E::G>() {
        let plies = choose|plies: spec_fn(<E::G as Game>::S) -> nat| counts_plies::<E::G>(plies);
        let reach = horizon_of(pledge, plies);
        if let Some(entry) = read {
            assert(true_to(eval, quiescence_depth, reach, entry));
            assert(entry_holds(eval, quiescence_depth, reach, entry, s));
        }
        lemma_probe_of_holds(eval, quiescence_depth, reach, read, s, depth, alpha, beta);
    }
}

/// The score that the scan of a position's moves has found, if it says
/// nothing wrong of the full score in the window that the probe left, says
/// nothing wrong of it in the window that the search began with; and the
/// entry that records it is one that the lock lets in.
pub proof fn lemma_write_holds<E: Evaluator>(
    eval: E,
    quiescence_depth: u8,
    pledge: Pledge<<E::G as Game>::S>,
    read: Option<Entry<<E::G as Game>::M>>,
    s: <E::G as Game>::S,
    depth: u8,
    alpha: Evaluation,
    beta: Evaluation,
    best: Evaluation,
    generation: u8,
    best_move: <E::G as Game>::M,
)
    requires
        !(pledge is Pristine),
        on_track::<E::G>(pledge, s, depth),
        answers(read, E::G::hash(s)),
        read matches Some(entry) ==> entry_is_true(eval, quiescence_depth, pledge, entry),
        E::G::winner(s) is None,
        depth > 0,
        WORST_EVAL <= alpha < beta <= BEST_EVAL,
        in_range(best as int),
        probe_of(read, depth, None, alpha, beta).cutoff is None,
        premises(eval) && in_sight::<E::G>(pledge, s, depth) ==> bounds(
            best as int,
            full_negamax(eval, quiescence_depth, s, depth),
            probe_of(read, depth, None, alpha, beta).alpha as int,
            probe_of(read, depth, None, alpha, beta).beta as int,
        ),
    ensures
        premises(eval) && in_sight::<E::G>(pledge, s, depth) ==> bounds(
            best as int,
            full_negamax(eval, quiescence_depth, s, depth),
            alpha as int,
            beta as int,
        ),
        entry_is_true(
            eval,
            quiescence_depth,
            pledge,
            Entry {
                hash: E::G::hash(s),
                value: best,
                depth,
                flag: bound_of(alpha, probe_of(read, depth, None, alpha, beta).beta, best),
                generation,
                best_move: Some(best_move),
            },
        ),
{
    let q = quiescence_depth;
    let entry = Entry {
        hash: E::G::hash(s),
        value: best,
        depth,
        flag: bound_of(alpha, probe_of(read, depth, None, alpha, beta).beta, best),
        generation,
        best_move: Some(best_move),
    };
    if premises(eval) {
        let ended = to_the_end::<<E::G as Game>::S>();
        if let Some(old) = read {
            assert(true_to(eval, q, ended, old));
            assert(entry_holds(eval, q, ended, old, s));
        }
        lemma_recorded_score_holds(
            eval,
            q,
            ended,
            read,
            s,
            depth,
            alpha,
            beta,
            best,
            generation,
            best_move,
        );
        assert(true_to(eval, q, ended, entry));
        if pledge is Horizon {
            assert forall|plies: spec_fn(<E::G as Game>::S) -> nat|
                counts_plies::<E::G>(plies) implies #[trigger] true_to(
                eval,
                q,
                horizon_of(pledge, plies),
                entry,
            ) by {
                let reach = horizon_of(pledge, plies);
                if let Some(old) = read {
                    assert(true_to(eval, q, reach, old));
                    assert(entry_holds(eval, q, reach, old, s));
                }
                assert(in_sight::<E::G>(pledge, s, depth));
                lemma_recorded_score_holds(
                    eval,
                    q,
                    reach,
                    read,
                    s,
                    depth,
                    alpha,
                    beta,
                    best,
                    generation,
                    best_move,
                );
            }
            if counted::<E::G>() {
                let plies = choose|plies: spec_fn(<E::G as Game>::S) -> nat|
                    counts_plies::<E::G>(plies);
                let reach = horizon_of(pledge, plies);
                if let Some(old) = read {
                    assert(true_to(eval, q, reach, old));
                    assert(entry_holds(eval, q, reach, old, s));
                }
                lemma_recorded_score_holds(
                    eval,
                    q,
                    reach,
                    read,
                    s,
                    depth,
                    alpha,
                    beta,
                    best,
                    generation,
                    best_move,
                );
            }
        }
    }
}

/// What the lock let in, it lets in when the pledge is given up.
pub proof fn lemma_pledge_opens<E: Evaluator>(
    eval: E,
    quiescence_depth: u8,
    pledge: Pledge<<E::G as Game>::S>,
    entry: Entry<<E::G as Game>::M>,
)
    requires
        entry_is_true(eval, quiescence_depth, pledge, entry),
    ensures
        entry_is_true(eval, quiescence_depth, Pledge::Open, entry),
{
}

/// What the lock let in, it lets in when the pledge moves on: from a table
/// in which nothing was stored to any horizon, and from a horizon to a
/// farther one of the same root.
pub proof fn lemma_pledge_moves_on<E: Evaluator>(
    eval: E,
    quiescence_depth: u8,
    pledge: Pledge<<E::G as Game>::S>,
    root: <E::G as Game>::S,
    depth: nat,
    entry: Entry<<E::G as Game>::M>,
)
    requires
        entry_is_true(eval, quiescence_depth, pledge, entry),
        pledge is Pristine || (pledge matches Pledge::Horizon { root: r, depth: d } && r == root && d
            < depth),
    ensures
        entry_is_true(eval, quiescence_depth, Pledge::Horizon { root, depth }, entry),
{
    let next = Pledge::Horizon { root, depth };
    if premises(eval) {
        assert forall|plies: spec_fn(<E::G as Game>::S) -> nat|
            counts_plies::<E::G>(plies) implies #[trigger] true_to(
            eval,
            quiescence_depth,
            horizon_of(next, plies),
            entry,
        ) by {
            assert forall|p: <E::G as Game>::S| #[trigger]
                entry_holds(eval, quiescence_depth, horizon_of(next, plies), entry, p) by {
                if !(pledge is Pristine) {
                    assert(true_to(eval, quiescence_depth, horizon_of(pledge, plies), entry));
                    assert(entry_holds(eval, quiescence_depth, horizon_of(pledge, plies), entry, p));
                }
            }
        }
    }
}

/// The pledge that a deepening search of `root` gives for its iteration at
/// `depth`: the horizon of that iteration, if the table was pledged to
/// nothing stored or to a nearer horizon of the same root; else none.
pub open spec fn next_pledge<S>(pledge: Pledge<S>, root: S, depth: nat) -> Pledge<S> {
    match pledge {
        Pledge::Pristine => Pledge::Horizon { root, depth },
        Pledge::Horizon { root: r, depth: d } => if r == root && d < depth {
            Pledge::Horizon { root, depth }
        } else {
            Pledge::Open
        },
        Pledge::Open => Pledge::Open,
    }
}

/// What the siblings of a position have yielded: `best` is in range and no
/// less than the score `first` of the first child, `m` is one of the
/// moves, and where `sure`, `best` says nothing wrong of `truth` in the
/// window from `alpha` to `beta`, and `m` is worth at least `best` if that
/// lies above `alpha`.
pub open spec fn siblings_hold(
    best: int,
    worth: int,
    first: int,
    named: bool,
    sure: bool,
    truth: int,
    alpha: int,
    beta: int,
) -> bool {
    &&& in_range(best)
    &&& best >= first
    &&& named
    &&& sure ==> bounds(best, truth, alpha, beta) && (best > alpha ==> worth >= best)
}

/// The best score that the workers of one position have found so far, with
/// its move.
pub struct Record<M> {
    pub value: Evaluation,
    pub m: M,
    /// Whether the score was found above the lower end of the window that
    /// it was searched in, so that the move is worth at least that much.
    pub certain: bool,
    /// For each move, whether its search has ended and is part of the
    /// record.
    pub done: Vec<bool>,
}

/// What the lock around the best record guards, for the moves `moves` of
/// one position, each worth `reply` of it: the score is in range and no
/// less than the first child's, and the move is one of `moves`. Where
/// `sure`, every move whose search has ended is worth no more than the
/// score, unless the score has closed the window at `beta`; and a move on
/// record as certain is worth at least the score.
#[verifier::reject_recursive_types(M)]
pub struct Region<M> {
    pub moves: Seq<M>,
    pub reply: spec_fn(M) -> int,
    pub beta: int,
    pub first_value: int,
    pub sure: bool,
}

impl<M> RwLockPredicate<Record<M>> for Region<M> {
    open spec fn inv(self, record: Record<M>) -> bool {
        &&& in_range(record.value as int)
        &&& record.value >= self.first_value
        &&& self.moves.contains(record.m)
        &&& record.done@.len() == self.moves.len()
        &&& self.sure ==> {
            &&& forall|j: int|
                0 <= j < self.moves.len() && #[trigger] record.done@[j] ==> (self.reply)(
                    self.moves[j],
                ) <= record.value || record.value >= self.beta
            &&& record.certain ==> (self.reply)(record.m) >= record.value
        }
    }
}

/// How a parallel region ended.
pub enum Verdict<M> {
    /// The timeout interrupted it.
    TimedOut,
    /// The record stands: this score, by this move.
    Best(Evaluation, M),
    /// The record does not bear out its score.
    Unsure,
}

/// What becomes of the best record `(value, m)` when the parallel region is
/// over. If the region ended early and the timeout has fired, the search is
/// interrupted. Else the record stands if it bears out its score: a score
/// that closes the window at `beta` must be certain; any other needs every
/// sibling's search to have ended, and to be certain unless it lies at or
/// below the window's lower end `alpha`.
pub open spec fn verdict_of<M>(
    value: Evaluation,
    m: M,
    certain: bool,
    complete: bool,
    ended_early: bool,
    fired: bool,
    alpha: Evaluation,
    beta: Evaluation,
) -> Verdict<M> {
    if ended_early && fired {
        Verdict::TimedOut
    } else if value >= beta {
        if certain {
            Verdict::Best(value, m)
        } else {
            Verdict::Unsure
        }
    } else if complete && (value <= alpha || certain) {
        Verdict::Best(value, m)
    } else {
        Verdict::Unsure
    }
}

/// Decides what becomes of the best record when the parallel region is
/// over.
pub fn region_verdict<M: Copy>(
    value: Evaluation,
    m: M,
    certain: bool,
    complete: bool,
    ended_early: bool,
    fired: bool,
    alpha: Evaluation,
    beta: Evaluation,
) -> (verdict: Verdict<M>)
    ensures
        verdict == verdict_of(value, m, certain, complete, ended_early, fired, alpha, beta),
{
    if ended_early && fired {
        Verdict::TimedOut
    } else if value >= beta {
        if certain {
            Verdict::Best(value, m)
        } else {
            Verdict::Unsure
        }
    } else if complete && (value <= alpha || certain) {
        Verdict::Best(value, m)
    } else {
        Verdict::Unsure
    }
}

/// The record after the search of the `i`-th move `m` has ended with the
/// score `value`, `certain` or not: the search is on record as ended; a
/// better score takes the record, and of two equal scores a certain one
/// takes it from one that is not; else what was on record stays.
pub fn fold_in<M: Copy>(record: Record<M>, i: usize, value: Evaluation, m: M, certain: bool) -> (after:
    Record<M>)
    requires
        i < record.done@.len(),
    ensures
        after.done@ == record.done@.update(i as int, true),
        (after.value, after.m, after.certain) == if value > record.value || (value == record.value
            && certain && !record.certain) {
            (value, m, certain)
        } else {
            (record.value, record.m, record.certain)
        },
{
    let Record { value: held_value, m: held_move, certain: held_certain, done: mut done } = record;
    let takes = value > held_value || (value == held_value && certain && !held_certain);
    done.set(i, true);
    if takes {
        Record { value, m, certain, done }
    } else {
        Record { value: held_value, m: held_move, certain: held_certain, done }
    }
}

/// Tells whether every search is on record as ended.
pub fn all_done(done: &Vec<bool>) -> (complete: bool)
    ensures
        complete == (forall|j: int| 0 <= j < done@.len() ==> done@[j]),
{
    let mut i: usize = 0;
    while i < done.len()
        invariant
            i <= done@.len(),
            forall|j: int| 0 <= j < i ==> done@[j],
        decreases done@.len() - i,
    {
        if !done[i] {
            return false;
        }
        i += 1;
    }
    true
}

/// What a search of a position has found: its score, and the move that gave
/// it, where the moves were searched.
pub struct Found<M> {
    pub value: Evaluation,
    pub best_move: Option<M>,
}

/// Where a deepening search stands between two iterations.
pub struct Standing<M> {
    /// The answer so far.
    pub best: Option<M>,
    /// The score of the root by the last full iteration.
    pub value: Evaluation,
    /// One less than the greatest depth searched in full.
    pub reached: u8,
    /// One less than the depth of the next iteration.
    pub depth: usize,
    /// Whether the search goes on.
    pub open: bool,
}

/// Where the search stands after an iteration at one more than `now.depth`
/// that gave `found`: an iteration that was interrupted, or that names no
/// move, ends the search and changes nothing else; any other gives the
/// answer and the score, and the next is `step` plies deeper.
pub open spec fn next_standing<M>(now: Standing<M>, step: usize, found: Option<Found<M>>) -> Standing<
    M,
> {
    match found {
        Some(f) => if f.best_move is Some {
            Standing {
                best: f.best_move,
                value: f.value,
                reached: if now.depth > now.reached {
                    now.depth as u8
                } else {
                    now.reached
                },
                depth: (now.depth + step) as usize,
                open: true,
            }
        } else {
            Standing { open: false, ..now }
        },
        None => Standing { open: false, ..now },
    }
}

/// Takes the deepening search from one iteration to the next.
pub fn advance<M: Copy>(now: Standing<M>, step: usize, found: Option<Found<M>>) -> (next: Standing<
    M,
>)
    requires
        now.depth < 255,
        step <= 2,
    ensures
        next == next_standing(now, step, found),
{
    match found {
        Some(f) => if f.best_move.is_some() {
            Standing {
                best: f.best_move,
                value: f.value,
                reached: if now.depth > now.reached as usize {
                    now.depth as u8
                } else {
                    now.reached
                },
                depth: now.depth + step,
                open: true,
            }
        } else {
            Standing { open: false, ..now }
        },
        None => Standing { open: false, ..now },
    }
}

/// The lower end of the window as the workers share it, but never below
/// `floor`, the bound that the first child gave.
pub fn shared_alpha(shared: &AtomicI32, floor: Evaluation) -> (alpha: Evaluation)
    ensures
        alpha >= floor,
{
    let seen = shared.load(std::sync::atomic::Ordering::SeqCst);
    floored(seen, floor)
}

/// Raises the shared lower end of the window to `value` if it is below.
pub fn raise_shared_alpha(shared: &AtomicI32, value: Evaluation) {
    let _ = shared.fetch_max(value, std::sync::atomic::Ordering::SeqCst);
}

/// The parallel iterative-deepening searcher.
pub struct ParallelYbw<E: Evaluator> {
    max_depth: usize,
    max_time: Duration,
    timeout: Option<Arc<AtomicBool>>,
    table: ConcurrentTable<<E::G as Game>::M>,
    prev_value: Evaluation,
    eval: E,
    opts: YbwOptions,
    // One less than the greatest depth that the last call searched in full.
    actual_depth: u8,
    // One count for each full iteration of the last call. The workers keep
    // no count, so each is zero.
    nodes_explored: Vec<u64>,
    pv: Vec<<E::G as Game>::M>,
    wall_time: Duration,
    // What the table is pledged to.
    pledge: Ghost<Pledge<<E::G as Game>::S>>,
}

impl<E: Evaluator> ParallelYbw<E> {
    /// The score of the root is in range, no iteration has a count, and
    /// the lock around the table lets in the entries that are true by the
    /// table's pledge, and no others.
    pub closed spec fn wf(&self) -> bool {
        &&& in_range(self.prev_value as int)
        &&& forall|i: int| 0 <= i < self.nodes_explored@.len() ==> self.nodes_explored@[i] == 0
        &&& forall|e: Entry<<E::G as Game>::M>| #[trigger]
            (self.table.truth())(e) == entry_is_true(
                self.eval,
                self.opts.spec_max_quiescence_depth(),
                self.pledge@,
                e,
            )
    }

    /// What the table is pledged to.
    pub closed spec fn pledge(&self) -> Pledge<<E::G as Game>::S> {
        self.pledge@
    }

    /// Tells whether the searcher has not searched yet: nothing was stored
    /// in its table.
    pub open spec fn pristine(&self) -> bool {
        self.pledge() is Pristine
    }

    /// The searcher is well formed and its table takes entries.
    pub open spec fn ready(&self) -> bool {
        self.wf() && !self.pristine()
    }

    /// The evaluator that scores the leaves.
    pub closed spec fn evaluator(&self) -> E {
        self.eval
    }

    /// The settings that the searcher was made with.
    pub closed spec fn options(&self) -> YbwOptions {
        self.opts
    }

    /// One less than the depth of the deepest iteration of a call.
    pub closed spec fn depth_limit(&self) -> nat {
        self.max_depth as nat
    }

    /// The time that a call may take; no time at all where the depth is
    /// the only limit.
    pub closed spec fn time_limit(&self) -> Duration {
        self.max_time
    }

    /// The flag that ends the searches, if one is installed.
    pub closed spec fn flag(&self) -> Option<Arc<AtomicBool>> {
        self.timeout
    }

    /// The score of the root by the last full iteration.
    pub closed spec fn prev_value(&self) -> Evaluation {
        self.prev_value
    }

    /// The line of play that the last full iteration expects.
    pub closed spec fn line(&self) -> Seq<<E::G as Game>::M> {
        self.pv@
    }

    /// How many iterations the last call ran in full.
    pub closed spec fn iterations(&self) -> nat {
        self.nodes_explored@.len()
    }

    /// One less than the greatest depth that the last call searched in
    /// full.
    pub closed spec fn reached(&self) -> u8 {
        self.actual_depth
    }

    /// The time that the last call took, by the clock.
    pub closed spec fn last_wall_time(&self) -> Duration {
        self.wall_time
    }

    /// The number of slots of the table.
    pub closed spec fn table_slots(&self) -> nat {
        self.table.capacity()
    }

    /// The generation of the table.
    pub closed spec fn generation(&self) -> u8 {
        self.table.generation()
    }

    /// A searcher with an empty table, limited to five seconds a move.
    pub fn new(eval: E, opts: YbwOptions) -> (search: Self)
        requires
            opts.spec_table_byte_size() <= usize::MAX / 2,
        ensures
            search.wf(),
            search.evaluator() == eval,
            search.options() == opts,
            search.depth_limit() == 100,
            !spans_no_time(search.time_limit()),
            search.flag() is None,
            search.prev_value() == 0,
            search.line() == Seq::<<E::G as Game>::M>::empty(),
            search.iterations() == 0,
            search.generation() == 0,
            search.pristine(),
            is_least_power_of_two(
                search.table_slots(),
                vstd::math::max(
                    entries_in(
                        opts.spec_table_byte_size() as nat,
                        vstd::layout::size_of::<Entry<<E::G as Game>::M>>(),
                    ) as int,
                    2,
                ) as nat,
            ),
    {
        let ghost truth = |e: Entry<<E::G as Game>::M>|
            entry_is_true(eval, opts.spec_max_quiescence_depth(), Pledge::Pristine, e);
        assert(truth(empty_entry::<<E::G as Game>::M>()));
        let table = ConcurrentTable::guarded(opts.table_byte_size(), Ghost(truth));
        ParallelYbw {
            max_depth: 100,
            max_time: seconds(5),
            timeout: None,
            table,
            prev_value: 0,
            opts,
            eval,
            actual_depth: 0,
            nodes_explored: Vec::new(),
            pv: Vec::new(),
            wall_time: seconds(0),
            pledge: Ghost(Pledge::Pristine),
        }
    }

    /// Limits the search by depth alone: no time limit.
    pub fn set_max_depth(&mut self, depth: usize)
        requires
            old(self).wf(),
        ensures
            final(self).wf(),
            final(self).depth_limit() == depth,
            spans_no_time(final(self).time_limit()),
            final(self).evaluator() == old(self).evaluator(),
            final(self).options() == old(self).options(),
            final(self).flag() == old(self).flag(),
            final(self).prev_value() == old(self).prev_value(),
            final(self).line() == old(self).line(),
            final(self).iterations() == old(self).iterations(),
            final(self).generation() == old(self).generation(),
            final(self).table_slots() == old(self).table_slots(),
            final(self).pledge() == old(self).pledge(),
    {
        self.max_depth = depth;
        self.max_time = seconds(0);
    }

    /// Limits the search by time, and by depth to 100.
    pub fn set_timeout(&mut self, max_time: Duration)
        requires
            old(self).wf(),
        ensures
            final(self).wf(),
            final(self).depth_limit() == 100,
            final(self).time_limit() == max_time,
            final(self).evaluator() == old(self).evaluator(),
            final(self).options() == old(self).options(),
            final(self).flag() == old(self).flag(),
            final(self).prev_value() == old(self).prev_value(),
            final(self).line() == old(self).line(),
            final(self).iterations() == old(self).iterations(),
            final(self).generation() == old(self).generation(),
            final(self).table_slots() == old(self).table_slots(),
            final(self).pledge() == old(self).pledge(),
    {
        self.max_time = max_time;
        self.max_depth = 100;
    }

    /// The time that a timer for the next call is to run, if the next call
    /// is limited by time.
    pub fn timer_span(&self) -> (span: Option<Duration>)
        ensures
            span == if spans_no_time(self.time_limit()) {
                None
            } else {
                Some(self.time_limit())
            },
    {
        if is_zero(&self.max_time) {
            None
        } else {
            Some(self.max_time)
        }
    }

    /// The score of the root by the last full iteration, as the table
    /// held it.
    pub fn root_value(&self) -> (v: Evaluation)
        ensures
            v == self.prev_value(),
    {
        self.prev_value
    }

    /// The line of play that the last full iteration expects.
    pub fn principal_variation(&self) -> (line: &[<E::G as Game>::M])
        ensures
            line@ == self.line(),
    {
        self.pv.as_slice()
    }

    /// One less than the greatest depth that the last call searched in
    /// full.
    pub fn actual_depth(&self) -> (depth: u8)
        ensures
            depth == self.reached(),
    {
        self.actual_depth
    }

    /// How many iterations the last call ran in full.
    pub fn completed_iterations(&self) -> (n: usize)
        ensures
            n == self.iterations(),
    {
        self.nodes_explored.len()
    }

    /// One count for each full iteration of the last call; the workers keep
    /// no count, so each is zero.
    pub fn nodes_explored(&self) -> (history: &[u64])
        requires
            self.wf(),
        ensures
            history@.len() == self.iterations(),
            forall|i: int| 0 <= i < history@.len() ==> history@[i] == 0,
    {
        self.nodes_explored.as_slice()
    }

    /// The time that the last call took, by the clock.
    pub fn wall_time(&self) -> (span: Duration)
        ensures
            span == self.last_wall_time(),
    {
        self.wall_time
    }

    /// Searches forcing moves only, at most `depth` plies deep. Returns
    /// `None` if the timeout interrupted the search. The position is left
    /// as it was either way: every move is taken back before the search
    /// returns.
    pub fn noisy_negamax(
        &self,
        s: &mut <E::G as Game>::S,
        depth: u8,
        alpha: Evaluation,
        beta: Evaluation,
    ) -> (found: Option<Evaluation>)
        requires
            in_range(alpha as int),
            in_range(beta as int),
        ensures
            *final(s) == *old(s),
            self.flag() is None ==> found is Some,
            found matches Some(v) ==> {
                &&& v == tree::quiescence(self.evaluator(), *old(s), depth, alpha as int, beta as int)
                &&& in_range(v as int)
            },
        decreases depth,
    {
        if timed_out(&self.timeout) {
            return None;
        }
        if let Some(winner) = E::G::get_winner(s) {
            return Some(winner.evaluate());
        }
        if depth == 0 {
            return Some(self.eval.evaluate(s));
        }
        let mut moves: Vec<<E::G as Game>::M> = Vec::new();
        E::G::generate_noisy_moves(s, &mut moves);
        assert(moves@ =~= E::G::noisy_moves(*s));
        if moves.len() == 0 {
            return Some(self.eval.evaluate(s));
        }
        let ghost total = tree::quiescence(self.eval, *s, depth, alpha as int, beta as int);
        let mut alpha = alpha;
        let mut best = WORST_EVAL;
        let mut i: usize = 0;
        let mut open = true;
        while open && i < moves.len()
            invariant
                depth > 0,
                i <= moves@.len(),
                in_range(alpha as int),
                in_range(beta as int),
                in_range(best as int),
                *s == *old(s),
                moves@ == E::G::noisy_moves(*s),
                open ==> tree::quiescence_from(
                    self.eval,
                    *s,
                    moves@,
                    i as nat,
                    depth,
                    alpha as int,
                    beta as int,
                    best as int,
                ) == total,
                !open ==> best == total,
            decreases moves@.len() - i,
        {
            let m = moves[i];
            assert(E::G::noisy_moves(*s)[i as int] == m);
            E::G::apply(m, s);
            let reply = self.noisy_negamax(s, depth - 1, -beta, -alpha);
            E::G::undo(m, s);
            let value = match reply {
                Some(v) => -v,
                None => {
                    return None;
                },
            };
            if value > best {
                best = value;
            }
            if value > alpha {
                alpha = value;
            }
            i += 1;
            if alpha >= beta {
                open = false;
            }
        }
        Some(best)
    }
}

impl<E: Evaluator> ParallelYbw<E> where
    E: Sync,
    <E::G as Game>::S: Send + Sync,
    <E::G as Game>::M: Send + Sync,
 {
    /// Scores the position `s`, which a move has just led to, for the player
    /// who made that move, whose window goes from `alpha` to `beta`. With
    /// `null_window` the position is first probed with the empty window
    /// just above `alpha`; `recheck` is then polled before the second
    /// search, which is given up if the window has closed meanwhile.
    ///
    /// Where nothing is left of the depth, the score is that of the
    /// quiescence search, and where the game is over in `s`, the opposite
    /// of the terminal score. Of a position that goes on, the score says
    /// nothing wrong of what `s` is worth to the player who moved into it.
    fn child_value(
        &self,
        s: &mut <E::G as Game>::S,
        depth: u8,
        alpha: Evaluation,
        beta: Evaluation,
        null_window: bool,
        recheck: Option<&AtomicI32>,
    ) -> (found: Option<Evaluation>)
        requires
            self.ready(),
            on_track::<E::G>(self.pledge(), *old(s), depth),
            in_range(alpha as int),
            in_range(beta as int),
            null_window ==> alpha < beta,
        ensures
            *final(s) == *old(s),
            self.flag() is None && recheck is None ==> found is Some,
            found matches Some(v) ==> {
                &&& in_range(v as int)
                &&& depth == 0 ==> v == tree::leaf_value(
                    self.evaluator(),
                    self.options().spec_max_quiescence_depth(),
                    *old(s),
                    alpha as int,
                    beta as int,
                    null_window,
                )
                &&& depth > 0 ==> (E::G::winner(*old(s)) matches Some(w) ==> v == -w.value())
                &&& premises(self.evaluator()) && alpha < beta && in_sight::<E::G>(
                    self.pledge(),
                    *old(s),
                    depth,
                ) ==> bounds(
                    v as int,
                    -full_negamax(
                        self.evaluator(),
                        self.options().spec_max_quiescence_depth(),
                        *old(s),
                        depth,
                    ),
                    alpha as int,
                    beta as int,
                )
            },
        decreases depth, 4nat,
    {
        if null_window {
            let probe = match self.search(s, depth, -alpha - 1, -alpha) {
                Some(v) => -v,
                None => {
                    return None;
                },
            };
            if probe > alpha && probe < beta {
                if let Some(shared) = recheck {
                    if shared_alpha(shared, alpha) >= beta {
                        return None;
                    }
                }
                match self.search(s, depth, -beta, -probe) {
                    Some(v) => Some(-v),
                    None => None,
                }
            } else {
                Some(probe)
            }
        } else {
            match self.search(s, depth, -beta, -alpha) {
                Some(v) => Some(-v),
                None => None,
            }
        }
    }

    /// Searches the younger siblings `moves[1..]` of `s` one after another,
    /// after the first child has scored `first`, in the window from `alpha`
    /// to `beta`. Returns the best score with its move, the first of equal
    /// scores, or `None` if the timeout interrupted the search.
    fn serial_siblings(
        &self,
        s: &mut <E::G as Game>::S,
        moves: &Vec<<E::G as Game>::M>,
        depth: u8,
        alpha: Evaluation,
        beta: Evaluation,
        first: Evaluation,
    ) -> (found: Option<(Evaluation, <E::G as Game>::M)>)
        requires
            self.ready(),
            on_track::<E::G>(self.pledge(), *old(s), depth),
            E::G::winner(*old(s)) is None,
            depth > 0,
            moves@.len() > 0,
            forall|j: int|
                0 <= j < moves@.len() ==> E::G::moves(*old(s)).contains(#[trigger] moves@[j]),
            in_range(alpha as int),
            in_range(beta as int),
            in_range(first as int),
            higher(alpha as int, first as int) < beta,
            replies_held(self.evaluator(), self.pledge(), *old(s), moves@, depth) ==> bounds(
                first as int,
                reply_value(
                    self.evaluator(),
                    self.options().spec_max_quiescence_depth(),
                    *old(s),
                    moves@[0],
                    depth,
                ),
                alpha as int,
                beta as int,
            ),
        ensures
            *final(s) == *old(s),
            self.flag() is None ==> found is Some,
            found matches Some(r) ==> siblings_hold(
                r.0 as int,
                reply_value(
                    self.evaluator(),
                    self.options().spec_max_quiescence_depth(),
                    *old(s),
                    r.1,
                    depth,
                ),
                first as int,
                moves@.contains(r.1),
                replies_held(self.evaluator(), self.pledge(), *old(s), moves@, depth),
                best_reply(
                    self.evaluator(),
                    self.options().spec_max_quiescence_depth(),
                    *old(s),
                    moves@,
                    0,
                    depth,
                ),
                alpha as int,
                beta as int,
            ),
        decreases depth, 0nat,
    {
        let ghost eval = self.eval;
        let ghost q = self.opts.spec_max_quiescence_depth();
        let ghost pledge = self.pledge@;
        let ghost sure = replies_held(eval, self.pledge@, *s, moves@, depth);
        proof {
            if E::G::winner(*s) is None {
                lemma_replies_in_sight(eval, pledge, *s, moves@, depth);
            }
        }
        let ghost truth = best_reply(eval, q, *s, moves@, 0, depth);
        let ghost mut seen = reply_value(eval, q, *s, moves@[0], depth);
        let floor = alpha;
        let mut alpha = if first > alpha {
            first
        } else {
            alpha
        };
        let mut best = first;
        let mut best_move = moves[0];
        let mut null_window = false;
        let mut i: usize = 1;
        let mut open = true;
        proof {
            if sure {
                lemma_best_reply_in_range(eval, q, *s, moves@, 0, depth);
                lemma_best_reply_in_range(eval, q, *s, moves@, 1, depth);
            }
        }
        while open && i < moves.len()
            invariant
                self.ready(),
                pledge == self.pledge@,
                forall|j: int|
                    0 <= j < moves@.len() ==> on_track::<E::G>(
                        pledge,
                        E::G::play(*s, #[trigger] moves@[j]),
                        (depth - 1) as u8,
                    ),
                eval == self.eval,
                q == self.opts.spec_max_quiescence_depth(),
                depth > 0,
                1 <= i <= moves@.len(),
                in_range(floor as int),
                in_range(alpha as int),
                in_range(beta as int),
                in_range(best as int),
                best >= first,
                alpha == higher(floor as int, best as int),
                open ==> alpha < beta,
                *s == *old(s),
                forall|j: int|
                    0 <= j < moves@.len() ==> E::G::moves(*s).contains(#[trigger] moves@[j]),
                moves@.contains(best_move),
                sure == replies_held(eval, self.pledge@, *s, moves@, depth),
                truth == best_reply(eval, q, *s, moves@, 0, depth),
                sure && open ==> {
                    &&& in_range(seen)
                    &&& seen <= best
                    &&& best > floor ==> seen == best && reply_value(eval, q, *s, best_move, depth)
                        >= best
                    &&& higher(seen, best_reply(eval, q, *s, moves@, i as nat, depth)) == truth
                },
                sure && !open ==> bounds(best as int, truth, floor as int, beta as int) && (best
                    > floor ==> reply_value(eval, q, *s, best_move, depth) >= best),
            decreases moves@.len() - i,
        {
            let m = moves[i];
            let ghost worth = reply_value(eval, q, *s, m, depth);
            proof {
                if sure {
                    lemma_best_reply_in_range(eval, q, *s, moves@, i as nat, depth);
                    lemma_best_reply_in_range(eval, q, *s, moves@, (i + 1) as nat, depth);
                }
                assert(worth == -full_negamax(
                    eval,
                    q,
                    E::G::play(*s, moves@[i as int]),
                    (depth - 1) as u8,
                ));
            }
            E::G::apply(m, s);
            let reply = self.child_value(s, depth - 1, alpha, beta, null_window, None);
            E::G::undo(m, s);
            let value = match reply {
                Some(v) => v,
                None => {
                    return None;
                },
            };
            if value > best {
                best = value;
                best_move = m;
            }
            if value > alpha {
                alpha = value;
                null_window = self.opts.null_window_search();
            }
            proof {
                seen = higher(seen, worth);
            }
            i += 1;
            if alpha >= beta {
                open = false;
            }
        }
        Some((best, best_move))
    }

    /// The work of one thread on the sibling `moves[i]`: it searches the
    /// position that the move leads to from `s`, on a copy, with the window
    /// as the threads share it, then raises the shared lower end and the
    /// best record. Returns `None` where the window was closed already, or
    /// the timeout interrupted the search. The first move, searched before,
    /// is passed over.
    fn search_sibling(
        &self,
        s: &<E::G as Game>::S,
        moves: &Vec<<E::G as Game>::M>,
        i: usize,
        depth: u8,
        alpha_orig: Evaluation,
        floor: Evaluation,
        beta: Evaluation,
        shared: &AtomicI32,
        best: &RwLock<Record<<E::G as Game>::M>, Region<<E::G as Game>::M>>,
    ) -> (done: Option<()>)
        requires
            self.ready(),
            on_track::<E::G>(self.pledge(), *s, depth),
            E::G::winner(*s) is None,
            depth > 0,
            i < moves@.len(),
            forall|j: int| 0 <= j < moves@.len() ==> E::G::moves(*s).contains(#[trigger] moves@[j]),
            in_range(alpha_orig as int),
            in_range(floor as int),
            in_range(beta as int),
            best.pred().moves == moves@,
            best.pred().beta == beta,
            best.pred().sure ==> replies_held(self.evaluator(), self.pledge(), *s, moves@, depth),
            forall|m: <E::G as Game>::M| #[trigger]
                (best.pred().reply)(m) == reply_value(
                    self.evaluator(),
                    self.options().spec_max_quiescence_depth(),
                    *s,
                    m,
                    depth,
                ),
        ensures
            i == 0 ==> done is Some,
            i != 0 && floor >= beta ==> done is None,
    {
        if i == 0 {
            return Some(());
        }
        let initial_alpha = shared_alpha(shared, floor);
        if initial_alpha >= beta {
            return None;
        }
        let m = moves[i];
        proof {
            lemma_replies_in_sight(self.eval, self.pledge@, *s, moves@, depth);
        }
        let mut state = E::G::clone_state(s);
        E::G::apply(m, &mut state);
        let null_window = self.opts.null_window_search() && initial_alpha > alpha_orig;
        let value = match self.child_value(
            &mut state,
            depth - 1,
            initial_alpha,
            beta,
            null_window,
            Some(shared),
        ) {
            Some(v) => v,
            None => {
                return None;
            },
        };
        raise_shared_alpha(shared, value);
        let certain = value > initial_alpha;
        let (record, handle) = best.acquire_write();
        let ghost before = record;
        let after = fold_in(record, i, value, m, certain);
        proof {
            let worth = reply_value(
                self.eval,
                self.opts.spec_max_quiescence_depth(),
                *s,
                m,
                depth,
            );
            assert(worth == -full_negamax(
                self.eval,
                self.opts.spec_max_quiescence_depth(),
                E::G::play(*s, moves@[i as int]),
                (depth - 1) as u8,
            ));
            assert((best.pred().reply)(m) == worth);
            assert(moves@[i as int] == m);
            if best.pred().sure {
                assert forall|j: int|
                    0 <= j < moves@.len() && #[trigger] after.done@[j] implies (best.pred().reply)(
                    moves@[j],
                ) <= after.value || after.value >= beta by {
                    if j != i {
                        assert(before.done@[j]);
                    }
                }
            }
        }
        handle.release_write(after);
        Some(())
    }

    /// `into_par_iter`, `with_max_len` and `try_for_each` of rayon: runs
    /// `search_sibling` on the places of `moves`, each as a job of its own
    /// on the pool of worker threads, and waits for the jobs that it
    /// started; after a `None` it starts no more. Nothing is promised of
    /// the result: which places were run, and which of several `None`
    /// comes back, is open.
    #[verifier::external_body]
    fn fan_out(
        &self,
        s: &<E::G as Game>::S,
        moves: &Vec<<E::G as Game>::M>,
        depth: u8,
        alpha_orig: Evaluation,
        floor: Evaluation,
        beta: Evaluation,
        shared: &AtomicI32,
        best: &RwLock<Record<<E::G as Game>::M>, Region<<E::G as Game>::M>>,
    ) -> (done: Option<()>)
        requires
            self.ready(),
            on_track::<E::G>(self.pledge(), *s, depth),
            E::G::winner(*s) is None,
            depth > 0,
            forall|j: int| 0 <= j < moves@.len() ==> E::G::moves(*s).contains(#[trigger] moves@[j]),
            in_range(alpha_orig as int),
            in_range(floor as int),
            in_range(beta as int),
            best.pred().moves == moves@,
            best.pred().beta == beta,
            best.pred().sure ==> replies_held(self.evaluator(), self.pledge(), *s, moves@, depth),
            forall|m: <E::G as Game>::M| #[trigger]
                (best.pred().reply)(m) == reply_value(
                    self.evaluator(),
                    self.options().spec_max_quiescence_depth(),
                    *s,
                    m,
                    depth,
                ),
    {
        (0..moves.len()).into_par_iter().with_max_len(1).try_for_each(
            |i| self.search_sibling(s, moves, i, depth, alpha_orig, floor, beta, shared, best),
        )
    }

    /// Hands the younger siblings `moves[1..]` of `s` to the worker
    /// threads, after the first child has scored `first`, and says what
    /// became of the best record: the first child's score and move to begin
    /// with, then every better score that a worker found.
    fn parallel_siblings(
        &self,
        s: &<E::G as Game>::S,
        moves: &Vec<<E::G as Game>::M>,
        depth: u8,
        alpha_orig: Evaluation,
        alpha: Evaluation,
        beta: Evaluation,
        first: Evaluation,
    ) -> (verdict: Verdict<<E::G as Game>::M>)
        requires
            self.ready(),
            on_track::<E::G>(self.pledge(), *s, depth),
            E::G::winner(*s) is None,
            depth > 0,
            moves@.len() > 0,
            forall|j: int| 0 <= j < moves@.len() ==> E::G::moves(*s).contains(#[trigger] moves@[j]),
            in_range(alpha_orig as int),
            in_range(alpha as int),
            in_range(beta as int),
            in_range(first as int),
            higher(alpha as int, first as int) < beta,
            replies_held(self.evaluator(), self.pledge(), *s, moves@, depth) ==> bounds(
                first as int,
                reply_value(
                    self.evaluator(),
                    self.options().spec_max_quiescence_depth(),
                    *s,
                    moves@[0],
                    depth,
                ),
                alpha as int,
                beta as int,
            ),
        ensures
            self.flag() is None ==> !(verdict is TimedOut),
            verdict matches Verdict::Best(v, m) ==> siblings_hold(
                v as int,
                reply_value(
                    self.evaluator(),
                    self.options().spec_max_quiescence_depth(),
                    *s,
                    m,
                    depth,
                ),
                first as int,
                moves@.contains(m),
                replies_held(self.evaluator(), self.pledge(), *s, moves@, depth),
                best_reply(
                    self.evaluator(),
                    self.options().spec_max_quiescence_depth(),
                    *s,
                    moves@,
                    0,
                    depth,
                ),
                alpha as int,
                beta as int,
            ),
    {
        let ghost eval = self.eval;
        let ghost q = self.opts.spec_max_quiescence_depth();
        let ghost sure = replies_held(eval, self.pledge@, *s, moves@, depth);
        let floor = if first > alpha {
            first
        } else {
            alpha
        };
        let shared = AtomicI32::new(floor);
        let mut done: Vec<bool> = Vec::new();
        done.push(true);
        while done.len() < moves.len()
            invariant
                1 <= done@.len() <= moves@.len(),
                done@[0],
                forall|j: int| 1 <= j < done@.len() ==> !done@[j],
            decreases moves@.len() - done@.len(),
        {
            done.push(false);
        }
        let ghost region = Region {
            moves: moves@,
            reply: |m: <E::G as Game>::M| reply_value(eval, q, *s, m, depth),
            beta: beta as int,
            first_value: first as int,
            sure,
        };
        let record = Record { value: first, m: moves[0], certain: first > alpha, done };
        let best = RwLock::new(record, Ghost(region));
        let ended = self.fan_out(s, moves, depth, alpha_orig, floor, beta, &shared, &best);
        let fired = timed_out(&self.timeout);
        let record = best.into_inner();
        let complete = all_done(&record.done);
        let verdict = region_verdict(
            record.value,
            record.m,
            record.certain,
            complete,
            ended.is_none(),
            fired,
            alpha,
            beta,
        );
        proof {
            if sure {
                let at = choose|k: int| 0 <= k < moves@.len() && moves@[k] == record.m;
                lemma_best_reply_is_above(eval, q, *s, moves@, 0, depth, at);
                if complete && record.value < beta {
                    assert forall|j: int| 0 <= j < moves@.len() implies reply_value(
                        eval,
                        q,
                        *s,
                        #[trigger] moves@[j],
                        depth,
                    ) <= record.value by {
                        assert(record.done@[j]);
                        assert((region.reply)(moves@[j]) == reply_value(eval, q, *s, moves@[j], depth));
                    }
                    lemma_best_reply_is_below(eval, q, *s, moves@, depth, record.value as int);
                }
                assert((region.reply)(record.m) == reply_value(eval, q, *s, record.m, depth));
            }
        }
        verdict
    }

    /// Searches the moves `moves` of `s` in the window from `alpha` to
    /// `beta`: the first alone, then its younger siblings, one after another
    /// up to the serial cutoff depth and in parallel above it. Returns the
    /// best score with its move, or `None` if the timeout interrupted the
    /// search. After a parallel region the score and the move are those of
    /// the best record, which begins with the first child's; should the
    /// record not bear out its score, the siblings are searched again one
    /// after another.
    fn children(
        &self,
        s: &mut <E::G as Game>::S,
        moves: &Vec<<E::G as Game>::M>,
        depth: u8,
        alpha_orig: Evaluation,
        alpha: Evaluation,
        beta: Evaluation,
    ) -> (found: Option<(Evaluation, <E::G as Game>::M)>)
        requires
            self.ready(),
            on_track::<E::G>(self.pledge(), *old(s), depth),
            E::G::winner(*old(s)) is None,
            depth > 0,
            moves@.len() > 0,
            forall|j: int|
                0 <= j < moves@.len() ==> E::G::moves(*old(s)).contains(#[trigger] moves@[j]),
            in_range(alpha_orig as int),
            in_range(alpha as int),
            in_range(beta as int),
        ensures
            *final(s) == *old(s),
            self.flag() is None ==> found is Some,
            found matches Some(r) ==> {
                &&& in_range(r.0 as int)
                &&& moves@.contains(r.1)
                &&& replies_held(self.evaluator(), self.pledge(), *old(s), moves@, depth) && alpha < beta ==> {
                    &&& bounds(
                        r.0 as int,
                        best_reply(
                            self.evaluator(),
                            self.options().spec_max_quiescence_depth(),
                            *old(s),
                            moves@,
                            0,
                            depth,
                        ),
                        alpha as int,
                        beta as int,
                    )
                    &&& r.0 > alpha ==> reply_value(
                        self.evaluator(),
                        self.options().spec_max_quiescence_depth(),
                        *old(s),
                        r.1,
                        depth,
                    ) >= r.0
                }
            },
        decreases depth, 1nat,
    {
        let ghost eval = self.eval;
        let ghost q = self.opts.spec_max_quiescence_depth();
        proof {
            lemma_replies_in_sight(eval, self.pledge@, *s, moves@, depth);
            lemma_best_reply_is_above(eval, q, *s, moves@, 0, depth, 0);
            assert(reply_value(eval, q, *s, moves@[0], depth) == -full_negamax(
                eval,
                q,
                E::G::play(*s, moves@[0]),
                (depth - 1) as u8,
            ));
        }
        let first_move = moves[0];
        E::G::apply(first_move, s);
        let reply = self.child_value(s, depth - 1, alpha, beta, false, None);
        E::G::undo(first_move, s);
        let first = match reply {
            Some(v) => v,
            None => {
                return None;
            },
        };
        let raised = if first > alpha {
            first
        } else {
            alpha
        };
        if raised >= beta {
            Some((first, first_move))
        } else if self.opts.serial_cutoff_depth() >= depth {
            self.serial_siblings(s, moves, depth, alpha, beta, first)
        } else {
            match self.parallel_siblings(s, moves, depth, alpha_orig, alpha, beta, first) {
                Verdict::TimedOut => None,
                Verdict::Best(v, m) => Some((v, m)),
                Verdict::Unsure => self.serial_siblings(s, moves, depth, alpha, beta, first),
            }
        }
    }

    /// Searches `s` at `depth` in the window from `alpha` to `beta`: the
    /// first child alone, its siblings one after another up to the serial
    /// cutoff depth and in parallel above it. Returns `None` if the timeout
    /// interrupted the search. The position is left as it was either way.
    ///
    /// At the root the table only names the move to try first; elsewhere it
    /// may end the search or tighten the window. The result is recorded in
    /// the table where the window is not empty.
    #[verifier::rlimit(50)]
    fn node(
        &self,
        s: &mut <E::G as Game>::S,
        depth: u8,
        alpha: Evaluation,
        beta: Evaluation,
        at_root: bool,
    ) -> (found: Option<Found<<E::G as Game>::M>>)
        requires
            self.ready(),
            on_track::<E::G>(self.pledge(), *old(s), depth),
            in_range(alpha as int),
            in_range(beta as int),
        ensures
            *final(s) == *old(s),
            self.flag() is None ==> found is Some,
            found matches Some(f) ==> {
                &&& in_range(f.value as int)
                &&& depth == 0 ==> f.value == tree::quiescence(
                    self.evaluator(),
                    *old(s),
                    self.options().spec_max_quiescence_depth(),
                    alpha as int,
                    beta as int,
                )
                &&& depth > 0 ==> (E::G::winner(*old(s)) matches Some(w) ==> f.value == w.value())
                &&& held(
                    self.evaluator(),
                    self.options().spec_max_quiescence_depth(),
                    self.pledge(),
                    *old(s),
                    depth,
                    alpha as int,
                    beta as int,
                    f.value as int,
                )
                &&& at_root && depth > 0 && E::G::winner(*old(s)) is None && E::G::moves(
                    *old(s),
                ).len() > 0 ==> {
                    &&& f.best_move is Some
                    &&& E::G::moves(*old(s)).contains(f.best_move->0)
                    &&& premises(self.evaluator()) && alpha == WORST_EVAL && beta == BEST_EVAL
                        && in_sight::<E::G>(self.pledge(), *old(s), depth) ==> attains(
                        self.evaluator(),
                        self.options().spec_max_quiescence_depth(),
                        *old(s),
                        f.best_move,
                        depth,
                    )
                }
            },
        decreases depth, 2nat,
    {
        let ghost eval = self.eval;
        let ghost q = self.opts.spec_max_quiescence_depth();
        let ghost pledge = self.pledge@;
        if timed_out(&self.timeout) {
            return None;
        }
        if depth == 0 {
            proof {
                if premises(eval) && alpha < beta {
                    lemma_quiescence_bounds(eval, *s, q, alpha as int, beta as int);
                }
            }
            return match self.noisy_negamax(s, self.opts.max_quiescence_depth(), alpha, beta) {
                Some(value) => Some(Found { value, best_move: None }),
                None => None,
            };
        }
        if let Some(winner) = E::G::get_winner(s) {
            return Some(Found { value: winner.evaluate(), best_move: None });
        }
        let alpha_orig = alpha;
        let beta_orig = beta;
        let hash = E::G::zobrist_hash(s);
        let mut good_move = None;
        let mut alpha = alpha;
        let mut beta = beta;
        let cutoff = self.table.check(hash, depth, &mut good_move, &mut alpha, &mut beta);
        let ghost read: Option<Entry<<E::G as Game>::M>> = choose|read: Option<Entry<<E::G as Game>::M>>|
            answers(read, hash) && (read matches Some(entry) ==> (self.table.truth())(entry))
                && #[trigger] probe_of(read, depth, None, alpha_orig, beta_orig) == (Probe {
                good_move,
                alpha,
                beta,
                cutoff,
            });
        let ghost found = if at_root {
            None
        } else {
            read
        };
        if at_root {
            alpha = alpha_orig;
            beta = beta_orig;
        } else if let Some(value) = cutoff {
            proof {
                if premises(eval) && alpha_orig < beta_orig {
                    lemma_read_holds(eval, q, pledge, read, *s, depth, alpha_orig, beta_orig);
                }
            }
            return Some(Found { value, best_move: good_move });
        }
        proof {
            if premises(eval) && alpha_orig < beta_orig {
                lemma_read_holds(eval, q, pledge, found, *s, depth, alpha_orig, beta_orig);
            }
        }
        let mut moves: Vec<<E::G as Game>::M> = Vec::new();
        E::G::generate_moves(s, &mut moves);
        assert(moves@ =~= E::G::moves(*s));
        if moves.len() == 0 {
            return Some(Found { value: WORST_EVAL, best_move: None });
        }
        proof {
            lemma_ordered_holds_the_same_moves(moves@, good_move);
            lemma_order_keeps_best_reply(eval, q, *s, moves@, good_move, depth);
        }
        bring_to_front::<E::G>(&mut moves, good_move);
        let ghost sure = replies_held(eval, self.pledge@, *s, moves@, depth);
        let ghost truth = best_reply(eval, q, *s, moves@, 0, depth);
        proof {
            assert(truth == full_negamax(eval, q, *s, depth));
            lemma_replies_in_sight(eval, pledge, *s, moves@, depth);
        }
        let (best, best_move) = match self.children(s, &moves, depth, alpha_orig, alpha, beta) {
            Some(r) => r,
            None => {
                return None;
            },
        };
        if alpha_orig < beta_orig {
            proof {
                lemma_write_holds(
                    eval,
                    q,
                    pledge,
                    found,
                    *s,
                    depth,
                    alpha_orig,
                    beta_orig,
                    best,
                    self.table.generation(),
                    best_move,
                );
            }
            self.table.concurrent_update(hash, alpha_orig, beta, depth, best, best_move);
        }
        proof {
            let at = choose|j: int| 0 <= j < moves@.len() && moves@[j] == best_move;
            assert(E::G::moves(*s).contains(moves@[at]));
            if premises(eval) && in_sight::<E::G>(pledge, *s, depth) {
                lemma_best_reply_is_above(eval, q, *s, moves@, 0, depth, at);
                lemma_best_reply_in_range(eval, q, *s, moves@, at as nat, depth);
                lemma_full_negamax_in_range(eval, q, *s, depth);
            }
        }
        Some(Found { value: clamp_value(best), best_move: Some(best_move) })
    }

    /// Searches `s` at `depth` in the window from `alpha` to `beta`, as
    /// `negamax` does, for a searcher whose table takes entries and a
    /// search that ends at the horizon that the table is pledged to, if it
    /// is pledged to one.
    fn search(
        &self,
        s: &mut <E::G as Game>::S,
        depth: u8,
        alpha: Evaluation,
        beta: Evaluation,
    ) -> (found: Option<Evaluation>)
        requires
            self.ready(),
            on_track::<E::G>(self.pledge(), *old(s), depth),
            in_range(alpha as int),
            in_range(beta as int),
        ensures
            *final(s) == *old(s),
            self.flag() is None ==> found is Some,
            found matches Some(v) ==> {
                &&& in_range(v as int)
                &&& depth == 0 ==> v == tree::quiescence(
                    self.evaluator(),
                    *old(s),
                    self.options().spec_max_quiescence_depth(),
                    alpha as int,
                    beta as int,
                )
                &&& depth > 0 ==> (E::G::winner(*old(s)) matches Some(w) ==> v == w.value())
                &&& held(
                    self.evaluator(),
                    self.options().spec_max_quiescence_depth(),
                    self.pledge(),
                    *old(s),
                    depth,
                    alpha as int,
                    beta as int,
                    v as int,
                )
            },
        decreases depth, 3nat,
    {
        match self.node(s, depth, alpha, beta, false) {
            Some(f) => Some(f.value),
            None => None,
        }
    }

    /// Gives up what the table is pledged to beyond being true of the
    /// searches that reach the end of the game, so that it takes the
    /// entries of any search.
    fn reopen(&mut self)
        requires
            old(self).wf(),
        ensures
            final(self).ready(),
            final(self).pledge() is Open,
            final(self).evaluator() == old(self).evaluator(),
            final(self).options() == old(self).options(),
            final(self).depth_limit() == old(self).depth_limit(),
            final(self).time_limit() == old(self).time_limit(),
            final(self).flag() == old(self).flag(),
            final(self).prev_value() == old(self).prev_value(),
            final(self).line() == old(self).line(),
            final(self).iterations() == old(self).iterations(),
            final(self).reached() == old(self).reached(),
            final(self).generation() == old(self).generation(),
            final(self).table_slots() == old(self).table_slots(),
    {
        let ghost eval = self.eval;
        let ghost q = self.opts.spec_max_quiescence_depth();
        let ghost truth = |e: Entry<<E::G as Game>::M>| entry_is_true(eval, q, Pledge::Open, e);
        proof {
            assert forall|e: Entry<<E::G as Game>::M>| #[trigger]
                (self.table.truth())(e) implies truth(e) by {
                lemma_pledge_opens(eval, q, self.pledge@, e);
            }
        }
        self.table.regard(Ghost(truth));
        self.pledge = Ghost(Pledge::Open);
    }

    /// Searches `s` at `depth` in the window from `alpha` to `beta`: the
    /// first child alone, its siblings one after another up to the serial
    /// cutoff depth and in parallel above it. Returns `None` if the timeout
    /// interrupted the search. The position is left as it was either way.
    ///
    /// Which thread comes first, and what the others have left in the
    /// table, is open. Whatever they did, on the premises the score says
    /// nothing wrong of the value of the game, where the search reaches the
    /// end of the game on every line. The table gives up what else it was
    /// pledged to.
    pub fn negamax(
        &mut self,
        s: &mut <E::G as Game>::S,
        depth: u8,
        alpha: Evaluation,
        beta: Evaluation,
    ) -> (found: Option<Evaluation>)
        requires
            old(self).wf(),
            in_range(alpha as int),
            in_range(beta as int),
        ensures
            final(self).ready(),
            final(self).pledge() is Open,
            final(self).evaluator() == old(self).evaluator(),
            final(self).options() == old(self).options(),
            final(self).depth_limit() == old(self).depth_limit(),
            final(self).time_limit() == old(self).time_limit(),
            final(self).flag() == old(self).flag(),
            final(self).prev_value() == old(self).prev_value(),
            final(self).line() == old(self).line(),
            final(self).iterations() == old(self).iterations(),
            final(self).reached() == old(self).reached(),
            final(self).generation() == old(self).generation(),
            final(self).table_slots() == old(self).table_slots(),
            *final(s) == *old(s),
            old(self).flag() is None ==> found is Some,
            found matches Some(v) ==> {
                &&& in_range(v as int)
                &&& depth == 0 ==> v == tree::quiescence(
                    old(self).evaluator(),
                    *old(s),
                    old(self).options().spec_max_quiescence_depth(),
                    alpha as int,
                    beta as int,
                )
                &&& depth > 0 ==> (E::G::winner(*old(s)) matches Some(w) ==> v == w.value())
                &&& premises(old(self).evaluator()) && alpha < beta && settled::<E::G>(
                    *old(s),
                    depth,
                ) ==> bounds(
                    v as int,
                    full_negamax(
                        old(self).evaluator(),
                        old(self).options().spec_max_quiescence_depth(),
                        *old(s),
                        depth,
                    ),
                    alpha as int,
                    beta as int,
                )
            },
    {
        self.reopen();
        self.search(s, depth, alpha, beta)
    }

    /// Runs the iteration that is next where the search stands at `now`:
    /// pledges the table to the horizon of the iteration, if it can, then
    /// searches `s` one ply deeper than `now.depth` in the full window. An
    /// iteration that ran in full gives the answer, the score and the line
    /// of play; one that was interrupted changes none of them.
    fn deepen(
        &mut self,
        s: &<E::G as Game>::S,
        s_clone: &mut <E::G as Game>::S,
        now: Standing<<E::G as Game>::M>,
        step: usize,
        Ghost(fresh): Ghost<bool>,
    ) -> (next: Standing<<E::G as Game>::M>)
        requires
            old(self).wf(),
            *old(s_clone) == *s,
            E::G::winner(*s) is None,
            E::G::moves(*s).len() > 0,
            now.open,
            now.depth < 255,
            now.reached <= now.depth,
            step == 1 || step == 2,
            in_range(now.value as int),
            old(self).iterations() < 255,
            old(self).reached() == now.reached,
            old(self).prev_value() == now.value,
            fresh && old(self).iterations() == 0 ==> old(self).pristine(),
            fresh && old(self).iterations() > 0 ==> now.depth > now.reached && old(self).pledge() == (
            Pledge::Horizon { root: *s, depth: (now.reached + 1) as nat }),
        ensures
            final(self).wf(),
            *final(s_clone) == *s,
            final(self).evaluator() == old(self).evaluator(),
            final(self).options() == old(self).options(),
            final(self).depth_limit() == old(self).depth_limit(),
            final(self).time_limit() == old(self).time_limit(),
            final(self).flag() == old(self).flag(),
            final(self).generation() == old(self).generation(),
            final(self).table_slots() == old(self).table_slots(),
            final(self).last_wall_time() == old(self).last_wall_time(),
            final(self).reached() == next.reached,
            final(self).prev_value() == next.value,
            in_range(next.value as int),
            old(self).flag() is None ==> next.open,
            !final(self).pristine(),
            !next.open ==> {
                &&& next == (Standing { open: false, ..now })
                &&& final(self).iterations() == old(self).iterations()
                &&& final(self).line() == old(self).line()
            },
            next.open ==> {
                &&& final(self).iterations() == old(self).iterations() + 1
                &&& next.reached == now.depth
                &&& next.depth == now.depth + step
                &&& next.best matches Some(m) && E::G::moves(*s).contains(m)
                &&& playable_line::<E::G>(*s, final(self).line())
                &&& final(self).line().len() <= next.depth + 1
                &&& fresh ==> final(self).pledge() == (Pledge::Horizon {
                    root: *s,
                    depth: (now.depth + 1) as nat,
                })
                &&& premises(old(self).evaluator()) && (settled::<E::G>(*s, (now.depth + 1) as u8)
                    || (fresh && counted::<E::G>())) ==> next.value == full_negamax(
                    old(self).evaluator(),
                    old(self).options().spec_max_quiescence_depth(),
                    *s,
                    (now.depth + 1) as u8,
                ) && attains(
                    old(self).evaluator(),
                    old(self).options().spec_max_quiescence_depth(),
                    *s,
                    next.best,
                    (now.depth + 1) as u8,
                )
            },
    {
        let ghost eval = self.eval;
        let ghost q = self.opts.spec_max_quiescence_depth();
        let d = (now.depth + 1) as u8;
        let ghost before = self.pledge@;
        let ghost pledge = next_pledge(before, *s, d as nat);
        let ghost truth = |e: Entry<<E::G as Game>::M>| entry_is_true(eval, q, pledge, e);
        proof {
            if premises(eval) {
                lemma_full_negamax_in_range(eval, q, *s, d);
            }
            assert forall|e: Entry<<E::G as Game>::M>| #[trigger]
                (self.table.truth())(e) implies truth(e) by {
                if pledge is Open {
                    lemma_pledge_opens(eval, q, before, e);
                } else {
                    lemma_pledge_moves_on(eval, q, before, *s, d as nat, e);
                }
            }
        }
        self.table.regard(Ghost(truth));
        self.pledge = Ghost(pledge);
        let found = self.node(s_clone, d, WORST_EVAL, BEST_EVAL, true);
        let next = advance(now, step, found);
        if next.open {
            self.actual_depth = next.reached;
            self.nodes_explored.push(0);
            self.prev_value = next.value;
            self.table.populate_pv::<E::G>(&mut self.pv, s_clone, next.depth + 1);
        }
        next
    }

    /// Chooses a move in `s` by searching it deeper and deeper, each
    /// iteration in parallel.
    ///
    /// `timer` is the flag that the caller's timer sets when
    /// `timer_span()` has passed; it is not looked at where the depth is
    /// the only limit. The answer and the score are those that the search
    /// of `s` gave in the last iteration that ran in full: no move if none
    /// did, or if the game is over in `s` or `s` has no move. The table is
    /// in its next generation afterwards.
    ///
    /// On the premises the score is the full score of the depth reached,
    /// and the answer attains it, where that search reaches the end of the
    /// game on every line; and for a searcher that has not searched yet
    /// also where it stops at the horizon, if every move of the game leads
    /// one ply further.
    pub fn choose_move(&mut self, s: &<E::G as Game>::S, timer: Option<Arc<AtomicBool>>) -> (best:
        Option<<E::G as Game>::M>)
        requires
            old(self).wf(),
        ensures
            final(self).wf(),
            final(self).evaluator() == old(self).evaluator(),
            final(self).options() == old(self).options(),
            final(self).depth_limit() == old(self).depth_limit(),
            final(self).time_limit() == old(self).time_limit(),
            final(self).flag() == if spans_no_time(old(self).time_limit()) {
                None
            } else {
                timer
            },
            final(self).generation() == next_generation(old(self).generation()),
            final(self).table_slots() == old(self).table_slots(),
            E::G::winner(*s) is Some || E::G::moves(*s).len() == 0 ==> best is None,
            best matches Some(m) ==> E::G::moves(*s).contains(m),
            final(self).iterations() == 0 ==> {
                &&& best is None
                &&& final(self).prev_value() == old(self).prev_value()
                &&& final(self).line() == old(self).line()
            },
            final(self).iterations() <= 255,
            final(self).iterations() > 0 ==> {
                &&& best is Some
                &&& !final(self).pristine()
                &&& final(self).reached() < 255
                &&& final(self).reached() <= old(self).depth_limit()
                &&& playable_line::<E::G>(*s, final(self).line())
                &&& final(self).line().len() <= final(self).reached() + old(
                    self,
                ).options().spec_step_increment() + 1
                &&& premises(old(self).evaluator()) && (settled::<E::G>(
                    *s,
                    (final(self).reached() + 1) as u8,
                ) || (old(self).pristine() && counted::<E::G>())) ==> final(self).prev_value()
                    == full_negamax(
                    old(self).evaluator(),
                    old(self).options().spec_max_quiescence_depth(),
                    *s,
                    (final(self).reached() + 1) as u8,
                ) && attains(
                    old(self).evaluator(),
                    old(self).options().spec_max_quiescence_depth(),
                    *s,
                    best,
                    (final(self).reached() + 1) as u8,
                )
            },
            (timer is None || spans_no_time(old(self).time_limit())) && E::G::winner(*s) is None
                && E::G::moves(*s).len() > 0 ==> {
                &&& best is Some
                &&& final(self).iterations() > 0
                &&& old(self).depth_limit() < 255 ==> {
                    &&& final(self).reached() == old(self).depth_limit()
                    &&& final(self).iterations() == old(self).depth_limit() / (old(
                        self,
                    ).options().spec_step_increment() as nat) + 1
                }
            },
    {
        self.table.advance_generation();
        self.nodes_explored.clear();
        self.actual_depth = 0;
        let start_time = now();
        self.timeout = if is_zero(&self.max_time) {
            None
        } else {
            timer
        };
        let mut s_clone = E::G::clone_state(s);
        let step: usize = self.opts.step_increment() as usize;
        let live = match E::G::get_winner(s) {
            Some(_) => false,
            None => {
                let mut moves: Vec<<E::G as Game>::M> = Vec::new();
                E::G::generate_moves(s, &mut moves);
                assert(moves@ =~= E::G::moves(*s));
                moves.len() > 0
            },
        };
        let first: usize = self.max_depth % step;
        let mut now = Standing {
            best: None,
            value: self.prev_value,
            reached: 0,
            depth: first,
            open: live,
        };
        let ghost eval = self.eval;
        let ghost q = self.opts.spec_max_quiescence_depth();
        let ghost fresh = old(self).pledge@ is Pristine;
        assert(first <= self.max_depth && first < 2 && (step == 1 ==> first == 0) && (step == 2
            ==> first == self.max_depth % 2)) by {
            if step == 1 {
                assert(self.max_depth % 1 == 0);
            } else {
                assert(self.max_depth % 2 <= self.max_depth && self.max_depth % 2 < 2);
            }
        }
        while now.open && now.depth <= self.max_depth && now.depth < 255
            invariant
                self.eval == old(self).eval,
                eval == self.eval,
                q == self.opts.spec_max_quiescence_depth(),
                self.opts == old(self).opts,
                self.max_depth == old(self).max_depth,
                self.max_time == old(self).max_time,
                self.wall_time == old(self).wall_time,
                self.timeout == if spans_no_time(old(self).max_time) {
                    None
                } else {
                    timer
                },
                self.table.generation() == next_generation(old(self).table.generation()),
                self.table.capacity() == old(self).table.capacity(),
                step == self.opts.spec_step_increment(),
                step == 1 || step == 2,
                first <= self.max_depth,
                first < 2,
                step == 1 ==> first == 0,
                step == 2 ==> first == self.max_depth % 2,
                self.wf(),
                fresh == (old(self).pledge@ is Pristine),
                s_clone == *s,
                live == (E::G::winner(*s) is None && E::G::moves(*s).len() > 0),
                now.depth <= 256,
                self.nodes_explored@.len() <= now.depth,
                self.nodes_explored@.len() <= 255,
                self.actual_depth == now.reached,
                self.prev_value == now.value,
                in_range(now.value as int),
                live || (!now.open && now.best is None),
                now.best matches Some(m) ==> E::G::moves(*s).contains(m),
                now.open ==> now.depth == first + (if step == 1 {
                    self.nodes_explored@.len() as int
                } else {
                    2 * (self.nodes_explored@.len() as int)
                }),
                self.nodes_explored@.len() == 0 ==> {
                    &&& now.best is None
                    &&& now.reached == 0
                    &&& self.prev_value == old(self).prev_value
                    &&& self.pv@ == old(self).pv@
                    &&& now.open ==> self.pledge@ == old(self).pledge@
                    &&& now.depth == first
                },
                self.nodes_explored@.len() > 0 ==> {
                    &&& now.best is Some
                    &&& now.reached < 255
                    &&& now.reached <= self.max_depth
                    &&& now.open ==> now.depth == now.reached + step
                    &&& !(self.pledge@ is Pristine)
                    &&& fresh && now.open ==> self.pledge@ == (Pledge::Horizon {
                        root: *s,
                        depth: (now.reached + 1) as nat,
                    })
                    &&& playable_line::<E::G>(*s, self.pv@)
                    &&& self.pv@.len() <= now.reached + step + 1
                    &&& premises(eval) && (settled::<E::G>(*s, (now.reached + 1) as u8) || (fresh
                        && counted::<E::G>())) ==> now.value == full_negamax(
                        eval,
                        q,
                        *s,
                        (now.reached + 1) as u8,
                    ) && attains(eval, q, *s, now.best, (now.reached + 1) as u8)
                },
                self.timeout is None && live ==> now.open,
            decreases (if now.open { 1nat } else { 0nat }), 256 - now.depth,
        {
            now = self.deepen(s, &mut s_clone, now, step, Ghost(fresh));
        }
        proof {
            if self.timeout is None && live && self.max_depth < 255 {
                let n = self.nodes_explored@.len() as int;
                let limit = self.max_depth as int;
                assert(n > 0);
                assert(now.depth > limit);
                if step == 1 {
                    assert(now.reached == limit);
                    assert(limit / 1 == limit);
                    assert(n == limit / (step as int) + 1);
                } else {
                    assert(now.depth == first + 2 * n);
                    assert(now.reached == first + 2 * n - 2);
                    assert(first == limit % 2);
                    assert(now.reached == limit);
                    assert(n == limit / 2 + 1);
                    assert(n == limit / (step as int) + 1);
                }
            }
        }
        self.wall_time = elapsed(&start_time);
        now.best
    }
}

} // verus!
