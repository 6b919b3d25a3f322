//! Iterative deepening: search to depth 1, then 2, and so on, until the
//! depth or time budget runs out, reusing the table between iterations.

use vstd::prelude::*;
use crate::interface::{Evaluation, Evaluator, Game, Winner, BEST_EVAL, WORST_EVAL};
use crate::strategies::pruning::{
    best_reply, counts_plies, fingerprints_differ, full_negamax, lemma_advance_generation_holds,
    lemma_best_reply_is_above, lemma_best_reply_is_attained, lemma_empty_table_holds,
    lemma_single_move_negates, reply_value, scores_inside, settled, to_horizon, to_the_end,
};
use crate::strategies::solving::{
    attains, game_value, lemma_deepening_answers, lemma_deepening_solves, widens, wins_most,
};
use crate::strategies::table::{entries_in, is_least_power_of_two, Entry, TranspositionTable};
use crate::strategies::tree;
use crate::strategies::tree::{
    lemma_ordered_holds_the_same_moves, ordered, position_of, rounds, total_of, Round, Scan,
    Schedule, Settings, Tally,
};
use crate::strategies::clock::{elapsed, is_zero, now, seconds, spans_no_time};
use crate::strategies::util::{clamp_value, in_range, saturate, sum_counts, timed_out, MovePool};
use instant::Duration;
use std::sync::Arc;
use std::sync::atomic::AtomicBool;

verus! {

/// When a new result may overwrite what a table slot holds.
#[derive(Clone, Copy, Debug, PartialEq, Eq, Structural)]
pub enum Replacement {
    Always,
    DepthPreferred,
    TwoTier,
}

/// Settings of the iterative searcher.
#[derive(Clone, Copy)]
pub struct IterativeOptions {
    table_byte_size: usize,
    strategy: Replacement,
    null_window_search: bool,
    aspiration_window: Option<Evaluation>,
    step_increment: u8,
    max_quiescence_depth: u8,
}

impl IterativeOptions {
    #[verifier::type_invariant]
    spec fn step_is_one_or_two(self) -> bool {
        self.step_increment == 1 || self.step_increment == 2
    }

    /// About how many bytes the transposition table is to take.
    pub closed spec fn spec_table_byte_size(self) -> usize {
        self.table_byte_size
    }

    /// When a new result may overwrite what a slot of the table holds.
    pub closed spec fn spec_strategy(self) -> Replacement {
        self.strategy
    }

    /// Whether younger siblings are first probed with an empty window.
    pub closed spec fn spec_null_window_search(self) -> bool {
        self.null_window_search
    }

    /// How far to either side of the previous score each iteration looks
    /// first, if it does.
    pub closed spec fn spec_aspiration_window(self) -> Option<Evaluation> {
        self.aspiration_window
    }

    /// By how many plies one iteration is deeper than the one before: 1 or 2.
    pub closed spec fn spec_step_increment(self) -> u8 {
        self.step_increment
    }

    /// How deep the search of forcing moves goes at the leaves.
    pub closed spec fn spec_max_quiescence_depth(self) -> u8 {
        self.max_quiescence_depth
    }

    /// A table of a million bytes in pairs of slots, null-window search, no
    /// aspiration window, every depth in turn, and no quiescence search.
    pub fn new() -> (o: Self)
        ensures
            o.spec_table_byte_size() == 1_000_000,
            o.spec_strategy() == Replacement::TwoTier,
            o.spec_null_window_search(),
            o.spec_aspiration_window() is None,
            o.spec_step_increment() == 1,
            o.spec_max_quiescence_depth() == 0,
    {
        IterativeOptions {
            table_byte_size: 1_000_000,
            strategy: Replacement::TwoTier,
            null_window_search: true,
            aspiration_window: None,
            step_increment: 1,
            max_quiescence_depth: 0,
        }
    }

    /// About how many bytes the transposition table is to take.
    pub fn with_table_byte_size(self, size: usize) -> (o: Self)
        ensures
            o.spec_table_byte_size() == size,
            o.spec_strategy() == self.spec_strategy(),
            o.spec_null_window_search() == self.spec_null_window_search(),
            o.spec_aspiration_window() == self.spec_aspiration_window(),
            o.spec_step_increment() == self.spec_step_increment(),
            o.spec_max_quiescence_depth() == self.spec_max_quiescence_depth(),
    {
        proof {
            use_type_invariant(&self);
        }
        IterativeOptions { table_byte_size: size, ..self }
    }

    /// When a new result may overwrite what a slot of the table holds.
    pub fn with_replacement_strategy(self, strategy: Replacement) -> (o: Self)
        ensures
            o.spec_table_byte_size() == self.spec_table_byte_size(),
            o.spec_strategy() == strategy,
            o.spec_null_window_search() == self.spec_null_window_search(),
            o.spec_aspiration_window() == self.spec_aspiration_window(),
            o.spec_step_increment() == self.spec_step_increment(),
            o.spec_max_quiescence_depth() == self.spec_max_quiescence_depth(),
    {
        proof {
            use_type_invariant(&self);
        }
        IterativeOptions { strategy: strategy, ..self }
    }

    /// Whether younger siblings are first probed with an empty window, and
    /// searched in full only if the probe says that they are better.
    pub fn with_null_window_search(self, null: bool) -> (o: Self)
        ensures
            o.spec_table_byte_size() == self.spec_table_byte_size(),
            o.spec_strategy() == self.spec_strategy(),
            o.spec_null_window_search() == null,
            o.spec_aspiration_window() == self.spec_aspiration_window(),
            o.spec_step_increment() == self.spec_step_increment(),
            o.spec_max_quiescence_depth() == self.spec_max_quiescence_depth(),
    {
        proof {
            use_type_invariant(&self);
        }
        IterativeOptions { null_window_search: null, ..self }
    }

    /// Lets each iteration look first in the window that reaches `window` to
    /// either side of the previous score.
    pub fn with_aspiration_window(self, window: Evaluation) -> (o: Self)
        ensures
            o.spec_table_byte_size() == self.spec_table_byte_size(),
            o.spec_strategy() == self.spec_strategy(),
            o.spec_null_window_search() == self.spec_null_window_search(),
            o.spec_aspiration_window() == Some(window),
            o.spec_step_increment() == self.spec_step_increment(),
            o.spec_max_quiescence_depth() == self.spec_max_quiescence_depth(),
    {
        proof {
            use_type_invariant(&self);
        }
        IterativeOptions { aspiration_window: Some(window), ..self }
    }

    /// Deepens by two plies from one iteration to the next.
    pub fn with_double_step_increment(self) -> (o: Self)
        ensures
            o.spec_table_byte_size() == self.spec_table_byte_size(),
            o.spec_strategy() == self.spec_strategy(),
            o.spec_null_window_search() == self.spec_null_window_search(),
            o.spec_aspiration_window() == self.spec_aspiration_window(),
            o.spec_step_increment() == 2,
            o.spec_max_quiescence_depth() == self.spec_max_quiescence_depth(),
    {
        proof {
            use_type_invariant(&self);
        }
        IterativeOptions { step_increment: 2, ..self }
    }

    /// How deep the search of forcing moves goes at the leaves; 0 for none.
    pub fn with_quiescence_search_depth(self, depth: u8) -> (o: Self)
        ensures
            o.spec_table_byte_size() == self.spec_table_byte_size(),
            o.spec_strategy() == self.spec_strategy(),
            o.spec_null_window_search() == self.spec_null_window_search(),
            o.spec_aspiration_window() == self.spec_aspiration_window(),
            o.spec_step_increment() == self.spec_step_increment(),
            o.spec_max_quiescence_depth() == depth,
    {
        proof {
            use_type_invariant(&self);
        }
        IterativeOptions { max_quiescence_depth: depth, ..self }
    }

    /// About how many bytes the transposition table is to take.
    pub fn table_byte_size(&self) -> (r: usize)
        ensures
            r == self.spec_table_byte_size(),
    {
        self.table_byte_size
    }

    /// When a new result may overwrite what a slot of the table holds.
    pub fn strategy(&self) -> (r: Replacement)
        ensures
            r == self.spec_strategy(),
    {
        self.strategy
    }

    /// Whether younger siblings are first probed with an empty window.
    pub fn null_window_search(&self) -> (r: bool)
        ensures
            r == self.spec_null_window_search(),
    {
        self.null_window_search
    }

    /// How far to either side of the previous score each iteration looks
    /// first, if it does.
    pub fn aspiration_window(&self) -> (r: Option<Evaluation>)
        ensures
            r == self.spec_aspiration_window(),
    {
        self.aspiration_window
    }

    /// How deep the search of forcing moves goes at the leaves.
    pub fn max_quiescence_depth(&self) -> (r: u8)
        ensures
            r == self.spec_max_quiescence_depth(),
    {
        self.max_quiescence_depth
    }

    /// By how many plies one iteration is deeper than the one before.
    pub fn step_increment(&self) -> (r: u8)
        ensures
            r == self.spec_step_increment(),
            r == 1 || r == 2,
    {
        proof {
            use_type_invariant(self);
        }
        self.step_increment
    }
}

impl Default for IterativeOptions {
    fn default() -> (o: Self)
        ensures
            o.spec_table_byte_size() == 1_000_000,
            o.spec_strategy() == Replacement::TwoTier,
            o.spec_null_window_search(),
            o.spec_aspiration_window() is None,
            o.spec_step_increment() == 1,
            o.spec_max_quiescence_depth() == 0,
    {
        IterativeOptions::new()
    }
}

/// Swaps the move that the table suggests, where `moves` holds it, to the
/// front.
pub fn bring_to_front<G: Game>(moves: &mut Vec<G::M>, good_move: Option<G::M>)
    ensures
        final(moves)@ == ordered(old(moves)@, good_move),
{
    if let Some(good) = good_move {
        let mut i: usize = 0;
        while i < moves.len()
            invariant
                i <= moves@.len(),
                moves@ == old(moves)@,
                good_move == Some(good),
                position_of(moves@, good, i as nat) == position_of(moves@, good, 0),
            decreases moves@.len() - i,
        {
            if G::same_move(&moves[i], &good) {
                assert(position_of(moves@, good, i as nat) == i);
                let first = moves[0];
                let found = moves[i];
                moves[0] = found;
                moves[i] = first;
                return ;
            }
            i += 1;
        }
    }
}

/// The negamax search with alpha-beta pruning over a transposition table.
pub struct Negamaxer<E: Evaluator> {
    /// Set from outside when the time is up; `None` where time is no limit.
    pub timeout: Option<Arc<AtomicBool>>,
    pub table: TranspositionTable<<E::G as Game>::M>,
    pub move_pool: MovePool<<E::G as Game>::M>,
    pub eval: E,
    pub max_quiescence_depth: u8,
    pub null_window_search: bool,
    pub nodes_explored: u64,
    pub total_generate_move_calls: u64,
    pub total_generated_moves: u64,
}

impl<E: Evaluator> Negamaxer<E> {
    /// The table and the pool of buffers are well formed.
    pub open spec fn wf(&self) -> bool {
        self.table.wf() && self.move_pool.wf()
    }

    /// What shapes the searches besides the window.
    pub open spec fn settings(&self) -> Settings {
        Settings {
            max_quiescence_depth: self.max_quiescence_depth,
            null_window_search: self.null_window_search,
        }
    }

    /// The counters as they stand.
    pub open spec fn tally(&self) -> Tally {
        Tally {
            nodes_explored: self.nodes_explored,
            generate_move_calls: self.total_generate_move_calls,
            generated_moves: self.total_generated_moves,
        }
    }

    /// The evaluator, the settings and the timeout flag are those of `other`.
    pub open spec fn same_setup(&self, other: &Self) -> bool {
        &&& self.eval == other.eval
        &&& self.timeout == other.timeout
        &&& self.settings() == other.settings()
    }

    /// A searcher over `table`, with no timeout and its counters at zero.
    pub fn new(
        table: TranspositionTable<<E::G as Game>::M>,
        eval: E,
        max_quiescence_depth: u8,
        null_window_search: bool,
    ) -> (n: Self)
        requires
            table.wf(),
        ensures
            n.wf(),
            n.table == table,
            n.eval == eval,
            n.timeout is None,
            n.settings() == (Settings { max_quiescence_depth, null_window_search }),
            n.tally() == Tally::zero(),
    {
        Negamaxer {
            timeout: None,
            table,
            eval,
            move_pool: MovePool::new(),
            max_quiescence_depth,
            null_window_search,
            nodes_explored: 0,
            total_generate_move_calls: 0,
            total_generated_moves: 0,
        }
    }

    /// Installs the flag that ends the searches, or none.
    pub fn set_timeout(&mut self, timeout: Option<Arc<AtomicBool>>)
        ensures
            *final(self) == (Negamaxer { timeout, ..*old(self) }),
    {
        self.timeout = timeout;
    }

    /// Sets the counters back to zero.
    pub fn reset_stats(&mut self)
        ensures
            *final(self) == (Negamaxer {
                nodes_explored: 0,
                total_generate_move_calls: 0,
                total_generated_moves: 0,
                ..*old(self)
            }),
    {
        self.nodes_explored = 0;
        self.total_generate_move_calls = 0;
        self.total_generated_moves = 0;
    }

    /// Searches forcing moves only, at most `depth` plies deep. Returns
    /// `None` if the timeout interrupted the search. The position is left
    /// as it was either way: every move is taken back before the search
    /// returns.
    pub fn noisy_negamax(
        &mut self,
        s: &mut <E::G as Game>::S,
        depth: u8,
        alpha: Evaluation,
        beta: Evaluation,
    ) -> (found: Option<Evaluation>)
        requires
            old(self).wf(),
            in_range(alpha as int),
            in_range(beta as int),
        ensures
            final(self).wf(),
            final(self).same_setup(old(self)),
            final(self).table == old(self).table,
            final(self).tally() == old(self).tally(),
            *final(s) == *old(s),
            old(self).timeout is None ==> found is Some,
            found matches Some(v) ==> {
                &&& v == tree::quiescence(old(self).eval, *old(s), depth, alpha as int, beta as int)
                &&& in_range(v as int)
            },
        decreases depth,
    {
        if timed_out(&self.timeout) {
            return None;
        }
        if let Some(winner) = E::G::get_winner(s) {
            return Some(winner.evaluate());
        }
        if depth == 0 {
            return Some(self.eval.evaluate(s));
        }
        let mut moves = self.move_pool.acquire();
        E::G::generate_noisy_moves(s, &mut moves);
        assert(moves@ =~= E::G::noisy_moves(*s));
        if moves.len() == 0 {
            self.move_pool.release(moves);
            return Some(self.eval.evaluate(s));
        }
        let ghost total = tree::quiescence(self.eval, *s, depth, alpha as int, beta as int);
        let mut alpha = alpha;
        let mut best = WORST_EVAL;
        let mut i: usize = 0;
        let mut open = true;
        while open && i < moves.len()
            invariant
                self.wf(),
                self.same_setup(old(self)),
                self.table == old(self).table,
                self.tally() == old(self).tally(),
                depth > 0,
                i <= moves@.len(),
                in_range(alpha as int),
                in_range(beta as int),
                in_range(best as int),
                *s == *old(s),
                moves@ == E::G::noisy_moves(*s),
                open ==> tree::quiescence_from(
                    self.eval,
                    *s,
                    moves@,
                    i as nat,
                    depth,
                    alpha as int,
                    beta as int,
                    best as int,
                ) == total,
                !open ==> best == total,
            decreases moves@.len() - i,
        {
            let m = moves[i];
            assert(E::G::noisy_moves(*s)[i as int] == m);
            E::G::apply(m, s);
            let reply = self.noisy_negamax(s, depth - 1, -beta, -alpha);
            E::G::undo(m, s);
            let value = match reply {
                Some(v) => -v,
                None => {
                    self.move_pool.release(moves);
                    return None;
                },
            };
            if value > best {
                best = value;
            }
            if value > alpha {
                alpha = value;
            }
            i += 1;
            if alpha >= beta {
                open = false;
            }
        }
        self.move_pool.release(moves);
        Some(best)
    }

    /// Scores the position `s`, which a move has just led to, for the player
    /// who made that move, whose window goes from `alpha` to `beta`. With
    /// `null_window` the position is first probed with the empty window
    /// just above `alpha`.
    pub fn child_value(
        &mut self,
        s: &mut <E::G as Game>::S,
        depth: u8,
        alpha: Evaluation,
        beta: Evaluation,
        null_window: bool,
    ) -> (found: Option<Evaluation>)
        requires
            old(self).wf(),
            in_range(alpha as int),
            in_range(beta as int),
            null_window ==> alpha < beta,
        ensures
            final(self).wf(),
            final(self).same_setup(old(self)),
            final(self).table@.same_shape(old(self).table@),
            *final(s) == *old(s),
            old(self).timeout is None ==> found is Some,
            found matches Some(v) ==> {
                let model = tree::child_value(
                    old(self).eval,
                    old(self).settings(),
                    old(self).table@,
                    old(self).tally(),
                    *old(s),
                    depth,
                    alpha as int,
                    beta as int,
                    null_window,
                );
                &&& v == model.value
                &&& in_range(v as int)
                &&& final(self).table@ == model.table
                &&& final(self).tally() == model.tally
            },
        decreases depth, 2nat, 0nat,
    {
        if null_window {
            let probe = match self.negamax(s, depth, -alpha - 1, -alpha) {
                Some(v) => -v,
                None => {
                    return None;
                },
            };
            if probe > alpha && probe < beta {
                match self.negamax(s, depth, -beta, -probe) {
                    Some(v) => Some(-v),
                    None => None,
                }
            } else {
                Some(probe)
            }
        } else {
            match self.negamax(s, depth, -beta, -alpha) {
                Some(v) => Some(-v),
                None => None,
            }
        }
    }

    /// Searches `s` at `depth` in the window from `alpha` to `beta`.
    /// Returns `None` if the timeout interrupted the search; nothing is
    /// then recorded for `s`. The position is left as it was either way:
    /// every move is taken back before the search returns.
    pub fn negamax(
        &mut self,
        s: &mut <E::G as Game>::S,
        depth: u8,
        alpha: Evaluation,
        beta: Evaluation,
    ) -> (found: Option<Evaluation>)
        requires
            old(self).wf(),
            in_range(alpha as int),
            in_range(beta as int),
        ensures
            final(self).wf(),
            final(self).same_setup(old(self)),
            final(self).table@.same_shape(old(self).table@),
            *final(s) == *old(s),
            old(self).timeout is None ==> found is Some,
            found matches Some(v) ==> {
                let model = tree::negamax(
                    old(self).eval,
                    old(self).settings(),
                    old(self).table@,
                    old(self).tally(),
                    *old(s),
                    depth,
                    alpha as int,
                    beta as int,
                );
                &&& v == model.value
                &&& in_range(v as int)
                &&& final(self).table@ == model.table
                &&& final(self).tally() == model.tally
            },
        decreases depth, 1nat, 0nat,
    {
        if timed_out(&self.timeout) {
            return None;
        }
        self.nodes_explored = self.nodes_explored.saturating_add(1);
        if depth == 0 {
            return self.noisy_negamax(s, self.max_quiescence_depth, alpha, beta);
        }
        if let Some(winner) = E::G::get_winner(s) {
            return Some(winner.evaluate());
        }
        let alpha_orig = alpha;
        let hash = E::G::zobrist_hash(s);
        let mut good_move = None;
        let mut alpha = alpha;
        let mut beta = beta;
        proof {
            self.table@.lemma_lookup_matches(hash);
        }
        if let Some(value) = self.table.check(hash, depth, &mut good_move, &mut alpha, &mut beta) {
            return Some(value);
        }
        let mut moves = self.move_pool.acquire();
        E::G::generate_moves(s, &mut moves);
        assert(moves@ =~= E::G::moves(*s));
        self.total_generate_move_calls = self.total_generate_move_calls.saturating_add(1);
        self.total_generated_moves = self.total_generated_moves.saturating_add(moves.len() as u64);
        if moves.len() == 0 {
            self.move_pool.release(moves);
            return Some(WORST_EVAL);
        }
        proof {
            lemma_ordered_holds_the_same_moves(moves@, good_move);
        }
        bring_to_front::<E::G>(&mut moves, good_move);
        let mut best = WORST_EVAL;
        let mut best_move = moves[0];
        let mut null_window = false;
        let ghost total = tree::negamax_from(
            self.eval,
            self.settings(),
            Scan { table: self.table@, tally: self.tally(), best: best as int, best_move },
            *s,
            moves@,
            0,
            depth,
            alpha as int,
            beta as int,
            false,
        );
        let mut i: usize = 0;
        let mut open = true;
        while open && i < moves.len()
            invariant
                self.wf(),
                self.same_setup(old(self)),
                self.table@.same_shape(old(self).table@),
                depth > 0,
                i <= moves@.len(),
                in_range(alpha as int),
                in_range(beta as int),
                in_range(best as int),
                open && null_window ==> alpha < beta,
                *s == *old(s),
                forall|j: int|
                    0 <= j < moves@.len() ==> E::G::moves(*s).contains(#[trigger] moves@[j]),
                open ==> tree::negamax_from(
                    self.eval,
                    self.settings(),
                    Scan { table: self.table@, tally: self.tally(), best: best as int, best_move },
                    *s,
                    moves@,
                    i as nat,
                    depth,
                    alpha as int,
                    beta as int,
                    null_window,
                ) == total,
                !open ==> (Scan {
                    table: self.table@,
                    tally: self.tally(),
                    best: best as int,
                    best_move,
                }) == total,
            decreases moves@.len() - i,
        {
            let m = moves[i];
            E::G::apply(m, s);
            let reply = self.child_value(s, depth - 1, alpha, beta, null_window);
            E::G::undo(m, s);
            let value = match reply {
                Some(v) => v,
                None => {
                    self.move_pool.release(moves);
                    return None;
                },
            };
            if value > best {
                best = value;
                best_move = m;
            }
            if value > alpha {
                alpha = value;
                null_window = self.null_window_search;
            }
            i += 1;
            if alpha >= beta {
                open = false;
            }
        }
        proof {
            self.table@.lemma_store_keeps_shape(
                hash,
                best,
                depth,
                crate::strategies::table::bound_of(alpha_orig, beta, best),
                best_move,
            );
        }
        self.table.update(hash, alpha_orig, beta, depth, best, best_move);
        self.move_pool.release(moves);
        Some(clamp_value(best))
    }

    /// Searches `s` in a narrow window around `target`, for what the search
    /// leaves in the table. Below depth 2 nothing is done. Returns `None`
    /// if the timeout interrupted the search.
    pub fn aspiration_search(
        &mut self,
        s: &mut <E::G as Game>::S,
        depth: u8,
        target: Evaluation,
        window: Evaluation,
    ) -> (done: Option<()>)
        requires
            old(self).wf(),
        ensures
            final(self).wf(),
            final(self).same_setup(old(self)),
            final(self).table@.same_shape(old(self).table@),
            *final(s) == *old(s),
            old(self).timeout is None || depth < 2 ==> done is Some,
            done is Some ==> {
                let model = tree::aspiration_search(
                    old(self).eval,
                    old(self).settings(),
                    old(self).table@,
                    old(self).tally(),
                    *old(s),
                    depth,
                    target as int,
                    window as int,
                );
                &&& final(self).table@ == model.table
                &&& final(self).tally() == model.tally
            },
    {
        if depth < 2 {
            return Some(());
        }
        let alpha = saturate(target as i64 - window as i64);
        let beta = saturate(target as i64 + window as i64);
        match self.negamax(s, depth, alpha, beta) {
            Some(_) => Some(()),
            None => None,
        }
    }
}

/// What a deepening search reports of its last call, beside the move.
pub struct Report<M> {
    /// The score of the root by the last full iteration.
    pub prev_value: Evaluation,
    /// One less than the greatest depth searched in full.
    pub actual_depth: nat,
    /// The calls of the main search that each full iteration took.
    pub history: Seq<u64>,
    /// The line of play that the last full iteration expects.
    pub pv: Seq<M>,
}

/// What `round` reports.
pub open spec fn report_of<M>(round: Round<M>) -> Report<M> {
    Report {
        prev_value: round.prev_value,
        actual_depth: round.actual_depth,
        history: round.history,
        pv: round.pv,
    }
}

/// The iterative-deepening searcher.
pub struct IterativeSearch<E: Evaluator> {
    max_depth: usize,
    max_time: Duration,
    negamaxer: Negamaxer<E>,
    prev_value: Evaluation,
    opts: IterativeOptions,
    // One less than the greatest depth that the last call searched in full.
    actual_depth: u8,
    // The calls of the main search that each iteration of the last call took.
    nodes_explored: Vec<u64>,
    pv: Vec<<E::G as Game>::M>,
    wall_time: Duration,
}

impl<E: Evaluator> IterativeSearch<E> {
    /// The engine is well formed, the score of the root is in range, and
    /// the iterations deepen by one ply or two.
    pub closed spec fn wf(&self) -> bool {
        &&& self.negamaxer.wf()
        &&& in_range(self.prev_value as int)
        &&& self.opts.spec_step_increment() == 1 || self.opts.spec_step_increment() == 2
    }

    /// What a well-formed searcher is: its engine is well formed, the
    /// score of the root is in range, and the iterations deepen by one ply
    /// or two.
    pub proof fn lemma_wf(&self)
        requires
            self.wf(),
        ensures
            self.engine().wf(),
            in_range(self.report().prev_value as int),
            self.schedule().step == 1 || self.schedule().step == 2,
            self.schedule().aspiration_window == self.options().spec_aspiration_window(),
            self.schedule().step == self.options().spec_step_increment(),
    {
    }

    /// The search engine, with its table and counters.
    pub closed spec fn engine(&self) -> Negamaxer<E> {
        self.negamaxer
    }

    /// The iterations that a call makes.
    pub closed spec fn schedule(&self) -> Schedule {
        Schedule {
            max_depth: self.max_depth as nat,
            step: self.opts.spec_step_increment() as nat,
            aspiration_window: self.opts.spec_aspiration_window(),
        }
    }

    /// The time that a call may take; no time at all where the depth is
    /// the only limit.
    pub closed spec fn time_limit(&self) -> Duration {
        self.max_time
    }

    /// The settings that the searcher was made with.
    pub closed spec fn options(&self) -> IterativeOptions {
        self.opts
    }

    /// What the last call reports, beside the move it returned.
    pub closed spec fn report(&self) -> Report<<E::G as Game>::M> {
        Report {
            prev_value: self.prev_value,
            actual_depth: self.actual_depth as nat,
            history: self.nodes_explored@,
            pv: self.pv@,
        }
    }

    /// Where a call on `s` starts: the table in its next generation, the
    /// counters at zero, no answer yet, and the score and line of the call
    /// before. Where the game is over in `s`, or `s` has no move, there is
    /// nothing to search.
    pub open spec fn opening(&self, s: <E::G as Game>::S) -> Round<<E::G as Game>::M> {
        Round {
            table: self.engine().table@.advance_generation(),
            tally: Tally::zero(),
            depth: if self.schedule().step == 0 {
                0
            } else {
                self.schedule().max_depth % self.schedule().step
            },
            open: E::G::winner(s) is None && E::G::moves(s).len() > 0,
            best_move: None,
            prev_value: self.report().prev_value,
            actual_depth: 0,
            history: Seq::empty(),
            pv: self.report().pv,
        }
    }

    /// A searcher with an empty table, limited to five seconds a move.
    pub fn new(eval: E, opts: IterativeOptions) -> (search: Self)
        requires
            opts.spec_table_byte_size() <= usize::MAX / 2,
        ensures
            search.wf(),
            search.options() == opts,
            search.schedule() == (Schedule {
                max_depth: 100,
                step: opts.spec_step_increment() as nat,
                aspiration_window: opts.spec_aspiration_window(),
            }),
            !spans_no_time(search.time_limit()),
            search.engine().eval == eval,
            search.engine().table@.is_empty(),
            search.engine().table@.strategy == opts.spec_strategy(),
            search.engine().table@.generation == 0,
            is_least_power_of_two(
                search.engine().table@.slots.len(),
                vstd::math::max(
                    entries_in(
                        opts.spec_table_byte_size() as nat,
                        vstd::layout::size_of::<Entry<<E::G as Game>::M>>(),
                    ) as int,
                    search.engine().table@.stride() as int,
                ) as nat,
            ),
            search.engine().settings() == (Settings {
                max_quiescence_depth: opts.spec_max_quiescence_depth(),
                null_window_search: opts.spec_null_window_search(),
            }),
            search.report() == (Report::<<E::G as Game>::M> {
                prev_value: 0,
                actual_depth: 0,
                history: Seq::empty(),
                pv: Seq::empty(),
            }),
    {
        let table = TranspositionTable::new(opts.table_byte_size(), opts.strategy());
        let negamaxer = Negamaxer::new(
            table,
            eval,
            opts.max_quiescence_depth(),
            opts.null_window_search(),
        );
        proof {
            use_type_invariant(&opts);
        }
        IterativeSearch {
            max_depth: 100,
            max_time: seconds(5),
            prev_value: 0,
            negamaxer,
            opts,
            actual_depth: 0,
            nodes_explored: Vec::new(),
            pv: Vec::new(),
            wall_time: seconds(0),
        }
    }

    /// Limits the search by depth alone: no time limit.
    pub fn set_max_depth(&mut self, depth: usize)
        requires
            old(self).wf(),
        ensures
            final(self).wf(),
            final(self).schedule() == (Schedule { max_depth: depth as nat, ..old(self).schedule() }),
            spans_no_time(final(self).time_limit()),
            final(self).engine() == old(self).engine(),
            final(self).options() == old(self).options(),
            final(self).report() == old(self).report(),
    {
        self.max_depth = depth;
        self.max_time = seconds(0);
    }

    /// Limits the search by time, and by depth to 100.
    pub fn set_timeout(&mut self, max_time: Duration)
        requires
            old(self).wf(),
        ensures
            final(self).wf(),
            final(self).schedule() == (Schedule { max_depth: 100, ..old(self).schedule() }),
            final(self).time_limit() == max_time,
            final(self).engine() == old(self).engine(),
            final(self).options() == old(self).options(),
            final(self).report() == old(self).report(),
    {
        self.max_time = max_time;
        self.max_depth = 100;
    }

    /// The time that a timer for the next call is to run, if the next call
    /// is limited by time.
    pub fn timer_span(&self) -> (span: Option<Duration>)
        ensures
            span == if spans_no_time(self.time_limit()) {
                None
            } else {
                Some(self.time_limit())
            },
    {
        if is_zero(&self.max_time) {
            None
        } else {
            Some(self.max_time)
        }
    }

    /// The score of the root by the last full iteration, as the table
    /// holds it.
    pub fn root_value(&self) -> (v: Evaluation)
        ensures
            v == self.report().prev_value,
    {
        self.prev_value
    }

    /// The line of play that the last full iteration expects.
    pub fn principal_variation(&self) -> (line: &[<E::G as Game>::M])
        ensures
            line@ == self.report().pv,
    {
        self.pv.as_slice()
    }

    /// One less than the greatest depth that the last call searched in
    /// full.
    pub fn actual_depth(&self) -> (depth: u8)
        ensures
            depth == self.report().actual_depth,
    {
        self.actual_depth
    }

    /// The calls of the main search that each full iteration of the last
    /// call took.
    pub fn nodes_explored(&self) -> (history: &[u64])
        ensures
            history@ == self.report().history,
    {
        self.nodes_explored.as_slice()
    }

    /// The calls of the main search in all the full iterations of the last
    /// call.
    pub fn total_nodes_explored(&self) -> (total: u64)
        ensures
            total == total_of(self.report().history),
    {
        sum_counts(&self.nodes_explored)
    }

    /// The calls of the main search in the iteration that the last call
    /// did not finish.
    pub fn next_depth_nodes(&self) -> (nodes: u64)
        ensures
            nodes == self.engine().tally().nodes_explored,
    {
        self.negamaxer.nodes_explored
    }

    /// The positions whose moves the last call generated.
    pub fn total_generate_move_calls(&self) -> (calls: u64)
        ensures
            calls == self.engine().tally().generate_move_calls,
    {
        self.negamaxer.total_generate_move_calls
    }

    /// The moves that the last call generated in all.
    pub fn total_generated_moves(&self) -> (moves: u64)
        ensures
            moves == self.engine().tally().generated_moves,
    {
        self.negamaxer.total_generated_moves
    }

    /// The time that the last call took, by the clock.
    pub closed spec fn last_wall_time(&self) -> Duration {
        self.wall_time
    }

    /// The time that the last call took, by the clock.
    pub fn wall_time(&self) -> (span: Duration)
        ensures
            span == self.last_wall_time(),
    {
        self.wall_time
    }
}

impl<E: Evaluator> IterativeSearch<E> {
    /// A searcher that has not searched yet solves the game where it can:
    /// in a position with a move, if its deepest iteration reaches the end
    /// of the game on every line, a call that no timeout interrupts ends
    /// with the value of the game as its score, and without aspiration
    /// window with a move that attains it as its answer, provided that the
    /// evaluator scores inside the sentinels and no two positions share a
    /// fingerprint.
    pub proof fn lemma_fresh_search_solves(&self, s: <E::G as Game>::S)
        requires
            self.wf(),
            self.engine().table@.is_empty(),
            widens(self.schedule().aspiration_window),
            scores_inside(self.engine().eval),
            fingerprints_differ::<E::G>(),
            E::G::winner(s) is None,
            E::G::moves(s).len() > 0,
            self.schedule().max_depth < 255,
            settled::<E::G>(s, (self.schedule().max_depth + 1) as u8),
        ensures
            ({
                let end = rounds(
                    self.engine().eval,
                    self.engine().settings(),
                    self.schedule(),
                    s,
                    self.opening(s),
                    255,
                );
                let q = self.engine().settings().max_quiescence_depth;
                &&& end.open
                &&& end.actual_depth == self.schedule().max_depth
                &&& end.prev_value == game_value(self.engine().eval, q, s)
                &&& self.schedule().aspiration_window is None ==> wins_most(
                    self.engine().eval,
                    q,
                    s,
                    end.best_move,
                )
            }),
    {
        let eval = self.engine().eval;
        let q = self.engine().settings().max_quiescence_depth;
        let reach = to_the_end::<<E::G as Game>::S>();
        lemma_empty_table_holds(eval, q, reach, self.engine().table@);
        lemma_advance_generation_holds(eval, q, reach, self.engine().table@);
        let start = self.opening(s);
        assert forall|i: int| 0 <= i < start.table.slots.len() implies (
        #[trigger] start.table.slots[i]).depth <= start.depth by {
            assert(self.engine().table@.slots[i].depth == 0);
        }
        lemma_deepening_solves(
            eval,
            self.engine().settings(),
            self.schedule(),
            s,
            start,
            (self.schedule().max_depth + 1) as u8,
            255,
        );
    }

    /// A call that the timeout interrupts answers as a searcher bounded to
    /// the depth that the call reached: where the first `k` iterations of a
    /// call on `s` all ran and found `s` in the table, a searcher that
    /// differs only in its depth limit, which is the depth of the last of
    /// them, and that starts where this one does, ends its call after those
    /// iterations, with the same answer, score, line of play and table.
    pub proof fn lemma_interrupted_is_bounded(&self, bounded: &Self, s: <E::G as Game>::S, k: nat)
        requires
            self.wf(),
            k >= 1,
            bounded.engine().eval == self.engine().eval,
            bounded.engine().settings() == self.engine().settings(),
            bounded.opening(s) == self.opening(s),
            bounded.schedule() == (Schedule {
                max_depth: rounds(
                    self.engine().eval,
                    self.engine().settings(),
                    self.schedule(),
                    s,
                    self.opening(s),
                    (k - 1) as nat,
                ).depth,
                ..self.schedule()
            }),
            !rounds(
                self.engine().eval,
                self.engine().settings(),
                self.schedule(),
                s,
                self.opening(s),
                (k - 1) as nat,
            ).finished(self.schedule()),
            rounds(
                self.engine().eval,
                self.engine().settings(),
                self.schedule(),
                s,
                self.opening(s),
                k,
            ).open,
        ensures
            rounds(
                bounded.engine().eval,
                bounded.engine().settings(),
                bounded.schedule(),
                s,
                bounded.opening(s),
                255,
            ) == rounds(
                self.engine().eval,
                self.engine().settings(),
                self.schedule(),
                s,
                self.opening(s),
                k,
            ),
    {
        tree::lemma_interrupted_is_bounded(
            self.engine().eval,
            self.engine().settings(),
            self.schedule(),
            s,
            self.opening(s),
            k,
        );
    }

    /// A win in one is found: where a searcher that has not searched yet,
    /// without aspiration window, is asked in a position whose only move
    /// ends the game with a win for the player who makes it, a call that no
    /// timeout interrupts answers with that move, and the score is one
    /// below the best.
    pub proof fn lemma_win_in_one(&self, s: <E::G as Game>::S, m: <E::G as Game>::M)
        requires
            self.wf(),
            self.engine().table@.is_empty(),
            self.schedule().aspiration_window is None,
            scores_inside(self.engine().eval),
            fingerprints_differ::<E::G>(),
            self.schedule().max_depth < 255,
            E::G::winner(s) is None,
            E::G::moves(s) == seq![m],
            E::G::winner(E::G::play(s, m)) == Some(Winner::PlayerJustMoved),
        ensures
            ({
                let end = rounds(
                    self.engine().eval,
                    self.engine().settings(),
                    self.schedule(),
                    s,
                    self.opening(s),
                    255,
                );
                &&& end.best_move == Some(m)
                &&& end.prev_value == BEST_EVAL - 1
            }),
    {
        let eval = self.engine().eval;
        let q = self.engine().settings().max_quiescence_depth;
        let depth = (self.schedule().max_depth + 1) as u8;
        assert(E::G::moves(s)[0] == m);
        assert(settled::<E::G>(E::G::play(s, m), (depth - 1) as u8));
        assert(settled::<E::G>(s, depth));
        self.lemma_fresh_search_solves(s);
        lemma_single_move_negates(eval, q, s, m, 254);
    }

    /// A lost position is still answered: where a searcher that has not
    /// searched yet, without aspiration window, is asked in a position whose
    /// every move ends the game with a win for the other player, a call that
    /// no timeout interrupts answers with one of the moves, and the score is
    /// one above the worst.
    pub proof fn lemma_forced_loss(&self, s: <E::G as Game>::S)
        requires
            self.wf(),
            self.engine().table@.is_empty(),
            self.schedule().aspiration_window is None,
            scores_inside(self.engine().eval),
            fingerprints_differ::<E::G>(),
            self.schedule().max_depth < 255,
            E::G::winner(s) is None,
            E::G::moves(s).len() > 0,
            forall|i: int|
                0 <= i < E::G::moves(s).len() ==> E::G::winner(
                    E::G::play(s, #[trigger] E::G::moves(s)[i]),
                ) == Some(Winner::PlayerToMove),
        ensures
            ({
                let end = rounds(
                    self.engine().eval,
                    self.engine().settings(),
                    self.schedule(),
                    s,
                    self.opening(s),
                    255,
                );
                &&& end.best_move matches Some(m) && E::G::moves(s).contains(m)
                &&& end.prev_value == WORST_EVAL + 1
            }),
    {
        let eval = self.engine().eval;
        let q = self.engine().settings().max_quiescence_depth;
        let depth = (self.schedule().max_depth + 1) as u8;
        let moves = E::G::moves(s);
        assert forall|i: int| 0 <= i < moves.len() implies settled::<E::G>(
            E::G::play(s, #[trigger] moves[i]),
            (depth - 1) as u8,
        ) by {}
        assert(settled::<E::G>(s, depth));
        self.lemma_fresh_search_solves(s);
        assert forall|i: int| 0 <= i < moves.len() implies #[trigger] reply_value(
            eval,
            q,
            s,
            moves[i],
            255,
        ) == WORST_EVAL + 1 by {
            assert(full_negamax(eval, q, E::G::play(s, moves[i]), 254) == BEST_EVAL - 1);
        }
        let at = lemma_best_reply_is_attained(eval, q, s, moves, 0, 255);
        lemma_best_reply_is_above(eval, q, s, moves, 0, 255, 0);
        assert(reply_value(eval, q, s, moves[0], 255) == WORST_EVAL + 1);
        if best_reply(eval, q, s, moves, 0, 255) != WORST_EVAL {
            assert(reply_value(eval, q, s, moves[at], 255) == WORST_EVAL + 1);
        }
    }

    /// A searcher that has not searched yet finds the full score of its
    /// greatest depth: in a position with a move of a game whose every move
    /// leads one ply further, a call that no timeout interrupts ends with
    /// the score of the full search to that depth, and without aspiration
    /// window with a move that attains it, provided that the evaluator
    /// scores inside the sentinels and no two positions share a
    /// fingerprint.
    pub proof fn lemma_fresh_search_answers(
        &self,
        s: <E::G as Game>::S,
        plies: spec_fn(<E::G as Game>::S) -> nat,
    )
        requires
            self.wf(),
            self.engine().table@.is_empty(),
            widens(self.schedule().aspiration_window),
            scores_inside(self.engine().eval),
            fingerprints_differ::<E::G>(),
            counts_plies::<E::G>(plies),
            E::G::winner(s) is None,
            E::G::moves(s).len() > 0,
            self.schedule().max_depth < 255,
        ensures
            ({
                let end = rounds(
                    self.engine().eval,
                    self.engine().settings(),
                    self.schedule(),
                    s,
                    self.opening(s),
                    255,
                );
                let q = self.engine().settings().max_quiescence_depth;
                let depth = (self.schedule().max_depth + 1) as u8;
                &&& end.open
                &&& end.actual_depth == self.schedule().max_depth
                &&& end.prev_value == full_negamax(self.engine().eval, q, s, depth)
                &&& self.schedule().aspiration_window is None ==> attains(
                    self.engine().eval,
                    q,
                    s,
                    end.best_move,
                    depth,
                )
            }),
    {
        let eval = self.engine().eval;
        let q = self.engine().settings().max_quiescence_depth;
        let start = self.opening(s);
        let reach = to_horizon(plies, start.depth + plies(s));
        lemma_empty_table_holds(eval, q, reach, self.engine().table@);
        lemma_advance_generation_holds(eval, q, reach, self.engine().table@);
        assert forall|i: int| 0 <= i < start.table.slots.len() implies (
        #[trigger] start.table.slots[i]).depth <= start.depth by {
            assert(self.engine().table@.slots[i].depth == 0);
        }
        lemma_deepening_answers(
            eval,
            self.engine().settings(),
            self.schedule(),
            plies,
            s,
            start,
            255,
        );
    }

    spec fn round(&self, best_move: Option<<E::G as Game>::M>, depth: nat, open: bool) -> Round<
        <E::G as Game>::M,
    > {
        Round {
            table: self.negamaxer.table@,
            tally: self.negamaxer.tally(),
            depth,
            open,
            best_move,
            prev_value: self.prev_value,
            actual_depth: self.actual_depth as nat,
            history: self.nodes_explored@,
            pv: self.pv@,
        }
    }

    /// Chooses a move in `s` by searching it deeper and deeper.
    ///
    /// `timer` is the flag that the caller's timer sets when
    /// `timer_span()` has passed; it is not looked at where the depth is
    /// the only limit. The answer is that of the last iteration that ran
    /// in full: no move if none did, if the game is over in `s` or `s` has
    /// no move, or if the table held nothing for `s` after the first. The
    /// table is in its next generation afterwards, interrupted or not.
    pub fn choose_move(&mut self, s: &<E::G as Game>::S, timer: Option<Arc<AtomicBool>>) -> (best:
        Option<<E::G as Game>::M>)
        requires
            old(self).wf(),
        ensures
            final(self).wf(),
            final(self).schedule() == old(self).schedule(),
            final(self).options() == old(self).options(),
            final(self).time_limit() == old(self).time_limit(),
            final(self).engine().eval == old(self).engine().eval,
            final(self).engine().settings() == old(self).engine().settings(),
            final(self).engine().table@.same_shape(old(self).engine().table@.advance_generation()),
            E::G::winner(*s) is Some || E::G::moves(*s).len() == 0 ==> best is None,
            ({
                let ran = final(self).report().history.len();
                let reached = rounds(
                    old(self).engine().eval,
                    old(self).engine().settings(),
                    old(self).schedule(),
                    *s,
                    old(self).opening(*s),
                    ran,
                );
                &&& best == reached.best_move
                &&& final(self).report() == report_of(reached)
            }),
            timer is None || spans_no_time(old(self).time_limit()) ==> ({
                let settled = rounds(
                    old(self).engine().eval,
                    old(self).engine().settings(),
                    old(self).schedule(),
                    *s,
                    old(self).opening(*s),
                    255,
                );
                &&& settled.finished(old(self).schedule())
                &&& best == settled.best_move
                &&& final(self).report() == report_of(settled)
                &&& final(self).engine().table@ == settled.table
                &&& final(self).engine().tally() == settled.tally
            }),
    {
        self.negamaxer.table.advance_generation();
        self.nodes_explored.clear();
        self.negamaxer.reset_stats();
        self.actual_depth = 0;
        let start_time = now();
        let flag = if is_zero(&self.max_time) {
            None
        } else {
            timer
        };
        self.negamaxer.set_timeout(flag);
        let root_hash = E::G::zobrist_hash(s);
        let mut s_clone = E::G::clone_state(s);
        let mut best_move: Option<<E::G as Game>::M> = None;
        let step: usize = self.opts.step_increment() as usize;
        let window = self.opts.aspiration_window();
        let mut depth: usize = self.max_depth % step;
        let mut open = match E::G::get_winner(s) {
            Some(_) => false,
            None => {
                let mut moves = self.negamaxer.move_pool.acquire();
                E::G::generate_moves(s, &mut moves);
                assert(moves@ =~= E::G::moves(*s));
                let any = moves.len() > 0;
                self.negamaxer.move_pool.release(moves);
                any
            },
        };
        let mut interrupted = false;
        let ghost eval = self.negamaxer.eval;
        let ghost settings = self.negamaxer.settings();
        let ghost schedule = self.schedule();
        let ghost start = old(self).opening(*s);
        let ghost mut done: nat = 0;
        assert(self.round(best_move, depth as nat, open) == start);
        while !interrupted && open && depth <= self.max_depth && depth < 255
            invariant
                self.wf(),
                self.schedule() == schedule,
                schedule == old(self).schedule(),
                self.opts == old(self).opts,
                self.max_time == old(self).max_time,
                self.negamaxer.eval == eval,
                self.negamaxer.settings() == settings,
                self.negamaxer.timeout == flag,
                step == schedule.step,
                step == 1 || step == 2,
                window == schedule.aspiration_window,
                root_hash == E::G::hash(*s),
                s_clone == *s,
                self.negamaxer.table@.same_shape(start.table),
                open ==> done <= depth,
                open ==> done == self.nodes_explored@.len(),
                done <= 255,
                depth <= 256,
                !interrupted ==> self.round(best_move, depth as nat, open) == rounds(
                    eval,
                    settings,
                    schedule,
                    *s,
                    start,
                    done,
                ),
                best_move == rounds(
                    eval,
                    settings,
                    schedule,
                    *s,
                    start,
                    self.nodes_explored@.len(),
                ).best_move,
                self.report() == report_of(
                    rounds(eval, settings, schedule, *s, start, self.nodes_explored@.len()),
                ),
                interrupted ==> flag is Some,
                start.open || (!open && best_move is None),
            decreases
                    (if interrupted || !open {
                        0nat
                    } else {
                        1nat
                    }),
                    256 - depth,
        {
            let d = (depth + 1) as u8;
            let ghost before = self.round(best_move, depth as nat, open);
            assert(!before.finished(schedule));
            assert(rounds(eval, settings, schedule, *s, start, done + 1) == tree::next_round(
                eval,
                settings,
                schedule,
                *s,
                before,
            ));
            if let Some(w) = window {
                if self.negamaxer.aspiration_search(&mut s_clone, d, self.prev_value, w).is_none() {
                    interrupted = true;
                }
            }
            if !interrupted {
                if self.negamaxer.negamax(&mut s_clone, d, WORST_EVAL, BEST_EVAL).is_none() {
                    interrupted = true;
                }
            }
            if !interrupted {
                proof {
                    self.negamaxer.table@.lemma_lookup_matches(root_hash);
                    done = done + 1;
                }
                match self.negamaxer.table.lookup(root_hash) {
                    None => {
                        open = false;
                    },
                    Some(entry) => {
                        best_move = entry.best_move;
                        if depth as u8 > self.actual_depth {
                            self.actual_depth = depth as u8;
                        }
                        self.nodes_explored.push(self.negamaxer.nodes_explored);
                        self.negamaxer.nodes_explored = 0;
                        self.prev_value = entry.value;
                        depth += step;
                        self.negamaxer.table.populate_pv::<E::G>(
                            &mut self.pv,
                            &mut s_clone,
                            depth + 1,
                        );
                    },
                }
            }
        }
        proof {
            if !interrupted {
                tree::lemma_rounds_settle(eval, settings, schedule, *s, start, done, (255 - done) as nat);
            }
        }
        self.wall_time = elapsed(&start_time);
        best_move
    }
}

} // verus!
