//! Nim with one heap: each player in turn takes one, two or three stones,
//! and who takes the last stone wins.
//!
//! The game is small enough to be held to the interface in full. It shows
//! that the interface can be met, and what the searcher then promises: the
//! move that it answers is the one that theory names.

use vstd::prelude::*;
use crate::interface::{Evaluation, Evaluator, Game, Winner, BEST_EVAL, WORST_EVAL};
use crate::strategies::iterative::{IterativeOptions, IterativeSearch};
use crate::strategies::pruning::{
    best_reply, fingerprints_differ, full_negamax, lemma_best_reply_is_above,
    lemma_best_reply_is_attained, reply_value, scores_inside, settled,
};
use crate::strategies::solving::{attains, wins_most};
use crate::strategies::ybw::{premises, ParallelYbw, YbwOptions};

verus! {

/// The game.
pub struct Nim;

/// The takes that a heap of `heap` stones allows: one, two or three stones,
/// but no more than there are.
pub open spec fn takes(heap: u32) -> Seq<u32> {
    Seq::new(
        if heap < 3 {
            heap as nat
        } else {
            3
        },
        |i: int| (i + 1) as u32,
    )
}

impl Game for Nim {
    /// The stones on the heap.
    type S = u32;

    /// The stones taken.
    type M = u32;

    open spec fn winner(s: u32) -> Option<Winner> {
        if s == 0 {
            Some(Winner::PlayerJustMoved)
        } else {
            None
        }
    }

    open spec fn moves(s: u32) -> Seq<u32> {
        takes(s)
    }

    open spec fn noisy_moves(s: u32) -> Seq<u32> {
        Seq::empty()
    }

    open spec fn play(s: u32, m: u32) -> u32 {
        if m <= s {
            (s - m) as u32
        } else {
            s
        }
    }

    open spec fn hash(s: u32) -> u64 {
        (s + 1) as u64
    }

    fn generate_moves(s: &u32, moves: &mut Vec<u32>) {
        let mut take: u32 = 1;
        while take <= 3 && take <= *s
            invariant
                1 <= take <= 4,
                take - 1 <= takes(*s).len(),
                moves@ == old(moves)@ + takes(*s).take(take - 1),
            decreases 4 - take,
        {
            moves.push(take);
            assert(moves@ =~= old(moves)@ + takes(*s).take(take as int));
            take += 1;
        }
        assert(takes(*s).take(take - 1) =~= takes(*s));
    }

    fn generate_noisy_moves(s: &u32, moves: &mut Vec<u32>) {
        assert(moves@ + Seq::<u32>::empty() =~= moves@);
    }

    fn get_winner(s: &u32) -> (w: Option<Winner>) {
        if *s == 0 {
            Some(Winner::PlayerJustMoved)
        } else {
            None
        }
    }

    fn apply(m: u32, s: &mut u32) {
        proof {
            lemma_takes(*s, m);
        }
        *s = *s - m;
    }

    fn undo(m: u32, s: &mut u32) {
        let ghost after = *s;
        *s = s.wrapping_add(m);
        assert forall|p: u32|
            (Self::moves(p).contains(m) || Self::noisy_moves(p).contains(m)) && #[trigger] Self::play(
                p,
                m,
            ) == after implies *s == p by {
            lemma_takes(p, m);
        }
    }

    fn zobrist_hash(s: &u32) -> (h: u64) {
        *s as u64 + 1
    }

    fn clone_state(s: &u32) -> (c: u32) {
        *s
    }

    fn same_move(a: &u32, b: &u32) -> (r: bool) {
        *a == *b
    }
}

/// A take is allowed exactly if it is one, two or three stones and no more
/// than the heap holds.
pub proof fn lemma_takes(heap: u32, take: u32)
    ensures
        takes(heap).contains(take) <==> 1 <= take <= 3 && take <= heap,
        !Nim::noisy_moves(heap).contains(take),
{
    if 1 <= take <= 3 && take <= heap {
        assert(takes(heap)[take - 1] == take);
    }
}

/// The evaluator that sees nothing in a position: every heap scores 0.
pub struct Level;

impl Evaluator for Level {
    type G = Nim;

    open spec fn score(&self, s: u32) -> int {
        0
    }

    fn evaluate(&self, s: &u32) -> (v: Evaluation) {
        0
    }
}

/// What theory says a heap is worth to the player to move: a heap of a
/// multiple of four stones is lost, every other is won.
pub open spec fn theory(heap: u32) -> int {
    if heap % 4 == 0 {
        WORST_EVAL + 1
    } else {
        BEST_EVAL - 1
    }
}

/// A search as deep as the heap is high reaches the end of the game on
/// every line.
pub proof fn lemma_nim_settles(heap: u32, depth: u8)
    requires
        heap <= depth,
    ensures
        settled::<Nim>(heap, depth),
    decreases heap,
{
    if heap > 0 {
        assert forall|i: int| 0 <= i < Nim::moves(heap).len() implies settled::<Nim>(
            Nim::play(heap, #[trigger] Nim::moves(heap)[i]),
            (depth - 1) as u8,
        ) by {
            lemma_nim_settles((heap - (i + 1)) as u32, (depth - 1) as u8);
        }
    }
}

/// The full search agrees with theory, as soon as it is as deep as the heap
/// is high.
pub proof fn lemma_nim_value(quiescence_depth: u8, heap: u32, depth: u8)
    requires
        heap <= depth,
    ensures
        full_negamax(Level, quiescence_depth, heap, depth) == theory(heap),
    decreases heap,
{
    if heap > 0 {
        let moves = Nim::moves(heap);
        let best = best_reply(Level, quiescence_depth, heap, moves, 0, depth);
        assert forall|i: int| 0 <= i < moves.len() implies #[trigger] reply_value(
            Level,
            quiescence_depth,
            heap,
            moves[i],
            depth,
        ) == -theory((heap - (i + 1)) as u32) by {
            lemma_nim_value(quiescence_depth, (heap - (i + 1)) as u32, (depth - 1) as u8);
        }
        let at = lemma_best_reply_is_attained(Level, quiescence_depth, heap, moves, 0, depth);
        lemma_best_reply_is_above(Level, quiescence_depth, heap, moves, 0, depth, 0);
        if heap % 4 != 0 {
            let win = (heap % 4 - 1) as int;
            lemma_best_reply_is_above(Level, quiescence_depth, heap, moves, 0, depth, win);
            assert(reply_value(Level, quiescence_depth, heap, moves[win], depth) == -theory(
                (heap - (win + 1)) as u32,
            ));
        }
        if best != WORST_EVAL {
            assert(reply_value(Level, quiescence_depth, heap, moves[at], depth) == -theory(
                (heap - (at + 1)) as u32,
            ));
        }
    }
}

/// The take that theory names for a heap that can be won, and the searcher's
/// first choice for one that cannot.
///
/// A heap that is not a multiple of four is won by taking what it has above
/// the last multiple of four. Of a heap that is, no take is better than
/// another.
pub fn best_take(heap: u32) -> (take: Option<u32>)
    requires
        heap < 255,
    ensures
        heap == 0 ==> take is None,
        heap > 0 ==> take is Some && takes(heap).contains(take->0),
        heap % 4 != 0 ==> take == Some((heap % 4) as u32),
{
    let mut search = IterativeSearch::new(Level, IterativeOptions::new().with_table_byte_size(65536));
    search.set_max_depth(heap as usize);
    proof {
        assert(fingerprints_differ::<Nim>());
        assert(scores_inside(Level));
        if heap > 0 {
            lemma_takes(heap, 1);
            lemma_nim_settles(heap, (heap + 1) as u8);
            search.lemma_fresh_search_solves(heap);
            lemma_nim_value(0, heap, 255);
        }
    }
    let take = search.choose_move(&heap, None);
    proof {
        if heap > 0 {
            let m = take->0;
            assert(wins_most(Level, 0, heap, take));
            lemma_takes(heap, m);
            lemma_nim_value(0, (heap - m) as u32, 255);
        }
    }
    take
}

/// The same take, found by the parallel searcher: whatever its threads do,
/// a heap that is not a multiple of four is answered with what it has above
/// the last multiple of four.
pub fn best_take_in_parallel(heap: u32) -> (take: Option<u32>)
    requires
        heap < 255,
    ensures
        heap == 0 ==> take is None,
        heap > 0 ==> take is Some && takes(heap).contains(take->0),
        heap % 4 != 0 ==> take == Some((heap % 4) as u32),
{
    let mut search = ParallelYbw::new(Level, YbwOptions::new().with_table_byte_size(65536));
    search.set_max_depth(heap as usize);
    proof {
        assert(premises(Level));
        if heap > 0 {
            lemma_takes(heap, 1);
            lemma_nim_settles(heap, (heap + 1) as u8);
            lemma_nim_value(0, heap, (heap + 1) as u8);
        }
    }
    let take = search.choose_move(&heap, None);
    proof {
        if heap > 0 {
            let m = take->0;
            assert(attains(Level, 0, heap, take, (heap + 1) as u8));
            lemma_takes(heap, m);
            lemma_nim_value(0, (heap - m) as u32, heap as u8);
            assert(reply_value(Level, 0, heap, m, (heap + 1) as u8) == -full_negamax(
                Level,
                0,
                Nim::play(heap, m),
                heap as u8,
            ));
        }
    }
    take
}

} // verus!
