//! What a game and its evaluator must provide to be searched.

use vstd::prelude::*;

verus! {

/// A score from the point of view of the player about to move.
pub type Evaluation = i32;

/// The score of a position that the player to move has won outright.
pub const BEST_EVAL: Evaluation = 1_000_000_000;

/// The score of a position that the player to move has lost outright.
pub const WORST_EVAL: Evaluation = -1_000_000_000;

/// How a finished game ended, seen from the player who would move next.
#[derive(Clone, Copy, Debug, PartialEq, Eq, Structural)]
pub enum Winner {
    PlayerJustMoved,
    Draw,
    PlayerToMove,
}

impl Winner {
    /// The terminal score: one step inside the sentinel of the side that won.
    pub open spec fn value(self) -> int {
        match self {
            Winner::PlayerJustMoved => WORST_EVAL + 1,
            Winner::Draw => 0,
            Winner::PlayerToMove => BEST_EVAL - 1,
        }
    }

    /// Scores the outcome for the player to move.
    pub fn evaluate(&self) -> (v: Evaluation)
        ensures
            v == self.value(),
            WORST_EVAL < v < BEST_EVAL,
    {
        match self {
            Winner::PlayerJustMoved => WORST_EVAL + 1,
            Winner::Draw => 0,
            Winner::PlayerToMove => BEST_EVAL - 1,
        }
    }
}

/// The rules of a two-player game.
///
/// The `spec` functions are the mathematical game; each executable method
/// promises to compute the matching one. An implementation that is itself
/// verified overrides the `spec` functions with its rules; the defaults say
/// nothing about them, and an implementation in plain Rust writes the
/// executable methods only.
pub trait Game: Sized {
    /// A position, including whose turn it is.
    type S;

    /// A move.
    type M: Copy;

    /// The outcome of `s` if the game is over there.
    open spec fn winner(s: Self::S) -> Option<Winner> {
        arbitrary()
    }

    /// The legal moves in `s`, in the order in which they are generated.
    open spec fn moves(s: Self::S) -> Seq<Self::M> {
        arbitrary()
    }

    /// The forcing moves in `s`, in the order in which they are generated.
    open spec fn noisy_moves(s: Self::S) -> Seq<Self::M> {
        arbitrary()
    }

    /// The position reached from `s` by `m`.
    open spec fn play(s: Self::S, m: Self::M) -> Self::S {
        arbitrary()
    }

    /// The fingerprint of `s`.
    open spec fn hash(s: Self::S) -> u64 {
        arbitrary()
    }

    /// Appends every legal move of `s` to `moves`.
    fn generate_moves(s: &Self::S, moves: &mut Vec<Self::M>)
        ensures
            final(moves)@ == old(moves)@ + Self::moves(*s),
    ;

    /// Appends the forcing moves of `s` to `moves`; there may be none.
    fn generate_noisy_moves(s: &Self::S, moves: &mut Vec<Self::M>)
        ensures
            final(moves)@ == old(moves)@ + Self::noisy_moves(*s),
    ;

    /// Tells whether the game is over in `s`, and how it ended.
    fn get_winner(s: &Self::S) -> (w: Option<Winner>)
        ensures
            w == Self::winner(*s),
    ;

    /// Plays `m` on `s`, where it is one of the moves of `s`, forcing or
    /// not.
    fn apply(m: Self::M, s: &mut Self::S)
        requires
            Self::moves(*old(s)).contains(m) || Self::noisy_moves(*old(s)).contains(m),
        ensures
            *final(s) == Self::play(*old(s), m),
    ;

    /// Takes `m` back: from a position that `m` led to, returns to the one
    /// in which it was played as one of its moves.
    fn undo(m: Self::M, s: &mut Self::S)
        ensures
            forall|p: Self::S|
                (Self::moves(p).contains(m) || Self::noisy_moves(p).contains(m)) && #[trigger] Self::play(
                    p,
                    m,
                ) == *old(s) ==> *final(s) == p,
    ;

    /// Computes the fingerprint of `s`.
    fn zobrist_hash(s: &Self::S) -> (h: u64)
        ensures
            h == Self::hash(*s),
    ;

    /// Copies a position.
    fn clone_state(s: &Self::S) -> (c: Self::S)
        ensures
            c == *s,
    ;

    /// Tells whether two moves are the same move.
    fn same_move(a: &Self::M, b: &Self::M) -> (r: bool)
        ensures
            r == (*a == *b),
    ;
}

/// A static scoring of positions of one game.
pub trait Evaluator {
    type G: Game;

    /// The score of `s` for the player to move.
    open spec fn score(&self, s: <Self::G as Game>::S) -> int {
        arbitrary()
    }

    /// Scores `s` for the player to move, strictly between the sentinels.
    fn evaluate(&self, s: &<Self::G as Game>::S) -> (v: Evaluation)
        ensures
            v == self.score(*s),
            WORST_EVAL < v < BEST_EVAL,
    ;
}

} // verus!
