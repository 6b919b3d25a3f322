//! Why pruning is safe: the scores that the searches return, held against
//! the scores of the same searches without windows and without a table.

use vstd::prelude::*;
use crate::interface::{Evaluation, Evaluator, Game, BEST_EVAL, WORST_EVAL};
use crate::strategies::table::{answers, bound_of, probe_of, Entry, EntryFlag, TableView};
use crate::strategies::tree::{
    child_value, higher, negamax, negamax_from, ordered, position_of, quiescence, quiescence_from,
    Scan, Settings, Tally,
};
use crate::strategies::util::in_range;

verus! {

/// Tells whether `eval` scores every position strictly between the
/// sentinels, as its `evaluate` promises of the positions it is given.
pub open spec fn scores_inside<E: Evaluator>(eval: E) -> bool {
    forall|p: <E::G as Game>::S| WORST_EVAL < #[trigger] eval.score(p) < BEST_EVAL
}

/// Tells whether `v` says of the full score `t` what a search in the window
/// from `alpha` to `beta` may say: at or below `alpha` it is an upper
/// bound, at or above `beta` a lower bound, and in between it is `t`.
pub open spec fn bounds(v: int, t: int, alpha: int, beta: int) -> bool {
    &&& v <= alpha ==> t <= v
    &&& v >= beta ==> t >= v
    &&& alpha < v < beta ==> t == v
}

/// The score of `s` by the search of all its forcing moves, `depth` plies
/// deep, with no window.
pub open spec fn full_quiescence<E: Evaluator>(eval: E, s: <E::G as Game>::S, depth: u8) -> int
    decreases depth, 1nat, 0nat,
{
    match E::G::winner(s) {
        Some(w) => w.value(),
        None => if depth == 0 || E::G::noisy_moves(s).len() == 0 {
            eval.score(s)
        } else {
            best_noisy_reply(eval, s, E::G::noisy_moves(s), 0, depth)
        },
    }
}

/// The best that the player to move in `s` gets from the forcing moves
/// `moves[i..]`, and the worst score if there is none.
pub open spec fn best_noisy_reply<E: Evaluator>(
    eval: E,
    s: <E::G as Game>::S,
    moves: Seq<<E::G as Game>::M>,
    i: nat,
    depth: u8,
) -> int
    decreases depth, 0nat, moves.len() - i,
{
    if i >= moves.len() || depth == 0 {
        WORST_EVAL as int
    } else {
        higher(
            -full_quiescence(eval, E::G::play(s, moves[i as int]), (depth - 1) as u8),
            best_noisy_reply(eval, s, moves, i + 1, depth),
        )
    }
}

/// The full search of forcing moves stays in the range of scores.
pub proof fn lemma_full_quiescence_in_range<E: Evaluator>(
    eval: E,
    s: <E::G as Game>::S,
    depth: u8,
)
    requires
        scores_inside(eval),
    ensures
        in_range(full_quiescence(eval, s, depth)),
    decreases depth, 1nat, 0nat,
{
    if E::G::winner(s) is None && depth != 0 && E::G::noisy_moves(s).len() != 0 {
        lemma_best_noisy_reply_in_range(eval, s, E::G::noisy_moves(s), 0, depth);
    }
}

/// The best of the forcing moves stays in the range of scores.
pub proof fn lemma_best_noisy_reply_in_range<E: Evaluator>(
    eval: E,
    s: <E::G as Game>::S,
    moves: Seq<<E::G as Game>::M>,
    i: nat,
    depth: u8,
)
    requires
        scores_inside(eval),
    ensures
        in_range(best_noisy_reply(eval, s, moves, i, depth)),
    decreases depth, 0nat, moves.len() - i,
{
    if i < moves.len() && depth != 0 {
        lemma_full_quiescence_in_range(eval, E::G::play(s, moves[i as int]), (depth - 1) as u8);
        lemma_best_noisy_reply_in_range(eval, s, moves, i + 1, depth);
    }
}

/// The quiescence search in a window that is not empty says nothing wrong
/// of the full search: its score is in range, an upper bound of the full
/// score where it is at or below the window, a lower bound where it is at or
/// above, and the full score itself inside the window.
pub proof fn lemma_quiescence_bounds<E: Evaluator>(
    eval: E,
    s: <E::G as Game>::S,
    depth: u8,
    alpha: int,
    beta: int,
)
    requires
        scores_inside(eval),
        WORST_EVAL <= alpha < beta <= BEST_EVAL,
    ensures
        in_range(quiescence(eval, s, depth, alpha, beta)),
        bounds(quiescence(eval, s, depth, alpha, beta), full_quiescence(eval, s, depth), alpha, beta),
    decreases depth, 1nat, 0nat,
{
    if E::G::winner(s) is None && depth != 0 && E::G::noisy_moves(s).len() != 0 {
        lemma_quiescence_scan_bounds(
            eval,
            s,
            E::G::noisy_moves(s),
            0,
            depth,
            alpha,
            alpha,
            beta,
            WORST_EVAL as int,
            WORST_EVAL as int,
        );
    }
}

/// The same of a scan that has come to `moves[i]`: `seen` is the best full
/// score of the moves before, `best` what the scan has for them.
pub proof fn lemma_quiescence_scan_bounds<E: Evaluator>(
    eval: E,
    s: <E::G as Game>::S,
    moves: Seq<<E::G as Game>::M>,
    i: nat,
    depth: u8,
    alpha_orig: int,
    alpha: int,
    beta: int,
    best: int,
    seen: int,
)
    requires
        scores_inside(eval),
        depth > 0,
        alpha < beta,
        WORST_EVAL <= alpha_orig < beta <= BEST_EVAL,
        in_range(best),
        in_range(seen),
        alpha == higher(alpha_orig, best),
        seen <= best,
        best > alpha_orig ==> seen == best,
    ensures
        in_range(quiescence_from(eval, s, moves, i, depth, alpha, beta, best)),
        bounds(
            quiescence_from(eval, s, moves, i, depth, alpha, beta, best),
            higher(seen, best_noisy_reply(eval, s, moves, i, depth)),
            alpha_orig,
            beta,
        ),
    decreases depth, 0nat, moves.len() - i,
{
    if i < moves.len() {
        let child = E::G::play(s, moves[i as int]);
        lemma_quiescence_bounds(eval, child, (depth - 1) as u8, -beta, -alpha);
        lemma_full_quiescence_in_range(eval, child, (depth - 1) as u8);
        lemma_best_noisy_reply_in_range(eval, s, moves, i + 1, depth);
        let value = -quiescence(eval, child, (depth - 1) as u8, -beta, -alpha);
        let truth = -full_quiescence(eval, child, (depth - 1) as u8);
        if higher(alpha, value) < beta {
            lemma_quiescence_scan_bounds(
                eval,
                s,
                moves,
                i + 1,
                depth,
                alpha_orig,
                higher(alpha, value),
                beta,
                higher(best, value),
                higher(seen, truth),
            );
        }
    }
}

/// The score of `s` by the search of all its moves, `depth` plies deep,
/// with no window and no table; at depth 0 the score of the full search of
/// forcing moves, `quiescence_depth` plies deep.
pub open spec fn full_negamax<E: Evaluator>(
    eval: E,
    quiescence_depth: u8,
    s: <E::G as Game>::S,
    depth: u8,
) -> int
    decreases depth, 1nat, 0nat,
{
    if depth == 0 {
        full_quiescence(eval, s, quiescence_depth)
    } else {
        match E::G::winner(s) {
            Some(w) => w.value(),
            None => best_reply(eval, quiescence_depth, s, E::G::moves(s), 0, depth),
        }
    }
}

/// What the move `m` is worth to the player who makes it in `s`, by the
/// full search.
pub open spec fn reply_value<E: Evaluator>(
    eval: E,
    quiescence_depth: u8,
    s: <E::G as Game>::S,
    m: <E::G as Game>::M,
    depth: u8,
) -> int
    decreases depth, 0nat, 0nat,
{
    if depth == 0 {
        WORST_EVAL as int
    } else {
        -full_negamax(eval, quiescence_depth, E::G::play(s, m), (depth - 1) as u8)
    }
}

/// The best that the player to move in `s` gets from `moves[i..]`, and the
/// worst score if there is no move.
pub open spec fn best_reply<E: Evaluator>(
    eval: E,
    quiescence_depth: u8,
    s: <E::G as Game>::S,
    moves: Seq<<E::G as Game>::M>,
    i: nat,
    depth: u8,
) -> int
    decreases depth, 0nat, moves.len() - i + 1,
{
    if i >= moves.len() || depth == 0 {
        WORST_EVAL as int
    } else {
        higher(
            reply_value(eval, quiescence_depth, s, moves[i as int], depth),
            best_reply(eval, quiescence_depth, s, moves, i + 1, depth),
        )
    }
}

/// Tells whether a search of `s` at `depth` reaches the end of the game on
/// every line: the game is over in `s`, or every move leads to a position
/// of which the same holds one ply less deep.
pub open spec fn settled<G: Game>(s: G::S, depth: u8) -> bool
    decreases depth,
{
    G::winner(s) is Some || (depth > 0 && forall|i: int|
        0 <= i < G::moves(s).len() ==> settled::<G>(
            G::play(s, #[trigger] G::moves(s)[i]),
            (depth - 1) as u8,
        ))
}

/// A search that reaches the end of the game on every line does so at
/// every greater depth.
pub proof fn lemma_settled_deeper<G: Game>(s: G::S, depth: u8, deeper: u8)
    requires
        settled::<G>(s, depth),
        depth <= deeper,
    ensures
        settled::<G>(s, deeper),
    decreases depth,
{
    if G::winner(s) is None {
        assert forall|i: int| 0 <= i < G::moves(s).len() implies settled::<G>(
            G::play(s, #[trigger] G::moves(s)[i]),
            (deeper - 1) as u8,
        ) by {
            lemma_settled_deeper::<G>(
                G::play(s, G::moves(s)[i]),
                (depth - 1) as u8,
                (deeper - 1) as u8,
            );
        }
    }
}

/// The full search stays in the range of scores.
pub proof fn lemma_full_negamax_in_range<E: Evaluator>(
    eval: E,
    quiescence_depth: u8,
    s: <E::G as Game>::S,
    depth: u8,
)
    requires
        scores_inside(eval),
    ensures
        in_range(full_negamax(eval, quiescence_depth, s, depth)),
    decreases depth, 1nat, 0nat,
{
    if depth == 0 {
        lemma_full_quiescence_in_range(eval, s, quiescence_depth);
    } else if E::G::winner(s) is None {
        lemma_best_reply_in_range(eval, quiescence_depth, s, E::G::moves(s), 0, depth);
    }
}

/// The best of the moves stays in the range of scores.
pub proof fn lemma_best_reply_in_range<E: Evaluator>(
    eval: E,
    quiescence_depth: u8,
    s: <E::G as Game>::S,
    moves: Seq<<E::G as Game>::M>,
    i: nat,
    depth: u8,
)
    requires
        scores_inside(eval),
    ensures
        in_range(best_reply(eval, quiescence_depth, s, moves, i, depth)),
        i < moves.len() && depth > 0 ==> in_range(
            reply_value(eval, quiescence_depth, s, moves[i as int], depth),
        ),
    decreases depth, 0nat, moves.len() - i,
{
    if i < moves.len() && depth != 0 {
        lemma_full_negamax_in_range(
            eval,
            quiescence_depth,
            E::G::play(s, moves[i as int]),
            (depth - 1) as u8,
        );
        lemma_best_reply_in_range(eval, quiescence_depth, s, moves, i + 1, depth);
        assert(reply_value(eval, quiescence_depth, s, moves[i as int], depth) == -full_negamax(
            eval,
            quiescence_depth,
            E::G::play(s, moves[i as int]),
            (depth - 1) as u8,
        ));
    }
}

/// Where the search reaches the end of the game on every line, the full
/// score is the same at every greater depth: it is the value of the game.
pub proof fn lemma_settled_score<E: Evaluator>(
    eval: E,
    quiescence_depth: u8,
    s: <E::G as Game>::S,
    depth: u8,
    deeper: u8,
)
    requires
        settled::<E::G>(s, depth),
        depth <= deeper,
    ensures
        full_negamax(eval, quiescence_depth, s, deeper) == full_negamax(
            eval,
            quiescence_depth,
            s,
            depth,
        ),
    decreases depth, 1nat, 0nat,
{
    if E::G::winner(s) is None {
        lemma_settled_replies(eval, quiescence_depth, s, E::G::moves(s), 0, depth, deeper);
    }
}

/// The same of the best of the moves `moves[i..]`, where each of them
/// leads to a position that is searched to the end.
pub proof fn lemma_settled_replies<E: Evaluator>(
    eval: E,
    quiescence_depth: u8,
    s: <E::G as Game>::S,
    moves: Seq<<E::G as Game>::M>,
    i: nat,
    depth: u8,
    deeper: u8,
)
    requires
        0 < depth <= deeper,
        forall|j: int|
            i <= j < moves.len() ==> settled::<E::G>(
                E::G::play(s, #[trigger] moves[j]),
                (depth - 1) as u8,
            ),
    ensures
        best_reply(eval, quiescence_depth, s, moves, i, deeper) == best_reply(
            eval,
            quiescence_depth,
            s,
            moves,
            i,
            depth,
        ),
    decreases depth, 0nat, moves.len() - i,
{
    if i < moves.len() {
        let child = E::G::play(s, moves[i as int]);
        lemma_settled_score(eval, quiescence_depth, child, (depth - 1) as u8, (deeper - 1) as u8);
        lemma_settled_replies(eval, quiescence_depth, s, moves, i + 1, depth, deeper);
        assert(reply_value(eval, quiescence_depth, s, moves[i as int], depth) == -full_negamax(
            eval,
            quiescence_depth,
            child,
            (depth - 1) as u8,
        ));
        assert(reply_value(eval, quiescence_depth, s, moves[i as int], deeper) == -full_negamax(
            eval,
            quiescence_depth,
            child,
            (deeper - 1) as u8,
        ));
    }
}

/// The best of the moves is at least what each of them is worth.
pub proof fn lemma_best_reply_is_above<E: Evaluator>(
    eval: E,
    quiescence_depth: u8,
    s: <E::G as Game>::S,
    moves: Seq<<E::G as Game>::M>,
    i: nat,
    depth: u8,
    j: int,
)
    requires
        depth > 0,
        i <= j < moves.len(),
    ensures
        reply_value(eval, quiescence_depth, s, moves[j], depth) <= best_reply(
            eval,
            quiescence_depth,
            s,
            moves,
            i,
            depth,
        ),
    decreases moves.len() - i,
{
    if i < j {
        lemma_best_reply_is_above(eval, quiescence_depth, s, moves, i + 1, depth, j);
    }
}

/// The best of the moves is what one of them is worth, or the worst score.
pub proof fn lemma_best_reply_is_attained<E: Evaluator>(
    eval: E,
    quiescence_depth: u8,
    s: <E::G as Game>::S,
    moves: Seq<<E::G as Game>::M>,
    i: nat,
    depth: u8,
) -> (j: int)
    requires
        depth > 0,
    ensures
        best_reply(eval, quiescence_depth, s, moves, i, depth) >= WORST_EVAL,
        best_reply(eval, quiescence_depth, s, moves, i, depth) == WORST_EVAL || (i <= j
            < moves.len() && best_reply(eval, quiescence_depth, s, moves, i, depth) == reply_value(
            eval,
            quiescence_depth,
            s,
            moves[j],
            depth,
        )),
    decreases moves.len() - i,
{
    if i >= moves.len() {
        0
    } else {
        let rest = lemma_best_reply_is_attained(eval, quiescence_depth, s, moves, i + 1, depth);
        if reply_value(eval, quiescence_depth, s, moves[i as int], depth) >= best_reply(
            eval,
            quiescence_depth,
            s,
            moves,
            i + 1,
            depth,
        ) {
            i as int
        } else {
            rest
        }
    }
}

/// The best of the moves does not depend on their order, as far as the
/// search changes it: with the move that the table suggests in front.
pub proof fn lemma_order_keeps_best_reply<E: Evaluator>(
    eval: E,
    quiescence_depth: u8,
    s: <E::G as Game>::S,
    moves: Seq<<E::G as Game>::M>,
    good_move: Option<<E::G as Game>::M>,
    depth: u8,
)
    requires
        depth > 0,
    ensures
        ordered(moves, good_move).len() == moves.len(),
        forall|j: int|
            0 <= j < moves.len() ==> exists|k: int|
                0 <= k < moves.len() && #[trigger] ordered(moves, good_move)[j] == moves[k],
        best_reply(eval, quiescence_depth, s, ordered(moves, good_move), 0, depth) == best_reply(
            eval,
            quiescence_depth,
            s,
            moves,
            0,
            depth,
        ),
{
    let sorted = ordered(moves, good_move);
    assert forall|j: int| 0 <= j < moves.len() implies exists|k: int|
        0 <= k < moves.len() && #[trigger] sorted[j] == moves[k] by {
        match good_move {
            Some(good) => {
                let at = position_of(moves, good, 0) as int;
                if at < moves.len() {
                    if j == 0 {
                        assert(sorted[j] == moves[at]);
                    } else if j == at {
                        assert(sorted[j] == moves[0]);
                    } else {
                        assert(sorted[j] == moves[j]);
                    }
                } else {
                    assert(sorted[j] == moves[j]);
                }
            },
            None => {
                assert(sorted[j] == moves[j]);
            },
        }
    }
    if sorted != moves {
        let good = good_move->0;
        let at = position_of(moves, good, 0) as int;
        let a = best_reply(eval, quiescence_depth, s, moves, 0, depth);
        let b = best_reply(eval, quiescence_depth, s, sorted, 0, depth);
        let ja = lemma_best_reply_is_attained(eval, quiescence_depth, s, moves, 0, depth);
        let jb = lemma_best_reply_is_attained(eval, quiescence_depth, s, sorted, 0, depth);
        if a != WORST_EVAL {
            let k = if ja == 0 {
                at
            } else if ja == at {
                0
            } else {
                ja
            };
            assert(sorted[k] == moves[ja]);
            lemma_best_reply_is_above(eval, quiescence_depth, s, sorted, 0, depth, k);
        }
        if b != WORST_EVAL {
            let k = if jb == 0 {
                at
            } else if jb == at {
                0
            } else {
                jb
            };
            assert(moves[k] == sorted[jb]);
            lemma_best_reply_is_above(eval, quiescence_depth, s, moves, 0, depth, k);
        }
    }
}

/// The game is zero-sum: where a position has a single move, it is worth to
/// the player to move the opposite of what the position after that move is
/// worth to the other player, one ply less deep.
pub proof fn lemma_single_move_negates<E: Evaluator>(
    eval: E,
    quiescence_depth: u8,
    s: <E::G as Game>::S,
    m: <E::G as Game>::M,
    depth: u8,
)
    requires
        scores_inside(eval),
        E::G::winner(s) is None,
        E::G::moves(s) == seq![m],
        depth < 255,
    ensures
        full_negamax(eval, quiescence_depth, s, (depth + 1) as u8) == -full_negamax(
            eval,
            quiescence_depth,
            E::G::play(s, m),
            depth,
        ),
{
    let moves = E::G::moves(s);
    lemma_best_reply_in_range(eval, quiescence_depth, s, moves, 0, (depth + 1) as u8);
    assert(best_reply(eval, quiescence_depth, s, moves, 1, (depth + 1) as u8) == WORST_EVAL);
    assert(reply_value(eval, quiescence_depth, s, moves[0], (depth + 1) as u8) == -full_negamax(
        eval,
        quiescence_depth,
        E::G::play(s, m),
        depth,
    ));
}

/// Tells whether a stored score with its flag is true of the full score
/// `truth`.
pub open spec fn says(flag: EntryFlag, value: int, truth: int) -> bool {
    match flag {
        EntryFlag::Exact => value == truth,
        EntryFlag::Lowerbound => value <= truth,
        EntryFlag::Upperbound => truth <= value,
    }
}

/// Tells whether no two positions share a fingerprint.
pub open spec fn fingerprints_differ<G: Game>() -> bool {
    forall|a: G::S, b: G::S| #![trigger G::hash(a), G::hash(b)] G::hash(a) == G::hash(b) ==> a == b
}

/// What the searches are held against, and where.
///
/// Either the value of the game, wherever a search reaches the end of the
/// game on every line. Or the full search to the same depth, wherever a
/// search ends at the horizon: every position is so many plies into the
/// game, and plies and depth together make the horizon.
#[verifier::reject_recursive_types(S)]
pub struct Reach<S> {
    pub to_end: bool,
    pub plies: spec_fn(S) -> nat,
    pub horizon: nat,
}

/// Held against the value of the game.
pub open spec fn to_the_end<S>() -> Reach<S> {
    Reach { to_end: true, plies: |s: S| 0nat, horizon: 0 }
}

/// Held against the full search that ends at `horizon`.
pub open spec fn to_horizon<S>(plies: spec_fn(S) -> nat, horizon: nat) -> Reach<S> {
    Reach { to_end: false, plies, horizon }
}

/// Tells whether the search of `s` at `depth` is one of those that `reach`
/// speaks of.
pub open spec fn covers<G: Game>(reach: Reach<G::S>, s: G::S, depth: u8) -> bool {
    if reach.to_end {
        settled::<G>(s, depth)
    } else {
        depth + (reach.plies)(s) == reach.horizon
    }
}

/// Tells whether every move leads one ply further into the game.
pub open spec fn counts_plies<G: Game>(plies: spec_fn(G::S) -> nat) -> bool {
    forall|s: G::S, i: int|
        0 <= i < G::moves(s).len() ==> #[trigger] plies(G::play(s, G::moves(s)[i])) == plies(s) + 1
}

/// Tells whether `reach` makes sense of the game: where it goes by plies,
/// every move leads one ply further.
pub open spec fn sound<G: Game>(reach: Reach<G::S>) -> bool {
    reach.to_end || counts_plies::<G>(reach.plies)
}

/// Tells whether `entry` is true of `s`, if it is an entry for `s`: where
/// `reach` speaks of the search that stored it, its score, read by its
/// flag, is true of the full score of `s` at its depth; and it does not
/// look beyond the horizon.
pub open spec fn entry_holds<E: Evaluator>(
    eval: E,
    quiescence_depth: u8,
    reach: Reach<<E::G as Game>::S>,
    entry: Entry<<E::G as Game>::M>,
    s: <E::G as Game>::S,
) -> bool {
    E::G::hash(s) == entry.hash && E::G::winner(s) is None && entry.depth > 0 ==> {
        &&& covers::<E::G>(reach, s, entry.depth) ==> says(
            entry.flag,
            entry.value as int,
            full_negamax(eval, quiescence_depth, s, entry.depth),
        )
        &&& !reach.to_end ==> entry.depth + (reach.plies)(s) <= reach.horizon
    }
}

/// Tells whether every entry of `table` is true of every position.
pub open spec fn table_holds<E: Evaluator>(
    eval: E,
    quiescence_depth: u8,
    reach: Reach<<E::G as Game>::S>,
    table: TableView<<E::G as Game>::M>,
) -> bool {
    forall|i: int, s: <E::G as Game>::S|
        0 <= i < table.slots.len() ==> #[trigger] entry_holds(
            eval,
            quiescence_depth,
            reach,
            table.slots[i],
            s,
        )
}

/// Tells whether `reach` speaks of the search, one ply less deep than
/// `depth`, of every position that a move of `moves` leads to from `s`.
pub open spec fn replies_covered<G: Game>(
    reach: Reach<G::S>,
    s: G::S,
    moves: Seq<G::M>,
    depth: u8,
) -> bool {
    forall|j: int|
        0 <= j < moves.len() ==> covers::<G>(
            reach,
            G::play(s, #[trigger] moves[j]),
            (depth - 1) as u8,
        )
}

/// A table in which nothing was stored says nothing wrong.
pub proof fn lemma_empty_table_holds<E: Evaluator>(
    eval: E,
    quiescence_depth: u8,
    reach: Reach<<E::G as Game>::S>,
    table: TableView<<E::G as Game>::M>,
)
    requires
        table.is_empty(),
    ensures
        table_holds(eval, quiescence_depth, reach, table),
{
    assert forall|i: int, s: <E::G as Game>::S| 0 <= i < table.slots.len() implies #[trigger] entry_holds(
        eval,
        quiescence_depth,
        reach,
        table.slots[i],
        s,
    ) by {
        assert(table.slots[i].depth == 0);
    }
}

/// A new generation leaves what the table says as true as it was.
pub proof fn lemma_advance_generation_holds<E: Evaluator>(
    eval: E,
    quiescence_depth: u8,
    reach: Reach<<E::G as Game>::S>,
    table: TableView<<E::G as Game>::M>,
)
    requires
        table.wf(),
        table_holds(eval, quiescence_depth, reach, table),
    ensures
        table.advance_generation().wf(),
        table_holds(eval, quiescence_depth, reach, table.advance_generation()),
{
    let next = table.advance_generation();
    assert forall|i: int, s: <E::G as Game>::S| 0 <= i < next.slots.len() implies #[trigger] entry_holds(
        eval,
        quiescence_depth,
        reach,
        next.slots[i],
        s,
    ) by {
        assert(entry_holds(eval, quiescence_depth, reach, table.slots[i], s));
    }
}

/// A table that is true up to a horizon is true up to every farther one:
/// of searches that end there it says nothing yet.
pub proof fn lemma_farther_horizon_holds<E: Evaluator>(
    eval: E,
    quiescence_depth: u8,
    plies: spec_fn(<E::G as Game>::S) -> nat,
    horizon: nat,
    farther: nat,
    table: TableView<<E::G as Game>::M>,
)
    requires
        table_holds(eval, quiescence_depth, to_horizon(plies, horizon), table),
        horizon < farther,
    ensures
        table_holds(eval, quiescence_depth, to_horizon(plies, farther), table),
{
    assert forall|i: int, s: <E::G as Game>::S| 0 <= i < table.slots.len() implies #[trigger] entry_holds(
        eval,
        quiescence_depth,
        to_horizon(plies, farther),
        table.slots[i],
        s,
    ) by {
        assert(entry_holds(eval, quiescence_depth, to_horizon(plies, horizon), table.slots[i], s));
    }
}

/// A store of an entry that is true of every position leaves the table
/// true, whichever slot the replacement strategy gives it.
pub proof fn lemma_store_holds<E: Evaluator>(
    eval: E,
    quiescence_depth: u8,
    reach: Reach<<E::G as Game>::S>,
    table: TableView<<E::G as Game>::M>,
    hash: u64,
    value: Evaluation,
    depth: u8,
    flag: EntryFlag,
    best_move: <E::G as Game>::M,
)
    requires
        table.wf(),
        in_range(value as int),
        table_holds(eval, quiescence_depth, reach, table),
        forall|s: <E::G as Game>::S| #[trigger]
            entry_holds(
                eval,
                quiescence_depth,
                reach,
                table.stamped(hash, value, depth, flag, best_move),
                s,
            ),
    ensures
        table.store(hash, value, depth, flag, best_move).wf(),
        table_holds(eval, quiescence_depth, reach, table.store(hash, value, depth, flag, best_move)),
{
    table.lemma_store_wf(hash, value, depth, flag, best_move);
    table.lemma_index_in_bounds(hash);
    let after = table.store(hash, value, depth, flag, best_move);
    assert forall|i: int, s: <E::G as Game>::S| 0 <= i < after.slots.len() implies #[trigger] entry_holds(
        eval,
        quiescence_depth,
        reach,
        after.slots[i],
        s,
    ) by {
        if after.slots[i] == table.slots[i] {
            assert(entry_holds(eval, quiescence_depth, reach, table.slots[i], s));
        } else {
            assert(after.slots[i] == table.stamped(hash, value, depth, flag, best_move));
        }
    }
}

/// What a probe of a true table tells a search of `s` is true: a score that
/// ends the search says nothing wrong of the full score, and a tightened
/// window still holds the full score where the window before held it.
pub proof fn lemma_probe_holds<E: Evaluator>(
    eval: E,
    quiescence_depth: u8,
    reach: Reach<<E::G as Game>::S>,
    table: TableView<<E::G as Game>::M>,
    s: <E::G as Game>::S,
    depth: u8,
    alpha: Evaluation,
    beta: Evaluation,
)
    requires
        table.wf(),
        table_holds(eval, quiescence_depth, reach, table),
        E::G::winner(s) is None,
        depth > 0,
        WORST_EVAL <= alpha < beta <= BEST_EVAL,
    ensures
        ({
            let probe = table.check(E::G::hash(s), depth, None, alpha, beta);
            let truth = full_negamax(eval, quiescence_depth, s, depth);
            &&& alpha <= probe.alpha <= BEST_EVAL
            &&& WORST_EVAL <= probe.beta <= beta
            &&& probe.cutoff is None ==> probe.alpha < probe.beta
            &&& probe.cutoff matches Some(v) ==> in_range(v as int)
            &&& covers::<E::G>(reach, s, depth) ==> {
                &&& probe.cutoff matches Some(v) ==> bounds(v as int, truth, alpha as int, beta as int)
                &&& probe.alpha > alpha ==> probe.alpha <= truth
                &&& probe.beta < beta ==> truth <= probe.beta
            }
        }),
{
    let hash = E::G::hash(s);
    table.lemma_index_in_bounds(hash);
    table.lemma_lookup_matches(hash);
    match table.lookup(hash) {
        Some(entry) => {
            let i = if table.slots[table.index(hash)] == entry {
                table.index(hash)
            } else {
                table.index(hash) + 1
            };
            assert(table.slots[i] == entry);
            assert(entry_holds(eval, quiescence_depth, reach, table.slots[i], s));
            if entry.depth >= depth && covers::<E::G>(reach, s, depth) && reach.to_end {
                lemma_settled_deeper::<E::G>(s, depth, entry.depth);
                lemma_settled_score(eval, quiescence_depth, s, depth, entry.depth);
            }
        },
        None => {},
    }
}

/// The search never says anything wrong.
///
/// Given an evaluator that scores inside the sentinels, fingerprints that
/// tell all positions apart, a table that is true, and a window that is not
/// empty, the search leaves a table that is true and returns a score in
/// range. Where `reach` speaks of the search, that score is an upper bound
/// of the full score at or below the window, a lower bound at or above it,
/// and the full score itself inside it: whatever the table held, whatever
/// the replacement strategy, and with or without null-window probes.
///
/// Held against the value of the game, this is so of every search, and
/// speaks of those that reach the end of the game on every line. Held
/// against the full search to the same depth, it is so of the searches that
/// end at the horizon.
pub proof fn lemma_negamax_holds<E: Evaluator>(
    eval: E,
    settings: Settings,
    reach: Reach<<E::G as Game>::S>,
    table: TableView<<E::G as Game>::M>,
    tally: Tally,
    s: <E::G as Game>::S,
    depth: u8,
    alpha: int,
    beta: int,
)
    requires
        scores_inside(eval),
        fingerprints_differ::<E::G>(),
        sound::<E::G>(reach),
        reach.to_end || covers::<E::G>(reach, s, depth),
        table.wf(),
        table_holds(eval, settings.max_quiescence_depth, reach, table),
        WORST_EVAL <= alpha < beta <= BEST_EVAL,
    ensures
        ({
            let found = negamax(eval, settings, table, tally, s, depth, alpha, beta);
            &&& found.table.wf()
            &&& table_holds(eval, settings.max_quiescence_depth, reach, found.table)
            &&& in_range(found.value)
            &&& covers::<E::G>(reach, s, depth) ==> bounds(
                found.value,
                full_negamax(eval, settings.max_quiescence_depth, s, depth),
                alpha,
                beta,
            )
        }),
    decreases depth, 1nat, 0nat,
{
    let q = settings.max_quiescence_depth;
    if depth == 0 {
        lemma_quiescence_bounds(eval, s, q, alpha, beta);
    } else if E::G::winner(s) is None {
        let hash = E::G::hash(s);
        lemma_probe_holds(eval, q, reach, table, s, depth, alpha as Evaluation, beta as Evaluation);
        let probe = table.check(hash, depth, None, alpha as Evaluation, beta as Evaluation);
        let moves = E::G::moves(s);
        if probe.cutoff is None && moves.len() > 0 {
            let sorted = ordered(moves, probe.good_move);
            lemma_order_keeps_best_reply(eval, q, s, moves, probe.good_move, depth);
            let start = Scan {
                table,
                tally: tally.enter().generate(moves.len()),
                best: WORST_EVAL as int,
                best_move: sorted[0],
            };
            if covers::<E::G>(reach, s, depth) {
                assert forall|j: int| 0 <= j < sorted.len() implies covers::<E::G>(
                    reach,
                    E::G::play(s, #[trigger] sorted[j]),
                    (depth - 1) as u8,
                ) by {
                    let k = choose|k: int| 0 <= k < moves.len() && sorted[j] == moves[k];
                    if reach.to_end {
                        assert(settled::<E::G>(E::G::play(s, moves[k]), (depth - 1) as u8));
                    } else {
                        assert((reach.plies)(E::G::play(s, E::G::moves(s)[k])) == (reach.plies)(s)
                            + 1);
                    }
                }
            }
            lemma_scan_holds(
                eval,
                settings,
                reach,
                start,
                s,
                sorted,
                0,
                depth,
                probe.alpha as int,
                probe.alpha as int,
                probe.beta as int,
                false,
                WORST_EVAL as int,
            );
            let scan = negamax_from(
                eval,
                settings,
                start,
                s,
                sorted,
                0,
                depth,
                probe.alpha as int,
                probe.beta as int,
                false,
            );
            let best = scan.best as Evaluation;
            let flag = bound_of(alpha as Evaluation, probe.beta, best);
            let j = lemma_best_reply_is_attained(eval, q, s, sorted, 0, depth);
            assert forall|p: <E::G as Game>::S| #[trigger]
                entry_holds(
                    eval,
                    q,
                    reach,
                    scan.table.stamped(hash, best, depth, flag, scan.best_move),
                    p,
                ) by {
                if E::G::hash(p) == hash {
                    assert(p == s);
                }
            }
            lemma_store_holds(eval, q, reach, scan.table, hash, best, depth, flag, scan.best_move);
        }
    }
}

/// The same of the score of a child for its parent, probed with a null
/// window or not.
pub proof fn lemma_child_holds<E: Evaluator>(
    eval: E,
    settings: Settings,
    reach: Reach<<E::G as Game>::S>,
    table: TableView<<E::G as Game>::M>,
    tally: Tally,
    child: <E::G as Game>::S,
    depth: u8,
    alpha: int,
    beta: int,
    null_window: bool,
)
    requires
        scores_inside(eval),
        fingerprints_differ::<E::G>(),
        sound::<E::G>(reach),
        reach.to_end || covers::<E::G>(reach, child, depth),
        table.wf(),
        table_holds(eval, settings.max_quiescence_depth, reach, table),
        WORST_EVAL <= alpha < beta <= BEST_EVAL,
    ensures
        ({
            let found = child_value(eval, settings, table, tally, child, depth, alpha, beta, null_window);
            &&& found.table.wf()
            &&& table_holds(eval, settings.max_quiescence_depth, reach, found.table)
            &&& in_range(found.value)
            &&& covers::<E::G>(reach, child, depth) ==> bounds(
                found.value,
                -full_negamax(eval, settings.max_quiescence_depth, child, depth),
                alpha,
                beta,
            )
        }),
    decreases depth, 2nat, 0nat,
{
    if null_window {
        lemma_negamax_holds(eval, settings, reach, table, tally, child, depth, -alpha - 1, -alpha);
        let probe = negamax(eval, settings, table, tally, child, depth, -alpha - 1, -alpha);
        if alpha < -probe.value < beta {
            lemma_negamax_holds(
                eval,
                settings,
                reach,
                probe.table,
                probe.tally,
                child,
                depth,
                -beta,
                probe.value,
            );
        }
    } else {
        lemma_negamax_holds(eval, settings, reach, table, tally, child, depth, -beta, -alpha);
    }
}

/// The same of a scan that has come to `moves[i]`: `seen` is the best full
/// score of the moves before, `so_far.best` what the scan has for them. And
/// where the best score lies above the window's lower end, the move that
/// the scan names is worth at least that much.
pub proof fn lemma_scan_holds<E: Evaluator>(
    eval: E,
    settings: Settings,
    reach: Reach<<E::G as Game>::S>,
    so_far: Scan<<E::G as Game>::M>,
    s: <E::G as Game>::S,
    moves: Seq<<E::G as Game>::M>,
    i: nat,
    depth: u8,
    alpha_orig: int,
    alpha: int,
    beta: int,
    null_window: bool,
    seen: int,
)
    requires
        scores_inside(eval),
        fingerprints_differ::<E::G>(),
        sound::<E::G>(reach),
        reach.to_end || replies_covered::<E::G>(reach, s, moves, depth),
        so_far.table.wf(),
        table_holds(eval, settings.max_quiescence_depth, reach, so_far.table),
        depth > 0,
        WORST_EVAL <= alpha_orig,
        alpha < beta <= BEST_EVAL,
        alpha == higher(alpha_orig, so_far.best),
        in_range(so_far.best),
        in_range(seen),
        replies_covered::<E::G>(reach, s, moves, depth) ==> seen <= so_far.best && (so_far.best
            > alpha_orig ==> seen == so_far.best),
        moves.contains(so_far.best_move),
        replies_covered::<E::G>(reach, s, moves, depth) && so_far.best > alpha_orig ==> reply_value(
            eval,
            settings.max_quiescence_depth,
            s,
            so_far.best_move,
            depth,
        ) >= so_far.best,
    ensures
        ({
            let scan = negamax_from(eval, settings, so_far, s, moves, i, depth, alpha, beta, null_window);
            &&& scan.table.wf()
            &&& table_holds(eval, settings.max_quiescence_depth, reach, scan.table)
            &&& in_range(scan.best)
            &&& moves.contains(scan.best_move)
            &&& replies_covered::<E::G>(reach, s, moves, depth) ==> {
                &&& bounds(
                    scan.best,
                    higher(
                        seen,
                        best_reply(eval, settings.max_quiescence_depth, s, moves, i, depth),
                    ),
                    alpha_orig,
                    beta,
                )
                &&& scan.best > alpha_orig ==> reply_value(
                    eval,
                    settings.max_quiescence_depth,
                    s,
                    scan.best_move,
                    depth,
                ) >= scan.best
            }
        }),
    decreases depth, 0nat, moves.len() - i,
{
    let q = settings.max_quiescence_depth;
    if i < moves.len() {
        let m = moves[i as int];
        let next_position = E::G::play(s, m);
        if replies_covered::<E::G>(reach, s, moves, depth) {
            assert(covers::<E::G>(reach, E::G::play(s, moves[i as int]), (depth - 1) as u8));
        }
        lemma_child_holds(
            eval,
            settings,
            reach,
            so_far.table,
            so_far.tally,
            next_position,
            (depth - 1) as u8,
            alpha,
            beta,
            null_window,
        );
        lemma_best_reply_in_range(eval, q, s, moves, i, depth);
        lemma_best_reply_in_range(eval, q, s, moves, i + 1, depth);
        let child = child_value(
            eval,
            settings,
            so_far.table,
            so_far.tally,
            next_position,
            (depth - 1) as u8,
            alpha,
            beta,
            null_window,
        );
        let truth = reply_value(eval, q, s, m, depth);
        assert(truth == -full_negamax(eval, q, next_position, (depth - 1) as u8));
        let next = Scan {
            table: child.table,
            tally: child.tally,
            best: higher(so_far.best, child.value),
            best_move: if child.value > so_far.best {
                m
            } else {
                so_far.best_move
            },
        };
        if higher(alpha, child.value) < beta {
            lemma_scan_holds(
                eval,
                settings,
                reach,
                next,
                s,
                moves,
                i + 1,
                depth,
                alpha_orig,
                higher(alpha, child.value),
                beta,
                if child.value > alpha {
                    settings.null_window_search
                } else {
                    null_window
                },
                higher(seen, truth),
            );
        }
    }
}

/// Null-window probes change no score of a search in the full window:
/// where `reach` speaks of the search, it returns the full score with them
/// and without, whatever the two tables held that were true.
pub proof fn lemma_null_window_keeps_score<E: Evaluator>(
    eval: E,
    with: Settings,
    without: Settings,
    reach: Reach<<E::G as Game>::S>,
    table_with: TableView<<E::G as Game>::M>,
    table_without: TableView<<E::G as Game>::M>,
    tally_with: Tally,
    tally_without: Tally,
    s: <E::G as Game>::S,
    depth: u8,
)
    requires
        scores_inside(eval),
        fingerprints_differ::<E::G>(),
        sound::<E::G>(reach),
        covers::<E::G>(reach, s, depth),
        with.max_quiescence_depth == without.max_quiescence_depth,
        table_with.wf(),
        table_without.wf(),
        table_holds(eval, with.max_quiescence_depth, reach, table_with),
        table_holds(eval, with.max_quiescence_depth, reach, table_without),
    ensures
        negamax(
            eval,
            with,
            table_with,
            tally_with,
            s,
            depth,
            WORST_EVAL as int,
            BEST_EVAL as int,
        ).value == full_negamax(eval, with.max_quiescence_depth, s, depth),
        negamax(
            eval,
            without,
            table_without,
            tally_without,
            s,
            depth,
            WORST_EVAL as int,
            BEST_EVAL as int,
        ).value == full_negamax(eval, with.max_quiescence_depth, s, depth),
{
    let low = WORST_EVAL as int;
    let high = BEST_EVAL as int;
    lemma_negamax_holds(eval, with, reach, table_with, tally_with, s, depth, low, high);
    lemma_negamax_holds(eval, without, reach, table_without, tally_without, s, depth, low, high);
    lemma_full_negamax_in_range(eval, with.max_quiescence_depth, s, depth);
}

/// What a probe tells a search of `s` is true, if the entry that it read
/// is true of `s`: as `lemma_probe_holds` says of a probe of a true table.
pub proof fn lemma_probe_of_holds<E: Evaluator>(
    eval: E,
    quiescence_depth: u8,
    reach: Reach<<E::G as Game>::S>,
    found: Option<Entry<<E::G as Game>::M>>,
    s: <E::G as Game>::S,
    depth: u8,
    alpha: Evaluation,
    beta: Evaluation,
)
    requires
        answers(found, E::G::hash(s)),
        found matches Some(entry) ==> entry_holds(eval, quiescence_depth, reach, entry, s),
        E::G::winner(s) is None,
        depth > 0,
        WORST_EVAL <= alpha < beta <= BEST_EVAL,
    ensures
        ({
            let probe = probe_of(found, depth, None, alpha, beta);
            let truth = full_negamax(eval, quiescence_depth, s, depth);
            &&& alpha <= probe.alpha <= BEST_EVAL
            &&& WORST_EVAL <= probe.beta <= beta
            &&& probe.cutoff is None ==> probe.alpha < probe.beta
            &&& probe.cutoff matches Some(v) ==> in_range(v as int)
            &&& covers::<E::G>(reach, s, depth) ==> {
                &&& probe.cutoff matches Some(v) ==> bounds(v as int, truth, alpha as int, beta as int)
                &&& probe.alpha > alpha ==> probe.alpha <= truth
                &&& probe.beta < beta ==> truth <= probe.beta
            }
        }),
{
    match found {
        Some(entry) => {
            if entry.depth >= depth && covers::<E::G>(reach, s, depth) && reach.to_end {
                lemma_settled_deeper::<E::G>(s, depth, entry.depth);
                lemma_settled_score(eval, quiescence_depth, s, depth, entry.depth);
            }
        },
        None => {},
    }
}

/// The score that the scan of a position's moves has found, if it says
/// nothing wrong of the full score in the window that the probe left, says
/// nothing wrong of it in the window that the search began with; and the
/// entry that records it is true of every position.
pub proof fn lemma_recorded_score_holds<E: Evaluator>(
    eval: E,
    quiescence_depth: u8,
    reach: Reach<<E::G as Game>::S>,
    found: Option<Entry<<E::G as Game>::M>>,
    s: <E::G as Game>::S,
    depth: u8,
    alpha: Evaluation,
    beta: Evaluation,
    best: Evaluation,
    generation: u8,
    best_move: <E::G as Game>::M,
)
    requires
        fingerprints_differ::<E::G>(),
        reach.to_end || covers::<E::G>(reach, s, depth),
        answers(found, E::G::hash(s)),
        found matches Some(entry) ==> entry_holds(eval, quiescence_depth, reach, entry, s),
        E::G::winner(s) is None,
        depth > 0,
        WORST_EVAL <= alpha < beta <= BEST_EVAL,
        in_range(best as int),
        probe_of(found, depth, None, alpha, beta).cutoff is None,
        covers::<E::G>(reach, s, depth) ==> bounds(
            best as int,
            full_negamax(eval, quiescence_depth, s, depth),
            probe_of(found, depth, None, alpha, beta).alpha as int,
            probe_of(found, depth, None, alpha, beta).beta as int,
        ),
    ensures
        covers::<E::G>(reach, s, depth) ==> bounds(
            best as int,
            full_negamax(eval, quiescence_depth, s, depth),
            alpha as int,
            beta as int,
        ),
        forall|p: <E::G as Game>::S| #[trigger]
            entry_holds(
                eval,
                quiescence_depth,
                reach,
                Entry {
                    hash: E::G::hash(s),
                    value: best,
                    depth,
                    flag: bound_of(alpha, probe_of(found, depth, None, alpha, beta).beta, best),
                    generation,
                    best_move: Some(best_move),
                },
                p,
            ),
{
    lemma_probe_of_holds(eval, quiescence_depth, reach, found, s, depth, alpha, beta);
    let probe = probe_of(found, depth, None, alpha, beta);
    let entry = Entry {
        hash: E::G::hash(s),
        value: best,
        depth,
        flag: bound_of(alpha, probe.beta, best),
        generation,
        best_move: Some(best_move),
    };
    assert forall|p: <E::G as Game>::S| #[trigger]
        entry_holds(eval, quiescence_depth, reach, entry, p) by {
        if E::G::hash(p) == E::G::hash(s) {
            assert(p == s);
        }
    }
}

/// An entry that is true up to a horizon is true up to every farther one:
/// of searches that end there it says nothing.
pub proof fn lemma_entry_holds_farther<E: Evaluator>(
    eval: E,
    quiescence_depth: u8,
    plies: spec_fn(<E::G as Game>::S) -> nat,
    horizon: nat,
    farther: nat,
    entry: Entry<<E::G as Game>::M>,
    p: <E::G as Game>::S,
)
    requires
        entry_holds(eval, quiescence_depth, to_horizon(plies, horizon), entry, p),
        horizon < farther,
    ensures
        entry_holds(eval, quiescence_depth, to_horizon(plies, farther), entry, p),
{
}

/// The best of the moves is no more than what bounds each of them.
pub proof fn lemma_best_reply_is_below<E: Evaluator>(
    eval: E,
    quiescence_depth: u8,
    s: <E::G as Game>::S,
    moves: Seq<<E::G as Game>::M>,
    depth: u8,
    limit: int,
)
    requires
        depth > 0,
        limit >= WORST_EVAL,
        forall|j: int|
            0 <= j < moves.len() ==> reply_value(eval, quiescence_depth, s, #[trigger] moves[j], depth)
                <= limit,
    ensures
        best_reply(eval, quiescence_depth, s, moves, 0, depth) <= limit,
{
    let at = lemma_best_reply_is_attained(eval, quiescence_depth, s, moves, 0, depth);
}

} // verus!
