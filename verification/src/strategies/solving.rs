//! What a deepening search finds: the full score of each depth it
//! searches, and the value of the game where it reaches the end on every
//! line, each with a move that attains it.

use vstd::prelude::*;
use crate::interface::{Evaluation, Evaluator, Game, BEST_EVAL, WORST_EVAL};
use crate::strategies::pruning::{
    counts_plies, covers, fingerprints_differ, full_negamax, lemma_best_reply_in_range,
    lemma_best_reply_is_above, lemma_best_reply_is_attained, lemma_farther_horizon_holds,
    lemma_full_negamax_in_range, lemma_negamax_holds, lemma_order_keeps_best_reply,
    lemma_probe_holds, lemma_scan_holds, lemma_settled_deeper, lemma_settled_score,
    replies_covered, reply_value, scores_inside, settled, sound, table_holds, to_horizon,
    to_the_end, Reach,
};
use crate::strategies::table::{bound_of, EntryFlag, TableView};
use crate::strategies::tree::{
    aspiration_bounds, aspiration_search, child_value, higher, lemma_ordered_holds_the_same_moves,
    negamax, negamax_from, next_round, ordered, rounds, Round, Scan, Schedule, Settings, Tally,
};
use crate::strategies::util::in_range;

verus! {

/// Tells whether no entry of `table` was searched deeper than `depth`.
pub open spec fn shallower<M>(table: TableView<M>, depth: nat) -> bool {
    forall|i: int| 0 <= i < table.slots.len() ==> (#[trigger] table.slots[i]).depth <= depth
}

/// A store of a result no deeper than `limit` leaves no entry deeper than
/// `limit`.
pub proof fn lemma_store_keeps_shallower<M>(
    table: TableView<M>,
    hash: u64,
    value: Evaluation,
    depth: u8,
    flag: EntryFlag,
    best_move: M,
    limit: nat,
)
    requires
        table.framed(),
        shallower(table, limit),
        depth <= limit,
    ensures
        table.store(hash, value, depth, flag, best_move).framed(),
        shallower(table.store(hash, value, depth, flag, best_move), limit),
{
    table.lemma_index_in_bounds(hash);
}

/// A search no deeper than `limit` leaves no entry deeper than `limit`.
pub proof fn lemma_negamax_keeps_shallower<E: Evaluator>(
    eval: E,
    settings: Settings,
    table: TableView<<E::G as Game>::M>,
    tally: Tally,
    s: <E::G as Game>::S,
    depth: u8,
    alpha: int,
    beta: int,
    limit: nat,
)
    requires
        table.framed(),
        shallower(table, limit),
        depth <= limit,
    ensures
        negamax(eval, settings, table, tally, s, depth, alpha, beta).table.framed(),
        shallower(negamax(eval, settings, table, tally, s, depth, alpha, beta).table, limit),
    decreases depth, 1nat, 0nat,
{
    if depth != 0 && E::G::winner(s) is None {
        let hash = E::G::hash(s);
        let probe = table.check(hash, depth, None, alpha as Evaluation, beta as Evaluation);
        let moves = E::G::moves(s);
        if probe.cutoff is None && moves.len() > 0 {
            let sorted = ordered(moves, probe.good_move);
            let start = Scan {
                table,
                tally: tally.enter().generate(moves.len()),
                best: WORST_EVAL as int,
                best_move: sorted[0],
            };
            lemma_scan_keeps_shallower(
                eval,
                settings,
                start,
                s,
                sorted,
                0,
                depth,
                probe.alpha as int,
                probe.beta as int,
                false,
                limit,
            );
            let scan = negamax_from(
                eval,
                settings,
                start,
                s,
                sorted,
                0,
                depth,
                probe.alpha as int,
                probe.beta as int,
                false,
            );
            lemma_store_keeps_shallower(
                scan.table,
                hash,
                scan.best as Evaluation,
                depth,
                bound_of(alpha as Evaluation, probe.beta, scan.best as Evaluation),
                scan.best_move,
                limit,
            );
        }
    }
}

/// The same of the search of a child for its parent.
pub proof fn lemma_child_keeps_shallower<E: Evaluator>(
    eval: E,
    settings: Settings,
    table: TableView<<E::G as Game>::M>,
    tally: Tally,
    child: <E::G as Game>::S,
    depth: u8,
    alpha: int,
    beta: int,
    null_window: bool,
    limit: nat,
)
    requires
        table.framed(),
        shallower(table, limit),
        depth <= limit,
    ensures
        child_value(eval, settings, table, tally, child, depth, alpha, beta, null_window).table.framed(),
        shallower(
            child_value(eval, settings, table, tally, child, depth, alpha, beta, null_window).table,
            limit,
        ),
    decreases depth, 2nat, 0nat,
{
    if null_window {
        lemma_negamax_keeps_shallower(
            eval,
            settings,
            table,
            tally,
            child,
            depth,
            -alpha - 1,
            -alpha,
            limit,
        );
        let probe = negamax(eval, settings, table, tally, child, depth, -alpha - 1, -alpha);
        if alpha < -probe.value < beta {
            lemma_negamax_keeps_shallower(
                eval,
                settings,
                probe.table,
                probe.tally,
                child,
                depth,
                -beta,
                probe.value,
                limit,
            );
        }
    } else {
        lemma_negamax_keeps_shallower(eval, settings, table, tally, child, depth, -beta, -alpha, limit);
    }
}

/// The same of a scan that has come to `moves[i]`, which searches one ply
/// less deep.
pub proof fn lemma_scan_keeps_shallower<E: Evaluator>(
    eval: E,
    settings: Settings,
    so_far: Scan<<E::G as Game>::M>,
    s: <E::G as Game>::S,
    moves: Seq<<E::G as Game>::M>,
    i: nat,
    depth: u8,
    alpha: int,
    beta: int,
    null_window: bool,
    limit: nat,
)
    requires
        so_far.table.framed(),
        shallower(so_far.table, limit),
        depth <= limit + 1,
    ensures
        negamax_from(eval, settings, so_far, s, moves, i, depth, alpha, beta, null_window).table.framed(),
        shallower(
            negamax_from(eval, settings, so_far, s, moves, i, depth, alpha, beta, null_window).table,
            limit,
        ),
    decreases depth, 0nat, moves.len() - i,
{
    if i < moves.len() && depth != 0 {
        let m = moves[i as int];
        lemma_child_keeps_shallower(
            eval,
            settings,
            so_far.table,
            so_far.tally,
            E::G::play(s, m),
            (depth - 1) as u8,
            alpha,
            beta,
            null_window,
            limit,
        );
        let child = child_value(
            eval,
            settings,
            so_far.table,
            so_far.tally,
            E::G::play(s, m),
            (depth - 1) as u8,
            alpha,
            beta,
            null_window,
        );
        let next = Scan {
            table: child.table,
            tally: child.tally,
            best: higher(so_far.best, child.value),
            best_move: if child.value > so_far.best {
                m
            } else {
                so_far.best_move
            },
        };
        if higher(alpha, child.value) < beta {
            lemma_scan_keeps_shallower(
                eval,
                settings,
                next,
                s,
                moves,
                i + 1,
                depth,
                higher(alpha, child.value),
                beta,
                if child.value > alpha {
                    settings.null_window_search
                } else {
                    null_window
                },
                limit,
            );
        }
    }
}

/// Tells whether `best_move` is a move of `s` that attains the full score
/// at `depth`: it is worth that much to the player who makes it.
pub open spec fn attains<E: Evaluator>(
    eval: E,
    quiescence_depth: u8,
    s: <E::G as Game>::S,
    best_move: Option<<E::G as Game>::M>,
    depth: u8,
) -> bool {
    match best_move {
        Some(m) => E::G::moves(s).contains(m) && reply_value(eval, quiescence_depth, s, m, depth)
            == full_negamax(eval, quiescence_depth, s, depth),
        None => false,
    }
}

/// Tells whether `table` holds for `s` an entry with the full score at
/// `depth`.
pub open spec fn records_score<E: Evaluator>(
    eval: E,
    quiescence_depth: u8,
    table: TableView<<E::G as Game>::M>,
    s: <E::G as Game>::S,
    depth: u8,
) -> bool {
    match table.lookup(E::G::hash(s)) {
        Some(entry) => entry.value == full_negamax(eval, quiescence_depth, s, depth),
        None => false,
    }
}

/// Tells whether `table` holds for `s` an entry with the full score at
/// `depth` and a move that attains it.
pub open spec fn records_best<E: Evaluator>(
    eval: E,
    quiescence_depth: u8,
    table: TableView<<E::G as Game>::M>,
    s: <E::G as Game>::S,
    depth: u8,
) -> bool {
    match table.lookup(E::G::hash(s)) {
        Some(entry) => entry.value == full_negamax(eval, quiescence_depth, s, depth) && attains(
            eval,
            quiescence_depth,
            s,
            entry.best_move,
            depth,
        ),
        None => false,
    }
}

/// Where `reach` speaks of the search of a position that goes on, it speaks
/// of the searches of all the positions that its moves lead to, in whatever
/// order.
pub proof fn lemma_replies_covered<G: Game>(
    reach: Reach<G::S>,
    s: G::S,
    good_move: Option<G::M>,
    depth: u8,
)
    requires
        sound::<G>(reach),
        covers::<G>(reach, s, depth),
        G::winner(s) is None,
        depth > 0,
    ensures
        replies_covered::<G>(reach, s, ordered(G::moves(s), good_move), depth),
{
    let moves = G::moves(s);
    let sorted = ordered(moves, good_move);
    lemma_ordered_holds_the_same_moves(moves, good_move);
    assert forall|j: int| 0 <= j < sorted.len() implies covers::<G>(
        reach,
        G::play(s, #[trigger] sorted[j]),
        (depth - 1) as u8,
    ) by {
        let k = choose|k: int| 0 <= k < moves.len() && moves[k] == sorted[j];
        if reach.to_end {
            assert(settled::<G>(G::play(s, moves[k]), (depth - 1) as u8));
        } else {
            assert((reach.plies)(G::play(s, G::moves(s)[k])) == (reach.plies)(s) + 1);
        }
    }
}

/// Tells whether `table` holds an entry for `s`.
pub open spec fn remembers<G: Game>(table: TableView<G::M>, s: G::S) -> bool {
    table.lookup(G::hash(s)) is Some
}

/// A search in the full window, over a table that is true and whose entries
/// are no deeper, leaves an entry for the position. Where `reach` speaks of
/// the search, it returns the full score, and the entry has that score.
pub proof fn lemma_search_records_score<E: Evaluator>(
    eval: E,
    settings: Settings,
    reach: Reach<<E::G as Game>::S>,
    table: TableView<<E::G as Game>::M>,
    tally: Tally,
    s: <E::G as Game>::S,
    depth: u8,
)
    requires
        scores_inside(eval),
        fingerprints_differ::<E::G>(),
        sound::<E::G>(reach),
        reach.to_end || covers::<E::G>(reach, s, depth),
        table.wf(),
        table_holds(eval, settings.max_quiescence_depth, reach, table),
        depth > 0,
        shallower(table, depth as nat),
        E::G::winner(s) is None,
        E::G::moves(s).len() > 0,
    ensures
        ({
            let found = negamax(
                eval,
                settings,
                table,
                tally,
                s,
                depth,
                WORST_EVAL as int,
                BEST_EVAL as int,
            );
            &&& found.table.wf()
            &&& table_holds(eval, settings.max_quiescence_depth, reach, found.table)
            &&& shallower(found.table, depth as nat)
            &&& remembers::<E::G>(found.table, s)
            &&& covers::<E::G>(reach, s, depth) ==> {
                &&& found.value == full_negamax(eval, settings.max_quiescence_depth, s, depth)
                &&& records_score(eval, settings.max_quiescence_depth, found.table, s, depth)
            }
        }),
{
    let q = settings.max_quiescence_depth;
    let low = WORST_EVAL as int;
    let high = BEST_EVAL as int;
    let hash = E::G::hash(s);
    let moves = E::G::moves(s);
    lemma_negamax_holds(eval, settings, reach, table, tally, s, depth, low, high);
    lemma_negamax_keeps_shallower(eval, settings, table, tally, s, depth, low, high, depth as nat);
    lemma_full_negamax_in_range(eval, q, s, depth);
    table.lemma_index_in_bounds(hash);
    lemma_probe_holds(eval, q, reach, table, s, depth, WORST_EVAL, BEST_EVAL);
    let probe = table.check(hash, depth, None, WORST_EVAL, BEST_EVAL);
    if probe.cutoff is None {
        let sorted = ordered(moves, probe.good_move);
        lemma_order_keeps_best_reply(eval, q, s, moves, probe.good_move, depth);
        let start = Scan {
            table,
            tally: tally.enter().generate(moves.len()),
            best: low,
            best_move: sorted[0],
        };
        if covers::<E::G>(reach, s, depth) {
            lemma_replies_covered::<E::G>(reach, s, probe.good_move, depth);
        }
        lemma_scan_holds(
            eval,
            settings,
            reach,
            start,
            s,
            sorted,
            0,
            depth,
            probe.alpha as int,
            probe.alpha as int,
            probe.beta as int,
            false,
            low,
        );
        lemma_scan_keeps_shallower(
            eval,
            settings,
            start,
            s,
            sorted,
            0,
            depth,
            probe.alpha as int,
            probe.beta as int,
            false,
            depth as nat,
        );
        let scan = negamax_from(
            eval,
            settings,
            start,
            s,
            sorted,
            0,
            depth,
            probe.alpha as int,
            probe.beta as int,
            false,
        );
        // The entry takes the first slot that the fingerprint falls on.
        scan.table.lemma_index_in_bounds(hash);
        assert(scan.table.slots[scan.table.index(hash)].depth <= depth);
    }
}

/// A search in the full window, over a table that is true and whose entries
/// are all shallower, leaves an entry for the position. Where `reach` speaks
/// of the search, it returns the full score, and the entry has that score
/// and a move that attains it.
pub proof fn lemma_search_records_best<E: Evaluator>(
    eval: E,
    settings: Settings,
    reach: Reach<<E::G as Game>::S>,
    table: TableView<<E::G as Game>::M>,
    tally: Tally,
    s: <E::G as Game>::S,
    depth: u8,
)
    requires
        scores_inside(eval),
        fingerprints_differ::<E::G>(),
        sound::<E::G>(reach),
        reach.to_end || covers::<E::G>(reach, s, depth),
        table.wf(),
        table_holds(eval, settings.max_quiescence_depth, reach, table),
        depth > 0,
        shallower(table, (depth - 1) as nat),
        E::G::winner(s) is None,
        E::G::moves(s).len() > 0,
    ensures
        ({
            let found = negamax(
                eval,
                settings,
                table,
                tally,
                s,
                depth,
                WORST_EVAL as int,
                BEST_EVAL as int,
            );
            &&& found.table.wf()
            &&& table_holds(eval, settings.max_quiescence_depth, reach, found.table)
            &&& shallower(found.table, depth as nat)
            &&& remembers::<E::G>(found.table, s)
            &&& covers::<E::G>(reach, s, depth) ==> {
                &&& found.value == full_negamax(eval, settings.max_quiescence_depth, s, depth)
                &&& records_best(eval, settings.max_quiescence_depth, found.table, s, depth)
            }
        }),
{
    let q = settings.max_quiescence_depth;
    let low = WORST_EVAL as int;
    let high = BEST_EVAL as int;
    let hash = E::G::hash(s);
    let moves = E::G::moves(s);
    let truth = full_negamax(eval, q, s, depth);
    lemma_negamax_holds(eval, settings, reach, table, tally, s, depth, low, high);
    lemma_negamax_keeps_shallower(eval, settings, table, tally, s, depth, low, high, depth as nat);
    lemma_full_negamax_in_range(eval, q, s, depth);
    // Nothing in the table is deep enough to speak of the score.
    table.lemma_index_in_bounds(hash);
    let probe = table.check(hash, depth, None, WORST_EVAL, BEST_EVAL);
    assert(probe.cutoff is None && probe.alpha == WORST_EVAL && probe.beta == BEST_EVAL);
    let sorted = ordered(moves, probe.good_move);
    lemma_order_keeps_best_reply(eval, q, s, moves, probe.good_move, depth);
    let start = Scan {
        table,
        tally: tally.enter().generate(moves.len()),
        best: low,
        best_move: sorted[0],
    };
    if covers::<E::G>(reach, s, depth) {
        lemma_replies_covered::<E::G>(reach, s, probe.good_move, depth);
    }
    lemma_scan_holds(eval, settings, reach, start, s, sorted, 0, depth, low, low, high, false, low);
    lemma_scan_keeps_shallower(
        eval,
        settings,
        start,
        s,
        sorted,
        0,
        depth,
        low,
        high,
        false,
        (depth - 1) as nat,
    );
    let scan = negamax_from(eval, settings, start, s, sorted, 0, depth, low, high, false);
    if covers::<E::G>(reach, s, depth) {
        let attained = lemma_best_reply_is_attained(eval, q, s, sorted, 0, depth);
        assert(scan.best == truth);
        // The move that the scan names is one of the moves of `s`, and no
        // move is worth more than the position.
        let at = choose|j: int| 0 <= j < sorted.len() && sorted[j] == scan.best_move;
        let origin = choose|k: int| 0 <= k < moves.len() && sorted[at] == moves[k];
        lemma_best_reply_is_above(eval, q, s, moves, 0, depth, origin);
        lemma_best_reply_in_range(eval, q, s, moves, origin as nat, depth);
        assert(reply_value(eval, q, s, scan.best_move, depth) == truth);
        assert(moves[origin] == scan.best_move);
    }
    // The entry takes the first slot that the fingerprint falls on.
    scan.table.lemma_index_in_bounds(hash);
    assert(scan.table.slots[scan.table.index(hash)].depth <= depth - 1);
}

/// An aspiration search that hits needs no second search: where the full
/// score lies strictly inside the window around `target`, the aspiration
/// search, over a table that is true and whose entries are all shallower,
/// leaves for the position an exact entry of its depth with the full
/// score, and the search in the full window that follows returns that score
/// from the probe of the table, with one call counted and nothing else
/// changed.
pub proof fn lemma_aspiration_hit<E: Evaluator>(
    eval: E,
    settings: Settings,
    reach: Reach<<E::G as Game>::S>,
    table: TableView<<E::G as Game>::M>,
    tally: Tally,
    s: <E::G as Game>::S,
    depth: u8,
    target: int,
    window: int,
)
    requires
        scores_inside(eval),
        fingerprints_differ::<E::G>(),
        sound::<E::G>(reach),
        covers::<E::G>(reach, s, depth),
        table.wf(),
        table_holds(eval, settings.max_quiescence_depth, reach, table),
        depth >= 2,
        shallower(table, (depth - 1) as nat),
        E::G::winner(s) is None,
        E::G::moves(s).len() > 0,
        aspiration_bounds(target, window).0 < full_negamax(
            eval,
            settings.max_quiescence_depth,
            s,
            depth,
        ) < aspiration_bounds(target, window).1,
    ensures
        ({
            let truth = full_negamax(eval, settings.max_quiescence_depth, s, depth);
            let aimed = aspiration_search(eval, settings, table, tally, s, depth, target, window);
            let full = negamax(
                eval,
                settings,
                aimed.table,
                aimed.tally,
                s,
                depth,
                WORST_EVAL as int,
                BEST_EVAL as int,
            );
            &&& aimed.value == truth
            &&& aimed.table.lookup(E::G::hash(s)) matches Some(entry) && entry.value == truth
                && entry.flag == EntryFlag::Exact && entry.depth == depth
            &&& full.value == truth
            &&& full.table == aimed.table
            &&& full.tally == aimed.tally.enter()
        }),
{
    let q = settings.max_quiescence_depth;
    let (alpha, beta) = aspiration_bounds(target, window);
    let hash = E::G::hash(s);
    let moves = E::G::moves(s);
    lemma_negamax_holds(eval, settings, reach, table, tally, s, depth, alpha, beta);
    lemma_full_negamax_in_range(eval, q, s, depth);
    table.lemma_index_in_bounds(hash);
    let probe = table.check(hash, depth, None, alpha as Evaluation, beta as Evaluation);
    assert(probe.cutoff is None && probe.alpha == alpha && probe.beta == beta);
    let sorted = ordered(moves, probe.good_move);
    lemma_order_keeps_best_reply(eval, q, s, moves, probe.good_move, depth);
    lemma_replies_covered::<E::G>(reach, s, probe.good_move, depth);
    let start = Scan {
        table,
        tally: tally.enter().generate(moves.len()),
        best: WORST_EVAL as int,
        best_move: sorted[0],
    };
    lemma_scan_holds(eval, settings, reach, start, s, sorted, 0, depth, alpha, alpha, beta, false, WORST_EVAL as int);
    lemma_scan_keeps_shallower(
        eval,
        settings,
        start,
        s,
        sorted,
        0,
        depth,
        alpha,
        beta,
        false,
        (depth - 1) as nat,
    );
    let scan = negamax_from(eval, settings, start, s, sorted, 0, depth, alpha, beta, false);
    let attained = lemma_best_reply_is_attained(eval, q, s, sorted, 0, depth);
    assert(scan.best == full_negamax(eval, q, s, depth));
    scan.table.lemma_index_in_bounds(hash);
    assert(scan.table.slots[scan.table.index(hash)].depth <= depth - 1);
}

/// Tells whether an aspiration window, if there is one, has a width.
pub open spec fn widens(window: Option<Evaluation>) -> bool {
    window matches Some(w) ==> w > 0
}

/// One iteration of a deepening search leaves the search able to go on.
/// Where `reach` speaks of the iteration, it ends with the full score at
/// its depth, and without aspiration window with a move that attains it.
pub proof fn lemma_round_answers<E: Evaluator>(
    eval: E,
    settings: Settings,
    schedule: Schedule,
    reach: Reach<<E::G as Game>::S>,
    s: <E::G as Game>::S,
    round: Round<<E::G as Game>::M>,
)
    requires
        scores_inside(eval),
        fingerprints_differ::<E::G>(),
        sound::<E::G>(reach),
        reach.to_end || covers::<E::G>(reach, s, (round.depth + 1) as u8),
        widens(schedule.aspiration_window),
        schedule.step >= 1,
        round.table.wf(),
        table_holds(eval, settings.max_quiescence_depth, reach, round.table),
        shallower(round.table, round.depth),
        in_range(round.prev_value as int),
        !round.finished(schedule),
        round.actual_depth <= round.depth,
        E::G::winner(s) is None,
        E::G::moves(s).len() > 0,
    ensures
        ({
            let next = next_round(eval, settings, schedule, s, round);
            let depth = (round.depth + 1) as u8;
            &&& next.open
            &&& next.depth == round.depth + schedule.step
            &&& next.actual_depth == round.depth
            &&& next.table.wf()
            &&& table_holds(eval, settings.max_quiescence_depth, reach, next.table)
            &&& shallower(next.table, next.depth)
            &&& in_range(next.prev_value as int)
            &&& covers::<E::G>(reach, s, depth) ==> {
                &&& next.prev_value == full_negamax(eval, settings.max_quiescence_depth, s, depth)
                &&& schedule.aspiration_window is None ==> attains(
                    eval,
                    settings.max_quiescence_depth,
                    s,
                    next.best_move,
                    depth,
                )
            }
        }),
{
    let q = settings.max_quiescence_depth;
    let depth = (round.depth + 1) as u8;
    lemma_full_negamax_in_range(eval, q, s, depth);
    match schedule.aspiration_window {
        Some(window) => {
            let (alpha, beta) = aspiration_bounds(round.prev_value as int, window as int);
            if depth >= 2 {
                lemma_negamax_holds(
                    eval,
                    settings,
                    reach,
                    round.table,
                    round.tally,
                    s,
                    depth,
                    alpha,
                    beta,
                );
                lemma_negamax_keeps_shallower(
                    eval,
                    settings,
                    round.table,
                    round.tally,
                    s,
                    depth,
                    alpha,
                    beta,
                    depth as nat,
                );
            }
            let aimed = aspiration_search(
                eval,
                settings,
                round.table,
                round.tally,
                s,
                depth,
                round.prev_value as int,
                window as int,
            );
            lemma_search_records_score(eval, settings, reach, aimed.table, aimed.tally, s, depth);
        },
        None => {
            lemma_search_records_best(eval, settings, reach, round.table, round.tally, s, depth);
        },
    }
    next_round(eval, settings, schedule, s, round).table.lemma_lookup_matches(E::G::hash(s));
}

/// A deepening search finds the full score of the depth it searches.
///
/// In a game whose every move leads one ply further, started with a table
/// that is true up to the horizon before its first iteration and as shallow
/// as that iteration, in a position with a move, it has after every number
/// of iterations but none the full score at the depth that it searched
/// last, and without aspiration window a move that attains it.
pub proof fn lemma_deepening_answers<E: Evaluator>(
    eval: E,
    settings: Settings,
    schedule: Schedule,
    plies: spec_fn(<E::G as Game>::S) -> nat,
    s: <E::G as Game>::S,
    start: Round<<E::G as Game>::M>,
    n: nat,
)
    requires
        scores_inside(eval),
        fingerprints_differ::<E::G>(),
        counts_plies::<E::G>(plies),
        widens(schedule.aspiration_window),
        schedule.step >= 1,
        start.table.wf(),
        table_holds(
            eval,
            settings.max_quiescence_depth,
            to_horizon(plies, start.depth + plies(s)),
            start.table,
        ),
        shallower(start.table, start.depth),
        in_range(start.prev_value as int),
        start.open,
        !start.finished(schedule),
        start.actual_depth <= start.depth,
        E::G::winner(s) is None,
        E::G::moves(s).len() > 0,
        n >= 1,
    ensures
        ({
            let end = rounds(eval, settings, schedule, s, start, n);
            let depth = (end.actual_depth + 1) as u8;
            &&& end.open
            &&& start.depth <= end.actual_depth <= schedule.max_depth
            &&& end.actual_depth < 255
            &&& end.depth == end.actual_depth + schedule.step
            &&& (end.depth - start.depth) % (schedule.step as int) == 0
            &&& end.finished(schedule) || end.depth >= start.depth + n
            &&& end.table.wf()
            &&& table_holds(
                eval,
                settings.max_quiescence_depth,
                to_horizon(plies, end.actual_depth + 1 + plies(s)),
                end.table,
            )
            &&& shallower(end.table, end.depth)
            &&& in_range(end.prev_value as int)
            &&& end.prev_value == full_negamax(eval, settings.max_quiescence_depth, s, depth)
            &&& schedule.aspiration_window is None ==> attains(
                eval,
                settings.max_quiescence_depth,
                s,
                end.best_move,
                depth,
            )
        }),
    decreases n,
{
    let q = settings.max_quiescence_depth;
    if n == 1 {
        assert(rounds(eval, settings, schedule, s, start, 0) == start);
        vstd::arithmetic::div_mod::lemma_mod_add_multiples_vanish(0, schedule.step as int);
        lemma_farther_horizon_holds(
            eval,
            q,
            plies,
            start.depth + plies(s),
            start.depth + 1 + plies(s),
            start.table,
        );
        lemma_round_answers(
            eval,
            settings,
            schedule,
            to_horizon(plies, start.depth + 1 + plies(s)),
            s,
            start,
        );
    } else {
        lemma_deepening_answers(eval, settings, schedule, plies, s, start, (n - 1) as nat);
        let before = rounds(eval, settings, schedule, s, start, (n - 1) as nat);
        if !before.finished(schedule) {
            vstd::arithmetic::div_mod::lemma_mod_add_multiples_vanish(
                before.depth - start.depth,
                schedule.step as int,
            );
            lemma_farther_horizon_holds(
                eval,
                q,
                plies,
                before.actual_depth + 1 + plies(s),
                before.depth + 1 + plies(s),
                before.table,
            );
            lemma_round_answers(
                eval,
                settings,
                schedule,
                to_horizon(plies, before.depth + 1 + plies(s)),
                s,
                before,
            );
        }
    }
}

/// The value of the game in `s`, where some search reaches the end of the
/// game on every line: the full score at the greatest depth.
pub open spec fn game_value<E: Evaluator>(eval: E, quiescence_depth: u8, s: <E::G as Game>::S) -> int {
    full_negamax(eval, quiescence_depth, s, 255)
}

/// Tells whether `best_move` is a move of `s` that attains the value of
/// the game: after it the game is worth to the opponent the opposite of
/// what it is worth in `s`.
pub open spec fn wins_most<E: Evaluator>(
    eval: E,
    quiescence_depth: u8,
    s: <E::G as Game>::S,
    best_move: Option<<E::G as Game>::M>,
) -> bool {
    match best_move {
        Some(m) => E::G::moves(s).contains(m) && -game_value(
            eval,
            quiescence_depth,
            E::G::play(s, m),
        ) == game_value(eval, quiescence_depth, s),
        None => false,
    }
}

/// A deepening search solves the game where it can.
///
/// Started with a table that is true and as shallow as its first iteration,
/// in a position with a move, it has after every number of iterations but
/// none, once it has searched as deep as some search that reaches the end
/// of the game on every line, the value of the game as its score, and
/// without aspiration window a move that attains it as its answer. And it
/// goes on as far as its schedule says.
pub proof fn lemma_deepening_solves<E: Evaluator>(
    eval: E,
    settings: Settings,
    schedule: Schedule,
    s: <E::G as Game>::S,
    start: Round<<E::G as Game>::M>,
    settles: u8,
    n: nat,
)
    requires
        scores_inside(eval),
        fingerprints_differ::<E::G>(),
        widens(schedule.aspiration_window),
        schedule.step >= 1,
        start.table.wf(),
        table_holds(eval, settings.max_quiescence_depth, to_the_end(), start.table),
        shallower(start.table, start.depth),
        in_range(start.prev_value as int),
        start.open,
        !start.finished(schedule),
        start.actual_depth <= start.depth,
        E::G::winner(s) is None,
        E::G::moves(s).len() > 0,
        settled::<E::G>(s, settles),
        n >= 1,
    ensures
        ({
            let end = rounds(eval, settings, schedule, s, start, n);
            &&& end.open
            &&& start.depth <= end.actual_depth <= schedule.max_depth
            &&& end.actual_depth < 255
            &&& end.depth == end.actual_depth + schedule.step
            &&& (end.depth - start.depth) % (schedule.step as int) == 0
            &&& end.finished(schedule) || end.depth >= start.depth + n
            &&& end.table.wf()
            &&& table_holds(eval, settings.max_quiescence_depth, to_the_end(), end.table)
            &&& shallower(end.table, end.depth)
            &&& in_range(end.prev_value as int)
            &&& end.actual_depth + 1 >= settles ==> {
                &&& end.prev_value == game_value(eval, settings.max_quiescence_depth, s)
                &&& schedule.aspiration_window is None ==> wins_most(
                    eval,
                    settings.max_quiescence_depth,
                    s,
                    end.best_move,
                )
            }
        }),
    decreases n,
{
    let q = settings.max_quiescence_depth;
    let reach = to_the_end::<<E::G as Game>::S>();
    let before = rounds(eval, settings, schedule, s, start, (n - 1) as nat);
    if n == 1 {
        assert(before == start);
    } else {
        lemma_deepening_solves(eval, settings, schedule, s, start, settles, (n - 1) as nat);
    }
    if !before.finished(schedule) {
        let depth = (before.depth + 1) as u8;
        lemma_round_answers(eval, settings, schedule, reach, s, before);
        let end = next_round(eval, settings, schedule, s, before);
        vstd::arithmetic::div_mod::lemma_mod_add_multiples_vanish(
            before.depth - start.depth,
            schedule.step as int,
        );
        if depth >= settles {
            lemma_settled_deeper::<E::G>(s, settles, depth);
            lemma_settled_score(eval, q, s, depth, 255);
            if schedule.aspiration_window is None {
                let m = end.best_move->0;
                let at = choose|i: int| 0 <= i < E::G::moves(s).len() && E::G::moves(s)[i] == m;
                assert(settled::<E::G>(E::G::play(s, E::G::moves(s)[at]), (depth - 1) as u8));
                lemma_settled_score(eval, q, E::G::play(s, m), (depth - 1) as u8, 255);
                assert(reply_value(eval, q, s, m, depth) == -full_negamax(
                    eval,
                    q,
                    E::G::play(s, m),
                    (depth - 1) as u8,
                ));
            }
        }
    }
}

} // verus!
