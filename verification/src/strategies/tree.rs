//! The searches as mathematics: what each of them computes from a position,
//! a window and what the table holds, when no timeout interrupts it.

use vstd::prelude::*;
use crate::interface::{Evaluation, Evaluator, Game, BEST_EVAL, WORST_EVAL};
use crate::strategies::table::{principal_variation, TableView};
use crate::strategies::util::clamp;

verus! {

/// The counters of a search. Each stops at the largest `u64`.
pub struct Tally {
    /// Calls of the main search.
    pub nodes_explored: u64,
    /// Positions whose moves were generated.
    pub generate_move_calls: u64,
    /// Moves generated in all.
    pub generated_moves: u64,
}

/// `count` raised by `by`, stopping at the largest `u64`.
pub open spec fn counted(count: u64, by: nat) -> u64 {
    if count + by > u64::MAX {
        u64::MAX
    } else {
        (count + by) as u64
    }
}

/// The sum of `counts`, stopping at the largest `u64`.
pub open spec fn total_of(counts: Seq<u64>) -> u64
    decreases counts.len(),
{
    if counts.len() == 0 {
        0
    } else {
        counted(total_of(counts.drop_last()), counts.last() as nat)
    }
}

impl Tally {
    /// Nothing counted yet.
    pub open spec fn zero() -> Tally {
        Tally { nodes_explored: 0, generate_move_calls: 0, generated_moves: 0 }
    }

    /// One more call of the main search.
    pub open spec fn enter(self) -> Tally {
        Tally { nodes_explored: counted(self.nodes_explored, 1), ..self }
    }

    /// One more position whose `n` moves were generated.
    pub open spec fn generate(self, n: nat) -> Tally {
        Tally {
            generate_move_calls: counted(self.generate_move_calls, 1),
            generated_moves: counted(self.generated_moves, n),
            ..self
        }
    }
}

/// What shapes a search besides the window.
pub struct Settings {
    pub max_quiescence_depth: u8,
    pub null_window_search: bool,
}

/// What a search leaves behind: the table, the counters, and the score.
pub struct Searched<M> {
    pub table: TableView<M>,
    pub tally: Tally,
    pub value: int,
}

/// What the children of a position have yielded so far.
pub struct Scan<M> {
    pub table: TableView<M>,
    pub tally: Tally,
    pub best: int,
    pub best_move: M,
}

/// The larger of two scores.
pub open spec fn higher(a: int, b: int) -> int {
    if b > a {
        b
    } else {
        a
    }
}

/// The score of `s` by a search of forcing moves only, at most `depth` plies
/// deep, in the window from `alpha` to `beta`: the terminal score where the
/// game is over, the static score at depth 0 and where no move is forcing.
pub open spec fn quiescence<E: Evaluator>(
    eval: E,
    s: <E::G as Game>::S,
    depth: u8,
    alpha: int,
    beta: int,
) -> int
    decreases depth, 1nat, 0nat,
{
    match E::G::winner(s) {
        Some(w) => w.value(),
        None => if depth == 0 || E::G::noisy_moves(s).len() == 0 {
            eval.score(s)
        } else {
            quiescence_from(eval, s, E::G::noisy_moves(s), 0, depth, alpha, beta, WORST_EVAL as int)
        },
    }
}

/// The score of `s` from its forcing moves `moves[i..]`, when the earlier
/// ones have raised the window's lower end to `alpha` and the best score
/// to `best`. The scan ends with the move that closes the window.
pub open spec fn quiescence_from<E: Evaluator>(
    eval: E,
    s: <E::G as Game>::S,
    moves: Seq<<E::G as Game>::M>,
    i: nat,
    depth: u8,
    alpha: int,
    beta: int,
    best: int,
) -> int
    decreases depth, 0nat, moves.len() - i,
{
    if i >= moves.len() || depth == 0 {
        best
    } else {
        let value = -quiescence(
            eval,
            E::G::play(s, moves[i as int]),
            (depth - 1) as u8,
            -beta,
            -alpha,
        );
        if higher(alpha, value) >= beta {
            higher(best, value)
        } else {
            quiescence_from(
                eval,
                s,
                moves,
                i + 1,
                depth,
                higher(alpha, value),
                beta,
                higher(best, value),
            )
        }
    }
}

/// The first place at or after `from` where `moves` holds `m`, or the
/// length of `moves` if there is none.
pub open spec fn position_of<M>(moves: Seq<M>, m: M, from: nat) -> nat
    decreases moves.len() - from,
{
    if from >= moves.len() {
        moves.len()
    } else if moves[from as int] == m {
        from
    } else {
        position_of(moves, m, from + 1)
    }
}

/// `moves` with the move that the table suggests, where it occurs, swapped
/// to the front.
pub open spec fn ordered<M>(moves: Seq<M>, good_move: Option<M>) -> Seq<M> {
    match good_move {
        Some(good) => {
            let at = position_of(moves, good, 0);
            if at < moves.len() {
                moves.update(0, moves[at as int]).update(at as int, moves[0])
            } else {
                moves
            }
        },
        None => moves,
    }
}

/// Ordering changes the place of moves, not the moves.
pub proof fn lemma_ordered_holds_the_same_moves<M>(moves: Seq<M>, good_move: Option<M>)
    ensures
        ordered(moves, good_move).len() == moves.len(),
        forall|j: int|
            0 <= j < moves.len() ==> moves.contains(#[trigger] ordered(moves, good_move)[j]),
{
    let sorted = ordered(moves, good_move);
    assert forall|j: int| 0 <= j < moves.len() implies moves.contains(#[trigger] sorted[j]) by {
        match good_move {
            Some(good) => {
                let at = position_of(moves, good, 0) as int;
                if at < moves.len() {
                    if j == 0 {
                        assert(sorted[j] == moves[at]);
                    } else if j == at {
                        assert(sorted[j] == moves[0]);
                    } else {
                        assert(sorted[j] == moves[j]);
                    }
                } else {
                    assert(sorted[j] == moves[j]);
                }
            },
            None => {
                assert(sorted[j] == moves[j]);
            },
        }
    }
}

/// The search of `s` at `depth` in the window from `alpha` to `beta`,
/// starting from `table` and `tally`.
///
/// At depth 0 the score is that of the quiescence search. A finished game
/// scores its terminal value. Otherwise the table is probed: it may end the
/// search, or tighten the window and name the move to try first. A position
/// without moves is lost. Else the children are searched in order and the
/// best score, saturated into the range of scores, is the result; the table
/// records it with the bound that it is for the window the search began
/// with.
pub open spec fn negamax<E: Evaluator>(
    eval: E,
    settings: Settings,
    table: TableView<<E::G as Game>::M>,
    tally: Tally,
    s: <E::G as Game>::S,
    depth: u8,
    alpha: int,
    beta: int,
) -> Searched<<E::G as Game>::M>
    decreases depth, 1nat, 0nat,
{
    let tally = tally.enter();
    if depth == 0 {
        Searched { table, tally, value: quiescence(eval, s, settings.max_quiescence_depth, alpha, beta) }
    } else {
        match E::G::winner(s) {
            Some(w) => Searched { table, tally, value: w.value() },
            None => {
                let hash = E::G::hash(s);
                let probe = table.check(hash, depth, None, alpha as Evaluation, beta as Evaluation);
                match probe.cutoff {
                    Some(v) => Searched { table, tally, value: v as int },
                    None => {
                        let moves = E::G::moves(s);
                        let tally = tally.generate(moves.len());
                        if moves.len() == 0 {
                            Searched { table, tally, value: WORST_EVAL as int }
                        } else {
                            let moves = ordered(moves, probe.good_move);
                            let scan = negamax_from(
                                eval,
                                settings,
                                Scan {
                                    table,
                                    tally,
                                    best: WORST_EVAL as int,
                                    best_move: moves[0],
                                },
                                s,
                                moves,
                                0,
                                depth,
                                probe.alpha as int,
                                probe.beta as int,
                                false,
                            );
                            Searched {
                                table: scan.table.update(
                                    hash,
                                    alpha as Evaluation,
                                    probe.beta,
                                    depth,
                                    scan.best as Evaluation,
                                    scan.best_move,
                                ),
                                tally: scan.tally,
                                value: clamp(scan.best),
                            }
                        }
                    },
                }
            },
        }
    }
}

/// The scan of the children `moves[i..]` of `s`, when the earlier ones have
/// left `so_far` and raised the window's lower end to `alpha`. The first
/// child with the best score keeps the title. A child that raises `alpha`
/// arms the null-window probe for its younger siblings, if the settings
/// ask for it. The scan ends with the child that closes the window.
pub open spec fn negamax_from<E: Evaluator>(
    eval: E,
    settings: Settings,
    so_far: Scan<<E::G as Game>::M>,
    s: <E::G as Game>::S,
    moves: Seq<<E::G as Game>::M>,
    i: nat,
    depth: u8,
    alpha: int,
    beta: int,
    null_window: bool,
) -> Scan<<E::G as Game>::M>
    decreases depth, 0nat, moves.len() - i,
{
    if i >= moves.len() || depth == 0 {
        so_far
    } else {
        let m = moves[i as int];
        let child = child_value(
            eval,
            settings,
            so_far.table,
            so_far.tally,
            E::G::play(s, m),
            (depth - 1) as u8,
            alpha,
            beta,
            null_window,
        );
        let next = Scan {
            table: child.table,
            tally: child.tally,
            best: higher(so_far.best, child.value),
            best_move: if child.value > so_far.best {
                m
            } else {
                so_far.best_move
            },
        };
        if higher(alpha, child.value) >= beta {
            next
        } else {
            negamax_from(
                eval,
                settings,
                next,
                s,
                moves,
                i + 1,
                depth,
                higher(alpha, child.value),
                beta,
                if child.value > alpha {
                    settings.null_window_search
                } else {
                    null_window
                },
            )
        }
    }
}

/// The score of the position `child` for the player who moved into it, by
/// a search at `depth` for a parent whose window goes from `alpha` to
/// `beta`. With `null_window` the child is first probed with the empty
/// window just above `alpha`, and searched again in the window from the
/// probe's score to `beta` only if that score falls strictly inside the
/// parent's window.
pub open spec fn child_value<E: Evaluator>(
    eval: E,
    settings: Settings,
    table: TableView<<E::G as Game>::M>,
    tally: Tally,
    child: <E::G as Game>::S,
    depth: u8,
    alpha: int,
    beta: int,
    null_window: bool,
) -> Searched<<E::G as Game>::M>
    decreases depth, 2nat, 0nat,
{
    if null_window {
        let probe = negamax(eval, settings, table, tally, child, depth, -alpha - 1, -alpha);
        if alpha < -probe.value < beta {
            let full = negamax(
                eval,
                settings,
                probe.table,
                probe.tally,
                child,
                depth,
                -beta,
                probe.value,
            );
            Searched { value: -full.value, ..full }
        } else {
            Searched { value: -probe.value, ..probe }
        }
    } else {
        let full = negamax(eval, settings, table, tally, child, depth, -beta, -alpha);
        Searched { value: -full.value, ..full }
    }
}

/// The score of the position `child` for the player who moved into it,
/// where nothing is left of the depth: what `child_value` is with the
/// quiescence search, `quiescence_depth` plies deep, in the place of the
/// main search.
pub open spec fn leaf_value<E: Evaluator>(
    eval: E,
    quiescence_depth: u8,
    child: <E::G as Game>::S,
    alpha: int,
    beta: int,
    null_window: bool,
) -> int {
    if null_window {
        let probe = -quiescence(eval, child, quiescence_depth, -alpha - 1, -alpha);
        if alpha < probe < beta {
            -quiescence(eval, child, quiescence_depth, -beta, -probe)
        } else {
            probe
        }
    } else {
        -quiescence(eval, child, quiescence_depth, -beta, -alpha)
    }
}

/// The window of an aspiration search: `window` to either side of
/// `target`, cut off at the sentinels.
pub open spec fn aspiration_bounds(target: int, window: int) -> (int, int) {
    (clamp(target - window), clamp(target + window))
}

/// What an aspiration search at `depth` around `target` leaves behind: at
/// depth 2 and more, what the search in the narrow window does; below,
/// nothing changes.
pub open spec fn aspiration_search<E: Evaluator>(
    eval: E,
    settings: Settings,
    table: TableView<<E::G as Game>::M>,
    tally: Tally,
    s: <E::G as Game>::S,
    depth: u8,
    target: int,
    window: int,
) -> Searched<<E::G as Game>::M> {
    if depth < 2 {
        Searched { table, tally, value: target }
    } else {
        let (alpha, beta) = aspiration_bounds(target, window);
        negamax(eval, settings, table, tally, s, depth, alpha, beta)
    }
}

/// How the iterations of a deepening search go: from which depth, in what
/// steps, how far, and with what window around the previous score.
pub struct Schedule {
    pub max_depth: nat,
    pub step: nat,
    pub aspiration_window: Option<Evaluation>,
}

/// Where a deepening search stands between two iterations.
pub struct Round<M> {
    pub table: TableView<M>,
    pub tally: Tally,
    /// One less than the depth of the next iteration.
    pub depth: nat,
    /// Whether the root was still found in the table after each iteration.
    pub open: bool,
    /// The answer so far.
    pub best_move: Option<M>,
    /// The score of the root by the last iteration.
    pub prev_value: Evaluation,
    /// One less than the greatest depth searched in full.
    pub actual_depth: nat,
    /// The calls of the main search that each iteration took.
    pub history: Seq<u64>,
    pub pv: Seq<M>,
}

impl<M> Round<M> {
    /// No further iteration follows.
    pub open spec fn finished(self, schedule: Schedule) -> bool {
        !self.open || self.depth > schedule.max_depth || self.depth >= 255
    }
}

/// One iteration of the deepening search from `s`: the aspiration search,
/// if a window is set, then the search in the full window at one more than
/// `round.depth`. The entry that the table then holds for `s` gives the
/// answer and the score; without one the search ends. The counter of calls
/// goes to the history and starts again at zero.
pub open spec fn next_round<E: Evaluator>(
    eval: E,
    settings: Settings,
    schedule: Schedule,
    s: <E::G as Game>::S,
    round: Round<<E::G as Game>::M>,
) -> Round<<E::G as Game>::M> {
    if round.finished(schedule) {
        round
    } else {
        let depth = (round.depth + 1) as u8;
        let aimed = match schedule.aspiration_window {
            Some(window) => aspiration_search(
                eval,
                settings,
                round.table,
                round.tally,
                s,
                depth,
                round.prev_value as int,
                window as int,
            ),
            None => Searched { table: round.table, tally: round.tally, value: 0 },
        };
        let full = negamax(
            eval,
            settings,
            aimed.table,
            aimed.tally,
            s,
            depth,
            WORST_EVAL as int,
            BEST_EVAL as int,
        );
        match full.table.lookup(E::G::hash(s)) {
            None => Round { table: full.table, tally: full.tally, open: false, ..round },
            Some(entry) => Round {
                table: full.table,
                tally: Tally { nodes_explored: 0, ..full.tally },
                depth: round.depth + schedule.step,
                open: true,
                best_move: entry.best_move,
                prev_value: entry.value,
                actual_depth: if round.depth > round.actual_depth {
                    round.depth
                } else {
                    round.actual_depth
                },
                history: round.history.push(full.tally.nodes_explored),
                pv: principal_variation::<E::G>(
                    full.table,
                    s,
                    round.depth + schedule.step + 1,
                ),
            },
        }
    }
}

/// Where the deepening search stands after at most `n` iterations.
pub open spec fn rounds<E: Evaluator>(
    eval: E,
    settings: Settings,
    schedule: Schedule,
    s: <E::G as Game>::S,
    start: Round<<E::G as Game>::M>,
    n: nat,
) -> Round<<E::G as Game>::M>
    decreases n,
{
    if n == 0 {
        start
    } else {
        next_round(eval, settings, schedule, s, rounds(eval, settings, schedule, s, start, (n - 1) as nat))
    }
}

/// Once no further iteration follows, more rounds change nothing.
pub proof fn lemma_rounds_settle<E: Evaluator>(
    eval: E,
    settings: Settings,
    schedule: Schedule,
    s: <E::G as Game>::S,
    start: Round<<E::G as Game>::M>,
    n: nat,
    more: nat,
)
    requires
        rounds(eval, settings, schedule, s, start, n).finished(schedule),
    ensures
        rounds(eval, settings, schedule, s, start, n + more) == rounds(
            eval,
            settings,
            schedule,
            s,
            start,
            n,
        ),
    decreases more,
{
    if more > 0 {
        lemma_rounds_settle(eval, settings, schedule, s, start, n, (more - 1) as nat);
    }
}

/// A deepening search never steps back: after more rounds it stands no
/// less deep.
pub proof fn lemma_rounds_deepen<E: Evaluator>(
    eval: E,
    settings: Settings,
    schedule: Schedule,
    s: <E::G as Game>::S,
    start: Round<<E::G as Game>::M>,
    n: nat,
    more: nat,
)
    ensures
        rounds(eval, settings, schedule, s, start, n).depth <= rounds(
            eval,
            settings,
            schedule,
            s,
            start,
            n + more,
        ).depth,
    decreases more,
{
    if more > 0 {
        lemma_rounds_deepen(eval, settings, schedule, s, start, n, (more - 1) as nat);
    }
}

/// A search that is interrupted answers as a search bounded to the depth
/// that it reached. Where the first `k` iterations of a deepening search
/// all ran and found the root in the table, they are the iterations of the
/// search that differs only in its depth limit, which is the depth of the
/// last of them; and that search ends after them.
pub proof fn lemma_interrupted_is_bounded<E: Evaluator>(
    eval: E,
    settings: Settings,
    schedule: Schedule,
    s: <E::G as Game>::S,
    start: Round<<E::G as Game>::M>,
    k: nat,
)
    requires
        k >= 1,
        schedule.step >= 1,
        !rounds(eval, settings, schedule, s, start, (k - 1) as nat).finished(schedule),
        rounds(eval, settings, schedule, s, start, k).open,
    ensures
        ({
            let bounded = Schedule {
                max_depth: rounds(eval, settings, schedule, s, start, (k - 1) as nat).depth,
                ..schedule
            };
            rounds(eval, settings, bounded, s, start, 255) == rounds(
                eval,
                settings,
                schedule,
                s,
                start,
                k,
            )
        }),
{
    let last = rounds(eval, settings, schedule, s, start, (k - 1) as nat);
    let bounded = Schedule { max_depth: last.depth, ..schedule };
    lemma_rounds_agree(eval, settings, schedule, bounded, s, start, k, k);
    let end = rounds(eval, settings, schedule, s, start, k);
    assert(end.depth == last.depth + schedule.step);
    assert(end.finished(bounded));
    if k < 255 {
        lemma_rounds_settle(eval, settings, bounded, s, start, k, (255 - k) as nat);
    } else {
        lemma_rounds_deepen(eval, settings, schedule, s, start, 0, k);
        lemma_rounds_count(eval, settings, schedule, s, start, (k - 1) as nat);
    }
}

/// Each round that finds the search unfinished takes it at least one ply
/// deeper, so the search stands at least as deep as it has run rounds.
pub proof fn lemma_rounds_count<E: Evaluator>(
    eval: E,
    settings: Settings,
    schedule: Schedule,
    s: <E::G as Game>::S,
    start: Round<<E::G as Game>::M>,
    n: nat,
)
    requires
        schedule.step >= 1,
        !rounds(eval, settings, schedule, s, start, n).finished(schedule),
    ensures
        rounds(eval, settings, schedule, s, start, n).depth >= start.depth + n,
    decreases n,
{
    if n > 0 {
        let before = rounds(eval, settings, schedule, s, start, (n - 1) as nat);
        if before.finished(schedule) {
            assert(rounds(eval, settings, schedule, s, start, n) == before);
        }
        lemma_rounds_count(eval, settings, schedule, s, start, (n - 1) as nat);
    }
}

/// Two deepening searches that differ only in their depth limit run the
/// same rounds as long as neither has reached its limit.
pub proof fn lemma_rounds_agree<E: Evaluator>(
    eval: E,
    settings: Settings,
    schedule: Schedule,
    bounded: Schedule,
    s: <E::G as Game>::S,
    start: Round<<E::G as Game>::M>,
    k: nat,
    n: nat,
)
    requires
        k >= 1,
        n <= k,
        bounded == (Schedule {
            max_depth: rounds(eval, settings, schedule, s, start, (k - 1) as nat).depth,
            ..schedule
        }),
        !rounds(eval, settings, schedule, s, start, (k - 1) as nat).finished(schedule),
    ensures
        rounds(eval, settings, bounded, s, start, n) == rounds(eval, settings, schedule, s, start, n),
    decreases n,
{
    if n > 0 {
        lemma_rounds_agree(eval, settings, schedule, bounded, s, start, k, (n - 1) as nat);
        let before = rounds(eval, settings, schedule, s, start, (n - 1) as nat);
        lemma_rounds_deepen(eval, settings, schedule, s, start, (n - 1) as nat, (k - n) as nat);
        if before.finished(schedule) {
            lemma_rounds_settle(eval, settings, schedule, s, start, (n - 1) as nat, (k - n) as nat);
        }
    }
}

/// The line of play that an iteration leaves begins with its answer, if
/// that is a move of the position.
pub proof fn lemma_line_starts_with_answer<E: Evaluator>(
    eval: E,
    settings: Settings,
    schedule: Schedule,
    s: <E::G as Game>::S,
    round: Round<<E::G as Game>::M>,
)
    requires
        !round.finished(schedule),
    ensures
        ({
            let next = next_round(eval, settings, schedule, s, round);
            next.open ==> (match next.best_move {
                Some(m) => if E::G::moves(s).contains(m) {
                    next.pv.len() > 0 && next.pv[0] == m
                } else {
                    next.pv.len() == 0
                },
                None => next.pv.len() == 0,
            })
        }),
{
}

} // verus!
