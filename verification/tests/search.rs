use instant::Duration;
use minimax::strategies::iterative::{
    bring_to_front, IterativeOptions, IterativeSearch, Negamaxer, Replacement,
};
use minimax::strategies::table::{EntryFlag, TranspositionTable};
use minimax::strategies::util::{
    clamp_value, floored, saturate, sum_counts, timed_out, MovePool,
};
use minimax::{Evaluation, Evaluator, Game, Winner, BEST_EVAL, WORST_EVAL};
use std::sync::atomic::{AtomicBool, AtomicUsize, Ordering};
use std::sync::Arc;

// A game given as an explicit tree. A move is the number of the node it
// leads to.

#[derive(Clone, Debug)]
struct Node {
    children: Vec<usize>,
    noisy: Vec<usize>,
    winner: Option<Winner>,
    score: Evaluation,
    hash: u64,
}

#[derive(Clone)]
struct Position {
    tree: Arc<Vec<Node>>,
    path: Vec<usize>,
}

impl Position {
    fn node(&self) -> &Node {
        &self.tree[*self.path.last().unwrap()]
    }
}

struct TreeGame;

impl Game for TreeGame {
    type S = Position;
    type M = usize;

    fn generate_moves(s: &Position, moves: &mut Vec<usize>) {
        moves.extend(s.node().children.iter().copied());
    }

    fn generate_noisy_moves(s: &Position, moves: &mut Vec<usize>) {
        moves.extend(s.node().noisy.iter().copied());
    }

    fn get_winner(s: &Position) -> Option<Winner> {
        s.node().winner
    }

    fn apply(m: usize, s: &mut Position) {
        s.path.push(m);
    }

    fn undo(_m: usize, s: &mut Position) {
        s.path.pop();
    }

    fn zobrist_hash(s: &Position) -> u64 {
        s.node().hash
    }

    fn clone_state(s: &Position) -> Position {
        s.clone()
    }

    fn same_move(a: &usize, b: &usize) -> bool {
        a == b
    }
}

struct TreeEval;

impl Evaluator for TreeEval {
    type G = TreeGame;

    fn evaluate(&self, s: &Position) -> Evaluation {
        s.node().score
    }
}

// An evaluator that counts its calls and raises a flag after `limit` of
// them, as a timer would in the middle of a search.
struct CountingEval {
    calls: Arc<AtomicUsize>,
    limit: usize,
    flag: Arc<AtomicBool>,
}

impl Evaluator for CountingEval {
    type G = TreeGame;

    fn evaluate(&self, s: &Position) -> Evaluation {
        let n = self.calls.fetch_add(1, Ordering::SeqCst) + 1;
        if n > self.limit {
            self.flag.store(true, Ordering::SeqCst);
        }
        s.node().score
    }
}

enum T {
    Leaf(Evaluation),
    Over(Winner),
    Inner(Evaluation, Vec<T>),
    // An inner node whose children are all forcing moves.
    Noisy(Evaluation, Vec<T>),
}

fn add(t: &T, nodes: &mut Vec<Node>) -> usize {
    let id = nodes.len();
    nodes.push(Node {
        children: Vec::new(),
        noisy: Vec::new(),
        winner: None,
        score: 0,
        hash: id as u64 + 1,
    });
    match t {
        T::Leaf(score) => nodes[id].score = *score,
        T::Over(w) => nodes[id].winner = Some(*w),
        T::Inner(score, kids) => {
            nodes[id].score = *score;
            for k in kids {
                let c = add(k, nodes);
                nodes[id].children.push(c);
            }
        }
        T::Noisy(score, kids) => {
            nodes[id].score = *score;
            for k in kids {
                let c = add(k, nodes);
                nodes[id].children.push(c);
                nodes[id].noisy.push(c);
            }
        }
    }
    id
}

fn position(t: &T) -> Position {
    let mut nodes = Vec::new();
    add(t, &mut nodes);
    Position { tree: Arc::new(nodes), path: vec![0] }
}

struct Rng(u64);

impl Rng {
    fn next(&mut self) -> u64 {
        self.0 = self.0.wrapping_mul(6364136223846793005).wrapping_add(1442695040888963407);
        (self.0 >> 33) ^ (self.0 >> 17)
    }
}

fn random_tree(rng: &mut Rng, plies: u32) -> T {
    let score = (rng.next() % 201) as Evaluation - 100;
    if plies == 0 {
        return T::Leaf(score);
    }
    match rng.next() % 12 {
        0 => T::Over(Winner::PlayerJustMoved),
        1 => T::Over(Winner::PlayerToMove),
        2 => T::Over(Winner::Draw),
        3 => T::Inner(score, Vec::new()),
        n => {
            let width = 1 + rng.next() % 4;
            let kids = (0..width).map(|_| random_tree(rng, plies - 1)).collect();
            if n % 2 == 0 {
                T::Noisy(score, kids)
            } else {
                T::Inner(score, kids)
            }
        }
    }
}

// The searches without pruning and without a table.

fn plain_quiescence(tree: &[Node], at: usize, depth: u8) -> Evaluation {
    let node = &tree[at];
    if let Some(w) = node.winner {
        return w.evaluate();
    }
    if depth == 0 || node.noisy.is_empty() {
        return node.score;
    }
    node.noisy.iter().map(|&c| -plain_quiescence(tree, c, depth - 1)).max().unwrap()
}

fn plain_negamax(tree: &[Node], at: usize, depth: u8, quiescence: u8) -> Evaluation {
    let node = &tree[at];
    if depth == 0 {
        return plain_quiescence(tree, at, quiescence);
    }
    if let Some(w) = node.winner {
        return w.evaluate();
    }
    if node.children.is_empty() {
        return WORST_EVAL;
    }
    node.children.iter().map(|&c| -plain_negamax(tree, c, depth - 1, quiescence)).max().unwrap()
}

fn negamaxer(strategy: Replacement, quiescence: u8, null_window: bool) -> Negamaxer<TreeEval> {
    let table = TranspositionTable::new(1 << 16, strategy);
    Negamaxer::new(table, TreeEval, quiescence, null_window)
}

fn searcher(opts: IterativeOptions, max_depth: usize) -> IterativeSearch<TreeEval> {
    let mut search = IterativeSearch::new(TreeEval, opts.with_table_byte_size(1 << 16));
    search.set_max_depth(max_depth);
    search
}

// max over the moves of the min over the replies.
fn two_ply(replies: &[&[Evaluation]]) -> T {
    T::Inner(
        0,
        replies.iter().map(|r| T::Inner(0, r.iter().map(|&v| T::Leaf(v)).collect())).collect(),
    )
}

#[test]
fn winner_scores_sit_inside_the_sentinels() {
    assert_eq!(Winner::PlayerToMove.evaluate(), BEST_EVAL - 1);
    assert_eq!(Winner::PlayerJustMoved.evaluate(), WORST_EVAL + 1);
    assert_eq!(Winner::Draw.evaluate(), 0);
    assert_eq!(BEST_EVAL, 1_000_000_000);
    assert_eq!(WORST_EVAL, -BEST_EVAL);
}

#[test]
fn clamp_value_saturates() {
    assert_eq!(clamp_value(0), 0);
    assert_eq!(clamp_value(BEST_EVAL), BEST_EVAL);
    assert_eq!(clamp_value(BEST_EVAL + 1), BEST_EVAL);
    assert_eq!(clamp_value(i32::MAX), BEST_EVAL);
    assert_eq!(clamp_value(WORST_EVAL), WORST_EVAL);
    assert_eq!(clamp_value(WORST_EVAL - 1), WORST_EVAL);
    assert_eq!(clamp_value(i32::MIN), WORST_EVAL);
    assert_eq!(clamp_value(-77), -77);
    assert_eq!(saturate(3_000_000_000), BEST_EVAL);
    assert_eq!(saturate(-3_000_000_000), WORST_EVAL);
    assert_eq!(saturate(12), 12);
}

#[test]
fn sum_counts_stops_at_the_top() {
    assert_eq!(sum_counts(&vec![]), 0);
    assert_eq!(sum_counts(&vec![1, 2, 3]), 6);
    assert_eq!(sum_counts(&vec![u64::MAX - 1, 5, 7]), u64::MAX);
}

#[test]
fn timed_out_reads_the_flag() {
    assert!(!timed_out(&None));
    let flag = Arc::new(AtomicBool::new(false));
    assert!(!timed_out(&Some(flag.clone())));
    flag.store(true, Ordering::Relaxed);
    assert!(timed_out(&Some(flag)));
}

#[test]
fn move_pool_hands_out_empty_buffers() {
    let mut pool = MovePool::<u32>::new();
    let mut a = pool.acquire();
    assert!(a.is_empty());
    a.push(1);
    a.push(2);
    pool.release(a);
    let b = pool.acquire();
    assert!(b.is_empty());
    assert!(b.capacity() >= 2);
    let c = pool.acquire();
    assert!(c.is_empty());
}

#[test]
fn bring_to_front_swaps_the_good_move() {
    let mut moves = vec![10usize, 20, 30, 40];
    bring_to_front::<TreeGame>(&mut moves, Some(30));
    assert_eq!(moves, vec![30, 20, 10, 40]);
    bring_to_front::<TreeGame>(&mut moves, Some(30));
    assert_eq!(moves, vec![30, 20, 10, 40]);
    bring_to_front::<TreeGame>(&mut moves, Some(99));
    assert_eq!(moves, vec![30, 20, 10, 40]);
    bring_to_front::<TreeGame>(&mut moves, None);
    assert_eq!(moves, vec![30, 20, 10, 40]);
    let mut twice = vec![1usize, 2, 3, 2];
    bring_to_front::<TreeGame>(&mut twice, Some(2));
    assert_eq!(twice, vec![2, 1, 3, 2]);
    let mut none: Vec<usize> = Vec::new();
    bring_to_front::<TreeGame>(&mut none, Some(2));
    assert!(none.is_empty());
}

#[test]
fn quiescence_at_depth_zero_is_the_static_score() {
    let mut s = position(&T::Noisy(17, vec![T::Leaf(-50), T::Leaf(60)]));
    let mut n = negamaxer(Replacement::TwoTier, 0, true);
    assert_eq!(n.noisy_negamax(&mut s, 0, WORST_EVAL, BEST_EVAL), Some(17));
    assert_eq!(s.path, vec![0]);
}

#[test]
fn quiescence_of_a_quiet_position_is_the_static_score() {
    let mut s = position(&T::Inner(17, vec![T::Leaf(-50), T::Leaf(60)]));
    let mut n = negamaxer(Replacement::TwoTier, 0, true);
    assert_eq!(n.noisy_negamax(&mut s, 5, WORST_EVAL, BEST_EVAL), Some(17));
}

#[test]
fn quiescence_of_a_finished_game_is_the_terminal_score() {
    let mut s = position(&T::Over(Winner::PlayerJustMoved));
    let mut n = negamaxer(Replacement::TwoTier, 0, true);
    assert_eq!(n.noisy_negamax(&mut s, 0, WORST_EVAL, BEST_EVAL), Some(WORST_EVAL + 1));
    assert_eq!(n.noisy_negamax(&mut s, 3, WORST_EVAL, BEST_EVAL), Some(WORST_EVAL + 1));
}

#[test]
fn quiescence_searches_the_forcing_moves() {
    let mut s = position(&T::Noisy(17, vec![T::Leaf(-50), T::Leaf(60), T::Leaf(-70)]));
    let mut n = negamaxer(Replacement::TwoTier, 0, true);
    assert_eq!(n.noisy_negamax(&mut s, 1, WORST_EVAL, BEST_EVAL), Some(70));
    assert_eq!(s.path, vec![0]);
    // The window closes after the first move: the search stops there.
    assert_eq!(n.noisy_negamax(&mut s, 1, WORST_EVAL, 40), Some(50));
    // It uses no table and counts no nodes.
    assert_eq!(n.nodes_explored, 0);
    assert!(n.table.lookup(1).is_none());
}

#[test]
fn quiescence_matches_the_plain_search() {
    let mut rng = Rng(7);
    for _ in 0..40 {
        let s0 = position(&random_tree(&mut rng, 4));
        for depth in 0..5u8 {
            let mut s = s0.clone();
            let mut n = negamaxer(Replacement::TwoTier, 0, true);
            let expected = plain_quiescence(&s0.tree, 0, depth);
            assert_eq!(n.noisy_negamax(&mut s, depth, WORST_EVAL, BEST_EVAL), Some(expected));
            assert_eq!(s.path, vec![0]);
        }
    }
}

#[test]
fn negamax_matches_the_plain_search() {
    let mut rng = Rng(11);
    for round in 0..60 {
        let s0 = position(&random_tree(&mut rng, 4));
        for depth in 1..5u8 {
            for strategy in [Replacement::Always, Replacement::DepthPreferred, Replacement::TwoTier] {
                for null_window in [false, true] {
                    let quiescence = (round % 3) as u8;
                    let mut s = s0.clone();
                    let mut n = negamaxer(strategy, quiescence, null_window);
                    let expected = plain_negamax(&s0.tree, 0, depth, quiescence);
                    let found = n.negamax(&mut s, depth, WORST_EVAL, BEST_EVAL);
                    assert_eq!(found, Some(expected));
                    assert_eq!(s.path, vec![0]);
                    assert!(WORST_EVAL <= expected && expected <= BEST_EVAL);
                }
            }
        }
    }
}

#[test]
fn negamax_in_a_narrow_window_bounds_the_true_score() {
    let mut rng = Rng(13);
    for _ in 0..60 {
        let s0 = position(&random_tree(&mut rng, 4));
        let truth = plain_negamax(&s0.tree, 0, 3, 0);
        for (alpha, beta) in [(-10, 10), (-100, -50), (50, 100), (0, 1), (WORST_EVAL, 0)] {
            let mut s = s0.clone();
            let mut n = negamaxer(Replacement::TwoTier, 0, false);
            let v = n.negamax(&mut s, 3, alpha, beta).unwrap();
            if v <= alpha {
                assert!(truth <= v);
            } else if v >= beta {
                assert!(truth >= v);
            } else {
                assert_eq!(truth, v);
            }
        }
    }
}

#[test]
fn negamax_counts_its_calls_and_generated_moves() {
    let mut s = position(&two_ply(&[&[10, 30], &[5, 40], &[7]]));
    let mut n = negamaxer(Replacement::TwoTier, 0, false);
    assert_eq!(n.negamax(&mut s, 1, WORST_EVAL, BEST_EVAL), Some(0));
    assert_eq!(n.nodes_explored, 4);
    assert_eq!(n.total_generate_move_calls, 1);
    assert_eq!(n.total_generated_moves, 3);
    n.reset_stats();
    assert_eq!((n.nodes_explored, n.total_generate_move_calls, n.total_generated_moves), (0, 0, 0));
    let mut fresh = negamaxer(Replacement::TwoTier, 0, false);
    assert_eq!(fresh.negamax(&mut s, 2, WORST_EVAL, BEST_EVAL), Some(10));
    // The root, three children, and the replies that are not pruned: both
    // of the first child, one of the second, one of the third.
    assert_eq!(fresh.nodes_explored, 1 + 3 + 2 + 1 + 1);
    assert_eq!(fresh.total_generate_move_calls, 4);
    assert_eq!(fresh.total_generated_moves, 3 + 2 + 2 + 1);
}

#[test]
fn negamax_records_the_result_in_the_table() {
    let mut s = position(&two_ply(&[&[10, 30], &[5, 40]]));
    let mut n = negamaxer(Replacement::TwoTier, 0, false);
    assert_eq!(n.negamax(&mut s, 2, WORST_EVAL, BEST_EVAL), Some(10));
    let root = n.table.lookup(1).unwrap();
    assert_eq!(root.value, 10);
    assert_eq!(root.depth, 2);
    assert_eq!(root.flag, EntryFlag::Exact);
    assert_eq!(root.best_move, Some(1));
    // The second child was cut off after its first reply: a lower bound
    // for the player to move there.
    let second = n.table.lookup(5).unwrap();
    assert_eq!(second.value, -5);
    assert_eq!(second.depth, 1);
    assert_eq!(second.flag, EntryFlag::Lowerbound);
    assert_eq!(second.best_move, Some(5));
}

#[test]
fn negamax_keeps_the_first_of_equal_moves() {
    let mut s = position(&T::Inner(0, vec![T::Leaf(-3), T::Leaf(-3), T::Leaf(2)]));
    let mut n = negamaxer(Replacement::TwoTier, 0, true);
    assert_eq!(n.negamax(&mut s, 1, WORST_EVAL, BEST_EVAL), Some(3));
    assert_eq!(n.table.lookup(1).unwrap().best_move, Some(1));
}

#[test]
fn negamax_without_moves_is_a_loss() {
    let mut s = position(&T::Inner(55, Vec::new()));
    let mut n = negamaxer(Replacement::TwoTier, 0, true);
    assert_eq!(n.negamax(&mut s, 3, WORST_EVAL, BEST_EVAL), Some(WORST_EVAL));
    assert!(n.table.lookup(1).is_none());
    // At depth 0 the position is only scored.
    assert_eq!(n.negamax(&mut s, 0, WORST_EVAL, BEST_EVAL), Some(55));
}

#[test]
fn negamax_tries_the_table_move_first() {
    let mut s = position(&T::Inner(0, vec![T::Leaf(5), T::Leaf(-8), T::Leaf(1)]));
    let mut n = negamaxer(Replacement::TwoTier, 0, false);
    // A shallow entry names the second move: it is searched first, and
    // with its score the window from 7 to 8 closes at once.
    n.table.store(1, 0, 0, EntryFlag::Exact, 2);
    assert_eq!(n.negamax(&mut s, 1, 7, 8), Some(8));
    assert_eq!(n.nodes_explored, 2);
    assert_eq!(n.table.lookup(1).unwrap().best_move, Some(2));
}

#[test]
fn negamax_returns_an_exact_entry_at_once() {
    let mut s = position(&two_ply(&[&[10, 30], &[5, 40]]));
    let mut n = negamaxer(Replacement::TwoTier, 0, false);
    n.table.store(1, 123, 2, EntryFlag::Exact, 4);
    assert_eq!(n.negamax(&mut s, 2, WORST_EVAL, BEST_EVAL), Some(123));
    assert_eq!(n.nodes_explored, 1);
    assert_eq!(n.total_generate_move_calls, 0);
}

#[test]
fn negamax_gives_up_on_timeout() {
    let mut s = position(&two_ply(&[&[10, 30], &[5, 40]]));
    let mut n = negamaxer(Replacement::TwoTier, 0, false);
    n.set_timeout(Some(Arc::new(AtomicBool::new(true))));
    assert_eq!(n.negamax(&mut s, 2, WORST_EVAL, BEST_EVAL), None);
    assert_eq!(n.noisy_negamax(&mut s, 2, WORST_EVAL, BEST_EVAL), None);
    assert_eq!(n.aspiration_search(&mut s, 2, 0, 50), None);
    assert_eq!(n.aspiration_search(&mut s, 1, 0, 50), Some(()));
    n.set_timeout(Some(Arc::new(AtomicBool::new(false))));
    assert_eq!(n.negamax(&mut s, 2, WORST_EVAL, BEST_EVAL), Some(10));
    n.set_timeout(None);
    assert_eq!(n.negamax(&mut s, 2, WORST_EVAL, BEST_EVAL), Some(10));
}

#[test]
fn aspiration_hit_needs_no_second_search() {
    let mut s = position(&two_ply(&[&[10, 30], &[5, 40]]));
    let mut n = negamaxer(Replacement::TwoTier, 0, false);
    assert_eq!(n.aspiration_search(&mut s, 2, 0, 50), Some(()));
    let root = n.table.lookup(1).unwrap();
    assert_eq!((root.value, root.flag, root.depth), (10, EntryFlag::Exact, 2));
    n.reset_stats();
    assert_eq!(n.negamax(&mut s, 2, WORST_EVAL, BEST_EVAL), Some(10));
    assert_eq!(n.nodes_explored, 1);
}

#[test]
fn aspiration_miss_is_searched_again_in_full() {
    let mut s = position(&two_ply(&[&[500, 700], &[450, 900]]));
    let mut n = negamaxer(Replacement::TwoTier, 0, false);
    assert_eq!(n.aspiration_search(&mut s, 2, 0, 50), Some(()));
    let root = n.table.lookup(1).unwrap();
    assert_eq!(root.flag, EntryFlag::Lowerbound);
    assert!(root.value >= 50);
    n.reset_stats();
    assert_eq!(n.negamax(&mut s, 2, WORST_EVAL, BEST_EVAL), Some(500));
    assert!(n.nodes_explored > 1);
    let root = n.table.lookup(1).unwrap();
    assert_eq!((root.value, root.flag), (500, EntryFlag::Exact));
}

#[test]
fn aspiration_below_depth_two_does_nothing() {
    let mut s = position(&two_ply(&[&[10, 30], &[5, 40]]));
    let mut n = negamaxer(Replacement::TwoTier, 0, false);
    assert_eq!(n.aspiration_search(&mut s, 1, 0, 50), Some(()));
    assert_eq!(n.nodes_explored, 0);
    assert!(n.table.lookup(1).is_none());
}

#[test]
fn aspiration_window_saturates_at_the_sentinels() {
    let mut s = position(&two_ply(&[&[10, 30], &[5, 40]]));
    let mut n = negamaxer(Replacement::TwoTier, 0, false);
    assert_eq!(n.aspiration_search(&mut s, 2, BEST_EVAL, i32::MAX), Some(()));
    assert_eq!(n.table.lookup(1).unwrap().value, 10);
    let mut n = negamaxer(Replacement::TwoTier, 0, false);
    assert_eq!(n.aspiration_search(&mut s, 2, WORST_EVAL, i32::MAX), Some(()));
    assert_eq!(n.table.lookup(1).unwrap().value, 10);
    let mut n = negamaxer(Replacement::TwoTier, 0, false);
    assert_eq!(n.aspiration_search(&mut s, 2, 0, i32::MIN), Some(()));
    assert_eq!(s.path, vec![0]);
}

#[test]
fn driver_aspiration_finds_the_score_outside_the_window() {
    let s = position(&two_ply(&[&[500, 700], &[450, 900]]));
    let mut search = searcher(IterativeOptions::new().with_aspiration_window(50), 1);
    assert_eq!(search.choose_move(&s, None), Some(1));
    assert_eq!(search.root_value(), 500);
    let s = position(&two_ply(&[&[5, 40], &[10, 30]]));
    let mut search = searcher(IterativeOptions::new().with_aspiration_window(50), 1);
    assert_eq!(search.choose_move(&s, None), Some(4));
    assert_eq!(search.root_value(), 10);
}

#[test]
fn trivial_win_in_one() {
    let s = position(&T::Inner(0, vec![T::Over(Winner::PlayerJustMoved)]));
    for depth in [0usize, 1, 5] {
        let mut search = searcher(IterativeOptions::new(), depth);
        assert_eq!(search.choose_move(&s, None), Some(1));
        assert_eq!(search.root_value(), BEST_EVAL - 1);
        assert_eq!(search.principal_variation(), &[1]);
    }
}

#[test]
fn forced_loss() {
    let s = position(&T::Inner(
        0,
        vec![T::Over(Winner::PlayerToMove), T::Over(Winner::PlayerToMove)],
    ));
    for depth in [0usize, 1, 5] {
        let mut search = searcher(IterativeOptions::new(), depth);
        assert_eq!(search.choose_move(&s, None), Some(1));
        assert_eq!(search.root_value(), WORST_EVAL + 1);
    }
}

#[test]
fn win_is_preferred_to_any_score() {
    let s = position(&T::Inner(
        0,
        vec![T::Leaf(-90), T::Over(Winner::Draw), T::Over(Winner::PlayerJustMoved), T::Leaf(-100)],
    ));
    let mut search = searcher(IterativeOptions::new(), 0);
    assert_eq!(search.choose_move(&s, None), Some(3));
    assert_eq!(search.root_value(), BEST_EVAL - 1);
    // Searched deeper, a position without moves is lost for the player to
    // move there, which is better still.
    let mut search = searcher(IterativeOptions::new(), 1);
    assert_eq!(search.choose_move(&s, None), Some(1));
    assert_eq!(search.root_value(), BEST_EVAL);
}

#[test]
fn swapping_sides_negates_the_root_value() {
    let mut rng = Rng(17);
    for _ in 0..30 {
        let tree = random_tree(&mut rng, 4);
        let s = position(&tree);
        if s.tree[0].winner.is_some() || s.tree[0].children.is_empty() {
            continue;
        }
        // The same position with the other side to move: one move before.
        let before = position(&T::Inner(0, vec![tree]));
        let mut here = searcher(IterativeOptions::new(), 2);
        here.choose_move(&s, None);
        let mut there = searcher(IterativeOptions::new(), 3);
        assert_eq!(there.choose_move(&before, None), Some(1));
        assert_eq!(there.root_value(), -here.root_value());
    }
}

#[test]
fn no_move_where_there_is_none() {
    let s = position(&T::Inner(3, Vec::new()));
    let mut search = searcher(IterativeOptions::new(), 4);
    assert_eq!(search.choose_move(&s, None), None);
    assert!(search.nodes_explored().is_empty());
    let over = position(&T::Over(Winner::Draw));
    assert_eq!(search.choose_move(&over, None), None);
    assert_eq!(search.root_value(), 0);
}

#[test]
fn no_move_when_time_is_up_before_the_first_iteration() {
    let s = position(&two_ply(&[&[10, 30], &[5, 40]]));
    let mut search = IterativeSearch::new(TreeEval, IterativeOptions::new().with_table_byte_size(1 << 16));
    search.set_timeout(Duration::from_millis(100));
    assert_eq!(search.choose_move(&s, Some(Arc::new(AtomicBool::new(true)))), None);
    assert!(search.nodes_explored().is_empty());
    // A flag that never fires lets the search run to its depth limit of
    // 100, far below the leaves, where the player to move has no move.
    assert_eq!(search.choose_move(&s, Some(Arc::new(AtomicBool::new(false)))), Some(1));
    assert_eq!(search.root_value(), WORST_EVAL);
    assert_eq!(search.actual_depth(), 100);
    assert_eq!(search.nodes_explored().len(), 101);
}

#[test]
fn timer_is_ignored_where_depth_is_the_limit() {
    let s = position(&two_ply(&[&[10, 30], &[5, 40]]));
    let mut search = searcher(IterativeOptions::new(), 1);
    assert_eq!(search.choose_move(&s, Some(Arc::new(AtomicBool::new(true)))), Some(1));
    assert_eq!(search.root_value(), 10);
    search.set_timeout(Duration::new(0, 0));
    assert_eq!(search.choose_move(&s, Some(Arc::new(AtomicBool::new(true)))), Some(1));
    assert_eq!(search.root_value(), WORST_EVAL);
}

#[test]
fn timer_span_tells_when_a_timer_is_needed() {
    let mut search = IterativeSearch::new(TreeEval, IterativeOptions::new().with_table_byte_size(1 << 16));
    assert_eq!(search.timer_span(), Some(Duration::from_secs(5)));
    search.set_max_depth(7);
    assert_eq!(search.timer_span(), None);
    search.set_timeout(Duration::from_millis(100));
    assert_eq!(search.timer_span(), Some(Duration::from_millis(100)));
    search.set_timeout(Duration::new(0, 0));
    assert_eq!(search.timer_span(), None);
    search.set_timeout(Duration::new(0, 1));
    assert_eq!(search.timer_span(), Some(Duration::new(0, 1)));
}

#[test]
fn timeout_in_mid_iteration_keeps_the_last_full_answer() {
    let mut rng = Rng(23);
    let mut tried = 0;
    while tried < 10 {
        let tree = random_tree(&mut rng, 5);
        let s = position(&tree);
        if s.tree[0].winner.is_some() || s.tree[0].children.len() < 2 {
            continue;
        }
        let evals = |max_depth: usize| {
            let calls = Arc::new(AtomicUsize::new(0));
            let eval = CountingEval {
                calls: calls.clone(),
                limit: usize::MAX,
                flag: Arc::new(AtomicBool::new(false)),
            };
            let mut search =
                IterativeSearch::new(eval, IterativeOptions::new().with_table_byte_size(1 << 16));
            search.set_max_depth(max_depth);
            let best = search.choose_move(&s, None);
            let pv = search.principal_variation().to_vec();
            (calls.load(Ordering::SeqCst), best, search.root_value(), pv)
        };
        let (three, best3, value3, pv3) = evals(2);
        let (four, _, _, _) = evals(3);
        if four <= three + 1 {
            continue;
        }
        tried += 1;
        // The flag goes up in the middle of the fourth iteration.
        let flag = Arc::new(AtomicBool::new(false));
        let eval = CountingEval {
            calls: Arc::new(AtomicUsize::new(0)),
            limit: three + (four - three) / 2,
            flag: flag.clone(),
        };
        let mut search =
            IterativeSearch::new(eval, IterativeOptions::new().with_table_byte_size(1 << 16));
        search.set_timeout(Duration::from_millis(100));
        let best = search.choose_move(&s, Some(flag.clone()));
        assert!(flag.load(Ordering::SeqCst));
        assert_eq!(best, best3);
        assert_eq!(search.root_value(), value3);
        assert_eq!(search.principal_variation(), &pv3[..]);
        assert_eq!(search.nodes_explored().len(), 3);
        assert_eq!(search.actual_depth(), 2);
        assert!(search.next_depth_nodes() > 0);
    }
}

#[test]
fn driver_matches_the_plain_search() {
    let mut rng = Rng(29);
    for round in 0..40 {
        let s = position(&random_tree(&mut rng, 4));
        if s.tree[0].winner.is_some() || s.tree[0].children.is_empty() {
            continue;
        }
        for max_depth in 0..4usize {
            for strategy in [Replacement::Always, Replacement::DepthPreferred, Replacement::TwoTier] {
                let quiescence = (round % 2) as u8 * 2;
                let opts = IterativeOptions::new()
                    .with_replacement_strategy(strategy)
                    .with_quiescence_search_depth(quiescence);
                let mut search = searcher(opts, max_depth);
                let best = search.choose_move(&s, None).unwrap();
                let truth = plain_negamax(&s.tree, 0, max_depth as u8 + 1, quiescence);
                assert_eq!(search.root_value(), truth);
                assert_eq!(-plain_negamax(&s.tree, best, max_depth as u8, quiescence), truth);
                assert_eq!(search.actual_depth() as usize, max_depth);
                assert_eq!(search.nodes_explored().len(), max_depth + 1);
                assert_eq!(search.principal_variation()[0], best);
                assert!(search.principal_variation().len() <= max_depth + 2);
            }
        }
    }
}

#[test]
fn null_window_search_changes_no_root_value() {
    let mut rng = Rng(31);
    for _ in 0..60 {
        let s = position(&random_tree(&mut rng, 5));
        if s.tree[0].winner.is_some() || s.tree[0].children.is_empty() {
            continue;
        }
        let mut with = searcher(IterativeOptions::new().with_null_window_search(true), 4);
        let mut without = searcher(IterativeOptions::new().with_null_window_search(false), 4);
        with.choose_move(&s, None);
        without.choose_move(&s, None);
        assert_eq!(with.root_value(), without.root_value());
    }
}

#[test]
fn aspiration_windows_change_no_root_value() {
    let mut rng = Rng(37);
    for _ in 0..60 {
        let s = position(&random_tree(&mut rng, 5));
        if s.tree[0].winner.is_some() || s.tree[0].children.is_empty() {
            continue;
        }
        let mut with = searcher(IterativeOptions::new().with_aspiration_window(20), 4);
        let mut without = searcher(IterativeOptions::new(), 4);
        with.choose_move(&s, None);
        without.choose_move(&s, None);
        assert_eq!(with.root_value(), without.root_value());
    }
}

#[test]
fn two_runs_give_the_same_answer() {
    let mut rng = Rng(41);
    for _ in 0..20 {
        let s = position(&random_tree(&mut rng, 5));
        let run = || {
            let mut search = searcher(IterativeOptions::new().with_aspiration_window(30), 4);
            let best = search.choose_move(&s, None);
            (
                best,
                search.root_value(),
                search.principal_variation().to_vec(),
                search.nodes_explored().to_vec(),
                search.total_generated_moves(),
                search.total_generate_move_calls(),
            )
        };
        assert_eq!(run(), run());
    }
}

#[test]
fn double_step_searches_every_other_depth() {
    let s = position(&random_tree(&mut Rng(3), 6));
    assert!(s.tree[0].winner.is_none() && !s.tree[0].children.is_empty());
    // Depth limit 4 in steps of two: searches at depths 1, 3 and 5.
    let mut search = searcher(IterativeOptions::new().with_double_step_increment(), 4);
    search.choose_move(&s, None).unwrap();
    assert_eq!(search.nodes_explored().len(), 3);
    assert_eq!(search.actual_depth(), 4);
    assert_eq!(search.root_value(), plain_negamax(&s.tree, 0, 5, 0));
    // Depth limit 3: searches at depths 2 and 4.
    let mut search = searcher(IterativeOptions::new().with_double_step_increment(), 3);
    search.choose_move(&s, None).unwrap();
    assert_eq!(search.nodes_explored().len(), 2);
    assert_eq!(search.actual_depth(), 3);
    assert_eq!(search.root_value(), plain_negamax(&s.tree, 0, 4, 0));
    // In single steps: every depth from 1 to 5.
    let mut search = searcher(IterativeOptions::new(), 4);
    search.choose_move(&s, None).unwrap();
    assert_eq!(search.nodes_explored().len(), 5);
    assert_eq!(search.total_nodes_explored(), search.nodes_explored().iter().sum::<u64>());
    assert_eq!(search.next_depth_nodes(), 0);
}

#[test]
fn principal_variation_follows_the_best_line() {
    let s = position(&two_ply(&[&[5, 40], &[30, 10], &[7, 8, 9]]));
    let mut search = searcher(IterativeOptions::new(), 1);
    assert_eq!(search.choose_move(&s, None), Some(4));
    assert_eq!(search.root_value(), 10);
    // The second move, then the reply that holds it to 10.
    assert_eq!(search.principal_variation(), &[4, 6]);
}

#[test]
fn populate_pv_restores_the_position() {
    let s = position(&two_ply(&[&[5, 40], &[30, 10]]));
    let mut n = negamaxer(Replacement::TwoTier, 0, false);
    let mut at = s.clone();
    n.negamax(&mut at, 2, WORST_EVAL, BEST_EVAL).unwrap();
    let mut pv = vec![99usize];
    n.table.populate_pv::<TreeGame>(&mut pv, &mut at, 10);
    assert_eq!(pv, vec![4, 6]);
    assert_eq!(at.path, vec![0]);
    n.table.populate_pv::<TreeGame>(&mut pv, &mut at, 1);
    assert_eq!(pv, vec![4]);
    n.table.populate_pv::<TreeGame>(&mut pv, &mut at, 0);
    assert!(pv.is_empty());
    assert_eq!(at.path, vec![0]);
}

#[test]
fn a_second_call_advances_the_generation() {
    let s = position(&two_ply(&[&[5, 40], &[30, 10]]));
    let mut search = searcher(IterativeOptions::new(), 1);
    assert_eq!(search.choose_move(&s, None), Some(4));
    let first = search.nodes_explored().to_vec();
    assert_eq!(search.choose_move(&s, None), Some(4));
    assert_eq!(search.root_value(), 10);
    // What the first call left in the table answers the second at once.
    assert_eq!(search.nodes_explored(), &[1, 1]);
    assert!(first[1] > 1);
}

#[test]
fn wall_time_is_measured() {
    let s = position(&random_tree(&mut Rng(3), 6));
    let mut search = searcher(IterativeOptions::new(), 4);
    assert_eq!(search.wall_time(), Duration::new(0, 0));
    search.choose_move(&s, None);
    assert!(search.wall_time() < Duration::from_secs(20));
}

#[test]
fn a_tiny_table_changes_no_root_value() {
    let mut rng = Rng(59);
    for _ in 0..40 {
        let s = position(&random_tree(&mut rng, 5));
        if s.tree[0].winner.is_some() || s.tree[0].children.is_empty() {
            continue;
        }
        for strategy in [Replacement::Always, Replacement::DepthPreferred, Replacement::TwoTier] {
            for bytes in [0usize, 100, 300] {
                let opts = IterativeOptions::new()
                    .with_replacement_strategy(strategy)
                    .with_table_byte_size(bytes);
                let mut search = IterativeSearch::new(TreeEval, opts);
                search.set_max_depth(3);
                let best = search.choose_move(&s, None).unwrap();
                assert_eq!(search.root_value(), plain_negamax(&s.tree, 0, 4, 0));
                assert_eq!(-plain_negamax(&s.tree, best, 3, 0), search.root_value());
            }
        }
    }
}

#[test]
fn deepest_search_stops_at_the_limit_of_the_depth() {
    let s = position(&two_ply(&[&[10, 30], &[5, 40]]));
    let mut search = searcher(IterativeOptions::new(), 1000);
    assert_eq!(search.choose_move(&s, None), Some(1));
    assert_eq!(search.actual_depth(), 254);
    assert_eq!(search.nodes_explored().len(), 255);
    let mut search = searcher(IterativeOptions::new().with_double_step_increment(), 1000);
    assert_eq!(search.choose_move(&s, None), Some(1));
    assert_eq!(search.actual_depth(), 254);
    assert_eq!(search.nodes_explored().len(), 128);
}

// Nim: take one, two or three of the stones; who takes the last one wins.

struct Nim;

impl Game for Nim {
    type S = u32;
    type M = u32;

    fn generate_moves(s: &u32, moves: &mut Vec<u32>) {
        for take in 1..=3u32 {
            if take <= *s {
                moves.push(take);
            }
        }
    }

    fn generate_noisy_moves(_s: &u32, _moves: &mut Vec<u32>) {
    }

    fn get_winner(s: &u32) -> Option<Winner> {
        if *s == 0 {
            Some(Winner::PlayerJustMoved)
        } else {
            None
        }
    }

    fn apply(m: u32, s: &mut u32) {
        *s -= m;
    }

    fn undo(m: u32, s: &mut u32) {
        *s += m;
    }

    fn zobrist_hash(s: &u32) -> u64 {
        *s as u64 + 1
    }

    fn clone_state(s: &u32) -> u32 {
        *s
    }

    fn same_move(a: &u32, b: &u32) -> bool {
        a == b
    }
}

struct NimEval;

impl Evaluator for NimEval {
    type G = Nim;

    fn evaluate(&self, _s: &u32) -> Evaluation {
        0
    }
}

#[test]
fn nim_is_solved() {
    for stones in 1..=14u32 {
        for strategy in [Replacement::Always, Replacement::DepthPreferred, Replacement::TwoTier] {
            for window in [None, Some(40)] {
                let mut opts = IterativeOptions::new()
                    .with_table_byte_size(1 << 12)
                    .with_replacement_strategy(strategy);
                if let Some(w) = window {
                    opts = opts.with_aspiration_window(w);
                }
                let mut search = IterativeSearch::new(NimEval, opts);
                search.set_max_depth(stones as usize);
                let best = search.choose_move(&stones, None).unwrap();
                if stones % 4 == 0 {
                    assert_eq!(search.root_value(), WORST_EVAL + 1);
                } else {
                    assert_eq!(search.root_value(), BEST_EVAL - 1);
                    assert_eq!(best, stones % 4);
                }
            }
        }
    }
}

#[test]
fn nim_is_played_to_the_end() {
    // The searcher keeps its table from move to move and wins from every
    // heap that can be won.
    for stones in [5u32, 6, 7, 9, 10, 11, 13] {
        let mut search =
            IterativeSearch::new(NimEval, IterativeOptions::new().with_table_byte_size(1 << 12));
        search.set_max_depth(stones as usize);
        let mut heap = stones;
        let mut mine = true;
        while heap > 0 {
            if mine {
                let take = search.choose_move(&heap, None).unwrap();
                assert_eq!(take, heap % 4);
                heap -= take;
            } else {
                heap -= 1;
            }
            mine = !mine;
        }
        assert!(!mine);
    }
}

#[test]
fn floored_is_no_less_than_the_floor() {
    assert_eq!(floored(5, 3), 5);
    assert_eq!(floored(3, 3), 3);
    assert_eq!(floored(-7, 3), 3);
    assert_eq!(floored(i32::MIN, WORST_EVAL), WORST_EVAL);
    assert_eq!(floored(i32::MAX, WORST_EVAL), i32::MAX);
}

#[test]
fn interrupted_search_leaves_the_position_as_it_was() {
    let mut rng = Rng(67);
    let mut tried = 0;
    while tried < 10 {
        let s0 = position(&random_tree(&mut rng, 5));
        if s0.tree[0].winner.is_some() || s0.tree[0].children.len() < 2 {
            continue;
        }
        tried += 1;
        // The flag goes up after a few leaves: in the middle of the search.
        let flag = Arc::new(AtomicBool::new(false));
        let eval = CountingEval { calls: Arc::new(AtomicUsize::new(0)), limit: 2, flag: flag.clone() };
        let table = TranspositionTable::new(1 << 16, Replacement::TwoTier);
        let mut n = Negamaxer::new(table, eval, 2, true);
        n.set_timeout(Some(flag.clone()));
        let mut s = s0.clone();
        let found = n.negamax(&mut s, 4, WORST_EVAL, BEST_EVAL);
        assert_eq!(s.path, vec![0]);
        if flag.load(Ordering::SeqCst) && found.is_none() {
            assert!(n.table.lookup(1).is_none());
        }
        let mut s = s0.clone();
        n.noisy_negamax(&mut s, 3, WORST_EVAL, BEST_EVAL);
        assert_eq!(s.path, vec![0]);
        n.aspiration_search(&mut s, 3, 0, 50);
        assert_eq!(s.path, vec![0]);
    }
}
