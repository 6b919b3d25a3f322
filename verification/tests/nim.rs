use minimax::nim::{best_take, best_take_in_parallel, Level, Nim};
use minimax::strategies::iterative::{IterativeOptions, IterativeSearch};
use minimax::strategies::ybw::{ParallelYbw, YbwOptions};
use minimax::{Evaluator, Game, Winner, BEST_EVAL, WORST_EVAL};

#[test]
fn nim_takes_are_one_to_three_stones() {
    let mut moves = vec![9u32];
    Nim::generate_moves(&0, &mut moves);
    assert_eq!(moves, vec![9]);
    Nim::generate_moves(&1, &mut moves);
    assert_eq!(moves, vec![9, 1]);
    moves.clear();
    Nim::generate_moves(&2, &mut moves);
    assert_eq!(moves, vec![1, 2]);
    moves.clear();
    Nim::generate_moves(&3, &mut moves);
    assert_eq!(moves, vec![1, 2, 3]);
    moves.clear();
    Nim::generate_moves(&u32::MAX, &mut moves);
    assert_eq!(moves, vec![1, 2, 3]);
    moves.clear();
    Nim::generate_noisy_moves(&7, &mut moves);
    assert!(moves.is_empty());
}

#[test]
fn nim_moves_are_taken_back() {
    let mut heap = 10u32;
    Nim::apply(3, &mut heap);
    assert_eq!(heap, 7);
    assert_eq!(Nim::clone_state(&heap), 7);
    Nim::apply(1, &mut heap);
    assert_eq!(heap, 6);
    Nim::undo(1, &mut heap);
    Nim::undo(3, &mut heap);
    assert_eq!(heap, 10);
    let mut top = u32::MAX;
    Nim::apply(2, &mut top);
    Nim::undo(2, &mut top);
    assert_eq!(top, u32::MAX);
    assert!(Nim::same_move(&2, &2));
    assert!(!Nim::same_move(&2, &3));
}

#[test]
fn nim_ends_with_the_last_stone() {
    assert_eq!(Nim::get_winner(&0), Some(Winner::PlayerJustMoved));
    assert_eq!(Nim::get_winner(&1), None);
    assert_eq!(Nim::get_winner(&u32::MAX), None);
    assert_eq!(Nim::zobrist_hash(&0), 1);
    assert_eq!(Nim::zobrist_hash(&u32::MAX), 1 << 32);
    assert_eq!(Level.evaluate(&5), 0);
}

#[test]
fn best_take_leaves_a_multiple_of_four() {
    assert_eq!(best_take(0), None);
    for heap in (1..=24u32).chain([31, 32]) {
        let take = best_take(heap).unwrap();
        assert!(1 <= take && take <= 3 && take <= heap);
        if heap % 4 != 0 {
            assert_eq!(take, heap % 4);
        }
    }
}

#[test]
fn searchers_agree_with_theory_on_nim() {
    for heap in 1..24u32 {
        let value = if heap % 4 == 0 { WORST_EVAL + 1 } else { BEST_EVAL - 1 };
        let mut serial =
            IterativeSearch::new(Level, IterativeOptions::new().with_table_byte_size(1 << 14));
        serial.set_max_depth(heap as usize);
        let best = serial.choose_move(&heap, None);
        assert_eq!(serial.root_value(), value);
        let mut parallel =
            ParallelYbw::new(Level, YbwOptions::new().with_table_byte_size(1 << 14));
        parallel.set_max_depth(heap as usize);
        assert_eq!(parallel.choose_move(&heap, None), best);
        assert_eq!(parallel.root_value(), value);
    }
}

#[test]
fn best_take_in_parallel_leaves_a_multiple_of_four() {
    assert_eq!(best_take_in_parallel(0), None);
    for heap in 1..=20u32 {
        let take = best_take_in_parallel(heap).unwrap();
        assert!(1 <= take && take <= 3 && take <= heap);
        if heap % 4 != 0 {
            assert_eq!(take, heap % 4);
        }
    }
}
