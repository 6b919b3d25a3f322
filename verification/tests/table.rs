use minimax::strategies::iterative::Replacement;
use minimax::strategies::table::{
    bound_flag, least_power_of_two, probe_entry, ConcurrentTable, Entry, EntryFlag,
    TranspositionTable,
};
use minimax::{BEST_EVAL, WORST_EVAL};
use rayon::iter::{IntoParallelIterator, ParallelIterator};

// Two fingerprints this far apart fall on the same slot of every table
// small enough to be built here.
const FAR: u64 = 1 << 40;

fn fields(e: &Entry<u32>) -> (u64, i32, u8, EntryFlag, u8, Option<u32>) {
    (e.hash, e.value, e.depth, e.flag, e.generation, e.best_move)
}

#[test]
fn least_power_of_two_rounds_up() {
    assert_eq!(least_power_of_two(0), 1);
    assert_eq!(least_power_of_two(1), 1);
    assert_eq!(least_power_of_two(2), 2);
    assert_eq!(least_power_of_two(3), 4);
    assert_eq!(least_power_of_two(4), 4);
    assert_eq!(least_power_of_two(5), 8);
    assert_eq!(least_power_of_two(1000), 1024);
    assert_eq!(least_power_of_two(1025), 2048);
}

#[test]
fn lookup_in_an_empty_table_finds_nothing() {
    for strategy in [Replacement::Always, Replacement::DepthPreferred, Replacement::TwoTier] {
        let table = TranspositionTable::<u32>::new(10_000, strategy);
        assert!(table.lookup(17).is_none());
        assert!(table.lookup(17 + FAR).is_none());
        assert!(table.lookup(u64::MAX).is_none());
    }
}

#[test]
fn store_then_lookup_returns_what_was_stored() {
    for strategy in [Replacement::Always, Replacement::DepthPreferred, Replacement::TwoTier] {
        let mut table = TranspositionTable::<u32>::new(10_000, strategy);
        table.advance_generation();
        table.advance_generation();
        table.store(0xDEAD_BEEF_0123_4567, -42, 9, EntryFlag::Lowerbound, 77);
        let entry = table.lookup(0xDEAD_BEEF_0123_4567).unwrap();
        assert_eq!(
            fields(&entry),
            (0xDEAD_BEEF_0123_4567, -42, 9, EntryFlag::Lowerbound, 2, Some(77))
        );
    }
}

#[test]
fn lookup_compares_the_whole_fingerprint() {
    for strategy in [Replacement::Always, Replacement::DepthPreferred, Replacement::TwoTier] {
        let mut table = TranspositionTable::<u32>::new(10_000, strategy);
        table.store(5, 1, 1, EntryFlag::Exact, 1);
        assert!(table.lookup(5).is_some());
        assert!(table.lookup(5 + FAR).is_none());
        assert!(table.lookup(5 + (1 << 63)).is_none());
    }
}

#[test]
fn the_smallest_tables_work() {
    for strategy in [Replacement::Always, Replacement::DepthPreferred, Replacement::TwoTier] {
        let mut table = TranspositionTable::<u32>::new(0, strategy);
        table.store(3, 10, 5, EntryFlag::Exact, 1);
        assert_eq!(table.lookup(3).unwrap().value, 10);
        table.store(4, 11, 3, EntryFlag::Exact, 2);
        table.store(5, 12, 7, EntryFlag::Exact, 3);
        assert_eq!(table.lookup(5).unwrap().value, 12);
        assert!(table.lookup(3).is_none());
    }
}

#[test]
fn always_overwrites_unconditionally() {
    let mut table = TranspositionTable::<u32>::new(10_000, Replacement::Always);
    table.store(9, 100, 5, EntryFlag::Exact, 1);
    table.store(9 + FAR, 200, 3, EntryFlag::Upperbound, 2);
    assert!(table.lookup(9).is_none());
    let entry = table.lookup(9 + FAR).unwrap();
    assert_eq!(fields(&entry), (9 + FAR, 200, 3, EntryFlag::Upperbound, 0, Some(2)));
    table.store(9, 300, 0, EntryFlag::Lowerbound, 3);
    assert!(table.lookup(9 + FAR).is_none());
    assert_eq!(table.lookup(9).unwrap().value, 300);
}

#[test]
fn depth_preferred_keeps_the_deeper_entry_of_a_generation() {
    let mut table = TranspositionTable::<u32>::new(10_000, Replacement::DepthPreferred);
    table.store(9, 100, 5, EntryFlag::Exact, 1);
    table.store(9 + FAR, 200, 3, EntryFlag::Exact, 2);
    let kept = table.lookup(9).unwrap();
    assert_eq!(fields(&kept), (9, 100, 5, EntryFlag::Exact, 0, Some(1)));
    assert!(table.lookup(9 + FAR).is_none());
}

#[test]
fn depth_preferred_replaces_an_entry_of_equal_or_lesser_depth() {
    let mut table = TranspositionTable::<u32>::new(10_000, Replacement::DepthPreferred);
    table.store(9, 100, 5, EntryFlag::Exact, 1);
    table.store(9 + FAR, 200, 5, EntryFlag::Exact, 2);
    assert!(table.lookup(9).is_none());
    assert_eq!(table.lookup(9 + FAR).unwrap().value, 200);
    table.store(9, 300, 6, EntryFlag::Exact, 3);
    assert_eq!(table.lookup(9).unwrap().value, 300);
}

#[test]
fn depth_preferred_overwrites_after_advance_generation() {
    let mut table = TranspositionTable::<u32>::new(10_000, Replacement::DepthPreferred);
    table.store(9, 100, 5, EntryFlag::Exact, 1);
    table.advance_generation();
    table.store(9 + FAR, 200, 3, EntryFlag::Exact, 2);
    assert!(table.lookup(9).is_none());
    let entry = table.lookup(9 + FAR).unwrap();
    assert_eq!(fields(&entry), (9 + FAR, 200, 3, EntryFlag::Exact, 1, Some(2)));
}

#[test]
fn generation_wraps_around_after_256_advances() {
    let mut table = TranspositionTable::<u32>::new(10_000, Replacement::DepthPreferred);
    table.store(9, 100, 5, EntryFlag::Exact, 1);
    for _ in 0..255 {
        table.advance_generation();
    }
    // One short of the wrap: the old entry is stale and gives way.
    table.store(11, 1, 0, EntryFlag::Exact, 4);
    assert_eq!(table.lookup(11).unwrap().generation, 255);
    table.advance_generation();
    // Wrapped: what was written 256 generations ago passes for current.
    table.store(9 + FAR, 200, 3, EntryFlag::Exact, 2);
    assert_eq!(table.lookup(9).unwrap().value, 100);
    assert!(table.lookup(9 + FAR).is_none());
    table.store(9 + FAR, 200, 5, EntryFlag::Exact, 2);
    let entry = table.lookup(9 + FAR).unwrap();
    assert_eq!(entry.generation, 0);
    assert_eq!(entry.value, 200);
}

#[test]
fn two_tier_fills_the_second_slot_of_the_pair() {
    let mut table = TranspositionTable::<u32>::new(10_000, Replacement::TwoTier);
    table.store(8, 100, 5, EntryFlag::Exact, 1);
    table.store(8 + FAR, 200, 3, EntryFlag::Lowerbound, 2);
    let first = table.lookup(8).unwrap();
    let second = table.lookup(8 + FAR).unwrap();
    assert_eq!(fields(&first), (8, 100, 5, EntryFlag::Exact, 0, Some(1)));
    assert_eq!(fields(&second), (8 + FAR, 200, 3, EntryFlag::Lowerbound, 0, Some(2)));
    table.store(8 + 2 * FAR, 300, 7, EntryFlag::Upperbound, 3);
    let third = table.lookup(8 + 2 * FAR).unwrap();
    assert_eq!(fields(&third), (8 + 2 * FAR, 300, 7, EntryFlag::Upperbound, 0, Some(3)));
    assert!(table.lookup(8).is_none());
    assert_eq!(table.lookup(8 + FAR).unwrap().value, 200);
}

#[test]
fn two_tier_pairs_an_odd_fingerprint_with_its_even_neighbour() {
    let mut table = TranspositionTable::<u32>::new(10_000, Replacement::TwoTier);
    table.store(8, 100, 5, EntryFlag::Exact, 1);
    table.store(9, 200, 3, EntryFlag::Exact, 2);
    assert_eq!(table.lookup(8).unwrap().value, 100);
    assert_eq!(table.lookup(9).unwrap().value, 200);
    table.store(9, 300, 2, EntryFlag::Exact, 3);
    assert_eq!(table.lookup(8).unwrap().value, 100);
    assert_eq!(table.lookup(9).unwrap().value, 300);
    // Neither reaches into the next pair.
    table.store(10, 400, 1, EntryFlag::Exact, 4);
    assert_eq!(table.lookup(10).unwrap().value, 400);
    assert_eq!(table.lookup(9).unwrap().value, 300);
}

#[test]
fn two_tier_first_slot_yields_after_advance_generation() {
    let mut table = TranspositionTable::<u32>::new(10_000, Replacement::TwoTier);
    table.store(8, 100, 5, EntryFlag::Exact, 1);
    table.advance_generation();
    table.store(8 + FAR, 200, 3, EntryFlag::Exact, 2);
    assert!(table.lookup(8).is_none());
    assert_eq!(table.lookup(8 + FAR).unwrap().generation, 1);
}

#[test]
fn bound_flag_classifies_by_the_window() {
    assert_eq!(bound_flag(-10, 10, -10), EntryFlag::Upperbound);
    assert_eq!(bound_flag(-10, 10, -11), EntryFlag::Upperbound);
    assert_eq!(bound_flag(-10, 10, 10), EntryFlag::Lowerbound);
    assert_eq!(bound_flag(-10, 10, 11), EntryFlag::Lowerbound);
    assert_eq!(bound_flag(-10, 10, 0), EntryFlag::Exact);
    assert_eq!(bound_flag(-10, 10, -9), EntryFlag::Exact);
    assert_eq!(bound_flag(-10, 10, 9), EntryFlag::Exact);
    // An empty window: the upper bound is tested first.
    assert_eq!(bound_flag(5, 5, 5), EntryFlag::Upperbound);
}

#[test]
fn update_stores_the_flag_of_the_result() {
    let mut table = TranspositionTable::<u32>::new(10_000, Replacement::Always);
    table.update(1, -10, 10, 4, -20, 7);
    assert_eq!(fields(&table.lookup(1).unwrap()), (1, -20, 4, EntryFlag::Upperbound, 0, Some(7)));
    table.update(2, -10, 10, 4, 20, 8);
    assert_eq!(fields(&table.lookup(2).unwrap()), (2, 20, 4, EntryFlag::Lowerbound, 0, Some(8)));
    table.update(3, -10, 10, 4, 3, 9);
    assert_eq!(fields(&table.lookup(3).unwrap()), (3, 3, 4, EntryFlag::Exact, 0, Some(9)));
}

fn entry(value: i32, depth: u8, flag: EntryFlag, best_move: u32) -> Option<Entry<u32>> {
    Some(Entry { hash: 1, value, depth, flag, generation: 0, best_move: Some(best_move) })
}

#[test]
fn probe_without_an_entry_changes_nothing() {
    let (mut good, mut alpha, mut beta) = (Some(5u32), -3, 4);
    assert_eq!(probe_entry(None, 2, &mut good, &mut alpha, &mut beta), None);
    assert_eq!((good, alpha, beta), (Some(5), -3, 4));
}

#[test]
fn probe_of_a_shallow_entry_gives_only_the_move() {
    let (mut good, mut alpha, mut beta) = (None, -3, 4);
    let found = entry(100, 2, EntryFlag::Exact, 6);
    assert_eq!(probe_entry(found, 3, &mut good, &mut alpha, &mut beta), None);
    assert_eq!((good, alpha, beta), (Some(6), -3, 4));
}

#[test]
fn probe_of_an_exact_entry_returns_its_value() {
    let (mut good, mut alpha, mut beta) = (None, -3, 4);
    let found = entry(100, 3, EntryFlag::Exact, 6);
    assert_eq!(probe_entry(found, 3, &mut good, &mut alpha, &mut beta), Some(100));
    assert_eq!((good, alpha, beta), (Some(6), -3, 4));
}

#[test]
fn probe_of_a_lower_bound_raises_alpha() {
    let (mut good, mut alpha, mut beta) = (None, -3, 4);
    let found = entry(2, 5, EntryFlag::Lowerbound, 6);
    assert_eq!(probe_entry(found, 3, &mut good, &mut alpha, &mut beta), None);
    assert_eq!((good, alpha, beta), (Some(6), 2, 4));

    let (mut good, mut alpha, mut beta) = (None, -3, 4);
    let found = entry(-5, 5, EntryFlag::Lowerbound, 6);
    assert_eq!(probe_entry(found, 3, &mut good, &mut alpha, &mut beta), None);
    assert_eq!((good, alpha, beta), (Some(6), -3, 4));

    let (mut good, mut alpha, mut beta) = (None, -3, 4);
    let found = entry(4, 5, EntryFlag::Lowerbound, 6);
    assert_eq!(probe_entry(found, 3, &mut good, &mut alpha, &mut beta), Some(4));
    assert_eq!((good, alpha, beta), (Some(6), 4, 4));

    let (mut good, mut alpha, mut beta) = (None, -3, 4);
    let found = entry(9, 5, EntryFlag::Lowerbound, 6);
    assert_eq!(probe_entry(found, 3, &mut good, &mut alpha, &mut beta), Some(9));
    assert_eq!((good, alpha, beta), (Some(6), 9, 4));
}

#[test]
fn probe_of_an_upper_bound_lowers_beta() {
    let (mut good, mut alpha, mut beta) = (None, -3, 4);
    let found = entry(2, 5, EntryFlag::Upperbound, 6);
    assert_eq!(probe_entry(found, 3, &mut good, &mut alpha, &mut beta), None);
    assert_eq!((good, alpha, beta), (Some(6), -3, 2));

    let (mut good, mut alpha, mut beta) = (None, -3, 4);
    let found = entry(7, 5, EntryFlag::Upperbound, 6);
    assert_eq!(probe_entry(found, 3, &mut good, &mut alpha, &mut beta), None);
    assert_eq!((good, alpha, beta), (Some(6), -3, 4));

    let (mut good, mut alpha, mut beta) = (None, -3, 4);
    let found = entry(-3, 5, EntryFlag::Upperbound, 6);
    assert_eq!(probe_entry(found, 3, &mut good, &mut alpha, &mut beta), Some(-3));
    assert_eq!((good, alpha, beta), (Some(6), -3, -3));

    let (mut good, mut alpha, mut beta) = (None, -3, 4);
    let found = entry(-8, 5, EntryFlag::Upperbound, 6);
    assert_eq!(probe_entry(found, 3, &mut good, &mut alpha, &mut beta), Some(-8));
    assert_eq!((good, alpha, beta), (Some(6), -3, -8));
}

#[test]
fn check_probes_what_the_table_holds() {
    let mut table = TranspositionTable::<u32>::new(10_000, Replacement::TwoTier);
    table.store(1, 2, 5, EntryFlag::Lowerbound, 6);
    let (mut good, mut alpha, mut beta) = (None, -3, 4);
    assert_eq!(table.check(1, 3, &mut good, &mut alpha, &mut beta), None);
    assert_eq!((good, alpha, beta), (Some(6), 2, 4));
    let (mut good, mut alpha, mut beta) = (None, -3, 4);
    assert_eq!(table.check(2, 3, &mut good, &mut alpha, &mut beta), None);
    assert_eq!((good, alpha, beta), (None, -3, 4));
    table.store(2, BEST_EVAL, 3, EntryFlag::Exact, 1);
    assert_eq!(table.check(2, 3, &mut good, &mut alpha, &mut beta), Some(BEST_EVAL));
    table.store(3, WORST_EVAL, 3, EntryFlag::Exact, 1);
    assert_eq!(table.check(3, 3, &mut good, &mut alpha, &mut beta), Some(WORST_EVAL));
}

#[test]
fn concurrent_table_stores_and_finds() {
    let mut table = ConcurrentTable::<u32>::new(10_000);
    assert!(table.lookup(8).is_none());
    table.concurrent_update(8, -10, 10, 5, 3, 1);
    let first = table.lookup(8).unwrap();
    assert_eq!(fields(&first), (8, 3, 5, EntryFlag::Exact, 0, Some(1)));
    table.concurrent_update(8 + FAR, -10, 10, 3, 20, 2);
    let second = table.lookup(8 + FAR).unwrap();
    assert_eq!(fields(&second), (8 + FAR, 20, 3, EntryFlag::Lowerbound, 0, Some(2)));
    assert_eq!(table.lookup(8).unwrap().value, 3);
    table.advance_generation();
    table.concurrent_update(8 + 2 * FAR, -10, 10, 1, -20, 3);
    let third = table.lookup(8 + 2 * FAR).unwrap();
    assert_eq!(fields(&third), (8 + 2 * FAR, -20, 1, EntryFlag::Upperbound, 1, Some(3)));
    assert!(table.lookup(8).is_none());
    let (mut good, mut alpha, mut beta) = (None, -30, 40);
    assert_eq!(table.check(8 + FAR, 3, &mut good, &mut alpha, &mut beta), None);
    assert_eq!((good, alpha, beta), (Some(2), 20, 40));
}

#[test]
fn concurrent_table_never_returns_a_torn_entry() {
    // Each store writes a value, depth and move that all derive from one
    // number; a reader must never see fields of two different stores.
    let table = ConcurrentTable::<u32>::new(4096);
    let total: u32 = (0..8u32)
        .into_par_iter()
        .map(|t| {
            let mut seen = 0u32;
            for round in 0..20_000u32 {
                let n = round.wrapping_mul(2_654_435_761).wrapping_add(t) % 1000;
                let hash = 64 + (n % 8) as u64 * FAR;
                table.concurrent_update(
                    hash,
                    -1_000_000,
                    1_000_000,
                    (n % 200) as u8,
                    n as i32,
                    n * 3 + 1,
                );
                let probe = 64 + ((n + 3) % 8) as u64 * FAR;
                if let Some(e) = table.lookup(probe) {
                    assert_eq!(e.hash, probe);
                    let v = e.value as u32;
                    assert_eq!(e.depth, (v % 200) as u8);
                    assert_eq!(e.best_move, Some(v * 3 + 1));
                    assert_eq!(e.flag, EntryFlag::Exact);
                    assert_eq!((probe - 64) / FAR, (v % 8) as u64);
                    seen += 1;
                }
            }
            seen
        })
        .sum();
    assert!(total > 0);
}

#[test]
fn capacity_is_the_least_power_of_two_that_holds_the_entries() {
    let per_entry = std::mem::size_of::<Entry<u32>>();
    assert!(per_entry >= 16);
    for strategy in [Replacement::Always, Replacement::DepthPreferred, Replacement::TwoTier] {
        let floor = if strategy == Replacement::TwoTier { 2 } else { 1 };
        assert_eq!(TranspositionTable::<u32>::new(0, strategy).capacity(), floor);
        assert_eq!(TranspositionTable::<u32>::new(per_entry - 1, strategy).capacity(), floor);
        assert_eq!(TranspositionTable::<u32>::new(per_entry, strategy).capacity(), floor);
        assert_eq!(TranspositionTable::<u32>::new(2 * per_entry, strategy).capacity(), 2);
        assert_eq!(TranspositionTable::<u32>::new(3 * per_entry, strategy).capacity(), 4);
        assert_eq!(TranspositionTable::<u32>::new(4 * per_entry, strategy).capacity(), 4);
        assert_eq!(TranspositionTable::<u32>::new(5 * per_entry - 1, strategy).capacity(), 4);
        assert_eq!(TranspositionTable::<u32>::new(5 * per_entry, strategy).capacity(), 8);
        assert_eq!(TranspositionTable::<u32>::new(1000 * per_entry, strategy).capacity(), 1024);
        assert_eq!(TranspositionTable::<u32>::new(1025 * per_entry, strategy).capacity(), 2048);
    }
    assert_eq!(ConcurrentTable::<u32>::new(0).slots(), 2);
    assert_eq!(ConcurrentTable::<u32>::new(1000 * per_entry).slots(), 1024);
}

#[test]
fn index_is_the_fingerprint_under_the_mask() {
    // Sixteen slots: the low four bits of the fingerprint choose the slot.
    let per_entry = std::mem::size_of::<Entry<u32>>();
    let mut table = TranspositionTable::<u32>::new(16 * per_entry, Replacement::Always);
    assert_eq!(table.capacity(), 16);
    table.store(0x35, 1, 1, EntryFlag::Exact, 1);
    table.store(0x46, 2, 1, EntryFlag::Exact, 2);
    assert_eq!(table.lookup(0x35).unwrap().value, 1);
    assert_eq!(table.lookup(0x46).unwrap().value, 2);
    table.store(0x75, 3, 1, EntryFlag::Exact, 3);
    assert!(table.lookup(0x35).is_none());
    assert_eq!(table.lookup(0x75).unwrap().value, 3);
    assert_eq!(table.lookup(0x46).unwrap().value, 2);
    // In pairs, the low bit is masked off as well.
    let mut pairs = TranspositionTable::<u32>::new(16 * per_entry, Replacement::TwoTier);
    pairs.store(0x34, 1, 9, EntryFlag::Exact, 1);
    pairs.store(0x35, 2, 1, EntryFlag::Exact, 2);
    pairs.store(0x74, 3, 1, EntryFlag::Exact, 3);
    assert_eq!(pairs.lookup(0x34).unwrap().value, 1);
    assert!(pairs.lookup(0x35).is_none());
    assert_eq!(pairs.lookup(0x74).unwrap().value, 3);
}

#[test]
fn set_generation_moves_the_stamp() {
    let mut table = TranspositionTable::<u32>::new(10_000, Replacement::DepthPreferred);
    assert_eq!(table.generation(), 0);
    table.set_generation(7);
    assert_eq!(table.generation(), 7);
    table.store(9, 100, 5, EntryFlag::Exact, 1);
    assert_eq!(table.lookup(9).unwrap().generation, 7);
    table.advance_generation();
    assert_eq!(table.generation(), 8);
    table.set_generation(255);
    table.advance_generation();
    assert_eq!(table.generation(), 0);
}

#[test]
fn concurrent_generation_wraps_around() {
    let mut table = ConcurrentTable::<u32>::new(10_000);
    assert_eq!(table.current_generation(), 0);
    for _ in 0..255 {
        table.advance_generation();
    }
    assert_eq!(table.current_generation(), 255);
    table.concurrent_update(8, -10, 10, 5, 3, 1);
    assert_eq!(table.lookup(8).unwrap().generation, 255);
    table.advance_generation();
    assert_eq!(table.current_generation(), 0);
    table.concurrent_update(8 + FAR, -10, 10, 3, 4, 2);
    assert!(table.lookup(8).is_none());
    assert_eq!(table.lookup(8 + FAR).unwrap().generation, 0);
}

#[test]
fn entry_is_copied_out() {
    let mut table = TranspositionTable::<u32>::new(10_000, Replacement::Always);
    table.store(9, 100, 5, EntryFlag::Exact, 1);
    let mut copy = table.lookup(9).unwrap();
    copy.value = 7;
    let again = copy.clone();
    assert_eq!(again.value, 7);
    assert_eq!(table.lookup(9).unwrap().value, 100);
}
