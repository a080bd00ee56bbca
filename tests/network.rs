use logic_gpu_particles::entry::{sort_by_key, Entry};
use logic_gpu_particles::network::{
    bitonic_sort, lanes_for, offsets_dispatch_size, pair_for_lane, run_step, sort_dispatch_size,
    sort_schedule, sort_step, stage_count, SortStep,
};
use rand::rngs::StdRng;
use rand::{Rng, SeedableRng};

fn step(s: u32, t: u32, w: u32, h: u32) -> SortStep {
    SortStep { stage_index: s, step_index: t, group_width: w, group_height: h }
}

#[test]
fn stage_count_is_log_of_padded_length() {
    assert_eq!(stage_count(0), 0);
    assert_eq!(stage_count(1), 0);
    assert_eq!(stage_count(2), 1);
    assert_eq!(stage_count(3), 2);
    assert_eq!(stage_count(4), 2);
    assert_eq!(stage_count(5), 3);
    assert_eq!(stage_count(1024), 10);
    assert_eq!(stage_count(1025), 11);
    assert_eq!(stage_count(u32::MAX), 32);
}

#[test]
fn schedule_for_eight_entries() {
    assert_eq!(
        sort_schedule(8),
        vec![
            step(0, 0, 1, 1),
            step(1, 0, 2, 3),
            step(1, 1, 1, 1),
            step(2, 0, 4, 7),
            step(2, 1, 2, 3),
            step(2, 2, 1, 1),
        ]
    );
    assert!(sort_schedule(1).is_empty());
    assert_eq!(sort_schedule(5).len(), 6);
    assert_eq!(sort_step(31, 0), step(31, 0, 1 << 31, u32::MAX));
}

#[test]
fn lanes_pair_mirrors_then_halves() {
    let first = step(1, 0, 2, 3);
    assert_eq!(pair_for_lane(0, first), (0, 3));
    assert_eq!(pair_for_lane(1, first), (1, 2));
    assert_eq!(pair_for_lane(2, first), (4, 7));
    assert_eq!(pair_for_lane(3, first), (5, 6));
    let later = step(2, 1, 2, 3);
    assert_eq!(pair_for_lane(0, later), (0, 2));
    assert_eq!(pair_for_lane(1, later), (1, 3));
    assert_eq!(pair_for_lane(2, later), (4, 6));
    let last = step(2, 2, 1, 1);
    assert_eq!(pair_for_lane(3, last), (6, 7));
}

#[test]
fn one_step_swaps_only_descending_pairs_in_range() {
    let mut entries = vec![
        Entry::new(0, 0, 4),
        Entry::new(1, 0, 3),
        Entry::new(2, 0, 1),
    ];
    // Lane 0 compares slots 0 and 1; lane 1 compares 2 and 3, which is past the end.
    run_step(&mut entries, step(0, 0, 1, 1), 2);
    let keys: Vec<u32> = entries.iter().map(|e| e.key).collect();
    assert_eq!(keys, vec![3, 4, 1]);
}

#[test]
fn lanes_and_dispatch_sizes() {
    assert_eq!(lanes_for(0), 0);
    assert_eq!(lanes_for(1), 0);
    assert_eq!(lanes_for(5), 4);
    assert_eq!(lanes_for(1000), 512);
    assert_eq!(sort_dispatch_size(0), 1);
    assert_eq!(sort_dispatch_size(1000), 2);
    assert_eq!(sort_dispatch_size(100_000), 256);
    assert_eq!(offsets_dispatch_size(0), 0);
    assert_eq!(offsets_dispatch_size(1000), 4);
    assert_eq!(offsets_dispatch_size(256), 1);
    assert_eq!(offsets_dispatch_size(u32::MAX), 16_777_216);
}

#[test]
fn network_matches_comparison_sort() {
    let mut rng = StdRng::seed_from_u64(7);
    for n in [0usize, 1, 2, 3, 5, 6, 7, 8, 9, 13, 31, 64, 100, 257, 1000] {
        for _ in 0..4 {
            let table: u32 = rng.gen_range(1..(n as u32 + 2));
            let entries: Vec<Entry> = (0..n as u32)
                .map(|i| {
                    let hash: u32 = rng.gen();
                    Entry::new(i, hash, hash % table)
                })
                .collect();
            let mut by_network = entries.clone();
            bitonic_sort(&mut by_network);
            let mut by_comparison = entries.clone();
            sort_by_key(&mut by_comparison);
            let keys_n: Vec<u32> = by_network.iter().map(|e| e.key).collect();
            let keys_c: Vec<u32> = by_comparison.iter().map(|e| e.key).collect();
            assert_eq!(keys_n, keys_c, "n = {}", n);
            let mut ids: Vec<u32> = by_network.iter().map(|e| e.original_index).collect();
            ids.sort();
            assert_eq!(ids, (0..n as u32).collect::<Vec<u32>>());
        }
    }
}

#[test]
fn network_sorts_descending_keys() {
    let mut entries: Vec<Entry> = (0..11u32).map(|i| Entry::new(i, 0, 10 - i)).collect();
    bitonic_sort(&mut entries);
    let keys: Vec<u32> = entries.iter().map(|e| e.key).collect();
    assert_eq!(keys, (0..11u32).collect::<Vec<u32>>());
}
