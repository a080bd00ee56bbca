use logic_gpu_particles::entry::{build_entries, sort_by_key, Entry};
use logic_gpu_particles::error::SimError;
use logic_gpu_particles::grid::{hash_cell, Point};
use logic_gpu_particles::index::{compute_start_offsets, NeighborIndex, SortStrategy, NO_ENTRIES};
use logic_gpu_particles::query::SelfPairs;

fn sorted(mut v: Vec<u32>) -> Vec<u32> {
    v.sort();
    v
}

#[test]
fn entries_record_index_hash_and_key() {
    let cells = vec![Point(0, 0), Point(1, 0), Point(0, 1)];
    let entries = build_entries(&cells, 10);
    assert_eq!(
        entries,
        vec![
            Entry::new(0, 0, 0),
            Entry::new(1, 15823, 3),
            Entry::new(2, 9737333, 3),
        ]
    );
}

#[test]
fn sort_orders_by_key_and_keeps_ties_in_order() {
    let mut entries = vec![
        Entry::new(0, 5, 3),
        Entry::new(1, 7, 1),
        Entry::new(2, 9, 3),
        Entry::new(3, 2, 0),
        Entry::new(4, 8, 1),
    ];
    sort_by_key(&mut entries);
    let order: Vec<u32> = entries.iter().map(|e| e.original_index).collect();
    assert_eq!(order, vec![3, 1, 4, 0, 2]);
}

#[test]
fn sort_of_empty_and_single() {
    let mut none: Vec<Entry> = Vec::new();
    sort_by_key(&mut none);
    assert!(none.is_empty());
    let mut one = vec![Entry::new(0, 1, 1)];
    sort_by_key(&mut one);
    assert_eq!(one, vec![Entry::new(0, 1, 1)]);
}

#[test]
fn offsets_point_at_first_of_each_run() {
    let entries = vec![
        Entry::new(3, 0, 0),
        Entry::new(1, 4, 0),
        Entry::new(0, 2, 2),
        Entry::new(2, 6, 2),
        Entry::new(4, 3, 3),
    ];
    let offsets = compute_start_offsets(&entries, 5);
    assert_eq!(offsets, vec![0, NO_ENTRIES, 2, 4, NO_ENTRIES]);
}

#[test]
fn build_refuses_zero_table() {
    let cells = vec![Point(0, 0)];
    assert!(matches!(NeighborIndex::build(&cells, 0), Err(SimError::IndexBuildFailure)));
}

#[test]
fn empty_index_has_no_candidates() {
    let cells: Vec<Point<i32>> = Vec::new();
    let ix = NeighborIndex::build(&cells, 1).unwrap();
    assert!(ix.entries.is_empty());
    assert_eq!(ix.start_offsets, vec![NO_ENTRIES]);
    assert!(ix.neighbor_candidates(Point(0, 0), 0, SelfPairs::Include).is_empty());
}

#[test]
fn particles_in_one_cell_share_a_run() {
    let cells = vec![Point(2, 2), Point(0, 0), Point(2, 2), Point(5, 1), Point(2, 2)];
    let ix = NeighborIndex::build(&cells, 5).unwrap();
    let key = hash_cell(Point(2, 2)) % 5;
    let positions: Vec<usize> = ix
        .entries
        .iter()
        .enumerate()
        .filter(|(_, e)| [0u32, 2, 4].contains(&e.original_index))
        .map(|(p, _)| p)
        .collect();
    assert_eq!(positions.len(), 3);
    let (lo, hi) = (positions[0], positions[2]);
    for p in lo..=hi {
        assert_eq!(ix.entries[p].key, key);
    }
}

#[test]
fn scan_from_offset_yields_the_particles_of_a_key() {
    let cells = vec![
        Point(0, 0),
        Point(4, 0),
        Point(1, 1),
        Point(0, 0),
        Point(-3, 2),
        Point(9, 9),
    ];
    let table = 4u32;
    let ix = NeighborIndex::build(&cells, table).unwrap();
    for k in 0..table {
        let start = ix.start_offsets[k as usize];
        let mut scanned = Vec::new();
        if start != NO_ENTRIES {
            let mut p = start as usize;
            while p < ix.entries.len() && ix.entries[p].key == k {
                scanned.push(ix.entries[p].original_index);
                p += 1;
            }
        }
        let expected: Vec<u32> = (0..cells.len() as u32)
            .filter(|&i| hash_cell(cells[i as usize]) % table == k)
            .collect();
        assert_eq!(sorted(scanned), expected);
    }
}

#[test]
fn colliding_cells_are_told_apart_by_hash() {
    // (0, 0) and (4, 0) hash to 0 and 4 * 15823, both 0 modulo 4.
    let table = 4u32;
    assert_eq!(hash_cell(Point(0, 0)) % table, hash_cell(Point(4, 0)) % table);
    assert_ne!(hash_cell(Point(0, 0)), hash_cell(Point(4, 0)));
    let cells = vec![Point(0, 0), Point(4, 0)];
    let ix = NeighborIndex::build(&cells, table).unwrap();
    assert_eq!(ix.entries[0].key, ix.entries[1].key);
    let near_origin = ix.neighbor_candidates(Point(0, 0), 0, SelfPairs::Include);
    assert_eq!(near_origin, vec![0]);
    let near_far = ix.neighbor_candidates(Point(4, 0), 1, SelfPairs::Include);
    assert_eq!(near_far, vec![1]);
}

#[test]
fn four_particle_scenario_groups_neighbours() {
    // Positions (0,0), (1,0), (20,20), (21,20) with a radius of 10.
    let cells = vec![Point(0, 0), Point(0, 0), Point(2, 2), Point(2, 2)];
    let ix = NeighborIndex::build(&cells, 4).unwrap();
    assert_eq!(sorted(ix.neighbor_candidates(Point(0, 0), 0, SelfPairs::Include)), vec![0, 1]);
    assert_eq!(sorted(ix.neighbor_candidates(Point(0, 0), 1, SelfPairs::Include)), vec![0, 1]);
    assert_eq!(sorted(ix.neighbor_candidates(Point(2, 2), 2, SelfPairs::Include)), vec![2, 3]);
    assert_eq!(sorted(ix.neighbor_candidates(Point(2, 2), 3, SelfPairs::Include)), vec![2, 3]);
}

#[test]
fn self_pairs_policy_excludes_only_the_particle_itself() {
    let cells = vec![Point(0, 0), Point(0, 0), Point(1, 0)];
    let ix = NeighborIndex::build(&cells, 3).unwrap();
    assert_eq!(sorted(ix.neighbor_candidates(Point(0, 0), 0, SelfPairs::Include)), vec![0, 1, 2]);
    assert_eq!(sorted(ix.neighbor_candidates(Point(0, 0), 0, SelfPairs::Exclude)), vec![1, 2]);
}

#[test]
fn neighbourhood_reaches_diagonals_but_not_further() {
    let cells = vec![Point(5, 5), Point(6, 6), Point(4, 4), Point(7, 5), Point(5, 3)];
    let ix = NeighborIndex::build(&cells, 5).unwrap();
    assert_eq!(sorted(ix.neighbor_candidates(Point(5, 5), 0, SelfPairs::Exclude)), vec![1, 2]);
}

#[test]
fn candidates_come_cell_by_cell_in_offset_order() {
    // Cell (0, 1) is the second cell of the block around (0, 0), (1, -1) the last.
    let cells = vec![Point(1, -1), Point(0, 1), Point(0, 0)];
    let ix = NeighborIndex::build(&cells, 3).unwrap();
    assert_eq!(ix.neighbor_candidates(Point(0, 0), 2, SelfPairs::Include), vec![1, 2, 0]);
}

#[test]
fn network_strategy_builds_the_same_index() {
    let cells = vec![
        Point(3, 1),
        Point(0, 0),
        Point(4, 0),
        Point(1, 1),
        Point(0, 0),
        Point(-2, 7),
        Point(3, 1),
    ];
    let by_sort = NeighborIndex::build_with(&cells, 5, SortStrategy::Comparison).unwrap();
    let by_network = NeighborIndex::build_with(&cells, 5, SortStrategy::Network).unwrap();
    let keys_s: Vec<u32> = by_sort.entries.iter().map(|e| e.key).collect();
    let keys_n: Vec<u32> = by_network.entries.iter().map(|e| e.key).collect();
    assert_eq!(keys_s, keys_n);
    assert_eq!(by_sort.start_offsets, by_network.start_offsets);
    for (i, cell) in cells.iter().enumerate() {
        assert_eq!(
            sorted(by_sort.neighbor_candidates(*cell, i as u32, SelfPairs::Include)),
            sorted(by_network.neighbor_candidates(*cell, i as u32, SelfPairs::Include))
        );
    }
    assert!(matches!(
        NeighborIndex::build_with(&cells, 0, SortStrategy::Network),
        Err(SimError::IndexBuildFailure)
    ));
}
