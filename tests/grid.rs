use logic_gpu_particles::grid::{
    add_offset, hash_cell, key_of, neighbor_offset_at, Point, HASH_K1, HASH_K2, NEIGHBORHOOD_SIZE,
};

#[test]
fn hash_of_origin_is_zero() {
    assert_eq!(hash_cell(Point(0, 0)), 0);
}

#[test]
fn hash_weights_each_coordinate() {
    assert_eq!(hash_cell(Point(1, 0)), HASH_K1);
    assert_eq!(hash_cell(Point(0, 1)), HASH_K2);
    assert_eq!(hash_cell(Point(1, 1)), 15823 + 9737333);
    assert_eq!(hash_cell(Point(3, 2)), 3 * 15823 + 2 * 9737333);
}

#[test]
fn hash_wraps_for_negative_and_large_cells() {
    assert_eq!(hash_cell(Point(-1, 0)), 0u32.wrapping_sub(15823));
    assert_eq!(hash_cell(Point(0, -1)), 0u32.wrapping_sub(9737333));
    assert_eq!(hash_cell(Point(1000, 1000)), 1000u32.wrapping_mul(15823 + 9737333));
    assert_eq!(
        hash_cell(Point(i32::MAX, i32::MIN)),
        (i32::MAX as u32)
            .wrapping_mul(15823)
            .wrapping_add((i32::MIN as u32).wrapping_mul(9737333))
    );
}

#[test]
fn same_cell_same_hash() {
    let a = Point(7, -3);
    let b = Point(7, -3);
    assert_eq!(hash_cell(a), hash_cell(b));
}

#[test]
fn key_is_hash_modulo_table() {
    assert_eq!(key_of(15823, 10), 3);
    assert_eq!(key_of(0, 1), 0);
    assert_eq!(key_of(u32::MAX, 7), u32::MAX % 7);
}

#[test]
fn neighbor_offsets_in_row_order() {
    let expected = [
        (-1, 1),
        (0, 1),
        (1, 1),
        (-1, 0),
        (0, 0),
        (1, 0),
        (-1, -1),
        (0, -1),
        (1, -1),
    ];
    assert_eq!(NEIGHBORHOOD_SIZE, 9);
    for (i, (dx, dy)) in expected.iter().enumerate() {
        assert_eq!(neighbor_offset_at(i), Point(*dx, *dy));
    }
}

#[test]
fn offsets_wrap_at_coordinate_ends() {
    assert_eq!(add_offset(Point(2, 5), Point(-1, 1)), Point(1, 6));
    assert_eq!(add_offset(Point(i32::MAX, i32::MIN), Point(1, -1)), Point(i32::MIN, i32::MAX));
}
