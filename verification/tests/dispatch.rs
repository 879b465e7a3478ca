//! Dispatcher tests: geometry classification through the real external
//! classifier, reference resolution, and the empty-output rule.
use georender::encode::{get_positions, node, way};
use std::collections::HashMap;

#[test]
fn node_fn_exact() {
    let bytes = node(5, 10_000_000, -25_000_000, 7, vec![9]);
    assert_eq!("01070580969800c08782fe09", hex::encode(bytes));
}

#[test]
fn way_single_position_is_empty() {
    // open chain with a line-like tag: not an area; one resolved position
    let tags = vec![("highway".to_string(), "residential".to_string())];
    let refs: Vec<i64> = vec![1, 2, 3];
    let mut deps: HashMap<i64, (i32, i32)> = HashMap::new();
    deps.insert(2, (100, 200));
    let cells: Vec<u64> = Vec::new();
    let out = way(44, 7, vec![1], &tags, &refs, &deps, &cells);
    assert_eq!(out.len(), 0);
}

#[test]
fn way_area_has_position_count_four() {
    // closed chain tagged as a riverbank: the classifier reports an area
    let tags = vec![("waterway".to_string(), "riverbank".to_string())];
    let refs: Vec<i64> = vec![1, 2, 3, 1];
    let mut deps: HashMap<i64, (i32, i32)> = HashMap::new();
    deps.insert(1, (0, 0));
    deps.insert(2, (10, 0));
    deps.insert(3, (10, 10));
    let cells: Vec<u64> = vec![1, 2, 0];
    let out = way(5, 7, vec![0], &tags, &refs, &deps, &cells);
    assert_eq!(out[0], 3);
    // tag byte, one-byte feature class, one-byte id, then the count
    assert_eq!(out[3], 4);
}

#[test]
fn way_two_positions_is_line() {
    let tags = vec![("highway".to_string(), "residential".to_string())];
    let refs: Vec<i64> = vec![1, 2];
    let mut deps: HashMap<i64, (i32, i32)> = HashMap::new();
    deps.insert(1, (100, -200));
    deps.insert(2, (300, 400));
    let cells: Vec<u64> = Vec::new();
    let out = way(3, 2, Vec::new(), &tags, &refs, &deps, &cells);
    assert_eq!("020203026400000038ffffff2c01000090010000", hex::encode(out));
}

#[test]
fn way_skips_missing_reference() {
    // the unresolved reference contributes nothing; the rest still encode
    let tags = vec![("highway".to_string(), "residential".to_string())];
    let refs: Vec<i64> = vec![1, 99, 2];
    let mut deps: HashMap<i64, (i32, i32)> = HashMap::new();
    deps.insert(1, (100, -200));
    deps.insert(2, (300, 400));
    let positions = get_positions(&refs, &deps);
    assert_eq!(positions, vec![(100, -200), (300, 400)]);
    let cells: Vec<u64> = Vec::new();
    let out = way(3, 2, Vec::new(), &tags, &refs, &deps, &cells);
    assert_eq!("020203026400000038ffffff2c01000090010000", hex::encode(out));
}

#[test]
fn closed_untagged_way_is_not_area() {
    // the classifier wants at least one tag
    let tags: Vec<(String, String)> = Vec::new();
    let refs: Vec<i64> = vec![1, 2, 3, 1];
    let mut deps: HashMap<i64, (i32, i32)> = HashMap::new();
    deps.insert(1, (0, 0));
    deps.insert(2, (10, 0));
    deps.insert(3, (10, 10));
    let cells: Vec<u64> = Vec::new();
    let out = way(5, 7, vec![0], &tags, &refs, &deps, &cells);
    // four resolved positions, no area: a line record
    assert_eq!(out[0], 2);
}
