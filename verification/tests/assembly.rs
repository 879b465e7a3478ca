//! Ring-assembly tests: member filtering and the greedy topological sort.
use georender::member::{Member, MemberRole, MemberType};
use std::collections::HashMap;

fn chain(ways: &HashMap<u64, Vec<u64>>, m: &Member) -> Vec<u64> {
    let mut c = ways.get(&m.id).unwrap().clone();
    if m.reverse {
        c.reverse();
    }
    c
}

#[test]
fn member_new_defaults() {
    let m = Member::new(7, MemberRole::Outer, MemberType::Way);
    assert_eq!(m.id, 7);
    assert_eq!(m.role, MemberRole::Outer);
    assert_eq!(m.member_type, MemberType::Way);
    assert!(!m.reverse);
}

#[test]
fn drain_keeps_only_usable_boundaries() {
    let mut ways: HashMap<u64, Vec<u64>> = HashMap::new();
    ways.insert(1, vec![10, 20]);
    ways.insert(2, vec![20, 30]);
    ways.insert(3, Vec::new());
    ways.insert(5, vec![40, 50]);
    let mut members = vec![
        Member::new(1, MemberRole::Outer, MemberType::Way),
        Member::new(2, MemberRole::Inner, MemberType::Way),
        Member::new(3, MemberRole::Outer, MemberType::Way), // zero-length chain
        Member::new(4, MemberRole::Outer, MemberType::Way), // unresolved chain
        Member::new(5, MemberRole::Unused, MemberType::Way), // unused role
        Member::new(1, MemberRole::Outer, MemberType::Node), // not a way
        Member::new(2, MemberRole::Outer, MemberType::Relation),
    ];
    Member::drain(&mut members, &ways);
    assert_eq!(
        members,
        vec![
            Member::new(1, MemberRole::Outer, MemberType::Way),
            Member::new(2, MemberRole::Inner, MemberType::Way),
        ]
    );
}

#[test]
fn sort_closes_split_square() {
    // two chains forming a closed square split at two opposite corners:
    // A: p1 -> p2 -> p3 and B: p3 -> p4 -> p1
    let mut ways: HashMap<u64, Vec<u64>> = HashMap::new();
    ways.insert(1, vec![10, 20, 30]);
    ways.insert(2, vec![30, 40, 10]);
    let members = vec![
        Member::new(1, MemberRole::Outer, MemberType::Way),
        Member::new(2, MemberRole::Outer, MemberType::Way),
    ];
    let sorted = Member::sort(&members, &ways);
    assert_eq!(sorted.len(), 2);
    assert_eq!(sorted[0].id, 1);
    assert!(!sorted[0].reverse);
    assert_eq!(sorted[1].id, 2);
    assert!(!sorted[1].reverse);
    // consecutive emitted members continue each other, and the traced loop
    // is closed: p1 p2 p3, p3 p4 p1
    let c0 = chain(&ways, &sorted[0]);
    let c1 = chain(&ways, &sorted[1]);
    assert_eq!(c0.last(), c1.first());
    assert_eq!(c1.last(), c0.first());
    let mut traced: Vec<u64> = Vec::new();
    traced.extend(c0.iter());
    traced.extend(c1.iter().skip(1));
    assert_eq!(traced, vec![10, 20, 30, 40, 10]);
}

#[test]
fn sort_reverses_backward_segment() {
    // B is stored backwards: following A it must be traversed back-to-front
    let mut ways: HashMap<u64, Vec<u64>> = HashMap::new();
    ways.insert(1, vec![10, 20, 30]);
    ways.insert(2, vec![10, 40, 30]);
    let members = vec![
        Member::new(1, MemberRole::Outer, MemberType::Way),
        Member::new(2, MemberRole::Outer, MemberType::Way),
    ];
    let sorted = Member::sort(&members, &ways);
    assert_eq!(sorted.len(), 2);
    assert_eq!(sorted[0].id, 1);
    assert!(!sorted[0].reverse);
    assert_eq!(sorted[1].id, 2);
    assert!(sorted[1].reverse);
    let c0 = chain(&ways, &sorted[0]);
    let c1 = chain(&ways, &sorted[1]);
    assert_eq!(c0, vec![10, 20, 30]);
    assert_eq!(c1, vec![30, 40, 10]);
}

#[test]
fn sort_moves_outer_run_ahead_of_inners() {
    let mut ways: HashMap<u64, Vec<u64>> = HashMap::new();
    ways.insert(1, vec![100, 110, 100]); // inner ring
    ways.insert(2, vec![10, 20, 30]);
    ways.insert(3, vec![30, 40, 10]);
    let members = vec![
        Member::new(1, MemberRole::Inner, MemberType::Way),
        Member::new(2, MemberRole::Outer, MemberType::Way),
        Member::new(3, MemberRole::Outer, MemberType::Way),
    ];
    let sorted = Member::sort(&members, &ways);
    assert_eq!(sorted.len(), 3);
    // the outer run comes first; every member is emitted exactly once
    assert_eq!(sorted[0].role, MemberRole::Outer);
    let mut ids: Vec<u64> = sorted.iter().map(|m| m.id).collect();
    ids.sort();
    assert_eq!(ids, vec![1, 2, 3]);
}

#[test]
fn sort_emits_disconnected_components() {
    // two separate rings: assembly terminates and emits every member
    let mut ways: HashMap<u64, Vec<u64>> = HashMap::new();
    ways.insert(1, vec![10, 20, 10]);
    ways.insert(2, vec![30, 40, 30]);
    let members = vec![
        Member::new(1, MemberRole::Outer, MemberType::Way),
        Member::new(2, MemberRole::Outer, MemberType::Way),
    ];
    let sorted = Member::sort(&members, &ways);
    assert_eq!(sorted.len(), 2);
    let mut ids: Vec<u64> = sorted.iter().map(|m| m.id).collect();
    ids.sort();
    assert_eq!(ids, vec![1, 2]);
}

#[test]
fn sort_is_deterministic() {
    // equal inputs give identical output, traversal flags included
    let mut ways: HashMap<u64, Vec<u64>> = HashMap::new();
    ways.insert(1, vec![10, 20, 30]);
    ways.insert(2, vec![10, 40, 30]);
    ways.insert(3, vec![50, 60, 50]);
    let members = vec![
        Member::new(1, MemberRole::Outer, MemberType::Way),
        Member::new(2, MemberRole::Outer, MemberType::Way),
        Member::new(3, MemberRole::Inner, MemberType::Way),
    ];
    let once = Member::sort(&members, &ways);
    let again = Member::sort(&members, &ways);
    assert_eq!(once, again);
}
