use ibsl::stark::cycles::{cycle_plan, CycleIn, Segment};

#[test]
fn segment_cycles_count_the_leaf_hash_and_each_merge() {
    let s = Segment { position: 2, siblings: vec![[1, 2], [3, 4], [5, 6]] };
    assert_eq!(s.num_cycles(), 4);
    let empty = Segment { position: 0, siblings: vec![] };
    assert_eq!(empty.num_cycles(), 1);
}

#[test]
fn cycle_plan_lays_out_seams_merges_and_padding() {
    let a = Segment { position: 5, siblings: vec![[1, 0], [2, 0], [3, 0]] };
    let b = Segment { position: 0, siblings: vec![[4, 0]] };
    // 4 + 2 = 6 cycles, padded to 8
    let plan = cycle_plan(&[a, b]);
    assert_eq!(plan.len(), 8);
    assert!(matches!(plan[0], CycleIn::Seam));
    assert!(matches!(plan[1], CycleIn::Merge { sibling: [1, 0], bit: true }));
    assert!(matches!(plan[2], CycleIn::Merge { sibling: [2, 0], bit: false }));
    assert!(matches!(plan[3], CycleIn::Merge { sibling: [3, 0], bit: true }));
    assert!(matches!(plan[4], CycleIn::Seam));
    assert!(matches!(plan[5], CycleIn::Merge { sibling: [4, 0], bit: false }));
    assert!(matches!(plan[6], CycleIn::Merge { sibling: [0, 0], bit: false }));
    assert!(matches!(plan[7], CycleIn::Merge { sibling: [0, 0], bit: false }));
}

#[test]
fn cycle_plan_of_a_power_of_two_is_not_padded() {
    let a = Segment { position: 1, siblings: vec![[7, 7]] };
    let b = Segment { position: 1, siblings: vec![[8, 8]] };
    let plan = cycle_plan(&[a, b]);
    assert_eq!(plan.len(), 4);
    assert!(matches!(plan[3], CycleIn::Merge { sibling: [8, 8], bit: true }));
}
