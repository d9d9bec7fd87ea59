use memobench::memo::{RawExpr, RawGroup, RawMemo};
use memobench::MemoError;

const FUEL: u64 = 1_000_000;

fn memo_eq(a: &RawMemo, b: &RawMemo) -> bool {
    if a.entry != b.entry || a.exprs.len() != b.exprs.len() || a.groups.len() != b.groups.len() {
        return false;
    }
    for i in 0..a.exprs.len() {
        if a.exprs[i].op != b.exprs[i].op || a.exprs[i].children != b.exprs[i].children {
            return false;
        }
    }
    for i in 0..a.groups.len() {
        if a.groups[i].id != b.groups[i].id || a.groups[i].exprs != b.groups[i].exprs {
            return false;
        }
    }
    true
}

fn check_wf(m: &RawMemo) {
    assert!(m.entry < m.groups.len());
    for (i, g) in m.groups.iter().enumerate() {
        assert_eq!(g.id, i);
        for &e in g.exprs.iter() {
            assert!(e < m.exprs.len());
            assert_eq!(m.exprs[e].op, m.exprs[e].children.len());
            for &c in m.exprs[e].children.iter() {
                assert!(c < g.id);
            }
        }
    }
}

#[test]
fn generate_tree_well_formed() {
    let m = RawMemo::new(10, 2, false, 7, FUEL).unwrap();
    check_wf(&m);
    assert!(m.groups.len() >= 10);
}

#[test]
fn generate_dag_well_formed() {
    let m = RawMemo::new(12, 3, true, 99, FUEL).unwrap();
    check_wf(&m);
    assert!(m.groups.len() >= 12);
}

#[test]
fn generate_smallest_parameters() {
    let m = RawMemo::new(1, 1, false, 5, FUEL).unwrap();
    check_wf(&m);
    assert!(m.groups.len() >= 1);
}

#[test]
fn generate_deterministic() {
    let a = RawMemo::new(8, 2, true, 42, FUEL).unwrap();
    let b = RawMemo::new(8, 2, true, 42, FUEL).unwrap();
    assert!(memo_eq(&a, &b));
    let c = RawMemo::new(8, 2, false, 42, FUEL).unwrap();
    let d = RawMemo::new(8, 2, false, 42, FUEL).unwrap();
    assert!(memo_eq(&c, &d));
}

#[test]
fn generate_depends_on_seed() {
    let mut any_different = false;
    let first = RawMemo::new(6, 2, false, 0, FUEL).unwrap();
    for seed in 1..8u64 {
        let m = RawMemo::new(6, 2, false, seed, FUEL).unwrap();
        if !memo_eq(&first, &m) {
            any_different = true;
        }
    }
    assert!(any_different);
}

#[test]
fn generate_out_of_fuel_stalls() {
    let r = RawMemo::new(1, 1, false, 3, 0);
    assert_eq!(r.err(), Some(MemoError::GenerationStall));
}

fn one_group(members: Vec<usize>) -> RawMemo {
    let nexprs = members.iter().copied().max().map(|m| m + 1).unwrap_or(0);
    let mut exprs = Vec::new();
    for _ in 0..nexprs {
        exprs.push(RawExpr { op: 0, children: vec![] });
    }
    RawMemo { exprs, groups: vec![RawGroup { exprs: members, id: 0 }], entry: 0 }
}

#[test]
fn shuffle_lookup_repartitions() {
    // 1,2,3,4,5,6,7 with chunk 3 becomes 1,2,3 - 3,4,5 - 5,6,7
    let m = one_group(vec![1, 2, 3, 4, 5, 6, 7]);
    let s = m.shuffle(3, false);
    assert_eq!(s.groups.len(), 3);
    assert_eq!(s.groups[0].exprs, vec![1, 2, 3]);
    assert_eq!(s.groups[1].exprs, vec![3, 4, 5]);
    assert_eq!(s.groups[2].exprs, vec![5, 6, 7]);
    for g in s.groups.iter() {
        assert_eq!(g.id, 0);
        assert!(g.exprs.len() <= 3);
    }
    assert_eq!(s.entry, m.entry);
    assert_eq!(s.exprs.len(), m.exprs.len());
}

#[test]
fn shuffle_merge_duplicates_first_member() {
    // one group holding 1,2,3,4,5 split at chunk 2 under the merge policy;
    // every remainder is re-scanned until no group is oversized, and each
    // split plants the split group's first member as one duplicate
    let m = one_group(vec![1, 2, 3, 4, 5]);
    let s = m.shuffle(2, true);
    assert_eq!(s.groups[0].exprs, vec![1, 2]);
    assert_eq!(s.groups[1].exprs, vec![3, 4]);
    assert_eq!(s.groups[2].exprs, vec![5, 1]);
    assert_eq!(s.groups[3].exprs, vec![3, 5]);
    assert_eq!(s.groups.len(), 4);
    for g in s.groups.iter() {
        assert!(g.exprs.len() <= 2);
    }
}

#[test]
fn shuffle_modes_same_shape() {
    let m = one_group(vec![1, 2, 3, 4, 5, 6, 7, 8, 9]);
    let a = m.shuffle(3, false);
    let b = m.shuffle(3, true);
    assert_eq!(a.groups.len(), b.groups.len());
    for i in 0..a.groups.len() {
        assert_eq!(a.groups[i].id, b.groups[i].id);
        assert_eq!(a.groups[i].exprs.len(), b.groups[i].exprs.len());
    }
}

#[test]
fn shuffle_small_groups_untouched() {
    let m = one_group(vec![1, 2]);
    let s = m.shuffle(2, false);
    assert_eq!(s.groups.len(), 1);
    assert_eq!(s.groups[0].exprs, vec![1, 2]);
    let s2 = m.shuffle(2, true);
    assert_eq!(s2.groups.len(), 1);
    assert_eq!(s2.groups[0].exprs, vec![1, 2]);
}

#[test]
fn shuffle_preserves_member_sets() {
    let m = RawMemo::new(9, 3, true, 11, FUEL).unwrap();
    let s = m.shuffle(2, false);
    for gid in 0..m.groups.len() {
        let mut before = m.members_of(gid);
        let mut after = s.members_of(gid);
        before.sort();
        before.dedup();
        after.sort();
        after.dedup();
        assert_eq!(before, after);
    }
}

#[test]
fn traverse_visits_once_under_fan_in() {
    // group 2 holds a join and is referenced by five different filters
    let mut exprs = Vec::new();
    exprs.push(RawExpr { op: 0, children: vec![] }); // e0: scan, group 0
    exprs.push(RawExpr { op: 0, children: vec![] }); // e1: scan, group 1
    exprs.push(RawExpr { op: 2, children: vec![0, 1] }); // e2: join, group 2
    for _ in 0..5 {
        exprs.push(RawExpr { op: 1, children: vec![2] }); // e3..e7: filters on group 2
    }
    let mut groups = Vec::new();
    for i in 0..3 {
        groups.push(RawGroup { exprs: vec![i], id: i });
    }
    for i in 0..5 {
        groups.push(RawGroup { exprs: vec![3 + i], id: 3 + i });
    }
    // the root references all five filter groups
    exprs.push(RawExpr { op: 5, children: vec![3, 4, 5, 6, 7] }); // e8
    groups.push(RawGroup { exprs: vec![8], id: 8 });
    let m = RawMemo { exprs, groups, entry: 8 };
    let tr = m.explore(8).unwrap();
    // every reachable group and expression exactly once
    let mut gs = tr.groups.clone();
    gs.sort();
    assert_eq!(gs, (0..9).collect::<Vec<usize>>());
    let mut es = tr.exprs.clone();
    es.sort();
    assert_eq!(es, (0..9).collect::<Vec<usize>>());
    // one match per filter, each seeing the single join in group 2
    assert_eq!(tr.matches.len(), 5);
    for &(f, j) in tr.matches.iter() {
        assert!((3..8).contains(&f));
        assert_eq!(j, 2);
    }
}

#[test]
fn traverse_children_before_parent() {
    // a filter over a join: the join's group is fully explored before the
    // filter's rule scan records its match
    let exprs = vec![
        RawExpr { op: 0, children: vec![] },    // e0 scan, g0
        RawExpr { op: 0, children: vec![] },    // e1 scan, g1
        RawExpr { op: 2, children: vec![0, 1] }, // e2 join, g2
        RawExpr { op: 1, children: vec![2] },   // e3 filter, g3
    ];
    let groups = vec![
        RawGroup { exprs: vec![0], id: 0 },
        RawGroup { exprs: vec![1], id: 1 },
        RawGroup { exprs: vec![2], id: 2 },
        RawGroup { exprs: vec![3], id: 3 },
    ];
    let m = RawMemo { exprs, groups, entry: 3 };
    let tr = m.explore(3).unwrap();
    assert_eq!(tr.groups, vec![3, 2, 0, 1]);
    assert_eq!(tr.exprs, vec![0, 1, 2, 3]);
    assert_eq!(tr.matches, vec![(3, 2)]);
}

#[test]
fn traverse_rejects_dangling_reference() {
    let exprs = vec![RawExpr { op: 1, children: vec![5] }];
    let groups = vec![RawGroup { exprs: vec![0], id: 0 }];
    let m = RawMemo { exprs, groups, entry: 0 };
    assert_eq!(m.explore(0).err(), Some(MemoError::ReferentialIntegrity));
}

#[test]
fn traverse_rejects_missing_entry() {
    let m = one_group(vec![0]);
    assert_eq!(m.explore(7).err(), Some(MemoError::ReferentialIntegrity));
}

#[test]
fn traverse_generated_memo() {
    // a generated memo is connected: the walk from the entry visits every
    // group and every expression, each exactly once
    let m = RawMemo::new(10, 2, true, 4242, FUEL).unwrap();
    let tr = m.explore(m.entry).unwrap();
    let mut gs = tr.groups.clone();
    gs.sort();
    assert_eq!(gs, (0..m.groups.len()).collect::<Vec<usize>>());
    let mut es = tr.exprs.clone();
    es.sort();
    assert_eq!(es, (0..m.exprs.len()).collect::<Vec<usize>>());
    assert!(tr.groups.contains(&m.entry));
}

#[test]
fn end_to_end_retrieve_group_zero() {
    // generate, then retrieve group 0's members: the reconstruction matches
    // the generator's recorded member list
    let m = RawMemo::new(3, 1, false, 42, FUEL).unwrap();
    assert!(!m.groups[0].exprs.is_empty());
    let retrieved = m.members_of(0);
    assert_eq!(retrieved, m.groups[0].exprs);
    assert!(m.check_retrieval(0, &retrieved));
    assert!(!m.check_retrieval(0, &vec![]));
}

#[test]
fn end_to_end_shuffled_retrieval() {
    let m = RawMemo::new(6, 3, false, 77, FUEL).unwrap();
    let s = m.shuffle(2, false);
    // lookup mode may duplicate boundary members across fragments, but the
    // fragments of an untouched group still reconstruct it exactly
    for gid in 0..m.groups.len() {
        if m.groups[gid].exprs.len() <= 2 {
            let r = s.members_of(gid);
            assert!(m.check_retrieval(gid, &r));
        }
    }
}
