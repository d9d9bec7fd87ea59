use memobench::bench::{BenchNull, BenchPredTyp, BenchRelNodeTyp, Null};
use memobench::memo::{RawExpr, RawGroup, RawMemo};
use memobench::oracle::{ids_match, sort_ids};
use memobench::rng::SeededRng;

#[test]
fn rng_is_deterministic_per_seed() {
    let mut a = SeededRng::new(7);
    let mut b = SeededRng::new(7);
    for bound in [10u64, 70, 3, 1000, 2] {
        assert_eq!(a.gen_range(bound), b.gen_range(bound));
    }
    let mut c = SeededRng::new(8);
    let mut any_different = false;
    let mut a2 = SeededRng::new(7);
    for _ in 0..16 {
        if a2.gen_range(1000) != c.gen_range(1000) {
            any_different = true;
        }
    }
    assert!(any_different);
}

#[test]
fn rng_respects_bound() {
    let mut r = SeededRng::new(1234);
    for _ in 0..100 {
        assert!(r.gen_range(7) < 7);
        assert_eq!(r.gen_range(1), 0);
    }
}

#[test]
fn sort_orders_and_keeps_values() {
    let mut v = vec![5usize, 3, 9, 3, 1];
    sort_ids(&mut v);
    assert_eq!(v, vec![1, 3, 3, 5, 9]);
    let mut empty: Vec<usize> = vec![];
    sort_ids(&mut empty);
    assert_eq!(empty, Vec::<usize>::new());
}

#[test]
fn oracle_accepts_permutations_only() {
    assert!(ids_match(&vec![3, 1, 2], &vec![1, 2, 3]));
    assert!(ids_match(&vec![], &vec![]));
    assert!(!ids_match(&vec![1, 2, 2], &vec![1, 2, 3]));
    assert!(!ids_match(&vec![1, 2], &vec![1, 2, 3]));
    assert!(!ids_match(&vec![1, 1, 2], &vec![1, 2, 2]));
}

#[test]
fn dump_renders_exact_text() {
    let m = RawMemo {
        exprs: vec![
            RawExpr { op: 0, children: vec![] },
            RawExpr { op: 1, children: vec![0] },
        ],
        groups: vec![
            RawGroup { exprs: vec![0], id: 0 },
            RawGroup { exprs: vec![1], id: 1 },
        ],
        entry: 1,
    };
    let text = m.dump();
    let expected = "digraph Memo {\n\
                    node [colorscheme=set312]\n\
                    \"g0\" [shape=box];\n\
                    \"g0\" -> \"e0\";\n\
                    \"g1\" [shape=box];\n\
                    \"g1\" -> \"e1\";\n\
                    \"e0\" [shape=oval,style=filled,color=1];\n\
                    \"e1\" [shape=oval,style=filled,color=2];\n\
                    \"e1\" -> \"g0\";\n\
                    }\n";
    assert_eq!(text, expected);
}

#[test]
fn dump_renders_multi_digit_ids() {
    let mut exprs = Vec::new();
    let mut groups = Vec::new();
    for i in 0..12 {
        exprs.push(RawExpr { op: 0, children: vec![] });
        groups.push(RawGroup { exprs: vec![i], id: i });
    }
    let m = RawMemo { exprs, groups, entry: 0 };
    let text = m.dump();
    assert!(text.contains("\"g11\" [shape=box];\n"));
    assert!(text.contains("\"g11\" -> \"e11\";\n"));
    assert!(text.contains("\"e10\" [shape=oval,style=filled,color=1];\n"));
}

#[test]
fn memo_len_counts_expressions() {
    let m = RawMemo {
        exprs: vec![
            RawExpr { op: 0, children: vec![] },
            RawExpr { op: 0, children: vec![] },
        ],
        groups: vec![RawGroup { exprs: vec![0, 1], id: 0 }],
        entry: 0,
    };
    assert_eq!(m.len(), 2);
}

#[test]
fn bench_kinds() {
    assert!(BenchRelNodeTyp::Scan.is_logical());
    assert!(BenchRelNodeTyp::Filter.is_logical());
    assert!(BenchRelNodeTyp::Join.is_logical());
    assert_eq!(BenchRelNodeTyp::from_op(0), Some(BenchRelNodeTyp::Scan));
    assert_eq!(BenchRelNodeTyp::from_op(1), Some(BenchRelNodeTyp::Filter));
    assert_eq!(BenchRelNodeTyp::from_op(2), Some(BenchRelNodeTyp::Join));
    assert_eq!(BenchRelNodeTyp::from_op(3), None);
    assert_eq!(BenchRelNodeTyp::Scan.name(), "Scan");
    assert_eq!(BenchRelNodeTyp::Filter.name(), "Filter");
    assert_eq!(BenchRelNodeTyp::Join.name(), "Join");
    assert_eq!(BenchPredTyp::Data.name(), "()");
}

#[test]
fn null_backends_construct() {
    assert!(BenchNull::new().is_ok());
    assert!(Null::new().is_ok());
}
