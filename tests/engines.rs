use myers_diff::digits::usize_len;
use myers_diff::array::{gi, gs, si};
use myers_diff::edit::{replace_all, Edit, TotalEdits};
use myers_diff::shortest_edit::linear::{modified as linear_modified, ring};
use myers_diff::shortest_edit::{base, modified, operations, printed, snake_end, traced, Operations};

fn chars(s: &str) -> Vec<char> {
    s.chars().collect()
}

/// Applies a script whose positions index `a` and whose inserted values
/// index `b`.
fn apply(a: &[char], b: &[char], ops: &[Edit]) -> Vec<char> {
    let mut out = Vec::new();
    let mut x = 0;
    for op in ops {
        match *op {
            Edit::Delete { pos } => {
                while x < pos {
                    out.push(a[x]);
                    x += 1;
                }
                x = pos + 1;
            }
            Edit::Insert { pos, value } => {
                while x < pos {
                    out.push(a[x]);
                    x += 1;
                }
                out.push(b[value]);
            }
        }
    }
    while x < a.len() {
        out.push(a[x]);
        x += 1;
    }
    out
}

fn quadratic_ops(r: &Operations) -> Vec<Edit> {
    r.edits.iter().map(|e| e.edit).collect()
}

fn linear(a: &[char], b: &[char]) -> TotalEdits {
    linear_modified(a, b, 0, 0)
}

fn counts(ops: &[Edit]) -> (usize, usize) {
    let ins = ops.iter().filter(|e| matches!(e, Edit::Insert { .. })).count();
    (ins, ops.len() - ins)
}

fn check_pair(sa: &str, sb: &str) -> usize {
    let a = chars(sa);
    let b = chars(sb);
    let d = modified(&a, &b);
    assert_eq!(base(&a, &b), d as isize);
    let q = operations(&a, &b);
    let qops = quadratic_ops(&q);
    assert_eq!(qops.len(), d);
    assert_eq!(apply(&a, &b, &qops), b);
    assert_eq!(counts(&qops), (q.inserts, q.deletes));
    let l = linear(&a, &b);
    assert_eq!(l.ops.len(), d);
    assert_eq!(apply(&a, &b, &l.ops), b);
    assert_eq!(counts(&l.ops), (l.inserts, l.deletes));
    assert_eq!((q.inserts, q.deletes), (l.inserts, l.deletes));
    d
}

const PAIRS: [(&str, &str); 12] = [
    ("abcabba", "cbabac"),
    ("", "abc"),
    ("abc", ""),
    ("abc", "abc"),
    ("ab", "ba"),
    ("abc", "xyz"),
    ("kitten", "sitting"),
    ("aaaa", "aa"),
    ("abcdefg", "gfedcba"),
    ("ab", "b"),
    ("a", "b"),
    ("abababab", "babababa"),
];

#[test]
fn classic_example_has_distance_five() {
    assert_eq!(check_pair("abcabba", "cbabac"), 5);
}

#[test]
fn from_empty_inserts_everything_in_order() {
    let a = chars("");
    let b = chars("abc");
    assert_eq!(check_pair("", "abc"), 3);
    let q = operations(&a, &b);
    assert_eq!(q.inserts, 3);
    assert_eq!(q.deletes, 0);
    let expected = vec![
        Edit::Insert { pos: 0, value: 0 },
        Edit::Insert { pos: 0, value: 1 },
        Edit::Insert { pos: 0, value: 2 },
    ];
    assert_eq!(quadratic_ops(&q), expected);
    assert_eq!(linear(&a, &b).ops, expected);
}

#[test]
fn to_empty_deletes_everything_in_order() {
    let a = chars("abc");
    let b = chars("");
    assert_eq!(check_pair("abc", ""), 3);
    let expected = vec![Edit::Delete { pos: 0 }, Edit::Delete { pos: 1 }, Edit::Delete { pos: 2 }];
    assert_eq!(quadratic_ops(&operations(&a, &b)), expected);
    assert_eq!(linear(&a, &b).ops, expected);
}

#[test]
fn offsets_shift_base_cases() {
    let a = chars("");
    let b = chars("xy");
    let r = linear_modified(&a, &b, 4, 7);
    assert_eq!(r.ops, vec![Edit::Insert { pos: 4, value: 7 }, Edit::Insert { pos: 4, value: 8 }]);
    let r = linear_modified(&b, &a, 4, 7);
    assert_eq!(r.ops, vec![Edit::Delete { pos: 4 }, Edit::Delete { pos: 5 }]);
}

#[test]
fn equal_sequences_need_no_edits() {
    let a = chars("abc");
    assert_eq!(check_pair("abc", "abc"), 0);
    assert!(operations(&a, &a).edits.is_empty());
    assert!(linear(&a, &a).ops.is_empty());
    assert_eq!(modified(&[], &[]), 0);
    assert!(operations(&[], &[]).edits.is_empty());
}

#[test]
fn swapped_pair_has_distance_two() {
    assert_eq!(check_pair("ab", "ba"), 2);
}

#[test]
fn all_different_equal_lengths() {
    assert_eq!(check_pair("abc", "xyz"), 6);
    assert_eq!(check_pair("a", "b"), 2);
}

#[test]
fn engines_agree_on_many_pairs() {
    for (a, b) in PAIRS {
        check_pair(a, b);
    }
}

#[test]
fn distance_is_symmetric() {
    for (sa, sb) in PAIRS {
        let a = chars(sa);
        let b = chars(sb);
        assert_eq!(modified(&a, &b), modified(&b, &a));
    }
}

#[test]
fn distance_obeys_triangle_inequality() {
    let words = ["", "a", "ab", "ba", "abc", "cab", "abcabba", "cbabac", "kitten", "sitting"];
    for x in words {
        for y in words {
            for z in words {
                let (a, b, c) = (chars(x), chars(y), chars(z));
                assert!(modified(&a, &c) <= modified(&a, &b) + modified(&b, &c));
            }
        }
    }
}

#[test]
fn distance_identity() {
    for (sa, _) in PAIRS {
        let a = chars(sa);
        assert_eq!(modified(&a, &a), 0);
        assert_eq!(base(&a, &a), 0);
    }
}

#[test]
fn history_has_one_snapshot_per_depth() {
    let a = chars("abcabba");
    let b = chars("cbabac");
    let t = traced(&a, &b);
    assert_eq!(t.len(), 6);
    assert!(t.iter().all(|s| s.len() == 2 * 13 + 1));
    // depth 0 on diagonal 0: no common prefix
    assert_eq!(t[0][13], 0);
    let steps = printed(&a, &b);
    assert_eq!(steps.depths.len(), 6);
    for (d, step) in steps.depths.iter().enumerate() {
        assert_eq!(step.trace, t[d]);
        for s in &step.ks {
            assert_eq!(s.set, s.x + s.snake);
            assert!(s.snake <= steps.max_snake);
        }
    }
    assert_eq!(steps.depths[0].ks.len(), 1);
    assert_eq!(steps.max_snake, 2);
}

#[test]
fn traced_edits_carry_their_snapshot() {
    let a = chars("abcabba");
    let b = chars("cbabac");
    let q = operations(&a, &b);
    assert_eq!(q.inserts, 2);
    assert_eq!(q.deletes, 3);
    for e in &q.edits {
        assert_eq!(e.trace.len(), 27);
    }
}

#[test]
fn signed_indexing() {
    let v = vec![10, 20, 30];
    assert_eq!(*gi(&v, 0), 10);
    assert_eq!(*gi(&v, 2), 30);
    assert_eq!(*gi(&v, -1), 30);
    assert_eq!(*gi(&v, -2), 20);
    let mut w = vec![1, 2, 3];
    si(&mut w, -1, 9);
    si(&mut w, 0, 7);
    assert_eq!(w, vec![7, 2, 9]);
    assert_eq!(gs(&v, 1, 3), &[20, 30]);
    assert_eq!(gs(&v, 1, 1), &[] as &[i32]);
}

#[test]
fn merge_concatenates() {
    let a = TotalEdits { inserts: 1, deletes: 0, ops: vec![Edit::Insert { pos: 0, value: 0 }] };
    let b = TotalEdits { inserts: 0, deletes: 1, ops: vec![Edit::Delete { pos: 3 }] };
    let m = a.merge(b);
    assert_eq!(m.inserts, 1);
    assert_eq!(m.deletes, 1);
    assert_eq!(m.ops, vec![Edit::Insert { pos: 0, value: 0 }, Edit::Delete { pos: 3 }]);
    let e = TotalEdits::default();
    assert_eq!((e.inserts, e.deletes, e.ops.len()), (0, 0, 0));
}

#[test]
fn replace_all_deletes_then_inserts() {
    assert_eq!(
        replace_all(1, 3, 2, 3),
        vec![Edit::Delete { pos: 1 }, Edit::Delete { pos: 2 }, Edit::Insert { pos: 3, value: 2 }]
    );
}

#[test]
fn snake_follows_equal_elements() {
    let a = chars("abcx");
    let b = chars("zabcy");
    assert_eq!(snake_end(&a, &b, 0, 1), 3);
    assert_eq!(snake_end(&a, &b, 0, 0), 0);
    assert_eq!(snake_end(&a, &b, 4, 5), 4);
}

#[test]
fn ring_wraps_negative_diagonals() {
    assert_eq!(ring(3, 4), 3);
    assert_eq!(ring(5, 4), 1);
    assert_eq!(ring(-1, 4), 3);
    assert_eq!(ring(-4, 4), 0);
}


#[test]
fn decimal_widths() {
    assert_eq!(usize_len(0), 1);
    assert_eq!(usize_len(9), 1);
    assert_eq!(usize_len(10), 2);
    assert_eq!(usize_len(12345), 5);
    assert_eq!(usize_len(usize::MAX), usize::MAX.to_string().len());
}

#[test]
fn backtrace_picks_the_delete_first_script() {
    let q = operations(&chars("ab"), &chars("ba"));
    assert_eq!((q.inserts, q.deletes), (1, 1));
    assert_eq!(quadratic_ops(&q), vec![Edit::Delete { pos: 0 }, Edit::Insert { pos: 2, value: 1 }]);
    let l = linear(&chars("ab"), &chars("ba"));
    assert_eq!((l.inserts, l.deletes), (1, 1));
    assert_eq!(l.ops.len(), 2);
}

#[test]
fn backtrace_of_the_classic_example() {
    let q = operations(&chars("abcabba"), &chars("cbabac"));
    assert_eq!((q.inserts, q.deletes), (2, 3));
    assert_eq!(
        quadratic_ops(&q),
        vec![
            Edit::Delete { pos: 0 },
            Edit::Delete { pos: 1 },
            Edit::Insert { pos: 3, value: 1 },
            Edit::Delete { pos: 5 },
            Edit::Insert { pos: 7, value: 5 },
        ]
    );
    let t = traced(&chars("abcabba"), &chars("cbabac"));
    for (i, e) in q.edits.iter().enumerate() {
        assert_eq!(e.trace, t[i + 1]);
    }
}

#[test]
fn history_from_empty_source() {
    let t = traced(&[], &chars("abc"));
    assert_eq!(
        t,
        vec![
            vec![0, 0, 0, 0, 0, 0, 0],
            vec![0, 0, 0, 0, 1, 0, 0],
            vec![0, 0, 0, 1, 1, 2, 0],
            vec![0, 0, 0, 1, 1, 2, 0],
        ]
    );
}

#[test]
fn printed_steps_of_a_swap() {
    let r = printed(&chars("ab"), &chars("ba"));
    assert_eq!(r.max_snake, 1);
    assert_eq!(r.depths.len(), 3);
    let counts: Vec<usize> = r.depths.iter().map(|d| d.ks.len()).collect();
    assert_eq!(counts, vec![1, 2, 2]);
    let d1: Vec<(usize, usize, usize, usize)> = r.depths[1].ks.iter().map(|s| (s.x, s.y, s.snake, s.set)).collect();
    assert_eq!(d1, vec![(0, 1, 1, 1), (1, 0, 1, 2)]);
    assert!(matches!(r.depths[2].ks[1].choice, myers_diff::shortest_edit::KChoice::Greater));
    assert_eq!(r.depths[2].ks[1].set, 2);
}

#[test]
fn offsets_shift_the_whole_script() {
    let a = chars("abcabba");
    let b = chars("cbabac");
    let r0 = linear(&a, &b);
    let r = linear_modified(&a, &b, 10, 20);
    let shifted: Vec<Edit> = r0
        .ops
        .iter()
        .map(|e| match *e {
            Edit::Delete { pos } => Edit::Delete { pos: pos + 10 },
            Edit::Insert { pos, value } => Edit::Insert { pos: pos + 10, value: value + 20 },
        })
        .collect();
    assert_eq!(r.ops, shifted);
    assert_eq!((r.inserts, r.deletes), (r0.inserts, r0.deletes));
}
