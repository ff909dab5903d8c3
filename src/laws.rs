//! Facts about the edit distance and edit scripts that relate several
//! calls or hold for whole families of inputs.

use vstd::prelude::*;
use crate::edit::{Edit, converts, is_script, apply_edits, lemma_converts_applies, run_matches, count_inserts, count_deletes, lemma_counts_len};
use crate::shortest_edit::{slide, start, reach, done, active, is_distance, lemma_reach_bounds, lemma_slide_bounds};
use crate::corner::{lemma_reach_grows, lemma_ends_at_corner};
use crate::shortest_edit::walk;
use crate::edit::lemma_converts_concat;

verus! {

/// A script that turns `a` into `b`, applied to `a`, yields exactly `b`.
pub proof fn law_script_reproduces(a: Seq<char>, b: Seq<char>, ops: Seq<Edit>)
    requires
        is_script(a, b, ops),
    ensures
        apply_edits(a, b, ops, 0) == b,
{
    lemma_converts_applies(a, b, ops, 0, 0);
    assert(b.subrange(0, b.len() as int) =~= b);
}

/// The search's distance is a single number: two depths that are both the
/// first to reach the end are equal. So every engine whose result is
/// `is_distance` returns the same value on the same inputs.
pub proof fn law_distance_unique(a: Seq<char>, b: Seq<char>, d1: nat, d2: nat)
    requires
        is_distance(a, b, d1),
        is_distance(a, b, d2),
    ensures
        d1 == d2,
{
    if d1 < d2 {
        let k = choose|k: int| active(d1 as int, k) && done(a, b, d1, k);
        assert(!done(a, b, d1, k));
    } else if d2 < d1 {
        let k = choose|k: int| active(d2 as int, k) && done(a, b, d2, k);
        assert(!done(a, b, d2, k));
    }
}

proof fn lemma_slide_equal(a: Seq<char>, x: int)
    requires
        0 <= x <= a.len(),
    ensures
        slide(a, a, x, x) == a.len(),
    decreases a.len() - x,
{
    if x < a.len() {
        lemma_slide_equal(a, x + 1);
    }
}

/// A sequence is at distance zero from itself.
pub proof fn law_distance_identity(a: Seq<char>)
    ensures
        is_distance(a, a, 0),
{
    lemma_slide_equal(a, 0);
    assert(reach(a, a, 0, 0) == a.len());
    assert(active(0, 0) && done(a, a, 0, 0));
}

proof fn lemma_from_empty_window(a: Seq<char>, b: Seq<char>, ops: Seq<Edit>, x0: int, y0: int, ye: int)
    requires
        converts(a, b, ops, x0, y0, x0, ye),
    ensures
        ops.len() == ye - y0,
        forall|j: int| 0 <= j < ops.len() ==> #[trigger] ops[j] == (Edit::Insert { pos: x0 as usize, value: (y0 + j) as usize }),
    decreases ops.len(),
{
    if ops.len() > 0 {
        match ops[0] {
            Edit::Delete { pos } => {
                assert(false);
            },
            Edit::Insert { pos, value } => {
                lemma_from_empty_window(a, b, ops.drop_first(), x0, y0 + 1, ye);
                assert forall|j: int| 0 <= j < ops.len() implies #[trigger] ops[j] == (Edit::Insert { pos: x0 as usize, value: (y0 + j) as usize }) by {
                    if j > 0 {
                        assert(ops[j] == ops.drop_first()[j - 1]);
                    }
                }
            },
        }
    }
}

proof fn lemma_to_empty_window(a: Seq<char>, b: Seq<char>, ops: Seq<Edit>, x0: int, xe: int)
    requires
        b.len() == 0,
        converts(a, b, ops, x0, 0, xe, 0),
    ensures
        ops.len() == xe - x0,
        forall|i: int| 0 <= i < ops.len() ==> #[trigger] ops[i] == (Edit::Delete { pos: (x0 + i) as usize }),
    decreases ops.len(),
{
    if ops.len() > 0 {
        match ops[0] {
            Edit::Delete { pos } => {
                lemma_to_empty_window(a, b, ops.drop_first(), x0 + 1, xe);
                assert forall|i: int| 0 <= i < ops.len() implies #[trigger] ops[i] == (Edit::Delete { pos: (x0 + i) as usize }) by {
                    if i > 0 {
                        assert(ops[i] == ops.drop_first()[i - 1]);
                    }
                }
            },
            Edit::Insert { pos, value } => {
                assert(false);
            },
        }
    }
}

/// From an empty sequence the only script inserts every element of `b`, in
/// order, at position zero.
pub proof fn law_script_from_empty(b: Seq<char>, ops: Seq<Edit>)
    requires
        is_script(Seq::empty(), b, ops),
    ensures
        ops == Seq::new(b.len(), |j: int| Edit::Insert { pos: 0, value: j as usize }),
{
    lemma_from_empty_window(Seq::empty(), b, ops, 0, 0, b.len() as int);
    assert(ops =~= Seq::new(b.len(), |j: int| Edit::Insert { pos: 0, value: j as usize }));
}

/// To an empty sequence the only script deletes every element of `a`, at
/// increasing positions.
pub proof fn law_script_to_empty(a: Seq<char>, ops: Seq<Edit>)
    requires
        is_script(a, Seq::empty(), ops),
    ensures
        ops == Seq::new(a.len(), |i: int| Edit::Delete { pos: i as usize }),
{
    lemma_to_empty_window(a, Seq::empty(), ops, 0, a.len() as int);
    assert(ops =~= Seq::new(a.len(), |i: int| Edit::Delete { pos: i as usize }));
}

proof fn lemma_slide_swap(a: Seq<char>, b: Seq<char>, x: int, y: int)
    ensures
        slide(b, a, y, x) == slide(a, b, x, y) - x + y,
    decreases a.len() - x,
{
    if 0 <= x < a.len() && 0 <= y < b.len() && a[x] == b[y] {
        lemma_slide_swap(a, b, x + 1, y + 1);
    }
}

/// Swapping the sequences mirrors the search: diagonal `k` becomes `-k` and
/// each reach becomes the other coordinate of the same point.
proof fn lemma_reach_swap(a: Seq<char>, b: Seq<char>, d: nat, k: int)
    requires
        active(d as int, k),
    ensures
        start(b, a, d, -k) == start(a, b, d, k) - k,
        reach(b, a, d, -k) == reach(a, b, d, k) - k,
    decreases d,
{
    if d > 0 {
        let d1 = (d - 1) as nat;
        if k > -(d as int) {
            lemma_reach_swap(a, b, d1, k - 1);
        }
        if k < d {
            lemma_reach_swap(a, b, d1, k + 1);
        }
    }
    let s = start(a, b, d, k);
    lemma_slide_swap(a, b, s, s - k);
}

/// The distance does not depend on which sequence is the source.
pub proof fn law_distance_symmetric(a: Seq<char>, b: Seq<char>, dist: nat)
    requires
        is_distance(a, b, dist),
    ensures
        is_distance(b, a, dist),
{
    let k = choose|k: int| active(dist as int, k) && done(a, b, dist, k);
    lemma_reach_swap(a, b, dist, k);
    assert(active(dist as int, -k) && done(b, a, dist, -k));
    assert forall|e: nat, j: int| e < dist && active(e as int, j) implies !#[trigger] done(b, a, e, j) by {
        assert(active(e as int, -j));
        lemma_reach_swap(a, b, e, -j);
        assert(!done(a, b, e, -j));
    }
}

proof fn lemma_slide_stops(a: Seq<char>, b: Seq<char>, x: int, y: int)
    ensures
        !(0 <= slide(a, b, x, y) < a.len() && 0 <= slide(a, b, x, y) - x + y < b.len()
            && a[slide(a, b, x, y)] == b[slide(a, b, x, y) - x + y]),
    decreases a.len() - x,
{
    if 0 <= x < a.len() && 0 <= y < b.len() && a[x] == b[y] {
        lemma_slide_stops(a, b, x + 1, y + 1);
    }
}

/// The search reaches at least as far as any run of equal elements that
/// starts at or behind its reach on the same diagonal.
proof fn lemma_reach_covers_run(a: Seq<char>, b: Seq<char>, d: nat, k: int, x0: int, n: int)
    requires
        active(d as int, k),
        x0 <= reach(a, b, d, k),
        run_matches(a, b, x0, x0 - k, n),
    ensures
        reach(a, b, d, k) >= x0 + n,
    decreases x0 + n - reach(a, b, d, k),
{
    let r = reach(a, b, d, k);
    if r < x0 + n {
        let s = start(a, b, d, k);
        lemma_slide_stops(a, b, s, s - k);
        lemma_reach_bounds(a, b, d, k);
        assert(a[r] == a.subrange(x0, x0 + n)[r - x0]);
        assert(b[r - k] == b.subrange(x0 - k, x0 - k + n)[r - x0]);
        assert(false);
    }
}

/// A script of `ops.len()` edits from a point that the search reaches at
/// depth `d` makes the search reach the end by depth `d + ops.len()`.
proof fn lemma_script_bounds_search(a: Seq<char>, b: Seq<char>, ops: Seq<Edit>, d: nat, x0: int, y0: int)
    requires
        active(d as int, x0 - y0),
        x0 <= reach(a, b, d, x0 - y0),
        converts(a, b, ops, x0, y0, a.len() as int, b.len() as int),
    ensures
        done(a, b, d + ops.len(), a.len() - b.len()),
        active((d + ops.len()) as int, a.len() - b.len()),
    decreases ops.len(),
{
    let k = x0 - y0;
    if ops.len() == 0 {
        lemma_reach_covers_run(a, b, d, k, x0, a.len() - x0);
    } else {
        match ops[0] {
            Edit::Delete { pos } => {
                lemma_reach_covers_run(a, b, d, k, x0, pos - x0);
                lemma_reach_grows(a, b, d, k);
                assert(active(d + 1int, k + 1));
                lemma_script_bounds_search(a, b, ops.drop_first(), (d + 1) as nat, pos + 1, y0 + (pos - x0));
            },
            Edit::Insert { pos, value } => {
                lemma_reach_covers_run(a, b, d, k, x0, pos - x0);
                lemma_reach_grows(a, b, d, k);
                assert(active(d + 1int, k - 1));
                lemma_script_bounds_search(a, b, ops.drop_first(), (d + 1) as nat, pos as int, value + 1);
            },
        }
    }
}

/// No script from `a` to `b` is shorter than the distance, stated for every
/// script at once.
pub proof fn law_no_shorter_script(a: Seq<char>, b: Seq<char>, dist: nat)
    requires
        is_distance(a, b, dist),
    ensures
        forall|ops: Seq<Edit>| #[trigger] is_script(a, b, ops) ==> dist <= ops.len(),
{
    assert forall|ops: Seq<Edit>| #[trigger] is_script(a, b, ops) implies dist <= ops.len() by {
        law_distance_minimal(a, b, dist, ops);
    }
}

/// The distance is the least number of edits: no script that turns `a`
/// into `b` is shorter.
pub proof fn law_distance_minimal(a: Seq<char>, b: Seq<char>, dist: nat, ops: Seq<Edit>)
    requires
        is_distance(a, b, dist),
        is_script(a, b, ops),
    ensures
        dist <= ops.len(),
{
    let s = start(a, b, 0, 0);
    lemma_reach_bounds(a, b, 0, 0);
    assert(active(0, 0));
    lemma_script_bounds_search(a, b, ops, 0, 0, 0);
    if ops.len() < dist {
        assert(!done(a, b, ops.len(), a.len() - b.len()));
    }
}

proof fn lemma_count_balance(a: Seq<char>, b: Seq<char>, ops: Seq<Edit>, x0: int, y0: int)
    requires
        converts(a, b, ops, x0, y0, a.len() as int, b.len() as int),
    ensures
        count_inserts(ops) - count_deletes(ops) == (b.len() - y0) - (a.len() - x0),
    decreases ops.len(),
{
    if ops.len() > 0 {
        match ops[0] {
            Edit::Delete { pos } => {
                lemma_count_balance(a, b, ops.drop_first(), pos + 1, y0 + (pos - x0));
            },
            Edit::Insert { pos, value } => {
                lemma_count_balance(a, b, ops.drop_first(), pos as int, value + 1);
            },
        }
    }
}

/// Two scripts from `a` to `b` of the same length have the same number of
/// inserts and the same number of deletes; in particular any two shortest
/// scripts do.
pub proof fn law_equal_length_scripts_have_equal_counts(a: Seq<char>, b: Seq<char>, p: Seq<Edit>, q: Seq<Edit>)
    requires
        is_script(a, b, p),
        is_script(a, b, q),
        p.len() == q.len(),
    ensures
        count_inserts(p) == count_inserts(q),
        count_deletes(p) == count_deletes(q),
{
    lemma_count_balance(a, b, p, 0, 0);
    lemma_count_balance(a, b, q, 0, 0);
    lemma_counts_len(p);
    lemma_counts_len(q);
}

/// The edits of a walk back through the search.
pub open spec fn walk_edits(w: Seq<(Edit, int)>) -> Seq<Edit> {
    w.map_values(|p: (Edit, int)| p.0)
}

/// The walk back from a point that the search reaches at `depth` is a script
/// of `depth` edits from the start of both sequences to that point.
proof fn lemma_walk_converts(a: Seq<char>, b: Seq<char>, d: nat, x: int, y: int)
    requires
        active(d as int, x - y),
        start(a, b, d, x - y) <= x <= reach(a, b, d, x - y),
        x <= a.len(),
        y <= b.len(),
        a.len() <= usize::MAX,
        b.len() <= usize::MAX,
    ensures
        converts(a, b, walk_edits(walk(a, b, d, x, y)), 0, 0, x, y),
        walk(a, b, d, x, y).len() == d,
    decreases d,
{
    let k = x - y;
    let s = start(a, b, d, k);
    lemma_reach_bounds(a, b, d, k);
    lemma_slide_bounds(a, b, s, s - k);
    let e = slide(a, b, s, s - k);
    assert(a.subrange(s, x) =~= a.subrange(s, e).subrange(0, x - s));
    assert(b.subrange(s - k, y) =~= b.subrange(s - k, s - k + (e - s)).subrange(0, x - s));
    if d == 0 {
        assert(walk_edits(walk(a, b, d, x, y)) =~= Seq::<Edit>::empty());
    } else {
        let d1 = (d - 1) as nat;
        let pk = if k == -d || (k != d && reach(a, b, d1, k - 1) < reach(a, b, d1, k + 1)) { k + 1 } else { k - 1 };
        let px = reach(a, b, d1, pk);
        let py = px - pk;
        assert(active(d1 as int, pk));
        lemma_reach_bounds(a, b, d1, pk);
        lemma_walk_converts(a, b, d1, px, py);
        let ed = if pk == k + 1 {
            Edit::Insert { pos: px as usize, value: py as usize }
        } else {
            Edit::Delete { pos: px as usize }
        };
        let p = walk_edits(walk(a, b, d1, px, py));
        let one = seq![ed];
        assert(a.subrange(px, px) =~= b.subrange(py, py));
        assert(one.drop_first() =~= Seq::<Edit>::empty());
        assert(px <= x && py <= y);
        if pk == k + 1 {
            assert(s == px && s - k == py + 1);
            assert(converts(a, b, Seq::<Edit>::empty(), px, py + 1, x, y));
        } else {
            assert(s == px + 1 && s - k == py);
            assert(converts(a, b, Seq::<Edit>::empty(), px + 1, py, x, y));
        }
        assert(converts(a, b, one, px, py, x, y));
        assert(converts(a, b, p, 0, 0, px, py));
        lemma_converts_concat(a, b, p, one, 0, 0, px, py, px, py, x, y);
        assert(walk_edits(walk(a, b, d, x, y)) =~= p + one);
    }
}

/// Some script from `a` to `b` has exactly as many edits as the distance.
pub proof fn law_distance_achieved(a: Seq<char>, b: Seq<char>, dist: nat)
    requires
        is_distance(a, b, dist),
        a.len() <= usize::MAX,
        b.len() <= usize::MAX,
    ensures
        exists|ops: Seq<Edit>| #[trigger] is_script(a, b, ops) && ops.len() == dist,
{
    lemma_ends_at_corner(a, b, dist);
    lemma_walk_converts(a, b, dist, a.len() as int, b.len() as int);
    let ops = walk_edits(walk(a, b, dist, a.len() as int, b.len() as int));
    assert(is_script(a, b, ops) && ops.len() == dist);
}

} // verus!
