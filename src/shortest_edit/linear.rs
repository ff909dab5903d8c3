//! The linear-space form of Myers' algorithm: a forward and a backward
//! search over two small rings of diagonals meet on a middle snake, which
//! splits the problem in two. The script found for each window is checked
//! against the window's distance, which the one-array search computes in
//! linear space too; a window that failed the check would be solved by the
//! engine that keeps the whole history, so every result is a shortest script.

use vstd::prelude::*;
use crate::shortest_edit::{is_distance, operations, edits_of, within_limits, modified as distance};
use crate::edit::{Edit, TotalEdits, converts, run_matches, count_inserts, count_deletes,
    lemma_converts_concat, lemma_delete_then_insert, lemma_edit_in_window, lemma_counts_len, is_script, replace_all};

verus! {

/// The slot of diagonal `k` in a ring of `z` diagonals.
pub fn ring(k: i64, z: i64) -> (r: usize)
    requires
        0 < z <= usize::MAX,
    ensures
        r < z,
        r as int == k % z,
{
    if k >= 0 {
        (k % z) as usize
    } else {
        let q = (-(k as i128)) % (z as i128);
        proof {
            let big = -(k as int);
            let zi = z as int;
            assert(big == zi * (big / zi) + big % zi) by (nonlinear_arith)
                requires zi > 0;
            let qq = big / zi;
            let rr = big % zi;
            assert(k as int == (-qq) * zi + 0 - rr) by (nonlinear_arith)
                requires big == zi * qq + rr, k as int == -big;
            assert(k as int == (-qq - 1) * zi + (zi - rr)) by (nonlinear_arith)
                requires k as int == (-qq) * zi + 0 - rr;
            if q == 0 {
                vstd::arithmetic::div_mod::lemma_fundamental_div_mod_converse(k as int, zi, -(big / zi), 0);
            } else {
                vstd::arithmetic::div_mod::lemma_fundamental_div_mod_converse(k as int, zi, -(big / zi) - 1, zi - q);
            }
        }
        if q == 0 {
            0
        } else {
            (z as i128 - q) as usize
        }
    }
}

/// Whether `(x, y)` to `(u, v)` is a run of equal elements inside the
/// window `a[x0..xe]`, `b[y0..ye]`.
pub open spec fn is_meeting(a: Seq<char>, b: Seq<char>, x0: int, xe: int, y0: int, ye: int,
    x: int, y: int, u: int, v: int) -> bool
{
    x0 <= x <= u <= xe && y0 <= y <= v <= ye && u - x == v - y && run_matches(a, b, x, y, u - x)
}

/// Whether every slot of a ring holds a value in `[0, bound]`.
pub open spec fn ring_bounded(c: Seq<i128>, bound: int) -> bool {
    forall|i: int| 0 <= i < c.len() ==> 0 <= #[trigger] c[i] <= bound
}

/// The snake from window position `(s, t)`, forward: how far the elements of
/// the window agree from there on.
fn slide_forward(a: &[char], b: &[char], x0: usize, xe: usize, y0: usize, ye: usize, s: i128, t: i128)
    -> (r: (i128, i128))
    requires
        x0 < xe <= a@.len(),
        y0 < ye <= b@.len(),
        -0x4000_0000_0000_0000_0000_0000_0000_0000 <= s <= 0x4000_0000_0000_0000_0000_0000_0000_0000,
        -0x4000_0000_0000_0000_0000_0000_0000_0000 <= t <= 0x4000_0000_0000_0000_0000_0000_0000_0000,
    ensures
        s <= r.0,
        r.0 - r.1 == s - t,
        r.0 == s || r.0 <= xe - x0,
        r.0 == s || (0 <= s && 0 <= t && r.1 <= ye - y0 && run_matches(a@, b@, x0 + s, y0 + t, r.0 - s)),
{
    let n: i128 = (xe - x0) as i128;
    let m: i128 = (ye - y0) as i128;
    let mut xa = s;
    let mut yb = t;
    while 0 <= xa && xa < n && 0 <= yb && yb < m && a[x0 + xa as usize] == b[y0 + yb as usize]
        invariant
            x0 < xe <= a@.len(),
            y0 < ye <= b@.len(),
            n == xe - x0,
            m == ye - y0,
            s <= xa,
            xa - yb == s - t,
            xa == s || xa <= n,
            xa == s || (0 <= s && 0 <= t && yb <= m && run_matches(a@, b@, x0 + s, y0 + t, xa - s)),
        decreases n - xa,
    {
        proof {
            let i = x0 + xa;
            let j = y0 + yb;
            assert(a@.subrange(x0 + s, i + 1) =~= a@.subrange(x0 + s, i) + seq![a@[i]]);
            assert(b@.subrange(y0 + t, j + 1) =~= b@.subrange(y0 + t, j) + seq![b@[j]]);
        }
        xa = xa + 1;
        yb = yb + 1;
    }
    (xa, yb)
}

/// The snake from window position `(s, t)` counted from the end of the
/// window, backward: how far the elements agree going toward the start.
fn slide_backward(a: &[char], b: &[char], x0: usize, xe: usize, y0: usize, ye: usize, s: i128, t: i128)
    -> (r: (i128, i128))
    requires
        x0 < xe <= a@.len(),
        y0 < ye <= b@.len(),
        -0x4000_0000_0000_0000_0000_0000_0000_0000 <= s <= 0x4000_0000_0000_0000_0000_0000_0000_0000,
        -0x4000_0000_0000_0000_0000_0000_0000_0000 <= t <= 0x4000_0000_0000_0000_0000_0000_0000_0000,
    ensures
        s <= r.0,
        r.0 - r.1 == s - t,
        r.0 == s || r.0 <= xe - x0,
        r.0 == s || (0 <= s && 0 <= t && r.1 <= ye - y0 && run_matches(a@, b@, xe - r.0, ye - r.1, r.0 - s)),
{
    let n: i128 = (xe - x0) as i128;
    let m: i128 = (ye - y0) as i128;
    let mut xa = s;
    let mut yb = t;
    while 0 <= xa && xa < n && 0 <= yb && yb < m && a[xe - 1 - xa as usize] == b[ye - 1 - yb as usize]
        invariant
            x0 < xe <= a@.len(),
            y0 < ye <= b@.len(),
            n == xe - x0,
            m == ye - y0,
            s <= xa,
            xa - yb == s - t,
            xa == s || xa <= n,
            xa == s || (0 <= s && 0 <= t && yb <= m && run_matches(a@, b@, xe - xa, ye - yb, xa - s)),
        decreases n - xa,
    {
        proof {
            let i = xe - 1 - xa;
            let j = ye - 1 - yb;
            assert(a@.subrange(i, xe - s) =~= seq![a@[i]] + a@.subrange(i + 1, xe - s));
            assert(b@.subrange(j, ye - t) =~= seq![b@[j]] + b@.subrange(j + 1, ye - t));
        }
        xa = xa + 1;
        yb = yb + 1;
    }
    (xa, yb)
}

/// One sweep over the diagonals of half-depth `h`, forward from the start of
/// the window or backward from its end, that records the furthest reach of
/// each diagonal in `c` and looks for an overlap with the other search,
/// whose reaches are in `d`. On an overlap it returns the middle snake.
#[verifier::rlimit(100)]
fn sweep(a: &[char], b: &[char], x0: usize, xe: usize, y0: usize, ye: usize,
    c: &mut Vec<i128>, d: &Vec<i128>, h: i64, forward: bool, Ghost(bound): Ghost<int>,
) -> (r: Option<(usize, usize, usize, usize)>)
    requires
        within_limits(a@, b@),
        x0 < xe <= a@.len(),
        y0 < ye <= b@.len(),
        0 <= h <= a@.len() + b@.len() + 2,
        old(c)@.len() == d@.len(),
        0 < d@.len() <= (xe - x0) + (ye - y0) + 2,
        0 <= bound <= 0x2000_0000_0000_0000_0000_0000_0000_0000,
        xe - x0 <= bound,
        ring_bounded(old(c)@, bound),
        ring_bounded(d@, bound),
    ensures
        final(c)@.len() == old(c)@.len(),
        ring_bounded(final(c)@, bound + h + 1),
        r matches Some((x, y, u, v)) ==> is_meeting(a@, b@, x0 as int, xe as int, y0 as int, ye as int,
            x as int, y as int, u as int, v as int),
{
    let n: i64 = (xe - x0) as i64;
    let m: i64 = (ye - y0) as i64;
    let total: i64 = n + m;
    let zz: i64 = c.len() as i64;
    let w: i64 = n - m;
    let o: i64 = if forward { 1 } else { 0 };
    let hm: i64 = if h > m { h - m } else { 0 };
    let hn: i64 = if h > n { h - n } else { 0 };
    let start: i64 = -(h - 2 * hm);
    let end: i64 = h - 2 * hn + 1;
    let mut k: i64 = start;
    let ghost mut steps: int = 0;
    while k < end
        invariant
            c@.len() == d@.len(),
            c@.len() == old(c)@.len(),
            zz == c@.len(),
            0 < zz <= n + m + 2,
            n == xe - x0,
            m == ye - y0,
            x0 < xe <= a@.len(),
            y0 < ye <= b@.len(),
            within_limits(a@, b@),
            0 <= h <= a@.len() + b@.len() + 2,
            start >= -h,
            end <= h + 1,
            k - start == 2 * steps,
            k == start || k <= end + 1,
            w == n - m,
            total == n + m,
            o == (if forward { 1i64 } else { 0i64 }),
            0 <= steps,
            0 <= bound <= 0x2000_0000_0000_0000_0000_0000_0000_0000,
            n <= bound,
            ring_bounded(c@, bound + steps),
            ring_bounded(d@, bound),
        decreases end + 2 - k,
    {
        let c_minus = c[ring(k - 1, zz)];
        let c_plus = c[ring(k + 1, zz)];
        let xa: i128 = if k == -h || (k != h && c_minus < c_plus) { c_plus } else { c_minus + 1 };
        let yb: i128 = xa - k as i128;
        let s = xa;
        let t = yb;
        let (xa, yb) = if forward {
            slide_forward(a, b, x0, xe, y0, ye, s, t)
        } else {
            slide_backward(a, b, x0, xe, y0, ye, s, t)
        };
        c.set(ring(k, zz), xa);
        let z: i64 = -(k - w);
        if total % 2 == o && z >= -(h - o) && z <= h - o && xa + d[ring(z, zz)] >= n as i128 {
            if 0 <= s && 0 <= t && xa <= n as i128 && yb <= m as i128 {
                proof {
                    assert(steps <= h);
                    assert(ring_bounded(c@, bound + h + 1));
                    if xa == s {
                        if forward {
                            assert(a@.subrange(x0 + s, x0 + s) =~= b@.subrange(y0 + t, y0 + t));
                        } else {
                            assert(a@.subrange(xe - s, xe - s) =~= b@.subrange(ye - t, ye - t));
                        }
                    }
                }
                if forward {
                    return Some((x0 + s as usize, y0 + t as usize, x0 + xa as usize, y0 + yb as usize));
                } else {
                    return Some((xe - xa as usize, ye - yb as usize, xe - s as usize, ye - t as usize));
                }
            }
        }
        k = k + 2;
        proof {
            steps = steps + 1;
        }
    }
    assert(steps <= h + 1);
    None
}

/// The middle snake of the window `a[x0..xe]`, `b[y0..ye]`: a forward search
/// from the start and a backward search from the end, one sweep each per
/// half-depth, until their reaches on corresponding diagonals overlap.
#[verifier::rlimit(60)]
fn middle_snake(a: &[char], b: &[char], x0: usize, xe: usize, y0: usize, ye: usize)
    -> (r: Option<(usize, usize, usize, usize)>)
    requires
        within_limits(a@, b@),
        x0 < xe <= a@.len(),
        y0 < ye <= b@.len(),
    ensures
        r matches Some((x, y, u, v)) ==> is_meeting(a@, b@, x0 as int, xe as int, y0 as int, ye as int,
            x as int, y as int, u as int, v as int),
{
    let n: i64 = (xe - x0) as i64;
    let m: i64 = (ye - y0) as i64;
    let total: i64 = n + m;
    let zz: i64 = 2 * (if n < m { n } else { m }) + 2;
    let mut g: Vec<i128> = vec![0i128; zz as usize];
    let mut p: Vec<i128> = vec![0i128; zz as usize];
    let h_end: i64 = if total % 2 != 0 { total / 2 + 2 } else { total / 2 + 1 };
    let mut h: i64 = 0;
    let ghost mut bound: int = n as int;
    while h < h_end
        invariant
            within_limits(a@, b@),
            x0 < xe <= a@.len(),
            y0 < ye <= b@.len(),
            n == xe - x0,
            m == ye - y0,
            0 < zz <= n + m + 2,
            g@.len() == zz,
            p@.len() == zz,
            0 <= h <= h_end,
            h_end <= total / 2 + 2,
            total == n + m,
            n <= bound <= n + h * (2 * h_end + 2),
            ring_bounded(g@, bound),
            ring_bounded(p@, bound),
        decreases h_end - h,
    {
        proof {
            assert(h_end <= 0x2000_0000_0000_0000);
            assert(h * (2 * h_end + 2) <= 0x1000_0000_0000_0000_0000_0000_0000_0000) by (nonlinear_arith)
                requires 0 <= h <= h_end, h_end <= 0x2000_0000_0000_0000;
            assert(bound + h + 1 <= n + (h + 1) * (2 * h_end + 2)) by (nonlinear_arith)
                requires bound <= n + h * (2 * h_end + 2), 0 <= h < h_end;
        }
        let found = sweep(a, b, x0, xe, y0, ye, &mut g, &p, h, true, Ghost(bound));
        if found.is_some() {
            return found;
        }
        proof {
            bound = bound + h + 1;
            assert(ring_bounded(p@, bound));
        }
        let found = sweep(a, b, x0, xe, y0, ye, &mut p, &g, h, false, Ghost(bound));
        if found.is_some() {
            return found;
        }
        proof {
            assert(bound + h + 1 <= n + (h + 1) * (2 * h_end + 2)) by (nonlinear_arith)
                requires bound <= n + h * (2 * h_end + 2) + h + 1, 0 <= h < h_end;
            bound = bound + h + 1;
            assert(ring_bounded(g@, bound));
        }
        h = h + 1;
    }
    None
}

/// The script that deletes the whole source window and inserts the whole
/// target window; for an empty window on either side it is the only one.
fn whole(x0: usize, xe: usize, y0: usize, ye: usize, a: &[char], b: &[char]) -> (r: TotalEdits)
    requires
        within_limits(a@, b@),
        x0 <= xe <= a@.len(),
        y0 <= ye <= b@.len(),
    ensures
        converts(a@, b@, r.ops@, x0 as int, y0 as int, xe as int, ye as int),
        r.wf(),
        r.inserts == ye - y0,
        r.deletes == xe - x0,
{
    let ops = replace_all(x0, xe, y0, ye);
    proof {
        lemma_delete_then_insert(a@, b@, x0 as int, (xe - x0) as nat, y0 as int, (ye - y0) as nat);
    }
    TotalEdits { inserts: ye - y0, deletes: xe - x0, ops }
}

/// The script for a window that the search did not split: the common
/// prefix and suffix are kept and what lies between is replaced.
fn trimmed(a: &[char], b: &[char], x0: usize, xe: usize, y0: usize, ye: usize) -> (r: TotalEdits)
    requires
        within_limits(a@, b@),
        x0 <= xe <= a@.len(),
        y0 <= ye <= b@.len(),
    ensures
        converts(a@, b@, r.ops@, x0 as int, y0 as int, xe as int, ye as int),
        r.wf(),
        r.inserts + r.deletes <= (xe - x0) + (ye - y0),
{
    let mut px = x0;
    let mut py = y0;
    proof {
        assert(a@.subrange(x0 as int, x0 as int) =~= b@.subrange(y0 as int, y0 as int));
    }
    while px < xe && py < ye && a[px] == b[py]
        invariant
            x0 <= px <= xe,
            y0 <= py <= ye,
            xe <= a@.len(),
            ye <= b@.len(),
            px - x0 == py - y0,
            run_matches(a@, b@, x0 as int, y0 as int, px - x0),
        decreases xe - px,
    {
        proof {
            assert(a@.subrange(x0 as int, px + 1) =~= a@.subrange(x0 as int, px as int) + seq![a@[px as int]]);
            assert(b@.subrange(y0 as int, py + 1) =~= b@.subrange(y0 as int, py as int) + seq![b@[py as int]]);
        }
        px = px + 1;
        py = py + 1;
    }
    let mut qx = xe;
    let mut qy = ye;
    proof {
        assert(a@.subrange(xe as int, xe as int) =~= b@.subrange(ye as int, ye as int));
    }
    while qx > px && qy > py && a[qx - 1] == b[qy - 1]
        invariant
            px <= qx <= xe,
            py <= qy <= ye,
            xe <= a@.len(),
            ye <= b@.len(),
            xe - qx == ye - qy,
            run_matches(a@, b@, qx as int, qy as int, xe - qx),
        decreases qx,
    {
        proof {
            assert(a@.subrange(qx - 1, xe as int) =~= seq![a@[qx - 1]] + a@.subrange(qx as int, xe as int));
            assert(b@.subrange(qy - 1, ye as int) =~= seq![b@[qy - 1]] + b@.subrange(qy as int, ye as int));
        }
        qx = qx - 1;
        qy = qy - 1;
    }
    let inner = whole(px, qx, py, qy, a, b);
    proof {
        let e = Seq::<Edit>::empty();
        assert(a@.subrange(x0 as int, x0 as int) =~= b@.subrange(y0 as int, y0 as int));
        assert(converts(a@, b@, e, x0 as int, y0 as int, x0 as int, y0 as int));
        lemma_converts_concat(a@, b@, e, inner.ops@, x0 as int, y0 as int, x0 as int, y0 as int,
            px as int, py as int, qx as int, qy as int);
        assert(e + inner.ops@ =~= inner.ops@);
        assert(converts(a@, b@, e, xe as int, ye as int, xe as int, ye as int));
        lemma_converts_concat(a@, b@, inner.ops@, e, x0 as int, y0 as int, qx as int, qy as int,
            xe as int, ye as int, xe as int, ye as int);
        assert(inner.ops@ + e =~= inner.ops@);
    }
    inner
}

/// A script between two windows, taken as sequences of their own, becomes a
/// script between the windows once its positions are shifted by where the
/// windows start.
proof fn lemma_converts_shift(a: Seq<char>, b: Seq<char>, x0: int, xe: int, y0: int, ye: int,
    ops: Seq<Edit>, p: int, q: int)
    requires
        0 <= x0 <= xe <= a.len(),
        0 <= y0 <= ye <= b.len(),
        xe <= usize::MAX,
        ye <= usize::MAX,
        converts(a.subrange(x0, xe), b.subrange(y0, ye), ops, p, q, xe - x0, ye - y0),
    ensures
        converts(a, b, shifted(ops, x0, y0), x0 + p, y0 + q, xe, ye),
    decreases ops.len(),
{
    let sa = a.subrange(x0, xe);
    let sb = b.subrange(y0, ye);
    let so = shifted(ops, x0, y0);
    if ops.len() == 0 {
        assert(sa.subrange(p, xe - x0) =~= a.subrange(x0 + p, xe));
        assert(sb.subrange(q, ye - y0) =~= b.subrange(y0 + q, ye));
    } else {
        assert(so.drop_first() =~= shifted(ops.drop_first(), x0, y0));
        assert(so[0] == shift_edit(ops[0], x0, y0));
        match ops[0] {
            Edit::Delete { pos } => {
                let n = pos - p;
                assert(sa.subrange(p, p + n) =~= a.subrange(x0 + p, x0 + p + n));
                assert(sb.subrange(q, q + n) =~= b.subrange(y0 + q, y0 + q + n));
                lemma_converts_shift(a, b, x0, xe, y0, ye, ops.drop_first(), pos + 1, q + n);
            },
            Edit::Insert { pos, value } => {
                let n = pos - p;
                assert(sa.subrange(p, p + n) =~= a.subrange(x0 + p, x0 + p + n));
                assert(sb.subrange(q, q + n) =~= b.subrange(y0 + q, y0 + q + n));
                lemma_converts_shift(a, b, x0, xe, y0, ye, ops.drop_first(), pos as int, value + 1);
            },
        }
    }
}

/// A shortest script for the window, from the engine that keeps the whole
/// history of the search, with positions shifted to the window.
fn shortest_window(a: &[char], b: &[char], x0: usize, xe: usize, y0: usize, ye: usize) -> (r: TotalEdits)
    requires
        within_limits(a@, b@),
        x0 <= xe <= a@.len(),
        y0 <= ye <= b@.len(),
    ensures
        converts(a@, b@, r.ops@, x0 as int, y0 as int, xe as int, ye as int),
        r.wf(),
        is_distance(a@.subrange(x0 as int, xe as int), b@.subrange(y0 as int, ye as int), r.ops@.len() as nat),
{
    let sa = vstd::slice::slice_subrange(a, x0, xe);
    let sb = vstd::slice::slice_subrange(b, y0, ye);
    let found = operations(sa, sb);
    let ghost local = edits_of(found.edits@);
    let mut ops: Vec<Edit> = Vec::new();
    let mut i: usize = 0;
    while i < found.edits.len()
        invariant
            i <= found.edits@.len(),
            local == edits_of(found.edits@),
            local.len() == found.edits@.len(),
            xe <= a@.len(),
            ye <= b@.len(),
            x0 <= xe,
            y0 <= ye,
            converts(sa@, sb@, local, 0, 0, sa@.len() as int, sb@.len() as int),
            sa@ == a@.subrange(x0 as int, xe as int),
            sb@ == b@.subrange(y0 as int, ye as int),
            ops@ == shifted(local.subrange(0, i as int), x0 as int, y0 as int),
        decreases found.edits@.len() - i,
    {
        proof {
            lemma_edit_in_window(sa@, sb@, local, i as int);
        }
        let e = match found.edits[i].edit {
            Edit::Delete { pos } => Edit::Delete { pos: pos + x0 },
            Edit::Insert { pos, value } => Edit::Insert { pos: pos + x0, value: value + y0 },
        };
        ops.push(e);
        proof {
            assert(ops@ =~= shifted(local.subrange(0, i + 1), x0 as int, y0 as int));
        }
        i = i + 1;
    }
    proof {
        assert(local.subrange(0, local.len() as int) =~= local);
        lemma_shift_counts(local, x0 as int, y0 as int);
        lemma_converts_shift(a@, b@, x0 as int, xe as int, y0 as int, ye as int, local, 0, 0);
    }
    TotalEdits { inserts: found.inserts, deletes: found.deletes, ops }
}

/// The script for the window `a[x0..xe]`, `b[y0..ye]`: empty windows are
/// resolved directly; otherwise the window is split on its middle snake and
/// both parts are solved in turn. A window whose middle snake leaves one part
/// as large as the whole (a distance of at most one) keeps its common prefix
/// and suffix instead, and replaces what lies between. The length of the
/// result is checked against the distance of the window, found by the
/// search that keeps one diagonal array only; should the two differ, the
/// window is solved by the engine that keeps the whole history.
fn diff_window(a: &[char], b: &[char], x0: usize, xe: usize, y0: usize, ye: usize) -> (r: TotalEdits)
    requires
        within_limits(a@, b@),
        x0 <= xe <= a@.len(),
        y0 <= ye <= b@.len(),
    ensures
        converts(a@, b@, r.ops@, x0 as int, y0 as int, xe as int, ye as int),
        r.wf(),
        r.inserts + r.deletes <= (xe - x0) + (ye - y0),
        is_distance(a@.subrange(x0 as int, xe as int), b@.subrange(y0 as int, ye as int), r.ops@.len() as nat),
    decreases (xe - x0) + (ye - y0),
{
    let size = (xe - x0) + (ye - y0);
    let r = if x0 == xe || y0 == ye {
        whole(x0, xe, y0, ye, a, b)
    } else {
        let mut split: Option<TotalEdits> = None;
        if let Some((x, y, u, v)) = middle_snake(a, b, x0, xe, y0, ye) {
            if (x - x0) + (y - y0) < size && (xe - u) + (ye - v) < size {
                let first = diff_window(a, b, x0, x, y0, y);
                let second = diff_window(a, b, u, xe, v, ye);
                proof {
                    lemma_converts_concat(a@, b@, first.ops@, second.ops@, x0 as int, y0 as int, x as int, y as int,
                        u as int, v as int, xe as int, ye as int);
                }
                split = Some(first.merge(second));
            }
        }
        match split {
            Some(s) => s,
            None => trimmed(a, b, x0, xe, y0, ye),
        }
    };
    let sa = vstd::slice::slice_subrange(a, x0, xe);
    let sb = vstd::slice::slice_subrange(b, y0, ye);
    let dist = distance(sa, sb);
    if r.ops.len() == dist {
        proof {
            lemma_counts_len(r.ops@);
        }
        r
    } else {
        let s = shortest_window(a, b, x0, xe, y0, ye);
        proof {
            lemma_counts_len(s.ops@);
        }
        s
    }
}

/// The edit `e` with its position shifted by `dx` in the source and its
/// value by `dy` in the target.
pub open spec fn shift_edit(e: Edit, dx: int, dy: int) -> Edit {
    match e {
        Edit::Delete { pos } => Edit::Delete { pos: (pos + dx) as usize },
        Edit::Insert { pos, value } => Edit::Insert { pos: (pos + dx) as usize, value: (value + dy) as usize },
    }
}

/// A script with every position shifted by `dx` in the source and `dy` in
/// the target.
pub open spec fn shifted(ops: Seq<Edit>, dx: int, dy: int) -> Seq<Edit> {
    ops.map_values(|e: Edit| shift_edit(e, dx, dy))
}

proof fn lemma_shift_counts(ops: Seq<Edit>, dx: int, dy: int)
    ensures
        count_inserts(shifted(ops, dx, dy)) == count_inserts(ops),
        count_deletes(shifted(ops, dx, dy)) == count_deletes(ops),
    decreases ops.len(),
{
    if ops.len() > 0 {
        assert(shifted(ops, dx, dy).drop_first() =~= shifted(ops.drop_first(), dx, dy));
        lemma_shift_counts(ops.drop_first(), dx, dy);
    }
}

/// The edit script from `left` to `right` by the linear-space search, with
/// positions reported as absolute indices: `left` starts at `left_index` of
/// the source and `right` at `right_index` of the target. Shifted back by
/// those offsets the script turns `left` into `right`, and no script is
/// shorter.
pub fn modified(left: &[char], right: &[char], left_index: usize, right_index: usize) -> (r: TotalEdits)
    requires
        within_limits(left@, right@),
        left_index + left@.len() <= usize::MAX,
        right_index + right@.len() <= usize::MAX,
    ensures
        exists|ops: Seq<Edit>| #[trigger] shifted(ops, left_index as int, right_index as int) == r.ops@
            && is_script(left@, right@, ops),
        r.wf(),
        is_distance(left@, right@, r.ops@.len() as nat),
{
    let local = diff_window(left, right, 0, left.len(), 0, right.len());
    let mut ops: Vec<Edit> = Vec::new();
    let mut i: usize = 0;
    while i < local.ops.len()
        invariant
            i <= local.ops@.len(),
            left_index + left@.len() <= usize::MAX,
            right_index + right@.len() <= usize::MAX,
            converts(left@, right@, local.ops@, 0, 0, left@.len() as int, right@.len() as int),
            ops@ == shifted(local.ops@.subrange(0, i as int), left_index as int, right_index as int),
        decreases local.ops@.len() - i,
    {
        proof {
            lemma_edit_in_window(left@, right@, local.ops@, i as int);
        }
        let e = match local.ops[i] {
            Edit::Delete { pos } => Edit::Delete { pos: pos + left_index },
            Edit::Insert { pos, value } => Edit::Insert { pos: pos + left_index, value: value + right_index },
        };
        ops.push(e);
        proof {
            assert(ops@ =~= shifted(local.ops@.subrange(0, i + 1), left_index as int, right_index as int));
        }
        i = i + 1;
    }
    proof {
        assert(local.ops@.subrange(0, local.ops@.len() as int) =~= local.ops@);
        assert(left@.subrange(0, left@.len() as int) =~= left@);
        assert(right@.subrange(0, right@.len() as int) =~= right@);
        lemma_shift_counts(local.ops@, left_index as int, right_index as int);
    }
    TotalEdits { inserts: local.inserts, deletes: local.deletes, ops }
}

} // verus!
