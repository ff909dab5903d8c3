//! The quadratic forms of Myers' algorithm: the furthest-reaching search over
//! diagonals, a history of its steps, and the walk back through that history
//! that yields an edit script.
//!
//! A diagonal `k` holds the points `(x, y)` with `x - y == k`. In the arrays
//! below diagonal `k` is stored at index `mid + k`, with `mid == |a| + |b|`.

use vstd::prelude::*;
use crate::array::{gi, si, signed_pos};
use crate::laws::{law_distance_identity, law_distance_unique, law_no_shorter_script, law_distance_achieved};
use crate::corner::lemma_ends_at_corner;
use crate::edit::{Edit, converts, is_script, run_matches, count_inserts, count_deletes,
    lemma_converts_extend_front};

pub mod linear;

verus! {

/// Inputs small enough that every position and diagonal index below fits in
/// a machine word.
pub open spec fn within_limits(a: Seq<char>, b: Seq<char>) -> bool {
    a.len() + b.len() <= usize::MAX / 8
}

/// The end of the run of equal elements that starts at `(x, y)`.
pub open spec fn slide(a: Seq<char>, b: Seq<char>, x: int, y: int) -> int
    decreases a.len() - x,
{
    if 0 <= x < a.len() && 0 <= y < b.len() && a[x] == b[y] {
        slide(a, b, x + 1, y + 1)
    } else {
        x
    }
}

/// Whether diagonal `k` is searched at `depth`.
pub open spec fn active(depth: int, k: int) -> bool {
    -depth <= k <= depth && (depth + k) % 2 == 0
}

/// Where the search on diagonal `k` at `depth` starts, before its snake: one
/// step down from diagonal `k + 1` (an insert) or one step right from
/// diagonal `k - 1` (a delete), whichever reached further at `depth - 1`,
/// with ties going to the delete.
pub open spec fn start(a: Seq<char>, b: Seq<char>, depth: nat, k: int) -> int
    decreases depth, 0int,
{
    if depth == 0 {
        0
    } else if k == -depth || (k != depth && reach(a, b, (depth - 1) as nat, k - 1) < reach(a, b, (depth - 1) as nat, k + 1)) {
        reach(a, b, (depth - 1) as nat, k + 1)
    } else {
        reach(a, b, (depth - 1) as nat, k - 1) + 1
    }
}

/// The furthest `x` reached on diagonal `k` by a path of `depth` edits.
pub open spec fn reach(a: Seq<char>, b: Seq<char>, depth: nat, k: int) -> int
    decreases depth, 1int,
{
    let s = start(a, b, depth, k);
    slide(a, b, s, s - k)
}

/// Whether the path on diagonal `k` at `depth` has reached the end of both
/// sequences.
pub open spec fn done(a: Seq<char>, b: Seq<char>, depth: nat, k: int) -> bool {
    reach(a, b, depth, k) >= a.len() && reach(a, b, depth, k) - k >= b.len()
}

/// Whether `depth` is the first depth at which the search reaches the end:
/// the edit distance found by the search.
pub open spec fn is_distance(a: Seq<char>, b: Seq<char>, depth: nat) -> bool {
    (exists|k: int| active(depth as int, k) && #[trigger] done(a, b, depth, k))
        && forall|e: nat, k: int| e < depth && active(e as int, k) ==> !#[trigger] done(a, b, e, k)
}

/// Whether `values[mid + k]` holds the reach of every diagonal `k` searched at
/// `depth`.
pub open spec fn holds_depth(a: Seq<char>, b: Seq<char>, values: Seq<usize>, mid: int, depth: int) -> bool {
    forall|k: int| active(depth, k) ==> #[trigger] values[mid + k] == reach(a, b, depth as nat, k)
}

pub proof fn lemma_slide_bounds(a: Seq<char>, b: Seq<char>, x: int, y: int)
    ensures
        x <= slide(a, b, x, y),
        slide(a, b, x, y) <= if x <= a.len() { a.len() as int } else { x },
        x < slide(a, b, x, y) ==> 0 <= y && slide(a, b, x, y) - x + y <= b.len(),
        (0 <= x <= a.len() && 0 <= y <= b.len()) ==> run_matches(a, b, x, y, slide(a, b, x, y) - x),
    decreases a.len() - x,
{
    if 0 <= x < a.len() && 0 <= y < b.len() && a[x] == b[y] {
        lemma_slide_bounds(a, b, x + 1, y + 1);
        let e = slide(a, b, x, y);
        assert(a.subrange(x, e) =~= seq![a[x]] + a.subrange(x + 1, e));
        assert(b.subrange(y, y + (e - x)) =~= seq![b[y]] + b.subrange(y + 1, y + (e - x)));
    } else if 0 <= x <= a.len() && 0 <= y <= b.len() {
        assert(a.subrange(x, x) =~= b.subrange(y, y));
    }
}

/// Bounds on the search: a path of `depth` edits on diagonal `k` has made at
/// least `depth` steps, and has moved right at most `depth` times past the
/// end of `a`.
pub proof fn lemma_reach_bounds(a: Seq<char>, b: Seq<char>, depth: nat, k: int)
    requires
        active(depth as int, k),
    ensures
        2 * start(a, b, depth, k) >= depth + k,
        0 <= start(a, b, depth, k) <= a.len() + depth,
        2 * reach(a, b, depth, k) >= depth + k,
        start(a, b, depth, k) <= reach(a, b, depth, k) <= a.len() + depth,
    decreases depth,
{
    if depth > 0 {
        let d1 = (depth - 1) as nat;
        if k > -(depth as int) {
            lemma_reach_bounds(a, b, d1, k - 1);
        }
        if k < depth {
            lemma_reach_bounds(a, b, d1, k + 1);
        }
    }
    let s = start(a, b, depth, k);
    lemma_slide_bounds(a, b, s, s - k);
}

/// The search reaches the end of both sequences by depth `|a| + |b|`.
pub proof fn lemma_done_at_most(a: Seq<char>, b: Seq<char>)
    ensures
        active((a.len() + b.len()) as int, a.len() - b.len()),
        done(a, b, (a.len() + b.len()) as nat, a.len() - b.len()),
{
    let d = (a.len() + b.len()) as nat;
    let k = a.len() - b.len();
    assert((d + k) % 2 == 0) by {
        assert(d + k == 2 * a.len());
    }
    lemma_reach_bounds(a, b, d, k);
}

/// The end of the snake from `(x, y)`.
pub fn snake_end(a: &[char], b: &[char], x0: usize, y0: usize) -> (r: usize)
    ensures
        r == slide(a@, b@, x0 as int, y0 as int),
{
    let mut x = x0;
    let mut y = y0;
    while x < a.len() && y < b.len() && a[x] == b[y]
        invariant
            slide(a@, b@, x as int, y as int) == slide(a@, b@, x0 as int, y0 as int),
        decreases a.len() - x,
    {
        x = x + 1;
        y = y + 1;
    }
    x
}

/// The search step: the furthest `x` on the diagonal stored at index `k`,
/// given the reaches of `depth - 1` in `values`.
pub fn furthest(a: &[char], b: &[char], values: &[usize], mid: usize, depth: usize, k: usize) -> (r: usize)
    requires
        within_limits(a@, b@),
        mid == a@.len() + b@.len(),
        values@.len() == 2 * mid + 1,
        depth <= mid,
        active(depth as int, k - mid),
        depth > 0 ==> holds_depth(a@, b@, values@, mid as int, depth - 1),
    ensures
        r == reach(a@, b@, depth as nat, k - mid),
        r <= a@.len() + depth,
{
    let ghost kk = k - mid;
    proof {
        lemma_reach_bounds(a@, b@, depth as nat, kk);
        if depth > 0 {
            if kk > -depth {
                assert(active(depth - 1, kk - 1));
                assert(values@[mid + (kk - 1)] == reach(a@, b@, (depth - 1) as nat, kk - 1));
                lemma_reach_bounds(a@, b@, (depth - 1) as nat, kk - 1);
            }
            if kk < depth {
                assert(active(depth - 1, kk + 1));
                assert(values@[mid + (kk + 1)] == reach(a@, b@, (depth - 1) as nat, kk + 1));
                lemma_reach_bounds(a@, b@, (depth - 1) as nat, kk + 1);
            }
        }
    }
    let lower = mid - depth;
    let upper = mid + depth;
    let x = if depth == 0 {
        0
    } else if k == lower || (k != upper && values[k - 1] < values[k + 1]) {
        values[k + 1]
    } else {
        values[k - 1] + 1
    };
    let y = mid + x - k;
    snake_end(a, b, x, y)
}

/// Whether `values` holds the reach of every diagonal `k` searched at
/// `depth` at the signed index `k`, negative ones counted from the back.
pub open spec fn holds_depth_signed(a: Seq<char>, b: Seq<char>, values: Seq<isize>, depth: int) -> bool {
    forall|k: int| active(depth, k) ==> #[trigger] values[signed_pos(values.len() as int, k)] == reach(a, b, depth as nat, k)
}

/// The edit distance between `a` and `b`, computed over signed diagonals
/// stored at signed indices.
#[verifier::rlimit(60)]
pub fn base(a: &[char], b: &[char]) -> (r: isize)
    requires
        within_limits(a@, b@),
    ensures
        r >= 0,
        is_distance(a@, b@, r as nat),
        r <= a@.len() + b@.len(),
        forall|ops: Seq<Edit>| #[trigger] is_script(a@, b@, ops) ==> r <= ops.len(),
        exists|ops: Seq<Edit>| #[trigger] is_script(a@, b@, ops) && ops.len() == r,
{
    let a_len = a.len() as isize;
    let b_len = b.len() as isize;
    let max = a_len + b_len;
    let mut values: Vec<isize> = vec![0isize; (2 * max + 1) as usize];
    let mut depth: isize = 0;
    while depth <= max
        invariant
            a_len == a@.len(),
            b_len == b@.len(),
            max == a_len + b_len,
            within_limits(a@, b@),
            values@.len() == 2 * max + 1,
            0 <= depth <= max + 1,
            depth > 0 ==> holds_depth_signed(a@, b@, values@, depth - 1),
            forall|e: nat, j: int| e < depth && active(e as int, j) ==> !#[trigger] done(a@, b@, e, j),
        decreases max + 1 - depth,
    {
        let mut k: isize = -depth;
        while k <= depth
            invariant
                a_len == a@.len(),
                b_len == b@.len(),
                max == a_len + b_len,
                within_limits(a@, b@),
                values@.len() == 2 * max + 1,
                0 <= depth <= max,
                -depth <= k <= depth + 2,
                (k + depth) % 2 == 0,
                depth > 0 ==> holds_depth_signed(a@, b@, values@, depth - 1),
                forall|j: int| active(depth as int, j) && j < k ==> #[trigger] values@[signed_pos(values@.len() as int, j)] == reach(a@, b@, depth as nat, j),
                forall|e: nat, j: int| e < depth && active(e as int, j) ==> !#[trigger] done(a@, b@, e, j),
                forall|j: int| active(depth as int, j) && j < k ==> !#[trigger] done(a@, b@, depth as nat, j),
            decreases depth + 2 - k,
        {
            proof {
                lemma_reach_bounds(a@, b@, depth as nat, k as int);
                if depth > 0 {
                    if k > -depth {
                        assert(active(depth - 1, k - 1));
                        lemma_reach_bounds(a@, b@, (depth - 1) as nat, k - 1);
                    }
                    if k < depth {
                        assert(active(depth - 1, k + 1));
                        lemma_reach_bounds(a@, b@, (depth - 1) as nat, k + 1);
                    }
                }
            }
            let mut x: isize = if depth == 0 {
                0
            } else if k == -depth || (k != depth && gi(&values, k - 1) < gi(&values, k + 1)) {
                *gi(&values, k + 1)
            } else {
                *gi(&values, k - 1) + 1
            };
            proof {
                assert(x == start(a@, b@, depth as nat, k as int));
                assert(0 <= x <= a_len + depth);
                assert(2 * x >= depth + k);
            }
            let mut y: isize = x - k;
            x = snake_end(a, b, x as usize, y as usize) as isize;
            y = x - k;
            let ghost before = values@;
            si(&mut values, k, x);
            proof {
                assert forall|j: int| active(depth - 1, j) implies signed_pos(values@.len() as int, j) != signed_pos(values@.len() as int, k as int) by {}
                assert(forall|i: int| 0 <= i < values@.len() && i != signed_pos(values@.len() as int, k as int) ==> values@[i] == before[i]);
            }
            if x >= a_len && y >= b_len {
                proof {
                    assert(done(a@, b@, depth as nat, k as int));
                    assert(is_distance(a@, b@, depth as nat));
                    law_no_shorter_script(a@, b@, depth as nat);
                    law_distance_achieved(a@, b@, depth as nat);
                }
                return depth;
            }
            k = k + 2;
        }
        proof {
            assert forall|j: int| active(depth as int, j) implies #[trigger] values@[signed_pos(values@.len() as int, j)] == reach(a@, b@, depth as nat, j) by {
                assert(j < k);
            }
            assert forall|e: nat, j: int| e < depth + 1 && active(e as int, j) implies !#[trigger] done(a@, b@, e, j) by {
                if e == depth {
                    assert(j < k);
                    assert(!done(a@, b@, depth as nat, j));
                }
            }
        }
        depth = depth + 1;
    }
    proof {
        lemma_done_at_most(a@, b@);
        assert(false);
    }
    max
}

/// The edit distance between `a` and `b`: the first depth at which the
/// furthest-reaching search reaches the end of both.
pub fn modified(a: &[char], b: &[char]) -> (r: usize)
    requires
        within_limits(a@, b@),
    ensures
        is_distance(a@, b@, r as nat),
        r <= a@.len() + b@.len(),
        forall|ops: Seq<Edit>| #[trigger] is_script(a@, b@, ops) ==> r <= ops.len(),
        exists|ops: Seq<Edit>| #[trigger] is_script(a@, b@, ops) && ops.len() == r,
{
    let mid = a.len() + b.len();
    let mut values: Vec<usize> = vec![0usize; 2 * mid + 1];
    let mut depth: usize = 0;
    while depth <= mid
        invariant
            mid == a@.len() + b@.len(),
            within_limits(a@, b@),
            values@.len() == 2 * mid + 1,
            depth <= mid + 1,
            depth > 0 ==> holds_depth(a@, b@, values@, mid as int, depth - 1),
            forall|e: nat, j: int| e < depth && active(e as int, j) ==> !#[trigger] done(a@, b@, e, j),
        decreases mid + 1 - depth,
    {
        let lower = mid - depth;
        let upper = mid + depth;
        let mut k: usize = lower;
        while k <= upper
            invariant
                mid == a@.len() + b@.len(),
                within_limits(a@, b@),
                values@.len() == 2 * mid + 1,
                depth <= mid,
                lower == mid - depth,
                upper == mid + depth,
                lower <= k <= upper + 2,
                (k - lower) % 2 == 0,
                depth > 0 ==> holds_depth(a@, b@, values@, mid as int, depth - 1),
                forall|j: int| active(depth as int, j) && mid + j < k ==> #[trigger] values@[mid + j] == reach(a@, b@, depth as nat, j),
                forall|e: nat, j: int| e < depth && active(e as int, j) ==> !#[trigger] done(a@, b@, e, j),
                forall|j: int| active(depth as int, j) && mid + j < k ==> !#[trigger] done(a@, b@, depth as nat, j),
            decreases upper + 2 - k,
        {
            let x = furthest(a, b, values.as_slice(), mid, depth, k);
            values.set(k, x);
            proof {
                lemma_reach_bounds(a@, b@, depth as nat, k - mid);
            }
            if x >= a.len() && x + mid - k >= b.len() {
                proof {
                    assert(done(a@, b@, depth as nat, k - mid));
                    assert(is_distance(a@, b@, depth as nat));
                    law_no_shorter_script(a@, b@, depth as nat);
                    law_distance_achieved(a@, b@, depth as nat);
                }
                return depth;
            }
            k = k + 2;
        }
        proof {
            assert forall|j: int| active(depth as int, j) implies #[trigger] values@[mid + j] == reach(a@, b@, depth as nat, j) by {
                assert(mid + j < k);
            }
        }
        depth = depth + 1;
    }
    proof {
        lemma_done_at_most(a@, b@);
        assert(false);
    }
    mid
}

/// Slot `j` of the diagonal array once every diagonal of `depth` has been
/// searched: the reach of a diagonal searched at `depth`, and otherwise what
/// the slot held before; all slots start at zero.
pub open spec fn full_slot(a: Seq<char>, b: Seq<char>, depth: nat, j: int) -> int
    decreases depth,
{
    let mid = (a.len() + b.len()) as int;
    if active(depth as int, j - mid) {
        reach(a, b, depth, j - mid)
    } else if depth == 0 {
        0
    } else {
        full_slot(a, b, (depth - 1) as nat, j)
    }
}

/// The first diagonal searched at `depth`, counting up from `k`, whose path
/// reaches the end (or the first past `depth` if none does).
pub open spec fn first_done_from(a: Seq<char>, b: Seq<char>, depth: nat, k: int) -> int
    decreases depth + 2 - k,
{
    if k > depth {
        k
    } else if done(a, b, depth, k) {
        k
    } else {
        first_done_from(a, b, depth, k + 2)
    }
}

/// Slot `j` of the snapshot of `depth`. The last snapshot is taken as soon
/// as a diagonal reaches the end, so the diagonals above that one still hold
/// what they held before.
pub open spec fn snapshot(a: Seq<char>, b: Seq<char>, depth: nat, last: bool, j: int) -> int {
    let mid = (a.len() + b.len()) as int;
    if last && depth > 0 && active(depth as int, j - mid) && j - mid > first_done_from(a, b, depth, -depth) {
        full_slot(a, b, (depth - 1) as nat, j)
    } else {
        full_slot(a, b, depth, j)
    }
}

/// Whether every slot of every snapshot in `t` is the one the search leaves.
pub open spec fn snapshots_exact(a: Seq<char>, b: Seq<char>, t: Seq<Vec<usize>>) -> bool {
    forall|d: int, j: int| 0 <= d < t.len() && 0 <= j < t[d]@.len()
        ==> #[trigger] t[d]@[j] == snapshot(a, b, d as nat, d == t.len() - 1, j)
}

proof fn lemma_first_done(a: Seq<char>, b: Seq<char>, depth: nat, k0: int, kk: int)
    requires
        k0 <= kk,
        (kk - k0) % 2 == 0,
        active(depth as int, kk),
        done(a, b, depth, kk),
        forall|j: int| k0 <= j < kk && active(depth as int, j) ==> !#[trigger] done(a, b, depth, j),
        active(depth as int, k0),
    ensures
        first_done_from(a, b, depth, k0) == kk,
    decreases kk - k0,
{
    if k0 < kk {
        assert(!done(a, b, depth, k0));
        assert(active(depth as int, k0 + 2));
        lemma_first_done(a, b, depth, k0 + 2, kk);
    }
}

/// One snapshot of the diagonal array, taken at the end of a depth.
pub type Trace = Vec<usize>;

/// What the history engine records: one snapshot per depth, the last one
/// taken at the depth where the search reached the end.
pub open spec fn is_history(a: Seq<char>, b: Seq<char>, t: Seq<Vec<usize>>) -> bool {
    let mid = (a.len() + b.len()) as int;
    let last = t.len() - 1;
    &&& 1 <= t.len() <= mid + 1
    &&& is_distance(a, b, last as nat)
    &&& forall|d: int| 0 <= d < t.len() ==> (#[trigger] t[d])@.len() == 2 * mid + 1
    &&& forall|d: int| 0 <= d < last ==> holds_depth(a, b, (#[trigger] t[d])@, mid, d)
    &&& forall|d: int| 0 < d <= last ==> holds_depth(a, b, (#[trigger] t[d])@, mid, d - 1)
    &&& exists|k: int| active(last, k) && #[trigger] done(a, b, last as nat, k)
        && forall|j: int| active(last, j) && j <= k ==> #[trigger] t[last]@[mid + j] == reach(a, b, last as nat, j)
}

proof fn lemma_is_history(a: Seq<char>, b: Seq<char>, t: Seq<Vec<usize>>, mid: int, depth: int, kk: int)
    requires
        mid == a.len() + b.len(),
        t.len() - 1 == depth,
        0 <= depth,
        t.len() <= mid + 1,
        is_distance(a, b, depth as nat),
        forall|d: int| 0 <= d < t.len() ==> (#[trigger] t[d])@.len() == 2 * mid + 1,
        forall|d: int| 0 <= d < depth ==> holds_depth(a, b, (#[trigger] t[d])@, mid, d),
        forall|d: int| 0 < d < depth ==> holds_depth(a, b, (#[trigger] t[d])@, mid, d - 1),
        depth > 0 ==> holds_depth(a, b, t[depth]@, mid, depth - 1),
        active(depth, kk),
        done(a, b, depth as nat, kk),
        forall|j: int| active(depth, j) && j <= kk ==> #[trigger] t[depth]@[mid + j] == reach(a, b, depth as nat, j),
    ensures
        is_history(a, b, t),
{
    assert(exists|k2: int| active(depth, k2) && #[trigger] done(a, b, depth as nat, k2)
        && forall|j: int| active(depth, j) && j <= k2 ==> #[trigger] t[depth]@[mid + j] == reach(a, b, depth as nat, j));
}

/// The history of the search: the diagonal array after each depth, up to
/// and including the depth at which the end is reached.
#[verifier::rlimit(100)]
pub fn traced(a: &[char], b: &[char]) -> (r: Vec<Trace>)
    requires
        within_limits(a@, b@),
    ensures
        is_history(a@, b@, r@),
        snapshots_exact(a@, b@, r@),
{
    let mid = a.len() + b.len();
    let mut values: Vec<usize> = vec![0usize; 2 * mid + 1];
    let mut trace: Vec<Trace> = Vec::new();
    let mut depth: usize = 0;
    while depth <= mid
        invariant
            mid == a@.len() + b@.len(),
            within_limits(a@, b@),
            values@.len() == 2 * mid + 1,
            depth <= mid + 1,
            trace@.len() == depth,
            depth > 0 ==> holds_depth(a@, b@, values@, mid as int, depth - 1),
            forall|d: int| 0 <= d < trace@.len() ==> (#[trigger] trace@[d])@.len() == 2 * mid + 1,
            forall|d: int| 0 <= d < depth ==> holds_depth(a@, b@, (#[trigger] trace@[d])@, mid as int, d),
            forall|d: int| 0 < d < depth ==> holds_depth(a@, b@, (#[trigger] trace@[d])@, mid as int, d - 1),
            forall|e: nat, j: int| e < depth && active(e as int, j) ==> !#[trigger] done(a@, b@, e, j),
            forall|j: int| 0 <= j < 2 * mid + 1 ==> #[trigger] values@[j] == (if depth == 0 { 0 } else { full_slot(a@, b@, (depth - 1) as nat, j) }),
            forall|d: int, j: int| 0 <= d < depth && 0 <= j < 2 * mid + 1 ==> #[trigger] trace@[d]@[j] == full_slot(a@, b@, d as nat, j),
        decreases mid + 1 - depth,
    {
        let lower = mid - depth;
        let upper = mid + depth;
        let mut k: usize = lower;
        while k <= upper
            invariant
                mid == a@.len() + b@.len(),
                within_limits(a@, b@),
                values@.len() == 2 * mid + 1,
                depth <= mid,
                trace@.len() == depth,
                lower == mid - depth,
                upper == mid + depth,
                lower <= k <= upper + 2,
                (k - lower) % 2 == 0,
                depth > 0 ==> holds_depth(a@, b@, values@, mid as int, depth - 1),
                forall|j: int| active(depth as int, j) && mid + j < k ==> #[trigger] values@[mid + j] == reach(a@, b@, depth as nat, j),
                forall|d: int| 0 <= d < trace@.len() ==> (#[trigger] trace@[d])@.len() == 2 * mid + 1,
                forall|d: int| 0 <= d < depth ==> holds_depth(a@, b@, (#[trigger] trace@[d])@, mid as int, d),
                forall|d: int| 0 < d < depth ==> holds_depth(a@, b@, (#[trigger] trace@[d])@, mid as int, d - 1),
                forall|e: nat, j: int| e < depth && active(e as int, j) ==> !#[trigger] done(a@, b@, e, j),
                forall|j: int| active(depth as int, j) && mid + j < k ==> !#[trigger] done(a@, b@, depth as nat, j),
                forall|j: int| 0 <= j < 2 * mid + 1 ==> #[trigger] values@[j] == (if active(depth as int, j - mid) && j < k { reach(a@, b@, depth as nat, j - mid) } else if depth == 0 { 0 } else { full_slot(a@, b@, (depth - 1) as nat, j) }),
                forall|d: int, j: int| 0 <= d < depth && 0 <= j < 2 * mid + 1 ==> #[trigger] trace@[d]@[j] == full_slot(a@, b@, d as nat, j),
            decreases upper + 2 - k,
        {
            let x = furthest(a, b, values.as_slice(), mid, depth, k);
            values.set(k, x);
            proof {
                lemma_reach_bounds(a@, b@, depth as nat, k - mid);
            }
            if x >= a.len() && x + mid - k >= b.len() {
                let ghost before = trace@;
                trace.push(values.clone());
                proof {
                    let kk = k - mid;
                    let t = trace@;
                    assert(done(a@, b@, depth as nat, kk));
                    assert(active(depth as int, kk));
                    assert(is_distance(a@, b@, depth as nat));
                    assert(forall|d: int| 0 <= d < depth ==> t[d] == before[d]);
                    assert(t[depth as int]@ == values@);
                    assert forall|j: int| active(depth as int, j) && j <= kk implies #[trigger] t[depth as int]@[mid + j] == reach(a@, b@, depth as nat, j) by {
                        assert(mid + j < k || j == kk);
                    }
                    assert(forall|d: int| 0 <= d < t.len() ==> (#[trigger] t[d])@.len() == 2 * mid + 1);
                    assert(forall|d: int| 0 <= d < depth ==> holds_depth(a@, b@, (#[trigger] t[d])@, mid as int, d));
                    assert(forall|d: int| 0 < d < depth ==> holds_depth(a@, b@, (#[trigger] t[d])@, mid as int, d - 1));
                    assert(depth > 0 ==> holds_depth(a@, b@, t[depth as int]@, mid as int, depth - 1));
                    assert(t.len() - 1 == depth);
                    assert(t.len() <= mid + 1);
                    assert(exists|k2: int| active(depth as int, k2) && #[trigger] done(a@, b@, depth as nat, k2)
                        && forall|j: int| active(depth as int, j) && j <= k2 ==> #[trigger] t[depth as int]@[mid + j] == reach(a@, b@, depth as nat, j));
                    lemma_is_history(a@, b@, t, mid as int, depth as int, kk);
                    lemma_first_done(a@, b@, depth as nat, -depth, kk);
                    assert forall|d: int, j: int| 0 <= d < t.len() && 0 <= j < t[d]@.len()
                        implies #[trigger] t[d]@[j] == snapshot(a@, b@, d as nat, d == t.len() - 1, j) by {
                        if d < depth {
                            assert(t[d] == before[d]);
                        } else {
                            assert(t[d]@[j] == values@[j]);
                        }
                    }
                }
                return trace;
            }
            k = k + 2;
        }
        proof {
            assert forall|j: int| active(depth as int, j) implies #[trigger] values@[mid + j] == reach(a@, b@, depth as nat, j) by {
                assert(mid + j < k);
            }
            assert forall|j: int| 0 <= j < 2 * mid + 1 implies #[trigger] values@[j] == full_slot(a@, b@, depth as nat, j) by {
                if active(depth as int, j - mid) {
                    assert(j < k);
                }
            }
        }
        let ghost before = trace@;
        trace.push(values.clone());
        proof {
            assert(forall|d: int| 0 <= d < depth ==> trace@[d] == before[d]);
            assert forall|d: int, j: int| 0 <= d < depth + 1 && 0 <= j < 2 * mid + 1 implies #[trigger] trace@[d]@[j] == full_slot(a@, b@, d as nat, j) by {
                if d < depth {
                    assert(trace@[d] == before[d]);
                } else {
                    assert(trace@[d]@[j] == values@[j]);
                }
            }
        }
        depth = depth + 1;
    }
    proof {
        lemma_done_at_most(a@, b@);
        assert(false);
    }
    trace
}

/// Every step of the search, depth by depth.
pub struct Steps {
    pub max_snake: usize,
    pub depths: Vec<DepthStep>,
}

/// The steps of one depth, one per diagonal from `-depth` up, and the
/// diagonal array after them.
pub struct DepthStep {
    pub ks: Vec<KStep>,
    pub trace: Vec<usize>,
}

/// Which neighbour a diagonal's search started from.
pub enum KChoice {
    /// The highest diagonal: a delete from the one below.
    AtDepth,
    /// The lowest diagonal: an insert from the one above.
    AtNegDepth,
    /// The one below reached no further than the one above: a delete.
    Lesser,
    /// The one above reached further: an insert.
    Greater,
}

/// One diagonal's step: where it started, how long its snake was and the
/// reach it set.
pub struct KStep {
    pub choice: KChoice,
    pub x: usize,
    pub y: usize,
    pub snake: usize,
    pub set: usize,
}

/// Whether `st` records the search of diagonal `k` at `depth`.
pub open spec fn is_step(a: Seq<char>, b: Seq<char>, depth: nat, k: int, st: KStep) -> bool {
    &&& st.x == start(a, b, depth, k)
    &&& st.y == st.x - k
    &&& st.set == reach(a, b, depth, k)
    &&& st.snake == st.set - st.x
    &&& depth == 0 ==> st.choice is AtNegDepth
    &&& depth > 0 ==> match st.choice {
        KChoice::AtNegDepth => k == -depth,
        KChoice::AtDepth => k == depth && k != -depth,
        KChoice::Greater => k != -depth && k != depth
            && reach(a, b, (depth - 1) as nat, k - 1) < reach(a, b, (depth - 1) as nat, k + 1),
        KChoice::Lesser => k != -depth && k != depth
            && reach(a, b, (depth - 1) as nat, k - 1) >= reach(a, b, (depth - 1) as nat, k + 1),
    }
}

/// Whether the steps of `ds` record the search, depth by depth.
pub open spec fn steps_ok(a: Seq<char>, b: Seq<char>, ds: Seq<DepthStep>, max_snake: int) -> bool {
    forall|d: int, i: int| 0 <= d < ds.len() && 0 <= i < ds[d].ks@.len() ==> {
        &&& is_step(a, b, d as nat, -d + 2 * i, #[trigger] ds[d].ks@[i])
        &&& ds[d].ks@[i].snake <= max_snake
    }
}

/// The snapshots of a record of steps.
pub open spec fn traces_of(ds: Seq<DepthStep>) -> Seq<Vec<usize>> {
    ds.map_values(|s: DepthStep| s.trace)
}

/// The search with every step recorded: for each depth, the start, snake
/// and reach of each diagonal and the diagonal array after them, up to the
/// depth at which the end is reached; and the longest snake met.
#[verifier::rlimit(100)]
pub fn printed(a: &[char], b: &[char]) -> (r: Steps)
    requires
        within_limits(a@, b@),
    ensures
        is_history(a@, b@, traces_of(r.depths@)),
        steps_ok(a@, b@, r.depths@, r.max_snake as int),
        snapshots_exact(a@, b@, traces_of(r.depths@)),
        forall|d: int| 0 <= d < r.depths@.len() - 1 ==> (#[trigger] r.depths@[d]).ks@.len() == d + 1,
        r.depths@.len() >= 1,
        r.depths@.last().ks@.len() * 2
            == first_done_from(a@, b@, (r.depths@.len() - 1) as nat, -(r.depths@.len() - 1)) + (r.depths@.len() - 1) + 2,
        exists|d: int, i: int| 0 <= d < r.depths@.len() && 0 <= i < r.depths@[d].ks@.len()
            && #[trigger] r.depths@[d].ks@[i].snake == r.max_snake,
{
    let mid = a.len() + b.len();
    let mut values: Vec<usize> = vec![0usize; 2 * mid + 1];
    let mut rtn = Steps { max_snake: 0, depths: Vec::new() };
    let mut depth: usize = 0;
    let ghost mut wd: int = 0;
    let ghost mut wi: int = 0;
    while depth <= mid
        invariant
            mid == a@.len() + b@.len(),
            within_limits(a@, b@),
            values@.len() == 2 * mid + 1,
            depth <= mid + 1,
            rtn.depths@.len() == depth,
            depth > 0 ==> holds_depth(a@, b@, values@, mid as int, depth - 1),
            forall|d: int| 0 <= d < depth ==> (#[trigger] rtn.depths@[d]).trace@.len() == 2 * mid + 1,
            forall|d: int| 0 <= d < depth ==> holds_depth(a@, b@, (#[trigger] rtn.depths@[d]).trace@, mid as int, d),
            forall|d: int| 0 < d < depth ==> holds_depth(a@, b@, (#[trigger] rtn.depths@[d]).trace@, mid as int, d - 1),
            forall|e: nat, j: int| e < depth && active(e as int, j) ==> !#[trigger] done(a@, b@, e, j),
            steps_ok(a@, b@, rtn.depths@, rtn.max_snake as int),
            forall|j: int| 0 <= j < 2 * mid + 1 ==> #[trigger] values@[j] == (if depth == 0 { 0 } else { full_slot(a@, b@, (depth - 1) as nat, j) }),
            forall|d: int, j: int| 0 <= d < depth && 0 <= j < 2 * mid + 1 ==> #[trigger] rtn.depths@[d].trace@[j] == full_slot(a@, b@, d as nat, j),
            forall|d: int| 0 <= d < depth ==> (#[trigger] rtn.depths@[d]).ks@.len() == d + 1,
            depth > 0 ==> 0 <= wd < depth && 0 <= wi < rtn.depths@[wd].ks@.len() && rtn.depths@[wd].ks@[wi].snake == rtn.max_snake,
            depth == 0 ==> rtn.max_snake == 0,
        decreases mid + 1 - depth,
    {
        let lower = mid - depth;
        let upper = mid + depth;
        let mut ks: Vec<KStep> = Vec::new();
        let mut k: usize = lower;
        while k <= upper
            invariant
                mid == a@.len() + b@.len(),
                within_limits(a@, b@),
                values@.len() == 2 * mid + 1,
                depth <= mid,
                rtn.depths@.len() == depth,
                lower == mid - depth,
                upper == mid + depth,
                lower <= k <= upper + 2,
                (k - lower) % 2 == 0,
                ks@.len() * 2 == k - lower,
                depth > 0 ==> holds_depth(a@, b@, values@, mid as int, depth - 1),
                forall|j: int| active(depth as int, j) && mid + j < k ==> #[trigger] values@[mid + j] == reach(a@, b@, depth as nat, j),
                forall|d: int| 0 <= d < depth ==> (#[trigger] rtn.depths@[d]).trace@.len() == 2 * mid + 1,
                forall|d: int| 0 <= d < depth ==> holds_depth(a@, b@, (#[trigger] rtn.depths@[d]).trace@, mid as int, d),
                forall|d: int| 0 < d < depth ==> holds_depth(a@, b@, (#[trigger] rtn.depths@[d]).trace@, mid as int, d - 1),
                forall|e: nat, j: int| e < depth && active(e as int, j) ==> !#[trigger] done(a@, b@, e, j),
                forall|j: int| active(depth as int, j) && mid + j < k ==> !#[trigger] done(a@, b@, depth as nat, j),
                steps_ok(a@, b@, rtn.depths@, rtn.max_snake as int),
                forall|i: int| 0 <= i < ks@.len() ==> is_step(a@, b@, depth as nat, -depth + 2 * i, #[trigger] ks@[i])
                    && ks@[i].snake <= rtn.max_snake,
                forall|j: int| 0 <= j < 2 * mid + 1 ==> #[trigger] values@[j] == (if active(depth as int, j - mid) && j < k { reach(a@, b@, depth as nat, j - mid) } else if depth == 0 { 0 } else { full_slot(a@, b@, (depth - 1) as nat, j) }),
                forall|d: int, j: int| 0 <= d < depth && 0 <= j < 2 * mid + 1 ==> #[trigger] rtn.depths@[d].trace@[j] == full_slot(a@, b@, d as nat, j),
                forall|d: int| 0 <= d < depth ==> (#[trigger] rtn.depths@[d]).ks@.len() == d + 1,
                (depth == 0 && k == lower) ==> rtn.max_snake == 0,
                (depth > 0 || k > lower) ==> ((0 <= wd < depth && 0 <= wi < rtn.depths@[wd].ks@.len() && rtn.depths@[wd].ks@[wi].snake == rtn.max_snake)
                    || (wd == depth && 0 <= wi < ks@.len() && ks@[wi].snake == rtn.max_snake)),
            decreases upper + 2 - k,
        {
            let ghost kk = k - mid;
            proof {
                lemma_reach_bounds(a@, b@, depth as nat, kk);
                if depth > 0 {
                    if kk > -depth {
                        assert(active(depth - 1, kk - 1));
                        assert(values@[mid + (kk - 1)] == reach(a@, b@, (depth - 1) as nat, kk - 1));
                    }
                    if kk < depth {
                        assert(active(depth - 1, kk + 1));
                        assert(values@[mid + (kk + 1)] == reach(a@, b@, (depth - 1) as nat, kk + 1));
                    }
                }
            }
            let (x0, choice) = if depth == 0 {
                (0, KChoice::AtNegDepth)
            } else if k == lower {
                (values[k + 1], KChoice::AtNegDepth)
            } else if k == upper {
                (values[k - 1] + 1, KChoice::AtDepth)
            } else if values[k - 1] < values[k + 1] {
                (values[k + 1], KChoice::Greater)
            } else {
                (values[k - 1] + 1, KChoice::Lesser)
            };
            proof {
                assert(x0 == start(a@, b@, depth as nat, kk));
            }
            let y0 = mid + x0 - k;
            let x = snake_end(a, b, x0, y0);
            let snake = x - x0;
            proof {
                if snake > rtn.max_snake || (depth == 0 && k == lower) {
                    wd = depth as int;
                    wi = ks@.len() as int;
                }
            }
            if snake > rtn.max_snake {
                rtn.max_snake = snake;
            }
            values.set(k, x);
            let step = KStep { choice, x: x0, y: y0, snake, set: x };
            let ghost old_ks = ks@;
            ks.push(step);
            proof {
                assert(ks@[old_ks.len() as int] == step);
                assert(-depth + 2 * old_ks.len() == kk);
                if wd == depth && wi < old_ks.len() {
                    assert(ks@[wi] == old_ks[wi]);
                }
                assert((0 <= wd < depth && 0 <= wi < rtn.depths@[wd].ks@.len() && rtn.depths@[wd].ks@[wi].snake == rtn.max_snake)
                    || (wd == depth && 0 <= wi < ks@.len() && ks@[wi].snake == rtn.max_snake));
            }
            if x >= a.len() && x + mid - k >= b.len() {
                let ghost before = rtn.depths@;
                let ghost ks_view = ks@;
                rtn.depths.push(DepthStep { ks, trace: values.clone() });
                proof {
                    assert forall|d: int, i: int| 0 <= d < rtn.depths@.len() && 0 <= i < rtn.depths@[d].ks@.len() implies {
                        &&& is_step(a@, b@, d as nat, -d + 2 * i, #[trigger] rtn.depths@[d].ks@[i])
                        &&& rtn.depths@[d].ks@[i].snake <= rtn.max_snake
                    } by {
                        if d < depth {
                            assert(rtn.depths@[d] == before[d]);
                            assert(is_step(a@, b@, d as nat, -d + 2 * i, before[d].ks@[i]));
                        } else {
                            assert(rtn.depths@[d].ks@ == ks_view);
                            assert(is_step(a@, b@, depth as nat, -depth + 2 * i, ks_view[i]) && ks_view[i].snake <= rtn.max_snake);
                        }
                    }
                    let t = traces_of(rtn.depths@);
                    assert(done(a@, b@, depth as nat, kk));
                    assert(active(depth as int, kk));
                    assert(forall|d: int| 0 <= d < depth ==> rtn.depths@[d] == before[d]);
                    assert(t[depth as int]@ == values@);
                    assert(forall|d: int| 0 <= d < t.len() ==> t[d] == (#[trigger] rtn.depths@[d]).trace);
                    assert forall|j: int| active(depth as int, j) && j <= kk implies #[trigger] t[depth as int]@[mid + j] == reach(a@, b@, depth as nat, j) by {
                        assert(mid + j < k || j == kk);
                    }
                    assert(forall|d: int| 0 <= d < t.len() ==> (#[trigger] t[d])@.len() == 2 * mid + 1);
                    assert(forall|d: int| 0 <= d < depth ==> holds_depth(a@, b@, (#[trigger] t[d])@, mid as int, d));
                    assert(forall|d: int| 0 < d < depth ==> holds_depth(a@, b@, (#[trigger] t[d])@, mid as int, d - 1));
                    assert(depth > 0 ==> holds_depth(a@, b@, t[depth as int]@, mid as int, depth - 1));
                    assert(t.len() - 1 == depth);
                    assert(t.len() <= mid + 1);
                    assert(exists|k2: int| active(depth as int, k2) && #[trigger] done(a@, b@, depth as nat, k2)
                        && forall|j: int| active(depth as int, j) && j <= k2 ==> #[trigger] t[depth as int]@[mid + j] == reach(a@, b@, depth as nat, j));
                    lemma_is_history(a@, b@, t, mid as int, depth as int, kk);
                    lemma_first_done(a@, b@, depth as nat, -depth, kk);
                    assert forall|d: int, j: int| 0 <= d < t.len() && 0 <= j < t[d]@.len()
                        implies #[trigger] t[d]@[j] == snapshot(a@, b@, d as nat, d == t.len() - 1, j) by {
                        assert(t[d] == rtn.depths@[d].trace);
                        if d < depth {
                            assert(rtn.depths@[d] == before[d]);
                        } else {
                            assert(t[d]@[j] == values@[j]);
                        }
                    }
                    assert(forall|d: int| 0 <= d < depth ==> rtn.depths@[d] == before[d]);
                    assert(rtn.depths@.last().ks@ == ks_view);
                    if wd < depth {
                        assert(rtn.depths@[wd] == before[wd]);
                        assert(rtn.depths@[wd].ks@[wi].snake == rtn.max_snake);
                    } else {
                        assert(rtn.depths@[wd].ks@[wi].snake == rtn.max_snake);
                    }
                }
                return rtn;
            }
            k = k + 2;
        }
        proof {
            assert forall|j: int| active(depth as int, j) implies #[trigger] values@[mid + j] == reach(a@, b@, depth as nat, j) by {
                assert(mid + j < k);
            }
            assert forall|j: int| 0 <= j < 2 * mid + 1 implies #[trigger] values@[j] == full_slot(a@, b@, depth as nat, j) by {
                if active(depth as int, j - mid) {
                    assert(j < k);
                }
            }
        }
        let ghost before = rtn.depths@;
        let ghost ks_view = ks@;
        rtn.depths.push(DepthStep { ks, trace: values.clone() });
        proof {
            assert forall|d: int, i: int| 0 <= d < rtn.depths@.len() && 0 <= i < rtn.depths@[d].ks@.len() implies {
                &&& is_step(a@, b@, d as nat, -d + 2 * i, #[trigger] rtn.depths@[d].ks@[i])
                &&& rtn.depths@[d].ks@[i].snake <= rtn.max_snake
            } by {
                if d < depth {
                    assert(rtn.depths@[d] == before[d]);
                    assert(is_step(a@, b@, d as nat, -d + 2 * i, before[d].ks@[i]));
                } else {
                    assert(rtn.depths@[d].ks@ == ks_view);
                    assert(is_step(a@, b@, depth as nat, -depth + 2 * i, ks_view[i]) && ks_view[i].snake <= rtn.max_snake);
                }
            }
            assert(forall|d: int| 0 <= d < depth ==> rtn.depths@[d] == before[d]);
            assert forall|d: int, j: int| 0 <= d < depth + 1 && 0 <= j < 2 * mid + 1 implies #[trigger] rtn.depths@[d].trace@[j] == full_slot(a@, b@, d as nat, j) by {
                if d < depth {
                    assert(rtn.depths@[d] == before[d]);
                } else {
                    assert(rtn.depths@[d].trace@[j] == values@[j]);
                }
            }
            assert forall|d: int| 0 <= d < depth + 1 implies (#[trigger] rtn.depths@[d]).ks@.len() == d + 1 by {
                if d < depth {
                    assert(rtn.depths@[d] == before[d]);
                }
            }
            if wd < depth {
                assert(rtn.depths@[wd] == before[wd]);
            }
        }
        depth = depth + 1;
    }
    proof {
        lemma_done_at_most(a@, b@);
        assert(false);
    }
    rtn
}

/// An edit of the script, with the diagonal it was found on and the
/// snapshot of the depth that produced it.
#[derive(Debug)]
pub struct TracedEdit {
    pub k: usize,
    pub trace: Trace,
    pub edit: Edit,
}

/// An edit script with the history behind each step.
pub struct Operations {
    pub inserts: usize,
    pub deletes: usize,
    pub edits: Vec<TracedEdit>,
}

/// The edits of a traced script, each with its diagonal counted from `-mid`.
pub open spec fn diagonal_edits(t: Seq<TracedEdit>, mid: int) -> Seq<(Edit, int)> {
    t.map_values(|e: TracedEdit| (e.edit, e.k - mid))
}

/// The plain edits of a traced script.
pub open spec fn edits_of(t: Seq<TracedEdit>) -> Seq<Edit> {
    t.map_values(|e: TracedEdit| e.edit)
}

proof fn lemma_edits_of_prepend(e: TracedEdit, t: Seq<TracedEdit>)
    ensures
        edits_of(seq![e] + t) == seq![e.edit] + edits_of(t),
        (seq![e.edit] + edits_of(t)).drop_first() == edits_of(t),
        count_inserts(seq![e.edit] + edits_of(t)) == count_inserts(edits_of(t)) + (if e.edit is Insert { 1nat } else { 0nat }),
        count_deletes(seq![e.edit] + edits_of(t)) == count_deletes(edits_of(t)) + (if e.edit is Delete { 1nat } else { 0nat }),
{
    assert(edits_of(seq![e] + t) =~= seq![e.edit] + edits_of(t));
    assert((seq![e.edit] + edits_of(t)).drop_first() =~= edits_of(t));
}

/// The walk back through the search from the point `(x, y)` at `depth`: at
/// each depth the neighbour that the search step chose is found again, and
/// the insert or delete that led from its reach onto the current diagonal is
/// recorded, together with the diagonal `x - y` it was found on. The result
/// is in forward order, one entry per depth.
pub open spec fn walk(a: Seq<char>, b: Seq<char>, depth: nat, x: int, y: int) -> Seq<(Edit, int)>
    decreases depth,
{
    if depth == 0 {
        Seq::empty()
    } else {
        let d1 = (depth - 1) as nat;
        let k = x - y;
        let pk = if k == -depth || (k != depth && reach(a, b, d1, k - 1) < reach(a, b, d1, k + 1)) {
            k + 1
        } else {
            k - 1
        };
        let px = reach(a, b, d1, pk);
        let py = px - pk;
        let e = if pk == k + 1 {
            Edit::Insert { pos: px as usize, value: py as usize }
        } else {
            Edit::Delete { pos: px as usize }
        };
        walk(a, b, d1, px, py).push((e, k))
    }
}

/// The edit script that turns `a` into `b`, found by walking the history of
/// the search back from the end: each depth contributes the insert or delete
/// that led onto the diagonal of the current point, and the snake before it
/// is kept. The script has one edit per depth, as many as the distance.
#[verifier::rlimit(100)]
pub fn operations(a: &[char], b: &[char]) -> (r: Operations)
    requires
        within_limits(a@, b@),
    ensures
        is_script(a@, b@, edits_of(r.edits@)),
        is_distance(a@, b@, r.edits@.len() as nat),
        r.inserts == count_inserts(edits_of(r.edits@)),
        r.deletes == count_deletes(edits_of(r.edits@)),
        a@ == b@ ==> r.edits@.len() == 0,
        r.edits@.len() == walk(a@, b@, r.edits@.len() as nat, a@.len() as int, b@.len() as int).len(),
        forall|i: int| 0 <= i < r.edits@.len() ==> {
            let w = walk(a@, b@, r.edits@.len() as nat, a@.len() as int, b@.len() as int);
            &&& (#[trigger] r.edits@[i]).edit == w[i].0
            &&& r.edits@[i].k == a@.len() + b@.len() + w[i].1
            &&& r.edits@[i].trace@.len() == 2 * (a@.len() + b@.len()) + 1
        },
        forall|i: int, j: int| 0 <= i < r.edits@.len() && 0 <= j < r.edits@[i].trace@.len()
            ==> #[trigger] r.edits@[i].trace@[j] == snapshot(a@, b@, (i + 1) as nat, i + 1 == r.edits@.len(), j),
{
    let mut trace_list = traced(a, b);
    let ghost hist = trace_list@;
    let ghost dist = (hist.len() - 1) as nat;
    let mid = a.len() + b.len();
    let mut x = a.len();
    let mut y = b.len();
    let mut edits: Vec<TracedEdit> = Vec::new();
    let mut inserts: usize = 0;
    let mut deletes: usize = 0;
    proof {
        lemma_ends_at_corner(a@, b@, dist);
        assert(a@.subrange(a@.len() as int, a@.len() as int) =~= b@.subrange(b@.len() as int, b@.len() as int));
        assert(converts(a@, b@, edits_of(edits@), x as int, y as int, a@.len() as int, b@.len() as int));
        assert(trace_list@ =~= hist.subrange(0, trace_list@.len() as int));
        assert(diagonal_edits(edits@, mid as int) =~= Seq::<(Edit, int)>::empty());
        assert(walk(a@, b@, dist, a@.len() as int, b@.len() as int)
            =~= walk(a@, b@, dist, a@.len() as int, b@.len() as int) + diagonal_edits(edits@, mid as int));
    }
    while trace_list.len() > 1
        invariant
            within_limits(a@, b@),
            mid == a@.len() + b@.len(),
            is_history(a@, b@, hist),
            dist == hist.len() - 1,
            1 <= trace_list@.len() <= hist.len(),
            trace_list@ == hist.subrange(0, trace_list@.len() as int),
            x <= a@.len(),
            y <= b@.len(),
            active(trace_list@.len() - 1, x - y),
            start(a@, b@, (trace_list@.len() - 1) as nat, x - y) <= x,
            x <= reach(a@, b@, (trace_list@.len() - 1) as nat, x - y),
            converts(a@, b@, edits_of(edits@), x as int, y as int, a@.len() as int, b@.len() as int),
            inserts == count_inserts(edits_of(edits@)),
            deletes == count_deletes(edits_of(edits@)),
            edits@.len() + trace_list@.len() - 1 == dist,
            inserts + deletes == edits@.len(),
            walk(a@, b@, dist, a@.len() as int, b@.len() as int)
                == walk(a@, b@, (trace_list@.len() - 1) as nat, x as int, y as int) + diagonal_edits(edits@, mid as int),
            snapshots_exact(a@, b@, hist),
            forall|i: int| 0 <= i < edits@.len() ==> (#[trigger] edits@[i]).trace == hist[trace_list@.len() + i],
        decreases trace_list@.len(),
    {
        let ghost d = (trace_list@.len() - 1) as nat;
        let ghost kk = x - y;
        let ghost y_top = y as int;
        proof {
            assert(hist[d as int] == trace_list@[d as int]);
            assert(hist[d - 1] == trace_list@[d - 1]);
            assert(holds_depth(a@, b@, hist[d as int]@, mid as int, d - 1));
            assert(holds_depth(a@, b@, hist[d - 1]@, mid as int, d - 1));
            lemma_reach_bounds(a@, b@, d, kk);
        }
        let trace = trace_list.pop().unwrap();
        let depth = trace_list.len();
        let lower = mid - depth;
        let upper = mid + depth;
        let k = mid + x - y;
        proof {
            if kk > -d {
                assert(active(d - 1, kk - 1));
                assert(trace@[mid + (kk - 1)] == reach(a@, b@, (d - 1) as nat, kk - 1));
                lemma_reach_bounds(a@, b@, (d - 1) as nat, kk - 1);
            }
            if kk < d {
                assert(active(d - 1, kk + 1));
                assert(trace@[mid + (kk + 1)] == reach(a@, b@, (d - 1) as nat, kk + 1));
                lemma_reach_bounds(a@, b@, (d - 1) as nat, kk + 1);
            }
        }
        let prev_k = if k == lower || (k != upper && trace[k - 1] < trace[k + 1]) {
            k + 1
        } else {
            k - 1
        };
        let ghost pk = prev_k - mid;
        let prev_x = trace_list[depth - 1][prev_k];
        proof {
            assert(active(d - 1, pk));
            assert(prev_x == reach(a@, b@, (d - 1) as nat, pk));
            if pk == kk + 1 {
                assert(start(a@, b@, d, kk) == prev_x);
            } else {
                assert(start(a@, b@, d, kk) == prev_x + 1);
            }
        }
        let prev_y = mid + prev_x - prev_k;
        let ghost st = start(a@, b@, d, kk);
        proof {
            lemma_slide_bounds(a@, b@, st, st - kk);
        }
        while x > prev_x && y > prev_y
            invariant
                x <= a@.len(),
                y <= b@.len(),
                x - y == kk,
                st <= x <= reach(a@, b@, d, kk),
                reach(a@, b@, d, kk) == slide(a@, b@, st, st - kk),
                0 <= st,
                0 <= st - kk,
                run_matches(a@, b@, st, st - kk, slide(a@, b@, st, st - kk) - st),
                (st == prev_x && st - kk == prev_y + 1) || (st == prev_x + 1 && st - kk == prev_y),
                converts(a@, b@, edits_of(edits@), x as int, y as int, a@.len() as int, b@.len() as int),
            decreases x,
        {
            proof {
                let e = slide(a@, b@, st, st - kk);
                assert(x > st);
                {
                    assert(a@[x - 1] == a@.subrange(st, e)[x - 1 - st]);
                    assert(b@[y - 1] == b@.subrange(st - kk, st - kk + (e - st))[x - 1 - st]);
                    assert(a@.subrange(x - 1, x as int) =~= b@.subrange(y - 1, y as int));
                }
                lemma_converts_extend_front(a@, b@, edits_of(edits@), x - 1, y - 1, x as int, y as int,
                    a@.len() as int, b@.len() as int);
            }
            x = x - 1;
            y = y - 1;
        }
        let ghost old_edits = edits@;
        if x == prev_x {
            let te = TracedEdit { k, trace, edit: Edit::Insert { pos: prev_x, value: prev_y } };
            proof {
                lemma_edits_of_prepend(te, edits@);
                assert(a@.subrange(prev_x as int, prev_x as int) =~= b@.subrange(prev_y as int, prev_y as int));
            }
            edits.insert(0, te);
            inserts = inserts + 1;
        } else {
            let te = TracedEdit { k, trace, edit: Edit::Delete { pos: prev_x } };
            proof {
                lemma_edits_of_prepend(te, edits@);
                assert(a@.subrange(prev_x as int, prev_x as int) =~= b@.subrange(prev_y as int, prev_y as int));
            }
            edits.insert(0, te);
            deletes = deletes + 1;
        }
        proof {
            assert(edits@ =~= seq![edits@[0]] + old_edits);
            assert(trace_list@ =~= hist.subrange(0, trace_list@.len() as int));
            lemma_reach_bounds(a@, b@, (d - 1) as nat, pk);
            assert forall|i: int| 0 <= i < edits@.len() implies (#[trigger] edits@[i]).trace == hist[trace_list@.len() + i] by {
                if i > 0 {
                    assert(edits@[i] == old_edits[i - 1]);
                }
            }
            let w1 = walk(a@, b@, (d - 1) as nat, prev_x as int, prev_y as int);
            assert(edits@[0].k - mid == kk);
            assert(walk(a@, b@, d, kk + y_top, y_top) == w1.push((edits@[0].edit, kk)));
            assert(diagonal_edits(edits@, mid as int) =~= seq![(edits@[0].edit, kk)] + diagonal_edits(old_edits, mid as int));
            assert(w1.push((edits@[0].edit, kk)) + diagonal_edits(old_edits, mid as int)
                =~= w1 + diagonal_edits(edits@, mid as int));
        }
        x = prev_x;
        y = prev_y;
    }
    proof {
        assert(x - y == 0);
        let s0 = start(a@, b@, 0, 0);
        lemma_slide_bounds(a@, b@, s0, s0);
        assert(a@.subrange(0, x as int) =~= a@.subrange(0, slide(a@, b@, 0, 0)).subrange(0, x as int));
        assert(b@.subrange(0, y as int) =~= b@.subrange(0, slide(a@, b@, 0, 0)).subrange(0, y as int));
        lemma_converts_extend_front(a@, b@, edits_of(edits@), 0, 0, x as int, y as int,
            a@.len() as int, b@.len() as int);
        assert(edits_of(edits@).len() == edits@.len());
        let w = walk(a@, b@, dist, a@.len() as int, b@.len() as int);
        assert(w =~= diagonal_edits(edits@, mid as int));
        assert forall|i: int| 0 <= i < edits@.len() implies {
            &&& (#[trigger] edits@[i]).edit == w[i].0
            &&& edits@[i].k == a@.len() + b@.len() + w[i].1
            &&& edits@[i].trace@.len() == 2 * (a@.len() + b@.len()) + 1
        } by {
            assert(w[i] == diagonal_edits(edits@, mid as int)[i]);
            assert(edits@[i].trace == hist[1 + i]);
        }
        assert forall|i: int, j: int| 0 <= i < edits@.len() && 0 <= j < edits@[i].trace@.len()
            implies #[trigger] edits@[i].trace@[j] == snapshot(a@, b@, (i + 1) as nat, i + 1 == edits@.len(), j) by {
            assert(edits@[i].trace == hist[1 + i]);
            assert(hist[1 + i]@[j] == snapshot(a@, b@, (1 + i) as nat, 1 + i == hist.len() - 1, j));
        }
        if a@ == b@ {
            law_distance_identity(a@);
            law_distance_unique(a@, b@, 0, dist);
        }
    }
    Operations { inserts, deletes, edits }
}

} // verus!
