//! Where the search ends: the first depth that reaches the end of both
//! sequences reaches exactly their last positions, on the diagonal
//! `|a| - |b|`.

use vstd::prelude::*;
use crate::shortest_edit::{slide, start, reach, active, done, is_distance, lemma_reach_bounds, lemma_slide_bounds};

verus! {

/// The steps left to the end of both sequences from the point on diagonal
/// `k` at `depth`, each coordinate counted with its sign: a coordinate past
/// the end counts negatively.
pub open spec fn remaining(a: Seq<char>, b: Seq<char>, depth: nat, k: int) -> int {
    (a.len() - reach(a, b, depth, k)) + (b.len() - (reach(a, b, depth, k) - k))
}

/// How far the point on diagonal `k` at `depth` still is from the end, each
/// coordinate counted only while it falls short.
pub open spec fn shortfall(a: Seq<char>, b: Seq<char>, depth: nat, k: int) -> int {
    let x = reach(a, b, depth, k);
    let y = x - k;
    (if x < a.len() { a.len() - x } else { 0 }) + (if y < b.len() { b.len() - y } else { 0 })
}

/// One more delete never reaches less far; one more insert never reaches
/// less far down.
pub proof fn lemma_reach_grows(a: Seq<char>, b: Seq<char>, d: nat, k: int)
    requires
        active(d as int, k),
    ensures
        reach(a, b, d + 1, k + 1) >= reach(a, b, d, k) + 1,
        reach(a, b, d + 1, k - 1) >= reach(a, b, d, k),
{
    let d1 = (d + 1) as nat;
    assert(active(d1 as int, k + 1) && active(d1 as int, k - 1));
    lemma_reach_bounds(a, b, d1, k + 1);
    lemma_reach_bounds(a, b, d1, k - 1);
    assert(start(a, b, d1, k + 1) >= reach(a, b, d, k) + 1);
    assert(start(a, b, d1, k - 1) >= reach(a, b, d, k));
}

/// No point is fewer steps from the end than the depths still to go.
proof fn lemma_shortfall(a: Seq<char>, b: Seq<char>, dist: nat, d: nat, k: int)
    requires
        active(d as int, k),
        forall|e: nat, j: int| e < dist && active(e as int, j) ==> !#[trigger] done(a, b, e, j),
    ensures
        d + shortfall(a, b, d, k) >= dist,
    decreases dist - d,
{
    if d + shortfall(a, b, d, k) < dist {
        let x = reach(a, b, d, k);
        let y = x - k;
        assert(!done(a, b, d, k));
        lemma_reach_grows(a, b, d, k);
        assert(active(d + 1int, k + 1) && active(d + 1int, k - 1));
        if x < a.len() {
            lemma_shortfall(a, b, dist, (d + 1) as nat, k + 1);
        } else {
            lemma_shortfall(a, b, dist, (d + 1) as nat, k - 1);
        }
    }
}

/// Up to the distance, every point is at least as far from the end as the
/// depths still to go.
proof fn lemma_remaining(a: Seq<char>, b: Seq<char>, dist: nat, d: nat, k: int)
    requires
        active(d as int, k),
        d <= dist,
        forall|e: nat, j: int| e < dist && active(e as int, j) ==> !#[trigger] done(a, b, e, j),
    ensures
        d + remaining(a, b, d, k) >= dist,
    decreases d,
{
    lemma_shortfall(a, b, dist, d, k);
    let s = start(a, b, d, k);
    lemma_slide_bounds(a, b, s, s - k);
    lemma_reach_bounds(a, b, d, k);
    let x = reach(a, b, d, k);
    let y = x - k;
    if x <= a.len() && y <= b.len() {
    } else {
        // outside the grid the snake is empty, so the point is one step
        // from the point it started from
        assert(x == s);
        if d > 0 {
            let d1 = (d - 1) as nat;
            if k == -d || (k != d && reach(a, b, d1, k - 1) < reach(a, b, d1, k + 1)) {
                assert(active(d1 as int, k + 1));
                lemma_remaining(a, b, dist, d1, k + 1);
            } else {
                assert(active(d1 as int, k - 1));
                lemma_remaining(a, b, dist, d1, k - 1);
            }
        }
    }
}

/// At the distance, the diagonal `|a| - |b|` is searched and reaches
/// exactly the end of both sequences, starting from within them.
pub proof fn lemma_ends_at_corner(a: Seq<char>, b: Seq<char>, dist: nat)
    requires
        is_distance(a, b, dist),
    ensures
        active(dist as int, a.len() - b.len()),
        reach(a, b, dist, a.len() - b.len()) == a.len(),
        start(a, b, dist, a.len() - b.len()) <= a.len(),
{
    let k = choose|k: int| active(dist as int, k) && done(a, b, dist, k);
    lemma_remaining(a, b, dist, dist, k);
    lemma_reach_bounds(a, b, dist, k);
    assert(k == a.len() - b.len());
}

} // verus!
