//! Edit operations, edit scripts, and what it means for a script to turn one
//! sequence into another.

use vstd::prelude::*;

verus! {

/// One step of an edit script. Positions are absolute indices into the
/// source sequence; an insert's `value` is an absolute index into the target.
#[derive(Debug, Clone, Copy, PartialEq, Eq, Structural)]
pub enum Edit {
    /// Remove the source element at `pos`.
    Delete { pos: usize },
    /// Insert, before source position `pos`, the target element at `value`.
    Insert { pos: usize, value: usize },
}

/// An edit script together with its number of inserts and deletes.
#[derive(Debug)]
pub struct TotalEdits {
    pub inserts: usize,
    pub deletes: usize,
    pub ops: Vec<Edit>,
}

/// Number of inserts in `ops`.
pub open spec fn count_inserts(ops: Seq<Edit>) -> nat
    decreases ops.len(),
{
    if ops.len() == 0 {
        0
    } else {
        (if ops[0] is Insert { 1nat } else { 0nat }) + count_inserts(ops.drop_first())
    }
}

/// Number of deletes in `ops`.
pub open spec fn count_deletes(ops: Seq<Edit>) -> nat
    decreases ops.len(),
{
    if ops.len() == 0 {
        0
    } else {
        (if ops[0] is Delete { 1nat } else { 0nat }) + count_deletes(ops.drop_first())
    }
}

/// Whether `s[x..]` and `t[y..]` agree on `n` elements.
pub open spec fn run_matches<T>(s: Seq<T>, t: Seq<T>, x: int, y: int, n: int) -> bool {
    0 <= x && 0 <= y && 0 <= n && x + n <= s.len() && y + n <= t.len()
        && s.subrange(x, x + n) == t.subrange(y, y + n)
}

/// Whether `ops`, applied left to right, turns the window `a[x0..xe]` into the
/// window `b[y0..ye]`: every element of the source window is either kept
/// (matched against the next target element) or deleted, and every target
/// element that is not matched is inserted, at the position where it belongs.
pub open spec fn converts<T>(a: Seq<T>, b: Seq<T>, ops: Seq<Edit>, x0: int, y0: int, xe: int, ye: int) -> bool
    decreases ops.len(),
{
    if ops.len() == 0 {
        xe <= a.len() && ye <= b.len() && xe - x0 == ye - y0 && run_matches(a, b, x0, y0, xe - x0)
    } else {
        match ops[0] {
            Edit::Delete { pos } => {
                x0 <= pos < xe && run_matches(a, b, x0, y0, pos - x0)
                    && converts(a, b, ops.drop_first(), pos + 1, y0 + (pos - x0), xe, ye)
            },
            Edit::Insert { pos, value } => {
                x0 <= pos <= xe && value == y0 + (pos - x0) && value < ye
                    && run_matches(a, b, x0, y0, pos - x0)
                    && converts(a, b, ops.drop_first(), pos as int, value + 1, xe, ye)
            },
        }
    }
}

/// Whether `ops` is a script that turns the whole of `a` into the whole of `b`.
pub open spec fn is_script<T>(a: Seq<T>, b: Seq<T>, ops: Seq<Edit>) -> bool {
    converts(a, b, ops, 0, 0, a.len() as int, b.len() as int)
}

/// The sequence that results from applying `ops` to `a[x0..]`, taking
/// inserted elements from `b`.
pub open spec fn apply_edits<T>(a: Seq<T>, b: Seq<T>, ops: Seq<Edit>, x0: int) -> Seq<T>
    decreases ops.len(),
{
    if ops.len() == 0 {
        a.subrange(x0, a.len() as int)
    } else {
        match ops[0] {
            Edit::Delete { pos } => a.subrange(x0, pos as int) + apply_edits(a, b, ops.drop_first(), pos + 1),
            Edit::Insert { pos, value } => a.subrange(x0, pos as int) + seq![b[value as int]]
                + apply_edits(a, b, ops.drop_first(), pos as int),
        }
    }
}

/// A script that converts one window into another, applied to the source,
/// yields the target window.
pub proof fn lemma_converts_applies<T>(a: Seq<T>, b: Seq<T>, ops: Seq<Edit>, x0: int, y0: int)
    requires
        converts(a, b, ops, x0, y0, a.len() as int, b.len() as int),
    ensures
        apply_edits(a, b, ops, x0) == b.subrange(y0, b.len() as int),
    decreases ops.len(),
{
    if ops.len() > 0 {
        match ops[0] {
            Edit::Delete { pos } => {
                let y1 = y0 + (pos - x0);
                lemma_converts_applies(a, b, ops.drop_first(), pos + 1, y1);
                assert(b.subrange(y0, b.len() as int) =~= b.subrange(y0, y1) + b.subrange(y1, b.len() as int));
            },
            Edit::Insert { pos, value } => {
                lemma_converts_applies(a, b, ops.drop_first(), pos as int, value + 1);
                assert(b.subrange(y0, b.len() as int) =~= b.subrange(y0, value as int) + seq![b[value as int]]
                    + b.subrange(value + 1, b.len() as int));
            },
        }
    }
}

/// The windows of a script lie inside the sequences and start before they end.
pub proof fn lemma_converts_bounds<T>(a: Seq<T>, b: Seq<T>, ops: Seq<Edit>, x0: int, y0: int, xe: int, ye: int)
    requires
        converts(a, b, ops, x0, y0, xe, ye),
    ensures
        0 <= x0 <= xe <= a.len(),
        0 <= y0 <= ye <= b.len(),
    decreases ops.len(),
{
    if ops.len() > 0 {
        match ops[0] {
            Edit::Delete { pos } => {
                lemma_converts_bounds(a, b, ops.drop_first(), pos + 1, y0 + (pos - x0), xe, ye);
            },
            Edit::Insert { pos, value } => {
                lemma_converts_bounds(a, b, ops.drop_first(), pos as int, value + 1, xe, ye);
            },
        }
    }
}

/// Every position in a script lies inside its windows.
pub proof fn lemma_edit_in_window<T>(a: Seq<T>, b: Seq<T>, ops: Seq<Edit>, i: int)
    requires
        converts(a, b, ops, 0, 0, a.len() as int, b.len() as int),
        0 <= i < ops.len(),
    ensures
        match ops[i] {
            Edit::Delete { pos } => pos < a.len(),
            Edit::Insert { pos, value } => pos <= a.len() && value < b.len(),
        },
{
    lemma_edit_in_window_from(a, b, ops, 0, 0, i);
}

proof fn lemma_edit_in_window_from<T>(a: Seq<T>, b: Seq<T>, ops: Seq<Edit>, x0: int, y0: int, i: int)
    requires
        converts(a, b, ops, x0, y0, a.len() as int, b.len() as int),
        0 <= i < ops.len(),
    ensures
        match ops[i] {
            Edit::Delete { pos } => pos < a.len(),
            Edit::Insert { pos, value } => pos <= a.len() && value < b.len(),
        },
    decreases ops.len(),
{
    if i > 0 {
        match ops[0] {
            Edit::Delete { pos } => {
                lemma_edit_in_window_from(a, b, ops.drop_first(), pos + 1, y0 + (pos - x0), i - 1);
            },
            Edit::Insert { pos, value } => {
                lemma_edit_in_window_from(a, b, ops.drop_first(), pos as int, value + 1, i - 1);
            },
        }
    }
}

/// A run of matching elements in front of a window can be taken into it.
pub proof fn lemma_converts_extend_front<T>(
    a: Seq<T>, b: Seq<T>, ops: Seq<Edit>, sx: int, sy: int, x0: int, y0: int, xe: int, ye: int,
)
    requires
        run_matches(a, b, sx, sy, x0 - sx),
        x0 - sx == y0 - sy,
        converts(a, b, ops, x0, y0, xe, ye),
    ensures
        converts(a, b, ops, sx, sy, xe, ye),
{
    let n = x0 - sx;
    if ops.len() == 0 {
        assert(a.subrange(sx, xe) =~= a.subrange(sx, x0) + a.subrange(x0, xe));
        assert(b.subrange(sy, ye) =~= b.subrange(sy, y0) + b.subrange(y0, ye));
    } else {
        match ops[0] {
            Edit::Delete { pos } => {
                assert(a.subrange(sx, pos as int) =~= a.subrange(sx, x0) + a.subrange(x0, pos as int));
                assert(b.subrange(sy, sy + (pos - sx)) =~= b.subrange(sy, y0) + b.subrange(y0, y0 + (pos - x0)));
            },
            Edit::Insert { pos, value } => {
                assert(a.subrange(sx, pos as int) =~= a.subrange(sx, x0) + a.subrange(x0, pos as int));
                assert(b.subrange(sy, value as int) =~= b.subrange(sy, y0) + b.subrange(y0, value as int));
            },
        }
    }
}

/// Two scripts for neighbouring windows, joined by a run of matching
/// elements, make one script for the window that spans them.
pub proof fn lemma_converts_concat<T>(
    a: Seq<T>, b: Seq<T>, p: Seq<Edit>, s: Seq<Edit>,
    x0: int, y0: int, x: int, y: int, u: int, v: int, xe: int, ye: int,
)
    requires
        converts(a, b, p, x0, y0, x, y),
        run_matches(a, b, x, y, u - x),
        u - x == v - y,
        converts(a, b, s, u, v, xe, ye),
    ensures
        converts(a, b, p + s, x0, y0, xe, ye),
    decreases p.len(),
{
    if p.len() == 0 {
        assert(p + s =~= s);
        assert(a.subrange(x0, u) =~= a.subrange(x0, x) + a.subrange(x, u));
        assert(b.subrange(y0, v) =~= b.subrange(y0, y) + b.subrange(y, v));
        lemma_converts_extend_front(a, b, s, x0, y0, u, v, xe, ye);
    } else {
        lemma_converts_bounds(a, b, s, u, v, xe, ye);
        assert((p + s).drop_first() =~= p.drop_first() + s);
        assert((p + s)[0] == p[0]);
        match p[0] {
            Edit::Delete { pos } => {
                lemma_converts_concat(a, b, p.drop_first(), s, pos + 1, y0 + (pos - x0), x, y, u, v, xe, ye);
            },
            Edit::Insert { pos, value } => {
                lemma_converts_concat(a, b, p.drop_first(), s, pos as int, value + 1, x, y, u, v, xe, ye);
            },
        }
    }
}

/// Every edit is an insert or a delete.
pub proof fn lemma_counts_len(ops: Seq<Edit>)
    ensures
        count_inserts(ops) + count_deletes(ops) == ops.len(),
    decreases ops.len(),
{
    if ops.len() > 0 {
        lemma_counts_len(ops.drop_first());
    }
}

pub proof fn lemma_counts_concat(p: Seq<Edit>, s: Seq<Edit>)
    ensures
        count_inserts(p + s) == count_inserts(p) + count_inserts(s),
        count_deletes(p + s) == count_deletes(p) + count_deletes(s),
    decreases p.len(),
{
    if p.len() == 0 {
        assert(p + s =~= s);
    } else {
        assert((p + s).drop_first() =~= p.drop_first() + s);
        lemma_counts_concat(p.drop_first(), s);
    }
}

/// The script that deletes all of `a[x0..x0 + m]` and then inserts all of
/// `b[y0..y0 + n]` at `x0 + m`.
pub open spec fn delete_then_insert(x0: int, m: nat, y0: int, n: nat) -> Seq<Edit> {
    Seq::new(m, |i: int| Edit::Delete { pos: (x0 + i) as usize })
        + Seq::new(n, |j: int| Edit::Insert { pos: (x0 + m) as usize, value: (y0 + j) as usize })
}

proof fn lemma_inserts_convert<T>(a: Seq<T>, b: Seq<T>, xe: int, y0: int, n: nat)
    requires
        0 <= xe <= a.len(),
        0 <= y0,
        y0 + n <= b.len(),
        xe + y0 + n <= usize::MAX,
    ensures
        converts(a, b, delete_then_insert(xe, 0, y0, n), xe, y0, xe, y0 + n),
    decreases n,
{
    let s = delete_then_insert(xe, 0, y0, n);
    assert(a.subrange(xe, xe) =~= b.subrange(y0, y0));
    if n > 0 {
        lemma_inserts_convert(a, b, xe, y0 + 1, (n - 1) as nat);
        assert(s.drop_first() =~= delete_then_insert(xe, 0, y0 + 1, (n - 1) as nat));
    } else {
        assert(s.len() == 0);
    }
}

/// Deleting a window and inserting another converts the one into the other.
pub proof fn lemma_delete_then_insert<T>(a: Seq<T>, b: Seq<T>, x0: int, m: nat, y0: int, n: nat)
    requires
        0 <= x0,
        x0 + m <= a.len(),
        0 <= y0,
        y0 + n <= b.len(),
        x0 + m + y0 + n <= usize::MAX,
    ensures
        converts(a, b, delete_then_insert(x0, m, y0, n), x0, y0, x0 + m, y0 + n),
        count_deletes(delete_then_insert(x0, m, y0, n)) == m,
        count_inserts(delete_then_insert(x0, m, y0, n)) == n,
    decreases m, n,
{
    let s = delete_then_insert(x0, m, y0, n);
    assert(a.subrange(x0, x0) =~= b.subrange(y0, y0));
    if m > 0 {
        lemma_delete_then_insert(a, b, x0 + 1, (m - 1) as nat, y0, n);
        assert(s.drop_first() =~= delete_then_insert(x0 + 1, (m - 1) as nat, y0, n));
    } else if n > 0 {
        lemma_inserts_convert(a, b, x0, y0, n);
        lemma_delete_then_insert(a, b, x0, 0, y0 + 1, (n - 1) as nat);
        assert(s.drop_first() =~= delete_then_insert(x0, 0, y0 + 1, (n - 1) as nat));
    } else {
        assert(s.len() == 0);
    }
}

/// The edits that delete `a[x0..xe]` and then insert `b[y0..ye]`: a script
/// from the one window to the other that keeps nothing.
pub fn replace_all(x0: usize, xe: usize, y0: usize, ye: usize) -> (r: Vec<Edit>)
    requires
        x0 <= xe,
        y0 <= ye,
        xe + ye <= usize::MAX,
    ensures
        r@ == delete_then_insert(x0 as int, (xe - x0) as nat, y0 as int, (ye - y0) as nat),
{
    let mut r: Vec<Edit> = Vec::new();
    let mut i: usize = x0;
    while i < xe
        invariant
            x0 <= i <= xe,
            r@ == Seq::new((i - x0) as nat, |p: int| Edit::Delete { pos: (x0 + p) as usize }),
        decreases xe - i,
    {
        r.push(Edit::Delete { pos: i });
        assert(r@ =~= Seq::new((i + 1 - x0) as nat, |p: int| Edit::Delete { pos: (x0 + p) as usize }));
        i = i + 1;
    }
    let ghost dels = r@;
    let mut j: usize = y0;
    while j < ye
        invariant
            y0 <= j <= ye,
            xe + ye <= usize::MAX,
            x0 <= xe,
            dels == Seq::new((xe - x0) as nat, |p: int| Edit::Delete { pos: (x0 + p) as usize }),
            r@ == dels + Seq::new((j - y0) as nat, |q: int| Edit::Insert { pos: (x0 + (xe - x0)) as usize, value: (y0 + q) as usize }),
        decreases ye - j,
    {
        r.push(Edit::Insert { pos: xe, value: j });
        assert(r@ =~= dels + Seq::new((j + 1 - y0) as nat, |q: int| Edit::Insert { pos: (x0 + (xe - x0)) as usize, value: (y0 + q) as usize }));
        j = j + 1;
    }
    r
}

impl TotalEdits {
    /// Whether the two counts are those of `ops`.
    pub open spec fn wf(&self) -> bool {
        self.inserts == count_inserts(self.ops@) && self.deletes == count_deletes(self.ops@)
    }

    /// The edits of `self` followed by those of `other`, with the counts added.
    pub fn merge(self, other: Self) -> (r: Self)
        requires
            self.inserts + other.inserts <= usize::MAX,
            self.deletes + other.deletes <= usize::MAX,
        ensures
            r.ops@ == self.ops@ + other.ops@,
            r.inserts == self.inserts + other.inserts,
            r.deletes == self.deletes + other.deletes,
            self.wf() && other.wf() ==> r.wf(),
    {
        proof {
            lemma_counts_concat(self.ops@, other.ops@);
        }
        let mut this = self;
        let mut other = other;
        this.inserts = this.inserts + other.inserts;
        this.deletes = this.deletes + other.deletes;
        this.ops.append(&mut other.ops);
        this
    }
}

impl Default for TotalEdits {
    /// The empty script.
    fn default() -> (r: Self)
        ensures
            r.inserts == 0 && r.deletes == 0 && r.ops@.len() == 0,
    {
        TotalEdits { inserts: 0, deletes: 0, ops: Vec::new() }
    }
}

} // verus!
