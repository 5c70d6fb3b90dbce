//! Where a declared path is resolved: the parent directory that must be
//! opened, and the leaf name that is never followed. The split is the one
//! `std::path` makes on Unix: the path is taken relative to `/`, and its
//! last component is split from the rest.

use vstd::prelude::*;

verus! {

pub open spec fn sep() -> u8 {
    47u8
}

pub open spec fn dot() -> u8 {
    46u8
}

/// A component that paths ignore: empty (from repeated `/`) or `.`.
pub open spec fn ignorable(c: Seq<u8>) -> bool {
    c.len() == 0 || c == seq![dot()]
}

/// The greatest `i` in `[lo, hi)` with `x[i] == '/'`, or `lo - 1`.
pub open spec fn last_sep(x: Seq<u8>, lo: int, hi: int) -> int
    decreases hi - lo,
{
    if hi <= lo {
        lo - 1
    } else if x[hi - 1] == sep() {
        hi - 1
    } else {
        last_sep(x, lo, hi - 1)
    }
}

/// The least `i` in `[lo, x.len())` with `x[i] == '/'`, or `x.len()`.
pub open spec fn first_sep(x: Seq<u8>, lo: int) -> int
    decreases x.len() - lo,
{
    if lo >= x.len() {
        x.len() as int
    } else if x[lo] == sep() {
        lo
    } else {
        first_sep(x, lo + 1)
    }
}

/// `last_sep` lies in `[lo - 1, hi)` and, unless it is `lo - 1`, on a `/`.
pub proof fn lemma_last_sep_bounds(x: Seq<u8>, lo: int, hi: int)
    ensures
        lo - 1 <= last_sep(x, lo, hi) < (if hi > lo { hi } else { lo }),
    decreases hi - lo,
{
    if hi > lo && x[hi - 1] != sep() {
        lemma_last_sep_bounds(x, lo, hi - 1);
    }
}

/// `first_sep` lies in `[lo, x.len()]` for `lo <= x.len()`.
pub proof fn lemma_first_sep_bounds(x: Seq<u8>, lo: int)
    requires
        lo <= x.len(),
    ensures
        lo <= first_sep(x, lo) <= x.len(),
    decreases x.len() - lo,
{
    if lo < x.len() && x[lo] != sep() {
        lemma_first_sep_bounds(x, lo + 1);
    }
}

/// The end of `x[..n]` once trailing ignorable components are dropped,
/// never going below `lo`.
pub open spec fn trim_tail(x: Seq<u8>, lo: int, n: int) -> int
    decreases n - lo,
{
    if n <= lo {
        n
    } else {
        let i = last_sep(x, lo, n);
        if ignorable(x.subrange(i + 1, n)) {
            proof {
                lemma_last_sep_bounds(x, lo, n);
            }
            trim_tail(x, lo, if i >= lo { i } else { lo })
        } else {
            n
        }
    }
}

/// The start of `x[j..]` once leading ignorable components are dropped.
pub open spec fn trim_head(x: Seq<u8>, j: int) -> int
    decreases x.len() - j,
{
    if j >= x.len() {
        j
    } else {
        let k = first_sep(x, j);
        if ignorable(x.subrange(j, k)) {
            proof {
                lemma_first_sep_bounds(x, j);
            }
            trim_head(x, if k < x.len() { k + 1 } else { k })
        } else {
            j
        }
    }
}

/// The path relative to `/`: for an absolute path, what follows the root,
/// without leading or trailing ignorable components; a relative path is
/// kept as it is.
pub open spec fn relative(p: Seq<u8>) -> Seq<u8> {
    if p.len() > 0 && p[0] == sep() {
        let a = trim_head(p, 1);
        p.subrange(a, trim_tail(p, a, p.len() as int))
    } else {
        p
    }
}

/// A relative path that begins with the component `.`.
pub open spec fn starts_cur(r: Seq<u8>) -> bool {
    r.len() > 0 && r[0] == dot() && (r.len() == 1 || r[1] == sep())
}

/// `(parent, leaf)` of a relative path `r`: the leaf is the last component
/// (empty where that is `..` or there is none); the parent is what comes
/// before it, without trailing ignorable components.
pub open spec fn split_relative(r: Seq<u8>) -> (Seq<u8>, Seq<u8>) {
    let hb: int = if starts_cur(r) { 1 } else { 0 };
    let e = trim_tail(r, hb, r.len() as int);
    if e <= hb {
        (seq![], seq![])
    } else {
        let i = last_sep(r, hb, e);
        let s = i + 1;
        let seg = r.subrange(s, e);
        let pend = if i >= hb { i } else { hb };
        (
            r.subrange(0, trim_tail(r, hb, pend)),
            if seg == seq![dot(), dot()] { seq![] } else { seg },
        )
    }
}

/// How the parent of a declared path is found.
#[derive(Debug, PartialEq, Eq)]
pub enum ParentLookup {
    /// The parent is the root itself.
    Root { leaf: Vec<u8> },
    /// The parent is the directory at `parent`, relative to the root.
    Open { parent: Vec<u8>, leaf: Vec<u8> },
}

/// The identity of a resolved path: the device and inode of its parent
/// directory, and its own leaf name.
#[derive(Debug, PartialEq, Eq, PartialOrd, Ord)]
pub struct PathIdentity {
    pub parent_dev: u64,
    pub parent_ino: u64,
    pub leaf: Vec<u8>,
}

impl PathIdentity {
    pub fn new(parent_dev: u64, parent_ino: u64, leaf: Vec<u8>) -> (r: Self)
        ensures
            r.parent_dev == parent_dev,
            r.parent_ino == parent_ino,
            r.leaf@ == leaf@,
    {
        PathIdentity { parent_dev, parent_ino, leaf }
    }
}

fn last_sep_exec(x: &[u8], lo: usize, hi: usize) -> (r: Option<usize>)
    requires
        lo <= hi <= x@.len(),
    ensures
        r matches Some(i) ==> i as int == last_sep(x@, lo as int, hi as int) && lo <= i < hi,
        r is None ==> last_sep(x@, lo as int, hi as int) == lo - 1,
{
    let mut h = hi;
    while h > lo
        invariant
            lo <= h <= hi <= x@.len(),
            last_sep(x@, lo as int, hi as int) == last_sep(x@, lo as int, h as int),
        decreases h - lo,
    {
        if x[h - 1] == 47u8 {
            return Some(h - 1);
        }
        h = h - 1;
    }
    None
}

fn first_sep_exec(x: &[u8], lo: usize) -> (r: usize)
    requires
        lo <= x@.len(),
    ensures
        r as int == first_sep(x@, lo as int),
        lo <= r <= x@.len(),
{
    let mut j = lo;
    while j < x.len() && x[j] != 47u8
        invariant
            lo <= j <= x@.len(),
            first_sep(x@, lo as int) == first_sep(x@, j as int),
        decreases x@.len() - j,
    {
        j = j + 1;
    }
    j
}

fn ignorable_exec(x: &[u8], from: usize, to: usize) -> (r: bool)
    requires
        from <= to <= x@.len(),
    ensures
        r == ignorable(x@.subrange(from as int, to as int)),
{
    let r = from == to || (to - from == 1 && x[from] == 46u8);
    proof {
        let c = x@.subrange(from as int, to as int);
        if to - from == 1 && x[from as int] == 46u8 {
            assert(c =~= seq![dot()]);
        }
        if c == seq![dot()] {
            assert(c.len() == 1);
            assert(c[0] == x@[from as int]);
        }
        if c.len() == 0 {
            assert(from == to);
        }
    }
    r
}

fn trim_tail_exec(x: &[u8], lo: usize, n: usize) -> (r: usize)
    requires
        lo <= n <= x@.len(),
    ensures
        r as int == trim_tail(x@, lo as int, n as int),
        lo <= r <= n,
{
    let mut m = n;
    while m > lo
        invariant
            lo <= m <= n <= x@.len(),
            trim_tail(x@, lo as int, n as int) == trim_tail(x@, lo as int, m as int),
        decreases m - lo,
    {
        let (start, next) = match last_sep_exec(x, lo, m) {
            Some(i) => (i + 1, i),
            None => (lo, lo),
        };
        if !ignorable_exec(x, start, m) {
            return m;
        }
        m = next;
    }
    m
}

fn trim_head_exec(x: &[u8], j0: usize) -> (r: usize)
    requires
        j0 <= x@.len(),
    ensures
        r as int == trim_head(x@, j0 as int),
        j0 <= r <= x@.len(),
{
    let mut j = j0;
    while j < x.len()
        invariant
            j0 <= j <= x@.len(),
            trim_head(x@, j0 as int) == trim_head(x@, j as int),
        decreases x@.len() - j,
    {
        let k = first_sep_exec(x, j);
        if !ignorable_exec(x, j, k) {
            return j;
        }
        j = if k < x.len() { k + 1 } else { k };
    }
    j
}

fn copy_range(x: &[u8], from: usize, to: usize) -> (r: Vec<u8>)
    requires
        from <= to <= x@.len(),
    ensures
        r@ == x@.subrange(from as int, to as int),
{
    let mut r: Vec<u8> = Vec::new();
    let mut i = from;
    while i < to
        invariant
            from <= i <= to <= x@.len(),
            r@ == x@.subrange(from as int, i as int),
        decreases to - i,
    {
        r.push(x[i]);
        i = i + 1;
    }
    r
}

/// The parent and leaf of the relative path `x[a..b]`.
fn split_relative_exec(x: &[u8], a: usize, b: usize) -> (r: (Vec<u8>, Vec<u8>))
    requires
        a <= b <= x@.len(),
    ensures
        (r.0@, r.1@) == split_relative(x@.subrange(a as int, b as int)),
{
    let r = copy_range(x, a, b);
    let rs = r.as_slice();
    assert(rs@ == x@.subrange(a as int, b as int));
    let hb: usize = if rs.len() > 0 && rs[0] == 46u8 && (rs.len() == 1 || rs[1] == 47u8) {
        1
    } else {
        0
    };
    let e = trim_tail_exec(rs, hb, rs.len());
    if e <= hb {
        return (Vec::new(), Vec::new());
    }
    let (s, pend) = match last_sep_exec(rs, hb, e) {
        Some(i) => (i + 1, i),
        None => (hb, hb),
    };
    let pe = trim_tail_exec(rs, hb, pend);
    let parent = copy_range(rs, 0, pe);
    let is_dotdot = e - s == 2 && rs[s] == 46u8 && rs[s + 1] == 46u8;
    proof {
        let seg = rs@.subrange(s as int, e as int);
        if is_dotdot {
            assert(seg =~= seq![dot(), dot()]);
        }
        assert(s <= e);
        if seg == seq![dot(), dot()] {
            assert(seg.len() == 2);
            assert(e - s == 2);
            assert(seg[0] == rs@[s as int]);
            assert(seg[1] == rs@[s + 1]);
        }
    }
    let leaf = if is_dotdot { Vec::new() } else { copy_range(rs, s, e) };
    assert(leaf@ == (if rs@.subrange(s as int, e as int) == seq![dot(), dot()] {
        Seq::<u8>::empty()
    } else {
        rs@.subrange(s as int, e as int)
    }));
    (parent, leaf)
}

/// Splits a declared path into the parent directory to open, relative to
/// the root, and the leaf name; a parent that is empty is the root itself.
pub fn parent_lookup(path: &[u8]) -> (r: ParentLookup)
    ensures
        ({
            let (parent, leaf) = split_relative(relative(path@));
            match r {
                ParentLookup::Root { leaf: l } => parent.len() == 0 && l@ == leaf,
                ParentLookup::Open { parent: p, leaf: l } => parent.len() > 0 && p@ == parent
                    && l@ == leaf,
            }
        }),
{
    let (a, b) = if path.len() > 0 && path[0] == 47u8 {
        let a = trim_head_exec(path, 1);
        let b = trim_tail_exec(path, a, path.len());
        (a, b)
    } else {
        (0, path.len())
    };
    assert(path@.subrange(a as int, b as int) == relative(path@)) by {
        if !(path@.len() > 0 && path@[0] == sep()) {
            assert(path@.subrange(0, path@.len() as int) =~= path@);
        }
    }
    let (parent, leaf) = split_relative_exec(path, a, b);
    if parent.len() == 0 {
        ParentLookup::Root { leaf }
    } else {
        ParentLookup::Open { parent, leaf }
    }
}


/// A single component that names an entry: non-empty, without `/`, and
/// neither `.` nor `..`.
pub open spec fn plain_name(l: Seq<u8>) -> bool {
    &&& l.len() > 0
    &&& forall|i: int| 0 <= i < l.len() ==> #[trigger] l[i] != sep()
    &&& l != seq![dot()]
    &&& l != seq![dot(), dot()]
}

/// A relative directory path whose first and last components are real
/// ones (neither empty nor `.`).
pub open spec fn proper_dir(d: Seq<u8>) -> bool {
    &&& d.len() > 0
    &&& !ignorable(d.subrange(0, first_sep(d, 0)))
    &&& !ignorable(d.subrange(last_sep(d, 0, d.len() as int) + 1, d.len() as int))
}

proof fn lemma_last_sep_agree(x: Seq<u8>, y: Seq<u8>, lo: int, hi: int)
    requires
        0 <= lo,
        hi <= x.len(),
        hi <= y.len(),
        forall|k: int| lo <= k < hi ==> x[k] == y[k],
    ensures
        last_sep(x, lo, hi) == last_sep(y, lo, hi),
    decreases hi - lo,
{
    if hi > lo {
        lemma_last_sep_agree(x, y, lo, hi - 1);
    }
}

proof fn lemma_last_sep_skip(x: Seq<u8>, lo: int, k: int, hi: int)
    requires
        lo <= k <= hi,
        hi <= x.len(),
        forall|j: int| k <= j < hi ==> x[j] != sep(),
    ensures
        last_sep(x, lo, hi) == last_sep(x, lo, k),
    decreases hi - k,
{
    if hi > k {
        lemma_last_sep_skip(x, lo, k, hi - 1);
    }
}

proof fn lemma_first_sep_shift(x: Seq<u8>, off: int, y: Seq<u8>, j: int)
    requires
        0 <= off,
        0 <= j <= y.len(),
        off + y.len() <= x.len(),
        forall|k: int| 0 <= k < y.len() ==> x[off + k] == y[k],
        off + y.len() < x.len() ==> x[off + y.len()] == sep(),
    ensures
        first_sep(x, off + j) == off + first_sep(y, j),
    decreases y.len() - j,
{
    if j < y.len() {
        assert(x[off + j] == y[j]);
        lemma_first_sep_shift(x, off, y, j + 1);
    }
}

/// A top-level entry has the root as its parent, and a path `/d/l` below a
/// directory `d` has `d` as its parent: the leaf `l` is the last component,
/// never part of what is opened.
pub proof fn law_parent_and_leaf(d: Seq<u8>, l: Seq<u8>)
    requires
        plain_name(l),
    ensures
        split_relative(relative(seq![sep()] + l)) == (Seq::<u8>::empty(), l),
        proper_dir(d) ==> split_relative(relative(seq![sep()] + d + seq![sep()] + l)) == (d, l),
{
    // The top-level entry.
    let p1 = seq![sep()] + l;
    assert forall|k: int| 0 <= k < l.len() implies p1[1 + k] == l[k] by {}
    lemma_first_sep_shift(p1, 1, l, 0);
    lemma_first_sep_shift(l, 0, l, 0);
    lemma_first_sep_bounds(l, 0);
    assert forall|k: int| 0 <= k < l.len() implies #[trigger] l[k] != sep() by {}
    assert(first_sep(l, 0) == l.len()) by {
        lemma_first_sep_no_sep(l, 0);
    }
    assert(p1.subrange(1, 1 + l.len() as int) =~= l);
    assert(trim_head(p1, 1) == 1);
    assert forall|j: int| 1 <= j < p1.len() implies p1[j] != sep() by {
        assert(p1[j] == l[j - 1]);
    }
    lemma_last_sep_skip(p1, 1, 1, p1.len() as int);
    assert(trim_tail(p1, 1, p1.len() as int) == p1.len());
    let r1 = p1.subrange(1, p1.len() as int);
    assert(r1 =~= l);
    assert(!starts_cur(l)) by {
        if starts_cur(l) {
            if l.len() == 1 {
                assert(l =~= seq![dot()]);
            }
        }
    }
    lemma_last_sep_skip(l, 0, 0, l.len() as int);
    assert(l.subrange(0, l.len() as int) =~= l);
    assert(trim_tail(l, 0, l.len() as int) == l.len());
    assert(trim_tail(l, 0, 0) == 0);
    assert(l.subrange(0, 0) =~= Seq::<u8>::empty());
    if proper_dir(d) {
        let p = seq![sep()] + d + seq![sep()] + l;
        let n = d.len() as int;
        let r = d + seq![sep()] + l;
        assert forall|k: int| 0 <= k < d.len() implies p[1 + k] == d[k] by {}
        lemma_first_sep_shift(p, 1, d, 0);
        assert(p.subrange(1, first_sep(p, 1)) =~= d.subrange(0, first_sep(d, 0))) by {
            lemma_first_sep_bounds(d, 0);
        }
        assert(trim_head(p, 1) == 1);
        assert forall|j: int| n + 2 <= j < p.len() implies p[j] != sep() by {
            assert(p[j] == l[j - n - 2]);
        }
        lemma_last_sep_skip(p, 1, n + 2, p.len() as int);
        assert(p[n + 1] == sep());
        assert(last_sep(p, 1, n + 2) == n + 1);
        assert(p.subrange(n + 2, p.len() as int) =~= l);
        assert(trim_tail(p, 1, p.len() as int) == p.len());
        assert(p.subrange(1, p.len() as int) =~= r);
        // The split of `r`.
        assert(!starts_cur(r)) by {
            lemma_first_sep_bounds(d, 0);
            if starts_cur(r) {
                assert(d[0] == r[0]);
                if d.len() == 1 {
                    lemma_first_sep_no_sep(d, 0);
                    assert(first_sep(d, 0) == 1);
                    assert(d.subrange(0, 1) =~= seq![dot()]);
                } else {
                    assert(d[1] == r[1]);
                    assert(d[1] == sep());
                    assert(first_sep(d, 1) == 1);
                    assert(first_sep(d, 0) == 1);
                    assert(d.subrange(0, 1) =~= seq![dot()]);
                }
            }
        }
        assert forall|j: int| n + 1 <= j < r.len() implies r[j] != sep() by {
            assert(r[j] == l[j - n - 1]);
        }
        lemma_last_sep_skip(r, 0, n + 1, r.len() as int);
        assert(r[n] == sep());
        assert(last_sep(r, 0, n + 1) == n);
        assert(r.subrange(n + 1, r.len() as int) =~= l);
        assert(trim_tail(r, 0, r.len() as int) == r.len());
        lemma_last_sep_agree(r, d, 0, n);
        lemma_last_sep_bounds(d, 0, n);
        assert(r.subrange(last_sep(r, 0, n) + 1, n) =~= d.subrange(last_sep(d, 0, n) + 1, n));
        assert(trim_tail(r, 0, n) == n);
        assert(r.subrange(0, n) =~= d);
    }
}

/// A path `/x` naming a top-level entry resolves against the root itself,
/// with `x` as its leaf: no directory is opened for it.
pub proof fn law_top_level_entry(x: Seq<u8>)
    requires
        plain_name(x),
    ensures
        split_relative(relative(seq![sep()] + x)) == (Seq::<u8>::empty(), x),
{
    law_parent_and_leaf(Seq::<u8>::empty(), x);
}

proof fn lemma_first_sep_no_sep(x: Seq<u8>, lo: int)
    requires
        0 <= lo <= x.len(),
        forall|k: int| lo <= k < x.len() ==> #[trigger] x[k] != sep(),
    ensures
        first_sep(x, lo) == x.len(),
    decreases x.len() - lo,
{
    if lo < x.len() {
        lemma_first_sep_no_sep(x, lo + 1);
    }
}

} // verus!
