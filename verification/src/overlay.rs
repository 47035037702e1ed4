use vstd::prelude::*;

use crate::data_ref::{
    ByteSource, DataRef, DataRefError, DataRefModel, RefKind, covers, lemma_slice_source, patch_start,
    ref_end, ref_wf, source, stored_offset,
};

verus! {

/// The references of a vector, as plain values.
pub open spec fn models(v: Seq<DataRef>) -> Seq<DataRefModel> {
    Seq::new(v.len(), |i: int| v[i]@)
}

/// References ordered by offset, none empty and no two overlapping.
pub open spec fn layout_wf(m: Seq<DataRefModel>) -> bool {
    &&& forall|i: int| 0 <= i < m.len() ==> ref_wf(#[trigger] m[i]) && m[i].length > 0
    &&& forall|i: int, j: int| 0 <= i < j < m.len() ==> ref_end(#[trigger] m[i]) <= #[trigger] m[j].offset
}

pub open spec fn covered(m: Seq<DataRefModel>, x: int) -> bool {
    exists|i: int| 0 <= i < m.len() && covers(#[trigger] m[i], x)
}

/// What a layout says of file position `x`, if any reference covers it.
pub open spec fn source_at(m: Seq<DataRefModel>, x: int) -> Option<ByteSource> {
    if covered(m, x) {
        let i = choose|i: int| 0 <= i < m.len() && covers(#[trigger] m[i], x);
        Some(source(m[i], x))
    } else {
        None
    }
}

/// Whether `r` overlaps `new` without lying wholly inside it, so that laying `new` over
/// it cuts it.
pub open spec fn cut_by(r: DataRefModel, new: DataRefModel) -> bool {
    &&& r.offset < ref_end(new)
    &&& new.offset < ref_end(r)
    &&& !(new.offset <= r.offset && ref_end(r) <= ref_end(new))
}

/// Why a reference could not be laid over the others.
#[derive(Debug, Clone, Copy, PartialEq, Eq, Structural)]
pub enum OverlayError {
    /// A zero-length reference has no place in a layout keyed by offset.
    ZeroLength,
    /// The new reference would cut an empty-block header.
    EmptyBlockCut,
}

/// When laying `new` over `m` fails, and with which error.
pub open spec fn overlay_error(m: Seq<DataRefModel>, new: DataRefModel) -> Option<OverlayError> {
    if new.length == 0 {
        Some(OverlayError::ZeroLength)
    } else if exists|i: int| 0 <= i < m.len() && (#[trigger] m[i]).kind is EmptyBlock && cut_by(m[i], new) {
        Some(OverlayError::EmptyBlockCut)
    } else {
        None
    }
}

pub proof fn lemma_source_at_unique(m: Seq<DataRefModel>, i: int, x: int)
    requires
        layout_wf(m),
        0 <= i < m.len(),
        covers(m[i], x),
    ensures
        covered(m, x),
        source_at(m, x) == Some(source(m[i], x)),
{
    let k = choose|k: int| 0 <= k < m.len() && covers(#[trigger] m[k], x);
    if k < i {
        assert(ref_end(m[k]) <= m[i].offset);
    } else if i < k {
        assert(ref_end(m[i]) <= m[k].offset);
    }
}

/// The number of references that start before `start`.
fn starts_before(segments: &Vec<DataRef>, start: u64) -> (idx: usize)
    requires
        layout_wf(models(segments@)),
    ensures
        idx <= segments@.len(),
        forall|i: int| 0 <= i < idx ==> (#[trigger] segments@[i])@.offset < start,
        forall|i: int| idx <= i < segments@.len() ==> (#[trigger] segments@[i])@.offset >= start,
{
    let ghost m = models(segments@);
    let mut lo: usize = 0;
    let mut hi: usize = segments.len();
    while lo < hi
        invariant
            m == models(segments@),
            layout_wf(m),
            lo <= hi <= segments@.len(),
            forall|i: int| 0 <= i < lo ==> (#[trigger] segments@[i])@.offset < start,
            forall|i: int| hi <= i < segments@.len() ==> (#[trigger] segments@[i])@.offset >= start,
        decreases hi - lo,
    {
        let mid = lo + (hi - lo) / 2;
        if segments[mid].offset() < start {
            proof {
                assert forall|i: int| 0 <= i <= mid implies (#[trigger] segments@[i])@.offset < start by {
                    if i < mid {
                        assert(m[i] == segments@[i]@);
                        assert(m[mid as int] == segments@[mid as int]@);
                        assert(ref_end(m[i]) <= m[mid as int].offset);
                    }
                }
            }
            lo = mid + 1;
        } else {
            proof {
                assert forall|i: int| mid <= i < segments@.len() implies (#[trigger] segments@[i])@.offset >= start by {
                    if i > mid {
                        assert(m[i] == segments@[i]@);
                        assert(m[mid as int] == segments@[mid as int]@);
                        assert(ref_end(m[mid as int]) <= m[i].offset);
                    }
                }
            }
            hi = mid;
        }
    }
    lo
}


/// The part of `r` covering `[start, end)`, as `DataRef::slice_interval` cuts it.
pub open spec fn cut(r: DataRefModel, start: int, end: int) -> DataRefModel {
    DataRefModel {
        version: r.version,
        offset: start as u64,
        length: (end - start) as u32,
        kind: match r.kind {
            RefKind::Patch { patch, .. } => RefKind::Patch {
                patch,
                patch_offset: stored_offset((start - r.offset + patch_start(r.kind)) as u32),
            },
            _ => RefKind::Zero,
        },
    }
}

pub proof fn lemma_cut(r: DataRefModel, start: int, end: int)
    requires
        ref_wf(r),
        r.kind !is EmptyBlock,
        r.offset <= start < end <= ref_end(r),
    ensures
        ref_wf(cut(r, start, end)),
        cut(r, start, end).length > 0,
        cut(r, start, end).offset == start,
        ref_end(cut(r, start, end)) == end,
        forall|x: int| #[trigger] covers(cut(r, start, end), x) ==> covers(r, x) && source(cut(r, start, end), x) == source(r, x),
{
    let c = cut(r, start, end);
    assert forall|x: int| #[trigger] covers(c, x) implies covers(r, x) && source(c, x) == source(r, x) by {
        lemma_slice_source(r, c, x);
    }
}

/// References each ending where the next may start, none empty, are a layout.
pub proof fn lemma_layout_from_neighbours(m: Seq<DataRefModel>)
    requires
        forall|i: int| 0 <= i < m.len() ==> ref_wf(#[trigger] m[i]) && m[i].length > 0,
        forall|i: int| 0 <= i < m.len() - 1 ==> ref_end(#[trigger] m[i]) <= m[i + 1].offset,
    ensures
        layout_wf(m),
    decreases m.len(),
{
    if m.len() > 1 {
        let init = m.drop_last();
        assert forall|i: int| 0 <= i < init.len() - 1 implies ref_end(#[trigger] init[i]) <= init[i + 1].offset by {
            assert(init[i] == m[i] && init[i + 1] == m[i + 1]);
        }
        lemma_layout_from_neighbours(init);
        assert forall|i: int, j: int| 0 <= i < j < m.len() implies ref_end(#[trigger] m[i]) <= #[trigger] m[j].offset by {
            if j < m.len() - 1 {
                assert(init[i] == m[i] && init[j] == m[j]);
            } else if i < j - 1 {
                assert(init[i] == m[i] && init[j - 1] == m[j - 1]);
                assert(ref_end(init[i]) <= init[j - 1].offset);
            }
        }
    }
}


/// Whether two references share a byte.
pub open spec fn overlaps(r: DataRefModel, s: DataRefModel) -> bool {
    r.offset < ref_end(s) && s.offset < ref_end(r)
}

/// What laying `new` over `m` says of position `x`: `new` where it reaches, `m` elsewhere.
pub open spec fn over(m: Seq<DataRefModel>, new: DataRefModel, x: int) -> Option<ByteSource> {
    if covers(new, x) {
        Some(source(new, x))
    } else {
        source_at(m, x)
    }
}

/// `f` is `m` with `new` laid over it: a layout saying what `over` says of every position,
/// which keeps exactly the references of `m` that `new` does not touch, and whose other
/// references are `new` and pieces cut from references of `m` (never empty-block headers).
pub open spec fn overlaid(m: Seq<DataRefModel>, new: DataRefModel, f: Seq<DataRefModel>) -> bool {
    &&& layout_wf(f)
    &&& forall|x: int| #[trigger] source_at(f, x) == over(m, new, x)
    &&& keeps_headers(m, new, f)
}

/// `f` holds `new`, keeps exactly the references of `m` that `new` does not touch, and
/// holds no other empty-block header.
pub open spec fn keeps_headers(m: Seq<DataRefModel>, new: DataRefModel, f: Seq<DataRefModel>) -> bool {
    &&& holds(f, new)
    &&& headers_from(m, new, f)
    &&& untouched_kept(m, new, f)
}

pub open spec fn holds(f: Seq<DataRefModel>, r: DataRefModel) -> bool {
    exists|k: int| 0 <= k < f.len() && #[trigger] f[k] == r
}

/// Every empty-block header of `f` is `new` or one of `m` that `new` does not touch.
pub open spec fn headers_from(m: Seq<DataRefModel>, new: DataRefModel, f: Seq<DataRefModel>) -> bool {
    forall|k: int|
        0 <= k < f.len() && (#[trigger] f[k]).kind is EmptyBlock ==> f[k] == new || exists|i: int|
            0 <= i < m.len() && #[trigger] m[i] == f[k] && !overlaps(m[i], new)
}

/// Every reference of `m` that `new` does not touch is in `f`.
pub open spec fn untouched_kept(m: Seq<DataRefModel>, new: DataRefModel, f: Seq<DataRefModel>) -> bool {
    forall|i: int| 0 <= i < m.len() && !overlaps(#[trigger] m[i], new) ==> holds(f, m[i])
}

pub open spec fn opt_model(o: Option<DataRef>) -> Option<DataRefModel> {
    match o {
        Some(r) => Some(r@),
        None => None,
    }
}

pub open spec fn opt_seq(o: Option<DataRefModel>) -> Seq<DataRefModel> {
    match o {
        Some(r) => seq![r],
        None => Seq::empty(),
    }
}

proof fn lemma_layout_sub(m: Seq<DataRefModel>, lo: int, hi: int)
    requires
        layout_wf(m),
        0 <= lo <= hi <= m.len(),
    ensures
        layout_wf(m.subrange(lo, hi)),
{
    let s = m.subrange(lo, hi);
    assert forall|i: int, k: int| 0 <= i < k < s.len() implies ref_end(#[trigger] s[i]) <= #[trigger] s[k].offset by {
        assert(s[i] == m[lo + i] && s[k] == m[lo + k]);
    }
}

proof fn lemma_layout_concat(s: Seq<DataRefModel>, t: Seq<DataRefModel>)
    requires
        layout_wf(s),
        layout_wf(t),
        s.len() > 0 && t.len() > 0 ==> ref_end(s.last()) <= t[0].offset,
    ensures
        layout_wf(s + t),
{
    let u = s + t;
    assert forall|i: int| 0 <= i < u.len() implies ref_wf(#[trigger] u[i]) && u[i].length > 0 by {
        if i < s.len() {
            assert(u[i] == s[i]);
        } else {
            assert(u[i] == t[i - s.len()]);
        }
    }
    assert forall|i: int, k: int| 0 <= i < k < u.len() implies ref_end(#[trigger] u[i]) <= #[trigger] u[k].offset by {
        if k < s.len() {
            assert(u[i] == s[i] && u[k] == s[k]);
        } else if i >= s.len() {
            assert(u[i] == t[i - s.len()] && u[k] == t[k - s.len()]);
        } else {
            assert(u[i] == s[i] && u[k] == t[k - s.len()]);
            let last = s.len() - 1;
            if i < last {
                assert(ref_end(s[i]) <= s[last].offset);
            }
            if k - s.len() > 0 {
                assert(ref_end(t[0]) <= t[k - s.len()].offset);
            }
        }
    }
}

proof fn lemma_layout_one(o: Option<DataRefModel>)
    requires
        o matches Some(r) ==> ref_wf(r) && r.length > 0,
    ensures
        layout_wf(opt_seq(o)),
{
}

/// The references of `m` before `keep` and from `j` on, with `new` and the pieces cut
/// around it in between.
pub open spec fn assemble(
    m: Seq<DataRefModel>,
    n: DataRefModel,
    keep: int,
    j: int,
    left: Option<DataRefModel>,
    right: Option<DataRefModel>,
    tail: Option<DataRefModel>,
) -> Seq<DataRefModel> {
    m.subrange(0, keep) + opt_seq(left) + seq![n] + opt_seq(right) + opt_seq(tail) + m.subrange(
        j,
        m.len() as int,
    )
}

/// How laying `n` over the layout `m` splits it: `m[..a]` starts before `n`, `m[a..j]`
/// starts inside it; the reference before `n` is cut into `left` and `right` when it
/// reaches into `n`, and the last one starting inside `n` leaves a `tail` when it reaches
/// past it.
pub open spec fn plan(
    m: Seq<DataRefModel>,
    n: DataRefModel,
    keep: int,
    a: int,
    j: int,
    left: Option<DataRefModel>,
    right: Option<DataRefModel>,
    tail: Option<DataRefModel>,
) -> bool {
    &&& layout_wf(m)
    &&& ref_wf(n)
    &&& n.length > 0
    &&& 0 <= keep <= a <= j <= m.len()
    &&& forall|i: int| 0 <= i < a ==> (#[trigger] m[i]).offset < n.offset
    &&& forall|i: int| a <= i < m.len() ==> (#[trigger] m[i]).offset >= n.offset
    &&& forall|i: int| a <= i < j ==> (#[trigger] m[i]).offset < ref_end(n)
    &&& (j < m.len() ==> m[j].offset >= ref_end(n))
    &&& ((a > 0 && ref_end(m[a - 1]) > n.offset) ==> {
        &&& keep == a - 1
        &&& m[a - 1].kind !is EmptyBlock
        &&& left == Some(cut(m[a - 1], m[a - 1].offset as int, n.offset as int))
        &&& right == (if ref_end(m[a - 1]) > ref_end(n) {
            Some(cut(m[a - 1], ref_end(n), ref_end(m[a - 1])))
        } else {
            None
        })
    })
    &&& (!(a > 0 && ref_end(m[a - 1]) > n.offset) ==> keep == a && left is None && right is None)
    &&& ((j > a && ref_end(m[j - 1]) > ref_end(n)) ==> m[j - 1].kind !is EmptyBlock && tail == Some(
        cut(m[j - 1], ref_end(n), ref_end(m[j - 1])),
    ))
    &&& (!(j > a && ref_end(m[j - 1]) > ref_end(n)) ==> tail is None)
}

proof fn lemma_assemble_index(
    m: Seq<DataRefModel>,
    n: DataRefModel,
    keep: int,
    j: int,
    left: Option<DataRefModel>,
    right: Option<DataRefModel>,
    tail: Option<DataRefModel>,
)
    requires
        0 <= keep <= j <= m.len(),
    ensures
        ({
            let f = assemble(m, n, keep, j, left, right, tail);
            let pn = keep + opt_seq(left).len();
            let pt = pn + 1 + opt_seq(right).len();
            let pp = pt + opt_seq(tail).len();
            &&& f.len() == pp + (m.len() - j)
            &&& forall|k: int| 0 <= k < keep ==> #[trigger] f[k] == m[k]
            &&& (left matches Some(l) ==> f[keep] == l)
            &&& f[pn] == n
            &&& (right matches Some(r) ==> f[pn + 1] == r)
            &&& (tail matches Some(t) ==> f[pt] == t)
            &&& forall|i: int| j <= i < m.len() ==> #[trigger] f[pp + (i - j)] == m[i]
        }),
{
    let f = assemble(m, n, keep, j, left, right, tail);
    let pn = keep + opt_seq(left).len();
    let pt = pn + 1 + opt_seq(right).len();
    let pp = pt + opt_seq(tail).len();
    assert forall|i: int| j <= i < m.len() implies #[trigger] f[pp + (i - j)] == m[i] by {}
}

proof fn lemma_plan_pieces(
    m: Seq<DataRefModel>,
    n: DataRefModel,
    keep: int,
    a: int,
    j: int,
    left: Option<DataRefModel>,
    right: Option<DataRefModel>,
    tail: Option<DataRefModel>,
)
    requires
        plan(m, n, keep, a, j, left, right, tail),
    ensures
        tail is Some ==> right is None,
        right is Some ==> j == a,
        left matches Some(l) ==> ref_wf(l) && l.length > 0 && l.offset == m[a - 1].offset && ref_end(l) == n.offset
            && forall|x: int| #[trigger] covers(l, x) ==> covers(m[a - 1], x) && source(l, x) == source(m[a - 1], x),
        right matches Some(r) ==> ref_wf(r) && r.length > 0 && r.offset == ref_end(n) && ref_end(r) == ref_end(m[a - 1])
            && forall|x: int| #[trigger] covers(r, x) ==> covers(m[a - 1], x) && source(r, x) == source(m[a - 1], x),
        tail matches Some(t) ==> ref_wf(t) && t.length > 0 && t.offset == ref_end(n) && ref_end(t) == ref_end(m[j - 1])
            && forall|x: int| #[trigger] covers(t, x) ==> covers(m[j - 1], x) && source(t, x) == source(m[j - 1], x),
        left matches Some(l) ==> l.kind !is EmptyBlock,
        right matches Some(r) ==> r.kind !is EmptyBlock,
        tail matches Some(t) ==> t.kind !is EmptyBlock,
{
    let ns = n.offset as int;
    let ne = ref_end(n);
    if a > 0 && ref_end(m[a - 1]) > ns {
        lemma_cut(m[a - 1], m[a - 1].offset as int, ns);
        if ref_end(m[a - 1]) > ne {
            lemma_cut(m[a - 1], ne, ref_end(m[a - 1]));
            if j > a {
                assert(ref_end(m[a - 1]) <= m[a].offset);
            }
        }
    }
    if j > a && ref_end(m[j - 1]) > ne {
        lemma_cut(m[j - 1], ne, ref_end(m[j - 1]));
        if a > 0 && ref_end(m[a - 1]) > ns {
            assert(ref_end(m[a - 1]) <= m[a].offset);
        }
    }
}

#[verifier::spinoff_prover]
proof fn lemma_plan_layout(
    m: Seq<DataRefModel>,
    n: DataRefModel,
    keep: int,
    a: int,
    j: int,
    left: Option<DataRefModel>,
    right: Option<DataRefModel>,
    tail: Option<DataRefModel>,
)
    requires
        plan(m, n, keep, a, j, left, right, tail),
    ensures
        layout_wf(assemble(m, n, keep, j, left, right, tail)),
{
    lemma_plan_pieces(m, n, keep, a, j, left, right, tail);
    let pre = m.subrange(0, keep);
    let post = m.subrange(j, m.len() as int);
    lemma_layout_sub(m, 0, keep);
    lemma_layout_sub(m, j, m.len() as int);
    lemma_layout_one(left);
    lemma_layout_one(Some(n));
    lemma_layout_one(right);
    lemma_layout_one(tail);
    let s1 = pre + opt_seq(left);
    let s2 = s1 + seq![n];
    let s3 = s2 + opt_seq(right);
    let s4 = s3 + opt_seq(tail);
    if keep > 0 && left is Some {
        assert(ref_end(m[keep - 1]) <= m[a - 1].offset);
    }
    lemma_layout_concat(pre, opt_seq(left));
    if left is None && keep > 0 {
        assert(s1.last() == m[keep - 1]);
        if keep < a {
            assert(ref_end(m[keep - 1]) <= m[a - 1].offset);
        }
    }
    lemma_layout_concat(s1, seq![n]);
    lemma_layout_concat(s2, opt_seq(right));
    lemma_layout_concat(s3, opt_seq(tail));
    if j < m.len() {
        assert(post[0] == m[j]);
        if tail is Some {
            assert(ref_end(m[j - 1]) <= m[j].offset);
        } else if right is Some {
            assert(ref_end(m[a - 1]) <= m[a].offset);
        }
    }
    lemma_layout_concat(s4, post);
    assert(assemble(m, n, keep, j, left, right, tail) == s4 + post);
}

proof fn lemma_plan_no_cut(
    m: Seq<DataRefModel>,
    n: DataRefModel,
    keep: int,
    a: int,
    j: int,
    left: Option<DataRefModel>,
    right: Option<DataRefModel>,
    tail: Option<DataRefModel>,
)
    requires
        plan(m, n, keep, a, j, left, right, tail),
    ensures
        overlay_error(m, n) is None,
{
    assert forall|i: int| 0 <= i < m.len() && (#[trigger] m[i]).kind is EmptyBlock implies !cut_by(m[i], n) by {
        if i < a - 1 {
            assert(ref_end(m[i]) <= m[a - 1].offset);
        } else if a <= i < j - 1 {
            assert(ref_end(m[i]) <= m[j - 1].offset);
        }
    }
}

#[verifier::spinoff_prover]
proof fn lemma_plan_sources(
    m: Seq<DataRefModel>,
    n: DataRefModel,
    keep: int,
    a: int,
    j: int,
    left: Option<DataRefModel>,
    right: Option<DataRefModel>,
    tail: Option<DataRefModel>,
)
    requires
        plan(m, n, keep, a, j, left, right, tail),
        layout_wf(assemble(m, n, keep, j, left, right, tail)),
    ensures
        forall|x: int| #[trigger] source_at(assemble(m, n, keep, j, left, right, tail), x) == over(m, n, x),
{
    let f = assemble(m, n, keep, j, left, right, tail);
    lemma_plan_pieces(m, n, keep, a, j, left, right, tail);
    lemma_assemble_index(m, n, keep, j, left, right, tail);
    let ns = n.offset as int;
    let pn = keep + opt_seq(left).len();
    let pt = pn + 1 + opt_seq(right).len();
    let pp = pt + opt_seq(tail).len();
    assert forall|x: int| #[trigger] source_at(f, x) == over(m, n, x) by {
        if covers(n, x) {
            lemma_source_at_unique(f, pn, x);
        } else if covered(m, x) {
            let i = choose|i: int| 0 <= i < m.len() && covers(#[trigger] m[i], x);
            lemma_source_at_unique(m, i, x);
            if i < keep {
                lemma_source_at_unique(f, i, x);
            } else if i < a {
                if x < ns {
                    lemma_source_at_unique(f, keep, x);
                } else {
                    lemma_source_at_unique(f, pn + 1, x);
                }
            } else if i < j {
                if i < j - 1 {
                    assert(ref_end(m[i]) <= m[j - 1].offset);
                }
                lemma_source_at_unique(f, pt, x);
            } else {
                lemma_source_at_unique(f, pp + (i - j), x);
            }
        } else {
            assert forall|k: int| 0 <= k < f.len() implies !covers(#[trigger] f[k], x) by {
                if k < keep {
                    assert(covers(m[k], x) ==> covered(m, x));
                } else if k < pn {
                    assert(covers(m[a - 1], x) ==> covered(m, x));
                } else if k == pn {
                } else if k < pt {
                    assert(covers(m[a - 1], x) ==> covered(m, x));
                } else if k < pp {
                    assert(covers(m[j - 1], x) ==> covered(m, x));
                } else {
                    let i = j + (k - pp);
                    assert(f[pp + (i - j)] == m[i]);
                    assert(covers(m[i], x) ==> covered(m, x));
                }
            }
        }
    }
}

proof fn lemma_plan_kept(
    m: Seq<DataRefModel>,
    n: DataRefModel,
    keep: int,
    a: int,
    j: int,
    left: Option<DataRefModel>,
    right: Option<DataRefModel>,
    tail: Option<DataRefModel>,
)
    requires
        plan(m, n, keep, a, j, left, right, tail),
    ensures
        keeps_headers(m, n, assemble(m, n, keep, j, left, right, tail)),
{
    let f = assemble(m, n, keep, j, left, right, tail);
    lemma_plan_pieces(m, n, keep, a, j, left, right, tail);
    lemma_assemble_index(m, n, keep, j, left, right, tail);
    let pn = keep + opt_seq(left).len();
    let pt = pn + 1 + opt_seq(right).len();
    let pp = pt + opt_seq(tail).len();
    assert(f[pn] == n);
    assert forall|k: int| 0 <= k < f.len() && (#[trigger] f[k]).kind is EmptyBlock implies f[k] == n || exists|i: int|
        0 <= i < m.len() && #[trigger] m[i] == f[k] && !overlaps(m[i], n) by {
        if k < keep {
            if k < a - 1 {
                assert(ref_end(m[k]) <= m[a - 1].offset);
            }
            assert(m[k] == f[k] && !overlaps(m[k], n));
        } else if k >= pp {
            let i = j + (k - pp);
            assert(f[pp + (i - j)] == m[i]);
            assert(m[i] == f[k] && !overlaps(m[i], n));
        }
    }
    assert forall|i: int| 0 <= i < m.len() && !overlaps(#[trigger] m[i], n) implies holds(f, m[i]) by {
        if i < keep {
            assert(f[i] == m[i]);
        } else if i >= j {
            assert(f[pp + (i - j)] == m[i]);
        }
    }
}

/// Laying `n` over `m` along a plan gives the overlaid layout.
proof fn lemma_plan_overlaid(
    m: Seq<DataRefModel>,
    n: DataRefModel,
    keep: int,
    a: int,
    j: int,
    left: Option<DataRefModel>,
    right: Option<DataRefModel>,
    tail: Option<DataRefModel>,
)
    requires
        plan(m, n, keep, a, j, left, right, tail),
    ensures
        overlay_error(m, n) is None,
        overlaid(m, n, assemble(m, n, keep, j, left, right, tail)),
{
    lemma_plan_no_cut(m, n, keep, a, j, left, right, tail);
    lemma_plan_layout(m, n, keep, a, j, left, right, tail);
    lemma_plan_sources(m, n, keep, a, j, left, right, tail);
    lemma_plan_kept(m, n, keep, a, j, left, right, tail);
}

/// The part of `r` covering `[start, end)`.
fn cut_piece(r: &DataRef, start: u64, end: u64) -> (c: DataRef)
    requires
        ref_wf(r@),
        r@.kind !is EmptyBlock,
        r@.offset <= start < end <= ref_end(r@),
    ensures
        c@ == cut(r@, start as int, end as int),
{
    match r.slice_interval(start, end) {
        Ok(c) => c,
        Err(_) => {
            proof {
                assert(false);
            }
            r.duplicate()
        },
    }
}

/// How `new` splits the layout `segments`: the number of references kept in front, the
/// bounds `a` and `j` of `plan`, and the pieces cut around `new`.
struct Split {
    keep: usize,
    a: usize,
    j: usize,
    left: Option<DataRef>,
    right: Option<DataRef>,
    tail: Option<DataRef>,
}

fn split_around(segments: &Vec<DataRef>, new: &DataRef) -> (r: Result<Split, OverlayError>)
    requires
        layout_wf(models(segments@)),
        ref_wf(new@),
        new@.length > 0,
    ensures
        r matches Err(e) ==> overlay_error(models(segments@), new@) == Some(e),
        r matches Ok(sp) ==> plan(
            models(segments@),
            new@,
            sp.keep as int,
            sp.a as int,
            sp.j as int,
            opt_model(sp.left),
            opt_model(sp.right),
            opt_model(sp.tail),
        ),
{
    let ghost m = models(segments@);
    let ghost n = new@;
    let new_start = new.offset();
    let new_end = new.end();
    let a = starts_before(segments, new_start);
    proof {
        assert forall|i: int| 0 <= i < a implies (#[trigger] m[i]).offset < n.offset by {
            assert(m[i] == segments@[i]@);
        }
        assert forall|i: int| a <= i < m.len() implies (#[trigger] m[i]).offset >= n.offset by {
            assert(m[i] == segments@[i]@);
        }
    }
    let mut keep = a;
    let mut left: Option<DataRef> = None;
    let mut right: Option<DataRef> = None;
    if a > 0 {
        let prev = &segments[a - 1];
        proof {
            assert(m[a - 1] == prev@);
        }
        let prev_end = prev.end();
        if prev_end > new_start {
            if prev.is_empty_block() {
                proof {
                    assert(cut_by(m[a - 1], n));
                }
                return Err(OverlayError::EmptyBlockCut);
            }
            if prev_end > new_end {
                right = Some(cut_piece(prev, new_end, prev_end));
            }
            left = Some(cut_piece(prev, prev.offset(), new_start));
            keep = a - 1;
        }
    }
    let mut j = a;
    while j < segments.len() && segments[j].offset() < new_end
        invariant
            m == models(segments@),
            n == new@,
            new_end == ref_end(n),
            a <= j <= segments@.len(),
            forall|i: int| a <= i < j ==> (#[trigger] m[i]).offset < ref_end(n),
        decreases segments@.len() - j,
    {
        proof {
            assert(m[j as int] == segments@[j as int]@);
        }
        j = j + 1;
    }
    proof {
        if j < m.len() {
            assert(m[j as int] == segments@[j as int]@);
        }
    }
    let mut tail: Option<DataRef> = None;
    if j > a {
        let last = &segments[j - 1];
        proof {
            assert(m[j - 1] == last@);
        }
        let last_end = last.end();
        if last_end > new_end {
            if last.is_empty_block() {
                proof {
                    assert(cut_by(m[j - 1], n));
                }
                return Err(OverlayError::EmptyBlockCut);
            }
            tail = Some(cut_piece(last, new_end, last_end));
        }
    }
    Ok(Split { keep, a, j, left, right, tail })
}

/// Lay `new` over a layout: where `new` reaches it replaces what was there, the
/// references it partly covers are cut down to what it leaves of them, and the rest stay
/// as they were.
pub fn apply_overlay(segments: &mut Vec<DataRef>, new: &DataRef) -> (r: Result<(), OverlayError>)
    requires
        layout_wf(models(old(segments)@)),
        ref_wf(new@),
    ensures
        r matches Err(e) ==> overlay_error(models(old(segments)@), new@) == Some(e) && final(segments)@
            == old(segments)@,
        r is Ok ==> overlay_error(models(old(segments)@), new@) is None && overlaid(
            models(old(segments)@),
            new@,
            models(final(segments)@),
        ),
{
    let ghost m = models(segments@);
    let ghost n = new@;
    if new.len() == 0 {
        return Err(OverlayError::ZeroLength);
    }
    let sp = match split_around(segments, new) {
        Ok(sp) => sp,
        Err(e) => {
            return Err(e);
        },
    };
    let Split { keep, a, j, left, right, tail } = sp;
    let ghost left_m = opt_model(left);
    let ghost right_m = opt_model(right);
    let ghost tail_m = opt_model(tail);
    proof {
        lemma_plan_overlaid(m, n, keep as int, a as int, j as int, left_m, right_m, tail_m);
    }
    let ghost old_segments = segments@;
    let mut rest = segments.split_off(j);
    segments.truncate(keep);
    match left {
        Some(l) => segments.push(l),
        None => {},
    }
    segments.push(new.duplicate());
    match right {
        Some(r) => segments.push(r),
        None => {},
    }
    match tail {
        Some(t) => segments.push(t),
        None => {},
    }
    let ghost rest_v = rest@;
    segments.append(&mut rest);
    proof {
        assert(rest_v == old_segments.subrange(j as int, old_segments.len() as int));
        assert(models(segments@) =~= assemble(m, n, keep as int, j as int, left_m, right_m, tail_m));
    }
    Ok(())
}

/// What the last of `refs` to reach position `x` says of it: later references are laid
/// over earlier ones.
pub open spec fn painted(refs: Seq<DataRefModel>, x: int) -> Option<ByteSource>
    decreases refs.len(),
{
    if refs.len() == 0 {
        None
    } else if covers(refs.last(), x) {
        Some(source(refs.last(), x))
    } else {
        painted(refs.drop_last(), x)
    }
}

/// No reference after `refs[j]` and before `refs[k]` touches it.
pub open spec fn intact(refs: Seq<DataRefModel>, j: int, k: int) -> bool {
    forall|l: int| j < l < k ==> !overlaps(#[trigger] refs[l], refs[j])
}

/// Why laying `refs[k]` over the earlier ones fails: it is empty, or it cuts an
/// empty-block header that nothing between has touched.
pub open spec fn step_error(refs: Seq<DataRefModel>, k: int) -> Option<OverlayError> {
    if refs[k].length == 0 {
        Some(OverlayError::ZeroLength)
    } else if exists|j: int|
        0 <= j < k && (#[trigger] refs[j]).kind is EmptyBlock && intact(refs, j, k) && cut_by(refs[j], refs[k]) {
        Some(OverlayError::EmptyBlockCut)
    } else {
        None
    }
}

/// The first error met laying the first `k` references one over the other.
pub open spec fn collapse_error(refs: Seq<DataRefModel>, k: int) -> Option<OverlayError>
    decreases k,
{
    if k <= 0 {
        None
    } else {
        match collapse_error(refs, k - 1) {
            Some(e) => Some(e),
            None => step_error(refs, k - 1),
        }
    }
}

proof fn lemma_collapse_error_stays(refs: Seq<DataRefModel>, k: int, k2: int)
    requires
        0 <= k <= k2,
        collapse_error(refs, k) is Some,
    ensures
        collapse_error(refs, k2) == collapse_error(refs, k),
    decreases k2 - k,
{
    if k2 > k {
        lemma_collapse_error_stays(refs, k, k2 - 1);
    }
}

/// What the collapse loop keeps after `k` references: a layout saying what the first `k`
/// references paint, whose empty-block headers are exactly the untouched ones.
pub open spec fn collapsed_upto(refs: Seq<DataRefModel>, k: int, out: Seq<DataRefModel>) -> bool {
    &&& layout_wf(out)
    &&& forall|x: int| #[trigger] source_at(out, x) == painted(refs.take(k), x)
    &&& headers_match(refs, k, out)
}

/// The empty-block headers of `out` are exactly those of the first `k` references that no
/// later one among them touches.
pub open spec fn headers_match(refs: Seq<DataRefModel>, k: int, out: Seq<DataRefModel>) -> bool {
    &&& headers_untouched(refs, k, out)
    &&& untouched_headers_held(refs, k, out)
}

/// Each empty-block header of `out` is one of the first `k` references, untouched since.
pub open spec fn headers_untouched(refs: Seq<DataRefModel>, k: int, out: Seq<DataRefModel>) -> bool {
    forall|i: int|
        0 <= i < out.len() && (#[trigger] out[i]).kind is EmptyBlock ==> exists|j: int|
            0 <= j < k && #[trigger] refs[j] == out[i] && intact(refs, j, k)
}

/// Each empty-block header among the first `k` references, untouched since, is in `out`.
pub open spec fn untouched_headers_held(refs: Seq<DataRefModel>, k: int, out: Seq<DataRefModel>) -> bool {
    forall|j: int|
        0 <= j < k && (#[trigger] refs[j]).kind is EmptyBlock && intact(refs, j, k) ==> holds(out, refs[j])
}

proof fn lemma_collapse_step_error(refs: Seq<DataRefModel>, k: int, out: Seq<DataRefModel>)
    requires
        0 <= k < refs.len(),
        headers_match(refs, k, out),
    ensures
        overlay_error(out, refs[k]) == step_error(refs, k),
{
    let n = refs[k];
    // The empty-block headers of `out` are the untouched ones, so `n` cuts one of them
    // exactly when it cuts an untouched one.
    if exists|i: int| 0 <= i < out.len() && (#[trigger] out[i]).kind is EmptyBlock && cut_by(out[i], n) {
        let i = choose|i: int| 0 <= i < out.len() && (#[trigger] out[i]).kind is EmptyBlock && cut_by(out[i], n);
        let j = choose|j: int| 0 <= j < k && #[trigger] refs[j] == out[i] && intact(refs, j, k);
        assert(refs[j].kind is EmptyBlock && intact(refs, j, k) && cut_by(refs[j], n));
    }
    if exists|j: int| 0 <= j < k && (#[trigger] refs[j]).kind is EmptyBlock && intact(refs, j, k) && cut_by(refs[j], n) {
        let j = choose|j: int| 0 <= j < k && (#[trigger] refs[j]).kind is EmptyBlock && intact(refs, j, k) && cut_by(refs[j], n);
        let i = choose|i: int| 0 <= i < out.len() && #[trigger] out[i] == refs[j];
        assert(out[i].kind is EmptyBlock && cut_by(out[i], n));
    }
}

proof fn lemma_collapse_step_sources(refs: Seq<DataRefModel>, k: int, out: Seq<DataRefModel>, f: Seq<DataRefModel>)
    requires
        0 <= k < refs.len(),
        forall|x: int| #[trigger] source_at(out, x) == painted(refs.take(k), x),
        forall|x: int| #[trigger] source_at(f, x) == over(out, refs[k], x),
    ensures
        forall|x: int| #[trigger] source_at(f, x) == painted(refs.take(k + 1), x),
{
    let n = refs[k];
    let t = refs.take(k + 1);
    assert(t.drop_last() =~= refs.take(k));
    assert(t.last() == n);
    assert forall|x: int| #[trigger] source_at(f, x) == painted(refs.take(k + 1), x) by {
        assert(source_at(f, x) == over(out, n, x));
        assert(source_at(out, x) == painted(refs.take(k), x));
    }
}

proof fn lemma_collapse_step_headers(refs: Seq<DataRefModel>, k: int, out: Seq<DataRefModel>, f: Seq<DataRefModel>)
    requires
        0 <= k < refs.len(),
        headers_untouched(refs, k, out),
        headers_from(out, refs[k], f),
    ensures
        headers_untouched(refs, k + 1, f),
{
    let n = refs[k];
    assert forall|i: int| 0 <= i < f.len() && (#[trigger] f[i]).kind is EmptyBlock implies exists|j: int|
        0 <= j < k + 1 && #[trigger] refs[j] == f[i] && intact(refs, j, k + 1) by {
        if f[i] == n {
            assert(refs[k] == f[i] && intact(refs, k, k + 1));
        } else {
            let i0 = choose|i0: int| 0 <= i0 < out.len() && #[trigger] out[i0] == f[i] && !overlaps(out[i0], n);
            let j = choose|j: int| 0 <= j < k && #[trigger] refs[j] == out[i0] && intact(refs, j, k);
            assert forall|l: int| j < l < k + 1 implies !overlaps(#[trigger] refs[l], refs[j]) by {
                if l < k {
                    assert(intact(refs, j, k));
                }
            }
            assert(refs[j] == f[i] && intact(refs, j, k + 1));
        }
    }
}

proof fn lemma_collapse_step_held(refs: Seq<DataRefModel>, k: int, out: Seq<DataRefModel>, f: Seq<DataRefModel>)
    requires
        0 <= k < refs.len(),
        untouched_headers_held(refs, k, out),
        untouched_kept(out, refs[k], f),
        holds(f, refs[k]),
    ensures
        untouched_headers_held(refs, k + 1, f),
{
    let n = refs[k];
    assert forall|j: int| 0 <= j < k + 1 && (#[trigger] refs[j]).kind is EmptyBlock && intact(refs, j, k + 1) implies holds(f, refs[j]) by {
        if j < k {
            assert(!overlaps(refs[k], refs[j]));
            assert(intact(refs, j, k));
            let i0 = choose|i0: int| 0 <= i0 < out.len() && #[trigger] out[i0] == refs[j];
            assert(!overlaps(out[i0], n));
        }
    }
}

/// Lay each reference over those before it, in list order, and return the layout that
/// results: what it says of each byte is what the last reference reaching that byte says.
pub fn collapse(refs: &Vec<DataRef>) -> (r: Result<Vec<DataRef>, OverlayError>)
    requires
        forall|i: int| 0 <= i < refs@.len() ==> ref_wf(#[trigger] refs@[i]@),
    ensures
        r matches Err(e) ==> collapse_error(models(refs@), refs@.len() as int) == Some(e),
        r is Ok ==> collapse_error(models(refs@), refs@.len() as int) is None,
        r matches Ok(out) ==> layout_wf(models(out@)),
        r matches Ok(out) ==> forall|x: int| #[trigger] source_at(models(out@), x) == painted(models(refs@), x),
{
    let ghost rm = models(refs@);
    let mut out: Vec<DataRef> = Vec::new();
    let mut k: usize = 0;
    proof {
        assert(models(out@) =~= Seq::<DataRefModel>::empty());
    }
    while k < refs.len()
        invariant
            rm == models(refs@),
            k <= refs@.len(),
            forall|i: int| 0 <= i < refs@.len() ==> ref_wf(#[trigger] refs@[i]@),
            collapse_error(rm, k as int) is None,
            collapsed_upto(rm, k as int, models(out@)),
        decreases refs@.len() - k,
    {
        let ghost before = models(out@);
        proof {
            assert(rm[k as int] == refs@[k as int]@);
            lemma_collapse_step_error(rm, k as int, before);
        }
        match apply_overlay(&mut out, &refs[k]) {
            Ok(()) => {
                proof {
                    let f = models(out@);
                    lemma_collapse_step_sources(rm, k as int, before, f);
                    lemma_collapse_step_headers(rm, k as int, before, f);
                    lemma_collapse_step_held(rm, k as int, before, f);
                }
            },
            Err(e) => {
                proof {
                    assert(collapse_error(rm, k + 1) == Some(e));
                    lemma_collapse_error_stays(rm, k + 1, refs@.len() as int);
                }
                return Err(e);
            },
        }
        k = k + 1;
    }
    proof {
        assert(rm.take(refs@.len() as int) =~= rm);
    }
    Ok(out)
}

/// A layout paints each byte with the one reference covering it.
pub proof fn lemma_painted_layout(m: Seq<DataRefModel>, x: int)
    requires
        layout_wf(m),
    ensures
        painted(m, x) == source_at(m, x),
    decreases m.len(),
{
    if m.len() > 0 {
        let last = m.len() - 1;
        if covers(m[last], x) {
            lemma_source_at_unique(m, last, x);
        } else {
            let init = m.drop_last();
            lemma_layout_sub(m, 0, last);
            assert(init == m.subrange(0, last));
            lemma_painted_layout(init, x);
            if covered(init, x) {
                let i = choose|i: int| 0 <= i < init.len() && covers(#[trigger] init[i], x);
                assert(init[i] == m[i]);
                lemma_source_at_unique(init, i, x);
                lemma_source_at_unique(m, i, x);
            } else {
                assert forall|i: int| 0 <= i < m.len() implies !covers(#[trigger] m[i], x) by {
                    if i < last {
                        assert(init[i] == m[i]);
                    }
                }
            }
        }
    }
}

proof fn lemma_layout_no_error(m: Seq<DataRefModel>, k: int)
    requires
        layout_wf(m),
        0 <= k <= m.len(),
    ensures
        collapse_error(m, k) is None,
    decreases k,
{
    if k > 0 {
        lemma_layout_no_error(m, k - 1);
        assert forall|j: int| 0 <= j < k - 1 implies !cut_by(#[trigger] m[j], m[k - 1]) by {
            assert(ref_end(m[j]) <= m[k - 1].offset);
        }
    }
}

/// Collapsing changes nothing of a layout: it succeeds, and says of every byte what the
/// layout said.
pub proof fn lemma_collapse_idempotent(m: Seq<DataRefModel>)
    requires
        layout_wf(m),
    ensures
        collapse_error(m, m.len() as int) is None,
        forall|x: int| #[trigger] painted(m, x) == source_at(m, x),
{
    lemma_layout_no_error(m, m.len() as int);
    assert forall|x: int| #[trigger] painted(m, x) == source_at(m, x) by {
        lemma_painted_layout(m, x);
    }
}

/// What `painted` says of a byte is what the last reference covering it says: each byte of a
/// collapsed file comes from the latest reference, in list order, that covers it, and a byte
/// no reference covers is left out.
pub proof fn lemma_painted_is_last_writer(refs: Seq<DataRefModel>, x: int)
    ensures
        (forall|j: int| 0 <= j < refs.len() ==> !covers(#[trigger] refs[j], x)) ==> painted(refs, x) is None,
        forall|j: int|
            0 <= j < refs.len() && covers(#[trigger] refs[j], x) && (forall|l: int| j < l < refs.len() ==> !covers(
                #[trigger] refs[l],
                x,
            )) ==> painted(refs, x) == Some(source(refs[j], x)),
    decreases refs.len(),
{
    if refs.len() > 0 {
        let init = refs.drop_last();
        lemma_painted_is_last_writer(init, x);
        assert forall|j: int| 0 <= j < refs.len() - 1 implies #[trigger] refs[j] == init[j] by {}
        if !covers(refs.last(), x) {
            assert forall|j: int|
                0 <= j < refs.len() && covers(#[trigger] refs[j], x) && (forall|l: int| j < l < refs.len() ==> !covers(
                    #[trigger] refs[l],
                    x,
                )) implies painted(refs, x) == Some(source(refs[j], x)) by {
                assert(j < refs.len() - 1);
                assert(init[j] == refs[j]);
                assert forall|l: int| j < l < init.len() implies !covers(#[trigger] init[l], x) by {
                    assert(init[l] == refs[l]);
                }
            }
            if forall|j: int| 0 <= j < refs.len() ==> !covers(#[trigger] refs[j], x) {
                assert forall|j: int| 0 <= j < init.len() implies !covers(#[trigger] init[j], x) by {
                    assert(init[j] == refs[j]);
                }
            }
        } else {
            assert forall|j: int|
                0 <= j < refs.len() && covers(#[trigger] refs[j], x) && (forall|l: int| j < l < refs.len() ==> !covers(
                    #[trigger] refs[l],
                    x,
                )) implies painted(refs, x) == Some(source(refs[j], x)) by {
                if j < refs.len() - 1 {
                    assert(!covers(refs[refs.len() - 1], x));
                }
            }
        }
    }
}

} // verus!
