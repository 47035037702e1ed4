use http_content_range::ContentRange;
use vstd::prelude::*;

use crate::bytes::push_bytes;
use crate::chunk::{trim_end, trim_start};
use crate::codec::{deflate_inflate, deflate_inflated};
use crate::data_ref::PatchRef;
use crate::text::{
    chars_of, eq_ignore_case, eq_ignore_case_at, find_char, first_index, lemma_first_index, pieces,
    split, split_chars, string_of, trim_white, trim_white_bounds,
};
use crate::ranges::{
    models, range_header, range_wf, MergedRange, RangeBatch, RangeModel, MAX_RANGES_PER_REQUEST,
    MAX_RANGE_HEADER_SIZE, MIN_RANGE_DISTANCE,
};

verus! {

broadcast use vstd::seq_lib::group_to_multiset_ensures;

/// Whether offsets never decrease along `s`.
pub open spec fn ascending(s: Seq<PatchRef>) -> bool {
    forall|i: int, j: int| 0 <= i <= j < s.len() ==> s[i].offset <= s[j].offset
}

/// `s` with `p` placed after every element from the end whose offset is larger: where a
/// stable sort by offset puts an element that comes after all of `s`.
pub open spec fn insert_by_offset(s: Seq<PatchRef>, p: PatchRef) -> Seq<PatchRef>
    decreases s.len(),
{
    if s.len() == 0 {
        seq![p]
    } else if s.last().offset <= p.offset {
        s.push(p)
    } else {
        insert_by_offset(s.drop_last(), p).push(s.last())
    }
}

/// `s` ordered by offset, references with equal offsets kept in their order: a stable sort.
pub open spec fn sorted_by_offset(s: Seq<PatchRef>) -> Seq<PatchRef>
    decreases s.len(),
{
    if s.len() == 0 {
        s
    } else {
        insert_by_offset(sorted_by_offset(s.drop_last()), s.last())
    }
}

proof fn lemma_insert_at(s: Seq<PatchRef>, p: PatchRef, j: int)
    requires
        0 <= j <= s.len(),
        forall|k: int| j <= k < s.len() ==> s[k].offset > p.offset,
        j == 0 || s[j - 1].offset <= p.offset,
    ensures
        insert_by_offset(s, p) == s.insert(j, p),
    decreases s.len(),
{
    if s.len() == 0 {
        assert(s.insert(j, p) =~= seq![p]);
    } else if j == s.len() {
        assert(s.insert(j, p) =~= s.push(p));
    } else {
        lemma_insert_at(s.drop_last(), p, j);
        assert(s.insert(j, p) =~= s.drop_last().insert(j, p).push(s.last()));
    }
}

proof fn lemma_insert_by_offset(s: Seq<PatchRef>, p: PatchRef)
    requires
        ascending(s),
    ensures
        ascending(insert_by_offset(s, p)),
        insert_by_offset(s, p).to_multiset() == s.to_multiset().insert(p),
        insert_by_offset(s, p).len() == s.len() + 1,
    decreases s.len(),
{
    if s.len() == 0 {
        assert(seq![p] =~= Seq::<PatchRef>::empty().push(p));
    } else if s.last().offset <= p.offset {
    } else {
        let t = insert_by_offset(s.drop_last(), p);
        lemma_insert_by_offset(s.drop_last(), p);
        assert(s.drop_last().push(s.last()) =~= s);
        let u = t.push(s.last());
        assert forall|i: int, j: int| 0 <= i <= j < u.len() implies u[i].offset <= u[j].offset by {
            if j == t.len() && i < t.len() {
                // every element of t is p or an element of s.drop_last()
                assert(t.to_multiset().contains(t[i]));
                if t[i] != p {
                    assert(s.drop_last().to_multiset().contains(t[i]));
                    assert(s.drop_last().contains(t[i]));
                    let k = choose|k: int| 0 <= k < s.drop_last().len() && s.drop_last()[k] == t[i];
                    assert(s[k] == t[i]);
                }
            }
        }
        assert(s.drop_last().to_multiset().insert(p).insert(s.last()) =~= s.drop_last().to_multiset()
            .insert(s.last()).insert(p)) by {
            broadcast use vstd::multiset::group_multiset_axioms;
        }
    }
}

/// Sorting by offset keeps every reference, as often as it occurs, and leaves them in
/// ascending order.
pub proof fn lemma_sorted_by_offset(s: Seq<PatchRef>)
    ensures
        ascending(sorted_by_offset(s)),
        sorted_by_offset(s).to_multiset() == s.to_multiset(),
        sorted_by_offset(s).len() == s.len(),
    decreases s.len(),
{
    if s.len() > 0 {
        lemma_sorted_by_offset(s.drop_last());
        lemma_insert_by_offset(sorted_by_offset(s.drop_last()), s.last());
        assert(s.drop_last().push(s.last()) =~= s);
    }
}

/// The references stably sorted by offset.
pub fn sort_by_offset(patches: &[PatchRef]) -> (out: Vec<PatchRef>)
    ensures
        out@ == sorted_by_offset(patches@),
{
    let mut out: Vec<PatchRef> = Vec::new();
    let mut i: usize = 0;
    while i < patches.len()
        invariant
            i <= patches@.len(),
            out@ == sorted_by_offset(patches@.take(i as int)),
        decreases patches@.len() - i,
    {
        let p = patches[i];
        proof {
            lemma_sorted_by_offset(patches@.take(i as int));
        }
        let mut j: usize = out.len();
        while j > 0 && out[j - 1].offset > p.offset
            invariant
                j <= out@.len(),
                forall|k: int| j <= k < out@.len() ==> out@[k].offset > p.offset,
            decreases j,
        {
            j = j - 1;
        }
        proof {
            lemma_insert_at(out@, p, j as int);
            assert(patches@.take(i + 1).drop_last() =~= patches@.take(i as int));
        }
        out.insert(j, p);
        i = i + 1;
    }
    assert(patches@.take(patches@.len() as int) =~= patches@);
    out
}

/// Whether every reference ends inside the patch file's addressable bytes with room for
/// the merge distance past it, and has a last byte.
pub open spec fn refs_fit(s: Seq<PatchRef>) -> bool {
    forall|i: int|
        0 <= i < s.len() ==> #[trigger] s[i].offset + s[i].size + MIN_RANGE_DISTANCE <= u64::MAX
            && s[i].offset + s[i].size >= 1
}

/// A range serving `p` alone.
pub open spec fn fresh_range(p: PatchRef) -> RangeModel {
    RangeModel { offset: p.offset as int, size: p.size as int, parts: seq![p] }
}

/// Whether `p` starts close enough to `r` to be fetched with it.
pub open spec fn joins(r: RangeModel, p: PatchRef) -> bool {
    p.offset <= r.offset + r.size + MIN_RANGE_DISTANCE
}

/// `r` grown to reach the end of `p`, serving `p` too.
pub open spec fn joined(r: RangeModel, p: PatchRef) -> RangeModel {
    let reach = p.offset + p.size - r.offset;
    RangeModel {
        offset: r.offset,
        size: if r.size >= reach { r.size } else { reach },
        parts: r.parts.push(p),
    }
}

/// The ranges that serve `s`, taken in order: each reference joins the last range when it
/// starts within the merge distance of that range's end, and opens a new one otherwise.
pub open spec fn merged(s: Seq<PatchRef>) -> Seq<RangeModel>
    decreases s.len(),
{
    if s.len() == 0 {
        Seq::empty()
    } else {
        let rs = merged(s.drop_last());
        let p = s.last();
        if rs.len() > 0 && joins(rs.last(), p) {
            rs.drop_last().push(joined(rs.last(), p))
        } else {
            rs.push(fresh_range(p))
        }
    }
}

/// Whether a range is addressable with room for the merge distance past its end.
pub open spec fn range_fits(r: RangeModel) -> bool {
    &&& 0 <= r.offset
    &&& 0 <= r.size
    &&& r.offset + r.size >= 1
    &&& r.offset + r.size + MIN_RANGE_DISTANCE <= u64::MAX
}

proof fn lemma_merged_fit(s: Seq<PatchRef>)
    requires
        refs_fit(s),
    ensures
        forall|k: int| 0 <= k < merged(s).len() ==> range_fits(#[trigger] merged(s)[k]),
        s.len() > 0 ==> merged(s).len() > 0,
    decreases s.len(),
{
    if s.len() > 0 {
        let p = s.last();
        let rs = merged(s.drop_last());
        assert(refs_fit(s.drop_last()));
        lemma_merged_fit(s.drop_last());
        assert(s[s.len() - 1] == p);
        if rs.len() > 0 && joins(rs.last(), p) {
            let out = rs.drop_last().push(joined(rs.last(), p));
            assert(range_fits(rs[rs.len() - 1]));
            assert forall|k: int| 0 <= k < out.len() implies range_fits(#[trigger] out[k]) by {
                if k < out.len() - 1 {
                    assert(out[k] == rs[k]);
                }
            }
        } else {
            let out = rs.push(fresh_range(p));
            assert forall|k: int| 0 <= k < out.len() implies range_fits(#[trigger] out[k]) by {
                if k < out.len() - 1 {
                    assert(out[k] == rs[k]);
                }
            }
        }
    }
}

proof fn lemma_merged_last(s: Seq<PatchRef>)
    requires
        ascending(s),
        s.len() > 0,
    ensures
        merged(s).len() > 0,
        merged(s).last().offset <= s.last().offset,
    decreases s.len(),
{
    let rs = merged(s.drop_last());
    if s.len() > 1 {
        lemma_merged_last(s.drop_last());
        assert(s[s.len() - 2].offset <= s[s.len() - 1].offset);
    }
}

/// The sequence of references served by `rs`, range after range.
pub open spec fn all_parts(rs: Seq<RangeModel>) -> Seq<PatchRef>
    decreases rs.len(),
{
    if rs.len() == 0 {
        Seq::empty()
    } else {
        all_parts(rs.drop_last()) + rs.last().parts
    }
}

/// Merging serves every reference exactly once, in the order the references came.
pub proof fn lemma_merge_keeps_every_reference(s: Seq<PatchRef>)
    ensures
        all_parts(merged(s)) == s,
    decreases s.len(),
{
    if s.len() > 0 {
        let rs = merged(s.drop_last());
        let p = s.last();
        lemma_merge_keeps_every_reference(s.drop_last());
        if rs.len() > 0 && joins(rs.last(), p) {
            let out = rs.drop_last().push(joined(rs.last(), p));
            assert(out.drop_last() =~= rs.drop_last());
            assert(all_parts(out) =~= all_parts(rs.drop_last()) + rs.last().parts.push(p));
            assert(all_parts(rs) == all_parts(rs.drop_last()) + rs.last().parts);
            assert(all_parts(rs.drop_last()) + rs.last().parts.push(p) =~= (all_parts(
                rs.drop_last(),
            ) + rs.last().parts).push(p));
            assert(s.drop_last().push(p) =~= s);
        } else {
            let out = rs.push(fresh_range(p));
            assert(out.drop_last() =~= rs);
            assert(all_parts(out) == all_parts(rs) + seq![p]);
            assert(s.drop_last() + seq![p] =~= s);
        }
    }
}

/// Whether each reference a range serves lies wholly inside the range.
pub open spec fn parts_within(r: RangeModel) -> bool {
    forall|i: int|
        0 <= i < r.parts.len() ==> r.offset <= (#[trigger] r.parts[i]).offset && r.parts[i].offset
            + r.parts[i].size <= r.offset + r.size
}

/// For references in ascending order, every range holds each reference it serves, so the
/// reference's bytes can be cut out of the range's bytes.
pub proof fn lemma_merge_parts_within(s: Seq<PatchRef>)
    requires
        ascending(s),
    ensures
        forall|k: int| 0 <= k < merged(s).len() ==> parts_within(#[trigger] merged(s)[k]),
    decreases s.len(),
{
    if s.len() > 0 {
        let rs = merged(s.drop_last());
        let p = s.last();
        assert(ascending(s.drop_last()));
        lemma_merge_parts_within(s.drop_last());
        if rs.len() > 0 && joins(rs.last(), p) {
            lemma_merged_last(s.drop_last());
            assert(s[s.len() - 2].offset <= s[s.len() - 1].offset);
            let r = joined(rs.last(), p);
            assert(parts_within(rs[rs.len() - 1]));
            assert(parts_within(r));
            let out = rs.drop_last().push(r);
            assert forall|k: int| 0 <= k < out.len() implies parts_within(#[trigger] out[k]) by {
                if k < out.len() - 1 {
                    assert(out[k] == rs[k]);
                }
            }
        } else {
            let out = rs.push(fresh_range(p));
            assert forall|k: int| 0 <= k < out.len() implies parts_within(#[trigger] out[k]) by {
                if k < out.len() - 1 {
                    assert(out[k] == rs[k]);
                }
            }
        }
    }
}

/// Two neighbouring ranges always lie more than the merge distance apart: fetching them
/// in one piece would have pulled in a gap longer than `MIN_RANGE_DISTANCE`.
pub proof fn lemma_merged_ranges_apart(s: Seq<PatchRef>)
    ensures
        forall|k: int|
            0 <= k < merged(s).len() - 1 ==> #[trigger] merged(s)[k + 1].offset > merged(s)[k].offset
                + merged(s)[k].size + MIN_RANGE_DISTANCE,
    decreases s.len(),
{
    if s.len() > 0 {
        let rs = merged(s.drop_last());
        let p = s.last();
        lemma_merged_ranges_apart(s.drop_last());
        if rs.len() > 0 && joins(rs.last(), p) {
            let out = rs.drop_last().push(joined(rs.last(), p));
            assert forall|k: int| 0 <= k < out.len() - 1 implies #[trigger] out[k + 1].offset
                > out[k].offset + out[k].size + MIN_RANGE_DISTANCE by {
                assert(out[k] == rs[k]);
                assert(rs[k + 1].offset > rs[k].offset + rs[k].size + MIN_RANGE_DISTANCE);
            }
        } else {
            let out = rs.push(fresh_range(p));
            assert forall|k: int| 0 <= k < out.len() - 1 implies #[trigger] out[k + 1].offset
                > out[k].offset + out[k].size + MIN_RANGE_DISTANCE by {
                assert(out[k] == rs[k]);
                if k < out.len() - 2 {
                    assert(rs[k + 1].offset > rs[k].offset + rs[k].size + MIN_RANGE_DISTANCE);
                }
            }
        }
    }
}

impl MergedRange {
    /// A copy of this range.
    pub fn duplicate(&self) -> (r: MergedRange)
        ensures
            r@ == self@,
    {
        let mut parts: Vec<PatchRef> = Vec::new();
        let mut i: usize = 0;
        while i < self.parts.len()
            invariant
                i <= self.parts@.len(),
                parts@ == self.parts@.take(i as int),
            decreases self.parts@.len() - i,
        {
            parts.push(self.parts[i]);
            i = i + 1;
            assert(parts@ =~= self.parts@.take(i as int));
        }
        assert(self.parts@.take(self.parts@.len() as int) =~= self.parts@);
        MergedRange { offset: self.offset, size: self.size, parts }
    }
}

/// Merge references, given in ascending offset order, into the ranges that fetch them.
pub fn merge_ranges(sorted: &[PatchRef]) -> (out: Vec<MergedRange>)
    requires
        ascending(sorted@),
        refs_fit(sorted@),
    ensures
        models(out@) == merged(sorted@),
        forall|k: int| 0 <= k < out@.len() ==> range_wf(#[trigger] out@[k]),
{
    let mut out: Vec<MergedRange> = Vec::new();
    let mut i: usize = 0;
    while i < sorted.len()
        invariant
            i <= sorted@.len(),
            ascending(sorted@),
            refs_fit(sorted@),
            models(out@) == merged(sorted@.take(i as int)),
        decreases sorted@.len() - i,
    {
        let p = sorted[i];
        let ghost before = out@;
        let ghost prefix = sorted@.take(i as int);
        proof {
            assert(refs_fit(prefix));
            assert(ascending(prefix));
            lemma_merged_fit(prefix);
            if i > 0 {
                lemma_merged_last(prefix);
                assert(prefix.last() == sorted@[i - 1]);
                assert(sorted@[i - 1].offset <= sorted@[i as int].offset);
            }
            assert(sorted@[i as int] == p);
            assert(models(out@).len() == out@.len());
        }
        let mut added = false;
        if out.len() > 0 {
            let mut last = out.pop().unwrap();
            proof {
                assert(models(before)[before.len() - 1] == last@);
                assert(range_fits(merged(prefix)[merged(prefix).len() - 1]));
            }
            added = last.try_add(&p);
            out.push(last);
        }
        if !added {
            out.push(MergedRange::new(p));
        }
        proof {
            assert(sorted@.take(i + 1).drop_last() =~= prefix);
            assert(sorted@.take(i + 1).last() == p);
            let rs = merged(prefix);
            if before.len() > 0 && joins(rs.last(), p) {
                assert(models(out@) =~= rs.drop_last().push(joined(rs.last(), p)));
            } else if before.len() > 0 {
                assert(models(out@) =~= rs.push(fresh_range(p)));
            } else {
                assert(models(out@) =~= rs.push(fresh_range(p)));
            }
        }
        i = i + 1;
    }
    proof {
        assert(sorted@.take(sorted@.len() as int) =~= sorted@);
        lemma_merged_fit(sorted@);
        assert forall|k: int| 0 <= k < out@.len() implies range_wf(#[trigger] out@[k]) by {
            assert(models(out@)[k] == out@[k]@);
            assert(range_fits(merged(sorted@)[k]));
        }
    }
    out
}

/// Whether `r` can join `batch` without the batch exceeding `MAX_RANGES_PER_REQUEST` ranges
/// or its header `MAX_RANGE_HEADER_SIZE` characters.
pub open spec fn fits_batch(batch: Seq<RangeModel>, r: RangeModel) -> bool {
    batch.len() < MAX_RANGES_PER_REQUEST && range_header(batch.push(r)).len()
        <= MAX_RANGE_HEADER_SIZE
}

/// The batches that fetch `rs`, taken in order: each range joins the last batch when it
/// fits there, and opens a new batch otherwise.
pub open spec fn batched(rs: Seq<RangeModel>) -> Seq<Seq<RangeModel>>
    decreases rs.len(),
{
    if rs.len() == 0 {
        Seq::empty()
    } else {
        let bs = batched(rs.drop_last());
        let r = rs.last();
        if bs.len() > 0 && fits_batch(bs.last(), r) {
            bs.drop_last().push(bs.last().push(r))
        } else {
            bs.push(seq![r])
        }
    }
}

/// The ranges of `bs`, batch after batch.
pub open spec fn all_ranges(bs: Seq<Seq<RangeModel>>) -> Seq<RangeModel>
    decreases bs.len(),
{
    if bs.len() == 0 {
        Seq::empty()
    } else {
        all_ranges(bs.drop_last()) + bs.last()
    }
}

/// The range models of each batch.
pub open spec fn batch_models(bs: Seq<RangeBatch>) -> Seq<Seq<RangeModel>> {
    bs.map_values(|b: RangeBatch| b.ranges())
}

/// Batching fetches every range exactly once, in order.
pub proof fn lemma_batches_keep_every_range(rs: Seq<RangeModel>)
    ensures
        all_ranges(batched(rs)) == rs,
    decreases rs.len(),
{
    if rs.len() > 0 {
        let bs = batched(rs.drop_last());
        let r = rs.last();
        lemma_batches_keep_every_range(rs.drop_last());
        if bs.len() > 0 && fits_batch(bs.last(), r) {
            let out = bs.drop_last().push(bs.last().push(r));
            assert(out.drop_last() =~= bs.drop_last());
            assert(all_ranges(bs) == all_ranges(bs.drop_last()) + bs.last());
            assert(all_ranges(bs.drop_last()) + bs.last().push(r) =~= (all_ranges(bs.drop_last())
                + bs.last()).push(r));
            assert(rs.drop_last().push(r) =~= rs);
        } else {
            let out = bs.push(seq![r]);
            assert(out.drop_last() =~= bs);
            assert(rs.drop_last() + seq![r] =~= rs);
        }
    }
}

/// Whether a batch respects the request limits: no more than `MAX_RANGES_PER_REQUEST`
/// ranges and a header of no more than `MAX_RANGE_HEADER_SIZE` characters. A single range
/// always forms a batch of its own, whatever its header.
pub open spec fn within_limits(batch: Seq<RangeModel>) -> bool {
    batch.len() >= 1 && (batch.len() == 1 || (batch.len() <= MAX_RANGES_PER_REQUEST
        && range_header(batch).len() <= MAX_RANGE_HEADER_SIZE))
}

/// Every batch holds a range and, unless it holds exactly one, stays within the limits
/// of a request.
pub proof fn lemma_batches_within_limits(rs: Seq<RangeModel>)
    ensures
        forall|k: int| 0 <= k < batched(rs).len() ==> within_limits(#[trigger] batched(rs)[k]),
    decreases rs.len(),
{
    if rs.len() > 0 {
        let bs = batched(rs.drop_last());
        let r = rs.last();
        lemma_batches_within_limits(rs.drop_last());
        if bs.len() > 0 && fits_batch(bs.last(), r) {
            let out = bs.drop_last().push(bs.last().push(r));
            assert forall|k: int| 0 <= k < out.len() implies within_limits(#[trigger] out[k]) by {
                if k < out.len() - 1 {
                    assert(out[k] == bs[k]);
                }
            }
        } else {
            let out = bs.push(seq![r]);
            assert forall|k: int| 0 <= k < out.len() implies within_limits(#[trigger] out[k]) by {
                if k < out.len() - 1 {
                    assert(out[k] == bs[k]);
                }
            }
        }
    }
}

/// Group ranges into the batches that fetch them.
pub fn batch_ranges(ranges: &[MergedRange]) -> (out: Vec<RangeBatch>)
    requires
        forall|k: int| 0 <= k < ranges@.len() ==> range_wf(#[trigger] ranges@[k]),
    ensures
        batch_models(out@) == batched(models(ranges@)),
        forall|k: int| 0 <= k < out@.len() ==> (#[trigger] out@[k]).all_wf(),
{
    let mut out: Vec<RangeBatch> = Vec::new();
    let mut i: usize = 0;
    while i < ranges.len()
        invariant
            i <= ranges@.len(),
            forall|k: int| 0 <= k < ranges@.len() ==> range_wf(#[trigger] ranges@[k]),
            batch_models(out@) == batched(models(ranges@).take(i as int)),
            forall|k: int| 0 <= k < out@.len() ==> (#[trigger] out@[k]).all_wf(),
        decreases ranges@.len() - i,
    {
        let ghost before = out@;
        let ghost prefix = models(ranges@).take(i as int);
        let ghost r = ranges@[i as int]@;
        assert(range_wf(ranges@[i as int]));
        let mut added = false;
        if out.len() > 0 {
            let mut last = out.pop().unwrap();
            proof {
                assert(batch_models(before)[before.len() - 1] == last.ranges());
                assert(before[before.len() - 1] == last);
            }
            let d = ranges[i].duplicate();
            let ghost old_last = last.ranges();
            added = last.try_add(d);
            proof {
                if added {
                    assert(last.ranges() =~= old_last.push(r));
                } else {
                    assert(last.ranges() =~= old_last);
                }
            }
            out.push(last);
        }
        if !added {
            let fresh = RangeBatch(vec![ranges[i].duplicate()]);
            assert(fresh.ranges() =~= seq![r]);
            out.push(fresh);
        }
        proof {
            assert(models(ranges@).take(i + 1).drop_last() =~= prefix);
            assert(models(ranges@).take(i + 1).last() == r);
            let bs = batched(prefix);
            assert(batch_models(before) == bs);
            if before.len() > 0 && fits_batch(bs.last(), r) {
                assert(bs.last() == batch_models(before)[before.len() - 1]);
                assert(batch_models(out@) =~= bs.drop_last().push(bs.last().push(r)));
            } else {
                assert(batch_models(out@) =~= bs.push(seq![r]));
            }
            assert forall|k: int| 0 <= k < out@.len() implies (#[trigger] out@[k]).all_wf() by {
                if k < before.len() - 1 {
                    assert(out@[k] == before[k]);
                }
            }
        }
        i = i + 1;
    }
    assert(models(ranges@).take(ranges@.len() as int) =~= models(ranges@));
    out
}

/// Every reference of a sorted run was in the run it was sorted from.
proof fn lemma_sorted_refs_fit(s: Seq<PatchRef>)
    requires
        refs_fit(s),
    ensures
        refs_fit(sorted_by_offset(s)),
{
    let t = sorted_by_offset(s);
    lemma_sorted_by_offset(s);
    assert forall|i: int| 0 <= i < t.len() implies #[trigger] t[i].offset + t[i].size
        + MIN_RANGE_DISTANCE <= u64::MAX && t[i].offset + t[i].size >= 1 by {
        assert(t.contains(t[i]));
        assert(s.to_multiset().count(t[i]) > 0);
        assert(s.contains(t[i]));
        let j = choose|j: int| 0 <= j < s.len() && s[j] == t[i];
        assert(s[j] == t[i]);
    }
}

/// The requests that fetch `patches` from one patch file: the references sorted by
/// offset, merged into ranges, the ranges grouped into batches.
pub fn plan_batches(patches: &[PatchRef]) -> (out: Vec<RangeBatch>)
    requires
        refs_fit(patches@),
    ensures
        batch_models(out@) == batched(merged(sorted_by_offset(patches@))),
        forall|k: int| 0 <= k < out@.len() ==> (#[trigger] out@[k]).all_wf(),
{
    let sorted = sort_by_offset(patches);
    proof {
        lemma_sorted_by_offset(patches@);
        lemma_sorted_refs_fit(patches@);
    }
    let ranges = merge_ranges(sorted.as_slice());
    batch_ranges(ranges.as_slice())
}

/// A plan fetches every reference it was given, as often as it was given, and nothing
/// else.
pub proof fn lemma_plan_serves_every_reference(s: Seq<PatchRef>)
    ensures
        all_parts(all_ranges(batched(merged(sorted_by_offset(s))))).to_multiset()
            == s.to_multiset(),
{
    let t = sorted_by_offset(s);
    lemma_sorted_by_offset(s);
    lemma_merge_keeps_every_reference(t);
    lemma_batches_keep_every_range(merged(t));
}

/// The media type of a reply that carries several ranges.
pub open spec fn byteranges_type() -> Seq<char> {
    seq!['m', 'u', 'l', 't', 'i', 'p', 'a', 'r', 't', '/', 'b', 'y', 't', 'e', 'r', 'a', 'n', 'g', 'e', 's']
}

/// The name of the parameter that gives the multipart boundary.
pub open spec fn boundary_key() -> Seq<char> {
    seq!['b', 'o', 'u', 'n', 'd', 'a', 'r', 'y']
}

/// The boundary a `key=value` parameter gives, when its key is `boundary` in any case: the
/// value without surrounding whitespace and quotes.
pub open spec fn boundary_value(param: Seq<char>) -> Option<Seq<char>> {
    let k = first_index(param, '=');
    if k >= 0 && eq_ignore_case(trim_white(param.take(k)), boundary_key()) {
        Some(trim_end(trim_start(trim_white(param.skip(k + 1)), '"'), '"'))
    } else {
        None
    }
}

/// The boundary given by the first parameter that gives one.
pub open spec fn first_boundary(params: Seq<Seq<char>>) -> Option<Seq<char>>
    decreases params.len(),
{
    if params.len() == 0 {
        None
    } else if boundary_value(params[0]) is Some {
        boundary_value(params[0])
    } else {
        first_boundary(params.drop_first())
    }
}

/// The multipart boundary a `Content-Type` names, when its media type (before the first
/// `;`, compared regardless of case) is `multipart/byteranges`.
pub open spec fn byteranges_boundary_of(content_type: Seq<char>) -> Option<Seq<char>> {
    let k = first_index(content_type, ';');
    if k >= 0 && eq_ignore_case(trim_white(content_type.take(k)), byteranges_type()) {
        first_boundary(split(content_type.skip(k + 1), ';'))
    } else {
        None
    }
}

fn trim_char_bounds(cs: &[char], lo: usize, hi: usize, c: char) -> (r: (usize, usize))
    requires
        lo <= hi <= cs@.len(),
    ensures
        lo <= r.0 <= r.1 <= hi,
        cs@.subrange(r.0 as int, r.1 as int) == trim_end(
            trim_start(cs@.subrange(lo as int, hi as int), c),
            c,
        ),
{
    let ghost whole = cs@.subrange(lo as int, hi as int);
    let mut a: usize = lo;
    while a < hi && cs[a] == c
        invariant
            lo <= a <= hi <= cs@.len(),
            trim_start(whole, c) == trim_start(cs@.subrange(a as int, hi as int), c),
        decreases hi - a,
    {
        assert(cs@.subrange(a as int, hi as int).drop_first() =~= cs@.subrange(a + 1, hi as int));
        a = a + 1;
    }
    let ghost started = cs@.subrange(a as int, hi as int);
    assert(trim_start(started, c) == started);
    let mut b: usize = hi;
    while b > a && cs[b - 1] == c
        invariant
            lo <= a <= b <= hi <= cs@.len(),
            started == cs@.subrange(a as int, hi as int),
            trim_end(started, c) == trim_end(cs@.subrange(a as int, b as int), c),
        decreases b - a,
    {
        assert(cs@.subrange(a as int, b as int).drop_last() =~= cs@.subrange(a as int, b - 1));
        b = b - 1;
    }
    (a, b)
}

/// The boundary one parameter gives, if it gives one.
fn param_boundary(param: &[char]) -> (r: Option<String>)
    ensures
        r matches Some(v) ==> boundary_value(param@) == Some(v@),
        r is None ==> boundary_value(param@) is None,
{
    let n = param.len();
    let eq = match find_char(param, 0, n, '=') {
        Some(k) => k,
        None => {
            assert(param@.subrange(0, n as int) =~= param@);
            return None;
        },
    };
    proof {
        assert(param@.subrange(0, n as int) =~= param@);
        lemma_first_index(param@, '=');
    }
    let (a, b) = trim_white_bounds(param, 0, eq);
    let key = chars_of("boundary");
    proof {
        reveal_strlit("boundary");
        assert(key@ =~= boundary_key());
        assert(param@.subrange(0, eq as int) =~= param@.take(eq as int));
    }
    if !eq_ignore_case_at(param, a, b, key.as_slice()) {
        return None;
    }
    let (c, d) = trim_white_bounds(param, eq + 1, n);
    let (e, f) = trim_char_bounds(param, c, d, '"');
    proof {
        assert(param@.subrange(eq + 1, n as int) =~= param@.skip(eq + 1));
    }
    let kept = vstd::slice::slice_subrange(param, e, f);
    Some(string_of(kept))
}

/// The multipart boundary of a `Content-Type` header value, when the reply is
/// `multipart/byteranges`; a reply of one range has none.
pub fn byteranges_boundary(content_type: &str) -> (r: Option<String>)
    ensures
        r matches Some(v) ==> byteranges_boundary_of(content_type@) == Some(v@),
        r is None ==> byteranges_boundary_of(content_type@) is None,
{
    let cs = chars_of(content_type);
    let n = cs.len();
    assert(cs@.subrange(0, n as int) =~= cs@);
    let semi = match find_char(cs.as_slice(), 0, n, ';') {
        Some(k) => k,
        None => return None,
    };
    proof {
        lemma_first_index(cs@, ';');
    }
    let (a, b) = trim_white_bounds(cs.as_slice(), 0, semi);
    let media = chars_of("multipart/byteranges");
    proof {
        reveal_strlit("multipart/byteranges");
        assert(media@ =~= byteranges_type());
        assert(cs@.subrange(0, semi as int) =~= cs@.take(semi as int));
    }
    if !eq_ignore_case_at(cs.as_slice(), a, b, media.as_slice()) {
        return None;
    }
    let rest = vstd::slice::slice_subrange(cs.as_slice(), semi + 1, n);
    assert(rest@ =~= cs@.skip(semi + 1));
    let params = split_chars(rest, ';');
    let ghost ps = pieces(params@);
    proof {
        assert(cs@.subrange(a as int, b as int) == trim_white(cs@.take(semi as int)));
        assert(eq_ignore_case(trim_white(cs@.take(semi as int)), byteranges_type()));
        assert(semi as int == first_index(cs@, ';'));
        assert(ps == split(cs@.skip(semi + 1), ';'));
        assert(ps.subrange(0, ps.len() as int) =~= ps);
    }
    let mut i: usize = 0;
    while i < params.len()
        invariant
            ps == pieces(params@),
            i <= params@.len(),
            byteranges_boundary_of(content_type@) == first_boundary(ps.subrange(
                i as int,
                ps.len() as int,
            )),
        decreases params@.len() - i,
    {
        let ghost tail = ps.subrange(i as int, ps.len() as int);
        assert(tail[0] == params@[i as int]@);
        match param_boundary(params[i].as_slice()) {
            Some(v) => {
                return Some(v);
            },
            None => {},
        }
        assert(tail.drop_first() =~= ps.subrange(i + 1, ps.len() as int));
        i = i + 1;
    }
    None
}

/// A `Content-Range` header as plain values.
#[derive(Debug, Clone, Copy, PartialEq, Eq, Structural)]
pub enum RangeReply {
    /// `bytes first-last/length`.
    Bytes { first_byte: u64, last_byte: u64, complete_length: u64 },
    /// `bytes first-last/*`: the file's length is not given.
    UnboundBytes { first_byte: u64, last_byte: u64 },
    /// `bytes */length`: the server could not satisfy the request.
    Unsatisfied { complete_length: u64 },
}

/// The first and last byte a reply part carries.
#[derive(Debug, Clone, Copy, PartialEq, Eq, Structural)]
pub struct ContentSpan {
    pub first_byte: u64,
    pub last_byte: u64,
}

/// Why the bytes of a reply could not be handed out.
#[derive(Debug, Clone, Copy, PartialEq, Eq, Structural)]
pub enum DownloadError {
    /// The reply, or one of its parts, names no `Content-Range`.
    MissingContentRange,
    /// The `Content-Range` does not parse.
    InvalidContentRange,
    /// The `Content-Range` names no complete byte range.
    NotByteRange,
    /// A reply part carries bytes no requested range asked for.
    NoMatchingRange { first_byte: u64, last_byte: u64 },
    /// A compressed reference does not inflate.
    Decompress,
}

/// What `http_content_range::ContentRange::parse_bytes` makes of a header value.
pub uninterp spec fn content_range_parsed(header: Seq<u8>) -> Option<RangeReply>;

/// `ContentRange::parse_bytes`, its result taken apart into plain values. A byte range it
/// returns never ends before it starts, and a complete length lies past the last byte.
#[verifier::external_body]
fn parse_content_range(header: &[u8]) -> (r: Option<RangeReply>)
    ensures
        r == content_range_parsed(header@),
        r matches Some(RangeReply::Bytes { first_byte, last_byte, complete_length }) ==> first_byte
            <= last_byte && last_byte < complete_length,
        r matches Some(RangeReply::UnboundBytes { first_byte, last_byte }) ==> first_byte
            <= last_byte,
{
    Some(match ContentRange::parse_bytes(header)? {
        ContentRange::Bytes(b) => RangeReply::Bytes {
            first_byte: b.first_byte,
            last_byte: b.last_byte,
            complete_length: b.complete_length,
        },
        ContentRange::UnboundBytes(b) => RangeReply::UnboundBytes {
            first_byte: b.first_byte,
            last_byte: b.last_byte,
        },
        ContentRange::Unsatisfied(u) => RangeReply::Unsatisfied { complete_length: u.complete_length },
    })
}

/// The span a parsed `Content-Range` names: only a complete byte range names one.
pub fn span_of_reply(reply: Option<RangeReply>) -> (r: Result<ContentSpan, DownloadError>)
    ensures
        r == (match reply {
            None => Err(DownloadError::InvalidContentRange),
            Some(RangeReply::Bytes { first_byte, last_byte, .. }) => Ok(
                ContentSpan { first_byte, last_byte },
            ),
            Some(_) => Err(DownloadError::NotByteRange),
        }),
{
    match reply {
        None => Err(DownloadError::InvalidContentRange),
        Some(RangeReply::Bytes { first_byte, last_byte, .. }) => Ok(
            ContentSpan { first_byte, last_byte },
        ),
        Some(_) => Err(DownloadError::NotByteRange),
    }
}

/// The span a reply, or a part of it, carries, from its `Content-Range` value.
pub fn content_span(header: Option<&[u8]>) -> (r: Result<ContentSpan, DownloadError>)
    ensures
        header is None ==> r == Err::<ContentSpan, DownloadError>(
            DownloadError::MissingContentRange,
        ),
        header matches Some(h) ==> r == (match content_range_parsed(h@) {
            None => Err(DownloadError::InvalidContentRange),
            Some(RangeReply::Bytes { first_byte, last_byte, .. }) => Ok(
                ContentSpan { first_byte, last_byte },
            ),
            Some(_) => Err(DownloadError::NotByteRange),
        }),
{
    match header {
        None => Err(DownloadError::MissingContentRange),
        Some(h) => span_of_reply(parse_content_range(h)),
    }
}

/// Whether `span` names exactly the bytes of `r`.
pub open spec fn span_matches(r: RangeModel, span: ContentSpan) -> bool {
    r.offset == span.first_byte && r.offset + r.size - 1 == span.last_byte
}

/// The first of `rs` whose bytes `span` names; -1 when none is.
pub open spec fn first_match(rs: Seq<RangeModel>, span: ContentSpan) -> int
    decreases rs.len(),
{
    if rs.len() == 0 {
        -1
    } else if first_match(rs.drop_last(), span) >= 0 {
        first_match(rs.drop_last(), span)
    } else if span_matches(rs.last(), span) {
        rs.len() - 1
    } else {
        -1
    }
}

/// The first of `spans` that names no range of `rs`; -1 when each names one.
pub open spec fn first_unpaired(rs: Seq<RangeModel>, spans: Seq<ContentSpan>) -> int
    decreases spans.len(),
{
    if spans.len() == 0 {
        -1
    } else if first_unpaired(rs, spans.drop_last()) >= 0 {
        first_unpaired(rs, spans.drop_last())
    } else if first_match(rs, spans.last()) < 0 {
        spans.len() - 1
    } else {
        -1
    }
}

proof fn lemma_first_match(rs: Seq<RangeModel>, span: ContentSpan)
    ensures
        -1 <= first_match(rs, span) < rs.len(),
        first_match(rs, span) >= 0 ==> span_matches(rs[first_match(rs, span)], span),
        forall|j: int| 0 <= j < rs.len() && (first_match(rs, span) < 0 || j < first_match(rs, span))
            ==> !span_matches(#[trigger] rs[j], span),
    decreases rs.len(),
{
    if rs.len() > 0 {
        lemma_first_match(rs.drop_last(), span);
        assert forall|j: int| 0 <= j < rs.len() && (first_match(rs, span) < 0 || j < first_match(rs, span))
            implies !span_matches(#[trigger] rs[j], span) by {
            if j < rs.len() - 1 {
                assert(rs[j] == rs.drop_last()[j]);
            }
        }
    }
}

proof fn lemma_first_unpaired(rs: Seq<RangeModel>, spans: Seq<ContentSpan>)
    ensures
        -1 <= first_unpaired(rs, spans) < spans.len(),
        first_unpaired(rs, spans) >= 0 ==> first_match(rs, spans[first_unpaired(rs, spans)]) < 0,
        forall|j: int|
            0 <= j < spans.len() && (first_unpaired(rs, spans) < 0 || j < first_unpaired(rs, spans))
                ==> first_match(rs, #[trigger] spans[j]) >= 0,
    decreases spans.len(),
{
    if spans.len() > 0 {
        lemma_first_unpaired(rs, spans.drop_last());
        assert forall|j: int|
            0 <= j < spans.len() && (first_unpaired(rs, spans) < 0 || j < first_unpaired(rs, spans))
                implies first_match(rs, #[trigger] spans[j]) >= 0 by {
            if j < spans.len() - 1 {
                assert(spans[j] == spans.drop_last()[j]);
            }
        }
    }
}

/// The spans of reply parts.
pub open spec fn spans_of(parts: Seq<(ContentSpan, Vec<u8>)>) -> Seq<ContentSpan> {
    parts.map_values(|p: (ContentSpan, Vec<u8>)| p.0)
}

/// A copy of some bytes.
fn copy_bytes(src: &[u8]) -> (out: Vec<u8>)
    ensures
        out@ == src@,
{
    let mut out: Vec<u8> = Vec::new();
    push_bytes(&mut out, src);
    assert(out@ =~= src@);
    out
}

/// Hand each part of a reply to the requested range whose bytes it carries: the first
/// range that starts at the part's first byte and ends at its last.
pub fn pair_with_ranges(ranges: &[MergedRange], parts: &[(ContentSpan, Vec<u8>)]) -> (r: Result<Vec<(MergedRange, Vec<u8>)>, DownloadError>)
    requires
        forall|k: int| 0 <= k < ranges@.len() ==> range_wf(#[trigger] ranges@[k]),
    ensures
        r is Ok <==> first_unpaired(models(ranges@), spans_of(parts@)) < 0,
        r matches Ok(v) ==> v@.len() == parts@.len() && forall|i: int|
            0 <= i < v@.len() ==> (#[trigger] v@[i]).0@ == models(ranges@)[first_match(
                models(ranges@),
                parts@[i].0,
            )] && v@[i].1@ == parts@[i].1@,
        r matches Err(e) ==> e == (DownloadError::NoMatchingRange {
            first_byte: parts@[first_unpaired(models(ranges@), spans_of(parts@))].0.first_byte,
            last_byte: parts@[first_unpaired(models(ranges@), spans_of(parts@))].0.last_byte,
        }),
{
    let ghost rs = models(ranges@);
    let ghost spans = spans_of(parts@);
    proof {
        lemma_first_unpaired(rs, spans);
    }
    let mut out: Vec<(MergedRange, Vec<u8>)> = Vec::new();
    let mut i: usize = 0;
    while i < parts.len()
        invariant
            rs == models(ranges@),
            spans == spans_of(parts@),
            forall|k: int| 0 <= k < ranges@.len() ==> range_wf(#[trigger] ranges@[k]),
            i <= parts@.len(),
            first_unpaired(rs, spans) < 0 || i <= first_unpaired(rs, spans),
            -1 <= first_unpaired(rs, spans) < spans.len(),
            first_unpaired(rs, spans) >= 0 ==> first_match(rs, spans[first_unpaired(rs, spans)])
                < 0,
            forall|j: int|
                0 <= j < spans.len() && (first_unpaired(rs, spans) < 0 || j < first_unpaired(
                    rs,
                    spans,
                )) ==> first_match(rs, #[trigger] spans[j]) >= 0,
            out@.len() == i,
            forall|j: int|
                0 <= j < i ==> (#[trigger] out@[j]).0@ == rs[first_match(rs, parts@[j].0)]
                    && out@[j].1@ == parts@[j].1@,
        decreases parts@.len() - i,
    {
        let span = parts[i].0;
        assert(spans[i as int] == span);
        proof {
            lemma_first_match(rs, span);
        }
        let mut k: usize = 0;
        let mut found = false;
        while k < ranges.len() && !found
            invariant
                rs == models(ranges@),
                forall|q: int| 0 <= q < ranges@.len() ==> range_wf(#[trigger] ranges@[q]),
                k <= ranges@.len(),
                found ==> k < ranges@.len() && span_matches(rs[k as int], span),
                forall|q: int| 0 <= q < k ==> !span_matches(#[trigger] rs[q], span),
            decreases ranges@.len() - k + (if found { 0int } else { 1int }),
        {
            assert(range_wf(ranges@[k as int]));
            assert(rs[k as int] == ranges@[k as int]@);
            if ranges[k].offset == span.first_byte && ranges[k].end() == span.last_byte {
                found = true;
            } else {
                k = k + 1;
            }
        }
        if !found {
            proof {
                assert(first_match(rs, span) < 0) by {
                    if first_match(rs, span) >= 0 {
                        assert(!span_matches(rs[first_match(rs, span)], span));
                    }
                }
                assert(first_unpaired(rs, spans) == i);
            }
            return Err(DownloadError::NoMatchingRange {
                first_byte: span.first_byte,
                last_byte: span.last_byte,
            });
        }
        proof {
            assert(span_matches(rs[k as int], span));
            assert(first_match(rs, span) == k) by {
                if first_match(rs, span) < 0 || first_match(rs, span) > k {
                    assert(!span_matches(rs[k as int], span));
                }
            }
        }
        let range = ranges[k].duplicate();
        let bytes = copy_bytes(parts[i].1.as_slice());
        out.push((range, bytes));
        i = i + 1;
    }
    Ok(out)
}

/// The bytes `p` stands for in `data`, the bytes fetched for `r`.
pub open spec fn part_raw(data: Seq<u8>, r: RangeModel, p: PatchRef) -> Seq<u8> {
    data.subrange(p.offset - r.offset, p.offset - r.offset + p.size)
}

/// What `p`'s bytes hold: inflated when the reference is compressed; nothing when they
/// do not inflate.
pub open spec fn part_data(data: Seq<u8>, r: RangeModel, p: PatchRef) -> Option<Seq<u8>> {
    if p.is_compressed {
        deflate_inflated(part_raw(data, r, p))
    } else {
        Some(part_raw(data, r, p))
    }
}

/// Whether every reference of `r` yields its data out of `data`.
pub open spec fn all_parts_decode(data: Seq<u8>, r: RangeModel) -> bool {
    forall|i: int| 0 <= i < r.parts.len() ==> (#[trigger] part_data(data, r, r.parts[i])) is Some
}

/// Raw DEFLATE data inflated.
pub fn decompress_patch_data(compressed: &[u8]) -> (r: Option<Vec<u8>>)
    ensures
        r matches Some(v) ==> deflate_inflated(compressed@) == Some(v@),
        r is None ==> deflate_inflated(compressed@) is None,
{
    deflate_inflate(compressed)
}

/// Cut the bytes fetched for a range into the data of each reference it serves, in order,
/// inflating those stored compressed.
pub fn split_range_data(range: &MergedRange, data: &[u8]) -> (r: Result<Vec<(PatchRef, Vec<u8>)>, DownloadError>)
    requires
        parts_within(range@),
        data@.len() >= range.size,
    ensures
        r is Ok <==> all_parts_decode(data@, range@),
        r matches Ok(v) ==> v@.len() == range.parts@.len() && forall|i: int|
            0 <= i < v@.len() ==> (#[trigger] v@[i]).0 == range.parts@[i] && Some(v@[i].1@)
                == part_data(data@, range@, range.parts@[i]),
        r matches Err(e) ==> e == DownloadError::Decompress,
{
    let mut out: Vec<(PatchRef, Vec<u8>)> = Vec::new();
    let mut i: usize = 0;
    while i < range.parts.len()
        invariant
            parts_within(range@),
            data@.len() >= range.size,
            i <= range.parts@.len(),
            out@.len() == i,
            forall|j: int|
                0 <= j < i ==> (#[trigger] out@[j]).0 == range.parts@[j] && Some(out@[j].1@)
                    == part_data(data@, range@, range.parts@[j]),
        decreases range.parts@.len() - i,
    {
        let p = range.parts[i];
        assert(range@.parts[i as int] == p);
        assert(range.offset <= p.offset && p.offset + p.size <= range.offset + range.size);
        let n = data.len();
        assert((p.offset - range.offset) + p.size <= n);
        let start = (p.offset - range.offset) as usize;
        assert(start as int == p.offset - range.offset);
        let end = start + p.size as usize;
        let raw = vstd::slice::slice_subrange(data, start, end);
        assert(raw@ == part_raw(data@, range@, p));
        if p.is_compressed {
            match decompress_patch_data(raw) {
                Some(v) => {
                    out.push((p, v));
                },
                None => {
                    assert(!all_parts_decode(data@, range@)) by {
                        assert(part_data(data@, range@, range@.parts[i as int]) is None);
                    }
                    return Err(DownloadError::Decompress);
                },
            }
        } else {
            out.push((p, copy_bytes(raw)));
        }
        i = i + 1;
    }
    assert forall|j: int| 0 <= j < range@.parts.len() implies (#[trigger] part_data(
        data@,
        range@,
        range@.parts[j],
    )) is Some by {
        assert(out@[j].0 == range.parts@[j]);
    }
    Ok(out)
}

} // verus!
