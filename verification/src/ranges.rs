use vstd::prelude::*;

use crate::data_ref::PatchRef;
use crate::text::{decimal, push_decimal, push_str};

verus! {

/// Longest `Range` header a request carries.
pub const MAX_RANGE_HEADER_SIZE: usize = 8800;

/// Most ranges a single request asks for.
pub const MAX_RANGES_PER_REQUEST: usize = 400;

/// References closer than this past a range's end are pulled in with it, gap and all.
pub const MIN_RANGE_DISTANCE: u64 = 512;

/// A run of patch bytes fetched in one piece, and the references it serves.
#[derive(Debug, Clone)]
pub struct MergedRange {
    pub offset: u64,
    pub size: u64,
    pub parts: Vec<PatchRef>,
}

/// A range as plain values.
pub ghost struct RangeModel {
    pub offset: int,
    pub size: int,
    pub parts: Seq<PatchRef>,
}

impl View for MergedRange {
    type V = RangeModel;

    open spec fn view(&self) -> RangeModel {
        RangeModel { offset: self.offset as int, size: self.size as int, parts: self.parts@ }
    }
}

/// The models of a run of ranges.
pub open spec fn models(rs: Seq<MergedRange>) -> Seq<RangeModel> {
    rs.map_values(|r: MergedRange| r@)
}

/// `first-last` of a range, as a `Range` header spells it.
pub open spec fn range_text(r: RangeModel) -> Seq<char> {
    decimal(r.offset as nat) + seq!['-'] + decimal((r.offset + r.size - 1) as nat)
}

/// Whether a range has a last byte, and that byte is addressable.
pub open spec fn model_wf(r: RangeModel) -> bool {
    0 <= r.offset && 0 <= r.size && r.offset + r.size >= 1 && r.offset + r.size - 1 <= u64::MAX
}

/// Whether a range's last byte is addressable.
pub open spec fn range_wf(r: MergedRange) -> bool {
    model_wf(r@)
}

impl MergedRange {
    /// A range holding just this reference.
    pub fn new(patch_ref: PatchRef) -> (r: Self)
        ensures
            r.offset == patch_ref.offset,
            r.size == patch_ref.size,
            r.parts@ == seq![patch_ref],
    {
        MergedRange { offset: patch_ref.offset, size: patch_ref.size as u64, parts: vec![patch_ref] }
    }

    /// Whether a reference starting at `offset` lies too far past this range to share it.
    pub open spec fn too_far(self, offset: u64) -> bool {
        offset > self.offset + self.size + MIN_RANGE_DISTANCE
    }

    /// Take in a reference unless it starts further than `MIN_RANGE_DISTANCE` past the
    /// end. References arrive in ascending offset order.
    pub fn try_add(&mut self, patch_ref: &PatchRef) -> (added: bool)
        requires
            old(self).offset + old(self).size + MIN_RANGE_DISTANCE <= u64::MAX,
            patch_ref.offset + patch_ref.size <= u64::MAX,
            patch_ref.offset >= old(self).offset,
        ensures
            added == !old(self).too_far(patch_ref.offset),
            added ==> final(self).offset == old(self).offset,
            added ==> final(self).size == (if old(self).size >= patch_ref.offset + patch_ref.size
                - old(self).offset {
                old(self).size as int
            } else {
                patch_ref.offset + patch_ref.size - old(self).offset
            }),
            added ==> final(self).parts@ == old(self).parts@.push(*patch_ref),
            !added ==> *final(self) == *old(self),
    {
        if patch_ref.offset > self.offset + self.size + MIN_RANGE_DISTANCE {
            false
        } else {
            let reach = patch_ref.offset + patch_ref.size as u64 - self.offset;
            if reach > self.size {
                self.size = reach;
            }
            self.parts.push(*patch_ref);
            true
        }
    }

    /// The last byte of the range.
    pub fn end(&self) -> (e: u64)
        requires
            range_wf(*self),
        ensures
            e == self.offset + self.size - 1,
    {
        if self.size >= 1 {
            self.offset + (self.size - 1)
        } else {
            self.offset - 1
        }
    }

    /// `first-last`, the range as a `Range` header names it.
    pub fn to_range_header_value(&self) -> (s: String)
        requires
            range_wf(*self),
        ensures
            s@ == range_text(self@),
    {
        let mut out = String::new();
        self.write_text(&mut out);
        out
    }

    fn write_text(&self, out: &mut String)
        requires
            range_wf(*self),
        ensures
            final(out)@ == old(out)@ + range_text(self@),
    {
        push_decimal(out, self.offset);
        out.push('-');
        push_decimal(out, self.end());
        assert(out@ =~= old(out)@ + range_text(self@));
    }
}

/// The ranges of a batch, comma separated.
pub open spec fn ranges_text(rs: Seq<RangeModel>) -> Seq<char>
    decreases rs.len(),
{
    if rs.len() == 0 {
        Seq::<char>::empty()
    } else if rs.len() == 1 {
        range_text(rs[0])
    } else {
        ranges_text(rs.drop_last()) + seq![','] + range_text(rs.last())
    }
}

/// `bytes=` and the ranges: the `Range` header asking for all of them.
pub open spec fn range_header(rs: Seq<RangeModel>) -> Seq<char> {
    seq!['b', 'y', 't', 'e', 's', '='] + ranges_text(rs)
}

/// Ranges fetched together in one request.
#[derive(Debug)]
pub struct RangeBatch(pub Vec<MergedRange>);

impl RangeBatch {
    pub open spec fn all_wf(self) -> bool {
        forall|i: int| 0 <= i < self.0@.len() ==> range_wf(#[trigger] self.0@[i])
    }

    /// The models of the batch's ranges.
    pub open spec fn ranges(self) -> Seq<RangeModel> {
        models(self.0@)
    }

    /// Add a range unless the batch already holds `MAX_RANGES_PER_REQUEST` or its header
    /// would grow past `MAX_RANGE_HEADER_SIZE`.
    pub fn try_add(&mut self, range: MergedRange) -> (added: bool)
        requires
            old(self).all_wf(),
            range_wf(range),
        ensures
            final(self).all_wf(),
            added == (old(self).0@.len() < MAX_RANGES_PER_REQUEST && range_header(
                old(self).ranges().push(range@),
            ).len() <= MAX_RANGE_HEADER_SIZE),
            added ==> final(self).0@ == old(self).0@.push(range),
            !added ==> final(self).0@ == old(self).0@,
    {
        if self.0.len() >= MAX_RANGES_PER_REQUEST {
            return false;
        }
        let ghost model = range@;
        self.0.push(range);
        assert(self.ranges() =~= old(self).ranges().push(model));
        let header = self.to_range_header();
        if header.as_str().unicode_len() > MAX_RANGE_HEADER_SIZE {
            self.0.pop();
            assert(self.0@ =~= old(self).0@);
            false
        } else {
            true
        }
    }

    /// The `Range` header asking for every range in the batch.
    pub fn to_range_header(&self) -> (s: String)
        requires
            self.all_wf(),
        ensures
            s@ == range_header(self.ranges()),
    {
        let mut out = String::new();
        push_str(&mut out, "bytes=");
        proof {
            reveal_strlit("bytes=");
        }
        let mut i: usize = 0;
        while i < self.0.len()
            invariant
                self.all_wf(),
                i <= self.0@.len(),
                out@ == range_header(self.ranges().subrange(0, i as int)),
            decreases self.0@.len() - i,
        {
            if i > 0 {
                out.push(',');
            }
            assert(range_wf(self.0@[i as int]));
            self.0[i].write_text(&mut out);
            proof {
                let prefix = self.ranges().subrange(0, i + 1);
                assert(prefix.drop_last() =~= self.ranges().subrange(0, i as int));
                assert(prefix.last() == self.0@[i as int]@);
                assert(out@ =~= range_header(prefix));
            }
            i = i + 1;
        }
        assert(self.ranges().subrange(0, self.0@.len() as int) =~= self.ranges());
        out
    }
}

} // verus!
