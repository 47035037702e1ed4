use vstd::prelude::*;

use crate::version::{PatchVersion, VersionModel};

verus! {

/// Where a run of bytes lives in a patch file.
#[derive(Debug, Clone, Copy, PartialEq, Eq, Structural, Hash)]
pub struct PatchRef {
    /// Absolute offset in the patch file.
    pub offset: u64,
    /// How many bytes the patch stores.
    pub size: u32,
    /// Whether those bytes are deflated.
    pub is_compressed: bool,
}

/// The kind of a reference as a CLUT stores it.
#[derive(Debug, Clone, Copy, PartialEq, Eq, Structural)]
pub enum RefType {
    Patch,
    Zero,
    EmptyBlock,
}

/// What a reference fills its bytes with.
#[derive(Debug, Clone, Copy, PartialEq, Eq, Structural)]
pub enum RefKind {
    /// Bytes from a patch; `patch_offset` is how far into the (expanded) patch data this
    /// reference starts, absent when that is zero.
    Patch { patch: PatchRef, patch_offset: Option<u32> },
    /// Zero bytes.
    Zero,
    /// An sqpack empty-block header.
    EmptyBlock { block_count: i32 },
}

/// A reference as plain values.
pub ghost struct DataRefModel {
    pub version: VersionModel,
    pub offset: u64,
    pub length: u32,
    pub kind: RefKind,
}

/// Why a reference could not be built or cut.
#[derive(Debug, Clone, Copy, PartialEq, Eq, Structural)]
pub enum DataRefError {
    /// The requested slice reaches outside the reference.
    SliceOutOfBounds,
    /// An empty-block header describes a whole region and cannot be cut.
    EmptyBlockSlice,
    /// A slice longer than a reference can hold.
    LengthOverflow,
    /// An empty region must be a whole number of 128-byte blocks.
    UnalignedEmpty,
}

/// One run of a file's bytes and where they come from.
#[derive(Debug)]
pub struct DataRef {
    applied_version: PatchVersion,
    offset: u64,
    length: u32,
    kind: RefKind,
}

/// An sqpack empty-block header is a fixed 24 bytes.
pub const EMPTY_BLOCK_HEADER: u32 = 24;

impl View for DataRef {
    type V = DataRefModel;

    closed spec fn view(&self) -> DataRefModel {
        DataRefModel {
            version: self.applied_version@,
            offset: self.offset,
            length: self.length,
            kind: self.kind,
        }
    }
}

/// One past the last byte.
pub open spec fn ref_end(r: DataRefModel) -> int {
    r.offset + r.length
}

/// The patch offset a patch reference starts at, absent meaning zero.
pub open spec fn patch_start(kind: RefKind) -> int {
    match kind {
        RefKind::Patch { patch_offset, .. } => match patch_offset {
            Some(p) => p as int,
            None => 0,
        },
        _ => 0,
    }
}

/// A reference whose arithmetic stays in range: its end fits, and a patch reference's
/// last byte is addressable within the patch data.
pub open spec fn ref_wf(r: DataRefModel) -> bool {
    &&& r.offset + r.length <= u64::MAX
    &&& (r.kind is Patch ==> patch_start(r.kind) + r.length <= u32::MAX)
}

/// Whether a reference stores its patch offset as the constructors do: a zero offset as
/// absent.
pub open spec fn stored_plainly(r: DataRefModel) -> bool {
    r.kind matches RefKind::Patch { patch_offset, .. } ==> patch_offset != Some(0u32)
}

/// Whether a slice `[start, end)` of `r`, where it lies inside `r`, starts at a patch
/// offset that fits in 32 bits.
pub open spec fn slice_fits(r: DataRefModel, start: int, end: int) -> bool {
    (start >= r.offset && end <= r.offset + r.length && r.kind is Patch) ==> start - r.offset + patch_start(
        r.kind,
    ) <= u32::MAX
}

/// Where a reference takes a patch offset of `p` from: zero is not stored.
pub open spec fn stored_offset(p: u32) -> Option<u32> {
    if p == 0 { None } else { Some(p) }
}

/// What a single byte at file position `x` holds.
pub ghost enum ByteSource {
    Zero { version: VersionModel },
    Patch { version: VersionModel, patch: PatchRef, at: int },
    Empty { version: VersionModel, block_count: i32, offset: u64, length: u32, at: int },
}

/// What the reference says of file position `x`.
pub open spec fn source(r: DataRefModel, x: int) -> ByteSource {
    match r.kind {
        RefKind::Zero => ByteSource::Zero { version: r.version },
        RefKind::Patch { patch, patch_offset } => ByteSource::Patch {
            version: r.version,
            patch,
            at: patch_start(r.kind) + (x - r.offset),
        },
        RefKind::EmptyBlock { block_count } => ByteSource::Empty {
            version: r.version,
            block_count,
            offset: r.offset,
            length: r.length,
            at: x - r.offset,
        },
    }
}

pub open spec fn covers(r: DataRefModel, x: int) -> bool {
    r.offset <= x < ref_end(r)
}

impl DataRef {
    /// The patch whose application wrote these bytes.
    pub fn applied_version(&self) -> (v: &PatchVersion)
        ensures
            v@ == self@.version,
    {
        &self.applied_version
    }

    pub fn offset(&self) -> (o: u64)
        ensures
            o == self@.offset,
    {
        self.offset
    }

    #[allow(clippy::len_without_is_empty)]
    pub fn len(&self) -> (l: u32)
        ensures
            l == self@.length,
    {
        self.length
    }

    pub fn kind(&self) -> (k: RefKind)
        ensures
            k == self@.kind,
    {
        self.kind
    }

    pub fn set_offset(&mut self, new_offset: u64)
        ensures
            final(self)@ == (DataRefModel { offset: new_offset, ..old(self)@ }),
    {
        self.offset = new_offset;
    }

    pub fn set_len(&mut self, new_length: u32)
        ensures
            final(self)@ == (DataRefModel { length: new_length, ..old(self)@ }),
    {
        self.length = new_length;
    }

    pub fn is_patch(&self) -> (b: bool)
        ensures
            b == self@.kind is Patch,
    {
        match self.kind {
            RefKind::Patch { .. } => true,
            _ => false,
        }
    }

    pub fn is_zero(&self) -> (b: bool)
        ensures
            b == self@.kind is Zero,
    {
        match self.kind {
            RefKind::Zero => true,
            _ => false,
        }
    }

    pub fn is_empty_block(&self) -> (b: bool)
        ensures
            b == self@.kind is EmptyBlock,
    {
        match self.kind {
            RefKind::EmptyBlock { .. } => true,
            _ => false,
        }
    }

    /// The patch bytes behind a patch reference.
    pub fn patch(&self) -> (p: Option<PatchRef>)
        ensures
            p == (match self@.kind {
                RefKind::Patch { patch, .. } => Some(patch),
                _ => None,
            }),
    {
        match self.kind {
            RefKind::Patch { patch, .. } => Some(patch),
            _ => None,
        }
    }

    /// How far into the patch data a patch reference starts.
    pub fn patch_offset(&self) -> (p: Option<u32>)
        ensures
            p == (match self@.kind {
                RefKind::Patch { .. } => Some(patch_start(self@.kind) as u32),
                _ => None,
            }),
    {
        match self.kind {
            RefKind::Patch { patch_offset, .. } => Some(
                match patch_offset {
                    Some(p) => p,
                    None => 0,
                },
            ),
            _ => None,
        }
    }

    /// How many blocks an empty-block reference declares.
    pub fn block_count(&self) -> (c: Option<i32>)
        ensures
            c == (match self@.kind {
                RefKind::EmptyBlock { block_count } => Some(block_count),
                _ => None,
            }),
    {
        match self.kind {
            RefKind::EmptyBlock { block_count } => Some(block_count),
            _ => None,
        }
    }

    /// One past the last byte this reference covers.
    pub fn end(&self) -> (e: u64)
        requires
            self@.offset + self@.length <= u64::MAX,
        ensures
            e == ref_end(self@),
    {
        self.offset + self.length as u64
    }

    /// A copy of this reference.
    pub fn duplicate(&self) -> (r: DataRef)
        ensures
            r@ == self@,
    {
        DataRef {
            applied_version: self.applied_version.duplicate(),
            offset: self.offset,
            length: self.length,
            kind: self.kind,
        }
    }

    /// A reference made of its parts, as a CLUT stores them.
    pub(crate) fn from_parts(applied_version: PatchVersion, offset: u64, length: u32, kind: RefKind) -> (r: Self)
        ensures
            r@ == (DataRefModel { version: applied_version@, offset, length, kind }),
    {
        DataRef { applied_version, offset, length, kind }
    }

    /// Data copied straight out of a patch file.
    pub fn from_raw_patch_data(version: PatchVersion, patch_offset: u64, file_offset: u64, length: u32) -> (r: Self)
        ensures
            r@ == (DataRefModel {
                version: version@,
                offset: file_offset,
                length,
                kind: RefKind::Patch {
                    patch: PatchRef { offset: patch_offset, size: length, is_compressed: false },
                    patch_offset: None,
                },
            }),
    {
        Self::with_patch(
            version,
            file_offset,
            length,
            PatchRef { offset: patch_offset, size: length, is_compressed: false },
            0,
        )
    }

    /// Deflated data in a patch file, which expands to `length` bytes.
    pub fn from_compressed_patch_data(
        version: PatchVersion,
        patch_offset: u64,
        file_offset: u64,
        compressed_length: u32,
        length: u32,
    ) -> (r: Self)
        ensures
            r@ == (DataRefModel {
                version: version@,
                offset: file_offset,
                length,
                kind: RefKind::Patch {
                    patch: PatchRef { offset: patch_offset, size: compressed_length, is_compressed: true },
                    patch_offset: None,
                },
            }),
    {
        Self::with_patch(
            version,
            file_offset,
            length,
            PatchRef { offset: patch_offset, size: compressed_length, is_compressed: true },
            0,
        )
    }

    /// A slice of patch data starting `patch_offset` bytes into the (expanded) block.
    pub fn from_split_patch_data(
        version: PatchVersion,
        patch: PatchRef,
        file_offset: u64,
        patch_offset: u32,
        length: u32,
    ) -> (r: Self)
        ensures
            r@ == (DataRefModel {
                version: version@,
                offset: file_offset,
                length,
                kind: RefKind::Patch { patch, patch_offset: stored_offset(patch_offset) },
            }),
    {
        Self::with_patch(version, file_offset, length, patch, patch_offset)
    }

    /// A zero patch offset is stored as absent, which is how it reads back.
    pub fn with_patch(
        version: PatchVersion,
        file_offset: u64,
        length: u32,
        patch: PatchRef,
        patch_offset: u32,
    ) -> (r: Self)
        ensures
            r@ == (DataRefModel {
                version: version@,
                offset: file_offset,
                length,
                kind: RefKind::Patch { patch, patch_offset: stored_offset(patch_offset) },
            }),
    {
        DataRef {
            applied_version: version,
            offset: file_offset,
            length,
            kind: RefKind::Patch {
                patch,
                patch_offset: if patch_offset != 0 { Some(patch_offset) } else { None },
            },
        }
    }

    /// A run of zeroes.
    pub fn from_zeros(version: PatchVersion, file_offset: u64, length: u32) -> (r: Self)
        ensures
            r@ == (DataRefModel { version: version@, offset: file_offset, length, kind: RefKind::Zero }),
    {
        DataRef { applied_version: version, offset: file_offset, length, kind: RefKind::Zero }
    }

    /// An empty-block reference, as a CLUT stores one.
    pub fn from_empty_block(version: PatchVersion, file_offset: u64, length: u32, block_count: i32) -> (r: Self)
        ensures
            r@ == (DataRefModel {
                version: version@,
                offset: file_offset,
                length,
                kind: RefKind::EmptyBlock { block_count },
            }),
    {
        DataRef {
            applied_version: version,
            offset: file_offset,
            length,
            kind: RefKind::EmptyBlock { block_count },
        }
    }

    /// An sqpack empty-block header, plus the zero fill that follows it. The header is
    /// always 24 bytes, even when it covers no blocks.
    pub fn from_empty(version: PatchVersion, file_offset: u64, length: u32) -> (r: Result<(Self, Option<Self>), DataRefError>)
        requires
            length % 128 == 0 && length != 0 ==> file_offset + EMPTY_BLOCK_HEADER <= u64::MAX,
        ensures
            length % 128 != 0 <==> r is Err,
            r is Err ==> r->Err_0 == DataRefError::UnalignedEmpty,
            r matches Ok((empty, zero)) ==> {
                &&& empty@ == (DataRefModel {
                    version: version@,
                    offset: file_offset,
                    length: EMPTY_BLOCK_HEADER,
                    kind: RefKind::EmptyBlock { block_count: (length / 128) as i32 },
                })
                &&& (length == 0 <==> zero is None)
                &&& (zero matches Some(z) ==> z@ == (DataRefModel {
                    version: version@,
                    offset: (file_offset + EMPTY_BLOCK_HEADER) as u64,
                    length: (length - EMPTY_BLOCK_HEADER) as u32,
                    kind: RefKind::Zero,
                }))
            },
    {
        if length % 128 != 0 {
            return Err(DataRefError::UnalignedEmpty);
        }
        let block_count: i32 = (length / 128) as i32;
        let zero = if length != 0 {
            Some(Self::from_zeros(version.duplicate(), file_offset + EMPTY_BLOCK_HEADER as u64, length - EMPTY_BLOCK_HEADER))
        } else {
            None
        };
        let empty = DataRef {
            applied_version: version,
            offset: file_offset,
            length: EMPTY_BLOCK_HEADER,
            kind: RefKind::EmptyBlock { block_count },
        };
        Ok((empty, zero))
    }

    /// The part of this reference covering `length` bytes from `file_offset`.
    pub fn slice(&self, file_offset: u64, length: u32) -> (r: Result<Self, DataRefError>)
        requires
            self@.offset + self@.length <= u64::MAX,
            file_offset + length <= u64::MAX,
            slice_fits(self@, file_offset as int, file_offset + length),
        ensures
            !(file_offset >= self@.offset && file_offset + length <= ref_end(self@)) ==> r == Err::<
                Self,
                DataRefError,
            >(DataRefError::SliceOutOfBounds),
            (file_offset >= self@.offset && file_offset + length <= ref_end(self@)) ==> (match self@.kind {
                RefKind::EmptyBlock { .. } => r == Err::<Self, DataRefError>(DataRefError::EmptyBlockSlice),
                RefKind::Zero => r matches Ok(s) && s@ == (DataRefModel {
                    version: self@.version,
                    offset: file_offset,
                    length,
                    kind: RefKind::Zero,
                }),
                RefKind::Patch { patch, .. } => r matches Ok(s) && s@ == (DataRefModel {
                    version: self@.version,
                    offset: file_offset,
                    length,
                    kind: RefKind::Patch {
                        patch,
                        patch_offset: stored_offset(
                            (file_offset - self@.offset + patch_start(self@.kind)) as u32,
                        ),
                    },
                }),
            }),
    {
        if !(file_offset >= self.offset && file_offset + length as u64 <= self.end()) {
            return Err(DataRefError::SliceOutOfBounds);
        }
        match self.kind {
            RefKind::Zero => Ok(Self::from_zeros(self.applied_version.duplicate(), file_offset, length)),
            RefKind::EmptyBlock { .. } => Err(DataRefError::EmptyBlockSlice),
            RefKind::Patch { patch, patch_offset } => {
                let base: u32 = match patch_offset {
                    Some(p) => p,
                    None => 0,
                };
                let delta = (file_offset - self.offset) as u32;
                Ok(Self::from_split_patch_data(
                    self.applied_version.duplicate(),
                    patch,
                    file_offset,
                    delta + base,
                    length,
                ))
            },
        }
    }

    /// The part of this reference covering `[start, end)`.
    pub fn slice_interval(&self, start: u64, end: u64) -> (r: Result<Self, DataRefError>)
        requires
            self@.offset + self@.length <= u64::MAX,
            start <= end,
            slice_fits(self@, start as int, end as int),
        ensures
            end - start > u32::MAX ==> r == Err::<Self, DataRefError>(DataRefError::LengthOverflow),
            end - start <= u32::MAX ==> {
                let length = (end - start) as u32;
                &&& !(start >= self@.offset && end <= ref_end(self@)) ==> r == Err::<Self, DataRefError>(
                    DataRefError::SliceOutOfBounds,
                )
                &&& (start >= self@.offset && end <= ref_end(self@)) ==> (match self@.kind {
                    RefKind::EmptyBlock { .. } => r == Err::<Self, DataRefError>(
                        DataRefError::EmptyBlockSlice,
                    ),
                    RefKind::Zero => r matches Ok(s) && s@ == (DataRefModel {
                        version: self@.version,
                        offset: start,
                        length,
                        kind: RefKind::Zero,
                    }),
                    RefKind::Patch { patch, .. } => r matches Ok(s) && s@ == (DataRefModel {
                        version: self@.version,
                        offset: start,
                        length,
                        kind: RefKind::Patch {
                            patch,
                            patch_offset: stored_offset(
                                (start - self@.offset + patch_start(self@.kind)) as u32,
                            ),
                        },
                    }),
                })
            },
            (start == self@.offset && end == ref_end(self@) && self@.kind !is EmptyBlock && stored_plainly(
                self@,
            )) ==> (r matches Ok(s) && s@ == self@),
    {
        if end - start > u32::MAX as u64 {
            return Err(DataRefError::LengthOverflow);
        }
        self.slice(start, (end - start) as u32)
    }
}

/// A slice says the same of each byte it keeps as the reference it was cut from.
pub proof fn lemma_slice_source(r: DataRefModel, s: DataRefModel, x: int)
    requires
        ref_wf(r),
        r.kind !is EmptyBlock,
        s.offset >= r.offset,
        ref_end(s) <= ref_end(r),
        s.version == r.version,
        s.kind == (match r.kind {
            RefKind::Patch { patch, .. } => RefKind::Patch {
                patch,
                patch_offset: stored_offset((s.offset - r.offset + patch_start(r.kind)) as u32),
            },
            _ => RefKind::Zero,
        }),
        covers(s, x),
    ensures
        covers(r, x),
        source(s, x) == source(r, x),
        ref_wf(s),
{
}

} // verus!
