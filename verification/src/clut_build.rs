use vstd::prelude::*;

use crate::chunk::{
    matches_at, Chunk, CompressedBlock, HEADER_SIZE, UNCOMPRESSED_SENTINEL, VERSION_HEADER, expansion_folder, expansion_text,
    normalize_path, normalized, resolve_platform, resolved,
};
use crate::bytes::string_fits;
use crate::clut::Header;
use crate::bytes::{push_bytes, push_i32};
use crate::clut::{CompressType, Version};
use crate::clut_file::Clut;
use crate::clut_file::{
    add_version, add_version_exec, add_versions, files_bytes, header_bytes, header_fits,
    lemma_clut_round_trip, payload_of, read_clut_spec, refs_readable, table_from, version_table,
    version_texts, wrapped_header, zip_files, ClutError, CLUT_MAGIC,
};
use crate::version::section_wf;
use crate::codec::{compress_chunk, compressed, inflated};
use crate::file_data::{ref_models, table_models, FileData};
use crate::lut::write_names;
use crate::data_ref::{DataRef, DataRefModel, EMPTY_BLOCK_HEADER, PatchRef, RefKind, ref_wf};
use crate::names::{
    FileEntry, file_map, file_paths, has_file, insert_name, name_set, put_file, refs_or_empty, remove_name, sorted_names,
    str_views, take_file,
};
use crate::overlay::{collapse, collapse_error, layout_wf, models, painted, source_at, OverlayError};
use crate::order::lex_less;
use crate::version::{PatchVersion, VersionModel};

verus! {

/// Why a chunk could not be folded into the install.
#[derive(Debug, Clone, Copy, PartialEq, Eq, Structural)]
pub enum ApplyError {
    /// A count or size does not fit the 32-bit length a reference holds.
    OutOfRange,
    /// A deleted or expanded region is not a whole number of 128-byte blocks.
    Unaligned,
}

/// An install as plain values: the header it will be written with, its folders, each
/// file's references, and the files whose references changed since they were last
/// collapsed.
pub ghost struct BuilderModel {
    pub header: Header,
    pub folders: Set<Seq<char>>,
    pub files: Map<Seq<char>, Seq<DataRefModel>>,
    pub dirty: Set<Seq<char>>,
}

/// A CLUT under construction: the state of an install after some prefix of a patch
/// chain has been applied.
#[derive(Debug)]
pub struct ClutBuilder {
    pub header: Header,
    /// Folder names, sorted and distinct.
    pub folders: Vec<String>,
    /// Files sorted by path, each path once.
    pub files: Vec<FileEntry>,
    /// Files whose references have changed since they were last collapsed.
    dirty: Vec<String>,
}

impl View for ClutBuilder {
    type V = BuilderModel;

    closed spec fn view(&self) -> BuilderModel {
        BuilderModel {
            header: self.header,
            folders: name_set(self.folders@),
            files: file_map(self.files@),
            dirty: name_set(self.dirty@),
        }
    }
}

/// Data copied straight out of a patch file.
pub open spec fn raw_ref(v: VersionModel, patch_offset: u64, offset: u64, length: u32) -> DataRefModel {
    DataRefModel {
        version: v,
        offset,
        length,
        kind: RefKind::Patch {
            patch: PatchRef { offset: patch_offset, size: length, is_compressed: false },
            patch_offset: None,
        },
    }
}

/// Deflated data in a patch file that expands to `length` bytes.
pub open spec fn deflated_ref(
    v: VersionModel,
    patch_offset: u64,
    offset: u64,
    compressed: u32,
    length: u32,
) -> DataRefModel {
    DataRefModel {
        version: v,
        offset,
        length,
        kind: RefKind::Patch {
            patch: PatchRef { offset: patch_offset, size: compressed, is_compressed: true },
            patch_offset: None,
        },
    }
}

pub open spec fn zero_ref(v: VersionModel, offset: u64, length: u32) -> DataRefModel {
    DataRefModel { version: v, offset, length, kind: RefKind::Zero }
}

/// An empty sqpack region: its 24-byte header, then zeroes for the rest when there is any.
pub open spec fn empty_refs(v: VersionModel, offset: u64, length: u32) -> Seq<DataRefModel> {
    let header = DataRefModel {
        version: v,
        offset,
        length: EMPTY_BLOCK_HEADER,
        kind: RefKind::EmptyBlock { block_count: (length / 128) as i32 },
    };
    if length == 0 {
        seq![header]
    } else {
        seq![header, zero_ref(v, (offset + EMPTY_BLOCK_HEADER) as u64, (length - EMPTY_BLOCK_HEADER) as u32)]
    }
}

/// A block whose sizes do not fit a reference.
pub open spec fn block_bad(b: CompressedBlock) -> bool {
    b.data_size < 0 || (b.compressed_size != UNCOMPRESSED_SENTINEL && b.compressed_size < 0)
}

/// The bytes the blocks expand to, together.
pub open spec fn data_sum(bs: Seq<CompressedBlock>) -> int
    decreases bs.len(),
{
    if bs.len() == 0 {
        0
    } else {
        data_sum(bs.drop_last()) + bs.last().data_size
    }
}

/// The reference a block makes when its bytes land at `offset`.
pub open spec fn block_ref(v: VersionModel, b: CompressedBlock, offset: u64) -> DataRefModel {
    if b.compressed_size != UNCOMPRESSED_SENTINEL {
        deflated_ref(v, b.patch_offset as u64, offset, b.compressed_size as u32, b.data_size as u32)
    } else {
        raw_ref(v, b.patch_offset as u64, offset, b.data_size as u32)
    }
}

/// The references of blocks laid one after the other from `start`.
pub open spec fn block_refs(v: VersionModel, start: u64, bs: Seq<CompressedBlock>) -> Seq<DataRefModel>
    decreases bs.len(),
{
    if bs.len() == 0 {
        Seq::empty()
    } else {
        block_refs(v, start, bs.drop_last()).push(
            block_ref(v, bs.last(), (start + data_sum(bs.drop_last())) as u64),
        )
    }
}

/// The references of blocks laid from `start`: one per block, each from version `v`, the
/// `i`-th landing where the blocks before it end.
pub proof fn lemma_block_refs_laid(v: VersionModel, start: u64, bs: Seq<CompressedBlock>)
    ensures
        block_refs(v, start, bs).len() == bs.len(),
        forall|i: int| 0 <= i < bs.len() ==> (#[trigger] block_refs(v, start, bs)[i]).version == v
            && block_refs(v, start, bs)[i].offset == (start + data_sum(bs.take(i))) as u64,
    decreases bs.len(),
{
    if bs.len() > 0 {
        let init = bs.drop_last();
        lemma_block_refs_laid(v, start, init);
        assert forall|i: int| 0 <= i < bs.len() implies (#[trigger] block_refs(v, start, bs)[i]).version == v
            && block_refs(v, start, bs)[i].offset == (start + data_sum(bs.take(i))) as u64 by {
            if i < init.len() {
                assert(bs.take(i) =~= init.take(i));
            } else {
                assert(bs.take(i) =~= init);
            }
        }
    }
}

/// The first block that does not fit, if one does not.
pub open spec fn first_bad(bs: Seq<CompressedBlock>, k: int) -> bool {
    &&& 0 <= k < bs.len()
    &&& block_bad(bs[k])
    &&& forall|j: int| 0 <= j < k ==> !block_bad(#[trigger] bs[j])
}

/// A file-add from offset 0 replaces the file: afterwards it holds only references of the
/// chunk's blocks (all of them, or those before the first that does not fit), laid from
/// offset 0 and all from the patch applied; nothing written before survives.
pub proof fn lemma_file_add_at_zero_replaces(
    m: BuilderModel,
    platform: crate::clut::PlatformId,
    v: VersionModel,
    target: String,
    blocks: Vec<CompressedBlock>,
)
    ensures
        ({
            let (m2, e) = apply_step(m, platform, v, Chunk::SqpkFileAdd { target, file_offset: 0, blocks });
            let p = resolved(target@, platform);
            &&& m2.files.contains_key(p)
            &&& e is None ==> m2.files[p] == block_refs(v, 0, blocks@)
            &&& exists|k: int| 0 <= k <= blocks@.len() && m2.files[p] == block_refs(v, 0, #[trigger] blocks@.take(k))
            &&& forall|i: int| 0 <= i < m2.files[p].len() ==> (#[trigger] m2.files[p][i]).version == v
                && m2.files[p][i].offset == data_sum(blocks@.take(i)) as u64
        }),
{
    let p = resolved(target@, platform);
    let (m2, e) = apply_step(m, platform, v, Chunk::SqpkFileAdd { target, file_offset: 0, blocks });
    let bs = blocks@;
    if exists|k: int| first_bad(bs, k) {
        let k = choose|k: int| first_bad(bs, k);
        let pre = bs.take(k);
        assert(Seq::<DataRefModel>::empty() + block_refs(v, 0, pre) =~= block_refs(v, 0, pre));
        assert(m2.files[p] == block_refs(v, 0, pre));
        lemma_block_refs_laid(v, 0, pre);
        assert forall|i: int| 0 <= i < m2.files[p].len() implies (#[trigger] m2.files[p][i]).version == v
            && m2.files[p][i].offset == data_sum(bs.take(i)) as u64 by {
            assert(pre.take(i) =~= bs.take(i));
        }
    } else {
        assert(Seq::<DataRefModel>::empty() + block_refs(v, 0, bs) =~= block_refs(v, 0, bs));
        assert(bs.take(bs.len() as int) =~= bs);
        lemma_block_refs_laid(v, 0, bs);
    }
}

/// A file-add from a later offset patches the file: every reference it held stays, in
/// front of the new ones, and each new one is from the patch applied, laid from that
/// offset.
pub proof fn lemma_file_add_later_keeps(
    m: BuilderModel,
    platform: crate::clut::PlatformId,
    v: VersionModel,
    target: String,
    file_offset: i64,
    blocks: Vec<CompressedBlock>,
)
    requires
        file_offset != 0,
    ensures
        ({
            let (m2, e) = apply_step(m, platform, v, Chunk::SqpkFileAdd { target, file_offset, blocks });
            let p = resolved(target@, platform);
            let before = refs_or_empty(m.files, p);
            &&& m2.files.contains_key(p)
            &&& m2.files[p].len() >= before.len()
            &&& m2.files[p].take(before.len() as int) == before
            &&& forall|i: int| before.len() <= i < m2.files[p].len() ==> (#[trigger] m2.files[p][i]).version == v
                && m2.files[p][i].offset == (file_offset as u64 + data_sum(blocks@.take(i - before.len()))) as u64
        }),
{
    let p = resolved(target@, platform);
    let (m2, e) = apply_step(m, platform, v, Chunk::SqpkFileAdd { target, file_offset, blocks });
    let before = refs_or_empty(m.files, p);
    let bs = blocks@;
    let pre = if exists|k: int| first_bad(bs, k) {
        bs.take(choose|k: int| first_bad(bs, k))
    } else {
        bs
    };
    assert(m2.files[p] == before + block_refs(v, file_offset as u64, pre));
    lemma_block_refs_laid(v, file_offset as u64, pre);
    assert((before + block_refs(v, file_offset as u64, pre)).take(before.len() as int) =~= before);
    assert forall|i: int| before.len() <= i < m2.files[p].len() implies (#[trigger] m2.files[p][i]).version == v
        && m2.files[p][i].offset == (file_offset as u64 + data_sum(bs.take(i - before.len()))) as u64 by {
        let t = i - before.len();
        assert(m2.files[p][i] == block_refs(v, file_offset as u64, pre)[t]);
        assert(pre.take(t) =~= bs.take(t));
    }
}

/// `p` now holds `refs`, and has changed since it was last collapsed.
pub open spec fn touch(m: BuilderModel, p: Seq<char>, refs: Seq<DataRefModel>) -> BuilderModel {
    BuilderModel { files: m.files.insert(p, refs), dirty: m.dirty.insert(p), ..m }
}

pub open spec fn starts_with(s: Seq<char>, pre: Seq<char>) -> bool {
    pre.len() <= s.len() && s.take(pre.len() as int) == pre
}

pub open spec fn ends_with(s: Seq<char>, suf: Seq<char>) -> bool {
    suf.len() <= s.len() && s.skip(s.len() - suf.len()) == suf
}

/// The files an expansion's removal keeps all the same.
pub open spec fn kept_on_remove(p: Seq<char>) -> bool {
    ||| ends_with(p, seq!['.', 'v', 'a', 'r'])
    ||| ends_with(p, seq!['0', '0', '0', '0', '0', '.', 'b', 'k', '2'])
    ||| ends_with(p, seq!['0', '0', '0', '0', '1', '.', 'b', 'k', '2'])
    ||| ends_with(p, seq!['0', '0', '0', '0', '2', '.', 'b', 'k', '2'])
    ||| ends_with(p, seq!['0', '0', '0', '0', '3', '.', 'b', 'k', '2'])
}

/// Whether removing an expansion removes the file at `p`: it lies under the expansion's
/// `sqpack` or `movie` folder (by prefix) and is not one of the kept files.
pub open spec fn removed_with(p: Seq<char>, exp: Seq<char>) -> bool {
    &&& (starts_with(p, seq!['s', 'q', 'p', 'a', 'c', 'k', '/'] + exp) || starts_with(
        p,
        seq!['m', 'o', 'v', 'i', 'e', '/'] + exp,
    ))
    &&& !kept_on_remove(p)
}

/// What applying `c` (from patch `v`) does to an install on `platform`, and the error it
/// stops at, if any.
pub open spec fn apply_step(m: BuilderModel, platform: crate::clut::PlatformId, v: VersionModel, c: Chunk) -> (
    BuilderModel,
    Option<ApplyError>,
) {
    match c {
        Chunk::AddDirectory(dir) => (BuilderModel { folders: m.folders.insert(normalized(dir@)), ..m }, None),
        Chunk::DeleteDirectory(dir) => (BuilderModel { folders: m.folders.remove(normalized(dir@)), ..m }, None),
        Chunk::SqpkFileMkdir { target } => (
            BuilderModel { folders: m.folders.insert(resolved(target@, platform)), ..m },
            None,
        ),
        Chunk::SqpkFileDelete { target } => (
            BuilderModel { files: m.files.remove(resolved(target@, platform)), ..m },
            None,
        ),
        Chunk::SqpkHeader { target, header_kind, patch_offset } => {
            let p = resolved(target@, platform);
            let at: u64 = if header_kind == VERSION_HEADER {
                0
            } else {
                HEADER_SIZE as u64
            };
            (
                touch(
                    m,
                    p,
                    refs_or_empty(m.files, p).push(raw_ref(v, patch_offset as u64, at, HEADER_SIZE as u32)),
                ),
                None,
            )
        },
        Chunk::SqpkAddData { target, block_offset, block_number, block_delete_number, patch_offset } => {
            let p = resolved(target@, platform);
            let cur = refs_or_empty(m.files, p);
            if block_number > u32::MAX {
                (touch(m, p, cur), Some(ApplyError::OutOfRange))
            } else {
                let with_data = if block_number > 0 {
                    cur.push(raw_ref(v, patch_offset as u64, block_offset as u64, block_number as u32))
                } else {
                    cur
                };
                if block_delete_number > u32::MAX {
                    (touch(m, p, with_data), Some(ApplyError::OutOfRange))
                } else if block_delete_number > 0 {
                    (
                        touch(
                            m,
                            p,
                            with_data.push(
                                zero_ref(v, (block_offset + block_number) as u64, block_delete_number as u32),
                            ),
                        ),
                        None,
                    )
                } else {
                    (touch(m, p, with_data), None)
                }
            }
        },
        Chunk::SqpkDeleteData { target, block_offset, block_number }
        | Chunk::SqpkExpandData { target, block_offset, block_number } => {
            let p = resolved(target@, platform);
            if block_number < 0 || block_number > u32::MAX {
                (m, Some(ApplyError::OutOfRange))
            } else if block_number % 128 != 0 {
                (m, Some(ApplyError::Unaligned))
            } else {
                (
                    touch(
                        m,
                        p,
                        refs_or_empty(m.files, p) + empty_refs(v, block_offset as u64, block_number as u32),
                    ),
                    None,
                )
            }
        },
        Chunk::SqpkFileAdd { target, file_offset, blocks } => {
            let p = resolved(target@, platform);
            let base = if file_offset == 0 {
                Seq::empty()
            } else {
                refs_or_empty(m.files, p)
            };
            if exists|k: int| first_bad(blocks@, k) {
                let k = choose|k: int| first_bad(blocks@, k);
                (
                    touch(m, p, base + block_refs(v, file_offset as u64, blocks@.take(k))),
                    Some(ApplyError::OutOfRange),
                )
            } else {
                (touch(m, p, base + block_refs(v, file_offset as u64, blocks@)), None)
            }
        },
        Chunk::SqpkFileDelExpac { expansion_id } => (
            BuilderModel {
                files: Map::new(
                    |p: Seq<char>| m.files.contains_key(p) && !removed_with(p, expansion_text(expansion_id)),
                    |p: Seq<char>| m.files[p],
                ),
                ..m
            },
            None,
        ),
        _ => (m, None),
    }
}

/// The chunk's arithmetic stays in range: the sums the patcher forms do not overflow.
pub open spec fn chunk_in_range(c: Chunk) -> bool {
    match c {
        Chunk::SqpkAddData { block_offset, block_number, block_delete_number, .. } => (block_number
            <= u32::MAX && block_delete_number > 0) ==> i64::MIN <= block_offset + block_number <= i64::MAX,
        Chunk::SqpkDeleteData { block_offset, block_number, .. }
        | Chunk::SqpkExpandData { block_offset, block_number, .. } => (0 < block_number <= u32::MAX
            && block_number % 128 == 0) ==> (block_offset as u64) + EMPTY_BLOCK_HEADER <= u64::MAX,
        Chunk::SqpkFileAdd { file_offset, blocks, .. } => forall|k: int|
            0 <= k <= blocks@.len() && (forall|j: int| 0 <= j < k ==> !block_bad(#[trigger] blocks@[j]))
                ==> (file_offset as u64) + data_sum(#[trigger] blocks@.take(k)) <= u64::MAX,
        _ => true,
    }
}

impl ClutBuilder {
    /// The header the install will be written with.
    pub closed spec fn head(self) -> Header {
        self.header
    }

    /// Folders, files and the changed set each sorted and distinct.
    pub closed spec fn wf(&self) -> bool {
        &&& sorted_names(str_views(self.folders@))
        &&& sorted_names(file_paths(self.files@))
        &&& sorted_names(str_views(self.dirty@))
    }

    /// An empty install.
    pub fn new(header: Header) -> (b: Self)
        ensures
            b.wf(),
            b.head() == header,
            b@.folders == Set::<Seq<char>>::empty(),
            b@.files == Map::<Seq<char>, Seq<DataRefModel>>::empty(),
            b@.dirty == Set::<Seq<char>>::empty(),
    {
        let b = ClutBuilder { header, folders: Vec::new(), files: Vec::new(), dirty: Vec::new() };
        proof {
            assert(name_set(b.folders@) =~= Set::<Seq<char>>::empty());
            assert(name_set(b.dirty@) =~= Set::<Seq<char>>::empty());
            assert(file_map(b.files@) =~= Map::<Seq<char>, Seq<DataRefModel>>::empty());
        }
        b
    }
}


proof fn lemma_touch_after_take(m: Map<Seq<char>, Seq<DataRefModel>>, p: Seq<char>, v: Seq<DataRefModel>)
    ensures
        m.remove(p).insert(p, v) == m.insert(p, v),
{
    assert(m.remove(p).insert(p, v) =~= m.insert(p, v));
}

proof fn lemma_first_bad_unique(bs: Seq<CompressedBlock>, k: int)
    requires
        first_bad(bs, k),
    ensures
        (choose|j: int| first_bad(bs, j)) == k,
{
    let j = choose|j: int| first_bad(bs, j);
    if j < k {
        assert(!block_bad(bs[j]));
    } else if j > k {
        assert(!block_bad(bs[k]));
    }
}

impl ClutBuilder {
    /// Store `refs` for `path` and mark it changed.
    fn store(&mut self, path: String, refs: Vec<DataRef>)
        requires
            old(self).wf(),
        ensures
            final(self).wf(),
            final(self).head() == old(self).head(),
            final(self)@ == touch(old(self)@, path@, models(refs@)),
    {
        insert_name(&mut self.dirty, path.clone());
        put_file(&mut self.files, path, refs);
    }

    fn apply_header(&mut self, patch: &PatchVersion, target: &String, header_kind: u8, patch_offset: i64)
        requires
            old(self).wf(),
        ensures
            final(self).wf(),
            final(self).head() == old(self).head(),
            (final(self)@, None::<ApplyError>) == apply_step(
                old(self)@,
                old(self).head().platform,
                patch@,
                Chunk::SqpkHeader { target: *target, header_kind, patch_offset },
            ),
    {
        let ghost m = self@;
        let p = resolve_platform(target.as_str(), self.header.platform);
        let at: u64 = if Chunk::is_version_header(header_kind) {
            0
        } else {
            HEADER_SIZE as u64
        };
        let mut refs = take_file(&mut self.files, p.as_str());
        refs.push(DataRef::from_raw_patch_data(patch.duplicate(), patch_offset as u64, at, HEADER_SIZE as u32));
        proof {
            lemma_touch_after_take(m.files, p@, models(refs@));
            assert(models(refs@) =~= refs_or_empty(m.files, p@).push(
                raw_ref(patch@, patch_offset as u64, at, HEADER_SIZE as u32),
            ));
        }
        self.store(p, refs);
    }

    fn apply_add_data(
        &mut self,
        patch: &PatchVersion,
        target: &String,
        block_offset: i64,
        block_number: i64,
        block_delete_number: i64,
        patch_offset: i64,
    ) -> (r: Result<(), ApplyError>)
        requires
            old(self).wf(),
            chunk_in_range(
                Chunk::SqpkAddData { target: *target, block_offset, block_number, block_delete_number, patch_offset },
            ),
        ensures
            final(self).wf(),
            final(self).head() == old(self).head(),
            (final(self)@, match r {
                Ok(_) => None,
                Err(e) => Some(e),
            }) == apply_step(
                old(self)@,
                old(self).head().platform,
                patch@,
                Chunk::SqpkAddData { target: *target, block_offset, block_number, block_delete_number, patch_offset },
            ),
    {
        let ghost m = self@;
        let p = resolve_platform(target.as_str(), self.header.platform);
        let mut refs = take_file(&mut self.files, p.as_str());
        let ghost cur = models(refs@);
        proof {
            lemma_touch_after_take(m.files, p@, cur);
        }
        if block_number > u32::MAX as i64 {
            self.store(p, refs);
            return Err(ApplyError::OutOfRange);
        }
        if block_number > 0 {
            refs.push(
                DataRef::from_raw_patch_data(patch.duplicate(), patch_offset as u64, block_offset as u64, block_number as u32),
            );
        }
        let ghost with_data = models(refs@);
        proof {
            lemma_touch_after_take(m.files, p@, with_data);
            if block_number > 0 {
                assert(with_data =~= cur.push(raw_ref(patch@, patch_offset as u64, block_offset as u64, block_number as u32)));
            }
        }
        if block_delete_number > u32::MAX as i64 {
            self.store(p, refs);
            return Err(ApplyError::OutOfRange);
        }
        if block_delete_number > 0 {
            refs.push(
                DataRef::from_zeros(patch.duplicate(), (block_offset + block_number) as u64, block_delete_number as u32),
            );
            proof {
                lemma_touch_after_take(m.files, p@, models(refs@));
                assert(models(refs@) =~= with_data.push(
                    zero_ref(patch@, (block_offset + block_number) as u64, block_delete_number as u32),
                ));
            }
        }
        self.store(p, refs);
        Ok(())
    }

    fn apply_empty(
        &mut self,
        patch: &PatchVersion,
        target: &String,
        block_offset: i64,
        block_number: i64,
    ) -> (r: Result<(), ApplyError>)
        requires
            old(self).wf(),
            chunk_in_range(Chunk::SqpkDeleteData { target: *target, block_offset, block_number }),
        ensures
            final(self).wf(),
            final(self).head() == old(self).head(),
            (final(self)@, match r {
                Ok(_) => None,
                Err(e) => Some(e),
            }) == apply_step(
                old(self)@,
                old(self).head().platform,
                patch@,
                Chunk::SqpkDeleteData { target: *target, block_offset, block_number },
            ),
    {
        let ghost m = self@;
        if block_number < 0 || block_number > u32::MAX as i64 {
            return Err(ApplyError::OutOfRange);
        }
        let (empty, zero) = match DataRef::from_empty(patch.duplicate(), block_offset as u64, block_number as u32) {
            Ok(pair) => pair,
            Err(_) => {
                return Err(ApplyError::Unaligned);
            },
        };
        let p = resolve_platform(target.as_str(), self.header.platform);
        let mut refs = take_file(&mut self.files, p.as_str());
        let ghost cur = models(refs@);
        refs.push(empty);
        match zero {
            Some(z) => refs.push(z),
            None => {},
        }
        proof {
            lemma_touch_after_take(m.files, p@, models(refs@));
            assert(models(refs@) =~= cur + empty_refs(patch@, block_offset as u64, block_number as u32));
        }
        self.store(p, refs);
        Ok(())
    }
}


impl ClutBuilder {
    fn apply_file_add(&mut self, patch: &PatchVersion, target: &String, file_offset: i64, blocks: &Vec<CompressedBlock>) -> (r:
        Result<(), ApplyError>)
        requires
            old(self).wf(),
            chunk_in_range(Chunk::SqpkFileAdd { target: *target, file_offset, blocks: *blocks }),
        ensures
            final(self).wf(),
            final(self).head() == old(self).head(),
            (final(self)@, match r {
                Ok(_) => None,
                Err(e) => Some(e),
            }) == apply_step(
                old(self)@,
                old(self).head().platform,
                patch@,
                Chunk::SqpkFileAdd { target: *target, file_offset, blocks: *blocks },
            ),
    {
        let ghost m = self@;
        let ghost v = patch@;
        let p = resolve_platform(target.as_str(), self.header.platform);
        let mut refs = take_file(&mut self.files, p.as_str());
        // Writing from the start replaces the file rather than patching it.
        if file_offset == 0 {
            refs.clear();
        }
        let ghost base = models(refs@);
        let ghost start: u64 = file_offset as u64;
        proof {
            assert(base == (if file_offset == 0 {
                Seq::<DataRefModel>::empty()
            } else {
                refs_or_empty(m.files, p@)
            }));
            assert(blocks@.take(0) =~= Seq::<CompressedBlock>::empty());
            assert(models(refs@) =~= base + block_refs(v, start, blocks@.take(0)));
        }
        let ghost mid = self@;
        let mut offset: u64 = file_offset as u64;
        let mut k: usize = 0;
        while k < blocks.len()
            invariant
                self.wf(),
                self.head() == old(self).head(),
                self@ == mid,
                m == old(self)@,
                mid.files == m.files.remove(p@),
                mid.folders == m.folders,
                mid.dirty == m.dirty,
                p@ == resolved(target@, old(self).head().platform),
                base == (if file_offset == 0 {
                    Seq::<DataRefModel>::empty()
                } else {
                    refs_or_empty(m.files, p@)
                }),
                k <= blocks@.len(),
                v == patch@,
                start == file_offset as u64,
                chunk_in_range(Chunk::SqpkFileAdd { target: *target, file_offset, blocks: *blocks }),
                forall|j: int| 0 <= j < k ==> !block_bad(#[trigger] blocks@[j]),
                offset == start + data_sum(blocks@.take(k as int)),
                models(refs@) == base + block_refs(v, start, blocks@.take(k as int)),
            decreases blocks@.len() - k,
        {
            let b = blocks[k];
            let ghost before = models(refs@);
            proof {
                let t = blocks@.take(k + 1);
                assert(t.drop_last() =~= blocks@.take(k as int));
                assert(t.last() == b);
            }
            if b.data_size < 0 {
                proof {
                    assert(first_bad(blocks@, k as int));
                    lemma_first_bad_unique(blocks@, k as int);
                    lemma_touch_after_take(m.files, p@, before);
                }
                self.store(p, refs);
                return Err(ApplyError::OutOfRange);
            }
            let data_size = b.data_size as u32;
            if b.is_compressed() {
                if b.compressed_size < 0 {
                    proof {
                        assert(first_bad(blocks@, k as int));
                        lemma_first_bad_unique(blocks@, k as int);
                        lemma_touch_after_take(m.files, p@, before);
                    }
                    self.store(p, refs);
                    return Err(ApplyError::OutOfRange);
                }
                refs.push(
                    DataRef::from_compressed_patch_data(
                        patch.duplicate(),
                        b.patch_offset as u64,
                        offset,
                        b.compressed_size as u32,
                        data_size,
                    ),
                );
            } else {
                refs.push(DataRef::from_raw_patch_data(patch.duplicate(), b.patch_offset as u64, offset, data_size));
            }
            proof {
                assert(forall|j: int| 0 <= j < k + 1 ==> !block_bad(#[trigger] blocks@[j]));
                assert(start + data_sum(blocks@.take(k + 1)) <= u64::MAX);
                let t = blocks@.take(k + 1);
                assert(block_refs(v, start, t) == block_refs(v, start, blocks@.take(k as int)).push(
                    block_ref(v, b, (start + data_sum(blocks@.take(k as int))) as u64),
                ));
                assert(models(refs@) =~= before.push(block_ref(v, b, offset)));
                assert(models(refs@) =~= base + block_refs(v, start, blocks@.take(k + 1)));
            }
            offset = offset + data_size as u64;
            k = k + 1;
        }
        proof {
            assert(blocks@.take(blocks@.len() as int) =~= blocks@);
            assert(!exists|j: int| first_bad(blocks@, j));
            lemma_touch_after_take(m.files, p@, models(refs@));
        }
        self.store(p, refs);
        Ok(())
    }
}


fn starts_with_chars(s: &Vec<char>, pre: &Vec<char>) -> (b: bool)
    ensures
        b == starts_with(s@, pre@),
{
    let r = matches_at(s, 0, pre);
    proof {
        if pre@.len() <= s@.len() {
            assert(s@.take(pre@.len() as int) =~= s@.subrange(0, pre@.len() as int));
        }
    }
    r
}

fn ends_with_chars(s: &Vec<char>, suf: &Vec<char>) -> (b: bool)
    ensures
        b == ends_with(s@, suf@),
{
    if suf.len() > s.len() {
        return false;
    }
    let r = matches_at(s, s.len() - suf.len(), suf);
    proof {
        assert(s@.skip(s@.len() - suf@.len()) =~= s@.subrange(s@.len() - suf@.len(), s@.len() as int));
    }
    r
}

fn text_chars(s: &str) -> (v: Vec<char>)
    ensures
        v@ == s@,
{
    crate::text::chars_of(s)
}

/// Whether removing the expansion whose folder is `exp` removes the file at `path`.
pub fn removed_path(path: &str, exp: &str) -> (b: bool)
    ensures
        b == removed_with(path@, exp@),
{
    let p = text_chars(path);
    let e = text_chars(exp);
    proof {
        reveal_strlit("sqpack/");
        reveal_strlit("movie/");
        reveal_strlit(".var");
        reveal_strlit("00000.bk2");
        reveal_strlit("00001.bk2");
        reveal_strlit("00002.bk2");
        reveal_strlit("00003.bk2");
    }
    let mut sqpack = text_chars("sqpack/");
    let mut movie = text_chars("movie/");
    let mut i: usize = 0;
    while i < e.len()
        invariant
            i <= e@.len(),
            sqpack@ == seq!['s', 'q', 'p', 'a', 'c', 'k', '/'] + e@.subrange(0, i as int),
            movie@ == seq!['m', 'o', 'v', 'i', 'e', '/'] + e@.subrange(0, i as int),
        decreases e@.len() - i,
    {
        sqpack.push(e[i]);
        movie.push(e[i]);
        i = i + 1;
        assert(sqpack@ =~= seq!['s', 'q', 'p', 'a', 'c', 'k', '/'] + e@.subrange(0, i as int));
        assert(movie@ =~= seq!['m', 'o', 'v', 'i', 'e', '/'] + e@.subrange(0, i as int));
    }
    assert(e@.subrange(0, e@.len() as int) =~= e@);
    let under = starts_with_chars(&p, &sqpack) || starts_with_chars(&p, &movie);
    let kept = ends_with_chars(&p, &text_chars(".var")) || ends_with_chars(&p, &text_chars("00000.bk2"))
        || ends_with_chars(&p, &text_chars("00001.bk2")) || ends_with_chars(&p, &text_chars("00002.bk2"))
        || ends_with_chars(&p, &text_chars("00003.bk2"));
    proof {
        assert(".var"@ =~= seq!['.', 'v', 'a', 'r']);
        assert("00000.bk2"@ =~= seq!['0', '0', '0', '0', '0', '.', 'b', 'k', '2']);
        assert("00001.bk2"@ =~= seq!['0', '0', '0', '0', '1', '.', 'b', 'k', '2']);
        assert("00002.bk2"@ =~= seq!['0', '0', '0', '0', '2', '.', 'b', 'k', '2']);
        assert("00003.bk2"@ =~= seq!['0', '0', '0', '0', '3', '.', 'b', 'k', '2']);
    }
    under && !kept
}

/// Files an expansion's removal keeps.
pub open spec fn survives(exp: Seq<char>) -> spec_fn(FileEntry) -> bool {
    |e: FileEntry| !removed_with(e.path@, exp)
}

proof fn lemma_file_map_push(f: Seq<FileEntry>, e: FileEntry)
    requires
        sorted_names(file_paths(f.push(e))),
    ensures
        sorted_names(file_paths(f)),
        !file_map(f).contains_key(e.path@),
        file_map(f.push(e)) == file_map(f).insert(e.path@, models(e.refs@)),
        forall|i: int| 0 <= i < f.len() ==> crate::order::lex_less(#[trigger] f[i].path@, e.path@),
{
    let g = f.push(e);
    let n = f.len() as int;
    assert forall|i: int, j: int| 0 <= i < j < file_paths(f).len() implies crate::order::lex_less(
        #[trigger] file_paths(f)[i],
        #[trigger] file_paths(f)[j],
    ) by {
        assert(file_paths(g)[i] == file_paths(f)[i] && file_paths(g)[j] == file_paths(f)[j]);
    }
    assert forall|i: int| 0 <= i < f.len() implies crate::order::lex_less(#[trigger] f[i].path@, e.path@) by {
        assert(file_paths(g)[i] == f[i].path@ && file_paths(g)[n] == e.path@);
    }
    if file_map(f).contains_key(e.path@) {
        let i = choose|i: int| 0 <= i < file_paths(f).len() && file_paths(f)[i] == e.path@;
        assert(crate::order::lex_less(f[i].path@, e.path@));
        crate::order::lemma_lex_irreflexive(e.path@);
    }
    crate::names::lemma_file_map_index(g, n);
    assert forall|p: Seq<char>| #[trigger] file_map(g).contains_key(p) <==> file_map(f).insert(e.path@, models(e.refs@)).contains_key(p) by {
        if file_paths(g).contains(p) {
            let i = choose|i: int| 0 <= i < file_paths(g).len() && file_paths(g)[i] == p;
            if i < n {
                assert(file_paths(f)[i] == p);
            }
        }
        if file_paths(f).contains(p) {
            let i = choose|i: int| 0 <= i < file_paths(f).len() && file_paths(f)[i] == p;
            assert(file_paths(g)[i] == p);
        }
    }
    assert forall|p: Seq<char>| #[trigger] file_map(g).contains_key(p) implies file_map(g)[p] == file_map(f).insert(e.path@, models(e.refs@))[p] by {
        let i = choose|i: int| 0 <= i < file_paths(g).len() && file_paths(g)[i] == p;
        crate::names::lemma_file_map_index(g, i);
        if i < n {
            assert(g[i] == f[i]);
            crate::names::lemma_file_map_index(f, i);
        }
    }
    assert(file_map(g) =~= file_map(f).insert(e.path@, models(e.refs@)));
}

proof fn lemma_filter_files(s: Seq<FileEntry>, exp: Seq<char>)
    requires
        sorted_names(file_paths(s)),
    ensures
        sorted_names(file_paths(s.filter(survives(exp)))),
        file_map(s.filter(survives(exp))) == Map::new(
            |p: Seq<char>| file_map(s).contains_key(p) && !removed_with(p, exp),
            |p: Seq<char>| file_map(s)[p],
        ),
    decreases s.len(),
{
    reveal(Seq::filter);
    let target = Map::new(
        |p: Seq<char>| file_map(s).contains_key(p) && !removed_with(p, exp),
        |p: Seq<char>| file_map(s)[p],
    );
    if s.len() == 0 {
        assert(file_map(s.filter(survives(exp))) =~= target);
    } else {
        let init = s.drop_last();
        let e = s.last();
        assert(s == init.push(e));
        lemma_file_map_push(init, e);
        lemma_filter_files(init, exp);
        let fi = init.filter(survives(exp));
        let sub = Map::new(
            |p: Seq<char>| file_map(init).contains_key(p) && !removed_with(p, exp),
            |p: Seq<char>| file_map(init)[p],
        );
        if survives(exp)(e) {
            assert(s.filter(survives(exp)) == fi.push(e));
            assert forall|i: int, j: int| 0 <= i < j < file_paths(fi.push(e)).len() implies crate::order::lex_less(
                #[trigger] file_paths(fi.push(e))[i],
                #[trigger] file_paths(fi.push(e))[j],
            ) by {
                if j == fi.len() {
                    let q = fi[i].path@;
                    assert(file_paths(fi)[i] == q);
                    assert(file_map(fi).contains_key(q));
                    let k = choose|k: int| 0 <= k < file_paths(init).len() && file_paths(init)[k] == q;
                    assert(crate::order::lex_less(init[k].path@, e.path@));
                } else {
                    assert(file_paths(fi.push(e))[i] == file_paths(fi)[i]);
                    assert(file_paths(fi.push(e))[j] == file_paths(fi)[j]);
                }
            }
            lemma_file_map_push(fi, e);
            assert(file_map(s.filter(survives(exp))) =~= target);
        } else {
            assert(s.filter(survives(exp)) == fi);
            assert(file_map(s.filter(survives(exp))) =~= target);
        }
    }
}

/// Drop the files an expansion's removal removes.
fn retain_files(files: &mut Vec<FileEntry>, exp: &str)
    requires
        sorted_names(file_paths(old(files)@)),
    ensures
        sorted_names(file_paths(final(files)@)),
        file_map(final(files)@) == Map::new(
            |p: Seq<char>| file_map(old(files)@).contains_key(p) && !removed_with(p, exp@),
            |p: Seq<char>| file_map(old(files)@)[p],
        ),
{
    let ghost orig = files@;
    let n = files.len();
    let mut rev: Vec<FileEntry> = Vec::new();
    while files.len() > 0
        invariant
            n == orig.len(),
            files@ == orig.subrange(0, files@.len() as int),
            rev@.len() + files@.len() == n,
            forall|j: int| 0 <= j < rev@.len() ==> #[trigger] rev@[j] == orig[n - 1 - j],
        decreases files@.len(),
    {
        match files.pop() {
            Some(e) => rev.push(e),
            None => {},
        }
    }
    let mut out: Vec<FileEntry> = Vec::new();
    proof {
        reveal(Seq::filter);
        assert(orig.subrange(0, 0).filter(survives(exp@)) =~= Seq::<FileEntry>::empty());
    }
    while rev.len() > 0
        invariant
            n == orig.len(),
            rev@.len() <= n,
            forall|j: int| 0 <= j < rev@.len() ==> #[trigger] rev@[j] == orig[n - 1 - j],
            out@ == orig.subrange(0, n - rev@.len()).filter(survives(exp@)),
        decreases rev@.len(),
    {
        let ghost k = n - rev@.len();
        match rev.pop() {
            Some(e) => {
                proof {
                    reveal(Seq::filter);
                    assert(e == orig[k]);
                    let t = orig.subrange(0, k + 1);
                    assert(t.drop_last() =~= orig.subrange(0, k));
                    assert(t.last() == e);
                }
                if !removed_path(e.path.as_str(), exp) {
                    out.push(e);
                }
            },
            None => {},
        }
    }
    proof {
        assert(orig.subrange(0, n as int) =~= orig);
        lemma_filter_files(orig, exp@);
    }
    *files = out;
}


impl ClutBuilder {
    /// Fold one patch's chunk into the install. Chunks that describe no file content
    /// (headers, options, index commands) change nothing.
    pub fn apply(&mut self, patch: &PatchVersion, chunk: &Chunk) -> (r: Result<(), ApplyError>)
        requires
            old(self).wf(),
            chunk_in_range(*chunk),
        ensures
            final(self).wf(),
            final(self).head() == old(self).head(),
            (final(self)@, match r {
                Ok(_) => None,
                Err(e) => Some(e),
            }) == apply_step(old(self)@, old(self).head().platform, patch@, *chunk),
    {
        let platform = self.header.platform;
        match chunk {
            Chunk::AddDirectory(dir) => {
                insert_name(&mut self.folders, normalize_path(dir.as_str()));
                Ok(())
            },
            Chunk::DeleteDirectory(dir) => {
                let name = normalize_path(dir.as_str());
                remove_name(&mut self.folders, name.as_str());
                Ok(())
            },
            Chunk::SqpkFileMkdir { target } => {
                insert_name(&mut self.folders, resolve_platform(target.as_str(), platform));
                Ok(())
            },
            Chunk::SqpkFileDelete { target } => {
                let p = resolve_platform(target.as_str(), platform);
                let _ = take_file(&mut self.files, p.as_str());
                Ok(())
            },
            Chunk::SqpkHeader { target, header_kind, patch_offset } => {
                self.apply_header(patch, target, *header_kind, *patch_offset);
                Ok(())
            },
            Chunk::SqpkAddData { target, block_offset, block_number, block_delete_number, patch_offset } => {
                self.apply_add_data(patch, target, *block_offset, *block_number, *block_delete_number, *patch_offset)
            },
            Chunk::SqpkDeleteData { target, block_offset, block_number } => {
                self.apply_empty(patch, target, *block_offset, *block_number)
            },
            Chunk::SqpkExpandData { target, block_offset, block_number } => {
                self.apply_empty(patch, target, *block_offset, *block_number)
            },
            Chunk::SqpkFileAdd { target, file_offset, blocks } => {
                self.apply_file_add(patch, target, *file_offset, blocks)
            },
            Chunk::SqpkFileDelExpac { expansion_id } => {
                let exp = expansion_folder(*expansion_id);
                retain_files(&mut self.files, exp.as_str());
                Ok(())
            },
            _ => Ok(()),
        }
    }
}


/// `new` is what collapsing `old` gives: collapsing succeeds, and `new` is a layout saying
/// of each byte what the last of `old` to reach it said.
pub open spec fn collapsed_from(old: Seq<DataRefModel>, new: Seq<DataRefModel>) -> bool {
    &&& collapse_error(old, old.len() as int) is None
    &&& layout_wf(new)
    &&& forall|x: int| #[trigger] source_at(new, x) == painted(old, x)
}

/// Every reference's arithmetic stays in range.
pub open spec fn all_in_range(files: Map<Seq<char>, Seq<DataRefModel>>) -> bool {
    forall|p: Seq<char>, i: int| #![trigger files[p][i]]
        files.contains_key(p) && 0 <= i < files[p].len() ==> ref_wf(files[p][i])
}

impl ClutBuilder {
    /// Whether every reference's arithmetic stays in range, which collapsing needs.
    pub closed spec fn refs_in_range(&self) -> bool {
        all_in_range(self@.files)
    }

    /// Collapse each changed file's references, in path order, into a layout; the first
    /// file that cannot be collapsed stops the work with its error.
    pub fn remove_overlaps(&mut self) -> (r: Result<(), OverlayError>)
        requires
            old(self).wf(),
            all_in_range(old(self)@.files),
        ensures
            final(self).wf(),
            final(self).head() == old(self).head(),
            final(self)@.folders == old(self)@.folders,
            final(self)@.dirty == Set::<Seq<char>>::empty(),
            final(self)@.files.dom() == old(self)@.files.dom(),
            r is Ok ==> forall|p: Seq<char>| #[trigger]
                old(self)@.files.contains_key(p) ==> (if old(self)@.dirty.contains(p) {
                    collapsed_from(old(self)@.files[p], final(self)@.files[p])
                } else {
                    final(self)@.files[p] == old(self)@.files[p]
                }),
            r matches Err(e) ==> exists|p: Seq<char>| {
                &&& #[trigger] old(self)@.files.contains_key(p)
                &&& old(self)@.dirty.contains(p)
                &&& collapse_error(old(self)@.files[p], old(self)@.files[p].len() as int) == Some(e)
                &&& forall|q: Seq<char>| #[trigger]
                    old(self)@.files.contains_key(q) ==> (if old(self)@.dirty.contains(q) && lex_less(q, p) {
                        collapsed_from(old(self)@.files[q], final(self)@.files[q])
                    } else {
                        final(self)@.files[q] == old(self)@.files[q]
                    })
            },
    {
        let ghost m = self@;
        let mut dirty: Vec<String> = Vec::new();
        std::mem::swap(&mut dirty, &mut self.dirty);
        proof {
            assert(name_set(self.dirty@) =~= Set::<Seq<char>>::empty());
        }
        let ghost names = str_views(dirty@);
        let mut i: usize = 0;
        while i < dirty.len()
            invariant
                self.wf(),
                self.head() == old(self).head(),
                m == old(self)@,
                names == str_views(dirty@),
                sorted_names(names),
                names.to_set() == m.dirty,
                i <= dirty@.len(),
                self@.folders == m.folders,
                self@.dirty == Set::<Seq<char>>::empty(),
                self@.files.dom() == m.files.dom(),
                all_in_range(m.files),
                forall|q: Seq<char>| #[trigger]
                    m.files.contains_key(q) ==> (if names.subrange(0, i as int).contains(q) {
                        collapsed_from(m.files[q], self@.files[q])
                    } else {
                        self@.files[q] == m.files[q]
                    }),
            decreases dirty@.len() - i,
        {
            let name = &dirty[i];
            let ghost q0 = name@;
            proof {
                assert(names[i as int] == q0);
                assert(!names.subrange(0, i as int).contains(q0)) by {
                    if names.subrange(0, i as int).contains(q0) {
                        let j = choose|j: int| 0 <= j < i && names.subrange(0, i as int)[j] == q0;
                        assert(names[j] == q0);
                        assert(lex_less(names[j], names[i as int]));
                        crate::order::lemma_lex_irreflexive(q0);
                    }
                }
            }
            let ghost before = self@;
            let ghost pre = names.subrange(0, i as int);
            let ghost pre1 = names.subrange(0, i + 1);
            if has_file(&self.files, name.as_str()) {
                let refs = take_file(&mut self.files, name.as_str());
                proof {
                    assert(models(refs@) == m.files[q0]);
                    assert forall|k: int| 0 <= k < refs@.len() implies ref_wf(#[trigger] refs@[k]@) by {
                        assert(models(refs@)[k] == refs@[k]@);
                        assert(ref_wf(m.files[q0][k]));
                    }
                }
                match collapse(&refs) {
                    Ok(out) => {
                        put_file(&mut self.files, name.clone(), out);
                        proof {
                            assert(self@.files == before.files.remove(q0).insert(q0, models(out@)));
                            assert(self@.files.dom() =~= m.files.dom());
                            assert forall|q: Seq<char>| #[trigger] m.files.contains_key(q) implies (if pre1.contains(q) {
                                collapsed_from(m.files[q], self@.files[q])
                            } else {
                                self@.files[q] == m.files[q]
                            }) by {
                                if q == q0 {
                                    assert(pre1[i as int] == q0);
                                } else {
                                    if pre1.contains(q) {
                                        let j = choose|j: int| 0 <= j < i + 1 && pre1[j] == q;
                                        assert(pre[j] == q);
                                    }
                                    if pre.contains(q) {
                                        let j = choose|j: int| 0 <= j < i && pre[j] == q;
                                        assert(pre1[j] == q);
                                    }
                                }
                            }
                        }
                    },
                    Err(e) => {
                        put_file(&mut self.files, name.clone(), refs);
                        proof {
                            assert(self@.files == before.files.remove(q0).insert(q0, m.files[q0]));
                            assert(self@.files =~= before.files);
                            assert(m.dirty.contains(q0)) by {
                                assert(names[i as int] == q0);
                            }
                            assert forall|q: Seq<char>| #[trigger] m.files.contains_key(q) implies (if m.dirty.contains(q) && lex_less(q, q0) {
                                collapsed_from(m.files[q], self@.files[q])
                            } else {
                                self@.files[q] == m.files[q]
                            }) by {
                                if m.dirty.contains(q) && lex_less(q, q0) {
                                    let j = choose|j: int| 0 <= j < names.len() && names[j] == q;
                                    if j >= i {
                                        if j > i {
                                            assert(lex_less(names[i as int], names[j]));
                                            crate::order::lemma_lex_asymmetric(q, q0);
                                        } else {
                                            crate::order::lemma_lex_irreflexive(q0);
                                        }
                                    }
                                    assert(pre[j] == q);
                                } else if pre.contains(q) {
                                    let j = choose|j: int| 0 <= j < i && pre[j] == q;
                                    assert(names[j] == q);
                                    assert(lex_less(names[j], names[i as int]));
                                    assert(m.dirty.contains(q));
                                }
                            }
                        }
                        return Err(e);
                    },
                }
            } else {
                proof {
                    assert forall|q: Seq<char>| #[trigger] m.files.contains_key(q) implies (if pre1.contains(q) {
                        collapsed_from(m.files[q], self@.files[q])
                    } else {
                        self@.files[q] == m.files[q]
                    }) by {
                        if pre1.contains(q) {
                            let j = choose|j: int| 0 <= j < i + 1 && pre1[j] == q;
                            if j == i {
                                assert(q == q0);
                            }
                            assert(pre[j] == q);
                        }
                        if pre.contains(q) {
                            let j = choose|j: int| 0 <= j < i && pre[j] == q;
                            assert(pre1[j] == q);
                        }
                    }
                }
            }
            i = i + 1;
        }
        proof {
            assert(names.subrange(0, names.len() as int) =~= names);
        }
        Ok(())
    }
}

impl ClutBuilder {
    /// The folder names, sorted.
    pub closed spec fn folder_list(self) -> Seq<Seq<char>> {
        str_views(self.folders@)
    }

    /// The file paths, sorted.
    pub closed spec fn path_list(self) -> Seq<Seq<char>> {
        file_paths(self.files@)
    }

    /// Each file's references, in path order.
    pub closed spec fn refs_list(self) -> Seq<Seq<DataRefModel>> {
        Seq::new(self.files@.len(), |i: int| ref_models(self.files@[i].refs@))
    }

    /// The payload this builder writes.
    pub open spec fn payload_spec(self) -> Seq<u8> {
        payload_of(self.folder_list(), self.path_list(), self.refs_list())
    }

    /// Whether the payload's counts and names fit the format.
    pub open spec fn payload_fits(self) -> bool {
        &&& self.folder_list().len() <= i32::MAX
        &&& self.path_list().len() <= i32::MAX
        &&& version_table(self.refs_list()).len() <= i32::MAX
        &&& forall|i: int| 0 <= i < self.folder_list().len() ==> string_fits(#[trigger] self.folder_list()[i])
        &&& forall|i: int| 0 <= i < self.path_list().len() ==> string_fits(#[trigger] self.path_list()[i])
        &&& forall|i: int|
            0 <= i < version_table(self.refs_list()).len() ==> string_fits(
                #[trigger] version_texts(version_table(self.refs_list()))[i],
            )
        &&& forall|i: int| 0 <= i < self.refs_list().len() ==> (#[trigger] self.refs_list()[i]).len() <= i32::MAX
    }

    /// The patch versions the references were written by, ascending.
    fn versions(&self) -> (t: Vec<PatchVersion>)
        ensures
            table_models(t@) == version_table(self.refs_list()),
    {
        let ghost files = self.refs_list();
        let mut t: Vec<PatchVersion> = Vec::new();
        let mut f: usize = 0;
        assert(table_models(t@) =~= Seq::<VersionModel>::empty());
        assert(files.skip(0) =~= files);
        while f < self.files.len()
            invariant
                files == self.refs_list(),
                f <= self.files@.len(),
                files.len() == self.files@.len(),
                version_table(files) == table_from(table_models(t@), files.skip(f as int)),
            decreases self.files@.len() - f,
        {
            let refs = &self.files[f].refs;
            let ghost t0 = table_models(t@);
            let ghost fr = files[f as int];
            assert(fr == ref_models(refs@));
            assert(files.skip(f as int).drop_first() =~= files.skip(f + 1));
            assert(files.skip(f as int)[0] == fr);
            let mut i: usize = 0;
            assert(fr.skip(0) =~= fr);
            while i < refs.len()
                invariant
                    fr == ref_models(refs@),
                    i <= refs@.len(),
                    add_versions(t0, fr) == add_versions(table_models(t@), fr.skip(i as int)),
                decreases refs@.len() - i,
            {
                let ghost before = table_models(t@);
                add_version_exec(&mut t, refs[i].applied_version());
                proof {
                    assert(fr.skip(i as int)[0] == refs@[i as int]@);
                    assert(fr.skip(i as int).drop_first() =~= fr.skip(i + 1));
                }
                i = i + 1;
            }
            assert(fr.skip(refs@.len() as int) =~= Seq::<DataRefModel>::empty());
            f = f + 1;
        }
        assert(files.skip(self.files@.len() as int) =~= Seq::<Seq<DataRefModel>>::empty());
        t
    }
}

impl ClutBuilder {
    /// The uncompressed payload: the version table, the folder and file names, then each
    /// file's references. This is the whole of a CLUT's content, so two CLUTs with equal
    /// payloads differ only in how they were packed.
    pub fn payload(&self) -> (v: Vec<u8>)
        requires
            self.payload_fits(),
        ensures
            v@ == self.payload_spec(),
    {
        let ghost files = self.refs_list();
        let table = self.versions();
        let ghost tm = version_table(files);
        proof {
            crate::clut_file::lemma_table_from(Seq::empty(), files);
        }
        let mut out: Vec<u8> = Vec::new();
        push_i32(&mut out, table.len() as i32);
        let mut texts: Vec<String> = Vec::new();
        let mut i: usize = 0;
        while i < table.len()
            invariant
                i <= table@.len(),
                str_views(texts@) == version_texts(table_models(table@)).take(i as int),
            decreases table@.len() - i,
        {
            let text = table[i].to_string();
            let ghost before = str_views(texts@);
            assert(version_texts(table_models(table@))[i as int] == text@);
            let ghost tv = text@;
            texts.push(text);
            proof {
                assert(str_views(texts@) =~= before.push(tv));
                assert(str_views(texts@) =~= version_texts(table_models(table@)).take(i + 1));
            }
            i = i + 1;
        }
        assert(version_texts(table_models(table@)).take(table@.len() as int) =~= version_texts(tm));
        assert forall|i: int| 0 <= i < texts@.len() implies string_fits(#[trigger] texts@[i]@) by {
            assert(texts@[i]@ == str_views(texts@)[i]);
        }
        write_names(&mut out, &texts);
        push_i32(&mut out, self.folders.len() as i32);
        assert forall|i: int| 0 <= i < self.folders@.len() implies string_fits(#[trigger] self.folders@[i]@) by {
            assert(self.folders@[i]@ == self.folder_list()[i]);
        }
        write_names(&mut out, &self.folders);
        push_i32(&mut out, self.files.len() as i32);
        let mut paths: Vec<String> = Vec::new();
        let mut f: usize = 0;
        while f < self.files.len()
            invariant
                f <= self.files@.len(),
                str_views(paths@) == file_paths(self.files@).take(f as int),
            decreases self.files@.len() - f,
        {
            let path = self.files[f].path.clone();
            assert(file_paths(self.files@)[f as int] == path@);
            let ghost before = str_views(paths@);
            let ghost pv = path@;
            paths.push(path);
            assert(str_views(paths@) =~= before.push(pv));
            assert(str_views(paths@) =~= file_paths(self.files@).take(f + 1));
            f = f + 1;
        }
        assert(file_paths(self.files@).take(self.files@.len() as int) =~= file_paths(self.files@));
        assert forall|i: int| 0 <= i < paths@.len() implies string_fits(#[trigger] paths@[i]@) by {
            assert(paths@[i]@ == str_views(paths@)[i]);
            assert(str_views(paths@)[i] == self.path_list()[i]);
        }
        write_names(&mut out, &paths);
        let ghost mid = out@;
        let mut f: usize = 0;
        assert(files.skip(0) =~= files);
        while f < self.files.len()
            invariant
                files == self.refs_list(),
                files.len() == self.files@.len(),
                tm == version_table(files),
                table_models(table@) == tm,
                self.payload_fits(),
                forall|g: int, i: int| 0 <= g < files.len() && 0 <= i < files[g].len() ==> tm.contains(
                    #[trigger] files[g][i].version,
                ),
                f <= self.files@.len(),
                out@ + files_bytes(files.skip(f as int), tm) == mid + files_bytes(files, tm),
            decreases self.files@.len() - f,
        {
            let ghost before = out@;
            assert(files[f as int] == ref_models(self.files@[f as int].refs@));
            assert(files[f as int].len() <= i32::MAX);
            let written = FileData::write_with_patches(self.files[f].refs.as_slice(), &mut out, &table);
            assert(written is Ok) by {
                assert forall|i: int| 0 <= i < files[f as int].len() implies tm.contains(
                    #[trigger] files[f as int][i].version,
                ) by {}
            }
            proof {
                let rest = files.skip(f as int);
                assert(rest.drop_first() =~= files.skip(f + 1));
                assert(rest[0] == files[f as int]);
            }
            f = f + 1;
        }
        assert(files.skip(self.files@.len() as int) =~= Seq::<Seq<DataRefModel>>::empty());
        assert(out@ =~= self.payload_spec());
        out
    }

    /// Compress a payload and put a header on it: the builder's header, at the revision this
    /// library writes, with the payload's sizes.
    pub fn wrap(&self, payload: &[u8], compression: CompressType) -> (r: Result<Vec<u8>, ClutError>)
        requires
            header_fits(self.head()@),
        ensures
            r matches Ok(v) ==> v@ == header_bytes(
                wrapped_header(
                    self.head()@,
                    compression,
                    payload@.len() as int,
                    compressed(compression, payload@).len() as int,
                ),
            ) + compressed(compression, payload@) && inflated(compression, compressed(compression, payload@))
                == Some(payload@) && payload@.len() <= i32::MAX && compressed(compression, payload@).len()
                <= i32::MAX,
            r is Err <==> payload@.len() > i32::MAX || compressed(compression, payload@).len() > i32::MAX,
            r matches Err(e) ==> e == ClutError::TooLarge,
    {
        let packed = match compress_chunk(compression, payload) {
            Some(c) => c,
            None => {
                return Err(ClutError::Codec);
            },
        };
        if payload.len() > i32::MAX as usize || packed.len() > i32::MAX as usize {
            return Err(ClutError::TooLarge);
        }
        let mut header = self.header.duplicate();
        header.file_version = Version::SeparateVersioning;
        header.compression = compression;
        header.decompressed_size = payload.len() as i32;
        header.compressed_size = packed.len() as i32;
        assert(header@ == wrapped_header(self.head()@, compression, payload@.len() as int, packed@.len() as int));
        let mut out: Vec<u8> = Vec::new();
        header.write_to(&mut out);
        push_bytes(&mut out, packed.as_slice());
        Ok(out)
    }

    /// The whole CLUT: header and packed payload.
    pub fn write(&self, compression: CompressType) -> (r: Result<Vec<u8>, ClutError>)
        requires
            header_fits(self.head()@),
            self.payload_fits(),
        ensures
            r matches Ok(v) ==> v@ == header_bytes(
                wrapped_header(
                    self.head()@,
                    compression,
                    self.payload_spec().len() as int,
                    compressed(compression, self.payload_spec()).len() as int,
                ),
            ) + compressed(compression, self.payload_spec()) && inflated(
                compression,
                compressed(compression, self.payload_spec()),
            ) == Some(self.payload_spec()) && self.payload_spec().len() <= i32::MAX && compressed(
                compression,
                self.payload_spec(),
            ).len() <= i32::MAX,
            r is Err <==> self.payload_spec().len() > i32::MAX || compressed(compression, self.payload_spec()).len()
                > i32::MAX,
            r matches Err(e) ==> e == ClutError::TooLarge,
    {
        let payload = self.payload();
        self.wrap(payload.as_slice(), compression)
    }
}

impl ClutBuilder {
    /// The folder and path lists are sorted.
    pub proof fn lemma_sorted_lists(self)
        requires
            self.wf(),
        ensures
            sorted_names(self.folder_list()),
            sorted_names(self.path_list()),
    {
    }

    /// The sorted lists the builder writes hold exactly its folders and files.
    pub proof fn lemma_lists(self)
        requires
            self.wf(),
        ensures
            self.folder_list().to_set() == self@.folders,
            self.path_list().to_set() == self@.files.dom(),
            self.path_list().len() == self.refs_list().len(),
            forall|i: int| 0 <= i < self.path_list().len() ==> self@.files[#[trigger] self.path_list()[i]]
                == self.refs_list()[i],
    {
        assert(self.path_list().to_set() =~= self@.files.dom());
        assert forall|i: int| 0 <= i < self.path_list().len() implies self@.files[#[trigger] self.path_list()[i]]
            == self.refs_list()[i] by {
            crate::lut::lemma_index_of_sorted(file_paths(self.files@), i);
            assert(self@.files.dom().contains(self.path_list()[i]));
        }
    }
}

/// Two builders with the same folders and files write the same payload, so with the same
/// header `write` gives them byte-identical files: what a builder writes depends on its
/// contents, not on the order they were added in.
pub proof fn lemma_same_contents_same_payload(a: ClutBuilder, b: ClutBuilder)
    requires
        a.wf(),
        b.wf(),
        a@.folders == b@.folders,
        a@.files == b@.files,
    ensures
        a.folder_list() == b.folder_list(),
        a.path_list() == b.path_list(),
        a.refs_list() == b.refs_list(),
        a.payload_spec() == b.payload_spec(),
{
    a.lemma_lists();
    b.lemma_lists();
    a.lemma_sorted_lists();
    b.lemma_sorted_lists();
    crate::lut::lemma_sorted_set_unique(a.folder_list(), b.folder_list());
    crate::lut::lemma_sorted_set_unique(a.path_list(), b.path_list());
    assert(a.refs_list() =~= b.refs_list()) by {
        assert forall|i: int| 0 <= i < a.refs_list().len() implies a.refs_list()[i] == b.refs_list()[i] by {
            assert(a@.files[a.path_list()[i]] == a.refs_list()[i]);
            assert(b@.files[b.path_list()[i]] == b.refs_list()[i]);
        }
    }
}

/// A builder's CLUT, written and read back, holds the builder's folders, each once, and
/// every one of its files with exactly its references.
pub proof fn lemma_builder_round_trip(b: ClutBuilder, kind: CompressType)
    requires
        b.wf(),
        header_fits(b.head()@),
        b.head()@.magic == CLUT_MAGIC,
        section_wf(b.head()@.version),
        section_wf(b.head()@.patch_version),
        b.payload_fits(),
        refs_readable(b.refs_list()),
        b.payload_spec().len() <= i32::MAX,
        compressed(kind, b.payload_spec()).len() <= i32::MAX,
        inflated(kind, compressed(kind, b.payload_spec())) == Some(b.payload_spec()),
    ensures
        read_clut_spec(
            header_bytes(
                wrapped_header(
                    b.head()@,
                    kind,
                    b.payload_spec().len() as int,
                    compressed(kind, b.payload_spec()).len() as int,
                ),
            ) + compressed(kind, b.payload_spec()),
        ) matches Ok(m) && {
            &&& m.folders.to_set() == b@.folders
            &&& m.files.map_values(|e: (Seq<char>, Seq<DataRefModel>)| e.0).to_set() == b@.files.dom()
            &&& forall|i: int| 0 <= i < m.files.len() ==> b@.files[(#[trigger] m.files[i]).0] == m.files[i].1
        },
{
    b.lemma_lists();
    lemma_clut_round_trip(b.head()@, kind, b.folder_list(), b.path_list(), b.refs_list());
    let files = zip_files(b.path_list(), b.refs_list());
    assert(files.map_values(|e: (Seq<char>, Seq<DataRefModel>)| e.0) =~= b.path_list());
    assert forall|i: int| 0 <= i < files.len() implies b@.files[(#[trigger] files[i]).0] == files[i].1 by {
        assert(files[i].0 == b.path_list()[i]);
    }
}

/// The files a list of entries names, a later entry for a path replacing an earlier one.
pub open spec fn entries_map(es: Seq<(Seq<char>, Seq<DataRefModel>)>) -> Map<Seq<char>, Seq<DataRefModel>>
    decreases es.len(),
{
    if es.len() == 0 {
        Map::empty()
    } else {
        entries_map(es.drop_last()).insert(es.last().0, es.last().1)
    }
}

pub(crate) fn copy_refs(refs: &Vec<DataRef>) -> (out: Vec<DataRef>)
    ensures
        models(out@) == models(refs@),
{
    let mut out: Vec<DataRef> = Vec::new();
    let mut i: usize = 0;
    while i < refs.len()
        invariant
            i <= refs@.len(),
            models(out@) == models(refs@).take(i as int),
        decreases refs@.len() - i,
    {
        let r = refs[i].duplicate();
        let ghost before = models(out@);
        let ghost rm = r@;
        out.push(r);
        assert(models(out@) =~= before.push(rm));
        assert(models(out@) =~= models(refs@).take(i + 1));
        i = i + 1;
    }
    assert(models(refs@).take(refs@.len() as int) =~= models(refs@));
    out
}

impl ClutBuilder {
    /// Resume from an already-built CLUT. Its files start dirty: nothing here can prove the
    /// references in an arbitrary CLUT are already disjoint.
    pub fn from_clut(clut: &Clut) -> (b: ClutBuilder)
        ensures
            b.wf(),
            b.head()@ == clut.header@,
            b@.folders == clut@.folders.to_set(),
            b@.files == entries_map(clut@.files),
            b@.dirty == entries_map(clut@.files).dom(),
    {
        let mut folders: Vec<String> = Vec::new();
        let mut i: usize = 0;
        assert(str_views(folders@) =~= Seq::<Seq<char>>::empty());
        assert(clut@.folders.take(0).to_set() =~= Set::<Seq<char>>::empty());
        while i < clut.folders.len()
            invariant
                i <= clut.folders@.len(),
                sorted_names(str_views(folders@)),
                name_set(folders@) == clut@.folders.take(i as int).to_set(),
            decreases clut.folders@.len() - i,
        {
            let ghost before = name_set(folders@);
            insert_name(&mut folders, clut.folders[i].clone());
            proof {
                assert(clut@.folders.take(i + 1) =~= clut@.folders.take(i as int).push(clut.folders@[i as int]@));
                clut@.folders.take(i as int).lemma_push_to_set_commute(clut.folders@[i as int]@);
            }
            i = i + 1;
        }
        assert(clut@.folders.take(clut.folders@.len() as int) =~= clut@.folders);
        let mut files: Vec<FileEntry> = Vec::new();
        let mut dirty: Vec<String> = Vec::new();
        let mut f: usize = 0;
        assert(file_paths(files@) =~= Seq::<Seq<char>>::empty());
        assert(str_views(dirty@) =~= Seq::<Seq<char>>::empty());
        assert(file_map(files@) =~= Map::<Seq<char>, Seq<DataRefModel>>::empty());
        assert(name_set(dirty@) =~= Set::<Seq<char>>::empty());
        assert(clut@.files.take(0) =~= Seq::<(Seq<char>, Seq<DataRefModel>)>::empty());
        while f < clut.files.len()
            invariant
                f <= clut.files@.len(),
                sorted_names(file_paths(files@)),
                sorted_names(str_views(dirty@)),
                file_map(files@) == entries_map(clut@.files.take(f as int)),
                name_set(dirty@) == entries_map(clut@.files.take(f as int)).dom(),
            decreases clut.files@.len() - f,
        {
            let entry = &clut.files[f];
            let refs = copy_refs(&entry.refs);
            let ghost before = entries_map(clut@.files.take(f as int));
            let ghost e = clut@.files[f as int];
            assert(e == (entry.path@, models(entry.refs@)));
            put_file(&mut files, entry.path.clone(), refs);
            insert_name(&mut dirty, entry.path.clone());
            proof {
                assert(clut@.files.take(f + 1).drop_last() =~= clut@.files.take(f as int));
                assert(clut@.files.take(f + 1).last() == e);
                assert(name_set(dirty@) =~= before.insert(e.0, e.1).dom());
            }
            f = f + 1;
        }
        assert(clut@.files.take(clut.files@.len() as int) =~= clut@.files);
        ClutBuilder { header: clut.header.duplicate(), folders, files, dirty }
    }
}

/// How many folders, files, references and patch versions a CLUT holds.
#[derive(Debug, Clone, Copy, PartialEq, Eq, Structural)]
pub struct ClutStats {
    pub folder_count: usize,
    pub file_count: usize,
    pub total_data_refs: usize,
    pub unique_patch_count: usize,
}

/// The total of the lengths of `fs`.
pub open spec fn total_len(fs: Seq<Seq<DataRefModel>>) -> int
    decreases fs.len(),
{
    if fs.len() == 0 {
        0
    } else {
        total_len(fs.drop_last()) + fs.last().len()
    }
}

impl ClutBuilder {
    /// The counts of what the builder holds: distinct folders, distinct files, the
    /// references of all files, and the distinct patch versions they were written by.
    pub fn stats(&self) -> (st: ClutStats)
        requires
            self.wf(),
            total_len(self.refs_list()) <= usize::MAX,
        ensures
            st.folder_count == self@.folders.len(),
            st.file_count == self@.files.dom().len(),
            st.total_data_refs == total_len(self.refs_list()),
            st.unique_patch_count == version_table(self.refs_list()).len(),
    {
        proof {
            self.lemma_lists();
            crate::names::lemma_sorted_names_distinct(self.folder_list());
            crate::names::lemma_sorted_names_distinct(self.path_list());
            self.folder_list().unique_seq_to_set();
            self.path_list().unique_seq_to_set();
        }
        let table = self.versions();
        let mut total: usize = 0;
        let mut f: usize = 0;
        while f < self.files.len()
            invariant
                f <= self.files@.len(),
                self.refs_list().len() == self.files@.len(),
                total_len(self.refs_list()) <= usize::MAX,
                total as int == total_len(self.refs_list().take(f as int)),
            decreases self.files@.len() - f,
        {
            let n = self.files[f].refs.len();
            proof {
                assert(self.refs_list()[f as int].len() == n);
                lemma_total_len_mono(self.refs_list(), f as int);
                lemma_total_len_prefix(self.refs_list(), f + 1);
            }
            total = total + n;
            f = f + 1;
        }
        assert(self.refs_list().take(self.files@.len() as int) =~= self.refs_list());
        ClutStats {
            folder_count: self.folders.len(),
            file_count: self.files.len(),
            total_data_refs: total,
            unique_patch_count: table.len(),
        }
    }
}

proof fn lemma_total_len_prefix(fs: Seq<Seq<DataRefModel>>, f: int)
    requires
        0 <= f <= fs.len(),
    ensures
        total_len(fs.take(f)) <= total_len(fs),
    decreases fs.len() - f,
{
    if f < fs.len() {
        lemma_total_len_prefix(fs, f + 1);
        lemma_total_len_mono(fs, f);
    } else {
        assert(fs.take(f) =~= fs);
    }
}

proof fn lemma_total_len_mono(fs: Seq<Seq<DataRefModel>>, f: int)
    requires
        0 <= f < fs.len(),
    ensures
        total_len(fs.take(f + 1)) == total_len(fs.take(f)) + fs[f].len(),
        total_len(fs.take(f + 1)) >= total_len(fs.take(f)),
{
    assert(fs.take(f + 1).drop_last() =~= fs.take(f));
}

impl ClutBuilder {
    /// The header.
    pub fn header_ref(&self) -> (h: &Header)
        ensures
            *h == self.head(),
    {
        &self.header
    }

    /// The folder names, sorted.
    pub fn folder_names(&self) -> (v: &Vec<String>)
        requires
            self.wf(),
        ensures
            str_views(v@) == self.folder_list(),
            sorted_names(str_views(v@)),
            name_set(v@) == self@.folders,
    {
        &self.folders
    }

    /// The files, sorted by path.
    pub fn file_entries(&self) -> (v: &Vec<FileEntry>)
        requires
            self.wf(),
        ensures
            file_paths(v@) == self.path_list(),
            sorted_names(file_paths(v@)),
            file_map(v@) == self@.files,
            forall|i: int| 0 <= i < v@.len() ==> models((#[trigger] v@[i]).refs@) == self.refs_list()[i],
    {
        &self.files
    }
}

} // verus!
