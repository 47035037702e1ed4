use vstd::prelude::*;

use crate::clut::PlatformId;
use crate::text::{chars_of, decimal, push_decimal, push_str, string_of};

verus! {

/// A chunk's kind as stored in a LUT. The numbering is part of the format.
#[derive(Debug, Clone, Copy, PartialEq, Eq, Structural)]
pub enum ChunkType {
    AddDirectory,
    ApplyFreeSpace,
    ApplyOption,
    DeleteDirectory,
    EndOfFile,
    FileHeader,
    Xxxx,
    SqpkAddData,
    SqpkDeleteData,
    SqpkExpandData,
    SqpkHeader,
    SqpkIndex,
    SqpkPatchInfo,
    SqpkTargetInfo,
    SqpkFileAdd,
    SqpkFileDelExpac,
    SqpkFileDelete,
    SqpkFileMkdir,
}

/// The byte a LUT stores for each chunk kind.
pub open spec fn chunk_type_code(t: ChunkType) -> u8 {
    match t {
        ChunkType::AddDirectory => 0,
        ChunkType::ApplyFreeSpace => 1,
        ChunkType::ApplyOption => 2,
        ChunkType::DeleteDirectory => 3,
        ChunkType::EndOfFile => 4,
        ChunkType::FileHeader => 5,
        ChunkType::Xxxx => 6,
        ChunkType::SqpkAddData => 32,
        ChunkType::SqpkDeleteData => 33,
        ChunkType::SqpkExpandData => 34,
        ChunkType::SqpkHeader => 35,
        ChunkType::SqpkIndex => 36,
        ChunkType::SqpkPatchInfo => 37,
        ChunkType::SqpkTargetInfo => 38,
        ChunkType::SqpkFileAdd => 64,
        ChunkType::SqpkFileDelExpac => 65,
        ChunkType::SqpkFileDelete => 66,
        ChunkType::SqpkFileMkdir => 67,
    }
}

/// The chunk kind a LUT byte names, if any.
pub open spec fn chunk_type_of(b: u8) -> Option<ChunkType> {
    if b == 0 {
        Some(ChunkType::AddDirectory)
    } else if b == 1 {
        Some(ChunkType::ApplyFreeSpace)
    } else if b == 2 {
        Some(ChunkType::ApplyOption)
    } else if b == 3 {
        Some(ChunkType::DeleteDirectory)
    } else if b == 4 {
        Some(ChunkType::EndOfFile)
    } else if b == 5 {
        Some(ChunkType::FileHeader)
    } else if b == 6 {
        Some(ChunkType::Xxxx)
    } else if b == 32 {
        Some(ChunkType::SqpkAddData)
    } else if b == 33 {
        Some(ChunkType::SqpkDeleteData)
    } else if b == 34 {
        Some(ChunkType::SqpkExpandData)
    } else if b == 35 {
        Some(ChunkType::SqpkHeader)
    } else if b == 36 {
        Some(ChunkType::SqpkIndex)
    } else if b == 37 {
        Some(ChunkType::SqpkPatchInfo)
    } else if b == 38 {
        Some(ChunkType::SqpkTargetInfo)
    } else if b == 64 {
        Some(ChunkType::SqpkFileAdd)
    } else if b == 65 {
        Some(ChunkType::SqpkFileDelExpac)
    } else if b == 66 {
        Some(ChunkType::SqpkFileDelete)
    } else if b == 67 {
        Some(ChunkType::SqpkFileMkdir)
    } else {
        None
    }
}

/// Every kind's byte names it back.
pub proof fn lemma_chunk_type_code(t: ChunkType)
    ensures
        chunk_type_of(chunk_type_code(t)) == Some(t),
{
}

impl ChunkType {
    /// The byte a LUT stores for this kind.
    pub fn code(self) -> (b: u8)
        ensures
            b == chunk_type_code(self),
    {
        match self {
            ChunkType::AddDirectory => 0,
            ChunkType::ApplyFreeSpace => 1,
            ChunkType::ApplyOption => 2,
            ChunkType::DeleteDirectory => 3,
            ChunkType::EndOfFile => 4,
            ChunkType::FileHeader => 5,
            ChunkType::Xxxx => 6,
            ChunkType::SqpkAddData => 32,
            ChunkType::SqpkDeleteData => 33,
            ChunkType::SqpkExpandData => 34,
            ChunkType::SqpkHeader => 35,
            ChunkType::SqpkIndex => 36,
            ChunkType::SqpkPatchInfo => 37,
            ChunkType::SqpkTargetInfo => 38,
            ChunkType::SqpkFileAdd => 64,
            ChunkType::SqpkFileDelExpac => 65,
            ChunkType::SqpkFileDelete => 66,
            ChunkType::SqpkFileMkdir => 67,
        }
    }

    /// The kind a LUT byte names, if any.
    pub fn from_code(b: u8) -> (t: Option<ChunkType>)
        ensures
            t == chunk_type_of(b),
    {
        if b == 0 {
            Some(ChunkType::AddDirectory)
        } else if b == 1 {
            Some(ChunkType::ApplyFreeSpace)
        } else if b == 2 {
            Some(ChunkType::ApplyOption)
        } else if b == 3 {
            Some(ChunkType::DeleteDirectory)
        } else if b == 4 {
            Some(ChunkType::EndOfFile)
        } else if b == 5 {
            Some(ChunkType::FileHeader)
        } else if b == 6 {
            Some(ChunkType::Xxxx)
        } else if b == 32 {
            Some(ChunkType::SqpkAddData)
        } else if b == 33 {
            Some(ChunkType::SqpkDeleteData)
        } else if b == 34 {
            Some(ChunkType::SqpkExpandData)
        } else if b == 35 {
            Some(ChunkType::SqpkHeader)
        } else if b == 36 {
            Some(ChunkType::SqpkIndex)
        } else if b == 37 {
            Some(ChunkType::SqpkPatchInfo)
        } else if b == 38 {
            Some(ChunkType::SqpkTargetInfo)
        } else if b == 64 {
            Some(ChunkType::SqpkFileAdd)
        } else if b == 65 {
            Some(ChunkType::SqpkFileDelExpac)
        } else if b == 66 {
            Some(ChunkType::SqpkFileDelete)
        } else if b == 67 {
            Some(ChunkType::SqpkFileMkdir)
        } else {
            None
        }
    }
}

/// The size an uncompressed `SqpkFileAdd` block reports as its compressed size.
pub const UNCOMPRESSED_SENTINEL: i32 = 32000;

/// The header of a `SqpkFileAdd` data block.
#[derive(Debug, Clone, Copy, PartialEq, Eq, Structural)]
pub struct CompressedBlock {
    pub compressed_size: i32,
    pub data_size: i32,
    /// Absolute offset of the block's data within the patch file.
    pub patch_offset: i64,
}

impl CompressedBlock {
    /// A sentinel rather than a flag: an uncompressed block reports this exact size.
    pub fn is_compressed(&self) -> (b: bool)
        ensures
            b == (self.compressed_size != UNCOMPRESSED_SENTINEL),
    {
        self.compressed_size != UNCOMPRESSED_SENTINEL
    }
}

/// The `FHDR` chunk.
#[derive(Debug, Clone, Default, PartialEq, Eq)]
pub struct FileHeader {
    pub version: u8,
    pub patch_type: String,
    pub entry_files: u32,
    pub add_directories: u32,
    pub delete_directories: u32,
    pub delete_data_size: i64,
    pub minor_version: u32,
    pub repository_name: u32,
    pub commands: u32,
    pub sqpk_add_commands: u32,
    pub sqpk_delete_commands: u32,
    pub sqpk_expand_commands: u32,
    pub sqpk_header_commands: u32,
    pub sqpk_file_commands: u32,
}

/// One ZiPatch instruction, holding exactly what a LUT preserves: for data-bearing
/// chunks that is the target path and the offsets of the bytes inside the patch, never
/// the bytes.
#[derive(Debug, Clone, PartialEq, Eq)]
pub enum Chunk {
    FileHeader(FileHeader),
    ApplyOption { kind: u8, value: bool },
    ApplyFreeSpace { unknown_a: i64, unknown_b: i64 },
    AddDirectory(String),
    DeleteDirectory(String),
    EndOfFile,
    Xxxx,
    SqpkAddData {
        target: String,
        block_offset: i64,
        block_number: i64,
        block_delete_number: i64,
        patch_offset: i64,
    },
    SqpkDeleteData { target: String, block_offset: i64, block_number: i64 },
    SqpkExpandData { target: String, block_offset: i64, block_number: i64 },
    SqpkHeader { target: String, header_kind: u8, patch_offset: i64 },
    SqpkIndex,
    SqpkPatchInfo { status: u8, version: u8, install_size: u64 },
    SqpkTargetInfo {
        platform: u16,
        region: i16,
        is_debug: bool,
        version: u16,
        deleted_data_size: u64,
        seek_count: u64,
    },
    SqpkFileAdd { target: String, file_offset: i64, blocks: Vec<CompressedBlock> },
    SqpkFileDelExpac { expansion_id: u16 },
    SqpkFileDelete { target: String },
    SqpkFileMkdir { target: String },
}

/// The file header as plain values.
pub ghost struct FileHeaderModel {
    pub version: u8,
    pub patch_type: Seq<char>,
    pub entry_files: u32,
    pub add_directories: u32,
    pub delete_directories: u32,
    pub delete_data_size: i64,
    pub minor_version: u32,
    pub repository_name: u32,
    pub commands: u32,
    pub sqpk_add_commands: u32,
    pub sqpk_delete_commands: u32,
    pub sqpk_expand_commands: u32,
    pub sqpk_header_commands: u32,
    pub sqpk_file_commands: u32,
}

impl View for FileHeader {
    type V = FileHeaderModel;

    open spec fn view(&self) -> FileHeaderModel {
        FileHeaderModel {
            version: self.version,
            patch_type: self.patch_type@,
            entry_files: self.entry_files,
            add_directories: self.add_directories,
            delete_directories: self.delete_directories,
            delete_data_size: self.delete_data_size,
            minor_version: self.minor_version,
            repository_name: self.repository_name,
            commands: self.commands,
            sqpk_add_commands: self.sqpk_add_commands,
            sqpk_delete_commands: self.sqpk_delete_commands,
            sqpk_expand_commands: self.sqpk_expand_commands,
            sqpk_header_commands: self.sqpk_header_commands,
            sqpk_file_commands: self.sqpk_file_commands,
        }
    }
}

/// A chunk as plain values.
pub ghost enum ChunkModel {
    FileHeader(FileHeaderModel),
    ApplyOption { kind: u8, value: bool },
    ApplyFreeSpace { unknown_a: i64, unknown_b: i64 },
    AddDirectory(Seq<char>),
    DeleteDirectory(Seq<char>),
    EndOfFile,
    Xxxx,
    SqpkAddData {
        target: Seq<char>,
        block_offset: i64,
        block_number: i64,
        block_delete_number: i64,
        patch_offset: i64,
    },
    SqpkDeleteData { target: Seq<char>, block_offset: i64, block_number: i64 },
    SqpkExpandData { target: Seq<char>, block_offset: i64, block_number: i64 },
    SqpkHeader { target: Seq<char>, header_kind: u8, patch_offset: i64 },
    SqpkIndex,
    SqpkPatchInfo { status: u8, version: u8, install_size: u64 },
    SqpkTargetInfo {
        platform: u16,
        region: i16,
        is_debug: bool,
        version: u16,
        deleted_data_size: u64,
        seek_count: u64,
    },
    SqpkFileAdd { target: Seq<char>, file_offset: i64, blocks: Seq<CompressedBlock> },
    SqpkFileDelExpac { expansion_id: u16 },
    SqpkFileDelete { target: Seq<char> },
    SqpkFileMkdir { target: Seq<char> },
}

impl View for Chunk {
    type V = ChunkModel;

    open spec fn view(&self) -> ChunkModel {
        match self {
            Chunk::FileHeader(h) => ChunkModel::FileHeader(h@),
            Chunk::ApplyOption { kind, value } => ChunkModel::ApplyOption { kind: *kind, value: *value },
            Chunk::ApplyFreeSpace { unknown_a, unknown_b } => ChunkModel::ApplyFreeSpace {
                unknown_a: *unknown_a,
                unknown_b: *unknown_b,
            },
            Chunk::AddDirectory(d) => ChunkModel::AddDirectory(d@),
            Chunk::DeleteDirectory(d) => ChunkModel::DeleteDirectory(d@),
            Chunk::EndOfFile => ChunkModel::EndOfFile,
            Chunk::Xxxx => ChunkModel::Xxxx,
            Chunk::SqpkAddData { target, block_offset, block_number, block_delete_number, patch_offset } => {
                ChunkModel::SqpkAddData {
                    target: target@,
                    block_offset: *block_offset,
                    block_number: *block_number,
                    block_delete_number: *block_delete_number,
                    patch_offset: *patch_offset,
                }
            },
            Chunk::SqpkDeleteData { target, block_offset, block_number } => ChunkModel::SqpkDeleteData {
                target: target@,
                block_offset: *block_offset,
                block_number: *block_number,
            },
            Chunk::SqpkExpandData { target, block_offset, block_number } => ChunkModel::SqpkExpandData {
                target: target@,
                block_offset: *block_offset,
                block_number: *block_number,
            },
            Chunk::SqpkHeader { target, header_kind, patch_offset } => ChunkModel::SqpkHeader {
                target: target@,
                header_kind: *header_kind,
                patch_offset: *patch_offset,
            },
            Chunk::SqpkIndex => ChunkModel::SqpkIndex,
            Chunk::SqpkPatchInfo { status, version, install_size } => ChunkModel::SqpkPatchInfo {
                status: *status,
                version: *version,
                install_size: *install_size,
            },
            Chunk::SqpkTargetInfo { platform, region, is_debug, version, deleted_data_size, seek_count } => {
                ChunkModel::SqpkTargetInfo {
                    platform: *platform,
                    region: *region,
                    is_debug: *is_debug,
                    version: *version,
                    deleted_data_size: *deleted_data_size,
                    seek_count: *seek_count,
                }
            },
            Chunk::SqpkFileAdd { target, file_offset, blocks } => ChunkModel::SqpkFileAdd {
                target: target@,
                file_offset: *file_offset,
                blocks: blocks@,
            },
            Chunk::SqpkFileDelExpac { expansion_id } => ChunkModel::SqpkFileDelExpac { expansion_id: *expansion_id },
            Chunk::SqpkFileDelete { target } => ChunkModel::SqpkFileDelete { target: target@ },
            Chunk::SqpkFileMkdir { target } => ChunkModel::SqpkFileMkdir { target: target@ },
        }
    }
}

/// An sqpack file header is this many bytes.
pub const HEADER_SIZE: i64 = 1024;

/// The header kind of a version header, which sits at the start of its file.
pub const VERSION_HEADER: u8 = 86;

impl Chunk {
    pub fn is_version_header(header_kind: u8) -> (b: bool)
        ensures
            b == (header_kind == VERSION_HEADER),
    {
        header_kind == VERSION_HEADER
    }
}

/// The placeholder a target path carries where the platform's name belongs.
pub open spec fn placeholder() -> Seq<char> {
    seq!['%', 'P', 'L', 'A', 'C', 'E', 'H', 'O', 'L', 'D', 'E', 'R', '%']
}

/// The name of a platform as it appears in paths.
pub open spec fn platform_text(platform: PlatformId) -> Seq<char> {
    match platform {
        PlatformId::Win32 => seq!['w', 'i', 'n', '3', '2'],
        PlatformId::Ps3 => seq!['p', 's', '3'],
        PlatformId::Ps4 => seq!['p', 's', '4'],
        PlatformId::Ps5 => seq!['p', 's', '5'],
        PlatformId::Lys => seq!['l', 'y', 's'],
        PlatformId::Placeholder => placeholder(),
        PlatformId::Unknown => seq!['u', 'n', 'k', 'n', 'o', 'w', 'n'],
    }
}

pub fn platform_name(platform: PlatformId) -> (s: &'static str)
    ensures
        s@ == platform_text(platform),
{
    match platform {
        PlatformId::Win32 => {
            proof {
                reveal_strlit("win32");
            }
            "win32"
        },
        PlatformId::Ps3 => {
            proof {
                reveal_strlit("ps3");
            }
            "ps3"
        },
        PlatformId::Ps4 => {
            proof {
                reveal_strlit("ps4");
            }
            "ps4"
        },
        PlatformId::Ps5 => {
            proof {
                reveal_strlit("ps5");
            }
            "ps5"
        },
        PlatformId::Lys => {
            proof {
                reveal_strlit("lys");
            }
            "lys"
        },
        PlatformId::Placeholder => {
            proof {
                reveal_strlit("%PLACEHOLDER%");
            }
            "%PLACEHOLDER%"
        },
        PlatformId::Unknown => {
            proof {
                reveal_strlit("unknown");
            }
            "unknown"
        },
    }
}

/// `s` with every `from` character turned into `to`.
pub open spec fn map_char(s: Seq<char>, from: char, to: char) -> Seq<char> {
    Seq::new(s.len(), |i: int| if s[i] == from { to } else { s[i] })
}

/// `s` without the run of `c` it starts with.
pub open spec fn trim_start(s: Seq<char>, c: char) -> Seq<char>
    decreases s.len(),
{
    if s.len() > 0 && s[0] == c {
        trim_start(s.drop_first(), c)
    } else {
        s
    }
}

/// `s` without the run of `c` it ends with.
pub open spec fn trim_end(s: Seq<char>, c: char) -> Seq<char>
    decreases s.len(),
{
    if s.len() > 0 && s.last() == c {
        trim_end(s.drop_last(), c)
    } else {
        s
    }
}

/// A path with forward slashes and no slash at either end.
pub open spec fn normalized(path: Seq<char>) -> Seq<char> {
    trim_end(trim_start(map_char(path, '\\', '/'), '/'), '/')
}

proof fn lemma_trim_start_facts(s: Seq<char>, c: char) -> (k: int)
    ensures
        0 <= k <= s.len(),
        trim_start(s, c) == s.skip(k),
        trim_start(s, c).len() > 0 ==> trim_start(s, c)[0] != c,
    decreases s.len(),
{
    if s.len() > 0 && s[0] == c {
        let k = lemma_trim_start_facts(s.drop_first(), c);
        assert(s.drop_first().skip(k) =~= s.skip(k + 1));
        k + 1
    } else {
        assert(s.skip(0) =~= s);
        0
    }
}

pub proof fn lemma_trim_end_facts(s: Seq<char>, c: char) -> (k: int)
    ensures
        0 <= k <= s.len(),
        trim_end(s, c) == s.take(k),
        trim_end(s, c).len() > 0 ==> trim_end(s, c).last() != c,
        forall|i: int| k <= i < s.len() ==> #[trigger] s[i] == c,
    decreases s.len(),
{
    if s.len() > 0 && s.last() == c {
        let k = lemma_trim_end_facts(s.drop_last(), c);
        assert(s.drop_last().take(k) =~= s.take(k));
        assert forall|i: int| k <= i < s.len() implies #[trigger] s[i] == c by {
            if i < s.len() - 1 {
                assert(s[i] == s.drop_last()[i]);
            }
        }
        k
    } else {
        assert(s.take(s.len() as int) =~= s);
        s.len() as int
    }
}

/// A normalized path holds no backslash and no slash at either end, and normalizing it
/// again changes nothing.
pub proof fn lemma_normalized_idempotent(path: Seq<char>)
    ensures
        forall|i: int| 0 <= i < normalized(path).len() ==> #[trigger] normalized(path)[i] != '\\',
        normalized(path).len() > 0 ==> normalized(path)[0] != '/' && normalized(path).last() != '/',
        normalized(normalized(path)) == normalized(path),
{
    let m = map_char(path, '\\', '/');
    let a = lemma_trim_start_facts(m, '/');
    let ts = trim_start(m, '/');
    let b = lemma_trim_end_facts(ts, '/');
    let t = normalized(path);
    assert(t == ts.take(b));
    assert forall|i: int| 0 <= i < t.len() implies #[trigger] t[i] != '\\' by {
        assert(t[i] == m[a + i]);
    }
    if t.len() > 0 {
        assert(t[0] == ts[0]);
    }
    assert(map_char(t, '\\', '/') =~= t);
    assert(trim_start(t, '/') == t);
    assert(trim_end(t, '/') == t);
}

/// `s` with each occurrence of `pat`, found left to right and not overlapping, replaced by
/// `rep`, as `str::replace` does.
pub open spec fn replace_all(s: Seq<char>, pat: Seq<char>, rep: Seq<char>) -> Seq<char>
    decreases s.len(),
{
    if pat.len() == 0 || s.len() < pat.len() {
        s
    } else if s.take(pat.len() as int) == pat {
        rep + replace_all(s.skip(pat.len() as int), pat, rep)
    } else {
        seq![s[0]] + replace_all(s.drop_first(), pat, rep)
    }
}

/// A target path with the platform named and the path normalized.
pub open spec fn resolved(path: Seq<char>, platform: PlatformId) -> Seq<char> {
    normalized(replace_all(path, placeholder(), platform_text(platform)))
}

/// The folder of an expansion: `ffxiv` for the base game, `ex<n>` after it.
pub open spec fn expansion_text(expansion_id: u16) -> Seq<char> {
    if expansion_id == 0 {
        seq!['f', 'f', 'x', 'i', 'v']
    } else {
        seq!['e', 'x'] + decimal(expansion_id as nat)
    }
}

fn trimmed_bounds(cs: &Vec<char>, c: char) -> (r: (usize, usize))
    ensures
        r.0 <= r.1 <= cs@.len(),
        cs@.subrange(r.0 as int, r.1 as int) == trim_end(trim_start(cs@, c), c),
{
    let mut lo: usize = 0;
    assert(cs@.subrange(0, cs@.len() as int) =~= cs@);
    while lo < cs.len() && cs[lo] == c
        invariant
            lo <= cs@.len(),
            trim_start(cs@, c) == trim_start(cs@.subrange(lo as int, cs@.len() as int), c),
        decreases cs@.len() - lo,
    {
        assert(cs@.subrange(lo as int, cs@.len() as int).drop_first() =~= cs@.subrange(lo + 1, cs@.len() as int));
        lo = lo + 1;
    }
    let ghost started = cs@.subrange(lo as int, cs@.len() as int);
    assert(trim_start(started, c) == started);
    let mut hi: usize = cs.len();
    while hi > lo && cs[hi - 1] == c
        invariant
            lo <= hi <= cs@.len(),
            started == cs@.subrange(lo as int, cs@.len() as int),
            trim_end(started, c) == trim_end(cs@.subrange(lo as int, hi as int), c),
        decreases hi - lo,
    {
        assert(cs@.subrange(lo as int, hi as int).drop_last() =~= cs@.subrange(lo as int, hi - 1));
        hi = hi - 1;
    }
    (lo, hi)
}

pub fn normalize_path(path: &str) -> (s: String)
    ensures
        s@ == normalized(path@),
{
    let cs = chars_of(path);
    let mut mapped: Vec<char> = Vec::new();
    let mut i: usize = 0;
    while i < cs.len()
        invariant
            cs@ == path@,
            i <= cs@.len(),
            mapped@ == map_char(cs@.subrange(0, i as int), '\\', '/'),
        decreases cs@.len() - i,
    {
        let c = cs[i];
        mapped.push(if c == '\\' { '/' } else { c });
        i = i + 1;
        assert(mapped@ =~= map_char(cs@.subrange(0, i as int), '\\', '/'));
    }
    assert(cs@.subrange(0, cs@.len() as int) =~= cs@);
    let (lo, hi) = trimmed_bounds(&mapped, '/');
    let kept = vstd::slice::slice_subrange(mapped.as_slice(), lo, hi);
    string_of(kept)
}

/// Whether `pat` occurs in `s` at `at`.
pub(crate) fn matches_at(s: &Vec<char>, at: usize, pat: &Vec<char>) -> (b: bool)
    requires
        at <= s@.len(),
    ensures
        b == (at + pat@.len() <= s@.len() && s@.subrange(at as int, at + pat@.len()) == pat@),
{
    if pat.len() > s.len() - at {
        return false;
    }
    let mut k: usize = 0;
    let n = s.len();
    while k < pat.len()
        invariant
            n == s@.len(),
            at <= s@.len(),
            at + pat@.len() <= s@.len(),
            k <= pat@.len(),
            s@.subrange(at as int, at + k) == pat@.subrange(0, k as int),
        decreases pat@.len() - k,
    {
        let idx = at + k;
        if s[idx] != pat[k] {
            assert(s@.subrange(at as int, at + pat@.len())[k as int] != pat@[k as int]);
            return false;
        }
        assert(s@.subrange(at as int, at + k + 1) =~= s@.subrange(at as int, at + k).push(s@[at + k]));
        assert(pat@.subrange(0, k + 1) =~= pat@.subrange(0, k as int).push(pat@[k as int]));
        k = k + 1;
    }
    assert(pat@.subrange(0, pat@.len() as int) =~= pat@);
    true
}

/// Every occurrence of `pat` in `s` replaced by `rep`, as `str::replace` does.
pub fn replace_text(s: &str, pat: &str, rep: &str) -> (out: String)
    ensures
        out@ == replace_all(s@, pat@, rep@),
{
    let cs = chars_of(s);
    let ps = chars_of(pat);
    let mut out = String::new();
    let mut i: usize = 0;
    if ps.len() == 0 {
        return string_of(cs.as_slice());
    }
    assert(cs@.skip(0) =~= cs@);
    assert(out@ + replace_all(cs@, ps@, rep@) =~= replace_all(cs@, ps@, rep@));
    while i < cs.len()
        invariant
            cs@ == s@,
            ps@ == pat@,
            ps@.len() > 0,
            i <= cs@.len(),
            out@ + replace_all(cs@.skip(i as int), ps@, rep@) == replace_all(cs@, ps@, rep@),
        decreases cs@.len() - i,
    {
        let ghost rest = cs@.skip(i as int);
        if matches_at(&cs, i, &ps) {
            proof {
                assert(rest.take(ps@.len() as int) =~= cs@.subrange(i as int, i + ps@.len()));
                assert(rest.skip(ps@.len() as int) =~= cs@.skip(i + ps@.len()));
            }
            push_str(&mut out, rep);
            i = i + ps.len();
        } else {
            proof {
                if rest.len() >= ps@.len() {
                    assert(rest.take(ps@.len() as int) =~= cs@.subrange(i as int, i + ps@.len()));
                }
                assert(rest.drop_first() =~= cs@.skip(i + 1));
                assert(rest[0] == cs@[i as int]);
            }
            out.push(cs[i]);
            i = i + 1;
        }
        proof {
            assert(out@ + replace_all(cs@.skip(i as int), ps@, rep@) =~= replace_all(cs@, ps@, rep@));
        }
    }
    assert(cs@.skip(cs@.len() as int) =~= Seq::<char>::empty());
    assert(out@ =~= out@ + Seq::<char>::empty());
    out
}

pub fn resolve_platform(path: &str, platform: PlatformId) -> (s: String)
    ensures
        s@ == resolved(path@, platform),
{
    proof {
        reveal_strlit("%PLACEHOLDER%");
        assert("%PLACEHOLDER%"@ =~= placeholder());
    }
    let replaced = replace_text(path, "%PLACEHOLDER%", platform_name(platform));
    normalize_path(replaced.as_str())
}

pub fn expansion_folder(expansion_id: u16) -> (s: String)
    ensures
        s@ == expansion_text(expansion_id),
{
    if expansion_id == 0 {
        proof {
            reveal_strlit("ffxiv");
        }
        let mut s = String::new();
        push_str(&mut s, "ffxiv");
        s
    } else {
        let mut s = String::new();
        s.push('e');
        s.push('x');
        push_decimal(&mut s, expansion_id as u64);
        s
    }
}

} // verus!
