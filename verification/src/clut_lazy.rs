use vstd::prelude::*;

use crate::bytes::{read_var_i64, read_var_i64_spec, read_var_u32, read_var_u32_spec, DecodeError};
use crate::clut::{CompressType, Header, Version};
use crate::clut_file::{
    dec_versions, decompress_payload, inflate_chunk, payload_spec, read_count, read_count_spec,
    read_header, read_header_spec, read_versions, ClutError, HeaderModel,
};
use crate::clut_index::{read_index_spec, BlockModel, Block, ChunkSpan, Checkpoint, Index, checkpoint_count};
use crate::codec::inflate;
use crate::bytes::string_fits;
use crate::clut_file::{header_bytes, header_fits, read_clut_spec};
use crate::clut_index::{index_bytes, section_bytes, IndexModel};
use crate::clut_rewrite::{buffers, group_blocks, grouped, pack, pack_chunks, raw_total, sorted_folders, strings_chunk, write_strings};
use crate::names::sorted_names;
use crate::bytes::push_bytes;
use crate::file_data::{file_data_bytes, versions_listed};
use crate::version::version_text;
use crate::data_ref::{DataRef, DataRefModel};
use crate::file_data::{add_signed, add_signed_exec, dec_struct, dec_struct_exec, ref_models, struct_model, table_models};
use crate::lut::{dec_strings, read_names};
use crate::names::str_views;
use crate::version::{PatchVersion, VersionModel};

verus! {

/// References between decode checkpoints.
pub const STRIDE: u32 = 4096;

/// The version table, folders and file names at the start of a payload, with where they end.
pub open spec fn read_strings_spec(d: Seq<u8>) -> Result<(Seq<VersionModel>, Seq<Seq<char>>, Seq<Seq<char>>, int), ClutError> {
    match read_count_spec(d, 0) {
        Err(e) => Err(e),
        Ok((nv, p1)) => match dec_versions(d, p1, nv as nat) {
            Err(e) => Err(e),
            Ok((table, p2)) => match read_count_spec(d, p2) {
                Err(e) => Err(e),
                Ok((nf, p3)) => match dec_strings(d, p3, nf as nat) {
                    Err(e) => Err(ClutError::Decode(e)),
                    Ok((folders, p4)) => match read_count_spec(d, p4) {
                        Err(e) => Err(e),
                        Ok((np, p5)) => match dec_strings(d, p5, np as nat) {
                            Err(e) => Err(ClutError::Decode(e)),
                            Ok((names, p6)) => Ok((table, folders, names, p6)),
                        },
                    },
                },
            },
        },
    }
}

/// The version table, folders and file names at the start of a payload.
pub fn read_strings(d: &[u8]) -> (r: Result<(Vec<PatchVersion>, Vec<String>, Vec<String>, usize), ClutError>)
    ensures
        match r {
            Ok((t, f, n, q)) => read_strings_spec(d@) == Ok::<
                (Seq<VersionModel>, Seq<Seq<char>>, Seq<Seq<char>>, int),
                ClutError,
            >((table_models(t@), str_views(f@), str_views(n@), q as int)),
            Err(e) => read_strings_spec(d@) == Err::<
                (Seq<VersionModel>, Seq<Seq<char>>, Seq<Seq<char>>, int),
                ClutError,
            >(e),
        },
{
    let (nv, p1) = match read_count(d, 0) {
        Ok(x) => x,
        Err(e) => {
            return Err(e);
        },
    };
    let (table, p2) = match read_versions(d, p1, nv as usize) {
        Ok(x) => x,
        Err(e) => {
            return Err(e);
        },
    };
    let (nf, p3) = match read_count(d, p2) {
        Ok(x) => x,
        Err(e) => {
            return Err(e);
        },
    };
    let (folders, p4) = match read_names(d, p3, nf) {
        Ok(x) => x,
        Err(e) => {
            return Err(ClutError::Decode(e));
        },
    };
    let (np, p5) = match read_count(d, p4) {
        Ok(x) => x,
        Err(e) => {
            return Err(e);
        },
    };
    let (names, p6) = match read_names(d, p5, np) {
        Ok(x) => x,
        Err(e) => {
            return Err(ClutError::Decode(e));
        },
    };
    Ok((table, folders, names, p6))
}

/// Where a lazily read CLUT keeps its references.
#[derive(Debug)]
pub enum Payload {
    /// A payload with no chunk table, inflated whole; its blocks address it as one chunk.
    Whole(Vec<u8>),
    /// The packed chunks and their table; a chunk is inflated when a read needs it.
    Chunked { compressed: Vec<u8>, chunks: Vec<ChunkSpan> },
}

/// A payload as plain values.
pub ghost enum PayloadModel {
    Whole(Seq<u8>),
    Chunked(Seq<u8>, Seq<ChunkSpan>),
}

impl View for Payload {
    type V = PayloadModel;

    open spec fn view(&self) -> PayloadModel {
        match self {
            Payload::Whole(b) => PayloadModel::Whole(b@),
            Payload::Chunked { compressed, chunks } => PayloadModel::Chunked(compressed@, chunks@),
        }
    }
}

/// A CLUT whose references are decoded only when a read asks for a file.
#[derive(Debug)]
pub struct LazyClut {
    pub header: Header,
    pub folders: Vec<String>,
    versions: Vec<PatchVersion>,
    stride: u32,
    /// Payload order, which the index section is positional against.
    files: Vec<(String, Block)>,
    payload: Payload,
}

/// A lazily read CLUT as plain values.
pub ghost struct LazyModel {
    pub header: HeaderModel,
    pub folders: Seq<Seq<char>>,
    pub versions: Seq<VersionModel>,
    pub stride: u32,
    pub files: Seq<(Seq<char>, BlockModel)>,
    pub payload: PayloadModel,
}

/// Each file's name and block.
pub open spec fn file_models(files: Seq<(String, Block)>) -> Seq<(Seq<char>, BlockModel)> {
    Seq::new(files.len(), |i: int| (files[i].0@, files[i].1@))
}

impl View for LazyClut {
    type V = LazyModel;

    closed spec fn view(&self) -> LazyModel {
        LazyModel {
            header: self.header@,
            folders: str_views(self.folders@),
            versions: table_models(self.versions@),
            stride: self.stride,
            files: file_models(self.files@),
            payload: self.payload@,
        }
    }
}

/// Whether a block can be decoded: it carries the checkpoints its references need.
pub open spec fn block_wf(b: BlockModel, stride: u32) -> bool {
    b.checkpoints.len() == checkpoint_count(b.ref_count, stride)
}

/// Whether the CLUT can be read from: a stride other than zero and well-formed blocks.
pub open spec fn lazy_wf(m: LazyModel) -> bool {
    &&& m.stride > 0
    &&& forall|i: int| 0 <= i < m.files.len() ==> block_wf(#[trigger] m.files[i].1, m.stride)
}

/// Where `path` is listed; a name listed twice is found at its last listing, as a map
/// built in payload order keeps it.
pub open spec fn file_index(files: Seq<(Seq<char>, BlockModel)>, path: Seq<char>) -> int
    decreases files.len(),
{
    if files.len() == 0 {
        -1
    } else if files.last().0 == path {
        files.len() - 1
    } else {
        file_index(files.drop_last(), path)
    }
}

pub(crate) proof fn lemma_file_index(files: Seq<(Seq<char>, BlockModel)>, path: Seq<char>)
    ensures
        -1 <= file_index(files, path) < files.len(),
        file_index(files, path) >= 0 ==> files[file_index(files, path)].0 == path,
        file_index(files, path) < 0 ==> forall|j: int| 0 <= j < files.len() ==> (#[trigger] files[j]).0 != path,
    decreases files.len(),
{
    if files.len() > 0 && files.last().0 != path {
        lemma_file_index(files.drop_last(), path);
        if file_index(files, path) < 0 {
            assert forall|j: int| 0 <= j < files.len() implies (#[trigger] files[j]).0 != path by {
                if j < files.len() - 1 {
                    assert(files[j] == files.drop_last()[j]);
                }
            }
        }
    }
}

/// The bytes of the chunk numbered `c`: the whole payload, or that chunk inflated.
pub open spec fn chunk_spec(kind: CompressType, p: PayloadModel, c: u32) -> Result<Seq<u8>, ClutError> {
    match p {
        PayloadModel::Whole(b) => Ok(b),
        PayloadModel::Chunked(packed, cs) => if c >= cs.len() {
            Err(ClutError::ChunkOutOfRange)
        } else {
            inflate_chunk(kind, packed, cs[c as int])
        },
    }
}

/// `a + b`, held at the largest `u64`.
pub open spec fn sat_add(a: u64, b: u32) -> int {
    if a + b > u64::MAX {
        u64::MAX as int
    } else {
        a + b
    }
}

/// The references of a block that overlap `[start, end)`, decoded from one checkpoint on:
/// each step reads a structure, then an offset delta; where offsets only grow, the first
/// offset at or past `end` ends the walk; otherwise the length is read and the reference
/// kept if it overlaps the window.
#[verifier::opaque]
pub open spec fn decode_window(
    d: Seq<u8>,
    table: Seq<VersionModel>,
    ascending: bool,
    start: u64,
    end: u64,
    ps: int,
    po: int,
    pl: int,
    t: u64,
    off: u64,
    n: nat,
) -> Result<Seq<DataRefModel>, ClutError>
    decreases n,
{
    if n == 0 {
        Ok(Seq::empty())
    } else {
        match dec_struct(d, ps, table, t) {
            Err(e) => Err(e),
            Ok((r, ps2, t2)) => match read_var_i64_spec(d, po) {
                Err(e) => Err(ClutError::Decode(e)),
                Ok((delta, po2)) => match add_signed(off, delta) {
                    None => Err(ClutError::OffsetOverflow),
                    Some(o) => if ascending && o >= end {
                        Ok(Seq::empty())
                    } else {
                        match read_var_u32_spec(d, pl) {
                            Err(e) => Err(ClutError::Decode(e)),
                            Ok((len, pl2)) => match decode_window(
                                d,
                                table,
                                ascending,
                                start,
                                end,
                                ps2,
                                po2,
                                pl2,
                                t2,
                                o,
                                (n - 1) as nat,
                            ) {
                                Err(e) => Err(e),
                                Ok(rest) => Ok(
                                    if o < end && sat_add(o, len) > start {
                                        seq![DataRefModel { offset: o, length: len, ..r }] + rest
                                    } else {
                                        rest
                                    },
                                ),
                            },
                        }
                    },
                },
            },
        }
    }
}

/// How many leading checkpoints start at or before `start`.
pub open spec fn leading_at_or_before(cps: Seq<Checkpoint>, start: u64) -> int
    decreases cps.len(),
{
    if cps.len() == 0 || cps[0].file_offset > start {
        0
    } else {
        1 + leading_at_or_before(cps.drop_first(), start)
    }
}

/// The checkpoint a window decode starts from: where offsets only grow, the last of the
/// leading checkpoints at or before `start`; otherwise the first.
pub open spec fn first_checkpoint(b: BlockModel, start: u64) -> int {
    if b.ascending && leading_at_or_before(b.checkpoints, start) > 0 {
        leading_at_or_before(b.checkpoints, start) - 1
    } else {
        0
    }
}

/// The references of `path` that overlap `[start, end)`, in file order.
pub open spec fn window_spec(m: LazyModel, path: Seq<char>, start: u64, end: u64) -> Result<Seq<DataRefModel>, ClutError> {
    let i = file_index(m.files, path);
    if i < 0 {
        Err(ClutError::FileNotFound)
    } else {
        let b = m.files[i].1;
        if b.ref_count == 0 {
            Ok(Seq::empty())
        } else {
            let f = first_checkpoint(b, start);
            let cp = b.checkpoints[f];
            match chunk_spec(m.header.compression, m.payload, b.chunk) {
                Err(e) => Err(e),
                Ok(bytes) => decode_window(
                    bytes,
                    m.versions,
                    b.ascending,
                    start,
                    end,
                    cp.structs as int,
                    cp.offsets as int,
                    cp.lengths as int,
                    cp.patch_offset,
                    cp.file_offset,
                    (b.ref_count - f * m.stride) as nat,
                ),
            }
        }
    }
}

/// A CLUT's folders and each file's size, in payload order.
#[derive(Debug, Clone)]
pub struct ClutIndex {
    pub folders: Vec<String>,
    pub files: Vec<(String, u64)>,
}

proof fn lemma_before_last_checkpoint(f: int, n: u32, stride: u32)
    requires
        stride > 0,
        n > 0,
        0 <= f < checkpoint_count(n, stride),
    ensures
        f * stride < n,
{
    let q = (n + stride - 1) / stride as int;
    assert(q * stride <= n + stride - 1) by (nonlinear_arith)
        requires
            stride > 0,
            q == (n + stride - 1) / stride as int,
            n + stride - 1 >= 0,
    ;
    assert(f * stride < n) by (nonlinear_arith)
        requires
            stride > 0,
            0 <= f <= q - 1,
            q * stride <= n + stride - 1,
    ;
}

/// One step of a window decode: an error, the end of the walk, or the reference read (kept
/// where it overlaps the window) and where the regions go on.
fn window_step(
    d: &[u8],
    table: &Vec<PatchVersion>,
    ascending: bool,
    start: u64,
    end: u64,
    ps: usize,
    po: usize,
    pl: usize,
    t: u64,
    off: u64,
    n: Ghost<nat>,
) -> (r: Result<Option<(Option<DataRef>, usize, usize, usize, u64, u64)>, ClutError>)
    requires
        n@ >= 1,
    ensures
        ({
            let whole = decode_window(
                d@,
                table_models(table@),
                ascending,
                start,
                end,
                ps as int,
                po as int,
                pl as int,
                t,
                off,
                n@,
            );
            match r {
                Err(e) => whole == Err::<Seq<DataRefModel>, ClutError>(e),
                Ok(None) => whole == Ok::<Seq<DataRefModel>, ClutError>(Seq::empty()),
                Ok(Some((kept, ps2, po2, pl2, t2, o))) => whole == match decode_window(
                    d@,
                    table_models(table@),
                    ascending,
                    start,
                    end,
                    ps2 as int,
                    po2 as int,
                    pl2 as int,
                    t2,
                    o,
                    (n@ - 1) as nat,
                ) {
                    Ok(rest) => Ok::<Seq<DataRefModel>, ClutError>(
                        match kept {
                            Some(x) => seq![x@] + rest,
                            None => rest,
                        },
                    ),
                    Err(e) => Err(e),
                },
            }
        }),
{
    reveal(decode_window);
    let ((idx, kind), ps2, t2) = match dec_struct_exec(d, ps, table, t) {
        Ok(x) => x,
        Err(e) => {
            return Err(e);
        },
    };
    let (delta, po2) = match read_var_i64(d, po) {
        Ok(x) => x,
        Err(e) => {
            return Err(ClutError::Decode(e));
        },
    };
    let o = match add_signed_exec(off, delta) {
        Some(o) => o,
        None => {
            return Err(ClutError::OffsetOverflow);
        },
    };
    if ascending && o >= end {
        return Ok(None);
    }
    let (len, pl2) = match read_var_u32(d, pl) {
        Ok(x) => x,
        Err(e) => {
            return Err(ClutError::Decode(e));
        },
    };
    let reach: u64 = if o > u64::MAX - len as u64 {
        u64::MAX
    } else {
        o + len as u64
    };
    let kept = if o < end && reach > start {
        Some(DataRef::from_parts(table[idx].duplicate(), o, len, kind))
    } else {
        None
    };
    Ok(Some((kept, ps2, po2, pl2, t2, o)))
}

fn decode_window_exec(
    d: &[u8],
    table: &Vec<PatchVersion>,
    ascending: bool,
    start: u64,
    end: u64,
    ps: usize,
    po: usize,
    pl: usize,
    t: u64,
    off: u64,
    n: u32,
) -> (r: Result<Vec<DataRef>, ClutError>)
    ensures
        match r {
            Ok(v) => decode_window(
                d@,
                table_models(table@),
                ascending,
                start,
                end,
                ps as int,
                po as int,
                pl as int,
                t,
                off,
                n as nat,
            ) == Ok::<Seq<DataRefModel>, ClutError>(ref_models(v@)),
            Err(e) => decode_window(
                d@,
                table_models(table@),
                ascending,
                start,
                end,
                ps as int,
                po as int,
                pl as int,
                t,
                off,
                n as nat,
            ) == Err::<Seq<DataRefModel>, ClutError>(e),
        },
{
    let ghost tm = table_models(table@);
    let ghost whole = decode_window(d@, tm, ascending, start, end, ps as int, po as int, pl as int, t, off, n as nat);
    let mut out: Vec<DataRef> = Vec::new();
    let mut qs = ps;
    let mut qo = po;
    let mut ql = pl;
    let mut tt = t;
    let mut oo = off;
    let mut k: u32 = 0;
    proof {
        assert(ref_models(out@) + whole->Ok_0 =~= whole->Ok_0);
    }
    while k < n
        invariant
            k <= n,
            tm == table_models(table@),
            whole == decode_window(d@, tm, ascending, start, end, ps as int, po as int, pl as int, t, off, n as nat),
            whole == match decode_window(d@, tm, ascending, start, end, qs as int, qo as int, ql as int, tt, oo, (n - k) as nat) {
                Ok(rest) => Ok::<Seq<DataRefModel>, ClutError>(ref_models(out@) + rest),
                Err(e) => Err(e),
            },
        decreases n - k,
    {
        let ghost cur = decode_window(d@, tm, ascending, start, end, qs as int, qo as int, ql as int, tt, oo, (n - k) as nat);
        match window_step(d, table, ascending, start, end, qs, qo, ql, tt, oo, Ghost((n - k) as nat)) {
            Err(e) => {
                assert(cur == Err::<Seq<DataRefModel>, ClutError>(e));
                assert(whole == Err::<Seq<DataRefModel>, ClutError>(e));
                return Err(e);
            },
            Ok(None) => {
                proof {
                    assert(ref_models(out@) + Seq::<DataRefModel>::empty() =~= ref_models(out@));
                }
                return Ok(out);
            },
            Ok(Some((kept, ps2, po2, pl2, t2, o))) => {
                let ghost before = out@;
                match kept {
                    Some(x) => {
                        out.push(x);
                        proof {
                            assert(ref_models(out@) =~= ref_models(before).push(x@));
                            assert forall|rest: Seq<DataRefModel>| ref_models(before) + (seq![x@] + rest) == ref_models(out@) + rest by {
                                assert(ref_models(before) + (seq![x@] + rest) =~= ref_models(out@) + rest);
                            }
                        }
                    },
                    None => {},
                }
                qs = ps2;
                qo = po2;
                ql = pl2;
                tt = t2;
                oo = o;
            },
        }
        k = k + 1;
    }
    proof {
        reveal(decode_window);
        assert(ref_models(out@) + Seq::<DataRefModel>::empty() =~= ref_models(out@));
    }
    Ok(out)
}

impl LazyClut {
    /// Whether the CLUT can be read from.
    pub closed spec fn wf(&self) -> bool {
        lazy_wf(self@)
    }

    fn find(&self, path: &str) -> (r: Option<usize>)
        ensures
            match r {
                Some(i) => i as int == file_index(self@.files, path@) && i < self.files@.len(),
                None => file_index(self@.files, path@) < 0,
            },
    {
        proof {
            lemma_file_index(self@.files, path@);
        }
        let target = path.to_owned();
        let mut i: usize = self.files.len();
        assert(self@.files.take(i as int) =~= self@.files);
        while i > 0
            invariant
                i <= self.files@.len(),
                target@ == path@,
                file_index(self@.files, path@) == file_index(self@.files.take(i as int), path@),
                self@.files == file_models(self.files@),
            decreases i,
        {
            assert(self@.files.take(i as int).last() == self@.files[i - 1]);
            if self.files[i - 1].0 == target {
                return Some(i - 1);
            }
            assert(self@.files.take(i as int).drop_last() =~= self@.files.take(i - 1));
            i = i - 1;
        }
        None
    }

    /// Whether the CLUT lists `path`.
    pub fn contains(&self, path: &str) -> (b: bool)
        ensures
            b == (file_index(self@.files, path@) >= 0),
    {
        self.find(path).is_some()
    }

    /// The length of the file at `path`, where the CLUT lists it.
    pub fn file_size(&self, path: &str) -> (r: Option<u64>)
        ensures
            match r {
                Some(n) => file_index(self@.files, path@) >= 0 && n == self@.files[file_index(self@.files, path@)].1.size,
                None => file_index(self@.files, path@) < 0,
            },
    {
        match self.find(path) {
            Some(i) => Some(self.files[i].1.size),
            None => None,
        }
    }

    /// The folders, and each file with its length, in payload order.
    pub fn index(&self) -> (r: ClutIndex)
        ensures
            str_views(r.folders@) == self@.folders,
            r.files@.len() == self@.files.len(),
            forall|i: int| 0 <= i < r.files@.len() ==> (#[trigger] r.files@[i]).0@ == self@.files[i].0
                && r.files@[i].1 == self@.files[i].1.size,
    {
        let mut folders: Vec<String> = Vec::new();
        let mut i: usize = 0;
        while i < self.folders.len()
            invariant
                i <= self.folders@.len(),
                folders@ == self.folders@.take(i as int),
            decreases self.folders@.len() - i,
        {
            folders.push(self.folders[i].clone());
            assert(folders@ =~= self.folders@.take(i + 1));
            i = i + 1;
        }
        assert(folders@ =~= self.folders@);
        let mut files: Vec<(String, u64)> = Vec::new();
        let mut j: usize = 0;
        while j < self.files.len()
            invariant
                j <= self.files@.len(),
                files@.len() == j,
                self@.files == file_models(self.files@),
                forall|k: int| 0 <= k < j ==> (#[trigger] files@[k]).0@ == self@.files[k].0 && files@[k].1
                    == self@.files[k].1.size,
            decreases self.files@.len() - j,
        {
            files.push((self.files[j].0.clone(), self.files[j].1.size));
            j = j + 1;
        }
        ClutIndex { folders, files }
    }

    /// Every reference of the file at `path`, in file order.
    pub fn file_refs(&self, path: &str) -> (r: Result<Vec<DataRef>, ClutError>)
        requires
            self.wf(),
        ensures
            match r {
                Ok(v) => window_spec(self@, path@, 0, u64::MAX) == Ok::<Seq<DataRefModel>, ClutError>(ref_models(v@)),
                Err(e) => window_spec(self@, path@, 0, u64::MAX) == Err::<Seq<DataRefModel>, ClutError>(e),
            },
    {
        self.file_refs_range(path, 0, u64::MAX)
    }

    /// The references of the file at `path` that overlap `[start, end)`, in file order.
    pub fn file_refs_range(&self, path: &str, start: u64, end: u64) -> (r: Result<Vec<DataRef>, ClutError>)
        requires
            self.wf(),
        ensures
            match r {
                Ok(v) => window_spec(self@, path@, start, end) == Ok::<Seq<DataRefModel>, ClutError>(ref_models(v@)),
                Err(e) => window_spec(self@, path@, start, end) == Err::<Seq<DataRefModel>, ClutError>(e),
            },
    {
        let i = match self.find(path) {
            Some(i) => i,
            None => {
                return Err(ClutError::FileNotFound);
            },
        };
        let block = &self.files[i].1;
        if block.ref_count == 0 {
            let none: Vec<DataRef> = Vec::new();
            assert(ref_models(none@) =~= Seq::<DataRefModel>::empty());
            return Ok(none);
        }
        proof {
            assert(block_wf(self@.files[i as int].1, self.stride));
        }
        let cps = &block.checkpoints;
        let mut lead: usize = 0;
        assert(cps@.skip(0) =~= cps@);
        while lead < cps.len() && cps[lead].file_offset <= start
            invariant
                lead <= cps@.len(),
                leading_at_or_before(cps@, start) == lead + leading_at_or_before(cps@.skip(lead as int), start),
            decreases cps@.len() - lead,
        {
            assert(cps@.skip(lead as int).drop_first() =~= cps@.skip(lead + 1));
            lead = lead + 1;
        }
        proof {
            if lead < cps@.len() {
                assert(cps@.skip(lead as int)[0] == cps@[lead as int]);
            }
        }
        let first: usize = if block.ascending && lead > 0 {
            lead - 1
        } else {
            0
        };
        proof {
            crate::clut_index::lemma_checkpoint_positive(block.ref_count, self.stride);
            crate::clut_index::lemma_checkpoint_count(block.ref_count, self.stride);
            lemma_before_last_checkpoint(first as int, block.ref_count, self.stride);
        }
        let cp = cps[first];
        let count: u32 = block.ref_count - first as u32 * self.stride;
        match &self.payload {
            Payload::Whole(bytes) => decode_window_exec(
                bytes.as_slice(),
                &self.versions,
                block.ascending,
                start,
                end,
                cp.structs as usize,
                cp.offsets as usize,
                cp.lengths as usize,
                cp.patch_offset,
                cp.file_offset,
                count,
            ),
            Payload::Chunked { compressed, chunks } => {
                if block.chunk as usize >= chunks.len() {
                    return Err(ClutError::ChunkOutOfRange);
                }
                let span = chunks[block.chunk as usize];
                let bytes = match inflate_span(self.header.compression, compressed.as_slice(), span) {
                    Ok(b) => b,
                    Err(e) => {
                        return Err(e);
                    },
                };
                decode_window_exec(
                    bytes.as_slice(),
                    &self.versions,
                    block.ascending,
                    start,
                    end,
                    cp.structs as usize,
                    cp.offsets as usize,
                    cp.lengths as usize,
                    cp.patch_offset,
                    cp.file_offset,
                    count,
                )
            },
        }
    }
}

/// One chunk inflated, where it lies inside the packed bytes and inflates to its length.
pub fn inflate_span(kind: CompressType, packed: &[u8], c: ChunkSpan) -> (r: Result<Vec<u8>, ClutError>)
    ensures
        match r {
            Ok(b) => inflate_chunk(kind, packed@, c) == Ok::<Seq<u8>, ClutError>(b@),
            Err(e) => inflate_chunk(kind, packed@, c) == Err::<Seq<u8>, ClutError>(e),
        },
{
    let end: u64 = c.compressed_offset as u64 + c.compressed_len as u64;
    if end > packed.len() as u64 {
        return Err(ClutError::ChunkPastPayload);
    }
    let src = vstd::slice::slice_subrange(packed, c.compressed_offset as usize, end as usize);
    match inflate(kind, src) {
        None => Err(ClutError::Codec),
        Some(b) => if b.len() as u64 != c.decompressed_len as u64 {
            Err(ClutError::SizeMismatch)
        } else {
            Ok(b)
        },
    }
}

/// How many of the first `k` references start a stride of `stride`.
pub open spec fn stride_starts(k: nat, stride: u32) -> nat
    decreases k,
{
    if k == 0 {
        0
    } else {
        stride_starts((k - 1) as nat, stride) + if (k - 1) % (stride as int) == 0 {
            1nat
        } else {
            0nat
        }
    }
}

pub(crate) proof fn lemma_stride_starts(k: nat, stride: u32)
    requires
        stride > 0,
    ensures
        stride_starts(k, stride) == (k + stride - 1) / stride as int,
    decreases k,
{
    if k == 0 {
        assert((stride - 1) / stride as int == 0) by (nonlinear_arith)
            requires
                stride > 0,
        ;
    } else {
        lemma_stride_starts((k - 1) as nat, stride);
        let m = (k - 1) as int;
        let s = stride as int;
        let q = m / s;
        let r = m % s;
        assert(stride_starts(k, stride) == stride_starts((k - 1) as nat, stride) + if r == 0 {
            1nat
        } else {
            0nat
        });
        assert(k + stride - 1 == m + s);
        assert(m == q * s + r && 0 <= r < s) by (nonlinear_arith)
            requires
                s > 0,
                q == m / s,
                r == m % s,
        ;
        if r == 0 {
            assert((m + s - 1) / s == q) by (nonlinear_arith)
                requires
                    s > 0,
                    m == q * s,
            ;
            assert((m + s) / s == q + 1) by (nonlinear_arith)
                requires
                    s > 0,
                    m == q * s,
            ;
        } else {
            assert((m + s - 1) / s == q + 1) by (nonlinear_arith)
                requires
                    s > 0,
                    m == q * s + r,
                    1 <= r < s,
            ;
            assert((m + s) / s == q + 1) by (nonlinear_arith)
                requires
                    s > 0,
                    m == q * s + r,
                    1 <= r < s,
            ;
        }
    }
}

/// The first pass over a block's structures, `k` references in: where each stride starts
/// and the patch offset there, with where the pass stands and the patch offset it holds.
#[verifier::opaque]
pub open spec fn struct_scan(d: Seq<u8>, p0: int, table: Seq<VersionModel>, k: nat, stride: u32) -> Result<(Seq<(int, u64)>, int, u64), ClutError>
    decreases k,
{
    if k == 0 {
        Ok((Seq::empty(), p0, 0))
    } else {
        match struct_scan(d, p0, table, (k - 1) as nat, stride) {
            Err(e) => Err(e),
            Ok((cps, p, t)) => match dec_struct(d, p, table, t) {
                Err(e) => Err(e),
                Ok((_, q, nt)) => Ok(
                    (
                        if (k - 1) % (stride as int) == 0 {
                            cps.push((p, t))
                        } else {
                            cps
                        },
                        q,
                        nt,
                    ),
                ),
            },
        }
    }
}

/// The second pass, over the offset deltas: where each stride starts and the offset there,
/// with where the pass stands, the offset reached and whether no delta was negative.
#[verifier::opaque]
pub open spec fn offset_scan(d: Seq<u8>, p0: int, k: nat, stride: u32) -> Result<(Seq<(int, u64)>, int, u64, bool), ClutError>
    decreases k,
{
    if k == 0 {
        Ok((Seq::empty(), p0, 0, true))
    } else {
        match offset_scan(d, p0, (k - 1) as nat, stride) {
            Err(e) => Err(e),
            Ok((cps, p, off, asc)) => match read_var_i64_spec(d, p) {
                Err(e) => Err(ClutError::Decode(e)),
                Ok((delta, q)) => match add_signed(off, delta) {
                    None => Err(ClutError::OffsetOverflow),
                    Some(o) => Ok(
                        (
                            if (k - 1) % (stride as int) == 0 {
                                cps.push((p, off))
                            } else {
                                cps
                            },
                            q,
                            o,
                            asc && delta >= 0,
                        ),
                    ),
                },
            },
        }
    }
}

/// The third pass, over the lengths: where each stride starts, with where the pass stands
/// and the last length read.
#[verifier::opaque]
pub open spec fn length_scan(d: Seq<u8>, p0: int, k: nat, stride: u32) -> Result<(Seq<int>, int, u32), ClutError>
    decreases k,
{
    if k == 0 {
        Ok((Seq::empty(), p0, 0))
    } else {
        match length_scan(d, p0, (k - 1) as nat, stride) {
            Err(e) => Err(e),
            Ok((cps, p, _)) => match read_var_u32_spec(d, p) {
                Err(e) => Err(ClutError::Decode(e)),
                Ok((len, q)) => Ok(
                    (
                        if (k - 1) % (stride as int) == 0 {
                            cps.push(p)
                        } else {
                            cps
                        },
                        q,
                        len,
                    ),
                ),
            },
        }
    }
}

/// The checkpoints the three passes found, stride by stride.
pub open spec fn zip_checkpoints(sc: Seq<(int, u64)>, oc: Seq<(int, u64)>, lc: Seq<int>) -> Seq<Checkpoint> {
    Seq::new(
        sc.len(),
        |k: int|
            Checkpoint {
                structs: sc[k].0 as u32,
                offsets: oc[k].0 as u32,
                lengths: lc[k] as u32,
                patch_offset: sc[k].1,
                file_offset: oc[k].1,
            },
    )
}

/// `a + b` wrapped at 64 bits.
pub open spec fn wrap_add(a: u64, b: u32) -> u64 {
    if a + b > u64::MAX {
        (a + b - 0x1_0000_0000_0000_0000) as u64
    } else {
        (a + b) as u64
    }
}

/// A file's block found by walking its references at `p`: the count (never negative), then
/// the three passes; the file's length is the last offset plus the last length.
pub open spec fn block_scan(d: Seq<u8>, p: int, table: Seq<VersionModel>, stride: u32, chunk: u32) -> Result<(BlockModel, int), ClutError> {
    match read_count_spec(d, p) {
        Err(e) => Err(e),
        Ok((n, p1)) => match struct_scan(d, p1, table, n as nat, stride) {
            Err(e) => Err(e),
            Ok((sc, p2, _)) => match offset_scan(d, p2, n as nat, stride) {
                Err(e) => Err(e),
                Ok((oc, p3, off, asc)) => match length_scan(d, p3, n as nat, stride) {
                    Err(e) => Err(e),
                    Ok((lc, p4, len)) => Ok(
                        (
                            BlockModel {
                                ref_count: n as u32,
                                size: wrap_add(off, len),
                                ascending: asc,
                                chunk,
                                checkpoints: zip_checkpoints(sc, oc, lc),
                            },
                            p4,
                        ),
                    ),
                },
            },
        },
    }
}

/// The blocks of `k` files walked one after the other from `p0`.
pub open spec fn blocks_scan(d: Seq<u8>, p0: int, table: Seq<VersionModel>, k: nat, stride: u32, chunk: u32) -> Result<(Seq<BlockModel>, int), ClutError>
    decreases k,
{
    if k == 0 {
        Ok((Seq::empty(), p0))
    } else {
        match blocks_scan(d, p0, table, (k - 1) as nat, stride, chunk) {
            Err(e) => Err(e),
            Ok((bs, p)) => match block_scan(d, p, table, stride, chunk) {
                Err(e) => Err(e),
                Ok((b, q)) => Ok((bs.push(b), q)),
            },
        }
    }
}

proof fn lemma_struct_scan_err(d: Seq<u8>, p0: int, table: Seq<VersionModel>, j: nat, k: nat, stride: u32)
    requires
        j <= k,
        struct_scan(d, p0, table, j, stride) is Err,
    ensures
        struct_scan(d, p0, table, k, stride) == struct_scan(d, p0, table, j, stride),
    decreases k - j,
{
    if j < k {
        lemma_struct_scan_err(d, p0, table, j, (k - 1) as nat, stride);
        reveal(struct_scan);
    }
}

proof fn lemma_offset_scan_err(d: Seq<u8>, p0: int, j: nat, k: nat, stride: u32)
    requires
        j <= k,
        offset_scan(d, p0, j, stride) is Err,
    ensures
        offset_scan(d, p0, k, stride) == offset_scan(d, p0, j, stride),
    decreases k - j,
{
    if j < k {
        lemma_offset_scan_err(d, p0, j, (k - 1) as nat, stride);
        reveal(offset_scan);
    }
}

proof fn lemma_length_scan_err(d: Seq<u8>, p0: int, j: nat, k: nat, stride: u32)
    requires
        j <= k,
        length_scan(d, p0, j, stride) is Err,
    ensures
        length_scan(d, p0, k, stride) == length_scan(d, p0, j, stride),
    decreases k - j,
{
    if j < k {
        lemma_length_scan_err(d, p0, j, (k - 1) as nat, stride);
        reveal(length_scan);
    }
}

fn scan_structs(d: &[u8], p0: usize, table: &Vec<PatchVersion>, n: u32, stride: u32) -> (r: Result<(Vec<(usize, u64)>, usize, u64), ClutError>)
    requires
        stride > 0,
    ensures
        match r {
            Ok((v, q, t)) => v@.len() == stride_starts(n as nat, stride) && struct_scan(
                d@,
                p0 as int,
                table_models(table@),
                n as nat,
                stride,
            ) == Ok::<(Seq<(int, u64)>, int, u64), ClutError>(
                (Seq::new(v@.len(), |i: int| (v@[i].0 as int, v@[i].1)), q as int, t),
            ),
            Err(e) => struct_scan(d@, p0 as int, table_models(table@), n as nat, stride) == Err::<
                (Seq<(int, u64)>, int, u64),
                ClutError,
            >(e),
        },
{
    let mut v: Vec<(usize, u64)> = Vec::new();
    let mut p = p0;
    let mut t: u64 = 0;
    let mut k: u32 = 0;
    proof {
        reveal(struct_scan);    assert(Seq::new(v@.len(), |i: int| (v@[i].0 as int, v@[i].1)) =~= Seq::<(int, u64)>::empty());
    }
    while k < n
        invariant
            k <= n,
            stride > 0,
            v@.len() == stride_starts(k as nat, stride),
            struct_scan(d@, p0 as int, table_models(table@), k as nat, stride) == Ok::<
                (Seq<(int, u64)>, int, u64),
                ClutError,
            >((Seq::new(v@.len(), |i: int| (v@[i].0 as int, v@[i].1)), p as int, t)),
        decreases n - k,
    {
        proof {
            reveal(struct_scan);
        }
        let ghost before = v@;
        if k % stride == 0 {
            v.push((p, t));
        }
        let (_, q, nt) = match dec_struct_exec(d, p, table, t) {
            Ok(x) => x,
            Err(e) => {
                proof {
                    lemma_struct_scan_err(d@, p0 as int, table_models(table@), (k + 1) as nat, n as nat, stride);
                }
                return Err(e);
            },
        };
        proof {
            assert(Seq::new(v@.len(), |i: int| (v@[i].0 as int, v@[i].1)) =~= if k % stride == 0 {
                Seq::new(before.len(), |i: int| (before[i].0 as int, before[i].1)).push((p as int, t))
            } else {
                Seq::new(before.len(), |i: int| (before[i].0 as int, before[i].1))
            });
        }
        p = q;
        t = nt;
        k = k + 1;
    }
    Ok((v, p, t))
}

fn scan_offsets(d: &[u8], p0: usize, n: u32, stride: u32) -> (r: Result<(Vec<(usize, u64)>, usize, u64, bool), ClutError>)
    requires
        stride > 0,
    ensures
        match r {
            Ok((v, q, off, asc)) => v@.len() == stride_starts(n as nat, stride) && offset_scan(
                d@,
                p0 as int,
                n as nat,
                stride,
            ) == Ok::<(Seq<(int, u64)>, int, u64, bool), ClutError>(
                (Seq::new(v@.len(), |i: int| (v@[i].0 as int, v@[i].1)), q as int, off, asc),
            ),
            Err(e) => offset_scan(d@, p0 as int, n as nat, stride) == Err::<(Seq<(int, u64)>, int, u64, bool), ClutError>(e),
        },
{
    let mut v: Vec<(usize, u64)> = Vec::new();
    let mut p = p0;
    let mut off: u64 = 0;
    let mut asc = true;
    let mut k: u32 = 0;
    proof {
        reveal(offset_scan);    assert(Seq::new(v@.len(), |i: int| (v@[i].0 as int, v@[i].1)) =~= Seq::<(int, u64)>::empty());
    }
    while k < n
        invariant
            k <= n,
            stride > 0,
            v@.len() == stride_starts(k as nat, stride),
            offset_scan(d@, p0 as int, k as nat, stride) == Ok::<(Seq<(int, u64)>, int, u64, bool), ClutError>(
                (Seq::new(v@.len(), |i: int| (v@[i].0 as int, v@[i].1)), p as int, off, asc),
            ),
        decreases n - k,
    {
        proof {
            reveal(offset_scan);
        }
        let ghost before = v@;
        if k % stride == 0 {
            v.push((p, off));
        }
        let (delta, q) = match read_var_i64(d, p) {
            Ok(x) => x,
            Err(e) => {
                proof {
                    lemma_offset_scan_err(d@, p0 as int, (k + 1) as nat, n as nat, stride);
                }
                return Err(ClutError::Decode(e));
            },
        };
        let o = match add_signed_exec(off, delta) {
            Some(o) => o,
            None => {
                proof {
                    lemma_offset_scan_err(d@, p0 as int, (k + 1) as nat, n as nat, stride);
                }
                return Err(ClutError::OffsetOverflow);
            },
        };
        proof {
            assert(Seq::new(v@.len(), |i: int| (v@[i].0 as int, v@[i].1)) =~= if k % stride == 0 {
                Seq::new(before.len(), |i: int| (before[i].0 as int, before[i].1)).push((p as int, off))
            } else {
                Seq::new(before.len(), |i: int| (before[i].0 as int, before[i].1))
            });
        }
        asc = asc && delta >= 0;
        p = q;
        off = o;
        k = k + 1;
    }
    Ok((v, p, off, asc))
}

fn scan_lengths(d: &[u8], p0: usize, n: u32, stride: u32) -> (r: Result<(Vec<usize>, usize, u32), ClutError>)
    requires
        stride > 0,
    ensures
        match r {
            Ok((v, q, len)) => v@.len() == stride_starts(n as nat, stride) && length_scan(d@, p0 as int, n as nat, stride)
                == Ok::<(Seq<int>, int, u32), ClutError>((Seq::new(v@.len(), |i: int| v@[i] as int), q as int, len)),
            Err(e) => length_scan(d@, p0 as int, n as nat, stride) == Err::<(Seq<int>, int, u32), ClutError>(e),
        },
{
    let mut v: Vec<usize> = Vec::new();
    let mut p = p0;
    let mut len: u32 = 0;
    let mut k: u32 = 0;
    proof {
        reveal(length_scan);    assert(Seq::new(v@.len(), |i: int| v@[i] as int) =~= Seq::<int>::empty());
    }
    while k < n
        invariant
            k <= n,
            stride > 0,
            v@.len() == stride_starts(k as nat, stride),
            length_scan(d@, p0 as int, k as nat, stride) == Ok::<(Seq<int>, int, u32), ClutError>(
                (Seq::new(v@.len(), |i: int| v@[i] as int), p as int, len),
            ),
        decreases n - k,
    {
        proof {
            reveal(length_scan);
        }
        let ghost before = v@;
        if k % stride == 0 {
            v.push(p);
        }
        let (l, q) = match read_var_u32(d, p) {
            Ok(x) => x,
            Err(e) => {
                proof {
                    lemma_length_scan_err(d@, p0 as int, (k + 1) as nat, n as nat, stride);
                }
                return Err(ClutError::Decode(e));
            },
        };
        proof {
            assert(Seq::new(v@.len(), |i: int| v@[i] as int) =~= if k % stride == 0 {
                Seq::new(before.len(), |i: int| before[i] as int).push(p as int)
            } else {
                Seq::new(before.len(), |i: int| before[i] as int)
            });
        }
        p = q;
        len = l;
        k = k + 1;
    }
    Ok((v, p, len))
}

impl Block {
    /// A copy of this block.
    pub fn duplicate(&self) -> (b: Block)
        ensures
            b@ == self@,
    {
        let mut checkpoints: Vec<Checkpoint> = Vec::new();
        let mut i: usize = 0;
        while i < self.checkpoints.len()
            invariant
                i <= self.checkpoints@.len(),
                checkpoints@ == self.checkpoints@.take(i as int),
            decreases self.checkpoints@.len() - i,
        {
            checkpoints.push(self.checkpoints[i]);
            assert(checkpoints@ =~= self.checkpoints@.take(i + 1));
            i = i + 1;
        }
        assert(checkpoints@ =~= self.checkpoints@);
        Block {
            ref_count: self.ref_count,
            size: self.size,
            ascending: self.ascending,
            chunk: self.chunk,
            checkpoints,
        }
    }

    /// Walk one file's references at `p`, noting a checkpoint every `stride` of them.
    pub fn scan(d: &[u8], p: usize, table: &Vec<PatchVersion>, stride: u32, chunk: u32) -> (r: Result<(Block, usize), ClutError>)
        requires
            stride > 0,
        ensures
            match r {
                Ok((b, q)) => block_scan(d@, p as int, table_models(table@), stride, chunk) == Ok::<
                    (BlockModel, int),
                    ClutError,
                >((b@, q as int)) && block_wf(b@, stride),
                Err(e) => block_scan(d@, p as int, table_models(table@), stride, chunk) == Err::<
                    (BlockModel, int),
                    ClutError,
                >(e),
            },
    {
        let (n, p1) = match read_count(d, p) {
            Ok(x) => x,
            Err(e) => {
                return Err(e);
            },
        };
        let count = n as u32;
        let (sv, p2, _) = match scan_structs(d, p1, table, count, stride) {
            Ok(x) => x,
            Err(e) => {
                return Err(e);
            },
        };
        let (ov, p3, off, asc) = match scan_offsets(d, p2, count, stride) {
            Ok(x) => x,
            Err(e) => {
                return Err(e);
            },
        };
        let (lv, p4, len) = match scan_lengths(d, p3, count, stride) {
            Ok(x) => x,
            Err(e) => {
                return Err(e);
            },
        };
        let mut checkpoints: Vec<Checkpoint> = Vec::new();
        let mut k: usize = 0;
        while k < sv.len()
            invariant
                k <= sv@.len(),
                sv@.len() == ov@.len(),
                sv@.len() == lv@.len(),
                checkpoints@.len() == k,
                forall|j: int| 0 <= j < k ==> #[trigger] checkpoints@[j] == (Checkpoint {
                    structs: sv@[j].0 as u32,
                    offsets: ov@[j].0 as u32,
                    lengths: lv@[j] as u32,
                    patch_offset: sv@[j].1,
                    file_offset: ov@[j].1,
                }),
            decreases sv@.len() - k,
        {
            checkpoints.push(
                Checkpoint {
                    structs: sv[k].0 as u32,
                    offsets: ov[k].0 as u32,
                    lengths: lv[k] as u32,
                    patch_offset: sv[k].1,
                    file_offset: ov[k].1,
                },
            );
            k = k + 1;
        }
        let size: u64 = if off > u64::MAX - len as u64 {
            off - (u64::MAX - len as u64) - 1
        } else {
            off + len as u64
        };
        proof {
            lemma_stride_starts(count as nat, stride);
            assert(checkpoints@ =~= zip_checkpoints(
                Seq::new(sv@.len(), |i: int| (sv@[i].0 as int, sv@[i].1)),
                Seq::new(ov@.len(), |i: int| (ov@[i].0 as int, ov@[i].1)),
                Seq::new(lv@.len(), |i: int| lv@[i] as int),
            ));
        }
        Ok((Block { ref_count: count, size, ascending: asc, chunk, checkpoints }, p4))
    }
}

proof fn lemma_blocks_scan_err(d: Seq<u8>, p0: int, table: Seq<VersionModel>, j: nat, k: nat, stride: u32, chunk: u32)
    requires
        j <= k,
        blocks_scan(d, p0, table, j, stride, chunk) is Err,
    ensures
        blocks_scan(d, p0, table, k, stride, chunk) == blocks_scan(d, p0, table, j, stride, chunk),
    decreases k - j,
{
    if j < k {
        lemma_blocks_scan_err(d, p0, table, j, (k - 1) as nat, stride, chunk);
    }
}

pub(crate) fn scan_blocks(d: &[u8], p0: usize, table: &Vec<PatchVersion>, n: usize, stride: u32, chunk: u32) -> (r: Result<Vec<Block>, ClutError>)
    requires
        stride > 0,
    ensures
        match r {
            Ok(v) => v@.len() == n && (blocks_scan(d@, p0 as int, table_models(table@), n as nat, stride, chunk) matches Ok((bs, _))
                && bs == Seq::new(v@.len(), |i: int| v@[i]@)) && forall|i: int| 0 <= i < v@.len() ==> block_wf(
                #[trigger] v@[i]@,
                stride,
            ),
            Err(e) => blocks_scan(d@, p0 as int, table_models(table@), n as nat, stride, chunk) == Err::<
                (Seq<BlockModel>, int),
                ClutError,
            >(e),
        },
{
    let mut v: Vec<Block> = Vec::new();
    let mut p = p0;
    let mut k: usize = 0;
    assert(Seq::new(v@.len(), |i: int| v@[i]@) =~= Seq::<BlockModel>::empty());
    while k < n
        invariant
            k <= n,
            stride > 0,
            v@.len() == k,
            blocks_scan(d@, p0 as int, table_models(table@), k as nat, stride, chunk) == Ok::<(Seq<BlockModel>, int), ClutError>(
                (Seq::new(v@.len(), |i: int| v@[i]@), p as int),
            ),
            forall|i: int| 0 <= i < v@.len() ==> block_wf(#[trigger] v@[i]@, stride),
        decreases n - k,
    {
        let (b, q) = match Block::scan(d, p, table, stride, chunk) {
            Ok(x) => x,
            Err(e) => {
                proof {
                    lemma_blocks_scan_err(d@, p0 as int, table_models(table@), (k + 1) as nat, n as nat, stride, chunk);
                }
                return Err(e);
            },
        };
        let ghost before = v@;
        v.push(b);
        proof {
            assert(Seq::new(v@.len(), |i: int| v@[i]@) =~= Seq::new(before.len(), |i: int| before[i]@).push(b@));
        }
        p = q;
        k = k + 1;
    }
    Ok(v)
}

/// Each name with its block.
pub open spec fn zip_files(names: Seq<Seq<char>>, blocks: Seq<BlockModel>) -> Seq<(Seq<char>, BlockModel)> {
    Seq::new(names.len(), |i: int| (names[i], blocks[i]))
}

/// A CLUT read lazily. A chunked one keeps its packed chunks and its index, and inflates
/// the first chunk for the version table, folders and names, which must be as many as the
/// index's blocks. Any other inflates its payload whole and walks each file's references to
/// place its checkpoints.
pub open spec fn read_lazy_spec(d: Seq<u8>) -> Result<LazyModel, ClutError> {
    match read_header_spec(d) {
        Err(e) => Err(e),
        Ok((h, p)) => if h.file_version == Version::Indexed {
            read_chunked_spec(d, h, p)
        } else {
            read_whole_spec(d, h, p)
        },
    }
}

/// A chunked CLUT read lazily, after its header.
pub open spec fn read_chunked_spec(d: Seq<u8>, h: HeaderModel, p: int) -> Result<LazyModel, ClutError> {
    match read_index_spec(d, p) {
        Err(e) => Err(e),
        Ok((idx, q)) => if h.compressed_size < 0 {
            Err(ClutError::Decode(DecodeError::Negative))
        } else if q + h.compressed_size > d.len() {
            Err(ClutError::Decode(DecodeError::Truncated))
        } else if idx.chunks.len() == 0 {
            Err(ClutError::NoChunks)
        } else {
            let packed = d.subrange(q, q + h.compressed_size);
            match inflate_chunk(h.compression, packed, idx.chunks[0]) {
                Err(e) => Err(e),
                Ok(strings) => match read_strings_spec(strings) {
                    Err(e) => Err(e),
                    Ok((table, folders, names, _)) => if idx.files.len() != names.len() {
                        Err(ClutError::BlockCount)
                    } else {
                        Ok(
                            LazyModel {
                                header: h,
                                folders,
                                versions: table,
                                stride: idx.stride,
                                files: zip_files(names, idx.files),
                                payload: PayloadModel::Chunked(packed, idx.chunks),
                            },
                        )
                    },
                },
            }
        },
    }
}

/// A CLUT with one packed stream read lazily, after its header.
pub open spec fn read_whole_spec(d: Seq<u8>, h: HeaderModel, p: int) -> Result<LazyModel, ClutError> {
    match payload_spec(d, h, p) {
        Err(e) => Err(e),
        Ok(payload) => match read_strings_spec(payload) {
            Err(e) => Err(e),
            Ok((table, folders, names, q)) => match blocks_scan(payload, q, table, names.len(), STRIDE, 0) {
                Err(e) => Err(e),
                Ok((blocks, _)) => Ok(
                    LazyModel {
                        header: h,
                        folders,
                        versions: table,
                        stride: STRIDE,
                        files: zip_files(names, blocks),
                        payload: PayloadModel::Whole(payload),
                    },
                ),
            },
        },
    }
}

fn pair_up(names: Vec<String>, blocks: &Vec<Block>) -> (files: Vec<(String, Block)>)
    requires
        names@.len() == blocks@.len(),
    ensures
        file_models(files@) == zip_files(str_views(names@), Seq::new(blocks@.len(), |i: int| blocks@[i]@)),
{
    let mut files: Vec<(String, Block)> = Vec::new();
    let mut i: usize = 0;
    while i < names.len()
        invariant
            i <= names@.len(),
            names@.len() == blocks@.len(),
            files@.len() == i,
            forall|j: int| 0 <= j < i ==> (#[trigger] files@[j]).0@ == names@[j]@ && files@[j].1@ == blocks@[j]@,
        decreases names@.len() - i,
    {
        files.push((names[i].clone(), blocks[i].duplicate()));
        i = i + 1;
    }
    assert(file_models(files@) =~= zip_files(str_views(names@), Seq::new(blocks@.len(), |i: int| blocks@[i]@)));
    files
}

fn read_chunked(bytes: &[u8], header: Header, p: usize) -> (r: Result<LazyClut, ClutError>)
    requires
        header.file_version == Version::Indexed,
    ensures
        match r {
            Ok(c) => read_chunked_spec(bytes@, header@, p as int) == Ok::<LazyModel, ClutError>(c@) && c.wf(),
            Err(e) => read_chunked_spec(bytes@, header@, p as int) == Err::<LazyModel, ClutError>(e),
        },
{
    let (idx, q) = match Index::read(bytes, p) {
        Ok(x) => x,
        Err(e) => {
            return Err(e);
        },
    };
    if header.compressed_size < 0 {
        return Err(ClutError::Decode(DecodeError::Negative));
    }
    let size = header.compressed_size as usize;
    if q > bytes.len() || size > bytes.len() - q {
        return Err(ClutError::Decode(DecodeError::Truncated));
    }
    if idx.chunks.len() == 0 {
        return Err(ClutError::NoChunks);
    }
    let packed = vstd::slice::slice_subrange(bytes, q, q + size);
    let strings = match inflate_span(header.compression, packed, idx.chunks[0]) {
        Ok(b) => b,
        Err(e) => {
            return Err(e);
        },
    };
    let (versions, folders, names, _) = match read_strings(strings.as_slice()) {
        Ok(x) => x,
        Err(e) => {
            return Err(e);
        },
    };
    if idx.files.len() != names.len() {
        return Err(ClutError::BlockCount);
    }
    proof {
        assert(Seq::new(idx.files@.len(), |i: int| idx.files@[i]@) =~= idx@.files);
    }
    let ghost names_v = str_views(names@);
    let files = pair_up(names, &idx.files);
    let mut compressed: Vec<u8> = Vec::new();
    crate::bytes::push_bytes(&mut compressed, packed);
    let c = LazyClut {
        header,
        folders,
        versions,
        stride: idx.stride,
        files,
        payload: Payload::Chunked { compressed, chunks: idx.chunks },
    };
    proof {
        crate::clut_index::lemma_read_index_wf(bytes@, p as int);
        assert(c@.files == zip_files(names_v, idx@.files));
        assert forall|i: int| 0 <= i < c@.files.len() implies block_wf(#[trigger] c@.files[i].1, c@.stride) by {
            assert(c@.files[i].1 == idx@.files[i]);
            assert(idx@.files[i].chunk < idx@.chunks.len());
        }
    }
    Ok(c)
}

fn read_whole(bytes: &[u8], header: Header, p: usize) -> (r: Result<LazyClut, ClutError>)
    requires
        header.file_version != Version::Indexed,
    ensures
        match r {
            Ok(c) => read_whole_spec(bytes@, header@, p as int) == Ok::<LazyModel, ClutError>(c@) && c.wf(),
            Err(e) => read_whole_spec(bytes@, header@, p as int) == Err::<LazyModel, ClutError>(e),
        },
{
    let payload = match decompress_payload(bytes, &header, p) {
        Ok(b) => b,
        Err(e) => {
            return Err(e);
        },
    };
    let (versions, folders, names, q) = match read_strings(payload.as_slice()) {
        Ok(x) => x,
        Err(e) => {
            return Err(e);
        },
    };
    let blocks = match scan_blocks(payload.as_slice(), q, &versions, names.len(), STRIDE, 0) {
        Ok(v) => v,
        Err(e) => {
            return Err(e);
        },
    };
    let ghost names_v = str_views(names@);
    let files = pair_up(names, &blocks);
    let c = LazyClut { header, folders, versions, stride: STRIDE, files, payload: Payload::Whole(payload) };
    proof {
        assert(c@.files == zip_files(names_v, Seq::new(blocks@.len(), |i: int| blocks@[i]@)));
        assert forall|i: int| 0 <= i < c@.files.len() implies block_wf(#[trigger] c@.files[i].1, c@.stride) by {
            assert(c@.files[i].1 == blocks@[i]@);
        }
    }
    Ok(c)
}

impl LazyClut {
    /// Read a CLUT, decoding no file's references yet.
    pub fn read(bytes: &[u8]) -> (r: Result<LazyClut, ClutError>)
        ensures
            match r {
                Ok(c) => read_lazy_spec(bytes@) == Ok::<LazyModel, ClutError>(c@) && c.wf(),
                Err(e) => read_lazy_spec(bytes@) == Err::<LazyModel, ClutError>(e),
            },
    {
        let (header, p) = match read_header(bytes) {
            Ok(x) => x,
            Err(e) => {
                return Err(e);
            },
        };
        if header.file_version == Version::Indexed {
            read_chunked(bytes, header, p)
        } else {
            read_whole(bytes, header, p)
        }
    }
}

/// The file names, in payload order.
pub open spec fn names_of(files: Seq<(Seq<char>, BlockModel)>) -> Seq<Seq<char>> {
    Seq::new(files.len(), |i: int| files[i].0)
}

/// Whether every string a rewrite writes fits a .NET string, and the version table a 32-bit
/// count.
pub open spec fn strings_fit(m: LazyModel, fs: Seq<Seq<char>>) -> bool {
    &&& header_fits(m.header)
    &&& m.versions.len() <= i32::MAX
    &&& forall|i: int| 0 <= i < m.versions.len() ==> string_fits(version_text(#[trigger] m.versions[i], true))
    &&& forall|i: int| 0 <= i < fs.len() ==> string_fits(#[trigger] fs[i])
    &&& forall|i: int| 0 <= i < m.files.len() ==> string_fits(#[trigger] m.files[i].0)
}

/// The references of the first `k` files, each decoded and written again as a block.
pub open spec fn file_blocks(m: LazyModel, k: nat) -> Result<Seq<Seq<u8>>, ClutError>
    decreases k,
{
    if k == 0 {
        Ok(Seq::empty())
    } else {
        match file_blocks(m, (k - 1) as nat) {
            Err(e) => Err(e),
            Ok(bs) => match window_spec(m, m.files[k - 1].0, 0, u64::MAX) {
                Err(e) => Err(e),
                Ok(refs) => if refs.len() > i32::MAX {
                    Err(ClutError::TooLarge)
                } else if !versions_listed(refs, m.versions) {
                    Err(ClutError::BadVersionIndex(-1i32))
                } else {
                    Ok(bs.push(file_data_bytes(refs, m.versions)))
                },
            },
        }
    }
}

/// The blocks of the chunks after the string sections, found by walking each chunk's files.
pub open spec fn recovered(raw: Seq<Seq<u8>>, per: Seq<nat>, table: Seq<VersionModel>, k: nat) -> Result<Seq<BlockModel>, ClutError>
    decreases k,
{
    if k == 0 {
        Ok(Seq::empty())
    } else {
        match recovered(raw, per, table, (k - 1) as nat) {
            Err(e) => Err(e),
            Ok(bs) => match blocks_scan(raw[k as int], 0, table, per[k - 1], STRIDE, k as u32) {
                Err(e) => Err(e),
                Ok((more, _)) => Ok(bs + more),
            },
        }
    }
}

/// The CLUT rewritten as a chunked one, its folders in the order `fs`: the string sections
/// alone in the first chunk, the files' blocks grouped into chunks of about a megabyte, every
/// chunk compressed with `kind`, and the index recording each file's chunk and checkpoints.
pub open spec fn rewrite_spec(m: LazyModel, kind: CompressType, fs: Seq<Seq<char>>) -> Result<Seq<u8>, ClutError> {
    if !strings_fit(m, fs) {
        Err(ClutError::TooLarge)
    } else {
        match file_blocks(m, m.files.len()) {
            Err(e) => Err(e),
            Ok(blocks) => {
                let (raw, per) = grouped(strings_chunk(m.versions, fs, names_of(m.files)), blocks);
                assemble_spec(m.header, kind, raw, per, m.versions)
            },
        }
    }
}

/// The file a rewrite writes from its raw chunks: the blocks recovered from the chunks, the
/// chunks packed, the header updated, then the header, the index section and the payload.
pub open spec fn assemble_spec(h0: HeaderModel, kind: CompressType, raw: Seq<Seq<u8>>, per: Seq<nat>, table: Seq<VersionModel>) -> Result<Seq<u8>, ClutError> {
    if raw.len() > u32::MAX {
        Err(ClutError::TooLarge)
    } else {
        match recovered(raw, per, table, (raw.len() - 1) as nat) {
            Err(e) => Err(e),
            Ok(nb) => {
                let (spans, payload) = pack(kind, raw);
                let total = raw_total(raw);
                if nb.len() > u32::MAX || total > i32::MAX || payload.len() > i32::MAX {
                    Err(ClutError::TooLarge)
                } else {
                    let h = HeaderModel {
                        file_version: Version::Indexed,
                        compression: kind,
                        decompressed_size: total as i32,
                        compressed_size: payload.len() as i32,
                        ..h0
                    };
                    let idx = IndexModel { stride: STRIDE, chunks: spans, files: nb };
                    if section_bytes(idx).len() > i32::MAX {
                        Err(ClutError::TooLarge)
                    } else {
                        Ok(header_bytes(h) + index_bytes(idx) + payload)
                    }
                }
            },
        }
    }
}

proof fn lemma_recovered_err(raw: Seq<Seq<u8>>, per: Seq<nat>, table: Seq<VersionModel>, j: nat, k: nat)
    requires
        j <= k,
        recovered(raw, per, table, j) is Err,
    ensures
        recovered(raw, per, table, k) == recovered(raw, per, table, j),
    decreases k - j,
{
    if j < k {
        lemma_recovered_err(raw, per, table, j, (k - 1) as nat);
    }
}

fn recover_blocks(raw: &Vec<Vec<u8>>, per: &Vec<usize>, table: &Vec<PatchVersion>) -> (r: Result<Vec<Block>, ClutError>)
    requires
        raw@.len() >= 1,
        raw@.len() <= u32::MAX,
        per@.len() + 1 == raw@.len(),
    ensures
        match r {
            Ok(v) => recovered(
                buffers(raw@),
                Seq::new(per@.len(), |i: int| per@[i] as nat),
                table_models(table@),
                (raw@.len() - 1) as nat,
            ) == Ok::<Seq<BlockModel>, ClutError>(Seq::new(v@.len(), |i: int| v@[i]@)) && forall|i: int|
                0 <= i < v@.len() ==> block_wf(#[trigger] v@[i]@, STRIDE),
            Err(e) => recovered(
                buffers(raw@),
                Seq::new(per@.len(), |i: int| per@[i] as nat),
                table_models(table@),
                (raw@.len() - 1) as nat,
            ) == Err::<Seq<BlockModel>, ClutError>(e),
        },
{
    let ghost rs = buffers(raw@);
    let ghost ps = Seq::new(per@.len(), |i: int| per@[i] as nat);
    let ghost tm = table_models(table@);
    let mut out: Vec<Block> = Vec::new();
    let mut k: usize = 1;
    assert(Seq::new(out@.len(), |i: int| out@[i]@) =~= Seq::<BlockModel>::empty());
    while k < raw.len()
        invariant
            1 <= k <= raw@.len(),
            raw@.len() <= u32::MAX,
            per@.len() + 1 == raw@.len(),
            rs == buffers(raw@),
            ps == Seq::new(per@.len(), |i: int| per@[i] as nat),
            tm == table_models(table@),
            recovered(rs, ps, tm, (k - 1) as nat) == Ok::<Seq<BlockModel>, ClutError>(Seq::new(out@.len(), |i: int| out@[i]@)),
            forall|i: int| 0 <= i < out@.len() ==> block_wf(#[trigger] out@[i]@, STRIDE),
        decreases raw@.len() - k,
    {
        let more = match scan_blocks(raw[k].as_slice(), 0, table, per[k - 1], STRIDE, k as u32) {
            Ok(v) => v,
            Err(e) => {
                proof {
                    assert(rs[k as int] == raw@[k as int]@);
                    lemma_recovered_err(rs, ps, tm, k as nat, (raw@.len() - 1) as nat);
                }
                return Err(e);
            },
        };
        let ghost before = Seq::new(out@.len(), |i: int| out@[i]@);
        let ghost mv = Seq::new(more@.len(), |i: int| more@[i]@);
        let mut j: usize = 0;
        let ghost start_len = out@.len();
        while j < more.len()
            invariant
                j <= more@.len(),
                out@.len() == start_len + j,
                forall|i: int| 0 <= i < start_len ==> #[trigger] out@[i]@ == before[i],
                forall|i: int| start_len <= i < start_len + j ==> #[trigger] out@[i]@ == more@[i - start_len]@,
                forall|i: int| 0 <= i < more@.len() ==> block_wf(#[trigger] more@[i]@, STRIDE),
                forall|i: int| 0 <= i < out@.len() ==> block_wf(#[trigger] out@[i]@, STRIDE),
                before.len() == start_len,
            decreases more@.len() - j,
        {
            out.push(more[j].duplicate());
            j = j + 1;
        }
        proof {
            assert(rs[k as int] == raw@[k as int]@);
            assert(Seq::new(out@.len(), |i: int| out@[i]@) =~= before + mv);
        }
        k = k + 1;
    }
    Ok(out)
}

proof fn lemma_file_blocks_err(m: LazyModel, j: nat, k: nat)
    requires
        j <= k,
        file_blocks(m, j) is Err,
    ensures
        file_blocks(m, k) == file_blocks(m, j),
    decreases k - j,
{
    if j < k {
        lemma_file_blocks_err(m, j, (k - 1) as nat);
    }
}

fn text_fits(s: &str) -> (b: bool)
    ensures
        b == string_fits(s@),
{
    let bytes = s.as_bytes();
    bytes.len() <= 0x7fff_ffff
}

impl LazyClut {
    fn file_blocks_exec(&self) -> (r: Result<Vec<Vec<u8>>, ClutError>)
        requires
            self.wf(),
            self@.versions.len() <= i32::MAX,
        ensures
            match r {
                Ok(v) => file_blocks(self@, self@.files.len()) == Ok::<Seq<Seq<u8>>, ClutError>(buffers(v@)),
                Err(e) => file_blocks(self@, self@.files.len()) == Err::<Seq<Seq<u8>>, ClutError>(e),
            },
    {
        let mut out: Vec<Vec<u8>> = Vec::new();
        let mut j: usize = 0;
        assert(buffers(out@) =~= Seq::<Seq<u8>>::empty());
        while j < self.files.len()
            invariant
                j <= self.files@.len(),
                self.wf(),
                self@.versions.len() <= i32::MAX,
                self@.files == file_models(self.files@),
                self@.versions == table_models(self.versions@),
                file_blocks(self@, j as nat) == Ok::<Seq<Seq<u8>>, ClutError>(buffers(out@)),
            decreases self.files@.len() - j,
        {
            let refs = match self.file_refs(self.files[j].0.as_str()) {
                Ok(v) => v,
                Err(e) => {
                    proof {
                        lemma_file_blocks_err(self@, (j + 1) as nat, self@.files.len());
                    }
                    return Err(e);
                },
            };
            if refs.len() > 0x7fff_ffff {
                proof {
                    lemma_file_blocks_err(self@, (j + 1) as nat, self@.files.len());
                }
                return Err(ClutError::TooLarge);
            }
            let mut block: Vec<u8> = Vec::new();
            match crate::file_data::FileData::write_with_patches(refs.as_slice(), &mut block, &self.versions) {
                Ok(()) => {},
                Err(e) => {
                    proof {
                        lemma_file_blocks_err(self@, (j + 1) as nat, self@.files.len());
                    }
                    return Err(e);
                },
            }
            let ghost before = buffers(out@);
            out.push(block);
            proof {
                assert(buffers(out@) =~= before.push(block@));
            }
            j = j + 1;
        }
        Ok(out)
    }

    fn check_fits(&self, fs: &Vec<String>) -> (b: bool)
        ensures
            b == strings_fit(self@, str_views(fs@)),
    {
        if !text_fits(self.header.repository.as_str()) || !text_fits(self.header.base_patch_url.as_str()) {
            return false;
        }
        let gv = self.header.version.to_string();
        let pv = self.header.patch_version.to_string();
        if !text_fits(gv.as_str()) || !text_fits(pv.as_str()) {
            return false;
        }
        if self.versions.len() > 0x7fff_ffff {
            return false;
        }
        let mut i: usize = 0;
        while i < self.versions.len()
            invariant
                i <= self.versions@.len(),
                self@.versions == table_models(self.versions@),
                forall|k: int| 0 <= k < i ==> string_fits(version_text(#[trigger] self@.versions[k], true)),
            decreases self.versions@.len() - i,
        {
            let t = self.versions[i].to_string();
            if !text_fits(t.as_str()) {
                assert(!string_fits(version_text(self@.versions[i as int], true)));
                return false;
            }
            i = i + 1;
        }
        let mut i: usize = 0;
        while i < fs.len()
            invariant
                i <= fs@.len(),
                forall|k: int| 0 <= k < i ==> string_fits(#[trigger] str_views(fs@)[k]),
            decreases fs@.len() - i,
        {
            if !text_fits(fs[i].as_str()) {
                assert(!string_fits(str_views(fs@)[i as int]));
                return false;
            }
            i = i + 1;
        }
        let mut i: usize = 0;
        while i < self.files.len()
            invariant
                i <= self.files@.len(),
                self@.files == file_models(self.files@),
                forall|k: int| 0 <= k < i ==> string_fits(#[trigger] self@.files[k].0),
            decreases self.files@.len() - i,
        {
            if !text_fits(self.files[i].0.as_str()) {
                assert(!string_fits(self@.files[i as int].0));
                return false;
            }
            i = i + 1;
        }
        true
    }

    /// Rewrite as a chunked CLUT compressed with `compression`: one file's references are
    /// decoded at a time, and folders come out sorted.
    pub fn rewrite(&self, compression: CompressType) -> (r: Result<Vec<u8>, ClutError>)
        requires
            self.wf(),
        ensures
            match r {
                Ok(bytes) => exists|fs: Seq<Seq<char>>| sorted_names(fs) && fs.to_set() == self@.folders.to_set()
                    && rewrite_spec(self@, compression, fs) == Ok::<Seq<u8>, ClutError>(bytes@),
                Err(e) => exists|fs: Seq<Seq<char>>| sorted_names(fs) && fs.to_set() == self@.folders.to_set()
                    && rewrite_spec(self@, compression, fs) == Err::<Seq<u8>, ClutError>(e),
            },
    {
        let folders = sorted_folders(&self.folders);
        let ghost fs = str_views(folders@);
        assert(sorted_names(fs) && fs.to_set() == self@.folders.to_set());
        if !self.check_fits(&folders) {
            return Err(ClutError::TooLarge);
        }
        let blocks = match self.file_blocks_exec() {
            Ok(v) => v,
            Err(e) => {
                return Err(e);
            },
        };
        let mut names: Vec<String> = Vec::new();
        let mut i: usize = 0;
        while i < self.files.len()
            invariant
                i <= self.files@.len(),
                names@.len() == i,
                self@.files == file_models(self.files@),
                forall|k: int| 0 <= k < i ==> (#[trigger] names@[k])@ == self@.files[k].0,
            decreases self.files@.len() - i,
        {
            names.push(self.files[i].0.clone());
            i = i + 1;
        }
        assert(str_views(names@) =~= names_of(self@.files));
        proof {
            assert forall|k: int| 0 <= k < folders@.len() implies string_fits(#[trigger] folders@[k]@) by {
                assert(string_fits(fs[k]));
            }
            assert forall|k: int| 0 <= k < names@.len() implies string_fits(#[trigger] names@[k]@) by {
                assert(string_fits(self@.files[k].0));
            }
            assert forall|k: int| 0 <= k < self.versions@.len() implies string_fits(
                version_text(#[trigger] self.versions@[k]@, true),
            ) by {
                assert(string_fits(version_text(self@.versions[k], true)));
            }
        }
        let strings = write_strings(&self.versions, &folders, &names);
        let (raw, per) = group_blocks(strings, &blocks);
        proof {
            lemma_grouped_shape(strings_chunk(self@.versions, fs, names_of(self@.files)), buffers(blocks@));
            assert(Seq::new(per@.len(), |i: int| per@[i] as nat) =~= grouped(
                strings_chunk(self@.versions, fs, names_of(self@.files)),
                buffers(blocks@),
            ).1);
        }
        assemble(&self.header, compression, &raw, &per, &self.versions)
    }
}

fn assemble(h0: &Header, compression: CompressType, raw: &Vec<Vec<u8>>, per: &Vec<usize>, table: &Vec<PatchVersion>) -> (r: Result<Vec<u8>, ClutError>)
    requires
        raw@.len() >= 1,
        per@.len() + 1 == raw@.len(),
        header_fits(h0@),
    ensures
        match r {
            Ok(bytes) => assemble_spec(
                h0@,
                compression,
                buffers(raw@),
                Seq::new(per@.len(), |i: int| per@[i] as nat),
                table_models(table@),
            ) == Ok::<Seq<u8>, ClutError>(bytes@),
            Err(e) => assemble_spec(
                h0@,
                compression,
                buffers(raw@),
                Seq::new(per@.len(), |i: int| per@[i] as nat),
                table_models(table@),
            ) == Err::<Seq<u8>, ClutError>(e),
        },
{
    if raw.len() > 0xffff_ffff {
        return Err(ClutError::TooLarge);
    }
    let nb = match recover_blocks(raw, per, table) {
        Ok(v) => v,
        Err(e) => {
            return Err(e);
        },
    };
    let (spans, payload, total) = match pack_chunks(compression, raw) {
        Ok(x) => x,
        Err(e) => {
            return Err(e);
        },
    };
    if nb.len() > 0xffff_ffff || total > 0x7fff_ffff || payload.len() > 0x7fff_ffff {
        return Err(ClutError::TooLarge);
    }
    let mut header = h0.duplicate();
    header.file_version = Version::Indexed;
    header.compression = compression;
    header.decompressed_size = total as i32;
    header.compressed_size = payload.len() as i32;
    proof {
        crate::clut_rewrite::lemma_pack_len(compression, buffers(raw@));
    }
    let idx = Index { stride: STRIDE, chunks: spans, files: nb };
    proof {
        assert(idx@.files =~= Seq::new(idx.files@.len(), |i: int| idx.files@[i]@));
        assert forall|i: int| 0 <= i < idx.files@.len() implies (#[trigger] idx.files@[i]).checkpoints@.len() <= u32::MAX by {
            assert(block_wf(idx.files@[i]@, STRIDE));
            crate::clut_index::lemma_checkpoint_count(idx.files@[i]@.ref_count, STRIDE);
        }
    }
    let section = match idx.write() {
        Ok(b) => b,
        Err(e) => {
            return Err(e);
        },
    };
    let mut out: Vec<u8> = Vec::new();
    header.write_to(&mut out);
    push_bytes(&mut out, section.as_slice());
    push_bytes(&mut out, payload.as_slice());
    Ok(out)
}

proof fn lemma_grouped_shape(strings: Seq<u8>, blocks: Seq<Seq<u8>>)
    ensures
        grouped(strings, blocks).0.len() >= 1,
        grouped(strings, blocks).1.len() + 1 == grouped(strings, blocks).0.len(),
{
    lemma_group_invariant(
        crate::clut_rewrite::Grouping { closed: seq![strings], current: Seq::empty(), per_chunk: seq![0nat] },
        blocks,
    );
}

proof fn lemma_group_invariant(g: crate::clut_rewrite::Grouping, blocks: Seq<Seq<u8>>)
    requires
        g.closed.len() >= 1,
        g.per_chunk.len() == g.closed.len(),
    ensures
        crate::clut_rewrite::group_all(g, blocks).closed.len() >= 1,
        crate::clut_rewrite::group_all(g, blocks).per_chunk.len() == crate::clut_rewrite::group_all(g, blocks).closed.len(),
    decreases blocks.len(),
{
    if blocks.len() > 0 {
        lemma_group_invariant(g, blocks.drop_last());
    }
}


/// The first chunk a rewrite writes reads back to the version table, the folders and the
/// file names it was written from, each in its order.
pub proof fn lemma_strings_chunk_round_trip(versions: Seq<VersionModel>, folders: Seq<Seq<char>>, names: Seq<Seq<char>>)
    requires
        versions.len() <= i32::MAX,
        folders.len() <= i32::MAX,
        names.len() <= i32::MAX,
        forall|i: int| 0 <= i < versions.len() ==> crate::version::section_wf(#[trigger] versions[i]),
        forall|i: int| 0 <= i < versions.len() ==> string_fits(
            #[trigger] crate::clut_file::version_texts(versions)[i],
        ),
        forall|i: int| 0 <= i < folders.len() ==> string_fits(#[trigger] folders[i]),
        forall|i: int| 0 <= i < names.len() ==> string_fits(#[trigger] names[i]),
    ensures
        read_strings_spec(strings_chunk(versions, folders, names)) == Ok::<
            (Seq<VersionModel>, Seq<Seq<char>>, Seq<Seq<char>>, int),
            ClutError,
        >((versions, folders, names, strings_chunk(versions, folders, names).len() as int)),
{
    let b1 = crate::bytes::le_i32(versions.len() as i32);
    let b2 = crate::lut::strings_bytes(crate::clut_file::version_texts(versions));
    let b3 = crate::bytes::le_i32(folders.len() as i32);
    let b4 = crate::lut::strings_bytes(folders);
    let b5 = crate::bytes::le_i32(names.len() as i32);
    let b6 = crate::lut::strings_bytes(names);
    let d = strings_chunk(versions, folders, names);
    assert(d == b1 + b2 + b3 + b4 + b5 + b6);
    assert(crate::bytes::holds_at(d, 0, d)) by {
        assert(d.subrange(0, d.len() as int) =~= d);
    }
    crate::bytes::lemma_holds_split(d, 0, b1 + b2 + b3 + b4 + b5, b6);
    crate::bytes::lemma_holds_split(d, 0, b1 + b2 + b3 + b4, b5);
    crate::bytes::lemma_holds_split(d, 0, b1 + b2 + b3, b4);
    crate::bytes::lemma_holds_split(d, 0, b1 + b2, b3);
    crate::bytes::lemma_holds_split(d, 0, b1, b2);
    crate::bytes::lemma_read_i32(d, 0, versions.len() as i32);
    crate::clut_file::lemma_dec_versions(d, 4, versions);
    let p2: int = 4int + b2.len();
    crate::bytes::lemma_read_i32(d, p2, folders.len() as i32);
    crate::lut::lemma_dec_strings(d, p2 + 4, folders);
    let p4: int = p2 + 4 + b4.len();
    crate::bytes::lemma_read_i32(d, p4, names.len() as i32);
    crate::lut::lemma_dec_strings(d, p4 + 4, names);
}

proof fn lemma_dec_files_names(
    d: Seq<u8>,
    p: int,
    paths: Seq<Seq<char>>,
    table: Seq<VersionModel>,
)
    ensures
        crate::clut_file::dec_files(d, p, paths, table) matches Ok((files, _)) ==> files.len() == paths.len()
            && forall|i: int| 0 <= i < paths.len() ==> #[trigger] files[i].0 == paths[i],
    decreases paths.len(),
{
    if paths.len() > 0 {
        if let Ok((refs, q)) = crate::file_data::dec_file_data(d, p, table) {
            lemma_dec_files_names(d, q, paths.drop_first(), table);
            if let Ok((files, _)) = crate::clut_file::dec_files(d, p, paths, table) {
                assert forall|i: int| 0 <= i < paths.len() implies #[trigger] files[i].0 == paths[i] by {
                    if i > 0 {
                        assert(paths.drop_first()[i - 1] == paths[i]);
                    }
                }
            }
        }
    }
}

/// A CLUT that keeps its payload whole (any revision before the indexed one), read lazily
/// and read eagerly, gives the same header, the same folders, and the same file names in
/// the same order.
pub proof fn lemma_lazy_names_match_eager(d: Seq<u8>)
    requires
        read_clut_spec(d) is Ok,
        read_lazy_spec(d) is Ok,
        read_header_spec(d) matches Ok((h, _)) && h.file_version != Version::Indexed,
    ensures
        read_lazy_spec(d)->Ok_0.header == read_clut_spec(d)->Ok_0.header,
        read_lazy_spec(d)->Ok_0.folders == read_clut_spec(d)->Ok_0.folders,
        read_lazy_spec(d)->Ok_0.files.len() == read_clut_spec(d)->Ok_0.files.len(),
        forall|i: int| 0 <= i < read_clut_spec(d)->Ok_0.files.len() ==> #[trigger] read_lazy_spec(d)->Ok_0.files[i].0
            == read_clut_spec(d)->Ok_0.files[i].0,
{
    let (h, p) = read_header_spec(d)->Ok_0;
    let payload = crate::clut_file::payload_spec(d, h, p)->Ok_0;
    let (table, folders, names, q) = read_strings_spec(payload)->Ok_0;
    lemma_dec_files_names(payload, q, names, table);
}

} // verus!
