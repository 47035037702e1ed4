use vstd::prelude::*;

use crate::bytes::{
    holds_at, lemma_holds_split, lemma_read_i32, lemma_read_u32, lemma_read_u64, lemma_read_u8,
    le, le_i32, le_u32, le_u64, push_i32, push_u32, push_u64, push_u8, read_i32, read_i32_spec,
    read_u32, read_u32_spec, read_u64, read_u64_spec, read_u8, read_u8_spec, DecodeError,
};
use crate::clut_file::ClutError;

verus! {

/// One chunk's extent in a chunked payload.
#[derive(Debug, Clone, Copy, PartialEq, Eq, Structural)]
pub struct ChunkSpan {
    pub compressed_offset: u32,
    pub compressed_len: u32,
    pub decompressed_len: u32,
}

/// Where decoding can resume inside a file's references: a position in each of its three
/// regions (structs, offset deltas, lengths) and the two running values the decoder keeps.
#[derive(Debug, Clone, Copy, PartialEq, Eq, Structural)]
pub struct Checkpoint {
    pub structs: u32,
    pub offsets: u32,
    pub lengths: u32,
    pub patch_offset: u64,
    pub file_offset: u64,
}

/// One file's references: how many, how long the file is, whether offsets only grow, which
/// chunk holds them, and a checkpoint every `stride` references.
#[derive(Debug, Clone)]
pub struct Block {
    pub ref_count: u32,
    pub size: u64,
    pub ascending: bool,
    pub chunk: u32,
    pub checkpoints: Vec<Checkpoint>,
}

/// A block as plain values.
pub ghost struct BlockModel {
    pub ref_count: u32,
    pub size: u64,
    pub ascending: bool,
    pub chunk: u32,
    pub checkpoints: Seq<Checkpoint>,
}

impl View for Block {
    type V = BlockModel;

    open spec fn view(&self) -> BlockModel {
        BlockModel {
            ref_count: self.ref_count,
            size: self.size,
            ascending: self.ascending,
            chunk: self.chunk,
            checkpoints: self.checkpoints@,
        }
    }
}

/// The section between a chunked CLUT's header and its payload.
#[derive(Debug, Clone)]
pub struct Index {
    pub stride: u32,
    pub chunks: Vec<ChunkSpan>,
    pub files: Vec<Block>,
}

/// An index section as plain values.
pub ghost struct IndexModel {
    pub stride: u32,
    pub chunks: Seq<ChunkSpan>,
    pub files: Seq<BlockModel>,
}

/// Each block as plain values.
pub open spec fn block_models(bs: Seq<Block>) -> Seq<BlockModel> {
    Seq::new(bs.len(), |i: int| bs[i]@)
}

impl View for Index {
    type V = IndexModel;

    open spec fn view(&self) -> IndexModel {
        IndexModel { stride: self.stride, chunks: self.chunks@, files: block_models(self.files@) }
    }
}

/// How many checkpoints `n` references take at `stride`: one per started stride.
pub open spec fn checkpoint_count(n: u32, stride: u32) -> int {
    (n + stride - 1) / stride as int
}

/// A decoding error as a CLUT error.
pub open spec fn decode_err<T>(r: Result<T, DecodeError>) -> ClutError {
    match r {
        Err(e) => ClutError::Decode(e),
        Ok(_) => ClutError::Decode(DecodeError::Truncated),
    }
}

/// `n` chunk entries from `p`, each a compressed and an inflated length; a chunk starts where
/// the one before it ends, and no chunk may end past 4 GiB.
pub open spec fn dec_chunks(s: Seq<u8>, p: int, n: nat, offset: u32) -> Result<(Seq<ChunkSpan>, int), ClutError>
    decreases n,
{
    if n == 0 {
        Ok((Seq::empty(), p))
    } else {
        match read_u32_spec(s, p) {
            Err(e) => Err(ClutError::Decode(e)),
            Ok((clen, p1)) => match read_u32_spec(s, p1) {
                Err(e) => Err(ClutError::Decode(e)),
                Ok((dlen, p2)) => if offset + clen > u32::MAX {
                    Err(ClutError::ChunkTableOverflow)
                } else {
                    match dec_chunks(s, p2, (n - 1) as nat, (offset + clen) as u32) {
                        Err(e) => Err(e),
                        Ok((rest, q)) => Ok(
                            (
                                seq![
                                    ChunkSpan {
                                        compressed_offset: offset,
                                        compressed_len: clen,
                                        decompressed_len: dlen,
                                    },
                                ] + rest,
                                q,
                            ),
                        ),
                    }
                },
            },
        }
    }
}

/// A checkpoint at `p`: three `u32` positions and two `u64` running values.
pub open spec fn dec_checkpoint(s: Seq<u8>, p: int) -> Result<(Checkpoint, int), ClutError> {
    match read_u32_spec(s, p) {
        Err(e) => Err(ClutError::Decode(e)),
        Ok((a, p1)) => match read_u32_spec(s, p1) {
            Err(e) => Err(ClutError::Decode(e)),
            Ok((b, p2)) => match read_u32_spec(s, p2) {
                Err(e) => Err(ClutError::Decode(e)),
                Ok((c, p3)) => match read_u64_spec(s, p3) {
                    Err(e) => Err(ClutError::Decode(e)),
                    Ok((d, p4)) => match read_u64_spec(s, p4) {
                        Err(e) => Err(ClutError::Decode(e)),
                        Ok((f, p5)) => Ok(
                            (
                                Checkpoint {
                                    structs: a,
                                    offsets: b,
                                    lengths: c,
                                    patch_offset: d,
                                    file_offset: f,
                                },
                                p5,
                            ),
                        ),
                    },
                },
            },
        },
    }
}

/// `n` checkpoints from `p`.
pub open spec fn dec_checkpoints(s: Seq<u8>, p: int, n: nat) -> Result<(Seq<Checkpoint>, int), ClutError>
    decreases n,
{
    if n == 0 {
        Ok((Seq::empty(), p))
    } else {
        match dec_checkpoint(s, p) {
            Err(e) => Err(e),
            Ok((c, p1)) => match dec_checkpoints(s, p1, (n - 1) as nat) {
                Err(e) => Err(e),
                Ok((rest, q)) => Ok((seq![c] + rest, q)),
            },
        }
    }
}

/// A block at `p`: reference count, file size, whether offsets only grow (any byte but
/// zero), its chunk (one of the `chunk_count`) and exactly as many checkpoints as the
/// references need at `stride`.
pub open spec fn dec_block(s: Seq<u8>, p: int, stride: u32, chunk_count: u32) -> Result<(BlockModel, int), ClutError> {
    match read_u32_spec(s, p) {
        Err(e) => Err(ClutError::Decode(e)),
        Ok((ref_count, p1)) => match read_u64_spec(s, p1) {
            Err(e) => Err(ClutError::Decode(e)),
            Ok((size, p2)) => match read_u8_spec(s, p2) {
                Err(e) => Err(ClutError::Decode(e)),
                Ok((asc, p3)) => match read_u32_spec(s, p3) {
                    Err(e) => Err(ClutError::Decode(e)),
                    Ok((chunk, p4)) => if chunk >= chunk_count {
                        Err(ClutError::ChunkOutOfRange)
                    } else {
                        match read_u32_spec(s, p4) {
                            Err(e) => Err(ClutError::Decode(e)),
                            Ok((count, p5)) => if count != checkpoint_count(ref_count, stride) {
                                Err(ClutError::CheckpointCount)
                            } else {
                                match dec_checkpoints(s, p5, count as nat) {
                                    Err(e) => Err(e),
                                    Ok((cps, q)) => Ok(
                                        (
                                            BlockModel {
                                                ref_count,
                                                size,
                                                ascending: asc != 0,
                                                chunk,
                                                checkpoints: cps,
                                            },
                                            q,
                                        ),
                                    ),
                                }
                            },
                        }
                    },
                },
            },
        },
    }
}

/// `n` blocks from `p`.
pub open spec fn dec_blocks(s: Seq<u8>, p: int, n: nat, stride: u32, chunk_count: u32) -> Result<(Seq<BlockModel>, int), ClutError>
    decreases n,
{
    if n == 0 {
        Ok((Seq::empty(), p))
    } else {
        match dec_block(s, p, stride, chunk_count) {
            Err(e) => Err(e),
            Ok((b, p1)) => match dec_blocks(s, p1, (n - 1) as nat, stride, chunk_count) {
                Err(e) => Err(e),
                Ok((rest, q)) => Ok((seq![b] + rest, q)),
            },
        }
    }
}

/// The index a section holds: a stride other than zero, the chunk table, then the blocks.
pub open spec fn dec_section(s: Seq<u8>) -> Result<IndexModel, ClutError> {
    match read_u32_spec(s, 0) {
        Err(e) => Err(ClutError::Decode(e)),
        Ok((stride, p1)) => if stride == 0 {
            Err(ClutError::ZeroStride)
        } else {
            match read_u32_spec(s, p1) {
                Err(e) => Err(ClutError::Decode(e)),
                Ok((cc, p2)) => match dec_chunks(s, p2, cc as nat, 0) {
                    Err(e) => Err(e),
                    Ok((chunks, p3)) => match read_u32_spec(s, p3) {
                        Err(e) => Err(ClutError::Decode(e)),
                        Ok((fc, p4)) => match dec_blocks(s, p4, fc as nat, stride, cc) {
                            Err(e) => Err(e),
                            Ok((files, _)) => Ok(IndexModel { stride, chunks, files }),
                        },
                    },
                },
            }
        },
    }
}

/// The index section at `p`: its length, never negative, then that many bytes, which hold
/// the index; with where the section ends.
pub open spec fn read_index_spec(d: Seq<u8>, p: int) -> Result<(IndexModel, int), ClutError> {
    match read_i32_spec(d, p) {
        Err(e) => Err(ClutError::Decode(e)),
        Ok((size, p1)) => if size < 0 {
            Err(ClutError::Decode(DecodeError::Negative))
        } else if p1 + size > d.len() {
            Err(ClutError::Decode(DecodeError::Truncated))
        } else {
            match dec_section(d.subrange(p1, p1 + size)) {
                Err(e) => Err(e),
                Ok(idx) => Ok((idx, p1 + size)),
            }
        },
    }
}

fn read_chunks(s: &[u8], p: usize, n: u32) -> (r: Result<(Vec<ChunkSpan>, usize), ClutError>)
    ensures
        match r {
            Ok((v, q)) => dec_chunks(s@, p as int, n as nat, 0) == Ok::<(Seq<ChunkSpan>, int), ClutError>((v@, q as int)),
            Err(e) => dec_chunks(s@, p as int, n as nat, 0) == Err::<(Seq<ChunkSpan>, int), ClutError>(e),
        },
{
    let mut out: Vec<ChunkSpan> = Vec::new();
    let mut offset: u32 = 0;
    let mut pos = p;
    let mut k: u32 = 0;
    while k < n
        invariant
            k <= n,
            dec_chunks(s@, p as int, n as nat, 0) == match dec_chunks(s@, pos as int, (n - k) as nat, offset) {
                Ok((rest, q)) => Ok((out@ + rest, q)),
                Err(e) => Err(e),
            },
        decreases n - k,
    {
        let (clen, p1) = match read_u32(s, pos) {
            Ok(x) => x,
            Err(e) => {
                return Err(ClutError::Decode(e));
            },
        };
        let (dlen, p2) = match read_u32(s, p1) {
            Ok(x) => x,
            Err(e) => {
                return Err(ClutError::Decode(e));
            },
        };
        let span = ChunkSpan { compressed_offset: offset, compressed_len: clen, decompressed_len: dlen };
        let next = match offset.checked_add(clen) {
            Some(o) => o,
            None => {
                return Err(ClutError::ChunkTableOverflow);
            },
        };
        proof {
            let ghost tail = dec_chunks(s@, p2 as int, (n - k - 1) as nat, next);
            match tail {
                Ok((rest, q)) => {
                    assert(out@ + (seq![span] + rest) =~= out@.push(span) + rest);
                },
                Err(_) => {},
            }
        }
        out.push(span);
        offset = next;
        pos = p2;
        k = k + 1;
    }
    proof {
        assert(out@ + Seq::<ChunkSpan>::empty() =~= out@);
    }
    Ok((out, pos))
}

fn read_checkpoint(s: &[u8], p: usize) -> (r: Result<(Checkpoint, usize), ClutError>)
    ensures
        match r {
            Ok((c, q)) => dec_checkpoint(s@, p as int) == Ok::<(Checkpoint, int), ClutError>((c, q as int)),
            Err(e) => dec_checkpoint(s@, p as int) == Err::<(Checkpoint, int), ClutError>(e),
        },
{
    let (a, p1) = match read_u32(s, p) {
        Ok(x) => x,
        Err(e) => {
            return Err(ClutError::Decode(e));
        },
    };
    let (b, p2) = match read_u32(s, p1) {
        Ok(x) => x,
        Err(e) => {
            return Err(ClutError::Decode(e));
        },
    };
    let (c, p3) = match read_u32(s, p2) {
        Ok(x) => x,
        Err(e) => {
            return Err(ClutError::Decode(e));
        },
    };
    let (d, p4) = match read_u64(s, p3) {
        Ok(x) => x,
        Err(e) => {
            return Err(ClutError::Decode(e));
        },
    };
    let (f, p5) = match read_u64(s, p4) {
        Ok(x) => x,
        Err(e) => {
            return Err(ClutError::Decode(e));
        },
    };
    Ok((Checkpoint { structs: a, offsets: b, lengths: c, patch_offset: d, file_offset: f }, p5))
}

fn read_checkpoints(s: &[u8], p: usize, n: u32) -> (r: Result<(Vec<Checkpoint>, usize), ClutError>)
    ensures
        match r {
            Ok((v, q)) => dec_checkpoints(s@, p as int, n as nat) == Ok::<(Seq<Checkpoint>, int), ClutError>((v@, q as int)),
            Err(e) => dec_checkpoints(s@, p as int, n as nat) == Err::<(Seq<Checkpoint>, int), ClutError>(e),
        },
{
    let mut out: Vec<Checkpoint> = Vec::new();
    let mut pos = p;
    let mut k: u32 = 0;
    while k < n
        invariant
            k <= n,
            dec_checkpoints(s@, p as int, n as nat) == match dec_checkpoints(s@, pos as int, (n - k) as nat) {
                Ok((rest, q)) => Ok((out@ + rest, q)),
                Err(e) => Err(e),
            },
        decreases n - k,
    {
        let (c, p1) = match read_checkpoint(s, pos) {
            Ok(x) => x,
            Err(e) => {
                return Err(e);
            },
        };
        proof {
            match dec_checkpoints(s@, p1 as int, (n - k - 1) as nat) {
                Ok((rest, q)) => {
                    assert(out@ + (seq![c] + rest) =~= out@.push(c) + rest);
                },
                Err(_) => {},
            }
        }
        out.push(c);
        pos = p1;
        k = k + 1;
    }
    proof {
        assert(out@ + Seq::<Checkpoint>::empty() =~= out@);
    }
    Ok((out, pos))
}

fn read_block(s: &[u8], p: usize, stride: u32, chunk_count: u32) -> (r: Result<(Block, usize), ClutError>)
    requires
        stride > 0,
    ensures
        match r {
            Ok((b, q)) => dec_block(s@, p as int, stride, chunk_count) == Ok::<(BlockModel, int), ClutError>((b@, q as int)),
            Err(e) => dec_block(s@, p as int, stride, chunk_count) == Err::<(BlockModel, int), ClutError>(e),
        },
{
    let (ref_count, p1) = match read_u32(s, p) {
        Ok(x) => x,
        Err(e) => {
            return Err(ClutError::Decode(e));
        },
    };
    let (size, p2) = match read_u64(s, p1) {
        Ok(x) => x,
        Err(e) => {
            return Err(ClutError::Decode(e));
        },
    };
    let (asc, p3) = match read_u8(s, p2) {
        Ok(x) => x,
        Err(e) => {
            return Err(ClutError::Decode(e));
        },
    };
    let (chunk, p4) = match read_u32(s, p3) {
        Ok(x) => x,
        Err(e) => {
            return Err(ClutError::Decode(e));
        },
    };
    if chunk >= chunk_count {
        return Err(ClutError::ChunkOutOfRange);
    }
    let (count, p5) = match read_u32(s, p4) {
        Ok(x) => x,
        Err(e) => {
            return Err(ClutError::Decode(e));
        },
    };
    let wanted: u64 = (ref_count as u64 + stride as u64 - 1) / stride as u64;
    if count as u64 != wanted {
        return Err(ClutError::CheckpointCount);
    }
    let (checkpoints, q) = match read_checkpoints(s, p5, count) {
        Ok(x) => x,
        Err(e) => {
            return Err(e);
        },
    };
    Ok((Block { ref_count, size, ascending: asc != 0, chunk, checkpoints }, q))
}

fn read_blocks(s: &[u8], p: usize, n: u32, stride: u32, chunk_count: u32) -> (r: Result<Vec<Block>, ClutError>)
    requires
        stride > 0,
    ensures
        match r {
            Ok(v) => dec_blocks(s@, p as int, n as nat, stride, chunk_count) matches Ok((bs, _)) && bs
                == block_models(v@),
            Err(e) => dec_blocks(s@, p as int, n as nat, stride, chunk_count) == Err::<(Seq<BlockModel>, int), ClutError>(e),
        },
{
    let mut out: Vec<Block> = Vec::new();
    let mut pos = p;
    let mut k: u32 = 0;
    while k < n
        invariant
            k <= n,
            stride > 0,
            dec_blocks(s@, p as int, n as nat, stride, chunk_count) == match dec_blocks(
                s@,
                pos as int,
                (n - k) as nat,
                stride,
                chunk_count,
            ) {
                Ok((rest, q)) => Ok((block_models(out@) + rest, q)),
                Err(e) => Err(e),
            },
        decreases n - k,
    {
        let (b, p1) = match read_block(s, pos, stride, chunk_count) {
            Ok(x) => x,
            Err(e) => {
                return Err(e);
            },
        };
        proof {
            match dec_blocks(s@, p1 as int, (n - k - 1) as nat, stride, chunk_count) {
                Ok((rest, q)) => {
                    assert(block_models(out@) + (seq![b@] + rest) =~= block_models(out@.push(b)) + rest);
                },
                Err(_) => {},
            }
        }
        out.push(b);
        pos = p1;
        k = k + 1;
    }
    proof {
        assert(block_models(out@) + Seq::<BlockModel>::empty() =~= block_models(out@));
    }
    Ok(out)
}

impl Index {
    /// The index section at `p` and where it ends.
    pub fn read(d: &[u8], p: usize) -> (r: Result<(Index, usize), ClutError>)
        ensures
            match r {
                Ok((idx, q)) => read_index_spec(d@, p as int) == Ok::<(IndexModel, int), ClutError>((idx@, q as int)),
                Err(e) => read_index_spec(d@, p as int) == Err::<(IndexModel, int), ClutError>(e),
            },
    {
        let (size, p1) = match read_i32(d, p) {
            Ok(x) => x,
            Err(e) => {
                return Err(ClutError::Decode(e));
            },
        };
        if size < 0 {
            return Err(ClutError::Decode(DecodeError::Negative));
        }
        if size as usize > d.len() - p1 {
            return Err(ClutError::Decode(DecodeError::Truncated));
        }
        let end = p1 + size as usize;
        let s = vstd::slice::slice_subrange(d, p1, end);
        let (stride, q1) = match read_u32(s, 0) {
            Ok(x) => x,
            Err(e) => {
                return Err(ClutError::Decode(e));
            },
        };
        if stride == 0 {
            return Err(ClutError::ZeroStride);
        }
        let (cc, q2) = match read_u32(s, q1) {
            Ok(x) => x,
            Err(e) => {
                return Err(ClutError::Decode(e));
            },
        };
        let (chunks, q3) = match read_chunks(s, q2, cc) {
            Ok(x) => x,
            Err(e) => {
                return Err(e);
            },
        };
        let (fc, q4) = match read_u32(s, q3) {
            Ok(x) => x,
            Err(e) => {
                return Err(ClutError::Decode(e));
            },
        };
        let files = match read_blocks(s, q4, fc, stride, cc) {
            Ok(v) => v,
            Err(e) => {
                return Err(e);
            },
        };
        Ok((Index { stride, chunks, files }, end))
    }
}

/// A chunk's table entry: its compressed and its inflated length.
pub open spec fn chunk_bytes(c: ChunkSpan) -> Seq<u8> {
    le_u32(c.compressed_len) + le_u32(c.decompressed_len)
}

/// The chunk table's entries.
pub open spec fn chunks_bytes(cs: Seq<ChunkSpan>) -> Seq<u8> {
    cs.map_values(|c: ChunkSpan| chunk_bytes(c)).flatten()
}

/// A checkpoint's bytes.
pub open spec fn checkpoint_bytes(c: Checkpoint) -> Seq<u8> {
    le_u32(c.structs) + le_u32(c.offsets) + le_u32(c.lengths) + le_u64(c.patch_offset) + le_u64(c.file_offset)
}

/// The checkpoints' bytes.
pub open spec fn checkpoints_bytes(cs: Seq<Checkpoint>) -> Seq<u8> {
    cs.map_values(|c: Checkpoint| checkpoint_bytes(c)).flatten()
}

/// A block's bytes.
pub open spec fn block_bytes(b: BlockModel) -> Seq<u8> {
    le_u32(b.ref_count) + le_u64(b.size) + le(
        if b.ascending {
            1nat
        } else {
            0nat
        },
        1,
    ) + le_u32(b.chunk) + le_u32(b.checkpoints.len() as u32) + checkpoints_bytes(b.checkpoints)
}

/// The blocks' bytes.
pub open spec fn blocks_bytes(bs: Seq<BlockModel>) -> Seq<u8> {
    bs.map_values(|b: BlockModel| block_bytes(b)).flatten()
}

/// The bytes of an index section, without its length.
pub open spec fn section_bytes(idx: IndexModel) -> Seq<u8> {
    le_u32(idx.stride) + le_u32(idx.chunks.len() as u32) + chunks_bytes(idx.chunks) + le_u32(
        idx.files.len() as u32,
    ) + blocks_bytes(idx.files)
}

/// The index section as a file holds it: its length, then its bytes.
pub open spec fn index_bytes(idx: IndexModel) -> Seq<u8> {
    le_i32(section_bytes(idx).len() as i32) + section_bytes(idx)
}

/// Whether the chunks follow each other from `offset` on, none ending past 4 GiB.
pub open spec fn chunks_follow(cs: Seq<ChunkSpan>, offset: int) -> bool
    decreases cs.len(),
{
    cs.len() == 0 || (cs[0].compressed_offset == offset && offset + cs[0].compressed_len <= u32::MAX
        && chunks_follow(cs.drop_first(), offset + cs[0].compressed_len))
}

/// Whether an index can be written and read back as it is: a stride other than zero,
/// counts that fit 32 bits, chunks that follow each other, and blocks that name a chunk of
/// the table and carry the checkpoints their references need.
pub open spec fn index_wf(idx: IndexModel) -> bool {
    &&& idx.stride > 0
    &&& idx.chunks.len() <= u32::MAX
    &&& idx.files.len() <= u32::MAX
    &&& chunks_follow(idx.chunks, 0)
    &&& forall|i: int| 0 <= i < idx.files.len() ==> #[trigger] idx.files[i].chunk < idx.chunks.len()
        && idx.files[i].checkpoints.len() == checkpoint_count(idx.files[i].ref_count, idx.stride)
    &&& section_bytes(idx).len() <= i32::MAX
}

proof fn lemma_dec_chunks(s: Seq<u8>, p: int, cs: Seq<ChunkSpan>, offset: int)
    requires
        0 <= offset <= u32::MAX,
        chunks_follow(cs, offset),
        holds_at(s, p, chunks_bytes(cs)),
    ensures
        dec_chunks(s, p, cs.len(), offset as u32) == Ok::<(Seq<ChunkSpan>, int), ClutError>((cs, p + chunks_bytes(cs).len())),
    decreases cs.len(),
{
    if cs.len() == 0 {
        assert(cs =~= Seq::<ChunkSpan>::empty());
    } else {
        let c = cs[0];
        let rest = cs.drop_first();
        assert(cs.map_values(|c: ChunkSpan| chunk_bytes(c)).drop_first() =~= rest.map_values(
            |c: ChunkSpan| chunk_bytes(c),
        ));
        assert(chunks_bytes(cs) == chunk_bytes(c) + chunks_bytes(rest));
        lemma_holds_split(s, p, chunk_bytes(c), chunks_bytes(rest));
        lemma_holds_split(s, p, le_u32(c.compressed_len), le_u32(c.decompressed_len));
        lemma_read_u32(s, p, c.compressed_len);
        lemma_read_u32(s, p + 4, c.decompressed_len);
        lemma_dec_chunks(s, p + 8, rest, offset + c.compressed_len);
        assert(seq![c] + rest =~= cs);
    }
}

proof fn lemma_dec_checkpoints(s: Seq<u8>, p: int, cs: Seq<Checkpoint>)
    requires
        holds_at(s, p, checkpoints_bytes(cs)),
    ensures
        dec_checkpoints(s, p, cs.len()) == Ok::<(Seq<Checkpoint>, int), ClutError>((cs, p + checkpoints_bytes(cs).len())),
    decreases cs.len(),
{
    if cs.len() == 0 {
        assert(cs =~= Seq::<Checkpoint>::empty());
    } else {
        let c = cs[0];
        let rest = cs.drop_first();
        assert(cs.map_values(|c: Checkpoint| checkpoint_bytes(c)).drop_first() =~= rest.map_values(
            |c: Checkpoint| checkpoint_bytes(c),
        ));
        assert(checkpoints_bytes(cs) == checkpoint_bytes(c) + checkpoints_bytes(rest));
        lemma_holds_split(s, p, checkpoint_bytes(c), checkpoints_bytes(rest));
        let a = le_u32(c.structs);
        let b = le_u32(c.offsets);
        let l = le_u32(c.lengths);
        let d = le_u64(c.patch_offset);
        let f = le_u64(c.file_offset);
        lemma_holds_split(s, p, a + b + l + d, f);
        lemma_holds_split(s, p, a + b + l, d);
        lemma_holds_split(s, p, a + b, l);
        lemma_holds_split(s, p, a, b);
        lemma_read_u32(s, p, c.structs);
        lemma_read_u32(s, p + 4, c.offsets);
        lemma_read_u32(s, p + 8, c.lengths);
        lemma_read_u64(s, p + 12, c.patch_offset);
        lemma_read_u64(s, p + 20, c.file_offset);
        lemma_dec_checkpoints(s, p + 28, rest);
        assert(seq![c] + rest =~= cs);
    }
}

pub proof fn lemma_checkpoint_count(n: u32, stride: u32)
    requires
        stride > 0,
    ensures
        0 <= checkpoint_count(n, stride) <= u32::MAX,
{
    assert((n + stride - 1) / stride as int <= n as int || n == 0) by (nonlinear_arith)
        requires
            stride > 0,
    ;
    assert(0 <= (n + stride - 1) / stride as int) by (nonlinear_arith)
        requires
            stride > 0,
    ;
    if n == 0 {
        assert((stride - 1) / stride as int == 0) by (nonlinear_arith)
            requires
                stride > 0,
        ;
    }
}

/// A block with references has at least one checkpoint.
pub proof fn lemma_checkpoint_positive(n: u32, stride: u32)
    requires
        stride > 0,
        n > 0,
    ensures
        checkpoint_count(n, stride) >= 1,
{
    assert((n + stride - 1) / stride as int >= 1) by (nonlinear_arith)
        requires
            stride > 0,
            n > 0,
    ;
}

proof fn lemma_dec_block(s: Seq<u8>, p: int, b: BlockModel, stride: u32, chunk_count: u32)
    requires
        stride > 0,
        b.chunk < chunk_count,
        b.checkpoints.len() == checkpoint_count(b.ref_count, stride),
        holds_at(s, p, block_bytes(b)),
    ensures
        dec_block(s, p, stride, chunk_count) == Ok::<(BlockModel, int), ClutError>((b, p + block_bytes(b).len())),
{
    lemma_checkpoint_count(b.ref_count, stride);
    let asc: nat = if b.ascending {
        1
    } else {
        0
    };
    let r = le_u32(b.ref_count);
    let z = le_u64(b.size);
    let a = le(asc, 1);
    let c = le_u32(b.chunk);
    let n = le_u32(b.checkpoints.len() as u32);
    let cps = checkpoints_bytes(b.checkpoints);
    lemma_holds_split(s, p, r + z + a + c + n, cps);
    lemma_holds_split(s, p, r + z + a + c, n);
    lemma_holds_split(s, p, r + z + a, c);
    lemma_holds_split(s, p, r + z, a);
    lemma_holds_split(s, p, r, z);
    crate::bytes::lemma_pow_values();
    lemma_read_u32(s, p, b.ref_count);
    lemma_read_u64(s, p + 4, b.size);
    lemma_read_u8(s, p + 12, asc as u8);
    lemma_read_u32(s, p + 13, b.chunk);
    lemma_read_u32(s, p + 17, b.checkpoints.len() as u32);
    lemma_dec_checkpoints(s, p + 21, b.checkpoints);
}

proof fn lemma_dec_blocks(s: Seq<u8>, p: int, bs: Seq<BlockModel>, stride: u32, chunk_count: u32)
    requires
        stride > 0,
        forall|i: int| 0 <= i < bs.len() ==> #[trigger] bs[i].chunk < chunk_count
            && bs[i].checkpoints.len() == checkpoint_count(bs[i].ref_count, stride),
        holds_at(s, p, blocks_bytes(bs)),
    ensures
        dec_blocks(s, p, bs.len(), stride, chunk_count) == Ok::<(Seq<BlockModel>, int), ClutError>((bs, p + blocks_bytes(bs).len())),
    decreases bs.len(),
{
    if bs.len() == 0 {
        assert(bs =~= Seq::<BlockModel>::empty());
    } else {
        let b = bs[0];
        let rest = bs.drop_first();
        assert(bs.map_values(|b: BlockModel| block_bytes(b)).drop_first() =~= rest.map_values(
            |b: BlockModel| block_bytes(b),
        ));
        assert(blocks_bytes(bs) == block_bytes(b) + blocks_bytes(rest));
        lemma_holds_split(s, p, block_bytes(b), blocks_bytes(rest));
        lemma_dec_block(s, p, b, stride, chunk_count);
        assert forall|i: int| 0 <= i < rest.len() implies #[trigger] rest[i].chunk < chunk_count
            && rest[i].checkpoints.len() == checkpoint_count(rest[i].ref_count, stride) by {
            assert(rest[i] == bs[i + 1]);
        }
        lemma_dec_blocks(s, p + block_bytes(b).len(), rest, stride, chunk_count);
        assert(seq![b] + rest =~= bs);
    }
}

pub(crate) proof fn lemma_dec_section(idx: IndexModel)
    requires
        index_wf(idx),
    ensures
        dec_section(section_bytes(idx)) == Ok::<IndexModel, ClutError>(idx),
{
    let s = section_bytes(idx);
    assert(holds_at(s, 0, s)) by {
        assert(s.subrange(0, s.len() as int) =~= s);
    }
    let st = le_u32(idx.stride);
    let cc = le_u32(idx.chunks.len() as u32);
    let cb = chunks_bytes(idx.chunks);
    let fc = le_u32(idx.files.len() as u32);
    let bb = blocks_bytes(idx.files);
    lemma_holds_split(s, 0, st + cc + cb + fc, bb);
    lemma_holds_split(s, 0, st + cc + cb, fc);
    lemma_holds_split(s, 0, st + cc, cb);
    lemma_holds_split(s, 0, st, cc);
    lemma_read_u32(s, 0, idx.stride);
    lemma_read_u32(s, 4, idx.chunks.len() as u32);
    lemma_dec_chunks(s, 8, idx.chunks, 0);
    lemma_read_u32(s, 8int + cb.len(), idx.files.len() as u32);
    lemma_dec_blocks(s, 12int + cb.len(), idx.files, idx.stride, idx.chunks.len() as u32);
}

/// An index section written and read back is the index, whatever follows it.
pub proof fn lemma_index_round_trip(idx: IndexModel, rest: Seq<u8>)
    requires
        index_wf(idx),
    ensures
        read_index_spec(index_bytes(idx) + rest, 0) == Ok::<(IndexModel, int), ClutError>(
            (idx, index_bytes(idx).len() as int),
        ),
{
    let sec = section_bytes(idx);
    let d = index_bytes(idx) + rest;
    let len = le_i32(sec.len() as i32);
    assert(d =~= len + sec + rest);
    assert(holds_at(d, 0, len + sec + rest)) by {
        assert(d.subrange(0, d.len() as int) =~= d);
    }
    lemma_holds_split(d, 0, len + sec, rest);
    lemma_holds_split(d, 0, len, sec);
    lemma_read_i32(d, 0, sec.len() as i32);
    assert(d.subrange(4, 4int + sec.len()) =~= sec);
    lemma_dec_section(idx);
}

fn write_checkpoint(out: &mut Vec<u8>, c: &Checkpoint)
    ensures
        final(out)@ == old(out)@ + checkpoint_bytes(*c),
{
    push_u32(out, c.structs);
    push_u32(out, c.offsets);
    push_u32(out, c.lengths);
    push_u64(out, c.patch_offset);
    push_u64(out, c.file_offset);
    assert(out@ =~= old(out)@ + checkpoint_bytes(*c));
}

impl Block {
    /// Append the block's bytes.
    pub fn write(&self, out: &mut Vec<u8>)
        requires
            self.checkpoints@.len() <= u32::MAX,
        ensures
            final(out)@ == old(out)@ + block_bytes(self@),
    {
        proof {
            crate::bytes::lemma_pow_values();
        }
        push_u32(out, self.ref_count);
        push_u64(out, self.size);
        push_u8(out, if self.ascending {
            1
        } else {
            0
        });
        push_u32(out, self.chunk);
        push_u32(out, self.checkpoints.len() as u32);
        let ghost head = out@;
        let mut k: usize = 0;
        while k < self.checkpoints.len()
            invariant
                k <= self.checkpoints@.len(),
                out@ == head + checkpoints_bytes(self.checkpoints@.take(k as int)),
            decreases self.checkpoints@.len() - k,
        {
            proof {
                let f = |c: Checkpoint| checkpoint_bytes(c);
                assert(self.checkpoints@.take(k + 1).map_values(f) =~= self.checkpoints@.take(
                    k as int,
                ).map_values(f).push(f(self.checkpoints@[k as int])));
                self.checkpoints@.take(k as int).map_values(f).lemma_flatten_push(
                    f(self.checkpoints@[k as int]),
                );
            }
            write_checkpoint(out, &self.checkpoints[k]);
            k = k + 1;
        }
        assert(self.checkpoints@.take(k as int) =~= self.checkpoints@);
        assert(out@ =~= old(out)@ + block_bytes(self@));
    }
}

impl Index {
    /// The index section as a file holds it.
    pub fn write(&self) -> (r: Result<Vec<u8>, ClutError>)
        requires
            self.chunks@.len() <= u32::MAX,
            self.files@.len() <= u32::MAX,
            forall|i: int| 0 <= i < self.files@.len() ==> (#[trigger] self.files@[i]).checkpoints@.len() <= u32::MAX,
        ensures
            match r {
                Ok(bytes) => section_bytes(self@).len() <= i32::MAX && bytes@ == index_bytes(self@),
                Err(e) => section_bytes(self@).len() > i32::MAX && e == ClutError::TooLarge,
            },
    {
        let mut s: Vec<u8> = Vec::new();
        push_u32(&mut s, self.stride);
        push_u32(&mut s, self.chunks.len() as u32);
        let ghost head = s@;
        let mut k: usize = 0;
        while k < self.chunks.len()
            invariant
                k <= self.chunks@.len(),
                s@ == head + chunks_bytes(self.chunks@.take(k as int)),
            decreases self.chunks@.len() - k,
        {
            proof {
                let f = |c: ChunkSpan| chunk_bytes(c);
                assert(self.chunks@.take(k + 1).map_values(f) =~= self.chunks@.take(k as int).map_values(
                    f,
                ).push(f(self.chunks@[k as int])));
                self.chunks@.take(k as int).map_values(f).lemma_flatten_push(f(self.chunks@[k as int]));
            }
            let c = self.chunks[k];
            push_u32(&mut s, c.compressed_len);
            push_u32(&mut s, c.decompressed_len);
            k = k + 1;
        }
        assert(self.chunks@.take(k as int) =~= self.chunks@);
        push_u32(&mut s, self.files.len() as u32);
        let ghost mid = s@;
        let mut j: usize = 0;
        while j < self.files.len()
            invariant
                j <= self.files@.len(),
                forall|i: int| 0 <= i < self.files@.len() ==> (#[trigger] self.files@[i]).checkpoints@.len() <= u32::MAX,
                s@ == mid + blocks_bytes(block_models(self.files@).take(j as int)),
            decreases self.files@.len() - j,
        {
            proof {
                let f = |b: BlockModel| block_bytes(b);
                let ms = block_models(self.files@);
                assert(ms.take(j + 1).map_values(f) =~= ms.take(j as int).map_values(f).push(
                    f(ms[j as int]),
                ));
                ms.take(j as int).map_values(f).lemma_flatten_push(f(ms[j as int]));
            }
            self.files[j].write(&mut s);
            j = j + 1;
        }
        assert(block_models(self.files@).take(j as int) =~= block_models(self.files@));
        assert(s@ =~= section_bytes(self@));
        if s.len() > 0x7fff_ffff {
            return Err(ClutError::TooLarge);
        }
        let mut out: Vec<u8> = Vec::new();
        push_i32(&mut out, s.len() as i32);
        let ghost first = out@;
        let mut i: usize = 0;
        while i < s.len()
            invariant
                i <= s@.len(),
                out@ == first + s@.take(i as int),
            decreases s@.len() - i,
        {
            out.push(s[i]);
            assert(s@.take(i + 1) =~= s@.take(i as int).push(s@[i as int]));
            i = i + 1;
        }
        assert(s@.take(i as int) =~= s@);
        Ok(out)
    }
}

proof fn lemma_dec_checkpoints_len(s: Seq<u8>, p: int, n: nat)
    ensures
        dec_checkpoints(s, p, n) matches Ok((cps, _)) ==> cps.len() == n,
    decreases n,
{
    if n > 0 {
        match dec_checkpoint(s, p) {
            Ok((c, p1)) => lemma_dec_checkpoints_len(s, p1, (n - 1) as nat),
            Err(_) => {},
        }
    }
}

proof fn lemma_dec_chunks_len(s: Seq<u8>, p: int, n: nat, offset: u32)
    ensures
        dec_chunks(s, p, n, offset) matches Ok((cs, _)) ==> cs.len() == n,
    decreases n,
{
    if n > 0 {
        match read_u32_spec(s, p) {
            Ok((clen, p1)) => match read_u32_spec(s, p1) {
                Ok((dlen, p2)) => if offset + clen <= u32::MAX {
                    lemma_dec_chunks_len(s, p2, (n - 1) as nat, (offset + clen) as u32);
                },
                Err(_) => {},
            },
            Err(_) => {},
        }
    }
}

proof fn lemma_dec_blocks_wf(s: Seq<u8>, p: int, n: nat, stride: u32, chunk_count: u32)
    ensures
        dec_blocks(s, p, n, stride, chunk_count) matches Ok((bs, _)) ==> bs.len() == n && forall|i: int|
            0 <= i < bs.len() ==> #[trigger] bs[i].chunk < chunk_count && bs[i].checkpoints.len()
                == checkpoint_count(bs[i].ref_count, stride),
    decreases n,
{
    if n > 0 {
        match dec_block(s, p, stride, chunk_count) {
            Ok((b, p1)) => {
                lemma_dec_blocks_wf(s, p1, (n - 1) as nat, stride, chunk_count);
                let r1 = read_u32_spec(s, p)->Ok_0.1;
                let r2 = read_u64_spec(s, r1)->Ok_0.1;
                let r3 = read_u8_spec(s, r2)->Ok_0.1;
                let r4 = read_u32_spec(s, r3)->Ok_0.1;
                let r5 = read_u32_spec(s, r4)->Ok_0.1;
                lemma_dec_checkpoints_len(s, r5, read_u32_spec(s, r4)->Ok_0.0 as nat);
                match dec_blocks(s, p1, (n - 1) as nat, stride, chunk_count) {
                    Ok((rest, q)) => {
                        let bs = seq![b] + rest;
                        assert forall|i: int| 0 <= i < bs.len() implies #[trigger] bs[i].chunk < chunk_count
                            && bs[i].checkpoints.len() == checkpoint_count(bs[i].ref_count, stride) by {
                            if i > 0 {
                                assert(bs[i] == rest[i - 1]);
                            }
                        }
                    },
                    Err(_) => {},
                }
            },
            Err(_) => {},
        }
    }
}

/// An index read from a file has a stride other than zero, and each block names a chunk of
/// the table and carries the checkpoints its references need.
pub proof fn lemma_read_index_wf(d: Seq<u8>, p: int)
    ensures
        read_index_spec(d, p) matches Ok((idx, _)) ==> idx.stride > 0 && forall|i: int|
            0 <= i < idx.files.len() ==> #[trigger] idx.files[i].chunk < idx.chunks.len()
                && idx.files[i].checkpoints.len() == checkpoint_count(idx.files[i].ref_count, idx.stride),
{
    match read_i32_spec(d, p) {
        Ok((size, p1)) => if size >= 0 && p1 + size <= d.len() {
            let s = d.subrange(p1, p1 + size);
            match read_u32_spec(s, 0) {
                Ok((stride, q1)) => match read_u32_spec(s, q1) {
                    Ok((cc, q2)) => {
                        lemma_dec_chunks_len(s, q2, cc as nat, 0);
                        match dec_chunks(s, q2, cc as nat, 0) {
                            Ok((chunks, q3)) => match read_u32_spec(s, q3) {
                                Ok((fc, q4)) => lemma_dec_blocks_wf(s, q4, fc as nat, stride, cc),
                                Err(_) => {},
                            },
                            Err(_) => {},
                        }
                    },
                    Err(_) => {},
                },
                Err(_) => {},
            }
        },
        Err(_) => {},
    }
}

} // verus!
