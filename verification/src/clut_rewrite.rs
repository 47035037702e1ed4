use vstd::prelude::*;

use crate::bytes::{le_i32, push_bytes, push_i32, string_fits};
use crate::clut::CompressType;
use crate::clut_file::{version_texts, ClutError};
use crate::clut_index::ChunkSpan;
use crate::codec::{compress_chunk, compressed};
use crate::file_data::table_models;
use crate::lut::{strings_bytes, write_names};
use crate::names::{insert_name, sorted_names, str_views};
use crate::version::{version_text, PatchVersion, VersionModel};

verus! {

/// Chunks are grown to about this size before they are closed; a block larger than this
/// gets a chunk of its own.
pub const TARGET_CHUNK: usize = 1048576;

/// Chunks being filled: those closed so far (the string sections first), the one being
/// filled, and how many files each chunk after the string sections holds, the last count
/// being the one being filled.
pub ghost struct Grouping {
    pub closed: Seq<Seq<u8>>,
    pub current: Seq<u8>,
    pub per_chunk: Seq<nat>,
}

/// One file's block added: a chunk that would grow past the target is closed first (unless
/// empty), and a chunk that reaches the target is closed after.
pub open spec fn group_step(g: Grouping, block: Seq<u8>) -> Grouping {
    let g1 = if g.current.len() > 0 && g.current.len() + block.len() > TARGET_CHUNK {
        Grouping { closed: g.closed.push(g.current), current: Seq::empty(), per_chunk: g.per_chunk.push(0) }
    } else {
        g
    };
    let g2 = Grouping {
        closed: g1.closed,
        current: g1.current + block,
        per_chunk: g1.per_chunk.update(g1.per_chunk.len() - 1, g1.per_chunk.last() + 1),
    };
    if g2.current.len() >= TARGET_CHUNK {
        Grouping { closed: g2.closed.push(g2.current), current: Seq::empty(), per_chunk: g2.per_chunk.push(0) }
    } else {
        g2
    }
}

/// Every block added in turn.
pub open spec fn group_all(g: Grouping, blocks: Seq<Seq<u8>>) -> Grouping
    decreases blocks.len(),
{
    if blocks.len() == 0 {
        g
    } else {
        group_step(group_all(g, blocks.drop_last()), blocks.last())
    }
}

/// The raw chunks, the string sections first, and how many files each later chunk holds.
pub open spec fn grouped(strings: Seq<u8>, blocks: Seq<Seq<u8>>) -> (Seq<Seq<u8>>, Seq<nat>) {
    let g = group_all(Grouping { closed: seq![strings], current: Seq::empty(), per_chunk: seq![0nat] }, blocks);
    if g.current.len() > 0 {
        (g.closed.push(g.current), g.per_chunk)
    } else {
        (g.closed, g.per_chunk.drop_last())
    }
}

/// The byte contents of each buffer.
pub open spec fn buffers(v: Seq<Vec<u8>>) -> Seq<Seq<u8>> {
    Seq::new(v.len(), |i: int| v[i]@)
}

proof fn lemma_group_all_shape(g: Grouping, blocks: Seq<Seq<u8>>)
    requires
        g.per_chunk.len() >= 1,
    ensures
        group_all(g, blocks).per_chunk.len() >= 1,
    decreases blocks.len(),
{
    if blocks.len() > 0 {
        lemma_group_all_shape(g, blocks.drop_last());
    }
}

/// Group the files' blocks into chunks after the string sections.
pub fn group_blocks(strings: Vec<u8>, blocks: &Vec<Vec<u8>>) -> (r: (Vec<Vec<u8>>, Vec<usize>))
    ensures
        buffers(r.0@) == grouped(strings@, buffers(blocks@)).0,
        r.1@.len() == grouped(strings@, buffers(blocks@)).1.len(),
        forall|i: int| 0 <= i < r.1@.len() ==> r.1@[i] as nat == #[trigger] grouped(strings@, buffers(blocks@)).1[i],
{
    let ghost g0 = Grouping { closed: seq![strings@], current: Seq::empty(), per_chunk: seq![0nat] };
    let mut raw: Vec<Vec<u8>> = Vec::new();
    raw.push(strings);
    let mut current: Vec<u8> = Vec::new();
    let mut per: Vec<usize> = Vec::new();
    per.push(0);
    let mut j: usize = 0;
    proof {
        assert(buffers(raw@) =~= g0.closed);
        assert(buffers(blocks@).take(0) =~= Seq::<Seq<u8>>::empty());
    }
    while j < blocks.len()
        invariant
            j <= blocks@.len(),
            per@.len() >= 1,
            per@.len() <= j + 1 + j,
            current@.len() < TARGET_CHUNK,
            ({
                let g = group_all(g0, buffers(blocks@).take(j as int));
                &&& buffers(raw@) == g.closed
                &&& current@ == g.current
                &&& per@.len() == g.per_chunk.len()
                &&& forall|i: int| 0 <= i < per@.len() ==> per@[i] as nat == #[trigger] g.per_chunk[i]
            }),
            forall|i: int| 0 <= i < per@.len() ==> per@[i] <= j,
        decreases blocks@.len() - j,
    {
        let ghost gb = group_all(g0, buffers(blocks@).take(j as int));
        proof {
            assert(buffers(blocks@).take(j + 1).drop_last() =~= buffers(blocks@).take(j as int));
            assert(buffers(blocks@).take(j + 1).last() == blocks@[j as int]@);
        }
        let block = &blocks[j];
        if current.len() > 0 && block.len() > TARGET_CHUNK - current.len() {
            let mut done: Vec<u8> = Vec::new();
            std::mem::swap(&mut done, &mut current);
            raw.push(done);
            per.push(0);
        }
        push_bytes(&mut current, block.as_slice());
        let last = per.len() - 1;
        let count = per[last];
        per.set(last, count + 1);
        if current.len() >= TARGET_CHUNK {
            let mut done: Vec<u8> = Vec::new();
            std::mem::swap(&mut done, &mut current);
            raw.push(done);
            per.push(0);
        }
        proof {
            let g = group_all(g0, buffers(blocks@).take(j + 1));
            assert(buffers(raw@) =~= g.closed);
            assert(current@ =~= g.current);
            assert(per@.len() == g.per_chunk.len());
        }
        j = j + 1;
    }
    proof {
        assert(buffers(blocks@).take(j as int) =~= buffers(blocks@));
    }
    if current.len() > 0 {
        raw.push(current);
        proof {
            let g = group_all(g0, buffers(blocks@));
            assert(buffers(raw@) =~= g.closed.push(g.current));
        }
    } else {
        per.pop();
        proof {
            let g = group_all(g0, buffers(blocks@));
            assert(per@ =~= per@);
        }
    }
    (raw, per)
}

/// A chunked CLUT's first chunk: the version table, the folders and the file names.
pub open spec fn strings_chunk(versions: Seq<VersionModel>, folders: Seq<Seq<char>>, names: Seq<Seq<char>>) -> Seq<u8> {
    le_i32(versions.len() as i32) + strings_bytes(version_texts(versions)) + le_i32(folders.len() as i32)
        + strings_bytes(folders) + le_i32(names.len() as i32) + strings_bytes(names)
}

/// Write a chunked CLUT's first chunk.
pub fn write_strings(versions: &Vec<PatchVersion>, folders: &Vec<String>, names: &Vec<String>) -> (out: Vec<u8>)
    requires
        forall|i: int| 0 <= i < versions@.len() ==> string_fits(version_text(#[trigger] versions@[i]@, true)),
        forall|i: int| 0 <= i < folders@.len() ==> string_fits(#[trigger] folders@[i]@),
        forall|i: int| 0 <= i < names@.len() ==> string_fits(#[trigger] names@[i]@),
    ensures
        out@ == strings_chunk(table_models(versions@), str_views(folders@), str_views(names@)),
{
    let mut out: Vec<u8> = Vec::new();
    push_i32(&mut out, versions.len() as i32);
    let mut texts: Vec<String> = Vec::new();
    let mut i: usize = 0;
    while i < versions.len()
        invariant
            i <= versions@.len(),
            texts@.len() == i,
            forall|k: int| 0 <= k < i ==> (#[trigger] texts@[k])@ == version_text(versions@[k]@, true),
        decreases versions@.len() - i,
    {
        texts.push(versions[i].to_string());
        i = i + 1;
    }
    assert(str_views(texts@) =~= version_texts(table_models(versions@)));
    assert forall|k: int| 0 <= k < texts@.len() implies string_fits(#[trigger] texts@[k]@) by {
        assert(texts@[k]@ == version_text(versions@[k]@, true));
    }
    write_names(&mut out, &texts);
    push_i32(&mut out, folders.len() as i32);
    write_names(&mut out, folders);
    push_i32(&mut out, names.len() as i32);
    write_names(&mut out, names);
    assert(table_models(versions@).len() == versions@.len());
    out
}

/// The folder names sorted, each once.
pub fn sorted_folders(folders: &Vec<String>) -> (out: Vec<String>)
    ensures
        sorted_names(str_views(out@)),
        str_views(out@).to_set() == str_views(folders@).to_set(),
{
    let mut out: Vec<String> = Vec::new();
    let mut i: usize = 0;
    proof {
        assert(str_views(out@).to_set() =~= str_views(folders@).take(0).to_set());
    }
    while i < folders.len()
        invariant
            i <= folders@.len(),
            sorted_names(str_views(out@)),
            str_views(out@).to_set() == str_views(folders@).take(i as int).to_set(),
        decreases folders@.len() - i,
    {
        insert_name(&mut out, folders[i].clone());
        proof {
            assert(str_views(folders@).take(i + 1) =~= str_views(folders@).take(i as int).push(folders@[i as int]@));
            str_views(folders@).take(i as int).lemma_push_to_set_commute(folders@[i as int]@);
        }
        i = i + 1;
    }
    assert(str_views(folders@).take(i as int) =~= str_views(folders@));
    out
}

/// Each raw chunk compressed, one after another, with its table entry: where it starts in
/// the packed payload, how long it is packed and how long raw.
pub open spec fn pack(kind: CompressType, raw: Seq<Seq<u8>>) -> (Seq<ChunkSpan>, Seq<u8>)
    decreases raw.len(),
{
    if raw.len() == 0 {
        (Seq::empty(), Seq::empty())
    } else {
        let (spans, payload) = pack(kind, raw.drop_last());
        let c = compressed(kind, raw.last());
        (
            spans.push(
                ChunkSpan {
                    compressed_offset: payload.len() as u32,
                    compressed_len: c.len() as u32,
                    decompressed_len: raw.last().len() as u32,
                },
            ),
            payload + c,
        )
    }
}

/// How many raw bytes the chunks hold.
pub open spec fn raw_total(raw: Seq<Seq<u8>>) -> nat
    decreases raw.len(),
{
    if raw.len() == 0 {
        0
    } else {
        raw_total(raw.drop_last()) + raw.last().len()
    }
}

proof fn lemma_raw_total_grows(raw: Seq<Seq<u8>>, k: nat)
    requires
        k <= raw.len(),
    ensures
        raw_total(raw.take(k as int)) <= raw_total(raw),
    decreases raw.len() - k,
{
    if k < raw.len() {
        lemma_raw_total_grows(raw, k + 1);
        assert(raw.take(k as int + 1).drop_last() =~= raw.take(k as int));
    } else {
        assert(raw.take(k as int) =~= raw);
    }
}

/// Compress every raw chunk; fails only when their total length overflows 64 bits.
pub fn pack_chunks(kind: CompressType, raw: &Vec<Vec<u8>>) -> (r: Result<(Vec<ChunkSpan>, Vec<u8>, u64), ClutError>)
    ensures
        match r {
            Ok((spans, payload, total)) => pack(kind, buffers(raw@)) == (spans@, payload@) && total == raw_total(
                buffers(raw@),
            ),
            Err(e) => e == ClutError::TooLarge && raw_total(buffers(raw@)) > u64::MAX,
        },
{
    let mut spans: Vec<ChunkSpan> = Vec::new();
    let mut payload: Vec<u8> = Vec::new();
    let mut total: u64 = 0;
    let mut i: usize = 0;
    while i < raw.len()
        invariant
            i <= raw@.len(),
            pack(kind, buffers(raw@).take(i as int)) == (spans@, payload@),
            total == raw_total(buffers(raw@).take(i as int)),
        decreases raw@.len() - i,
    {
        proof {
            assert(buffers(raw@).take(i + 1).drop_last() =~= buffers(raw@).take(i as int));
            assert(buffers(raw@).take(i + 1).last() == raw@[i as int]@);
        }
        let c = match compress_chunk(kind, raw[i].as_slice()) {
            Some(c) => c,
            None => {
                return Err(ClutError::Codec);
            },
        };
        spans.push(
            ChunkSpan {
                compressed_offset: payload.len() as u32,
                compressed_len: c.len() as u32,
                decompressed_len: raw[i].len() as u32,
            },
        );
        push_bytes(&mut payload, c.as_slice());
        if total > u64::MAX - raw[i].len() as u64 {
            proof {
                lemma_raw_total_grows(buffers(raw@), (i + 1) as nat);
            }
            return Err(ClutError::TooLarge);
        }
        total = total + raw[i].len() as u64;
        i = i + 1;
    }
    assert(buffers(raw@).take(i as int) =~= buffers(raw@));
    Ok((spans, payload, total))
}

/// Packing gives one table entry per chunk.
pub proof fn lemma_pack_len(kind: CompressType, raw: Seq<Seq<u8>>)
    ensures
        pack(kind, raw).0.len() == raw.len(),
    decreases raw.len(),
{
    if raw.len() > 0 {
        lemma_pack_len(kind, raw.drop_last());
    }
}

} // verus!
