//! What reading back a rewritten CLUT gives.
use vstd::prelude::*;

use crate::clut_rewrite::{group_all, group_step, grouped, Grouping};
use crate::clut_file::{files_bytes, read_payload_spec, version_texts, ClutError};
use crate::clut_rewrite::{pack, raw_total, strings_chunk};
use crate::clut_index::{chunks_follow, ChunkSpan};
use crate::clut::CompressType;
use crate::codec::{compressed, inflated};
use crate::clut_file::{inflate_chunk, inflate_chunks};
use crate::file_data::refs_storable;
use crate::bytes::string_fits;
use crate::clut_lazy::{decode_window, first_checkpoint};
use crate::clut_index::BlockModel;
use crate::overlay::layout_wf;
use crate::lazy_laws::{eager_size, same_start, starts_at};
use crate::clut_lazy::{block_scan, block_wf, blocks_scan, file_blocks, recovered, stride_starts, struct_scan, window_spec, LazyModel, STRIDE};
use crate::clut_index::{index_bytes, index_wf, read_index_spec, section_bytes, IndexModel};
use crate::clut_file::{header_bytes, read_clut_spec, ClutModel, HeaderModel, CLUT_MAGIC};
use crate::clut_lazy::{assemble_spec, names_of, read_lazy_spec, read_strings_spec, rewrite_spec, strings_fit, PayloadModel};
use crate::clut::Version;
use crate::version::section_wf;
use crate::data_ref::DataRefModel;
use crate::file_data::{file_data_bytes, versions_listed};
use crate::version::VersionModel;

verus! {

/// The buffers joined in order.
pub open spec fn concat(s: Seq<Seq<u8>>) -> Seq<u8>
    decreases s.len(),
{
    if s.len() == 0 {
        Seq::empty()
    } else {
        concat(s.drop_last()) + s.last()
    }
}

/// The counts added up.
pub open spec fn total(s: Seq<nat>) -> nat
    decreases s.len(),
{
    if s.len() == 0 {
        0
    } else {
        total(s.drop_last()) + s.last()
    }
}

/// What grouping keeps true: the string sections first, nothing lost or reordered, and the
/// counts adding up to the blocks added.
pub open spec fn group_inv(g: Grouping, strings: Seq<u8>, done: Seq<Seq<u8>>) -> bool {
    &&& g.closed.len() >= 1
    &&& g.closed[0] == strings
    &&& g.per_chunk.len() == g.closed.len()
    &&& concat(g.closed) + g.current == strings + concat(done)
    &&& total(g.per_chunk) == done.len()
    &&& g.current.len() == 0 ==> g.per_chunk.last() == 0
}

proof fn lemma_total_bump(s: Seq<nat>)
    requires
        s.len() > 0,
    ensures
        total(s.update(s.len() - 1, s.last() + 1)) == total(s) + 1,
{
    let u = s.update(s.len() - 1, s.last() + 1);
    assert(u.drop_last() =~= s.drop_last());
}

proof fn lemma_concat_push(s: Seq<Seq<u8>>, x: Seq<u8>)
    ensures
        concat(s.push(x)) == concat(s) + x,
{
    assert(s.push(x).drop_last() =~= s);
}

proof fn lemma_group_step(g: Grouping, strings: Seq<u8>, done: Seq<Seq<u8>>, block: Seq<u8>)
    requires
        group_inv(g, strings, done),
        block.len() > 0,
    ensures
        group_inv(group_step(g, block), strings, done.push(block)),
{
    lemma_concat_push(done, block);
    let g1 = if g.current.len() > 0 && g.current.len() + block.len() > crate::clut_rewrite::TARGET_CHUNK {
        Grouping { closed: g.closed.push(g.current), current: Seq::empty(), per_chunk: g.per_chunk.push(0) }
    } else {
        g
    };
    if g.current.len() > 0 && g.current.len() + block.len() > crate::clut_rewrite::TARGET_CHUNK {
        lemma_concat_push(g.closed, g.current);
        assert(g.per_chunk.push(0nat).drop_last() =~= g.per_chunk);
        assert(concat(g1.closed) + g1.current =~= concat(g.closed) + g.current);
    }
    if !(g.current.len() > 0 && g.current.len() + block.len() > crate::clut_rewrite::TARGET_CHUNK) {
        assert(g1 == g);
    } else {
        assert(g1.closed[0] == strings);
        assert(total(g1.per_chunk) == total(g.per_chunk));
    }
    assert(group_inv(g1, strings, done));
    let g2 = Grouping {
        closed: g1.closed,
        current: g1.current + block,
        per_chunk: g1.per_chunk.update(g1.per_chunk.len() - 1, g1.per_chunk.last() + 1),
    };
    lemma_total_bump(g1.per_chunk);
    assert(concat(g2.closed) + g2.current =~= (concat(g1.closed) + g1.current) + block);
    assert(g2.closed[0] == strings);
    assert(strings + concat(done.push(block)) =~= (strings + concat(done)) + block);
    assert(group_inv(g2, strings, done.push(block)));
    if g2.current.len() >= crate::clut_rewrite::TARGET_CHUNK {
        lemma_concat_push(g2.closed, g2.current);
        assert(g2.per_chunk.push(0nat).drop_last() =~= g2.per_chunk);
        let g3 = Grouping { closed: g2.closed.push(g2.current), current: Seq::empty(), per_chunk: g2.per_chunk.push(0) };
        assert(concat(g3.closed) + g3.current =~= concat(g2.closed) + g2.current);
        assert(g3.closed[0] == strings);
        assert(total(g3.per_chunk) == total(g2.per_chunk));
        assert(group_inv(g3, strings, done.push(block)));
        assert(group_step(g, block) == g3);
    } else {
        assert(group_step(g, block) == g2);
    }
}

proof fn lemma_group_all(g: Grouping, strings: Seq<u8>, blocks: Seq<Seq<u8>>)
    requires
        group_inv(g, strings, Seq::empty()),
        forall|i: int| 0 <= i < blocks.len() ==> (#[trigger] blocks[i]).len() > 0,
    ensures
        group_inv(group_all(g, blocks), strings, blocks),
    decreases blocks.len(),
{
    if blocks.len() > 0 {
        lemma_group_all(g, strings, blocks.drop_last());
        lemma_group_step(group_all(g, blocks.drop_last()), strings, blocks.drop_last(), blocks.last());
        assert(blocks.drop_last().push(blocks.last()) =~= blocks);
    }
}

/// Grouping keeps every byte in order behind the string sections, puts the string sections
/// alone first, and counts every block once.
pub proof fn lemma_grouped(strings: Seq<u8>, blocks: Seq<Seq<u8>>)
    requires
        forall|i: int| 0 <= i < blocks.len() ==> (#[trigger] blocks[i]).len() > 0,
    ensures
        grouped(strings, blocks).0.len() == grouped(strings, blocks).1.len() + 1,
        grouped(strings, blocks).0[0] == strings,
        concat(grouped(strings, blocks).0) == strings + concat(blocks),
        total(grouped(strings, blocks).1) == blocks.len(),
{
    let g0 = Grouping { closed: seq![strings], current: Seq::empty(), per_chunk: seq![0nat] };
    assert(seq![strings].drop_last() =~= Seq::<Seq<u8>>::empty());
    assert(concat(seq![strings]) == concat(Seq::<Seq<u8>>::empty()) + strings);
    assert(concat(seq![strings]) =~= strings);
    assert(seq![0nat].drop_last() =~= Seq::<nat>::empty());
    assert(concat(Seq::<Seq<u8>>::empty()) == Seq::<u8>::empty());
    assert(concat(g0.closed) + g0.current =~= strings + concat(Seq::<Seq<u8>>::empty()));
    assert(g0.closed[0] == strings);
    assert(total(seq![0nat]) == total(Seq::<nat>::empty()) + 0);
    assert(total(g0.per_chunk) == 0);
    assert(g0.per_chunk.last() == 0);
    assert(concat(g0.closed) + g0.current == strings + concat(Seq::<Seq<u8>>::empty()));
    assert(group_inv(g0, strings, Seq::empty()));
    lemma_group_all(g0, strings, blocks);
    let g = group_all(g0, blocks);
    if g.current.len() > 0 {
        lemma_concat_push(g.closed, g.current);
    } else {
        assert(g.per_chunk.drop_last().push(g.per_chunk.last()) =~= g.per_chunk);
        assert(concat(g.closed) + g.current =~= concat(g.closed));
    }
}

/// How many files the chunks before chunk `c + 1` hold: where chunk `c + 1`'s files start.
pub open spec fn first_of(per: Seq<nat>, c: int) -> nat {
    total(per.take(c))
}

proof fn lemma_first_of_step(per: Seq<nat>, c: int)
    requires
        0 <= c < per.len(),
    ensures
        first_of(per, c + 1) == first_of(per, c) + per[c],
{
    assert(per.take(c + 1).drop_last() =~= per.take(c));
}

proof fn lemma_first_of_all(per: Seq<nat>)
    ensures
        first_of(per, per.len() as int) == total(per),
{
    assert(per.take(per.len() as int) =~= per);
}

proof fn lemma_first_of_mono(per: Seq<nat>, a: int, b: int)
    requires
        0 <= a <= b <= per.len(),
    ensures
        first_of(per, a) <= first_of(per, b),
    decreases b - a,
{
    if a < b {
        lemma_first_of_mono(per, a, b - 1);
        lemma_first_of_step(per, b - 1);
    }
}

/// Each closed chunk after the string sections, and the one being filled, holds the blocks
/// its count says, in order.
pub open spec fn group_parts(g: Grouping, done: Seq<Seq<u8>>) -> bool {
    &&& forall|c: int| 1 <= c < g.per_chunk.len() ==> #[trigger] g.closed[c] == concat(
        done.subrange(first_of(g.per_chunk, c - 1) as int, first_of(g.per_chunk, c) as int),
    )
    &&& g.current == concat(done.subrange(first_of(g.per_chunk, g.per_chunk.len() - 1) as int, done.len() as int))
}

proof fn lemma_first_of_push(per: Seq<nat>, x: nat, c: int)
    requires
        0 <= c <= per.len(),
    ensures
        first_of(per.push(x), c) == first_of(per, c),
{
    assert(per.push(x).take(c) =~= per.take(c));
}

proof fn lemma_first_of_bump(per: Seq<nat>, c: int)
    requires
        per.len() > 0,
        0 <= c < per.len(),
    ensures
        first_of(per.update(per.len() - 1, per.last() + 1), c) == first_of(per, c),
{
    assert(per.update(per.len() - 1, per.last() + 1).take(c) =~= per.take(c));
}

/// Closing the chunk being filled keeps the parts.
proof fn lemma_parts_close(g: Grouping, done: Seq<Seq<u8>>)
    requires
        g.per_chunk.len() == g.closed.len(),
        total(g.per_chunk) == done.len(),
        group_parts(g, done),
    ensures
        group_parts(Grouping { closed: g.closed.push(g.current), current: Seq::empty(), per_chunk: g.per_chunk.push(0) }, done),
{
    let per = g.per_chunk;
    let g1 = Grouping { closed: g.closed.push(g.current), current: Seq::<u8>::empty(), per_chunk: per.push(0) };
    let n = per.len() as int;
    lemma_first_of_all(per);
    assert forall|c: int| 1 <= c < g1.per_chunk.len() implies #[trigger] g1.closed[c] == concat(
        done.subrange(first_of(g1.per_chunk, c - 1) as int, first_of(g1.per_chunk, c) as int),
    ) by {
        lemma_first_of_push(per, 0, c - 1);
        lemma_first_of_push(per, 0, c);
        if c < n {
            assert(g1.closed[c] == g.closed[c]);
        } else {
            assert(g1.closed[c] == g.current);
        }
    }
    lemma_first_of_push(per, 0, n);
    assert(done.subrange(done.len() as int, done.len() as int) =~= Seq::<Seq<u8>>::empty());
    assert(concat(Seq::<Seq<u8>>::empty()) == Seq::<u8>::empty());
}

proof fn lemma_parts_step(g: Grouping, strings: Seq<u8>, done: Seq<Seq<u8>>, block: Seq<u8>)
    requires
        group_inv(g, strings, done),
        group_parts(g, done),
        block.len() > 0,
    ensures
        group_parts(group_step(g, block), done.push(block)),
{
    let g1 = if g.current.len() > 0 && g.current.len() + block.len() > crate::clut_rewrite::TARGET_CHUNK {
        Grouping { closed: g.closed.push(g.current), current: Seq::empty(), per_chunk: g.per_chunk.push(0) }
    } else {
        g
    };
    if g.current.len() > 0 && g.current.len() + block.len() > crate::clut_rewrite::TARGET_CHUNK {
        lemma_parts_close(g, done);
        lemma_first_of_all(g.per_chunk);
        lemma_first_of_push(g.per_chunk, 0, g.per_chunk.len() as int);
        lemma_first_of_all(g1.per_chunk);
    } else {
        lemma_first_of_all(g.per_chunk);
    }
    assert(group_parts(g1, done));
    assert(total(g1.per_chunk) == done.len()) by {
        if g.current.len() > 0 && g.current.len() + block.len() > crate::clut_rewrite::TARGET_CHUNK {
            assert(g.per_chunk.push(0nat).drop_last() =~= g.per_chunk);
        }
    }
    let per1 = g1.per_chunk;
    let n1 = per1.len() as int;
    assert(n1 >= 1);
    let g2 = Grouping {
        closed: g1.closed,
        current: g1.current + block,
        per_chunk: per1.update(n1 - 1, per1.last() + 1),
    };
    let done2 = done.push(block);
    lemma_first_of_mono(per1, n1 - 1, n1);
    lemma_first_of_all(per1);
    assert forall|c: int| 1 <= c < g2.per_chunk.len() implies #[trigger] g2.closed[c] == concat(
        done2.subrange(first_of(g2.per_chunk, c - 1) as int, first_of(g2.per_chunk, c) as int),
    ) by {
        lemma_first_of_bump(per1, c - 1);
        lemma_first_of_bump(per1, c);
        lemma_first_of_mono(per1, c - 1, c);
        lemma_first_of_mono(per1, c, n1);
        assert(done2.subrange(first_of(per1, c - 1) as int, first_of(per1, c) as int) =~= done.subrange(
            first_of(per1, c - 1) as int,
            first_of(per1, c) as int,
        ));
    }
    lemma_first_of_bump(per1, n1 - 1);
    let a = first_of(per1, n1 - 1) as int;
    assert(done2.subrange(a, done2.len() as int) =~= done.subrange(a, done.len() as int).push(block));
    lemma_concat_push(done.subrange(a, done.len() as int), block);
    assert(group_parts(g2, done2));
    lemma_total_bump(per1);
    if g2.current.len() >= crate::clut_rewrite::TARGET_CHUNK {
        lemma_parts_close(g2, done2);
    }
}

proof fn lemma_parts_all(g: Grouping, strings: Seq<u8>, blocks: Seq<Seq<u8>>)
    requires
        group_inv(g, strings, Seq::empty()),
        group_parts(g, Seq::empty()),
        forall|i: int| 0 <= i < blocks.len() ==> (#[trigger] blocks[i]).len() > 0,
    ensures
        group_parts(group_all(g, blocks), blocks),
    decreases blocks.len(),
{
    if blocks.len() > 0 {
        lemma_parts_all(g, strings, blocks.drop_last());
        lemma_group_all(g, strings, blocks.drop_last());
        assert forall|i: int| 0 <= i < blocks.drop_last().len() implies (#[trigger] blocks.drop_last()[i]).len() > 0 by {
            assert(blocks.drop_last()[i] == blocks[i]);
        }
        lemma_parts_step(group_all(g, blocks.drop_last()), strings, blocks.drop_last(), blocks.last());
        assert(blocks.drop_last().push(blocks.last()) =~= blocks);
        assert(group_all(g, blocks) == group_step(group_all(g, blocks.drop_last()), blocks.last()));
    } else {
        assert(blocks =~= Seq::<Seq<u8>>::empty());
    }
}

/// Chunk `c` (from 1 on) holds, in order, the blocks from `first_of(per, c - 1)` up to
/// `first_of(per, c)`.
pub open spec fn parts_ok(raw: Seq<Seq<u8>>, per: Seq<nat>, blocks: Seq<Seq<u8>>) -> bool {
    forall|c: int|
        #![trigger raw[c]]
        #![trigger first_of(per, c)]
        1 <= c <= per.len() ==> {
            &&& first_of(per, c - 1) <= first_of(per, c) <= blocks.len()
            &&& raw[c] == concat(blocks.subrange(first_of(per, c - 1) as int, first_of(per, c) as int))
        }
}

/// Each raw chunk after the string sections holds, in order, the blocks its count says.
pub proof fn lemma_grouped_parts(strings: Seq<u8>, blocks: Seq<Seq<u8>>)
    requires
        forall|i: int| 0 <= i < blocks.len() ==> (#[trigger] blocks[i]).len() > 0,
    ensures
        parts_ok(grouped(strings, blocks).0, grouped(strings, blocks).1, blocks),
{
    lemma_grouped(strings, blocks);
    let g0 = Grouping { closed: seq![strings], current: Seq::empty(), per_chunk: seq![0nat] };
    assert(seq![strings].drop_last() =~= Seq::<Seq<u8>>::empty());
    assert(concat(seq![strings]) == concat(Seq::<Seq<u8>>::empty()) + strings);
    assert(concat(seq![strings]) =~= strings);
    assert(seq![0nat].drop_last() =~= Seq::<nat>::empty());
    assert(total(seq![0nat]) == total(Seq::<nat>::empty()) + 0);
    assert(total(seq![0nat]) == 0);
    assert(g0.per_chunk.last() == 0);
    assert(concat(Seq::<Seq<u8>>::empty()) == Seq::<u8>::empty());
    assert(concat(g0.closed) + g0.current =~= strings + concat(Seq::<Seq<u8>>::empty()));
    assert(group_inv(g0, strings, Seq::empty()));
    assert(seq![0nat].take(0) =~= Seq::<nat>::empty());
    assert(Seq::<Seq<u8>>::empty().subrange(0, 0) =~= Seq::<Seq<u8>>::empty());
    assert(group_parts(g0, Seq::empty()));
    lemma_parts_all(g0, strings, blocks);
    lemma_group_all(g0, strings, blocks);
    let g = group_all(g0, blocks);
    let per = g.per_chunk;
    let n = per.len() as int;
    lemma_first_of_all(per);
    let raw = grouped(strings, blocks).0;
    let per2 = grouped(strings, blocks).1;
    assert forall|c: int|
        #![trigger raw[c]]
        #![trigger first_of(per2, c)]
        1 <= c <= per2.len() implies first_of(per2, c - 1) <= first_of(per2, c) <= blocks.len() && raw[c] == concat(
            blocks.subrange(first_of(per2, c - 1) as int, first_of(per2, c) as int),
        ) by {
        lemma_first_of_mono(per, c - 1, c);
        lemma_first_of_mono(per, c, n);
        if g.current.len() > 0 {
            assert(per2 == per);
            if c < n {
                assert(raw[c] == g.closed[c]);
            } else {
                assert(raw[c] == g.current);
            }
        } else {
            assert(per2 == per.drop_last());
            assert(per.drop_last().take(c - 1) =~= per.take(c - 1));
            assert(per.drop_last().take(c) =~= per.take(c));
            assert(raw[c] == g.closed[c]);
        }
    }
    assert(parts_ok(raw, per2, blocks));
}

/// Blocks each written from a file's references, joined, are those files written in turn.
proof fn lemma_concat_files(bl: Seq<Seq<u8>>, rf: Seq<Seq<DataRefModel>>, table: Seq<VersionModel>)
    requires
        bl.len() == rf.len(),
        forall|i: int| 0 <= i < bl.len() ==> #[trigger] bl[i] == file_data_bytes(rf[i], table),
    ensures
        concat(bl) == files_bytes(rf, table),
    decreases bl.len(),
{
    if bl.len() == 0 {
        assert(rf =~= Seq::<Seq<DataRefModel>>::empty());
    } else {
        let b0 = bl.drop_last();
        let r0 = rf.drop_last();
        assert forall|i: int| 0 <= i < b0.len() implies #[trigger] b0[i] == file_data_bytes(r0[i], table) by {
            assert(b0[i] == bl[i]);
        }
        lemma_concat_files(b0, r0, table);
        lemma_files_bytes_push(r0, rf.last(), table);
        assert(r0.push(rf.last()) =~= rf);
        assert(bl.last() == bl[bl.len() - 1]);
    }
}

/// What the lazy reader needs of a block to read a file's references back: its count, its
/// size, and, for references that form a layout, a decode from its first checkpoint that
/// gives them all.
#[verifier::opaque]
pub open spec fn block_reads(d: Seq<u8>, table: Seq<VersionModel>, b: BlockModel, refs: Seq<DataRefModel>) -> bool {
    &&& b.ref_count == refs.len()
    &&& b.size == eager_size(refs)
    &&& layout_wf(refs) && b.ref_count > 0 ==> first_checkpoint(b, 0) == 0 && decode_window(
        d,
        table,
        b.ascending,
        0,
        u64::MAX,
        b.checkpoints[0].structs as int,
        b.checkpoints[0].offsets as int,
        b.checkpoints[0].lengths as int,
        b.checkpoints[0].patch_offset,
        b.checkpoints[0].file_offset,
        b.ref_count as nat,
    ) == Ok::<Seq<DataRefModel>, ClutError>(refs)
}

/// A chunk holding files' references written in turn: walking its blocks gives, for each
/// file, a block that reads its references back.
#[verifier::rlimit(60)]
#[verifier::spinoff_prover]
proof fn lemma_chunk_reads(d: Seq<u8>, table: Seq<VersionModel>, rs: Seq<Seq<DataRefModel>>, chunk: u32)
    requires
        d == files_bytes(rs, table),
        d.len() <= u32::MAX,
        forall|i: int| 0 <= i < rs.len() ==> refs_storable(#[trigger] rs[i], table),
    ensures
        blocks_scan(d, 0, table, rs.len(), STRIDE, chunk) matches Ok((bs, _)) ==> bs.len() == rs.len() && forall|j: int|
            0 <= j < bs.len() ==> (#[trigger] bs[j]).chunk == chunk && block_reads(d, table, bs[j], rs[j]),
{
    let names = Seq::new(rs.len(), |i: int| Seq::<char>::empty());
    assert(crate::bytes::holds_at(d, 0, d)) by {
        assert(d.subrange(0, d.len() as int) =~= d);
    }
    crate::clut_file::lemma_dec_files(d, 0, names, rs, table);
    crate::lazy_laws::lemma_blocks_scan_dec(d, 0, table, names, STRIDE, chunk);
    lemma_blocks_scan(d, 0, table, rs.len(), STRIDE, chunk);
    if let Ok((bs, _)) = blocks_scan(d, 0, table, rs.len(), STRIDE, chunk) {
        let files = crate::clut_file::zip_files(names, rs);
        assert forall|j: int| 0 <= j < bs.len() implies (#[trigger] bs[j]).chunk == chunk && block_reads(d, table, bs[j], rs[j]) by {
            reveal(block_reads);
            assert(files[j].1 == rs[j]);
            assert(bs[j].ref_count == files[j].1.len());
            if layout_wf(rs[j]) && bs[j].ref_count > 0 {
                assert(same_start(d, table, STRIDE, chunk, bs[j], rs[j]));
                let pb = choose|pb: int| #[trigger] starts_at(d, pb, table, STRIDE, chunk, bs[j], rs[j]);
                crate::lazy_laws::lemma_block_window(d, pb, table, chunk);
            }
        }
    }
}

/// The blocks recovered from chunks that each hold files' references written in turn read
/// those references back, file by file.
#[verifier::rlimit(60)]
#[verifier::spinoff_prover]
proof fn lemma_recovered_reads(raw: Seq<Seq<u8>>, per: Seq<nat>, table: Seq<VersionModel>, rf: Seq<Seq<DataRefModel>>, k: nat)
    requires
        k <= per.len(),
        per.len() + 1 == raw.len(),
        raw.len() <= u32::MAX,
        forall|c: int|
            #![trigger raw[c]]
            #![trigger first_of(per, c)]
            1 <= c <= per.len() ==> {
                &&& first_of(per, c - 1) <= first_of(per, c) <= rf.len()
                &&& raw[c] == files_bytes(rf.subrange(first_of(per, c - 1) as int, first_of(per, c) as int), table)
                &&& raw[c].len() <= u32::MAX
            },
        forall|i: int| 0 <= i < rf.len() ==> refs_storable(#[trigger] rf[i], table),
    ensures
        recovered(raw, per, table, k) matches Ok(bs) ==> bs.len() == first_of(per, k as int) && forall|i: int|
            0 <= i < bs.len() ==> 1 <= (#[trigger] bs[i]).chunk <= k && block_reads(raw[bs[i].chunk as int], table, bs[i], rf[i]),
    decreases k,
{
    if k == 0 {
        assert(per.take(0) =~= Seq::<nat>::empty());
    } else {
        lemma_recovered_reads(raw, per, table, rf, (k - 1) as nat);
        if let Ok(bs) = recovered(raw, per, table, k) {
            let bs0 = recovered(raw, per, table, (k - 1) as nat)->Ok_0;
            let d = raw[k as int];
            let a = first_of(per, k - 1) as int;
            let e = first_of(per, k as int) as int;
            lemma_first_of_step(per, k - 1);
            let rs = rf.subrange(a, e);
            assert(d == files_bytes(rs, table) && d.len() <= u32::MAX);
            assert forall|i: int| 0 <= i < rs.len() implies refs_storable(#[trigger] rs[i], table) by {
                assert(rs[i] == rf[a + i]);
            }
            assert(rs.len() == per[k - 1]);
            lemma_chunk_reads(d, table, rs, k as u32);
            let more = blocks_scan(d, 0, table, per[k - 1], STRIDE, k as u32)->Ok_0.0;
            assert(bs == bs0 + more);
            assert forall|i: int| 0 <= i < bs.len() implies 1 <= (#[trigger] bs[i]).chunk <= k && block_reads(
                raw[bs[i].chunk as int],
                table,
                bs[i],
                rf[i],
            ) by {
                if i < bs0.len() {
                    assert(bs[i] == bs0[i]);
                } else {
                    let j = i - bs0.len();
                    assert(bs[i] == more[j]);
                    assert(rs[j] == rf[i]);
                }
            }
        }
    }
}

/// The references file `i` of `m` holds, as a full decode reads them.
pub open spec fn refs_of(m: LazyModel, i: int) -> Seq<DataRefModel> {
    window_spec(m, m.files[i].0, 0, u64::MAX)->Ok_0
}

/// Every file's references.
pub open spec fn all_refs(m: LazyModel) -> Seq<Seq<DataRefModel>> {
    Seq::new(m.files.len(), |i: int| refs_of(m, i))
}

/// A file whose references a rewrite could decode and write.
pub open spec fn file_ok(m: LazyModel, i: int) -> bool {
    &&& window_spec(m, m.files[i].0, 0, u64::MAX) is Ok
    &&& refs_of(m, i).len() <= i32::MAX
    &&& versions_listed(refs_of(m, i), m.versions)
}

proof fn lemma_file_blocks(m: LazyModel, k: nat)
    requires
        k <= m.files.len(),
        file_blocks(m, k) is Ok,
    ensures
        file_blocks(m, k)->Ok_0.len() == k,
        forall|i: int| 0 <= i < k ==> #[trigger] file_ok(m, i),
        forall|i: int| 0 <= i < k ==> #[trigger] file_blocks(m, k)->Ok_0[i] == file_data_bytes(refs_of(m, i), m.versions),
    decreases k,
{
    if k > 0 {
        lemma_file_blocks(m, (k - 1) as nat);
        let prev = file_blocks(m, (k - 1) as nat)->Ok_0;
        let x = file_data_bytes(refs_of(m, k - 1), m.versions);
        assert(file_blocks(m, k)->Ok_0 == prev.push(x));
        assert(window_spec(m, m.files[k - 1].0, 0, u64::MAX) is Ok);
        assert(versions_listed(refs_of(m, k - 1), m.versions));
        assert(file_ok(m, k - 1));
        assert forall|i: int| 0 <= i < k implies #[trigger] file_blocks(m, k)->Ok_0[i] == file_data_bytes(refs_of(m, i), m.versions) by {
            if i < k - 1 {
                assert(prev.push(x)[i] == prev[i]);
            }
        }
        assert forall|i: int| 0 <= i < k implies #[trigger] file_ok(m, i) by {
            if i < k - 1 {
                assert(file_ok(m, i));
            }
        }
    }
}

proof fn lemma_block_nonempty(refs: Seq<DataRefModel>, table: Seq<VersionModel>)
    ensures
        file_data_bytes(refs, table).len() > 0,
{
    crate::bytes::lemma_pow_values();
    crate::bytes::lemma_le(crate::bytes::i32_bits(refs.len() as i32) as nat, 4);
}

proof fn lemma_files_bytes_push(files: Seq<Seq<DataRefModel>>, x: Seq<DataRefModel>, table: Seq<VersionModel>)
    ensures
        files_bytes(files.push(x), table) == files_bytes(files, table) + file_data_bytes(x, table),
    decreases files.len(),
{
    if files.len() == 0 {
        assert(files.push(x).drop_first() =~= Seq::<Seq<DataRefModel>>::empty());
        assert(files.push(x)[0] == x);
        assert(files_bytes(Seq::<Seq<DataRefModel>>::empty(), table) == Seq::<u8>::empty());
        assert(files_bytes(files.push(x), table) =~= file_data_bytes(x, table));
    } else {
        lemma_files_bytes_push(files.drop_first(), x, table);
        assert(files.push(x).drop_first() =~= files.drop_first().push(x));
        assert(files_bytes(files.push(x), table) =~= files_bytes(files, table) + file_data_bytes(x, table));
    }
}

/// The blocks a rewrite writes, joined, are the files' references written one after the
/// other.
proof fn lemma_blocks_concat(m: LazyModel, k: nat)
    requires
        k <= m.files.len(),
        file_blocks(m, k) is Ok,
    ensures
        concat(file_blocks(m, k)->Ok_0) == files_bytes(all_refs(m).take(k as int), m.versions),
        forall|i: int| 0 <= i < k ==> (#[trigger] file_blocks(m, k)->Ok_0[i]).len() > 0,
    decreases k,
{
    lemma_file_blocks(m, k);
    if k == 0 {
        assert(all_refs(m).take(0) =~= Seq::<Seq<DataRefModel>>::empty());
    } else {
        lemma_blocks_concat(m, (k - 1) as nat);
        let bs = file_blocks(m, k)->Ok_0;
        assert(bs.drop_last() == file_blocks(m, (k - 1) as nat)->Ok_0);
        assert(all_refs(m).take(k as int) =~= all_refs(m).take(k - 1).push(refs_of(m, k - 1)));
        lemma_files_bytes_push(all_refs(m).take(k - 1), refs_of(m, k - 1), m.versions);
        assert forall|i: int| 0 <= i < k implies (#[trigger] file_blocks(m, k)->Ok_0[i]).len() > 0 by {
            lemma_block_nonempty(refs_of(m, i), m.versions);
        }
    }
}

/// A payload made of the string sections and the files' references reads back to the
/// folders and each file's references, whatever table the sections list, so long as it
/// lists every version the references use.
#[verifier::spinoff_prover]
#[verifier::rlimit(40)]
proof fn lemma_payload_reads_back(
    versions: Seq<VersionModel>,
    folders: Seq<Seq<char>>,
    names: Seq<Seq<char>>,
    files: Seq<Seq<DataRefModel>>,
)
    requires
        versions.len() <= i32::MAX,
        folders.len() <= i32::MAX,
        names.len() <= i32::MAX,
        names.len() == files.len(),
        forall|i: int| 0 <= i < versions.len() ==> crate::version::section_wf(#[trigger] versions[i]),
        forall|i: int| 0 <= i < versions.len() ==> string_fits(#[trigger] version_texts(versions)[i]),
        forall|i: int| 0 <= i < folders.len() ==> string_fits(#[trigger] folders[i]),
        forall|i: int| 0 <= i < names.len() ==> string_fits(#[trigger] names[i]),
        forall|i: int| 0 <= i < files.len() ==> refs_storable(#[trigger] files[i], versions),
    ensures
        read_payload_spec(strings_chunk(versions, folders, names) + files_bytes(files, versions)) == Ok::<
            (Seq<Seq<char>>, Seq<(Seq<char>, Seq<DataRefModel>)>),
            ClutError,
        >((folders, crate::clut_file::zip_files(names, files))),
{
    let b1 = crate::bytes::le_i32(versions.len() as i32);
    let b2 = crate::lut::strings_bytes(version_texts(versions));
    let b3 = crate::bytes::le_i32(folders.len() as i32);
    let b4 = crate::lut::strings_bytes(folders);
    let b5 = crate::bytes::le_i32(names.len() as i32);
    let b6 = crate::lut::strings_bytes(names);
    let b7 = files_bytes(files, versions);
    let d = strings_chunk(versions, folders, names) + b7;
    assert(d == b1 + b2 + b3 + b4 + b5 + b6 + b7);
    assert(crate::bytes::holds_at(d, 0, d)) by {
        assert(d.subrange(0, d.len() as int) =~= d);
    }
    crate::bytes::lemma_holds_split(d, 0, b1 + b2 + b3 + b4 + b5 + b6, b7);
    crate::bytes::lemma_holds_split(d, 0, b1 + b2 + b3 + b4 + b5, b6);
    crate::bytes::lemma_holds_split(d, 0, b1 + b2 + b3 + b4, b5);
    crate::bytes::lemma_holds_split(d, 0, b1 + b2 + b3, b4);
    crate::bytes::lemma_holds_split(d, 0, b1 + b2, b3);
    crate::bytes::lemma_holds_split(d, 0, b1, b2);
    crate::bytes::lemma_read_i32(d, 0, versions.len() as i32);
    crate::clut_file::lemma_dec_versions(d, 4, versions);
    let p2: int = 4int + b2.len();
    crate::bytes::lemma_read_i32(d, p2, folders.len() as i32);
    crate::lut::lemma_dec_strings(d, p2 + 4, folders);
    let p4: int = p2 + 4 + b4.len();
    crate::bytes::lemma_read_i32(d, p4, names.len() as i32);
    crate::lut::lemma_dec_strings(d, p4 + 4, names);
    let p6: int = p4 + 4 + b6.len();
    crate::clut_file::lemma_dec_files(d, p6, names, files, versions);
}

/// The chunks compressed, joined.
pub open spec fn cpack(kind: CompressType, raw: Seq<Seq<u8>>) -> Seq<u8>
    decreases raw.len(),
{
    if raw.len() == 0 {
        Seq::empty()
    } else {
        cpack(kind, raw.drop_last()) + compressed(kind, raw.last())
    }
}

proof fn lemma_pack(kind: CompressType, raw: Seq<Seq<u8>>)
    ensures
        pack(kind, raw).0.len() == raw.len(),
        pack(kind, raw).1 == cpack(kind, raw),
        forall|k: int| 0 <= k < raw.len() ==> #[trigger] pack(kind, raw).0[k] == (ChunkSpan {
            compressed_offset: cpack(kind, raw.take(k)).len() as u32,
            compressed_len: compressed(kind, raw[k]).len() as u32,
            decompressed_len: raw[k].len() as u32,
        }),
    decreases raw.len(),
{
    if raw.len() > 0 {
        let init = raw.drop_last();
        lemma_pack(kind, init);
        let prev = pack(kind, init).0;
        assert forall|k: int| 0 <= k < raw.len() implies #[trigger] pack(kind, raw).0[k] == (ChunkSpan {
            compressed_offset: cpack(kind, raw.take(k)).len() as u32,
            compressed_len: compressed(kind, raw[k]).len() as u32,
            decompressed_len: raw[k].len() as u32,
        }) by {
            if k < raw.len() - 1 {
                assert(raw.take(k) =~= init.take(k));
                assert(raw[k] == init[k]);
                assert(pack(kind, raw).0[k] == prev[k]);
            } else {
                assert(raw.take(k) =~= init);
            }
        }
    }
}

proof fn lemma_cpack_take(kind: CompressType, raw: Seq<Seq<u8>>, k: int)
    requires
        0 <= k < raw.len(),
    ensures
        cpack(kind, raw.take(k + 1)) == cpack(kind, raw.take(k)) + compressed(kind, raw[k]),
{
    assert(raw.take(k + 1).drop_last() =~= raw.take(k));
}

proof fn lemma_cpack_len_grows(kind: CompressType, raw: Seq<Seq<u8>>, k: int)
    requires
        0 <= k <= raw.len(),
    ensures
        cpack(kind, raw.take(k)).len() <= cpack(kind, raw).len(),
    decreases raw.len() - k,
{
    if k < raw.len() {
        lemma_cpack_len_grows(kind, raw, k + 1);
        lemma_cpack_take(kind, raw, k);
    } else {
        assert(raw.take(k) =~= raw);
    }
}

proof fn lemma_concat_take(raw: Seq<Seq<u8>>, k: int)
    requires
        0 <= k < raw.len(),
    ensures
        concat(raw.take(k + 1)) == concat(raw.take(k)) + raw[k],
{
    assert(raw.take(k + 1).drop_last() =~= raw.take(k));
}

proof fn lemma_raw_total_concat(raw: Seq<Seq<u8>>)
    ensures
        raw_total(raw) == concat(raw).len(),
        forall|k: int| 0 <= k < raw.len() ==> (#[trigger] raw[k]).len() <= raw_total(raw),
    decreases raw.len(),
{
    if raw.len() > 0 {
        lemma_raw_total_concat(raw.drop_last());
        assert forall|k: int| 0 <= k < raw.len() implies (#[trigger] raw[k]).len() <= raw_total(raw) by {
            if k < raw.len() - 1 {
                assert(raw[k] == raw.drop_last()[k]);
            }
        }
    }
}

/// Spans that record where each chunk of a payload sits follow each other.
proof fn lemma_spans_follow(kind: CompressType, raw: Seq<Seq<u8>>, j: int)
    requires
        0 <= j <= raw.len(),
        cpack(kind, raw).len() <= u32::MAX,
    ensures
        chunks_follow(pack(kind, raw).0.skip(j), cpack(kind, raw.take(j)).len() as int),
    decreases raw.len() - j,
{
    lemma_pack(kind, raw);
    let cs = pack(kind, raw).0.skip(j);
    if j < raw.len() {
        lemma_spans_follow(kind, raw, j + 1);
        lemma_cpack_take(kind, raw, j);
        lemma_cpack_len_grows(kind, raw, j + 1);
        assert(cs.drop_first() =~= pack(kind, raw).0.skip(j + 1));
        assert(cs[0] == pack(kind, raw).0[j]);
    } else {
        assert(cs.len() == 0);
    }
}

/// With a codec that inflates what it compresses, the packed chunks inflate back to the
/// raw chunks joined.
proof fn lemma_inflate_packed(kind: CompressType, raw: Seq<Seq<u8>>, k: int)
    requires
        0 <= k <= raw.len(),
        cpack(kind, raw).len() <= u32::MAX,
        forall|i: int| 0 <= i < raw.len() ==> (#[trigger] raw[i]).len() <= u32::MAX,
        forall|i: int| 0 <= i < raw.len() ==> inflated(kind, compressed(kind, #[trigger] raw[i])) == Some(raw[i]),
    ensures
        inflate_chunks(kind, pack(kind, raw).1, pack(kind, raw).0.take(k)) == Ok::<Seq<u8>, ClutError>(
            concat(raw.take(k)),
        ),
        k > 0 ==> inflate_chunk(kind, pack(kind, raw).1, pack(kind, raw).0[k - 1]) == Ok::<Seq<u8>, ClutError>(raw[k - 1]),
    decreases k,
{
    lemma_pack(kind, raw);
    let (spans, payload) = pack(kind, raw);
    if k == 0 {
        assert(spans.take(0) =~= Seq::<ChunkSpan>::empty());
        assert(raw.take(0) =~= Seq::<Seq<u8>>::empty());
    } else {
        lemma_inflate_packed(kind, raw, k - 1);
        assert(spans.take(k).drop_last() =~= spans.take(k - 1));
        assert(spans.take(k).last() == spans[k - 1]);
        lemma_concat_take(raw, k - 1);
        lemma_cpack_take(kind, raw, k - 1);
        lemma_cpack_len_grows(kind, raw, k);
        let off = cpack(kind, raw.take(k - 1)).len();
        let c = compressed(kind, raw[k - 1]);
        assert(payload.subrange(off as int, off as int + c.len()) =~= c) by {
            assert(cpack(kind, raw.take(k)) == cpack(kind, raw.take(k - 1)) + c);
            assert forall|t: int| 0 <= t < c.len() implies payload[off + t] == c[t] by {
                lemma_cpack_prefix(kind, raw, k);
                assert(cpack(kind, raw.take(k))[off + t] == c[t]);
            }
        }
        assert(inflate_chunk(kind, payload, spans[k - 1]) == Ok::<Seq<u8>, ClutError>(raw[k - 1]));
    }
}

/// The compressed chunks of a prefix are a prefix of the whole packed payload.
proof fn lemma_cpack_prefix(kind: CompressType, raw: Seq<Seq<u8>>, k: int)
    requires
        0 <= k <= raw.len(),
    ensures
        cpack(kind, raw.take(k)).len() <= cpack(kind, raw).len(),
        forall|t: int| 0 <= t < cpack(kind, raw.take(k)).len() ==> #[trigger] cpack(kind, raw)[t] == cpack(kind, raw.take(k))[t],
    decreases raw.len() - k,
{
    if k < raw.len() {
        lemma_cpack_prefix(kind, raw, k + 1);
        lemma_cpack_take(kind, raw, k);
    } else {
        assert(raw.take(k) =~= raw);
    }
}

pub(crate) proof fn lemma_struct_scan_len(d: Seq<u8>, p0: int, table: Seq<VersionModel>, k: nat, stride: u32)
    ensures
        struct_scan(d, p0, table, k, stride) matches Ok((cps, _, _)) ==> cps.len() == stride_starts(k, stride),
    decreases k,
{
    reveal(struct_scan);
    if k > 0 {
        lemma_struct_scan_len(d, p0, table, (k - 1) as nat, stride);
    }
}

proof fn lemma_block_scan(d: Seq<u8>, p: int, table: Seq<VersionModel>, stride: u32, chunk: u32)
    requires
        stride > 0,
    ensures
        block_scan(d, p, table, stride, chunk) matches Ok((b, _)) ==> b.chunk == chunk && block_wf(b, stride),
{
    if let Ok((b, _)) = block_scan(d, p, table, stride, chunk) {
        let (n, p1) = crate::clut_file::read_count_spec(d, p)->Ok_0;
        lemma_struct_scan_len(d, p1, table, n as nat, stride);
        crate::clut_lazy::lemma_stride_starts(n as nat, stride);
    }
}

proof fn lemma_blocks_scan(d: Seq<u8>, p0: int, table: Seq<VersionModel>, k: nat, stride: u32, chunk: u32)
    requires
        stride > 0,
    ensures
        blocks_scan(d, p0, table, k, stride, chunk) matches Ok((bs, _)) ==> bs.len() == k && forall|j: int|
            0 <= j < bs.len() ==> (#[trigger] bs[j]).chunk == chunk && block_wf(bs[j], stride),
    decreases k,
{
    if k > 0 {
        lemma_blocks_scan(d, p0, table, (k - 1) as nat, stride, chunk);
        if let Ok((bs0, p)) = blocks_scan(d, p0, table, (k - 1) as nat, stride, chunk) {
            lemma_block_scan(d, p, table, stride, chunk);
        }
    }
}

/// The blocks recovered from the chunks after the string sections: as many as the chunks
/// count, each naming a chunk among them and carrying the checkpoints it needs.
proof fn lemma_recovered(raw: Seq<Seq<u8>>, per: Seq<nat>, table: Seq<VersionModel>, k: nat)
    requires
        k <= per.len(),
        per.len() + 1 == raw.len(),
        raw.len() <= u32::MAX,
    ensures
        recovered(raw, per, table, k) matches Ok(bs) ==> bs.len() == total(per.take(k as int)) && forall|j: int|
            0 <= j < bs.len() ==> 1 <= (#[trigger] bs[j]).chunk <= k && block_wf(bs[j], STRIDE),
    decreases k,
{
    if k == 0 {
        assert(per.take(0) =~= Seq::<nat>::empty());
    } else {
        lemma_recovered(raw, per, table, (k - 1) as nat);
        assert(per.take(k as int).drop_last() =~= per.take(k - 1));
        if let Ok(bs0) = recovered(raw, per, table, (k - 1) as nat) {
            lemma_blocks_scan(raw[k as int], 0, table, per[k - 1], STRIDE, k as u32);
            if let Ok(bs) = recovered(raw, per, table, k) {
                let more = blocks_scan(raw[k as int], 0, table, per[k - 1], STRIDE, k as u32)->Ok_0.0;
                assert(bs == bs0 + more);
                assert forall|j: int| 0 <= j < bs.len() implies 1 <= (#[trigger] bs[j]).chunk <= k && block_wf(bs[j], STRIDE) by {
                    if j < bs0.len() {
                        assert(bs[j] == bs0[j]);
                    } else {
                        assert(bs[j] == more[j - bs0.len()]);
                    }
                }
            }
        }
    }
}

/// An index section read where it sits behind other bytes.
#[verifier::rlimit(100)]
#[verifier::spinoff_prover]
proof fn lemma_index_at(pre: Seq<u8>, idx: IndexModel, rest: Seq<u8>)
    requires
        index_wf(idx),
    ensures
        read_index_spec(pre + index_bytes(idx) + rest, pre.len() as int) == Ok::<(IndexModel, int), ClutError>(
            (idx, pre.len() + index_bytes(idx).len() as int),
        ),
{
    let sec = section_bytes(idx);
    let len = crate::bytes::le_i32(sec.len() as i32);
    let d = pre + index_bytes(idx) + rest;
    let p = pre.len() as int;
    assert(crate::bytes::holds_at(d, p, len + sec)) by {
        assert(d.subrange(p, p + (len + sec).len()) =~= len + sec);
    }
    crate::bytes::lemma_holds_split(d, p, len, sec);
    crate::bytes::lemma_read_i32(d, p, sec.len() as i32);
    assert(d.subrange(p + 4, p + 4 + sec.len()) =~= sec);
    crate::clut_index::lemma_dec_section(idx);
}

proof fn lemma_cpack_uncompressed(raw: Seq<Seq<u8>>)
    ensures
        cpack(CompressType::Uncompressed, raw) == concat(raw),
    decreases raw.len(),
{
    if raw.len() > 0 {
        lemma_cpack_uncompressed(raw.drop_last());
    }
}

/// The pieces a rewrite assembles its file from.
pub open spec fn rw_strings(m: LazyModel, fs: Seq<Seq<char>>) -> Seq<u8> {
    strings_chunk(m.versions, fs, names_of(m.files))
}

pub open spec fn rw_blocks(m: LazyModel) -> Seq<Seq<u8>> {
    file_blocks(m, m.files.len())->Ok_0
}

pub open spec fn rw_raw(m: LazyModel, fs: Seq<Seq<char>>) -> Seq<Seq<u8>> {
    grouped(rw_strings(m, fs), rw_blocks(m)).0
}

pub open spec fn rw_per(m: LazyModel, fs: Seq<Seq<char>>) -> Seq<nat> {
    grouped(rw_strings(m, fs), rw_blocks(m)).1
}

pub open spec fn rw_index(m: LazyModel, kind: CompressType, fs: Seq<Seq<char>>) -> IndexModel {
    let raw = rw_raw(m, fs);
    IndexModel {
        stride: STRIDE,
        chunks: pack(kind, raw).0,
        files: recovered(raw, rw_per(m, fs), m.versions, (raw.len() - 1) as nat)->Ok_0,
    }
}

pub open spec fn rw_header(m: LazyModel, kind: CompressType, fs: Seq<Seq<char>>) -> HeaderModel {
    HeaderModel {
        file_version: Version::Indexed,
        compression: kind,
        decompressed_size: raw_total(rw_raw(m, fs)) as i32,
        compressed_size: pack(kind, rw_raw(m, fs)).1.len() as i32,
        ..m.header
    }
}

/// What a successful rewrite is made of, and the bounds it checked.
#[verifier::rlimit(50)]
#[verifier::spinoff_prover]
proof fn lemma_rewrite_shape(m: LazyModel, kind: CompressType, fs: Seq<Seq<char>>, out: Seq<u8>)
    requires
        rewrite_spec(m, kind, fs) == Ok::<Seq<u8>, ClutError>(out),
    ensures
        strings_fit(m, fs),
        file_blocks(m, m.files.len()) is Ok,
        rw_raw(m, fs).len() <= u32::MAX,
        rw_raw(m, fs).len() == rw_per(m, fs).len() + 1,
        recovered(rw_raw(m, fs), rw_per(m, fs), m.versions, (rw_raw(m, fs).len() - 1) as nat) is Ok,
        rw_index(m, kind, fs).files.len() <= u32::MAX,
        raw_total(rw_raw(m, fs)) <= i32::MAX,
        pack(kind, rw_raw(m, fs)).1.len() <= i32::MAX,
        section_bytes(rw_index(m, kind, fs)).len() <= i32::MAX,
        out == header_bytes(rw_header(m, kind, fs)) + index_bytes(rw_index(m, kind, fs)) + pack(kind, rw_raw(m, fs)).1,
{
    crate::clut_rewrite::lemma_pack_len(kind, rw_raw(m, fs));
    let (raw, per) = grouped(rw_strings(m, fs), rw_blocks(m));
    lemma_file_blocks(m, m.files.len());
    lemma_blocks_concat(m, m.files.len());
    lemma_grouped(rw_strings(m, fs), rw_blocks(m));
    assert(assemble_spec(m.header, kind, raw, per, m.versions) == Ok::<Seq<u8>, ClutError>(out));
}

/// A successful rewrite found its strings fitting and every file decodable.
#[verifier::rlimit(50)]
#[verifier::spinoff_prover]
proof fn lemma_rewrite_fits(m: LazyModel, kind: CompressType, fs: Seq<Seq<char>>, out: Seq<u8>)
    requires
        rewrite_spec(m, kind, fs) == Ok::<Seq<u8>, ClutError>(out),
    ensures
        strings_fit(m, fs),
        file_blocks(m, m.files.len()) is Ok,
{
}

/// The raw chunks of a rewrite, joined, are its string sections and then every file's
/// references.
#[verifier::rlimit(50)]
#[verifier::spinoff_prover]
proof fn lemma_rewrite_content(m: LazyModel, fs: Seq<Seq<char>>)
    requires
        file_blocks(m, m.files.len()) is Ok,
    ensures
        concat(rw_raw(m, fs)) == strings_chunk(m.versions, fs, names_of(m.files)) + files_bytes(all_refs(m), m.versions),
{
    let n = m.files.len();
    lemma_file_blocks(m, n);
    lemma_blocks_concat(m, n);
    assert(all_refs(m).take(n as int) =~= all_refs(m));
    let bs = rw_blocks(m);
    assert forall|i: int| 0 <= i < bs.len() implies (#[trigger] bs[i]).len() > 0 by {
        assert(file_blocks(m, n)->Ok_0[i].len() > 0);
    }
    lemma_grouped(rw_strings(m, fs), rw_blocks(m));
}

/// The index of a rewrite can be written and read back.
#[verifier::rlimit(50)]
#[verifier::spinoff_prover]
proof fn lemma_rewrite_index_wf(m: LazyModel, kind: CompressType, fs: Seq<Seq<char>>, out: Seq<u8>)
    requires
        rewrite_spec(m, kind, fs) == Ok::<Seq<u8>, ClutError>(out),
    ensures
        index_wf(rw_index(m, kind, fs)),
{
    lemma_rewrite_shape(m, kind, fs, out);
    let raw = rw_raw(m, fs);
    let per = rw_per(m, fs);
    let idx = rw_index(m, kind, fs);
    lemma_pack(kind, raw);
    lemma_recovered(raw, per, m.versions, per.len());
    assert(per.take(per.len() as int) =~= per);
    lemma_spans_follow(kind, raw, 0);
    assert(idx.chunks.skip(0) =~= idx.chunks);
    assert(raw.take(0) =~= Seq::<Seq<u8>>::empty());
    assert forall|i: int| 0 <= i < idx.files.len() implies #[trigger] idx.files[i].chunk < idx.chunks.len()
        && idx.files[i].checkpoints.len() == crate::clut_index::checkpoint_count(idx.files[i].ref_count, idx.stride) by {}
}

proof fn lemma_payload_spec_indexed(d: Seq<u8>, h: HeaderModel, hl: int, idx: IndexModel, q: int, content: Seq<u8>)
    requires
        h.file_version == Version::Indexed,
        read_index_spec(d, hl) == Ok::<(IndexModel, int), ClutError>((idx, q)),
        h.compressed_size >= 0,
        q + h.compressed_size == d.len(),
        inflate_chunks(h.compression, d.subrange(q, d.len() as int), idx.chunks) == Ok::<Seq<u8>, ClutError>(content),
        content.len() == h.decompressed_size,
    ensures
        crate::clut_file::payload_spec(d, h, hl) == Ok::<Seq<u8>, ClutError>(content),
{
}

proof fn lemma_read_clut_from(d: Seq<u8>, h: HeaderModel, hl: int, p: Seq<u8>, folders: Seq<Seq<char>>, files: Seq<(Seq<char>, Seq<DataRefModel>)>)
    requires
        crate::clut_file::read_header_spec(d) == Ok::<(HeaderModel, int), ClutError>((h, hl)),
        crate::clut_file::payload_spec(d, h, hl) == Ok::<Seq<u8>, ClutError>(p),
        read_payload_spec(p) == Ok::<(Seq<Seq<char>>, Seq<(Seq<char>, Seq<DataRefModel>)>), ClutError>((folders, files)),
    ensures
        read_clut_spec(d) == Ok::<ClutModel, ClutError>(ClutModel { header: h, folders, files }),
{
}

/// The payload of a rewrite, read through its header and index, is its raw chunks joined.
#[verifier::rlimit(100)]
#[verifier::spinoff_prover]
proof fn lemma_rewrite_payload(m: LazyModel, kind: CompressType, fs: Seq<Seq<char>>, out: Seq<u8>)
    requires
        rewrite_spec(m, kind, fs) == Ok::<Seq<u8>, ClutError>(out),
        m.header.magic == CLUT_MAGIC,
        section_wf(m.header.version),
        section_wf(m.header.patch_version),
        forall|x: Seq<u8>| #[trigger] inflated(kind, compressed(kind, x)) == Some(x),
    ensures
        crate::clut_file::read_header_spec(out) == Ok::<(HeaderModel, int), ClutError>(
            (rw_header(m, kind, fs), header_bytes(rw_header(m, kind, fs)).len() as int),
        ),
        crate::clut_file::payload_spec(out, rw_header(m, kind, fs), header_bytes(rw_header(m, kind, fs)).len() as int)
            == Ok::<Seq<u8>, ClutError>(concat(rw_raw(m, fs))),
{
    lemma_rewrite_shape(m, kind, fs, out);
    lemma_rewrite_index_wf(m, kind, fs, out);
    let raw = rw_raw(m, fs);
    let h = rw_header(m, kind, fs);
    let idx = rw_index(m, kind, fs);
    let payload = pack(kind, raw).1;
    lemma_pack(kind, raw);
    lemma_raw_total_concat(raw);
    if kind == CompressType::Uncompressed {
        lemma_cpack_uncompressed(raw);
    }
    assert(out =~= header_bytes(h) + (index_bytes(idx) + payload));
    crate::clut_file::lemma_header_round_trip(h, index_bytes(idx) + payload);
    let hl = header_bytes(h).len() as int;
    lemma_index_at(header_bytes(h), idx, payload);
    let q = hl + index_bytes(idx).len();
    assert(out.subrange(q, out.len() as int) =~= payload);
    assert forall|i: int| 0 <= i < raw.len() implies (#[trigger] raw[i]).len() <= u32::MAX by {}
    assert forall|i: int| 0 <= i < raw.len() implies inflated(kind, compressed(kind, #[trigger] raw[i])) == Some(raw[i]) by {}
    lemma_inflate_packed(kind, raw, raw.len() as int);
    assert(idx.chunks.take(raw.len() as int) =~= idx.chunks);
    assert(raw.take(raw.len() as int) =~= raw);
    lemma_payload_spec_indexed(out, h, hl, idx, q, concat(raw));
}

/// A rewritten CLUT, read back, holds what was rewritten: the indexed revision, the codec
/// asked for and the other header fields unchanged, the folders in the order `fs`, and
/// every file, in order, under its name with the references a full decode of it gives.
/// This holds for any codec that inflates what it compresses, as every codec here does
/// for each chunk it packs (the trusted wrappers state it chunk by chunk; for
/// `Uncompressed` it holds outright). It is stated for files whose references can be
/// stored: offsets and patch offsets within the signed 64-bit range.
#[verifier::rlimit(100)]
#[verifier::spinoff_prover]
pub proof fn lemma_rewrite_reads_back(m: LazyModel, kind: CompressType, fs: Seq<Seq<char>>, out: Seq<u8>)
    requires
        rewrite_spec(m, kind, fs) == Ok::<Seq<u8>, ClutError>(out),
        m.header.magic == CLUT_MAGIC,
        section_wf(m.header.version),
        section_wf(m.header.patch_version),
        forall|i: int| 0 <= i < m.versions.len() ==> section_wf(#[trigger] m.versions[i]),
        fs.len() <= i32::MAX,
        m.files.len() <= i32::MAX,
        forall|i: int| 0 <= i < m.files.len() ==> refs_storable(#[trigger] refs_of(m, i), m.versions),
        forall|x: Seq<u8>| #[trigger] inflated(kind, compressed(kind, x)) == Some(x),
    ensures
        read_clut_spec(out) matches Ok(c) && {
            &&& c.header.file_version == Version::Indexed
            &&& c.header.compression == kind
            &&& c.header.magic == m.header.magic
            &&& c.header.platform == m.header.platform
            &&& c.header.repository == m.header.repository
            &&& c.header.version == m.header.version
            &&& c.header.patch_version == m.header.patch_version
            &&& c.header.base_patch_url == m.header.base_patch_url
            &&& c.folders == fs
            &&& c.files.len() == m.files.len()
            &&& forall|i: int| 0 <= i < m.files.len() ==> #[trigger] c.files[i] == (m.files[i].0, refs_of(m, i))
        },
{
    lemma_rewrite_fits(m, kind, fs, out);
    lemma_rewrite_payload(m, kind, fs, out);
    lemma_rewrite_content(m, fs);
    let names = names_of(m.files);
    assert forall|i: int| 0 <= i < m.versions.len() implies string_fits(#[trigger] version_texts(m.versions)[i]) by {}
    assert forall|i: int| 0 <= i < names.len() implies string_fits(#[trigger] names[i]) by {}
    assert forall|i: int| 0 <= i < all_refs(m).len() implies refs_storable(#[trigger] all_refs(m)[i], m.versions) by {
        assert(all_refs(m)[i] == refs_of(m, i));
    }
    lemma_payload_reads_back(m.versions, fs, names, all_refs(m));
    let h = rw_header(m, kind, fs);
    lemma_read_clut_from(
        out,
        h,
        header_bytes(h).len() as int,
        concat(rw_raw(m, fs)),
        fs,
        crate::clut_file::zip_files(names, all_refs(m)),
    );
    let c = read_clut_spec(out)->Ok_0;
    assert forall|i: int| 0 <= i < m.files.len() implies #[trigger] c.files[i] == (m.files[i].0, refs_of(m, i)) by {}
}

proof fn lemma_read_chunked_from(
    d: Seq<u8>,
    h: HeaderModel,
    hl: int,
    idx: IndexModel,
    q: int,
    strings: Seq<u8>,
    versions: Seq<VersionModel>,
    folders: Seq<Seq<char>>,
    names: Seq<Seq<char>>,
    e: int,
)
    requires
        h.file_version == Version::Indexed,
        crate::clut_file::read_header_spec(d) == Ok::<(HeaderModel, int), ClutError>((h, hl)),
        read_index_spec(d, hl) == Ok::<(IndexModel, int), ClutError>((idx, q)),
        h.compressed_size >= 0,
        q + h.compressed_size == d.len(),
        idx.chunks.len() > 0,
        inflate_chunk(h.compression, d.subrange(q, d.len() as int), idx.chunks[0]) == Ok::<Seq<u8>, ClutError>(strings),
        read_strings_spec(strings) == Ok::<
            (Seq<VersionModel>, Seq<Seq<char>>, Seq<Seq<char>>, int),
            ClutError,
        >((versions, folders, names, e)),
        idx.files.len() == names.len(),
    ensures
        read_lazy_spec(d) == Ok::<LazyModel, ClutError>(
            LazyModel {
                header: h,
                folders,
                versions,
                stride: idx.stride,
                files: crate::clut_lazy::zip_files(names, idx.files),
                payload: PayloadModel::Chunked(d.subrange(q, d.len() as int), idx.chunks),
            },
        ),
{
}

/// Where a rewrite's index and payload sit, and that its index reads back.
#[verifier::rlimit(100)]
#[verifier::spinoff_prover]
proof fn lemma_rewrite_layout(m: LazyModel, kind: CompressType, fs: Seq<Seq<char>>, out: Seq<u8>)
    requires
        rewrite_spec(m, kind, fs) == Ok::<Seq<u8>, ClutError>(out),
    ensures
        read_index_spec(out, header_bytes(rw_header(m, kind, fs)).len() as int) == Ok::<(IndexModel, int), ClutError>(
            (
                rw_index(m, kind, fs),
                header_bytes(rw_header(m, kind, fs)).len() + index_bytes(rw_index(m, kind, fs)).len() as int,
            ),
        ),
        out.len() == header_bytes(rw_header(m, kind, fs)).len() + index_bytes(rw_index(m, kind, fs)).len()
            + pack(kind, rw_raw(m, fs)).1.len(),
        out.subrange(
            header_bytes(rw_header(m, kind, fs)).len() + index_bytes(rw_index(m, kind, fs)).len() as int,
            out.len() as int,
        ) == pack(kind, rw_raw(m, fs)).1,
        rw_header(m, kind, fs).compressed_size == pack(kind, rw_raw(m, fs)).1.len(),
{
    lemma_rewrite_shape(m, kind, fs, out);
    lemma_rewrite_index_wf(m, kind, fs, out);
    let h = rw_header(m, kind, fs);
    let idx = rw_index(m, kind, fs);
    let payload = pack(kind, rw_raw(m, fs)).1;
    lemma_index_at(header_bytes(h), idx, payload);
    let q = header_bytes(h).len() + index_bytes(idx).len();
    assert(out.subrange(q as int, out.len() as int) =~= payload);
}

/// How a rewrite's blocks are grouped.
#[verifier::rlimit(50)]
#[verifier::spinoff_prover]
proof fn lemma_rewrite_grouped(m: LazyModel, fs: Seq<Seq<char>>)
    requires
        file_blocks(m, m.files.len()) is Ok,
    ensures
        rw_raw(m, fs).len() == rw_per(m, fs).len() + 1,
        rw_raw(m, fs)[0] == rw_strings(m, fs),
        total(rw_per(m, fs)) == m.files.len(),
{
    let n = m.files.len();
    lemma_file_blocks(m, n);
    lemma_blocks_concat(m, n);
    let bs = rw_blocks(m);
    assert forall|i: int| 0 <= i < bs.len() implies (#[trigger] bs[i]).len() > 0 by {
        assert(file_blocks(m, n)->Ok_0[i].len() > 0);
    }
    lemma_grouped(rw_strings(m, fs), bs);
}

/// The index of a rewrite has a block for every file.
#[verifier::rlimit(50)]
#[verifier::spinoff_prover]
proof fn lemma_rewrite_file_count(m: LazyModel, kind: CompressType, fs: Seq<Seq<char>>, out: Seq<u8>)
    requires
        rewrite_spec(m, kind, fs) == Ok::<Seq<u8>, ClutError>(out),
    ensures
        rw_index(m, kind, fs).files.len() == m.files.len(),
{
    lemma_rewrite_shape(m, kind, fs, out);
    lemma_rewrite_grouped(m, fs);
    let raw = rw_raw(m, fs);
    let per = rw_per(m, fs);
    lemma_recovered(raw, per, m.versions, per.len());
    assert(per.take(per.len() as int) =~= per);
}

/// The first chunk of a rewrite inflates to its string sections.
#[verifier::rlimit(100)]
#[verifier::spinoff_prover]
proof fn lemma_rewrite_first_chunk(m: LazyModel, kind: CompressType, fs: Seq<Seq<char>>, out: Seq<u8>)
    requires
        rewrite_spec(m, kind, fs) == Ok::<Seq<u8>, ClutError>(out),
        forall|x: Seq<u8>| #[trigger] inflated(kind, compressed(kind, x)) == Some(x),
    ensures
        rw_index(m, kind, fs).chunks.len() > 0,
        inflate_chunk(kind, pack(kind, rw_raw(m, fs)).1, rw_index(m, kind, fs).chunks[0]) == Ok::<Seq<u8>, ClutError>(
            rw_strings(m, fs),
        ),
{
    lemma_rewrite_fits(m, kind, fs, out);
    lemma_rewrite_shape(m, kind, fs, out);
    lemma_rewrite_grouped(m, fs);
    let raw = rw_raw(m, fs);
    let idx = rw_index(m, kind, fs);
    lemma_pack(kind, raw);
    lemma_raw_total_concat(raw);
    assert forall|i: int| 0 <= i < raw.len() implies (#[trigger] raw[i]).len() <= u32::MAX by {}
    assert forall|i: int| 0 <= i < raw.len() implies inflated(kind, compressed(kind, #[trigger] raw[i])) == Some(raw[i]) by {}
    lemma_inflate_packed(kind, raw, 1);
    assert(idx.chunks.take(1).drop_last() =~= Seq::<ChunkSpan>::empty());
    assert(idx.chunks.take(1).last() == idx.chunks[0]);
    let one = raw.take(1);
    assert(one.drop_last() =~= Seq::<Seq<u8>>::empty());
    assert(one.last() == raw[0]);
    assert(concat(one) == concat(one.drop_last()) + one.last());
    assert(concat(one) =~= raw[0]);
}

/// A run of blocks each written from a file's references is those files written in turn.
proof fn lemma_part_files(blocks: Seq<Seq<u8>>, rf: Seq<Seq<DataRefModel>>, table: Seq<VersionModel>, a: int, e: int)
    requires
        0 <= a <= e <= blocks.len(),
        blocks.len() == rf.len(),
        forall|i: int| 0 <= i < blocks.len() ==> #[trigger] blocks[i] == file_data_bytes(rf[i], table),
    ensures
        concat(blocks.subrange(a, e)) == files_bytes(rf.subrange(a, e), table),
{
    let bl = blocks.subrange(a, e);
    let rs = rf.subrange(a, e);
    assert forall|t: int| 0 <= t < bl.len() implies #[trigger] bl[t] == file_data_bytes(rs[t], table) by {
        assert(bl[t] == blocks[a + t]);
        assert(rs[t] == rf[a + t]);
    }
    lemma_concat_files(bl, rs, table);
}

/// Each chunk of a rewrite after the string sections holds its files' references written in
/// turn.
#[verifier::rlimit(50)]
#[verifier::spinoff_prover]
proof fn lemma_rewrite_chunks(m: LazyModel, kind: CompressType, fs: Seq<Seq<char>>, out: Seq<u8>)
    requires
        rewrite_spec(m, kind, fs) == Ok::<Seq<u8>, ClutError>(out),
    ensures
        rw_raw(m, fs).len() == rw_per(m, fs).len() + 1,
        forall|c: int|
            #![trigger rw_raw(m, fs)[c]]
            #![trigger first_of(rw_per(m, fs), c)]
            1 <= c <= rw_per(m, fs).len() ==> {
                &&& first_of(rw_per(m, fs), c - 1) <= first_of(rw_per(m, fs), c) <= all_refs(m).len()
                &&& rw_raw(m, fs)[c] == files_bytes(
                    all_refs(m).subrange(first_of(rw_per(m, fs), c - 1) as int, first_of(rw_per(m, fs), c) as int),
                    m.versions,
                )
                &&& rw_raw(m, fs)[c].len() <= u32::MAX
            },
{
    lemma_rewrite_raw_fits(m, kind, fs, out);
    let n = m.files.len();
    lemma_rewrite_fits(m, kind, fs, out);
    lemma_rewrite_grouped(m, fs);
    lemma_file_blocks(m, n);
    lemma_blocks_concat(m, n);
    let raw = rw_raw(m, fs);
    let per = rw_per(m, fs);
    let blocks = rw_blocks(m);
    let rf = all_refs(m);
    lemma_grouped_parts(rw_strings(m, fs), blocks);
    assert(parts_ok(raw, per, blocks));
    assert forall|i: int| 0 <= i < blocks.len() implies #[trigger] blocks[i] == file_data_bytes(rf[i], m.versions) by {
        assert(rf[i] == refs_of(m, i));
    }
    assert forall|c: int|
        #![trigger raw[c]]
        #![trigger first_of(per, c)]
        1 <= c <= per.len() implies {
            &&& first_of(per, c - 1) <= first_of(per, c) <= rf.len()
            &&& raw[c] == files_bytes(rf.subrange(first_of(per, c - 1) as int, first_of(per, c) as int), m.versions)
            &&& raw[c].len() <= u32::MAX
        } by {
        lemma_part_files(blocks, rf, m.versions, first_of(per, c - 1) as int, first_of(per, c) as int);
    }
}

/// A successful rewrite's chunks are few and small enough to index, and its blocks were
/// recovered.
#[verifier::rlimit(50)]
#[verifier::spinoff_prover]
proof fn lemma_rewrite_raw_fits(m: LazyModel, kind: CompressType, fs: Seq<Seq<char>>, out: Seq<u8>)
    requires
        rewrite_spec(m, kind, fs) == Ok::<Seq<u8>, ClutError>(out),
    ensures
        rw_raw(m, fs).len() <= u32::MAX,
        forall|c: int| 0 <= c < rw_raw(m, fs).len() ==> (#[trigger] rw_raw(m, fs)[c]).len() <= u32::MAX,
        recovered(rw_raw(m, fs), rw_per(m, fs), m.versions, (rw_raw(m, fs).len() - 1) as nat) is Ok,
        rw_index(m, kind, fs).files == recovered(rw_raw(m, fs), rw_per(m, fs), m.versions, (rw_raw(m, fs).len() - 1) as nat)->Ok_0,
{
    lemma_rewrite_shape(m, kind, fs, out);
    lemma_raw_total_concat(rw_raw(m, fs));
}

/// Each block of a rewrite's index names a chunk after the string sections and reads its
/// file's references back from that chunk.
#[verifier::rlimit(50)]
#[verifier::spinoff_prover]
proof fn lemma_rewrite_blocks_read(m: LazyModel, kind: CompressType, fs: Seq<Seq<char>>, out: Seq<u8>)
    requires
        rewrite_spec(m, kind, fs) == Ok::<Seq<u8>, ClutError>(out),
        forall|i: int| 0 <= i < m.files.len() ==> refs_storable(#[trigger] refs_of(m, i), m.versions),
    ensures
        rw_index(m, kind, fs).files.len() == m.files.len(),
        forall|i: int|
            0 <= i < m.files.len() ==> 1 <= (#[trigger] rw_index(m, kind, fs).files[i]).chunk < rw_raw(m, fs).len()
                && block_reads(
                rw_raw(m, fs)[rw_index(m, kind, fs).files[i].chunk as int],
                m.versions,
                rw_index(m, kind, fs).files[i],
                refs_of(m, i),
            ),
{
    let raw = rw_raw(m, fs);
    let per = rw_per(m, fs);
    let rf = all_refs(m);
    lemma_rewrite_chunks(m, kind, fs, out);
    lemma_rewrite_raw_fits(m, kind, fs, out);
    lemma_rewrite_file_count(m, kind, fs, out);
    assert forall|i: int| 0 <= i < rf.len() implies refs_storable(#[trigger] rf[i], m.versions) by {
        assert(rf[i] == refs_of(m, i));
    }
    lemma_recovered_reads(raw, per, m.versions, rf, per.len());
    let bs = rw_index(m, kind, fs).files;
    assert forall|i: int| 0 <= i < m.files.len() implies 1 <= (#[trigger] bs[i]).chunk < raw.len() && block_reads(
        raw[bs[i].chunk as int],
        m.versions,
        bs[i],
        refs_of(m, i),
    ) by {
        assert(rf[i] == refs_of(m, i));
    }
}

/// Where a path is found depends on the names alone.
proof fn lemma_file_index_names(a: Seq<(Seq<char>, BlockModel)>, b: Seq<(Seq<char>, BlockModel)>, path: Seq<char>)
    requires
        a.len() == b.len(),
        forall|i: int| 0 <= i < a.len() ==> #[trigger] a[i].0 == b[i].0,
    ensures
        crate::clut_lazy::file_index(a, path) == crate::clut_lazy::file_index(b, path),
    decreases a.len(),
{
    if a.len() > 0 {
        assert(a.last().0 == b.last().0) by {
            assert(a[a.len() - 1].0 == b[b.len() - 1].0);
        }
        assert forall|i: int| 0 <= i < a.drop_last().len() implies #[trigger] a.drop_last()[i].0 == b.drop_last()[i].0 by {
            assert(a[i].0 == b[i].0);
        }
        lemma_file_index_names(a.drop_last(), b.drop_last(), path);
    }
}

/// What a rewrite reads back as, lazily.
#[verifier::rlimit(100)]
#[verifier::spinoff_prover]
proof fn lemma_rewrite_lazy_model(m: LazyModel, kind: CompressType, fs: Seq<Seq<char>>, out: Seq<u8>)
    requires
        rewrite_spec(m, kind, fs) == Ok::<Seq<u8>, ClutError>(out),
        m.header.magic == CLUT_MAGIC,
        section_wf(m.header.version),
        section_wf(m.header.patch_version),
        forall|i: int| 0 <= i < m.versions.len() ==> section_wf(#[trigger] m.versions[i]),
        fs.len() <= i32::MAX,
        m.files.len() <= i32::MAX,
        forall|x: Seq<u8>| #[trigger] inflated(kind, compressed(kind, x)) == Some(x),
    ensures
        read_lazy_spec(out) == Ok::<LazyModel, ClutError>(
            LazyModel {
                header: rw_header(m, kind, fs),
                folders: fs,
                versions: m.versions,
                stride: rw_index(m, kind, fs).stride,
                files: crate::clut_lazy::zip_files(names_of(m.files), rw_index(m, kind, fs).files),
                payload: PayloadModel::Chunked(
                    out.subrange(
                        header_bytes(rw_header(m, kind, fs)).len() + index_bytes(rw_index(m, kind, fs)).len() as int,
                        out.len() as int,
                    ),
                    rw_index(m, kind, fs).chunks,
                ),
            },
        ),
{
    lemma_rewrite_fits(m, kind, fs, out);
    lemma_rewrite_payload(m, kind, fs, out);
    lemma_rewrite_layout(m, kind, fs, out);
    lemma_rewrite_first_chunk(m, kind, fs, out);
    lemma_rewrite_file_count(m, kind, fs, out);
    let h = rw_header(m, kind, fs);
    let idx = rw_index(m, kind, fs);
    let names = names_of(m.files);
    let hl = header_bytes(h).len() as int;
    let q = hl + index_bytes(idx).len();
    assert forall|i: int| 0 <= i < m.versions.len() implies string_fits(#[trigger] version_texts(m.versions)[i]) by {}
    assert forall|i: int| 0 <= i < names.len() implies string_fits(#[trigger] names[i]) by {}
    crate::clut_lazy::lemma_strings_chunk_round_trip(m.versions, fs, names);
    let strings = rw_strings(m, fs);
    lemma_read_chunked_from(out, h, hl, idx, q, strings, m.versions, fs, names, strings.len() as int);
}

/// Chunk `c` of a rewrite inflates back to the raw chunk it was packed from.
#[verifier::rlimit(50)]
#[verifier::spinoff_prover]
proof fn lemma_rewrite_chunk_inflates(m: LazyModel, kind: CompressType, fs: Seq<Seq<char>>, out: Seq<u8>, c: int)
    requires
        rewrite_spec(m, kind, fs) == Ok::<Seq<u8>, ClutError>(out),
        forall|x: Seq<u8>| #[trigger] inflated(kind, compressed(kind, x)) == Some(x),
        0 <= c < rw_raw(m, fs).len(),
    ensures
        c < rw_index(m, kind, fs).chunks.len(),
        inflate_chunk(kind, pack(kind, rw_raw(m, fs)).1, rw_index(m, kind, fs).chunks[c]) == Ok::<Seq<u8>, ClutError>(
            rw_raw(m, fs)[c],
        ),
{
    let raw = rw_raw(m, fs);
    lemma_rewrite_shape(m, kind, fs, out);
    lemma_rewrite_raw_fits(m, kind, fs, out);
    lemma_pack(kind, raw);
    assert forall|i: int| 0 <= i < raw.len() implies inflated(kind, compressed(kind, #[trigger] raw[i])) == Some(raw[i]) by {}
    lemma_inflate_packed(kind, raw, c + 1);
}

/// A rewrite read lazily gives, for a path, the references the CLUT it was made from gives
/// for that path, when they form a layout.
#[verifier::rlimit(100)]
#[verifier::spinoff_prover]
proof fn lemma_rewrite_window_at(m: LazyModel, kind: CompressType, fs: Seq<Seq<char>>, out: Seq<u8>, path: Seq<char>)
    requires
        rewrite_spec(m, kind, fs) == Ok::<Seq<u8>, ClutError>(out),
        read_lazy_spec(out) is Ok,
        read_lazy_spec(out)->Ok_0.header.compression == kind,
        read_lazy_spec(out)->Ok_0.versions == m.versions,
        read_lazy_spec(out)->Ok_0.files == crate::clut_lazy::zip_files(names_of(m.files), rw_index(m, kind, fs).files),
        read_lazy_spec(out)->Ok_0.payload == PayloadModel::Chunked(pack(kind, rw_raw(m, fs)).1, rw_index(m, kind, fs).chunks),
        forall|x: Seq<u8>| #[trigger] inflated(kind, compressed(kind, x)) == Some(x),
        forall|i: int| 0 <= i < m.files.len() ==> refs_storable(#[trigger] refs_of(m, i), m.versions),
        crate::clut_lazy::file_index(m.files, path) >= 0 ==> layout_wf(refs_of(m, crate::clut_lazy::file_index(m.files, path))),
    ensures
        window_spec(read_lazy_spec(out)->Ok_0, path, 0, u64::MAX) == window_spec(m, path, 0, u64::MAX),
{
    let n = read_lazy_spec(out)->Ok_0;
    let idx = rw_index(m, kind, fs);
    lemma_rewrite_blocks_read(m, kind, fs, out);
    lemma_rewrite_fits(m, kind, fs, out);
    lemma_file_blocks(m, m.files.len());
    assert forall|i: int| 0 <= i < n.files.len() implies #[trigger] n.files[i].0 == m.files[i].0 by {}
    lemma_file_index_names(n.files, m.files, path);
    crate::clut_lazy::lemma_file_index(m.files, path);
    let i = crate::clut_lazy::file_index(m.files, path);
    if i >= 0 {
        assert(file_ok(m, i));
        assert(window_spec(m, path, 0, u64::MAX) == Ok::<Seq<DataRefModel>, ClutError>(refs_of(m, i)));
        let b = idx.files[i];
        assert(n.files[i].1 == b);
        reveal(block_reads);
        assert(block_reads(rw_raw(m, fs)[b.chunk as int], m.versions, b, refs_of(m, i)));
        if b.ref_count == 0 {
            assert(refs_of(m, i) =~= Seq::<DataRefModel>::empty());
        } else {
            lemma_rewrite_chunk_inflates(m, kind, fs, out, b.chunk as int);
            assert(crate::clut_lazy::chunk_spec(kind, n.payload, b.chunk) == Ok::<Seq<u8>, ClutError>(
                rw_raw(m, fs)[b.chunk as int],
            ));
        }
    }
}

/// A rewritten CLUT read lazily gives the indexed revision with the codec asked for, the
/// folders in the order `fs`, the same version table, and the same file names in the same
/// order. Each file's size is where its last reference ends (so it is unchanged wherever
/// the CLUT it was made from kept that size), and a full decode of any path gives what it
/// gave before the rewrite, wherever that path's references form a layout (non-empty,
/// ordered, not overlapping, as in a real install). With the codec's round trip this holds
/// for every codec, as `lemma_rewrite_reads_back` does for the eager reader.
#[verifier::rlimit(100)]
#[verifier::spinoff_prover]
pub proof fn lemma_rewrite_reads_back_lazily(m: LazyModel, kind: CompressType, fs: Seq<Seq<char>>, out: Seq<u8>)
    requires
        rewrite_spec(m, kind, fs) == Ok::<Seq<u8>, ClutError>(out),
        m.header.magic == CLUT_MAGIC,
        section_wf(m.header.version),
        section_wf(m.header.patch_version),
        forall|i: int| 0 <= i < m.versions.len() ==> section_wf(#[trigger] m.versions[i]),
        fs.len() <= i32::MAX,
        m.files.len() <= i32::MAX,
        forall|i: int| 0 <= i < m.files.len() ==> refs_storable(#[trigger] refs_of(m, i), m.versions),
        forall|x: Seq<u8>| #[trigger] inflated(kind, compressed(kind, x)) == Some(x),
    ensures
        read_lazy_spec(out) matches Ok(n) && {
            &&& n.header.file_version == Version::Indexed
            &&& n.header.compression == kind
            &&& n.header.repository == m.header.repository
            &&& n.header.version == m.header.version
            &&& n.header.patch_version == m.header.patch_version
            &&& n.folders == fs
            &&& n.versions == m.versions
            &&& n.files.len() == m.files.len()
            &&& forall|i: int| 0 <= i < m.files.len() ==> #[trigger] n.files[i].0 == m.files[i].0
            &&& forall|i: int| 0 <= i < m.files.len() ==> (#[trigger] n.files[i]).1.size == eager_size(refs_of(m, i))
            &&& forall|i: int|
                0 <= i < m.files.len() && m.files[i].1.size == eager_size(refs_of(m, i)) ==> (#[trigger] n.files[i]).1.size
                    == m.files[i].1.size
            &&& forall|path: Seq<char>|
                (crate::clut_lazy::file_index(m.files, path) >= 0 ==> layout_wf(
                    refs_of(m, crate::clut_lazy::file_index(m.files, path)),
                )) ==> #[trigger] window_spec(n, path, 0, u64::MAX) == window_spec(m, path, 0, u64::MAX)
        },
{
    lemma_rewrite_lazy_model(m, kind, fs, out);
    lemma_rewrite_layout(m, kind, fs, out);
    lemma_rewrite_blocks_read(m, kind, fs, out);
    let n = read_lazy_spec(out)->Ok_0;
    let idx = rw_index(m, kind, fs);
    assert forall|i: int| 0 <= i < m.files.len() implies #[trigger] n.files[i].0 == m.files[i].0 by {}
    assert forall|i: int| 0 <= i < m.files.len() implies (#[trigger] n.files[i]).1.size == eager_size(refs_of(m, i)) by {
        assert(n.files[i].1 == idx.files[i]);
        reveal(block_reads);
    }
    assert forall|path: Seq<char>|
        (crate::clut_lazy::file_index(m.files, path) >= 0 ==> layout_wf(refs_of(m, crate::clut_lazy::file_index(m.files, path))))
        implies #[trigger] window_spec(n, path, 0, u64::MAX) == window_spec(m, path, 0, u64::MAX) by {
        lemma_rewrite_window_at(m, kind, fs, out, path);
    }
}

} // verus!
