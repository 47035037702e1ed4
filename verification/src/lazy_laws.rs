//! What the lazy reader's block walk agrees on with the eager reader.
use vstd::prelude::*;

use crate::clut_file::ClutError;
use crate::clut_lazy::{first_checkpoint, leading_at_or_before, window_spec, file_index, zip_checkpoints, decode_window, sat_add, block_scan, blocks_scan, length_scan, offset_scan, struct_scan, wrap_add, read_lazy_spec, read_strings_spec};
use crate::clut_file::{dec_files, read_clut_spec, read_header_spec, payload_spec};
use crate::clut::Version;
use crate::clut_index::BlockModel;
use crate::data_ref::DataRefModel;
use crate::bytes::{read_var_i64_spec, read_var_u32_spec};
use crate::file_data::{add_signed, combine, dec_file_data, dec_length_values, dec_offset_values, dec_struct, dec_structs, next_tracker, tracker_after};
use crate::version::VersionModel;

verus! {

proof fn lemma_dec_structs_append(d: Seq<u8>, p0: int, k: nat, table: Seq<VersionModel>, t0: u64)
    ensures
        dec_structs(d, p0, k + 1, table, t0) == match dec_structs(d, p0, k, table, t0) {
            Err(e) => Err(e),
            Ok((s, q)) => match dec_struct(d, q, table, tracker_after(s, t0)) {
                Err(e) => Err(e),
                Ok((r, q2, _)) => Ok((s.push(r), q2)),
            },
        },
    decreases k,
{
    if k > 0 {
        if let Ok((r0, q0, nt0)) = dec_struct(d, p0, table, t0) {
            lemma_dec_structs_append(d, q0, (k - 1) as nat, table, nt0);
            assert(nt0 == next_tracker(r0.kind, t0));
            if let Ok((rest, q)) = dec_structs(d, q0, (k - 1) as nat, table, nt0) {
                let s = seq![r0] + rest;
                assert(s.drop_first() =~= rest);
                assert(tracker_after(s, t0) == tracker_after(rest, nt0));
                if let Ok((r, q2, _)) = dec_struct(d, q, table, tracker_after(rest, nt0)) {
                    assert(seq![r0] + rest.push(r) =~= s.push(r));
                }
            }
        }
    } else {
        if let Ok((r, q2, nt)) = dec_struct(d, p0, table, t0) {
            assert(dec_structs(d, q2, 0, table, nt) == Ok::<(Seq<DataRefModel>, int), ClutError>((Seq::empty(), q2)));
            assert(seq![r] + Seq::<DataRefModel>::empty() =~= Seq::<DataRefModel>::empty().push(r));
        }
    }
}

/// The structure pass of the lazy walk reads what the eager decoder reads, and stands where
/// it stands.
proof fn lemma_struct_scan_dec(d: Seq<u8>, p0: int, table: Seq<VersionModel>, k: nat, stride: u32)
    ensures
        struct_scan(d, p0, table, k, stride) matches Ok((_, p, t)) ==> dec_structs(d, p0, k, table, 0) matches Ok(
            (s, q),
        ) && q == p && tracker_after(s, 0) == t,
    decreases k,
{
    reveal(struct_scan);
    if k > 0 {
        lemma_struct_scan_dec(d, p0, table, (k - 1) as nat, stride);
        lemma_dec_structs_append(d, p0, (k - 1) as nat, table, 0);
        if let Ok((_, p, t)) = struct_scan(d, p0, table, (k - 1) as nat, stride) {
            if let Ok((s, q)) = dec_structs(d, p0, (k - 1) as nat, table, 0) {
                if let Ok((r, q2, nt)) = dec_struct(d, p, table, t) {
                    crate::file_data::lemma_structs_push(s, r, table, 0);
                }
            }
        }
    } else {
        assert(dec_structs(d, p0, 0, table, 0) == Ok::<(Seq<DataRefModel>, int), ClutError>((Seq::empty(), p0)));
    }
}

/// The last of `s`, or `d` when it is empty.
pub open spec fn last_or<T>(s: Seq<T>, d: T) -> T {
    if s.len() == 0 {
        d
    } else {
        s.last()
    }
}

proof fn lemma_dec_offsets_append(d: Seq<u8>, p0: int, k: nat, prev: u64)
    ensures
        dec_offset_values(d, p0, k + 1, prev) == match dec_offset_values(d, p0, k, prev) {
            Err(e) => Err(e),
            Ok((os, q)) => match read_var_i64_spec(d, q) {
                Err(e) => Err(ClutError::Decode(e)),
                Ok((delta, q2)) => match add_signed(last_or(os, prev), delta) {
                    None => Err(ClutError::OffsetOverflow),
                    Some(o) => Ok((os.push(o), q2)),
                },
            },
        },
    decreases k,
{
    if k > 0 {
        if let Ok((delta, q0)) = read_var_i64_spec(d, p0) {
            if let Some(o0) = add_signed(prev, delta) {
                lemma_dec_offsets_append(d, q0, (k - 1) as nat, o0);
                if let Ok((rest, q)) = dec_offset_values(d, q0, (k - 1) as nat, o0) {
                    let os = seq![o0] + rest;
                    assert(last_or(os, prev) == last_or(rest, o0));
                    if let Ok((delta2, q2)) = read_var_i64_spec(d, q) {
                        if let Some(o) = add_signed(last_or(rest, o0), delta2) {
                            assert(seq![o0] + rest.push(o) =~= os.push(o));
                        }
                    }
                }
            }
        }
    } else {
        if let Ok((delta, q2)) = read_var_i64_spec(d, p0) {
            if let Some(o) = add_signed(prev, delta) {
                assert(dec_offset_values(d, q2, 0, o) == Ok::<(Seq<u64>, int), ClutError>((Seq::empty(), q2)));
                assert(seq![o] + Seq::<u64>::empty() =~= Seq::<u64>::empty().push(o));
            }
        }
    }
}

proof fn lemma_offset_scan_dec(d: Seq<u8>, p0: int, k: nat, stride: u32)
    ensures
        offset_scan(d, p0, k, stride) matches Ok((_, p, off, _)) ==> dec_offset_values(d, p0, k, 0) matches Ok(
            (os, q),
        ) && q == p && off == last_or(os, 0u64),
    decreases k,
{
    reveal(offset_scan);
    if k > 0 {
        lemma_offset_scan_dec(d, p0, (k - 1) as nat, stride);
        lemma_dec_offsets_append(d, p0, (k - 1) as nat, 0);
    } else {
        assert(dec_offset_values(d, p0, 0, 0) == Ok::<(Seq<u64>, int), ClutError>((Seq::empty(), p0)));
    }
}

proof fn lemma_dec_lengths_append(d: Seq<u8>, p0: int, k: nat)
    ensures
        dec_length_values(d, p0, k + 1) == match dec_length_values(d, p0, k) {
            Err(e) => Err(e),
            Ok((ls, q)) => match read_var_u32_spec(d, q) {
                Err(e) => Err(ClutError::Decode(e)),
                Ok((l, q2)) => Ok((ls.push(l), q2)),
            },
        },
    decreases k,
{
    if k > 0 {
        if let Ok((l0, q0)) = read_var_u32_spec(d, p0) {
            lemma_dec_lengths_append(d, q0, (k - 1) as nat);
            if let Ok((rest, q)) = dec_length_values(d, q0, (k - 1) as nat) {
                if let Ok((l, q2)) = read_var_u32_spec(d, q) {
                    assert(seq![l0] + rest.push(l) =~= (seq![l0] + rest).push(l));
                }
            }
        }
    } else {
        if let Ok((l, q2)) = read_var_u32_spec(d, p0) {
            assert(dec_length_values(d, q2, 0) == Ok::<(Seq<u32>, int), ClutError>((Seq::empty(), q2)));
            assert(seq![l] + Seq::<u32>::empty() =~= Seq::<u32>::empty().push(l));
        }
    }
}

proof fn lemma_length_scan_dec(d: Seq<u8>, p0: int, k: nat, stride: u32)
    ensures
        length_scan(d, p0, k, stride) matches Ok((_, p, len)) ==> dec_length_values(d, p0, k) matches Ok((ls, q))
            && q == p && len == last_or(ls, 0u32),
    decreases k,
{
    reveal(length_scan);
    if k > 0 {
        lemma_length_scan_dec(d, p0, (k - 1) as nat, stride);
        lemma_dec_lengths_append(d, p0, (k - 1) as nat);
    } else {
        assert(dec_length_values(d, p0, 0) == Ok::<(Seq<u32>, int), ClutError>((Seq::empty(), p0)));
    }
}

/// Where a file's last reference ends, wrapped at 64 bits; zero for a file with none.
pub open spec fn eager_size(refs: Seq<DataRefModel>) -> u64 {
    if refs.len() == 0 {
        0
    } else {
        wrap_add(refs.last().offset, refs.last().length)
    }
}

proof fn lemma_dec_structs_len(d: Seq<u8>, p0: int, k: nat, table: Seq<VersionModel>, t0: u64)
    ensures
        dec_structs(d, p0, k, table, t0) matches Ok((s, _)) ==> s.len() == k,
    decreases k,
{
    if k > 0 {
        if let Ok((r, q, nt)) = dec_struct(d, p0, table, t0) {
            lemma_dec_structs_len(d, q, (k - 1) as nat, table, nt);
        }
    }
}

proof fn lemma_dec_offsets_len(d: Seq<u8>, p0: int, k: nat, prev: u64)
    ensures
        dec_offset_values(d, p0, k, prev) matches Ok((os, _)) ==> os.len() == k,
    decreases k,
{
    if k > 0 {
        if let Ok((delta, q)) = read_var_i64_spec(d, p0) {
            if let Some(o) = add_signed(prev, delta) {
                lemma_dec_offsets_len(d, q, (k - 1) as nat, o);
            }
        }
    }
}

proof fn lemma_dec_lengths_len(d: Seq<u8>, p0: int, k: nat)
    ensures
        dec_length_values(d, p0, k) matches Ok((ls, _)) ==> ls.len() == k,
    decreases k,
{
    if k > 0 {
        if let Ok((l, q)) = read_var_u32_spec(d, p0) {
            lemma_dec_lengths_len(d, q, (k - 1) as nat);
        }
    }
}

/// Walking one file's block lazily reads what the eager decoder reads: as many references,
/// ending where it ends, the block's size being where the last reference ends.
proof fn lemma_block_scan_dec(d: Seq<u8>, p: int, table: Seq<VersionModel>, stride: u32, chunk: u32)
    ensures
        block_scan(d, p, table, stride, chunk) matches Ok((b, q)) ==> dec_file_data(d, p, table) matches Ok(
            (refs, q2),
        ) && q2 == q && b.ref_count == refs.len() && b.size == eager_size(refs),
{
    if let Ok((b, q)) = block_scan(d, p, table, stride, chunk) {
        let (n, p1) = crate::clut_file::read_count_spec(d, p)->Ok_0;
        lemma_struct_scan_dec(d, p1, table, n as nat, stride);
        lemma_dec_structs_len(d, p1, n as nat, table, 0);
        let (s1, p2) = dec_structs(d, p1, n as nat, table, 0)->Ok_0;
        lemma_offset_scan_dec(d, p2, n as nat, stride);
        lemma_dec_offsets_len(d, p2, n as nat, 0);
        let (os, p3) = dec_offset_values(d, p2, n as nat, 0)->Ok_0;
        lemma_length_scan_dec(d, p3, n as nat, stride);
        lemma_dec_lengths_len(d, p3, n as nat);
        let (ls, p4) = dec_length_values(d, p3, n as nat)->Ok_0;
        let refs = combine(s1, os, ls);
        if n > 0 {
            assert(refs.last() == refs[n - 1]);
        }
    }
}

proof fn lemma_dec_files_append(d: Seq<u8>, p0: int, paths: Seq<Seq<char>>, x: Seq<char>, table: Seq<VersionModel>)
    ensures
        dec_files(d, p0, paths.push(x), table) == match dec_files(d, p0, paths, table) {
            Err(e) => Err(e),
            Ok((fs, q)) => match dec_file_data(d, q, table) {
                Err(e) => Err(e),
                Ok((refs, q2)) => Ok((fs.push((x, refs)), q2)),
            },
        },
    decreases paths.len(),
{
    assert(paths.push(x).drop_first() =~= if paths.len() > 0 { paths.drop_first().push(x) } else { Seq::empty() });
    if paths.len() > 0 {
        assert(paths.push(x)[0] == paths[0]);
        if let Ok((refs0, q0)) = dec_file_data(d, p0, table) {
            lemma_dec_files_append(d, q0, paths.drop_first(), x, table);
            if let Ok((rest, q)) = dec_files(d, q0, paths.drop_first(), table) {
                if let Ok((refs, q2)) = dec_file_data(d, q, table) {
                    assert(seq![(paths[0], refs0)] + rest.push((x, refs)) =~= (seq![(paths[0], refs0)] + rest).push((x, refs)));
                }
            }
        }
    } else {
        assert(paths.push(x)[0] == x);
        if let Ok((refs, q2)) = dec_file_data(d, p0, table) {
            assert(dec_files(d, q2, Seq::<Seq<char>>::empty(), table) == Ok::<(Seq<(Seq<char>, Seq<DataRefModel>)>, int), ClutError>((Seq::empty(), q2)));
            assert(seq![(x, refs)] + Seq::<(Seq<char>, Seq<DataRefModel>)>::empty() =~= Seq::<(Seq<char>, Seq<DataRefModel>)>::empty().push((x, refs)));
        }
    }
}

/// Walking the blocks of the first `k` files lazily reads what the eager decoder reads of
/// them, file by file.
pub(crate) proof fn lemma_blocks_scan_dec(d: Seq<u8>, p0: int, table: Seq<VersionModel>, paths: Seq<Seq<char>>, stride: u32, chunk: u32)
    ensures
        blocks_scan(d, p0, table, paths.len(), stride, chunk) matches Ok((bs, p)) ==> dec_files(d, p0, paths, table) matches Ok(
            (files, q),
        ) && q == p && bs.len() == files.len() && forall|i: int| 0 <= i < bs.len() ==> (#[trigger] bs[i]).ref_count
            == files[i].1.len() && bs[i].size == eager_size(files[i].1) && same_start(d, table, stride, chunk, bs[i], files[i].1),
    decreases paths.len(),
{
    if paths.len() > 0 {
        let init = paths.drop_last();
        lemma_blocks_scan_dec(d, p0, table, init, stride, chunk);
        lemma_dec_files_append(d, p0, init, paths.last(), table);
        assert(init.push(paths.last()) =~= paths);
        if let Ok((bs0, p)) = blocks_scan(d, p0, table, init.len(), stride, chunk) {
            lemma_block_scan_dec(d, p, table, stride, chunk);
            if let Ok((bs, p2)) = blocks_scan(d, p0, table, paths.len(), stride, chunk) {
                let (files0, q) = dec_files(d, p0, init, table)->Ok_0;
                let (b, _) = block_scan(d, p, table, stride, chunk)->Ok_0;
                assert(bs == bs0.push(b));
                let files = dec_files(d, p0, paths, table)->Ok_0.0;
                assert forall|i: int| 0 <= i < bs.len() implies (#[trigger] bs[i]).ref_count == files[i].1.len()
                    && bs[i].size == eager_size(files[i].1) && same_start(d, table, stride, chunk, bs[i], files[i].1) by {
                    if i < bs0.len() {
                        assert(bs[i] == bs0[i]);
                        assert(files[i] == files0[i]);
                    } else {
                        assert(starts_at(d, p, table, stride, chunk, bs[i], files[i].1));
                    }
                }
            }
        }
    } else {
        assert(dec_files(d, p0, paths, table) == Ok::<(Seq<(Seq<char>, Seq<DataRefModel>)>, int), ClutError>((Seq::empty(), p0)));
    }
}

/// A CLUT that keeps its payload whole, read lazily and read eagerly, gives every file the
/// same number of references, and the size the lazy reader keeps for a file is where the
/// eager reader's last reference of it ends (zero for a file with none); the header,
/// folders and names agree as `lemma_lazy_names_match_eager` states.
pub proof fn lemma_lazy_sizes_match_eager(d: Seq<u8>)
    requires
        read_clut_spec(d) is Ok,
        read_lazy_spec(d) is Ok,
        read_header_spec(d) matches Ok((h, _)) && h.file_version != Version::Indexed,
    ensures
        forall|i: int| 0 <= i < read_clut_spec(d)->Ok_0.files.len() ==> {
            &&& (#[trigger] read_lazy_spec(d)->Ok_0.files[i]).1.ref_count == read_clut_spec(d)->Ok_0.files[i].1.len()
            &&& read_lazy_spec(d)->Ok_0.files[i].1.size == eager_size(read_clut_spec(d)->Ok_0.files[i].1)
        },
{
    let (h, p) = read_header_spec(d)->Ok_0;
    let payload = payload_spec(d, h, p)->Ok_0;
    let (table, folders, names, q) = read_strings_spec(payload)->Ok_0;
    lemma_blocks_scan_dec(payload, q, table, names, crate::clut_lazy::STRIDE, 0);
    crate::clut_lazy::lemma_lazy_names_match_eager(d);
}

/// Decoding a whole file window by window from its start reads every reference the eager
/// decoder reads, so long as each is non-empty and ends within 64 bits.
proof fn lemma_window_decodes_all(
    d: Seq<u8>,
    table: Seq<VersionModel>,
    asc: bool,
    ps: int,
    po: int,
    pl: int,
    t: u64,
    off: u64,
    n: nat,
)
    requires
        dec_structs(d, ps, n, table, t) is Ok,
        dec_offset_values(d, po, n, off) is Ok,
        dec_length_values(d, pl, n) is Ok,
        forall|j: int| 0 <= j < n ==> {
            &&& #[trigger] dec_length_values(d, pl, n)->Ok_0.0[j] > 0
            &&& dec_offset_values(d, po, n, off)->Ok_0.0[j] + dec_length_values(d, pl, n)->Ok_0.0[j] <= u64::MAX
        },
    ensures
        decode_window(d, table, asc, 0, u64::MAX, ps, po, pl, t, off, n) == Ok::<Seq<DataRefModel>, ClutError>(
            combine(
                dec_structs(d, ps, n, table, t)->Ok_0.0,
                dec_offset_values(d, po, n, off)->Ok_0.0,
                dec_length_values(d, pl, n)->Ok_0.0,
            ),
        ),
    decreases n,
{
    reveal(decode_window);
    lemma_dec_structs_len(d, ps, n, table, t);
    lemma_dec_offsets_len(d, po, n, off);
    lemma_dec_lengths_len(d, pl, n);
    if n == 0 {
        assert(combine(Seq::<DataRefModel>::empty(), Seq::<u64>::empty(), Seq::<u32>::empty()) =~= Seq::<DataRefModel>::empty());
    } else {
        let (r, ps2, t2) = dec_struct(d, ps, table, t)->Ok_0;
        let (delta, po2) = read_var_i64_spec(d, po)->Ok_0;
        let o = add_signed(off, delta)->0;
        let (len, pl2) = read_var_u32_spec(d, pl)->Ok_0;
        let s1 = dec_structs(d, ps, n, table, t)->Ok_0.0;
        let os = dec_offset_values(d, po, n, off)->Ok_0.0;
        let ls = dec_length_values(d, pl, n)->Ok_0.0;
        let s1r = dec_structs(d, ps2, (n - 1) as nat, table, t2)->Ok_0.0;
        let osr = dec_offset_values(d, po2, (n - 1) as nat, o)->Ok_0.0;
        let lsr = dec_length_values(d, pl2, (n - 1) as nat)->Ok_0.0;
        assert(s1 == seq![r] + s1r);
        assert(os == seq![o] + osr);
        assert(ls == seq![len] + lsr);
        assert(ls[0] > 0 && os[0] + ls[0] <= u64::MAX);
        assert forall|j: int| 0 <= j < n - 1 implies {
            &&& #[trigger] dec_length_values(d, pl2, (n - 1) as nat)->Ok_0.0[j] > 0
            &&& dec_offset_values(d, po2, (n - 1) as nat, o)->Ok_0.0[j] + dec_length_values(d, pl2, (n - 1) as nat)->Ok_0.0[j] <= u64::MAX
        } by {
            assert(ls[j + 1] > 0 && os[j + 1] + ls[j + 1] <= u64::MAX);
            assert(lsr[j] == ls[j + 1]);
            assert(osr[j] == os[j + 1]);
        }
        lemma_window_decodes_all(d, table, asc, ps2, po2, pl2, t2, o, (n - 1) as nat);
        assert(o < u64::MAX);
        assert(sat_add(o, len) > 0);
        assert(seq![DataRefModel { offset: o, length: len, ..r }] + combine(s1r, osr, lsr) =~= combine(s1, os, ls));
    }
}

proof fn lemma_struct_scan_first(d: Seq<u8>, p0: int, table: Seq<VersionModel>, k: nat, stride: u32)
    requires
        stride > 0,
        k > 0,
    ensures
        struct_scan(d, p0, table, k, stride) matches Ok((cps, _, _)) ==> cps.len() >= 1 && cps[0] == (p0, 0u64) && 0
            <= p0 < d.len(),
    decreases k,
{
    reveal(struct_scan);
    if k > 1 {
        lemma_struct_scan_first(d, p0, table, (k - 1) as nat, stride);
    } else {
        reveal(struct_scan);
        assert(struct_scan(d, p0, table, 0, stride) == Ok::<(Seq<(int, u64)>, int, u64), ClutError>((Seq::empty(), p0, 0)));
    }
}

proof fn lemma_length_scan_first(d: Seq<u8>, p0: int, k: nat, stride: u32)
    requires
        stride > 0,
        k > 0,
    ensures
        length_scan(d, p0, k, stride) matches Ok((cps, _, _)) ==> cps.len() >= 1 && cps[0] == p0 && 0 <= p0 < d.len(),
    decreases k,
{
    reveal(length_scan);
    if k > 1 {
        lemma_length_scan_first(d, p0, (k - 1) as nat, stride);
    } else {
        assert(length_scan(d, p0, 0, stride) == Ok::<(Seq<int>, int, u32), ClutError>((Seq::empty(), p0, 0)));
    }
}

/// The offset pass's checkpoints: the first at the start with offset zero, each later one
/// holding the offset of a reference after the first.
proof fn lemma_offset_scan_points(d: Seq<u8>, p0: int, k: nat, stride: u32)
    requires
        stride >= 2,
    ensures
        offset_scan(d, p0, k, stride) matches Ok((cps, _, _, _)) ==> {
            &&& dec_offset_values(d, p0, k, 0) is Ok
            &&& (k > 0 ==> cps.len() >= 1 && cps[0] == (p0, 0u64) && 0 <= p0 < d.len())
            &&& k == 0 ==> cps.len() == 0
            &&& forall|j: int| 0 < j < cps.len() ==> exists|idx: int| 1 <= idx < k && #[trigger] cps[j].1
                == dec_offset_values(d, p0, k, 0)->Ok_0.0[idx]
        },
    decreases k,
{
    reveal(offset_scan);
    lemma_offset_scan_dec(d, p0, k, stride);
    if k > 0 {
        lemma_offset_scan_points(d, p0, (k - 1) as nat, stride);
        lemma_offset_scan_dec(d, p0, (k - 1) as nat, stride);
        lemma_dec_offsets_append(d, p0, (k - 1) as nat, 0);
        lemma_dec_offsets_len(d, p0, (k - 1) as nat, 0);
        if let Ok((cps, p, off, asc)) = offset_scan(d, p0, k, stride) {
            let (cps0, pp, off0, asc0) = offset_scan(d, p0, (k - 1) as nat, stride)->Ok_0;
            let os0 = dec_offset_values(d, p0, (k - 1) as nat, 0)->Ok_0.0;
            let os = dec_offset_values(d, p0, k, 0)->Ok_0.0;
            assert forall|i: int| 0 <= i < os0.len() implies os0[i] == os[i] by {}
            if k == 1 {
                assert(cps0.len() == 0);
                assert(pp == p0 && off0 == 0);
                assert((k - 1) % (stride as int) == 0) by (nonlinear_arith)
                    requires
                        k == 1,
                        stride >= 2,
                ;
                assert(cps == cps0.push((pp, off0)));
                assert(read_var_i64_spec(d, p0) is Ok);
                assert(0 <= p0 < d.len());
            } else {
                assert(cps0.len() >= 1);
                assert(cps[0] == cps0[0]);
            }
            if (k - 1) % (stride as int) == 0 && k - 1 > 0 {
                assert(k - 1 >= stride) by (nonlinear_arith)
                    requires
                        (k - 1) % (stride as int) == 0,
                        k - 1 > 0,
                        stride >= 2,
                ;
                assert(off0 == os0[k - 2]);
            }
            assert forall|j: int| 0 < j < cps.len() implies exists|idx: int| 1 <= idx < k && #[trigger] cps[j].1
                == os[idx] by {
                if j < cps0.len() {
                    let idx = choose|idx: int| 1 <= idx < k - 1 && #[trigger] cps0[j].1 == os0[idx];
                    assert(cps[j] == cps0[j]);
                    assert(os[idx] == os0[idx]);
                } else {
                    assert(cps[j].1 == off0);
                    assert(os[k - 2] == os0[k - 2]);
                }
            }
        }
    } else {
        assert(dec_offset_values(d, p0, 0, 0) == Ok::<(Seq<u64>, int), ClutError>((Seq::empty(), p0)));
    }
}

/// Both readers walk a file's block from `p`.
pub open spec fn starts_at(d: Seq<u8>, p: int, table: Seq<VersionModel>, stride: u32, chunk: u32, b: BlockModel, refs: Seq<DataRefModel>) -> bool {
    &&& block_scan(d, p, table, stride, chunk) matches Ok((b2, _)) && b2 == b
    &&& dec_file_data(d, p, table) matches Ok((r2, _)) && r2 == refs
}

/// Both readers walk a file's block from the same place.
pub open spec fn same_start(d: Seq<u8>, table: Seq<VersionModel>, stride: u32, chunk: u32, b: BlockModel, refs: Seq<DataRefModel>) -> bool {
    exists|p: int| #[trigger] starts_at(d, p, table, stride, chunk, b, refs)
}

proof fn lemma_offset_scan_len(d: Seq<u8>, p0: int, k: nat, stride: u32)
    ensures
        offset_scan(d, p0, k, stride) matches Ok((cps, _, _, _)) ==> cps.len() == crate::clut_lazy::stride_starts(k, stride),
    decreases k,
{
    reveal(offset_scan);
    if k > 0 {
        lemma_offset_scan_len(d, p0, (k - 1) as nat, stride);
    }
}

proof fn lemma_blocks_len(d: Seq<u8>, p0: int, table: Seq<VersionModel>, k: nat, stride: u32, chunk: u32)
    ensures
        blocks_scan(d, p0, table, k, stride, chunk) matches Ok((bs, _)) ==> bs.len() == k,
    decreases k,
{
    if k > 0 {
        lemma_blocks_len(d, p0, table, (k - 1) as nat, stride, chunk);
    }
}

/// A file's block, decoded whole by the lazy reader from its first checkpoint, gives the
/// references the eager reader reads, when they form a layout.
#[verifier::rlimit(60)]
#[verifier::spinoff_prover]
pub(crate) proof fn lemma_block_window(d: Seq<u8>, p: int, table: Seq<VersionModel>, chunk: u32)
    requires
        d.len() <= u32::MAX,
        block_scan(d, p, table, crate::clut_lazy::STRIDE, chunk) is Ok,
        dec_file_data(d, p, table) is Ok,
        crate::overlay::layout_wf(dec_file_data(d, p, table)->Ok_0.0),
    ensures
        ({
            let b = block_scan(d, p, table, crate::clut_lazy::STRIDE, chunk)->Ok_0.0;
            let refs = dec_file_data(d, p, table)->Ok_0.0;
            &&& b.ref_count == refs.len()
            &&& b.ref_count > 0 ==> first_checkpoint(b, 0) == 0 && decode_window(
                d,
                table,
                b.ascending,
                0,
                u64::MAX,
                b.checkpoints[0].structs as int,
                b.checkpoints[0].offsets as int,
                b.checkpoints[0].lengths as int,
                b.checkpoints[0].patch_offset,
                b.checkpoints[0].file_offset,
                b.ref_count as nat,
            ) == Ok::<Seq<DataRefModel>, ClutError>(refs)
        }),
{
    let stride = crate::clut_lazy::STRIDE;
    lemma_block_scan_dec(d, p, table, stride, chunk);
    let b = block_scan(d, p, table, stride, chunk)->Ok_0.0;
    let refs = dec_file_data(d, p, table)->Ok_0.0;
    let (n, p1) = crate::clut_file::read_count_spec(d, p)->Ok_0;
    if n > 0 {
        let (sc, p2, _) = struct_scan(d, p1, table, n as nat, stride)->Ok_0;
        let (oc, p3, off, asc) = offset_scan(d, p2, n as nat, stride)->Ok_0;
        let (lc, p4, len) = length_scan(d, p3, n as nat, stride)->Ok_0;
        lemma_struct_scan_dec(d, p1, table, n as nat, stride);
        lemma_dec_structs_len(d, p1, n as nat, table, 0);
        lemma_offset_scan_dec(d, p2, n as nat, stride);
        lemma_dec_offsets_len(d, p2, n as nat, 0);
        lemma_length_scan_dec(d, p3, n as nat, stride);
        lemma_dec_lengths_len(d, p3, n as nat);
        lemma_struct_scan_first(d, p1, table, n as nat, stride);
        lemma_offset_scan_points(d, p2, n as nat, stride);
        lemma_length_scan_first(d, p3, n as nat, stride);
        crate::rewrite_laws::lemma_struct_scan_len(d, p1, table, n as nat, stride);
        lemma_offset_scan_len(d, p2, n as nat, stride);
        let s1 = dec_structs(d, p1, n as nat, table, 0)->Ok_0.0;
        let os = dec_offset_values(d, p2, n as nat, 0)->Ok_0.0;
        let ls = dec_length_values(d, p3, n as nat)->Ok_0.0;
        assert(refs == combine(s1, os, ls));
        let cps = b.checkpoints;
        assert(cps == zip_checkpoints(sc, oc, lc));
        assert(cps[0].file_offset == 0);
        // Only the first checkpoint lies at offset zero.
        assert(cps.len() >= 1);
        if cps.len() > 1 {
            let idx = choose|idx: int| 1 <= idx < n && #[trigger] oc[1].1 == os[idx];
            assert(refs[idx].offset == os[idx]);
            assert(crate::data_ref::ref_end(refs[0]) <= refs[idx].offset);
            assert(cps.drop_first()[0] == cps[1]);
            assert(cps[1].file_offset > 0);
            assert(leading_at_or_before(cps.drop_first(), 0) == 0);
            assert(leading_at_or_before(cps, 0) == 1);
        } else {
            assert(cps.drop_first().len() == 0);
            assert(leading_at_or_before(cps.drop_first(), 0) == 0);
            assert(leading_at_or_before(cps, 0) == 1);
        }
        assert(first_checkpoint(b, 0) == 0);
        assert forall|j: int| 0 <= j < n implies {
            &&& #[trigger] ls[j] > 0
            &&& os[j] + ls[j] <= u64::MAX
        } by {
            assert(refs[j].offset == os[j] && refs[j].length == ls[j]);
        }
        lemma_window_decodes_all(d, table, b.ascending, p1, p2, p3, 0, 0, n as nat);
    }
}

/// The pieces both readers take from a CLUT that keeps its payload whole.
pub open spec fn whole_payload(d: Seq<u8>) -> Seq<u8> {
    let (h, p) = read_header_spec(d)->Ok_0;
    payload_spec(d, h, p)->Ok_0
}

pub open spec fn whole_strings(d: Seq<u8>) -> (Seq<VersionModel>, Seq<Seq<char>>, Seq<Seq<char>>, int) {
    read_strings_spec(whole_payload(d))->Ok_0
}

pub open spec fn whole_blocks(d: Seq<u8>) -> Seq<BlockModel> {
    let (table, _, names, q) = whole_strings(d);
    blocks_scan(whole_payload(d), q, table, names.len(), crate::clut_lazy::STRIDE, 0)->Ok_0.0
}

#[verifier::rlimit(100)]
#[verifier::spinoff_prover]
proof fn lemma_whole_pieces(d: Seq<u8>)
    requires
        read_clut_spec(d) is Ok,
        read_lazy_spec(d) is Ok,
        read_header_spec(d) matches Ok((h, _)) && h.file_version != Version::Indexed,
    ensures
        whole_payload(d).len() <= u32::MAX,
        read_strings_spec(whole_payload(d)) is Ok,
        blocks_scan(whole_payload(d), whole_strings(d).3, whole_strings(d).0, whole_strings(d).2.len(), crate::clut_lazy::STRIDE, 0) is Ok,
        read_lazy_spec(d)->Ok_0.payload == crate::clut_lazy::PayloadModel::Whole(whole_payload(d)),
        read_lazy_spec(d)->Ok_0.versions == whole_strings(d).0,
        read_lazy_spec(d)->Ok_0.stride == crate::clut_lazy::STRIDE,
        read_lazy_spec(d)->Ok_0.files == crate::clut_lazy::zip_files(whole_strings(d).2, whole_blocks(d)),
        dec_files(whole_payload(d), whole_strings(d).3, whole_strings(d).2, whole_strings(d).0) is Ok,
        read_clut_spec(d)->Ok_0.files == dec_files(whole_payload(d), whole_strings(d).3, whole_strings(d).2, whole_strings(d).0)->Ok_0.0,
{
}

#[verifier::rlimit(100)]
#[verifier::spinoff_prover]
proof fn lemma_window_matches(
    l: crate::clut_lazy::LazyModel,
    files: Seq<(Seq<char>, Seq<DataRefModel>)>,
    payload: Seq<u8>,
    table: Seq<VersionModel>,
    names: Seq<Seq<char>>,
    q: int,
    path: Seq<char>,
)
    requires
        payload.len() <= u32::MAX,
        blocks_scan(payload, q, table, names.len(), crate::clut_lazy::STRIDE, 0) is Ok,
        l.payload == crate::clut_lazy::PayloadModel::Whole(payload),
        l.versions == table,
        l.stride == crate::clut_lazy::STRIDE,
        l.files == crate::clut_lazy::zip_files(
            names,
            blocks_scan(payload, q, table, names.len(), crate::clut_lazy::STRIDE, 0)->Ok_0.0,
        ),
        dec_files(payload, q, names, table) matches Ok((fs, _)) && fs == files,
        file_index(l.files, path) >= 0 ==> crate::overlay::layout_wf(files[file_index(l.files, path)].1),
    ensures
        file_index(l.files, path) < 0 ==> window_spec(l, path, 0, u64::MAX) == Err::<Seq<DataRefModel>, ClutError>(
            ClutError::FileNotFound,
        ),
        file_index(l.files, path) >= 0 ==> window_spec(l, path, 0, u64::MAX) == Ok::<Seq<DataRefModel>, ClutError>(
            files[file_index(l.files, path)].1,
        ),
{
    lemma_blocks_scan_dec(payload, q, table, names, crate::clut_lazy::STRIDE, 0);
    let bs = blocks_scan(payload, q, table, names.len(), crate::clut_lazy::STRIDE, 0)->Ok_0.0;
    let i = file_index(l.files, path);
    crate::clut_lazy::lemma_file_index(l.files, path);
    if i >= 0 {
        assert(l.files.len() == names.len());
        assert(i < names.len());
        assert(l.files[i] == (names[i], bs[i]));
        assert(bs.len() == files.len());
        lemma_blocks_len(payload, q, table, names.len(), crate::clut_lazy::STRIDE, 0);
        assert(i < bs.len());
        let b = bs[i];
        let refs = files[i].1;
        assert(bs[i].ref_count == files[i].1.len());
        assert(same_start(payload, table, crate::clut_lazy::STRIDE, 0, b, refs));
        let pb = choose|pb: int| #[trigger] starts_at(payload, pb, table, crate::clut_lazy::STRIDE, 0, b, refs);
        lemma_block_window(payload, pb, table, 0);
        if b.ref_count == 0 {
            assert(refs =~= Seq::<DataRefModel>::empty());
        } else {
            assert(crate::clut_lazy::chunk_spec(l.header.compression, l.payload, b.chunk) == Ok::<Seq<u8>, ClutError>(payload));
        }
    }
}

/// A CLUT that keeps its payload whole, read lazily and read eagerly: decoding a file whole
/// through the lazy reader gives the references the eager reader reads for it, wherever
/// those form a layout (non-empty, ordered, not overlapping, as in a real install); a path
/// the CLUT does not list is refused.
#[verifier::rlimit(100)]
#[verifier::spinoff_prover]
pub proof fn lemma_lazy_refs_match_eager(d: Seq<u8>, path: Seq<char>)
    requires
        read_clut_spec(d) is Ok,
        read_lazy_spec(d) is Ok,
        read_header_spec(d) matches Ok((h, _)) && h.file_version != Version::Indexed,
        file_index(read_lazy_spec(d)->Ok_0.files, path) >= 0 ==> crate::overlay::layout_wf(
            read_clut_spec(d)->Ok_0.files[file_index(read_lazy_spec(d)->Ok_0.files, path)].1,
        ),
    ensures
        file_index(read_lazy_spec(d)->Ok_0.files, path) < 0 ==> window_spec(read_lazy_spec(d)->Ok_0, path, 0, u64::MAX)
            == Err::<Seq<DataRefModel>, ClutError>(ClutError::FileNotFound),
        file_index(read_lazy_spec(d)->Ok_0.files, path) >= 0 ==> window_spec(read_lazy_spec(d)->Ok_0, path, 0, u64::MAX)
            == Ok::<Seq<DataRefModel>, ClutError>(read_clut_spec(d)->Ok_0.files[file_index(read_lazy_spec(d)->Ok_0.files, path)].1),
{
    lemma_whole_pieces(d);
    let (table, folders, names, q) = whole_strings(d);
    lemma_window_matches(read_lazy_spec(d)->Ok_0, read_clut_spec(d)->Ok_0.files, whole_payload(d), table, names, q, path);
}

} // verus!
