use vstd::prelude::*;

use crate::chunk::{resolve_platform, resolved, trim_start, Chunk, ChunkModel, CompressedBlock, HEADER_SIZE, VERSION_HEADER};
use crate::bytes::{read_u32, read_u32_spec};
use crate::lut::{Lut, LutModel};
use crate::clut::PlatformId;
use crate::clut_build::data_sum;
use crate::text::{ascii_lower, chars_of, decimal, push_decimal, push_str, string_of};

verus! {

/// `s` with its ASCII capitals made small, as `str::to_ascii_lowercase` does.
pub open spec fn lower_ascii(s: Seq<char>) -> Seq<char> {
    s.map_values(|c: char| ascii_lower(c))
}

/// The name a target is tracked under: its platform resolved for Windows, without leading
/// slashes, in lower case.
pub open spec fn key_of(target: Seq<char>) -> Seq<char> {
    lower_ascii(trim_start(resolved(target, PlatformId::Win32), '/'))
}

/// The name a target is tracked under.
pub fn key(target: &str) -> (k: String)
    ensures
        k@ == key_of(target@),
{
    let resolved = resolve_platform(target, PlatformId::Win32);
    let cs = chars_of(resolved.as_str());
    let mut start: usize = 0;
    assert(cs@.subrange(0, cs@.len() as int) =~= cs@);
    while start < cs.len() && cs[start] == '/'
        invariant
            start <= cs@.len(),
            trim_start(cs@, '/') == trim_start(cs@.subrange(start as int, cs@.len() as int), '/'),
        decreases cs@.len() - start,
    {
        assert(cs@.subrange(start as int, cs@.len() as int).drop_first() =~= cs@.subrange(start + 1, cs@.len() as int));
        start = start + 1;
    }
    let ghost rest = cs@.subrange(start as int, cs@.len() as int);
    assert(trim_start(rest, '/') == rest);
    let mut out: Vec<char> = Vec::new();
    let mut i: usize = start;
    while i < cs.len()
        invariant
            start <= i <= cs@.len(),
            rest == cs@.subrange(start as int, cs@.len() as int),
            out@ == lower_ascii(cs@.subrange(start as int, i as int)),
        decreases cs@.len() - i,
    {
        let c = cs[i];
        let l = if 'A' <= c && c <= 'Z' {
            ((c as u32) + 32) as u8 as char
        } else {
            c
        };
        assert(l == ascii_lower(c)) by {
            if 'A' <= c && c <= 'Z' {
                assert(((c as u32) + 32) as u8 as char == ((c as u32) + 32) as char);
            }
        }
        out.push(l);
        assert(out@ =~= lower_ascii(cs@.subrange(start as int, i + 1)));
        i = i + 1;
    }
    string_of(out.as_slice())
}

/// Byte ranges, `[start, end)`, written to each target.
pub type Spans = Vec<(String, Vec<(u64, u64)>)>;

/// The target names of an entry list.
pub open spec fn span_keys(v: Seq<(String, Vec<(u64, u64)>)>) -> Seq<Seq<char>> {
    v.map_values(|e: (String, Vec<(u64, u64)>)| e.0@)
}

/// What an entry list, each name once, says of each target.
pub open spec fn span_map(v: Seq<(String, Vec<(u64, u64)>)>) -> Map<Seq<char>, Seq<(u64, u64)>> {
    Map::new(
        |k: Seq<char>| span_keys(v).contains(k),
        |k: Seq<char>| v[key_index(v, k)].1@,
    )
}

/// Where `k` stands in an entry list that names it.
pub open spec fn key_index(v: Seq<(String, Vec<(u64, u64)>)>, k: Seq<char>) -> int {
    choose|i: int| 0 <= i < v.len() && v[i].0@ == k
}

/// `m` with the range `[start, end)` added to `k`'s.
pub open spec fn push_span(m: Map<Seq<char>, Seq<(u64, u64)>>, k: Seq<char>, start: u64, end: u64) -> Map<Seq<char>, Seq<(u64, u64)>> {
    m.insert(
        k,
        (if m.contains_key(k) {
            m[k]
        } else {
            Seq::empty()
        }).push((start, end)),
    )
}

/// What one chunk writes: data, deletions and expansions write their blocks, a header its
/// 1 KiB, an added file its data (from scratch when it starts at zero); a deleted file is
/// forgotten.
pub open spec fn cover_step(m: Map<Seq<char>, Seq<(u64, u64)>>, c: ChunkModel) -> Map<Seq<char>, Seq<(u64, u64)>> {
    match c {
        ChunkModel::SqpkAddData { target, block_offset, block_number, block_delete_number, .. } => push_span(
            m,
            key_of(target),
            block_offset as u64,
            (block_offset + block_number + block_delete_number) as u64,
        ),
        ChunkModel::SqpkDeleteData { target, block_offset, block_number } => push_span(
            m,
            key_of(target),
            block_offset as u64,
            (block_offset + block_number) as u64,
        ),
        ChunkModel::SqpkExpandData { target, block_offset, block_number } => push_span(
            m,
            key_of(target),
            block_offset as u64,
            (block_offset + block_number) as u64,
        ),
        ChunkModel::SqpkHeader { target, header_kind, .. } => {
            let start: u64 = if header_kind == VERSION_HEADER {
                0
            } else {
                HEADER_SIZE as u64
            };
            push_span(m, key_of(target), start, (start + HEADER_SIZE) as u64)
        },
        ChunkModel::SqpkFileAdd { target, file_offset, blocks } => {
            let k = key_of(target);
            let m2 = if file_offset == 0 {
                m.remove(k)
            } else {
                m
            };
            push_span(m2, k, file_offset as u64, (file_offset + data_sum(blocks)) as u64)
        },
        ChunkModel::SqpkFileDelete { target } => m.remove(key_of(target)),
        _ => m,
    }
}

/// What a run of chunks writes, on top of `m`.
pub open spec fn cover_all(m: Map<Seq<char>, Seq<(u64, u64)>>, cs: Seq<ChunkModel>) -> Map<Seq<char>, Seq<(u64, u64)>>
    decreases cs.len(),
{
    if cs.len() == 0 {
        m
    } else {
        cover_step(cover_all(m, cs.drop_last()), cs.last())
    }
}

/// Whether a chunk's ranges can be computed in 64 bits.
pub open spec fn chunk_fits(c: ChunkModel) -> bool {
    match c {
        ChunkModel::SqpkAddData { block_offset, block_number, block_delete_number, .. } =>
            i64::MIN <= block_offset + block_number <= i64::MAX && i64::MIN <= block_offset + block_number
                + block_delete_number <= i64::MAX,
        ChunkModel::SqpkDeleteData { block_offset, block_number, .. } => i64::MIN <= block_offset
            + block_number <= i64::MAX,
        ChunkModel::SqpkExpandData { block_offset, block_number, .. } => i64::MIN <= block_offset
            + block_number <= i64::MAX,
        ChunkModel::SqpkFileAdd { file_offset, blocks, .. } => blocks.len() <= 0x1_0000_0000
            && i64::MIN <= file_offset + data_sum(blocks) <= i64::MAX,
        _ => true,
    }
}

/// Whether the entry list names each target once.
pub open spec fn spans_wf(v: Seq<(String, Vec<(u64, u64)>)>) -> bool {
    span_keys(v).no_duplicates()
}

proof fn lemma_choose_index(v: Seq<(String, Vec<(u64, u64)>)>, i: int, k: Seq<char>)
    requires
        spans_wf(v),
        0 <= i < v.len(),
        v[i].0@ == k,
    ensures
        key_index(v, k) == i,
{
    let j = key_index(v, k);
    assert(span_keys(v)[i] == k);
    assert(span_keys(v)[j] == span_keys(v)[i]);
}

proof fn lemma_key_index(v: Seq<(String, Vec<(u64, u64)>)>, k: Seq<char>) -> (i: int)
    requires
        span_keys(v).contains(k),
    ensures
        0 <= i < v.len(),
        v[i].0@ == k,
{
    let i = choose|i: int| 0 <= i < span_keys(v).len() && span_keys(v)[i] == k;
    i
}

fn find_span(v: &Spans, k: &String) -> (r: Option<usize>)
    ensures
        r matches Some(i) ==> i < v@.len() && v@[i as int].0@ == k@,
        r is None ==> !span_keys(v@).contains(k@),
{
    let mut i: usize = 0;
    while i < v.len()
        invariant
            i <= v@.len(),
            forall|j: int| 0 <= j < i ==> v@[j].0@ != k@,
        decreases v@.len() - i,
    {
        if v[i].0 == *k {
            return Some(i);
        }
        i = i + 1;
    }
    assert(!span_keys(v@).contains(k@)) by {
        if span_keys(v@).contains(k@) {
            let j = choose|j: int| 0 <= j < span_keys(v@).len() && span_keys(v@)[j] == k@;
            assert(v@[j].0@ == k@);
        }
    }
    None
}

/// Add `[start, end)` to the ranges of `k`.
fn add_span(v: &mut Spans, k: String, start: u64, end: u64)
    requires
        spans_wf(old(v)@),
    ensures
        spans_wf(final(v)@),
        span_map(final(v)@) == push_span(span_map(old(v)@), k@, start, end),
{
    let ghost m = span_map(v@);
    match find_span(v, &k) {
        Some(i) => {
            proof {
                lemma_choose_index(v@, i as int, k@);
            }
            let (name, mut spans) = v.remove(i);
            spans.push((start, end));
            v.insert(i, (name, spans));
            proof {
                let w = v@;
                assert(span_keys(w) =~= span_keys(old(v)@));
                assert(span_keys(old(v)@)[i as int] == k@);
                assert(span_map(w).dom() =~= push_span(m, k@, start, end).dom());
                assert(span_map(w) =~= push_span(m, k@, start, end)) by {
                    assert forall|q: Seq<char>| span_map(w).contains_key(q) implies span_map(w)[q] == push_span(m, k@, start, end)[q] by {
                        let j = lemma_key_index(w, q);
                        lemma_choose_index(w, j, q);
                        if j != i {
                            assert(old(v)@[j] == w[j]);
                            lemma_choose_index(old(v)@, j, q);
                        }
                    }
                }
            }
        },
        None => {
            let mut spans: Vec<(u64, u64)> = Vec::new();
            spans.push((start, end));
            v.push((k, spans));
            proof {
                let w = v@;
                assert(span_keys(w) =~= span_keys(old(v)@).push(k@));
                assert(span_keys(w)[w.len() - 1] == k@);
                assert(span_map(w).dom() =~= push_span(m, k@, start, end).dom()) by {
                    assert forall|q: Seq<char>| span_keys(old(v)@).contains(q) implies span_keys(w).contains(q) by {
                        let j = lemma_key_index(old(v)@, q);
                        assert(span_keys(w)[j] == q);
                    }
                }
                assert(span_map(w) =~= push_span(m, k@, start, end)) by {
                    assert forall|q: Seq<char>| span_map(w).contains_key(q) implies span_map(w)[q] == push_span(m, k@, start, end)[q] by {
                        let j = lemma_key_index(w, q);
                        lemma_choose_index(w, j, q);
                        if j < w.len() - 1 {
                            assert(old(v)@[j] == w[j]);
                            assert(span_keys(old(v)@)[j] == q);
                            lemma_choose_index(old(v)@, j, q);
                        }
                    }
                }
            }
        },
    }
}

/// Forget the ranges of `k`.
fn drop_spans(v: &mut Spans, k: &String)
    requires
        spans_wf(old(v)@),
    ensures
        spans_wf(final(v)@),
        span_map(final(v)@) == span_map(old(v)@).remove(k@),
{
    let ghost m = span_map(v@);
    match find_span(v, k) {
        Some(i) => {
            v.remove(i);
            proof {
                let w = v@;
                assert(span_keys(w) =~= span_keys(old(v)@).remove(i as int));
                assert(span_map(w) =~= m.remove(k@)) by {
                    assert forall|q: Seq<char>| #[trigger] span_map(w).contains_key(q) implies m.remove(k@).contains_key(q) && span_map(w)[q] == m.remove(k@)[q] by {
                        let j = lemma_key_index(w, q);
                        lemma_choose_index(w, j, q);
                        assert(span_keys(old(v)@)[i as int] == k@);
                        if j < i {
                            assert(old(v)@[j] == w[j]);
                            assert(span_keys(old(v)@)[j] == q);
                            lemma_choose_index(old(v)@, j, q);
                        } else {
                            assert(old(v)@[j + 1] == w[j]);
                            assert(span_keys(old(v)@)[j + 1] == q);
                            lemma_choose_index(old(v)@, j + 1, q);
                        }
                    }
                    assert forall|q: Seq<char>| #[trigger] m.remove(k@).contains_key(q) implies span_map(w).contains_key(q) by {
                        let j = lemma_key_index(old(v)@, q);
                        if j < i {
                            assert(w[j].0@ == q);
                            assert(span_keys(w)[j] == q);
                        } else {
                            assert(j != i);
                            assert(w[j - 1].0@ == q);
                            assert(span_keys(w)[j - 1] == q);
                        }
                    }
                    assert(span_map(w).dom() =~= m.remove(k@).dom());
                }
            }
        },
        None => {
            assert(span_map(v@) =~= m.remove(k@));
        },
    }
}

/// The bytes the blocks of an added file hold together.
fn block_data_total(blocks: &Vec<CompressedBlock>) -> (s: i64)
    requires
        blocks@.len() <= 0x1_0000_0000,
    ensures
        s == data_sum(blocks@),
{
    let mut s: i64 = 0;
    let mut k: usize = 0;
    while k < blocks.len()
        invariant
            k <= blocks@.len() <= 0x1_0000_0000,
            s == data_sum(blocks@.take(k as int)),
            -(k * 0x8000_0000) <= s <= k * 0x7fff_ffff,
        decreases blocks@.len() - k,
    {
        assert(blocks@.take(k + 1).drop_last() =~= blocks@.take(k as int));
        s = s + blocks[k].data_size as i64;
        k = k + 1;
    }
    assert(blocks@.take(k as int) =~= blocks@);
    s
}

/// Records, target by target, the byte ranges that the chunks of `lut` write, on top of
/// what `files` holds already.
pub fn cover(files: &mut Spans, lut: &Lut)
    requires
        spans_wf(old(files)@),
        forall|i: int| 0 <= i < lut@.chunks.len() ==> chunk_fits(#[trigger] lut@.chunks[i]),
    ensures
        spans_wf(final(files)@),
        span_map(final(files)@) == cover_all(span_map(old(files)@), lut@.chunks),
{
    let ghost m0 = span_map(files@);
    let ghost cs = lut@.chunks;
    let mut i: usize = 0;
    while i < lut.chunks.len()
        invariant
            i <= lut.chunks@.len(),
            cs == lut@.chunks,
            forall|j: int| 0 <= j < cs.len() ==> chunk_fits(#[trigger] cs[j]),
            spans_wf(files@),
            span_map(files@) == cover_all(m0, cs.take(i as int)),
        decreases lut.chunks@.len() - i,
    {
        let ghost before = span_map(files@);
        proof {
            assert(cs.take(i + 1).drop_last() =~= cs.take(i as int));
            assert(cs.take(i + 1).last() == lut.chunks@[i as int]@);
            assert(chunk_fits(cs[i as int]));
        }
        match &lut.chunks[i] {
            Chunk::SqpkAddData { target, block_offset, block_number, block_delete_number, .. } => {
                let end = *block_offset + *block_number + *block_delete_number;
                add_span(files, key(target.as_str()), *block_offset as u64, end as u64);
            },
            Chunk::SqpkDeleteData { target, block_offset, block_number } => {
                let end = *block_offset + *block_number;
                add_span(files, key(target.as_str()), *block_offset as u64, end as u64);
            },
            Chunk::SqpkExpandData { target, block_offset, block_number } => {
                let end = *block_offset + *block_number;
                add_span(files, key(target.as_str()), *block_offset as u64, end as u64);
            },
            Chunk::SqpkHeader { target, header_kind, .. } => {
                let start: u64 = if Chunk::is_version_header(*header_kind) {
                    0
                } else {
                    HEADER_SIZE as u64
                };
                add_span(files, key(target.as_str()), start, start + HEADER_SIZE as u64);
            },
            Chunk::SqpkFileAdd { target, file_offset, blocks } => {
                let k = key(target.as_str());
                if *file_offset == 0 {
                    drop_spans(files, &k);
                }
                let size = block_data_total(blocks);
                let end = *file_offset + size;
                add_span(files, k, *file_offset as u64, end as u64);
            },
            Chunk::SqpkFileDelete { target } => {
                drop_spans(files, &key(target.as_str()));
            },
            _ => {},
        }
        proof {
            assert(span_map(files@) == cover_step(before, cs[i as int]));
        }
        i = i + 1;
    }
    assert(cs.take(i as int) =~= cs);
}

/// Whether `a` sorts no later than `b`: by start, then by end.
pub open spec fn pair_le(a: (u64, u64), b: (u64, u64)) -> bool {
    a.0 < b.0 || (a.0 == b.0 && a.1 <= b.1)
}

/// Whether `s` is in that order.
pub open spec fn pairs_sorted(s: Seq<(u64, u64)>) -> bool {
    forall|i: int, j: int| 0 <= i <= j < s.len() ==> pair_le(s[i], s[j])
}

/// `s`, in order, with `p` put after every item from the end that sorts after it.
pub open spec fn insert_pair(s: Seq<(u64, u64)>, p: (u64, u64)) -> Seq<(u64, u64)>
    decreases s.len(),
{
    if s.len() == 0 {
        seq![p]
    } else if pair_le(s.last(), p) {
        s.push(p)
    } else {
        insert_pair(s.drop_last(), p).push(s.last())
    }
}

/// `s` sorted by start, then by end.
pub open spec fn sort_pairs(s: Seq<(u64, u64)>) -> Seq<(u64, u64)>
    decreases s.len(),
{
    if s.len() == 0 {
        s
    } else {
        insert_pair(sort_pairs(s.drop_last()), s.last())
    }
}

proof fn lemma_insert_pair_at(s: Seq<(u64, u64)>, p: (u64, u64), j: int)
    requires
        0 <= j <= s.len(),
        forall|k: int| j <= k < s.len() ==> !pair_le(#[trigger] s[k], p),
        j == 0 || pair_le(s[j - 1], p),
    ensures
        insert_pair(s, p) == s.insert(j, p),
    decreases s.len(),
{
    if s.len() == 0 {
        assert(s.insert(j, p) =~= seq![p]);
    } else if j == s.len() {
        assert(s.insert(j, p) =~= s.push(p));
    } else {
        lemma_insert_pair_at(s.drop_last(), p, j);
        assert(s.insert(j, p) =~= s.drop_last().insert(j, p).push(s.last()));
    }
}

proof fn lemma_insert_pair(s: Seq<(u64, u64)>, p: (u64, u64))
    requires
        pairs_sorted(s),
    ensures
        pairs_sorted(insert_pair(s, p)),
        insert_pair(s, p).to_multiset() == s.to_multiset().insert(p),
        insert_pair(s, p).len() == s.len() + 1,
    decreases s.len(),
{
    broadcast use vstd::seq_lib::group_to_multiset_ensures;

    if s.len() == 0 {
        assert(seq![p] =~= Seq::<(u64, u64)>::empty().push(p));
    } else if pair_le(s.last(), p) {
        let u = s.push(p);
        assert forall|i: int, j: int| 0 <= i <= j < u.len() implies pair_le(u[i], u[j]) by {
            if j == s.len() && i < s.len() {
                assert(pair_le(s[i], s[s.len() - 1]));
            }
        }
    } else {
        let t = insert_pair(s.drop_last(), p);
        lemma_insert_pair(s.drop_last(), p);
        assert(s.drop_last().push(s.last()) =~= s);
        let u = t.push(s.last());
        assert forall|i: int, j: int| 0 <= i <= j < u.len() implies pair_le(u[i], u[j]) by {
            if j == t.len() && i < t.len() {
                assert(t.to_multiset().contains(t[i]));
                if t[i] != p {
                    assert(s.drop_last().to_multiset().contains(t[i]));
                    assert(s.drop_last().contains(t[i]));
                    let k = choose|k: int| 0 <= k < s.drop_last().len() && s.drop_last()[k] == t[i];
                    assert(s[k] == t[i]);
                }
            }
        }
        assert(s.drop_last().to_multiset().insert(p).insert(s.last()) =~= s.drop_last().to_multiset()
            .insert(s.last()).insert(p)) by {
            broadcast use vstd::multiset::group_multiset_axioms;
        }
    }
}

/// Sorting keeps every range, as often as it occurs, and puts them in order.
pub proof fn lemma_sort_pairs(s: Seq<(u64, u64)>)
    ensures
        pairs_sorted(sort_pairs(s)),
        sort_pairs(s).to_multiset() == s.to_multiset(),
        sort_pairs(s).len() == s.len(),
    decreases s.len(),
{
    broadcast use vstd::seq_lib::group_to_multiset_ensures;

    if s.len() > 0 {
        lemma_sort_pairs(s.drop_last());
        lemma_insert_pair(sort_pairs(s.drop_last()), s.last());
        assert(s.drop_last().push(s.last()) =~= s);
    }
}

/// The ranges sorted by start, then by end.
fn sort_intervals(intervals: &Vec<(u64, u64)>) -> (out: Vec<(u64, u64)>)
    ensures
        out@ == sort_pairs(intervals@),
{
    let mut out: Vec<(u64, u64)> = Vec::new();
    let mut i: usize = 0;
    while i < intervals.len()
        invariant
            i <= intervals@.len(),
            out@ == sort_pairs(intervals@.take(i as int)),
        decreases intervals@.len() - i,
    {
        let p = intervals[i];
        proof {
            lemma_sort_pairs(intervals@.take(i as int));
        }
        let mut j: usize = out.len();
        while j > 0 && !(out[j - 1].0 < p.0 || (out[j - 1].0 == p.0 && out[j - 1].1 <= p.1))
            invariant
                j <= out@.len(),
                forall|k: int| j <= k < out@.len() ==> !pair_le(#[trigger] out@[k], p),
            decreases j,
        {
            j = j - 1;
        }
        proof {
            lemma_insert_pair_at(out@, p, j as int);
            assert(intervals@.take(i + 1).drop_last() =~= intervals@.take(i as int));
        }
        out.insert(j, p);
        i = i + 1;
    }
    assert(intervals@.take(intervals@.len() as int) =~= intervals@);
    out
}

/// Sorted ranges folded left to right: a range that starts no later than the end of the
/// last one kept extends it, any other is kept as it is.
pub open spec fn merge_run(s: Seq<(u64, u64)>) -> Seq<(u64, u64)>
    decreases s.len(),
{
    if s.len() == 0 {
        s
    } else {
        let r = merge_run(s.drop_last());
        let p = s.last();
        if r.len() > 0 && p.0 <= r.last().1 {
            r.update(
                r.len() - 1,
                (r.last().0, if r.last().1 >= p.1 {
                    r.last().1
                } else {
                    p.1
                }),
            )
        } else {
            r.push(p)
        }
    }
}

/// The ranges sorted, with those that overlap or touch joined.
pub fn merge(intervals: Vec<(u64, u64)>) -> (merged: Vec<(u64, u64)>)
    ensures
        merged@ == merge_run(sort_pairs(intervals@)),
{
    let sorted = sort_intervals(&intervals);
    let mut merged: Vec<(u64, u64)> = Vec::new();
    let mut i: usize = 0;
    while i < sorted.len()
        invariant
            i <= sorted@.len(),
            merged@ == merge_run(sorted@.take(i as int)),
        decreases sorted@.len() - i,
    {
        let (start, end) = sorted[i];
        proof {
            assert(sorted@.take(i + 1).drop_last() =~= sorted@.take(i as int));
        }
        let n = merged.len();
        if n > 0 && start <= merged[n - 1].1 {
            let last = merged[n - 1];
            let e = if last.1 >= end {
                last.1
            } else {
                end
            };
            merged.set(n - 1, (last.0, e));
        } else {
            merged.push((start, end));
        }
        i = i + 1;
    }
    assert(sorted@.take(sorted@.len() as int) =~= sorted@);
    merged
}

/// Whether `x` lies in `[p.0, p.1)`.
pub open spec fn in_range(p: (u64, u64), x: int) -> bool {
    p.0 <= x < p.1
}

/// Whether some range of `s` holds `x`.
pub open spec fn covers(s: Seq<(u64, u64)>, x: int) -> bool {
    exists|i: int| 0 <= i < s.len() && #[trigger] in_range(s[i], x)
}

/// Whether each range of `s` starts no later than it ends, and ends before the next starts.
pub open spec fn apart(s: Seq<(u64, u64)>) -> bool {
    &&& forall|i: int| 0 <= i < s.len() ==> s[i].0 <= #[trigger] s[i].1
    &&& forall|i: int, j: int| 0 <= i < j < s.len() ==> s[i].1 < s[j].0
}

proof fn lemma_same_items_cover(s: Seq<(u64, u64)>, t: Seq<(u64, u64)>, x: int)
    requires
        s.to_multiset() == t.to_multiset(),
    ensures
        covers(s, x) == covers(t, x),
{
    broadcast use vstd::seq_lib::group_to_multiset_ensures;

    if covers(s, x) {
        let i = choose|i: int| 0 <= i < s.len() && #[trigger] in_range(s[i], x);
        assert(s.to_multiset().contains(s[i]));
        assert(t.to_multiset().contains(s[i]));
        assert(t.contains(s[i]));
        let j = choose|j: int| 0 <= j < t.len() && t[j] == s[i];
        assert(in_range(t[j], x));
    }
    if covers(t, x) {
        let j = choose|j: int| 0 <= j < t.len() && #[trigger] in_range(t[j], x);
        assert(t.to_multiset().contains(t[j]));
        assert(s.to_multiset().contains(t[j]));
        assert(s.contains(t[j]));
        let i = choose|i: int| 0 <= i < s.len() && s[i] == t[j];
        assert(in_range(s[i], x));
    }
}

proof fn lemma_merge_run_start(s: Seq<(u64, u64)>)
    requires
        pairs_sorted(s),
    ensures
        merge_run(s).len() <= s.len(),
        s.len() > 0 ==> merge_run(s).len() > 0 && merge_run(s).last().0 <= s.last().0,
    decreases s.len(),
{
    if s.len() > 1 {
        lemma_merge_run_start(s.drop_last());
        assert(pair_le(s[s.len() - 2], s[s.len() - 1]));
    } else if s.len() == 1 {
        assert(merge_run(s.drop_last()).len() == 0);
    }
}

proof fn lemma_merge_run_covers(s: Seq<(u64, u64)>, x: int)
    requires
        pairs_sorted(s),
    ensures
        covers(merge_run(s), x) == covers(s, x),
    decreases s.len(),
{
    if s.len() > 0 {
        let d = s.drop_last();
        let r = merge_run(d);
        let p = s.last();
        lemma_merge_run_covers(d, x);
        lemma_merge_run_start(d);
        let m = merge_run(s);
        if r.len() > 0 && p.0 <= r.last().1 {
            let n = r.len();
            let l = r.last();
            assert(l.0 <= p.0) by {
                assert(pair_le(d.last(), p));
            }
            if covers(m, x) {
                let i = choose|i: int| 0 <= i < m.len() && #[trigger] in_range(m[i], x);
                if i < n - 1 {
                    assert(in_range(r[i], x));
                } else if x < l.1 {
                    assert(in_range(r[n - 1], x));
                } else {
                    assert(in_range(s[s.len() - 1], x));
                }
                if covers(d, x) {
                    let k = choose|k: int| 0 <= k < d.len() && #[trigger] in_range(d[k], x);
                    assert(in_range(s[k], x));
                }
            }
            if covers(s, x) {
                let k = choose|k: int| 0 <= k < s.len() && #[trigger] in_range(s[k], x);
                if k < s.len() - 1 {
                    assert(in_range(d[k], x));
                    let i = choose|i: int| 0 <= i < r.len() && #[trigger] in_range(r[i], x);
                    assert(in_range(m[i], x));
                } else {
                    assert(in_range(m[n - 1], x));
                }
            }
        } else {
            assert(m == r.push(p));
            if covers(m, x) {
                let i = choose|i: int| 0 <= i < m.len() && #[trigger] in_range(m[i], x);
                if i < r.len() {
                    assert(in_range(r[i], x));
                    let k = choose|k: int| 0 <= k < d.len() && #[trigger] in_range(d[k], x);
                    assert(in_range(s[k], x));
                } else {
                    assert(in_range(s[s.len() - 1], x));
                }
            }
            if covers(s, x) {
                let k = choose|k: int| 0 <= k < s.len() && #[trigger] in_range(s[k], x);
                if k < s.len() - 1 {
                    assert(in_range(d[k], x));
                    let i = choose|i: int| 0 <= i < r.len() && #[trigger] in_range(r[i], x);
                    assert(in_range(m[i], x));
                } else {
                    assert(in_range(m[r.len() as int], x));
                }
            }
        }
    }
}

proof fn lemma_merge_run_apart(s: Seq<(u64, u64)>)
    requires
        pairs_sorted(s),
        forall|i: int| 0 <= i < s.len() ==> s[i].0 <= #[trigger] s[i].1,
    ensures
        apart(merge_run(s)),
    decreases s.len(),
{
    if s.len() > 0 {
        let d = s.drop_last();
        lemma_merge_run_apart(d);
        let r = merge_run(d);
        let p = s.last();
        assert(p.0 <= p.1) by {
            assert(s[s.len() - 1].0 <= s[s.len() - 1].1);
        }
        let m = merge_run(s);
        if r.len() > 0 && p.0 <= r.last().1 {
            assert forall|i: int, j: int| 0 <= i < j < m.len() implies m[i].1 < m[j].0 by {
                assert(r[i].1 < r[j].0);
            }
            assert forall|i: int| 0 <= i < m.len() implies m[i].0 <= #[trigger] m[i].1 by {
                assert(r[i].0 <= r[i].1);
            }
        } else {
            if r.len() > 0 {
                let l = r.last();
                assert(l.0 <= l.1) by {
                    assert(r[r.len() - 1].0 <= r[r.len() - 1].1);
                }
                assert forall|i: int, j: int| 0 <= i < j < m.len() implies m[i].1 < m[j].0 by {
                    if j == r.len() && i < r.len() - 1 {
                        assert(r[i].1 < r[r.len() - 1].0);
                    }
                }
            }
        }
    }
}

/// Merging keeps exactly the offsets that the ranges held: an offset lies in a merged range
/// if and only if it lies in one of the ranges given.
pub proof fn lemma_merge_keeps_offsets(intervals: Seq<(u64, u64)>, x: int)
    ensures
        covers(merge_run(sort_pairs(intervals)), x) == covers(intervals, x),
{
    lemma_sort_pairs(intervals);
    lemma_merge_run_covers(sort_pairs(intervals), x);
    lemma_same_items_cover(sort_pairs(intervals), intervals, x);
}

/// Merged ranges that start no later than they end come out in order, each ending before
/// the next one starts.
pub proof fn lemma_merge_apart(intervals: Seq<(u64, u64)>)
    requires
        forall|i: int| 0 <= i < intervals.len() ==> intervals[i].0 <= #[trigger] intervals[i].1,
    ensures
        apart(merge_run(sort_pairs(intervals))),
{
    broadcast use vstd::seq_lib::group_to_multiset_ensures;

    lemma_sort_pairs(intervals);
    let t = sort_pairs(intervals);
    assert forall|i: int| 0 <= i < t.len() implies t[i].0 <= #[trigger] t[i].1 by {
        assert(t.to_multiset().contains(t[i]));
        assert(intervals.to_multiset().contains(t[i]));
        assert(intervals.contains(t[i]));
        let k = choose|k: int| 0 <= k < intervals.len() && intervals[k] == t[i];
        assert(intervals[k].0 <= intervals[k].1);
    }
    lemma_merge_run_apart(t);
}

/// Whether a range of `spans` holds `offset`, found by halving: exact where the ranges are
/// apart, and never a false yes.
pub fn covered(spans: &[(u64, u64)], offset: u64) -> (b: bool)
    ensures
        b ==> covers(spans@, offset as int),
        apart(spans@) ==> (b == covers(spans@, offset as int)),
{
    let mut lo: usize = 0;
    let mut hi: usize = spans.len();
    while lo < hi
        invariant
            lo <= hi <= spans@.len(),
            apart(spans@) ==> forall|i: int| 0 <= i < lo ==> spans@[i].1 <= offset,
            apart(spans@) ==> forall|i: int| hi <= i < spans@.len() ==> spans@[i].0 > offset,
        decreases hi - lo,
    {
        let mid = lo + (hi - lo) / 2;
        let (start, end) = spans[mid];
        if end <= offset {
            proof {
                if apart(spans@) {
                    assert forall|i: int| 0 <= i <= mid implies spans@[i].1 <= offset by {
                        if i < mid {
                            assert(spans@[i].1 < spans@[mid as int].0);
                            assert(spans@[mid as int].0 <= spans@[mid as int].1);
                        }
                    }
                }
            }
            lo = mid + 1;
        } else if start > offset {
            proof {
                if apart(spans@) {
                    assert forall|i: int| mid <= i < spans@.len() implies spans@[i].0 > offset by {
                        if i > mid {
                            assert(spans@[mid as int].1 < spans@[i].0);
                            assert(spans@[mid as int].0 <= spans@[mid as int].1);
                        }
                    }
                }
            }
            hi = mid;
        } else {
            assert(in_range(spans@[mid as int], offset as int));
            return true;
        }
    }
    proof {
        if apart(spans@) && covers(spans@, offset as int) {
            let i = choose|i: int| 0 <= i < spans@.len() && #[trigger] in_range(spans@[i], offset as int);
            if i < lo {
            } else {
            }
        }
    }
    false
}

/// The little-endian `u32` at `off`, where four bytes are there.
pub open spec fn le32_at(body: Seq<u8>, off: int) -> Option<u32> {
    match read_u32_spec(body, off) {
        Ok((v, _)) => Some(v),
        Err(_) => None,
    }
}

/// An index entry's data word as the number of its dat file and the offset of its data in it.
pub open spec fn entry_of(d: u32) -> (u32, u64) {
    ((d & 0x0Fu32) >> 1u32, ((d & 0xFFFF_FFF0u32) as int * 8) as u64)
}

/// The first `count` entries of the table at `start`, 16 bytes each, or the offset of the
/// first data word that the body cuts off.
pub open spec fn entries_spec(body: Seq<u8>, start: int, count: nat) -> Result<Seq<(u32, u64)>, int>
    decreases count,
{
    if count == 0 {
        Ok(Seq::empty())
    } else {
        match entries_spec(body, start, (count - 1) as nat) {
            Err(e) => Err(e),
            Ok(s) => {
                let off = start + 16 * (count - 1) + 8;
                match le32_at(body, off) {
                    None => Err(off),
                    Some(d) => Ok(s.push(entry_of(d))),
                }
            },
        }
    }
}

/// The entries of an sqpack index: the header's offset stands at 0x0C; the table's offset and
/// length stand 8 and 12 bytes into the header; each 16-byte entry holds its data word 8 bytes
/// in. A read past the end gives the offset where it was tried.
pub open spec fn index_entries_spec(body: Seq<u8>) -> Result<Seq<(u32, u64)>, int> {
    match le32_at(body, 0x0C) {
        None => Err(0x0C),
        Some(h) => match le32_at(body, h + 8) {
            None => Err(h + 8),
            Some(start) => match le32_at(body, h + 12) {
                None => Err(h + 12),
                Some(len) => entries_spec(body, start as int, ((len + 15) / 16) as nat),
            },
        },
    }
}

proof fn lemma_entries_err(body: Seq<u8>, start: int, j: nat, n: nat)
    requires
        j <= n,
        entries_spec(body, start, j) is Err,
    ensures
        entries_spec(body, start, n) == entries_spec(body, start, j),
    decreases n - j,
{
    if j < n {
        lemma_entries_err(body, start, j, (n - 1) as nat);
    }
}

fn le32(body: &[u8], off: u64) -> (r: Option<u32>)
    ensures
        r == le32_at(body@, off as int),
{
    let len = body.len() as u64;
    if off > len || len - off < 4 {
        None
    } else {
        match read_u32(body, off as usize) {
            Ok((v, _)) => Some(v),
            Err(_) => None,
        }
    }
}

/// The dat file number and data offset of each entry of an sqpack index, or the offset at
/// which the body ends too soon.
pub fn index_entries(body: &[u8]) -> (r: Result<Vec<(u32, u64)>, u64>)
    ensures
        match r {
            Ok(v) => index_entries_spec(body@) == Ok::<Seq<(u32, u64)>, int>(v@),
            Err(off) => index_entries_spec(body@) == Err::<Seq<(u32, u64)>, int>(off as int),
        },
{
    let header = match le32(body, 0x0C) {
        Some(h) => h as u64,
        None => return Err(0x0C),
    };
    let start = match le32(body, header + 8) {
        Some(s) => s as u64,
        None => return Err(header + 8),
    };
    let length = match le32(body, header + 12) {
        Some(l) => l as u64,
        None => return Err(header + 12),
    };
    let count: u64 = (length + 15) / 16;
    let mut entries: Vec<(u32, u64)> = Vec::new();
    let mut k: u64 = 0;
    assert(index_entries_spec(body@) == entries_spec(body@, start as int, count as nat));
    while k < count
        invariant
            k <= count,
            index_entries_spec(body@) == entries_spec(body@, start as int, count as nat),
            count == (length + 15) / 16,
            length <= u32::MAX,
            start <= u32::MAX,
            entries_spec(body@, start as int, k as nat) == Ok::<Seq<(u32, u64)>, int>(entries@),
        decreases count - k,
    {
        let off = start + 16 * k + 8;
        match le32(body, off) {
            None => {
                proof {
                    assert(entries_spec(body@, start as int, (k + 1) as nat) == Err::<Seq<(u32, u64)>, int>(off as int));
                    lemma_entries_err(body@, start as int, (k + 1) as nat, count as nat);
                }
                return Err(off);
            },
            Some(data) => {
                entries.push(((data & 0x0F) >> 1, (data & 0xFFFF_FFF0) as u64 * 8));
            },
        }
        k = k + 1;
    }
    Ok(entries)
}

/// Each target's ranges merged.
pub fn merge_spans(files: Spans) -> (merged: Spans)
    requires
        spans_wf(files@),
    ensures
        spans_wf(merged@),
        span_map(merged@).dom() == span_map(files@).dom(),
        forall|k: Seq<char>| #[trigger] span_map(merged@).contains_key(k) ==> span_map(merged@)[k]
            == merge_run(sort_pairs(span_map(files@)[k])),
        forall|k: Seq<char>|
            #[trigger] span_map(merged@).contains_key(k) && (forall|i: int|
                0 <= i < span_map(files@)[k].len() ==> span_map(files@)[k][i].0 <= #[trigger] span_map(files@)[k][i].1)
                ==> apart(span_map(merged@)[k]),
{
    let ghost old_files = files@;
    let mut merged: Spans = Vec::new();
    let rest = files;
    let mut i: usize = 0;
    let n = rest.len();
    while i < n
        invariant
            n == old_files.len(),
            rest@ == old_files,
            i <= n,
            merged@.len() == i,
            forall|j: int| 0 <= j < i ==> (#[trigger] merged@[j]).0@ == old_files[j].0@
                && merged@[j].1@ == merge_run(sort_pairs(old_files[j].1@)),
        decreases n - i,
    {
        let name = rest[i].0.clone();
        let mut ranges: Vec<(u64, u64)> = Vec::new();
        let mut j: usize = 0;
        let src = &rest[i].1;
        while j < src.len()
            invariant
                j <= src@.len(),
                ranges@ == src@.take(j as int),
            decreases src@.len() - j,
        {
            ranges.push(src[j]);
            j = j + 1;
        }
        assert(src@.take(src@.len() as int) =~= src@);
        merged.push((name, merge(ranges)));
        i = i + 1;
    }
    proof {
        assert(span_keys(merged@) =~= span_keys(old_files));
        assert forall|k: Seq<char>| #[trigger] span_map(merged@).contains_key(k) implies span_map(merged@)[k]
            == merge_run(sort_pairs(span_map(old_files)[k])) by {
            let j = lemma_key_index(merged@, k);
            lemma_choose_index(merged@, j, k);
            lemma_choose_index(old_files, j, k);
        }
        assert(span_map(merged@).dom() =~= span_map(old_files).dom());
        assert forall|k: Seq<char>|
            #[trigger] span_map(merged@).contains_key(k) && (forall|i: int|
                0 <= i < span_map(old_files)[k].len() ==> span_map(old_files)[k][i].0 <= #[trigger] span_map(old_files)[k][i].1)
                implies apart(span_map(merged@)[k]) by {
            lemma_merge_apart(span_map(old_files)[k]);
        }
    }
    merged
}

/// The ranges recorded for `k`, none where it has none.
pub open spec fn lookup(m: Map<Seq<char>, Seq<(u64, u64)>>, k: Seq<char>) -> Seq<(u64, u64)> {
    if m.contains_key(k) {
        m[k]
    } else {
        Seq::empty()
    }
}

/// The ranges recorded for `k`.
pub fn spans_for<'a>(spans: &'a Spans, k: &String) -> (r: &'a [(u64, u64)])
    requires
        spans_wf(spans@),
    ensures
        r@ == lookup(span_map(spans@), k@),
{
    match find_span(spans, k) {
        Some(i) => {
            proof {
                lemma_choose_index(spans@, i as int, k@);
                assert(span_keys(spans@)[i as int] == k@);
            }
            spans[i].1.as_slice()
        },
        None => {
            let empty: &[(u64, u64)] = &[];
            assert(empty@ =~= Seq::<(u64, u64)>::empty());
            empty
        },
    }
}

/// The game file that an index entry's data lies in: `sqpack/{expansion}/{stem}.dat{dat}`.
pub open spec fn dat_target_spec(expansion: Seq<char>, stem: Seq<char>, dat: u32) -> Seq<char> {
    "sqpack/"@ + expansion + "/"@ + stem + ".dat"@ + decimal(dat as nat)
}

/// The game file that an index entry's data lies in.
pub fn dat_target(expansion: &str, stem: &str, dat: u32) -> (t: String)
    ensures
        t@ == dat_target_spec(expansion@, stem@, dat),
{
    let mut t = String::new();
    push_str(&mut t, "sqpack/");
    push_str(&mut t, expansion);
    push_str(&mut t, "/");
    push_str(&mut t, stem);
    push_str(&mut t, ".dat");
    push_decimal(&mut t, dat as u64);
    t
}

/// How many of the entries of one index point at data that no recorded range holds.
pub open spec fn unsupplied_spec(
    m: Map<Seq<char>, Seq<(u64, u64)>>,
    expansion: Seq<char>,
    stem: Seq<char>,
    entries: Seq<(u32, u64)>,
) -> nat
    decreases entries.len(),
{
    if entries.len() == 0 {
        0
    } else {
        let e = entries.last();
        let missing: nat = if covers(lookup(m, dat_target_spec(expansion, stem, e.0)), e.1 as int) {
            0
        } else {
            1
        };
        unsupplied_spec(m, expansion, stem, entries.drop_last()) + missing
    }
}

/// How many of the entries of the index `{expansion}/{stem}` point at data that the merged
/// ranges do not hold.
pub fn count_unsupplied(spans: &Spans, expansion: &str, stem: &str, entries: &[(u32, u64)]) -> (n: u64)
    requires
        spans_wf(spans@),
        forall|k: Seq<char>| #[trigger] span_map(spans@).contains_key(k) ==> apart(span_map(spans@)[k]),
    ensures
        n == unsupplied_spec(span_map(spans@), expansion@, stem@, entries@),
{
    let mut n: u64 = 0;
    let mut i: usize = 0;
    while i < entries.len()
        invariant
            i <= entries@.len(),
            spans_wf(spans@),
            forall|k: Seq<char>| #[trigger] span_map(spans@).contains_key(k) ==> apart(span_map(spans@)[k]),
            n <= i,
            n == unsupplied_spec(span_map(spans@), expansion@, stem@, entries@.take(i as int)),
        decreases entries@.len() - i,
    {
        let (dat, offset) = entries[i];
        let target = dat_target(expansion, stem, dat);
        let ranges = spans_for(spans, &target);
        proof {
            assert(entries@.take(i + 1).drop_last() =~= entries@.take(i as int));
            if span_map(spans@).contains_key(target@) {
                assert(apart(ranges@));
            } else {
                assert(apart(ranges@));
            }
        }
        if !covered(ranges, offset) {
            n = n + 1;
        }
        i = i + 1;
    }
    assert(entries@.take(i as int) =~= entries@);
    n
}

/// What the chunks of a run of LUTs write, one after the other, on top of `m`.
pub open spec fn cover_luts_spec(m: Map<Seq<char>, Seq<(u64, u64)>>, luts: Seq<LutModel>) -> Map<Seq<char>, Seq<(u64, u64)>>
    decreases luts.len(),
{
    if luts.len() == 0 {
        m
    } else {
        cover_all(cover_luts_spec(m, luts.drop_last()), luts.last().chunks)
    }
}

/// Whether every chunk of every LUT has ranges that fit in 64 bits.
pub open spec fn luts_fit(luts: Seq<LutModel>) -> bool {
    forall|l: int, i: int| 0 <= l < luts.len() && 0 <= i < luts[l].chunks.len() ==> chunk_fits(
        #[trigger] luts[l].chunks[i],
    )
}

/// The byte ranges that a chain of patches writes, target by target, one LUT per patch in
/// the order they apply.
pub fn cover_luts(luts: &[Lut]) -> (files: Spans)
    requires
        luts_fit(luts@.map_values(|l: Lut| l@)),
    ensures
        spans_wf(files@),
        span_map(files@) == cover_luts_spec(Map::empty(), luts@.map_values(|l: Lut| l@)),
{
    let ghost models = luts@.map_values(|l: Lut| l@);
    let mut files: Spans = Vec::new();
    proof {
        assert(span_map(files@) =~= Map::<Seq<char>, Seq<(u64, u64)>>::empty());
    }
    let mut i: usize = 0;
    while i < luts.len()
        invariant
            i <= luts@.len(),
            models == luts@.map_values(|l: Lut| l@),
            luts_fit(models),
            spans_wf(files@),
            span_map(files@) == cover_luts_spec(Map::empty(), models.take(i as int)),
        decreases luts@.len() - i,
    {
        proof {
            assert(models.take(i + 1).drop_last() =~= models.take(i as int));
            assert(models.take(i + 1).last() == luts@[i as int]@);
            assert forall|j: int| 0 <= j < luts@[i as int]@.chunks.len() implies chunk_fits(
                #[trigger] luts@[i as int]@.chunks[j],
            ) by {
                assert(models[i as int].chunks[j] == luts@[i as int]@.chunks[j]);
            }
        }
        cover(&mut files, &luts[i]);
        i = i + 1;
    }
    assert(models.take(i as int) =~= models);
    files
}

} // verus!
