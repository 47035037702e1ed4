use vstd::prelude::*;

use crate::bytes::{
    holds_at, i64_bits, le, le_i32, lemma_read_var_i32, lemma_read_var_i64, lemma_read_var_u32,
    u64_signed, var_i64, lemma_holds_split, lemma_read_i32, lemma_read_u8, push_i32, push_u8,
    push_var_i32, push_var_u32, push_varint, read_i32, read_i32_spec, read_u8, read_u8_spec,
    read_var_i32, read_var_i32_spec, read_var_i64, read_var_i64_spec, read_var_u32,
    read_var_u32_spec, var_i32, var_u32, varint, DecodeError,
};
use crate::clut_file::ClutError;
use crate::data_ref::{DataRef, DataRefModel, PatchRef, RefKind};
use crate::version::{PatchVersion, VersionModel};

verus! {

/// The 64 bits of `cur - prev`, wrapped around.
pub open spec fn wrap_delta(cur: u64, prev: u64) -> u64 {
    if cur >= prev {
        (cur - prev) as u64
    } else {
        (cur - prev + 0x1_0000_0000_0000_0000) as u64
    }
}

/// `t` moved by `delta`, when it stays within 64 bits.
pub open spec fn add_signed(t: u64, delta: i64) -> Option<u64> {
    if 0 <= t + delta <= u64::MAX {
        Some((t + delta) as u64)
    } else {
        None
    }
}

/// The type byte a reference is stored with: a patch reference with a patch offset is 0,
/// one without is 0xFF; zeroes are 1 and empty blocks 2.
pub open spec fn type_byte(k: RefKind) -> u8 {
    match k {
        RefKind::Patch { patch_offset, .. } => if patch_offset is None || patch_offset == Some(
            0u32,
        ) {
            0xFF
        } else {
            0
        },
        RefKind::Zero => 1,
        RefKind::EmptyBlock { .. } => 2,
    }
}

/// Where `v` first occurs in `table`; -1 when it does not.
pub open spec fn version_index(table: Seq<VersionModel>, v: VersionModel) -> int
    decreases table.len(),
{
    if table.len() == 0 {
        -1
    } else if version_index(table.drop_last(), v) >= 0 {
        version_index(table.drop_last(), v)
    } else if table.last() == v {
        table.len() - 1
    } else {
        -1
    }
}

pub proof fn lemma_version_index(table: Seq<VersionModel>, v: VersionModel)
    ensures
        -1 <= version_index(table, v) < table.len(),
        version_index(table, v) >= 0 ==> table[version_index(table, v)] == v,
        version_index(table, v) < 0 <==> !table.contains(v),
        forall|j: int| 0 <= j < table.len() && (version_index(table, v) < 0 || j < version_index(table, v))
            ==> table[j] != v,
    decreases table.len(),
{
    if table.len() > 0 {
        lemma_version_index(table.drop_last(), v);
        assert forall|j: int| 0 <= j < table.len() && (version_index(table, v) < 0 || j < version_index(table, v))
            implies table[j] != v by {
            if j < table.len() - 1 {
                assert(table[j] == table.drop_last()[j]);
            }
        }
        if version_index(table, v) >= 0 {
            assert(table.contains(v));
        }
        if table.contains(v) {
            let j = choose|j: int| 0 <= j < table.len() && table[j] == v;
            assert(table[j] == v);
        }
    }
}

/// What follows a reference's version index: a patch reference's patch (its offset as a
/// wrapped delta from the last patch offset `t`, its size, whether it is compressed) and,
/// for type 0, its patch offset; an empty block's block count.
pub open spec fn kind_bytes(k: RefKind, t: u64) -> Seq<u8> {
    match k {
        RefKind::Patch { patch, patch_offset } => varint(wrap_delta(patch.offset, t) as nat)
            + var_u32(patch.size) + le(
            if patch.is_compressed {
                1nat
            } else {
                0nat
            },
            1,
        ) + if type_byte(k) == 0 {
            var_u32(patch_offset->0)
        } else {
            Seq::empty()
        },
        RefKind::Zero => Seq::empty(),
        RefKind::EmptyBlock { block_count } => le_i32(block_count),
    }
}

/// How the first phase stores a reference: type byte, version index, then the rest.
pub open spec fn ref_struct(r: DataRefModel, table: Seq<VersionModel>, t: u64) -> Seq<u8> {
    le(type_byte(r.kind) as nat, 1) + var_i32(version_index(table, r.version) as i32) + kind_bytes(
        r.kind,
        t,
    )
}

/// The last patch offset after a reference: its patch's offset, if it has one.
pub open spec fn next_tracker(k: RefKind, t: u64) -> u64 {
    match k {
        RefKind::Patch { patch, .. } => patch.offset,
        _ => t,
    }
}

/// The last patch offset after a run of references.
pub open spec fn tracker_after(refs: Seq<DataRefModel>, t: u64) -> u64
    decreases refs.len(),
{
    if refs.len() == 0 {
        t
    } else {
        tracker_after(refs.drop_first(), next_tracker(refs[0].kind, t))
    }
}

/// The first phase: every reference's structure.
pub open spec fn structs_bytes(refs: Seq<DataRefModel>, table: Seq<VersionModel>, t: u64) -> Seq<u8>
    decreases refs.len(),
{
    if refs.len() == 0 {
        Seq::empty()
    } else {
        ref_struct(refs[0], table, t) + structs_bytes(
            refs.drop_first(),
            table,
            next_tracker(refs[0].kind, t),
        )
    }
}

/// The second phase: each offset as a wrapped delta from the one before.
pub open spec fn offsets_bytes(refs: Seq<DataRefModel>, prev: u64) -> Seq<u8>
    decreases refs.len(),
{
    if refs.len() == 0 {
        Seq::empty()
    } else {
        varint(wrap_delta(refs[0].offset, prev) as nat) + offsets_bytes(refs.drop_first(), refs[0].offset)
    }
}

/// The third phase: each length.
pub open spec fn lengths_bytes(refs: Seq<DataRefModel>) -> Seq<u8>
    decreases refs.len(),
{
    if refs.len() == 0 {
        Seq::empty()
    } else {
        var_u32(refs[0].length) + lengths_bytes(refs.drop_first())
    }
}

/// How a file's references are stored: their count, then the three phases.
pub open spec fn file_data_bytes(refs: Seq<DataRefModel>, table: Seq<VersionModel>) -> Seq<u8> {
    le_i32(refs.len() as i32) + structs_bytes(refs, table, 0) + offsets_bytes(refs, 0)
        + lengths_bytes(refs)
}

pub(crate) proof fn lemma_structs_push(s: Seq<DataRefModel>, x: DataRefModel, table: Seq<VersionModel>, t: u64)
    ensures
        structs_bytes(s.push(x), table, t) == structs_bytes(s, table, t) + ref_struct(
            x,
            table,
            tracker_after(s, t),
        ),
        tracker_after(s.push(x), t) == next_tracker(x.kind, tracker_after(s, t)),
    decreases s.len(),
{
    if s.len() == 0 {
        assert(s.push(x).drop_first() =~= s);
        assert(s.push(x)[0] == x);
        assert(structs_bytes(s, table, next_tracker(x.kind, t)) == Seq::<u8>::empty());
        assert(tracker_after(s, next_tracker(x.kind, t)) == next_tracker(x.kind, t));
        assert(structs_bytes(s.push(x), table, t) =~= ref_struct(x, table, t));
    } else {
        assert(s.push(x).drop_first() =~= s.drop_first().push(x));
        lemma_structs_push(s.drop_first(), x, table, next_tracker(s[0].kind, t));
        assert(structs_bytes(s.push(x), table, t) =~= structs_bytes(s, table, t) + ref_struct(
            x,
            table,
            tracker_after(s, t),
        ));
    }
}

/// The offset before the next one, after a run of references.
pub open spec fn last_offset(refs: Seq<DataRefModel>, prev: u64) -> u64 {
    if refs.len() == 0 {
        prev
    } else {
        refs.last().offset
    }
}

proof fn lemma_offsets_push(s: Seq<DataRefModel>, x: DataRefModel, prev: u64)
    ensures
        offsets_bytes(s.push(x), prev) == offsets_bytes(s, prev) + varint(
            wrap_delta(x.offset, last_offset(s, prev)) as nat,
        ),
    decreases s.len(),
{
    if s.len() == 0 {
        assert(s.push(x).drop_first() =~= s);
        assert(s.push(x)[0] == x);
        assert(offsets_bytes(s, x.offset) == Seq::<u8>::empty());
        assert(offsets_bytes(s.push(x), prev) =~= varint(wrap_delta(x.offset, prev) as nat));
    } else {
        assert(s.push(x).drop_first() =~= s.drop_first().push(x));
        lemma_offsets_push(s.drop_first(), x, s[0].offset);
        if s.len() > 1 {
            assert(s.drop_first().last() == s.last());
        }
        assert(offsets_bytes(s.push(x), prev) =~= offsets_bytes(s, prev) + varint(
            wrap_delta(x.offset, last_offset(s, prev)) as nat,
        ));
    }
}

proof fn lemma_lengths_push(s: Seq<DataRefModel>, x: DataRefModel)
    ensures
        lengths_bytes(s.push(x)) == lengths_bytes(s) + var_u32(x.length),
    decreases s.len(),
{
    if s.len() == 0 {
        assert(s.push(x).drop_first() =~= s);
        assert(s.push(x)[0] == x);
        assert(lengths_bytes(s) == Seq::<u8>::empty());
        assert(lengths_bytes(s.push(x)) =~= var_u32(x.length));
    } else {
        assert(s.push(x).drop_first() =~= s.drop_first().push(x));
        lemma_lengths_push(s.drop_first(), x);
        assert(lengths_bytes(s.push(x)) =~= lengths_bytes(s) + var_u32(x.length));
    }
}

/// The models of a run of references.
pub open spec fn ref_models(refs: Seq<DataRef>) -> Seq<DataRefModel> {
    crate::overlay::models(refs)
}

/// The models of a version table.
pub open spec fn table_models(table: Seq<PatchVersion>) -> Seq<VersionModel> {
    table.map_values(|v: PatchVersion| v@)
}

/// Where `v` sits in the table.
pub fn find_version(table: &Vec<PatchVersion>, v: &PatchVersion) -> (r: Option<usize>)
    ensures
        r matches Some(k) ==> k as int == version_index(table_models(table@), v@),
        r is None ==> version_index(table_models(table@), v@) == -1,
{
    let ghost tm = table_models(table@);
    proof {
        lemma_version_index(tm, v@);
    }
    let mut i: usize = 0;
    while i < table.len()
        invariant
            tm == table_models(table@),
            i <= table@.len(),
            forall|j: int| 0 <= j < i ==> tm[j] != v@,
            -1 <= version_index(tm, v@) < tm.len(),
            version_index(tm, v@) >= 0 ==> tm[version_index(tm, v@)] == v@,
            forall|j: int| 0 <= j < tm.len() && (version_index(tm, v@) < 0 || j < version_index(tm, v@))
                ==> tm[j] != v@,
        decreases table@.len() - i,
    {
        if table[i] == *v {
            assert(tm[i as int] == v@);
            assert(version_index(tm, v@) == i) by {
                let f = version_index(tm, v@);
                if f < 0 || f > i {
                    assert(tm[i as int] != v@);
                }
                if f >= 0 && f < i {
                    assert(tm[f] != v@);
                }
            }
            return Some(i);
        }
        i = i + 1;
    }
    assert(version_index(tm, v@) == -1) by {
        let f = version_index(tm, v@);
        if f >= 0 {
            assert(tm[f] != v@);
        }
    }
    None
}

/// Whether every reference's version is in the table, at an index a `VarInt32` holds.
pub open spec fn versions_listed(refs: Seq<DataRefModel>, table: Seq<VersionModel>) -> bool {
    &&& table.len() <= i32::MAX
    &&& forall|i: int| 0 <= i < refs.len() ==> table.contains(#[trigger] refs[i].version)
}

impl DataRef {
    /// Append the reference's first-phase structure, its patch offset taken relative to
    /// `t`; gives the last patch offset after it.
    pub fn write_options(&self, out: &mut Vec<u8>, t: u64, table: &Vec<PatchVersion>) -> (r: Result<u64, ClutError>)
        requires
            table@.len() <= i32::MAX,
        ensures
            r is Ok <==> table_models(table@).contains(self@.version),
            r matches Err(e) ==> e == ClutError::BadVersionIndex(-1i32),
            r matches Ok(nt) ==> final(out)@ == old(out)@ + ref_struct(self@, table_models(table@), t)
                && nt == next_tracker(self@.kind, t),
    {
        let index = match find_version(table, self.applied_version()) {
            Some(k) => k,
            None => {
                proof {
                    lemma_version_index(table_models(table@), self@.version);
                }
                return Err(ClutError::BadVersionIndex(-1));
            },
        };
        proof {
            lemma_version_index(table_models(table@), self@.version);
        }
        let kind = self.kind();
        let tb: u8 = match kind {
            RefKind::Patch { patch_offset, .. } => match patch_offset {
                None => 0xFF,
                Some(p) => if p == 0 {
                    0xFF
                } else {
                    0
                },
            },
            RefKind::Zero => 1,
            RefKind::EmptyBlock { .. } => 2,
        };
        assert(tb == type_byte(kind));
        push_u8(out, tb);
        push_var_i32(out, index as i32);
        let ghost head = out@;
        let nt = match kind {
            RefKind::Patch { patch, patch_offset } => {
                push_varint(out, patch.offset.wrapping_sub(t));
                push_var_u32(out, patch.size);
                push_u8(out, if patch.is_compressed { 1 } else { 0 });
                if tb == 0 {
                    push_var_u32(out, patch_offset.unwrap());
                }
                patch.offset
            },
            RefKind::Zero => t,
            RefKind::EmptyBlock { block_count } => {
                push_i32(out, block_count);
                t
            },
        };
        assert(out@ =~= head + kind_bytes(kind, t));
        assert(out@ =~= old(out)@ + ref_struct(self@, table_models(table@), t));
        Ok(nt)
    }
}

/// The references of one file.
pub struct FileData;

impl FileData {
    /// Append a file's references: their count, every structure, the offsets as deltas,
    /// then the lengths. Fails when a reference's version is not in the table.
    pub fn write_with_patches(this: &[DataRef], out: &mut Vec<u8>, table: &Vec<PatchVersion>) -> (r: Result<(), ClutError>)
        requires
            table@.len() <= i32::MAX,
            this@.len() <= i32::MAX,
        ensures
            r is Ok <==> versions_listed(ref_models(this@), table_models(table@)),
            r matches Err(e) ==> e == ClutError::BadVersionIndex(-1i32),
            r is Ok ==> final(out)@ == old(out)@ + file_data_bytes(ref_models(this@), table_models(table@)),
    {
        let ghost refs = ref_models(this@);
        let ghost tm = table_models(table@);
        push_i32(out, this.len() as i32);
        let ghost start = out@;
        let mut t: u64 = 0;
        let mut i: usize = 0;
        while i < this.len()
            invariant
                refs == ref_models(this@),
                tm == table_models(table@),
                table@.len() <= i32::MAX,
                i <= this@.len(),
                out@ == start + structs_bytes(refs.take(i as int), tm, 0),
                t == tracker_after(refs.take(i as int), 0),
                forall|j: int| 0 <= j < i ==> tm.contains(#[trigger] refs[j].version),
            decreases this@.len() - i,
        {
            let ghost before = out@;
            match this[i].write_options(out, t, table) {
                Ok(nt) => {
                    proof {
                        assert(refs.take(i + 1) =~= refs.take(i as int).push(refs[i as int]));
                        lemma_structs_push(refs.take(i as int), refs[i as int], tm, 0);
                    }
                    t = nt;
                },
                Err(e) => {
                    assert(!versions_listed(refs, tm)) by {
                        assert(!tm.contains(refs[i as int].version));
                    }
                    return Err(e);
                },
            }
            i = i + 1;
        }
        assert(refs.take(this@.len() as int) =~= refs);
        let ghost mid = out@;
        let mut last: u64 = 0;
        let mut i: usize = 0;
        while i < this.len()
            invariant
                refs == ref_models(this@),
                i <= this@.len(),
                out@ == mid + offsets_bytes(refs.take(i as int), 0),
                last == last_offset(refs.take(i as int), 0),
            decreases this@.len() - i,
        {
            let o = this[i].offset();
            push_varint(out, o.wrapping_sub(last));
            proof {
                assert(refs.take(i + 1) =~= refs.take(i as int).push(refs[i as int]));
                lemma_offsets_push(refs.take(i as int), refs[i as int], 0);
            }
            last = o;
            i = i + 1;
        }
        let ghost mid2 = out@;
        let mut i: usize = 0;
        while i < this.len()
            invariant
                refs == ref_models(this@),
                i <= this@.len(),
                out@ == mid2 + lengths_bytes(refs.take(i as int)),
            decreases this@.len() - i,
        {
            push_var_u32(out, this[i].len());
            proof {
                assert(refs.take(i + 1) =~= refs.take(i as int).push(refs[i as int]));
                lemma_lengths_push(refs.take(i as int), refs[i as int]);
            }
            i = i + 1;
        }
        assert(out@ =~= old(out)@ + file_data_bytes(refs, tm));
        Ok(())
    }
}

/// A reference's kind after its type byte `raw`, a patch offset read relative to `t`;
/// with where it ends and the last patch offset after it.
pub open spec fn dec_kind(d: Seq<u8>, p: int, raw: u8, t: u64) -> Result<(RefKind, int, u64), ClutError> {
    if raw == 0 || raw == 0xFF {
        match read_var_i64_spec(d, p) {
            Err(e) => Err(ClutError::Decode(e)),
            Ok((delta, p1)) => match add_signed(t, delta) {
                None => Err(ClutError::OffsetOverflow),
                Some(offset) => match read_var_u32_spec(d, p1) {
                    Err(e) => Err(ClutError::Decode(e)),
                    Ok((size, p2)) => match read_u8_spec(d, p2) {
                        Err(e) => Err(ClutError::Decode(e)),
                        Ok((c, p3)) => {
                            let patch = PatchRef { offset, size, is_compressed: c != 0 };
                            if raw == 0 {
                                match read_var_u32_spec(d, p3) {
                                    Err(e) => Err(ClutError::Decode(e)),
                                    Ok((po, p4)) => Ok(
                                        (RefKind::Patch { patch, patch_offset: Some(po) }, p4, offset),
                                    ),
                                }
                            } else {
                                Ok((RefKind::Patch { patch, patch_offset: None }, p3, offset))
                            }
                        },
                    },
                },
            },
        }
    } else if raw == 1 {
        Ok((RefKind::Zero, p, t))
    } else if raw == 2 {
        match read_i32_spec(d, p) {
            Err(e) => Err(ClutError::Decode(e)),
            Ok((block_count, p1)) => Ok((RefKind::EmptyBlock { block_count }, p1, t)),
        }
    } else {
        Err(ClutError::BadRefType(raw))
    }
}

/// A reference's structure at `p`: type byte, version index into `table`, then its kind;
/// its offset and length are read later.
pub open spec fn dec_struct(d: Seq<u8>, p: int, table: Seq<VersionModel>, t: u64) -> Result<(DataRefModel, int, u64), ClutError> {
    match read_u8_spec(d, p) {
        Err(e) => Err(ClutError::Decode(e)),
        Ok((raw, p1)) => if !(raw == 0 || raw == 0xFF || raw == 1 || raw == 2) {
            Err(ClutError::BadRefType(raw))
        } else {
            match read_var_i32_spec(d, p1) {
                Err(e) => Err(ClutError::Decode(e)),
                Ok((idx, p2)) => if idx < 0 || idx >= table.len() {
                    Err(ClutError::BadVersionIndex(idx))
                } else {
                    match dec_kind(d, p2, raw, t) {
                        Err(e) => Err(e),
                        Ok((kind, p3, nt)) => Ok(
                            (DataRefModel { version: table[idx as int], offset: 0, length: 0, kind }, p3, nt),
                        ),
                    }
                },
            }
        },
    }
}

/// `n` structures from `p`.
pub open spec fn dec_structs(d: Seq<u8>, p: int, n: nat, table: Seq<VersionModel>, t: u64) -> Result<(Seq<DataRefModel>, int), ClutError>
    decreases n,
{
    if n == 0 {
        Ok((Seq::empty(), p))
    } else {
        match dec_struct(d, p, table, t) {
            Err(e) => Err(e),
            Ok((r, q, nt)) => match dec_structs(d, q, (n - 1) as nat, table, nt) {
                Err(e) => Err(e),
                Ok((rest, end)) => Ok((seq![r] + rest, end)),
            },
        }
    }
}

/// `n` offsets from `p`, each a delta from the one before.
pub open spec fn dec_offset_values(d: Seq<u8>, p: int, n: nat, prev: u64) -> Result<(Seq<u64>, int), ClutError>
    decreases n,
{
    if n == 0 {
        Ok((Seq::empty(), p))
    } else {
        match read_var_i64_spec(d, p) {
            Err(e) => Err(ClutError::Decode(e)),
            Ok((delta, q)) => match add_signed(prev, delta) {
                None => Err(ClutError::OffsetOverflow),
                Some(o) => match dec_offset_values(d, q, (n - 1) as nat, o) {
                    Err(e) => Err(e),
                    Ok((rest, end)) => Ok((seq![o] + rest, end)),
                },
            },
        }
    }
}

/// `n` lengths from `p`.
pub open spec fn dec_length_values(d: Seq<u8>, p: int, n: nat) -> Result<(Seq<u32>, int), ClutError>
    decreases n,
{
    if n == 0 {
        Ok((Seq::empty(), p))
    } else {
        match read_var_u32_spec(d, p) {
            Err(e) => Err(ClutError::Decode(e)),
            Ok((l, q)) => match dec_length_values(d, q, (n - 1) as nat) {
                Err(e) => Err(e),
                Ok((rest, end)) => Ok((seq![l] + rest, end)),
            },
        }
    }
}

/// The structures with their offsets and lengths filled in.
pub open spec fn combine(s: Seq<DataRefModel>, os: Seq<u64>, ls: Seq<u32>) -> Seq<DataRefModel> {
    Seq::new(s.len(), |i: int| DataRefModel { offset: os[i], length: ls[i], ..s[i] })
}

/// A file's references at `p`, their versions resolved through `table`: the count, the
/// structures, the offsets, the lengths.
pub open spec fn dec_file_data(d: Seq<u8>, p: int, table: Seq<VersionModel>) -> Result<(Seq<DataRefModel>, int), ClutError> {
    match read_i32_spec(d, p) {
        Err(e) => Err(ClutError::Decode(e)),
        Ok((n, p1)) => if n < 0 {
            Err(ClutError::Decode(DecodeError::Negative))
        } else {
            match dec_structs(d, p1, n as nat, table, 0) {
                Err(e) => Err(e),
                Ok((s1, p2)) => match dec_offset_values(d, p2, s1.len(), 0) {
                    Err(e) => Err(e),
                    Ok((os, p3)) => match dec_length_values(d, p3, s1.len()) {
                        Err(e) => Err(e),
                        Ok((ls, p4)) => Ok((combine(s1, os, ls), p4)),
                    },
                },
            }
        },
    }
}

pub(crate) fn add_signed_exec(t: u64, delta: i64) -> (r: Option<u64>)
    ensures
        r == add_signed(t, delta),
{
    if delta >= 0 {
        t.checked_add(delta as u64)
    } else {
        let m = (0i128 - delta as i128) as u64;
        if m > t {
            None
        } else {
            Some(t - m)
        }
    }
}

fn dec_kind_exec(d: &[u8], p: usize, raw: u8, t: u64) -> (r: Result<(RefKind, usize, u64), ClutError>)
    ensures
        match r {
            Ok((k, q, nt)) => dec_kind(d@, p as int, raw, t) == Ok::<(RefKind, int, u64), ClutError>((k, q as int, nt)),
            Err(e) => dec_kind(d@, p as int, raw, t) == Err::<(RefKind, int, u64), ClutError>(e),
        },
{
    if raw == 0 || raw == 0xFF {
        let (delta, p1) = match read_var_i64(d, p) {
            Ok(x) => x,
            Err(e) => {
                return Err(ClutError::Decode(e));
            },
        };
        let offset = match add_signed_exec(t, delta) {
            Some(o) => o,
            None => {
                return Err(ClutError::OffsetOverflow);
            },
        };
        let (size, p2) = match read_var_u32(d, p1) {
            Ok(x) => x,
            Err(e) => {
                return Err(ClutError::Decode(e));
            },
        };
        let (c, p3) = match read_u8(d, p2) {
            Ok(x) => x,
            Err(e) => {
                return Err(ClutError::Decode(e));
            },
        };
        let patch = PatchRef { offset, size, is_compressed: c != 0 };
        if raw == 0 {
            let (po, p4) = match read_var_u32(d, p3) {
                Ok(x) => x,
                Err(e) => {
                    return Err(ClutError::Decode(e));
                },
            };
            Ok((RefKind::Patch { patch, patch_offset: Some(po) }, p4, offset))
        } else {
            Ok((RefKind::Patch { patch, patch_offset: None }, p3, offset))
        }
    } else if raw == 1 {
        Ok((RefKind::Zero, p, t))
    } else if raw == 2 {
        match read_i32(d, p) {
            Ok((block_count, p1)) => Ok((RefKind::EmptyBlock { block_count }, p1, t)),
            Err(e) => Err(ClutError::Decode(e)),
        }
    } else {
        Err(ClutError::BadRefType(raw))
    }
}

/// A structure as the first phase reads it: where its version sits in the table, and its
/// kind.
pub open spec fn struct_model(table: Seq<VersionModel>, s: (usize, RefKind)) -> DataRefModel {
    DataRefModel { version: table[s.0 as int], offset: 0, length: 0, kind: s.1 }
}

pub(crate) fn dec_struct_exec(d: &[u8], p: usize, table: &Vec<PatchVersion>, t: u64) -> (r: Result<((usize, RefKind), usize, u64), ClutError>)
    ensures
        match r {
            Ok((s, q, nt)) => s.0 < table@.len() && dec_struct(d@, p as int, table_models(table@), t) == Ok::<
                (DataRefModel, int, u64),
                ClutError,
            >((struct_model(table_models(table@), s), q as int, nt)),
            Err(e) => dec_struct(d@, p as int, table_models(table@), t) == Err::<(DataRefModel, int, u64), ClutError>(e),
        },
{
    let (raw, p1) = match read_u8(d, p) {
        Ok(x) => x,
        Err(e) => {
            return Err(ClutError::Decode(e));
        },
    };
    if !(raw == 0 || raw == 0xFF || raw == 1 || raw == 2) {
        return Err(ClutError::BadRefType(raw));
    }
    let (idx, p2) = match read_var_i32(d, p1) {
        Ok(x) => x,
        Err(e) => {
            return Err(ClutError::Decode(e));
        },
    };
    if idx < 0 || idx as usize >= table.len() {
        return Err(ClutError::BadVersionIndex(idx));
    }
    match dec_kind_exec(d, p2, raw, t) {
        Ok((kind, p3, nt)) => Ok(((idx as usize, kind), p3, nt)),
        Err(e) => Err(e),
    }
}

/// The structure models of the first phase.
pub open spec fn struct_models(table: Seq<VersionModel>, ss: Seq<(usize, RefKind)>) -> Seq<DataRefModel> {
    ss.map_values(|s: (usize, RefKind)| struct_model(table, s))
}

fn read_structs(d: &[u8], p: usize, n: usize, table: &Vec<PatchVersion>) -> (r: Result<(Vec<(usize, RefKind)>, usize), ClutError>)
    ensures
        match r {
            Ok((ss, q)) => (forall|i: int| 0 <= i < ss@.len() ==> (#[trigger] ss@[i]).0 < table@.len())
                && dec_structs(d@, p as int, n as nat, table_models(table@), 0) == Ok::<
                (Seq<DataRefModel>, int),
                ClutError,
            >((struct_models(table_models(table@), ss@), q as int)),
            Err(e) => dec_structs(d@, p as int, n as nat, table_models(table@), 0) == Err::<
                (Seq<DataRefModel>, int),
                ClutError,
            >(e),
        },
{
    let ghost tm = table_models(table@);
    let ghost total = dec_structs(d@, p as int, n as nat, tm, 0);
    let mut out: Vec<(usize, RefKind)> = Vec::new();
    let mut q = p;
    let mut t: u64 = 0;
    let mut i: usize = 0;
    proof {
        assert(struct_models(tm, out@) =~= Seq::<DataRefModel>::empty());
        match dec_structs(d@, q as int, (n - i) as nat, tm, t) {
            Ok((rest, end)) => assert(struct_models(tm, out@) + rest =~= rest),
            Err(_) => {},
        }
    }
    while i < n
        invariant
            tm == table_models(table@),
            i <= n,
            forall|j: int| 0 <= j < out@.len() ==> (#[trigger] out@[j]).0 < table@.len(),
            total == dec_structs(d@, p as int, n as nat, tm, 0),
            total == match dec_structs(d@, q as int, (n - i) as nat, tm, t) {
                Ok((rest, end)) => Ok::<(Seq<DataRefModel>, int), ClutError>(
                    (struct_models(tm, out@) + rest, end),
                ),
                Err(e) => Err(e),
            },
        decreases n - i,
    {
        let (st, q2, nt) = match dec_struct_exec(d, q, table, t) {
            Ok(x) => x,
            Err(e) => {
                return Err(e);
            },
        };
        let ghost before = struct_models(tm, out@);
        out.push(st);
        proof {
            assert(struct_models(tm, out@) =~= before.push(struct_model(tm, st)));
            match dec_structs(d@, q2 as int, (n - i - 1) as nat, tm, nt) {
                Ok((rest, end)) => {
                    assert(before + (seq![struct_model(tm, st)] + rest) =~= struct_models(tm, out@) + rest);
                },
                Err(_) => {},
            }
        }
        q = q2;
        t = nt;
        i = i + 1;
    }
    proof {
        assert(struct_models(tm, out@) + Seq::<DataRefModel>::empty() =~= struct_models(tm, out@));
    }
    Ok((out, q))
}

fn read_offsets(d: &[u8], p: usize, n: usize) -> (r: Result<(Vec<u64>, usize), ClutError>)
    ensures
        match r {
            Ok((os, q)) => dec_offset_values(d@, p as int, n as nat, 0) == Ok::<(Seq<u64>, int), ClutError>(
                (os@, q as int),
            ),
            Err(e) => dec_offset_values(d@, p as int, n as nat, 0) == Err::<(Seq<u64>, int), ClutError>(e),
        },
{
    let ghost total = dec_offset_values(d@, p as int, n as nat, 0);
    let mut out: Vec<u64> = Vec::new();
    let mut q = p;
    let mut last: u64 = 0;
    let mut i: usize = 0;
    proof {
        match dec_offset_values(d@, q as int, (n - i) as nat, last) {
            Ok((rest, end)) => assert(out@ + rest =~= rest),
            Err(_) => {},
        }
    }
    while i < n
        invariant
            i <= n,
            total == dec_offset_values(d@, p as int, n as nat, 0),
            total == match dec_offset_values(d@, q as int, (n - i) as nat, last) {
                Ok((rest, end)) => Ok::<(Seq<u64>, int), ClutError>((out@ + rest, end)),
                Err(e) => Err(e),
            },
        decreases n - i,
    {
        let (delta, q2) = match read_var_i64(d, q) {
            Ok(x) => x,
            Err(e) => {
                return Err(ClutError::Decode(e));
            },
        };
        let o = match add_signed_exec(last, delta) {
            Some(o) => o,
            None => {
                return Err(ClutError::OffsetOverflow);
            },
        };
        let ghost before = out@;
        out.push(o);
        proof {
            match dec_offset_values(d@, q2 as int, (n - i - 1) as nat, o) {
                Ok((rest, end)) => {
                    assert(before + (seq![o] + rest) =~= out@ + rest);
                },
                Err(_) => {},
            }
        }
        q = q2;
        last = o;
        i = i + 1;
    }
    proof {
        assert(out@ + Seq::<u64>::empty() =~= out@);
    }
    Ok((out, q))
}

fn read_lengths(d: &[u8], p: usize, n: usize) -> (r: Result<(Vec<u32>, usize), ClutError>)
    ensures
        match r {
            Ok((ls, q)) => dec_length_values(d@, p as int, n as nat) == Ok::<(Seq<u32>, int), ClutError>(
                (ls@, q as int),
            ),
            Err(e) => dec_length_values(d@, p as int, n as nat) == Err::<(Seq<u32>, int), ClutError>(e),
        },
{
    let ghost total = dec_length_values(d@, p as int, n as nat);
    let mut out: Vec<u32> = Vec::new();
    let mut q = p;
    let mut i: usize = 0;
    proof {
        match dec_length_values(d@, q as int, (n - i) as nat) {
            Ok((rest, end)) => assert(out@ + rest =~= rest),
            Err(_) => {},
        }
    }
    while i < n
        invariant
            i <= n,
            total == dec_length_values(d@, p as int, n as nat),
            total == match dec_length_values(d@, q as int, (n - i) as nat) {
                Ok((rest, end)) => Ok::<(Seq<u32>, int), ClutError>((out@ + rest, end)),
                Err(e) => Err(e),
            },
        decreases n - i,
    {
        let (l, q2) = match read_var_u32(d, q) {
            Ok(x) => x,
            Err(e) => {
                return Err(ClutError::Decode(e));
            },
        };
        let ghost before = out@;
        out.push(l);
        proof {
            match dec_length_values(d@, q2 as int, (n - i - 1) as nat) {
                Ok((rest, end)) => {
                    assert(before + (seq![l] + rest) =~= out@ + rest);
                },
                Err(_) => {},
            }
        }
        q = q2;
        i = i + 1;
    }
    proof {
        assert(out@ + Seq::<u32>::empty() =~= out@);
    }
    Ok((out, q))
}

proof fn lemma_dec_values_len(d: Seq<u8>, p: int, n: nat, prev: u64)
    ensures
        dec_offset_values(d, p, n, prev) matches Ok((os, _)) ==> os.len() == n,
        dec_length_values(d, p, n) matches Ok((ls, _)) ==> ls.len() == n,
    decreases n,
{
    if n > 0 {
        match read_var_i64_spec(d, p) {
            Ok((delta, q)) => match add_signed(prev, delta) {
                Some(o) => lemma_dec_values_len(d, q, (n - 1) as nat, o),
                None => {},
            },
            Err(_) => {},
        }
        match read_var_u32_spec(d, p) {
            Ok((l, q)) => lemma_dec_values_len(d, q, (n - 1) as nat, prev),
            Err(_) => {},
        }
    }
}

impl FileData {
    /// A file's references at `p`, their versions resolved through the table; and where
    /// they end.
    pub fn read_with_patches(d: &[u8], p: usize, table: &Vec<PatchVersion>) -> (r: Result<(Vec<DataRef>, usize), ClutError>)
        ensures
            match r {
                Ok((refs, q)) => dec_file_data(d@, p as int, table_models(table@)) == Ok::<
                    (Seq<DataRefModel>, int),
                    ClutError,
                >((ref_models(refs@), q as int)),
                Err(e) => dec_file_data(d@, p as int, table_models(table@)) == Err::<
                    (Seq<DataRefModel>, int),
                    ClutError,
                >(e),
            },
    {
        let ghost tm = table_models(table@);
        let (n, p1) = match read_i32(d, p) {
            Ok(x) => x,
            Err(e) => {
                return Err(ClutError::Decode(e));
            },
        };
        if n < 0 {
            return Err(ClutError::Decode(DecodeError::Negative));
        }
        let (structs, p2) = match read_structs(d, p1, n as usize, table) {
            Ok(x) => x,
            Err(e) => {
                return Err(e);
            },
        };
        let ghost s1 = struct_models(tm, structs@);
        let m = structs.len();
        assert(s1.len() == m);
        let (offsets, p3) = match read_offsets(d, p2, m) {
            Ok(x) => x,
            Err(e) => {
                return Err(e);
            },
        };
        let (lengths, p4) = match read_lengths(d, p3, m) {
            Ok(x) => x,
            Err(e) => {
                return Err(e);
            },
        };
        proof {
            lemma_dec_values_len(d@, p2 as int, m as nat, 0);
            lemma_dec_values_len(d@, p3 as int, m as nat, 0);
        }
        let mut refs: Vec<DataRef> = Vec::new();
        let mut i: usize = 0;
        while i < m
            invariant
                tm == table_models(table@),
                m == structs@.len(),
                m == offsets@.len(),
                m == lengths@.len(),
                s1 == struct_models(tm, structs@),
                forall|j: int| 0 <= j < structs@.len() ==> (#[trigger] structs@[j]).0 < table@.len(),
                i <= m,
                ref_models(refs@) == combine(s1, offsets@, lengths@).take(i as int),
            decreases m - i,
        {
            let (idx, kind) = structs[i];
            assert(structs@[i as int].0 < table@.len());
            let version = table[idx].duplicate();
            let r = DataRef::from_parts(version, offsets[i], lengths[i], kind);
            let ghost before = ref_models(refs@);
            refs.push(r);
            proof {
                assert(tm[idx as int] == table@[idx as int]@);
                assert(ref_models(refs@) =~= before.push(r@));
                assert(combine(s1, offsets@, lengths@).take(i + 1) =~= combine(s1, offsets@, lengths@).take(
                    i as int,
                ).push(r@));
            }
            i = i + 1;
        }
        assert(combine(s1, offsets@, lengths@).take(m as int) =~= combine(s1, offsets@, lengths@));
        Ok((refs, p4))
    }
}

/// Whether a file's references can be stored and read back unchanged: each version is in
/// the table, every offset fits a signed 64-bit delta, and no patch offset of zero is kept
/// (zero is stored as absent).
pub open spec fn refs_storable(refs: Seq<DataRefModel>, table: Seq<VersionModel>) -> bool {
    &&& versions_listed(refs, table)
    &&& refs.len() <= i32::MAX
    &&& forall|i: int| 0 <= i < refs.len() ==> #[trigger] refs[i].offset <= i64::MAX
    &&& forall|i: int|
        0 <= i < refs.len() ==> patch_storable(#[trigger] refs[i].kind)
}

/// Whether a patch reference's offset fits a signed delta and its patch offset is not a
/// stored zero.
pub open spec fn patch_storable(k: RefKind) -> bool {
    k matches RefKind::Patch { patch, patch_offset } ==> patch.offset <= i64::MAX && patch_offset
        != Some(0u32)
}

/// The references as the first phase reads them back: offsets and lengths not yet known.
pub open spec fn bare(refs: Seq<DataRefModel>) -> Seq<DataRefModel> {
    refs.map_values(|r: DataRefModel| DataRefModel { offset: 0, length: 0, ..r })
}

proof fn lemma_delta_round_trip(cur: u64, prev: u64)
    requires
        cur <= i64::MAX,
        prev <= i64::MAX,
    ensures
        var_i64(u64_signed(wrap_delta(cur, prev))) == varint(wrap_delta(cur, prev) as nat),
        add_signed(prev, u64_signed(wrap_delta(cur, prev))) == Some(cur),
{
    let w = wrap_delta(cur, prev);
    assert(i64_bits(u64_signed(w)) == w);
}

proof fn lemma_dec_struct(d: Seq<u8>, p: int, r: DataRefModel, table: Seq<VersionModel>, t: u64)
    requires
        table.contains(r.version),
        table.len() <= i32::MAX,
        t <= i64::MAX,
        patch_storable(r.kind),
        holds_at(d, p, ref_struct(r, table, t)),
    ensures
        dec_struct(d, p, table, t) == Ok::<(DataRefModel, int, u64), ClutError>(
            (
                DataRefModel { offset: 0, length: 0, ..r },
                p + ref_struct(r, table, t).len(),
                next_tracker(r.kind, t),
            ),
        ),
        next_tracker(r.kind, t) <= i64::MAX,
{
    lemma_version_index(table, r.version);
    let idx = version_index(table, r.version);
    let b1 = le(type_byte(r.kind) as nat, 1);
    let b2 = var_i32(idx as i32);
    let b3 = kind_bytes(r.kind, t);
    lemma_holds_split(d, p, b1 + b2, b3);
    lemma_holds_split(d, p, b1, b2);
    lemma_read_u8(d, p, type_byte(r.kind));
    lemma_read_var_i32(d, p + 1, idx as i32);
    let p2 = p + 1 + b2.len();
    match r.kind {
        RefKind::Patch { patch, patch_offset } => {
            let w = wrap_delta(patch.offset, t);
            let c = le(if patch.is_compressed { 1nat } else { 0nat }, 1);
            let tail = if type_byte(r.kind) == 0 {
                var_u32(patch_offset->0)
            } else {
                Seq::empty()
            };
            lemma_delta_round_trip(patch.offset, t);
            assert(b3 == var_i64(u64_signed(w)) + var_u32(patch.size) + c + tail);
            lemma_holds_split(d, p2, var_i64(u64_signed(w)) + var_u32(patch.size) + c, tail);
            lemma_holds_split(d, p2, var_i64(u64_signed(w)) + var_u32(patch.size), c);
            lemma_holds_split(d, p2, var_i64(u64_signed(w)), var_u32(patch.size));
            lemma_read_var_i64(d, p2, u64_signed(w));
            let p3 = p2 + var_i64(u64_signed(w)).len();
            lemma_read_var_u32(d, p3, patch.size);
            let p4 = p3 + var_u32(patch.size).len();
            lemma_read_u8(d, p4, if patch.is_compressed { 1u8 } else { 0u8 });
            if type_byte(r.kind) == 0 {
                lemma_read_var_u32(d, p4 + 1, patch_offset->0);
            }
        },
        RefKind::Zero => {},
        RefKind::EmptyBlock { block_count } => {
            lemma_read_i32(d, p2, block_count);
        },
    }
}

proof fn lemma_dec_structs(d: Seq<u8>, p: int, refs: Seq<DataRefModel>, table: Seq<VersionModel>, t: u64)
    requires
        refs_storable(refs, table),
        t <= i64::MAX,
        holds_at(d, p, structs_bytes(refs, table, t)),
    ensures
        dec_structs(d, p, refs.len(), table, t) == Ok::<(Seq<DataRefModel>, int), ClutError>(
            (bare(refs), p + structs_bytes(refs, table, t).len()),
        ),
    decreases refs.len(),
{
    if refs.len() == 0 {
        assert(bare(refs) =~= Seq::<DataRefModel>::empty());
    } else {
        let r = refs[0];
        let a = ref_struct(r, table, t);
        let rest = refs.drop_first();
        let nt = next_tracker(r.kind, t);
        lemma_holds_split(d, p, a, structs_bytes(rest, table, nt));
        assert(table.contains(refs[0].version));
        lemma_dec_struct(d, p, r, table, t);
        assert(refs_storable(rest, table)) by {
            assert forall|i: int| 0 <= i < rest.len() implies table.contains(#[trigger] rest[i].version) by {
                assert(rest[i] == refs[i + 1]);
            }
            assert forall|i: int| 0 <= i < rest.len() implies #[trigger] rest[i].offset <= i64::MAX by {
                assert(rest[i] == refs[i + 1]);
            }
            assert forall|i: int| 0 <= i < rest.len() implies patch_storable(#[trigger] rest[i].kind) by {
                assert(rest[i] == refs[i + 1]);
            }
        }
        lemma_dec_structs(d, p + a.len(), rest, table, nt);
        assert(bare(refs) =~= seq![DataRefModel { offset: 0, length: 0, ..r }] + bare(rest));
    }
}

/// The offsets of a run of references.
pub open spec fn offsets_of(refs: Seq<DataRefModel>) -> Seq<u64> {
    refs.map_values(|r: DataRefModel| r.offset)
}

/// The lengths of a run of references.
pub open spec fn lengths_of(refs: Seq<DataRefModel>) -> Seq<u32> {
    refs.map_values(|r: DataRefModel| r.length)
}

proof fn lemma_dec_offsets(d: Seq<u8>, p: int, refs: Seq<DataRefModel>, prev: u64)
    requires
        forall|i: int| 0 <= i < refs.len() ==> #[trigger] refs[i].offset <= i64::MAX,
        prev <= i64::MAX,
        holds_at(d, p, offsets_bytes(refs, prev)),
    ensures
        dec_offset_values(d, p, refs.len(), prev) == Ok::<(Seq<u64>, int), ClutError>(
            (offsets_of(refs), p + offsets_bytes(refs, prev).len()),
        ),
    decreases refs.len(),
{
    if refs.len() == 0 {
        assert(offsets_of(refs) =~= Seq::<u64>::empty());
    } else {
        let r = refs[0];
        let w = wrap_delta(r.offset, prev);
        let rest = refs.drop_first();
        lemma_delta_round_trip(r.offset, prev);
        lemma_holds_split(d, p, varint(w as nat), offsets_bytes(rest, r.offset));
        lemma_read_var_i64(d, p, u64_signed(w));
        assert forall|i: int| 0 <= i < rest.len() implies #[trigger] rest[i].offset <= i64::MAX by {
            assert(rest[i] == refs[i + 1]);
        }
        lemma_dec_offsets(d, p + varint(w as nat).len(), rest, r.offset);
        assert(offsets_of(refs) =~= seq![r.offset] + offsets_of(rest));
    }
}

proof fn lemma_dec_lengths(d: Seq<u8>, p: int, refs: Seq<DataRefModel>)
    requires
        holds_at(d, p, lengths_bytes(refs)),
    ensures
        dec_length_values(d, p, refs.len()) == Ok::<(Seq<u32>, int), ClutError>(
            (lengths_of(refs), p + lengths_bytes(refs).len()),
        ),
    decreases refs.len(),
{
    if refs.len() == 0 {
        assert(lengths_of(refs) =~= Seq::<u32>::empty());
    } else {
        let r = refs[0];
        let rest = refs.drop_first();
        lemma_holds_split(d, p, var_u32(r.length), lengths_bytes(rest));
        lemma_read_var_u32(d, p, r.length);
        lemma_dec_lengths(d, p + var_u32(r.length).len(), rest);
        assert(lengths_of(refs) =~= seq![r.length] + lengths_of(rest));
    }
}

/// A file's references written and read back are the references.
pub proof fn lemma_file_data_round_trip(d: Seq<u8>, p: int, refs: Seq<DataRefModel>, table: Seq<VersionModel>)
    requires
        refs_storable(refs, table),
        holds_at(d, p, file_data_bytes(refs, table)),
    ensures
        dec_file_data(d, p, table) == Ok::<(Seq<DataRefModel>, int), ClutError>(
            (refs, p + file_data_bytes(refs, table).len()),
        ),
{
    let b0 = le_i32(refs.len() as i32);
    let b1 = structs_bytes(refs, table, 0);
    let b2 = offsets_bytes(refs, 0);
    let b3 = lengths_bytes(refs);
    lemma_holds_split(d, p, b0 + b1 + b2, b3);
    lemma_holds_split(d, p, b0 + b1, b2);
    lemma_holds_split(d, p, b0, b1);
    lemma_read_i32(d, p, refs.len() as i32);
    lemma_dec_structs(d, p + 4, refs, table, 0);
    lemma_dec_offsets(d, p + 4 + b1.len(), refs, 0);
    lemma_dec_lengths(d, p + 4 + b1.len() + b2.len(), refs);
    assert(bare(refs).len() == refs.len());
    assert(combine(bare(refs), offsets_of(refs), lengths_of(refs)) =~= refs);
}

} // verus!
