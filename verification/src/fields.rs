use vstd::prelude::*;

use crate::bytes::{
    DecodeError, holds_at, le, le_i16, le_i32, le_i64, le_u16, le_u32, le_u64, lemma_le, lemma_pow_values,
    lemma_read_string, net_string, push_i16, push_i32, push_i64, push_net_string, push_u16, push_u32, push_u64,
    push_u8, read_i16, read_i16_spec, read_i32, read_i32_spec, read_i64, read_i64_spec, read_le_spec, read_string,
    read_string_spec, read_u16, read_u16_spec, read_u32, read_u32_spec, read_u64, read_u64_spec, read_u8,
    read_u8_spec, string_fits, u16_signed, u32_signed, u64_signed, i16_bits, i32_bits, i64_bits,
};
use crate::chunk::CompressedBlock;

verus! {

/// The kind of one field of a record, which decides its encoding.
#[derive(Debug, Clone, Copy, PartialEq, Eq, Structural)]
pub enum FieldKind {
    Byte,
    /// A byte read as `!= 0`.
    Flag,
    U16,
    I16,
    U32,
    I64,
    U64,
    /// A .NET string.
    Text,
    /// A 32-bit count, then that many `SqpkFileAdd` block headers.
    Blocks,
}

/// One field of a record.
#[derive(Debug)]
pub enum Field {
    Byte(u8),
    Flag(bool),
    U16(u16),
    I16(i16),
    U32(u32),
    I64(i64),
    U64(u64),
    Text(String),
    Blocks(Vec<CompressedBlock>),
}

pub ghost enum FieldModel {
    Byte(u8),
    Flag(bool),
    U16(u16),
    I16(i16),
    U32(u32),
    I64(i64),
    U64(u64),
    Text(Seq<char>),
    Blocks(Seq<CompressedBlock>),
}

impl View for Field {
    type V = FieldModel;

    open spec fn view(&self) -> FieldModel {
        match self {
            Field::Byte(x) => FieldModel::Byte(*x),
            Field::Flag(x) => FieldModel::Flag(*x),
            Field::U16(x) => FieldModel::U16(*x),
            Field::I16(x) => FieldModel::I16(*x),
            Field::U32(x) => FieldModel::U32(*x),
            Field::I64(x) => FieldModel::I64(*x),
            Field::U64(x) => FieldModel::U64(*x),
            Field::Text(s) => FieldModel::Text(s@),
            Field::Blocks(b) => FieldModel::Blocks(b@),
        }
    }
}

pub open spec fn field_kind(f: FieldModel) -> FieldKind {
    match f {
        FieldModel::Byte(_) => FieldKind::Byte,
        FieldModel::Flag(_) => FieldKind::Flag,
        FieldModel::U16(_) => FieldKind::U16,
        FieldModel::I16(_) => FieldKind::I16,
        FieldModel::U32(_) => FieldKind::U32,
        FieldModel::I64(_) => FieldKind::I64,
        FieldModel::U64(_) => FieldKind::U64,
        FieldModel::Text(_) => FieldKind::Text,
        FieldModel::Blocks(_) => FieldKind::Blocks,
    }
}

/// A field that its encoding can carry: a string's and a block list's length fit 32 bits.
pub open spec fn field_fits(f: FieldModel) -> bool {
    match f {
        FieldModel::Text(s) => string_fits(s),
        FieldModel::Blocks(b) => b.len() <= i32::MAX,
        _ => true,
    }
}

/// A block header as a LUT stores it.
pub open spec fn enc_block(b: CompressedBlock) -> Seq<u8> {
    le_i32(b.compressed_size) + le_i32(b.data_size) + le_i64(b.patch_offset)
}

pub open spec fn enc_blocks(bs: Seq<CompressedBlock>) -> Seq<u8>
    decreases bs.len(),
{
    if bs.len() == 0 {
        Seq::empty()
    } else {
        enc_block(bs[0]) + enc_blocks(bs.drop_first())
    }
}

pub open spec fn enc_field(f: FieldModel) -> Seq<u8> {
    match f {
        FieldModel::Byte(x) => le(x as nat, 1),
        FieldModel::Flag(b) => le(if b { 1 } else { 0 }, 1),
        FieldModel::U16(x) => le_u16(x),
        FieldModel::I16(x) => le_i16(x),
        FieldModel::U32(x) => le_u32(x),
        FieldModel::I64(x) => le_i64(x),
        FieldModel::U64(x) => le_u64(x),
        FieldModel::Text(s) => net_string(s),
        FieldModel::Blocks(bs) => le_i32(bs.len() as i32) + enc_blocks(bs),
    }
}

pub open spec fn enc_fields(fs: Seq<FieldModel>) -> Seq<u8>
    decreases fs.len(),
{
    if fs.len() == 0 {
        Seq::empty()
    } else {
        enc_field(fs[0]) + enc_fields(fs.drop_first())
    }
}

/// A block header at `p`.
pub open spec fn dec_block(d: Seq<u8>, p: int) -> Result<(CompressedBlock, int), DecodeError> {
    match read_i32_spec(d, p) {
        Err(e) => Err(e),
        Ok((c, p1)) => match read_i32_spec(d, p1) {
            Err(e) => Err(e),
            Ok((s, p2)) => match read_i64_spec(d, p2) {
                Err(e) => Err(e),
                Ok((o, p3)) => Ok((CompressedBlock { compressed_size: c, data_size: s, patch_offset: o }, p3)),
            },
        },
    }
}

/// `n` block headers at `p`.
pub open spec fn dec_blocks(d: Seq<u8>, p: int, n: nat) -> Result<(Seq<CompressedBlock>, int), DecodeError>
    decreases n,
{
    if n == 0 {
        Ok((Seq::empty(), p))
    } else {
        match dec_block(d, p) {
            Err(e) => Err(e),
            Ok((b, p1)) => match dec_blocks(d, p1, (n - 1) as nat) {
                Err(e) => Err(e),
                Ok((bs, p2)) => Ok((seq![b] + bs, p2)),
            },
        }
    }
}

/// A field of kind `k` at `p`.
pub open spec fn dec_field(d: Seq<u8>, p: int, k: FieldKind) -> Result<(FieldModel, int), DecodeError> {
    match k {
        FieldKind::Byte => match read_u8_spec(d, p) {
            Ok((x, q)) => Ok((FieldModel::Byte(x), q)),
            Err(e) => Err(e),
        },
        FieldKind::Flag => match read_u8_spec(d, p) {
            Ok((x, q)) => Ok((FieldModel::Flag(x != 0), q)),
            Err(e) => Err(e),
        },
        FieldKind::U16 => match read_u16_spec(d, p) {
            Ok((x, q)) => Ok((FieldModel::U16(x), q)),
            Err(e) => Err(e),
        },
        FieldKind::I16 => match read_i16_spec(d, p) {
            Ok((x, q)) => Ok((FieldModel::I16(x), q)),
            Err(e) => Err(e),
        },
        FieldKind::U32 => match read_u32_spec(d, p) {
            Ok((x, q)) => Ok((FieldModel::U32(x), q)),
            Err(e) => Err(e),
        },
        FieldKind::I64 => match read_i64_spec(d, p) {
            Ok((x, q)) => Ok((FieldModel::I64(x), q)),
            Err(e) => Err(e),
        },
        FieldKind::U64 => match read_u64_spec(d, p) {
            Ok((x, q)) => Ok((FieldModel::U64(x), q)),
            Err(e) => Err(e),
        },
        FieldKind::Text => match read_string_spec(d, p) {
            Ok((s, q)) => Ok((FieldModel::Text(s), q)),
            Err(e) => Err(e),
        },
        FieldKind::Blocks => match read_i32_spec(d, p) {
            Err(e) => Err(e),
            Ok((n, q)) => if n < 0 {
                Err(DecodeError::Negative)
            } else {
                match dec_blocks(d, q, n as nat) {
                    Ok((bs, q2)) => Ok((FieldModel::Blocks(bs), q2)),
                    Err(e) => Err(e),
                }
            },
        },
    }
}

/// Fields of the given kinds, one after the other from `p`.
pub open spec fn dec_fields(d: Seq<u8>, p: int, ks: Seq<FieldKind>) -> Result<(Seq<FieldModel>, int), DecodeError>
    decreases ks.len(),
{
    if ks.len() == 0 {
        Ok((Seq::empty(), p))
    } else {
        match dec_field(d, p, ks[0]) {
            Err(e) => Err(e),
            Ok((f, p1)) => match dec_fields(d, p1, ks.drop_first()) {
                Err(e) => Err(e),
                Ok((fs, p2)) => Ok((seq![f] + fs, p2)),
            },
        }
    }
}

pub open spec fn kinds(fs: Seq<FieldModel>) -> Seq<FieldKind> {
    Seq::new(fs.len(), |i: int| field_kind(fs[i]))
}

proof fn lemma_holds_split(d: Seq<u8>, p: int, a: Seq<u8>, b: Seq<u8>)
    requires
        holds_at(d, p, a + b),
    ensures
        holds_at(d, p, a),
        holds_at(d, p + a.len(), b),
{
    let ab = d.subrange(p, p + (a + b).len());
    assert(ab == a + b);
    assert(d.subrange(p, p + a.len()) =~= ab.subrange(0, a.len() as int));
    assert(ab.subrange(0, a.len() as int) =~= a);
    assert(d.subrange(p + a.len(), p + a.len() + b.len()) =~= ab.subrange(a.len() as int, (a + b).len() as int));
    assert(ab.subrange(a.len() as int, (a + b).len() as int) =~= b);
}

proof fn lemma_signed_bits()
    ensures
        forall|x: i16| #[trigger] u16_signed(i16_bits(x)) == x,
        forall|x: i32| #[trigger] u32_signed(i32_bits(x)) == x,
        forall|x: i64| #[trigger] u64_signed(i64_bits(x)) == x,
{
}

proof fn lemma_read_fixed(d: Seq<u8>, p: int, x: nat, n: nat)
    requires
        n == 1 || n == 2 || n == 4 || n == 8,
        x < crate::bytes::pow256(n),
        holds_at(d, p, le(x, n)),
    ensures
        read_le_spec(d, p, n) == Ok::<(nat, int), DecodeError>((x, p + n)),
        le(x, n).len() == n,
{
    lemma_le(x, n);
}

proof fn lemma_dec_block(d: Seq<u8>, p: int, b: CompressedBlock)
    requires
        holds_at(d, p, enc_block(b)),
    ensures
        dec_block(d, p) == Ok::<(CompressedBlock, int), DecodeError>((b, p + enc_block(b).len())),
{
    lemma_pow_values();
    lemma_signed_bits();
    let a = le_i32(b.compressed_size);
    let c = le_i32(b.data_size);
    let o = le_i64(b.patch_offset);
    assert(enc_block(b) == a + c + o);
    lemma_holds_split(d, p, a + c, o);
    lemma_holds_split(d, p, a, c);
    lemma_read_fixed(d, p, i32_bits(b.compressed_size) as nat, 4);
    lemma_read_fixed(d, p + 4, i32_bits(b.data_size) as nat, 4);
    lemma_read_fixed(d, p + 8, i64_bits(b.patch_offset) as nat, 8);
}

proof fn lemma_dec_blocks(d: Seq<u8>, p: int, bs: Seq<CompressedBlock>)
    requires
        holds_at(d, p, enc_blocks(bs)),
    ensures
        dec_blocks(d, p, bs.len()) == Ok::<(Seq<CompressedBlock>, int), DecodeError>((bs, p + enc_blocks(bs).len())),
    decreases bs.len(),
{
    if bs.len() > 0 {
        lemma_holds_split(d, p, enc_block(bs[0]), enc_blocks(bs.drop_first()));
        lemma_dec_block(d, p, bs[0]);
        lemma_dec_blocks(d, p + enc_block(bs[0]).len(), bs.drop_first());
        assert(seq![bs[0]] + bs.drop_first() =~= bs);
    } else {
        assert(bs =~= Seq::<CompressedBlock>::empty());
    }
}

/// Reading a field back from its encoding gives the field.
pub proof fn lemma_dec_field(d: Seq<u8>, p: int, f: FieldModel)
    requires
        field_fits(f),
        holds_at(d, p, enc_field(f)),
    ensures
        dec_field(d, p, field_kind(f)) == Ok::<(FieldModel, int), DecodeError>((f, p + enc_field(f).len())),
{
    lemma_pow_values();
    lemma_signed_bits();
    match f {
        FieldModel::Byte(x) => lemma_read_fixed(d, p, x as nat, 1),
        FieldModel::Flag(b) => lemma_read_fixed(d, p, if b { 1 } else { 0 }, 1),
        FieldModel::U16(x) => lemma_read_fixed(d, p, x as nat, 2),
        FieldModel::I16(x) => lemma_read_fixed(d, p, i16_bits(x) as nat, 2),
        FieldModel::U32(x) => lemma_read_fixed(d, p, x as nat, 4),
        FieldModel::I64(x) => lemma_read_fixed(d, p, i64_bits(x) as nat, 8),
        FieldModel::U64(x) => lemma_read_fixed(d, p, x as nat, 8),
        FieldModel::Text(s) => lemma_read_string(d, p, s),
        FieldModel::Blocks(bs) => {
            let n = le_i32(bs.len() as i32);
            lemma_holds_split(d, p, n, enc_blocks(bs));
            lemma_read_fixed(d, p, i32_bits(bs.len() as i32) as nat, 4);
            lemma_dec_blocks(d, p + 4, bs);
        },
    }
}

/// Reading fields back from their encoding gives the fields.
pub proof fn lemma_dec_fields(d: Seq<u8>, p: int, fs: Seq<FieldModel>)
    requires
        forall|i: int| 0 <= i < fs.len() ==> field_fits(#[trigger] fs[i]),
        holds_at(d, p, enc_fields(fs)),
    ensures
        dec_fields(d, p, kinds(fs)) == Ok::<(Seq<FieldModel>, int), DecodeError>((fs, p + enc_fields(fs).len())),
    decreases fs.len(),
{
    if fs.len() > 0 {
        lemma_holds_split(d, p, enc_field(fs[0]), enc_fields(fs.drop_first()));
        lemma_dec_field(d, p, fs[0]);
        assert(kinds(fs).drop_first() =~= kinds(fs.drop_first()));
        assert forall|i: int| 0 <= i < fs.drop_first().len() implies field_fits(#[trigger] fs.drop_first()[i]) by {
            assert(fs.drop_first()[i] == fs[i + 1]);
        }
        lemma_dec_fields(d, p + enc_field(fs[0]).len(), fs.drop_first());
        assert(seq![fs[0]] + fs.drop_first() =~= fs);
    } else {
        assert(kinds(fs) =~= Seq::<FieldKind>::empty());
        assert(fs =~= Seq::<FieldModel>::empty());
    }
}

/// What reading fields gives has the kinds asked for.
pub proof fn lemma_dec_fields_kinds(d: Seq<u8>, p: int, ks: Seq<FieldKind>)
    ensures
        dec_fields(d, p, ks) matches Ok((fs, _)) ==> kinds(fs) == ks,
    decreases ks.len(),
{
    if ks.len() > 0 {
        lemma_dec_fields_kinds_one(d, p, ks[0]);
        if let Ok((f, p1)) = dec_field(d, p, ks[0]) {
            lemma_dec_fields_kinds(d, p1, ks.drop_first());
            if let Ok((fs, p2)) = dec_fields(d, p1, ks.drop_first()) {
                let g = seq![f] + fs;
                assert forall|i: int| 0 <= i < g.len() implies #[trigger] kinds(g)[i] == ks[i] by {
                    if i > 0 {
                        assert(g[i] == fs[i - 1]);
                        assert(kinds(fs)[i - 1] == ks.drop_first()[i - 1]);
                    }
                }
                assert(kinds(g) =~= ks);
            }
        }
    } else {
        assert(kinds(Seq::<FieldModel>::empty()) =~= ks);
    }
}

proof fn lemma_dec_fields_kinds_one(d: Seq<u8>, p: int, k: FieldKind)
    ensures
        dec_field(d, p, k) matches Ok((f, _)) ==> field_kind(f) == k,
{
}

/// Append a block header.
fn write_block(out: &mut Vec<u8>, b: CompressedBlock)
    ensures
        final(out)@ == old(out)@ + enc_block(b),
{
    push_i32(out, b.compressed_size);
    push_i32(out, b.data_size);
    push_i64(out, b.patch_offset);
    assert(out@ =~= old(out)@ + enc_block(b));
}

/// Append a field.
pub fn write_field(out: &mut Vec<u8>, f: &Field)
    requires
        field_fits(f@),
    ensures
        final(out)@ == old(out)@ + enc_field(f@),
{
    match f {
        Field::Byte(x) => push_u8(out, *x),
        Field::Flag(b) => push_u8(out, if *b { 1 } else { 0 }),
        Field::U16(x) => push_u16(out, *x),
        Field::I16(x) => push_i16(out, *x),
        Field::U32(x) => push_u32(out, *x),
        Field::I64(x) => push_i64(out, *x),
        Field::U64(x) => push_u64(out, *x),
        Field::Text(s) => push_net_string(out, s.as_str()),
        Field::Blocks(bs) => {
            push_i32(out, bs.len() as i32);
            let ghost head = out@;
            let mut i: usize = 0;
            assert(bs@.skip(0) =~= bs@);
            while i < bs.len()
                invariant
                    i <= bs@.len(),
                    out@ + enc_blocks(bs@.skip(i as int)) == head + enc_blocks(bs@),
                decreases bs@.len() - i,
            {
                let ghost before = out@;
                write_block(out, bs[i]);
                proof {
                    let rest = bs@.skip(i as int);
                    assert(rest.drop_first() =~= bs@.skip(i + 1));
                    assert(rest[0] == bs@[i as int]);
                    assert(out@ + enc_blocks(bs@.skip(i + 1)) =~= before + enc_blocks(rest));
                }
                i = i + 1;
            }
            proof {
                assert(bs@.skip(bs@.len() as int) =~= Seq::<CompressedBlock>::empty());
                assert(out@ + Seq::<u8>::empty() =~= out@);
                assert(bs@.skip(0) =~= bs@);
            }
            assert(out@ =~= old(out)@ + enc_field(f@));
        },
    }
}

pub open spec fn field_models(fs: Seq<Field>) -> Seq<FieldModel> {
    Seq::new(fs.len(), |i: int| fs[i]@)
}

/// Append fields, one after the other.
pub fn write_fields(out: &mut Vec<u8>, fs: &Vec<Field>)
    requires
        forall|i: int| 0 <= i < fs@.len() ==> field_fits(#[trigger] fs@[i]@),
    ensures
        final(out)@ == old(out)@ + enc_fields(field_models(fs@)),
{
    let ghost fm = field_models(fs@);
    let mut i: usize = 0;
    assert(fm.skip(0) =~= fm);
    while i < fs.len()
        invariant
            fm == field_models(fs@),
            forall|i: int| 0 <= i < fs@.len() ==> field_fits(#[trigger] fs@[i]@),
            i <= fs@.len(),
            out@ + enc_fields(fm.skip(i as int)) == old(out)@ + enc_fields(fm),
        decreases fs@.len() - i,
    {
        let ghost before = out@;
        write_field(out, &fs[i]);
        proof {
            let rest = fm.skip(i as int);
            assert(rest.drop_first() =~= fm.skip(i + 1));
            assert(rest[0] == fs@[i as int]@);
            assert(out@ + enc_fields(fm.skip(i + 1)) =~= before + enc_fields(rest));
        }
        i = i + 1;
    }
    assert(fm.skip(fs@.len() as int) =~= Seq::<FieldModel>::empty());
    assert(out@ + Seq::<u8>::empty() =~= out@);
}

fn read_block(d: &[u8], p: usize) -> (r: Result<(CompressedBlock, usize), DecodeError>)
    ensures
        match r {
            Ok((b, q)) => dec_block(d@, p as int) == Ok::<(CompressedBlock, int), DecodeError>((b, q as int)),
            Err(e) => dec_block(d@, p as int) == Err::<(CompressedBlock, int), DecodeError>(e),
        },
{
    let (c, p1) = match read_i32(d, p) {
        Ok(x) => x,
        Err(e) => {
            return Err(e);
        },
    };
    let (s, p2) = match read_i32(d, p1) {
        Ok(x) => x,
        Err(e) => {
            return Err(e);
        },
    };
    let (o, p3) = match read_i64(d, p2) {
        Ok(x) => x,
        Err(e) => {
            return Err(e);
        },
    };
    Ok((CompressedBlock { compressed_size: c, data_size: s, patch_offset: o }, p3))
}

/// A field of kind `k` at `p`.
pub fn read_field(d: &[u8], p: usize, k: FieldKind) -> (r: Result<(Field, usize), DecodeError>)
    ensures
        match r {
            Ok((f, q)) => dec_field(d@, p as int, k) == Ok::<(FieldModel, int), DecodeError>((f@, q as int)),
            Err(e) => dec_field(d@, p as int, k) == Err::<(FieldModel, int), DecodeError>(e),
        },
{
    match k {
        FieldKind::Byte => match read_u8(d, p) {
            Ok((x, q)) => Ok((Field::Byte(x), q)),
            Err(e) => Err(e),
        },
        FieldKind::Flag => match read_u8(d, p) {
            Ok((x, q)) => Ok((Field::Flag(x != 0), q)),
            Err(e) => Err(e),
        },
        FieldKind::U16 => match read_u16(d, p) {
            Ok((x, q)) => Ok((Field::U16(x), q)),
            Err(e) => Err(e),
        },
        FieldKind::I16 => match read_i16(d, p) {
            Ok((x, q)) => Ok((Field::I16(x), q)),
            Err(e) => Err(e),
        },
        FieldKind::U32 => match read_u32(d, p) {
            Ok((x, q)) => Ok((Field::U32(x), q)),
            Err(e) => Err(e),
        },
        FieldKind::I64 => match read_i64(d, p) {
            Ok((x, q)) => Ok((Field::I64(x), q)),
            Err(e) => Err(e),
        },
        FieldKind::U64 => match read_u64(d, p) {
            Ok((x, q)) => Ok((Field::U64(x), q)),
            Err(e) => Err(e),
        },
        FieldKind::Text => match read_string(d, p) {
            Ok((s, q)) => Ok((Field::Text(s), q)),
            Err(e) => Err(e),
        },
        FieldKind::Blocks => {
            let (n, q) = match read_i32(d, p) {
                Ok(x) => x,
                Err(e) => {
                    return Err(e);
                },
            };
            if n < 0 {
                return Err(DecodeError::Negative);
            }
            let mut blocks: Vec<CompressedBlock> = Vec::new();
            let mut pos = q;
            let mut i: i32 = 0;
            proof {
                assert(blocks@ + Seq::<CompressedBlock>::empty() =~= blocks@);
            }
            while i < n
                invariant
                    k == FieldKind::Blocks,
                    read_i32_spec(d@, p as int) == Ok::<(i32, int), DecodeError>((n, q as int)),
                    0 <= i <= n,
                    dec_blocks(d@, q as int, n as nat) == match dec_blocks(d@, pos as int, (n - i) as nat) {
                        Ok((rest, e)) => Ok::<(Seq<CompressedBlock>, int), DecodeError>((blocks@ + rest, e)),
                        Err(e) => Err(e),
                    },
                decreases n - i,
            {
                let (b, next) = match read_block(d, pos) {
                    Ok(x) => x,
                    Err(e) => {
                        return Err(e);
                    },
                };
                let ghost before = blocks@;
                blocks.push(b);
                proof {
                    match dec_blocks(d@, next as int, (n - i - 1) as nat) {
                        Ok((rest, e)) => {
                            assert(before + (seq![b] + rest) =~= blocks@ + rest);
                        },
                        Err(_) => {},
                    }
                }
                pos = next;
                i = i + 1;
            }
            Ok((Field::Blocks(blocks), pos))
        },
    }
}

/// Fields of the given kinds, one after the other from `p`.
pub fn read_fields(d: &[u8], p: usize, ks: &Vec<FieldKind>) -> (r: Result<(Vec<Field>, usize), DecodeError>)
    ensures
        match r {
            Ok((fs, q)) => dec_fields(d@, p as int, ks@) == Ok::<(Seq<FieldModel>, int), DecodeError>(
                (field_models(fs@), q as int),
            ),
            Err(e) => dec_fields(d@, p as int, ks@) == Err::<(Seq<FieldModel>, int), DecodeError>(e),
        },
{
    let mut out: Vec<Field> = Vec::new();
    let mut pos = p;
    let mut i: usize = 0;
    proof {
        assert(ks@.skip(0) =~= ks@);
        assert(field_models(out@) =~= Seq::<FieldModel>::empty());
        match dec_fields(d@, p as int, ks@) {
            Ok((rest, e)) => assert(field_models(out@) + rest =~= rest),
            Err(_) => {},
        }
    }
    while i < ks.len()
        invariant
            i <= ks@.len(),
            dec_fields(d@, p as int, ks@) == match dec_fields(d@, pos as int, ks@.skip(i as int)) {
                Ok((rest, e)) => Ok::<(Seq<FieldModel>, int), DecodeError>((field_models(out@) + rest, e)),
                Err(e) => Err(e),
            },
        decreases ks@.len() - i,
    {
        let ghost tail = ks@.skip(i as int);
        proof {
            assert(tail.drop_first() =~= ks@.skip(i + 1));
            assert(tail[0] == ks@[i as int]);
        }
        let (f, next) = match read_field(d, pos, ks[i]) {
            Ok(x) => x,
            Err(e) => {
                return Err(e);
            },
        };
        let ghost before = field_models(out@);
        out.push(f);
        proof {
            assert(field_models(out@) =~= before.push(f@));
            match dec_fields(d@, next as int, ks@.skip(i + 1)) {
                Ok((rest, e)) => {
                    assert(before + (seq![f@] + rest) =~= field_models(out@) + rest);
                },
                Err(_) => {},
            }
        }
        pos = next;
        i = i + 1;
    }
    proof {
        assert(ks@.skip(ks@.len() as int) =~= Seq::<FieldKind>::empty());
        assert(field_models(out@) + Seq::<FieldModel>::empty() =~= field_models(out@));
    }
    Ok((out, pos))
}

} // verus!
