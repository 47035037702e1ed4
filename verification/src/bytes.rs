use vstd::prelude::*;

use vstd::utf8::{decode_utf8, encode_utf8, valid_utf8};

verus! {

/// Why bytes could not be read.
#[derive(Debug, Clone, Copy, PartialEq, Eq, Structural)]
pub enum DecodeError {
    /// The bytes end before the value does.
    Truncated,
    /// A 7-bit encoded integer runs on past its width.
    VarIntOverflow,
    /// A count or length is negative.
    Negative,
    /// A string's bytes are not UTF-8.
    Utf8,
}

pub open spec fn pow256(n: nat) -> nat
    decreases n,
{
    if n == 0 {
        1
    } else {
        256 * pow256((n - 1) as nat)
    }
}

pub open spec fn pow128(n: nat) -> nat
    decreases n,
{
    if n == 0 {
        1
    } else {
        128 * pow128((n - 1) as nat)
    }
}

/// `x` as `n` little-endian bytes.
pub open spec fn le(x: nat, n: nat) -> Seq<u8>
    decreases n,
{
    if n == 0 {
        Seq::empty()
    } else {
        seq![(x % 256) as u8] + le(x / 256, (n - 1) as nat)
    }
}

/// The value of little-endian bytes.
pub open spec fn le_val(s: Seq<u8>) -> nat
    decreases s.len(),
{
    if s.len() == 0 {
        0
    } else {
        (s[0] + 256 * le_val(s.drop_first())) as nat
    }
}

/// `x` in .NET's 7-bit encoding: seven bits a byte, low first, the high bit set on every
/// byte but the last.
pub open spec fn varint(x: nat) -> Seq<u8>
    decreases x,
{
    if x < 128 {
        seq![x as u8]
    } else {
        seq![(x % 128 + 128) as u8] + varint(x / 128)
    }
}

/// A 7-bit encoded integer of at most `max` bytes at `p`, with where it ends.
pub open spec fn read_varint_spec(d: Seq<u8>, p: int, max: nat) -> Result<(nat, int), DecodeError>
    decreases max,
{
    if p < 0 || p >= d.len() {
        Err(DecodeError::Truncated)
    } else if d[p] < 128 {
        Ok((d[p] as nat, p + 1))
    } else if max <= 1 {
        Err(DecodeError::VarIntOverflow)
    } else {
        match read_varint_spec(d, p + 1, (max - 1) as nat) {
            Ok((v, q)) => Ok((((d[p] - 128) + 128 * v) as nat, q)),
            Err(e) => Err(e),
        }
    }
}

/// `n` little-endian bytes at `p`, with where they end.
pub open spec fn read_le_spec(d: Seq<u8>, p: int, n: nat) -> Result<(nat, int), DecodeError> {
    if p < 0 || p + n > d.len() {
        Err(DecodeError::Truncated)
    } else {
        Ok((le_val(d.subrange(p, p + n)), p + n))
    }
}

/// The bytes at `p` are `s`.
pub open spec fn holds_at(d: Seq<u8>, p: int, s: Seq<u8>) -> bool {
    0 <= p && p + s.len() <= d.len() && d.subrange(p, p + s.len()) == s
}

pub proof fn lemma_pow_positive(n: nat)
    ensures
        pow256(n) >= 1,
        pow128(n) >= 1,
    decreases n,
{
    if n > 0 {
        lemma_pow_positive((n - 1) as nat);
    }
}

pub proof fn lemma_le(x: nat, n: nat)
    requires
        x < pow256(n),
    ensures
        le(x, n).len() == n,
        le_val(le(x, n)) == x,
    decreases n,
{
    if n > 0 {
        assert(x / 256 < pow256((n - 1) as nat)) by (nonlinear_arith)
            requires
                x < 256 * pow256((n - 1) as nat),
        ;
        lemma_le(x / 256, (n - 1) as nat);
        let s = le(x, n);
        assert(s.drop_first() =~= le(x / 256, (n - 1) as nat));
    }
}

pub proof fn lemma_read_le(d: Seq<u8>, p: int, x: nat, n: nat)
    requires
        x < pow256(n),
        holds_at(d, p, le(x, n)),
    ensures
        read_le_spec(d, p, n) == Ok::<(nat, int), DecodeError>((x, p + n)),
{
    lemma_le(x, n);
}

/// Little-endian bytes name a value below `256^n`.
pub proof fn lemma_le_val_bound(s: Seq<u8>)
    ensures
        le_val(s) < pow256(s.len()),
    decreases s.len(),
{
    if s.len() > 0 {
        lemma_le_val_bound(s.drop_first());
        let r = le_val(s.drop_first());
        assert(s[0] + 256 * r < 256 * pow256((s.len() - 1) as nat)) by (nonlinear_arith)
            requires
                s[0] < 256,
                r < pow256((s.len() - 1) as nat),
        ;
    }
}

pub proof fn lemma_varint_len(x: nat, max: nat)
    requires
        max >= 1,
        x < pow128(max),
    ensures
        1 <= varint(x).len() <= max,
    decreases x,
{
    lemma_pow_positive(max);
    if x >= 128 {
        assert(max >= 2) by {
            if max <= 1 {
                if max == 1 {
                    assert(pow128(1) == 128 * pow128(0));
                }
            }
        }
        assert(x / 128 < pow128((max - 1) as nat)) by (nonlinear_arith)
            requires
                x < 128 * pow128((max - 1) as nat),
        ;
        lemma_varint_len(x / 128, (max - 1) as nat);
    }
}

pub proof fn lemma_read_varint(d: Seq<u8>, p: int, x: nat, max: nat)
    requires
        max >= 1,
        x < pow128(max),
        holds_at(d, p, varint(x)),
    ensures
        read_varint_spec(d, p, max) == Ok::<(nat, int), DecodeError>((x, p + varint(x).len())),
    decreases x,
{
    lemma_pow_positive(max);
    lemma_varint_len(x, max);
    assert(d[p] == varint(x)[0]) by {
        assert(d.subrange(p, p + varint(x).len())[0] == d[p]);
    }
    if x >= 128 {
        let rest = varint(x / 128);
        assert(varint(x).drop_first() =~= rest);
        assert(x / 128 < pow128((max - 1) as nat)) by (nonlinear_arith)
            requires
                x < 128 * pow128((max - 1) as nat),
        ;
        assert(holds_at(d, p + 1, rest)) by {
            assert(d.subrange(p + 1, p + 1 + rest.len()) =~= d.subrange(p, p + varint(x).len()).drop_first());
        }
        lemma_read_varint(d, p + 1, x / 128, (max - 1) as nat);
    }
}

/// A 32-bit integer's bits, as an unsigned number.
pub open spec fn i32_bits(x: i32) -> u32 {
    if x >= 0 {
        x as u32
    } else {
        (x + 0x1_0000_0000) as u32
    }
}

/// 32 bits read as a signed number.
pub open spec fn u32_signed(u: u32) -> i32 {
    if u < 0x8000_0000 {
        u as i32
    } else {
        (u - 0x1_0000_0000) as i32
    }
}

pub open spec fn i64_bits(x: i64) -> u64 {
    if x >= 0 {
        x as u64
    } else {
        (x + 0x1_0000_0000_0000_0000) as u64
    }
}

pub open spec fn u64_signed(u: u64) -> i64 {
    if u < 0x8000_0000_0000_0000 {
        u as i64
    } else {
        (u - 0x1_0000_0000_0000_0000) as i64
    }
}

pub open spec fn i16_bits(x: i16) -> u16 {
    if x >= 0 {
        x as u16
    } else {
        (x + 0x1_0000) as u16
    }
}

pub open spec fn u16_signed(u: u16) -> i16 {
    if u < 0x8000 {
        u as i16
    } else {
        (u - 0x1_0000) as i16
    }
}

/// A .NET `VarInt32`: the integer's 32 bits in the 7-bit encoding.
pub open spec fn var_i32(x: i32) -> Seq<u8> {
    varint(i32_bits(x) as nat)
}

pub open spec fn var_u32(x: u32) -> Seq<u8> {
    varint(x as nat)
}

pub open spec fn var_i64(x: i64) -> Seq<u8> {
    varint(i64_bits(x) as nat)
}

/// A `VarInt32` at `p`: at most five bytes, the value kept to 32 bits.
pub open spec fn read_var_i32_spec(d: Seq<u8>, p: int) -> Result<(i32, int), DecodeError> {
    match read_varint_spec(d, p, 5) {
        Ok((v, q)) => Ok((u32_signed((v % 0x1_0000_0000) as u32), q)),
        Err(e) => Err(e),
    }
}

pub open spec fn read_var_u32_spec(d: Seq<u8>, p: int) -> Result<(u32, int), DecodeError> {
    match read_varint_spec(d, p, 5) {
        Ok((v, q)) => Ok(((v % 0x1_0000_0000) as u32, q)),
        Err(e) => Err(e),
    }
}

pub open spec fn read_var_i64_spec(d: Seq<u8>, p: int) -> Result<(i64, int), DecodeError> {
    match read_varint_spec(d, p, 10) {
        Ok((v, q)) => Ok((u64_signed((v % 0x1_0000_0000_0000_0000) as u64), q)),
        Err(e) => Err(e),
    }
}

pub proof fn lemma_pow_values()
    ensures
        pow128(5) == 0x8_0000_0000,
        pow128(10) == 0x40_0000_0000_0000_0000,
        pow256(1) == 0x100,
        pow256(2) == 0x1_0000,
        pow256(4) == 0x1_0000_0000,
        pow256(8) == 0x1_0000_0000_0000_0000,
{
    reveal_with_fuel(pow128, 11);
    reveal_with_fuel(pow256, 9);
}

pub proof fn lemma_read_var_i32(d: Seq<u8>, p: int, x: i32)
    requires
        holds_at(d, p, var_i32(x)),
    ensures
        read_var_i32_spec(d, p) == Ok::<(i32, int), DecodeError>((x, p + var_i32(x).len())),
{
    lemma_pow_values();
    lemma_read_varint(d, p, i32_bits(x) as nat, 5);
}

pub proof fn lemma_read_var_u32(d: Seq<u8>, p: int, x: u32)
    requires
        holds_at(d, p, var_u32(x)),
    ensures
        read_var_u32_spec(d, p) == Ok::<(u32, int), DecodeError>((x, p + var_u32(x).len())),
{
    lemma_pow_values();
    lemma_read_varint(d, p, x as nat, 5);
}

pub proof fn lemma_read_var_i64(d: Seq<u8>, p: int, x: i64)
    requires
        holds_at(d, p, var_i64(x)),
    ensures
        read_var_i64_spec(d, p) == Ok::<(i64, int), DecodeError>((x, p + var_i64(x).len())),
{
    lemma_pow_values();
    lemma_read_varint(d, p, i64_bits(x) as nat, 10);
}

/// A .NET string: its UTF-8 length as a `VarInt32`, then the bytes.
pub open spec fn net_string(s: Seq<char>) -> Seq<u8> {
    var_i32(encode_utf8(s).len() as i32) + encode_utf8(s)
}

/// Whether a string's UTF-8 length fits the 32-bit length a .NET string carries.
pub open spec fn string_fits(s: Seq<char>) -> bool {
    encode_utf8(s).len() <= i32::MAX
}

/// A .NET string at `p`.
pub open spec fn read_string_spec(d: Seq<u8>, p: int) -> Result<(Seq<char>, int), DecodeError> {
    match read_var_i32_spec(d, p) {
        Err(e) => Err(e),
        Ok((n, q)) => if n < 0 {
            Err(DecodeError::Negative)
        } else if q + n > d.len() {
            Err(DecodeError::Truncated)
        } else if !valid_utf8(d.subrange(q, q + n)) {
            Err(DecodeError::Utf8)
        } else {
            Ok((decode_utf8(d.subrange(q, q + n)), q + n))
        },
    }
}

pub proof fn lemma_read_string(d: Seq<u8>, p: int, s: Seq<char>)
    requires
        string_fits(s),
        holds_at(d, p, net_string(s)),
    ensures
        read_string_spec(d, p) == Ok::<(Seq<char>, int), DecodeError>((s, p + net_string(s).len())),
{
    let b = encode_utf8(s);
    let n = b.len() as i32;
    let h = var_i32(n);
    assert(holds_at(d, p, h)) by {
        assert(d.subrange(p, p + h.len()) =~= d.subrange(p, p + net_string(s).len()).subrange(0, h.len() as int));
        assert(net_string(s).subrange(0, h.len() as int) =~= h);
    }
    lemma_read_var_i32(d, p, n);
    let q = p + h.len();
    assert(d.subrange(q, q + n) =~= b) by {
        assert(d.subrange(q, q + n) =~= d.subrange(p, p + net_string(s).len()).subrange(h.len() as int, h.len() + n));
        assert(net_string(s).subrange(h.len() as int, h.len() + n) =~= b);
    }
    vstd::utf8::encode_utf8_valid_utf8(s);
    vstd::utf8::encode_utf8_decode_utf8(s);
}


/// The value of `n` little-endian bytes at `p`, read as a fixed-width integer.
pub open spec fn read_u8_spec(d: Seq<u8>, p: int) -> Result<(u8, int), DecodeError> {
    match read_le_spec(d, p, 1) {
        Ok((v, q)) => Ok((v as u8, q)),
        Err(e) => Err(e),
    }
}

pub open spec fn read_u16_spec(d: Seq<u8>, p: int) -> Result<(u16, int), DecodeError> {
    match read_le_spec(d, p, 2) {
        Ok((v, q)) => Ok((v as u16, q)),
        Err(e) => Err(e),
    }
}

pub open spec fn read_i16_spec(d: Seq<u8>, p: int) -> Result<(i16, int), DecodeError> {
    match read_le_spec(d, p, 2) {
        Ok((v, q)) => Ok((u16_signed(v as u16), q)),
        Err(e) => Err(e),
    }
}

pub open spec fn read_u32_spec(d: Seq<u8>, p: int) -> Result<(u32, int), DecodeError> {
    match read_le_spec(d, p, 4) {
        Ok((v, q)) => Ok((v as u32, q)),
        Err(e) => Err(e),
    }
}

pub open spec fn read_i32_spec(d: Seq<u8>, p: int) -> Result<(i32, int), DecodeError> {
    match read_le_spec(d, p, 4) {
        Ok((v, q)) => Ok((u32_signed(v as u32), q)),
        Err(e) => Err(e),
    }
}

pub open spec fn read_u64_spec(d: Seq<u8>, p: int) -> Result<(u64, int), DecodeError> {
    match read_le_spec(d, p, 8) {
        Ok((v, q)) => Ok((v as u64, q)),
        Err(e) => Err(e),
    }
}

pub open spec fn read_i64_spec(d: Seq<u8>, p: int) -> Result<(i64, int), DecodeError> {
    match read_le_spec(d, p, 8) {
        Ok((v, q)) => Ok((u64_signed(v as u64), q)),
        Err(e) => Err(e),
    }
}

pub open spec fn le_u16(x: u16) -> Seq<u8> {
    le(x as nat, 2)
}

pub open spec fn le_i16(x: i16) -> Seq<u8> {
    le(i16_bits(x) as nat, 2)
}

pub open spec fn le_u32(x: u32) -> Seq<u8> {
    le(x as nat, 4)
}

pub open spec fn le_i32(x: i32) -> Seq<u8> {
    le(i32_bits(x) as nat, 4)
}

pub open spec fn le_u64(x: u64) -> Seq<u8> {
    le(x as nat, 8)
}

pub open spec fn le_i64(x: i64) -> Seq<u8> {
    le(i64_bits(x) as nat, 8)
}

/// Append `n` little-endian bytes of `x`.
pub fn push_le(out: &mut Vec<u8>, x: u64, n: usize)
    requires
        n <= 8,
        x < pow256(n as nat),
    ensures
        final(out)@ == old(out)@ + le(x as nat, n as nat),
{
    let mut v = x;
    let mut i: usize = 0;
    assert(old(out)@ + le(x as nat, n as nat) =~= out@ + le(v as nat, (n - i) as nat));
    while i < n
        invariant
            i <= n,
            out@ + le(v as nat, (n - i) as nat) == old(out)@ + le(x as nat, n as nat),
        decreases n - i,
    {
        let ghost before = out@;
        out.push((v % 256) as u8);
        proof {
            assert(le(v as nat, (n - i) as nat) == seq![(v % 256) as u8] + le((v / 256) as nat, (n - i - 1) as nat));
            assert(out@ + le((v / 256) as nat, (n - i - 1) as nat) =~= before + le(v as nat, (n - i) as nat));
        }
        v = v / 256;
        i = i + 1;
    }
    assert(out@ + le(v as nat, 0) =~= out@);
}

/// Append `x` in the 7-bit encoding.
pub fn push_varint(out: &mut Vec<u8>, x: u64)
    ensures
        final(out)@ == old(out)@ + varint(x as nat),
{
    let mut v = x;
    assert(old(out)@ + varint(x as nat) =~= out@ + varint(v as nat));
    while v >= 128
        invariant
            out@ + varint(v as nat) == old(out)@ + varint(x as nat),
        decreases v,
    {
        let ghost before = out@;
        out.push((v % 128 + 128) as u8);
        proof {
            assert(out@ + varint((v / 128) as nat) =~= before + varint(v as nat));
        }
        v = v / 128;
    }
    out.push(v as u8);
    assert(out@ =~= old(out)@ + varint(x as nat));
}

pub fn push_u8(out: &mut Vec<u8>, x: u8)
    ensures
        final(out)@ == old(out)@ + le(x as nat, 1),
{
    proof {
        lemma_pow_values();
    }
    push_le(out, x as u64, 1);
}

pub fn push_u16(out: &mut Vec<u8>, x: u16)
    ensures
        final(out)@ == old(out)@ + le_u16(x),
{
    proof {
        lemma_pow_values();
    }
    push_le(out, x as u64, 2);
}

pub fn push_i16(out: &mut Vec<u8>, x: i16)
    ensures
        final(out)@ == old(out)@ + le_i16(x),
{
    proof {
        lemma_pow_values();
    }
    let bits: u64 = if x >= 0 {
        x as u64
    } else {
        (x as i32 + 0x1_0000) as u64
    };
    push_le(out, bits, 2);
}

pub fn push_u32(out: &mut Vec<u8>, x: u32)
    ensures
        final(out)@ == old(out)@ + le_u32(x),
{
    proof {
        lemma_pow_values();
    }
    push_le(out, x as u64, 4);
}

pub fn push_i32(out: &mut Vec<u8>, x: i32)
    ensures
        final(out)@ == old(out)@ + le_i32(x),
{
    proof {
        lemma_pow_values();
    }
    let bits: u64 = if x >= 0 {
        x as u64
    } else {
        (x as i64 + 0x1_0000_0000) as u64
    };
    push_le(out, bits, 4);
}

pub fn push_u64(out: &mut Vec<u8>, x: u64)
    ensures
        final(out)@ == old(out)@ + le_u64(x),
{
    proof {
        lemma_pow_values();
    }
    push_le(out, x, 8);
}

pub fn push_i64(out: &mut Vec<u8>, x: i64)
    ensures
        final(out)@ == old(out)@ + le_i64(x),
{
    proof {
        lemma_pow_values();
    }
    let bits: u64 = if x >= 0 {
        x as u64
    } else {
        (x as i128 + 0x1_0000_0000_0000_0000) as u64
    };
    push_le(out, bits, 8);
}

pub fn push_var_i32(out: &mut Vec<u8>, x: i32)
    ensures
        final(out)@ == old(out)@ + var_i32(x),
{
    let bits: u64 = if x >= 0 {
        x as u64
    } else {
        (x as i64 + 0x1_0000_0000) as u64
    };
    push_varint(out, bits);
}

pub fn push_var_u32(out: &mut Vec<u8>, x: u32)
    ensures
        final(out)@ == old(out)@ + var_u32(x),
{
    push_varint(out, x as u64);
}

pub fn push_var_i64(out: &mut Vec<u8>, x: i64)
    ensures
        final(out)@ == old(out)@ + var_i64(x),
{
    let bits: u64 = if x >= 0 {
        x as u64
    } else {
        (x as i128 + 0x1_0000_0000_0000_0000) as u64
    };
    push_varint(out, bits);
}

/// Append the bytes of a slice.
pub fn push_bytes(out: &mut Vec<u8>, b: &[u8])
    ensures
        final(out)@ == old(out)@ + b@,
{
    let mut i: usize = 0;
    while i < b.len()
        invariant
            i <= b@.len(),
            out@ == old(out)@ + b@.subrange(0, i as int),
        decreases b@.len() - i,
    {
        out.push(b[i]);
        i = i + 1;
        assert(out@ =~= old(out)@ + b@.subrange(0, i as int));
    }
    assert(b@.subrange(0, b@.len() as int) =~= b@);
}

/// Append a .NET string: its UTF-8 length, then its bytes.
pub fn push_net_string(out: &mut Vec<u8>, s: &str)
    requires
        string_fits(s@),
    ensures
        final(out)@ == old(out)@ + net_string(s@),
{
    let b = s.as_bytes();
    push_var_i32(out, b.len() as i32);
    push_bytes(out, b);
    assert(out@ =~= old(out)@ + net_string(s@));
}

/// `n` little-endian bytes at `p`, for `n` at most eight.
pub fn read_le(d: &[u8], p: usize, n: usize) -> (r: Result<(u64, usize), DecodeError>)
    requires
        n <= 8,
    ensures
        match r {
            Ok((v, q)) => read_le_spec(d@, p as int, n as nat) == Ok::<(nat, int), DecodeError>((v as nat, q as int)),
            Err(e) => read_le_spec(d@, p as int, n as nat) == Err::<(nat, int), DecodeError>(e),
        },
{
    if p > d.len() || n > d.len() - p {
        return Err(DecodeError::Truncated);
    }
    let mut v: u64 = 0;
    let mut i: usize = n;
    let len = d.len();
    proof {
        assert(d@.subrange(p + n, p + n as int) =~= Seq::<u8>::empty());
        lemma_pow_values();
    }
    while i > 0
        invariant
            len == d@.len(),
            n <= 8,
            p + n <= d@.len(),
            i <= n,
            v as nat == le_val(d@.subrange(p + i, p + n as int)),
            v < pow256((n - i) as nat),
        decreases i,
    {
        let b = d[p + i - 1];
        proof {
            let t = d@.subrange(p + i - 1, p + n as int);
            assert(t.drop_first() =~= d@.subrange(p + i, p + n as int));
            assert(t[0] == b);
            lemma_pow_values();
            assert(pow256((n - i + 1) as nat) == 256 * pow256((n - i) as nat));
            assert(pow256((n - i + 1) as nat) <= pow256(8)) by {
                lemma_pow_mono((n - i + 1) as nat, 8);
            }
            assert(b + 256 * v < 256 * pow256((n - i) as nat)) by (nonlinear_arith)
                requires
                    b < 256,
                    v < pow256((n - i) as nat),
            ;
        }
        v = b as u64 + 256 * v;
        i = i - 1;
    }
    Ok((v, p + n))
}

pub proof fn lemma_pow_mono(a: nat, b: nat)
    requires
        a <= b,
    ensures
        pow256(a) <= pow256(b),
        pow128(a) <= pow128(b),
    decreases b,
{
    if a < b {
        lemma_pow_mono(a, (b - 1) as nat);
        lemma_pow_positive((b - 1) as nat);
    }
}

pub proof fn lemma_read_varint_bound(d: Seq<u8>, p: int, max: nat)
    requires
        max >= 1,
    ensures
        read_varint_spec(d, p, max) matches Ok((v, q)) ==> v < pow128(max) && p < q <= d.len(),
    decreases max,
{
    if 0 <= p < d.len() && d[p] >= 128 && max > 1 {
        lemma_read_varint_bound(d, p + 1, (max - 1) as nat);
        if let Ok((v, q)) = read_varint_spec(d, p + 1, (max - 1) as nat) {
            assert((d[p] - 128) + 128 * v < 128 * pow128((max - 1) as nat)) by (nonlinear_arith)
                requires
                    d[p] - 128 < 128,
                    v < pow128((max - 1) as nat),
            ;
        }
    } else if 0 <= p < d.len() && d[p] < 128 {
        lemma_pow_positive(max);
        assert(pow128(max) >= 128) by {
            lemma_pow_mono(1, max);
            reveal_with_fuel(pow128, 2);
        }
    }
}

/// A 7-bit encoded integer of at most `max` bytes.
pub fn read_varint(d: &[u8], p: usize, max: usize) -> (r: Result<(u128, usize), DecodeError>)
    requires
        1 <= max <= 10,
    ensures
        match r {
            Ok((v, q)) => read_varint_spec(d@, p as int, max as nat) == Ok::<(nat, int), DecodeError>((v as nat, q as int)),
            Err(e) => read_varint_spec(d@, p as int, max as nat) == Err::<(nat, int), DecodeError>(e),
        },
    decreases max,
{
    if p >= d.len() {
        return Err(DecodeError::Truncated);
    }
    let b = d[p];
    if b < 128 {
        return Ok((b as u128, p + 1));
    }
    if max <= 1 {
        return Err(DecodeError::VarIntOverflow);
    }
    match read_varint(d, p + 1, max - 1) {
        Ok((v, q)) => {
            proof {
                lemma_read_varint_bound(d@, p + 1, (max - 1) as nat);
                lemma_pow_mono((max - 1) as nat, 9);
                lemma_pow_values();
                assert(pow128(9) * 128 == pow128(10)) by {
                    reveal_with_fuel(pow128, 11);
                }
            }
            Ok(((b - 128) as u128 + 128 * v, q))
        },
        Err(e) => Err(e),
    }
}

pub fn read_u8(d: &[u8], p: usize) -> (r: Result<(u8, usize), DecodeError>)
    ensures
        match r {
            Ok((v, q)) => read_u8_spec(d@, p as int) == Ok::<(u8, int), DecodeError>((v, q as int)),
            Err(e) => read_u8_spec(d@, p as int) == Err::<(u8, int), DecodeError>(e),
        },
{
    match read_le(d, p, 1) {
        Ok((v, q)) => {
            proof {
                lemma_read_le_bound(d@, p as int, 1);
                lemma_pow_values();
            }
            Ok((v as u8, q))
        },
        Err(e) => Err(e),
    }
}

proof fn lemma_read_le_bound(d: Seq<u8>, p: int, n: nat)
    ensures
        read_le_spec(d, p, n) matches Ok((v, q)) ==> v < pow256(n),
{
    if let Ok((v, q)) = read_le_spec(d, p, n) {
        lemma_le_val_bound(d.subrange(p, p + n));
    }
}

pub fn read_u16(d: &[u8], p: usize) -> (r: Result<(u16, usize), DecodeError>)
    ensures
        match r {
            Ok((v, q)) => read_u16_spec(d@, p as int) == Ok::<(u16, int), DecodeError>((v, q as int)),
            Err(e) => read_u16_spec(d@, p as int) == Err::<(u16, int), DecodeError>(e),
        },
{
    match read_le(d, p, 2) {
        Ok((v, q)) => {
            proof {
                lemma_read_le_bound(d@, p as int, 2);
                lemma_pow_values();
            }
            Ok((v as u16, q))
        },
        Err(e) => Err(e),
    }
}

pub fn read_i16(d: &[u8], p: usize) -> (r: Result<(i16, usize), DecodeError>)
    ensures
        match r {
            Ok((v, q)) => read_i16_spec(d@, p as int) == Ok::<(i16, int), DecodeError>((v, q as int)),
            Err(e) => read_i16_spec(d@, p as int) == Err::<(i16, int), DecodeError>(e),
        },
{
    match read_le(d, p, 2) {
        Ok((v, q)) => {
            proof {
                lemma_read_le_bound(d@, p as int, 2);
                lemma_pow_values();
            }
            let u = v as u16;
            let x: i16 = if u < 0x8000 {
                u as i16
            } else {
                (u as i32 - 0x1_0000) as i16
            };
            Ok((x, q))
        },
        Err(e) => Err(e),
    }
}

pub fn read_u32(d: &[u8], p: usize) -> (r: Result<(u32, usize), DecodeError>)
    ensures
        match r {
            Ok((v, q)) => read_u32_spec(d@, p as int) == Ok::<(u32, int), DecodeError>((v, q as int)),
            Err(e) => read_u32_spec(d@, p as int) == Err::<(u32, int), DecodeError>(e),
        },
{
    match read_le(d, p, 4) {
        Ok((v, q)) => {
            proof {
                lemma_read_le_bound(d@, p as int, 4);
                lemma_pow_values();
            }
            Ok((v as u32, q))
        },
        Err(e) => Err(e),
    }
}

pub fn read_i32(d: &[u8], p: usize) -> (r: Result<(i32, usize), DecodeError>)
    ensures
        match r {
            Ok((v, q)) => read_i32_spec(d@, p as int) == Ok::<(i32, int), DecodeError>((v, q as int)),
            Err(e) => read_i32_spec(d@, p as int) == Err::<(i32, int), DecodeError>(e),
        },
{
    match read_le(d, p, 4) {
        Ok((v, q)) => {
            proof {
                lemma_read_le_bound(d@, p as int, 4);
                lemma_pow_values();
            }
            let u = v as u32;
            let x: i32 = if u < 0x8000_0000 {
                u as i32
            } else {
                (u as i64 - 0x1_0000_0000) as i32
            };
            Ok((x, q))
        },
        Err(e) => Err(e),
    }
}

pub fn read_u64(d: &[u8], p: usize) -> (r: Result<(u64, usize), DecodeError>)
    ensures
        match r {
            Ok((v, q)) => read_u64_spec(d@, p as int) == Ok::<(u64, int), DecodeError>((v, q as int)),
            Err(e) => read_u64_spec(d@, p as int) == Err::<(u64, int), DecodeError>(e),
        },
{
    match read_le(d, p, 8) {
        Ok((v, q)) => Ok((v, q)),
        Err(e) => Err(e),
    }
}

pub fn read_i64(d: &[u8], p: usize) -> (r: Result<(i64, usize), DecodeError>)
    ensures
        match r {
            Ok((v, q)) => read_i64_spec(d@, p as int) == Ok::<(i64, int), DecodeError>((v, q as int)),
            Err(e) => read_i64_spec(d@, p as int) == Err::<(i64, int), DecodeError>(e),
        },
{
    match read_le(d, p, 8) {
        Ok((u, q)) => {
            let x: i64 = if u < 0x8000_0000_0000_0000 {
                u as i64
            } else {
                (u as i128 - 0x1_0000_0000_0000_0000) as i64
            };
            Ok((x, q))
        },
        Err(e) => Err(e),
    }
}

pub fn read_var_i32(d: &[u8], p: usize) -> (r: Result<(i32, usize), DecodeError>)
    ensures
        match r {
            Ok((v, q)) => read_var_i32_spec(d@, p as int) == Ok::<(i32, int), DecodeError>((v, q as int)),
            Err(e) => read_var_i32_spec(d@, p as int) == Err::<(i32, int), DecodeError>(e),
        },
{
    match read_varint(d, p, 5) {
        Ok((v, q)) => {
            let u = (v % 0x1_0000_0000) as u32;
            let x: i32 = if u < 0x8000_0000 {
                u as i32
            } else {
                (u as i64 - 0x1_0000_0000) as i32
            };
            Ok((x, q))
        },
        Err(e) => Err(e),
    }
}

pub fn read_var_u32(d: &[u8], p: usize) -> (r: Result<(u32, usize), DecodeError>)
    ensures
        match r {
            Ok((v, q)) => read_var_u32_spec(d@, p as int) == Ok::<(u32, int), DecodeError>((v, q as int)),
            Err(e) => read_var_u32_spec(d@, p as int) == Err::<(u32, int), DecodeError>(e),
        },
{
    match read_varint(d, p, 5) {
        Ok((v, q)) => Ok(((v % 0x1_0000_0000) as u32, q)),
        Err(e) => Err(e),
    }
}

pub fn read_var_i64(d: &[u8], p: usize) -> (r: Result<(i64, usize), DecodeError>)
    ensures
        match r {
            Ok((v, q)) => read_var_i64_spec(d@, p as int) == Ok::<(i64, int), DecodeError>((v, q as int)),
            Err(e) => read_var_i64_spec(d@, p as int) == Err::<(i64, int), DecodeError>(e),
        },
{
    match read_varint(d, p, 10) {
        Ok((v, q)) => {
            let u = (v % 0x1_0000_0000_0000_0000) as u64;
            let x: i64 = if u < 0x8000_0000_0000_0000 {
                u as i64
            } else {
                (u as i128 - 0x1_0000_0000_0000_0000) as i64
            };
            Ok((x, q))
        },
        Err(e) => Err(e),
    }
}

/// `std::str::from_utf8`, owned: the bytes as a string when they are UTF-8, the string
/// being the characters the bytes encode; nothing when they are not UTF-8.
#[verifier::external_body]
pub(crate) fn utf8_text(bytes: &[u8]) -> (r: Option<String>)
    ensures
        r is Some <==> valid_utf8(bytes@),
        r matches Some(s) ==> s@ == decode_utf8(bytes@),
{
    match std::str::from_utf8(bytes) {
        Ok(s) => Some(s.to_string()),
        Err(_) => None,
    }
}

/// A .NET string at `p`.
pub fn read_string(d: &[u8], p: usize) -> (r: Result<(String, usize), DecodeError>)
    ensures
        match r {
            Ok((s, q)) => read_string_spec(d@, p as int) == Ok::<(Seq<char>, int), DecodeError>((s@, q as int)),
            Err(e) => read_string_spec(d@, p as int) == Err::<(Seq<char>, int), DecodeError>(e),
        },
{
    let (n, q) = match read_var_i32(d, p) {
        Ok(pair) => pair,
        Err(e) => {
            return Err(e);
        },
    };
    if n < 0 {
        return Err(DecodeError::Negative);
    }
    proof {
        lemma_read_varint_bound(d@, p as int, 5);
    }
    if n as usize > d.len() - q {
        return Err(DecodeError::Truncated);
    }
    let end = q + n as usize;
    let bytes = vstd::slice::slice_subrange(d, q, end);
    match utf8_text(bytes) {
        Some(s) => Ok((s, end)),
        None => Err(DecodeError::Utf8),
    }
}


pub proof fn lemma_read_i32(d: Seq<u8>, p: int, x: i32)
    requires
        holds_at(d, p, le_i32(x)),
    ensures
        read_i32_spec(d, p) == Ok::<(i32, int), DecodeError>((x, p + 4)),
        le_i32(x).len() == 4,
{
    lemma_pow_values();
    lemma_le(i32_bits(x) as nat, 4);
}

pub proof fn lemma_read_u8(d: Seq<u8>, p: int, x: u8)
    requires
        holds_at(d, p, le(x as nat, 1)),
    ensures
        read_u8_spec(d, p) == Ok::<(u8, int), DecodeError>((x, p + 1)),
        le(x as nat, 1).len() == 1,
{
    lemma_pow_values();
    lemma_le(x as nat, 1);
}

pub proof fn lemma_read_u16(d: Seq<u8>, p: int, x: u16)
    requires
        holds_at(d, p, le_u16(x)),
    ensures
        read_u16_spec(d, p) == Ok::<(u16, int), DecodeError>((x, p + 2)),
        le_u16(x).len() == 2,
{
    lemma_pow_values();
    lemma_le(x as nat, 2);
}

pub proof fn lemma_read_u32(d: Seq<u8>, p: int, x: u32)
    requires
        holds_at(d, p, le_u32(x)),
    ensures
        read_u32_spec(d, p) == Ok::<(u32, int), DecodeError>((x, p + 4)),
        le_u32(x).len() == 4,
{
    lemma_pow_values();
    lemma_le(x as nat, 4);
}

pub proof fn lemma_read_u64(d: Seq<u8>, p: int, x: u64)
    requires
        holds_at(d, p, le_u64(x)),
    ensures
        read_u64_spec(d, p) == Ok::<(u64, int), DecodeError>((x, p + 8)),
        le_u64(x).len() == 8,
{
    lemma_pow_values();
    lemma_le(x as nat, 8);
}

/// `holds_at` of a concatenation holds of each part, where it stands.
pub proof fn lemma_holds_split(d: Seq<u8>, p: int, a: Seq<u8>, b: Seq<u8>)
    requires
        holds_at(d, p, a + b),
    ensures
        holds_at(d, p, a),
        holds_at(d, p + a.len(), b),
{
    let ab = d.subrange(p, p + (a + b).len());
    assert(ab == a + b);
    assert(d.subrange(p, p + a.len()) =~= ab.subrange(0, a.len() as int));
    assert(ab.subrange(0, a.len() as int) =~= a);
    assert(d.subrange(p + a.len(), p + a.len() + b.len()) =~= ab.subrange(a.len() as int, (a + b).len() as int));
    assert(ab.subrange(a.len() as int, (a + b).len() as int) =~= b);
}

} // verus!
