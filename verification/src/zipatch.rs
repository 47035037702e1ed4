//! The ZiPatch format: a magic, then checksummed chunks, each turned into the `Chunk` a LUT
//! keeps of it.
use vstd::prelude::*;

use crate::bytes::{le_val, lemma_pow_values, pow256, u16_signed, u32_signed, u64_signed, read_le};
use crate::chunk::{
    expansion_folder, expansion_text, placeholder, Chunk, ChunkModel, CompressedBlock, FileHeader,
    FileHeaderModel, UNCOMPRESSED_SENTINEL,
};
use crate::text::{chars_of, decimal, push_decimal, push_str, push_zeros, repeat, string_of, zero_pad};

verus! {

/// `c` shifted right `k` times, the reflected CRC-32 polynomial folded in after each shift
/// that drops a set bit.
pub open spec fn crc_shift(c: u32, k: nat) -> u32
    decreases k,
{
    if k == 0 {
        c
    } else {
        crc_shift(if c & 1u32 == 1u32 { (c >> 1u32) ^ 0xEDB8_8320u32 } else { c >> 1u32 }, (k - 1) as nat)
    }
}

/// The CRC register after `data`, from `init`: each byte folded in low bit first.
pub open spec fn crc_register(init: u32, data: Seq<u8>) -> u32
    decreases data.len(),
{
    if data.len() == 0 {
        init
    } else {
        crc_shift(crc_register(init, data.drop_last()) ^ (data.last() as u32), 8)
    }
}

/// The CRC-32 (IEEE, as zlib computes it) of `data`: the register started with every bit
/// set, and every bit flipped at the end.
pub open spec fn crc32_of(data: Seq<u8>) -> u32 {
    !crc_register(0xFFFF_FFFFu32, data)
}

/// `crc32fast::hash`: the CRC-32 (IEEE) of `data`, which the crate computes with tables
/// built from the reflected polynomial `0xEDB88320`, starting from and ending with the
/// register inverted.
#[verifier::external_body]
fn crc32(data: &[u8]) -> (r: u32)
    ensures
        r == crc32_of(data@),
{
    crc32fast::hash(data)
}

/// Why a patch could not be read.
#[derive(Debug, Clone, Copy, PartialEq, Eq, Structural)]
pub enum ZiPatchError {
    /// The file does not start with the ZiPatch magic.
    BadMagic,
    /// A chunk, or a field of one, runs past the end of its data.
    Truncated,
    /// A chunk's stored checksum is not that of its type and body.
    Checksum { expected: u32, actual: u32 },
    /// The chunk type is none of the known ones.
    UnknownChunk,
    /// An `SQPK` chunk gives another size than its body has.
    SqpkSizeMismatch,
    UnknownSqpkCommand(u8),
    UnknownFileOperation(u8),
    /// A length field is negative.
    NegativeLength,
    /// A file block's header and payload sizes do not move past the block's start.
    BadBlock,
}

/// The twelve bytes a ZiPatch starts with.
pub open spec fn zipatch_magic() -> Seq<u8> {
    seq![0x91u8, 0x5A, 0x49, 0x50, 0x41, 0x54, 0x43, 0x48, 0x0D, 0x0A, 0x1A, 0x0A]
}

/// Whether `b` starts with the ZiPatch magic.
pub fn check_magic(b: &[u8]) -> (r: bool)
    ensures
        r <==> b@.len() >= 12 && b@.take(12) == zipatch_magic(),
{
    if b.len() < 12 {
        return false;
    }
    let ok = b[0] == 0x91 && b[1] == 0x5A && b[2] == 0x49 && b[3] == 0x50 && b[4] == 0x41 && b[5] == 0x54
        && b[6] == 0x43 && b[7] == 0x48 && b[8] == 0x0D && b[9] == 0x0A && b[10] == 0x1A && b[11] == 0x0A;
    proof {
        if ok {
            assert(b@.take(12) =~= zipatch_magic());
        } else if b@.take(12) == zipatch_magic() {
            assert(b@.take(12)[0] == b@[0]);
            assert(false);
        }
    }
    ok
}

/// The value of big-endian bytes.
pub open spec fn be_val(s: Seq<u8>) -> nat
    decreases s.len(),
{
    if s.len() == 0 {
        0
    } else {
        (be_val(s.drop_last()) * 256 + s.last()) as nat
    }
}

/// The `n` big-endian bytes at `p`.
pub open spec fn be_at(d: Seq<u8>, p: int, n: nat) -> nat {
    be_val(d.subrange(p, p + n))
}

/// The `n` little-endian bytes at `p`.
pub open spec fn le_at(d: Seq<u8>, p: int, n: nat) -> nat {
    le_val(d.subrange(p, p + n))
}

/// A byte as the ASCII decoder reads it: `?` for anything above 0x7F.
pub open spec fn ascii_char(b: u8) -> char {
    if b < 0x80 {
        b as char
    } else {
        '?'
    }
}

/// `b` without its trailing zero bytes.
pub open spec fn trim_zeros(b: Seq<u8>) -> Seq<u8>
    decreases b.len(),
{
    if b.len() > 0 && b.last() == 0 {
        trim_zeros(b.drop_last())
    } else {
        b
    }
}

/// A fixed-length, zero-padded ASCII field as text.
pub open spec fn ascii_text(b: Seq<u8>) -> Seq<char> {
    trim_zeros(b).map_values(|x: u8| ascii_char(x))
}

/// The character of a hexadecimal digit, lower case.
pub open spec fn hex_char(d: nat) -> char {
    if d < 10 {
        (d + 48) as char
    } else {
        (d + 87) as char
    }
}

/// The shortest lower-case hexadecimal spelling of `n`.
pub open spec fn hex(n: nat) -> Seq<char>
    decreases n,
{
    if n < 16 {
        seq![hex_char(n)]
    } else {
        hex(n / 16).push(hex_char(n % 16))
    }
}

/// `/sqpack/<expansion>/<main:02x><sub:04x>.%PLACEHOLDER%`, the stem dat and index paths share.
pub open spec fn sqpack_stem(main_id: nat, sub_id: nat) -> Seq<char> {
    seq!['/', 's', 'q', 'p', 'a', 'c', 'k', '/'] + expansion_text((sub_id / 256) as u16) + seq!['/'] + zero_pad(
        hex(main_id),
        2,
    ) + zero_pad(hex(sub_id), 4) + seq!['.'] + placeholder()
}

/// The dat file path at `p`: main id, sub id and file id, big-endian.
pub open spec fn dat_path_at(d: Seq<u8>, p: int) -> Seq<char> {
    sqpack_stem(be_at(d, p, 2), be_at(d, p + 2, 2)) + seq!['.', 'd', 'a', 't'] + decimal(be_at(d, p + 4, 4))
}

/// The index file path at `p`; file 0 has no number.
pub open spec fn index_path_at(d: Seq<u8>, p: int) -> Seq<char> {
    let file_id = be_at(d, p + 4, 4);
    sqpack_stem(be_at(d, p, 2), be_at(d, p + 2, 2)) + seq!['.', 'i', 'n', 'd', 'e', 'x'] + if file_id == 0 {
        Seq::empty()
    } else {
        decimal(file_id)
    }
}

/// A block count field: big-endian, in units of 128 bytes.
pub open spec fn block_count_at(d: Seq<u8>, p: int) -> i64 {
    (be_at(d, p, 4) * 128) as i64
}

pub open spec fn be_i32_at(d: Seq<u8>, p: int) -> i32 {
    u32_signed(be_at(d, p, 4) as u32)
}

pub open spec fn le_i32_at(d: Seq<u8>, p: int) -> i32 {
    u32_signed(le_at(d, p, 4) as u32)
}

pub open spec fn be_i64_at(d: Seq<u8>, p: int) -> i64 {
    u64_signed(be_at(d, p, 8) as u64)
}

/// `x` rounded up to a multiple of 128.
pub open spec fn round128(x: int) -> int {
    ((x + 127) / 128) * 128
}

pub proof fn lemma_round128(x: int)
    requires
        x > 0,
    ensures
        x <= round128(x) < x + 128,
        round128(x) % 128 == 0,
{
    assert(x <= round128(x) < x + 128 && round128(x) % 128 == 0) by (nonlinear_arith)
        requires
            x > 0,
            round128(x) == ((x + 127) / 128) * 128,
    ;
}

/// The data blocks of a file-add command from `s` on; each is padded to a multiple of 128
/// bytes from its own start.
pub open spec fn blocks_spec(d: Seq<u8>, s: int, base: int) -> Result<Seq<CompressedBlock>, ZiPatchError>
    decreases d.len() - s,
{
    if s < 0 || s >= d.len() {
        Ok(Seq::empty())
    } else if s + 16 > d.len() {
        Err(ZiPatchError::Truncated)
    } else {
        let h = le_i32_at(d, s) as int;
        let compressed = le_i32_at(d, s + 8);
        let data = le_i32_at(d, s + 12);
        let pay = if compressed != UNCOMPRESSED_SENTINEL {
            compressed as int
        } else {
            data as int
        };
        if h < 0 || h + pay <= 0 {
            Err(ZiPatchError::BadBlock)
        } else {
            let block = CompressedBlock {
                compressed_size: compressed,
                data_size: data,
                patch_offset: (base + s + h) as i64,
            };
            let next = s + round128(h + pay);
            if next >= d.len() {
                Ok(seq![block])
            } else {
                proof {
                    lemma_round128(h + pay);
                }
                match blocks_spec(d, next, base) {
                    Ok(rest) => Ok(seq![block] + rest),
                    Err(e) => Err(e),
                }
            }
        }
    }
}

/// The `FHDR` chunk's body.
pub open spec fn file_header_spec(d: Seq<u8>) -> Result<ChunkModel, ZiPatchError> {
    if d.len() < 12 {
        Err(ZiPatchError::Truncated)
    } else {
        let version = d[2];
        let patch_type = ascii_text(d.subrange(4, 8));
        let entry_files = be_at(d, 8, 4) as u32;
        if version != 3 {
            Ok(
                ChunkModel::FileHeader(
                    FileHeaderModel {
                        version,
                        patch_type,
                        entry_files,
                        add_directories: 0,
                        delete_directories: 0,
                        delete_data_size: 0,
                        minor_version: 0,
                        repository_name: 0,
                        commands: 0,
                        sqpk_add_commands: 0,
                        sqpk_delete_commands: 0,
                        sqpk_expand_commands: 0,
                        sqpk_header_commands: 0,
                        sqpk_file_commands: 0,
                    },
                ),
            )
        } else if d.len() < 60 {
            Err(ZiPatchError::Truncated)
        } else {
            Ok(
                ChunkModel::FileHeader(
                    FileHeaderModel {
                        version,
                        patch_type,
                        entry_files,
                        add_directories: be_at(d, 12, 4) as u32,
                        delete_directories: be_at(d, 16, 4) as u32,
                        delete_data_size: u64_signed((be_at(d, 20, 4) + be_at(d, 24, 4) * 0x1_0000_0000) as u64),
                        minor_version: be_at(d, 28, 4) as u32,
                        repository_name: be_at(d, 32, 4) as u32,
                        commands: be_at(d, 36, 4) as u32,
                        sqpk_add_commands: be_at(d, 40, 4) as u32,
                        sqpk_delete_commands: be_at(d, 44, 4) as u32,
                        sqpk_expand_commands: be_at(d, 48, 4) as u32,
                        sqpk_header_commands: be_at(d, 52, 4) as u32,
                        sqpk_file_commands: be_at(d, 56, 4) as u32,
                    },
                ),
            )
        }
    }
}

/// A length-prefixed (big-endian `i32`) ASCII string at the start of `d`.
pub open spec fn be_string_spec(d: Seq<u8>) -> Result<Seq<char>, ZiPatchError> {
    if d.len() < 4 {
        Err(ZiPatchError::Truncated)
    } else {
        let len = be_i32_at(d, 0) as int;
        if len < 0 {
            Err(ZiPatchError::NegativeLength)
        } else if 4 + len > d.len() {
            Err(ZiPatchError::Truncated)
        } else {
            Ok(ascii_text(d.subrange(4, 4 + len)))
        }
    }
}

/// The body of an `SQPK` file command (`F`).
pub open spec fn sqpk_file_spec(d: Seq<u8>, base: int) -> Result<ChunkModel, ZiPatchError> {
    if d.len() < 32 {
        Err(ZiPatchError::Truncated)
    } else {
        let operation = d[5];
        let file_offset = be_i64_at(d, 8);
        let path_len = be_i32_at(d, 24) as int;
        let expansion_id = be_at(d, 28, 2) as u16;
        if path_len < 0 {
            Err(ZiPatchError::NegativeLength)
        } else if 32 + path_len > d.len() {
            Err(ZiPatchError::Truncated)
        } else {
            let target = ascii_text(d.subrange(32, 32 + path_len));
            if operation == 65 {
                match blocks_spec(d, 32 + path_len, base) {
                    Ok(blocks) => Ok(ChunkModel::SqpkFileAdd { target, file_offset, blocks }),
                    Err(e) => Err(e),
                }
            } else if operation == 82 {
                Ok(ChunkModel::SqpkFileDelExpac { expansion_id })
            } else if operation == 68 {
                Ok(ChunkModel::SqpkFileDelete { target })
            } else if operation == 77 {
                Ok(ChunkModel::SqpkFileMkdir { target })
            } else {
                Err(ZiPatchError::UnknownFileOperation(operation))
            }
        }
    }
}

/// The body of an `SQPK` chunk: its own size, a command byte, then the command.
pub open spec fn sqpk_spec(d: Seq<u8>, base: int) -> Result<ChunkModel, ZiPatchError> {
    if d.len() < 4 {
        Err(ZiPatchError::Truncated)
    } else if be_i32_at(d, 0) != d.len() {
        Err(ZiPatchError::SqpkSizeMismatch)
    } else if d.len() < 5 {
        Err(ZiPatchError::Truncated)
    } else {
        let command = d[4];
        if command == 65 {
            if d.len() < 28 {
                Err(ZiPatchError::Truncated)
            } else {
                Ok(
                    ChunkModel::SqpkAddData {
                        target: dat_path_at(d, 8),
                        block_offset: block_count_at(d, 16),
                        block_number: block_count_at(d, 20),
                        block_delete_number: block_count_at(d, 24),
                        patch_offset: (base + 28) as i64,
                    },
                )
            }
        } else if command == 68 || command == 69 {
            if d.len() < 24 {
                Err(ZiPatchError::Truncated)
            } else if command == 68 {
                Ok(
                    ChunkModel::SqpkDeleteData {
                        target: dat_path_at(d, 8),
                        block_offset: block_count_at(d, 16),
                        block_number: block_count_at(d, 20),
                    },
                )
            } else {
                Ok(
                    ChunkModel::SqpkExpandData {
                        target: dat_path_at(d, 8),
                        block_offset: block_count_at(d, 16),
                        block_number: block_count_at(d, 20),
                    },
                )
            }
        } else if command == 72 {
            if d.len() < 16 {
                Err(ZiPatchError::Truncated)
            } else {
                Ok(
                    ChunkModel::SqpkHeader {
                        target: if d[5] == 68 {
                            dat_path_at(d, 8)
                        } else {
                            index_path_at(d, 8)
                        },
                        header_kind: d[6],
                        patch_offset: (base + 16) as i64,
                    },
                )
            }
        } else if command == 73 {
            Ok(ChunkModel::SqpkIndex)
        } else if command == 88 {
            if d.len() < 16 {
                Err(ZiPatchError::Truncated)
            } else {
                Ok(ChunkModel::SqpkPatchInfo { status: d[5], version: d[6], install_size: be_at(d, 8, 8) as u64 })
            }
        } else if command == 84 {
            if d.len() < 32 {
                Err(ZiPatchError::Truncated)
            } else {
                Ok(
                    ChunkModel::SqpkTargetInfo {
                        platform: be_at(d, 8, 2) as u16,
                        region: u16_signed(be_at(d, 10, 2) as u16),
                        is_debug: be_at(d, 12, 2) != 0,
                        version: be_at(d, 14, 2) as u16,
                        deleted_data_size: le_at(d, 16, 8) as u64,
                        seek_count: le_at(d, 24, 8) as u64,
                    },
                )
            }
        } else if command == 70 {
            sqpk_file_spec(d, base)
        } else {
            Err(ZiPatchError::UnknownSqpkCommand(command))
        }
    }
}

/// The chunk of type `fourcc` with body `body`, whose first byte lies at `base` in the patch.
pub open spec fn chunk_spec(fourcc: Seq<char>, body: Seq<u8>, base: int) -> Result<ChunkModel, ZiPatchError> {
    if fourcc == seq!['F', 'H', 'D', 'R'] {
        file_header_spec(body)
    } else if fourcc == seq!['A', 'P', 'L', 'Y'] {
        if body.len() < 12 {
            Err(ZiPatchError::Truncated)
        } else {
            let kind = be_at(body, 0, 4);
            Ok(
                ChunkModel::ApplyOption {
                    kind: (kind % 256) as u8,
                    value: (kind == 1 || kind == 2) && be_at(body, 8, 4) != 0,
                },
            )
        }
    } else if fourcc == seq!['A', 'P', 'F', 'S'] {
        if body.len() < 16 {
            Err(ZiPatchError::Truncated)
        } else {
            Ok(ChunkModel::ApplyFreeSpace { unknown_a: be_i64_at(body, 0), unknown_b: be_i64_at(body, 8) })
        }
    } else if fourcc == seq!['A', 'D', 'I', 'R'] {
        match be_string_spec(body) {
            Ok(s) => Ok(ChunkModel::AddDirectory(s)),
            Err(e) => Err(e),
        }
    } else if fourcc == seq!['D', 'E', 'L', 'D'] {
        match be_string_spec(body) {
            Ok(s) => Ok(ChunkModel::DeleteDirectory(s)),
            Err(e) => Err(e),
        }
    } else if fourcc == seq!['E', 'O', 'F', '_'] {
        Ok(ChunkModel::EndOfFile)
    } else if fourcc == seq!['X', 'X', 'X', 'X'] {
        Ok(ChunkModel::Xxxx)
    } else if fourcc == seq!['S', 'Q', 'P', 'K'] {
        sqpk_spec(body, base)
    } else {
        Err(ZiPatchError::UnknownChunk)
    }
}

/// An `SQPK` header command (`H`) whose file-kind byte is `D` targets the dat file named at
/// offset 8, its path ending in `.dat` and the file number; any other file kind targets
/// the index file named there, its path ending in `.index`. The header kind is byte 6.
pub proof fn lemma_sqpk_header_target(body: Seq<u8>, base: int)
    requires
        body.len() >= 16,
        be_i32_at(body, 0) == body.len(),
        body[4] == 72,
    ensures
        ({
            let stem = sqpack_stem(be_at(body, 8, 2), be_at(body, 10, 2));
            chunk_spec(seq!['S', 'Q', 'P', 'K'], body, base) matches Ok(ChunkModel::SqpkHeader { target, header_kind, .. })
                && header_kind == body[6] && (body[5] == 68 ==> target == dat_path_at(body, 8) && target.subrange(
                stem.len() as int,
                stem.len() + 4int,
            ) == seq!['.', 'd', 'a', 't']) && (body[5] != 68 ==> target == index_path_at(body, 8) && target.subrange(
                stem.len() as int,
                stem.len() + 6int,
            ) == seq!['.', 'i', 'n', 'd', 'e', 'x']) && (body[5] == 68 ==> target == stem + seq!['.', 'd', 'a', 't']
                + decimal(be_at(body, 12, 4))) && (body[5] != 68 && be_at(body, 12, 4) == 0 ==> target == stem + seq![
                '.',
                'i',
                'n',
                'd',
                'e',
                'x',
            ]) && (body[5] != 68 && be_at(body, 12, 4) != 0 ==> target == stem + seq!['.', 'i', 'n', 'd', 'e', 'x']
                + decimal(be_at(body, 12, 4)))
        }),
{
    let stem = sqpack_stem(be_at(body, 8, 2), be_at(body, 10, 2));
    let dat = dat_path_at(body, 8);
    let idx = index_path_at(body, 8);
    assert(dat.subrange(stem.len() as int, stem.len() + 4int) =~= seq!['.', 'd', 'a', 't']);
    assert(idx.subrange(stem.len() as int, stem.len() + 6int) =~= seq!['.', 'i', 'n', 'd', 'e', 'x']);
}

/// The chunk at `pos` of a patch, with where the next one starts: a big-endian size, the
/// four-character type, the body, and a big-endian CRC-32 of type and body.
pub open spec fn chunk_at(b: Seq<u8>, pos: int) -> Result<(ChunkModel, int), ZiPatchError> {
    if pos < 0 || pos + 4 > b.len() {
        Err(ZiPatchError::Truncated)
    } else {
        let size = be_at(b, pos, 4) as int;
        if pos + size + 12 > b.len() {
            Err(ZiPatchError::Truncated)
        } else {
            let expected = be_at(b, pos + 8 + size, 4) as u32;
            let actual = crc32_of(b.subrange(pos + 4, pos + 8 + size));
            if expected != actual {
                Err(ZiPatchError::Checksum { expected, actual })
            } else {
                let fourcc = b.subrange(pos + 4, pos + 8).map_values(|x: u8| ascii_char(x));
                match chunk_spec(fourcc, b.subrange(pos + 8, pos + 8 + size), pos + 8) {
                    Ok(c) => Ok((c, pos + size + 12)),
                    Err(e) => Err(e),
                }
            }
        }
    }
}

/// The `n` big-endian bytes at `p`.
fn read_be(d: &[u8], p: usize, n: usize) -> (v: u64)
    requires
        n <= 8,
        p + n <= d@.len(),
    ensures
        v == be_at(d@, p as int, n as nat),
        v < pow256(n as nat),
{
    let mut v: u64 = 0;
    let mut i: usize = 0;
    proof {
        lemma_pow_values();
        assert(d@.subrange(p as int, p as int) =~= Seq::<u8>::empty());
    }
    while i < n
        invariant
            n <= 8,
            p + n <= d.len(),
            i <= n,
            v as nat == be_val(d@.subrange(p as int, p + i)),
            v < pow256(i as nat),
        decreases n - i,
    {
        let b = d[p + i];
        proof {
            let t = d@.subrange(p as int, p + i + 1);
            assert(t.drop_last() =~= d@.subrange(p as int, p + i));
            assert(t.last() == b);
            lemma_pow_values();
            assert(pow256((i + 1) as nat) == 256 * pow256(i as nat));
            assert(pow256((i + 1) as nat) <= pow256(8)) by {
                crate::bytes::lemma_pow_mono((i + 1) as nat, 8);
            }
            assert(v * 256 + b < 256 * pow256(i as nat)) by (nonlinear_arith)
                requires
                    b < 256,
                    v < pow256(i as nat),
            ;
        }
        v = v * 256 + b as u64;
        i = i + 1;
    }
    v
}

fn be_u16(d: &[u8], p: usize) -> (v: u16)
    requires
        p + 2 <= d@.len(),
    ensures
        v == be_at(d@, p as int, 2),
{
    let x = read_be(d, p, 2);
    proof {
        lemma_pow_values();
    }
    x as u16
}

fn be_u32(d: &[u8], p: usize) -> (v: u32)
    requires
        p + 4 <= d@.len(),
    ensures
        v == be_at(d@, p as int, 4),
{
    let x = read_be(d, p, 4);
    proof {
        lemma_pow_values();
    }
    x as u32
}

fn be_i32(d: &[u8], p: usize) -> (v: i32)
    requires
        p + 4 <= d@.len(),
    ensures
        v == be_i32_at(d@, p as int),
{
    let u = be_u32(d, p);
    if u < 0x8000_0000 {
        u as i32
    } else {
        (u as i64 - 0x1_0000_0000) as i32
    }
}

fn be_i64(d: &[u8], p: usize) -> (v: i64)
    requires
        p + 8 <= d@.len(),
    ensures
        v == be_i64_at(d@, p as int),
{
    let u = read_be(d, p, 8);
    proof {
        lemma_pow_values();
    }
    if u < 0x8000_0000_0000_0000 {
        u as i64
    } else {
        (u as i128 - 0x1_0000_0000_0000_0000) as i64
    }
}

fn le_u64(d: &[u8], p: usize) -> (v: u64)
    requires
        p + 8 <= d@.len(),
    ensures
        v == le_at(d@, p as int, 8),
{
    match read_le(d, p, 8) {
        Ok((v, _)) => v,
        Err(_) => 0,
    }
}

fn le_i32(d: &[u8], p: usize) -> (v: i32)
    requires
        p + 4 <= d@.len(),
    ensures
        v == le_i32_at(d@, p as int),
{
    match crate::bytes::read_i32(d, p) {
        Ok((v, _)) => v,
        Err(_) => 0,
    }
}

/// The zero-padded ASCII field `d[lo..hi]` as text.
fn ascii_string(d: &[u8], lo: usize, hi: usize) -> (s: String)
    requires
        lo <= hi <= d@.len(),
    ensures
        s@ == ascii_text(d@.subrange(lo as int, hi as int)),
{
    let mut e = hi;
    while e > lo && d[e - 1] == 0
        invariant
            lo <= e <= hi <= d@.len(),
            trim_zeros(d@.subrange(lo as int, hi as int)) == trim_zeros(d@.subrange(lo as int, e as int)),
        decreases e,
    {
        assert(d@.subrange(lo as int, e as int).drop_last() =~= d@.subrange(lo as int, e - 1));
        e = e - 1;
    }
    let ghost kept = d@.subrange(lo as int, e as int);
    assert(trim_zeros(kept) == kept) by {
        if kept.len() > 0 {
            assert(kept.last() == d@[e - 1]);
        }
    }
    let mut s = String::new();
    let mut k = lo;
    while k < e
        invariant
            lo <= k <= e <= d@.len(),
            kept == d@.subrange(lo as int, e as int),
            s@ == kept.take(k - lo).map_values(|x: u8| ascii_char(x)),
        decreases e - k,
    {
        let b = d[k];
        let c = if b < 0x80 {
            b as char
        } else {
            '?'
        };
        s.push(c);
        assert(kept.take(k + 1 - lo) =~= kept.take(k - lo).push(b));
        assert(s@ =~= kept.take(k + 1 - lo).map_values(|x: u8| ascii_char(x)));
        k = k + 1;
    }
    assert(kept.take(e - lo) =~= kept);
    s
}

fn hex_digit(d: u64) -> (c: char)
    requires
        d < 16,
    ensures
        c == hex_char(d as nat),
{
    if d < 10 {
        ((d + 48) as u8) as char
    } else {
        ((d + 87) as u8) as char
    }
}

/// Append the lower-case hexadecimal digits of `n`.
fn push_hex(out: &mut String, n: u64)
    ensures
        final(out)@ == old(out)@ + hex(n as nat),
    decreases n,
{
    if n >= 16 {
        push_hex(out, n / 16);
    }
    let c = hex_digit(n % 16);
    out.push(c);
    proof {
        if n >= 16 {
            assert(hex(n as nat) == hex((n / 16) as nat).push(hex_char((n % 16) as nat)));
        }
    }
}

fn hex_len(n: u16) -> (len: usize)
    ensures
        len == hex(n as nat).len(),
        len <= 4,
        n < 16 ==> len == 1,
        n < 256 ==> len <= 2,
        n < 4096 ==> len <= 3,
    decreases n,
{
    if n < 16 {
        1
    } else {
        let l = hex_len(n / 16);
        proof {
            assert(hex(n as nat) == hex((n / 16) as nat).push(hex_char((n % 16) as nat)));
        }
        l + 1
    }
}

/// Append `n` in hexadecimal, zero-padded to `width` digits.
fn push_hex_padded(out: &mut String, n: u16, width: usize)
    requires
        width <= 4,
    ensures
        final(out)@ == old(out)@ + zero_pad(hex(n as nat), width as nat),
{
    let l = hex_len(n);
    let ghost before = out@;
    if l < width {
        push_zeros(out, width - l);
    }
    push_hex(out, n as u64);
    assert(out@ =~= before + zero_pad(hex(n as nat), width as nat));
}

fn push_sqpack_stem(out: &mut String, main_id: u16, sub_id: u16)
    ensures
        final(out)@ == old(out)@ + sqpack_stem(main_id as nat, sub_id as nat),
{
    proof {
        reveal_strlit("/sqpack/");
        reveal_strlit("%PLACEHOLDER%");
    }
    let ghost before = out@;
    push_str(out, "/sqpack/");
    let expansion = expansion_folder(sub_id / 256);
    push_str(out, expansion.as_str());
    out.push('/');
    push_hex_padded(out, main_id, 2);
    push_hex_padded(out, sub_id, 4);
    out.push('.');
    push_str(out, "%PLACEHOLDER%");
    assert(((sub_id as nat) / 256) as u16 == sub_id / 256);
    assert(out@ =~= before + sqpack_stem(main_id as nat, sub_id as nat));
}

/// The dat file path at `p`.
fn dat_path(d: &[u8], p: usize) -> (s: String)
    requires
        p + 8 <= d.len(),
    ensures
        s@ == dat_path_at(d@, p as int),
{
    let main_id = be_u16(d, p);
    let sub_id = be_u16(d, p + 2);
    let file_id = be_u32(d, p + 4);
    let mut s = String::new();
    push_sqpack_stem(&mut s, main_id, sub_id);
    proof {
        reveal_strlit(".dat");
    }
    push_str(&mut s, ".dat");
    push_decimal(&mut s, file_id as u64);
    assert(s@ =~= dat_path_at(d@, p as int));
    s
}

/// The index file path at `p`.
fn index_path(d: &[u8], p: usize) -> (s: String)
    requires
        p + 8 <= d.len(),
    ensures
        s@ == index_path_at(d@, p as int),
{
    let main_id = be_u16(d, p);
    let sub_id = be_u16(d, p + 2);
    let file_id = be_u32(d, p + 4);
    let mut s = String::new();
    push_sqpack_stem(&mut s, main_id, sub_id);
    proof {
        reveal_strlit(".index");
    }
    push_str(&mut s, ".index");
    if file_id != 0 {
        push_decimal(&mut s, file_id as u64);
    }
    assert(s@ =~= index_path_at(d@, p as int));
    s
}

fn block_count(d: &[u8], p: usize) -> (v: i64)
    requires
        p + 4 <= d@.len(),
    ensures
        v == block_count_at(d@, p as int),
{
    (be_u32(d, p) as i64) * 128
}

/// `r` with `a` put in front of what it holds.
pub open spec fn prepend(a: Seq<CompressedBlock>, r: Result<Seq<CompressedBlock>, ZiPatchError>) -> Result<
    Seq<CompressedBlock>,
    ZiPatchError,
> {
    match r {
        Ok(x) => Ok(a + x),
        Err(e) => Err(e),
    }
}

/// The data blocks of a file-add command from `s0` on.
fn read_blocks(d: &[u8], s0: usize, base: i64) -> (r: Result<Vec<CompressedBlock>, ZiPatchError>)
    requires
        s0 <= d@.len(),
        base + d@.len() + 0x8000_0000 <= i64::MAX,
    ensures
        match r {
            Ok(v) => blocks_spec(d@, s0 as int, base as int) == Ok::<Seq<CompressedBlock>, ZiPatchError>(v@),
            Err(e) => blocks_spec(d@, s0 as int, base as int) == Err::<Seq<CompressedBlock>, ZiPatchError>(e),
        },
{
    let mut acc: Vec<CompressedBlock> = Vec::new();
    let mut s = s0;
    let len = d.len();
    assert(prepend(acc@, blocks_spec(d@, s as int, base as int)) =~= blocks_spec(d@, s0 as int, base as int)) by {
        if let Ok(x) = blocks_spec(d@, s as int, base as int) {
            assert(acc@ + x =~= x);
        }
    }
    while s < len
        invariant
            len == d@.len(),
            s <= len,
            base + d@.len() + 0x8000_0000 <= i64::MAX,
            blocks_spec(d@, s0 as int, base as int) == prepend(acc@, blocks_spec(d@, s as int, base as int)),
        decreases len - s,
    {
        if len - s < 16 {
            return Err(ZiPatchError::Truncated);
        }
        let h = le_i32(d, s);
        let compressed = le_i32(d, s + 8);
        let data = le_i32(d, s + 12);
        let pay: i64 = if compressed != UNCOMPRESSED_SENTINEL {
            compressed as i64
        } else {
            data as i64
        };
        if h < 0 || h as i64 + pay <= 0 {
            return Err(ZiPatchError::BadBlock);
        }
        let sum: i64 = h as i64 + pay;
        let adv: i64 = (sum + 127) / 128 * 128;
        proof {
            lemma_round128(sum as int);
        }
        let offset = (base as i128 + s as i128 + h as i128) as i64;
        let block = CompressedBlock { compressed_size: compressed, data_size: data, patch_offset: offset };
        let ghost prev = acc@;
        acc.push(block);
        if adv as u64 >= (len - s) as u64 {
            assert(blocks_spec(d@, s as int, base as int) == Ok::<Seq<CompressedBlock>, ZiPatchError>(seq![block]));
            assert(prev + seq![block] =~= acc@);
            return Ok(acc);
        }
        proof {
            let r = blocks_spec(d@, s + adv, base as int);
            assert(blocks_spec(d@, s as int, base as int) == prepend(seq![block], r));
            if let Ok(x) = r {
                assert(prev + (seq![block] + x) =~= acc@ + x);
            }
        }
        s = s + adv as usize;
    }
    assert(blocks_spec(d@, s as int, base as int) == Ok::<Seq<CompressedBlock>, ZiPatchError>(Seq::empty()));
    assert(acc@ + Seq::<CompressedBlock>::empty() =~= acc@);
    Ok(acc)
}

fn read_file_header(d: &[u8]) -> (r: Result<Chunk, ZiPatchError>)
    ensures
        match r {
            Ok(c) => file_header_spec(d@) == Ok::<ChunkModel, ZiPatchError>(c@),
            Err(e) => file_header_spec(d@) == Err::<ChunkModel, ZiPatchError>(e),
        },
{
    if d.len() < 12 {
        return Err(ZiPatchError::Truncated);
    }
    let version = d[2];
    let patch_type = ascii_string(d, 4, 8);
    let entry_files = be_u32(d, 8);
    if version != 3 {
        return Ok(
            Chunk::FileHeader(
                FileHeader {
                    version,
                    patch_type,
                    entry_files,
                    add_directories: 0,
                    delete_directories: 0,
                    delete_data_size: 0,
                    minor_version: 0,
                    repository_name: 0,
                    commands: 0,
                    sqpk_add_commands: 0,
                    sqpk_delete_commands: 0,
                    sqpk_expand_commands: 0,
                    sqpk_header_commands: 0,
                    sqpk_file_commands: 0,
                },
            ),
        );
    }
    if d.len() < 60 {
        return Err(ZiPatchError::Truncated);
    }
    let low = be_u32(d, 20) as u64;
    let high = be_u32(d, 24) as u64;
    let joined: u64 = low + high * 0x1_0000_0000;
    let delete_data_size: i64 = if joined < 0x8000_0000_0000_0000 {
        joined as i64
    } else {
        (joined as i128 - 0x1_0000_0000_0000_0000) as i64
    };
    Ok(
        Chunk::FileHeader(
            FileHeader {
                version,
                patch_type,
                entry_files,
                add_directories: be_u32(d, 12),
                delete_directories: be_u32(d, 16),
                delete_data_size,
                minor_version: be_u32(d, 28),
                repository_name: be_u32(d, 32),
                commands: be_u32(d, 36),
                sqpk_add_commands: be_u32(d, 40),
                sqpk_delete_commands: be_u32(d, 44),
                sqpk_expand_commands: be_u32(d, 48),
                sqpk_header_commands: be_u32(d, 52),
                sqpk_file_commands: be_u32(d, 56),
            },
        ),
    )
}

fn read_be_string(d: &[u8]) -> (r: Result<String, ZiPatchError>)
    ensures
        match r {
            Ok(s) => be_string_spec(d@) == Ok::<Seq<char>, ZiPatchError>(s@),
            Err(e) => be_string_spec(d@) == Err::<Seq<char>, ZiPatchError>(e),
        },
{
    if d.len() < 4 {
        return Err(ZiPatchError::Truncated);
    }
    let len = be_i32(d, 0);
    if len < 0 {
        return Err(ZiPatchError::NegativeLength);
    }
    if len as usize > d.len() - 4 {
        return Err(ZiPatchError::Truncated);
    }
    Ok(ascii_string(d, 4, 4 + len as usize))
}

fn read_sqpk_file(d: &[u8], base: i64) -> (r: Result<Chunk, ZiPatchError>)
    requires
        base + d@.len() + 0x8000_0000 <= i64::MAX,
    ensures
        match r {
            Ok(c) => sqpk_file_spec(d@, base as int) == Ok::<ChunkModel, ZiPatchError>(c@),
            Err(e) => sqpk_file_spec(d@, base as int) == Err::<ChunkModel, ZiPatchError>(e),
        },
{
    if d.len() < 32 {
        return Err(ZiPatchError::Truncated);
    }
    let operation = d[5];
    let file_offset = be_i64(d, 8);
    let path_len = be_i32(d, 24);
    let expansion_id = be_u16(d, 28);
    if path_len < 0 {
        return Err(ZiPatchError::NegativeLength);
    }
    if path_len as usize > d.len() - 32 {
        return Err(ZiPatchError::Truncated);
    }
    let end = 32 + path_len as usize;
    let target = ascii_string(d, 32, end);
    if operation == 65 {
        match read_blocks(d, end, base) {
            Ok(blocks) => Ok(Chunk::SqpkFileAdd { target, file_offset, blocks }),
            Err(e) => Err(e),
        }
    } else if operation == 82 {
        Ok(Chunk::SqpkFileDelExpac { expansion_id })
    } else if operation == 68 {
        Ok(Chunk::SqpkFileDelete { target })
    } else if operation == 77 {
        Ok(Chunk::SqpkFileMkdir { target })
    } else {
        Err(ZiPatchError::UnknownFileOperation(operation))
    }
}

fn read_sqpk(d: &[u8], base: i64) -> (r: Result<Chunk, ZiPatchError>)
    requires
        base + d@.len() + 0x8000_0000 <= i64::MAX,
    ensures
        match r {
            Ok(c) => sqpk_spec(d@, base as int) == Ok::<ChunkModel, ZiPatchError>(c@),
            Err(e) => sqpk_spec(d@, base as int) == Err::<ChunkModel, ZiPatchError>(e),
        },
{
    if d.len() < 4 {
        return Err(ZiPatchError::Truncated);
    }
    let inner = be_i32(d, 0);
    if inner < 0 || inner as usize != d.len() {
        return Err(ZiPatchError::SqpkSizeMismatch);
    }
    if d.len() < 5 {
        return Err(ZiPatchError::Truncated);
    }
    let command = d[4];
    if command == 65 {
        if d.len() < 28 {
            return Err(ZiPatchError::Truncated);
        }
        Ok(
            Chunk::SqpkAddData {
                target: dat_path(d, 8),
                block_offset: block_count(d, 16),
                block_number: block_count(d, 20),
                block_delete_number: block_count(d, 24),
                patch_offset: base + 28,
            },
        )
    } else if command == 68 || command == 69 {
        if d.len() < 24 {
            return Err(ZiPatchError::Truncated);
        }
        if command == 68 {
            Ok(
                Chunk::SqpkDeleteData {
                    target: dat_path(d, 8),
                    block_offset: block_count(d, 16),
                    block_number: block_count(d, 20),
                },
            )
        } else {
            Ok(
                Chunk::SqpkExpandData {
                    target: dat_path(d, 8),
                    block_offset: block_count(d, 16),
                    block_number: block_count(d, 20),
                },
            )
        }
    } else if command == 72 {
        if d.len() < 16 {
            return Err(ZiPatchError::Truncated);
        }
        let target = if d[5] == 68 {
            dat_path(d, 8)
        } else {
            index_path(d, 8)
        };
        Ok(Chunk::SqpkHeader { target, header_kind: d[6], patch_offset: base + 16 })
    } else if command == 73 {
        Ok(Chunk::SqpkIndex)
    } else if command == 88 {
        if d.len() < 16 {
            return Err(ZiPatchError::Truncated);
        }
        let install_size = read_be(d, 8, 8);
        Ok(Chunk::SqpkPatchInfo { status: d[5], version: d[6], install_size })
    } else if command == 84 {
        if d.len() < 32 {
            return Err(ZiPatchError::Truncated);
        }
        let region_bits = be_u16(d, 10);
        let region: i16 = if region_bits < 0x8000 {
            region_bits as i16
        } else {
            (region_bits as i32 - 0x1_0000) as i16
        };
        Ok(
            Chunk::SqpkTargetInfo {
                platform: be_u16(d, 8),
                region,
                is_debug: be_u16(d, 12) != 0,
                version: be_u16(d, 14),
                deleted_data_size: le_u64(d, 16),
                seek_count: le_u64(d, 24),
            },
        )
    } else if command == 70 {
        read_sqpk_file(d, base)
    } else {
        Err(ZiPatchError::UnknownSqpkCommand(command))
    }
}

/// Whether `f` spells the four characters given.
fn tag_is(f: &Vec<char>, a: char, b: char, c: char, e: char) -> (r: bool)
    ensures
        r == (f@ == seq![a, b, c, e]),
{
    let r = f.len() == 4 && f[0] == a && f[1] == b && f[2] == c && f[3] == e;
    proof {
        if r {
            assert(f@ =~= seq![a, b, c, e]);
        } else if f@ == seq![a, b, c, e] {
            assert(f@[0] == a);
        }
    }
    r
}

/// The chunk of type `fourcc` with body `body`, whose first byte lies at `base_offset` in
/// the patch.
pub fn read_chunk(fourcc: &str, body: &[u8], base_offset: i64) -> (r: Result<Chunk, ZiPatchError>)
    requires
        base_offset + body@.len() + 0x8000_0000 <= i64::MAX,
    ensures
        match r {
            Ok(c) => chunk_spec(fourcc@, body@, base_offset as int) == Ok::<ChunkModel, ZiPatchError>(c@),
            Err(e) => chunk_spec(fourcc@, body@, base_offset as int) == Err::<ChunkModel, ZiPatchError>(e),
        },
{
    let f = chars_of(fourcc);
    if tag_is(&f, 'F', 'H', 'D', 'R') {
        read_file_header(body)
    } else if tag_is(&f, 'A', 'P', 'L', 'Y') {
        if body.len() < 12 {
            return Err(ZiPatchError::Truncated);
        }
        let kind = be_u32(body, 0);
        let value = be_u32(body, 8) != 0;
        Ok(Chunk::ApplyOption { kind: (kind % 256) as u8, value: (kind == 1 || kind == 2) && value })
    } else if tag_is(&f, 'A', 'P', 'F', 'S') {
        if body.len() < 16 {
            return Err(ZiPatchError::Truncated);
        }
        Ok(Chunk::ApplyFreeSpace { unknown_a: be_i64(body, 0), unknown_b: be_i64(body, 8) })
    } else if tag_is(&f, 'A', 'D', 'I', 'R') {
        match read_be_string(body) {
            Ok(s) => Ok(Chunk::AddDirectory(s)),
            Err(e) => Err(e),
        }
    } else if tag_is(&f, 'D', 'E', 'L', 'D') {
        match read_be_string(body) {
            Ok(s) => Ok(Chunk::DeleteDirectory(s)),
            Err(e) => Err(e),
        }
    } else if tag_is(&f, 'E', 'O', 'F', '_') {
        Ok(Chunk::EndOfFile)
    } else if tag_is(&f, 'X', 'X', 'X', 'X') {
        Ok(Chunk::Xxxx)
    } else if tag_is(&f, 'S', 'Q', 'P', 'K') {
        read_sqpk(body, base_offset)
    } else {
        Err(ZiPatchError::UnknownChunk)
    }
}

/// A patch being read chunk by chunk: its bytes, where the next chunk starts, and whether
/// the end-of-file chunk has been read.
pub struct ZiPatch {
    pub data: Vec<u8>,
    pub position: usize,
    pub finished: bool,
}

impl ZiPatch {
    /// The position lies within the data, whose length leaves every offset room in an `i64`.
    pub open spec fn wf(&self) -> bool {
        &&& self.position <= self.data@.len()
        &&& self.data@.len() <= 0x4000_0000_0000_0000
    }

    /// Start reading a patch: it must begin with the ZiPatch magic.
    pub fn new(data: Vec<u8>) -> (r: Result<ZiPatch, ZiPatchError>)
        requires
            data@.len() <= 0x4000_0000_0000_0000,
        ensures
            match r {
                Ok(z) => data@.len() >= 12 && data@.take(12) == zipatch_magic() && z.data@ == data@ && z.position
                    == 12 && !z.finished && z.wf(),
                Err(e) => (data@.len() < 12 && e == ZiPatchError::Truncated) || (data@.len() >= 12 && data@.take(12)
                    != zipatch_magic() && e == ZiPatchError::BadMagic),
            },
    {
        if data.len() < 12 {
            return Err(ZiPatchError::Truncated);
        }
        if !check_magic(data.as_slice()) {
            return Err(ZiPatchError::BadMagic);
        }
        Ok(ZiPatch { data, position: 12, finished: false })
    }

    /// The next chunk, or nothing once the end-of-file chunk has been read; bytes after it
    /// are ignored.
    pub fn next_chunk(&mut self) -> (r: Result<Option<Chunk>, ZiPatchError>)
        requires
            old(self).wf(),
        ensures
            final(self).wf(),
            final(self).data == old(self).data,
            old(self).finished ==> (r matches Ok(None)) && final(self).position == old(self).position
                && final(self).finished,
            !old(self).finished ==> match r {
                Ok(Some(c)) => chunk_at(old(self).data@, old(self).position as int) == Ok::<
                    (ChunkModel, int),
                    ZiPatchError,
                >((c@, final(self).position as int)) && final(self).finished == (c@ == ChunkModel::EndOfFile),
                Ok(None) => false,
                Err(e) => chunk_at(old(self).data@, old(self).position as int) == Err::<(ChunkModel, int), ZiPatchError>(
                    e,
                ) && final(self).position == old(self).position && !final(self).finished,
            },
    {
        if self.finished {
            return Ok(None);
        }
        let pos = self.position;
        let len = self.data.len();
        if len - pos < 4 {
            return Err(ZiPatchError::Truncated);
        }
        let size = be_u32(self.data.as_slice(), pos) as usize;
        if len - pos < 12 || size > len - pos - 12 {
            return Err(ZiPatchError::Truncated);
        }
        let end = pos + 8 + size;
        let expected = be_u32(self.data.as_slice(), end);
        let checked = vstd::slice::slice_subrange(self.data.as_slice(), pos + 4, end);
        let actual = crc32(checked);
        if expected != actual {
            return Err(ZiPatchError::Checksum { expected, actual });
        }
        let mut fourcc = String::new();
        let mut k = pos + 4;
        while k < pos + 8
            invariant
                pos + 8 <= end <= self.data@.len(),
                pos + 4 <= k <= pos + 8,
                fourcc@ == self.data@.subrange(pos + 4, k as int).map_values(|x: u8| ascii_char(x)),
            decreases pos + 8 - k,
        {
            let b = self.data[k];
            let c = if b < 0x80 {
                b as char
            } else {
                '?'
            };
            fourcc.push(c);
            assert(self.data@.subrange(pos + 4, k + 1) =~= self.data@.subrange(pos + 4, k as int).push(b));
            assert(fourcc@ =~= self.data@.subrange(pos + 4, k + 1).map_values(|x: u8| ascii_char(x)));
            k = k + 1;
        }
        let body = vstd::slice::slice_subrange(self.data.as_slice(), pos + 8, end);
        let chunk = match read_chunk(fourcc.as_str(), body, (pos + 8) as i64) {
            Ok(c) => c,
            Err(e) => {
                return Err(e);
            },
        };
        self.position = end + 4;
        self.finished = match chunk {
            Chunk::EndOfFile => true,
            _ => false,
        };
        Ok(Some(chunk))
    }
}

} // verus!
