use xiv_core::chunk::Chunk;
use xiv_core::zipatch::{check_magic, read_chunk, ZiPatch, ZiPatchError};

const MAGIC: [u8; 12] = [0x91, 0x5A, 0x49, 0x50, 0x41, 0x54, 0x43, 0x48, 0x0D, 0x0A, 0x1A, 0x0A];

fn chunk(fourcc: &[u8; 4], body: &[u8]) -> Vec<u8> {
    let mut out = Vec::new();
    out.extend_from_slice(&(body.len() as u32).to_be_bytes());
    let mut checked = fourcc.to_vec();
    checked.extend_from_slice(body);
    out.extend_from_slice(&checked);
    out.extend_from_slice(&crc32fast::hash(&checked).to_be_bytes());
    out
}

fn file_header_body() -> Vec<u8> {
    let mut b = vec![0, 0, 2, 0];
    b.extend_from_slice(b"DIFF");
    b.extend_from_slice(&7u32.to_be_bytes());
    b
}

fn add_data_body() -> Vec<u8> {
    let mut b = Vec::new();
    b.extend_from_slice(&28i32.to_be_bytes());
    b.push(b'A');
    b.extend_from_slice(&[0, 0, 0]);
    b.extend_from_slice(&0x0a_u16.to_be_bytes());
    b.extend_from_slice(&0x0401_u16.to_be_bytes());
    b.extend_from_slice(&3u32.to_be_bytes());
    b.extend_from_slice(&2u32.to_be_bytes());
    b.extend_from_slice(&5u32.to_be_bytes());
    b.extend_from_slice(&1u32.to_be_bytes());
    b
}

fn patch() -> Vec<u8> {
    let mut data = MAGIC.to_vec();
    data.extend(chunk(b"FHDR", &file_header_body()));
    data.extend(chunk(b"SQPK", &add_data_body()));
    data.extend(chunk(b"EOF_", &[]));
    data.extend_from_slice(b"trailing bytes are ignored");
    data
}

#[test]
fn reads_every_chunk_then_stops() {
    let mut z = ZiPatch::new(patch()).unwrap();
    match z.next_chunk().unwrap() {
        Some(Chunk::FileHeader(h)) => {
            assert_eq!(h.version, 2);
            assert_eq!(h.patch_type, "DIFF");
            assert_eq!(h.entry_files, 7);
            assert_eq!(h.add_directories, 0);
        }
        other => panic!("unexpected {other:?}"),
    }
    let sqpk_offset = 12 + 12 + file_header_body().len() as i64 + 8;
    match z.next_chunk().unwrap() {
        Some(Chunk::SqpkAddData { target, block_offset, block_number, block_delete_number, patch_offset }) => {
            assert_eq!(target, "/sqpack/ex4/0a0401.%PLACEHOLDER%.dat3");
            assert_eq!(block_offset, 2 * 128);
            assert_eq!(block_number, 5 * 128);
            assert_eq!(block_delete_number, 128);
            assert_eq!(patch_offset, sqpk_offset + 28);
        }
        other => panic!("unexpected {other:?}"),
    }
    assert!(matches!(z.next_chunk().unwrap(), Some(Chunk::EndOfFile)));
    assert!(z.next_chunk().unwrap().is_none());
    assert!(z.next_chunk().unwrap().is_none());
}

#[test]
fn refuses_a_bad_magic_and_a_short_file() {
    let mut data = patch();
    data[1] = b'Y';
    assert!(!check_magic(&data));
    assert!(matches!(ZiPatch::new(data), Err(ZiPatchError::BadMagic)));
    assert!(matches!(ZiPatch::new(vec![0x91, 0x5A]), Err(ZiPatchError::Truncated)));
    assert!(check_magic(&patch()));
}

#[test]
fn refuses_a_checksum_mismatch() {
    let mut data = patch();
    let last_of_first_chunk = 12 + 12 + file_header_body().len() - 1;
    data[last_of_first_chunk] ^= 0xff;
    let mut z = ZiPatch::new(data).unwrap();
    assert!(matches!(z.next_chunk(), Err(ZiPatchError::Checksum { .. })));
}

#[test]
fn reads_directories_options_and_file_commands() {
    let mut adir = 5i32.to_be_bytes().to_vec();
    adir.extend_from_slice(b"movie");
    assert!(matches!(read_chunk("ADIR", &adir, 0), Ok(Chunk::AddDirectory(d)) if d == "movie"));
    assert!(matches!(read_chunk("ADIR", &(-1i32).to_be_bytes(), 0), Err(ZiPatchError::NegativeLength)));

    let mut aply = 2u32.to_be_bytes().to_vec();
    aply.extend_from_slice(&[0, 0, 0, 0]);
    aply.extend_from_slice(&1u32.to_be_bytes());
    assert!(matches!(read_chunk("APLY", &aply, 0), Ok(Chunk::ApplyOption { kind: 2, value: true })));
    assert!(matches!(read_chunk("NOPE", &[], 0), Err(ZiPatchError::UnknownChunk)));

    // A file-add command with one block: 16-byte header, 32000 (uncompressed), 100 bytes.
    let path = b"sqpack/ffxiv/000000.win32.index\0\0";
    let mut f = Vec::new();
    f.extend_from_slice(&0i32.to_be_bytes());
    f.push(b'F');
    f.push(b'A');
    f.extend_from_slice(&[0, 0]);
    f.extend_from_slice(&4096i64.to_be_bytes());
    f.extend_from_slice(&0i64.to_be_bytes());
    f.extend_from_slice(&(path.len() as i32).to_be_bytes());
    f.extend_from_slice(&0u16.to_be_bytes());
    f.extend_from_slice(&[0, 0]);
    f.extend_from_slice(path);
    let block_start = f.len();
    f.extend_from_slice(&16i32.to_le_bytes());
    f.extend_from_slice(&0u32.to_le_bytes());
    f.extend_from_slice(&32000i32.to_le_bytes());
    f.extend_from_slice(&100i32.to_le_bytes());
    f.resize(block_start + 128, 0);
    let len = f.len() as i32;
    f[0..4].copy_from_slice(&len.to_be_bytes());
    match read_chunk("SQPK", &f, 1000).unwrap() {
        Chunk::SqpkFileAdd { target, file_offset, blocks } => {
            assert_eq!(target, "sqpack/ffxiv/000000.win32.index");
            assert_eq!(file_offset, 4096);
            assert_eq!(blocks.len(), 1);
            assert_eq!(blocks[0].data_size, 100);
            assert_eq!(blocks[0].patch_offset, 1000 + block_start as i64 + 16);
        }
        other => panic!("unexpected {other:?}"),
    }
    f[0..4].copy_from_slice(&(len + 1).to_be_bytes());
    assert!(matches!(read_chunk("SQPK", &f, 1000), Err(ZiPatchError::SqpkSizeMismatch)));
}
