use xiv_core::bytes::{push_i32, push_net_string, push_u8, push_var_i32, push_var_i64, push_var_u32};
use xiv_core::clut::{CompressType, Header, PlatformId, Version};
use xiv_core::clut_file::{read_header, Clut, ClutError};
use xiv_core::clut_index::Index;
use xiv_core::clut_lazy::LazyClut;
use xiv_core::data_ref::{DataRef, RefKind};
use xiv_core::version::{GameVersion, PatchVersion};

const PATCHES: [&str; 3] = ["D2023.01.01.0000.0000", "D2024.06.02.0000.0000", "D2025.11.03.0000.0001"];

/// Ref lengths vary so a window boundary can fall mid-ref.
fn ref_len(i: u32) -> u32 {
    100 + (i % 13) * 7
}

/// An uncompressed CLUT whose files have the given reference counts, cycling through every
/// reference type, laid out contiguously from offset zero.
fn synth(files: &[(&str, u32)]) -> Vec<u8> {
    let mut blob = Vec::new();
    push_i32(&mut blob, PATCHES.len() as i32);
    for patch in PATCHES {
        push_net_string(&mut blob, patch);
    }
    push_i32(&mut blob, 1);
    push_net_string(&mut blob, "sqpack/ffxiv");
    push_i32(&mut blob, files.len() as i32);
    for (name, _) in files {
        push_net_string(&mut blob, name);
    }
    for (_, ref_count) in files {
        push_i32(&mut blob, *ref_count as i32);
        let mut patch_offset = 0u64;
        for i in 0..*ref_count {
            let kind = i % 4;
            let raw_type: u8 = match kind {
                0 => 0xFF,
                1 => 0,
                2 => 1,
                _ => 2,
            };
            push_u8(&mut blob, raw_type);
            push_var_i32(&mut blob, (i % PATCHES.len() as u32) as i32);
            match kind {
                0 | 1 => {
                    let target = patch_offset + 4096 + u64::from(i);
                    push_var_i64(&mut blob, target.wrapping_sub(patch_offset) as i64);
                    patch_offset = target;
                    push_var_u32(&mut blob, ref_len(i));
                    push_u8(&mut blob, u8::from(i % 8 == 0));
                    if raw_type == 0 {
                        push_var_u32(&mut blob, i % 512);
                    }
                }
                2 => {}
                _ => push_i32(&mut blob, 1 + (i % 3) as i32),
            }
        }
        for i in 0..*ref_count {
            let delta = if i == 0 { 0 } else { i64::from(ref_len(i - 1)) };
            push_var_i64(&mut blob, delta);
        }
        for i in 0..*ref_count {
            push_var_u32(&mut blob, ref_len(i));
        }
    }

    let mut header = Header::default();
    header.compression = CompressType::Uncompressed;
    header.platform = PlatformId::Win32;
    header.version = GameVersion::new("2025.11.03.0000.0000").unwrap();
    header.patch_version = PatchVersion::new(PATCHES[0]).unwrap();
    header.decompressed_size = blob.len() as i32;
    header.compressed_size = blob.len() as i32;
    let mut out = Vec::new();
    header.write_to(&mut out);
    out.extend_from_slice(&blob);
    out
}

fn describe(r: &DataRef) -> (String, u64, u32, RefKind) {
    (r.applied_version().to_string(), r.offset(), r.len(), r.kind())
}

fn described(refs: &[DataRef]) -> Vec<(String, u64, u32, RefKind)> {
    refs.iter().map(describe).collect()
}

#[test]
fn matches_eager_parser() {
    let bytes = synth(&[("a.dat", 0), ("b.dat", 1), ("c.dat", 9000), ("d.dat", 4096)]);
    let eager = Clut::read(&bytes).unwrap();
    let lazy = LazyClut::read(&bytes).unwrap();

    assert_eq!(lazy.folders, eager.folders);
    let index = lazy.index();
    for entry in &eager.files {
        let name = entry.path.as_str();
        assert_eq!(described(&lazy.file_refs(name).unwrap()), described(&entry.refs), "{name}");
        let size = entry.refs.last().map_or(0, |r| r.offset() + u64::from(r.len()));
        assert_eq!(lazy.file_size(name), Some(size), "{name}");
        assert!(index.files.contains(&(name.to_string(), size)), "{name}");
        assert!(lazy.contains(name));
    }
    assert!(!lazy.contains("nope.dat"));
    assert!(matches!(lazy.file_refs("nope.dat"), Err(ClutError::FileNotFound)));
}

#[test]
fn windowed_decode_matches_full_decode() {
    let bytes = synth(&[("c.dat", 9000)]);
    let lazy = LazyClut::read(&bytes).unwrap();
    let all = lazy.file_refs("c.dat").unwrap();
    let size = lazy.file_size("c.dat").unwrap();

    for (start, end) in [
        (0, 1),
        (0, size),
        (1, 2),
        (50, 51),
        (size - 1, size),
        (size / 2, size / 2 + 8192),
        (size - 10, size + 4096),
        (size, size + 1),
    ] {
        let expected: Vec<_> = all
            .iter()
            .filter(|r| r.offset() < end && r.offset() + u64::from(r.len()) > start)
            .map(describe)
            .collect();
        let got = lazy.file_refs_range("c.dat", start, end).unwrap();
        assert_eq!(described(&got), expected, "window {start}..{end}");
    }
}

#[test]
fn a_lazy_read_checks_what_the_eager_read_checks() {
    let bytes = synth(&[("a.dat", 3)]);
    assert!(matches!(LazyClut::read(&bytes[..bytes.len() - 1]), Err(_)));
    let mut bad = bytes.clone();
    bad[0] = 0;
    assert!(matches!(LazyClut::read(&bad), Err(ClutError::BadMagic(_))));
}

#[test]
fn an_empty_file_has_no_references() {
    let bytes = synth(&[("empty.dat", 0)]);
    let lazy = LazyClut::read(&bytes).unwrap();
    assert_eq!(lazy.file_refs("empty.dat").unwrap().len(), 0);
    assert_eq!(lazy.file_size("empty.dat"), Some(0));
}

fn sizes(eager: &Clut) -> Vec<(String, u64)> {
    eager
        .files
        .iter()
        .map(|f| (f.path.clone(), f.refs.last().map_or(0, |r| r.offset() + u64::from(r.len()))))
        .collect()
}

fn index_section(bytes: &[u8]) -> Index {
    let (_, p) = read_header(bytes).unwrap();
    Index::read(bytes, p).unwrap().0
}

/// The browse path reads sizes from the lazy index, so it must agree with the eager parser
/// on the folders and the sizes, also through a chunked rewrite.
#[test]
fn index_matches_read_index() {
    let spec = &[("a.dat", 0), ("b.dat", 1), ("c.dat", 9000)];
    let bytes = synth(spec);
    let scanned = LazyClut::read(&bytes).unwrap();
    let eager = Clut::read(&bytes).unwrap();
    let expected = sizes(&eager);

    assert_eq!(scanned.index().folders, eager.folders);
    assert_eq!(scanned.index().files, expected);
    assert!(!eager.folders.is_empty(), "fixture has no folders to compare");

    let rewritten = scanned.rewrite(CompressType::Zstd).unwrap();
    let indexed = LazyClut::read(&rewritten).unwrap();
    assert_eq!(indexed.index().folders, eager.folders);
    assert_eq!(indexed.index().files, expected);
}

/// Enough refs that the block alone exceeds the target chunk size, forcing its own chunk.
const OVERSIZED: u32 = 150_000;

#[test]
fn chunked_rewrite_matches_scan() {
    let mut spec: Vec<(String, u32)> = (0..40).map(|i| (format!("small{i}.dat"), 10)).collect();
    spec.push(("big.dat".to_string(), OVERSIZED));
    spec.push(("tail.dat".to_string(), 7));
    let spec: Vec<(&str, u32)> = spec.iter().map(|(n, c)| (n.as_str(), *c)).collect();

    let bytes = synth(&spec);
    let scanned = LazyClut::read(&bytes).unwrap();

    for compression in [CompressType::Uncompressed, CompressType::Zstd] {
        let rewritten = scanned.rewrite(compression).unwrap();
        let indexed = LazyClut::read(&rewritten).unwrap();

        assert_eq!(indexed.header.file_version, Version::Indexed);
        assert_eq!(indexed.header.compression, compression);
        assert_eq!(indexed.folders, scanned.folders);
        assert_eq!(indexed.index().files, scanned.index().files);

        let section = index_section(&rewritten);
        assert!(section.chunks.len() >= 3, "expected several chunks, got {}", section.chunks.len());
        let big = spec.iter().position(|(n, _)| *n == "big.dat").unwrap();
        let small = spec.iter().position(|(n, _)| *n == "small0.dat").unwrap();
        assert_ne!(section.files[big].chunk, section.files[small].chunk);

        for (name, _) in &spec {
            assert_eq!(
                described(&indexed.file_refs(name).unwrap()),
                described(&scanned.file_refs(name).unwrap()),
                "{compression:?} refs for {name}"
            );
            let size = scanned.file_size(name).unwrap();
            assert_eq!(
                described(&indexed.file_refs_range(name, size / 3, size / 3 + 4096).unwrap()),
                described(&scanned.file_refs_range(name, size / 3, size / 3 + 4096).unwrap()),
                "{compression:?} window for {name}"
            );
        }

        let eager_rewritten = Clut::read(&rewritten).unwrap();
        let eager_original = Clut::read(&bytes).unwrap();
        assert_eq!(eager_rewritten.files.len(), eager_original.files.len());
        for (x, y) in eager_rewritten.files.iter().zip(eager_original.files.iter()) {
            assert_eq!(x.path, y.path);
            assert_eq!(described(&x.refs), described(&y.refs));
        }
        let again = indexed.rewrite(compression).unwrap();
        let twice = LazyClut::read(&again).unwrap();
        assert_eq!(
            described(&twice.file_refs("big.dat").unwrap()),
            described(&scanned.file_refs("big.dat").unwrap())
        );
    }
}

#[test]
fn every_codec_roundtrips_and_compresses() {
    let bytes = synth(&[("a.dat", 20_000), ("b.dat", 9), ("c.dat", 20_000)]);
    let scanned = LazyClut::read(&bytes).unwrap();

    for compression in [CompressType::Uncompressed, CompressType::Zlib, CompressType::Brotli, CompressType::Zstd] {
        let rewritten = scanned.rewrite(compression).unwrap();
        let indexed = LazyClut::read(&rewritten).unwrap();
        for name in ["a.dat", "b.dat", "c.dat"] {
            assert_eq!(
                described(&indexed.file_refs(name).unwrap()),
                described(&scanned.file_refs(name).unwrap()),
                "{compression:?} refs for {name}"
            );
        }
        if compression != CompressType::Uncompressed {
            assert!(
                rewritten.len() < bytes.len(),
                "{compression:?} rewrite {} not smaller than raw {}",
                rewritten.len(),
                bytes.len()
            );
        }
    }
}
