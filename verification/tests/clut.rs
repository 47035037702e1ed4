use xiv_core::chunk::{Chunk, CompressedBlock};
use xiv_core::clut::{CompressType, Header, PlatformId, Version};
use xiv_core::clut_build::ClutBuilder;
use xiv_core::clut_file::{read_header, Clut, ClutError, CLUT_MAGIC};
use xiv_core::data_ref::RefKind;
use xiv_core::version::{GameVersion, PatchVersion};

fn header() -> Header {
    Header {
        magic: CLUT_MAGIC,
        file_version: Version::SeparateVersioning,
        compression: CompressType::Uncompressed,
        platform: PlatformId::Win32,
        repository: "4e9a232b".to_string(),
        version: GameVersion::new("2024.05.31.0000.0000").unwrap(),
        patch_version: PatchVersion::new("D2024.05.31.0000.0000").unwrap(),
        base_patch_url: "http://patches/game/4e9a232b/".to_string(),
        decompressed_size: 0,
        compressed_size: 0,
    }
}

fn built() -> ClutBuilder {
    let mut b = ClutBuilder::new(header());
    let p1 = PatchVersion::new("H2017.06.06.0000.0001a").unwrap();
    let p2 = PatchVersion::new("D2024.05.31.0000.0000").unwrap();
    b.apply(&p1, &Chunk::AddDirectory("sqpack/ffxiv".to_string())).unwrap();
    b.apply(
        &p1,
        &Chunk::SqpkAddData {
            target: "sqpack/ffxiv/000000.win32.dat0".to_string(),
            block_offset: 0,
            block_number: 256,
            block_delete_number: 128,
            patch_offset: 4096,
        },
    )
    .unwrap();
    b.apply(
        &p2,
        &Chunk::SqpkFileAdd {
            target: "game/ffxivgame.ver".to_string(),
            file_offset: 0,
            blocks: vec![
                CompressedBlock { compressed_size: 40, data_size: 100, patch_offset: 77 },
                CompressedBlock { compressed_size: 32000, data_size: 20, patch_offset: 200 },
            ],
        },
    )
    .unwrap();
    b.remove_overlaps().unwrap();
    b
}

fn round_trip(kind: CompressType) {
    let b = built();
    let bytes = b.write(kind).unwrap();
    let clut = Clut::read(&bytes).unwrap();
    assert_eq!(clut.header.compression, kind);
    assert_eq!(clut.header.repository, "4e9a232b");
    assert_eq!(clut.header.version.to_string(), "2024.05.31.0000.0000");
    assert_eq!(clut.folders, b.folders);
    assert_eq!(clut.files.len(), b.files.len());
    for (read, written) in clut.files.iter().zip(b.files.iter()) {
        assert_eq!(read.path, written.path);
        assert_eq!(read.refs.len(), written.refs.len());
        for (x, y) in read.refs.iter().zip(written.refs.iter()) {
            assert!(x.applied_version() == y.applied_version());
            assert_eq!((x.offset(), x.len(), x.kind()), (y.offset(), y.len(), y.kind()));
        }
    }
    // The payload inflates to what the header says.
    assert_eq!(clut.header.decompressed_size as usize, b.payload().len());
}

#[test]
fn a_clut_reads_back_what_was_written_uncompressed() {
    round_trip(CompressType::Uncompressed);
}

#[test]
fn a_clut_reads_back_what_was_written_with_each_codec() {
    round_trip(CompressType::Zlib);
    round_trip(CompressType::Brotli);
    round_trip(CompressType::Zstd);
}

#[test]
fn a_compressed_payload_is_smaller_than_the_payload() {
    let b = built();
    let plain = b.write(CompressType::Uncompressed).unwrap();
    let packed = b.write(CompressType::Zstd).unwrap();
    assert!(packed.len() != plain.len());
    // The stored bytes are not the payload itself when a codec packs them.
    let (h, at) = read_header(&packed).unwrap();
    assert_eq!(h.compression, CompressType::Zstd);
    assert_ne!(&packed[at..], &b.payload()[..]);
}

#[test]
fn a_header_reads_back_and_wrong_magic_is_refused() {
    let b = built();
    let bytes = b.write(CompressType::Uncompressed).unwrap();
    let (h, _) = read_header(&bytes).unwrap();
    assert_eq!(h.magic, 0xDF23);
    assert_eq!(h.file_version, Version::SeparateVersioning);
    assert!(h.has_base_patch_url());
    assert_eq!(h.get_compressed_size(), h.decompressed_size);
    let mut bad = bytes.clone();
    bad[0] = 0;
    assert_eq!(Clut::read(&bad).unwrap_err(), ClutError::BadMagic(0xDF00));
    let mut old = bytes.clone();
    old[2] = 1;
    assert_eq!(Clut::read(&old).unwrap_err(), ClutError::UnsupportedVersion(Version::Initial));
    let truncated = &bytes[..bytes.len() - 1];
    assert!(Clut::read(truncated).is_err());
}

#[test]
fn the_version_table_is_sorted_and_each_reference_names_its_patch() {
    let b = built();
    let bytes = b.write(CompressType::Uncompressed).unwrap();
    let clut = Clut::read(&bytes).unwrap();
    let dat = clut.files.iter().find(|f| f.path == "sqpack/ffxiv/000000.win32.dat0").unwrap();
    assert!(dat.refs.iter().all(|r| r.applied_version().to_string() == "H2017.06.06.0000.0001a"));
    let ver = clut.files.iter().find(|f| f.path == "game/ffxivgame.ver").unwrap();
    assert_eq!(ver.refs.len(), 2);
    assert!(matches!(ver.refs[0].kind(), RefKind::Patch { .. }));
}

#[test]
fn a_builder_resumes_from_a_clut_and_writes_the_same_payload() {
    let b = built();
    let bytes = b.write(CompressType::Brotli).unwrap();
    let clut = Clut::read(&bytes).unwrap();
    let again = ClutBuilder::from_clut(&clut);
    assert_eq!(again.payload(), b.payload());
    let stats = again.stats();
    assert_eq!(stats.folder_count, 1);
    assert_eq!(stats.file_count, 2);
    assert_eq!(stats.unique_patch_count, 2);
}

#[test]
fn an_empty_clut_has_the_default_header() {
    let c = Clut::new();
    assert_eq!(c.header.repository, "UNKNOWN");
    assert_eq!(c.header.magic, CLUT_MAGIC);
    assert!(!c.header.has_base_patch_url());
    assert!(c.folders.is_empty() && c.files.is_empty());
}
