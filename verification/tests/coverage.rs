use xiv_core::chunk::{Chunk, CompressedBlock};
use xiv_core::clut::CompressType;
use xiv_core::coverage::{
    count_unsupplied, cover, cover_luts, covered, dat_target, index_entries, key, merge,
    merge_spans, spans_for, Spans,
};
use xiv_core::lut::Lut;
use xiv_core::version::PatchVersion;

const DAT0: &str = "/sqpack/ffxiv/000000.%PLACEHOLDER%.dat0";

fn lut(chunks: Vec<Chunk>) -> Lut {
    Lut {
        compression: CompressType::Uncompressed,
        repository: "4e9a232b".to_string(),
        version: PatchVersion::epoch(),
        chunks,
    }
}

fn ranges(spans: &Spans, target: &str) -> Vec<(u64, u64)> {
    spans_for(spans, &target.to_string()).to_vec()
}

#[test]
fn key_resolves_platform_trims_and_lowers() {
    assert_eq!(key(DAT0), "sqpack/ffxiv/000000.win32.dat0");
    assert_eq!(key("\\SqPack\\FFXIV\\ABC.Dat1"), "sqpack/ffxiv/abc.dat1");
    assert_eq!(key("//boot/ffxivboot.exe"), "boot/ffxivboot.exe");
}

#[test]
fn merge_joins_overlapping_and_touching_ranges() {
    let merged = merge(vec![(10, 20), (0, 5), (5, 8), (30, 40), (15, 25)]);
    assert_eq!(merged, vec![(0, 8), (10, 25), (30, 40)]);
}

#[test]
fn merge_keeps_gaps_and_empty_input() {
    assert_eq!(merge(vec![]), Vec::<(u64, u64)>::new());
    assert_eq!(merge(vec![(4, 6), (0, 3)]), vec![(0, 3), (4, 6)]);
    assert_eq!(merge(vec![(1, 9), (2, 3), (1, 9)]), vec![(1, 9)]);
}

#[test]
fn merge_keeps_every_covered_offset() {
    let input = vec![(3, 7), (20, 22), (6, 12), (12, 13), (0, 1)];
    let merged = merge(input.clone());
    for x in 0..30u64 {
        let before = input.iter().any(|&(s, e)| s <= x && x < e);
        assert_eq!(covered(&merged, x), before, "offset {x}");
    }
    for pair in merged.windows(2) {
        assert!(pair[0].1 < pair[1].0);
    }
}

#[test]
fn covered_finds_offsets_inside_ranges_only() {
    let spans = vec![(0, 8), (10, 25), (30, 40)];
    assert!(covered(&spans, 0));
    assert!(covered(&spans, 7));
    assert!(!covered(&spans, 8));
    assert!(!covered(&spans, 9));
    assert!(covered(&spans, 24));
    assert!(!covered(&spans, 25));
    assert!(covered(&spans, 39));
    assert!(!covered(&spans, 40));
    assert!(!covered(&[], 0));
}

fn index_body() -> Vec<u8> {
    let mut body = vec![0u8; 0x60];
    body[0x0C..0x10].copy_from_slice(&0x10u32.to_le_bytes());
    body[0x18..0x1C].copy_from_slice(&0x40u32.to_le_bytes());
    body[0x1C..0x20].copy_from_slice(&32u32.to_le_bytes());
    body[0x48..0x4C].copy_from_slice(&0x1234u32.to_le_bytes());
    body[0x58..0x5C].copy_from_slice(&0xF3u32.to_le_bytes());
    body
}

#[test]
fn index_entries_reads_dat_numbers_and_offsets() {
    let entries = index_entries(&index_body()).unwrap();
    assert_eq!(entries, vec![(2, 0x1230 * 8), (1, 0xF0 * 8)]);
}

#[test]
fn index_entries_rounds_the_table_length_up() {
    let mut body = index_body();
    body[0x1C..0x20].copy_from_slice(&17u32.to_le_bytes());
    assert_eq!(index_entries(&body).unwrap().len(), 2);
    body[0x1C..0x20].copy_from_slice(&0u32.to_le_bytes());
    assert_eq!(index_entries(&body).unwrap(), vec![]);
}

#[test]
fn index_entries_reports_where_the_body_ends_too_soon() {
    assert_eq!(index_entries(&[0u8; 8]), Err(0x0C));
    let mut body = vec![0u8; 0x10];
    body[0x0C..0x10].copy_from_slice(&0x100u32.to_le_bytes());
    assert_eq!(index_entries(&body), Err(0x108));
    let mut body = index_body();
    body.truncate(0x58);
    assert_eq!(index_entries(&body), Err(0x58));
}

#[test]
fn cover_records_what_each_chunk_writes() {
    let mut files: Spans = Vec::new();
    cover(
        &mut files,
        &lut(vec![
            Chunk::SqpkAddData {
                target: DAT0.to_string(),
                block_offset: 0x800,
                block_number: 0x100,
                block_delete_number: 0x80,
                patch_offset: 0,
            },
            Chunk::SqpkHeader { target: DAT0.to_string(), header_kind: 86, patch_offset: 0 },
            Chunk::SqpkHeader { target: DAT0.to_string(), header_kind: 68, patch_offset: 0 },
            Chunk::SqpkDeleteData {
                target: "/sqpack/ffxiv/000000.%PLACEHOLDER%.dat1".to_string(),
                block_offset: 16,
                block_number: 4,
            },
            Chunk::AddDirectory("movie".to_string()),
        ]),
    );
    assert_eq!(
        ranges(&files, "sqpack/ffxiv/000000.win32.dat0"),
        vec![(0x800, 0x980), (0, 1024), (1024, 2048)]
    );
    assert_eq!(ranges(&files, "sqpack/ffxiv/000000.win32.dat1"), vec![(16, 20)]);
    assert_eq!(ranges(&files, "movie"), vec![]);
}

#[test]
fn cover_restarts_a_file_added_from_zero_and_forgets_a_deleted_one() {
    let blocks = vec![
        CompressedBlock { compressed_size: 10, data_size: 100, patch_offset: 0 },
        CompressedBlock { compressed_size: 10, data_size: 50, patch_offset: 10 },
    ];
    let mut files: Spans = Vec::new();
    cover(
        &mut files,
        &lut(vec![
            Chunk::SqpkExpandData { target: "/game/a.bin".to_string(), block_offset: 0, block_number: 9 },
            Chunk::SqpkFileAdd { target: "/game/a.bin".to_string(), file_offset: 0, blocks: blocks.clone() },
            Chunk::SqpkFileAdd { target: "/game/a.bin".to_string(), file_offset: 150, blocks },
            Chunk::SqpkExpandData { target: "/game/b.bin".to_string(), block_offset: 0, block_number: 9 },
            Chunk::SqpkFileDelete { target: "/game/b.bin".to_string() },
        ]),
    );
    assert_eq!(ranges(&files, "game/a.bin"), vec![(0, 150), (150, 300)]);
    assert_eq!(ranges(&files, "game/b.bin"), vec![]);
}

#[test]
fn unsupplied_entries_are_counted_against_merged_ranges() {
    let first = lut(vec![Chunk::SqpkAddData {
        target: DAT0.to_string(),
        block_offset: 0,
        block_number: 0x1000,
        block_delete_number: 0,
        patch_offset: 0,
    }]);
    let second = lut(vec![Chunk::SqpkAddData {
        target: DAT0.to_string(),
        block_offset: 0x1000,
        block_number: 0x1000,
        block_delete_number: 0,
        patch_offset: 0,
    }]);
    let merged = merge_spans(cover_luts(&[first, second]));
    assert_eq!(ranges(&merged, "sqpack/ffxiv/000000.win32.dat0"), vec![(0, 0x2000)]);
    assert_eq!(dat_target("ffxiv", "000000.win32", 0), "sqpack/ffxiv/000000.win32.dat0");
    let entries = vec![(0, 0x10), (0, 0x1FFF), (0, 0x2000), (1, 0x10)];
    assert_eq!(count_unsupplied(&merged, "ffxiv", "000000.win32", &entries), 2);
}
