use std::io::Write;
use xiv_core::data_ref::PatchRef;
use xiv_core::download::{
    byteranges_boundary, content_span, pair_with_ranges, plan_batches, sort_by_offset, split_range_data,
    ContentSpan, DownloadError,
};
use xiv_core::ranges::{MergedRange, RangeBatch, MAX_RANGES_PER_REQUEST, MAX_RANGE_HEADER_SIZE, MIN_RANGE_DISTANCE};

fn patch_ref(offset: u64, size: u32) -> PatchRef {
    PatchRef { offset, size, is_compressed: false }
}

#[test]
fn merges_adjacent_and_nearby_references() {
    let mut range = MergedRange::new(patch_ref(1000, 100));
    assert!(range.try_add(&patch_ref(1100, 100)), "contiguous");
    assert!(range.try_add(&patch_ref(1200 + MIN_RANGE_DISTANCE, 50)), "within the merge distance");
    assert_eq!(range.offset, 1000);
    assert_eq!(range.size, 250 + MIN_RANGE_DISTANCE);
    assert_eq!(range.parts.len(), 3);
}

#[test]
fn refuses_a_reference_past_the_merge_distance() {
    let mut range = MergedRange::new(patch_ref(0, 1024));
    assert!(!range.try_add(&patch_ref(1024 + MIN_RANGE_DISTANCE + 1, 16)));
    assert_eq!(range.size, 1024, "a refused reference must not grow the range");
    assert_eq!(range.parts.len(), 1);
}

#[test]
fn batches_many_ranges_within_the_documented_limits() {
    let mut batch = RangeBatch(vec![]);
    let mut added = 0;
    for i in 0..10_000u64 {
        if !batch.try_add(MergedRange::new(patch_ref(i * 1_000_000, 16))) {
            break;
        }
        added += 1;
    }
    assert!(added > 1, "multi-range requests are the point of batching");
    assert!(added <= MAX_RANGES_PER_REQUEST);
    assert!(batch.to_range_header().len() <= MAX_RANGE_HEADER_SIZE);
    assert!(batch.to_range_header().starts_with("bytes="));
}

#[test]
fn a_range_header_names_first_and_last_byte() {
    let range = MergedRange::new(patch_ref(1000, 100));
    assert_eq!(range.end(), 1099);
    assert_eq!(range.to_range_header_value(), "1000-1099");
    let mut batch = RangeBatch(vec![]);
    assert!(batch.try_add(range));
    assert!(batch.try_add(MergedRange::new(patch_ref(5000, 1))));
    assert_eq!(batch.to_range_header(), "bytes=1000-1099,5000-5000");
}

#[test]
fn a_merged_range_grows_to_the_farthest_end() {
    let mut range = MergedRange::new(patch_ref(0, 100));
    assert!(range.try_add(&patch_ref(10, 20)));
    assert_eq!(range.size, 100, "a part inside the range does not grow it");
    assert!(range.try_add(&patch_ref(50, 200)));
    assert_eq!(range.size, 250);
}

#[test]
fn reads_the_boundary_out_of_a_byteranges_content_type() {
    assert_eq!(
        byteranges_boundary("multipart/byteranges; boundary=04257D9608554D01"),
        Some("04257D9608554D01".to_owned())
    );
    assert_eq!(byteranges_boundary("multipart/byteranges;boundary=\"quoted\""), Some("quoted".to_owned()));
    // A single-range reply must not be mistaken for a multipart one.
    assert_eq!(byteranges_boundary("text/plain"), None);
    assert_eq!(byteranges_boundary("multipart/form-data; boundary=x"), None);
}

#[test]
fn a_boundary_is_found_whatever_the_case_and_after_other_parameters() {
    assert_eq!(
        byteranges_boundary("  Multipart/ByteRanges ; charset=x; junk; BOUNDARY = \"abc\" "),
        Some("abc".to_owned())
    );
    assert_eq!(byteranges_boundary("multipart/byteranges; charset=x"), None);
    assert_eq!(byteranges_boundary("multipart/byteranges"), None);
}

#[test]
fn a_plan_sorts_merges_and_batches_the_references() {
    let refs = [patch_ref(5_000_000, 10), patch_ref(100, 50), patch_ref(0, 100), patch_ref(5_000_020, 5)];
    let batches = plan_batches(&refs);
    assert_eq!(batches.len(), 1);
    let ranges = &batches[0].0;
    assert_eq!(ranges.len(), 2);
    assert_eq!((ranges[0].offset, ranges[0].size), (0, 150));
    assert_eq!(ranges[0].parts, vec![patch_ref(0, 100), patch_ref(100, 50)]);
    assert_eq!((ranges[1].offset, ranges[1].size), (5_000_000, 25));
    assert_eq!(ranges[1].parts, vec![patch_ref(5_000_000, 10), patch_ref(5_000_020, 5)]);
    assert_eq!(batches[0].to_range_header(), "bytes=0-149,5000000-5000024");
}

#[test]
fn a_plan_serves_every_reference_once() {
    let mut refs = Vec::new();
    for i in 0..1000u64 {
        // far apart, so that each reference forms a range of its own
        refs.push(patch_ref((997 * i) % 1000 * 10_000, 7));
    }
    let batches = plan_batches(&refs);
    assert!(batches.len() > 1, "a thousand ranges do not fit one request");
    let mut served: Vec<PatchRef> = Vec::new();
    for batch in &batches {
        assert!(!batch.0.is_empty() && batch.0.len() <= MAX_RANGES_PER_REQUEST);
        assert!(batch.to_range_header().len() <= MAX_RANGE_HEADER_SIZE);
        for range in &batch.0 {
            served.extend(range.parts.iter().copied());
        }
    }
    let mut expected = refs.clone();
    expected.sort_by_key(|r| r.offset);
    assert_eq!(served, expected);
}

#[test]
fn equal_offsets_keep_their_order_when_sorted() {
    let a = PatchRef { offset: 10, size: 1, is_compressed: false };
    let b = PatchRef { offset: 10, size: 2, is_compressed: true };
    let c = PatchRef { offset: 5, size: 3, is_compressed: false };
    assert_eq!(sort_by_offset(&[a, b, c]), vec![c, a, b]);
}

#[test]
fn reply_parts_are_paired_with_the_range_they_carry() {
    let ranges = [MergedRange::new(patch_ref(0, 10)), MergedRange::new(patch_ref(100, 5))];
    let parts = vec![
        (ContentSpan { first_byte: 100, last_byte: 104 }, vec![1u8; 5]),
        (ContentSpan { first_byte: 0, last_byte: 9 }, vec![2u8; 10]),
    ];
    let paired = pair_with_ranges(&ranges, &parts).unwrap();
    assert_eq!(paired[0].0.offset, 100);
    assert_eq!(paired[0].1, vec![1u8; 5]);
    assert_eq!(paired[1].0.offset, 0);
    let stray = vec![(ContentSpan { first_byte: 0, last_byte: 8 }, vec![0u8; 9])];
    assert_eq!(
        pair_with_ranges(&ranges, &stray).unwrap_err(),
        DownloadError::NoMatchingRange { first_byte: 0, last_byte: 8 }
    );
}

#[test]
fn a_content_range_names_the_span_of_a_reply() {
    assert_eq!(content_span(Some(&b"bytes 0-9/20"[..])), Ok(ContentSpan { first_byte: 0, last_byte: 9 }));
    assert_eq!(content_span(Some(&b"bytes 42-69/*"[..])), Err(DownloadError::NotByteRange));
    assert_eq!(content_span(Some(&b"bytes */20"[..])), Err(DownloadError::NotByteRange));
    assert_eq!(content_span(Some(&b"octets 0-9/20"[..])), Err(DownloadError::InvalidContentRange));
    assert_eq!(content_span(None), Err(DownloadError::MissingContentRange));
}

#[test]
fn a_range_is_cut_into_its_references_and_compressed_ones_inflate() {
    let payload = b"hello hello hello hello".to_vec();
    let mut encoder = flate2::write::DeflateEncoder::new(Vec::new(), flate2::Compression::default());
    encoder.write_all(&payload).unwrap();
    let deflated = encoder.finish().unwrap();
    let mut data = vec![7u8; 4];
    data.extend_from_slice(&deflated);
    let mut range = MergedRange::new(PatchRef { offset: 1000, size: 4, is_compressed: false });
    assert!(range.try_add(&PatchRef { offset: 1004, size: deflated.len() as u32, is_compressed: true }));
    let parts = split_range_data(&range, &data).unwrap();
    assert_eq!(parts[0].1, vec![7u8; 4]);
    assert_eq!(parts[1].1, payload);
    // Bytes that are not DEFLATE data do not inflate.
    let broken = vec![0xffu8; data.len()];
    assert_eq!(split_range_data(&range, &broken).unwrap_err(), DownloadError::Decompress);
}
