use url::Url;
use xunfei_ocr::download::{
    collect_results, compute_segments, config_from_parts, interpret_head_response, parse_u64,
    range_header_value, status_is_success, ChunkWriter, DownloadError, RangeCapability, Segment,
    SegmentEnd, XFConfig,
};
use xunfei_ocr::filemodel::write_chunk_into;
use xunfei_ocr::text::u64_to_decimal;

fn cap(supports_ranges: bool, total_length: u64) -> RangeCapability {
    RangeCapability { supports_ranges, total_length }
}

#[test]
fn probe_accepts_ranges_and_length() {
    let r = interpret_head_response(
        200,
        Some(&b"bytes".to_vec()),
        Some(&b"1000".to_vec()),
    );
    assert_eq!(r, Ok(cap(true, 1000)));
}

#[test]
fn probe_other_accept_ranges_value_means_unsupported() {
    let r = interpret_head_response(204, Some(&b"none".to_vec()), Some(&b"42".to_vec()));
    assert_eq!(r, Ok(cap(false, 42)));
}

#[test]
fn probe_missing_accept_ranges_means_unsupported() {
    let r = interpret_head_response(200, None, Some(&b"42".to_vec()));
    assert_eq!(r, Ok(cap(false, 42)));
}

#[test]
fn probe_404_fails_with_request_error() {
    let r = interpret_head_response(404, Some(&b"bytes".to_vec()), Some(&b"1000".to_vec()));
    assert_eq!(r, Err(DownloadError::RequestError));
}

#[test]
fn probe_missing_length_fails() {
    let r = interpret_head_response(200, Some(&b"bytes".to_vec()), None);
    assert_eq!(r, Err(DownloadError::MissingLengthError));
}

#[test]
fn probe_unparsable_length_fails() {
    let r = interpret_head_response(200, None, Some(&b"12x3".to_vec()));
    assert_eq!(r, Err(DownloadError::MissingLengthError));
}

#[test]
fn parse_u64_matches_std() {
    for s in [
        "0",
        "42",
        "+123",
        "",
        "+",
        "-1",
        " 7",
        "18446744073709551615",
        "18446744073709551616",
        "999999999999999999999999",
        "0x10",
    ] {
        assert_eq!(parse_u64(s.as_bytes()), s.parse::<u64>().ok(), "input {:?}", s);
    }
}

#[test]
fn status_classification() {
    assert!(!status_is_success(199));
    assert!(status_is_success(200));
    assert!(status_is_success(299));
    assert!(!status_is_success(300));
    assert!(!status_is_success(404));
}

#[test]
fn segments_1000_by_4() {
    let segs = compute_segments(&cap(true, 1000), 4);
    assert_eq!(
        segs,
        vec![
            Segment { start: 0, end: SegmentEnd::At(249), is_partial: true },
            Segment { start: 250, end: SegmentEnd::At(499), is_partial: true },
            Segment { start: 500, end: SegmentEnd::At(749), is_partial: true },
            Segment { start: 750, end: SegmentEnd::ToEnd, is_partial: true },
        ]
    );
}

#[test]
fn segments_without_range_support_are_one_full_fetch() {
    let segs = compute_segments(&cap(false, 1000), 4);
    assert_eq!(segs, vec![Segment { start: 0, end: SegmentEnd::At(999), is_partial: false }]);
    assert_eq!(range_header_value(&segs[0]), None);
}

#[test]
fn single_segment_request_is_one_full_fetch() {
    let segs = compute_segments(&cap(true, 1000), 1);
    assert_eq!(segs, vec![Segment { start: 0, end: SegmentEnd::At(999), is_partial: false }]);
}

#[test]
fn last_segment_absorbs_remainder() {
    let segs = compute_segments(&cap(true, 1003), 4);
    assert_eq!(segs.len(), 4);
    assert_eq!(segs[0].start, 0);
    assert_eq!(segs[1].start, 250);
    assert_eq!(segs[2].start, 500);
    assert_eq!(segs[3].start, 750);
    assert_eq!(segs[3].end, SegmentEnd::ToEnd);
}

#[test]
fn length_equal_to_segment_count_gives_one_byte_segments() {
    let segs = compute_segments(&cap(true, 4), 4);
    assert_eq!(
        segs,
        vec![
            Segment { start: 0, end: SegmentEnd::At(0), is_partial: true },
            Segment { start: 1, end: SegmentEnd::At(1), is_partial: true },
            Segment { start: 2, end: SegmentEnd::At(2), is_partial: true },
            Segment { start: 3, end: SegmentEnd::ToEnd, is_partial: true },
        ]
    );
    let resource: Vec<u8> = vec![10, 20, 30, 40];
    assert_eq!(simulate_download(&resource, 4, 3), resource);
}

#[test]
fn range_header_rendering() {
    let bounded = Segment { start: 250, end: SegmentEnd::At(499), is_partial: true };
    assert_eq!(range_header_value(&bounded), Some("bytes=250-499".to_string()));
    let open = Segment { start: 750, end: SegmentEnd::ToEnd, is_partial: true };
    assert_eq!(range_header_value(&open), Some("bytes=750-".to_string()));
}

#[test]
fn decimal_rendering() {
    assert_eq!(u64_to_decimal(0), "0");
    assert_eq!(u64_to_decimal(7), "7");
    assert_eq!(u64_to_decimal(1000), "1000");
    assert_eq!(u64_to_decimal(u64::MAX), "18446744073709551615");
}

#[test]
fn chunk_writer_advances_by_chunk_length() {
    let mut w = ChunkWriter::new(500);
    assert_eq!(w.record_chunk(&[1, 2, 3]), 500);
    assert_eq!(w.record_chunk(&[4, 5, 6, 7]), 503);
    assert_eq!(w.record_chunk(&[]), 507);
    assert_eq!(w.record_chunk(&[8]), 507);
}

/// Simulate a full ranged download: fetch every segment's slice of the
/// resource in chunks of the given size, interleaving the segments
/// round-robin as concurrent tasks would, each chunk written at its
/// writer's running offset.
fn simulate_download(resource: &[u8], segment_count: u64, chunk_size: usize) -> Vec<u8> {
    let total = resource.len() as u64;
    let segs = compute_segments(&cap(true, total), segment_count);
    let mut file = vec![0u8; resource.len()];
    let mut writers: Vec<ChunkWriter> = segs.iter().map(|s| ChunkWriter::new(s.start)).collect();
    let mut pending: Vec<&[u8]> = segs
        .iter()
        .map(|s| {
            let end = match s.end {
                SegmentEnd::At(e) => (e + 1) as usize,
                SegmentEnd::ToEnd => resource.len(),
            };
            &resource[s.start as usize..end]
        })
        .collect();
    let mut progressed = true;
    while progressed {
        progressed = false;
        for i in 0..pending.len() {
            if !pending[i].is_empty() {
                let take = chunk_size.min(pending[i].len());
                let (chunk, rest) = pending[i].split_at(take);
                pending[i] = rest;
                let off = writers[i].record_chunk(chunk);
                write_chunk_into(&mut file, off as usize, chunk);
                progressed = true;
            }
        }
    }
    file
}

#[test]
fn downloaded_bytes_sit_at_their_own_offsets() {
    let resource: Vec<u8> = (0..1000u32).map(|i| (i % 251) as u8).collect();
    for chunk_size in [1, 7, 64, 250, 1000] {
        let file = simulate_download(&resource, 4, chunk_size);
        assert_eq!(file, resource, "chunk size {}", chunk_size);
    }
}

#[test]
fn segment_completion_order_does_not_matter() {
    let resource: Vec<u8> = (0..1000u32).map(|i| (i * 7 % 256) as u8).collect();
    let segs = compute_segments(&cap(true, resource.len() as u64), 4);
    let mut file = vec![0u8; resource.len()];
    // Finish the segments back to front, each written in one piece.
    for s in segs.iter().rev() {
        let end = match s.end {
            SegmentEnd::At(e) => (e + 1) as usize,
            SegmentEnd::ToEnd => resource.len(),
        };
        let mut w = ChunkWriter::new(s.start);
        let off = w.record_chunk(&resource[s.start as usize..end]);
        write_chunk_into(&mut file, off as usize, &resource[s.start as usize..end]);
    }
    assert_eq!(file, resource);
    assert_eq!(file, simulate_download(&resource, 4, 33));
}

#[test]
fn rerunning_a_download_reproduces_the_same_file() {
    let resource: Vec<u8> = (0..1003u32).map(|i| (i * 31 % 256) as u8).collect();
    let first = simulate_download(&resource, 4, 17);
    let second = simulate_download(&resource, 4, 129);
    assert_eq!(first, second);
    assert_eq!(first, resource);
}

#[test]
fn collect_results_succeeds_only_when_all_segments_did() {
    let all_ok: Vec<Result<(), DownloadError>> = vec![Ok(()), Ok(()), Ok(()), Ok(())];
    assert_eq!(collect_results(&all_ok), Ok(()));
    let one_failed: Vec<Result<(), DownloadError>> =
        vec![Ok(()), Err(DownloadError::SegmentIoError), Ok(()), Ok(())];
    assert_eq!(collect_results(&one_failed), Err(DownloadError::DownloadFailedError));
    let empty: Vec<Result<(), DownloadError>> = vec![];
    assert_eq!(collect_results(&empty), Ok(()));
}

#[test]
fn read_config_derives_file_name_from_url_path() {
    let url = Url::parse(
        "https://gchat.qpic.cn/gchatpic_new/1713143151/522985738-2655748070-A153D83E6DEC52A9E016B889DCBDB0DE/0?term=2",
    )
    .unwrap();
    let uri = url.to_string();
    let config: XFConfig = XFConfig::read_config(url).unwrap();
    assert_eq!(config.task_num, 4);
    assert_eq!(config.path, "./img");
    assert_eq!(config.uri, uri);
    assert_eq!(config.file_name, "A153D83E6DEC52A9E016B889DCBDB0DE0.jpg");
}

#[test]
fn config_without_separator_is_rejected() {
    let chars: Vec<char> = "/plain/path/without/separator".chars().collect();
    let r = config_from_parts(&chars, "https://example.com/x".to_string());
    assert!(r.is_err());
}

#[test]
fn config_keeps_everything_after_last_separator() {
    let chars: Vec<char> = "/a-b/c-d/e".chars().collect();
    let r = config_from_parts(&chars, "u".to_string()).unwrap();
    assert_eq!(r.file_name, "de.jpg");
}
