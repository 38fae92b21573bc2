use hooddl::plan::{
    all_segments_complete, plan_segments, prepare_downloaders, resume_existing, segment_size,
    supports_ranges, PrepareError, SegmentRange,
};
use hooddl::progress::{ProgressTable, SegmentDownloadProgress};
use hooddl::segment::{
    range_header, segment_label, DownloadOptions, FileSegmentDownloader, RetryAction,
    SegmentError, TransferFailure, DEFAULT_CHUNK_SIZE,
};

fn opts(chunk: u64) -> DownloadOptions {
    DownloadOptions {
        chunk_size: chunk,
        cookies: vec!["a=b".to_string()],
        _headers: Vec::new(),
        retry_timeout: 15,
        retry_delay: 5,
        new_client_per_request: true,
    }
}

#[test]
fn default_options_use_one_mib_chunks() {
    let o = DownloadOptions::default();
    assert_eq!(o.chunk_size, 1048576);
    assert_eq!(DEFAULT_CHUNK_SIZE, 1048576);
    assert!(o.cookies.is_empty());
    assert_eq!(o.retry_delay, 0);
    assert!(!o.new_client_per_request);
}

#[test]
fn options_clone_keeps_everything() {
    let o = opts(7);
    let c = o.clone();
    assert_eq!(c.chunk_size, 7);
    assert_eq!(c.cookies, o.cookies);
    assert_eq!(c.retry_timeout, 15);
    assert!(c.new_client_per_request);
}

#[test]
fn new_downloaders_copy_their_arguments() {
    let o = opts(4);
    let d = FileSegmentDownloader::new("f", "http://u", 8, 4, &o);
    assert_eq!(d.filename, "f");
    assert_eq!(d.url, "http://u");
    assert_eq!((d.offset, d.size, d.progress), (8, 4, 0));
    let r = FileSegmentDownloader::new_with_progress("f", "http://u", 8, 4, 3, &o);
    assert_eq!(r.progress, 3);
    assert_eq!(r.options.cookies, o.cookies);
}

#[test]
fn plan_cuts_file_into_segments() {
    assert_eq!(
        plan_segments(10, 4),
        vec![
            SegmentRange { start: 0, size: 4 },
            SegmentRange { start: 4, size: 4 },
            SegmentRange { start: 8, size: 2 }
        ]
    );
    assert_eq!(plan_segments(8, 4).len(), 2);
    assert_eq!(plan_segments(1, 1), vec![SegmentRange { start: 0, size: 1 }]);
    assert_eq!(plan_segments(5, 100), vec![SegmentRange { start: 0, size: 5 }]);
}

#[test]
fn ranges_need_a_header_that_is_not_none() {
    assert!(!supports_ranges(None));
    assert!(!supports_ranges(Some(b"none")));
    assert!(supports_ranges(Some(b"bytes")));
    assert!(supports_ranges(Some(b"None")));
}

#[test]
fn resume_needs_file_and_matching_count() {
    let mut t: ProgressTable = ProgressTable::new();
    t.insert(0, SegmentDownloadProgress { offset: 0, size: 5, progress: 1 });
    t.insert(5, SegmentDownloadProgress { offset: 5, size: 5, progress: 2 });
    assert!(resume_existing(true, &t, 2));
    assert!(!resume_existing(false, &t, 2));
    assert!(!resume_existing(true, &t, 3));
}

#[test]
fn fresh_download_starts_every_segment_from_zero() {
    let segs = plan_segments(10, 5);
    let mut t: ProgressTable = ProgressTable::new();
    t.insert(99, SegmentDownloadProgress { offset: 99, size: 1, progress: 1 });
    let ds = prepare_downloaders("f", "u", &segs, &opts(2), &mut t, false).unwrap();
    assert_eq!(ds.len(), 2);
    assert_eq!((ds[1].offset, ds[1].size, ds[1].progress), (5, 5, 0));
    assert_eq!(t.len(), 2);
    assert_eq!(t.get(&5), Some(&SegmentDownloadProgress { offset: 5, size: 5, progress: 0 }));
    assert!(!all_segments_complete(&ds));
}

#[test]
fn resumed_download_takes_saved_progress() {
    let segs = plan_segments(10, 5);
    let mut t: ProgressTable = ProgressTable::new();
    t.insert(0, SegmentDownloadProgress { offset: 0, size: 5, progress: 5 });
    t.insert(5, SegmentDownloadProgress { offset: 5, size: 5, progress: 3 });
    let ds = prepare_downloaders("f", "u", &segs, &opts(2), &mut t, true).unwrap();
    assert_eq!(ds[0].progress, 5);
    assert_eq!(ds[1].progress, 3);
    assert_eq!(t.len(), 2);
}

#[test]
fn resumed_download_without_record_fails() {
    let segs = plan_segments(10, 5);
    let mut t: ProgressTable = ProgressTable::new();
    t.insert(0, SegmentDownloadProgress { offset: 0, size: 5, progress: 5 });
    t.insert(6, SegmentDownloadProgress { offset: 6, size: 4, progress: 3 });
    let e = prepare_downloaders("f", "u", &segs, &opts(2), &mut t, true).unwrap_err();
    assert_eq!(e, PrepareError::MissingSegment(5));
    assert_eq!(e.message(), "Existing progress does not contain segment offset 5");
}

#[test]
fn completion_needs_every_segment_full() {
    let o = opts(2);
    let ds = vec![
        FileSegmentDownloader::new_with_progress("f", "u", 0, 5, 5, &o),
        FileSegmentDownloader::new_with_progress("f", "u", 5, 5, 6, &o),
    ];
    assert!(all_segments_complete(&ds));
    let not = vec![FileSegmentDownloader::new_with_progress("f", "u", 0, 5, 4, &o)];
    assert!(!all_segments_complete(&not));
}

#[test]
fn zero_length_segment_is_refused() {
    let d = FileSegmentDownloader::new("f", "u", 3, 0, &opts(2));
    let e = d.check_length().unwrap_err();
    assert_eq!(e, SegmentError::ZeroLength);
    assert_eq!(e.message(), "Cannot download zero-length segment");
}

#[test]
fn chunks_are_requested_in_order_with_range_headers() {
    let mut d = FileSegmentDownloader::new("f", "u", 100, 10, &opts(4));
    let mut cursor = d.start_transfer();
    let mut seen = Vec::new();
    while let Some(req) = d.current_request(&cursor) {
        assert_eq!(req.timeout_secs, 15);
        seen.push((req.start, req.end, req.range_header.clone()));
        let len = req.end - req.start + 1;
        let report = d.record_chunk(&mut cursor, len);
        assert_eq!(report, SegmentDownloadProgress { offset: 100, size: 10, progress: d.progress });
    }
    assert_eq!(
        seen,
        vec![
            (100, 103, "bytes=100-103".to_string()),
            (104, 107, "bytes=104-107".to_string()),
            (108, 109, "bytes=108-109".to_string())
        ]
    );
    assert_eq!(d.progress, 10);
    assert_eq!(d.completion_message(), "Segment 100-109 complete");
    assert_eq!(d.label(), "Segment 100-109");
}

#[test]
fn resumed_segment_starts_after_its_progress() {
    let mut d = FileSegmentDownloader::new_with_progress("f", "u", 0, 10, 6, &opts(4));
    let cursor = d.start_transfer();
    let req = d.current_request(&cursor).unwrap();
    assert_eq!((req.start, req.end), (6, 9));
    let mut c = cursor;
    d.record_chunk(&mut c, 4);
    assert!(d.current_request(&c).is_none());
    assert_eq!(d.progress, 10);
}

#[test]
fn finished_segment_requests_nothing() {
    let d = FileSegmentDownloader::new_with_progress("f", "u", 0, 10, 10, &opts(4));
    let cursor = d.start_transfer();
    assert!(d.current_request(&cursor).is_none());
}

#[test]
fn oversized_response_passes_over_chunks_below_progress() {
    // the server ignores the range and sends the whole segment at once
    let mut d = FileSegmentDownloader::new("f", "u", 0, 12, &opts(4));
    let mut cursor = d.start_transfer();
    assert_eq!(d.current_request(&cursor).unwrap().start, 0);
    d.record_chunk(&mut cursor, 12);
    assert!(d.current_request(&cursor).is_none());
}

#[test]
fn failures_are_retried() {
    let d = FileSegmentDownloader::new("f", "u", 0, 12, &opts(4));
    assert_eq!(d.on_failure(TransferFailure::RequestFailed), RetryAction::RetryAfter(5));
    assert_eq!(d.on_failure(TransferFailure::BodyFailed), RetryAction::RetryNow);
}

#[test]
fn headers_and_labels() {
    assert_eq!(range_header(0, 1048575), "bytes=0-1048575");
    assert_eq!(segment_label(0, 1), "Segment 0-0");
    assert_eq!(segment_label(5, 0), "Segment 5-4");
}

#[test]
fn segment_size_gives_one_segment_per_connection_at_most() {
    assert_eq!(segment_size(10, 3), 4);
    assert_eq!(segment_size(9, 3), 3);
    assert_eq!(segment_size(1, 8), 1);
    assert_eq!(segment_size(100, 1), 100);
    for (len, conns) in [(10u64, 3u64), (7, 8), (1000, 7), (u64::MAX, 3)] {
        let s = segment_size(len, conns);
        assert!((len - 1) / s + 1 <= conns);
        assert_eq!(s as u128, (len as u128 + conns as u128 - 1) / conns as u128);
    }
    assert_eq!(plan_segments(10, segment_size(10, 3)).len(), 3);
}

#[test]
fn nonempty_segment_passes_length_check() {
    let d = FileSegmentDownloader::new("f", "u", 3, 1, &opts(2));
    assert!(d.check_length().is_ok());
}
