use std::path::PathBuf;

use idm_rust::downloader::{
    after_segment, check_head, effective_connections, filename_from_url_path, finish,
    pending_segments, range_header, record_chunk, resume_or_new, segment_step, split_ranges,
    url_to_filename, AwaitStep, DownloadError, DownloadState, Finish, SegmentState, SegmentStep,
    StreamEvent,
};

#[test]
fn test_split_ranges_even() {
    let ranges = split_ranges(100, 4);
    assert_eq!(ranges.len(), 4);
    assert_eq!(ranges[0].start, 0);
    assert_eq!(ranges[0].end, 24);
    assert_eq!(ranges[1].start, 25);
    assert_eq!(ranges[1].end, 49);
    assert_eq!(ranges[2].start, 50);
    assert_eq!(ranges[2].end, 74);
    assert_eq!(ranges[3].start, 75);
    assert_eq!(ranges[3].end, 99);
}

#[test]
fn test_split_ranges_uneven() {
    // 10 bytes, 3 segments → 4 + 3 + 3
    let ranges = split_ranges(10, 3);
    assert_eq!(ranges.len(), 3);
    assert_eq!(ranges[0].start, 0);
    assert_eq!(ranges[0].end, 3); // 4 bytes
    assert_eq!(ranges[1].start, 4);
    assert_eq!(ranges[1].end, 6); // 3 bytes
    assert_eq!(ranges[2].start, 7);
    assert_eq!(ranges[2].end, 9); // 3 bytes
}

#[test]
fn test_split_ranges_single() {
    let ranges = split_ranges(50, 1);
    assert_eq!(ranges.len(), 1);
    assert_eq!(ranges[0].start, 0);
    assert_eq!(ranges[0].end, 49);
}

#[test]
fn test_url_to_filename() {
    let name = url_to_filename("https://example.com/files/archive.zip").unwrap();
    assert_eq!(name, "archive.zip");
}

#[test]
fn test_url_to_filename_no_path() {
    let result = url_to_filename("https://example.com/");
    assert!(result.is_err());
}

#[test]
fn test_state_new() {
    let state = DownloadState::new("https://example.com/file.bin", "file.bin", 100, 4);
    assert_eq!(state.segments.len(), 4);
    assert_eq!(state.total_size, 100);
    assert!(!state.is_complete());
    assert_eq!(state.total_downloaded(), 0);
}

#[test]
fn test_segment_resume_offset() {
    let seg = SegmentState {
        start: 100,
        end: 199,
        bytes_written: 50,
    };
    assert_eq!(seg.resume_offset(), 150);
    assert_eq!(seg.remaining(), 50);
    assert!(!seg.is_complete());
}

#[test]
fn test_segment_complete() {
    let seg = SegmentState {
        start: 0,
        end: 99,
        bytes_written: 100,
    };
    assert!(seg.is_complete());
    assert_eq!(seg.remaining(), 0);
}

#[test]
fn test_state_complete() {
    let mut state = DownloadState::new("https://example.com/f.bin", "f.bin", 10, 2);
    // Manually mark all segments as complete.
    for seg in &mut state.segments {
        seg.bytes_written = seg.end - seg.start + 1;
    }
    assert!(state.is_complete());
    assert_eq!(state.total_downloaded(), 10);
}

#[test]
fn test_state_path() {
    let path = DownloadState::state_path("archive.zip");
    assert_eq!(PathBuf::from(path), PathBuf::from("archive.zip.idm.json"));
}

// --- further cases ---

#[test]
fn split_ranges_more_segments_than_bytes() {
    // 2 bytes over 4 segments: two one-byte ranges, then empty ones.
    let ranges = split_ranges(2, 4);
    let pairs: Vec<(u64, u64)> = ranges.iter().map(|r| (r.start, r.end)).collect();
    assert_eq!(pairs, vec![(0, 0), (1, 1), (2, 1), (2, 1)]);
}

#[test]
fn split_ranges_tile_the_file() {
    for (total, n) in [(1u64, 1usize), (7, 2), (1000, 7), (99, 10), (u64::MAX, 3)] {
        let ranges = split_ranges(total, n);
        assert_eq!(ranges.len(), n);
        assert_eq!(ranges[0].start, 0);
        assert_eq!(ranges[n - 1].end, total - 1);
        for i in 0..n - 1 {
            assert_eq!(ranges[i + 1].start, ranges[i].end + 1);
        }
        let sizes: Vec<u64> = ranges.iter().map(|r| r.end + 1 - r.start).collect();
        for (i, size) in sizes.iter().enumerate() {
            let extra = if (i as u64) < total % n as u64 { 1 } else { 0 };
            assert_eq!(*size, total / n as u64 + extra);
        }
    }
}

#[test]
fn fresh_state_records_arguments() {
    let state = DownloadState::new("https://example.com/a/b.iso", "b.iso", 10, 3);
    assert_eq!(state.url, "https://example.com/a/b.iso");
    assert_eq!(state.filename, "b.iso");
    let segs: Vec<(u64, u64, u64)> = state
        .segments
        .iter()
        .map(|s| (s.start, s.end, s.bytes_written))
        .collect();
    assert_eq!(segs, vec![(0, 3, 0), (4, 6, 0), (7, 9, 0)]);
}

#[test]
fn segment_remaining_never_negative() {
    let seg = SegmentState { start: 10, end: 19, bytes_written: 25 };
    assert_eq!(seg.remaining(), 0);
    assert!(seg.is_complete());
    assert_eq!(seg.resume_offset(), 35);
}

#[test]
fn empty_file_segments_count_as_complete() {
    let ranges = split_ranges(0, 3);
    let pairs: Vec<(u64, u64)> = ranges.iter().map(|r| (r.start, r.end)).collect();
    assert_eq!(pairs, vec![(0, u64::MAX), (0, u64::MAX), (0, u64::MAX)]);
    let state = DownloadState::new("u", "f", 0, 3);
    assert_eq!(state.segments[0].byte_len(), 0);
    assert!(state.is_complete());
    assert_eq!(state.total_downloaded(), 0);
    assert!(pending_segments(&state).is_empty());
    assert_eq!(finish(false, &state), Finish::Cleanup);
}

#[test]
fn more_connections_than_bytes() {
    let mut state = DownloadState::new("u", "f", 2, 4);
    assert_eq!(state.segments[2].byte_len(), 0);
    assert!(state.segments[2].is_complete());
    assert!(!state.is_complete());
    let idx: Vec<usize> = pending_segments(&state).iter().map(|(i, _)| *i).collect();
    assert_eq!(idx, vec![0, 1]);
    state.segments[0].bytes_written = 1;
    state.segments[1].bytes_written = 1;
    assert!(state.is_complete());
    assert_eq!(state.total_downloaded(), 2);
}

#[test]
fn malformed_segment_size_wraps() {
    let seg = SegmentState { start: 5, end: 0, bytes_written: 0 };
    assert_eq!(seg.byte_len(), u64::MAX - 3);
    assert_eq!(seg.remaining(), u64::MAX - 3);
    assert!(!seg.is_complete());
    let whole = SegmentState { start: 0, end: u64::MAX, bytes_written: 0 };
    assert_eq!(whole.byte_len(), 0);
    assert!(whole.is_complete());
}

#[test]
fn total_downloaded_wraps() {
    let mut state = DownloadState::new("u", "f", 10, 2);
    state.segments[0].bytes_written = u64::MAX;
    state.segments[1].bytes_written = 2;
    assert_eq!(state.total_downloaded(), 1);
}

#[test]
fn state_path_appends_suffix() {
    assert_eq!(DownloadState::state_path("x"), "x.idm.json");
    assert_eq!(DownloadState::state_path(""), ".idm.json");
}

#[test]
fn url_to_filename_cases() {
    assert_eq!(url_to_filename("http://host/a/b/c.tar.gz?x=1").unwrap(), "c.tar.gz");
    assert_eq!(url_to_filename("https://host/file").unwrap(), "file");
    assert!(matches!(url_to_filename("not a url"), Err(DownloadError::NoFilename)));
    assert!(matches!(url_to_filename("https://host/dir/"), Err(DownloadError::NoFilename)));
    assert!(matches!(url_to_filename("https://host"), Err(DownloadError::NoFilename)));
    // No path segments for a URL that cannot be a base.
    assert!(matches!(url_to_filename("mailto:me@example.com"), Err(DownloadError::NoFilename)));
}

#[test]
fn filename_from_url_path_cases() {
    assert_eq!(filename_from_url_path(Some("/files/archive.zip")).unwrap(), "archive.zip");
    assert_eq!(filename_from_url_path(Some("/only")).unwrap(), "only");
    assert_eq!(filename_from_url_path(Some("//x")).unwrap(), "x");
    assert!(matches!(filename_from_url_path(Some("/")), Err(DownloadError::NoFilename)));
    assert!(matches!(filename_from_url_path(Some("/a/")), Err(DownloadError::NoFilename)));
    assert!(matches!(filename_from_url_path(Some("")), Err(DownloadError::NoFilename)));
    assert!(matches!(filename_from_url_path(Some("rel/x")), Err(DownloadError::NoFilename)));
    assert!(matches!(filename_from_url_path(None), Err(DownloadError::NoFilename)));
}

#[test]
fn effective_connections_at_least_one() {
    assert_eq!(effective_connections(0), 1);
    assert_eq!(effective_connections(1), 1);
    assert_eq!(effective_connections(8), 8);
}

#[test]
fn check_head_cases() {
    assert_eq!(check_head(Some("bytes"), Some(42)).unwrap(), 42);
    assert_eq!(check_head(Some("BYTES"), Some(7)).unwrap(), 7);
    assert_eq!(check_head(Some("ByTeS"), Some(0)).unwrap(), 0);
    assert!(matches!(check_head(Some("none"), Some(7)), Err(DownloadError::RangeNotSupported)));
    assert!(matches!(check_head(Some("bytes "), Some(7)), Err(DownloadError::RangeNotSupported)));
    assert!(matches!(check_head(None, Some(7)), Err(DownloadError::RangeNotSupported)));
    assert!(matches!(check_head(None, None), Err(DownloadError::RangeNotSupported)));
    assert!(matches!(check_head(Some("bytes"), None), Err(DownloadError::UnknownContentLength)));
}

#[test]
fn resume_when_same_download_unfinished() {
    let mut saved = DownloadState::new("https://h/f.bin", "f.bin", 100, 4);
    saved.segments[2].bytes_written = 10;
    let existing = Some(saved);
    let (state, resuming) = resume_or_new(existing, "https://h/f.bin", "f.bin", 100, 8);
    assert!(resuming);
    assert_eq!(state.segments.len(), 4);
    assert_eq!(state.total_downloaded(), 10);
}

#[test]
fn fresh_state_when_saved_one_does_not_match() {
    let saved = DownloadState::new("https://h/f.bin", "f.bin", 100, 4);
    // Different size.
    let (state, resuming) = resume_or_new(Some(saved.clone()), "https://h/f.bin", "f.bin", 200, 2);
    assert!(!resuming);
    assert_eq!(state.total_size, 200);
    assert_eq!(state.segments.len(), 2);
    // Different URL.
    let (state, resuming) = resume_or_new(Some(saved.clone()), "https://h/g.bin", "g.bin", 100, 2);
    assert!(!resuming);
    assert_eq!(state.url, "https://h/g.bin");
    assert_eq!(state.filename, "g.bin");
    // Already complete.
    let mut done = saved;
    for seg in &mut done.segments {
        seg.bytes_written = seg.end - seg.start + 1;
    }
    let (state, resuming) = resume_or_new(Some(done), "https://h/f.bin", "f.bin", 100, 3);
    assert!(!resuming);
    assert_eq!(state.total_downloaded(), 0);
    assert_eq!(state.segments.len(), 3);
    // Nothing saved.
    let (_, resuming) = resume_or_new(None, "https://h/f.bin", "f.bin", 100, 3);
    assert!(!resuming);
}

#[test]
fn pending_segments_skip_finished() {
    let mut state = DownloadState::new("u", "f", 12, 3);
    state.segments[0].bytes_written = 4;
    state.segments[2].bytes_written = 1;
    let pending = pending_segments(&state);
    let idx: Vec<usize> = pending.iter().map(|(i, _)| *i).collect();
    assert_eq!(idx, vec![1, 2]);
    assert_eq!(pending[1].1.bytes_written, 1);
}

#[test]
fn range_header_text() {
    let seg = SegmentState { start: 100, end: 199, bytes_written: 50 };
    assert_eq!(range_header(&seg), "bytes=150-199");
    let seg = SegmentState { start: 0, end: 0, bytes_written: 0 };
    assert_eq!(range_header(&seg), "bytes=0-0");
    let seg = SegmentState { start: 9, end: u64::MAX, bytes_written: 1 };
    assert_eq!(range_header(&seg), format!("bytes=10-{}", u64::MAX));
}

#[test]
fn record_chunk_advances_offset_and_progress() {
    let mut state = DownloadState::new("u", "f", 100, 4);
    let next = record_chunk(&mut state, 1, 25, 10);
    assert_eq!(next, 35);
    assert_eq!(state.segments[1].bytes_written, 10);
    assert_eq!(state.total_downloaded(), 10);
    let next = record_chunk(&mut state, 1, next, 15);
    assert_eq!(next, 50);
    assert!(state.segments[1].is_complete());
    assert!(!state.segments[0].is_complete());
    assert_eq!(state.total_downloaded(), 25);
}

#[test]
fn after_segment_outcomes() {
    assert!(matches!(after_segment(false, 0, Ok(())), AwaitStep::Continue { cancelled: false }));
    assert!(matches!(after_segment(true, 0, Ok(())), AwaitStep::Continue { cancelled: true }));
    assert!(matches!(
        after_segment(false, 3, Err(DownloadError::Cancelled)),
        AwaitStep::Continue { cancelled: true }
    ));
    match after_segment(true, 2, Err(DownloadError::UnknownContentLength)) {
        AwaitStep::Fail(DownloadError::SegmentFailed { segment, source }) => {
            assert_eq!(segment, 2);
            assert!(matches!(*source, DownloadError::UnknownContentLength));
        }
        _ => panic!("expected a failure"),
    }
    let io = std::io::Error::new(std::io::ErrorKind::Other, "disk full");
    match after_segment(false, 5, Err(DownloadError::Io(io))) {
        AwaitStep::Fail(DownloadError::SegmentFailed { segment, source }) => {
            assert_eq!(segment, 5);
            match *source {
                DownloadError::Io(e) => assert_eq!(e.to_string(), "disk full"),
                _ => panic!("expected the I/O error"),
            }
        }
        _ => panic!("expected a failure"),
    }
}

#[test]
fn finish_cases() {
    let mut state = DownloadState::new("u", "f", 10, 2);
    assert_eq!(finish(true, &state), Finish::SaveAndCancel);
    assert_eq!(finish(false, &state), Finish::Save);
    for seg in &mut state.segments {
        seg.bytes_written = seg.end - seg.start + 1;
    }
    assert_eq!(finish(false, &state), Finish::Cleanup);
    assert_eq!(finish(true, &state), Finish::SaveAndCancel);
}

#[test]
fn segment_step_cases() {
    let mut state = DownloadState::new("u", "f", 100, 4);
    match segment_step(&mut state, 2, 50, StreamEvent::Chunk(7)) {
        SegmentStep::Next { offset } => assert_eq!(offset, 57),
        _ => panic!("expected to go on"),
    }
    assert_eq!(state.segments[2].bytes_written, 7);
    assert_eq!(state.total_downloaded(), 7);
    match segment_step(&mut state, 2, 57, StreamEvent::Cancelled) {
        SegmentStep::Stop { save, result } => {
            assert!(save);
            assert!(matches!(result, Err(DownloadError::Cancelled)));
        }
        _ => panic!("expected to stop"),
    }
    match segment_step(&mut state, 2, 57, StreamEvent::Finished) {
        SegmentStep::Stop { save, result } => {
            assert!(!save);
            assert!(result.is_ok());
        }
        _ => panic!("expected to stop"),
    }
    assert_eq!(state.total_downloaded(), 7);
}

#[test]
fn error_messages() {
    assert_eq!(
        DownloadError::RangeNotSupported.message(),
        "Server does not advertise Accept-Ranges: bytes"
    );
    assert_eq!(
        DownloadError::UnknownContentLength.message(),
        "Unable to determine Content-Length from HEAD response"
    );
    assert_eq!(DownloadError::NoFilename.message(), "Invalid URL — could not extract a filename");
    assert_eq!(
        DownloadError::Cancelled.message(),
        "Download was cancelled — state saved for resume"
    );
    assert_eq!(
        DownloadError::StateSerialize("bad json".to_string()).message(),
        "Failed to serialize/deserialize state: bad json"
    );
    let io = std::io::Error::new(std::io::ErrorKind::Other, "disk full");
    assert_eq!(DownloadError::Io(io).message(), "I/O error: disk full");
    let nested = DownloadError::SegmentFailed {
        segment: 12,
        source: Box::new(DownloadError::SegmentFailed {
            segment: 3,
            source: Box::new(DownloadError::Cancelled),
        }),
    };
    assert_eq!(
        nested.message(),
        "Segment 12 failed: Segment 3 failed: Download was cancelled — state saved for resume"
    );
}

#[test]
fn http_error_message() {
    let err = reqwest::Client::new().get("not a url").build().unwrap_err();
    let shown = err.to_string();
    assert_eq!(
        DownloadError::Http(err).message(),
        format!("HTTP request failed: {shown}")
    );
}
