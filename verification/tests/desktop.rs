use idm_rust::desktop::{
    invoke_download, pause_download, resume_download, AppState, ProgressStatus, ProgressTracker,
};
use idm_rust::text::{eq_ignore_ascii_case, push_decimal};

#[test]
fn invoke_assigns_sequential_ids() {
    let mut state = AppState::new();
    let first = invoke_download(&mut state, "https://h/a.bin".to_string(), 0).unwrap();
    assert_eq!(first.download_id, "dl-1");
    assert_eq!(first.filename, "a.bin");
    assert_eq!(first.connections, 1);
    assert_eq!(first.url, "https://h/a.bin");
    let second = invoke_download(&mut state, "https://h/b.bin".to_string(), 6).unwrap();
    assert_eq!(second.download_id, "dl-2");
    assert!(second.cancel != first.cancel);
    // Both registrations keep their own entries.
    assert_eq!(pause_download(&state, &first.download_id).unwrap().filename, "a.bin");
    assert_eq!(pause_download(&state, &second.download_id).unwrap().filename, "b.bin");
    assert_eq!(second.connections, 6);
}

#[test]
fn invoke_refuses_url_without_filename_but_uses_up_id() {
    let mut state = AppState::new();
    let err = invoke_download(&mut state, "https://h/".to_string(), 2).err().unwrap();
    assert_eq!(err, "Invalid URL — could not extract a filename");
    assert_eq!(
        pause_download(&state, &"dl-1".to_string()).err().unwrap(),
        "Download not found"
    );
    let job = invoke_download(&mut state, "https://h/c".to_string(), 2).unwrap();
    assert_eq!(job.download_id, "dl-2");
}

#[test]
fn pause_finds_registered_download() {
    let mut state = AppState::new();
    let job = invoke_download(&mut state, "https://h/a.bin".to_string(), 4).unwrap();
    assert!(!job.cancel.is_cancelled());
    let order = pause_download(&state, &job.download_id).unwrap();
    assert_eq!(order.filename, "a.bin");
    // The order carries the running task's token.
    assert!(order.cancel == job.cancel);
    order.cancel.cancel();
    assert!(job.cancel.is_cancelled());
    assert_eq!(
        pause_download(&state, &"dl-9".to_string()).err().unwrap(),
        "Download not found"
    );
}

#[test]
fn resume_hands_out_new_token() {
    let mut state = AppState::new();
    let job = invoke_download(&mut state, "https://h/a.bin".to_string(), 3).unwrap();
    pause_download(&state, &job.download_id).unwrap().cancel.cancel();
    let again = resume_download(&mut state, &job.download_id).unwrap();
    assert!(again.cancel != job.cancel);
    assert_eq!(again.download_id, "dl-1");
    assert_eq!(again.url, "https://h/a.bin");
    assert_eq!(again.connections, 3);
    assert_eq!(again.filename, "a.bin");
    assert!(!again.cancel.is_cancelled());
    let order = pause_download(&state, &job.download_id).unwrap();
    assert!(order.cancel == again.cancel);
    order.cancel.cancel();
    assert!(again.cancel.is_cancelled());
    assert_eq!(
        resume_download(&mut state, &"dl-7".to_string()).err().unwrap(),
        "Download not found"
    );
}

#[test]
fn progress_tracker_counts_deltas() {
    let mut t = ProgressTracker::new(40, 0);
    assert!(!t.knows_total());
    t.record(10);
    assert_eq!(t.downloaded, 50);
    assert!(!t.is_done());
    assert_eq!(t.final_status(), None);
    t.set_total(100);
    assert_eq!(t.new_bytes(), 10);
    assert_eq!(t.remaining_bytes(), 50);
    assert_eq!(t.running_status(), ProgressStatus::Downloading);
    assert_eq!(t.final_status(), Some(ProgressStatus::Paused));
    t.record(60);
    assert!(t.is_done());
    assert_eq!(t.remaining_bytes(), 0);
    assert_eq!(t.running_status(), ProgressStatus::Complete);
    assert_eq!(t.final_status(), Some(ProgressStatus::Complete));
    assert_eq!(ProgressStatus::Complete.label(), "complete");
    assert_eq!(ProgressStatus::Paused.label(), "paused");
    assert_eq!(ProgressStatus::Downloading.label(), "downloading");
}

#[test]
fn new_bytes_saturates() {
    let t = ProgressTracker { already_downloaded: 10, downloaded: 5, total_bytes: 3 };
    assert_eq!(t.new_bytes(), 0);
    assert_eq!(t.remaining_bytes(), 0);
}

#[test]
fn decimal_and_case_folding() {
    let mut s = String::from("n=");
    push_decimal(&mut s, 0);
    push_decimal(&mut s, 1234567890);
    assert_eq!(s, "n=01234567890");
    let mut m = String::new();
    push_decimal(&mut m, u64::MAX);
    assert_eq!(m, u64::MAX.to_string());
    assert!(eq_ignore_ascii_case("Bytes", "bYTES"));
    assert!(eq_ignore_ascii_case("", ""));
    assert!(!eq_ignore_ascii_case("bytes", "byte"));
    assert!(!eq_ignore_ascii_case("é", "É"));
    assert!(eq_ignore_ascii_case("@[`{", "@[`{"));
    assert!(!eq_ignore_ascii_case("@", "`"));
}
