use vstd::prelude::*;
use vstd::string::StringExecFns;

verus! {

/// How a download is reported to the front end.
#[derive(Debug, Clone, Copy, PartialEq, Eq)]
pub enum ProgressStatus {
    Downloading,
    Complete,
    Paused,
}

impl ProgressStatus {
    /// The text the front end receives for this status.
    pub open spec fn label_text(self) -> Seq<char> {
        match self {
            ProgressStatus::Downloading => "downloading"@,
            ProgressStatus::Complete => "complete"@,
            ProgressStatus::Paused => "paused"@,
        }
    }

    /// The text the front end receives for this status.
    pub fn label(&self) -> (text: String)
        ensures
            text@ == self.label_text(),
    {
        match self {
            ProgressStatus::Downloading => String::from_str("downloading"),
            ProgressStatus::Complete => String::from_str("complete"),
            ProgressStatus::Paused => String::from_str("paused"),
        }
    }
}

/// Adds up the byte deltas of one running download.
#[derive(Debug, Clone, Copy)]
pub struct ProgressTracker {
    /// Bytes already on disk when the download (re)started.
    pub already_downloaded: u64,
    /// Bytes on disk now: what was there plus every delta received.
    pub downloaded: u64,
    /// Size of the file, 0 while unknown.
    pub total_bytes: u64,
}

impl ProgressTracker {
    /// The download has reached its known size.
    pub open spec fn done(self) -> bool {
        self.total_bytes > 0 && self.downloaded >= self.total_bytes
    }

    /// Start counting from what is already on disk.
    pub fn new(already_downloaded: u64, total_bytes: u64) -> (tracker: Self)
        ensures
            tracker.already_downloaded == already_downloaded,
            tracker.downloaded == already_downloaded,
            tracker.total_bytes == total_bytes,
    {
        ProgressTracker { already_downloaded, downloaded: already_downloaded, total_bytes }
    }

    /// Count `delta` more bytes.
    pub fn record(&mut self, delta: u64)
        requires
            old(self).downloaded + delta <= u64::MAX,
        ensures
            final(self).downloaded == old(self).downloaded + delta,
            final(self).already_downloaded == old(self).already_downloaded,
            final(self).total_bytes == old(self).total_bytes,
    {
        self.downloaded = self.downloaded + delta;
    }

    /// Whether the file's size is known yet.
    pub fn knows_total(&self) -> (known: bool)
        ensures
            known == (self.total_bytes > 0),
    {
        self.total_bytes > 0
    }

    /// Learn the file's size.
    pub fn set_total(&mut self, total_bytes: u64)
        ensures
            final(self).total_bytes == total_bytes,
            final(self).downloaded == old(self).downloaded,
            final(self).already_downloaded == old(self).already_downloaded,
    {
        self.total_bytes = total_bytes;
    }

    /// Whether the download has reached its known size.
    pub fn is_done(&self) -> (done: bool)
        ensures
            done == self.done(),
            done == (self.total_bytes > 0 && self.downloaded >= self.total_bytes),
    {
        self.total_bytes > 0 && self.downloaded >= self.total_bytes
    }

    /// Bytes received since the download (re)started.
    pub fn new_bytes(&self) -> (n: u64)
        ensures
            n == if self.downloaded >= self.already_downloaded {
                self.downloaded - self.already_downloaded
            } else {
                0
            },
    {
        self.downloaded.saturating_sub(self.already_downloaded)
    }

    /// Bytes still to come, never below zero.
    pub fn remaining_bytes(&self) -> (n: u64)
        ensures
            n == if self.total_bytes >= self.downloaded {
                self.total_bytes - self.downloaded
            } else {
                0
            },
    {
        self.total_bytes.saturating_sub(self.downloaded)
    }

    /// Status while deltas keep coming: complete once the size is reached.
    pub fn running_status(&self) -> (status: ProgressStatus)
        ensures
            status == if self.done() {
                ProgressStatus::Complete
            } else {
                ProgressStatus::Downloading
            },
            status == if self.total_bytes > 0 && self.downloaded >= self.total_bytes {
                ProgressStatus::Complete
            } else {
                ProgressStatus::Downloading
            },
    {
        if self.is_done() {
            ProgressStatus::Complete
        } else {
            ProgressStatus::Downloading
        }
    }

    /// Status once no more deltas come (see [`final_status_of`]).
    pub fn final_status(&self) -> (status: Option<ProgressStatus>)
        ensures
            status == final_status_of(*self),
            self.total_bytes == 0 ==> status == None::<ProgressStatus>,
            self.total_bytes > 0 && self.downloaded >= self.total_bytes ==> status == Some(
                ProgressStatus::Complete,
            ),
            self.total_bytes > 0 && self.downloaded < self.total_bytes ==> status == Some(
                ProgressStatus::Paused,
            ),
    {
        if self.total_bytes > 0 {
            if self.downloaded >= self.total_bytes {
                Some(ProgressStatus::Complete)
            } else {
                Some(ProgressStatus::Paused)
            }
        } else {
            None
        }
    }
}

/// Status once no more deltas come: nothing is reported while the size is
/// unknown; otherwise complete when the size was reached, paused if not.
pub open spec fn final_status_of(tracker: ProgressTracker) -> Option<ProgressStatus> {
    if tracker.total_bytes == 0 {
        None
    } else if tracker.downloaded >= tracker.total_bytes {
        Some(ProgressStatus::Complete)
    } else {
        Some(ProgressStatus::Paused)
    }
}

/// A tracker is done exactly when its size is known and the bytes on disk
/// have reached it; its last report is then complete. With the size known and
/// not reached the last report is paused, and with the size unknown there is
/// none.
pub proof fn lemma_reaching_size_completes(tracker: ProgressTracker)
    ensures
        tracker.done() <==> (tracker.total_bytes > 0 && tracker.downloaded >= tracker.total_bytes),
        tracker.total_bytes > 0 && tracker.downloaded >= tracker.total_bytes ==> final_status_of(
            tracker,
        ) == Some(ProgressStatus::Complete),
        tracker.total_bytes > 0 && tracker.downloaded < tracker.total_bytes ==> final_status_of(
            tracker,
        ) == Some(ProgressStatus::Paused),
        tracker.total_bytes == 0 ==> !tracker.done() && final_status_of(tracker) == None::<
            ProgressStatus,
        >,
{
}

/// Recording deltas that bring a tracker exactly to its known size makes it
/// done, whatever it started from.
pub proof fn lemma_recording_to_size_completes(before: ProgressTracker, delta: u64, after: ProgressTracker)
    requires
        after.downloaded == before.downloaded + delta,
        after.total_bytes == before.total_bytes,
        before.total_bytes > 0,
        before.downloaded + delta >= before.total_bytes,
    ensures
        after.done(),
        final_status_of(after) == Some(ProgressStatus::Complete),
{
}

/// Once the size is known, the last report says complete exactly when the
/// running reports would say complete, and paused otherwise.
pub proof fn lemma_final_status_matches_done(tracker: ProgressTracker)
    requires
        tracker.total_bytes > 0,
    ensures
        final_status_of(tracker) == Some(ProgressStatus::Complete) <==> tracker.done(),
        final_status_of(tracker) == Some(ProgressStatus::Paused) <==> !tracker.done(),
{
}

} // verus!
