use vstd::prelude::*;
use vstd::string::{to_string_from_display_ensures, StringExecFns};

use crate::text::{decimal, push_decimal};

verus! {

/// `reqwest::Error`, carried through unchanged.
#[verifier::external_type_specification]
#[verifier::external_body]
pub struct ExReqwestError(reqwest::Error);

/// `std::io::Error`, carried through unchanged.
#[verifier::external_type_specification]
#[verifier::external_body]
pub struct ExIoError(std::io::Error);

/// Errors that can occur during a multi-segment download.
#[derive(Debug)]
pub enum DownloadError {
    /// HTTP request failed.
    Http(reqwest::Error),
    /// I/O error.
    Io(std::io::Error),
    /// Server does not advertise `Accept-Ranges: bytes`.
    RangeNotSupported,
    /// Unable to determine `Content-Length` from the HEAD response.
    UnknownContentLength,
    /// Invalid URL: no filename could be extracted.
    NoFilename,
    /// A segment failed; `segment` is its index.
    SegmentFailed { segment: usize, source: Box<DownloadError> },
    /// The download was cancelled; its state was saved for resume.
    Cancelled,
    /// Failed to serialize or deserialize the state.
    StateSerialize(String),
}

/// How the message of a failed segment starts: `Segment <n> failed: `,
/// followed by the message of the error it failed with.
pub open spec fn segment_failed_prefix(segment: usize) -> Seq<char> {
    "Segment "@ + decimal(segment as nat) + " failed: "@
}

/// `text` is the message of `e`. The texts of an HTTP or I/O error are what
/// those errors display.
pub open spec fn error_text(e: DownloadError, text: Seq<char>) -> bool
    decreases e,
{
    match e {
        DownloadError::Http(x) => exists|t: String|
            #[trigger] to_string_from_display_ensures::<reqwest::Error>(&x, t) && text == "HTTP request failed: "@
                + t@,
        DownloadError::Io(x) => exists|t: String|
            #[trigger] to_string_from_display_ensures::<std::io::Error>(&x, t) && text == "I/O error: "@ + t@,
        DownloadError::RangeNotSupported => text == "Server does not advertise Accept-Ranges: bytes"@,
        DownloadError::UnknownContentLength => text
            == "Unable to determine Content-Length from HEAD response"@,
        DownloadError::NoFilename => text == "Invalid URL — could not extract a filename"@,
        DownloadError::SegmentFailed { segment, source } => {
            let prefix = segment_failed_prefix(segment);
            &&& prefix.len() <= text.len()
            &&& text.take(prefix.len() as int) == prefix
            &&& error_text(*source, text.skip(prefix.len() as int))
        },
        DownloadError::Cancelled => text == "Download was cancelled — state saved for resume"@,
        DownloadError::StateSerialize(s) => text == "Failed to serialize/deserialize state: "@
            + s@,
    }
}

impl DownloadError {
    /// The error's message.
    pub fn message(&self) -> (text: String)
        ensures
            error_text(*self, text@),
        decreases self,
    {
        let text = match self {
            DownloadError::Http(e) => {
                let shown = e.to_string();
                let mut text = String::from_str("HTTP request failed: ");
                text.append(shown.as_str());
                text
            },
            DownloadError::Io(e) => {
                let shown = e.to_string();
                let mut text = String::from_str("I/O error: ");
                text.append(shown.as_str());
                text
            },
            DownloadError::RangeNotSupported => String::from_str(
                "Server does not advertise Accept-Ranges: bytes",
            ),
            DownloadError::UnknownContentLength => String::from_str(
                "Unable to determine Content-Length from HEAD response",
            ),
            DownloadError::NoFilename => String::from_str("Invalid URL — could not extract a filename"),
            DownloadError::SegmentFailed { segment, source } => {
                let inner = source.message();
                let mut text = String::from_str("Segment ");
                push_decimal(&mut text, *segment as u64);
                text.append(" failed: ");
                text.append(inner.as_str());
                proof {
                    let prefix = segment_failed_prefix(*segment);
                    assert(text@ == prefix + inner@);
                    assert(text@.take(prefix.len() as int) =~= prefix);
                    assert(text@.skip(prefix.len() as int) =~= inner@);
                }
                text
            },
            DownloadError::Cancelled => String::from_str(
                "Download was cancelled — state saved for resume",
            ),
            DownloadError::StateSerialize(s) => {
                let mut text = String::from_str("Failed to serialize/deserialize state: ");
                text.append(s.as_str());
                text
            },
        };
        text
    }
}

} // verus!

