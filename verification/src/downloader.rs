//! Byte-range planning, per-segment progress and the decisions taken while a
//! segmented download runs.

mod error;
mod ranges;
mod segment;
mod session;
mod state;
mod url;

pub use self::ranges::{
    lemma_segment_lengths_balanced, segment_end, segment_len, segment_start, split_ranges,
    ByteRange,
};
pub use self::segment::{
    lemma_byte_count_of_range, lemma_complete_iff_nothing_remains, lemma_resume_covers_remaining,
    u64_modulus, SegmentState,
};
pub use self::state::{
    all_done, bytes_written_sum, fresh_segments, lemma_all_segments_written_completes,
    lemma_fresh_segments_tile, lemma_fresh_state_not_complete, lemma_sum_update,
    lemma_tiled_state_progress, lemma_tiling_progress, mark_all_done, tiles_file, written_within, DownloadState,
};
pub use self::error::{error_text, segment_failed_prefix, DownloadError};
pub use self::url::{
    after_last_slash, filename_from_url_path, filename_of_path, last_path_segment,
    lemma_after_last_slash_is_last_piece, url_path,
    url_to_filename, view_of,
};
pub use self::session::{
    accepts_byte_ranges, after_segment, can_resume, check_head, effective_connections, finish,
    lemma_nothing_pending_iff_complete, lemma_pending_is_every_unfinished_segment,
    lemma_resume_iff_unfinished, pending_of, pending_segments, range_header,
    range_header_text, record_chunk, resume_or_new, segment_step, AwaitStep, Finish, SegmentStep,
    StreamEvent,
};
