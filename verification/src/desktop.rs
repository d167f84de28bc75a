//! The decisions of the desktop front end: which downloads are registered
//! under which ids, and how byte deltas add up to reported progress.

mod progress;
mod registry;

pub use self::progress::{
    final_status_of, lemma_final_status_matches_done, lemma_reaching_size_completes,
    lemma_recording_to_size_completes, ProgressStatus, ProgressTracker,
};
pub use self::registry::{
    counter_uses, download_id_text, entries_map, ids_below, ids_issued_below, invoke_download,
    invoke_step, keys_distinct, lemma_download_ids_distinct, lemma_invoke_step_fresh,
    lemma_registry_calls_keep_registrations, next_counter, no_filename_text, not_found_text,
    pause_download, registry_step, resume_download, same_details, uses_counter, AppState,
    AppStateView, DownloadHandle, DownloadJob, PauseOrder, RegistryCall,
};
