//! Segmented download engine with pause and resume.
//!
//! A file is split into byte-range segments that are fetched independently;
//! the progress of every segment is kept in a [`downloader::DownloadState`]
//! so that an interrupted download can pick up where each segment stopped.

pub mod downloader;
pub mod text;
pub mod desktop;
