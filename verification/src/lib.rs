//! Theme comments for audio files.

pub mod app;
pub mod audio_file;
pub mod candidates;
pub mod file_name;
pub mod finder_comment;
pub mod lookup;
pub mod lookup_service;
pub mod order;
pub mod paths;
pub mod patterns;
pub mod processor;
pub mod requests;
pub mod scoring;
pub mod songs;
pub mod tags;
pub mod text;
pub mod title_cache;
pub mod title_localizer;
