//! Repository discovery on disk and per-repository summaries.

pub mod discovery;
pub mod error;
pub mod repository;
