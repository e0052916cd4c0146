//! Core logic of the Unicorn self-hosted Git platform: repository
//! discovery, SSH key lookup and authentication decisions, dashboard
//! navigation state, byte-size formatting, metrics arithmetic,
//! configuration defaults and the shared domain models.

pub mod config;
pub mod error;
pub mod format;
pub mod git;
pub mod metrics;
pub mod models;
pub mod ssh;
pub mod text;
pub mod tui;
