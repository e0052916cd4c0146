//! The SSH front door: which public keys authenticate, and as whom.

pub mod auth;
