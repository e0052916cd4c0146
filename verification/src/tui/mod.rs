//! The dashboard's state: navigation, sample history, theme and the text
//! of its labels.

pub mod app;
pub mod labels;
pub mod theme;
