//! Parsing of outline headline titles: marker level, state keyword, priority
//! cookie, trailing tags, and an optional properties drawer.

pub mod config;
pub mod drawer;
pub mod headline;
pub mod text;
pub mod title;
