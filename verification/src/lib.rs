//! Core of a small production-notes manager: items organised into a fixed
//! set of named categories, with reordering, sorting, a Markdown rendering,
//! and a verified textual codec for the persisted document.
pub mod codec;
pub mod drag;
pub mod ext;
pub mod markdown;
pub mod model;
pub mod sorting;
pub mod strutil;
