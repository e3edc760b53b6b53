//! Core of a personal web site: ingestion of Markdown documents with a
//! structured header block, Markdown-to-HTML rendering with a math
//! post-processing pass, and an anonymous per-document view tracker.
pub mod date;
pub mod document;
pub mod duration;
pub mod frontmatter;
pub mod math;
pub mod numfmt;
pub mod render;
pub mod text;
pub mod views;
