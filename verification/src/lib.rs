//! Runtime string translation with composable in-memory backends, a
//! current-locale resolver with a fallback policy, a source-text extractor
//! that discovers translation keys, and a reconciler that diffs discovered
//! keys against existing translations.

pub mod backend;
pub mod error;
pub mod extractor;
pub mod generator;
pub mod resolver;
pub mod text;
