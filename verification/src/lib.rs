//! Assemble `.gitignore` files from a catalog of templates.
//!
//! The crate holds the logic of a launcher workflow that puts together a
//! `.gitignore` file from template snippets: matching typed tokens against
//! the available templates, suggesting completions for the token being
//! typed, and combining the chosen templates into one deterministic,
//! cacheable output. Reading the catalog from disk, downloading template
//! archives and talking to the launcher are left to the surrounding
//! binary; this crate works on plain values, and its behavior is stated in
//! the contracts of its public functions.

pub mod builder;
pub mod hash;
pub mod query;
pub mod repository;
pub mod text;
