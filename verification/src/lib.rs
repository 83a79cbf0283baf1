//! Extraction of structured history from a version-control repository.
//!
//! The crate models a repository as a value: a commit graph whose nodes
//! carry metadata and a full file snapshot. From that model it derives
//! ordered commit records with per-commit file deltas, and it models the
//! persistence layer that stores those records with idempotent upsert
//! semantics keyed by commit hash.

pub mod records;
pub mod repo;
pub mod walker;
pub mod differ;
pub mod assembler;
pub mod storage;
pub mod textgen;
pub mod workspace;
