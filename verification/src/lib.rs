//! A local-first structured note kernel: validated single-line content,
//! `{{...}}` link syntax, canonical storage form, rendered read models, the
//! use cases that read and write notes through a repository, the
//! sibling-chain rewiring a store performs, and the project index that the
//! maintenance tool keeps.
pub mod text;
pub mod domain;
pub mod syntax;
pub mod printing;
pub mod repository;
pub mod canonical;
pub mod links;
pub mod write;
pub mod read;
pub mod application;
pub mod structure;
pub mod laws;
pub mod project_index;
pub mod scan;
pub mod batch;
pub mod output;
