//! A minimal file-backed task journal.
//!
//! A journal is an ordered sequence of tasks held in one document. The
//! [`codec`] module defines the document encoding and a verified
//! encoder/decoder pair; the [`journal`] module offers the three operations
//! (add, complete, list) as pure functions from document content to new
//! content or rendered lines. All file handling stays with the caller.

pub mod cli;
pub mod codec;
pub mod journal;
pub mod task;
