//! Reconciliation of a line-oriented package index with the relational store
//! that is authoritative for it.
//!
//! The library is the pure core of two operator-triggered batch jobs: the
//! import of fields that the index knows and the store lacks, and the
//! rewriting of the index in canonical form. Everything here works on plain
//! values; reading files, talking to the store and rendering progress are
//! left to the caller.
//!
//! - [`record`]: the records of the index.
//! - [`order`] and [`canonical`]: the canonical order of a record's
//!   dependencies.
//! - [`lines`]: a file as lines, and lines as a file.
//! - [`versions`]: the versions table of the store.
//! - [`git_import`]: the import of a record, of a file, and of a batch of
//!   files into the table.
//! - [`regenerate_index`]: the walk over the index, the canonical form of a
//!   file, the place of a package's file, and the order of a rewriting run.
//! - [`driver`]: the order of a batch run.

pub mod canonical;
pub mod driver;
pub mod git_import;
pub mod lines;
pub mod order;
pub mod record;
pub mod regenerate_index;
pub mod versions;
