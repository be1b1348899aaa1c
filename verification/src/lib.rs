//! Canonical k-mer counting.
//!
//! The crate turns DNA sequence records into a table of occurrence counts,
//! one entry per canonical k-mer: each length-k window is folded together
//! with its reverse complement, packed into a reversible 2-bit integer key,
//! and tallied.  The counting pipeline is deterministic with respect to how
//! the sequence list is partitioned across workers.

pub mod canonical;
pub mod codec;
pub mod table;
pub mod counter;
pub mod ingest;
pub mod histogram;
