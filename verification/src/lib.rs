//! An embedded, single-file, transactional page store in the bbolt/LMDB
//! family: a paged file with double-buffered meta (superblock) slots, a
//! free-page lifecycle under MVCC (free / pending / allocated), a
//! single-writer multi-reader transaction lifecycle with copy-on-write
//! updates, and batch-commit coalescing.
//!
//! The store is modelled over an in-memory paged image; the B+tree node
//! format and key-value layer are outside collaborators that hand this core
//! a root page id, page allocation and free requests, and page bytes to
//! stage at commit.
use vstd::prelude::*;

pub mod batch;
pub mod codec;
pub mod db;
pub mod errors;
pub mod freelist;
pub mod meta;
pub mod options;
pub mod stats;
pub mod store;

verus! {

} // verus!
