//! Policy knobs recognized when opening a database.
//!
//! These tune durability, growth and batching behaviour; none of them is
//! part of the hard invariants of the store.
use vstd::prelude::*;

verus! {

/// Which freelist backend the database uses. The two backends differ only
/// in lookup and allocation cost, never in semantics; the array backend
/// additionally guarantees that the smallest available page id is chosen.
#[derive(Clone, Copy, Debug, PartialEq, Eq, Structural)]
pub enum FreelistType {
    /// Sorted-array backend: smallest-fit allocation, best for keeping the
    /// file small.
    Array,
    /// Hash-set backend: constant-time average membership tests.
    HashMap,
}

impl FreelistType {
    /// The backend's name, as it appears in configuration.
    pub fn as_str(&self) -> (s: &'static str)
        ensures
            s@ =~= match self {
                FreelistType::Array => "array"@,
                FreelistType::HashMap => "hashmap"@,
            },
    {
        proof {
            reveal_strlit("array");
            reveal_strlit("hashmap");
        }
        match self {
            FreelistType::Array => "array",
            FreelistType::HashMap => "hashmap",
        }
    }
}

/// The options that can be set when opening a database.
#[derive(Clone, Copy, Debug, PartialEq, Eq, Structural)]
pub struct Options {
    /// How long to wait for the writer lock, in milliseconds; zero means
    /// wait indefinitely.
    pub timeout_ms: u64,
    /// Skip the sync after growing the file.
    pub no_grow_sync: bool,
    /// Do not persist the freelist at commit; trades a full rebuild at
    /// open time for write speed.
    pub no_freelist_sync: bool,
    /// Load the free pages when opening even in read-only mode.
    pub pre_load_freelist: bool,
    /// Which freelist backend to use.
    pub freelist_type: FreelistType,
    /// Open with a shared lock and reject write transactions.
    pub read_only: bool,
    /// Platform hints applied when mapping the file.
    pub mmap_flags: i32,
    /// Initial size of the mapping in bytes, to reduce remap contention;
    /// zero or anything below the current file size takes no effect.
    pub initial_mmap_size: u64,
    /// Page size override; zero means the platform default.
    pub page_size: usize,
    /// Skip the data sync after flushing dirty pages at commit.
    pub no_sync: bool,
    /// Pin mapped pages in physical memory.
    pub mlock: bool,
    /// Commit a pending batch once this many callers have joined it.
    pub max_batch_size: usize,
    /// Commit a pending batch this many milliseconds after its first
    /// caller joined, even if it is not full.
    pub max_batch_delay_ms: u64,
}

impl Options {
    /// The defaults: everything off, array freelist, platform page size,
    /// unbounded writer-lock wait.
    pub open spec fn default_spec() -> Options {
        Options {
            timeout_ms: 0,
            no_grow_sync: false,
            no_freelist_sync: false,
            pre_load_freelist: false,
            freelist_type: FreelistType::Array,
            read_only: false,
            mmap_flags: 0,
            initial_mmap_size: 0,
            page_size: 0,
            no_sync: false,
            mlock: false,
            max_batch_size: 0,
            max_batch_delay_ms: 0,
        }
    }
}

impl Default for Options {
    /// Returns the documented defaults.
    fn default() -> (o: Options)
        ensures
            o == Options::default_spec(),
    {
        Options {
            timeout_ms: 0,
            no_grow_sync: false,
            no_freelist_sync: false,
            pre_load_freelist: false,
            freelist_type: FreelistType::Array,
            read_only: false,
            mmap_flags: 0,
            initial_mmap_size: 0,
            page_size: 0,
            no_sync: false,
            mlock: false,
            max_batch_size: 0,
            max_batch_delay_ms: 0,
        }
    }
}

} // verus!
