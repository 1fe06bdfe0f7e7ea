//! Point-in-time performance counters for the store.
//!
//! `Stats` is a snapshot, not a live reference: callers diff two snapshots
//! with `sub` to obtain the counters for the span between them. Counter
//! arithmetic uses wrapping operations so that diffing and merging are
//! total.
use vstd::prelude::*;

verus! {

/// Counters gathered over one transaction and merged into the aggregate
/// `Stats` when the transaction closes.
#[derive(Clone, Copy, Debug, PartialEq, Eq, Structural)]
pub struct TxStats {
    /// Number of page allocations.
    pub page_count: i64,
    /// Total bytes allocated for pages.
    pub page_alloc: i64,
    /// Number of cursors created.
    pub cursor_count: i64,
    /// Number of node allocations.
    pub node_count: i64,
    /// Number of node rebalances.
    pub rebalance: i64,
    /// Number of node splits.
    pub split: i64,
    /// Number of node spills.
    pub spill: i64,
    /// Number of writes performed.
    pub write: i64,
}

impl Default for TxStats {
    /// All counters start at zero.
    fn default() -> (s: TxStats)
        ensures
            s == TxStats::zero(),
    {
        TxStats {
            page_count: 0,
            page_alloc: 0,
            cursor_count: 0,
            node_count: 0,
            rebalance: 0,
            split: 0,
            spill: 0,
            write: 0,
        }
    }
}

impl TxStats {
    /// The all-zero counter set.
    pub open spec fn zero() -> TxStats {
        TxStats {
            page_count: 0,
            page_alloc: 0,
            cursor_count: 0,
            node_count: 0,
            rebalance: 0,
            split: 0,
            spill: 0,
            write: 0,
        }
    }

    /// What `add` returns: the field-wise wrapping sum of two counter sets.
    pub open spec fn add_spec(self, o: TxStats) -> TxStats {
        TxStats {
            page_count: vstd::wrapping::i64_specs::wrapping_add(self.page_count, o.page_count),
            page_alloc: vstd::wrapping::i64_specs::wrapping_add(self.page_alloc, o.page_alloc),
            cursor_count: vstd::wrapping::i64_specs::wrapping_add(
                self.cursor_count,
                o.cursor_count,
            ),
            node_count: vstd::wrapping::i64_specs::wrapping_add(self.node_count, o.node_count),
            rebalance: vstd::wrapping::i64_specs::wrapping_add(self.rebalance, o.rebalance),
            split: vstd::wrapping::i64_specs::wrapping_add(self.split, o.split),
            spill: vstd::wrapping::i64_specs::wrapping_add(self.spill, o.spill),
            write: vstd::wrapping::i64_specs::wrapping_add(self.write, o.write),
        }
    }

    /// What `sub` returns: the field-wise wrapping difference.
    pub open spec fn sub_spec(self, o: TxStats) -> TxStats {
        TxStats {
            page_count: vstd::wrapping::i64_specs::wrapping_sub(self.page_count, o.page_count),
            page_alloc: vstd::wrapping::i64_specs::wrapping_sub(self.page_alloc, o.page_alloc),
            cursor_count: vstd::wrapping::i64_specs::wrapping_sub(
                self.cursor_count,
                o.cursor_count,
            ),
            node_count: vstd::wrapping::i64_specs::wrapping_sub(self.node_count, o.node_count),
            rebalance: vstd::wrapping::i64_specs::wrapping_sub(self.rebalance, o.rebalance),
            split: vstd::wrapping::i64_specs::wrapping_sub(self.split, o.split),
            spill: vstd::wrapping::i64_specs::wrapping_sub(self.spill, o.spill),
            write: vstd::wrapping::i64_specs::wrapping_sub(self.write, o.write),
        }
    }

    /// Field-wise wrapping sum, used when a closing transaction merges its
    /// counters into the aggregate.
    pub fn add(&self, other: &TxStats) -> (r: TxStats)
        ensures
            r == self.add_spec(*other),
    {
        TxStats {
            page_count: self.page_count.wrapping_add(other.page_count),
            page_alloc: self.page_alloc.wrapping_add(other.page_alloc),
            cursor_count: self.cursor_count.wrapping_add(other.cursor_count),
            node_count: self.node_count.wrapping_add(other.node_count),
            rebalance: self.rebalance.wrapping_add(other.rebalance),
            split: self.split.wrapping_add(other.split),
            spill: self.spill.wrapping_add(other.spill),
            write: self.write.wrapping_add(other.write),
        }
    }

    /// Field-wise wrapping difference between two snapshots of the counters.
    pub fn sub(&self, other: &TxStats) -> (r: TxStats)
        ensures
            r == self.sub_spec(*other),
    {
        TxStats {
            page_count: self.page_count.wrapping_sub(other.page_count),
            page_alloc: self.page_alloc.wrapping_sub(other.page_alloc),
            cursor_count: self.cursor_count.wrapping_sub(other.cursor_count),
            node_count: self.node_count.wrapping_sub(other.node_count),
            rebalance: self.rebalance.wrapping_sub(other.rebalance),
            split: self.split.wrapping_sub(other.split),
            spill: self.spill.wrapping_sub(other.spill),
            write: self.write.wrapping_sub(other.write),
        }
    }
}

/// Aggregate statistics of a database, updated when a transaction closes.
#[derive(Clone, Copy, Debug, PartialEq, Eq, Structural)]
pub struct Stats {
    pub tx_stats: TxStats,
    pub free_page_n: i64,
    pub pending_page_n: i64,
    pub free_alloc: i64,
    pub freelist_inuse: i64,
    pub tx_n: i64,
    pub open_tx_n: i64,
}

impl Stats {
    /// A fresh statistics record with every counter at zero.
    pub fn new() -> (s: Stats)
        ensures
            s == Stats::zero(),
    {
        Stats {
            tx_stats: TxStats::default(),
            free_page_n: 0,
            pending_page_n: 0,
            free_alloc: 0,
            freelist_inuse: 0,
            tx_n: 0,
            open_tx_n: 0,
        }
    }

    /// The all-zero statistics record.
    pub open spec fn zero() -> Stats {
        Stats {
            tx_stats: TxStats::zero(),
            free_page_n: 0,
            pending_page_n: 0,
            free_alloc: 0,
            freelist_inuse: 0,
            tx_n: 0,
            open_tx_n: 0,
        }
    }

    /// Transaction-level counters aggregated over closed transactions.
    pub fn get_tx_stats(&self) -> (r: &TxStats)
        ensures
            *r == self.tx_stats,
    {
        &self.tx_stats
    }

    /// Total number of free pages on the freelist.
    pub fn get_free_page_n(&self) -> (r: i64)
        ensures
            r == self.free_page_n,
    {
        self.free_page_n
    }

    /// Total number of pending pages on the freelist.
    pub fn get_pending_page_n(&self) -> (r: i64)
        ensures
            r == self.pending_page_n,
    {
        self.pending_page_n
    }

    /// Total bytes allocated in free pages.
    pub fn get_free_alloc(&self) -> (r: i64)
        ensures
            r == self.free_alloc,
    {
        self.free_alloc
    }

    /// Total bytes used by the freelist.
    pub fn get_freelist_inuse(&self) -> (r: i64)
        ensures
            r == self.freelist_inuse,
    {
        self.freelist_inuse
    }

    /// Total number of started read transactions.
    pub fn get_tx_n(&self) -> (r: i64)
        ensures
            r == self.tx_n,
    {
        self.tx_n
    }

    /// Number of currently open read transactions.
    pub fn get_open_tx_n(&self) -> (r: i64)
        ensures
            r == self.open_tx_n,
    {
        self.open_tx_n
    }

    /// Replaces the aggregated transaction counters.
    pub fn set_tx_stats(&mut self, tx_stats: TxStats)
        ensures
            *final(self) == (Stats { tx_stats, ..*old(self) }),
    {
        self.tx_stats = tx_stats;
    }

    /// Replaces the free-page count.
    pub fn set_free_page_n(&mut self, free_page_n: i64)
        ensures
            *final(self) == (Stats { free_page_n, ..*old(self) }),
    {
        self.free_page_n = free_page_n;
    }

    /// Replaces the pending-page count.
    pub fn set_pending_page_n(&mut self, pending_page_n: i64)
        ensures
            *final(self) == (Stats { pending_page_n, ..*old(self) }),
    {
        self.pending_page_n = pending_page_n;
    }

    /// Replaces the free-page byte count.
    pub fn set_free_alloc(&mut self, free_alloc: i64)
        ensures
            *final(self) == (Stats { free_alloc, ..*old(self) }),
    {
        self.free_alloc = free_alloc;
    }

    /// Replaces the freelist byte usage.
    pub fn set_freelist_inuse(&mut self, freelist_inuse: i64)
        ensures
            *final(self) == (Stats { freelist_inuse, ..*old(self) }),
    {
        self.freelist_inuse = freelist_inuse;
    }

    /// Replaces the started-transaction count.
    pub fn set_tx_n(&mut self, tx_n: i64)
        ensures
            *final(self) == (Stats { tx_n, ..*old(self) }),
    {
        self.tx_n = tx_n;
    }

    /// Replaces the open-transaction count.
    pub fn set_open_tx_n(&mut self, open_tx_n: i64)
        ensures
            *final(self) == (Stats { open_tx_n, ..*old(self) }),
    {
        self.open_tx_n = open_tx_n;
    }

    /// What `sub` returns against a present baseline: the rate counters
    /// (`tx_stats`, `tx_n`) are diffed, the point-in-time gauges are kept.
    pub open spec fn sub_spec(self, o: Stats) -> Stats {
        Stats {
            tx_stats: self.tx_stats.sub_spec(o.tx_stats),
            tx_n: vstd::wrapping::i64_specs::wrapping_sub(self.tx_n, o.tx_n),
            ..self
        }
    }

    /// The difference between two snapshots, for the span between the
    /// baseline `other` and `self`. Against a missing baseline this is the
    /// documented no-op: a copy of `self` is returned.
    pub fn sub(&self, other: Option<&Stats>) -> (r: Stats)
        ensures
            r == match other {
                None => *self,
                Some(o) => self.sub_spec(*o),
            },
    {
        match other {
            None => *self,
            Some(o) => Stats {
                tx_stats: self.tx_stats.sub(&o.tx_stats),
                free_page_n: self.free_page_n,
                pending_page_n: self.pending_page_n,
                free_alloc: self.free_alloc,
                freelist_inuse: self.freelist_inuse,
                tx_n: self.tx_n.wrapping_sub(o.tx_n),
                open_tx_n: self.open_tx_n,
            },
        }
    }
}

} // verus!
