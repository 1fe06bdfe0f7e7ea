//! The free-page lifecycle under MVCC.
//!
//! A page id is, at any time, in at most one of three places: the free set
//! (reusable now), some pending list (freed by a committed transaction,
//! reusable once no reader of an older snapshot remains), or allocated.
//! `free` never merges into the free set directly; it records the range
//! under the freeing transaction's id, and `release` moves a pending entry
//! into the free set only when told that no open reader can still reach
//! those pages.
use vstd::prelude::*;
use crate::codec::{get_u64_at, put_u64_at};
use crate::errors::Error;

verus! {

/// One past the largest page id the store will ever hand out; a file of
/// pages this numerous is far beyond any real backing file.
pub const MAX_PGID: u64 = 0x0100_0000_0000_0000;

/// Strictly ascending: sorted with no duplicates.
pub open spec fn sorted_strict(s: Seq<u64>) -> bool {
    forall|i: int, j: int| 0 <= i < j < s.len() ==> s[i] < s[j]
}

/// The pages freed by one committing transaction, keyed by its id.
#[derive(Debug)]
pub struct PendingEntry {
    /// The freeing transaction's id.
    pub txid: u64,
    /// The page ids it freed.
    pub ids: Vec<u64>,
}

/// Free-page tracker: the free set plus the pending lists.
#[derive(Debug)]
pub struct Freelist {
    /// Free page ids, strictly ascending.
    pub ids: Vec<u64>,
    /// Pending entries, strictly ascending by transaction id.
    pub pending: Vec<PendingEntry>,
}

impl Freelist {
    /// Whether `p` is in the free set.
    pub open spec fn is_free(self, p: u64) -> bool {
        self.ids@.contains(p)
    }

    /// Whether entry `k` holds page `p`.
    pub open spec fn entry_has(self, k: int, p: u64) -> bool {
        self.pending@[k].ids@.contains(p)
    }

    /// Whether `p` is pending under any transaction id.
    pub open spec fn in_pending(self, p: u64) -> bool {
        exists|k: int| 0 <= k < self.pending@.len() && self.entry_has(k, p)
    }

    /// Whether `p` is pending under transaction id `t`.
    pub open spec fn in_pending_tx(self, t: u64, p: u64) -> bool {
        exists|k: int|
            0 <= k < self.pending@.len() && self.pending@[k].txid == t && self.entry_has(k, p)
    }

    /// Whether `p` is pending under a transaction id at most `upto`.
    pub open spec fn in_pending_upto(self, p: u64, upto: u64) -> bool {
        exists|k: int|
            0 <= k < self.pending@.len() && self.pending@[k].txid <= upto && self.entry_has(k, p)
    }

    /// Whether some pending entry is keyed by `t`.
    pub open spec fn has_key(self, t: u64) -> bool {
        exists|k: int| 0 <= k < self.pending@.len() && self.pending@[k].txid == t
    }

    /// The id of the newest pending entry, or zero when there is none.
    pub open spec fn max_key(self) -> u64 {
        if self.pending@.len() == 0 {
            0
        } else {
            self.pending@.last().txid
        }
    }

    /// Whether `p` is tracked anywhere: free or pending.
    pub open spec fn tracks(self, p: u64) -> bool {
        self.is_free(p) || self.in_pending(p)
    }

    /// Well-formedness: the free set is strictly sorted and bounded, the
    /// pending entries are keyed in strictly ascending order, nonempty,
    /// duplicate-free and bounded, and every page id is tracked in at most
    /// one place.
    pub open spec fn wf(self) -> bool {
        &&& sorted_strict(self.ids@)
        &&& forall|i: int| 0 <= i < self.ids@.len() ==> 2 <= #[trigger] self.ids@[i] < MAX_PGID
        &&& forall|k1: int, k2: int|
            0 <= k1 < k2 < self.pending@.len() ==> #[trigger] self.pending@[k1].txid
                < #[trigger] self.pending@[k2].txid
        &&& forall|k: int| 0 <= k < self.pending@.len() ==> #[trigger] self.pending@[k].ids@.len() > 0
        &&& forall|k: int, i: int, j: int|
            0 <= k < self.pending@.len() && 0 <= i < j < self.pending@[k].ids@.len()
                ==> #[trigger] self.pending@[k].ids@[i] != #[trigger] self.pending@[k].ids@[j]
        &&& forall|k: int, i: int|
            0 <= k < self.pending@.len() && 0 <= i < self.pending@[k].ids@.len() ==> 2
                <= #[trigger] self.pending@[k].ids@[i] < MAX_PGID
        &&& forall|k: int, p: u64| 0 <= k < self.pending@.len() && #[trigger] self.entry_has(k, p)
            ==> !self.is_free(p)
        &&& forall|k1: int, k2: int, p: u64|
            0 <= k1 < k2 < self.pending@.len() ==> !(#[trigger] self.entry_has(k1, p)
                && #[trigger] self.entry_has(k2, p))
    }

    /// A fresh, empty freelist.
    pub fn new() -> (fl: Freelist)
        ensures
            fl.wf(),
            fl.ids@.len() == 0,
            fl.pending@.len() == 0,
    {
        Freelist { ids: Vec::new(), pending: Vec::new() }
    }

    /// Number of free pages.
    pub fn free_count(&self) -> (n: usize)
        ensures
            n == self.ids@.len(),
    {
        self.ids.len()
    }

    /// Number of pending pages over all entries, saturating at the machine
    /// word.
    pub fn pending_count(&self) -> (n: usize)
        ensures
            pending_total(self.pending@) <= usize::MAX ==> n == pending_total(self.pending@),
            pending_total(self.pending@) > usize::MAX ==> n == usize::MAX,
    {
        let mut n: usize = 0;
        let mut k: usize = 0;
        while k < self.pending.len()
            invariant
                k <= self.pending@.len(),
                pending_total(self.pending@.take(k as int)) <= usize::MAX ==> n == pending_total(
                    self.pending@.take(k as int),
                ),
                pending_total(self.pending@.take(k as int)) > usize::MAX ==> n == usize::MAX,
                n <= pending_total(self.pending@.take(k as int)),
            decreases self.pending@.len() - k,
        {
            proof {
                assert(self.pending@.take(k + 1).drop_last() =~= self.pending@.take(k as int));
                assert(self.pending@.take(k + 1).last() == self.pending@[k as int]);
            }
            n = n.saturating_add(self.pending[k].ids.len());
            k = k + 1;
        }
        proof {
            assert(self.pending@.take(self.pending@.len() as int) =~= self.pending@);
        }
        n
    }

    /// The pages pending under transaction id `t`, as a copied list; empty
    /// when no entry is keyed by `t`.
    pub fn pending_pages_of(&self, t: u64) -> (r: Vec<u64>)
        requires
            self.wf(),
        ensures
            forall|p: u64| r@.contains(p) <==> self.in_pending_tx(t, p),
    {
        let mut k: usize = 0;
        while k < self.pending.len()
            invariant
                self.wf(),
                k <= self.pending@.len(),
                forall|k2: int| 0 <= k2 < k ==> #[trigger] self.pending@[k2].txid != t,
            decreases self.pending@.len() - k,
        {
            if self.pending[k].txid == t {
                let r = self.pending[k].ids.clone();
                proof {
                    assert(r@ == self.pending@[k as int].ids@);
                    assert(forall|p: u64|
                        r@.contains(p) ==> self.entry_has(k as int, p) && self.in_pending_tx(t, p));
                    assert forall|p: u64| self.in_pending_tx(t, p) implies r@.contains(p) by {
                        let k2 = choose|k2: int|
                            0 <= k2 < self.pending@.len() && self.pending@[k2].txid == t
                                && self.entry_has(k2, p);
                        if k2 < k as int {
                            assert(self.pending@[k2].txid != t);
                        } else if k2 > k as int {
                            assert(self.pending@[k as int].txid < self.pending@[k2].txid);
                        }
                        assert(k2 == k as int);
                    }
                }
                return r;
            }
            k = k + 1;
        }
        proof {
            assert forall|p: u64| !self.in_pending_tx(t, p) by {
                if self.in_pending_tx(t, p) {
                    let k2 = choose|k2: int|
                        0 <= k2 < self.pending@.len() && self.pending@[k2].txid == t
                            && self.entry_has(k2, p);
                    assert(self.pending@[k2].txid != t);
                }
            }
        }
        Vec::new()
    }
}

impl Freelist {
    /// Whether `p` lies in one of the first `d` pending entries.
    pub open spec fn in_pending_before(self, p: u64, d: int) -> bool {
        exists|k: int| 0 <= k < d && k < self.pending@.len() && self.entry_has(k, p)
    }

    /// Records the range `pgid ..= pgid + overflow` as freed by
    /// transaction `txid`: it is appended to that transaction's pending
    /// entry, never merged into the free set directly.
    ///
    /// The caller vouches (and the store's invariant guarantees) that the
    /// range is currently allocated: tracked neither as free nor as
    /// pending, and that `txid` is the newest transaction id seen.
    pub fn free(&mut self, txid: u64, pgid: u64, overflow: u64)
        requires
            old(self).wf(),
            2 <= pgid,
            pgid + overflow < MAX_PGID,
            old(self).max_key() <= txid,
            forall|q: u64| pgid <= q <= pgid + overflow ==> !old(self).tracks(q),
        ensures
            final(self).wf(),
            final(self).ids@ == old(self).ids@,
            forall|t: u64, p: u64|
                final(self).in_pending_tx(t, p) <==> old(self).in_pending_tx(t, p) || (t == txid
                    && pgid <= p <= pgid + overflow),
            forall|p: u64|
                final(self).in_pending(p) <==> old(self).in_pending(p) || pgid <= p <= pgid
                    + overflow,
            forall|t: u64| final(self).has_key(t) <==> old(self).has_key(t) || t == txid,
            final(self).max_key() == txid,
            pending_total(final(self).pending@) == pending_total(old(self).pending@) + overflow
                + 1,
    {
        let n = self.pending.len();
        let mut entry: PendingEntry;
        if n == 0 {
            entry = PendingEntry { txid, ids: Vec::new() };
        } else if self.pending[n - 1].txid < txid {
            entry = PendingEntry { txid, ids: Vec::new() };
        } else {
            entry = self.pending.pop().unwrap();
        }
        let ghost base = entry.ids@;
        let ghost kept = self.pending@;
        proof {
            assert(forall|k: int|
                0 <= k < kept.len() ==> kept[k] == old(self).pending@[k]);
        }
        let mut k: u64 = 0;
        while k <= overflow
            invariant
                k <= overflow + 1,
                pgid + overflow < MAX_PGID,
                entry.ids@.len() == base.len() + k,
                entry.ids@.subrange(0, base.len() as int) == base,
                forall|m: int| 0 <= m < k ==> #[trigger] entry.ids@[base.len() + m] == pgid + m,
                entry.txid == txid,
            decreases overflow + 1 - k,
        {
            entry.ids.push(pgid + k);
            proof {
                assert(entry.ids@.subrange(0, base.len() as int) =~= base);
            }
            k = k + 1;
        }
        self.pending.push(entry);
        proof {
            let o = *old(self);
            let f = *self;
            let last = f.pending@.len() - 1;
            assert(f.pending@.len() == kept.len() + 1);
            assert(forall|k2: int| 0 <= k2 < last ==> f.pending@[k2] == o.pending@[k2]);
            // membership in the last (updated or new) entry
            assert forall|p: u64|
                #[trigger] f.entry_has(last, p) <==> (base.contains(p) || pgid <= p <= pgid
                    + overflow) by {
                let ids = f.pending@[last].ids@;
                if ids.contains(p) {
                    let i = choose|i: int| 0 <= i < ids.len() && ids[i] == p;
                    if i < base.len() {
                        assert(base[i] == p);
                    } else {
                        let m = i - base.len();
                        assert(ids[base.len() + m] == pgid + m);
                    }
                }
                if base.contains(p) {
                    let i = choose|i: int| 0 <= i < base.len() && base[i] == p;
                    assert(ids[i] == base[i]);
                }
                if pgid <= p <= pgid + overflow {
                    assert(ids[base.len() + (p - pgid)] == p);
                }
            }
            if kept.len() < o.pending@.len() {
                // reused the old last entry
                assert(kept =~= o.pending@.drop_last());
                assert(base == o.pending@[last].ids@);
                assert(o.pending@[last].txid == txid);
            } else {
                assert(kept =~= o.pending@);
                assert(base.len() == 0);
                assert(o.pending@.len() > 0 ==> o.pending@.last().txid < txid);
            }
            // old entry membership carries over index-for-index on the prefix
            assert(forall|k2: int, p: u64|
                0 <= k2 < last ==> (#[trigger] f.entry_has(k2, p) <==> o.entry_has(k2, p)));
            assert forall|t: u64, p: u64|
                f.in_pending_tx(t, p) <==> (o.in_pending_tx(t, p) || (t == txid && pgid <= p
                    <= pgid + overflow)) by {
                if f.in_pending_tx(t, p) {
                    let k2 = choose|k2: int|
                        0 <= k2 < f.pending@.len() && f.pending@[k2].txid == t && f.entry_has(
                            k2,
                            p,
                        );
                    if k2 < last {
                        assert(o.entry_has(k2, p));
                        assert(o.in_pending_tx(t, p));
                    } else {
                        if base.contains(p) {
                            assert(o.entry_has(o.pending@.len() - 1, p));
                            assert(o.in_pending_tx(t, p));
                        }
                    }
                }
                if o.in_pending_tx(t, p) {
                    let k2 = choose|k2: int|
                        0 <= k2 < o.pending@.len() && o.pending@[k2].txid == t && o.entry_has(
                            k2,
                            p,
                        );
                    if k2 < kept.len() {
                        assert(f.entry_has(k2, p));
                    } else {
                        assert(base.contains(p));
                        assert(f.entry_has(last, p));
                    }
                }
                if t == txid && pgid <= p <= pgid + overflow {
                    assert(f.entry_has(last, p));
                }
            }
            assert forall|p: u64|
                f.in_pending(p) <==> (o.in_pending(p) || pgid <= p <= pgid + overflow) by {
                if f.in_pending(p) {
                    let k2 = choose|k2: int| 0 <= k2 < f.pending@.len() && f.entry_has(k2, p);
                    if k2 < last {
                        assert(o.entry_has(k2, p));
                    } else {
                        if base.contains(p) {
                            assert(o.entry_has(o.pending@.len() - 1, p));
                        }
                    }
                }
                if o.in_pending(p) {
                    let k2 = choose|k2: int| 0 <= k2 < o.pending@.len() && o.entry_has(k2, p);
                    if k2 < kept.len() {
                        assert(f.entry_has(k2, p));
                    } else {
                        assert(base.contains(p));
                        assert(f.entry_has(last, p));
                    }
                }
                if pgid <= p <= pgid + overflow {
                    assert(f.entry_has(last, p));
                }
            }
            assert forall|t: u64| f.has_key(t) <==> (o.has_key(t) || t == txid) by {
                if f.has_key(t) {
                    let k2 = choose|k2: int| 0 <= k2 < f.pending@.len() && f.pending@[k2].txid == t;
                    if k2 < last {
                        assert(o.pending@[k2].txid == t);
                    } else if kept.len() < o.pending@.len() {
                        assert(o.pending@[o.pending@.len() - 1].txid == txid);
                    }
                }
                if o.has_key(t) {
                    let k2 = choose|k2: int| 0 <= k2 < o.pending@.len() && o.pending@[k2].txid == t;
                    if k2 < kept.len() {
                        assert(f.pending@[k2].txid == t);
                    } else {
                        assert(t == txid);
                        assert(f.pending@[last].txid == txid);
                    }
                }
                if t == txid {
                    assert(f.pending@[last].txid == t);
                }
            }
            assert(pending_total(f.pending@) == pending_total(o.pending@) + overflow + 1) by {
                assert(f.pending@.drop_last() =~= kept);
                assert(f.pending@.last() == f.pending@[last]);
                assert(pending_total(f.pending@) == pending_total(kept)
                    + f.pending@[last].ids@.len());
                if kept.len() < o.pending@.len() {
                    assert(o.pending@.drop_last() =~= kept);
                    assert(o.pending@.last() == o.pending@[o.pending@.len() - 1]);
                    assert(pending_total(o.pending@) == pending_total(kept) + base.len());
                } else {
                    assert(base.len() == 0);
                    assert(kept =~= o.pending@);
                }
            }
            // well-formedness of the result
            assert forall|k2: int, i: int|
                0 <= k2 < f.pending@.len() && 0 <= i < f.pending@[k2].ids@.len() implies 2
                <= #[trigger] f.pending@[k2].ids@[i] < MAX_PGID by {
                if k2 < last {
                    assert(2 <= o.pending@[k2].ids@[i] < MAX_PGID);
                } else {
                    let ids = f.pending@[last].ids@;
                    if i < base.len() {
                        if kept.len() < o.pending@.len() {
                            assert(2 <= o.pending@[o.pending@.len() - 1].ids@[i] < MAX_PGID);
                        }
                    } else {
                        let m = i - base.len();
                        assert(ids[base.len() + m] == pgid + m);
                    }
                }
            }
            assert forall|k2: int| 0 <= k2 < f.pending@.len() implies #[trigger] f.pending@[k2].ids@.len()
                > 0 by {
                if k2 < last {
                    assert(o.pending@[k2].ids@.len() > 0);
                }
            }
            assert forall|k1: int, k2: int|
                0 <= k1 < k2 < f.pending@.len() implies f.pending@[k1].txid
                < f.pending@[k2].txid by {
                if k2 < last {
                    assert(o.pending@[k1].txid < o.pending@[k2].txid);
                }
            }
            assert forall|k2: int, i: int, j: int|
                0 <= k2 < f.pending@.len() && 0 <= i < j < f.pending@[k2].ids@.len() implies #[trigger] f.pending@[k2].ids@[i]
                != #[trigger] f.pending@[k2].ids@[j] by {
                if k2 < last {
                    assert(o.pending@[k2].ids@[i] != o.pending@[k2].ids@[j]);
                } else {
                    let ids = f.pending@[last].ids@;
                    if j < base.len() {
                        assert(base[i] != base[j]);
                    } else if i < base.len() {
                        let m = j - base.len();
                        assert(ids[base.len() + m] == pgid + m);
                        assert(base.contains(base[i]));
                        assert(!o.tracks((ids[j]) as u64));
                        if kept.len() < o.pending@.len() {
                            assert(o.entry_has(o.pending@.len() - 1, base[i]));
                            assert(o.in_pending(base[i]));
                        }
                    } else {
                        let mi = i - base.len();
                        let mj = j - base.len();
                        assert(ids[base.len() + mi] == pgid + mi);
                        assert(ids[base.len() + mj] == pgid + mj);
                    }
                }
            }
            assert forall|k2: int, p: u64|
                0 <= k2 < f.pending@.len() && #[trigger] f.entry_has(k2, p) implies !f.is_free(
                p,
            ) by {
                if k2 < last {
                    assert(o.entry_has(k2, p));
                } else {
                    if base.contains(p) {
                        if kept.len() < o.pending@.len() {
                            assert(o.entry_has(o.pending@.len() - 1, p));
                        }
                    } else {
                        assert(!o.tracks(p));
                    }
                }
            }
            assert forall|k1: int, k2: int, p: u64|
                0 <= k1 < k2 < f.pending@.len() implies !(#[trigger] f.entry_has(k1, p)
                && #[trigger] f.entry_has(k2, p)) by {
                if k2 < last {
                    if o.entry_has(k1, p) && o.entry_has(k2, p) {
                        assert(false);
                    }
                } else {
                    if f.entry_has(k1, p) && f.entry_has(k2, p) {
                        assert(o.entry_has(k1, p));
                        if base.contains(p) {
                            if kept.len() < o.pending@.len() {
                                assert(o.entry_has(o.pending@.len() - 1, p));
                                assert(k1 < o.pending@.len() - 1);
                            }
                        } else {
                            assert(pgid <= p <= pgid + overflow);
                            assert(o.in_pending(p));
                            assert(!o.tracks(p));
                        }
                    }
                }
            }
        }
    }
    /// Moves every pending entry keyed at most `upto` into the free set
    /// and drops those entries.
    ///
    /// The caller passes the largest transaction id whose pages no open
    /// reader can still reach; entries above it stay pending.
    pub fn release(&mut self, upto: u64)
        requires
            old(self).wf(),
        ensures
            final(self).wf(),
            forall|p: u64|
                final(self).is_free(p) <==> old(self).is_free(p) || old(self).in_pending_upto(
                    p,
                    upto,
                ),
            forall|t: u64, p: u64|
                final(self).in_pending_tx(t, p) <==> t > upto && old(self).in_pending_tx(t, p),
            forall|p: u64|
                final(self).in_pending(p) <==> old(self).in_pending(p) && !old(
                    self,
                ).in_pending_upto(p, upto),
            forall|t: u64| final(self).has_key(t) <==> t > upto && old(self).has_key(t),
    {
        let ghost o = *old(self);
        // find how many leading entries are released
        let mut d: usize = 0;
        while d < self.pending.len() && self.pending[d].txid <= upto
            invariant
                *self == o,
                d <= o.pending@.len(),
                forall|k: int| 0 <= k < d ==> #[trigger] o.pending@[k].txid <= upto,
            decreases self.pending@.len() - d,
        {
            d = d + 1;
        }
        proof {
            assert forall|k: int| d <= k < o.pending@.len() implies #[trigger] o.pending@[k].txid
                > upto by {
                if d < o.pending@.len() {
                    if k > d {
                        assert(o.pending@[d as int].txid < o.pending@[k].txid);
                    }
                }
            }
        }
        // merge their pages into the free set
        let mut k: usize = 0;
        while k < d
            invariant
                self.pending@ == o.pending@,
                o.wf(),
                k <= d <= o.pending@.len(),
                sorted_strict(self.ids@),
                forall|p: u64| #[trigger] self.ids@.contains(p) ==> 2 <= p < MAX_PGID,
                forall|p: u64|
                    #[trigger] self.ids@.contains(p) <==> o.is_free(p) || o.in_pending_before(
                        p,
                        k as int,
                    ),
            decreases d - k,
        {
            let ghost pre_ids = self.ids@;
            let mut i: usize = 0;
            let n = self.pending[k].ids.len();
            while i < n
                invariant
                    self.pending@ == o.pending@,
                    o.wf(),
                    k < d <= o.pending@.len(),
                    n == o.pending@[k as int].ids@.len(),
                    i <= n,
                    sorted_strict(self.ids@),
                    forall|p: u64| #[trigger] self.ids@.contains(p) ==> 2 <= p < MAX_PGID,
                    forall|p: u64|
                        #[trigger] self.ids@.contains(p) <==> o.is_free(p) || o.in_pending_before(
                            p,
                            k as int,
                        ) || o.pending@[k as int].ids@.take(i as int).contains(p),
                decreases n - i,
            {
                let ghost eids = o.pending@[k as int].ids@;
                let x = self.pending[k].ids[i];
                proof {
                    assert(o.entry_has(k as int, x));
                    assert(!o.is_free(x));
                    if o.in_pending_before(x, k as int) {
                        let k2 = choose|k2: int|
                            0 <= k2 < k && k2 < o.pending@.len() && o.entry_has(k2, x);
                        assert(!(o.entry_has(k2, x) && o.entry_has(k as int, x)));
                    }
                    if eids.take(i as int).contains(x) {
                        let j = choose|j: int| 0 <= j < i && eids.take(i as int)[j] == x;
                        assert(eids[j] == eids[i as int]);
                    }
                    assert(!self.ids@.contains(x));
                }
                let ghost pre = self.ids@;
                insert_sorted(&mut self.ids, x);
                proof {
                    assert(2 <= o.pending@[k as int].ids@[i as int] < MAX_PGID);
                    assert forall|p: u64|
                        #[trigger] self.ids@.contains(p) <==> o.is_free(p) || o.in_pending_before(
                            p,
                            k as int,
                        ) || o.pending@[k as int].ids@.take(i + 1).contains(p) by {
                        assert(self.ids@.contains(p) <==> pre.contains(p) || p == x);
                        assert(eids.take(i + 1) =~= eids.take(i as int).push(eids[i as int]));
                        if eids.take(i + 1).contains(p) {
                            if p != x {
                                assert(eids.take(i as int).contains(p));
                            }
                        }
                        if eids.take(i as int).contains(p) {
                            assert(eids.take(i + 1).contains(p));
                        }
                        if p == x {
                            assert(eids.take(i + 1).last() == x);
                            assert(eids.take(i + 1).contains(p));
                        }
                    }
                }
                i = i + 1;
            }
            proof {
                assert forall|p: u64|
                    #[trigger] self.ids@.contains(p) <==> o.is_free(p) || o.in_pending_before(
                        p,
                        k + 1,
                    ) by {
                    let eids = o.pending@[k as int].ids@;
                    assert(eids.take(n as int) =~= eids);
                    if o.in_pending_before(p, k + 1) && !o.in_pending_before(p, k as int) {
                        let k2 = choose|k2: int|
                            0 <= k2 < k + 1 && k2 < o.pending@.len() && o.entry_has(k2, p);
                        assert(k2 == k as int);
                        assert(eids.contains(p));
                    }
                    if eids.contains(p) {
                        assert(o.entry_has(k as int, p));
                    }
                }
            }
            k = k + 1;
        }
        // drop the released entries
        let mut j: usize = 0;
        while j < d
            invariant
                j <= d,
                d <= o.pending@.len(),
                self.pending@ == o.pending@.skip(j as int),
                sorted_strict(self.ids@),
                forall|p: u64| #[trigger] self.ids@.contains(p) ==> 2 <= p < MAX_PGID,
                forall|p: u64|
                    #[trigger] self.ids@.contains(p) <==> o.is_free(p) || o.in_pending_before(
                        p,
                        d as int,
                    ),
            decreases d - j,
        {
            let _ = self.pending.remove(0);
            proof {
                assert(o.pending@.skip(j as int).remove(0) =~= o.pending@.skip(j + 1));
            }
            j = j + 1;
        }
        proof {
            let f = *self;
            let dd = d as int;
            assert(f.pending@ == o.pending@.skip(dd));
            assert forall|i2: int|
                0 <= i2 < self.ids@.len() implies 2 <= #[trigger] self.ids@[i2] < MAX_PGID by {
                assert(self.ids@.contains(self.ids@[i2]));
            }
            assert(forall|k2: int|
                0 <= k2 < f.pending@.len() ==> f.pending@[k2] == o.pending@[k2 + dd]);
            // a page pending at most upto is exactly a page in the dropped prefix
            assert forall|p: u64|
                o.in_pending_upto(p, upto) <==> o.in_pending_before(p, dd) by {
                if o.in_pending_upto(p, upto) {
                    let k2 = choose|k2: int|
                        0 <= k2 < o.pending@.len() && o.pending@[k2].txid <= upto && o.entry_has(
                            k2,
                            p,
                        );
                    assert(k2 < dd);
                }
                if o.in_pending_before(p, dd) {
                    let k2 = choose|k2: int|
                        0 <= k2 < dd && k2 < o.pending@.len() && o.entry_has(k2, p);
                    assert(o.pending@[k2].txid <= upto);
                }
            }
            assert forall|t: u64, p: u64|
                f.in_pending_tx(t, p) <==> t > upto && o.in_pending_tx(t, p) by {
                if f.in_pending_tx(t, p) {
                    let k2 = choose|k2: int|
                        0 <= k2 < f.pending@.len() && f.pending@[k2].txid == t && f.entry_has(
                            k2,
                            p,
                        );
                    assert(o.entry_has(k2 + dd, p));
                    assert(o.pending@[k2 + dd].txid == t);
                }
                if t > upto && o.in_pending_tx(t, p) {
                    let k2 = choose|k2: int|
                        0 <= k2 < o.pending@.len() && o.pending@[k2].txid == t && o.entry_has(
                            k2,
                            p,
                        );
                    assert(k2 >= dd);
                    assert(f.entry_has(k2 - dd, p));
                    assert(f.pending@[k2 - dd].txid == t);
                }
            }
            assert forall|p: u64|
                f.in_pending(p) <==> o.in_pending(p) && !o.in_pending_upto(p, upto) by {
                if f.in_pending(p) {
                    let k2 = choose|k2: int| 0 <= k2 < f.pending@.len() && f.entry_has(k2, p);
                    assert(o.entry_has(k2 + dd, p));
                    if o.in_pending_before(p, dd) {
                        let k3 = choose|k3: int|
                            0 <= k3 < dd && k3 < o.pending@.len() && o.entry_has(k3, p);
                        assert(!(o.entry_has(k3, p) && o.entry_has(k2 + dd, p)));
                    }
                }
                if o.in_pending(p) && !o.in_pending_upto(p, upto) {
                    let k2 = choose|k2: int| 0 <= k2 < o.pending@.len() && o.entry_has(k2, p);
                    assert(k2 >= dd);
                    assert(f.entry_has(k2 - dd, p));
                }
            }
            assert forall|t: u64| f.has_key(t) <==> t > upto && o.has_key(t) by {
                if f.has_key(t) {
                    let k2 = choose|k2: int| 0 <= k2 < f.pending@.len() && f.pending@[k2].txid == t;
                    assert(o.pending@[k2 + dd].txid == t);
                }
                if t > upto && o.has_key(t) {
                    let k2 = choose|k2: int| 0 <= k2 < o.pending@.len() && o.pending@[k2].txid == t;
                    assert(k2 >= dd);
                    assert(f.pending@[k2 - dd].txid == t);
                }
            }
            // well-formedness
            assert forall|k2: int, p: u64|
                0 <= k2 < f.pending@.len() && #[trigger] f.entry_has(k2, p) implies !f.is_free(
                p,
            ) by {
                assert(o.entry_has(k2 + dd, p));
                if o.in_pending_before(p, dd) {
                    let k3 = choose|k3: int|
                        0 <= k3 < dd && k3 < o.pending@.len() && o.entry_has(k3, p);
                    assert(!(o.entry_has(k3, p) && o.entry_has(k2 + dd, p)));
                }
            }
            assert forall|k1: int, k2: int, p: u64|
                0 <= k1 < k2 < f.pending@.len() implies !(#[trigger] f.entry_has(k1, p)
                && #[trigger] f.entry_has(k2, p)) by {
                if f.entry_has(k1, p) && f.entry_has(k2, p) {
                    assert(o.entry_has(k1 + dd, p));
                    assert(o.entry_has(k2 + dd, p));
                }
            }
        }
    }

    /// Discards the pending entry keyed by `txid`, if any: the pages it
    /// listed were never published as free and simply stay allocated.
    /// Used when a write transaction rolls back.
    pub fn rollback(&mut self, txid: u64)
        requires
            old(self).wf(),
        ensures
            final(self).wf(),
            final(self).ids@ == old(self).ids@,
            forall|t: u64, p: u64|
                final(self).in_pending_tx(t, p) <==> t != txid && old(self).in_pending_tx(t, p),
            forall|p: u64|
                final(self).in_pending(p) <==> old(self).in_pending(p) && !old(self).in_pending_tx(
                    txid,
                    p,
                ),
            forall|t: u64| final(self).has_key(t) <==> t != txid && old(self).has_key(t),
    {
        let ghost o = *old(self);
        let mut k: usize = 0;
        while k < self.pending.len()
            invariant
                *self == o,
                o == *old(self),
                o.wf(),
                k <= o.pending@.len(),
                forall|k2: int| 0 <= k2 < k ==> #[trigger] o.pending@[k2].txid != txid,
            decreases self.pending@.len() - k,
        {
            if self.pending[k].txid == txid {
                let _ = self.pending.remove(k);
                proof {
                    let f = *self;
                    let kk = k as int;
                    assert(f.pending@ == o.pending@.remove(kk));
                    assert(forall|k2: int| 0 <= k2 < kk ==> f.pending@[k2] == o.pending@[k2]);
                    assert(forall|k2: int|
                        kk <= k2 < f.pending@.len() ==> f.pending@[k2] == o.pending@[k2 + 1]);
                    assert forall|t: u64, p: u64|
                        f.in_pending_tx(t, p) <==> t != txid && o.in_pending_tx(t, p) by {
                        if f.in_pending_tx(t, p) {
                            let k2 = choose|k2: int|
                                0 <= k2 < f.pending@.len() && f.pending@[k2].txid == t
                                    && f.entry_has(k2, p);
                            if k2 < kk {
                                assert(o.entry_has(k2, p));
                                assert(o.pending@[k2].txid == t);
                                if t == txid {
                                    assert(o.pending@[k2].txid < o.pending@[kk].txid);
                                }
                            } else {
                                assert(o.entry_has(k2 + 1, p));
                                assert(o.pending@[k2 + 1].txid == t);
                                if t == txid {
                                    assert(kk < k2 + 1 < o.pending@.len());
                                    assert(o.pending@[kk].txid < o.pending@[k2 + 1].txid);
                                }
                            }
                        }
                        if t != txid && o.in_pending_tx(t, p) {
                            let k2 = choose|k2: int|
                                0 <= k2 < o.pending@.len() && o.pending@[k2].txid == t
                                    && o.entry_has(k2, p);
                            assert(k2 != kk);
                            if k2 < kk {
                                assert(f.entry_has(k2, p));
                                assert(f.pending@[k2].txid == t);
                            } else {
                                assert(f.entry_has(k2 - 1, p));
                                assert(f.pending@[k2 - 1].txid == t);
                            }
                        }
                    }
                    assert forall|p: u64|
                        f.in_pending(p) <==> o.in_pending(p) && !o.in_pending_tx(txid, p) by {
                        if f.in_pending(p) {
                            let k2 = choose|k2: int|
                                0 <= k2 < f.pending@.len() && f.entry_has(k2, p);
                            if k2 < kk {
                                assert(o.entry_has(k2, p));
                                if o.in_pending_tx(txid, p) {
                                    let k3 = choose|k3: int|
                                        0 <= k3 < o.pending@.len() && o.pending@[k3].txid == txid
                                            && o.entry_has(k3, p);
                                    if k3 < kk {
                                        assert(o.pending@[k3].txid < o.pending@[kk].txid);
                                    } else if k3 > kk {
                                        assert(o.pending@[kk].txid < o.pending@[k3].txid);
                                    }
                                    assert(k3 == kk);
                                    assert(!(o.entry_has(k2, p) && o.entry_has(kk, p)));
                                }
                            } else {
                                assert(o.entry_has(k2 + 1, p));
                                if o.in_pending_tx(txid, p) {
                                    let k3 = choose|k3: int|
                                        0 <= k3 < o.pending@.len() && o.pending@[k3].txid == txid
                                            && o.entry_has(k3, p);
                                    if k3 < kk {
                                        assert(o.pending@[k3].txid < o.pending@[kk].txid);
                                    } else if k3 > kk {
                                        assert(o.pending@[kk].txid < o.pending@[k3].txid);
                                    }
                                    assert(k3 == kk);
                                    assert(!(o.entry_has(kk, p) && o.entry_has(k2 + 1, p)));
                                }
                            }
                        }
                        if o.in_pending(p) && !o.in_pending_tx(txid, p) {
                            let k2 = choose|k2: int|
                                0 <= k2 < o.pending@.len() && o.entry_has(k2, p);
                            if k2 == kk {
                                assert(o.pending@[kk].txid == txid);
                                assert(o.in_pending_tx(txid, p));
                            } else if k2 < kk {
                                assert(f.entry_has(k2, p));
                            } else {
                                assert(f.entry_has(k2 - 1, p));
                            }
                        }
                    }
                    assert forall|t: u64| f.has_key(t) <==> t != txid && o.has_key(t) by {
                        if f.has_key(t) {
                            let k2 = choose|k2: int|
                                0 <= k2 < f.pending@.len() && f.pending@[k2].txid == t;
                            if k2 < kk {
                                assert(o.pending@[k2].txid == t);
                                if t == txid {
                                    assert(o.pending@[k2].txid != o.pending@[kk].txid);
                                }
                            } else {
                                assert(o.pending@[k2 + 1].txid == t);
                                if t == txid {
                                    assert(o.pending@[kk].txid < o.pending@[k2 + 1].txid);
                                }
                            }
                        }
                        if t != txid && o.has_key(t) {
                            let k2 = choose|k2: int|
                                0 <= k2 < o.pending@.len() && o.pending@[k2].txid == t;
                            if k2 < kk {
                                assert(f.pending@[k2].txid == t);
                            } else {
                                assert(k2 != kk);
                                assert(f.pending@[k2 - 1].txid == t);
                            }
                        }
                    }
                    assert forall|k1: int, k2: int, p: u64|
                        0 <= k1 < k2 < f.pending@.len() implies !(#[trigger] f.entry_has(k1, p)
                        && #[trigger] f.entry_has(k2, p)) by {
                        if f.entry_has(k1, p) && f.entry_has(k2, p) {
                            let o1: int = if k1 < kk { k1 } else { k1 + 1 };
                            let o2: int = if k2 < kk { k2 } else { k2 + 1 };
                            assert(o.entry_has(o1, p));
                            assert(o.entry_has(o2, p));
                        }
                    }
                    assert forall|k2: int, p: u64|
                        0 <= k2 < f.pending@.len() && #[trigger] f.entry_has(k2, p) implies !f.is_free(
                        p,
                    ) by {
                        let o2: int = if k2 < kk { k2 } else { k2 + 1 };
                        assert(o.entry_has(o2, p));
                    }
                }
                return ;
            }
            k = k + 1;
        }
        proof {
            assert forall|t: u64, p: u64|
                self.in_pending_tx(t, p) <==> t != txid && o.in_pending_tx(t, p) by {
                if self.in_pending_tx(txid, p) {
                    let k2 = choose|k2: int|
                        0 <= k2 < o.pending@.len() && o.pending@[k2].txid == txid && o.entry_has(
                            k2,
                            p,
                        );
                    assert(o.pending@[k2].txid != txid);
                }
            }
            assert forall|p: u64|
                self.in_pending(p) <==> o.in_pending(p) && !o.in_pending_tx(txid, p) by {
                if o.in_pending_tx(txid, p) {
                    let k2 = choose|k2: int|
                        0 <= k2 < o.pending@.len() && o.pending@[k2].txid == txid && o.entry_has(
                            k2,
                            p,
                        );
                    assert(o.pending@[k2].txid != txid);
                }
            }
            assert forall|t: u64| self.has_key(t) <==> t != txid && o.has_key(t) by {
                if self.has_key(txid) {
                    let k2 = choose|k2: int|
                        0 <= k2 < o.pending@.len() && o.pending@[k2].txid == txid;
                    assert(o.pending@[k2].txid != txid);
                }
            }
        }
    }
}

/// Whether the free list holds the `n` consecutive page ids starting at
/// `q`.
pub open spec fn has_run(s: Seq<u64>, q: u64, n: int) -> bool {
    forall|m: int| 0 <= m < n ==> #[trigger] s.contains((q + m) as u64)
}

/// Whether positions `j .. j + n` of `s` hold consecutive values.
pub open spec fn pos_run(s: Seq<u64>, j: int, n: int) -> bool {
    forall|m: int| 0 <= m < n ==> j + m < s.len() && #[trigger] s[j + m] == s[j] + m
}

/// In a strictly sorted list, the successor value of `s[j]`, if present,
/// sits directly at the next position.
proof fn lemma_next_pos(s: Seq<u64>, j: int, v: u64)
    requires
        sorted_strict(s),
        0 <= j < s.len(),
        s[j] == v,
        v < u64::MAX,
        s.contains((v + 1) as u64),
    ensures
        j + 1 < s.len() && s[j + 1] == v + 1,
{
    let idx = choose|idx: int| 0 <= idx < s.len() && s[idx] == (v + 1) as u64;
    if idx < j {
        assert(s[idx] < s[j]);
    } else if idx == j {
    } else if idx > j + 1 {
        assert(s[j] < s[j + 1]);
        assert(s[j + 1] < s[idx]);
    }
    assert(idx == j + 1);
}

/// A run of `n` consecutive values present in a strictly sorted, bounded
/// list occupies `n` consecutive positions.
proof fn lemma_has_run_pos(s: Seq<u64>, j: int, q: u64, n: int)
    requires
        sorted_strict(s),
        forall|i: int| 0 <= i < s.len() ==> #[trigger] s[i] < MAX_PGID,
        0 <= j < s.len(),
        s[j] == q,
        1 <= n <= 0x1_0000_0000,
        has_run(s, q, n),
    ensures
        pos_run(s, j, n),
    decreases n,
{
    if n > 1 {
        assert(has_run(s, q, n - 1)) by {
            assert(forall|m: int| 0 <= m < n - 1 ==> #[trigger] s.contains((q + m) as u64));
        }
        lemma_has_run_pos(s, j, q, n - 1);
        assert(s[j + (n - 2)] == q + (n - 2));
        assert(s.contains((q + (n - 1)) as u64));
        assert(q + (n - 1) < u64::MAX) by {
            assert(s[j] < MAX_PGID);
        }
        assert(((q + (n - 2)) as u64) < u64::MAX);
        assert(s.contains((((q + (n - 2)) as u64) + 1) as u64));
        lemma_next_pos(s, j + (n - 2), (q + (n - 2)) as u64);
        assert forall|m: int| 0 <= m < n implies j + m < s.len() && #[trigger] s[j + m] == s[j]
            + m by {
            if m < n - 1 {
                assert(s[j + m] == s[j] + m);
            } else {
                assert(s[j + (n - 1)] == q + (n - 1));
            }
        }
    }
}

impl Freelist {
    /// First-fit allocation: finds the lowest run of `n` consecutive free
    /// page ids, removes it from the free set and returns its start; when
    /// no such run exists the caller must grow the file instead.
    pub fn allocate(&mut self, n: usize) -> (r: Option<u64>)
        requires
            old(self).wf(),
            1 <= n <= 0x1_0000_0000,
        ensures
            final(self).wf(),
            final(self).pending@ == old(self).pending@,
            match r {
                Some(p) => {
                    &&& has_run(old(self).ids@, p, n as int)
                    &&& 2 <= p && p + n <= MAX_PGID
                    &&& forall|q: u64| has_run(old(self).ids@, q, n as int) ==> p <= q
                    &&& forall|x: u64|
                        final(self).ids@.contains(x) <==> old(self).ids@.contains(x) && !(p <= x
                            < p + n)
                    &&& final(self).ids@.len() + n == old(self).ids@.len()
                },
                None => {
                    &&& *final(self) == *old(self)
                    &&& forall|q: u64| !has_run(old(self).ids@, q, n as int)
                },
            },
    {
        let ghost s0 = self.ids@;
        let len = self.ids.len();
        let mut i: usize = 0;
        while i < len
            invariant
                *self == *old(self),
                old(self).wf(),
                s0 == self.ids@,
                len == s0.len(),
                1 <= n <= 0x1_0000_0000,
                i <= len,
                forall|j: int| 0 <= j < i ==> !pos_run(s0, j, n as int),
            decreases len - i,
        {
            if len - i >= n {
                // check whether positions i .. i + n are consecutive
                let mut j: usize = 1;
                let mut run = true;
                let base = self.ids[i];
                while j < n
                    invariant
                        *self == *old(self),
                        old(self).wf(),
                        s0 == self.ids@,
                        len == s0.len(),
                        i + n <= len,
                        n <= 0x1_0000_0000,
                        base == s0[i as int],
                        base < MAX_PGID,
                        1 <= j <= n,
                        run ==> forall|m: int| 0 <= m < j ==> #[trigger] s0[i + m] == s0[i as int]
                            + m,
                        !run ==> !pos_run(s0, i as int, n as int),
                    decreases n - j,
                {
                    if !run {
                        j = n;
                    } else if self.ids[i + j] != base + (j as u64) {
                        proof {
                            assert(!(s0[i + j as int] == s0[i as int] + j));
                        }
                        run = false;
                        j = n;
                    } else {
                        proof {
                            assert forall|m: int|
                                0 <= m < j + 1 implies #[trigger] s0[i + m] == s0[i as int]
                                + m by {}
                        }
                        j = j + 1;
                    }
                }
                if run {
                    // found the first and therefore lowest run; remove it
                    proof {
                        assert(pos_run(s0, i as int, n as int));
                        assert forall|q: u64| has_run(s0, q, n as int) implies base <= q by {
                            assert(s0.contains((q + 0) as u64));
                            let jq = choose|jq: int| 0 <= jq < s0.len() && s0[jq] == q;
                            assert(s0[jq] < MAX_PGID);
                            lemma_has_run_pos(s0, jq, q, n as int);
                            assert(!pos_run(s0, jq, n as int) || jq >= i);
                            if jq > i {
                                assert(s0[i as int] < s0[jq]);
                            }
                        }
                        assert forall|m: int|
                            0 <= m < n implies #[trigger] s0.contains((base + m) as u64) by {
                            assert(s0[i + m] == base + m);
                        }
                        assert(has_run(s0, base, n as int));
                        assert(s0[i + (n - 1)] == base + (n - 1));
                        assert(base + n <= MAX_PGID);
                    }
                    let mut r: usize = 0;
                    while r < n
                        invariant
                            old(self).wf(),
                            self.pending@ == old(self).pending@,
                            r <= n,
                            i + n <= s0.len(),
                            s0 == old(self).ids@,
                            self.ids@ == s0.subrange(0, i as int) + s0.subrange(
                                i + r,
                                s0.len() as int,
                            ),
                        decreases n - r,
                    {
                        let ghost pre = self.ids@;
                        let _ = self.ids.remove(i);
                        proof {
                            assert(self.ids@ =~= s0.subrange(0, i as int) + s0.subrange(
                                i + r + 1,
                                s0.len() as int,
                            ));
                        }
                        r = r + 1;
                    }
                    proof {
                        let f = self.ids@;
                        assert forall|x: u64|
                            f.contains(x) <==> s0.contains(x) && !(base <= x < base + n) by {
                            if f.contains(x) {
                                let ix = choose|ix: int| 0 <= ix < f.len() && f[ix] == x;
                                if ix < i {
                                    assert(s0[ix] == x);
                                    assert(s0[ix] < s0[i as int]);
                                } else {
                                    assert(s0[ix + n] == x);
                                    assert(s0[i + (n - 1)] <= s0[ix + n]);
                                    if s0[ix + n] == s0[i + (n - 1)] {
                                    } else {
                                        assert(s0[i + (n - 1)] < s0[ix + n]);
                                    }
                                    assert(x >= base + n);
                                }
                            }
                            if s0.contains(x) && !(base <= x < base + n) {
                                let ix = choose|ix: int| 0 <= ix < s0.len() && s0[ix] == x;
                                if ix < i {
                                    assert(f[ix] == x);
                                } else if ix < i + n {
                                    assert(s0[ix] == s0[i as int] + (ix - i));
                                } else {
                                    assert(f[ix - n] == x);
                                }
                            }
                        }
                        assert forall|i1: int, i2: int|
                            0 <= i1 < i2 < f.len() implies f[i1] < f[i2] by {
                            let m1: int = if i1 < i { i1 } else { i1 + n };
                            let m2: int = if i2 < i { i2 } else { i2 + n };
                            assert(f[i1] == s0[m1]);
                            assert(f[i2] == s0[m2]);
                            assert(s0[m1] < s0[m2]);
                        }
                        assert forall|i1: int|
                            0 <= i1 < f.len() implies 2 <= #[trigger] f[i1] < MAX_PGID by {
                            let m1: int = if i1 < i { i1 } else { i1 + n };
                            assert(f[i1] == s0[m1]);
                        }
                        assert forall|k2: int, p: u64|
                            0 <= k2 < self.pending@.len() && #[trigger] self.entry_has(k2, p)
                            implies !self.ids@.contains(p) by {
                            assert(old(self).entry_has(k2, p));
                            assert(!old(self).is_free(p));
                        }
                        assert forall|k1: int, k2: int, p: u64|
                            0 <= k1 < k2 < self.pending@.len() implies !(#[trigger] self.entry_has(
                            k1,
                            p,
                        ) && #[trigger] self.entry_has(k2, p)) by {
                            if self.entry_has(k1, p) && self.entry_has(k2, p) {
                                assert(old(self).entry_has(k1, p));
                                assert(old(self).entry_has(k2, p));
                            }
                        }
                    }
                    return Some(base);
                }
            } else {
                proof {
                    assert(!pos_run(s0, i as int, n as int)) by {
                        if pos_run(s0, i as int, n as int) {
                            assert(i + (n - 1) < s0.len() && s0[i + (n - 1)] == s0[i as int] + (n
                                - 1));
                        }
                    }
                }
            }
            i = i + 1;
        }
        proof {
            assert forall|q: u64| !has_run(s0, q, n as int) by {
                if has_run(s0, q, n as int) {
                    assert(s0.contains((q + 0) as u64));
                    let jq = choose|jq: int| 0 <= jq < s0.len() && s0[jq] == q;
                    assert(s0[jq] < MAX_PGID);
                    lemma_has_run_pos(s0, jq, q, n as int);
                    assert(!pos_run(s0, jq, n as int));
                }
            }
        }
        None
    }
}

/// Total number of pending pages over a list of entries.
pub open spec fn pending_total(entries: Seq<PendingEntry>) -> nat
    decreases entries.len(),
{
    if entries.len() == 0 {
        0
    } else {
        pending_total(entries.drop_last()) + entries.last().ids@.len()
    }
}

/// Whether `b` begins with the on-page image of the id list `s`: a count
/// word followed by one word per id; trailing padding is allowed so that
/// the image can occupy a whole page.
pub open spec fn fl_encodes(b: Seq<u8>, s: Seq<u64>) -> bool {
    &&& b.len() >= 8 + 8 * s.len()
    &&& crate::codec::le_val(b.subrange(0, 8)) == s.len()
    &&& forall|j: int|
        0 <= j < s.len() ==> crate::codec::le_val(#[trigger] b.subrange(8 + 8 * j, 16 + 8 * j))
            == s[j]
}

/// Whether `b` is a well-formed persisted freelist: the image of some
/// strictly sorted, bounded id list.
pub open spec fn fl_bytes_wf(b: Seq<u8>) -> bool {
    exists|s: Seq<u64>|
        #[trigger] fl_encodes(b, s) && sorted_strict(s) && (forall|j: int|
            0 <= j < s.len() ==> 2 <= #[trigger] s[j] < MAX_PGID)
}

/// One image encodes only one id list.
pub proof fn lemma_fl_encodes_inj(b: Seq<u8>, s1: Seq<u64>, s2: Seq<u64>)
    requires
        fl_encodes(b, s1),
        fl_encodes(b, s2),
    ensures
        s1 == s2,
{
    assert(s1.len() == s2.len());
    assert forall|j: int| 0 <= j < s1.len() implies s1[j] == s2[j] by {
        assert(crate::codec::le_val(b.subrange(8 + 8 * j, 16 + 8 * j)) == s1[j]);
        assert(crate::codec::le_val(b.subrange(8 + 8 * j, 16 + 8 * j)) == s2[j]);
    }
    assert(s1 =~= s2);
}

/// Two strictly sorted lists with the same members are the same list.
pub proof fn lemma_sorted_same_set(s1: Seq<u64>, s2: Seq<u64>)
    requires
        sorted_strict(s1),
        sorted_strict(s2),
        forall|p: u64| s1.contains(p) <==> s2.contains(p),
    ensures
        s1 == s2,
    decreases s1.len(),
{
    if s1.len() == 0 {
        if s2.len() > 0 {
            assert(s2.contains(s2[0]));
        }
        assert(s1 =~= s2);
    } else {
        assert(s1.contains(s1[0]));
        assert(s2.contains(s1[0]));
        let i2 = choose|i: int| 0 <= i < s2.len() && s2[i] == s1[0];
        if i2 > 0 {
            assert(s2[0] < s2[i2]);
        }
        assert(s2.contains(s2[0]));
        assert(s1.contains(s2[0]));
        let i1 = choose|i: int| 0 <= i < s1.len() && s1[i] == s2[0];
        if i1 > 0 {
            assert(s1[0] < s1[i1]);
        }
        assert(s1[0] == s2[0]);
        let t1 = s1.drop_first();
        let t2 = s2.drop_first();
        assert forall|p: u64| t1.contains(p) <==> t2.contains(p) by {
            if t1.contains(p) {
                let i = choose|i: int| 0 <= i < t1.len() && t1[i] == p;
                assert(s1[i + 1] == p);
                assert(s1.contains(p));
                assert(s1[0] < s1[i + 1]);
                let j = choose|j: int| 0 <= j < s2.len() && s2[j] == p;
                assert(j > 0);
                assert(t2[j - 1] == p);
            }
            if t2.contains(p) {
                let i = choose|i: int| 0 <= i < t2.len() && t2[i] == p;
                assert(s2[i + 1] == p);
                assert(s2.contains(p));
                assert(s2[0] < s2[i + 1]);
                let j = choose|j: int| 0 <= j < s1.len() && s1[j] == p;
                assert(j > 0);
                assert(t1[j - 1] == p);
            }
        }
        lemma_sorted_same_set(t1, t2);
        assert forall|i: int| 0 <= i < s1.len() implies s1[i] == s2[i] by {
            if i > 0 {
                assert(t1[i - 1] == t2[i - 1]);
            }
        }
        assert(s1 =~= s2);
    }
}

impl Freelist {
    /// Serializes the free set together with every pending page into one
    /// sorted id list (pending pages will be reusable by the time anyone
    /// reads the image back), prefixed by a count word.
    pub fn persist(&self) -> (out: Vec<u8>)
        requires
            self.wf(),
            8 + 8 * (self.ids@.len() + pending_total(self.pending@)) <= usize::MAX,
        ensures
            out@.len() == 8 + 8 * (self.ids@.len() + pending_total(self.pending@)),
            exists|s: Seq<u64>|
                #[trigger] fl_encodes(out@, s) && sorted_strict(s) && (forall|j: int|
                    0 <= j < s.len() ==> 2 <= #[trigger] s[j] < MAX_PGID) && (forall|p: u64|
                    s.contains(p) <==> self.tracks(p)),
    {
        let mut merged = self.ids.clone();
        proof {
            assert(merged@ =~= self.ids@);
            assert(self.pending@.take(0) =~= Seq::<PendingEntry>::empty());
        }
        let mut k: usize = 0;
        while k < self.pending.len()
            invariant
                self.wf(),
                k <= self.pending@.len(),
                sorted_strict(merged@),
                merged@.len() == self.ids@.len() + pending_total(self.pending@.take(k as int)),
                forall|p: u64| #[trigger] merged@.contains(p) ==> 2 <= p < MAX_PGID,
                forall|p: u64|
                    #[trigger] merged@.contains(p) <==> self.is_free(p) || self.in_pending_before(
                        p,
                        k as int,
                    ),
            decreases self.pending@.len() - k,
        {
            let n = self.pending[k].ids.len();
            let mut i: usize = 0;
            while i < n
                invariant
                    self.wf(),
                    k < self.pending@.len(),
                    n == self.pending@[k as int].ids@.len(),
                    i <= n,
                    sorted_strict(merged@),
                    merged@.len() == self.ids@.len() + pending_total(
                        self.pending@.take(k as int),
                    ) + i,
                    forall|p: u64| #[trigger] merged@.contains(p) ==> 2 <= p < MAX_PGID,
                    forall|p: u64|
                        #[trigger] merged@.contains(p) <==> self.is_free(p)
                            || self.in_pending_before(p, k as int) || self.pending@[k as int].ids@.take(
                            i as int,
                        ).contains(p),
                decreases n - i,
            {
                let ghost eids = self.pending@[k as int].ids@;
                let x = self.pending[k].ids[i];
                proof {
                    assert(self.entry_has(k as int, x));
                    assert(!self.is_free(x));
                    if self.in_pending_before(x, k as int) {
                        let k2 = choose|k2: int|
                            0 <= k2 < k && k2 < self.pending@.len() && self.entry_has(k2, x);
                        assert(!(self.entry_has(k2, x) && self.entry_has(k as int, x)));
                    }
                    if eids.take(i as int).contains(x) {
                        let j = choose|j: int| 0 <= j < i && eids.take(i as int)[j] == x;
                        assert(eids[j] == eids[i as int]);
                    }
                    assert(!merged@.contains(x));
                    assert(2 <= eids[i as int] < MAX_PGID);
                }
                let ghost pre = merged@;
                insert_sorted(&mut merged, x);
                proof {
                    assert forall|p: u64|
                        #[trigger] merged@.contains(p) <==> self.is_free(p)
                            || self.in_pending_before(p, k as int) || self.pending@[k as int].ids@.take(
                            i + 1,
                        ).contains(p) by {
                        assert(merged@.contains(p) <==> pre.contains(p) || p == x);
                        assert(eids.take(i + 1) =~= eids.take(i as int).push(eids[i as int]));
                        if eids.take(i + 1).contains(p) {
                            if p != x {
                                assert(eids.take(i as int).contains(p));
                            }
                        }
                        if eids.take(i as int).contains(p) {
                            assert(eids.take(i + 1).contains(p));
                        }
                        if p == x {
                            assert(eids.take(i + 1).last() == x);
                            assert(eids.take(i + 1).contains(p));
                        }
                    }
                }
                i = i + 1;
            }
            proof {
                assert(self.pending@.take(k + 1).drop_last() =~= self.pending@.take(k as int));
                assert(self.pending@.take(k + 1).last() == self.pending@[k as int]);
                assert(self.pending@[k as int].ids@.take(n as int) =~= self.pending@[k as int].ids@);
                assert forall|p: u64|
                    #[trigger] merged@.contains(p) <==> self.is_free(p) || self.in_pending_before(
                        p,
                        k + 1,
                    ) by {
                    if self.in_pending_before(p, k + 1) && !self.in_pending_before(p, k as int) {
                        let k2 = choose|k2: int|
                            0 <= k2 < k + 1 && k2 < self.pending@.len() && self.entry_has(k2, p);
                        assert(k2 == k as int);
                        assert(self.pending@[k as int].ids@.contains(p));
                    }
                    if self.pending@[k as int].ids@.contains(p) {
                        assert(self.entry_has(k as int, p));
                    }
                }
            }
            k = k + 1;
        }
        proof {
            assert(self.pending@.take(self.pending@.len() as int) =~= self.pending@);
            assert forall|p: u64| #[trigger] merged@.contains(p) <==> self.tracks(p) by {
                if self.in_pending(p) {
                    let k2 = choose|k2: int| 0 <= k2 < self.pending@.len() && self.entry_has(k2, p);
                    assert(self.in_pending_before(p, self.pending@.len() as int));
                }
                if self.in_pending_before(p, self.pending@.len() as int) {
                    let k2 = choose|k2: int|
                        0 <= k2 < self.pending@.len() && self.entry_has(k2, p);
                }
            }
            assert forall|j: int|
                0 <= j < merged@.len() implies 2 <= #[trigger] merged@[j] < MAX_PGID by {
                assert(merged@.contains(merged@[j]));
            }
        }
        let count = merged.len();
        let total = 8 + 8 * count;
        let mut out: Vec<u8> = vec![0u8; total];
        put_u64_at(&mut out, 0, count as u64);
        let ghost head = out@;
        let mut j: usize = 0;
        while j < count
            invariant
                j <= count,
                count == merged@.len(),
                8 + 8 * count <= usize::MAX,
                out@.len() == 8 + 8 * count,
                crate::codec::le_val(out@.subrange(0, 8)) == count,
                forall|j2: int|
                    0 <= j2 < j ==> crate::codec::le_val(
                        #[trigger] out@.subrange(8 + 8 * j2, 16 + 8 * j2),
                    ) == merged@[j2],
            decreases count - j,
        {
            let ghost pre = out@;
            put_u64_at(&mut out, 8 + 8 * j, merged[j]);
            proof {
                assert(crate::codec::le_val(
                    out@.subrange(8 + 8 * (j as int), 16 + 8 * (j as int)),
                ) == merged@[j as int]);
                crate::codec::lemma_frame_sub(pre, out@, 0, 8);
                assert forall|j2: int|
                    0 <= j2 < j implies crate::codec::le_val(
                    #[trigger] out@.subrange(8 + 8 * j2, 16 + 8 * j2),
                ) == merged@[j2] by {
                    crate::codec::lemma_frame_sub(pre, out@, 8 + 8 * j2, 16 + 8 * j2);
                }
            }
            j = j + 1;
        }
        proof {
            assert(fl_encodes(out@, merged@));
        }
        out
    }

    /// Reads a persisted freelist image back: on success the free set is
    /// exactly the persisted id list and nothing is pending.
    pub fn load(bytes: &Vec<u8>) -> (r: Result<Freelist, Error>)
        ensures
            match r {
                Ok(fl) => {
                    &&& fl_bytes_wf(bytes@)
                    &&& fl.wf()
                    &&& fl.pending@.len() == 0
                    &&& fl_encodes(bytes@, fl.ids@)
                },
                Err(e) => e == Error::Corrupt && !fl_bytes_wf(bytes@),
            },
    {
        if bytes.len() < 8 {
            proof {
                if fl_bytes_wf(bytes@) {
                    let s = choose|s: Seq<u64>|
                        #[trigger] fl_encodes(bytes@, s) && sorted_strict(s) && (forall|j: int|
                            0 <= j < s.len() ==> 2 <= #[trigger] s[j] < MAX_PGID);
                    assert(bytes@.len() == 8 + 8 * s.len());
                }
            }
            return Err(Error::Corrupt);
        }
        let cnt64 = get_u64_at(bytes, 0);
        let rest = bytes.len() - 8;
        if cnt64 > (rest / 8) as u64 {
            proof {
                if fl_bytes_wf(bytes@) {
                    let s = choose|s: Seq<u64>|
                        #[trigger] fl_encodes(bytes@, s) && sorted_strict(s) && (forall|j: int|
                            0 <= j < s.len() ==> 2 <= #[trigger] s[j] < MAX_PGID);
                    assert(bytes@.len() >= 8 + 8 * s.len());
                    assert(crate::codec::le_val(bytes@.subrange(0, 8)) == s.len());
                }
            }
            return Err(Error::Corrupt);
        }
        let cnt = cnt64 as usize;
        let mut ids: Vec<u64> = Vec::new();
        let mut j: usize = 0;
        while j < cnt
            invariant
                j <= cnt,
                8 + 8 * cnt <= usize::MAX,
                bytes@.len() >= 8 + 8 * cnt,
                cnt == crate::codec::le_val(bytes@.subrange(0, 8)),
                ids@.len() == j,
                sorted_strict(ids@),
                forall|j2: int| 0 <= j2 < j ==> 2 <= #[trigger] ids@[j2] < MAX_PGID,
                forall|j2: int|
                    0 <= j2 < j ==> #[trigger] ids@[j2] == crate::codec::le_val(
                        bytes@.subrange(8 + 8 * j2, 16 + 8 * j2),
                    ),
            decreases cnt - j,
        {
            let v = get_u64_at(bytes, 8 + 8 * j);
            proof {
                assert(v == crate::codec::le_val(
                    bytes@.subrange(8 + 8 * (j as int), 16 + 8 * (j as int)),
                ));
            }
            let bad_bound = v < 2 || v >= MAX_PGID;
            let bad_order = j > 0 && ids[j - 1] >= v;
            if bad_bound || bad_order {
                proof {
                    if fl_bytes_wf(bytes@) {
                        let s = choose|s: Seq<u64>|
                            #[trigger] fl_encodes(bytes@, s) && sorted_strict(s) && (forall|
                                j2: int,
                            |
                                0 <= j2 < s.len() ==> 2 <= #[trigger] s[j2] < MAX_PGID);
                        assert(s.len() == cnt);
                        assert(s[j as int] == v);
                        if bad_order {
                            assert(s[j - 1] == ids@[j - 1]);
                            assert(s[j - 1] < s[j as int]);
                        } else {
                            assert(2 <= s[j as int] < MAX_PGID);
                        }
                    }
                }
                return Err(Error::Corrupt);
            }
            let ghost pre = ids@;
            ids.push(v);
            proof {
                assert forall|i1: int, i2: int|
                    0 <= i1 < i2 < ids@.len() implies ids@[i1] < ids@[i2] by {
                    if i2 < pre.len() {
                        assert(pre[i1] < pre[i2]);
                    } else {
                        if i1 < pre.len() - 1 {
                            assert(pre[i1] < pre[pre.len() - 1]);
                        }
                    }
                }
            }
            j = j + 1;
        }
        let fl = Freelist { ids, pending: Vec::new() };
        proof {
            assert(fl_encodes(bytes@, fl.ids@));
            assert(fl_bytes_wf(bytes@));
        }
        Ok(fl)
    }
}

/// Round trip of freelist persistence: an image persisted with an empty
/// pending table (pending is always fully resolved by commit time in the
/// no-crash case) and loaded again yields the identical free set and no
/// pending entries.
pub proof fn lemma_persist_roundtrip(fl: Freelist, b: Seq<u8>, s: Seq<u64>, fl2: Freelist)
    requires
        fl.wf(),
        fl.pending@.len() == 0,
        sorted_strict(s),
        forall|p: u64| s.contains(p) <==> fl.tracks(p),
        fl_encodes(b, s),
        fl2.pending@.len() == 0,
        sorted_strict(fl2.ids@),
        fl_encodes(b, fl2.ids@),
    ensures
        fl2.ids@ == fl.ids@,
{
    lemma_fl_encodes_inj(b, s, fl2.ids@);
    assert forall|p: u64| s.contains(p) <==> fl.ids@.contains(p) by {
        if fl.in_pending(p) {
            let k = choose|k: int| 0 <= k < fl.pending@.len() && fl.entry_has(k, p);
        }
    }
    lemma_sorted_same_set(s, fl.ids@);
}

/// Whether `x` is a member of the list.
pub fn vec_contains(v: &Vec<u64>, x: u64) -> (r: bool)
    ensures
        r == v@.contains(x),
{
    let mut i: usize = 0;
    while i < v.len()
        invariant
            i <= v@.len(),
            forall|j: int| 0 <= j < i ==> v@[j] != x,
        decreases v@.len() - i,
    {
        if v[i] == x {
            return true;
        }
        i = i + 1;
    }
    false
}

/// Inserts `x` into a strictly sorted list, keeping it strictly sorted.
pub fn insert_sorted(v: &mut Vec<u64>, x: u64)
    requires
        sorted_strict(old(v)@),
        !old(v)@.contains(x),
    ensures
        sorted_strict(final(v)@),
        final(v)@.len() == old(v)@.len() + 1,
        forall|p: u64| final(v)@.contains(p) <==> old(v)@.contains(p) || p == x,
{
    let mut idx: usize = 0;
    while idx < v.len() && v[idx] < x
        invariant
            idx <= v@.len(),
            forall|j: int| 0 <= j < idx ==> v@[j] < x,
            v@ == old(v)@,
        decreases v@.len() - idx,
    {
        idx = idx + 1;
    }
    proof {
        if idx < v@.len() {
            assert(v@[idx as int] != x);
            assert(v@[idx as int] > x);
        }
    }
    v.insert(idx, x);
    proof {
        let pre = old(v)@;
        let post = v@;
        assert forall|i: int, j: int| 0 <= i < j < post.len() implies post[i] < post[j] by {
            assert(post =~= pre.subrange(0, idx as int).push(x) + pre.subrange(
                idx as int,
                pre.len() as int,
            ));
            if i < idx {
                assert(post[i] == pre[i]);
            }
            if j < idx {
                assert(post[j] == pre[j]);
            }
            if i > idx {
                assert(post[i] == pre[i - 1]);
            }
            if j > idx {
                assert(post[j] == pre[j - 1]);
                assert(pre[j - 1] >= pre[idx as int]);
            }
        }
        assert forall|p: u64| post.contains(p) <==> pre.contains(p) || p == x by {
            if post.contains(p) {
                let i = choose|i: int| 0 <= i < post.len() && post[i] == p;
                if i < idx {
                    assert(pre[i] == p);
                } else if i == idx {
                } else {
                    assert(pre[i - 1] == p);
                }
            }
            if pre.contains(p) {
                let i = choose|i: int| 0 <= i < pre.len() && pre[i] == p;
                if i < idx {
                    assert(post[i] == p);
                } else {
                    assert(post[i + 1] == p);
                }
            }
            if p == x {
                assert(post[idx as int] == p);
            }
        }
    }
}

} // verus!
