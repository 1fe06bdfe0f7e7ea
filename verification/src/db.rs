//! The database orchestrator: transaction lifecycle over the paged image.
//!
//! One writer at a time mutates a private dirty set and publishes it
//! atomically by writing the non-authoritative meta slot; any number of
//! readers hold immutable snapshots registered in the open-readers table.
//! Transactions live in the database's own registry and are addressed by
//! handle, so no handle ever owns a dangling pointer into the store.
//!
//! The central invariant, `inv`, carries snapshot isolation: every page a
//! reader captured at `begin` is outside the free set, outside every
//! pending entry old enough to be released while the reader lives, and
//! outside the writer's fresh allocations — so nothing the writer may
//! touch can change the bytes under an open reader.
use vstd::prelude::*;
use crate::errors::Error;
use crate::freelist::{Freelist, MAX_PGID};
use crate::meta::{
    meta_of_bytes, meta_valid_bytes, select_spec, Meta, FORMAT_VERSION, MAGIC, NO_FREELIST,
    NO_ROOT,
};
use crate::options::Options;
use crate::stats::{Stats, TxStats};
use crate::store::PageStore;

verus! {

/// Default page size used when the options leave it at zero.
pub const DEFAULT_PAGE_SIZE: usize = 4096;

/// A registered read transaction: its handle, the snapshot version it
/// reads at, and (in ghost state) the page bytes it may observe.
pub struct ReaderRec {
    /// Handle returned by `begin`.
    pub rid: u64,
    /// The committed transaction id this reader observes.
    pub txid: u64,
    /// The pages visible to this reader, with the bytes they held at
    /// `begin`.
    pub snap: Ghost<Map<u64, Seq<u8>>>,
}

/// The one open write transaction, if any.
pub struct WriterState {
    /// This writer's transaction id: one past the committed one.
    pub txid: u64,
    /// Root page id to publish at commit.
    pub root: u64,
    /// Private staged pages, ascending by page id; flushed at commit.
    pub dirty: Vec<(u64, Vec<u8>)>,
    /// Page ranges this transaction allocated, as (start, count).
    pub allocated: Vec<(u64, u64)>,
    /// Counters gathered by this transaction.
    pub tx_stats: TxStats,
}

/// Whether `p` lies in one of the ranges, each given as (start, count).
pub open spec fn ranges_has(rs: Seq<(u64, u64)>, p: u64) -> bool {
    exists|a: int| 0 <= a < rs.len() && (#[trigger] rs[a]).0 <= p < rs[a].0 + rs[a].1
}

/// Whether the writer allocated page `p` in one of its ranges.
pub open spec fn alloc_has(w: WriterState, p: u64) -> bool {
    ranges_has(w.allocated@, p)
}

/// Whether the writer staged page `p`.
pub open spec fn dirty_has(w: WriterState, p: u64) -> bool {
    exists|d: int| 0 <= d < w.dirty@.len() && (#[trigger] w.dirty@[d]).0 == p
}

/// Whether one of the first `n` staged entries is for page `p`.
pub open spec fn dirty_before(w: WriterState, n: int, p: u64) -> bool {
    exists|d: int| 0 <= d < n && d < w.dirty@.len() && (#[trigger] w.dirty@[d]).0 == p
}

/// The value a counter shows in a signed statistics field: clamped at
/// the field's maximum.
pub open spec fn gauge(n: nat) -> i64 {
    if n <= 0x7fff_ffff_ffff_ffff {
        n as i64
    } else {
        0x7fff_ffff_ffff_ffff
    }
}

/// The gauge value for a count that the implementation tallies through a
/// machine word: totals beyond the word saturate there first.
pub open spec fn pending_gauge(n: nat) -> i64 {
    if n <= usize::MAX {
        gauge(n)
    } else {
        gauge(usize::MAX as nat)
    }
}

/// Clamps a counter into a signed statistics field.
fn cap_i64(n: usize) -> (r: i64)
    ensures
        r == gauge(n as nat),
{
    if (n as u64) > 0x7fff_ffff_ffff_ffff {
        0x7fff_ffff_ffff_ffff
    } else {
        n as i64
    }
}

/// An embedded, single-file, transactional page store.
pub struct DB {
    /// Path the database was opened under.
    pub path: String,
    /// The policy knobs it was opened with.
    pub opts: Options,
    /// The paged image.
    pub store: PageStore,
    /// The decoded authoritative meta.
    pub meta: Meta,
    /// One past the highest page id ever allocated; never shrinks, even
    /// across rollbacks.
    pub high_water: u64,
    /// The free-page tracker.
    pub freelist: Freelist,
    /// The open read transactions.
    pub readers: Vec<ReaderRec>,
    /// The open write transaction, if any.
    pub writer: Option<WriterState>,
    /// Aggregate statistics.
    pub stats: Stats,
    /// Whether the database is open.
    pub opened: bool,
    /// Next reader handle to hand out.
    pub next_rid: u64,
}

impl DB {
    /// Whether the open writer (if any) allocated page `p`.
    pub open spec fn walloc(self, p: u64) -> bool {
        match self.writer {
            Some(w) => alloc_has(w, p),
            None => false,
        }
    }

    /// The largest transaction id in the system: the writer's if one is
    /// open, else the committed one.
    pub open spec fn tx_ceiling(self) -> u64 {
        match self.writer {
            Some(w) => w.txid,
            None => self.meta.txid,
        }
    }

    /// The pages a fresh reader may observe: committed, not reusable and
    /// not privately claimed by the open writer.
    pub open spec fn live(self, p: u64) -> bool {
        &&& 2 <= p < self.meta.watermark
        &&& !self.freelist.is_free(p)
        &&& !self.freelist.in_pending(p)
        &&& !self.walloc(p)
    }

    /// When a range may be freed by the open writer: committed pages,
    /// tracked nowhere, not claimed by the writer, and not the live
    /// persisted-freelist page.
    pub open spec fn free_ok(self, pgid: u64, overflow: u64) -> bool {
        &&& 2 <= pgid
        &&& pgid + overflow < self.meta.watermark
        &&& (self.meta.freelist != NO_FREELIST ==> !(pgid <= self.meta.freelist <= pgid
            + overflow))
        &&& forall|q: u64| #![trigger self.freelist.is_free(q)]
            pgid <= q <= pgid + overflow ==> !self.freelist.is_free(q)
                && !self.freelist.in_pending(q) && !self.walloc(q)
    }

    /// When `commit` fails with an io error: the transaction-id space is
    /// exhausted, or the freelist image (with the retired freelist page
    /// counted in) does not fit in one page, or the file cannot grow a
    /// page for it under the in-memory size cap.
    pub open spec fn commit_io_cause(self, txid: u64) -> bool {
        ||| txid >= u64::MAX - 1
    ||| (!self.opts.no_freelist_sync && (8 * (self.freelist.ids@.len()
            + crate::freelist::pending_total(self.freelist.pending@) + 1) + 8
            > self.store.page_size || ((forall|q: u64|
            !crate::freelist::has_run(self.freelist.ids@, q, 1)) && self.high_water
            > 0x1000_0000)))
    }

    /// What must hold of every registered reader: its snapshot pages are
    /// intact in the store and shielded from reuse while it lives.
    pub open spec fn reader_ok(self, r: ReaderRec) -> bool {
        &&& r.txid <= self.meta.txid
        &&& forall|p: u64| #[trigger] r.snap@.dom().contains(p) ==> {
            &&& 2 <= p < self.meta.watermark
            &&& p < self.store.pages@.len()
            &&& self.store.pages@[p as int]@ == r.snap@[p]
            &&& !self.freelist.is_free(p)
            &&& !self.freelist.in_pending_upto(p, r.txid)
            &&& !self.walloc(p)
        }
    }

    /// What must hold of the open writer: fresh ranges are in bounds,
    /// mutually disjoint and disjoint from everything reusable, and the
    /// staged pages are uniform blocks over its own allocations.
    pub open spec fn writer_ok(self, w: WriterState) -> bool {
        &&& w.txid == self.meta.txid + 1
        &&& w.root == NO_ROOT || 2 <= w.root < self.high_water
        &&& forall|a: int|
            0 <= a < w.allocated@.len() ==> 2 <= (#[trigger] w.allocated@[a]).0
                && 1 <= w.allocated@[a].1 && w.allocated@[a].0 + w.allocated@[a].1
                <= self.high_water
        &&& forall|a1: int, a2: int|
            0 <= a1 < a2 < w.allocated@.len() ==> (#[trigger] w.allocated@[a1]).0
                + w.allocated@[a1].1 <= (#[trigger] w.allocated@[a2]).0 || w.allocated@[a2].0
                + w.allocated@[a2].1 <= w.allocated@[a1].0
        &&& forall|p: u64|
            #[trigger] alloc_has(w, p) ==> !self.freelist.is_free(p) && !self.freelist.in_pending(
                p,
            )
        &&& forall|d: int|
            0 <= d < w.dirty@.len() ==> alloc_has(w, (#[trigger] w.dirty@[d]).0)
                && w.dirty@[d].1@.len() == self.store.page_size
        &&& forall|d1: int, d2: int|
            0 <= d1 < d2 < w.dirty@.len() ==> (#[trigger] w.dirty@[d1]).0
                < (#[trigger] w.dirty@[d2]).0
    }

    /// The database invariant, established by `open` and preserved by
    /// every operation.
    pub open spec fn inv(self) -> bool {
        &&& self.store.wf()
        &&& self.meta.magic == MAGIC
        &&& self.meta.version == FORMAT_VERSION
        &&& self.meta.page_size == self.store.page_size
        &&& 2 <= self.meta.watermark <= self.high_water
        &&& self.high_water <= self.store.pages@.len()
        &&& self.high_water < MAX_PGID
        &&& self.meta.txid < u64::MAX - 1
        &&& self.meta.root == NO_ROOT || 2 <= self.meta.root < self.meta.watermark
        &&& self.meta.freelist == NO_FREELIST || 2 <= self.meta.freelist < self.meta.watermark
        &&& self.meta.freelist != NO_FREELIST ==> !self.freelist.is_free(self.meta.freelist)
            && !self.freelist.in_pending(self.meta.freelist) && !self.walloc(self.meta.freelist)
        &&& self.freelist.wf()
        &&& forall|p: u64| #[trigger] self.freelist.is_free(p) ==> 2 <= p < self.high_water
        &&& forall|k: int, p: u64|
            0 <= k < self.freelist.pending@.len() && #[trigger] self.freelist.entry_has(k, p)
                ==> 2 <= p < self.high_water
        &&& forall|k: int|
            0 <= k < self.freelist.pending@.len() ==> 1 <= (
            #[trigger] self.freelist.pending@[k]).txid <= self.tx_ceiling()
        &&& match self.writer {
            Some(w) => self.writer_ok(w),
            None => true,
        }
        &&& forall|i: int|
            0 <= i < self.readers@.len() ==> self.reader_ok(#[trigger] self.readers@[i])
        &&& forall|i: int|
            0 <= i < self.readers@.len() ==> (#[trigger] self.readers@[i]).rid < self.next_rid
        &&& forall|i: int, j: int|
            0 <= i < j < self.readers@.len() ==> (#[trigger] self.readers@[i]).rid != (
            #[trigger] self.readers@[j]).rid
        &&& meta_valid_bytes(self.store.pages@[(self.meta.txid % 2) as int]@)
        &&& meta_of_bytes(self.store.pages@[(self.meta.txid % 2) as int]@) == self.meta
        &&& (meta_valid_bytes(self.store.pages@[((self.meta.txid + 1) % 2) as int]@)
            ==> meta_of_bytes(
            self.store.pages@[((self.meta.txid + 1) % 2) as int]@,
        ).txid < self.meta.txid)
    }

    /// The transaction id below which no open reader looks: pending
    /// entries keyed at or under it are safe to release. With no open
    /// reader everything committed is releasable.
    pub open spec fn release_upto(self) -> u64 {
        if self.readers@.len() == 0 {
            self.tx_ceiling()
        } else if min_reader_txid(self.readers@) == 0 {
            0
        } else {
            (min_reader_txid(self.readers@) - 1) as u64
        }
    }
}

/// The smallest snapshot version among the registered readers.
pub open spec fn min_reader_txid(rs: Seq<ReaderRec>) -> u64
    decreases rs.len(),
{
    if rs.len() == 0 {
        u64::MAX
    } else if rs.len() == 1 {
        rs[0].txid
    } else {
        let rest = min_reader_txid(rs.drop_last());
        if rs.last().txid < rest {
            rs.last().txid
        } else {
            rest
        }
    }
}

/// The minimum is a lower bound on, and attained by, the readers.
pub proof fn lemma_min_reader(rs: Seq<ReaderRec>)
    requires
        rs.len() > 0,
    ensures
        forall|i: int| 0 <= i < rs.len() ==> min_reader_txid(rs) <= (#[trigger] rs[i]).txid,
        exists|i: int| 0 <= i < rs.len() && (#[trigger] rs[i]).txid == min_reader_txid(rs),
    decreases rs.len(),
{
    if rs.len() == 1 {
        assert((rs[0]).txid == min_reader_txid(rs));
    } else {
        lemma_min_reader(rs.drop_last());
        assert(forall|i: int|
            0 <= i < rs.len() - 1 ==> rs.drop_last()[i] == #[trigger] rs[i]);
        let m = min_reader_txid(rs);
        if rs.last().txid < min_reader_txid(rs.drop_last()) {
            assert(rs[rs.len() - 1].txid == m);
        } else {
            let i = choose|i: int|
                0 <= i < rs.len() - 1 && (#[trigger] rs.drop_last()[i]).txid == min_reader_txid(
                    rs.drop_last(),
                );
            assert(rs[i].txid == m);
        }
    }
}

impl DB {
    /// The snapshot a reader opened now would capture: every live page
    /// with its current bytes.
    pub open spec fn snap_of(self) -> Map<u64, Seq<u8>> {
        Map::new(|p: u64| self.live(p), |p: u64| self.store.pages@[p as int]@)
    }

    /// Whether a reader with this handle is registered.
    pub open spec fn reader_registered(self, rid: u64) -> bool {
        exists|i: int| 0 <= i < self.readers@.len() && (#[trigger] self.readers@[i]).rid == rid
    }

    /// Opens a database: over a fresh image when `image` is `None`, else
    /// over the given paged image, validating and selecting the
    /// authoritative meta slot and loading the freelist it references.
    /// When the image carries no persisted freelist, the tree collaborator
    /// hands in the set of pages reachable from the root (its full-file
    /// scan), and the free set is rebuilt as every other page below the
    /// watermark.
    pub fn open(
        path: String,
        image: Option<Vec<Vec<u8>>>,
        reachable: Option<Vec<u64>>,
        opts: Options,
    ) -> (r: Result<DB, Error>)
        ensures
            match r {
                Ok(db) => {
                    &&& db.inv()
                    &&& db.opened
                    &&& db.opts == opts
                    &&& db.readers@.len() == 0
                    &&& db.writer is None
                    &&& db.next_rid == 0
                    &&& db.stats == (Stats {
                        free_page_n: gauge(db.freelist.ids@.len()),
                        pending_page_n: pending_gauge(
                            crate::freelist::pending_total(db.freelist.pending@),
                        ),
                        ..Stats::zero()
                    })
                    &&& match image {
                        None => {
                            &&& db.meta.txid == 0
                            &&& db.meta.root == NO_ROOT
                            &&& db.meta.freelist == NO_FREELIST
                            &&& db.meta.watermark == 2
                            &&& db.freelist.ids@.len() == 0
                            &&& db.freelist.pending@.len() == 0
                        },
                        Some(im) => {
                            &&& select_spec(im@[0]@, im@[1]@) == Some(
                                (db.meta, (db.meta.txid % 2) as usize),
                            )
                            &&& db.store.pages@.len() >= im@.len()
                            &&& forall|i: int|
                                0 <= i < im@.len() ==> (#[trigger] db.store.pages@[i])@ == im@[i]@
                            &&& db.high_water == db.meta.watermark
                            &&& db.freelist.pending@.len() == 0
                            &&& (db.meta.freelist == NO_FREELIST ==> (reachable matches Some(
                                rs,
                            ) ==> (forall|p: u64| #![trigger db.freelist.is_free(p)]
                                db.freelist.is_free(p) <==> 2 <= p < db.meta.watermark
                                    && !rs@.contains(p))))
                            &&& ((db.meta.freelist == NO_FREELIST && reachable is None) || (
                            db.meta.freelist != NO_FREELIST && opts.read_only
                                && !opts.pre_load_freelist) ==> db.freelist.ids@.len() == 0)
                            &&& (db.meta.freelist != NO_FREELIST && !(opts.read_only
                                && !opts.pre_load_freelist) ==> crate::freelist::fl_encodes(
                                im@[db.meta.freelist as int]@,
                                db.freelist.ids@,
                            ))
                        },
                    }
                },
                Err(e) => {
                    &&& (e == Error::Corrupt || e == Error::Io)
                    &&& (image is Some ==> e == Error::Corrupt)
                },
            },
            image is None && (opts.page_size == 0 || 64 <= opts.page_size <= 0x1000_0000)
                ==> r is Ok,
    {
        match image {
            None => {
                let ps: usize = if opts.page_size == 0 {
                    DEFAULT_PAGE_SIZE
                } else {
                    opts.page_size
                };
                if ps < 64 || ps > 0x1000_0000 {
                    return Err(Error::Io);
                }
                let m = Meta {
                    magic: MAGIC,
                    version: FORMAT_VERSION,
                    page_size: ps as u64,
                    root: NO_ROOT,
                    freelist: NO_FREELIST,
                    watermark: 2,
                    txid: 0,
                };
                let page0 = crate::meta::write_meta(&m, ps);
                let page1: Vec<u8> = vec![0u8; ps];
                let mut pages: Vec<Vec<u8>> = Vec::new();
                pages.push(page0);
                pages.push(page1);
                let mut store = PageStore { page_size: ps, pages, syncs: 0 };
                let want = opts.initial_mmap_size / (ps as u64);
                if want > 2 && want <= 0x0010_0000 {
                    store.grow_to(want as usize);
                }
                proof {
                    let s1 = store.pages@[1]@;
                    assert(forall|i: int| 0 <= i < s1.len() ==> s1[i] == 0);
                    crate::codec::lemma_le_val_zero(s1.subrange(0, 8));
                    assert(crate::meta::meta_word(s1, 0) == 0);
                    assert(!meta_valid_bytes(s1));
                }
                let db = DB {
                    path,
                    opts,
                    store,
                    meta: m,
                    high_water: 2,
                    freelist: Freelist::new(),
                    readers: Vec::new(),
                    writer: None,
                    stats: Stats::new(),
                    opened: true,
                    next_rid: 0,
                };
                proof {
                    assert(db.stats == (Stats {
                        free_page_n: gauge(db.freelist.ids@.len()),
                        pending_page_n: pending_gauge(
                            crate::freelist::pending_total(db.freelist.pending@),
                        ),
                        ..Stats::zero()
                    }));
                }
                Ok(db)
            },
            Some(image_pages) => {
                if image_pages.len() < 2 {
                    return Err(Error::Corrupt);
                }
                let ps = image_pages[0].len();
                if ps < 64 || ps > 0x1000_0000 {
                    return Err(Error::Corrupt);
                }
                if !pages_uniform(&image_pages, ps) {
                    return Err(Error::Corrupt);
                }
                let (m, slot) = match crate::meta::select(&image_pages[0], &image_pages[1]) {
                    Ok(x) => x,
                    Err(e) => {
                        return Err(e);
                    },
                };
                let other: usize = if slot == 0 {
                    1
                } else {
                    0
                };
                match crate::meta::validate(&image_pages[other]) {
                    Ok(m2) => {
                        if m2.txid >= m.txid {
                            return Err(Error::Corrupt);
                        }
                    },
                    Err(_) => {},
                }
                if m.txid % 2 != (slot as u64) {
                    return Err(Error::Corrupt);
                }
                if m.page_size != ps as u64 {
                    return Err(Error::Corrupt);
                }
                if m.watermark < 2 || m.watermark > image_pages.len() as u64 || m.watermark
                    >= MAX_PGID {
                    return Err(Error::Corrupt);
                }
                if m.txid >= u64::MAX - 1 {
                    return Err(Error::Corrupt);
                }
                if m.root != NO_ROOT && (m.root < 2 || m.root >= m.watermark) {
                    return Err(Error::Corrupt);
                }
                if m.freelist != NO_FREELIST && (m.freelist < 2 || m.freelist >= m.watermark) {
                    return Err(Error::Corrupt);
                }
                let load_fl = m.freelist != NO_FREELIST && !(opts.read_only
                    && !opts.pre_load_freelist);
                let rebuild = m.freelist == NO_FREELIST && reachable.is_some();
                let freelist = if rebuild {
                    let rs = match &reachable {
                        Some(rs) => rs,
                        None => {
                            return Err(Error::Corrupt);
                        },
                    };
                    let mut ids: Vec<u64> = Vec::new();
                    let mut p: u64 = 2;
                    while p < m.watermark
                        invariant
                            2 <= p <= m.watermark,
                            crate::freelist::sorted_strict(ids@),
                            forall|q: u64| #[trigger] ids@.contains(q) ==> 2 <= q < p,
                            forall|q: u64|
                                2 <= q < p ==> (#[trigger] ids@.contains(q) <==> !rs@.contains(
                                    q,
                                )),
                        decreases m.watermark - p,
                    {
                        if !crate::freelist::vec_contains(rs, p) {
                            let ghost pre = ids@;
                            ids.push(p);
                            proof {
                                assert forall|i1: int, i2: int|
                                    0 <= i1 < i2 < ids@.len() implies ids@[i1] < ids@[i2] by {
                                    if i2 < pre.len() {
                                        assert(pre[i1] < pre[i2]);
                                    } else {
                                        assert(pre.contains(pre[i1]));
                                    }
                                }
                                assert(ids@[ids@.len() - 1] == p);
                                assert(ids@.contains(p));
                                assert forall|q: u64| #[trigger] ids@.contains(q) implies 2 <= q
                                    < p + 1 by {
                                    if q != p {
                                        assert(pre.contains(q));
                                    }
                                }
                                assert forall|q: u64|
                                    2 <= q < p + 1 implies (#[trigger] ids@.contains(q)
                                        <==> !rs@.contains(q)) by {
                                    if q != p && ids@.contains(q) {
                                        assert(pre.contains(q));
                                    }
                                    if q != p && pre.contains(q) {
                                        assert(ids@[choose|i: int|
                                            0 <= i < pre.len() && pre[i] == q] == q);
                                    }
                                }
                            }
                        } else {
                            proof {
                                assert(!ids@.contains(p));
                            }
                        }
                        p = p + 1;
                    }
                    proof {
                        assert forall|i: int|
                            0 <= i < ids@.len() implies 2 <= #[trigger] ids@[i] < MAX_PGID by {
                            assert(ids@.contains(ids@[i]));
                        }
                    }
                    Freelist { ids, pending: Vec::new() }
                } else if load_fl {
                    let fl = match Freelist::load(&image_pages[m.freelist as usize]) {
                        Ok(fl) => fl,
                        Err(_) => {
                            return Err(Error::Corrupt);
                        },
                    };
                    if fl.ids.len() > 0 {
                        let last = fl.ids[fl.ids.len() - 1];
                        if last >= m.watermark {
                            return Err(Error::Corrupt);
                        }
                    }
                    if crate::freelist::vec_contains(&fl.ids, m.freelist) {
                        return Err(Error::Corrupt);
                    }
                    proof {
                        assert forall|p: u64| #[trigger] fl.ids@.contains(p) implies 2 <= p
                            < m.watermark by {
                            let ix = choose|ix: int| 0 <= ix < fl.ids@.len() && fl.ids@[ix] == p;
                            if ix < fl.ids@.len() - 1 {
                                assert(fl.ids@[ix] < fl.ids@[fl.ids@.len() - 1]);
                            }
                        }
                    }
                    fl
                } else {
                    Freelist::new()
                };
                let mut store = PageStore { page_size: ps, pages: image_pages, syncs: 0 };
                let want = opts.initial_mmap_size / (ps as u64);
                if want > store.pages.len() as u64 && want <= 0x0010_0000 {
                    store.grow_to(want as usize);
                }
                let mut stats = Stats::new();
                let fp = freelist.free_count();
                stats.set_free_page_n(cap_i64(fp));
                let pp = freelist.pending_count();
                stats.set_pending_page_n(cap_i64(pp));
                let db = DB {
                    path,
                    opts,
                    store,
                    meta: m,
                    high_water: m.watermark,
                    freelist,
                    readers: Vec::new(),
                    writer: None,
                    stats,
                    opened: true,
                    next_rid: 0,
                };
                proof {
                    assert forall|p: u64| #[trigger] db.freelist.is_free(p) implies 2 <= p
                        < db.high_water by {}
                    if m.freelist == NO_FREELIST {
                        match reachable {
                            Some(rs) => {
                                assert forall|p: u64| #![trigger db.freelist.is_free(p)]
                                    db.freelist.is_free(p) <==> 2 <= p < db.meta.watermark
                                        && !rs@.contains(p) by {
                                    if db.freelist.is_free(p) {
                                        assert(db.freelist.ids@.contains(p));
                                    }
                                }
                            },
                            None => {},
                        }
                    }
                }
                Ok(db)
            },
        }
    }
}

impl DB {
    /// Starts a read-only transaction: captures the authoritative meta by
    /// value, registers the snapshot in the open-readers table and returns
    /// its handle. The snapshot must be closed again with `close_reader`,
    /// or the database can never reclaim pages freed after it.
    pub fn begin(&mut self) -> (r: Result<u64, Error>)
        requires
            old(self).inv(),
        ensures
            final(self).inv(),
            match r {
                Ok(rid) => {
                    &&& old(self).opened && old(self).next_rid < u64::MAX
                    &&& rid == old(self).next_rid
                    &&& final(self).readers@ == old(self).readers@.push(
                        ReaderRec {
                            rid,
                            txid: old(self).meta.txid,
                            snap: Ghost(old(self).snap_of()),
                        },
                    )
                    &&& final(self).next_rid == rid + 1
                    &&& final(self).stats.tx_n == vstd::wrapping::i64_specs::wrapping_add(
                        old(self).stats.tx_n,
                        1,
                    )
                    &&& final(self).stats.open_tx_n == vstd::wrapping::i64_specs::wrapping_add(
                        old(self).stats.open_tx_n,
                        1,
                    )
                    &&& final(self).meta == old(self).meta
                    &&& final(self).store == old(self).store
                    &&& final(self).freelist == old(self).freelist
                    &&& final(self).writer == old(self).writer
                    &&& final(self).high_water == old(self).high_water
                    &&& final(self).opened
                    &&& final(self).stats == (Stats {
                        tx_n: final(self).stats.tx_n,
                        open_tx_n: final(self).stats.open_tx_n,
                        ..old(self).stats
                    })
                },
                Err(e) => {
                    &&& *final(self) == *old(self)
                    &&& (e == Error::DatabaseNotOpen || e == Error::Io)
                    &&& (e == Error::DatabaseNotOpen <==> !old(self).opened)
                    &&& (e == Error::Io <==> old(self).opened && old(self).next_rid == u64::MAX)
                },
            },
            final(self).opts == old(self).opts,
            final(self).path@ == old(self).path@,
    {
        if !self.opened {
            return Err(Error::DatabaseNotOpen);
        }
        if self.next_rid == u64::MAX {
            return Err(Error::Io);
        }
        let rid = self.next_rid;
        let rec = ReaderRec { rid, txid: self.meta.txid, snap: Ghost(self.snap_of()) };
        self.readers.push(rec);
        self.next_rid = rid + 1;
        let n = self.stats.get_tx_n().wrapping_add(1);
        self.stats.set_tx_n(n);
        let n2 = self.stats.get_open_tx_n().wrapping_add(1);
        self.stats.set_open_tx_n(n2);
        proof {
            let o = *old(self);
            let f = *self;
            assert forall|i: int|
                0 <= i < f.readers@.len() implies f.reader_ok(#[trigger] f.readers@[i]) by {
                if i < o.readers@.len() {
                    assert(o.reader_ok(o.readers@[i]));
                    assert(f.readers@[i] == o.readers@[i]);
                } else {
                    let r = f.readers@[i];
                    assert(r.snap@ == o.snap_of());
                    assert forall|p: u64| #[trigger] r.snap@.dom().contains(p) implies {
                        &&& 2 <= p < f.meta.watermark
                        &&& p < f.store.pages@.len()
                        &&& f.store.pages@[p as int]@ == r.snap@[p]
                        &&& !f.freelist.is_free(p)
                        &&& !f.freelist.in_pending_upto(p, r.txid)
                        &&& !f.walloc(p)
                    } by {
                        assert(o.live(p));
                        if o.freelist.in_pending_upto(p, r.txid) {
                            let k = choose|k: int|
                                0 <= k < o.freelist.pending@.len() && o.freelist.pending@[k].txid
                                    <= r.txid && o.freelist.entry_has(k, p);
                            assert(o.freelist.in_pending(p));
                        }
                    }
                }
            }
        }
        Ok(rid)
    }

    /// Reads one page through an open read transaction. The returned
    /// bytes are the page's current bytes; for every page in the reader's
    /// snapshot they equal the bytes at the reader's `begin` — a reader
    /// never observes a mix of pre- and post-commit pages.
    pub fn read_page(&self, rid: u64, pgid: u64) -> (r: Result<Vec<u8>, Error>)
        requires
            self.inv(),
        ensures
            match r {
                Ok(bytes) => {
                    &&& self.reader_registered(rid)
                    &&& pgid < self.store.pages@.len()
                    &&& bytes@ == self.store.pages@[pgid as int]@
                    &&& forall|i: int|
                        0 <= i < self.readers@.len() && (#[trigger] self.readers@[i]).rid == rid
                            && self.readers@[i].snap@.dom().contains(pgid) ==> bytes@
                            == self.readers@[i].snap@[pgid]
                },
                Err(e) => {
                    &&& (e == Error::TxClosed || e == Error::Io)
                    &&& (e == Error::TxClosed <==> !self.reader_registered(rid))
                    &&& (e == Error::Io <==> self.reader_registered(rid) && pgid
                        >= self.store.pages@.len())
                },
            },
    {
        let mut i: usize = 0;
        while i < self.readers.len() && self.readers[i].rid != rid
            invariant
                i <= self.readers@.len(),
                forall|j: int| 0 <= j < i ==> (#[trigger] self.readers@[j]).rid != rid,
            decreases self.readers@.len() - i,
        {
            i = i + 1;
        }
        if i == self.readers.len() {
            proof {
                if self.reader_registered(rid) {
                    let j = choose|j: int|
                        0 <= j < self.readers@.len() && (#[trigger] self.readers@[j]).rid == rid;
                    assert(self.readers@[j].rid != rid);
                }
            }
            return Err(Error::TxClosed);
        }
        if pgid >= self.store.len() as u64 {
            return Err(Error::Io);
        }
        let bytes = self.store.read_page(pgid as usize);
        proof {
            assert forall|j: int|
                0 <= j < self.readers@.len() && (#[trigger] self.readers@[j]).rid == rid
                    && self.readers@[j].snap@.dom().contains(pgid) implies bytes@
                == self.readers@[j].snap@[pgid] by {
                assert(self.reader_ok(self.readers@[j]));
            }
        }
        Ok(bytes)
    }

    /// Closes a read transaction: deregisters its snapshot and releases
    /// every pending entry that no remaining reader can still reach.
    pub fn close_reader(&mut self, rid: u64) -> (r: Result<(), Error>)
        requires
            old(self).inv(),
        ensures
            final(self).inv(),
            match r {
                Ok(()) => {
                    &&& exists|i: int|
                        0 <= i < old(self).readers@.len() && (#[trigger] old(self).readers@[i]).rid == rid && final(self).readers@ == old(self).readers@.remove(i)
                    &&& final(self).meta == old(self).meta
                    &&& final(self).store == old(self).store
                    &&& final(self).writer == old(self).writer
                    &&& final(self).high_water == old(self).high_water
                    &&& final(self).opened == old(self).opened
                    &&& forall|p: u64|
                        final(self).freelist.is_free(p) <==> old(self).freelist.is_free(p) || old(self).freelist.in_pending_upto(p, final(self).release_upto())
                    &&& forall|t: u64, p: u64|
                        final(self).freelist.in_pending_tx(t, p) <==> t > final(self).release_upto() && old(self).freelist.in_pending_tx(t, p)
                    &&& final(self).stats == (Stats {
                        open_tx_n: vstd::wrapping::i64_specs::wrapping_sub(
                            old(self).stats.open_tx_n,
                            1,
                        ),
                        free_page_n: gauge(final(self).freelist.ids@.len()),
                        pending_page_n: pending_gauge(
                            crate::freelist::pending_total(final(self).freelist.pending@),
                        ),
                        ..old(self).stats
                    })
                },
                Err(e) => {
                    &&& *final(self) == *old(self)
                    &&& e == Error::TxClosed
                    &&& !old(self).reader_registered(rid)
                },
            },
            final(self).opts == old(self).opts,
            final(self).path@ == old(self).path@,
            final(self).next_rid == old(self).next_rid,
            final(self).opened == old(self).opened,
    {
        let ghost o = *old(self);
        let mut i: usize = 0;
        while i < self.readers.len() && self.readers[i].rid != rid
            invariant
                *self == o,
                i <= self.readers@.len(),
                forall|j: int| 0 <= j < i ==> (#[trigger] self.readers@[j]).rid != rid,
            decreases self.readers@.len() - i,
        {
            i = i + 1;
        }
        if i == self.readers.len() {
            proof {
                if self.reader_registered(rid) {
                    let j = choose|j: int|
                        0 <= j < self.readers@.len() && (#[trigger] self.readers@[j]).rid == rid;
                    assert(self.readers@[j].rid != rid);
                }
            }
            return Err(Error::TxClosed);
        }
        let _ = self.readers.remove(i);
        let upto = self.compute_release_upto();
        self.freelist.release(upto);
        let n2 = self.stats.get_open_tx_n().wrapping_sub(1);
        self.stats.set_open_tx_n(n2);
        let fp = self.freelist.free_count();
        self.stats.set_free_page_n(cap_i64(fp));
        let pp = self.freelist.pending_count();
        self.stats.set_pending_page_n(cap_i64(pp));
        proof {
            let f = *self;
            assert(f.readers@ == o.readers@.remove(i as int));
            assert(o.readers@[i as int].rid == rid);
            if f.readers@.len() > 0 {
                lemma_min_reader(f.readers@);
                let j = choose|j: int|
                    0 <= j < f.readers@.len() && (#[trigger] f.readers@[j]).txid
                        == min_reader_txid(f.readers@);
                let jo: int = if j < i {
                    j
                } else {
                    j + 1
                };
                assert(f.readers@[j] == o.readers@[jo]);
                assert(o.reader_ok(o.readers@[jo]));
                assert(min_reader_txid(f.readers@) <= o.meta.txid);
            }
            assert(upto <= o.tx_ceiling());
            lemma_inv_after_release(o, f, upto, i as int);
        }
        Ok(())
    }

    /// Computes the largest transaction id whose pending pages no open
    /// reader can still reach.
    fn compute_release_upto(&self) -> (upto: u64)
        ensures
            upto == self.release_upto(),
    {
        if self.readers.len() == 0 {
            match &self.writer {
                Some(w) => w.txid,
                None => self.meta.txid,
            }
        } else {
            let m = compute_min_reader(&self.readers);
            if m == 0 {
                0
            } else {
                m - 1
            }
        }
    }
}

/// After removing reader `i` from `o` and releasing up to the remaining
/// readers' horizon, the invariant still holds.
proof fn lemma_inv_after_release(o: DB, f: DB, upto: u64, i: int)
    requires
        o.inv(),
        0 <= i < o.readers@.len(),
        f.readers@ == o.readers@.remove(i),
        f.meta == o.meta,
        f.store == o.store,
        f.writer == o.writer,
        f.high_water == o.high_water,
        f.next_rid == o.next_rid,
        f.opened == o.opened,
        upto == f.release_upto(),
        f.freelist.wf(),
        forall|p: u64|
            f.freelist.is_free(p) <==> o.freelist.is_free(p) || o.freelist.in_pending_upto(
                p,
                upto,
            ),
        forall|t: u64, p: u64|
            f.freelist.in_pending_tx(t, p) <==> t > upto && o.freelist.in_pending_tx(t, p),
        forall|p: u64|
            f.freelist.in_pending(p) <==> o.freelist.in_pending(p) && !o.freelist.in_pending_upto(
                p,
                upto,
            ),
        forall|t: u64| f.freelist.has_key(t) <==> t > upto && o.freelist.has_key(t),
        upto <= o.tx_ceiling(),
    ensures
        f.inv(),
{
    assert(f.tx_ceiling() == o.tx_ceiling());
    // the persisted-freelist pointer stays untracked
    if f.meta.freelist != NO_FREELIST {
        let flp = f.meta.freelist;
        assert(!o.freelist.is_free(flp));
        if o.freelist.in_pending_upto(flp, upto) {
            let k = choose|k: int|
                0 <= k < o.freelist.pending@.len() && o.freelist.pending@[k].txid <= upto
                    && o.freelist.entry_has(k, flp);
            assert(o.freelist.in_pending(flp));
        }
        assert(!f.freelist.is_free(flp));
        assert(!f.freelist.in_pending(flp));
    }
    // free-set bound
    assert forall|p: u64| #[trigger] f.freelist.is_free(p) implies 2 <= p < f.high_water by {
        if !o.freelist.is_free(p) {
            let k = choose|k: int|
                0 <= k < o.freelist.pending@.len() && o.freelist.pending@[k].txid <= upto
                    && o.freelist.entry_has(k, p);
        }
    }
    // pending bounds and keys
    assert forall|k: int, p: u64|
        0 <= k < f.freelist.pending@.len() && #[trigger] f.freelist.entry_has(k, p) implies 2 <= p
        < f.high_water by {
        let t = f.freelist.pending@[k].txid;
        assert(f.freelist.in_pending_tx(t, p));
        assert(o.freelist.in_pending_tx(t, p));
        let k2 = choose|k2: int|
            0 <= k2 < o.freelist.pending@.len() && o.freelist.pending@[k2].txid == t
                && o.freelist.entry_has(k2, p);
    }
    assert forall|k: int| 0 <= k < f.freelist.pending@.len() implies 1 <= (
    #[trigger] f.freelist.pending@[k]).txid <= f.tx_ceiling() by {
        let t = f.freelist.pending@[k].txid;
        assert(f.freelist.has_key(t));
        assert(o.freelist.has_key(t));
        let k2 = choose|k2: int|
            0 <= k2 < o.freelist.pending@.len() && (#[trigger] o.freelist.pending@[k2]).txid == t;
        assert(1 <= o.freelist.pending@[k2].txid <= o.tx_ceiling());
    }
    // writer, if open
    match f.writer {
        Some(w) => {
            assert(o.writer_ok(w));
            assert forall|p: u64| #[trigger] alloc_has(w, p) implies !f.freelist.is_free(p)
                && !f.freelist.in_pending(p) by {
                if o.freelist.in_pending_upto(p, upto) {
                    let k = choose|k: int|
                        0 <= k < o.freelist.pending@.len() && o.freelist.pending@[k].txid <= upto
                            && o.freelist.entry_has(k, p);
                    assert(o.freelist.in_pending(p));
                }
            }
            assert(f.writer_ok(w));
        },
        None => {},
    }
    // remaining readers
    assert forall|j: int|
        0 <= j < f.readers@.len() implies f.reader_ok(#[trigger] f.readers@[j]) by {
        let jo: int = if j < i {
            j
        } else {
            j + 1
        };
        let r = f.readers@[j];
        assert(r == o.readers@[jo]);
        assert(o.reader_ok(r));
        assert(f.readers@.len() > 0);
        lemma_min_reader(f.readers@);
        assert(min_reader_txid(f.readers@) <= r.txid);
        assert(upto < min_reader_txid(f.readers@) || upto == 0 && min_reader_txid(f.readers@)
            == 0);
        assert forall|p: u64| #[trigger] r.snap@.dom().contains(p) implies {
            &&& 2 <= p < f.meta.watermark
            &&& p < f.store.pages@.len()
            &&& f.store.pages@[p as int]@ == r.snap@[p]
            &&& !f.freelist.is_free(p)
            &&& !f.freelist.in_pending_upto(p, r.txid)
            &&& !f.walloc(p)
        } by {
            if o.freelist.in_pending_upto(p, upto) {
                let k = choose|k: int|
                    0 <= k < o.freelist.pending@.len() && o.freelist.pending@[k].txid <= upto
                        && o.freelist.entry_has(k, p);
                assert(o.freelist.pending@[k].txid <= r.txid);
                assert(o.freelist.in_pending_upto(p, r.txid));
            }
            if f.freelist.in_pending_upto(p, r.txid) {
                let k = choose|k: int|
                    0 <= k < f.freelist.pending@.len() && f.freelist.pending@[k].txid <= r.txid
                        && f.freelist.entry_has(k, p);
                let t = f.freelist.pending@[k].txid;
                assert(f.freelist.in_pending_tx(t, p));
                let k2 = choose|k2: int|
                    0 <= k2 < o.freelist.pending@.len() && o.freelist.pending@[k2].txid == t
                        && o.freelist.entry_has(k2, p);
                assert(o.freelist.in_pending_upto(p, r.txid));
            }
        }
    }
    assert forall|j1: int, j2: int|
        0 <= j1 < j2 < f.readers@.len() implies (#[trigger] f.readers@[j1]).rid != (
    #[trigger] f.readers@[j2]).rid by {
        let o1: int = if j1 < i {
            j1
        } else {
            j1 + 1
        };
        let o2: int = if j2 < i {
            j2
        } else {
            j2 + 1
        };
        assert(f.readers@[j1] == o.readers@[o1]);
        assert(f.readers@[j2] == o.readers@[o2]);
    }
    assert forall|j: int| 0 <= j < f.readers@.len() implies (#[trigger] f.readers@[j]).rid
        < f.next_rid by {
        let jo: int = if j < i {
            j
        } else {
            j + 1
        };
        assert(f.readers@[j] == o.readers@[jo]);
    }
}

/// After releasing pending entries up to `upto` in an otherwise
/// unchanged database, the invariant still holds.
proof fn lemma_inv_release_same_readers(o: DB, f: DB, upto: u64)
    requires
        o.inv(),
        f.readers@ == o.readers@,
        f.meta == o.meta,
        f.store == o.store,
        f.writer == o.writer,
        f.high_water == o.high_water,
        f.next_rid == o.next_rid,
        f.opened == o.opened,
        f.freelist.wf(),
        forall|p: u64|
            f.freelist.is_free(p) <==> o.freelist.is_free(p) || o.freelist.in_pending_upto(
                p,
                upto,
            ),
        forall|t: u64, p: u64|
            f.freelist.in_pending_tx(t, p) <==> t > upto && o.freelist.in_pending_tx(t, p),
        forall|p: u64|
            f.freelist.in_pending(p) <==> o.freelist.in_pending(p) && !o.freelist.in_pending_upto(
                p,
                upto,
            ),
        forall|t: u64| f.freelist.has_key(t) <==> t > upto && o.freelist.has_key(t),
        upto <= o.tx_ceiling(),
        forall|j: int|
            0 <= j < o.readers@.len() ==> upto == 0 || upto < (#[trigger] o.readers@[j]).txid,
    ensures
        f.inv(),
{
    assert(f.tx_ceiling() == o.tx_ceiling());
    if f.meta.freelist != NO_FREELIST {
        let flp = f.meta.freelist;
        assert(!o.freelist.is_free(flp));
        if o.freelist.in_pending_upto(flp, upto) {
            let k = choose|k: int|
                0 <= k < o.freelist.pending@.len() && o.freelist.pending@[k].txid <= upto
                    && o.freelist.entry_has(k, flp);
            assert(o.freelist.in_pending(flp));
        }
        assert(!f.freelist.is_free(flp));
        assert(!f.freelist.in_pending(flp));
    }
    assert forall|p: u64| #[trigger] f.freelist.is_free(p) implies 2 <= p < f.high_water by {
        if !o.freelist.is_free(p) {
            let k = choose|k: int|
                0 <= k < o.freelist.pending@.len() && o.freelist.pending@[k].txid <= upto
                    && o.freelist.entry_has(k, p);
        }
    }
    assert forall|k: int, p: u64|
        0 <= k < f.freelist.pending@.len() && #[trigger] f.freelist.entry_has(k, p) implies 2 <= p
        < f.high_water by {
        let t = f.freelist.pending@[k].txid;
        assert(f.freelist.in_pending_tx(t, p));
        assert(o.freelist.in_pending_tx(t, p));
        let k2 = choose|k2: int|
            0 <= k2 < o.freelist.pending@.len() && o.freelist.pending@[k2].txid == t
                && o.freelist.entry_has(k2, p);
    }
    assert forall|k: int| 0 <= k < f.freelist.pending@.len() implies 1 <= (
    #[trigger] f.freelist.pending@[k]).txid <= f.tx_ceiling() by {
        let t = f.freelist.pending@[k].txid;
        assert(f.freelist.has_key(t));
        assert(o.freelist.has_key(t));
        let k2 = choose|k2: int|
            0 <= k2 < o.freelist.pending@.len() && (#[trigger] o.freelist.pending@[k2]).txid == t;
        assert(1 <= o.freelist.pending@[k2].txid <= o.tx_ceiling());
    }
    match f.writer {
        Some(w) => {
            assert(o.writer_ok(w));
            assert forall|p: u64| #[trigger] alloc_has(w, p) implies !f.freelist.is_free(p)
                && !f.freelist.in_pending(p) by {
                if o.freelist.in_pending_upto(p, upto) {
                    let k = choose|k: int|
                        0 <= k < o.freelist.pending@.len() && o.freelist.pending@[k].txid <= upto
                            && o.freelist.entry_has(k, p);
                    assert(o.freelist.in_pending(p));
                }
            }
            assert(f.writer_ok(w));
        },
        None => {},
    }
    assert forall|j: int|
        0 <= j < f.readers@.len() implies f.reader_ok(#[trigger] f.readers@[j]) by {
        let r = f.readers@[j];
        assert(r == o.readers@[j]);
        assert(o.reader_ok(r));
        assert forall|p: u64| #[trigger] r.snap@.dom().contains(p) implies {
            &&& 2 <= p < f.meta.watermark
            &&& p < f.store.pages@.len()
            &&& f.store.pages@[p as int]@ == r.snap@[p]
            &&& !f.freelist.is_free(p)
            &&& !f.freelist.in_pending_upto(p, r.txid)
            &&& !f.walloc(p)
        } by {
            if o.freelist.in_pending_upto(p, upto) {
                let k = choose|k: int|
                    0 <= k < o.freelist.pending@.len() && o.freelist.pending@[k].txid <= upto
                        && o.freelist.entry_has(k, p);
                assert(o.freelist.pending@[k].txid >= 1);
                assert(upto >= 1);
                assert(upto < r.txid);
                assert(o.freelist.in_pending_upto(p, r.txid));
            }
            if f.freelist.in_pending_upto(p, r.txid) {
                let k = choose|k: int|
                    0 <= k < f.freelist.pending@.len() && f.freelist.pending@[k].txid <= r.txid
                        && f.freelist.entry_has(k, p);
                let t = f.freelist.pending@[k].txid;
                assert(f.freelist.in_pending_tx(t, p));
                let k2 = choose|k2: int|
                    0 <= k2 < o.freelist.pending@.len() && o.freelist.pending@[k2].txid == t
                        && o.freelist.entry_has(k2, p);
                assert(o.freelist.in_pending_upto(p, r.txid));
            }
        }
    }
}

/// Writers with the same recorded ranges allocate the same pages.
proof fn lemma_alloc_has_eq(w0: WriterState, w1: WriterState)
    requires
        w0.allocated@ == w1.allocated@,
    ensures
        forall|p: u64| alloc_has(w0, p) <==> alloc_has(w1, p),
{
    assert forall|p: u64| alloc_has(w0, p) <==> alloc_has(w1, p) by {
        if alloc_has(w0, p) {
            let a = choose|a: int|
                0 <= a < w0.allocated@.len() && (#[trigger] w0.allocated@[a]).0 <= p
                    < w0.allocated@[a].0 + w0.allocated@[a].1;
            assert((#[trigger] w1.allocated@[a]).0 <= p < w1.allocated@[a].0 + w1.allocated@[a].1);
        }
        if alloc_has(w1, p) {
            let a = choose|a: int|
                0 <= a < w1.allocated@.len() && (#[trigger] w1.allocated@[a]).0 <= p
                    < w1.allocated@[a].0 + w1.allocated@[a].1;
            assert((#[trigger] w0.allocated@[a]).0 <= p < w0.allocated@[a].0 + w0.allocated@[a].1);
        }
    }
}


/// After recording one fresh allocation — taken from the free list or
/// carved out past the old high-water mark — the invariant still holds.
#[verifier::rlimit(100)]
proof fn lemma_tx_allocate_inv(
    o: DB,
    f: DB,
    w0: WriterState,
    w1: WriterState,
    p: u64,
    count: usize,
    from_free: bool,
)
    requires
        o.inv(),
        o.writer == Some(w0),
        f.writer == Some(w1),
        1 <= count <= 0x1000,
        w1.allocated@ == w0.allocated@.push((p, count as u64)),
        w1.dirty@ == w0.dirty@,
        w1.root == w0.root,
        w1.txid == w0.txid,
        f.meta == o.meta,
        f.readers@ == o.readers@,
        f.next_rid == o.next_rid,
        f.opened == o.opened,
        f.freelist.wf(),
        f.freelist.pending@ == o.freelist.pending@,
        f.store.wf(),
        f.store.page_size == o.store.page_size,
        f.store.pages@.len() >= o.store.pages@.len(),
        forall|i: int|
            0 <= i < o.store.pages@.len() ==> (#[trigger] f.store.pages@[i])@
                == o.store.pages@[i]@,
        o.high_water <= f.high_water <= f.store.pages@.len(),
        f.high_water < MAX_PGID,
        forall|x: u64|
            f.freelist.is_free(x) <==> o.freelist.is_free(x) && !(p <= x < p + count),
        from_free ==> crate::freelist::has_run(o.freelist.ids@, p, count as int)
            && f.high_water == o.high_water,
        !from_free ==> p == o.high_water && f.high_water == o.high_water + count,
    ensures
        f.inv(),
        2 <= p && p + count <= f.high_water,
{
    let last = w1.allocated@.len() - 1;
    assert(w1.allocated@[last] == (p, count as u64));
    // membership in the new range set
    assert forall|x: u64| #[trigger] alloc_has(w1, x) implies alloc_has(w0, x) || (p <= x < p
        + count) by {
        let a = choose|a: int|
            0 <= a < w1.allocated@.len() && (#[trigger] w1.allocated@[a]).0 <= x
                < w1.allocated@[a].0 + w1.allocated@[a].1;
        if a < last {
            assert(w0.allocated@[a] == w1.allocated@[a]);
        }
    }
    assert forall|x: u64| alloc_has(w0, x) implies #[trigger] alloc_has(w1, x) by {
        let a = choose|a: int|
            0 <= a < w0.allocated@.len() && (#[trigger] w0.allocated@[a]).0 <= x
                < w0.allocated@[a].0 + w0.allocated@[a].1;
        assert(w1.allocated@[a] == w0.allocated@[a]);
    }
    assert forall|x: u64| p <= x < p + count implies #[trigger] alloc_has(w1, x) by {
        assert(w1.allocated@[last] == (p, count as u64));
    }
    // the new range is untracked and apart from the old ranges
    assert forall|x: u64| p <= x < p + count implies !alloc_has(w0, x) && !f.freelist.is_free(x)
        && !f.freelist.in_pending(x) && !o.freelist.in_pending(x) by {
        if from_free {
            assert(o.freelist.ids@.contains((p + (x - p)) as u64));
            assert(o.freelist.is_free(x));
            assert(!alloc_has(w0, x));
            if o.freelist.in_pending(x) {
                let k = choose|k: int|
                    0 <= k < o.freelist.pending@.len() && o.freelist.entry_has(k, x);
            }
            if f.freelist.in_pending(x) {
                let k = choose|k: int|
                    0 <= k < f.freelist.pending@.len() && f.freelist.entry_has(k, x);
                assert(o.freelist.entry_has(k, x));
                assert(o.freelist.in_pending(x));
            }
        } else {
            assert(x >= o.high_water);
            if alloc_has(w0, x) {
                let a = choose|a: int|
                    0 <= a < w0.allocated@.len() && (#[trigger] w0.allocated@[a]).0 <= x
                        < w0.allocated@[a].0 + w0.allocated@[a].1;
            }
            if o.freelist.is_free(x) {
                assert(x < o.high_water);
            }
            if f.freelist.in_pending(x) {
                let k = choose|k: int|
                    0 <= k < f.freelist.pending@.len() && f.freelist.entry_has(k, x);
                assert(o.freelist.entry_has(k, x));
                assert(x < o.high_water);
            }
            if o.freelist.in_pending(x) {
                let k = choose|k: int|
                    0 <= k < o.freelist.pending@.len() && o.freelist.entry_has(k, x);
                assert(x < o.high_water);
            }
        }
    }
    // bounds of the range
    assert(2 <= p && p + count <= f.high_water) by {
        if from_free {
            assert(o.freelist.ids@.contains((p + 0) as u64));
            assert(o.freelist.is_free(p));
            assert(o.freelist.ids@.contains((p + (count - 1)) as u64));
            assert(o.freelist.is_free((p + (count - 1)) as u64));
        }
    }
    // writer invariant
    assert forall|a: int|
        0 <= a < w1.allocated@.len() implies 2 <= (#[trigger] w1.allocated@[a]).0 && 1
        <= w1.allocated@[a].1 && w1.allocated@[a].0 + w1.allocated@[a].1 <= f.high_water by {
        if a < last {
            assert(w0.allocated@[a] == w1.allocated@[a]);
            assert(2 <= (#[trigger] w0.allocated@[a]).0 && 1 <= w0.allocated@[a].1
                && w0.allocated@[a].0 + w0.allocated@[a].1 <= o.high_water);
        }
    }
    assert forall|a1: int, a2: int|
        0 <= a1 < a2 < w1.allocated@.len() implies (#[trigger] w1.allocated@[a1]).0
        + w1.allocated@[a1].1 <= (#[trigger] w1.allocated@[a2]).0 || w1.allocated@[a2].0
        + w1.allocated@[a2].1 <= w1.allocated@[a1].0 by {
        if a2 < last {
            assert(w0.allocated@[a1] == w1.allocated@[a1]);
            assert(w0.allocated@[a2] == w1.allocated@[a2]);
        } else {
            assert(w1.allocated@[a1] == w0.allocated@[a1]);
            let (s1, c1) = w0.allocated@[a1];
            if !(s1 + c1 <= p || p + count <= s1) {
                let x: u64 = if s1 >= p {
                    s1
                } else {
                    p
                };
                assert(alloc_has(w0, x)) by {
                    assert((#[trigger] w0.allocated@[a1]).0 <= x < w0.allocated@[a1].0
                        + w0.allocated@[a1].1);
                }
                assert(p <= x < p + count);
                assert(false);
            }
        }
    }
    assert forall|p2: u64| #[trigger] alloc_has(w1, p2) implies !f.freelist.is_free(p2)
        && !f.freelist.in_pending(p2) by {
        if alloc_has(w0, p2) {
            assert(!o.freelist.is_free(p2));
            if f.freelist.is_free(p2) {
                assert(o.freelist.is_free(p2));
            }
            if f.freelist.in_pending(p2) {
                let k = choose|k: int|
                    0 <= k < f.freelist.pending@.len() && f.freelist.entry_has(k, p2);
                assert(o.freelist.entry_has(k, p2));
                assert(o.freelist.in_pending(p2));
            }
        }
    }
    assert forall|d: int| 0 <= d < w1.dirty@.len() implies alloc_has(
        w1,
        (#[trigger] w1.dirty@[d]).0,
    ) && w1.dirty@[d].1@.len() == f.store.page_size by {
        assert(w0.dirty@[d] == w1.dirty@[d]);
        assert(alloc_has(w0, w1.dirty@[d].0));
    }
    assert(f.writer_ok(w1));
    // free-set and pending bounds
    assert forall|x: u64| #[trigger] f.freelist.is_free(x) implies 2 <= x < f.high_water by {
        assert(o.freelist.is_free(x));
    }
    assert forall|k: int, p2: u64|
        0 <= k < f.freelist.pending@.len() && #[trigger] f.freelist.entry_has(k, p2) implies 2
        <= p2 < f.high_water by {
        assert(o.freelist.entry_has(k, p2));
    }
    assert forall|k: int| 0 <= k < f.freelist.pending@.len() implies 1 <= (
    #[trigger] f.freelist.pending@[k]).txid <= f.tx_ceiling() by {
        assert(1 <= (#[trigger] o.freelist.pending@[k]).txid <= o.tx_ceiling());
    }
    // the persisted-freelist pointer stays untracked
    if f.meta.freelist != NO_FREELIST {
        let flp = f.meta.freelist;
        assert(!o.freelist.is_free(flp));
        assert(!o.walloc(flp));
        if f.freelist.in_pending(flp) {
            let k = choose|k: int|
                0 <= k < f.freelist.pending@.len() && f.freelist.entry_has(k, flp);
            assert(o.freelist.entry_has(k, flp));
        }
        if f.walloc(flp) {
            assert(alloc_has(w1, flp));
            if alloc_has(w0, flp) {
                assert(o.walloc(flp));
                assert(false);
            } else {
                assert(p <= flp < p + count);
                if from_free {
                    assert(o.freelist.ids@.contains((p + (flp - p)) as u64));
                    assert(o.freelist.is_free(flp));
                    assert(false);
                } else {
                    assert(flp >= o.high_water);
                    assert(flp < o.meta.watermark);
                    assert(false);
                }
            }
        }
    }
    // readers are untouched: their pages were neither free nor fresh
    assert forall|j: int|
        0 <= j < f.readers@.len() implies f.reader_ok(#[trigger] f.readers@[j]) by {
        let r = f.readers@[j];
        assert(r == o.readers@[j]);
        assert(o.reader_ok(r));
        assert forall|p2: u64| #[trigger] r.snap@.dom().contains(p2) implies {
            &&& 2 <= p2 < f.meta.watermark
            &&& p2 < f.store.pages@.len()
            &&& f.store.pages@[p2 as int]@ == r.snap@[p2]
            &&& !f.freelist.is_free(p2)
            &&& !f.freelist.in_pending_upto(p2, r.txid)
            &&& !f.walloc(p2)
        } by {
            assert(!o.freelist.is_free(p2));
            assert(!o.walloc(p2));
            assert(2 <= p2 < o.meta.watermark);
            assert(p2 < o.store.pages@.len());
            assert(f.store.pages@[p2 as int]@ == o.store.pages@[p2 as int]@);
            if f.freelist.is_free(p2) {
                assert(o.freelist.is_free(p2));
            }
            if f.freelist.in_pending_upto(p2, r.txid) {
                let k = choose|k: int|
                    0 <= k < f.freelist.pending@.len() && f.freelist.pending@[k].txid <= r.txid
                        && f.freelist.entry_has(k, p2);
                assert(o.freelist.entry_has(k, p2));
                assert(o.freelist.in_pending_upto(p2, r.txid));
            }
            if f.walloc(p2) {
                assert(alloc_has(w1, p2));
                if alloc_has(w0, p2) {
                    assert(o.walloc(p2));
                } else {
                    assert(p <= p2 < p + count);
                    assert(!f.freelist.in_pending(p2) && !o.freelist.in_pending(p2));
                    if from_free {
                        assert(o.freelist.ids@.contains((p + (p2 - p)) as u64));
                        assert(o.freelist.is_free(p2));
                    } else {
                        assert(p2 >= o.high_water);
                        assert(p2 < o.meta.watermark);
                    }
                }
            }
        }
    }
    // meta slots: pages 0 and 1 were preserved
    assert(f.store.pages@[(f.meta.txid % 2) as int]@ == o.store.pages@[(o.meta.txid % 2) as int]@);
    assert(f.store.pages@[((f.meta.txid + 1) % 2) as int]@ == o.store.pages@[((o.meta.txid + 1)
        % 2) as int]@);
}

/// A database that differs from a well-formed one only in page bytes the
/// open writer privately owns still satisfies the invariant.
proof fn lemma_inv_store_only(o: DB, f: DB)
    requires
        o.inv(),
        f == (DB { store: f.store, ..o }),
        f.store.wf(),
        f.store.page_size == o.store.page_size,
        f.store.pages@.len() == o.store.pages@.len(),
        forall|i: int|
            0 <= i < o.store.pages@.len() && !o.walloc(i as u64) ==> (#[trigger] f.store.pages@[i])@
                == o.store.pages@[i]@,
    ensures
        f.inv(),
{
    assert forall|i: int|
        0 <= i < o.store.pages@.len() && (i == 0 || i == 1) implies (#[trigger] f.store.pages@[i])@
        == o.store.pages@[i]@ by {
        if o.walloc(i as u64) {
            match o.writer {
                Some(w) => {
                    let a = choose|a: int|
                        0 <= a < w.allocated@.len() && (#[trigger] w.allocated@[a]).0 <= (i as u64)
                            < w.allocated@[a].0 + w.allocated@[a].1;
                    assert(w.allocated@[a].0 >= 2);
                },
                None => {},
            }
        }
    }
    assert(f.store.pages@[(f.meta.txid % 2) as int]@ == o.store.pages@[(o.meta.txid % 2) as int]@);
    assert(f.store.pages@[((f.meta.txid + 1) % 2) as int]@ == o.store.pages@[((o.meta.txid + 1)
        % 2) as int]@);
    match f.writer {
        Some(w) => {
            assert(o.writer_ok(w));
            assert(f.writer_ok(w));
        },
        None => {},
    }
    assert forall|j: int|
        0 <= j < f.readers@.len() implies f.reader_ok(#[trigger] f.readers@[j]) by {
        let r = f.readers@[j];
        assert(r == o.readers@[j]);
        assert(o.reader_ok(r));
        assert forall|p: u64| #[trigger] r.snap@.dom().contains(p) implies f.store.pages@[p as int]@
            == r.snap@[p] by {
            assert(!o.walloc(p));
        }
    }
}

/// Composes the two freelist steps of a commit: retiring the old
/// freelist page into the committing transaction's pending entry, then
/// releasing everything at or under the horizon no reader can reach.
proof fn lemma_commit_freelist_delta(
    o_fl: Freelist,
    sf_fl: Freelist,
    f_fl: Freelist,
    txid: u64,
    old_flp: u64,
    fl_pgid: u64,
    upto: u64,
)
    requires
        forall|t: u64, p: u64|
            sf_fl.in_pending_tx(t, p) <==> o_fl.in_pending_tx(t, p) || (old_flp != NO_FREELIST
                && t == txid && p == old_flp),
        forall|p: u64| #![trigger o_fl.is_free(p)]
            sf_fl.ids@.contains(p) <==> o_fl.is_free(p) && p != fl_pgid,
        forall|t: u64, p: u64|
            f_fl.in_pending_tx(t, p) <==> t > upto && sf_fl.in_pending_tx(t, p),
        forall|p: u64| f_fl.is_free(p) <==> sf_fl.is_free(p) || sf_fl.in_pending_upto(p, upto),
    ensures
        forall|t: u64, p: u64|
            f_fl.in_pending_tx(t, p) <==> t > upto && (o_fl.in_pending_tx(t, p) || (old_flp
                != NO_FREELIST && t == txid && p == old_flp)),
        forall|p: u64|
            f_fl.is_free(p) <==> ((o_fl.is_free(p) && p != fl_pgid) || o_fl.in_pending_upto(
                p,
                upto,
            ) || (old_flp != NO_FREELIST && p == old_flp && txid <= upto)),
{
    assert forall|p: u64|
        f_fl.is_free(p) <==> ((o_fl.is_free(p) && p != fl_pgid) || o_fl.in_pending_upto(p, upto)
            || (old_flp != NO_FREELIST && p == old_flp && txid <= upto)) by {
        assert(sf_fl.is_free(p) <==> o_fl.is_free(p) && p != fl_pgid);
        if sf_fl.in_pending_upto(p, upto) {
            let k = choose|k: int|
                0 <= k < sf_fl.pending@.len() && sf_fl.pending@[k].txid <= upto
                    && sf_fl.entry_has(k, p);
            let t = sf_fl.pending@[k].txid;
            assert(sf_fl.in_pending_tx(t, p));
            if o_fl.in_pending_tx(t, p) {
                let k2 = choose|k2: int|
                    0 <= k2 < o_fl.pending@.len() && o_fl.pending@[k2].txid == t
                        && o_fl.entry_has(k2, p);
                assert(o_fl.in_pending_upto(p, upto));
            }
        }
        if o_fl.in_pending_upto(p, upto) {
            let k = choose|k: int|
                0 <= k < o_fl.pending@.len() && o_fl.pending@[k].txid <= upto && o_fl.entry_has(
                    k,
                    p,
                );
            let t = o_fl.pending@[k].txid;
            assert(o_fl.in_pending_tx(t, p));
            assert(sf_fl.in_pending_tx(t, p));
            let k2 = choose|k2: int|
                0 <= k2 < sf_fl.pending@.len() && sf_fl.pending@[k2].txid == t
                    && sf_fl.entry_has(k2, p);
            assert(sf_fl.in_pending_upto(p, upto));
        }
        if old_flp != NO_FREELIST && p == old_flp && txid <= upto {
            assert(sf_fl.in_pending_tx(txid, p));
            let k2 = choose|k2: int|
                0 <= k2 < sf_fl.pending@.len() && sf_fl.pending@[k2].txid == txid
                    && sf_fl.entry_has(k2, p);
            assert(sf_fl.in_pending_upto(p, upto));
        }
    }
}

/// After the commit steps have flushed the staged pages, retired the old
/// freelist page, written the new freelist image and published the new
/// meta — but before the release step — the invariant holds again.
#[verifier::rlimit(100)]
proof fn lemma_commit_mid_inv(o: DB, f: DB, w: WriterState, fl_pgid: u64, old_flp: u64)
    requires
        o.inv(),
        o.writer == Some(w),
        w.txid < u64::MAX - 1,
        old_flp == o.meta.freelist,
        f.writer is None,
        f.readers@ == o.readers@,
        f.next_rid == o.next_rid,
        f.opened == o.opened,
        f.meta == (Meta {
            magic: MAGIC,
            version: FORMAT_VERSION,
            page_size: o.meta.page_size,
            root: w.root,
            freelist: fl_pgid,
            watermark: f.high_water,
            txid: w.txid,
        }),
        o.high_water <= f.high_water <= f.store.pages@.len(),
        f.high_water < MAX_PGID,
        f.store.wf(),
        f.store.page_size == o.store.page_size,
        f.store.pages@.len() >= o.store.pages@.len(),
        forall|i: int|
            0 <= i < o.store.pages@.len() && !o.walloc(i as u64) && i != fl_pgid && i != (w.txid
                % 2) ==> (#[trigger] f.store.pages@[i])@ == o.store.pages@[i]@,
        meta_valid_bytes(f.store.pages@[(w.txid % 2) as int]@),
        meta_of_bytes(f.store.pages@[(w.txid % 2) as int]@) == f.meta,
        f.freelist.wf(),
        forall|x: u64| #![trigger f.freelist.is_free(x)]
            f.freelist.is_free(x) <==> o.freelist.is_free(x) && x != fl_pgid,
        forall|t: u64, p: u64|
            f.freelist.in_pending_tx(t, p) <==> o.freelist.in_pending_tx(t, p) || (old_flp
                != NO_FREELIST && t == w.txid && p == old_flp),
        forall|t: u64| f.freelist.has_key(t) <==> o.freelist.has_key(t) || (old_flp != NO_FREELIST
            && t == w.txid),
        forall|p: u64|
            f.freelist.in_pending(p) <==> o.freelist.in_pending(p) || (old_flp != NO_FREELIST && p
                == old_flp),
        fl_pgid != NO_FREELIST ==> 2 <= fl_pgid < f.high_water && !f.freelist.is_free(fl_pgid)
            && !f.freelist.in_pending(fl_pgid) && (o.freelist.is_free(fl_pgid) || fl_pgid
            >= o.high_water),
    ensures
        f.inv(),
{
    assert(o.writer_ok(w));
    assert(f.tx_ceiling() == w.txid);
    assert(w.txid == o.meta.txid + 1);
    // free-set and pending bounds
    assert forall|x: u64| #[trigger] f.freelist.is_free(x) implies 2 <= x < f.high_water by {
        assert(o.freelist.is_free(x));
    }
    assert forall|k: int, p: u64|
        0 <= k < f.freelist.pending@.len() && #[trigger] f.freelist.entry_has(k, p) implies 2 <= p
        < f.high_water by {
        let t = f.freelist.pending@[k].txid;
        assert(f.freelist.in_pending_tx(t, p));
        if o.freelist.in_pending_tx(t, p) {
            let k2 = choose|k2: int|
                0 <= k2 < o.freelist.pending@.len() && o.freelist.pending@[k2].txid == t
                    && o.freelist.entry_has(k2, p);
        } else {
            assert(p == old_flp);
            assert(2 <= old_flp < o.meta.watermark);
        }
    }
    assert forall|k: int| 0 <= k < f.freelist.pending@.len() implies 1 <= (
    #[trigger] f.freelist.pending@[k]).txid <= f.tx_ceiling() by {
        let t = f.freelist.pending@[k].txid;
        assert(f.freelist.has_key(t));
        if o.freelist.has_key(t) {
            let k2 = choose|k2: int|
                0 <= k2 < o.freelist.pending@.len() && (
                #[trigger] o.freelist.pending@[k2]).txid == t;
            assert(1 <= o.freelist.pending@[k2].txid <= o.tx_ceiling());
        }
    }
    // the new freelist pointer is untracked
    if f.meta.freelist != NO_FREELIST {
        assert(!f.freelist.is_free(fl_pgid));
        assert(!f.freelist.in_pending(fl_pgid));
    }
    // the meta slots: the new one holds the new meta, the old one is
    // intact and strictly older
    let slot_new = (w.txid % 2) as int;
    let slot_old = (o.meta.txid % 2) as int;
    assert(slot_new != slot_old);
    assert((f.meta.txid + 1) % 2 == slot_old);
    assert(!o.walloc(slot_old as u64)) by {
        match o.writer {
            Some(w2) => {
                if alloc_has(w2, slot_old as u64) {
                    let a = choose|a: int|
                        0 <= a < w2.allocated@.len() && (#[trigger] w2.allocated@[a]).0 <= (
                        slot_old as u64) < w2.allocated@[a].0 + w2.allocated@[a].1;
                }
            },
            None => {},
        }
    }
    assert(slot_old != fl_pgid) by {
        if fl_pgid != NO_FREELIST {
            assert(fl_pgid >= 2);
        }
    }
    assert(f.store.pages@[slot_old]@ == o.store.pages@[slot_old]@);
    assert(meta_valid_bytes(f.store.pages@[slot_old]@) && meta_of_bytes(
        f.store.pages@[slot_old]@,
    ).txid < f.meta.txid);
    // the readers' snapshots are intact and still shielded
    assert forall|j: int|
        0 <= j < f.readers@.len() implies f.reader_ok(#[trigger] f.readers@[j]) by {
        let r = f.readers@[j];
        assert(r == o.readers@[j]);
        assert(o.reader_ok(r));
        assert forall|p: u64| #[trigger] r.snap@.dom().contains(p) implies {
            &&& 2 <= p < f.meta.watermark
            &&& p < f.store.pages@.len()
            &&& f.store.pages@[p as int]@ == r.snap@[p]
            &&& !f.freelist.is_free(p)
            &&& !f.freelist.in_pending_upto(p, r.txid)
            &&& !f.walloc(p)
        } by {
            assert(2 <= p < o.meta.watermark);
            assert(p < o.store.pages@.len());
            assert(!o.walloc(p));
            assert(!o.freelist.is_free(p));
            assert(p != fl_pgid) by {
                if fl_pgid != NO_FREELIST {
                    if o.freelist.is_free(fl_pgid) {
                    } else {
                        assert(fl_pgid >= o.high_water);
                        assert(p < o.meta.watermark <= o.high_water);
                    }
                }
            }
            assert(p != slot_new as u64);
            assert(f.store.pages@[p as int]@ == o.store.pages@[p as int]@);
            if f.freelist.in_pending_upto(p, r.txid) {
                let k = choose|k: int|
                    0 <= k < f.freelist.pending@.len() && f.freelist.pending@[k].txid <= r.txid
                        && f.freelist.entry_has(k, p);
                let t = f.freelist.pending@[k].txid;
                assert(f.freelist.in_pending_tx(t, p));
                if t == w.txid {
                    assert(r.txid <= o.meta.txid);
                    assert(false);
                }
                assert(o.freelist.in_pending_tx(t, p));
                let k2 = choose|k2: int|
                    0 <= k2 < o.freelist.pending@.len() && o.freelist.pending@[k2].txid == t
                        && o.freelist.entry_has(k2, p);
                assert(o.freelist.in_pending_upto(p, r.txid));
            }
        }
    }
}

/// Whether the writer allocated `pgid` in one of its recorded ranges.
fn alloc_contains(allocated: &Vec<(u64, u64)>, pgid: u64) -> (r: bool)
    ensures
        r == exists|a: int|
            0 <= a < allocated@.len() && (#[trigger] allocated@[a]).0 <= pgid < allocated@[a].0
                + allocated@[a].1,
{
    let mut a: usize = 0;
    while a < allocated.len()
        invariant
            a <= allocated@.len(),
            forall|a2: int|
                0 <= a2 < a ==> !((#[trigger] allocated@[a2]).0 <= pgid < allocated@[a2].0
                    + allocated@[a2].1),
        decreases allocated@.len() - a,
    {
        let (s, c) = allocated[a];
        if s <= pgid && pgid - s < c {
            return true;
        }
        a = a + 1;
    }
    false
}

/// Whether `p` is pending under any transaction id.
fn pending_contains(fl: &Freelist, p: u64) -> (r: bool)
    ensures
        r == fl.in_pending(p),
{
    let mut k: usize = 0;
    while k < fl.pending.len()
        invariant
            k <= fl.pending@.len(),
            forall|k2: int| 0 <= k2 < k ==> !#[trigger] fl.entry_has(k2, p),
        decreases fl.pending@.len() - k,
    {
        if crate::freelist::vec_contains(&fl.pending[k].ids, p) {
            proof {
                assert(fl.entry_has(k as int, p));
            }
            return true;
        }
        k = k + 1;
    }
    proof {
        if fl.in_pending(p) {
            let k2 = choose|k2: int| 0 <= k2 < fl.pending@.len() && fl.entry_has(k2, p);
            assert(!fl.entry_has(k2, p));
        }
    }
    false
}

impl DB {
    /// Whether the open writer carries this transaction id.
    pub open spec fn writer_is(self, txid: u64) -> bool {
        match self.writer {
            Some(w) => w.txid == txid,
            None => false,
        }
    }

    /// Starts the write transaction. At most one writer exists at a time:
    /// a second `begin_rw` while one is open fails with `Timeout` (in a
    /// threaded deployment the call would block for the configured bound
    /// before giving up). Pending entries no reader can still reach are
    /// reclaimed here.
    pub fn begin_rw(&mut self) -> (r: Result<u64, Error>)
        requires
            old(self).inv(),
        ensures
            final(self).inv(),
            match r {
                Ok(txid) => {
                    &&& old(self).opened && !old(self).opts.read_only && old(self).writer is None
                    &&& txid == old(self).meta.txid + 1
                    &&& final(self).writer matches Some(w) && w.txid == txid && w.root == old(self).meta.root && w.dirty@.len() == 0 && w.allocated@.len() == 0
                    &&& final(self).readers@ == old(self).readers@
                    &&& final(self).meta == old(self).meta
                    &&& final(self).store == old(self).store
                    &&& final(self).high_water == old(self).high_water
                    &&& final(self).opened
                    &&& forall|p: u64|
                        final(self).freelist.is_free(p) <==> old(self).freelist.is_free(p) || old(self).freelist.in_pending_upto(p, final(self).release_upto())
                    &&& forall|t: u64, p: u64|
                        final(self).freelist.in_pending_tx(t, p) <==> t > final(self).release_upto() && old(self).freelist.in_pending_tx(t, p)
                },
                Err(e) => {
                    &&& *final(self) == *old(self)
                    &&& (e == Error::DatabaseNotOpen || e == Error::TxNotWritable || e
                        == Error::Timeout)
                    &&& (e == Error::DatabaseNotOpen <==> !old(self).opened)
                    &&& (e == Error::TxNotWritable <==> old(self).opened && old(self).opts.read_only)
                    &&& (e == Error::Timeout <==> old(self).opened && !old(self).opts.read_only
                        && old(self).writer is Some)
                },
            },
            final(self).opts == old(self).opts,
            final(self).path@ == old(self).path@,
            final(self).next_rid == old(self).next_rid,
            final(self).stats == old(self).stats,
            final(self).opened == old(self).opened,
    {
        if !self.opened {
            return Err(Error::DatabaseNotOpen);
        }
        if self.opts.read_only {
            return Err(Error::TxNotWritable);
        }
        match &self.writer {
            Some(_) => {
                return Err(Error::Timeout);
            },
            None => {},
        }
        let txid = self.meta.txid + 1;
        let w = WriterState {
            txid,
            root: self.meta.root,
            dirty: Vec::new(),
            allocated: Vec::new(),
            tx_stats: TxStats::default(),
        };
        self.writer = Some(w);
        let ghost mid = *self;
        proof {
            let o = *old(self);
            assert forall|p: u64| !mid.walloc(p) by {
                match mid.writer {
                    Some(w2) => {
                        if alloc_has(w2, p) {
                            let a = choose|a: int|
                                0 <= a < w2.allocated@.len() && (#[trigger] w2.allocated@[a]).0
                                    <= p < w2.allocated@[a].0 + w2.allocated@[a].1;
                        }
                    },
                    None => {},
                }
            }
            assert forall|j: int|
                0 <= j < mid.readers@.len() implies mid.reader_ok(
                #[trigger] mid.readers@[j]) by {
                assert(o.reader_ok(o.readers@[j]));
                assert(mid.readers@[j] == o.readers@[j]);
            }
            assert(mid.inv());
        }
        let upto = self.compute_release_upto();
        self.freelist.release(upto);
        proof {
            let f = *self;
            if f.readers@.len() > 0 {
                lemma_min_reader(f.readers@);
                let j = choose|j: int|
                    0 <= j < f.readers@.len() && (#[trigger] f.readers@[j]).txid
                        == min_reader_txid(f.readers@);
                assert(mid.reader_ok(mid.readers@[j]));
                assert(min_reader_txid(f.readers@) <= mid.meta.txid);
                assert forall|j2: int|
                    0 <= j2 < mid.readers@.len() implies upto == 0 || upto < (
                #[trigger] mid.readers@[j2]).txid by {
                    assert(min_reader_txid(f.readers@) <= mid.readers@[j2].txid);
                }
            }
            assert(upto <= mid.tx_ceiling());
            lemma_inv_release_same_readers(mid, f, upto);
        }
        Ok(txid)
    }

    /// Allocates `count` contiguous pages for the open write transaction,
    /// reusing the lowest fitting run of free pages or growing the file
    /// at the high-water mark.
    #[verifier::rlimit(100)]
    pub fn tx_allocate(&mut self, txid: u64, count: usize) -> (r: Result<u64, Error>)
        requires
            old(self).inv(),
        ensures
            final(self).inv(),
            match r {
                Ok(p) => {
                    &&& old(self).writer_is(txid)
                    &&& 1 <= count <= 0x1000
                    &&& 2 <= p && p + count <= final(self).high_water
                    &&& final(self).writer matches Some(w) && old(self).writer matches Some(w0)
                        && w.allocated@ == w0.allocated@.push((p, count as u64)) && w.dirty@
                        == w0.dirty@ && w.root == w0.root && w.txid == w0.txid
                    &&& final(self).readers@ == old(self).readers@
                    &&& final(self).meta == old(self).meta
                    &&& final(self).high_water >= old(self).high_water
                    &&& final(self).store.pages@.len() >= old(self).store.pages@.len()
                    &&& forall|i: int|
                        0 <= i < old(self).store.pages@.len() ==> (#[trigger] final(self).store.pages@[i])@ == old(self).store.pages@[i]@
                    &&& forall|x: u64|
                        final(self).freelist.is_free(x) <==> old(self).freelist.is_free(x) && !(p
                            <= x < p + count)
                    &&& final(self).freelist.pending@ == old(self).freelist.pending@
                    &&& ((crate::freelist::has_run(old(self).freelist.ids@, p, count as int) && (
                    forall|q: u64|
                        crate::freelist::has_run(old(self).freelist.ids@, q, count as int) ==> p
                            <= q) && final(self).high_water == old(self).high_water) || (p == old(self).high_water && (forall|q: u64|
                        !crate::freelist::has_run(old(self).freelist.ids@, q, count as int))
                        && final(self).high_water == old(self).high_water + count))
                },
                Err(e) => {
                    &&& *final(self) == *old(self)
                    &&& (e == Error::TxClosed || e == Error::Io)
                    &&& (e == Error::TxClosed <==> !old(self).writer_is(txid))
                    &&& (e == Error::Io <==> old(self).writer_is(txid) && (count == 0 || count
                        > 0x1000 || ((forall|q: u64|
                        !crate::freelist::has_run(old(self).freelist.ids@, q, count as int))
                        && old(self).high_water > 0x1000_0000)))
                },
            },
            final(self).opts == old(self).opts,
            final(self).path@ == old(self).path@,
            final(self).next_rid == old(self).next_rid,
            final(self).stats == old(self).stats,
            final(self).opened == old(self).opened,
    {
        let ok = match &self.writer {
            Some(w) => w.txid == txid,
            None => false,
        };
        if !ok {
            return Err(Error::TxClosed);
        }
        if count == 0 || count > 0x1000 {
            return Err(Error::Io);
        }
        let got = self.freelist.allocate(count);
        let p: u64;
        match got {
            Some(q) => {
                p = q;
            },
            None => {
                if self.high_water > 0x1000_0000 {
                    return Err(Error::Io);
                }
                p = self.high_water;
                self.high_water = self.high_water + count as u64;
                let need = self.high_water as usize;
                let target = crate::store::growth_target(
                    self.store.len(),
                    need,
                    crate::store::GROW_DOUBLE_CEILING as usize,
                );
                let goal = if target >= need {
                    target
                } else {
                    need
                };
                self.store.grow_to(goal);
            },
        }
        let mut w = self.writer.take().unwrap();
        w.allocated.push((p, count as u64));
        let stats_count = w.tx_stats.page_count.wrapping_add(count as i64);
        w.tx_stats.page_count = stats_count;
        self.writer = Some(w);
        proof {
            let o = *old(self);
            let f = *self;
            let w0 = o.writer.unwrap();
            let w1 = f.writer.unwrap();
            if !(got is Some) {
                assert forall|x: u64|
                    f.freelist.is_free(x) <==> o.freelist.is_free(x) && !(p <= x < p
                        + count) by {
                    if o.freelist.is_free(x) {
                        assert(x < o.high_water);
                    }
                }
            }
            lemma_tx_allocate_inv(o, f, w0, w1, p, count, got is Some);
        }
        Ok(p)
    }

    /// Stages page bytes for the open write transaction. Only pages the
    /// transaction itself allocated may be staged: copy-on-write forbids
    /// touching any page reachable from a published meta.
    #[verifier::rlimit(80)]
    pub fn tx_write(&mut self, txid: u64, pgid: u64, data: Vec<u8>) -> (r: Result<(), Error>)
        requires
            old(self).inv(),
        ensures
            final(self).inv(),
            match r {
                Ok(()) => {
                    &&& old(self).writer_is(txid)
                    &&& old(self).walloc(pgid)
                    &&& data@.len() == old(self).store.page_size
                    &&& final(self).writer matches Some(w) && old(self).writer matches Some(w0)
                        && w.allocated@ == w0.allocated@ && w.root == w0.root && w.txid == w0.txid
                        && ((exists|d: int|
                        0 <= d <= w0.dirty@.len() && w.dirty@ == w0.dirty@.insert(
                            d,
                            (pgid, data),
                        )) || (exists|d: int|
                        0 <= d < w0.dirty@.len() && (#[trigger] w0.dirty@[d]).0 == pgid && w.dirty@
                            == w0.dirty@.update(d, (pgid, data))))
                    &&& dirty_has(final(self).writer.unwrap(), pgid)
                    &&& final(self).readers@ == old(self).readers@
                    &&& final(self).meta == old(self).meta
                    &&& final(self).store == old(self).store
                    &&& final(self).freelist == old(self).freelist
                    &&& final(self).high_water == old(self).high_water
                },
                Err(e) => {
                    &&& *final(self) == *old(self)
                    &&& (e == Error::TxClosed || e == Error::Io || e == Error::TxNotWritable)
                    &&& (e == Error::TxClosed <==> !old(self).writer_is(txid))
                    &&& (e == Error::Io <==> old(self).writer_is(txid) && data@.len() != old(self).store.page_size)
                    &&& (e == Error::TxNotWritable <==> old(self).writer_is(txid) && data@.len()
                        == old(self).store.page_size && !old(self).walloc(pgid))
                },
            },
            final(self).opts == old(self).opts,
            final(self).path@ == old(self).path@,
            final(self).next_rid == old(self).next_rid,
            final(self).stats == old(self).stats,
            final(self).opened == old(self).opened,
    {
        let ok = match &self.writer {
            Some(w) => w.txid == txid,
            None => false,
        };
        if !ok {
            return Err(Error::TxClosed);
        }
        if data.len() != self.store.page_size {
            return Err(Error::Io);
        }
        let mut w = self.writer.take().unwrap();
        if !alloc_contains(&w.allocated, pgid) {
            self.writer = Some(w);
            proof {
                assert(*self == *old(self));
            }
            return Err(Error::TxNotWritable);
        }
        let ghost w0 = w;
        let mut d: usize = 0;
        while d < w.dirty.len() && w.dirty[d].0 < pgid
            invariant
                w == w0,
                d <= w.dirty@.len(),
                forall|d2: int| 0 <= d2 < d ==> (#[trigger] w.dirty@[d2]).0 < pgid,
            decreases w.dirty@.len() - d,
        {
            d = d + 1;
        }
        if d < w.dirty.len() && w.dirty[d].0 == pgid {
            w.dirty.set(d, (pgid, data));
            proof {
                assert(w.dirty@ == w0.dirty@.update(d as int, (pgid, data)));
            }
        } else {
            w.dirty.insert(d, (pgid, data));
            proof {
                assert(w.dirty@ == w0.dirty@.insert(d as int, (pgid, data)));
            }
        }
        let ghost w1 = w;
        self.writer = Some(w);
        proof {
            let o = *old(self);
            let f = *self;
            assert(o.writer_ok(w0));
            let aw = choose|a: int|
                0 <= a < w0.allocated@.len() && (#[trigger] w0.allocated@[a]).0 <= pgid
                    < w0.allocated@[a].0 + w0.allocated@[a].1;
            assert(alloc_has(w0, pgid));
            assert((#[trigger] w1.allocated@[aw]).0 <= pgid < w1.allocated@[aw].0
                + w1.allocated@[aw].1);
            assert(alloc_has(w1, pgid));
            assert(w1.dirty@[d as int] == (pgid, data));
            assert(dirty_has(w1, pgid));
            // dirty list stays sorted over the writer's own pages
            assert forall|d1: int, d2: int|
                0 <= d1 < d2 < w1.dirty@.len() implies (#[trigger] w1.dirty@[d1]).0
                < (#[trigger] w1.dirty@[d2]).0 by {
                if d < w0.dirty@.len() && w0.dirty@[d as int].0 == pgid && w1.dirty@
                    == w0.dirty@.update(d as int, (pgid, data)) {
                    assert(w1.dirty@[d1].0 == w0.dirty@[d1].0);
                    assert(w1.dirty@[d2].0 == w0.dirty@[d2].0);
                } else {
                    let dd = d as int;
                    if d1 < dd {
                        assert(w1.dirty@[d1] == w0.dirty@[d1]);
                    }
                    if d2 < dd {
                        assert(w1.dirty@[d2] == w0.dirty@[d2]);
                    }
                    if d1 > dd {
                        assert(w1.dirty@[d1] == w0.dirty@[d1 - 1]);
                    }
                    if d2 > dd {
                        assert(w1.dirty@[d2] == w0.dirty@[d2 - 1]);
                        if dd < w0.dirty@.len() {
                            assert(w0.dirty@[dd].0 != pgid);
                            assert(w0.dirty@[dd].0 > pgid);
                        }
                        if d1 > dd {
                            assert(w0.dirty@[d1 - 1].0 < w0.dirty@[d2 - 1].0);
                        } else if d1 == dd {
                            assert(w0.dirty@[d2 - 1].0 >= w0.dirty@[dd].0);
                        }
                    }
                }
            }
            assert forall|d2: int| 0 <= d2 < w1.dirty@.len() implies alloc_has(
                w1,
                (#[trigger] w1.dirty@[d2]).0,
            ) && w1.dirty@[d2].1@.len() == f.store.page_size by {
                let dd = d as int;
                if w1.dirty@[d2] == (pgid, data) {
                    assert(alloc_has(w1, pgid));
                } else {
                    let prev: int = if d2 < dd || (dd < w0.dirty@.len() && w0.dirty@[dd].0 == pgid
                        && w1.dirty@ == w0.dirty@.update(dd, (pgid, data))) {
                        d2
                    } else {
                        d2 - 1
                    };
                    assert(w1.dirty@[d2] == w0.dirty@[prev]);
                    assert(alloc_has(w0, w0.dirty@[prev].0));
                    let a2 = choose|a: int|
                        0 <= a < w0.allocated@.len() && (#[trigger] w0.allocated@[a]).0
                            <= w0.dirty@[prev].0 < w0.allocated@[a].0 + w0.allocated@[a].1;
                    assert((#[trigger] w1.allocated@[a2]).0 <= w1.dirty@[d2].0
                        < w1.allocated@[a2].0 + w1.allocated@[a2].1);
                }
            }
            lemma_alloc_has_eq(w0, w1);
            assert(f.writer_ok(w1));
            assert forall|j: int|
                0 <= j < f.readers@.len() implies f.reader_ok(#[trigger] f.readers@[j]) by {
                let r = f.readers@[j];
                assert(o.reader_ok(r));
                assert(r == o.readers@[j]);
                assert forall|p2: u64| #[trigger] r.snap@.dom().contains(p2) implies !f.walloc(
                    p2,
                ) by {
                    if f.walloc(p2) {
                        assert(alloc_has(w1, p2));
                        assert(alloc_has(w0, p2));
                        assert(o.walloc(p2));
                    }
                }
            }
        }
        Ok(())
    }

    /// Declares the root page the open write transaction will publish at
    /// commit. The root must be a page of the file.
    pub fn tx_set_root(&mut self, txid: u64, root: u64) -> (r: Result<(), Error>)
        requires
            old(self).inv(),
        ensures
            final(self).inv(),
            match r {
                Ok(()) => {
                    &&& old(self).writer_is(txid)
                    &&& 2 <= root < old(self).high_water
                    &&& final(self).writer matches Some(w) && old(self).writer matches Some(w0)
                        && w == (WriterState { root, ..w0 })
                    &&& final(self).readers@ == old(self).readers@
                    &&& final(self).meta == old(self).meta
                    &&& final(self).store == old(self).store
                    &&& final(self).freelist == old(self).freelist
                    &&& final(self).high_water == old(self).high_water
                },
                Err(e) => {
                    &&& *final(self) == *old(self)
                    &&& (e == Error::TxClosed || e == Error::TxNotWritable)
                    &&& (e == Error::TxClosed <==> !old(self).writer_is(txid))
                    &&& (e == Error::TxNotWritable <==> old(self).writer_is(txid) && !(2 <= root
                        < old(self).high_water))
                },
            },
            final(self).opts == old(self).opts,
            final(self).path@ == old(self).path@,
            final(self).next_rid == old(self).next_rid,
            final(self).stats == old(self).stats,
            final(self).opened == old(self).opened,
    {
        let ok = match &self.writer {
            Some(w) => w.txid == txid,
            None => false,
        };
        if !ok {
            return Err(Error::TxClosed);
        }
        if root < 2 || root >= self.high_water {
            return Err(Error::TxNotWritable);
        }
        let mut w = self.writer.take().unwrap();
        w.root = root;
        self.writer = Some(w);
        proof {
            let o = *old(self);
            let f = *self;
            let w0 = o.writer.unwrap();
            let w1 = f.writer.unwrap();
            assert(o.writer_ok(w0));
            assert forall|p2: u64| #[trigger] alloc_has(w1, p2) implies alloc_has(w0, p2) by {
                let a = choose|a: int|
                    0 <= a < w1.allocated@.len() && (#[trigger] w1.allocated@[a]).0 <= p2
                        < w1.allocated@[a].0 + w1.allocated@[a].1;
                assert((#[trigger] w0.allocated@[a]).0 <= p2 < w0.allocated@[a].0
                    + w0.allocated@[a].1);
            }
            assert forall|p2: u64| #[trigger] alloc_has(w0, p2) implies alloc_has(w1, p2) by {
                let a = choose|a: int|
                    0 <= a < w0.allocated@.len() && (#[trigger] w0.allocated@[a]).0 <= p2
                        < w0.allocated@[a].0 + w0.allocated@[a].1;
                assert((#[trigger] w1.allocated@[a]).0 <= p2 < w1.allocated@[a].0
                    + w1.allocated@[a].1);
            }
            assert(f.writer_ok(w1));
            assert forall|j: int|
                0 <= j < f.readers@.len() implies f.reader_ok(#[trigger] f.readers@[j]) by {
                let r = f.readers@[j];
                assert(o.reader_ok(r));
                assert(r == o.readers@[j]);
                assert forall|p2: u64| #[trigger] r.snap@.dom().contains(p2) implies !f.walloc(
                    p2,
                ) by {
                    if f.walloc(p2) {
                        assert(alloc_has(w1, p2));
                        assert(alloc_has(w0, p2));
                        assert(o.walloc(p2));
                    }
                }
            }
        }
        Ok(())
    }
}

/// Freelists with the same pending table agree on every pending fact.
proof fn lemma_pending_eq(fl1: Freelist, fl2: Freelist)
    requires
        fl1.pending@ == fl2.pending@,
    ensures
        forall|t: u64, p: u64| fl1.in_pending_tx(t, p) <==> fl2.in_pending_tx(t, p),
        forall|p: u64| fl1.in_pending(p) <==> fl2.in_pending(p),
        forall|t: u64| fl1.has_key(t) <==> fl2.has_key(t),
        forall|p: u64, u: u64| fl1.in_pending_upto(p, u) <==> fl2.in_pending_upto(p, u),
{
    assert forall|t: u64, p: u64| fl1.in_pending_tx(t, p) <==> fl2.in_pending_tx(t, p) by {
        if fl1.in_pending_tx(t, p) {
            let k = choose|k: int|
                0 <= k < fl1.pending@.len() && fl1.pending@[k].txid == t && fl1.entry_has(k, p);
            assert(fl2.entry_has(k, p));
        }
        if fl2.in_pending_tx(t, p) {
            let k = choose|k: int|
                0 <= k < fl2.pending@.len() && fl2.pending@[k].txid == t && fl2.entry_has(k, p);
            assert(fl1.entry_has(k, p));
        }
    }
    assert forall|p: u64| fl1.in_pending(p) <==> fl2.in_pending(p) by {
        if fl1.in_pending(p) {
            let k = choose|k: int| 0 <= k < fl1.pending@.len() && fl1.entry_has(k, p);
            assert(fl2.entry_has(k, p));
        }
        if fl2.in_pending(p) {
            let k = choose|k: int| 0 <= k < fl2.pending@.len() && fl2.entry_has(k, p);
            assert(fl1.entry_has(k, p));
        }
    }
    assert forall|t: u64| fl1.has_key(t) <==> fl2.has_key(t) by {
        if fl1.has_key(t) {
            let k = choose|k: int| 0 <= k < fl1.pending@.len() && fl1.pending@[k].txid == t;
            assert(fl2.pending@[k].txid == t);
        }
        if fl2.has_key(t) {
            let k = choose|k: int| 0 <= k < fl2.pending@.len() && fl2.pending@[k].txid == t;
            assert(fl1.pending@[k].txid == t);
        }
    }
    assert forall|p: u64, u: u64| fl1.in_pending_upto(p, u) <==> fl2.in_pending_upto(p, u) by {
        if fl1.in_pending_upto(p, u) {
            let k = choose|k: int|
                0 <= k < fl1.pending@.len() && fl1.pending@[k].txid <= u && fl1.entry_has(k, p);
            assert(fl2.entry_has(k, p));
        }
        if fl2.in_pending_upto(p, u) {
            let k = choose|k: int|
                0 <= k < fl2.pending@.len() && fl2.pending@[k].txid <= u && fl2.entry_has(k, p);
            assert(fl1.entry_has(k, p));
        }
    }
}

/// Returns the pages of the given ranges to the free set.
fn return_free_ranges(fl: &mut Freelist, rs: &Vec<(u64, u64)>)
    requires
        old(fl).wf(),
        forall|a: int|
            0 <= a < rs@.len() ==> 2 <= (#[trigger] rs@[a]).0 && 1 <= rs@[a].1 && rs@[a].0
                + rs@[a].1 <= MAX_PGID,
        forall|a1: int, a2: int|
            0 <= a1 < a2 < rs@.len() ==> (#[trigger] rs@[a1]).0 + rs@[a1].1 <= (
            #[trigger] rs@[a2]).0 || rs@[a2].0 + rs@[a2].1 <= rs@[a1].0,
        forall|p: u64|
            #[trigger] ranges_has(rs@, p) ==> !old(fl).is_free(p) && !old(fl).in_pending(p),
    ensures
        final(fl).wf(),
        final(fl).pending@ == old(fl).pending@,
        forall|p: u64| #![trigger final(fl).ids@.contains(p)]
            final(fl).ids@.contains(p) <==> old(fl).ids@.contains(p) || ranges_has(rs@, p),
{
    let ghost o = *old(fl);
    let mut a: usize = 0;
    while a < rs.len()
        invariant
            o.wf(),
            fl.pending@ == o.pending@,
            a <= rs@.len(),
            forall|a2: int|
                0 <= a2 < rs@.len() ==> 2 <= (#[trigger] rs@[a2]).0 && 1 <= rs@[a2].1 && rs@[a2].0
                    + rs@[a2].1 <= MAX_PGID,
            forall|a1: int, a2: int|
                0 <= a1 < a2 < rs@.len() ==> (#[trigger] rs@[a1]).0 + rs@[a1].1 <= (
                #[trigger] rs@[a2]).0 || rs@[a2].0 + rs@[a2].1 <= rs@[a1].0,
            forall|p: u64|
                #[trigger] ranges_has(rs@, p) ==> !o.ids@.contains(p) && !o.in_pending(p),
            crate::freelist::sorted_strict(fl.ids@),
            forall|p: u64|
                #[trigger] fl.ids@.contains(p) <==> o.ids@.contains(p) || ranges_has(
                    rs@.take(a as int),
                    p,
                ),
        decreases rs@.len() - a,
    {
        let (s, c) = rs[a];
        let mut q: u64 = 0;
        while q < c
            invariant
                o.wf(),
                fl.pending@ == o.pending@,
                a < rs@.len(),
                rs@[a as int] == (s, c),
                forall|a2: int|
                    0 <= a2 < rs@.len() ==> 2 <= (#[trigger] rs@[a2]).0 && 1 <= rs@[a2].1
                        && rs@[a2].0 + rs@[a2].1 <= MAX_PGID,
                forall|a1: int, a2: int|
                    0 <= a1 < a2 < rs@.len() ==> (#[trigger] rs@[a1]).0 + rs@[a1].1 <= (
                    #[trigger] rs@[a2]).0 || rs@[a2].0 + rs@[a2].1 <= rs@[a1].0,
                forall|p: u64|
                    #[trigger] ranges_has(rs@, p) ==> !o.ids@.contains(p) && !o.in_pending(p),
                q <= c,
                crate::freelist::sorted_strict(fl.ids@),
                forall|p: u64|
                    #[trigger] fl.ids@.contains(p) <==> o.ids@.contains(p) || ranges_has(
                        rs@.take(a as int),
                        p,
                    ) || (s <= p < s + q),
            decreases c - q,
        {
            let x = s + q;
            proof {
                assert(ranges_has(rs@, x)) by {
                    assert((#[trigger] rs@[a as int]).0 <= x < rs@[a as int].0 + rs@[a as int].1);
                }
                if ranges_has(rs@.take(a as int), x) {
                    let a2 = choose|a2: int|
                        0 <= a2 < a && (#[trigger] rs@.take(a as int)[a2]).0 <= x
                            < rs@.take(a as int)[a2].0 + rs@.take(a as int)[a2].1;
                    assert(rs@[a2] == rs@.take(a as int)[a2]);
                    assert((rs@[a2]).0 + rs@[a2].1 <= rs@[a as int].0 || rs@[a as int].0
                        + rs@[a as int].1 <= rs@[a2].0);
                }
                assert(!fl.ids@.contains(x));
            }
            let ghost pre = fl.ids@;
            crate::freelist::insert_sorted(&mut fl.ids, x);
            proof {
                assert forall|p: u64|
                    #[trigger] fl.ids@.contains(p) <==> o.ids@.contains(p) || ranges_has(
                        rs@.take(a as int),
                        p,
                    ) || (s <= p < s + q + 1) by {
                    assert(fl.ids@.contains(p) <==> pre.contains(p) || p == x);
                }
            }
            q = q + 1;
        }
        proof {
            assert forall|p: u64|
                #[trigger] fl.ids@.contains(p) <==> o.ids@.contains(p) || ranges_has(
                    rs@.take(a + 1),
                    p,
                ) by {
                if ranges_has(rs@.take(a + 1), p) && !ranges_has(rs@.take(a as int), p) {
                    let a2 = choose|a2: int|
                        0 <= a2 < a + 1 && (#[trigger] rs@.take(a + 1)[a2]).0 <= p < rs@.take(
                            a + 1,
                        )[a2].0 + rs@.take(a + 1)[a2].1;
                    if a2 < a {
                        assert((#[trigger] rs@.take(a as int)[a2]).0 <= p < rs@.take(
                            a as int,
                        )[a2].0 + rs@.take(a as int)[a2].1);
                    }
                    assert(a2 == a as int);
                    assert(s <= p < s + c);
                }
                if ranges_has(rs@.take(a as int), p) {
                    let a2 = choose|a2: int|
                        0 <= a2 < a && (#[trigger] rs@.take(a as int)[a2]).0 <= p < rs@.take(
                            a as int,
                        )[a2].0 + rs@.take(a as int)[a2].1;
                    assert((#[trigger] rs@.take(a + 1)[a2]).0 <= p < rs@.take(a + 1)[a2].0
                        + rs@.take(a + 1)[a2].1);
                }
                if s <= p < s + c {
                    assert((#[trigger] rs@.take(a + 1)[a as int]).0 <= p < rs@.take(
                        a + 1,
                    )[a as int].0 + rs@.take(a + 1)[a as int].1);
                }
            }
        }
        a = a + 1;
    }
    proof {
        assert(rs@.take(rs@.len() as int) =~= rs@);
        assert forall|k: int, p: u64|
            0 <= k < fl.pending@.len() && #[trigger] fl.entry_has(k, p) implies !fl.is_free(p) by {
            assert(o.entry_has(k, p));
            assert(!o.is_free(p));
            assert(o.in_pending(p));
            if ranges_has(rs@, p) {
                assert(!o.in_pending(p));
            }
        }
        assert forall|k1: int, k2: int, p: u64|
            0 <= k1 < k2 < fl.pending@.len() implies !(#[trigger] fl.entry_has(k1, p)
            && #[trigger] fl.entry_has(k2, p)) by {
            if fl.entry_has(k1, p) && fl.entry_has(k2, p) {
                assert(o.entry_has(k1, p));
                assert(o.entry_has(k2, p));
            }
        }
        assert forall|i: int| 0 <= i < fl.ids@.len() implies 2 <= #[trigger] fl.ids@[i]
            < MAX_PGID by {
            assert(fl.ids@.contains(fl.ids@[i]));
            let p = fl.ids@[i];
            if !o.ids@.contains(p) {
                assert(ranges_has(rs@, p));
                let a2 = choose|a2: int|
                    0 <= a2 < rs@.len() && (#[trigger] rs@[a2]).0 <= p < rs@[a2].0 + rs@[a2].1;
            } else {
                assert(o.is_free(p));
            }
        }
    }
}

impl DB {
    /// Records the page range `pgid ..= pgid + overflow` as freed by the
    /// open write transaction. The pages go to the pending table under the
    /// writer's id; they become reusable only once no reader of an older
    /// snapshot remains. Only committed, live pages may be freed.
    pub fn tx_free(&mut self, txid: u64, pgid: u64, overflow: u64) -> (r: Result<(), Error>)
        requires
            old(self).inv(),
        ensures
            final(self).inv(),
            match r {
                Ok(()) => {
                    &&& old(self).writer_is(txid)
                    &&& 2 <= pgid && pgid + overflow < old(self).meta.watermark
                    &&& forall|t: u64, p: u64|
                        final(self).freelist.in_pending_tx(t, p) <==> old(self).freelist.in_pending_tx(t, p) || (t == txid && pgid <= p <= pgid
                            + overflow)
                    &&& final(self).freelist.ids@ == old(self).freelist.ids@
                    &&& final(self).writer == old(self).writer
                    &&& final(self).meta == old(self).meta
                    &&& final(self).store == old(self).store
                    &&& final(self).readers@ == old(self).readers@
                    &&& final(self).high_water == old(self).high_water
                },
                Err(e) => {
                    &&& *final(self) == *old(self)
                    &&& (e == Error::TxClosed || e == Error::TxNotWritable)
                    &&& (e == Error::TxClosed <==> !old(self).writer_is(txid))
                    &&& (e == Error::TxNotWritable <==> old(self).writer_is(txid) && !old(self).free_ok(pgid, overflow))
                },
            },
            final(self).opts == old(self).opts,
            final(self).path@ == old(self).path@,
            final(self).next_rid == old(self).next_rid,
            final(self).stats == old(self).stats,
            final(self).opened == old(self).opened,
    {
        let ghost o = *old(self);
        let ok = match &self.writer {
            Some(w) => w.txid == txid,
            None => false,
        };
        if !ok {
            return Err(Error::TxClosed);
        }
        if pgid < 2 || pgid >= self.meta.watermark || overflow >= self.meta.watermark - pgid {
            return Err(Error::TxNotWritable);
        }
        if self.meta.freelist != NO_FREELIST && pgid <= self.meta.freelist && self.meta.freelist
            <= pgid + overflow {
            return Err(Error::TxNotWritable);
        }
        let mut q: u64 = 0;
        while q <= overflow
            invariant
                *self == o,
                o.inv(),
                o.writer_is(txid),
                2 <= pgid,
                pgid + overflow < o.meta.watermark,
                q <= overflow + 1,
                forall|x: u64| #![trigger o.freelist.is_free(x)]
                    pgid <= x < pgid + q ==> !o.freelist.is_free(x) && !o.freelist.in_pending(x)
                        && !o.walloc(x),
            decreases overflow + 1 - q,
        {
            let x = pgid + q;
            let bad_free = crate::freelist::vec_contains(&self.freelist.ids, x);
            let bad_pending = pending_contains(&self.freelist, x);
            let bad_alloc = match &self.writer {
                Some(w) => alloc_contains(&w.allocated, x),
                None => false,
            };
            if bad_free || bad_pending || bad_alloc {
                proof {
                    if bad_free {
                        assert(o.freelist.is_free(x));
                    } else if bad_pending {
                        assert(o.freelist.in_pending(x));
                    } else {
                        match o.writer {
                            Some(w) => {
                                assert(alloc_has(w, x));
                            },
                            None => {},
                        }
                        assert(o.walloc(x));
                    }
                    assert(!o.free_ok(pgid, overflow)) by {
                        if o.free_ok(pgid, overflow) {
                            assert(!o.freelist.is_free(x) && !o.freelist.in_pending(x)
                                && !o.walloc(x));
                        }
                    }
                }
                return Err(Error::TxNotWritable);
            }
            proof {
                assert(!o.freelist.is_free(x));
                assert(!o.freelist.in_pending(x));
                match o.writer {
                    Some(w) => {
                        if alloc_has(w, x) {
                            let a = choose|a: int|
                                0 <= a < w.allocated@.len() && (#[trigger] w.allocated@[a]).0
                                    <= x < w.allocated@[a].0 + w.allocated@[a].1;
                        }
                        assert(!alloc_has(w, x));
                    },
                    None => {},
                }
                assert(!o.walloc(x));
                assert forall|x2: u64| #![trigger o.freelist.is_free(x2)]
                    pgid <= x2 < pgid + (q + 1) implies !o.freelist.is_free(x2)
                        && !o.freelist.in_pending(x2) && !o.walloc(x2) by {
                    assert(o.freelist.is_free(x2) == o.freelist.ids@.contains(x2));
                    if x2 == x {
                        assert(!o.freelist.is_free(x2));
                        assert(!o.freelist.in_pending(x2));
                        assert(!o.walloc(x2));
                    } else {
                        assert(pgid <= x2 < pgid + q);
                        assert(!o.freelist.is_free(x2));
                        assert(!o.freelist.in_pending(x2));
                        assert(!o.walloc(x2));
                    }
                }
            }
            q = q + 1;
        }
        let ghost w0 = o.writer.unwrap();
        proof {
            assert(o.free_ok(pgid, overflow)) by {
                assert forall|x: u64| #![trigger o.freelist.is_free(x)]
                    pgid <= x <= pgid + overflow implies !o.freelist.is_free(x)
                        && !o.freelist.in_pending(x) && !o.walloc(x) by {
                    assert(pgid <= x < pgid + (overflow + 1));
                }
            }
            if self.freelist.pending@.len() > 0 {
                assert(1 <= (#[trigger] self.freelist.pending@[self.freelist.pending@.len()
                    - 1]).txid <= self.tx_ceiling());
            }
            assert forall|x: u64| pgid <= x <= pgid + overflow implies !self.freelist.tracks(
                x,
            ) by {
                assert(!o.freelist.is_free(x) && !o.freelist.in_pending(x));
            }
        }
        self.freelist.free(txid, pgid, overflow);
        proof {
            let f = *self;
            assert(f.tx_ceiling() == o.tx_ceiling());
            assert forall|p: u64| #[trigger] f.freelist.is_free(p) implies 2 <= p
                < f.high_water by {
                assert(o.freelist.is_free(p));
            }
            assert forall|k: int, p: u64|
                0 <= k < f.freelist.pending@.len() && #[trigger] f.freelist.entry_has(k, p)
                implies 2 <= p < f.high_water by {
                let t = f.freelist.pending@[k].txid;
                assert(f.freelist.in_pending_tx(t, p));
                if o.freelist.in_pending_tx(t, p) {
                    let k2 = choose|k2: int|
                        0 <= k2 < o.freelist.pending@.len() && o.freelist.pending@[k2].txid == t
                            && o.freelist.entry_has(k2, p);
                } else {
                    assert(pgid <= p <= pgid + overflow);
                }
            }
            assert forall|k: int| 0 <= k < f.freelist.pending@.len() implies 1 <= (
            #[trigger] f.freelist.pending@[k]).txid <= f.tx_ceiling() by {
                let t = f.freelist.pending@[k].txid;
                assert(f.freelist.has_key(t));
                if o.freelist.has_key(t) {
                    let k2 = choose|k2: int|
                        0 <= k2 < o.freelist.pending@.len() && (
                        #[trigger] o.freelist.pending@[k2]).txid == t;
                } else {
                    assert(t == txid);
                    assert(t == w0.txid);
                    assert(t == o.meta.txid + 1);
                }
            }
            if f.meta.freelist != NO_FREELIST {
                let flp = f.meta.freelist;
                if f.freelist.in_pending(flp) {
                    assert(!o.freelist.in_pending(flp));
                    assert(f.freelist.in_pending(flp) ==> o.freelist.in_pending(flp) || pgid
                        <= flp <= pgid + overflow);
                }
            }
            assert(o.writer_ok(w0));
            assert forall|p: u64| #[trigger] alloc_has(w0, p) implies !f.freelist.is_free(p)
                && !f.freelist.in_pending(p) by {
                if f.freelist.in_pending(p) && !o.freelist.in_pending(p) {
                    assert(pgid <= p <= pgid + overflow);
                    assert(!o.walloc(p));
                }
            }
            assert(f.writer_ok(w0));
            assert forall|j: int|
                0 <= j < f.readers@.len() implies f.reader_ok(#[trigger] f.readers@[j]) by {
                let r = f.readers@[j];
                assert(r == o.readers@[j]);
                assert(o.reader_ok(r));
                assert forall|p: u64| #[trigger] r.snap@.dom().contains(p) implies
                    !f.freelist.in_pending_upto(p, r.txid) by {
                    if f.freelist.in_pending_upto(p, r.txid) {
                        let k = choose|k: int|
                            0 <= k < f.freelist.pending@.len() && f.freelist.pending@[k].txid
                                <= r.txid && f.freelist.entry_has(k, p);
                        let t = f.freelist.pending@[k].txid;
                        assert(f.freelist.in_pending_tx(t, p));
                        if t == txid {
                            assert(t == o.meta.txid + 1);
                            assert(r.txid <= o.meta.txid);
                            assert(false);
                        }
                        assert(o.freelist.in_pending_tx(t, p));
                        let k2 = choose|k2: int|
                            0 <= k2 < o.freelist.pending@.len() && o.freelist.pending@[k2].txid
                                == t && o.freelist.entry_has(k2, p);
                        assert(o.freelist.in_pending_upto(p, r.txid));
                    }
                }
            }
        }
        Ok(())
    }

    /// Rolls the open write transaction back: its pending entry is
    /// discarded (those pages were never published as free) and the pages
    /// it allocated return to the free set at once, which is safe because
    /// no meta ever referenced them. No meta write occurs.
    #[verifier::rlimit(100)]
    pub fn rollback(&mut self, txid: u64) -> (r: Result<(), Error>)
        requires
            old(self).inv(),
        ensures
            final(self).inv(),
            match r {
                Ok(()) => {
                    &&& old(self).writer_is(txid)
                    &&& final(self).writer is None
                    &&& final(self).meta == old(self).meta
                    &&& final(self).store == old(self).store
                    &&& final(self).readers@ == old(self).readers@
                    &&& final(self).high_water == old(self).high_water
                    &&& forall|p: u64|
                        final(self).freelist.ids@.contains(p) <==> old(self).freelist.ids@.contains(p) || old(self).walloc(p)
                    &&& forall|t: u64, p: u64|
                        final(self).freelist.in_pending_tx(t, p) <==> t != txid && old(self).freelist.in_pending_tx(t, p)
                },
                Err(e) => {
                    &&& *final(self) == *old(self)
                    &&& e == Error::TxClosed
                    &&& !old(self).writer_is(txid)
                },
            },
            final(self).opts == old(self).opts,
            final(self).path@ == old(self).path@,
            final(self).next_rid == old(self).next_rid,
            final(self).stats == old(self).stats,
            final(self).opened == old(self).opened,
    {
        let ghost o = *old(self);
        let ok = match &self.writer {
            Some(w) => w.txid == txid,
            None => false,
        };
        if !ok {
            return Err(Error::TxClosed);
        }
        let w = self.writer.take().unwrap();
        self.freelist.rollback(txid);
        let ghost mid_fl = self.freelist;
        proof {
            assert(o.writer == Some(w));
            assert(mid_fl.ids@ == o.freelist.ids@);
            assert(o.writer_ok(w));
            assert forall|p: u64| #[trigger] ranges_has(w.allocated@, p) implies
                !mid_fl.is_free(p) && !mid_fl.in_pending(p) by {
                assert(alloc_has(w, p));
                assert(!o.freelist.is_free(p) && !o.freelist.in_pending(p));
                if mid_fl.in_pending(p) {
                    assert(o.freelist.in_pending(p));
                }
            }
        }
        return_free_ranges(&mut self.freelist, &w.allocated);
        proof {
            let f = *self;
            lemma_pending_eq(f.freelist, mid_fl);
            assert forall|p: u64|
                f.freelist.ids@.contains(p) <==> o.freelist.ids@.contains(p) || o.walloc(p) by {
                assert(f.freelist.ids@.contains(p) <==> mid_fl.ids@.contains(p) || ranges_has(
                    w.allocated@,
                    p,
                ));
                if ranges_has(w.allocated@, p) {
                    assert(alloc_has(w, p));
                }
                if o.walloc(p) {
                    assert(alloc_has(w, p));
                    assert(ranges_has(w.allocated@, p));
                }
            }
            // well-formedness of the result
            assert(f.tx_ceiling() == o.meta.txid);
            assert forall|p: u64| #[trigger] f.freelist.is_free(p) implies 2 <= p
                < f.high_water by {
                if !o.freelist.is_free(p) {
                    assert(o.walloc(p));
                    assert(alloc_has(w, p));
                    let a = choose|a: int|
                        0 <= a < w.allocated@.len() && (#[trigger] w.allocated@[a]).0 <= p
                            < w.allocated@[a].0 + w.allocated@[a].1;
                }
            }
            assert forall|k: int, p: u64|
                0 <= k < f.freelist.pending@.len() && #[trigger] f.freelist.entry_has(k, p)
                implies 2 <= p < f.high_water by {
                let t = f.freelist.pending@[k].txid;
                assert(f.freelist.in_pending_tx(t, p));
                assert(o.freelist.in_pending_tx(t, p));
                let k2 = choose|k2: int|
                    0 <= k2 < o.freelist.pending@.len() && o.freelist.pending@[k2].txid == t
                        && o.freelist.entry_has(k2, p);
            }
            assert forall|k: int| 0 <= k < f.freelist.pending@.len() implies 1 <= (
            #[trigger] f.freelist.pending@[k]).txid <= f.tx_ceiling() by {
                let t = f.freelist.pending@[k].txid;
                assert(f.freelist.has_key(t));
                assert(t != txid && o.freelist.has_key(t));
                let k2 = choose|k2: int|
                    0 <= k2 < o.freelist.pending@.len() && (
                    #[trigger] o.freelist.pending@[k2]).txid == t;
                assert(o.freelist.pending@[k2].txid <= o.tx_ceiling());
                assert(o.tx_ceiling() == txid);
            }
            if f.meta.freelist != NO_FREELIST {
                let flp = f.meta.freelist;
                assert(!o.freelist.is_free(flp) && !o.walloc(flp));
                if f.freelist.in_pending(flp) {
                    let k = choose|k: int|
                        0 <= k < f.freelist.pending@.len() && f.freelist.entry_has(k, flp);
                    let t = f.freelist.pending@[k].txid;
                    assert(f.freelist.in_pending_tx(t, flp));
                    assert(o.freelist.in_pending_tx(t, flp));
                    let k2 = choose|k2: int|
                        0 <= k2 < o.freelist.pending@.len() && o.freelist.pending@[k2].txid == t
                            && o.freelist.entry_has(k2, flp);
                    assert(o.freelist.in_pending(flp));
                }
            }
            assert forall|j: int|
                0 <= j < f.readers@.len() implies f.reader_ok(#[trigger] f.readers@[j]) by {
                let r = f.readers@[j];
                assert(r == o.readers@[j]);
                assert(o.reader_ok(r));
                assert forall|p: u64| #[trigger] r.snap@.dom().contains(p) implies {
                    &&& !f.freelist.is_free(p)
                    &&& !f.freelist.in_pending_upto(p, r.txid)
                    &&& !f.walloc(p)
                } by {
                    assert(!o.freelist.is_free(p) && !o.walloc(p));
                    if f.freelist.is_free(p) {
                        assert(o.freelist.ids@.contains(p) || o.walloc(p));
                    }
                    if f.freelist.in_pending_upto(p, r.txid) {
                        let k = choose|k: int|
                            0 <= k < f.freelist.pending@.len() && f.freelist.pending@[k].txid
                                <= r.txid && f.freelist.entry_has(k, p);
                        let t = f.freelist.pending@[k].txid;
                        assert(f.freelist.in_pending_tx(t, p));
                        assert(o.freelist.in_pending_tx(t, p));
                        let k2 = choose|k2: int|
                            0 <= k2 < o.freelist.pending@.len() && o.freelist.pending@[k2].txid
                                == t && o.freelist.entry_has(k2, p);
                        assert(o.freelist.in_pending_upto(p, r.txid));
                    }
                }
            }
        }
        Ok(())
    }

    /// Step one of a commit: writes every staged page to the store, in
    /// ascending page order. Only pages the writer privately owns change.
    fn flush_dirty(&mut self, w: &WriterState, Ghost(o): Ghost<DB>)
        requires
            o.inv(),
            o.writer == Some(*w),
            *old(self) == (DB { writer: None, ..o }),
        ensures
            *final(self) == (DB { writer: None, store: final(self).store, ..o }),
            final(self).store.wf(),
            final(self).store.page_size == o.store.page_size,
            final(self).store.syncs == o.store.syncs,
            final(self).store.pages@.len() == o.store.pages@.len(),
            forall|i: int|
                0 <= i < o.store.pages@.len() && !dirty_before(*w, w.dirty@.len() as int, i as u64)
                    ==> (#[trigger] final(self).store.pages@[i])@ == o.store.pages@[i]@,
            forall|d: int|
                0 <= d < w.dirty@.len() ==> (#[trigger] final(self).store.pages@[(
                w.dirty@[d].0) as int])@ == w.dirty@[d].1@,
    {
        proof {
            assert(o.writer_ok(*w));
        }
        let mut di: usize = 0;
        while di < w.dirty.len()
            invariant
                o.inv(),
                o.writer == Some(*w),
                o.writer_ok(*w),
                di <= w.dirty@.len(),
                *self == (DB { writer: None, store: self.store, ..o }),
                self.store.wf(),
                self.store.page_size == o.store.page_size,
                self.store.syncs == o.store.syncs,
                self.store.pages@.len() == o.store.pages@.len(),
                forall|i: int|
                    0 <= i < o.store.pages@.len() && !dirty_before(*w, di as int, i as u64) ==> (
                    #[trigger] self.store.pages@[i])@ == o.store.pages@[i]@,
                forall|d: int|
                    0 <= d < di ==> (#[trigger] self.store.pages@[(w.dirty@[d].0) as int])@
                        == w.dirty@[d].1@,
            decreases w.dirty@.len() - di,
        {
            let (pg, data) = (w.dirty[di].0, w.dirty[di].1.clone());
            let store_len = self.store.len();
            proof {
                assert(alloc_has(*w, pg));
                let a = choose|a: int|
                    0 <= a < w.allocated@.len() && (#[trigger] w.allocated@[a]).0 <= pg
                        < w.allocated@[a].0 + w.allocated@[a].1;
                assert(pg < o.high_water);
                assert(pg < store_len as u64);
                assert((pg as usize) as u64 == pg);
                assert(data@ == w.dirty@[di as int].1@);
            }
            let ghost pre = self.store.pages@;
            self.store.write_page(pg as usize, data);
            proof {
                assert forall|i: int|
                    0 <= i < o.store.pages@.len() && !dirty_before(*w, di + 1, i as u64) implies (
                #[trigger] self.store.pages@[i])@ == o.store.pages@[i]@ by {
                    if i == pg {
                        assert((#[trigger] w.dirty@[di as int]).0 == (i as u64));
                        assert(dirty_before(*w, di + 1, i as u64));
                    } else {
                        if dirty_before(*w, di as int, i as u64) {
                            let d = choose|d: int|
                                0 <= d < di && (#[trigger] w.dirty@[d]).0 == i as u64;
                            assert(dirty_before(*w, di + 1, i as u64));
                        }
                        assert(self.store.pages@[i]@ == pre[i]@);
                    }
                }
                assert forall|d: int|
                    0 <= d < di + 1 implies (#[trigger] self.store.pages@[(w.dirty@[d].0) as int])@
                    == w.dirty@[d].1@ by {
                    if d < di {
                        assert(w.dirty@[d].0 < w.dirty@[di as int].0);
                        assert(self.store.pages@[(w.dirty@[d].0) as int]@ == pre[(
                        w.dirty@[d].0) as int]@);
                    }
                }
            }
            di = di + 1;
        }
    }

    /// Writes the freelist's one-page image at `fl_pgid`: the persisted
    /// bytes padded to a whole page. No other page changes.
    fn write_fl_image(&mut self, fl_pgid: u64) -> (img: Ghost<Seq<u8>>)
        requires
            old(self).freelist.wf(),
            old(self).store.wf(),
            8 + 8 * (old(self).freelist.ids@.len() + crate::freelist::pending_total(
                old(self).freelist.pending@,
            )) <= old(self).store.page_size,
            fl_pgid < old(self).high_water,
            old(self).high_water <= old(self).store.pages@.len(),
        ensures
            *final(self) == (DB { store: final(self).store, ..*old(self) }),
            final(self).store.wf(),
            final(self).store.page_size == old(self).store.page_size,
            final(self).store.syncs == old(self).store.syncs,
            final(self).store.pages@.len() == old(self).store.pages@.len(),
            forall|i: int|
                0 <= i < old(self).store.pages@.len() && i != fl_pgid ==> (#[trigger] final(self).store.pages@[i])@ == old(self).store.pages@[i]@,
            final(self).store.pages@[fl_pgid as int]@ == img@,
            exists|s: Seq<u64>|
                #[trigger] crate::freelist::fl_encodes(img@, s)
                    && crate::freelist::sorted_strict(s) && (forall|p: u64|
                    s.contains(p) <==> old(self).freelist.tracks(p)),
    {
        let ps = self.store.page_size;
        let bytes = self.freelist.persist();
        let mut page = bytes;
        let ghost orig = page@;
        while page.len() < ps
            invariant
                orig.len() <= page@.len() <= ps,
                page@.subrange(0, orig.len() as int) == orig,
            decreases ps - page@.len(),
        {
            let ghost pre2 = page@;
            page.push(0);
            proof {
                assert(page@.subrange(0, orig.len() as int) =~= pre2.subrange(
                    0,
                    orig.len() as int,
                ));
            }
        }
        let ghost img = page@;
        let store_len2 = self.store.len();
        proof {
            assert(fl_pgid < store_len2 as u64);
            assert((fl_pgid as usize) as u64 == fl_pgid);
            assert(page@.len() == ps);
            // the padded page still carries the persisted image
            let s0 = choose|s0: Seq<u64>|
                #[trigger] crate::freelist::fl_encodes(orig, s0)
                    && crate::freelist::sorted_strict(s0) && (forall|j: int|
                    0 <= j < s0.len() ==> 2 <= #[trigger] s0[j] < MAX_PGID) && (forall|p: u64|
                    s0.contains(p) <==> self.freelist.tracks(p));
            assert(img.subrange(0, 8) =~= orig.subrange(0, 8));
            assert forall|j: int|
                0 <= j < s0.len() implies crate::codec::le_val(
                #[trigger] img.subrange(8 + 8 * j, 16 + 8 * j),
            ) == s0[j] by {
                assert(img.subrange(8 + 8 * j, 16 + 8 * j) =~= orig.subrange(
                    8 + 8 * j,
                    16 + 8 * j,
                ));
            }
            assert(crate::freelist::fl_encodes(img, s0));
        }
        self.store.write_page(fl_pgid as usize, page);
        Ghost(img)
    }

    /// The body of a successful commit: every check has passed, so the
    /// seven steps run without failing.
    #[verifier::rlimit(100)]
    #[verifier::spinoff_prover]
    fn commit_apply(&mut self, txid: u64)
        requires
            old(self).inv(),
            old(self).writer_is(txid),
            txid < u64::MAX - 1,
            !old(self).commit_io_cause(txid),
        ensures
            final(self).inv(),
            final(self).writer is None,
            final(self).meta.txid == txid,
            txid == old(self).meta.txid + 1,
            final(self).readers@ == old(self).readers@,
            old(self).writer matches Some(w) && final(self).meta.root == w.root && (forall|d: int|
                0 <= d < w.dirty@.len() ==> (#[trigger] final(self).store.pages@[(
                w.dirty@[d].0) as int])@ == w.dirty@[d].1@),
            final(self).meta.watermark == final(self).high_water,
            final(self).meta.page_size == old(self).meta.page_size,
            final(self).store.pages@[(old(self).meta.txid % 2) as int]@ == old(self).store.pages@[(
            old(self).meta.txid % 2) as int]@,
            meta_valid_bytes(final(self).store.pages@[(txid % 2) as int]@),
            meta_of_bytes(final(self).store.pages@[(txid % 2) as int]@) == final(self).meta,
            old(self).opts.no_freelist_sync ==> final(self).meta.freelist == NO_FREELIST,
            !old(self).opts.no_freelist_sync ==> final(self).meta.freelist != NO_FREELIST && (
            exists|s: Seq<u64>|
                #[trigger] crate::freelist::fl_encodes(
                    final(self).store.pages@[(final(self).meta.freelist) as int]@,
                    s,
                ) && crate::freelist::sorted_strict(s) && (forall|p: u64|
                    s.contains(p) <==> final(self).freelist.tracks(p))),
            old(self).writer matches Some(w2) && final(self).stats == (Stats {
                tx_stats: old(self).stats.tx_stats.add_spec(w2.tx_stats),
                free_page_n: gauge(final(self).freelist.ids@.len()),
                pending_page_n: pending_gauge(
                    crate::freelist::pending_total(final(self).freelist.pending@),
                ),
                ..old(self).stats
            }),
            old(self).opts.no_sync ==> final(self).store.syncs
                == vstd::wrapping::u64_specs::wrapping_add(old(self).store.syncs, 1),
            !old(self).opts.no_sync ==> final(self).store.syncs
                == vstd::wrapping::u64_specs::wrapping_add(
                vstd::wrapping::u64_specs::wrapping_add(old(self).store.syncs, 1),
                1,
            ),
            forall|t: u64, p: u64|
                final(self).freelist.in_pending_tx(t, p) <==> t > final(self).release_upto() && (
                old(self).freelist.in_pending_tx(t, p) || (old(self).meta.freelist != NO_FREELIST
                    && t == txid && p == old(self).meta.freelist)),
            forall|p: u64|
                final(self).freelist.is_free(p) <==> ((old(self).freelist.is_free(p) && p
                    != final(self).meta.freelist) || old(self).freelist.in_pending_upto(
                    p,
                    final(self).release_upto(),
                ) || (old(self).meta.freelist != NO_FREELIST && p == old(self).meta.freelist
                    && txid <= final(self).release_upto())),
            final(self).opts == old(self).opts,
            final(self).path@ == old(self).path@,
            final(self).next_rid == old(self).next_rid,
            final(self).opened == old(self).opened,
    {
        let ghost o = *old(self);
        proof {
            assert(!o.commit_io_cause(txid));
        }
        let w = self.writer.take().unwrap();
        proof {
            assert(o.writer == Some(w));
            assert(o.writer_ok(w));
        }
        // (1) flush the staged pages, in ascending page order
        self.flush_dirty(&w, Ghost(o));
        let ghost s_flush = *self;
        // (2) persist the freelist, unless the policy skips it
        let old_flp = self.meta.freelist;
        let mut fl_pgid: u64 = NO_FREELIST;
        let ghost mut fl_pre = self.freelist;
        let ghost mut fl_img: Seq<u8> = Seq::empty();
        if !self.opts.no_freelist_sync {
            // a fresh page for the new freelist image
            let got = self.freelist.allocate(1);
            match got {
                Some(q) => {
                    fl_pgid = q;
                    proof {
                        assert(crate::freelist::has_run(o.freelist.ids@, q, 1));
                        assert(o.freelist.ids@.contains((q + 0) as u64));
                        assert(o.freelist.is_free(q));
                    }
                },
                None => {
                    proof {
                        assert(forall|q: u64| !crate::freelist::has_run(o.freelist.ids@, q, 1));
                        assert(o.high_water <= 0x1000_0000);
                    }
                    fl_pgid = self.high_water;
                    self.high_water = self.high_water + 1;
                    let need = self.high_water as usize;
                    let target = crate::store::growth_target(
                        self.store.len(),
                        need,
                        crate::store::GROW_DOUBLE_CEILING as usize,
                    );
                    let goal = if target >= need {
                        target
                    } else {
                        need
                    };
                    self.store.grow_to(goal);
                },
            }
            proof {
                fl_pre = self.freelist;
                assert(fl_pre.pending@ == o.freelist.pending@);
                lemma_pending_eq(fl_pre, o.freelist);
            }
            // retire the old freelist page: the new meta will not
            // reference it, and its pages join this transaction's pending
            if old_flp != NO_FREELIST {
                proof {
                    assert(!o.freelist.is_free(old_flp) && !o.freelist.in_pending(old_flp));
                    assert(!self.freelist.ids@.contains(old_flp));
                    if self.freelist.pending@.len() > 0 {
                        let lastk = self.freelist.pending@.len() - 1;
                        assert(1 <= (#[trigger] o.freelist.pending@[lastk]).txid
                            <= o.tx_ceiling());
                    }
                }
                self.freelist.free(txid, old_flp, 0);
            }
            // (3) write the new freelist image; the dispatcher's check
            // guarantees it fits in one page
            proof {
                assert(self.freelist.ids@.len() <= o.freelist.ids@.len());
                assert(crate::freelist::pending_total(self.freelist.pending@)
                    <= crate::freelist::pending_total(o.freelist.pending@) + 1);
                let el = o.freelist.ids@.len() as int;
                let pt = crate::freelist::pending_total(o.freelist.pending@) as int;
                assert(8 * (el + pt + 1) + 8 <= o.store.page_size) by (nonlinear_arith)
                    requires
                        el + pt + 1 <= (((o.store.page_size - 8) as int) / 8),
                        8 * (((o.store.page_size - 8) as int) / 8) <= (o.store.page_size
                            - 8) as int,
                        o.store.page_size >= 64,
                ;
                assert(8 + 8 * (self.freelist.ids@.len() + crate::freelist::pending_total(
                    self.freelist.pending@,
                )) <= self.store.page_size);
            }
            let img = self.write_fl_image(fl_pgid);
            proof {
                fl_img = img@;
            }
        } else {
            proof {
                assert(fl_pre.pending@ == o.freelist.pending@);
                lemma_pending_eq(fl_pre, o.freelist);
            }
            // retire the old freelist page even when not persisting: the
            // new meta will not reference it
            if old_flp != NO_FREELIST {
                proof {
                    assert(!o.freelist.is_free(old_flp) && !o.freelist.in_pending(old_flp));
                    assert(!self.freelist.ids@.contains(old_flp));
                    if self.freelist.pending@.len() > 0 {
                        let lastk = self.freelist.pending@.len() - 1;
                        assert(1 <= (#[trigger] o.freelist.pending@[lastk]).txid
                            <= o.tx_ceiling());
                    }
                }
                self.freelist.free(txid, old_flp, 0);
            }
        }
        let ghost from_free = o.freelist.is_free(fl_pgid);
        let ghost s_freed = *self;
        proof {
            // the free set lost exactly the page picked for the new image
            assert forall|x: u64| #![trigger o.freelist.is_free(x)]
                s_freed.freelist.ids@.contains(x) <==> o.freelist.is_free(x) && x
                    != fl_pgid by {
                assert(s_freed.freelist.ids@ == fl_pre.ids@);
                if o.freelist.is_free(x) {
                    assert(x < o.high_water);
                }
            }
            // pending gained exactly the retired freelist page, if any
            assert forall|t: u64, p: u64| #![trigger o.freelist.in_pending_tx(t, p)]
                s_freed.freelist.in_pending_tx(t, p) <==> o.freelist.in_pending_tx(t, p) || (
                old_flp != NO_FREELIST && t == txid && p == old_flp) by {
                assert(fl_pre.in_pending_tx(t, p) <==> o.freelist.in_pending_tx(t, p));
            }
            assert forall|t: u64| #![trigger o.freelist.has_key(t)]
                s_freed.freelist.has_key(t) <==> o.freelist.has_key(t) || (old_flp != NO_FREELIST
                    && t == txid) by {
                assert(fl_pre.has_key(t) <==> o.freelist.has_key(t));
            }
            assert forall|p: u64| #![trigger o.freelist.in_pending(p)]
                s_freed.freelist.in_pending(p) <==> o.freelist.in_pending(p) || (old_flp
                    != NO_FREELIST && p == old_flp) by {
                assert(fl_pre.in_pending(p) <==> o.freelist.in_pending(p));
            }
            if fl_pgid != NO_FREELIST {
                assert(2 <= fl_pgid < self.high_water) by {
                    if from_free {
                        assert(o.freelist.is_free(fl_pgid));
                    }
                }
                assert(!s_freed.freelist.ids@.contains(fl_pgid));
                assert(!s_freed.freelist.in_pending(fl_pgid)) by {
                    if o.freelist.in_pending(fl_pgid) {
                        let k = choose|k: int|
                            0 <= k < o.freelist.pending@.len() && o.freelist.entry_has(
                                k,
                                fl_pgid,
                            );
                        if from_free {
                            assert(!o.freelist.is_free(fl_pgid));
                        } else {
                            assert(fl_pgid < o.high_water);
                        }
                    }
                    if old_flp != NO_FREELIST && fl_pgid == old_flp {
                        if from_free {
                            assert(!o.freelist.is_free(old_flp));
                        } else {
                            assert(old_flp < o.meta.watermark);
                        }
                    }
                }
                assert(from_free || fl_pgid >= o.high_water);
            }
        }
        // (4) sync the data unless the policy skips it
        if !self.opts.no_sync {
            self.store.sync();
        }
        // (5) build and publish the new meta in the non-authoritative slot
        let new_meta = Meta {
            magic: MAGIC,
            version: FORMAT_VERSION,
            page_size: self.meta.page_size,
            root: w.root,
            freelist: fl_pgid,
            watermark: self.high_water,
            txid,
        };
        let meta_page = crate::meta::write_meta(&new_meta, self.store.page_size);
        let slot = (txid % 2) as usize;
        self.store.write_page(slot, meta_page);
        self.store.sync();
        self.meta = new_meta;
        // (6) reclaim whatever no reader can still reach
        let ghost mid2 = *self;
        proof {
            // the untouched pages kept their bytes all the way through
            assert forall|i: int|
                0 <= i < o.store.pages@.len() && !o.walloc(i as u64) && i != fl_pgid && i != (
                w.txid % 2) implies (#[trigger] mid2.store.pages@[i])@
                == o.store.pages@[i]@ by {
                if dirty_before(w, w.dirty@.len() as int, i as u64) {
                    let d = choose|d: int|
                        0 <= d < w.dirty@.len() && (#[trigger] w.dirty@[d]).0 == i as u64;
                    assert(alloc_has(w, (w.dirty@[d]).0));
                    assert(o.walloc(i as u64));
                }
                assert(s_flush.store.pages@[i]@ == o.store.pages@[i]@);
            }
            lemma_commit_mid_inv(o, mid2, w, fl_pgid, old_flp);
        }
        let upto = self.compute_release_upto();
        self.freelist.release(upto);
        // (7) merge this transaction's counters into the aggregate
        let merged = self.stats.get_tx_stats().add(&w.tx_stats);
        self.stats.set_tx_stats(merged);
        let fp = self.freelist.free_count();
        self.stats.set_free_page_n(cap_i64(fp));
        let pp = self.freelist.pending_count();
        self.stats.set_pending_page_n(cap_i64(pp));
        proof {
            let f = *self;
            if f.readers@.len() > 0 {
                lemma_min_reader(f.readers@);
                let j = choose|j: int|
                    0 <= j < f.readers@.len() && (#[trigger] f.readers@[j]).txid
                        == min_reader_txid(f.readers@);
                assert(mid2.reader_ok(mid2.readers@[j]));
                assert(min_reader_txid(f.readers@) <= mid2.meta.txid);
                assert forall|j2: int|
                    0 <= j2 < mid2.readers@.len() implies upto == 0 || upto < (
                #[trigger] mid2.readers@[j2]).txid by {
                    assert(min_reader_txid(f.readers@) <= mid2.readers@[j2].txid);
                }
            }
            assert(upto <= mid2.tx_ceiling());
            lemma_inv_release_same_readers(mid2, f, upto);
            if !o.opts.no_freelist_sync {
                assert(f.meta.freelist == fl_pgid);
                assert(fl_pgid != NO_FREELIST);
                let s = choose|s: Seq<u64>|
                    #[trigger] crate::freelist::fl_encodes(fl_img, s)
                        && crate::freelist::sorted_strict(s) && (forall|p: u64|
                        s.contains(p) <==> mid2.freelist.tracks(p));
                assert(f.store.pages@[fl_pgid as int]@ == fl_img);
                assert forall|p: u64| s.contains(p) <==> f.freelist.tracks(p) by {
                    if mid2.freelist.tracks(p) {
                        if mid2.freelist.is_free(p) {
                            assert(f.freelist.is_free(p));
                        } else {
                            let k = choose|k: int|
                                0 <= k < mid2.freelist.pending@.len() && mid2.freelist.entry_has(
                                    k,
                                    p,
                                );
                            let t = mid2.freelist.pending@[k].txid;
                            assert(mid2.freelist.in_pending_tx(t, p));
                            if t <= upto {
                                assert(mid2.freelist.in_pending_upto(p, upto));
                                assert(f.freelist.is_free(p));
                            } else {
                                assert(f.freelist.in_pending_tx(t, p));
                                let k2 = choose|k2: int|
                                    0 <= k2 < f.freelist.pending@.len()
                                        && f.freelist.pending@[k2].txid == t
                                        && f.freelist.entry_has(k2, p);
                                assert(f.freelist.in_pending(p));
                            }
                        }
                    }
                    if f.freelist.tracks(p) {
                        if f.freelist.is_free(p) {
                            if !mid2.freelist.is_free(p) {
                                assert(mid2.freelist.in_pending_upto(p, upto));
                                let k = choose|k: int|
                                    0 <= k < mid2.freelist.pending@.len()
                                        && mid2.freelist.pending@[k].txid <= upto
                                        && mid2.freelist.entry_has(k, p);
                                assert(mid2.freelist.in_pending(p));
                            }
                        } else {
                            let k = choose|k: int|
                                0 <= k < f.freelist.pending@.len() && f.freelist.entry_has(k, p);
                            let t = f.freelist.pending@[k].txid;
                            assert(f.freelist.in_pending_tx(t, p));
                            assert(mid2.freelist.in_pending_tx(t, p));
                            let k2 = choose|k2: int|
                                0 <= k2 < mid2.freelist.pending@.len()
                                    && mid2.freelist.pending@[k2].txid == t
                                    && mid2.freelist.entry_has(k2, p);
                            assert(mid2.freelist.in_pending(p));
                        }
                    }
                }
                assert(crate::freelist::fl_encodes(f.store.pages@[fl_pgid as int]@, s));
                assert(crate::freelist::sorted_strict(s));
            }
            // how the freelist changed: the retired page joined this
            // transaction's pending entry, then everything at or under
            // the release horizon moved to the free set
            assert(mid2.release_upto() == f.release_upto());
            assert(f.meta.freelist == fl_pgid);
            lemma_commit_freelist_delta(
                o.freelist,
                s_freed.freelist,
                f.freelist,
                txid,
                old_flp,
                fl_pgid,
                upto,
            );
        }
    }

    /// Commits the open write transaction: flushes its staged pages in
    /// ascending page order, persists the freelist unless the policy
    /// skips it, syncs, and publishes the new meta by writing the slot
    /// that is *not* currently authoritative. Publication is the single
    /// atomic point at which the new root becomes visible; until then the
    /// previous meta stays authoritative, and it remains intact in its
    /// own slot afterwards. Afterwards, pending pages no reader can still
    /// reach are reclaimed and the transaction's counters are merged.
    #[verifier::rlimit(100)]
    pub fn commit(&mut self, txid: u64) -> (r: Result<(), Error>)
        requires
            old(self).inv(),
        ensures
            final(self).inv(),
            match r {
                Ok(()) => {
                    &&& old(self).writer_is(txid)
                    &&& final(self).writer is None
                    &&& final(self).meta.txid == txid
                    &&& txid == old(self).meta.txid + 1
                    &&& final(self).readers@ == old(self).readers@
                    &&& old(self).writer matches Some(w) && final(self).meta.root == w.root && (
                    forall|d: int|
                        0 <= d < w.dirty@.len() ==> (#[trigger] final(self).store.pages@[(
                        w.dirty@[d].0) as int])@ == w.dirty@[d].1@)
                    &&& final(self).meta.watermark == final(self).high_water
                    &&& final(self).meta.page_size == old(self).meta.page_size
                    &&& final(self).store.pages@[(old(self).meta.txid % 2) as int]@ == old(self).store.pages@[(old(self).meta.txid % 2) as int]@
                    &&& meta_valid_bytes(final(self).store.pages@[(txid % 2) as int]@)
                    &&& meta_of_bytes(final(self).store.pages@[(txid % 2) as int]@) == final(self).meta
                    &&& (old(self).opts.no_freelist_sync ==> final(self).meta.freelist
                        == NO_FREELIST)
                    &&& (!old(self).opts.no_freelist_sync ==> final(self).meta.freelist
                        != NO_FREELIST && (exists|s: Seq<u64>|
                        #[trigger] crate::freelist::fl_encodes(
                            final(self).store.pages@[(final(self).meta.freelist) as int]@,
                            s,
                        ) && crate::freelist::sorted_strict(s) && (forall|p: u64|
                            s.contains(p) <==> final(self).freelist.tracks(p))))
                    &&& old(self).writer matches Some(w2) && final(self).stats == (Stats {
                        tx_stats: old(self).stats.tx_stats.add_spec(w2.tx_stats),
                        free_page_n: gauge(final(self).freelist.ids@.len()),
                        pending_page_n: pending_gauge(
                            crate::freelist::pending_total(final(self).freelist.pending@),
                        ),
                        ..old(self).stats
                    })
                    &&& (old(self).opts.no_sync ==> final(self).store.syncs
                        == vstd::wrapping::u64_specs::wrapping_add(old(self).store.syncs, 1))
                    &&& (!old(self).opts.no_sync ==> final(self).store.syncs
                        == vstd::wrapping::u64_specs::wrapping_add(
                        vstd::wrapping::u64_specs::wrapping_add(old(self).store.syncs, 1),
                        1,
                    ))
                    &&& forall|t: u64, p: u64|
                        final(self).freelist.in_pending_tx(t, p) <==> t > final(self).release_upto() && (old(self).freelist.in_pending_tx(t, p) || (old(self).meta.freelist != NO_FREELIST && t == txid && p == old(self).meta.freelist))
                    &&& forall|p: u64|
                        final(self).freelist.is_free(p) <==> ((old(self).freelist.is_free(p) && p
                            != final(self).meta.freelist) || old(self).freelist.in_pending_upto(
                            p,
                            final(self).release_upto(),
                        ) || (old(self).meta.freelist != NO_FREELIST && p == old(self).meta.freelist && txid <= final(self).release_upto()))
                },
                Err(e) => {
                    &&& (e == Error::TxClosed || e == Error::Io)
                    &&& (e == Error::TxClosed <==> !old(self).writer_is(txid))
                    &&& (e == Error::TxClosed ==> *final(self) == *old(self))
                    &&& (e == Error::Io <==> old(self).writer_is(txid) && old(self).commit_io_cause(txid))
                    &&& (e == Error::Io ==> old(self).writer_is(txid) && final(self).writer
                        is None && final(self).meta == old(self).meta && final(self).readers@
                        == old(self).readers@)
                },
            },
            final(self).opts == old(self).opts,
            final(self).path@ == old(self).path@,
            final(self).next_rid == old(self).next_rid,
            final(self).opened == old(self).opened,
    {
        let ghost o = *old(self);
        let ok = match &self.writer {
            Some(w) => w.txid == txid,
            None => false,
        };
        if !ok {
            return Err(Error::TxClosed);
        }
        if txid >= u64::MAX - 1 {
            let _ = self.rollback(txid);
            return Err(Error::Io);
        }
        if !self.opts.no_freelist_sync {
            // every io cause is decidable up front: the image (counting
            // the page being retired and the fresh one) must fit in one
            // page, and with no free page left the file must still be
            // allowed to grow
            let fc = self.freelist.free_count();
            let pc = self.freelist.pending_count();
            let words = (fc as u64).saturating_add(pc as u64).saturating_add(1);
            let ps = self.store.page_size;
            let io_bad = words > ((ps - 8) / 8) as u64 || (fc == 0 && self.high_water
                > 0x1000_0000);
            proof {
                let el = o.freelist.ids@.len() as int;
                let pt = crate::freelist::pending_total(o.freelist.pending@) as int;
                if words > ((ps - 8) / 8) as u64 {
                    assert(fc + pc + 1 > ((ps - 8) / 8) as int);
                    assert(pc <= pt);
                    assert(8 * (el + pt + 1) + 8 > ps) by (nonlinear_arith)
                        requires
                            el + pt + 1 > ((ps - 8) / 8) as int,
                            8 * (((ps - 8) as int) / 8) >= (ps - 8) as int - 7,
                            ps >= 64,
                    ;
                } else {
                    assert(pt <= usize::MAX ==> pc == pt);
                    assert(el + pt + 1 <= ((ps - 8) / 8) as int);
                    assert(8 * (el + pt + 1) + 8 <= ps) by (nonlinear_arith)
                        requires
                            el + pt + 1 <= (((ps - 8) as int) / 8),
                            8 * (((ps - 8) as int) / 8) <= (ps - 8) as int,
                            ps >= 64,
                    ;
                }
                // a run of one page exists exactly when the free set is
                // not empty
                if fc == 0 {
                    assert forall|q: u64|
                        !crate::freelist::has_run(o.freelist.ids@, q, 1) by {
                        if crate::freelist::has_run(o.freelist.ids@, q, 1) {
                            assert(o.freelist.ids@.contains((q + 0) as u64));
                        }
                    }
                } else {
                    assert(o.freelist.ids@.contains(o.freelist.ids@[0]));
                    assert(crate::freelist::has_run(
                        o.freelist.ids@,
                        o.freelist.ids@[0],
                        1,
                    )) by {
                        assert forall|m: int| 0 <= m < 1 implies #[trigger] o.freelist.ids@.contains(
                            ((o.freelist.ids@[0]) + m) as u64,
                        ) by {}
                    }
                }
                assert(io_bad == o.commit_io_cause(txid));
            }
            if io_bad {
                let _ = self.rollback(txid);
                return Err(Error::Io);
            }
        }
        proof {
            assert(!o.commit_io_cause(txid));
        }
        self.commit_apply(txid);
        Ok(())
    }


    /// Forces a data sync against the backing file, independent of the
    /// `no_sync` policy.
    pub fn sync(&mut self) -> (r: Result<(), Error>)
        requires
            old(self).inv(),
        ensures
            final(self).inv(),
            match r {
                Ok(()) => {
                    &&& old(self).opened
                    &&& final(self).store.pages@ == old(self).store.pages@
                    &&& final(self).store.page_size == old(self).store.page_size
                    &&& final(self).store.syncs == vstd::wrapping::u64_specs::wrapping_add(
                        old(self).store.syncs,
                        1,
                    )
                    &&& final(self).meta == old(self).meta
                    &&& final(self).freelist == old(self).freelist
                    &&& final(self).readers@ == old(self).readers@
                    &&& final(self).writer == old(self).writer
                    &&& final(self).high_water == old(self).high_water
                },
                Err(e) => e == Error::DatabaseNotOpen && !old(self).opened && *final(self) == *old(self),
            },
            final(self).opts == old(self).opts,
            final(self).path@ == old(self).path@,
            final(self).next_rid == old(self).next_rid,
            final(self).stats == old(self).stats,
            final(self).opened == old(self).opened,
    {
        if !self.opened {
            return Err(Error::DatabaseNotOpen);
        }
        self.store.sync();
        proof {
            let o = *old(self);
            let f = *self;
            assert forall|i: int|
                0 <= i < f.readers@.len() implies f.reader_ok(#[trigger] f.readers@[i]) by {
                assert(o.reader_ok(o.readers@[i]));
                assert(f.readers@[i] == o.readers@[i]);
            }
            match f.writer {
                Some(w) => {
                    assert(o.writer_ok(w));
                    assert(f.writer_ok(w));
                },
                None => {},
            }
        }
        Ok(())
    }

    /// Executes a read within a managed read-only transaction: opens a
    /// reader, copies the requested pages, and closes the reader again on
    /// every exit path, so a view can never leave a snapshot registered.
    pub fn view(&mut self, pgids: &Vec<u64>) -> (r: Result<Vec<Vec<u8>>, Error>)
        requires
            old(self).inv(),
        ensures
            final(self).inv(),
            final(self).readers@ == old(self).readers@,
            final(self).meta == old(self).meta,
            final(self).store == old(self).store,
            final(self).writer == old(self).writer,
            final(self).opened == old(self).opened,
            match r {
                Ok(pages) => {
                    &&& pages@.len() == pgids@.len()
                    &&& forall|j: int|
                        0 <= j < pgids@.len() ==> (#[trigger] pages@[j])@ == old(
                            self,
                        ).store.pages@[(pgids@[j]) as int]@ && pgids@[j] < old(
                            self,
                        ).store.pages@.len()
                },
                Err(e) => {
                    &&& (e == Error::DatabaseNotOpen || e == Error::Io)
                    &&& (e == Error::DatabaseNotOpen <==> !old(self).opened)
                    &&& (e == Error::Io <==> old(self).opened && (old(self).next_rid == u64::MAX
                        || (exists|j: int|
                        0 <= j < pgids@.len() && (#[trigger] pgids@[j]) >= old(
                            self,
                        ).store.pages@.len())))
                },
            },
    {
        let ghost o = *old(self);
        let rid = match self.begin() {
            Ok(rid) => rid,
            Err(e) => {
                return Err(e);
            },
        };
        let ghost mid = *self;
        proof {
            assert(mid.readers@[mid.readers@.len() - 1].rid == rid);
            assert(mid.reader_registered(rid));
        }
        let mut pages: Vec<Vec<u8>> = Vec::new();
        let mut j: usize = 0;
        let mut bad = false;
        while j < pgids.len() && !bad
            invariant
                *self == mid,
                mid.inv(),
                mid.reader_registered(rid),
                j <= pgids@.len(),
                !bad ==> pages@.len() == j,
                !bad ==> forall|j2: int|
                    0 <= j2 < j ==> (#[trigger] pages@[j2])@ == mid.store.pages@[(
                    pgids@[j2]) as int]@ && pgids@[j2] < mid.store.pages@.len(),
                bad ==> (exists|j2: int|
                    0 <= j2 < pgids@.len() && (#[trigger] pgids@[j2])
                        >= mid.store.pages@.len()),
            decreases pgids@.len() - j,
        {
            match self.read_page(rid, pgids[j]) {
                Ok(bytes) => {
                    pages.push(bytes);
                    j = j + 1;
                },
                Err(_) => {
                    proof {
                        assert(pgids@[j as int] >= mid.store.pages@.len());
                    }
                    bad = true;
                    j = pgids.len();
                },
            }
        }
        let closed = self.close_reader(rid);
        proof {
            assert(closed is Ok);
            let f = *self;
            assert(mid.readers@ == o.readers@.push(
                ReaderRec { rid, txid: o.meta.txid, snap: Ghost(o.snap_of()) },
            ));
            let i = choose|i: int|
                0 <= i < mid.readers@.len() && (#[trigger] mid.readers@[i]).rid == rid
                    && f.readers@ == mid.readers@.remove(i);
            if i < mid.readers@.len() - 1 {
                assert(mid.readers@[i] == o.readers@[i]);
                assert(o.readers@[i].rid < o.next_rid);
                assert(false);
            }
            assert(f.readers@ =~= o.readers@);
        }
        if bad {
            return Err(Error::Io);
        }
        proof {
            assert(mid.store == o.store);
            assert(pages@.len() == pgids@.len());
            assert forall|j2: int|
                0 <= j2 < pgids@.len() implies (#[trigger] pages@[j2])@ == o.store.pages@[(
            pgids@[j2]) as int]@ && pgids@[j2] < o.store.pages@.len() by {
                assert((#[trigger] pages@[j2])@ == mid.store.pages@[(pgids@[j2]) as int]@);
            }
        }
        Ok(pages)
    }

    /// A point-in-time copy of the statistics, so callers can diff two
    /// snapshots.
    pub fn stats(&self) -> (s: Stats)
        ensures
            s == self.stats,
    {
        self.stats
    }

    /// The path the database was opened under.
    pub fn path(&self) -> (p: &str)
        ensures
            p@ == self.path@,
    {
        self.path.as_str()
    }

    /// Closes the database and hands back the paged image. In a threaded
    /// deployment, close would block until every transaction finishes;
    /// here open handles must be resolved first, reported as `Timeout`.
    pub fn close(&mut self) -> (r: Result<Vec<Vec<u8>>, Error>)
        requires
            old(self).inv(),
        ensures
            final(self).inv(),
            match r {
                Ok(pages) => {
                    &&& old(self).opened && old(self).writer is None && old(self).readers@.len()
                        == 0
                    &&& pages@.len() == old(self).store.pages@.len()
                    &&& forall|j: int|
                        0 <= j < pages@.len() ==> (#[trigger] pages@[j])@ == old(self).store.pages@[j]@
                    &&& !final(self).opened
                },
                Err(e) => {
                    &&& *final(self) == *old(self)
                    &&& (e == Error::DatabaseNotOpen || e == Error::Timeout)
                    &&& (e == Error::DatabaseNotOpen <==> !old(self).opened)
                    &&& (e == Error::Timeout <==> old(self).opened && (old(self).writer is Some
                        || old(self).readers@.len() > 0))
                },
            },
            final(self).opts == old(self).opts,
            final(self).path@ == old(self).path@,
    {
        if !self.opened {
            return Err(Error::DatabaseNotOpen);
        }
        let has_writer = match &self.writer {
            Some(_) => true,
            None => false,
        };
        if has_writer || self.readers.len() > 0 {
            return Err(Error::Timeout);
        }
        self.opened = false;
        let mut copy: Vec<Vec<u8>> = Vec::new();
        let mut i: usize = 0;
        let n = self.store.len();
        while i < n
            invariant
                *self == (DB { opened: false, ..*old(self) }),
                n == self.store.pages@.len(),
                i <= n,
                copy@.len() == i,
                forall|j: int| 0 <= j < i ==> (#[trigger] copy@[j])@ == self.store.pages@[j]@,
            decreases n - i,
        {
            let page = self.store.read_page(i);
            copy.push(page);
            i = i + 1;
        }
        Ok(copy)
    }
}

/// Snapshot isolation: every page in a registered reader's snapshot
/// still holds, in the store, exactly the bytes it held at the reader's
/// `begin`, and it is outside the free set and outside the writer's
/// fresh allocations — so no interleaving of writer steps can ever make
/// the reader observe a mix of pre- and post-commit pages.
pub proof fn lemma_snapshot_isolation(db: DB, i: int, p: u64)
    requires
        db.inv(),
        0 <= i < db.readers@.len(),
        db.readers@[i].snap@.dom().contains(p),
    ensures
        db.store.pages@[p as int]@ == db.readers@[i].snap@[p],
        !db.freelist.is_free(p),
        !db.walloc(p),
{
    assert(db.reader_ok(db.readers@[i]));
}

/// A page freed by some transaction and still pending is outside the
/// free set, so `allocate` — which only ever draws on free runs — can
/// never hand it out; nor does the open writer hold it. It becomes
/// eligible only through `release`, which the database invokes with a
/// bound strictly below every open reader's snapshot version.
pub proof fn lemma_pending_never_allocated(db: DB, t: u64, p: u64, n: int)
    requires
        db.inv(),
        db.freelist.in_pending_tx(t, p),
        1 <= n,
    ensures
        !db.freelist.is_free(p),
        !crate::freelist::has_run(db.freelist.ids@, p, n),
        !db.walloc(p),
{
    let k = choose|k: int|
        0 <= k < db.freelist.pending@.len() && db.freelist.pending@[k].txid == t
            && db.freelist.entry_has(k, p);
    assert(!db.freelist.is_free(p));
    if crate::freelist::has_run(db.freelist.ids@, p, n) {
        assert(db.freelist.ids@.contains((p + 0) as u64));
    }
    match db.writer {
        Some(w) => {
            if alloc_has(w, p) {
                assert(db.freelist.in_pending(p));
            }
        },
        None => {},
    }
}

/// While any reader with snapshot version at most `t` is open, the
/// release bound stays strictly below `t`: pending entries keyed `t` or
/// later cannot reach the free set.
pub proof fn lemma_reader_blocks_release(db: DB, i: int, t: u64)
    requires
        db.inv(),
        0 <= i < db.readers@.len(),
        db.readers@[i].txid <= t,
    ensures
        db.release_upto() < t || t == 0,
{
    lemma_min_reader(db.readers@);
    assert(min_reader_txid(db.readers@) <= db.readers@[i].txid);
}

/// A bounded view over the mapped bytes for diagnostic use: the page
/// size and the mapped extent. Unlike a raw pointer it cannot outlive or
/// corrupt the owning database.
#[derive(Clone, Copy, Debug, PartialEq, Eq, Structural)]
pub struct Info {
    /// The database's page size in bytes.
    pub page_size: usize,
    /// Total mapped bytes, saturating at the machine word.
    pub data_size: u64,
}

impl DB {
    /// Read-only raw information about the mapped data.
    pub fn info(&self) -> (r: Info)
        ensures
            r.page_size == self.store.page_size,
            self.store.pages@.len() * self.store.page_size <= u64::MAX ==> r.data_size
                == self.store.pages@.len() * self.store.page_size,
    {
        let l = self.store.len() as u64;
        let p = self.store.page_size as u64;
        let ds: u64 = if p != 0 && l > u64::MAX / p {
            proof {
                assert(l * p > u64::MAX) by (nonlinear_arith)
                    requires
                        p >= 1,
                        l > u64::MAX as int / p as int,
                ;
            }
            u64::MAX
        } else {
            proof {
                if p != 0 {
                    assert(l * p <= u64::MAX) by (nonlinear_arith)
                        requires
                            p >= 1,
                            l <= u64::MAX as int / p as int,
                    ;
                }
            }
            l * p
        };
        Info { page_size: self.store.page_size, data_size: ds }
    }
}

/// The database surface: transaction entry points, lifecycle and
/// diagnostics.
pub trait DbApi where Self: Sized {
    /// The invariant the operations preserve.
    spec fn api_inv(&self) -> bool;

    /// The path to the currently open database file.
    fn path(&self) -> &str;

    /// Starts a read-only transaction and returns its handle. Multiple
    /// read-only transactions can be used concurrently. The handle must
    /// be closed again, or the database can never reclaim old pages.
    fn begin(&mut self) -> (r: Result<u64, Error>)
        requires
            old(self).api_inv(),
        ensures
            final(self).api_inv(),
    ;

    /// Starts the single write transaction and returns its id; a second
    /// concurrent writer fails with `Timeout` after the configured bound.
    fn begin_rw(&mut self) -> (r: Result<u64, Error>)
        requires
            old(self).api_inv(),
        ensures
            final(self).api_inv(),
    ;

    /// Releases all database resources, handing back the paged image; it
    /// requires every transaction to have finished.
    fn close(&mut self) -> (r: Result<Vec<Vec<u8>>, Error>)
        requires
            old(self).api_inv(),
        ensures
            final(self).api_inv(),
    ;

    /// Forces a data sync against the database file, independent of the
    /// `no_sync` policy.
    fn sync(&mut self) -> (r: Result<(), Error>)
        requires
            old(self).api_inv(),
        ensures
            final(self).api_inv(),
    ;

    /// Retrieves a point-in-time copy of the performance statistics.
    fn stats(&self) -> Stats;

    /// Raw data information, for careful diagnostic use.
    fn info(&self) -> Info;
}

impl DbApi for DB {
    open spec fn api_inv(&self) -> bool {
        self.inv()
    }

    fn path(&self) -> &str {
        DB::path(self)
    }

    fn begin(&mut self) -> (r: Result<u64, Error>) {
        DB::begin(self)
    }

    fn begin_rw(&mut self) -> (r: Result<u64, Error>) {
        DB::begin_rw(self)
    }

    fn close(&mut self) -> (r: Result<Vec<Vec<u8>>, Error>) {
        DB::close(self)
    }

    fn sync(&mut self) -> (r: Result<(), Error>) {
        DB::sync(self)
    }

    fn stats(&self) -> Stats {
        DB::stats(self)
    }

    fn info(&self) -> Info {
        DB::info(self)
    }
}

/// Whether every page of the image is a block of exactly `ps` bytes.
fn pages_uniform(pages: &Vec<Vec<u8>>, ps: usize) -> (r: bool)
    ensures
        r == (forall|j: int| 0 <= j < pages@.len() ==> (#[trigger] pages@[j])@.len() == ps),
{
    let mut i: usize = 0;
    while i < pages.len()
        invariant
            i <= pages@.len(),
            forall|j: int| 0 <= j < i ==> (#[trigger] pages@[j])@.len() == ps,
        decreases pages@.len() - i,
    {
        if pages[i].len() != ps {
            return false;
        }
        i = i + 1;
    }
    true
}

/// Finds the smallest snapshot version among the registered readers.
fn compute_min_reader(rs: &Vec<ReaderRec>) -> (m: u64)
    ensures
        m == min_reader_txid(rs@),
{
    let mut m: u64 = u64::MAX;
    let mut i: usize = 0;
    while i < rs.len()
        invariant
            i <= rs@.len(),
            m == min_reader_txid(rs@.take(i as int)),
        decreases rs@.len() - i,
    {
        proof {
            let t = rs@.take(i + 1);
            assert(t.drop_last() =~= rs@.take(i as int));
            assert(t.last() == rs@[i as int]);
            if i == 0 {
                assert(t.len() == 1);
                assert(t[0] == rs@[0]);
            }
        }
        if rs[i].txid < m {
            m = rs[i].txid;
        }
        i = i + 1;
    }
    proof {
        assert(rs@.take(rs@.len() as int) =~= rs@);
    }
    m
}

} // verus!
