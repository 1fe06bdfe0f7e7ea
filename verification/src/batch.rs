//! Coalesced multi-caller commits.
//!
//! Many concurrent small writers each paying a full commit's sync cost is
//! wasteful; a batch runs every queued piece of work inside one write
//! transaction and commits once. If the combined transaction fails, the
//! batch is not retried as a whole — one bad caller would poison the
//! others — instead each piece of work is retried alone, and only the
//! callers whose work fails on its own observe an error.
use vstd::prelude::*;
use crate::db::DB;
use crate::errors::Error;
use crate::options::Options;

verus! {

/// How a transaction plan chooses the root to publish.
#[derive(Clone, Copy, Debug, PartialEq, Eq, Structural)]
pub enum RootPlan {
    /// Keep the root of the snapshot the transaction started from.
    Keep,
    /// Publish an existing page id as the root.
    Existing(u64),
    /// Publish the n-th freshly allocated page as the root.
    Fresh(usize),
}

/// One caller's unit of work: the pages it wants written, the ranges it
/// frees, and the root it publishes. This is what the tree layer hands
/// the storage core for one transaction.
pub struct TxPlan {
    /// Contents for freshly allocated pages, one page each.
    pub allocs: Vec<Vec<u8>>,
    /// Committed page ranges to free, as (page id, overflow count).
    pub frees: Vec<(u64, u64)>,
    /// Which root to publish.
    pub root: RootPlan,
}

/// Whether a pending batch must be committed now: it is full, or the
/// configured delay since its first caller has passed.
pub fn should_trigger(pending_n: usize, elapsed_ms: u64, opts: &Options) -> (r: bool)
    ensures
        r == (pending_n >= opts.max_batch_size || elapsed_ms >= opts.max_batch_delay_ms),
{
    pending_n >= opts.max_batch_size || elapsed_ms >= opts.max_batch_delay_ms
}

/// Applies one plan inside the open write transaction: allocates and
/// stages each page, performs the frees, and resolves the root choice.
/// Returns the freshly allocated page ids. Never resolves the
/// transaction itself; on failure the transaction is left open for the
/// caller to roll back.
pub fn apply_plan(db: &mut DB, txid: u64, plan: &TxPlan) -> (r: Result<Vec<u64>, Error>)
    requires
        old(db).inv(),
    ensures
        final(db).inv(),
        final(db).writer == old(db).writer || (old(db).writer_is(txid) && final(db).writer_is(
            txid,
        )),
        final(db).meta == old(db).meta,
        final(db).readers@ == old(db).readers@,
        r matches Ok(pages) ==> pages@.len() == plan.allocs@.len(),
{
    let mut pages: Vec<u64> = Vec::new();
    let mut i: usize = 0;
    while i < plan.allocs.len()
        invariant
            db.inv(),
            db.writer == old(db).writer || (old(db).writer_is(txid) && db.writer_is(txid)),
            db.meta == old(db).meta,
            db.readers@ == old(db).readers@,
            i <= plan.allocs@.len(),
            pages@.len() == i,
        decreases plan.allocs@.len() - i,
    {
        let p = match db.tx_allocate(txid, 1) {
            Ok(p) => p,
            Err(e) => {
                return Err(e);
            },
        };
        match db.tx_write(txid, p, plan.allocs[i].clone()) {
            Ok(()) => {},
            Err(e) => {
                return Err(e);
            },
        }
        pages.push(p);
        i = i + 1;
    }
    let mut j: usize = 0;
    while j < plan.frees.len()
        invariant
            db.inv(),
            db.writer == old(db).writer || (old(db).writer_is(txid) && db.writer_is(txid)),
            db.meta == old(db).meta,
            db.readers@ == old(db).readers@,
            j <= plan.frees@.len(),
            pages@.len() == plan.allocs@.len(),
        decreases plan.frees@.len() - j,
    {
        let (pg, ov) = plan.frees[j];
        match db.tx_free(txid, pg, ov) {
            Ok(()) => {},
            Err(e) => {
                return Err(e);
            },
        }
        j = j + 1;
    }
    match plan.root {
        RootPlan::Keep => {},
        RootPlan::Existing(root) => {
            match db.tx_set_root(txid, root) {
                Ok(()) => {},
                Err(e) => {
                    return Err(e);
                },
            }
        },
        RootPlan::Fresh(n) => {
            if n >= pages.len() {
                return Err(Error::TxNotWritable);
            }
            match db.tx_set_root(txid, pages[n]) {
                Ok(()) => {},
                Err(e) => {
                    return Err(e);
                },
            }
        },
    }
    Ok(pages)
}

/// Executes one plan within a managed write transaction: on success the
/// transaction is committed, on any failure it is rolled back; either
/// way the writer lock is released before returning.
pub fn update(db: &mut DB, plan: &TxPlan) -> (r: Result<Vec<u64>, Error>)
    requires
        old(db).inv(),
    ensures
        final(db).inv(),
        old(db).writer is None ==> final(db).writer is None,
        final(db).readers@ == old(db).readers@,
        r is Ok ==> final(db).meta.txid == old(db).meta.txid + 1,
        r is Err && old(db).writer is None ==> final(db).meta == old(db).meta,
{
    let txid = match db.begin_rw() {
        Ok(t) => t,
        Err(e) => {
            return Err(e);
        },
    };
    let pages = match apply_plan(db, txid, plan) {
        Ok(pages) => pages,
        Err(e) => {
            let _ = db.rollback(txid);
            return Err(e);
        },
    };
    match db.commit(txid) {
        Ok(()) => Ok(pages),
        Err(e) => {
            let _ = db.rollback(txid);
            Err(e)
        },
    }
}

/// How many of the callers' results are successes.
pub open spec fn ok_count(rs: Seq<Result<(), Error>>) -> nat
    decreases rs.len(),
{
    if rs.len() == 0 {
        0
    } else {
        ok_count(rs.drop_last()) + if rs.last() is Ok {
            1nat
        } else {
            0nat
        }
    }
}

/// Runs a batch of plans: all of them inside one write transaction with
/// a single commit. If the combined transaction fails, every plan is
/// retried alone in its own transaction and only the plans that fail
/// individually report an error to their callers: a single bad plan
/// never poisons the others, whose effects each commit on their own.
pub fn batch(db: &mut DB, plans: &Vec<TxPlan>) -> (results: Vec<Result<(), Error>>)
    requires
        old(db).inv(),
        old(db).writer is None,
    ensures
        final(db).inv(),
        final(db).writer is None,
        results@.len() == plans@.len(),
        ((forall|i: int| 0 <= i < results@.len() ==> (#[trigger] results@[i]) is Ok)
            && plans@.len() > 0 && final(db).meta.txid == old(db).meta.txid + 1) || final(db).meta.txid == old(db).meta.txid + ok_count(results@),
{
    if plans.len() == 0 {
        let results: Vec<Result<(), Error>> = Vec::new();
        proof {
            assert(ok_count(results@) == 0);
        }
        return results;
    }
    let mut results: Vec<Result<(), Error>> = Vec::new();
    let mut combined_ok = true;
    match db.begin_rw() {
        Ok(txid) => {
            let mut i: usize = 0;
            while i < plans.len() && combined_ok
                invariant
                    db.inv(),
                    db.writer is None || db.writer_is(txid),
                    db.meta == old(db).meta,
                    db.readers@ == old(db).readers@,
                    i <= plans@.len(),
                    combined_ok ==> db.writer_is(txid),
                decreases plans@.len() - i,
            {
                match apply_plan(db, txid, &plans[i]) {
                    Ok(_) => {},
                    Err(_) => {
                        combined_ok = false;
                    },
                }
                i = i + 1;
            }
            if combined_ok {
                match db.commit(txid) {
                    Ok(()) => {},
                    Err(_) => {
                        let _ = db.rollback(txid);
                        combined_ok = false;
                    },
                }
            } else {
                let _ = db.rollback(txid);
            }
        },
        Err(_) => {
            combined_ok = false;
        },
    }
    if combined_ok {
        // one commit covered every plan
        let mut i: usize = 0;
        while i < plans.len()
            invariant
                i <= plans@.len(),
                results@.len() == i,
                forall|j: int| 0 <= j < i ==> (#[trigger] results@[j]) is Ok,
            decreases plans@.len() - i,
        {
            results.push(Ok(()));
            i = i + 1;
        }
        results
    } else {
        // retry in isolation: a single bad plan must not poison the rest
        let ghost base = *db;
        let mut i: usize = 0;
        while i < plans.len()
            invariant
                db.inv(),
                db.writer is None,
                i <= plans@.len(),
                results@.len() == i,
                db.meta.txid == base.meta.txid + ok_count(results@),
            decreases plans@.len() - i,
        {
            let ghost pre = results@;
            match update(db, &plans[i]) {
                Ok(_) => results.push(Ok(())),
                Err(e) => results.push(Err(e)),
            }
            proof {
                assert(results@.drop_last() =~= pre);
            }
            i = i + 1;
        }
        proof {
            assert(base.meta == old(db).meta);
        }
        results
    }
}

} // verus!
