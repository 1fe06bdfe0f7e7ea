use boltdb::batch::{batch, should_trigger, update, RootPlan, TxPlan};
use boltdb::db::{DbApi, DB};
use boltdb::errors::Error;
use boltdb::freelist::vec_contains;
use boltdb::options::Options;

fn small_opts() -> Options {
    let mut o = Options::default();
    o.page_size = 4096;
    o.no_freelist_sync = true;
    o
}

fn page_of(b: u8, ps: usize) -> Vec<u8> {
    vec![b; ps]
}

#[test]
fn test_db() {
    let mut db = DB::open(String::from("test.db"), None, None, Options::default()).unwrap();
    assert_eq!(db.path(), "test.db");
    let rid = db.begin().unwrap();
    assert_eq!(db.stats().get_open_tx_n(), 1);
    assert_eq!(db.stats().get_tx_n(), 1);
    db.close_reader(rid).unwrap();
    assert_eq!(db.stats().get_open_tx_n(), 0);
    db.close().unwrap();
}

#[test]
fn test_db_info() {
    let mut opts = Options::default();
    opts.page_size = 4096;
    let db = DB::open(String::from("test db info"), None, None, opts).unwrap();
    let info = db.info();
    println!("Page size: {}", info.page_size);
    println!("Data size: {}", info.data_size);
    assert_eq!(info.page_size, 4096);
    assert_eq!(info.data_size, 2 * 4096);
}

#[test]
fn test_end_to_end_commit_reopen() {
    // open fresh database, commit a write transaction allocating the
    // root page, reopen: the authoritative meta reports txid 1, root 2
    let mut db = DB::open(String::from("e2e.db"), None, None, small_opts()).unwrap();
    let tx = db.begin_rw().unwrap();
    assert_eq!(tx, 1);
    let root = db.tx_allocate(tx, 1).unwrap();
    assert_eq!(root, 2);
    db.tx_write(tx, root, page_of(7, 4096)).unwrap();
    db.tx_set_root(tx, root).unwrap();
    db.commit(tx).unwrap();
    let image = db.close().unwrap();

    let mut db = DB::open(String::from("e2e.db"), Some(image), None, small_opts()).unwrap();
    assert_eq!(db.meta.txid, 1);
    assert_eq!(db.meta.root, 2);

    // three readers at txid 1; a second write transaction frees pgid 2
    // and allocates pgid 3
    let r1 = db.begin().unwrap();
    let r2 = db.begin().unwrap();
    let r3 = db.begin().unwrap();
    let tx2 = db.begin_rw().unwrap();
    assert_eq!(tx2, 2);
    db.tx_free(tx2, 2, 0).unwrap();
    let p = db.tx_allocate(tx2, 1).unwrap();
    assert_eq!(p, 3);
    db.tx_write(tx2, p, page_of(9, 4096)).unwrap();
    db.tx_set_root(tx2, p).unwrap();
    db.commit(tx2).unwrap();

    // freed page 2 is pending under txid 2 while readers at txid 1 live
    assert_eq!(db.freelist.pending_pages_of(2), vec![2]);
    // snapshot isolation: the reader still sees the old root bytes
    let bytes = db.read_page(r1, 2).unwrap();
    assert_eq!(bytes, page_of(7, 4096));

    // closing two of the three readers changes nothing
    db.close_reader(r1).unwrap();
    db.close_reader(r2).unwrap();
    assert_eq!(db.freelist.pending_pages_of(2), vec![2]);
    assert!(!vec_contains(&db.freelist.ids, 2));

    // closing the last reader makes the page reusable
    db.close_reader(r3).unwrap();
    assert!(db.freelist.pending_pages_of(2).is_empty());
    assert!(vec_contains(&db.freelist.ids, 2));
}

#[test]
fn test_meta_crash_recovery() {
    // if a crash corrupts the most recent meta write, the previous meta
    // is selected and everything committed before it is intact
    let mut db = DB::open(String::from("crash.db"), None, None, small_opts()).unwrap();
    let tx = db.begin_rw().unwrap();
    let root = db.tx_allocate(tx, 1).unwrap();
    db.tx_write(tx, root, page_of(3, 4096)).unwrap();
    db.tx_set_root(tx, root).unwrap();
    db.commit(tx).unwrap();
    let mut image = db.close().unwrap();

    // txid 1 lives in slot 1; tear that slot
    image[1][17] ^= 0xff;
    let db = DB::open(String::from("crash.db"), Some(image), None, small_opts()).unwrap();
    assert_eq!(db.meta.txid, 0);
    assert_eq!(db.meta.root, boltdb::meta::NO_ROOT);
}

#[test]
fn test_both_slots_corrupt() {
    let mut db = DB::open(String::from("bad.db"), None, None, small_opts()).unwrap();
    let mut image = db.close().unwrap();
    image[0][0] ^= 0xff;
    image[1][0] ^= 0xff;
    let r = DB::open(String::from("bad.db"), Some(image), None, small_opts());
    assert!(matches!(r, Err(Error::Corrupt)));
}

#[test]
fn test_freelist_persist_reopen() {
    // with persistence enabled the freelist written at commit time is
    // reloaded identically at open
    let mut opts = Options::default();
    opts.page_size = 512;
    let mut db = DB::open(String::from("fl.db"), None, None, opts).unwrap();
    let tx = db.begin_rw().unwrap();
    let a = db.tx_allocate(tx, 1).unwrap();
    let b = db.tx_allocate(tx, 1).unwrap();
    db.tx_write(tx, a, page_of(1, 512)).unwrap();
    db.tx_write(tx, b, page_of(2, 512)).unwrap();
    db.tx_set_root(tx, a).unwrap();
    db.commit(tx).unwrap();
    assert_ne!(db.meta.freelist, boltdb::meta::NO_FREELIST);

    let tx2 = db.begin_rw().unwrap();
    db.tx_free(tx2, b, 0).unwrap();
    db.commit(tx2).unwrap();

    let free_before: Vec<u64> = db.freelist.ids.clone();
    assert!(!free_before.is_empty());
    let image = db.close().unwrap();
    let db2 = DB::open(String::from("fl.db"), Some(image), None, opts).unwrap();
    // identical free set and zero pending entries
    assert_eq!(db2.freelist.ids, free_before);
    assert_eq!(db2.freelist.pending_count(), 0);
}

#[test]
fn test_begin_rw_timeout() {
    // a second writer cannot start while one is open: with a bounded
    // wait it fails with Timeout; once the first writer finishes, it
    // succeeds
    let mut opts = small_opts();
    opts.timeout_ms = 100;
    let mut db = DB::open(String::from("t.db"), None, None, opts).unwrap();
    let tx = db.begin_rw().unwrap();
    assert!(matches!(db.begin_rw(), Err(Error::Timeout)));
    db.rollback(tx).unwrap();
    let tx2 = db.begin_rw().unwrap();
    assert_eq!(tx2, 1);
    db.rollback(tx2).unwrap();
}

#[test]
fn test_rollback_discards() {
    let mut db = DB::open(String::from("rb.db"), None, None, small_opts()).unwrap();
    let tx = db.begin_rw().unwrap();
    let p = db.tx_allocate(tx, 1).unwrap();
    db.tx_write(tx, p, page_of(5, 4096)).unwrap();
    db.rollback(tx).unwrap();
    assert_eq!(db.meta.txid, 0);
    // the allocated page returned to the free set at once
    assert!(vec_contains(&db.freelist.ids, p));
    // and is handed out again by the next writer
    let tx2 = db.begin_rw().unwrap();
    let p2 = db.tx_allocate(tx2, 1).unwrap();
    assert_eq!(p2, p);
    db.rollback(tx2).unwrap();
}

#[test]
fn test_batch_single_commit() {
    // five plans arriving together commit exactly once
    let mut db = DB::open(String::from("batch.db"), None, None, small_opts()).unwrap();
    let mut plans: Vec<TxPlan> = Vec::new();
    let mut i = 0;
    while i < 5 {
        plans.push(TxPlan {
            allocs: vec![page_of(i as u8, 4096)],
            frees: Vec::new(),
            root: RootPlan::Fresh(0),
        });
        i += 1;
    }
    let results = batch(&mut db, &plans);
    assert_eq!(results.len(), 5);
    for r in &results {
        assert!(r.is_ok());
    }
    assert_eq!(db.meta.txid, 1);
}

#[test]
fn test_batch_failure_isolation() {
    // one deliberately failing plan: only its caller observes an error,
    // the other four plans' effects persist
    let mut db = DB::open(String::from("batch2.db"), None, None, small_opts()).unwrap();
    let mut plans: Vec<TxPlan> = Vec::new();
    let mut i = 0;
    while i < 5 {
        let frees = if i == 1 {
            // freeing a page that was never committed must fail
            vec![(999u64, 0u64)]
        } else {
            Vec::new()
        };
        plans.push(TxPlan {
            allocs: vec![page_of(i as u8, 4096)],
            frees,
            root: RootPlan::Fresh(0),
        });
        i += 1;
    }
    let results = batch(&mut db, &plans);
    assert_eq!(results.len(), 5);
    assert!(results[0].is_ok());
    assert!(results[1].is_err());
    assert!(results[2].is_ok());
    assert!(results[3].is_ok());
    assert!(results[4].is_ok());
    // four individual commits went through
    assert_eq!(db.meta.txid, 4);
}

#[test]
fn test_update_managed() {
    let mut db = DB::open(String::from("upd.db"), None, None, small_opts()).unwrap();
    let plan = TxPlan {
        allocs: vec![page_of(8, 4096)],
        frees: Vec::new(),
        root: RootPlan::Fresh(0),
    };
    let pages = update(&mut db, &plan).unwrap();
    assert_eq!(pages, vec![2]);
    assert_eq!(db.meta.txid, 1);
    assert_eq!(db.meta.root, 2);
    // a failing plan rolls back: nothing published
    let bad = TxPlan { allocs: Vec::new(), frees: vec![(999, 0)], root: RootPlan::Keep };
    assert!(update(&mut db, &bad).is_err());
    assert_eq!(db.meta.txid, 1);
}

#[test]
fn test_should_trigger() {
    let mut opts = Options::default();
    opts.max_batch_size = 10;
    opts.max_batch_delay_ms = 10;
    assert!(!should_trigger(5, 3, &opts));
    assert!(should_trigger(10, 3, &opts));
    assert!(should_trigger(5, 10, &opts));
}

#[test]
fn test_error_paths() {
    let mut db = DB::open(String::from("err.db"), None, None, small_opts()).unwrap();
    // operations against a transaction id that is not open
    assert!(matches!(db.commit(7), Err(Error::TxClosed)));
    assert!(matches!(db.rollback(7), Err(Error::TxClosed)));
    assert!(matches!(db.tx_allocate(7, 1), Err(Error::TxClosed)));
    // read through an unknown reader handle
    assert!(matches!(db.read_page(42, 0), Err(Error::TxClosed)));
    let tx = db.begin_rw().unwrap();
    // zero-page allocation is refused
    assert!(matches!(db.tx_allocate(tx, 0), Err(Error::Io)));
    // staging a page the transaction does not own is refused
    assert!(matches!(db.tx_write(tx, 2, page_of(0, 4096)), Err(Error::TxNotWritable)));
    // freeing a meta page is refused
    assert!(matches!(db.tx_free(tx, 0, 0), Err(Error::TxNotWritable)));
    db.rollback(tx).unwrap();
    // close while nothing is open works; afterwards the db is gone
    db.close().unwrap();
    assert!(matches!(db.begin(), Err(Error::DatabaseNotOpen)));
    assert!(matches!(db.sync(), Err(Error::DatabaseNotOpen)));
    assert!(matches!(db.close(), Err(Error::DatabaseNotOpen)));
}

#[test]
fn test_read_only_rejects_writers() {
    let mut db = DB::open(String::from("ro1.db"), None, None, small_opts()).unwrap();
    let tx = db.begin_rw().unwrap();
    let p = db.tx_allocate(tx, 1).unwrap();
    db.tx_write(tx, p, page_of(4, 4096)).unwrap();
    db.tx_set_root(tx, p).unwrap();
    db.commit(tx).unwrap();
    let image = db.close().unwrap();

    let mut opts = small_opts();
    opts.read_only = true;
    let mut db = DB::open(String::from("ro1.db"), Some(image), None, opts).unwrap();
    assert!(matches!(db.begin_rw(), Err(Error::TxNotWritable)));
    let rid = db.begin().unwrap();
    assert_eq!(db.read_page(rid, p).unwrap(), page_of(4, 4096));
    db.close_reader(rid).unwrap();
}

#[test]
fn test_close_blocks_on_open_tx() {
    let mut db = DB::open(String::from("cl.db"), None, None, small_opts()).unwrap();
    let rid = db.begin().unwrap();
    assert!(matches!(db.close(), Err(Error::Timeout)));
    db.close_reader(rid).unwrap();
    assert!(db.close().is_ok());
}

#[test]
fn test_sync_counts() {
    let mut db = DB::open(String::from("sync.db"), None, None, small_opts()).unwrap();
    db.sync().unwrap();
    db.sync().unwrap();
    db.close().unwrap();
}

#[test]
fn test_view_managed() {
    let mut db = DB::open(String::from("v.db"), None, None, small_opts()).unwrap();
    let tx = db.begin_rw().unwrap();
    let p = db.tx_allocate(tx, 1).unwrap();
    db.tx_write(tx, p, page_of(6, 4096)).unwrap();
    db.tx_set_root(tx, p).unwrap();
    db.commit(tx).unwrap();
    let pages = db.view(&vec![p]).unwrap();
    assert_eq!(pages, vec![page_of(6, 4096)]);
    // the reader was closed on the way out
    assert_eq!(db.stats().get_open_tx_n(), 0);
    // an out-of-range page id reports Io, and still closes the reader
    assert!(matches!(db.view(&vec![99]), Err(Error::Io)));
    assert_eq!(db.stats().get_open_tx_n(), 0);
}

#[test]
fn test_rebuild_freelist_at_open() {
    // with persistence off, the collaborator's reachable-page scan
    // rebuilds the free set at open: every unreachable page below the
    // watermark becomes free, matching what persistence would have kept
    let mut db = DB::open(String::from("rbld.db"), None, None, small_opts()).unwrap();
    let tx = db.begin_rw().unwrap();
    let a = db.tx_allocate(tx, 1).unwrap();
    let b = db.tx_allocate(tx, 1).unwrap();
    db.tx_write(tx, a, page_of(1, 4096)).unwrap();
    db.tx_write(tx, b, page_of(2, 4096)).unwrap();
    db.tx_set_root(tx, a).unwrap();
    db.commit(tx).unwrap();
    let tx2 = db.begin_rw().unwrap();
    db.tx_free(tx2, b, 0).unwrap();
    db.commit(tx2).unwrap();
    // page b is free now; only a is reachable from the root
    assert!(vec_contains(&db.freelist.ids, b));
    let image = db.close().unwrap();
    let db2 = DB::open(
        String::from("rbld.db"),
        Some(image),
        Some(vec![a]),
        small_opts(),
    )
    .unwrap();
    assert_eq!(db2.freelist.ids, vec![b]);
    assert_eq!(db2.stats().get_free_page_n(), 1);
}

#[test]
fn test_stats_gauges_follow_freelist() {
    // the stats snapshot tracks the freelist: pending while a reader
    // holds the old snapshot, free after the last reader closes
    let mut db = DB::open(String::from("g.db"), None, None, small_opts()).unwrap();
    let tx = db.begin_rw().unwrap();
    let a = db.tx_allocate(tx, 1).unwrap();
    db.tx_write(tx, a, page_of(1, 4096)).unwrap();
    db.tx_set_root(tx, a).unwrap();
    db.commit(tx).unwrap();
    let r = db.begin().unwrap();
    let tx2 = db.begin_rw().unwrap();
    db.tx_free(tx2, a, 0).unwrap();
    let b = db.tx_allocate(tx2, 1).unwrap();
    db.tx_write(tx2, b, page_of(2, 4096)).unwrap();
    db.tx_set_root(tx2, b).unwrap();
    db.commit(tx2).unwrap();
    assert_eq!(db.stats().get_pending_page_n(), 1);
    assert_eq!(db.stats().get_free_page_n(), 0);
    db.close_reader(r).unwrap();
    assert_eq!(db.stats().get_pending_page_n(), 0);
    assert_eq!(db.stats().get_free_page_n(), 1);
}
