use boltdb::codec::{get_u64_at, put_u64_at};
use boltdb::errors::Error;
use boltdb::freelist::{vec_contains, Freelist};
use boltdb::meta::{fnv64, select, validate, write_meta, Meta, FORMAT_VERSION, MAGIC};
use boltdb::options::{FreelistType, Options};
use boltdb::stats::{Stats, TxStats};
use boltdb::store::growth_target;

#[test]
fn test_codec_roundtrip() {
    let mut buf = vec![0u8; 24];
    put_u64_at(&mut buf, 4, 0xDEAD_BEEF_1234_5678);
    assert_eq!(get_u64_at(&buf, 4), 0xDEAD_BEEF_1234_5678);
    put_u64_at(&mut buf, 16, u64::MAX);
    assert_eq!(get_u64_at(&buf, 16), u64::MAX);
    // the first write is untouched by the second
    assert_eq!(get_u64_at(&buf, 4), 0xDEAD_BEEF_1234_5678);
    put_u64_at(&mut buf, 4, 0);
    assert_eq!(get_u64_at(&buf, 4), 0);
}

#[test]
fn test_meta_encode_validate() {
    let m = Meta {
        magic: MAGIC,
        version: FORMAT_VERSION,
        page_size: 4096,
        root: 7,
        freelist: 9,
        watermark: 12,
        txid: 5,
    };
    let page = write_meta(&m, 4096);
    assert_eq!(page.len(), 4096);
    assert_eq!(validate(&page), Ok(m));
    // a torn byte breaks the checksum
    let mut bad = page.clone();
    bad[24] ^= 1;
    assert_eq!(validate(&bad), Err(Error::Corrupt));
}

#[test]
fn test_meta_select_highest() {
    let older = Meta {
        magic: MAGIC,
        version: FORMAT_VERSION,
        page_size: 4096,
        root: 3,
        freelist: 4,
        watermark: 6,
        txid: 6,
    };
    let newer = Meta { txid: 7, root: 5, ..older };
    let p0 = write_meta(&older, 4096);
    let p1 = write_meta(&newer, 4096);
    assert_eq!(select(&p0, &p1), Ok((newer, 1)));
    assert_eq!(select(&p1, &p0), Ok((newer, 0)));
    // with the newer slot torn, the older survives
    let mut torn = p1.clone();
    torn[0] ^= 0xff;
    assert_eq!(select(&p0, &torn), Ok((older, 0)));
    assert_eq!(select(&torn, &torn), Err(Error::Corrupt));
}

#[test]
fn test_fnv_is_a_function_of_bytes() {
    let a = vec![1u8, 2, 3, 4];
    let b = vec![1u8, 2, 3, 4];
    let c = vec![1u8, 2, 3, 5];
    assert_eq!(fnv64(&a, 4), fnv64(&b, 4));
    assert_ne!(fnv64(&a, 4), fnv64(&c, 4));
}

#[test]
fn test_freelist_allocate_first_fit_smallest() {
    let mut fl = Freelist::new();
    fl.ids = vec![3, 4, 7, 8, 9];
    // the smallest run of two starts at 3
    assert_eq!(fl.allocate(2), Some(3));
    assert_eq!(fl.ids, vec![7, 8, 9]);
    // no run of four exists
    assert_eq!(fl.allocate(4), None);
    assert_eq!(fl.allocate(3), Some(7));
    assert!(fl.ids.is_empty());
    assert_eq!(fl.allocate(1), None);
}

#[test]
fn test_freelist_pending_release() {
    let mut fl = Freelist::new();
    fl.free(3, 10, 1);
    fl.free(5, 20, 0);
    assert_eq!(fl.pending_pages_of(3), vec![10, 11]);
    assert_eq!(fl.pending_pages_of(5), vec![20]);
    assert_eq!(fl.free_count(), 0);
    // releasing up to 3 moves only the first entry
    fl.release(3);
    assert!(fl.pending_pages_of(3).is_empty());
    assert_eq!(fl.pending_pages_of(5), vec![20]);
    assert_eq!(fl.ids, vec![10, 11]);
    fl.release(5);
    assert_eq!(fl.ids, vec![10, 11, 20]);
    assert_eq!(fl.pending_count(), 0);
}

#[test]
fn test_freelist_rollback_entry() {
    let mut fl = Freelist::new();
    fl.free(4, 30, 2);
    assert_eq!(fl.pending_pages_of(4), vec![30, 31, 32]);
    fl.rollback(4);
    assert!(fl.pending_pages_of(4).is_empty());
    assert_eq!(fl.free_count(), 0);
}

#[test]
fn test_freelist_persist_load_roundtrip() {
    let mut fl = Freelist::new();
    fl.ids = vec![5, 9, 11];
    // pending resolved before persisting, as at commit time with no
    // readers
    let bytes = fl.persist();
    let fl2 = Freelist::load(&bytes).unwrap();
    assert_eq!(fl2.ids, vec![5, 9, 11]);
    assert_eq!(fl2.pending_count(), 0);
    // pending pages are merged into the persisted image
    fl.free(2, 7, 0);
    let bytes2 = fl.persist();
    let fl3 = Freelist::load(&bytes2).unwrap();
    assert_eq!(fl3.ids, vec![5, 7, 9, 11]);
    assert_eq!(fl3.pending_count(), 0);
}

#[test]
fn test_freelist_load_rejects_garbage() {
    assert!(matches!(Freelist::load(&vec![1u8, 2, 3]), Err(Error::Corrupt))); // too short
    let mut fl = Freelist::new();
    fl.ids = vec![5, 9];
    let mut bytes = fl.persist();
    bytes[0] = 200; // count word larger than the image
    assert!(matches!(Freelist::load(&bytes), Err(Error::Corrupt)));
    let mut fl2 = Freelist::new();
    fl2.ids = vec![9, 5]; // not sorted: never produced by persist
    let unsorted = {
        let mut v = vec![0u8; 24];
        put_u64_at(&mut v, 0, 2);
        put_u64_at(&mut v, 8, 9);
        put_u64_at(&mut v, 16, 5);
        v
    };
    assert!(matches!(Freelist::load(&unsorted), Err(Error::Corrupt)));
}

#[test]
fn test_stats_sub_semantics() {
    let mut a = Stats::new();
    a.set_tx_n(10);
    a.set_free_page_n(4);
    a.set_open_tx_n(2);
    let mut ts = TxStats::default();
    ts.page_count = 6;
    a.set_tx_stats(ts);

    // against a missing baseline: a copy
    let copy = a.sub(None);
    assert_eq!(copy, a);

    let mut b = Stats::new();
    b.set_tx_n(4);
    let mut ts2 = TxStats::default();
    ts2.page_count = 2;
    b.set_tx_stats(ts2);

    let d = a.sub(Some(&b));
    // the rate counters are diffed
    assert_eq!(d.get_tx_n(), 6);
    assert_eq!(d.get_tx_stats().page_count, 4);
    // the point-in-time gauges are kept
    assert_eq!(d.get_free_page_n(), 4);
    assert_eq!(d.get_open_tx_n(), 2);
}

#[test]
fn test_stats_getters_setters() {
    let mut s = Stats::new();
    s.set_pending_page_n(3);
    s.set_free_alloc(1024);
    s.set_freelist_inuse(64);
    assert_eq!(s.get_pending_page_n(), 3);
    assert_eq!(s.get_free_alloc(), 1024);
    assert_eq!(s.get_freelist_inuse(), 64);
    assert_eq!(s.get_tx_n(), 0);
    assert_eq!(s.get_free_page_n(), 0);
    assert_eq!(s.get_open_tx_n(), 0);
    assert_eq!(*s.get_tx_stats(), TxStats::default());
}

#[test]
fn test_txstats_add_sub() {
    let mut a = TxStats::default();
    a.page_count = 5;
    a.write = 2;
    let mut b = TxStats::default();
    b.page_count = 3;
    b.write = 7;
    let s = a.add(&b);
    assert_eq!(s.page_count, 8);
    assert_eq!(s.write, 9);
    let d = s.sub(&b);
    assert_eq!(d, a);
}

#[test]
fn test_options_default() {
    let o = Options::default();
    assert_eq!(o.timeout_ms, 0);
    assert!(!o.no_grow_sync);
    assert!(!o.no_freelist_sync);
    assert!(!o.pre_load_freelist);
    assert_eq!(o.freelist_type, FreelistType::Array);
    assert!(!o.read_only);
    assert_eq!(o.mmap_flags, 0);
    assert_eq!(o.initial_mmap_size, 0);
    assert_eq!(o.page_size, 0);
    assert!(!o.no_sync);
    assert!(!o.mlock);
}

#[test]
fn test_freelist_type_names() {
    assert_eq!(FreelistType::Array.as_str(), "array");
    assert_eq!(FreelistType::HashMap.as_str(), "hashmap");
}

#[test]
fn test_error_names() {
    assert_eq!(Error::Corrupt.as_str(), "corrupt");
    assert_eq!(Error::Timeout.as_str(), "timeout");
    assert_eq!(Error::TxNotWritable.as_str(), "tx not writable");
    assert_eq!(Error::TxClosed.as_str(), "tx closed");
    assert_eq!(Error::DatabaseNotOpen.as_str(), "database not open");
    assert_eq!(Error::DatabaseAlreadyOpen.as_str(), "database already open");
    assert_eq!(Error::Io.as_str(), "io");
}

#[test]
fn test_growth_target_policy() {
    // under the ceiling: doubling, at most twice the need
    assert_eq!(growth_target(0, 3, 1024), 4);
    assert_eq!(growth_target(2, 3, 1024), 4);
    assert_eq!(growth_target(8, 100, 1024), 128);
    // already large enough
    assert_eq!(growth_target(50, 10, 1024), 10);
    // beyond the ceiling: linear, exactly the need
    assert_eq!(growth_target(8, 2000, 1024), 2000);
}

#[test]
fn test_vec_contains() {
    let v = vec![2u64, 5, 8];
    assert!(vec_contains(&v, 5));
    assert!(!vec_contains(&v, 6));
    assert!(!vec_contains(&Vec::new(), 0));
}
