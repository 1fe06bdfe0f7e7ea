//! The meta page (superblock) protocol.
//!
//! Two meta slots live at fixed positions (page 0 and page 1). Exactly one
//! is authoritative at any time: the checksum-valid slot with the larger
//! transaction id. A commit always writes the slot that is *not*
//! authoritative, so a crash mid-write can never corrupt the last
//! known-good state.
//!
//! A meta page is eight 64-bit little-endian words: magic, format version,
//! page size, root page id, freelist page id, highest allocated page id
//! (the growth watermark), transaction id, and a checksum over the seven
//! preceding words.
use vstd::prelude::*;
use crate::codec::{get_u64_at, le_val, lemma_frame_sub, put_u64_at};
use crate::errors::Error;

verus! {

/// Marker identifying a file of this store.
pub const MAGIC: u64 = 0xED0CDAED;

/// On-page format version this code writes and accepts.
pub const FORMAT_VERSION: u64 = 2;

/// Sentinel freelist page id meaning "freelist not persisted".
pub const NO_FREELIST: u64 = 0xFFFF_FFFF_FFFF_FFFF;

/// Sentinel root page id meaning "no root published yet".
pub const NO_ROOT: u64 = 0;

/// The decoded superblock fields (the checksum lives only in the bytes).
#[derive(Clone, Copy, Debug, PartialEq, Eq, Structural)]
pub struct Meta {
    /// File marker; `MAGIC` in every valid meta.
    pub magic: u64,
    /// Format version; `FORMAT_VERSION` in every valid meta.
    pub version: u64,
    /// Page size of the file, in bytes.
    pub page_size: u64,
    /// Root page id of the tree, or `NO_ROOT`.
    pub root: u64,
    /// Page id of the persisted freelist, or `NO_FREELIST`.
    pub freelist: u64,
    /// One past the highest page id the file has allocated.
    pub watermark: u64,
    /// Id of the transaction that committed this meta.
    pub txid: u64,
}

/// The FNV-1a offset basis.
pub const FNV_BASIS: u64 = 0xcbf2_9ce4_8422_2325;

/// The FNV-1a prime.
pub const FNV_PRIME: u64 = 0x100_0000_01b3;

/// One FNV-1a step: fold a byte into the running hash.
pub open spec fn fnv_step(h: u64, b: u8) -> u64 {
    vstd::wrapping::u64_specs::wrapping_mul(h ^ (b as u64), FNV_PRIME)
}

/// The FNV-1a 64-bit hash of a byte string.
pub open spec fn fnv1a(s: Seq<u8>) -> u64
    decreases s.len(),
{
    if s.len() == 0 {
        FNV_BASIS
    } else {
        fnv_step(fnv1a(s.drop_last()), s.last())
    }
}

/// The FNV-1a 64-bit hash of the first `len` bytes of `buf`.
pub fn fnv64(buf: &Vec<u8>, len: usize) -> (h: u64)
    requires
        len <= buf.len(),
    ensures
        h == fnv1a(buf@.subrange(0, len as int)),
{
    let mut h: u64 = FNV_BASIS;
    let mut i: usize = 0;
    proof {
        assert(buf@.subrange(0, 0) =~= Seq::<u8>::empty());
    }
    while i < len
        invariant
            i <= len,
            len <= buf.len(),
            h == fnv1a(buf@.subrange(0, i as int)),
        decreases len - i,
    {
        let b = buf[i];
        proof {
            let cur = buf@.subrange(0, i + 1);
            assert(cur.drop_last() =~= buf@.subrange(0, i as int));
            assert(cur.last() == b);
        }
        h = (h ^ (b as u64)).wrapping_mul(FNV_PRIME);
        i = i + 1;
    }
    h
}

/// The `k`-th 64-bit word of a meta page.
pub open spec fn meta_word(s: Seq<u8>, k: int) -> nat {
    le_val(s.subrange(8 * k, 8 * k + 8))
}

/// A meta word is an eight-byte value and so fits in 64 bits.
pub proof fn lemma_meta_word_fits(s: Seq<u8>, k: int)
    requires
        0 <= k,
        s.len() >= 8 * k + 8,
    ensures
        meta_word(s, k) < 0x1_0000_0000_0000_0000,
{
    crate::codec::lemma_le_val_bound(s.subrange(8 * k, 8 * k + 8));
    crate::codec::lemma_pow256_8();
}

/// The meta fields a page's bytes carry.
pub open spec fn meta_of_bytes(s: Seq<u8>) -> Meta {
    Meta {
        magic: meta_word(s, 0) as u64,
        version: meta_word(s, 1) as u64,
        page_size: meta_word(s, 2) as u64,
        root: meta_word(s, 3) as u64,
        freelist: meta_word(s, 4) as u64,
        watermark: meta_word(s, 5) as u64,
        txid: meta_word(s, 6) as u64,
    }
}

/// Whether a page holds a valid meta: long enough, right magic and
/// version, and a checksum over the seven field words that matches.
pub open spec fn meta_valid_bytes(s: Seq<u8>) -> bool {
    &&& s.len() >= 64
    &&& meta_word(s, 0) == MAGIC
    &&& meta_word(s, 1) == FORMAT_VERSION
    &&& meta_word(s, 7) == fnv1a(s.subrange(0, 56))
}

/// Writes `m` as a fresh meta page of `page_size` bytes, with its checksum
/// computed over the seven field words.
pub fn write_meta(m: &Meta, page_size: usize) -> (page: Vec<u8>)
    requires
        page_size >= 64,
    ensures
        page.len() == page_size,
        meta_of_bytes(page@) == *m,
        meta_word(page@, 7) == fnv1a(page@.subrange(0, 56)),
        m.magic == MAGIC && m.version == FORMAT_VERSION ==> meta_valid_bytes(page@),
{
    let mut page: Vec<u8> = vec![0u8; page_size];
    put_u64_at(&mut page, 0, m.magic);
    let ghost s0 = page@;
    put_u64_at(&mut page, 8, m.version);
    let ghost s1 = page@;
    put_u64_at(&mut page, 16, m.page_size);
    let ghost s2 = page@;
    put_u64_at(&mut page, 24, m.root);
    let ghost s3 = page@;
    put_u64_at(&mut page, 32, m.freelist);
    let ghost s4 = page@;
    put_u64_at(&mut page, 40, m.watermark);
    let ghost s5 = page@;
    put_u64_at(&mut page, 48, m.txid);
    let ghost s6 = page@;
    let sum = fnv64(&page, 56);
    put_u64_at(&mut page, 56, sum);
    let ghost s7 = page@;
    proof {
        lemma_frame_sub(s6, s7, 0, 56);
        lemma_frame_sub(s0, s7, 0, 8);
        lemma_frame_sub(s1, s7, 8, 16);
        lemma_frame_sub(s2, s7, 16, 24);
        lemma_frame_sub(s3, s7, 24, 32);
        lemma_frame_sub(s4, s7, 32, 40);
        lemma_frame_sub(s5, s7, 40, 48);
        lemma_frame_sub(s6, s7, 48, 56);
    }
    page
}

/// Decodes the seven meta fields from a page.
pub fn read_meta(page: &Vec<u8>) -> (m: Meta)
    requires
        page.len() >= 64,
    ensures
        m == meta_of_bytes(page@),
{
    Meta {
        magic: get_u64_at(page, 0),
        version: get_u64_at(page, 8),
        page_size: get_u64_at(page, 16),
        root: get_u64_at(page, 24),
        freelist: get_u64_at(page, 32),
        watermark: get_u64_at(page, 40),
        txid: get_u64_at(page, 48),
    }
}

/// Checks magic, version and checksum of a candidate meta page; on success
/// returns the decoded fields, otherwise reports corruption.
pub fn validate(page: &Vec<u8>) -> (r: Result<Meta, Error>)
    ensures
        meta_valid_bytes(page@) ==> r == Ok::<Meta, Error>(meta_of_bytes(page@)),
        !meta_valid_bytes(page@) ==> r == Err::<Meta, Error>(Error::Corrupt),
{
    if page.len() < 64 {
        return Err(Error::Corrupt);
    }
    let m = read_meta(page);
    if m.magic != MAGIC {
        return Err(Error::Corrupt);
    }
    if m.version != FORMAT_VERSION {
        return Err(Error::Corrupt);
    }
    let sum = fnv64(page, 56);
    let stored = get_u64_at(page, 56);
    if stored != sum {
        return Err(Error::Corrupt);
    }
    proof {
        lemma_meta_word_fits(page@, 0);
        lemma_meta_word_fits(page@, 1);
        lemma_meta_word_fits(page@, 7);
    }
    Ok(m)
}

/// The authoritative meta among two candidate slots: the valid one with
/// the larger transaction id, or nothing when both slots are invalid.
pub open spec fn select_spec(p0: Seq<u8>, p1: Seq<u8>) -> Option<(Meta, usize)> {
    if meta_valid_bytes(p0) && meta_valid_bytes(p1) {
        if meta_of_bytes(p1).txid > meta_of_bytes(p0).txid {
            Some((meta_of_bytes(p1), 1usize))
        } else {
            Some((meta_of_bytes(p0), 0usize))
        }
    } else if meta_valid_bytes(p0) {
        Some((meta_of_bytes(p0), 0usize))
    } else if meta_valid_bytes(p1) {
        Some((meta_of_bytes(p1), 1usize))
    } else {
        None
    }
}

/// Picks the authoritative meta among the two slots, or reports the
/// database unreadable when both are invalid.
pub fn select(p0: &Vec<u8>, p1: &Vec<u8>) -> (r: Result<(Meta, usize), Error>)
    ensures
        r == match select_spec(p0@, p1@) {
            Some(ms) => Ok::<(Meta, usize), Error>(ms),
            None => Err::<(Meta, usize), Error>(Error::Corrupt),
        },
{
    let v0 = validate(p0);
    let v1 = validate(p1);
    match (v0, v1) {
        (Ok(m0), Ok(m1)) => {
            if m1.txid > m0.txid {
                Ok((m1, 1))
            } else {
                Ok((m0, 0))
            }
        },
        (Ok(m0), Err(_)) => Ok((m0, 0)),
        (Err(_), Ok(m1)) => Ok((m1, 1)),
        (Err(_), Err(_)) => Err(Error::Corrupt),
    }
}

/// At reopen, the selected authoritative meta carries the highest
/// transaction id among the slots that pass validation, and is itself one
/// of them.
pub proof fn lemma_select_highest_txid(p0: Seq<u8>, p1: Seq<u8>, m: Meta, slot: usize)
    requires
        select_spec(p0, p1) == Some((m, slot)),
    ensures
        slot == 0 || slot == 1,
        slot == 0 ==> meta_valid_bytes(p0) && m == meta_of_bytes(p0),
        slot == 1 ==> meta_valid_bytes(p1) && m == meta_of_bytes(p1),
        meta_valid_bytes(p0) ==> m.txid >= meta_of_bytes(p0).txid,
        meta_valid_bytes(p1) ==> m.txid >= meta_of_bytes(p1).txid,
{
}

/// If a crash corrupts the slot written last, the other, previously
/// committed slot is still selected: everything committed before it is
/// intact.
pub proof fn lemma_select_survives_torn_slot(good: Seq<u8>, torn: Seq<u8>)
    requires
        meta_valid_bytes(good),
        !meta_valid_bytes(torn),
    ensures
        select_spec(good, torn) == Some((meta_of_bytes(good), 0usize)),
        select_spec(torn, good) == Some((meta_of_bytes(good), 1usize)),
{
}

} // verus!
