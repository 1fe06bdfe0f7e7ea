//! Little-endian encoding of 64-bit words inside page bytes.
//!
//! Every on-page structure (meta slots, persisted freelist) is a sequence
//! of 64-bit words; this module gives the byte-level encoding one exact
//! specification, `le_val`, and verified read/write routines against it.
use vstd::prelude::*;

verus! {

/// The value of a little-endian byte string: the first byte is the least
/// significant.
pub open spec fn le_val(s: Seq<u8>) -> nat
    decreases s.len(),
{
    if s.len() == 0 {
        0
    } else {
        (s[0] + 256 * le_val(s.drop_first())) as nat
    }
}

/// 256 to the power `n`.
pub open spec fn pow256(n: nat) -> nat
    decreases n,
{
    if n == 0 {
        1
    } else {
        256 * pow256((n - 1) as nat)
    }
}

/// Appending a byte adds its value at the next power of 256.
pub proof fn lemma_le_val_snoc(s: Seq<u8>, b: u8)
    ensures
        le_val(s.push(b)) == le_val(s) + pow256(s.len()) * b,
    decreases s.len(),
{
    if s.len() == 0 {
        assert(s.push(b).drop_first() =~= Seq::<u8>::empty());
        assert(le_val(s.push(b)) == s.push(b)[0] + 256 * le_val(s.push(b).drop_first()));
        assert(s.push(b)[0] == b);
        assert(pow256(0) == 1);
    } else {
        assert(s.push(b).drop_first() =~= s.drop_first().push(b));
        lemma_le_val_snoc(s.drop_first(), b);
        let p = pow256((s.len() - 1) as nat);
        assert(le_val(s.push(b)) == s.push(b)[0] + 256 * le_val(s.drop_first().push(b)));
        assert(s.push(b)[0] == s[0]);
        assert(le_val(s.drop_first().push(b)) == le_val(s.drop_first()) + p * b);
        assert(256 * (le_val(s.drop_first()) + p * b) == 256 * le_val(s.drop_first()) + (256 * p)
            * b) by (nonlinear_arith);
        assert(pow256(s.len()) == 256 * p);
        assert(le_val(s) == s[0] + 256 * le_val(s.drop_first()));
    }
}

/// A little-endian byte string is bounded by 256 to its length.
pub proof fn lemma_le_val_bound(s: Seq<u8>)
    ensures
        le_val(s) < pow256(s.len()),
    decreases s.len(),
{
    if s.len() > 0 {
        lemma_le_val_bound(s.drop_first());
    }
}

/// 256 to the 8th is one past `u64::MAX`.
pub proof fn lemma_pow256_8()
    ensures
        pow256(8) == 0x1_0000_0000_0000_0000,
{
    reveal_with_fuel(pow256, 9);
}

/// An all-zero byte string has value zero.
pub proof fn lemma_le_val_zero(s: Seq<u8>)
    requires
        forall|i: int| 0 <= i < s.len() ==> s[i] == 0,
    ensures
        le_val(s) == 0,
    decreases s.len(),
{
    if s.len() > 0 {
        lemma_le_val_zero(s.drop_first());
    }
}

/// Bytes unchanged on a range leave that range's subrange unchanged.
pub proof fn lemma_frame_sub(pre: Seq<u8>, post: Seq<u8>, lo: int, hi: int)
    requires
        pre.len() == post.len(),
        0 <= lo <= hi <= pre.len(),
        forall|i: int| lo <= i < hi ==> post[i] == pre[i],
    ensures
        post.subrange(lo, hi) == pre.subrange(lo, hi),
{
    assert(post.subrange(lo, hi) =~= pre.subrange(lo, hi));
}

/// Writes `x` as eight little-endian bytes at `at`, leaving every other
/// byte of `buf` unchanged.
pub fn put_u64_at(buf: &mut Vec<u8>, at: usize, x: u64)
    requires
        at + 8 <= old(buf).len(),
    ensures
        final(buf).len() == old(buf).len(),
        le_val(final(buf)@.subrange(at as int, at + 8)) == x,
        forall|i: int| 0 <= i < old(buf).len() && !(at <= i < at + 8) ==> final(buf)@[i] == old(
            buf,
        )@[i],
{
    let mut cur: u64 = x;
    let mut i: usize = 0;
    proof {
        lemma_pow256_8();
        assert(buf@.subrange(at as int, at as int) =~= Seq::<u8>::empty());
        assert(pow256(0) * cur == cur) by (nonlinear_arith)
            requires
                pow256(0) == 1,
        ;
    }
    while i < 8
        invariant
            i <= 8,
            at + 8 <= buf.len(),
            buf.len() == old(buf).len(),
            le_val(buf@.subrange(at as int, at + i)) + pow256(i as nat) * cur == x,
            cur < pow256((8 - i) as nat),
            forall|j: int|
                0 <= j < buf.len() && !(at <= j < at + i) ==> buf@[j] == old(buf)@[j],
        decreases 8 - i,
    {
        let b: u8 = (cur % 256) as u8;
        let ghost prev = buf@;
        buf.set(at + i, b);
        proof {
            assert(buf@.subrange(at as int, at + i + 1) =~= prev.subrange(at as int, at + i).push(
                b,
            ));
            lemma_le_val_snoc(prev.subrange(at as int, at + i), b);
            assert(cur == 256 * (cur / 256) + (cur % 256)) by (nonlinear_arith);
            assert(pow256((i + 1) as nat) == 256 * pow256(i as nat));
            assert(pow256(i as nat) * cur == pow256(i as nat) * b + pow256((i + 1) as nat) * (cur
                / 256)) by (nonlinear_arith)
                requires
                    cur == 256 * (cur / 256) + b,
                    pow256((i + 1) as nat) == 256 * pow256(i as nat),
            ;
            assert(cur / 256 < pow256((8 - (i + 1)) as nat)) by (nonlinear_arith)
                requires
                    cur < pow256((8 - i) as nat),
                    pow256((8 - i) as nat) == 256 * pow256((8 - (i + 1)) as nat),
            ;
        }
        cur = cur / 256;
        i = i + 1;
    }
    proof {
        assert(pow256(8) * cur == 0 ==> le_val(buf@.subrange(at as int, at + 8)) == x);
        assert(cur == 0);
    }
}

/// Reads the eight little-endian bytes at `at` as a 64-bit value.
pub fn get_u64_at(buf: &Vec<u8>, at: usize) -> (x: u64)
    requires
        at + 8 <= buf.len(),
    ensures
        x == le_val(buf@.subrange(at as int, at + 8)),
{
    let mut acc: u64 = 0;
    let mut i: usize = 8;
    proof {
        lemma_pow256_8();
        assert(buf@.subrange(at + 8, at + 8) =~= Seq::<u8>::empty());
    }
    while i > 0
        invariant
            i <= 8,
            at + 8 <= buf.len(),
            acc == le_val(buf@.subrange(at + i, at + 8)),
            pow256(8) == 0x1_0000_0000_0000_0000,
        decreases i,
    {
        let b: u8 = buf[at + i - 1];
        proof {
            let tail = buf@.subrange(at + i, at + 8);
            let whole = buf@.subrange(at + i - 1, at + 8);
            assert(whole.drop_first() =~= tail);
            lemma_le_val_bound(whole);
            lemma_pow256_mono((9 - i) as nat, 8);
            assert(acc * 256 + b < 0x1_0000_0000_0000_0000) by (nonlinear_arith)
                requires
                    b + 256 * acc < pow256((9 - i) as nat),
                    pow256((9 - i) as nat) <= 0x1_0000_0000_0000_0000,
            ;
        }
        acc = acc * 256 + (b as u64);
        i = i - 1;
    }
    acc
}

/// `pow256` is monotone in its exponent.
pub proof fn lemma_pow256_mono(a: nat, b: nat)
    requires
        a <= b,
    ensures
        pow256(a) <= pow256(b),
    decreases b,
{
    if a < b {
        lemma_pow256_mono(a, (b - 1) as nat);
        assert(pow256(b) == 256 * pow256((b - 1) as nat));
        assert(pow256((b - 1) as nat) <= 256 * pow256((b - 1) as nat)) by (nonlinear_arith)
            requires
                pow256((b - 1) as nat) >= 0,
        ;
    }
}

} // verus!
