//! The record format of the incremental full-file-hash cache, and the rule
//! deciding when a stored hash may be reused: exactly when the file's size
//! and modification time are unchanged.

use vstd::prelude::*;

verus! {

/// Bytes of one stored record: size, mtime seconds, mtime nanoseconds, hash.
pub const ENTRY_LEN: usize = 36;

/// One cached `(size, mtime, full hash)` record for a single path.
#[derive(Debug, Clone, Copy, PartialEq, Eq, Structural)]
pub struct CacheEntry {
    pub size: u64,
    pub mtime_secs: u64,
    pub mtime_nanos: u32,
    pub hash: u128,
}

/// `256^n`.
pub open spec fn pow256(n: nat) -> nat
    decreases n,
{
    if n == 0 {
        1
    } else {
        256 * pow256((n - 1) as nat)
    }
}

/// The `n` little-endian bytes of `x`.
pub open spec fn le_bytes(x: nat, n: nat) -> Seq<u8>
    decreases n,
{
    if n == 0 {
        Seq::empty()
    } else {
        seq![(x % 256) as u8] + le_bytes(x / 256, (n - 1) as nat)
    }
}

/// The number whose little-endian bytes are `b`.
pub open spec fn le_value(b: Seq<u8>) -> nat
    decreases b.len(),
{
    if b.len() == 0 {
        0
    } else {
        b[0] as nat + 256 * le_value(b.drop_first())
    }
}

proof fn lemma_le_round_trip(x: nat, n: nat)
    requires
        x < pow256(n),
    ensures
        le_bytes(x, n).len() == n,
        le_value(le_bytes(x, n)) == x,
    decreases n,
{
    if n > 0 {
        lemma_le_round_trip(x / 256, (n - 1) as nat);
        assert(le_bytes(x, n).drop_first() =~= le_bytes(x / 256, (n - 1) as nat));
    }
}

pub proof fn lemma_le_value_bound(b: Seq<u8>)
    ensures
        le_value(b) < pow256(b.len()),
    decreases b.len(),
{
    if b.len() > 0 {
        lemma_le_value_bound(b.drop_first());
    }
}

pub proof fn lemma_pow256_values()
    ensures
        pow256(4) == 0x1_0000_0000,
        pow256(8) == 0x1_0000_0000_0000_0000,
        pow256(16) == 0x1_0000_0000_0000_0000_0000_0000_0000_0000,
{
    reveal_with_fuel(pow256, 17);
}

/// The stored bytes of `e`.
pub open spec fn entry_bytes(e: CacheEntry) -> Seq<u8> {
    le_bytes(e.size as nat, 8) + le_bytes(e.mtime_secs as nat, 8) + le_bytes(e.mtime_nanos as nat, 4) + le_bytes(
        e.hash as nat,
        16,
    )
}

/// The record stored as `b`.
pub open spec fn entry_of_bytes(b: Seq<u8>) -> CacheEntry {
    CacheEntry {
        size: le_value(b.subrange(0, 8)) as u64,
        mtime_secs: le_value(b.subrange(8, 16)) as u64,
        mtime_nanos: le_value(b.subrange(16, 20)) as u32,
        hash: le_value(b.subrange(20, 36)) as u128,
    }
}

/// Writes the `n` little-endian bytes of `x` into `buf` from `at` on.
fn put_le(buf: &mut [u8; 36], at: usize, x: u128, n: usize)
    requires
        at + n <= 36,
        n <= 16,
    ensures
        final(buf)@.len() == 36,
        final(buf)@.subrange(at as int, at + n) == le_bytes(x as nat, n as nat),
        forall|k: int| 0 <= k < 36 && !(at <= k < at + n) ==> final(buf)@[k] == old(buf)@[k],
{
    let mut v = x;
    let mut k: usize = 0;
    assert(pow256(0) == 1);
    assert(buf@.subrange(at as int, at as int) =~= Seq::<u8>::empty());
    while k < n
        invariant
            at + n <= 36,
            k <= n,
            buf@.len() == 36,
            v as nat == (x as nat) / pow256(k as nat),
            buf@.subrange(at as int, at + k) + le_bytes(v as nat, (n - k) as nat) == le_bytes(x as nat, n as nat),
            forall|q: int| 0 <= q < 36 && !(at <= q < at + k) ==> buf@[q] == old(buf)@[q],
        decreases n - k,
    {
        let ghost before = buf@;
        buf[at + k] = (v % 256) as u8;
        proof {
            assert(buf@.subrange(at as int, at + k + 1) =~= before.subrange(at as int, at + k).push((v % 256) as u8));
            assert(le_bytes(v as nat, (n - k) as nat) =~= seq![(v % 256) as u8] + le_bytes(
                (v / 256) as nat,
                (n - k - 1) as nat,
            ));
            assert(pow256((k + 1) as nat) == 256 * pow256(k as nat));
            lemma_pow256_pos(k as nat);
            vstd::arithmetic::div_mod::lemma_div_denominator(x as int, pow256(k as nat) as int, 256);
            assert((x as nat) / pow256((k + 1) as nat) == ((x as nat) / pow256(k as nat)) / 256) by {
                vstd::arithmetic::mul::lemma_mul_is_commutative(pow256(k as nat) as int, 256);
            }
        }
        v = v / 256;
        k = k + 1;
    }
}

/// Reads the little-endian number stored in `buf[at..at + n]`.
fn get_le(buf: &[u8; 36], at: usize, n: usize) -> (r: u128)
    requires
        at + n <= 36,
        n <= 16,
    ensures
        r as nat == le_value(buf@.subrange(at as int, at + n)),
{
    proof {
        lemma_pow256_values();
        lemma_le_value_bound(buf@.subrange(at as int, at + n));
        lemma_pow256_monotone(n as nat, 16);
    }
    let mut v: u128 = 0;
    let mut k: usize = n;
    while k > 0
        invariant
            at + n <= 36,
            n <= 16,
            k <= n,
            v as nat == le_value(buf@.subrange(at + k, at + n)),
            (v as nat) < pow256((n - k) as nat),
            pow256(16) == 0x1_0000_0000_0000_0000_0000_0000_0000_0000,
            pow256(n as nat) <= pow256(16),
        decreases k,
    {
        proof {
            assert(buf@.subrange(at + k - 1, at + n).drop_first() =~= buf@.subrange(at + k, at + n));
            lemma_pow256_monotone((n - k + 1) as nat, n as nat);
            assert(pow256((n - k + 1) as nat) == 256 * pow256((n - k) as nat));
        }
        v = (buf[at + k - 1] as u128) + 256 * v;
        k = k - 1;
    }
    v
}

pub proof fn lemma_pow256_pos(n: nat)
    ensures
        pow256(n) > 0,
    decreases n,
{
    if n > 0 {
        lemma_pow256_pos((n - 1) as nat);
    }
}

pub proof fn lemma_pow256_monotone(a: nat, b: nat)
    requires
        a <= b,
    ensures
        pow256(a) <= pow256(b),
    decreases b,
{
    if a < b {
        lemma_pow256_monotone(a, (b - 1) as nat);
    }
}

impl CacheEntry {
    /// The record's stored bytes: each field little-endian, in declaration order.
    pub fn encode(self) -> (r: [u8; 36])
        ensures
            r@ == entry_bytes(self),
    {
        let mut buf = [0u8; 36];
        put_le(&mut buf, 0, self.size as u128, 8);
        let ghost b0 = buf@;
        put_le(&mut buf, 8, self.mtime_secs as u128, 8);
        let ghost b1 = buf@;
        put_le(&mut buf, 16, self.mtime_nanos as u128, 4);
        let ghost b2 = buf@;
        put_le(&mut buf, 20, self.hash, 16);
        proof {
            assert(buf@.subrange(0, 8) =~= b0.subrange(0, 8));
            assert(buf@.subrange(8, 16) =~= b1.subrange(8, 16));
            assert(buf@.subrange(16, 20) =~= b2.subrange(16, 20));
            assert(buf@ =~= buf@.subrange(0, 8) + buf@.subrange(8, 16) + buf@.subrange(16, 20) + buf@.subrange(20, 36));
        }
        buf
    }

    /// The record stored as `buf`.
    pub fn decode(buf: [u8; 36]) -> (r: CacheEntry)
        ensures
            r == entry_of_bytes(buf@),
    {
        proof {
            lemma_pow256_values();
            lemma_le_value_bound(buf@.subrange(0, 8));
            lemma_le_value_bound(buf@.subrange(8, 16));
            lemma_le_value_bound(buf@.subrange(16, 20));
        }
        CacheEntry {
            size: get_le(&buf, 0, 8) as u64,
            mtime_secs: get_le(&buf, 8, 8) as u64,
            mtime_nanos: get_le(&buf, 16, 4) as u32,
            hash: get_le(&buf, 20, 16),
        }
    }
}

/// Round trip: decoding the stored bytes of a record gives the record back.
pub proof fn lemma_cache_entry_round_trip(e: CacheEntry)
    ensures
        entry_bytes(e).len() == ENTRY_LEN,
        entry_of_bytes(entry_bytes(e)) == e,
{
    lemma_pow256_values();
    lemma_le_round_trip(e.size as nat, 8);
    lemma_le_round_trip(e.mtime_secs as nat, 8);
    lemma_le_round_trip(e.mtime_nanos as nat, 4);
    lemma_le_round_trip(e.hash as nat, 16);
    let b = entry_bytes(e);
    assert(b.subrange(0, 8) =~= le_bytes(e.size as nat, 8));
    assert(b.subrange(8, 16) =~= le_bytes(e.mtime_secs as nat, 8));
    assert(b.subrange(16, 20) =~= le_bytes(e.mtime_nanos as nat, 4));
    assert(b.subrange(20, 36) =~= le_bytes(e.hash as nat, 16));
}

/// The stored hash, when the record still describes the file: same size,
/// same modification time to the nanosecond.
pub fn cached_hash(entry: &CacheEntry, size: u64, mtime_secs: u64, mtime_nanos: u32) -> (r: Option<u128>)
    ensures
        r == (if entry.size == size && entry.mtime_secs == mtime_secs && entry.mtime_nanos == mtime_nanos {
            Some(entry.hash)
        } else {
            None
        }),
{
    if entry.size == size && entry.mtime_secs == mtime_secs && entry.mtime_nanos == mtime_nanos {
        Some(entry.hash)
    } else {
        None
    }
}

/// Nanoseconds in a second.
pub const NANOS_PER_SEC: u32 = 1_000_000_000;

/// A modification time as `SystemTime::duration_since(UNIX_EPOCH)` gives it:
/// `Ok((seconds, nanoseconds))` at or after the epoch, `Err((seconds,
/// nanoseconds))` for how long before it.
pub type SinceEpoch = Result<(u64, u32), (u64, u32)>;

/// The time `t` in nanoseconds relative to the epoch, negative before it.
pub open spec fn since_nanos(t: SinceEpoch) -> int {
    match t {
        Ok((s, n)) => s * 1_000_000_000 + n,
        Err((s, n)) => -(s * 1_000_000_000 + n),
    }
}

/// `t` is a valid duration that a signed 64-bit second count can hold.
pub open spec fn mtime_storable(t: SinceEpoch) -> bool {
    match t {
        Ok((s, n)) => n < 1_000_000_000 && s < 0x8000_0000_0000_0000,
        Err((s, n)) => n < 1_000_000_000 && (s < 0x8000_0000_0000_0000 || (s == 0x8000_0000_0000_0000 && n == 0)),
    }
}

/// A stored seconds field read as a signed (two's complement) number.
pub open spec fn signed_secs(x: u64) -> int {
    if x < 0x8000_0000_0000_0000 {
        x as int
    } else {
        x - 0x1_0000_0000_0000_0000
    }
}

/// The time a stored `(seconds, nanoseconds)` pair stands for, in
/// nanoseconds relative to the epoch: signed whole seconds, floored, plus
/// the nanoseconds past them.
pub open spec fn stored_nanos(k: (u64, u32)) -> int {
    signed_secs(k.0) * 1_000_000_000 + k.1
}

/// The stored form of `t`: signed whole seconds (rounded down) in two's
/// complement, and the nanoseconds past them.
pub open spec fn mtime_key(t: SinceEpoch) -> (u64, u32) {
    match t {
        Ok(d) => d,
        Err((s, n)) => if n == 0 {
            if s == 0 {
                (0u64, 0u32)
            } else {
                ((0x1_0000_0000_0000_0000 - s) as u64, 0u32)
            }
        } else {
            ((0x1_0000_0000_0000_0000 - s - 1) as u64, (1_000_000_000 - n) as u32)
        },
    }
}

/// The stored `(seconds, nanoseconds)` of a modification time: times
/// before the epoch keep their own, distinct values.
pub fn split_mtime(t: SinceEpoch) -> (r: (u64, u32))
    requires
        mtime_storable(t),
    ensures
        r == mtime_key(t),
        r.1 < NANOS_PER_SEC,
        stored_nanos(r) == since_nanos(t),
{
    match t {
        Ok(d) => d,
        Err((s, n)) => {
            if n == 0 {
                if s == 0 {
                    (0, 0)
                } else {
                    (u64::MAX - s + 1, 0)
                }
            } else {
                let r = (u64::MAX - s, NANOS_PER_SEC - n);
                assert(signed_secs(r.0) == -1 - s);
                assert(stored_nanos(r) == since_nanos(t)) by (nonlinear_arith)
                    requires
                        stored_nanos(r) == (-1 - s) * 1_000_000_000 + (1_000_000_000 - n),
                        since_nanos(t) == -(s * 1_000_000_000 + n),
                ;
                r
            }
        },
    }
}

proof fn lemma_stored_nanos_injective(a: (u64, u32), b: (u64, u32))
    requires
        a.1 < 1_000_000_000,
        b.1 < 1_000_000_000,
        stored_nanos(a) == stored_nanos(b),
    ensures
        a == b,
{
    let x = signed_secs(a.0);
    let y = signed_secs(b.0);
    let p = a.1 as int;
    let q = b.1 as int;
    assert(x == y && p == q) by (nonlinear_arith)
        requires
            x * 1_000_000_000 + p == y * 1_000_000_000 + q,
            0 <= p < 1_000_000_000,
            0 <= q < 1_000_000_000,
    {
        if x < y {
            assert(x * 1_000_000_000 + 1_000_000_000 <= y * 1_000_000_000);
        } else if y < x {
            assert(y * 1_000_000_000 + 1_000_000_000 <= x * 1_000_000_000);
        }
    }
}

/// Stored times law: two storable modification times get the same stored
/// form exactly when they are the same time to the nanosecond, whether
/// before or after the epoch.
pub proof fn lemma_mtime_key_exact(a: SinceEpoch, b: SinceEpoch)
    requires
        mtime_storable(a),
        mtime_storable(b),
    ensures
        (mtime_key(a) == mtime_key(b)) == (since_nanos(a) == since_nanos(b)),
        stored_nanos(mtime_key(a)) == since_nanos(a),
{
    lemma_mtime_key_value(a);
    lemma_mtime_key_value(b);
    if since_nanos(a) == since_nanos(b) {
        lemma_stored_nanos_injective(mtime_key(a), mtime_key(b));
    }
}

proof fn lemma_mtime_key_value(t: SinceEpoch)
    requires
        mtime_storable(t),
    ensures
        stored_nanos(mtime_key(t)) == since_nanos(t),
        mtime_key(t).1 < 1_000_000_000,
{
    match t {
        Ok((s, n)) => {},
        Err((s, n)) => {
            let k = mtime_key(t);
            if n != 0 {
                assert(signed_secs(k.0) == -1 - s);
                assert(stored_nanos(k) == since_nanos(t)) by (nonlinear_arith)
                    requires
                        stored_nanos(k) == (-1 - s) * 1_000_000_000 + (1_000_000_000 - n),
                        since_nanos(t) == -(s * 1_000_000_000 + n),
                ;
            }
        },
    }
}

/// Cache law: a record written for a file's size and modification time
/// gives its hash back exactly when asked with the same size and the same
/// modification time to the nanosecond, before or after the epoch.
pub proof fn lemma_cache_hit_exactly_when_unchanged(
    size0: u64,
    t0: SinceEpoch,
    hash: u128,
    size: u64,
    t: SinceEpoch,
)
    requires
        mtime_storable(t0),
        mtime_storable(t),
    ensures
        ({
            let e = CacheEntry { size: size0, mtime_secs: mtime_key(t0).0, mtime_nanos: mtime_key(t0).1, hash };
            let stored = entry_of_bytes(entry_bytes(e));
            &&& (stored.size == size && stored.mtime_secs == mtime_key(t).0 && stored.mtime_nanos == mtime_key(t).1)
                == (size0 == size && since_nanos(t0) == since_nanos(t))
            &&& stored.hash == hash
        }),
{
    let e = CacheEntry { size: size0, mtime_secs: mtime_key(t0).0, mtime_nanos: mtime_key(t0).1, hash };
    lemma_cache_entry_round_trip(e);
    lemma_mtime_key_exact(t0, t);
}

} // verus!
