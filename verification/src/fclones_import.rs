//! The decisions behind importing full-file hashes from an existing fclones
//! xxhash3 cache: which cache keys may hold a file's full-content hash, when
//! a stored record is still fresh, and how its hash text is decoded.

use vstd::prelude::*;
use vstd::utf8::is_char_boundary;
use vstd::string::StringSliceAdditionalSpecFns;
use crate::cache::le_value;

verus! {

/// The chunk lengths under which fclones may have cached a file's full
/// content: the file's own size, then each default prefix length that would
/// have covered the whole file (a prefix read simply stops at its end).
pub open spec fn chunk_len_candidates(size: u64) -> Seq<u64> {
    let a: Seq<u64> = if size <= 4096 && size != 4096 { seq![4096u64] } else { Seq::empty() };
    let b: Seq<u64> = if size <= 16384 && size != 16384 { seq![16384u64] } else { Seq::empty() };
    seq![size] + a + b
}

/// The chunk lengths to look a file of `size` bytes up under, in order.
pub fn candidate_chunk_lens(size: u64) -> (r: Vec<u64>)
    ensures
        r@ == chunk_len_candidates(size),
{
    let mut v: Vec<u64> = Vec::new();
    v.push(size);
    let mut i: usize = 0;
    let ghost prefixes = seq![4096u64, 16384u64];
    while i < 2
        invariant
            i <= 2,
            v@ == seq![size] + (if i >= 1 && size <= 4096 && size != 4096 { seq![4096u64] } else { Seq::empty() })
                + (if i >= 2 && size <= 16384 && size != 16384 { seq![16384u64] } else { Seq::empty() }),
        decreases 2 - i,
    {
        let p = if i == 0 { 4096u64 } else { 16384u64 };
        if size <= p && p != size {
            v.push(p);
        }
        i = i + 1;
    }
    assert(v@ =~= chunk_len_candidates(size));
    v
}

/// A modification time as whole milliseconds since the Unix epoch, kept to
/// 64 bits as fclones stores it; a time before the epoch counts as 0.
pub open spec fn millis_of(since_epoch: Option<(u64, u32)>) -> u64 {
    match since_epoch {
        Some((secs, nanos)) => ((secs as u128) * 1000 + (nanos / 1_000_000) as u128) as u64,
        None => 0,
    }
}

/// Milliseconds since the epoch of a time given as `(seconds, nanoseconds)`.
pub fn to_millis(since_epoch: Option<(u64, u32)>) -> (r: u64)
    ensures
        r == millis_of(since_epoch),
{
    match since_epoch {
        Some((secs, nanos)) => {
            let ms: u128 = (secs as u128) * 1000 + (nanos / 1_000_000) as u128;
            ms as u64
        },
        None => 0,
    }
}

/// The value of one hexadecimal digit.
pub open spec fn hex_digit(b: u8) -> Option<nat> {
    if 48 <= b <= 57 {
        Some((b - 48) as nat)
    } else if 97 <= b <= 102 {
        Some((b - 87) as nat)
    } else if 65 <= b <= 70 {
        Some((b - 55) as nat)
    } else {
        None
    }
}

/// A two-character field parsed as a base-16 `u8`: two digits, or a `+`
/// sign and one digit.
pub open spec fn hex_pair(b0: u8, b1: u8) -> Option<u8> {
    if b0 == 43 {
        match hex_digit(b1) {
            Some(l) => Some(l as u8),
            None => None,
        }
    } else {
        match (hex_digit(b0), hex_digit(b1)) {
            (Some(h), Some(l)) => Some((16 * h + l) as u8),
            _ => None,
        }
    }
}

/// Byte `i` of the hash, from characters `2i` and `2i + 1` of `b`.
pub open spec fn pair_at(b: Seq<u8>, i: int) -> Option<u8> {
    hex_pair(b[2 * i], b[2 * i + 1])
}

/// The 16 bytes spelled by the 32 characters of `b`, if every pair parses.
pub open spec fn hash_bytes(b: Seq<u8>) -> Option<Seq<u8>> {
    if b.len() == 32 && forall|i: int| 0 <= i < 16 ==> #[trigger] pair_at(b, i) is Some {
        Some(Seq::new(16, |i: int| pair_at(b, i)->0))
    } else {
        None
    }
}

/// fclones' hash text decoded: 32 hexadecimal characters spelling the
/// little-endian bytes of the hash.
pub open spec fn decoded_hash(b: Seq<u8>) -> Option<u128> {
    match hash_bytes(b) {
        Some(bytes) => Some(le_value(bytes) as u128),
        None => None,
    }
}

fn hex_digit_exec(b: u8) -> (r: Option<u8>)
    ensures
        match hex_digit(b) {
            Some(d) => r == Some(d as u8),
            None => r is None,
        },
{
    if 48 <= b && b <= 57 {
        Some(b - 48)
    } else if 97 <= b && b <= 102 {
        Some(b - 87)
    } else if 65 <= b && b <= 70 {
        Some(b - 55)
    } else {
        None
    }
}

fn hex_pair_exec(b0: u8, b1: u8) -> (r: Option<u8>)
    ensures
        r == hex_pair(b0, b1),
{
    if b0 == 43 {
        hex_digit_exec(b1)
    } else {
        match (hex_digit_exec(b0), hex_digit_exec(b1)) {
            (Some(h), Some(l)) => Some(16 * h + l),
            _ => None,
        }
    }
}

/// Decodes fclones' hash text: the little-endian bytes of the hash as 32
/// hexadecimal characters, each byte parsed like `u8::from_str_radix(_, 16)`.
pub fn decode_le_hash(hex: &str) -> (r: Option<u128>)
    requires
        hex.spec_bytes().len() == 32 ==> forall|i: int| 0 <= i <= 32 && i % 2 == 0 ==> #[trigger] is_char_boundary(hex.spec_bytes(), i),
    ensures
        r == decoded_hash(hex.spec_bytes()),
{
    let b = hex.as_bytes();
    if b.len() != 32 {
        return None;
    }
    let ghost bs = hex.spec_bytes();
    let mut bytes: Vec<u8> = Vec::new();
    let mut i: usize = 0;
    while i < 16
        invariant
            b@ == bs,
            bs == hex.spec_bytes(),
            bs.len() == 32,
            i <= 16,
            bytes@.len() == i,
            forall|k: int| 0 <= k < i ==> #[trigger] pair_at(bs, k) == Some(bytes@[k]),
        decreases 16 - i,
    {
        match hex_pair_exec(b[2 * i], b[2 * i + 1]) {
            Some(v) => {
                assert(pair_at(bs, i as int) == Some(v));
                bytes.push(v);
            },
            None => {
                assert(pair_at(bs, i as int) is None);
                return None;
            },
        }
        i = i + 1;
    }
    let ghost want = Seq::new(16, |k: int| pair_at(bs, k)->0);
    assert(bytes@ =~= want);
    proof {
        crate::cache::lemma_le_value_bound(bytes@);
    }
    Some(le_u128(&bytes))
}

/// The little-endian number spelled by 16 bytes.
fn le_u128(bytes: &Vec<u8>) -> (r: u128)
    requires
        bytes@.len() == 16,
    ensures
        r as nat == le_value(bytes@),
{
    proof {
        crate::cache::lemma_le_value_bound(bytes@);
        crate::cache::lemma_pow256_values();
    }
    assert(bytes@.subrange(16, 16) =~= Seq::<u8>::empty());
    assert(crate::cache::pow256(0) == 1);
    let mut v: u128 = 0;
    let mut k: usize = 16;
    while k > 0
        invariant
            bytes@.len() == 16,
            k <= 16,
            v as nat == le_value(bytes@.subrange(k as int, 16)),
            (v as nat) < crate::cache::pow256((16 - k) as nat),
            crate::cache::pow256(16) == 0x1_0000_0000_0000_0000_0000_0000_0000_0000,
        decreases k,
    {
        proof {
            assert(bytes@.subrange(k - 1, 16).drop_first() =~= bytes@.subrange(k as int, 16));
            crate::cache::lemma_pow256_monotone((16 - k + 1) as nat, 16);
            assert(crate::cache::pow256((16 - k + 1) as nat) == 256 * crate::cache::pow256((16 - k) as nat));
        }
        v = (bytes[k - 1] as u128) + 256 * v;
        k = k - 1;
    }
    assert(bytes@.subrange(0, 16) =~= bytes@);
    v
}

/// The full-content hash a cached fclones record offers for a file of
/// `size` bytes modified at `modified_ms`: only when the record still
/// matches both, and its hash text decodes.
pub fn fresh_full_hash(
    file_len: u64,
    modified_timestamp_ms: u64,
    hash: &str,
    size: u64,
    modified_ms: u64,
) -> (r: Option<u128>)
    requires
        hash.spec_bytes().len() == 32 ==> forall|i: int| 0 <= i <= 32 && i % 2 == 0 ==> #[trigger] is_char_boundary(hash.spec_bytes(), i),
    ensures
        r == (if file_len == size && modified_timestamp_ms == modified_ms {
            decoded_hash(hash.spec_bytes())
        } else {
            None
        }),
{
    if file_len != size || modified_timestamp_ms != modified_ms {
        return None;
    }
    decode_le_hash(hash)
}

} // verus!
