//! Content hashing with xxh3-128, and the byte ranges sampled by the
//! partial-hash stage.

use vstd::prelude::*;

verus! {

/// The xxh3-128 digest of `data` (default secret, seed 0).
pub uninterp spec fn xxh3_128(data: Seq<u8>) -> u128;

/// `xxhash_rust::xxh3::xxh3_128`: the 128-bit xxh3 digest of the bytes.
/// The digest is a function of the bytes alone, named `xxh3_128`.
#[verifier::external_body]
fn xxh3_128_of(data: &Vec<u8>) -> (r: u128)
    ensures
        r == xxh3_128(data@),
{
    xxhash_rust::xxh3::xxh3_128(data.as_slice())
}

/// The chunks laid end to end.
pub open spec fn concat_chunks(chunks: Seq<Vec<u8>>) -> Seq<u8>
    decreases chunks.len(),
{
    if chunks.len() == 0 {
        Seq::empty()
    } else {
        concat_chunks(chunks.drop_last()) + chunks.last()@
    }
}

/// The xxh3-128 hash of the concatenation of `chunks`, so that the head,
/// middle and tail samples of a file hash as one input.
pub fn hash_chunks(chunks: &Vec<Vec<u8>>) -> (r: u128)
    ensures
        r == xxh3_128(concat_chunks(chunks@)),
{
    let mut all: Vec<u8> = Vec::new();
    let mut i: usize = 0;
    while i < chunks.len()
        invariant
            i <= chunks@.len(),
            all@ == concat_chunks(chunks@.take(i as int)),
        decreases chunks@.len() - i,
    {
        let chunk = &chunks[i];
        let mut j: usize = 0;
        let ghost start = all@;
        while j < chunk.len()
            invariant
                j <= chunk@.len(),
                all@ == start + chunk@.take(j as int),
            decreases chunk@.len() - j,
        {
            all.push(chunk[j]);
            assert(chunk@.take(j + 1) =~= chunk@.take(j as int).push(chunk@[j as int]));
            assert(all@ =~= start + chunk@.take(j + 1));
            j = j + 1;
        }
        assert(chunk@.take(chunk@.len() as int) =~= chunk@);
        assert(chunks@.take(i + 1).drop_last() =~= chunks@.take(i as int));
        i = i + 1;
    }
    assert(chunks@.take(chunks@.len() as int) =~= chunks@);
    xxh3_128_of(&all)
}

/// The byte ranges `(offset, length)` sampled by the partial-hash stage:
/// head, middle and tail, each `sample_size` long (at least one byte, and
/// never more than the file).
pub open spec fn sample_spec(size: u64, sample_size: u64) -> Seq<(u64, usize)> {
    let ss: int = if sample_size >= 1 { sample_size as int } else { 1 };
    let len: int = if ss <= size { ss } else { size as int };
    let mid: int = if size / 2 >= ss / 2 { size / 2 - ss / 2 } else { 0 };
    let tail: int = if size >= ss { size - ss } else { 0 };
    seq![(0u64, len as usize), (mid as u64, len as usize), (tail as u64, len as usize)]
}

/// Head, middle and tail sample ranges of a file of `size` bytes.
pub fn sample_ranges(size: u64, sample_size: u64) -> (r: Vec<(u64, usize)>)
    requires
        (if sample_size >= 1 { sample_size } else { 1 }) <= usize::MAX || size <= usize::MAX,
    ensures
        r@ == sample_spec(size, sample_size),
{
    let ss: u64 = if sample_size >= 1 { sample_size } else { 1 };
    let len: u64 = if ss <= size { ss } else { size };
    let sample = len as usize;
    let mid: u64 = if size / 2 >= ss / 2 { size / 2 - ss / 2 } else { 0 };
    let tail: u64 = if size >= ss { size - ss } else { 0 };
    let mut v: Vec<(u64, usize)> = Vec::new();
    v.push((0, sample));
    v.push((mid, sample));
    v.push((tail, sample));
    assert(v@ =~= sample_spec(size, sample_size));
    v
}

} // verus!
