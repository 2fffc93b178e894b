use std::collections::hash_map::DefaultHasher;
use std::hash::{BuildHasherDefault, Hasher};
use vstd::bytes::{spec_u64_to_le_bytes, u64_to_le_bytes};
use vstd::prelude::*;
use vstd::std_specs::hash::DefaultHasherAdditionalSpecFns;
use vstd::utf8::encode_utf8;

verus! {

/// A 64-bit hash function over byte strings, used to place replicas,
/// partitions and keys on the ring. Its result depends on the hasher and the
/// bytes alone, so the same bytes always land on the same point.
pub trait RingHasher {
    /// The point that `data` is hashed to.
    spec fn spec_hash(&self, data: Seq<u8>) -> u64;

    fn hash_bytes(&self, data: &[u8]) -> (r: u64)
        ensures
            r == self.spec_hash(data@),
    ;
}

/// Name for the 64-bit XXH3 digest (seed 0) of a byte string.
pub uninterp spec fn xxh3_64_of(data: Seq<u8>) -> u64;

/// Relies on `xxhash_rust::xxh3::xxh3_64`: the 64-bit XXH3 digest with the
/// default seed and secret, a function of the input bytes alone.
#[verifier::external_body]
fn xxh3_digest(data: &[u8]) -> (r: u64)
    ensures
        r == xxh3_64_of(data@),
{
    xxhash_rust::xxh3::xxh3_64(data)
}

/// The default hasher of the ring: 64-bit XXH3.
#[derive(Debug, Clone, Copy, Default)]
pub struct XxHash64Hasher;

impl RingHasher for XxHash64Hasher {
    open spec fn spec_hash(&self, data: Seq<u8>) -> u64 {
        xxh3_64_of(data)
    }

    fn hash_bytes(&self, data: &[u8]) -> (r: u64) {
        xxh3_digest(data)
    }
}

/// Declares std's `BuildHasherDefault` so that it can be given a
/// `RingHasher` impl; nothing about its values is assumed.
#[verifier::external_type_specification]
#[verifier::external_body]
#[verifier::reject_recursive_types(H)]
pub struct ExBuildHasherDefault<H>(BuildHasherDefault<H>);

/// std's `DefaultHasher`, built fresh for every byte string.
impl RingHasher for BuildHasherDefault<DefaultHasher> {
    open spec fn spec_hash(&self, data: Seq<u8>) -> u64 {
        DefaultHasher::spec_finish(seq![data])
    }

    fn hash_bytes(&self, data: &[u8]) -> (r: u64) {
        let mut hasher = DefaultHasher::new();
        hasher.write(data);
        proof {
            assert(hasher@ =~= seq![data@]);
        }
        hasher.finish()
    }
}

/// ASCII decimal digits of `n`, most significant first, without leading zeros.
pub open spec fn decimal(n: nat) -> Seq<u8>
    decreases n,
{
    if n < 10 {
        seq![(48 + n) as u8]
    } else {
        decimal(n / 10).push((48 + n % 10) as u8)
    }
}

/// The bytes hashed to place replica `replica` of the node `id`: the UTF-8
/// text `"{id}:{replica}"`.
pub open spec fn replica_key(id: Seq<char>, replica: nat) -> Seq<u8> {
    encode_utf8(id) + seq![58u8] + decimal(replica)
}

/// The bytes hashed to place partition `part_id`: its 8 little-endian bytes.
pub open spec fn partition_key(part_id: usize) -> Seq<u8> {
    spec_u64_to_le_bytes(part_id as u64)
}

/// Appends the decimal digits of `n` to `buf`.
fn push_decimal(buf: &mut Vec<u8>, n: usize)
    ensures
        final(buf)@ == old(buf)@ + decimal(n as nat),
    decreases n,
{
    if n >= 10 {
        push_decimal(buf, n / 10);
    }
    buf.push((48 + n % 10) as u8);
    proof {
        assert(buf@ =~= old(buf)@ + decimal(n as nat));
    }
}

/// The bytes of `"{id}:{replica}"`.
pub fn replica_key_bytes(id: &str, replica: usize) -> (r: Vec<u8>)
    ensures
        r@ == replica_key(id@, replica as nat),
{
    let bytes = id.as_bytes();
    let mut buf: Vec<u8> = Vec::new();
    let mut i: usize = 0;
    while i < bytes.len()
        invariant
            i <= bytes@.len(),
            buf@ == bytes@.subrange(0, i as int),
        decreases bytes@.len() - i,
    {
        buf.push(bytes[i]);
        i += 1;
        proof {
            assert(buf@ =~= bytes@.subrange(0, i as int));
        }
    }
    proof {
        assert(buf@ =~= encode_utf8(id@));
    }
    buf.push(58u8);
    push_decimal(&mut buf, replica);
    buf
}

/// The bytes of partition `part_id`.
pub fn partition_key_bytes(part_id: usize) -> (r: Vec<u8>)
    ensures
        r@ == partition_key(part_id),
{
    u64_to_le_bytes(part_id as u64)
}

} // verus!
