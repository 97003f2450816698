//! The hash functions the ring uses, all from `xxhash_rust::xxh3`.

use vstd::prelude::*;
use vstd::utf8::encode_utf8;
use xxhash_rust::xxh3::Xxh3;

verus! {

#[verifier::external_type_specification]
#[verifier::external_body]
pub struct ExXxh3(Xxh3);

/// The bytes an `Xxh3` hasher has been fed since it was created or last reset.
pub uninterp spec fn xxh3_fed(hasher: Xxh3) -> Seq<u8>;

/// The hasher was made with the default seed (0) and the default secret,
/// as `Xxh3::new` makes it.
pub uninterp spec fn xxh3_default_keyed(hasher: Xxh3) -> bool;

/// What `Xxh3::digest` returns for a default-keyed hasher that has been fed
/// exactly `data`.
pub uninterp spec fn xxh3_digest_of(data: Seq<u8>) -> u64;

/// What the one-shot `xxh3_64` returns for `data`.
pub uninterp spec fn xxh3_64_of(data: Seq<u8>) -> u64;

/// `Xxh3::new`: a hasher with the default seed and secret that has been fed nothing.
#[verifier::external_body]
fn hasher_new() -> (h: Xxh3)
    ensures
        xxh3_fed(h) == Seq::<u8>::empty(),
        xxh3_default_keyed(h),
{
    Xxh3::new()
}

/// `Xxh3::reset`: forgets everything fed so far (seed and secret are kept).
#[verifier::external_body]
fn hasher_reset(h: &mut Xxh3)
    ensures
        xxh3_fed(*final(h)) == Seq::<u8>::empty(),
        xxh3_default_keyed(*final(h)) == xxh3_default_keyed(*old(h)),
{
    h.reset()
}

/// `Xxh3::update`: appends `input` to what the hasher has been fed.
#[verifier::external_body]
fn hasher_update(h: &mut Xxh3, input: &[u8])
    ensures
        xxh3_fed(*final(h)) == xxh3_fed(*old(h)) + input@,
        xxh3_default_keyed(*final(h)) == xxh3_default_keyed(*old(h)),
{
    h.update(input)
}

/// `Xxh3::digest`: the hash of everything fed so far; the hasher is unchanged.
/// Only stated for default-keyed hashers.
#[verifier::external_body]
fn hasher_digest(h: &Xxh3) -> (d: u64)
    requires
        xxh3_default_keyed(*h),
    ensures
        d == xxh3_digest_of(xxh3_fed(*h)),
{
    h.digest()
}

/// `xxhash_rust::xxh3::xxh3_64`: the 64-bit XXH3 hash of `data` with the default seed.
#[verifier::external_body]
fn xxh3_64(data: &[u8]) -> (d: u64)
    ensures
        d == xxh3_64_of(data@),
{
    xxhash_rust::xxh3::xxh3_64(data)
}

/// The ring position of a key: XXH3 of its UTF-8 bytes.
pub open spec fn key_hash(key: Seq<char>) -> u64 {
    xxh3_64_of(encode_utf8(key))
}

/// The four little-endian bytes of `i`.
pub open spec fn le_bytes(i: u32) -> Seq<u8> {
    seq![
        (i % 256) as u8,
        ((i / 256) % 256) as u8,
        ((i / 65536) % 256) as u8,
        (i / 16777216) as u8,
    ]
}

/// The bytes hashed for the `i`-th virtual position of node `name`:
/// the name's UTF-8 bytes, a `#`, and `i` in little-endian order.
pub open spec fn vnode_key(name: Seq<char>, i: u32) -> Seq<u8> {
    encode_utf8(name) + seq![35u8] + le_bytes(i)
}

/// The ring position of the `i`-th virtual position of node `name`.
pub open spec fn vnode_position(name: Seq<char>, i: u32) -> u64 {
    xxh3_digest_of(vnode_key(name, i))
}

/// Hashes a key to its ring position.
pub fn hash_str(s: &str) -> (h: u64)
    ensures
        h == key_hash(s@),
        h == xxh3_64_of(encode_utf8(s@)),
{
    xxh3_64(s.as_bytes())
}

/// A reusable hasher for virtual-node positions.
pub(crate) struct VnodeHasher {
    hasher: Xxh3,
}

impl VnodeHasher {
    /// The hasher is default-keyed.
    pub(crate) closed spec fn wf(&self) -> bool {
        xxh3_default_keyed(self.hasher)
    }

    pub(crate) fn new() -> (r: Self)
        ensures
            r.wf(),
    {
        VnodeHasher { hasher: hasher_new() }
    }

    /// The ring position of the `i`-th virtual node of the node `name`.
    pub(crate) fn position(&mut self, name: &str, i: u32) -> (p: u64)
        requires
            old(self).wf(),
        ensures
            p == vnode_position(name@, i),
            final(self).wf(),
    {
        hasher_reset(&mut self.hasher);
        hasher_update(&mut self.hasher, name.as_bytes());
        let sep: Vec<u8> = vec![35u8];
        hasher_update(&mut self.hasher, sep.as_slice());
        let le: Vec<u8> = vec![
            (i % 256) as u8,
            ((i / 256) % 256) as u8,
            ((i / 65536) % 256) as u8,
            (i / 16777216) as u8,
        ];
        hasher_update(&mut self.hasher, le.as_slice());
        proof {
            assert(sep@ =~= seq![35u8]);
            assert(le@ =~= le_bytes(i));
        }
        hasher_digest(&self.hasher)
    }
}

/// A key's ring position is the XXH3-64 hash of its complete UTF-8
/// encoding, so keys that differ in any byte are hashed from different
/// inputs.
pub proof fn key_hash_hashes_whole_key(key: Seq<char>)
    ensures
        key_hash(key) == xxh3_64_of(encode_utf8(key)),
{
}

/// The index bytes of a virtual position are the index in little-endian
/// order: four bytes, least significant first, that add up to the index.
pub proof fn le_bytes_encode_index(i: u32)
    ensures
        le_bytes(i).len() == 4,
        le_bytes(i)[0] + 256 * le_bytes(i)[1] + 65536 * le_bytes(i)[2] + 16777216 * le_bytes(i)[3] == i,
{
    let b0 = i % 256;
    let b1 = (i / 256) % 256;
    let b2 = (i / 65536) % 256;
    let b3 = i / 16777216;
    assert(b0 < 256 && b1 < 256 && b2 < 256 && b3 < 256) by (bit_vector)
        requires
            b0 == i % 256,
            b1 == (i / 256) % 256,
            b2 == (i / 65536) % 256,
            b3 == i / 16777216,
    ;
    assert(b0 + 256 * b1 + 65536 * b2 + 16777216 * b3 == i) by (bit_vector)
        requires
            b0 == i % 256,
            b1 == (i / 256) % 256,
            b2 == (i / 65536) % 256,
            b3 == i / 16777216,
    ;
    assert(le_bytes(i)[0] == b0);
    assert(le_bytes(i)[1] == b1);
    assert(le_bytes(i)[2] == b2);
    assert(le_bytes(i)[3] == b3);
}

/// The `i`-th position of a node is the `Xxh3` digest of the node's UTF-8
/// name, a `#`, and four little-endian bytes that add up to `i`.
pub proof fn vnode_position_hashes_name_and_index(name: Seq<char>, i: u32)
    ensures
        exists|b: Seq<u8>|
            b.len() == 4 && b[0] + 256 * b[1] + 65536 * b[2] + 16777216 * b[3] == i
                && vnode_position(name, i) == xxh3_digest_of(encode_utf8(name) + seq![35u8] + b),
{
    le_bytes_encode_index(i);
    let b = le_bytes(i);
    assert(vnode_position(name, i) == xxh3_digest_of(encode_utf8(name) + seq![35u8] + b));
}

} // verus!
