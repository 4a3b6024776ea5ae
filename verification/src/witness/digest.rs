//! The BLAKE3 functions that the witness log is built on.
use vstd::prelude::*;

verus! {

/// What BLAKE3 gives for `data`.
pub uninterp spec fn blake3_of(data: Seq<u8>) -> Seq<u8>;

/// What BLAKE3 in keyed mode gives for `data` under `key`.
pub uninterp spec fn keyed_blake3_of(key: Seq<u8>, data: Seq<u8>) -> Seq<u8>;

/// The key that BLAKE3 in key-derivation mode gives for `material` under `context`.
pub uninterp spec fn derived_key_of(context: Seq<char>, material: Seq<u8>) -> Seq<u8>;

/// `blake3::hash`: the 32-byte digest is a function of the bytes alone.
#[verifier::external_body]
pub(crate) fn hash(data: &[u8]) -> (digest: [u8; 32])
    ensures
        digest@ == blake3_of(data@),
{
    *blake3::hash(data).as_bytes()
}

/// `blake3::keyed_hash`: the 32-byte digest is a function of the key and the bytes alone.
#[verifier::external_body]
pub(crate) fn keyed_hash(key: &[u8; 32], data: &[u8]) -> (digest: [u8; 32])
    ensures
        digest@ == keyed_blake3_of(key@, data@),
{
    *blake3::keyed_hash(key, data).as_bytes()
}

/// `blake3::derive_key`: the 32-byte key is a function of the context string and the key
/// material alone.
#[verifier::external_body]
pub(crate) fn derive_key(context: &str, material: &[u8]) -> (key: [u8; 32])
    ensures
        key@ == derived_key_of(context@, material@),
{
    blake3::derive_key(context, material)
}

/// Whether two byte strings are equal, looking at every byte whatever the earlier ones were.
pub fn same_bytes(a: &[u8], b: &[u8]) -> (same: bool)
    requires
        a@.len() == b@.len(),
    ensures
        same == (a@ == b@),
{
    let mut diff: u8 = 0;
    let mut i: usize = 0;
    while i < a.len()
        invariant
            i <= a@.len(),
            a@.len() == b@.len(),
            diff == 0 <==> forall|j: int| 0 <= j < i ==> a@[j] == b@[j],
        decreases a@.len() - i,
    {
        let x: u8 = a[i];
        let y: u8 = b[i];
        assert((diff | (x ^ y)) == 0 <==> (diff == 0 && x == y)) by (bit_vector);
        diff = diff | (x ^ y);
        i += 1;
    }
    assert(diff == 0 <==> a@ =~= b@);
    diff == 0
}

} // verus!
