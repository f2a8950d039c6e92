use sha2::Digest;
use vstd::prelude::*;

verus! {

/// The SHA-256 digest of `data`.
pub uninterp spec fn sha256_of(data: Seq<u8>) -> Seq<u8>;

/// Relies on sha2::Sha256::digest: a 32-byte digest that depends on the input bytes alone.
#[verifier::external_body]
pub(crate) fn hash(data: &[u8]) -> (r: Vec<u8>)
    ensures
        r@ == sha256_of(data@),
        r@.len() == 32,
{
    sha2::Sha256::digest(data).to_vec()
}

/// The little-endian bytes of `n`, padded with zeros to 32 bytes.
pub open spec fn le_bytes32(n: u64) -> Seq<u8> {
    Seq::new(32, |k: int| if k < 8 { ((n >> (8 * k) as u64) & 0xff) as u8 } else { 0u8 })
}

/// Encodes `n` as 32 little-endian bytes.
pub fn int_to_bytes32(n: u64) -> (r: Vec<u8>)
    ensures
        r@ == le_bytes32(n),
{
    let mut r: Vec<u8> = Vec::new();
    let mut k: u64 = 0;
    while k < 32
        invariant
            k <= 32,
            r@.len() == k,
            forall|m: int| 0 <= m < k ==> r@[m] == le_bytes32(n)[m],
        decreases 32 - k,
    {
        if k < 8 {
            r.push(((n >> (8 * k)) & 0xff) as u8);
        } else {
            r.push(0u8);
        }
        k = k + 1;
    }
    assert(r@ =~= le_bytes32(n));
    r
}

} // verus!
