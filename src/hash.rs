//! The hash the accumulator chains with: SHA-256, through the `digest` traits.

use vstd::prelude::*;

use digest::Digest;

verus! {

/// The SHA-256 digest of a byte string.
pub uninterp spec fn sha256_of(data: Seq<u8>) -> Seq<u8>;

/// The all-zero digest: the element and the root at index 0.
pub open spec fn zero_digest() -> Seq<u8> {
    Seq::new(32, |_i: int| 0u8)
}

/// The digest of `x ‖ prev ‖ pred`, 96 bytes in that order.
pub open spec fn hash3(x: Seq<u8>, prev: Seq<u8>, pred: Seq<u8>) -> Seq<u8> {
    sha256_of(x + prev + pred)
}

/// The byte strings of a sequence of digests.
pub open spec fn digests(w: Seq<[u8; 32]>) -> Seq<Seq<u8>> {
    w.map_values(|e: [u8; 32]| e@)
}

/// Relies on `sha2::Sha256` through `digest::Digest::digest`: the 32-byte
/// digest of `data`, which depends on the bytes alone.
#[verifier::external_body]
fn sha256(data: &[u8]) -> (r: [u8; 32])
    ensures
        r@ == sha256_of(data@),
{
    sha2::Sha256::digest(data).into()
}

/// The digest of a byte string.
pub fn digest_data(data: &[u8]) -> (r: [u8; 32])
    ensures
        r@ == sha256_of(data@),
{
    sha256(data)
}

/// The zero digest.
pub fn zero_element() -> (r: [u8; 32])
    ensures
        r@ == zero_digest(),
{
    let mut r = [0u8; 32];
    let mut i: usize = 0;
    while i < 32
        invariant
            0 <= i <= 32,
            forall|m: int| 0 <= m < i ==> r@[m] == 0u8,
        decreases 32 - i,
    {
        r[i] = 0u8;
        i = i + 1;
    }
    assert(r@ =~= zero_digest());
    r
}

fn push_all(v: &mut Vec<u8>, a: &[u8; 32])
    ensures
        final(v)@ == old(v)@ + a@,
{
    let mut i: usize = 0;
    while i < 32
        invariant
            0 <= i <= 32,
            v@ == old(v)@ + a@.subrange(0, i as int),
        decreases 32 - i,
    {
        v.push(a[i]);
        i = i + 1;
        assert(v@ =~= old(v)@ + a@.subrange(0, i as int));
    }
    assert(a@.subrange(0, 32) =~= a@);
}

/// The digest of `x ‖ prev ‖ pred`.
pub fn hash_triple(x: &[u8; 32], prev: &[u8; 32], pred: &[u8; 32]) -> (r: [u8; 32])
    ensures
        r@ == hash3(x@, prev@, pred@),
{
    let mut buf: Vec<u8> = Vec::with_capacity(96);
    push_all(&mut buf, x);
    push_all(&mut buf, prev);
    push_all(&mut buf, pred);
    assert(buf@ =~= x@ + prev@ + pred@);
    sha256(buf.as_slice())
}

/// Whether two digests hold the same bytes.
pub fn same_digest(a: &[u8; 32], b: &[u8; 32]) -> (r: bool)
    ensures
        r == (a@ == b@),
{
    let mut i: usize = 0;
    while i < 32
        invariant
            0 <= i <= 32,
            forall|m: int| 0 <= m < i ==> a@[m] == b@[m],
        decreases 32 - i,
    {
        if a[i] != b[i] {
            return false;
        }
        i = i + 1;
    }
    assert(a@ =~= b@);
    true
}

} // verus!
