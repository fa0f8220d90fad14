//! The hash primitive shared by tree building and proof verification:
//! SHA-256 over the concatenation of two byte strings.

use vstd::prelude::*;

verus! {

/// The SHA-256 digest of a byte sequence. The digest is a pure function of
/// the input bytes alone; nothing more is assumed of it here.
pub uninterp spec fn sha256_of(data: Seq<u8>) -> Seq<u8>;

/// Relies on sha2's `Sha256::digest`: the one-shot SHA-256 of `data`,
/// always exactly 32 bytes.
#[verifier::external_body]
fn sha256_bytes(data: &Vec<u8>) -> (r: Vec<u8>)
    ensures
        r@ == sha256_of(data@),
        r@.len() == 32,
{
    <sha2::Sha256 as sha2::Digest>::digest(data.as_slice()).to_vec()
}

/// The concatenation of two byte vectors, left bytes first.
pub fn concat_bytes(a: &Vec<u8>, b: &Vec<u8>) -> (r: Vec<u8>)
    ensures
        r@ == a@ + b@,
{
    let mut r: Vec<u8> = Vec::new();
    let mut i: usize = 0;
    while i < a.len()
        invariant
            i <= a@.len(),
            r@ == a@.take(i as int),
        decreases a@.len() - i,
    {
        r.push(a[i]);
        i = i + 1;
    }
    assert(r@ == a@) by {
        assert(a@.take(a@.len() as int) =~= a@);
    }
    let mut j: usize = 0;
    while j < b.len()
        invariant
            j <= b@.len(),
            r@ == a@ + b@.take(j as int),
        decreases b@.len() - j,
    {
        r.push(b[j]);
        proof {
            assert(a@ + b@.take(j + 1) =~= (a@ + b@.take(j as int)).push(b@[j as int]));
        }
        j = j + 1;
    }
    proof {
        assert(a@ + b@.take(b@.len() as int) =~= a@ + b@);
    }
    r
}

/// The digest of one sibling pair: SHA-256 of the left operand's bytes
/// followed by the right operand's bytes.
pub fn hash_pair(left: &Vec<u8>, right: &Vec<u8>) -> (r: Vec<u8>)
    ensures
        r@ == sha256_of(left@ + right@),
        r@.len() == 32,
{
    let joined = concat_bytes(left, right);
    sha256_bytes(&joined)
}

/// A fresh vector holding the same bytes.
pub fn copy_bytes(src: &Vec<u8>) -> (r: Vec<u8>)
    ensures
        r@ == src@,
{
    let mut r: Vec<u8> = Vec::new();
    let mut i: usize = 0;
    while i < src.len()
        invariant
            i <= src@.len(),
            r@ == src@.take(i as int),
        decreases src@.len() - i,
    {
        r.push(src[i]);
        i = i + 1;
    }
    assert(src@.take(src@.len() as int) =~= src@);
    r
}

/// Byte-for-byte equality of two vectors.
pub fn bytes_eq(a: &Vec<u8>, b: &Vec<u8>) -> (r: bool)
    ensures
        r == (a@ == b@),
{
    if a.len() != b.len() {
        return false;
    }
    let mut i: usize = 0;
    while i < a.len()
        invariant
            a@.len() == b@.len(),
            i <= a@.len(),
            forall|k: int| 0 <= k < i ==> a@[k] == b@[k],
        decreases a@.len() - i,
    {
        if a[i] != b[i] {
            return false;
        }
        i = i + 1;
    }
    proof {
        assert(a@ =~= b@);
    }
    true
}

} // verus!
