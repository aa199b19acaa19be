//! The cryptographic digest behind every authenticated structure, and the
//! chained root computation over an ordered sequence of leaves.

use vstd::prelude::*;
use crate::bytes::push_all;

verus! {

/// What SHA-256 returns for a given byte sequence.
pub uninterp spec fn sha256_of(data: Seq<u8>) -> Seq<u8>;

/// Relies on `sha2::Sha256` through `digest::Digest::digest`: the digest is a
/// pure function of the input bytes alone, and is always 32 bytes long.
#[verifier::external_body]
pub(crate) fn sha256(data: &Vec<u8>) -> (r: Vec<u8>)
    ensures
        r@ == sha256_of(data@),
        r@.len() == 32,
{
    <sha2::Sha256 as sha2::Digest>::digest(data.as_slice()).to_vec()
}

/// Root of an ordered sequence of leaves: the digest chain
/// `H(... H(H(empty) ++ leaf_0) ... ++ leaf_n)`. A pure function of the
/// ordered leaf sequence.
pub open spec fn seq_root(leaves: Seq<Seq<u8>>) -> Seq<u8>
    decreases leaves.len(),
{
    if leaves.len() == 0 {
        sha256_of(Seq::<u8>::empty())
    } else {
        sha256_of(seq_root(leaves.drop_last()) + leaves.last())
    }
}

/// Extending the chain by one leaf rehashes the previous root with that leaf.
pub proof fn lemma_seq_root_step(leaves: Seq<Seq<u8>>, i: int)
    requires
        0 <= i < leaves.len(),
    ensures
        seq_root(leaves.take(i + 1)) == sha256_of(seq_root(leaves.take(i)) + leaves[i]),
{
    assert(leaves.take(i + 1).drop_last() =~= leaves.take(i));
    assert(leaves.take(i + 1).last() == leaves[i]);
}

/// The root of the empty sequence.
pub fn empty_root() -> (r: Vec<u8>)
    ensures
        r@ == seq_root(Seq::<Seq<u8>>::empty()),
        r@.len() == 32,
{
    let e: Vec<u8> = Vec::new();
    let r = sha256(&e);
    proof {
        assert(e@ =~= Seq::<u8>::empty());
    }
    r
}

/// Extends a chained root by one leaf.
pub fn chain(root: &Vec<u8>, leaf: &Vec<u8>) -> (r: Vec<u8>)
    ensures
        r@ == sha256_of(root@ + leaf@),
        r@.len() == 32,
{
    let mut buf = crate::bytes::copy_bytes(root);
    push_all(&mut buf, leaf);
    sha256(&buf)
}

} // verus!
