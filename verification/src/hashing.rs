use vstd::prelude::*;

use sha2::{Digest, Sha256};

use crate::encode::{spec_encode_block, spec_link, spec_link_inner, spec_links};
use crate::types::NamedLeaf;
use crate::varint::push_bytes;

verus! {

/// The SHA-256 digest of a byte sequence, fixed by the input bytes alone.
pub uninterp spec fn sha256_of(bytes: Seq<u8>) -> Seq<u8>;

/// Relies on the sha2 crate: `Sha256::digest` returns the 32-byte SHA-256
/// digest of the input, a function of the input bytes alone.
#[verifier::external_body]
fn sha256(bytes: &Vec<u8>) -> (r: Vec<u8>)
    ensures
        r@ == sha256_of(bytes@),
        r@.len() == 32,
{
    Sha256::digest(bytes.as_slice()).to_vec()
}

/// A version-0 content identifier for a block: the SHA-256 multihash of the
/// block bytes, that is the code byte 0x12 and the length byte 0x20 followed
/// by the digest itself.
pub open spec fn spec_cid_v0(block: Seq<u8>) -> Seq<u8> {
    seq![0x12u8, 0x20u8] + sha256_of(block)
}

/// A directory's block, and with it its content identifier, is fixed by its
/// links' (name, identifier, size) tuples alone: two link lists that agree on
/// those render to byte-identical blocks with the same identifier, whatever
/// else went on around them.
pub proof fn lemma_cid_fixed_by_link_views(a: Seq<NamedLeaf>, b: Seq<NamedLeaf>)
    requires
        a.len() == b.len(),
        forall|i: int|
            0 <= i < a.len() ==> (#[trigger] a[i]).0@ == b[i].0@ && a[i].1@ == b[i].1@ && a[i].2
                == b[i].2,
    ensures
        spec_links(a) == spec_links(b),
        spec_encode_block(a) == spec_encode_block(b),
        spec_cid_v0(spec_encode_block(a)) == spec_cid_v0(spec_encode_block(b)),
    decreases a.len(),
{
    if a.len() > 0 {
        assert forall|i: int|
            0 <= i < a.drop_last().len() implies (#[trigger] a.drop_last()[i]).0@
            == b.drop_last()[i].0@ && a.drop_last()[i].1@ == b.drop_last()[i].1@
            && a.drop_last()[i].2 == b.drop_last()[i].2 by {
            assert(a.drop_last()[i] == a[i]);
            assert(b.drop_last()[i] == b[i]);
        }
        lemma_cid_fixed_by_link_views(a.drop_last(), b.drop_last());
        assert(a[a.len() - 1] == a.last() && b[b.len() - 1] == b.last());
        assert(spec_link_inner(a.last()) == spec_link_inner(b.last()));
        assert(spec_link(a.last()) == spec_link(b.last()));
        assert(spec_links(a) == spec_links(a.drop_last()) + spec_link(a.last()));
        assert(spec_links(b) == spec_links(b.drop_last()) + spec_link(b.last()));
        assert(spec_links(a) == spec_links(b));
    } else {
        assert(spec_links(a) == spec_links(b));
    }
}

/// Computes the version-0 content identifier of `block`.
pub fn cid_v0(block: &Vec<u8>) -> (r: Vec<u8>)
    ensures
        r@ == spec_cid_v0(block@),
{
    let digest = sha256(block);
    let mut out: Vec<u8> = Vec::new();
    out.push(0x12);
    out.push(0x20);
    push_bytes(&mut out, &digest);
    proof {
        assert(out@ =~= spec_cid_v0(block@));
    }
    out
}

} // verus!
