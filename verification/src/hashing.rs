//! The trusted boundary to the collision-resistant hash primitive.
//!
//! The engine never inspects a digest; it only produces digests through the
//! three entry points below and compares them byte for byte.  Each digest is
//! exactly [`DIGEST_LEN`] bytes.  What the primitive returns is named by
//! uninterpreted spec functions: the contracts of the rest of the crate are
//! stated over those names.

use vstd::prelude::*;

verus! {

/// Number of bytes in every digest the hash primitive produces.
pub const DIGEST_LEN: usize = 32;

/// The field modulus: values of committed columns are canonical residues
/// below this bound.
pub const FIELD_MODULUS: u32 = 0x7fff_ffff;

/// A byte sequence is a well-formed digest when it has exactly
/// [`DIGEST_LEN`] bytes.
pub open spec fn is_digest(d: Seq<u8>) -> bool {
    d.len() == DIGEST_LEN
}

/// View of an optional pair of borrowed digests as sequences.
pub open spec fn digest_pair_view(children: Option<(&Vec<u8>, &Vec<u8>)>) -> Option<
    (Seq<u8>, Seq<u8>),
> {
    match children {
        None => None,
        Some((l, r)) => Some((l@, r@)),
    }
}

/// Both digests of an optional pair are well formed.
pub open spec fn digest_pair_wf(children: Option<(&Vec<u8>, &Vec<u8>)>) -> bool {
    match children {
        None => true,
        Some((l, r)) => is_digest(l@) && is_digest(r@),
    }
}

/// The digest of a grouped-layout node: an optional pair of child digests
/// followed by the column values native to the node's layer.
pub uninterp spec fn grouped_node_hash(children: Option<(Seq<u8>, Seq<u8>)>, values: Seq<u32>) -> Seq<u8>;

/// Relies on stwo's `core::vcs::blake2_merkle::Blake2sMerkleHasher::hash_node`:
/// the digest is 32 bytes and a function of the optional child-digest pair and
/// the value list alone.
#[verifier::external_body]
pub fn hash_node(children: Option<(&Vec<u8>, &Vec<u8>)>, values: &Vec<u32>) -> (r: Vec<u8>)
    requires
        digest_pair_wf(children),
    ensures
        r@ == grouped_node_hash(digest_pair_view(children), values@),
        is_digest(r@),
{
    let ch = children.map(|(l, r)| {
        (stwo::core::vcs::blake2_hash::Blake2sHash::from(&l[..]),
         stwo::core::vcs::blake2_hash::Blake2sHash::from(&r[..]))
    });
    let vals: Vec<stwo::core::fields::m31::M31> =
        values.iter().map(|v| stwo::core::fields::m31::M31::from_u32_unchecked(*v)).collect();
    <stwo::core::vcs::blake2_merkle::Blake2sMerkleHasher as
        stwo::core::vcs::MerkleHasher>::hash_node(ch, &vals).0.to_vec()
}

/// The digest of a lifted-layout leaf: the row of values absorbed at one leaf
/// index, in absorption order.
pub uninterp spec fn lifted_leaf_hash(values: Seq<u32>) -> Seq<u8>;

/// Relies on stwo's `core::vcs_lifted::blake2_merkle::Blake2sMerkleHasher`
/// (`default`, `update_leaf`, `finalize`): absorbing a row of values into a
/// fresh hasher and finalizing yields a 32-byte digest that is a function of
/// the value sequence alone.
#[verifier::external_body]
pub fn leaf_hash(values: &Vec<u32>) -> (r: Vec<u8>)
    ensures
        r@ == lifted_leaf_hash(values@),
        is_digest(r@),
{
    let vals: Vec<stwo::core::fields::m31::M31> =
        values.iter().map(|v| stwo::core::fields::m31::M31::from_u32_unchecked(*v)).collect();
    let mut h = <stwo::core::vcs_lifted::blake2_merkle::Blake2sMerkleHasher as Default>::default();
    stwo::core::vcs_lifted::MerkleHasherLifted::update_leaf(&mut h, &vals);
    stwo::core::vcs_lifted::MerkleHasherLifted::finalize(h).0.to_vec()
}

/// The digest of a lifted-layout internal node over its two child digests.
pub uninterp spec fn lifted_children_hash(left: Seq<u8>, right: Seq<u8>) -> Seq<u8>;

/// Relies on stwo's
/// `core::vcs_lifted::blake2_merkle::Blake2sMerkleHasher::hash_children`: the
/// digest is 32 bytes and a function of the two child digests alone.
#[verifier::external_body]
pub fn hash_children(left: &Vec<u8>, right: &Vec<u8>) -> (r: Vec<u8>)
    requires
        is_digest(left@),
        is_digest(right@),
    ensures
        r@ == lifted_children_hash(left@, right@),
        is_digest(r@),
{
    let l = stwo::core::vcs::blake2_hash::Blake2sHash::from(&left[..]);
    let r = stwo::core::vcs::blake2_hash::Blake2sHash::from(&right[..]);
    <stwo::core::vcs_lifted::blake2_merkle::Blake2sMerkleHasher as
        stwo::core::vcs_lifted::MerkleHasherLifted>::hash_children((l, r)).0.to_vec()
}

/// The mathematical view of a vector of digests: a sequence of byte
/// sequences.
pub open spec fn digests_view(s: Seq<Vec<u8>>) -> Seq<Seq<u8>> {
    s.map_values(|v: Vec<u8>| v@)
}

/// Pushing a digest commutes with taking views.
pub proof fn lemma_digests_view_push(s: Seq<Vec<u8>>, d: Vec<u8>)
    ensures
        digests_view(s.push(d)) == digests_view(s).push(d@),
{
    assert(digests_view(s.push(d)) =~= digests_view(s).push(d@));
}

/// Byte-for-byte digest comparison.
pub fn digests_equal(a: &Vec<u8>, b: &Vec<u8>) -> (r: bool)
    ensures
        r == (a@ == b@),
{
    if a.len() != b.len() {
        assert(a@.len() != b@.len());
        return false;
    }
    let mut i: usize = 0;
    while i < a.len()
        invariant
            i <= a.len(),
            a@.len() == b@.len(),
            forall|j: int| 0 <= j < i ==> a@[j] == b@[j],
        decreases a.len() - i,
    {
        if a[i] != b[i] {
            return false;
        }
        i += 1;
    }
    proof {
        assert(a@ =~= b@);
    }
    true
}

} // verus!
