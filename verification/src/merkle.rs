use crate::digest::{sha256, sha256_bytes};
use merkle_cbt::merkle_tree::{Merge, CBMT};
use vstd::prelude::*;

verus! {

/// How two nodes of the commitment tree combine: the SHA-256 digest of the
/// left node followed by the right one.
pub open spec fn merge_nodes(left: Seq<u8>, right: Seq<u8>) -> Seq<u8> {
    sha256(left + right)
}

/// The combining rule handed to the tree builder.
pub struct MergeVu8 {}

impl Merge for MergeVu8 {
    type Item = Vec<u8>;

    fn merge(left: &Vec<u8>, right: &Vec<u8>) -> (r: Vec<u8>)
        ensures
            r@ == merge_nodes(left@, right@),
    {
        let mut data: Vec<u8> = left.clone();
        let mut tail: Vec<u8> = right.clone();
        data.append(&mut tail);
        assert(data@ =~= left@ + right@);
        sha256_bytes(data.as_slice())
    }
}

/// The node at place `i` of the complete binary tree over `leaves`, laid out
/// as an array: the leaves fill the last places in their order, and every
/// place before them holds the combination of its two children, at `2i + 1`
/// and `2i + 2`.
pub open spec fn tree_node(leaves: Seq<Seq<u8>>, i: int) -> Seq<u8>
    decreases 2 * leaves.len() - i,
{
    if 0 <= i < leaves.len() - 1 {
        merge_nodes(tree_node(leaves, 2 * i + 1), tree_node(leaves, 2 * i + 2))
    } else {
        leaves[i - (leaves.len() - 1)]
    }
}

/// The commitment root of a list of leaves: the first node of the tree, or
/// the empty byte string where there is no leaf.
pub open spec fn commitment_root(leaves: Seq<Seq<u8>>) -> Seq<u8> {
    if leaves.len() == 0 {
        Seq::empty()
    } else {
        tree_node(leaves, 0)
    }
}

/// The byte strings that a list of vectors holds.
pub open spec fn leaves_view(leaves: Seq<Vec<u8>>) -> Seq<Seq<u8>> {
    leaves.map_values(|l: Vec<u8>| l@)
}

/// Calls `CBMT::build_merkle_tree` and `MerkleTree::root` of merkle-cbt with
/// the combining rule above. The builder puts the leaves behind `len - 1`
/// empty nodes, fills those from the last to the first with the combination
/// of the nodes at `2i + 1` and `2i + 2`, and the root is the first node; for
/// no leaf it is the default vector, which is empty.
#[verifier::external_body]
pub(crate) fn build_root(leaves: Vec<Vec<u8>>) -> (r: Vec<u8>)
    ensures
        r@ == commitment_root(leaves_view(leaves@)),
{
    CBMT::<Vec<u8>, MergeVu8>::build_merkle_tree(leaves).root()
}

} // verus!
