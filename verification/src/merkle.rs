//! Merkle commitment metadata: the serializable shape and default value of
//! the state this layer persists for the external Merkle engine.
//!
//! The dense (append-only) tree carries a root and a version equal to the
//! number of leaves ever appended; the sparse (key-addressed) tree carries
//! only its current root. Computing roots is the Merkle engine's job; this
//! module obtains the two empty-tree roots from it and owns everything else.

use vstd::prelude::*;

use crate::types::Bytes32;
use crate::types::MerkleRoot;

verus! {

/// The root of a dense Merkle tree with no leaves: the SHA-256 digest of no
/// data.
pub open spec fn dense_empty_root() -> Seq<u8> {
    seq![
        0xe3u8, 0xb0, 0xc4, 0x42, 0x98, 0xfc, 0x1c, 0x14, 0x9a, 0xfb, 0xf4, 0xc8, 0x99, 0x6f,
        0xb9, 0x24, 0x27, 0xae, 0x41, 0xe4, 0x64, 0x9b, 0x93, 0x4c, 0xa4, 0x95, 0x99, 0x1b, 0x78,
        0x52, 0xb8, 0x55,
    ]
}

/// The root of a sparse Merkle tree with no leaves: 32 zero bytes.
pub open spec fn sparse_empty_root() -> Seq<u8> {
    Seq::new(32, |i: int| 0u8)
}

/// Relies on fuel_merkle::binary::root_calculator::MerkleRootCalculator::root:
/// on a freshly created calculator it returns the crate's EMPTY_SUM constant,
/// the SHA-256 digest of no data, written out literally in its source.
#[verifier::external_body]
fn binary_empty_root() -> (r: Vec<u8>)
    ensures
        r@ == dense_empty_root(),
{
    let calculator = fuel_merkle::binary::root_calculator::MerkleRootCalculator::new();
    calculator.root().to_vec()
}

/// Relies on fuel_merkle::sparse::in_memory::MerkleTree::root: on a freshly
/// created tree it returns the crate's zero_sum constant, 32 zero bytes,
/// written out literally in its source.
#[verifier::external_body]
fn sparse_tree_empty_root() -> (r: Vec<u8>)
    ensures
        r@ == sparse_empty_root(),
{
    let tree = fuel_merkle::sparse::in_memory::MerkleTree::new();
    tree.root().to_vec()
}

/// Metadata for dense Merkle trees.
pub struct DenseMerkleMetadata {
    /// The root hash of the dense Merkle tree structure.
    pub root: MerkleRoot,
    /// The version equals the number of leaves ever appended to the tree's
    /// data set; appending one leaf increments it by one.
    pub version: u64,
}

impl DenseMerkleMetadata {
    pub open spec fn wf(self) -> bool {
        self.root.wf()
    }

    /// Advances the metadata past one appended leaf: the version grows by
    /// one and the root becomes the root the Merkle engine computed for the
    /// extended data set.
    pub fn with_appended_leaf(&self, new_root: MerkleRoot) -> (d: Self)
        requires
            self.version < u64::MAX,
            new_root.wf(),
        ensures
            d.version == self.version + 1,
            d.root@ == new_root@,
            d.wf(),
    {
        DenseMerkleMetadata { root: new_root, version: self.version + 1 }
    }
}

impl Default for DenseMerkleMetadata {
    /// The metadata of an empty dense tree: the fixed empty root, version 0.
    fn default() -> (d: Self)
        ensures
            d.root@ == dense_empty_root(),
            d.version == 0,
            d.wf(),
    {
        let root_bytes = binary_empty_root();
        DenseMerkleMetadata { root: Bytes32::new(root_bytes), version: 0 }
    }
}

/// Metadata for sparse Merkle trees.
pub struct SparseMerkleMetadata {
    /// The root hash of the sparse Merkle tree structure.
    pub root: MerkleRoot,
}

impl SparseMerkleMetadata {
    pub open spec fn wf(self) -> bool {
        self.root.wf()
    }
}

impl Default for SparseMerkleMetadata {
    /// The metadata of an empty sparse tree: the fixed empty root.
    fn default() -> (d: Self)
        ensures
            d.root@ == sparse_empty_root(),
            d.wf(),
    {
        let root_bytes = sparse_tree_empty_root();
        SparseMerkleMetadata { root: Bytes32::new(root_bytes) }
    }
}

} // verus!
