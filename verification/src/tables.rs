//! The table registry: one schema per domain entity, and a typed table built
//! on the uniform byte-keyed store.
//!
//! Each schema binds a key type to a value type and says how the key is
//! encoded for the byte store; `Table` then offers the typed `get` / `insert`
//! contract over that encoding. The set of tables is closed and known at
//! build time: one marker type per entity, resolved statically.

use vstd::prelude::*;

use crate::bytes::copy_bytes;
use crate::kv::KvStore;
use crate::merkle::DenseMerkleMetadata;
use crate::merkle::SparseMerkleMetadata;
use crate::types::BlockHeight;
use crate::types::BlockId;
use crate::types::Bytes32;
use crate::types::ContractId;
use crate::types::Nonce;
use crate::types::TxId;
use crate::types::TxPointer;
use crate::types::UtxoId;
use crate::types::be32;
use crate::types::be64;
use crate::types::push_be16;
use crate::types::push_be32;
use crate::types::push_be64;
use crate::types::utxo_bytes;

verus! {

/// A table schema: the owned key and value types of one domain table, and
/// the byte encoding of its keys at the storage boundary.
pub trait Mappable {
    /// The owned representation of the table's key.
    type OwnedKey;

    /// The owned representation of the table's value.
    type OwnedValue;

    /// The byte encoding of a key, under which the entry is stored.
    spec fn key_bytes(k: Self::OwnedKey) -> Seq<u8>;

    /// Encodes a key for the byte store.
    fn encode_key(k: &Self::OwnedKey) -> (r: Vec<u8>)
        ensures
            r@ == Self::key_bytes(*k),
    ;
}

/// A typed table over the uniform byte-keyed store: upserting insert that
/// returns the previous value, and point lookup. Its view maps each key's
/// byte encoding to the stored value.
pub struct Table<T: Mappable> {
    store: KvStore<T::OwnedValue>,
}

impl<T: Mappable> View for Table<T> {
    type V = Map<Seq<u8>, T::OwnedValue>;

    closed spec fn view(&self) -> Map<Seq<u8>, T::OwnedValue> {
        self.store@
    }
}

impl<T: Mappable> Table<T> {
    pub closed spec fn wf(self) -> bool {
        self.store.wf()
    }

    /// An empty table.
    pub fn new() -> (r: Self)
        ensures
            r.wf(),
            r@ == Map::<Seq<u8>, T::OwnedValue>::empty(),
    {
        Table { store: KvStore::new() }
    }

    /// Returns the value stored for `key`, if any; absence is a valid state,
    /// not an error.
    pub fn get(&self, key: &T::OwnedKey) -> (r: Option<&T::OwnedValue>)
        requires
            self.wf(),
        ensures
            match r {
                Option::Some(v) => self@.dom().contains(T::key_bytes(*key)) && *v == self@[
                    T::key_bytes(*key)],
                Option::None => !self@.dom().contains(T::key_bytes(*key)),
            },
    {
        let kb = T::encode_key(key);
        self.store.get(&kb)
    }

    /// Upsert: stores `value` under `key` and returns the prior value if one
    /// was replaced.
    pub fn insert(&mut self, key: &T::OwnedKey, value: T::OwnedValue) -> (prev: Option<
        T::OwnedValue,
    >)
        requires
            old(self).wf(),
        ensures
            final(self).wf(),
            final(self)@ == old(self)@.insert(T::key_bytes(*key), value),
            match prev {
                Option::Some(v) => old(self)@.dom().contains(T::key_bytes(*key)) && v == old(
                    self,
                )@[T::key_bytes(*key)],
                Option::None => !old(self)@.dom().contains(T::key_bytes(*key)),
            },
    {
        let kb = T::encode_key(key);
        self.store.insert(kb, value)
    }
}

/// A block body in its compressed, storable form; opaque to this layer.
pub struct CompressedBlock {
    pub bytes: Vec<u8>,
}

/// The latest UTXO info of a contract: the unique id of its current state.
/// After each transaction the old UTXO is consumed and a new one is produced.
pub struct ContractUtxoInfo {
    pub utxo_id: UtxoId,
    pub tx_pointer: TxPointer,
}

/// One receipt of a transaction's side-effect log; opaque to this layer.
pub struct Receipt {
    pub bytes: Vec<u8>,
}

/// A consensus record sealing a block; opaque to this layer.
pub struct Consensus {
    pub bytes: Vec<u8>,
}

/// A coin in its compressed, storable form; opaque to this layer.
pub struct CompressedCoin {
    pub bytes: Vec<u8>,
}

/// A bridged message body; opaque to this layer.
pub struct Message {
    pub bytes: Vec<u8>,
}

/// A canonical confirmed transaction body; opaque to this layer.
pub struct Transaction {
    pub bytes: Vec<u8>,
}

/// A raw node of the dense (binary) Merkle tree; opaque to this layer.
pub struct BinaryTreeNode {
    pub bytes: Vec<u8>,
}

/// A raw node of a sparse Merkle tree; opaque to this layer.
pub struct SparseTreeNode {
    pub bytes: Vec<u8>,
}

/// The table of blocks, keyed by block id; one entry per finalized block.
pub struct FuelBlocks;

impl Mappable for FuelBlocks {
    type OwnedKey = BlockId;

    type OwnedValue = CompressedBlock;

    open spec fn key_bytes(k: BlockId) -> Seq<u8> {
        k@
    }

    fn encode_key(k: &BlockId) -> Vec<u8> {
        copy_bytes(&k.bytes)
    }
}

/// The latest UTXO info per contract: exactly one current entry per contract,
/// overwritten on each transaction touching the contract.
pub struct ContractsLatestUtxo;

impl Mappable for ContractsLatestUtxo {
    type OwnedKey = ContractId;

    type OwnedValue = ContractUtxoInfo;

    open spec fn key_bytes(k: ContractId) -> Seq<u8> {
        k@
    }

    fn encode_key(k: &ContractId) -> Vec<u8> {
        copy_bytes(&k.bytes)
    }
}

/// The side-effect log per transaction, keyed by transaction id; written once
/// and never mutated afterwards.
pub struct Receipts;

impl Mappable for Receipts {
    type OwnedKey = Bytes32;

    type OwnedValue = Vec<Receipt>;

    open spec fn key_bytes(k: Bytes32) -> Seq<u8> {
        k@
    }

    fn encode_key(k: &Bytes32) -> Vec<u8> {
        copy_bytes(&k.bytes)
    }
}

/// The consensus metadata of sealed (finalized) blocks, keyed by block id.
pub struct SealedBlockConsensus;

impl Mappable for SealedBlockConsensus {
    type OwnedKey = BlockId;

    type OwnedValue = Consensus;

    open spec fn key_bytes(k: BlockId) -> Seq<u8> {
        k@
    }

    fn encode_key(k: &BlockId) -> Vec<u8> {
        copy_bytes(&k.bytes)
    }
}

/// The table of coins: each compressed coin keyed by its unique UTXO id.
pub struct Coins;

impl Mappable for Coins {
    type OwnedKey = UtxoId;

    type OwnedValue = CompressedCoin;

    open spec fn key_bytes(k: UtxoId) -> Seq<u8> {
        utxo_bytes(k)
    }

    fn encode_key(k: &UtxoId) -> Vec<u8> {
        let mut r = copy_bytes(&k.tx_id.bytes);
        push_be16(&mut r, k.output_index);
        proof {
            assert(r@ =~= utxo_bytes(*k));
        }
        r
    }
}

/// The table of bridged messages, keyed by unique nonce.
pub struct Messages;

impl Mappable for Messages {
    type OwnedKey = Nonce;

    type OwnedValue = Message;

    open spec fn key_bytes(k: Nonce) -> Seq<u8> {
        k@
    }

    fn encode_key(k: &Nonce) -> Vec<u8> {
        copy_bytes(&k.bytes)
    }
}

/// Marks messages as spent: the presence of a key means the message is
/// spent; absence means unspent or unknown. The value is a zero-size marker.
pub struct SpentMessages;

impl Mappable for SpentMessages {
    type OwnedKey = Nonce;

    type OwnedValue = ();

    open spec fn key_bytes(k: Nonce) -> Seq<u8> {
        k@
    }

    fn encode_key(k: &Nonce) -> Vec<u8> {
        copy_bytes(&k.bytes)
    }
}

/// The table of confirmed transactions, keyed by transaction id.
pub struct Transactions;

impl Mappable for Transactions {
    type OwnedKey = TxId;

    type OwnedValue = Transaction;

    open spec fn key_bytes(k: TxId) -> Seq<u8> {
        k@
    }

    fn encode_key(k: &TxId) -> Vec<u8> {
        copy_bytes(&k.bytes)
    }
}

/// The table of already executed transactions, used to reject replays: the
/// presence of a key is the whole statement. The value is a zero-size marker.
pub struct ProcessedTransactions;

impl Mappable for ProcessedTransactions {
    type OwnedKey = TxId;

    type OwnedValue = ();

    open spec fn key_bytes(k: TxId) -> Seq<u8> {
        k@
    }

    fn encode_key(k: &TxId) -> Vec<u8> {
        copy_bytes(&k.bytes)
    }
}

/// The raw node data of the dense Merkle tree over blocks, keyed by leaf
/// position.
pub struct FuelBlockMerkleData;

impl Mappable for FuelBlockMerkleData {
    type OwnedKey = u64;

    type OwnedValue = BinaryTreeNode;

    open spec fn key_bytes(k: u64) -> Seq<u8> {
        be64(k)
    }

    fn encode_key(k: &u64) -> Vec<u8> {
        let mut r: Vec<u8> = Vec::new();
        push_be64(&mut r, *k);
        proof {
            assert(r@ =~= be64(*k));
        }
        r
    }
}

/// The metadata of the dense block tree, keyed by the block height at which
/// the snapshot was taken, so historical roots stay queryable.
pub struct FuelBlockMerkleMetadata;

impl Mappable for FuelBlockMerkleMetadata {
    type OwnedKey = BlockHeight;

    type OwnedValue = DenseMerkleMetadata;

    open spec fn key_bytes(k: BlockHeight) -> Seq<u8> {
        be32(k)
    }

    fn encode_key(k: &BlockHeight) -> Vec<u8> {
        let mut r: Vec<u8> = Vec::new();
        push_be32(&mut r, *k);
        proof {
            assert(r@ =~= be32(*k));
        }
        r
    }
}

/// The raw node data of the sparse Merkle tree over contract assets, keyed
/// by a 32-byte node path.
pub struct ContractsAssetsMerkleData;

impl Mappable for ContractsAssetsMerkleData {
    type OwnedKey = Bytes32;

    type OwnedValue = SparseTreeNode;

    open spec fn key_bytes(k: Bytes32) -> Seq<u8> {
        k@
    }

    fn encode_key(k: &Bytes32) -> Vec<u8> {
        copy_bytes(&k.bytes)
    }
}

/// The metadata of the sparse contract-assets trees, keyed by the owning
/// contract; only the current root is kept.
pub struct ContractsAssetsMerkleMetadata;

impl Mappable for ContractsAssetsMerkleMetadata {
    type OwnedKey = ContractId;

    type OwnedValue = SparseMerkleMetadata;

    open spec fn key_bytes(k: ContractId) -> Seq<u8> {
        k@
    }

    fn encode_key(k: &ContractId) -> Vec<u8> {
        copy_bytes(&k.bytes)
    }
}

/// The raw node data of the sparse Merkle tree over contract state, keyed by
/// a 32-byte node path.
pub struct ContractsStateMerkleData;

impl Mappable for ContractsStateMerkleData {
    type OwnedKey = Bytes32;

    type OwnedValue = SparseTreeNode;

    open spec fn key_bytes(k: Bytes32) -> Seq<u8> {
        k@
    }

    fn encode_key(k: &Bytes32) -> Vec<u8> {
        copy_bytes(&k.bytes)
    }
}

/// The metadata of the sparse contract-state trees, keyed by the owning
/// contract; only the current root is kept.
pub struct ContractsStateMerkleMetadata;

impl Mappable for ContractsStateMerkleMetadata {
    type OwnedKey = ContractId;

    type OwnedValue = SparseMerkleMetadata;

    open spec fn key_bytes(k: ContractId) -> Seq<u8> {
        k@
    }

    fn encode_key(k: &ContractId) -> Vec<u8> {
        copy_bytes(&k.bytes)
    }
}

} // verus!
