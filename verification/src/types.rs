//! Domain identifier and value types of the storage layer, together with
//! their byte encodings.
//!
//! Identifiers are stored under byte-encoded keys whose lexicographic order
//! agrees with the natural order of the identifier, so range iteration and
//! cursoring over encoded keys walk identifiers in their own order. The
//! lemmas at the end of this module state that agreement.

use vstd::prelude::*;

use crate::bytes::copy_bytes;
use crate::bytes::lex_less;

verus! {

/// A wallet or contract owner address: 32 bytes.
pub struct Address {
    pub bytes: Vec<u8>,
}

/// A unique identifier of a bridged message: 32 bytes.
pub struct Nonce {
    pub bytes: Vec<u8>,
}

/// A 32-byte word, used for transaction ids and Merkle roots.
pub struct Bytes32 {
    pub bytes: Vec<u8>,
}

/// A unique identifier of a block: 32 bytes.
pub struct BlockId {
    pub bytes: Vec<u8>,
}

/// A unique identifier of a contract: 32 bytes.
pub struct ContractId {
    pub bytes: Vec<u8>,
}

/// The id of a confirmed transaction.
pub type TxId = Bytes32;

/// The root hash of a Merkle tree.
pub type MerkleRoot = Bytes32;

/// The height of a block in the chain.
pub type BlockHeight = u32;

impl View for Address {
    type V = Seq<u8>;

    open spec fn view(&self) -> Seq<u8> {
        self.bytes@
    }
}

impl Address {
    pub open spec fn wf(self) -> bool {
        self.bytes@.len() == 32
    }

    pub fn new(bytes: Vec<u8>) -> (r: Self)
        requires
            bytes@.len() == 32,
        ensures
            r@ == bytes@,
            r.wf(),
    {
        Address { bytes }
    }

    pub fn duplicate(&self) -> (r: Self)
        ensures
            r@ == self@,
            r.wf() == self.wf(),
    {
        Address { bytes: copy_bytes(&self.bytes) }
    }
}

impl View for Nonce {
    type V = Seq<u8>;

    open spec fn view(&self) -> Seq<u8> {
        self.bytes@
    }
}

impl Nonce {
    pub open spec fn wf(self) -> bool {
        self.bytes@.len() == 32
    }

    pub fn new(bytes: Vec<u8>) -> (r: Self)
        requires
            bytes@.len() == 32,
        ensures
            r@ == bytes@,
            r.wf(),
    {
        Nonce { bytes }
    }

    pub fn duplicate(&self) -> (r: Self)
        ensures
            r@ == self@,
            r.wf() == self.wf(),
    {
        Nonce { bytes: copy_bytes(&self.bytes) }
    }
}

impl View for Bytes32 {
    type V = Seq<u8>;

    open spec fn view(&self) -> Seq<u8> {
        self.bytes@
    }
}

impl Bytes32 {
    pub open spec fn wf(self) -> bool {
        self.bytes@.len() == 32
    }

    pub fn new(bytes: Vec<u8>) -> (r: Self)
        requires
            bytes@.len() == 32,
        ensures
            r@ == bytes@,
            r.wf(),
    {
        Bytes32 { bytes }
    }

    pub fn duplicate(&self) -> (r: Self)
        ensures
            r@ == self@,
            r.wf() == self.wf(),
    {
        Bytes32 { bytes: copy_bytes(&self.bytes) }
    }
}

impl View for BlockId {
    type V = Seq<u8>;

    open spec fn view(&self) -> Seq<u8> {
        self.bytes@
    }
}

impl BlockId {
    pub open spec fn wf(self) -> bool {
        self.bytes@.len() == 32
    }

    pub fn new(bytes: Vec<u8>) -> (r: Self)
        requires
            bytes@.len() == 32,
        ensures
            r@ == bytes@,
            r.wf(),
    {
        BlockId { bytes }
    }
}

impl View for ContractId {
    type V = Seq<u8>;

    open spec fn view(&self) -> Seq<u8> {
        self.bytes@
    }
}

impl ContractId {
    pub open spec fn wf(self) -> bool {
        self.bytes@.len() == 32
    }

    pub fn new(bytes: Vec<u8>) -> (r: Self)
        requires
            bytes@.len() == 32,
        ensures
            r@ == bytes@,
            r.wf(),
    {
        ContractId { bytes }
    }
}

/// An unspent transaction output identifier: the producing transaction and
/// the index of the output within it.
pub struct UtxoId {
    pub tx_id: TxId,
    pub output_index: u16,
}

impl UtxoId {
    pub open spec fn wf(self) -> bool {
        self.tx_id.wf()
    }

    pub fn duplicate(&self) -> (r: Self)
        ensures
            r.tx_id@ == self.tx_id@,
            r.output_index == self.output_index,
            r.wf() == self.wf(),
    {
        UtxoId { tx_id: self.tx_id.duplicate(), output_index: self.output_index }
    }
}

/// The natural order of UTXO identifiers: by transaction id, then by output
/// index.
pub open spec fn utxo_lt(a: UtxoId, b: UtxoId) -> bool {
    lex_less(a.tx_id@, b.tx_id@) || (a.tx_id@ == b.tx_id@ && a.output_index < b.output_index)
}

/// The position of a transaction in the chain: block height, then the index
/// of the transaction inside the block. This composite key gives transaction
/// history a stable, chronological pagination order.
#[derive(Clone, Copy, Debug, PartialEq, Eq, Structural)]
pub struct TxPointer {
    pub block_height: u32,
    pub tx_index: u16,
}

/// The chronological order of transaction pointers.
pub open spec fn tx_pointer_lt(a: TxPointer, b: TxPointer) -> bool {
    a.block_height < b.block_height || (a.block_height == b.block_height && a.tx_index
        < b.tx_index)
}

/// The status of a transaction, recorded by the indexing worker.
#[derive(Clone, Copy, Debug, PartialEq, Eq, Structural)]
pub enum TransactionStatus {
    /// Accepted into the pool, not yet included in a block.
    Submitted { time: u64 },
    /// Included in a block and executed successfully.
    Success { block_height: u32, time: u64 },
    /// Removed from the pool without execution.
    SqueezedOut,
    /// Included in a block and failed during execution.
    Failed { block_height: u32, time: u64 },
}

/// Big-endian encoding of a 16-bit integer.
pub open spec fn be16(x: u16) -> Seq<u8> {
    seq![(x / 256) as u8, (x % 256) as u8]
}

/// Big-endian encoding of a 32-bit integer.
pub open spec fn be32(x: u32) -> Seq<u8> {
    seq![
        (x / 0x1000000) as u8,
        ((x / 0x10000) % 256) as u8,
        ((x / 256) % 256) as u8,
        (x % 256) as u8,
    ]
}

/// Big-endian encoding of a 64-bit integer.
pub open spec fn be64(x: u64) -> Seq<u8> {
    seq![
        (x / 0x100000000000000) as u8,
        ((x / 0x1000000000000) % 256) as u8,
        ((x / 0x10000000000) % 256) as u8,
        ((x / 0x100000000) % 256) as u8,
        ((x / 0x1000000) % 256) as u8,
        ((x / 0x10000) % 256) as u8,
        ((x / 256) % 256) as u8,
        (x % 256) as u8,
    ]
}

/// Appends the big-endian bytes of `x` to `out`.
pub fn push_be64(out: &mut Vec<u8>, x: u64)
    ensures
        final(out)@ == old(out)@ + be64(x),
{
    out.push((x / 0x100000000000000) as u8);
    out.push(((x / 0x1000000000000) % 256) as u8);
    out.push(((x / 0x10000000000) % 256) as u8);
    out.push(((x / 0x100000000) % 256) as u8);
    out.push(((x / 0x1000000) % 256) as u8);
    out.push(((x / 0x10000) % 256) as u8);
    out.push(((x / 256) % 256) as u8);
    out.push((x % 256) as u8);
    proof {
        assert(out@ =~= old(out)@ + be64(x));
    }
}

/// The byte encoding of a UTXO identifier: transaction id, then the output
/// index big-endian.
pub open spec fn utxo_bytes(u: UtxoId) -> Seq<u8> {
    u.tx_id@ + be16(u.output_index)
}

/// The byte encoding of a transaction pointer: block height, then the index
/// inside the block, both big-endian.
pub open spec fn tx_pointer_bytes(p: TxPointer) -> Seq<u8> {
    be32(p.block_height) + be16(p.tx_index)
}

/// Appends the big-endian bytes of `x` to `out`.
pub fn push_be16(out: &mut Vec<u8>, x: u16)
    ensures
        final(out)@ == old(out)@ + be16(x),
{
    out.push((x / 256) as u8);
    out.push((x % 256) as u8);
    proof {
        assert(out@ =~= old(out)@ + be16(x));
    }
}

/// Appends the big-endian bytes of `x` to `out`.
pub fn push_be32(out: &mut Vec<u8>, x: u32)
    ensures
        final(out)@ == old(out)@ + be32(x),
{
    out.push((x / 0x1000000) as u8);
    out.push(((x / 0x10000) % 256) as u8);
    out.push(((x / 256) % 256) as u8);
    out.push((x % 256) as u8);
    proof {
        assert(out@ =~= old(out)@ + be32(x));
    }
}

/// Reads a big-endian 16-bit integer from two bytes.
pub fn read_be16(hi: u8, lo: u8) -> (x: u16)
    ensures
        be16(x) == seq![hi, lo],
{
    let x: u16 = (hi as u16) * 256 + (lo as u16);
    proof {
        assert(x / 256 == hi as u16);
        assert(x % 256 == lo as u16);
        assert(be16(x) =~= seq![hi, lo]);
    }
    x
}

/// Reads a big-endian 32-bit integer from four bytes.
pub fn read_be32(b0: u8, b1: u8, b2: u8, b3: u8) -> (x: u32)
    ensures
        be32(x) == seq![b0, b1, b2, b3],
{
    let x: u32 = (b0 as u32) * 0x1000000 + (b1 as u32) * 0x10000 + (b2 as u32) * 256 + (
    b3 as u32);
    proof {
        assert(x / 0x1000000 == b0 as u32);
        assert((x / 0x10000) % 256 == b1 as u32);
        assert((x / 256) % 256 == b2 as u32);
        assert(x % 256 == b3 as u32);
        assert(be32(x) =~= seq![b0, b1, b2, b3]);
    }
    x
}

/// The big-endian encoding of 16-bit integers respects their order.
pub proof fn lemma_be16_order(x: u16, y: u16)
    ensures
        lex_less(be16(x), be16(y)) == (x < y),
{
    let a = be16(x);
    let b = be16(y);
    assert(a.skip(1) =~= seq![(x % 256) as u8]);
    assert(b.skip(1) =~= seq![(y % 256) as u8]);
    assert(a.skip(1).skip(1) =~= Seq::<u8>::empty());
    assert(b.skip(1).skip(1) =~= Seq::<u8>::empty());
    assert(!lex_less(Seq::<u8>::empty(), Seq::<u8>::empty()));
    assert(lex_less(a.skip(1), b.skip(1)) == ((x % 256) < (y % 256)));
    assert(lex_less(a, b) == (x / 256 < y / 256 || (x / 256 == y / 256 && x % 256 < y % 256)));
}

/// The big-endian encoding of 32-bit integers respects their order.
pub proof fn lemma_be32_order(x: u32, y: u32)
    ensures
        lex_less(be32(x), be32(y)) == (x < y),
{
    let a = be32(x);
    let b = be32(y);
    let a1 = a.skip(1);
    let b1 = b.skip(1);
    let a2 = a1.skip(1);
    let b2 = b1.skip(1);
    let a3 = a2.skip(1);
    let b3 = b2.skip(1);
    assert(a1 =~= seq![((x / 0x10000) % 256) as u8, ((x / 256) % 256) as u8, (x % 256) as u8]);
    assert(b1 =~= seq![((y / 0x10000) % 256) as u8, ((y / 256) % 256) as u8, (y % 256) as u8]);
    assert(a2 =~= seq![((x / 256) % 256) as u8, (x % 256) as u8]);
    assert(b2 =~= seq![((y / 256) % 256) as u8, (y % 256) as u8]);
    assert(a3 =~= seq![(x % 256) as u8]);
    assert(b3 =~= seq![(y % 256) as u8]);
    assert(a3.skip(1) =~= Seq::<u8>::empty());
    assert(b3.skip(1) =~= Seq::<u8>::empty());
    assert(!lex_less(Seq::<u8>::empty(), Seq::<u8>::empty()));
    assert(lex_less(a3, b3) == ((x % 256) < (y % 256)));
    assert(lex_less(a2, b2) == ((x / 256) % 256 < (y / 256) % 256 || ((x / 256) % 256 == (y / 256)
        % 256 && x % 256 < y % 256)));
    assert(lex_less(a1, b1) == ((x / 0x10000) % 256 < (y / 0x10000) % 256 || ((x / 0x10000) % 256
        == (y / 0x10000) % 256 && lex_less(a2, b2))));
    assert(lex_less(a, b) == (x / 0x1000000 < y / 0x1000000 || (x / 0x1000000 == y / 0x1000000
        && lex_less(a1, b1))));
    assert((x / 0x1000000 < y / 0x1000000 || (x / 0x1000000 == y / 0x1000000 && ((x / 0x10000)
        % 256 < (y / 0x10000) % 256 || ((x / 0x10000) % 256 == (y / 0x10000) % 256 && ((x / 256)
        % 256 < (y / 256) % 256 || ((x / 256) % 256 == (y / 256) % 256 && x % 256 < y % 256))))))
        == (x < y)) by (nonlinear_arith);
}

} // verus!
