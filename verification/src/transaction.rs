//! Plain model of the base-chain data the engine reads: transactions, their
//! outputs and the outpoints their inputs spend, and block headers. The
//! upstream node hands these over as plain values; nothing here is computed
//! from raw chain bytes.

use vstd::prelude::*;

verus! {

/// A transaction id, carried as the two 128-bit halves of the 32-byte hash.
#[derive(Clone, Copy, Debug, PartialEq, Eq, Structural)]
pub struct Txid {
    pub hi: u128,
    pub lo: u128,
}

/// A block hash, carried the same way as a transaction id.
#[derive(Clone, Copy, Debug, PartialEq, Eq, Structural)]
pub struct BlockHash {
    pub hi: u128,
    pub lo: u128,
}

/// One output of an earlier transaction: the addressable unit that balances
/// attach to.
#[derive(Clone, Copy, Debug, PartialEq, Eq, Structural)]
pub struct OutPoint {
    pub txid: Txid,
    pub vout: u32,
}

/// One transaction output: a base-currency value and its locking script.
#[derive(Clone, Debug)]
pub struct TxOut {
    pub value: u64,
    pub script_pubkey: Vec<u8>,
}

/// Mathematical model of a [`TxOut`].
pub struct TxOutView {
    pub value: u64,
    pub script_pubkey: Seq<u8>,
}

impl View for TxOut {
    type V = TxOutView;

    open spec fn view(&self) -> TxOutView {
        TxOutView { value: self.value, script_pubkey: self.script_pubkey@ }
    }
}

/// A transaction: its id, the outpoints its inputs spend, and its outputs.
#[derive(Clone, Debug)]
pub struct Transaction {
    pub txid: Txid,
    pub inputs: Vec<OutPoint>,
    pub outputs: Vec<TxOut>,
}

/// Mathematical model of a [`Transaction`].
pub struct TransactionView {
    pub txid: Txid,
    pub inputs: Seq<OutPoint>,
    pub outputs: Seq<TxOutView>,
}

impl View for Transaction {
    type V = TransactionView;

    open spec fn view(&self) -> TransactionView {
        TransactionView {
            txid: self.txid,
            inputs: self.inputs@,
            outputs: self.outputs@.map_values(|o: TxOut| o@),
        }
    }
}

/// A block: header data and the transactions it carries, in block order.
#[derive(Clone, Debug)]
pub struct Block {
    pub hash: BlockHash,
    pub prev_hash: BlockHash,
    pub height: u32,
    pub time: u64,
    pub txdata: Vec<Transaction>,
}

/// Mathematical model of a [`Block`].
pub struct BlockView {
    pub hash: BlockHash,
    pub prev_hash: BlockHash,
    pub height: u32,
    pub time: u64,
    pub txdata: Seq<TransactionView>,
}

impl View for Block {
    type V = BlockView;

    open spec fn view(&self) -> BlockView {
        BlockView {
            hash: self.hash,
            prev_hash: self.prev_hash,
            height: self.height,
            time: self.time,
            txdata: self.txdata@.map_values(|t: Transaction| t@),
        }
    }
}

} // verus!
