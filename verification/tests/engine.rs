//! Block-level scenarios: etching, minting, edicts, cenotaphs, reorgs.

use rune_index::ledger::Ledger;
use rune_index::lot::Lot;
use rune_index::runestone::{
    RuneId, FLAG_CENOTAPH, FLAG_ETCHING, FLAG_TERMS, MAGIC, OP_RETURN, TAG_AMOUNT, TAG_BODY,
    TAG_CAP, TAG_FLAGS, TAG_MINT, TAG_PREMINE, TAG_RUNE,
};
use rune_index::transaction::{Block, BlockHash, OutPoint, Transaction, TxOut, Txid};
use rune_index::runestone::Edict;
use rune_index::updater::{distribute, BlockError};
use rune_index::varint::encode_integers;

fn txid(n: u128) -> Txid {
    Txid { hi: n, lo: 0 }
}

fn hash(n: u128) -> BlockHash {
    BlockHash { hi: n, lo: 0 }
}

fn marker_output(ints: &[u128]) -> TxOut {
    let vals: Vec<u128> = ints.to_vec();
    let payload = encode_integers(&vals);
    assert!(payload.len() <= 75);
    let mut s = vec![OP_RETURN, MAGIC, payload.len() as u8];
    s.extend(payload);
    TxOut { value: 0, script_pubkey: s }
}

fn plain_output() -> TxOut {
    TxOut { value: 1000, script_pubkey: vec![0x51] }
}

fn block(height: u32, prev: BlockHash, this: BlockHash, txdata: Vec<Transaction>) -> Block {
    Block { hash: this, prev_hash: prev, height, time: 1000 + height as u64, txdata }
}

fn etch_tx(id: u128, premine: u128, cap: u128, amount: u128) -> Transaction {
    let mut ints = vec![TAG_FLAGS, FLAG_ETCHING, TAG_RUNE, 7777, TAG_PREMINE, premine];
    if cap > 0 {
        ints[1] = FLAG_ETCHING | FLAG_TERMS;
        ints.extend([TAG_CAP, cap, TAG_AMOUNT, amount]);
    }
    Transaction {
        txid: txid(id),
        inputs: vec![],
        outputs: vec![marker_output(&ints), plain_output()],
    }
}

fn mint_tx(id: u128, rune: RuneId) -> Transaction {
    let ints = vec![TAG_MINT, rune.block as u128, TAG_MINT, rune.tx as u128];
    Transaction {
        txid: txid(id),
        inputs: vec![],
        outputs: vec![marker_output(&ints), plain_output()],
    }
}

/// A transaction that just spends outpoints, with a marker moving everything
/// to output 1 by default (no edicts, no etching).
fn move_tx(id: u128, spends: &[(u128, u32)]) -> Transaction {
    Transaction {
        txid: txid(id),
        inputs: spends.iter().map(|&(t, v)| OutPoint { txid: txid(t), vout: v }).collect(),
        outputs: vec![marker_output(&[]), plain_output()],
    }
}

#[test]
fn etch_credits_premine() {
    let mut l = Ledger::new(10);
    let b0 = block(0, hash(0), hash(1), vec![etch_tx(100, 500, 0, 0)]);
    assert_eq!(l.process_block(&b0), Ok(()));
    let id = RuneId { block: 0, tx: 0 };
    let e = l.get_entry(id).expect("etched");
    assert_eq!(e.premine, 500);
    assert_eq!(e.mints, 0);
    assert_eq!(e.burned, 0);
    assert_eq!(e.number, 0);
    assert_eq!(e.rune, Some(7777));
    let bal = l.get_outpoint_balances(OutPoint { txid: txid(100), vout: 1 }).expect("premine out");
    assert_eq!(bal, vec![(id, Lot { value: 500 })]);
}

#[test]
fn edict_split_example() {
    // Unallocated {R: 100}; edicts [(R, 30, out1), (R, rest, out2)]
    // yield out1 -> 30, out2 -> 70.
    let mut l = Ledger::new(10);
    let b0 = block(0, hash(0), hash(1), vec![etch_tx(100, 100, 0, 0)]);
    assert_eq!(l.process_block(&b0), Ok(()));
    let r = RuneId { block: 0, tx: 0 };
    let ints = vec![TAG_BODY, 0, 0, 30, 1, 0, 0, 0, 2];
    let spend = Transaction {
        txid: txid(200),
        inputs: vec![OutPoint { txid: txid(100), vout: 1 }],
        outputs: vec![marker_output(&ints), plain_output(), plain_output()],
    };
    let b1 = block(1, hash(1), hash(2), vec![spend]);
    assert_eq!(l.process_block(&b1), Ok(()));
    let b_one = l.get_outpoint_balances(OutPoint { txid: txid(200), vout: 1 }).expect("out1");
    assert_eq!(b_one, vec![(r, Lot { value: 30 })]);
    let b_two = l.get_outpoint_balances(OutPoint { txid: txid(200), vout: 2 }).expect("out2");
    assert_eq!(b_two, vec![(r, Lot { value: 70 })]);
    // The consumed outpoint is gone.
    assert!(l.get_outpoint_balances(OutPoint { txid: txid(100), vout: 1 }).is_none());
}

#[test]
fn mint_cap_enforced() {
    // Cap 2, 10 per mint: the third attempt mints nothing and leaves the
    // counter unchanged.
    let mut l = Ledger::new(10);
    let r = RuneId { block: 0, tx: 0 };
    assert_eq!(l.process_block(&block(0, hash(0), hash(1), vec![etch_tx(100, 0, 2, 10)])), Ok(()));
    assert_eq!(l.process_block(&block(1, hash(1), hash(2), vec![mint_tx(101, r)])), Ok(()));
    assert_eq!(l.process_block(&block(2, hash(2), hash(3), vec![mint_tx(102, r)])), Ok(()));
    assert_eq!(l.get_entry(r).unwrap().mints, 2);
    let second = l.get_outpoint_balances(OutPoint { txid: txid(102), vout: 1 }).expect("minted");
    assert_eq!(second, vec![(r, Lot { value: 10 })]);
    // mints == cap: the next attempt is ineligible.
    assert_eq!(l.process_block(&block(3, hash(3), hash(4), vec![mint_tx(103, r)])), Ok(()));
    assert_eq!(l.get_entry(r).unwrap().mints, 2);
    assert!(l.get_outpoint_balances(OutPoint { txid: txid(103), vout: 1 }).is_none());
}

#[test]
fn cenotaph_burns_everything() {
    // A truncated varint yields a cenotaph: the gathered balance is burned,
    // no output receives anything, and no registry row is created.
    let mut l = Ledger::new(10);
    assert_eq!(l.process_block(&block(0, hash(0), hash(1), vec![etch_tx(100, 80, 0, 0)])), Ok(()));
    let r = RuneId { block: 0, tx: 0 };
    let ceno = Transaction {
        txid: txid(200),
        inputs: vec![OutPoint { txid: txid(100), vout: 1 }],
        outputs: vec![
            TxOut { value: 0, script_pubkey: vec![OP_RETURN, MAGIC, 1, 0x80] },
            plain_output(),
        ],
    };
    assert_eq!(l.process_block(&block(1, hash(1), hash(2), vec![ceno])), Ok(()));
    assert!(l.get_outpoint_balances(OutPoint { txid: txid(200), vout: 0 }).is_none());
    assert!(l.get_outpoint_balances(OutPoint { txid: txid(200), vout: 1 }).is_none());
    assert!(l.get_outpoint_balances(OutPoint { txid: txid(100), vout: 1 }).is_none());
    let e = l.get_entry(r).unwrap();
    assert_eq!(e.burned, 80);
    assert_eq!(e.mints, 0);
}

#[test]
fn distribute_follows_edicts_exactly() {
    // Unallocated {R: 100}; edicts [(R, 30, out1), (R, rest, out2)] with
    // three outputs, no pointer, marker at 0: out1 gets 30, out2 gets 70,
    // nothing is burned.
    let r = RuneId { block: 7, tx: 1 };
    let un = vec![(r, Lot { value: 100 })];
    let edicts = vec![
        Edict { id: r, amount: 30, output: 1 },
        Edict { id: r, amount: 0, output: 2 },
    ];
    let (allocated, burned) = distribute(un, &edicts, 3, None, 0);
    assert_eq!(allocated.len(), 3);
    assert!(allocated[0].is_empty());
    assert_eq!(allocated[1], vec![(r, Lot { value: 30 })]);
    assert_eq!(allocated[2], vec![(r, Lot { value: 70 })]);
    assert!(burned.is_empty());
}

#[test]
fn distribute_burns_without_target() {
    // One output, which is the marker, and no pointer: the leftover has
    // nowhere to go and is burned.
    let r = RuneId { block: 7, tx: 1 };
    let un = vec![(r, Lot { value: 5 })];
    let (allocated, burned) = distribute(un, &Vec::new(), 1, None, 0);
    assert_eq!(allocated.len(), 1);
    assert!(allocated[0].is_empty());
    assert_eq!(burned, vec![(r, Lot { value: 5 })]);
}

#[test]
fn cenotaph_mint_still_counts_but_burns() {
    // An eligible mint inside a cenotaph advances the counter, yet the
    // minted amount is burned rather than credited to any output.
    let mut l = Ledger::new(10);
    let r = RuneId { block: 0, tx: 0 };
    assert_eq!(l.process_block(&block(0, hash(0), hash(1), vec![etch_tx(100, 0, 2, 10)])), Ok(()));
    let ints = vec![TAG_FLAGS, FLAG_CENOTAPH, TAG_MINT, 0, TAG_MINT, 0];
    let ceno = Transaction {
        txid: txid(200),
        inputs: vec![],
        outputs: vec![marker_output(&ints), plain_output()],
    };
    assert_eq!(l.process_block(&block(1, hash(1), hash(2), vec![ceno])), Ok(()));
    let e = l.get_entry(r).unwrap();
    assert_eq!(e.mints, 1);
    assert_eq!(e.burned, 10);
    assert!(l.get_outpoint_balances(OutPoint { txid: txid(200), vout: 1 }).is_none());
}

#[test]
fn conservation_after_blocks() {
    // Issued supply equals live balances plus burned, block after block.
    let mut l = Ledger::new(10);
    let r = RuneId { block: 0, tx: 0 };
    assert_eq!(
        l.process_block(&block(0, hash(0), hash(1), vec![etch_tx(100, 100, 3, 7)])),
        Ok(()),
    );
    assert_eq!(l.process_block(&block(1, hash(1), hash(2), vec![mint_tx(101, r)])), Ok(()));
    let e = l.get_entry(r).unwrap();
    let issued = e.premine + 7 * e.mints;
    let live_a = l
        .get_outpoint_balances(OutPoint { txid: txid(100), vout: 1 })
        .map(|b| b[0].1.value)
        .unwrap_or(0);
    let live_b = l
        .get_outpoint_balances(OutPoint { txid: txid(101), vout: 1 })
        .map(|b| b[0].1.value)
        .unwrap_or(0);
    assert_eq!(live_a + live_b + e.burned, issued);
}

#[test]
fn reprocessing_a_block_is_rejected() {
    let mut l = Ledger::new(10);
    let b0 = block(0, hash(0), hash(1), vec![etch_tx(100, 500, 0, 0)]);
    assert_eq!(l.process_block(&b0), Ok(()));
    let cp = l.get_checkpoint();
    assert_eq!(l.process_block(&b0), Err(BlockError::NotNext));
    assert_eq!(l.get_checkpoint(), cp);
    assert_eq!(l.get_entry(RuneId { block: 0, tx: 0 }).unwrap().premine, 500);
}

#[test]
fn wrong_prev_hash_reports_reorg() {
    let mut l = Ledger::new(10);
    assert_eq!(l.process_block(&block(0, hash(0), hash(1), vec![])), Ok(()));
    let bad = block(1, hash(99), hash(2), vec![]);
    assert_eq!(l.process_block(&bad), Err(BlockError::ReorgDetected));
    assert_eq!(l.get_checkpoint().unwrap().height, 0);
}

#[test]
fn overflow_aborts_block_without_partial_writes() {
    // Premine of the full amount range plus one mint of the same size
    // cannot be folded into one unallocated balance: the block aborts.
    let mut l = Ledger::new(10);
    let r = RuneId { block: 0, tx: 0 };
    assert_eq!(
        l.process_block(&block(0, hash(0), hash(1), vec![etch_tx(100, u128::MAX, 1, u128::MAX)])),
        Ok(()),
    );
    let mut bad_mint = mint_tx(101, r);
    bad_mint.inputs = vec![OutPoint { txid: txid(100), vout: 1 }];
    assert_eq!(
        l.process_block(&block(1, hash(1), hash(2), vec![bad_mint])),
        Err(BlockError::Arithmetic),
    );
    // Nothing was committed: the checkpoint and all balances are intact.
    assert_eq!(l.get_checkpoint().unwrap().height, 0);
    assert_eq!(l.get_entry(r).unwrap().mints, 0);
    let bal = l.get_outpoint_balances(OutPoint { txid: txid(100), vout: 1 }).expect("intact");
    assert_eq!(bal, vec![(r, Lot { value: u128::MAX })]);
}

#[test]
fn rollback_on_empty_undo_reports_false() {
    let mut l = Ledger::new(10);
    assert!(!l.rollback_last_commit());
}

#[test]
fn fork_replay_matches_direct_processing() {
    // A -> B -> C, then roll back C and B and play B' -> C': the ledger is
    // identical to one that saw A -> B' -> C' directly.
    let a = block(0, hash(0), hash(1), vec![etch_tx(100, 100, 0, 0)]);
    let b = block(1, hash(1), hash(2), vec![move_tx(200, &[(100, 1)])]);
    let c = block(2, hash(2), hash(3), vec![move_tx(201, &[(200, 1)])]);
    let b2 = block(1, hash(1), hash(20), vec![move_tx(300, &[(100, 1)])]);
    let c2 = block(2, hash(20), hash(30), vec![move_tx(301, &[(300, 1)])]);
    let r = RuneId { block: 0, tx: 0 };

    let mut replayed = Ledger::new(10);
    assert_eq!(replayed.process_block(&a), Ok(()));
    assert_eq!(replayed.process_block(&b), Ok(()));
    assert_eq!(replayed.process_block(&c), Ok(()));
    // The fork arrives: its first block is not the next one and its parent
    // hash does not match, so the driver rolls back to the fork point.
    assert_eq!(replayed.process_block(&b2), Err(BlockError::NotNext));
    assert!(replayed.rollback_last_commit());
    assert!(replayed.rollback_last_commit());
    assert_eq!(replayed.process_block(&b2), Ok(()));
    assert_eq!(replayed.process_block(&c2), Ok(()));

    let mut direct = Ledger::new(10);
    assert_eq!(direct.process_block(&a), Ok(()));
    assert_eq!(direct.process_block(&b2), Ok(()));
    assert_eq!(direct.process_block(&c2), Ok(()));

    assert_eq!(replayed.get_checkpoint(), direct.get_checkpoint());
    let final_out = OutPoint { txid: txid(301), vout: 1 };
    assert_eq!(
        replayed.get_outpoint_balances(final_out),
        direct.get_outpoint_balances(final_out),
    );
    assert_eq!(
        replayed.get_outpoint_balances(final_out),
        Some(vec![(r, Lot { value: 100 })]),
    );
    // The abandoned branch's outpoints exist in neither ledger.
    assert!(replayed.get_outpoint_balances(OutPoint { txid: txid(201), vout: 1 }).is_none());
    assert!(direct.get_outpoint_balances(OutPoint { txid: txid(201), vout: 1 }).is_none());
    let re = replayed.get_entry(r).unwrap();
    let de = direct.get_entry(r).unwrap();
    assert_eq!(re.premine, de.premine);
    assert_eq!(re.mints, de.mints);
    assert_eq!(re.burned, de.burned);
    assert_eq!(re.number, de.number);
}
