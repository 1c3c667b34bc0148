//! Byte-level and message-level decoder tests.

use rune_index::runestone::{
    decipher, Artifact, Flaw, RuneId, FLAG_CENOTAPH, FLAG_ETCHING, FLAG_TERMS, MAGIC, OP_RETURN,
    TAG_AMOUNT, TAG_BODY, TAG_CAP, TAG_FLAGS, TAG_MINT, TAG_POINTER, TAG_PREMINE, TAG_RUNE,
};
use rune_index::transaction::{OutPoint, Transaction, TxOut, Txid};
use rune_index::varint::{decode_integers, decode_varint, encode_integers};

fn txid(n: u128) -> Txid {
    Txid { hi: n, lo: n }
}

fn marker_script(ints: &[u128]) -> Vec<u8> {
    let vals: Vec<u128> = ints.to_vec();
    let payload = encode_integers(&vals);
    assert!(payload.len() <= 75);
    let mut s = vec![OP_RETURN, MAGIC, payload.len() as u8];
    s.extend(payload);
    s
}

fn tx_with_script(script: Vec<u8>, extra_outputs: usize) -> Transaction {
    let mut outputs = vec![TxOut { value: 0, script_pubkey: script }];
    for _ in 0..extra_outputs {
        outputs.push(TxOut { value: 1000, script_pubkey: vec![0x51] });
    }
    Transaction { txid: txid(1), inputs: vec![], outputs }
}

#[test]
fn varint_round_trip() {
    let vals: Vec<u128> = vec![0, 1, 127, 128, 255, 300, 16384, u128::MAX];
    let bytes = encode_integers(&vals);
    let back = decode_integers(&bytes).expect("canonical stream decodes");
    assert_eq!(back, vals);
    // Re-encoding the decoded values gives the identical byte sequence.
    assert_eq!(encode_integers(&back), bytes);
}

#[test]
fn varint_single_values() {
    let bytes = encode_integers(&vec![0]);
    assert_eq!(bytes, vec![0u8]);
    let bytes = encode_integers(&vec![128]);
    assert_eq!(bytes, vec![0x80u8, 0x01]);
    assert_eq!(decode_varint(&vec![0x80u8, 0x01], 0), Some((128, 2)));
}

#[test]
fn varint_rejects_truncation() {
    // A lone continuation byte is a truncated varint.
    assert_eq!(decode_integers(&vec![0x80u8]), None);
}

#[test]
fn varint_rejects_non_canonical() {
    // A trailing zero group encodes 0 in two bytes; only [0x00] is canonical.
    assert_eq!(decode_integers(&vec![0x80u8, 0x00]), None);
}

#[test]
fn decipher_none_without_marker() {
    let tx = Transaction {
        txid: txid(2),
        inputs: vec![OutPoint { txid: txid(9), vout: 0 }],
        outputs: vec![TxOut { value: 5, script_pubkey: vec![0x51] }],
    };
    assert!(decipher(&tx).is_none());
}

#[test]
fn decipher_runestone_round_trip() {
    // Hand-constructed field stream: etching with terms, a mint reference,
    // a pointer and two edicts.
    let ints = vec![
        TAG_FLAGS,
        FLAG_ETCHING | FLAG_TERMS,
        TAG_RUNE,
        99,
        TAG_PREMINE,
        1000,
        TAG_CAP,
        7,
        TAG_AMOUNT,
        50,
        TAG_MINT,
        3,
        TAG_MINT,
        1,
        TAG_POINTER,
        1,
        TAG_BODY,
        5,
        2,
        30,
        1,
        0,
        1,
        40,
        2,
    ];
    let tx = tx_with_script(marker_script(&ints), 2);
    match decipher(&tx) {
        Some(Artifact::Runestone(rs)) => {
            let et = rs.etching.expect("etching present");
            assert_eq!(et.rune, Some(99));
            assert_eq!(et.premine, 1000);
            let terms = et.terms.expect("terms present");
            assert_eq!(terms.cap, 7);
            assert_eq!(terms.amount, 50);
            assert_eq!(rs.mint, Some(RuneId { block: 3, tx: 1 }));
            assert_eq!(rs.pointer, Some(1));
            assert_eq!(rs.edicts.len(), 2);
            assert_eq!(rs.edicts[0].id, RuneId { block: 5, tx: 2 });
            assert_eq!(rs.edicts[0].amount, 30);
            assert_eq!(rs.edicts[0].output, 1);
            // The second edict's id is delta-encoded relative to the first.
            assert_eq!(rs.edicts[1].id, RuneId { block: 5, tx: 3 });
            assert_eq!(rs.edicts[1].amount, 40);
            assert_eq!(rs.edicts[1].output, 2);
        },
        other => panic!("expected a runestone, got {:?}", other.is_some()),
    }
}

#[test]
fn decipher_cenotaph_on_truncated_varint() {
    let script = vec![OP_RETURN, MAGIC, 1, 0x80];
    let tx = tx_with_script(script, 1);
    match decipher(&tx) {
        Some(Artifact::Cenotaph(c)) => {
            assert_eq!(c.flaw, Flaw::Varint);
            assert_eq!(c.mint, None);
        },
        _ => panic!("expected a cenotaph"),
    }
}

#[test]
fn decipher_cenotaph_on_flag() {
    let ints = vec![TAG_FLAGS, FLAG_CENOTAPH, TAG_MINT, 4, TAG_MINT, 2];
    let tx = tx_with_script(marker_script(&ints), 1);
    match decipher(&tx) {
        Some(Artifact::Cenotaph(c)) => {
            assert_eq!(c.flaw, Flaw::CenotaphFlag);
            // The mint reference survives, so it can still count at the cap.
            assert_eq!(c.mint, Some(RuneId { block: 4, tx: 2 }));
        },
        _ => panic!("expected a cenotaph"),
    }
}

#[test]
fn decipher_cenotaph_on_trailing_edict() {
    let ints = vec![TAG_BODY, 1, 1, 5];
    let tx = tx_with_script(marker_script(&ints), 1);
    match decipher(&tx) {
        Some(Artifact::Cenotaph(c)) => {
            assert_eq!(c.flaw, Flaw::TrailingEdict);
        },
        _ => panic!("expected a cenotaph"),
    }
}

#[test]
fn decipher_cenotaph_on_invalid_opcode() {
    // A non-push opcode inside the marker script.
    let script = vec![OP_RETURN, MAGIC, 0xA9];
    let tx = tx_with_script(script, 1);
    match decipher(&tx) {
        Some(Artifact::Cenotaph(c)) => {
            assert_eq!(c.flaw, Flaw::InvalidScript);
        },
        _ => panic!("expected a cenotaph"),
    }
}

#[test]
fn pushdata_payloads_decode() {
    // The same field stream carried through PUSHDATA1, PUSHDATA2 and
    // PUSHDATA4 pushes decodes like a direct push does.
    let vals: Vec<u128> = vec![rune_index::runestone::TAG_PREMINE, 7];
    let payload = encode_integers(&vals);
    let n = payload.len();
    let mut forms: Vec<Vec<u8>> = Vec::new();
    let mut s1 = vec![OP_RETURN, MAGIC, 0x4c, n as u8];
    s1.extend(payload.clone());
    forms.push(s1);
    let mut s2 = vec![OP_RETURN, MAGIC, 0x4d, n as u8, 0];
    s2.extend(payload.clone());
    forms.push(s2);
    let mut s4 = vec![OP_RETURN, MAGIC, 0x4e, n as u8, 0, 0, 0];
    s4.extend(payload.clone());
    forms.push(s4);
    for script in forms {
        let tx = tx_with_script(script, 1);
        match decipher(&tx) {
            Some(Artifact::Runestone(rs)) => {
                assert!(rs.etching.is_none());
                assert!(rs.edicts.is_empty());
            },
            _ => panic!("expected a runestone"),
        }
    }
}

#[test]
fn pushdata_truncated_is_invalid_script() {
    // A PUSHDATA2 whose announced length runs past the script's end.
    let script = vec![OP_RETURN, MAGIC, 0x4d, 9, 0, 1];
    let tx = tx_with_script(script, 1);
    match decipher(&tx) {
        Some(Artifact::Cenotaph(c)) => assert_eq!(c.flaw, Flaw::InvalidScript),
        _ => panic!("expected a cenotaph"),
    }
}

#[test]
fn unknown_tags_are_ignored() {
    let ints = vec![9999, 5, TAG_PREMINE, 1, TAG_FLAGS, FLAG_ETCHING];
    let tx = tx_with_script(marker_script(&ints), 1);
    match decipher(&tx) {
        Some(Artifact::Runestone(rs)) => {
            let et = rs.etching.expect("etching present");
            assert_eq!(et.premine, 1);
            assert!(et.terms.is_none());
        },
        _ => panic!("expected a runestone"),
    }
}
