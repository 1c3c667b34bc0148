//! Protocol decoder: turns a transaction into the message it carries, if any.
//!
//! The single recognized marker output is an unspendable data-carrying output
//! whose script starts with the data-carrying opcode followed by the protocol
//! magic. Its payload, the concatenation of the script's data pushes, is a
//! stream of varints read as tag/value fields; the body tag starts the edict
//! list. A payload that fails to decode yields a cenotaph rather than an
//! error: the message is recognized but burns what it touches.
//!
//! Decoding is a pure function of the transaction: the executable decoder is
//! proved equal to the specification-level one, so identical bytes always
//! yield the identical artifact.

use vstd::prelude::*;
use crate::transaction::{Transaction, TransactionView, TxOutView};
use crate::varint::{decode_integers, spec_decode_stream};

verus! {

/// The data-carrying opcode that opens a marker script.
pub const OP_RETURN: u8 = 0x6a;

/// The protocol magic opcode that follows it.
pub const MAGIC: u8 = 0x5d;

/// The opcode that gives the length of the next data push in one byte.
pub const OP_PUSHDATA1: u8 = 0x4c;

/// The opcode that gives the length of the next data push in two
/// little-endian bytes.
pub const OP_PUSHDATA2: u8 = 0x4d;

/// The opcode that gives the length of the next data push in four
/// little-endian bytes.
pub const OP_PUSHDATA4: u8 = 0x4e;

pub const TAG_BODY: u128 = 0;

pub const TAG_DIVISIBILITY: u128 = 1;

pub const TAG_FLAGS: u128 = 2;

pub const TAG_SPACERS: u128 = 3;

pub const TAG_RUNE: u128 = 4;

pub const TAG_SYMBOL: u128 = 5;

pub const TAG_PREMINE: u128 = 6;

pub const TAG_CAP: u128 = 8;

pub const TAG_AMOUNT: u128 = 10;

pub const TAG_HEIGHT_START: u128 = 12;

pub const TAG_HEIGHT_END: u128 = 14;

pub const TAG_OFFSET_START: u128 = 16;

pub const TAG_OFFSET_END: u128 = 18;

pub const TAG_MINT: u128 = 20;

pub const TAG_POINTER: u128 = 22;

pub const FLAG_ETCHING: u128 = 1;

pub const FLAG_TERMS: u128 = 2;

pub const FLAG_TURBO: u128 = 4;

pub const FLAG_CENOTAPH: u128 = 1u128 << 127;

/// Identifier of a token: the height of the block it was etched in and the
/// index of the etching transaction in that block. Ordering is lexicographic
/// on the pair.
#[derive(Clone, Copy, Debug, PartialEq, Eq, Structural)]
pub struct RuneId {
    pub block: u64,
    pub tx: u32,
}

impl RuneId {
    /// Lexicographic order on `(block, tx)`: the canonical order of ids.
    pub open spec fn spec_lt(self, other: RuneId) -> bool {
        self.block < other.block || (self.block == other.block && self.tx < other.tx)
    }

    /// Executable test of the canonical order.
    pub fn lt(self, other: RuneId) -> (r: bool)
        ensures
            r == self.spec_lt(other),
    {
        self.block < other.block || (self.block == other.block && self.tx < other.tx)
    }
}

/// One transfer instruction: move `amount` of token `id` to output `output`.
/// An amount of zero means the whole remaining unallocated balance; an
/// output index out of range for the transaction makes the edict ineligible.
#[derive(Clone, Copy, Debug, PartialEq, Eq, Structural)]
pub struct Edict {
    pub id: RuneId,
    pub amount: u128,
    pub output: u128,
}

/// Mint terms of a token: a hard cap on the number of mints, the amount each
/// mint issues, and an optional absolute or etching-relative height window.
#[derive(Clone, Copy, Debug)]
pub struct Terms {
    pub amount: u128,
    pub cap: u128,
    pub height_start: Option<u64>,
    pub height_end: Option<u64>,
    pub offset_start: Option<u64>,
    pub offset_end: Option<u64>,
}

/// A new-token declaration carried by a runestone.
#[derive(Clone, Copy, Debug)]
pub struct Etching {
    pub rune: Option<u128>,
    pub spacers: u32,
    pub symbol: Option<u32>,
    pub divisibility: u8,
    pub premine: u128,
    pub terms: Option<Terms>,
    pub turbo: bool,
}

/// Why a message was read as a cenotaph.
#[derive(Clone, Copy, Debug, PartialEq, Eq, Structural)]
pub enum Flaw {
    /// The marker script holds something besides data pushes, or a push runs
    /// past its end.
    InvalidScript,
    /// A varint in the payload is truncated or otherwise malformed.
    Varint,
    /// A tag at the end of the payload has no value.
    TruncatedField,
    /// The edict list ends inside a quadruple.
    TrailingEdict,
    /// An edict's id delta leaves the representable id range.
    EdictRuneId,
    /// The flags field has the cenotaph bit set.
    CenotaphFlag,
}

/// A well-formed message: what the transaction asks the engine to do.
#[derive(Clone, Debug)]
pub struct Runestone {
    pub etching: Option<Etching>,
    pub mint: Option<RuneId>,
    pub pointer: Option<u32>,
    pub edicts: Vec<Edict>,
}

/// Mathematical model of a [`Runestone`].
pub struct RunestoneView {
    pub etching: Option<Etching>,
    pub mint: Option<RuneId>,
    pub pointer: Option<u32>,
    pub edicts: Seq<Edict>,
}

impl View for Runestone {
    type V = RunestoneView;

    open spec fn view(&self) -> RunestoneView {
        RunestoneView {
            etching: self.etching,
            mint: self.mint,
            pointer: self.pointer,
            edicts: self.edicts@,
        }
    }
}

/// A malformed message. It burns everything the transaction touches; a mint
/// reference it carries still counts against the token's cap.
#[derive(Clone, Copy, Debug)]
pub struct Cenotaph {
    pub flaw: Flaw,
    pub mint: Option<RuneId>,
}

/// The decoded protocol message of one transaction.
#[derive(Clone, Debug)]
pub enum Artifact {
    Runestone(Runestone),
    Cenotaph(Cenotaph),
}

/// Mathematical model of an [`Artifact`].
pub enum ArtifactView {
    Runestone(RunestoneView),
    Cenotaph(Cenotaph),
}

impl View for Artifact {
    type V = ArtifactView;

    open spec fn view(&self) -> ArtifactView {
        match self {
            Artifact::Runestone(r) => ArtifactView::Runestone(r@),
            Artifact::Cenotaph(c) => ArtifactView::Cenotaph(*c),
        }
    }
}

/// The fields of a message, folded tag by tag; the first value of each tag
/// wins, later duplicates and unrecognized tags are ignored.
#[derive(Clone, Copy, Debug)]
pub struct Message {
    pub flags: Option<u128>,
    pub rune: Option<u128>,
    pub spacers: Option<u128>,
    pub symbol: Option<u128>,
    pub divisibility: Option<u128>,
    pub premine: Option<u128>,
    pub cap: Option<u128>,
    pub amount: Option<u128>,
    pub height_start: Option<u128>,
    pub height_end: Option<u128>,
    pub offset_start: Option<u128>,
    pub offset_end: Option<u128>,
    pub mint_block: Option<u128>,
    pub mint_tx: Option<u128>,
    pub pointer: Option<u128>,
}

impl Message {
    /// The empty message: no field seen yet.
    pub open spec fn spec_empty() -> Message {
        Message {
            flags: None,
            rune: None,
            spacers: None,
            symbol: None,
            divisibility: None,
            premine: None,
            cap: None,
            amount: None,
            height_start: None,
            height_end: None,
            offset_start: None,
            offset_end: None,
            mint_block: None,
            mint_tx: None,
            pointer: None,
        }
    }

    pub fn empty() -> (r: Message)
        ensures
            r == Message::spec_empty(),
    {
        Message {
            flags: None,
            rune: None,
            spacers: None,
            symbol: None,
            divisibility: None,
            premine: None,
            cap: None,
            amount: None,
            height_start: None,
            height_end: None,
            offset_start: None,
            offset_end: None,
            mint_block: None,
            mint_tx: None,
            pointer: None,
        }
    }
}

/// A marker script: the data-carrying opcode, then the protocol magic.
pub open spec fn is_marker_script(s: Seq<u8>) -> bool {
    s.len() >= 2 && s[0] == OP_RETURN && s[1] == MAGIC
}

/// Index of the first marker output at or after `i`, if any.
pub open spec fn spec_marker_index(outs: Seq<TxOutView>, i: int) -> Option<int>
    decreases outs.len() - i,
{
    if i < 0 || i >= outs.len() {
        None
    } else if is_marker_script(outs[i].script_pubkey) {
        Some(i)
    } else {
        spec_marker_index(outs, i + 1)
    }
}

/// The payload of a marker script: the concatenation of its data pushes from
/// offset `i` on, appended to `acc`; `None` when the script holds a non-push
/// opcode or a push runs past its end.
pub open spec fn spec_payload(s: Seq<u8>, i: int, acc: Seq<u8>) -> Option<Seq<u8>>
    decreases s.len() - i,
{
    if i < 0 {
        None
    } else if i >= s.len() {
        Some(acc)
    } else if s[i] <= 75 {
        if i + 1 + s[i] <= s.len() {
            spec_payload(s, i + 1 + s[i], acc + s.subrange(i + 1, i + 1 + s[i]))
        } else {
            None
        }
    } else if s[i] == OP_PUSHDATA1 {
        if i + 2 <= s.len() && i + 2 + s[i + 1] <= s.len() {
            spec_payload(s, i + 2 + s[i + 1], acc + s.subrange(i + 2, i + 2 + s[i + 1]))
        } else {
            None
        }
    } else if s[i] == OP_PUSHDATA2 {
        if i + 2 < s.len() {
            let n = s[i + 1] + 256 * s[i + 2];
            if n <= s.len() - i - 3 {
                spec_payload(s, i + 3 + n, acc + s.subrange(i + 3, i + 3 + n))
            } else {
                None
            }
        } else {
            None
        }
    } else if s[i] == OP_PUSHDATA4 {
        if i + 4 < s.len() {
            let n = s[i + 1] + 256 * s[i + 2] + 65536 * s[i + 3] + 16777216 * s[i + 4];
            if n <= s.len() - i - 5 {
                spec_payload(s, i + 5 + n, acc + s.subrange(i + 5, i + 5 + n))
            } else {
                None
            }
        } else {
            None
        }
    } else {
        None
    }
}

/// The id of the next edict, from the previous id and the two id integers:
/// a zero block delta advances the tx index, a nonzero one advances the block
/// and sets the tx index. `None` when the id leaves the representable range.
pub open spec fn spec_next_id(prev: RuneId, block_delta: u128, tx_val: u128) -> Option<RuneId> {
    if block_delta == 0 {
        if prev.tx + tx_val <= u32::MAX {
            Some(RuneId { block: prev.block, tx: (prev.tx + tx_val) as u32 })
        } else {
            None
        }
    } else {
        if prev.block + block_delta <= u64::MAX && tx_val <= u32::MAX {
            Some(RuneId { block: (prev.block + block_delta) as u64, tx: tx_val as u32 })
        } else {
            None
        }
    }
}

/// The edict list read from the body integers from `i` on: quadruples of
/// block delta, tx value, amount and output, ids reconstructed by running
/// sum so they never decrease.
pub open spec fn spec_edicts(ints: Seq<u128>, i: int, prev: RuneId, acc: Seq<Edict>) -> Result<
    Seq<Edict>,
    Flaw,
>
    decreases ints.len() - i,
{
    if i < 0 {
        Err(Flaw::TrailingEdict)
    } else if i >= ints.len() {
        Ok(acc)
    } else if i + 4 > ints.len() {
        Err(Flaw::TrailingEdict)
    } else {
        match spec_next_id(prev, ints[i], ints[i + 1]) {
            None => Err(Flaw::EdictRuneId),
            Some(id) => spec_edicts(
                ints,
                i + 4,
                id,
                acc.push(Edict { id, amount: ints[i + 2], output: ints[i + 3] }),
            ),
        }
    }
}

/// Folds one tag/value pair into the message.
pub open spec fn spec_apply_field(m: Message, tag: u128, val: u128) -> Message {
    if tag == TAG_FLAGS {
        if m.flags is None {
            Message { flags: Some(val), ..m }
        } else {
            m
        }
    } else if tag == TAG_RUNE {
        if m.rune is None {
            Message { rune: Some(val), ..m }
        } else {
            m
        }
    } else if tag == TAG_SPACERS {
        if m.spacers is None {
            Message { spacers: Some(val), ..m }
        } else {
            m
        }
    } else if tag == TAG_SYMBOL {
        if m.symbol is None {
            Message { symbol: Some(val), ..m }
        } else {
            m
        }
    } else if tag == TAG_DIVISIBILITY {
        if m.divisibility is None {
            Message { divisibility: Some(val), ..m }
        } else {
            m
        }
    } else if tag == TAG_PREMINE {
        if m.premine is None {
            Message { premine: Some(val), ..m }
        } else {
            m
        }
    } else if tag == TAG_CAP {
        if m.cap is None {
            Message { cap: Some(val), ..m }
        } else {
            m
        }
    } else if tag == TAG_AMOUNT {
        if m.amount is None {
            Message { amount: Some(val), ..m }
        } else {
            m
        }
    } else if tag == TAG_HEIGHT_START {
        if m.height_start is None {
            Message { height_start: Some(val), ..m }
        } else {
            m
        }
    } else if tag == TAG_HEIGHT_END {
        if m.height_end is None {
            Message { height_end: Some(val), ..m }
        } else {
            m
        }
    } else if tag == TAG_OFFSET_START {
        if m.offset_start is None {
            Message { offset_start: Some(val), ..m }
        } else {
            m
        }
    } else if tag == TAG_OFFSET_END {
        if m.offset_end is None {
            Message { offset_end: Some(val), ..m }
        } else {
            m
        }
    } else if tag == TAG_MINT {
        if m.mint_block is None {
            Message { mint_block: Some(val), ..m }
        } else if m.mint_tx is None {
            Message { mint_tx: Some(val), ..m }
        } else {
            m
        }
    } else if tag == TAG_POINTER {
        if m.pointer is None {
            Message { pointer: Some(val), ..m }
        } else {
            m
        }
    } else {
        m
    }
}

/// Folds the whole integer stream from `i` on: fields until the body tag,
/// then edicts; returns the message, the edicts, and the flaw found, if any.
pub open spec fn spec_fields(ints: Seq<u128>, i: int, m: Message) -> (Message, Seq<Edict>, Option<
    Flaw,
>)
    decreases ints.len() - i,
{
    if i < 0 || i >= ints.len() {
        (m, Seq::empty(), None)
    } else if ints[i] == TAG_BODY {
        match spec_edicts(ints, i + 1, RuneId { block: 0, tx: 0 }, Seq::empty()) {
            Ok(e) => (m, e, None),
            Err(f) => (m, Seq::empty(), Some(f)),
        }
    } else if i + 1 >= ints.len() {
        (m, Seq::empty(), Some(Flaw::TruncatedField))
    } else {
        spec_fields(ints, i + 2, spec_apply_field(m, ints[i], ints[i + 1]))
    }
}

/// The mint reference of a message: present when both id integers were given
/// and fit the id range.
pub open spec fn spec_mint_of(m: Message) -> Option<RuneId> {
    match (m.mint_block, m.mint_tx) {
        (Some(b), Some(t)) => if b <= u64::MAX && t <= u32::MAX {
            Some(RuneId { block: b as u64, tx: t as u32 })
        } else {
            None
        },
        _ => None,
    }
}

/// Assembles the artifact from a fully folded message. A parse flaw or the
/// cenotaph flag yields a cenotaph that still carries the mint reference;
/// otherwise the fields become a runestone, with out-of-range values of
/// recognized fields dropped to their defaults.
pub open spec fn spec_assemble(m: Message, edicts: Seq<Edict>, flaw: Option<Flaw>) -> ArtifactView {
    let mint = spec_mint_of(m);
    let flags = if m.flags is Some {
        m.flags.unwrap()
    } else {
        0
    };
    if flaw is Some {
        ArtifactView::Cenotaph(Cenotaph { flaw: flaw.unwrap(), mint })
    } else if flags & FLAG_CENOTAPH != 0 {
        ArtifactView::Cenotaph(Cenotaph { flaw: Flaw::CenotaphFlag, mint })
    } else {
        let etching = if flags & FLAG_ETCHING != 0 {
            Some(
                Etching {
                    rune: m.rune,
                    spacers: if m.spacers is Some && m.spacers.unwrap() <= u32::MAX {
                        m.spacers.unwrap() as u32
                    } else {
                        0
                    },
                    symbol: if m.symbol is Some && m.symbol.unwrap() <= 0x10FFFF {
                        Some(m.symbol.unwrap() as u32)
                    } else {
                        None
                    },
                    divisibility: if m.divisibility is Some && m.divisibility.unwrap() <= 38 {
                        m.divisibility.unwrap() as u8
                    } else {
                        0
                    },
                    premine: if m.premine is Some {
                        m.premine.unwrap()
                    } else {
                        0
                    },
                    terms: if flags & FLAG_TERMS != 0 {
                        Some(
                            Terms {
                                amount: if m.amount is Some {
                                    m.amount.unwrap()
                                } else {
                                    0
                                },
                                cap: if m.cap is Some {
                                    m.cap.unwrap()
                                } else {
                                    0
                                },
                                height_start: if m.height_start is Some && m.height_start.unwrap()
                                    <= u64::MAX {
                                    Some(m.height_start.unwrap() as u64)
                                } else {
                                    None
                                },
                                height_end: if m.height_end is Some && m.height_end.unwrap()
                                    <= u64::MAX {
                                    Some(m.height_end.unwrap() as u64)
                                } else {
                                    None
                                },
                                offset_start: if m.offset_start is Some && m.offset_start.unwrap()
                                    <= u64::MAX {
                                    Some(m.offset_start.unwrap() as u64)
                                } else {
                                    None
                                },
                                offset_end: if m.offset_end is Some && m.offset_end.unwrap()
                                    <= u64::MAX {
                                    Some(m.offset_end.unwrap() as u64)
                                } else {
                                    None
                                },
                            },
                        )
                    } else {
                        None
                    },
                    turbo: flags & FLAG_TURBO != 0,
                },
            )
        } else {
            None
        };
        ArtifactView::Runestone(
            RunestoneView {
                etching,
                mint,
                pointer: if m.pointer is Some && m.pointer.unwrap() <= u32::MAX {
                    Some(m.pointer.unwrap() as u32)
                } else {
                    None
                },
                edicts,
            },
        )
    }
}

/// What decoding a transaction yields: `None` when it has no marker output,
/// otherwise the artifact its payload encodes.
pub open spec fn spec_decipher(tx: TransactionView) -> Option<ArtifactView> {
    match spec_marker_index(tx.outputs, 0) {
        None => None,
        Some(k) => {
            let script = tx.outputs[k].script_pubkey;
            match spec_payload(script, 2, Seq::empty()) {
                None => Some(
                    ArtifactView::Cenotaph(Cenotaph { flaw: Flaw::InvalidScript, mint: None }),
                ),
                Some(p) => match spec_decode_stream(p, 0) {
                    None => Some(
                        ArtifactView::Cenotaph(Cenotaph { flaw: Flaw::Varint, mint: None }),
                    ),
                    Some(ints) => {
                        let (m, edicts, flaw) = spec_fields(ints, 0, Message::spec_empty());
                        Some(spec_assemble(m, edicts, flaw))
                    },
                },
            }
        },
    }
}

/// Appends `s[a..b]` to `out`.
fn push_range(out: &mut Vec<u8>, s: &Vec<u8>, a: usize, b: usize)
    requires
        a <= b <= s@.len(),
    ensures
        final(out)@ == old(out)@ + s@.subrange(a as int, b as int),
{
    let mut k: usize = a;
    while k < b
        invariant
            a <= k <= b <= s@.len(),
            out@ == old(out)@ + s@.subrange(a as int, k as int),
        decreases b - k,
    {
        out.push(s[k]);
        proof {
            assert(out@ =~= old(out)@ + s@.subrange(a as int, (k + 1) as int));
        }
        k = k + 1;
    }
    proof {
        assert(out@ =~= old(out)@ + s@.subrange(a as int, b as int));
    }
}

/// Finds the first marker output of the transaction.
pub fn find_marker(tx: &Transaction) -> (r: Option<usize>)
    ensures
        r matches Some(k) ==> spec_marker_index(tx@.outputs, 0) == Some(k as int) && k
            < tx.outputs@.len(),
        r is None ==> spec_marker_index(tx@.outputs, 0) is None,
{
    let ghost outs = tx@.outputs;
    let n: usize = tx.outputs.len();
    let mut i: usize = 0;
    while i < n
        invariant
            i <= n,
            n == outs.len(),
            outs == tx@.outputs,
            spec_marker_index(outs, 0) == spec_marker_index(outs, i as int),
        decreases n - i,
    {
        proof {
            assert(outs[i as int] == tx.outputs@[i as int]@);
        }
        let script = &tx.outputs[i].script_pubkey;
        if script.len() >= 2 && script[0] == OP_RETURN && script[1] == MAGIC {
            return Some(i);
        }
        i = i + 1;
    }
    None
}

/// Extracts the payload of a marker script: the concatenation of its data
/// pushes after the two marker opcodes.
fn payload(script: &Vec<u8>) -> (r: Option<Vec<u8>>)
    ensures
        r matches Some(p) ==> spec_payload(script@, 2, Seq::empty()) == Some(p@),
        r is None ==> spec_payload(script@, 2, Seq::empty()) is None,
{
    let ghost s = script@;
    let len: usize = script.len();
    let mut acc: Vec<u8> = Vec::new();
    let mut i: usize = 2;
    while i < len
        invariant
            2 <= i,
            i <= len || i >= len,
            len == s.len(),
            s == script@,
            spec_payload(s, 2, Seq::empty()) == spec_payload(s, i as int, acc@),
        decreases len - i,
    {
        let op: u8 = script[i];
        if op <= 75 {
            if (op as usize) <= len - i - 1 {
                let next: usize = i + 1 + (op as usize);
                push_range(&mut acc, script, i + 1, next);
                i = next;
            } else {
                return None;
            }
        } else if op == OP_PUSHDATA1 {
            if i + 1 < len {
                let n: usize = script[i + 1] as usize;
                if n <= len - i - 2 {
                    let next: usize = i + 2 + n;
                    push_range(&mut acc, script, i + 2, next);
                    i = next;
                } else {
                    return None;
                }
            } else {
                return None;
            }
        } else if op == OP_PUSHDATA2 {
            if len - i > 2 {
                let n: usize = script[i + 1] as usize + 256 * (script[i + 2] as usize);
                if n <= len - i - 3 {
                    let next: usize = i + 3 + n;
                    push_range(&mut acc, script, i + 3, next);
                    i = next;
                } else {
                    return None;
                }
            } else {
                return None;
            }
        } else if op == OP_PUSHDATA4 {
            if len - i > 4 {
                let n: usize = script[i + 1] as usize + 256 * (script[i + 2] as usize) + 65536
                    * (script[i + 3] as usize) + 16777216 * (script[i + 4] as usize);
                if n <= len - i - 5 {
                    let next: usize = i + 5 + n;
                    push_range(&mut acc, script, i + 5, next);
                    i = next;
                } else {
                    return None;
                }
            } else {
                return None;
            }
        } else {
            return None;
        }
    }
    Some(acc)
}

/// Executable twin of [`spec_next_id`].
fn next_id(prev: RuneId, block_delta: u128, tx_val: u128) -> (r: Option<RuneId>)
    ensures
        r == spec_next_id(prev, block_delta, tx_val),
{
    if block_delta == 0 {
        if tx_val <= (u32::MAX - prev.tx) as u128 {
            Some(RuneId { block: prev.block, tx: prev.tx + (tx_val as u32) })
        } else {
            None
        }
    } else {
        if block_delta <= (u64::MAX - prev.block) as u128 && tx_val <= u32::MAX as u128 {
            Some(RuneId { block: prev.block + (block_delta as u64), tx: tx_val as u32 })
        } else {
            None
        }
    }
}

/// Reads the edict list from the body integers.
fn parse_edicts(ints: &Vec<u128>, from: usize) -> (r: Result<Vec<Edict>, Flaw>)
    ensures
        r matches Ok(v) ==> spec_edicts(
            ints@,
            from as int,
            RuneId { block: 0, tx: 0 },
            Seq::empty(),
        ) == Ok::<Seq<Edict>, Flaw>(v@),
        r matches Err(f) ==> spec_edicts(
            ints@,
            from as int,
            RuneId { block: 0, tx: 0 },
            Seq::empty(),
        ) == Err::<Seq<Edict>, Flaw>(f),
{
    let ghost s = ints@;
    let len: usize = ints.len();
    let mut acc: Vec<Edict> = Vec::new();
    let mut prev = RuneId { block: 0, tx: 0 };
    let mut i: usize = from;
    while i < len
        invariant
            from <= i,
            len == s.len(),
            s == ints@,
            spec_edicts(s, from as int, RuneId { block: 0, tx: 0 }, Seq::empty()) == spec_edicts(
                s,
                i as int,
                prev,
                acc@,
            ),
        decreases len - i,
    {
        if len - i < 4 {
            return Err(Flaw::TrailingEdict);
        }
        match next_id(prev, ints[i], ints[i + 1]) {
            None => {
                return Err(Flaw::EdictRuneId);
            },
            Some(id) => {
                acc.push(Edict { id, amount: ints[i + 2], output: ints[i + 3] });
                prev = id;
                i = i + 4;
            },
        }
    }
    Ok(acc)
}

/// Executable twin of [`spec_apply_field`].
fn apply_field(m: Message, tag: u128, val: u128) -> (r: Message)
    ensures
        r == spec_apply_field(m, tag, val),
{
    if tag == TAG_FLAGS {
        if m.flags.is_none() {
            Message { flags: Some(val), ..m }
        } else {
            m
        }
    } else if tag == TAG_RUNE {
        if m.rune.is_none() {
            Message { rune: Some(val), ..m }
        } else {
            m
        }
    } else if tag == TAG_SPACERS {
        if m.spacers.is_none() {
            Message { spacers: Some(val), ..m }
        } else {
            m
        }
    } else if tag == TAG_SYMBOL {
        if m.symbol.is_none() {
            Message { symbol: Some(val), ..m }
        } else {
            m
        }
    } else if tag == TAG_DIVISIBILITY {
        if m.divisibility.is_none() {
            Message { divisibility: Some(val), ..m }
        } else {
            m
        }
    } else if tag == TAG_PREMINE {
        if m.premine.is_none() {
            Message { premine: Some(val), ..m }
        } else {
            m
        }
    } else if tag == TAG_CAP {
        if m.cap.is_none() {
            Message { cap: Some(val), ..m }
        } else {
            m
        }
    } else if tag == TAG_AMOUNT {
        if m.amount.is_none() {
            Message { amount: Some(val), ..m }
        } else {
            m
        }
    } else if tag == TAG_HEIGHT_START {
        if m.height_start.is_none() {
            Message { height_start: Some(val), ..m }
        } else {
            m
        }
    } else if tag == TAG_HEIGHT_END {
        if m.height_end.is_none() {
            Message { height_end: Some(val), ..m }
        } else {
            m
        }
    } else if tag == TAG_OFFSET_START {
        if m.offset_start.is_none() {
            Message { offset_start: Some(val), ..m }
        } else {
            m
        }
    } else if tag == TAG_OFFSET_END {
        if m.offset_end.is_none() {
            Message { offset_end: Some(val), ..m }
        } else {
            m
        }
    } else if tag == TAG_MINT {
        if m.mint_block.is_none() {
            Message { mint_block: Some(val), ..m }
        } else if m.mint_tx.is_none() {
            Message { mint_tx: Some(val), ..m }
        } else {
            m
        }
    } else if tag == TAG_POINTER {
        if m.pointer.is_none() {
            Message { pointer: Some(val), ..m }
        } else {
            m
        }
    } else {
        m
    }
}

/// Folds a whole integer stream into a message, edicts and an optional flaw.
fn parse_fields(ints: &Vec<u128>) -> (r: (Message, Vec<Edict>, Option<Flaw>))
    ensures
        spec_fields(ints@, 0, Message::spec_empty()) == (r.0, r.1@, r.2),
{
    let ghost s = ints@;
    let len: usize = ints.len();
    let mut m = Message::empty();
    let mut i: usize = 0;
    while i < len
        invariant
            len == s.len(),
            s == ints@,
            spec_fields(s, 0, Message::spec_empty()) == spec_fields(s, i as int, m),
        decreases len - i,
    {
        if ints[i] == TAG_BODY {
            match parse_edicts(ints, i + 1) {
                Ok(v) => {
                    return (m, v, None);
                },
                Err(f) => {
                    return (m, Vec::new(), Some(f));
                },
            }
        }
        if i + 1 >= len {
            return (m, Vec::new(), Some(Flaw::TruncatedField));
        }
        m = apply_field(m, ints[i], ints[i + 1]);
        i = i + 2;
    }
    (m, Vec::new(), None)
}

/// Executable twin of [`spec_mint_of`].
fn mint_of(m: Message) -> (r: Option<RuneId>)
    ensures
        r == spec_mint_of(m),
{
    match (m.mint_block, m.mint_tx) {
        (Some(b), Some(t)) => {
            if b <= u64::MAX as u128 && t <= u32::MAX as u128 {
                Some(RuneId { block: b as u64, tx: t as u32 })
            } else {
                None
            }
        },
        _ => None,
    }
}

/// Assembles the artifact of a folded message.
fn assemble(m: Message, edicts: Vec<Edict>, flaw: Option<Flaw>) -> (r: Artifact)
    ensures
        r@ == spec_assemble(m, edicts@, flaw),
{
    let mint = mint_of(m);
    let flags: u128 = match m.flags {
        Some(f) => f,
        None => 0,
    };
    if let Some(f) = flaw {
        return Artifact::Cenotaph(Cenotaph { flaw: f, mint });
    }
    if flags & FLAG_CENOTAPH != 0 {
        return Artifact::Cenotaph(Cenotaph { flaw: Flaw::CenotaphFlag, mint });
    }
    let etching: Option<Etching> = if flags & FLAG_ETCHING != 0 {
        Some(
            Etching {
                rune: m.rune,
                spacers: match m.spacers {
                    Some(sp) => if sp <= u32::MAX as u128 {
                        sp as u32
                    } else {
                        0
                    },
                    None => 0,
                },
                symbol: match m.symbol {
                    Some(sy) => if sy <= 0x10FFFF {
                        Some(sy as u32)
                    } else {
                        None
                    },
                    None => None,
                },
                divisibility: match m.divisibility {
                    Some(d) => if d <= 38 {
                        d as u8
                    } else {
                        0
                    },
                    None => 0,
                },
                premine: match m.premine {
                    Some(p) => p,
                    None => 0,
                },
                terms: if flags & FLAG_TERMS != 0 {
                    Some(
                        Terms {
                            amount: match m.amount {
                                Some(a) => a,
                                None => 0,
                            },
                            cap: match m.cap {
                                Some(c) => c,
                                None => 0,
                            },
                            height_start: match m.height_start {
                                Some(h) => if h <= u64::MAX as u128 {
                                    Some(h as u64)
                                } else {
                                    None
                                },
                                None => None,
                            },
                            height_end: match m.height_end {
                                Some(h) => if h <= u64::MAX as u128 {
                                    Some(h as u64)
                                } else {
                                    None
                                },
                                None => None,
                            },
                            offset_start: match m.offset_start {
                                Some(h) => if h <= u64::MAX as u128 {
                                    Some(h as u64)
                                } else {
                                    None
                                },
                                None => None,
                            },
                            offset_end: match m.offset_end {
                                Some(h) => if h <= u64::MAX as u128 {
                                    Some(h as u64)
                                } else {
                                    None
                                },
                                None => None,
                            },
                        },
                    )
                } else {
                    None
                },
                turbo: flags & FLAG_TURBO != 0,
            },
        )
    } else {
        None
    };
    let pointer: Option<u32> = match m.pointer {
        Some(p) => if p <= u32::MAX as u128 {
            Some(p as u32)
        } else {
            None
        },
        None => None,
    };
    Artifact::Runestone(Runestone { etching, mint, pointer, edicts })
}

/// Decodes the protocol message of a transaction: `None` when no marker
/// output is present, otherwise the runestone or cenotaph its payload
/// encodes. Proved equal to [`spec_decipher`], so decoding is a pure
/// function of the transaction's bytes.
pub fn decipher(tx: &Transaction) -> (r: Option<Artifact>)
    ensures
        r matches Some(a) ==> spec_decipher(tx@) == Some(a@),
        r is None ==> spec_decipher(tx@) is None,
{
    let k: usize = match find_marker(tx) {
        None => {
            return None;
        },
        Some(k) => k,
    };
    proof {
        assert(tx@.outputs[k as int] == tx.outputs@[k as int]@);
    }
    let p: Vec<u8> = match payload(&tx.outputs[k].script_pubkey) {
        None => {
            return Some(Artifact::Cenotaph(Cenotaph { flaw: Flaw::InvalidScript, mint: None }));
        },
        Some(p) => p,
    };
    let ints: Vec<u128> = match decode_integers(&p) {
        None => {
            return Some(Artifact::Cenotaph(Cenotaph { flaw: Flaw::Varint, mint: None }));
        },
        Some(v) => v,
    };
    let (m, edicts, flaw) = parse_fields(&ints);
    Some(assemble(m, edicts, flaw))
}

} // verus!
