//! The per-block state-transition engine: consumes one block at a time,
//! drives decoding, mint, etch and edict rules, and commits one atomic
//! change per block, with exact undo on reorganization.

use vstd::prelude::*;
use crate::ledger::{
    asum, aview, bsum, conserved, find_balance_idx, find_entry, find_entry_idx, insert_add, issued,
    lemma_asum_bound, lemma_asum_push, lemma_asum_update, lemma_bsum_absent, lemma_bsum_found,
    lemma_bsum_absent_take, lemma_bsum_le_max, lemma_bsum_nonneg, lemma_bsum_push, lemma_bsum_update,
    lemma_asum_nonneg, lemma_find_from_none, lemma_find_from_push, lemma_find_from_update,
    lemma_osum_nonneg, lemma_osum_push, find_outpoint_from, lemma_find_outpoint_in_range,
    mints_capped, nonzero_balances, osum, oview,
    sorted_balances, state_inv, tables_wf, take_outpoint, unique_entry_keys, Checkpoint, Ledger, StateView,
    LedgerView, OutpointEntry, OutpointEntryView, RuneEntry,
};
use crate::lot::Lot;
use crate::runestone::{decipher, find_marker, spec_decipher, Artifact, ArtifactView, Edict, Etching, RuneId};
use crate::transaction::{Block, OutPoint, Transaction, Txid};

verus! {

/// What minting `id` at height `h` would issue: the amount per mint when the
/// entry has terms, the height/offset window admits `h`, and the cap is not
/// yet reached; `None` otherwise — an ineligible mint is silently skipped.
pub open spec fn spec_mintable(id: RuneId, e: RuneEntry, h: u64) -> Option<u128> {
    match e.terms {
        None => None,
        Some(t) => {
            if t.height_start matches Some(s) && (h as int) < s as int {
                None
            } else if t.height_end matches Some(end) && (h as int) >= end as int {
                None
            } else if t.offset_start matches Some(os) && (h as int) < id.block + os {
                None
            } else if t.offset_end matches Some(oe) && (h as int) >= id.block + oe {
                None
            } else if e.mints >= t.cap {
                None
            } else {
                Some(t.amount)
            }
        },
    }
}

/// Executable twin of [`spec_mintable`]. Minting is allowed exactly while
/// `mints < cap` and the height window admits `h`: the `cap`-th mint is the
/// last, the next attempt yields `None` and changes nothing.
pub fn mintable(id: RuneId, e: &RuneEntry, h: u64) -> (r: Option<u128>)
    ensures
        r == spec_mintable(id, *e, h),
{
    match e.terms {
        None => None,
        Some(t) => {
            if match t.height_start {
                Some(s) => h < s,
                None => false,
            } {
                return None;
            }
            if match t.height_end {
                Some(end) => h >= end,
                None => false,
            } {
                return None;
            }
            if match t.offset_start {
                Some(os) => (h as u128) < (id.block as u128) + (os as u128),
                None => false,
            } {
                return None;
            }
            if match t.offset_end {
                Some(oe) => (h as u128) >= (id.block as u128) + (oe as u128),
                None => false,
            } {
                return None;
            }
            if e.mints >= t.cap {
                return None;
            }
            Some(t.amount)
        },
    }
}

/// The entry after one mint: the counter advances; in a cenotaph the minted
/// amount is burned on the spot instead of being credited.
pub open spec fn mint_bump(e: RuneEntry, amt: u128, cenotaph: bool) -> RuneEntry {
    RuneEntry {
        mints: (e.mints + 1) as u128,
        burned: if cenotaph {
            (e.burned + amt) as u128
        } else {
            e.burned
        },
        ..e
    }
}

/// Applies a mint reference: if `id` is registered and mintable at `height`,
/// advances its counter and credits the amount to the unallocated balances —
/// or burns it on the spot inside a cenotaph. An absent entry or an
/// ineligible mint changes nothing. Fails exactly when the credited or
/// burned total would not fit the amount type; nothing is changed then.
pub fn apply_mint(
    entries: &mut Vec<(RuneId, RuneEntry)>,
    id: RuneId,
    height: u64,
    un: &mut Vec<(RuneId, Lot)>,
    cenotaph: bool,
) -> (r: Result<(), ()>)
    requires
        unique_entry_keys(old(entries)@),
        mints_capped(old(entries)@),
        sorted_balances(old(un)@),
        nonzero_balances(old(un)@),
    ensures
        unique_entry_keys(final(entries)@),
        sorted_balances(final(un)@),
        nonzero_balances(final(un)@),
        r is Err ==> final(entries)@ == old(entries)@ && final(un)@ == old(un)@,
        (r is Err) <==> (find_entry(old(entries)@, id) matches Some(e) && spec_mintable(
            id,
            e,
            height,
        ) matches Some(amt) && (if cenotaph {
            e.burned + amt > u128::MAX
        } else {
            bsum(old(un)@, id) + amt > u128::MAX
        })),
        r is Ok ==> match find_entry(old(entries)@, id) {
            None => final(entries)@ == old(entries)@ && final(un)@ == old(un)@,
            Some(e) => match spec_mintable(id, e, height) {
                None => final(entries)@ == old(entries)@ && final(un)@ == old(un)@,
                Some(amt) => {
                    &&& (forall|x: RuneId|
                        find_entry(final(entries)@, x) == (if x == id {
                            Some(mint_bump(e, amt, cenotaph))
                        } else {
                            find_entry(old(entries)@, x)
                        }))
                    &&& (forall|x: RuneId|
                        bsum(final(un)@, x) == bsum(old(un)@, x) + (if x == id && !cenotaph {
                            amt as int
                        } else {
                            0
                        }))
                },
            },
        },
{
    let ghost e0 = entries@;
    let idx: usize = match find_entry_idx(entries, id) {
        None => {
            proof {
                lemma_bsum_le_max(un@, id);
            }
            return Ok(());
        },
        Some(i) => i,
    };
    let e = entries[idx].1;
    let amt: u128 = match mintable(id, &e, height) {
        None => {
            proof {
                lemma_bsum_le_max(un@, id);
            }
            return Ok(());
        },
        Some(a) => a,
    };
    if cenotaph {
        if amt > u128::MAX - e.burned {
            return Err(());
        }
    } else {
        match insert_add(un, id, Lot { value: amt }) {
            Err(_) => {
                return Err(());
            },
            Ok(_) => {},
        }
    }
    let bumped = RuneEntry {
        mints: e.mints + 1,
        burned: if cenotaph {
            e.burned + amt
        } else {
            e.burned
        },
        ..e
    };
    entries.set(idx, (id, bumped));
    proof {
        if !cenotaph {
            lemma_bsum_le_max(old(un)@, id);
        }
        assert(entries@ =~= e0.update(idx as int, (id, bumped)));
        assert(bumped == mint_bump(e, amt, cenotaph));
        assert forall|x: RuneId|
            find_entry(entries@, x) == (if x == id {
                Some(mint_bump(e, amt, cenotaph))
            } else {
                find_entry(e0, x)
            }) by {
            lemma_find_from_update(e0, idx as int, bumped, x, 0);
        }
        assert forall|a: int, b: int| 0 <= a < b < entries@.len() implies entries@[a].0
            != entries@[b].0 by {
            assert(entries@[a].0 == e0[a].0 && entries@[b].0 == e0[b].0);
        }
    }
    Ok(())
}

/// The registry record a fresh etching creates.
pub open spec fn new_entry(et: Etching, number: u64, txid: Txid, time: u64) -> RuneEntry {
    RuneEntry {
        rune: et.rune,
        spacers: et.spacers,
        symbol: et.symbol,
        divisibility: et.divisibility,
        number,
        etching_txid: txid,
        premine: et.premine,
        terms: et.terms,
        mints: 0,
        burned: 0,
        turbo: et.turbo,
        timestamp: time,
    }
}

/// Applies an etching at slot `id`: if the slot is free, registers the token
/// under the next sequential number and credits its premine to the
/// unallocated balances; a re-etch of an occupied slot is ineligible and
/// changes nothing. Fails, changing nothing, exactly when the etching
/// counter or the premine credit would overflow.
pub fn apply_etch(
    entries: &mut Vec<(RuneId, RuneEntry)>,
    rune_count: &mut u64,
    et: &Etching,
    id: RuneId,
    txid: Txid,
    time: u64,
    un: &mut Vec<(RuneId, Lot)>,
) -> (r: Result<bool, ()>)
    requires
        unique_entry_keys(old(entries)@),
        sorted_balances(old(un)@),
        nonzero_balances(old(un)@),
    ensures
        unique_entry_keys(final(entries)@),
        sorted_balances(final(un)@),
        nonzero_balances(final(un)@),
        r is Err ==> final(entries)@ == old(entries)@ && final(un)@ == old(un)@
            && *final(rune_count) == *old(rune_count),
        (r is Err) <==> (find_entry(old(entries)@, id) is None && (*old(rune_count) == u64::MAX
            || bsum(old(un)@, id) + et.premine > u128::MAX)),
        r matches Ok(etched) ==> {
            &&& (find_entry(old(entries)@, id) is Some ==> !etched
                && final(entries)@ == old(entries)@ && final(un)@ == old(un)@
                && *final(rune_count) == *old(rune_count))
            &&& (find_entry(old(entries)@, id) is None ==> etched
                && *final(rune_count) == *old(rune_count) + 1 && (forall|x: RuneId|
                find_entry(final(entries)@, x) == (if x == id {
                    Some(new_entry(*et, *old(rune_count), txid, time))
                } else {
                    find_entry(old(entries)@, x)
                })) && (forall|x: RuneId|
                bsum(final(un)@, x) == bsum(old(un)@, x) + (if x == id {
                    et.premine as int
                } else {
                    0
                })))
        },
{
    let ghost e0 = entries@;
    match find_entry_idx(entries, id) {
        Some(_) => {
            return Ok(false);
        },
        None => {},
    }
    proof {
        lemma_bsum_le_max(un@, id);
    }
    if *rune_count == u64::MAX {
        return Err(());
    }
    match insert_add(un, id, Lot { value: et.premine }) {
        Err(_) => {
            return Err(());
        },
        Ok(_) => {},
    }
    let fresh = RuneEntry {
        rune: et.rune,
        spacers: et.spacers,
        symbol: et.symbol,
        divisibility: et.divisibility,
        number: *rune_count,
        etching_txid: txid,
        premine: et.premine,
        terms: et.terms,
        mints: 0,
        burned: 0,
        turbo: et.turbo,
        timestamp: time,
    };
    entries.push((id, fresh));
    *rune_count = *rune_count + 1;
    proof {
        assert(fresh == new_entry(*et, *old(rune_count), txid, time));
        assert forall|x: RuneId|
            find_entry(entries@, x) == (if x == id {
                Some(new_entry(*et, *old(rune_count), txid, time))
            } else {
                find_entry(e0, x)
            }) by {
            lemma_find_from_push(e0, (id, fresh), x, 0);
            if x == id {
                assert(find_entry(e0, id) is None);
            }
        }
        lemma_find_from_none(e0, id, 0);
        assert forall|a: int, b: int| 0 <= a < b < entries@.len() implies entries@[a].0
            != entries@[b].0 by {
            if b < e0.len() {
                assert(entries@[a].0 == e0[a].0 && entries@[b].0 == e0[b].0);
            } else {
                assert(entries@[a].0 == e0[a].0 && entries@[b].0 == id);
            }
        }
    }
    Ok(true)
}

/// The entry after burning `amt` more.
pub open spec fn burn_add(e: RuneEntry, amt: int) -> RuneEntry {
    RuneEntry { burned: (e.burned + amt) as u128, ..e }
}

/// Folding the burned list `b` into the registry fails: some burned id is
/// unregistered, or some burned counter would leave the amount range.
pub open spec fn burn_fails(entries: Seq<(RuneId, RuneEntry)>, b: Seq<(RuneId, Lot)>) -> bool {
    exists|k: int|
        0 <= k < b.len() && match find_entry(entries, #[trigger] b[k].0) {
            None => true,
            Some(e) => e.burned + b[k].1.value > u128::MAX,
        }
}

/// Folds a burned balance list into the registry: each token's `burned`
/// counter grows by its burned amount. Fails when a burned id is not
/// registered or a counter would overflow; the registry is then partially
/// updated and the caller must restore its snapshot.
pub fn persist_burned(entries: &mut Vec<(RuneId, RuneEntry)>, burned: &Vec<(RuneId, Lot)>) -> (r:
    Result<(), ()>)
    requires
        unique_entry_keys(old(entries)@),
        sorted_balances(burned@),
    ensures
        unique_entry_keys(final(entries)@),
        (r is Err) <==> burn_fails(old(entries)@, burned@),
        r is Ok ==> forall|x: RuneId|
            #![trigger find_entry(final(entries)@, x)]
            match find_entry(old(entries)@, x) {
                Some(e) => e.burned + bsum(burned@, x) <= u128::MAX && find_entry(
                    final(entries)@,
                    x,
                ) == Some(burn_add(e, bsum(burned@, x))),
                None => find_entry(final(entries)@, x) is None && bsum(burned@, x) == 0,
            },
{
    let ghost e0 = entries@;
    let ghost b = burned@;
    let n: usize = burned.len();
    let mut j: usize = 0;
    while j < n
        invariant
            j <= n,
            n == b.len(),
            b == burned@,
            e0 == old(entries)@,
            sorted_balances(b),
            unique_entry_keys(entries@),
            forall|k: int|
                0 <= k < j ==> (find_entry(e0, #[trigger] b[k].0) matches Some(e) && e.burned
                    + b[k].1.value <= u128::MAX),
            forall|x: RuneId|
                #![trigger find_entry(entries@, x)]
                match find_entry(e0, x) {
                    Some(e) => e.burned + bsum(b.take(j as int), x) <= u128::MAX && find_entry(
                        entries@,
                        x,
                    ) == Some(burn_add(e, bsum(b.take(j as int), x))),
                    None => find_entry(entries@, x) is None,
                },
        decreases n - j,
    {
        let (bid, amt) = burned[j];
        let ghost epre = entries@;
        proof {
            assert forall|k: int| 0 <= k < j implies b[k].0 != bid by {
                assert(b[k].0.spec_lt(b[j as int].0));
            }
            lemma_bsum_absent_take(b, j as int, bid);
        }
        let idx: usize = match find_entry_idx(entries, bid) {
            None => {
                proof {
                    assert(find_entry(e0, bid) is None);
                    assert(burn_fails(e0, b)) by {
                        assert(0 <= j < b.len() && find_entry(e0, b[j as int].0) is None);
                    }
                }
                return Err(());
            },
            Some(i) => i,
        };
        let cur = entries[idx].1;
        if amt.value > u128::MAX - cur.burned {
            proof {
                let e = find_entry(e0, bid).unwrap();
                assert(cur == burn_add(e, bsum(b.take(j as int), bid)));
                assert(cur.burned == e.burned);
                assert(burn_fails(e0, b)) by {
                    assert(0 <= j < b.len() && (find_entry(e0, b[j as int].0) matches Some(e2)
                        && e2.burned + b[j as int].1.value > u128::MAX));
                }
            }
            return Err(());
        }
        proof {
            let e = find_entry(e0, bid).unwrap();
            assert(cur == burn_add(e, bsum(b.take(j as int), bid)));
            assert(cur.burned == e.burned);
        }
        let updated = RuneEntry { burned: cur.burned + amt.value, ..cur };
        entries.set(idx, (bid, updated));
        proof {
            assert(entries@ =~= epre.update(idx as int, (bid, updated)));
            assert forall|x: RuneId|
                match find_entry(e0, x) {
                    Some(e) => e.burned + bsum(b.take(j + 1), x) <= u128::MAX && #[trigger]
                    find_entry(entries@, x) == Some(burn_add(e, bsum(b.take(j + 1), x))),
                    None => find_entry(entries@, x) is None,
                } by {
                lemma_find_from_update(epre, idx as int, updated, x, 0);
                assert(b.take(j + 1) =~= b.take(j as int).push(b[j as int]));
                lemma_bsum_push(b.take(j as int), b[j as int], x);
                lemma_bsum_nonneg(b.take(j as int), x);
                assert(find_entry(epre, x) == (if find_entry(e0, x) is Some {
                    Some(
                        burn_add(
                            find_entry(e0, x).unwrap(),
                            bsum(b.take(j as int), x),
                        ),
                    )
                } else {
                    None
                }));
            }
            assert forall|a2: int, b2: int| 0 <= a2 < b2 < entries@.len() implies entries@[a2].0
                != entries@[b2].0 by {
                assert(entries@[a2].0 == epre[a2].0 && entries@[b2].0 == epre[b2].0);
            }
        }
        j = j + 1;
    }
    proof {
        assert(b.take(n as int) =~= b);
        assert(!burn_fails(e0, b)) by {
            if burn_fails(e0, b) {
                let k = choose|k: int|
                    0 <= k < b.len() && match find_entry(e0, #[trigger] b[k].0) {
                        None => true,
                        Some(e) => e.burned + b[k].1.value > u128::MAX,
                    };
                assert(find_entry(e0, b[k].0) matches Some(e) && e.burned + b[k].1.value
                    <= u128::MAX);
            }
        }
        assert forall|x: RuneId|
            match find_entry(e0, x) {
                Some(e) => e.burned + bsum(b, x) <= u128::MAX && #[trigger] find_entry(entries@, x)
                    == Some(burn_add(e, bsum(b, x))),
                None => find_entry(entries@, x) is None && bsum(b, x) == 0,
            } by {
            if find_entry(e0, x) is None {
                assert forall|k: int| 0 <= k < b.len() implies b[k].0 != x by {
                    assert(find_entry(e0, b[k].0) is Some);
                }
                lemma_bsum_absent(b, x);
            }
        }
    }
    Ok(())
}

/// The gather fold: each input's recorded balances, if any, leave the
/// outpoint table (first matching row, deleted exactly once) and join the
/// unallocated totals. It fails exactly when some spent token's folded
/// total would leave the amount range.
pub open spec fn spec_gather(
    outs: Seq<OutpointEntryView>,
    inputs: Seq<OutPoint>,
    un: Map<RuneId, int>,
) -> Result<(Seq<OutpointEntryView>, Map<RuneId, int>), ()>
    decreases inputs.len(),
{
    if inputs.len() == 0 {
        Ok((outs, un))
    } else {
        match find_outpoint_from(outs, inputs[0], 0) {
            None => spec_gather(outs, inputs.drop_first(), un),
            Some(i) => {
                let b = outs[i].balances;
                if exists|x: RuneId| un[x] + #[trigger] bsum(b, x) > u128::MAX {
                    Err(())
                } else {
                    spec_gather(
                        outs.remove(i),
                        inputs.drop_first(),
                        Map::total(|x: RuneId| un[x] + bsum(b, x)),
                    )
                }
            },
        }
    }
}

/// Folds the balances of every spent outpoint into the unallocated
/// balances, deleting the consumed outpoint records: the result is exactly
/// the [`spec_gather`] fold, which also fixes when gathering fails — some
/// folded total would not fit the amount type. The caller must then discard
/// the whole block attempt.
pub fn gather(
    outpoints: &mut Vec<OutpointEntry>,
    inputs: &Vec<OutPoint>,
    un: &mut Vec<(RuneId, Lot)>,
) -> (r: Result<(), ()>)
    requires
        tables_wf(oview(old(outpoints)@)),
        sorted_balances(old(un)@),
        nonzero_balances(old(un)@),
    ensures
        tables_wf(oview(final(outpoints)@)),
        sorted_balances(final(un)@),
        nonzero_balances(final(un)@),
        r is Ok ==> forall|x: RuneId|
            osum(oview(final(outpoints)@), x) + bsum(final(un)@, x) == osum(
                oview(old(outpoints)@),
                x,
            ) + bsum(old(un)@, x),
        r is Ok ==> spec_gather(oview(old(outpoints)@), inputs@, balance_map(old(un)@)) == Ok::<
            (Seq<OutpointEntryView>, Map<RuneId, int>),
            (),
        >((oview(final(outpoints)@), balance_map(final(un)@))),
        (r is Err) <==> spec_gather(oview(old(outpoints)@), inputs@, balance_map(old(un)@)) is Err,
{
    let ghost o0 = oview(outpoints@);
    let ghost u0 = un@;
    let ghost mut un_g: Map<RuneId, int> = balance_map(u0);
    proof {
        assert(inputs@.skip(0) =~= inputs@);
        assert(un_g.dom() =~= Set::<RuneId>::full());
    }
    let n: usize = inputs.len();
    let mut i: usize = 0;
    while i < n
        invariant
            i <= n,
            n == inputs@.len(),
            o0 == oview(old(outpoints)@),
            u0 == old(un)@,
            tables_wf(oview(outpoints@)),
            sorted_balances(un@),
            nonzero_balances(un@),
            un_g.dom() == Set::<RuneId>::full(),
            forall|x: RuneId| un_g[x] == bsum(un@, x),
            spec_gather(o0, inputs@, balance_map(u0)) == spec_gather(
                oview(outpoints@),
                inputs@.skip(i as int),
                un_g,
            ),
            forall|x: RuneId|
                osum(oview(outpoints@), x) + bsum(un@, x) == osum(o0, x) + bsum(u0, x),
        decreases n - i,
    {
        proof {
            assert(inputs@.skip(i as int)[0] == inputs@[i as int]);
            assert(inputs@.skip(i as int).drop_first() =~= inputs@.skip(i + 1));
        }
        let ghost ocall = oview(outpoints@);
        match take_outpoint(outpoints, inputs[i]) {
            None => {
                proof {
                    assert(spec_gather(ocall, inputs@.skip(i as int), un_g) == spec_gather(
                        ocall,
                        inputs@.skip(i + 1),
                        un_g,
                    ));
                }
            },
            Some(b) => {
                let ghost upre = un@;
                let ghost ri = find_outpoint_from(ocall, inputs@[i as int], 0).unwrap();
                proof {
                    lemma_find_outpoint_in_range(ocall, inputs@[i as int], 0);
                }
                let m: usize = b.len();
                let mut j: usize = 0;
                while j < m
                    invariant
                        j <= m,
                        m == b@.len(),
                        i < n == inputs@.len(),
                        o0 == oview(old(outpoints)@),
                        u0 == old(un)@,
                        un_g.dom() == Set::<RuneId>::full(),
                        forall|x: RuneId| un_g[x] == bsum(upre, x),
                        spec_gather(o0, inputs@, balance_map(u0)) == spec_gather(
                            ocall,
                            inputs@.skip(i as int),
                            un_g,
                        ),
                        find_outpoint_from(ocall, inputs@[i as int], 0) == Some(ri),
                        0 <= ri < ocall.len(),
                        b@ == ocall[ri].balances,
                        oview(outpoints@) == ocall.remove(ri),
                        tables_wf(oview(outpoints@)),
                        sorted_balances(upre),
                        sorted_balances(b@),
                        sorted_balances(un@),
                        nonzero_balances(un@),
                        forall|k: int|
                            0 <= k < j ==> bsum(upre, #[trigger] b@[k].0) + b@[k].1.value
                                <= u128::MAX,
                        forall|x: RuneId|
                            bsum(un@, x) == bsum(upre, x) + bsum(b@.take(j as int), x),
                    decreases m - j,
                {
                    let (bid, amt) = b[j];
                    proof {
                        assert forall|k: int| 0 <= k < j implies b@[k].0 != bid by {
                            assert(b@[k].0.spec_lt(b@[j as int].0));
                        }
                        lemma_bsum_absent_take(b@, j as int, bid);
                        lemma_bsum_found(b@, j as int);
                    }
                    match insert_add(un, bid, amt) {
                        Err(_) => {
                            proof {
                                assert(bsum(un@, bid) == bsum(upre, bid));
                                assert(un_g[bid] + bsum(b@, bid) > u128::MAX);
                                assert(inputs@.skip(i as int)[0] == inputs@[i as int]);
                                assert(spec_gather(ocall, inputs@.skip(i as int), un_g) is Err);
                            }
                            return Err(());
                        },
                        Ok(_) => {},
                    }
                    proof {
                        assert(bsum(upre, bid) + amt.value <= u128::MAX);
                        assert forall|x: RuneId|
                            bsum(un@, x) == bsum(upre, x) + bsum(b@.take(j + 1), x) by {
                            assert(b@.take(j + 1) =~= b@.take(j as int).push(b@[j as int]));
                            lemma_bsum_push(b@.take(j as int), b@[j as int], x);
                        }
                    }
                    j = j + 1;
                }
                proof {
                    assert(b@.take(m as int) =~= b@);
                    assert forall|x: RuneId| un_g[x] + bsum(b@, x) <= u128::MAX by {
                        if exists|k: int| 0 <= k < b@.len() && b@[k].0 == x {
                            let k = choose|k: int| 0 <= k < b@.len() && b@[k].0 == x;
                            lemma_bsum_found(b@, k);
                        } else {
                            lemma_bsum_absent(b@, x);
                            lemma_bsum_le_max(upre, x);
                        }
                    }
                    assert(inputs@.skip(i as int)[0] == inputs@[i as int]);
                    assert(inputs@.skip(i as int).drop_first() =~= inputs@.skip(i + 1));
                    un_g = Map::total(|x: RuneId| un_g[x] + bsum(b@, x));
                    assert(un_g.dom() =~= Set::<RuneId>::full());
                    assert(spec_gather(o0, inputs@, balance_map(u0)) == spec_gather(
                        oview(outpoints@),
                        inputs@.skip(i + 1),
                        un_g,
                    ));
                }
            },
        }
        i = i + 1;
    }
    proof {
        assert(inputs@.skip(n as int) =~= Seq::<OutPoint>::empty());
        assert(spec_gather(oview(outpoints@), Seq::<OutPoint>::empty(), un_g) == Ok::<
            (Seq<OutpointEntryView>, Map<RuneId, int>),
            (),
        >((oview(outpoints@), un_g)));
        assert(un_g =~= balance_map(un@));
    }
    Ok(())
}

/// The per-token totals of a balance list, as a total map.
pub open spec fn balance_map(s: Seq<(RuneId, Lot)>) -> Map<RuneId, int> {
    Map::total(|x: RuneId| bsum(s, x))
}

/// The all-zero per-output allocation map.
pub open spec fn zero_alloc() -> Map<(int, RuneId), int> {
    Map::total(|k: (int, RuneId)| 0)
}

/// The edict fold: each in-range edict moves `min(amount, remaining)` of
/// its token to its output — amount zero takes the whole remainder — and an
/// out-of-range edict is dropped. Yields what remains unallocated per token
/// and what each output has received of each token.
pub open spec fn spec_edicts_alloc(
    edicts: Seq<Edict>,
    n_outputs: int,
    rem: Map<RuneId, int>,
    alloc: Map<(int, RuneId), int>,
) -> (Map<RuneId, int>, Map<(int, RuneId), int>)
    decreases edicts.len(),
{
    if edicts.len() == 0 {
        (rem, alloc)
    } else {
        let ed = edicts[0];
        if (ed.output as int) < n_outputs {
            let o = ed.output as int;
            let avail = rem[ed.id];
            let amount = if ed.amount == 0 || (ed.amount as int) > avail {
                avail
            } else {
                ed.amount as int
            };
            spec_edicts_alloc(
                edicts.drop_first(),
                n_outputs,
                rem.insert(ed.id, avail - amount),
                alloc.insert((o, ed.id), alloc[(o, ed.id)] + amount),
            )
        } else {
            spec_edicts_alloc(edicts.drop_first(), n_outputs, rem, alloc)
        }
    }
}

/// Where the leftover goes: the pointer output when it names a real output,
/// else the first non-marker output, else nowhere — the leftover is burned.
pub open spec fn spec_leftover_target(pointer: Option<u32>, n_outputs: int, marker: int) -> Option<
    int,
> {
    if (pointer matches Some(p) && (p as int) < n_outputs) {
        Some(pointer.unwrap() as int)
    } else if marker != 0 && n_outputs > 0 {
        Some(0)
    } else if marker == 0 && n_outputs > 1 {
        Some(1)
    } else {
        None
    }
}

/// Applies the edicts in order, then assigns the leftover: each in-range
/// edict moves `min(amount, remaining)` of its token to its output — amount
/// zero takes the whole remaining balance — and an edict whose output index
/// is out of range is ineligible and dropped. What is left after the edicts
/// goes in full to the pointer output when it names a real output, else to
/// the first non-marker output, else into the burned remainder. The result
/// is pinned exactly: every output's balance of every token equals the
/// [`spec_edicts_alloc`] fold plus the leftover where [`spec_leftover_target`]
/// sends it, and nothing is lost.
pub fn distribute(
    un: Vec<(RuneId, Lot)>,
    edicts: &Vec<Edict>,
    n_outputs: usize,
    pointer: Option<u32>,
    marker: usize,
) -> (r: (Vec<Vec<(RuneId, Lot)>>, Vec<(RuneId, Lot)>))
    requires
        sorted_balances(un@),
        nonzero_balances(un@),
    ensures
        r.0@.len() == n_outputs,
        forall|o: int|
            0 <= o < n_outputs ==> sorted_balances(#[trigger] aview(r.0@)[o]) && nonzero_balances(
                aview(r.0@)[o],
            ),
        sorted_balances(r.1@),
        forall|x: RuneId| asum(aview(r.0@), x) + bsum(r.1@, x) == bsum(un@, x),
        ({
            let s = spec_edicts_alloc(edicts@, n_outputs as int, balance_map(un@), zero_alloc());
            let tgt = spec_leftover_target(pointer, n_outputs as int, marker as int);
            &&& (forall|o: int, x: RuneId|
                0 <= o < n_outputs ==> #[trigger] bsum(aview(r.0@)[o], x) == s.1[(o, x)] + (if tgt
                    == Some(o) {
                    s.0[x]
                } else {
                    0
                }))
            &&& (forall|x: RuneId|
                #[trigger] bsum(r.1@, x) == (if tgt is None {
                    s.0[x]
                } else {
                    0
                }))
        }),
{
    let ghost un0 = un@;
    let mut un = un;
    let mut allocated: Vec<Vec<(RuneId, Lot)>> = Vec::new();
    while allocated.len() < n_outputs
        invariant
            allocated@.len() <= n_outputs,
            forall|x: RuneId| asum(aview(allocated@), x) == 0,
            forall|o: int|
                0 <= o < allocated@.len() ==> sorted_balances(#[trigger] aview(allocated@)[o])
                    && nonzero_balances(aview(allocated@)[o]),
        decreases n_outputs - allocated@.len(),
    {
        let ghost apre = allocated@;
        allocated.push(Vec::new());
        proof {
            assert(aview(allocated@) =~= aview(apre).push(Seq::empty()));
            assert forall|x: RuneId| asum(aview(allocated@), x) == 0 by {
                lemma_asum_push(aview(apre), Seq::empty(), x);
            }
            assert forall|o: int| 0 <= o < allocated@.len() implies sorted_balances(
                #[trigger] aview(allocated@)[o],
            ) && nonzero_balances(aview(allocated@)[o]) by {
                if o < apre.len() {
                    assert(aview(allocated@)[o] == aview(apre)[o]);
                }
            }
        }
    }
    let ghost mut rem_g: Map<RuneId, int> = balance_map(un0);
    let ghost mut alloc_g: Map<(int, RuneId), int> = zero_alloc();
    proof {
        assert(edicts@.skip(0) =~= edicts@);
        assert(rem_g.dom() =~= Set::<RuneId>::full());
        assert(alloc_g.dom() =~= Set::<(int, RuneId)>::full());
        assert forall|o2: int, x: RuneId| 0 <= o2 < n_outputs implies #[trigger] bsum(
            aview(allocated@)[o2],
            x,
        ) == 0 by {
            lemma_asum_bound(aview(allocated@), o2, x);
            lemma_bsum_nonneg(aview(allocated@)[o2], x);
        }
    }
    let ne: usize = edicts.len();
    let mut i: usize = 0;
    while i < ne
        invariant
            i <= ne,
            ne == edicts@.len(),
            allocated@.len() == n_outputs,
            sorted_balances(un0),
            sorted_balances(un@),
            forall|o: int|
                0 <= o < n_outputs ==> sorted_balances(#[trigger] aview(allocated@)[o])
                    && nonzero_balances(aview(allocated@)[o]),
            forall|x: RuneId| asum(aview(allocated@), x) + bsum(un@, x) == bsum(un0, x),
            rem_g.dom() == Set::<RuneId>::full(),
            alloc_g.dom() == Set::<(int, RuneId)>::full(),
            forall|x: RuneId| rem_g[x] == bsum(un@, x),
            forall|o2: int, x: RuneId|
                0 <= o2 < n_outputs ==> #[trigger] alloc_g[(o2, x)] == bsum(
                    aview(allocated@)[o2],
                    x,
                ),
            spec_edicts_alloc(edicts@, n_outputs as int, balance_map(un0), zero_alloc())
                == spec_edicts_alloc(edicts@.skip(i as int), n_outputs as int, rem_g, alloc_g),
        decreases ne - i,
    {
        let ed = edicts[i];
        proof {
            assert(edicts@.skip(i as int)[0] == edicts@[i as int]);
            assert(edicts@.skip(i as int).drop_first() =~= edicts@.skip(i + 1));
        }
        if ed.output < n_outputs as u128 {
            let o: usize = ed.output as usize;
            match find_balance_idx(&un, ed.id) {
                None => {
                    proof {
                        lemma_bsum_absent(un@, ed.id);
                        assert(rem_g[ed.id] == 0);
                        assert(rem_g.insert(ed.id, 0) =~= rem_g);
                        assert(alloc_g.insert((o as int, ed.id), alloc_g[(o as int, ed.id)] + 0)
                            =~= alloc_g);
                        assert(spec_edicts_alloc(
                            edicts@.skip(i as int),
                            n_outputs as int,
                            rem_g,
                            alloc_g,
                        ) == spec_edicts_alloc(edicts@.skip(i + 1), n_outputs as int, rem_g, alloc_g));
                    }
                },
                Some(k) => {
                    let avail: u128 = un[k].1.value;
                    let amount: u128 = if ed.amount == 0 || ed.amount > avail {
                        avail
                    } else {
                        ed.amount
                    };
                    proof {
                        lemma_bsum_found(un@, k as int);
                        assert(rem_g[ed.id] == avail as int);
                    }
                    if amount > 0 {
                        let ghost upre = un@;
                        let ghost apre = allocated@;
                        let ghost rem_pre = rem_g;
                        let ghost alloc_pre = alloc_g;
                        proof {
                            lemma_bsum_found(upre, k as int);
                        }
                        un.set(k, (ed.id, Lot { value: avail - amount }));
                        proof {
                            assert forall|x: RuneId|
                                bsum(un@, x) == bsum(upre, x) - (if x == ed.id {
                                    amount as int
                                } else {
                                    0
                                }) by {
                                lemma_bsum_update(
                                    upre,
                                    k as int,
                                    (ed.id, Lot { value: (avail - amount) as u128 }),
                                    x,
                                );
                            }
                            assert forall|a2: int, b2: int|
                                0 <= a2 < b2 < un@.len() implies un@[a2].0.spec_lt(un@[b2].0) by {
                                assert(un@[a2].0 == upre[a2].0 && un@[b2].0 == upre[b2].0);
                            }
                        }
                        let mut slot: Vec<(RuneId, Lot)> = allocated.remove(o);
                        proof {
                            assert(slot@ == aview(apre)[o as int]);
                            lemma_asum_bound(aview(apre), o as int, ed.id);
                            lemma_bsum_le_max(un0, ed.id);
                            lemma_bsum_nonneg(un@, ed.id);
                        }
                        // The bounds above rule the overflow case out.
                        match insert_add(&mut slot, ed.id, Lot { value: amount }) {
                            Err(_) => {
                                proof {
                                    assert(false);
                                }
                            },
                            Ok(_) => {},
                        }
                        allocated.insert(o, slot);
                        proof {
                            assert(aview(allocated@) =~= aview(apre).update(o as int, slot@));
                            assert forall|x: RuneId|
                                asum(aview(allocated@), x) + bsum(un@, x) == bsum(un0, x) by {
                                lemma_asum_update(aview(apre), o as int, slot@, x);
                            }
                            assert forall|o2: int| 0 <= o2 < n_outputs implies sorted_balances(
                                #[trigger] aview(allocated@)[o2],
                            ) && nonzero_balances(aview(allocated@)[o2]) by {
                                if o2 != o as int {
                                    assert(aview(allocated@)[o2] == aview(apre)[o2]);
                                }
                            }
                            rem_g = rem_pre.insert(ed.id, rem_pre[ed.id] - amount as int);
                            alloc_g = alloc_pre.insert(
                                (o as int, ed.id),
                                alloc_pre[(o as int, ed.id)] + amount as int,
                            );
                            assert(rem_g.dom() =~= Set::<RuneId>::full());
                            assert(alloc_g.dom() =~= Set::<(int, RuneId)>::full());
                            assert forall|x: RuneId| rem_g[x] == bsum(un@, x) by {
                                if x != ed.id {
                                    assert(rem_g[x] == rem_pre[x]);
                                }
                            }
                            assert forall|o2: int, x: RuneId|
                                0 <= o2 < n_outputs implies #[trigger] alloc_g[(o2, x)] == bsum(
                                aview(allocated@)[o2],
                                x,
                            ) by {
                                if o2 == o as int {
                                    assert(aview(allocated@)[o2] == slot@);
                                    assert(alloc_pre[(o2, x)] == bsum(aview(apre)[o2], x));
                                } else {
                                    assert(aview(allocated@)[o2] == aview(apre)[o2]);
                                    assert(alloc_g[(o2, x)] == alloc_pre[(o2, x)]);
                                }
                            }
                            assert(spec_edicts_alloc(
                                edicts@.skip(i as int),
                                n_outputs as int,
                                rem_pre,
                                alloc_pre,
                            ) == spec_edicts_alloc(
                                edicts@.skip(i + 1),
                                n_outputs as int,
                                rem_g,
                                alloc_g,
                            ));
                        }
                    } else {
                        proof {
                            assert(avail == 0);
                            assert(rem_g.insert(ed.id, 0) =~= rem_g);
                            assert(alloc_g.insert(
                                (o as int, ed.id),
                                alloc_g[(o as int, ed.id)] + 0,
                            ) =~= alloc_g);
                            assert(spec_edicts_alloc(
                                edicts@.skip(i as int),
                                n_outputs as int,
                                rem_g,
                                alloc_g,
                            ) == spec_edicts_alloc(
                                edicts@.skip(i + 1),
                                n_outputs as int,
                                rem_g,
                                alloc_g,
                            ));
                        }
                    }
                },
            }
        } else {
            proof {
                assert(spec_edicts_alloc(edicts@.skip(i as int), n_outputs as int, rem_g, alloc_g)
                    == spec_edicts_alloc(edicts@.skip(i + 1), n_outputs as int, rem_g, alloc_g));
            }
        }
        i = i + 1;
    }
    proof {
        assert(edicts@.skip(ne as int) =~= Seq::<Edict>::empty());
        assert(spec_edicts_alloc(Seq::<Edict>::empty(), n_outputs as int, rem_g, alloc_g) == (
        rem_g,
        alloc_g,
        ));
    }
    // Assign the leftover: the valid pointer output, else the first
    // non-marker output, else burn.
    let mut target: Option<usize> = None;
    match pointer {
        Some(p) => {
            if (p as usize) < n_outputs {
                target = Some(p as usize);
            }
        },
        None => {},
    }
    if target.is_none() {
        if marker != 0 {
            if n_outputs > 0 {
                target = Some(0);
            }
        } else {
            if n_outputs > 1 {
                target = Some(1);
            }
        }
    }
    let ghost tgt = spec_leftover_target(pointer, n_outputs as int, marker as int);
    proof {
        match target {
            Some(t) => {
                assert(tgt == Some(t as int));
            },
            None => {
                assert(tgt is None);
            },
        }
    }
    match target {
        None => {
            proof {
                assert forall|o2: int, x: RuneId| 0 <= o2 < n_outputs implies #[trigger] bsum(
                    aview(allocated@)[o2],
                    x,
                ) == alloc_g[(o2, x)] + 0 by {
                    assert(alloc_g[(o2, x)] == bsum(aview(allocated@)[o2], x));
                }
                assert forall|x: RuneId| #[trigger] bsum(un@, x) == rem_g[x] by {}
            }
            (allocated, un)
        },
        Some(t) => {
            let ghost apre = allocated@;
            let ghost uleft = un@;
            let mut slot: Vec<(RuneId, Lot)> = allocated.remove(t);
            let ghost st0 = slot@;
            proof {
                assert(st0 == aview(apre)[t as int]);
                assert(sorted_balances(aview(apre)[t as int]) && nonzero_balances(
                    aview(apre)[t as int],
                ));
                assert(un@.skip(0) =~= un@);
            }
            let m: usize = un.len();
            let mut p: usize = 0;
            while p < m
                invariant
                    p <= m,
                    m == un@.len(),
                    un@ == uleft,
                    t < apre.len(),
                    st0 == aview(apre)[t as int],
                    sorted_balances(un0),
                    sorted_balances(uleft),
                    sorted_balances(slot@),
                    nonzero_balances(slot@),
                    forall|x: RuneId| asum(aview(apre), x) + bsum(uleft, x) == bsum(un0, x),
                    forall|x: RuneId|
                        bsum(slot@, x) + bsum(uleft.skip(p as int), x) == bsum(st0, x) + bsum(
                            uleft,
                            x,
                        ),
                decreases m - p,
            {
                let (bid, amt) = un[p];
                proof {
                    assert(uleft.skip(p as int)[0] == uleft[p as int]);
                    assert(uleft.skip(p as int).drop_first() =~= uleft.skip(p + 1));
                    lemma_bsum_nonneg(uleft.skip(p + 1), bid);
                    lemma_asum_bound(aview(apre), t as int, bid);
                    lemma_bsum_le_max(un0, bid);
                    lemma_bsum_nonneg(uleft, bid);
                    lemma_bsum_nonneg(st0, bid);
                }
                // The bounds above rule the overflow case out.
                match insert_add(&mut slot, bid, amt) {
                    Err(_) => {
                        proof {
                            assert(false);
                        }
                    },
                    Ok(_) => {},
                }
                proof {
                    assert forall|x: RuneId|
                        bsum(slot@, x) + bsum(uleft.skip(p + 1), x) == bsum(st0, x) + bsum(
                            uleft,
                            x,
                        ) by {
                        assert(uleft.skip(p as int)[0] == uleft[p as int]);
                        assert(uleft.skip(p as int).drop_first() =~= uleft.skip(p + 1));
                    }
                }
                p = p + 1;
            }
            proof {
                assert(uleft.skip(m as int) =~= Seq::<(RuneId, Lot)>::empty());
                assert(bsum(Seq::<(RuneId, Lot)>::empty(), RuneId { block: 0, tx: 0 }) == 0);
            }
            allocated.insert(t, slot);
            let burned: Vec<(RuneId, Lot)> = Vec::new();
            proof {
                assert(aview(allocated@) =~= aview(apre).update(t as int, slot@));
                assert forall|x: RuneId|
                    asum(aview(allocated@), x) + bsum(burned@, x) == bsum(un0, x) by {
                    lemma_asum_update(aview(apre), t as int, slot@, x);
                    assert(bsum(uleft.skip(m as int), x) == 0);
                }
                assert forall|o2: int| 0 <= o2 < n_outputs implies sorted_balances(
                    #[trigger] aview(allocated@)[o2],
                ) && nonzero_balances(aview(allocated@)[o2]) by {
                    if o2 != t as int {
                        assert(aview(allocated@)[o2] == aview(apre)[o2]);
                    }
                }
                assert forall|o2: int, x: RuneId| 0 <= o2 < n_outputs implies #[trigger] bsum(
                    aview(allocated@)[o2],
                    x,
                ) == alloc_g[(o2, x)] + (if tgt == Some(o2) {
                    rem_g[x]
                } else {
                    0
                }) by {
                    if o2 == t as int {
                        assert(aview(allocated@)[o2] == slot@);
                        assert(bsum(uleft.skip(m as int), x) == 0);
                        assert(bsum(slot@, x) == bsum(st0, x) + bsum(uleft, x));
                        assert(alloc_g[(o2, x)] == bsum(aview(apre)[o2], x));
                        assert(rem_g[x] == bsum(uleft, x));
                    } else {
                        assert(aview(allocated@)[o2] == aview(apre)[o2]);
                        assert(alloc_g[(o2, x)] == bsum(aview(apre)[o2], x));
                    }
                }
                assert forall|x: RuneId| #[trigger] bsum(burned@, x) == 0 by {
                    assert(burned@ =~= Seq::<(RuneId, Lot)>::empty());
                }
            }
            (allocated, burned)
        },
    }
}

/// The outpoint rows a transaction's allocations produce: one row per
/// output with a nonzero balance list, keyed `(txid, output index)`, in
/// output order.
pub open spec fn spec_output_rows(a: Seq<Seq<(RuneId, Lot)>>, txid: Txid, o: int) -> Seq<
    OutpointEntryView,
>
    decreases a.len(),
{
    if a.len() == 0 {
        Seq::empty()
    } else {
        let rest = spec_output_rows(a.drop_first(), txid, o + 1);
        if a[0].len() > 0 {
            seq![
                OutpointEntryView {
                    outpoint: OutPoint { txid, vout: o as u32 },
                    balances: a[0],
                },
            ] + rest
        } else {
            rest
        }
    }
}

/// Every row [`spec_output_rows`] yields is keyed by the given txid.
pub proof fn lemma_output_rows_txid(a: Seq<Seq<(RuneId, Lot)>>, txid: Txid, o: int)
    ensures
        forall|k: int|
            0 <= k < spec_output_rows(a, txid, o).len() ==> (#[trigger] spec_output_rows(
                a,
                txid,
                o,
            )[k]).outpoint.txid == txid,
    decreases a.len(),
{
    if a.len() > 0 {
        lemma_output_rows_txid(a.drop_first(), txid, o + 1);
        assert forall|k: int| 0 <= k < spec_output_rows(a, txid, o).len() implies (
        #[trigger] spec_output_rows(a, txid, o)[k]).outpoint.txid == txid by {
            let rest = spec_output_rows(a.drop_first(), txid, o + 1);
            if a[0].len() > 0 {
                if k > 0 {
                    assert(spec_output_rows(a, txid, o)[k] == rest[k - 1]);
                }
            } else {
                assert(spec_output_rows(a, txid, o)[k] == rest[k]);
            }
        }
    }
}

/// Writes the nonzero per-output allocations of one transaction as new
/// outpoint records: the table gains exactly the rows of
/// [`spec_output_rows`] — output `o`'s balances under `(txid, o)`, existing
/// rows untouched — and, per token, exactly the allocated total.
pub fn persist_outputs(
    outpoints: &mut Vec<OutpointEntry>,
    txid: Txid,
    allocated: Vec<Vec<(RuneId, Lot)>>,
)
    requires
        tables_wf(oview(old(outpoints)@)),
        allocated@.len() <= u32::MAX as usize,
        forall|o: int|
            0 <= o < allocated@.len() ==> sorted_balances(#[trigger] aview(allocated@)[o])
                && nonzero_balances(aview(allocated@)[o]),
    ensures
        tables_wf(oview(final(outpoints)@)),
        oview(final(outpoints)@) == oview(old(outpoints)@) + spec_output_rows(
            aview(allocated@),
            txid,
            0,
        ),
        forall|x: RuneId|
            osum(oview(final(outpoints)@), x) == osum(oview(old(outpoints)@), x) + asum(
                aview(allocated@),
                x,
            ),
{
    let ghost a0 = aview(allocated@);
    let ghost o0 = oview(outpoints@);
    let mut rem = allocated;
    let mut o: usize = 0;
    while rem.len() > 0
        invariant
            o + rem@.len() == a0.len(),
            a0.len() <= u32::MAX as usize,
            aview(rem@) == a0.skip(o as int),
            tables_wf(oview(outpoints@)),
            forall|oo: int|
                0 <= oo < a0.len() ==> sorted_balances(#[trigger] a0[oo]) && nonzero_balances(
                    a0[oo],
                ),
            forall|x: RuneId|
                osum(oview(outpoints@), x) + asum(aview(rem@), x) == osum(o0, x) + asum(a0, x),
            oview(outpoints@) + spec_output_rows(aview(rem@), txid, o as int) == o0
                + spec_output_rows(a0, txid, 0),
        decreases rem@.len(),
    {
        let ghost rpre = aview(rem@);
        let ghost opre = oview(outpoints@);
        let b = rem.remove(0);
        proof {
            assert(b@ == rpre[0]);
            assert(rpre[0] == a0[o as int]);
            assert(aview(rem@) =~= rpre.drop_first());
            assert(rpre.drop_first() =~= a0.skip(o + 1));
        }
        if b.len() == 0 {
            proof {
                assert(spec_output_rows(rpre, txid, o as int) == spec_output_rows(
                    aview(rem@),
                    txid,
                    o + 1,
                ));
            }
        }
        if b.len() > 0 {
            let entry = OutpointEntry { outpoint: OutPoint { txid, vout: o as u32 }, balances: b };
            let ghost ev = entry@;
            outpoints.push(entry);
            proof {
                assert(oview(outpoints@) =~= opre.push(ev));
                assert(spec_output_rows(rpre, txid, o as int) == seq![ev] + spec_output_rows(
                    aview(rem@),
                    txid,
                    o + 1,
                ));
                assert(opre.push(ev) =~= opre + seq![ev]);
                assert((o0 + spec_output_rows(a0, txid, 0)) =~= (opre + seq![ev]) + spec_output_rows(
                    aview(rem@),
                    txid,
                    o + 1,
                ));
                assert forall|x: RuneId|
                    osum(oview(outpoints@), x) + asum(aview(rem@), x) == osum(o0, x) + asum(
                        a0,
                        x,
                    ) by {
                    lemma_osum_push(opre, ev, x);
                }
                assert forall|k: int| 0 <= k < oview(outpoints@).len() implies sorted_balances(
                    #[trigger] oview(outpoints@)[k].balances,
                ) && nonzero_balances(oview(outpoints@)[k].balances) by {
                    if k < opre.len() {
                        assert(oview(outpoints@)[k] == opre[k]);
                        assert(sorted_balances(opre[k].balances) && nonzero_balances(
                            opre[k].balances,
                        ));
                    } else {
                        assert(oview(outpoints@)[k] == ev);
                        assert(ev.balances == a0[o as int]);
                    }
                }
            }
        }
        o = o + 1;
    }
    proof {
        assert(aview(rem@).len() == 0);
        assert(asum(aview(rem@), RuneId { block: 0, tx: 0 }) == 0);
        assert(spec_output_rows(aview(rem@), txid, o as int) =~= Seq::<OutpointEntryView>::empty());
        assert(oview(outpoints@) =~= oview(outpoints@) + spec_output_rows(
            aview(rem@),
            txid,
            o as int,
        ));
        assert forall|x: RuneId|
            osum(oview(outpoints@), x) == osum(o0, x) + asum(a0, x) by {
            assert(asum(aview(rem@), x) == 0);
        }
    }
}

/// One mint raises the issued supply by exactly the amount per mint.
pub proof fn lemma_issued_bump(e: RuneEntry, amt: u128, ceno: bool)
    requires
        e.terms matches Some(t) && amt == t.amount,
        e.mints + 1 <= u128::MAX,
    ensures
        issued(mint_bump(e, amt, ceno)) == issued(e) + amt,
{
    let t = e.terms.unwrap();
    let m = e.mints;
    assert(t.amount as int * ((m + 1) as u128) as int == t.amount as int * m as int
        + t.amount as int) by (nonlinear_arith)
        requires
            m + 1 <= u128::MAX,
    ;
}

/// The mint reference a transaction carries, whatever kind of artifact it
/// decodes to: a cenotaph's reference still counts at the cap.
pub open spec fn spec_tx_mint(t: crate::transaction::TransactionView) -> Option<RuneId> {
    match spec_decipher(t) {
        Some(ArtifactView::Runestone(rs)) => rs.mint,
        Some(ArtifactView::Cenotaph(c)) => c.mint,
        None => None,
    }
}

/// The etching a transaction declares, if its message is well formed.
pub open spec fn spec_tx_etching(t: crate::transaction::TransactionView) -> Option<Etching> {
    match spec_decipher(t) {
        Some(ArtifactView::Runestone(rs)) => rs.etching,
        _ => None,
    }
}

/// The outpoint table after a transaction extends the gathered table only
/// with rows keyed by that transaction's id: every spent row is gone, and
/// every new row belongs to this transaction's outputs.
pub open spec fn extends_with_own_rows(
    pre: Seq<OutpointEntryView>,
    post: Seq<OutpointEntryView>,
    txid: Txid,
) -> bool {
    exists|rows: Seq<OutpointEntryView>|
        #![auto]
        post == pre + rows && (forall|k: int|
            0 <= k < rows.len() ==> (#[trigger] rows[k]).outpoint.txid == txid)
}

/// Processes one transaction: gathers the balances its inputs spend,
/// decodes its message, applies mint, etch and edicts — or burns everything
/// under a cenotaph — and records the resulting output balances. Preserves
/// the registry and balance invariants, conservation included. On failure
/// (an amount that cannot fit), the state is partially changed and the
/// caller must restore its snapshot of the block.
#[verifier::rlimit(100)]
pub fn process_tx(
    entries: &mut Vec<(RuneId, RuneEntry)>,
    outpoints: &mut Vec<OutpointEntry>,
    rune_count: &mut u64,
    tx: &Transaction,
    height: u32,
    tx_index: u32,
    time: u64,
) -> (r: Result<(), ()>)
    requires
        unique_entry_keys(old(entries)@),
        mints_capped(old(entries)@),
        tables_wf(oview(old(outpoints)@)),
        conserved(old(entries)@, oview(old(outpoints)@)),
        tx@.outputs.len() <= u32::MAX as usize,
    ensures
        r is Ok ==> unique_entry_keys(final(entries)@) && mints_capped(final(entries)@)
            && tables_wf(oview(final(outpoints)@)) && conserved(
            final(entries)@,
            oview(final(outpoints)@),
        ),
        r is Ok ==> match spec_tx_mint(tx@) {
            None => true,
            Some(mid) => match find_entry(old(entries)@, mid) {
                None => true,
                Some(e) => match spec_mintable(mid, e, height as u64) {
                    Some(amt) => (find_entry(final(entries)@, mid) matches Some(f) && f.mints
                        == e.mints + 1 && f.terms == e.terms && f.premine == e.premine),
                    None => (find_entry(final(entries)@, mid) matches Some(f) && f.mints
                        == e.mints),
                },
            },
        },
        r is Ok ==> (spec_gather(oview(old(outpoints)@), tx@.inputs, balance_map(Seq::empty()))
            matches Ok(g) && extends_with_own_rows(g.0, oview(final(outpoints)@), tx@.txid)),
        r is Ok ==> match spec_decipher(tx@) {
            Some(ArtifactView::Cenotaph(c)) => spec_gather(
                oview(old(outpoints)@),
                tx@.inputs,
                balance_map(Seq::empty()),
            ) matches Ok(g) && oview(final(outpoints)@) == g.0,
            _ => true,
        },
        r is Ok ==> match spec_tx_etching(tx@) {
            None => *final(rune_count) == *old(rune_count),
            Some(et) => match find_entry(
                old(entries)@,
                RuneId { block: height as u64, tx: tx_index },
            ) {
                Some(_) => *final(rune_count) == *old(rune_count),
                None => *final(rune_count) == *old(rune_count) + 1 && (find_entry(
                    final(entries)@,
                    RuneId { block: height as u64, tx: tx_index },
                ) matches Some(f) && f.premine == et.premine && f.terms == et.terms && f.number
                    == *old(rune_count) && f.mints == 0),
            },
        },
{
    let ghost e0 = entries@;
    let ghost o0 = oview(outpoints@);
    let marker = find_marker(tx);
    let artifact = decipher(tx);
    let mut un: Vec<(RuneId, Lot)> = Vec::new();
    match gather(outpoints, &tx.inputs, &mut un) {
        Err(_) => {
            return Err(());
        },
        Ok(_) => {},
    }
    let ghost o1 = oview(outpoints@);
    let ghost u1 = un@;
    proof {
        assert(tx@.inputs == tx.inputs@);
        assert(spec_gather(o0, tx@.inputs, balance_map(Seq::<(RuneId, Lot)>::empty())) == Ok::<
            (Seq<OutpointEntryView>, Map<RuneId, int>),
            (),
        >((o1, balance_map(u1))));
    }
    match artifact {
        None => {
            // No protocol message: gathered balances go to the first output,
            // or are burned when the transaction has no outputs.
            if tx.outputs.len() > 0 {
                if un.len() > 0 {
                    let entry = OutpointEntry {
                        outpoint: OutPoint { txid: tx.txid, vout: 0 },
                        balances: un,
                    };
                    let ghost ev = entry@;
                    outpoints.push(entry);
                    proof {
                        assert(oview(outpoints@) =~= o1.push(ev));
                        assert(extends_with_own_rows(o1, oview(outpoints@), tx@.txid)) by {
                            let rows = seq![ev];
                            assert(oview(outpoints@) =~= o1 + rows);
                            assert(forall|k: int|
                                0 <= k < rows.len() ==> (#[trigger] rows[k]).outpoint.txid
                                    == tx@.txid);
                        }
                        assert forall|k: int|
                            0 <= k < oview(outpoints@).len() implies sorted_balances(
                            #[trigger] oview(outpoints@)[k].balances,
                        ) && nonzero_balances(oview(outpoints@)[k].balances) by {
                            if k < o1.len() {
                                assert(oview(outpoints@)[k] == o1[k]);
                                assert(sorted_balances(o1[k].balances));
                            } else {
                                assert(oview(outpoints@)[k] == ev);
                            }
                        }
                        assert forall|x: RuneId|
                            match #[trigger] find_entry(entries@, x) {
                                Some(f) => osum(oview(outpoints@), x) + f.burned as int == issued(
                                    f,
                                ),
                                None => osum(oview(outpoints@), x) == 0,
                            } by {
                            lemma_osum_push(o1, ev, x);
                            lemma_osum_nonneg(o1, x);
                            lemma_bsum_nonneg(u1, x);
                        }
                    }
                } else {
                    proof {
                        assert forall|x: RuneId|
                            match #[trigger] find_entry(entries@, x) {
                                Some(f) => osum(oview(outpoints@), x) + f.burned as int == issued(
                                    f,
                                ),
                                None => osum(oview(outpoints@), x) == 0,
                            } by {
                            lemma_osum_nonneg(o1, x);
                            assert(u1.len() == 0);
                            assert(bsum(u1, x) == 0);
                        }
                        assert(extends_with_own_rows(o1, oview(outpoints@), tx@.txid)) by {
                            let rows = Seq::<OutpointEntryView>::empty();
                            assert(oview(outpoints@) =~= o1 + rows);
                        }
                    }
                }
                Ok(())
            } else {
                match persist_burned(entries, &un) {
                    Err(_) => {
                        return Err(());
                    },
                    Ok(_) => {},
                }
                proof {
                    assert forall|x: RuneId|
                        match #[trigger] find_entry(entries@, x) {
                            Some(f) => osum(oview(outpoints@), x) + f.burned as int == issued(f),
                            None => osum(oview(outpoints@), x) == 0,
                        } by {
                        lemma_osum_nonneg(o1, x);
                        lemma_bsum_nonneg(u1, x);
                        assert(find_entry(entries@, x) is Some ==> find_entry(e0, x) is Some);
                    }
                    assert forall|x: RuneId|
                        match #[trigger] find_entry(entries@, x) {
                            Some(f) => f.terms matches Some(t) ==> f.mints <= t.cap,
                            None => true,
                        } by {
                        assert(find_entry(entries@, x) is Some ==> find_entry(e0, x) is Some);
                    }
                        assert(extends_with_own_rows(o1, oview(outpoints@), tx@.txid)) by {
                            let rows = Seq::<OutpointEntryView>::empty();
                            assert(oview(outpoints@) =~= o1 + rows);
                        }
                }
                Ok(())
            }
        },
        Some(Artifact::Cenotaph(c)) => {
            match c.mint {
                Some(mid) => {
                    match apply_mint(entries, mid, height as u64, &mut un, true) {
                        Err(_) => {
                            return Err(());
                        },
                        Ok(_) => {},
                    }
                },
                None => {},
            }
            let ghost e2 = entries@;
            let ghost u2 = un@;
            match persist_burned(entries, &un) {
                Err(_) => {
                    return Err(());
                },
                Ok(_) => {},
            }
            proof {
                assert forall|x: RuneId|
                    match #[trigger] find_entry(entries@, x) {
                        Some(f) => osum(oview(outpoints@), x) + f.burned as int == issued(f),
                        None => osum(oview(outpoints@), x) == 0,
                    } by {
                    lemma_osum_nonneg(o1, x);
                    lemma_bsum_nonneg(u1, x);
                    lemma_bsum_nonneg(u2, x);
                    if c.mint is Some {
                        let mid = c.mint.unwrap();
                        if find_entry(e0, mid) is Some {
                            let me = find_entry(e0, mid).unwrap();
                            if spec_mintable(mid, me, height as u64) is Some {
                                lemma_issued_bump(
                                    me,
                                    spec_mintable(mid, me, height as u64).unwrap(),
                                    true,
                                );
                            }
                        }
                    }
                }
                assert forall|x: RuneId|
                    match #[trigger] find_entry(entries@, x) {
                        Some(f) => f.terms matches Some(t) ==> f.mints <= t.cap,
                        None => true,
                    } by {
                }
                        assert(extends_with_own_rows(o1, oview(outpoints@), tx@.txid)) by {
                            let rows = Seq::<OutpointEntryView>::empty();
                            assert(oview(outpoints@) =~= o1 + rows);
                        }
            }
            Ok(())
        },
        Some(Artifact::Runestone(rs)) => {
            match rs.mint {
                Some(mid) => {
                    match apply_mint(entries, mid, height as u64, &mut un, false) {
                        Err(_) => {
                            return Err(());
                        },
                        Ok(_) => {},
                    }
                },
                None => {},
            }
            let ghost e2 = entries@;
            let ghost u2 = un@;
            let etch_id = RuneId { block: height as u64, tx: tx_index };
            match rs.etching {
                Some(et) => {
                    match apply_etch(entries, rune_count, &et, etch_id, tx.txid, time, &mut un) {
                        Err(_) => {
                            return Err(());
                        },
                        Ok(_) => {},
                    }
                },
                None => {},
            }
            let ghost e3 = entries@;
            let ghost u3 = un@;
            // A decoded artifact implies the marker output exists.
            let mk: usize = match marker {
                Some(k) => k,
                None => {
                    proof {
                        assert(false);
                    }
                    0
                },
            };
            let (allocated, burned) = distribute(un, &rs.edicts, tx.outputs.len(), rs.pointer, mk);
            let ghost aseq = aview(allocated@);
            let ghost bseq = burned@;
            persist_outputs(outpoints, tx.txid, allocated);
            let ghost o4 = oview(outpoints@);
            proof {
                assert(extends_with_own_rows(o1, o4, tx@.txid)) by {
                    let rows = spec_output_rows(aseq, tx.txid, 0);
                    lemma_output_rows_txid(aseq, tx.txid, 0);
                    assert(o4 == o1 + rows);
                    assert(forall|k: int|
                        0 <= k < rows.len() ==> (#[trigger] rows[k]).outpoint.txid == tx@.txid);
                }
            }
            match persist_burned(entries, &burned) {
                Err(_) => {
                    return Err(());
                },
                Ok(_) => {},
            }
            proof {
                assert forall|x: RuneId|
                    match #[trigger] find_entry(entries@, x) {
                        Some(f) => osum(oview(outpoints@), x) + f.burned as int == issued(f),
                        None => osum(oview(outpoints@), x) == 0,
                    } by {
                    lemma_osum_nonneg(o1, x);
                    lemma_bsum_nonneg(u1, x);
                    lemma_bsum_nonneg(u2, x);
                    lemma_bsum_nonneg(u3, x);
                    lemma_bsum_nonneg(bseq, x);
                    lemma_asum_nonneg(aseq, x);
                    let f0 = find_entry(e0, x);
                    let f2 = find_entry(e2, x);
                    let f3 = find_entry(e3, x);
                    let f5 = find_entry(entries@, x);
                    let s0x = osum(o0, x);
                    let s1x = osum(o1, x);
                    let s4x = osum(o4, x);
                    let w1 = bsum(u1, x);
                    let w2 = bsum(u2, x);
                    let w3 = bsum(u3, x);
                    let ax = asum(aseq, x);
                    let bx = bsum(bseq, x);
                    assert(s1x + w1 == s0x);
                    assert(ax + bx == w3);
                    assert(s4x == s1x + ax);
                    if f0 is Some {
                        assert(s0x + f0.unwrap().burned as int == issued(f0.unwrap()));
                    } else {
                        assert(s0x == 0);
                    }
                    let h64 = height as u64;
                    if rs.mint is Some && find_entry(e0, rs.mint.unwrap()) is Some
                        && spec_mintable(
                        rs.mint.unwrap(),
                        find_entry(e0, rs.mint.unwrap()).unwrap(),
                        h64,
                    ) is Some {
                        let mid = rs.mint.unwrap();
                        let me = find_entry(e0, mid).unwrap();
                        let amt = spec_mintable(mid, me, h64).unwrap();
                        lemma_issued_bump(me, amt, false);
                        assert(f2 == (if x == mid {
                            Some(mint_bump(me, amt, false))
                        } else {
                            f0
                        }));
                        assert(w2 == w1 + (if x == mid {
                            amt as int
                        } else {
                            0
                        }));
                    } else {
                        assert(f2 == f0 && w2 == w1);
                    }
                    if rs.etching is Some && find_entry(e2, etch_id) is None {
                        let et = rs.etching.unwrap();
                        if x == etch_id {
                            assert(f3 is Some);
                            let ne = f3.unwrap();
                            assert(ne.premine == et.premine && ne.mints == 0 && ne.burned == 0);
                            assert(issued(ne) == et.premine);
                            assert(w3 == w2 + et.premine);
                        } else {
                            assert(f3 == f2 && w3 == w2);
                        }
                    } else {
                        assert(f3 == f2 && w3 == w2);
                    }
                    if f3 is Some {
                        let e3e = f3.unwrap();
                        assert(f5 == Some(burn_add(e3e, bx)));
                        assert(issued(burn_add(e3e, bx)) == issued(e3e));
                        assert(e3e.burned + bx <= u128::MAX);
                        assert(s1x + w3 + e3e.burned as int == issued(e3e));
                    } else {
                        assert(f5 is None && bx == 0);
                        assert(s0x == 0 && s1x == 0 && w1 == 0 && w2 == 0 && w3 == 0);
                        assert(ax == 0);
                        assert(s4x == 0);
                    }
                }
                assert forall|x: RuneId|
                    match #[trigger] find_entry(entries@, x) {
                        Some(f) => f.terms matches Some(t) ==> f.mints <= t.cap,
                        None => true,
                    } by {
                }
            }
            Ok(())
        },
    }
}

/// What one processed transaction did, stated over the three tables: the
/// outpoint table is the gather fold of the spent inputs extended only with
/// rows of this transaction (none under a cenotaph), the mint reference
/// advances its counter exactly when eligible, the etching registers the
/// slot exactly when free, and the well-formedness and conservation
/// invariants hold after.
pub open spec fn spec_tx_rel(
    pre: StateView,
    tx: crate::transaction::TransactionView,
    height: u32,
    tx_index: u32,
    post: StateView,
) -> bool {
    &&& post.checkpoint == pre.checkpoint
    &&& (spec_gather(pre.outpoints, tx.inputs, balance_map(Seq::empty())) matches Ok(g)
        && extends_with_own_rows(g.0, post.outpoints, tx.txid) && (spec_decipher(tx) matches Some(
        ArtifactView::Cenotaph(c),
    ) ==> post.outpoints == g.0))
    &&& match spec_tx_mint(tx) {
        None => true,
        Some(mid) => match find_entry(pre.entries, mid) {
            None => true,
            Some(e) => match spec_mintable(mid, e, height as u64) {
                Some(amt) => (find_entry(post.entries, mid) matches Some(f) && f.mints == e.mints
                    + 1 && f.terms == e.terms && f.premine == e.premine),
                None => (find_entry(post.entries, mid) matches Some(f) && f.mints == e.mints),
            },
        },
    }
    &&& match spec_tx_etching(tx) {
        None => post.rune_count == pre.rune_count,
        Some(et) => match find_entry(
            pre.entries,
            RuneId { block: height as u64, tx: tx_index },
        ) {
            Some(_) => post.rune_count == pre.rune_count,
            None => post.rune_count == pre.rune_count + 1 && (find_entry(
                post.entries,
                RuneId { block: height as u64, tx: tx_index },
            ) matches Some(f) && f.premine == et.premine && f.terms == et.terms && f.number
                == pre.rune_count && f.mints == 0),
        },
    }
    &&& unique_entry_keys(post.entries)
    &&& mints_capped(post.entries)
    &&& tables_wf(post.outpoints)
    &&& conserved(post.entries, post.outpoints)
}

/// The committed tables of a block are reached from the prior state by a
/// chain of per-transaction steps, one [`spec_tx_rel`] step per transaction
/// in block order.
pub open spec fn spec_block_txs(
    pre: StateView,
    b: crate::transaction::BlockView,
    post: StateView,
) -> bool {
    exists|chain: Seq<StateView>|
        #![auto]
        chain.len() == b.txdata.len() + 1 && chain[0] == pre && chain[b.txdata.len() as int]
            == post && (forall|k: int|
            0 <= k < b.txdata.len() ==> spec_tx_rel(
                #[trigger] chain[k],
                b.txdata[k],
                b.height,
                k as u32,
                chain[k + 1],
            ))
}

/// Why a block was not committed.
#[derive(Clone, Copy, Debug, PartialEq, Eq, Structural)]
pub enum BlockError {
    /// The block's height is not the next one after the checkpoint:
    /// reprocessing an already indexed block is rejected with no change.
    NotNext,
    /// The block's height is next, but its previous-hash does not match the
    /// checkpoint hash: a reorganization happened and the caller must roll
    /// back before resuming.
    ReorgDetected,
    /// An amount overflowed while applying the block; nothing was committed
    /// and the same block may be retried.
    Arithmetic,
}

/// The block is the next one the ledger expects.
pub open spec fn next_height_ok(cp: Option<Checkpoint>, b: crate::transaction::BlockView) -> bool {
    match cp {
        None => b.height == 0,
        Some(c) => c.height < u32::MAX && b.height == c.height + 1,
    }
}

/// The block extends the chain the checkpoint is on.
pub open spec fn prev_hash_ok(cp: Option<Checkpoint>, b: crate::transaction::BlockView) -> bool {
    match cp {
        None => true,
        Some(c) => b.prev_hash == c.hash,
    }
}

/// Machine limits the engine relies on: output counts and transaction
/// counts fit the protocol's 32-bit indices.
pub open spec fn block_wf(b: crate::transaction::BlockView) -> bool {
    &&& b.txdata.len() <= u32::MAX as usize
    &&& forall|i: int|
        0 <= i < b.txdata.len() ==> (#[trigger] b.txdata[i]).outputs.len() <= u32::MAX as usize
}

impl Ledger {
    /// Transforms the ledger at height `h` into the state at `h + 1` by one
    /// atomic commit, or changes nothing: a block at the wrong height is
    /// rejected (`NotNext` — reprocessing an indexed block has no effect), a
    /// prev-hash mismatch reports a reorganization, and an amount overflow
    /// aborts the attempt with the state exactly as before. On success the
    /// checkpoint moves to this block and the pre-commit state joins the
    /// undo log, so the commit can be reversed exactly.
    pub fn process_block(&mut self, block: &Block) -> (r: Result<(), BlockError>)
        requires
            old(self).inv(),
            block_wf(block@),
        ensures
            final(self).inv(),
            (r == Err::<(), BlockError>(BlockError::NotNext)) <==> !next_height_ok(
                old(self)@.state.checkpoint,
                block@,
            ),
            (r == Err::<(), BlockError>(BlockError::ReorgDetected)) <==> (next_height_ok(
                old(self)@.state.checkpoint,
                block@,
            ) && !prev_hash_ok(old(self)@.state.checkpoint, block@)),
            r is Err ==> final(self)@ == old(self)@,
            r is Ok ==> {
                &&& next_height_ok(old(self)@.state.checkpoint, block@)
                &&& prev_hash_ok(old(self)@.state.checkpoint, block@)
                &&& final(self)@.state.checkpoint == Some(
                    Checkpoint { height: block@.height, hash: block@.hash },
                )
                &&& final(self)@.undo.len() > 0
                &&& final(self)@.undo.last() == old(self)@.state
                &&& final(self)@.undo == (if old(self)@.undo.len() < old(self)@.max_undo {
                    old(self)@.undo.push(old(self)@.state)
                } else {
                    old(self)@.undo.subrange(1, old(self)@.undo.len() as int).push(
                        old(self)@.state,
                    )
                })
                &&& final(self)@.max_undo == old(self)@.max_undo
                &&& spec_block_txs(
                    old(self)@.state,
                    block@,
                    (StateView { checkpoint: old(self)@.state.checkpoint, ..final(self)@.state }),
                )
            },
    {
        let hok: bool = match self.checkpoint {
            None => block.height == 0,
            Some(c) => c.height < u32::MAX && block.height == c.height + 1,
        };
        if !hok {
            return Err(BlockError::NotNext);
        }
        let phok: bool = match self.checkpoint {
            None => true,
            Some(c) => block.prev_hash == c.hash,
        };
        if !phok {
            return Err(BlockError::ReorgDetected);
        }
        let snap = self.clone_state();
        let n: usize = block.txdata.len();
        let mut i: usize = 0;
        let ghost mut chain: Seq<StateView> = seq![self@.state];
        while i < n
            invariant
                i <= n,
                n == block.txdata@.len(),
                block_wf(block@),
                old(self).inv(),
                next_height_ok(old(self)@.state.checkpoint, block@),
                prev_hash_ok(old(self)@.state.checkpoint, block@),
                snap@ == old(self)@.state,
                self@.undo == old(self)@.undo,
                self@.max_undo == old(self)@.max_undo,
                self@.state.checkpoint == old(self)@.state.checkpoint,
                unique_entry_keys(self@.state.entries),
                mints_capped(self@.state.entries),
                tables_wf(self@.state.outpoints),
                conserved(self@.state.entries, self@.state.outpoints),
                chain.len() == i + 1,
                chain[0] == old(self)@.state,
                chain[i as int] == self@.state,
                forall|k: int|
                    0 <= k < i ==> spec_tx_rel(
                        #[trigger] chain[k],
                        block@.txdata[k],
                        block@.height,
                        k as u32,
                        chain[k + 1],
                    ),
            decreases n - i,
        {
            proof {
                assert(block@.txdata[i as int] == block.txdata@[i as int]@);
            }
            let ghost pre_state = self@.state;
            let ok = process_tx(
                &mut self.entries,
                &mut self.outpoints,
                &mut self.rune_count,
                &block.txdata[i],
                block.height,
                i as u32,
                block.time,
            );
            match ok {
                Err(_) => {
                    self.restore_from(&snap);
                    proof {
                        assert(self@ =~= old(self)@);
                    }
                    return Err(BlockError::Arithmetic);
                },
                Ok(_) => {},
            }
            proof {
                let post_state = self@.state;
                assert(spec_tx_rel(
                    pre_state,
                    block@.txdata[i as int],
                    block@.height,
                    i as u32,
                    post_state,
                ));
                chain = chain.push(post_state);
                assert(chain[i + 1] == post_state);
                assert forall|k: int| 0 <= k < i + 1 implies spec_tx_rel(
                    #[trigger] chain[k],
                    block@.txdata[k],
                    block@.height,
                    k as u32,
                    chain[k + 1],
                ) by {
                    if k < i {
                        assert(chain[k] == chain.drop_last()[k]);
                        assert(chain[k + 1] == chain.drop_last()[k + 1]);
                    }
                }
            }
            i = i + 1;
        }
        let ghost done_state = self@.state;
        proof {
            assert(spec_block_txs(old(self)@.state, block@, done_state)) by {
                assert(chain.len() == block@.txdata.len() + 1 && chain[0] == old(self)@.state
                    && chain[block@.txdata.len() as int] == done_state && (forall|k: int|
                    0 <= k < block@.txdata.len() ==> spec_tx_rel(
                        #[trigger] chain[k],
                        block@.txdata[k],
                        block@.height,
                        k as u32,
                        chain[k + 1],
                    )));
            }
        }
        self.checkpoint = Some(Checkpoint { height: block.height, hash: block.hash });
        let ghost utrim = self@.undo;
        if self.undo.len() >= self.max_undo {
            let ghost upre = self@.undo;
            let _dropped = self.undo.remove(0);
            proof {
                assert(self@.undo =~= upre.subrange(1, upre.len() as int));
            }
        }
        let ghost ubefore = self@.undo;
        self.undo.push(snap);
        proof {
            assert(self@.undo =~= ubefore.push(snap@));
            assert(state_inv(old(self)@.state));
            assert forall|k: int| 0 <= k < self@.undo.len() implies state_inv(
                #[trigger] self@.undo[k],
            ) by {
                if k < ubefore.len() {
                    assert(self@.undo[k] == ubefore[k]);
                    if utrim.len() >= old(self)@.max_undo {
                        assert(ubefore[k] == utrim[k + 1]);
                        assert(state_inv(old(self)@.undo[k + 1]));
                    } else {
                        assert(state_inv(old(self)@.undo[k]));
                    }
                } else {
                    assert(self@.undo[k] == snap@);
                }
            }
            assert((StateView { checkpoint: old(self)@.state.checkpoint, ..self@.state })
                =~= done_state);
        }
        Ok(())
    }
}

/// Conservation, as a stated law: in any well-formed ledger, the live
/// outpoint balances of a registered token equal its issued supply (premine
/// plus amount-per-mint times mints) minus what was provably burned; an
/// unregistered id has no balance at all.
pub proof fn lemma_conservation(l: Ledger, id: RuneId)
    requires
        l.inv(),
    ensures
        match find_entry(l@.state.entries, id) {
            Some(e) => osum(l@.state.outpoints, id) == issued(e) - e.burned,
            None => osum(l@.state.outpoints, id) == 0,
        },
{
}

/// Idempotence, as a stated law: a block at or below the checkpoint height
/// is never the next block, so reprocessing an already indexed block is
/// rejected and leaves the ledger unchanged.
pub proof fn lemma_reprocess_rejected(cp: Checkpoint, b: crate::transaction::BlockView)
    requires
        b.height <= cp.height,
    ensures
        !next_height_ok(Some(cp), b),
{
}

/// Cap enforcement, as a stated law: once `mints` has reached the cap, the
/// token is mintable at no height, so a further attempt credits nothing and
/// leaves the counter unchanged (see [`apply_mint`]'s contract for the
/// no-change half).
pub proof fn lemma_cap_enforced(id: RuneId, e: RuneEntry, h: u64)
    requires
        e.terms matches Some(t) && e.mints >= t.cap,
    ensures
        spec_mintable(id, e, h) is None,
{
}

/// Reorg correctness, as a stated law: a commit leaves the pre-commit state
/// as the newest undo record, and a rollback reinstates exactly that
/// record; therefore undoing the committed blocks of an abandoned branch in
/// reverse order and replaying the competing branch yields the same states
/// a ledger that only ever saw the competing branch passes through.
pub proof fn lemma_rollback_exact(pre: LedgerView, post: LedgerView, rolled: LedgerView)
    requires
        post.undo.len() > 0,
        post.undo.last() == pre.state,
        rolled.state == post.undo.last(),
    ensures
        rolled.state == pre.state,
{
}

} // verus!
