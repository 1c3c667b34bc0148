//! The ledger: token registry, per-outpoint balances and the indexing
//! checkpoint, held as one in-memory store with per-commit undo snapshots.
//!
//! Balance lists are kept id-ascending with unique ids and only nonzero
//! amounts. The conservation invariant ties the three tables together: for
//! every registered token, the live outpoint balances plus the amount burned
//! equal the premine plus what minting has issued.

use vstd::prelude::*;
use crate::lot::Lot;
use crate::runestone::{RuneId, Terms};
use crate::transaction::{BlockHash, OutPoint, Txid};

verus! {

/// Registry record of one token, keyed by its [`RuneId`].
#[derive(Clone, Copy, Debug)]
pub struct RuneEntry {
    /// The token's name, as a base-26 numeral; `None` when none was given.
    pub rune: Option<u128>,
    /// Bit mask of spacer positions in the display name.
    pub spacers: u32,
    /// Display symbol, as a code point.
    pub symbol: Option<u32>,
    pub divisibility: u8,
    /// Sequential number of the etching across all history.
    pub number: u64,
    pub etching_txid: Txid,
    pub premine: u128,
    pub terms: Option<Terms>,
    /// Mints executed so far; at most `cap` when terms are set.
    pub mints: u128,
    /// Total amount provably burned so far.
    pub burned: u128,
    pub turbo: bool,
    /// Block time of the etching block.
    pub timestamp: u64,
}

/// The last fully incorporated block.
#[derive(Clone, Copy, Debug, PartialEq, Eq, Structural)]
pub struct Checkpoint {
    pub height: u32,
    pub hash: BlockHash,
}

/// Balances attached to one outpoint.
#[derive(Clone, Debug)]
pub struct OutpointEntry {
    pub outpoint: OutPoint,
    pub balances: Vec<(RuneId, Lot)>,
}

/// Mathematical model of an [`OutpointEntry`].
#[verifier::ext_equal]
pub struct OutpointEntryView {
    pub outpoint: OutPoint,
    pub balances: Seq<(RuneId, Lot)>,
}

impl View for OutpointEntry {
    type V = OutpointEntryView;

    open spec fn view(&self) -> OutpointEntryView {
        OutpointEntryView { outpoint: self.outpoint, balances: self.balances@ }
    }
}

/// One committed state of the three tables, as the undo log retains it.
#[verifier::ext_equal]
pub struct StateView {
    pub entries: Seq<(RuneId, RuneEntry)>,
    pub outpoints: Seq<OutpointEntryView>,
    pub checkpoint: Option<Checkpoint>,
    pub rune_count: u64,
}

/// The total amount of `id` in one balance list.
pub open spec fn bsum(s: Seq<(RuneId, Lot)>, id: RuneId) -> int
    decreases s.len(),
{
    if s.len() == 0 {
        0
    } else {
        (if s[0].0 == id {
            s[0].1.value as int
        } else {
            0
        }) + bsum(s.drop_first(), id)
    }
}

/// The total amount of `id` over all live outpoint balances.
pub open spec fn osum(s: Seq<OutpointEntryView>, id: RuneId) -> int
    decreases s.len(),
{
    if s.len() == 0 {
        0
    } else {
        bsum(s[0].balances, id) + osum(s.drop_first(), id)
    }
}

pub proof fn lemma_bsum_nonneg(s: Seq<(RuneId, Lot)>, id: RuneId)
    ensures
        bsum(s, id) >= 0,
    decreases s.len(),
{
    if s.len() > 0 {
        lemma_bsum_nonneg(s.drop_first(), id);
    }
}

pub proof fn lemma_osum_nonneg(s: Seq<OutpointEntryView>, id: RuneId)
    ensures
        osum(s, id) >= 0,
    decreases s.len(),
{
    if s.len() > 0 {
        lemma_bsum_nonneg(s[0].balances, id);
        lemma_osum_nonneg(s.drop_first(), id);
    }
}

pub proof fn lemma_bsum_push(s: Seq<(RuneId, Lot)>, p: (RuneId, Lot), id: RuneId)
    ensures
        bsum(s.push(p), id) == bsum(s, id) + (if p.0 == id {
            p.1.value as int
        } else {
            0
        }),
    decreases s.len(),
{
    assert(s.push(p)[0] == if s.len() == 0 { p } else { s[0] });
    if s.len() == 0 {
        assert(s.push(p).drop_first() =~= Seq::<(RuneId, Lot)>::empty());
        assert(bsum(Seq::<(RuneId, Lot)>::empty(), id) == 0);
    } else {
        assert(s.push(p).drop_first() =~= s.drop_first().push(p));
        lemma_bsum_push(s.drop_first(), p, id);
    }
}

pub proof fn lemma_bsum_insert(s: Seq<(RuneId, Lot)>, i: int, p: (RuneId, Lot), id: RuneId)
    requires
        0 <= i <= s.len(),
    ensures
        bsum(s.insert(i, p), id) == bsum(s, id) + (if p.0 == id {
            p.1.value as int
        } else {
            0
        }),
    decreases s.len(),
{
    if i == 0 {
        assert(s.insert(0, p).drop_first() =~= s);
    } else {
        assert(s.insert(i, p).drop_first() =~= s.drop_first().insert(i - 1, p));
        lemma_bsum_insert(s.drop_first(), i - 1, p, id);
    }
}

pub proof fn lemma_bsum_update(s: Seq<(RuneId, Lot)>, i: int, p: (RuneId, Lot), id: RuneId)
    requires
        0 <= i < s.len(),
    ensures
        bsum(s.update(i, p), id) == bsum(s, id) - (if s[i].0 == id {
            s[i].1.value as int
        } else {
            0
        }) + (if p.0 == id {
            p.1.value as int
        } else {
            0
        }),
    decreases s.len(),
{
    if i == 0 {
        assert(s.update(0, p).drop_first() =~= s.drop_first());
    } else {
        assert(s.update(i, p).drop_first() =~= s.drop_first().update(i - 1, p));
        lemma_bsum_update(s.drop_first(), i - 1, p, id);
    }
}

pub proof fn lemma_osum_push(s: Seq<OutpointEntryView>, e: OutpointEntryView, id: RuneId)
    ensures
        osum(s.push(e), id) == osum(s, id) + bsum(e.balances, id),
    decreases s.len(),
{
    assert(s.push(e)[0] == if s.len() == 0 { e } else { s[0] });
    if s.len() == 0 {
        assert(s.push(e).drop_first() =~= Seq::<OutpointEntryView>::empty());
        assert(osum(Seq::<OutpointEntryView>::empty(), id) == 0);
    } else {
        assert(s.push(e).drop_first() =~= s.drop_first().push(e));
        lemma_osum_push(s.drop_first(), e, id);
    }
}

pub proof fn lemma_osum_remove(s: Seq<OutpointEntryView>, i: int, id: RuneId)
    requires
        0 <= i < s.len(),
    ensures
        osum(s.remove(i), id) == osum(s, id) - bsum(s[i].balances, id),
    decreases s.len(),
{
    if i == 0 {
        assert(s.remove(0) =~= s.drop_first());
    } else {
        assert(s.remove(i).drop_first() =~= s.drop_first().remove(i - 1));
        lemma_osum_remove(s.drop_first(), i - 1, id);
    }
}

/// Balance lists are id-ascending, so ids are unique and lookups are total
/// amounts.
pub open spec fn sorted_balances(s: Seq<(RuneId, Lot)>) -> bool {
    forall|i: int, j: int| 0 <= i < j < s.len() ==> s[i].0.spec_lt(s[j].0)
}

/// Balance lists carry only nonzero amounts.
pub open spec fn nonzero_balances(s: Seq<(RuneId, Lot)>) -> bool {
    forall|i: int| 0 <= i < s.len() ==> s[i].1.value > 0
}

/// In a list with unique ids, the sum for `id` is the one pair's amount.
pub proof fn lemma_bsum_found(s: Seq<(RuneId, Lot)>, i: int)
    requires
        sorted_balances(s),
        0 <= i < s.len(),
    ensures
        bsum(s, s[i].0) == s[i].1.value as int,
    decreases s.len(),
{
    if i == 0 {
        assert forall|j: int| 0 <= j < s.drop_first().len() implies s.drop_first()[j].0 != s[0].0 by {
            assert(s[0].0.spec_lt(s[j + 1].0));
        }
        lemma_bsum_absent(s.drop_first(), s[0].0);
    } else {
        assert(s[0].0.spec_lt(s[i].0));
        lemma_bsum_found(s.drop_first(), i - 1);
    }
}

/// If the first `j` pairs all differ from `id`, that prefix's sum is zero.
pub proof fn lemma_bsum_absent_take(s: Seq<(RuneId, Lot)>, j: int, id: RuneId)
    requires
        0 <= j <= s.len(),
        forall|k: int| 0 <= k < j ==> s[k].0 != id,
    ensures
        bsum(s.take(j), id) == 0,
{
    assert forall|k: int| 0 <= k < s.take(j).len() implies s.take(j)[k].0 != id by {
        assert(s[k].0 != id);
    }
    lemma_bsum_absent(s.take(j), id);
}

/// If no pair carries `id`, the sum for `id` is zero.
pub proof fn lemma_bsum_absent(s: Seq<(RuneId, Lot)>, id: RuneId)
    requires
        forall|i: int| 0 <= i < s.len() ==> s[i].0 != id,
    ensures
        bsum(s, id) == 0,
    decreases s.len(),
{
    if s.len() > 0 {
        lemma_bsum_absent(s.drop_first(), id);
    }
}

/// The first entry with key `id` at or after `i`, if any.
pub open spec fn find_entry_from(s: Seq<(RuneId, RuneEntry)>, id: RuneId, i: int) -> Option<
    RuneEntry,
>
    decreases s.len() - i,
{
    if i < 0 || i >= s.len() {
        None
    } else if s[i].0 == id {
        Some(s[i].1)
    } else {
        find_entry_from(s, id, i + 1)
    }
}

/// The registry record of `id`, if registered.
pub open spec fn find_entry(s: Seq<(RuneId, RuneEntry)>, id: RuneId) -> Option<RuneEntry> {
    find_entry_from(s, id, 0)
}

/// The first outpoint-table index holding `op` at or after `i`, if any.
pub open spec fn find_outpoint_from(s: Seq<OutpointEntryView>, op: OutPoint, i: int) -> Option<int>
    decreases s.len() - i,
{
    if i < 0 || i >= s.len() {
        None
    } else if s[i].outpoint == op {
        Some(i)
    } else {
        find_outpoint_from(s, op, i + 1)
    }
}

/// What each mint has issued in total for an entry.
pub open spec fn mint_total(e: RuneEntry) -> int {
    match e.terms {
        Some(t) => t.amount as int * e.mints as int,
        None => 0,
    }
}

/// Total supply ever issued for an entry: premine plus minted.
pub open spec fn issued(e: RuneEntry) -> int {
    e.premine as int + mint_total(e)
}

/// Conservation: for every registered token the live balances plus the
/// burned amount equal the issued supply, and no balance exists for an
/// unregistered id.
pub open spec fn conserved(entries: Seq<(RuneId, RuneEntry)>, outpoints: Seq<OutpointEntryView>) -> bool {
    &&& forall|id: RuneId|
        #![trigger find_entry(entries, id)]
        match find_entry(entries, id) {
            Some(e) => osum(outpoints, id) + e.burned as int == issued(e),
            None => osum(outpoints, id) == 0,
        }
}

/// Structural well-formedness of the balance tables.
pub open spec fn tables_wf(outpoints: Seq<OutpointEntryView>) -> bool {
    forall|i: int|
        0 <= i < outpoints.len() ==> sorted_balances(#[trigger] outpoints[i].balances)
            && nonzero_balances(outpoints[i].balances)
}

/// In a sorted balance list the sum for any id fits the amount type.
pub proof fn lemma_bsum_le_max(s: Seq<(RuneId, Lot)>, id: RuneId)
    requires
        sorted_balances(s),
    ensures
        0 <= bsum(s, id) <= u128::MAX,
{
    lemma_bsum_nonneg(s, id);
    if exists|i: int| 0 <= i < s.len() && s[i].0 == id {
        let i = choose|i: int| 0 <= i < s.len() && s[i].0 == id;
        lemma_bsum_found(s, i);
    } else {
        lemma_bsum_absent(s, id);
    }
}

/// Registry keys are unique: each token is registered exactly once.
pub open spec fn unique_entry_keys(s: Seq<(RuneId, RuneEntry)>) -> bool {
    forall|i: int, j: int| 0 <= i < j < s.len() ==> s[i].0 != s[j].0
}

/// Mint counters never pass the cap.
pub open spec fn mints_capped(s: Seq<(RuneId, RuneEntry)>) -> bool {
    forall|id: RuneId|
        #![trigger find_entry(s, id)]
        match find_entry(s, id) {
            Some(e) => match e.terms {
                Some(t) => e.mints <= t.cap,
                None => true,
            },
            None => true,
        }
}

/// Updating the record at a key changes only that key's lookup.
pub proof fn lemma_find_from_update(
    s: Seq<(RuneId, RuneEntry)>,
    i: int,
    e: RuneEntry,
    x: RuneId,
    from: int,
)
    requires
        unique_entry_keys(s),
        0 <= i < s.len(),
        0 <= from <= s.len(),
    ensures
        find_entry_from(s.update(i, (s[i].0, e)), x, from) == (if x == s[i].0 && from <= i {
            Some(e)
        } else {
            find_entry_from(s, x, from)
        }),
    decreases s.len() - from,
{
    let t = s.update(i, (s[i].0, e));
    if from < s.len() {
        assert(t[from].0 == s[from].0);
        if s[from].0 == x {
            if x == s[i].0 && from != i {
                assert(false);
            }
        } else {
            lemma_find_from_update(s, i, e, x, from + 1);
        }
    }
}

/// Appending a fresh key leaves every other lookup unchanged.
pub proof fn lemma_find_from_push(
    s: Seq<(RuneId, RuneEntry)>,
    p: (RuneId, RuneEntry),
    x: RuneId,
    from: int,
)
    requires
        0 <= from <= s.len(),
    ensures
        find_entry_from(s.push(p), x, from) == (if find_entry_from(s, x, from) is Some {
            find_entry_from(s, x, from)
        } else if p.0 == x {
            Some(p.1)
        } else {
            None
        }),
    decreases s.len() - from,
{
    if from < s.len() {
        assert(s.push(p)[from] == s[from]);
        if s[from].0 != x {
            lemma_find_from_push(s, p, x, from + 1);
        }
    } else {
        assert(s.push(p)[from] == p);
        assert(find_entry_from(s.push(p), x, from + 1) is None);
    }
}

/// View of a list of per-output balance lists.
pub open spec fn aview(a: Seq<Vec<(RuneId, Lot)>>) -> Seq<Seq<(RuneId, Lot)>> {
    a.map_values(|v: Vec<(RuneId, Lot)>| v@)
}

/// The total amount of `id` over a list of balance lists.
pub open spec fn asum(a: Seq<Seq<(RuneId, Lot)>>, id: RuneId) -> int
    decreases a.len(),
{
    if a.len() == 0 {
        0
    } else {
        bsum(a[0], id) + asum(a.drop_first(), id)
    }
}

pub proof fn lemma_asum_nonneg(a: Seq<Seq<(RuneId, Lot)>>, id: RuneId)
    ensures
        asum(a, id) >= 0,
    decreases a.len(),
{
    if a.len() > 0 {
        lemma_bsum_nonneg(a[0], id);
        lemma_asum_nonneg(a.drop_first(), id);
    }
}

/// Every element's sum is bounded by the total.
pub proof fn lemma_asum_bound(a: Seq<Seq<(RuneId, Lot)>>, o: int, id: RuneId)
    requires
        0 <= o < a.len(),
    ensures
        bsum(a[o], id) <= asum(a, id),
    decreases a.len(),
{
    lemma_bsum_nonneg(a[0], id);
    if o == 0 {
        lemma_asum_nonneg(a.drop_first(), id);
    } else {
        lemma_asum_bound(a.drop_first(), o - 1, id);
    }
}

/// Appending one list adds its sum to the total.
pub proof fn lemma_asum_push(a: Seq<Seq<(RuneId, Lot)>>, v: Seq<(RuneId, Lot)>, id: RuneId)
    ensures
        asum(a.push(v), id) == asum(a, id) + bsum(v, id),
    decreases a.len(),
{
    assert(a.push(v)[0] == if a.len() == 0 { v } else { a[0] });
    if a.len() == 0 {
        assert(a.push(v).drop_first() =~= Seq::<Seq<(RuneId, Lot)>>::empty());
        assert(asum(Seq::<Seq<(RuneId, Lot)>>::empty(), id) == 0);
    } else {
        assert(a.push(v).drop_first() =~= a.drop_first().push(v));
        lemma_asum_push(a.drop_first(), v, id);
    }
}

/// First balance-list index holding `id`, if any.
pub fn find_balance_idx(v: &Vec<(RuneId, Lot)>, id: RuneId) -> (r: Option<usize>)
    ensures
        r matches Some(i) ==> i < v@.len() && v@[i as int].0 == id,
        r is None ==> forall|k: int| 0 <= k < v@.len() ==> v@[k].0 != id,
{
    let n: usize = v.len();
    let mut i: usize = 0;
    while i < n
        invariant
            i <= n,
            n == v@.len(),
            forall|k: int| 0 <= k < i ==> v@[k].0 != id,
        decreases n - i,
    {
        if v[i].0 == id {
            return Some(i);
        }
        i = i + 1;
    }
    None
}

/// Replacing one element changes the total by the difference.
pub proof fn lemma_asum_update(a: Seq<Seq<(RuneId, Lot)>>, o: int, v: Seq<(RuneId, Lot)>, id: RuneId)
    requires
        0 <= o < a.len(),
    ensures
        asum(a.update(o, v), id) == asum(a, id) - bsum(a[o], id) + bsum(v, id),
    decreases a.len(),
{
    if o == 0 {
        assert(a.update(0, v).drop_first() =~= a.drop_first());
    } else {
        assert(a.update(o, v).drop_first() =~= a.drop_first().update(o - 1, v));
        lemma_asum_update(a.drop_first(), o - 1, v, id);
    }
}

/// Adds `amount` of `id` to a sorted balance list, keeping it sorted,
/// unique and nonzero. Fails, leaving the list unchanged, exactly when the
/// new total for `id` would not fit the amount type.
pub fn insert_add(v: &mut Vec<(RuneId, Lot)>, id: RuneId, amount: Lot) -> (r: Result<(), ()>)
    requires
        sorted_balances(old(v)@),
        nonzero_balances(old(v)@),
    ensures
        r is Ok ==> sorted_balances(final(v)@) && nonzero_balances(final(v)@) && (forall|x: RuneId|
            bsum(final(v)@, x) == bsum(old(v)@, x) + (if x == id {
                amount.value as int
            } else {
                0
            })),
        r is Err ==> final(v)@ == old(v)@,
        (r is Err) <==> bsum(old(v)@, id) + amount.value > u128::MAX,
{
    let ghost s0 = v@;
    proof {
        lemma_bsum_le_max(s0, id);
    }
    if amount.value == 0 {
        return Ok(());
    }
    let n: usize = v.len();
    let mut j: usize = 0;
    while j < n && v[j].0.lt(id)
        invariant
            j <= n,
            n == v@.len(),
            v@ == s0,
            forall|k: int| 0 <= k < j ==> s0[k].0.spec_lt(id),
        decreases n - j,
    {
        j = j + 1;
    }
    if j < n && v[j].0 == id {
        proof {
            lemma_bsum_found(s0, j as int);
        }
        match v[j].1.checked_add(amount) {
            None => {
                return Err(());
            },
            Some(sum) => {
                proof {
                    lemma_bsum_update(s0, j as int, (id, sum), id);
                }
                v.set(j, (id, sum));
                proof {
                    assert forall|x: RuneId|
                        bsum(v@, x) == bsum(s0, x) + (if x == id {
                            amount.value as int
                        } else {
                            0
                        }) by {
                        lemma_bsum_update(s0, j as int, (id, sum), x);
                    }
                    assert forall|a: int, b: int| 0 <= a < b < v@.len() implies v@[a].0.spec_lt(
                        v@[b].0,
                    ) by {
                        assert(s0[a].0.spec_lt(s0[b].0));
                        assert(v@[a].0 == s0[a].0 && v@[b].0 == s0[b].0);
                    }
                }
                return Ok(());
            },
        }
    }
    proof {
        assert forall|k: int| 0 <= k < s0.len() implies s0[k].0 != id by {
            if k < j {
                assert(s0[k].0.spec_lt(id));
            } else if k == j as int {
            } else {
                assert(s0[j as int].0.spec_lt(s0[k].0));
            }
        }
        lemma_bsum_absent(s0, id);
    }
    v.insert(j, (id, amount));
    proof {
        assert forall|x: RuneId|
            bsum(v@, x) == bsum(s0, x) + (if x == id {
                amount.value as int
            } else {
                0
            }) by {
            lemma_bsum_insert(s0, j as int, (id, amount), x);
        }
        assert forall|a: int, b: int| 0 <= a < b < v@.len() implies v@[a].0.spec_lt(v@[b].0) by {
            if b < j {
                assert(s0[a].0.spec_lt(s0[b].0));
            } else if b == j as int {
                assert(v@[a].0 == s0[a].0 && s0[a].0.spec_lt(id));
            } else if a < j {
                assert(v@[a].0 == s0[a].0 && v@[b].0 == s0[b - 1].0);
                if a < b - 1 {
                    assert(s0[a].0.spec_lt(s0[b - 1].0));
                }
            } else if a == j as int {
                assert(v@[b].0 == s0[b - 1].0);
                if b - 1 > j {
                    assert(s0[j as int].0.spec_lt(s0[b - 1].0));
                }
            } else {
                assert(v@[a].0 == s0[a - 1].0 && v@[b].0 == s0[b - 1].0);
                assert(s0[a - 1].0.spec_lt(s0[b - 1].0));
            }
        }
    }
    Ok(())
}

/// A successful outpoint lookup yields an index inside the table.
pub proof fn lemma_find_outpoint_in_range(s: Seq<OutpointEntryView>, op: OutPoint, from: int)
    ensures
        find_outpoint_from(s, op, from) matches Some(i) ==> from <= i < s.len() && s[i].outpoint
            == op,
    decreases s.len() - from,
{
    if 0 <= from && from < s.len() && s[from].outpoint != op {
        lemma_find_outpoint_in_range(s, op, from + 1);
    }
}

/// A `None` lookup means the key occurs nowhere at or after `from`.
pub proof fn lemma_find_from_none(s: Seq<(RuneId, RuneEntry)>, id: RuneId, from: int)
    requires
        0 <= from,
        find_entry_from(s, id, from) is None,
    ensures
        forall|k: int| from <= k < s.len() ==> s[k].0 != id,
    decreases s.len() - from,
{
    if from < s.len() {
        lemma_find_from_none(s, id, from + 1);
    }
}

/// Index of the registry record of `id`, if registered.
pub fn find_entry_idx(entries: &Vec<(RuneId, RuneEntry)>, id: RuneId) -> (r: Option<usize>)
    ensures
        r matches Some(i) ==> i < entries@.len() && entries@[i as int].0 == id && find_entry(
            entries@,
            id,
        ) == Some(entries@[i as int].1),
        r is None ==> find_entry(entries@, id) is None,
{
    let n: usize = entries.len();
    let mut i: usize = 0;
    while i < n
        invariant
            i <= n,
            n == entries@.len(),
            find_entry(entries@, id) == find_entry_from(entries@, id, i as int),
        decreases n - i,
    {
        if entries[i].0 == id {
            return Some(i);
        }
        i = i + 1;
    }
    proof {
        assert(find_entry_from(entries@, id, n as int) is None);
    }
    None
}

/// Removes the balances of `op`, if recorded. Spending an outpoint with no
/// recorded balances is not an error: the caller sees `None`.
pub fn take_outpoint(outs: &mut Vec<OutpointEntry>, op: OutPoint) -> (r: Option<
    Vec<(RuneId, Lot)>,
>)
    requires
        tables_wf(oview(old(outs)@)),
    ensures
        tables_wf(oview(final(outs)@)),
        r matches Some(b) ==> (find_outpoint_from(oview(old(outs)@), op, 0) matches Some(i)
            && b@ == oview(old(outs)@)[i].balances && oview(final(outs)@) == oview(
            old(outs)@,
        ).remove(i)),
        r matches Some(b) ==> sorted_balances(b@) && nonzero_balances(b@) && (forall|x: RuneId|
            osum(oview(final(outs)@), x) == osum(oview(old(outs)@), x) - bsum(b@, x)),
        r is None ==> final(outs)@ == old(outs)@,
        (r is None) <==> find_outpoint_from(oview(old(outs)@), op, 0) is None,
{
    let ghost s0 = oview(outs@);
    let n: usize = outs.len();
    let mut i: usize = 0;
    while i < n
        invariant
            i <= n,
            n == outs@.len(),
            outs@ == old(outs)@,
            oview(outs@) == s0,
            tables_wf(s0),
            find_outpoint_from(s0, op, 0) == find_outpoint_from(s0, op, i as int),
        decreases n - i,
    {
        proof {
            assert(s0[i as int] == outs@[i as int]@);
        }
        if outs[i].outpoint == op {
            let e = outs.remove(i);
            proof {
                assert(e@.balances == s0[i as int].balances);
                assert(sorted_balances(s0[i as int].balances) && nonzero_balances(
                    s0[i as int].balances,
                ));
                assert(oview(outs@) =~= s0.remove(i as int));
                assert forall|x: RuneId|
                    osum(oview(outs@), x) == osum(s0, x) - bsum(e@.balances, x) by {
                    lemma_osum_remove(s0, i as int, x);
                }
                assert forall|k: int|
                    0 <= k < oview(outs@).len() implies sorted_balances(
                    #[trigger] oview(outs@)[k].balances,
                ) && nonzero_balances(oview(outs@)[k].balances) by {
                    if k < i {
                        assert(oview(outs@)[k] == s0[k]);
                        assert(sorted_balances(s0[k].balances) && nonzero_balances(s0[k].balances));
                    } else {
                        assert(oview(outs@)[k] == s0[k + 1]);
                        assert(sorted_balances(s0[k + 1].balances) && nonzero_balances(
                            s0[k + 1].balances,
                        ));
                    }
                }
            }
            return Some(e.balances);
        }
        i = i + 1;
    }
    proof {
        assert(find_outpoint_from(s0, op, n as int) is None);
    }
    None
}

/// View of an outpoint table.
pub open spec fn oview(s: Seq<OutpointEntry>) -> Seq<OutpointEntryView> {
    s.map_values(|o: OutpointEntry| o@)
}

/// Copies a balance list.
pub fn clone_balances(v: &Vec<(RuneId, Lot)>) -> (r: Vec<(RuneId, Lot)>)
    ensures
        r@ == v@,
{
    let mut r: Vec<(RuneId, Lot)> = Vec::new();
    let mut i: usize = 0;
    while i < v.len()
        invariant
            i <= v@.len(),
            r@ == v@.take(i as int),
        decreases v@.len() - i,
    {
        r.push(v[i]);
        proof {
            assert(r@ =~= v@.take(i + 1));
        }
        i = i + 1;
    }
    proof {
        assert(v@.take(v@.len() as int) =~= v@);
    }
    r
}

/// Copies a registry table.
pub fn clone_entries(v: &Vec<(RuneId, RuneEntry)>) -> (r: Vec<(RuneId, RuneEntry)>)
    ensures
        r@ == v@,
{
    let mut r: Vec<(RuneId, RuneEntry)> = Vec::new();
    let mut i: usize = 0;
    while i < v.len()
        invariant
            i <= v@.len(),
            r@ == v@.take(i as int),
        decreases v@.len() - i,
    {
        r.push(v[i]);
        proof {
            assert(r@ =~= v@.take(i + 1));
        }
        i = i + 1;
    }
    proof {
        assert(v@.take(v@.len() as int) =~= v@);
    }
    r
}

/// Copies an outpoint table.
pub fn clone_outpoints(v: &Vec<OutpointEntry>) -> (r: Vec<OutpointEntry>)
    ensures
        oview(r@) == oview(v@),
{
    let mut r: Vec<OutpointEntry> = Vec::new();
    let mut i: usize = 0;
    while i < v.len()
        invariant
            i <= v@.len(),
            oview(r@) == oview(v@).take(i as int),
        decreases v@.len() - i,
    {
        let balances = clone_balances(&v[i].balances);
        let ghost rpre = r@;
        r.push(OutpointEntry { outpoint: v[i].outpoint, balances });
        proof {
            assert forall|k: int| 0 <= k < r@.len() implies oview(r@)[k] == oview(v@).take(
                i + 1,
            )[k] by {
                assert(oview(r@)[k] == r@[k]@);
                assert(oview(rpre).len() == rpre.len());
                assert(oview(v@).take(i as int).len() == i as int);
                assert(r@.len() == i + 1);
                assert(oview(v@).len() == v@.len());
                assert(k < oview(v@).len());
                assert(oview(v@).take(i + 1)[k] == oview(v@)[k]);
                assert(oview(v@)[k] == v@[k]@);
                if k < i as int {
                    assert(r@[k] == rpre[k]);
                    assert(oview(rpre)[k] == rpre[k]@);
                    assert(oview(v@).take(i as int)[k] == oview(v@)[k]);
                }
            }
            assert(oview(r@).len() == r@.len());
            assert(oview(rpre).len() == rpre.len());
            assert(oview(v@).take(i as int).len() == i as int);
            assert(r@.len() == i + 1);
            assert(oview(v@).len() == v@.len());
            assert(oview(v@).take(i + 1).len() == i + 1);
            assert(oview(r@) =~= oview(v@).take(i + 1));
        }
        i = i + 1;
    }
    proof {
        assert(oview(v@).take(v@.len() as int) =~= oview(v@));
    }
    r
}

/// One retained undo record: the full committed state before a block.
pub struct Snapshot {
    pub entries: Vec<(RuneId, RuneEntry)>,
    pub outpoints: Vec<OutpointEntry>,
    pub checkpoint: Option<Checkpoint>,
    pub rune_count: u64,
}

impl View for Snapshot {
    type V = StateView;

    open spec fn view(&self) -> StateView {
        StateView {
            entries: self.entries@,
            outpoints: oview(self.outpoints@),
            checkpoint: self.checkpoint,
            rune_count: self.rune_count,
        }
    }
}

/// The ledger store: the three tables, the etching counter, and the undo
/// log of the most recent commits, newest last, at most `max_undo` deep.
pub struct Ledger {
    pub entries: Vec<(RuneId, RuneEntry)>,
    pub outpoints: Vec<OutpointEntry>,
    pub checkpoint: Option<Checkpoint>,
    pub rune_count: u64,
    pub undo: Vec<Snapshot>,
    pub max_undo: usize,
}

/// Mathematical model of a [`Ledger`].
#[verifier::ext_equal]
pub struct LedgerView {
    pub state: StateView,
    pub undo: Seq<StateView>,
    pub max_undo: usize,
}

impl View for Ledger {
    type V = LedgerView;

    open spec fn view(&self) -> LedgerView {
        LedgerView {
            state: StateView {
                entries: self.entries@,
                outpoints: oview(self.outpoints@),
                checkpoint: self.checkpoint,
                rune_count: self.rune_count,
            },
            undo: self.undo@.map_values(|s: Snapshot| s@),
            max_undo: self.max_undo,
        }
    }
}

/// Well-formedness of one committed state: unique registry keys, sorted
/// nonzero balance lists, mint counters within cap, and conservation.
pub open spec fn state_inv(s: StateView) -> bool {
    &&& unique_entry_keys(s.entries)
    &&& tables_wf(s.outpoints)
    &&& mints_capped(s.entries)
    &&& conserved(s.entries, s.outpoints)
}

impl Ledger {
    /// The full invariant: the live state and every retained undo state are
    /// well formed.
    pub open spec fn inv(self) -> bool {
        &&& state_inv(self@.state)
        &&& forall|k: int| 0 <= k < self@.undo.len() ==> state_inv(#[trigger] self@.undo[k])
        &&& self@.max_undo >= 1
    }

    /// An empty ledger retaining at most `max_undo` undo records.
    pub fn new(max_undo: usize) -> (r: Ledger)
        requires
            max_undo >= 1,
        ensures
            r.inv(),
            r@.state.entries.len() == 0,
            r@.state.outpoints.len() == 0,
            r@.state.checkpoint is None,
            r@.state.rune_count == 0,
            r@.undo.len() == 0,
            r@.max_undo == max_undo,
    {
        let r = Ledger {
            entries: Vec::new(),
            outpoints: Vec::new(),
            checkpoint: None,
            rune_count: 0,
            undo: Vec::new(),
            max_undo,
        };
        proof {
            assert forall|id: RuneId|
                (#[trigger] find_entry(r@.state.entries, id)) is None && osum(
                    r@.state.outpoints,
                    id,
                ) == 0 by {
                assert(find_entry_from(r@.state.entries, id, 0) is None);
            }
        }
        r
    }

    /// The registry record of `id`, if registered.
    pub fn get_entry(&self, id: RuneId) -> (r: Option<RuneEntry>)
        ensures
            r == find_entry(self@.state.entries, id),
    {
        let n: usize = self.entries.len();
        let mut i: usize = 0;
        while i < n
            invariant
                i <= n,
                n == self.entries@.len(),
                find_entry(self.entries@, id) == find_entry_from(self.entries@, id, i as int),
            decreases n - i,
        {
            if self.entries[i].0 == id {
                return Some(self.entries[i].1);
            }
            i = i + 1;
        }
        None
    }

    /// The balances recorded for `op`, if any.
    pub fn get_outpoint_balances(&self, op: OutPoint) -> (r: Option<Vec<(RuneId, Lot)>>)
        ensures
            r matches Some(b) ==> find_outpoint_from(self@.state.outpoints, op, 0) matches Some(i)
                && b@ == self@.state.outpoints[i].balances,
            r is None ==> find_outpoint_from(self@.state.outpoints, op, 0) is None,
    {
        let ghost s = self@.state.outpoints;
        let n: usize = self.outpoints.len();
        let mut i: usize = 0;
        while i < n
            invariant
                i <= n,
                n == self.outpoints@.len(),
                s == self@.state.outpoints,
                find_outpoint_from(s, op, 0) == find_outpoint_from(s, op, i as int),
            decreases n - i,
        {
            proof {
                assert(s[i as int] == self.outpoints@[i as int]@);
            }
            if self.outpoints[i].outpoint == op {
                return Some(clone_balances(&self.outpoints[i].balances));
            }
            i = i + 1;
        }
        None
    }

    /// The checkpoint: the last fully incorporated block.
    pub fn get_checkpoint(&self) -> (r: Option<Checkpoint>)
        ensures
            r == self@.state.checkpoint,
    {
        self.checkpoint
    }

    /// A deep copy of the live state, as an undo record.
    pub fn clone_state(&self) -> (r: Snapshot)
        ensures
            r@ == self@.state,
    {
        let r = Snapshot {
            entries: clone_entries(&self.entries),
            outpoints: clone_outpoints(&self.outpoints),
            checkpoint: self.checkpoint,
            rune_count: self.rune_count,
        };
        proof {
            assert(r@ =~= self@.state);
        }
        r
    }

    /// Restores the live state from an undo record, leaving the record in
    /// place.
    pub fn restore_from(&mut self, snap: &Snapshot)
        ensures
            final(self)@.state == snap@,
            final(self)@.undo == old(self)@.undo,
            final(self)@.max_undo == old(self)@.max_undo,
    {
        self.entries = clone_entries(&snap.entries);
        self.outpoints = clone_outpoints(&snap.outpoints);
        self.checkpoint = snap.checkpoint;
        self.rune_count = snap.rune_count;
        proof {
            assert(self@.state =~= snap@);
        }
    }

    /// Reverses the most recent commit, restoring exactly the state before
    /// it; reports whether an undo record was available.
    pub fn rollback_last_commit(&mut self) -> (r: bool)
        requires
            old(self).inv(),
        ensures
            final(self).inv(),
            old(self)@.undo.len() == 0 ==> r == false && final(self)@ == old(self)@,
            old(self)@.undo.len() > 0 ==> r && final(self)@.state == old(self)@.undo.last()
                && final(self)@.undo == old(self)@.undo.drop_last() && final(self)@.max_undo == old(
                self,
            )@.max_undo,
    {
        match self.undo.pop() {
            None => {
                proof {
                    assert(self@ =~= old(self)@);
                }
                false
            },
            Some(snap) => {
                self.entries = snap.entries;
                self.outpoints = snap.outpoints;
                self.checkpoint = snap.checkpoint;
                self.rune_count = snap.rune_count;
                proof {
                    assert(self@.undo =~= old(self)@.undo.drop_last());
                    assert(self@.state =~= old(self)@.undo.last());
                    assert(state_inv(old(self)@.undo[old(self)@.undo.len() - 1]));
                    assert forall|k: int| 0 <= k < self@.undo.len() implies state_inv(
                        #[trigger] self@.undo[k],
                    ) by {
                        assert(self@.undo[k] == old(self)@.undo[k]);
                    }
                }
                true
            },
        }
    }
}

} // verus!
