//! The mempool's rules: which offered transactions are admitted, which older ones they
//! replace, the order by fee, and which entries grow stale.
use vstd::prelude::*;
use vstd::string::StringExecFns;

use crate::block::{
    input_sum, lemma_input_sum_prefix, lemma_input_sum_take, sum_outputs, Failure, UtxoMap,
};
use crate::error::BtcError;
use crate::time::{nanos_between, Timestamp};
use crate::text::{hex_text, push_hex};
use crate::transaction::{output_hash, tx_hash, InputV, Tx, TxInput, TxV};
use crate::utxo_set::UtxoSet;

verus! {

/// A mempool entry: the time the transaction was inserted, and the transaction.
pub type MempoolEntry = (Timestamp, Tx);

/// What a mempool entry stands for.
pub type EntryV = (Timestamp, TxV);

/// The views of mempool entries.
pub open spec fn entries_view(s: Seq<MempoolEntry>) -> Seq<EntryV> {
    s.map_values(|e: MempoolEntry| (e.0, e.1@))
}

/// Hashes of the outputs that inputs spend.
pub open spec fn input_hashes(inputs: Seq<InputV>) -> Seq<crate::sha256::Hash> {
    inputs.map_values(|i: InputV| i.prev_tx_output_hash)
}

// ---------------------------------------------------------------------------------------
// Flags

/// The map with the flag of the output under `h` set to `flag`, if there is one.
pub open spec fn set_flag(m: UtxoMap, h: crate::sha256::Hash, flag: bool) -> UtxoMap {
    if m.contains_key(h) {
        m.insert(h, (flag, m[h].1))
    } else {
        m
    }
}

/// The map with the flags of the outputs under the hashes set to `flag`, in order.
pub open spec fn set_flags(m: UtxoMap, hs: Seq<crate::sha256::Hash>, flag: bool) -> UtxoMap
    decreases hs.len(),
{
    if hs.len() == 0 {
        m
    } else {
        set_flag(set_flags(m, hs.drop_last(), flag), hs.last(), flag)
    }
}

/// Setting flags under the hashes of `a`, then of `b`, is setting them under `a + b`.
pub proof fn lemma_set_flags_append(m: UtxoMap, a: Seq<crate::sha256::Hash>, b: Seq<crate::sha256::Hash>, flag: bool)
    ensures
        set_flags(m, a + b, flag) == set_flags(set_flags(m, a, flag), b, flag),
    decreases b.len(),
{
    if b.len() == 0 {
        assert(a + b =~= a);
    } else {
        lemma_set_flags_append(m, a, b.drop_last(), flag);
        assert((a + b).drop_last() =~= a + b.drop_last());
        assert((a + b).last() == b.last());
    }
}

/// Sets the flags of the outputs that the inputs spend.
pub fn set_input_flags(utxo_set: &mut UtxoSet, inputs: &Vec<TxInput>, flag: bool)
    ensures
        final(utxo_set).spec_map() == set_flags(
            old(utxo_set).spec_map(),
            input_hashes(inputs@.map_values(|i: TxInput| i@)),
            flag,
        ),
{
    let ghost m0 = utxo_set.spec_map();
    let ghost hs = input_hashes(inputs@.map_values(|i: TxInput| i@));
    let mut k: usize = 0;
    while k < inputs.len()
        invariant
            k <= inputs@.len(),
            hs == input_hashes(inputs@.map_values(|i: TxInput| i@)),
            utxo_set.spec_map() == set_flags(m0, hs.take(k as int), flag),
        decreases inputs@.len() - k,
    {
        assert(hs.take(k + 1).drop_last() =~= hs.take(k as int));
        utxo_set.set_marked(&inputs[k].prev_tx_output_hash, flag);
        k = k + 1;
    }
    assert(hs.take(k as int) =~= hs);
}

/// Sets the flags of the outputs under the hashes.
pub fn set_hash_flags(utxo_set: &mut UtxoSet, hs: &Vec<crate::sha256::Hash>, flag: bool)
    ensures
        final(utxo_set).spec_map() == set_flags(old(utxo_set).spec_map(), hs@, flag),
{
    let ghost m0 = utxo_set.spec_map();
    let mut k: usize = 0;
    while k < hs.len()
        invariant
            k <= hs@.len(),
            utxo_set.spec_map() == set_flags(m0, hs@.take(k as int), flag),
        decreases hs@.len() - k,
    {
        assert(hs@.take(k + 1).drop_last() =~= hs@.take(k as int));
        utxo_set.set_marked(&hs[k], flag);
        k = k + 1;
    }
    assert(hs@.take(k as int) =~= hs@);
}

// ---------------------------------------------------------------------------------------
// The first check of an offered transaction

/// The first failure among the inputs of an offered transaction, checked in order: each
/// must spend a known output, and none the output that an earlier one spends.
pub open spec fn offered_inputs_failure(utxos: UtxoMap, inputs: Seq<InputV>) -> Option<Failure>
    decreases inputs.len(),
{
    if inputs.len() == 0 {
        None
    } else {
        match offered_inputs_failure(utxos, inputs.drop_last()) {
            Some(f) => Some(f),
            None => {
                let h = inputs.last().prev_tx_output_hash;
                if !utxos.contains_key(h) {
                    Some(Failure::MissingOutput(h))
                } else if input_hashes(inputs.drop_last()).contains(h) {
                    Some(Failure::DoubleSpend(h))
                } else {
                    None
                }
            },
        }
    }
}

/// Checks the inputs of an offered transaction.
pub(crate) fn check_offered_inputs(tx: &Tx, utxo_set: &UtxoSet) -> (r: Option<Failure>)
    ensures
        r == offered_inputs_failure(utxo_set.spec_map(), tx@.inputs),
{
    let ghost m = utxo_set.spec_map();
    let ghost inputs = tx@.inputs;
    let mut seen: Vec<crate::sha256::Hash> = Vec::new();
    let mut k: usize = 0;
    while k < tx.inputs.len()
        invariant
            k <= tx.inputs@.len(),
            inputs == tx@.inputs,
            m == utxo_set.spec_map(),
            offered_inputs_failure(m, inputs.take(k as int)) is None,
            seen@ == input_hashes(inputs.take(k as int)),
        decreases tx.inputs@.len() - k,
    {
        assert(inputs.take(k + 1).drop_last() =~= inputs.take(k as int));
        assert(inputs.take(k + 1).last() == tx.inputs@[k as int]@);
        let h = tx.inputs[k].prev_tx_output_hash;
        if !utxo_set.contains_key(&h) {
            proof {
                lemma_failure_prefix(m, inputs, k + 1);
            }
            return Some(Failure::MissingOutput(h));
        }
        if crate::block::contains_hash(&seen, &h) {
            proof {
                lemma_failure_prefix(m, inputs, k + 1);
            }
            return Some(Failure::DoubleSpend(h));
        }
        seen.push(h);
        k = k + 1;
        assert(seen@ =~= input_hashes(inputs.take(k as int)));
    }
    assert(inputs.take(k as int) =~= inputs);
    None
}

/// Only a missing or doubly spent output fails the first check.
pub proof fn lemma_offered_failure_kinds(m: UtxoMap, s: Seq<InputV>)
    ensures
        offered_inputs_failure(m, s) is None || offered_inputs_failure(m, s) matches Some(
            Failure::MissingOutput(_),
        ) || offered_inputs_failure(m, s) matches Some(Failure::DoubleSpend(_)),
    decreases s.len(),
{
    if s.len() > 0 {
        lemma_offered_failure_kinds(m, s.drop_last());
    }
}

proof fn lemma_failure_prefix(m: UtxoMap, s: Seq<InputV>, k: int)
    requires
        0 <= k <= s.len(),
        offered_inputs_failure(m, s.take(k)) is Some,
    ensures
        offered_inputs_failure(m, s) == offered_inputs_failure(m, s.take(k)),
    decreases s.len(),
{
    if k < s.len() {
        assert(s.drop_last().take(k) =~= s.take(k));
        lemma_failure_prefix(m, s.drop_last(), k);
    } else {
        assert(s.take(k) =~= s);
    }
}

// ---------------------------------------------------------------------------------------
// Replacing older transactions that spend the same outputs

/// The transaction has an input that spends the output with hash `h`.
pub open spec fn spends(tx: TxV, h: crate::sha256::Hash) -> bool {
    exists|j: int| 0 <= j < tx.inputs.len() && (#[trigger] tx.inputs[j]).prev_tx_output_hash == h
}

/// `i` is the first mempool entry whose transaction spends the output with hash `h`.
pub open spec fn first_spender(mempool: Seq<EntryV>, h: crate::sha256::Hash, i: int) -> bool {
    &&& 0 <= i < mempool.len()
    &&& spends(mempool[i].1, h)
    &&& forall|j: int| 0 <= j < i ==> !spends(#[trigger] mempool[j].1, h)
}

/// Position of the first mempool entry whose transaction spends the output with hash `h`.
pub open spec fn spender_of(mempool: Seq<EntryV>, h: crate::sha256::Hash) -> Option<int> {
    if exists|i: int| first_spender(mempool, h, i) {
        Some(choose|i: int| first_spender(mempool, h, i))
    } else {
        None
    }
}

/// One input of an offered transaction: when the output it spends is flagged, the first
/// mempool transaction that spends that output is removed and the flags of all outputs it
/// spends are cleared; when there is no such transaction, the flag is cleared.
pub open spec fn replace_step(p: (UtxoMap, Seq<EntryV>), input: InputV) -> (UtxoMap, Seq<EntryV>) {
    let h = input.prev_tx_output_hash;
    if p.0.contains_key(h) && p.0[h].0 {
        match spender_of(p.1, h) {
            Some(i) => (set_flags(p.0, input_hashes(p.1[i].1.inputs), false), p.1.remove(i)),
            None => (set_flag(p.0, h, false), p.1),
        }
    } else {
        p
    }
}

/// All inputs of an offered transaction, in order.
pub open spec fn replace_all(p: (UtxoMap, Seq<EntryV>), inputs: Seq<InputV>) -> (UtxoMap, Seq<EntryV>)
    decreases inputs.len(),
{
    if inputs.len() == 0 {
        p
    } else {
        replace_step(replace_all(p, inputs.drop_last()), inputs.last())
    }
}

/// Whether the transaction has an input that spends the output with hash `h`.
fn spends_hash(tx: &Tx, h: &crate::sha256::Hash) -> (r: bool)
    ensures
        r == spends(tx@, *h),
{
    let mut j: usize = 0;
    while j < tx.inputs.len()
        invariant
            j <= tx.inputs@.len(),
            forall|i: int| 0 <= i < j ==> (#[trigger] tx@.inputs[i]).prev_tx_output_hash != *h,
        decreases tx.inputs@.len() - j,
    {
        assert(tx@.inputs[j as int] == tx.inputs@[j as int]@);
        if tx.inputs[j].prev_tx_output_hash == *h {
            return true;
        }
        j = j + 1;
    }
    false
}

/// Position of the first entry whose transaction spends the output with hash `h`.
fn find_spender(mempool: &Vec<MempoolEntry>, h: &crate::sha256::Hash) -> (r: Option<usize>)
    ensures
        match r {
            Some(i) => spender_of(entries_view(mempool@), *h) == Some(i as int),
            None => spender_of(entries_view(mempool@), *h) is None,
        },
{
    let ghost s = entries_view(mempool@);
    let mut i: usize = 0;
    while i < mempool.len()
        invariant
            i <= mempool@.len(),
            s == entries_view(mempool@),
            forall|j: int| 0 <= j < i ==> !spends(#[trigger] s[j].1, *h),
        decreases mempool@.len() - i,
    {
        assert(s[i as int].1 == mempool@[i as int].1@);
        if spends_hash(&mempool[i].1, h) {
            assert(first_spender(s, *h, i as int));
            proof {
                let c = choose|c: int| first_spender(s, *h, c);
                if c < i {
                    assert(!spends(s[c].1, *h));
                } else if c > i {
                    assert(!spends(s[i as int].1, *h));
                }
            }
            return Some(i);
        }
        i = i + 1;
    }
    assert(forall|c: int| !first_spender(s, *h, c));
    None
}

/// One step of the replacement, on the UTXO set and the mempool.
fn replace_for_input(utxo_set: &mut UtxoSet, mempool: &mut Vec<MempoolEntry>, input: &TxInput)
    ensures
        (final(utxo_set).spec_map(), entries_view(final(mempool)@)) == replace_step(
            (old(utxo_set).spec_map(), entries_view(old(mempool)@)),
            input@,
        ),
{
    let h = input.prev_tx_output_hash;
    let marked = match utxo_set.get(&h) {
        Some((flag, _)) => flag,
        None => false,
    };
    if marked {
        // this UTXO is marked 'true' => it has already been marked by another transaction in
        // the mempool; find the transaction in the mempool that references the UTXO
        match find_spender(mempool, &h) {
            Some(idx) => {
                // unmark all of its UTXOs
                let ghost s = entries_view(mempool@);
                assert(s[idx as int].1 == mempool@[idx as int].1@);
                set_input_flags(utxo_set, &mempool[idx].1.inputs, false);
                // remove the transaction from the mempool
                mempool.remove(idx);
                assert(entries_view(mempool@) =~= s.remove(idx as int));
            },
            None => {
                // no matching transaction in the mempool: clear this UTXO's flag
                utxo_set.set_marked(&h, false);
            },
        }
    }
}

/// Replaces, for each input of the offered transaction in order.
pub(crate) fn replace_for_inputs(utxo_set: &mut UtxoSet, mempool: &mut Vec<MempoolEntry>, tx: &Tx)
    ensures
        (final(utxo_set).spec_map(), entries_view(final(mempool)@)) == replace_all(
            (old(utxo_set).spec_map(), entries_view(old(mempool)@)),
            tx@.inputs,
        ),
{
    let ghost p0 = (utxo_set.spec_map(), entries_view(mempool@));
    let ghost inputs = tx@.inputs;
    let mut k: usize = 0;
    while k < tx.inputs.len()
        invariant
            k <= tx.inputs@.len(),
            inputs == tx@.inputs,
            (utxo_set.spec_map(), entries_view(mempool@)) == replace_all(
                p0,
                inputs.take(k as int),
            ),
        decreases tx.inputs@.len() - k,
    {
        assert(inputs.take(k + 1).drop_last() =~= inputs.take(k as int));
        assert(inputs.take(k + 1).last() == tx.inputs@[k as int]@);
        replace_for_input(utxo_set, mempool, &tx.inputs[k]);
        k = k + 1;
    }
    assert(inputs.take(k as int) =~= inputs);
}

// ---------------------------------------------------------------------------------------
// Fees and the order by fee

/// The fee of a transaction against a UTXO map: what its inputs spend minus what its
/// outputs pay.
pub open spec fn fee_of(m: UtxoMap, tx: TxV) -> int {
    match input_sum(m, tx.inputs) {
        Ok(a) => a - sum_outputs(tx.outputs),
        Err(_) => 0,
    }
}

/// The fee can be computed: every input spends a known output, the sums fit in 64 bits and
/// the outputs pay no more than the inputs spend.
pub open spec fn fee_defined(m: UtxoMap, tx: TxV) -> bool {
    &&& input_sum(m, tx.inputs) is Ok
    &&& sum_outputs(tx.outputs) <= u64::MAX
    &&& fee_of(m, tx) >= 0
}

/// The fee of every entry can be computed.
pub open spec fn fees_defined(m: UtxoMap, s: Seq<EntryV>) -> bool {
    forall|i: int| 0 <= i < s.len() ==> fee_defined(m, #[trigger] s[i].1)
}

/// Sum of the amounts of the outputs that the inputs spend.
pub fn input_amount(tx: &Tx, utxo_set: &UtxoSet) -> (r: u64)
    requires
        input_sum(utxo_set.spec_map(), tx@.inputs) is Ok,
    ensures
        input_sum(utxo_set.spec_map(), tx@.inputs) == Ok::<int, Failure>(r as int),
{
    let ghost m = utxo_set.spec_map();
    let ghost inputs = tx@.inputs;
    let mut total: u64 = 0;
    let mut j: usize = 0;
    proof {
        reveal(input_sum);
        assert(inputs.take(0) =~= Seq::<InputV>::empty());
    }
    while j < tx.inputs.len()
        invariant
            j <= tx.inputs@.len(),
            inputs == tx@.inputs,
            m == utxo_set.spec_map(),
            input_sum(m, inputs) is Ok,
            input_sum(m, inputs.take(j as int)) == Ok::<int, Failure>(total as int),
        decreases tx.inputs@.len() - j,
    {
        proof {
            lemma_input_sum_take(m, inputs, j as int);
            assert(inputs[j as int] == tx.inputs@[j as int]@);
        }
        match utxo_set.get(&tx.inputs[j].prev_tx_output_hash) {
            None => {
                proof {
                    lemma_input_sum_prefix(m, inputs, j + 1);
                }
                assert(false);
                return 0;
            },
            Some((_, prev_output)) => {
                if total > u64::MAX - prev_output.amount {
                    proof {
                        lemma_input_sum_prefix(m, inputs, j + 1);
                    }
                    assert(false);
                    return 0;
                }
                total = total + prev_output.amount;
            },
        }
        j = j + 1;
    }
    assert(inputs.take(j as int) =~= inputs);
    total
}

/// The fee of a transaction.
pub fn tx_fee(tx: &Tx, utxo_set: &UtxoSet) -> (r: u64)
    requires
        fee_defined(utxo_set.spec_map(), tx@),
    ensures
        r == fee_of(utxo_set.spec_map(), tx@),
{
    let inputs = input_amount(tx, utxo_set);
    let outputs = crate::block::sum_output_amounts(&tx.outputs);
    inputs - outputs
}

/// Position at which an entry with fee `k` goes into entries sorted by fee: after every
/// leading entry whose fee is not greater than `k`.
pub open spec fn fee_rank(m: UtxoMap, s: Seq<EntryV>, k: int) -> int
    decreases s.len(),
{
    if s.len() == 0 {
        0
    } else if fee_of(m, s[0].1) > k {
        0
    } else {
        1 + fee_rank(m, s.skip(1), k)
    }
}

/// The entries in the order a stable sort by fee gives them: each one inserted after every
/// earlier entry whose fee is not greater.
pub open spec fn sort_by_fee(m: UtxoMap, s: Seq<EntryV>) -> Seq<EntryV>
    decreases s.len(),
{
    if s.len() == 0 {
        s
    } else {
        let r = sort_by_fee(m, s.drop_last());
        r.insert(fee_rank(m, r, fee_of(m, s.last().1)), s.last())
    }
}

proof fn lemma_fee_rank_bounds(m: UtxoMap, s: Seq<EntryV>, k: int)
    ensures
        0 <= fee_rank(m, s, k) <= s.len(),
    decreases s.len(),
{
    if s.len() > 0 && fee_of(m, s[0].1) <= k {
        lemma_fee_rank_bounds(m, s.skip(1), k);
    }
}

proof fn lemma_fee_rank_skip(m: UtxoMap, s: Seq<EntryV>, k: int, p: int)
    requires
        0 <= p < s.len(),
        fee_of(m, s[p].1) <= k,
    ensures
        fee_rank(m, s.skip(p), k) == 1 + fee_rank(m, s.skip(p + 1), k),
{
    assert(s.skip(p).skip(1) =~= s.skip(p + 1));
}

proof fn lemma_sort_len(m: UtxoMap, s: Seq<EntryV>)
    ensures
        sort_by_fee(m, s).len() == s.len(),
    decreases s.len(),
{
    if s.len() > 0 {
        lemma_sort_len(m, s.drop_last());
        lemma_fee_rank_bounds(m, sort_by_fee(m, s.drop_last()), fee_of(m, s.last().1));
    }
}

/// Position for an entry with fee `k` among sorted entries whose fees are `keys`.
fn rank_of(keys: &Vec<u64>, k: u64, Ghost(m): Ghost<UtxoMap>, Ghost(s): Ghost<Seq<EntryV>>) -> (r: usize)
    requires
        keys@.len() == s.len(),
        forall|j: int| 0 <= j < s.len() ==> keys@[j] == fee_of(m, #[trigger] s[j].1),
    ensures
        r == fee_rank(m, s, k as int),
{
    let mut p: usize = 0;
    proof {
        assert(s.skip(0) =~= s);
    }
    while p < keys.len() && keys[p] <= k
        invariant
            p <= keys@.len(),
            keys@.len() == s.len(),
            forall|j: int| 0 <= j < s.len() ==> keys@[j] == fee_of(m, #[trigger] s[j].1),
            fee_rank(m, s, k as int) == p + fee_rank(m, s.skip(p as int), k as int),
        decreases keys@.len() - p,
    {
        proof {
            lemma_fee_rank_skip(m, s, k as int, p as int);
        }
        p = p + 1;
    }
    proof {
        if p < keys.len() {
            assert(s.skip(p as int)[0] == s[p as int]);
        } else {
            assert(s.skip(p as int).len() == 0);
        }
    }
    p
}

/// Sorts the entries by fee, keeping the order of entries with equal fees.
pub fn sort_entries_by_fee(entries: &Vec<MempoolEntry>, utxo_set: &UtxoSet) -> (r: Vec<MempoolEntry>)
    requires
        fees_defined(utxo_set.spec_map(), entries_view(entries@)),
    ensures
        entries_view(r@) == sort_by_fee(utxo_set.spec_map(), entries_view(entries@)),
{
    let ghost m = utxo_set.spec_map();
    let ghost all = entries_view(entries@);
    let mut sorted: Vec<MempoolEntry> = Vec::new();
    let mut keys: Vec<u64> = Vec::new();
    let mut k: usize = 0;
    while k < entries.len()
        invariant
            k <= entries@.len(),
            all == entries_view(entries@),
            m == utxo_set.spec_map(),
            fees_defined(m, all),
            entries_view(sorted@) == sort_by_fee(m, all.take(k as int)),
            keys@.len() == sorted@.len(),
            forall|j: int|
                0 <= j < keys@.len() ==> keys@[j] == fee_of(m, #[trigger] entries_view(sorted@)[j].1),
        decreases entries@.len() - k,
    {
        let entry = &entries[k];
        assert(all[k as int] == (entry.0, entry.1@));
        assert(all.take(k + 1).drop_last() =~= all.take(k as int));
        assert(fee_defined(m, all[k as int].1));
        let key = tx_fee(&entry.1, utxo_set);
        let ghost sv = entries_view(sorted@);
        proof {
            lemma_sort_len(m, all.take(k as int));
        }
        let pos = rank_of(&keys, key, Ghost(m), Ghost(sv));
        proof {
            lemma_fee_rank_bounds(m, sv, key as int);
        }
        sorted.insert(pos, (entry.0, entry.1.clone()));
        keys.insert(pos, key);
        assert(entries_view(sorted@) =~= sv.insert(pos as int, all[k as int]));
        k = k + 1;
        assert(forall|j: int|
            0 <= j < keys@.len() ==> keys@[j] == fee_of(m, #[trigger] entries_view(sorted@)[j].1))
            by {
            assert forall|j: int| 0 <= j < keys@.len() implies keys@[j] == fee_of(
                m,
                #[trigger] entries_view(sorted@)[j].1,
            ) by {
                if j < pos {
                    assert(entries_view(sorted@)[j] == sv[j]);
                } else if j > pos {
                    assert(entries_view(sorted@)[j] == sv[j - 1]);
                }
            }
        }
    }
    assert(all.take(k as int) =~= all);
    sorted
}

// ---------------------------------------------------------------------------------------
// Stale entries

/// An entry is stale when more than the maximum age has passed since it was inserted.
pub open spec fn is_stale(e: EntryV, now: Timestamp) -> bool {
    nanos_between(e.0, now) > (crate::blockchain::MAX_MEMPOOL_TRANSACTION_AGE as int) * 1_000_000_000
}

/// The entries that are not stale, in order.
pub open spec fn fresh_entries(s: Seq<EntryV>, now: Timestamp) -> Seq<EntryV> {
    s.filter(|e: EntryV| !is_stale(e, now))
}

/// Hashes of the outputs spent by the stale entries, in order.
pub open spec fn stale_input_hashes(s: Seq<EntryV>, now: Timestamp) -> Seq<crate::sha256::Hash>
    decreases s.len(),
{
    if s.len() == 0 {
        Seq::empty()
    } else {
        stale_input_hashes(s.drop_last(), now) + if is_stale(s.last(), now) {
            input_hashes(s.last().1.inputs)
        } else {
            Seq::empty()
        }
    }
}

/// Splits the entries into those that are not stale and the hashes of the outputs spent by
/// those that are.
pub fn split_stale(mempool: &Vec<MempoolEntry>, now: &Timestamp) -> (r: (
    Vec<MempoolEntry>,
    Vec<crate::sha256::Hash>,
))
    ensures
        entries_view(r.0@) == fresh_entries(entries_view(mempool@), *now),
        r.1@ == stale_input_hashes(entries_view(mempool@), *now),
{
    let ghost all = entries_view(mempool@);
    let ghost pred = |e: EntryV| !is_stale(e, *now);
    let mut kept: Vec<MempoolEntry> = Vec::new();
    let mut stale: Vec<crate::sha256::Hash> = Vec::new();
    let mut k: usize = 0;
    while k < mempool.len()
        invariant
            k <= mempool@.len(),
            all == entries_view(mempool@),
            pred == (|e: EntryV| !is_stale(e, *now)),
            entries_view(kept@) == all.take(k as int).filter(pred),
            stale@ == stale_input_hashes(all.take(k as int), *now),
        decreases mempool@.len() - k,
    {
        let entry = &mempool[k];
        assert(all[k as int] == (entry.0, entry.1@));
        assert(all.take(k + 1).drop_last() =~= all.take(k as int));
        assert(all.take(k + 1).last() == all[k as int]);
        assert(all.take(k + 1).filter(pred) == if pred(all[k as int]) {
            all.take(k as int).filter(pred).push(all[k as int])
        } else {
            all.take(k as int).filter(pred)
        }) by {
            reveal(Seq::filter);
        }
        let old_entry = entry.0.older_than(now, crate::blockchain::MAX_MEMPOOL_TRANSACTION_AGE);
        if old_entry {
            // the outputs it spends are unmarked later
            let ghost before = stale@;
            let mut j: usize = 0;
            while j < entry.1.inputs.len()
                invariant
                    j <= entry.1.inputs@.len(),
                    stale@ == before + input_hashes(entry.1@.inputs).take(j as int),
                decreases entry.1.inputs@.len() - j,
            {
                stale.push(entry.1.inputs[j].prev_tx_output_hash);
                j = j + 1;
                assert(stale@ =~= before + input_hashes(entry.1@.inputs).take(j as int));
            }
            assert(input_hashes(entry.1@.inputs).take(j as int) =~= input_hashes(entry.1@.inputs));
        } else {
            let ghost before = kept@;
            kept.push((entry.0, entry.1.clone()));
            assert(entries_view(kept@) =~= entries_view(before).push(all[k as int]));
            assert(stale@ =~= stale@ + Seq::<crate::sha256::Hash>::empty());
        }
        k = k + 1;
    }
    assert(all.take(k as int) =~= all);
    (kept, stale)
}

// ---------------------------------------------------------------------------------------
// The whole offer

/// The UTXO map and mempool after the replacement for an offered transaction.
pub open spec fn replaced(utxos: UtxoMap, mempool: Seq<EntryV>, tx: TxV) -> (UtxoMap, Seq<EntryV>) {
    replace_all((utxos, mempool), tx.inputs)
}

/// Why an offered transaction is refused: an input that spends an unknown output or one
/// that an earlier input spends, or outputs that pay more than the inputs spend.
/// `Overflow` when a sum would not fit in 64 bits.
pub open spec fn offer_rejection(utxos: UtxoMap, mempool: Seq<EntryV>, tx: TxV) -> Option<Failure> {
    match offered_inputs_failure(utxos, tx.inputs) {
        Some(f) => Some(f),
        None => match input_sum(replaced(utxos, mempool, tx).0, tx.inputs) {
            Ok(a) => if sum_outputs(tx.outputs) > u64::MAX {
                Some(Failure::Overflow)
            } else if a < sum_outputs(tx.outputs) {
                Some(Failure::Overspend)
            } else {
                None
            },
            Err(_) => Some(Failure::Overflow),
        },
    }
}

/// The UTXO map after an admitted transaction: the replacement, then the outputs it
/// spends flagged.
pub open spec fn admitted_utxos(utxos: UtxoMap, mempool: Seq<EntryV>, tx: TxV) -> UtxoMap {
    set_flags(replaced(utxos, mempool, tx).0, input_hashes(tx.inputs), true)
}

/// The mempool after an admitted transaction, before it is sorted: the replacement, then
/// the new entry at the end.
pub open spec fn admitted_unsorted(utxos: UtxoMap, mempool: Seq<EntryV>, tx: TxV, now: Timestamp) -> Seq<EntryV> {
    replaced(utxos, mempool, tx).1.push((now, tx))
}

/// The mempool after an admitted transaction.
pub open spec fn admitted_mempool(utxos: UtxoMap, mempool: Seq<EntryV>, tx: TxV, now: Timestamp) -> Seq<EntryV> {
    sort_by_fee(admitted_utxos(utxos, mempool, tx), admitted_unsorted(utxos, mempool, tx, now))
}

/// The offer can be carried out: no sum overflows, and every fee of the mempool after the
/// new entry can be computed for the sort.
pub open spec fn offer_defined(utxos: UtxoMap, mempool: Seq<EntryV>, tx: TxV) -> bool {
    &&& offer_rejection(utxos, mempool, tx) != Some(Failure::Overflow)
    &&& offer_rejection(utxos, mempool, tx) is None ==> {
        &&& fees_defined(admitted_utxos(utxos, mempool, tx), replaced(utxos, mempool, tx).1)
        &&& fee_defined(admitted_utxos(utxos, mempool, tx), tx)
    }
}

/// The error `e` is the one the mempool gives for the failure `f` of the transaction `tx`.
pub open spec fn offer_reported(e: BtcError, f: Failure, tx: TxV) -> bool {
    match f {
        Failure::MissingOutput(h) => e matches BtcError::InvalidTransaction(m) && m@
            == "Mempool: Spending output that does not exist: "@ + hex_text(h.0.value() as nat)
            + " in tx: "@ + hex_text(tx_hash(tx).0.value() as nat),
        Failure::DoubleSpend(h) => e matches BtcError::InvalidTransaction(m) && m@
            == "Mempool: Double spend of the output: "@ + hex_text(h.0.value() as nat)
            + " within a single tx: "@ + hex_text(tx_hash(tx).0.value() as nat),
        Failure::Overspend => e matches BtcError::InvalidTransaction(m) && m@
            == "Mempool: Spending more than available"@,
        _ => false,
    }
}

/// The error the mempool gives for a failure of the first check of an offered transaction.
pub fn offer_error(f: Failure, tx: &Tx) -> (e: BtcError)
    requires
        f is MissingOutput || f is DoubleSpend,
    ensures
        offer_reported(e, f, tx@),
{
    let tx_hash = tx.hash();
    match f {
        Failure::MissingOutput(h) => {
            let mut m = "Mempool: Spending output that does not exist: ".to_string();
            push_hex(&mut m, &h.0);
            m.append(" in tx: ");
            push_hex(&mut m, &tx_hash.0);
            BtcError::InvalidTransaction(m)
        },
        Failure::DoubleSpend(h) => {
            let mut m = "Mempool: Double spend of the output: ".to_string();
            push_hex(&mut m, &h.0);
            m.append(" within a single tx: ");
            push_hex(&mut m, &tx_hash.0);
            BtcError::InvalidTransaction(m)
        },
        _ => BtcError::InvalidTransaction("".to_string()),
    }
}

// ---------------------------------------------------------------------------------------
// Laws

/// Entries in nondecreasing order of fee.
pub open spec fn sorted_by_fee(m: UtxoMap, s: Seq<EntryV>) -> bool {
    forall|i: int, j: int| 0 <= i <= j < s.len() ==> fee_of(m, s[i].1) <= fee_of(m, s[j].1)
}

proof fn lemma_fee_rank_split(m: UtxoMap, r: Seq<EntryV>, k: int)
    requires
        sorted_by_fee(m, r),
    ensures
        0 <= fee_rank(m, r, k) <= r.len(),
        forall|i: int| 0 <= i < fee_rank(m, r, k) ==> fee_of(m, #[trigger] r[i].1) <= k,
        forall|i: int| fee_rank(m, r, k) <= i < r.len() ==> fee_of(m, #[trigger] r[i].1) > k,
    decreases r.len(),
{
    lemma_fee_rank_bounds(m, r, k);
    if r.len() > 0 {
        if fee_of(m, r[0].1) > k {
            assert forall|i: int| 0 <= i < r.len() implies fee_of(m, #[trigger] r[i].1) > k by {
                assert(fee_of(m, r[0].1) <= fee_of(m, r[i].1));
            }
        } else {
            let t = r.skip(1);
            assert forall|i: int, j: int| 0 <= i <= j < t.len() implies fee_of(m, t[i].1) <= fee_of(
                m,
                t[j].1,
            ) by {
                assert(t[i] == r[i + 1] && t[j] == r[j + 1]);
            }
            lemma_fee_rank_split(m, t, k);
            assert forall|i: int| 0 <= i < fee_rank(m, r, k) implies fee_of(m, #[trigger] r[i].1) <= k by {
                if i > 0 {
                    assert(r[i] == t[i - 1]);
                }
            }
            assert forall|i: int| fee_rank(m, r, k) <= i < r.len() implies fee_of(
                m,
                #[trigger] r[i].1,
            ) > k by {
                assert(r[i] == t[i - 1]);
            }
        }
    }
}

/// Keeping some of the entries keeps them in nondecreasing order of fee.
pub proof fn lemma_filter_sorted(m: UtxoMap, s: Seq<EntryV>, p: spec_fn(EntryV) -> bool)
    requires
        sorted_by_fee(m, s),
    ensures
        sorted_by_fee(m, s.filter(p)),
    decreases s.len(),
{
    if s.len() > 0 {
        let d = s.drop_last();
        let x = s.last();
        assert forall|i: int, j: int| 0 <= i <= j < d.len() implies fee_of(m, d[i].1) <= fee_of(
            m,
            d[j].1,
        ) by {
            assert(d[i] == s[i] && d[j] == s[j]);
        }
        lemma_filter_sorted(m, d, p);
        assert(s =~= d.push(x));
        d.lemma_filter_push(x, p);
        if p(x) {
            let f = d.filter(p);
            assert forall|i: int| 0 <= i < f.len() implies fee_of(m, #[trigger] f[i].1) <= fee_of(m, x.1) by {
                assert(f.contains(f[i]));
                d.lemma_filter_contains_rev(p, f[i]);
                let j = choose|j: int| 0 <= j < d.len() && d[j] == f[i];
                assert(s[j] == d[j]);
                assert(s[s.len() - 1] == x);
            }
            let g = f.push(x);
            assert forall|i: int, j: int| 0 <= i <= j < g.len() implies fee_of(m, g[i].1) <= fee_of(
                m,
                g[j].1,
            ) by {
                if j == f.len() {
                    if i < f.len() {
                        assert(g[i] == f[i]);
                    }
                } else {
                    assert(g[i] == f[i] && g[j] == f[j]);
                }
            }
        }
    }
}

/// Fees do not depend on the flags: two UTXO maps with the same outputs give every
/// transaction the same fee.
pub proof fn lemma_fee_ignores_flags(m1: UtxoMap, m2: UtxoMap, tx: TxV)
    requires
        m1.dom() == m2.dom(),
        forall|k: crate::sha256::Hash| m1.contains_key(k) ==> (#[trigger] m1[k]).1 == m2[k].1,
    ensures
        fee_of(m1, tx) == fee_of(m2, tx),
{
    lemma_input_sum_ignores_flags(m1, m2, tx.inputs);
}

proof fn lemma_input_sum_ignores_flags(m1: UtxoMap, m2: UtxoMap, s: Seq<InputV>)
    requires
        m1.dom() == m2.dom(),
        forall|k: crate::sha256::Hash| m1.contains_key(k) ==> (#[trigger] m1[k]).1 == m2[k].1,
    ensures
        input_sum(m1, s) == input_sum(m2, s),
    decreases s.len(),
{
    reveal(input_sum);
    if s.len() > 0 {
        lemma_input_sum_ignores_flags(m1, m2, s.drop_last());
        let h = s.last().prev_tx_output_hash;
        if m1.contains_key(h) {
            assert(m1[h].1 == m2[h].1);
        }
    }
}

/// Sorting by fee gives entries in nondecreasing order of fee.
pub proof fn lemma_sort_by_fee_sorted(m: UtxoMap, s: Seq<EntryV>)
    ensures
        sorted_by_fee(m, sort_by_fee(m, s)),
    decreases s.len(),
{
    if s.len() > 0 {
        let r = sort_by_fee(m, s.drop_last());
        lemma_sort_by_fee_sorted(m, s.drop_last());
        let x = s.last();
        let k = fee_of(m, x.1);
        let p = fee_rank(m, r, k);
        lemma_fee_rank_split(m, r, k);
        let out = r.insert(p, x);
        assert(out == sort_by_fee(m, s));
        assert forall|i: int, j: int| 0 <= i <= j < out.len() implies fee_of(m, out[i].1) <= fee_of(
            m,
            out[j].1,
        ) by {
            if i < p {
                assert(out[i] == r[i]);
            } else if i > p {
                assert(out[i] == r[i - 1]);
            }
            if j < p {
                assert(out[j] == r[j]);
            } else if j > p {
                assert(out[j] == r[j - 1]);
            }
        }
    }
}

/// Sorting by fee keeps the entries: it only reorders them.
pub proof fn lemma_sort_by_fee_permutation(m: UtxoMap, s: Seq<EntryV>)
    ensures
        sort_by_fee(m, s).to_multiset() == s.to_multiset(),
    decreases s.len(),
{
    broadcast use vstd::seq_lib::to_multiset_build, vstd::seq_lib::to_multiset_insert;

    if s.len() > 0 {
        let r = sort_by_fee(m, s.drop_last());
        lemma_sort_by_fee_permutation(m, s.drop_last());
        lemma_fee_rank_bounds(m, r, fee_of(m, s.last().1));
        assert(s.drop_last().push(s.last()) =~= s);
    }
}

/// Setting flags keeps the outputs: the flags of the outputs under the hashes become
/// `flag`, and every other entry stays as it was.
pub proof fn lemma_set_flags(m: UtxoMap, hs: Seq<crate::sha256::Hash>, flag: bool)
    ensures
        set_flags(m, hs, flag).dom() == m.dom(),
        forall|k: crate::sha256::Hash|
            #![trigger set_flags(m, hs, flag)[k]]
            m.contains_key(k) ==> set_flags(m, hs, flag)[k].1 == m[k].1,
        forall|k: crate::sha256::Hash|
            #![trigger set_flags(m, hs, flag)[k]]
            m.contains_key(k) && hs.contains(k) ==> set_flags(m, hs, flag)[k].0 == flag,
        forall|k: crate::sha256::Hash|
            #![trigger set_flags(m, hs, flag)[k]]
            m.contains_key(k) && !hs.contains(k) ==> set_flags(m, hs, flag)[k] == m[k],
    decreases hs.len(),
{
    if hs.len() > 0 {
        let d = hs.drop_last();
        lemma_set_flags(m, d, flag);
        let prev = set_flags(m, d, flag);
        assert(set_flags(m, hs, flag).dom() =~= m.dom());
        assert forall|k: crate::sha256::Hash| m.contains_key(k) && hs.contains(k) implies #[trigger] set_flags(
            m,
            hs,
            flag,
        )[k].0 == flag by {
            if k != hs.last() {
                let i = choose|i: int| 0 <= i < hs.len() && hs[i] == k;
                assert(d[i] == k);
                assert(prev[k].0 == flag);
            }
        }
        assert forall|k: crate::sha256::Hash| m.contains_key(k) && !hs.contains(k) implies #[trigger] set_flags(
            m,
            hs,
            flag,
        )[k] == m[k] by {
            assert(k != hs[hs.len() - 1]);
            if d.contains(k) {
                let i = choose|i: int| 0 <= i < d.len() && d[i] == k;
                assert(hs[i] == k);
            }
        }
    }
}

proof fn lemma_replace_all_dom(p: (UtxoMap, Seq<EntryV>), inputs: Seq<InputV>)
    ensures
        replace_all(p, inputs).0.dom() == p.0.dom(),
    decreases inputs.len(),
{
    if inputs.len() > 0 {
        lemma_replace_all_dom(p, inputs.drop_last());
        let q = replace_all(p, inputs.drop_last());
        let h = inputs.last().prev_tx_output_hash;
        if q.0.contains_key(h) && q.0[h].0 {
            match spender_of(q.1, h) {
                Some(i) => {
                    lemma_set_flags(q.0, input_hashes(q.1[i].1.inputs), false);
                },
                None => {
                    assert(set_flag(q.0, h, false).dom() =~= q.0.dom());
                },
            }
        }
    }
}

/// Some transaction of the mempool spends the output with hash `h`.
pub open spec fn spent_in(mempool: Seq<EntryV>, h: crate::sha256::Hash) -> bool {
    exists|i: int, j: int|
        0 <= i < mempool.len() && 0 <= j < mempool[i].1.inputs.len()
            && (#[trigger] mempool[i].1.inputs[j]).prev_tx_output_hash == h
}

/// The flag of each UTXO tells whether a transaction of the mempool spends it.
pub open spec fn flags_track(utxos: UtxoMap, mempool: Seq<EntryV>) -> bool {
    forall|h: crate::sha256::Hash| #[trigger] utxos.contains_key(h) ==> (utxos[h].0 <==> spent_in(mempool, h))
}

/// The entries left after removing the one at `i`: those before it, then those after it.
proof fn lemma_remove_index(m: Seq<EntryV>, i: int)
    requires
        0 <= i < m.len(),
    ensures
        m.remove(i).len() == m.len() - 1,
        forall|k: int| 0 <= k < i ==> #[trigger] m.remove(i)[k] == m[k],
        forall|k: int| i <= k < m.len() - 1 ==> #[trigger] m.remove(i)[k] == m[k + 1],
{
}

/// One replacement step keeps the flags telling which UTXOs the mempool spends and keeps
/// every output spent by at most one entry; afterwards no entry spends the input's output,
/// no entry is added, and every entry that does not spend that output stays.
proof fn lemma_replace_step_tracks(p: (UtxoMap, Seq<EntryV>), input: InputV)
    requires
        flags_track(p.0, p.1),
        spends_disjoint(p.1),
        p.0.contains_key(input.prev_tx_output_hash),
    ensures
        flags_track(replace_step(p, input).0, replace_step(p, input).1),
        spends_disjoint(replace_step(p, input).1),
        replace_step(p, input).0.dom() == p.0.dom(),
        !spent_in(replace_step(p, input).1, input.prev_tx_output_hash),
        forall|e: EntryV| #[trigger] replace_step(p, input).1.contains(e) ==> p.1.contains(e),
        forall|k: int|
            0 <= k < p.1.len() && !spends(p.1[k].1, input.prev_tx_output_hash) ==> replace_step(
                p,
                input,
            ).1.contains(#[trigger] p.1[k]),
{
    let h = input.prev_tx_output_hash;
    let u = p.0;
    let m = p.1;
    if !u[h].0 {
        assert(!spent_in(m, h));
        assert forall|k: int| 0 <= k < m.len() implies m.contains(#[trigger] m[k]) by {}
    } else {
        assert(spent_in(m, h));
        let (i0, j0) = choose|i: int, j: int|
            0 <= i < m.len() && 0 <= j < m[i].1.inputs.len()
                && (#[trigger] m[i].1.inputs[j]).prev_tx_output_hash == h;
        assert(spends(m[i0].1, h));
        assert forall|k: int| 0 <= k < i0 implies !spends(#[trigger] m[k].1, h) by {
            if spends(m[k].1, h) {
                assert(spends(m[i0].1, h));
            }
        }
        assert(first_spender(m, h, i0));
        let c = choose|c: int| first_spender(m, h, c);
        assert(c == i0) by {
            if c != i0 {
                assert(spends(m[c].1, h));
            }
        }
        assert(spender_of(m, h) == Some(i0));
        let s = m[i0].1;
        let hs = input_hashes(s.inputs);
        let u2 = set_flags(u, hs, false);
        let m2 = m.remove(i0);
        lemma_set_flags(u, hs, false);
        lemma_remove_index(m, i0);
        assert(replace_step(p, input) == (u2, m2));
        // hashes that the removed entry spends are its input hashes
        assert forall|g: crate::sha256::Hash| spends(s, g) <==> #[trigger] hs.contains(g) by {
            if spends(s, g) {
                let j = choose|j: int| 0 <= j < s.inputs.len() && (#[trigger] s.inputs[j]).prev_tx_output_hash == g;
                assert(hs[j] == g);
            }
            if hs.contains(g) {
                let j = choose|j: int| 0 <= j < hs.len() && hs[j] == g;
                assert(s.inputs[j].prev_tx_output_hash == g);
            }
        }
        // an entry left spends what it spent before, and the removed one never shares
        assert forall|g: crate::sha256::Hash| spent_in(m2, g) ==> (spent_in(m, g) && !spends(s, g)) by {
            if spent_in(m2, g) {
                let (i, j) = choose|i: int, j: int|
                    0 <= i < m2.len() && 0 <= j < m2[i].1.inputs.len()
                        && (#[trigger] m2[i].1.inputs[j]).prev_tx_output_hash == g;
                let k = if i < i0 { i } else { i + 1 };
                assert(m2[i] == m[k]);
                assert(m[k].1.inputs[j].prev_tx_output_hash == g);
                assert(spends(m[k].1, g));
                if spends(s, g) {
                    assert(k != i0);
                    assert(spends(m[i0].1, g));
                }
            }
        }
        assert forall|g: crate::sha256::Hash| spent_in(m, g) && !spends(s, g) ==> spent_in(m2, g) by {
            if spent_in(m, g) && !spends(s, g) {
                let (k, j) = choose|i: int, j: int|
                    0 <= i < m.len() && 0 <= j < m[i].1.inputs.len()
                        && (#[trigger] m[i].1.inputs[j]).prev_tx_output_hash == g;
                assert(spends(m[k].1, g));
                assert(k != i0);
                let i = if k < i0 { k } else { k - 1 };
                assert(m2[i] == m[k]);
                assert(m2[i].1.inputs[j].prev_tx_output_hash == g);
            }
        }
        assert forall|g: crate::sha256::Hash| #[trigger] u2.contains_key(g) implies (u2[g].0 <==> spent_in(m2, g)) by {
            if hs.contains(g) {
                assert(!u2[g].0);
            } else {
                assert(u2[g] == u[g]);
            }
        }
        assert forall|i1: int, i2: int, g: crate::sha256::Hash|
            0 <= i1 < m2.len() && 0 <= i2 < m2.len() && i1 != i2 && #[trigger] spends(m2[i1].1, g) implies !#[trigger] spends(
                m2[i2].1,
                g,
            ) by {
            let k1 = if i1 < i0 { i1 } else { i1 + 1 };
            let k2 = if i2 < i0 { i2 } else { i2 + 1 };
            assert(m2[i1] == m[k1] && m2[i2] == m[k2]);
        }
        assert(!spent_in(m2, h)) by {
            assert(spends(s, h));
        }
        assert forall|e: EntryV| #[trigger] m2.contains(e) implies m.contains(e) by {
            let i = choose|i: int| 0 <= i < m2.len() && m2[i] == e;
            let k = if i < i0 { i } else { i + 1 };
            assert(m[k] == e);
        }
        assert forall|k: int| 0 <= k < m.len() && !spends(m[k].1, h) implies m2.contains(#[trigger] m[k]) by {
            assert(k != i0);
            let i = if k < i0 { k } else { k - 1 };
            assert(m2[i] == m[k]);
        }
    }
}

/// All the replacement steps of an offered transaction whose inputs spend known outputs keep
/// the flags tracking the mempool and every output spent at most once; afterwards no entry
/// spends an output the transaction spends, and exactly the entries that spend none of them
/// stay.
proof fn lemma_replace_all_tracks(p: (UtxoMap, Seq<EntryV>), ins: Seq<InputV>)
    requires
        flags_track(p.0, p.1),
        spends_disjoint(p.1),
        forall|j: int| 0 <= j < ins.len() ==> p.0.contains_key(#[trigger] ins[j].prev_tx_output_hash),
    ensures
        flags_track(replace_all(p, ins).0, replace_all(p, ins).1),
        spends_disjoint(replace_all(p, ins).1),
        replace_all(p, ins).0.dom() == p.0.dom(),
        forall|j: int| 0 <= j < ins.len() ==> !spent_in(replace_all(p, ins).1, #[trigger] ins[j].prev_tx_output_hash),
        forall|e: EntryV| #[trigger] replace_all(p, ins).1.contains(e) ==> p.1.contains(e),
        forall|k: int|
            0 <= k < p.1.len() && (forall|j: int| 0 <= j < ins.len() ==> !spends(p.1[k].1, #[trigger] ins[j].prev_tx_output_hash))
                ==> replace_all(p, ins).1.contains(#[trigger] p.1[k]),
    decreases ins.len(),
{
    if ins.len() > 0 {
        let d = ins.drop_last();
        let x = ins.last();
        assert forall|j: int| 0 <= j < d.len() implies p.0.contains_key(#[trigger] d[j].prev_tx_output_hash) by {
            assert(d[j] == ins[j]);
        }
        lemma_replace_all_tracks(p, d);
        let r = replace_all(p, d);
        assert(ins[ins.len() - 1] == x);
        lemma_replace_step_tracks(r, x);
        let q = replace_step(r, x);
        assert(replace_all(p, ins) == q);
        assert forall|j: int| 0 <= j < ins.len() implies !spent_in(q.1, #[trigger] ins[j].prev_tx_output_hash) by {
            if j < d.len() {
                assert(d[j] == ins[j]);
                let g = ins[j].prev_tx_output_hash;
                assert(!spent_in(r.1, g));
                if spent_in(q.1, g) {
                    let (a, b) = choose|a: int, b: int|
                        0 <= a < q.1.len() && 0 <= b < q.1[a].1.inputs.len()
                            && (#[trigger] q.1[a].1.inputs[b]).prev_tx_output_hash == g;
                    assert(q.1.contains(q.1[a]));
                    assert(r.1.contains(q.1[a]));
                    let c = choose|c: int| 0 <= c < r.1.len() && r.1[c] == q.1[a];
                    assert(r.1[c].1.inputs[b].prev_tx_output_hash == g);
                }
            }
        }
        assert forall|e: EntryV| #[trigger] q.1.contains(e) implies p.1.contains(e) by {
            assert(r.1.contains(e));
        }
        assert forall|k: int|
            0 <= k < p.1.len() && (forall|j: int| 0 <= j < ins.len() ==> !spends(p.1[k].1, #[trigger] ins[j].prev_tx_output_hash))
                implies q.1.contains(#[trigger] p.1[k]) by {
            assert forall|j: int| 0 <= j < d.len() implies !spends(p.1[k].1, #[trigger] d[j].prev_tx_output_hash) by {
                assert(d[j] == ins[j]);
            }
            assert(r.1.contains(p.1[k]));
            let c = choose|c: int| 0 <= c < r.1.len() && r.1[c] == p.1[k];
            assert(!spends(p.1[k].1, ins[ins.len() - 1].prev_tx_output_hash));
            assert(q.1.contains(r.1[c]));
        }
    }
}

/// Sorting by fee keeps every output spent by at most one entry.
proof fn lemma_sort_keeps_disjoint(m: UtxoMap, s: Seq<EntryV>)
    requires
        spends_disjoint(s),
    ensures
        spends_disjoint(sort_by_fee(m, s)),
    decreases s.len(),
{
    broadcast use vstd::seq_lib::to_multiset_contains;

    if s.len() > 0 {
        let d = s.drop_last();
        let x = s.last();
        assert forall|i1: int, i2: int, g: crate::sha256::Hash|
            0 <= i1 < d.len() && 0 <= i2 < d.len() && i1 != i2 && #[trigger] spends(d[i1].1, g) implies !#[trigger] spends(
                d[i2].1,
                g,
            ) by {
            assert(d[i1] == s[i1] && d[i2] == s[i2]);
        }
        lemma_sort_keeps_disjoint(m, d);
        let r = sort_by_fee(m, d);
        lemma_sort_by_fee_permutation(m, d);
        let k = fee_rank(m, r, fee_of(m, x.1));
        lemma_fee_rank_bounds(m, r, fee_of(m, x.1));
        let res = r.insert(k, x);
        assert(sort_by_fee(m, s) == res);
        // an entry of the sorted rest is an entry of the rest, which shares nothing with x
        assert forall|i: int, g: crate::sha256::Hash| 0 <= i < r.len() && #[trigger] spends(r[i].1, g) implies !spends(x.1, g) by {
            assert(r.contains(r[i]));
            assert(r.to_multiset().count(r[i]) > 0);
            assert(d.contains(r[i]));
            let c = choose|c: int| 0 <= c < d.len() && d[c] == r[i];
            assert(s[c] == r[i]);
            assert(s[s.len() - 1] == x);
            assert(spends(s[c].1, g));
        }
        assert forall|i1: int, i2: int, g: crate::sha256::Hash|
            0 <= i1 < res.len() && 0 <= i2 < res.len() && i1 != i2 && #[trigger] spends(res[i1].1, g) implies !#[trigger] spends(
                res[i2].1,
                g,
            ) by {
            let a = if i1 < k { i1 } else { i1 - 1 };
            let b = if i2 < k { i2 } else { i2 - 1 };
            if i1 == k {
                assert(res[i1] == x);
                assert(res[i2] == r[b]);
                if spends(res[i2].1, g) {
                    assert(spends(r[b].1, g));
                }
            } else if i2 == k {
                assert(res[i2] == x);
                assert(res[i1] == r[a]);
                assert(spends(r[a].1, g));
            } else {
                assert(res[i1] == r[a] && res[i2] == r[b]);
            }
        }
    }
}

/// Admitting a transaction keeps two facts of the mempool: a UTXO is flagged exactly when a
/// mempool transaction spends it, and no two mempool transactions spend the same output. The
/// older transactions that spend an output the new one spends leave the mempool, every other
/// entry stays, and the new transaction enters.
pub proof fn lemma_admission_tracks_flags(utxos: UtxoMap, mempool: Seq<EntryV>, tx: TxV, now: Timestamp)
    requires
        flags_track(utxos, mempool),
        spends_disjoint(mempool),
        offer_rejection(utxos, mempool, tx) is None,
    ensures
        flags_track(admitted_utxos(utxos, mempool, tx), admitted_mempool(utxos, mempool, tx, now)),
        spends_disjoint(admitted_mempool(utxos, mempool, tx, now)),
        admitted_mempool(utxos, mempool, tx, now).contains((now, tx)),
        forall|i: int, h: crate::sha256::Hash|
            0 <= i < mempool.len() && #[trigger] spends(mempool[i].1, h) && spends(tx, h)
                && mempool[i] != (now, tx) ==> !admitted_mempool(utxos, mempool, tx, now).contains(mempool[i]),
        forall|i: int|
            0 <= i < mempool.len() && (forall|h: crate::sha256::Hash| #[trigger] spends(tx, h) ==> !spends(mempool[i].1, h))
                ==> admitted_mempool(utxos, mempool, tx, now).contains(#[trigger] mempool[i]),
{
    broadcast use vstd::seq_lib::to_multiset_contains;
    broadcast use vstd::multiset::group_multiset_axioms;

    lemma_admitted(utxos, mempool, tx, now);
    lemma_offered_inputs_known(utxos, tx.inputs);
    lemma_replace_all_tracks((utxos, mempool), tx.inputs);
    let q = replaced(utxos, mempool, tx);
    let hs = input_hashes(tx.inputs);
    lemma_set_flags(q.0, hs, true);
    let m = admitted_utxos(utxos, mempool, tx);
    let x = (now, tx);
    let unsorted = q.1.push(x);
    let n = admitted_mempool(utxos, mempool, tx, now);
    lemma_sort_by_fee_permutation(m, unsorted);
    assert(n.to_multiset() == q.1.to_multiset().insert(x));
    assert forall|g: crate::sha256::Hash| spends(tx, g) <==> #[trigger] hs.contains(g) by {
        if spends(tx, g) {
            let j = choose|j: int| 0 <= j < tx.inputs.len() && (#[trigger] tx.inputs[j]).prev_tx_output_hash == g;
            assert(hs[j] == g);
        }
        if hs.contains(g) {
            let j = choose|j: int| 0 <= j < hs.len() && hs[j] == g;
            assert(tx.inputs[j].prev_tx_output_hash == g);
        }
    }
    // no entry left after the replacement spends what the new transaction spends
    assert forall|g: crate::sha256::Hash| spends(tx, g) implies !spent_in(q.1, g) by {
        let j = choose|j: int| 0 <= j < tx.inputs.len() && (#[trigger] tx.inputs[j]).prev_tx_output_hash == g;
        assert(!spent_in(q.1, tx.inputs[j].prev_tx_output_hash));
    }
    // an entry of the result is the new one or an entry left
    assert forall|e: EntryV| #[trigger] n.contains(e) implies e == x || q.1.contains(e) by {
        assert(n.to_multiset().count(e) > 0);
        if e != x {
            assert(q.1.to_multiset().count(e) > 0);
        }
    }
    assert forall|e: EntryV| #[trigger] q.1.contains(e) implies n.contains(e) by {
        assert(q.1.to_multiset().count(e) > 0);
        assert(n.to_multiset().count(e) > 0);
    }
    assert forall|g: crate::sha256::Hash| spent_in(n, g) <==> (spends(tx, g) || spent_in(q.1, g)) by {
        if spent_in(n, g) {
            let (a, b) = choose|a: int, b: int|
                0 <= a < n.len() && 0 <= b < n[a].1.inputs.len()
                    && (#[trigger] n[a].1.inputs[b]).prev_tx_output_hash == g;
            assert(n.contains(n[a]));
            if n[a] == x {
                assert(tx.inputs[b].prev_tx_output_hash == g);
            } else {
                assert(q.1.contains(n[a]));
                let c = choose|c: int| 0 <= c < q.1.len() && q.1[c] == n[a];
                assert(q.1[c].1.inputs[b].prev_tx_output_hash == g);
            }
        }
        if spends(tx, g) {
            let j = choose|j: int| 0 <= j < tx.inputs.len() && (#[trigger] tx.inputs[j]).prev_tx_output_hash == g;
            let c = choose|c: int| 0 <= c < n.len() && n[c] == x;
            assert(n[c].1.inputs[j].prev_tx_output_hash == g);
        }
        if spent_in(q.1, g) {
            let (a, b) = choose|a: int, b: int|
                0 <= a < q.1.len() && 0 <= b < q.1[a].1.inputs.len()
                    && (#[trigger] q.1[a].1.inputs[b]).prev_tx_output_hash == g;
            assert(q.1.contains(q.1[a]));
            let c = choose|c: int| 0 <= c < n.len() && n[c] == q.1[a];
            assert(n[c].1.inputs[b].prev_tx_output_hash == g);
        }
    }
    assert forall|g: crate::sha256::Hash| #[trigger] m.contains_key(g) implies (m[g].0 <==> spent_in(n, g)) by {
        if hs.contains(g) {
            assert(m[g].0);
        } else {
            assert(m[g] == q.0[g]);
        }
    }
    // no two entries of the unsorted result share a spent output
    assert forall|i1: int, i2: int, g: crate::sha256::Hash|
        0 <= i1 < unsorted.len() && 0 <= i2 < unsorted.len() && i1 != i2 && #[trigger] spends(unsorted[i1].1, g) implies !#[trigger] spends(
            unsorted[i2].1,
            g,
        ) by {
        if i1 == q.1.len() {
            assert(unsorted[i1] == x);
            assert(unsorted[i2] == q.1[i2]);
            if spends(q.1[i2].1, g) {
                let b = choose|b: int| 0 <= b < q.1[i2].1.inputs.len() && (#[trigger] q.1[i2].1.inputs[b]).prev_tx_output_hash == g;
                assert(spent_in(q.1, g));
            }
        } else if i2 == q.1.len() {
            assert(unsorted[i2] == x);
            assert(unsorted[i1] == q.1[i1]);
            let b = choose|b: int| 0 <= b < q.1[i1].1.inputs.len() && (#[trigger] q.1[i1].1.inputs[b]).prev_tx_output_hash == g;
            assert(spent_in(q.1, g));
        } else {
            assert(unsorted[i1] == q.1[i1] && unsorted[i2] == q.1[i2]);
        }
    }
    lemma_sort_keeps_disjoint(m, unsorted);
    // the older spenders leave, the others stay
    assert forall|i: int, h: crate::sha256::Hash|
        0 <= i < mempool.len() && #[trigger] spends(mempool[i].1, h) && spends(tx, h) && mempool[i] != (now, tx)
            implies !n.contains(mempool[i]) by {
        if n.contains(mempool[i]) {
            assert(q.1.contains(mempool[i]));
            let c = choose|c: int| 0 <= c < q.1.len() && q.1[c] == mempool[i];
            let b = choose|b: int| 0 <= b < mempool[i].1.inputs.len() && (#[trigger] mempool[i].1.inputs[b]).prev_tx_output_hash == h;
            assert(q.1[c].1.inputs[b].prev_tx_output_hash == h);
            assert(spent_in(q.1, h));
        }
    }
    assert forall|i: int|
        0 <= i < mempool.len() && (forall|h: crate::sha256::Hash| #[trigger] spends(tx, h) ==> !spends(mempool[i].1, h))
            implies n.contains(#[trigger] mempool[i]) by {
        assert forall|j: int| 0 <= j < tx.inputs.len() implies !spends(mempool[i].1, #[trigger] tx.inputs[j].prev_tx_output_hash) by {
            assert(spends(tx, tx.inputs[j].prev_tx_output_hash));
        }
        assert(q.1.contains(mempool[i]));
    }
}

proof fn lemma_offered_inputs_known(m: UtxoMap, inputs: Seq<InputV>)
    requires
        offered_inputs_failure(m, inputs) is None,
    ensures
        forall|i: int| 0 <= i < inputs.len() ==> m.contains_key(#[trigger] inputs[i].prev_tx_output_hash),
    decreases inputs.len(),
{
    if inputs.len() > 0 {
        lemma_offered_inputs_known(m, inputs.drop_last());
        assert forall|i: int| 0 <= i < inputs.len() implies m.contains_key(
            #[trigger] inputs[i].prev_tx_output_hash,
        ) by {
            if i < inputs.len() - 1 {
                assert(inputs[i] == inputs.drop_last()[i]);
            }
        }
    }
}

/// An admitted transaction: the mempool is sorted by fee, holds the new entry and every
/// entry left after the replacement, and every output the transaction spends is flagged.
pub proof fn lemma_admitted(utxos: UtxoMap, mempool: Seq<EntryV>, tx: TxV, now: Timestamp)
    requires
        offer_rejection(utxos, mempool, tx) is None,
    ensures
        sorted_by_fee(admitted_utxos(utxos, mempool, tx), admitted_mempool(utxos, mempool, tx, now)),
        admitted_mempool(utxos, mempool, tx, now).to_multiset() == replaced(
            utxos,
            mempool,
            tx,
        ).1.to_multiset().insert((now, tx)),
        admitted_mempool(utxos, mempool, tx, now).contains((now, tx)),
        admitted_utxos(utxos, mempool, tx).dom() == utxos.dom(),
        forall|i: int|
            0 <= i < tx.inputs.len() ==> {
                &&& admitted_utxos(utxos, mempool, tx).contains_key(
                    #[trigger] tx.inputs[i].prev_tx_output_hash,
                )
                &&& admitted_utxos(utxos, mempool, tx)[tx.inputs[i].prev_tx_output_hash].0
            },
{
    broadcast use vstd::seq_lib::to_multiset_build, vstd::seq_lib::to_multiset_contains;

    let m = admitted_utxos(utxos, mempool, tx);
    let unsorted = admitted_unsorted(utxos, mempool, tx, now);
    lemma_sort_by_fee_sorted(m, unsorted);
    lemma_sort_by_fee_permutation(m, unsorted);
    assert(unsorted.to_multiset().count((now, tx)) > 0);
    let q = replaced(utxos, mempool, tx);
    lemma_replace_all_dom((utxos, mempool), tx.inputs);
    let hs = input_hashes(tx.inputs);
    lemma_set_flags(q.0, hs, true);
    lemma_offered_inputs_known(utxos, tx.inputs);
    assert forall|i: int| 0 <= i < tx.inputs.len() implies {
        &&& m.contains_key(#[trigger] tx.inputs[i].prev_tx_output_hash)
        &&& m[tx.inputs[i].prev_tx_output_hash].0
    } by {
        assert(hs[i] == tx.inputs[i].prev_tx_output_hash);
        assert(q.0.contains_key(tx.inputs[i].prev_tx_output_hash));
    }
}

/// After removing stale entries no stale entry is left, every entry that is not stale is
/// kept, and no output that a removed entry spent is flagged.
pub proof fn lemma_cleanup(utxos: UtxoMap, mempool: Seq<EntryV>, now: Timestamp)
    ensures
        forall|i: int|
            0 <= i < fresh_entries(mempool, now).len() ==> !is_stale(
                #[trigger] fresh_entries(mempool, now)[i],
                now,
            ),
        forall|i: int|
            0 <= i < mempool.len() && !is_stale(#[trigger] mempool[i], now) ==> fresh_entries(
                mempool,
                now,
            ).contains(mempool[i]),
        set_flags(utxos, stale_input_hashes(mempool, now), false).dom() == utxos.dom(),
        forall|h: crate::sha256::Hash|
            #![trigger set_flags(utxos, stale_input_hashes(mempool, now), false)[h]]
            utxos.contains_key(h) && stale_input_hashes(mempool, now).contains(h) ==> !set_flags(
                utxos,
                stale_input_hashes(mempool, now),
                false,
            )[h].0,
{
    let pred = |e: EntryV| !is_stale(e, now);
    broadcast use vstd::seq_lib::group_filter_ensures;

    assert forall|i: int| 0 <= i < mempool.len() && pred(mempool[i]) implies mempool.filter(pred).contains(mempool[i]) by {
        mempool.lemma_filter_contains(pred, i);
    }
    lemma_set_flags(utxos, stale_input_hashes(mempool, now), false);
}

/// An output hash is among those spent by stale entries exactly when a stale entry spends it.
proof fn lemma_stale_hashes_contain(s: Seq<EntryV>, now: Timestamp, h: crate::sha256::Hash)
    ensures
        stale_input_hashes(s, now).contains(h) <==> exists|i: int, j: int|
            0 <= i < s.len() && 0 <= j < s[i].1.inputs.len() && is_stale(s[i], now)
                && (#[trigger] s[i].1.inputs[j]).prev_tx_output_hash == h,
    decreases s.len(),
{
    if s.len() > 0 {
        let d = s.drop_last();
        let x = s.last();
        lemma_stale_hashes_contain(d, now, h);
        let tail = if is_stale(x, now) {
            input_hashes(x.1.inputs)
        } else {
            Seq::empty()
        };
        let all = stale_input_hashes(d, now) + tail;
        assert(stale_input_hashes(s, now) == all);
        if all.contains(h) {
            let k = choose|k: int| 0 <= k < all.len() && all[k] == h;
            if k < stale_input_hashes(d, now).len() {
                assert(stale_input_hashes(d, now)[k] == h);
                let (i, j) = choose|i: int, j: int|
                    0 <= i < d.len() && 0 <= j < d[i].1.inputs.len() && is_stale(d[i], now)
                        && (#[trigger] d[i].1.inputs[j]).prev_tx_output_hash == h;
                assert(s[i] == d[i]);
                assert(s[i].1.inputs[j].prev_tx_output_hash == h);
            } else {
                let j = k - stale_input_hashes(d, now).len();
                assert(tail[j] == h);
                assert(s[s.len() - 1] == x);
                assert(s[s.len() - 1].1.inputs[j].prev_tx_output_hash == h);
            }
        }
        if exists|i: int, j: int|
            0 <= i < s.len() && 0 <= j < s[i].1.inputs.len() && is_stale(s[i], now)
                && (#[trigger] s[i].1.inputs[j]).prev_tx_output_hash == h {
            let (i, j) = choose|i: int, j: int|
                0 <= i < s.len() && 0 <= j < s[i].1.inputs.len() && is_stale(s[i], now)
                    && (#[trigger] s[i].1.inputs[j]).prev_tx_output_hash == h;
            if i < d.len() {
                assert(d[i] == s[i]);
                assert(d[i].1.inputs[j].prev_tx_output_hash == h);
                let k = choose|k: int| 0 <= k < stale_input_hashes(d, now).len() && stale_input_hashes(d, now)[k] == h;
                assert(all[k] == h);
            } else {
                assert(s[i] == x);
                assert(tail[j] == h);
                assert(all[stale_input_hashes(d, now).len() + j] == h);
            }
        }
    }
}

/// No two entries of the mempool spend the same output.
pub open spec fn spends_disjoint(mempool: Seq<EntryV>) -> bool {
    forall|i1: int, i2: int, h: crate::sha256::Hash|
        0 <= i1 < mempool.len() && 0 <= i2 < mempool.len() && i1 != i2 && #[trigger] spends(mempool[i1].1, h)
            ==> !#[trigger] spends(mempool[i2].1, h)
}

/// Removing stale entries keeps the flags telling which UTXOs the mempool spends, as long as
/// no two entries spend the same output (otherwise an output that a stale entry and a kept
/// entry both spend is unflagged while the kept entry still spends it).
pub proof fn lemma_cleanup_tracks_flags(utxos: UtxoMap, mempool: Seq<EntryV>, now: Timestamp)
    requires
        flags_track(utxos, mempool),
        spends_disjoint(mempool),
    ensures
        flags_track(
            set_flags(utxos, stale_input_hashes(mempool, now), false),
            fresh_entries(mempool, now),
        ),
{
    broadcast use vstd::seq_lib::group_filter_ensures;

    let hs = stale_input_hashes(mempool, now);
    let m = set_flags(utxos, hs, false);
    let f = fresh_entries(mempool, now);
    let pred = |e: EntryV| !is_stale(e, now);
    lemma_set_flags(utxos, hs, false);
    lemma_cleanup(utxos, mempool, now);
    assert forall|h: crate::sha256::Hash| #[trigger] m.contains_key(h) implies (m[h].0 <==> spent_in(f, h)) by {
        assert(utxos.contains_key(h));
        lemma_stale_hashes_contain(mempool, now, h);
        if spent_in(f, h) {
            let (i, j) = choose|i: int, j: int|
                0 <= i < f.len() && 0 <= j < f[i].1.inputs.len()
                    && (#[trigger] f[i].1.inputs[j]).prev_tx_output_hash == h;
            assert(f.contains(f[i]));
            mempool.lemma_filter_contains_rev(pred, f[i]);
            let k = choose|k: int| 0 <= k < mempool.len() && mempool[k] == f[i];
            assert(!is_stale(f[i], now));
            assert(mempool[k].1.inputs[j].prev_tx_output_hash == h);
            if hs.contains(h) {
                let (i2, j2) = choose|i2: int, j2: int|
                    0 <= i2 < mempool.len() && 0 <= j2 < mempool[i2].1.inputs.len() && is_stale(
                        mempool[i2],
                        now,
                    ) && (#[trigger] mempool[i2].1.inputs[j2]).prev_tx_output_hash == h;
                assert(i2 != k);
                assert(spends(mempool[k].1, h));
                assert(spends(mempool[i2].1, h));
                assert(false);
            }
            assert(m[h] == utxos[h]);
            assert(spent_in(mempool, h));
        } else {
            if !hs.contains(h) {
                assert(m[h] == utxos[h]);
                if spent_in(mempool, h) {
                    let (i, j) = choose|i: int, j: int|
                        0 <= i < mempool.len() && 0 <= j < mempool[i].1.inputs.len()
                            && (#[trigger] mempool[i].1.inputs[j]).prev_tx_output_hash == h;
                    assert(!is_stale(mempool[i], now));
                    assert(f.contains(mempool[i]));
                    let k = choose|k: int| 0 <= k < f.len() && f[k] == mempool[i];
                    assert(f[k].1.inputs[j].prev_tx_output_hash == h);
                    assert(false);
                }
            }
        }
    }
}

} // verus!
