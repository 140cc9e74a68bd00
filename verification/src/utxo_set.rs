//! The set of unspent transaction outputs, keyed by output hash.
use vstd::prelude::*;

use crate::crypto::PublicKey;
use crate::transaction::{OutputV, TxOutput};

verus! {

/// An entry of the UTXO set: output hash, 'referenced by a tx in mempool' flag, output.
pub type UtxoEntry = (crate::sha256::Hash, bool, TxOutput);

/// The map that a sequence of entries stands for (a later entry wins over an earlier one).
pub open spec fn entries_map(s: Seq<UtxoEntry>) -> Map<crate::sha256::Hash, (bool, OutputV)>
    decreases s.len(),
{
    if s.len() == 0 {
        Map::empty()
    } else {
        entries_map(s.drop_last()).insert(s.last().0, (s.last().1, s.last().2@))
    }
}

/// No output hash occurs twice.
pub open spec fn keys_unique(s: Seq<UtxoEntry>) -> bool {
    forall|i: int, j: int| 0 <= i < j < s.len() ==> s[i].0 != s[j].0
}

proof fn lemma_map_has(s: Seq<UtxoEntry>, k: crate::sha256::Hash)
    ensures
        entries_map(s).contains_key(k) <==> exists|i: int| 0 <= i < s.len() && s[i].0 == k,
    decreases s.len(),
{
    if s.len() > 0 {
        lemma_map_has(s.drop_last(), k);
        if entries_map(s.drop_last()).contains_key(k) {
            let i = choose|i: int| 0 <= i < s.drop_last().len() && s.drop_last()[i].0 == k;
            assert(s[i].0 == k);
        }
        if exists|i: int| 0 <= i < s.len() && s[i].0 == k {
            let i = choose|i: int| 0 <= i < s.len() && s[i].0 == k;
            if i < s.len() - 1 {
                assert(s.drop_last()[i].0 == k);
            }
        }
    }
}

proof fn lemma_map_at(s: Seq<UtxoEntry>, i: int)
    requires
        keys_unique(s),
        0 <= i < s.len(),
    ensures
        entries_map(s).contains_key(s[i].0),
        entries_map(s)[s[i].0] == (s[i].1, s[i].2@),
    decreases s.len(),
{
    if i < s.len() - 1 {
        lemma_map_at(s.drop_last(), i);
        assert(s.drop_last()[i] == s[i]);
        assert(s.last().0 != s[i].0);
    }
}

proof fn lemma_map_remove(s: Seq<UtxoEntry>, i: int)
    requires
        keys_unique(s),
        0 <= i < s.len(),
    ensures
        entries_map(s.remove(i)) =~= entries_map(s).remove(s[i].0),
        keys_unique(s.remove(i)),
    decreases s.len(),
{
    let k = s[i].0;
    if i == s.len() - 1 {
        assert(s.remove(i) =~= s.drop_last());
        lemma_map_has(s.drop_last(), k);
        if entries_map(s.drop_last()).contains_key(k) {
            let j = choose|j: int| 0 <= j < s.drop_last().len() && s.drop_last()[j].0 == k;
            assert(s[j].0 == k);
        }
    } else {
        let d = s.drop_last();
        lemma_map_remove(d, i);
        assert(s.remove(i) =~= d.remove(i).push(s.last()));
        assert(s.remove(i).drop_last() =~= d.remove(i));
        assert(s.last().0 != k);
    }
}

proof fn lemma_map_update(s: Seq<UtxoEntry>, i: int, e: UtxoEntry)
    requires
        keys_unique(s),
        0 <= i < s.len(),
        e.0 == s[i].0,
    ensures
        entries_map(s.update(i, e)) =~= entries_map(s).insert(e.0, (e.1, e.2@)),
        keys_unique(s.update(i, e)),
    decreases s.len(),
{
    if i == s.len() - 1 {
        assert(s.update(i, e).drop_last() =~= s.drop_last());
    } else {
        let d = s.drop_last();
        lemma_map_update(d, i, e);
        assert(s.update(i, e).drop_last() =~= d.update(i, e));
        assert(s.last().0 != e.0);
    }
}

/// Position of the entry with the given hash.
fn find_entry(entries: &Vec<UtxoEntry>, k: &crate::sha256::Hash) -> (r: Option<usize>)
    ensures
        match r {
            Some(i) => i < entries@.len() && entries@[i as int].0 == *k,
            None => !entries_map(entries@).contains_key(*k),
        },
{
    let mut i: usize = 0;
    while i < entries.len()
        invariant
            i <= entries@.len(),
            forall|j: int| 0 <= j < i ==> entries@[j].0 != *k,
        decreases entries@.len() - i,
    {
        if entries[i].0 == *k {
            return Some(i);
        }
        i = i + 1;
    }
    proof {
        lemma_map_has(entries@, *k);
    }
    None
}

/// UTXO set: unspent outputs keyed by output hash, each with a flag that is set while a
/// transaction in the mempool references the output.
#[derive(Debug)]
pub struct UtxoSet {
    entries: Vec<UtxoEntry>,
}

impl UtxoSet {
    #[verifier::type_invariant]
    spec fn unique(self) -> bool {
        keys_unique(self.entries@)
    }

    /// The set as a map from output hash to (flag, output).
    pub closed spec fn spec_map(self) -> Map<crate::sha256::Hash, (bool, OutputV)> {
        entries_map(self.entries@)
    }

    /// The entries in the order they are held.
    pub closed spec fn spec_entries(self) -> Seq<UtxoEntry> {
        self.entries@
    }

    /// An empty set.
    pub fn new() -> (r: UtxoSet)
        ensures
            r.spec_map() == Map::<crate::sha256::Hash, (bool, OutputV)>::empty(),
            r.spec_entries().len() == 0,
    {
        UtxoSet { entries: Vec::new() }
    }

    /// Number of entries.
    pub fn len(&self) -> (r: usize)
        ensures
            r == self.spec_entries().len(),
            r == self.spec_map().len(),
    {
        proof {
            use_type_invariant(self);
            lemma_map_len(self.entries@);
        }
        self.entries.len()
    }

    /// The entry at position `i` in the order they are held.
    pub fn entry(&self, i: usize) -> (r: &UtxoEntry)
        requires
            i < self.spec_entries().len(),
        ensures
            *r == self.spec_entries()[i as int],
            self.spec_map().contains_key(r.0),
            self.spec_map()[r.0] == (r.1, r.2@),
    {
        proof {
            use_type_invariant(self);
            lemma_map_at(self.entries@, i as int);
        }
        &self.entries[i]
    }

    /// Whether an output with the given hash is in the set.
    pub fn contains_key(&self, k: &crate::sha256::Hash) -> (r: bool)
        ensures
            r == self.spec_map().contains_key(*k),
    {
        proof {
            use_type_invariant(self);
        }
        match find_entry(&self.entries, k) {
            Some(i) => {
                proof {
                    lemma_map_at(self.entries@, i as int);
                }
                true
            },
            None => false,
        }
    }

    /// The flag and output stored under the given hash.
    pub fn get(&self, k: &crate::sha256::Hash) -> (r: Option<(bool, &TxOutput)>)
        ensures
            match r {
                Some(p) => self.spec_map().contains_key(*k) && self.spec_map()[*k] == (p.0, p.1@),
                None => !self.spec_map().contains_key(*k),
            },
    {
        proof {
            use_type_invariant(self);
        }
        match find_entry(&self.entries, k) {
            Some(i) => {
                proof {
                    lemma_map_at(self.entries@, i as int);
                }
                let e = &self.entries[i];
                Some((e.1, &e.2))
            },
            None => None,
        }
    }

    /// The entries whose output is locked to the public key, in the order they are held.
    pub fn entries_for_pubkey(&self, pubkey: &PublicKey) -> (r: Vec<UtxoEntry>)
        ensures
            keys_unique(r@),
            forall|j: int|
                0 <= j < r@.len() ==> {
                    &&& self.spec_map().contains_key(#[trigger] r@[j].0)
                    &&& self.spec_map()[r@[j].0] == (r@[j].1, r@[j].2@)
                    &&& r@[j].2@.pubkey == pubkey.der@
                },
            forall|k: crate::sha256::Hash|
                #![trigger self.spec_map()[k]]
                self.spec_map().contains_key(k) && self.spec_map()[k].1.pubkey == pubkey.der@
                    ==> exists|j: int| 0 <= j < r@.len() && r@[j].0 == k,
    {
        proof {
            use_type_invariant(self);
        }
        let ghost es = self.entries@;
        let mut r: Vec<UtxoEntry> = Vec::new();
        let ghost mut idx: Seq<int> = Seq::empty();
        let mut i: usize = 0;
        while i < self.entries.len()
            invariant
                i <= es.len(),
                es == self.entries@,
                keys_unique(es),
                idx.len() == r@.len(),
                forall|j: int| 0 <= j < idx.len() ==> 0 <= #[trigger] idx[j] < i,
                forall|j: int, l: int| 0 <= j < l < idx.len() ==> idx[j] < idx[l],
                forall|j: int|
                    0 <= j < r@.len() ==> {
                        &&& (#[trigger] r@[j]).0 == es[idx[j]].0
                        &&& r@[j].1 == es[idx[j]].1
                        &&& r@[j].2@ == es[idx[j]].2@
                        &&& r@[j].2@.pubkey == pubkey.der@
                    },
                forall|e: int|
                    0 <= e < i && (#[trigger] es[e]).2@.pubkey == pubkey.der@ ==> exists|j: int|
                        0 <= j < r@.len() && r@[j].0 == es[e].0,
            decreases es.len() - i,
        {
            let e = &self.entries[i];
            if e.2.pubkey.same(pubkey) {
                let ghost before = r@;
                r.push((e.0, e.1, e.2.clone()));
                proof {
                    idx = idx.push(i as int);
                    assert(r@[r@.len() - 1].0 == es[i as int].0);
                    assert forall|e2: int|
                        0 <= e2 < i + 1 && (#[trigger] es[e2]).2@.pubkey == pubkey.der@ implies exists|j: int|
                            0 <= j < r@.len() && r@[j].0 == es[e2].0 by {
                        if e2 < i {
                            let j = choose|j: int| 0 <= j < before.len() && before[j].0 == es[e2].0;
                            assert(r@[j] == before[j]);
                        } else {
                            assert(r@[r@.len() - 1].0 == es[e2].0);
                        }
                    }
                }
            }
            i = i + 1;
        }
        proof {
            assert forall|j: int, l: int| 0 <= j < l < r@.len() implies r@[j].0 != r@[l].0 by {
                assert(idx[j] < idx[l]);
            }
            assert forall|j: int| 0 <= j < r@.len() implies {
                &&& self.spec_map().contains_key(#[trigger] r@[j].0)
                &&& self.spec_map()[r@[j].0] == (r@[j].1, r@[j].2@)
                &&& r@[j].2@.pubkey == pubkey.der@
            } by {
                lemma_map_at(es, idx[j]);
            }
            assert forall|k: crate::sha256::Hash|
                #![trigger self.spec_map()[k]]
                self.spec_map().contains_key(k) && self.spec_map()[k].1.pubkey == pubkey.der@
                    implies exists|j: int| 0 <= j < r@.len() && r@[j].0 == k by {
                lemma_map_has(es, k);
                let e = choose|e: int| 0 <= e < es.len() && es[e].0 == k;
                lemma_map_at(es, e);
                assert(es[e].2@.pubkey == pubkey.der@);
            }
        }
        r
    }

    /// Inserts or replaces the entry under the given hash.
    pub fn insert(&mut self, k: crate::sha256::Hash, marked: bool, output: TxOutput)
        ensures
            final(self).spec_map() == old(self).spec_map().insert(k, (marked, output@)),
    {
        proof {
            use_type_invariant(&*self);
        }
        let mut entries: Vec<UtxoEntry> = Vec::new();
        std::mem::swap(&mut entries, &mut self.entries);
        match find_entry(&entries, &k) {
            Some(i) => {
                proof {
                    lemma_map_update(entries@, i as int, (k, marked, output));
                }
                entries.set(i, (k, marked, output));
            },
            None => {
                proof {
                    lemma_map_has(entries@, k);
                }
                let ghost before = entries@;
                entries.push((k, marked, output));
                assert(entries@.drop_last() =~= before);
            },
        }
        self.entries = entries;
    }

    /// Removes the entry under the given hash, if there is one.
    pub fn remove(&mut self, k: &crate::sha256::Hash)
        ensures
            final(self).spec_map() == old(self).spec_map().remove(*k),
    {
        proof {
            use_type_invariant(&*self);
        }
        let mut entries: Vec<UtxoEntry> = Vec::new();
        std::mem::swap(&mut entries, &mut self.entries);
        match find_entry(&entries, k) {
            Some(i) => {
                proof {
                    lemma_map_remove(entries@, i as int);
                }
                entries.remove(i);
            },
            None => {
                assert(old(self).spec_map().remove(*k) =~= old(self).spec_map());
            },
        }
        self.entries = entries;
    }

    /// Sets the flag of the entry under the given hash, if there is one.
    pub fn set_marked(&mut self, k: &crate::sha256::Hash, marked: bool)
        ensures
            old(self).spec_map().contains_key(*k) ==> final(self).spec_map() == old(
                self,
            ).spec_map().insert(*k, (marked, old(self).spec_map()[*k].1)),
            !old(self).spec_map().contains_key(*k) ==> final(self).spec_map() == old(
                self,
            ).spec_map(),
    {
        proof {
            use_type_invariant(&*self);
        }
        let mut entries: Vec<UtxoEntry> = Vec::new();
        std::mem::swap(&mut entries, &mut self.entries);
        match find_entry(&entries, k) {
            Some(i) => {
                proof {
                    lemma_map_at(entries@, i as int);
                }
                let ghost before = entries@;
                let (h, _, out) = entries.remove(i);
                proof {
                    let e = (h, marked, out);
                    lemma_map_update(before, i as int, e);
                    assert(before.update(i as int, e) =~= entries@.insert(i as int, e));
                }
                entries.insert(i, (h, marked, out));
            },
            None => {},
        }
        self.entries = entries;
    }
}

proof fn lemma_map_len(s: Seq<UtxoEntry>)
    requires
        keys_unique(s),
    ensures
        entries_map(s).len() == s.len(),
        entries_map(s).dom().finite(),
    decreases s.len(),
{
    if s.len() > 0 {
        lemma_map_len(s.drop_last());
        lemma_map_has(s.drop_last(), s.last().0);
        if entries_map(s.drop_last()).contains_key(s.last().0) {
            let j = choose|j: int| 0 <= j < s.drop_last().len() && s.drop_last()[j].0 == s.last().0;
            assert(s[j].0 == s.last().0);
        }
    }
}

} // verus!
