//! The unspent-output set: the authoritative map from output identifier to
//! output record.
//!
//! The set is held as a vector of entries with pairwise-distinct keys and
//! abstracts to a `Map` from identifier bytes to output views. Its total
//! held value is tracked abstractly as well, so that conservation of value
//! can be stated across applies and reward distributions.

use vstd::prelude::*;

use crate::crypto::{genesis_id, genesis_utxo_id};
use crate::types::{H256, Utxo, UtxoV};

verus! {

/// The spec-level image of one stored entry.
pub type EntryV = (Seq<u8>, UtxoV);

spec fn map_of(s: Seq<EntryV>) -> Map<Seq<u8>, UtxoV>
    decreases s.len(),
{
    if s.len() == 0 {
        Map::empty()
    } else {
        map_of(s.drop_last()).insert(s.last().0, s.last().1)
    }
}

spec fn total_of(s: Seq<EntryV>) -> int
    decreases s.len(),
{
    if s.len() == 0 {
        0
    } else {
        total_of(s.drop_last()) + s.last().1.value
    }
}

spec fn unique_keys(s: Seq<EntryV>) -> bool {
    forall|i: int, j: int| 0 <= i < j < s.len() ==> s[i].0 != s[j].0
}

proof fn lemma_map_of_contains(s: Seq<EntryV>, k: Seq<u8>)
    ensures
        map_of(s).dom().contains(k) <==> (exists|i: int| 0 <= i < s.len() && s[i].0 == k),
    decreases s.len(),
{
    if s.len() > 0 {
        lemma_map_of_contains(s.drop_last(), k);
        if s.last().0 == k {
            assert(s[s.len() - 1].0 == k);
        } else if map_of(s).dom().contains(k) {
            let i = choose|i: int| 0 <= i < s.drop_last().len() && s.drop_last()[i].0 == k;
            assert(s[i].0 == k);
        } else {
            if exists|i: int| 0 <= i < s.len() && s[i].0 == k {
                let i = choose|i: int| 0 <= i < s.len() && s[i].0 == k;
                assert(i < s.len() - 1);
                assert(s.drop_last()[i].0 == k);
            }
        }
    }
}

proof fn lemma_unique_drop_last(s: Seq<EntryV>)
    requires
        unique_keys(s),
        s.len() > 0,
    ensures
        unique_keys(s.drop_last()),
{
    assert forall|i: int, j: int| 0 <= i < j < s.drop_last().len() implies s.drop_last()[i].0
        != s.drop_last()[j].0 by {
        assert(s[i].0 != s[j].0);
    }
}

proof fn lemma_map_of_index(s: Seq<EntryV>, i: int)
    requires
        unique_keys(s),
        0 <= i < s.len(),
    ensures
        map_of(s).dom().contains(s[i].0),
        map_of(s)[s[i].0] == s[i].1,
    decreases s.len(),
{
    if i == s.len() - 1 {
        assert(s.last() == s[i]);
    } else {
        lemma_unique_drop_last(s);
        lemma_map_of_index(s.drop_last(), i);
        assert(s.drop_last()[i] == s[i]);
        assert(s[i].0 != s[s.len() - 1].0);
        assert(s.last() == s[s.len() - 1]);
    }
}

proof fn lemma_map_of_remove(s: Seq<EntryV>, i: int)
    requires
        unique_keys(s),
        0 <= i < s.len(),
    ensures
        unique_keys(s.remove(i)),
        map_of(s.remove(i)) == map_of(s).remove(s[i].0),
        total_of(s.remove(i)) == total_of(s) - s[i].1.value,
    decreases s.len(),
{
    s.remove_ensures(i);
    if i == s.len() - 1 {
        assert(s.remove(i) =~= s.drop_last());
        lemma_unique_drop_last(s);
        lemma_map_of_contains(s.drop_last(), s[i].0);
        assert forall|m: int| 0 <= m < s.drop_last().len() implies s.drop_last()[m].0 != s[i].0 by {
            assert(s[m].0 != s[i].0);
        }
        assert(map_of(s.drop_last()) =~= map_of(s).remove(s[i].0));
    } else {
        lemma_unique_drop_last(s);
        lemma_map_of_remove(s.drop_last(), i);
        assert(s.remove(i).drop_last() =~= s.drop_last().remove(i));
        assert(s.remove(i).last() == s.last());
        assert(s.drop_last()[i] == s[i]);
        // keys removed and re-inserted are distinct, so the operations commute
        assert(s[i].0 != s[s.len() - 1].0);
        assert(map_of(s.remove(i)) =~= map_of(s).remove(s[i].0));
        assert forall|a: int, b: int| 0 <= a < b < s.remove(i).len() implies s.remove(i)[a].0
            != s.remove(i)[b].0 by {
            let a0: int = if a < i {
                a
            } else {
                a + 1
            };
            let b0: int = if b < i {
                b
            } else {
                b + 1
            };
            assert(s[a0].0 != s[b0].0);
        }
    }
}

proof fn lemma_map_of_len(s: Seq<EntryV>)
    requires
        unique_keys(s),
    ensures
        map_of(s).dom().finite(),
        map_of(s).dom().len() == s.len(),
    decreases s.len(),
{
    if s.len() > 0 {
        lemma_unique_drop_last(s);
        lemma_map_of_len(s.drop_last());
        lemma_map_of_contains(s.drop_last(), s.last().0);
        assert forall|m: int| 0 <= m < s.drop_last().len() implies s.drop_last()[m].0
            != s.last().0 by {
            assert(s[m].0 != s[s.len() - 1].0);
        }
        assert(!map_of(s.drop_last()).dom().contains(s.last().0));
    }
}

/// The unspent-output set.
pub struct UtxoSet {
    entries: Vec<(H256, Utxo)>,
}

impl View for UtxoSet {
    type V = Map<Seq<u8>, UtxoV>;

    closed spec fn view(&self) -> Map<Seq<u8>, UtxoV> {
        map_of(self.entries_view())
    }
}

impl UtxoSet {
    /// The stored entries, as identifier bytes paired with output views.
    pub closed spec fn entries_view(&self) -> Seq<EntryV> {
        self.entries@.map_values(|e: (H256, Utxo)| (e.0@, e.1@))
    }

    /// Well-formedness: no two entries share a key.
    pub closed spec fn wf(&self) -> bool {
        unique_keys(self.entries_view())
    }

    /// The sum of the values of all entries currently in the set.
    pub closed spec fn total_value(&self) -> int {
        total_of(self.entries_view())
    }

    /// An empty set.
    pub fn new() -> (r: UtxoSet)
        ensures
            r.wf(),
            r@ == Map::<Seq<u8>, UtxoV>::empty(),
            r.total_value() == 0,
    {
        let r = UtxoSet { entries: Vec::new() };
        proof {
            assert(r.entries_view() =~= Seq::<EntryV>::empty());
        }
        r
    }

    /// Point lookup: the output stored under `id`, if any.
    pub fn get(&self, id: &H256) -> (r: Option<&Utxo>)
        requires
            self.wf(),
        ensures
            match r {
                Some(u) => self@.dom().contains(id@) && u@ == self@[id@],
                None => !self@.dom().contains(id@),
            },
    {
        let ghost s = self.entries_view();
        let mut i: usize = 0;
        while i < self.entries.len()
            invariant
                self.wf(),
                s == self.entries_view(),
                i <= self.entries.len(),
                s.len() == self.entries.len(),
                forall|m: int| 0 <= m < i ==> s[m].0 != id@,
            decreases self.entries.len() - i,
        {
            if self.entries[i].0.eq_bytes(id) {
                proof {
                    lemma_map_of_index(s, i as int);
                }
                return Some(&self.entries[i].1);
            }
            i = i + 1;
        }
        proof {
            lemma_map_of_contains(s, id@);
        }
        None
    }

    /// Existence check for an identifier.
    pub fn contains(&self, id: &H256) -> (r: bool)
        requires
            self.wf(),
        ensures
            r == self@.dom().contains(id@),
    {
        match self.get(id) {
            Some(_) => true,
            None => false,
        }
    }

    /// The number of entries in the set.
    pub fn len(&self) -> (n: usize)
        requires
            self.wf(),
        ensures
            n == self@.dom().len(),
    {
        proof {
            lemma_map_of_len(self.entries_view());
        }
        self.entries.len()
    }

    /// Insert a record under a key not currently present. Duplicate-key
    /// insertion is a caller defect, excluded by precondition.
    pub fn insert(&mut self, id: H256, utxo: Utxo)
        requires
            old(self).wf(),
            !old(self)@.dom().contains(id@),
        ensures
            final(self).wf(),
            final(self)@ == old(self)@.insert(id@, utxo@),
            final(self).total_value() == old(self).total_value() + utxo.value,
    {
        let ghost s = self.entries_view();
        proof {
            lemma_map_of_contains(s, id@);
        }
        self.entries.push((id, utxo));
        proof {
            let s2 = self.entries_view();
            assert(s2.drop_last() =~= s);
            assert(s2.last() == (id@, utxo@));
            assert forall|a: int, b: int| 0 <= a < b < s2.len() implies s2[a].0 != s2[b].0 by {
                if b < s2.len() - 1 {
                    assert(s[a].0 != s[b].0);
                } else {
                    assert(s[a].0 == s2[a].0);
                }
            }
        }
    }

    /// Remove the record stored under a key known to be present.
    pub fn remove(&mut self, id: &H256)
        requires
            old(self).wf(),
            old(self)@.dom().contains(id@),
        ensures
            final(self).wf(),
            final(self)@ == old(self)@.remove(id@),
            final(self).total_value() == old(self).total_value() - old(self)@[id@].value,
    {
        let ghost s = self.entries_view();
        proof {
            lemma_map_of_contains(s, id@);
        }
        let mut i: usize = 0;
        while i < self.entries.len()
            invariant
                self.wf(),
                s == self.entries_view(),
                s == old(self).entries_view(),
                self == old(self),
                i <= self.entries.len(),
                s.len() == self.entries.len(),
                exists|m: int| 0 <= m < s.len() && s[m].0 == id@,
                forall|m: int| 0 <= m < i ==> s[m].0 != id@,
            decreases self.entries.len() - i,
        {
            if self.entries[i].0.eq_bytes(id) {
                let ghost es = self.entries@;
                proof {
                    lemma_map_of_index(s, i as int);
                    lemma_map_of_remove(s, i as int);
                }
                self.entries.remove(i);
                proof {
                    es.remove_ensures(i as int);
                    s.remove_ensures(i as int);
                    assert(self.entries_view() =~= s.remove(i as int));
                }
                return ;
            }
            i = i + 1;
        }
        proof {
            // the key was known present, so the scan cannot run off the end
            assert(false);
        }
    }

    /// The spec-level map a genesis sequence seeds: each output keyed by the
    /// digest of its own bytes, a later duplicate of an already-seeded key
    /// left out.
    pub open spec fn genesis_map(s: Seq<UtxoV>) -> Map<Seq<u8>, UtxoV>
        decreases s.len(),
    {
        if s.len() == 0 {
            Map::empty()
        } else {
            let m = Self::genesis_map(s.drop_last());
            if m.dom().contains(genesis_id(s.last())) {
                m
            } else {
                m.insert(genesis_id(s.last()), s.last())
            }
        }
    }

    /// The total value such a seeding stores (duplicates left out).
    pub open spec fn genesis_total(s: Seq<UtxoV>) -> int
        decreases s.len(),
    {
        if s.len() == 0 {
            0
        } else {
            let m = Self::genesis_map(s.drop_last());
            if m.dom().contains(genesis_id(s.last())) {
                Self::genesis_total(s.drop_last())
            } else {
                Self::genesis_total(s.drop_last()) + s.last().value
            }
        }
    }

    /// Seed a set from a fixed initial collection of outputs, each keyed by
    /// the digest of its own content.
    pub fn from_genesis(outputs: &Vec<Utxo>) -> (r: UtxoSet)
        ensures
            r.wf(),
            r@ == Self::genesis_map(outputs@.map_values(|u: Utxo| u@)),
            r.total_value() == Self::genesis_total(outputs@.map_values(|u: Utxo| u@)),
    {
        let ghost ov = outputs@.map_values(|u: Utxo| u@);
        let mut r = UtxoSet::new();
        let mut j: usize = 0;
        while j < outputs.len()
            invariant
                j <= outputs.len(),
                ov == outputs@.map_values(|u: Utxo| u@),
                ov.len() == outputs.len(),
                r.wf(),
                r@ == Self::genesis_map(ov.take(j as int)),
                r.total_value() == Self::genesis_total(ov.take(j as int)),
            decreases outputs.len() - j,
        {
            let u = outputs[j];
            let id = genesis_utxo_id(&u);
            proof {
                assert(ov.take(j + 1).drop_last() =~= ov.take(j as int));
                assert(ov.take(j + 1).last() == ov[j as int]);
                assert(ov[j as int] == u@);
            }
            if !r.contains(&id) {
                r.insert(id, u);
            }
            j = j + 1;
        }
        proof {
            assert(ov.take(outputs.len() as int) =~= ov);
        }
        r
    }
}

} // verus!
