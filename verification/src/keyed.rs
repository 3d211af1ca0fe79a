//! An ordered table of records indexed by a `u64` key.
//!
//! Records are kept strictly ordered by key, so iterating the table visits
//! keys in ascending order, exactly like an ordered map.
use vstd::prelude::*;

verus! {

/// A record that carries its own `u64` key.
pub trait Keyed {
    spec fn spec_key(&self) -> u64;

    fn key(&self) -> (k: u64)
        ensures
            k == self.spec_key(),
    ;
}

/// Keys of `s` strictly increase along the sequence.
pub open spec fn keys_sorted<T: Keyed>(s: Seq<T>) -> bool {
    forall|i: int, j: int| 0 <= i < j < s.len() ==> #[trigger] s[i].spec_key() < #[trigger] s[j].spec_key()
}

/// Some record of `s` carries key `k`.
pub open spec fn seq_has_key<T: Keyed>(s: Seq<T>, k: u64) -> bool {
    exists|i: int| 0 <= i < s.len() && #[trigger] s[i].spec_key() == k
}

/// The position of the record carrying key `k`.
pub open spec fn seq_index_of<T: Keyed>(s: Seq<T>, k: u64) -> int {
    choose|i: int| 0 <= i < s.len() && #[trigger] s[i].spec_key() == k
}

/// The map from keys to records described by `s`.
pub open spec fn seq_to_map<T: Keyed>(s: Seq<T>) -> Map<u64, T> {
    Map::new(|k: u64| seq_has_key(s, k), |k: u64| s[seq_index_of(s, k)])
}

/// In a sorted sequence the record at `i` is the one the map gives for its key.
pub proof fn lemma_sorted_index<T: Keyed>(s: Seq<T>, i: int)
    requires
        keys_sorted(s),
        0 <= i < s.len(),
    ensures
        seq_has_key(s, s[i].spec_key()),
        seq_index_of(s, s[i].spec_key()) == i,
        seq_to_map(s).contains_key(s[i].spec_key()),
        seq_to_map(s)[s[i].spec_key()] == s[i],
{
    let k = s[i].spec_key();
    assert(seq_has_key(s, k));
    let j = seq_index_of(s, k);
    if j < i {
        assert(s[j].spec_key() < s[i].spec_key());
    } else if j > i {
        assert(s[i].spec_key() < s[j].spec_key());
    }
}

/// Every record of a sorted sequence is found by its key.
pub proof fn lemma_sorted_all<T: Keyed>(s: Seq<T>)
    requires
        keys_sorted(s),
    ensures
        forall|i: int| 0 <= i < s.len() ==> #[trigger] seq_to_map(s).contains_key(s[i].spec_key()) && seq_to_map(s)[s[i].spec_key()] == s[i],
        forall|k: u64| #[trigger] seq_to_map(s).contains_key(k) ==> exists|i: int| 0 <= i < s.len() && s[i].spec_key() == k,
        seq_to_map(s).dom().finite(),
{
    assert forall|i: int| 0 <= i < s.len() implies #[trigger] seq_to_map(s).contains_key(s[i].spec_key()) && seq_to_map(s)[s[i].spec_key()] == s[i] by {
        lemma_sorted_index(s, i);
    }
    lemma_map_finite(s);
}

/// The map of a sequence has a finite domain.
pub proof fn lemma_map_finite<T: Keyed>(s: Seq<T>)
    ensures
        seq_to_map(s).dom().finite(),
    decreases s.len(),
{
    if s.len() == 0 {
        assert(seq_to_map(s).dom() =~= Set::empty());
    } else {
        let t = s.drop_last();
        lemma_map_finite(t);
        assert(seq_to_map(s).dom() =~= seq_to_map(t).dom().insert(s.last().spec_key())) by {
            assert forall|k: u64| #[trigger] seq_to_map(s).dom().contains(k) implies seq_to_map(t).dom().insert(s.last().spec_key()).contains(k) by {
                let i = choose|i: int| 0 <= i < s.len() && #[trigger] s[i].spec_key() == k;
                if i < s.len() - 1 {
                    assert(t[i].spec_key() == k);
                }
            }
            assert forall|k: u64| #[trigger] seq_to_map(t).dom().insert(s.last().spec_key()).contains(k) implies seq_to_map(s).dom().contains(k) by {
                if k != s.last().spec_key() {
                    let i = choose|i: int| 0 <= i < t.len() && #[trigger] t[i].spec_key() == k;
                    assert(s[i].spec_key() == k);
                } else {
                    assert(s[s.len() - 1].spec_key() == k);
                }
            }
        }
    }
}

/// A table of records kept strictly ordered by their keys.
#[derive(Debug)]
pub struct KeyedVec<T> {
    items: Vec<T>,
}

impl<T: Keyed> KeyedVec<T> {
    /// The records in ascending key order.
    pub closed spec fn seq(&self) -> Seq<T> {
        self.items@
    }

    /// The table as a map from keys to records.
    pub open spec fn view(&self) -> Map<u64, T> {
        seq_to_map(self.seq())
    }

    /// The records are strictly ordered by key.
    pub open spec fn wf(&self) -> bool {
        keys_sorted(self.seq())
    }

    /// Creates an empty table.
    pub fn new() -> (r: Self)
        ensures
            r.wf(),
            r.seq() == Seq::<T>::empty(),
            r@ == Map::<u64, T>::empty(),
    {
        let r = KeyedVec { items: Vec::new() };
        assert(r@ =~= Map::<u64, T>::empty());
        r
    }

    /// Number of records.
    pub fn len(&self) -> (n: usize)
        ensures
            n == self.seq().len(),
    {
        self.items.len()
    }

    /// The record at position `i` in key order.
    pub fn at(&self, i: usize) -> (r: &T)
        requires
            i < self.seq().len(),
        ensures
            *r == self.seq()[i as int],
    {
        &self.items[i]
    }

    /// The facts linking the ordered records with the map view.
    pub proof fn lemma_view(&self)
        requires
            self.wf(),
        ensures
            forall|i: int| 0 <= i < self.seq().len() ==> #[trigger] self@.contains_key(self.seq()[i].spec_key()) && self@[self.seq()[i].spec_key()] == self.seq()[i],
            forall|k: u64| #[trigger] self@.contains_key(k) ==> exists|i: int| 0 <= i < self.seq().len() && self.seq()[i].spec_key() == k,
            self@.dom().finite(),
            self@.len() == self.seq().len(),
            forall|k: u64| #[trigger] self@.contains_key(k) ==> self@[k].spec_key() == k,
    {
        lemma_sorted_all(self.seq());
        lemma_len(self.seq());
        assert forall|k: u64| #[trigger] self@.contains_key(k) implies self@[k].spec_key() == k by {
            let i = choose|i: int| 0 <= i < self.seq().len() && self.seq()[i].spec_key() == k;
            assert(self@[self.seq()[i].spec_key()] == self.seq()[i]);
        }
    }

    /// Finds the position of the record carrying `k`.
    pub fn find(&self, k: u64) -> (r: Option<usize>)
        requires
            self.wf(),
        ensures
            r is None <==> !self@.contains_key(k),
            r matches Some(i) ==> i < self.seq().len() && self.seq()[i as int].spec_key() == k && self@[k] == self.seq()[i as int],
    {
        let mut i: usize = 0;
        while i < self.items.len()
            invariant
                i <= self.items@.len(),
                self.wf(),
                forall|j: int| 0 <= j < i ==> #[trigger] self.items@[j].spec_key() != k,
            decreases self.items@.len() - i,
        {
            if self.items[i].key() == k {
                proof { lemma_sorted_index(self.items@, i as int); }
                return Some(i);
            }
            i += 1;
        }
        None
    }

    /// Reports whether a record carries `k`.
    pub fn contains_key(&self, k: u64) -> (r: bool)
        requires
            self.wf(),
        ensures
            r == self@.contains_key(k),
    {
        self.find(k).is_some()
    }

    /// Returns the record carrying `k`, if any.
    pub fn get(&self, k: u64) -> (r: Option<&T>)
        requires
            self.wf(),
        ensures
            r is Some <==> self@.contains_key(k),
            r matches Some(v) ==> *v == self@[k],
    {
        match self.find(k) {
            Some(i) => Some(&self.items[i]),
            None => None,
        }
    }

    /// Inserts a record whose key is not present yet.
    pub fn insert(&mut self, item: T)
        requires
            old(self).wf(),
            !old(self)@.contains_key(item.spec_key()),
        ensures
            final(self).wf(),
            final(self)@ == old(self)@.insert(item.spec_key(), item),
    {
        let k = item.key();
        let mut p: usize = 0;
        while p < self.items.len() && self.items[p].key() < k
            invariant
                p <= self.items@.len(),
                keys_sorted(self.items@),
                forall|j: int| 0 <= j < p ==> #[trigger] self.items@[j].spec_key() < k,
            decreases self.items@.len() - p,
        {
            p += 1;
        }
        let ghost s = self.items@;
        proof {
            assert forall|j: int| p <= j < s.len() implies #[trigger] s[j].spec_key() > k by {
                if s[j].spec_key() <= k {
                    assert(s[p as int].spec_key() <= s[j].spec_key()) by {
                        if p < j { assert(s[p as int].spec_key() < s[j].spec_key()); }
                    }
                    assert(s[p as int].spec_key() >= k);
                    assert(s[p as int].spec_key() == k);
                    lemma_sorted_index(s, p as int);
                }
            }
        }
        self.items.insert(p, item);
        proof {
            let t = self.items@;
            assert(t =~= s.insert(p as int, item));
            assert forall|i: int, j: int| 0 <= i < j < t.len() implies #[trigger] t[i].spec_key() < #[trigger] t[j].spec_key() by {
                if j < p {
                } else if j == p {
                } else if i < p {
                    assert(t[j] == s[j - 1]);
                } else if i == p {
                    assert(t[j] == s[j - 1]);
                } else {
                    assert(t[i] == s[i - 1]);
                    assert(t[j] == s[j - 1]);
                }
            }
            lemma_sorted_all(s);
            lemma_sorted_all(t);
            assert(seq_to_map(t) =~= seq_to_map(s).insert(k, item)) by {
                assert forall|q: u64| #[trigger] seq_to_map(t).contains_key(q) <==> seq_to_map(s).insert(k, item).contains_key(q) by {
                    if seq_to_map(t).contains_key(q) {
                        let i = choose|i: int| 0 <= i < t.len() && t[i].spec_key() == q;
                        if i < p { assert(s[i] == t[i]); } else if i > p { assert(s[i - 1] == t[i]); }
                    }
                    if seq_to_map(s).contains_key(q) {
                        let i = choose|i: int| 0 <= i < s.len() && s[i].spec_key() == q;
                        if i < p { assert(t[i] == s[i]); } else { assert(t[i + 1] == s[i]); }
                    }
                    if q == k { assert(t[p as int] == item); }
                }
                assert forall|q: u64| #[trigger] seq_to_map(t).contains_key(q) implies seq_to_map(t)[q] == seq_to_map(s).insert(k, item)[q] by {
                    let i = choose|i: int| 0 <= i < t.len() && t[i].spec_key() == q;
                    if i < p { assert(s[i] == t[i]); } else if i > p { assert(s[i - 1] == t[i]); }
                }
            }
        }
    }

    /// Removes and returns the record carrying `k`, if any.
    pub fn remove(&mut self, k: u64) -> (r: Option<T>)
        requires
            old(self).wf(),
        ensures
            final(self).wf(),
            final(self)@ == old(self)@.remove(k),
            r is Some <==> old(self)@.contains_key(k),
            r matches Some(v) ==> v == old(self)@[k],
    {
        match self.find(k) {
            None => {
                assert(self@ =~= self@.remove(k));
                None
            },
            Some(p) => {
                let ghost s = self.items@;
                let item = self.items.remove(p);
                proof {
                    let t = self.items@;
                    assert(t =~= s.remove(p as int));
                    assert forall|i: int, j: int| 0 <= i < j < t.len() implies #[trigger] t[i].spec_key() < #[trigger] t[j].spec_key() by {
                        if j < p {
                        } else if i < p {
                            assert(t[j] == s[j + 1]);
                        } else {
                            assert(t[i] == s[i + 1]);
                            assert(t[j] == s[j + 1]);
                        }
                    }
                    lemma_sorted_all(s);
                    lemma_sorted_all(t);
                    assert(seq_to_map(t) =~= seq_to_map(s).remove(k)) by {
                        assert forall|q: u64| #[trigger] seq_to_map(t).contains_key(q) <==> seq_to_map(s).remove(k).contains_key(q) by {
                            if seq_to_map(t).contains_key(q) {
                                let i = choose|i: int| 0 <= i < t.len() && t[i].spec_key() == q;
                                if i < p { assert(s[i] == t[i]); assert(s[i].spec_key() < s[p as int].spec_key()); } else { assert(s[i + 1] == t[i]); assert(s[i + 1].spec_key() > s[p as int].spec_key()); }
                            }
                            if seq_to_map(s).contains_key(q) && q != k {
                                let i = choose|i: int| 0 <= i < s.len() && s[i].spec_key() == q;
                                if i < p { assert(t[i] == s[i]); } else if i > p { assert(t[i - 1] == s[i]); }
                            }
                        }
                        assert forall|q: u64| #[trigger] seq_to_map(t).contains_key(q) implies seq_to_map(t)[q] == seq_to_map(s).remove(k)[q] by {
                            let i = choose|i: int| 0 <= i < t.len() && t[i].spec_key() == q;
                            if i < p { assert(s[i] == t[i]); } else { assert(s[i + 1] == t[i]); }
                        }
                    }
                }
                Some(item)
            },
        }
    }
}

/// The map of a sorted sequence has as many keys as the sequence has records.
pub proof fn lemma_len<T: Keyed>(s: Seq<T>)
    requires
        keys_sorted(s),
    ensures
        seq_to_map(s).len() == s.len(),
    decreases s.len(),
{
    lemma_map_finite(s);
    if s.len() == 0 {
        assert(seq_to_map(s).dom() =~= Set::empty());
    } else {
        let t = s.drop_last();
        assert(keys_sorted(t));
        lemma_len(t);
        lemma_map_finite(t);
        let k = s.last().spec_key();
        assert(seq_to_map(s).dom() =~= seq_to_map(t).dom().insert(k)) by {
            assert forall|q: u64| #[trigger] seq_to_map(s).dom().contains(q) implies seq_to_map(t).dom().insert(k).contains(q) by {
                let i = choose|i: int| 0 <= i < s.len() && #[trigger] s[i].spec_key() == q;
                if i < s.len() - 1 { assert(t[i].spec_key() == q); }
            }
            assert forall|q: u64| #[trigger] seq_to_map(t).dom().insert(k).contains(q) implies seq_to_map(s).dom().contains(q) by {
                if q != k {
                    let i = choose|i: int| 0 <= i < t.len() && #[trigger] t[i].spec_key() == q;
                    assert(s[i].spec_key() == q);
                } else {
                    assert(s[s.len() - 1].spec_key() == q);
                }
            }
        }
        assert(!seq_to_map(t).dom().contains(k)) by {
            if seq_to_map(t).dom().contains(k) {
                let i = choose|i: int| 0 <= i < t.len() && #[trigger] t[i].spec_key() == k;
                assert(s[i].spec_key() < s[s.len() - 1].spec_key());
            }
        }
    }
}

} // verus!

verus! {

/// Appending a record with a fresh key adds exactly that entry to the map.
pub proof fn lemma_seq_to_map_push<T: Keyed>(s: Seq<T>, x: T)
    requires
        keys_unique(s),
        !seq_has_key(s, x.spec_key()),
    ensures
        keys_unique(s.push(x)),
        seq_to_map(s.push(x)) == seq_to_map(s).insert(x.spec_key(), x),
{
    let t = s.push(x);
    let k = x.spec_key();
    assert(t[s.len() as int] == x);
    assert forall|q: u64| #[trigger] seq_to_map(t).contains_key(q) <==> seq_to_map(s).insert(k, x).contains_key(q) by {
        if seq_to_map(s).contains_key(q) {
            let i = choose|i: int| 0 <= i < s.len() && #[trigger] s[i].spec_key() == q;
            assert(t[i] == s[i]);
        }
        if seq_to_map(t).contains_key(q) && q != k {
            let i = choose|i: int| 0 <= i < t.len() && #[trigger] t[i].spec_key() == q;
            assert(s[i] == t[i]);
        }
    }
    assert forall|q: u64| #[trigger] seq_to_map(t).contains_key(q) implies seq_to_map(t)[q] == seq_to_map(s).insert(k, x)[q] by {
        let i = seq_index_of(t, q);
        if q == k {
            if i < s.len() {
                assert(s[i] == t[i]);
                assert(seq_has_key(s, k));
            }
        } else {
            assert(i < s.len());
            assert(s[i] == t[i]);
            assert(seq_has_key(s, q));
            let i2 = seq_index_of(s, q);
            assert(t[i2] == s[i2]);
            // the choice in `t` and in `s` may differ only among records sharing key `q`
            assert(seq_to_map(t)[q] == t[i]);
            assert(seq_to_map(s)[q] == s[i2]);
            lemma_unique_key_choice(s, q, i, i2);
        }
    }
    assert(seq_to_map(t) =~= seq_to_map(s).insert(k, x));
    assert forall|i: int, j: int| 0 <= i < t.len() && 0 <= j < t.len() && i != j implies #[trigger] t[i].spec_key() != #[trigger] t[j].spec_key() by {
        if i == s.len() { assert(t[j] == s[j]); } else if j == s.len() { assert(t[i] == s[i]); } else { assert(t[i] == s[i]); assert(t[j] == s[j]); }
    }
}

/// Keys occurring at most once in `s`.
pub open spec fn keys_unique<T: Keyed>(s: Seq<T>) -> bool {
    forall|i: int, j: int| 0 <= i < s.len() && 0 <= j < s.len() && i != j ==> #[trigger] s[i].spec_key() != #[trigger] s[j].spec_key()
}

/// Two positions carrying the same key hold the same record when keys are unique.
pub proof fn lemma_unique_key_choice<T: Keyed>(s: Seq<T>, q: u64, i: int, j: int)
    requires
        0 <= i < s.len(),
        0 <= j < s.len(),
        s[i].spec_key() == q,
        s[j].spec_key() == q,
        keys_unique(s) || i == j,
    ensures
        s[i] == s[j],
{
}

} // verus!

verus! {

/// The map obtained by inserting the records of `s` in order, later records winning.
pub open spec fn insert_all<T: Keyed>(m: Map<u64, T>, s: Seq<T>) -> Map<u64, T>
    decreases s.len(),
{
    if s.len() == 0 {
        m
    } else {
        insert_all(m, s.drop_last()).insert(s.last().spec_key(), s.last())
    }
}

/// Inserting a prefix and then one more record is inserting the longer prefix.
pub proof fn lemma_insert_all_take<T: Keyed>(m: Map<u64, T>, s: Seq<T>, i: int)
    requires
        0 <= i < s.len(),
    ensures
        insert_all(m, s.take(i + 1)) == insert_all(m, s.take(i)).insert(s[i].spec_key(), s[i]),
{
    assert(s.take(i + 1).drop_last() =~= s.take(i));
    assert(s.take(i + 1).last() == s[i]);
}

impl<T: Keyed> KeyedVec<T> {
    /// Inserts a record, replacing any record already carrying its key.
    pub fn upsert(&mut self, item: T)
        requires
            old(self).wf(),
        ensures
            final(self).wf(),
            final(self)@ == old(self)@.insert(item.spec_key(), item),
    {
        let k = item.key();
        let _ = self.remove(k);
        self.insert(item);
        assert(self@ =~= old(self)@.insert(k, item));
    }

    /// The records in ascending key order.
    pub fn as_slice(&self) -> (r: &[T])
        ensures
            r@ == self.seq(),
    {
        self.items.as_slice()
    }

    /// Consumes the table into its records in ascending key order.
    pub fn into_vec(self) -> (r: Vec<T>)
        ensures
            r@ == self.seq(),
    {
        self.items
    }
}

} // verus!

verus! {

/// The map with every key of `ks` removed.
pub open spec fn remove_keys<T>(m: Map<u64, T>, ks: Seq<u64>) -> Map<u64, T> {
    m.restrict(m.dom().difference(ks.to_set()))
}

/// Removing one more key of a prefix.
pub proof fn lemma_remove_keys_take<T>(m: Map<u64, T>, ks: Seq<u64>, i: int)
    requires
        0 <= i < ks.len(),
    ensures
        remove_keys(m, ks.take(i + 1)) == remove_keys(m, ks.take(i)).remove(ks[i]),
{
    let t1 = ks.take(i + 1);
    let t0 = ks.take(i);
    assert forall|k: u64| t1.to_set().contains(k) <==> t0.to_set().insert(ks[i]).contains(k) by {
        if t1.to_set().contains(k) {
            let j = choose|j: int| 0 <= j < t1.len() && #[trigger] t1[j] == k;
            if j < i {
                assert(t0[j] == k);
            }
        }
        if t0.to_set().contains(k) {
            let j = choose|j: int| 0 <= j < t0.len() && #[trigger] t0[j] == k;
            assert(t1[j] == k);
        }
        if k == ks[i] {
            assert(t1[i] == k);
        }
    }
    assert(t1.to_set() =~= t0.to_set().insert(ks[i]));
    assert(remove_keys(m, ks.take(i + 1)) =~= remove_keys(m, ks.take(i)).remove(ks[i]));
}

impl<T: Keyed> KeyedVec<T> {
    /// Removes every record whose key is listed.
    pub fn remove_all(&mut self, ks: &Vec<u64>)
        requires
            old(self).wf(),
        ensures
            final(self).wf(),
            final(self)@ == remove_keys(old(self)@, ks@),
    {
        let ghost m0 = self@;
        assert(remove_keys(m0, ks@.take(0)) =~= m0) by {
            assert(ks@.take(0).to_set() =~= Set::<u64>::empty());
        }
        let mut i: usize = 0;
        while i < ks.len()
            invariant
                self.wf(),
                i <= ks@.len(),
                self@ == remove_keys(m0, ks@.take(i as int)),
            decreases ks@.len() - i,
        {
            let _ = self.remove(ks[i]);
            proof {
                lemma_remove_keys_take(m0, ks@, i as int);
            }
            i += 1;
        }
        assert(ks@.take(ks@.len() as int) =~= ks@);
    }
}

/// Pushing a key adds exactly that key.
pub proof fn lemma_push_contains(before: Seq<u64>, x: u64)
    ensures
        forall|k: u64| #[trigger] before.push(x).contains(k) <==> before.contains(k) || k == x,
{
    assert forall|k: u64| #[trigger] before.push(x).contains(k) <==> before.contains(k) || k == x by {
        let after = before.push(x);
        if after.contains(k) {
            let i = choose|i: int| 0 <= i < after.len() && after[i] == k;
            if i < before.len() {
                assert(before[i] == k);
            }
        }
        if before.contains(k) {
            let i = choose|i: int| 0 <= i < before.len() && before[i] == k;
            assert(after[i] == k);
        }
        if k == x {
            assert(after[before.len() as int] == k);
        }
    }
}

} // verus!
