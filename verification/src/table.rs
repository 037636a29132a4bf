//! A map from string keys to values, the shape of every registry in the crate.
//!
//! Keys are held in insertion order beside their values and never repeat; the
//! view is the `Map` from each key's characters to its value.

use vstd::prelude::*;

verus! {

pub struct Table<V> {
    keys: Vec<String>,
    vals: Vec<V>,
}

impl<V> Table<V> {
    /// The keys, in insertion order.
    pub closed spec fn key_seq(&self) -> Seq<Seq<char>> {
        self.keys@.map_values(|k: String| k@)
    }

    /// The values, in the order of `key_seq`.
    pub closed spec fn val_seq(&self) -> Seq<V> {
        self.vals@
    }

    /// Keys and values pair up, and no key repeats.
    pub open spec fn wf(&self) -> bool {
        &&& self.key_seq().len() == self.val_seq().len()
        &&& forall|i: int, j: int|
            0 <= i < j < self.key_seq().len() ==> self.key_seq()[i] != self.key_seq()[j]
    }

    pub open spec fn has_key(&self, k: Seq<char>) -> bool {
        exists|i: int| 0 <= i < self.key_seq().len() && self.key_seq()[i] == k
    }

    pub open spec fn index_of_key(&self, k: Seq<char>) -> int {
        choose|i: int| 0 <= i < self.key_seq().len() && self.key_seq()[i] == k
    }

    pub open spec fn view(&self) -> Map<Seq<char>, V> {
        Map::new(|k: Seq<char>| self.has_key(k), |k: Seq<char>| self.val_seq()[self.index_of_key(k)])
    }

    /// Each listed key maps to the value beside it.
    pub proof fn lemma_entry(&self, i: int)
        requires
            self.wf(),
            0 <= i < self.key_seq().len(),
        ensures
            self.view().contains_key(self.key_seq()[i]),
            self.view()[self.key_seq()[i]] == self.val_seq()[i],
            self.index_of_key(self.key_seq()[i]) == i,
    {
        let k = self.key_seq()[i];
        assert(self.has_key(k));
        let j = self.index_of_key(k);
        if j != i {
            if j < i {
                assert(self.key_seq()[j] != self.key_seq()[i]);
            } else {
                assert(self.key_seq()[i] != self.key_seq()[j]);
            }
        }
    }

    /// Every key of the view is listed.
    pub proof fn lemma_key(&self, k: Seq<char>)
        requires
            self.wf(),
            self.view().contains_key(k),
        ensures
            0 <= self.index_of_key(k) < self.key_seq().len(),
            self.key_seq()[self.index_of_key(k)] == k,
    {
    }

    pub fn new() -> (t: Self)
        ensures
            t.wf(),
            t.key_seq().len() == 0,
            t.view() == Map::<Seq<char>, V>::empty(),
    {
        let t = Table { keys: Vec::new(), vals: Vec::new() };
        assert(t.key_seq() =~= Seq::<Seq<char>>::empty());
        assert(t.view() =~= Map::<Seq<char>, V>::empty());
        t
    }

    pub fn len(&self) -> (n: usize)
        requires
            self.wf(),
        ensures
            n == self.key_seq().len(),
    {
        self.keys.len()
    }

    pub fn key_at(&self, i: usize) -> (k: &String)
        requires
            self.wf(),
            i < self.key_seq().len(),
        ensures
            k@ == self.key_seq()[i as int],
    {
        &self.keys[i]
    }

    pub fn val_at(&self, i: usize) -> (v: &V)
        requires
            self.wf(),
            i < self.key_seq().len(),
        ensures
            *v == self.val_seq()[i as int],
    {
        &self.vals[i]
    }

    /// Where `key` is listed, if it is.
    pub fn find(&self, key: &String) -> (r: Option<usize>)
        requires
            self.wf(),
        ensures
            match r {
                Some(i) => i < self.key_seq().len() && self.key_seq()[i as int] == key@,
                None => !self.view().contains_key(key@),
            },
    {
        let mut i: usize = 0;
        while i < self.keys.len()
            invariant
                self.wf(),
                i <= self.key_seq().len(),
                forall|j: int| 0 <= j < i ==> self.key_seq()[j] != key@,
            decreases self.keys.len() - i,
        {
            if self.keys[i] == *key {
                return Some(i);
            }
            i = i + 1;
        }
        None
    }

    /// Replaces the value listed at `i`.
    pub fn set_at(&mut self, i: usize, v: V)
        requires
            old(self).wf(),
            i < old(self).key_seq().len(),
        ensures
            final(self).wf(),
            final(self).key_seq() == old(self).key_seq(),
            final(self).val_seq() == old(self).val_seq().update(i as int, v),
            final(self).view() == old(self).view().insert(old(self).key_seq()[i as int], v),
    {
        let ghost k = self.key_seq()[i as int];
        self.vals.set(i, v);
        assert(self.key_seq() =~= old(self).key_seq());
        assert forall|q: Seq<char>| #[trigger] self.view().contains_key(q) == old(self).view().insert(k, v).contains_key(q) by {}
        assert forall|q: Seq<char>| self.view().contains_key(q) implies self.view()[q] == old(self).view().insert(k, v)[q] by {
            let j = self.index_of_key(q);
            self.lemma_entry(j);
            old(self).lemma_entry(j);
        }
        assert(self.view() =~= old(self).view().insert(k, v));
    }

    /// Lists a new key.
    pub fn push(&mut self, k: String, v: V)
        requires
            old(self).wf(),
            !old(self).view().contains_key(k@),
        ensures
            final(self).wf(),
            final(self).key_seq() == old(self).key_seq().push(k@),
            final(self).val_seq() == old(self).val_seq().push(v),
            final(self).view() == old(self).view().insert(k@, v),
    {
        let ghost kv = k@;
        proof {
            assert forall|j: int| 0 <= j < old(self).key_seq().len() implies old(self).key_seq()[j] != kv by {
                if old(self).key_seq()[j] == kv {
                    assert(old(self).has_key(kv));
                }
            }
        }
        self.keys.push(k);
        self.vals.push(v);
        assert(self.key_seq() =~= old(self).key_seq().push(kv));
        assert(self.val_seq() =~= old(self).val_seq().push(v));
        let ghost n = old(self).key_seq().len();
        assert forall|q: Seq<char>| #[trigger] self.view().contains_key(q) == old(self).view().insert(kv, v).contains_key(q) by {
            if old(self).has_key(q) {
                let j = old(self).index_of_key(q);
                assert(self.key_seq()[j] == q);
            }
            if self.has_key(q) && q != kv {
                let j = self.index_of_key(q);
                assert(j < n);
                assert(old(self).key_seq()[j] == q);
            }
            if q == kv {
                assert(self.key_seq()[n as int] == kv);
            }
        }
        assert forall|q: Seq<char>| self.view().contains_key(q) implies self.view()[q] == old(self).view().insert(kv, v)[q] by {
            let j = self.index_of_key(q);
            self.lemma_entry(j);
            if q != kv {
                assert(j < n);
                old(self).lemma_entry(j);
            } else {
                self.lemma_entry(n as int);
            }
        }
        assert(self.view() =~= old(self).view().insert(kv, v));
    }

    /// Unlists the key at `i`.
    pub fn remove_at(&mut self, i: usize)
        requires
            old(self).wf(),
            i < old(self).key_seq().len(),
        ensures
            final(self).wf(),
            final(self).key_seq() == old(self).key_seq().remove(i as int),
            final(self).val_seq() == old(self).val_seq().remove(i as int),
            final(self).view() == old(self).view().remove(old(self).key_seq()[i as int]),
    {
        let ghost k = old(self).key_seq()[i as int];
        let ghost n = old(self).key_seq().len();
        self.keys.remove(i);
        self.vals.remove(i);
        assert(self.key_seq() =~= old(self).key_seq().remove(i as int));
        assert(self.val_seq() =~= old(self).val_seq().remove(i as int));
        assert forall|a: int, b: int| 0 <= a < b < self.key_seq().len() implies self.key_seq()[a]
            != self.key_seq()[b] by {
            let a0 = if a < i { a } else { a + 1 };
            let b0 = if b < i { b } else { b + 1 };
            assert(self.key_seq()[a] == old(self).key_seq()[a0]);
            assert(self.key_seq()[b] == old(self).key_seq()[b0]);
        }
        assert forall|q: Seq<char>| #[trigger] self.view().contains_key(q) == old(self).view().remove(k).contains_key(q) by {
            if self.has_key(q) {
                let j = self.index_of_key(q);
                let j0 = if j < i { j } else { j + 1 };
                assert(old(self).key_seq()[j0] == q);
                assert(j0 != i as int);
                assert(q != k);
            }
            if old(self).has_key(q) && q != k {
                let j0 = old(self).index_of_key(q);
                assert(j0 != i as int);
                let j = if j0 < i { j0 } else { j0 - 1 };
                assert(self.key_seq()[j] == q);
            }
        }
        assert forall|q: Seq<char>| self.view().contains_key(q) implies self.view()[q] == old(self).view().remove(k)[q] by {
            let j = self.index_of_key(q);
            self.lemma_entry(j);
            let j0 = if j < i { j } else { j + 1 };
            old(self).lemma_entry(j0);
        }
        assert(self.view() =~= old(self).view().remove(k));
    }
}

} // verus!
