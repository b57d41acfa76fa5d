//! A small map from string keys to values.
//!
//! The exchange keys its accounts, wallets, order books and order records by
//! strings (user ids, currency codes, market symbols, order ids). `Table`
//! keeps its entries in a vector in which no key occurs twice, and is viewed
//! as a `Map` from the key's characters to the value.
use vstd::prelude::*;

verus! {

/// A map from `String` keys to values in which each key occurs once.
#[derive(Debug)]
pub struct Table<V> {
    entries: Vec<(String, V)>,
}

impl<V> View for Table<V> {
    type V = Map<Seq<char>, V>;

    /// The contents of the table.
    closed spec fn view(&self) -> Map<Seq<char>, V> {
        Map::new(
            |k: Seq<char>| exists|i: int| self.holds_at(i, k),
            |k: Seq<char>| self.entries@[choose|i: int| self.holds_at(i, k)].1,
        )
    }
}

impl<V> Table<V> {
    /// No key occurs twice among the entries.
    pub closed spec fn wf(&self) -> bool {
        forall|i: int, j: int|
            0 <= i < self.entries@.len() && 0 <= j < self.entries@.len() && i != j
                ==> #[trigger] self.entries@[i].0@ != #[trigger] self.entries@[j].0@
    }

    /// Whether entry `i` holds key `k`.
    closed spec fn holds_at(&self, i: int, k: Seq<char>) -> bool {
        0 <= i < self.entries@.len() && self.entries@[i].0@ == k
    }

    proof fn lemma_at(&self, i: int)
        requires
            self.wf(),
            0 <= i < self.entries@.len(),
        ensures
            self.view().contains_key(self.entries@[i].0@),
            self.view()[self.entries@[i].0@] == self.entries@[i].1,
    {
        let k = self.entries@[i].0@;
        assert(self.holds_at(i, k));
        let j = choose|j: int| self.holds_at(j, k);
        assert(self.holds_at(j, k));
        if i != j {
            assert(self.entries@[i].0@ != self.entries@[j].0@);
        }
    }

    /// A table holds finitely many keys.
    pub proof fn lemma_finite(&self)
        requires
            self.wf(),
        ensures
            self@.dom().finite(),
    {
        let keys = Seq::new(self.entries@.len(), |i: int| self.entries@[i].0@);
        assert(self@.dom() =~= keys.to_set()) by {
            assert forall|k: Seq<char>| self@.dom().contains(k) implies keys.to_set().contains(k) by {
                let i = choose|i: int| self.holds_at(i, k);
                assert(keys[i] == k);
            }
            assert forall|k: Seq<char>| keys.to_set().contains(k) implies self@.dom().contains(k) by {
                let i = choose|i: int| 0 <= i < keys.len() && keys[i] == k;
                assert(self.holds_at(i, k));
            }
        }
        vstd::seq_lib::seq_to_set_is_finite(keys);
    }

    /// An empty table.
    pub fn new() -> (t: Self)
        ensures
            t.wf(),
            t.view() == Map::<Seq<char>, V>::empty(),
    {
        let t = Table { entries: Vec::new() };
        assert(t.view() =~= Map::<Seq<char>, V>::empty());
        t
    }

    /// The number of keys in the table.
    pub fn len(&self) -> (n: usize)
        requires
            self.wf(),
        ensures
            n == self.view().dom().len(),
    {
        let ghost keys = Seq::new(self.entries@.len(), |i: int| self.entries@[i].0@);
        proof {
            assert(self.view().dom() =~= keys.to_set()) by {
                assert forall|k: Seq<char>| self.view().dom().contains(k) implies keys.to_set().contains(k) by {
                    let i = choose|i: int| self.holds_at(i, k);
                    assert(keys[i] == k);
                }
                assert forall|k: Seq<char>| keys.to_set().contains(k) implies self.view().dom().contains(k) by {
                    let i = choose|i: int| 0 <= i < keys.len() && keys[i] == k;
                    assert(self.holds_at(i, k));
                }
            }
            assert(keys.no_duplicates()) by {
                assert forall|i: int, j: int| 0 <= i < keys.len() && 0 <= j < keys.len() && i != j implies keys[i] != keys[j] by {
                    assert(self.entries@[i].0@ != self.entries@[j].0@);
                }
            }
            keys.unique_seq_to_set();
        }
        self.entries.len()
    }

    fn find(&self, k: &String) -> (r: Option<usize>)
        requires
            self.wf(),
        ensures
            match r {
                Some(i) => i < self.entries@.len() && self.entries@[i as int].0@ == k@,
                None => !self.view().contains_key(k@),
            },
    {
        let n = self.entries.len();
        let mut i: usize = 0;
        while i < n
            invariant
                n == self.entries@.len(),
                i <= n,
                forall|j: int| 0 <= j < i ==> self.entries@[j].0@ != k@,
            decreases n - i,
        {
            if self.entries[i].0 == *k {
                return Some(i);
            }
            i = i + 1;
        }
        proof {
            if self.view().contains_key(k@) {
                let j = choose|j: int| self.holds_at(j, k@);
                assert(self.holds_at(j, k@));
            }
        }
        None
    }

    /// Whether the table holds key `k`.
    pub fn contains_key(&self, k: &str) -> (b: bool)
        requires
            self.wf(),
        ensures
            b == self.view().contains_key(k@),
    {
        let key = k.to_owned();
        match self.find(&key) {
            Some(i) => {
                proof {
                    self.lemma_at(i as int);
                }
                true
            },
            None => false,
        }
    }

    /// The value under key `k`, if any.
    pub fn get(&self, k: &str) -> (r: Option<&V>)
        requires
            self.wf(),
        ensures
            match r {
                Some(v) => self.view().contains_key(k@) && *v == self.view()[k@],
                None => !self.view().contains_key(k@),
            },
    {
        let key = k.to_owned();
        match self.find(&key) {
            Some(i) => {
                proof {
                    self.lemma_at(i as int);
                }
                Some(&self.entries[i].1)
            },
            None => None,
        }
    }

    /// Puts `v` under key `k`, replacing what was there.
    pub fn insert(&mut self, k: String, v: V)
        requires
            old(self).wf(),
        ensures
            final(self).wf(),
            final(self).view() == old(self).view().insert(k@, v),
    {
        let ghost old_self = *self;
        let ghost kv = k@;
        match self.find(&k) {
            Some(i) => {
                self.entries.set(i, (k, v));
                proof {
                    assert(self.wf()) by {
                        assert forall|a: int, b: int|
                            0 <= a < self.entries@.len() && 0 <= b < self.entries@.len() && a != b
                            implies #[trigger] self.entries@[a].0@ != #[trigger] self.entries@[b].0@ by {
                            assert(old_self.entries@[a].0@ != old_self.entries@[b].0@);
                        }
                    }
                    assert forall|key: Seq<char>| #[trigger] self.view().contains_key(key) <==> old_self.view().insert(kv, v).contains_key(key) by {
                        if self.view().contains_key(key) {
                            let j = choose|j: int| self.holds_at(j, key);
                            assert(self.holds_at(j, key));
                            if j != i {
                                assert(old_self.holds_at(j, key));
                            }
                        }
                        if old_self.view().contains_key(key) {
                            let j = choose|j: int| old_self.holds_at(j, key);
                            assert(old_self.holds_at(j, key));
                            if j != i {
                                assert(self.holds_at(j, key));
                            } else {
                                assert(self.holds_at(i as int, key));
                            }
                        }
                        if key == kv {
                            assert(self.holds_at(i as int, key));
                        }
                    }
                    assert forall|key: Seq<char>| self.view().contains_key(key) implies #[trigger] self.view()[key] == old_self.view().insert(kv, v)[key] by {
                        let j = choose|j: int| self.holds_at(j, key);
                        assert(self.holds_at(j, key));
                        self.lemma_at(j);
                        if j != i {
                            assert(old_self.entries@[j] == self.entries@[j]);
                            old_self.lemma_at(j);
                        }
                    }
                    assert(self.view() =~= old_self.view().insert(kv, v));
                }
            },
            None => {
                self.entries.push((k, v));
                proof {
                    let n = old_self.entries@.len() as int;
                    assert(self.wf()) by {
                        assert forall|a: int, b: int|
                            0 <= a < self.entries@.len() && 0 <= b < self.entries@.len() && a != b
                            implies #[trigger] self.entries@[a].0@ != #[trigger] self.entries@[b].0@ by {
                            if a < n && b < n {
                                assert(old_self.entries@[a].0@ != old_self.entries@[b].0@);
                            } else if a < n {
                                old_self.lemma_at(a);
                            } else {
                                old_self.lemma_at(b);
                            }
                        }
                    }
                    assert forall|key: Seq<char>| #[trigger] self.view().contains_key(key) <==> old_self.view().insert(kv, v).contains_key(key) by {
                        if self.view().contains_key(key) {
                            let j = choose|j: int| self.holds_at(j, key);
                            assert(self.holds_at(j, key));
                            if j < n {
                                assert(old_self.holds_at(j, key));
                            }
                        }
                        if old_self.view().contains_key(key) {
                            let j = choose|j: int| old_self.holds_at(j, key);
                            assert(old_self.holds_at(j, key));
                            assert(self.holds_at(j, key));
                        }
                        if key == kv {
                            assert(self.holds_at(n, key));
                        }
                    }
                    assert forall|key: Seq<char>| self.view().contains_key(key) implies #[trigger] self.view()[key] == old_self.view().insert(kv, v)[key] by {
                        let j = choose|j: int| self.holds_at(j, key);
                        assert(self.holds_at(j, key));
                        self.lemma_at(j);
                        if j < n {
                            assert(old_self.entries@[j] == self.entries@[j]);
                            old_self.lemma_at(j);
                        }
                    }
                    assert(self.view() =~= old_self.view().insert(kv, v));
                }
            },
        }
    }

    /// Removes key `k` and hands back its value, if it was there.
    pub fn take(&mut self, k: &str) -> (r: Option<V>)
        requires
            old(self).wf(),
        ensures
            final(self).wf(),
            final(self).view() == old(self).view().remove(k@),
            match r {
                Some(v) => old(self).view().contains_key(k@) && v == old(self).view()[k@],
                None => !old(self).view().contains_key(k@),
            },
    {
        let ghost old_self = *self;
        let key = k.to_owned();
        match self.find(&key) {
            Some(i) => {
                proof {
                    old_self.lemma_at(i as int);
                }
                let (_, v) = self.entries.remove(i);
                proof {
                    let kv = k@;
                    assert(self.wf()) by {
                        assert forall|a: int, b: int|
                            0 <= a < self.entries@.len() && 0 <= b < self.entries@.len() && a != b
                            implies #[trigger] self.entries@[a].0@ != #[trigger] self.entries@[b].0@ by {
                            let oa = if a < i { a } else { a + 1 };
                            let ob = if b < i { b } else { b + 1 };
                            assert(old_self.entries@[oa].0@ != old_self.entries@[ob].0@);
                        }
                    }
                    assert forall|key: Seq<char>| #[trigger] self.view().contains_key(key) <==> old_self.view().remove(kv).contains_key(key) by {
                        if self.view().contains_key(key) {
                            let j = choose|j: int| self.holds_at(j, key);
                            assert(self.holds_at(j, key));
                            let oj = if j < i { j } else { j + 1 };
                            assert(old_self.holds_at(oj, key));
                            assert(old_self.entries@[oj].0@ != old_self.entries@[i as int].0@);
                        }
                        if old_self.view().remove(kv).contains_key(key) {
                            let j = choose|j: int| old_self.holds_at(j, key);
                            assert(old_self.holds_at(j, key));
                            assert(j != i);
                            let nj = if j < i { j } else { j - 1 };
                            assert(self.holds_at(nj, key));
                        }
                    }
                    assert forall|key: Seq<char>| self.view().contains_key(key) implies #[trigger] self.view()[key] == old_self.view().remove(kv)[key] by {
                        let j = choose|j: int| self.holds_at(j, key);
                        assert(self.holds_at(j, key));
                        self.lemma_at(j);
                        let oj = if j < i { j } else { j + 1 };
                        assert(old_self.entries@[oj] == self.entries@[j]);
                        old_self.lemma_at(oj);
                    }
                    assert(self.view() =~= old_self.view().remove(kv));
                }
                Some(v)
            },
            None => {
                proof {
                    assert(self.view() =~= old_self.view().remove(k@));
                }
                None
            },
        }
    }
    /// Entry `i` of `b` holds the key that it holds in `a`, and `b` agrees
    /// with `a` on every other entry.
    proof fn lemma_set_at(a: Table<V>, b: Table<V>, i: int)
        requires
            a.wf(),
            0 <= i < a.entries@.len(),
            b.entries@ == a.entries@.update(i, (a.entries@[i].0, b.entries@[i].1)),
        ensures
            b.wf(),
            b@ == a@.insert(a.entries@[i].0@, b.entries@[i].1),
    {
        let kv = a.entries@[i].0@;
        let v = b.entries@[i].1;
        assert(b.wf()) by {
            assert forall|x: int, y: int|
                0 <= x < b.entries@.len() && 0 <= y < b.entries@.len() && x != y
                implies #[trigger] b.entries@[x].0@ != #[trigger] b.entries@[y].0@ by {
                assert(a.entries@[x].0@ != a.entries@[y].0@);
            }
        }
        assert forall|key: Seq<char>| #[trigger] b@.contains_key(key) <==> a@.insert(kv, v).contains_key(key) by {
            if b@.contains_key(key) {
                let j = choose|j: int| b.holds_at(j, key);
                assert(b.holds_at(j, key));
                if j != i {
                    assert(a.holds_at(j, key));
                }
            }
            if a@.contains_key(key) {
                let j = choose|j: int| a.holds_at(j, key);
                assert(a.holds_at(j, key));
                assert(b.holds_at(j, key));
            }
            if key == kv {
                assert(b.holds_at(i, key));
            }
        }
        assert forall|key: Seq<char>| b@.contains_key(key) implies #[trigger] b@[key] == a@.insert(kv, v)[key] by {
            let j = choose|j: int| b.holds_at(j, key);
            assert(b.holds_at(j, key));
            b.lemma_at(j);
            if j != i {
                assert(a.entries@[j] == b.entries@[j]);
                a.lemma_at(j);
            }
        }
        assert(b@ =~= a@.insert(kv, v));
    }

    /// The value under key `k`, to be changed in place, if the table holds `k`.
    pub fn get_mut(&mut self, k: &str) -> (r: Option<&mut V>)
        requires
            old(self).wf(),
        ensures
            final(self).wf(),
            match r {
                Some(v) => old(self)@.contains_key(k@) && *v == old(self)@[k@]
                    && final(self)@ == old(self)@.insert(k@, *final(v)),
                None => !old(self)@.contains_key(k@) && final(self)@ == old(self)@,
            },
    {
        let key = k.to_owned();
        match self.find(&key) {
            Some(i) => {
                proof {
                    self.lemma_at(i as int);
                    let now = *self;
                    assert forall|b: Table<V>| #![trigger b.wf()] #![trigger b@]
                        b.entries@ == now.entries@.update(i as int, (now.entries@[i as int].0, b.entries@[i as int].1))
                        implies b.wf() && b@ == now@.insert(k@, b.entries@[i as int].1) by {
                        Self::lemma_set_at(now, b, i as int);
                    }
                }
                Some(&mut self.entries[i].1)
            },
            None => None,
        }
    }

    /// The value under key `k`, to be changed in place; `fresh` is put under
    /// `k` first if the table does not hold it.
    pub fn get_mut_or_insert(&mut self, k: &str, fresh: V) -> (r: &mut V)
        requires
            old(self).wf(),
        ensures
            *r == (if old(self)@.contains_key(k@) { old(self)@[k@] } else { fresh }),
            final(self).wf(),
            final(self)@ == old(self)@.insert(k@, *final(r)),
    {
        let key = k.to_owned();
        let i = match self.find(&key) {
            Some(i) => {
                proof {
                    self.lemma_at(i as int);
                }
                i
            },
            None => {
                let n = self.entries.len();
                let ghost before = *self;
                self.entries.push((key, fresh));
                proof {
                    assert forall|x: int, y: int|
                        0 <= x < self.entries@.len() && 0 <= y < self.entries@.len() && x != y
                        implies #[trigger] self.entries@[x].0@ != #[trigger] self.entries@[y].0@ by {
                        if x < n && y < n {
                            assert(before.entries@[x].0@ != before.entries@[y].0@);
                        } else if x < n {
                            before.lemma_at(x);
                        } else {
                            before.lemma_at(y);
                        }
                    }
                    self.lemma_at(n as int);
                    assert forall|key: Seq<char>| #[trigger] self@.contains_key(key) <==> before@.insert(k@, fresh).contains_key(key) by {
                        if self@.contains_key(key) {
                            let j = choose|j: int| self.holds_at(j, key);
                            assert(self.holds_at(j, key));
                            if j < n {
                                assert(before.holds_at(j, key));
                            }
                        }
                        if before@.contains_key(key) {
                            let j = choose|j: int| before.holds_at(j, key);
                            assert(before.holds_at(j, key));
                            assert(self.holds_at(j, key));
                        }
                    }
                    assert forall|key: Seq<char>| self@.contains_key(key) implies #[trigger] self@[key] == before@.insert(k@, fresh)[key] by {
                        let j = choose|j: int| self.holds_at(j, key);
                        assert(self.holds_at(j, key));
                        self.lemma_at(j);
                        if j < n {
                            assert(before.entries@[j] == self.entries@[j]);
                            before.lemma_at(j);
                        }
                    }
                    assert(self@ =~= before@.insert(k@, fresh));
                }
                n
            },
        };
        let ghost now = *self;
        proof {
            assert forall|b: Table<V>| #![trigger b.wf()] #![trigger b@]
                b.entries@ == now.entries@.update(i as int, (now.entries@[i as int].0, b.entries@[i as int].1))
                implies b.wf() && b@ == old(self)@.insert(k@, b.entries@[i as int].1) by {
                Self::lemma_set_at(now, b, i as int);
                assert(now@.insert(k@, b.entries@[i as int].1) =~= old(self)@.insert(k@, b.entries@[i as int].1));
            }
        }
        &mut self.entries[i].1
    }

    /// The keys of the table.
    pub fn keys(&self) -> (ks: Vec<String>)
        requires
            self.wf(),
        ensures
            forall|i: int| 0 <= i < ks@.len() ==> self@.contains_key(#[trigger] ks@[i]@),
            forall|k: Seq<char>| #[trigger] self@.contains_key(k) ==> exists|i: int| 0 <= i < ks@.len() && ks@[i]@ == k,
            forall|i: int, j: int| 0 <= i < ks@.len() && 0 <= j < ks@.len() && i != j ==> #[trigger] ks@[i]@ != #[trigger] ks@[j]@,
    {
        let mut ks: Vec<String> = Vec::new();
        let n = self.entries.len();
        let mut i: usize = 0;
        while i < n
            invariant
                n == self.entries@.len(),
                i <= n,
                self.wf(),
                ks@.len() == i,
                forall|j: int| 0 <= j < i ==> #[trigger] ks@[j]@ == self.entries@[j].0@,
            decreases n - i,
        {
            ks.push(self.entries[i].0.clone());
            i = i + 1;
        }
        proof {
            assert forall|a: int, b: int| 0 <= a < ks@.len() && 0 <= b < ks@.len() && a != b implies #[trigger] ks@[a]@ != #[trigger] ks@[b]@ by {
                assert(self.entries@[a].0@ != self.entries@[b].0@);
            }
            assert forall|j: int| 0 <= j < ks@.len() implies self@.contains_key(#[trigger] ks@[j]@) by {
                self.lemma_at(j);
            }
            assert forall|k: Seq<char>| #[trigger] self@.contains_key(k) implies exists|j: int| 0 <= j < ks@.len() && ks@[j]@ == k by {
                let j = choose|j: int| self.holds_at(j, k);
                assert(self.holds_at(j, k));
                assert(ks@[j]@ == k);
            }
        }
        ks
    }
}

impl<V: Copy> Table<V> {
    /// A table with the same contents.
    pub fn copy(&self) -> (t: Table<V>)
        requires
            self.wf(),
        ensures
            t.wf(),
            t@ == self@,
    {
        let mut entries: Vec<(String, V)> = Vec::new();
        let n = self.entries.len();
        let mut i: usize = 0;
        while i < n
            invariant
                n == self.entries@.len(),
                i <= n,
                entries@.len() == i,
                forall|j: int| 0 <= j < i ==> (#[trigger] entries@[j]).0@ == self.entries@[j].0@ && entries@[j].1 == self.entries@[j].1,
            decreases n - i,
        {
            let v = self.entries[i].1;
            entries.push((self.entries[i].0.clone(), v));
            i = i + 1;
        }
        let t = Table { entries };
        proof {
            assert(t.wf()) by {
                assert forall|a: int, b: int|
                    0 <= a < t.entries@.len() && 0 <= b < t.entries@.len() && a != b
                    implies #[trigger] t.entries@[a].0@ != #[trigger] t.entries@[b].0@ by {
                    assert(self.entries@[a].0@ != self.entries@[b].0@);
                }
            }
            assert forall|k: Seq<char>| #[trigger] t@.contains_key(k) <==> self@.contains_key(k) by {
                if t@.contains_key(k) {
                    let j = choose|j: int| t.holds_at(j, k);
                    assert(t.holds_at(j, k));
                    assert(self.holds_at(j, k));
                }
                if self@.contains_key(k) {
                    let j = choose|j: int| self.holds_at(j, k);
                    assert(self.holds_at(j, k));
                    assert(t.holds_at(j, k));
                }
            }
            assert forall|k: Seq<char>| t@.contains_key(k) implies #[trigger] t@[k] == self@[k] by {
                let j = choose|j: int| t.holds_at(j, k);
                assert(t.holds_at(j, k));
                t.lemma_at(j);
                self.lemma_at(j);
            }
            assert(t@ =~= self@);
        }
        t
    }
}

} // verus!
