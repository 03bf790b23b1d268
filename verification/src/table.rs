use vstd::prelude::*;

verus! {

/// A map from names to values, kept as a list of entries whose names are
/// pairwise distinct.
pub struct Table<V> {
    entries: Vec<(String, V)>,
}

/// Some entry of `s` has the name `k`.
pub open spec fn has_name<V>(s: Seq<(String, V)>, k: Seq<char>) -> bool {
    exists|i: int| 0 <= i < s.len() && (#[trigger] s[i]).0@ == k
}

/// The position of an entry of `s` named `k`.
pub open spec fn index_of<V>(s: Seq<(String, V)>, k: Seq<char>) -> int {
    choose|i: int| 0 <= i < s.len() && (#[trigger] s[i]).0@ == k
}

/// The names of the entries of `s` are pairwise distinct.
pub open spec fn distinct_names<V>(s: Seq<(String, V)>) -> bool {
    forall|i: int, j: int| 0 <= i < s.len() && 0 <= j < s.len() && i != j ==> (#[trigger] s[i]).0@ != (#[trigger] s[j]).0@
}

/// The map that the entries of `s` stand for.
pub open spec fn entries_map<V: View>(s: Seq<(String, V)>) -> Map<Seq<char>, V::V> {
    Map::new(|k: Seq<char>| has_name(s, k), |k: Seq<char>| s[index_of(s, k)].1@)
}

proof fn lemma_index_of<V>(s: Seq<(String, V)>, i: int)
    requires
        distinct_names(s),
        0 <= i < s.len(),
    ensures
        has_name(s, s[i].0@),
        index_of(s, s[i].0@) == i,
{
    assert(has_name(s, s[i].0@));
    let j = index_of(s, s[i].0@);
    assert(0 <= j < s.len() && s[j].0@ == s[i].0@);
}

impl<V: View> Table<V> {
    pub closed spec fn wf(&self) -> bool {
        distinct_names(self.entries@)
    }

    pub closed spec fn view(&self) -> Map<Seq<char>, V::V> {
        entries_map(self.entries@)
    }

    pub fn new() -> (r: Self)
        ensures
            r.wf(),
            r.view() == Map::<Seq<char>, V::V>::empty(),
    {
        let r = Table { entries: Vec::new() };
        assert(r.view() =~= Map::<Seq<char>, V::V>::empty());
        r
    }

    /// The position of the entry named `key`, if there is one.
    fn find(&self, key: &String) -> (r: Option<usize>)
        requires
            self.wf(),
        ensures
            match r {
                Some(i) => i < self.entries@.len() && self.entries@[i as int].0@ == key@
                    && self.view().contains_key(key@)
                    && self.view()[key@] == self.entries@[i as int].1@,
                None => !self.view().contains_key(key@),
            },
    {
        let mut i: usize = 0;
        while i < self.entries.len()
            invariant
                i <= self.entries@.len(),
                self.wf(),
                forall|j: int| 0 <= j < i ==> (#[trigger] self.entries@[j]).0@ != key@,
            decreases self.entries@.len() - i,
        {
            if self.entries[i].0 == *key {
                proof { lemma_index_of(self.entries@, i as int); }
                return Some(i);
            }
            i = i + 1;
        }
        None
    }

    /// The value under `key`, if there is one.
    pub fn get(&self, key: &String) -> (r: Option<&V>)
        requires
            self.wf(),
        ensures
            match r {
                Some(v) => self.view().contains_key(key@) && self.view()[key@] == v@,
                None => !self.view().contains_key(key@),
            },
    {
        match self.find(key) {
            Some(i) => Some(&self.entries[i].1),
            None => None,
        }
    }

    /// Sets the value under `key`, replacing any earlier one.
    pub fn insert(&mut self, key: String, value: V)
        requires
            old(self).wf(),
        ensures
            final(self).wf(),
            final(self).view() == old(self).view().insert(key@, value@),
    {
        let ghost k = key@;
        let ghost vv = value@;
        match self.find(&key) {
            Some(i) => {
                let ghost old_entries = self.entries@;
                self.entries.set(i, (key, value));
                proof {
                    let s = self.entries@;
                    assert(s == old_entries.update(i as int, s[i as int]));
                    assert forall|a: int, b: int| 0 <= a < s.len() && 0 <= b < s.len() && a != b implies
                        (#[trigger] s[a]).0@ != (#[trigger] s[b]).0@ by {
                        if a != i && b != i {
                            assert(s[a] == old_entries[a] && s[b] == old_entries[b]);
                        } else if a == i {
                            assert(s[b] == old_entries[b]);
                        } else {
                            assert(s[a] == old_entries[a]);
                        }
                    }
                    assert forall|kk: Seq<char>| #![auto] has_name(s, kk) == (has_name(old_entries, kk) || kk == k) by {
                        if has_name(s, kk) {
                            let j = choose|j: int| 0 <= j < s.len() && (#[trigger] s[j]).0@ == kk;
                            if j != i { assert(old_entries[j] == s[j]); }
                        }
                        if has_name(old_entries, kk) {
                            let j = choose|j: int| 0 <= j < old_entries.len() && (#[trigger] old_entries[j]).0@ == kk;
                            if j != i { assert(old_entries[j] == s[j]); } else { assert(s[i as int].0@ == kk); }
                        }
                        if kk == k { assert(s[i as int].0@ == kk); }
                    }
                    assert forall|kk: Seq<char>| #![auto] has_name(s, kk) implies s[index_of(s, kk)].1@
                        == old_entries.update(i as int, (key, value))[index_of(s, kk)].1@ by {}
                    assert forall|kk: Seq<char>| #![auto] has_name(s, kk) && kk != k implies
                        index_of(s, kk) == index_of(old_entries, kk) by {
                        let j = index_of(s, kk);
                        lemma_index_of(s, j);
                        if j == i { assert(false); }
                        assert(old_entries[j] == s[j]);
                        lemma_index_of(old_entries, j);
                    }
                    lemma_index_of(s, i as int);
                    assert(entries_map(s) =~= entries_map(old_entries).insert(k, vv));
                }
            },
            None => {
                let ghost old_entries = self.entries@;
                self.entries.push((key, value));
                proof {
                    let s = self.entries@;
                    let n = old_entries.len() as int;
                    assert forall|a: int, b: int| 0 <= a < s.len() && 0 <= b < s.len() && a != b implies
                        (#[trigger] s[a]).0@ != (#[trigger] s[b]).0@ by {
                        if a < n && b < n {
                            assert(s[a] == old_entries[a] && s[b] == old_entries[b]);
                        } else if a == n {
                            assert(s[b] == old_entries[b]);
                            assert(has_name(old_entries, s[b].0@));
                        } else {
                            assert(s[a] == old_entries[a]);
                            assert(has_name(old_entries, s[a].0@));
                        }
                    }
                    assert forall|kk: Seq<char>| #![auto] has_name(s, kk) == (has_name(old_entries, kk) || kk == k) by {
                        if has_name(s, kk) {
                            let j = choose|j: int| 0 <= j < s.len() && (#[trigger] s[j]).0@ == kk;
                            if j != n { assert(old_entries[j] == s[j]); }
                        }
                        if has_name(old_entries, kk) {
                            let j = choose|j: int| 0 <= j < old_entries.len() && (#[trigger] old_entries[j]).0@ == kk;
                            assert(old_entries[j] == s[j]);
                        }
                        if kk == k { assert(s[n].0@ == kk); }
                    }
                    assert forall|kk: Seq<char>| #![auto] has_name(s, kk) && kk != k implies
                        index_of(s, kk) == index_of(old_entries, kk) by {
                        let j = index_of(s, kk);
                        lemma_index_of(s, j);
                        if j == n { assert(false); }
                        assert(old_entries[j] == s[j]);
                        lemma_index_of(old_entries, j);
                    }
                    lemma_index_of(s, n);
                    assert(entries_map(s) =~= entries_map(old_entries).insert(k, vv));
                }
            },
        }
    }

    /// Removes the entry under `key`, if there is one.
    pub fn remove(&mut self, key: &String)
        requires
            old(self).wf(),
        ensures
            final(self).wf(),
            final(self).view() == old(self).view().remove(key@),
    {
        match self.find(key) {
            Some(i) => {
                let ghost old_entries = self.entries@;
                let _ = self.entries.remove(i);
                proof {
                    let s = self.entries@;
                    let k = key@;
                    assert(s =~= old_entries.remove(i as int));
                    assert forall|a: int| 0 <= a < s.len() implies #[trigger] s[a] == old_entries[if a < i { a } else { a + 1 }] by {}
                    assert forall|a: int, b: int| 0 <= a < s.len() && 0 <= b < s.len() && a != b implies
                        (#[trigger] s[a]).0@ != (#[trigger] s[b]).0@ by {
                        assert(s[a] == old_entries[if a < i { a } else { a + 1 }]);
                        assert(s[b] == old_entries[if b < i { b } else { b + 1 }]);
                    }
                    assert forall|kk: Seq<char>| #![auto] has_name(s, kk) == (has_name(old_entries, kk) && kk != k) by {
                        if has_name(s, kk) {
                            let j = choose|j: int| 0 <= j < s.len() && (#[trigger] s[j]).0@ == kk;
                            let oj = if j < i { j } else { j + 1 };
                            assert(old_entries[oj] == s[j]);
                            assert(old_entries[i as int].0@ == k);
                        }
                        if has_name(old_entries, kk) && kk != k {
                            let j = choose|j: int| 0 <= j < old_entries.len() && (#[trigger] old_entries[j]).0@ == kk;
                            assert(j != i);
                            let nj = if j < i { j } else { j - 1 };
                            assert(s[nj] == old_entries[j]);
                        }
                    }
                    assert forall|kk: Seq<char>| #![auto] has_name(s, kk) implies
                        s[index_of(s, kk)].1@ == old_entries[index_of(old_entries, kk)].1@ by {
                        let j = index_of(s, kk);
                        lemma_index_of(s, j);
                        let oj = if j < i { j } else { j + 1 };
                        assert(old_entries[oj] == s[j]);
                        lemma_index_of(old_entries, oj);
                    }
                    assert(entries_map(s) =~= entries_map(old_entries).remove(k));
                }
            },
            None => {
                assert(self.view() =~= old(self).view().remove(key@));
            },
        }
    }

    /// Swaps the value under `key`, which must be present, with `value`.
    pub fn swap_value(&mut self, key: &String, value: &mut V)
        requires
            old(self).wf(),
            old(self).view().contains_key(key@),
        ensures
            final(self).wf(),
            final(self).view() == old(self).view().insert(key@, old(value)@),
            final(value)@ == old(self).view()[key@],
    {
        let i = match self.find(key) {
            Some(i) => i,
            None => { return; },
        };
        let ghost old_entries = self.entries@;
        let mut entry = self.entries.remove(i);
        std::mem::swap(&mut entry.1, value);
        self.entries.insert(i, entry);
        proof {
            let s = self.entries@;
            assert(s =~= old_entries.update(i as int, s[i as int]));
            assert(s[i as int].0 == old_entries[i as int].0);
            assert forall|a: int, b: int| 0 <= a < s.len() && 0 <= b < s.len() && a != b implies
                (#[trigger] s[a]).0@ != (#[trigger] s[b]).0@ by {
                assert(s[a].0 == old_entries[a].0 && s[b].0 == old_entries[b].0);
            }
            assert forall|kk: Seq<char>| #![auto] has_name(s, kk) == has_name(old_entries, kk) by {
                if has_name(s, kk) {
                    let j = choose|j: int| 0 <= j < s.len() && (#[trigger] s[j]).0@ == kk;
                    assert(old_entries[j].0 == s[j].0);
                }
                if has_name(old_entries, kk) {
                    let j = choose|j: int| 0 <= j < old_entries.len() && (#[trigger] old_entries[j]).0@ == kk;
                    assert(old_entries[j].0 == s[j].0);
                }
            }
            assert forall|kk: Seq<char>| #![auto] has_name(s, kk) && kk != key@ implies
                index_of(s, kk) == index_of(old_entries, kk) by {
                let j = index_of(s, kk);
                lemma_index_of(s, j);
                assert(old_entries[j].0 == s[j].0);
                lemma_index_of(old_entries, j);
            }
            lemma_index_of(s, i as int);
            lemma_index_of(old_entries, i as int);
            assert(entries_map(s) =~= entries_map(old_entries).insert(key@, old(value)@));
        }
    }
}

} // verus!
