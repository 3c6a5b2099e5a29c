//! A small map keyed by strings, kept as a vector of entries in insertion
//! order with no key twice. Translations (locale to text) and the catalog
//! (translation key to translations) are both tables.

use vstd::prelude::*;

verus! {

/// Entries keyed by strings; no key occurs twice.
#[derive(Debug)]
pub struct Table<V> {
    entries: Vec<(String, V)>,
}

/// A locale's name mapped to the translated text.
pub type Translations = Table<String>;

/// A translation key (`"<file>:<key>"`) mapped to its translations.
pub type Catalog = Table<Translations>;

/// No two entries share a key.
pub open spec fn keys_distinct<V>(e: Seq<(String, V)>) -> bool {
    forall|i: int, j: int| 0 <= i < j < e.len() ==> (#[trigger] e[i]).0@ != (#[trigger] e[j]).0@
}

/// The map that a sequence of entries denotes; a later entry wins.
pub open spec fn entries_map<V: View>(e: Seq<(String, V)>) -> Map<Seq<char>, V::V>
    decreases e.len(),
{
    if e.len() == 0 {
        Map::empty()
    } else {
        entries_map(e.drop_last()).insert(e.last().0@, e.last().1@)
    }
}

/// The keys of a sequence of entries, in order.
pub open spec fn entry_keys<V>(e: Seq<(String, V)>) -> Seq<Seq<char>> {
    e.map_values(|p: (String, V)| p.0@)
}

/// The keys of the map are those of the entries.
pub proof fn lemma_entries_map_dom<V: View>(e: Seq<(String, V)>, k: Seq<char>)
    ensures
        entries_map(e).dom().contains(k) <==> exists|i: int| 0 <= i < e.len() && (#[trigger] e[i]).0@ == k,
    decreases e.len(),
{
    if e.len() > 0 {
        lemma_entries_map_dom(e.drop_last(), k);
        if entries_map(e).dom().contains(k) && k != e.last().0@ {
            let i = choose|i: int| 0 <= i < e.drop_last().len() && (#[trigger] e.drop_last()[i]).0@ == k;
            assert(e[i] == e.drop_last()[i]);
        }
        if exists|i: int| 0 <= i < e.len() && (#[trigger] e[i]).0@ == k {
            let i = choose|i: int| 0 <= i < e.len() && (#[trigger] e[i]).0@ == k;
            if i < e.len() - 1 {
                assert(e.drop_last()[i] == e[i]);
            }
        }
    }
}

/// With distinct keys, the map sends each entry's key to its value.
pub proof fn lemma_entries_map_index<V: View>(e: Seq<(String, V)>, i: int)
    requires
        keys_distinct(e),
        0 <= i < e.len(),
    ensures
        entries_map(e).dom().contains(e[i].0@),
        entries_map(e)[e[i].0@] == e[i].1@,
    decreases e.len(),
{
    if i < e.len() - 1 {
        assert(keys_distinct(e.drop_last()));
        assert(e.drop_last()[i] == e[i]);
        lemma_entries_map_index(e.drop_last(), i);
        assert(e[i].0@ != e.last().0@);
    }
}

/// Replacing the value of entry `i` updates the map at its key.
pub proof fn lemma_entries_map_update<V: View>(e: Seq<(String, V)>, i: int, x: (String, V))
    requires
        keys_distinct(e),
        0 <= i < e.len(),
        x.0@ == e[i].0@,
    ensures
        keys_distinct(e.update(i, x)),
        entries_map(e.update(i, x)) == entries_map(e).insert(x.0@, x.1@),
    decreases e.len(),
{
    let u = e.update(i, x);
    assert forall|a: int, b: int| 0 <= a < b < u.len() implies (#[trigger] u[a]).0@ != (#[trigger] u[b]).0@ by {
        assert(e[a].0@ != e[b].0@);
    }
    if i == e.len() - 1 {
        assert(u.drop_last() =~= e.drop_last());
        assert(entries_map(u) =~= entries_map(e).insert(x.0@, x.1@));
    } else {
        assert(u.drop_last() =~= e.drop_last().update(i, x));
        assert(keys_distinct(e.drop_last()));
        lemma_entries_map_update(e.drop_last(), i, x);
        assert(e.last().0@ != x.0@);
        assert(entries_map(u) =~= entries_map(e).insert(x.0@, x.1@));
    }
}

impl<V: View> View for Table<V> {
    type V = Map<Seq<char>, V::V>;

    closed spec fn view(&self) -> Map<Seq<char>, V::V> {
        entries_map(self.entries@)
    }
}

impl<V: View> Table<V> {
    /// Well-formed: no key occurs twice.
    pub closed spec fn wf(&self) -> bool {
        keys_distinct(self.entries@)
    }

    /// The keys in the order they were first inserted.
    pub closed spec fn key_order(&self) -> Seq<Seq<char>> {
        entry_keys(self.entries@)
    }

    /// The value of the `i`-th entry.
    pub closed spec fn value_at_spec(&self, i: int) -> V {
        self.entries@[i].1
    }

    /// The keys in order are those of the map, each once.
    pub proof fn lemma_key_order(&self)
        requires
            self.wf(),
        ensures
            self.key_order().len() == self@.dom().len(),
            self.key_order().no_duplicates(),
            forall|k: Seq<char>| self@.dom().contains(k) <==> self.key_order().contains(k),
            forall|i: int| 0 <= i < self.key_order().len() ==> self@[#[trigger] self.key_order()[i]] == self.value_at_spec(i)@,
    {
        let e = self.entries@;
        let ks = self.key_order();
        assert forall|k: Seq<char>| self@.dom().contains(k) <==> ks.contains(k) by {
            lemma_entries_map_dom(e, k);
            if ks.contains(k) {
                let i = choose|i: int| 0 <= i < ks.len() && ks[i] == k;
                assert(e[i].0@ == k);
            }
            if self@.dom().contains(k) {
                let i = choose|i: int| 0 <= i < e.len() && (#[trigger] e[i]).0@ == k;
                assert(ks[i] == k);
            }
        }
        assert forall|i: int| 0 <= i < ks.len() implies self@[#[trigger] ks[i]] == self.value_at_spec(i)@ by {
            lemma_entries_map_index(e, i);
        }
        assert(ks.no_duplicates());
        ks.unique_seq_to_set();
        assert(ks.to_set() =~= self@.dom());
    }

    /// An empty table.
    pub fn new() -> (res: Self)
        ensures
            res.wf(),
            res@ == Map::<Seq<char>, V::V>::empty(),
            res.key_order() == Seq::<Seq<char>>::empty(),
    {
        let res = Table { entries: Vec::new() };
        assert(res.key_order() =~= Seq::<Seq<char>>::empty());
        res
    }

    /// The number of entries.
    pub fn len(&self) -> (res: usize)
        ensures
            res == self.key_order().len(),
    {
        self.entries.len()
    }

    /// The key of the `i`-th entry.
    pub fn key_at(&self, i: usize) -> (res: &String)
        requires
            i < self.key_order().len(),
        ensures
            res@ == self.key_order()[i as int],
    {
        &self.entries[i].0
    }

    /// The value of the `i`-th entry.
    pub fn value_at(&self, i: usize) -> (res: &V)
        requires
            i < self.key_order().len(),
        ensures
            *res == self.value_at_spec(i as int),
    {
        &self.entries[i].1
    }

    /// The position of `key` among the entries.
    fn find(&self, key: &String) -> (res: Option<usize>)
        requires
            self.wf(),
        ensures
            match res {
                Some(i) => i < self.entries@.len() && self.entries@[i as int].0@ == key@,
                None => !self@.dom().contains(key@),
            },
    {
        let mut i: usize = 0;
        while i < self.entries.len()
            invariant
                i <= self.entries@.len(),
                forall|j: int| 0 <= j < i ==> (#[trigger] self.entries@[j]).0@ != key@,
            decreases self.entries.len() - i,
        {
            if self.entries[i].0 == *key {
                return Some(i);
            }
            i = i + 1;
        }
        proof {
            lemma_entries_map_dom(self.entries@, key@);
        }
        None
    }

    /// The value stored under `key`.
    pub fn get(&self, key: &str) -> (res: Option<&V>)
        requires
            self.wf(),
        ensures
            match res {
                Some(v) => self@.dom().contains(key@) && v@ == self@[key@],
                None => !self@.dom().contains(key@),
            },
    {
        let k = key.to_owned();
        match self.find(&k) {
            Some(i) => {
                proof {
                    lemma_entries_map_index(self.entries@, i as int);
                }
                Some(&self.entries[i].1)
            },
            None => None,
        }
    }

    /// Stores `value` under `key`, replacing what was there; a new key goes
    /// after the keys already present.
    pub fn insert(&mut self, key: String, value: V)
        requires
            old(self).wf(),
        ensures
            final(self).wf(),
            final(self)@ == old(self)@.insert(key@, value@),
            old(self)@.dom().contains(key@) ==> final(self).key_order() == old(self).key_order(),
            !old(self)@.dom().contains(key@) ==> final(self).key_order() == old(self).key_order().push(key@),
    {
        match self.find(&key) {
            Some(i) => {
                proof {
                    lemma_entries_map_update(self.entries@, i as int, (key, value));
                    lemma_entries_map_dom(self.entries@, key@);
                }
                let ghost old_e = self.entries@;
                self.entries.set(i, (key, value));
                proof {
                    assert(entry_keys(self.entries@) =~= entry_keys(old_e));
                }
            },
            None => {
                let ghost old_e = self.entries@;
                proof {
                    lemma_entries_map_dom(old_e, key@);
                }
                self.entries.push((key, value));
                proof {
                    assert(self.entries@.drop_last() =~= old_e);
                    assert forall|a: int, b: int| 0 <= a < b < self.entries@.len() implies (#[trigger] self.entries@[a]).0@ != (#[trigger] self.entries@[b]).0@ by {
                        if b == self.entries@.len() - 1 {
                            assert(self.entries@[a] == old_e[a]);
                        } else {
                            assert(old_e[a].0@ != old_e[b].0@);
                        }
                    }
                    assert(entry_keys(self.entries@) =~= entry_keys(old_e).push(key@));
                }
            },
        }
    }
}

impl Table<Table<String>> {
    /// The table and every table in it are well-formed.
    pub closed spec fn deep_wf(&self) -> bool {
        &&& keys_distinct(self.entries@)
        &&& forall|i: int| 0 <= i < self.entries@.len() ==> (#[trigger] self.entries@[i]).1.wf()
    }

    /// An empty catalog.
    pub fn new_catalog() -> (res: Self)
        ensures
            res.deep_wf(),
            res@ == Map::<Seq<char>, Map<Seq<char>, Seq<char>>>::empty(),
    {
        Table { entries: Vec::new() }
    }

    /// The translations stored under `key` (meaningful when the key is
    /// present).
    pub closed spec fn translations_spec(&self, key: Seq<char>) -> Table<String> {
        let i = choose|i: int| 0 <= i < self.entries@.len() && (#[trigger] self.entries@[i]).0@ == key;
        self.entries@[i].1
    }

    /// The translations stored under a present key are those the map gives.
    pub proof fn lemma_translations_spec(&self, key: Seq<char>)
        requires
            self.deep_wf(),
            self@.dom().contains(key),
        ensures
            self.translations_spec(key).wf(),
            self.translations_spec(key)@ == self@[key],
    {
        lemma_entries_map_dom(self.entries@, key);
        let i = choose|i: int| 0 <= i < self.entries@.len() && (#[trigger] self.entries@[i]).0@ == key;
        lemma_entries_map_index(self.entries@, i);
    }

    /// The translations of `key`, well-formed.
    pub fn translations_of(&self, key: &String) -> (res: Option<&Table<String>>)
        requires
            self.deep_wf(),
        ensures
            match res {
                Some(t) => self@.dom().contains(key@) && t.wf() && t@ == self@[key@]
                    && *t == self.translations_spec(key@),
                None => !self@.dom().contains(key@),
            },
    {
        match self.find(key) {
            Some(i) => {
                proof {
                    lemma_entries_map_index(self.entries@, i as int);
                    let j = choose|j: int| 0 <= j < self.entries@.len() && (#[trigger] self.entries@[j]).0@ == key@;
                    if j != i {
                        if j < i {
                            assert(self.entries@[j].0@ != self.entries@[i as int].0@);
                        } else {
                            assert(self.entries@[i as int].0@ != self.entries@[j].0@);
                        }
                    }
                }
                Some(&self.entries[i].1)
            },
            None => None,
        }
    }

    /// A well-formed catalog is well-formed as a table.
    pub proof fn lemma_deep_wf(&self)
        requires
            self.deep_wf(),
        ensures
            self.wf(),
            forall|i: int| 0 <= i < self.key_order().len() ==> (#[trigger] self.value_at_spec(i)).wf(),
    {
    }

    /// Records `value` as the translation of `key` into `locale`, creating
    /// the key's translations when it has none yet.
    pub fn add_translation(&mut self, key: String, locale: String, value: String)
        requires
            old(self).deep_wf(),
        ensures
            final(self).deep_wf(),
            final(self)@ == old(self)@.insert(
                key@,
                (if old(self)@.dom().contains(key@) { old(self)@[key@] } else { Map::empty() }).insert(locale@, value@),
            ),
    {
        match self.find(&key) {
            Some(i) => {
                let ghost old_e = self.entries@;
                proof {
                    lemma_entries_map_index(old_e, i as int);
                }
                let mut inner = Table::new();
                proof {
                    assert(old_e[i as int].1.wf());
                }
                std::mem::swap(&mut inner, &mut self.entries[i].1);
                proof {
                    assert(inner == old_e[i as int].1);
                }
                inner.insert(locale, value);
                let k = self.entries[i].0.clone();
                proof {
                    lemma_entries_map_update(old_e, i as int, (k, inner));
                }
                self.entries.set(i, (k, inner));
                proof {
                    assert(self.entries@ == old_e.update(i as int, self.entries@[i as int]));
                    assert forall|j: int| 0 <= j < self.entries@.len() implies (#[trigger] self.entries@[j]).1.wf() by {
                        if j != i {
                            assert(self.entries@[j] == old_e[j]);
                        }
                    }
                }
            },
            None => {
                let mut inner = Table::new();
                inner.insert(locale, value);
                let ghost old_e = self.entries@;
                proof {
                    lemma_entries_map_dom(old_e, key@);
                }
                self.entries.push((key, inner));
                proof {
                    assert(self.entries@.drop_last() =~= old_e);
                    assert forall|a: int, b: int| 0 <= a < b < self.entries@.len() implies (#[trigger] self.entries@[a]).0@ != (#[trigger] self.entries@[b]).0@ by {
                        if b == self.entries@.len() - 1 {
                            assert(self.entries@[a] == old_e[a]);
                        } else {
                            assert(old_e[a].0@ != old_e[b].0@);
                        }
                    }
                    assert forall|j: int| 0 <= j < self.entries@.len() implies (#[trigger] self.entries@[j]).1.wf() by {
                        if j < self.entries@.len() - 1 {
                            assert(self.entries@[j] == old_e[j]);
                        }
                    }
                }
            },
        }
    }
}

} // verus!
