//! A map from names to values that keeps each name once, in increasing order of
//! name.
use vstd::prelude::*;
use crate::text::{text_lt, lemma_text_order};

verus! {

/// The names of an association list are pairwise distinct.
pub open spec fn keys_distinct<A>(s: Seq<(Seq<char>, A)>) -> bool {
    forall|i: int, j: int| 0 <= i < j < s.len() ==> #[trigger] s[i].0 != #[trigger] s[j].0
}

/// `k` is one of the names of `s`.
pub open spec fn has_key<A>(s: Seq<(Seq<char>, A)>, k: Seq<char>) -> bool {
    exists|i: int| 0 <= i < s.len() && #[trigger] s[i].0 == k
}

/// The position of name `k` in `s` (meaningful when `has_key(s, k)`).
pub open spec fn key_index<A>(s: Seq<(Seq<char>, A)>, k: Seq<char>) -> int {
    choose|i: int| 0 <= i < s.len() && #[trigger] s[i].0 == k
}

/// The value stored under `k`, if any.
pub open spec fn lookup<A>(s: Seq<(Seq<char>, A)>, k: Seq<char>) -> Option<A> {
    if has_key(s, k) {
        Some(s[key_index(s, k)].1)
    } else {
        None
    }
}

/// In a list with distinct names, the entry at `i` is what `lookup` finds for its name.
pub proof fn lemma_lookup_at<A>(s: Seq<(Seq<char>, A)>, i: int)
    requires
        keys_distinct(s),
        0 <= i < s.len(),
    ensures
        has_key(s, s[i].0),
        key_index(s, s[i].0) == i,
        lookup(s, s[i].0) == Some(s[i].1),
{
    assert(has_key(s, s[i].0));
    let j = key_index(s, s[i].0);
    if j != i {
        if j < i {
            assert(s[j].0 != s[i].0);
        } else {
            assert(s[i].0 != s[j].0);
        }
    }
}

/// The names increase strictly, in the byte order of strings.
pub open spec fn names_sorted<A>(s: Seq<(Seq<char>, A)>) -> bool {
    forall|i: int, j: int| 0 <= i < j < s.len() ==> text_lt(#[trigger] s[i].0, #[trigger] s[j].0)
}

/// `s` with `e` put in its place by name: after every entry whose name comes before
/// `e`'s.
pub open spec fn insert_by_name<A>(s: Seq<(Seq<char>, A)>, e: (Seq<char>, A)) -> Seq<(Seq<char>, A)>
    decreases s.len(),
{
    if s.len() == 0 {
        seq![e]
    } else if text_lt(s.last().0, e.0) {
        s.push(e)
    } else {
        insert_by_name(s.drop_last(), e).push(s.last())
    }
}

/// Names in increasing order are distinct.
pub proof fn lemma_sorted_distinct<A>(s: Seq<(Seq<char>, A)>)
    requires
        names_sorted(s),
    ensures
        keys_distinct(s),
{
    assert forall|i: int, j: int| 0 <= i < j < s.len() implies #[trigger] s[i].0 != #[trigger] s[j].0 by {
        lemma_text_order(s[i].0, s[j].0, s[j].0);
    }
}

/// Where `insert_by_name` puts `e`: at `j`, when the names before `j` come before `e`'s
/// and the others do not.
pub proof fn lemma_insert_by_name_at<A>(s: Seq<(Seq<char>, A)>, e: (Seq<char>, A), j: int)
    requires
        0 <= j <= s.len(),
        j == 0 || text_lt(s[j - 1].0, e.0),
        forall|k: int| j <= k < s.len() ==> !text_lt(#[trigger] s[k].0, e.0),
    ensures
        insert_by_name(s, e) == s.insert(j, e),
    decreases s.len(),
{
    if s.len() == 0 {
        assert(s.insert(j, e) =~= seq![e]);
    } else if j == s.len() {
        assert(s.insert(j, e) =~= s.push(e));
    } else {
        assert(!text_lt(s.last().0, e.0));
        let t = s.drop_last();
        assert forall|k: int| j <= k < t.len() implies !text_lt(#[trigger] t[k].0, e.0) by {
            assert(t[k] == s[k]);
        }
        if j > 0 {
            assert(t[j - 1] == s[j - 1]);
        }
        lemma_insert_by_name_at(t, e, j);
        assert(t.insert(j, e).push(s.last()) =~= s.insert(j, e));
    }
}

/// An entry whose name comes after all others goes last.
pub proof fn lemma_insert_by_name_last<A>(s: Seq<(Seq<char>, A)>, e: (Seq<char>, A))
    requires
        forall|k: int| 0 <= k < s.len() ==> text_lt(#[trigger] s[k].0, e.0),
    ensures
        insert_by_name(s, e) == s.push(e),
{
    if s.len() > 0 {
        assert(text_lt(s[s.len() - 1].0, e.0));
    }
}

/// Putting a new name in its place keeps the names in increasing order.
pub proof fn lemma_insert_by_name_sorted<A>(s: Seq<(Seq<char>, A)>, e: (Seq<char>, A), j: int)
    requires
        names_sorted(s),
        0 <= j <= s.len(),
        forall|k: int| 0 <= k < j ==> text_lt(#[trigger] s[k].0, e.0),
        forall|k: int| j <= k < s.len() ==> text_lt(e.0, #[trigger] s[k].0),
    ensures
        names_sorted(s.insert(j, e)),
{
    let n = s.insert(j, e);
    assert forall|a: int, b: int| 0 <= a < b < n.len() implies text_lt(#[trigger] n[a].0, #[trigger] n[b].0) by {
        if a < j && b < j {
            assert(text_lt(s[a].0, s[b].0));
        } else if a < j && b == j {
            assert(text_lt(s[a].0, e.0));
        } else if a < j {
            assert(text_lt(s[a].0, s[b - 1].0));
        } else if a == j {
            assert(text_lt(e.0, s[b - 1].0));
        } else {
            assert(text_lt(s[a - 1].0, s[b - 1].0));
        }
    }
}

/// A map from names to values, each name at most once, kept in increasing order of name.
#[derive(Debug, PartialEq)]
pub struct FieldMap<V: View> {
    entries: Vec<(String, V)>,
}

impl<V: View> View for FieldMap<V> {
    type V = Seq<(Seq<char>, V::V)>;

    open spec fn view(&self) -> Seq<(Seq<char>, V::V)> {
        self.items().map_values(|e: (String, V)| (e.0@, e.1@))
    }
}

impl<V: View> FieldMap<V> {
    /// The entries themselves, in order.
    pub closed spec fn items(&self) -> Seq<(String, V)> {
        self.entries@
    }

    /// Each name occurs once, and the names increase.
    #[verifier::type_invariant]
    pub open spec fn wf(&self) -> bool {
        keys_distinct(self@) && names_sorted(self@)
    }

    /// An empty map.
    pub fn new() -> (m: Self)
        ensures
            m.wf(),
            m@ == Seq::<(Seq<char>, V::V)>::empty(),
            m.items() == Seq::<(String, V)>::empty(),
    {
        let m = FieldMap { entries: Vec::new() };
        assert(m@ =~= Seq::<(Seq<char>, V::V)>::empty());
        m
    }

    /// The number of entries.
    pub fn len(&self) -> (n: usize)
        ensures
            n == self@.len(),
            n == self.items().len(),
    {
        self.entries.len()
    }

    /// The entries, in order.
    pub fn entries(&self) -> (e: &Vec<(String, V)>)
        ensures
            e@ == self.items(),
    {
        &self.entries
    }

    /// The position of `key`, if it is present.
    pub fn find(&self, key: &str) -> (r: Option<usize>)
        ensures
            match r {
                Some(i) => i < self@.len() && self@[i as int].0 == key@ && key_index(self@, key@)
                    == i && has_key(self@, key@),
                None => !has_key(self@, key@),
            },
    {
        proof {
            use_type_invariant(self);
        }
        let mut i: usize = 0;
        while i < self.entries.len()
            invariant
                self.wf(),
                i <= self.entries@.len(),
                forall|j: int| 0 <= j < i ==> self@[j].0 != key@,
            decreases self.entries@.len() - i,
        {
            if crate::text::str_eq(self.entries[i].0.as_str(), key) {
                proof {
                    lemma_lookup_at(self@, i as int);
                }
                return Some(i);
            }
            i = i + 1;
        }
        None
    }

    /// Whether `key` is present.
    pub fn contains_key(&self, key: &str) -> (b: bool)
        ensures
            b == has_key(self@, key@),
    {
        self.find(key).is_some()
    }

    /// The value stored under `key`.
    pub fn get(&self, key: &str) -> (r: Option<&V>)
        ensures
            match r {
                Some(v) => lookup(self@, key@) == Some(v@) && has_key(self@, key@)
                    && *v == self.items()[key_index(self@, key@)].1,
                None => !has_key(self@, key@) && lookup(self@, key@) == None::<V::V>,
            },
    {
        match self.find(key) {
            Some(i) => Some(&self.entries[i].1),
            None => None,
        }
    }

    /// Stores `val` under `key`; gives back the value that was there before, if any.
    pub fn insert(&mut self, key: String, val: V) -> (r: Option<V>)
        ensures
            final(self).wf(),
            match r {
                Some(prev) => has_key(old(self)@, key@) && lookup(old(self)@, key@) == Some(prev@)
                    && final(self)@ == old(self)@.update(key_index(old(self)@, key@), (key@, val@))
                    && final(self).items() == old(self).items().update(key_index(old(self)@, key@), (key, val)),
                None => !has_key(old(self)@, key@) && final(self)@ == insert_by_name(old(self)@, (key@, val@)),
            },
    {
        proof {
            use_type_invariant(&*self);
        }
        match self.find(key.as_str()) {
            Some(i) => {
                let mut entries: Vec<(String, V)> = Vec::new();
                std::mem::swap(&mut entries, &mut self.entries);
                let (_k, prev) = entries.remove(i);
                entries.insert(i, (key, val));
                proof {
                    let ghost s = old(self)@;
                    let ghost n = entries@.map_values(|e: (String, V)| (e.0@, e.1@));
                    assert(entries@ =~= old(self).entries@.update(i as int, (key, val)));
                    assert(n =~= old(self)@.update(i as int, (key@, val@)));
                    lemma_lookup_at(s, i as int);
                    assert forall|a: int, b: int| 0 <= a < b < n.len() implies #[trigger] n[a].0
                        != #[trigger] n[b].0 by {
                        assert(s[a].0 != s[b].0);
                    }
                }
                self.entries = entries;
                proof {
                    let ghost s = old(self)@;
                    assert(self.entries@ =~= old(self).entries@.update(i as int, (key, val)));
                    assert(self@ =~= old(self)@.update(i as int, (key@, val@)));
                    lemma_lookup_at(s, i as int);
                    assert forall|a: int, b: int| 0 <= a < b < self@.len() implies #[trigger] self@[a].0
                        != #[trigger] self@[b].0 by {
                        if a != i && b != i {
                            assert(s[a].0 != s[b].0);
                        } else if a == i {
                            assert(s[a].0 != s[b].0);
                        } else {
                            assert(s[a].0 != s[b].0);
                        }
                    }
                }
                Some(prev)
            },
            None => {
                let mut entries: Vec<(String, V)> = Vec::new();
                std::mem::swap(&mut entries, &mut self.entries);
                let ghost s = old(self)@;
                let ghost e = (key@, val@);
                let mut j = entries.len();
                while j > 0 && crate::text::str_lt(key.as_str(), entries[j - 1].0.as_str())
                    invariant
                        j <= entries@.len(),
                        entries@ == old(self).entries@,
                        s == old(self)@,
                        s == entries@.map_values(|e: (String, V)| (e.0@, e.1@)),
                        forall|k: int| j <= k < s.len() ==> text_lt(key@, #[trigger] s[k].0),
                    decreases j,
                {
                    assert(s[j - 1].0 == entries@[j - 1].0@);
                    j = j - 1;
                }
                proof {
                    if j > 0 {
                        assert(s[j - 1].0 == entries@[j - 1].0@);
                        assert(s[j - 1].0 != key@);
                        lemma_text_order(s[j - 1].0, key@, key@);
                        assert(text_lt(s[j - 1].0, key@));
                    }
                    assert forall|k: int| 0 <= k < j implies text_lt(#[trigger] s[k].0, key@) by {
                        if k < j - 1 {
                            assert(text_lt(s[k].0, s[j - 1].0));
                            lemma_text_order(s[k].0, s[j - 1].0, key@);
                        }
                    }
                    assert forall|k: int| j <= k < s.len() implies !text_lt(#[trigger] s[k].0, key@) by {
                        lemma_text_order(s[k].0, key@, key@);
                    }
                    lemma_insert_by_name_at(s, e, j as int);
                    lemma_insert_by_name_sorted(s, e, j as int);
                    lemma_sorted_distinct(s.insert(j as int, e));
                }
                entries.insert(j, (key, val));
                proof {
                    assert(entries@.map_values(|e: (String, V)| (e.0@, e.1@)) =~= s.insert(j as int, e));
                }
                self.entries = entries;
                proof {
                    assert(self@ =~= s.insert(j as int, e));
                }
                None
            },
        }
    }
}

} // verus!

verus! {

impl FieldMap<crate::model::table::Value> {
    /// An exact copy.
    pub fn copy(&self) -> (r: Self)
        ensures
            r@ == self@,
    {
        proof {
            use_type_invariant(self);
        }
        let mut entries: Vec<(String, crate::model::table::Value)> = Vec::new();
        let mut i: usize = 0;
        while i < self.entries.len()
            invariant
                i <= self.entries@.len(),
                entries@.len() == i,
                entries@.map_values(|e: (String, crate::model::table::Value)| (e.0@, e.1@))
                    == self@.take(i as int),
            decreases self.entries@.len() - i,
        {
            let name = self.entries[i].0.clone();
            let v = self.entries[i].1.copy();
            let ghost prev = entries@;
            entries.push((name, v));
            i = i + 1;
            proof {
                let ghost m = entries@.map_values(|e: (String, crate::model::table::Value)| (e.0@, e.1@));
                assert(entries@ == prev.push((name, v)));
                assert(m.len() == i);
                assert forall|k: int| 0 <= k < i implies m[k] == self@.take(i as int)[k] by {
                    if k < i - 1 {
                        assert(m[k] == (prev[k].0@, prev[k].1@));
                        assert(prev.map_values(|e: (String, crate::model::table::Value)| (e.0@, e.1@))[k] == (prev[k].0@, prev[k].1@));
                    } else {
                        assert(self@[k] == (self.entries@[k].0@, self.entries@[k].1@));
                    }
                }
                assert(m =~= self@.take(i as int));
            }
        }
        assert(self@.take(i as int) =~= self@);
        FieldMap { entries }
    }
}

impl FieldMap<crate::model::table::ValueType> {
    /// An exact copy.
    pub fn copy(&self) -> (r: Self)
        ensures
            r@ == self@,
    {
        proof {
            use_type_invariant(self);
        }
        let mut entries: Vec<(String, crate::model::table::ValueType)> = Vec::new();
        let mut i: usize = 0;
        while i < self.entries.len()
            invariant
                i <= self.entries@.len(),
                entries@.len() == i,
                entries@.map_values(|e: (String, crate::model::table::ValueType)| (e.0@, e.1@))
                    == self@.take(i as int),
            decreases self.entries@.len() - i,
        {
            let name = self.entries[i].0.clone();
            let v = self.entries[i].1;
            let ghost prev = entries@;
            entries.push((name, v));
            i = i + 1;
            proof {
                let ghost m = entries@.map_values(|e: (String, crate::model::table::ValueType)| (e.0@, e.1@));
                assert(entries@ == prev.push((name, v)));
                assert(m.len() == i);
                assert forall|k: int| 0 <= k < i implies m[k] == self@.take(i as int)[k] by {
                    if k < i - 1 {
                        assert(m[k] == (prev[k].0@, prev[k].1@));
                        assert(prev.map_values(|e: (String, crate::model::table::ValueType)| (e.0@, e.1@))[k] == (prev[k].0@, prev[k].1@));
                    } else {
                        assert(self@[k] == (self.entries@[k].0@, self.entries@[k].1@));
                    }
                }
                assert(m =~= self@.take(i as int));
            }
        }
        assert(self@.take(i as int) =~= self@);
        FieldMap { entries }
    }
}

} // verus!
