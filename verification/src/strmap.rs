use vstd::prelude::*;

verus! {

/// No key occurs twice in `s`.
pub open spec fn distinct_keys<V>(s: Seq<(Seq<char>, V)>) -> bool {
    forall|i: int, j: int|
        0 <= i < s.len() && 0 <= j < s.len() && i != j ==> #[trigger] s[i].0 != #[trigger] s[j].0
}

/// Some entry of `s` has the key `k`.
pub open spec fn has_key<V>(s: Seq<(Seq<char>, V)>, k: Seq<char>) -> bool {
    exists|i: int| 0 <= i < s.len() && #[trigger] s[i].0 == k
}

/// The map that a list of entries with distinct keys stands for.
pub open spec fn entries_map<V>(s: Seq<(Seq<char>, V)>) -> Map<Seq<char>, V> {
    Map::new(
        |k: Seq<char>| has_key(s, k),
        |k: Seq<char>| s[choose|i: int| 0 <= i < s.len() && #[trigger] s[i].0 == k].1,
    )
}

/// In a list with distinct keys, the entry at `i` is what the map holds under its key.
pub proof fn lemma_entries_map_at<V>(s: Seq<(Seq<char>, V)>, i: int)
    requires
        distinct_keys(s),
        0 <= i < s.len(),
    ensures
        entries_map(s).contains_key(s[i].0),
        entries_map(s)[s[i].0] == s[i].1,
{
    let k = s[i].0;
    assert(has_key(s, k));
    let j = choose|j: int| 0 <= j < s.len() && #[trigger] s[j].0 == k;
    assert(s[j].0 == s[i].0);
    assert(j == i);
}

/// Pushing an entry with a fresh key inserts it into the map.
pub proof fn lemma_entries_map_push<V>(s: Seq<(Seq<char>, V)>, k: Seq<char>, v: V)
    requires
        distinct_keys(s),
        !has_key(s, k),
    ensures
        distinct_keys(s.push((k, v))),
        entries_map(s.push((k, v))) == entries_map(s).insert(k, v),
{
    let t = s.push((k, v));
    assert(distinct_keys(t)) by {
        assert forall|i: int, j: int|
            0 <= i < t.len() && 0 <= j < t.len() && i != j implies #[trigger] t[i].0
            != #[trigger] t[j].0 by {
            if i < s.len() && j < s.len() {
                assert(t[i] == s[i] && t[j] == s[j]);
            } else if i < s.len() {
                assert(t[i] == s[i]);
            } else {
                assert(t[j] == s[j]);
            }
        }
    }
    assert forall|q: Seq<char>| #[trigger] entries_map(t).contains_key(q) <==> entries_map(s).insert(
        k,
        v,
    ).contains_key(q) by {
        if has_key(s, q) {
            let i = choose|i: int| 0 <= i < s.len() && #[trigger] s[i].0 == q;
            assert(t[i] == s[i]);
        }
        if q == k {
            assert(t[s.len() as int].0 == k);
        }
        if has_key(t, q) && q != k {
            let i = choose|i: int| 0 <= i < t.len() && #[trigger] t[i].0 == q;
            assert(i < s.len());
            assert(s[i] == t[i]);
        }
    }
    assert forall|q: Seq<char>| #[trigger] entries_map(t).contains_key(q) implies entries_map(t)[q]
        == entries_map(s).insert(k, v)[q] by {
        let i = choose|i: int| 0 <= i < t.len() && #[trigger] t[i].0 == q;
        lemma_entries_map_at(t, i);
        if i < s.len() {
            assert(s[i] == t[i]);
            lemma_entries_map_at(s, i);
        }
    }
    assert(entries_map(t) =~= entries_map(s).insert(k, v));
}

/// Replacing the value of the entry at `i` updates the map under that entry's key.
pub proof fn lemma_entries_map_update<V>(s: Seq<(Seq<char>, V)>, i: int, v: V)
    requires
        distinct_keys(s),
        0 <= i < s.len(),
    ensures
        distinct_keys(s.update(i, (s[i].0, v))),
        entries_map(s.update(i, (s[i].0, v))) == entries_map(s).insert(s[i].0, v),
{
    let k = s[i].0;
    let t = s.update(i, (k, v));
    assert forall|a: int, b: int|
        0 <= a < t.len() && 0 <= b < t.len() && a != b implies #[trigger] t[a].0
        != #[trigger] t[b].0 by {
        assert(t[a].0 == s[a].0 && t[b].0 == s[b].0);
    }
    assert forall|q: Seq<char>| #[trigger] entries_map(t).contains_key(q) <==> entries_map(s).insert(
        k,
        v,
    ).contains_key(q) by {
        if has_key(s, q) {
            let j = choose|j: int| 0 <= j < s.len() && #[trigger] s[j].0 == q;
            assert(t[j].0 == s[j].0);
        }
        if has_key(t, q) {
            let j = choose|j: int| 0 <= j < t.len() && #[trigger] t[j].0 == q;
            assert(t[j].0 == s[j].0);
        }
        if q == k {
            assert(t[i].0 == k);
        }
    }
    assert forall|q: Seq<char>| #[trigger] entries_map(t).contains_key(q) implies entries_map(t)[q]
        == entries_map(s).insert(k, v)[q] by {
        let j = choose|j: int| 0 <= j < t.len() && #[trigger] t[j].0 == q;
        lemma_entries_map_at(t, j);
        if j != i {
            assert(s[j] == t[j]);
            lemma_entries_map_at(s, j);
        }
    }
    assert(entries_map(t) =~= entries_map(s).insert(k, v));
}

/// A map keyed by strings, kept as a list of entries in which no key occurs
/// twice. Entries keep the order in which their keys were first inserted.
pub struct StrMap<V> {
    entries: Vec<(String, V)>,
}

impl<V> StrMap<V> {
    /// The entries, with each key taken by its characters.
    pub closed spec fn spec_entries(&self) -> Seq<(Seq<char>, V)> {
        self.entries@.map_values(|e: (String, V)| (e.0@, e.1))
    }

    #[verifier::type_invariant]
    pub open spec fn inv(&self) -> bool {
        distinct_keys(self.spec_entries())
    }

    /// An empty map.
    pub fn new() -> (m: Self)
        ensures
            m.spec_entries() == Seq::<(Seq<char>, V)>::empty(),
            m@ == Map::<Seq<char>, V>::empty(),
    {
        let m = StrMap { entries: Vec::new() };
        assert(m.spec_entries() =~= Seq::<(Seq<char>, V)>::empty());
        assert(m@ =~= Map::<Seq<char>, V>::empty());
        m
    }

    /// The number of entries.
    pub fn len(&self) -> (n: usize)
        ensures
            n == self.spec_entries().len(),
            n == self@.len(),
    {
        proof {
            use_type_invariant(self);
            self.lemma_len();
        }
        self.entries.len()
    }

    /// The number of entries is the size of the map.
    pub proof fn lemma_len(&self)
        requires
            self.inv(),
        ensures
            self@.dom().finite(),
            self@.len() == self.spec_entries().len(),
    {
        let s = self.spec_entries();
        lemma_entries_map_len(s);
    }

    /// The key of the entry at `i`.
    pub fn key_at(&self, i: usize) -> (k: &String)
        requires
            i < self.spec_entries().len(),
        ensures
            k@ == self.spec_entries()[i as int].0,
    {
        &self.entries[i].0
    }

    /// The value of the entry at `i`.
    pub fn value_at(&self, i: usize) -> (v: &V)
        requires
            i < self.spec_entries().len(),
        ensures
            *v == self.spec_entries()[i as int].1,
    {
        &self.entries[i].1
    }

    /// The index of the entry with key `k`, if there is one.
    fn find(&self, k: &String) -> (r: Option<usize>)
        ensures
            match r {
                Some(i) => i < self.spec_entries().len() && self.spec_entries()[i as int].0 == k@,
                None => !has_key(self.spec_entries(), k@),
            },
    {
        let n = self.entries.len();
        let mut i: usize = 0;
        while i < n
            invariant
                n == self.entries@.len(),
                i <= n,
                forall|j: int| 0 <= j < i ==> #[trigger] self.spec_entries()[j].0 != k@,
            decreases n - i,
        {
            if self.entries[i].0 == *k {
                return Some(i);
            }
            i += 1;
        }
        None
    }

    /// The value stored under `k`, if any.
    pub fn get(&self, k: &String) -> (r: Option<&V>)
        ensures
            match r {
                Some(v) => self@.contains_key(k@) && *v == self@[k@],
                None => !self@.contains_key(k@),
            },
    {
        proof {
            use_type_invariant(self);
        }
        match self.find(k) {
            Some(i) => {
                proof {
                    lemma_entries_map_at(self.spec_entries(), i as int);
                }
                Some(&self.entries[i].1)
            },
            None => None,
        }
    }

    /// Stores `v` under `k`: an entry with that key has its value replaced in
    /// place, otherwise a new entry is added at the end.
    pub fn insert(&mut self, k: String, v: V)
        ensures
            final(self)@ == old(self)@.insert(k@, v),
            has_key(old(self).spec_entries(), k@) ==> final(self).spec_entries().len()
                == old(self).spec_entries().len(),
            !has_key(old(self).spec_entries(), k@) ==> final(self).spec_entries()
                == old(self).spec_entries().push((k@, v)),
            forall|i: int|
                0 <= i < old(self).spec_entries().len() ==> #[trigger] final(self).spec_entries()[i].0
                    == old(self).spec_entries()[i].0,
    {
        proof {
            use_type_invariant(&*self);
        }
        let ghost s = self.spec_entries();
        match self.find(&k) {
            Some(i) => {
                proof {
                    lemma_entries_map_update(s, i as int, v);
                }
                let mut entries: Vec<(String, V)> = Vec::new();
                std::mem::swap(&mut entries, &mut self.entries);
                let kk = entries[i].0.clone();
                entries.set(i, (kk, v));
                assert(entries@.map_values(|e: (String, V)| (e.0@, e.1)) =~= s.update(
                    i as int,
                    (s[i as int].0, v),
                ));
                self.entries = entries;
            },
            None => {
                proof {
                    lemma_entries_map_push(s, k@, v);
                }
                let ghost kv = k@;
                let mut entries: Vec<(String, V)> = Vec::new();
                std::mem::swap(&mut entries, &mut self.entries);
                entries.push((k, v));
                assert(entries@.map_values(|e: (String, V)| (e.0@, e.1)) =~= s.push((kv, v)));
                self.entries = entries;
            },
        }
    }
}

/// The size of the map that a list with distinct keys stands for is its length.
pub proof fn lemma_entries_map_len<V>(s: Seq<(Seq<char>, V)>)
    requires
        distinct_keys(s),
    ensures
        entries_map(s).dom().finite(),
        entries_map(s).len() == s.len(),
    decreases s.len(),
{
    if s.len() == 0 {
        assert(entries_map(s).dom() =~= Set::<Seq<char>>::empty());
    } else {
        let p = s.drop_last();
        let last = s.last();
        assert(distinct_keys(p)) by {
            assert forall|i: int, j: int|
                0 <= i < p.len() && 0 <= j < p.len() && i != j implies #[trigger] p[i].0
                != #[trigger] p[j].0 by {
                assert(p[i] == s[i] && p[j] == s[j]);
            }
        }
        assert(!has_key(p, last.0)) by {
            if has_key(p, last.0) {
                let i = choose|i: int| 0 <= i < p.len() && #[trigger] p[i].0 == last.0;
                assert(s[i] == p[i]);
                assert(s[s.len() - 1].0 == last.0);
            }
        }
        lemma_entries_map_len(p);
        lemma_entries_map_push(p, last.0, last.1);
        assert(p.push((last.0, last.1)) =~= s);
    }
}

impl<V: Copy> StrMap<V> {
    /// A copy of the map, with its entries in the same order.
    pub fn copy(&self) -> (m: Self)
        ensures
            m.spec_entries() == self.spec_entries(),
            m@ == self@,
    {
        proof {
            use_type_invariant(self);
        }
        let mut entries: Vec<(String, V)> = Vec::new();
        let n = self.entries.len();
        let mut i: usize = 0;
        while i < n
            invariant
                n == self.entries@.len(),
                i <= n,
                entries@.len() == i,
                forall|j: int|
                    0 <= j < i ==> #[trigger] entries@[j].0@ == self.entries@[j].0@ && entries@[j].1
                        == self.entries@[j].1,
            decreases n - i,
        {
            let k = self.entries[i].0.clone();
            let v = self.entries[i].1;
            entries.push((k, v));
            i += 1;
        }
        assert(entries@.map_values(|e: (String, V)| (e.0@, e.1)) =~= self.spec_entries());
        let m = StrMap { entries };
        m
    }
}

impl<V> View for StrMap<V> {
    type V = Map<Seq<char>, V>;

    open spec fn view(&self) -> Map<Seq<char>, V> {
        entries_map(self.spec_entries())
    }
}

} // verus!
