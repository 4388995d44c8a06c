use vstd::prelude::*;

verus! {

/// A map from names to names, kept as a list of pairs with distinct keys.
///
/// A list rather than a `BTreeMap<String, String>`: vstd's specification of `BTreeMap`
/// holds only for key types whose ordering obeys vstd's comparison specification
/// (`key_obeys_cmp_spec`), and vstd gives `String` no such specification, so nothing
/// could be proved of a map keyed by names.
pub struct NameMap {
    entries: Vec<(String, String)>,
}

impl View for NameMap {
    type V = Map<Seq<char>, Seq<char>>;

    closed spec fn view(&self) -> Map<Seq<char>, Seq<char>> {
        Map::new(
            |k: Seq<char>| exists|i: int| 0 <= i < self.entries@.len() && #[trigger] self.entries@[i].0@ == k,
            |k: Seq<char>|
                self.entries@[choose|i: int|
                    0 <= i < self.entries@.len() && #[trigger] self.entries@[i].0@ == k].1@,
        )
    }
}

impl NameMap {
    /// The pairs have distinct keys.
    pub closed spec fn wf(&self) -> bool {
        forall|i: int, j: int|
            0 <= i < j < self.entries@.len() ==> #[trigger] self.entries@[i].0@ != #[trigger] self.entries@[j].0@
    }

    proof fn lemma_view_at(&self, i: int)
        requires
            self.wf(),
            0 <= i < self.entries@.len(),
        ensures
            self@.contains_key(self.entries@[i].0@),
            self@[self.entries@[i].0@] == self.entries@[i].1@,
    {
        let k = self.entries@[i].0@;
        assert(self@.contains_key(k));
        let j = choose|j: int| 0 <= j < self.entries@.len() && #[trigger] self.entries@[j].0@ == k;
        if j != i {
            if j < i {
                assert(self.entries@[j].0@ != self.entries@[i].0@);
            } else {
                assert(self.entries@[i].0@ != self.entries@[j].0@);
            }
        }
    }

    /// A copy of the map.
    pub fn copy(&self) -> (m: Self)
        ensures
            m@ == self@,
            m.wf() == self.wf(),
    {
        let mut entries: Vec<(String, String)> = Vec::new();
        for i in 0..self.entries.len()
            invariant
                entries@ == self.entries@.take(i as int),
        {
            let (a, b) = &self.entries[i];
            entries.push((a.clone(), b.clone()));
            assert(entries@ == self.entries@.take(i + 1));
        }
        assert(self.entries@.take(self.entries@.len() as int) == self.entries@);
        NameMap { entries }
    }

    /// The empty map.
    pub fn new() -> (m: Self)
        ensures
            m.wf(),
            m@ == Map::<Seq<char>, Seq<char>>::empty(),
    {
        let m = NameMap { entries: Vec::new() };
        assert(m@ =~= Map::<Seq<char>, Seq<char>>::empty());
        m
    }

    /// Where `key` sits in the list, if it does.
    fn find(&self, key: &String) -> (r: Option<usize>)
        requires
            self.wf(),
        ensures
            r matches Some(i) ==> i < self.entries@.len() && self.entries@[i as int].0@ == key@,
            r is None ==> !self@.contains_key(key@),
    {
        let mut i: usize = 0;
        while i < self.entries.len()
            invariant
                i <= self.entries@.len(),
                forall|j: int| 0 <= j < i ==> #[trigger] self.entries@[j].0@ != key@,
            decreases self.entries.len() - i,
        {
            if self.entries[i].0 == *key {
                return Some(i);
            }
            i = i + 1;
        }
        None
    }

    /// The name `key` maps to.
    pub fn get(&self, key: &String) -> (r: Option<String>)
        requires
            self.wf(),
        ensures
            r matches Some(v) ==> self@.contains_key(key@) && v@ == self@[key@],
            r is None ==> !self@.contains_key(key@),
    {
        match self.find(key) {
            Some(i) => {
                proof {
                    self.lemma_view_at(i as int);
                }
                Some(self.entries[i].1.clone())
            },
            None => None,
        }
    }

    /// Whether `key` is mapped.
    pub fn contains_key(&self, key: &String) -> (r: bool)
        requires
            self.wf(),
        ensures
            r == self@.contains_key(key@),
    {
        match self.find(key) {
            Some(i) => {
                proof {
                    self.lemma_view_at(i as int);
                }
                true
            },
            None => false,
        }
    }

    /// Maps `key` to `value`, replacing what `key` mapped to before.
    pub fn insert(&mut self, key: String, value: String)
        requires
            old(self).wf(),
        ensures
            final(self).wf(),
            final(self)@ == old(self)@.insert(key@, value@),
    {
        let ghost k = key@;
        let ghost v = value@;
        match self.find(&key) {
            Some(i) => {
                self.entries.set(i, (key, value));
                proof {
                    assert forall|j: int| 0 <= j < self.entries@.len() && j != i implies self.entries@[j]
                        == old(self).entries@[j] by {}
                    assert forall|a: int, b: int|
                        0 <= a < b < self.entries@.len() implies #[trigger] self.entries@[a].0@
                        != #[trigger] self.entries@[b].0@ by {
                        assert(old(self).entries@[a].0@ != old(self).entries@[b].0@);
                    }
                    assert forall|q: Seq<char>| #[trigger] self@.contains_key(q) == old(self)@.insert(
                        k,
                        v,
                    ).contains_key(q) by {
                        if q == k {
                            assert(self.entries@[i as int].0@ == q);
                        } else {
                            if old(self)@.contains_key(q) {
                                let j = choose|j: int|
                                    0 <= j < old(self).entries@.len()
                                        && #[trigger] old(self).entries@[j].0@ == q;
                                assert(self.entries@[j].0@ == q);
                            }
                            if self@.contains_key(q) {
                                let j = choose|j: int|
                                    0 <= j < self.entries@.len() && #[trigger] self.entries@[j].0@ == q;
                                assert(old(self).entries@[j].0@ == q);
                            }
                        }
                    }
                    assert forall|q: Seq<char>| #[trigger]
                        self@.contains_key(q) implies self@[q] == old(self)@.insert(k, v)[q] by {
                        let j = choose|j: int|
                            0 <= j < self.entries@.len() && #[trigger] self.entries@[j].0@ == q;
                        self.lemma_view_at(j);
                        if q != k {
                            old(self).lemma_view_at(j);
                        }
                    }
                    assert(self@ =~= old(self)@.insert(k, v));
                }
            },
            None => {
                self.entries.push((key, value));
                proof {
                    let n = old(self).entries@.len() as int;
                    assert forall|j: int| 0 <= j < n implies self.entries@[j] == old(
                        self,
                    ).entries@[j] by {}
                    assert forall|a: int, b: int|
                        0 <= a < b < self.entries@.len() implies #[trigger] self.entries@[a].0@
                        != #[trigger] self.entries@[b].0@ by {
                        if b < n {
                            assert(old(self).entries@[a].0@ != old(self).entries@[b].0@);
                        } else {
                            assert(old(self)@.contains_key(self.entries@[a].0@));
                        }
                    }
                    assert forall|q: Seq<char>| #[trigger] self@.contains_key(q) == old(self)@.insert(
                        k,
                        v,
                    ).contains_key(q) by {
                        if q == k {
                            assert(self.entries@[n].0@ == q);
                        } else {
                            if old(self)@.contains_key(q) {
                                let j = choose|j: int|
                                    0 <= j < old(self).entries@.len()
                                        && #[trigger] old(self).entries@[j].0@ == q;
                                assert(self.entries@[j].0@ == q);
                            }
                            if self@.contains_key(q) {
                                let j = choose|j: int|
                                    0 <= j < self.entries@.len() && #[trigger] self.entries@[j].0@ == q;
                                assert(j < n);
                                assert(old(self).entries@[j].0@ == q);
                            }
                        }
                    }
                    assert forall|q: Seq<char>| #[trigger]
                        self@.contains_key(q) implies self@[q] == old(self)@.insert(k, v)[q] by {
                        let j = choose|j: int|
                            0 <= j < self.entries@.len() && #[trigger] self.entries@[j].0@ == q;
                        self.lemma_view_at(j);
                        if j < n {
                            old(self).lemma_view_at(j);
                        }
                    }
                    assert(self@ =~= old(self)@.insert(k, v));
                }
            },
        }
    }

    /// Whether some key maps to `name`.
    pub fn has_value(&self, name: &String) -> (r: bool)
        requires
            self.wf(),
        ensures
            r == (exists|k: Seq<char>| #[trigger] self@.contains_key(k) && self@[k] == name@),
    {
        let mut i: usize = 0;
        while i < self.entries.len()
            invariant
                self.wf(),
                i <= self.entries@.len(),
                forall|j: int| 0 <= j < i ==> #[trigger] self.entries@[j].1@ != name@,
            decreases self.entries.len() - i,
        {
            if self.entries[i].1 == *name {
                proof {
                    self.lemma_view_at(i as int);
                }
                return true;
            }
            i = i + 1;
        }
        assert forall|k: Seq<char>| #[trigger] self@.contains_key(k) implies self@[k] != name@ by {
            let j = choose|j: int| 0 <= j < self.entries@.len() && #[trigger] self.entries@[j].0@ == k;
            self.lemma_view_at(j);
        }
        false
    }
}

/// A set of names, kept as a list (a `BTreeSet<String>` is out of reach for the reason
/// given at `NameMap`).
pub struct NameSet {
    names: Vec<String>,
}

impl View for NameSet {
    type V = Set<Seq<char>>;

    closed spec fn view(&self) -> Set<Seq<char>> {
        Set::new(|n: Seq<char>| exists|i: int| 0 <= i < self.names@.len() && #[trigger] self.names@[i]@ == n)
    }
}

impl NameSet {
    /// A copy of the set.
    pub fn copy(&self) -> (s: Self)
        ensures
            s@ == self@,
    {
        let mut names: Vec<String> = Vec::new();
        for i in 0..self.names.len()
            invariant
                names@ == self.names@.take(i as int),
        {
            names.push(self.names[i].clone());
            assert(names@ == self.names@.take(i + 1));
        }
        assert(self.names@.take(self.names@.len() as int) == self.names@);
        NameSet { names }
    }

    /// The empty set.
    pub fn new() -> (s: Self)
        ensures
            s@ == Set::<Seq<char>>::empty(),
    {
        let s = NameSet { names: Vec::new() };
        assert(s@ =~= Set::<Seq<char>>::empty());
        s
    }

    /// Whether `name` is in the set.
    pub fn contains(&self, name: &String) -> (r: bool)
        ensures
            r == self@.contains(name@),
    {
        let mut i: usize = 0;
        while i < self.names.len()
            invariant
                i <= self.names@.len(),
                forall|j: int| 0 <= j < i ==> #[trigger] self.names@[j]@ != name@,
            decreases self.names.len() - i,
        {
            if self.names[i] == *name {
                return true;
            }
            i = i + 1;
        }
        false
    }

    /// Adds `name` to the set.
    pub fn insert(&mut self, name: String)
        ensures
            final(self)@ == old(self)@.insert(name@),
    {
        if !self.contains(&name) {
            let ghost n = name@;
            self.names.push(name);
            proof {
                assert forall|q: Seq<char>| #[trigger] self@.contains(q) == old(self)@.insert(n).contains(q) by {
                    if q == n {
                        assert(self.names@[self.names@.len() - 1]@ == q);
                    }
                    if old(self)@.contains(q) {
                        let j = choose|j: int| 0 <= j < old(self).names@.len() && #[trigger] old(self).names@[j]@ == q;
                        assert(self.names@[j] == old(self).names@[j]);
                    }
                    if self@.contains(q) && q != n {
                        let j = choose|j: int| 0 <= j < self.names@.len() && #[trigger] self.names@[j]@ == q;
                        assert(j < old(self).names@.len());
                        assert(self.names@[j] == old(self).names@[j]);
                    }
                }
                assert(self@ =~= old(self)@.insert(n));
            }
        } else {
            assert(self@ =~= old(self)@.insert(name@));
        }
    }
}

} // verus!
