//! The mapping from crate name to the names of the crates it depends on.
use vstd::prelude::*;
use crate::order::names_of;

verus! {

/// The names of the entries of a map, in order.
pub open spec fn keys_of(e: Seq<(Seq<char>, Seq<Seq<char>>)>) -> Seq<Seq<char>> {
    e.map_values(|p: (Seq<char>, Seq<Seq<char>>)| p.0)
}

/// Position of the entry named `k`.
pub open spec fn key_index(e: Seq<(Seq<char>, Seq<Seq<char>>)>, k: Seq<char>) -> int {
    choose|i: int| 0 <= i < e.len() && #[trigger] e[i].0 == k
}

/// The entries read as a map from name to dependency list.
pub open spec fn as_map(e: Seq<(Seq<char>, Seq<Seq<char>>)>) -> Map<Seq<char>, Seq<Seq<char>>> {
    Map::new(|k: Seq<char>| keys_of(e).contains(k), |k: Seq<char>| e[key_index(e, k)].1)
}

/// Crate names mapped to their dependency lists. Each name has one entry;
/// entries keep the order in which their names were first inserted.
pub struct DependencyMap {
    entries: Vec<(String, Vec<String>)>,
}

impl View for DependencyMap {
    type V = Seq<(Seq<char>, Seq<Seq<char>>)>;

    closed spec fn view(&self) -> Self::V {
        self.entries@.map_values(|p: (String, Vec<String>)| (p.0@, names_of(p.1@)))
    }
}

/// Inserting `name` with `deps`: its entry is replaced in place, or added last.
pub open spec fn inserted(
    e: Seq<(Seq<char>, Seq<Seq<char>>)>,
    name: Seq<char>,
    deps: Seq<Seq<char>>,
) -> Seq<(Seq<char>, Seq<Seq<char>>)> {
    if keys_of(e).contains(name) {
        e.update(key_index(e, name), (name, deps))
    } else {
        e.push((name, deps))
    }
}

impl DependencyMap {
    #[verifier::type_invariant]
    pub open spec fn distinct_keys(&self) -> bool {
        keys_of(self@).no_duplicates()
    }

    pub fn new() -> (r: DependencyMap)
        ensures
            r@ == Seq::<(Seq<char>, Seq<Seq<char>>)>::empty(),
    {
        let r = DependencyMap { entries: Vec::new() };
        assert(r@ =~= Seq::<(Seq<char>, Seq<Seq<char>>)>::empty());
        r
    }

    pub fn len(&self) -> (r: usize)
        ensures
            r == self@.len(),
    {
        self.entries.len()
    }

    /// The name of the entry at position `i`.
    pub fn key(&self, i: usize) -> (r: &String)
        requires
            i < self@.len(),
        ensures
            r@ == self@[i as int].0,
    {
        &self.entries[i].0
    }

    /// The dependency list of the entry at position `i`.
    pub fn deps(&self, i: usize) -> (r: &Vec<String>)
        requires
            i < self@.len(),
        ensures
            names_of(r@) == self@[i as int].1,
    {
        &self.entries[i].1
    }

    /// Position of the entry named `name`, if any.
    pub fn position(&self, name: &String) -> (r: Option<usize>)
        ensures
            match r {
                Some(i) => i < self@.len() && self@[i as int].0 == name@,
                None => !keys_of(self@).contains(name@),
            },
    {
        let mut i: usize = 0;
        while i < self.entries.len()
            invariant
                i <= self@.len(),
                self@.len() == self.entries@.len(),
                forall|k: int| 0 <= k < i ==> self@[k].0 != name@,
            decreases self.entries@.len() - i,
        {
            if self.entries[i].0 == *name {
                return Some(i);
            }
            i = i + 1;
        }
        assert forall|k: int| 0 <= k < keys_of(self@).len() implies keys_of(self@)[k] != name@ by {
            assert(self@[k].0 != name@);
        }
        None
    }

    /// The dependency list recorded for `name`, if it has an entry.
    pub fn get(&self, name: &String) -> (r: Option<&Vec<String>>)
        ensures
            match r {
                Some(d) => as_map(self@).contains_key(name@) && names_of(d@) == as_map(self@)[name@],
                None => !as_map(self@).contains_key(name@),
            },
    {
        proof {
            use_type_invariant(self);
        }
        match self.position(name) {
            Some(i) => {
                proof {
                    lemma_key_index(self@, i as int);
                }
                Some(&self.entries[i].1)
            },
            None => None,
        }
    }

    /// Records `deps` for `name`; a later insert of the same name overwrites
    /// the earlier one.
    pub fn insert(&mut self, name: String, deps: Vec<String>)
        ensures
            final(self)@ == inserted(old(self)@, name@, names_of(deps@)),
            as_map(final(self)@) == as_map(old(self)@).insert(name@, names_of(deps@)),
    {
        proof {
            use_type_invariant(&*self);
        }
        let ghost e = self@;
        let ghost d = names_of(deps@);
        let ghost n = name@;
        match self.position(&name) {
            Some(i) => {
                proof {
                    lemma_key_index(e, i as int);
                }
                let mut entries = Vec::new();
                std::mem::swap(&mut entries, &mut self.entries);
                entries.set(i, (name, deps));
                proof {
                    assert(entries@.map_values(|p: (String, Vec<String>)| (p.0@, names_of(p.1@)))
                        =~= e.update(i as int, (n, d)));
                    lemma_inserted_keys(e, n, d);
                }
                *self = DependencyMap { entries };
            },
            None => {
                let mut entries = Vec::new();
                std::mem::swap(&mut entries, &mut self.entries);
                entries.push((name, deps));
                proof {
                    assert(entries@.map_values(|p: (String, Vec<String>)| (p.0@, names_of(p.1@)))
                        =~= e.push((n, d)));
                    lemma_inserted_keys(e, n, d);
                }
                *self = DependencyMap { entries };
            },
        }
        proof {
            lemma_inserted_map(e, n, d);
        }
    }
}

/// With distinct names, the entry at `i` is the one that `key_index` picks.
pub proof fn lemma_key_index(e: Seq<(Seq<char>, Seq<Seq<char>>)>, i: int)
    requires
        keys_of(e).no_duplicates(),
        0 <= i < e.len(),
    ensures
        key_index(e, e[i].0) == i,
        keys_of(e).contains(e[i].0),
        as_map(e).contains_key(e[i].0),
        as_map(e)[e[i].0] == e[i].1,
{
    assert(keys_of(e)[i] == e[i].0);
    let j = key_index(e, e[i].0);
    assert(keys_of(e)[j] == e[i].0);
}

proof fn lemma_inserted_keys(e: Seq<(Seq<char>, Seq<Seq<char>>)>, n: Seq<char>, d: Seq<Seq<char>>)
    requires
        keys_of(e).no_duplicates(),
    ensures
        keys_of(inserted(e, n, d)).no_duplicates(),
        keys_of(e).contains(n) ==> e[key_index(e, n)].0 == n && 0 <= key_index(e, n) < e.len(),
        keys_of(e).contains(n) ==> keys_of(inserted(e, n, d)) == keys_of(e),
        !keys_of(e).contains(n) ==> keys_of(inserted(e, n, d)) == keys_of(e).push(n),
{
    let r = inserted(e, n, d);
    if keys_of(e).contains(n) {
        let j = choose|j: int| 0 <= j < keys_of(e).len() && keys_of(e)[j] == n;
        assert(e[j].0 == n);
        let p = key_index(e, n);
        assert(keys_of(r) =~= keys_of(e));
    } else {
        assert(keys_of(r) =~= keys_of(e).push(n));
        assert forall|i: int, j: int| 0 <= i < j < keys_of(r).len() implies keys_of(r)[i] != keys_of(r)[j] by {
            if j == e.len() {
                assert(keys_of(e)[i] == keys_of(r)[i]);
            }
        }
    }
}

proof fn lemma_inserted_map(e: Seq<(Seq<char>, Seq<Seq<char>>)>, n: Seq<char>, d: Seq<Seq<char>>)
    requires
        keys_of(e).no_duplicates(),
    ensures
        as_map(inserted(e, n, d)) == as_map(e).insert(n, d),
{
    let r = inserted(e, n, d);
    lemma_inserted_keys(e, n, d);
    if keys_of(e).contains(n) {
        let p = key_index(e, n);
        assert(keys_of(r) =~= keys_of(e).update(p, n));
    } else {
        assert(keys_of(r) =~= keys_of(e).push(n));
    }
    assert forall|k: Seq<char>| #[trigger] as_map(r).contains_key(k) == as_map(e).insert(n, d).contains_key(k) by {
        if keys_of(r).contains(k) {
            let j = choose|j: int| 0 <= j < keys_of(r).len() && keys_of(r)[j] == k;
            if k != n {
                assert(keys_of(e)[j] == k);
            }
        }
        if keys_of(e).contains(k) {
            let j = choose|j: int| 0 <= j < keys_of(e).len() && keys_of(e)[j] == k;
            assert(r[j].0 == k || k == n);
            if k != n {
                assert(keys_of(r)[j] == k);
            }
        }
        if k == n {
            let j = if keys_of(e).contains(n) { key_index(e, n) } else { e.len() as int };
            assert(keys_of(r)[j] == n);
        }
    }
    let q = if keys_of(e).contains(n) { key_index(e, n) } else { e.len() as int };
    assert(r[q] == (n, d));
    lemma_key_index(r, q);
    assert forall|k: Seq<char>| #[trigger] as_map(r).contains_key(k) implies as_map(r)[k] == as_map(e).insert(n, d)[k] by {
        if k != n {
            let j = choose|j: int| 0 <= j < keys_of(r).len() && keys_of(r)[j] == k;
            assert(r[j].0 == k);
            assert(j != q);
            assert(r[j] == e[j]);
            lemma_key_index(r, j);
            lemma_key_index(e, j);
        }
    }
    assert(as_map(r) =~= as_map(e).insert(n, d));
}

} // verus!
