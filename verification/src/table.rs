use vstd::prelude::*;

verus! {

/// Whether no name occurs twice among the entries.
pub open spec fn unique_names<V>(s: Seq<(Seq<char>, V)>) -> bool {
    forall|i: int, j: int| 0 <= i < j < s.len() ==> #[trigger] s[i].0 != #[trigger] s[j].0
}

/// Whether some entry has the name `k`.
pub open spec fn has_name<V>(s: Seq<(Seq<char>, V)>, k: Seq<char>) -> bool {
    exists|i: int| 0 <= i < s.len() && #[trigger] s[i].0 == k
}

/// The position of an entry named `k`, when there is one.
pub open spec fn name_index<V>(s: Seq<(Seq<char>, V)>, k: Seq<char>) -> int {
    choose|i: int| 0 <= i < s.len() && #[trigger] s[i].0 == k
}

/// The value stored under `k`, if any.
pub open spec fn lookup<V>(s: Seq<(Seq<char>, V)>, k: Seq<char>) -> Option<V> {
    if has_name(s, k) {
        Some(s[name_index(s, k)].1)
    } else {
        None
    }
}

/// The entries after storing `v` under `k`: an entry named `k` keeps its place and
/// takes the new value; otherwise the new entry goes last.
pub open spec fn table_insert<V>(s: Seq<(Seq<char>, V)>, k: Seq<char>, v: V) -> Seq<(Seq<char>, V)> {
    if has_name(s, k) {
        s.update(name_index(s, k), (k, v))
    } else {
        s.push((k, v))
    }
}

/// Entries from names and values at the same positions, names as sequences of
/// characters.
pub open spec fn zip_entries<V>(names: Seq<String>, values: Seq<V>) -> Seq<(Seq<char>, V)> {
    Seq::new(names.len(), |i: int| (names[i]@, values[i]))
}

/// The entries with each value replaced by its image under `f`.
pub open spec fn map_entries<V, W>(s: Seq<(Seq<char>, V)>, f: spec_fn(V) -> W) -> Seq<
    (Seq<char>, W),
> {
    s.map_values(|e: (Seq<char>, V)| (e.0, f(e.1)))
}

/// Under unique names, the entry named `k` is the one at its position.
pub proof fn lemma_name_index<V>(s: Seq<(Seq<char>, V)>, i: int)
    requires
        unique_names(s),
        0 <= i < s.len(),
    ensures
        has_name(s, s[i].0),
        name_index(s, s[i].0) == i,
        lookup(s, s[i].0) == Some(s[i].1),
{
    let k = s[i].0;
    assert(s[i].0 == k);
    let j = name_index(s, k);
    assert(s[j].0 == k);
    if j < i {
        assert(s[j].0 != s[i].0);
    } else if i < j {
        assert(s[i].0 != s[j].0);
    }
}

/// Storing under a name keeps names unique, makes the name hold the stored value, and
/// leaves every other name as it was.
pub proof fn lemma_table_insert<V>(s: Seq<(Seq<char>, V)>, k: Seq<char>, v: V)
    requires
        unique_names(s),
    ensures
        unique_names(table_insert(s, k, v)),
        lookup(table_insert(s, k, v), k) == Some(v),
        forall|k2: Seq<char>| k2 != k ==> #[trigger] lookup(table_insert(s, k, v), k2) == lookup(s, k2),
        has_name(s, k) ==> table_insert(s, k, v).len() == s.len(),
        !has_name(s, k) ==> table_insert(s, k, v).len() == s.len() + 1,
{
    let t = table_insert(s, k, v);
    if has_name(s, k) {
        let i = name_index(s, k);
        assert forall|j: int| 0 <= j < t.len() implies #[trigger] t[j].0 == s[j].0 by {}
        assert(unique_names(t));
        lemma_name_index(t, i);
        assert forall|k2: Seq<char>| k2 != k implies #[trigger] lookup(t, k2) == lookup(s, k2) by {
            if has_name(s, k2) {
                let j = name_index(s, k2);
                assert(t[j].0 == k2);
                lemma_name_index(s, j);
                lemma_name_index(t, j);
            } else {
                if has_name(t, k2) {
                    let j = name_index(t, k2);
                    assert(s[j].0 == k2);
                }
            }
        }
    } else {
        assert forall|a: int, b: int| 0 <= a < b < t.len() implies #[trigger] t[a].0
            != #[trigger] t[b].0 by {
            if b == s.len() {
                assert(s[a].0 != k);
            }
        }
        lemma_name_index(t, s.len() as int);
        assert forall|k2: Seq<char>| k2 != k implies #[trigger] lookup(t, k2) == lookup(s, k2) by {
            if has_name(s, k2) {
                let j = name_index(s, k2);
                assert(t[j].0 == k2);
                lemma_name_index(s, j);
                lemma_name_index(t, j);
            } else {
                if has_name(t, k2) {
                    let j = name_index(t, k2);
                    if j < s.len() {
                        assert(s[j].0 == k2);
                    }
                }
            }
        }
    }
}

/// Mapping the values keeps the names, and commutes with lookups and with storing.
pub proof fn lemma_map_entries<V, W>(s: Seq<(Seq<char>, V)>, f: spec_fn(V) -> W, k: Seq<char>, v: V)
    requires
        unique_names(s),
    ensures
        unique_names(map_entries(s, f)),
        has_name(map_entries(s, f), k) == has_name(s, k),
        lookup(map_entries(s, f), k) == (match lookup(s, k) {
            Some(x) => Some(f(x)),
            None => None,
        }),
        map_entries(table_insert(s, k, v), f) == table_insert(map_entries(s, f), k, f(v)),
{
    let m = map_entries(s, f);
    assert forall|j: int| 0 <= j < m.len() implies #[trigger] m[j].0 == s[j].0 by {}
    assert(unique_names(m));
    if has_name(s, k) {
        let i = name_index(s, k);
        lemma_name_index(s, i);
        lemma_name_index(m, i);
        assert(map_entries(table_insert(s, k, v), f) =~= table_insert(m, k, f(v)));
    } else {
        if has_name(m, k) {
            let j = name_index(m, k);
            assert(s[j].0 == k);
        }
        assert(map_entries(table_insert(s, k, v), f) =~= table_insert(m, k, f(v)));
    }
}

/// Values stored under distinct names, in the order their names were first stored.
#[derive(Debug)]
pub struct NamedTable<V> {
    names: Vec<String>,
    values: Vec<V>,
}

impl<V> View for NamedTable<V> {
    type V = Seq<(Seq<char>, V)>;

    closed spec fn view(&self) -> Seq<(Seq<char>, V)> {
        zip_entries(self.names@, self.values@)
    }
}

impl<V> NamedTable<V> {
    /// Names and values pair up, and no name occurs twice.
    #[verifier::type_invariant]
    spec fn names_pair_up_and_are_unique(&self) -> bool {
        &&& self.names@.len() == self.values@.len()
        &&& unique_names(zip_entries(self.names@, self.values@))
    }

    /// An empty table.
    pub fn new() -> (t: Self)
        ensures
            t@ == Seq::<(Seq<char>, V)>::empty(),
    {
        let t = NamedTable { names: Vec::new(), values: Vec::new() };
        assert(t@ =~= Seq::<(Seq<char>, V)>::empty());
        t
    }

    /// Number of entries.
    pub fn len(&self) -> (n: usize)
        ensures
            n == self@.len(),
            unique_names(self@),
    {
        proof {
            use_type_invariant(self);
        }
        self.names.len()
    }

    /// Whether the table has no entry.
    pub fn is_empty(&self) -> (b: bool)
        ensures
            b == (self@.len() == 0),
            unique_names(self@),
    {
        proof {
            use_type_invariant(self);
        }
        self.names.len() == 0
    }

    /// The names, in order.
    pub fn names(&self) -> (ns: &[String])
        ensures
            ns@.len() == self@.len(),
            forall|i: int| 0 <= i < ns@.len() ==> #[trigger] ns@[i]@ == self@[i].0,
            unique_names(self@),
    {
        proof {
            use_type_invariant(self);
        }
        self.names.as_slice()
    }

    /// The values, in the order of their names.
    pub fn values(&self) -> (vs: &[V])
        ensures
            vs@.len() == self@.len(),
            forall|i: int| 0 <= i < vs@.len() ==> #[trigger] vs@[i] == self@[i].1,
            unique_names(self@),
    {
        proof {
            use_type_invariant(self);
        }
        self.values.as_slice()
    }

    fn find(&self, key: &str) -> (r: Option<usize>)
        ensures
            unique_names(self@),
            match r {
                Some(i) => i < self@.len() && i == name_index(self@, key@) && has_name(
                    self@,
                    key@,
                ),
                None => !has_name(self@, key@),
            },
    {
        proof {
            use_type_invariant(self);
        }
        let key_s = key.to_owned();
        let n = self.names.len();
        let mut i: usize = 0;
        while i < n
            invariant
                n == self@.len(),
                n == self.names@.len(),
                self@ == zip_entries(self.names@, self.values@),
                i <= n,
                key_s@ == key@,
                unique_names(self@),
                forall|j: int| 0 <= j < i ==> self@[j].0 != key@,
            decreases n - i,
        {
            if self.names[i] == key_s {
                assert(self@[i as int].0 == key@);
                proof {
                    lemma_name_index(self@, i as int);
                }
                return Some(i);
            }
            i += 1;
        }
        None
    }

    /// The value stored under `key`, if any.
    pub fn get(&self, key: &str) -> (r: Option<&V>)
        ensures
            unique_names(self@),
            match r {
                Some(v) => lookup(self@, key@) == Some(*v),
                None => lookup(self@, key@) is None,
            },
    {
        proof {
            use_type_invariant(self);
        }
        match self.find(key) {
            Some(i) => Some(&self.values[i]),
            None => None,
        }
    }

    /// The value stored under `key`, if any, to change in place.
    pub fn get_mut(&mut self, key: &str) -> (r: Option<&mut V>)
        ensures
            unique_names(old(self)@),
            match lookup(old(self)@, key@) {
                Some(v) => r.is_some() && *r.unwrap() == v && final(self)@ == table_insert(
                    old(self)@,
                    key@,
                    *final(r.unwrap()),
                ),
                None => r.is_none() && *final(self) == *old(self),
            },
    {
        proof {
            use_type_invariant(&*self);
        }
        match self.find(key) {
            Some(i) => {
                proof {
                    assert forall|v: V| #[trigger]
                        zip_entries(self.names@, self.values@.update(i as int, v)) =~= self@.update(
                            i as int,
                            (key@, v),
                        ) by {}
                    assert forall|v: V| #[trigger] unique_names(
                        zip_entries(self.names@, self.values@.update(i as int, v)),
                    ) by {
                        let u = zip_entries(self.names@, self.values@.update(i as int, v));
                        assert forall|j: int| 0 <= j < u.len() implies u[j].0 == self@[j].0 by {}
                    }
                }
                Some(&mut self.values[i])
            },
            None => None,
        }
    }

    /// Store `value` under `key`, replacing the value stored there before, if any.
    pub fn insert(&mut self, key: String, value: V)
        ensures
            unique_names(old(self)@),
            unique_names(final(self)@),
            final(self)@ == table_insert(old(self)@, key@, value),
    {
        proof {
            use_type_invariant(&*self);
        }
        let ghost k = key@;
        match self.find(key.as_str()) {
            Some(i) => {
                proof {
                    lemma_table_insert(self@, k, value);
                    assert(zip_entries(self.names@, self.values@.update(i as int, value))
                        =~= table_insert(self@, k, value));
                    assert forall|v: V| #[trigger] unique_names(
                        zip_entries(self.names@, self.values@.update(i as int, v)),
                    ) by {
                        let u = zip_entries(self.names@, self.values@.update(i as int, v));
                        assert forall|j: int| 0 <= j < u.len() implies u[j].0 == self@[j].0 by {}
                    }
                }
                self.values[i] = value;
            },
            None => {
                proof {
                    lemma_table_insert(self@, k, value);
                }
                let mut taken = NamedTable::new();
                std::mem::swap(self, &mut taken);
                proof {
                    use_type_invariant(&taken);
                }
                let NamedTable { mut names, mut values } = taken;
                let ghost old_names = names@;
                let ghost old_values = values@;
                names.push(key);
                values.push(value);
                assert(zip_entries(names@, values@) =~= table_insert(
                    zip_entries(old_names, old_values),
                    k,
                    value,
                ));
                *self = NamedTable { names, values };
            },
        }
    }
}

impl<V: Clone> Clone for NamedTable<V> {
    fn clone(&self) -> (t: Self)
        ensures
            t@.len() == self@.len(),
            forall|i: int| 0 <= i < t@.len() ==> #[trigger] t@[i].0 == self@[i].0,
            forall|i: int|
                0 <= i < t@.len() ==> vstd::pervasive::cloned::<V>(self@[i].1, #[trigger] t@[i].1),
    {
        proof {
            use_type_invariant(self);
        }
        let names = self.names.clone();
        let values = self.values.clone();
        assert forall|i: int| 0 <= i < names@.len() implies names@[i] == self.names@[i] by {
            assert(vstd::pervasive::cloned::<String>(self.names@[i], names@[i]));
        }
        assert(zip_entries(names@, values@).len() == self@.len());
        assert forall|a: int, b: int| 0 <= a < b < names@.len() implies #[trigger] zip_entries(
            names@,
            values@,
        )[a].0 != #[trigger] zip_entries(names@, values@)[b].0 by {
            assert(self@[a].0 != self@[b].0);
        }
        NamedTable { names, values }
    }
}

} // verus!
