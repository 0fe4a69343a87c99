//! The attributes of a start tag: a map from attribute name to value.
use vstd::prelude::*;
use vstd::set_lib::lemma_subset_equality;

verus! {

/// The map that a list of `(name, value)` entries stands for, a later entry
/// of a name replacing an earlier one.
pub open spec fn entries_map(e: Seq<(String, String)>) -> Map<Seq<char>, Seq<char>>
    decreases e.len(),
{
    if e.len() == 0 {
        Map::empty()
    } else {
        entries_map(e.drop_last()).insert(e.last().0@, e.last().1@)
    }
}

/// No two entries carry the same name.
pub open spec fn names_distinct(e: Seq<(String, String)>) -> bool {
    forall|i: int, j: int| 0 <= i < j < e.len() ==> e[i].0@ != e[j].0@
}

proof fn lemma_map_keys(e: Seq<(String, String)>)
    ensures
        entries_map(e).dom().finite(),
        forall|k: Seq<char>|
            entries_map(e).contains_key(k) <==> exists|i: int| 0 <= i < e.len() && e[i].0@ == k,
    decreases e.len(),
{
    if e.len() > 0 {
        let d = e.drop_last();
        lemma_map_keys(d);
        assert forall|k: Seq<char>|
            entries_map(e).contains_key(k) <==> exists|i: int| 0 <= i < e.len() && e[i].0@ == k by {
            if entries_map(e).contains_key(k) {
                if k == e.last().0@ {
                    assert(e[e.len() - 1].0@ == k);
                } else {
                    let i = choose|i: int| 0 <= i < d.len() && d[i].0@ == k;
                    assert(e[i].0@ == k);
                }
            }
            if exists|i: int| 0 <= i < e.len() && e[i].0@ == k {
                let i = choose|i: int| 0 <= i < e.len() && e[i].0@ == k;
                if i < e.len() - 1 {
                    assert(d[i].0@ == k);
                }
            }
        }
    }
}

proof fn lemma_map_value(e: Seq<(String, String)>, i: int)
    requires
        names_distinct(e),
        0 <= i < e.len(),
    ensures
        entries_map(e).contains_key(e[i].0@),
        entries_map(e)[e[i].0@] == e[i].1@,
    decreases e.len(),
{
    if i < e.len() - 1 {
        let d = e.drop_last();
        assert(d[i] == e[i]);
        lemma_map_value(d, i);
    }
}

proof fn lemma_map_len(e: Seq<(String, String)>)
    requires
        names_distinct(e),
    ensures
        entries_map(e).dom().len() == e.len(),
    decreases e.len(),
{
    if e.len() > 0 {
        let d = e.drop_last();
        lemma_map_len(d);
        lemma_map_keys(d);
        if entries_map(d).contains_key(e.last().0@) {
            let i = choose|i: int| 0 <= i < d.len() && d[i].0@ == e.last().0@;
            assert(e[i].0@ == e[e.len() - 1].0@);
        }
    }
}

proof fn lemma_map_update(e: Seq<(String, String)>, i: int, n: String, v: String)
    requires
        names_distinct(e),
        0 <= i < e.len(),
        n@ == e[i].0@,
    ensures
        names_distinct(e.update(i, (n, v))),
        entries_map(e.update(i, (n, v))) == entries_map(e).insert(e[i].0@, v@),
{
    let f = e.update(i, (n, v));
    assert(names_distinct(f)) by {
        assert forall|a: int, b: int| 0 <= a < b < f.len() implies f[a].0@ != f[b].0@ by {
            assert(f[a].0@ == e[a].0@ && f[b].0@ == e[b].0@);
        }
    }
    lemma_map_keys(e);
    lemma_map_keys(f);
    let m = entries_map(e).insert(e[i].0@, v@);
    assert forall|k: Seq<char>| #[trigger] entries_map(f).contains_key(k) <==> m.contains_key(k) by {
        if entries_map(f).contains_key(k) {
            let j = choose|j: int| 0 <= j < f.len() && f[j].0@ == k;
            assert(e[j].0@ == k);
        }
        if entries_map(e).contains_key(k) {
            let j = choose|j: int| 0 <= j < e.len() && e[j].0@ == k;
            assert(f[j].0@ == k);
        }
        if k == e[i].0@ {
            assert(f[i].0@ == k);
        }
    }
    assert forall|k: Seq<char>| #[trigger] entries_map(f).contains_key(k) implies entries_map(f)[k]
        == m[k] by {
        let j = choose|j: int| 0 <= j < f.len() && f[j].0@ == k;
        lemma_map_value(f, j);
        if j != i {
            assert(e[j] == f[j]);
            lemma_map_value(e, j);
        }
    }
    assert(entries_map(f) =~= m);
}

/// Attribute names mapped to their values; each name appears once.
#[derive(Debug)]
pub struct Attributes {
    entries: Vec<(String, String)>,
}

impl View for Attributes {
    type V = Map<Seq<char>, Seq<char>>;

    closed spec fn view(&self) -> Map<Seq<char>, Seq<char>> {
        entries_map(self.entries@)
    }
}

impl Attributes {
    #[verifier::type_invariant]
    closed spec fn inv(&self) -> bool {
        names_distinct(self.entries@)
    }

    /// An empty map.
    pub fn new() -> (r: Attributes)
        ensures
            r@ == Map::<Seq<char>, Seq<char>>::empty(),
    {
        Attributes { entries: Vec::new() }
    }

    /// Index of the entry named `name`, if there is one.
    fn position(&self, name: &String) -> (r: Option<usize>)
        ensures
            match r {
                Some(i) => i < self.entries@.len() && self.entries@[i as int].0@ == name@,
                None => !self@.contains_key(name@),
            },
    {
        proof {
            lemma_map_keys(self.entries@);
        }
        let mut i: usize = 0;
        while i < self.entries.len()
            invariant
                i <= self.entries@.len(),
                forall|j: int| 0 <= j < i ==> self.entries@[j].0@ != name@,
            decreases self.entries@.len() - i,
        {
            if self.entries[i].0 == *name {
                return Some(i);
            }
            i += 1;
        }
        None
    }

    /// Sets `name` to `value`, replacing an earlier value of `name`.
    pub fn insert(&mut self, name: String, value: String)
        ensures
            final(self)@ == old(self)@.insert(name@, value@),
    {
        proof {
            use_type_invariant(&*self);
        }
        match self.position(&name) {
            Some(i) => {
                proof {
                    lemma_map_update(self.entries@, i as int, name, value);
                }
                let mut entries: Vec<(String, String)> = Vec::new();
                std::mem::swap(&mut self.entries, &mut entries);
                entries.set(i, (name, value));
                self.entries = entries;
            },
            None => {
                proof {
                    lemma_map_keys(self.entries@);
                    let e = self.entries@.push((name, value));
                    assert(e.drop_last() =~= self.entries@);
                    assert forall|a: int, b: int| 0 <= a < b < e.len() implies e[a].0@
                        != e[b].0@ by {
                        if b == e.len() - 1 {
                            assert(self.entries@[a].0@ == e[a].0@);
                        }
                    }
                }
                let mut entries: Vec<(String, String)> = Vec::new();
                std::mem::swap(&mut self.entries, &mut entries);
                entries.push((name, value));
                self.entries = entries;
            },
        }
    }

    /// The value of `name`, if the map holds it.
    pub fn get(&self, name: &str) -> (r: Option<&String>)
        ensures
            r is Some <==> self@.contains_key(name@),
            r matches Some(v) ==> v@ == self@[name@],
    {
        proof {
            use_type_invariant(self);
        }
        let key = name.to_owned();
        match self.position(&key) {
            Some(i) => {
                proof {
                    lemma_map_value(self.entries@, i as int);
                }
                Some(&self.entries[i].1)
            },
            None => None,
        }
    }

    /// Number of names in the map.
    pub fn len(&self) -> (r: usize)
        ensures
            r == self@.len(),
    {
        proof {
            use_type_invariant(self);
            lemma_map_len(self.entries@);
        }
        self.entries.len()
    }

    /// Whether the map holds no name.
    pub fn is_empty(&self) -> (r: bool)
        ensures
            r <==> self@ == Map::<Seq<char>, Seq<char>>::empty(),
    {
        proof {
            use_type_invariant(self);
            lemma_map_len(self.entries@);
            lemma_map_keys(self.entries@);
            if self.entries@.len() > 0 {
                lemma_map_value(self.entries@, 0);
            } else {
                assert(self@ =~= Map::<Seq<char>, Seq<char>>::empty());
            }
        }
        self.entries.len() == 0
    }

    /// Whether both maps hold the same names with the same values.
    pub fn same_as(&self, other: &Attributes) -> (r: bool)
        ensures
            r <==> self@ == other@,
    {
        proof {
            use_type_invariant(self);
            use_type_invariant(other);
            lemma_map_len(self.entries@);
            lemma_map_len(other.entries@);
            lemma_map_keys(self.entries@);
            lemma_map_keys(other.entries@);
        }
        if self.entries.len() != other.entries.len() {
            return false;
        }
        let mut i: usize = 0;
        while i < self.entries.len()
            invariant
                i <= self.entries@.len(),
                self.entries@.len() == other.entries@.len(),
                names_distinct(self.entries@),
                forall|j: int|
                    0 <= j < i ==> other@.contains_key(#[trigger] self.entries@[j].0@)
                        && other@[self.entries@[j].0@] == self.entries@[j].1@,
            decreases self.entries@.len() - i,
        {
            proof {
                lemma_map_value(self.entries@, i as int);
            }
            match other.get(self.entries[i].0.as_str()) {
                Some(v) => {
                    if *v != self.entries[i].1 {
                        return false;
                    }
                },
                None => {
                    return false;
                },
            }
            i += 1;
        }
        proof {
            let a = self@;
            let b = other@;
            assert(a.dom().subset_of(b.dom())) by {
                assert forall|k: Seq<char>| a.contains_key(k) implies b.contains_key(k) by {
                    let j = choose|j: int| 0 <= j < self.entries@.len() && self.entries@[j].0@ == k;
                    assert(self.entries@[j].0@ == k);
                }
            }
            lemma_subset_equality(a.dom(), b.dom());
            assert forall|k: Seq<char>| a.contains_key(k) implies a[k] == b[k] by {
                let j = choose|j: int| 0 <= j < self.entries@.len() && self.entries@[j].0@ == k;
                lemma_map_value(self.entries@, j);
            }
            assert(a =~= b);
        }
        true
    }
}

impl PartialEq for Attributes {
    fn eq(&self, other: &Attributes) -> (r: bool) {
        self.same_as(other)
    }
}

impl vstd::std_specs::cmp::PartialEqSpecImpl for Attributes {
    open spec fn obeys_eq_spec() -> bool {
        true
    }

    open spec fn eq_spec(&self, other: &Attributes) -> bool {
        self@ == other@
    }
}

} // verus!
