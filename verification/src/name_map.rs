use vstd::prelude::*;

verus! {

/// The map that a list of named entries stands for.
pub open spec fn entry_map<V>(es: Seq<(String, V)>) -> Map<Seq<char>, V>
    decreases es.len(),
{
    if es.len() == 0 {
        Map::empty()
    } else {
        entry_map(es.drop_last()).insert(es.last().0@, es.last().1)
    }
}

pub open spec fn names_distinct<V>(es: Seq<(String, V)>) -> bool {
    forall|i: int, j: int| 0 <= i < j < es.len() ==> (#[trigger] es[i]).0@ != (#[trigger] es[j]).0@
}

pub proof fn lemma_entry_map_dom<V>(es: Seq<(String, V)>, k: Seq<char>)
    ensures
        entry_map(es).contains_key(k) <==> exists|i: int| 0 <= i < es.len() && (#[trigger] es[i]).0@ == k,
    decreases es.len(),
{
    if es.len() > 0 {
        lemma_entry_map_dom(es.drop_last(), k);
        if entry_map(es.drop_last()).contains_key(k) {
            let i = choose|i: int| 0 <= i < es.drop_last().len() && (#[trigger] es.drop_last()[i]).0@ == k;
            assert(es[i] == es.drop_last()[i]);
        }
        if exists|i: int| 0 <= i < es.len() && (#[trigger] es[i]).0@ == k {
            let i = choose|i: int| 0 <= i < es.len() && (#[trigger] es[i]).0@ == k;
            if i < es.len() - 1 {
                assert(es.drop_last()[i] == es[i]);
            }
        }
    }
}

pub proof fn lemma_entry_map_at<V>(es: Seq<(String, V)>, i: int)
    requires
        names_distinct(es),
        0 <= i < es.len(),
    ensures
        entry_map(es).contains_key(es[i].0@),
        entry_map(es)[es[i].0@] == es[i].1,
    decreases es.len(),
{
    if i < es.len() - 1 {
        let d = es.drop_last();
        assert(d[i] == es[i]);
        assert(names_distinct(d)) by {
            assert forall|a: int, b: int| 0 <= a < b < d.len() implies (#[trigger] d[a]).0@ != (#[trigger] d[b]).0@ by {
                assert(d[a] == es[a] && d[b] == es[b]);
            }
        }
        lemma_entry_map_at(d, i);
        assert(es[i].0@ != es[es.len() - 1].0@);
    }
}

proof fn lemma_entry_map_update<V>(es: Seq<(String, V)>, i: int, e: (String, V))
    requires
        0 <= i < es.len(),
        es[i].0@ == e.0@,
    ensures
        entry_map(es.update(i, e)) == entry_map(es).insert(e.0@, e.1) || !names_distinct(es),
    decreases es.len(),
{
    if names_distinct(es) {
        let u = es.update(i, e);
        if i == es.len() - 1 {
            assert(u.drop_last() =~= es.drop_last());
            lemma_entry_map_dom(es.drop_last(), e.0@);
            assert(entry_map(u) =~= entry_map(es).insert(e.0@, e.1));
        } else {
            let d = es.drop_last();
            assert(u.drop_last() =~= d.update(i, e));
            assert(names_distinct(d)) by {
                assert forall|a: int, b: int| 0 <= a < b < d.len() implies (#[trigger] d[a]).0@ != (#[trigger] d[b]).0@ by {
                    assert(d[a] == es[a] && d[b] == es[b]);
                }
            }
            lemma_entry_map_update(d, i, e);
            assert(es[i].0@ != es[es.len() - 1].0@);
            assert(entry_map(u) =~= entry_map(es).insert(e.0@, e.1));
        }
    }
}

/// A map from names to values that keeps its entries in insertion order.
#[derive(Debug)]
pub struct NameMap<V> {
    pub entries: Vec<(String, V)>,
}

impl<V> NameMap<V> {
    /// No name occurs twice.
    pub open spec fn wf(&self) -> bool {
        names_distinct(self.entries@)
    }

    /// The map from names to values.
    pub open spec fn map(&self) -> Map<Seq<char>, V> {
        entry_map(self.entries@)
    }

    pub fn new() -> (r: NameMap<V>)
        ensures
            r.wf(),
            r.map() == Map::<Seq<char>, V>::empty(),
            r.entries@.len() == 0,
    {
        NameMap { entries: Vec::new() }
    }

    pub fn len(&self) -> (r: usize)
        requires
            self.wf(),
        ensures
            r == self.map().len(),
            r == self.entries@.len(),
    {
        proof {
            self.lemma_len();
        }
        self.entries.len()
    }

    proof fn lemma_len(&self)
        requires
            self.wf(),
        ensures
            self.map().len() == self.entries@.len(),
            self.map().dom().finite(),
        decreases self.entries@.len(),
    {
        self.lemma_len_of(self.entries@);
    }

    proof fn lemma_len_of(&self, es: Seq<(String, V)>)
        requires
            names_distinct(es),
        ensures
            entry_map(es).len() == es.len(),
            entry_map(es).dom().finite(),
        decreases es.len(),
    {
        if es.len() > 0 {
            let d = es.drop_last();
            assert(names_distinct(d)) by {
                assert forall|a: int, b: int| 0 <= a < b < d.len() implies (#[trigger] d[a]).0@ != (#[trigger] d[b]).0@ by {
                    assert(d[a] == es[a] && d[b] == es[b]);
                }
            }
            self.lemma_len_of(d);
            lemma_entry_map_dom(d, es.last().0@);
            if entry_map(d).contains_key(es.last().0@) {
                let i = choose|i: int| 0 <= i < d.len() && (#[trigger] d[i]).0@ == es.last().0@;
                assert(d[i] == es[i]);
            }
        }
    }

    /// The position of the entry named `name`.
    fn position(&self, name: &String) -> (r: Option<usize>)
        requires
            self.wf(),
        ensures
            r matches Some(i) ==> i < self.entries@.len() && self.entries@[i as int].0@ == name@,
            r is None ==> !self.map().contains_key(name@),
    {
        let mut i: usize = 0;
        while i < self.entries.len()
            invariant
                i <= self.entries@.len(),
                forall|j: int| 0 <= j < i ==> (#[trigger] self.entries@[j]).0@ != name@,
            decreases self.entries@.len() - i,
        {
            if self.entries[i].0 == *name {
                return Some(i);
            }
            i = i + 1;
        }
        proof {
            lemma_entry_map_dom(self.entries@, name@);
        }
        None
    }

    /// Sets the value stored under `name`, in place when the name is already
    /// there and as a new last entry otherwise.
    pub fn insert(&mut self, name: String, value: V)
        requires
            old(self).wf(),
        ensures
            final(self).wf(),
            final(self).map() == old(self).map().insert(name@, value),
            !old(self).map().contains_key(name@) ==> final(self).entries@ == old(self).entries@.push((name, value)),
            old(self).map().contains_key(name@) ==> exists|i: int| #![trigger old(self).entries@[i]]
                0 <= i < old(self).entries@.len() && old(self).entries@[i].0@ == name@
                && final(self).entries@ == old(self).entries@.update(i, (name, value)),
    {
        let ghost k = name@;
        match self.position(&name) {
            Some(i) => {
                let ghost es = self.entries@;
                let ghost pair = (name, value);
                self.entries.set(i, (name, value));
                proof {
                    assert(self.entries@ =~= es.update(i as int, pair));
                    assert(es[i as int].0@ == k);
                    lemma_entry_map_dom(es, k);
                    lemma_entry_map_update(es, i as int, (self.entries@[i as int]));
                    assert forall|a: int, b: int| 0 <= a < b < self.entries@.len() implies (
                    #[trigger] self.entries@[a]).0@ != (#[trigger] self.entries@[b]).0@ by {
                        assert(self.entries@[a].0@ == es[a].0@);
                        assert(self.entries@[b].0@ == es[b].0@);
                    }
                }
            },
            None => {
                let ghost es = self.entries@;
                proof {
                    lemma_entry_map_dom(es, k);
                }
                let ghost pair = (name, value);
                self.entries.push((name, value));
                proof {
                    assert(self.entries@ =~= es.push(pair));
                    assert(self.entries@.drop_last() =~= es);
                    assert forall|a: int, b: int| 0 <= a < b < self.entries@.len() implies (
                    #[trigger] self.entries@[a]).0@ != (#[trigger] self.entries@[b]).0@ by {
                        if b == es.len() {
                            assert(self.entries@[a] == es[a]);
                        } else {
                            assert(self.entries@[a] == es[a] && self.entries@[b] == es[b]);
                        }
                    }
                }
            },
        }
    }

    /// The value stored under `name`.
    pub fn get(&self, name: &str) -> (r: Option<&V>)
        requires
            self.wf(),
        ensures
            r matches Some(v) ==> self.map().contains_key(name@) && self.map()[name@] == *v,
            r is None ==> !self.map().contains_key(name@),
    {
        let key = name.to_owned();
        match self.position(&key) {
            Some(i) => {
                proof {
                    lemma_entry_map_at(self.entries@, i as int);
                }
                Some(&self.entries[i].1)
            },
            None => None,
        }
    }

    /// Whether a value is stored under `name`.
    pub fn contains_key(&self, name: &str) -> (r: bool)
        requires
            self.wf(),
        ensures
            r == self.map().contains_key(name@),
    {
        self.get(name).is_some()
    }
}

} // verus!
