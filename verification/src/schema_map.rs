//! A map from collection names to schemas.
use vstd::prelude::*;

verus! {

/// The names of a sequence of entries, in order.
pub open spec fn entry_names<S>(entries: Seq<(String, S)>) -> Seq<Seq<char>> {
    entries.map_values(|e: (String, S)| e.0@)
}

/// `entries` lists the map `m`: each name once, with its value in `m`, and
/// every name of `m`.
pub open spec fn lists_map<S>(entries: Seq<(String, S)>, m: Map<Seq<char>, S>) -> bool {
    &&& entry_names(entries).no_duplicates()
    &&& m.dom() == entry_names(entries).to_set()
    &&& forall|i: int| 0 <= i < entries.len() ==> m[#[trigger] entries[i].0@] == entries[i].1
}

/// A map from collection names to schemas. Inserting a name that is already
/// present replaces its schema.
pub struct SchemaMap<S> {
    entries: Vec<(String, S)>,
    map: Ghost<Map<Seq<char>, S>>,
}

impl<S> View for SchemaMap<S> {
    type V = Map<Seq<char>, S>;

    closed spec fn view(&self) -> Map<Seq<char>, S> {
        self.map@
    }
}

impl<S> SchemaMap<S> {
    #[verifier::type_invariant]
    spec fn inv(self) -> bool {
        lists_map(self.entries@, self.map@)
    }

    /// The empty map.
    pub fn new() -> (m: Self)
        ensures
            m@ == Map::<Seq<char>, S>::empty(),
    {
        let entries: Vec<(String, S)> = Vec::new();
        assert(entry_names(entries@).to_set() =~= Set::empty());
        SchemaMap { entries, map: Ghost(Map::empty()) }
    }

    /// The number of names in the map.
    pub fn len(&self) -> (n: usize)
        ensures
            n == self@.len(),
    {
        proof {
            use_type_invariant(self);
            entry_names(self.entries@).unique_seq_to_set();
        }
        self.entries.len()
    }

    /// The position of `name` among the entries, if it is there.
    fn position(&self, name: &String) -> (r: Option<usize>)
        ensures
            match r {
                Some(i) => i < self.entries@.len() && self.entries@[i as int].0@ == name@,
                None => !self@.contains_key(name@),
            },
    {
        proof {
            use_type_invariant(self);
        }
        let n = self.entries.len();
        for i in 0..n
            invariant
                n == self.entries@.len(),
                lists_map(self.entries@, self.map@),
                forall|j: int| 0 <= j < i ==> self.entries@[j].0@ != name@,
        {
            if self.entries[i].0 == *name {
                return Some(i);
            }
        }
        proof {
            if self@.contains_key(name@) {
                let names = entry_names(self.entries@);
                assert(names.to_set().contains(name@));
                let j = choose|j: int| 0 <= j < names.len() && names[j] == name@;
                assert(self.entries@[j].0@ == name@);
            }
        }
        None
    }

    /// The schema of `name`, if the map has one.
    pub fn get(&self, name: &String) -> (r: Option<&S>)
        ensures
            match r {
                Some(v) => self@.contains_key(name@) && *v == self@[name@],
                None => !self@.contains_key(name@),
            },
    {
        proof {
            use_type_invariant(self);
        }
        match self.position(name) {
            Some(i) => {
                assert(entry_names(self.entries@)[i as int] == name@);
                assert(entry_names(self.entries@).to_set().contains(name@));
                assert(self@[self.entries@[i as int].0@] == self.entries@[i as int].1);
                Some(&self.entries[i].1)
            },
            None => None,
        }
    }

    /// Maps `name` to `schema`, in place of any schema it had.
    pub fn insert(&mut self, name: String, schema: S)
        ensures
            final(self)@ == old(self)@.insert(name@, schema),
    {
        proof {
            use_type_invariant(&*self);
        }
        let found = self.position(&name);
        let mut taken = SchemaMap::new();
        std::mem::swap(self, &mut taken);
        proof {
            use_type_invariant(&taken);
        }
        let SchemaMap { mut entries, map } = taken;
        let ghost old_entries = entries@;
        let ghost new_map = map@.insert(name@, schema);
        match found {
            Some(i) => {
                entries.set(i, (name, schema));
                proof {
                    let names = entry_names(old_entries);
                    assert(entry_names(entries@) =~= names);
                    assert forall|j: int| 0 <= j < entries@.len() implies new_map[
                        #[trigger] entries@[j].0@] == entries@[j].1 by {
                        if j != i {
                            assert(names[j] != names[i as int]);
                        }
                    }
                    assert(names[i as int] == name@);
                    assert(names.to_set().contains(name@));
                    assert(new_map.dom() =~= names.to_set());
                }
            },
            None => {
                entries.push((name, schema));
                proof {
                    let names = entry_names(old_entries);
                    assert(entry_names(entries@) =~= names.push(name@));
                    assert(!names.contains(name@));
                    assert(names.push(name@).no_duplicates());
                    assert forall|x: Seq<char>| #[trigger] names.push(name@).to_set().contains(x)
                        <==> names.to_set().insert(name@).contains(x) by {
                        if names.to_set().contains(x) && x != name@ {
                            let k = choose|k: int| 0 <= k < names.len() && names[k] == x;
                            assert(names.push(name@)[k] == x);
                        }
                        if names.push(name@).to_set().contains(x) && x != name@ {
                            let k = choose|k: int| 0 <= k < names.len() + 1 && names.push(name@)[k] == x;
                            assert(names[k] == x);
                        }
                        if x == name@ {
                            assert(names.push(name@)[names.len() as int] == x);
                        }
                    }
                    assert(new_map.dom() =~= names.push(name@).to_set());
                    assert forall|j: int| 0 <= j < entries@.len() implies new_map[
                        #[trigger] entries@[j].0@] == entries@[j].1 by {
                        if j < old_entries.len() {
                            assert(entries@[j] == old_entries[j]);
                            assert(names[j] == old_entries[j].0@);
                        }
                    }
                }
            },
        }
        *self = SchemaMap { entries, map: Ghost(new_map) };
    }

    /// The entries of the map, each name once, with its schema.
    pub fn into_entries(self) -> (entries: Vec<(String, S)>)
        ensures
            lists_map(entries@, self@),
    {
        proof {
            use_type_invariant(&self);
        }
        let SchemaMap { entries, map } = self;
        entries
    }
}

} // verus!
