//! A table with one entry per function, kept in the order in which the functions came.
use vstd::hash_map::StringHashMap;
use vstd::prelude::*;

verus! {

/// Maps names to values and keeps the names in the order of their first insertion.
/// No name occurs twice.
#[verifier::reject_recursive_types(T)]
pub struct FunctionTable<T> {
    entries: Vec<(String, T)>,
    index: StringHashMap<usize>,
}

/// The names and values of a list of entries.
pub open spec fn entry_models<T>(entries: Seq<(String, T)>) -> Seq<(Seq<char>, T)> {
    entries.map_values(|entry: (String, T)| (entry.0@, entry.1))
}

/// Where `name` stands in a list of entries.
pub open spec fn entry_position<T>(entries: Seq<(Seq<char>, T)>, name: Seq<char>) -> Option<int> {
    if exists|i: int| 0 <= i < entries.len() && (#[trigger] entries[i]).0 == name {
        Some(choose|i: int| 0 <= i < entries.len() && (#[trigger] entries[i]).0 == name)
    } else {
        None
    }
}

/// No two entries have the same name.
pub open spec fn distinct_names<T>(entries: Seq<(Seq<char>, T)>) -> bool {
    forall|i: int, j: int|
        0 <= i < j < entries.len() ==> (#[trigger] entries[i]).0 != (#[trigger] entries[j]).0
}

/// The entries after `value` has been set for `name`: in place where the name is there already,
/// at the end where it is not.
pub open spec fn with_entry<T>(
    entries: Seq<(Seq<char>, T)>,
    name: Seq<char>,
    value: T,
) -> Seq<(Seq<char>, T)> {
    match entry_position(entries, name) {
        Some(i) => entries.update(i, (name, value)),
        None => entries.push((name, value)),
    }
}

/// In a list without repeated names the position of a name is unique.
pub proof fn lemma_entry_position<T>(entries: Seq<(Seq<char>, T)>, i: int)
    requires
        distinct_names(entries),
        0 <= i < entries.len(),
    ensures
        entry_position(entries, entries[i].0) == Some(i),
{
    let j = entry_position(entries, entries[i].0)->0;
    assert(0 <= j < entries.len() && entries[j].0 == entries[i].0);
    if i < j {
        assert(entries[i].0 != entries[j].0);
    } else if j < i {
        assert(entries[j].0 != entries[i].0);
    }
}

/// Setting an entry keeps the names distinct.
pub proof fn lemma_with_entry_distinct<T>(
    entries: Seq<(Seq<char>, T)>,
    name: Seq<char>,
    value: T,
)
    requires
        distinct_names(entries),
    ensures
        distinct_names(with_entry(entries, name, value)),
{
    let after = with_entry(entries, name, value);
    match entry_position(entries, name) {
        Some(k) => {
            assert forall|i: int, j: int| 0 <= i < j < after.len() implies (
            #[trigger] after[i]).0 != (#[trigger] after[j]).0 by {
                assert(entries[i].0 != entries[j].0);
            }
        },
        None => {
            assert forall|i: int, j: int| 0 <= i < j < after.len() implies (
            #[trigger] after[i]).0 != (#[trigger] after[j]).0 by {
                if j < entries.len() {
                    assert(entries[i].0 != entries[j].0);
                } else {
                    assert(entries[i].0 != name);
                }
            }
        },
    }
}

/// What has been set for a name is found under it. What stands under other names, and where, is
/// not changed.
pub proof fn lemma_with_entry_found<T>(entries: Seq<(Seq<char>, T)>, name: Seq<char>, value: T)
    requires
        distinct_names(entries),
    ensures
        ({
            let after = with_entry(entries, name, value);
            &&& entry_position(after, name) is Some
            &&& after[entry_position(after, name)->0] == (name, value)
            &&& forall|other: Seq<char>|
                other != name ==> #[trigger] entry_position(after, other) == entry_position(
                    entries,
                    other,
                )
            &&& forall|i: int|
                0 <= i < entries.len() && (#[trigger] entries[i]).0 != name ==> after[i]
                    == entries[i]
        }),
{
    let after = with_entry(entries, name, value);
    lemma_with_entry_distinct(entries, name, value);
    let at = match entry_position(entries, name) {
        Some(i) => i,
        None => entries.len() as int,
    };
    assert(after[at] == (name, value));
    lemma_entry_position(after, at);
    assert forall|other: Seq<char>| other != name implies #[trigger] entry_position(after, other)
        == entry_position(entries, other) by {
        match entry_position(entries, other) {
            Some(i) => {
                assert(after[i].0 == other);
                lemma_entry_position(after, i);
            },
            None => {
                assert forall|i: int| 0 <= i < after.len() implies (#[trigger] after[i]).0
                    != other by {
                    if i < entries.len() {
                        assert(entries[i].0 != other);
                    }
                }
            },
        }
    }
}

/// The entries with another value for each name.
pub open spec fn mapped_entries<A, B>(
    entries: Seq<(Seq<char>, A)>,
    f: spec_fn(A) -> B,
) -> Seq<(Seq<char>, B)> {
    entries.map_values(|entry: (Seq<char>, A)| (entry.0, f(entry.1)))
}

/// The position of a name depends on the names alone.
pub proof fn lemma_mapped_position<A, B>(
    entries: Seq<(Seq<char>, A)>,
    f: spec_fn(A) -> B,
    name: Seq<char>,
)
    requires
        distinct_names(entries),
    ensures
        distinct_names(mapped_entries(entries, f)),
        entry_position(mapped_entries(entries, f), name) == entry_position(entries, name),
{
    let other = mapped_entries(entries, f);
    assert forall|i: int, j: int| 0 <= i < j < other.len() implies (#[trigger] other[i]).0 != (
    #[trigger] other[j]).0 by {
        assert(entries[i].0 != entries[j].0);
    }
    match entry_position(entries, name) {
        Some(i) => {
            assert(other[i].0 == name);
            lemma_entry_position(other, i);
        },
        None => {
            assert forall|i: int| 0 <= i < other.len() implies (#[trigger] other[i]).0 != name by {
                assert(entries[i].0 != name);
            }
        },
    }
}

/// Setting an entry and mapping the values can be done in either order.
pub proof fn lemma_mapped_with_entry<A, B>(
    entries: Seq<(Seq<char>, A)>,
    f: spec_fn(A) -> B,
    name: Seq<char>,
    value: A,
)
    requires
        distinct_names(entries),
    ensures
        mapped_entries(with_entry(entries, name, value), f) == with_entry(
            mapped_entries(entries, f),
            name,
            f(value),
        ),
{
    lemma_mapped_position(entries, f, name);
    assert(mapped_entries(with_entry(entries, name, value), f) =~= with_entry(
        mapped_entries(entries, f),
        name,
        f(value),
    ));
}

impl<T> View for FunctionTable<T> {
    type V = Seq<(Seq<char>, T)>;

    closed spec fn view(&self) -> Seq<(Seq<char>, T)> {
        entry_models(self.entries@)
    }
}

impl<T> FunctionTable<T> {
    #[verifier::type_invariant]
    spec fn well_formed(self) -> bool {
        &&& forall|i: int|
            0 <= i < self.entries@.len() ==> self.index@.contains_key(
                (#[trigger] self.entries@[i]).0@,
            ) && self.index@[self.entries@[i].0@] == i
        &&& forall|name: Seq<char>| #[trigger]
            self.index@.contains_key(name) ==> self.index@[name] < self.entries@.len()
                && self.entries@[self.index@[name] as int].0@ == name
    }

    /// An empty table.
    pub fn new() -> (res: Self)
        ensures
            res@ == Seq::<(Seq<char>, T)>::empty(),
    {
        let res = FunctionTable { entries: Vec::new(), index: StringHashMap::new() };
        assert(res@ =~= Seq::<(Seq<char>, T)>::empty());
        res
    }

    /// The number of entries. No two of them have the same name.
    pub fn len(&self) -> (res: usize)
        ensures
            res == self@.len(),
            distinct_names(self@),
    {
        proof {
            use_type_invariant(self);
            self.lemma_distinct();
        }
        self.entries.len()
    }

    /// The name of the entry at a position.
    pub fn name(&self, i: usize) -> (res: &str)
        requires
            i < self@.len(),
        ensures
            res@ == self@[i as int].0,
    {
        self.entries[i].0.as_str()
    }

    /// The value of the entry at a position.
    pub fn value(&self, i: usize) -> (res: &T)
        requires
            i < self@.len(),
        ensures
            *res == self@[i as int].1,
    {
        &self.entries[i].1
    }

    proof fn lemma_distinct(self)
        requires
            self.well_formed(),
        ensures
            distinct_names(self@),
    {
        assert forall|i: int, j: int| 0 <= i < j < self@.len() implies (#[trigger] self@[i]).0 != (
        #[trigger] self@[j]).0 by {
            assert(self.index@[self.entries@[i].0@] == i);
            assert(self.index@[self.entries@[j].0@] == j);
        }
    }

    /// Where a name stands.
    pub fn position(&self, name: &str) -> (res: Option<usize>)
        ensures
            distinct_names(self@),
            match res {
                Some(i) => {
                    &&& i < self@.len()
                    &&& self@[i as int].0 == name@
                    &&& entry_position(self@, name@) == Some(i as int)
                },
                None => entry_position(self@, name@) is None,
            },
    {
        proof {
            use_type_invariant(self);
            self.lemma_distinct();
        }
        match self.index.get(name) {
            Some(i) => {
                proof {
                    lemma_entry_position(self@, *i as int);
                }
                Some(*i)
            },
            None => {
                proof {
                    assert forall|i: int| 0 <= i < self@.len() implies (#[trigger] self@[i]).0
                        != name@ by {
                        assert(self.index@.contains_key(self.entries@[i].0@));
                    }
                }
                None
            },
        }
    }

    /// Sets the value for a name.
    pub fn insert(&mut self, name: String, value: T)
        ensures
            final(self)@ == with_entry(old(self)@, name@, value),
            distinct_names(final(self)@),
    {
        let mut whole = FunctionTable::new();
        std::mem::swap(self, &mut whole);
        let ghost before = whole@;
        let found = whole.position(name.as_str());
        proof {
            use_type_invariant(&whole);
            lemma_with_entry_distinct(before, name@, value);
        }
        let FunctionTable { mut entries, mut index } = whole;
        let ghost old_entries = entries@;
        let ghost old_index = index@;
        match found {
            Some(i) => {
                let key = name.clone();
                entries.set(i, (name, value));
                proof {
                    assert forall|k: int| 0 <= k < entries@.len() implies index@.contains_key(
                        (#[trigger] entries@[k]).0@,
                    ) && index@[entries@[k].0@] == k by {
                        assert(index@.contains_key(old_entries[k].0@));
                    }
                    assert(entry_models(entries@) =~= before.update(i as int, (key@, value)));
                }
            },
            None => {
                let at: usize = entries.len();
                index.insert(name.clone(), at);
                entries.push((name, value));
                proof {
                    assert forall|k: int| 0 <= k < entries@.len() implies index@.contains_key(
                        (#[trigger] entries@[k]).0@,
                    ) && index@[entries@[k].0@] == k by {
                        if k < at {
                            assert(old_index.contains_key(old_entries[k].0@));
                            assert(before[k].0 != name@);
                        }
                    }
                    assert(entry_models(entries@) =~= before.push((name@, value)));
                }
            },
        }
        *self = FunctionTable { entries, index };
    }
}

impl<T> FunctionTable<Vec<T>> {
    /// Adds an item to the list of the entry at a position.
    pub fn push_at(&mut self, i: usize, item: T)
        requires
            i < old(self)@.len(),
        ensures
            final(self)@.len() == old(self)@.len(),
            forall|k: int|
                0 <= k < final(self)@.len() ==> (#[trigger] final(self)@[k]).0 == old(self)@[k].0,
            forall|k: int|
                0 <= k < final(self)@.len() && k != i ==> (#[trigger] final(self)@[k]).1 == old(
                    self,
                )@[k].1,
            final(self)@[i as int].1@ == old(self)@[i as int].1@.push(item),
    {
        let mut whole = FunctionTable::new();
        std::mem::swap(self, &mut whole);
        proof {
            use_type_invariant(&whole);
        }
        let FunctionTable { mut entries, index } = whole;
        let ghost old_entries = entries@;
        entries[i].1.push(item);
        proof {
            assert forall|k: int| 0 <= k < entries@.len() implies index@.contains_key(
                (#[trigger] entries@[k]).0@,
            ) && index@[entries@[k].0@] == k by {
                assert(index@.contains_key(old_entries[k].0@));
            }
        }
        *self = FunctionTable { entries, index };
    }
}

} // verus!
