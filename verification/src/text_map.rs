//! A map from text to text, kept in the order of its names.
use vstd::prelude::*;

use crate::text::{
    lemma_precedes_irreflexive, lemma_precedes_transitive, place, precedes, Place,
};

verus! {

/// Names with their values: each name once, the names in ascending byte order.
#[derive(Debug, PartialEq, Eq)]
pub struct TextMap {
    entries: Vec<(String, String)>,
}

/// Whether the names stand in strictly ascending order.
spec fn ascending(entries: Seq<(String, String)>) -> bool {
    forall|i: int, j: int|
        0 <= i < j < entries.len() ==> precedes(#[trigger] entries[i].0@, #[trigger] entries[j].0@)
}

/// Whether `name` stands at position `at`.
spec fn named(entries: Seq<(String, String)>, at: int, name: Seq<char>) -> bool {
    0 <= at < entries.len() && entries[at].0@ == name
}

/// The map that a list of entries stands for.
spec fn map_of(entries: Seq<(String, String)>) -> Map<Seq<char>, Seq<char>> {
    Map::new(
        |name: Seq<char>| exists|i: int| named(entries, i, name),
        |name: Seq<char>| entries[choose|i: int| named(entries, i, name)].1@,
    )
}

proof fn lemma_entry(entries: Seq<(String, String)>, at: int)
    requires
        ascending(entries),
        0 <= at < entries.len(),
    ensures
        map_of(entries).contains_key(entries[at].0@),
        map_of(entries)[entries[at].0@] == entries[at].1@,
{
    let name = entries[at].0@;
    assert(named(entries, at, name));
    let found = choose|i: int| named(entries, i, name);
    lemma_precedes_irreflexive(name);
    if found < at {
        assert(precedes(entries[found].0@, entries[at].0@));
    } else if at < found {
        assert(precedes(entries[at].0@, entries[found].0@));
    }
}

/// Whether two maps say the same of `name`.
spec fn agree(
    a: Map<Seq<char>, Seq<char>>,
    b: Map<Seq<char>, Seq<char>>,
    name: Seq<char>,
) -> bool {
    a.contains_key(name) == b.contains_key(name) && (a.contains_key(name) ==> a[name] == b[name])
}

proof fn lemma_agree_everywhere(a: Map<Seq<char>, Seq<char>>, b: Map<Seq<char>, Seq<char>>)
    requires
        forall|name: Seq<char>| #[trigger] agree(a, b, name),
    ensures
        a == b,
{
    assert forall|name: Seq<char>| a.dom().contains(name) == b.dom().contains(name) by {
        assert(agree(a, b, name));
    }
    assert forall|name: Seq<char>| a.dom().contains(name) implies a[name] == b[name] by {
        assert(agree(a, b, name));
    }
    assert(a =~= b);
}

impl View for TextMap {
    type V = Map<Seq<char>, Seq<char>>;

    closed spec fn view(&self) -> Map<Seq<char>, Seq<char>> {
        map_of(self.entries@)
    }
}

impl TextMap {
    #[verifier::type_invariant]
    spec fn well_formed(self) -> bool {
        ascending(self.entries@)
    }

    /// The names, in order.
    pub closed spec fn names(&self) -> Seq<Seq<char>> {
        Seq::new(self.entries@.len(), |i: int| self.entries@[i].0@)
    }

    /// The empty map.
    pub fn new() -> (map: TextMap)
        ensures
            map@ == Map::<Seq<char>, Seq<char>>::empty(),
    {
        let map = TextMap { entries: Vec::new() };
        assert(map@ =~= Map::<Seq<char>, Seq<char>>::empty());
        map
    }

    /// Where `name` stands, or, where it does not occur, where it would.
    fn seek(&self, name: &str) -> (sought: (usize, bool))
        ensures
            sought.0 <= self.entries@.len(),
            sought.1 == self@.contains_key(name@),
            sought.1 ==> named(self.entries@, sought.0 as int, name@),
            forall|i: int| 0 <= i < sought.0 ==> precedes(#[trigger] self.entries@[i].0@, name@),
            !sought.1 ==> forall|i: int|
                sought.0 <= i < self.entries@.len() ==> precedes(
                    name@,
                    #[trigger] self.entries@[i].0@,
                ),
    {
        proof {
            use_type_invariant(self);
        }
        let mut at: usize = 0;
        while at < self.entries.len()
            invariant
                at <= self.entries@.len(),
                ascending(self.entries@),
                forall|i: int| 0 <= i < at ==> precedes(#[trigger] self.entries@[i].0@, name@),
            decreases self.entries@.len() - at,
        {
            match place(self.entries[at].0.as_str(), name) {
                Place::Before => {},
                Place::Same => {
                    proof {
                        lemma_entry(self.entries@, at as int);
                    }
                    return (at, true);
                },
                Place::After => {
                    proof {
                        assert forall|i: int| at <= i < self.entries@.len() implies precedes(
                            name@,
                            #[trigger] self.entries@[i].0@,
                        ) by {
                            if at < i {
                                lemma_precedes_transitive(
                                    name@,
                                    self.entries@[at as int].0@,
                                    self.entries@[i].0@,
                                );
                            }
                        }
                        self.lemma_absent(name@, at as int);
                    }
                    return (at, false);
                },
            }
            at += 1;
        }
        proof {
            self.lemma_absent(name@, at as int);
        }
        (at, false)
    }

    proof fn lemma_absent(&self, name: Seq<char>, at: int)
        requires
            0 <= at <= self.entries@.len(),
            forall|i: int| 0 <= i < at ==> precedes(#[trigger] self.entries@[i].0@, name),
            forall|i: int|
                at <= i < self.entries@.len() ==> precedes(name, #[trigger] self.entries@[i].0@),
        ensures
            !self@.contains_key(name),
    {
        lemma_precedes_irreflexive(name);
        assert forall|i: int| !named(self.entries@, i, name) by {
            if named(self.entries@, i, name) {
                if i < at {
                    assert(precedes(self.entries@[i].0@, name));
                } else {
                    assert(precedes(name, self.entries@[i].0@));
                }
            }
        }
    }

    /// The value of `name`.
    pub fn get(&self, name: &str) -> (value: Option<&String>)
        ensures
            match value {
                Some(value) => self@.contains_key(name@) && value@ == self@[name@],
                None => !self@.contains_key(name@),
            },
    {
        let (at, found) = self.seek(name);
        if found {
            proof {
                use_type_invariant(self);
                lemma_entry(self.entries@, at as int);
            }
            Some(&self.entries[at].1)
        } else {
            None
        }
    }

    /// Whether `name` has a value.
    pub fn contains_key(&self, name: &str) -> (yes: bool)
        ensures
            yes == self@.contains_key(name@),
    {
        let (_, found) = self.seek(name);
        found
    }

    /// Gives `name` the value `value`, in place of the one it had.
    pub fn insert(&mut self, name: String, value: String)
        ensures
            final(self)@ == old(self)@.insert(name@, value@),
    {
        let (at, found) = self.seek(name.as_str());
        let ghost before = self.entries@;
        let ghost name_view = name@;
        let ghost value_view = value@;
        proof {
            use_type_invariant(&*self);
        }
        let mut entries: Vec<(String, String)> = Vec::new();
        std::mem::swap(&mut entries, &mut self.entries);
        if found {
            let _ = entries.remove(at);
        }
        let ghost kept = entries@;
        entries.insert(at, (name, value));
        proof {
            let after = entries@;
            assert forall|i: int| at <= i < kept.len() implies precedes(
                name_view,
                #[trigger] kept[i].0@,
            ) by {
                if found {
                    assert(precedes(before[at as int].0@, before[i + 1].0@));
                }
            }
            assert forall|i: int, j: int| 0 <= i < j < after.len() implies precedes(
                #[trigger] after[i].0@,
                #[trigger] after[j].0@,
            ) by {
                let p = if i < at { i } else if found { i } else { i - 1 };
                let q = if j < at { j } else if found { j } else { j - 1 };
                if i < at {
                    assert(after[i] == before[i]);
                }
                if i > at {
                    assert(after[i] == kept[i - 1]);
                    assert(after[i] == before[p]);
                }
                if j < at {
                    assert(after[j] == before[j]);
                }
                if j > at {
                    assert(after[j] == kept[j - 1]);
                    assert(after[j] == before[q]);
                }
                if i != at && j != at {
                    assert(precedes(before[p].0@, before[q].0@));
                }
            }
            let goal = map_of(before).insert(name_view, value_view);
            assert forall|n: Seq<char>| #[trigger] agree(map_of(after), goal, n) by {
                if map_of(after).contains_key(n) {
                    let i = choose|i: int| named(after, i, n);
                    lemma_entry(after, i);
                    if i != at {
                        let p = if i < at { i } else if found { i } else { i - 1 };
                        assert(after[i] == before[p]);
                        lemma_entry(before, p);
                        lemma_precedes_irreflexive(n);
                        if i < at {
                            assert(precedes(after[i].0@, after[at as int].0@));
                        } else {
                            assert(precedes(after[at as int].0@, after[i].0@));
                        }
                    }
                }
                if map_of(before).contains_key(n) && n != name_view {
                    let p = choose|i: int| named(before, i, n);
                    let i = if p < at { p } else if found { p } else { p + 1 };
                    assert(after[i] == before[p]);
                    lemma_entry(after, i);
                }
                if n == name_view {
                    lemma_entry(after, at as int);
                }
            }
            lemma_agree_everywhere(map_of(after), goal);
        }
        self.entries = entries;
    }

    /// Gives `name` the value `value` unless it has one.
    pub fn insert_if_absent(&mut self, name: String, value: String)
        ensures
            final(self)@ == if old(self)@.contains_key(name@) {
                old(self)@
            } else {
                old(self)@.insert(name@, value@)
            },
    {
        if !self.contains_key(name.as_str()) {
            self.insert(name, value);
        }
    }

    /// Takes `name` out of the map.
    pub fn remove(&mut self, name: &str)
        ensures
            final(self)@ == old(self)@.remove(name@),
    {
        let (at, found) = self.seek(name);
        if found {
            let ghost before = self.entries@;
            proof {
                use_type_invariant(&*self);
            }
            let mut entries: Vec<(String, String)> = Vec::new();
            std::mem::swap(&mut entries, &mut self.entries);
            let _ = entries.remove(at);
            proof {
                let after = entries@;
                assert forall|i: int, j: int| 0 <= i < j < after.len() implies precedes(
                    #[trigger] after[i].0@,
                    #[trigger] after[j].0@,
                ) by {
                    let p = if i < at { i } else { i + 1 };
                    let q = if j < at { j } else { j + 1 };
                    assert(precedes(before[p].0@, before[q].0@));
                }
                let goal = map_of(before).remove(name@);
                assert forall|n: Seq<char>| #[trigger] agree(map_of(after), goal, n) by {
                    if map_of(after).contains_key(n) {
                        let i = choose|i: int| named(after, i, n);
                        let p = if i < at { i } else { i + 1 };
                        assert(after[i] == before[p]);
                        lemma_entry(after, i);
                        lemma_entry(before, p);
                        lemma_precedes_irreflexive(n);
                        if p < at {
                            assert(precedes(before[p].0@, before[at as int].0@));
                        } else {
                            assert(precedes(before[at as int].0@, before[p].0@));
                        }
                    }
                    if map_of(before).contains_key(n) && n != name@ {
                        let p = choose|i: int| named(before, i, n);
                        let i = if p < at { p } else { p - 1 };
                        assert(after[i] == before[p]);
                        lemma_entry(after, i);
                    }
                }
                lemma_agree_everywhere(map_of(after), goal);
            }
            self.entries = entries;
        } else {
            assert(self@.remove(name@) =~= self@);
        }
    }

    /// The number of names.
    pub fn len(&self) -> (count: usize)
        ensures
            count == self.names().len(),
            forall|i: int, j: int|
                0 <= i < j < count ==> precedes(
                    #[trigger] self.names()[i],
                    #[trigger] self.names()[j],
                ),
            forall|name: Seq<char>|
                self@.contains_key(name) <==> #[trigger] self.names().contains(name),
    {
        proof {
            use_type_invariant(self);
            assert forall|name: Seq<char>|
                self@.contains_key(name) <==> #[trigger] self.names().contains(name) by {
                if self@.contains_key(name) {
                    let i = choose|i: int| named(self.entries@, i, name);
                    assert(self.names()[i] == name);
                }
                if self.names().contains(name) {
                    let i = choose|i: int| 0 <= i < self.names().len() && self.names()[i] == name;
                    assert(named(self.entries@, i, name));
                }
            }
        }
        self.entries.len()
    }

    /// The name at position `at`, and its value.
    pub fn entry(&self, at: usize) -> (entry: (&String, &String))
        requires
            at < self.names().len(),
        ensures
            entry.0@ == self.names()[at as int],
            self@.contains_key(entry.0@),
            entry.1@ == self@[entry.0@],
    {
        proof {
            use_type_invariant(self);
            lemma_entry(self.entries@, at as int);
        }
        (&self.entries[at].0, &self.entries[at].1)
    }
}

impl Clone for TextMap {
    fn clone(&self) -> (copy: TextMap)
        ensures
            copy@ == self@,
            copy.names() == self.names(),
    {
        proof {
            use_type_invariant(self);
        }
        let mut entries: Vec<(String, String)> = Vec::new();
        let mut i: usize = 0;
        while i < self.entries.len()
            invariant
                i <= self.entries@.len(),
                entries@ == self.entries@.take(i as int),
            decreases self.entries@.len() - i,
        {
            entries.push((self.entries[i].0.clone(), self.entries[i].1.clone()));
            assert(entries@ =~= self.entries@.take(i + 1));
            i += 1;
        }
        assert(entries@ =~= self.entries@);
        TextMap { entries }
    }
}

} // verus!
