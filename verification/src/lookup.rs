//! Lookups by name and by place.
use rustc_hash::{FxHashMap, FxHashSet};
use std::collections::HashMap;
use vstd::prelude::*;

verus! {

broadcast use vstd::std_specs::hash::group_hash_axioms;

/// The hasher of the `rustc_hash` crate.
#[verifier::external_type_specification]
#[verifier::external_body]
pub struct ExFxBuildHasher(rustc_hash::FxBuildHasher);

/// The positions that a map holds under each name.
pub uninterp spec fn positions(map: FxHashMap<String, Vec<usize>>) -> Map<Seq<char>, Seq<usize>>;

/// `FxHashMap::default`: a map that holds nothing.
#[verifier::external_body]
fn map_default() -> (r: FxHashMap<String, Vec<usize>>)
    ensures
        positions(r).dom() == Set::<Seq<char>>::empty(),
{
    FxHashMap::default()
}

/// `FxHashMap::insert`: from now on the name has the given positions, all others keep theirs.
#[verifier::external_body]
fn map_insert(map: &mut FxHashMap<String, Vec<usize>>, name: String, at: Vec<usize>)
    ensures
        positions(*final(map)) == positions(*old(map)).insert(name@, at@),
{
    map.insert(name, at);
}

/// `FxHashMap::remove`: takes a name with its positions out and hands these out.
#[verifier::external_body]
fn map_remove(map: &mut FxHashMap<String, Vec<usize>>, name: &str) -> (r: Option<Vec<usize>>)
    ensures
        positions(*final(map)) == positions(*old(map)).remove(name@),
        r is Some <==> positions(*old(map)).contains_key(name@),
        r is Some ==> r->0@ == positions(*old(map))[name@],
{
    map.remove(name)
}

/// `FxHashMap::get`: the positions of a name.
#[verifier::external_body]
fn map_get<'a>(map: &'a FxHashMap<String, Vec<usize>>, name: &str) -> (r: Option<&'a Vec<usize>>)
    ensures
        r is Some <==> positions(*map).contains_key(name@),
        r is Some ==> r->0@ == positions(*map)[name@],
{
    map.get(name)
}

/// For each name the positions that were added under it, in the order in which they came.
pub struct NameLookup {
    map: FxHashMap<String, Vec<usize>>,
}

impl NameLookup {
    /// The positions added under a name.
    pub closed spec fn at(&self, name: Seq<char>) -> Seq<usize> {
        if positions(self.map).contains_key(name) {
            positions(self.map)[name]
        } else {
            Seq::empty()
        }
    }

    /// A lookup without positions.
    pub fn new() -> (r: Self)
        ensures
            forall|n: Seq<char>| #[trigger] r.at(n) == Seq::<usize>::empty(),
    {
        NameLookup { map: map_default() }
    }

    /// Adds a position under a name.
    pub fn add(&mut self, name: &String, i: usize)
        ensures
            forall|n: Seq<char>| #[trigger]
                final(self).at(n) == if n == name@ {
                    old(self).at(n).push(i)
                } else {
                    old(self).at(n)
                },
    {
        let mut v: Vec<usize> = match map_remove(&mut self.map, name.as_str()) {
            Some(v) => v,
            None => Vec::new(),
        };
        v.push(i);
        map_insert(&mut self.map, name.clone(), v);
    }

    /// The positions added under a name; nothing where there are none.
    pub fn get(&self, name: &str) -> (r: Option<&Vec<usize>>)
        ensures
            match r {
                Some(v) => v@ == self.at(name@),
                None => self.at(name@).len() == 0,
            },
    {
        map_get(&self.map, name)
    }
}

/// The names that a set holds.
pub uninterp spec fn members(names: FxHashSet<String>) -> Set<Seq<char>>;

/// `FxHashSet::default`: a set that holds nothing.
#[verifier::external_body]
fn set_default() -> (r: FxHashSet<String>)
    ensures
        members(r) == Set::<Seq<char>>::empty(),
{
    FxHashSet::default()
}

/// `FxHashSet::insert`: from now on the set holds the name too.
#[verifier::external_body]
fn set_insert(names: &mut FxHashSet<String>, name: String)
    ensures
        members(*final(names)) == members(*old(names)).insert(name@),
{
    names.insert(name);
}

/// `FxHashSet::contains`: whether the set holds a name.
#[verifier::external_body]
fn set_contains(names: &FxHashSet<String>, name: &str) -> (r: bool)
    ensures
        r == members(*names).contains(name@),
{
    names.contains(name)
}

/// A set of names.
pub struct NameSet {
    names: FxHashSet<String>,
}

impl View for NameSet {
    type V = Set<Seq<char>>;

    closed spec fn view(&self) -> Set<Seq<char>> {
        members(self.names)
    }
}

impl NameSet {
    /// The set without names.
    pub fn new() -> (r: Self)
        ensures
            r@ == Set::<Seq<char>>::empty(),
    {
        NameSet { names: set_default() }
    }

    /// Adds a name.
    pub fn insert(&mut self, name: &String)
        ensures
            final(self)@ == old(self)@.insert(name@),
    {
        set_insert(&mut self.names, name.clone());
    }

    /// Whether a name is in the set.
    pub fn contains(&self, name: &str) -> (r: bool)
        ensures
            r == self@.contains(name@),
    {
        set_contains(&self.names, name)
    }
}

/// A set of places, each a line and a column.
pub struct LocationSet {
    columns: HashMap<usize, Vec<usize>>,
}

impl View for LocationSet {
    type V = Set<(usize, usize)>;

    closed spec fn view(&self) -> Set<(usize, usize)> {
        Set::new(
            |p: (usize, usize)|
                self.columns@.contains_key(p.0) && self.columns@[p.0]@.contains(p.1),
        )
    }
}

impl LocationSet {
    /// The set without places.
    pub fn new() -> (r: Self)
        ensures
            r@ == Set::<(usize, usize)>::empty(),
    {
        let r = LocationSet { columns: HashMap::new() };
        assert(r@ =~= Set::<(usize, usize)>::empty());
        r
    }

    /// Whether a place is in the set.
    pub fn contains(&self, line: usize, column: usize) -> (r: bool)
        ensures
            r == self@.contains((line, column)),
    {
        match self.columns.get(&line) {
            Some(v) => {
                let mut i: usize = 0;
                while i < v.len()
                    invariant
                        i <= v@.len(),
                        self.columns@.contains_key(line),
                        self.columns@[line] == *v,
                        forall|j: int| 0 <= j < i ==> v@[j] != column,
                    decreases v@.len() - i,
                {
                    if v[i] == column {
                        assert(v@.contains(column));
                        return true;
                    }
                    i = i + 1;
                }
                assert(!v@.contains(column));
                false
            },
            None => false,
        }
    }

    /// Adds a place.
    pub fn insert(&mut self, line: usize, column: usize)
        ensures
            final(self)@ == old(self)@.insert((line, column)),
    {
        let mut v: Vec<usize> = match self.columns.remove(&line) {
            Some(v) => v,
            None => Vec::new(),
        };
        let ghost before = v@;
        v.push(column);
        let ghost after = v@;
        self.columns.insert(line, v);
        proof {
            assert forall|c: usize| after.contains(c) == (before.contains(c) || c == column) by {
                if before.contains(c) {
                    let k = choose|k: int| 0 <= k < before.len() && before[k] == c;
                    assert(after[k] == c);
                }
                assert(after[before.len() as int] == column);
                if after.contains(c) && c != column {
                    let k = choose|k: int| 0 <= k < after.len() && after[k] == c;
                    assert(before[k] == c);
                }
            }
            assert(self@ =~= old(self)@.insert((line, column)));
        }
    }
}

} // verus!
