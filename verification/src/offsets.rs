//! Offsets that are found by a name.
use vstd::hash_map::StringHashMap;
use vstd::prelude::*;

verus! {

/// A map from names to offsets.
pub struct Offsets {
    map: StringHashMap<usize>,
}

impl View for Offsets {
    type V = Map<Seq<char>, usize>;

    closed spec fn view(&self) -> Map<Seq<char>, usize> {
        self.map@
    }
}

impl Offsets {
    pub fn new() -> (r: Self)
        ensures
            r@ == Map::<Seq<char>, usize>::empty(),
    {
        Offsets { map: StringHashMap::new() }
    }

    /// Gives a name its offset. One that it had before is lost.
    pub fn insert(&mut self, name: String, offset: usize)
        ensures
            final(self)@ == old(self)@.insert(name@, offset),
    {
        self.map.insert(name, offset);
    }

    /// The offset of a name, if it has one.
    pub fn get(&self, name: &str) -> (r: Option<usize>)
        ensures
            r == (if self@.contains_key(name@) {
                Some(self@[name@])
            } else {
                None
            }),
    {
        match self.map.get(name) {
            Some(offset) => Some(*offset),
            None => None,
        }
    }

    /// Whether a name has an offset.
    pub fn contains_key(&self, name: &str) -> (r: bool)
        ensures
            r == self@.contains_key(name@),
    {
        self.map.contains_key(name)
    }

    /// How many names have an offset.
    pub fn len(&self) -> (r: usize)
        ensures
            r == self@.len(),
    {
        self.map.len()
    }
}

} // verus!
