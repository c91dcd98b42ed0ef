//! The names that nodes declare.
use std::collections::HashMap;
use vstd::hash_map::StringHashMap;
use vstd::prelude::*;

verus! {

/// Maps a node's ID and a name declared in it to the ID of the node that the
/// name stands for.
pub struct Scopes {
    by_parent: HashMap<u64, StringHashMap<u64>>,
}

impl View for Scopes {
    type V = Map<(u64, Seq<char>), u64>;

    closed spec fn view(&self) -> Map<(u64, Seq<char>), u64> {
        Map::new(
            |k: (u64, Seq<char>)|
                self.by_parent@.contains_key(k.0) && self.by_parent@[k.0]@.contains_key(k.1),
            |k: (u64, Seq<char>)| self.by_parent@[k.0]@[k.1],
        )
    }
}

impl Scopes {
    /// No names.
    pub fn new() -> (r: Scopes)
        ensures
            r@ == Map::<(u64, Seq<char>), u64>::empty(),
    {
        let r = Scopes { by_parent: HashMap::new() };
        assert(r@ =~= Map::<(u64, Seq<char>), u64>::empty());
        r
    }

    /// Lets `name` in `parent` stand for `id`, whatever it stood for before.
    pub fn insert(&mut self, parent: u64, name: String, id: u64)
        ensures
            final(self)@ == old(self)@.insert((parent, name@), id),
    {
        let ghost key = (parent, name@);
        let mut names = match self.by_parent.remove(&parent) {
            Some(names) => names,
            None => StringHashMap::new(),
        };
        names.insert(name, id);
        self.by_parent.insert(parent, names);
        assert(self@ =~= old(self)@.insert(key, id));
    }

    /// The ID that `name` in `parent` stands for.
    pub fn get(&self, parent: u64, name: &str) -> (r: Option<u64>)
        ensures
            match r {
                Some(id) => self@.contains_key((parent, name@)) && self@[(parent, name@)] == id,
                None => !self@.contains_key((parent, name@)),
            },
    {
        match self.by_parent.get(&parent) {
            Some(names) => match names.get(name) {
                Some(id) => Some(*id),
                None => None,
            },
            None => None,
        }
    }
}

} // verus!
