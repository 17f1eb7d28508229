//! The nodes of calls, by header and callee.
use std::collections::HashMap;
use vstd::hash_map::StringHashMap;
use vstd::prelude::*;
use crate::ids::NodeId;
use crate::index::Hid;

verus! {

broadcast use vstd::std_specs::hash::group_hash_axioms;

/// A map from a header and the name of a callee to the node of that call.
pub struct CallCache {
    by_header: HashMap<Hid, StringHashMap<NodeId>>,
}

impl CallCache {
    pub closed spec fn view(&self) -> Map<(Hid, Seq<char>), NodeId> {
        Map::new(
            |k: (Hid, Seq<char>)|
                self.by_header@.contains_key(k.0) && self.by_header@[k.0]@.contains_key(k.1),
            |k: (Hid, Seq<char>)| self.by_header@[k.0]@[k.1],
        )
    }

    /// The empty map.
    pub fn new() -> (cache: Self)
        ensures
            cache@ == Map::<(Hid, Seq<char>), NodeId>::empty(),
    {
        let cache = CallCache { by_header: HashMap::new() };
        assert(cache@ =~= Map::<(Hid, Seq<char>), NodeId>::empty());
        cache
    }

    /// The node of a call, if it has one.
    pub fn get(&self, hid: Hid, callee: &str) -> (node: Option<NodeId>)
        ensures
            match node {
                Some(id) => self@.contains_key((hid, callee@)) && self@[(hid, callee@)] == id,
                None => !self@.contains_key((hid, callee@)),
            },
    {
        match self.by_header.get(&hid) {
            Some(nodes) => match nodes.get(callee) {
                Some(id) => Some(*id),
                None => None,
            },
            None => None,
        }
    }

    /// Sets the node of a call.
    pub fn insert(&mut self, hid: Hid, callee: &str, node: NodeId)
        ensures
            final(self)@ == old(self)@.insert((hid, callee@), node),
    {
        self.by_header.entry(hid).or_insert(StringHashMap::new()).insert(callee.to_owned(), node);
        assert(self@ =~= old(self)@.insert((hid, callee@), node));
    }
}

} // verus!
