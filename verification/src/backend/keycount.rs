use vstd::prelude::*;
use std::collections::HashMap;

verus! {

broadcast use vstd::std_specs::hash::group_hash_axioms;

pub type Key = i64;

/// A count per key.
pub struct Key_Count {
    map: HashMap<Key, u8>,
}

impl View for Key_Count {
    type V = Map<Key, u8>;

    closed spec fn view(&self) -> Map<Key, u8> {
        self.map@
    }
}

impl Key_Count {
    pub fn new() -> (r: Self)
        ensures r@ == Map::<Key, u8>::empty(),
    {
        Key_Count { map: HashMap::with_capacity(200) }
    }

    /// Adds one to the count of `k`, starting from 0 for a key not seen before.
    pub fn inc(&mut self, k: Key)
        requires !old(self)@.contains_key(k) || old(self)@[k] < 255,
        ensures final(self)@ == old(self)@.insert(k, (if old(self)@.contains_key(k) { old(self)@[k] + 1 } else { 1 }) as u8),
    {
        let c: u8 = match self.map.get(&k) {
            Some(v) => *v,
            None => 0,
        };
        self.map.insert(k, c + 1);
    }

    /// Takes one from the count of `k`, which must be there and above 0.
    pub fn dec(&mut self, k: Key)
        requires old(self)@.contains_key(k), old(self)@[k] > 0,
        ensures final(self)@ == old(self)@.insert(k, (old(self)@[k] - 1) as u8),
    {
        let c: u8 = *self.map.get(&k).unwrap();
        self.map.insert(k, c - 1);
    }

    /// The count of `k`, which must have been counted.
    pub fn count(&mut self, k: Key) -> (r: u8)
        requires old(self)@.contains_key(k),
        ensures r == old(self)@[k], final(self)@ == old(self)@,
    {
        *self.map.get(&k).unwrap()
    }
}

} // verus!
