use vstd::prelude::*;
use std::collections::HashMap;

verus! {

broadcast use vstd::std_specs::hash::group_hash_axioms;

pub type Key = i64;

/// How many times each position (by its hash) has occurred.
#[derive(Clone)]
pub struct RepetitionCounter {
    map: HashMap<Key, u8>,
}

impl View for RepetitionCounter {
    type V = Map<Key, u8>;

    closed spec fn view(&self) -> Map<Key, u8> {
        self.map@
    }
}

impl RepetitionCounter {
    pub fn new() -> (r: Self)
        ensures r@ == Map::<Key, u8>::empty(),
    {
        RepetitionCounter { map: HashMap::with_capacity(200) }
    }

    /// Adds one to the count of `k`, starting from 0 for a key not seen before.
    pub fn inc(&mut self, k: Key)
        requires !old(self)@.contains_key(k) || old(self)@[k] < 255,
        ensures final(self)@ == old(self)@.insert(k, (if old(self)@.contains_key(k) { old(self)@[k] + 1 } else { 1 }) as u8),
    {
        let c: u8 = match self.map.get(&k) {
            Some(v) => *v,
            None => 0,
        };
        self.map.insert(k, c + 1);
    }

    /// Takes one from the count of `k`, which must be there and above 0.
    pub fn dec(&mut self, k: Key)
        requires old(self)@.contains_key(k), old(self)@[k] > 0,
        ensures final(self)@ == old(self)@.insert(k, (old(self)@[k] - 1) as u8),
    {
        let c: u8 = *self.map.get(&k).unwrap();
        self.map.insert(k, c - 1);
    }

    /// The count of `k`, which must have been counted.
    pub fn count(&self, k: Key) -> (r: u8)
        requires self@.contains_key(k),
        ensures r == self@[k],
    {
        *self.map.get(&k).unwrap()
    }
}

impl PartialEq for RepetitionCounter {
    /// Counters take no part in comparing boards: any two are equal.
    fn eq(&self, other: &RepetitionCounter) -> (r: bool) {
        true
    }
}

impl vstd::std_specs::cmp::PartialEqSpecImpl for RepetitionCounter {
    open spec fn obeys_eq_spec() -> bool {
        true
    }

    open spec fn eq_spec(&self, other: &RepetitionCounter) -> bool {
        true
    }
}

} // verus!
