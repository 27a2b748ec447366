use vstd::prelude::*;
use std::collections::HashMap;
use crate::backend::movement::{Move, Score};

verus! {

broadcast use vstd::std_specs::hash::group_hash_axioms;

pub type Key = i64;

/// The number of cleans an entry survives.
pub const LIFETIME: u8 = 3;
/// How many cleans after the current one a new entry lives.
pub const ADD: u8 = LIFETIME - 1;

/// How a stored value bounds the true value of a position.
#[derive(PartialEq, Eq, Debug, Clone, Copy, Structural)]
pub enum TransFlag {
    EXACT,
    UPPER_BOUND,
    LOWER_BOUND,
}

/// What is remembered of a position searched before.
#[derive(PartialEq, Debug, Clone, Copy)]
pub struct Transposition {
    pub value: Score,
    pub flag: TransFlag,
    pub depth: usize,
    pub best: Option<Move>,
    pub age: u8,
}

/// A memo of searched positions by hash whose entries live for `LIFETIME` cleans after
/// they are written.
pub struct MemoMap {
    map: HashMap<Key, Transposition>,
    delete: u8,
}

impl View for MemoMap {
    /// The entries, and the age that the next clean moves past.
    type V = (Map<Key, Transposition>, u8);

    closed spec fn view(&self) -> (Map<Key, Transposition>, u8) {
        (self.map@, self.delete)
    }
}

fn is_alive(t: &Transposition, delete: u8) -> (r: bool)
    ensures r == (t.age != delete),
{
    t.age != delete
}

pub open spec fn alive_part(m: Map<Key, Transposition>, delete: u8) -> Map<Key, Transposition> {
    m.restrict(m.dom().filter(|k: Key| m[k].age != delete))
}

/// `HashMap::retain` with the test `is_alive(v, delete)`: by its documentation, it removes
/// exactly the entries for which the test is false and leaves the others as they were.
#[verifier::external_body]
fn retain_alive(map: &mut HashMap<Key, Transposition>, delete: u8)
    ensures final(map)@ == alive_part(old(map)@, delete),
{
    map.retain(|_, v| is_alive(v, delete));
}

impl MemoMap {
    /// The age that the next clean moves past is always one of the `LIFETIME` ages.
    #[verifier::type_invariant]
    spec fn age_in_range(self) -> bool {
        self.delete < LIFETIME
    }

    /// The memo holds finitely many entries.
    pub proof fn lemma_finite(&self)
        ensures self@.0.dom().finite(),
    {
    }
    pub fn new() -> (r: Self)
        ensures r@ == (Map::<Key, Transposition>::empty(), 0u8),
    {
        MemoMap { map: HashMap::with_capacity(7_500_000), delete: 0 }
    }

    pub fn get(&self, k: &Key) -> (r: Option<&Transposition>)
        ensures
            self@.0.contains_key(*k) ==> r == Some(&self@.0[*k]),
            !self@.0.contains_key(*k) ==> r is None,
    {
        self.map.get(k)
    }

    /// Stores an entry for `k`, of the age that the clean after next removes.
    pub fn insert(&mut self, k: Key, value: Score, flag: TransFlag, depth: usize, best: Option<Move>)
        ensures
            final(self)@.1 == old(self)@.1,
            final(self)@.0 == old(self)@.0.insert(k, Transposition { value, flag, depth, best,
                age: ((old(self)@.1 + ADD) % LIFETIME as int) as u8 }),
    {
        proof { use_type_invariant(&*self); }
        let mut map: HashMap<Key, Transposition> = HashMap::new();
        std::mem::swap(&mut map, &mut self.map);
        map.insert(k, Transposition { value, flag, depth, best, age: (self.delete + ADD) % LIFETIME });
        self.map = map;
    }

    /// Moves to the next age and drops the entries of that age; returns how many.
    pub fn clean(&mut self) -> (r: usize)
        ensures
            final(self)@.1 == (old(self)@.1 + 1) % LIFETIME as int,
            final(self)@.0 == alive_part(old(self)@.0, final(self)@.1),
            r == old(self)@.0.len() - final(self)@.0.len(),
    {
        proof { use_type_invariant(&*self); }
        self.delete = (self.delete + 1) % LIFETIME;
        let mut map: HashMap<Key, Transposition> = HashMap::new();
        std::mem::swap(&mut map, &mut self.map);
        let before = map.len();
        let delete = self.delete;
        let ghost old_map = map@;
        retain_alive(&mut map, delete);
        proof {
            assert(map@.dom() =~= old_map.dom().filter(|k: Key| old_map[k].age != delete));
            vstd::set_lib::lemma_len_subset(map@.dom(), old_map.dom());
        }
        let after = map.len();
        self.map = map;
        before - after
    }

    pub fn len(&self) -> (r: usize)
        ensures r == self@.0.len(),
    {
        self.map.len()
    }
}

} // verus!
