use vstd::prelude::*;
use crate::backend::movement::{Move, Score};

verus! {

pub type Key = usize;

/// The number of slots.
pub const SIZE: usize = 2_000_000;

/// How a stored value bounds the true value of a position.
#[derive(PartialEq, Eq, Debug, Clone, Copy, Structural)]
pub enum TransFlag {
    EXACT,
    UPPER_BOUND,
    LOWER_BOUND,
}

/// What is remembered of a position searched before.
#[derive(PartialEq, Debug, Clone, Copy)]
pub struct Transposition {
    pub hash: Key,
    pub value: Score,
    pub depth: usize,
    pub flag: TransFlag,
    pub best: Option<Move>,
    pub age: bool,
}

/// An open-addressed table of searched positions: an entry for hash `k` lives in one of
/// the four slots from `k` on.
pub struct UpdateMap {
    arr: Vec<Option<Box<Transposition>>>,
    delete_age: bool,
}

pub ghost struct UpdateMapModel {
    pub slots: Seq<Option<Transposition>>,
    pub delete_age: bool,
}

impl View for UpdateMap {
    type V = UpdateMapModel;

    closed spec fn view(&self) -> UpdateMapModel {
        UpdateMapModel {
            slots: Seq::new(self.arr@.len(), |i: int| match self.arr@[i] { Some(b) => Some(*b), None => None }),
            delete_age: self.delete_age,
        }
    }
}

/// The slot `insert` writes an entry for hash `k` to: the first of the four slots from `k`
/// on that holds an entry for `k` or one of the age `delete`, or else slot `k`.
pub open spec fn insert_slot(slots: Seq<Option<Transposition>>, k: Key, delete: bool) -> int
    decreases 4nat,
{
    insert_slot_from(slots, k, delete, 0)
}

pub open spec fn insert_slot_from(slots: Seq<Option<Transposition>>, k: Key, delete: bool, i: nat) -> int
    decreases 4 - i,
{
    if i > 3 {
        (k % SIZE) as int
    } else {
        let j = ((k + i) % (SIZE as int)) as int;
        match slots[j] {
            Some(t) => if t.hash == k || t.age == delete { j } else { insert_slot_from(slots, k, delete, i + 1) },
            None => insert_slot_from(slots, k, delete, i + 1),
        }
    }
}

/// What `get(k)` finds: the first of the four slots from `k` on that holds an entry.
pub open spec fn first_filled_from(slots: Seq<Option<Transposition>>, k: Key, i: nat) -> Option<Transposition>
    decreases 4 - i,
{
    if i > 3 {
        None
    } else {
        match slots[((k + i) % (SIZE as int)) as int] {
            Some(t) => Some(t),
            None => first_filled_from(slots, k, i + 1),
        }
    }
}

impl UpdateMap {
    pub fn new() -> (r: Self)
        ensures
            r@.delete_age == false,
            r@.slots.len() == SIZE,
            forall|i: int| 0 <= i < SIZE ==> r@.slots[i] is None,
    {
        let mut arr: Vec<Option<Box<Transposition>>> = Vec::new();
        let mut i: usize = 0;
        while i < SIZE
            invariant i <= SIZE, arr@.len() == i, forall|j: int| 0 <= j < i ==> arr@[j] is None,
            decreases SIZE - i,
        {
            arr.push(None);
            i += 1;
        }
        UpdateMap { delete_age: false, arr }
    }

    /// An entry for hash `k` of the age that the next `update_age` keeps.
    pub fn transpose(&self, k: Key, value: Score, depth: usize, flag: TransFlag, best: Option<Move>) -> (r: Transposition)
        ensures r == (Transposition { age: !self@.delete_age, hash: k, value, depth, flag, best }),
    {
        Transposition { age: !self.delete_age, hash: k, value, depth, flag, best }
    }

    pub fn update_age(&mut self)
        ensures final(self)@ == (UpdateMapModel { delete_age: !old(self)@.delete_age, ..old(self)@ }),
    {
        self.delete_age = !self.delete_age;
    }

    /// Writes `item` to the slot `insert_slot` picks for its hash.
    pub fn insert(&mut self, item: Transposition)
        requires item.hash <= usize::MAX - 3, old(self)@.slots.len() == SIZE,
        ensures
            final(self)@.delete_age == old(self)@.delete_age,
            final(self)@.slots == old(self)@.slots.update(
                insert_slot(old(self)@.slots, item.hash, old(self)@.delete_age), Some(item)),
    {
        let k = item.hash;
        let ghost slots = self@.slots;
        let mut i: usize = 0;
        while i <= 3
            invariant
                i <= 4, k == item.hash, k <= usize::MAX - 3, self.arr@.len() == SIZE, self@ == old(self)@, slots == self@.slots,
                insert_slot(slots, k, self.delete_age) == insert_slot_from(slots, k, self.delete_age, i as nat),
            decreases 4 - i,
        {
            let j = (k + i) % SIZE;
            let hit = match &self.arr[j] {
                Some(t) => t.hash == k || t.age == self.delete_age,
                None => false,
            };
            if hit {
                self.put_slot(j, item);
                return;
            }
            i += 1;
        }
        self.put_slot(k % SIZE, item);
    }

    fn put_slot(&mut self, j: usize, item: Transposition)
        requires j < SIZE, old(self)@.slots.len() == SIZE,
        ensures final(self)@ == (UpdateMapModel { slots: old(self)@.slots.update(j as int, Some(item)), ..old(self)@ }),
    {
        let ghost before = self@.slots;
        self.arr.set(j, Some(Box::new(item)));
        proof {
            assert(self@.slots =~= before.update(j as int, Some(item)));
        }
    }

    /// The first entry in the four slots from `k` on, whatever hash it is for.
    pub fn get(&mut self, k: Key) -> (r: Option<&Box<Transposition>>)
        requires k <= usize::MAX - 3, old(self)@.slots.len() == SIZE,
        ensures
            final(self)@ == old(self)@,
            match r {
                Some(b) => first_filled_from(old(self)@.slots, k, 0) == Some(**b),
                None => first_filled_from(old(self)@.slots, k, 0) is None,
            },
    {
        let mut i: usize = 0;
        while i <= 3
            invariant
                i <= 4, k <= usize::MAX - 3, self.arr@.len() == SIZE,
                first_filled_from(self@.slots, k, 0) == first_filled_from(self@.slots, k, i as nat),
            decreases 4 - i,
        {
            let j = (k + i) % SIZE;
            if self.arr[j].is_some() {
                return self.arr[j].as_ref();
            }
            i += 1;
        }
        None
    }
}

} // verus!
