use vstd::prelude::*;

verus! {

pub const SIZE: usize = 20;

/// Killer moves by search depth (the killer heuristic): one slot per depth, the depth
/// taken modulo the number of slots. `M` is the move type of the board the table serves.
pub struct Killerray<M: Copy> {
    arr: [Option<M>; 20],
}

impl<M: Copy> View for Killerray<M> {
    type V = Seq<Option<M>>;

    closed spec fn view(&self) -> Seq<Option<M>> {
        self.arr@
    }
}

impl<M: Copy> Killerray<M> {
    /// The table has one slot per depth modulo `SIZE`.
    pub proof fn lemma_slots(&self)
        ensures self@.len() == SIZE,
    {
    }

    pub fn new() -> (r: Self)
        ensures r@.len() == SIZE, forall|i: int| 0 <= i < SIZE ==> r@[i] is None,
    {
        Killerray { arr: [None; 20] }
    }

    /// The slot of depth `i`.
    pub fn get(&self, i: usize) -> (r: &Option<M>)
        ensures *r == self@[(i % SIZE) as int],
    {
        &self.arr[i % SIZE]
    }

    /// Puts `m` in the slot of depth `i`.
    pub fn put(&mut self, m: M, i: usize)
        ensures final(self)@ == old(self)@.update((i % SIZE) as int, Some(m)),
    {
        self.arr.set(i % SIZE, Some(m));
    }
}

} // verus!
