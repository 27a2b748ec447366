use vstd::prelude::*;

verus! {

pub type Score = u32;

#[derive(Copy, Clone, PartialEq, Eq, Debug, Structural)]
pub struct Position {
    pub x: usize,
    pub y: usize,
}

/// A move between two squares, with the value a search gave it once it has one.
#[derive(Copy, Clone, PartialEq, Eq, Debug, Structural)]
pub struct Move {
    pub from: Position,
    pub to: Position,
    value: Option<Score>,
}

/// The model of a move: its squares and its value, if it has one.
pub ghost struct MoveModel {
    pub from: Position,
    pub to: Position,
    pub value: Option<Score>,
}

impl View for Move {
    type V = MoveModel;

    closed spec fn view(&self) -> MoveModel {
        MoveModel { from: self.from, to: self.to, value: self.value }
    }
}

impl Move {
    /// Makes a move from square (filefrom, rankfrom) to (fileto, rankto); rows count from
    /// the top, so e1 -> e2 is (4, 7, 4, 6). It has no value yet.
    pub fn new(filefrom: usize, rankfrom: usize, fileto: usize, rankto: usize) -> (r: Self)
        ensures r@ == (MoveModel { from: Position { x: filefrom, y: rankfrom }, to: Position { x: fileto, y: rankto }, value: None }),
    {
        Move { from: Position { x: filefrom, y: rankfrom }, to: Position { x: fileto, y: rankto }, value: None }
    }

    /// The value of the move, which must have one.
    pub fn value(&self) -> (r: Score)
        requires self@.value is Some,
        ensures r == self@.value->0,
    {
        match self.value {
            None => {
                assert(false);
                0
            },
            Some(v) => v,
        }
    }
}

} // verus!
