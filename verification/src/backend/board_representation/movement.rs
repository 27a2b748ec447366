use vstd::prelude::*;
use vstd::std_specs::cmp::PartialEqSpecImpl;
use rand::prelude::SliceRandom;
use crate::backend::piece::{Piece, Color, spec_piece_of};
use crate::text::{char_from_u32, decimal_digit, push_char, other_io_error};

verus! {

pub type Score = i32;

pub const INFINITY: Score = 2147483647;

/// A square: `x` is the file (0 = a), `y` the row from the top (0 = the eighth rank).
#[derive(Copy, Clone, PartialEq, Eq, Hash, Debug, Structural)]
pub struct Position {
    pub x: usize,
    pub y: usize,
}

/// A move from one square to another, with an optional promotion and the change in the
/// board's evaluation that it is expected to make. Two moves are equal when their squares
/// and promotions are; the value takes no part in it.
#[derive(Copy, Clone, Hash, Eq, Debug)]
pub struct Move {
    pub from: Position,
    pub to: Position,
    pub heuristic_value: Score,
    pub promote: Option<Piece>,
}

/// A list of moves.
#[derive(PartialEq, Debug, Clone)]
pub struct Moves(pub Vec<Move>);

/// Equality of moves: same squares and same promotion.
pub open spec fn same_move(a: Move, b: Move) -> bool {
    a.from == b.from && a.to == b.to && a.promote == b.promote
}

impl PartialEq for Move {
    fn eq(&self, other: &Self) -> (r: bool) {
        self.from == other.from && self.to == other.to && self.promote == other.promote
    }
}

impl PartialEqSpecImpl for Move {
    open spec fn obeys_eq_spec() -> bool {
        true
    }

    open spec fn eq_spec(&self, other: &Move) -> bool {
        same_move(*self, *other)
    }
}

pub open spec fn spec_move(fx: int, fy: int, tx: int, ty: int, promote: Option<Piece>, v: int) -> Move {
    Move {
        from: Position { x: fx as usize, y: fy as usize },
        to: Position { x: tx as usize, y: ty as usize },
        heuristic_value: v as Score,
        promote,
    }
}

/// The coordinates that a move string spells, in the order file, rank, file, rank:
/// a file letter counts from 'a', a rank digit from the top row ('8' is row 0).
pub open spec fn coord_file(c: char) -> int {
    c as int - 97
}

pub open spec fn coord_rank(c: char) -> int {
    56 - c as int
}

/// The promotion letters that a move string may end with.
pub open spec fn is_promotion_char(c: char) -> bool {
    c == 'R' || c == 'N' || c == 'B' || c == 'Q' || c == 'r' || c == 'n' || c == 'b' || c == 'q'
}

/// Whether the first four characters of `s` spell four coordinates on the board.
pub open spec fn coords_in_range(s: Seq<char>) -> bool {
    0 <= coord_file(s[0]) < 8 && 0 <= coord_rank(s[1]) < 8
    && 0 <= coord_file(s[2]) < 8 && 0 <= coord_rank(s[3]) < 8
}

/// What `Move::from_str` reads from `s`: `None` where the string is refused, as one shorter
/// than four characters is.
pub open spec fn spec_parse_move(s: Seq<char>) -> Option<Move> {
    if s.len() < 4 || !coords_in_range(s) {
        None
    } else if s.len() == 4 {
        Some(spec_move(coord_file(s[0]), coord_rank(s[1]), coord_file(s[2]), coord_rank(s[3]), None, 0))
    } else if is_promotion_char(s[4]) {
        Some(spec_move(coord_file(s[0]), coord_rank(s[1]), coord_file(s[2]), coord_rank(s[3]), spec_piece_of(s[4]), 0))
    } else {
        None
    }
}

/// The four characters of a move in coordinate notation, such as "e2e4".
pub open spec fn spec_short_string(m: Move) -> Seq<char> {
    seq![(m.from.x + 97) as char, ('0' as int + (8 - m.from.y)) as char,
         (m.to.x + 97) as char, ('0' as int + (8 - m.to.y)) as char]
}

/// The long form of a move, such as "(e2, e4)".
pub open spec fn spec_long_string(m: Move) -> Seq<char> {
    seq!['(', (m.from.x + 97) as char, ('0' as int + (8 - m.from.y)) as char, ',', ' ',
         (m.to.x + 97) as char, ('0' as int + (8 - m.to.y)) as char, ')']
}

pub open spec fn squares_printable(m: Move) -> bool {
    file_printable(m.from.x) && m.from.y <= 8 && file_printable(m.to.x) && m.to.y <= 8
}

/// A file index is written as the character 97 ('a') places further, which must be one.
pub open spec fn file_printable(x: usize) -> bool {
    crate::text::spec_char_of(x + 97) is Some
}

pub(crate) fn push_file(s: &mut String, x: usize)
    requires file_printable(x),
    ensures final(s)@ == old(s)@.push((x + 97) as char),
{
    let c = char_from_u32(x as u32 + 97).unwrap();
    push_char(s, c);
}

pub(crate) fn push_rank(s: &mut String, y: usize)
    requires y <= 8,
    ensures final(s)@ == old(s)@.push(('0' as int + (8 - y)) as char),
{
    let c = decimal_digit((8 - y) as u32).unwrap();
    push_char(s, c);
}

impl Move {
    /// Makes a move from square (filefrom, rankfrom) to (fileto, rankto); rows count from
    /// the top, so e1 -> e2 is (4, 7, 4, 6).
    pub fn new(filefrom: usize, rankfrom: usize, fileto: usize, rankto: usize, promote: Option<Piece>, heuristic_value: Score) -> (r: Self)
        ensures
            r.from == (Position { x: filefrom, y: rankfrom }),
            r.to == (Position { x: fileto, y: rankto }),
            r.promote == promote,
            r.heuristic_value == heuristic_value,
    {
        Move { from: Position { x: filefrom, y: rankfrom }, to: Position { x: fileto, y: rankto }, promote, heuristic_value }
    }

    /// Reads a move such as "e2e4", or "b7a8Q" for a promotion; "e4", "e2-e4" and "Pe4" are
    /// refused with an error.
    pub fn from_str(s: &str) -> (r: Result<Move, std::io::Error>)
        ensures
            r is Ok <==> spec_parse_move(s@) is Some,
            r matches Ok(m) ==> m == spec_parse_move(s@)->0,
    {
        if s.unicode_len() < 4 {
            return Err(other_io_error("A move needs four characters, such as e2e4"));
        }
        let filefrom = s.get_char(0) as i32 - 97;
        let rankfrom = 56 - s.get_char(1) as i32;
        let fileto = s.get_char(2) as i32 - 97;
        let rankto = 56 - s.get_char(3) as i32;
        if filefrom < 0 || filefrom >= 8 || rankfrom < 0 || rankfrom >= 8 || fileto < 0 || fileto >= 8 || rankto < 0 || rankto >= 8 {
            return Err(other_io_error("Characters in a move have to be a-h or 1-8"));
        }
        if s.unicode_len() == 4 {
            Ok(Move::new(filefrom as usize, rankfrom as usize, fileto as usize, rankto as usize, None, 0))
        } else {
            let c = s.get_char(4);
            if c == 'R' || c == 'N' || c == 'B' || c == 'Q' || c == 'r' || c == 'n' || c == 'b' || c == 'q' {
                Ok(Move::new(filefrom as usize, rankfrom as usize, fileto as usize, rankto as usize, Piece::new(c), 0))
            } else {
                Err(other_io_error("Bruh"))
            }
        }
    }

    /// The move in coordinate notation, such as "e2e4".
    pub fn to_string_short(&self) -> (r: String)
        requires squares_printable(*self),
        ensures r@ == spec_short_string(*self),
    {
        let mut ret = String::new();
        push_file(&mut ret, self.from.x);
        push_rank(&mut ret, self.from.y);
        push_file(&mut ret, self.to.x);
        push_rank(&mut ret, self.to.y);
        assert(ret@ =~= spec_short_string(*self));
        ret
    }

    /// The move as "(e2, e4)".
    pub fn to_string(&self) -> (r: String)
        requires squares_printable(*self),
        ensures r@ == spec_long_string(*self),
    {
        let mut ret = String::new();
        push_char(&mut ret, '(');
        push_file(&mut ret, self.from.x);
        push_rank(&mut ret, self.from.y);
        push_char(&mut ret, ',');
        push_char(&mut ret, ' ');
        push_file(&mut ret, self.to.x);
        push_rank(&mut ret, self.to.y);
        push_char(&mut ret, ')');
        assert(ret@ =~= spec_long_string(*self));
        ret
    }

    pub fn heuristic_value(&self) -> (r: Score)
        ensures r == self.heuristic_value,
    {
        self.heuristic_value
    }

    pub fn set_heuristic_value(&mut self, s: Score)
        ensures *final(self) == (Move { heuristic_value: s, ..*old(self) }),
    {
        self.heuristic_value = s;
    }
}


/// `SliceRandom::shuffle` with the thread's generator: the order that comes out depends on
/// the generator; it is stated only that the result is a permutation of the input.
#[verifier::external_body]
fn shuffle_in_place(v: &mut Vec<Move>)
    ensures final(v)@.to_multiset() == old(v)@.to_multiset(),
{
    v.shuffle(&mut rand::thread_rng());
}

/// `SliceRandom::choose` with the thread's generator: `None` exactly on an empty list,
/// otherwise one of its elements; which one depends on the generator.
#[verifier::external_body]
fn choose_one(v: &Vec<Move>) -> (r: Option<Move>)
    ensures
        r is None <==> v@.len() == 0,
        r matches Some(m) ==> v@.contains(m),
{
    v.choose(&mut rand::thread_rng()).cloned()
}

/// Whether move `a` goes strictly before move `b` when sorting for `c`:
/// White wants high values first, Black low values first.
pub open spec fn goes_before(a: Move, b: Move, c: Color) -> bool {
    if c == Color::White { a.heuristic_value > b.heuristic_value } else { a.heuristic_value < b.heuristic_value }
}

/// Where a stable sort puts `m` among the already sorted `t`: before the first element
/// that `m` goes before, scanning from index `i`.
pub open spec fn insert_pos(t: Seq<Move>, m: Move, c: Color, i: int) -> int
    decreases t.len() - i,
{
    if i >= t.len() || i < 0 {
        t.len() as int
    } else if goes_before(m, t[i], c) {
        i
    } else {
        insert_pos(t, m, c, i + 1)
    }
}

pub open spec fn insert_sorted(t: Seq<Move>, m: Move, c: Color) -> Seq<Move> {
    t.insert(insert_pos(t, m, c, 0), m)
}

/// The stable sort of `s` by heuristic value for side `c` (insertion sort, element by element).
pub open spec fn spec_sort_by_heuristic(s: Seq<Move>, c: Color) -> Seq<Move>
    decreases s.len(),
{
    if s.len() == 0 {
        s
    } else {
        insert_sorted(spec_sort_by_heuristic(s.drop_last(), c), s.last(), c)
    }
}

/// Sorted for `c`: no element goes before one that precedes it.
pub open spec fn is_sorted_for(s: Seq<Move>, c: Color) -> bool {
    forall|i: int, j: int| 0 <= i < j < s.len() ==> !goes_before(#[trigger] s[j], #[trigger] s[i], c)
}

proof fn lemma_insert_pos_bounds(t: Seq<Move>, m: Move, c: Color, i: int)
    requires 0 <= i <= t.len(),
    ensures
        i <= insert_pos(t, m, c, i) <= t.len(),
        forall|k: int| i <= k < insert_pos(t, m, c, i) ==> !goes_before(m, #[trigger] t[k], c),
        insert_pos(t, m, c, i) < t.len() ==> goes_before(m, t[insert_pos(t, m, c, i)], c),
    decreases t.len() - i,
{
    if i < t.len() && !goes_before(m, t[i], c) {
        lemma_insert_pos_bounds(t, m, c, i + 1);
    }
}

proof fn lemma_insert_sorted(t: Seq<Move>, m: Move, c: Color)
    requires is_sorted_for(t, c),
    ensures
        is_sorted_for(insert_sorted(t, m, c), c),
        insert_sorted(t, m, c).to_multiset() == t.to_multiset().insert(m),
{
    let p = insert_pos(t, m, c, 0);
    lemma_insert_pos_bounds(t, m, c, 0);
    let r = insert_sorted(t, m, c);
    t.insert_ensures(p, m);
    assert forall|i: int, j: int| 0 <= i < j < r.len() implies !goes_before(#[trigger] r[j], #[trigger] r[i], c) by {
        if j < p {
        } else if j == p {
            assert(r[i] == t[i]);
        } else if i < p {
            assert(r[j] == t[j - 1]);
            assert(r[i] == t[i]);
        } else if i == p {
            assert(r[j] == t[j - 1]);
            if p < t.len() {
                assert(goes_before(m, t[p], c));
                if p < j - 1 {
                    assert(!goes_before(t[j - 1], t[p], c));
                }
            }
        } else {
            assert(r[j] == t[j - 1]);
            assert(r[i] == t[i - 1]);
        }
    }
    assert(r == t.push(m).remove(t.len() as int).insert(p, m)) by {
        assert(t.push(m).remove(t.len() as int) =~= t);
    }
    lemma_insert_multiset(t, m, p);
}

proof fn lemma_insert_multiset(t: Seq<Move>, m: Move, p: int)
    requires 0 <= p <= t.len(),
    ensures t.insert(p, m).to_multiset() == t.to_multiset().insert(m),
{
    let r = t.insert(p, m);
    t.insert_ensures(p, m);
    assert(r.remove(p) =~= t);
    r.to_multiset_ensures();
    assert(r.to_multiset().remove(m) == t.to_multiset());
    assert(r.to_multiset().count(m) > 0) by {
        assert(r.contains(m)) by { assert(r[p] == m); }
    }
    assert(r.to_multiset() =~= t.to_multiset().insert(m));
}

/// The stable sort is sorted and is a permutation of its input.
pub proof fn lemma_sort_by_heuristic(s: Seq<Move>, c: Color)
    ensures
        is_sorted_for(spec_sort_by_heuristic(s, c), c),
        spec_sort_by_heuristic(s, c).to_multiset() == s.to_multiset(),
    decreases s.len(),
{
    if s.len() > 0 {
        lemma_sort_by_heuristic(s.drop_last(), c);
        lemma_insert_sorted(spec_sort_by_heuristic(s.drop_last(), c), s.last(), c);
        s.drop_last().to_multiset_ensures();
        assert(s.drop_last().push(s.last()) =~= s);
    }
}

impl Moves {
    pub fn new() -> (r: Self)
        ensures r.0@ == Seq::<Move>::empty(),
    {
        Moves(Vec::new())
    }

    pub fn push(&mut self, m: Move)
        ensures final(self).0@ == old(self).0@.push(m),
    {
        self.0.push(m);
    }

    pub fn pop(&mut self) -> (r: Option<Move>)
        ensures
            old(self).0@.len() == 0 ==> r is None && final(self).0@ == old(self).0@,
            old(self).0@.len() > 0 ==> r == Some(old(self).0@.last()) && final(self).0@ == old(self).0@.drop_last(),
    {
        self.0.pop()
    }

    /// Moves every move of `other`, in order, to the end of this list.
    pub fn append(&mut self, other: &mut Moves)
        ensures
            final(self).0@ == old(self).0@ + old(other).0@,
            final(other).0@ == Seq::<Move>::empty(),
    {
        self.0.append(&mut other.0);
    }

    /// Sorts the moves, stably, best first for side `c`: highest value first for White,
    /// lowest first for Black.
    pub fn sort_by_heuristic(&mut self, c: Color)
        ensures
            final(self).0@ == spec_sort_by_heuristic(old(self).0@, c),
            is_sorted_for(final(self).0@, c),
            final(self).0@.to_multiset() == old(self).0@.to_multiset(),
    {
        let mut out: Vec<Move> = Vec::new();
        let n = self.0.len();
        let ghost s = self.0@;
        let mut k: usize = 0;
        while k < n
            invariant
                k <= n, n == s.len(), self.0@ == s,
                out@ == spec_sort_by_heuristic(s.subrange(0, k as int), c),
            decreases n - k,
        {
            let m = self.0[k];
            let mut i: usize = 0;
            let ghost t = out@;
            while i < out.len()
                invariant
                    i <= out.len(), out@ == t,
                    insert_pos(t, m, c, 0) == insert_pos(t, m, c, i as int),
                ensures
                    i <= out.len(), out@ == t,
                    insert_pos(t, m, c, 0) == i,
                decreases out.len() - i,
            {
                let before = if c == Color::White {
                    m.heuristic_value > out[i].heuristic_value
                } else {
                    m.heuristic_value < out[i].heuristic_value
                };
                if before {
                    break;
                }
                i += 1;
            }
            proof {
                assert(s.subrange(0, k as int + 1).drop_last() =~= s.subrange(0, k as int));
                assert(s.subrange(0, k as int + 1).last() == m);
            }
            out.insert(i, m);
            k += 1;
        }
        proof {
            assert(s.subrange(0, n as int) =~= s);
            lemma_sort_by_heuristic(s, c);
        }
        self.0 = out;
    }

    pub fn contains(&self, m: &Move) -> (r: bool)
        ensures r == exists|i: int| 0 <= i < self.0@.len() && same_move(#[trigger] self.0@[i], *m),
    {
        let mut i: usize = 0;
        while i < self.0.len()
            invariant
                i <= self.0@.len(),
                forall|j: int| 0 <= j < i ==> !same_move(#[trigger] self.0@[j], *m),
            decreases self.0@.len() - i,
        {
            if self.0[i] == *m {
                return true;
            }
            i += 1;
        }
        false
    }

    pub fn len(&self) -> (r: usize)
        ensures r == self.0@.len(),
    {
        self.0.len()
    }

    /// Puts the moves in a random order.
    pub fn shuffle(&mut self)
        ensures final(self).0@.to_multiset() == old(self).0@.to_multiset(),
    {
        shuffle_in_place(&mut self.0);
    }

    /// One of the moves, picked at random; the list must not be empty.
    pub fn choice(&self) -> (r: Move)
        requires self.0@.len() > 0,
        ensures self.0@.contains(r),
    {
        choose_one(&self.0).unwrap()
    }
}

} // verus!
