use vstd::prelude::*;
pub use crate::piece::{Piece, Color, spec_piece_of, spec_char};
use crate::backend::board::{DEFAULT_BOARD, custom_ok, strip_newlines, lemma_strip_step, lemma_strip_len_mono, lemma_default_board_ok};
use crate::text::push_char;

verus! {

/// A score of the first version of the board.
#[derive(Copy, Clone, PartialEq, Eq, Debug, Structural)]
pub struct Score(pub u32);

#[derive(Copy, Clone, PartialEq, Eq, Debug, Structural)]
struct Position {
    x: usize,
    y: usize,
}

/// A move of the first version of the board: two squares, and the score a search gave it
/// once it has one.
#[derive(Copy, Clone, PartialEq, Eq, Debug, Structural)]
pub struct Move {
    from: Position,
    to: Position,
    value: Option<Score>,
}

/// The model of a move: (file, row) of both squares, and its score if it has one.
pub ghost struct MoveModel {
    pub from: (usize, usize),
    pub to: (usize, usize),
    pub value: Option<Score>,
}

impl View for Move {
    type V = MoveModel;

    closed spec fn view(&self) -> MoveModel {
        MoveModel { from: (self.from.x, self.from.y), to: (self.to.x, self.to.y), value: self.value }
    }
}

impl Move {
    /// Makes a move from square (filefrom, rankfrom) to (fileto, rankto); rows count from
    /// the top, so e1 -> e2 is (4, 7, 4, 6). It has no score yet.
    pub fn new(filefrom: usize, rankfrom: usize, fileto: usize, rankto: usize) -> (r: Self)
        ensures r@ == (MoveModel { from: (filefrom, rankfrom), to: (fileto, rankto), value: None }),
    {
        Move { from: Position { x: filefrom, y: rankfrom }, to: Position { x: fileto, y: rankto }, value: None }
    }

    /// The score of the move, which must have one.
    pub fn value(&self) -> (r: Score)
        requires self@.value is Some,
        ensures r == self@.value->0,
    {
        match self.value {
            None => {
                assert(false);
                Score(0)
            },
            Some(v) => v,
        }
    }
}


/// A grid of the first version, row by row from the top.
pub type FirstGrid = Seq<Seq<Option<Piece>>>;

/// Where and when a piece was taken, so that taking the move back can put it again.
#[derive(PartialEq, Debug)]
struct TombStone {
    piece: Piece,
    date: u16,
    position: Position,
}

/// The first version of the board: a grid, the side to move, a score, a move counter, the
/// pieces taken so far and the moves made so far.
#[derive(PartialEq, Debug)]
pub struct Board {
    grid: [[Option<Piece>; 8]; 8],
    color_to_move: Color,
    score: Score,
    counter: u16,
    graveyard: Vec<TombStone>,
    moves: Vec<Move>,
}

/// The model of a first-version board; a tomb stone is (piece, date, (file, row)).
pub ghost struct BoardModel {
    pub grid: FirstGrid,
    pub color: Color,
    pub score: Score,
    pub counter: u16,
    pub graveyard: Seq<(Piece, u16, (usize, usize))>,
    pub moves: Seq<MoveModel>,
}

pub open spec fn first_grid_view(g: [[Option<Piece>; 8]; 8]) -> FirstGrid {
    Seq::new(8, |y: int| g@[y]@)
}

impl View for Board {
    type V = BoardModel;

    closed spec fn view(&self) -> BoardModel {
        BoardModel {
            grid: first_grid_view(self.grid),
            color: self.color_to_move,
            score: self.score,
            counter: self.counter,
            graveyard: self.graveyard@.map_values(|t: TombStone| (t.piece, t.date, (t.position.x, t.position.y))),
            moves: self.moves@.map_values(|m: Move| m@),
        }
    }
}

/// The grid with square (x, y) set to `p`.
pub open spec fn put_square(g: FirstGrid, x: int, y: int, p: Option<Piece>) -> FirstGrid {
    g.update(y, g[y].update(x, p))
}

pub open spec fn on_board(sq: (usize, usize)) -> bool {
    sq.0 < 8 && sq.1 < 8
}

/// Both squares of a move lie on the board.
pub open spec fn move_on_board(m: MoveModel) -> bool {
    on_board(m.from) && on_board(m.to)
}

pub open spec fn flip(c: Color) -> Color {
    if c == Color::White { Color::Black } else { Color::White }
}

/// A board of the first version is well formed: an eight-by-eight grid, one count per move
/// made, moves on the board, and tomb stones on the board, dated in increasing order before
/// the current move.
pub open spec fn first_wf(b: BoardModel) -> bool {
    &&& b.grid.len() == 8
    &&& forall|y: int| 0 <= y < 8 ==> #[trigger] b.grid[y].len() == 8
    &&& b.counter == b.moves.len()
    &&& forall|i: int| 0 <= i < b.moves.len() ==> move_on_board(#[trigger] b.moves[i])
    &&& forall|i: int| 0 <= i < b.graveyard.len() ==> (#[trigger] b.graveyard[i]).1 < b.counter && on_board(b.graveyard[i].2)
    &&& forall|i: int, j: int| 0 <= i < j < b.graveyard.len() ==> (#[trigger] b.graveyard[i]).1 < (#[trigger] b.graveyard[j]).1
}

/// Making a move: the piece on its first square goes to the second, a piece standing there
/// is buried with the current count, the move is recorded and the other side is to move.
pub open spec fn spec_first_move(b: BoardModel, m: MoveModel) -> BoardModel {
    let pie = b.grid[m.from.1 as int][m.from.0 as int];
    let target = b.grid[m.to.1 as int][m.to.0 as int];
    let g1 = put_square(b.grid, m.from.0 as int, m.from.1 as int, None);
    BoardModel {
        grid: put_square(g1, m.to.0 as int, m.to.1 as int, pie),
        color: flip(b.color),
        score: b.score,
        counter: (b.counter + 1) as u16,
        graveyard: match target {
            Some(t) => b.graveyard.push((t, b.counter, m.to)),
            None => b.graveyard,
        },
        moves: b.moves.push(m),
    }
}

/// Taking back the last move: its piece goes back, its second square is emptied, and the
/// last buried piece rises again where it was taken if it was taken by this move.
pub open spec fn spec_first_back(b: BoardModel) -> BoardModel {
    let m = b.moves.last();
    let counter = (b.counter - 1) as u16;
    let pie = b.grid[m.to.1 as int][m.to.0 as int];
    let g1 = put_square(b.grid, m.from.0 as int, m.from.1 as int, pie);
    let g2 = put_square(g1, m.to.0 as int, m.to.1 as int, None);
    let raise = b.graveyard.len() > 0 && b.graveyard.last().1 == counter;
    BoardModel {
        grid: if raise {
            put_square(g2, b.graveyard.last().2.0 as int, b.graveyard.last().2.1 as int, Some(b.graveyard.last().0))
        } else {
            g2
        },
        color: flip(b.color),
        score: b.score,
        counter,
        graveyard: if raise { b.graveyard.drop_last() } else { b.graveyard },
        moves: b.moves.drop_last(),
    }
}

/// The grid a picture describes: its squares row by row from the top, the squares it does
/// not reach left empty.
pub open spec fn first_custom_grid(t: Seq<char>) -> FirstGrid {
    Seq::new(8, |y: int| Seq::new(8, |x: int| if y * 8 + x < t.len() { spec_piece_of(t[y * 8 + x]) } else { None }))
}

/// The character shown for square (x, y).
pub open spec fn first_square_char(g: FirstGrid, x: int, y: int) -> char {
    match g[y][x] {
        Some(p) => spec_char(p),
        None => '-',
    }
}

/// The first `n` characters of row `y` of a board's text.
pub open spec fn first_row_text(g: FirstGrid, y: int, n: nat) -> Seq<char>
    decreases n,
{
    if n == 0 { Seq::empty() } else { first_row_text(g, y, (n - 1) as nat).push(first_square_char(g, n - 1, y)) }
}

/// The text of the first `k` rows of a board, each of eight squares and a line break.
pub open spec fn first_board_text(g: FirstGrid, k: nat) -> Seq<char>
    decreases k,
{
    if k == 0 { Seq::empty() } else { first_board_text(g, (k - 1) as nat) + first_row_text(g, k - 1, 8).push('\n') }
}

/// Sets square (x, y) of a grid.
fn put(grid: &mut [[Option<Piece>; 8]; 8], x: usize, y: usize, p: Option<Piece>)
    requires x < 8, y < 8,
    ensures first_grid_view(*final(grid)) == put_square(first_grid_view(*old(grid)), x as int, y as int, p),
{
    let mut row = grid[y];
    row.set(x, p);
    grid.set(y, row);
    proof {
        assert(first_grid_view(*grid) =~= put_square(first_grid_view(*old(grid)), x as int, y as int, p));
    }
}

impl Board {
    proof fn lemma_shape(&self)
        ensures
            self@.grid.len() == 8,
            forall|y: int| 0 <= y < 8 ==> #[trigger] self@.grid[y].len() == 8,
    {
        assert forall|y: int| 0 <= y < 8 implies #[trigger] self@.grid[y].len() == 8 by {
            assert(self@.grid[y] == self.grid@[y]@);
        }
    }

    /// The starting position, White to move.
    pub fn new() -> (r: Self)
        ensures
            r@.grid == first_custom_grid(strip_newlines(DEFAULT_BOARD@)),
            r@.color == Color::White,
            r@.score == Score(0),
            r@.counter == 0,
            r@.graveyard.len() == 0,
            r@.moves.len() == 0,
            first_wf(r@),
    {
        proof {
            lemma_default_board_ok();
        }
        Board::custom_board(DEFAULT_BOARD, Color::White)
    }

    /// The piece on square (x, y), if any.
    fn get_piece_at(&self, x: usize, y: usize) -> (r: Option<Piece>)
        requires x < 8, y < 8,
        ensures r == self@.grid[y as int][x as int],
    {
        self.grid[y][x]
    }

    /// The grid, row by row from the top.
    pub fn grid(&self) -> (r: [[Option<Piece>; 8]; 8])
        ensures first_grid_view(r) == self@.grid,
    {
        self.grid
    }

    /// Makes a move, whatever stands on its squares (see `spec_first_move`).
    pub fn move_piece(&mut self, m: Move)
        requires first_wf(old(self)@), move_on_board(m@), old(self)@.counter < u16::MAX,
        ensures final(self)@ == spec_first_move(old(self)@, m@), first_wf(final(self)@),
    {
        let ghost b = self@;
        proof { self.lemma_shape(); }
        let pie = self.get_piece_at(m.from.x, m.from.y);
        let target = self.get_piece_at(m.to.x, m.to.y);
        if let Some(t) = target {
            self.graveyard.push(TombStone { piece: t, position: m.to, date: self.counter });
        }
        put(&mut self.grid, m.from.x, m.from.y, None);
        put(&mut self.grid, m.to.x, m.to.y, pie);
        self.moves.push(m);
        self.counter += 1;
        self.color_to_move = self.color_to_move.opposite();
        proof {
            let e = spec_first_move(b, m@);
            assert(self@.moves =~= e.moves);
            assert(self@.graveyard =~= e.graveyard);
            assert(self@.grid =~= e.grid);
            assert forall|y: int| 0 <= y < 8 implies #[trigger] self@.grid[y].len() == 8 by {
                assert(b.grid[y].len() == 8);
            }
        }
    }

    /// Takes back the last move (see `spec_first_back`); there must be one.
    pub fn go_back(&mut self)
        requires first_wf(old(self)@), old(self)@.moves.len() > 0,
        ensures final(self)@ == spec_first_back(old(self)@), first_wf(final(self)@),
    {
        let ghost b = self@;
        proof { self.lemma_shape(); }
        let m = self.moves.pop().unwrap();
        proof {
            assert(m@ == b.moves.last());
            assert(move_on_board(b.moves[b.moves.len() - 1]));
        }
        self.counter -= 1;
        self.color_to_move = self.color_to_move.opposite();
        let pie = self.get_piece_at(m.to.x, m.to.y);
        put(&mut self.grid, m.from.x, m.from.y, pie);
        put(&mut self.grid, m.to.x, m.to.y, None);
        let d = self.graveyard.len();
        if d > 0 {
            let date = self.graveyard[d - 1].date;
            let pos = self.graveyard[d - 1].position;
            let piece = self.graveyard[d - 1].piece;
            proof {
                assert(on_board(b.graveyard[d - 1].2));
            }
            if date == self.counter {
                put(&mut self.grid, pos.x, pos.y, Some(piece));
                self.graveyard.pop();
            }
        }
        proof {
            let e = spec_first_back(b);
            assert(self@.moves =~= e.moves);
            assert(self@.graveyard =~= e.graveyard);
            assert(self@.grid =~= e.grid);
            assert forall|y: int| 0 <= y < 8 implies #[trigger] self@.grid[y].len() == 8 by {
                assert(b.grid[y].len() == 8);
            }
            if b.graveyard.len() > 0 {
                let last = b.graveyard.len() - 1;
                assert forall|i: int| 0 <= i < self@.graveyard.len() implies (#[trigger] self@.graveyard[i]).1 < self@.counter by {
                    if i < last {
                        assert(b.graveyard[i].1 < b.graveyard[last].1);
                    }
                }
            }
        }
    }

    /// Builds a board from a picture: eight rows of eight characters from the top ('-' for an
    /// empty square, upper case for White), line breaks left out, with `c` to move.
    pub fn custom_board(s: &str, c: Color) -> (r: Self)
        requires custom_ok(s@),
        ensures
            r@.grid == first_custom_grid(strip_newlines(s@)),
            r@.color == c,
            r@.score == Score(0),
            r@.counter == 0,
            r@.graveyard.len() == 0,
            r@.moves.len() == 0,
            first_wf(r@),
    {
        let mut grid: [[Option<Piece>; 8]; 8] = [[None; 8]; 8];
        let mut y: usize = 0;
        let mut x: usize = 0;
        let n = s.unicode_len();
        let mut i: usize = 0;
        while i < n
            invariant
                n == s@.len(), i <= n, custom_ok(s@),
                ({
                    let t = strip_newlines(s@.subrange(0, i as int));
                    &&& y * 8 + x == t.len()
                    &&& x < 8
                    &&& t.len() <= 64
                    &&& forall|yy: int, xx: int| 0 <= yy < 8 && 0 <= xx < 8 ==>
                        #[trigger] grid@[yy]@[xx] == if yy * 8 + xx < t.len() { spec_piece_of(t[yy * 8 + xx]) } else { None }
                }),
            decreases n - i,
        {
            let ch = s.get_char(i);
            proof {
                lemma_strip_step(s@, i as int);
                lemma_strip_len_mono(s@, i as int + 1);
            }
            if ch != '\n' {
                let ghost t = strip_newlines(s@.subrange(0, i as int));
                let ghost t2 = t.push(ch);
                assert(t2.len() <= 64);
                let p = Piece::new(ch);
                let mut row = grid[y];
                row.set(x, p);
                grid.set(y, row);
                proof {
                    assert(t2[t.len() as int] == ch);
                }
                x += 1;
                if x == 8 {
                    y += 1;
                    x = 0;
                }
            }
            i += 1;
        }
        proof {
            assert(s@.subrange(0, n as int) =~= s@);
            let full = strip_newlines(s@);
            assert(first_grid_view(grid) =~= first_custom_grid(full)) by {
                assert forall|yy: int| 0 <= yy < 8 implies first_grid_view(grid)[yy] =~= first_custom_grid(full)[yy] by {
                    assert forall|xx: int| 0 <= xx < 8 implies first_grid_view(grid)[yy][xx] == first_custom_grid(full)[yy][xx] by {
                        assert(grid@[yy]@[xx] == first_grid_view(grid)[yy][xx]);
                    }
                }
            }
        }
        let r = Board { grid, color_to_move: c, score: Score(0), counter: 0, graveyard: Vec::new(), moves: Vec::new() };
        proof {
            r.lemma_shape();
            assert(r@.graveyard =~= Seq::<(Piece, u16, (usize, usize))>::empty());
            assert(r@.moves =~= Seq::<MoveModel>::empty());
        }
        r
    }

    /// The board as text: eight rows of eight characters from the top, each ending in a line
    /// break; a piece is shown by its letter and an empty square by '-'.
    pub fn to_string(&self) -> (r: String)
        ensures r@ == first_board_text(self@.grid, 8),
    {
        proof { self.lemma_shape(); }
        let mut ret = String::new();
        let mut y: usize = 0;
        while y < 8
            invariant
                y <= 8, ret@ == first_board_text(self@.grid, y as nat),
                self@.grid.len() == 8,
                forall|yy: int| 0 <= yy < 8 ==> #[trigger] self@.grid[yy].len() == 8,
            decreases 8 - y,
        {
            let ghost before = ret@;
            let mut x: usize = 0;
            while x < 8
                invariant
                    y < 8, x <= 8,
                    ret@ == before + first_row_text(self@.grid, y as int, x as nat),
                decreases 8 - x,
            {
                match self.get_piece_at(x, y) {
                    Some(p) => push_char(&mut ret, p.char()),
                    None => push_char(&mut ret, '-'),
                }
                proof {
                    assert(before + first_row_text(self@.grid, y as int, x as nat + 1)
                        =~= (before + first_row_text(self@.grid, y as int, x as nat)).push(first_square_char(self@.grid, x as int, y as int)));
                }
                x += 1;
            }
            push_char(&mut ret, '\n');
            proof {
                assert(ret@ =~= first_board_text(self@.grid, y as nat + 1));
            }
            y += 1;
        }
        ret
    }
}

/// Taking back a move restores the board exactly as it was before the move: its grid,
/// side to move, score, count, buried pieces and recorded moves.
pub proof fn lemma_first_back_undoes_move(b: BoardModel, m: MoveModel)
    requires first_wf(b), move_on_board(m), b.counter < u16::MAX,
    ensures spec_first_back(spec_first_move(b, m)) == b,
{
    let a = spec_first_move(b, m);
    let r = spec_first_back(a);
    assert(a.moves.drop_last() =~= b.moves);
    assert(a.moves.last() == m);
    let fx = m.from.0 as int;
    let fy = m.from.1 as int;
    let tx = m.to.0 as int;
    let ty = m.to.1 as int;
    let pie = b.grid[fy][fx];
    let target = b.grid[ty][tx];
    assert(a.grid[ty][tx] == pie);
    match target {
        Some(t) => {
            assert(a.graveyard.last() == (t, b.counter, m.to));
            assert(a.graveyard.drop_last() =~= b.graveyard);
        },
        None => {
            if b.graveyard.len() > 0 {
                assert(b.graveyard[b.graveyard.len() - 1].1 < b.counter);
            }
        },
    }
    assert(r.grid =~= b.grid) by {
        assert forall|y: int| 0 <= y < 8 implies r.grid[y] =~= b.grid[y] by {}
    }
    assert(r.graveyard =~= b.graveyard);
}

} // verus!
