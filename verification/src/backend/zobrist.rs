use vstd::prelude::*;
use vstd::std_specs::cmp::PartialEqSpecImpl;
use rand::Rng;
use rand::SeedableRng;
use rand_pcg::Pcg64;
use crate::backend::piece::{Piece, Color, spec_type_index};
use crate::backend::board_representation::movement::Position;

verus! {

/// The board as a sequence of rows (row 0 is the eighth rank), each a sequence of squares.
pub type GridView = Seq<Seq<Option<Piece>>>;

/// The first `n` numbers that `Pcg64::seed_from_u64(seed)` yields through `Rng::gen::<i64>()`.
pub uninterp spec fn pcg64_stream(seed: u64, n: nat) -> Seq<i64>;

/// `rand_pcg::Pcg64` seeded with `seed` through `SeedableRng::seed_from_u64`, then asked
/// `n` times for an `i64` through `Rng::gen`. The generator is deterministic, so the numbers
/// are a function of `seed` and `n`; they are named, not stated.
#[verifier::external_body]
fn pcg64_i64s(seed: u64, n: usize) -> (r: Vec<i64>)
    ensures
        r@ == pcg64_stream(seed, n as nat),
        r@.len() == n,
{
    let mut rng = Pcg64::seed_from_u64(seed);
    (0..n).map(|_| rng.gen::<i64>()).collect()
}

/// The seed the keys are drawn with.
pub const ZOBRIST_SEED: u64 = 7;

/// How many numbers the keys take: the starting hash, the side key, four castling keys,
/// eight en-passant keys and twelve keys for each of the 64 squares.
pub const ZOBRIST_DRAWS: usize = 782;

/// Zobrist hashing: every (square, piece) pair, the side to move, each castling right and
/// each en-passant file has a random key, and the hash is the XOR of the keys that apply.
#[derive(Copy, Clone, Debug)]
pub struct Zobrist {
    pub hash: i64,
    pub arr: [[[i64; 13]; 8]; 8],
    pub color_to_move: i64,
    pub castle: (i64, i64, i64, i64),
    pub en_passant: [i64; 8],
}

/// The key of piece `p` on square (x, y).
pub open spec fn piece_key(z: Zobrist, x: int, y: int, p: Piece) -> i64 {
    z.arr@[y]@[x]@[spec_type_index(p)]
}

/// What square number `i` (row-major, 0..64) adds to the hash: its piece's key, or nothing.
pub open spec fn square_key(z: Zobrist, g: GridView, i: int) -> i64 {
    match g[i / 8][i % 8] {
        Some(p) => piece_key(z, i % 8, i / 8, p),
        None => 0,
    }
}

/// `start` XORed with the keys of the first `n` squares, in order.
pub open spec fn xor_squares(z: Zobrist, g: GridView, start: i64, n: nat) -> i64
    decreases n,
{
    if n == 0 {
        start
    } else {
        xor_squares(z, g, start, (n - 1) as nat) ^ square_key(z, g, n - 1)
    }
}

/// The keys hold the numbers drawn from the generator, in the order `Zobrist::new` draws them.
pub open spec fn keys_from(z: Zobrist, d: Seq<i64>) -> bool {
    &&& d.len() == ZOBRIST_DRAWS
    &&& z.color_to_move == d[1]
    &&& z.castle == (d[2], d[3], d[4], d[5])
    &&& forall|i: int| 0 <= i < 8 ==> #[trigger] z.en_passant@[i] == d[6 + i]
    &&& forall|y: int, x: int, p: int| 0 <= y < 8 && 0 <= x < 8 && 0 <= p < 12 ==>
            #[trigger] z.arr@[y]@[x]@[p] == d[14 + (y * 8 + x) * 12 + p]
}

/// The hash a fresh table gives a position: the first drawn number, the keys of the pieces
/// on the board and, when Black is to move, the side key.
pub open spec fn initial_hash(z: Zobrist, d: Seq<i64>, g: GridView, color: Color) -> i64 {
    let h = xor_squares(z, g, d[0], 64);
    if color == Color::Black { h ^ z.color_to_move } else { h }
}

pub open spec fn grid_view(g: [[Option<Piece>; 8]; 8]) -> GridView {
    Seq::new(8, |y: int| g@[y]@)
}

pub proof fn lemma_xor_zero(a: i64)
    ensures a ^ 0 == a,
{
    assert(a ^ 0 == a) by (bit_vector);
}

impl Zobrist {
    /// Draws the keys from the generator seeded with 7 and hashes the given position.
    pub fn new(grid: &[[Option<Piece>; 8]; 8], color: Color) -> (r: Self)
        ensures
            keys_from(r, pcg64_stream(ZOBRIST_SEED, ZOBRIST_DRAWS as nat)),
            r.hash == initial_hash(r, pcg64_stream(ZOBRIST_SEED, ZOBRIST_DRAWS as nat), grid_view(*grid), color),
    {
        let d = pcg64_i64s(ZOBRIST_SEED, ZOBRIST_DRAWS);
        Self::from_draws(&d, grid, color)
    }

    /// The table whose keys are the numbers `d`, in the order `keys_from` gives, with the
    /// hash of the given position.
    pub fn from_draws(d: &Vec<i64>, grid: &[[Option<Piece>; 8]; 8], color: Color) -> (r: Self)
        requires d@.len() == ZOBRIST_DRAWS,
        ensures
            keys_from(r, d@),
            r.hash == initial_hash(r, d@, grid_view(*grid), color),
    {
        let mut arr: [[[i64; 13]; 8]; 8] = [[[0i64; 13]; 8]; 8];
        let mut y: usize = 0;
        while y < 8
            invariant
                y <= 8, d@.len() == ZOBRIST_DRAWS,
                forall|yy: int, x: int, p: int| 0 <= yy < y && 0 <= x < 8 && 0 <= p < 12 ==>
                    #[trigger] arr@[yy]@[x]@[p] == d@[14 + (yy * 8 + x) * 12 + p],
            decreases 8 - y,
        {
            let mut row: [[i64; 13]; 8] = arr[y];
            let mut x: usize = 0;
            while x < 8
                invariant
                    x <= 8, y < 8, d@.len() == ZOBRIST_DRAWS,
                    forall|xx: int, p: int| 0 <= xx < x && 0 <= p < 12 ==>
                        #[trigger] row@[xx]@[p] == d@[14 + (y * 8 + xx) * 12 + p],
                decreases 8 - x,
            {
                let mut cell: [i64; 13] = row[x];
                let mut p: usize = 0;
                while p < 12
                    invariant
                        p <= 12, x < 8, y < 8, d@.len() == ZOBRIST_DRAWS,
                        forall|pp: int| 0 <= pp < p ==> #[trigger] cell@[pp] == d@[14 + (y * 8 + x) * 12 + pp],
                    decreases 12 - p,
                {
                    cell.set(p, d[14 + (y * 8 + x) * 12 + p]);
                    p += 1;
                }
                row.set(x, cell);
                x += 1;
            }
            arr.set(y, row);
            y += 1;
        }
        let en_passant: [i64; 8] = [d[6], d[7], d[8], d[9], d[10], d[11], d[12], d[13]];
        let ghost zk = Zobrist { hash: 0, arr, color_to_move: d[1], castle: (d[2], d[3], d[4], d[5]), en_passant };
        let ghost gv = grid_view(*grid);
        let mut hash: i64 = d[0];
        let mut i: usize = 0;
        while i < 64
            invariant
                i <= 64, d@.len() == ZOBRIST_DRAWS, gv == grid_view(*grid),
                zk.arr == arr,
                hash == xor_squares(zk, gv, d@[0], i as nat),
            decreases 64 - i,
        {
            let y = i / 8;
            let x = i % 8;
            match grid[y][x] {
                Some(p) => {
                    hash = hash ^ arr[y][x][p.type_index()];
                }
                None => {
                    proof { lemma_xor_zero(hash); }
                }
            }
            i += 1;
        }
        if color == Color::Black {
            hash = hash ^ d[1];
        }
        let r = Zobrist { hash, arr, color_to_move: d[1], castle: (d[2], d[3], d[4], d[5]), en_passant };
        proof {
            assert(forall|k: int| 0 <= k < 8 ==> #[trigger] r.en_passant@[k] == d@[6 + k]);
            assert(xor_squares(zk, gv, d@[0], 64) == xor_squares(r, gv, d@[0], 64)) by {
                lemma_xor_squares_keys(zk, r, gv, d@[0], 64);
            }
        }
        r
    }

    /// Toggles the key of piece `p` on square (x, y).
    pub fn update_xy(&mut self, x: usize, y: usize, p: &Piece)
        requires x < 8, y < 8,
        ensures *final(self) == (Zobrist { hash: old(self).hash ^ piece_key(*old(self), x as int, y as int, *p), ..*old(self) }),
    {
        self.hash = self.hash ^ self.arr[y][x][p.type_index()];
    }

    pub fn update_pos(&mut self, pos: &Position, p: &Piece)
        requires pos.x < 8, pos.y < 8,
        ensures *final(self) == (Zobrist { hash: old(self).hash ^ piece_key(*old(self), pos.x as int, pos.y as int, *p), ..*old(self) }),
    {
        self.update_xy(pos.x, pos.y, p);
    }

    pub fn hash(&self) -> (r: i64)
        ensures r == self.hash,
    {
        self.hash
    }

    pub fn set_hash(&mut self, new_hash: i64)
        ensures *final(self) == (Zobrist { hash: new_hash, ..*old(self) }),
    {
        self.hash = new_hash;
    }

    /// Toggles the side-to-move key.
    pub fn swap_sides(&mut self)
        ensures *final(self) == (Zobrist { hash: old(self).hash ^ old(self).color_to_move, ..*old(self) }),
    {
        self.hash = self.hash ^ self.color_to_move;
    }

    /// Toggles the key of each castling right flagged in `castle`.
    pub fn update_castle(&mut self, castle: (bool, bool, bool, bool))
        ensures *final(self) == (Zobrist { hash: spec_castle_toggle(*old(self), old(self).hash, castle), ..*old(self) }),
    {
        if castle.0 {
            self.hash = self.hash ^ self.castle.0;
        }
        if castle.1 {
            self.hash = self.hash ^ self.castle.1;
        }
        if castle.2 {
            self.hash = self.hash ^ self.castle.2;
        }
        if castle.3 {
            self.hash = self.hash ^ self.castle.3;
        }
    }

    /// Toggles the en-passant key of file `c`.
    pub fn update_en_passant(&mut self, c: usize)
        requires c < 8,
        ensures *final(self) == (Zobrist { hash: old(self).hash ^ old(self).en_passant@[c as int], ..*old(self) }),
    {
        self.hash = self.hash ^ self.en_passant[c];
    }
}

/// `h` with the keys of the flagged castling rights toggled, in the order of the rights.
pub open spec fn spec_castle_toggle(z: Zobrist, h: i64, c: (bool, bool, bool, bool)) -> i64 {
    let h0 = if c.0 { h ^ z.castle.0 } else { h };
    let h1 = if c.1 { h0 ^ z.castle.1 } else { h0 };
    let h2 = if c.2 { h1 ^ z.castle.2 } else { h1 };
    if c.3 { h2 ^ z.castle.3 } else { h2 }
}

/// The square keys XORed depend on the piece keys only, not on the current hash.
pub proof fn lemma_xor_squares_keys(z1: Zobrist, z2: Zobrist, g: GridView, start: i64, n: nat)
    requires z1.arr == z2.arr,
    ensures xor_squares(z1, g, start, n) == xor_squares(z2, g, start, n),
    decreases n,
{
    if n > 0 {
        lemma_xor_squares_keys(z1, z2, g, start, (n - 1) as nat);
    }
}

impl PartialEq for Zobrist {
    fn eq(&self, other: &Zobrist) -> (r: bool) {
        self.hash == other.hash
    }
}

impl PartialEqSpecImpl for Zobrist {
    open spec fn obeys_eq_spec() -> bool {
        true
    }

    open spec fn eq_spec(&self, other: &Zobrist) -> bool {
        self.hash == other.hash
    }
}

} // verus!
