use vstd::prelude::*;
use std::collections::HashMap;
use crate::backend::board::{Board, BoardState, wf};
use crate::backend::board_representation::movement::{Move, Moves, Score, spec_parse_move, same_move,
    squares_printable, spec_short_string};
use crate::text::decimal_digit;
use crate::backend::rules::{legal_input_ok, value_of_ok, spec_legal_shape, spec_not_check_if, spec_value_of};
use crate::text::push_char;

verus! {

broadcast use {vstd::string::axiom_spec_iter, vstd::std_specs::hash::group_hash_axioms};

/// The pieces of `s` between the separators, as `str::split` gives them: one more piece
/// than there are separators, empty pieces included.
pub open spec fn split_on(s: Seq<char>, sep: char) -> Seq<Seq<char>>
    decreases s.len(),
{
    if s.len() == 0 {
        seq![Seq::<char>::empty()]
    } else {
        let r = split_on(s.drop_last(), sep);
        if s.last() == sep {
            r.push(Seq::<char>::empty())
        } else {
            r.update(r.len() - 1, r.last().push(s.last()))
        }
    }
}

/// The characters `char::is_whitespace` accepts: those with the Unicode White_Space property.
pub open spec fn is_white_space(c: char) -> bool {
    ('\u{9}' <= c && c <= '\u{d}') || c == ' ' || c == '\u{85}' || c == '\u{a0}' || c == '\u{1680}'
        || ('\u{2000}' <= c && c <= '\u{200a}') || c == '\u{2028}' || c == '\u{2029}' || c == '\u{202f}'
        || c == '\u{205f}' || c == '\u{3000}'
}

/// `s` without its trailing white space, as `str::trim_end` gives it.
pub open spec fn trim_end(s: Seq<char>) -> Seq<char>
    decreases s.len(),
{
    if s.len() > 0 && is_white_space(s.last()) { trim_end(s.drop_last()) } else { s }
}

pub open spec fn is_digit(c: char) -> bool {
    '0' <= c && c <= '9'
}

/// The number a string of decimal digits spells.
pub open spec fn digits_value(d: Seq<char>) -> int
    decreases d.len(),
{
    if d.len() == 0 { 0 } else { digits_value(d.drop_last()) * 10 + (d.last() as int - '0' as int) }
}

/// The word without a leading sign.
pub open spec fn unsigned_part(s: Seq<char>) -> Seq<char> {
    if s[0] == '-' || s[0] == '+' { s.skip(1) } else { s }
}

pub open spec fn all_digits(d: Seq<char>) -> bool {
    forall|i: int| 0 <= i < d.len() ==> #[trigger] is_digit(d[i])
}

/// The number an `i64` is read from, as `str::parse::<i64>` reads it: an optional sign,
/// then at least one decimal digit and nothing else, with the value in range.
pub open spec fn spec_parse_i64(s: Seq<char>) -> Option<i64> {
    if s.len() == 0 {
        None
    } else {
        let d = unsigned_part(s);
        let v = if s[0] == '-' { -digits_value(d) } else { digits_value(d) };
        if d.len() == 0 || !all_digits(d) {
            None
        } else if i64::MIN <= v && v <= i64::MAX {
            Some(v as i64)
        } else {
            None
        }
    }
}

/// The words of a line of the book: split at spaces once its trailing white space is gone.
pub open spec fn line_words(line: Seq<char>) -> Seq<Seq<char>> {
    split_on(trim_end(line), ' ')
}

/// The key a line of the book starts with, if its first word is a number.
pub open spec fn line_key(line: Seq<char>) -> Option<i64> {
    spec_parse_i64(line_words(line)[0])
}

/// The move a word of the book names, if it names one.
pub open spec fn word_move(w: Seq<char>) -> Option<Move> {
    if w.len() >= 4 { spec_parse_move(w) } else { None }
}

/// Every word after the key names a move.
pub open spec fn line_moves_ok(line: Seq<char>) -> bool {
    forall|j: int| 1 <= j < line_words(line).len() ==> #[trigger] word_move(line_words(line)[j]) is Some
}

/// The moves a line of the book lists after its key.
pub open spec fn line_moves(line: Seq<char>) -> Seq<Move> {
    line_words(line).skip(1).map_values(|w: Seq<char>| word_move(w)->0)
}

/// The index of the first line from `i` on whose key cannot be read, or the number of lines.
pub open spec fn read_until(lines: Seq<Seq<char>>, i: int) -> int
    decreases lines.len() - i,
{
    if i < 0 || i >= lines.len() {
        lines.len() as int
    } else if line_key(lines[i]) is None {
        i
    } else {
        read_until(lines, i + 1)
    }
}

/// The book the first `n` lines make: each line's key mapped to its moves, a later line
/// with the same key replacing an earlier one.
pub open spec fn book_of(lines: Seq<Seq<char>>, n: nat) -> Map<i64, Seq<Move>>
    decreases n,
{
    if n == 0 || n > lines.len() {
        Map::empty()
    } else {
        book_of(lines, (n - 1) as nat).insert(line_key(lines[n - 1])->0, line_moves(lines[n - 1]))
    }
}

/// The lines of a book text.
pub open spec fn book_lines(text: Seq<char>) -> Seq<Seq<char>> {
    split_on(text, '\n')
}

/// The number of lines read: reading stops at the first line without a key.
pub open spec fn lines_read(text: Seq<char>) -> int {
    read_until(book_lines(text), 0)
}

/// A book text can be read: every line read lists only moves after its key.
pub open spec fn book_ok(text: Seq<char>) -> bool {
    forall|i: int| 0 <= i < lines_read(text) ==> #[trigger] line_moves_ok(book_lines(text)[i])
}

/// The book a text gives.
pub open spec fn spec_book(text: Seq<char>) -> Map<i64, Seq<Move>> {
    book_of(book_lines(text), lines_read(text) as nat)
}

proof fn lemma_split_nonempty(s: Seq<char>, sep: char)
    ensures split_on(s, sep).len() >= 1,
    decreases s.len(),
{
    if s.len() > 0 {
        lemma_split_nonempty(s.drop_last(), sep);
    }
}

/// The characters of a text, in order.
fn chars_of(s: &str) -> (r: Vec<char>)
    ensures r@ == s@,
{
    let mut v: Vec<char> = Vec::new();
    for c in it: s.chars()
        invariant v@ == it.seq().take(it.index() as int),
    {
        v.push(c);
    }
    v
}

/// The pieces of the first `end` characters of `v` between the separators.
fn split_chars(v: &Vec<char>, end: usize, sep: char) -> (r: Vec<Vec<char>>)
    requires end <= v@.len(),
    ensures r@.map_values(|w: Vec<char>| w@) == split_on(v@.take(end as int), sep),
{
    let mut done: Vec<Vec<char>> = Vec::new();
    let mut cur: Vec<char> = Vec::new();
    let mut i: usize = 0;
    proof {
        assert(v@.take(0) =~= Seq::<char>::empty());
        assert(done@.map_values(|w: Vec<char>| w@).push(cur@) =~= split_on(v@.take(0), sep));
    }
    while i < end
        invariant
            i <= end, end <= v@.len(),
            done@.map_values(|w: Vec<char>| w@).push(cur@) == split_on(v@.take(i as int), sep),
        decreases end - i,
    {
        let c = v[i];
        let ghost before = done@.map_values(|w: Vec<char>| w@);
        proof {
            assert(v@.take(i as int + 1).drop_last() =~= v@.take(i as int));
            assert(v@.take(i as int + 1).last() == c);
        }
        if c == sep {
            let mut finished: Vec<char> = Vec::new();
            std::mem::swap(&mut finished, &mut cur);
            done.push(finished);
            proof {
                assert(done@.map_values(|w: Vec<char>| w@) =~= before.push(finished@));
                assert(done@.map_values(|w: Vec<char>| w@).push(cur@) =~= split_on(v@.take(i as int + 1), sep));
            }
        } else {
            let ghost old_cur = cur@;
            cur.push(c);
            proof {
                assert(done@.map_values(|w: Vec<char>| w@) =~= before);
                assert(before.push(cur@) =~= before.push(old_cur).update(before.len() as int, old_cur.push(c)));
            }
        }
        i += 1;
    }
    let ghost before = done@.map_values(|w: Vec<char>| w@);
    done.push(cur);
    proof {
        assert(done@.map_values(|w: Vec<char>| w@) =~= split_on(v@.take(end as int), sep));
    }
    done
}

/// The length of `v` without its trailing white space.
fn trimmed_len(v: &Vec<char>) -> (r: usize)
    ensures r <= v@.len(), v@.take(r as int) == trim_end(v@),
{
    let mut e: usize = v.len();
    proof {
        assert(v@.take(e as int) =~= v@);
    }
    while e > 0 && is_space_char(v[e - 1])
        invariant e <= v@.len(), trim_end(v@.take(e as int)) == trim_end(v@),
        decreases e,
    {
        proof {
            assert(v@.take(e as int).drop_last() =~= v@.take(e as int - 1));
        }
        e -= 1;
    }
    e
}

/// Whether a character is white space (see `is_white_space`).
fn is_space_char(c: char) -> (r: bool)
    ensures r == is_white_space(c),
{
    ('\u{9}' <= c && c <= '\u{d}') || c == ' ' || c == '\u{85}' || c == '\u{a0}' || c == '\u{1680}'
        || ('\u{2000}' <= c && c <= '\u{200a}') || c == '\u{2028}' || c == '\u{2029}' || c == '\u{202f}'
        || c == '\u{205f}' || c == '\u{3000}'
}


proof fn lemma_digits_nonneg(d: Seq<char>)
    requires forall|i: int| 0 <= i < d.len() ==> #[trigger] is_digit(d[i]),
    ensures digits_value(d) >= 0,
    decreases d.len(),
{
    if d.len() > 0 {
        assert(is_digit(d[d.len() - 1]));
        lemma_digits_nonneg(d.drop_last());
    }
}

/// Digits read further never give a smaller number.
proof fn lemma_digits_prefix(d: Seq<char>, k: int)
    requires 0 <= k <= d.len(), forall|i: int| 0 <= i < d.len() ==> #[trigger] is_digit(d[i]),
    ensures digits_value(d) >= digits_value(d.take(k)),
    decreases d.len(),
{
    if k == d.len() {
        assert(d.take(k) =~= d);
    } else {
        assert(is_digit(d[d.len() - 1]));
        lemma_digits_prefix(d.drop_last(), k);
        assert(d.drop_last().take(k) =~= d.take(k));
        lemma_digits_nonneg(d.drop_last());
    }
}

proof fn lemma_parse_not_digit(s: Seq<char>, d: Seq<char>, k: int)
    requires s.len() > 0, d == unsigned_part(s), 0 <= k < d.len(), !is_digit(d[k]),
    ensures spec_parse_i64(s) is None,
{
}

proof fn lemma_parse_too_big(s: Seq<char>, d: Seq<char>)
    requires
        s.len() > 0, d == unsigned_part(s),
        all_digits(d) ==> digits_value(d) > 9223372036854775808,
    ensures spec_parse_i64(s) is None,
{
}

/// Reads an `i64` from a word (see `spec_parse_i64`).
fn parse_i64(w: &Vec<char>) -> (r: Option<i64>)
    ensures r == spec_parse_i64(w@),
{
    let n = w.len();
    if n == 0 {
        return None;
    }
    let signed = w[0] == '-' || w[0] == '+';
    let start: usize = if signed { 1 } else { 0 };
    let ghost d = if signed { w@.skip(1) } else { w@ };
    proof {
        assert(d =~= w@.subrange(start as int, n as int));
    }
    if start == n {
        return None;
    }
    let mut acc: u128 = 0;
    let mut k: usize = start;
    proof {
        assert(w@.subrange(start as int, start as int) =~= Seq::<char>::empty());
    }
    while k < n
        invariant
            start <= k <= n, n == w@.len(), start < n,
            d == w@.subrange(start as int, n as int),
            d == unsigned_part(w@),
            forall|i: int| start <= i < k ==> #[trigger] is_digit(w@[i]),
            acc == digits_value(w@.subrange(start as int, k as int)),
            acc <= 9223372036854775808,
        decreases n - k,
    {
        let c = w[k];
        if !('0' <= c && c <= '9') {
            proof {
                assert(d[k - start] == c);
                assert(!is_digit(d[k - start]));
                lemma_parse_not_digit(w@, d, k - start);
            }
            return None;
        }
        let dv = (c as u32 - 48) as u128;
        proof {
            assert(w@.subrange(start as int, k as int + 1).drop_last() =~= w@.subrange(start as int, k as int));
        }
        acc = acc * 10 + dv;
        if acc > 9223372036854775808 {
            proof {
                if forall|i: int| 0 <= i < d.len() ==> #[trigger] is_digit(d[i]) {
                    lemma_digits_prefix(d, k + 1 - start);
                    assert(d.take(k + 1 - start) =~= w@.subrange(start as int, k as int + 1));
                    assert(digits_value(d) > 9223372036854775808);
                }
                lemma_parse_too_big(w@, d);
            }
            return None;
        }
        k += 1;
    }
    proof {
        assert(w@.subrange(start as int, n as int) =~= d);
        assert forall|i: int| 0 <= i < d.len() implies #[trigger] is_digit(d[i]) by {
            assert(d[i] == w@[start + i]);
        }
    }
    if w[0] == '-' {
        let v: i128 = 0 - (acc as i128);
        Some(v as i64)
    } else if acc <= 9223372036854775807 {
        Some(acc as i64)
    } else {
        None
    }
}

/// The text of a word.
fn string_of(w: &Vec<char>) -> (r: String)
    ensures r@ == w@,
{
    let mut s = String::new();
    let mut i: usize = 0;
    while i < w.len()
        invariant i <= w@.len(), s@ == w@.take(i as int),
        decreases w@.len() - i,
    {
        push_char(&mut s, w[i]);
        proof {
            assert(w@.take(i as int + 1) =~= w@.take(i as int).push(w@[i as int]));
        }
        i += 1;
    }
    proof {
        assert(w@.take(w@.len() as int) =~= w@);
    }
    s
}

/// What reading one line of the book gives.
enum LineRead {
    /// The line has no key: reading stops.
    Stop,
    /// A word after the key names no move.
    Bad,
    /// The line's key and moves.
    Entry(i64, Moves),
}

/// Reads one line of the book.
fn read_line(line: &Vec<char>) -> (r: LineRead)
    ensures
        match r {
            LineRead::Stop => line_key(line@) is None,
            LineRead::Bad => line_key(line@) is Some && !line_moves_ok(line@),
            LineRead::Entry(k, ms) => line_key(line@) == Some(k) && line_moves_ok(line@) && ms.0@ == line_moves(line@),
        },
{
    let end = trimmed_len(line);
    let words = split_chars(line, end, ' ');
    let ghost ws = words@.map_values(|w: Vec<char>| w@);
    proof {
        lemma_split_nonempty(trim_end(line@), ' ');
        assert(ws == line_words(line@));
        assert(ws[0] == words@[0]@);
    }
    let key = match parse_i64(&words[0]) {
        None => {
            return LineRead::Stop;
        },
        Some(k) => k,
    };
    let mut moves = Moves::new();
    let mut j: usize = 1;
    while j < words.len()
        invariant
            1 <= j <= words@.len(), ws == line_words(line@), ws.len() == words@.len(),
            line_key(line@) == Some(key),
            forall|i: int| 0 <= i < words@.len() ==> #[trigger] ws[i] == words@[i]@,
            moves.0@.len() == j - 1,
            forall|i: int| 1 <= i < j ==> #[trigger] word_move(ws[i]) is Some,
            forall|i: int| 0 <= i < j - 1 ==> #[trigger] moves.0@[i] == word_move(ws[i + 1])->0,
        decreases words@.len() - j,
    {
        let w = &words[j];
        proof {
            assert(ws[j as int] == w@);
        }
        if w.len() < 4 {
            proof {
                assert(word_move(ws[j as int]) is None);
                assert(line_key(line@) == Some(key));
            }
            return LineRead::Bad;
        }
        let s = string_of(w);
        match Move::from_str(s.as_str()) {
            Ok(m) => {
                moves.push(m);
            },
            Err(_) => {
                proof {
                    assert(word_move(ws[j as int]) is None);
                    assert(line_key(line@) == Some(key));
                }
                return LineRead::Bad;
            },
        }
        j += 1;
    }
    proof {
        assert(moves.0@ =~= line_moves(line@));
    }
    LineRead::Entry(key, moves)
}


proof fn lemma_read_until_from(lines: Seq<Seq<char>>, i: int)
    requires 0 <= i <= lines.len(),
    ensures i <= read_until(lines, i) <= lines.len(),
    decreases lines.len() - i,
{
    if i < lines.len() && line_key(lines[i]) is Some {
        lemma_read_until_from(lines, i + 1);
    }
}

/// An opening book: for a position's hash, the moves the book knows for it.
pub struct Database {
    map: HashMap<i64, Moves>,
}

impl View for Database {
    type V = Map<i64, Seq<Move>>;

    closed spec fn view(&self) -> Map<i64, Seq<Move>> {
        self.map@.map_values(|ms: Moves| ms.0@)
    }
}

/// The move the book answers on board `s` when it picks `m`: `m` valued on the board if it
/// is legal there, else nothing.
pub open spec fn spec_offer(s: BoardState, m: Move) -> Option<Move> {
    if spec_legal_shape(s, m) && spec_not_check_if(s, m) {
        Some(Move { heuristic_value: spec_value_of(s, m) as Score, ..m })
    } else {
        None
    }
}

/// A move of the book can be offered on board `s`: its legality can be read and, where it
/// is legal, its value.
pub open spec fn book_move_ok(s: BoardState, m: Move) -> bool {
    &&& legal_input_ok(s, m)
    &&& spec_legal_shape(s, m) && spec_not_check_if(s, m) ==> value_of_ok(s, m)
}

/// The book's entry for the board's position, if it has one, lists moves, each of which
/// can be offered on the board.
pub open spec fn entry_ok(book: Map<i64, Seq<Move>>, s: BoardState) -> bool {
    book.contains_key(s.zobrist.hash) ==> {
        let ms = book[s.zobrist.hash];
        &&& ms.len() > 0
        &&& forall|k: int| 0 <= k < ms.len() ==> #[trigger] book_move_ok(s, ms[k])
    }
}

impl Database {
    /// A book that knows no position.
    pub fn empty() -> (r: Database)
        ensures r@ == Map::<i64, Seq<Move>>::empty(),
    {
        let r = Database { map: HashMap::new() };
        assert(r@ =~= Map::<i64, Seq<Move>>::empty());
        r
    }

    /// Reads a book from its text: one line per position, its hash and then the moves the
    /// book knows for it, separated by spaces. Reading stops at the first line that does not
    /// start with a number; a later line with the same hash replaces an earlier one. `None`
    /// where a word after a hash names no move.
    pub fn from_text(text: &str) -> (r: Option<Database>)
        ensures
            r is Some <==> book_ok(text@),
            r matches Some(d) ==> d@ == spec_book(text@),
    {
        let chars = chars_of(text);
        let lines = split_chars(&chars, chars.len(), '\n');
        let ghost ls = lines@.map_values(|l: Vec<char>| l@);
        proof {
            assert(chars@.take(chars@.len() as int) =~= text@);
            assert(ls == book_lines(text@));
        }
        let mut map: HashMap<i64, Moves> = HashMap::new();
        let mut i: usize = 0;
        let mut reading = true;
        proof {
            assert(map@.map_values(|ms: Moves| ms.0@) =~= book_of(ls, 0));
        }
        while reading && i < lines.len()
            invariant
                i <= lines@.len(), ls == book_lines(text@), ls.len() == lines@.len(),
                forall|k: int| 0 <= k < lines@.len() ==> #[trigger] ls[k] == lines@[k]@,
                forall|k: int| 0 <= k < i ==> #[trigger] line_moves_ok(ls[k]),
                forall|k: int| 0 <= k < i ==> #[trigger] line_key(ls[k]) is Some,
                read_until(ls, 0) == read_until(ls, i as int),
                !reading ==> i < ls.len() && line_key(ls[i as int]) is None,
                map@.map_values(|ms: Moves| ms.0@) == book_of(ls, i as nat),
            decreases lines@.len() - i, if reading { 1int } else { 0int },
        {
            proof {
                assert(ls[i as int] == lines@[i as int]@);
            }
            match read_line(&lines[i]) {
                LineRead::Stop => {
                    reading = false;
                },
                LineRead::Bad => {
                    proof {
                        lemma_read_until_from(ls, i as int + 1);
                        assert(read_until(ls, i as int) == read_until(ls, i as int + 1));
                        assert(!line_moves_ok(book_lines(text@)[i as int]));
                    }
                    return None;
                },
                LineRead::Entry(k, ms) => {
                    let ghost before = map@;
                    map.insert(k, ms);
                    proof {
                        assert(map@.map_values(|ms: Moves| ms.0@) =~= book_of(ls, i as nat + 1));
                        assert(line_moves_ok(ls[i as int]) && line_key(ls[i as int]) is Some);
                        assert(read_until(ls, i as int) == read_until(ls, i as int + 1));
                    }
                    i += 1;
                },
            }
        }
        proof {
            assert(lines_read(text@) == i);
        }
        Some(Database { map })
    }

    /// How many positions the book knows.
    pub fn len(&self) -> (r: usize)
        ensures r == self@.len(),
    {
        proof {
            assert(self@.dom() =~= self.map@.dom());
        }
        self.map.len()
    }

    /// The answer on board `b` when the book picks `m` (see `spec_offer`); the board is left
    /// as it was.
    pub fn offer(b: &mut Board, m: Move) -> (r: Option<Move>)
        requires wf(old(b)@), book_move_ok(old(b)@, m),
        ensures final(b)@ == old(b)@, r == spec_offer(old(b)@, m),
    {
        if !b.is_legal(&m) {
            return None;
        }
        let mut m = m;
        let v = b.value_of(&m);
        m.set_heuristic_value(v);
        Some(m)
    }

    /// A move for the board's position: `None` where the book does not know the position;
    /// otherwise the answer (see `offer`) for one of the moves the book lists for it, picked
    /// at random. The board is left as it was.
    pub fn get(&self, b: &mut Board) -> (r: Option<Move>)
        requires wf(old(b)@), entry_ok(self@, old(b)@),
        ensures
            final(b)@ == old(b)@,
            !self@.contains_key(old(b)@.zobrist.hash) ==> r is None,
            self@.contains_key(old(b)@.zobrist.hash) ==> exists|k: int|
                0 <= k < self@[old(b)@.zobrist.hash].len() && r == spec_offer(old(b)@, #[trigger] self@[old(b)@.zobrist.hash][k]),
    {
        let h = b.hash();
        match self.map.get(&h) {
            None => None,
            Some(ms) => {
                let m = ms.choice();
                proof {
                    assert(self@[h] == ms.0@);
                }
                Self::offer(b, m)
            },
        }
    }
}


// Building a book: the moves played from each position, and the text that stores them.

/// The decimal digits of `n`.
pub open spec fn nat_text(n: nat) -> Seq<char>
    decreases n,
{
    if n < 10 {
        seq![('0' as int + n) as char]
    } else {
        nat_text(n / 10).push(('0' as int + n % 10) as char)
    }
}

/// `v` in decimal, with a minus sign when negative.
pub open spec fn int_text(v: int) -> Seq<char> {
    if v < 0 { seq!['-'] + nat_text((-v) as nat) } else { nat_text(v as nat) }
}

/// The moves of a book line, each after a space.
pub open spec fn moves_text(ms: Seq<Move>) -> Seq<char>
    decreases ms.len(),
{
    if ms.len() == 0 { Seq::empty() } else { moves_text(ms.drop_last()) + seq![' '] + spec_short_string(ms.last()) }
}

/// The text of a book: a line per position, its hash and then its moves.
pub open spec fn entries_text(es: Seq<(i64, Seq<Move>)>) -> Seq<char>
    decreases es.len(),
{
    if es.len() == 0 {
        Seq::empty()
    } else {
        entries_text(es.drop_last()) + int_text(es.last().0 as int) + moves_text(es.last().1) + seq!['\n']
    }
}

/// The index of the first entry from `i` on with key `h`, or -1.
pub open spec fn key_index(es: Seq<(i64, Seq<Move>)>, h: i64, i: int) -> int
    decreases es.len() - i,
{
    if i < 0 || i >= es.len() { -1 } else if es[i].0 == h { i } else { key_index(es, h, i + 1) }
}

/// The entries once move `m` is recorded as played from the position with hash `h`: added to
/// that position's moves unless an equal move is there, or a new entry for a new position.
pub open spec fn spec_record(es: Seq<(i64, Seq<Move>)>, h: i64, m: Move) -> Seq<(i64, Seq<Move>)> {
    let k = key_index(es, h, 0);
    if k < 0 {
        es.push((h, seq![m]))
    } else if exists|j: int| 0 <= j < es[k].1.len() && same_move(#[trigger] es[k].1[j], m) {
        es
    } else {
        es.update(k, (h, es[k].1.push(m)))
    }
}

/// Every move of the book can be written down.
pub open spec fn all_printable(es: Seq<(i64, Seq<Move>)>) -> bool {
    forall|k: int, j: int| 0 <= k < es.len() && 0 <= j < es[k].1.len() ==> squares_printable(#[trigger] es[k].1[j])
}

proof fn lemma_key_index_range(es: Seq<(i64, Seq<Move>)>, h: i64, i: int)
    requires 0 <= i,
    ensures
        key_index(es, h, i) == -1 || (i <= key_index(es, h, i) < es.len() && es[key_index(es, h, i)].0 == h),
    decreases es.len() - i,
{
    if i < es.len() && es[i].0 != h {
        lemma_key_index_range(es, h, i + 1);
    }
}

/// A book being built: for each position met, by its hash, the moves played from it.
pub struct OpeningBook {
    entries: Vec<(i64, Vec<Move>)>,
}

impl View for OpeningBook {
    type V = Seq<(i64, Seq<Move>)>;

    closed spec fn view(&self) -> Seq<(i64, Seq<Move>)> {
        self.entries@.map_values(|e: (i64, Vec<Move>)| (e.0, e.1@))
    }
}

/// Writes the decimal digits of `n`.
fn push_digits(s: &mut String, n: u64)
    ensures final(s)@ == old(s)@ + nat_text(n as nat),
    decreases n,
{
    if n >= 10 {
        push_digits(s, n / 10);
    }
    let c = decimal_digit((n % 10) as u32).unwrap();
    push_char(s, c);
    proof {
        if n >= 10 {
            assert(nat_text(n as nat) == nat_text((n / 10) as nat).push(('0' as int + n % 10) as char));
        }
    }
}

impl OpeningBook {
    /// A book without positions.
    pub fn new() -> (r: Self)
        ensures r@ == Seq::<(i64, Seq<Move>)>::empty(), all_printable(r@),
    {
        let r = OpeningBook { entries: Vec::new() };
        proof { assert(r@ =~= Seq::<(i64, Seq<Move>)>::empty()); }
        r
    }

    /// Records that `m` was played from the position with hash `h` (see `spec_record`).
    pub fn record(&mut self, h: i64, m: Move)
        ensures
            final(self)@ == spec_record(old(self)@, h, m),
            all_printable(old(self)@) && squares_printable(m) ==> all_printable(final(self)@),
    {
        let ghost es = self@;
        let mut i: usize = 0;
        while i < self.entries.len()
            invariant
                self@ == es, es == old(self)@, i <= es.len(), es.len() == self.entries@.len(),
                key_index(es, h, 0) == key_index(es, h, i as int),
            decreases self.entries@.len() - i,
        {
            assert(es[i as int].0 == self.entries@[i as int].0);
            if self.entries[i].0 == h {
                proof {
                    lemma_key_index_range(es, h, 0);
                    assert(key_index(es, h, i as int) == i);
                }
                let mut list = self.entries[i].1.clone();
                proof { assert(list@ =~= es[i as int].1); }
                let mut j: usize = 0;
                while j < list.len()
                    invariant
                        list@ == es[i as int].1, j <= list@.len(), self@ == es,
                        i < es.len(), es[i as int].0 == h, key_index(es, h, 0) == i, es == old(self)@,
                        forall|jj: int| 0 <= jj < j ==> !same_move(#[trigger] es[i as int].1[jj], m),
                    decreases list@.len() - j,
                {
                    if list[j] == m {
                        assert(same_move(es[i as int].1[j as int], m));
                        assert(exists|jj: int| 0 <= jj < es[i as int].1.len() && same_move(#[trigger] es[i as int].1[jj], m));
                        return;
                    }
                    j += 1;
                }
                assert(!exists|jj: int| 0 <= jj < es[i as int].1.len() && same_move(#[trigger] es[i as int].1[jj], m));
                list.push(m);
                self.entries.set(i, (h, list));
                proof {
                    assert(self@ =~= es.update(i as int, (h, es[i as int].1.push(m))));
                    if all_printable(es) && squares_printable(m) {
                        assert forall|k: int, jj: int| 0 <= k < self@.len() && 0 <= jj < self@[k].1.len()
                            implies squares_printable(#[trigger] self@[k].1[jj]) by {
                            if k != i {
                                assert(self@[k] == es[k]);
                            } else if jj < es[k].1.len() {
                                assert(self@[k].1[jj] == es[k].1[jj]);
                            }
                        }
                    }
                }
                return;
            }
            i += 1;
        }
        let mut single: Vec<Move> = Vec::new();
        single.push(m);
        self.entries.push((h, single));
        proof {
            assert(single@ =~= seq![m]);
            if all_printable(es) && squares_printable(m) {
                assert forall|k: int, jj: int| 0 <= k < self@.len() && 0 <= jj < self@[k].1.len()
                    implies squares_printable(#[trigger] self@[k].1[jj]) by {
                    if k < es.len() {
                        assert(self@[k] == es[k]);
                    }
                }
            }
            assert(self@ =~= es.push((h, seq![m])));
        }
    }

    /// The text of the book (see `entries_text`), which `Database::from_text` reads back.
    pub fn text(&self) -> (r: String)
        requires all_printable(self@),
        ensures r@ == entries_text(self@),
    {
        let mut out = String::new();
        let mut k: usize = 0;
        while k < self.entries.len()
            invariant
                k <= self@.len(), self@.len() == self.entries@.len(), all_printable(self@),
                out@ == entries_text(self@.take(k as int)),
            decreases self.entries@.len() - k,
        {
            let key = self.entries[k].0;
            let ghost before = out@;
            if key < 0 {
                push_char(&mut out, '-');
                let u: u64 = (0i128 - key as i128) as u64;
                push_digits(&mut out, u);
            } else {
                push_digits(&mut out, key as u64);
            }
            proof { assert(out@ =~= before + int_text(key as int)); }
            let ghost mid = out@;
            let list = &self.entries[k].1;
            let mut j: usize = 0;
            while j < list.len()
                invariant
                    j <= list@.len(), list@ == self@[k as int].1, all_printable(self@), k < self@.len(),
                    out@ == mid + moves_text(list@.take(j as int)),
                decreases list@.len() - j,
            {
                let ghost before_move = out@;
                push_char(&mut out, ' ');
                assert(squares_printable(self@[k as int].1[j as int]));
                let w = list[j].to_string_short();
                let mut c: usize = 0;
                while c < w.unicode_len()
                    invariant
                        c <= w@.len(), out@ == before_move + seq![' '] + w@.take(c as int),
                    decreases w@.len() - c,
                {
                    push_char(&mut out, w.as_str().get_char(c));
                    proof { assert(w@.take(c as int + 1) =~= w@.take(c as int).push(w@[c as int])); }
                    c += 1;
                }
                proof {
                    assert(w@.take(w@.len() as int) =~= w@);
                    assert(list@.take(j as int + 1).drop_last() =~= list@.take(j as int));
                    assert(out@ =~= mid + moves_text(list@.take(j as int + 1)));
                }
                j += 1;
            }
            push_char(&mut out, '\n');
            proof {
                assert(list@.take(list@.len() as int) =~= list@);
                assert(self@.take(k as int + 1).drop_last() =~= self@.take(k as int));
                assert(out@ =~= entries_text(self@.take(k as int + 1)));
            }
            k += 1;
        }
        proof { assert(self@.take(self@.len() as int) =~= self@); }
        out
    }
}

} // verus!
