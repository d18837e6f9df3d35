//! The playfield: four columns by sixty-four rows, packed into two words.

use crate::bits::{
    bit_of, lemma_bits_determine, lemma_nibble_bit, lemma_nibble_bound, lemma_nibble_write,
    lemma_nibble_zero, lemma_nibbles_determine, lemma_with_bit, nibble, ones4, with_bit,
};
use crate::text::{
    chars_of, join, join_chars, keep_nonempty, lemma_nonempty_all, lemma_split_join, nonempty,
    push_chars, split, split_chars, string_of, takes_bytes, utf8_bytes, views,
};
use vstd::prelude::*;
use vstd::string::StringExecFns;

verus! {

/// Number of columns of a board.
pub const WIDTH: usize = 4;

/// Number of rows of a board.
pub const ROWS: usize = 64;

/// A row with every cell set.
pub const FULL_ROW: u8 = 15;

/// A 4x64 grid of cells. Row 0 is the bottom row; rows 0..32 live in `lo` and
/// rows 32..64 in `hi`, four bits per row, column `x` at bit `x` of its row.
#[derive(Clone, Copy, PartialEq, Eq, Hash, Debug, Structural)]
pub struct Board {
    lo: u128,
    hi: u128,
}

/// One more than the index of the highest row that is not empty, or 0.
pub open spec fn rows_height(rows: Seq<u8>) -> nat
    decreases rows.len(),
{
    if rows.len() == 0 {
        0
    } else if rows.last() != 0 {
        rows.len()
    } else {
        rows_height(rows.drop_last())
    }
}

/// The rows that are not full, in their order.
pub open spec fn unfilled_rows(rows: Seq<u8>) -> Seq<u8>
    decreases rows.len(),
{
    if rows.len() == 0 {
        rows
    } else if rows.last() != FULL_ROW {
        unfilled_rows(rows.drop_last()).push(rows.last())
    } else {
        unfilled_rows(rows.drop_last())
    }
}

/// The rows after line clearing: the rows that are not full move down, keeping
/// their order, and empty rows fill the top.
pub open spec fn skim_rows(rows: Seq<u8>) -> Seq<u8> {
    let kept = unfilled_rows(rows);
    kept + Seq::new((rows.len() - kept.len()) as nat, |i: int| 0u8)
}

/// Number of set cells in the rows.
pub open spec fn count_minos(rows: Seq<u8>) -> nat
    decreases rows.len(),
{
    if rows.len() == 0 {
        0
    } else {
        count_minos(rows.drop_last()) + ones4(rows.last())
    }
}

/// Sixty-four empty rows.
pub open spec fn empty_rows() -> Seq<u8> {
    Seq::new(64, |y: int| 0u8)
}

/// The board with the given rows.
pub open spec fn board_of(rows: Seq<u8>) -> Board {
    choose|b: Board| b@ == rows
}

/// A board is the board of its rows.
pub proof fn lemma_board_of(b: Board)
    ensures
        board_of(b@) == b,
{
    board_of(b@).lemma_rows_determine(b);
}

/// The board of sixty-four empty rows has those rows.
pub proof fn lemma_empty_board()
    ensures
        board_of(empty_rows())@ == empty_rows(),
{
    let zero = Board { lo: 0, hi: 0 };
    assert forall|y: int| 0 <= y < 64 implies zero@[y] == 0u8 by {
        if y < 32 {
            lemma_nibble_zero(y);
        } else {
            lemma_nibble_zero(y - 32);
        }
    }
    assert(zero@ =~= empty_rows());
}

impl View for Board {
    type V = Seq<u8>;

    /// The sixty-four rows, bottom first, each a value below 16.
    closed spec fn view(&self) -> Seq<u8> {
        Seq::new(64, |y: int| self.row(y))
    }
}

impl Board {
    closed spec fn row(self, y: int) -> u8 {
        if 0 <= y < 32 {
            nibble(self.lo, y)
        } else if 32 <= y < 64 {
            nibble(self.hi, y - 32)
        } else {
            0
        }
    }

    /// Whether the cell in column `x` of row `y` is set; cells outside the grid
    /// are not.
    pub open spec fn cell(self, x: int, y: int) -> bool {
        0 <= x < 4 && 0 <= y < 64 && bit_of(self@[y], x)
    }

    /// Every board has sixty-four rows of four bits.
    pub proof fn lemma_rows(self)
        ensures
            self@.len() == 64,
            forall|y: int| 0 <= y < 64 ==> #[trigger] self@[y] < 16,
    {
        assert forall|y: int| 0 <= y < 64 implies #[trigger] self@[y] < 16 by {
            if y < 32 {
                lemma_nibble_bound(self.lo, y);
            } else {
                lemma_nibble_bound(self.hi, y - 32);
            }
        }
    }

    /// Boards with the same rows are the same board.
    pub proof fn lemma_rows_determine(self, other: Board)
        requires
            self@ == other@,
        ensures
            self == other,
    {
        assert forall|i: int| 0 <= i < 32 implies nibble(self.lo, i) == nibble(other.lo, i) by {
            assert(self@[i] == self.row(i));
            assert(other@[i] == other.row(i));
        }
        assert forall|i: int| 0 <= i < 32 implies nibble(self.hi, i) == nibble(other.hi, i) by {
            assert(self@[i + 32] == self.row(i + 32));
            assert(other@[i + 32] == other.row(i + 32));
        }
        lemma_nibbles_determine(self.lo, other.lo);
        lemma_nibbles_determine(self.hi, other.hi);
    }

    /// The board with no cell set.
    pub fn empty() -> (b: Board)
        ensures
            b@ == empty_rows(),
            b == board_of(empty_rows()),
    {
        let b = Board { lo: 0, hi: 0 };
        proof {
            assert forall|y: int| 0 <= y < 64 implies b@[y] == 0u8 by {
                if y < 32 {
                    lemma_nibble_zero(y);
                } else {
                    lemma_nibble_zero(y - 32);
                }
            }
            assert(b@ =~= empty_rows());
            lemma_board_of(b);
        }
        b
    }

    /// Whether no cell is set.
    pub fn is_empty(&self) -> (e: bool)
        ensures
            e == (self@ == empty_rows()),
            e == (rows_height(self@) == 0),
    {
        let e = self.lo == 0 && self.hi == 0;
        proof {
            let zero = Board { lo: 0, hi: 0 };
            assert forall|y: int| 0 <= y < 64 implies zero@[y] == 0u8 by {
                if y < 32 {
                    lemma_nibble_zero(y);
                } else {
                    lemma_nibble_zero(y - 32);
                }
            }
            assert(zero@ =~= Seq::new(64, |y: int| 0u8));
            if self@ == Seq::new(64, |y: int| 0u8) {
                self.lemma_rows_determine(zero);
            }
            lemma_height_zero(self@);
        }
        e
    }

    /// The four bits of row `y`.
    pub fn row_at(&self, y: usize) -> (r: u8)
        requires
            y < 64,
        ensures
            r == self@[y as int],
            r < 16,
    {
        proof {
            self.lemma_rows();
        }
        if y < 32 {
            proof {
                lemma_nibble_bound(self.lo, y as int);
            }
            ((self.lo >> ((4 * y) as u128)) & 0xf) as u8
        } else {
            proof {
                lemma_nibble_bound(self.hi, y as int - 32);
            }
            ((self.hi >> ((4 * (y - 32)) as u128)) & 0xf) as u8
        }
    }

    /// Whether the cell at `(x, y)` is set; `false` outside the grid.
    #[inline]
    #[must_use]
    pub fn get(&self, x: usize, y: usize) -> (b: bool)
        ensures
            b == self.cell(x as int, y as int),
    {
        if x >= 4 || y >= 64 {
            return false;
        }
        if y < 32 {
            proof {
                lemma_nibble_bit(self.lo, y as int, x as int);
            }
            (self.lo >> ((y * 4 + x) as u128)) & 1 != 0
        } else {
            proof {
                lemma_nibble_bit(self.hi, y as int - 32, x as int);
            }
            (self.hi >> (((y - 32) * 4 + x) as u128)) & 1 != 0
        }
    }

    /// Replaces row `y` by `r`.
    pub fn set_row(&mut self, y: usize, r: u8)
        requires
            y < 64,
            r < 16,
        ensures
            final(self)@ == old(self)@.update(y as int, r),
    {
        let ghost before = *self;
        if y < 32 {
            let s = (4 * y) as u128;
            self.lo = (self.lo & !(0xfu128 << s)) | ((r as u128) << s);
            proof {
                assert forall|j: int| 0 <= j < 64 implies self@[j] == before@.update(
                    y as int,
                    r,
                )[j] by {
                    if j < 32 {
                        lemma_nibble_write(before.lo, y as int, r, j);
                    }
                }
            }
        } else {
            let s = (4 * (y - 32)) as u128;
            self.hi = (self.hi & !(0xfu128 << s)) | ((r as u128) << s);
            proof {
                assert forall|j: int| 0 <= j < 64 implies self@[j] == before@.update(
                    y as int,
                    r,
                )[j] by {
                    if j >= 32 {
                        lemma_nibble_write(before.hi, y as int - 32, r, j - 32);
                    }
                }
            }
        }
        assert(self@ =~= before@.update(y as int, r));
    }

    /// Sets or clears the cell at `(x, y)`; does nothing outside the grid.
    #[inline]
    pub fn set(&mut self, x: usize, y: usize, value: bool)
        ensures
            x < 4 && y < 64 ==> final(self)@ == old(self)@.update(
                y as int,
                with_bit(old(self)@[y as int], x as int, value),
            ),
            !(x < 4 && y < 64) ==> *final(self) == *old(self),
            forall|cx: int, cy: int|
                final(self).cell(cx, cy) == (if cx == x && cy == y && x < 4 && y < 64 {
                    value
                } else {
                    old(self).cell(cx, cy)
                }),
    {
        if x >= 4 || y >= 64 {
            return ;
        }
        let ghost before = *self;
        let r = self.row_at(y);
        let m: u8 = 1u8 << (x as u8);
        let r2 = if value {
            r | m
        } else {
            r & !m
        };
        proof {
            lemma_with_bit(r, x as int, value, 0);
        }
        self.set_row(y, r2);
        proof {
            assert forall|cx: int, cy: int|
                self.cell(cx, cy) == (if cx == x && cy == y {
                    value
                } else {
                    before.cell(cx, cy)
                }) by {
                if 0 <= cx < 4 && cy == y {
                    lemma_with_bit(r, x as int, value, cx);
                }
            }
        }
    }

    /// Number of set cells.
    #[inline]
    pub fn num_minos(&self) -> (n: u16)
        ensures
            n == count_minos(self@),
    {
        let mut n: u16 = 0;
        let mut y: usize = 0;
        proof {
            self.lemma_rows();
        }
        while y < 64
            invariant
                y <= 64,
                self@.len() == 64,
                n == count_minos(self@.subrange(0, y as int)),
                n <= 4 * y,
            decreases 64 - y,
        {
            let r = self.row_at(y);
            let mut k: u16 = 0;
            if (r >> 0u8) & 1 == 1 {
                k = k + 1;
            }
            if (r >> 1u8) & 1 == 1 {
                k = k + 1;
            }
            if (r >> 2u8) & 1 == 1 {
                k = k + 1;
            }
            if (r >> 3u8) & 1 == 1 {
                k = k + 1;
            }
            proof {
                assert(self@.subrange(0, y as int + 1).drop_last() =~= self@.subrange(0, y as int));
                assert(k == ones4(r));
            }
            n = n + k;
            y = y + 1;
        }
        proof {
            assert(self@.subrange(0, 64) =~= self@);
        }
        n
    }

    /// Removes every full row; the rows above move down and empty rows enter at
    /// the top.
    pub fn skim(&mut self)
        ensures
            final(self)@ == skim_rows(old(self)@),
    {
        let ghost before = *self;
        proof {
            self.lemma_rows();
        }
        let mut out = Board::empty();
        let mut write: usize = 0;
        let mut y: usize = 0;
        while y < 64
            invariant
                y <= 64,
                write <= y,
                before == *self,
                self@.len() == 64,
                out@.len() == 64,
                write == unfilled_rows(self@.subrange(0, y as int)).len(),
                out@ == unfilled_rows(self@.subrange(0, y as int)) + Seq::new(
                    (64 - write) as nat,
                    |i: int| 0u8,
                ),
            decreases 64 - y,
        {
            let r = self.row_at(y);
            proof {
                assert(self@.subrange(0, y as int + 1).drop_last() =~= self@.subrange(0, y as int));
            }
            if r != FULL_ROW {
                let ghost prev = out;
                out.set_row(write, r);
                write = write + 1;
                proof {
                    assert(out@ =~= unfilled_rows(self@.subrange(0, y as int + 1)) + Seq::new(
                        (64 - write) as nat,
                        |i: int| 0u8,
                    ));
                }
            }
            y = y + 1;
        }
        proof {
            assert(self@.subrange(0, 64) =~= self@);
        }
        *self = out;
    }

    /// The number of columns.
    pub fn width(&self) -> (w: usize)
        ensures
            w == 4,
    {
        4
    }

    /// One more than the highest row that holds a set cell, or 0 for the empty
    /// board.
    pub fn height(&self) -> (h: usize)
        ensures
            h == rows_height(self@),
            h <= 64,
    {
        proof {
            self.lemma_rows();
        }
        let mut y: usize = 64;
        assert(self@.subrange(0, 64) =~= self@);
        while y > 0
            invariant
                y <= 64,
                self@.len() == 64,
                rows_height(self@) == rows_height(self@.subrange(0, y as int)),
            decreases y,
        {
            let r = self.row_at(y - 1);
            proof {
                assert(self@.subrange(0, y as int).drop_last() =~= self@.subrange(0, y as int - 1));
            }
            if r != 0 {
                return y;
            }
            y = y - 1;
        }
        0
    }
}

/// The height is 0 exactly for rows that are all empty.
pub proof fn lemma_height_zero(rows: Seq<u8>)
    ensures
        (rows_height(rows) == 0) == (rows == Seq::new(rows.len(), |y: int| 0u8)),
    decreases rows.len(),
{
    if rows.len() == 0 {
        assert(rows =~= Seq::new(rows.len(), |y: int| 0u8));
    } else {
        let front = rows.drop_last();
        lemma_height_zero(front);
        if rows.last() == 0 {
            if front == Seq::new(front.len(), |y: int| 0u8) {
                assert forall|i: int| 0 <= i < rows.len() implies rows[i] == 0u8 by {
                    if i < front.len() {
                        assert(rows[i] == front[i]);
                    }
                }
                assert(rows =~= Seq::new(rows.len(), |y: int| 0u8));
            } else {
                if rows == Seq::new(rows.len(), |y: int| 0u8) {
                    assert(front =~= Seq::new(front.len(), |y: int| 0u8));
                }
            }
        } else {
            assert(rows[rows.len() - 1] != 0);
        }
    }
}

/// Above the height every row is empty, and the row just below it is not.
pub proof fn lemma_height_bounds(rows: Seq<u8>)
    ensures
        rows_height(rows) <= rows.len(),
        forall|i: int| rows_height(rows) <= i < rows.len() ==> rows[i] == 0,
        rows_height(rows) > 0 ==> rows[rows_height(rows) - 1] != 0,
    decreases rows.len(),
{
    if rows.len() > 0 && rows.last() == 0 {
        let front = rows.drop_last();
        lemma_height_bounds(front);
        assert forall|i: int| rows_height(rows) <= i < rows.len() implies rows[i] == 0 by {
            if i < front.len() {
                assert(rows[i] == front[i]);
            }
        }
        if rows_height(rows) > 0 {
            assert(rows[rows_height(rows) - 1] == front[rows_height(front) - 1]);
        }
    }
}

/// Rows that are empty from `n` upwards have height at most `n`.
pub proof fn lemma_height_at_most(rows: Seq<u8>, n: int)
    requires
        0 <= n <= rows.len(),
        forall|i: int| n <= i < rows.len() ==> rows[i] == 0,
    ensures
        rows_height(rows) <= n,
    decreases rows.len(),
{
    if rows.len() > n {
        let front = rows.drop_last();
        assert(rows.last() == 0);
        assert forall|i: int| n <= i < front.len() implies front[i] == 0 by {
            assert(front[i] == rows[i]);
        }
        lemma_height_at_most(front, n);
    } else {
        lemma_height_bounds(rows);
    }
}

/// What line clearing keeps holds no full row and is no longer than the input.
pub proof fn lemma_unfilled_rows(rows: Seq<u8>)
    ensures
        unfilled_rows(rows).len() <= rows.len(),
        forall|i: int| 0 <= i < unfilled_rows(rows).len() ==> unfilled_rows(rows)[i] != FULL_ROW,
        (forall|i: int| 0 <= i < rows.len() ==> rows[i] != FULL_ROW) ==> unfilled_rows(rows) == rows,
    decreases rows.len(),
{
    if rows.len() > 0 {
        let front = rows.drop_last();
        lemma_unfilled_rows(front);
        if forall|i: int| 0 <= i < rows.len() ==> rows[i] != FULL_ROW {
            assert forall|i: int| 0 <= i < front.len() implies front[i] != FULL_ROW by {
                assert(front[i] == rows[i]);
            }
            assert(rows.last() == rows[rows.len() - 1]);
            assert(unfilled_rows(rows) =~= rows);
        }
    }
}

/// Line clearing works on each part of a stack by itself.
pub proof fn lemma_unfilled_concat(a: Seq<u8>, b: Seq<u8>)
    ensures
        unfilled_rows(a + b) == unfilled_rows(a) + unfilled_rows(b),
    decreases b.len(),
{
    if b.len() == 0 {
        assert(a + b =~= a);
        assert(unfilled_rows(a) + unfilled_rows(b) =~= unfilled_rows(a));
    } else {
        lemma_unfilled_concat(a, b.drop_last());
        assert((a + b).drop_last() =~= a + b.drop_last());
        assert((a + b).last() == b.last());
        if b.last() != FULL_ROW {
            assert(unfilled_rows(a + b) =~= unfilled_rows(a) + unfilled_rows(b));
        }
    }
}

/// Clearing lines twice gives what clearing them once gives.
pub proof fn law_skim_idempotent(rows: Seq<u8>)
    ensures
        skim_rows(skim_rows(rows)) == skim_rows(rows),
{
    lemma_unfilled_rows(rows);
    let once = skim_rows(rows);
    assert forall|i: int| 0 <= i < once.len() implies once[i] != FULL_ROW by {}
    lemma_unfilled_rows(once);
    assert(skim_rows(once) =~= once);
}

/// Clearing lines never raises the stack.
pub proof fn law_skim_height(rows: Seq<u8>)
    ensures
        rows_height(skim_rows(rows)) <= rows_height(rows),
        skim_rows(rows).len() == rows.len(),
{
    let h = rows_height(rows) as int;
    lemma_height_bounds(rows);
    let low = rows.subrange(0, h);
    let high = rows.subrange(h, rows.len() as int);
    assert(rows =~= low + high);
    lemma_unfilled_concat(low, high);
    lemma_unfilled_rows(low);
    lemma_unfilled_rows(high);
    lemma_unfilled_rows(rows);
    assert(unfilled_rows(high) == high);
    let once = skim_rows(rows);
    assert forall|i: int| h <= i < once.len() implies once[i] == 0 by {
        let kept = unfilled_rows(rows);
        if i < kept.len() {
            assert(kept[i] == high[i - unfilled_rows(low).len()]);
        }
    }
    lemma_height_at_most(once, h);
}

/// The four cells of a row as text, column 0 first: `X` for a set cell and
/// `_` for an empty one.
pub open spec fn row_text(r: u8) -> Seq<char> {
    Seq::new(4, |x: int| if bit_of(r, x) { 'X' } else { '_' })
}

/// The rows below the height as text, highest row first.
pub open spec fn rows_text(rows: Seq<u8>) -> Seq<Seq<char>> {
    Seq::new(rows_height(rows), |i: int| row_text(rows[rows_height(rows) - 1 - i]))
}

/// The short text of a board: its rows from the highest row that is not
/// empty down to row 0, with `|` between them. The empty board has the empty
/// text.
pub open spec fn small_text(rows: Seq<u8>) -> Seq<char> {
    join(rows_text(rows), seq!['|'])
}

/// The first `n` of the lines of the long text of a board: each of its rows,
/// highest first, between two `|` and followed by a line feed.
pub open spec fn framed_rows(rows: Seq<u8>, n: int) -> Seq<char>
    decreases n,
{
    if n <= 0 {
        Seq::empty()
    } else {
        framed_rows(rows, n - 1) + seq!['|'] + rows_text(rows)[n - 1] + seq!['|', '\n']
    }
}

/// The long text of a board: one line for each row below the height, highest
/// first; the empty board says so.
pub open spec fn display_text(rows: Seq<u8>) -> Seq<char> {
    if rows_height(rows) == 0 {
        "<empty>\n"@
    } else {
        framed_rows(rows, rows_height(rows) as int)
    }
}

/// The row that the first `n` characters of `line` write: bit `x` is set
/// where character `x` is `X`.
pub open spec fn row_value(line: Seq<char>, n: int) -> u8
    decreases n,
{
    if n <= 0 {
        0
    } else {
        with_bit(row_value(line, n - 1), n - 1, line[n - 1] == 'X')
    }
}

/// The first place at or after `from` where `line` holds a character other
/// than `X` and `_`.
pub open spec fn bad_char(line: Seq<char>, from: int) -> Option<char>
    decreases line.len() - from,
{
    if from < 0 || from >= line.len() {
        None
    } else if line[from] != 'X' && line[from] != '_' {
        Some(line[from])
    } else {
        bad_char(line, from + 1)
    }
}

/// What is wrong with a line of board text, if anything: it does not take
/// four bytes, or it holds a character other than `X` and `_`.
pub open spec fn row_error(line: Seq<char>) -> Option<Seq<char>> {
    if utf8_bytes(line) != 4 {
        Some("invalid row: "@ + line)
    } else {
        match bad_char(line, 0) {
            Some(c) => Some("invalid char: "@ + seq![c]),
            None => None,
        }
    }
}

/// The line that writes row `y` of the board: the last line is row 0.
pub open spec fn line_of(lines: Seq<Seq<char>>, y: int) -> Seq<char> {
    lines[lines.len() - 1 - y]
}

/// What is wrong with the first of the rows from `from` up to, not including,
/// `to` that has something wrong.
pub open spec fn rows_error(lines: Seq<Seq<char>>, from: int, to: int) -> Option<Seq<char>>
    decreases to - from,
{
    if from >= to {
        None
    } else {
        match row_error(line_of(lines, from)) {
            Some(e) => Some(e),
            None => rows_error(lines, from + 1, to),
        }
    }
}

/// The lower of `n` and 32.
pub open spec fn low_rows(n: int) -> int {
    if n <= 32 {
        n
    } else {
        32
    }
}

/// What board text means. The lines are the pieces between `|` that are not
/// empty, the last line being row 0; more than 64 lines are too many. The
/// rows above row 31 are read first, from row 32 up, then the rows from row 0
/// up, and the first line with something wrong decides the error.
pub open spec fn parse_rows(s: Seq<char>) -> Result<Seq<u8>, Seq<char>> {
    let lines = nonempty(split(s, '|'));
    let n = lines.len() as int;
    if n > 64 {
        Err("too many rows"@)
    } else {
        match rows_error(lines, 32, n) {
            Some(e) => Err(e),
            None => match rows_error(lines, 0, low_rows(n)) {
                Some(e) => Err(e),
                None => Ok(
                    Seq::new(
                        64,
                        |y: int|
                            if y < n {
                                row_value(line_of(lines, y), 4)
                            } else {
                                0u8
                            },
                    ),
                ),
            },
        }
    }
}

/// Reading the text of a row gives the row.
pub proof fn lemma_row_text(r: u8)
    requires
        r < 16,
    ensures
        row_value(row_text(r), 4) == r,
        row_error(row_text(r)).is_none(),
        row_text(r).len() == 4,
        !row_text(r).contains('|'),
{
    let t = row_text(r);
    reveal_with_fuel(row_value, 5);
    reveal_with_fuel(bad_char, 5);
    reveal_with_fuel(utf8_bytes, 5);
    lemma_with_bit(0, 0, t[0] == 'X', 0);
    let v1 = row_value(t, 1);
    lemma_with_bit(0, 0, t[0] == 'X', 1);
    lemma_with_bit(0, 0, t[0] == 'X', 2);
    lemma_with_bit(0, 0, t[0] == 'X', 3);
    let v2 = row_value(t, 2);
    lemma_with_bit(v1, 1, t[1] == 'X', 0);
    lemma_with_bit(v1, 1, t[1] == 'X', 1);
    lemma_with_bit(v1, 1, t[1] == 'X', 2);
    lemma_with_bit(v1, 1, t[1] == 'X', 3);
    let v3 = row_value(t, 3);
    lemma_with_bit(v2, 2, t[2] == 'X', 0);
    lemma_with_bit(v2, 2, t[2] == 'X', 1);
    lemma_with_bit(v2, 2, t[2] == 'X', 2);
    lemma_with_bit(v2, 2, t[2] == 'X', 3);
    let v4 = row_value(t, 4);
    lemma_with_bit(v3, 3, t[3] == 'X', 0);
    lemma_with_bit(v3, 3, t[3] == 'X', 1);
    lemma_with_bit(v3, 3, t[3] == 'X', 2);
    lemma_with_bit(v3, 3, t[3] == 'X', 3);
    assert(bit_of(0u8, 0) == false && bit_of(0u8, 1) == false && bit_of(0u8, 2) == false && bit_of(
        0u8,
        3,
    ) == false) by (bit_vector);
    assert forall|x: int| 0 <= x < 4 implies bit_of(v4, x) == bit_of(r, x) by {}
    lemma_bits_determine(v4, r);
    assert(t.drop_last().drop_last().drop_last().drop_last() =~= Seq::<char>::empty());
}

/// No row in a run of rows without an error has an error.
proof fn lemma_rows_no_error(lines: Seq<Seq<char>>, from: int, to: int)
    requires
        forall|y: int| from <= y < to ==> row_error(#[trigger] line_of(lines, y)).is_none(),
    ensures
        rows_error(lines, from, to).is_none(),
    decreases to - from,
{
    if from < to {
        assert(row_error(line_of(lines, from)).is_none());
        lemma_rows_no_error(lines, from + 1, to);
    }
}

/// Reading the short text of a board gives the board back.
pub proof fn law_parse_small(b: Board)
    ensures
        parse_rows(small_text(b@)) == Ok::<Seq<u8>, Seq<char>>(b@),
{
    b.lemma_rows();
    let rows = b@;
    let h = rows_height(rows) as int;
    lemma_height_bounds(rows);
    let texts = rows_text(rows);
    assert forall|i: int| 0 <= i < texts.len() implies !(#[trigger] texts[i]).contains('|')
        && texts[i].len() > 0 by {
        lemma_row_text(rows[h - 1 - i]);
    }
    let lines = nonempty(split(small_text(rows), '|'));
    if h == 0 {
        assert(texts =~= Seq::<Seq<char>>::empty());
        assert(small_text(rows) =~= Seq::<char>::empty());
        reveal_with_fuel(nonempty, 3);
        assert(seq![Seq::<char>::empty()].drop_last() =~= Seq::<Seq<char>>::empty());
        assert(lines =~= Seq::<Seq<char>>::empty());
    } else {
        lemma_split_join(texts, '|');
        lemma_nonempty_all(texts);
        assert(lines == texts);
    }
    assert(lines == texts);
    assert forall|y: int| 0 <= y < h implies row_error(#[trigger] line_of(lines, y)).is_none()
        && row_value(line_of(lines, y), 4) == rows[y] by {
        lemma_row_text(rows[y]);
        assert(line_of(lines, y) == row_text(rows[h - 1 - (h - 1 - y)]));
    }
    lemma_rows_no_error(lines, 32, h);
    lemma_rows_no_error(lines, 0, low_rows(h));
    let read = Seq::new(
        64,
        |y: int|
            if y < h {
                row_value(line_of(lines, y), 4)
            } else {
                0u8
            },
    );
    assert(read =~= rows);
}

impl Board {
    /// The text of row `y`.
    fn row_chars(&self, y: usize) -> (t: Vec<char>)
        requires
            y < 64,
        ensures
            t@ == row_text(self@[y as int]),
    {
        let r = self.row_at(y);
        let mut t: Vec<char> = Vec::new();
        let mut x: u8 = 0;
        while x < 4
            invariant
                x <= 4,
                t@ == row_text(r).subrange(0, x as int),
            decreases 4 - x,
        {
            let c = if (r >> x) & 1 == 1 {
                'X'
            } else {
                '_'
            };
            t.push(c);
            assert(t@ =~= row_text(r).subrange(0, x as int + 1));
            x = x + 1;
        }
        assert(row_text(r).subrange(0, 4) =~= row_text(r));
        t
    }

    /// The texts of the rows below the height, highest row first.
    fn row_lines(&self) -> (lines: Vec<Vec<char>>)
        ensures
            views(lines@) == rows_text(self@),
    {
        let h = self.height();
        let mut lines: Vec<Vec<char>> = Vec::new();
        let mut i: usize = 0;
        proof {
            self.lemma_rows();
        }
        while i < h
            invariant
                i <= h <= 64,
                h == rows_height(self@),
                self@.len() == 64,
                views(lines@) == rows_text(self@).subrange(0, i as int),
            decreases h - i,
        {
            let line = self.row_chars(h - 1 - i);
            let ghost before = views(lines@);
            lines.push(line);
            assert(views(lines@) =~= before.push(line@));
            assert(views(lines@) =~= rows_text(self@).subrange(0, i as int + 1));
            i = i + 1;
        }
        assert(rows_text(self@).subrange(0, h as int) =~= rows_text(self@));
        lines
    }

    /// The short text of the board: its rows, highest first, with `|` between
    /// them and without the empty rows above the stack.
    pub fn small(&self) -> (s: String)
        ensures
            s@ == small_text(self@),
    {
        let lines = self.row_lines();
        let mut bar: Vec<char> = Vec::new();
        bar.push('|');
        assert(bar@ =~= seq!['|']);
        let text = join_chars(&lines, bar.as_slice());
        string_of(text.as_slice())
    }

    /// The long text of the board: one line `|....|` for each row, highest
    /// first, or `<empty>` for the empty board.
    pub fn to_string(&self) -> (s: String)
        ensures
            s@ == display_text(self@),
    {
        let lines = self.row_lines();
        assert(views(lines@).len() == lines@.len());
        if lines.len() == 0 {
            return String::from_str("<empty>\n");
        }
        let mut s = String::new();
        let mut i: usize = 0;
        while i < lines.len()
            invariant
                i <= lines@.len(),
                lines@.len() == rows_height(self@),
                views(lines@) == rows_text(self@),
                s@ == framed_rows(self@, i as int),
            decreases lines@.len() - i,
        {
            assert(views(lines@)[i as int] == lines@[i as int]@);
            s.push('|');
            push_chars(&mut s, lines[i].as_slice());
            s.push('|');
            s.push('\n');
            assert(s@ =~= framed_rows(self@, i as int + 1));
            i = i + 1;
        }
        s
    }

    /// Reads one line of board text into row `y`.
    fn read_row(&mut self, line: &Vec<char>, y: usize) -> (r: Result<(), String>)
        requires
            y < 64,
        ensures
            match r {
                Ok(_) => row_error(line@).is_none() && final(self)@ == old(self)@.update(
                    y as int,
                    row_value(line@, 4),
                ),
                Err(e) => row_error(line@) == Some(e@),
            },
    {
        if !takes_bytes(line.as_slice(), 4) {
            let mut e = String::from_str("invalid row: ");
            push_chars(&mut e, line.as_slice());
            return Err(e);
        }
        let mut i: usize = 0;
        while i < line.len()
            invariant
                i <= line@.len(),
                utf8_bytes(line@) == 4,
                bad_char(line@, 0) == bad_char(line@, i as int),
                forall|j: int| 0 <= j < i ==> line@[j] == 'X' || line@[j] == '_',
            decreases line@.len() - i,
        {
            let c = line[i];
            if c != 'X' && c != '_' {
                let mut e = String::from_str("invalid char: ");
                e.push(c);
                assert(e@ =~= "invalid char: "@ + seq![c]);
                return Err(e);
            }
            i = i + 1;
        }
        proof {
            lemma_plain_row(line@, line@.len() as int);
        }
        let mut value: u8 = 0;
        let mut x: usize = 0;
        while x < 4
            invariant
                x <= 4,
                line@.len() == 4,
                value == row_value(line@, x as int),
                value < 16,
            decreases 4 - x,
        {
            let bit = line[x] == 'X';
            proof {
                lemma_with_bit(value, x as int, bit, 0);
            }
            value = if bit {
                value | (1u8 << (x as u8))
            } else {
                value & !(1u8 << (x as u8))
            };
            x = x + 1;
        }
        self.set_row(y, value);
        Ok(())
    }

    /// The board that the text writes: rows with `|` between them, highest row
    /// first, four characters each, `X` for a set cell and `_` for an empty
    /// one. Empty pieces between bars are skipped and the last row is row 0.
    pub fn parse(s: &str) -> (r: Result<Board, String>)
        ensures
            match r {
                Ok(b) => parse_rows(s@) == Ok::<Seq<u8>, Seq<char>>(b@),
                Err(e) => parse_rows(s@) == Err::<Seq<u8>, Seq<char>>(e@),
            },
    {
        let chars = chars_of(s);
        let lines = keep_nonempty(split_chars(chars.as_slice(), '|'));
        let n = lines.len();
        if n > 64 {
            return Err(String::from_str("too many rows"));
        }
        let mut board = Board::empty();
        let mut y: usize = 32;
        while y < n
            invariant
                32 <= y,
                n <= 64,
                n == lines@.len(),
                views(lines@) == nonempty(split(s@, '|')),
                n > 32 ==> y <= n,
                n <= 32 ==> y == 32,
                rows_error(views(lines@), 32, n as int) == rows_error(views(lines@), y as int, n as int),
                board@.len() == 64,
                forall|j: int|
                    0 <= j < 64 ==> board@[j] == (if 32 <= j < y {
                        row_value(line_of(views(lines@), j), 4)
                    } else {
                        0u8
                    }),
            decreases n - y,
        {
            assert(views(lines@)[n - 1 - y] == lines@[n - 1 - y]@);
            match board.read_row(&lines[n - 1 - y], y) {
                Ok(_) => {},
                Err(e) => {
                    return Err(e);
                },
            }
            y = y + 1;
        }
        let low = if n <= 32 {
            n
        } else {
            32
        };
        let mut y: usize = 0;
        while y < low
            invariant
                y <= low <= 32,
                low <= n <= 64,
                low == low_rows(n as int),
                n == lines@.len(),
                views(lines@) == nonempty(split(s@, '|')),
                rows_error(views(lines@), 32, n as int).is_none(),
                rows_error(views(lines@), 0, low as int) == rows_error(
                    views(lines@),
                    y as int,
                    low as int,
                ),
                board@.len() == 64,
                forall|j: int|
                    0 <= j < 64 ==> board@[j] == (if 32 <= j < n || j < y {
                        row_value(line_of(views(lines@), j), 4)
                    } else {
                        0u8
                    }),
            decreases low - y,
        {
            assert(views(lines@)[n - 1 - y] == lines@[n - 1 - y]@);
            match board.read_row(&lines[n - 1 - y], y) {
                Ok(_) => {},
                Err(e) => {
                    return Err(e);
                },
            }
            y = y + 1;
        }
        proof {
            let read = Seq::new(
                64,
                |y: int|
                    if y < n {
                        row_value(line_of(views(lines@), y), 4)
                    } else {
                        0u8
                    },
            );
            assert(board@ =~= read);
        }
        Ok(board)
    }
}

/// A line of four bytes without a character other than `X` and `_` has four
/// characters.
proof fn lemma_plain_row(line: Seq<char>, n: int)
    requires
        0 <= n <= line.len(),
        forall|j: int| 0 <= j < n ==> line[j] == 'X' || line[j] == '_',
    ensures
        utf8_bytes(line.subrange(0, n)) == n,
        n == line.len() && utf8_bytes(line) == 4 ==> line.len() == 4 && bad_char(line, 0).is_none(),
    decreases n,
{
    if n > 0 {
        lemma_plain_row(line, n - 1);
        assert(line.subrange(0, n).drop_last() =~= line.subrange(0, n - 1));
        assert(line.subrange(0, n).last() == line[n - 1]);
    }
    if n == line.len() {
        assert(line.subrange(0, n) =~= line);
        lemma_no_bad_char(line, 0);
    }
}

/// A line of `X` and `_` has no other character.
proof fn lemma_no_bad_char(line: Seq<char>, from: int)
    requires
        0 <= from <= line.len(),
        forall|j: int| 0 <= j < line.len() ==> line[j] == 'X' || line[j] == '_',
    ensures
        bad_char(line, from).is_none(),
    decreases line.len() - from,
{
    if from < line.len() {
        lemma_no_bad_char(line, from + 1);
    }
}

impl std::str::FromStr for Board {
    type Err = String;

    fn from_str(s: &str) -> (r: Result<Self, String>)
        ensures
            match r {
                Ok(b) => parse_rows(s@) == Ok::<Seq<u8>, Seq<char>>(b@),
                Err(e) => parse_rows(s@) == Err::<Seq<u8>, Seq<char>>(e@),
            },
    {
        Board::parse(s)
    }
}

} // verus!
