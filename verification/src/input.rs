//! A piece in play on a board, and what each key does to it.

use crate::bits::with_bit;
use crate::board::{Board, rows_height, skim_rows};
use crate::common::coordinate::Coordinate;
use crate::common::rotation::Rotation;
use crate::environment::Environment;
use crate::file::piece::Bag;
use crate::finesse::{Finesse, Key};
use crate::piece::{cell_at, cells_of, Piece};
use vstd::prelude::*;

verus! {

/// Whether the table has a shape for the piece as it is turned.
pub open spec fn stands(bag: Bag, piece: Piece) -> bool {
    bag.spec_get(piece.name, piece.rotation).is_some()
}

/// Whether the tables hold what a turn by `turns` quarter turns looks up for a
/// piece of `kind` that faces `from`: an entry of kicks, and, if that entry
/// has a test, a shape for the orientation turned to.
pub open spec fn can_turn(env: Environment, kind: u8, from: Rotation, turns: int) -> bool {
    match env.state.kicks.spec_get(kind, from, from.turned(turns)) {
        Some(kick) => kick.tests.values@.len() > 0 ==> env.state.bag.spec_get(
            kind,
            from.turned(turns),
        ).is_some(),
        None => false,
    }
}

/// Whether the tables hold what pressing `key` on the piece looks up: for a
/// turn what `can_turn` says, for a move or a drop the shape of the piece,
/// unless the piece stands where no step that way exists; for `Hold` nothing.
pub open spec fn ready(env: Environment, piece: Piece, key: Key) -> bool {
    match key {
        Key::MoveLeft | Key::DasLeft => piece.location.x > 0 ==> stands(env.state.bag, piece),
        Key::MoveRight | Key::DasRight => piece.location.x < usize::MAX ==> stands(
            env.state.bag,
            piece,
        ),
        Key::SoftDrop | Key::SonicDrop => piece.location.y > 0 ==> stands(env.state.bag, piece),
        Key::RotateCW => can_turn(env, piece.name, piece.rotation, 1),
        Key::RotateCCW => can_turn(env, piece.name, piece.rotation, 3),
        Key::Rotate180 => can_turn(env, piece.name, piece.rotation, 2),
        Key::Hold => true,
    }
}

/// Whether the tables hold what each of the keys looks up when they are
/// pressed one after the other.
pub open spec fn ready_all(board: Board, env: Environment, piece: Piece, keys: Seq<Key>) -> bool {
    forall|i: int|
        0 <= i < keys.len() ==> ready(
            env,
            #[trigger] run(board, env, piece, keys.subrange(0, i)),
            keys[i],
        )
}

/// Whether the tables of `env` hold what pressing `key` looks up for a piece
/// of `kind` in each orientation that has a shape: nothing but for a turn.
pub open spec fn serves(env: Environment, kind: u8, key: Key) -> bool {
    forall|r: Rotation|
        (#[trigger] env.state.bag.spec_get(kind, r)).is_some() ==> {
            &&& key == Key::RotateCW ==> can_turn(env, kind, r, 1)
            &&& key == Key::RotateCCW ==> can_turn(env, kind, r, 3)
            &&& key == Key::Rotate180 ==> can_turn(env, kind, r, 2)
        }
}

/// Whether the cell exists, lies in one of the four columns and is not set.
pub open spec fn cell_free(board: Board, c: Option<Coordinate<usize>>) -> bool {
    match c {
        Some(v) => v.x < 4 && !board.cell(v.x as int, v.y as int),
        None => false,
    }
}

/// Whether every cell of the piece is free. A piece without a shape in the
/// table does not fit.
pub open spec fn fits(board: Board, bag: Bag, piece: Piece) -> bool {
    match bag.spec_get(piece.name, piece.rotation) {
        Some(shape) => forall|i: int|
            0 <= i < shape.cells.values@.len() ==> cell_free(
                board,
                cell_at(piece.location, #[trigger] shape.cells.values@[i]),
            ),
        None => false,
    }
}

/// The piece with its anchor at `(x, y)`.
pub open spec fn at(piece: Piece, x: int, y: int) -> Piece {
    Piece {
        location: Coordinate { x: x as usize, y: y as usize },
        rotation: piece.rotation,
        name: piece.name,
    }
}

/// Whether the piece can stand `(dx, dy)` away from where it is.
pub open spec fn can_shift(board: Board, bag: Bag, piece: Piece, dx: int, dy: int) -> bool {
    let x = piece.location.x + dx;
    let y = piece.location.y + dy;
    0 <= x <= usize::MAX && 0 <= y <= usize::MAX && fits(board, bag, at(piece, x, y))
}

/// One step by `(dx, dy)` if the piece can stand there, else the piece as it
/// is.
pub open spec fn tapped(board: Board, bag: Bag, piece: Piece, dx: int, dy: int) -> Piece {
    if can_shift(board, bag, piece, dx, dy) {
        at(piece, piece.location.x + dx, piece.location.y + dy)
    } else {
        piece
    }
}

/// Steps to the left for as long as the next one is possible.
pub open spec fn slid_left(board: Board, bag: Bag, piece: Piece) -> Piece
    decreases piece.location.x,
{
    if can_shift(board, bag, piece, -1, 0) {
        slid_left(board, bag, at(piece, piece.location.x - 1, piece.location.y as int))
    } else {
        piece
    }
}

/// Steps to the right for as long as the next one is possible.
pub open spec fn slid_right(board: Board, bag: Bag, piece: Piece) -> Piece
    decreases usize::MAX - piece.location.x,
{
    if can_shift(board, bag, piece, 1, 0) {
        slid_right(board, bag, at(piece, piece.location.x + 1, piece.location.y as int))
    } else {
        piece
    }
}

/// Steps down for as long as the next one is possible.
pub open spec fn dropped(board: Board, bag: Bag, piece: Piece) -> Piece
    decreases piece.location.y,
{
    if can_shift(board, bag, piece, 0, -1) {
        dropped(board, bag, at(piece, piece.location.x as int, piece.location.y - 1))
    } else {
        piece
    }
}

/// The piece turned to `to` and moved by kick number `i`.
pub open spec fn kick_target(piece: Piece, to: Rotation, test: Coordinate<i32>) -> Piece {
    Piece {
        location: Coordinate {
            x: (piece.location.x + test.x) as usize,
            y: (piece.location.y + test.y) as usize,
        },
        rotation: to,
        name: piece.name,
    }
}

/// Whether kick `test` leads to a place where the turned piece fits.
pub open spec fn kick_works(
    board: Board,
    bag: Bag,
    piece: Piece,
    to: Rotation,
    test: Coordinate<i32>,
) -> bool {
    &&& 0 <= piece.location.x + test.x <= usize::MAX
    &&& 0 <= piece.location.y + test.y <= usize::MAX
    &&& fits(board, bag, kick_target(piece, to, test))
}

/// The piece after a turn to `to` that tries the kicks from number `from` on:
/// the first that works decides, and if none does the piece stays as it is.
pub open spec fn kicked(
    board: Board,
    bag: Bag,
    piece: Piece,
    to: Rotation,
    tests: Seq<Coordinate<i32>>,
    from: int,
) -> Piece
    decreases tests.len() - from,
{
    if from < 0 || from >= tests.len() {
        piece
    } else if kick_works(board, bag, piece, to, tests[from]) {
        kick_target(piece, to, tests[from])
    } else {
        kicked(board, bag, piece, to, tests, from + 1)
    }
}

/// The piece after a turn by `turns` quarter turns clockwise.
pub open spec fn turned(board: Board, env: Environment, piece: Piece, turns: int) -> Piece {
    let to = piece.rotation.turned(turns);
    match env.state.kicks.spec_get(piece.name, piece.rotation, to) {
        Some(kick) => kicked(board, env.state.bag, piece, to, kick.tests.values@, 0),
        None => piece,
    }
}

/// The piece after `key`.
#[verifier::opaque]
pub open spec fn pressed(board: Board, env: Environment, piece: Piece, key: Key) -> Piece {
    match key {
        Key::MoveLeft => tapped(board, env.state.bag, piece, -1, 0),
        Key::MoveRight => tapped(board, env.state.bag, piece, 1, 0),
        Key::SoftDrop => tapped(board, env.state.bag, piece, 0, -1),
        Key::DasLeft => slid_left(board, env.state.bag, piece),
        Key::DasRight => slid_right(board, env.state.bag, piece),
        Key::SonicDrop => dropped(board, env.state.bag, piece),
        Key::RotateCW => turned(board, env, piece, 1),
        Key::RotateCCW => turned(board, env, piece, 3),
        Key::Rotate180 => turned(board, env, piece, 2),
        Key::Hold => piece,
    }
}

/// The piece after the keys, one after the other.
pub open spec fn run(board: Board, env: Environment, piece: Piece, keys: Seq<Key>) -> Piece
    decreases keys.len(),
{
    if keys.len() == 0 {
        piece
    } else {
        pressed(board, env, run(board, env, piece, keys.drop_last()), keys.last())
    }
}

/// The last of the keys that moved or turned the piece, or `last` if none did.
pub open spec fn last_moving(
    board: Board,
    env: Environment,
    piece: Piece,
    last: Option<Key>,
    keys: Seq<Key>,
) -> Option<Key>
    decreases keys.len(),
{
    if keys.len() == 0 {
        last
    } else {
        let before = run(board, env, piece, keys.drop_last());
        if pressed(board, env, before, keys.last()) != before {
            Some(keys.last())
        } else {
            last_moving(board, env, piece, last, keys.drop_last())
        }
    }
}

/// The rows with one more cell set; a cell that does not exist or lies
/// outside the grid changes nothing.
pub open spec fn stamp(rows: Seq<u8>, c: Option<Coordinate<usize>>) -> Seq<u8> {
    match c {
        Some(v) => if v.x < 4 && v.y < 64 {
            rows.update(v.y as int, with_bit(rows[v.y as int], v.x as int, true))
        } else {
            rows
        },
        None => rows,
    }
}

/// The rows with all the cells set.
pub open spec fn stamped(rows: Seq<u8>, cells: Seq<Option<Coordinate<usize>>>) -> Seq<u8>
    decreases cells.len(),
{
    if cells.len() == 0 {
        rows
    } else {
        stamp(stamped(rows, cells.drop_last()), cells.last())
    }
}

/// The rows of the board after the piece is locked where it is: its cells
/// are set and full rows are cleared.
#[verifier::opaque]
pub open spec fn locked(board: Board, bag: Bag, piece: Piece) -> Seq<u8> {
    match bag.spec_get(piece.name, piece.rotation) {
        Some(shape) => skim_rows(stamped(board@, cells_of(piece.location, shape))),
        None => skim_rows(board@),
    }
}

/// Where a piece of `kind` enters the board: facing north, in column 1, four
/// rows above the stack.
pub open spec fn spawn(board: Board, kind: u8) -> Piece {
    Piece {
        location: Coordinate { x: 1, y: (rows_height(board@) + 4) as usize },
        rotation: Rotation::North,
        name: kind,
    }
}

/// Whether the corner at offset `off` from `anchor` counts as filled: it lies
/// outside the four columns, below the floor, at or above the stack's height,
/// or on a set cell.
pub open spec fn corner_filled(board: Board, anchor: Coordinate<usize>, off: Coordinate<i32>) -> bool {
    let x = anchor.x + off.x;
    let y = anchor.y + off.y;
    x < 0 || y < 0 || x >= 4 || y >= rows_height(board@) || board.cell(x, y)
}

/// How many of the first `n` corners count as filled.
pub open spec fn filled_corners(
    board: Board,
    anchor: Coordinate<usize>,
    corners: Seq<Coordinate<i32>>,
    n: int,
) -> nat
    decreases n,
{
    if n <= 0 {
        0
    } else {
        filled_corners(board, anchor, corners, n - 1) + (if corner_filled(
            board,
            anchor,
            corners[n - 1],
        ) {
            1nat
        } else {
            0nat
        })
    }
}

/// Whether `key` is one of the three turns.
pub open spec fn is_turn(key: Option<Key>) -> bool {
    key == Some(Key::RotateCW) || key == Some(Key::RotateCCW) || key == Some(Key::Rotate180)
}

/// A piece in play: the board, the piece, the ruleset, and the last key that
/// moved or turned the piece.
#[derive(Copy, Clone, Debug, PartialEq, Eq)]
pub struct Input<'a> {
    pub board: Board,
    pub piece: Piece,
    pub environment: &'a Environment<'a>,
    pub last_successful_action: Option<Key>,
}

impl<'a> Input<'a> {
    /// The last key that moved or turned the piece.
    pub open spec fn last_action(self) -> Option<Key> {
        self.last_successful_action
    }

    /// Whether `self` is what `before` becomes when `key` is pressed: the same
    /// board and ruleset, the piece where the key takes it, and the key noted
    /// if it moved or turned the piece.
    pub open spec fn follows(self, before: Input<'a>, key: Key) -> bool {
        &&& self.board == before.board
        &&& self.environment == before.environment
        &&& self.piece == pressed(before.board, *before.environment, before.piece, key)
        &&& self.last_action() == (if self.piece != before.piece {
            Some(key)
        } else {
            before.last_action()
        })
    }

    /// A piece of kind `p` at its spawn place on `board`.
    #[must_use]
    pub fn new(board: Board, p: u8, environment: &'a Environment<'a>) -> (i: Self)
        ensures
            i.board == board,
            i.piece == spawn(board, p),
            i.environment == environment,
            i.last_action().is_none(),
    {
        let piece = Piece {
            name: p,
            rotation: Rotation::North,
            location: Coordinate::new(1, board.height() + 4),
        };
        Self { board, piece, environment, last_successful_action: None }
    }

    /// The piece: what tells one state of play on a board from another.
    #[must_use]
    pub fn fingerprint(&self) -> (p: Piece)
        ensures
            p == self.piece,
    {
        self.piece
    }

    /// The last key that moved or turned the piece.
    pub fn last_key(&self) -> (k: Option<Key>)
        ensures
            k == self.last_action(),
    {
        self.last_successful_action
    }

    /// Whether `piece` would fit on the board.
    pub fn probe(&self, piece: &Piece) -> (b: bool)
        requires
            self.environment.state.bag.spec_get(piece.name, piece.rotation).is_some(),
        ensures
            b == fits(self.board, self.environment.state.bag, *piece),
    {
        let cells = piece.cells(self.environment);
        let ghost shape = self.environment.state.bag.spec_get(piece.name, piece.rotation).unwrap();
        let mut i: usize = 0;
        while i < cells.len()
            invariant
                i <= cells@.len(),
                cells@ == cells_of(piece.location, shape),
                self.environment.state.bag.spec_get(piece.name, piece.rotation) == Some(shape),
                forall|j: int|
                    0 <= j < i ==> cell_free(
                        self.board,
                        cell_at(piece.location, #[trigger] shape.cells.values@[j]),
                    ),
            decreases cells@.len() - i,
        {
            let free = match cells[i] {
                Some(v) => v.x < self.board.width() && !self.board.get(v.x, v.y),
                None => false,
            };
            assert(cells@[i as int] == cell_at(piece.location, shape.cells.values@[i as int]));
            assert(free == cell_free(
                self.board,
                cell_at(piece.location, shape.cells.values@[i as int]),
            ));
            if !free {
                return false;
            }
            i = i + 1;
        }
        true
    }

    /// Whether every cell of the piece lies in the four columns, not below the
    /// floor, and on no set cell.
    #[must_use]
    pub fn is_valid(&self) -> (b: bool)
        requires
            self.environment.state.bag.spec_get(self.piece.name, self.piece.rotation).is_some(),
        ensures
            b == fits(self.board, self.environment.state.bag, self.piece),
    {
        self.probe(&self.piece)
    }

    fn settle(&mut self, piece: Piece, key: Key)
        requires
            piece == pressed(old(self).board, *old(self).environment, old(self).piece, key),
        ensures
            final(self).follows(*old(self), key),
    {
        if !piece.same(&self.piece) {
            self.piece = piece;
            self.last_successful_action = Some(key);
        }
    }

    fn tap(&self, dx: i8, dy: i8) -> (p: Piece)
        requires
            (0 <= self.piece.location.x + dx <= usize::MAX && 0 <= self.piece.location.y + dy
                <= usize::MAX) ==> stands(self.environment.state.bag, self.piece),
            -1 <= dx <= 1,
            -1 <= dy <= 1,
        ensures
            p == tapped(self.board, self.environment.state.bag, self.piece, dx as int, dy as int),
    {
        let x = self.piece.location.x.checked_add_signed(dx as isize);
        let y = self.piece.location.y.checked_add_signed(dy as isize);
        match (x, y) {
            (Some(x), Some(y)) => {
                let q = Piece {
                    location: Coordinate::new(x, y),
                    rotation: self.piece.rotation,
                    name: self.piece.name,
                };
                assert(self.environment.state.bag.spec_get(q.name, q.rotation).is_some());
                if self.probe(&q) {
                    q
                } else {
                    self.piece
                }
            },
            _ => self.piece,
        }
    }

    /// One column to the left, if the piece fits there.
    pub fn move_left(&mut self)
        requires
            ready(*old(self).environment, old(self).piece, Key::MoveLeft),
        ensures
            final(self).follows(*old(self), Key::MoveLeft),
    {
        let p = self.tap(-1, 0);
        proof {
            reveal(pressed);
        }
        self.settle(p, Key::MoveLeft);
    }

    /// One column to the right, if the piece fits there.
    pub fn move_right(&mut self)
        requires
            ready(*old(self).environment, old(self).piece, Key::MoveRight),
        ensures
            final(self).follows(*old(self), Key::MoveRight),
    {
        let p = self.tap(1, 0);
        proof {
            reveal(pressed);
        }
        self.settle(p, Key::MoveRight);
    }

    /// One row down, if the piece fits there.
    pub fn soft_drop(&mut self)
        requires
            ready(*old(self).environment, old(self).piece, Key::SoftDrop),
        ensures
            final(self).follows(*old(self), Key::SoftDrop),
    {
        let p = self.tap(0, -1);
        proof {
            reveal(pressed);
        }
        self.settle(p, Key::SoftDrop);
    }

    /// To the left until the next step would not fit.
    pub fn das_left(&mut self)
        requires
            ready(*old(self).environment, old(self).piece, Key::DasLeft),
        ensures
            final(self).follows(*old(self), Key::DasLeft),
    {
        let ghost bag = self.environment.state.bag;
        let start = self.piece;
        let mut p = self.piece;
        let mut go = true;
        while go
            invariant
                *self == *old(self),
                start == self.piece,
                bag == self.environment.state.bag,
                start.location.x > 0 ==> stands(bag, start),
                p.location.x <= start.location.x,
                p.name == start.name,
                p.rotation == start.rotation,
                slid_left(self.board, bag, start) == (if go {
                    slid_left(self.board, bag, p)
                } else {
                    p
                }),
            decreases p.location.x + (if go { 1int } else { 0int }),
        {
            if p.location.x == 0 {
                go = false;
            } else {
                let q = Piece {
                    location: Coordinate::new(p.location.x - 1, p.location.y),
                    rotation: p.rotation,
                    name: p.name,
                };
                assert(bag.spec_get(q.name, q.rotation).is_some());
                if self.probe(&q) {
                    p = q;
                } else {
                    go = false;
                }
            }
        }
        proof {
            reveal(pressed);
        }
        self.settle(p, Key::DasLeft);
    }

    /// To the right until the next step would not fit.
    pub fn das_right(&mut self)
        requires
            ready(*old(self).environment, old(self).piece, Key::DasRight),
        ensures
            final(self).follows(*old(self), Key::DasRight),
    {
        let ghost bag = self.environment.state.bag;
        let start = self.piece;
        let mut p = self.piece;
        let mut go = true;
        while go
            invariant
                *self == *old(self),
                start == self.piece,
                bag == self.environment.state.bag,
                start.location.x < usize::MAX ==> stands(bag, start),
                p.location.x >= start.location.x,
                p.name == start.name,
                p.rotation == start.rotation,
                slid_right(self.board, bag, start) == (if go {
                    slid_right(self.board, bag, p)
                } else {
                    p
                }),
            decreases usize::MAX - p.location.x + (if go { 1int } else { 0int }),
        {
            if p.location.x == usize::MAX {
                go = false;
            } else {
                let q = Piece {
                    location: Coordinate::new(p.location.x + 1, p.location.y),
                    rotation: p.rotation,
                    name: p.name,
                };
                assert(bag.spec_get(q.name, q.rotation).is_some());
                if self.probe(&q) {
                    p = q;
                } else {
                    go = false;
                }
            }
        }
        proof {
            reveal(pressed);
        }
        self.settle(p, Key::DasRight);
    }

    fn fall(&self) -> (p: Piece)
        requires
            self.piece.location.y > 0 ==> stands(self.environment.state.bag, self.piece),
        ensures
            p == dropped(self.board, self.environment.state.bag, self.piece),
    {
        let ghost bag = self.environment.state.bag;
        let start = self.piece;
        let mut p = self.piece;
        let mut go = true;
        while go
            invariant
                start == self.piece,
                bag == self.environment.state.bag,
                start.location.y > 0 ==> stands(bag, start),
                p.location.y <= start.location.y,
                p.name == start.name,
                p.rotation == start.rotation,
                dropped(self.board, bag, start) == (if go {
                    dropped(self.board, bag, p)
                } else {
                    p
                }),
            decreases p.location.y + (if go { 1int } else { 0int }),
        {
            if p.location.y == 0 {
                go = false;
            } else {
                let q = Piece {
                    location: Coordinate::new(p.location.x, p.location.y - 1),
                    rotation: p.rotation,
                    name: p.name,
                };
                assert(bag.spec_get(q.name, q.rotation).is_some());
                if self.probe(&q) {
                    p = q;
                } else {
                    go = false;
                }
            }
        }
        p
    }

    /// Down until the next step would not fit.
    pub fn sonic_drop(&mut self)
        requires
            ready(*old(self).environment, old(self).piece, Key::SonicDrop),
        ensures
            final(self).follows(*old(self), Key::SonicDrop),
    {
        let p = self.fall();
        proof {
            reveal(pressed);
        }
        self.settle(p, Key::SonicDrop);
    }

    fn turn(&self, to: Rotation, turns: Ghost<int>) -> (p: Piece)
        requires
            to == self.piece.rotation.turned(turns@),
            can_turn(*self.environment, self.piece.name, self.piece.rotation, turns@),
        ensures
            p == turned(self.board, *self.environment, self.piece, turns@),
    {
        let ghost bag = self.environment.state.bag;
        let k = self.environment.state.kicks.get(&self.piece, self.piece.rotation, to).unwrap();
        let start = self.piece;
        let mut i: usize = 0;
        while i < k.tests.values.len()
            invariant
                i <= k.tests.values@.len(),
                start == self.piece,
                bag == self.environment.state.bag,
                to == start.rotation.turned(turns@),
                self.environment.state.kicks.spec_get(start.name, start.rotation, to) == Some(*k),
                k.tests.values@.len() > 0 ==> bag.spec_get(start.name, to).is_some(),
                kicked(self.board, bag, start, to, k.tests.values@, 0) == kicked(
                    self.board,
                    bag,
                    start,
                    to,
                    k.tests.values@,
                    i as int,
                ),
            decreases k.tests.values@.len() - i,
        {
            let test = k.tests.values[i];
            let cx = start.location.x.checked_add_signed(test.x as isize);
            let cy = start.location.y.checked_add_signed(test.y as isize);
            match (cx, cy) {
                (Some(x), Some(y)) => {
                    let q = Piece { location: Coordinate::new(x, y), rotation: to, name: start.name };
                    assert(bag.spec_get(q.name, q.rotation).is_some());
                    assert(q == kick_target(start, to, test));
                    if self.probe(&q) {
                        assert(kick_works(self.board, bag, start, to, test));
                        assert(k.tests.values@[i as int] == test);
                        return q;
                    }
                },
                _ => {},
            }
            i = i + 1;
        }
        start
    }

    /// A quarter turn clockwise, at the first kick that fits; nothing if none
    /// fits.
    pub fn rotate_cw(&mut self)
        requires
            ready(*old(self).environment, old(self).piece, Key::RotateCW),
        ensures
            final(self).follows(*old(self), Key::RotateCW),
    {
        let fr = self.piece.rotation.rotate_cw();
        let p = self.turn(fr, Ghost(1));
        proof {
            reveal(pressed);
        }
        self.settle(p, Key::RotateCW);
    }

    /// A quarter turn counterclockwise, at the first kick that fits; nothing if
    /// none fits.
    pub fn rotate_ccw(&mut self)
        requires
            ready(*old(self).environment, old(self).piece, Key::RotateCCW),
        ensures
            final(self).follows(*old(self), Key::RotateCCW),
    {
        let fr = self.piece.rotation.rotate_ccw();
        let p = self.turn(fr, Ghost(3));
        proof {
            reveal(pressed);
        }
        self.settle(p, Key::RotateCCW);
    }

    /// A half turn, at the first kick that fits; nothing if none fits.
    pub fn rotate_180(&mut self)
        requires
            ready(*old(self).environment, old(self).piece, Key::Rotate180),
        ensures
            final(self).follows(*old(self), Key::Rotate180),
    {
        let fr = self.piece.rotation.rotate_180();
        let p = self.turn(fr, Ghost(2));
        proof {
            reveal(pressed);
        }
        self.settle(p, Key::Rotate180);
    }

    /// Presses `key`. `Hold` does nothing here.
    pub fn send(&mut self, key: Key)
        requires
            ready(*old(self).environment, old(self).piece, key),
        ensures
            final(self).follows(*old(self), key),
    {
        match key {
            Key::MoveLeft => self.move_left(),
            Key::MoveRight => self.move_right(),
            Key::SoftDrop => self.soft_drop(),
            Key::DasLeft => self.das_left(),
            Key::DasRight => self.das_right(),
            Key::SonicDrop => self.sonic_drop(),
            Key::RotateCW => self.rotate_cw(),
            Key::RotateCCW => self.rotate_ccw(),
            Key::Rotate180 => self.rotate_180(),
            Key::Hold => {
                proof {
                    reveal(pressed);
                }
            },
        }
    }

    /// Locks the piece, after a sonic drop if `hd` is set: sets its cells on
    /// the board and clears the full rows. Returns the board.
    #[must_use]
    pub fn place(self, hd: bool) -> (b: Board)
        requires
            stands(self.environment.state.bag, self.piece),
        ensures
            b@ == locked(
                self.board,
                self.environment.state.bag,
                if hd {
                    dropped(self.board, self.environment.state.bag, self.piece)
                } else {
                    self.piece
                },
            ),
    {
        let piece = if hd {
            self.fall()
        } else {
            self.piece
        };
        proof {
            lemma_slides_keep(self.board, self.environment.state.bag, self.piece);
        }
        assert(self.environment.state.bag.spec_get(piece.name, piece.rotation).is_some());
        let cells = piece.cells(self.environment);
        let mut board = self.board;
        let mut i: usize = 0;
        proof {
            board.lemma_rows();
        }
        while i < cells.len()
            invariant
                i <= cells@.len(),
                board@.len() == 64,
                board@ == stamped(self.board@, cells@.subrange(0, i as int)),
            decreases cells@.len() - i,
        {
            proof {
                assert(cells@.subrange(0, i as int + 1).drop_last() =~= cells@.subrange(0, i as int));
                board.lemma_rows();
            }
            match cells[i] {
                Some(c) => {
                    board.set(c.x, c.y, true);
                },
                None => {},
            }
            i = i + 1;
        }
        assert(cells@.subrange(0, cells@.len() as int) =~= cells@);
        board.skim();
        proof {
            reveal(locked);
        }
        board
    }

    /// Whether the placement at hand is a spin: the last key that moved or
    /// turned the piece was a turn, and at least three corners of the piece
    /// count as filled. A piece without corners in the table never spins.
    #[must_use]
    pub fn is_spin(&self) -> (b: bool)
        ensures
            b == (is_turn(self.last_action()) && match self.environment.state.corners.spec_get(
                self.piece.name,
                self.piece.rotation,
            ) {
                Some(set) => filled_corners(
                    self.board,
                    self.piece.location,
                    set.corners.values@,
                    set.corners.values@.len() as int,
                ) >= 3,
                None => false,
            }),
    {
        match self.last_successful_action {
            Some(Key::RotateCW) => {},
            Some(Key::RotateCCW) => {},
            Some(Key::Rotate180) => {},
            _ => { return false; },
        }
        let corner_set = match self.environment.state.corners.get(
            self.piece.name,
            self.piece.rotation,
        ) {
            Some(set) => set,
            None => { return false; },
        };
        let height = self.board.height();
        let mut filled: usize = 0;
        let mut i: usize = 0;
        while i < corner_set.corners.values.len()
            invariant
                i <= corner_set.corners.values@.len(),
                height == rows_height(self.board@),
                height <= 64,
                filled <= i,
                filled == filled_corners(
                    self.board,
                    self.piece.location,
                    corner_set.corners.values@,
                    i as int,
                ),
            decreases corner_set.corners.values@.len() - i,
        {
            let corner = corner_set.corners.values[i];
            let x: i128 = self.piece.location.x as i128 + corner.x as i128;
            let y: i128 = self.piece.location.y as i128 + corner.y as i128;
            if x < 0 || y < 0 || x >= 4 || y >= height as i128 || self.board.get(
                x as usize,
                y as usize,
            ) {
                filled = filled + 1;
            }
            i = i + 1;
        }
        filled >= 3
    }

    /// Presses the keys of `f`, one after the other.
    pub fn apply(&mut self, f: Finesse)
        requires
            ready_all(old(self).board, *old(self).environment, old(self).piece, f@),
        ensures
            final(self).board == old(self).board,
            final(self).environment == old(self).environment,
            final(self).piece == run(old(self).board, *old(self).environment, old(self).piece, f@),
            final(self).last_action() == last_moving(
                old(self).board,
                *old(self).environment,
                old(self).piece,
                old(self).last_action(),
                f@,
            ),
    {
        let n = f.len();
        let mut i: u8 = 0;
        while i < n
            invariant
                i <= n,
                n == f@.len(),
                self.board == old(self).board,
                self.environment == old(self).environment,
                ready_all(old(self).board, *old(self).environment, old(self).piece, f@),
                self.piece == run(
                    old(self).board,
                    *old(self).environment,
                    old(self).piece,
                    f@.subrange(0, i as int),
                ),
                self.last_action() == last_moving(
                    old(self).board,
                    *old(self).environment,
                    old(self).piece,
                    old(self).last_action(),
                    f@.subrange(0, i as int),
                ),
            decreases n - i,
        {
            let key = f.get(i).unwrap();
            proof {
                assert(f@.subrange(0, i as int + 1).drop_last() =~= f@.subrange(0, i as int));
                assert(f@.subrange(0, i as int + 1).last() == key);
                assert(ready(
                    *old(self).environment,
                    run(old(self).board, *old(self).environment, old(self).piece, f@.subrange(0, i as int)),
                    f@[i as int],
                ));
            }
            self.send(key);
            i = i + 1;
        }
        assert(f@.subrange(0, n as int) =~= f@);
    }
}

/// No key changes the kind of the piece.
pub proof fn lemma_same_kind(board: Board, env: Environment, piece: Piece, key: Key)
    ensures
        pressed(board, env, piece, key).name == piece.name,
        dropped(board, env.state.bag, piece).name == piece.name,
{
    reveal(pressed);
    lemma_slides_keep(board, env.state.bag, piece);
    match env.state.kicks.spec_get(piece.name, piece.rotation, piece.rotation.turned(1)) {
        Some(k) => lemma_kicked_keeps(board, env.state.bag, piece, piece.rotation.turned(1), k.tests.values@, 0),
        None => {},
    }
    match env.state.kicks.spec_get(piece.name, piece.rotation, piece.rotation.turned(2)) {
        Some(k) => lemma_kicked_keeps(board, env.state.bag, piece, piece.rotation.turned(2), k.tests.values@, 0),
        None => {},
    }
    match env.state.kicks.spec_get(piece.name, piece.rotation, piece.rotation.turned(3)) {
        Some(k) => lemma_kicked_keeps(board, env.state.bag, piece, piece.rotation.turned(3), k.tests.values@, 0),
        None => {},
    }
}

/// Sliding and dropping keep the kind and the orientation.
pub proof fn lemma_slides_keep(board: Board, bag: Bag, piece: Piece)
    ensures
        slid_left(board, bag, piece).name == piece.name,
        slid_left(board, bag, piece).rotation == piece.rotation,
        slid_right(board, bag, piece).name == piece.name,
        slid_right(board, bag, piece).rotation == piece.rotation,
        dropped(board, bag, piece).name == piece.name,
        dropped(board, bag, piece).rotation == piece.rotation,
{
    lemma_slid_left_keeps(board, bag, piece);
    lemma_slid_right_keeps(board, bag, piece);
    lemma_dropped_keeps(board, bag, piece);
}

proof fn lemma_slid_left_keeps(board: Board, bag: Bag, piece: Piece)
    ensures
        slid_left(board, bag, piece).name == piece.name,
        slid_left(board, bag, piece).rotation == piece.rotation,
    decreases piece.location.x,
{
    if can_shift(board, bag, piece, -1, 0) {
        lemma_slid_left_keeps(board, bag, at(piece, piece.location.x - 1, piece.location.y as int));
    }
}

proof fn lemma_slid_right_keeps(board: Board, bag: Bag, piece: Piece)
    ensures
        slid_right(board, bag, piece).name == piece.name,
        slid_right(board, bag, piece).rotation == piece.rotation,
    decreases usize::MAX - piece.location.x,
{
    if can_shift(board, bag, piece, 1, 0) {
        lemma_slid_right_keeps(board, bag, at(piece, piece.location.x + 1, piece.location.y as int));
    }
}

proof fn lemma_dropped_keeps(board: Board, bag: Bag, piece: Piece)
    ensures
        dropped(board, bag, piece).name == piece.name,
        dropped(board, bag, piece).rotation == piece.rotation,
    decreases piece.location.y,
{
    if can_shift(board, bag, piece, 0, -1) {
        lemma_dropped_keeps(board, bag, at(piece, piece.location.x as int, piece.location.y - 1));
    }
}

/// A turn leaves the piece as it was or where it fits.
proof fn lemma_kicked_fits(
    board: Board,
    bag: Bag,
    piece: Piece,
    to: Rotation,
    tests: Seq<Coordinate<i32>>,
    from: int,
)
    ensures
        kicked(board, bag, piece, to, tests, from) == piece || fits(
            board,
            bag,
            kicked(board, bag, piece, to, tests, from),
        ),
    decreases tests.len() - from,
{
    if 0 <= from < tests.len() && !kick_works(board, bag, piece, to, tests[from]) {
        lemma_kicked_fits(board, bag, piece, to, tests, from + 1);
    }
}

/// A piece that has a shape still has one after any key, and is of the same
/// kind.
pub proof fn lemma_pressed_stands(board: Board, env: Environment, piece: Piece, key: Key)
    requires
        stands(env.state.bag, piece),
    ensures
        stands(env.state.bag, pressed(board, env, piece, key)),
        pressed(board, env, piece, key).name == piece.name,
{
    reveal(pressed);
    lemma_same_kind(board, env, piece, key);
    lemma_slides_keep(board, env.state.bag, piece);
    match env.state.kicks.spec_get(piece.name, piece.rotation, piece.rotation.turned(1)) {
        Some(k) => lemma_kicked_fits(board, env.state.bag, piece, piece.rotation.turned(1), k.tests.values@, 0),
        None => {},
    }
    match env.state.kicks.spec_get(piece.name, piece.rotation, piece.rotation.turned(2)) {
        Some(k) => lemma_kicked_fits(board, env.state.bag, piece, piece.rotation.turned(2), k.tests.values@, 0),
        None => {},
    }
    match env.state.kicks.spec_get(piece.name, piece.rotation, piece.rotation.turned(3)) {
        Some(k) => lemma_kicked_fits(board, env.state.bag, piece, piece.rotation.turned(3), k.tests.values@, 0),
        None => {},
    }
}

proof fn lemma_kicked_keeps(
    board: Board,
    bag: Bag,
    piece: Piece,
    to: Rotation,
    tests: Seq<Coordinate<i32>>,
    from: int,
)
    ensures
        kicked(board, bag, piece, to, tests, from).name == piece.name,
    decreases tests.len() - from,
{
    if 0 <= from < tests.len() && !kick_works(board, bag, piece, to, tests[from]) {
        lemma_kicked_keeps(board, bag, piece, to, tests, from + 1);
    }
}

} // verus!
