//! A piece on the board.

use crate::common::coordinate::Coordinate;
use crate::common::rotation::Rotation;
use crate::environment::Environment;
use crate::file::piece::Shape;
use vstd::prelude::*;

verus! {

/// A piece kind (a byte, usually the ASCII letter of the piece) in an
/// orientation, with its anchor at `location`.
#[derive(Copy, Clone, Debug, Hash, PartialEq, Eq)]
pub struct Piece {
    pub location: Coordinate<usize>,
    pub rotation: Rotation,
    pub name: u8,
}

/// The cell at offset `off` from `anchor`, unless a coordinate of it is
/// negative or too large for the machine.
pub open spec fn cell_at(anchor: Coordinate<usize>, off: Coordinate<i32>) -> Option<
    Coordinate<usize>,
> {
    if 0 <= anchor.x + off.x <= usize::MAX && 0 <= anchor.y + off.y <= usize::MAX {
        Some(Coordinate { x: (anchor.x + off.x) as usize, y: (anchor.y + off.y) as usize })
    } else {
        None
    }
}

/// The cells that a shape covers when its anchor is at `anchor`, in the order
/// of the shape's offsets.
pub open spec fn cells_of(anchor: Coordinate<usize>, shape: Shape) -> Seq<
    Option<Coordinate<usize>>,
> {
    Seq::new(shape.cells.values@.len(), |i: int| cell_at(anchor, shape.cells.values@[i]))
}

impl Piece {
    /// Whether both pieces are the same kind in the same orientation at the
    /// same place.
    pub fn same(&self, other: &Piece) -> (b: bool)
        ensures
            b == (*self == *other),
    {
        self.location.x == other.location.x && self.location.y == other.location.y
            && self.rotation == other.rotation && self.name == other.name
    }

    /// The cells of this piece under the shapes of `env`; `None` stands for a
    /// cell that lies left of or below the board, or beyond the machine's range.
    pub fn cells(&self, env: &Environment) -> (v: Vec<Option<Coordinate<usize>>>)
        requires
            env.state.bag.spec_get(self.name, self.rotation).is_some(),
        ensures
            v@ == cells_of(self.location, env.state.bag.spec_get(self.name, self.rotation).unwrap()),
    {
        let shape = env.state.bag.get(self.name, self.rotation).unwrap();
        let mut v: Vec<Option<Coordinate<usize>>> = Vec::new();
        let mut i: usize = 0;
        while i < shape.cells.values.len()
            invariant
                i <= shape.cells.values@.len(),
                v@ == cells_of(self.location, *shape).subrange(0, i as int),
            decreases shape.cells.values@.len() - i,
        {
            let c = shape.cells.values[i];
            let x = self.location.x.checked_add_signed(c.x as isize);
            let y = self.location.y.checked_add_signed(c.y as isize);
            let cell = match (x, y) {
                (Some(x), Some(y)) => Some(Coordinate::new(x, y)),
                _ => None,
            };
            v.push(cell);
            assert(v@ =~= cells_of(self.location, *shape).subrange(0, i as int + 1));
            i = i + 1;
        }
        assert(v@ =~= cells_of(self.location, *shape));
        v
    }
}

} // verus!
