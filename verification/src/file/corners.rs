//! Spin-corner tables: the cells around a piece that decide whether a rotation
//! counts as a spin.

use crate::common::UnknownVariant;
use crate::common::coordinate::{Coordinate, CoordinateParseErr, Coordinates, parse_coordinates};
use crate::common::rotation::{parse_rotation, Rotation};
use crate::file::{kind_of, LineFault, read_kind};
use crate::text::{chars_of, find_char, find_from, lines, lines_of, slice_chars, views};
use vstd::prelude::*;

verus! {

/// The corner offsets of one piece kind in one orientation.
#[derive(Clone, Debug, PartialEq, Eq)]
pub struct CornerSet {
    pub piece: u8,
    pub rotation: Rotation,
    pub corners: Coordinates<i32>,
}

/// A corner table.
#[derive(Clone, Debug, PartialEq, Eq)]
pub struct Corners {
    pub entries: Vec<CornerSet>,
}

impl Corners {
    /// The index of the first entry at or after `from` for `piece` in
    /// `rotation`.
    pub open spec fn spec_position(self, from: int, piece: u8, rotation: Rotation) -> Option<int>
        decreases self.entries@.len() - from,
    {
        if from < 0 || from >= self.entries@.len() {
            None
        } else if self.entries@[from].piece == piece && self.entries@[from].rotation == rotation {
            Some(from)
        } else {
            self.spec_position(from + 1, piece, rotation)
        }
    }

    /// The first entry for `piece` in `rotation`.
    pub open spec fn spec_get(self, piece: u8, rotation: Rotation) -> Option<CornerSet> {
        match self.spec_position(0, piece, rotation) {
            Some(i) => Some(self.entries@[i]),
            None => None,
        }
    }

    /// The first entry for `piece` in `rotation`.
    #[must_use]
    pub fn get(&self, piece: u8, rotation: Rotation) -> (c: Option<&CornerSet>)
        ensures
            match c {
                Some(e) => self.spec_get(piece, rotation) == Some(*e),
                None => self.spec_get(piece, rotation).is_none(),
            },
    {
        let mut i: usize = 0;
        while i < self.entries.len()
            invariant
                i <= self.entries@.len(),
                self.spec_position(0, piece, rotation) == self.spec_position(
                    i as int,
                    piece,
                    rotation,
                ),
            decreases self.entries@.len() - i,
        {
            let e = &self.entries[i];
            if e.piece == piece && e.rotation == rotation {
                return Some(e);
            }
            i = i + 1;
        }
        None
    }
}

/// What can be wrong with the text of a corner table.
#[derive(Clone, Debug, PartialEq, Eq)]
pub enum CornerParseErr {
    Malformed,
    UnknownRotation(UnknownVariant),
    CoordinatesErr(CoordinateParseErr),
}

impl CornerParseErr {
    /// The fault that the error reports.
    pub open spec fn fault(self) -> LineFault {
        match self {
            CornerParseErr::Malformed => LineFault::Malformed,
            CornerParseErr::UnknownRotation(u) => LineFault::UnknownRotation(u.0@),
            CornerParseErr::CoordinatesErr(c) => LineFault::Coordinates(c),
        }
    }
}

/// What an entry of a corner table holds: kind, orientation, corner offsets.
pub type CornerRow = (u8, Rotation, Seq<Coordinate<i32>>);

/// What a line means as an entry of a corner table. The line reads
/// `K.R=CORNERS`: the kind `K` is the one character before the first `.`,
/// what follows up to the first `=` names the orientation, and the rest is
/// the list of offsets.
pub open spec fn parse_corner_set(s: Seq<char>) -> Result<CornerRow, LineFault> {
    let p = find_from(s, '.', 0);
    let e = find_from(s, '=', 0);
    if p >= s.len() || e >= s.len() {
        Err(LineFault::Malformed)
    } else {
        match kind_of(s.subrange(0, p)) {
            None => Err(LineFault::Malformed),
            Some(kind) => if e < p + 1 {
                Err(LineFault::Malformed)
            } else {
                match parse_rotation(s.subrange(p + 1, e)) {
                    Err(t) => Err(LineFault::UnknownRotation(t)),
                    Ok(rotation) => match parse_coordinates(s.subrange(e + 1, s.len() as int)) {
                        Err(c) => Err(LineFault::Coordinates(c)),
                        Ok(corners) => Ok((kind, rotation, corners)),
                    },
                }
            },
        }
    }
}

/// What the first `n` lines mean as entries of a corner table, or the fault
/// of the first line that has one.
pub open spec fn parse_corner_lines(lines: Seq<Seq<char>>, n: int) -> Result<
    Seq<CornerRow>,
    LineFault,
>
    decreases n,
{
    if n <= 0 {
        Ok(Seq::empty())
    } else {
        match parse_corner_lines(lines, n - 1) {
            Err(e) => Err(e),
            Ok(rows) => match parse_corner_set(lines[n - 1]) {
                Err(e) => Err(e),
                Ok(row) => Ok(rows.push(row)),
            },
        }
    }
}

/// Once a line has a fault, reading more lines keeps the fault.
proof fn lemma_corner_lines_fault(lines: Seq<Seq<char>>, n: int, m: int)
    requires
        0 <= n <= m,
        parse_corner_lines(lines, n).is_err(),
    ensures
        parse_corner_lines(lines, m) == parse_corner_lines(lines, n),
    decreases m - n,
{
    if n < m {
        lemma_corner_lines_fault(lines, n, m - 1);
    }
}

impl CornerSet {
    /// What the entry holds.
    pub open spec fn row(self) -> CornerRow {
        (self.piece, self.rotation, self.corners.values@)
    }

    /// The entry that the characters of a line write.
    pub fn read(s: &[char]) -> (r: Result<CornerSet, CornerParseErr>)
        ensures
            match r {
                Ok(k) => parse_corner_set(s@) == Ok::<CornerRow, LineFault>(k.row()),
                Err(e) => parse_corner_set(s@) == Err::<CornerRow, LineFault>(e.fault()),
            },
    {
        let n = s.len();
        let p = match find_char(s, '.', 0) {
            Some(p) => p,
            None => {
                return Err(CornerParseErr::Malformed);
            },
        };
        let e = match find_char(s, '=', 0) {
            Some(e) => e,
            None => {
                return Err(CornerParseErr::Malformed);
            },
        };
        let piece = match read_kind(slice_chars(s, 0, p).as_slice()) {
            Some(k) => k,
            None => {
                return Err(CornerParseErr::Malformed);
            },
        };
        if e < p + 1 {
            return Err(CornerParseErr::Malformed);
        }
        let rotation = match Rotation::read(slice_chars(s, p + 1, e).as_slice()) {
            Ok(r) => r,
            Err(u) => {
                return Err(CornerParseErr::UnknownRotation(u));
            },
        };
        let corners = match Coordinates::read(slice_chars(s, e + 1, n).as_slice()) {
            Ok(c) => c,
            Err(c) => {
                return Err(CornerParseErr::CoordinatesErr(c));
            },
        };
        Ok(CornerSet { piece, rotation, corners })
    }

    /// The entry that a line of text writes.
    pub fn parse(s: &str) -> (r: Result<CornerSet, CornerParseErr>)
        ensures
            match r {
                Ok(k) => parse_corner_set(s@) == Ok::<CornerRow, LineFault>(k.row()),
                Err(e) => parse_corner_set(s@) == Err::<CornerRow, LineFault>(e.fault()),
            },
    {
        let chars = chars_of(s);
        CornerSet::read(chars.as_slice())
    }
}

impl Corners {
    /// What the entries hold, in their order.
    pub open spec fn rows(self) -> Seq<CornerRow> {
        Seq::new(self.entries@.len(), |i: int| self.entries@[i].row())
    }

    /// The corner table that the text writes, one entry on each line.
    pub fn parse(s: &str) -> (r: Result<Corners, CornerParseErr>)
        ensures
            match r {
                Ok(k) => parse_corner_lines(lines(s@), lines(s@).len() as int) == Ok::<
                    Seq<CornerRow>,
                    LineFault,
                >(k.rows()),
                Err(e) => parse_corner_lines(lines(s@), lines(s@).len() as int) == Err::<
                    Seq<CornerRow>,
                    LineFault,
                >(e.fault()),
            },
    {
        let chars = chars_of(s);
        let all = lines_of(chars.as_slice());
        let mut entries: Vec<CornerSet> = Vec::new();
        let mut i: usize = 0;
        assert(views(all@).len() == all@.len());
        assert(Seq::new(entries@.len(), |x: int| entries@[x].row()) =~= Seq::empty());
        while i < all.len()
            invariant
                i <= all@.len(),
                views(all@) == lines(s@),
                views(all@).len() == all@.len(),
                parse_corner_lines(views(all@), i as int) == Ok::<Seq<CornerRow>, LineFault>(
                    Seq::new(entries@.len(), |x: int| entries@[x].row()),
                ),
            decreases all@.len() - i,
        {
            assert(views(all@)[i as int] == all@[i as int]@);
            match CornerSet::read(all[i].as_slice()) {
                Ok(k) => {
                    let ghost before = Seq::new(entries@.len(), |x: int| entries@[x].row());
                    entries.push(k);
                    assert(Seq::new(entries@.len(), |x: int| entries@[x].row()) =~= before.push(k.row()));
                },
                Err(e) => {
                    proof {
                        lemma_corner_lines_fault(views(all@), i as int + 1, all@.len() as int);
                    }
                    return Err(e);
                },
            }
            i = i + 1;
        }
        Ok(Corners { entries })
    }
}

impl std::str::FromStr for CornerSet {
    type Err = CornerParseErr;

    fn from_str(s: &str) -> (r: Result<Self, CornerParseErr>)
        ensures
            match r {
                Ok(k) => parse_corner_set(s@) == Ok::<CornerRow, LineFault>(k.row()),
                Err(e) => parse_corner_set(s@) == Err::<CornerRow, LineFault>(e.fault()),
            },
    {
        CornerSet::parse(s)
    }
}

impl std::str::FromStr for Corners {
    type Err = CornerParseErr;

    fn from_str(s: &str) -> (r: Result<Self, CornerParseErr>)
        ensures
            match r {
                Ok(k) => parse_corner_lines(lines(s@), lines(s@).len() as int) == Ok::<
                    Seq<CornerRow>,
                    LineFault,
                >(k.rows()),
                Err(e) => parse_corner_lines(lines(s@), lines(s@).len() as int) == Err::<
                    Seq<CornerRow>,
                    LineFault,
                >(e.fault()),
            },
    {
        Corners::parse(s)
    }
}

} // verus!
