//! The four orientations of a piece.

use crate::common::UnknownVariant;
use crate::text::{chars_of, lower_chars, lower_text, same_chars, string_of};
use vstd::prelude::*;
use vstd::string::StringExecFns;

verus! {

/// An orientation. Quarter turns clockwise lead from `North` to `East`,
/// `South`, `West` and back.
#[derive(Clone, Copy, Debug, Hash, PartialEq, Eq, Structural)]
pub enum Rotation {
    North,
    East,
    South,
    West,
}

impl Rotation {
    /// The number of quarter turns clockwise that lead from `North` to here.
    pub open spec fn quarter_turns(self) -> int {
        match self {
            Rotation::North => 0,
            Rotation::East => 1,
            Rotation::South => 2,
            Rotation::West => 3,
        }
    }

    /// The orientation reached from `North` by `n` quarter turns clockwise,
    /// counted modulo 4.
    pub open spec fn from_quarter_turns(n: int) -> Rotation {
        if n % 4 == 0 {
            Rotation::North
        } else if n % 4 == 1 {
            Rotation::East
        } else if n % 4 == 2 {
            Rotation::South
        } else {
            Rotation::West
        }
    }

    /// This orientation turned by `n` quarter turns clockwise.
    pub open spec fn turned(self, n: int) -> Rotation {
        Rotation::from_quarter_turns(self.quarter_turns() + n)
    }

    /// One quarter turn clockwise.
    #[must_use]
    pub fn rotate_cw(self) -> (r: Rotation)
        ensures
            r == self.turned(1),
    {
        match self {
            Rotation::North => Rotation::East,
            Rotation::East => Rotation::South,
            Rotation::South => Rotation::West,
            Rotation::West => Rotation::North,
        }
    }

    /// One quarter turn counterclockwise.
    #[must_use]
    pub fn rotate_ccw(self) -> (r: Rotation)
        ensures
            r == self.turned(3),
    {
        match self {
            Rotation::East => Rotation::North,
            Rotation::South => Rotation::East,
            Rotation::West => Rotation::South,
            Rotation::North => Rotation::West,
        }
    }

    /// A half turn.
    #[must_use]
    pub fn rotate_180(self) -> (r: Rotation)
        ensures
            r == self.turned(2),
    {
        match self {
            Rotation::North => Rotation::South,
            Rotation::East => Rotation::West,
            Rotation::South => Rotation::North,
            Rotation::West => Rotation::East,
        }
    }

    /// The position of this orientation in the cycle, as a machine integer.
    pub fn index(self) -> (i: u8)
        ensures
            i == self.quarter_turns(),
    {
        match self {
            Rotation::North => 0,
            Rotation::East => 1,
            Rotation::South => 2,
            Rotation::West => 3,
        }
    }
}

/// The turns form the cyclic group of order four: turning by `m` and then by
/// `n` is turning by `m + n`, and four quarter turns change nothing. So a
/// clockwise turn undoes a counterclockwise one, two clockwise turns are a
/// half turn, and two half turns are no turn.
pub proof fn law_rotation_group(r: Rotation, m: int, n: int)
    ensures
        r.turned(m).turned(n) == r.turned(m + n),
        r.turned(4) == r,
        r.turned(0) == r,
        r.turned(3).turned(1) == r,
        r.turned(1).turned(3) == r,
        r.turned(1).turned(1) == r.turned(2),
        r.turned(2).turned(2) == r,
{
    let a = r.quarter_turns();
    let b = r.turned(m).quarter_turns();
    assert(b == (a + m) % 4);
    assert((b + n) % 4 == (a + m + n) % 4);
}

/// The orientation that the text names, in lower case: by its letter, its
/// name, its place in play or its number.
pub open spec fn rotation_named(t: Seq<char>) -> Option<Rotation> {
    if t == "n"@ || t == "north"@ || t == "spawn"@ || t == "0"@ {
        Some(Rotation::North)
    } else if t == "e"@ || t == "east"@ || t == "right"@ || t == "1"@ {
        Some(Rotation::East)
    } else if t == "s"@ || t == "south"@ || t == "reverse"@ || t == "2"@ {
        Some(Rotation::South)
    } else if t == "w"@ || t == "west"@ || t == "left"@ || t == "3"@ {
        Some(Rotation::West)
    } else {
        None
    }
}

/// What a text means as an orientation: upper and lower case are the same,
/// and a text that names none is an error that holds the text in lower case.
pub open spec fn parse_rotation(s: Seq<char>) -> Result<Rotation, Seq<char>> {
    match rotation_named(lower_text(s)) {
        Some(r) => Ok(r),
        None => Err(lower_text(s)),
    }
}

impl Rotation {
    /// The letter of the orientation.
    pub open spec fn letter(self) -> Seq<char> {
        match self {
            Rotation::North => "N"@,
            Rotation::East => "E"@,
            Rotation::South => "S"@,
            Rotation::West => "W"@,
        }
    }

    /// The letter of the orientation, as a string.
    pub fn to_string(&self) -> (s: String)
        ensures
            s@ == self.letter(),
    {
        match self {
            Rotation::North => String::from_str("N"),
            Rotation::East => String::from_str("E"),
            Rotation::South => String::from_str("S"),
            Rotation::West => String::from_str("W"),
        }
    }

    /// The orientation that the characters name.
    pub fn read(t: &[char]) -> (r: Result<Rotation, UnknownVariant>)
        ensures
            match r {
                Ok(rotation) => parse_rotation(t@) == Ok::<Rotation, Seq<char>>(rotation),
                Err(e) => parse_rotation(t@) == Err::<Rotation, Seq<char>>(e.0@),
            },
    {
        let low = lower_chars(t);
        let l = low.as_slice();
        if same_chars(l, chars_of("n").as_slice()) || same_chars(l, chars_of("north").as_slice())
            || same_chars(l, chars_of("spawn").as_slice()) || same_chars(l, chars_of("0").as_slice()) {
            Ok(Rotation::North)
        } else if same_chars(l, chars_of("e").as_slice()) || same_chars(
            l,
            chars_of("east").as_slice(),
        ) || same_chars(l, chars_of("right").as_slice()) || same_chars(l, chars_of("1").as_slice()) {
            Ok(Rotation::East)
        } else if same_chars(l, chars_of("s").as_slice()) || same_chars(
            l,
            chars_of("south").as_slice(),
        ) || same_chars(l, chars_of("reverse").as_slice()) || same_chars(
            l,
            chars_of("2").as_slice(),
        ) {
            Ok(Rotation::South)
        } else if same_chars(l, chars_of("w").as_slice()) || same_chars(
            l,
            chars_of("west").as_slice(),
        ) || same_chars(l, chars_of("left").as_slice()) || same_chars(l, chars_of("3").as_slice()) {
            Ok(Rotation::West)
        } else {
            Err(UnknownVariant(string_of(l)))
        }
    }

    /// The orientation that the text names, in upper or lower case.
    pub fn parse(s: &str) -> (r: Result<Rotation, UnknownVariant>)
        ensures
            match r {
                Ok(rotation) => parse_rotation(s@) == Ok::<Rotation, Seq<char>>(rotation),
                Err(e) => parse_rotation(s@) == Err::<Rotation, Seq<char>>(e.0@),
            },
    {
        let chars = chars_of(s);
        Rotation::read(chars.as_slice())
    }
}

impl std::str::FromStr for Rotation {
    type Err = UnknownVariant;

    fn from_str(s: &str) -> (r: Result<Self, UnknownVariant>)
        ensures
            match r {
                Ok(rotation) => parse_rotation(s@) == Ok::<Rotation, Seq<char>>(rotation),
                Err(e) => parse_rotation(s@) == Err::<Rotation, Seq<char>>(e.0@),
            },
    {
        Rotation::parse(s)
    }
}

} // verus!
