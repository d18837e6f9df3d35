//! The rule tables: kicks, spin corners and shapes, and their text form. A
//! table is text with one entry on each line.

pub mod corners;
pub mod kicks;
pub mod piece;
pub mod refv;

use crate::common::coordinate::CoordinateParseErr;
use vstd::prelude::*;

verus! {

/// What can be wrong with a line of a table.
pub enum LineFault {
    /// The line lacks one of its marks, or the kind is not one character.
    Malformed,
    /// The text, in lower case, that names no orientation.
    UnknownRotation(Seq<char>),
    /// What is wrong with the list of points.
    Coordinates(CoordinateParseErr),
    /// The text, in lower case, that names no colour.
    UnknownColor(Seq<char>),
}

/// The kind that the text names: the text is one character, and the kind is
/// the number of that character, which is below 256.
pub open spec fn kind_of(t: Seq<char>) -> Option<u8> {
    if t.len() == 1 && (t[0] as u32) < 256 {
        Some(t[0] as u8)
    } else {
        None
    }
}

/// The kind that the characters name.
pub fn read_kind(t: &[char]) -> (k: Option<u8>)
    ensures
        k == kind_of(t@),
{
    if t.len() == 1 && (t[0] as u32) < 256 {
        Some(t[0] as u8)
    } else {
        None
    }
}

} // verus!
