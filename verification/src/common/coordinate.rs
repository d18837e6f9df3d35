//! Points and lists of points.

use crate::common::traits::Saturating;
use crate::text::{
    chars_of, decimal, decimal_chars, find_char, find_from, number_i32, parse_i32, push_all,
    slice_chars, string_of, trim, trim_chars,
};
use vstd::prelude::*;

verus! {

/// A point, or an offset between two points.
#[derive(Clone, Copy, Debug, Default, Hash, PartialEq, Eq, PartialOrd, Ord)]
pub struct Coordinate<T> {
    pub x: T,
    pub y: T,
}

impl<T> Coordinate<T> {
    /// The point `(x, y)`.
    pub fn new(x: T, y: T) -> (c: Self)
        ensures
            c.x == x,
            c.y == y,
    {
        Self { x, y }
    }
}

/// A list of points in a fixed order.
#[derive(Clone, Debug, Default, Hash, PartialEq, Eq, PartialOrd, Ord)]
pub struct Coordinates<T> {
    pub values: Vec<Coordinate<T>>,
}

/// What can be wrong with the text of a point.
#[derive(Clone, Copy, Debug, PartialEq, Eq, Structural)]
pub enum CoordinateParseErr {
    /// One of the two numbers is not a number that fits.
    Contents,
    MissingParens,
    MismatchedParens,
    MissingComma,
    MisplacedComma,
}

/// The text of a number with its sign, `+` for what is not negative.
pub open spec fn signed_text(v: int) -> Seq<char> {
    if v < 0 {
        seq!['-'] + decimal((-v) as nat)
    } else {
        seq!['+'] + decimal(v as nat)
    }
}

/// The text of a point, as in `(+1,-2)`.
pub open spec fn coordinate_text(c: Coordinate<i32>) -> Seq<char> {
    seq!['('] + signed_text(c.x as int) + seq![','] + signed_text(c.y as int) + seq![')']
}

/// The texts of the first `n` points, one after the other.
pub open spec fn coordinates_text(values: Seq<Coordinate<i32>>, n: int) -> Seq<char>
    decreases n,
{
    if n <= 0 {
        Seq::empty()
    } else {
        coordinates_text(values, n - 1) + coordinate_text(values[n - 1])
    }
}

/// What a text means as a point. White space around the text does not count.
/// The text holds `(` and, after it, `)`; the first comma lies between the
/// two; a number stands on each side of the comma, and white space around a
/// number does not count. What stands before `(` and after `)` is not read.
pub open spec fn parse_coordinate(s: Seq<char>) -> Result<Coordinate<i32>, CoordinateParseErr> {
    let t = trim(s);
    let l = find_from(t, '(', 0);
    let r = find_from(t, ')', 0);
    let c = find_from(t, ',', 0);
    if l >= t.len() || r >= t.len() {
        Err(CoordinateParseErr::MissingParens)
    } else if l >= r {
        Err(CoordinateParseErr::MismatchedParens)
    } else if c >= t.len() {
        Err(CoordinateParseErr::MissingComma)
    } else if c < l || c > r {
        Err(CoordinateParseErr::MisplacedComma)
    } else {
        match number_i32(trim(t.subrange(l + 1, c))) {
            None => Err(CoordinateParseErr::Contents),
            Some(x) => match number_i32(trim(t.subrange(c + 1, r))) {
                None => Err(CoordinateParseErr::Contents),
                Some(y) => Ok(Coordinate { x, y }),
            },
        }
    }
}

/// What the text from place `pos` on means as a list of points: each point
/// reaches from the next `(` to the first `)` after it, and what stands
/// between two points is not read. Text after the last point is an error.
pub open spec fn parse_coordinates_from(s: Seq<char>, pos: int) -> Result<
    Seq<Coordinate<i32>>,
    CoordinateParseErr,
>
    decreases s.len() - pos,
{
    if pos < 0 || pos >= s.len() {
        Ok(Seq::empty())
    } else {
        let start = find_from(s, '(', pos);
        let end = find_from(s, ')', start);
        if start >= s.len() || end >= s.len() {
            Err(CoordinateParseErr::MissingParens)
        } else {
            match parse_coordinate(s.subrange(start, end + 1)) {
                Err(e) => Err(e),
                Ok(c) => match parse_coordinates_from(
                    s,
                    if end + 1 > pos {
                        end + 1
                    } else {
                        pos + 1
                    },
                ) {
                    Err(e) => Err(e),
                    Ok(rest) => Ok(seq![c] + rest),
                },
            }
        }
    }
}

/// What a text means as a list of points.
pub open spec fn parse_coordinates(s: Seq<char>) -> Result<Seq<Coordinate<i32>>, CoordinateParseErr> {
    parse_coordinates_from(s, 0)
}

/// Appends the text of `v` with its sign.
fn push_signed(out: &mut Vec<char>, v: i32)
    ensures
        final(out)@ == old(out)@ + signed_text(v as int),
{
    let ghost before = out@;
    if v < 0 {
        out.push('-');
        let digits = decimal_chars((-(v as i64)) as u64);
        push_all(out, digits.as_slice());
        assert(out@ =~= before + signed_text(v as int));
    } else {
        out.push('+');
        let digits = decimal_chars(v as u64);
        push_all(out, digits.as_slice());
        assert(out@ =~= before + signed_text(v as int));
    }
}

impl Coordinate<i32> {
    /// Appends the text of the point.
    pub fn write(&self, out: &mut Vec<char>)
        ensures
            final(out)@ == old(out)@ + coordinate_text(*self),
    {
        let ghost before = out@;
        out.push('(');
        push_signed(out, self.x);
        out.push(',');
        push_signed(out, self.y);
        out.push(')');
        assert(out@ =~= before + coordinate_text(*self));
    }

    /// The text of the point, as in `(+1,-2)`.
    pub fn to_string(&self) -> (s: String)
        ensures
            s@ == coordinate_text(*self),
    {
        let mut out: Vec<char> = Vec::new();
        self.write(&mut out);
        assert(Seq::<char>::empty() + coordinate_text(*self) =~= coordinate_text(*self));
        string_of(out.as_slice())
    }

    /// The point that the characters write.
    pub fn read(s: &[char]) -> (r: Result<Coordinate<i32>, CoordinateParseErr>)
        ensures
            r == parse_coordinate(s@),
    {
        let t = trim_chars(s);
        let lp = find_char(t.as_slice(), '(', 0);
        let rp = find_char(t.as_slice(), ')', 0);
        let (l, r) = match (lp, rp) {
            (Some(l), Some(r)) => (l, r),
            _ => {
                return Err(CoordinateParseErr::MissingParens);
            },
        };
        if l >= r {
            return Err(CoordinateParseErr::MismatchedParens);
        }
        let c = match find_char(t.as_slice(), ',', 0) {
            Some(c) => c,
            None => {
                return Err(CoordinateParseErr::MissingComma);
            },
        };
        if c < l || c > r {
            return Err(CoordinateParseErr::MisplacedComma);
        }
        let lhs = trim_chars(slice_chars(t.as_slice(), l + 1, c).as_slice());
        let x = match parse_i32(lhs.as_slice()) {
            Some(x) => x,
            None => {
                return Err(CoordinateParseErr::Contents);
            },
        };
        let rhs = trim_chars(slice_chars(t.as_slice(), c + 1, r).as_slice());
        let y = match parse_i32(rhs.as_slice()) {
            Some(y) => y,
            None => {
                return Err(CoordinateParseErr::Contents);
            },
        };
        Ok(Coordinate { x, y })
    }

    /// The point that the text writes.
    pub fn parse(s: &str) -> (r: Result<Coordinate<i32>, CoordinateParseErr>)
        ensures
            r == parse_coordinate(s@),
    {
        let chars = chars_of(s);
        Coordinate::read(chars.as_slice())
    }
}

/// The result of reading a list of points, in terms of the points.
pub open spec fn points_result(r: Result<Coordinates<i32>, CoordinateParseErr>) -> Result<
    Seq<Coordinate<i32>>,
    CoordinateParseErr,
> {
    match r {
        Ok(c) => Ok(c.values@),
        Err(e) => Err(e),
    }
}

/// Putting the points read so far before what the rest of the text means.
pub open spec fn after_points(
    done: Seq<Coordinate<i32>>,
    rest: Result<Seq<Coordinate<i32>>, CoordinateParseErr>,
) -> Result<Seq<Coordinate<i32>>, CoordinateParseErr> {
    match rest {
        Ok(more) => Ok(done + more),
        Err(e) => Err(e),
    }
}

impl<T> Coordinates<T> {
    /// The points, one after the other.
    pub fn iter(&self) -> (it: std::slice::Iter<'_, Coordinate<T>>)
        ensures
            vstd::std_specs::iter::IteratorSpec::remaining(&it) == self.values@.as_ref(),
    {
        broadcast use vstd::std_specs::slice::axiom_spec_slice_iter;

        self.values.as_slice().iter()
    }
}

impl Coordinates<i32> {
    /// The texts of the points, one after the other, as in `(+0,+0)(-1,+0)`.
    pub fn to_string(&self) -> (s: String)
        ensures
            s@ == coordinates_text(self.values@, self.values@.len() as int),
    {
        let mut out: Vec<char> = Vec::new();
        let mut i: usize = 0;
        while i < self.values.len()
            invariant
                i <= self.values@.len(),
                out@ == coordinates_text(self.values@, i as int),
            decreases self.values@.len() - i,
        {
            self.values[i].write(&mut out);
            i = i + 1;
        }
        string_of(out.as_slice())
    }

    /// The points that the characters write.
    pub fn read(s: &[char]) -> (r: Result<Coordinates<i32>, CoordinateParseErr>)
        ensures
            points_result(r) == parse_coordinates(s@),
    {
        let mut values: Vec<Coordinate<i32>> = Vec::new();
        let mut pos: usize = 0;
        assert(Seq::<Coordinate<i32>>::empty() + Seq::<Coordinate<i32>>::empty() =~= Seq::<
            Coordinate<i32>,
        >::empty());
        while pos < s.len()
            invariant
                pos <= s@.len(),
                parse_coordinates(s@) == after_points(values@, parse_coordinates_from(s@, pos as int)),
            decreases s@.len() - pos,
        {
            let start = match find_char(s, '(', pos) {
                Some(i) => i,
                None => {
                    return Err(CoordinateParseErr::MissingParens);
                },
            };
            let end = match find_char(s, ')', start) {
                Some(i) => i,
                None => {
                    return Err(CoordinateParseErr::MissingParens);
                },
            };
            let text = slice_chars(s, start, end + 1);
            match Coordinate::read(text.as_slice()) {
                Ok(c) => {
                    proof {
                        let rest = parse_coordinates_from(s@, end + 1);
                        match rest {
                            Ok(more) => {
                                assert(values@ + (seq![c] + more) =~= values@.push(c) + more);
                            },
                            Err(_) => {},
                        }
                    }
                    values.push(c);
                },
                Err(e) => {
                    return Err(e);
                },
            }
            pos = end + 1;
        }
        proof {
            assert(values@ + Seq::<Coordinate<i32>>::empty() =~= values@);
        }
        Ok(Coordinates { values })
    }

    /// The points that the text writes.
    pub fn parse(s: &str) -> (r: Result<Coordinates<i32>, CoordinateParseErr>)
        ensures
            points_result(r) == parse_coordinates(s@),
    {
        let chars = chars_of(s);
        Coordinates::read(chars.as_slice())
    }
}

impl<T: Saturating> Coordinate<T> {
    /// The sum of the two points, each coordinate stopping at the ends of its
    /// range.
    pub open spec fn spec_plus(self, rhs: Coordinate<T>) -> Coordinate<T> {
        Coordinate { x: self.x.spec_saturating_add(rhs.x), y: self.y.spec_saturating_add(rhs.y) }
    }

    /// The difference of the two points, each coordinate stopping at the ends
    /// of its range.
    pub open spec fn spec_minus(self, rhs: Coordinate<T>) -> Coordinate<T> {
        Coordinate { x: self.x.spec_saturating_sub(rhs.x), y: self.y.spec_saturating_sub(rhs.y) }
    }

    /// The sum of the two points, each coordinate stopping at the ends of its
    /// range.
    pub fn add(self, rhs: Coordinate<T>) -> (r: Coordinate<T>)
        ensures
            r == self.spec_plus(rhs),
    {
        Coordinate { x: self.x.saturating_add(rhs.x), y: self.y.saturating_add(rhs.y) }
    }

    /// The difference of the two points, each coordinate stopping at the ends
    /// of its range.
    pub fn sub(self, rhs: Coordinate<T>) -> (r: Coordinate<T>)
        ensures
            r == self.spec_minus(rhs),
    {
        Coordinate { x: self.x.saturating_sub(rhs.x), y: self.y.saturating_sub(rhs.y) }
    }
}

impl<T: Saturating + Copy> Coordinate<T> {
    /// Adds `rhs` to this point.
    pub fn add_assign(&mut self, rhs: Coordinate<T>)
        ensures
            *final(self) == old(self).spec_plus(rhs),
    {
        let sum = Coordinate { x: self.x.saturating_add(rhs.x), y: self.y.saturating_add(rhs.y) };
        *self = sum;
    }

    /// Subtracts `rhs` from this point.
    pub fn sub_assign(&mut self, rhs: Coordinate<T>)
        ensures
            *final(self) == old(self).spec_minus(rhs),
    {
        let difference = Coordinate {
            x: self.x.saturating_sub(rhs.x),
            y: self.y.saturating_sub(rhs.y),
        };
        *self = difference;
    }
}

impl std::str::FromStr for Coordinate<i32> {
    type Err = CoordinateParseErr;

    fn from_str(s: &str) -> (r: Result<Self, CoordinateParseErr>)
        ensures
            r == parse_coordinate(s@),
    {
        Coordinate::parse(s)
    }
}

impl std::str::FromStr for Coordinates<i32> {
    type Err = CoordinateParseErr;

    fn from_str(s: &str) -> (r: Result<Self, CoordinateParseErr>)
        ensures
            points_result(r) == parse_coordinates(s@),
    {
        Coordinates::parse(s)
    }
}

} // verus!
