//! Display colours of shapes.

use crate::common::UnknownVariant;
use crate::text::{chars_of, same_chars, string_of};
use vstd::prelude::*;
use vstd::string::StringExecFns;

verus! {

/// The colour a shape is drawn in, named after the piece that usually has it;
/// `G` is garbage grey and `E` is empty.
#[derive(Clone, Copy, Debug, Hash, PartialEq, Eq, Structural)]
pub enum Color {
    I,
    J,
    O,
    L,
    Z,
    S,
    T,
    G,
    E,
}

/// The text in lower case, by the rules of Unicode.
pub uninterp spec fn unicode_lowercase(s: Seq<char>) -> Seq<char>;

/// `str::to_lowercase`: the text in lower case, by the rules of Unicode.
#[verifier::external_body]
fn lowercase_of(s: &str) -> (low: String)
    ensures
        low@ == unicode_lowercase(s@),
{
    s.to_lowercase()
}

/// The colour that the letter names, in lower case.
pub open spec fn color_named(t: Seq<char>) -> Option<Color> {
    if t == "i"@ {
        Some(Color::I)
    } else if t == "j"@ {
        Some(Color::J)
    } else if t == "o"@ {
        Some(Color::O)
    } else if t == "l"@ {
        Some(Color::L)
    } else if t == "z"@ {
        Some(Color::Z)
    } else if t == "s"@ {
        Some(Color::S)
    } else if t == "t"@ {
        Some(Color::T)
    } else if t == "g"@ {
        Some(Color::G)
    } else if t == "e"@ {
        Some(Color::E)
    } else {
        None
    }
}

/// What a text in lower case means as a colour; the error holds the text.
pub open spec fn parse_lower_color(t: Seq<char>) -> Result<Color, Seq<char>> {
    match color_named(t) {
        Some(c) => Ok(c),
        None => Err(t),
    }
}

impl Color {
    /// The letter of the colour.
    pub open spec fn letter(self) -> Seq<char> {
        match self {
            Color::I => "I"@,
            Color::J => "J"@,
            Color::O => "O"@,
            Color::L => "L"@,
            Color::Z => "Z"@,
            Color::S => "S"@,
            Color::T => "T"@,
            Color::G => "G"@,
            Color::E => "E"@,
        }
    }

    /// The letter of the colour, as a string.
    pub fn to_string(&self) -> (s: String)
        ensures
            s@ == self.letter(),
    {
        match self {
            Color::I => String::from_str("I"),
            Color::J => String::from_str("J"),
            Color::O => String::from_str("O"),
            Color::L => String::from_str("L"),
            Color::Z => String::from_str("Z"),
            Color::S => String::from_str("S"),
            Color::T => String::from_str("T"),
            Color::G => String::from_str("G"),
            Color::E => String::from_str("E"),
        }
    }

    /// The colour that the text names, which is taken to be in lower case.
    pub fn from_lowercase(t: &str) -> (r: Result<Color, UnknownVariant>)
        ensures
            match r {
                Ok(c) => parse_lower_color(t@) == Ok::<Color, Seq<char>>(c),
                Err(e) => parse_lower_color(t@) == Err::<Color, Seq<char>>(e.0@),
            },
    {
        let chars = chars_of(t);
        let l = chars.as_slice();
        if same_chars(l, chars_of("i").as_slice()) {
            Ok(Color::I)
        } else if same_chars(l, chars_of("j").as_slice()) {
            Ok(Color::J)
        } else if same_chars(l, chars_of("o").as_slice()) {
            Ok(Color::O)
        } else if same_chars(l, chars_of("l").as_slice()) {
            Ok(Color::L)
        } else if same_chars(l, chars_of("z").as_slice()) {
            Ok(Color::Z)
        } else if same_chars(l, chars_of("s").as_slice()) {
            Ok(Color::S)
        } else if same_chars(l, chars_of("t").as_slice()) {
            Ok(Color::T)
        } else if same_chars(l, chars_of("g").as_slice()) {
            Ok(Color::G)
        } else if same_chars(l, chars_of("e").as_slice()) {
            Ok(Color::E)
        } else {
            Err(UnknownVariant(string_of(l)))
        }
    }

    /// The colour that the text names, in upper or lower case.
    pub fn parse(s: &str) -> (r: Result<Color, UnknownVariant>)
        ensures
            match r {
                Ok(c) => parse_lower_color(unicode_lowercase(s@)) == Ok::<Color, Seq<char>>(c),
                Err(e) => parse_lower_color(unicode_lowercase(s@)) == Err::<Color, Seq<char>>(e.0@),
            },
    {
        let low = lowercase_of(s);
        Color::from_lowercase(low.as_str())
    }
}

impl std::str::FromStr for Color {
    type Err = UnknownVariant;

    fn from_str(s: &str) -> (r: Result<Self, UnknownVariant>)
        ensures
            match r {
                Ok(c) => parse_lower_color(unicode_lowercase(s@)) == Ok::<Color, Seq<char>>(c),
                Err(e) => parse_lower_color(unicode_lowercase(s@)) == Err::<Color, Seq<char>>(e.0@),
            },
    {
        Color::parse(s)
    }
}

} // verus!
