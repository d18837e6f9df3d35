//! What a session holds.

use crate::file::corners::Corners;
use crate::file::kicks::Kicks;
use crate::file::piece::Bag;
use crate::history::{History, pair_texts};
use crate::text::{
    chars_of, join, join_chars, number_usize, parse_usize, same_chars, string_of, views, words,
    words_of,
};
use vstd::prelude::*;
use vstd::string::StringExecFns;

verus! {

/// The names that the tables were loaded under: kick table, shape table,
/// corner table.
#[derive(Clone, PartialEq, Eq, Debug)]
pub struct Fingerprint(pub String, pub String, pub String);

/// The rule tables of a session and their names.
#[derive(Clone, PartialEq, Eq, Debug)]
pub struct State {
    pub kicks: Kicks,
    pub bag: Bag,
    pub corners: Corners,
    pub fingerprint: Fingerprint,
}

/// What a line of a session asks for.
#[derive(Clone, PartialEq, Eq, Debug)]
pub enum Request {
    /// `pcr FLAGS QUEUE N`: the most perfect clears through a queue, with the
    /// table of perfect clears of up to `n` pieces.
    Solve { flags: String, queue: String, n: usize },
    /// `pcp FLAGS VISION N [F]`: make and keep the table of perfect clears of
    /// up to `n` pieces; `F` makes it anew.
    Build { flags: String, vision: usize, n: usize, force: bool },
    /// A verb that is known, with an argument that is missing or no number.
    Invalid,
    /// No verb, or one that is not known.
    Unknown,
}

/// A request without its strings.
pub enum RequestRow {
    Solve { flags: Seq<char>, queue: Seq<char>, n: usize },
    Build { flags: Seq<char>, vision: usize, n: usize, force: bool },
    Invalid,
    Unknown,
}

impl Request {
    /// The request without its strings.
    pub open spec fn row(self) -> RequestRow {
        match self {
            Request::Solve { flags, queue, n } => RequestRow::Solve { flags: flags@, queue: queue@, n },
            Request::Build { flags, vision, n, force } => RequestRow::Build {
                flags: flags@,
                vision,
                n,
                force,
            },
            Request::Invalid => RequestRow::Invalid,
            Request::Unknown => RequestRow::Unknown,
        }
    }
}

/// What the words of a line ask for.
pub open spec fn request_of(w: Seq<Seq<char>>) -> RequestRow {
    if w.len() == 0 {
        RequestRow::Unknown
    } else if w[0] == "pcr"@ {
        if w.len() < 4 {
            RequestRow::Invalid
        } else {
            match number_usize(w[3]) {
                Some(n) => RequestRow::Solve { flags: w[1], queue: w[2], n },
                None => RequestRow::Invalid,
            }
        }
    } else if w[0] == "pcp"@ {
        if w.len() < 4 {
            RequestRow::Invalid
        } else {
            match (number_usize(w[2]), number_usize(w[3])) {
                (Some(vision), Some(n)) => RequestRow::Build {
                    flags: w[1],
                    vision,
                    n,
                    force: w.len() > 4 && w[4] == "F"@,
                },
                _ => RequestRow::Invalid,
            }
        }
    } else {
        RequestRow::Unknown
    }
}

/// What a line of a session asks for: its words are a verb and the arguments
/// of the verb.
pub fn parse_request(line: &str) -> (r: Request)
    ensures
        r.row() == request_of(words(line@)),
{
    let chars = chars_of(line);
    let w = words_of(chars.as_slice());
    let ghost ws = views(w@);
    assert(ws.len() == w@.len());
    if w.len() == 0 {
        return Request::Unknown;
    }
    assert(ws[0] == w@[0]@);
    let solve = same_chars(w[0].as_slice(), chars_of("pcr").as_slice());
    let build = same_chars(w[0].as_slice(), chars_of("pcp").as_slice());
    if !solve && !build {
        return Request::Unknown;
    }
    if w.len() < 4 {
        return Request::Invalid;
    }
    assert(ws[1] == w@[1]@ && ws[2] == w@[2]@ && ws[3] == w@[3]@);
    let n = match parse_usize(w[3].as_slice()) {
        Some(n) => n,
        None => {
            return Request::Invalid;
        },
    };
    let flags = string_of(w[1].as_slice());
    if solve {
        Request::Solve { flags, queue: string_of(w[2].as_slice()), n }
    } else {
        let vision = match parse_usize(w[2].as_slice()) {
            Some(v) => v,
            None => {
                return Request::Invalid;
            },
        };
        let force = if w.len() > 4 {
            assert(ws[4] == w@[4]@);
            same_chars(w[4].as_slice(), chars_of("F").as_slice())
        } else {
            false
        };
        Request::Build { flags, vision, n, force }
    }
}

/// The answer to a request for perfect clears: the placements of the first
/// clear with blanks between them, as in `(T:cw) (I:)`, or `!` if there is
/// none.
pub fn answer(chosen: &Vec<History>) -> (s: String)
    ensures
        s@ == (if chosen@.len() > 0 {
            join(pair_texts(chosen@[0]@), seq![' '])
        } else {
            "!"@
        }),
{
    if chosen.len() == 0 {
        return String::from_str("!");
    }
    let first = &chosen[0];
    let n = first.len();
    let mut texts: Vec<Vec<char>> = Vec::new();
    let mut i: usize = 0;
    while i < n
        invariant
            i <= n,
            n == first@.len(),
            views(texts@) == pair_texts(first@).subrange(0, i as int),
        decreases n - i,
    {
        let t = chars_of(first.get(i).to_string().as_str());
        let ghost before = views(texts@);
        texts.push(t);
        assert(views(texts@) =~= before.push(t@));
        assert(views(texts@) =~= pair_texts(first@).subrange(0, i as int + 1));
        i = i + 1;
    }
    assert(pair_texts(first@).subrange(0, n as int) =~= pair_texts(first@));
    let mut blank: Vec<char> = Vec::new();
    blank.push(' ');
    assert(blank@ =~= seq![' ']);
    let text = join_chars(&texts, blank.as_slice());
    string_of(text.as_slice())
}

} // verus!
