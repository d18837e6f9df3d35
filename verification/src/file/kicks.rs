//! Wall-kick tables: the offsets to try when a rotation does not fit in place.

use crate::common::UnknownVariant;
use crate::common::coordinate::{
    Coordinate, CoordinateParseErr, Coordinates, coordinates_text, parse_coordinates,
};
use crate::common::rotation::{parse_rotation, Rotation};
use crate::file::{kind_of, LineFault, read_kind};
use crate::piece::Piece;
use crate::text::{
    chars_of, decimal, decimal_chars, find_char, find_from, join, join_chars, lines, lines_of,
    push_chars, slice_chars, views,
};
use vstd::prelude::*;
use vstd::string::StringExecFns;

verus! {

/// The offsets to try, in order, for one piece kind and one turn.
#[derive(Clone, Debug, PartialEq, Eq)]
pub struct Kick {
    pub piece: u8,
    pub source: Rotation,
    pub target: Rotation,
    pub tests: Coordinates<i32>,
}

impl Kick {
    /// Whether this entry is the one for `piece` turning from `source` to
    /// `target`.
    pub open spec fn is_for(self, piece: u8, source: Rotation, target: Rotation) -> bool {
        self.piece == piece && self.source == source && self.target == target
    }
}

/// A kick table.
#[derive(Clone, Debug, PartialEq, Eq)]
pub struct Kicks {
    pub entries: Vec<Kick>,
}

impl Kicks {
    /// The index of the first entry at or after `from` that is for the given
    /// turn.
    pub open spec fn spec_position(
        self,
        from: int,
        piece: u8,
        source: Rotation,
        target: Rotation,
    ) -> Option<int>
        decreases self.entries@.len() - from,
    {
        if from < 0 || from >= self.entries@.len() {
            None
        } else if self.entries@[from].is_for(piece, source, target) {
            Some(from)
        } else {
            self.spec_position(from + 1, piece, source, target)
        }
    }

    /// The first entry for the given turn.
    pub open spec fn spec_get(self, piece: u8, source: Rotation, target: Rotation) -> Option<Kick> {
        match self.spec_position(0, piece, source, target) {
            Some(i) => Some(self.entries@[i]),
            None => None,
        }
    }

    /// The first entry for `piece` turning from `source` to `target`.
    #[must_use]
    pub fn get(&self, piece: &Piece, source: Rotation, target: Rotation) -> (k: Option<&Kick>)
        ensures
            match k {
                Some(e) => self.spec_get(piece.name, source, target) == Some(*e),
                None => self.spec_get(piece.name, source, target).is_none(),
            },
    {
        let mut i: usize = 0;
        while i < self.entries.len()
            invariant
                i <= self.entries@.len(),
                self.spec_position(0, piece.name, source, target) == self.spec_position(
                    i as int,
                    piece.name,
                    source,
                    target,
                ),
            decreases self.entries@.len() - i,
        {
            let e = &self.entries[i];
            if e.piece == piece.name && e.source == source && e.target == target {
                return Some(e);
            }
            i = i + 1;
        }
        None
    }
}

/// What can be wrong with the text of a kick table.
#[derive(Clone, Debug, PartialEq, Eq)]
pub enum KickParseErr {
    Malformed,
    UnknownRotation(UnknownVariant),
    CoordinatesErr(CoordinateParseErr),
}

impl KickParseErr {
    /// The fault that the error reports.
    pub open spec fn fault(self) -> LineFault {
        match self {
            KickParseErr::Malformed => LineFault::Malformed,
            KickParseErr::UnknownRotation(u) => LineFault::UnknownRotation(u.0@),
            KickParseErr::CoordinatesErr(c) => LineFault::Coordinates(c),
        }
    }
}

/// What an entry of a kick table holds: kind, orientation before the turn,
/// orientation after it, offsets to try.
pub type KickRow = (u8, Rotation, Rotation, Seq<Coordinate<i32>>);

/// What a line means as an entry of a kick table. The line reads
/// `K.ST=TESTS`: the kind `K` is the one character before the first `.`, the
/// character after the `.` names the orientation before the turn, what
/// follows up to the first `=` names the orientation after it, and the rest
/// is the list of offsets. A line without room for the two orientations
/// between `.` and `=` is malformed.
pub open spec fn parse_kick(s: Seq<char>) -> Result<KickRow, LineFault> {
    let p = find_from(s, '.', 0);
    let e = find_from(s, '=', 0);
    if p >= s.len() || e >= s.len() {
        Err(LineFault::Malformed)
    } else {
        match kind_of(s.subrange(0, p)) {
            None => Err(LineFault::Malformed),
            Some(kind) => if p + 2 > s.len() {
                Err(LineFault::Malformed)
            } else {
                match parse_rotation(s.subrange(p + 1, p + 2)) {
                    Err(t) => Err(LineFault::UnknownRotation(t)),
                    Ok(source) => if e < p + 2 {
                        Err(LineFault::Malformed)
                    } else {
                        match parse_rotation(s.subrange(p + 2, e)) {
                            Err(t) => Err(LineFault::UnknownRotation(t)),
                            Ok(target) => match parse_coordinates(s.subrange(e + 1, s.len() as int)) {
                                Err(c) => Err(LineFault::Coordinates(c)),
                                Ok(tests) => Ok((kind, source, target, tests)),
                            },
                        }
                    },
                }
            },
        }
    }
}

/// What the first `n` lines mean as entries of a kick table, or the fault of
/// the first line that has one.
pub open spec fn parse_kick_lines(lines: Seq<Seq<char>>, n: int) -> Result<Seq<KickRow>, LineFault>
    decreases n,
{
    if n <= 0 {
        Ok(Seq::empty())
    } else {
        match parse_kick_lines(lines, n - 1) {
            Err(e) => Err(e),
            Ok(rows) => match parse_kick(lines[n - 1]) {
                Err(e) => Err(e),
                Ok(row) => Ok(rows.push(row)),
            },
        }
    }
}

/// Once a line has a fault, reading more lines keeps the fault.
proof fn lemma_kick_lines_fault(lines: Seq<Seq<char>>, n: int, m: int)
    requires
        0 <= n <= m,
        parse_kick_lines(lines, n).is_err(),
    ensures
        parse_kick_lines(lines, m) == parse_kick_lines(lines, n),
    decreases m - n,
{
    if n < m {
        lemma_kick_lines_fault(lines, n, m - 1);
    }
}

impl Kick {
    /// What the entry holds.
    pub open spec fn row(self) -> KickRow {
        (self.piece, self.source, self.target, self.tests.values@)
    }

    /// The entry that the characters of a line write.
    pub fn read(s: &[char]) -> (r: Result<Kick, KickParseErr>)
        ensures
            match r {
                Ok(k) => parse_kick(s@) == Ok::<KickRow, LineFault>(k.row()),
                Err(e) => parse_kick(s@) == Err::<KickRow, LineFault>(e.fault()),
            },
    {
        let n = s.len();
        let p = match find_char(s, '.', 0) {
            Some(p) => p,
            None => {
                return Err(KickParseErr::Malformed);
            },
        };
        let e = match find_char(s, '=', 0) {
            Some(e) => e,
            None => {
                return Err(KickParseErr::Malformed);
            },
        };
        let piece = match read_kind(slice_chars(s, 0, p).as_slice()) {
            Some(k) => k,
            None => {
                return Err(KickParseErr::Malformed);
            },
        };
        if p + 2 > n {
            return Err(KickParseErr::Malformed);
        }
        let source = match Rotation::read(slice_chars(s, p + 1, p + 2).as_slice()) {
            Ok(r) => r,
            Err(u) => {
                return Err(KickParseErr::UnknownRotation(u));
            },
        };
        if e < p + 2 {
            return Err(KickParseErr::Malformed);
        }
        let target = match Rotation::read(slice_chars(s, p + 2, e).as_slice()) {
            Ok(r) => r,
            Err(u) => {
                return Err(KickParseErr::UnknownRotation(u));
            },
        };
        let tests = match Coordinates::read(slice_chars(s, e + 1, n).as_slice()) {
            Ok(c) => c,
            Err(c) => {
                return Err(KickParseErr::CoordinatesErr(c));
            },
        };
        Ok(Kick { piece, source, target, tests })
    }

    /// The entry that a line of text writes.
    pub fn parse(s: &str) -> (r: Result<Kick, KickParseErr>)
        ensures
            match r {
                Ok(k) => parse_kick(s@) == Ok::<KickRow, LineFault>(k.row()),
                Err(e) => parse_kick(s@) == Err::<KickRow, LineFault>(e.fault()),
            },
    {
        let chars = chars_of(s);
        Kick::read(chars.as_slice())
    }
}

impl Kicks {
    /// What the entries hold, in their order.
    pub open spec fn rows(self) -> Seq<KickRow> {
        Seq::new(self.entries@.len(), |i: int| self.entries@[i].row())
    }

    /// The kick table that the text writes, one entry on each line.
    pub fn parse(s: &str) -> (r: Result<Kicks, KickParseErr>)
        ensures
            match r {
                Ok(k) => parse_kick_lines(lines(s@), lines(s@).len() as int) == Ok::<
                    Seq<KickRow>,
                    LineFault,
                >(k.rows()),
                Err(e) => parse_kick_lines(lines(s@), lines(s@).len() as int) == Err::<
                    Seq<KickRow>,
                    LineFault,
                >(e.fault()),
            },
    {
        let chars = chars_of(s);
        let all = lines_of(chars.as_slice());
        let mut entries: Vec<Kick> = Vec::new();
        let mut i: usize = 0;
        assert(views(all@).len() == all@.len());
        assert(Seq::new(entries@.len(), |x: int| entries@[x].row()) =~= Seq::empty());
        while i < all.len()
            invariant
                i <= all@.len(),
                views(all@) == lines(s@),
                views(all@).len() == all@.len(),
                parse_kick_lines(views(all@), i as int) == Ok::<Seq<KickRow>, LineFault>(
                    Seq::new(entries@.len(), |x: int| entries@[x].row()),
                ),
            decreases all@.len() - i,
        {
            assert(views(all@)[i as int] == all@[i as int]@);
            match Kick::read(all[i].as_slice()) {
                Ok(k) => {
                    let ghost before = Seq::new(entries@.len(), |x: int| entries@[x].row());
                    entries.push(k);
                    assert(Seq::new(entries@.len(), |x: int| entries@[x].row()) =~= before.push(k.row()));
                },
                Err(e) => {
                    proof {
                        lemma_kick_lines_fault(views(all@), i as int + 1, all@.len() as int);
                    }
                    return Err(e);
                },
            }
            i = i + 1;
        }
        Ok(Kicks { entries })
    }
}

/// The text of an entry of a kick table: the number of the kind, `.`, the
/// letters of the two orientations, `=`, and the offsets, as in
/// `84.NE=(+0,+0)(-1,+0)`.
pub open spec fn kick_text(k: Kick) -> Seq<char> {
    decimal(k.piece as nat) + seq!['.'] + k.source.letter() + k.target.letter() + seq!['=']
        + coordinates_text(k.tests.values@, k.tests.values@.len() as int)
}

/// The texts of the entries, in their order.
pub open spec fn kick_texts(entries: Seq<Kick>) -> Seq<Seq<char>> {
    Seq::new(entries.len(), |i: int| kick_text(entries[i]))
}

impl Kick {
    /// The text of the entry.
    pub fn to_string(&self) -> (s: String)
        ensures
            s@ == kick_text(*self),
    {
        let mut s = String::new();
        push_chars(&mut s, decimal_chars(self.piece as u64).as_slice());
        s.push('.');
        s.append(self.source.to_string().as_str());
        s.append(self.target.to_string().as_str());
        s.push('=');
        s.append(self.tests.to_string().as_str());
        assert(s@ =~= kick_text(*self));
        s
    }
}

impl Kicks {
    /// The text of the table: the texts of its entries with line feeds
    /// between them.
    pub fn to_string(&self) -> (s: String)
        ensures
            s@ == join(kick_texts(self.entries@), seq!['\n']),
    {
        let mut texts: Vec<Vec<char>> = Vec::new();
        let mut i: usize = 0;
        while i < self.entries.len()
            invariant
                i <= self.entries@.len(),
                views(texts@) == kick_texts(self.entries@).subrange(0, i as int),
            decreases self.entries@.len() - i,
        {
            let t = chars_of(self.entries[i].to_string().as_str());
            let ghost before = views(texts@);
            texts.push(t);
            assert(views(texts@) =~= before.push(t@));
            assert(views(texts@) =~= kick_texts(self.entries@).subrange(0, i as int + 1));
            i = i + 1;
        }
        assert(kick_texts(self.entries@).subrange(0, self.entries@.len() as int) =~= kick_texts(
            self.entries@,
        ));
        let mut feed: Vec<char> = Vec::new();
        feed.push('\n');
        assert(feed@ =~= seq!['\n']);
        let text = join_chars(&texts, feed.as_slice());
        crate::text::string_of(text.as_slice())
    }
}

impl std::str::FromStr for Kick {
    type Err = KickParseErr;

    fn from_str(s: &str) -> (r: Result<Self, KickParseErr>)
        ensures
            match r {
                Ok(k) => parse_kick(s@) == Ok::<KickRow, LineFault>(k.row()),
                Err(e) => parse_kick(s@) == Err::<KickRow, LineFault>(e.fault()),
            },
    {
        Kick::parse(s)
    }
}

impl std::str::FromStr for Kicks {
    type Err = KickParseErr;

    fn from_str(s: &str) -> (r: Result<Self, KickParseErr>)
        ensures
            match r {
                Ok(k) => parse_kick_lines(lines(s@), lines(s@).len() as int) == Ok::<
                    Seq<KickRow>,
                    LineFault,
                >(k.rows()),
                Err(e) => parse_kick_lines(lines(s@), lines(s@).len() as int) == Err::<
                    Seq<KickRow>,
                    LineFault,
                >(e.fault()),
            },
    {
        Kicks::parse(s)
    }
}

} // verus!
