//! Shape tables: the cells of each piece kind in each orientation.

use crate::common::UnknownVariant;
use crate::common::color::{Color, parse_lower_color, unicode_lowercase};
use crate::common::coordinate::{
    Coordinate, CoordinateParseErr, Coordinates, coordinates_text, parse_coordinates,
};
use crate::common::rotation::{parse_rotation, Rotation};
use crate::file::{kind_of, LineFault, read_kind};
use crate::text::{
    chars_of, decimal, decimal_chars, find_char, find_from, join, join_chars, lines, lines_of,
    push_chars, slice_chars, string_of, views,
};
use rustc_hash::{FxBuildHasher, FxHashMap};
use vstd::prelude::*;
use vstd::string::StringExecFns;

verus! {

/// `FxBuildHasher` of rustc_hash, the hasher of the shape map. Nothing is
/// stated of it; the wrappers below state what the map does with it.
#[verifier::external_type_specification]
#[verifier::external_body]
pub struct ExFxBuildHasher(FxBuildHasher);

/// The cells of one piece kind in one orientation, as offsets from the
/// piece's anchor, and the colour it is drawn in.
#[derive(Clone, Debug, Hash, PartialEq, Eq)]
pub struct Shape {
    pub name: u8,
    pub color: Color,
    pub rotation: Rotation,
    pub cells: Coordinates<i32>,
}

/// Shapes by kind and orientation.
pub type ShapeMap = FxHashMap<(u8, Rotation), Shape>;

/// A shape table, keyed by kind and orientation.
#[derive(Clone, Debug, PartialEq, Eq)]
pub struct Bag {
    pub shapes: ShapeMap,
}

/// The contents of a table without shapes.
pub open spec fn no_shapes() -> Map<(u8, Rotation), Shape> {
    Map::empty()
}

/// `FxHashMap::default` of rustc_hash: a map that holds nothing.
#[verifier::external_body]
fn shapes_empty() -> (m: ShapeMap)
    ensures
        m@ == no_shapes(),
{
    FxHashMap::default()
}

/// `HashMap::get` with the hasher of rustc_hash: the shape stored under the
/// key `(name, rotation)`, if the map holds that key. Keys are compared by
/// their derived equality, which is equality of the two components.
#[verifier::external_body]
fn shapes_get<'a>(m: &'a ShapeMap, name: u8, rotation: Rotation) -> (s: Option<&'a Shape>)
    ensures
        match s {
            Some(shape) => m@.contains_key((name, rotation)) && m@[(name, rotation)] == *shape,
            None => !m@.contains_key((name, rotation)),
        },
{
    m.get(&(name, rotation))
}

/// `HashMap::insert` with the hasher of rustc_hash: afterwards the map holds
/// `shape` under the key `(name, rotation)`, in place of what it held there
/// before, and every other key as before.
#[verifier::external_body]
fn shapes_insert(m: &mut ShapeMap, name: u8, rotation: Rotation, shape: Shape)
    ensures
        final(m)@ == old(m)@.insert((name, rotation), shape),
{
    m.insert((name, rotation), shape);
}

/// The orientation with the given index in the cycle North, East, South, West.
pub fn rotation_at(i: u8) -> (r: Rotation)
    requires
        i < 4,
    ensures
        r.quarter_turns() == i,
{
    if i == 0 {
        Rotation::North
    } else if i == 1 {
        Rotation::East
    } else if i == 2 {
        Rotation::South
    } else {
        Rotation::West
    }
}

/// The `(kind, orientation)` pairs in ascending order of kind and, within a
/// kind, in the order North, East, South, West: pair number `n` is kind
/// `n / 4` in orientation `n % 4`.
pub open spec fn key_at(n: int) -> (u8, Rotation) {
    ((n / 4) as u8, Rotation::from_quarter_turns(n % 4))
}

/// The kinds of the first `n` pairs of `key_at` that the map holds.
pub open spec fn kinds_below(shapes: Map<(u8, Rotation), Shape>, n: int) -> Seq<u8>
    decreases n,
{
    if n <= 0 {
        Seq::empty()
    } else if shapes.contains_key(key_at(n - 1)) {
        kinds_below(shapes, n - 1).push(key_at(n - 1).0)
    } else {
        kinds_below(shapes, n - 1)
    }
}

/// Whether the map holds a shape of `kind` in some orientation.
pub open spec fn has_kind(shapes: Map<(u8, Rotation), Shape>, kind: u8) -> bool {
    exists|r: Rotation| shapes.contains_key((kind, r))
}

/// Every kind listed has a shape in the map.
pub proof fn lemma_kinds_below(shapes: Map<(u8, Rotation), Shape>, n: int)
    requires
        0 <= n <= 1024,
    ensures
        forall|j: int|
            0 <= j < kinds_below(shapes, n).len() ==> has_kind(
                shapes,
                #[trigger] kinds_below(shapes, n)[j],
            ),
    decreases n,
{
    if n > 0 {
        lemma_kinds_below(shapes, n - 1);
        let front = kinds_below(shapes, n - 1);
        assert forall|j: int| 0 <= j < kinds_below(shapes, n).len() implies has_kind(
            shapes,
            #[trigger] kinds_below(shapes, n)[j],
        ) by {
            if j < front.len() {
                assert(kinds_below(shapes, n)[j] == front[j]);
                assert(has_kind(shapes, front[j]));
            } else {
                assert(shapes.contains_key(key_at(n - 1)));
                assert(kinds_below(shapes, n)[j] == key_at(n - 1).0);
                assert(shapes.contains_key((key_at(n - 1).0, key_at(n - 1).1)));
            }
        }
    }
}

/// Smallest of the `x` offsets among the first `n` cells, and the largest.
pub open spec fn x_span(cells: Seq<crate::common::coordinate::Coordinate<i32>>, n: int) -> (
    int,
    int,
)
    decreases n,
{
    if n <= 1 {
        (cells[0].x as int, cells[0].x as int)
    } else {
        let (lo, hi) = x_span(cells, n - 1);
        let x = cells[n - 1].x as int;
        (if x < lo {
            x
        } else {
            lo
        }, if x > hi {
            x
        } else {
            hi
        })
    }
}

impl Bag {
    /// The shape of kind `name` in orientation `rotation`, if the table has one.
    pub open spec fn spec_get(self, name: u8, rotation: Rotation) -> Option<Shape> {
        if self.shapes@.contains_key((name, rotation)) {
            Some(self.shapes@[(name, rotation)])
        } else {
            None
        }
    }

    /// The table without shapes.
    pub fn new() -> (b: Bag)
        ensures
            b.shapes@ == no_shapes(),
    {
        Bag { shapes: shapes_empty() }
    }

    /// Stores `shape` under its kind and orientation, in place of an earlier
    /// shape for them.
    pub fn insert(&mut self, shape: Shape)
        ensures
            final(self).shapes@ == old(self).shapes@.insert((shape.name, shape.rotation), shape),
    {
        let name = shape.name;
        let rotation = shape.rotation;
        shapes_insert(&mut self.shapes, name, rotation, shape);
    }

    /// The shape of kind `name` in orientation `rotation`, if the table has one.
    #[must_use]
    pub fn get(&self, name: u8, rotation: Rotation) -> (s: Option<&Shape>)
        ensures
            match s {
                Some(shape) => self.spec_get(name, rotation) == Some(*shape),
                None => self.spec_get(name, rotation).is_none(),
            },
    {
        shapes_get(&self.shapes, name, rotation)
    }

    /// The kind of every shape in the table, in ascending order; a kind comes
    /// once for each of its orientations that the table holds.
    pub fn pieces(&self) -> (v: Vec<u8>)
        ensures
            v@ == kinds_below(self.shapes@, 1024),
    {
        let mut v: Vec<u8> = Vec::new();
        let mut n: u16 = 0;
        while n < 1024
            invariant
                n <= 1024,
                v@ == kinds_below(self.shapes@, n as int),
            decreases 1024 - n,
        {
            let kind = (n / 4) as u8;
            let rotation = rotation_at((n % 4) as u8);
            if shapes_get(&self.shapes, kind, rotation).is_some() {
                v.push(kind);
            }
            n = n + 1;
        }
        v
    }

    /// The distance between the leftmost and the rightmost cell of a shape;
    /// `None` if the table lacks the shape or the shape has no cell.
    #[must_use]
    pub fn width(&self, name: u8, rotation: Rotation) -> (w: Option<usize>)
        ensures
            w == (match self.spec_get(name, rotation) {
                Some(shape) => if shape.cells.values@.len() == 0 {
                    None
                } else {
                    let (lo, hi) = x_span(shape.cells.values@, shape.cells.values@.len() as int);
                    Some((hi - lo) as usize)
                },
                None => None,
            }),
    {
        let shape = match self.get(name, rotation) {
            Some(s) => s,
            None => { return None; },
        };
        let n = shape.cells.values.len();
        if n == 0 {
            return None;
        }
        let mut lo: i32 = shape.cells.values[0].x;
        let mut hi: i32 = lo;
        let mut i: usize = 1;
        while i < n
            invariant
                1 <= i <= n,
                n == shape.cells.values@.len(),
                (lo as int, hi as int) == x_span(shape.cells.values@, i as int),
                lo <= hi,
            decreases n - i,
        {
            let x = shape.cells.values[i].x;
            if x < lo {
                lo = x;
            }
            if x > hi {
                hi = x;
            }
            i = i + 1;
        }
        let d: i64 = hi as i64 - lo as i64;
        Some(d as usize)
    }
}

/// What can be wrong with the text of a shape table.
#[derive(Clone, Debug, PartialEq, Eq)]
pub enum ShapeParseErr {
    Malformed,
    UnknownRotation(UnknownVariant),
    CoordinatesErr(CoordinateParseErr),
    UnknownColor(UnknownVariant),
}

impl ShapeParseErr {
    /// The fault that the error reports.
    pub open spec fn fault(self) -> LineFault {
        match self {
            ShapeParseErr::Malformed => LineFault::Malformed,
            ShapeParseErr::UnknownRotation(u) => LineFault::UnknownRotation(u.0@),
            ShapeParseErr::CoordinatesErr(c) => LineFault::Coordinates(c),
            ShapeParseErr::UnknownColor(u) => LineFault::UnknownColor(u.0@),
        }
    }
}

/// What an entry of a shape table holds: kind, colour, orientation, cells.
pub type ShapeRow = (u8, Color, Rotation, Seq<Coordinate<i32>>);

/// What a line means as an entry of a shape table. The line reads
/// `K.R=CELLS@COLOR`: the kind `K` is the one character before the first `.`,
/// what follows up to the first `=` names the orientation, what follows up to
/// the first `@` is the list of cells, and the rest names the colour. A line
/// whose marks do not come in this order is malformed.
pub open spec fn parse_shape(s: Seq<char>) -> Result<ShapeRow, LineFault> {
    let p = find_from(s, '.', 0);
    let e = find_from(s, '=', 0);
    let a = find_from(s, '@', 0);
    if p >= s.len() || e >= s.len() || a >= s.len() {
        Err(LineFault::Malformed)
    } else {
        match kind_of(s.subrange(0, p)) {
            None => Err(LineFault::Malformed),
            Some(kind) => if e < p + 1 {
                Err(LineFault::Malformed)
            } else {
                match parse_rotation(s.subrange(p + 1, e)) {
                    Err(t) => Err(LineFault::UnknownRotation(t)),
                    Ok(rotation) => if a < e + 1 {
                        Err(LineFault::Malformed)
                    } else {
                        match parse_coordinates(s.subrange(e + 1, a)) {
                            Err(c) => Err(LineFault::Coordinates(c)),
                            Ok(cells) => match parse_lower_color(
                                unicode_lowercase(s.subrange(a + 1, s.len() as int)),
                            ) {
                                Err(t) => Err(LineFault::UnknownColor(t)),
                                Ok(color) => Ok((kind, color, rotation, cells)),
                            },
                        }
                    },
                }
            },
        }
    }
}

/// What the first `n` lines mean as entries of a shape table, or the fault of
/// the first line that has one.
pub open spec fn parse_shape_lines(lines: Seq<Seq<char>>, n: int) -> Result<Seq<ShapeRow>, LineFault>
    decreases n,
{
    if n <= 0 {
        Ok(Seq::empty())
    } else {
        match parse_shape_lines(lines, n - 1) {
            Err(e) => Err(e),
            Ok(rows) => match parse_shape(lines[n - 1]) {
                Err(e) => Err(e),
                Ok(row) => Ok(rows.push(row)),
            },
        }
    }
}

/// Once a line has a fault, reading more lines keeps the fault.
proof fn lemma_shape_lines_fault(lines: Seq<Seq<char>>, n: int, m: int)
    requires
        0 <= n <= m,
        parse_shape_lines(lines, n).is_err(),
    ensures
        parse_shape_lines(lines, m) == parse_shape_lines(lines, n),
    decreases m - n,
{
    if n < m {
        lemma_shape_lines_fault(lines, n, m - 1);
    }
}

/// The last of the first `n` rows that is for `kind` in `rotation`.
pub open spec fn last_row_for(rows: Seq<ShapeRow>, n: int, kind: u8, rotation: Rotation) -> Option<
    ShapeRow,
>
    decreases n,
{
    if n <= 0 {
        None
    } else if rows[n - 1].0 == kind && rows[n - 1].2 == rotation {
        Some(rows[n - 1])
    } else {
        last_row_for(rows, n - 1, kind, rotation)
    }
}

/// Whether the map holds, for each kind and orientation, the last of the
/// first `n` rows that is for them, and nothing else.
pub open spec fn holds_rows(shapes: Map<(u8, Rotation), Shape>, rows: Seq<ShapeRow>, n: int) -> bool {
    forall|kind: u8, rotation: Rotation|
        match #[trigger] last_row_for(rows, n, kind, rotation) {
            Some(row) => shapes.contains_key((kind, rotation)) && shapes[(kind, rotation)].row() == row,
            None => !shapes.contains_key((kind, rotation)),
        }
}

impl Shape {
    /// What the entry holds.
    pub open spec fn row(self) -> ShapeRow {
        (self.name, self.color, self.rotation, self.cells.values@)
    }

    /// The entry that the characters of a line write.
    pub fn read(s: &[char]) -> (r: Result<Shape, ShapeParseErr>)
        ensures
            match r {
                Ok(k) => parse_shape(s@) == Ok::<ShapeRow, LineFault>(k.row()),
                Err(e) => parse_shape(s@) == Err::<ShapeRow, LineFault>(e.fault()),
            },
    {
        let n = s.len();
        let fp = find_char(s, '.', 0);
        let fe = find_char(s, '=', 0);
        let fa = find_char(s, '@', 0);
        if fp.is_none() || fe.is_none() || fa.is_none() {
            return Err(ShapeParseErr::Malformed);
        }
        let p = fp.unwrap();
        let e = fe.unwrap();
        let a = fa.unwrap();
        let name = match read_kind(slice_chars(s, 0, p).as_slice()) {
            Some(k) => k,
            None => {
                return Err(ShapeParseErr::Malformed);
            },
        };
        if e < p + 1 {
            return Err(ShapeParseErr::Malformed);
        }
        let rotation = match Rotation::read(slice_chars(s, p + 1, e).as_slice()) {
            Ok(r) => r,
            Err(u) => {
                return Err(ShapeParseErr::UnknownRotation(u));
            },
        };
        if a < e + 1 {
            return Err(ShapeParseErr::Malformed);
        }
        let cells = match Coordinates::read(slice_chars(s, e + 1, a).as_slice()) {
            Ok(c) => c,
            Err(c) => {
                return Err(ShapeParseErr::CoordinatesErr(c));
            },
        };
        let text = string_of(slice_chars(s, a + 1, n).as_slice());
        let color = match Color::parse(text.as_str()) {
            Ok(c) => c,
            Err(u) => {
                return Err(ShapeParseErr::UnknownColor(u));
            },
        };
        Ok(Shape { name, color, rotation, cells })
    }

    /// The entry that a line of text writes.
    pub fn parse(s: &str) -> (r: Result<Shape, ShapeParseErr>)
        ensures
            match r {
                Ok(k) => parse_shape(s@) == Ok::<ShapeRow, LineFault>(k.row()),
                Err(e) => parse_shape(s@) == Err::<ShapeRow, LineFault>(e.fault()),
            },
    {
        let chars = chars_of(s);
        Shape::read(chars.as_slice())
    }
}

impl Bag {
    /// The shape table that the text writes, one entry on each line. Of two
    /// entries for the same kind and orientation the later one counts.
    pub fn parse(s: &str) -> (r: Result<Bag, ShapeParseErr>)
        ensures
            match r {
                Ok(bag) => parse_shape_lines(lines(s@), lines(s@).len() as int) matches Ok(rows)
                    && holds_rows(bag.shapes@, rows, rows.len() as int),
                Err(e) => parse_shape_lines(lines(s@), lines(s@).len() as int) == Err::<
                    Seq<ShapeRow>,
                    LineFault,
                >(e.fault()),
            },
    {
        let chars = chars_of(s);
        let all = lines_of(chars.as_slice());
        let mut bag = Bag::new();
        let ghost mut rows: Seq<ShapeRow> = Seq::empty();
        let mut i: usize = 0;
        assert(views(all@).len() == all@.len());
        while i < all.len()
            invariant
                i <= all@.len(),
                views(all@) == lines(s@),
                views(all@).len() == all@.len(),
                parse_shape_lines(views(all@), i as int) == Ok::<Seq<ShapeRow>, LineFault>(rows),
                rows.len() == i,
                holds_rows(bag.shapes@, rows, i as int),
            decreases all@.len() - i,
        {
            assert(views(all@)[i as int] == all@[i as int]@);
            match Shape::read(all[i].as_slice()) {
                Ok(shape) => {
                    let ghost before = bag.shapes@;
                    let ghost old_rows = rows;
                    let ghost row = shape.row();
                    bag.insert(shape);
                    proof {
                        rows = rows.push(row);
                        assert forall|kind: u8, rotation: Rotation|
                            match #[trigger] last_row_for(rows, i + 1, kind, rotation) {
                                Some(r) => bag.shapes@.contains_key((kind, rotation)) && bag.shapes@[(
                                    kind,
                                    rotation,
                                )].row() == r,
                                None => !bag.shapes@.contains_key((kind, rotation)),
                            } by {
                            lemma_last_row_agree(old_rows, rows, i as int, kind, rotation);
                            assert(last_row_for(old_rows, i as int, kind, rotation) == last_row_for(
                                rows,
                                i as int,
                                kind,
                                rotation,
                            ));
                        }
                    }
                },
                Err(e) => {
                    proof {
                        lemma_shape_lines_fault(views(all@), i as int + 1, all@.len() as int);
                    }
                    return Err(e);
                },
            }
            i = i + 1;
        }
        Ok(bag)
    }
}

/// The last row for a kind and orientation among the first `n` rows does not
/// depend on the rows after them.
proof fn lemma_last_row_agree(a: Seq<ShapeRow>, b: Seq<ShapeRow>, n: int, kind: u8, rotation: Rotation)
    requires
        0 <= n <= a.len(),
        n <= b.len(),
        forall|i: int| 0 <= i < n ==> a[i] == b[i],
    ensures
        last_row_for(a, n, kind, rotation) == last_row_for(b, n, kind, rotation),
    decreases n,
{
    if n > 0 {
        lemma_last_row_agree(a, b, n - 1, kind, rotation);
    }
}

/// The text of an entry of a shape table: the number of the kind, `.`, the
/// letter of the orientation, `=`, the cells, `@` and the letter of the
/// colour, as in `84.N=(+0,+1)(-1,+0)(+0,+0)(+1,+0)@T`.
pub open spec fn shape_text(shape: Shape) -> Seq<char> {
    decimal(shape.name as nat) + seq!['.'] + shape.rotation.letter() + seq!['='] + coordinates_text(
        shape.cells.values@,
        shape.cells.values@.len() as int,
    ) + seq!['@'] + shape.color.letter()
}

/// The texts of the shapes that the map holds among the first `n` pairs of
/// `key_at`, in the order of the pairs.
pub open spec fn shape_texts(shapes: Map<(u8, Rotation), Shape>, n: int) -> Seq<Seq<char>>
    decreases n,
{
    if n <= 0 {
        Seq::empty()
    } else if shapes.contains_key(key_at(n - 1)) {
        shape_texts(shapes, n - 1).push(shape_text(shapes[key_at(n - 1)]))
    } else {
        shape_texts(shapes, n - 1)
    }
}

impl Shape {
    /// The text of the entry.
    pub fn to_string(&self) -> (s: String)
        ensures
            s@ == shape_text(*self),
    {
        let mut s = String::new();
        push_chars(&mut s, decimal_chars(self.name as u64).as_slice());
        s.push('.');
        s.append(self.rotation.to_string().as_str());
        s.push('=');
        s.append(self.cells.to_string().as_str());
        s.push('@');
        s.append(self.color.to_string().as_str());
        assert(s@ =~= shape_text(*self));
        s
    }
}

impl Bag {
    /// The text of the table: the texts of its shapes, in ascending order of
    /// kind and orientation, with line feeds between them.
    pub fn to_string(&self) -> (s: String)
        ensures
            s@ == join(shape_texts(self.shapes@, 1024), seq!['\n']),
    {
        let mut texts: Vec<Vec<char>> = Vec::new();
        let mut n: u16 = 0;
        assert(views(texts@) =~= shape_texts(self.shapes@, 0));
        while n < 1024
            invariant
                n <= 1024,
                views(texts@) == shape_texts(self.shapes@, n as int),
            decreases 1024 - n,
        {
            let kind = (n / 4) as u8;
            let rotation = rotation_at((n % 4) as u8);
            assert(key_at(n as int) == (kind, rotation));
            match shapes_get(&self.shapes, kind, rotation) {
                Some(shape) => {
                    let t = chars_of(shape.to_string().as_str());
                    let ghost before = views(texts@);
                    texts.push(t);
                    assert(views(texts@) =~= before.push(t@));
                },
                None => {},
            }
            n = n + 1;
        }
        let mut feed: Vec<char> = Vec::new();
        feed.push('\n');
        assert(feed@ =~= seq!['\n']);
        let text = join_chars(&texts, feed.as_slice());
        string_of(text.as_slice())
    }
}

impl std::str::FromStr for Shape {
    type Err = ShapeParseErr;

    fn from_str(s: &str) -> (r: Result<Self, ShapeParseErr>)
        ensures
            match r {
                Ok(k) => parse_shape(s@) == Ok::<ShapeRow, LineFault>(k.row()),
                Err(e) => parse_shape(s@) == Err::<ShapeRow, LineFault>(e.fault()),
            },
    {
        Shape::parse(s)
    }
}

impl std::str::FromStr for Bag {
    type Err = ShapeParseErr;

    fn from_str(s: &str) -> (r: Result<Self, ShapeParseErr>)
        ensures
            match r {
                Ok(bag) => parse_shape_lines(lines(s@), lines(s@).len() as int) matches Ok(rows)
                    && holds_rows(bag.shapes@, rows, rows.len() as int),
                Err(e) => parse_shape_lines(lines(s@), lines(s@).len() as int) == Err::<
                    Seq<ShapeRow>,
                    LineFault,
                >(e.fault()),
            },
    {
        Bag::parse(s)
    }
}

/// Every kind that has a shape is among the kinds listed.
pub proof fn lemma_kinds_listed(shapes: Map<(u8, Rotation), Shape>, kind: u8, r: Rotation, n: int)
    requires
        shapes.contains_key((kind, r)),
        4 * kind + r.quarter_turns() < n <= 1024,
    ensures
        kinds_below(shapes, n).contains(kind),
    decreases n,
{
    let at = 4 * kind + r.quarter_turns();
    if n - 1 == at {
        assert(key_at(n - 1) == (kind, r));
        let list = kinds_below(shapes, n);
        assert(list[list.len() - 1] == kind);
    } else {
        lemma_kinds_listed(shapes, kind, r, n - 1);
        let front = kinds_below(shapes, n - 1);
        let i = choose|i: int| 0 <= i < front.len() && front[i] == kind;
        assert(kinds_below(shapes, n)[i] == kind);
    }
}

} // verus!
