use engine::board::Board;
use engine::common::color::Color;
use engine::common::coordinate::{Coordinate, CoordinateParseErr, Coordinates};
use engine::common::rotation::Rotation;
use engine::common::UnknownVariant;
use engine::file::corners::{CornerParseErr, CornerSet, Corners};
use engine::file::kicks::{Kick, KickParseErr, Kicks};
use engine::file::piece::{Bag, Shape, ShapeParseErr};
use engine::finesse::{Finesse, Key, Pair};
use engine::piece::Piece;
use engine::queue::Queue;

#[test]
fn rotation_group_laws() {
    for r in [Rotation::North, Rotation::East, Rotation::South, Rotation::West] {
        assert_eq!(r.rotate_cw().rotate_ccw(), r);
        assert_eq!(r.rotate_ccw().rotate_cw(), r);
        assert_eq!(r.rotate_cw().rotate_cw(), r.rotate_180());
        assert_eq!(r.rotate_180().rotate_180(), r);
        assert_eq!(r.rotate_cw().rotate_cw().rotate_cw().rotate_cw(), r);
    }
    assert_eq!(Rotation::North.rotate_cw(), Rotation::East);
    assert_eq!(Rotation::West.rotate_cw(), Rotation::North);
    assert_eq!(Rotation::North.rotate_ccw(), Rotation::West);
    assert_eq!(Rotation::East.rotate_180(), Rotation::West);
    assert_eq!(Rotation::South.index(), 2);
}

#[test]
fn rotation_names() {
    for name in ["n", "N", "north", "NORTH", "spawn", "0"] {
        assert_eq!(Rotation::parse(name), Ok(Rotation::North));
    }
    for name in ["e", "East", "right", "1"] {
        assert_eq!(Rotation::parse(name), Ok(Rotation::East));
    }
    for name in ["s", "SOUTH", "reverse", "2"] {
        assert_eq!(Rotation::parse(name), Ok(Rotation::South));
    }
    for name in ["w", "west", "Left", "3"] {
        assert_eq!(Rotation::parse(name), Ok(Rotation::West));
    }
    assert_eq!(Rotation::parse("Up"), Err(UnknownVariant("up".to_string())));
    assert_eq!(Rotation::parse(""), Err(UnknownVariant(String::new())));
    assert_eq!(Rotation::West.to_string(), "W");
    assert_eq!(Rotation::North.to_string(), "N");
}

#[test]
fn color_names() {
    let all = [
        Color::I, Color::J, Color::O, Color::L, Color::Z, Color::S, Color::T, Color::G, Color::E,
    ];
    for c in all {
        assert_eq!(Color::parse(&c.to_string()), Ok(c));
        assert_eq!(Color::parse(&c.to_string().to_lowercase()), Ok(c));
    }
    assert_eq!(Color::parse("Q"), Err(UnknownVariant("q".to_string())));
    assert_eq!(Color::from_lowercase("I"), Err(UnknownVariant("I".to_string())));
    assert_eq!(Color::from_lowercase("t"), Ok(Color::T));
}

#[test]
fn board_text_round_trip() {
    for text in ["", "XX_X", "X___|X_XX", "_XX_|X__X|XX__", "___X|____|X___"] {
        let b = Board::parse(text).unwrap();
        assert_eq!(b.small(), text);
        assert_eq!(Board::parse(&b.small()), Ok(b));
    }
    let mut tall = Board::empty();
    tall.set(1, 40, true);
    tall.set(3, 0, true);
    tall.set(0, 31, true);
    tall.set(0, 32, true);
    assert_eq!(Board::parse(&tall.small()), Ok(tall));
    assert_eq!(tall.small().split('|').count(), 41);
    let mut full = Board::empty();
    for y in 0..64 {
        full.set(y % 4, y, true);
    }
    assert_eq!(Board::parse(&full.small()), Ok(full));
}

#[test]
fn board_text_is_read_from_the_last_row_up() {
    let b = Board::parse("|X___||_X__|").unwrap();
    assert!(b.get(1, 0));
    assert!(b.get(0, 1));
    assert_eq!(b.height(), 2);
    assert_eq!(b.num_minos(), 2);
    assert_eq!(b.to_string(), "|X___|\n|_X__|\n");
    assert_eq!(Board::empty().to_string(), "<empty>\n");
    assert_eq!(Board::empty().small(), "");
    // Leading empty rows are kept when read and left out when written.
    let padded = Board::parse("____|____|__X_").unwrap();
    assert_eq!(padded.small(), "__X_");
    // Thirty-three rows: the first is row 32.
    let mut text = String::from("X___");
    for _ in 0..32 {
        text.push_str("|____");
    }
    let high = Board::parse(&text).unwrap();
    assert!(high.get(0, 32));
    assert_eq!(high.height(), 33);
}

#[test]
fn board_text_errors() {
    assert_eq!(Board::parse("XX_"), Err("invalid row: XX_".to_string()));
    assert_eq!(Board::parse("XX_XX"), Err("invalid row: XX_XX".to_string()));
    assert_eq!(Board::parse("XXoX"), Err("invalid char: o".to_string()));
    assert_eq!(Board::parse("X\u{e9}_"), Err("invalid char: \u{e9}".to_string()));
    assert_eq!(Board::parse("X\u{e9}__"), Err("invalid row: X\u{e9}__".to_string()));
    // The last row is read first.
    assert_eq!(Board::parse("XXX|XXaX"), Err("invalid char: a".to_string()));
    assert_eq!(Board::parse("XXbX|XXX"), Err("invalid row: XXX".to_string()));
    let mut many = String::new();
    for _ in 0..65 {
        many.push_str("X___|");
    }
    assert_eq!(Board::parse(&many), Err("too many rows".to_string()));
    // With more than 32 rows the rows above row 31 are read first.
    let mut text = String::from("XaXX");
    for _ in 0..31 {
        text.push_str("|____");
    }
    text.push_str("|XbXX");
    assert_eq!(Board::parse(&text), Err("invalid char: a".to_string()));
}

#[test]
fn keys_have_short_codes_and_names() {
    let all = [
        (Key::MoveLeft, "l", "moveLeft"),
        (Key::MoveRight, "r", "moveRight"),
        (Key::DasLeft, "dl", "moveLeft"),
        (Key::DasRight, "dr", "moveRight"),
        (Key::RotateCW, "cw", "rotateCW"),
        (Key::RotateCCW, "ccw", "rotateCCW"),
        (Key::Rotate180, "f", "rotate180"),
        (Key::SoftDrop, "fd", "softDrop"),
        (Key::SonicDrop, "sd", "softDrop"),
        (Key::Hold, "h", "hold"),
    ];
    for (n, (key, short, name)) in all.iter().enumerate() {
        assert_eq!(key.short(), *short);
        assert_eq!(key.to_string(), *name);
        assert_eq!(Key::parse(short), Ok(*key));
        assert_eq!(Key::parse(&short.to_uppercase()), Ok(*key));
        assert_eq!(Key::from_code(key.code()), Some(*key));
        assert!(all[..n].iter().all(|(other, _, _)| other.code() != key.code()));
        assert!(key.code() < 16);
    }
    assert_eq!(Key::from_code(10), None);
    assert_eq!(Key::parse("up"), Err("unknown variant up".to_string()));
    assert_eq!(Key::parse(" CW"), Err("unknown variant  cw".to_string()));
}

#[test]
fn finesse_holds_keys_in_order() {
    let mut f = Finesse::new();
    assert_eq!(f.len(), 0);
    assert_eq!(f.get(0), None);
    assert_eq!(f, Finesse::default());
    let keys = [Key::DasLeft, Key::RotateCW, Key::Hold, Key::MoveLeft, Key::SonicDrop];
    for (n, k) in keys.iter().enumerate() {
        f.push(*k);
        assert_eq!(f.len() as usize, n + 1);
        assert_eq!(f.get(n as u8), Some(*k));
    }
    assert_eq!(f.keys(), keys.to_vec());
    assert_eq!(f.get(5), None);
    assert_eq!(f, Finesse::with(&keys));
    assert_eq!(f.short(), "dl,cw,h,l,sd");
    assert_eq!(f.to_string(), "moveLeft rotateCW hold moveLeft softDrop");
    let spun = f.with_spin(true);
    assert!(spun.is_spin());
    assert!(!f.is_spin());
    assert_ne!(spun, f);
    assert_eq!(spun.keys(), f.keys());
    assert_eq!(spun.to_string(), "moveLeft rotateCW hold moveLeft softDrop *");
    assert_eq!(spun.with_spin(false), f);
    let mut it = f.iter();
    for k in keys {
        assert_eq!(it.next(), Some(k));
    }
    assert_eq!(it.next(), None);
    let mut g = Finesse::with(&keys[..2]);
    g.extend(&keys[2..]);
    assert_eq!(g, f);
}

#[test]
fn finesse_is_full_at_thirty_two_keys() {
    let keys = [Key::Hold; 32];
    let f = Finesse::with(&keys);
    assert_eq!(f.len(), 32);
    assert_eq!(f.get(31), Some(Key::Hold));
    assert_eq!(f.get(32), None);
    assert_eq!(Finesse::parse(&f.short()), Ok(f));
    let long = format!("{},cw", f.short());
    assert_eq!(Finesse::parse(&long), Err("too many keys".to_string()));
}

#[test]
fn finesse_short_text_round_trip() {
    let all = [
        Key::MoveLeft, Key::MoveRight, Key::SoftDrop, Key::DasLeft, Key::DasRight, Key::SonicDrop,
        Key::RotateCW, Key::RotateCCW, Key::Rotate180, Key::Hold,
    ];
    assert_eq!(Finesse::parse(&Finesse::new().short()), Ok(Finesse::new()));
    for a in all {
        for b in all {
            let f = Finesse::with(&[a, b, a]);
            assert_eq!(Finesse::parse(&f.short()), Ok(f));
        }
    }
    assert_eq!(Finesse::parse("  \t"), Ok(Finesse::new()));
    assert_eq!(Finesse::parse("CW,Sd"), Ok(Finesse::with(&[Key::RotateCW, Key::SonicDrop])));
    assert_eq!(Finesse::parse("cw,,sd"), Err("unknown variant ".to_string()));
    assert_eq!(Finesse::parse("cw, sd"), Err("unknown variant  sd".to_string()));
    assert_eq!(Finesse::parse("x,y"), Err("unknown variant x".to_string()));
}

#[test]
fn pair_text() {
    let p = Pair(b'T', Finesse::with(&[Key::RotateCW, Key::SonicDrop]));
    assert_eq!(p.to_string(), "(T:cw,sd)");
    assert_eq!(Pair::parse("(T:cw,sd)"), Ok(p));
    assert_eq!(Pair::parse("  (T:cw,sd) "), Ok(p));
    assert_eq!(Pair::parse("(Txy:cw,sd)"), Ok(p));
    assert_eq!(Pair::parse("(I:)"), Ok(Pair(b'I', Finesse::new())));
    assert_eq!(Pair(b'I', Finesse::new()).to_string(), "(I:)");
    let end = Err("finesse must start with '(' and end with ')'".to_string());
    assert_eq!(Pair::parse("T:cw"), end);
    assert_eq!(Pair::parse("("), end);
    assert_eq!(Pair::parse(""), end);
    assert_eq!(Pair::parse("(T:cw"), end);
    assert_eq!(Pair::parse("()"), Err("piece must be a single character".to_string()));
    assert_eq!(Pair::parse("(:cw)"), Err("piece must be a single character".to_string()));
    assert_eq!(Pair::parse("(\u{3b1}:cw)"), Err("piece must be a single character".to_string()));
    assert_eq!(Pair::parse("(T)"), Err("missing finesse".to_string()));
    assert_eq!(Pair::parse("(T:up)"), Err("unknown variant up".to_string()));
}

#[test]
fn queue_holds_kinds_in_order() {
    let mut q = Queue::new();
    assert!(q.is_empty());
    assert_eq!(q.len(), 0);
    assert_eq!(q.pop(), None);
    assert_eq!(q, Queue::default());
    for (n, k) in "TSZLJIO".bytes().enumerate() {
        q.push(k);
        assert_eq!(q.len(), n + 1);
        assert_eq!(q.get(n), k);
    }
    assert!(!q.is_empty());
    assert_eq!(q.as_str(), "TSZLJIO");
    assert_eq!(q.get(7), 0);
    assert_eq!(q.items(), b"TSZLJIO".to_vec());
    assert_eq!(q.slice(1, 7).as_str(), "SZLJIO");
    assert_eq!(q.slice(2, 4).as_str(), "ZL");
    assert_eq!(q.slice(5, 100).as_str(), "IO");
    assert_eq!(q.slice(4, 4).as_str(), "");
    assert_eq!(q.slice(9, 12).as_str(), "");
    assert_eq!(q.slice(0, usize::MAX), q);
    assert_eq!(q.pop(), Some(b'O'));
    assert_eq!(q.as_str(), "TSZLJI");
    assert_eq!(q, Queue::from_kinds(b"TSZLJI"));
    assert_eq!(Queue::from_text("TSZLJI"), Some(q));
    assert_eq!(Queue::prepend(b'O', &q).as_str(), "OTSZLJI");
    let mut twice = q;
    twice.extend(&q);
    assert_eq!(twice.as_str(), "TSZLJITSZLJI");
    assert!(q.same(&Queue::from_kinds(b"TSZLJI")));
    assert!(!q.same(&twice));
    let mut it = q.iter();
    for k in "TSZLJI".bytes() {
        assert_eq!(it.next(), Some(k));
    }
    assert_eq!(it.next(), None);
}

#[test]
fn queue_is_full_at_sixty_four_kinds() {
    let kinds = [b'I'; 64];
    let mut q = Queue::from_kinds(&kinds);
    assert_eq!(q.len(), 64);
    assert_eq!(q.get(63), b'I');
    assert_eq!(q.pop(), Some(b'I'));
    assert_eq!(q.len(), 63);
    assert_eq!(q.get(63), 0);
    assert_eq!(Queue::from_text(&"I".repeat(64)).map(|q| q.len()), Some(64));
    assert_eq!(Queue::from_text(&"I".repeat(65)), None);
    assert_eq!(Queue::from_text("\u{e9}").map(|q| q.items()), Some(vec![0xc3, 0xa9]));
}

#[test]
fn queues_are_ordered_by_length_and_then_by_kinds() {
    let texts = ["", "I", "T", "II", "IT", "TI", "TT", "III"];
    for (i, a) in texts.iter().enumerate() {
        for (j, b) in texts.iter().enumerate() {
            let (qa, qb) = (Queue::from_text(a).unwrap(), Queue::from_text(b).unwrap());
            let expected = if i < j { -1 } else if i > j { 1 } else { 0 };
            assert_eq!(qa.order(&qb), expected);
            assert_eq!(qa.cmp(&qb) as i8, expected);
            assert_eq!(qa == qb, i == j);
            assert_eq!(qa.same(&qb), i == j);
        }
    }
}

#[test]
fn coordinate_text() {
    assert_eq!(Coordinate::<i32>::parse("(1,2)"), Ok(Coordinate::new(1, 2)));
    assert_eq!(Coordinate::<i32>::parse("  ( +1 , -2 ) "), Ok(Coordinate::new(1, -2)));
    assert_eq!(Coordinate::<i32>::parse("ab(-0,007)cd"), Ok(Coordinate::new(0, 7)));
    assert_eq!(
        Coordinate::<i32>::parse("(2147483647,-2147483648)"),
        Ok(Coordinate::new(i32::MAX, i32::MIN))
    );
    assert_eq!(Coordinate::<i32>::parse("(2147483648,0)"), Err(CoordinateParseErr::Contents));
    assert_eq!(Coordinate::<i32>::parse("(0,-2147483649)"), Err(CoordinateParseErr::Contents));
    assert_eq!(Coordinate::<i32>::parse("(99999999999999999999,0)"), Err(CoordinateParseErr::Contents));
    assert_eq!(Coordinate::<i32>::parse("(1,)"), Err(CoordinateParseErr::Contents));
    assert_eq!(Coordinate::<i32>::parse("(+,1)"), Err(CoordinateParseErr::Contents));
    assert_eq!(Coordinate::<i32>::parse("(1 2,3)"), Err(CoordinateParseErr::Contents));
    assert_eq!(Coordinate::<i32>::parse("(a,1)"), Err(CoordinateParseErr::Contents));
    assert_eq!(Coordinate::<i32>::parse("1,2"), Err(CoordinateParseErr::MissingParens));
    assert_eq!(Coordinate::<i32>::parse("(1,2"), Err(CoordinateParseErr::MissingParens));
    assert_eq!(Coordinate::<i32>::parse(")1,2("), Err(CoordinateParseErr::MismatchedParens));
    assert_eq!(Coordinate::<i32>::parse("(1 2)"), Err(CoordinateParseErr::MissingComma));
    assert_eq!(Coordinate::<i32>::parse("1,(2)"), Err(CoordinateParseErr::MisplacedComma));
    assert_eq!(Coordinate::<i32>::parse("(1)2,"), Err(CoordinateParseErr::MisplacedComma));
    assert_eq!(Coordinate::new(1, -2).to_string(), "(+1,-2)");
    assert_eq!(Coordinate::new(0, 0).to_string(), "(+0,+0)");
    assert_eq!(Coordinate::new(i32::MIN, i32::MAX).to_string(), "(-2147483648,+2147483647)");
    for c in [Coordinate::new(3, -40), Coordinate::new(i32::MIN, i32::MAX), Coordinate::new(0, 100)] {
        assert_eq!(Coordinate::<i32>::parse(&c.to_string()), Ok(c));
    }
}

#[test]
fn coordinates_text() {
    let list = Coordinates::<i32>::parse("(0,0)(-1,0) (2, 3)").unwrap();
    assert_eq!(
        list.values,
        vec![Coordinate::new(0, 0), Coordinate::new(-1, 0), Coordinate::new(2, 3)]
    );
    assert_eq!(list.to_string(), "(+0,+0)(-1,+0)(+2,+3)");
    assert_eq!(Coordinates::<i32>::parse(&list.to_string()), Ok(list.clone()));
    assert_eq!(list.iter().count(), 3);
    assert_eq!(list.iter().next(), Some(&Coordinate::new(0, 0)));
    assert_eq!(Coordinates::<i32>::parse("").map(|c| c.values.len()), Ok(0));
    assert_eq!(Coordinates::<i32>::parse("(0,0) "), Err(CoordinateParseErr::MissingParens));
    assert_eq!(Coordinates::<i32>::parse("(0,0"), Err(CoordinateParseErr::MissingParens));
    assert_eq!(Coordinates::<i32>::parse("(0,0)(1;1)"), Err(CoordinateParseErr::MissingComma));
    assert_eq!(Coordinates::<i32>::parse("(0,0)(x,1)"), Err(CoordinateParseErr::Contents));
}

#[test]
fn kick_table_text() {
    let k = Kick::parse("T.ne=(0,0)(-1,0)(-1,+1)").unwrap();
    assert_eq!(k.piece, b'T');
    assert_eq!(k.source, Rotation::North);
    assert_eq!(k.target, Rotation::East);
    assert_eq!(
        k.tests.values,
        vec![Coordinate::new(0, 0), Coordinate::new(-1, 0), Coordinate::new(-1, 1)]
    );
    assert_eq!(Kick::parse("T.0right=").map(|k| (k.source, k.target)), Ok((Rotation::North, Rotation::East)));
    assert_eq!(Kick::parse("Tne=(0,0)"), Err(KickParseErr::Malformed));
    assert_eq!(Kick::parse("T.ne(0,0)"), Err(KickParseErr::Malformed));
    assert_eq!(Kick::parse("TT.ne=(0,0)"), Err(KickParseErr::Malformed));
    assert_eq!(Kick::parse(".ne=(0,0)"), Err(KickParseErr::Malformed));
    assert_eq!(
        Kick::parse("T.n=(0,0)"),
        Err(KickParseErr::UnknownRotation(UnknownVariant(String::new())))
    );
    assert_eq!(
        Kick::parse("T.=(0,0)"),
        Err(KickParseErr::UnknownRotation(UnknownVariant("=".to_string())))
    );
    assert_eq!(Kick::parse("=T.ne"), Err(KickParseErr::Malformed));
    assert_eq!(Kick::parse("=.ne"), Err(KickParseErr::Malformed));
    assert_eq!(Kick::parse("=T."), Err(KickParseErr::Malformed));
    assert_eq!(
        Kick::parse("T.xe=(0,0)"),
        Err(KickParseErr::UnknownRotation(UnknownVariant("x".to_string())))
    );
    assert_eq!(
        Kick::parse("T.nUp=(0,0)"),
        Err(KickParseErr::UnknownRotation(UnknownVariant("up".to_string())))
    );
    assert_eq!(
        Kick::parse("T.ne=(0;0)"),
        Err(KickParseErr::CoordinatesErr(CoordinateParseErr::MissingComma))
    );
    let table = Kicks::parse("T.ne=(0,0)\r\nT.en=(1,1)\nI.ne=(2,2)\nT.ne=(3,3)").unwrap();
    assert_eq!(table.entries.len(), 4);
    let piece = |name| Piece { location: Coordinate::new(0, 0), rotation: Rotation::South, name };
    let first = table.get(&piece(b'T'), Rotation::North, Rotation::East).unwrap();
    assert_eq!(first.tests.values, vec![Coordinate::new(0, 0)]);
    let line = table.get(&piece(b'I'), Rotation::North, Rotation::East).unwrap();
    assert_eq!(line.tests.values, vec![Coordinate::new(2, 2)]);
    assert!(table.get(&piece(b'I'), Rotation::East, Rotation::North).is_none());
    assert!(table.get(&piece(b'J'), Rotation::North, Rotation::East).is_none());
    assert_eq!(Kicks::parse("T.ne=(0,0)\n\nT.en=(1,1)"), Err(KickParseErr::Malformed));
    assert_eq!(Kicks::parse("").map(|k| k.entries.len()), Ok(0));
}

#[test]
fn corner_table_text() {
    let c = CornerSet::parse("T.S=(-1,-1)(1,1)").unwrap();
    assert_eq!((c.piece, c.rotation), (b'T', Rotation::South));
    assert_eq!(c.corners.values, vec![Coordinate::new(-1, -1), Coordinate::new(1, 1)]);
    assert_eq!(CornerSet::parse("T.S"), Err(CornerParseErr::Malformed));
    assert_eq!(CornerSet::parse("T=S.(0,0)"), Err(CornerParseErr::Malformed));
    assert_eq!(
        CornerSet::parse("T.Q=(0,0)"),
        Err(CornerParseErr::UnknownRotation(UnknownVariant("q".to_string())))
    );
    assert_eq!(
        CornerSet::parse("T.S=(0,0"),
        Err(CornerParseErr::CoordinatesErr(CoordinateParseErr::MissingParens))
    );
    let table = Corners::parse("T.N=(0,0)\nT.E=(1,1)\n").unwrap();
    assert_eq!(table.get(b'T', Rotation::East).map(|c| c.corners.values.len()), Some(1));
    assert!(table.get(b'T', Rotation::West).is_none());
    assert!(table.get(b'L', Rotation::East).is_none());
    assert_eq!(Corners::parse("T.N=(0,0)\nnonsense"), Err(CornerParseErr::Malformed));
}

#[test]
fn shape_table_text() {
    let s = Shape::parse("T.N=(0,1)(-1,0)(0,0)(1,0)@t").unwrap();
    assert_eq!((s.name, s.rotation, s.color), (b'T', Rotation::North, Color::T));
    assert_eq!(s.cells.values.len(), 4);
    assert_eq!(Shape::parse("T.N=(0,0)"), Err(ShapeParseErr::Malformed));
    assert_eq!(Shape::parse("T.N@T=(0,0)"), Err(ShapeParseErr::UnknownRotation(UnknownVariant("n@t".to_string()))));
    assert_eq!(Shape::parse("T.N@=(0,0)"), Err(ShapeParseErr::UnknownRotation(UnknownVariant("n@".to_string()))));
    assert_eq!(Shape::parse("@T.N=(0,0)"), Err(ShapeParseErr::Malformed));
    assert_eq!(Shape::parse("T=@.N"), Err(ShapeParseErr::Malformed));
    assert_eq!(Shape::parse("TT.N=(0,0)@T"), Err(ShapeParseErr::Malformed));
    assert_eq!(
        Shape::parse("T.X=(0,0)@T"),
        Err(ShapeParseErr::UnknownRotation(UnknownVariant("x".to_string())))
    );
    assert_eq!(
        Shape::parse("T.N=(0)@T"),
        Err(ShapeParseErr::CoordinatesErr(CoordinateParseErr::MissingComma))
    );
    assert_eq!(
        Shape::parse("T.N=(0,0)@Q"),
        Err(ShapeParseErr::UnknownColor(UnknownVariant("q".to_string())))
    );
    let mut bag = Bag::parse("T.N=(0,0)@T\nT.E=(0,0)(0,1)@T\nI.N=(0,0)@I\nT.N=(5,5)(7,5)@G").unwrap();
    assert_eq!(bag.get(b'T', Rotation::North).map(|s| s.color), Some(Color::G));
    assert_eq!(bag.get(b'T', Rotation::East).map(|s| s.cells.values.len()), Some(2));
    assert!(bag.get(b'T', Rotation::South).is_none());
    assert_eq!(bag.pieces(), vec![b'I', b'T', b'T']);
    assert_eq!(bag.width(b'T', Rotation::North), Some(2));
    bag.insert(Shape::parse("A.W=@e").unwrap());
    assert_eq!(bag.pieces(), vec![b'A', b'I', b'T', b'T']);
    assert_eq!(bag.width(b'A', Rotation::West), None);
    assert!(Bag::new().pieces().is_empty());
    assert_eq!(Bag::parse("T.N=(0,0)@T\nT.E"), Err(ShapeParseErr::Malformed));
}

#[test]
fn tables_are_written_as_they_are_read() {
    let kick = Kick::parse("T.ne=(0,0)(-1,0)(-1,+1)").unwrap();
    assert_eq!(kick.to_string(), "84.NE=(+0,+0)(-1,+0)(-1,+1)");
    let table = Kicks::parse("T.ne=(0,0)\nI.sw=(2,-1)\nO.wn=").unwrap();
    assert_eq!(table.to_string(), "84.NE=(+0,+0)\n73.SW=(+2,-1)\n79.WN=");
    assert_eq!(Kicks::parse("").unwrap().to_string(), "");
    let shape = Shape::parse("T.N=(0,1)(-1,0)@g").unwrap();
    assert_eq!(shape.to_string(), "84.N=(+0,+1)(-1,+0)@G");
    let bag = Bag::parse("T.E=(0,0)@T\nI.W=(0,1)@I\nT.N=(1,1)@T").unwrap();
    assert_eq!(bag.to_string(), "73.W=(+0,+1)@I\n84.N=(+1,+1)@T\n84.E=(+0,+0)@T");
    assert_eq!(Bag::new().to_string(), "");
}

#[test]
fn texts_parse_through_the_standard_trait() {
    assert_eq!("X___|_X__".parse::<Board>(), Board::parse("X___|_X__"));
    assert_eq!("XX".parse::<Board>(), Err("invalid row: XX".to_string()));
    assert_eq!("cw".parse::<Key>(), Ok(Key::RotateCW));
    assert_eq!("cw,sd".parse::<Finesse>(), Ok(Finesse::with(&[Key::RotateCW, Key::SonicDrop])));
    assert_eq!("(T:cw)".parse::<Pair>(), Ok(Pair(b'T', Finesse::with(&[Key::RotateCW]))));
    assert_eq!("left".parse::<Rotation>(), Ok(Rotation::West));
    assert_eq!("g".parse::<Color>(), Ok(Color::G));
    assert_eq!("(1,-1)".parse::<Coordinate<i32>>(), Ok(Coordinate::new(1, -1)));
    assert_eq!("(1,-1)(2,2)".parse::<Coordinates<i32>>().map(|c| c.values.len()), Ok(2));
    assert_eq!("T.ne=(0,0)".parse::<Kick>().map(|k| k.piece), Ok(b'T'));
    assert_eq!("T.ne=(0,0)\nT.en=(0,0)".parse::<Kicks>().map(|k| k.entries.len()), Ok(2));
    assert_eq!("T.N=(0,0)".parse::<CornerSet>().map(|c| c.rotation), Ok(Rotation::North));
    assert_eq!("T.N=(0,0)".parse::<Corners>().map(|c| c.entries.len()), Ok(1));
    assert_eq!("T.N=(0,0)@T".parse::<Shape>().map(|s| s.color), Ok(Color::T));
    assert_eq!("T.N=(0,0)@T".parse::<Bag>().map(|b| b.pieces()), Ok(vec![b'T']));
    assert_eq!("T.N".parse::<Bag>().err(), Some(ShapeParseErr::Malformed));
}
