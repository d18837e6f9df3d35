use engine::common::coordinate::Coordinate;
use engine::common::defaultdict::{DefaultFxHashMap, DefaultHashMap};
use engine::common::traits::{IterJoin, Saturating};
use engine::file::refv::{Refv, RefvParseErr};
use engine::randomizer::{Randomizer, Rng};
use engine::text::{chars_of, lines_of, parse_i32, parse_usize, split_chars, trim_chars, words_of};
use std::collections::hash_map::RandomState;

fn text(v: &[char]) -> String {
    v.iter().collect()
}

#[test]
fn saturating_arithmetic_stops_at_the_ends() {
    assert_eq!(Saturating::saturating_add(200u8, 100u8), 255);
    assert_eq!(Saturating::saturating_add(200u8, 55u8), 255);
    assert_eq!(Saturating::saturating_add(20u8, 5u8), 25);
    assert_eq!(Saturating::saturating_sub(20u8, 25u8), 0);
    assert_eq!(Saturating::saturating_sub(20u8, 5u8), 15);
    assert_eq!(Saturating::saturating_add(100i8, 100i8), 127);
    assert_eq!(Saturating::saturating_add(-100i8, -100i8), -128);
    assert_eq!(Saturating::saturating_sub(-100i8, 100i8), -128);
    assert_eq!(Saturating::saturating_sub(100i8, -100i8), 127);
    assert_eq!(Saturating::saturating_sub(-1i8, -128i8), 127);
    assert_eq!(Saturating::saturating_add(i128::MAX, 1), i128::MAX);
    assert_eq!(Saturating::saturating_sub(i64::MIN, 1), i64::MIN);
    assert_eq!(Saturating::saturating_add(usize::MAX, usize::MAX), usize::MAX);
    assert_eq!(Saturating::saturating_sub(0u128, 1u128), 0);
    assert_eq!(Saturating::saturating_add(-5isize, 7isize), 2);
    assert_eq!(Saturating::saturating_sub(7u16, 2u16), 5);
    assert_eq!(Saturating::saturating_add(u32::MAX, 0u32), u32::MAX);
    assert_eq!(Saturating::saturating_sub(i16::MIN, i16::MAX), i16::MIN);
    assert_eq!(Saturating::saturating_add(1u64, 2u64), 3);
    assert_eq!(Saturating::saturating_sub(i32::MAX, -1i32), i32::MAX);
}

#[test]
fn points_add_and_subtract_within_their_range() {
    let a = Coordinate::new(250u8, 3u8);
    let b = Coordinate::new(10u8, 5u8);
    assert_eq!(a.add(b), Coordinate::new(255, 8));
    assert_eq!(a.sub(b), Coordinate::new(240, 0));
    assert_eq!(b.sub(a), Coordinate::new(0, 2));
    let mut c = Coordinate::new(-100i8, 100i8);
    c.add_assign(Coordinate::new(-100, 100));
    assert_eq!(c, Coordinate::new(-128, 127));
    c.sub_assign(Coordinate::new(-1, 7));
    assert_eq!(c, Coordinate::new(-127, 120));
    assert_eq!(Coordinate::<i32>::default(), Coordinate::new(0, 0));
    assert!(Coordinate::new(1, 5) < Coordinate::new(2, 0));
}

#[test]
fn texts_join_with_a_separator() {
    let items = vec!["a".to_string(), "bc".to_string(), String::new(), "d".to_string()];
    assert_eq!(items.join(", "), "a, bc, , d");
    assert_eq!(IterJoin::join(vec!["one".to_string()], "-"), "one");
    assert_eq!(IterJoin::join(Vec::<String>::new(), "-"), "");
    assert_eq!(IterJoin::join(vec!["x".to_string(), "y".to_string()], ""), "xy");
}

#[test]
fn a_default_map_makes_up_missing_values() {
    let mut m: DefaultHashMap<u64, Vec<u8>, RandomState, _> = DefaultHashMap::new(|| vec![7u8]);
    assert!(!m.has(&1));
    m.zeroed(1);
    assert!(m.has(&1));
    assert_eq!(m.get(&1), &vec![7u8]);
    m.get_mut_or_default(1).push(8);
    m.get_mut_or_default(2).push(9);
    assert_eq!(m.get(&1), &vec![7u8, 8]);
    assert_eq!(m.get(&2), &vec![7u8, 9]);
    m.zeroed(2);
    assert_eq!(m.get(&2), &vec![7u8, 9]);
    assert_eq!(m.insert(3, vec![]), None);
    assert_eq!(m.insert(1, vec![1]), Some(vec![7u8, 8]));
    assert_eq!(m.inner().len(), 3);
    let inner = m.into_inner();
    assert_eq!(inner.get(&1), Some(&vec![1u8]));
    let mut fx: DefaultFxHashMap<u8, u32, _> = DefaultHashMap::new(|| 0);
    *fx.get_mut_or_default(b'T') += 2;
    *fx.get_mut_or_default(b'T') += 3;
    assert_eq!(*fx.get(&b'T'), 5);
}

#[test]
fn named_values() {
    let raw = "# tables\n  kick=srsx\nbag=&shapes\nshapes=tetromino\n\nloop=&loop\nn= 42 \nodd=&\n=void\nkick=srs\n";
    let r = Refv::new(raw).unwrap();
    assert_eq!(r.len(), 7);
    assert!(!r.is_empty());
    assert_eq!(r.get_raw("kick"), Some("srs"));
    assert_eq!(r.get_raw("bag"), Some("tetromino"));
    assert_eq!(r.get_raw("shapes"), Some("tetromino"));
    assert_eq!(r.get_raw(""), Some("void"));
    assert_eq!(r.get_raw("odd"), Some("void"));
    assert_eq!(r.get_raw("missing"), None);
    assert_eq!(r.get_raw(" kick"), None);
    assert_eq!(r.get_i32("n"), Some(Some(42)));
    assert_eq!(r.get_i32("kick"), Some(None));
    assert_eq!(r.get_i32("missing"), None);
    assert_eq!(Refv::new("a=1\nb\nc").err(), Some(RefvParseErr::Invalid(1)));
    assert_eq!(Refv::new("a=1\n#b\n \nc").err(), Some(RefvParseErr::Invalid(3)));
    let empty = Refv::new("").unwrap();
    assert!(empty.is_empty());
    assert_eq!(empty.deserialize(), Some(String::new()));
    let small = Refv::new("a=1\nb=&a\nc==\n").unwrap();
    let mut lines: Vec<String> = small.deserialize().unwrap().lines().map(str::to_string).collect();
    lines.sort();
    assert_eq!(lines, vec!["a=1", "b=1", "c=="]);
    assert_eq!(Refv::new("a=&b").unwrap().deserialize(), None);
}

#[test]
fn the_generator_multiplies_and_reduces() {
    let mut r = Rng::new(1);
    assert_eq!(r.seed, 1);
    assert_eq!(r.next(), 16_807);
    assert_eq!(r.next(), 282_475_249);
    assert_eq!(r.next(), 1_622_650_073);
    assert_eq!(r.seed, 1_622_650_073);
    assert_eq!(Rng::new(0).seed, 2_147_483_646);
    assert_eq!(Rng::new(-5).seed, 2_147_483_641);
    assert_eq!(Rng::new(i32::MIN).seed, -2);
    assert_eq!(Rng::new(i32::MIN).next(), -33_614);
    assert_eq!(Rng::new(i32::MAX).next(), 0);
    assert_eq!(Rng::new(0).next(), 2_147_466_840);
    let fresh = Rng::new(9);
    assert_eq!((fresh.last_generated, fresh.bagid, fresh.extrabag.len()), (None, 0, 0));
    assert_eq!(&Rng::bag(), b"ZLOSIJT");
    assert_ne!(Randomizer::Bag7, Randomizer::Bag14);
}

#[test]
fn text_is_cut_into_lines_words_and_pieces() {
    let cut = |s: &str| -> Vec<String> { lines_of(&chars_of(s)).iter().map(|l| text(l)).collect() };
    assert_eq!(cut("a\nb\r\nc"), vec!["a", "b", "c"]);
    assert_eq!(cut("a\n\nb\n"), vec!["a", "", "b"]);
    assert_eq!(cut("a\r"), vec!["a\r"]);
    assert_eq!(cut("\r\n"), vec![""]);
    assert_eq!(cut("\n"), vec![""]);
    assert!(cut("").is_empty());
    for s in ["a\nb\r\nc", "a\n\nb\n", "a\r", "\r\n", "", "x\r\r\ny\n\r"] {
        assert_eq!(cut(s), s.lines().collect::<Vec<_>>());
    }
    let words = |s: &str| -> Vec<String> { words_of(&chars_of(s)).iter().map(|l| text(l)).collect() };
    for s in ["a b", "  a \t b\n", "", " ", "one", "a\u{a0}b c\u{c}d\re"] {
        assert_eq!(words(s), s.split_ascii_whitespace().collect::<Vec<_>>());
    }
    let split = |s: &str| -> Vec<String> { split_chars(&chars_of(s), ',').iter().map(|l| text(l)).collect() };
    for s in ["a,b", ",a,,b,", "", ",", "abc"] {
        assert_eq!(split(s), s.split(',').collect::<Vec<_>>());
    }
    for s in ["  a b  ", "\t\n x", "x \u{a0}\u{3000}", "", " \r\n", "\u{85}a\u{2003}", "\u{200b}a"] {
        assert_eq!(text(&trim_chars(&chars_of(s))), s.trim());
    }
}

#[test]
fn numbers_are_read_as_the_machine_reads_them() {
    for s in ["0", "+0", "-0", "12", "-12", "+12", "007", "2147483647", "-2147483648", "2147483648",
        "-2147483649", "", "+", "-", "1 ", " 1", "1_0", "0x10", "99999999999999999999", "--1", "1-"]
    {
        assert_eq!(parse_i32(&chars_of(s)), s.parse::<i32>().ok());
        assert_eq!(parse_usize(&chars_of(s)), s.parse::<usize>().ok());
    }
    let most = usize::MAX.to_string();
    assert_eq!(parse_usize(&chars_of(&most)), Some(usize::MAX));
    assert_eq!(parse_usize(&chars_of(&format!("{most}0"))), None);
    assert_eq!(parse_usize(&chars_of("18446744073709551616")), "18446744073709551616".parse().ok());
}
