//! Text as sequences of characters: conversion from and to strings.

use vstd::prelude::*;

verus! {

/// `String::push` appends one character to the string.
pub assume_specification[ String::push ](s: &mut String, c: char)
    ensures
        final(s)@ == old(s)@.push(c),
;

/// The characters of `s`.
pub fn chars_of(s: &str) -> (v: Vec<char>)
    ensures
        v@ == s@,
{
    let mut v: Vec<char> = Vec::new();
    for c in it: s.chars()
        invariant
            it.seq() == s@,
            v@ == it.seq().subrange(0, it.index() as int),
    {
        v.push(c);
        assert(it.seq().subrange(0, it.index() as int).push(c) =~= it.seq().subrange(
            0,
            it.index() + 1,
        ));
    }
    assert(s@.subrange(0, s@.len() as int) =~= s@);
    v
}

/// Appends the characters of `v` to `s`.
pub fn push_chars(s: &mut String, v: &[char])
    ensures
        final(s)@ == old(s)@ + v@,
{
    let ghost before = s@;
    let mut i: usize = 0;
    while i < v.len()
        invariant
            i <= v@.len(),
            s@ == before + v@.subrange(0, i as int),
        decreases v@.len() - i,
    {
        s.push(v[i]);
        assert((before + v@.subrange(0, i as int)).push(v@[i as int]) =~= before + v@.subrange(
            0,
            i as int + 1,
        ));
        i = i + 1;
    }
    assert(v@.subrange(0, v@.len() as int) =~= v@);
}

/// The string made of the characters of `v`.
pub fn string_of(v: &[char]) -> (s: String)
    ensures
        s@ == v@,
{
    let mut s = String::new();
    push_chars(&mut s, v);
    assert(Seq::<char>::empty() + v@ =~= v@);
    s
}

/// The pieces of `s` between occurrences of `sep`. There is always at least
/// one piece, and a piece may be empty.
pub open spec fn split(s: Seq<char>, sep: char) -> Seq<Seq<char>>
    decreases s.len(),
{
    if s.len() == 0 {
        seq![Seq::empty()]
    } else {
        let front = split(s.drop_last(), sep);
        if s.last() == sep {
            front.push(Seq::empty())
        } else {
            front.drop_last().push(front.last().push(s.last()))
        }
    }
}

/// The pieces put together with `sep` between them.
pub open spec fn join(pieces: Seq<Seq<char>>, sep: Seq<char>) -> Seq<char>
    decreases pieces.len(),
{
    if pieces.len() == 0 {
        Seq::empty()
    } else if pieces.len() == 1 {
        pieces[0]
    } else {
        join(pieces.drop_last(), sep) + sep + pieces.last()
    }
}

/// The pieces one after the other.
pub open spec fn concat(pieces: Seq<Seq<char>>) -> Seq<char>
    decreases pieces.len(),
{
    if pieces.len() == 0 {
        Seq::empty()
    } else {
        concat(pieces.drop_last()) + pieces.last()
    }
}

/// The pieces that are not empty, in their order.
pub open spec fn nonempty(pieces: Seq<Seq<char>>) -> Seq<Seq<char>>
    decreases pieces.len(),
{
    if pieces.len() == 0 {
        pieces
    } else if pieces.last().len() > 0 {
        nonempty(pieces.drop_last()).push(pieces.last())
    } else {
        nonempty(pieces.drop_last())
    }
}

/// Splitting always gives at least one piece.
pub proof fn lemma_split_len(s: Seq<char>, sep: char)
    ensures
        split(s, sep).len() >= 1,
    decreases s.len(),
{
    if s.len() > 0 {
        lemma_split_len(s.drop_last(), sep);
    }
}

/// Text after the last separator is the last piece.
pub proof fn lemma_split_tail(a: Seq<char>, sep: char, b: Seq<char>)
    requires
        !b.contains(sep),
    ensures
        split(a + seq![sep] + b, sep) == split(a, sep).push(b),
    decreases b.len(),
{
    let whole = a + seq![sep] + b;
    if b.len() == 0 {
        assert(whole.drop_last() =~= a);
        assert(whole.last() == sep);
        assert(b =~= Seq::<char>::empty());
    } else {
        let front = b.drop_last();
        assert forall|i: int| 0 <= i < front.len() implies front[i] != sep by {
            assert(b[i] == front[i]);
            assert(b.contains(b[i]));
        }
        assert(!front.contains(sep));
        lemma_split_tail(a, sep, front);
        assert(whole.drop_last() =~= a + seq![sep] + front);
        assert(whole.last() == b.last());
        assert(b.contains(b[b.len() - 1]));
        let pieces = split(a, sep).push(front);
        assert(pieces.drop_last() =~= split(a, sep));
        assert(front.push(b.last()) =~= b);
    }
}

/// Text without the separator is a single piece.
pub proof fn lemma_split_plain(b: Seq<char>, sep: char)
    requires
        !b.contains(sep),
    ensures
        split(b, sep) == seq![b],
    decreases b.len(),
{
    if b.len() == 0 {
        assert(b =~= Seq::<char>::empty());
    } else {
        let front = b.drop_last();
        assert forall|i: int| 0 <= i < front.len() implies front[i] != sep by {
            assert(b[i] == front[i]);
            assert(b.contains(b[i]));
        }
        lemma_split_plain(front, sep);
        assert(b.contains(b[b.len() - 1]));
        assert(front.push(b.last()) =~= b);
        assert(seq![front].drop_last() =~= Seq::<Seq<char>>::empty());
        assert(seq![front].last() == front);
        assert(Seq::<Seq<char>>::empty().push(b) =~= seq![b]);
    }
}

/// Splitting undoes joining when no piece holds the separator.
pub proof fn lemma_split_join(pieces: Seq<Seq<char>>, sep: char)
    requires
        pieces.len() >= 1,
        forall|i: int| 0 <= i < pieces.len() ==> !(#[trigger] pieces[i]).contains(sep),
    ensures
        split(join(pieces, seq![sep]), sep) == pieces,
    decreases pieces.len(),
{
    if pieces.len() == 1 {
        lemma_split_plain(pieces[0], sep);
        assert(seq![pieces[0]] =~= pieces);
    } else {
        let front = pieces.drop_last();
        assert forall|i: int| 0 <= i < front.len() implies !(#[trigger] front[i]).contains(sep) by {
            assert(front[i] == pieces[i]);
        }
        lemma_split_join(front, sep);
        lemma_split_tail(join(front, seq![sep]), sep, pieces.last());
        assert(front.push(pieces.last()) =~= pieces);
    }
}

/// Pieces that are all non-empty are the non-empty pieces.
pub proof fn lemma_nonempty_all(pieces: Seq<Seq<char>>)
    requires
        forall|i: int| 0 <= i < pieces.len() ==> (#[trigger] pieces[i]).len() > 0,
    ensures
        nonempty(pieces) == pieces,
    decreases pieces.len(),
{
    if pieces.len() > 0 {
        let front = pieces.drop_last();
        assert forall|i: int| 0 <= i < front.len() implies (#[trigger] front[i]).len() > 0 by {
            assert(front[i] == pieces[i]);
        }
        lemma_nonempty_all(front);
        assert(front.push(pieces.last()) =~= pieces);
    }
}

/// The views of the vectors.
pub open spec fn views(pieces: Seq<Vec<char>>) -> Seq<Seq<char>> {
    Seq::new(pieces.len(), |i: int| pieces[i]@)
}

/// The pieces of `s` between occurrences of `sep`.
pub fn split_chars(s: &[char], sep: char) -> (pieces: Vec<Vec<char>>)
    ensures
        views(pieces@) == split(s@, sep),
{
    let mut pieces: Vec<Vec<char>> = Vec::new();
    let mut current: Vec<char> = Vec::new();
    let mut i: usize = 0;
    while i < s.len()
        invariant
            i <= s@.len(),
            views(pieces@).push(current@) == split(s@.subrange(0, i as int), sep),
        decreases s@.len() - i,
    {
        let c = s[i];
        proof {
            assert(s@.subrange(0, i as int + 1).drop_last() =~= s@.subrange(0, i as int));
            assert(views(pieces@).push(current@).drop_last() =~= views(pieces@));
        }
        if c == sep {
            let ghost before = views(pieces@);
            pieces.push(current);
            current = Vec::new();
            assert(views(pieces@) =~= before.push(pieces@[pieces@.len() - 1]@));
        } else {
            current.push(c);
        }
        i = i + 1;
    }
    let ghost before = views(pieces@);
    pieces.push(current);
    proof {
        assert(s@.subrange(0, s@.len() as int) =~= s@);
        assert(views(pieces@) =~= before.push(pieces@[pieces@.len() - 1]@));
    }
    pieces
}

/// Appends the pieces to `out` with `sep` between them.
pub fn join_chars(pieces: &Vec<Vec<char>>, sep: &[char]) -> (out: Vec<char>)
    ensures
        out@ == join(views(pieces@), sep@),
{
    let mut out: Vec<char> = Vec::new();
    let mut i: usize = 0;
    while i < pieces.len()
        invariant
            i <= pieces@.len(),
            out@ == join(views(pieces@).subrange(0, i as int), sep@),
        decreases pieces@.len() - i,
    {
        let ghost done = views(pieces@).subrange(0, i as int);
        let ghost more = views(pieces@).subrange(0, i as int + 1);
        proof {
            assert(more.drop_last() =~= done);
            assert(more.last() == pieces@[i as int]@);
        }
        if i > 0 {
            push_all(&mut out, sep);
        }
        push_all(&mut out, pieces[i].as_slice());
        proof {
            if i == 0 {
                assert(done =~= Seq::<Seq<char>>::empty());
                assert(out@ =~= more[0]);
            }
        }
        i = i + 1;
    }
    assert(views(pieces@).subrange(0, pieces@.len() as int) =~= views(pieces@));
    out
}

/// Appends the characters of `more` to `out`.
pub fn push_all(out: &mut Vec<char>, more: &[char])
    ensures
        final(out)@ == old(out)@ + more@,
{
    let ghost before = out@;
    let mut i: usize = 0;
    while i < more.len()
        invariant
            i <= more@.len(),
            out@ == before + more@.subrange(0, i as int),
        decreases more@.len() - i,
    {
        out.push(more[i]);
        assert((before + more@.subrange(0, i as int)).push(more@[i as int]) =~= before
            + more@.subrange(0, i as int + 1));
        i = i + 1;
    }
    assert(more@.subrange(0, more@.len() as int) =~= more@);
}

/// The characters of `s` from place `from` up to, not including, place `to`.
pub fn slice_chars(s: &[char], from: usize, to: usize) -> (out: Vec<char>)
    requires
        from <= to <= s@.len(),
    ensures
        out@ == s@.subrange(from as int, to as int),
{
    let mut out: Vec<char> = Vec::new();
    let mut i: usize = from;
    while i < to
        invariant
            from <= i <= to <= s@.len(),
            out@ == s@.subrange(from as int, i as int),
        decreases to - i,
    {
        out.push(s[i]);
        assert(s@.subrange(from as int, i as int).push(s@[i as int]) =~= s@.subrange(
            from as int,
            i as int + 1,
        ));
        i = i + 1;
    }
    out
}

/// Whether both hold the same characters.
pub fn same_chars(a: &[char], b: &[char]) -> (r: bool)
    ensures
        r == (a@ == b@),
{
    if a.len() != b.len() {
        return false;
    }
    let mut i: usize = 0;
    while i < a.len()
        invariant
            i <= a@.len(),
            a@.len() == b@.len(),
            forall|j: int| 0 <= j < i ==> a@[j] == b@[j],
        decreases a@.len() - i,
    {
        if a[i] != b[i] {
            return false;
        }
        i = i + 1;
    }
    assert(a@ =~= b@);
    true
}

/// The first place at or after `from` where `s` holds `c`, or the length of
/// `s` if there is none.
pub open spec fn find_from(s: Seq<char>, c: char, from: int) -> int
    decreases s.len() - from,
{
    if from < 0 || from >= s.len() {
        s.len() as int
    } else if s[from] == c {
        from
    } else {
        find_from(s, c, from + 1)
    }
}

/// Where `find_from` points, and that `c` does not occur before it.
pub proof fn lemma_find_from(s: Seq<char>, c: char, from: int)
    requires
        0 <= from <= s.len(),
    ensures
        from <= find_from(s, c, from) <= s.len(),
        find_from(s, c, from) < s.len() ==> s[find_from(s, c, from)] == c,
        forall|i: int| from <= i < find_from(s, c, from) ==> s[i] != c,
    decreases s.len() - from,
{
    if from < s.len() && s[from] != c {
        lemma_find_from(s, c, from + 1);
    }
}

/// The first place at or after `from` where `s` holds `c`.
pub fn find_char(s: &[char], c: char, from: usize) -> (r: Option<usize>)
    requires
        from <= s@.len(),
    ensures
        match r {
            Some(i) => i == find_from(s@, c, from as int) && from <= i < s@.len() && s@[i as int] == c,
            None => find_from(s@, c, from as int) == s@.len(),
        },
{
    let mut i: usize = from;
    while i < s.len()
        invariant
            from <= i <= s@.len(),
            find_from(s@, c, from as int) == find_from(s@, c, i as int),
        decreases s@.len() - i,
    {
        if s[i] == c {
            return Some(i);
        }
        i = i + 1;
    }
    None
}

/// Whether `c` is white space: one of the characters with the Unicode
/// property `White_Space`.
pub open spec fn is_space(c: char) -> bool {
    let u = c as u32;
    (0x09 <= u <= 0x0d) || u == 0x20 || u == 0x85 || u == 0xa0 || u == 0x1680 || (0x2000 <= u
        <= 0x200a) || u == 0x2028 || u == 0x2029 || u == 0x202f || u == 0x205f || u == 0x3000
}

/// Whether `c` is white space.
pub fn space(c: char) -> (r: bool)
    ensures
        r == is_space(c),
{
    let u = c as u32;
    (0x09 <= u && u <= 0x0d) || u == 0x20 || u == 0x85 || u == 0xa0 || u == 0x1680 || (0x2000 <= u
        && u <= 0x200a) || u == 0x2028 || u == 0x2029 || u == 0x202f || u == 0x205f || u == 0x3000
}

/// The number of white-space characters at the start of `s`.
pub open spec fn leading_spaces(s: Seq<char>) -> nat
    decreases s.len(),
{
    if s.len() > 0 && is_space(s[0]) {
        1 + leading_spaces(s.drop_first())
    } else {
        0
    }
}

/// The number of white-space characters at the end of `s`.
pub open spec fn trailing_spaces(s: Seq<char>) -> nat
    decreases s.len(),
{
    if s.len() > 0 && is_space(s.last()) {
        1 + trailing_spaces(s.drop_last())
    } else {
        0
    }
}

/// `s` without the white space at its start.
pub open spec fn trim_start(s: Seq<char>) -> Seq<char> {
    s.subrange(leading_spaces(s) as int, s.len() as int)
}

/// `s` without the white space at its start and at its end.
pub open spec fn trim(s: Seq<char>) -> Seq<char> {
    let rest = trim_start(s);
    rest.subrange(0, rest.len() - trailing_spaces(rest))
}

/// The counts of white space stay within the text.
pub proof fn lemma_spaces(s: Seq<char>)
    ensures
        leading_spaces(s) <= s.len(),
        trailing_spaces(s) <= s.len(),
    decreases s.len(),
{
    if s.len() > 0 {
        lemma_spaces(s.drop_first());
        lemma_spaces(s.drop_last());
    }
}

/// `s` without the white space at its start.
pub fn trim_start_chars(s: &[char]) -> (out: Vec<char>)
    ensures
        out@ == trim_start(s@),
{
    let mut i: usize = 0;
    assert(s@.subrange(0, s@.len() as int) =~= s@);
    while i < s.len() && space(s[i])
        invariant
            i <= s@.len(),
            leading_spaces(s@) == i + leading_spaces(s@.subrange(i as int, s@.len() as int)),
        decreases s@.len() - i,
    {
        proof {
            let rest = s@.subrange(i as int, s@.len() as int);
            assert(rest.drop_first() =~= s@.subrange(i as int + 1, s@.len() as int));
            assert(rest[0] == s@[i as int]);
        }
        i = i + 1;
    }
    proof {
        let rest = s@.subrange(i as int, s@.len() as int);
        if i < s@.len() {
            assert(rest[0] == s@[i as int]);
        }
        assert(s@.subrange(0, s@.len() as int) =~= s@);
    }
    slice_chars(s, i, s.len())
}

/// `s` without the white space at its start and at its end.
pub fn trim_chars(s: &[char]) -> (out: Vec<char>)
    ensures
        out@ == trim(s@),
{
    let rest = trim_start_chars(s);
    let mut n: usize = rest.len();
    assert(rest@.subrange(0, rest@.len() as int) =~= rest@);
    while n > 0 && space(rest[n - 1])
        invariant
            n <= rest@.len(),
            trailing_spaces(rest@) == (rest@.len() - n) + trailing_spaces(rest@.subrange(0, n as int)),
        decreases n,
    {
        proof {
            let head = rest@.subrange(0, n as int);
            assert(head.drop_last() =~= rest@.subrange(0, n as int - 1));
            assert(head.last() == rest@[n as int - 1]);
        }
        n = n - 1;
    }
    proof {
        let head = rest@.subrange(0, n as int);
        if n > 0 {
            assert(head.last() == rest@[n as int - 1]);
        }
        assert(rest@.subrange(0, rest@.len() as int) =~= rest@);
    }
    slice_chars(rest.as_slice(), 0, n)
}

/// `c` in lower case if it is one of the letters `A` to `Z`, else `c`.
pub open spec fn lower(c: char) -> char {
    if 'A' <= c <= 'Z' {
        ((c as u8) + 32) as char
    } else {
        c
    }
}

/// `s` with the letters `A` to `Z` in lower case.
pub open spec fn lower_text(s: Seq<char>) -> Seq<char> {
    Seq::new(s.len(), |i: int| lower(s[i]))
}

/// `s` with the letters `A` to `Z` in lower case.
pub fn lower_chars(s: &[char]) -> (out: Vec<char>)
    ensures
        out@ == lower_text(s@),
{
    let mut out: Vec<char> = Vec::new();
    let mut i: usize = 0;
    while i < s.len()
        invariant
            i <= s@.len(),
            out@ == lower_text(s@).subrange(0, i as int),
        decreases s@.len() - i,
    {
        let c = s[i];
        let l = if 'A' <= c && c <= 'Z' {
            ((c as u8) + 32) as char
        } else {
            c
        };
        out.push(l);
        assert(out@ =~= lower_text(s@).subrange(0, i as int + 1));
        i = i + 1;
    }
    assert(lower_text(s@).subrange(0, s@.len() as int) =~= lower_text(s@));
    out
}

/// The value of the digit `c`.
pub open spec fn digit(c: char) -> int {
    c as u32 - '0' as u32
}

/// Whether `c` is one of the digits `0` to `9`.
pub open spec fn is_digit(c: char) -> bool {
    '0' <= c <= '9'
}

/// The number that the digits write in base ten.
pub open spec fn digits_value(s: Seq<char>) -> int
    decreases s.len(),
{
    if s.len() == 0 {
        0
    } else {
        10 * digits_value(s.drop_last()) + digit(s.last())
    }
}

/// Whether `s` holds digits only.
pub open spec fn all_digits(s: Seq<char>) -> bool {
    forall|i: int| 0 <= i < s.len() ==> is_digit(#[trigger] s[i])
}

/// The number that `s` writes: digits in base ten, at least one, after an
/// optional sign `+` or `-`. `None` if `s` is not of that form.
pub open spec fn number(s: Seq<char>) -> Option<int> {
    let signed = s.len() > 0 && (s[0] == '+' || s[0] == '-');
    let digits = if signed {
        s.drop_first()
    } else {
        s
    };
    if digits.len() == 0 || !all_digits(digits) {
        None
    } else if signed && s[0] == '-' {
        Some(-digits_value(digits))
    } else {
        Some(digits_value(digits))
    }
}

/// The number that `s` writes, if it is one that fits 32 bits with sign.
pub open spec fn number_i32(s: Seq<char>) -> Option<i32> {
    match number(s) {
        Some(v) => if i32::MIN <= v <= i32::MAX {
            Some(v as i32)
        } else {
            None
        },
        None => None,
    }
}

/// More digits make no smaller number.
pub proof fn lemma_digits_grow(s: Seq<char>, n: int)
    requires
        0 <= n <= s.len(),
        forall|i: int| 0 <= i < s.len() ==> is_digit(s[i]),
    ensures
        0 <= digits_value(s.subrange(0, n)) <= digits_value(s),
    decreases s.len() - n,
{
    if n == s.len() {
        assert(s.subrange(0, n) =~= s);
        lemma_digits_nonnegative(s);
    } else {
        lemma_digits_grow(s, n + 1);
        let longer = s.subrange(0, n + 1);
        assert(longer.drop_last() =~= s.subrange(0, n));
        assert(longer.last() == s[n]);
        lemma_digits_nonnegative(s.subrange(0, n));
    }
}

/// Digits write a number that is not negative.
pub proof fn lemma_digits_nonnegative(s: Seq<char>)
    requires
        forall|i: int| 0 <= i < s.len() ==> is_digit(s[i]),
    ensures
        0 <= digits_value(s),
    decreases s.len(),
{
    if s.len() > 0 {
        let front = s.drop_last();
        assert forall|i: int| 0 <= i < front.len() implies is_digit(front[i]) by {
            assert(front[i] == s[i]);
        }
        lemma_digits_nonnegative(front);
    }
}

/// The number that `s` writes, if it is one that fits 32 bits with sign.
pub fn parse_i32(s: &[char]) -> (r: Option<i32>)
    ensures
        r == number_i32(s@),
{
    let n = s.len();
    let negative = n > 0 && s[0] == '-';
    let start: usize = if n > 0 && (s[0] == '+' || s[0] == '-') {
        1
    } else {
        0
    };
    if start == n {
        return None;
    }
    let ghost digits = s@.subrange(start as int, n as int);
    proof {
        if start == 1 {
            assert(digits =~= s@.drop_first());
        } else {
            assert(digits =~= s@);
        }
    }
    let mut i: usize = start;
    while i < n
        invariant
            start <= i <= n,
            start < n,
            n == s@.len(),
            digits == s@.subrange(start as int, n as int),
            digits == (if s@.len() > 0 && (s@[0] == '+' || s@[0] == '-') {
                s@.drop_first()
            } else {
                s@
            }),
            forall|j: int| 0 <= j < i - start ==> is_digit(digits[j]),
        decreases n - i,
    {
        let c = s[i];
        if !('0' <= c && c <= '9') {
            assert(!is_digit(digits[i - start]));
            assert(!all_digits(digits));
            return None;
        }
        i = i + 1;
    }
    let mut value: i64 = 0;
    let mut i: usize = start;
    while i < n
        invariant
            start <= i <= n,
            n == s@.len(),
            start < n,
            digits == s@.subrange(start as int, n as int),
            digits == (if s@.len() > 0 && (s@[0] == '+' || s@[0] == '-') {
                s@.drop_first()
            } else {
                s@
            }),
            forall|j: int| 0 <= j < digits.len() ==> is_digit(digits[j]),
            value == digits_value(digits.subrange(0, i - start)),
            0 <= value <= 0x8000_0000,
        decreases n - i,
    {
        let c = s[i];
        proof {
            let longer = digits.subrange(0, i - start + 1);
            assert(longer.drop_last() =~= digits.subrange(0, i - start));
            assert(longer.last() == c);
            assert(is_digit(digits[i - start]));
            lemma_digits_grow(digits, i - start + 1);
        }
        let d = (c as u32 - '0' as u32) as i64;
        value = value * 10 + d;
        if value > 0x8000_0000 {
            return None;
        }
        i = i + 1;
    }
    proof {
        assert(digits.subrange(0, digits.len() as int) =~= digits);
    }
    if negative {
        Some((-value) as i32)
    } else if value == 0x8000_0000 {
        None
    } else {
        Some(value as i32)
    }
}

/// The digits that write `v` in base ten, without a sign.
pub open spec fn decimal(v: nat) -> Seq<char>
    decreases v,
{
    if v < 10 {
        seq![(v + 48) as u8 as char]
    } else {
        decimal(v / 10).push(((v % 10) + 48) as u8 as char)
    }
}

/// The digits that write `v` in base ten.
pub fn decimal_chars(v: u64) -> (out: Vec<char>)
    ensures
        out@ == decimal(v as nat),
    decreases v,
{
    if v < 10 {
        let mut out: Vec<char> = Vec::new();
        out.push((v as u8 + 48) as char);
        assert(out@ =~= decimal(v as nat));
        out
    } else {
        let mut out = decimal_chars(v / 10);
        out.push(((v % 10) as u8 + 48) as char);
        out
    }
}

/// The pieces that are not empty, in their order.
pub fn keep_nonempty(pieces: Vec<Vec<char>>) -> (kept: Vec<Vec<char>>)
    ensures
        views(kept@) == nonempty(views(pieces@)),
{
    let mut kept: Vec<Vec<char>> = Vec::new();
    let mut i: usize = 0;
    while i < pieces.len()
        invariant
            i <= pieces@.len(),
            views(kept@) == nonempty(views(pieces@).subrange(0, i as int)),
        decreases pieces@.len() - i,
    {
        proof {
            let more = views(pieces@).subrange(0, i as int + 1);
            assert(more.drop_last() =~= views(pieces@).subrange(0, i as int));
            assert(more.last() == pieces@[i as int]@);
        }
        if pieces[i].len() > 0 {
            let ghost before = views(kept@);
            let piece = slice_chars(pieces[i].as_slice(), 0, pieces[i].len());
            assert(piece@ =~= pieces@[i as int]@);
            kept.push(piece);
            assert(views(kept@) =~= before.push(piece@));
        }
        i = i + 1;
    }
    assert(views(pieces@).subrange(0, pieces@.len() as int) =~= views(pieces@));
    kept
}

/// The number of bytes that `c` takes in UTF-8.
pub open spec fn utf8_len(c: char) -> int {
    let u = c as u32;
    if u < 0x80 {
        1
    } else if u < 0x800 {
        2
    } else if u < 0x10000 {
        3
    } else {
        4
    }
}

/// The number of bytes that `s` takes in UTF-8.
pub open spec fn utf8_bytes(s: Seq<char>) -> int
    decreases s.len(),
{
    if s.len() == 0 {
        0
    } else {
        utf8_bytes(s.drop_last()) + utf8_len(s.last())
    }
}

/// Text takes at least one byte for each character.
pub proof fn lemma_utf8_bytes(s: Seq<char>)
    ensures
        utf8_bytes(s) >= s.len(),
    decreases s.len(),
{
    if s.len() > 0 {
        lemma_utf8_bytes(s.drop_last());
    }
}

/// Whether `s` takes exactly `n` bytes in UTF-8.
pub fn takes_bytes(s: &[char], n: usize) -> (r: bool)
    ensures
        r == (utf8_bytes(s@) == n),
{
    if s.len() > n {
        proof {
            lemma_utf8_bytes(s@);
        }
        return false;
    }
    let mut total: u128 = 0;
    let mut i: usize = 0;
    while i < s.len()
        invariant
            i <= s@.len() <= n,
            total == utf8_bytes(s@.subrange(0, i as int)),
            total <= 4 * i,
        decreases s@.len() - i,
    {
        let u = s[i] as u32;
        let k: u128 = if u < 0x80 {
            1
        } else if u < 0x800 {
            2
        } else if u < 0x10000 {
            3
        } else {
            4
        };
        proof {
            let more = s@.subrange(0, i as int + 1);
            assert(more.drop_last() =~= s@.subrange(0, i as int));
            assert(more.last() == s@[i as int]);
        }
        total = total + k;
        i = i + 1;
    }
    assert(s@.subrange(0, s@.len() as int) =~= s@);
    total == n as u128
}

/// Whether `s` holds white space only.
pub open spec fn blank(s: Seq<char>) -> bool {
    forall|i: int| 0 <= i < s.len() ==> is_space(#[trigger] s[i])
}

/// Whether `s` holds white space only.
pub fn is_blank(s: &[char]) -> (r: bool)
    ensures
        r == blank(s@),
{
    let mut i: usize = 0;
    while i < s.len()
        invariant
            i <= s@.len(),
            forall|j: int| 0 <= j < i ==> is_space(#[trigger] s@[j]),
        decreases s@.len() - i,
    {
        if !space(s[i]) {
            assert(!is_space(s@[i as int]));
            return false;
        }
        i = i + 1;
    }
    true
}

/// Text is all white space exactly when trimming leaves nothing of it.
pub proof fn law_blank_trim(s: Seq<char>)
    ensures
        blank(s) == (trim(s).len() == 0),
{
    lemma_leading(s);
    let rest = trim_start(s);
    lemma_trailing(rest);
    lemma_spaces(s);
    lemma_spaces(rest);
    if blank(s) {
        if leading_spaces(s) < s.len() {
            assert(is_space(s[leading_spaces(s) as int]));
        }
    } else {
        let i = choose|i: int| 0 <= i < s.len() && !is_space(#[trigger] s[i]);
        if leading_spaces(s) > i {
            assert(is_space(s[i]));
        }
        assert(leading_spaces(s) <= i);
        assert(!is_space(rest[0]));
        if trailing_spaces(rest) == rest.len() {
            assert(is_space(rest[0]));
        }
    }
}

/// The white space at the start is white space, and what follows it is not.
pub proof fn lemma_leading(s: Seq<char>)
    ensures
        leading_spaces(s) <= s.len(),
        forall|i: int| 0 <= i < leading_spaces(s) ==> is_space(#[trigger] s[i]),
        leading_spaces(s) < s.len() ==> !is_space(s[leading_spaces(s) as int]),
    decreases s.len(),
{
    if s.len() > 0 && is_space(s[0]) {
        let rest = s.drop_first();
        lemma_leading(rest);
        assert forall|i: int| 0 <= i < leading_spaces(s) implies is_space(#[trigger] s[i]) by {
            if i > 0 {
                assert(s[i] == rest[i - 1]);
            }
        }
        if leading_spaces(s) < s.len() {
            assert(s[leading_spaces(s) as int] == rest[leading_spaces(rest) as int]);
        }
    }
}

/// The white space at the end is white space, and what stands before it is
/// not.
pub proof fn lemma_trailing(s: Seq<char>)
    ensures
        trailing_spaces(s) <= s.len(),
        forall|i: int| s.len() - trailing_spaces(s) <= i < s.len() ==> is_space(#[trigger] s[i]),
        trailing_spaces(s) < s.len() ==> !is_space(s[s.len() - trailing_spaces(s) - 1]),
    decreases s.len(),
{
    if s.len() > 0 && is_space(s.last()) {
        let rest = s.drop_last();
        lemma_trailing(rest);
        assert forall|i: int| s.len() - trailing_spaces(s) <= i < s.len() implies is_space(
            #[trigger] s[i],
        ) by {
            if i < s.len() - 1 {
                assert(s[i] == rest[i]);
            }
        }
        if trailing_spaces(s) < s.len() {
            assert(s[s.len() - trailing_spaces(s) - 1] == rest[rest.len() - trailing_spaces(rest)
                - 1]);
        }
    }
}

/// A joined text starts as its first piece starts.
pub proof fn lemma_join_first(pieces: Seq<Seq<char>>, sep: Seq<char>)
    requires
        pieces.len() >= 1,
        pieces[0].len() > 0,
    ensures
        join(pieces, sep).len() > 0,
        join(pieces, sep)[0] == pieces[0][0],
    decreases pieces.len(),
{
    if pieces.len() > 1 {
        let front = pieces.drop_last();
        assert(front[0] == pieces[0]);
        lemma_join_first(front, sep);
    }
}

/// A piece that a line feed ended, without the carriage return before the
/// line feed if there is one.
pub open spec fn without_cr(line: Seq<char>) -> Seq<char> {
    if line.len() > 0 && line.last() == '\r' {
        line.drop_last()
    } else {
        line
    }
}

/// The lines of `s`. A line ends with a line feed, or with a carriage return
/// and a line feed, or with the text; what ends it is not part of it. Text
/// after the last line feed is a line if it is not empty.
pub open spec fn lines(s: Seq<char>) -> Seq<Seq<char>> {
    let pieces = split(s, '\n');
    let ended = Seq::new((pieces.len() - 1) as nat, |i: int| without_cr(pieces[i]));
    if pieces.last().len() > 0 {
        ended.push(pieces.last())
    } else {
        ended
    }
}

/// The lines of `s`.
pub fn lines_of(s: &[char]) -> (out: Vec<Vec<char>>)
    ensures
        views(out@) == lines(s@),
{
    let pieces = split_chars(s, '\n');
    proof {
        lemma_split_len(s@, '\n');
        assert(views(pieces@).len() == pieces@.len());
    }
    let ghost ps = split(s@, '\n');
    let ghost ended = Seq::new((ps.len() - 1) as nat, |i: int| without_cr(ps[i]));
    let n = pieces.len();
    let mut out: Vec<Vec<char>> = Vec::new();
    let mut i: usize = 0;
    while i + 1 < n
        invariant
            n == pieces@.len(),
            n >= 1,
            i + 1 <= n,
            views(pieces@) == ps,
            ended == Seq::new((ps.len() - 1) as nat, |i: int| without_cr(ps[i])),
            views(out@) == ended.subrange(0, i as int),
        decreases n - i,
    {
        let piece = &pieces[i];
        assert(views(pieces@)[i as int] == piece@);
        let m = piece.len();
        let line = if m > 0 && piece[m - 1] == '\r' {
            slice_chars(piece.as_slice(), 0, m - 1)
        } else {
            slice_chars(piece.as_slice(), 0, m)
        };
        proof {
            assert(piece@.subrange(0, m as int) =~= piece@);
            assert(piece@.subrange(0, m as int - 1) =~= piece@.drop_last());
            assert(line@ == without_cr(ps[i as int]));
        }
        let ghost before = views(out@);
        out.push(line);
        assert(views(out@) =~= before.push(line@));
        assert(views(out@) =~= ended.subrange(0, i as int + 1));
        i = i + 1;
    }
    assert(ended.subrange(0, n as int - 1) =~= ended);
    let last = &pieces[n - 1];
    assert(views(pieces@)[n as int - 1] == last@);
    if last.len() > 0 {
        let line = slice_chars(last.as_slice(), 0, last.len());
        assert(line@ =~= last@);
        let ghost before = views(out@);
        out.push(line);
        assert(views(out@) =~= before.push(line@));
    }
    out
}

/// Whether `c` is one of the white-space characters of ASCII: blank, tab,
/// line feed, form feed, carriage return.
pub open spec fn is_ascii_space(c: char) -> bool {
    c == ' ' || c == '\t' || c == '\n' || c == '\x0C' || c == '\r'
}

/// The pieces of `s` between white-space characters of ASCII.
pub open spec fn split_spaces(s: Seq<char>) -> Seq<Seq<char>>
    decreases s.len(),
{
    if s.len() == 0 {
        seq![Seq::empty()]
    } else {
        let front = split_spaces(s.drop_last());
        if is_ascii_space(s.last()) {
            front.push(Seq::empty())
        } else {
            front.drop_last().push(front.last().push(s.last()))
        }
    }
}

/// The words of `s`: what stands between white-space characters of ASCII
/// and is not empty.
pub open spec fn words(s: Seq<char>) -> Seq<Seq<char>> {
    nonempty(split_spaces(s))
}

/// The words of `s`.
pub fn words_of(s: &[char]) -> (out: Vec<Vec<char>>)
    ensures
        views(out@) == words(s@),
{
    let mut pieces: Vec<Vec<char>> = Vec::new();
    let mut current: Vec<char> = Vec::new();
    let mut i: usize = 0;
    while i < s.len()
        invariant
            i <= s@.len(),
            views(pieces@).push(current@) == split_spaces(s@.subrange(0, i as int)),
        decreases s@.len() - i,
    {
        let c = s[i];
        proof {
            assert(s@.subrange(0, i as int + 1).drop_last() =~= s@.subrange(0, i as int));
            assert(views(pieces@).push(current@).drop_last() =~= views(pieces@));
        }
        if c == ' ' || c == '\t' || c == '\n' || c == '\x0C' || c == '\r' {
            let ghost before = views(pieces@);
            pieces.push(current);
            current = Vec::new();
            assert(views(pieces@) =~= before.push(pieces@[pieces@.len() - 1]@));
        } else {
            current.push(c);
        }
        i = i + 1;
    }
    let ghost before = views(pieces@);
    pieces.push(current);
    proof {
        assert(s@.subrange(0, s@.len() as int) =~= s@);
        assert(views(pieces@) =~= before.push(pieces@[pieces@.len() - 1]@));
    }
    keep_nonempty(pieces)
}

/// The number that `s` writes without a minus sign, if it fits the machine's
/// word.
pub open spec fn number_usize(s: Seq<char>) -> Option<usize> {
    if s.len() > 0 && s[0] == '-' {
        None
    } else {
        match number(s) {
            Some(v) => if v <= usize::MAX {
                Some(v as usize)
            } else {
                None
            },
            None => None,
        }
    }
}

/// The number that `s` writes without a minus sign, if it fits the machine's
/// word.
pub fn parse_usize(s: &[char]) -> (r: Option<usize>)
    ensures
        r == number_usize(s@),
{
    let n = s.len();
    if n > 0 && s[0] == '-' {
        return None;
    }
    let start: usize = if n > 0 && s[0] == '+' {
        1
    } else {
        0
    };
    if start == n {
        return None;
    }
    let ghost digits = s@.subrange(start as int, n as int);
    proof {
        if start == 1 {
            assert(digits =~= s@.drop_first());
        } else {
            assert(digits =~= s@);
        }
    }
    let mut i: usize = start;
    while i < n
        invariant
            start <= i <= n,
            start < n,
            n == s@.len(),
            digits == s@.subrange(start as int, n as int),
            digits == (if s@.len() > 0 && (s@[0] == '+' || s@[0] == '-') {
                s@.drop_first()
            } else {
                s@
            }),
            !(s@.len() > 0 && s@[0] == '-'),
            forall|j: int| 0 <= j < i - start ==> is_digit(digits[j]),
        decreases n - i,
    {
        let c = s[i];
        if !('0' <= c && c <= '9') {
            assert(!is_digit(digits[i - start]));
            assert(!all_digits(digits));
            return None;
        }
        i = i + 1;
    }
    let mut value: usize = 0;
    let mut i: usize = start;
    while i < n
        invariant
            start <= i <= n,
            start < n,
            n == s@.len(),
            digits == s@.subrange(start as int, n as int),
            digits == (if s@.len() > 0 && (s@[0] == '+' || s@[0] == '-') {
                s@.drop_first()
            } else {
                s@
            }),
            !(s@.len() > 0 && s@[0] == '-'),
            forall|j: int| 0 <= j < digits.len() ==> is_digit(digits[j]),
            value == digits_value(digits.subrange(0, i - start)),
        decreases n - i,
    {
        let c = s[i];
        proof {
            let longer = digits.subrange(0, i - start + 1);
            assert(longer.drop_last() =~= digits.subrange(0, i - start));
            assert(longer.last() == c);
            assert(is_digit(digits[i - start]));
            lemma_digits_grow(digits, i - start + 1);
        }
        let d = (c as u32 - '0' as u32) as usize;
        let next = match value.checked_mul(10) {
            Some(v) => v.checked_add(d),
            None => None,
        };
        match next {
            Some(v) => {
                value = v;
            },
            None => {
                return None;
            },
        }
        i = i + 1;
    }
    proof {
        assert(digits.subrange(0, digits.len() as int) =~= digits);
    }
    Some(value)
}

/// How two texts compare from place `from` on, given that they are the same
/// before it: the first place where they differ decides, and a text that
/// ends there comes before one that goes on. The result is -1, 0 or 1.
pub open spec fn text_order(a: Seq<char>, b: Seq<char>, from: int) -> int
    decreases a.len() - from,
{
    if from < 0 {
        0
    } else if from >= a.len() {
        if from >= b.len() {
            0
        } else {
            -1
        }
    } else if from >= b.len() {
        1
    } else if (a[from] as u32) < (b[from] as u32) {
        -1
    } else if (a[from] as u32) > (b[from] as u32) {
        1
    } else {
        text_order(a, b, from + 1)
    }
}

/// Whether `a` does not come after `b`.
pub open spec fn text_le(a: Seq<char>, b: Seq<char>) -> bool {
    text_order(a, b, 0) <= 0
}

/// How two texts compare.
pub fn compare_chars(a: &[char], b: &[char]) -> (o: i8)
    ensures
        o == text_order(a@, b@, 0),
{
    let mut i: usize = 0;
    while i < a.len() && i < b.len()
        invariant
            i <= a@.len(),
            i <= b@.len(),
            text_order(a@, b@, 0) == text_order(a@, b@, i as int),
        decreases a@.len() - i,
    {
        if (a[i] as u32) < (b[i] as u32) {
            return -1;
        }
        if (a[i] as u32) > (b[i] as u32) {
            return 1;
        }
        i = i + 1;
    }
    if i < b.len() {
        -1
    } else if i < a.len() {
        1
    } else {
        0
    }
}

/// Comparing the other way round gives the opposite.
pub proof fn lemma_text_order_flip(a: Seq<char>, b: Seq<char>, from: int)
    requires
        0 <= from,
    ensures
        text_order(b, a, from) == -text_order(a, b, from),
    decreases a.len() - from,
{
    if from < a.len() && from < b.len() && a[from] as u32 == b[from] as u32 {
        lemma_text_order_flip(a, b, from + 1);
    }
}

/// The order of texts passes on: what is not after a text that is not after
/// a third is not after the third.
pub proof fn lemma_text_order_trans(a: Seq<char>, b: Seq<char>, c: Seq<char>, from: int)
    requires
        0 <= from,
        text_order(a, b, from) <= 0,
        text_order(b, c, from) <= 0,
    ensures
        text_order(a, c, from) <= 0,
        text_order(a, b, from) < 0 || text_order(b, c, from) < 0 ==> text_order(a, c, from) < 0,
    decreases a.len() - from,
{
    if from < a.len() && from < b.len() && from < c.len() && a[from] as u32 == b[from] as u32 && b[from] as u32
        == c[from] as u32 {
        lemma_text_order_trans(a, b, c, from + 1);
    }
}

/// Whether the texts come in order.
pub open spec fn sorted(lines: Seq<Seq<char>>) -> bool {
    forall|i: int, j: int| 0 <= i < j < lines.len() ==> text_le(#[trigger] lines[i], #[trigger] lines[j])
}

/// Puts `line` into the sorted `lines`, after the lines that do not come
/// after it.
fn insert_sorted(lines: &mut Vec<Vec<char>>, line: Vec<char>)
    requires
        sorted(views(old(lines)@)),
    ensures
        sorted(views(final(lines)@)),
        views(final(lines)@).to_multiset() == views(old(lines)@).to_multiset().insert(line@),
{
    let ghost before = views(lines@);
    let mut at: usize = 0;
    while at < lines.len() && compare_chars(lines[at].as_slice(), line.as_slice()) <= 0
        invariant
            at <= lines@.len(),
            views(lines@) == before,
            forall|i: int| 0 <= i < at ==> text_le(#[trigger] before[i], line@),
        decreases lines@.len() - at,
    {
        assert(before[at as int] == lines@[at as int]@);
        at = at + 1;
    }
    proof {
        if at < lines@.len() {
            assert(before[at as int] == lines@[at as int]@);
            lemma_text_order_flip(before[at as int], line@, 0);
        }
        vstd::seq_lib::to_multiset_insert(before, at as int, line@);
    }
    let ghost text = line@;
    lines.insert(at, line);
    proof {
        let after = views(lines@);
        assert(after =~= before.insert(at as int, text));
        assert forall|i: int, j: int| 0 <= i < j < after.len() implies text_le(
            #[trigger] after[i],
            #[trigger] after[j],
        ) by {
            if j < at {
                assert(text_le(before[i], before[j]));
            } else if j == at {
                assert(after[i] == before[i]);
            } else if i == at {
                assert(after[j] == before[j - 1]);
                if j - 1 > at {
                    assert(text_le(before[at as int], before[j - 1]));
                    lemma_text_order_trans(text, before[at as int], before[j - 1], 0);
                }
            } else if i < at {
                assert(after[i] == before[i]);
                assert(after[j] == before[j - 1]);
                assert(text_le(before[i], before[j - 1]));
            } else {
                assert(after[i] == before[i - 1]);
                assert(after[j] == before[j - 1]);
                assert(text_le(before[i - 1], before[j - 1]));
            }
        }
    }
}

/// The lines in order, each as often as before.
pub fn sort_lines(lines: Vec<Vec<char>>) -> (out: Vec<Vec<char>>)
    ensures
        sorted(views(out@)),
        views(out@).to_multiset() == views(lines@).to_multiset(),
{
    let mut out: Vec<Vec<char>> = Vec::new();
    let mut i: usize = 0;
    assert(views(lines@).subrange(0, 0) =~= views(out@));
    while i < lines.len()
        invariant
            i <= lines@.len(),
            sorted(views(out@)),
            views(out@).to_multiset() == views(lines@).subrange(0, i as int).to_multiset(),
        decreases lines@.len() - i,
    {
        let line = slice_chars(lines[i].as_slice(), 0, lines[i].len());
        proof {
            assert(line@ =~= lines@[i as int]@);
            let done = views(lines@).subrange(0, i as int);
            assert(views(lines@).subrange(0, i as int + 1) =~= done.push(line@));
            vstd::seq_lib::to_multiset_build(done, line@);
        }
        insert_sorted(&mut out, line);
        i = i + 1;
    }
    assert(views(lines@).subrange(0, lines@.len() as int) =~= views(lines@));
    out
}

/// The key of a line: what stands before its first `=`, without white space
/// around it.
pub open spec fn line_key(line: Seq<char>) -> Seq<char> {
    trim(line.subrange(0, find_from(line, '=', 0)))
}

/// The key of a line.
pub fn key_of(line: &[char]) -> (k: Vec<char>)
    ensures
        k@ == line_key(line@),
{
    proof {
        lemma_find_from(line@, '=', 0);
    }
    let end = match find_char(line, '=', 0) {
        Some(i) => i,
        None => line.len(),
    };
    trim_chars(slice_chars(line, 0, end).as_slice())
}

/// The first `n` lines without those that have the key of the line kept
/// before them.
pub open spec fn unique_keys(lines: Seq<Seq<char>>, n: int) -> Seq<Seq<char>>
    decreases n,
{
    if n <= 0 {
        Seq::empty()
    } else {
        let kept = unique_keys(lines, n - 1);
        if kept.len() > 0 && line_key(kept.last()) == line_key(lines[n - 1]) {
            kept
        } else {
            kept.push(lines[n - 1])
        }
    }
}

/// The lines without those that have the key of the line kept before them.
pub fn dedup_lines(lines: &Vec<Vec<char>>) -> (out: Vec<Vec<char>>)
    ensures
        views(out@) == unique_keys(views(lines@), lines@.len() as int),
{
    let mut out: Vec<Vec<char>> = Vec::new();
    let mut i: usize = 0;
    assert(views(out@) =~= unique_keys(views(lines@), 0));
    while i < lines.len()
        invariant
            i <= lines@.len(),
            views(out@) == unique_keys(views(lines@), i as int),
        decreases lines@.len() - i,
    {
        assert(views(lines@)[i as int] == lines@[i as int]@);
        let key = key_of(lines[i].as_slice());
        let repeat = if out.len() > 0 {
            assert(views(out@).last() == out@[out@.len() - 1]@);
            same_chars(key_of(out[out.len() - 1].as_slice()).as_slice(), key.as_slice())
        } else {
            false
        };
        if !repeat {
            let line = slice_chars(lines[i].as_slice(), 0, lines[i].len());
            assert(line@ =~= lines@[i as int]@);
            let ghost before = views(out@);
            out.push(line);
            assert(views(out@) =~= before.push(line@));
        }
        i = i + 1;
    }
    out
}

/// The lines of `s` in order, without those that have the key of the line
/// kept before them, with line feeds between them.
pub fn tidy_lines(s: &str) -> (out: String)
    ensures
        exists|ordered: Seq<Seq<char>>|
            #[trigger] sorted(ordered) && ordered.to_multiset() == lines(s@).to_multiset() && out@
                == join(unique_keys(ordered, ordered.len() as int), seq!['\n']),
{
    let chars = chars_of(s);
    let all = lines_of(chars.as_slice());
    let ordered = sort_lines(all);
    let kept = dedup_lines(&ordered);
    let mut feed: Vec<char> = Vec::new();
    feed.push('\n');
    assert(feed@ =~= seq!['\n']);
    let text = join_chars(&kept, feed.as_slice());
    proof {
        assert(views(ordered@).len() == ordered@.len());
        assert(sorted(views(ordered@)) && views(ordered@).to_multiset() == lines(s@).to_multiset() && text@
            == join(unique_keys(views(ordered@), views(ordered@).len() as int), seq!['\n']));
    }
    string_of(text.as_slice())
}

} // verus!
