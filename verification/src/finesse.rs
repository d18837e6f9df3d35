//! Input keys and packed sequences of them.

use crate::bits::{
    lemma_nibble_bound, lemma_nibble_fill, lemma_nibble_zero, lemma_nibbles_determine, nibble,
};
use crate::text::{
    blank, chars_of, find_char, find_from, is_blank, is_space, join, join_chars, lemma_join_first,
    lemma_split_join, lower_chars, lower_text, push_chars, same_chars, slice_chars, split,
    split_chars, string_of, trim, trim_chars, views,
};
use vstd::prelude::*;
use vstd::string::StringExecFns;

verus! {

/// Most keys that a finesse can hold.
pub const FINESSE_CAPACITY: u8 = 32;

/// One input of the player.
#[derive(Clone, Copy, Debug, PartialEq, Eq, Hash, Structural)]
pub enum Key {
    MoveLeft,
    MoveRight,
    SoftDrop,
    DasLeft,
    DasRight,
    SonicDrop,
    RotateCW,
    RotateCCW,
    Rotate180,
    Hold,
}

impl Key {
    /// The four-bit code under which a key is packed.
    pub open spec fn spec_code(self) -> u8 {
        match self {
            Key::MoveLeft => 0,
            Key::MoveRight => 1,
            Key::SoftDrop => 2,
            Key::DasLeft => 3,
            Key::DasRight => 4,
            Key::SonicDrop => 5,
            Key::RotateCW => 6,
            Key::RotateCCW => 7,
            Key::Rotate180 => 8,
            Key::Hold => 9,
        }
    }

    /// The key with the given code; codes above 9 stand for no key and are read
    /// as `Hold`.
    pub open spec fn spec_from_code(c: u8) -> Key {
        if c == 0 {
            Key::MoveLeft
        } else if c == 1 {
            Key::MoveRight
        } else if c == 2 {
            Key::SoftDrop
        } else if c == 3 {
            Key::DasLeft
        } else if c == 4 {
            Key::DasRight
        } else if c == 5 {
            Key::SonicDrop
        } else if c == 6 {
            Key::RotateCW
        } else if c == 7 {
            Key::RotateCCW
        } else if c == 8 {
            Key::Rotate180
        } else {
            Key::Hold
        }
    }

    /// The four-bit code of this key.
    pub fn code(self) -> (c: u8)
        ensures
            c == self.spec_code(),
            c < 10,
            Key::spec_from_code(c) == self,
    {
        match self {
            Key::MoveLeft => 0,
            Key::MoveRight => 1,
            Key::SoftDrop => 2,
            Key::DasLeft => 3,
            Key::DasRight => 4,
            Key::SonicDrop => 5,
            Key::RotateCW => 6,
            Key::RotateCCW => 7,
            Key::Rotate180 => 8,
            Key::Hold => 9,
        }
    }

    /// The key with code `c`, if there is one.
    pub fn from_code(c: u8) -> (k: Option<Key>)
        ensures
            c < 10 ==> k == Some(Key::spec_from_code(c)),
            c >= 10 ==> k.is_none(),
            k matches Some(key) ==> key.spec_code() == c,
    {
        match c {
            0 => Some(Key::MoveLeft),
            1 => Some(Key::MoveRight),
            2 => Some(Key::SoftDrop),
            3 => Some(Key::DasLeft),
            4 => Some(Key::DasRight),
            5 => Some(Key::SonicDrop),
            6 => Some(Key::RotateCW),
            7 => Some(Key::RotateCCW),
            8 => Some(Key::Rotate180),
            9 => Some(Key::Hold),
            _ => None,
        }
    }
}

/// A sequence of at most 32 keys, four bits each, with a flag that marks a
/// placement as a spin.
#[derive(Clone, Copy, Debug, Hash, PartialEq, Eq, Structural)]
pub struct Finesse {
    packed: u128,
    len: u8,
    spin: bool,
}

impl View for Finesse {
    type V = Seq<Key>;

    /// The keys in the order in which they were pushed.
    closed spec fn view(&self) -> Seq<Key> {
        Seq::new(self.len as nat, |i: int| Key::spec_from_code(nibble(self.packed, i)))
    }
}

impl Finesse {
    /// Holds of every finesse that the library hands out: at most 32 keys, each
    /// field below the length a key code, every field above it zero.
    #[verifier::type_invariant]
    pub closed spec fn wf(self) -> bool {
        &&& self.len <= 32
        &&& forall|i: int| 0 <= i < self.len ==> nibble(self.packed, i) < 10
        &&& forall|i: int| self.len <= i < 32 ==> nibble(self.packed, i) == 0
    }

    /// Whether the placement that the keys lead to counts as a spin.
    pub closed spec fn spec_spin(self) -> bool {
        self.spin
    }

    /// A well-formed finesse holds at most 32 keys.
    pub proof fn lemma_len(self)
        requires
            self.wf(),
        ensures
            self@.len() <= 32,
    {
    }

    /// Finesses are equal exactly when they hold the same keys and the same
    /// flag: well-formed finesses with the same keys and the same flag are
    /// equal.
    pub proof fn law_keys_determine(self, other: Finesse)
        requires
            self.wf(),
            other.wf(),
            self@ == other@,
            self.spec_spin() == other.spec_spin(),
        ensures
            self == other,
    {
        assert(self@.len() == self.len);
        assert(other@.len() == other.len);
        assert forall|i: int| 0 <= i < 32 implies nibble(self.packed, i) == nibble(
            other.packed,
            i,
        ) by {
            if i < self.len {
                assert(self@[i] == Key::spec_from_code(nibble(self.packed, i)));
                assert(other@[i] == Key::spec_from_code(nibble(other.packed, i)));
            }
        }
        lemma_nibbles_determine(self.packed, other.packed);
    }

    /// The finesse without keys.
    pub fn new() -> (f: Self)
        ensures
            f@ == Seq::<Key>::empty(),
            !f.spec_spin(),
            f.wf(),
    {
        proof {
            assert forall|i: int| 0 <= i < 32 implies nibble(0u128, i) == 0 by {
                lemma_nibble_zero(i);
            }
        }
        let f = Self { packed: 0, len: 0, spin: false };
        assert(f@ =~= Seq::<Key>::empty());
        f
    }

    /// The number of keys.
    pub fn len(&self) -> (n: u8)
        ensures
            n == self@.len(),
            n <= 32,
    {
        proof {
            use_type_invariant(self);
        }
        self.len
    }

    /// Whether the spin flag is set.
    pub fn is_spin(&self) -> (s: bool)
        ensures
            s == self.spec_spin(),
    {
        self.spin
    }

    /// Appends `key`.
    pub fn push(&mut self, key: Key)
        requires
            old(self)@.len() < 32,
        ensures
            final(self)@ == old(self)@.push(key),
            final(self).spec_spin() == old(self).spec_spin(),
            final(self).wf(),
    {
        proof {
            use_type_invariant(&*self);
        }
        let ghost before = *self;
        let c = key.code();
        let shift = (self.len as u128) * 4;
        let packed = self.packed | ((c as u128) << shift);
        proof {
            assert forall|j: int| 0 <= j < 32 implies nibble(packed, j) == (if j == before.len {
                c
            } else {
                nibble(before.packed, j)
            }) by {
                lemma_nibble_fill(before.packed, before.len as int, c, j);
            }
        }
        let next = Finesse { packed, len: self.len + 1, spin: self.spin };
        assert(next@ =~= before@.push(key));
        *self = next;
    }

    /// The key at position `idx`, if there is one.
    pub fn get(&self, idx: u8) -> (k: Option<Key>)
        ensures
            k == (if idx < self@.len() {
                Some(self@[idx as int])
            } else {
                None
            }),
    {
        proof {
            use_type_invariant(self);
        }
        if idx >= self.len {
            return None;
        }
        proof {
            lemma_nibble_bound(self.packed, idx as int);
        }
        let val = ((self.packed >> ((idx as u128) * 4)) & 0x0F) as u8;
        Key::from_code(val)
    }

    /// This finesse with the spin flag set to `s`.
    pub fn with_spin(self, s: bool) -> (f: Self)
        ensures
            f@ == self@,
            f.spec_spin() == s,
            f.wf(),
    {
        proof {
            use_type_invariant(&self);
        }
        let f = Finesse { packed: self.packed, len: self.len, spin: s };
        assert(f@ =~= self@);
        f
    }

    /// The finesse that holds the keys of `t` in their order.
    pub fn with(t: &[Key]) -> (f: Self)
        requires
            t@.len() <= 32,
        ensures
            f@ == t@,
            !f.spec_spin(),
            f.wf(),
    {
        let mut n = Self::new();
        let mut i: usize = 0;
        while i < t.len()
            invariant
                i <= t@.len() <= 32,
                n@ == t@.subrange(0, i as int),
                !n.spec_spin(),
                n.wf(),
            decreases t@.len() - i,
        {
            n.push(t[i]);
            assert(t@.subrange(0, i as int).push(t@[i as int]) =~= t@.subrange(0, i as int + 1));
            i = i + 1;
        }
        assert(t@.subrange(0, t@.len() as int) =~= t@);
        n
    }

    /// The keys as a vector.
    pub fn keys(&self) -> (v: Vec<Key>)
        ensures
            v@ == self@,
    {
        let mut v: Vec<Key> = Vec::new();
        let n = self.len();
        let mut i: u8 = 0;
        while i < n
            invariant
                i <= n,
                n == self@.len(),
                v@ == self@.subrange(0, i as int),
            decreases n - i,
        {
            let k = self.get(i);
            v.push(k.unwrap());
            assert(self@.subrange(0, i as int).push(self@[i as int]) =~= self@.subrange(
                0,
                i as int + 1,
            ));
            i = i + 1;
        }
        assert(self@.subrange(0, n as int) =~= self@);
        v
    }
}

impl Default for Finesse {
    fn default() -> (f: Self)
        ensures
            f@ == Seq::<Key>::empty(),
            !f.spec_spin(),
    {
        Self::new()
    }
}

/// A piece kind together with the finesse that placed it.
#[derive(Copy, Clone, Debug, PartialEq, Eq, Hash, Structural)]
pub struct Pair(pub u8, pub Finesse);

/// The key that the text names by its short code, if it names one.
pub open spec fn key_named(t: Seq<char>) -> Option<Key> {
    if t == "dl"@ {
        Some(Key::DasLeft)
    } else if t == "dr"@ {
        Some(Key::DasRight)
    } else if t == "l"@ {
        Some(Key::MoveLeft)
    } else if t == "r"@ {
        Some(Key::MoveRight)
    } else if t == "f"@ {
        Some(Key::Rotate180)
    } else if t == "ccw"@ {
        Some(Key::RotateCCW)
    } else if t == "cw"@ {
        Some(Key::RotateCW)
    } else if t == "fd"@ {
        Some(Key::SoftDrop)
    } else if t == "sd"@ {
        Some(Key::SonicDrop)
    } else if t == "h"@ {
        Some(Key::Hold)
    } else {
        None
    }
}

/// What a text means as a key: upper and lower case are the same, and a text
/// that is no short code is an error that names the text in lower case.
pub open spec fn parse_key(t: Seq<char>) -> Result<Key, Seq<char>> {
    match key_named(lower_text(t)) {
        Some(k) => Ok(k),
        None => Err("unknown variant "@ + lower_text(t)),
    }
}

impl Key {
    /// The short code of the key.
    pub open spec fn short_text(self) -> Seq<char> {
        match self {
            Key::DasLeft => "dl"@,
            Key::DasRight => "dr"@,
            Key::MoveLeft => "l"@,
            Key::MoveRight => "r"@,
            Key::Rotate180 => "f"@,
            Key::RotateCCW => "ccw"@,
            Key::RotateCW => "cw"@,
            Key::SoftDrop => "fd"@,
            Key::SonicDrop => "sd"@,
            Key::Hold => "h"@,
        }
    }

    /// The long name of the key. Auto-repeat moves are named as taps are, and
    /// a sonic drop as a soft drop is.
    pub open spec fn name_text(self) -> Seq<char> {
        match self {
            Key::DasLeft => "moveLeft"@,
            Key::DasRight => "moveRight"@,
            Key::MoveLeft => "moveLeft"@,
            Key::MoveRight => "moveRight"@,
            Key::Rotate180 => "rotate180"@,
            Key::RotateCCW => "rotateCCW"@,
            Key::RotateCW => "rotateCW"@,
            Key::SoftDrop => "softDrop"@,
            Key::SonicDrop => "softDrop"@,
            Key::Hold => "hold"@,
        }
    }

    /// The short code of the key.
    pub fn short(self) -> (s: &'static str)
        ensures
            s@ == self.short_text(),
    {
        match self {
            Key::DasLeft => "dl",
            Key::DasRight => "dr",
            Key::MoveLeft => "l",
            Key::MoveRight => "r",
            Key::Rotate180 => "f",
            Key::RotateCCW => "ccw",
            Key::RotateCW => "cw",
            Key::SoftDrop => "fd",
            Key::SonicDrop => "sd",
            Key::Hold => "h",
        }
    }

    /// The long name of the key.
    pub fn name(self) -> (s: &'static str)
        ensures
            s@ == self.name_text(),
    {
        match self {
            Key::DasLeft => "moveLeft",
            Key::DasRight => "moveRight",
            Key::MoveLeft => "moveLeft",
            Key::MoveRight => "moveRight",
            Key::Rotate180 => "rotate180",
            Key::RotateCCW => "rotateCCW",
            Key::RotateCW => "rotateCW",
            Key::SoftDrop => "softDrop",
            Key::SonicDrop => "softDrop",
            Key::Hold => "hold",
        }
    }

    /// The long name of the key, as a string.
    pub fn to_string(&self) -> (s: String)
        ensures
            s@ == self.name_text(),
    {
        String::from_str(self.name())
    }

    /// The key that the characters name by its short code.
    pub fn read(t: &[char]) -> (r: Result<Key, String>)
        ensures
            match r {
                Ok(k) => parse_key(t@) == Ok::<Key, Seq<char>>(k),
                Err(e) => parse_key(t@) == Err::<Key, Seq<char>>(e@),
            },
    {
        let low = lower_chars(t);
        let l = low.as_slice();
        if same_chars(l, chars_of("dl").as_slice()) {
            Ok(Key::DasLeft)
        } else if same_chars(l, chars_of("dr").as_slice()) {
            Ok(Key::DasRight)
        } else if same_chars(l, chars_of("l").as_slice()) {
            Ok(Key::MoveLeft)
        } else if same_chars(l, chars_of("r").as_slice()) {
            Ok(Key::MoveRight)
        } else if same_chars(l, chars_of("f").as_slice()) {
            Ok(Key::Rotate180)
        } else if same_chars(l, chars_of("ccw").as_slice()) {
            Ok(Key::RotateCCW)
        } else if same_chars(l, chars_of("cw").as_slice()) {
            Ok(Key::RotateCW)
        } else if same_chars(l, chars_of("fd").as_slice()) {
            Ok(Key::SoftDrop)
        } else if same_chars(l, chars_of("sd").as_slice()) {
            Ok(Key::SonicDrop)
        } else if same_chars(l, chars_of("h").as_slice()) {
            Ok(Key::Hold)
        } else {
            let mut e = String::from_str("unknown variant ");
            push_chars(&mut e, l);
            Err(e)
        }
    }

    /// The key that the text names by its short code, in upper or lower case.
    pub fn parse(s: &str) -> (r: Result<Key, String>)
        ensures
            match r {
                Ok(k) => parse_key(s@) == Ok::<Key, Seq<char>>(k),
                Err(e) => parse_key(s@) == Err::<Key, Seq<char>>(e@),
            },
    {
        let chars = chars_of(s);
        Key::read(chars.as_slice())
    }
}

/// The short code of a key names that key, holds no comma and no white space,
/// and is not empty.
pub proof fn lemma_short_code(k: Key)
    ensures
        parse_key(k.short_text()) == Ok::<Key, Seq<char>>(k),
        !k.short_text().contains(','),
        k.short_text().len() > 0,
        !is_space(k.short_text()[0]),
{
    reveal_strlit("dl");
    reveal_strlit("dr");
    reveal_strlit("l");
    reveal_strlit("r");
    reveal_strlit("f");
    reveal_strlit("ccw");
    reveal_strlit("cw");
    reveal_strlit("fd");
    reveal_strlit("sd");
    reveal_strlit("h");
    let t = k.short_text();
    assert(lower_text(t) =~= t);
    assert(t.len() <= 3);
    assert(t[0] != ',' && (t.len() > 1 ==> t[1] != ',') && (t.len() > 2 ==> t[2] != ','));
}

/// The short codes of the keys, in their order.
pub open spec fn short_texts(keys: Seq<Key>) -> Seq<Seq<char>> {
    Seq::new(keys.len(), |i: int| keys[i].short_text())
}

/// The long names of the keys, in their order.
pub open spec fn name_texts(keys: Seq<Key>) -> Seq<Seq<char>> {
    Seq::new(keys.len(), |i: int| keys[i].name_text())
}

/// The short text of a finesse: the short codes of its keys with commas
/// between them.
pub open spec fn finesse_short(keys: Seq<Key>) -> Seq<char> {
    join(short_texts(keys), seq![','])
}

/// The long text of a finesse: the long names of its keys with blanks between
/// them, and ` *` behind them for a spin.
pub open spec fn finesse_long(keys: Seq<Key>, spin: bool) -> Seq<char> {
    join(name_texts(keys), seq![' ']) + (if spin {
        " *"@
    } else {
        Seq::empty()
    })
}

/// The keys that the first `n` pieces name, or the error of the first piece
/// that names none.
pub open spec fn parse_keys(pieces: Seq<Seq<char>>, n: int) -> Result<Seq<Key>, Seq<char>>
    decreases n,
{
    if n <= 0 {
        Ok(Seq::empty())
    } else {
        match parse_keys(pieces, n - 1) {
            Err(e) => Err(e),
            Ok(keys) => match parse_key(pieces[n - 1]) {
                Err(e) => Err(e),
                Ok(k) => Ok(keys.push(k)),
            },
        }
    }
}

/// What a text means as a finesse: nothing but white space is the empty
/// finesse; else the pieces between commas are short codes of keys, at most
/// 32 of them.
pub open spec fn parse_finesse(s: Seq<char>) -> Result<Seq<Key>, Seq<char>> {
    if blank(s) {
        Ok(Seq::empty())
    } else {
        match parse_keys(split(s, ','), split(s, ',').len() as int) {
            Err(e) => Err(e),
            Ok(keys) => if keys.len() > 32 {
                Err("too many keys"@)
            } else {
                Ok(keys)
            },
        }
    }
}

/// Reading the short codes of keys gives the keys.
proof fn lemma_parse_short_texts(keys: Seq<Key>, n: int)
    requires
        0 <= n <= keys.len(),
    ensures
        parse_keys(short_texts(keys), n) == Ok::<Seq<Key>, Seq<char>>(keys.subrange(0, n)),
    decreases n,
{
    if n > 0 {
        lemma_parse_short_texts(keys, n - 1);
        lemma_short_code(keys[n - 1]);
        assert(keys.subrange(0, n - 1).push(keys[n - 1]) =~= keys.subrange(0, n));
    } else {
        assert(keys.subrange(0, 0) =~= Seq::<Key>::empty());
    }
}

/// Reading the short text of a finesse gives its keys back.
pub proof fn law_parse_short(f: Finesse)
    requires
        f.wf(),
    ensures
        parse_finesse(finesse_short(f@)) == Ok::<Seq<Key>, Seq<char>>(f@),
{
    let keys = f@;
    let texts = short_texts(keys);
    f.lemma_len();
    if keys.len() == 0 {
        assert(texts =~= Seq::<Seq<char>>::empty());
        assert(finesse_short(keys) =~= Seq::<char>::empty());
        assert(keys =~= Seq::<Key>::empty());
    } else {
        assert forall|i: int| 0 <= i < texts.len() implies !(#[trigger] texts[i]).contains(',') by {
            lemma_short_code(keys[i]);
        }
        lemma_split_join(texts, ',');
        lemma_short_code(keys[0]);
        lemma_join_first(texts, seq![',']);
        let s = finesse_short(keys);
        assert(!is_space(s[0]));
        assert(!blank(s));
        lemma_parse_short_texts(keys, keys.len() as int);
        assert(keys.subrange(0, keys.len() as int) =~= keys);
    }
}

impl Finesse {
    /// The short text of the finesse.
    pub fn short(self) -> (s: String)
        ensures
            s@ == finesse_short(self@),
    {
        let keys = self.keys();
        let mut texts: Vec<Vec<char>> = Vec::new();
        let mut i: usize = 0;
        while i < keys.len()
            invariant
                i <= keys@.len(),
                keys@ == self@,
                views(texts@) == short_texts(self@).subrange(0, i as int),
            decreases keys@.len() - i,
        {
            let t = chars_of(keys[i].short());
            let ghost before = views(texts@);
            texts.push(t);
            assert(views(texts@) =~= before.push(t@));
            assert(views(texts@) =~= short_texts(self@).subrange(0, i as int + 1));
            i = i + 1;
        }
        assert(short_texts(self@).subrange(0, keys@.len() as int) =~= short_texts(self@));
        let mut comma: Vec<char> = Vec::new();
        comma.push(',');
        assert(comma@ =~= seq![',']);
        let text = join_chars(&texts, comma.as_slice());
        string_of(text.as_slice())
    }

    /// The long text of the finesse.
    pub fn to_string(&self) -> (s: String)
        ensures
            s@ == finesse_long(self@, self.spec_spin()),
    {
        let keys = self.keys();
        let mut texts: Vec<Vec<char>> = Vec::new();
        let mut i: usize = 0;
        while i < keys.len()
            invariant
                i <= keys@.len(),
                keys@ == self@,
                views(texts@) == name_texts(self@).subrange(0, i as int),
            decreases keys@.len() - i,
        {
            let t = chars_of(keys[i].name());
            let ghost before = views(texts@);
            texts.push(t);
            assert(views(texts@) =~= before.push(t@));
            assert(views(texts@) =~= name_texts(self@).subrange(0, i as int + 1));
            i = i + 1;
        }
        assert(name_texts(self@).subrange(0, keys@.len() as int) =~= name_texts(self@));
        let mut blank: Vec<char> = Vec::new();
        blank.push(' ');
        assert(blank@ =~= seq![' ']);
        let text = join_chars(&texts, blank.as_slice());
        let mut s = string_of(text.as_slice());
        if self.is_spin() {
            s.append(" *");
        } else {
            assert(s@ + Seq::<char>::empty() =~= s@);
        }
        s
    }

    /// The finesse that the characters write.
    pub fn read(chars: &[char]) -> (r: Result<Finesse, String>)
        ensures
            match r {
                Ok(f) => parse_finesse(chars@) == Ok::<Seq<Key>, Seq<char>>(f@) && !f.spec_spin()
                    && f.wf(),
                Err(e) => parse_finesse(chars@) == Err::<Seq<Key>, Seq<char>>(e@),
            },
    {
        if is_blank(chars) {
            return Ok(Finesse::new());
        }
        let pieces = split_chars(chars, ',');
        let mut keys: Vec<Key> = Vec::new();
        let mut i: usize = 0;
        while i < pieces.len()
            invariant
                i <= pieces@.len(),
                !blank(chars@),
                views(pieces@) == split(chars@, ','),
                parse_keys(views(pieces@), i as int) == Ok::<Seq<Key>, Seq<char>>(keys@),
            decreases pieces@.len() - i,
        {
            assert(views(pieces@)[i as int] == pieces@[i as int]@);
            match Key::read(pieces[i].as_slice()) {
                Ok(k) => {
                    keys.push(k);
                },
                Err(e) => {
                    proof {
                        lemma_parse_keys_error(views(pieces@), i as int + 1, pieces@.len() as int);
                    }
                    return Err(e);
                },
            }
            i = i + 1;
        }
        assert(views(pieces@).len() == pieces@.len());
        if keys.len() > 32 {
            return Err(String::from_str("too many keys"));
        }
        Ok(Finesse::with(keys.as_slice()))
    }

    /// The finesse that the text writes: short codes of keys with commas
    /// between them.
    pub fn parse(s: &str) -> (r: Result<Finesse, String>)
        ensures
            match r {
                Ok(f) => parse_finesse(s@) == Ok::<Seq<Key>, Seq<char>>(f@) && !f.spec_spin()
                    && f.wf(),
                Err(e) => parse_finesse(s@) == Err::<Seq<Key>, Seq<char>>(e@),
            },
    {
        let chars = chars_of(s);
        Finesse::read(chars.as_slice())
    }
}

/// Once a piece is in error, reading more pieces keeps the error.
proof fn lemma_parse_keys_error(pieces: Seq<Seq<char>>, n: int, m: int)
    requires
        0 <= n <= m,
        parse_keys(pieces, n).is_err(),
    ensures
        parse_keys(pieces, m) == parse_keys(pieces, n),
    decreases m - n,
{
    if n < m {
        lemma_parse_keys_error(pieces, n, m - 1);
    }
}

/// The text of a placement: the kind as a character and the short text of
/// the finesse, as in `(T:cw,sd)`.
pub open spec fn pair_text(pair: Pair) -> Seq<char> {
    seq!['(', pair.0 as char, ':'] + finesse_short(pair.1@) + seq![')']
}

impl Pair {
    /// The text of the placement.
    pub fn to_string(&self) -> (s: String)
        ensures
            s@ == pair_text(*self),
    {
        let mut s = String::new();
        s.push('(');
        s.push(self.0 as char);
        s.push(':');
        let short = self.1.short();
        s.append(short.as_str());
        s.push(')');
        assert(s@ =~= pair_text(*self));
        s
    }
}

/// An iterator over the keys of a finesse.
pub struct FinesseIterator {
    f: Finesse,
    idx: u8,
}

impl FinesseIterator {
    /// The keys that are yet to come.
    pub closed spec fn rest(self) -> Seq<Key> {
        if self.idx <= self.f@.len() {
            self.f@.subrange(self.idx as int, self.f@.len() as int)
        } else {
            Seq::empty()
        }
    }

    /// The next key, if one is left.
    pub fn next(&mut self) -> (k: Option<Key>)
        ensures
            old(self).rest().len() == 0 ==> k.is_none() && final(self).rest() == old(self).rest(),
            old(self).rest().len() > 0 ==> k == Some(old(self).rest()[0]) && final(self).rest() == old(
                self,
            ).rest().drop_first(),
    {
        if self.idx >= self.f.len() {
            return None;
        }
        let key = self.f.get(self.idx);
        self.idx = self.idx + 1;
        assert(self.rest() =~= old(self).rest().drop_first());
        key
    }
}

impl Finesse {
    /// An iterator over the keys, first key first.
    pub fn iter(&self) -> (it: FinesseIterator)
        ensures
            it.rest() == self@,
    {
        let it = FinesseIterator { f: *self, idx: 0 };
        assert(it.rest() =~= self@);
        it
    }

    /// Appends the keys of `keys`.
    pub fn extend(&mut self, keys: &[Key])
        requires
            old(self)@.len() + keys@.len() <= 32,
        ensures
            final(self)@ == old(self)@ + keys@,
            final(self).spec_spin() == old(self).spec_spin(),
            final(self).wf(),
    {
        proof {
            use_type_invariant(&*self);
        }
        let mut i: usize = 0;
        while i < keys.len()
            invariant
                i <= keys@.len(),
                old(self)@.len() + keys@.len() <= 32,
                self.wf(),
                self.spec_spin() == old(self).spec_spin(),
                self@ == old(self)@ + keys@.subrange(0, i as int),
            decreases keys@.len() - i,
        {
            self.push(keys[i]);
            assert((old(self)@ + keys@.subrange(0, i as int)).push(keys@[i as int]) =~= old(self)@
                + keys@.subrange(0, i as int + 1));
            i = i + 1;
        }
        assert(keys@.subrange(0, keys@.len() as int) =~= keys@);
    }
}

/// What a text means as a placement: the kind and the keys. White space
/// around the text does not count. The text stands between `(` and `)`; the
/// kind is the first character inside, which has a number below 256; a `:`
/// follows the kind, maybe after characters that are not read, and the rest
/// is the short text of a finesse.
pub open spec fn parse_pair(s: Seq<char>) -> Result<(u8, Seq<Key>), Seq<char>> {
    let t = trim(s);
    if t.len() < 2 || t[0] != '(' || t.last() != ')' {
        Err("finesse must start with '(' and end with ')'"@)
    } else {
        let inner = t.subrange(1, t.len() - 1);
        let c = find_from(inner, ':', 0);
        if c == 0 || (inner[0] as u32) >= 256 {
            Err("piece must be a single character"@)
        } else if c >= inner.len() {
            Err("missing finesse"@)
        } else {
            match parse_finesse(inner.subrange(c + 1, inner.len() as int)) {
                Err(e) => Err(e),
                Ok(keys) => Ok((inner[0] as u8, keys)),
            }
        }
    }
}

impl Pair {
    /// The placement that the characters write.
    pub fn read(s: &[char]) -> (r: Result<Pair, String>)
        ensures
            match r {
                Ok(pair) => parse_pair(s@) == Ok::<(u8, Seq<Key>), Seq<char>>((pair.0, pair.1@))
                    && pair.1.wf() && !pair.1.spec_spin(),
                Err(e) => parse_pair(s@) == Err::<(u8, Seq<Key>), Seq<char>>(e@),
            },
    {
        let t = trim_chars(s);
        let n = t.len();
        if n < 2 || t[0] != '(' || t[n - 1] != ')' {
            return Err(String::from_str("finesse must start with '(' and end with ')'"));
        }
        let inner = slice_chars(t.as_slice(), 1, n - 1);
        let m = inner.len();
        let found = find_char(inner.as_slice(), ':', 0);
        proof {
            crate::text::lemma_find_from(inner@, ':', 0);
        }
        let c = match found {
            Some(c) => c,
            None => m,
        };
        if c == 0 || (inner[0] as u32) >= 256 {
            return Err(String::from_str("piece must be a single character"));
        }
        if c >= m {
            return Err(String::from_str("missing finesse"));
        }
        let kind = inner[0] as u8;
        match Finesse::read(slice_chars(inner.as_slice(), c + 1, m).as_slice()) {
            Ok(f) => Ok(Pair(kind, f)),
            Err(e) => Err(e),
        }
    }

    /// The placement that the text writes, as in `(T:cw,sd)`.
    pub fn parse(s: &str) -> (r: Result<Pair, String>)
        ensures
            match r {
                Ok(pair) => parse_pair(s@) == Ok::<(u8, Seq<Key>), Seq<char>>((pair.0, pair.1@))
                    && pair.1.wf() && !pair.1.spec_spin(),
                Err(e) => parse_pair(s@) == Err::<(u8, Seq<Key>), Seq<char>>(e@),
            },
    {
        let chars = chars_of(s);
        Pair::read(chars.as_slice())
    }
}

impl std::str::FromStr for Key {
    type Err = String;

    fn from_str(s: &str) -> (r: Result<Self, String>)
        ensures
            match r {
                Ok(k) => parse_key(s@) == Ok::<Key, Seq<char>>(k),
                Err(e) => parse_key(s@) == Err::<Key, Seq<char>>(e@),
            },
    {
        Key::parse(s)
    }
}

impl std::str::FromStr for Finesse {
    type Err = String;

    fn from_str(s: &str) -> (r: Result<Self, String>)
        ensures
            match r {
                Ok(f) => parse_finesse(s@) == Ok::<Seq<Key>, Seq<char>>(f@) && !f.spec_spin()
                    && f.wf(),
                Err(e) => parse_finesse(s@) == Err::<Seq<Key>, Seq<char>>(e@),
            },
    {
        Finesse::parse(s)
    }
}

impl std::str::FromStr for Pair {
    type Err = String;

    fn from_str(s: &str) -> (r: Result<Self, String>)
        ensures
            match r {
                Ok(pair) => parse_pair(s@) == Ok::<(u8, Seq<Key>), Seq<char>>((pair.0, pair.1@))
                    && pair.1.wf() && !pair.1.spec_spin(),
                Err(e) => parse_pair(s@) == Err::<(u8, Seq<Key>), Seq<char>>(e@),
            },
    {
        Pair::parse(s)
    }
}

} // verus!
