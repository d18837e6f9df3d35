//! The ruleset of a search: which keys exist, how pieces drop, and the tables.

use crate::finesse::Key;
use crate::repl::State;
use crate::text::chars_of;
use vstd::prelude::*;

verus! {

/// How a piece may be made to fall.
#[derive(Clone, Copy, Debug, Hash, PartialEq, Eq, Structural)]
pub enum DropType {
    Sonic,
    Soft,
    Hard,
    Both,
}

/// A ruleset and the tables it plays by.
#[derive(Debug, PartialEq, Eq)]
pub struct Environment<'a> {
    pub can_tap: bool,
    pub can_das: bool,
    pub can_180: bool,
    pub can_hold: bool,
    pub droptype: DropType,
    pub vision: usize,
    pub foresight: usize,
    pub upstack: bool,
    pub state: &'a State,
}

/// One letter of the flags text, or a dash where the flag is off.
pub open spec fn flag_char(on: bool, c: char) -> char {
    if on {
        c
    } else {
        '-'
    }
}

impl<'a> Environment<'a> {
    /// The keys of this ruleset in their canonical order: taps, auto-repeat
    /// moves, the two quarter turns, the half turn, drops.
    pub open spec fn spec_keyboard(self) -> Seq<Key> {
        (if self.can_tap {
            seq![Key::MoveLeft, Key::MoveRight]
        } else {
            Seq::empty()
        }) + (if self.can_das {
            seq![Key::DasLeft, Key::DasRight]
        } else {
            Seq::empty()
        }) + seq![Key::RotateCW, Key::RotateCCW] + (if self.can_180 {
            seq![Key::Rotate180]
        } else {
            Seq::empty()
        }) + (match self.droptype {
            DropType::Soft => seq![Key::SoftDrop],
            DropType::Sonic => seq![Key::SonicDrop],
            DropType::Both => seq![Key::SoftDrop, Key::SonicDrop],
            DropType::Hard => Seq::empty(),
        })
    }

    /// The five characters that name the flags: `f` for half turns, `t` for
    /// taps, `d` for auto-repeat, `h` for hold, `u` for upstack, each replaced
    /// by a dash when the flag is off.
    pub open spec fn spec_flags(self) -> Seq<char> {
        seq![
            flag_char(self.can_180, 'f'),
            flag_char(self.can_tap, 't'),
            flag_char(self.can_das, 'd'),
            flag_char(self.can_hold, 'h'),
            flag_char(self.upstack, 'u'),
        ]
    }

    /// The ruleset whose flags are the letters that occur in `flags`, with
    /// sonic drop.
    #[must_use]
    pub fn new(state: &'a State, flags: &str, vision: usize, foresight: usize) -> (e: Self)
        ensures
            e.can_180 == flags@.contains('f'),
            e.can_tap == flags@.contains('t'),
            e.can_das == flags@.contains('d'),
            e.can_hold == flags@.contains('h'),
            e.upstack == flags@.contains('u'),
            e.droptype == DropType::Sonic,
            e.vision == vision,
            e.foresight == foresight,
            e.state == state,
    {
        let mut can_180 = false;
        let mut can_tap = false;
        let mut can_das = false;
        let mut can_hold = false;
        let mut upstack = false;
        let chars = chars_of(flags);
        let mut i: usize = 0;
        while i < chars.len()
            invariant
                i <= chars@.len(),
                chars@ == flags@,
                can_180 == chars@.subrange(0, i as int).contains('f'),
                can_tap == chars@.subrange(0, i as int).contains('t'),
                can_das == chars@.subrange(0, i as int).contains('d'),
                can_hold == chars@.subrange(0, i as int).contains('h'),
                upstack == chars@.subrange(0, i as int).contains('u'),
            decreases chars@.len() - i,
        {
            let c = chars[i];
            proof {
                let before = chars@.subrange(0, i as int);
                let after = chars@.subrange(0, i as int + 1);
                assert(after =~= before.push(c));
                assert forall|x: char| after.contains(x) == (before.contains(x) || x == c) by {
                    if before.contains(x) {
                        let j = choose|j: int| 0 <= j < before.len() && before[j] == x;
                        assert(after[j] == x);
                    }
                    if x == c {
                        assert(after[i as int] == x);
                    }
                    if after.contains(x) {
                        let j = choose|j: int| 0 <= j < after.len() && after[j] == x;
                        if j < i {
                            assert(before[j] == x);
                        }
                    }
                }
            }
            if c == 'f' {
                can_180 = true;
            } else if c == 't' {
                can_tap = true;
            } else if c == 'd' {
                can_das = true;
            } else if c == 'h' {
                can_hold = true;
            } else if c == 'u' {
                upstack = true;
            }
            i = i + 1;
        }
        assert(chars@.subrange(0, chars@.len() as int) =~= chars@);
        Self {
            can_180,
            can_tap,
            can_das,
            can_hold,
            droptype: DropType::Sonic,
            vision,
            foresight,
            upstack,
            state,
        }
    }

    /// The flags as text.
    #[must_use]
    pub fn flags(&self) -> (s: String)
        ensures
            s@ == self.spec_flags(),
    {
        let mut s = String::new();
        s.push(if self.can_180 {
            'f'
        } else {
            '-'
        });
        s.push(if self.can_tap {
            't'
        } else {
            '-'
        });
        s.push(if self.can_das {
            'd'
        } else {
            '-'
        });
        s.push(if self.can_hold {
            'h'
        } else {
            '-'
        });
        s.push(if self.upstack {
            'u'
        } else {
            '-'
        });
        assert(s@ =~= self.spec_flags());
        s
    }

    /// The keys that a placement search may press, in their canonical order.
    /// `Hold` is never among them.
    #[must_use]
    pub fn keyboard(&self) -> (m: Vec<Key>)
        ensures
            m@ == self.spec_keyboard(),
    {
        let mut m: Vec<Key> = Vec::new();
        if self.can_tap {
            m.push(Key::MoveLeft);
            m.push(Key::MoveRight);
        }
        if self.can_das {
            m.push(Key::DasLeft);
            m.push(Key::DasRight);
        }
        m.push(Key::RotateCW);
        m.push(Key::RotateCCW);
        if self.can_180 {
            m.push(Key::Rotate180);
        }
        match self.droptype {
            DropType::Soft => m.push(Key::SoftDrop),
            DropType::Sonic => m.push(Key::SonicDrop),
            DropType::Both => {
                m.push(Key::SoftDrop);
                m.push(Key::SonicDrop);
            },
            DropType::Hard => {},
        }
        assert(m@ =~= self.spec_keyboard());
        m
    }
}

} // verus!
