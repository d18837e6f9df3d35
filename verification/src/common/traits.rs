//! Arithmetic that stops at the ends of a type's range, and joining of texts.

use crate::text::{chars_of, join, push_chars};
use vstd::prelude::*;

verus! {

/// Addition and subtraction that stop at the least and the greatest value of
/// the type.
pub trait Saturating: Sized {
    /// The sum, or the end of the range that the sum lies beyond.
    spec fn spec_saturating_add(self, t: Self) -> Self;

    /// The difference, or the end of the range that the difference lies
    /// beyond.
    spec fn spec_saturating_sub(self, t: Self) -> Self;

    #[must_use]
    fn saturating_add(self, t: Self) -> (r: Self)
        ensures
            r == self.spec_saturating_add(t),
    ;

    #[must_use]
    fn saturating_sub(self, t: Self) -> (r: Self)
        ensures
            r == self.spec_saturating_sub(t),
    ;
}

impl Saturating for u8 {
    open spec fn spec_saturating_add(self, t: Self) -> Self {
        if self + t > u8::MAX {
            u8::MAX
        } else if self + t < u8::MIN {
            u8::MIN
        } else {
            (self + t) as u8
        }
    }

    open spec fn spec_saturating_sub(self, t: Self) -> Self {
        if self - t > u8::MAX {
            u8::MAX
        } else if self - t < u8::MIN {
            u8::MIN
        } else {
            (self - t) as u8
        }
    }

    fn saturating_add(self, t: Self) -> Self {
        match self.checked_add(t) {
            Some(v) => v,
            None => if t > 0 {
                u8::MAX
            } else {
                u8::MIN
            },
        }
    }

    fn saturating_sub(self, t: Self) -> Self {
        match self.checked_sub(t) {
            Some(v) => v,
            None => if t > 0 {
                u8::MIN
            } else {
                u8::MAX
            },
        }
    }
}

impl Saturating for u16 {
    open spec fn spec_saturating_add(self, t: Self) -> Self {
        if self + t > u16::MAX {
            u16::MAX
        } else if self + t < u16::MIN {
            u16::MIN
        } else {
            (self + t) as u16
        }
    }

    open spec fn spec_saturating_sub(self, t: Self) -> Self {
        if self - t > u16::MAX {
            u16::MAX
        } else if self - t < u16::MIN {
            u16::MIN
        } else {
            (self - t) as u16
        }
    }

    fn saturating_add(self, t: Self) -> Self {
        match self.checked_add(t) {
            Some(v) => v,
            None => if t > 0 {
                u16::MAX
            } else {
                u16::MIN
            },
        }
    }

    fn saturating_sub(self, t: Self) -> Self {
        match self.checked_sub(t) {
            Some(v) => v,
            None => if t > 0 {
                u16::MIN
            } else {
                u16::MAX
            },
        }
    }
}

impl Saturating for u32 {
    open spec fn spec_saturating_add(self, t: Self) -> Self {
        if self + t > u32::MAX {
            u32::MAX
        } else if self + t < u32::MIN {
            u32::MIN
        } else {
            (self + t) as u32
        }
    }

    open spec fn spec_saturating_sub(self, t: Self) -> Self {
        if self - t > u32::MAX {
            u32::MAX
        } else if self - t < u32::MIN {
            u32::MIN
        } else {
            (self - t) as u32
        }
    }

    fn saturating_add(self, t: Self) -> Self {
        match self.checked_add(t) {
            Some(v) => v,
            None => if t > 0 {
                u32::MAX
            } else {
                u32::MIN
            },
        }
    }

    fn saturating_sub(self, t: Self) -> Self {
        match self.checked_sub(t) {
            Some(v) => v,
            None => if t > 0 {
                u32::MIN
            } else {
                u32::MAX
            },
        }
    }
}

impl Saturating for u64 {
    open spec fn spec_saturating_add(self, t: Self) -> Self {
        if self + t > u64::MAX {
            u64::MAX
        } else if self + t < u64::MIN {
            u64::MIN
        } else {
            (self + t) as u64
        }
    }

    open spec fn spec_saturating_sub(self, t: Self) -> Self {
        if self - t > u64::MAX {
            u64::MAX
        } else if self - t < u64::MIN {
            u64::MIN
        } else {
            (self - t) as u64
        }
    }

    fn saturating_add(self, t: Self) -> Self {
        match self.checked_add(t) {
            Some(v) => v,
            None => if t > 0 {
                u64::MAX
            } else {
                u64::MIN
            },
        }
    }

    fn saturating_sub(self, t: Self) -> Self {
        match self.checked_sub(t) {
            Some(v) => v,
            None => if t > 0 {
                u64::MIN
            } else {
                u64::MAX
            },
        }
    }
}

impl Saturating for u128 {
    open spec fn spec_saturating_add(self, t: Self) -> Self {
        if self + t > u128::MAX {
            u128::MAX
        } else if self + t < u128::MIN {
            u128::MIN
        } else {
            (self + t) as u128
        }
    }

    open spec fn spec_saturating_sub(self, t: Self) -> Self {
        if self - t > u128::MAX {
            u128::MAX
        } else if self - t < u128::MIN {
            u128::MIN
        } else {
            (self - t) as u128
        }
    }

    fn saturating_add(self, t: Self) -> Self {
        match self.checked_add(t) {
            Some(v) => v,
            None => if t > 0 {
                u128::MAX
            } else {
                u128::MIN
            },
        }
    }

    fn saturating_sub(self, t: Self) -> Self {
        match self.checked_sub(t) {
            Some(v) => v,
            None => if t > 0 {
                u128::MIN
            } else {
                u128::MAX
            },
        }
    }
}

impl Saturating for usize {
    open spec fn spec_saturating_add(self, t: Self) -> Self {
        if self + t > usize::MAX {
            usize::MAX
        } else if self + t < usize::MIN {
            usize::MIN
        } else {
            (self + t) as usize
        }
    }

    open spec fn spec_saturating_sub(self, t: Self) -> Self {
        if self - t > usize::MAX {
            usize::MAX
        } else if self - t < usize::MIN {
            usize::MIN
        } else {
            (self - t) as usize
        }
    }

    fn saturating_add(self, t: Self) -> Self {
        match self.checked_add(t) {
            Some(v) => v,
            None => if t > 0 {
                usize::MAX
            } else {
                usize::MIN
            },
        }
    }

    fn saturating_sub(self, t: Self) -> Self {
        match self.checked_sub(t) {
            Some(v) => v,
            None => if t > 0 {
                usize::MIN
            } else {
                usize::MAX
            },
        }
    }
}

impl Saturating for i8 {
    open spec fn spec_saturating_add(self, t: Self) -> Self {
        if self + t > i8::MAX {
            i8::MAX
        } else if self + t < i8::MIN {
            i8::MIN
        } else {
            (self + t) as i8
        }
    }

    open spec fn spec_saturating_sub(self, t: Self) -> Self {
        if self - t > i8::MAX {
            i8::MAX
        } else if self - t < i8::MIN {
            i8::MIN
        } else {
            (self - t) as i8
        }
    }

    fn saturating_add(self, t: Self) -> Self {
        match self.checked_add(t) {
            Some(v) => v,
            None => if t > 0 {
                i8::MAX
            } else {
                i8::MIN
            },
        }
    }

    fn saturating_sub(self, t: Self) -> Self {
        match self.checked_sub(t) {
            Some(v) => v,
            None => if t > 0 {
                i8::MIN
            } else {
                i8::MAX
            },
        }
    }
}

impl Saturating for i16 {
    open spec fn spec_saturating_add(self, t: Self) -> Self {
        if self + t > i16::MAX {
            i16::MAX
        } else if self + t < i16::MIN {
            i16::MIN
        } else {
            (self + t) as i16
        }
    }

    open spec fn spec_saturating_sub(self, t: Self) -> Self {
        if self - t > i16::MAX {
            i16::MAX
        } else if self - t < i16::MIN {
            i16::MIN
        } else {
            (self - t) as i16
        }
    }

    fn saturating_add(self, t: Self) -> Self {
        match self.checked_add(t) {
            Some(v) => v,
            None => if t > 0 {
                i16::MAX
            } else {
                i16::MIN
            },
        }
    }

    fn saturating_sub(self, t: Self) -> Self {
        match self.checked_sub(t) {
            Some(v) => v,
            None => if t > 0 {
                i16::MIN
            } else {
                i16::MAX
            },
        }
    }
}

impl Saturating for i32 {
    open spec fn spec_saturating_add(self, t: Self) -> Self {
        if self + t > i32::MAX {
            i32::MAX
        } else if self + t < i32::MIN {
            i32::MIN
        } else {
            (self + t) as i32
        }
    }

    open spec fn spec_saturating_sub(self, t: Self) -> Self {
        if self - t > i32::MAX {
            i32::MAX
        } else if self - t < i32::MIN {
            i32::MIN
        } else {
            (self - t) as i32
        }
    }

    fn saturating_add(self, t: Self) -> Self {
        match self.checked_add(t) {
            Some(v) => v,
            None => if t > 0 {
                i32::MAX
            } else {
                i32::MIN
            },
        }
    }

    fn saturating_sub(self, t: Self) -> Self {
        match self.checked_sub(t) {
            Some(v) => v,
            None => if t > 0 {
                i32::MIN
            } else {
                i32::MAX
            },
        }
    }
}

impl Saturating for i64 {
    open spec fn spec_saturating_add(self, t: Self) -> Self {
        if self + t > i64::MAX {
            i64::MAX
        } else if self + t < i64::MIN {
            i64::MIN
        } else {
            (self + t) as i64
        }
    }

    open spec fn spec_saturating_sub(self, t: Self) -> Self {
        if self - t > i64::MAX {
            i64::MAX
        } else if self - t < i64::MIN {
            i64::MIN
        } else {
            (self - t) as i64
        }
    }

    fn saturating_add(self, t: Self) -> Self {
        match self.checked_add(t) {
            Some(v) => v,
            None => if t > 0 {
                i64::MAX
            } else {
                i64::MIN
            },
        }
    }

    fn saturating_sub(self, t: Self) -> Self {
        match self.checked_sub(t) {
            Some(v) => v,
            None => if t > 0 {
                i64::MIN
            } else {
                i64::MAX
            },
        }
    }
}

impl Saturating for i128 {
    open spec fn spec_saturating_add(self, t: Self) -> Self {
        if self + t > i128::MAX {
            i128::MAX
        } else if self + t < i128::MIN {
            i128::MIN
        } else {
            (self + t) as i128
        }
    }

    open spec fn spec_saturating_sub(self, t: Self) -> Self {
        if self - t > i128::MAX {
            i128::MAX
        } else if self - t < i128::MIN {
            i128::MIN
        } else {
            (self - t) as i128
        }
    }

    fn saturating_add(self, t: Self) -> Self {
        match self.checked_add(t) {
            Some(v) => v,
            None => if t > 0 {
                i128::MAX
            } else {
                i128::MIN
            },
        }
    }

    fn saturating_sub(self, t: Self) -> Self {
        match self.checked_sub(t) {
            Some(v) => v,
            None => if t > 0 {
                i128::MIN
            } else {
                i128::MAX
            },
        }
    }
}

impl Saturating for isize {
    open spec fn spec_saturating_add(self, t: Self) -> Self {
        if self + t > isize::MAX {
            isize::MAX
        } else if self + t < isize::MIN {
            isize::MIN
        } else {
            (self + t) as isize
        }
    }

    open spec fn spec_saturating_sub(self, t: Self) -> Self {
        if self - t > isize::MAX {
            isize::MAX
        } else if self - t < isize::MIN {
            isize::MIN
        } else {
            (self - t) as isize
        }
    }

    fn saturating_add(self, t: Self) -> Self {
        match self.checked_add(t) {
            Some(v) => v,
            None => if t > 0 {
                isize::MAX
            } else {
                isize::MIN
            },
        }
    }

    fn saturating_sub(self, t: Self) -> Self {
        match self.checked_sub(t) {
            Some(v) => v,
            None => if t > 0 {
                isize::MIN
            } else {
                isize::MAX
            },
        }
    }
}

/// The texts of the strings.
pub open spec fn string_views(items: Seq<String>) -> Seq<Seq<char>> {
    Seq::new(items.len(), |i: int| items[i]@)
}

/// Joining of texts with a separator between them.
pub trait IterJoin {
    /// The texts to join.
    spec fn texts(self) -> Seq<Seq<char>>;

    fn join(self, sep: &str) -> (s: String)
        ensures
            s@ == join(self.texts(), sep@),
    ;
}

impl IterJoin for Vec<String> {
    open spec fn texts(self) -> Seq<Seq<char>> {
        string_views(self@)
    }

    fn join(self, sep: &str) -> (out: String) {
        let mut out = String::new();
        let mut i: usize = 0;
        let separator = chars_of(sep);
        while i < self.len()
            invariant
                i <= self@.len(),
                separator@ == sep@,
                out@ == join(string_views(self@).subrange(0, i as int), sep@),
            decreases self@.len() - i,
        {
            let ghost done = string_views(self@).subrange(0, i as int);
            let ghost more = string_views(self@).subrange(0, i as int + 1);
            proof {
                assert(more.drop_last() =~= done);
                assert(more.last() == self@[i as int]@);
            }
            if i > 0 {
                push_chars(&mut out, separator.as_slice());
            }
            let item = chars_of(self[i].as_str());
            push_chars(&mut out, item.as_slice());
            proof {
                if i == 0 {
                    assert(done =~= Seq::<Seq<char>>::empty());
                    assert(out@ =~= more[0]);
                }
            }
            i = i + 1;
        }
        assert(string_views(self@).subrange(0, self@.len() as int) =~= string_views(self@));
        out
    }
}

} // verus!
