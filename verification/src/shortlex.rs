//! The order of key sequences by which a placement search prefers one to
//! another: fewer keys first, and between sequences of the same length the
//! one whose key comes earlier on the keyboard where the two first differ.

use crate::finesse::Key;
use vstd::prelude::*;

verus! {

/// The first place of `key` on the keyboard, or the length of the keyboard if
/// the key is not on it.
pub open spec fn rank(keyboard: Seq<Key>, key: Key) -> int
    decreases keyboard.len(),
{
    if keyboard.len() == 0 {
        0
    } else if keyboard[0] == key {
        0
    } else {
        1 + rank(keyboard.drop_first(), key)
    }
}

/// How two sequences of the same length compare: the first place where
/// their keys differ decides, by the places of the two keys on the keyboard.
/// The result is -1, 0 or 1.
pub open spec fn lex(keyboard: Seq<Key>, a: Seq<Key>, b: Seq<Key>) -> int
    decreases a.len(),
{
    if a.len() == 0 || b.len() == 0 {
        0
    } else {
        let front = lex(keyboard, a.drop_last(), b.drop_last());
        if front != 0 {
            front
        } else if rank(keyboard, a.last()) < rank(keyboard, b.last()) {
            -1
        } else if rank(keyboard, a.last()) > rank(keyboard, b.last()) {
            1
        } else {
            0
        }
    }
}

/// How two key sequences compare: the shorter one comes first, and two of
/// the same length compare by `lex`. The result is -1, 0 or 1.
pub open spec fn shortlex(keyboard: Seq<Key>, a: Seq<Key>, b: Seq<Key>) -> int {
    if a.len() < b.len() {
        -1
    } else if a.len() > b.len() {
        1
    } else {
        lex(keyboard, a, b)
    }
}

/// The rank of a key on the keyboard is a place of that key.
pub proof fn lemma_rank(keyboard: Seq<Key>, key: Key)
    ensures
        0 <= rank(keyboard, key) <= keyboard.len(),
        keyboard.contains(key) ==> rank(keyboard, key) < keyboard.len() && keyboard[rank(
            keyboard,
            key,
        )] == key,
        forall|i: int| 0 <= i < rank(keyboard, key) ==> keyboard[i] != key,
    decreases keyboard.len(),
{
    if keyboard.len() > 0 && keyboard[0] != key {
        let rest = keyboard.drop_first();
        lemma_rank(rest, key);
        if keyboard.contains(key) {
            let i = choose|i: int| 0 <= i < keyboard.len() && keyboard[i] == key;
            assert(rest[i - 1] == key);
        }
        assert forall|i: int| 0 <= i < rank(keyboard, key) implies keyboard[i] != key by {
            if i > 0 {
                assert(keyboard[i] == rest[i - 1]);
            }
        }
    }
}

/// On a keyboard without repeated keys the rank of the key at a place is
/// that place.
pub proof fn lemma_rank_at(keyboard: Seq<Key>, i: int)
    requires
        0 <= i < keyboard.len(),
        keyboard.no_duplicates(),
    ensures
        rank(keyboard, keyboard[i]) == i,
{
    lemma_rank(keyboard, keyboard[i]);
    assert(keyboard.contains(keyboard[i]));
}

/// Keys of the keyboard with the same rank are the same key.
pub proof fn lemma_rank_same(keyboard: Seq<Key>, a: Key, b: Key)
    requires
        keyboard.contains(a),
        keyboard.contains(b),
        rank(keyboard, a) == rank(keyboard, b),
    ensures
        a == b,
{
    lemma_rank(keyboard, a);
    lemma_rank(keyboard, b);
}

/// A sequence compares as equal with itself.
pub proof fn lemma_lex_same(keyboard: Seq<Key>, a: Seq<Key>)
    ensures
        lex(keyboard, a, a) == 0,
    decreases a.len(),
{
    if a.len() > 0 {
        lemma_lex_same(keyboard, a.drop_last());
    }
}

/// Sequences of keys of the keyboard, of the same length, that compare as
/// equal are the same.
pub proof fn lemma_lex_equal(keyboard: Seq<Key>, a: Seq<Key>, b: Seq<Key>)
    requires
        a.len() == b.len(),
        forall|i: int| 0 <= i < a.len() ==> keyboard.contains(#[trigger] a[i]),
        forall|i: int| 0 <= i < b.len() ==> keyboard.contains(#[trigger] b[i]),
        lex(keyboard, a, b) == 0,
    ensures
        a == b,
    decreases a.len(),
{
    if a.len() > 0 {
        let fa = a.drop_last();
        let fb = b.drop_last();
        assert forall|i: int| 0 <= i < fa.len() implies keyboard.contains(#[trigger] fa[i]) by {
            assert(fa[i] == a[i]);
        }
        assert forall|i: int| 0 <= i < fb.len() implies keyboard.contains(#[trigger] fb[i]) by {
            assert(fb[i] == b[i]);
        }
        lemma_lex_equal(keyboard, fa, fb);
        assert(keyboard.contains(a[a.len() - 1]));
        assert(keyboard.contains(b[b.len() - 1]));
        lemma_rank_same(keyboard, a.last(), b.last());
        assert(a =~= fa.push(a.last()));
        assert(b =~= fb.push(b.last()));
    } else {
        assert(a =~= b);
    }
}

/// The order passes on: what does not come after a sequence that does not
/// come after a third does not come after the third, and comes before it if
/// one of the two steps is strict.
pub proof fn lemma_lex_trans(keyboard: Seq<Key>, a: Seq<Key>, b: Seq<Key>, c: Seq<Key>)
    requires
        a.len() == b.len(),
        b.len() == c.len(),
        lex(keyboard, a, b) <= 0,
        lex(keyboard, b, c) <= 0,
    ensures
        lex(keyboard, a, c) <= 0,
        lex(keyboard, a, b) < 0 || lex(keyboard, b, c) < 0 ==> lex(keyboard, a, c) < 0,
    decreases a.len(),
{
    if a.len() > 0 {
        let fa = a.drop_last();
        let fb = b.drop_last();
        let fc = c.drop_last();
        lemma_lex_range(keyboard, fa, fb);
        lemma_lex_range(keyboard, fb, fc);
        lemma_lex_trans_front(keyboard, fa, fb, fc);
    }
}

/// The result of a comparison is -1, 0 or 1.
pub proof fn lemma_lex_range(keyboard: Seq<Key>, a: Seq<Key>, b: Seq<Key>)
    ensures
        -1 <= lex(keyboard, a, b) <= 1,
    decreases a.len(),
{
    if a.len() > 0 && b.len() > 0 {
        lemma_lex_range(keyboard, a.drop_last(), b.drop_last());
    }
}

proof fn lemma_lex_trans_front(keyboard: Seq<Key>, a: Seq<Key>, b: Seq<Key>, c: Seq<Key>)
    requires
        a.len() == b.len(),
        b.len() == c.len(),
    ensures
        lex(keyboard, a, b) <= 0 && lex(keyboard, b, c) <= 0 ==> lex(keyboard, a, c) <= 0 && ((lex(
            keyboard,
            a,
            b,
        ) < 0 || lex(keyboard, b, c) < 0) ==> lex(keyboard, a, c) < 0),
        lex(keyboard, a, b) >= 0 && lex(keyboard, b, c) >= 0 ==> lex(keyboard, a, c) >= 0 && ((lex(
            keyboard,
            a,
            b,
        ) > 0 || lex(keyboard, b, c) > 0) ==> lex(keyboard, a, c) > 0),
    decreases a.len(),
{
    if a.len() > 0 {
        lemma_lex_trans_front(keyboard, a.drop_last(), b.drop_last(), c.drop_last());
        lemma_lex_range(keyboard, a.drop_last(), b.drop_last());
        lemma_lex_range(keyboard, b.drop_last(), c.drop_last());
        lemma_lex_range(keyboard, a.drop_last(), c.drop_last());
    }
}

/// The order of key sequences passes on.
pub proof fn lemma_shortlex_trans(keyboard: Seq<Key>, a: Seq<Key>, b: Seq<Key>, c: Seq<Key>)
    requires
        shortlex(keyboard, a, b) <= 0,
        shortlex(keyboard, b, c) <= 0,
    ensures
        shortlex(keyboard, a, c) <= 0,
        shortlex(keyboard, a, b) < 0 || shortlex(keyboard, b, c) < 0 ==> shortlex(keyboard, a, c) < 0,
{
    if a.len() == b.len() && b.len() == c.len() {
        lemma_lex_trans(keyboard, a, b, c);
    }
}

/// One more key at the end of each of two sequences of the same length: the
/// sequences decide if they differ, else the two keys do.
pub proof fn lemma_lex_push(keyboard: Seq<Key>, a: Seq<Key>, x: Key, b: Seq<Key>, y: Key)
    requires
        a.len() == b.len(),
    ensures
        lex(keyboard, a.push(x), b.push(y)) == (if lex(keyboard, a, b) != 0 {
            lex(keyboard, a, b)
        } else if rank(keyboard, x) < rank(keyboard, y) {
            -1int
        } else if rank(keyboard, x) > rank(keyboard, y) {
            1int
        } else {
            0int
        }),
{
    assert(a.push(x).drop_last() =~= a);
    assert(b.push(y).drop_last() =~= b);
}

/// Comparing the other way round gives the opposite.
pub proof fn lemma_lex_flip(keyboard: Seq<Key>, a: Seq<Key>, b: Seq<Key>)
    requires
        a.len() == b.len(),
    ensures
        lex(keyboard, b, a) == -lex(keyboard, a, b),
    decreases a.len(),
{
    if a.len() > 0 {
        lemma_lex_flip(keyboard, a.drop_last(), b.drop_last());
    }
}

/// Comparing key sequences the other way round gives the opposite.
pub proof fn lemma_shortlex_flip(keyboard: Seq<Key>, a: Seq<Key>, b: Seq<Key>)
    ensures
        shortlex(keyboard, b, a) == -shortlex(keyboard, a, b),
{
    if a.len() == b.len() {
        lemma_lex_flip(keyboard, a, b);
    }
}

} // verus!
