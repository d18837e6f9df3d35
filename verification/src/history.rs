//! Histories: the placements of a queue, piece by piece.

use crate::finesse::{Pair, pair_text};
use crate::queue::{kinds_order, Queue, queue_order, queue_text};
use crate::text::{chars_of, join, join_chars, push_chars, views};
use smallvec::SmallVec;
use std::cmp::Ordering;
use vstd::prelude::*;
use vstd::std_specs::cmp::PartialEqSpecImpl;
use vstd::std_specs::cmp::PartialOrdSpecImpl;
use vstd::string::StringExecFns;

verus! {

/// The placements of a queue, piece by piece, each with the keys that placed
/// it. Two histories are equal when they place the same kinds in the same
/// order, whatever the keys. The placements are kept in a `SmallVec` of
/// smallvec, which is not looked into: what it holds is `history_pairs`, and
/// the wrappers below state what its methods do to that.
#[verifier::external_body]
#[derive(Debug)]
pub struct History(SmallVec<[Pair; 8]>);

/// What a history holds: its pairs, first placement first.
pub uninterp spec fn history_pairs(h: History) -> Seq<Pair>;

impl View for History {
    type V = Seq<Pair>;

    open spec fn view(&self) -> Seq<Pair> {
        history_pairs(*self)
    }
}

/// `SmallVec::new` of smallvec: a vector without items.
#[verifier::external_body]
fn history_new() -> (h: History)
    ensures
        history_pairs(h) == Seq::<Pair>::empty(),
{
    History(SmallVec::new())
}

/// `SmallVec::push` of smallvec: appends the item and keeps what was there.
#[verifier::external_body]
fn history_push(h: &mut History, pair: Pair)
    ensures
        history_pairs(*final(h)) == history_pairs(*old(h)).push(pair),
{
    h.0.push(pair);
}

/// `SmallVec::len` of smallvec: the number of items.
#[verifier::external_body]
fn history_len(h: &History) -> (n: usize)
    ensures
        n == history_pairs(*h).len(),
{
    h.0.len()
}

/// Indexing a `SmallVec` of smallvec, which goes through its slice: the item
/// at place `i`.
#[verifier::external_body]
fn history_get(h: &History, i: usize) -> (pair: Pair)
    requires
        i < history_pairs(*h).len(),
    ensures
        pair == history_pairs(*h)[i as int],
{
    h.0[i]
}

impl Clone for History {
    /// A history with the same placements.
    fn clone(&self) -> (h: Self)
        ensures
            history_pairs(h) == history_pairs(*self),
    {
        let n = history_len(self);
        let mut h = history_new();
        let mut i: usize = 0;
        while i < n
            invariant
                i <= n,
                n == history_pairs(*self).len(),
                history_pairs(h) == history_pairs(*self).subrange(0, i as int),
            decreases n - i,
        {
            history_push(&mut h, history_get(self, i));
            assert(history_pairs(h) =~= history_pairs(*self).subrange(0, i as int + 1));
            i = i + 1;
        }
        assert(history_pairs(*self).subrange(0, n as int) =~= history_pairs(*self));
        h
    }
}

/// The kinds that the pairs place, in their order.
pub open spec fn kinds_of(pairs: Seq<Pair>) -> Seq<u8> {
    Seq::new(pairs.len(), |i: int| pairs[i].0)
}

impl History {
    /// The history without placements.
    #[must_use]
    pub fn new() -> (h: History)
        ensures
            h@ == Seq::<Pair>::empty(),
    {
        history_new()
    }

    /// Appends a placement.
    pub fn push(&mut self, pair: Pair)
        ensures
            final(self)@ == old(self)@.push(pair),
    {
        history_push(self, pair);
    }

    /// The number of placements.
    #[must_use]
    pub fn len(&self) -> (n: usize)
        ensures
            n == self@.len(),
    {
        history_len(self)
    }

    /// The placement at place `i`.
    #[must_use]
    pub fn get(&self, i: usize) -> (pair: Pair)
        requires
            i < self@.len(),
        ensures
            pair == self@[i as int],
    {
        history_get(self, i)
    }

    /// The kinds placed, in their order.
    #[must_use]
    pub fn queue(&self) -> (q: Queue)
        requires
            self@.len() <= 64,
        ensures
            q@ == kinds_of(self@),
            q.wf(),
    {
        let n = self.len();
        let mut q = Queue::new();
        let mut i: usize = 0;
        while i < n
            invariant
                i <= n,
                n == self@.len(),
                n <= 64,
                q.wf(),
                q@ == kinds_of(self@).subrange(0, i as int),
            decreases n - i,
        {
            let pair = self.get(i);
            q.push(pair.0);
            assert(kinds_of(self@).subrange(0, i as int).push(pair.0) =~= kinds_of(self@).subrange(
                0,
                i as int + 1,
            ));
            i = i + 1;
        }
        assert(kinds_of(self@).subrange(0, n as int) =~= kinds_of(self@));
        q
    }
}

/// The texts of the placements, in their order.
pub open spec fn pair_texts(pairs: Seq<Pair>) -> Seq<Seq<char>> {
    Seq::new(pairs.len(), |i: int| pair_text(pairs[i]))
}

/// The line that a table of perfect clears has for the placements: the queue,
/// ` = `, and the placements with blanks between them, as in
/// `TI = (T:cw) (I:)`.
pub open spec fn pc_line(pairs: Seq<Pair>) -> Seq<char> {
    queue_text(kinds_of(pairs)) + " = "@ + join(pair_texts(pairs), seq![' '])
}

impl History {
    /// The kinds placed, as text.
    #[must_use]
    pub fn queue_str(&self) -> (s: String)
        requires
            self@.len() <= 64,
        ensures
            s@ == queue_text(kinds_of(self@)),
    {
        self.queue().as_str()
    }

    /// The line that a table of perfect clears has for this history.
    #[must_use]
    pub fn to_line(&self) -> (s: String)
        requires
            self@.len() <= 64,
        ensures
            s@ == pc_line(self@),
    {
        let mut s = self.queue_str();
        s.append(" = ");
        let n = self.len();
        let mut texts: Vec<Vec<char>> = Vec::new();
        let mut i: usize = 0;
        while i < n
            invariant
                i <= n,
                n == self@.len(),
                views(texts@) == pair_texts(self@).subrange(0, i as int),
            decreases n - i,
        {
            let t = chars_of(self.get(i).to_string().as_str());
            let ghost before = views(texts@);
            texts.push(t);
            assert(views(texts@) =~= before.push(t@));
            assert(views(texts@) =~= pair_texts(self@).subrange(0, i as int + 1));
            i = i + 1;
        }
        assert(pair_texts(self@).subrange(0, n as int) =~= pair_texts(self@));
        let mut blank: Vec<char> = Vec::new();
        blank.push(' ');
        assert(blank@ =~= seq![' ']);
        let text = join_chars(&texts, blank.as_slice());
        push_chars(&mut s, text.as_slice());
        s
    }

    /// Whether both histories place the same kinds in the same order.
    pub fn same_queue(&self, other: &History) -> (b: bool)
        ensures
            b == (kinds_of(self@) == kinds_of(other@)),
    {
        let n = self.len();
        if n != other.len() {
            assert(kinds_of(self@).len() != kinds_of(other@).len());
            return false;
        }
        let mut i: usize = 0;
        while i < n
            invariant
                i <= n,
                n == self@.len(),
                n == other@.len(),
                forall|j: int| 0 <= j < i ==> kinds_of(self@)[j] == kinds_of(other@)[j],
            decreases n - i,
        {
            if self.get(i).0 != other.get(i).0 {
                assert(kinds_of(self@)[i as int] != kinds_of(other@)[i as int]);
                return false;
            }
            i = i + 1;
        }
        assert(kinds_of(self@) =~= kinds_of(other@));
        true
    }
}

impl PartialEq for History {
    /// Whether both histories place the same kinds in the same order.
    fn eq(&self, other: &Self) -> (r: bool) {
        self.same_queue(other)
    }
}

impl PartialEqSpecImpl for History {
    open spec fn obeys_eq_spec() -> bool {
        true
    }

    open spec fn eq_spec(&self, other: &Self) -> bool {
        kinds_of(self@) == kinds_of(other@)
    }
}

impl Eq for History {

}

impl History {
    /// How this history compares with `other` by the kinds they place: -1 if
    /// it comes first, 1 if it comes last, 0 if the kinds are the same. A
    /// shorter history comes first, and of two that are as long as each other
    /// the one with the smaller kind at the first place where they differ.
    pub fn order(&self, other: &History) -> (o: i8)
        ensures
            o == queue_order(kinds_of(self@), kinds_of(other@)),
    {
        let n = self.len();
        let m = other.len();
        if n < m {
            return -1;
        }
        if n > m {
            return 1;
        }
        let mut i: usize = 0;
        while i < n
            invariant
                i <= n,
                n == self@.len(),
                n == other@.len(),
                kinds_order(kinds_of(self@), kinds_of(other@), 0) == kinds_order(
                    kinds_of(self@),
                    kinds_of(other@),
                    i as int,
                ),
            decreases n - i,
        {
            let a = self.get(i).0;
            let b = other.get(i).0;
            if a < b {
                return -1;
            }
            if a > b {
                return 1;
            }
            i = i + 1;
        }
        0
    }
}

impl PartialOrd for History {
    /// How the kinds of this history compare with those of `other`.
    fn partial_cmp(&self, other: &Self) -> (r: Option<Ordering>) {
        let o = self.order(other);
        if o < 0 {
            Some(Ordering::Less)
        } else if o > 0 {
            Some(Ordering::Greater)
        } else {
            proof {
                lemma_order_equal(kinds_of(self@), kinds_of(other@));
            }
            Some(Ordering::Equal)
        }
    }
}

impl PartialOrdSpecImpl for History {
    open spec fn obeys_partial_cmp_spec() -> bool {
        true
    }

    open spec fn partial_cmp_spec(&self, other: &Self) -> Option<Ordering> {
        Some(kinds_ordering(kinds_of(self@), kinds_of(other@)))
    }
}

/// Sequences of kinds that compare as equal are the same.
pub proof fn lemma_order_equal(a: Seq<u8>, b: Seq<u8>)
    requires
        queue_order(a, b) == 0,
    ensures
        a == b,
{
    lemma_kinds_equal(a, b, 0);
}

proof fn lemma_kinds_equal(a: Seq<u8>, b: Seq<u8>, from: int)
    requires
        0 <= from <= a.len(),
        a.len() == b.len(),
        kinds_order(a, b, from) == 0,
        forall|i: int| 0 <= i < from ==> a[i] == b[i],
    ensures
        a == b,
    decreases a.len() - from,
{
    if from < a.len() {
        lemma_kinds_equal(a, b, from + 1);
    } else {
        assert(a =~= b);
    }
}

/// The order of two sequences of kinds in the terms of the standard library.
pub open spec fn kinds_ordering(a: Seq<u8>, b: Seq<u8>) -> Ordering {
    if queue_order(a, b) < 0 {
        Ordering::Less
    } else if queue_order(a, b) > 0 {
        Ordering::Greater
    } else {
        Ordering::Equal
    }
}

} // verus!
