//! Sequences of piece kinds of bounded length.

use crate::text::string_of;
use vstd::prelude::*;
use vstd::string::{StringSliceAdditionalSpecFns, StrSliceExecFns};

verus! {

/// Most kinds that a queue can hold.
pub const QUEUE_CAPACITY: usize = 64;

/// A sequence of at most 64 piece kinds. Queues are ordered by length first
/// and then kind by kind.
#[derive(Clone, Copy, PartialEq, Eq, Hash, PartialOrd, Ord, Debug)]
pub struct Queue {
    len: u8,
    items: [u8; 64],
}

impl View for Queue {
    type V = Seq<u8>;

    /// The kinds in their order.
    closed spec fn view(&self) -> Seq<u8> {
        self.items@.subrange(0, self.len as int)
    }
}

impl Queue {
    /// Holds of every queue that the library hands out: at most 64 kinds, and
    /// zero in every unused place.
    #[verifier::type_invariant]
    pub closed spec fn wf(self) -> bool {
        &&& self.len <= 64
        &&& forall|i: int| self.len <= i < 64 ==> self.items@[i] == 0
    }

    /// A well-formed queue holds at most 64 kinds.
    pub proof fn lemma_len(self)
        requires
            self.wf(),
        ensures
            self@.len() <= 64,
    {
    }

    /// Well-formed queues with the same kinds are equal.
    pub proof fn lemma_kinds_determine(self, other: Queue)
        requires
            self.wf(),
            other.wf(),
            self@ == other@,
        ensures
            self == other,
    {
        assert(self@.len() == self.len);
        assert(other@.len() == other.len);
        assert forall|i: int| 0 <= i < 64 implies self.items@[i] == other.items@[i] by {
            if i < self.len {
                assert(self@[i] == self.items@[i]);
                assert(other@[i] == other.items@[i]);
            }
        }
        assert(self.items@ =~= other.items@);
        assert(self.items =~= other.items);
    }

    /// The queue without kinds.
    #[must_use]
    pub fn new() -> (q: Self)
        ensures
            q@ == Seq::<u8>::empty(),
            q.wf(),
    {
        let q = Self { len: 0, items: [0u8; 64] };
        assert(q@ =~= Seq::<u8>::empty());
        q
    }

    /// The number of kinds.
    #[must_use]
    pub fn len(&self) -> (n: usize)
        ensures
            n == self@.len(),
            n <= 64,
    {
        proof {
            use_type_invariant(self);
        }
        self.len as usize
    }

    /// Whether the queue holds no kind.
    #[must_use]
    pub fn is_empty(&self) -> (e: bool)
        ensures
            e == (self@.len() == 0),
    {
        proof {
            use_type_invariant(self);
        }
        self.len == 0
    }

    /// The kind at `index`; 0 at an unused place.
    #[must_use]
    pub fn get(&self, index: usize) -> (k: u8)
        requires
            index < 64,
        ensures
            k == (if index < self@.len() {
                self@[index as int]
            } else {
                0
            }),
    {
        proof {
            use_type_invariant(self);
        }
        self.items[index]
    }

    /// Appends `piece`.
    pub fn push(&mut self, piece: u8)
        requires
            old(self)@.len() < 64,
        ensures
            final(self)@ == old(self)@.push(piece),
            final(self).wf(),
    {
        proof {
            use_type_invariant(&*self);
        }
        let mut items = self.items;
        items[self.len as usize] = piece;
        let next = Queue { len: self.len + 1, items };
        assert(next@ =~= self@.push(piece));
        *self = next;
    }

    /// Removes the last kind and returns it; `None` on the empty queue.
    pub fn pop(&mut self) -> (k: Option<u8>)
        ensures
            old(self)@.len() == 0 ==> k.is_none() && *final(self) == *old(self),
            old(self)@.len() > 0 ==> k == Some(old(self)@.last()) && final(self)@ == old(
                self,
            )@.drop_last(),
            final(self).wf(),
    {
        proof {
            use_type_invariant(&*self);
        }
        if self.len == 0 {
            return None;
        }
        let at = (self.len - 1) as usize;
        let piece = self.items[at];
        let mut items = self.items;
        items[at] = 0;
        let next = Queue { len: self.len - 1, items };
        assert(next@ =~= self@.drop_last());
        *self = next;
        Some(piece)
    }

    /// The kinds at the places from `start` up to, not including, `end`, as far
    /// as the queue reaches.
    #[must_use]
    pub fn slice(&self, start: usize, end: usize) -> (q: Queue)
        ensures
            q@ == (if start < end && start < self@.len() {
                self@.subrange(
                    start as int,
                    if end < self@.len() {
                        end as int
                    } else {
                        self@.len() as int
                    },
                )
            } else {
                Seq::<u8>::empty()
            }),
            q.wf(),
    {
        let n = self.len();
        let stop = if end < n {
            end
        } else {
            n
        };
        let mut q = Queue::new();
        if start >= stop {
            return q;
        }
        let mut i: usize = start;
        while i < stop
            invariant
                start <= i <= stop <= n,
                n == self@.len(),
                n <= 64,
                q.wf(),
                q@ == self@.subrange(start as int, i as int),
            decreases stop - i,
        {
            q.push(self.get(i));
            assert(self@.subrange(start as int, i as int).push(self@[i as int]) =~= self@.subrange(
                start as int,
                i as int + 1,
            ));
            i = i + 1;
        }
        q
    }

    /// The kinds as a vector.
    #[must_use]
    pub fn items(&self) -> (v: Vec<u8>)
        ensures
            v@ == self@,
    {
        let n = self.len();
        let mut v: Vec<u8> = Vec::new();
        let mut i: usize = 0;
        while i < n
            invariant
                i <= n,
                n == self@.len(),
                n <= 64,
                v@ == self@.subrange(0, i as int),
            decreases n - i,
        {
            v.push(self.get(i));
            assert(self@.subrange(0, i as int).push(self@[i as int]) =~= self@.subrange(
                0,
                i as int + 1,
            ));
            i = i + 1;
        }
        assert(self@.subrange(0, n as int) =~= self@);
        v
    }

    /// The queue that holds the kinds of `kinds` in their order.
    #[must_use]
    pub fn from_kinds(kinds: &[u8]) -> (q: Queue)
        requires
            kinds@.len() <= 64,
        ensures
            q@ == kinds@,
            q.wf(),
    {
        let mut q = Queue::new();
        let mut i: usize = 0;
        while i < kinds.len()
            invariant
                i <= kinds@.len() <= 64,
                q.wf(),
                q@ == kinds@.subrange(0, i as int),
            decreases kinds@.len() - i,
        {
            q.push(kinds[i]);
            assert(kinds@.subrange(0, i as int).push(kinds@[i as int]) =~= kinds@.subrange(
                0,
                i as int + 1,
            ));
            i = i + 1;
        }
        assert(kinds@.subrange(0, kinds@.len() as int) =~= kinds@);
        q
    }

    /// `first` followed by the kinds of `rest`.
    #[must_use]
    pub fn prepend(first: u8, rest: &Queue) -> (q: Queue)
        requires
            rest@.len() < 64,
        ensures
            q@ == seq![first] + rest@,
            q.wf(),
    {
        let mut q = Queue::new();
        q.push(first);
        q.extend(rest);
        q
    }

    /// Appends the kinds of `other`.
    pub fn extend(&mut self, other: &Queue)
        requires
            old(self)@.len() + other@.len() <= 64,
        ensures
            final(self)@ == old(self)@ + other@,
            final(self).wf(),
    {
        proof {
            use_type_invariant(&*self);
        }
        let n = other.len();
        let mut i: usize = 0;
        while i < n
            invariant
                i <= n,
                n == other@.len(),
                old(self)@.len() + n <= 64,
                self.wf(),
                self@ == old(self)@ + other@.subrange(0, i as int),
            decreases n - i,
        {
            self.push(other.get(i));
            assert((old(self)@ + other@.subrange(0, i as int)).push(other@[i as int]) =~= old(self)@
                + other@.subrange(0, i as int + 1));
            i = i + 1;
        }
        assert(other@.subrange(0, n as int) =~= other@);
    }

    /// Whether both queues hold the same kinds.
    pub fn same(&self, other: &Queue) -> (b: bool)
        ensures
            b == (self@ == other@),
            b == (*self == *other),
    {
        proof {
            use_type_invariant(self);
            use_type_invariant(other);
            if self@ == other@ {
                self.lemma_kinds_determine(*other);
            }
        }
        if self.len != other.len {
            return false;
        }
        let n = self.len();
        let mut i: usize = 0;
        while i < n
            invariant
                i <= n,
                n == self@.len(),
                n == other@.len(),
                n <= 64,
                self@.subrange(0, i as int) == other@.subrange(0, i as int),
            decreases n - i,
        {
            if self.get(i) != other.get(i) {
                assert(self@[i as int] != other@[i as int]);
                return false;
            }
            assert(self@.subrange(0, i as int + 1) =~= self@.subrange(0, i as int).push(
                self@[i as int],
            ));
            assert(other@.subrange(0, i as int + 1) =~= other@.subrange(0, i as int).push(
                other@[i as int],
            ));
            i = i + 1;
        }
        assert(self@.subrange(0, n as int) =~= self@);
        assert(other@.subrange(0, n as int) =~= other@);
        true
    }
}

impl Default for Queue {
    fn default() -> (q: Self)
        ensures
            q@ == Seq::<u8>::empty(),
    {
        Self::new()
    }
}

/// The kinds as text: each kind is the character with its number.
pub open spec fn queue_text(kinds: Seq<u8>) -> Seq<char> {
    Seq::new(kinds.len(), |i: int| kinds[i] as char)
}

/// How two sequences of kinds compare when they are as long as each other,
/// from place `from` on: the first place where they differ decides.
pub open spec fn kinds_order(a: Seq<u8>, b: Seq<u8>, from: int) -> int
    decreases a.len() - from,
{
    if from < 0 || from >= a.len() || from >= b.len() {
        0
    } else if a[from] < b[from] {
        -1
    } else if a[from] > b[from] {
        1
    } else {
        kinds_order(a, b, from + 1)
    }
}

/// How two queues compare: the shorter one comes first, and of two that are
/// as long as each other the one that is smaller at the first place where
/// they differ. The result is -1, 0 or 1.
pub open spec fn queue_order(a: Seq<u8>, b: Seq<u8>) -> int {
    if a.len() < b.len() {
        -1
    } else if a.len() > b.len() {
        1
    } else {
        kinds_order(a, b, 0)
    }
}

impl Queue {
    /// The kinds as text.
    #[must_use]
    pub fn as_str(&self) -> (s: String)
        ensures
            s@ == queue_text(self@),
    {
        let n = self.len();
        let mut chars: Vec<char> = Vec::new();
        let mut i: usize = 0;
        while i < n
            invariant
                i <= n,
                n == self@.len(),
                n <= 64,
                chars@ == queue_text(self@).subrange(0, i as int),
            decreases n - i,
        {
            chars.push(self.get(i) as char);
            assert(chars@ =~= queue_text(self@).subrange(0, i as int + 1));
            i = i + 1;
        }
        assert(queue_text(self@).subrange(0, n as int) =~= queue_text(self@));
        string_of(chars.as_slice())
    }

    /// The queue whose kinds are the bytes of the text in UTF-8, unless they
    /// are more than 64.
    #[must_use]
    pub fn from_text(s: &str) -> (q: Option<Queue>)
        ensures
            match q {
                Some(queue) => queue@ == s.spec_bytes() && queue.wf(),
                None => s.spec_bytes().len() > 64,
            },
    {
        let bytes = s.as_bytes_vec();
        if bytes.len() > 64 {
            None
        } else {
            Some(Queue::from_kinds(bytes.as_slice()))
        }
    }

    /// How this queue compares with `other`: -1 if it comes first, 1 if it
    /// comes last, 0 if the two are the same.
    #[must_use]
    pub fn order(&self, other: &Queue) -> (o: i8)
        ensures
            o == queue_order(self@, other@),
    {
        let n = self.len();
        let m = other.len();
        if n < m {
            return -1;
        }
        if n > m {
            return 1;
        }
        let mut i: usize = 0;
        while i < n
            invariant
                i <= n,
                n == self@.len(),
                n == other@.len(),
                n <= 64,
                kinds_order(self@, other@, 0) == kinds_order(self@, other@, i as int),
            decreases n - i,
        {
            let a = self.get(i);
            let b = other.get(i);
            if a < b {
                return -1;
            }
            if a > b {
                return 1;
            }
            i = i + 1;
        }
        0
    }
}

/// An iterator over the kinds of a queue.
pub struct QueueIter {
    queue: Queue,
    index: usize,
}

impl QueueIter {
    /// The kinds that are yet to come.
    pub closed spec fn rest(self) -> Seq<u8> {
        if self.index <= self.queue@.len() {
            self.queue@.subrange(self.index as int, self.queue@.len() as int)
        } else {
            Seq::empty()
        }
    }

    /// The next kind, if one is left.
    pub fn next(&mut self) -> (k: Option<u8>)
        ensures
            old(self).rest().len() == 0 ==> k.is_none() && final(self).rest() == old(self).rest(),
            old(self).rest().len() > 0 ==> k == Some(old(self).rest()[0]) && final(self).rest() == old(
                self,
            ).rest().drop_first(),
    {
        if self.index >= self.queue.len() {
            return None;
        }
        let piece = self.queue.get(self.index);
        self.index = self.index + 1;
        assert(self.rest() =~= old(self).rest().drop_first());
        Some(piece)
    }
}

impl Queue {
    /// An iterator over the kinds, first kind first.
    pub fn iter(&self) -> (it: QueueIter)
        ensures
            it.rest() == self@,
    {
        let it = QueueIter { queue: *self, index: 0 };
        assert(it.rest() =~= self@);
        it
    }
}

} // verus!
