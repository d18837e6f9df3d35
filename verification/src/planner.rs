//! Planning with a table of perfect clears: the orders in which one hold slot
//! lets a queue be played, the pieces that a perfect clear can leave in hold,
//! and the most perfect clears that follow one another through a queue.

use crate::common::rotation::Rotation;
use crate::environment::Environment;
use crate::file::piece::{has_kind, kinds_below, lemma_kinds_below, lemma_kinds_listed};
use crate::finesse::Pair;
use crate::history::History;
use crate::queue::Queue;
use vstd::prelude::*;

verus! {

/// Each of the sequences with `first` put before it.
pub open spec fn each_after(first: u8, tails: Seq<Seq<u8>>) -> Seq<Seq<u8>> {
    Seq::new(tails.len(), |i: int| seq![first] + tails[i])
}

/// The orders in which the pieces of `q` can be played with one hold slot
/// that starts out empty: the first piece is played and the rest follows in
/// one of its orders, or the second piece is played and the first, with the
/// pieces after the second, follows in one of the orders of those.
pub open spec fn orders(q: Seq<u8>) -> Seq<Seq<u8>>
    decreases q.len(),
{
    if q.len() <= 1 {
        seq![q]
    } else {
        each_after(q[0], orders(q.drop_first())) + each_after(
            q[1],
            orders(seq![q[0]] + q.subrange(2, q.len() as int)),
        )
    }
}

/// Every order of a queue has the length of the queue.
pub proof fn lemma_orders_len(q: Seq<u8>)
    ensures
        forall|i: int| 0 <= i < orders(q).len() ==> (#[trigger] orders(q)[i]).len() == q.len(),
        orders(q).len() >= 1,
    decreases q.len(),
{
    if q.len() > 1 {
        lemma_orders_len(q.drop_first());
        lemma_orders_len(seq![q[0]] + q.subrange(2, q.len() as int));
    }
}

/// The views of the queues.
pub open spec fn queue_views(queues: Seq<Queue>) -> Seq<Seq<u8>> {
    Seq::new(queues.len(), |i: int| queues[i]@)
}

/// Appends to `out` each of `tails` with `first` put before it.
fn push_each_after(out: &mut Vec<Queue>, first: u8, tails: &Vec<Queue>)
    requires
        forall|i: int| 0 <= i < tails@.len() ==> (#[trigger] tails@[i])@.len() < 64,
    ensures
        queue_views(final(out)@) == queue_views(old(out)@) + each_after(first, queue_views(tails@)),
{
    let ghost before = queue_views(out@);
    let mut i: usize = 0;
    while i < tails.len()
        invariant
            i <= tails@.len(),
            forall|j: int| 0 <= j < tails@.len() ==> (#[trigger] tails@[j])@.len() < 64,
            queue_views(out@) == before + each_after(first, queue_views(tails@)).subrange(0, i as int),
        decreases tails@.len() - i,
    {
        let ghost sofar = queue_views(out@);
        let q = Queue::prepend(first, &tails[i]);
        out.push(q);
        proof {
            assert(queue_views(out@) =~= sofar.push(q@));
            assert(queue_views(tails@)[i as int] == tails@[i as int]@);
            assert(queue_views(out@) =~= before + each_after(first, queue_views(tails@)).subrange(
                0,
                i as int + 1,
            ));
        }
        i = i + 1;
    }
    assert(each_after(first, queue_views(tails@)).subrange(0, tails@.len() as int) =~= each_after(
        first,
        queue_views(tails@),
    ));
}

/// The orders in which the pieces of `queue` can be played with one hold
/// slot that starts out empty.
#[must_use]
pub fn get_queue_orders(queue: Queue) -> (results: Vec<Queue>)
    requires
        queue@.len() >= 1,
    ensures
        queue_views(results@) == orders(queue@),
    decreases queue@.len(),
{
    let mut results: Vec<Queue> = Vec::new();
    let n = queue.len();
    if n == 1 {
        let mut one = Queue::new();
        one.push(queue.get(0));
        results.push(one);
        assert(one@ =~= queue@);
        assert(queue_views(results@) =~= seq![queue@]);
        return results;
    }
    let rest = queue.slice(1, n);
    assert(rest@ =~= queue@.drop_first());
    let tails = get_queue_orders(rest);
    proof {
        lemma_orders_len(rest@);
        assert forall|i: int| 0 <= i < tails@.len() implies (#[trigger] tails@[i])@.len() < 64 by {
            assert(queue_views(tails@)[i] == tails@[i]@);
        }
    }
    push_each_after(&mut results, queue.get(0), &tails);
    let after = queue.slice(2, n);
    let held = Queue::prepend(queue.get(0), &after);
    proof {
        if n > 2 {
            assert(after@ =~= queue@.subrange(2, n as int));
        } else {
            assert(after@ =~= queue@.subrange(2, n as int));
        }
        assert(held@ =~= seq![queue@[0]] + queue@.subrange(2, n as int));
    }
    let tails = get_queue_orders(held);
    proof {
        lemma_orders_len(held@);
        assert forall|i: int| 0 <= i < tails@.len() implies (#[trigger] tails@[i])@.len() < 64 by {
            assert(queue_views(tails@)[i] == tails@[i]@);
        }
        assert(queue_views(Seq::<Queue>::empty()) =~= Seq::<Seq<u8>>::empty());
    }
    push_each_after(&mut results, queue.get(1), &tails);
    assert(queue_views(results@) =~= orders(queue@));
    results
}

/// A table of perfect clears: queues, each with the placements that clear
/// the board with it. No queue is in the table twice.
pub struct PcTable {
    entries: Vec<(Queue, History)>,
}

/// The placements by queue of the first `n` entries.
pub closed spec fn entries_map(entries: Seq<(Queue, History)>, n: int) -> Map<Seq<u8>, Seq<Pair>>
    decreases n,
{
    if n <= 0 {
        Map::empty()
    } else {
        entries_map(entries, n - 1).insert(entries[n - 1].0@, entries[n - 1].1@)
    }
}

/// Whether no queue is the key of two entries.
pub closed spec fn distinct_keys(entries: Seq<(Queue, History)>) -> bool {
    forall|i: int, j: int|
        0 <= i < j < entries.len() ==> (#[trigger] entries[i]).0@ != (#[trigger] entries[j]).0@
}

/// The map of entries with distinct keys holds each entry under its key and
/// nothing else.
proof fn lemma_entries_map(entries: Seq<(Queue, History)>, n: int)
    requires
        0 <= n <= entries.len(),
        distinct_keys(entries),
    ensures
        forall|i: int|
            0 <= i < n ==> entries_map(entries, n).contains_key((#[trigger] entries[i]).0@)
                && entries_map(entries, n)[entries[i].0@] == entries[i].1@,
        forall|q: Seq<u8>|
            entries_map(entries, n).contains_key(q) ==> exists|i: int|
                0 <= i < n && (#[trigger] entries[i]).0@ == q,
        entries_map(entries, n).dom().finite(),
        entries_map(entries, n).dom().len() == n,
    decreases n,
{
    if n > 0 {
        lemma_entries_map(entries, n - 1);
        let before = entries_map(entries, n - 1);
        let last = entries[n - 1];
        assert forall|i: int| 0 <= i < n implies entries_map(entries, n).contains_key(
            (#[trigger] entries[i]).0@,
        ) && entries_map(entries, n)[entries[i].0@] == entries[i].1@ by {
            if i < n - 1 {
                assert(entries[i].0@ != entries[n - 1].0@);
            }
        }
        assert forall|q: Seq<u8>| entries_map(entries, n).contains_key(q) implies exists|i: int|
            0 <= i < n && (#[trigger] entries[i]).0@ == q by {
            if q == last.0@ {
                assert(entries[n - 1].0@ == q);
            } else {
                assert(before.contains_key(q));
                let i = choose|i: int| 0 <= i < n - 1 && (#[trigger] entries[i]).0@ == q;
                assert(entries[i].0@ == q);
            }
        }
        if before.contains_key(last.0@) {
            let i = choose|i: int| 0 <= i < n - 1 && (#[trigger] entries[i]).0@ == last.0@;
            assert(entries[i].0@ != entries[n - 1].0@);
        }
        assert(entries_map(entries, n).dom() =~= before.dom().insert(last.0@));
    }
}

/// Entries beyond the first `n` do not matter to the map of the first `n`.
proof fn lemma_entries_map_agree(a: Seq<(Queue, History)>, b: Seq<(Queue, History)>, n: int)
    requires
        0 <= n <= a.len(),
        n <= b.len(),
        forall|i: int| 0 <= i < n ==> (#[trigger] a[i]).0@ == b[i].0@ && a[i].1@ == b[i].1@,
    ensures
        entries_map(a, n) == entries_map(b, n),
    decreases n,
{
    if n > 0 {
        lemma_entries_map_agree(a, b, n - 1);
        assert(a[n - 1].0@ == b[n - 1].0@);
    }
}

impl View for PcTable {
    type V = Map<Seq<u8>, Seq<Pair>>;

    /// The placements by queue.
    closed spec fn view(&self) -> Map<Seq<u8>, Seq<Pair>> {
        entries_map(self.entries@, self.entries@.len() as int)
    }
}

impl PcTable {
    /// Holds of every table that the library hands out: no queue twice.
    #[verifier::type_invariant]
    pub closed spec fn wf(self) -> bool {
        distinct_keys(self.entries@)
    }

    /// The length of the longest queue of the table.
    pub closed spec fn spec_longest(self) -> nat {
        longest_of(self.entries@, self.entries@.len() as int)
    }

    /// The table without entries.
    pub fn new() -> (t: PcTable)
        ensures
            t@ == Map::<Seq<u8>, Seq<Pair>>::empty(),
            t.wf(),
    {
        PcTable { entries: Vec::new() }
    }

    /// The number of entries.
    pub fn len(&self) -> (n: usize)
        ensures
            n == self@.dom().len(),
            self@.dom().finite(),
    {
        proof {
            use_type_invariant(self);
            lemma_entries_map(self.entries@, self.entries@.len() as int);
        }
        self.entries.len()
    }

    fn position(&self, queue: &Queue) -> (r: Option<usize>)
        ensures
            match r {
                Some(i) => i < self.entries@.len() && self.entries@[i as int].0@ == queue@
                    && self@.contains_key(queue@) && self@[queue@] == self.entries@[i as int].1@,
                None => !self@.contains_key(queue@) && forall|i: int|
                    0 <= i < self.entries@.len() ==> (#[trigger] self.entries@[i]).0@ != queue@,
            },
    {
        proof {
            use_type_invariant(self);
            lemma_entries_map(self.entries@, self.entries@.len() as int);
        }
        let mut i: usize = 0;
        while i < self.entries.len()
            invariant
                i <= self.entries@.len(),
                distinct_keys(self.entries@),
                forall|j: int| 0 <= j < i ==> (#[trigger] self.entries@[j]).0@ != queue@,
            decreases self.entries@.len() - i,
        {
            if self.entries[i].0.same(queue) {
                proof {
                    lemma_entries_map(self.entries@, self.entries@.len() as int);
                }
                return Some(i);
            }
            i = i + 1;
        }
        proof {
            if self@.contains_key(queue@) {
                let j = choose|j: int|
                    0 <= j < self.entries@.len() && (#[trigger] self.entries@[j]).0@ == queue@;
                assert(false);
            }
        }
        None
    }

    /// Whether the table has an entry for `queue`.
    pub fn contains_key(&self, queue: &Queue) -> (b: bool)
        ensures
            b == self@.contains_key(queue@),
    {
        self.position(queue).is_some()
    }

    /// The placements that the table has for `queue`.
    pub fn get(&self, queue: &Queue) -> (h: Option<&History>)
        ensures
            match h {
                Some(history) => self@.contains_key(queue@) && self@[queue@] == history@,
                None => !self@.contains_key(queue@),
            },
    {
        match self.position(queue) {
            Some(i) => Some(&self.entries[i].1),
            None => None,
        }
    }

    /// Stores `history` under `queue`, in place of an earlier entry for it.
    pub fn insert(&mut self, queue: Queue, history: History)
        ensures
            final(self)@ == old(self)@.insert(queue@, history@),
            final(self).wf(),
    {
        proof {
            use_type_invariant(&*self);
        }
        let ghost before = self.entries@;
        let ghost pairs = history@;
        let found = self.position(&queue);
        let mut entries: Vec<(Queue, History)> = Vec::new();
        std::mem::swap(&mut entries, &mut self.entries);
        match found {
            Some(i) => {
                entries[i] = (queue, history);
            },
            None => {
                entries.push((queue, history));
            },
        }
        proof {
            let n = before.len() as int;
            let m = entries@.len() as int;
            assert(distinct_keys(entries@)) by {
                assert forall|a: int, b: int| 0 <= a < b < m implies (#[trigger] entries@[a]).0@ != (
                #[trigger] entries@[b]).0@ by {
                    if a < n && b < n {
                        assert(before[a].0@ != before[b].0@);
                    } else {
                        assert(before[a].0@ != queue@);
                    }
                }
            }
            lemma_entries_map(before, n);
            lemma_entries_map(entries@, m);
            let old_map = entries_map(before, n);
            let new_map = entries_map(entries@, m);
            assert forall|q: Seq<u8>| new_map.contains_key(q) == old_map.insert(queue@, pairs).contains_key(
                q,
            ) by {
                if new_map.contains_key(q) {
                    let a = choose|a: int| 0 <= a < m && (#[trigger] entries@[a]).0@ == q;
                    if q != queue@ {
                        assert(before[a].0@ == q);
                    }
                }
                if old_map.contains_key(q) {
                    let a = choose|a: int| 0 <= a < n && (#[trigger] before[a]).0@ == q;
                    assert(entries@[a].0@ == q);
                }
                if q == queue@ {
                    match found {
                        Some(i) => {
                            assert(entries@[i as int].0@ == q);
                        },
                        None => {
                            assert(entries@[m - 1].0@ == q);
                        },
                    }
                }
            }
            assert forall|q: Seq<u8>| new_map.contains_key(q) implies new_map[q] == old_map.insert(
                queue@,
                pairs,
            )[q] by {
                let a = choose|a: int| 0 <= a < m && (#[trigger] entries@[a]).0@ == q;
                if q != queue@ {
                    assert(before[a].0@ == q);
                    assert(before[a].1@ == entries@[a].1@);
                } else {
                    match found {
                        Some(i) => {
                            assert(entries@[i as int].0@ == q);
                        },
                        None => {
                            assert(entries@[m - 1].0@ == q);
                        },
                    }
                }
            }
            assert(new_map =~= old_map.insert(queue@, pairs));
        }
        self.entries = entries;
    }

    /// The length of the longest queue in the table; 0 for the empty table.
    pub fn longest(&self) -> (n: usize)
        ensures
            n == self.spec_longest(),
            n <= 64,
    {
        let mut n: usize = 0;
        let mut i: usize = 0;
        while i < self.entries.len()
            invariant
                i <= self.entries@.len(),
                n == longest_of(self.entries@, i as int),
                n <= 64,
            decreases self.entries@.len() - i,
        {
            let l = self.entries[i].0.len();
            if l > n {
                n = l;
            }
            i = i + 1;
        }
        n
    }
}

/// The length of the longest queue among the first `n` entries.
pub closed spec fn longest_of(entries: Seq<(Queue, History)>, n: int) -> nat
    decreases n,
{
    if n <= 0 {
        0
    } else {
        let rest = longest_of(entries, n - 1);
        if entries[n - 1].0@.len() > rest {
            entries[n - 1].0@.len()
        } else {
            rest
        }
    }
}

/// What the first `n` orders leave in the table of saves: an order whose
/// pieces but the last clear the board saves its last piece, and an order
/// that clears the board itself saves nothing, which is noted under 255.
/// Later orders overwrite earlier ones.
pub open spec fn saves_of(
    orders: Seq<Seq<u8>>,
    pcs: Map<Seq<u8>, Seq<Pair>>,
    n: int,
) -> Map<u8, Seq<u8>>
    decreases n,
{
    if n <= 0 {
        Map::empty()
    } else {
        let qo = orders[n - 1];
        let before = saves_of(orders, pcs, n - 1);
        if qo.len() == 0 {
            before
        } else {
            let with_prefix = if pcs.contains_key(qo.drop_last()) {
                before.insert(qo.last(), qo.drop_last())
            } else {
                before
            };
            if pcs.contains_key(qo) {
                with_prefix.insert(255u8, qo)
            } else {
                with_prefix
            }
        }
    }
}

/// The saves as a map.
pub open spec fn slots_map(slots: Seq<Option<Queue>>) -> Map<u8, Seq<u8>> {
    Map::new(
        |k: u8| (k as int) < slots.len() && slots[k as int].is_some(),
        |k: u8| slots[k as int].unwrap()@,
    )
}

/// The pieces that can be left in hold after a perfect clear with the pieces
/// of `queue`, played in one of the orders that one hold slot allows, each
/// with the queue that clears the board; 255 stands for no piece left. The
/// result has 256 slots, one for each piece.
#[must_use]
pub fn get_pc_saves(queue: Queue, pcs: &PcTable) -> (saves: Vec<Option<Queue>>)
    requires
        queue@.len() >= 1,
    ensures
        saves@.len() == 256,
        slots_map(saves@) == saves_of(orders(queue@), pcs@, orders(queue@).len() as int),
{
    let mut saves: Vec<Option<Queue>> = Vec::new();
    let mut k: usize = 0;
    while k < 256
        invariant
            k <= 256,
            saves@.len() == k,
            forall|j: int| 0 <= j < k ==> (#[trigger] saves@[j]).is_none(),
        decreases 256 - k,
    {
        saves.push(None);
        k = k + 1;
    }
    let all = get_queue_orders(queue);
    let ghost ords = orders(queue@);
    assert(slots_map(saves@) =~= Map::<u8, Seq<u8>>::empty());
    let mut i: usize = 0;
    while i < all.len()
        invariant
            i <= all@.len(),
            queue_views(all@) == ords,
            saves@.len() == 256,
            slots_map(saves@) == saves_of(ords, pcs@, i as int),
        decreases all@.len() - i,
    {
        let qo = all[i];
        let len = qo.len();
        assert(queue_views(all@)[i as int] == qo@);
        if len > 0 {
            let prefix = qo.slice(0, len - 1);
            assert(prefix@ =~= qo@.drop_last());
            if pcs.contains_key(&prefix) {
                let ghost before = slots_map(saves@);
                let last = qo.get(len - 1);
                saves[last as usize] = Some(prefix);
                assert(slots_map(saves@) =~= before.insert(last, prefix@));
            }
            if pcs.contains_key(&qo) {
                let ghost before = slots_map(saves@);
                saves[255] = Some(qo);
                assert(slots_map(saves@) =~= before.insert(255u8, qo@));
            }
        }
        i = i + 1;
    }
    assert(queue_views(all@).len() == all@.len());
    saves
}

/// Every save names a queue of the table.
pub proof fn lemma_saves_in_table(orders: Seq<Seq<u8>>, pcs: Map<Seq<u8>, Seq<Pair>>, n: int)
    ensures
        forall|k: u8|
            saves_of(orders, pcs, n).contains_key(k) ==> pcs.contains_key(
                #[trigger] saves_of(orders, pcs, n)[k],
            ),
    decreases n,
{
    if n > 0 {
        lemma_saves_in_table(orders, pcs, n - 1);
        let before = saves_of(orders, pcs, n - 1);
        let after = saves_of(orders, pcs, n);
        let qo = orders[n - 1];
        assert forall|k: u8| after.contains_key(k) implies pcs.contains_key(#[trigger] after[k]) by {
            if before.contains_key(k) {
                assert(pcs.contains_key(before[k]));
            }
        }
    }
}

/// The piece in hold when play starts: the first piece of the queue.
pub open spec fn first_hold(q: Seq<u8>) -> u8 {
    if q.len() > 0 {
        q[0]
    } else {
        0
    }
}

/// Whether `h` can be in hold: a kind that has a shape, or 255 for nothing.
pub open spec fn is_hold(env: Environment, h: u8) -> bool {
    h == 255 || has_kind(env.state.bag.shapes@, h)
}

/// The piece in hold followed by the pieces of the queue from place `i` up
/// to, not including, place `j`.
pub open spec fn segment(q: Seq<u8>, hold: u8, i: int, j: int) -> Seq<u8> {
    seq![hold] + q.subrange(i, j)
}

/// The saves of a segment.
pub open spec fn segment_saves(
    q: Seq<u8>,
    pcs: Map<Seq<u8>, Seq<Pair>>,
    hold: u8,
    i: int,
    j: int,
) -> Map<u8, Seq<u8>> {
    saves_of(orders(segment(q, hold, i, j)), pcs, orders(segment(q, hold, i, j)).len() as int)
}

/// Whether one perfect clear leads from the state `from` to the state `to`.
/// A state is a place in the queue and the piece in hold. The clear uses the
/// piece in hold and the pieces from `from` up to `to`, at most `longest` of
/// them, and leaves the piece of `to` in hold.
pub open spec fn pc_step(
    env: Environment,
    q: Seq<u8>,
    pcs: Map<Seq<u8>, Seq<Pair>>,
    longest: int,
    from: (int, u8),
    to: (int, u8),
) -> bool {
    &&& 1 <= from.0 < to.0 <= q.len()
    &&& to.0 - from.0 <= longest
    &&& is_hold(env, from.1)
    &&& segment_saves(q, pcs, from.1, from.0, to.0).contains_key(to.1)
}

/// Whether the states are a chain of perfect clears through the queue: the
/// first state is place 1 with the first piece in hold, and one perfect clear
/// leads from each state to the next.
pub open spec fn pc_chain(
    env: Environment,
    q: Seq<u8>,
    pcs: Map<Seq<u8>, Seq<Pair>>,
    longest: int,
    chain: Seq<(int, u8)>,
) -> bool {
    &&& chain.len() >= 1
    &&& chain[0] == (1int, first_hold(q))
    &&& forall|k: int|
        0 <= k < chain.len() - 1 ==> pc_step(env, q, pcs, longest, #[trigger] chain[k], chain[k + 1])
}

/// The queue that clears the board on step `k` of the chain.
pub open spec fn chain_queue(
    q: Seq<u8>,
    pcs: Map<Seq<u8>, Seq<Pair>>,
    chain: Seq<(int, u8)>,
    k: int,
) -> Seq<u8> {
    segment_saves(q, pcs, chain[k].1, chain[k].0, chain[k + 1].0)[chain[k + 1].1]
}

/// Whether the first `n` histories are the placements that the table has for
/// the queues of the steps of the chain, in their order.
pub open spec fn chain_histories(
    q: Seq<u8>,
    pcs: Map<Seq<u8>, Seq<Pair>>,
    chain: Seq<(int, u8)>,
    histories: Seq<History>,
    n: int,
) -> bool {
    forall|k: int|
        0 <= k < n ==> history_fits(q, pcs, chain, k, #[trigger] histories[k])
}

/// Whether `h` holds the placements that the table has for the queue of step
/// `k` of the chain.
pub open spec fn history_fits(
    q: Seq<u8>,
    pcs: Map<Seq<u8>, Seq<Pair>>,
    chain: Seq<(int, u8)>,
    k: int,
    h: History,
) -> bool {
    pcs.contains_key(chain_queue(q, pcs, chain, k)) && h@ == pcs[chain_queue(q, pcs, chain, k)]
}

/// One more history that belongs to the next step keeps the histories in
/// line with the chain.
proof fn lemma_chain_histories_push(
    q: Seq<u8>,
    pcs: Map<Seq<u8>, Seq<Pair>>,
    chain: Seq<(int, u8)>,
    histories: Seq<History>,
    h: History,
)
    requires
        chain_histories(q, pcs, chain, histories, histories.len() as int),
        pcs.contains_key(chain_queue(q, pcs, chain, histories.len() as int)),
        h@ == pcs[chain_queue(q, pcs, chain, histories.len() as int)],
    ensures
        chain_histories(q, pcs, chain, histories.push(h), histories.len() as int + 1),
{
    let more = histories.push(h);
    assert forall|k: int| 0 <= k < histories.len() + 1 implies history_fits(
        q,
        pcs,
        chain,
        k,
        #[trigger] more[k],
    ) by {
        if k < histories.len() {
            assert(more[k] == histories[k]);
            assert(history_fits(q, pcs, chain, k, histories[k]));
        }
    }
}

/// What the planner knows of a state: the most perfect clears that lead to
/// it, the state before it on such a way, and the queue of the last clear.
#[derive(Clone, Copy)]
pub struct Plan {
    pub score: usize,
    pub first: bool,
    pub prev_place: usize,
    pub prev_hold: u8,
    pub via: Queue,
}

spec fn slot(place: int, hold: u8) -> int {
    place * 256 + hold
}

/// Whether the plan of the state `(j, s)` is in order: the first state has
/// score 0, and any other state has a plan for the state before it, one clear
/// less, and the step between the two is a perfect clear with the queue noted.
spec fn plan_ok(
    env: Environment,
    q: Seq<u8>,
    pcs: Map<Seq<u8>, Seq<Pair>>,
    longest: int,
    table: Seq<Option<Plan>>,
    j: int,
    s: u8,
) -> bool {
    match table[slot(j, s)] {
        None => true,
        Some(plan) => if plan.first {
            plan.score == 0 && j == 1 && s == first_hold(q)
        } else {
            &&& 1 <= plan.prev_place < j
            &&& table[slot(plan.prev_place as int, plan.prev_hold)] matches Some(before)
            &&& before.score + 1 == plan.score
            &&& plan.score <= j
            &&& pc_step(env, q, pcs, longest, (plan.prev_place as int, plan.prev_hold), (j, s))
            &&& plan.via@ == segment_saves(q, pcs, plan.prev_hold, plan.prev_place as int, j)[s]
        },
    }
}

spec fn table_ok(
    env: Environment,
    q: Seq<u8>,
    pcs: Map<Seq<u8>, Seq<Pair>>,
    longest: int,
    table: Seq<Option<Plan>>,
) -> bool {
    &&& table.len() == (q.len() + 1) * 256
    &&& forall|s: u8| (#[trigger] table[slot(0, s)]).is_none()
    &&& table[slot(1, first_hold(q))] matches Some(plan) && plan.first
    &&& forall|j: int, s: u8|
        1 <= j <= q.len() ==> #[trigger] plan_ok(env, q, pcs, longest, table, j, s)
}

/// Whether the step from `(i, h)` to `(j, s)`, if it is a perfect clear from
/// a state with a plan, has been taken into the plan of `(j, s)`.
spec fn relaxed(
    env: Environment,
    q: Seq<u8>,
    pcs: Map<Seq<u8>, Seq<Pair>>,
    longest: int,
    table: Seq<Option<Plan>>,
    i: int,
    h: u8,
    j: int,
    s: u8,
) -> bool {
    (table[slot(i, h)].is_some() && pc_step(env, q, pcs, longest, (i, h), (j, s))) ==> (table[slot(
        j,
        s,
    )].is_some() && table[slot(j, s)].unwrap().score >= table[slot(i, h)].unwrap().score + 1)
}

/// Every chain ends in a state whose plan counts at least the clears of the
/// chain, once every step has been taken into the plans.
proof fn lemma_chain_bound(
    env: Environment,
    q: Seq<u8>,
    pcs: Map<Seq<u8>, Seq<Pair>>,
    longest: int,
    table: Seq<Option<Plan>>,
    chain: Seq<(int, u8)>,
)
    requires
        table_ok(env, q, pcs, longest, table),
        pc_chain(env, q, pcs, longest, chain),
        forall|i: int, h: u8, j: int, s: u8|
            1 <= i < q.len() ==> #[trigger] relaxed(env, q, pcs, longest, table, i, h, j, s),
    ensures
        1 <= chain.last().0 <= q.len() || chain.len() == 1,
        table[slot(chain.last().0, chain.last().1)] matches Some(plan) && plan.score >= chain.len() - 1,
    decreases chain.len(),
{
    if chain.len() > 1 {
        let front = chain.drop_last();
        assert forall|k: int| 0 <= k < front.len() - 1 implies pc_step(
            env,
            q,
            pcs,
            longest,
            #[trigger] front[k],
            front[k + 1],
        ) by {
            assert(pc_step(env, q, pcs, longest, chain[k], chain[k + 1]));
        }
        lemma_chain_bound(env, q, pcs, longest, table, front);
        let from = chain[chain.len() - 2];
        let to = chain[chain.len() - 1];
        assert(pc_step(env, q, pcs, longest, from, to));
        assert(front.last() == from);
        assert(relaxed(env, q, pcs, longest, table, from.0, from.1, to.0, to.1));
    }
}

/// The way to a state with a plan, as a chain.
proof fn lemma_plan_chain(
    env: Environment,
    q: Seq<u8>,
    pcs: Map<Seq<u8>, Seq<Pair>>,
    longest: int,
    table: Seq<Option<Plan>>,
    j: int,
    s: u8,
) -> (chain: Seq<(int, u8)>)
    requires
        table_ok(env, q, pcs, longest, table),
        1 <= j <= q.len(),
        table[slot(j, s)].is_some(),
    ensures
        pc_chain(env, q, pcs, longest, chain),
        chain.len() == table[slot(j, s)].unwrap().score + 1,
        chain.last() == (j, s),
        forall|k: int|
            0 <= k < chain.len() ==> 1 <= (#[trigger] chain[k]).0 <= q.len() && table[slot(
                chain[k].0,
                chain[k].1,
            )].is_some() && table[slot(chain[k].0, chain[k].1)].unwrap().score == k,
        forall|k: int|
            0 < k < chain.len() ==> !table[slot((#[trigger] chain[k]).0, chain[k].1)].unwrap().first
                && table[slot(chain[k].0, chain[k].1)].unwrap().prev_place == chain[k - 1].0
                && table[slot(chain[k].0, chain[k].1)].unwrap().prev_hold == chain[k - 1].1,
    decreases j,
{
    let plan = table[slot(j, s)].unwrap();
    assert(plan_ok(env, q, pcs, longest, table, j, s));
    if plan.first {
        seq![(j, s)]
    } else {
        let before = lemma_plan_chain(
            env,
            q,
            pcs,
            longest,
            table,
            plan.prev_place as int,
            plan.prev_hold,
        );
        let chain = before.push((j, s));
        assert forall|k: int| 0 <= k < chain.len() - 1 implies pc_step(
            env,
            q,
            pcs,
            longest,
            #[trigger] chain[k],
            chain[k + 1],
        ) by {
            if k < before.len() - 1 {
                assert(pc_step(env, q, pcs, longest, before[k], before[k + 1]));
            }
        }
        chain
    }
}

/// Takes the perfect clears that start in the state `(i, hold)` into the
/// plans of the states they lead to.
fn relax_state(
    table: &mut Vec<Option<Plan>>,
    queue: &Queue,
    env: &Environment,
    pcs: &PcTable,
    i: usize,
    hold: u8,
    maxn: usize,
)
    requires
        1 <= i < queue@.len(),
        maxn == pcs.spec_longest(),
        is_hold(*env, hold),
        table_ok(*env, queue@, pcs@, maxn as int, old(table)@),
        forall|j: int, s: u8|
            1 <= j <= queue@.len() ==> (#[trigger] old(table)@[slot(j, s)] matches Some(plan) ==> plan.first
                || plan.prev_place <= i),
    ensures
        table_ok(*env, queue@, pcs@, maxn as int, final(table)@),
        forall|j: int, s: u8|
            1 <= j <= queue@.len() ==> (#[trigger] final(table)@[slot(j, s)] matches Some(plan)
                ==> plan.first || plan.prev_place <= i),
        forall|j: int, s: u8| 0 <= j <= i ==> #[trigger] final(table)@[slot(j, s)] == old(table)@[slot(j, s)],
        forall|j: int, s: u8|
            0 <= j <= queue@.len() && (#[trigger] old(table)@[slot(j, s)]).is_some() ==> final(table)@[slot(j, s)].is_some() && final(table)@[slot(j, s)].unwrap().score >= old(table)@[slot(
                j,
                s,
            )].unwrap().score,
        forall|j: int, s: u8|
            #[trigger] relaxed(*env, queue@, pcs@, maxn as int, final(table)@, i as int, hold, j, s),
{
    let l = queue.len();
    let here = match table[i * 256 + hold as usize] {
        Some(plan) => plan,
        None => {
            return ;
        },
    };
    let ghost start = table@;
    let ghost q = queue@;
    let limit = if l - i < maxn {
        l - i
    } else {
        maxn
    };
    assert(plan_ok(*env, q, pcs@, maxn as int, start, i as int, hold));
    let mut pu: usize = 1;
    while pu <= limit
        invariant
            1 <= i < l,
            l == q.len(),
            l <= 64,
            q == queue@,
            1 <= pu <= limit + 1,
            limit <= l - i,
            limit == (if l - i < maxn { (l - i) as int } else { maxn as int }),
            maxn == pcs.spec_longest(),
            is_hold(*env, hold),
            start[slot(i as int, hold)] == Some(here),
            here.score <= i,
            table_ok(*env, q, pcs@, maxn as int, table@),
            forall|j: int, s: u8|
                1 <= j <= l ==> (#[trigger] table@[slot(j, s)] matches Some(plan) ==> plan.first
                    || plan.prev_place <= i),
            forall|j: int, s: u8| 0 <= j <= i ==> #[trigger] table@[slot(j, s)] == start[slot(j, s)],
            forall|j: int, s: u8|
                0 <= j <= l && (#[trigger] start[slot(j, s)]).is_some() ==> table@[slot(j, s)].is_some()
                    && table@[slot(j, s)].unwrap().score >= start[slot(j, s)].unwrap().score,
            forall|j: int, s: u8|
                j < i + pu ==> #[trigger] relaxed(*env, q, pcs@, maxn as int, table@, i as int, hold, j, s),
        decreases limit + 1 - pu,
    {
        let mut pcq = Queue::new();
        pcq.push(hold);
        let part = queue.slice(i, i + pu);
        assert(part@ =~= q.subrange(i as int, i + pu));
        pcq.extend(&part);
        assert(pcq@ =~= segment(q, hold, i as int, i + pu));
        let saves = get_pc_saves(pcq, pcs);
        let ghost found = segment_saves(q, pcs@, hold, i as int, i + pu);
        let j = i + pu;
        let mut s: usize = 0;
        while s < 256
            invariant
                1 <= i < l,
                l == q.len(),
                l <= 64,
                j == i + pu,
                1 <= pu <= limit,
                limit <= l - i,
                limit <= maxn,
                s <= 256,
                is_hold(*env, hold),
                saves@.len() == 256,
                slots_map(saves@) == found,
                found == segment_saves(q, pcs@, hold, i as int, j as int),
                start[slot(i as int, hold)] == Some(here),
                here.score <= i,
                table_ok(*env, q, pcs@, maxn as int, table@),
                forall|j2: int, s2: u8|
                    1 <= j2 <= l ==> (#[trigger] table@[slot(j2, s2)] matches Some(plan) ==> plan.first
                        || plan.prev_place <= i),
                forall|j2: int, s2: u8|
                    0 <= j2 <= i ==> #[trigger] table@[slot(j2, s2)] == start[slot(j2, s2)],
                forall|j2: int, s2: u8|
                    0 <= j2 <= l && (#[trigger] start[slot(j2, s2)]).is_some() ==> table@[slot(
                        j2,
                        s2,
                    )].is_some() && table@[slot(j2, s2)].unwrap().score >= start[slot(
                        j2,
                        s2,
                    )].unwrap().score,
                forall|j2: int, s2: u8|
                    j2 < j ==> #[trigger] relaxed(
                        *env,
                        q,
                        pcs@,
                        maxn as int,
                        table@,
                        i as int,
                        hold,
                        j2,
                        s2,
                    ),
                forall|s2: u8|
                    s2 < s ==> #[trigger] relaxed(
                        *env,
                        q,
                        pcs@,
                        maxn as int,
                        table@,
                        i as int,
                        hold,
                        j as int,
                        s2,
                    ),
            decreases 256 - s,
        {
            let ghost prior = table@;
            let save = s as u8;
            match saves[s] {
                Some(via) => {
                    assert(found.contains_key(save) && found[save] == via@);
                    let at = j * 256 + s;
                    let better = match table[at] {
                        Some(plan) => here.score + 1 > plan.score,
                        None => true,
                    };
                    if better {
                        table[at] = Some(
                            Plan {
                                score: here.score + 1,
                                first: false,
                                prev_place: i,
                                prev_hold: hold,
                                via,
                            },
                        );
                        proof {
                            assert(table@[slot(i as int, hold)] == Some(here));
                            assert forall|j2: int, s2: u8| 1 <= j2 <= l implies #[trigger] plan_ok(
                                *env,
                                q,
                                pcs@,
                                maxn as int,
                                table@,
                                j2,
                                s2,
                            ) by {
                                assert(plan_ok(*env, q, pcs@, maxn as int, prior, j2, s2));
                                if slot(j2, s2) != at {
                                    assert(table@[slot(j2, s2)] == prior[slot(j2, s2)]);
                                    match prior[slot(j2, s2)] {
                                        Some(plan) => {
                                            if !plan.first {
                                                assert(plan.prev_place <= i);
                                                assert(slot(plan.prev_place as int, plan.prev_hold)
                                                    != at);
                                            }
                                        },
                                        None => {},
                                    }
                                }
                            }
                            assert forall|s2: u8| (#[trigger] table@[slot(0, s2)]).is_none() by {
                                assert(prior[slot(0, s2)].is_none());
                            }
                            assert(table_ok(*env, q, pcs@, maxn as int, table@));
                        }
                    }
                },
                None => {
                    assert(!found.contains_key(save));
                },
            }
            proof {
                assert forall|j2: int, s2: u8| j2 < j implies #[trigger] relaxed(
                    *env,
                    q,
                    pcs@,
                    maxn as int,
                    table@,
                    i as int,
                    hold,
                    j2,
                    s2,
                ) by {
                    assert(relaxed(*env, q, pcs@, maxn as int, prior, i as int, hold, j2, s2));
                }
                assert forall|s2: u8| s2 < s + 1 implies #[trigger] relaxed(
                    *env,
                    q,
                    pcs@,
                    maxn as int,
                    table@,
                    i as int,
                    hold,
                    j as int,
                    s2,
                ) by {
                    if s2 < s {
                        assert(relaxed(*env, q, pcs@, maxn as int, prior, i as int, hold, j as int, s2));
                    }
                }
            }
            s = s + 1;
        }
        pu = pu + 1;
    }
    proof {
        assert forall|j: int, s: u8| #[trigger] relaxed(
            *env,
            q,
            pcs@,
            maxn as int,
            table@,
            i as int,
            hold,
            j,
            s,
        ) by {
            if j >= i + pu {
                assert(!pc_step(*env, q, pcs@, maxn as int, (i as int, hold), (j, s)));
            }
        }
    }
}

/// The most perfect clears that can follow one another through `queue`,
/// played with one hold slot, and the placements of each of them in their
/// order. Play starts with the first piece of the queue in hold. Each clear
/// uses the piece in hold and the next pieces of the queue, in one of the
/// orders that the hold slot allows, and leaves one piece in hold or none.
#[must_use]
pub fn max_pcs_in_queue(queue: Queue, env: &Environment, pcs: &PcTable) -> (r: (usize, Vec<History>))
    ensures
        exists|chain: Seq<(int, u8)>|
            #[trigger] pc_chain(*env, queue@, pcs@, pcs.spec_longest() as int, chain) && chain.len()
                == r.0 + 1 && r.1@.len() == r.0 && chain_histories(
                queue@,
                pcs@,
                chain,
                r.1@,
                r.0 as int,
            ),
        forall|chain: Seq<(int, u8)>|
            #[trigger] pc_chain(*env, queue@, pcs@, pcs.spec_longest() as int, chain) ==> chain.len()
                <= r.0 + 1,
{
    let l = queue.len();
    let maxn = pcs.longest();
    let ghost q = queue@;
    let ghost longest = maxn as int;
    if l == 0 {
        let none: Vec<History> = Vec::new();
        proof {
            let chain = seq![(1int, first_hold(q))];
            assert(pc_chain(*env, q, pcs@, longest, chain) && chain.len() == 1 && none@.len() == 0
                && chain_histories(q, pcs@, chain, none@, 0));
            assert forall|chain: Seq<(int, u8)>| #[trigger]
                pc_chain(*env, q, pcs@, longest, chain) implies chain.len() <= 1 by {
                if chain.len() > 1 {
                    assert(pc_step(*env, q, pcs@, longest, chain[0], chain[1]));
                }
            }
        }
        return (0, none);
    }
    let mut holds = env.state.bag.pieces();
    holds.push(255);
    let size = (l + 1) * 256;
    let mut table: Vec<Option<Plan>> = Vec::new();
    let mut k: usize = 0;
    while k < size
        invariant
            k <= size,
            table@.len() == k,
            forall|x: int| 0 <= x < k ==> (#[trigger] table@[x]).is_none(),
        decreases size - k,
    {
        table.push(None);
        k = k + 1;
    }
    let first = queue.get(0);
    table[256 + first as usize] = Some(
        Plan { score: 0, first: true, prev_place: 0, prev_hold: 0, via: Queue::new() },
    );
    proof {
        assert forall|j: int, s: u8| 1 <= j <= l implies #[trigger] plan_ok(
            *env,
            q,
            pcs@,
            longest,
            table@,
            j,
            s,
        ) by {
            if slot(j, s) != slot(1, first) {
                assert(table@[slot(j, s)].is_none());
            }
        }
        assert forall|s: u8| (#[trigger] table@[slot(0, s)]).is_none() by {}
    }
    let mut i: usize = 1;
    while i < l
        invariant
            1 <= i <= l,
            l == q.len(),
            q == queue@,
            l <= 64,
            longest == maxn,
            maxn == pcs.spec_longest(),
            holds@ == kinds_below(env.state.bag.shapes@, 1024).push(255u8),
            table_ok(*env, q, pcs@, longest, table@),
            forall|j: int, s: u8|
                1 <= j <= l ==> (#[trigger] table@[slot(j, s)] matches Some(plan) ==> plan.first
                    || plan.prev_place < i),
            forall|i2: int, h: u8, j: int, s: u8|
                1 <= i2 < i ==> #[trigger] relaxed(*env, q, pcs@, longest, table@, i2, h, j, s),
        decreases l - i,
    {
        let mut hi: usize = 0;
        while hi < holds.len()
            invariant
                1 <= i < l,
                l == q.len(),
                q == queue@,
                l <= 64,
                hi <= holds@.len(),
                longest == maxn,
                maxn == pcs.spec_longest(),
                holds@ == kinds_below(env.state.bag.shapes@, 1024).push(255u8),
                table_ok(*env, q, pcs@, longest, table@),
                forall|j: int, s: u8|
                    1 <= j <= l ==> (#[trigger] table@[slot(j, s)] matches Some(plan) ==> plan.first
                        || plan.prev_place <= i),
                forall|i2: int, h: u8, j: int, s: u8|
                    1 <= i2 < i ==> #[trigger] relaxed(*env, q, pcs@, longest, table@, i2, h, j, s),
                forall|x: int, j: int, s: u8|
                    0 <= x < hi ==> #[trigger] relaxed(
                        *env,
                        q,
                        pcs@,
                        longest,
                        table@,
                        i as int,
                        holds@[x],
                        j,
                        s,
                    ),
            decreases holds@.len() - hi,
        {
            let hold = holds[hi];
            let ghost prior = table@;
            proof {
                if hi < holds@.len() - 1 {
                    lemma_kinds_below(env.state.bag.shapes@, 1024);
                    assert(holds@[hi as int] == kinds_below(env.state.bag.shapes@, 1024)[hi as int]);
                }
            }
            relax_state(&mut table, &queue, env, pcs, i, hold, maxn);
            proof {
                assert forall|i2: int, h: u8, j: int, s: u8| 1 <= i2 < i implies #[trigger] relaxed(
                    *env,
                    q,
                    pcs@,
                    longest,
                    table@,
                    i2,
                    h,
                    j,
                    s,
                ) by {
                    assert(relaxed(*env, q, pcs@, longest, prior, i2, h, j, s));
                    assert(table@[slot(i2, h)] == prior[slot(i2, h)]);
                }
                assert forall|x: int, j: int, s: u8| 0 <= x < hi + 1 implies #[trigger] relaxed(
                    *env,
                    q,
                    pcs@,
                    longest,
                    table@,
                    i as int,
                    holds@[x],
                    j,
                    s,
                ) by {
                    if x < hi {
                        assert(relaxed(*env, q, pcs@, longest, prior, i as int, holds@[x], j, s));
                        assert(table@[slot(i as int, holds@[x])] == prior[slot(i as int, holds@[x])]);
                    }
                }
            }
            hi = hi + 1;
        }
        proof {
            assert forall|i2: int, h: u8, j: int, s: u8| 1 <= i2 < i + 1 implies #[trigger] relaxed(
                *env,
                q,
                pcs@,
                longest,
                table@,
                i2,
                h,
                j,
                s,
            ) by {
                if i2 == i && is_hold(*env, h) {
                    if h == 255 {
                        assert(holds@[holds@.len() - 1] == h);
                    } else {
                        let r = choose|r: Rotation| env.state.bag.shapes@.contains_key((h, r));
                        lemma_kinds_listed(env.state.bag.shapes@, h, r, 1024);
                        let list = kinds_below(env.state.bag.shapes@, 1024);
                        let x = choose|x: int| 0 <= x < list.len() && list[x] == h;
                        assert(holds@[x] == h);
                    }
                }
            }
        }
        i = i + 1;
    }
    let mut best: usize = 0;
    let mut best_place: usize = 1;
    let mut best_hold: u8 = first;
    let mut j: usize = 1;
    assert(plan_ok(*env, q, pcs@, longest, table@, 1, first));
    while j <= l
        invariant
            1 <= j <= l + 1,
            l == q.len(),
            l <= 64,
            table@.len() == (l + 1) * 256,
            1 <= best_place <= l,
            table@[slot(best_place as int, best_hold)].is_some(),
            table@[slot(best_place as int, best_hold)].unwrap().score == best,
            forall|j2: int, s2: u8|
                1 <= j2 < j && (#[trigger] table@[slot(j2, s2)]).is_some() ==> table@[slot(
                    j2,
                    s2,
                )].unwrap().score <= best,
        decreases l + 1 - j,
    {
        let mut s: usize = 0;
        while s < 256
            invariant
                1 <= j <= l,
                l == q.len(),
                l <= 64,
                s <= 256,
                table@.len() == (l + 1) * 256,
                1 <= best_place <= l,
                table@[slot(best_place as int, best_hold)].is_some(),
                table@[slot(best_place as int, best_hold)].unwrap().score == best,
                forall|j2: int, s2: u8|
                    1 <= j2 < j && (#[trigger] table@[slot(j2, s2)]).is_some() ==> table@[slot(
                        j2,
                        s2,
                    )].unwrap().score <= best,
                forall|s2: u8|
                    s2 < s && (#[trigger] table@[slot(j as int, s2)]).is_some() ==> table@[slot(
                        j as int,
                        s2,
                    )].unwrap().score <= best,
            decreases 256 - s,
        {
            match table[j * 256 + s] {
                Some(plan) => {
                    if plan.score > best {
                        best = plan.score;
                        best_place = j;
                        best_hold = s as u8;
                    }
                },
                None => {},
            }
            s = s + 1;
        }
        j = j + 1;
    }
    let ghost chain = lemma_plan_chain(*env, q, pcs@, longest, table@, best_place as int, best_hold);
    proof {
        assert forall|other: Seq<(int, u8)>| #[trigger]
            pc_chain(*env, q, pcs@, longest, other) implies other.len() <= best + 1 by {
            lemma_chain_bound(*env, q, pcs@, longest, table@, other);
            if other.len() > 1 {
                assert(pc_step(
                    *env,
                    q,
                    pcs@,
                    longest,
                    other[other.len() - 2],
                    other[other.len() - 1],
                ));
            }
        }
    }
    let mut rev: Vec<Queue> = Vec::new();
    let mut place = best_place;
    let mut hold = best_hold;
    let mut at: usize = best;
    while at > 0
        invariant
            at <= best,
            chain.len() == best + 1,
            l == q.len(),
            l <= 64,
            table@.len() == (l + 1) * 256,
            (place as int, hold) == chain[at as int],
            rev@.len() == best - at,
            pc_chain(*env, q, pcs@, longest, chain),
            table_ok(*env, q, pcs@, longest, table@),
            forall|k: int|
                0 <= k < chain.len() ==> 1 <= (#[trigger] chain[k]).0 <= q.len() && table@[slot(
                    chain[k].0,
                    chain[k].1,
                )].is_some() && table@[slot(chain[k].0, chain[k].1)].unwrap().score == k,
            forall|k: int|
                0 < k < chain.len() ==> !table@[slot((#[trigger] chain[k]).0, chain[k].1)].unwrap().first
                    && table@[slot(chain[k].0, chain[k].1)].unwrap().prev_place == chain[k - 1].0
                    && table@[slot(chain[k].0, chain[k].1)].unwrap().prev_hold == chain[k - 1].1,
            forall|t: int|
                0 <= t < rev@.len() ==> (#[trigger] rev@[t])@ == chain_queue(q, pcs@, chain, best - 1 - t),
        decreases at,
    {
        assert(1 <= chain[at as int].0 <= q.len());
        let plan = table[place * 256 + hold as usize].unwrap();
        proof {
            assert(plan_ok(*env, q, pcs@, longest, table@, place as int, hold));
            assert(!table@[slot(chain[at as int].0, chain[at as int].1)].unwrap().first);
        }
        rev.push(plan.via);
        place = plan.prev_place;
        hold = plan.prev_hold;
        at = at - 1;
    }
    let mut histories: Vec<History> = Vec::new();
    let mut k: usize = 0;
    while k < best
        invariant
            k <= best,
            rev@.len() == best,
            chain.len() == best + 1,
            pc_chain(*env, q, pcs@, longest, chain),
            histories@.len() == k,
            forall|t: int|
                0 <= t < rev@.len() ==> (#[trigger] rev@[t])@ == chain_queue(q, pcs@, chain, best - 1 - t),
            q == queue@,
            longest == pcs.spec_longest(),
            chain_histories(q, pcs@, chain, histories@, k as int),
        decreases best - k,
    {
        let via = rev[best - 1 - k];
        proof {
            assert(pc_step(*env, q, pcs@, longest, chain[k as int], chain[k + 1]));
            let o = orders(segment(q, chain[k as int].1, chain[k as int].0, chain[k + 1].0));
            lemma_saves_in_table(o, pcs@, o.len() as int);
            assert(via@ == chain_queue(q, pcs@, chain, k as int));
        }
        let ghost before = histories@;
        match pcs.get(&via) {
            Some(h) => {
                let copy = h.clone();
                proof {
                    lemma_chain_histories_push(q, pcs@, chain, histories@, copy);
                }
                histories.push(copy);
            },
            None => {
                assert(false);
            },
        }
        k = k + 1;
    }
    proof {
        assert(pc_chain(*env, q, pcs@, longest, chain) && chain.len() == best + 1 && histories@.len()
            == best && chain_histories(q, pcs@, chain, histories@, best as int));
    }
    (best, histories)
}

} // verus!
