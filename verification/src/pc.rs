//! Perfect clears: the queues of pieces that can be placed, one after the
//! other, so that the board is empty again after the last.

use crate::board::{Board, board_of, empty_rows, lemma_board_of, rows_height};
use crate::common::rotation::Rotation;
use crate::environment::Environment;
use crate::file::piece::{has_kind, kinds_below, lemma_kinds_below, lemma_kinds_listed};
use crate::finesse::{Finesse, Key, Pair};
use crate::history::{History, kinds_of};
use crate::placement::{
    lands, lemma_placements_full, lemma_placements_sound, placements, playable, typed_on,
};
use crate::queue::Queue;
use vstd::prelude::*;

verus! {

/// Whether the tables of `env` serve every kind that has a shape.
pub open spec fn total(env: Environment) -> bool {
    forall|kind: u8| #[trigger] has_kind(env.state.bag.shapes@, kind) ==> playable(env, kind)
}

/// The board after the placements, one after the other, from `board` on.
pub open spec fn played(env: Environment, board: Board, pairs: Seq<Pair>) -> Board
    decreases pairs.len(),
{
    if pairs.len() == 0 {
        board
    } else {
        board_of(
            lands(played(env, board, pairs.drop_last()), env, pairs.last().0, pairs.last().1@),
        )
    }
}

/// Whether the placements, made from the empty board on, stay within `n` rows
/// and never clear the board before the last of them, each of a kind that has
/// a shape, with keys of the keyboard of `env`.
pub open spec fn stacks(env: Environment, n: int, pairs: Seq<Pair>) -> bool
    decreases pairs.len(),
{
    if pairs.len() == 0 {
        true
    } else {
        let front = pairs.drop_last();
        &&& stacks(env, n, front)
        &&& front.len() > 0 ==> played(env, board_of(empty_rows()), front)@ != empty_rows()
        &&& pairs.last().1.wf()
        &&& typed_on(env, pairs.last().1@)
        &&& has_kind(env.state.bag.shapes@, pairs.last().0)
        &&& rows_height(played(env, board_of(empty_rows()), pairs)@) <= n
    }
}

/// Whether the placements are a perfect clear of at most `n` pieces: made
/// from the empty board on they stay within `n` rows, and the board is empty
/// after the last of them and not before.
pub open spec fn clears(env: Environment, n: int, pairs: Seq<Pair>) -> bool {
    &&& 1 <= pairs.len() <= n
    &&& stacks(env, n, pairs)
    &&& played(env, board_of(empty_rows()), pairs)@ == empty_rows()
}

/// The place of the queue `q` among `queues`, if it is there.
fn find_queue(queues: &Vec<Queue>, q: &Queue) -> (r: Option<usize>)
    ensures
        match r {
            Some(i) => i < queues@.len() && queues@[i as int]@ == q@,
            None => forall|i: int| 0 <= i < queues@.len() ==> (#[trigger] queues@[i])@ != q@,
        },
{
    let mut i: usize = 0;
    while i < queues.len()
        invariant
            i <= queues@.len(),
            forall|j: int| 0 <= j < i ==> (#[trigger] queues@[j])@ != q@,
        decreases queues@.len() - i,
    {
        if queues[i].same(q) {
            return Some(i);
        }
        i = i + 1;
    }
    None
}

/// Whether the pair of `board` and `q` is among `visited`.
fn was_visited(visited: &Vec<(Board, Queue)>, board: &Board, q: &Queue) -> (r: bool)
    ensures
        r == exists|i: int|
            0 <= i < visited@.len() && (#[trigger] visited@[i]).0 == *board && visited@[i].1@ == q@,
{
    let mut i: usize = 0;
    while i < visited.len()
        invariant
            i <= visited@.len(),
            forall|j: int|
                0 <= j < i ==> !((#[trigger] visited@[j]).0 == *board && visited@[j].1@ == q@),
        decreases visited@.len() - i,
    {
        if visited[i].0 == *board && visited[i].1.same(q) {
            return true;
        }
        i = i + 1;
    }
    false
}

/// A kind that the tables serve has a shape.
proof fn lemma_playable_kind(env: Environment, kind: u8)
    requires
        playable(env, kind),
    ensures
        has_kind(env.state.bag.shapes@, kind),
{
    assert(env.state.bag.spec_get(kind, Rotation::North).is_some());
    assert(env.state.bag.shapes@.contains_key((kind, Rotation::North)));
}

/// Whether the placements are a state from which the search for perfect
/// clears of at most `n` pieces goes on: made from the empty board on they
/// stay within `n` rows, fewer than `n` of them, and the board is not empty
/// after any of them.
pub open spec fn opens(env: Environment, n: int, pairs: Seq<Pair>) -> bool {
    &&& pairs.len() < n
    &&& stacks(env, n, pairs)
    &&& pairs.len() > 0 ==> played(env, board_of(empty_rows()), pairs)@ != empty_rows()
}

/// Whether the pair of `b` and `q` is among the states of the layer.
pub open spec fn in_layer(layer: Seq<(Board, History)>, b: Board, q: Seq<u8>) -> bool {
    exists|x: int| 0 <= x < layer.len() && (#[trigger] layer[x]).0 == b && kinds_of(layer[x].1@) == q
}

/// Whether `q` is among the queues.
pub open spec fn in_queues(queues: Seq<Queue>, q: Seq<u8>) -> bool {
    exists|i: int| 0 <= i < queues.len() && (#[trigger] queues[i])@ == q
}

/// Whether the search has taken up the board `b` that the queue `q` leads
/// to: as a perfect clear if the board is empty, as a state of the next
/// layer if it is within `n` rows and more pieces may follow.
pub open spec fn covered(
    n: int,
    next: Seq<(Board, History)>,
    queues: Seq<Queue>,
    b: Board,
    q: Seq<u8>,
) -> bool {
    &&& b@ == empty_rows() ==> in_queues(queues, q)
    &&& (b@ != empty_rows() && rows_height(b@) <= n && q.len() < n) ==> in_layer(next, b, q)
}

/// Whether the search has taken up every board that a piece of `kind` leads
/// to from `board`, where the queue `q` was played: the board after any keys
/// of the keyboard, at most 32, if the tables serve the kind.
pub open spec fn kind_done(
    env: Environment,
    n: int,
    next: Seq<(Board, History)>,
    queues: Seq<Queue>,
    board: Board,
    q: Seq<u8>,
    kind: u8,
) -> bool {
    playable(env, kind) ==> forall|keys: Seq<Key>|
        keys.len() <= 32 && typed_on(env, keys) ==> covered(
            n,
            next,
            queues,
            board_of(#[trigger] lands(board, env, kind, keys)),
            q.push(kind),
        )
}

/// Whether the search has taken up every board that one more piece leads to
/// from `board`, where the queue `q` was played.
pub open spec fn item_done(
    env: Environment,
    n: int,
    next: Seq<(Board, History)>,
    queues: Seq<Queue>,
    board: Board,
    q: Seq<u8>,
) -> bool {
    forall|kind: u8| #[trigger] kind_done(env, n, next, queues, board, q, kind)
}

/// Whether `b` is `a` with histories of `len` placements behind it.
pub open spec fn grown(a: Seq<History>, b: Seq<History>, len: int) -> bool {
    &&& a.len() <= b.len()
    &&& forall|i: int| 0 <= i < a.len() ==> a[i] == b[i]
    &&& forall|i: int| a.len() <= i < b.len() ==> (#[trigger] b[i])@.len() == len
}

/// Whether the histories come in the order of their lengths, none longer
/// than `most`.
pub open spec fn by_length(out: Seq<History>, most: int) -> bool {
    &&& forall|i: int, j: int| 0 <= i <= j < out.len() ==> (#[trigger] out[i])@.len() <= (#[trigger] out[j])@.len()
    &&& forall|i: int| 0 <= i < out.len() ==> (#[trigger] out[i])@.len() <= most
}

/// Histories that come by length stay so when histories of `len` placements
/// join them, if none of them was longer.
proof fn lemma_by_length(a: Seq<History>, b: Seq<History>, len: int)
    requires
        by_length(a, len),
        grown(a, b, len),
    ensures
        by_length(b, len),
{
    assert forall|i: int, j: int| 0 <= i <= j < b.len() implies (#[trigger] b[i])@.len() <= (
    #[trigger] b[j])@.len() by {
        if j < a.len() {
            assert(a[i]@.len() <= a[j]@.len());
        } else if i < a.len() {
            assert(a[i]@.len() <= len);
        }
    }
    assert forall|i: int| 0 <= i < b.len() implies (#[trigger] b[i])@.len() <= len by {
        if i < a.len() {
            assert(a[i]@.len() <= len);
        }
    }
}

/// Growing twice is growing.
proof fn lemma_grown_twice(a: Seq<History>, b: Seq<History>, c: Seq<History>, len: int)
    requires
        grown(a, b, len),
        grown(b, c, len),
    ensures
        grown(a, c, len),
{
    assert forall|i: int| a.len() <= i < c.len() implies (#[trigger] c[i])@.len() == len by {
        if i < b.len() {
            assert(b[i]@.len() == len);
        }
    }
}

/// Whether `a` is the start of `b`.
pub open spec fn starts<T>(a: Seq<T>, b: Seq<T>) -> bool {
    a.len() <= b.len() && forall|i: int| 0 <= i < a.len() ==> a[i] == b[i]
}

/// What was taken up stays taken up when the layer and the queues grow.
proof fn lemma_covered_grows(
    n: int,
    next: Seq<(Board, History)>,
    queues: Seq<Queue>,
    more_next: Seq<(Board, History)>,
    more_queues: Seq<Queue>,
    b: Board,
    q: Seq<u8>,
)
    requires
        covered(n, next, queues, b, q),
        starts(next, more_next),
        starts(queues, more_queues),
    ensures
        covered(n, more_next, more_queues, b, q),
{
    if in_queues(queues, q) {
        let i = choose|i: int| 0 <= i < queues.len() && (#[trigger] queues[i])@ == q;
        assert(more_queues[i]@ == q);
    }
    if in_layer(next, b, q) {
        let x = choose|x: int|
            0 <= x < next.len() && (#[trigger] next[x]).0 == b && kinds_of(next[x].1@) == q;
        assert(more_next[x].0 == b && kinds_of(more_next[x].1@) == q);
    }
}

proof fn lemma_kind_done_grows(
    env: Environment,
    n: int,
    next: Seq<(Board, History)>,
    queues: Seq<Queue>,
    more_next: Seq<(Board, History)>,
    more_queues: Seq<Queue>,
    board: Board,
    q: Seq<u8>,
    kind: u8,
)
    requires
        kind_done(env, n, next, queues, board, q, kind),
        starts(next, more_next),
        starts(queues, more_queues),
    ensures
        kind_done(env, n, more_next, more_queues, board, q, kind),
{
    if playable(env, kind) {
        assert forall|keys: Seq<Key>| keys.len() <= 32 && typed_on(env, keys) implies covered(
            n,
            more_next,
            more_queues,
            board_of(#[trigger] lands(board, env, kind, keys)),
            q.push(kind),
        ) by {
            lemma_covered_grows(
                n,
                next,
                queues,
                more_next,
                more_queues,
                board_of(lands(board, env, kind, keys)),
                q.push(kind),
            );
        }
    }
}

proof fn lemma_item_done_grows(
    env: Environment,
    n: int,
    next: Seq<(Board, History)>,
    queues: Seq<Queue>,
    more_next: Seq<(Board, History)>,
    more_queues: Seq<Queue>,
    board: Board,
    q: Seq<u8>,
)
    requires
        item_done(env, n, next, queues, board, q),
        starts(next, more_next),
        starts(queues, more_queues),
    ensures
        item_done(env, n, more_next, more_queues, board, q),
{
    assert forall|kind: u8| #[trigger]
        kind_done(env, n, more_next, more_queues, board, q, kind) by {
        assert(kind_done(env, n, next, queues, board, q, kind));
        lemma_kind_done_grows(env, n, next, queues, more_next, more_queues, board, q, kind);
    }
}

/// What the search holds of the states it has yet to expand at depth `d`:
/// each is a board with the placements that led to it.
spec fn layer_ok(env: Environment, n: int, d: int, layer: Seq<(Board, History)>) -> bool {
    forall|i: int|
        0 <= i < layer.len() ==> {
            &&& (#[trigger] layer[i]).1@.len() == d
            &&& stacks(env, n, layer[i].1@)
            &&& layer[i].0 == played(env, board_of(empty_rows()), layer[i].1@)
            &&& d > 0 ==> layer[i].0@ != empty_rows()
        }
}

/// What the search holds of the perfect clears it has found: each a perfect
/// clear, with its queue beside it, and no queue twice.
spec fn found_ok(env: Environment, n: int, out: Seq<History>, queues: Seq<Queue>) -> bool {
    &&& out.len() == queues.len()
    &&& forall|i: int|
        0 <= i < out.len() ==> clears(env, n, (#[trigger] out[i])@) && queues[i]@ == kinds_of(out[i]@)
    &&& forall|i: int, j: int|
        0 <= i < j < queues.len() ==> (#[trigger] queues[i])@ != (#[trigger] queues[j])@
}

/// Takes one result of the placement search from a state at depth `d`: a
/// board within `n` rows either joins the next layer, if it is not empty and
/// more pieces may follow, or completes a perfect clear, which is kept unless
/// its queue was found before.
fn settle_placement(
    env: &Environment,
    n: usize,
    history: &History,
    kind: u8,
    next_board: Board,
    f: Finesse,
    next: &mut Vec<(Board, History)>,
    out: &mut Vec<History>,
    queues: &mut Vec<Queue>,
)
    requires
        n <= 64,
        history@.len() < n,
        stacks(*env, n as int, history@),
        history@.len() > 0 ==> played(*env, board_of(empty_rows()), history@)@ != empty_rows(),
        playable(*env, kind),
        f.wf(),
        typed_on(*env, f@),
        next_board@ == lands(played(*env, board_of(empty_rows()), history@), *env, kind, f@),
        layer_ok(*env, n as int, history@.len() as int + 1, old(next)@),
        found_ok(*env, n as int, old(out)@, old(queues)@),
    ensures
        layer_ok(*env, n as int, history@.len() as int + 1, final(next)@),
        found_ok(*env, n as int, final(out)@, final(queues)@),
        starts(old(next)@, final(next)@),
        starts(old(queues)@, final(queues)@),
        grown(old(out)@, final(out)@, history@.len() as int + 1),
        covered(n as int, final(next)@, final(queues)@, next_board, kinds_of(history@).push(kind)),
{
    let ghost board = played(*env, board_of(empty_rows()), history@);
    let ghost q0 = kinds_of(history@);
    let ghost q1 = q0.push(kind);
    proof {
        crate::board::lemma_height_zero(next_board@);
        next_board.lemma_rows();
    }
    if next_board.height() <= n {
        let mut longer = history.clone();
        longer.push(Pair(kind, f));
        proof {
            assert(longer@.drop_last() =~= history@);
            lemma_playable_kind(*env, kind);
            lemma_board_of(next_board);
            assert(played(*env, board_of(empty_rows()), longer@) == next_board);
            assert(stacks(*env, n as int, longer@));
            assert(kinds_of(longer@) =~= q1);
        }
        if longer.len() < n && !next_board.is_empty() {
            next.push((next_board, longer));
            proof {
                assert(in_layer(next@, next_board, q1)) by {
                    assert(next@[next@.len() - 1].0 == next_board);
                    assert(kinds_of(next@[next@.len() - 1].1@) == q1);
                }
            }
        } else if next_board.is_empty() {
            let q = longer.queue();
            match find_queue(queues, &q) {
                Some(i) => {
                    assert(in_queues(queues@, q1)) by {
                        assert(queues@[i as int]@ == q1);
                    }
                },
                None => {
                    queues.push(q);
                    out.push(longer);
                    assert(in_queues(queues@, q1)) by {
                        assert(queues@[queues@.len() - 1]@ == q1);
                    }
                },
            }
        }
    }
}

/// The placements of one kind on one board, kept so that they are searched
/// for once only.
struct Transitions {
    board: Board,
    kind: u8,
    moves: Vec<(Board, Finesse)>,
}

/// Whether each entry holds the placements of its kind on its board.
spec fn memo_ok(env: Environment, memo: Seq<Transitions>) -> bool {
    forall|i: int|
        0 <= i < memo.len() ==> placements(
            (#[trigger] memo[i]).board,
            env,
            memo[i].kind,
            memo[i].moves@,
        )
}

/// The place in `memo` of the placements of a piece of `kind` on `board`,
/// which are searched for and kept if they are not there yet.
fn transitions(memo: &mut Vec<Transitions>, board: Board, kind: u8, env: &Environment) -> (at: usize)
    requires
        playable(*env, kind),
        memo_ok(*env, old(memo)@),
    ensures
        memo_ok(*env, final(memo)@),
        at < final(memo)@.len(),
        final(memo)@[at as int].board == board,
        final(memo)@[at as int].kind == kind,
{
    let mut i: usize = 0;
    while i < memo.len()
        invariant
            i <= memo@.len(),
            memo_ok(*env, memo@),
            *memo == *old(memo),
        decreases memo@.len() - i,
    {
        if memo[i].kind == kind && memo[i].board == board {
            return i;
        }
        i = i + 1;
    }
    let moves = board.get_next_boards(kind, env);
    memo.push(Transitions { board, kind, moves });
    memo.len() - 1
}

/// Takes up every board that a piece of `kind` leads to from the state of
/// `board` and `history`.
fn expand_kind(
    env: &Environment,
    n: usize,
    board: Board,
    history: &History,
    kind: u8,
    memo: &mut Vec<Transitions>,
    next: &mut Vec<(Board, History)>,
    out: &mut Vec<History>,
    queues: &mut Vec<Queue>,
)
    requires
        memo_ok(*env, old(memo)@),
        n <= 64,
        history@.len() < n,
        stacks(*env, n as int, history@),
        board == played(*env, board_of(empty_rows()), history@),
        history@.len() > 0 ==> board@ != empty_rows(),
        playable(*env, kind),
        layer_ok(*env, n as int, history@.len() as int + 1, old(next)@),
        found_ok(*env, n as int, old(out)@, old(queues)@),
    ensures
        layer_ok(*env, n as int, history@.len() as int + 1, final(next)@),
        found_ok(*env, n as int, final(out)@, final(queues)@),
        starts(old(next)@, final(next)@),
        starts(old(queues)@, final(queues)@),
        grown(old(out)@, final(out)@, history@.len() as int + 1),
        kind_done(*env, n as int, final(next)@, final(queues)@, board, kinds_of(history@), kind),
        memo_ok(*env, final(memo)@),
{
    let ghost q1 = kinds_of(history@).push(kind);
    let at = transitions(memo, board, kind, env);
    let moves = &memo[at].moves;
    proof {
        assert(placements(memo@[at as int].board, *env, memo@[at as int].kind, moves@));
        lemma_placements_sound(board, *env, kind, moves@);
    }
    let mut m: usize = 0;
    while m < moves.len()
        invariant
            n <= 64,
            history@.len() < n,
            m <= moves@.len(),
            stacks(*env, n as int, history@),
            board == played(*env, board_of(empty_rows()), history@),
            history@.len() > 0 ==> board@ != empty_rows(),
            playable(*env, kind),
            q1 == kinds_of(history@).push(kind),
            layer_ok(*env, n as int, history@.len() as int + 1, next@),
            found_ok(*env, n as int, out@, queues@),
            starts(old(next)@, next@),
            starts(old(queues)@, queues@),
            grown(old(out)@, out@, history@.len() as int + 1),
            forall|x: int|
                0 <= x < moves@.len() ==> {
                    &&& (#[trigger] moves@[x]).1.wf()
                    &&& typed_on(*env, moves@[x].1@)
                    &&& moves@[x].0@ == lands(board, *env, kind, moves@[x].1@)
                },
            placements(board, *env, kind, moves@),
            forall|x: int| 0 <= x < m ==> covered(n as int, next@, queues@, (#[trigger] moves@[x]).0, q1),
        decreases moves@.len() - m,
    {
        let next_board = moves[m].0;
        let f = moves[m].1;
        let ghost next0 = next@;
        let ghost queues0 = queues@;
        let ghost out0 = out@;
        settle_placement(env, n, history, kind, next_board, f, next, out, queues);
        proof {
            lemma_grown_twice(old(out)@, out0, out@, history@.len() as int + 1);
            assert forall|x: int| 0 <= x < m + 1 implies covered(
                n as int,
                next@,
                queues@,
                (#[trigger] moves@[x]).0,
                q1,
            ) by {
                if x < m {
                    lemma_covered_grows(n as int, next0, queues0, next@, queues@, moves@[x].0, q1);
                }
            }
        }
        m = m + 1;
    }
    proof {
        assert forall|keys: Seq<Key>| keys.len() <= 32 && typed_on(*env, keys) implies covered(
            n as int,
            next@,
            queues@,
            board_of(#[trigger] lands(board, *env, kind, keys)),
            q1,
        ) by {
            let x = lemma_placements_full(board, *env, kind, moves@, keys);
            lemma_board_of(moves@[x].0);
        }
    }
}

/// Takes up every board that one more piece leads to from the state of
/// `board` and `history`.
fn expand_item(
    env: &Environment,
    n: usize,
    board: Board,
    history: &History,
    kinds: &Vec<u8>,
    memo: &mut Vec<Transitions>,
    next: &mut Vec<(Board, History)>,
    out: &mut Vec<History>,
    queues: &mut Vec<Queue>,
)
    requires
        memo_ok(*env, old(memo)@),
        n <= 64,
        history@.len() < n,
        stacks(*env, n as int, history@),
        board == played(*env, board_of(empty_rows()), history@),
        history@.len() > 0 ==> board@ != empty_rows(),
        total(*env),
        kinds@ == kinds_below(env.state.bag.shapes@, 1024),
        layer_ok(*env, n as int, history@.len() as int + 1, old(next)@),
        found_ok(*env, n as int, old(out)@, old(queues)@),
    ensures
        layer_ok(*env, n as int, history@.len() as int + 1, final(next)@),
        found_ok(*env, n as int, final(out)@, final(queues)@),
        starts(old(next)@, final(next)@),
        starts(old(queues)@, final(queues)@),
        grown(old(out)@, final(out)@, history@.len() as int + 1),
        item_done(*env, n as int, final(next)@, final(queues)@, board, kinds_of(history@)),
        memo_ok(*env, final(memo)@),
{
    let ghost q0 = kinds_of(history@);
    proof {
        lemma_kinds_below(env.state.bag.shapes@, 1024);
    }
    let mut k: usize = 0;
    while k < kinds.len()
        invariant
            n <= 64,
            history@.len() < n,
            k <= kinds@.len(),
            stacks(*env, n as int, history@),
            board == played(*env, board_of(empty_rows()), history@),
            history@.len() > 0 ==> board@ != empty_rows(),
            total(*env),
            kinds@ == kinds_below(env.state.bag.shapes@, 1024),
            q0 == kinds_of(history@),
            memo_ok(*env, memo@),
            forall|j: int| 0 <= j < kinds@.len() ==> has_kind(env.state.bag.shapes@, #[trigger] kinds@[j]),
            layer_ok(*env, n as int, history@.len() as int + 1, next@),
            found_ok(*env, n as int, out@, queues@),
            starts(old(next)@, next@),
            starts(old(queues)@, queues@),
            grown(old(out)@, out@, history@.len() as int + 1),
            forall|j: int|
                0 <= j < k ==> kind_done(*env, n as int, next@, queues@, board, q0, #[trigger] kinds@[j]),
        decreases kinds@.len() - k,
    {
        let kind = kinds[k];
        let ghost next0 = next@;
        let ghost queues0 = queues@;
        let ghost out0 = out@;
        assert(has_kind(env.state.bag.shapes@, kinds@[k as int]));
        if k == 0 || kinds[k - 1] != kind {
            expand_kind(env, n, board, history, kind, memo, next, out, queues);
            proof {
                lemma_grown_twice(old(out)@, out0, out@, history@.len() as int + 1);
            }
        } else {
            assert(kind_done(*env, n as int, next@, queues@, board, q0, kinds@[k - 1]));
        }
        proof {
            assert forall|j: int| 0 <= j < k + 1 implies kind_done(
                *env,
                n as int,
                next@,
                queues@,
                board,
                q0,
                #[trigger] kinds@[j],
            ) by {
                if j < k {
                    lemma_kind_done_grows(
                        *env,
                        n as int,
                        next0,
                        queues0,
                        next@,
                        queues@,
                        board,
                        q0,
                        kinds@[j],
                    );
                }
            }
        }
        k = k + 1;
    }
    proof {
        assert forall|kind: u8| #[trigger]
            kind_done(*env, n as int, next@, queues@, board, q0, kind) by {
            if playable(*env, kind) {
                lemma_playable_kind(*env, kind);
                let r = choose|r: Rotation| env.state.bag.shapes@.contains_key((kind, r));
                lemma_kinds_listed(env.state.bag.shapes@, kind, r, 1024);
                let j = choose|j: int| 0 <= j < kinds@.len() && kinds@[j] == kind;
                assert(kind_done(*env, n as int, next@, queues@, board, q0, kinds@[j]));
            }
        }
    }
}

/// Whether each of the first `idx` states of the layer has had every board
/// taken up that one more piece leads to from it.
spec fn layer_done(
    env: Environment,
    n: int,
    layer: Seq<(Board, History)>,
    next: Seq<(Board, History)>,
    queues: Seq<Queue>,
    idx: int,
) -> bool {
    forall|j: int|
        0 <= j < idx ==> item_done(env, n, next, queues, (#[trigger] layer[j]).0, kinds_of(layer[j].1@))
}

/// Whether the layer holds every state of `d` placements from which the
/// search goes on.
spec fn layer_full(env: Environment, n: int, d: int, layer: Seq<(Board, History)>) -> bool {
    forall|pairs: Seq<Pair>|
        pairs.len() == d && #[trigger] opens(env, n, pairs) ==> in_layer(
            layer,
            played(env, board_of(empty_rows()), pairs),
            kinds_of(pairs),
        )
}

/// Whether the queues hold the queue of every perfect clear of at most `d`
/// pieces.
spec fn found_full(env: Environment, n: int, d: int, queues: Seq<Queue>) -> bool {
    forall|pairs: Seq<Pair>|
        pairs.len() <= d && #[trigger] clears(env, n, pairs) ==> in_queues(queues, kinds_of(pairs))
}

/// The last of the placements was taken up when the state before it was
/// expanded.
proof fn lemma_step_covered(
    env: Environment,
    n: int,
    d: int,
    layer: Seq<(Board, History)>,
    next: Seq<(Board, History)>,
    queues: Seq<Queue>,
    pairs: Seq<Pair>,
)
    requires
        0 <= d < n,
        total(env),
        pairs.len() == d + 1,
        stacks(env, n, pairs),
        layer_full(env, n, d, layer),
        layer_done(env, n, layer, next, queues, layer.len() as int),
    ensures
        covered(n, next, queues, played(env, board_of(empty_rows()), pairs), kinds_of(pairs)),
{
    let front = pairs.drop_last();
    let from = played(env, board_of(empty_rows()), front);
    let kind = pairs.last().0;
    let keys = pairs.last().1@;
    assert(opens(env, n, front));
    let j = choose|j: int|
        0 <= j < layer.len() && (#[trigger] layer[j]).0 == from && kinds_of(layer[j].1@) == kinds_of(
            front,
        );
    assert(item_done(env, n, next, queues, layer[j].0, kinds_of(layer[j].1@)));
    assert(kind_done(env, n, next, queues, from, kinds_of(front), kind));
    pairs.last().1.lemma_len();
    assert(kinds_of(front).push(kind) =~= kinds_of(pairs));
    assert(covered(n, next, queues, board_of(lands(from, env, kind, keys)), kinds_of(front).push(kind)));
}

/// When every state of a layer has been expanded, the next layer holds every
/// state of one more placement, and the queues hold every perfect clear of
/// one more piece.
proof fn lemma_layer_done(
    env: Environment,
    n: int,
    d: int,
    layer: Seq<(Board, History)>,
    next: Seq<(Board, History)>,
    queues: Seq<Queue>,
)
    requires
        0 <= d < n,
        total(env),
        layer_full(env, n, d, layer),
        layer_done(env, n, layer, next, queues, layer.len() as int),
        found_full(env, n, d, queues),
    ensures
        layer_full(env, n, d + 1, next),
        found_full(env, n, d + 1, queues),
{
    assert forall|pairs: Seq<Pair>| pairs.len() == d + 1 && #[trigger] opens(env, n, pairs) implies in_layer(
        next,
        played(env, board_of(empty_rows()), pairs),
        kinds_of(pairs),
    ) by {
        lemma_step_covered(env, n, d, layer, next, queues, pairs);
    }
    assert forall|pairs: Seq<Pair>| pairs.len() <= d + 1 && #[trigger] clears(env, n, pairs) implies in_queues(
        queues,
        kinds_of(pairs),
    ) by {
        if pairs.len() == d + 1 {
            lemma_step_covered(env, n, d, layer, next, queues, pairs);
        }
    }
}

/// Whether `out` is what the search for perfect clears of at most `n` pieces
/// gives: placements that clear the board, one for each queue that some
/// perfect clear places and for no other, no queue twice, shorter queues
/// first.
pub open spec fn pc_output(env: Environment, n: int, out: Seq<History>) -> bool {
    &&& forall|i: int| 0 <= i < out.len() ==> clears(env, n, (#[trigger] out[i])@)
    &&& forall|i: int, j: int|
        0 <= i < j < out.len() ==> kinds_of((#[trigger] out[i])@) != kinds_of((#[trigger] out[j])@)
    &&& forall|pairs: Seq<Pair>| #[trigger] clears(env, n, pairs) ==> has_queue(out, kinds_of(pairs))
    &&& by_length(out, n)
}

/// Whether one of the histories places the kinds of `q`.
pub open spec fn has_queue(out: Seq<History>, q: Seq<u8>) -> bool {
    exists|i: int| 0 <= i < out.len() && kinds_of((#[trigger] out[i])@) == q
}

/// Two searches with the same tables, flags and number of pieces find the
/// same queues, whatever the placements they keep for them.
pub proof fn law_same_queues(env: Environment, n: int, a: Seq<History>, b: Seq<History>)
    requires
        pc_output(env, n, a),
        pc_output(env, n, b),
    ensures
        forall|q: Seq<u8>| has_queue(a, q) == has_queue(b, q),
        a.len() == b.len(),
{
    assert forall|q: Seq<u8>| has_queue(a, q) == has_queue(b, q) by {
        if has_queue(a, q) {
            let i = choose|i: int| 0 <= i < a.len() && kinds_of((#[trigger] a[i])@) == q;
            assert(clears(env, n, a[i]@));
        }
        if has_queue(b, q) {
            let i = choose|i: int| 0 <= i < b.len() && kinds_of((#[trigger] b[i])@) == q;
            assert(clears(env, n, b[i]@));
        }
    }
    let qa = Seq::new(a.len(), |i: int| kinds_of(a[i]@));
    let qb = Seq::new(b.len(), |i: int| kinds_of(b[i]@));
    assert(qa.no_duplicates()) by {
        assert forall|i: int, j: int| 0 <= i < qa.len() && 0 <= j < qa.len() && i != j implies qa[i]
            != qa[j] by {
            if i < j {
                assert(kinds_of(a[i]@) != kinds_of(a[j]@));
            } else {
                assert(kinds_of(a[j]@) != kinds_of(a[i]@));
            }
        }
    }
    assert(qb.no_duplicates()) by {
        assert forall|i: int, j: int| 0 <= i < qb.len() && 0 <= j < qb.len() && i != j implies qb[i]
            != qb[j] by {
            if i < j {
                assert(kinds_of(b[i]@) != kinds_of(b[j]@));
            } else {
                assert(kinds_of(b[j]@) != kinds_of(b[i]@));
            }
        }
    }
    assert(qa.to_set() =~= qb.to_set()) by {
        assert forall|q: Seq<u8>| qa.to_set().contains(q) == qb.to_set().contains(q) by {
            if qa.to_set().contains(q) {
                let i = choose|i: int| 0 <= i < qa.len() && qa[i] == q;
                assert(kinds_of(a[i]@) == q);
                assert(has_queue(a, q));
                let j = choose|j: int| 0 <= j < b.len() && kinds_of((#[trigger] b[j])@) == q;
                assert(qb[j] == q);
            }
            if qb.to_set().contains(q) {
                let i = choose|i: int| 0 <= i < qb.len() && qb[i] == q;
                assert(kinds_of(b[i]@) == q);
                assert(has_queue(b, q));
                let j = choose|j: int| 0 <= j < a.len() && kinds_of((#[trigger] a[j])@) == q;
                assert(qa[j] == q);
            }
        }
    }
    qa.unique_seq_to_set();
    qb.unique_seq_to_set();
}

/// A perfect clear for every queue of at most `n` pieces that has one: the
/// pieces are placed from the empty board on, each with keys of the keyboard,
/// within `n` rows, and the board is empty after the last of them and not
/// before. Each such queue comes once, shorter queues first.
pub fn generate_all_pc_queues(n: usize, env: &Environment) -> (out: Vec<History>)
    requires
        n <= 64,
        total(*env),
    ensures
        forall|i: int| 0 <= i < out@.len() ==> clears(*env, n as int, (#[trigger] out@[i])@),
        forall|i: int, j: int|
            0 <= i < j < out@.len() ==> kinds_of((#[trigger] out@[i])@) != kinds_of(
                (#[trigger] out@[j])@,
            ),
        forall|pairs: Seq<Pair>| #[trigger]
            clears(*env, n as int, pairs) ==> has_queue(out@, kinds_of(pairs)),
        pc_output(*env, n as int, out@),
{
    let kinds = env.state.bag.pieces();
    let mut out: Vec<History> = Vec::new();
    let mut queues: Vec<Queue> = Vec::new();
    let mut layer: Vec<(Board, History)> = Vec::new();
    layer.push((Board::empty(), History::new()));
    let mut memo: Vec<Transitions> = Vec::new();
    let mut d: usize = 0;
    proof {
        assert(kinds_of(layer@[0].1@) =~= Seq::<u8>::empty());
        lemma_board_of(layer@[0].0);
        assert forall|pairs: Seq<Pair>| pairs.len() == 0 && #[trigger] opens(
            *env,
            n as int,
            pairs,
        ) implies in_layer(layer@, played(*env, board_of(empty_rows()), pairs), kinds_of(pairs)) by {
            assert(layer@[0].0 == played(*env, board_of(empty_rows()), pairs));
            assert(kinds_of(pairs) =~= kinds_of(layer@[0].1@));
        }
    }
    while d < n
        invariant
            d <= n <= 64,
            total(*env),
            kinds@ == kinds_below(env.state.bag.shapes@, 1024),
            layer_ok(*env, n as int, d as int, layer@),
            found_ok(*env, n as int, out@, queues@),
            layer_full(*env, n as int, d as int, layer@),
            found_full(*env, n as int, d as int, queues@),
            memo_ok(*env, memo@),
            by_length(out@, d as int),
        decreases n - d,
    {
        let mut next: Vec<(Board, History)> = Vec::new();
        let mut visited: Vec<(Board, Queue)> = Vec::new();
        let mut idx: usize = 0;
        let ghost queues_start = queues@;
        while idx < layer.len()
            invariant
                d < n <= 64,
                idx <= layer@.len(),
                total(*env),
                kinds@ == kinds_below(env.state.bag.shapes@, 1024),
                layer_ok(*env, n as int, d as int, layer@),
                layer_ok(*env, n as int, d as int + 1, next@),
                found_ok(*env, n as int, out@, queues@),
                found_full(*env, n as int, d as int, queues@),
                memo_ok(*env, memo@),
                by_length(out@, d as int + 1),
                layer_done(*env, n as int, layer@, next@, queues@, idx as int),
                forall|v: int|
                    0 <= v < visited@.len() ==> exists|j: int|
                        0 <= j < idx && (#[trigger] layer@[j]).0 == (#[trigger] visited@[v]).0
                            && kinds_of(layer@[j].1@) == visited@[v].1@,
            decreases layer@.len() - idx,
        {
            let board = layer[idx].0;
            let history = &layer[idx].1;
            let q = history.queue();
            let ghost next0 = next@;
            let ghost queues0 = queues@;
            let ghost visited0 = visited@;
            let ghost out0 = out@;
            let seen = was_visited(&visited, &board, &q);
            if !seen {
                visited.push((board, q));
                expand_item(env, n, board, history, &kinds, &mut memo, &mut next, &mut out, &mut queues);
                proof {
                    lemma_by_length(out0, out@, d as int + 1);
                }
            } else {
                proof {
                    let v = choose|v: int|
                        0 <= v < visited@.len() && (#[trigger] visited@[v]).0 == board && visited@[v].1@
                            == q@;
                    let j = choose|j: int|
                        0 <= j < idx && (#[trigger] layer@[j]).0 == visited@[v].0 && kinds_of(layer@[j].1@)
                            == visited@[v].1@;
                    assert(item_done(*env, n as int, next@, queues@, layer@[j].0, kinds_of(layer@[j].1@)));
                }
            }
            proof {
                assert forall|j: int| 0 <= j < idx + 1 implies item_done(
                    *env,
                    n as int,
                    next@,
                    queues@,
                    (#[trigger] layer@[j]).0,
                    kinds_of(layer@[j].1@),
                ) by {
                    if j < idx {
                        assert(item_done(*env, n as int, next0, queues0, layer@[j].0, kinds_of(layer@[j].1@)));
                        lemma_item_done_grows(
                            *env,
                            n as int,
                            next0,
                            queues0,
                            next@,
                            queues@,
                            layer@[j].0,
                            kinds_of(layer@[j].1@),
                        );
                    }
                }
                assert forall|v: int| 0 <= v < visited@.len() implies exists|j: int|
                    0 <= j < idx + 1 && (#[trigger] layer@[j]).0 == (#[trigger] visited@[v]).0 && kinds_of(
                        layer@[j].1@,
                    ) == visited@[v].1@ by {
                    if v < visited0.len() {
                        assert(visited@[v] == visited0[v]);
                        let j = choose|j: int|
                            0 <= j < idx && (#[trigger] layer@[j]).0 == visited0[v].0 && kinds_of(
                                layer@[j].1@,
                            ) == visited0[v].1@;
                        assert(layer@[j].0 == visited@[v].0);
                    } else {
                        assert(layer@[idx as int].0 == visited@[v].0);
                    }
                }
                assert forall|pairs: Seq<Pair>| pairs.len() <= d && #[trigger] clears(
                    *env,
                    n as int,
                    pairs,
                ) implies in_queues(queues@, kinds_of(pairs)) by {
                    let i = choose|i: int|
                        0 <= i < queues0.len() && (#[trigger] queues0[i])@ == kinds_of(pairs);
                    assert(queues@[i]@ == kinds_of(pairs));
                }
            }
            idx = idx + 1;
        }
        proof {
            lemma_layer_done(*env, n as int, d as int, layer@, next@, queues@);
        }
        layer = next;
        d = d + 1;
    }
    proof {
        assert forall|i: int, j: int| 0 <= i < j < out@.len() implies kinds_of(
            (#[trigger] out@[i])@,
        ) != kinds_of((#[trigger] out@[j])@) by {
            assert(queues@[i]@ != queues@[j]@);
        }
        assert forall|pairs: Seq<Pair>| #[trigger] clears(*env, n as int, pairs) implies has_queue(
            out@,
            kinds_of(pairs),
        ) by {
            assert(in_queues(queues@, kinds_of(pairs)));
            let i = choose|i: int| 0 <= i < queues@.len() && (#[trigger] queues@[i])@ == kinds_of(pairs);
            assert(kinds_of(out@[i]@) == kinds_of(pairs));
        }
    }
    out
}

impl<'a> Environment<'a> {
    /// Whether the tables serve every kind that has a shape.
    pub fn is_total(&self) -> (b: bool)
        ensures
            b == total(*self),
    {
        let kinds = self.state.bag.pieces();
        proof {
            lemma_kinds_below(self.state.bag.shapes@, 1024);
        }
        let mut i: usize = 0;
        while i < kinds.len()
            invariant
                i <= kinds@.len(),
                kinds@ == kinds_below(self.state.bag.shapes@, 1024),
                forall|j: int| 0 <= j < i ==> playable(*self, #[trigger] kinds@[j]),
            decreases kinds@.len() - i,
        {
            if !self.plays(kinds[i]) {
                proof {
                    lemma_kinds_below(self.state.bag.shapes@, 1024);
                    assert(has_kind(self.state.bag.shapes@, kinds@[i as int]));
                }
                return false;
            }
            i = i + 1;
        }
        proof {
            assert forall|kind: u8| #[trigger]
                has_kind(self.state.bag.shapes@, kind) implies playable(*self, kind) by {
                let r = choose|r: Rotation| self.state.bag.shapes@.contains_key((kind, r));
                lemma_kinds_listed(self.state.bag.shapes@, kind, r, 1024);
                let j = choose|j: int| 0 <= j < kinds@.len() && kinds@[j] == kind;
                assert(playable(*self, kinds@[j]));
            }
        }
        true
    }

    /// The perfect clears of at most `n` pieces, if the search can run: a
    /// queue holds at most 64 pieces, and the tables have to serve every kind
    /// that has a shape.
    pub fn perfect_clears(&self, n: usize) -> (r: Option<Vec<History>>)
        ensures
            r.is_some() == (n <= 64 && total(*self)),
            r matches Some(out) ==> pc_output(*self, n as int, out@),
    {
        if n <= 64 && self.is_total() {
            Some(generate_all_pc_queues(n, self))
        } else {
            None
        }
    }
}

} // verus!
