//! Placement search: every board that locking one piece can lead to, each with
//! a shortest sequence of keys that leads there.

use crate::board::Board;
use crate::common::coordinate::Coordinate;
use crate::common::rotation::Rotation;
use crate::environment::{DropType, Environment};
use crate::finesse::{Finesse, Key};
use crate::input::{
    can_turn, dropped, Input, lemma_pressed_stands, lemma_same_kind, locked, pressed, ready,
    ready_all, run, serves, spawn, stands,
};
use crate::piece::Piece;
use crate::shortlex::{
    lemma_lex_equal, lemma_lex_flip, lemma_lex_push, lemma_lex_same, lemma_rank, lemma_rank_at,
    lemma_shortlex_flip, lemma_shortlex_trans, rank, shortlex,
};
use vstd::prelude::*;

verus! {

/// Whether every one of the keys is on the keyboard of `env`.
pub open spec fn typed_on(env: Environment, keys: Seq<Key>) -> bool {
    forall|i: int| 0 <= i < keys.len() ==> env.spec_keyboard().contains(#[trigger] keys[i])
}

/// Whether the tables of `env` hold what a search with a piece of `kind`
/// looks up: a shape for the orientation in which the piece enters, and, for
/// each orientation that has a shape and each turn on the keyboard, an entry
/// of kicks, with a shape for the orientation turned to if the entry has a
/// test.
pub open spec fn playable(env: Environment, kind: u8) -> bool {
    &&& env.state.bag.spec_get(kind, Rotation::North).is_some()
    &&& forall|i: int|
        0 <= i < env.spec_keyboard().len() ==> serves(env, kind, #[trigger] env.spec_keyboard()[i])
}

/// The rows of the board after a piece of `kind` enters, the keys are
/// pressed, and the piece is dropped and locked.
pub open spec fn lands(board: Board, env: Environment, kind: u8, keys: Seq<Key>) -> Seq<u8> {
    let piece = run(board, env, spawn(board, kind), keys);
    locked(board, env.state.bag, dropped(board, env.state.bag, piece))
}

/// Whether `r` lists the placements of a piece of `kind` on `board`: every
/// board that locking the piece can lead to, each once, with the keys of the
/// keyboard that lead there and come first among all that do: the fewest
/// keys, and among those the ones that are earlier on the keyboard where
/// they first differ. The boards come in the order of their keys.
#[verifier::opaque]
pub open spec fn placements(board: Board, env: Environment, kind: u8, r: Seq<(Board, Finesse)>) -> bool {
    &&& forall|m: int|
        0 <= m < r.len() ==> {
            &&& (#[trigger] r[m]).1.wf()
            &&& !r[m].1.spec_spin()
            &&& typed_on(env, r[m].1@)
            &&& r[m].0@ == lands(board, env, kind, r[m].1@)
        }
    &&& forall|m: int, n: int| 0 <= m < n < r.len() ==> (#[trigger] r[m]).0 != (#[trigger] r[n]).0
    &&& forall|m: int, n: int|
        0 <= m < n < r.len() ==> shortlex(env.spec_keyboard(), (#[trigger] r[m]).1@, (#[trigger] r[n]).1@)
            < 0
    &&& forall|keys: Seq<Key>|
        keys.len() <= 32 && #[trigger] typed_on(env, keys) ==> exists|m: int|
            0 <= m < r.len() && (#[trigger] r[m]).0@ == lands(board, env, kind, keys) && shortlex(
                env.spec_keyboard(),
                r[m].1@,
                keys,
            ) <= 0
    &&& forall|keys: Seq<Key>, m: int|
        keys.len() <= 32 && #[trigger] typed_on(env, keys) && 0 <= m < r.len() && (#[trigger] r[m]).0@
            == lands(board, env, kind, keys) ==> shortlex(env.spec_keyboard(), r[m].1@, keys) <= 0
}

/// Each listed placement is a board with keys of the keyboard that lead to it.
pub proof fn lemma_placements_sound(board: Board, env: Environment, kind: u8, r: Seq<(Board, Finesse)>)
    requires
        placements(board, env, kind, r),
    ensures
        forall|m: int|
            0 <= m < r.len() ==> {
                &&& (#[trigger] r[m]).1.wf()
                &&& !r[m].1.spec_spin()
                &&& typed_on(env, r[m].1@)
                &&& r[m].0@ == lands(board, env, kind, r[m].1@)
            },
{
    reveal(placements);
}

/// Every board that at most 32 keys of the keyboard lead to is listed, with
/// no more keys than those.
pub proof fn lemma_placements_full(
    board: Board,
    env: Environment,
    kind: u8,
    r: Seq<(Board, Finesse)>,
    keys: Seq<Key>,
) -> (m: int)
    requires
        placements(board, env, kind, r),
        keys.len() <= 32,
        typed_on(env, keys),
    ensures
        0 <= m < r.len(),
        r[m].0@ == lands(board, env, kind, keys),
        shortlex(env.spec_keyboard(), r[m].1@, keys) <= 0,
        r[m].1@.len() <= keys.len(),
{
    reveal(placements);
    choose|m: int|
        0 <= m < r.len() && (#[trigger] r[m]).0@ == lands(board, env, kind, keys) && shortlex(
            env.spec_keyboard(),
            r[m].1@,
            keys,
        ) <= 0
}

/// No key is on the keyboard twice.
pub proof fn lemma_keyboard_distinct(env: Environment)
    ensures
        env.spec_keyboard().no_duplicates(),
{
    let taps = if env.can_tap {
        seq![Key::MoveLeft, Key::MoveRight]
    } else {
        Seq::empty()
    };
    let repeats = if env.can_das {
        seq![Key::DasLeft, Key::DasRight]
    } else {
        Seq::empty()
    };
    let turns = seq![Key::RotateCW, Key::RotateCCW];
    let half = if env.can_180 {
        seq![Key::Rotate180]
    } else {
        Seq::empty()
    };
    let drops = match env.droptype {
        DropType::Soft => seq![Key::SoftDrop],
        DropType::Sonic => seq![Key::SonicDrop],
        DropType::Both => seq![Key::SoftDrop, Key::SonicDrop],
        DropType::Hard => Seq::empty(),
    };
    vstd::seq_lib::lemma_no_dup_in_concat(taps, repeats);
    vstd::seq_lib::lemma_no_dup_in_concat(taps + repeats, turns);
    vstd::seq_lib::lemma_no_dup_in_concat(taps + repeats + turns, half);
    vstd::seq_lib::lemma_no_dup_in_concat(taps + repeats + turns + half, drops);
    assert(env.spec_keyboard() == taps + repeats + turns + half + drops);
}

/// How the search came by its states: every state but the first was reached
/// from an earlier one by one key, it was not reached by an earlier state or
/// an earlier key before, and the key sequences come in their order.
#[verifier::opaque]
spec fn tree_ok(
    board: Board,
    env: Environment,
    arena: Seq<(Piece, Finesse)>,
    par: Seq<int>,
    kid: Seq<int>,
) -> bool {
    let keys = env.spec_keyboard();
    &&& par.len() == arena.len()
    &&& kid.len() == arena.len()
    &&& forall|j: int|
        1 <= j < arena.len() ==> {
            &&& 0 <= (#[trigger] par[j]) < j
            &&& 0 <= kid[j] < keys.len()
            &&& arena[j].1@ == arena[par[j]].1@.push(keys[kid[j]])
        }
    &&& forall|i: int, j: int|
        0 <= i < j < arena.len() ==> shortlex(keys, (#[trigger] arena[i]).1@, (#[trigger] arena[j]).1@) < 0
    &&& forall|j: int, i: int, k: int|
        1 <= j < arena.len() && 0 <= i < arena.len() && 0 <= k < keys.len() && arena[i].1@.len() < 32 && (i
            < par[j] || (i == par[j] && k < kid[j])) ==> #[trigger] pressed(
            board,
            env,
            arena[i].0,
            keys[k],
        ) != (#[trigger] arena[j]).0
}

/// A state that is new when it is reached from state `head` by key number
/// `k` joins the states in keeping with `tree_ok`.
proof fn lemma_tree_push(
    board: Board,
    env: Environment,
    kind: u8,
    arena: Seq<(Piece, Finesse)>,
    par: Seq<int>,
    kid: Seq<int>,
    succ: Map<(int, int), int>,
    head: int,
    k: int,
    next: Piece,
    g: Finesse,
)
    requires
        arena_ok(board, env, kind, arena),
        tree_ok(board, env, arena, par, kid),
        0 <= head < arena.len(),
        0 <= k < env.spec_keyboard().len(),
        arena[head].1@.len() < 32,
        g@ == arena[head].1@.push(env.spec_keyboard()[k]),
        next == pressed(board, env, arena[head].0, env.spec_keyboard()[k]),
        forall|j: int| 0 <= j < arena.len() ==> (#[trigger] arena[j]).0 != next,
        forall|j: int| 1 <= j < arena.len() ==> (#[trigger] par[j]) < head || (par[j] == head && kid[j] < k),
        forall|j: int| 0 <= j < arena.len() ==> (#[trigger] arena[j]).1@.len() <= arena[head].1@.len() + 1,
        forall|i: int, kk: int|
            0 <= i < head && 0 <= kk < env.spec_keyboard().len() ==> #[trigger] closed_at(
                board,
                env,
                arena,
                succ,
                i,
                kk,
            ),
        forall|kk: int| 0 <= kk < k ==> #[trigger] closed_at(board, env, arena, succ, head, kk),
    ensures
        tree_ok(board, env, arena.push((next, g)), par.push(head), kid.push(k)),
        par.len() == arena.len(),
        kid.len() == arena.len(),
{
    reveal(tree_ok);
    let keys = env.spec_keyboard();
    let more = arena.push((next, g));
    let par2 = par.push(head);
    let kid2 = kid.push(k);
    let n = arena.len() as int;
    let f = arena[head].1@;
    lemma_keyboard_distinct(env);
    assert forall|i: int, j: int| 0 <= i < j < more.len() implies shortlex(
        keys,
        (#[trigger] more[i]).1@,
        (#[trigger] more[j]).1@,
    ) < 0 by {
        if j < n {
            assert(shortlex(keys, arena[i].1@, arena[j].1@) < 0);
        } else {
            let a = arena[i].1@;
            if a.len() > f.len() {
                assert(i >= 1) by {
                    if i == 0 {
                        assert(arena[0].1@.len() == 0);
                    }
                }
                let p = par[i];
                assert(a == arena[p].1@.push(keys[kid[i]]));
                if p < head {
                    assert(shortlex(keys, arena[p].1@, arena[head].1@) < 0);
                    lemma_lex_push(keys, arena[p].1@, keys[kid[i]], f, keys[k]);
                } else {
                    lemma_lex_same(keys, f);
                    lemma_rank_at(keys, kid[i]);
                    lemma_rank_at(keys, k);
                    lemma_lex_push(keys, f, keys[kid[i]], f, keys[k]);
                }
            }
        }
    }
    assert forall|j: int, i: int, kk: int|
        1 <= j < more.len() && 0 <= i < more.len() && 0 <= kk < keys.len() && more[i].1@.len() < 32 && (i
            < par2[j] || (i == par2[j] && kk < kid2[j])) implies #[trigger] pressed(
        board,
        env,
        more[i].0,
        keys[kk],
    ) != (#[trigger] more[j]).0 by {
        if j < n {
            assert(par2[j] == par[j]);
            assert(i < n);
            assert(pressed(board, env, arena[i].0, keys[kk]) != arena[j].0);
        } else {
            assert(closed_at(board, env, arena, succ, i, kk));
            let at = succ[(i, kk)];
            assert(arena[at].0 != next);
        }
    }
    assert forall|j: int| 1 <= j < more.len() implies {
        &&& 0 <= (#[trigger] par2[j]) < j
        &&& 0 <= kid2[j] < keys.len()
        &&& more[j].1@ == more[par2[j]].1@.push(keys[kid2[j]])
    } by {
        if j < n {
            assert(par2[j] == par[j]);
            assert(more[par[j]] == arena[par[j]]);
        }
    }
}

/// Once every state of the arena has its successors in the arena, every
/// sequence of at most 32 keys of the keyboard leads to a state of the arena
/// whose own keys do not come after the sequence.
proof fn lemma_least(
    board: Board,
    env: Environment,
    kind: u8,
    arena: Seq<(Piece, Finesse)>,
    par: Seq<int>,
    kid: Seq<int>,
    succ: Map<(int, int), int>,
    keys: Seq<Key>,
) -> (j: int)
    requires
        arena_ok(board, env, kind, arena),
        tree_ok(board, env, arena, par, kid),
        forall|i: int, k: int|
            0 <= i < arena.len() && 0 <= k < env.spec_keyboard().len() ==> #[trigger] closed_at(
                board,
                env,
                arena,
                succ,
                i,
                k,
            ),
        keys.len() <= 32,
        typed_on(env, keys),
    ensures
        0 <= j < arena.len(),
        arena[j].0 == run(board, env, spawn(board, kind), keys),
        shortlex(env.spec_keyboard(), arena[j].1@, keys) <= 0,
    decreases keys.len(),
{
    reveal(tree_ok);
    let kb = env.spec_keyboard();
    if keys.len() == 0 {
        assert(arena[0].1@ =~= keys);
        lemma_lex_same(kb, keys);
        0
    } else {
        let front = keys.drop_last();
        assert forall|i: int| 0 <= i < front.len() implies kb.contains(#[trigger] front[i]) by {
            assert(front[i] == keys[i]);
        }
        let i = lemma_least(board, env, kind, arena, par, kid, succ, front);
        let key = keys.last();
        assert(key == keys[keys.len() - 1]);
        assert(kb.contains(key));
        lemma_rank(kb, key);
        let k = rank(kb, key);
        assert(closed_at(board, env, arena, succ, i, k));
        let j = succ[(i, k)];
        assert(keys =~= front.push(key));
        let fi = arena[i].1@;
        if j >= 1 {
            let p = par[j];
            let c = kid[j];
            let fp = arena[p].1@;
            assert(arena[j].1@ == fp.push(kb[c]));
            assert(pressed(board, env, arena[i].0, kb[k]) == arena[j].0);
            assert(!(i < p || (i == p && k < c)));
            lemma_keyboard_distinct(env);
            lemma_rank_at(kb, c);
            if p == i {
                if fi.len() == front.len() {
                    lemma_lex_push(kb, fi, kb[c], front, key);
                }
            } else {
                assert(shortlex(kb, arena[p].1@, arena[i].1@) < 0);
                lemma_shortlex_trans(kb, fp, fi, front);
                if fp.len() == front.len() {
                    lemma_lex_push(kb, fp, kb[c], front, key);
                }
            }
        } else {
            assert(arena[0].1@.len() == 0);
        }
        j
    }
}

/// The entry of `b` that is the same as entry `i` of `a`, where both list the
/// placements of the same piece on the same board.
proof fn lemma_placements_match(
    board: Board,
    env: Environment,
    kind: u8,
    a: Seq<(Board, Finesse)>,
    b: Seq<(Board, Finesse)>,
    i: int,
) -> (m: int)
    requires
        placements(board, env, kind, a),
        placements(board, env, kind, b),
        0 <= i < a.len(),
    ensures
        0 <= m < b.len(),
        b[m] == a[i],
{
    reveal(placements);
    let kb = env.spec_keyboard();
    let keys = a[i].1@;
    a[i].1.lemma_len();
    assert(typed_on(env, keys));
    let m = choose|m: int|
        0 <= m < b.len() && (#[trigger] b[m]).0@ == lands(board, env, kind, keys) && shortlex(
            kb,
            b[m].1@,
            keys,
        ) <= 0;
    b[m].0.lemma_rows_determine(a[i].0);
    let back = b[m].1@;
    b[m].1.lemma_len();
    assert(typed_on(env, back));
    assert(a[i].0@ == lands(board, env, kind, back));
    assert(shortlex(kb, keys, back) <= 0);
    assert(keys.len() == back.len());
    lemma_lex_flip(kb, keys, back);
    lemma_lex_equal(kb, keys, back);
    a[i].1.law_keys_determine(b[m].1);
    m
}

/// Two lists of the placements of the same piece on the same board are the
/// same list: what is asked of such a list leaves no choice.
pub proof fn law_placements_unique(
    board: Board,
    env: Environment,
    kind: u8,
    a: Seq<(Board, Finesse)>,
    b: Seq<(Board, Finesse)>,
)
    requires
        placements(board, env, kind, a),
        placements(board, env, kind, b),
    ensures
        a == b,
{
    lemma_placements_prefix(board, env, kind, a, b, a.len() as int);
    lemma_placements_prefix(board, env, kind, b, a, b.len() as int);
    assert(a =~= b);
}

/// The first `n` entries of `a` are the first `n` entries of `b`.
proof fn lemma_placements_prefix(
    board: Board,
    env: Environment,
    kind: u8,
    a: Seq<(Board, Finesse)>,
    b: Seq<(Board, Finesse)>,
    n: int,
)
    requires
        placements(board, env, kind, a),
        placements(board, env, kind, b),
        0 <= n <= a.len(),
    ensures
        n <= b.len(),
        forall|i: int| 0 <= i < n ==> a[i] == b[i],
    decreases n,
{
    if n > 0 {
        lemma_placements_prefix(board, env, kind, a, b, n - 1);
        let i = n - 1;
        let kb = env.spec_keyboard();
        let m = lemma_placements_match(board, env, kind, a, b, i);
        // The entry of `b` that matches entry `i` of `a` lies at place `i`:
        // not before, where `b` holds earlier entries of `a`, and not behind,
        // or the entry of `b` at place `i` would match an entry of `a` that
        // comes before entry `i` and behind it at once.
        if m < i {
            assert(a[m] == b[m]);
            assert(a[m].0 == a[i].0);
            reveal(placements);
            assert(a[m].0 != a[i].0);
        }
        if m > i {
            let back = lemma_placements_match(board, env, kind, b, a, i);
            reveal(placements);
            if back < i {
                assert(a[back] == b[back]);
                assert(b[back].0 != b[i].0);
            } else if back == i {
                assert(b[i].0 != b[m].0);
            } else {
                assert(shortlex(kb, b[i].1@, b[m].1@) < 0);
                assert(shortlex(kb, a[i].1@, a[back].1@) < 0);
                lemma_shortlex_flip(kb, a[i].1@, a[back].1@);
            }
        }
    }
}

/// The placements of a piece of `kind` on `board`: the one list that
/// `placements` holds of.
pub open spec fn placement_list(board: Board, env: Environment, kind: u8) -> Seq<(Board, Finesse)> {
    choose|r: Seq<(Board, Finesse)>| placements(board, env, kind, r)
}

/// A list of the placements is the list of the placements.
pub proof fn lemma_placement_list(board: Board, env: Environment, kind: u8, r: Seq<(Board, Finesse)>)
    requires
        placements(board, env, kind, r),
    ensures
        r == placement_list(board, env, kind),
{
    law_placements_unique(board, env, kind, r, placement_list(board, env, kind));
}

/// More pieces of one kind than this cannot be told apart.
pub open spec fn piece_states() -> int {
    4 * 0x1_0000_0000_0000_0000_0000_0000_0000_0000int
}

/// Keys do not change the kind of a piece.
pub proof fn lemma_run_kind(board: Board, env: Environment, piece: Piece, keys: Seq<Key>)
    ensures
        run(board, env, piece, keys).name == piece.name,
    decreases keys.len(),
{
    if keys.len() > 0 {
        lemma_run_kind(board, env, piece, keys.drop_last());
        lemma_same_kind(board, env, run(board, env, piece, keys.drop_last()), keys.last());
    }
}

/// Pressing one more key continues from where the keys before it led.
pub proof fn lemma_run_push(board: Board, env: Environment, piece: Piece, keys: Seq<Key>, key: Key)
    ensures
        run(board, env, piece, keys.push(key)) == pressed(
            board,
            env,
            run(board, env, piece, keys),
            key,
        ),
{
    assert(keys.push(key).drop_last() =~= keys);
}

/// On a playable ruleset the piece has a shape after any keys of the
/// keyboard.
pub proof fn lemma_run_stands(board: Board, env: Environment, kind: u8, keys: Seq<Key>)
    requires
        playable(env, kind),
        typed_on(env, keys),
    ensures
        stands(env.state.bag, run(board, env, spawn(board, kind), keys)),
        run(board, env, spawn(board, kind), keys).name == kind,
    decreases keys.len(),
{
    if keys.len() > 0 {
        let front = keys.drop_last();
        assert forall|i: int| 0 <= i < front.len() implies env.spec_keyboard().contains(
            #[trigger] front[i],
        ) by {
            assert(front[i] == keys[i]);
        }
        lemma_run_stands(board, env, kind, front);
        lemma_pressed_stands(board, env, run(board, env, spawn(board, kind), front), keys.last());
    }
}

/// On a playable ruleset the tables hold what any keys of the keyboard look
/// up, pressed one after the other from where the piece enters.
pub proof fn lemma_typed_ready(board: Board, env: Environment, kind: u8, keys: Seq<Key>)
    requires
        playable(env, kind),
        typed_on(env, keys),
    ensures
        ready_all(board, env, spawn(board, kind), keys),
        stands(env.state.bag, run(board, env, spawn(board, kind), keys)),
        run(board, env, spawn(board, kind), keys).name == kind,
{
    lemma_run_stands(board, env, kind, keys);
    assert forall|i: int| 0 <= i < keys.len() implies ready(
        env,
        #[trigger] run(board, env, spawn(board, kind), keys.subrange(0, i)),
        keys[i],
    ) by {
        let front = keys.subrange(0, i);
        assert forall|j: int| 0 <= j < front.len() implies env.spec_keyboard().contains(
            #[trigger] front[j],
        ) by {
            assert(front[j] == keys[j]);
        }
        lemma_run_stands(board, env, kind, front);
        let p = run(board, env, spawn(board, kind), front);
        let keyboard = env.spec_keyboard();
        assert(keyboard.contains(keys[i]));
        let j = choose|j: int| 0 <= j < keyboard.len() && keyboard[j] == keys[i];
        assert(serves(env, kind, keyboard[j]));
        assert(env.state.bag.spec_get(kind, p.rotation).is_some());
    }
}

spec fn piece_code(p: Piece) -> int {
    p.rotation.quarter_turns() * 0x1_0000_0000_0000_0000_0000_0000_0000_0000int + p.location.x
        * 0x1_0000_0000_0000_0000int + p.location.y
}

/// Pieces of one kind that differ pairwise are fewer than `piece_states()`.
proof fn lemma_pieces_bound(pieces: Seq<Piece>, kind: u8)
    requires
        forall|j: int| 0 <= j < pieces.len() ==> (#[trigger] pieces[j]).name == kind,
        forall|i: int, j: int|
            0 <= i < j < pieces.len() ==> (#[trigger] pieces[i]) != (#[trigger] pieces[j]),
    ensures
        pieces.len() <= piece_states(),
{
    let codes = Seq::new(pieces.len(), |j: int| piece_code(pieces[j]));
    assert forall|i: int, j: int| 0 <= i < codes.len() && 0 <= j < codes.len() && i != j implies codes[i]
        != codes[j] by {
        let p = pieces[i];
        let q = pieces[j];
        if i < j {
            assert(pieces[i] != pieces[j]);
        } else {
            assert(pieces[j] != pieces[i]);
        }
        if piece_code(p) == piece_code(q) {
            assert(p.rotation.quarter_turns() == q.rotation.quarter_turns());
            assert(p.location.x == q.location.x);
            assert(p.location.y == q.location.y);
            assert(p.rotation == q.rotation);
            assert(p.location == q.location);
            assert(p == q);
        }
    }
    assert(codes.no_duplicates());
    codes.unique_seq_to_set();
    let range = vstd::set_lib::set_int_range(0, piece_states());
    vstd::set_lib::lemma_int_range(0, piece_states());
    assert forall|c: int| codes.to_set().contains(c) implies range.contains(c) by {
        let j = choose|j: int| 0 <= j < codes.len() && codes[j] == c;
        assert(c == piece_code(pieces[j]));
    }
    vstd::set_lib::lemma_len_subset(codes.to_set(), range);
}

/// What the search keeps of the states it has reached: each with the keys
/// that first led to it, no state twice, in the order of discovery, which is
/// the order of the number of keys.
spec fn arena_ok(board: Board, env: Environment, kind: u8, arena: Seq<(Piece, Finesse)>) -> bool {
    &&& arena.len() >= 1
    &&& arena[0].1@.len() == 0
    &&& forall|j: int|
        0 <= j < arena.len() ==> {
            &&& (#[trigger] arena[j]).1.wf()
            &&& !arena[j].1.spec_spin()
            &&& typed_on(env, arena[j].1@)
            &&& arena[j].0 == run(board, env, spawn(board, kind), arena[j].1@)
            &&& arena[j].0.name == kind
        }
    &&& forall|i: int, j: int|
        0 <= i < j < arena.len() ==> (#[trigger] arena[i]).0 != (#[trigger] arena[j]).0
    &&& forall|i: int, j: int|
        0 <= i <= j < arena.len() ==> (#[trigger] arena[i]).1@.len() <= (#[trigger] arena[j]).1@.len()
}

/// State `i` of the arena has its successor under key number `k` in the
/// arena, at the place that `succ` names, reached by at most one key more.
spec fn closed_at(
    board: Board,
    env: Environment,
    arena: Seq<(Piece, Finesse)>,
    succ: Map<(int, int), int>,
    i: int,
    k: int,
) -> bool {
    arena[i].1@.len() < 32 ==> {
        &&& succ.contains_key((i, k))
        &&& 0 <= succ[(i, k)] < arena.len()
        &&& arena[succ[(i, k)]].0 == pressed(board, env, arena[i].0, env.spec_keyboard()[k])
        &&& arena[succ[(i, k)]].1@.len() <= arena[i].1@.len() + 1
    }
}

/// What the search keeps of the boards it has found: each with the keys of
/// the first state that locks to it, no board twice, in the order of those
/// states.
spec fn finals_ok(
    board: Board,
    env: Environment,
    kind: u8,
    arena: Seq<(Piece, Finesse)>,
    finals: Seq<(Board, Finesse)>,
    origin: Seq<int>,
) -> bool {
    &&& origin.len() == finals.len()
    &&& forall|m: int|
        0 <= m < finals.len() ==> {
            &&& 0 <= (#[trigger] origin[m]) < arena.len()
            &&& finals[m].1 == arena[origin[m]].1
            &&& finals[m].0@ == lands(board, env, kind, finals[m].1@)
        }
    &&& forall|m: int, n: int|
        0 <= m < n < finals.len() ==> (#[trigger] finals[m]).0 != (#[trigger] finals[n]).0
    &&& forall|m: int, n: int| 0 <= m < n < origin.len() ==> (#[trigger] origin[m]) < (#[trigger] origin[n])
}

/// State `j` of the arena has the board it locks to among the finals, at the
/// place that `home` names, taken from a state that is not later.
spec fn housed_at(
    board: Board,
    env: Environment,
    arena: Seq<(Piece, Finesse)>,
    finals: Seq<(Board, Finesse)>,
    origin: Seq<int>,
    home: Seq<int>,
    j: int,
) -> bool {
    &&& 0 <= home[j] < finals.len()
    &&& finals[home[j]].0@ == locked(
        board,
        env.state.bag,
        dropped(board, env.state.bag, arena[j].0),
    )
    &&& origin[home[j]] <= j
}

/// When the search has nothing left to expand, what it found is complete, and
/// the keys it kept for a board come first among all that lead to that board.
proof fn lemma_search_done(
    board: Board,
    env: Environment,
    kind: u8,
    arena: Seq<(Piece, Finesse)>,
    par: Seq<int>,
    kid: Seq<int>,
    finals: Seq<(Board, Finesse)>,
    origin: Seq<int>,
    succ: Map<(int, int), int>,
    home: Seq<int>,
)
    requires
        arena_ok(board, env, kind, arena),
        tree_ok(board, env, arena, par, kid),
        finals_ok(board, env, kind, arena, finals, origin),
        forall|i: int, k: int|
            0 <= i < arena.len() && 0 <= k < env.spec_keyboard().len() ==> #[trigger] closed_at(
                board,
                env,
                arena,
                succ,
                i,
                k,
            ),
        forall|j: int|
            0 <= j < arena.len() ==> #[trigger] housed_at(board, env, arena, finals, origin, home, j),
    ensures
        placements(board, env, kind, finals),
{
    reveal(placements);
    reveal(tree_ok);
    let kb = env.spec_keyboard();
    assert forall|m: int| 0 <= m < finals.len() implies {
        &&& (#[trigger] finals[m]).1.wf()
        &&& !finals[m].1.spec_spin()
        &&& typed_on(env, finals[m].1@)
        &&& finals[m].0@ == lands(board, env, kind, finals[m].1@)
    } by {
        assert(finals[m].1 == arena[origin[m]].1);
    }
    assert forall|m: int, n: int| 0 <= m < n < finals.len() implies shortlex(
        kb,
        (#[trigger] finals[m]).1@,
        (#[trigger] finals[n]).1@,
    ) < 0 by {
        assert(origin[m] < origin[n]);
        assert(shortlex(kb, arena[origin[m]].1@, arena[origin[n]].1@) < 0);
    }
    assert forall|keys: Seq<Key>| keys.len() <= 32 && #[trigger] typed_on(env, keys) implies exists|
        m: int,
    |
        0 <= m < finals.len() && (#[trigger] finals[m]).0@ == lands(board, env, kind, keys) && shortlex(
            kb,
            finals[m].1@,
            keys,
        ) <= 0 by {
        let j = lemma_least(board, env, kind, arena, par, kid, succ, keys);
        assert(housed_at(board, env, arena, finals, origin, home, j));
        let m = home[j];
        assert(finals[m].0@ == lands(board, env, kind, keys));
        if origin[m] < j {
            assert(shortlex(kb, arena[origin[m]].1@, arena[j].1@) < 0);
        } else {
            lemma_lex_same(kb, arena[j].1@);
        }
        lemma_shortlex_trans(kb, finals[m].1@, arena[j].1@, keys);
    }
    assert forall|keys: Seq<Key>, m: int|
        keys.len() <= 32 && #[trigger] typed_on(env, keys) && 0 <= m < finals.len() && (
        #[trigger] finals[m]).0@ == lands(board, env, kind, keys) implies shortlex(
        kb,
        finals[m].1@,
        keys,
    ) <= 0 by {
        let j = lemma_least(board, env, kind, arena, par, kid, succ, keys);
        assert(housed_at(board, env, arena, finals, origin, home, j));
        let n = home[j];
        finals[m].0.lemma_rows_determine(finals[n].0);
        if m < n {
            assert(finals[m].0 != finals[n].0);
        } else if n < m {
            assert(finals[n].0 != finals[m].0);
        }
        if origin[n] < j {
            assert(shortlex(kb, arena[origin[n]].1@, arena[j].1@) < 0);
        } else {
            lemma_lex_same(kb, arena[j].1@);
        }
        lemma_shortlex_trans(kb, finals[n].1@, arena[j].1@, keys);
    }
}

/// The place of `p` in the arena, if it is there.
fn find_piece(arena: &Vec<(Piece, Finesse)>, p: &Piece) -> (r: Option<usize>)
    ensures
        match r {
            Some(j) => j < arena@.len() && arena@[j as int].0 == *p,
            None => forall|j: int| 0 <= j < arena@.len() ==> (#[trigger] arena@[j]).0 != *p,
        },
{
    let mut j: usize = 0;
    while j < arena.len()
        invariant
            j <= arena@.len(),
            forall|i: int| 0 <= i < j ==> (#[trigger] arena@[i]).0 != *p,
        decreases arena@.len() - j,
    {
        if arena[j].0.same(p) {
            return Some(j);
        }
        j = j + 1;
    }
    None
}

/// The place of `b` among the finals, if it is there.
fn find_board(finals: &Vec<(Board, Finesse)>, b: &Board) -> (r: Option<usize>)
    ensures
        match r {
            Some(m) => m < finals@.len() && finals@[m as int].0 == *b,
            None => forall|m: int| 0 <= m < finals@.len() ==> (#[trigger] finals@[m]).0 != *b,
        },
{
    let mut m: usize = 0;
    while m < finals.len()
        invariant
            m <= finals@.len(),
            forall|i: int| 0 <= i < m ==> (#[trigger] finals@[i]).0 != *b,
        decreases finals@.len() - m,
    {
        if finals[m].0 == *b {
            return Some(m);
        }
        m = m + 1;
    }
    None
}

/// Every state that a piece of `kind` can reach on `board` by at most 32
/// keys of the keyboard, each with keys that first led to it, in the order of
/// discovery.
fn explore(board: &Board, kind: u8, environment: &Environment) -> (r: (
    Vec<(Piece, Finesse)>,
    Ghost<(Map<(int, int), int>, Seq<int>, Seq<int>)>,
))
    requires
        playable(*environment, kind),
    ensures
        arena_ok(*board, *environment, kind, r.0@),
        tree_ok(*board, *environment, r.0@, r.1@.1, r.1@.2),
        forall|i: int, k: int|
            0 <= i < r.0@.len() && 0 <= k < environment.spec_keyboard().len() ==> #[trigger] closed_at(
                *board,
                *environment,
                r.0@,
                r.1@.0,
                i,
                k,
            ),
{
    let ghost env = *environment;
    let keys = environment.keyboard();
    let start = Input::new(*board, kind, environment).fingerprint();
    let mut arena: Vec<(Piece, Finesse)> = Vec::new();
    arena.push((start, Finesse::new()));
    let ghost mut succ: Map<(int, int), int> = Map::empty();
    let ghost mut par: Seq<int> = seq![-1int];
    let ghost mut kid: Seq<int> = seq![-1int];
    let mut head: usize = 0;
    proof {
        assert(arena@[0].1@ =~= Seq::<Key>::empty());
        assert(arena_ok(*board, env, kind, arena@));
        assert(tree_ok(*board, env, arena@, par, kid)) by {
            reveal(tree_ok);
        }
    }
    while head < arena.len()
        invariant
            env == *environment,
            keys@ == env.spec_keyboard(),
            playable(env, kind),
            head <= arena@.len(),
            arena@.len() <= piece_states(),
            arena_ok(*board, env, kind, arena@),
            par.len() == arena@.len(),
            kid.len() == arena@.len(),
            tree_ok(*board, env, arena@, par, kid),
            forall|j: int| 1 <= j < arena@.len() ==> (#[trigger] par[j]) < head,
            head < arena@.len() ==> forall|j: int|
                0 <= j < arena@.len() ==> (#[trigger] arena@[j]).1@.len() <= arena@[head as int].1@.len()
                    + 1,
            forall|i: int, k: int|
                0 <= i < head && 0 <= k < keys@.len() ==> #[trigger] closed_at(
                    *board,
                    env,
                    arena@,
                    succ,
                    i,
                    k,
                ),
        decreases piece_states() - head,
    {
        let f = arena[head].1;
        let ghost arena0 = arena@;
        assert(arena@[head as int].1.wf());
        if f.len() < 32 {
            let mut k: usize = 0;
            while k < keys.len()
                invariant
                    env == *environment,
                    keys@ == env.spec_keyboard(),
                    playable(env, kind),
                    k <= keys@.len(),
                    head < arena@.len(),
                    head < arena0.len(),
                    arena0.len() <= arena@.len(),
                    forall|j: int| 0 <= j < arena0.len() ==> arena@[j] == arena0[j],
                    arena0[head as int].1 == f,
                    f@.len() < 32,
                    f.wf(),
                    !f.spec_spin(),
                    typed_on(env, f@),
                    arena@[head as int].0 == run(*board, env, spawn(*board, kind), f@),
                    arena_ok(*board, env, kind, arena@),
                    par.len() == arena@.len(),
                    kid.len() == arena@.len(),
                    tree_ok(*board, env, arena@, par, kid),
                    forall|j: int|
                        1 <= j < arena@.len() ==> (#[trigger] par[j]) < head || (par[j] == head && kid[j]
                            < k),
                    forall|j: int|
                        0 <= j < arena@.len() ==> (#[trigger] arena@[j]).1@.len() <= f@.len() + 1,
                    forall|i: int, kk: int|
                        0 <= i < head && 0 <= kk < keys@.len() ==> #[trigger] closed_at(
                            *board,
                            env,
                            arena@,
                            succ,
                            i,
                            kk,
                        ),
                    forall|kk: int|
                        0 <= kk < k ==> #[trigger] closed_at(*board, env, arena@, succ, head as int, kk),
                decreases keys@.len() - k,
            {
                let ghost arena1 = arena@;
                let ghost succ1 = succ;
                let key = keys[k];
                let mut g = f;
                g.push(key);
                proof {
                    assert(env.spec_keyboard().contains(key));
                    assert forall|x: int| 0 <= x < g@.len() implies env.spec_keyboard().contains(
                        #[trigger] g@[x],
                    ) by {
                        if x < f@.len() {
                            assert(g@[x] == f@[x]);
                        }
                    }
                    lemma_typed_ready(*board, env, kind, g@);
                    lemma_run_kind(*board, env, spawn(*board, kind), g@);
                    lemma_run_push(*board, env, spawn(*board, kind), f@, key);
                }
                let mut i = Input::new(*board, kind, environment);
                i.apply(g);
                let next = i.fingerprint();
                assert(next == pressed(*board, env, arena@[head as int].0, key));
                match find_piece(&arena, &next) {
                    Some(j) => {
                        proof {
                            succ = succ.insert((head as int, k as int), j as int);
                        }
                    },
                    None => {
                        proof {
                            lemma_tree_push(
                                *board,
                                env,
                                kind,
                                arena@,
                                par,
                                kid,
                                succ,
                                head as int,
                                k as int,
                                next,
                                g,
                            );
                            par = par.push(head as int);
                            kid = kid.push(k as int);
                        }
                        arena.push((next, g));
                        proof {
                            succ = succ.insert((head as int, k as int), arena@.len() - 1);
                        }
                    },
                }
                proof {
                    assert(next.name == kind);
                    assert(g@.len() == f@.len() + 1);
                    assert(arena_ok(*board, env, kind, arena@));
                    assert forall|i: int, kk: int|
                        0 <= i < head && 0 <= kk < keys@.len() implies #[trigger] closed_at(
                        *board,
                        env,
                        arena@,
                        succ,
                        i,
                        kk,
                    ) by {
                        assert(closed_at(*board, env, arena1, succ1, i, kk));
                    }
                    assert forall|kk: int| 0 <= kk < k + 1 implies #[trigger] closed_at(
                        *board,
                        env,
                        arena@,
                        succ,
                        head as int,
                        kk,
                    ) by {
                        if kk < k {
                            assert(closed_at(*board, env, arena1, succ1, head as int, kk));
                        }
                    }
                }
                k = k + 1;
            }
        }
        proof {
            let pieces = Seq::new(arena@.len(), |j: int| arena@[j].0);
            lemma_pieces_bound(pieces, kind);
        }
        head = head + 1;
    }
    (arena, Ghost((succ, par, kid)))
}

impl Board {
    /// Every board that locking a piece of kind `piece` on this board can lead
    /// to, each once, with keys that lead there: the piece enters, the keys are
    /// pressed, the piece is dropped and locked. Every sequence of at most 32
    /// keys of the keyboard ends on one of the boards returned, and the keys
    /// returned with a board are as few as any such sequence that ends on it.
    /// The boards come in the order of the number of their keys.
    #[must_use]
    pub fn get_next_boards(&self, piece: u8, environment: &Environment) -> (r: Vec<(Board, Finesse)>)
        requires
            playable(*environment, piece),
        ensures
            placements(*self, *environment, piece, r@),
    {
        let ghost env = *environment;
        let ghost board = *self;
        let (arena, Ghost(tree)) = explore(self, piece, environment);
        let ghost succ = tree.0;
        let mut finals: Vec<(Board, Finesse)> = Vec::new();
        let ghost mut origin: Seq<int> = Seq::empty();
        let ghost mut home: Seq<int> = Seq::empty();
        let mut head: usize = 0;
        while head < arena.len()
            invariant
                env == *environment,
                board == *self,
                playable(env, piece),
                head <= arena@.len(),
                arena_ok(board, env, piece, arena@),
                finals_ok(board, env, piece, arena@, finals@, origin),
                forall|m: int| 0 <= m < origin.len() ==> (#[trigger] origin[m]) < head,
                home.len() == head,
                forall|j: int|
                    0 <= j < head ==> #[trigger] housed_at(board, env, arena@, finals@, origin, home, j),
            decreases arena@.len() - head,
        {
            let f = arena[head].1;
            let ghost finals0 = finals@;
            let ghost home0 = home;
            let ghost origin0 = origin;
            assert(arena@[head as int].1.wf());
            proof {
                lemma_typed_ready(board, env, piece, f@);
                lemma_run_kind(board, env, spawn(board, piece), f@);
            }
            let mut i = Input::new(*self, piece, environment);
            i.apply(f);
            let placed = i.place(true);
            assert(placed@ == lands(board, env, piece, f@));
            match find_board(&finals, &placed) {
                Some(m) => {
                    proof {
                        home = home.push(m as int);
                    }
                },
                None => {
                    finals.push((placed, f));
                    proof {
                        origin = origin.push(head as int);
                        home = home.push(finals@.len() - 1);
                    }
                },
            }
            proof {
                assert(finals_ok(board, env, piece, arena@, finals@, origin)) by {
                    assert forall|m: int| 0 <= m < finals@.len() implies {
                        &&& 0 <= (#[trigger] origin[m]) < arena@.len()
                        &&& finals@[m].1 == arena@[origin[m]].1
                        &&& finals@[m].0@ == lands(board, env, piece, finals@[m].1@)
                    } by {
                        if m < finals0.len() {
                            assert(origin[m] == origin0[m]);
                            assert(finals@[m] == finals0[m]);
                        }
                    }
                    assert forall|m: int, n: int| 0 <= m < n < origin.len() implies (#[trigger] origin[m]) < (
                    #[trigger] origin[n]) by {
                        if n < origin0.len() {
                            assert(origin0[m] < origin0[n]);
                        } else {
                            assert(origin0[m] < head);
                        }
                    }
                }
                assert forall|j: int| 0 <= j <= head implies #[trigger] housed_at(
                    board,
                    env,
                    arena@,
                    finals@,
                    origin,
                    home,
                    j,
                ) by {
                    if j < head {
                        assert(housed_at(board, env, arena@, finals0, origin0, home0, j));
                        assert(origin[home0[j]] == origin0[home0[j]]);
                    } else {
                        let m = home[j];
                        if m < origin0.len() {
                            assert(origin0[m] < head);
                        }
                    }
                }
            }
            head = head + 1;
        }
        proof {
            lemma_search_done(board, env, piece, arena@, tree.1, tree.2, finals@, origin, succ, home);
        }
        finals
    }
}

/// Whether `keys` are keys of the keyboard, at most 32, that take a piece of
/// the kind of `piece` from where it enters `board` to where `piece` is.
pub open spec fn reaches(board: Board, env: Environment, piece: Piece, keys: Seq<Key>) -> bool {
    keys.len() <= 32 && typed_on(env, keys) && run(board, env, spawn(board, piece.name), keys) == piece
}

impl Piece {
    /// The keys that take a piece of this kind from where it enters `board` to
    /// where this piece is and come first among all that do: keys of the
    /// keyboard, at most 32, as few as can be, and among those the ones that
    /// are earlier on the keyboard where they first differ. `None` if no such
    /// keys lead here.
    #[must_use]
    pub fn find(&self, board: Board, env: &Environment) -> (r: Option<Finesse>)
        requires
            playable(*env, self.name),
        ensures
            match r {
                Some(f) => f.wf() && !f.spec_spin() && reaches(board, *env, *self, f@) && forall|
                    keys: Seq<Key>,
                | #[trigger]
                    reaches(board, *env, *self, keys) ==> shortlex(env.spec_keyboard(), f@, keys) <= 0,
                None => forall|keys: Seq<Key>| !#[trigger] reaches(board, *env, *self, keys),
            },
    {
        let (arena, Ghost(tree)) = explore(&board, self.name, env);
        let found = find_piece(&arena, self);
        proof {
            assert forall|keys: Seq<Key>| #[trigger] reaches(board, *env, *self, keys) implies match found {
                Some(j) => shortlex(env.spec_keyboard(), arena@[j as int].1@, keys) <= 0,
                None => false,
            } by {
                let at = lemma_least(board, *env, self.name, arena@, tree.1, tree.2, tree.0, keys);
                match found {
                    Some(j) => {
                        if at < j {
                            assert(arena@[at].0 != arena@[j as int].0);
                        } else if j < at {
                            assert(arena@[j as int].0 != arena@[at].0);
                        }
                    },
                    None => {
                        assert(arena@[at].0 == *self);
                    },
                }
            }
        }
        match found {
            Some(j) => {
                assert(arena@[j as int].1.wf());
                proof {
                    arena@[j as int].1.lemma_len();
                }
                Some(arena[j].1)
            },
            None => None,
        }
    }
}

/// Whether the tables hold what the turns of the ruleset look up for a piece
/// of `kind` in orientation `r`, if that orientation has a shape: the two
/// quarter turns, and the half turn where the ruleset has one.
pub open spec fn turns_at(env: Environment, kind: u8, r: Rotation) -> bool {
    env.state.bag.spec_get(kind, r).is_some() ==> {
        &&& can_turn(env, kind, r, 1)
        &&& can_turn(env, kind, r, 3)
        &&& env.can_180 ==> can_turn(env, kind, r, 2)
    }
}

/// The keyboard holds the two quarter turns, and the half turn exactly where
/// the ruleset has one.
proof fn lemma_keyboard_turns(env: Environment)
    ensures
        env.spec_keyboard().contains(Key::RotateCW),
        env.spec_keyboard().contains(Key::RotateCCW),
        env.spec_keyboard().contains(Key::Rotate180) == env.can_180,
{
    let keys = env.spec_keyboard();
    let at = (if env.can_tap { 2int } else { 0 }) + (if env.can_das { 2int } else { 0 });
    assert(keys[at] == Key::RotateCW);
    assert(keys[at + 1] == Key::RotateCCW);
    if env.can_180 {
        assert(keys[at + 2] == Key::Rotate180);
    } else {
        assert forall|i: int| 0 <= i < keys.len() implies keys[i] != Key::Rotate180 by {}
    }
}

/// A ruleset is playable with a kind exactly when the kind has a shape as
/// it enters and the tables hold what its turns look up in each of the four
/// orientations.
pub proof fn lemma_playable(env: Environment, kind: u8)
    ensures
        playable(env, kind) == (env.state.bag.spec_get(kind, Rotation::North).is_some() && turns_at(
            env,
            kind,
            Rotation::North,
        ) && turns_at(env, kind, Rotation::East) && turns_at(env, kind, Rotation::South) && turns_at(
            env,
            kind,
            Rotation::West,
        )),
{
    let keys = env.spec_keyboard();
    lemma_keyboard_turns(env);
    let all = turns_at(env, kind, Rotation::North) && turns_at(env, kind, Rotation::East) && turns_at(
        env,
        kind,
        Rotation::South,
    ) && turns_at(env, kind, Rotation::West);
    if all {
        assert forall|r: Rotation| turns_at(env, kind, r) by {
            match r {
                Rotation::North => {},
                Rotation::East => {},
                Rotation::South => {},
                Rotation::West => {},
            }
        }
        assert forall|i: int| 0 <= i < keys.len() implies serves(env, kind, #[trigger] keys[i]) by {
            if keys[i] == Key::Rotate180 {
                assert(keys.contains(keys[i]));
            }
            assert forall|r: Rotation| (#[trigger] env.state.bag.spec_get(kind, r)).is_some() implies {
                &&& keys[i] == Key::RotateCW ==> can_turn(env, kind, r, 1)
                &&& keys[i] == Key::RotateCCW ==> can_turn(env, kind, r, 3)
                &&& keys[i] == Key::Rotate180 ==> can_turn(env, kind, r, 2)
            } by {
                assert(turns_at(env, kind, r));
            }
        }
    }
    if forall|i: int| 0 <= i < keys.len() ==> serves(env, kind, #[trigger] keys[i]) {
        let cw = choose|i: int| 0 <= i < keys.len() && keys[i] == Key::RotateCW;
        assert(serves(env, kind, keys[cw]));
        let ccw = choose|i: int| 0 <= i < keys.len() && keys[i] == Key::RotateCCW;
        assert(serves(env, kind, keys[ccw]));
        if env.can_180 {
            let half = choose|i: int| 0 <= i < keys.len() && keys[i] == Key::Rotate180;
            assert(serves(env, kind, keys[half]));
        }
        assert forall|r: Rotation| turns_at(env, kind, r) by {
            if env.state.bag.spec_get(kind, r).is_some() {
                assert(can_turn(env, kind, r, 1));
                assert(can_turn(env, kind, r, 3));
            }
        }
    }
}

impl<'a> Environment<'a> {
    /// Whether the tables hold what a turn from `r` to `to` looks up for a
    /// piece of `kind`.
    fn turn_served(&self, kind: u8, r: Rotation, to: Rotation, turns: Ghost<int>) -> (b: bool)
        requires
            to == r.turned(turns@),
        ensures
            b == can_turn(*self, kind, r, turns@),
    {
        let piece = Piece { location: Coordinate::new(0, 0), rotation: r, name: kind };
        match self.state.kicks.get(&piece, r, to) {
            Some(kick) => kick.tests.values.len() == 0 || self.state.bag.get(kind, to).is_some(),
            None => false,
        }
    }

    /// Whether the tables hold what the turns of the ruleset look up for a
    /// piece of `kind` in orientation `r`, if it has a shape there.
    fn turns(&self, kind: u8, r: Rotation) -> (b: bool)
        ensures
            b == turns_at(*self, kind, r),
    {
        if self.state.bag.get(kind, r).is_none() {
            return true;
        }
        self.turn_served(kind, r, r.rotate_cw(), Ghost(1)) && self.turn_served(
            kind,
            r,
            r.rotate_ccw(),
            Ghost(3),
        ) && (!self.can_180 || self.turn_served(kind, r, r.rotate_180(), Ghost(2)))
    }

    /// Whether the tables hold what a search with a piece of `kind` looks up.
    pub fn plays(&self, kind: u8) -> (b: bool)
        ensures
            b == playable(*self, kind),
    {
        proof {
            lemma_playable(*self, kind);
        }
        self.state.bag.get(kind, Rotation::North).is_some() && self.turns(kind, Rotation::North)
            && self.turns(kind, Rotation::East) && self.turns(kind, Rotation::South) && self.turns(
            kind,
            Rotation::West,
        )
    }
}

} // verus!
