//! Combo search: ways to place the pieces of a queue, with one hold slot, so
//! that as few placements as possible add to the stack.

use crate::board::{Board, count_minos};
use crate::environment::Environment;
use crate::finesse::{Finesse, finesse_short};
use crate::placement::{lemma_placement_list, placement_list, placements, playable};
use crate::text::{chars_of, join, join_chars, string_of, views};
use vstd::prelude::*;

verus! {

/// One placement on a path: the board after it, the kind placed, the keys.
#[derive(Copy, Clone, Debug)]
pub struct PathItem(pub Board, pub u8, pub Finesse);

/// A state of the search: the board, the piece in hold, the pieces yet to
/// come, and how the state was reached: the state before it, and the piece
/// that was placed and the keys that placed it.
#[derive(Debug)]
pub struct Node<'a> {
    pub board: Board,
    pub hold: Option<u8>,
    pub queue: &'a [u8],
    pub prev: Option<Box<Node<'a>>>,
    pub finesse: Finesse,
    pub used: Option<u8>,
    pub ptr: usize,
}

/// The text of a placement on a path, as in `(T cw,sd)`.
pub open spec fn item_text(item: PathItem) -> Seq<char> {
    seq!['(', item.1 as char, ' '] + finesse_short(item.2@) + seq![')']
}

/// The texts of the placements, in their order.
pub open spec fn item_texts(path: Seq<PathItem>) -> Seq<Seq<char>> {
    Seq::new(path.len(), |i: int| item_text(path[i]))
}

impl<'a> Node<'a> {
    /// The number of states on the way to this one, this one counted.
    pub open spec fn spec_size(self) -> nat
        decreases self,
    {
        match self.prev {
            Some(p) => 1 + p.spec_size(),
            None => 1,
        }
    }

    /// Whether every state on the way that has a state before it names the
    /// piece that was placed.
    pub open spec fn linked(self) -> bool
        decreases self,
    {
        match self.prev {
            Some(p) => self.used.is_some() && p.linked(),
            None => true,
        }
    }

    /// The placements on the way to this state, first placement first.
    pub open spec fn spec_path(self) -> Seq<PathItem>
        decreases self,
    {
        match self.prev {
            Some(p) => p.spec_path().push(PathItem(self.board, self.used.unwrap(), self.finesse)),
            None => Seq::empty(),
        }
    }

    /// The number of placements on the way that left more cells set than
    /// there were before.
    pub open spec fn spec_breaks(self) -> nat
        decreases self,
    {
        match self.prev {
            Some(p) => (if count_minos(self.board@) > count_minos(p.board@) {
                1nat
            } else {
                0nat
            }) + p.spec_breaks(),
            None => 0,
        }
    }

    /// The number of placements on the way that did not leave the board
    /// empty.
    pub open spec fn spec_non_pcs(self) -> nat
        decreases self,
    {
        match self.prev {
            Some(p) => (if count_minos(self.board@) != 0 {
                1nat
            } else {
                0nat
            }) + p.spec_non_pcs(),
            None => 0,
        }
    }

    /// The counts along the way are bounded by its length.
    pub proof fn lemma_counts(self)
        ensures
            self.spec_breaks() < self.spec_size(),
            self.spec_non_pcs() < self.spec_size(),
            self.spec_path().len() + 1 == self.spec_size(),
        decreases self,
    {
        match self.prev {
            Some(p) => {
                p.lemma_counts();
            },
            None => {},
        }
    }

    /// A copy of this state and of the way to it.
    pub fn duplicate(&self) -> (n: Node<'a>)
        ensures
            n == *self,
        decreases *self,
    {
        let prev = match &self.prev {
            Some(p) => Some(Box::new(p.duplicate())),
            None => None,
        };
        Node {
            board: self.board,
            hold: self.hold,
            queue: self.queue,
            prev,
            finesse: self.finesse,
            used: self.used,
            ptr: self.ptr,
        }
    }

    /// Whether both states are at the same place in the queue with the same
    /// piece in hold and the same board.
    pub fn same_state(&self, other: &Node<'a>) -> (b: bool)
        ensures
            b == (self.ptr == other.ptr && self.hold == other.hold && self.board == other.board),
    {
        let holds = match (self.hold, other.hold) {
            (Some(a), Some(b)) => a == b,
            (None, None) => true,
            _ => false,
        };
        self.ptr == other.ptr && holds && self.board == other.board
    }

    /// The number of states on the way to this one, this one counted.
    pub fn size(&self) -> (n: usize)
        requires
            self.spec_size() <= usize::MAX,
        ensures
            n == self.spec_size(),
        decreases *self,
    {
        match &self.prev {
            Some(p) => 1 + p.size(),
            None => 1,
        }
    }

    /// The placements on the way to this state, first placement first.
    pub fn path(&self) -> (v: Vec<PathItem>)
        requires
            self.linked(),
        ensures
            v@ == self.spec_path(),
        decreases *self,
    {
        match &self.prev {
            Some(p) => {
                let mut v = p.path();
                v.push(PathItem(self.board, self.used.unwrap(), self.finesse));
                v
            },
            None => Vec::new(),
        }
    }

    /// The way to this state as text: the kind and the short text of the keys
    /// of each placement, as in `(T cw,sd), (I )`.
    pub fn path_small(&self) -> (s: String)
        requires
            self.linked(),
        ensures
            s@ == join(item_texts(self.spec_path()), seq![',', ' ']),
    {
        let path = self.path();
        let mut texts: Vec<Vec<char>> = Vec::new();
        let mut i: usize = 0;
        while i < path.len()
            invariant
                i <= path@.len(),
                path@ == self.spec_path(),
                views(texts@) == item_texts(path@).subrange(0, i as int),
            decreases path@.len() - i,
        {
            let item = path[i];
            let mut t: Vec<char> = Vec::new();
            t.push('(');
            t.push(item.1 as char);
            t.push(' ');
            let short = chars_of(item.2.short().as_str());
            crate::text::push_all(&mut t, short.as_slice());
            t.push(')');
            assert(t@ =~= item_text(item));
            let ghost before = views(texts@);
            texts.push(t);
            assert(views(texts@) =~= before.push(t@));
            assert(views(texts@) =~= item_texts(path@).subrange(0, i as int + 1));
            i = i + 1;
        }
        assert(item_texts(path@).subrange(0, path@.len() as int) =~= item_texts(path@));
        let mut sep: Vec<char> = Vec::new();
        sep.push(',');
        sep.push(' ');
        assert(sep@ =~= seq![',', ' ']);
        let text = join_chars(&texts, sep.as_slice());
        string_of(text.as_slice())
    }

    /// The number of placements on the way that left more cells set than
    /// there were before.
    pub fn breaks(&self) -> (n: usize)
        requires
            self.spec_size() <= usize::MAX,
        ensures
            n == self.spec_breaks(),
        decreases *self,
    {
        match &self.prev {
            Some(p) => {
                proof {
                    p.lemma_counts();
                }
                (if self.board.num_minos() > p.board.num_minos() {
                    1
                } else {
                    0
                }) + p.breaks()
            },
            None => 0,
        }
    }

    /// The number of placements on the way that did not leave the board
    /// empty.
    pub fn non_pcs(&self) -> (n: usize)
        requires
            self.spec_size() <= usize::MAX,
        ensures
            n == self.spec_non_pcs(),
        decreases *self,
    {
        match &self.prev {
            Some(p) => {
                proof {
                    p.lemma_counts();
                }
                (if self.board.num_minos() != 0 {
                    1
                } else {
                    0
                }) + p.non_pcs()
            },
            None => 0,
        }
    }
}

/// The number of pieces that a state has left to place: those of its queue
/// and the one in hold.
pub open spec fn pieces_left(node: Node) -> nat {
    node.queue@.len() + (if node.hold.is_some() {
        1nat
    } else {
        0nat
    })
}

/// Whether `child` is the state that follows `parent` when `used` is placed
/// as `mv` says, leaving `hold` in hold and `rest` in the queue.
pub open spec fn follows(
    child: Node,
    parent: Node,
    mv: (Board, Finesse),
    hold: Option<u8>,
    rest: Seq<u8>,
    used: u8,
) -> bool {
    &&& child.board == mv.0
    &&& child.finesse == mv.1
    &&& child.hold == hold
    &&& child.queue@ == rest
    &&& child.used == Some(used)
    &&& child.prev == Some(Box::new(parent))
    &&& child.ptr == parent.ptr + 1
}

/// Whether the tables of `env` serve the pieces of the queue and the piece
/// in hold.
pub open spec fn serves_all(env: Environment, hold: Option<u8>, queue: Seq<u8>) -> bool {
    &&& hold matches Some(h) ==> playable(env, h)
    &&& forall|i: int| 0 <= i < queue.len() ==> playable(env, #[trigger] queue[i])
}

/// Whether `children` are the states that follow `parent`. With an empty
/// queue the piece in hold is placed. Else the next piece is placed; then,
/// if a piece is in hold, that piece is placed and the next piece takes its
/// place; then, if no piece is in hold and a second piece follows, the
/// second piece is placed and the next piece goes to hold. Each time the
/// states come in the order of the placements.
pub open spec fn are_neighbors(
    children: Seq<Node>,
    parent: Node,
    env: Environment,
    first: Seq<(Board, Finesse)>,
    second: Seq<(Board, Finesse)>,
    third: Seq<(Board, Finesse)>,
) -> bool {
    let q = parent.queue@;
    &&& children.len() == first.len() + second.len() + third.len()
    &&& if q.len() == 0 {
        &&& second.len() == 0
        &&& third.len() == 0
        &&& match parent.hold {
            Some(h) => placements(parent.board, env, h, first) && forall|i: int|
                0 <= i < first.len() ==> follows(
                    #[trigger] children[i],
                    parent,
                    first[i],
                    None,
                    Seq::empty(),
                    h,
                ),
            None => first.len() == 0,
        }
    } else {
        &&& placements(parent.board, env, q[0], first)
        &&& forall|i: int|
            0 <= i < first.len() ==> follows(
                #[trigger] children[i],
                parent,
                first[i],
                parent.hold,
                q.drop_first(),
                q[0],
            )
        &&& match parent.hold {
            Some(h) => {
                &&& placements(parent.board, env, h, second)
                &&& third.len() == 0
                &&& forall|i: int|
                    0 <= i < second.len() ==> follows(
                        #[trigger] children[first.len() + i],
                        parent,
                        second[i],
                        Some(q[0]),
                        q.drop_first(),
                        h,
                    )
            },
            None => {
                &&& second.len() == 0
                &&& if q.len() >= 2 {
                    &&& placements(parent.board, env, q[1], third)
                    &&& forall|i: int|
                        0 <= i < third.len() ==> follows(
                            #[trigger] children[first.len() + i],
                            parent,
                            third[i],
                            Some(q[0]),
                            q.subrange(2, q.len() as int),
                            q[1],
                        )
                } else {
                    third.len() == 0
                }
            },
        }
    }
}

/// Appends to `out` the states that follow `parent` when `used` is placed in
/// each of the ways of `moves`.
fn push_children<'a>(
    out: &mut Vec<Node<'a>>,
    parent: &Node<'a>,
    moves: &Vec<(Board, Finesse)>,
    hold: Option<u8>,
    rest: &'a [u8],
    used: u8,
)
    requires
        parent.ptr < usize::MAX,
    ensures
        final(out)@.len() == old(out)@.len() + moves@.len(),
        forall|i: int| 0 <= i < old(out)@.len() ==> final(out)@[i] == old(out)@[i],
        forall|j: int|
            old(out)@.len() <= j < final(out)@.len() ==> follows(
                #[trigger] final(out)@[j],
                *parent,
                moves@[j - old(out)@.len()],
                hold,
                rest@,
                used,
            ),
{
    let ghost before = out@;
    let mut i: usize = 0;
    while i < moves.len()
        invariant
            i <= moves@.len(),
            parent.ptr < usize::MAX,
            out@.len() == before.len() + i,
            forall|j: int| 0 <= j < before.len() ==> out@[j] == before[j],
            forall|j: int|
                before.len() <= j < out@.len() ==> follows(
                    #[trigger] out@[j],
                    *parent,
                    moves@[j - before.len()],
                    hold,
                    rest@,
                    used,
                ),
        decreases moves@.len() - i,
    {
        let child = Node {
            board: moves[i].0,
            hold,
            queue: rest,
            prev: Some(Box::new(parent.duplicate())),
            finesse: moves[i].1,
            used: Some(used),
            ptr: parent.ptr + 1,
        };
        out.push(child);
        i = i + 1;
    }
}

impl<'a> Node<'a> {
    /// The states that follow this one when one more piece is placed.
    pub fn neighbors(self, env: &Environment) -> (n: Vec<Node<'a>>)
        requires
            self.ptr < usize::MAX,
            serves_all(*env, self.hold, self.queue@),
        ensures
            exists|first: Seq<(Board, Finesse)>, second: Seq<(Board, Finesse)>, third: Seq<(Board, Finesse)>|
                #[trigger] are_neighbors(n@, self, *env, first, second, third),
    {
        let ghost none: Seq<(Board, Finesse)> = Seq::empty();
        let mut n: Vec<Node<'a>> = Vec::new();
        let len = self.queue.len();
        if len == 0 {
            match self.hold {
                Some(h) => {
                    let moves = self.board.get_next_boards(h, env);
                    let rest = slice_of(self.queue, 0, 0);
                    push_children(&mut n, &self, &moves, None, rest, h);
                    proof {
                        assert(rest@ =~= Seq::<u8>::empty());
                        assert forall|i: int| 0 <= i < moves@.len() implies follows(
                            #[trigger] n@[i],
                            self,
                            moves@[i],
                            None,
                            Seq::empty(),
                            h,
                        ) by {}
                        assert(are_neighbors(n@, self, *env, moves@, none, none));
                    }
                },
                None => {
                    proof {
                        assert(are_neighbors(n@, self, *env, none, none, none));
                    }
                },
            }
            return n;
        }
        let next = self.queue[0];
        assert(self.queue@[0] == next);
        let rest = slice_of(self.queue, 1, len);
        assert(rest@ =~= self.queue@.drop_first());
        let first = self.board.get_next_boards(next, env);
        push_children(&mut n, &self, &first, self.hold, rest, next);
        let ghost firsts = n@;
        assert forall|i: int| 0 <= i < first@.len() implies follows(
            #[trigger] firsts[i],
            self,
            first@[i],
            self.hold,
            self.queue@.drop_first(),
            self.queue@[0],
        ) by {}
        match self.hold {
            Some(h) => {
                let second = self.board.get_next_boards(h, env);
                push_children(&mut n, &self, &second, Some(next), rest, h);
                proof {
                    assert forall|i: int| 0 <= i < first@.len() implies follows(
                        #[trigger] n@[i],
                        self,
                        first@[i],
                        self.hold,
                        self.queue@.drop_first(),
                        self.queue@[0],
                    ) by {
                        assert(n@[i] == firsts[i]);
                    }
                    assert forall|i: int| 0 <= i < second@.len() implies follows(
                        #[trigger] n@[first@.len() + i],
                        self,
                        second@[i],
                        Some(self.queue@[0]),
                        self.queue@.drop_first(),
                        h,
                    ) by {}
                    assert(are_neighbors(n@, self, *env, first@, second@, none));
                }
            },
            None => {
                if len >= 2 {
                    let after = self.queue[1];
                    assert(self.queue@[1] == after);
                    let rest = slice_of(self.queue, 2, len);
                    let third = self.board.get_next_boards(after, env);
                    push_children(&mut n, &self, &third, Some(next), rest, after);
                    proof {
                        assert forall|i: int| 0 <= i < first@.len() implies follows(
                            #[trigger] n@[i],
                            self,
                            first@[i],
                            self.hold,
                            self.queue@.drop_first(),
                            self.queue@[0],
                        ) by {
                            assert(n@[i] == firsts[i]);
                        }
                        assert forall|i: int| 0 <= i < third@.len() implies follows(
                            #[trigger] n@[first@.len() + i],
                            self,
                            third@[i],
                            Some(self.queue@[0]),
                            self.queue@.subrange(2, self.queue@.len() as int),
                            self.queue@[1],
                        ) by {}
                        assert(are_neighbors(n@, self, *env, first@, none, third@));
                    }
                } else {
                    proof {
                        assert(are_neighbors(n@, self, *env, first@, none, none));
                    }
                }
            },
        }
        n
    }
}

/// The part of `s` from place `from` up to, not including, place `to`.
fn slice_of<'a>(s: &'a [u8], from: usize, to: usize) -> (r: &'a [u8])
    requires
        from <= to <= s@.len(),
    ensures
        r@ == s@.subrange(from as int, to as int),
{
    &s[from..to]
}

/// Each state that follows another has one piece less left to place, is one
/// state further along the way, and names the piece that was placed.
pub proof fn lemma_neighbors(
    children: Seq<Node>,
    parent: Node,
    env: Environment,
    first: Seq<(Board, Finesse)>,
    second: Seq<(Board, Finesse)>,
    third: Seq<(Board, Finesse)>,
)
    requires
        are_neighbors(children, parent, env, first, second, third),
        serves_all(env, parent.hold, parent.queue@),
    ensures
        pieces_left(parent) == 0 ==> children.len() == 0,
        forall|i: int|
            0 <= i < children.len() ==> {
                &&& pieces_left(#[trigger] children[i]) + 1 == pieces_left(parent)
                &&& children[i].prev == Some(Box::new(parent))
                &&& children[i].ptr == parent.ptr + 1
                &&& children[i].used.is_some()
                &&& children[i].spec_size() == parent.spec_size() + 1
                &&& parent.linked() ==> children[i].linked()
                &&& serves_all(env, children[i].hold, children[i].queue@)
            },
{
    let q = parent.queue@;
    assert forall|i: int| 0 <= i < children.len() implies {
        &&& pieces_left(#[trigger] children[i]) + 1 == pieces_left(parent)
        &&& children[i].prev == Some(Box::new(parent))
        &&& children[i].ptr == parent.ptr + 1
        &&& children[i].used.is_some()
        &&& children[i].spec_size() == parent.spec_size() + 1
        &&& parent.linked() ==> children[i].linked()
        &&& serves_all(env, children[i].hold, children[i].queue@)
    } by {
        let c = children[i];
        if q.len() == 0 {
            assert(follows(c, parent, first[i], None, Seq::empty(), parent.hold.unwrap()));
        } else if i < first.len() {
            assert(follows(c, parent, first[i], parent.hold, q.drop_first(), q[0]));
            assert forall|j: int| 0 <= j < c.queue@.len() implies playable(env, #[trigger] c.queue@[j]) by {
                assert(c.queue@[j] == q[j + 1]);
            }
        } else {
            let k = i - first.len();
            match parent.hold {
                Some(h) => {
                    assert(follows(children[first.len() + k], parent, second[k], Some(q[0]), q.drop_first(), h));
                    assert forall|j: int| 0 <= j < c.queue@.len() implies playable(
                        env,
                        #[trigger] c.queue@[j],
                    ) by {
                        assert(c.queue@[j] == q[j + 1]);
                    }
                },
                None => {
                    assert(follows(
                        children[first.len() + k],
                        parent,
                        third[k],
                        Some(q[0]),
                        q.subrange(2, q.len() as int),
                        q[1],
                    ));
                    assert forall|j: int| 0 <= j < c.queue@.len() implies playable(
                        env,
                        #[trigger] c.queue@[j],
                    ) by {
                        assert(c.queue@[j] == q[j + 2]);
                    }
                },
            }
        }
    }
}

/// Whether `node` is `start` or descends from it, one placement after the
/// other.
pub open spec fn descends(node: Node, start: Node) -> bool
    decreases node,
{
    node == start || match node.prev {
        Some(p) => descends(*p, start),
        None => false,
    }
}

/// What the search holds of the states of one depth: each descends from the
/// start, has the same number of pieces left, and is as far along the way.
spec fn layer_ok(layer: Seq<Node>, start: Node, env: Environment, left: nat) -> bool {
    forall|i: int|
        0 <= i < layer.len() ==> {
            &&& descends(#[trigger] layer[i], start)
            &&& pieces_left(layer[i]) == left
            &&& layer[i].linked()
            &&& layer[i].ptr + left == start.ptr + pieces_left(start)
            &&& layer[i].spec_size() + left == start.spec_size() + pieces_left(start)
            &&& serves_all(env, layer[i].hold, layer[i].queue@)
        }
}

/// What the search makes of a state: the board, the piece in hold, the
/// pieces yet to come, the placements on the way to the state, and how many
/// of them added to the stack.
pub struct Stage {
    pub board: Board,
    pub hold: Option<u8>,
    pub rest: Seq<u8>,
    pub path: Seq<PathItem>,
    pub breaks: nat,
}

/// What the search makes of the state `node`.
pub open spec fn stage_of(node: Node) -> Stage {
    Stage {
        board: node.board,
        hold: node.hold,
        rest: node.queue@,
        path: node.spec_path(),
        breaks: node.spec_breaks(),
    }
}

/// What the search makes of the states, in their order.
pub open spec fn stages_of(nodes: Seq<Node>) -> Seq<Stage> {
    Seq::new(nodes.len(), |i: int| stage_of(nodes[i]))
}

/// The stage after `used` is placed as `mv` says from the stage `s`, leaving
/// `hold` in hold and `rest` to come.
pub open spec fn placed_stage(
    s: Stage,
    mv: (Board, Finesse),
    hold: Option<u8>,
    rest: Seq<u8>,
    used: u8,
) -> Stage {
    Stage {
        board: mv.0,
        hold,
        rest,
        path: s.path.push(PathItem(mv.0, used, mv.1)),
        breaks: (if count_minos(mv.0@) > count_minos(s.board@) {
            1nat
        } else {
            0nat
        }) + s.breaks,
    }
}

/// The stages after `used` is placed in each of the ways of `moves`.
pub open spec fn placed_stages(
    s: Stage,
    moves: Seq<(Board, Finesse)>,
    hold: Option<u8>,
    rest: Seq<u8>,
    used: u8,
) -> Seq<Stage> {
    Seq::new(moves.len(), |i: int| placed_stage(s, moves[i], hold, rest, used))
}

/// The stages that follow the stage `s` when one more piece is placed. With
/// nothing to come the piece in hold is placed. Else the next piece is
/// placed; then, if a piece is in hold, that piece is placed and the next
/// piece takes its place; then, if no piece is in hold and a second piece
/// follows, the second piece is placed and the next piece goes to hold. Each
/// time the stages come in the order of the placements.
pub open spec fn next_stages(s: Stage, env: Environment) -> Seq<Stage> {
    let q = s.rest;
    if q.len() == 0 {
        match s.hold {
            Some(h) => placed_stages(s, placement_list(s.board, env, h), None, Seq::empty(), h),
            None => Seq::empty(),
        }
    } else {
        placed_stages(s, placement_list(s.board, env, q[0]), s.hold, q.drop_first(), q[0]) + (match s.hold {
            Some(h) => placed_stages(
                s,
                placement_list(s.board, env, h),
                Some(q[0]),
                q.drop_first(),
                h,
            ),
            None => if q.len() >= 2 {
                placed_stages(
                    s,
                    placement_list(s.board, env, q[1]),
                    Some(q[0]),
                    q.subrange(2, q.len() as int),
                    q[1],
                )
            } else {
                Seq::empty()
            },
        })
    }
}

/// The stages that follow the first `upto` of `stages`, in their order; a
/// stage with more than `n` placements that added to the stack is not
/// followed.
pub open spec fn grown_stages(stages: Seq<Stage>, env: Environment, n: nat, upto: int) -> Seq<Stage>
    decreases upto,
{
    if upto <= 0 {
        Seq::empty()
    } else {
        grown_stages(stages, env, n, upto - 1) + (if stages[upto - 1].breaks <= n {
            next_stages(stages[upto - 1], env)
        } else {
            Seq::empty()
        })
    }
}

/// The stages that the search reaches from `start` by `depth` placements,
/// in the order in which it reaches them, when at most `n` placements may add
/// to the stack.
pub open spec fn combo_layer(start: Stage, env: Environment, n: nat, depth: nat) -> Seq<Stage>
    decreases depth,
{
    if depth == 0 {
        seq![start]
    } else {
        let before = combo_layer(start, env, n, (depth - 1) as nat);
        grown_stages(before, env, n, before.len() as int)
    }
}

/// The ways to those of the first `upto` of `stages` that have at most `n`
/// placements that added to the stack, in their order.
pub open spec fn kept_paths(stages: Seq<Stage>, n: nat, upto: int) -> Seq<Seq<PathItem>>
    decreases upto,
{
    if upto <= 0 {
        Seq::empty()
    } else if stages[upto - 1].breaks <= n {
        kept_paths(stages, n, upto - 1).push(stages[upto - 1].path)
    } else {
        kept_paths(stages, n, upto - 1)
    }
}

/// The ways that reach the vision of `env` from `start` with at most `n`
/// placements that add to the stack, in the order in which the search
/// reaches them. The vision is a number of placements, counted as the states
/// count them.
pub open spec fn combo_hits(start: Node, env: Environment, n: nat) -> Seq<Seq<PathItem>> {
    if env.vision < start.ptr {
        Seq::empty()
    } else {
        let layer = combo_layer(stage_of(start), env, n, (env.vision - start.ptr) as nat);
        kept_paths(layer, n, layer.len() as int)
    }
}

/// The ways as sequences.
pub open spec fn path_views(paths: Seq<Vec<PathItem>>) -> Seq<Seq<PathItem>> {
    Seq::new(paths.len(), |i: int| paths[i]@)
}

/// Whether no number below `n` has a way that reaches the vision.
pub open spec fn none_below(start: Node, env: Environment, n: nat) -> bool {
    forall|m: nat| m < n ==> (#[trigger] combo_hits(start, env, m)).len() == 0
}

/// Whether `paths` are the ways of the least number below the vision of
/// `env` that has any, or no ways if no number below the vision has one.
pub open spec fn combo_least(paths: Seq<Seq<PathItem>>, start: Node, env: Environment) -> bool {
    if paths.len() == 0 {
        none_below(start, env, env.vision as nat)
    } else {
        exists|n: nat|
            n < env.vision && paths == #[trigger] combo_hits(start, env, n) && none_below(start, env, n)
    }
}

/// The state that follows another is at the stage that follows the other's.
proof fn lemma_child_stage(
    child: Node,
    parent: Node,
    mv: (Board, Finesse),
    hold: Option<u8>,
    rest: Seq<u8>,
    used: u8,
)
    requires
        follows(child, parent, mv, hold, rest, used),
    ensures
        stage_of(child) == placed_stage(stage_of(parent), mv, hold, rest, used),
{
    assert(child.prev == Some(Box::new(parent)));
    assert(child.spec_path() =~= parent.spec_path().push(PathItem(mv.0, used, mv.1)));
    assert(child.spec_breaks() == (if count_minos(child.board@) > count_minos(parent.board@) {
        1nat
    } else {
        0nat
    }) + parent.spec_breaks());
}

/// The states that follow a state are at the stages that follow its stage.
proof fn lemma_neighbors_stages(
    children: Seq<Node>,
    parent: Node,
    env: Environment,
    first: Seq<(Board, Finesse)>,
    second: Seq<(Board, Finesse)>,
    third: Seq<(Board, Finesse)>,
)
    requires
        are_neighbors(children, parent, env, first, second, third),
    ensures
        stages_of(children) == next_stages(stage_of(parent), env),
{
    let s = stage_of(parent);
    let q = parent.queue@;
    let want = next_stages(s, env);
    if q.len() == 0 {
        match parent.hold {
            Some(h) => {
                lemma_placement_list(parent.board, env, h, first);
                assert forall|i: int| 0 <= i < children.len() implies stage_of(children[i]) == want[i] by {
                    lemma_child_stage(children[i], parent, first[i], None, Seq::empty(), h);
                }
            },
            None => {},
        }
    } else {
        lemma_placement_list(parent.board, env, q[0], first);
        match parent.hold {
            Some(h) => {
                lemma_placement_list(parent.board, env, h, second);
                assert forall|i: int| 0 <= i < children.len() implies stage_of(children[i]) == want[i] by {
                    if i < first.len() {
                        lemma_child_stage(children[i], parent, first[i], parent.hold, q.drop_first(), q[0]);
                    } else {
                        let k = i - first.len();
                        assert(follows(
                            children[first.len() + k],
                            parent,
                            second[k],
                            Some(q[0]),
                            q.drop_first(),
                            h,
                        ));
                        lemma_child_stage(children[i], parent, second[k], Some(q[0]), q.drop_first(), h);
                    }
                }
            },
            None => {
                if q.len() >= 2 {
                    lemma_placement_list(parent.board, env, q[1], third);
                }
                assert forall|i: int| 0 <= i < children.len() implies stage_of(children[i]) == want[i] by {
                    if i < first.len() {
                        lemma_child_stage(children[i], parent, first[i], parent.hold, q.drop_first(), q[0]);
                    } else {
                        let k = i - first.len();
                        assert(follows(
                            children[first.len() + k],
                            parent,
                            third[k],
                            Some(q[0]),
                            q.subrange(2, q.len() as int),
                            q[1],
                        ));
                        lemma_child_stage(
                            children[i],
                            parent,
                            third[k],
                            Some(q[0]),
                            q.subrange(2, q.len() as int),
                            q[1],
                        );
                    }
                }
            },
        }
    }
    assert(stages_of(children).len() == want.len());
    assert(stages_of(children) =~= want);
}

/// Once a depth has no stage, no greater depth has one.
proof fn lemma_layer_empty(start: Stage, env: Environment, n: nat, depth: nat, later: nat)
    requires
        combo_layer(start, env, n, depth).len() == 0,
        depth <= later,
    ensures
        combo_layer(start, env, n, later).len() == 0,
    decreases later,
{
    if depth < later {
        lemma_layer_empty(start, env, n, depth, (later - 1) as nat);
    }
}

/// Whether `path` is the way to a state that descends from `start`, lies
/// `vision` placements along the way, and has at most `n` placements that
/// add to the stack.
pub open spec fn combo_path(path: Seq<PathItem>, start: Node, vision: usize, n: nat) -> bool {
    exists|node: Node| #[trigger]
        descends(node, start) && node.ptr == vision && node.spec_breaks() <= n && node.linked()
            && path == node.spec_path()
}

/// Whether each of `paths` is a combo path for `n`.
pub open spec fn combo_paths(paths: Seq<Vec<PathItem>>, start: Node, vision: usize, n: nat) -> bool {
    forall|i: int| 0 <= i < paths.len() ==> combo_path((#[trigger] paths[i])@, start, vision, n)
}

/// Ways to place the pieces ahead of `state` so that few placements add to
/// the stack: for the least number below the vision of `env` for which there
/// are any, the ways that reach the vision with at most that many such
/// placements, in the order in which the search reaches them. Empty if there
/// is no such number.
pub fn ren_bfs(state: &Node, env: &Environment) -> (paths: Vec<Vec<PathItem>>)
    requires
        state.linked(),
        serves_all(*env, state.hold, state.queue@),
        state.ptr + pieces_left(*state) < usize::MAX,
        state.spec_size() + pieces_left(*state) < usize::MAX,
    ensures
        combo_least(path_views(paths@), *state, *env),
        paths@.len() > 0 ==> exists|n: nat|
            n < env.vision && #[trigger] combo_paths(paths@, *state, env.vision, n),
{
    let ql = env.vision;
    let mut n: usize = 0;
    while n < env.vision
        invariant
            n <= env.vision,
            ql == env.vision,
            none_below(*state, *env, n as nat),
            state.linked(),
            serves_all(*env, state.hold, state.queue@),
            state.ptr + pieces_left(*state) < usize::MAX,
            state.spec_size() + pieces_left(*state) < usize::MAX,
        decreases env.vision - n,
    {
        let mut p: Vec<Vec<PathItem>> = Vec::new();
        let mut layer: Vec<Node> = Vec::new();
        layer.push(state.duplicate());
        let ghost mut left: nat = pieces_left(*state);
        let ghost mut depth: nat = 0;
        let ghost origin = stage_of(*state);
        let mut stop = false;
        proof {
            assert(stages_of(layer@) =~= combo_layer(origin, *env, n as nat, 0));
            assert(path_views(p@) =~= Seq::<Seq<PathItem>>::empty());
        }
        while !stop
            invariant
                n < env.vision,
                ql == env.vision,
                origin == stage_of(*state),
                stages_of(layer@) == combo_layer(origin, *env, n as nat, depth),
                forall|x: int| 0 <= x < layer@.len() ==> (#[trigger] layer@[x]).ptr == state.ptr + depth,
                path_views(p@) == (if state.ptr + depth > ql {
                    combo_hits(*state, *env, n as nat)
                } else {
                    Seq::<Seq<PathItem>>::empty()
                }),
                state.ptr + pieces_left(*state) < usize::MAX,
                state.spec_size() + pieces_left(*state) < usize::MAX,
                layer_ok(layer@, *state, *env, left),
                stop ==> layer@.len() == 0,
                combo_paths(p@, *state, env.vision, n as nat),
            decreases left + (if stop { 0nat } else { 1nat }),
        {
            let mut next: Vec<Node> = Vec::new();
            let ghost depth_left = left;
            let mut i: usize = 0;
            let mut rest: Vec<Node> = Vec::new();
            std::mem::swap(&mut rest, &mut layer);
            proof {
                assert(stages_of(next@) =~= grown_stages(stages_of(rest@), *env, n as nat, 0));
                if state.ptr + depth == ql {
                    assert(path_views(p@) =~= kept_paths(stages_of(rest@), n as nat, 0));
                }
            }
            while i < rest.len()
                invariant
                    i <= rest@.len(),
                    n < env.vision,
                    ql == env.vision,
                    origin == stage_of(*state),
                    stages_of(rest@) == combo_layer(origin, *env, n as nat, depth),
                    forall|x: int| 0 <= x < rest@.len() ==> (#[trigger] rest@[x]).ptr == state.ptr + depth,
                    forall|x: int| 0 <= x < next@.len() ==> (#[trigger] next@[x]).ptr == state.ptr + depth + 1,
                    stages_of(next@) == grown_stages(stages_of(rest@), *env, n as nat, i as int),
                    path_views(p@) == (if state.ptr + depth > ql {
                        combo_hits(*state, *env, n as nat)
                    } else if state.ptr + depth == ql {
                        kept_paths(stages_of(rest@), n as nat, i as int)
                    } else {
                        Seq::<Seq<PathItem>>::empty()
                    }),
                    state.ptr + pieces_left(*state) < usize::MAX,
                    state.spec_size() + pieces_left(*state) < usize::MAX,
                    layer_ok(rest@, *state, *env, depth_left),
                    depth_left == 0 ==> next@.len() == 0,
                    depth_left > 0 ==> layer_ok(next@, *state, *env, (depth_left - 1) as nat),
                    combo_paths(p@, *state, env.vision, n as nat),
                decreases rest@.len() - i,
            {
                let current = rest[i].duplicate();
                assert(current == rest@[i as int]);
                let ghost found_views = path_views(p@);
                let ghost next_stages_before = stages_of(next@);
                assert(stages_of(rest@)[i as int] == stage_of(current));
                if current.breaks() <= n {
                    if current.ptr == ql {
                        let path = current.path();
                        assert(combo_path(path@, *state, env.vision, n as nat)) by {
                            assert(descends(current, *state));
                        }
                        let ghost found = p@;
                        p.push(path);
                        assert(path_views(p@) =~= found_views.push(current.spec_path()));
                        assert forall|x: int| 0 <= x < p@.len() implies combo_path(
                            (#[trigger] p@[x])@,
                            *state,
                            env.vision,
                            n as nat,
                        ) by {
                            if x < found.len() {
                                assert(p@[x] == found[x]);
                            }
                        }
                    }
                    let ghost before = next@;
                    let ghost parent = current;
                    let children = current.neighbors(env);
                    proof {
                        let (first, second, third) = choose|
                            first: Seq<(Board, Finesse)>,
                            second: Seq<(Board, Finesse)>,
                            third: Seq<(Board, Finesse)>,
                        | #[trigger] are_neighbors(children@, parent, *env, first, second, third);
                        lemma_neighbors(children@, parent, *env, first, second, third);
                        lemma_neighbors_stages(children@, parent, *env, first, second, third);
                        assert forall|j: int| 0 <= j < children@.len() implies descends(
                            #[trigger] children@[j],
                            *state,
                        ) by {
                            assert(children@[j].prev == Some(Box::new(parent)));
                        }
                    }
                    let ghost kids = children@;
                    let mut children = children;
                    next.append(&mut children);
                    proof {
                        assert(next@ =~= before + kids);
                        assert(stages_of(next@) =~= next_stages_before + stages_of(kids));
                        assert forall|x: int| 0 <= x < next@.len() implies (#[trigger] next@[x]).ptr
                            == state.ptr + depth + 1 by {
                            if x < before.len() {
                                assert(next@[x] == before[x]);
                            } else {
                                assert(next@[x] == kids[x - before.len()]);
                            }
                        }
                        if depth_left > 0 {
                            assert forall|j: int| 0 <= j < next@.len() implies {
                                &&& descends(#[trigger] next@[j], *state)
                                &&& pieces_left(next@[j]) == (depth_left - 1) as nat
                                &&& next@[j].linked()
                                &&& next@[j].ptr + (depth_left - 1) as nat == state.ptr + pieces_left(
                                    *state,
                                )
                                &&& next@[j].spec_size() + (depth_left - 1) as nat == state.spec_size()
                                    + pieces_left(*state)
                                &&& serves_all(*env, next@[j].hold, next@[j].queue@)
                            } by {
                                if j < before.len() {
                                    assert(next@[j] == before[j]);
                                }
                            }
                        }
                    }
                }
                i = i + 1;
            }
            if next.len() == 0 {
                stop = true;
            } else {
                proof {
                    left = (left - 1) as nat;
                }
            }
            proof {
                let stages = stages_of(rest@);
                assert(stages.len() == rest@.len());
                assert(stages_of(next@) == combo_layer(origin, *env, n as nat, depth + 1));
                if state.ptr + depth == ql {
                    assert(depth == (env.vision - state.ptr) as nat);
                }
                depth = depth + 1;
            }
            layer = next;
        }
        proof {
            assert(stages_of(layer@).len() == 0);
            if state.ptr + depth <= ql {
                lemma_layer_empty(origin, *env, n as nat, depth, (env.vision - state.ptr) as nat);
                assert(combo_hits(*state, *env, n as nat) =~= Seq::<Seq<PathItem>>::empty());
            }
            assert(path_views(p@) == combo_hits(*state, *env, n as nat));
            assert(path_views(p@).len() == p@.len());
        }
        if p.len() > 0 {
            assert(combo_paths(p@, *state, env.vision, n as nat));
            assert(combo_least(path_views(p@), *state, *env));
            return p;
        }
        proof {
            assert forall|m: nat| m < n + 1 implies (#[trigger] combo_hits(*state, *env, m)).len() == 0 by {
                if m < n {
                } else {
                    assert(m == n as nat);
                }
            }
        }
        n = n + 1;
    }
    let none: Vec<Vec<PathItem>> = Vec::new();
    assert(path_views(none@).len() == 0);
    none
}

} // verus!
