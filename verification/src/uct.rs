use vstd::prelude::*;

use crate::board::{
    count_empty, empty_cells, is_terminal, lemma_unwound_after_move, spec_result, unwound, Board,
};
use crate::defines::Mark;
use crate::node::{
    child_link_ok, child_move, children_have_move, node_legal_moves, node_partition_ok,
    node_stats_ok, tree_topology_ok, Node, NodeId, Tree,
};

verus! {

/// Declares rand's standard generator so it can cross this library's
/// signatures; its state stays opaque to the verifier.
#[verifier::external_type_specification]
#[verifier::external_body]
pub struct ExStdRng(rand::rngs::StdRng);

/// Relies on rand's `SliceRandom::choose`: it returns `None` exactly
/// on an empty slice, and otherwise a reference to one of the slice's
/// elements.
#[verifier::external_body]
fn choose_move(rng: &mut rand::rngs::StdRng, moves: &Vec<usize>) -> (r: Option<usize>)
    ensures
        r is Some <==> moves@.len() > 0,
        r matches Some(m) ==> moves@.contains(m),
{
    rand::seq::SliceRandom::choose(moves.as_slice(), rng).copied()
}

/// Node `k` lies on the parent chain from `c` up to the root.
pub open spec fn on_path(a: Seq<Node>, c: int, k: int) -> bool
    decreases c when c >= 0
{
    if k == c {
        true
    } else if c <= 0 {
        false
    } else if a[c].parent is Some {
        let p = a[c].parent.unwrap().index as int;
        if 0 <= p < c {
            on_path(a, p, k)
        } else {
            false
        }
    } else {
        false
    }
}

/// Everything on a parent chain lies at or below its start.
pub proof fn lemma_on_path_le(a: Seq<Node>, c: int, k: int)
    requires
        0 <= c,
        on_path(a, c, k),
    ensures
        k <= c,
    decreases c,
{
    if k != c && c > 0 && a[c].parent is Some {
        let p = a[c].parent.unwrap().index as int;
        if 0 <= p < c {
            lemma_on_path_le(a, p, k);
        }
    }
}

/// In a well-formed arena every parent chain reaches the root.
pub proof fn lemma_on_path_root(a: Seq<Node>, c: int)
    requires
        crate::node::tree_topology_ok(a),
        0 <= c < a.len(),
    ensures
        on_path(a, c, 0),
    decreases c,
{
    if c > 0 {
        let p = a[c].parent.unwrap().index as int;
        lemma_on_path_root(a, p);
    }
}

/// A parent chain continues through the parent of any non-root node
/// it reaches.
pub proof fn lemma_on_path_parent(a: Seq<Node>, s: int, c: int)
    requires
        crate::node::tree_topology_ok(a),
        0 <= s < a.len(),
        on_path(a, s, c),
        0 < c,
    ensures
        on_path(a, s, a[c].parent.unwrap().index as int),
    decreases s,
{
    let p = a[c].parent.unwrap().index as int;
    if s == c {
        assert(on_path(a, p, p));
    } else {
        let ps = a[s].parent.unwrap().index as int;
        lemma_on_path_parent(a, ps, c);
    }
}

/// Parent chains only read parent links, so they survive any change
/// that keeps every parent field.
pub proof fn lemma_on_path_congruent(a: Seq<Node>, b: Seq<Node>, c: int, k: int)
    requires
        0 <= c < a.len(),
        b.len() >= a.len(),
        forall|i: int| 0 <= i < a.len() ==> (#[trigger] b[i]).parent == a[i].parent,
    ensures
        on_path(a, c, k) == on_path(b, c, k),
    decreases c,
{
    if k != c && c > 0 && a[c].parent is Some {
        let p = a[c].parent.unwrap().index as int;
        if 0 <= p < c {
            lemma_on_path_congruent(a, b, p, k);
        }
    }
}

/// Total visits over a list of node ids.
pub open spec fn sum_child_visits(a: Seq<Node>, ids: Seq<NodeId>) -> int
    decreases ids.len(),
{
    if ids.len() == 0 {
        0
    } else {
        a[ids[0].index as int].visits + sum_child_visits(a, ids.drop_first())
    }
}

/// Total visits over a reported child list.
pub open spec fn sum_reported_visits(s: Seq<(usize, u64, u64)>) -> int
    decreases s.len(),
{
    if s.len() == 0 {
        0
    } else {
        s[0].2 + sum_reported_visits(s.drop_first())
    }
}

/// The visit sum ignores nodes outside the list.
pub proof fn lemma_sum_congruent(a: Seq<Node>, b: Seq<Node>, ids: Seq<NodeId>)
    requires
        forall|j: int|
            0 <= j < ids.len() ==> (#[trigger] ids[j]).index < a.len() && ids[j].index < b.len()
                && a[ids[j].index as int].visits == b[ids[j].index as int].visits,
    ensures
        sum_child_visits(a, ids) == sum_child_visits(b, ids),
    decreases ids.len(),
{
    if ids.len() > 0 {
        assert(ids[0] == ids[0]);
        assert forall|j: int| 0 <= j < ids.drop_first().len() implies (#[trigger] ids.drop_first()[j]).index
            < a.len() && ids.drop_first()[j].index < b.len() && a[ids.drop_first()[j].index as int].visits
            == b[ids.drop_first()[j].index as int].visits by {
            assert(ids.drop_first()[j] == ids[j + 1]);
        }
        lemma_sum_congruent(a, b, ids.drop_first());
    }
}

/// Appending one id adds exactly that node's visits to the sum.
pub proof fn lemma_sum_push(a: Seq<Node>, ids: Seq<NodeId>, x: NodeId)
    requires
        x.index < a.len(),
        forall|j: int| 0 <= j < ids.len() ==> (#[trigger] ids[j]).index < a.len(),
    ensures
        sum_child_visits(a, ids.push(x)) == sum_child_visits(a, ids) + a[x.index as int].visits,
    decreases ids.len(),
{
    if ids.len() == 0 {
        assert(ids.push(x)[0] == x);
        assert(ids.push(x).drop_first() =~= Seq::<NodeId>::empty());
        assert(sum_child_visits(a, ids.push(x)) == a[x.index as int].visits + sum_child_visits(
            a,
            Seq::<NodeId>::empty(),
        ));
        assert(sum_child_visits(a, Seq::<NodeId>::empty()) == 0);
        assert(sum_child_visits(a, ids) == 0);
    } else {
        assert(ids.push(x)[0] == ids[0]);
        assert(ids.push(x).drop_first() =~= ids.drop_first().push(x));
        assert forall|j: int| 0 <= j < ids.drop_first().len() implies (#[trigger] ids.drop_first()[j]).index
            < a.len() by {
            assert(ids.drop_first()[j] == ids[j + 1]);
        }
        lemma_sum_push(a, ids.drop_first(), x);
        assert(ids.push(x).len() > 0);
        assert(sum_child_visits(a, ids.push(x)) == a[ids[0].index as int].visits
            + sum_child_visits(a, ids.drop_first().push(x)));
        assert(sum_child_visits(a, ids) == a[ids[0].index as int].visits + sum_child_visits(
            a,
            ids.drop_first(),
        ));
    }
}

/// Walks from `start` up through the parent links to the root
/// inclusive, crediting every node on the way with one visit and with
/// the terminal result seen from that node's own mover.
fn backpropagate(tree: &mut Tree, start: NodeId, state: &Board)
    requires
        old(tree).wf(),
        start.index < old(tree).arena@.len(),
        state.wf(),
        is_terminal(state.pos@),
        forall|i: int|
            0 <= i < old(tree).arena@.len() ==> (#[trigger] old(tree).arena@[i]).visits
                < 0x7FFF_FFFF_FFFF_FFFF,
    ensures
        final(tree).wf(),
        final(tree).arena@.len() == old(tree).arena@.len(),
        forall|i: int|
            0 <= i < old(tree).arena@.len() ==> {
                let x = #[trigger] old(tree).arena@[i];
                let y = final(tree).arena@[i];
                &&& y.parent == x.parent
                &&& y.children == x.children
                &&& y.move_ == x.move_
                &&& y.untried_moves == x.untried_moves
                &&& y.player_just_moved == x.player_just_moved
                &&& y.pos_at_node == x.pos_at_node
                &&& y.id == x.id
                &&& on_path(old(tree).arena@, start.index as int, i) ==> (y.visits == x.visits + 1
                    && y.wins == x.wins + spec_result(
                    state.pos@,
                    x.player_just_moved,
                ).unwrap().spec_half_points())
                &&& !on_path(old(tree).arena@, start.index as int, i) ==> (y.visits == x.visits
                    && y.wins == x.wins)
            },
{
    let ghost a0 = tree.arena@;
    let mut cur = start;
    loop
        invariant_except_break
            tree.wf(),
            state.wf(),
            is_terminal(state.pos@),
            tree.arena@.len() == a0.len(),
            crate::node::tree_topology_ok(a0),
            start.index < a0.len(),
            cur.index < a0.len(),
            on_path(a0, start.index as int, cur.index as int),
            forall|i: int|
                0 <= i < a0.len() ==> {
                    let x = #[trigger] a0[i];
                    let y = tree.arena@[i];
                    &&& y.parent == x.parent
                    &&& y.children == x.children
                    &&& y.move_ == x.move_
                    &&& y.untried_moves == x.untried_moves
                    &&& y.player_just_moved == x.player_just_moved
                    &&& y.pos_at_node == x.pos_at_node
                    &&& y.id == x.id
                    &&& (on_path(a0, start.index as int, i) && !on_path(
                        a0,
                        cur.index as int,
                        i,
                    )) ==> (y.visits == x.visits + 1 && y.wins == x.wins + spec_result(
                        state.pos@,
                        x.player_just_moved,
                    ).unwrap().spec_half_points())
                    &&& !(on_path(a0, start.index as int, i) && !on_path(
                        a0,
                        cur.index as int,
                        i,
                    )) ==> (y.visits == x.visits && y.wins == x.wins)
                    &&& x.visits < 0x7FFF_FFFF_FFFF_FFFF
                },
        ensures
            tree.wf(),
            tree.arena@.len() == a0.len(),
            forall|i: int|
                0 <= i < a0.len() ==> {
                    let x = #[trigger] a0[i];
                    let y = tree.arena@[i];
                    &&& y.parent == x.parent
                    &&& y.children == x.children
                    &&& y.move_ == x.move_
                    &&& y.untried_moves == x.untried_moves
                    &&& y.player_just_moved == x.player_just_moved
                    &&& y.pos_at_node == x.pos_at_node
                    &&& y.id == x.id
                    &&& on_path(a0, start.index as int, i) ==> (y.visits == x.visits + 1 && y.wins
                        == x.wins + spec_result(
                        state.pos@,
                        x.player_just_moved,
                    ).unwrap().spec_half_points())
                    &&& !on_path(a0, start.index as int, i) ==> (y.visits == x.visits && y.wins
                        == x.wins)
                },
        decreases cur.index,
    {
        let node_pjm = tree.get(cur).player_just_moved;
        let game_result = state.get_result(node_pjm);
        let score = match game_result {
            Some(score) => score,
            None => {
                proof {
                    assert(false);
                }
                crate::defines::Score::Draw
            },
        };
        proof {
            assert(on_path(a0, cur.index as int, cur.index as int));
        }
        tree.update_node(cur, score);
        let parent = tree.get(cur).parent;
        match parent {
            Some(p) => {
                proof {
                    assert(tree.arena@[cur.index as int].parent == a0[cur.index as int].parent);
                    assert(cur.index >= 1) by {
                        if cur.index == 0 {
                            assert(a0[0].parent is None);
                        }
                    }
                    lemma_on_path_parent(a0, start.index as int, cur.index as int);
                    assert forall|i: int|
                        0 <= i < a0.len() implies (on_path(a0, cur.index as int, i) <==> (i
                        == cur.index || on_path(a0, p.index as int, i))) by {}
                    assert forall|i: int|
                        0 <= i < a0.len() && on_path(a0, p.index as int, i) implies i != cur.index by {
                        lemma_on_path_le(a0, p.index as int, i);
                    }
                }
                cur = p;
            },
            None => {
                proof {
                    assert(cur.index == 0) by {
                        if cur.index >= 1 {
                            assert(a0[cur.index as int].parent is Some);
                        }
                    }
                    assert forall|i: int|
                        0 <= i < a0.len() && on_path(a0, 0, i) implies i == 0 by {}
                }
                break ;
            },
        }
    }
}

/// Raising exactly one listed node's visits by one raises the sum by
/// one, provided the list never repeats a node.
pub proof fn lemma_sum_update_one(a: Seq<Node>, b: Seq<Node>, ids: Seq<NodeId>, fc: NodeId)
    requires
        fc.index < a.len(),
        fc.index < b.len(),
        b[fc.index as int].visits == a[fc.index as int].visits + 1,
        forall|j: int|
            0 <= j < ids.len() ==> (#[trigger] ids[j]).index < a.len() && ids[j].index < b.len(),
        forall|j: int|
            0 <= j < ids.len() && ids[j] != fc ==> a[(#[trigger] ids[j]).index as int].visits
                == b[ids[j].index as int].visits,
        forall|j1: int, j2: int| 0 <= j1 < j2 < ids.len() ==> ids[j1] != ids[j2],
        ids.contains(fc),
        forall|j: int| 0 <= j < ids.len() ==> (#[trigger] ids[j]).index < a.len(),
    ensures
        sum_child_visits(b, ids) == sum_child_visits(a, ids) + 1,
    decreases ids.len(),
{
    let rest = ids.drop_first();
    assert forall|j: int| 0 <= j < rest.len() implies #[trigger] rest[j] == ids[j + 1] by {}
    if ids[0] == fc {
        assert(!rest.contains(fc)) by {
            if rest.contains(fc) {
                let j = choose|j: int| 0 <= j < rest.len() && rest[j] == fc;
                assert(ids[j + 1] == fc && ids[0] == fc);
            }
        }
        assert forall|j: int|
            0 <= j < rest.len() implies (#[trigger] rest[j]).index < a.len() && rest[j].index
            < b.len() && a[rest[j].index as int].visits == b[rest[j].index as int].visits by {
            assert(rest[j] == ids[j + 1]);
            if rest[j] == fc {
                assert(rest.contains(fc));
            }
        }
        lemma_sum_congruent(a, b, rest);
    } else {
        assert(rest.contains(fc)) by {
            let j = choose|j: int| 0 <= j < ids.len() && ids[j] == fc;
            assert(j >= 1);
            assert(rest[j - 1] == fc);
        }
        lemma_sum_update_one(a, b, rest, fc);
    }
}

/// Appending one reported child adds exactly its visit entry to the
/// reported sum.
pub proof fn lemma_sum_reported_push(s: Seq<(usize, u64, u64)>, x: (usize, u64, u64))
    ensures
        sum_reported_visits(s.push(x)) == sum_reported_visits(s) + x.2,
    decreases s.len(),
{
    if s.len() == 0 {
        assert(s.push(x)[0] == x);
        assert(s.push(x).drop_first() =~= Seq::<(usize, u64, u64)>::empty());
        assert(sum_reported_visits(s.push(x)) == x.2 + sum_reported_visits(
            Seq::<(usize, u64, u64)>::empty(),
        ));
        assert(sum_reported_visits(Seq::<(usize, u64, u64)>::empty()) == 0);
        assert(sum_reported_visits(s) == 0);
    } else {
        assert(s.push(x)[0] == s[0]);
        assert(s.push(x).drop_first() =~= s.drop_first().push(x));
        lemma_sum_reported_push(s.drop_first(), x);
        assert(s.push(x).len() > 0);
        assert(sum_reported_visits(s.push(x)) == s[0].2 + sum_reported_visits(
            s.drop_first().push(x),
        ));
        assert(sum_reported_visits(s) == s[0].2 + sum_reported_visits(s.drop_first()));
    }
}

/// `fc` is the one child of the root that the parent chain from `c`
/// passes through.
pub open spec fn root_child_on_path(a: Seq<Node>, c: int, fc: NodeId) -> bool {
    &&& 0 < fc.index < a.len()
    &&& a[fc.index as int].parent == Some(NodeId { index: 0 })
    &&& on_path(a, c, fc.index as int)
    &&& forall|i: int|
        0 < i < a.len() && (#[trigger] a[i]).parent == Some(NodeId { index: 0 }) && on_path(
            a,
            c,
            i,
        ) ==> i == fc.index
}

/// What the search loop maintains about its tree between iterations:
/// the root mirrors the caller's position, its visit count equals the
/// number of finished iterations, every expanded node has been
/// visited, the root's children grow one per iteration until every
/// legal move is expanded, and the children's visits add up to the
/// iteration count.
pub open spec fn search_invariant(t: &Tree, root: &Board, iter: nat) -> bool {
    let a = t.arena@;
    let legal = root.spec_legal_moves();
    &&& t.wf()
    &&& a[0].pos_at_node@ == root.pos@
    &&& a[0].player_just_moved == root.player_just_moved
    &&& a[0].visits == iter
    &&& forall|i: int| 1 <= i < a.len() ==> 1 <= (#[trigger] a[i]).visits
    &&& forall|i: int| 0 <= i < a.len() ==> (#[trigger] a[i]).visits <= iter
    &&& a[0].children@.len() == vstd::math::min(iter as int, legal.len() as int)
    &&& a[0].untried_moves@.len() == legal.len() - vstd::math::min(iter as int, legal.len() as int)
    &&& (legal.len() > 0 ==> sum_child_visits(a, a[0].children@) == iter)
}

/// What one iteration knows, entering selection, about the tree it
/// started from.
pub open spec fn start_facts(a_start: Seq<Node>, legal: Seq<usize>, iter: nat, root: &Board) -> bool {
    &&& a_start.len() >= 1
    &&& a_start[0].visits == iter
    &&& a_start[0].pos_at_node@ == root.pos@
    &&& a_start[0].player_just_moved == root.player_just_moved
    &&& a_start[0].children@.len() == vstd::math::min(iter as int, legal.len() as int)
    &&& a_start[0].untried_moves@.len() == legal.len() - vstd::math::min(
        iter as int,
        legal.len() as int,
    )
    &&& (legal.len() > 0 ==> sum_child_visits(a_start, a_start[0].children@) == iter)
    &&& forall|i: int| 1 <= i < a_start.len() ==> 1 <= (#[trigger] a_start[i]).visits
    &&& forall|i: int| 0 <= i < a_start.len() ==> (#[trigger] a_start[i]).visits <= iter
}

/// What one iteration knows, entering its rollout, about the tree as
/// selection and expansion left it.
pub open spec fn mid_facts(
    a_start: Seq<Node>,
    a_mid: Seq<Node>,
    node_id: NodeId,
    node_before: NodeId,
    expand: bool,
    first_child: NodeId,
    legal: Seq<usize>,
    iter: nat,
    root: &Board,
) -> bool {
    &&& node_id.index < a_mid.len()
    &&& forall|i: int| 0 <= i < a_mid.len() ==> (#[trigger] a_mid[i]).visits <= iter
    &&& a_mid[0].pos_at_node@ == root.pos@
    &&& a_mid[0].player_just_moved == root.player_just_moved
    &&& a_mid[0].visits == iter
    &&& (legal.len() > 0 ==> node_id.index != 0 && root_child_on_path(
        a_mid,
        node_id.index as int,
        first_child,
    ) && sum_child_visits(a_mid, a_mid[0].children@) == iter)
    &&& (expand ==> a_mid.len() == a_start.len() + 1 && node_id.index == a_start.len())
    &&& (!expand ==> a_mid == a_start && node_id == node_before)
    &&& ((expand && node_before.index == 0) ==> a_mid[0].children@ == a_start[0].children@.push(
        node_id,
    ) && a_mid[0].untried_moves@.len() + 1 == a_start[0].untried_moves@.len() && a_start[0].untried_moves@.len()
        > 0)
    &&& (!(expand && node_before.index == 0) ==> a_mid[0].children == a_start[0].children
        && a_mid[0].untried_moves == a_start[0].untried_moves)
    &&& (node_before.index != 0 ==> a_start[0].untried_moves@.len() == 0)
    &&& ((node_before.index == 0 && !expand) ==> a_start[0].untried_moves@.len() == 0
        && a_start[0].children@.len() == 0)
}

/// Runs `itermax` UCT iterations from `rootstate` and reports, for
/// each child of the root in expansion order, its move, its
/// accumulated wins in half-points and its visit count. The caller's
/// board is only read: each simulation plays on a scratch copy and
/// undoes every move it made before the next iteration starts.
#[verifier::rlimit(100)]
pub fn uct(rootstate: &Board, itermax: u32, rng: &mut rand::rngs::StdRng) -> (results: Vec<
    (usize, u64, u64),
>)
    requires
        rootstate.wf(),
    ensures
        results@.len() == vstd::math::min(
            itermax as int,
            rootstate.spec_legal_moves().len() as int,
        ),
        forall|i: int|
            0 <= i < results@.len() ==> rootstate.spec_legal_moves().contains(
                (#[trigger] results@[i]).0,
            ),
        forall|i: int, j: int|
            0 <= i < j < results@.len() ==> (#[trigger] results@[i]).0 != (#[trigger] results@[j]).0,
        forall|i: int|
            0 <= i < results@.len() ==> 1 <= (#[trigger] results@[i]).2 && results@[i].1 <= 2
                * results@[i].2,
        rootstate.spec_legal_moves().len() > 0 ==> sum_reported_visits(results@) == itermax,
{
    let mut arena_tree = Tree::new(rootstate);
    let rootnode_id = NodeId { index: 0 };
    let ghost legal = rootstate.spec_legal_moves();
    proof {
        crate::board::lemma_empty_cells_upto_ascending(rootstate.pos@, rootstate.pos@.len());
        lemma_count_le(rootstate.pos@);
    }

    let mut state = rootstate.duplicate();

    let mut iter: u32 = 0;
    while iter < itermax
        invariant
            rootstate.wf(),
            legal == rootstate.spec_legal_moves(),
            rootnode_id.index == 0,
            state.wf(),
            state.same_state(rootstate),
            search_invariant(&arena_tree, rootstate, iter as nat),
            iter <= itermax,
        decreases itermax - iter,
    {
        let ghost a_start = arena_tree.arena@;
        proof {
            assert(start_facts(a_start, legal, iter as nat, rootstate));
        }
        let mut node_id = rootnode_id;
        let mut moves_to_root: usize = 0;
        let ghost mut first_child: NodeId = NodeId { index: 0 };

        // Selection: while the node is fully expanded and has
        // children, descend to its best child by UCT score, playing
        // the corresponding move on the scratch state.
        while arena_tree.get(node_id).untried_moves.len() == 0 && arena_tree.get(
            node_id,
        ).children.len() > 0
            invariant
                rootstate.wf(),
                legal == rootstate.spec_legal_moves(),
                arena_tree.wf(),
                arena_tree.arena@ == a_start,
                iter < itermax <= 0xFFFF_FFFF,
                start_facts(a_start, legal, iter as nat, rootstate),
                node_id.index < a_start.len(),
                state.wf(),
                state.pos@ == a_start[node_id.index as int].pos_at_node@,
                state.player_just_moved == a_start[node_id.index as int].player_just_moved,
                state.history@.len() == rootstate.history@.len() + moves_to_root,
                unwound(state.pos@, state.player_just_moved, state.history@, moves_to_root as nat)
                    == (rootstate.pos@, rootstate.player_just_moved, rootstate.history@),
                moves_to_root + count_empty(state.pos@) == count_empty(rootstate.pos@),
                node_id.index != 0 ==> root_child_on_path(
                    a_start,
                    node_id.index as int,
                    first_child,
                ),
                node_id.index != 0 ==> a_start[0].untried_moves@.len() == 0,
            decreases a_start.len() - node_id.index,
        {
            let selected = arena_tree.select_child(Some(node_id));
            let ghost j = choose|j: int|
                {
                    &&& 0 <= j < a_start[node_id.index as int].children@.len()
                    &&& selected == a_start[node_id.index as int].children@[j]
                };
            proof {
                assert(selected == a_start[node_id.index as int].children@[j]);
                assert(node_id.index < selected.index < a_start.len());
                assert(a_start[selected.index as int].parent == Some(
                    NodeId { index: node_id.index },
                ));
            }
            let m = match arena_tree.get(selected).move_ {
                Some(m) => m,
                None => {
                    proof {
                        assert(false);
                    }
                    0
                },
            };
            proof {
                assert(child_link_ok(a_start, selected.index as int));
                lemma_unwound_after_move(
                    state.pos@,
                    state.player_just_moved,
                    state.history@,
                    m,
                    moves_to_root as nat,
                );
                crate::board::lemma_empty_cells_upto_update(
                    state.pos@,
                    state.pos@.len(),
                    m,
                    crate::board::other_player(state.player_just_moved),
                );
                lemma_count_le(rootstate.pos@);
            }
            state.make_move(m);
            moves_to_root = moves_to_root + 1;
            proof {
                if node_id.index == 0 {
                    first_child = selected;
                    assert forall|i: int|
                        0 < i < a_start.len() && (#[trigger] a_start[i]).parent == Some(
                            NodeId { index: 0 },
                        ) && on_path(a_start, selected.index as int, i) implies i
                        == selected.index by {
                        if i != selected.index {
                            assert(on_path(a_start, 0, i));
                        }
                    }
                } else {
                    assert forall|i: int|
                        0 < i < a_start.len() && (#[trigger] a_start[i]).parent == Some(
                            NodeId { index: 0 },
                        ) && on_path(a_start, selected.index as int, i) implies i
                        == first_child.index by {
                        if i == selected.index {
                            assert(a_start[i].parent == Some(NodeId { index: node_id.index }));
                        } else {
                            assert(on_path(a_start, node_id.index as int, i));
                        }
                    }
                }
            }
            node_id = selected;
        }

        // Expansion: if the node still has untried moves, pick one at
        // random, play it, and grow the tree by the resulting child.
        let ghost node_before_expand = node_id;
        proof {
            assert(!(a_start[node_id.index as int].untried_moves@.len() == 0
                && a_start[node_id.index as int].children@.len() > 0));
        }
        let expand = arena_tree.get(node_id).untried_moves.len() > 0;
        if expand {
            let m_opt = choose_move(rng, &arena_tree.get(node_id).untried_moves);
            let m = match m_opt {
                Some(mv) => mv,
                None => {
                    proof {
                        assert(false);
                    }
                    0
                },
            };
            proof {
                assert(node_partition_ok(a_start, node_id.index as int));
                assert(node_legal_moves(a_start[node_id.index as int]).contains(m));
                assert(!is_terminal(state.pos@));
                crate::board::lemma_empty_cells_upto_contains(state.pos@, state.pos@.len(), m);
                lemma_unwound_after_move(
                    state.pos@,
                    state.player_just_moved,
                    state.history@,
                    m,
                    moves_to_root as nat,
                );
                crate::board::lemma_empty_cells_upto_update(
                    state.pos@,
                    state.pos@.len(),
                    m,
                    crate::board::other_player(state.player_just_moved),
                );
                lemma_count_le(rootstate.pos@);
            }
            state.make_move(m);
            moves_to_root = moves_to_root + 1;
            let new_id = arena_tree.add_child(Some(node_id), Some(m), &state);
            proof {
                assert forall|i: int|
                    0 <= i < a_start.len() implies (#[trigger] arena_tree.arena@[i]).parent
                    == a_start[i].parent by {}
                if node_id.index == 0 {
                    first_child = new_id;
                } else {
                    lemma_on_path_congruent(
                        a_start,
                        arena_tree.arena@,
                        node_id.index as int,
                        first_child.index as int,
                    );
                }
            }
            node_id = new_id;
        }
        let ghost a_mid = arena_tree.arena@;
        proof {
            // Expansion leaves every pre-existing node's visits
            // alone.
            assert forall|i: int|
                0 <= i < a_start.len() implies (#[trigger] a_mid[i]).visits
                == a_start[i].visits by {}
            assert forall|i: int|
                0 <= i < a_mid.len() implies (#[trigger] a_mid[i]).visits <= iter by {
                if i >= a_start.len() {
                    assert(a_mid[i].visits == 0);
                }
            }
            if !expand {
                assert(a_mid == a_start);
            }
            if legal.len() > 0 {
                // With legal moves at the root, every iteration
                // leaves the root: it either expands a root child or
                // descends through one.
                assert(node_id.index != 0) by {
                    if node_id.index == 0 {
                        assert(!expand);
                        assert(a_start[0].untried_moves@.len() == 0);
                        assert(a_start[0].children@.len() == 0);
                    }
                }
                // The path from the reached node passes exactly one
                // root child.
                if expand {
                    if node_before_expand.index == 0 {
                        assert(a_mid[node_id.index as int].parent == Some(NodeId { index: 0 }));
                        assert(on_path(a_mid, node_id.index as int, node_id.index as int));
                        assert forall|i: int|
                            0 < i < a_mid.len() && (#[trigger] a_mid[i]).parent == Some(
                                NodeId { index: 0 },
                            ) && on_path(a_mid, node_id.index as int, i) implies i
                            == node_id.index by {
                            if i != node_id.index {
                                assert(on_path(a_mid, 0, i));
                            }
                        }
                        assert(root_child_on_path(a_mid, node_id.index as int, first_child));
                    } else {
                        assert(root_child_on_path(
                            a_start,
                            node_before_expand.index as int,
                            first_child,
                        ));
                        assert forall|i: int|
                            0 <= i < a_start.len() implies (#[trigger] a_mid[i]).parent
                            == a_start[i].parent by {}
                        lemma_on_path_congruent(
                            a_start,
                            a_mid,
                            node_before_expand.index as int,
                            first_child.index as int,
                        );
                        assert(on_path(a_mid, node_id.index as int, first_child.index as int));
                        assert forall|i: int|
                            0 < i < a_mid.len() && (#[trigger] a_mid[i]).parent == Some(
                                NodeId { index: 0 },
                            ) && on_path(a_mid, node_id.index as int, i) implies i
                            == first_child.index by {
                            if i != node_id.index {
                                assert(on_path(a_mid, node_before_expand.index as int, i));
                                lemma_on_path_le(a_mid, node_before_expand.index as int, i);
                                lemma_on_path_congruent(
                                    a_start,
                                    a_mid,
                                    node_before_expand.index as int,
                                    i,
                                );
                                assert(a_start[i].parent == a_mid[i].parent);
                            }
                        }
                        assert(root_child_on_path(a_mid, node_id.index as int, first_child));
                    }
                } else {
                    assert(root_child_on_path(a_mid, node_id.index as int, first_child));
                }
                // The root children's visits still add up to the
                // iteration count.
                assert(sum_child_visits(a_mid, a_mid[0].children@) == iter) by {
                    assert forall|t: int|
                        0 <= t < a_start[0].children@.len() implies (#[trigger] a_start[0].children@[t]).index
                        < a_start.len() by {}
                    lemma_sum_congruent(a_start, a_mid, a_start[0].children@);
                    if expand && node_before_expand.index == 0 {
                        assert(a_mid[0].children@ == a_start[0].children@.push(node_id));
                        lemma_sum_push(a_mid, a_start[0].children@, node_id);
                        assert(a_mid[node_id.index as int].visits == 0);
                    } else {
                        assert(a_mid[0].children@ == a_start[0].children@);
                    }
                }
            }
            assert(mid_facts(
                a_start,
                a_mid,
                node_id,
                node_before_expand,
                expand,
                first_child,
                legal,
                iter as nat,
                rootstate,
            ));
        }

        // Rollout: play uniformly random legal moves on the scratch
        // state until the game is decided.
        while state.get_result(state.player_just_moved).is_none()
            invariant
                rootstate.wf(),
                legal == rootstate.spec_legal_moves(),
                arena_tree.wf(),
                arena_tree.arena@ == a_mid,
                iter < itermax <= 0xFFFF_FFFF,
                start_facts(a_start, legal, iter as nat, rootstate),
                mid_facts(
                    a_start,
                    a_mid,
                    node_id,
                    node_before_expand,
                    expand,
                    first_child,
                    legal,
                    iter as nat,
                    rootstate,
                ),
                state.wf(),
                state.history@.len() == rootstate.history@.len() + moves_to_root,
                unwound(state.pos@, state.player_just_moved, state.history@, moves_to_root as nat)
                    == (rootstate.pos@, rootstate.player_just_moved, rootstate.history@),
                moves_to_root + count_empty(state.pos@) == count_empty(rootstate.pos@),
            decreases count_empty(state.pos@),
        {
            let moves = state.get_moves();
            proof {
                assert(!is_terminal(state.pos@));
                assert(moves@ == empty_cells(state.pos@));
            }
            let m_opt = choose_move(rng, &moves);
            let m = match m_opt {
                Some(mv) => mv,
                None => {
                    proof {
                        assert(false);
                    }
                    0
                },
            };
            proof {
                crate::board::lemma_empty_cells_upto_contains(state.pos@, state.pos@.len(), m);
                lemma_unwound_after_move(
                    state.pos@,
                    state.player_just_moved,
                    state.history@,
                    m,
                    moves_to_root as nat,
                );
                crate::board::lemma_empty_cells_upto_update(
                    state.pos@,
                    state.pos@.len(),
                    m,
                    crate::board::other_player(state.player_just_moved),
                );
                lemma_count_le(rootstate.pos@);
            }
            state.make_move(m);
            moves_to_root = moves_to_root + 1;
        }

        // Backpropagation: credit every node from the reached one up
        // to the root with this simulation's outcome.
        proof {
            assert(is_terminal(state.pos@));
            assert forall|i: int|
                0 <= i < a_mid.len() implies (#[trigger] a_mid[i]).visits
                < 0x7FFF_FFFF_FFFF_FFFF by {}
        }
        backpropagate(&mut arena_tree, node_id, &state);
        proof {
            let a_fin = arena_tree.arena@;
            let l = legal.len() as int;
            lemma_on_path_root(a_mid, node_id.index as int);
            assert(a_fin[0].visits == iter + 1);
            assert(a_fin[0].pos_at_node@ == rootstate.pos@);
            assert(a_fin[0].player_just_moved == rootstate.player_just_moved);
            assert(a_fin[0].children@ == a_mid[0].children@);
            assert(a_fin[0].untried_moves@ == a_mid[0].untried_moves@);
            // Every expanded node keeps at least one visit; the new
            // leaf just received its first.
            assert forall|i: int| 1 <= i < a_fin.len() implies 1 <= (#[trigger] a_fin[i]).visits by {
                assert(a_mid[i] == a_mid[i]);
                if i >= a_start.len() {
                    assert(i == node_id.index);
                    assert(on_path(a_mid, node_id.index as int, i));
                } else {
                    assert(1 <= a_start[i].visits);
                    assert(a_mid[i].visits == a_start[i].visits) by {
                        if expand {
                            assert(a_mid[i].visits == a_start[i].visits);
                        }
                    }
                }
            }
            assert forall|i: int|
                0 <= i < a_fin.len() implies (#[trigger] a_fin[i]).visits <= iter + 1 by {
                assert(a_mid[i] == a_mid[i]);
                assert(a_mid[i].visits <= iter);
                if on_path(a_mid, node_id.index as int, i) {
                    assert(a_fin[i].visits == a_mid[i].visits + 1);
                } else {
                    assert(a_fin[i].visits == a_mid[i].visits);
                }
            }
            // One more child is expanded while untried root moves
            // remain; afterwards the root's child count stays put.
            if expand && node_before_expand.index == 0 {
                assert(a_start[0].untried_moves@.len() > 0);
                assert(vstd::math::min(iter as int, l) == iter as int);
                assert(a_fin[0].children@.len() == vstd::math::min(iter + 1, l));
                assert(a_fin[0].untried_moves@.len() == l - vstd::math::min(iter + 1, l));
            } else {
                assert(a_fin[0].children@ == a_start[0].children@);
                assert(a_fin[0].untried_moves@ == a_start[0].untried_moves@);
                if node_before_expand.index != 0 {
                    assert(a_start[0].untried_moves@.len() == 0);
                    assert(vstd::math::min(iter as int, l) == l);
                    assert(vstd::math::min(iter + 1, l) == l);
                } else {
                    assert(a_start[0].untried_moves@.len() == 0);
                    assert(a_start[0].children@.len() == 0);
                    assert(l == 0);
                }
            }
            // The root children's visits absorb exactly this
            // iteration's one new simulation.
            if legal.len() > 0 {
                let ch_mid = a_mid[0].children@;
                assert(root_child_on_path(a_mid, node_id.index as int, first_child));
                assert(a_fin[first_child.index as int].visits == a_mid[first_child.index
                    as int].visits + 1) by {
                    assert(a_mid[first_child.index as int] == a_mid[first_child.index as int]);
                }
                assert forall|t: int|
                    0 <= t < ch_mid.len() implies (#[trigger] ch_mid[t]).index < a_mid.len()
                    && ch_mid[t].index < a_fin.len() by {}
                assert forall|t: int|
                    0 <= t < ch_mid.len() && ch_mid[t] != first_child implies a_mid[(
                #[trigger] ch_mid[t]).index as int].visits == a_fin[ch_mid[t].index
                    as int].visits by {
                    let c = ch_mid[t];
                    assert(a_mid[c.index as int].parent == Some(NodeId { index: 0 }));
                    if on_path(a_mid, node_id.index as int, c.index as int) {
                        assert(c.index == first_child.index);
                        assert(c == first_child);
                    }
                    assert(a_mid[c.index as int] == a_mid[c.index as int]);
                }
                assert(ch_mid.contains(first_child)) by {
                    assert(a_mid[first_child.index as int].parent == Some(NodeId { index: 0 }));
                    assert(a_mid[(a_mid[first_child.index as int].parent).unwrap().index
                        as int].children@.contains(NodeId { index: first_child.index }));
                    assert(NodeId { index: first_child.index } == first_child);
                }
                lemma_sum_update_one(a_mid, a_fin, ch_mid, first_child);
                assert(sum_child_visits(a_fin, a_fin[0].children@) == iter + 1);
            }
            assert(search_invariant(&arena_tree, rootstate, (iter + 1) as nat));
        }

        // Unwind: undo exactly the moves this iteration played, so
        // the scratch state again mirrors the caller's board.
        let mut undone: usize = 0;
        while undone < moves_to_root
            invariant
                rootstate.wf(),
                legal == rootstate.spec_legal_moves(),
                search_invariant(&arena_tree, rootstate, (iter + 1) as nat),
                undone <= moves_to_root,
                state.wf(),
                state.history@.len() == rootstate.history@.len() + (moves_to_root - undone),
                unwound(
                    state.pos@,
                    state.player_just_moved,
                    state.history@,
                    (moves_to_root - undone) as nat,
                ) == (rootstate.pos@, rootstate.player_just_moved, rootstate.history@),
            decreases moves_to_root - undone,
        {
            state.take_move();
            undone = undone + 1;
        }
        iter = iter + 1;
    }

    // Reporting: each root child's move with its statistics, in
    // expansion order.
    let root_node = arena_tree.get(rootnode_id);
    let ghost a = arena_tree.arena@;
    let ghost ch = a[0].children@;
    let mut results: Vec<(usize, u64, u64)> = Vec::new();
    let mut j: usize = 0;
    while j < root_node.children.len()
        invariant
            arena_tree.wf(),
            a == arena_tree.arena@,
            ch == a[0].children@,
            *root_node == a[0],
            j <= ch.len(),
            results@.len() == j,
            forall|k: int|
                0 <= k < j ==> {
                    let c = a[ch[k].index as int];
                    &&& (#[trigger] results@[k]).0 == c.move_.unwrap()
                    &&& results@[k].1 == c.wins
                    &&& results@[k].2 == c.visits
                },
            sum_reported_visits(results@) == sum_child_visits(a, ch.take(j as int)),
        decreases ch.len() - j,
    {
        let child_id = root_node.children[j];
        let child = arena_tree.get(child_id);
        let m = match child.move_ {
            Some(m) => m,
            None => {
                proof {
                    assert(false);
                }
                0
            },
        };
        let ghost previous = results@;
        results.push((m, child.wins, child.visits));
        proof {
            assert(ch.take(j + 1) =~= ch.take(j as int).push(ch[j as int]));
            assert forall|t: int| 0 <= t < j implies (#[trigger] ch.take(j as int)[t]).index
                < a.len() by {}
            lemma_sum_push(a, ch.take(j as int), ch[j as int]);
            lemma_sum_reported_push(previous, (m, child.wins, child.visits));
        }
        j = j + 1;
    }
    proof {
        assert(ch.take(ch.len() as int) =~= ch);
        assert(node_partition_ok(a, 0));
        assert(node_legal_moves(a[0]) == legal);
        assert forall|k: int|
            0 <= k < results@.len() implies legal.contains((#[trigger] results@[k]).0) by {
            let c = ch[k];
            assert(children_have_move(a, 0, child_move(a, c))) by {
                assert(0 <= k < a[0].children@.len() && child_move(a, a[0].children@[k])
                    == child_move(a, c));
            }
        }
        assert forall|i: int, j2: int|
            0 <= i < j2 < results@.len() implies (#[trigger] results@[i]).0
            != (#[trigger] results@[j2]).0 by {
            assert(child_move(a, a[0].children@[i]) != child_move(a, a[0].children@[j2]));
        }
        assert forall|k: int|
            0 <= k < results@.len() implies 1 <= (#[trigger] results@[k]).2 && results@[k].1 <= 2
            * results@[k].2 by {
            let c = ch[k];
            assert(c.index >= 1 && c.index < a.len());
            assert(1 <= a[c.index as int].visits);
            assert(node_stats_ok(a[c.index as int]));
        }
        if legal.len() > 0 {
            assert(sum_reported_visits(results@) == sum_child_visits(a, ch));
        }
    }
    results
}


/// The number of empty cells never exceeds the cell count.
proof fn lemma_count_le(pos: Seq<Mark>)
    ensures
        count_empty(pos) <= pos.len(),
{
    lemma_count_upto_le(pos, pos.len());
}

proof fn lemma_count_upto_le(pos: Seq<Mark>, k: nat)
    ensures
        crate::board::empty_cells_upto(pos, k).len() <= k,
    decreases k,
{
    if k > 0 {
        lemma_count_upto_le(pos, (k - 1) as nat);
    }
}

} // verus!
