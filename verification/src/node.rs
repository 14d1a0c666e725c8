use vstd::prelude::*;

use crate::board::{empty_cells, is_terminal, other_player, Board};
use crate::defines::{Mark, Score, BOARD_SIZE};
use crate::math::{isqrt, ln_fp, uct_score, FP_SCALE};

verus! {

/// Stable identifier of a node inside the tree's arena.
#[derive(Debug, Copy, Clone, PartialEq, Eq, Structural)]
pub struct NodeId {
    pub index: usize,
}

/// One search-tree node: its links into the arena, the move that
/// produced it, its accumulated statistics (wins counted in
/// half-points), the legal moves not yet expanded into children, and
/// a ghost snapshot of the position the node stands for.
pub struct Node {
    pub id: NodeId,
    pub parent: Option<NodeId>,
    pub children: Vec<NodeId>,
    pub move_: Option<usize>,
    pub wins: u64,
    pub visits: u64,
    pub untried_moves: Vec<usize>,
    pub player_just_moved: Mark,
    pub pos_at_node: Ghost<Seq<Mark>>,
}

/// The legal moves of the position a node stands for.
pub open spec fn node_legal_moves(n: Node) -> Seq<usize> {
    if is_terminal(n.pos_at_node@) {
        Seq::empty()
    } else {
        empty_cells(n.pos_at_node@)
    }
}

/// The move recorded on a child node.
pub open spec fn child_move(a: Seq<Node>, c: NodeId) -> usize {
    a[c.index as int].move_.unwrap()
}

/// Some child of node `i` carries the move `m`.
pub open spec fn children_have_move(a: Seq<Node>, i: int, m: usize) -> bool {
    exists|j: int| 0 <= j < a[i].children@.len() && child_move(a, #[trigger] a[i].children@[j]) == m
}

/// The move-set partition: at every node, the children's moves and
/// the untried moves are disjoint, free of duplicates, and together
/// they are exactly the legal moves of the node's position.
pub open spec fn node_partition_ok(a: Seq<Node>, i: int) -> bool {
    &&& forall|m: usize| #[trigger] node_legal_moves(a[i]).contains(m) <==> (a[i].untried_moves@.contains(
        m,
    ) || children_have_move(a, i, m))
    &&& forall|m: usize| !(#[trigger] a[i].untried_moves@.contains(m) && children_have_move(a, i, m))
    &&& a[i].untried_moves@.no_duplicates()
    &&& forall|j1: int, j2: int| 0 <= j1 < j2 < a[i].children@.len() ==> child_move(
        a,
        #[trigger] a[i].children@[j1],
    ) != child_move(a, #[trigger] a[i].children@[j2])
}

/// Per-node sanity: a nine-cell snapshot, a real player as mover, and
/// win mass bounded by two half-points per visit.
pub open spec fn node_stats_ok(n: Node) -> bool {
    &&& n.pos_at_node@.len() == BOARD_SIZE
    &&& n.player_just_moved != Mark::NoPlayer
    &&& n.wins <= 2 * n.visits
}

/// A non-root node extends its parent's position by its own move,
/// played into a cell that was empty there.
pub open spec fn child_link_ok(a: Seq<Node>, i: int) -> bool {
    let p = a[i].parent.unwrap().index as int;
    let m = a[i].move_.unwrap();
    &&& m < BOARD_SIZE
    &&& a[p].pos_at_node@[m as int] == Mark::NoPlayer
    &&& a[i].pos_at_node@ == a[p].pos_at_node@.update(m as int, other_player(
        a[p].player_just_moved,
    ))
    &&& a[i].player_just_moved == other_player(a[p].player_just_moved)
}

/// The arena-wide topology: ids equal positions, the root alone has
/// no parent and no move, parents precede their children, child lists
/// point both ways and never repeat a node.
pub open spec fn tree_topology_ok(a: Seq<Node>) -> bool {
    &&& 1 <= a.len()
    &&& a[0].parent is None
    &&& a[0].move_ is None
    &&& forall|i: int| 0 <= i < a.len() ==> (#[trigger] a[i].id).index == i
    &&& forall|i: int| 1 <= i < a.len() ==> (#[trigger] a[i].parent) is Some
    &&& forall|i: int| 1 <= i < a.len() ==> (#[trigger] a[i].parent).unwrap().index < i
    &&& forall|i: int| 1 <= i < a.len() ==> (#[trigger] a[i].move_) is Some
    &&& forall|i: int, j: int|
        0 <= i < a.len() && 0 <= j < a[i].children@.len() ==> {
            let c = #[trigger] a[i].children@[j];
            &&& i < c.index < a.len()
            &&& a[c.index as int].parent == Some(NodeId { index: i as usize })
        }
    &&& forall|i: int| 1 <= i < a.len() ==> a[(#[trigger] a[i].parent).unwrap().index as int].children@.contains(
        NodeId { index: i as usize },
    )
    &&& forall|i: int, j1: int, j2: int|
        0 <= i < a.len() && 0 <= j1 < j2 < a[i].children@.len() ==> #[trigger] a[i].children@[j1]
            != #[trigger] a[i].children@[j2]
}

/// The arena tree that owns every node; nodes refer to each other
/// only through indices into it.
pub struct Tree {
    pub arena: Vec<Node>,
}

impl Tree {
    /// Full well-formedness of the tree.
    pub open spec fn wf(&self) -> bool {
        let a = self.arena@;
        &&& tree_topology_ok(a)
        &&& forall|i: int| 0 <= i < a.len() ==> node_stats_ok(#[trigger] a[i])
        &&& forall|i: int| 1 <= i < a.len() ==> #[trigger] child_link_ok(a, i)
        &&& forall|i: int| 0 <= i < a.len() ==> #[trigger] node_partition_ok(a, i)
    }

    /// A tree holding only a root that stands for `state`.
    pub fn new(state: &Board) -> (t: Tree)
        requires
            state.wf(),
        ensures
            t.wf(),
            t.arena@.len() == 1,
            t.arena@[0].pos_at_node@ == state.pos@,
            t.arena@[0].player_just_moved == state.player_just_moved,
            t.arena@[0].untried_moves@ == state.spec_legal_moves(),
            t.arena@[0].children@ == Seq::<NodeId>::empty(),
            t.arena@[0].visits == 0,
            t.arena@[0].wins == 0,
    {
        let mut tree_root = Tree { arena: Vec::new() };
        let parent_index: Option<NodeId> = None;
        let origin_move: Option<usize> = None;
        tree_root.add_child(parent_index, origin_move, state);
        tree_root
    }

    /// Read access to one node.
    pub fn get(&self, node_id: NodeId) -> (n: &Node)
        requires
            node_id.index < self.arena@.len(),
        ensures
            *n == self.arena@[node_id.index as int],
    {
        &self.arena[node_id.index]
    }

    /// Allocates a node for the position `state`, wiring it under
    /// `parent` as the child reached by `move_`; with no parent it
    /// founds the tree's root instead. The move leaves the parent's
    /// untried set and the new node joins its children.
    pub fn add_child(&mut self, parent: Option<NodeId>, move_: Option<usize>, state: &Board) -> (r:
        NodeId)
        requires
            state.wf(),
            match parent {
                Option::None => old(self).arena@.len() == 0 && move_ is None,
                Option::Some(p) => {
                    &&& old(self).wf()
                    &&& p.index < old(self).arena@.len()
                    &&& move_ is Some
                    &&& old(self).arena@[p.index as int].untried_moves@.contains(move_.unwrap())
                    &&& state.pos@ == old(self).arena@[p.index as int].pos_at_node@.update(
                        move_.unwrap() as int,
                        other_player(old(self).arena@[p.index as int].player_just_moved),
                    )
                    &&& state.player_just_moved == other_player(
                        old(self).arena@[p.index as int].player_just_moved,
                    )
                },
            },
        ensures
            final(self).wf(),
            r.index == old(self).arena@.len(),
            final(self).arena@.len() == old(self).arena@.len() + 1,
            ({
                let n = final(self).arena@[r.index as int];
                &&& n.parent == parent
                &&& n.move_ == move_
                &&& n.children@ == Seq::<NodeId>::empty()
                &&& n.wins == 0
                &&& n.visits == 0
                &&& n.untried_moves@ == state.spec_legal_moves()
                &&& n.player_just_moved == state.player_just_moved
                &&& n.pos_at_node@ == state.pos@
            }),
            parent matches Some(p) ==> {
                let before = old(self).arena@[p.index as int];
                let after = final(self).arena@[p.index as int];
                &&& after.children@ == before.children@.push(r)
                &&& after.untried_moves@.len() == before.untried_moves@.len() - 1
                &&& !after.untried_moves@.contains(move_.unwrap())
                &&& forall|m: usize| m != move_.unwrap() ==> (#[trigger] after.untried_moves@.contains(
                    m,
                ) <==> before.untried_moves@.contains(m))
                &&& after.parent == before.parent
                &&& after.move_ == before.move_
                &&& after.wins == before.wins
                &&& after.visits == before.visits
                &&& after.player_just_moved == before.player_just_moved
                &&& after.pos_at_node == before.pos_at_node
            },
            forall|i: int|
                0 <= i < old(self).arena@.len() && i != parent_spec_index(parent)
                    ==> final(self).arena@[i] == old(self).arena@[i],
    {
        let new_node_index = self.arena.len();
        let r = NodeId { index: new_node_index };
        let new_node = Node::new(r, parent, move_, state);
        self.arena.push(new_node);
        let total = self.arena.len();
        proof {
            assert(total == old(self).arena@.len() + 1);
            assert(old(self).arena@.len() < usize::MAX);
        }

        if let Some(parent_id) = parent {
            let m = match move_ {
                Some(m) => m,
                None => {
                    proof {
                        assert(false);
                    }
                    0
                },
            };
            // Register the child and retire the move from the
            // parent's untried set.
            let ghost old_untried = self.arena@[parent_id.index as int].untried_moves@;
            let mut position: usize = 0;
            let mut found = false;
            {
                let parent_node = &self.arena[parent_id.index];
                let mut k: usize = 0;
                while k < parent_node.untried_moves.len()
                    invariant
                        k <= parent_node.untried_moves@.len(),
                        found ==> position < k && parent_node.untried_moves@[position as int] == m,
                        !found ==> forall|t: int|
                            0 <= t < k ==> parent_node.untried_moves@[t] != m,
                    decreases parent_node.untried_moves@.len() - k,
                {
                    if !found && parent_node.untried_moves[k] == m {
                        found = true;
                        position = k;
                    }
                    k = k + 1;
                }
                proof {
                    if !found {
                        let w = choose|t: int|
                            0 <= t < old_untried.len() && old_untried[t] == m;
                        assert(old_untried[w] == m);
                        assert(false);
                    }
                }
            }
            let parent_node = &mut self.arena[parent_id.index];
            parent_node.children.push(r);
            parent_node.untried_moves.remove(position);
            proof {
                lemma_add_child_wf(
                    old(self).arena@,
                    self.arena@,
                    parent_id.index as int,
                    m,
                    position as int,
                    r,
                    state,
                );
            }
        } else {
            proof {
                let a = self.arena@;
                assert(a.len() == 1);
                assert forall|i: int| 0 <= i < a.len() implies #[trigger] node_partition_ok(a, i) by {
                    lemma_fresh_node_partition(a, 0);
                }
            }
        }
        r
    }

    /// Accumulates one simulation's outcome on one node: a visit and
    /// the result's half-point score.
    pub fn update_node(&mut self, node_id: NodeId, result: Score)
        requires
            old(self).wf(),
            node_id.index < old(self).arena@.len(),
            old(self).arena@[node_id.index as int].visits < 0x7FFF_FFFF_FFFF_FFFF,
        ensures
            final(self).wf(),
            final(self).arena@.len() == old(self).arena@.len(),
            ({
                let before = old(self).arena@[node_id.index as int];
                let after = final(self).arena@[node_id.index as int];
                &&& after.visits == before.visits + 1
                &&& after.wins == before.wins + result.spec_half_points()
                &&& after.parent == before.parent
                &&& after.children == before.children
                &&& after.move_ == before.move_
                &&& after.untried_moves == before.untried_moves
                &&& after.player_just_moved == before.player_just_moved
                &&& after.pos_at_node == before.pos_at_node
                &&& after.id == before.id
            }),
            forall|i: int|
                0 <= i < old(self).arena@.len() && i != node_id.index ==> final(self).arena@[i]
                    == old(self).arena@[i],
    {
        let node = &mut self.arena[node_id.index];
        node.update(result);
        proof {
            lemma_stats_only_change_preserves_wf(old(self).arena@, self.arena@);
        }
    }
}

/// The UCT score of child `j` of node `p`.
pub open spec fn child_score(a: Seq<Node>, p: int, j: int) -> nat {
    let c = a[a[p].children@[j].index as int];
    uct_score(a[p].visits as nat, c.wins as nat, c.visits as nat)
}

/// A node is ready for child selection: it has children, it has been
/// visited, and all visit counts fit the range the fixed-point score
/// is proved against.
pub open spec fn selectable(t: &Tree, p: int) -> bool {
    let a = t.arena@;
    &&& 0 <= p < a.len()
    &&& a[p].children@.len() > 0
    &&& 1 <= a[p].visits < 0x1_0000_0000
    &&& forall|j: int|
        0 <= j < a[p].children@.len() ==> 1 <= a[(#[trigger] a[p].children@[j]).index as int].visits
            <= 0x1_0000_0000
}

impl Tree {
    /// Picks the child with the greatest UCT score under `parent`
    /// (the root when no parent is named); ties go to the child that
    /// was expanded first.
    pub fn select_child(&self, parent: Option<NodeId>) -> (r: NodeId)
        requires
            self.wf(),
            selectable(self, parent_spec_index(parent)),
        ensures
            ({
                let a = self.arena@;
                let p = parent_spec_index(parent);
                let ch = a[p].children@;
                exists|j: int|
                    {
                        &&& 0 <= j < ch.len()
                        &&& r == #[trigger] ch[j]
                        &&& forall|k: int|
                            0 <= k < ch.len() ==> child_score(a, p, k) <= child_score(a, p, j)
                        &&& forall|k: int| 0 <= k < j ==> child_score(a, p, k) < child_score(a, p, j)
                    }
            }),
    {
        let parent_node: &Node = match parent {
            Some(parent_id) => self.get(parent_id),
            None => self.get(NodeId { index: 0 }),
        };
        let ghost a = self.arena@;
        let ghost p = parent_spec_index(parent);
        let ghost ch = a[p].children@;

        let mut best_child_id = parent_node.children[0];
        proof {
            assert(node_stats_ok(a[best_child_id.index as int]));
        }
        let mut best_child_ucb = parent_node.ucb1(self.get(best_child_id));
        let ghost mut best_j: int = 0;

        let mut k: usize = 0;
        while k < parent_node.children.len()
            invariant
                self.wf(),
                selectable(self, p),
                a == self.arena@,
                0 <= p < a.len(),
                *parent_node == a[p],
                ch == a[p].children@,
                k <= ch.len(),
                0 <= best_j < ch.len(),
                best_j <= k,
                best_child_id == ch[best_j],
                best_child_ucb == child_score(a, p, best_j),
                forall|t: int| 0 <= t < k ==> child_score(a, p, t) <= best_child_ucb,
                forall|t: int| 0 <= t < best_j ==> child_score(a, p, t) < best_child_ucb,
            decreases ch.len() - k,
        {
            let child = parent_node.children[k];
            proof {
                assert(node_stats_ok(a[child.index as int]));
            }
            let child_ucb = parent_node.ucb1(self.get(child));
            if child_ucb > best_child_ucb {
                best_child_ucb = child_ucb;
                best_child_id = child;
                proof {
                    best_j = k as int;
                }
            }
            k = k + 1;
        }
        proof {
            assert(0 <= best_j < ch.len() && best_child_id == ch[best_j] && (forall|t: int|
                0 <= t < ch.len() ==> child_score(a, p, t) <= child_score(a, p, best_j)) && (
            forall|t: int| 0 <= t < best_j ==> child_score(a, p, t) < child_score(a, p, best_j)));
        }
        best_child_id
    }
}

/// The move-set partition law: in a well-formed tree, each node's
/// children moves and untried moves are disjoint and together are
/// exactly the legal moves of the node's position.
pub proof fn lemma_move_set_partition(t: &Tree, i: int)
    requires
        t.wf(),
        0 <= i < t.arena@.len(),
    ensures
        forall|m: usize| #[trigger] node_legal_moves(t.arena@[i]).contains(m) <==> (
        t.arena@[i].untried_moves@.contains(m) || children_have_move(t.arena@, i, m)),
        forall|m: usize| !(#[trigger] t.arena@[i].untried_moves@.contains(m)
            && children_have_move(t.arena@, i, m)),
{
    assert(node_partition_ok(t.arena@, i));
}

/// The arena index a child request goes under: the named parent, or
/// the root when none is named.
pub open spec fn parent_spec_index(parent: Option<NodeId>) -> int {
    match parent {
        Option::Some(p) => p.index as int,
        Option::None => 0,
    }
}

impl Node {
    /// A fresh node for the position `state`: no children yet, no
    /// statistics, and every legal move still untried.
    pub fn new(id: NodeId, parent: Option<NodeId>, move_: Option<usize>, state: &Board) -> (n:
        Node)
        requires
            state.wf(),
        ensures
            n.id == id,
            n.parent == parent,
            n.children@ == Seq::<NodeId>::empty(),
            n.move_ == move_,
            n.wins == 0,
            n.visits == 0,
            n.untried_moves@ == state.spec_legal_moves(),
            n.player_just_moved == state.player_just_moved,
            n.pos_at_node@ == state.pos@,
    {
        Node {
            id,
            parent,
            children: Vec::new(),
            move_,
            wins: 0,
            visits: 0,
            untried_moves: state.get_moves(),
            player_just_moved: state.player_just_moved,
            pos_at_node: Ghost(state.pos@),
        }
    }

    /// Accumulates one simulation's outcome: a visit and the result's
    /// half-point score.
    pub fn update(&mut self, result: Score)
        requires
            old(self).visits < 0x7FFF_FFFF_FFFF_FFFF,
            old(self).wins <= 2 * old(self).visits,
        ensures
            final(self).visits == old(self).visits + 1,
            final(self).wins == old(self).wins + result.spec_half_points(),
            final(self).parent == old(self).parent,
            final(self).children == old(self).children,
            final(self).move_ == old(self).move_,
            final(self).untried_moves == old(self).untried_moves,
            final(self).player_just_moved == old(self).player_just_moved,
            final(self).pos_at_node == old(self).pos_at_node,
            final(self).id == old(self).id,
    {
        self.visits = self.visits + 1;
        self.wins = self.wins + result.half_points();
    }

    /// The upper confidence bound of `child_node` under this node, in
    /// fixed point: the mean score plus the exploration bonus.
    pub fn ucb1(&self, child_node: &Node) -> (r: u64)
        requires
            1 <= self.visits < 0x1_0000_0000,
            1 <= child_node.visits <= 0x1_0000_0000,
            child_node.wins <= 2 * child_node.visits,
        ensures
            r == uct_score(
                self.visits as nat,
                child_node.wins as nat,
                child_node.visits as nat,
            ),
    {
        proof {
            assert(child_node.wins * FP_SCALE <= 0x2_0000_0001 * 0x100000) by (nonlinear_arith)
                requires
                    child_node.wins <= 0x2_0000_0001,
                    FP_SCALE == 0x100000,
            ;
        }
        let mean = (child_node.wins * FP_SCALE) / (2 * child_node.visits);
        let lf = ln_fp(self.visits);
        proof {
            assert(2 * lf * FP_SCALE < 0x2E_0000_0000_0000) by (nonlinear_arith)
                requires
                    lf < 23 * FP_SCALE,
                    FP_SCALE == 0x100000,
            ;
        }
        let explore_arg = (2 * lf * FP_SCALE) / child_node.visits;
        let bonus = isqrt(explore_arg);
        proof {
            crate::math::lemma_isqrt_bounds(explore_arg as nat);
            vstd::arithmetic::div_mod::lemma_div_is_ordered(
                explore_arg as int,
                0x2E_0000_0000_0000,
                1,
            );
            assert(bonus < 0x1_0000_0000) by (nonlinear_arith)
                requires
                    (bonus as nat) * (bonus as nat) <= explore_arg as nat,
                    explore_arg < 0x2E_0000_0000_0000,
            ;
        }
        mean + bonus
    }
}

/// A node with no children trivially satisfies the move-set
/// partition as long as its untried moves are exactly its legal
/// moves.
proof fn lemma_fresh_node_partition(a: Seq<Node>, i: int)
    requires
        0 <= i < a.len(),
        a[i].children@.len() == 0,
        a[i].untried_moves@ == node_legal_moves(a[i]),
        a[i].pos_at_node@.len() == BOARD_SIZE,
    ensures
        node_partition_ok(a, i),
{
    crate::board::lemma_empty_cells_upto_ascending(a[i].pos_at_node@, a[i].pos_at_node@.len());
    let u = a[i].untried_moves@;
    assert forall|j1: int, j2: int| 0 <= j1 < j2 < u.len() implies u[j1] != u[j2] by {
        if !is_terminal(a[i].pos_at_node@) {
            assert(u[j1] < u[j2]);
        }
    }
    assert(u.no_duplicates());
}

/// Changing only win and visit counters, while keeping every
/// structural field, preserves tree well-formedness, provided the
/// counter bound still holds at every node.
proof fn lemma_stats_only_change_preserves_wf(a: Seq<Node>, b: Seq<Node>)
    requires
        tree_topology_ok(a),
        forall|i: int| 0 <= i < a.len() ==> node_stats_ok(#[trigger] a[i]),
        forall|i: int| 1 <= i < a.len() ==> #[trigger] child_link_ok(a, i),
        forall|i: int| 0 <= i < a.len() ==> #[trigger] node_partition_ok(a, i),
        b.len() == a.len(),
        forall|i: int| 0 <= i < a.len() ==> (#[trigger] b[i]).parent == a[i].parent,
        forall|i: int| 0 <= i < a.len() ==> (#[trigger] b[i]).children == a[i].children,
        forall|i: int| 0 <= i < a.len() ==> (#[trigger] b[i]).move_ == a[i].move_,
        forall|i: int| 0 <= i < a.len() ==> (#[trigger] b[i]).untried_moves == a[i].untried_moves,
        forall|i: int| 0 <= i < a.len() ==> (#[trigger] b[i]).player_just_moved
            == a[i].player_just_moved,
        forall|i: int| 0 <= i < a.len() ==> (#[trigger] b[i]).pos_at_node == a[i].pos_at_node,
        forall|i: int| 0 <= i < a.len() ==> (#[trigger] b[i]).id == a[i].id,
        forall|i: int| 0 <= i < a.len() ==> node_stats_ok(#[trigger] b[i]),
    ensures
        tree_topology_ok(b),
        forall|i: int| 0 <= i < b.len() ==> node_stats_ok(#[trigger] b[i]),
        forall|i: int| 1 <= i < b.len() ==> #[trigger] child_link_ok(b, i),
        forall|i: int| 0 <= i < b.len() ==> #[trigger] node_partition_ok(b, i),
{
    assert(tree_topology_ok(b)) by {
        assert forall|i: int, j: int|
            0 <= i < b.len() && 0 <= j < b[i].children@.len() implies {
            let c = #[trigger] b[i].children@[j];
            &&& i < c.index < b.len()
            &&& b[c.index as int].parent == Some(NodeId { index: i as usize })
        } by {
            assert(b[i].children@ == a[i].children@);
            let c = a[i].children@[j];
            assert(b[c.index as int].parent == a[c.index as int].parent);
        }
        assert forall|i: int| 1 <= i < b.len() implies b[(#[trigger] b[i].parent).unwrap().index
            as int].children@.contains(NodeId { index: i as usize }) by {
            let pi = a[i].parent.unwrap().index as int;
            let j = choose|j: int|
                0 <= j < a[pi].children@.len() && a[pi].children@[j] == NodeId {
                    index: i as usize,
                };
            assert(b[pi].children@ == a[pi].children@);
            assert(b[pi].children@[j] == NodeId { index: i as usize });
        }
        assert forall|i: int, j1: int, j2: int|
            0 <= i < b.len() && 0 <= j1 < j2 < b[i].children@.len() implies #[trigger] b[i].children@[j1]
            != #[trigger] b[i].children@[j2] by {
            assert(b[i].children@ == a[i].children@);
            assert(a[i].children@[j1] != a[i].children@[j2]);
        }
    }
    assert forall|i: int| 1 <= i < b.len() implies #[trigger] child_link_ok(b, i) by {
        assert(child_link_ok(a, i));
        assert(b[i].parent == a[i].parent);
        let p = a[i].parent.unwrap().index as int;
        assert(a[p].pos_at_node == b[p].pos_at_node);
    }
    assert forall|i: int| 0 <= i < b.len() implies #[trigger] node_partition_ok(b, i) by {
        assert(node_partition_ok(a, i));
        assert(b[i].children@ == a[i].children@);
        assert forall|m: usize| #[trigger] children_have_move(b, i, m) implies children_have_move(
            a,
            i,
            m,
        ) by {
            let j = choose|j: int|
                0 <= j < b[i].children@.len() && child_move(b, #[trigger] b[i].children@[j]) == m;
            assert(child_move(a, a[i].children@[j]) == m);
        }
        assert forall|m: usize| #[trigger] children_have_move(a, i, m) implies children_have_move(
            b,
            i,
            m,
        ) by {
            let j = choose|j: int|
                0 <= j < a[i].children@.len() && child_move(a, #[trigger] a[i].children@[j]) == m;
            assert(child_move(b, b[i].children@[j]) == m);
        }
        assert(node_legal_moves(b[i]) == node_legal_moves(a[i]));
        assert forall|j1: int, j2: int|
            0 <= j1 < j2 < b[i].children@.len() implies child_move(
            b,
            #[trigger] b[i].children@[j1],
        ) != child_move(b, #[trigger] b[i].children@[j2]) by {
            assert(child_move(a, a[i].children@[j1]) != child_move(a, a[i].children@[j2]));
        }
    }
}

/// Appending a fresh leaf for a just-played move, while removing that
/// move from its parent's untried set, preserves tree
/// well-formedness.
proof fn lemma_add_child_wf(
    a: Seq<Node>,
    b: Seq<Node>,
    p: int,
    m: usize,
    position: int,
    r: NodeId,
    state: &Board,
)
    requires
        tree_topology_ok(a),
        forall|i: int| 0 <= i < a.len() ==> node_stats_ok(#[trigger] a[i]),
        forall|i: int| 1 <= i < a.len() ==> #[trigger] child_link_ok(a, i),
        forall|i: int| 0 <= i < a.len() ==> #[trigger] node_partition_ok(a, i),
        0 <= p < a.len(),
        a.len() < usize::MAX,
        r.index == a.len(),
        state.wf(),
        0 <= position < a[p].untried_moves@.len(),
        a[p].untried_moves@[position] == m,
        a[p].untried_moves@.contains(m),
        state.pos@ == a[p].pos_at_node@.update(m as int, other_player(a[p].player_just_moved)),
        state.player_just_moved == other_player(a[p].player_just_moved),
        b.len() == a.len() + 1,
        // the fresh leaf
        ({
            let n = b[a.len() as int];
            &&& n.id == r
            &&& n.parent == Some(NodeId { index: p as usize })
            &&& n.children@ == Seq::<NodeId>::empty()
            &&& n.move_ == Some(m)
            &&& n.wins == 0
            &&& n.visits == 0
            &&& n.untried_moves@ == state.spec_legal_moves()
            &&& n.player_just_moved == state.player_just_moved
            &&& n.pos_at_node@ == state.pos@
        }),
        // the parent gained the child and lost the move
        ({
            let x = a[p];
            let y = b[p];
            &&& y.children@ == x.children@.push(r)
            &&& y.untried_moves@ == x.untried_moves@.remove(position)
            &&& y.parent == x.parent
            &&& y.move_ == x.move_
            &&& y.wins == x.wins
            &&& y.visits == x.visits
            &&& y.player_just_moved == x.player_just_moved
            &&& y.pos_at_node == x.pos_at_node
            &&& y.id == x.id
        }),
        forall|i: int| 0 <= i < a.len() && i != p ==> b[i] == a[i],
    ensures
        tree_topology_ok(b),
        forall|i: int| 0 <= i < b.len() ==> node_stats_ok(#[trigger] b[i]),
        forall|i: int| 1 <= i < b.len() ==> #[trigger] child_link_ok(b, i),
        forall|i: int| 0 <= i < b.len() ==> #[trigger] node_partition_ok(b, i),
        !b[p].untried_moves@.contains(m),
        forall|mm: usize| mm != m ==> (#[trigger] b[p].untried_moves@.contains(mm)
            <==> a[p].untried_moves@.contains(mm)),
{
    let newi = a.len() as int;
    let u = a[p].untried_moves@;
    let v = b[p].untried_moves@;

    // Membership of the shrunk untried set.
    assert(node_partition_ok(a, p));
    assert(u.no_duplicates());
    u.remove_ensures(position);
    assert forall|mm: usize| mm != m implies (#[trigger] v.contains(mm) <==> u.contains(mm)) by {
        if v.contains(mm) {
            let j = choose|j: int| 0 <= j < v.len() && v[j] == mm;
            if j < position {
                assert(u[j] == mm);
            } else {
                assert(u[j + 1] == mm);
            }
        }
        if u.contains(mm) {
            let j = choose|j: int| 0 <= j < u.len() && u[j] == mm;
            if j < position {
                assert(v[j] == mm);
            } else {
                assert(j != position);
                assert(v[j - 1] == mm);
            }
        }
    }
    assert(!v.contains(m)) by {
        if v.contains(m) {
            let j = choose|j: int| 0 <= j < v.len() && v[j] == m;
            if j < position {
                assert(u[j] == m && u[position] == m);
            } else {
                assert(u[j + 1] == m && u[position] == m);
            }
        }
    }
    assert(v.no_duplicates()) by {
        assert forall|j1: int, j2: int| 0 <= j1 < j2 < v.len() implies v[j1] != v[j2] by {
            if j2 < position {
                assert(v[j1] == u[j1] && v[j2] == u[j2]);
            } else if j1 < position {
                assert(v[j1] == u[j1] && v[j2] == u[j2 + 1]);
            } else {
                assert(v[j1] == u[j1 + 1] && v[j2] == u[j2 + 1]);
            }
        }
    }

    // Topology.
    assert(tree_topology_ok(b)) by {
        assert(b[0].parent == a[0].parent);
        assert(b[0].move_ == a[0].move_);
        assert forall|i: int, j: int|
            0 <= i < b.len() && 0 <= j < b[i].children@.len() implies {
            let c = #[trigger] b[i].children@[j];
            &&& i < c.index < b.len()
            &&& b[c.index as int].parent == Some(NodeId { index: i as usize })
        } by {
            if i == newi {
                assert(b[i].children@.len() == 0);
            } else if i == p {
                if j < a[p].children@.len() {
                    assert(b[i].children@[j] == a[i].children@[j]);
                } else {
                    assert(b[i].children@[j] == r);
                }
            } else {
                assert(b[i].children@[j] == a[i].children@[j]);
            }
        }
        assert forall|i: int| 1 <= i < b.len() implies b[(#[trigger] b[i].parent).unwrap().index as int].children@.contains(
            NodeId { index: i as usize },
        ) by {
            if i == newi {
                assert(b[p].children@[a[p].children@.len() as int] == r);
            } else {
                let pi = a[i].parent.unwrap().index as int;
                let j = choose|j: int|
                    0 <= j < a[pi].children@.len() && a[pi].children@[j] == NodeId {
                        index: i as usize,
                    };
                assert(b[pi].children@[j] == NodeId { index: i as usize });
            }
        }
        assert forall|i: int, j1: int, j2: int|
            0 <= i < b.len() && 0 <= j1 < j2 < b[i].children@.len() implies #[trigger] b[i].children@[j1]
            != #[trigger] b[i].children@[j2] by {
            if i == p {
                if j2 < a[p].children@.len() {
                    assert(a[i].children@[j1] != a[i].children@[j2]);
                } else {
                    assert(b[i].children@[j2] == r);
                    assert(a[i].children@[j1].index < a.len());
                }
            } else if i != newi {
                assert(a[i].children@[j1] != a[i].children@[j2]);
            }
        }
    }

    // Child links.
    assert forall|i: int| 1 <= i < b.len() implies #[trigger] child_link_ok(b, i) by {
        if i == newi {
            assert(b[p].pos_at_node == a[p].pos_at_node);
            assert(node_partition_ok(a, p));
            assert(node_legal_moves(a[p]).contains(m));
            if is_terminal(a[p].pos_at_node@) {
                assert(node_legal_moves(a[p]).len() == 0);
            }
            crate::board::lemma_empty_cells_upto_contains(
                a[p].pos_at_node@,
                a[p].pos_at_node@.len(),
                m,
            );
        } else {
            assert(child_link_ok(a, i));
            let pi = a[i].parent.unwrap().index as int;
            assert(b[pi].pos_at_node == a[pi].pos_at_node);
            assert(b[pi].player_just_moved == a[pi].player_just_moved);
        }
    }

    // Partition at every node.
    assert forall|i: int| 0 <= i < b.len() implies #[trigger] node_partition_ok(b, i) by {
        if i == newi {
            assert(b[i].untried_moves@ == node_legal_moves(b[i]));
            lemma_fresh_node_partition(b, i);
        } else if i == p {
            assert(node_partition_ok(a, p));
            assert forall|mm: usize| #[trigger] node_legal_moves(b[p]).contains(mm) implies (
            v.contains(mm) || children_have_move(b, p, mm)) by {
                assert(node_legal_moves(b[p]) == node_legal_moves(a[p]));
                if mm == m {
                    assert(child_move(b, b[p].children@[a[p].children@.len() as int]) == m);
                } else if u.contains(mm) {
                    assert(v.contains(mm));
                } else {
                    assert(children_have_move(a, p, mm));
                    let j = choose|j: int|
                        0 <= j < a[p].children@.len() && child_move(
                            a,
                            #[trigger] a[p].children@[j],
                        ) == mm;
                    assert(child_move(b, b[p].children@[j]) == mm);
                }
            }
            assert forall|mm: usize| (v.contains(mm) || children_have_move(b, p, mm)) implies #[trigger] node_legal_moves(
                b[p],
            ).contains(mm) by {
                assert(node_legal_moves(b[p]) == node_legal_moves(a[p]));
                if v.contains(mm) {
                    assert(u.contains(mm));
                } else {
                    let j = choose|j: int|
                        0 <= j < b[p].children@.len() && child_move(
                            b,
                            #[trigger] b[p].children@[j],
                        ) == mm;
                    if j < a[p].children@.len() {
                        assert(child_move(a, a[p].children@[j]) == mm);
                        assert(children_have_move(a, p, mm));
                    } else {
                        assert(mm == m);
                        assert(u.contains(m));
                    }
                }
            }
            assert forall|mm: usize| !(#[trigger] v.contains(mm) && children_have_move(
                b,
                p,
                mm,
            )) by {
                if v.contains(mm) && children_have_move(b, p, mm) {
                    assert(u.contains(mm));
                    assert(mm != m);
                    let j = choose|j: int|
                        0 <= j < b[p].children@.len() && child_move(
                            b,
                            #[trigger] b[p].children@[j],
                        ) == mm;
                    if j < a[p].children@.len() {
                        assert(child_move(a, a[p].children@[j]) == mm);
                        assert(children_have_move(a, p, mm));
                    } else {
                        assert(mm == m);
                    }
                }
            }
            assert forall|j1: int, j2: int|
                0 <= j1 < j2 < b[p].children@.len() implies child_move(
                b,
                #[trigger] b[p].children@[j1],
            ) != child_move(b, #[trigger] b[p].children@[j2]) by {
                if j2 < a[p].children@.len() {
                    assert(child_move(a, a[p].children@[j1]) != child_move(a, a[p].children@[j2]));
                } else {
                    assert(child_move(b, b[p].children@[j2]) == m);
                    let mm = child_move(a, a[p].children@[j1]);
                    assert(child_move(b, b[p].children@[j1]) == mm);
                    if mm == m {
                        assert(children_have_move(a, p, m));
                        assert(u.contains(m));
                    }
                }
            }
        } else {
            assert(node_partition_ok(a, i));
            assert(b[i] == a[i]);
            assert forall|mm: usize| #[trigger] children_have_move(b, i, mm) implies children_have_move(
                a,
                i,
                mm,
            ) by {
                let j = choose|j: int|
                    0 <= j < b[i].children@.len() && child_move(
                        b,
                        #[trigger] b[i].children@[j],
                    ) == mm;
                let c = a[i].children@[j];
                assert(c.index != p || a[p].move_ == b[p].move_);
                assert(child_move(a, c) == mm);
            }
            assert forall|mm: usize| #[trigger] children_have_move(a, i, mm) implies children_have_move(
                b,
                i,
                mm,
            ) by {
                let j = choose|j: int|
                    0 <= j < a[i].children@.len() && child_move(
                        a,
                        #[trigger] a[i].children@[j],
                    ) == mm;
                assert(child_move(b, b[i].children@[j]) == mm);
            }
            assert forall|j1: int, j2: int|
                0 <= j1 < j2 < b[i].children@.len() implies child_move(
                b,
                #[trigger] b[i].children@[j1],
            ) != child_move(b, #[trigger] b[i].children@[j2]) by {
                assert(child_move(a, a[i].children@[j1]) != child_move(a, a[i].children@[j2]));
            }
        }
    }
}

} // verus!
