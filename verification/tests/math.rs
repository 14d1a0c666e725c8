use tictactoe_mcts::board::Board;
use tictactoe_mcts::defines::Score;
use tictactoe_mcts::math::{isqrt, ln_fp, FP_SCALE};
use tictactoe_mcts::node::{Node, NodeId, Tree};

#[test]
fn half_points_of_each_score() {
    assert_eq!(Score::Loss.half_points(), 0);
    assert_eq!(Score::Draw.half_points(), 1);
    assert_eq!(Score::Win.half_points(), 2);
}

#[test]
fn integer_square_root_exact_values() {
    assert_eq!(isqrt(0), 0);
    assert_eq!(isqrt(1), 1);
    assert_eq!(isqrt(15), 3);
    assert_eq!(isqrt(16), 4);
    assert_eq!(isqrt(1048576), 1024);
    assert_eq!(isqrt(u64::MAX), 4294967295);
}

#[test]
fn fixed_point_natural_log_exact_values() {
    // ln(1) is zero; ln(2) in twenty fractional bits is 726817.
    assert_eq!(ln_fp(1), 0);
    assert_eq!(ln_fp(2), 726817);
    // ln(3) * 2^20 is about 1151978; the fixed-point value sits just
    // below it.
    assert_eq!(ln_fp(3), 1151977);
}

#[test]
fn ucb1_exact_fixed_point_scores() {
    let board = Board::new();
    let mut parent = Node::new(NodeId { index: 0 }, None, None, &board);
    let mut child = Node::new(
        NodeId { index: 1 },
        Some(NodeId { index: 0 }),
        Some(0),
        &board,
    );

    // One visit each, and the child's single simulation was a draw
    // (one half-point): the mean is half the scale, and ln(1) = 0
    // leaves no exploration bonus.
    parent.visits = 1;
    child.visits = 1;
    child.wins = 1;
    assert_eq!(parent.ucb1(&child), FP_SCALE / 2);
    assert_eq!(parent.ucb1(&child), 524288);

    // Two parent visits switch on the exploration bonus.
    parent.visits = 2;
    assert_eq!(parent.ucb1(&child), 524288 + 1234603);

    // A won simulation doubles the mean term.
    child.wins = 2;
    assert_eq!(parent.ucb1(&child), 1048576 + 1234603);
}

#[test]
fn node_update_accumulates_visits_and_half_points() {
    let board = Board::new();
    let mut n = Node::new(NodeId { index: 0 }, None, None, &board);
    n.update(Score::Win);
    n.update(Score::Draw);
    n.update(Score::Loss);
    assert_eq!(n.visits, 3);
    assert_eq!(n.wins, 3);
}

#[test]
fn add_child_moves_one_move_from_untried_to_children() {
    let board = Board::new();
    let mut tree = Tree::new(&board);
    let root = NodeId { index: 0 };
    assert_eq!(tree.get(root).untried_moves.len(), 9);
    assert_eq!(tree.get(root).children.len(), 0);

    let mut after = board.duplicate();
    after.make_move(4);
    let child = tree.add_child(Some(root), Some(4), &after);

    // The move 4 left the untried set and nothing else did: the
    // children and the untried moves still partition the legal moves.
    assert_eq!(tree.get(root).untried_moves, vec![0, 1, 2, 3, 5, 6, 7, 8]);
    assert_eq!(tree.get(root).children, vec![child]);
    assert_eq!(tree.get(child).move_, Some(4));
    assert_eq!(tree.get(child).parent, Some(root));
    assert_eq!(tree.get(child).untried_moves.len(), 8);
}

#[test]
fn select_child_picks_the_highest_score_and_breaks_ties_first() {
    let board = Board::new();
    let mut tree = Tree::new(&board);
    let root = NodeId { index: 0 };

    let mut after_a = board.duplicate();
    after_a.make_move(0);
    let a = tree.add_child(Some(root), Some(0), &after_a);
    let mut after_b = board.duplicate();
    after_b.make_move(1);
    let b = tree.add_child(Some(root), Some(1), &after_b);

    // Equal statistics: the first-expanded child wins the tie.
    tree.update_node(a, Score::Draw);
    tree.update_node(b, Score::Draw);
    tree.update_node(root, Score::Draw);
    tree.update_node(root, Score::Draw);
    assert_eq!(tree.select_child(Some(root)), a);
    assert_eq!(tree.select_child(None), a);

    // A win on the second child beats a draw on the first.
    let mut tree2 = Tree::new(&board);
    let a2 = tree2.add_child(Some(root), Some(0), &after_a);
    let b2 = tree2.add_child(Some(root), Some(1), &after_b);
    tree2.update_node(a2, Score::Draw);
    tree2.update_node(b2, Score::Win);
    tree2.update_node(root, Score::Draw);
    tree2.update_node(root, Score::Win);
    assert_eq!(tree2.select_child(Some(root)), b2);
}
