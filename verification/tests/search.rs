use rand::rngs::StdRng;
use rand::SeedableRng;
use tictactoe_mcts::board::Board;
use tictactoe_mcts::defines::Mark;
use tictactoe_mcts::uct::uct;

#[test]
fn zero_iterations_report_no_children_and_leave_the_board_alone() {
    let b = Board::new();
    let pos_before = b.pos.clone();
    let history_before = b.history.clone();
    let mut rng = StdRng::seed_from_u64(7);

    let results = uct(&b, 0, &mut rng);

    assert_eq!(results, Vec::<(usize, u64, u64)>::new());
    assert_eq!(b.pos, pos_before);
    assert_eq!(b.history, history_before);
    assert_eq!(b.player_just_moved, Mark::O);
}

#[test]
fn visits_are_conserved_across_the_root_children() {
    let b = Board::new();
    let mut rng = StdRng::seed_from_u64(11);
    let itermax = 50;

    let results = uct(&b, itermax, &mut rng);

    // Nine legal moves, each expanded once before any is revisited.
    assert_eq!(results.len(), 9);
    let total: u64 = results.iter().map(|r| r.2).sum();
    assert_eq!(total, itermax as u64);
    // Every reported move is legal and no move repeats.
    let mut moves: Vec<usize> = results.iter().map(|r| r.0).collect();
    moves.sort();
    assert_eq!(moves, vec![0, 1, 2, 3, 4, 5, 6, 7, 8]);
    // Wins never exceed two half-points per visit.
    for r in &results {
        assert!(r.2 >= 1);
        assert!(r.1 <= 2 * r.2);
    }
}

#[test]
fn fewer_iterations_than_moves_expand_that_many_children() {
    let b = Board::new();
    let mut rng = StdRng::seed_from_u64(3);

    let results = uct(&b, 4, &mut rng);

    assert_eq!(results.len(), 4);
    let total: u64 = results.iter().map(|r| r.2).sum();
    assert_eq!(total, 4);
}

#[test]
fn search_on_a_decided_board_reports_nothing() {
    let mut b = Board::new();
    // X completes the top row.
    for m in [0, 3, 1, 4, 2] {
        b.make_move(m);
    }
    let mut rng = StdRng::seed_from_u64(5);

    let results = uct(&b, 30, &mut rng);

    assert_eq!(results, Vec::<(usize, u64, u64)>::new());
}

#[test]
fn an_immediate_win_is_the_most_visited_move() {
    // X holds 0 and 1 and is about to move: playing 2 wins at once,
    // while anything else lets O complete the middle row.
    let mut b = Board::new();
    for m in [0, 3, 1, 4] {
        b.make_move(m);
    }
    assert_eq!(b.player_just_moved, Mark::O);
    let mut rng = StdRng::seed_from_u64(42);

    let results = uct(&b, 1000, &mut rng);

    let best = results.iter().max_by_key(|r| r.2).unwrap();
    assert_eq!(best.0, 2);
    // The winning move's simulations are all wins for the mover.
    let winning = results.iter().find(|r| r.0 == 2).unwrap();
    assert_eq!(winning.1, 2 * winning.2);
}

#[test]
fn the_scratch_state_is_restored_even_after_many_iterations() {
    let mut b = Board::new();
    b.make_move(4);
    let pos_before = b.pos.clone();
    let history_before = b.history.clone();
    let mut rng = StdRng::seed_from_u64(9);

    let _ = uct(&b, 200, &mut rng);

    assert_eq!(b.pos, pos_before);
    assert_eq!(b.history, history_before);
    assert_eq!(b.player_just_moved, Mark::X);
}
