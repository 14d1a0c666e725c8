use tictactoe_mcts::board::{Board, InvalidMove};
use tictactoe_mcts::defines::{Mark, Score};

#[test]
fn fresh_board_is_open_and_empty() {
    let b = Board::new();
    assert_eq!(b.player_just_moved, Mark::O);
    assert_eq!(b.get_moves(), vec![0, 1, 2, 3, 4, 5, 6, 7, 8]);
    assert_eq!(b.get_result(Mark::X), None);
    assert_eq!(b.get_result(Mark::O), None);
}

#[test]
fn update_player_jm_flips_between_players() {
    let b = Board::new();
    assert_eq!(b.update_player_jm(Mark::X), Mark::O);
    assert_eq!(b.update_player_jm(Mark::O), Mark::X);
    assert_eq!(b.update_player_jm(Mark::NoPlayer), Mark::NoPlayer);
}

#[test]
fn make_move_records_and_take_move_restores() {
    let mut b = Board::new();
    let pos_before = b.pos.clone();
    let history_before = b.history.clone();

    b.make_move(4);
    assert_eq!(b.player_just_moved, Mark::X);
    assert_eq!(b.pos[4], Mark::X);
    assert_eq!(b.history, vec![4]);

    b.take_move();
    assert_eq!(b.player_just_moved, Mark::O);
    assert_eq!(b.pos, pos_before);
    assert_eq!(b.history, history_before);
}

#[test]
fn make_move_safe_rejects_occupied_and_out_of_range_cells() {
    let mut b = Board::new();
    assert_eq!(b.make_move_safe(4), Ok(()));
    assert_eq!(b.make_move_safe(4), Err(InvalidMove { attempted: 4 }));
    assert_eq!(b.make_move_safe(9), Err(InvalidMove { attempted: 9 }));
    // The rejected moves left the board alone.
    assert_eq!(b.history, vec![4]);
    assert_eq!(b.player_just_moved, Mark::X);
}

#[test]
fn completed_row_wins_for_its_owner_and_loses_for_the_other() {
    let mut b = Board::new();
    // X plays the top row while O answers in the middle row.
    for m in [0, 3, 1, 4, 2] {
        b.make_move(m);
    }
    assert_eq!(b.get_result(Mark::X), Some(Score::Win));
    assert_eq!(b.get_result(Mark::O), Some(Score::Loss));
    // Win/loss symmetry in half-points.
    let x = b.get_result(Mark::X).unwrap().half_points();
    let o = b.get_result(Mark::O).unwrap().half_points();
    assert_eq!(x + o, 2);
    // A decided game offers no further moves.
    assert_eq!(b.get_moves(), Vec::<usize>::new());
}

#[test]
fn column_and_diagonal_wins_are_detected() {
    let mut b = Board::new();
    // X takes the left column: 0, 3, 6.
    for m in [0, 1, 3, 2, 6] {
        b.make_move(m);
    }
    assert_eq!(b.get_result(Mark::X), Some(Score::Win));

    let mut d = Board::new();
    // X takes the main diagonal: 0, 4, 8.
    for m in [0, 1, 4, 2, 8] {
        d.make_move(m);
    }
    assert_eq!(d.get_result(Mark::X), Some(Score::Win));
}

#[test]
fn full_board_without_a_line_is_a_draw_for_both() {
    let mut b = Board::new();
    // X: 0, 2, 3, 7, 8 and O: 1, 4, 5, 6 -- no complete line.
    for m in [0, 1, 2, 4, 3, 5, 7, 6, 8] {
        b.make_move(m);
    }
    assert_eq!(b.get_result(Mark::X), Some(Score::Draw));
    assert_eq!(b.get_result(Mark::O), Some(Score::Draw));
    assert_eq!(
        b.get_result(Mark::X).unwrap().half_points() + b.get_result(Mark::O).unwrap().half_points(),
        2
    );
    assert_eq!(b.get_moves(), Vec::<usize>::new());
}

#[test]
fn result_lines_hold_columns_rows_and_diagonals() {
    let lines = tictactoe_mcts::defines::get_result_lines();
    assert_eq!(
        lines,
        vec![
            vec![vec![0, 3, 6], vec![1, 4, 7], vec![2, 5, 8]],
            vec![vec![0, 1, 2], vec![3, 4, 5], vec![6, 7, 8]],
            vec![vec![0, 4, 8], vec![2, 4, 6]],
        ]
    );
}

#[test]
fn duplicate_copies_the_caller_visible_state() {
    let mut b = Board::new();
    b.make_move(4);
    b.make_move(0);
    let copy = b.duplicate();
    assert_eq!(copy.pos, b.pos);
    assert_eq!(copy.history, b.history);
    assert_eq!(copy.player_just_moved, b.player_just_moved);
}
