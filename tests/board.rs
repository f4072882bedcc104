use tictactoe::board::{cell_symbol, empty_cells, new_board, play_move, valid_move, COMPUTER, EMPTY, PERSON};

#[test]
fn blank_board_has_every_cell_free() {
    for n in 0..6usize {
        let board = new_board(n);
        assert_eq!(board.len(), n);
        assert!(board.iter().all(|row| row.len() == n && row.iter().all(|&c| c == EMPTY)));
        assert_eq!(empty_cells(&board).len(), n * n);
    }
}

#[test]
fn one_mark_leaves_one_cell_fewer() {
    for n in 1..6usize {
        let mut board = new_board(n);
        assert!(play_move(&mut board, n - 1, 0, PERSON));
        assert_eq!(empty_cells(&board).len(), n * n - 1);
    }
}

#[test]
fn empty_cells_in_row_major_order() {
    let board = vec![vec![1, 0, -1], vec![0, 0, 1], vec![-1, 1, 0]];
    assert_eq!(empty_cells(&board), vec![(0, 1), (1, 0), (1, 1), (2, 2)]);
}

#[test]
fn empty_cells_of_full_board() {
    let board = vec![vec![1, -1], vec![-1, 1]];
    assert!(empty_cells(&board).is_empty());
}

#[test]
fn valid_move_checks_bounds_and_occupancy() {
    let board = vec![vec![1, 0, -1], vec![0, 0, 1], vec![-1, 1, 0]];
    assert!(valid_move(0, 1, &board));
    assert!(valid_move(2, 2, &board));
    assert!(!valid_move(0, 0, &board));
    assert!(!valid_move(0, 2, &board));
    assert!(!valid_move(3, 0, &board));
    assert!(!valid_move(0, 3, &board));
    assert!(!valid_move(0, 0, &new_board(0)));
}

#[test]
fn play_move_marks_only_free_cells() {
    let mut board = new_board(3);
    assert!(play_move(&mut board, 1, 2, PERSON));
    assert_eq!(board, vec![vec![0, 0, 0], vec![0, 0, -1], vec![0, 0, 0]]);
    let before = board.clone();
    assert!(!play_move(&mut board, 1, 2, COMPUTER));
    assert!(!play_move(&mut board, 5, 0, COMPUTER));
    assert_eq!(board, before);
}

#[test]
fn cell_symbols() {
    assert_eq!(cell_symbol(EMPTY), '-');
    assert_eq!(cell_symbol(PERSON), 'X');
    assert_eq!(cell_symbol(COMPUTER), 'O');
}
