use tictactoe::board::{empty_cells, new_board, valid_move, COMPUTER, EMPTY, PERSON};
use tictactoe::rules::{evaluate, status_after, wins, Status};
use tictactoe::search::{alpha_beta, computer_turn, minimax, opponent, search, Best, NEG_INF, POS_INF};

fn over(board: &Vec<Vec<i8>>) -> bool {
    wins(board, COMPUTER) || wins(board, PERSON) || empty_cells(board).is_empty()
}

fn check_agreement(board: &mut Vec<Vec<i8>>, depth: usize, player: i8) {
    let before = board.clone();
    let plain = search(board, depth, player, false);
    assert_eq!(*board, before);
    let pruned = search(board, depth, player, true);
    assert_eq!(*board, before);
    assert_eq!(plain, pruned);
    assert!(plain.score >= -1 && plain.score <= 1);
    if depth > 0 && !over(&before) {
        let (x, y) = plain.mv.expect("a move at a live position");
        assert!(valid_move(x, y, &before));
    } else {
        assert_eq!(plain.mv, None);
        assert_eq!(plain.score, evaluate(&before));
    }
}

fn positions(board: &mut Vec<Vec<i8>>, mover: i8, plies: usize, out: &mut Vec<(Vec<Vec<i8>>, i8)>) {
    out.push((board.clone(), mover));
    if plies == 0 || over(board) {
        return;
    }
    for (x, y) in empty_cells(board) {
        board[x][y] = mover;
        positions(board, opponent(mover), plies - 1, out);
        board[x][y] = EMPTY;
    }
}

#[test]
fn takes_an_immediate_win() {
    let mut board = vec![vec![1, 1, 0], vec![-1, -1, 0], vec![0, 0, 0]];
    let best = search(&mut board, 5, COMPUTER, true);
    assert_eq!(best, Best { mv: Some((0, 2)), score: 1 });
    let best = search(&mut board, 5, COMPUTER, false);
    assert_eq!(best, Best { mv: Some((0, 2)), score: 1 });
}

#[test]
fn person_side_takes_an_immediate_win() {
    let mut board = vec![vec![1, 1, 0], vec![-1, -1, 0], vec![1, 0, 0]];
    let best = search(&mut board, 4, PERSON, true);
    assert_eq!(best, Best { mv: Some((1, 2)), score: -1 });
}

#[test]
fn blocks_the_person() {
    let mut board = vec![vec![-1, -1, 0], vec![0, 1, 0], vec![0, 0, 0]];
    let best = search(&mut board, 6, COMPUTER, true);
    assert_eq!(best.mv, Some((0, 2)));
    assert_eq!(best.score, 0);
}

#[test]
fn empty_board_is_a_draw_and_first_best_move_kept() {
    let mut board = new_board(3);
    let best = search(&mut board, 9, COMPUTER, true);
    assert_eq!(best, Best { mv: Some((0, 0)), score: 0 });
    assert_eq!(board, new_board(3));
}

#[test]
fn terminal_positions_are_scored_without_a_move() {
    let mut won = vec![vec![-1, 0, 0], vec![0, -1, 0], vec![0, 0, -1]];
    assert_eq!(search(&mut won, 6, COMPUTER, true), Best { mv: None, score: -1 });
    assert_eq!(minimax(&mut won, 6, COMPUTER), Best { mv: None, score: -1 });
    let mut open = new_board(3);
    assert_eq!(minimax(&mut open, 0, COMPUTER), Best { mv: None, score: 0 });
    let mut full = vec![vec![1, -1, 1], vec![1, -1, -1], vec![-1, 1, 1]];
    assert_eq!(search(&mut full, 3, PERSON, false), Best { mv: None, score: 0 });
    let mut none = new_board(0);
    assert_eq!(search(&mut none, 0, COMPUTER, true), Best { mv: None, score: 0 });
}

#[test]
fn depth_beyond_free_cells_is_harmless() {
    let mut board = vec![vec![1, -1, 1], vec![1, -1, -1], vec![-1, 0, 1]];
    let best = search(&mut board, 7, PERSON, true);
    assert_eq!(best, Best { mv: Some((2, 1)), score: -1 });
    let best = search(&mut board, 7, COMPUTER, false);
    assert_eq!(best, Best { mv: Some((2, 1)), score: 0 });
}

#[test]
fn pruned_and_plain_search_agree_on_three_by_three() {
    let mut all = Vec::new();
    positions(&mut new_board(3), PERSON, 4, &mut all);
    for (board, mover) in all.iter_mut() {
        let depth = empty_cells(board).len();
        check_agreement(board, depth, *mover);
        check_agreement(board, depth.min(2), opponent(*mover));
    }
}

#[test]
fn pruned_and_plain_search_agree_on_four_by_four() {
    let mut all = Vec::new();
    positions(&mut new_board(4), PERSON, 2, &mut all);
    for (board, mover) in all.iter_mut() {
        check_agreement(board, 3, *mover);
    }
    let mut near_end = vec![vec![1, -1, 1, -1], vec![-1, 1, 0, 1], vec![1, 0, -1, 0], vec![0, -1, 0, 1]];
    let depth = empty_cells(&near_end).len();
    check_agreement(&mut near_end, depth, COMPUTER);
    check_agreement(&mut near_end, depth, PERSON);
}

#[test]
fn alpha_beta_full_window_matches_minimax() {
    let mut board = vec![vec![-1, 0, 0], vec![0, 1, 0], vec![0, 0, -1]];
    let before = board.clone();
    let plain = minimax(&mut board, 6, COMPUTER);
    let pruned = alpha_beta(&mut board, 6, COMPUTER, NEG_INF, POS_INF);
    assert_eq!(plain, pruned);
    assert_eq!(board, before);
}

#[test]
fn alpha_beta_outside_window_stays_outside() {
    let mut board = vec![vec![1, 1, 0], vec![-1, -1, 0], vec![0, 0, 0]];
    let r = alpha_beta(&mut board, 5, COMPUTER, -2, 0);
    assert!(r.score >= 0);
    let mut board = vec![vec![1, 1, 0], vec![-1, -1, 0], vec![1, 0, 0]];
    let r = alpha_beta(&mut board, 4, PERSON, 0, 2);
    assert!(r.score <= 0);
}

#[test]
fn opponent_flips_the_player() {
    assert_eq!(opponent(COMPUTER), PERSON);
    assert_eq!(opponent(PERSON), COMPUTER);
}

#[test]
fn computer_turn_marks_its_choice() {
    let mut board = vec![vec![1, 1, 0], vec![-1, -1, 0], vec![0, 0, 0]];
    assert_eq!(computer_turn(&mut board), Some((0, 2)));
    assert_eq!(board, vec![vec![1, 1, 1], vec![-1, -1, 0], vec![0, 0, 0]]);
    let mut finished = vec![vec![-1, 0, 0], vec![0, -1, 0], vec![0, 0, -1]];
    assert_eq!(computer_turn(&mut finished), None);
    assert_eq!(finished, vec![vec![-1, 0, 0], vec![0, -1, 0], vec![0, 0, -1]]);
}

fn person_never_wins(board: &mut Vec<Vec<i8>>, games: &mut usize) {
    for (x, y) in empty_cells(board) {
        let mut next = board.clone();
        next[x][y] = PERSON;
        match status_after(&next, PERSON) {
            Status::Won => panic!("the person won with {:?}", next),
            Status::Tie => *games += 1,
            Status::Ongoing => {
                let free_before = empty_cells(&next).len();
                assert!(computer_turn(&mut next).is_some());
                assert_eq!(empty_cells(&next).len(), free_before - 1);
                match status_after(&next, COMPUTER) {
                    Status::Won | Status::Tie => *games += 1,
                    Status::Ongoing => person_never_wins(&mut next, games),
                }
            }
        }
    }
}

#[test]
fn person_cannot_beat_the_computer_on_three_by_three() {
    let mut games: usize = 0;
    person_never_wins(&mut new_board(3), &mut games);
    assert!(games > 0);
}
