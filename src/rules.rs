//! Win detection and scoring of a position.
use vstd::prelude::*;
use crate::board::{COMPUTER, PERSON, empty_cells, free_cells, grid, is_square};

verus! {

/// Every cell of `line` holds `p`.
pub open spec fn line_full(line: Seq<i8>, p: i8) -> bool {
    forall|i: int| 0 <= i < line.len() ==> #[trigger] line[i] == p
}

/// Row `r` is filled with `p`.
pub open spec fn row_won(b: Seq<Seq<i8>>, r: int, p: i8) -> bool {
    forall|c: int| 0 <= c < b.len() ==> #[trigger] b[r][c] == p
}

/// Column `c` is filled with `p`.
pub open spec fn col_won(b: Seq<Seq<i8>>, c: int, p: i8) -> bool {
    forall|r: int| 0 <= r < b.len() ==> #[trigger] b[r][c] == p
}

/// The main diagonal (row index equals column index) is filled with `p`.
pub open spec fn diag_won(b: Seq<Seq<i8>>, p: i8) -> bool {
    forall|i: int| 0 <= i < b.len() ==> #[trigger] b[i][i] == p
}

/// The anti-diagonal (column index is N-1 minus the row index) is filled with `p`.
pub open spec fn anti_won(b: Seq<Seq<i8>>, p: i8) -> bool {
    forall|i: int| 0 <= i < b.len() ==> #[trigger] b[i][b.len() - 1 - i] == p
}

/// Player `p` holds a complete line: a row, a column or one of the two diagonals.
/// A board without cells has no line to win.
pub open spec fn won(b: Seq<Seq<i8>>, p: i8) -> bool {
    &&& b.len() > 0
    &&& {
        ||| exists|r: int| 0 <= r < b.len() && #[trigger] row_won(b, r, p)
        ||| exists|c: int| 0 <= c < b.len() && #[trigger] col_won(b, c, p)
        ||| diag_won(b, p)
        ||| anti_won(b, p)
    }
}

/// The score of a position from the computer's side: 1 when the computer holds a line,
/// otherwise -1 when the person does, otherwise 0. The computer's line is looked for first.
pub open spec fn score_of(b: Seq<Seq<i8>>) -> int {
    if won(b, COMPUTER) {
        1
    } else if won(b, PERSON) {
        -1
    } else {
        0
    }
}

/// Tells whether every cell of `line` holds `sign`.
fn win_line(line: &Vec<i8>, sign: i8) -> (r: bool)
    ensures
        r == line_full(line@, sign),
{
    let mut counter: usize = 0;
    let mut i: usize = 0;
    while i < line.len()
        invariant
            0 <= counter <= i <= line.len(),
            (counter == i) <==> (forall|j: int| 0 <= j < i ==> #[trigger] line@[j] == sign),
        decreases line.len() - i,
    {
        if line[i] == sign {
            counter = counter + 1;
        }
        i = i + 1;
    }
    counter == line.len()
}

/// The board mirrored along its main diagonal: the columns of `board` become rows.
fn transpose(board: &Vec<Vec<i8>>) -> (t: Vec<Vec<i8>>)
    requires
        is_square(grid(board)),
    ensures
        t@.len() == board@.len(),
        forall|i: int| 0 <= i < t@.len() ==> (#[trigger] t@[i])@.len() == board@.len(),
        forall|i: int, j: int|
            0 <= i < t@.len() && 0 <= j < t@.len() ==> #[trigger] t@[i]@[j] == grid(board)[j][i],
{
    let ghost b = grid(board);
    let n = board.len();
    let mut t: Vec<Vec<i8>> = Vec::new();
    let mut i: usize = 0;
    while i < n
        invariant
            n == board@.len(),
            b == grid(board),
            is_square(b),
            0 <= i <= n,
            t@.len() == i,
            forall|k: int| 0 <= k < i ==> (#[trigger] t@[k])@.len() == n,
            forall|k: int, j: int| 0 <= k < i && 0 <= j < n ==> #[trigger] t@[k]@[j] == b[j][k],
        decreases n - i,
    {
        let mut column: Vec<i8> = Vec::new();
        let mut j: usize = 0;
        while j < n
            invariant
                n == board@.len(),
                b == grid(board),
                is_square(b),
                0 <= i < n,
                0 <= j <= n,
                column@.len() == j,
                forall|k: int| 0 <= k < j ==> #[trigger] column@[k] == b[k][i as int],
            decreases n - j,
        {
            assert(b[j as int].len() == n);
            column.push(board[j][i]);
            j = j + 1;
        }
        t.push(column);
        i = i + 1;
    }
    t
}

/// Tells whether `sign` fills the main diagonal or the anti-diagonal.
fn win_diagonal(board: &Vec<Vec<i8>>, sign: i8) -> (r: bool)
    requires
        is_square(grid(board)),
    ensures
        r == (diag_won(grid(board), sign) || anti_won(grid(board), sign)),
{
    let ghost b = grid(board);
    let n = board.len();
    let mut diag: Vec<i8> = Vec::new();
    let mut transposed_diag: Vec<i8> = Vec::new();
    let mut k: usize = 0;
    while k < n
        invariant
            n == board@.len(),
            b == grid(board),
            is_square(b),
            0 <= k <= n,
            diag@.len() == k,
            transposed_diag@.len() == k,
            forall|i: int| 0 <= i < k ==> #[trigger] diag@[i] == b[i][i],
            forall|i: int| 0 <= i < k ==> #[trigger] transposed_diag@[i] == b[i][n - 1 - i],
        decreases n - k,
    {
        assert(b[k as int].len() == n);
        diag.push(board[k][k]);
        transposed_diag.push(board[k][n - k - 1]);
        k = k + 1;
    }
    assert(line_full(diag@, sign) == diag_won(b, sign)) by {
        assert(forall|i: int| 0 <= i < n ==> diag@[i] == #[trigger] b[i][i]);
    }
    assert(line_full(transposed_diag@, sign) == anti_won(b, sign)) by {
        assert(forall|i: int| 0 <= i < n ==> transposed_diag@[i] == #[trigger] b[i][n - 1 - i]);
    }
    if win_line(&diag, sign) {
        true
    } else {
        win_line(&transposed_diag, sign)
    }
}

/// Tells whether `player` holds a complete row, column or diagonal of `board`.
pub fn wins(board: &Vec<Vec<i8>>, player: i8) -> (r: bool)
    requires
        is_square(grid(board)),
    ensures
        r == won(grid(board), player),
{
    let ghost b = grid(board);
    let n = board.len();
    if n == 0 {
        return false;
    }
    let mut r: usize = 0;
    while r < n
        invariant
            n == board@.len(),
            b == grid(board),
            is_square(b),
            0 <= r <= n,
            forall|k: int| 0 <= k < r ==> !#[trigger] row_won(b, k, player),
        decreases n - r,
    {
        assert(board[r as int]@ == b[r as int]);
        if win_line(&board[r], player) {
            assert(row_won(b, r as int, player));
            return true;
        }
        r = r + 1;
    }
    let transposed_board = transpose(board);
    let mut c: usize = 0;
    while c < n
        invariant
            n == board@.len(),
            b == grid(board),
            is_square(b),
            transposed_board@.len() == n,
            forall|i: int| 0 <= i < n ==> (#[trigger] transposed_board@[i])@.len() == n,
            forall|i: int, j: int|
                0 <= i < n && 0 <= j < n ==> #[trigger] transposed_board@[i]@[j] == b[j][i],
            0 <= c <= n,
            forall|k: int| 0 <= k < r ==> !#[trigger] row_won(b, k, player),
            forall|k: int| 0 <= k < c ==> !#[trigger] col_won(b, k, player),
        decreases n - c,
    {
        if win_line(&transposed_board[c], player) {
            assert(col_won(b, c as int, player)) by {
                assert forall|k: int| 0 <= k < n implies #[trigger] b[k][c as int] == player by {
                    assert(transposed_board@[c as int]@[k] == b[k][c as int]);
                }
            }
            return true;
        }
        assert(!col_won(b, c as int, player)) by {
            if col_won(b, c as int, player) {
                assert forall|k: int| 0 <= k < n implies #[trigger] transposed_board@[c as int]@[k] == player by {
                    assert(b[k][c as int] == player);
                }
            }
        }
        c = c + 1;
    }
    win_diagonal(board, player)
}

/// Scores `board` from the computer's side: 1, -1 or 0 (see `score_of`).
pub fn evaluate(board: &Vec<Vec<i8>>) -> (score: i8)
    requires
        is_square(grid(board)),
    ensures
        score as int == score_of(grid(board)),
        score == 1 || score == 0 || score == -1,
        score == 1 <==> won(grid(board), COMPUTER),
        score == -1 <==> (won(grid(board), PERSON) && !won(grid(board), COMPUTER)),
{
    if wins(board, COMPUTER) {
        1
    } else if wins(board, PERSON) {
        -1
    } else {
        0
    }
}

/// Where a game stands after a player's move.
#[derive(Clone, Copy, Debug, PartialEq, Eq, Structural)]
pub enum Status {
    /// The player who just moved holds a complete line.
    Won,
    /// No line is held and no cell is free.
    Tie,
    /// The game goes on with the other player.
    Ongoing,
}

/// Where the game stands once `player` has moved on `board`.
pub fn status_after(board: &Vec<Vec<i8>>, player: i8) -> (st: Status)
    requires
        is_square(grid(board)),
    ensures
        st == (if won(grid(board), player) {
            Status::Won
        } else if free_cells(grid(board)).len() == 0 {
            Status::Tie
        } else {
            Status::Ongoing
        }),
{
    if wins(board, player) {
        Status::Won
    } else if empty_cells(board).len() == 0 {
        Status::Tie
    } else {
        Status::Ongoing
    }
}

} // verus!
