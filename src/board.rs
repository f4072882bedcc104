//! The board: an N×N grid of cells, each `EMPTY`, `PERSON` or `COMPUTER`.
use vstd::prelude::*;

verus! {

/// The value of a cell that holds no mark.
pub const EMPTY: i8 = 0;

/// The human player's mark; it also identifies that player.
pub const PERSON: i8 = -1;

/// The computer's mark; it also identifies that player.
pub const COMPUTER: i8 = 1;

/// The grid as a sequence of rows.
pub open spec fn grid(board: &Vec<Vec<i8>>) -> Seq<Seq<i8>> {
    board@.map_values(|row: Vec<i8>| row@)
}

/// Every row is as long as the board has rows.
pub open spec fn is_square(b: Seq<Seq<i8>>) -> bool {
    forall|i: int| 0 <= i < b.len() ==> #[trigger] b[i].len() == b.len()
}

/// `(r, c)` names a cell of `b`.
pub open spec fn in_bounds(b: Seq<Seq<i8>>, r: int, c: int) -> bool {
    0 <= r < b.len() && 0 <= c < b[r].len()
}

/// `(r, c)` names a cell of `b` that holds no mark.
pub open spec fn is_free(b: Seq<Seq<i8>>, r: int, c: int) -> bool {
    in_bounds(b, r, c) && b[r][c] == EMPTY
}

/// The free cells of row `r` among its first `c` columns, left to right.
pub open spec fn free_in_row(row: Seq<i8>, r: int, c: int) -> Seq<(int, int)>
    decreases c,
{
    if c <= 0 {
        seq![]
    } else {
        free_in_row(row, r, c - 1) + if row[c - 1] == EMPTY {
            seq![(r, c - 1)]
        } else {
            seq![]
        }
    }
}

/// The free cells of the first `r` rows, in row-major order.
pub open spec fn free_upto(b: Seq<Seq<i8>>, r: int) -> Seq<(int, int)>
    decreases r,
{
    if r <= 0 {
        seq![]
    } else {
        free_upto(b, r - 1) + free_in_row(b[r - 1], r - 1, b[r - 1].len() as int)
    }
}

/// Every free cell of the board, row by row, and left to right within a row.
pub open spec fn free_cells(b: Seq<Seq<i8>>) -> Seq<(int, int)> {
    free_upto(b, b.len() as int)
}

/// The board with mark `m` written into cell `(r, c)`.
pub open spec fn place(b: Seq<Seq<i8>>, r: int, c: int, m: i8) -> Seq<Seq<i8>> {
    b.update(r, b[r].update(c, m))
}

/// An `n`×`n` board with no marks.
pub open spec fn blank(n: nat) -> Seq<Seq<i8>> {
    Seq::new(n, |i: int| Seq::new(n, |j: int| EMPTY))
}

/// Lists the free cells of `board` as (row, column) pairs, in row-major order.
pub fn empty_cells(board: &Vec<Vec<i8>>) -> (cells: Vec<(usize, usize)>)
    ensures
        cells@.len() == free_cells(grid(board)).len(),
        forall|k: int|
            0 <= k < cells@.len() ==> (cells@[k].0 as int, cells@[k].1 as int) == #[trigger] free_cells(
                grid(board),
            )[k],
{
    let ghost b = grid(board);
    let mut cells: Vec<(usize, usize)> = Vec::new();
    let mut x: usize = 0;
    while x < board.len()
        invariant
            b == grid(board),
            0 <= x <= board.len(),
            cells@.len() == free_upto(b, x as int).len(),
            forall|k: int|
                0 <= k < cells@.len() ==> (cells@[k].0 as int, cells@[k].1 as int)
                    == #[trigger] free_upto(b, x as int)[k],
        decreases board.len() - x,
    {
        let row = &board[x];
        assert(row@ == b[x as int]);
        let mut y: usize = 0;
        while y < row.len()
            invariant
                b == grid(board),
                row@ == b[x as int],
                0 <= x < board.len(),
                0 <= y <= row.len(),
                cells@.len() == free_upto(b, x as int).len() + free_in_row(row@, x as int, y as int).len(),
                forall|k: int|
                    0 <= k < cells@.len() ==> (cells@[k].0 as int, cells@[k].1 as int)
                        == #[trigger] (free_upto(b, x as int) + free_in_row(row@, x as int, y as int))[k],
            decreases row.len() - y,
        {
            if row[y] == EMPTY {
                cells.push((x, y));
            }
            assert(free_upto(b, x as int) + free_in_row(row@, x as int, (y + 1) as int)
                =~= free_upto(b, x as int) + free_in_row(row@, x as int, y as int) + if row@[y as int] == EMPTY {
                    seq![(x as int, y as int)]
                } else {
                    seq![]
                });
            y = y + 1;
        }
        assert(free_upto(b, (x + 1) as int) =~= free_upto(b, x as int) + free_in_row(row@, x as int, y as int));
        x = x + 1;
    }
    cells
}

/// A fresh `n`×`n` board with every cell free.
pub fn new_board(n: usize) -> (board: Vec<Vec<i8>>)
    ensures
        grid(&board) == blank(n as nat),
{
    let mut board: Vec<Vec<i8>> = Vec::new();
    let mut i: usize = 0;
    while i < n
        invariant
            0 <= i <= n,
            board@.len() == i,
            forall|k: int| 0 <= k < i ==> (#[trigger] board@[k])@ == Seq::new(n as nat, |j: int| EMPTY),
        decreases n - i,
    {
        let mut row: Vec<i8> = Vec::new();
        let mut j: usize = 0;
        while j < n
            invariant
                0 <= j <= n,
                row@ == Seq::new(j as nat, |k: int| EMPTY),
            decreases n - j,
        {
            row.push(EMPTY);
            assert(row@ =~= Seq::new((j + 1) as nat, |k: int| EMPTY));
            j = j + 1;
        }
        board.push(row);
        i = i + 1;
    }
    assert(grid(&board) =~= blank(n as nat));
    board
}

/// Tells whether `(x, y)` (row, column) is a cell of `board` that holds no mark.
pub fn valid_move(x: usize, y: usize, board: &Vec<Vec<i8>>) -> (r: bool)
    ensures
        r == is_free(grid(board), x as int, y as int),
{
    x < board.len() && y < board[x].len() && board[x][y] == EMPTY
}

/// Writes `player`'s mark into cell `(x, y)` when that cell is free, and reports whether it
/// did; the board is left as it was otherwise.
pub fn play_move(board: &mut Vec<Vec<i8>>, x: usize, y: usize, player: i8) -> (done: bool)
    ensures
        done == is_free(grid(old(board)), x as int, y as int),
        done ==> grid(final(board)) == place(grid(old(board)), x as int, y as int, player),
        !done ==> grid(final(board)) == grid(old(board)),
{
    if valid_move(x, y, board) {
        board[x][y] = player;
        assert(grid(board) =~= place(grid(old(board)), x as int, y as int, player));
        true
    } else {
        false
    }
}

/// The character that shows a cell: `-` when free, `X` for the person, `O` otherwise.
pub fn cell_symbol(cell: i8) -> (ch: char)
    ensures
        ch == (if cell == EMPTY {
            '-'
        } else if cell == PERSON {
            'X'
        } else {
            'O'
        }),
{
    if cell == EMPTY {
        '-'
    } else if cell == PERSON {
        'X'
    } else {
        'O'
    }
}

/// A row whose only marked cell, if any, is column `hole` has one free cell fewer among
/// its first `k` columns than `k` when the hole lies among them.
proof fn lemma_row_free_count(row: Seq<i8>, r: int, k: int, hole: int)
    requires
        0 <= k <= row.len(),
        forall|j: int| 0 <= j < row.len() ==> (#[trigger] row[j] == EMPTY <==> j != hole),
    ensures
        free_in_row(row, r, k).len() == k - (if 0 <= hole < k { 1int } else { 0int }),
    decreases k,
{
    if k > 0 {
        lemma_row_free_count(row, r, k - 1, hole);
    }
}

/// An `n`-column board whose only marked cell, if any, is `(hr, hc)`: its first `k` rows
/// hold `k * n` free cells, less one when the mark lies among them.
proof fn lemma_rows_free_count(b: Seq<Seq<i8>>, n: int, k: int, hr: int, hc: int)
    requires
        0 <= k <= b.len(),
        0 <= n,
        forall|i: int| 0 <= i < b.len() ==> (#[trigger] b[i]).len() == n,
        forall|i: int, j: int|
            0 <= i < b.len() && 0 <= j < n ==> (#[trigger] b[i][j] == EMPTY <==> !(i == hr && j == hc)),
    ensures
        free_upto(b, k).len() == k * n - (if 0 <= hr < k && 0 <= hc < n { 1int } else { 0int }),
    decreases k,
{
    if k > 0 {
        lemma_rows_free_count(b, n, k - 1, hr, hc);
        let hole = if hr == k - 1 { hc } else { -1 };
        assert forall|j: int| 0 <= j < b[k - 1].len() implies (#[trigger] b[k - 1][j] == EMPTY <==> j != hole) by {
            assert(b[k - 1][j] == EMPTY <==> !(k - 1 == hr && j == hc));
        }
        lemma_row_free_count(b[k - 1], k - 1, n, hole);
        assert((k - 1) * n + n == k * n) by (nonlinear_arith);
        assert(free_upto(b, k).len() == free_upto(b, k - 1).len() + free_in_row(b[k - 1], k - 1, n).len());
    } else {
        assert(k * n == 0) by (nonlinear_arith)
            requires
                k == 0,
        ;
    }
}

/// A blank `n`×`n` board has `n`² free cells; after one mark is placed on it, `n`² - 1.
pub proof fn lemma_free_cells_count(n: nat, r: int, c: int, m: i8)
    requires
        0 <= r < n,
        0 <= c < n,
        m != EMPTY,
    ensures
        free_cells(blank(n)).len() == n * n,
        free_cells(place(blank(n), r, c, m)).len() == n * n - 1,
{
    let b = blank(n);
    lemma_rows_free_count(b, n as int, n as int, -1, -1);
    let b2 = place(b, r, c, m);
    assert forall|i: int, j: int| 0 <= i < n && 0 <= j < n implies (#[trigger] b2[i][j] == EMPTY <==> !(
    i == r && j == c)) by {
        if i == r {
            assert(b2[i] == b[r].update(c, m));
        }
    }
    lemma_rows_free_count(b2, n as int, n as int, r, c);
}

} // verus!
