//! Game-tree search for the player to move: plain minimax, and minimax with alpha-beta
//! pruning. Both explore moves in row-major order and keep the first of equally good moves.
use vstd::prelude::*;
use crate::board::{COMPUTER, EMPTY, PERSON, free_cells, grid, in_bounds, is_free, is_square, place};
use crate::board::{empty_cells, free_in_row, free_upto, play_move};
use crate::rules::{evaluate, score_of, won, wins};

verus! {

/// A bound below every score: the computer's starting point before any move is tried.
pub const NEG_INF: i8 = -2;

/// A bound above every score: the person's starting point before any move is tried.
pub const POS_INF: i8 = 2;

/// One of the two players.
pub open spec fn is_player(p: i8) -> bool {
    p == PERSON || p == COMPUTER
}

/// The player who moves after `p`.
pub open spec fn other(p: i8) -> i8 {
    if p == COMPUTER {
        PERSON
    } else {
        COMPUTER
    }
}

/// The worst conceivable score for `p`, which the first move tried always improves on.
pub open spec fn opening(p: i8) -> int {
    if p == COMPUTER {
        NEG_INF as int
    } else {
        POS_INF as int
    }
}

/// Score `v` is strictly better than `s` for `p`: the computer maximises, the person minimises.
pub open spec fn improves(p: i8, v: int, s: int) -> bool {
    if p == COMPUTER {
        v > s
    } else {
        v < s
    }
}

/// The search stops here: someone has won, the depth is used up, or no cell is free.
pub open spec fn is_terminal(b: Seq<Seq<i8>>, depth: nat) -> bool {
    won(b, COMPUTER) || won(b, PERSON) || depth == 0 || free_cells(b).len() == 0
}

/// The minimax value of `b` with `p` to move and `depth` plies left to explore.
pub open spec fn value(b: Seq<Seq<i8>>, depth: nat, p: i8) -> int
    decreases depth, 1nat, 0nat,
{
    if is_terminal(b, depth) {
        score_of(b)
    } else {
        scan(b, depth, p, free_cells(b).len()).1
    }
}

/// The best move and its value among the first `k` free cells of `b`, with `p` to move:
/// a later move replaces the one held only when its value is strictly better for `p`.
pub open spec fn scan(b: Seq<Seq<i8>>, depth: nat, p: i8, k: nat) -> (Option<(int, int)>, int)
    decreases depth, 0nat, k,
{
    if depth == 0 || k == 0 {
        (None, opening(p))
    } else {
        let prev = scan(b, depth, p, (k - 1) as nat);
        let c = free_cells(b)[k - 1];
        let v = value(place(b, c.0, c.1, p), (depth - 1) as nat, other(p));
        if improves(p, v, prev.1) {
            (Some(c), v)
        } else {
            prev
        }
    }
}

/// The move that minimax picks for `p`: the first free cell, in row-major order, whose
/// value is best for `p`. There is none at a terminal position.
pub open spec fn best_move(b: Seq<Seq<i8>>, depth: nat, p: i8) -> Option<(int, int)> {
    if is_terminal(b, depth) {
        None
    } else {
        scan(b, depth, p, free_cells(b).len()).0
    }
}

/// What an alpha-beta search over the window (`alpha`, `beta`) may return: the exact value
/// and move when the value lies strictly inside the window, and otherwise a score on the
/// same side of the window as the value.
pub open spec fn within_window(
    b: Seq<Seq<i8>>,
    depth: nat,
    p: i8,
    alpha: int,
    beta: int,
    mv: Option<(int, int)>,
    score: int,
) -> bool {
    let v = value(b, depth, p);
    &&& (alpha < v < beta ==> score == v && mv == best_move(b, depth, p))
    &&& (v <= alpha ==> score <= alpha)
    &&& (v >= beta ==> score >= beta)
}

/// The `k`-th free cell of a board is inside it and holds no mark.
pub proof fn lemma_free_cell_is_free(b: Seq<Seq<i8>>, k: int)
    requires
        0 <= k < free_cells(b).len(),
    ensures
        is_free(b, free_cells(b)[k].0, free_cells(b)[k].1),
{
    lemma_free_upto_free(b, b.len() as int, k);
}

proof fn lemma_free_upto_free(b: Seq<Seq<i8>>, r: int, k: int)
    requires
        0 <= r <= b.len(),
        0 <= k < free_upto(b, r).len(),
    ensures
        is_free(b, free_upto(b, r)[k].0, free_upto(b, r)[k].1),
    decreases r,
{
    if r > 0 {
        let head = free_upto(b, r - 1);
        if k < head.len() {
            lemma_free_upto_free(b, r - 1, k);
        } else {
            lemma_free_in_row_free(b, r - 1, b[r - 1].len() as int, k - head.len());
        }
    }
}

proof fn lemma_free_in_row_free(b: Seq<Seq<i8>>, r: int, c: int, k: int)
    requires
        0 <= r < b.len(),
        0 <= c <= b[r].len(),
        0 <= k < free_in_row(b[r], r, c).len(),
    ensures
        is_free(b, free_in_row(b[r], r, c)[k].0, free_in_row(b[r], r, c)[k].1),
    decreases c,
{
    if c > 0 {
        let head = free_in_row(b[r], r, c - 1);
        if k < head.len() {
            lemma_free_in_row_free(b, r, c - 1, k);
        }
    }
}

/// Every minimax value is a genuine score: -1, 0 or 1, never one of the opening bounds.
pub proof fn lemma_value_bounds(b: Seq<Seq<i8>>, depth: nat, p: i8)
    requires
        is_player(p),
    ensures
        -1 <= value(b, depth, p) <= 1,
    decreases depth, 1nat, 0nat,
{
    if !is_terminal(b, depth) {
        lemma_scan_bounds(b, depth, p, free_cells(b).len());
    }
}

/// Once at least one move has been tried, the move held is one of the cells tried and its
/// score is a genuine score.
proof fn lemma_scan_bounds(b: Seq<Seq<i8>>, depth: nat, p: i8, k: nat)
    requires
        is_player(p),
        depth > 0,
        1 <= k <= free_cells(b).len(),
    ensures
        -1 <= scan(b, depth, p, k).1 <= 1,
        exists|j: int| 0 <= j < k && scan(b, depth, p, k).0 == Some(#[trigger] free_cells(b)[j]),
    decreases depth, 0nat, k,
{
    let c = free_cells(b)[k - 1];
    lemma_value_bounds(place(b, c.0, c.1, p), (depth - 1) as nat, other(p));
    let prev = scan(b, depth, p, (k - 1) as nat);
    if k > 1 {
        lemma_scan_bounds(b, depth, p, (k - 1) as nat);
        let j = choose|j: int| 0 <= j < k - 1 && prev.0 == Some(#[trigger] free_cells(b)[j]);
        if !improves(p, value(place(b, c.0, c.1, p), (depth - 1) as nat, other(p)), prev.1) {
            assert(scan(b, depth, p, k).0 == Some(free_cells(b)[j]));
        }
    } else {
        assert(prev == (None::<(int, int)>, opening(p)));
    }
}

/// Once the held score is a win for the player to move, no later move replaces it.
proof fn lemma_scan_settled(b: Seq<Seq<i8>>, depth: nat, p: i8, j: nat, k: nat)
    requires
        is_player(p),
        depth > 0,
        j <= k <= free_cells(b).len(),
        scan(b, depth, p, j).1 == p as int,
    ensures
        scan(b, depth, p, k) == scan(b, depth, p, j),
    decreases k,
{
    if k > j {
        lemma_scan_settled(b, depth, p, j, (k - 1) as nat);
        let c = free_cells(b)[k - 1];
        lemma_value_bounds(place(b, c.0, c.1, p), (depth - 1) as nat, other(p));
    }
}

/// The held score only gets better for the player to move as more moves are tried.
proof fn lemma_scan_monotone(b: Seq<Seq<i8>>, depth: nat, p: i8, j: nat, k: nat)
    requires
        depth > 0,
        j <= k,
    ensures
        !improves(p, scan(b, depth, p, j).1, scan(b, depth, p, k).1),
    decreases k,
{
    if k > j {
        lemma_scan_monotone(b, depth, p, j, (k - 1) as nat);
    }
}

/// The view of a move as a pair of mathematical integers.
pub open spec fn coords(mv: Option<(usize, usize)>) -> Option<(int, int)> {
    match mv {
        Some((r, c)) => Some((r as int, c as int)),
        None => None,
    }
}

/// A move found by the search, with its predicted score from the computer's side.
/// `mv` is `None` when the position searched was already terminal.
#[derive(Clone, Copy, Debug, PartialEq, Eq)]
pub struct Best {
    pub mv: Option<(usize, usize)>,
    pub score: i8,
}

/// The player who moves after `player`.
pub fn opponent(player: i8) -> (r: i8)
    ensures
        r == other(player),
{
    if player == COMPUTER {
        PERSON
    } else {
        COMPUTER
    }
}

/// Writing a mark into a free cell and then clearing it again gives back the board.
proof fn lemma_place_undo(b: Seq<Seq<i8>>, r: int, c: int, m: i8)
    requires
        is_free(b, r, c),
    ensures
        place(place(b, r, c, m), r, c, EMPTY) == b,
        is_square(b) ==> is_square(place(b, r, c, m)),
{
    assert(place(place(b, r, c, m), r, c, EMPTY) =~= b) by {
        assert(place(place(b, r, c, m), r, c, EMPTY)[r] =~= b[r]);
    }
    if is_square(b) {
        assert forall|i: int| 0 <= i < b.len() implies #[trigger] place(b, r, c, m)[i].len() == b.len() by {
            assert(b[i].len() == b.len());
        }
    }
}

/// Marks cell `(x, y)` of `board` with `m`.
fn set_cell(board: &mut Vec<Vec<i8>>, x: usize, y: usize, m: i8)
    requires
        in_bounds(grid(old(board)), x as int, y as int),
    ensures
        grid(final(board)) == place(grid(old(board)), x as int, y as int, m),
{
    board[x][y] = m;
    assert(grid(board) =~= place(grid(old(board)), x as int, y as int, m));
}

/// Exhaustive minimax for `player` over at most `depth` plies. The board is used as
/// scratch space and is handed back unchanged. The score is the minimax value of the
/// position, and the move is the first free cell, in row-major order, that reaches it.
pub fn minimax(board: &mut Vec<Vec<i8>>, depth: usize, player: i8) -> (best: Best)
    requires
        is_square(grid(old(board))),
        is_player(player),
    ensures
        grid(final(board)) == grid(old(board)),
        best.score as int == value(grid(old(board)), depth as nat, player),
        coords(best.mv) == best_move(grid(old(board)), depth as nat, player),
    decreases depth,
{
    let ghost b = grid(board);
    if wins(board, COMPUTER) || wins(board, PERSON) || depth == 0 {
        return Best { mv: None, score: evaluate(board) };
    }
    let cells = empty_cells(board);
    if cells.len() == 0 {
        return Best { mv: None, score: evaluate(board) };
    }
    let mut best = Best { mv: None, score: if player == COMPUTER { NEG_INF } else { POS_INF } };
    let mut i: usize = 0;
    while i < cells.len()
        invariant
            grid(board) == b,
            b == grid(old(board)),
            is_square(b),
            is_player(player),
            depth > 0,
            !is_terminal(b, depth as nat),
            cells@.len() == free_cells(b).len(),
            forall|k: int|
                0 <= k < cells@.len() ==> (cells@[k].0 as int, cells@[k].1 as int)
                    == #[trigger] free_cells(b)[k],
            0 <= i <= cells@.len(),
            (coords(best.mv), best.score as int) == scan(b, depth as nat, player, i as nat),
        decreases cells@.len() - i,
    {
        let (x, y) = cells[i];
        proof {
            lemma_free_cell_is_free(b, i as int);
            lemma_place_undo(b, x as int, y as int, player);
        }
        set_cell(board, x, y, player);
        let reply = minimax(board, depth - 1, opponent(player));
        set_cell(board, x, y, EMPTY);
        if (player == COMPUTER && reply.score > best.score) || (player == PERSON && reply.score < best.score) {
            best = Best { mv: Some((x, y)), score: reply.score };
            if best.score == player {
                proof {
                    lemma_scan_settled(b, depth as nat, player, (i + 1) as nat, cells@.len());
                }
                return best;
            }
        }
        i = i + 1;
    }
    best
}


/// Minimax with alpha-beta pruning for `player` over at most `depth` plies, within the
/// window (`alpha`, `beta`): `alpha` is what the computer is already sure of higher up the
/// tree, `beta` what the person is sure of. Moves at a node stop being tried once
/// `alpha >= beta`. The board is handed back unchanged. When the minimax value lies inside
/// the window, score and move are those of `minimax`; otherwise the score lies on the same
/// side of the window as the value.
pub fn alpha_beta(board: &mut Vec<Vec<i8>>, depth: usize, player: i8, alpha: i8, beta: i8) -> (best: Best)
    requires
        is_square(grid(old(board))),
        is_player(player),
        alpha < beta,
    ensures
        grid(final(board)) == grid(old(board)),
        within_window(
            grid(old(board)),
            depth as nat,
            player,
            alpha as int,
            beta as int,
            coords(best.mv),
            best.score as int,
        ),
    decreases depth,
{
    let ghost b = grid(board);
    if wins(board, COMPUTER) || wins(board, PERSON) || depth == 0 {
        return Best { mv: None, score: evaluate(board) };
    }
    let cells = empty_cells(board);
    if cells.len() == 0 {
        return Best { mv: None, score: evaluate(board) };
    }
    let ghost alpha0 = alpha as int;
    let ghost beta0 = beta as int;
    let mut lower = alpha;
    let mut upper = beta;
    let mut best = Best { mv: None, score: if player == COMPUTER { NEG_INF } else { POS_INF } };
    let mut i: usize = 0;
    assert(scan(b, depth as nat, player, 0) == (None::<(int, int)>, opening(player)));
    while i < cells.len()
        invariant
            grid(board) == b,
            b == grid(old(board)),
            is_square(b),
            is_player(player),
            depth > 0,
            !is_terminal(b, depth as nat),
            cells@.len() == free_cells(b).len(),
            forall|k: int|
                0 <= k < cells@.len() ==> (cells@[k].0 as int, cells@[k].1 as int)
                    == #[trigger] free_cells(b)[k],
            0 <= i <= cells@.len(),
            alpha0 == alpha as int,
            beta0 == beta as int,
            lower < upper,
            i == 0 ==> lower == alpha0 && upper == beta0,
            i > 0 && player == COMPUTER ==> upper == beta0 && lower as int == (if best.score > alpha0 {
                best.score as int
            } else {
                alpha0
            }),
            i > 0 && player == PERSON ==> lower == alpha0 && upper as int == (if best.score < beta0 {
                best.score as int
            } else {
                beta0
            }),
            player == COMPUTER ==> {
                let m = scan(b, depth as nat, player, i as nat);
                &&& m.1 <= alpha0 ==> best.score <= alpha0
                &&& m.1 > alpha0 ==> best.score == m.1 && coords(best.mv) == m.0
            },
            player == PERSON ==> {
                let m = scan(b, depth as nat, player, i as nat);
                &&& m.1 >= beta0 ==> best.score >= beta0
                &&& m.1 < beta0 ==> best.score == m.1 && coords(best.mv) == m.0
            },
        decreases cells@.len() - i,
    {
        let (x, y) = cells[i];
        proof {
            lemma_free_cell_is_free(b, i as int);
            lemma_place_undo(b, x as int, y as int, player);
            lemma_value_bounds(place(b, x as int, y as int, player), (depth - 1) as nat, other(player));
        }
        set_cell(board, x, y, player);
        let reply = alpha_beta(board, depth - 1, opponent(player), lower, upper);
        set_cell(board, x, y, EMPTY);
        if (player == COMPUTER && reply.score > best.score) || (player == PERSON && reply.score < best.score) {
            best = Best { mv: Some((x, y)), score: reply.score };
        }
        if player == COMPUTER {
            if best.score > lower {
                lower = best.score;
            }
        } else {
            if best.score < upper {
                upper = best.score;
            }
        }
        if lower >= upper {
            proof {
                lemma_scan_monotone(b, depth as nat, player, (i + 1) as nat, cells@.len());
            }
            return best;
        }
        i = i + 1;
    }
    best
}

/// Pruning does not change the outcome: an alpha-beta search over the full window
/// (`NEG_INF`, `POS_INF`) returns exactly the score and the move of plain minimax.
pub proof fn lemma_pruning_parity(
    b: Seq<Seq<i8>>,
    depth: nat,
    p: i8,
    mv: Option<(int, int)>,
    score: int,
)
    requires
        is_player(p),
        within_window(b, depth, p, NEG_INF as int, POS_INF as int, mv, score),
    ensures
        score == value(b, depth, p),
        mv == best_move(b, depth, p),
{
    lemma_value_bounds(b, depth, p);
}

/// At a position that is not over, with a ply left to search, the move that minimax picks
/// is a free cell of the board.
pub proof fn lemma_chosen_move_is_free(b: Seq<Seq<i8>>, depth: nat, p: i8)
    requires
        is_player(p),
        depth > 0,
        !won(b, COMPUTER),
        !won(b, PERSON),
        free_cells(b).len() > 0,
    ensures
        best_move(b, depth, p) is Some,
        is_free(b, best_move(b, depth, p).unwrap().0, best_move(b, depth, p).unwrap().1),
{
    lemma_scan_bounds(b, depth, p, free_cells(b).len());
    let j = choose|j: int|
        0 <= j < free_cells(b).len() && scan(b, depth, p, free_cells(b).len()).0 == Some(
            #[trigger] free_cells(b)[j],
        );
    lemma_free_cell_is_free(b, j);
}

/// Picks the move for `player` with `depth` plies left, by alpha-beta search when `prune`
/// holds and by plain minimax otherwise; the two always agree. The board is handed back
/// unchanged.
pub fn search(board: &mut Vec<Vec<i8>>, depth: usize, player: i8, prune: bool) -> (best: Best)
    requires
        is_square(grid(old(board))),
        is_player(player),
    ensures
        grid(final(board)) == grid(old(board)),
        best.score as int == value(grid(old(board)), depth as nat, player),
        coords(best.mv) == best_move(grid(old(board)), depth as nat, player),
{
    if prune {
        let best = alpha_beta(board, depth, player, NEG_INF, POS_INF);
        proof {
            lemma_pruning_parity(grid(old(board)), depth as nat, player, coords(best.mv), best.score as int);
        }
        best
    } else {
        minimax(board, depth, player)
    }
}

/// The computer's turn: searches every remaining ply with pruning and marks the chosen
/// cell for the computer. Returns that cell, or `None`, with the board untouched, when the
/// position is already over.
pub fn computer_turn(board: &mut Vec<Vec<i8>>) -> (mv: Option<(usize, usize)>)
    requires
        is_square(grid(old(board))),
    ensures
        coords(mv) == best_move(grid(old(board)), free_cells(grid(old(board))).len(), COMPUTER),
        mv is None ==> grid(final(board)) == grid(old(board)),
        mv is Some ==> grid(final(board)) == place(
            grid(old(board)),
            mv.unwrap().0 as int,
            mv.unwrap().1 as int,
            COMPUTER,
        ),
        !won(grid(old(board)), COMPUTER) && !won(grid(old(board)), PERSON) && free_cells(
            grid(old(board)),
        ).len() > 0 ==> mv is Some,
{
    let ghost b = grid(board);
    let depth = empty_cells(board).len();
    let best = search(board, depth, COMPUTER, true);
    proof {
        if !won(b, COMPUTER) && !won(b, PERSON) && depth > 0 {
            lemma_chosen_move_is_free(b, depth as nat, COMPUTER);
        }
    }
    match best.mv {
        Some((x, y)) => {
            proof {
                lemma_chosen_move_is_free(b, depth as nat, COMPUTER);
            }
            play_move(board, x, y, COMPUTER);
            Some((x, y))
        },
        None => None,
    }
}

} // verus!
