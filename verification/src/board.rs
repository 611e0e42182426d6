//! The 4x4 board and its transition engine.
//!
//! For a chosen direction the sixteen cells fall into four independent
//! lines (rows or columns).  Line `k` is read edge-first: position 0 is the
//! cell on the compaction edge, position 3 the cell farthest from it.

use vstd::prelude::*;

use crate::arrow::Arrow;
use crate::rng::{choose_one_from, choose_two_from, ratio_event};
use crate::line::{
    combine_line, combined, lemma_line_gain_le_value, lemma_line_value4, lemma_moved_line_len,
    lemma_moved_line_value, lemma_occupied_packed, lemma_packed_is_packed, lemma_packed_value,
    lemma_value_component, line_gain, line_value, moved_line, occupied, packed, pow2_u64,
    slide_line_once, slide_step, tile_value,
};
use vstd::arithmetic::power2::{lemma2_to64_rest, lemma_pow2_strictly_increases, pow2};

verus! {

/// Which line the cell at row `r`, column `c` belongs to for direction `d`.
pub open spec fn line_idx(d: Arrow, r: int, c: int) -> int {
    match d {
        Arrow::Up | Arrow::Down => c,
        Arrow::Left | Arrow::Right => r,
    }
}

/// The edge-first position of the cell at row `r`, column `c` within its
/// line for direction `d`.
pub open spec fn pos_idx(d: Arrow, r: int, c: int) -> int {
    match d {
        Arrow::Up => r,
        Arrow::Down => 3 - r,
        Arrow::Left => c,
        Arrow::Right => 3 - c,
    }
}

/// The cell at edge-first position `i` of line `k` for direction `d`.
pub open spec fn line_cell(b: [[u8; 4]; 4], d: Arrow, k: int, i: int) -> u8 {
    match d {
        Arrow::Up => b[i][k],
        Arrow::Down => b[3 - i][k],
        Arrow::Left => b[k][i],
        Arrow::Right => b[k][3 - i],
    }
}

/// Line `k` of the board for direction `d`, edge first.
pub open spec fn line_of(b: [[u8; 4]; 4], d: Arrow, k: int) -> Seq<u8> {
    Seq::new(4, |i: int| line_cell(b, d, k, i))
}

/// The cell at row `r`, column `c` after one move in direction `d`.
pub open spec fn moved_cell(b: [[u8; 4]; 4], d: Arrow, r: int, c: int) -> u8 {
    moved_line(line_of(b, d, line_idx(d, r, c)))[pos_idx(d, r, c)]
}

/// Whether one move in direction `d` changes any cell.
pub open spec fn changes(b: [[u8; 4]; 4], d: Arrow) -> bool {
    exists|r: int, c: int| 0 <= r < 4 && 0 <= c < 4 && moved_cell(b, d, r, c) != b[r][c]
}

/// The board is lost when no direction changes it.
pub open spec fn terminal(b: [[u8; 4]; 4]) -> bool {
    &&& !changes(b, Arrow::Up)
    &&& !changes(b, Arrow::Down)
    &&& !changes(b, Arrow::Left)
    &&& !changes(b, Arrow::Right)
}

/// Every cell holds a tile.
pub open spec fn full(b: [[u8; 4]; 4]) -> bool {
    forall|r: int, c: int| 0 <= r < 4 && 0 <= c < 4 ==> b[r][c] != 0
}

/// The summed displayed value of all tiles on the board.
pub open spec fn board_value(b: [[u8; 4]; 4]) -> nat {
    line_value(b[0]@) + line_value(b[1]@) + line_value(b[2]@) + line_value(b[3]@)
}

/// The score the first `k` lines of direction `d` earn in one move.
pub open spec fn lines_gain(b: [[u8; 4]; 4], d: Arrow, k: int) -> nat
    decreases k,
{
    if k <= 0 {
        0
    } else {
        lines_gain(b, d, k - 1) + line_gain(line_of(b, d, k - 1))
    }
}

/// The summed value of the first `k` lines of direction `d`.
pub open spec fn lines_value(b: [[u8; 4]; 4], d: Arrow, k: int) -> nat
    decreases k,
{
    if k <= 0 {
        0
    } else {
        lines_value(b, d, k - 1) + line_value(line_of(b, d, k - 1))
    }
}

/// The score one move in direction `d` earns.
pub open spec fn move_gain(b: [[u8; 4]; 4], d: Arrow) -> nat {
    lines_gain(b, d, 4)
}

/// The 4x4 grid of tile ranks (0 for an empty cell) and the score the
/// moves so far have earned.
#[derive(Clone, Copy, PartialEq, Eq, Hash, Debug)]
pub struct Board {
    pub board: [[u8; 4]; 4],
    pub score: u64,
}

/// The board's cells split into the four lines of any one direction.
pub proof fn lemma_board_value_lines(b: [[u8; 4]; 4], d: Arrow)
    ensures
        board_value(b) == lines_value(b, d, 4),
{
    reveal_with_fuel(lines_value, 5);
    lemma_line_value4(b[0]@);
    lemma_line_value4(b[1]@);
    lemma_line_value4(b[2]@);
    lemma_line_value4(b[3]@);
    lemma_line_value4(line_of(b, d, 0));
    lemma_line_value4(line_of(b, d, 1));
    lemma_line_value4(line_of(b, d, 2));
    lemma_line_value4(line_of(b, d, 3));
}

/// The row holding edge-first position `i` of line `k` for direction `d`.
pub open spec fn row_of(d: Arrow, k: int, i: int) -> int {
    match d {
        Arrow::Up => i,
        Arrow::Down => 3 - i,
        Arrow::Left => k,
        Arrow::Right => k,
    }
}

/// The column holding edge-first position `i` of line `k` for direction `d`.
pub open spec fn col_of(d: Arrow, k: int, i: int) -> int {
    match d {
        Arrow::Up => k,
        Arrow::Down => k,
        Arrow::Left => i,
        Arrow::Right => 3 - i,
    }
}

/// Any one line is worth at most the whole board.
pub proof fn lemma_line_value_le_board(b: [[u8; 4]; 4], d: Arrow, k: int)
    requires
        0 <= k < 4,
    ensures
        line_value(line_of(b, d, k)) <= board_value(b),
{
    reveal_with_fuel(lines_value, 5);
    lemma_board_value_lines(b, d);
}

/// The score of a move's first `k` lines never exceeds their value.
pub proof fn lemma_lines_gain_le_value(b: [[u8; 4]; 4], d: Arrow, k: int)
    requires
        0 <= k <= 4,
    ensures
        lines_gain(b, d, k) <= lines_value(b, d, k),
    decreases k,
{
    if k > 0 {
        lemma_lines_gain_le_value(b, d, k - 1);
        lemma_line_gain_le_value(line_of(b, d, k - 1));
    }
}

/// The summed value of the first `t` cells of the board, scanned row by
/// row.
pub open spec fn cells_value_prefix(b: [[u8; 4]; 4], t: int) -> nat
    decreases t,
{
    if t <= 0 {
        0
    } else {
        cells_value_prefix(b, t - 1) + tile_value(b[(t - 1) / 4][(t - 1) % 4])
    }
}

pub proof fn lemma_cells_value_prefix_all(b: [[u8; 4]; 4])
    ensures
        cells_value_prefix(b, 16) == board_value(b),
{
    reveal_with_fuel(cells_value_prefix, 17);
    lemma_line_value4(b[0]@);
    lemma_line_value4(b[1]@);
    lemma_line_value4(b[2]@);
    lemma_line_value4(b[3]@);
}

/// A move that changes no cell earns no score, so a report of "nothing
/// moved" leaves the board, score included, exactly as it was.
pub proof fn lemma_still_move_no_gain(b: [[u8; 4]; 4], d: Arrow)
    requires
        board_value(b) <= u64::MAX,
        forall|r: int, c: int| 0 <= r < 4 && 0 <= c < 4 ==> moved_cell(b, d, r, c) == b[r][c],
    ensures
        move_gain(b, d) == 0,
{
    assert forall|j: int| 0 <= j < 4 implies moved_line(line_of(b, d, j)) == line_of(b, d, j) by {
        let lj = line_of(b, d, j);
        lemma_moved_line_len(lj);
        assert forall|i: int| 0 <= i < 4 implies moved_line(lj)[i] == lj[i] by {
            let r = row_of(d, j, i);
            let c = col_of(d, j, i);
            assert(line_idx(d, r, c) == j && pos_idx(d, r, c) == i);
            assert(moved_cell(b, d, r, c) == b[r][c]);
            assert(moved_line(lj)[i] == moved_cell(b, d, r, c));
            assert(lj[i] == b[r][c]);
        }
        assert(moved_line(lj) =~= lj);
    }
    assert forall|j: int| 0 <= j < 4 implies line_gain(line_of(b, d, j)) == 0 by {
        lemma_line_value_le_board(b, d, j);
        crate::line::lemma_still_line_no_gain(line_of(b, d, j));
    }
    reveal_with_fuel(lines_gain, 5);
}

/// After one move no tile outranks every tile that stood in its line
/// before the move by more than one: a tile merges at most once per move.
pub proof fn lemma_move_merges_once(b: [[u8; 4]; 4], d: Arrow, r: int, c: int)
    requires
        0 <= r < 4,
        0 <= c < 4,
        moved_cell(b, d, r, c) != 0,
    ensures
        exists|r2: int, c2: int|
            0 <= r2 < 4 && 0 <= c2 < 4 && line_idx(d, r2, c2) == line_idx(d, r, c) && b[r2][c2]
                != 0 && moved_cell(b, d, r, c) <= b[r2][c2] + 1,
{
    let k = line_idx(d, r, c);
    let i = pos_idx(d, r, c);
    let lk = line_of(b, d, k);
    crate::line::lemma_move_rank_bound(lk, i);
    let j = choose|j: int| 0 <= j < 4 && lk[j] != 0 && moved_line(lk)[i] <= lk[j] + 1;
    let r2 = row_of(d, k, j);
    let c2 = col_of(d, k, j);
    assert(lk[j] == b[r2][c2]);
    assert(0 <= r2 < 4 && 0 <= c2 < 4 && line_idx(d, r2, c2) == line_idx(d, r, c) && b[r2][c2] != 0
        && moved_cell(b, d, r, c) <= b[r2][c2] + 1);
}

/// Pointwise equality of two grids.
fn cells_equal(a: &[[u8; 4]; 4], b: &[[u8; 4]; 4]) -> (r: bool)
    ensures
        r == (forall|i: int, j: int| 0 <= i < 4 && 0 <= j < 4 ==> a[i][j] == b[i][j]),
{
    let mut row: usize = 0;
    while row < 4
        invariant
            row <= 4,
            forall|i: int, j: int| 0 <= i < row && 0 <= j < 4 ==> a[i][j] == b[i][j],
        decreases 4 - row,
    {
        let mut col: usize = 0;
        while col < 4
            invariant
                row < 4,
                col <= 4,
                forall|i: int, j: int| 0 <= i < row && 0 <= j < 4 ==> a[i][j] == b[i][j],
                forall|j: int| 0 <= j < col ==> a[row as int][j] == b[row as int][j],
            decreases 4 - col,
        {
            if a[row][col] != b[row][col] {
                return false;
            }
            col = col + 1;
        }
        row = row + 1;
    }
    true
}

impl Board {
    /// Line `k` of the board for `direction`, edge first.
    fn read_line(&self, direction: Arrow, k: usize) -> (l: [u8; 4])
        requires
            k < 4,
        ensures
            l@ == line_of(self.board, direction, k as int),
    {
        let b = &self.board;
        let l = match direction {
            Arrow::Up => [b[0][k], b[1][k], b[2][k], b[3][k]],
            Arrow::Down => [b[3][k], b[2][k], b[1][k], b[0][k]],
            Arrow::Left => [b[k][0], b[k][1], b[k][2], b[k][3]],
            Arrow::Right => [b[k][3], b[k][2], b[k][1], b[k][0]],
        };
        proof {
            assert(l@ =~= line_of(self.board, direction, k as int));
        }
        l
    }

    /// Writes `l` back as line `k` of `direction`; no other cell moves.
    fn write_line(&mut self, direction: Arrow, k: usize, l: [u8; 4])
        requires
            k < 4,
        ensures
            final(self).score == old(self).score,
            line_of(final(self).board, direction, k as int) == l@,
            forall|j: int|
                0 <= j < 4 && j != k ==> line_of(final(self).board, direction, j) == line_of(
                    old(self).board,
                    direction,
                    j,
                ),
    {
        match direction {
            Arrow::Up => {
                self.board[0][k] = l[0];
                self.board[1][k] = l[1];
                self.board[2][k] = l[2];
                self.board[3][k] = l[3];
            },
            Arrow::Down => {
                self.board[3][k] = l[0];
                self.board[2][k] = l[1];
                self.board[1][k] = l[2];
                self.board[0][k] = l[3];
            },
            Arrow::Left => {
                self.board[k][0] = l[0];
                self.board[k][1] = l[1];
                self.board[k][2] = l[2];
                self.board[k][3] = l[3];
            },
            Arrow::Right => {
                self.board[k][3] = l[0];
                self.board[k][2] = l[1];
                self.board[k][1] = l[2];
                self.board[k][0] = l[3];
            },
        }
        proof {
            assert(line_of(self.board, direction, k as int) =~= l@);
            assert forall|j: int|
                0 <= j < 4 && j != k implies line_of(self.board, direction, j) == line_of(
                old(self).board,
                direction,
                j,
            ) by {
                assert(line_of(self.board, direction, j) =~= line_of(old(self).board, direction, j));
            }
        }
    }

    /// One sliding pass of every line of `direction`: each tile with an
    /// empty neighbour nearer the compaction edge moves into it.
    pub fn squash_once(&mut self, direction: Arrow)
        ensures
            final(self).score == old(self).score,
            forall|k: int|
                0 <= k < 4 ==> line_of(final(self).board, direction, k) == slide_step(
                    line_of(old(self).board, direction, k),
                ),
    {
        let mut k: usize = 0;
        while k < 4
            invariant
                k <= 4,
                self.score == old(self).score,
                forall|j: int|
                    0 <= j < k ==> line_of(self.board, direction, j) == slide_step(
                        line_of(old(self).board, direction, j),
                    ),
                forall|j: int|
                    k <= j < 4 ==> line_of(self.board, direction, j) == line_of(
                        old(self).board,
                        direction,
                        j,
                    ),
            decreases 4 - k,
        {
            let mut l = self.read_line(direction, k);
            slide_line_once(&mut l);
            self.write_line(direction, k, l);
            k = k + 1;
        }
    }

    /// One move: pack every line of `direction` against its edge, combine
    /// equal adjacent tiles once per pair scanning outward from the edge,
    /// pack again, and add the move's score to the board's score.
    ///
    /// The bound in `requires` keeps the score arithmetic inside a `u64`;
    /// any board a played game can reach satisfies it.
    pub fn merge(&mut self, direction: Arrow)
        requires
            old(self).score + board_value(old(self).board) <= u64::MAX,
        ensures
            forall|r: int, c: int|
                0 <= r < 4 && 0 <= c < 4 ==> final(self).board[r][c] == moved_cell(
                    old(self).board,
                    direction,
                    r,
                    c,
                ),
            final(self).score == old(self).score + move_gain(old(self).board, direction),
            board_value(final(self).board) == board_value(old(self).board),
    {
        let ghost b0 = self.board;
        self.squash(direction);
        let mut delta: u64 = 0;
        let mut k: usize = 0;
        while k < 4
            invariant
                k <= 4,
                self.score == old(self).score,
                old(self).score + board_value(b0) <= u64::MAX,
                forall|j: int|
                    0 <= j < k ==> occupied(line_of(self.board, direction, j)) == combined(
                        occupied(line_of(b0, direction, j)),
                    ),
                forall|j: int|
                    k <= j < 4 ==> line_of(self.board, direction, j) == packed(
                        line_of(b0, direction, j),
                    ),
                delta as nat == lines_gain(b0, direction, k as int),
            decreases 4 - k,
        {
            proof {
                reveal_with_fuel(lines_value, 5);
                reveal_with_fuel(lines_gain, 5);
                lemma_board_value_lines(b0, direction);
                lemma_packed_is_packed(line_of(b0, direction, k as int));
                lemma_packed_value(line_of(b0, direction, k as int));
                lemma_line_value_le_board(b0, direction, k as int);
                lemma_occupied_packed(line_of(b0, direction, k as int));
                lemma_lines_gain_le_value(b0, direction, k as int + 1);
                lemma_lines_gain_le_value(b0, direction, k as int);
            }
            let mut l = self.read_line(direction, k);
            let g = combine_line(&mut l);
            self.write_line(direction, k, l);
            delta = delta + g;
            k = k + 1;
        }
        proof {
            reveal_with_fuel(lines_value, 5);
            lemma_board_value_lines(b0, direction);
            lemma_lines_gain_le_value(b0, direction, 4);
        }
        self.score = self.score + delta;
        let ghost mid = self.board;
        self.squash(direction);
        proof {
            assert forall|j: int|
                0 <= j < 4 implies line_of(self.board, direction, j) == moved_line(
                line_of(b0, direction, j),
            ) by {
                lemma_moved_line_len(line_of(b0, direction, j));
                assert(occupied(line_of(mid, direction, j)) == combined(
                    occupied(line_of(b0, direction, j)),
                ));
                assert(line_of(self.board, direction, j) =~= moved_line(line_of(b0, direction, j)));
            }
            assert forall|r: int, c: int|
                0 <= r < 4 && 0 <= c < 4 implies self.board[r][c] == moved_cell(
                b0,
                direction,
                r,
                c,
            ) by {
                let k = line_idx(direction, r, c);
                let i = pos_idx(direction, r, c);
                assert(line_of(self.board, direction, k)[i] == self.board[r][c]);
            }
            assert forall|j: int|
                0 <= j < 4 implies line_value(line_of(self.board, direction, j)) == line_value(
                line_of(b0, direction, j),
            ) by {
                lemma_line_value_le_board(b0, direction, j);
                lemma_moved_line_value(line_of(b0, direction, j));
            }
            reveal_with_fuel(lines_value, 5);
            lemma_board_value_lines(b0, direction);
            lemma_board_value_lines(self.board, direction);
        }
    }

    /// The squashing pass of a move: three sliding passes, which pack
    /// every line of `direction` against the compaction edge, keeping the
    /// tiles' order.
    pub fn squash(&mut self, direction: Arrow)
        ensures
            final(self).score == old(self).score,
            forall|k: int|
                0 <= k < 4 ==> line_of(final(self).board, direction, k) == packed(
                    line_of(old(self).board, direction, k),
                ),
    {
        self.squash_once(direction);
        self.squash_once(direction);
        self.squash_once(direction);
        proof {
            assert forall|k: int|
                0 <= k < 4 implies line_of(self.board, direction, k) == packed(
                line_of(old(self).board, direction, k),
            ) by {
                crate::line::lemma_slide3_packs(line_of(old(self).board, direction, k));
            }
        }
    }

    /// Whether every cell holds a tile.
    pub fn is_full(&self) -> (r: bool)
        ensures
            r == full(self.board),
    {
        let mut row: usize = 0;
        while row < 4
            invariant
                row <= 4,
                forall|i: int, j: int| 0 <= i < row && 0 <= j < 4 ==> self.board[i][j] != 0,
            decreases 4 - row,
        {
            let mut col: usize = 0;
            while col < 4
                invariant
                    row < 4,
                    col <= 4,
                    forall|i: int, j: int| 0 <= i < row && 0 <= j < 4 ==> self.board[i][j] != 0,
                    forall|j: int| 0 <= j < col ==> self.board[row as int][j] != 0,
                decreases 4 - col,
            {
                if self.board[row][col] == 0 {
                    return false;
                }
                col = col + 1;
            }
            row = row + 1;
        }
        true
    }

    /// The score the moves so far have earned.
    pub fn score(&self) -> (s: u64)
        ensures
            s == self.score,
    {
        self.score
    }

    /// A fresh board: empty but for two rank-1 tiles at two distinct
    /// cells drawn at random, with score 0.
    pub fn new(rng: &mut rand::rngs::ThreadRng) -> (b: Board)
        ensures
            b.score == 0,
            exists|r1: int, c1: int, r2: int, c2: int|
                0 <= r1 < 4 && 0 <= c1 < 4 && 0 <= r2 < 4 && 0 <= c2 < 4 && !(r1 == r2 && c1 == c2)
                    && b.board[r1][c1] == 1 && b.board[r2][c2] == 1 && (forall|r: int, c: int|
                    0 <= r < 4 && 0 <= c < 4 && !(r == r1 && c == c1) && !(r == r2 && c == c2)
                        ==> b.board[r][c] == 0),
    {
        let mut cells: Vec<usize> = Vec::new();
        let mut i: usize = 0;
        while i < 16
            invariant
                i <= 16,
                cells@.len() == i,
                forall|m: int| 0 <= m < i ==> cells@[m] == m,
            decreases 16 - i,
        {
            cells.push(i);
            i = i + 1;
        }
        let picks = choose_two_from(rng, &cells);
        let p = picks.0;
        let q = picks.1;
        proof {
            let (i1, j1) = choose|i1: int, j1: int|
                0 <= i1 < cells@.len() && 0 <= j1 < cells@.len() && i1 != j1 && p == cells@[i1]
                    && q == cells@[j1];
            assert(p == i1 && q == j1);
            vstd::arithmetic::div_mod::lemma_fundamental_div_mod(p as int, 4);
            vstd::arithmetic::div_mod::lemma_fundamental_div_mod(q as int, 4);
        }
        let mut board: [[u8; 4]; 4] = [[0, 0, 0, 0], [0, 0, 0, 0], [0, 0, 0, 0], [0, 0, 0, 0]];
        board[p / 4][p % 4] = 1;
        board[q / 4][q % 4] = 1;
        let b = Board { board, score: 0 };
        proof {
            let r1 = p as int / 4;
            let c1 = p as int % 4;
            let r2 = q as int / 4;
            let c2 = q as int % 4;
            assert(0 <= r1 < 4 && 0 <= c1 < 4 && 0 <= r2 < 4 && 0 <= c2 < 4 && !(r1 == r2 && c1
                == c2) && b.board[r1][c1] == 1 && b.board[r2][c2] == 1 && (forall|r: int, c: int|
                0 <= r < 4 && 0 <= c < 4 && !(r == r1 && c == c1) && !(r == r2 && c == c2)
                    ==> b.board[r][c] == 0));
        }
        b
    }

    /// Puts a new tile on one empty cell drawn at random: rank 2 with
    /// one chance in ten, rank 1 otherwise.  On a full board this is a
    /// no-op that returns false.
    pub fn gen_num(&mut self, rng: &mut rand::rngs::ThreadRng) -> (r: bool)
        ensures
            final(self).score == old(self).score,
            r == !full(old(self).board),
            !r ==> forall|i: int, j: int|
                0 <= i < 4 && 0 <= j < 4 ==> final(self).board[i][j] == old(self).board[i][j],
            r ==> exists|rr: int, cc: int|
                0 <= rr < 4 && 0 <= cc < 4 && old(self).board[rr][cc] == 0 && (final(self).board[rr][cc]
                    == 1 || final(self).board[rr][cc] == 2) && (forall|i: int, j: int|
                    0 <= i < 4 && 0 <= j < 4 && !(i == rr && j == cc) ==> final(self).board[i][j]
                        == old(self).board[i][j]),
    {
        if self.is_full() {
            return false;
        }
        let mut empties: Vec<usize> = Vec::new();
        let mut idx: usize = 0;
        while idx < 16
            invariant
                idx <= 16,
                forall|m: int|
                    0 <= m < empties@.len() ==> (empties@[m] < 16 && self.board[empties@[m] as int
                        / 4][empties@[m] as int % 4] == 0),
                forall|f: int|
                    0 <= f < idx && self.board[f / 4][f % 4] == 0 ==> #[trigger] empties@.contains(
                        f as usize,
                    ),
            decreases 16 - idx,
        {
            let ghost before = empties@;
            if self.board[idx / 4][idx % 4] == 0 {
                empties.push(idx);
            }
            proof {
                assert forall|f: int|
                    0 <= f < idx + 1 && self.board[f / 4][f % 4] == 0 implies #[trigger] empties@.contains(
                    f as usize,
                ) by {
                    if f < idx {
                        assert(before.contains(f as usize));
                        let m = choose|m: int| 0 <= m < before.len() && before[m] == f as usize;
                        assert(empties@[m] == f as usize);
                    } else {
                        assert(empties@[empties@.len() - 1] == f as usize);
                    }
                }
            }
            idx = idx + 1;
        }
        proof {
            let (r0, c0) = choose|r0: int, c0: int|
                0 <= r0 < 4 && 0 <= c0 < 4 && self.board[r0][c0] == 0;
            let f0 = 4 * r0 + c0;
            assert(f0 / 4 == r0 && f0 % 4 == c0) by (nonlinear_arith)
                requires
                    0 <= r0 < 4 && 0 <= c0 < 4 && f0 == 4 * r0 + c0,
            ;
            assert(empties@.contains(f0 as usize));
        }
        let pick = choose_one_from(rng, &empties);
        proof {
            let m = choose|m: int| 0 <= m < empties@.len() && empties@[m] == pick;
            assert(pick < 16 && self.board[pick as int / 4][pick as int % 4] == 0);
        }
        let rank: u8 = if ratio_event(rng, 1, 10) {
            2
        } else {
            1
        };
        self.board[pick / 4][pick % 4] = rank;
        proof {
            let rr = pick as int / 4;
            let cc = pick as int % 4;
            assert(0 <= rr < 4 && 0 <= cc < 4 && old(self).board[rr][cc] == 0 && (self.board[rr][cc]
                == 1 || self.board[rr][cc] == 2) && (forall|i: int, j: int|
                0 <= i < 4 && 0 <= j < 4 && !(i == rr && j == cc) ==> self.board[i][j]
                    == old(self).board[i][j]));
        }
        true
    }

    /// Whether one more move surely stays inside the score's `u64`: the
    /// bound that `play_changed`, `merge` and `is_lost` ask of their
    /// caller.  Every board a played game can reach satisfies it.
    pub fn move_fits(&self) -> (r: bool)
        ensures
            r == (self.score + board_value(self.board) <= u64::MAX),
    {
        let mut total: u128 = 0;
        let mut idx: usize = 0;
        while idx < 16
            invariant
                idx <= 16,
                total as nat == cells_value_prefix(self.board, idx as int),
                total <= idx * 0x8000_0000_0000_0000,
            decreases 16 - idx,
        {
            let v = self.board[idx / 4][idx % 4];
            if v != 0 {
                if v >= 64 {
                    proof {
                        let r0 = idx as int / 4;
                        let c0 = idx as int % 4;
                        lemma_value_component(self.board[r0]@, c0);
                        if (v as nat) > 64 {
                            lemma_pow2_strictly_increases(64, v as nat);
                        }
                        lemma2_to64_rest();
                        assert(tile_value(self.board[r0][c0]) >= pow2(64));
                        assert(board_value(self.board) > u64::MAX);
                    }
                    return false;
                }
                proof {
                    if (v as nat) < 63 {
                        lemma_pow2_strictly_increases(v as nat, 63);
                    }
                    lemma2_to64_rest();
                }
                let w = pow2_u64(v);
                total = total + (w as u128);
            }
            idx = idx + 1;
        }
        proof {
            lemma_cells_value_prefix_all(self.board);
        }
        ((u64::MAX - self.score) as u128) >= total
    }

    /// One whole turn: move in `direction`, and if that changed the board
    /// put one new tile on an empty cell.  Returns whether the move
    /// changed the board; an unchanged board spawns nothing and keeps its
    /// score.
    pub fn play_changed(&mut self, direction: Arrow, rng: &mut rand::rngs::ThreadRng) -> (r: bool)
        requires
            old(self).score + board_value(old(self).board) <= u64::MAX,
        ensures
            r == changes(old(self).board, direction),
            final(self).score >= old(self).score,
            !r ==> final(self).score == old(self).score && (forall|i: int, j: int|
                0 <= i < 4 && 0 <= j < 4 ==> final(self).board[i][j] == old(self).board[i][j]),
            r ==> final(self).score == old(self).score + move_gain(old(self).board, direction),
            r ==> ((forall|i: int, j: int|
                0 <= i < 4 && 0 <= j < 4 ==> (moved_cell(old(self).board, direction, i, j) != 0
                    && final(self).board[i][j] == moved_cell(old(self).board, direction, i, j)))
                || (exists|rr: int, cc: int|
                0 <= rr < 4 && 0 <= cc < 4 && moved_cell(old(self).board, direction, rr, cc) == 0
                    && (final(self).board[rr][cc] == 1 || final(self).board[rr][cc] == 2) && (
                forall|i: int, j: int|
                    0 <= i < 4 && 0 <= j < 4 && !(i == rr && j == cc) ==> final(self).board[i][j]
                        == moved_cell(old(self).board, direction, i, j)))),
    {
        let ghost b0 = self.board;
        let prev = *self;
        self.merge(direction);
        let ghost mid = self.board;
        let changed = !cells_equal(&prev.board, &self.board);
        proof {
            if !changed {
                assert forall|r: int, c: int|
                    0 <= r < 4 && 0 <= c < 4 implies moved_cell(b0, direction, r, c)
                    == b0[r][c] by {
                    assert(prev.board[r][c] == self.board[r][c]);
                    assert(self.board[r][c] == moved_cell(b0, direction, r, c));
                }
                assert(!changes(b0, direction));
                lemma_still_move_no_gain(b0, direction);
            } else {
                let (i0, j0) = choose|i0: int, j0: int|
                    0 <= i0 < 4 && 0 <= j0 < 4 && prev.board[i0][j0] != self.board[i0][j0];
                assert(moved_cell(b0, direction, i0, j0) != b0[i0][j0]);
                assert(changes(b0, direction));
            }
        }
        if changed {
            self.gen_num(rng);
            proof {
                if full(mid) {
                    assert forall|i: int, j: int|
                        0 <= i < 4 && 0 <= j < 4 implies (moved_cell(b0, direction, i, j) != 0
                        && self.board[i][j] == moved_cell(b0, direction, i, j)) by {
                        assert(mid[i][j] == moved_cell(b0, direction, i, j));
                        assert(self.board[i][j] == mid[i][j]);
                    }
                } else {
                    let (rr, cc) = choose|rr: int, cc: int|
                        0 <= rr < 4 && 0 <= cc < 4 && mid[rr][cc] == 0 && (self.board[rr][cc] == 1
                            || self.board[rr][cc] == 2) && (forall|i: int, j: int|
                            0 <= i < 4 && 0 <= j < 4 && !(i == rr && j == cc)
                                ==> self.board[i][j] == mid[i][j]);
                    assert(moved_cell(b0, direction, rr, cc) == 0);
                    assert(0 <= rr < 4 && 0 <= cc < 4 && moved_cell(b0, direction, rr, cc) == 0 && (
                    self.board[rr][cc] == 1 || self.board[rr][cc] == 2) && (forall|i: int, j: int|
                        0 <= i < 4 && 0 <= j < 4 && !(i == rr && j == cc) ==> self.board[i][j]
                            == moved_cell(b0, direction, i, j)));
                }
            }
        }
        changed
    }

    /// The board is lost when not one of the four directions would change
    /// it: each is tried on a scratch copy, exactly as a played move.
    pub fn is_lost(&self, rng: &mut rand::rngs::ThreadRng) -> (r: bool)
        requires
            self.score + board_value(self.board) <= u64::MAX,
        ensures
            r == terminal(self.board),
    {
        let mut probe = *self;
        let up = probe.play_changed(Arrow::Up, rng);
        let mut probe = *self;
        let down = probe.play_changed(Arrow::Down, rng);
        let mut probe = *self;
        let left = probe.play_changed(Arrow::Left, rng);
        let mut probe = *self;
        let right = probe.play_changed(Arrow::Right, rng);
        !(up || down || left || right)
    }
}

impl From<[[u8; 4]; 4]> for Board {
    /// A board holding the given ranks, with score 0.
    fn from(value: [[u8; 4]; 4]) -> (b: Board) {
        Board { board: value, score: 0 }
    }
}

impl vstd::std_specs::convert::FromSpecImpl<[[u8; 4]; 4]> for Board {
    open spec fn obeys_from_spec() -> bool {
        true
    }

    open spec fn from_spec(v: [[u8; 4]; 4]) -> Board {
        Board { board: v, score: 0 }
    }
}

} // verus!
