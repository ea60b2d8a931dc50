//! Board-level model of the 4x4 grid: how a directional move decomposes the
//! sixteen row-major cells into four independent lines, each swept by the
//! line routine, and the facts that tie the two levels together.

use vstd::prelude::*;
use crate::line::{
    cell_ok, cell_val, cells_ok, compact_seq, line_delta, line_out, merge_run,
    no_adjacent_pair, pad_line, sum_cells, sum_vals,
    lemma_compact_len, lemma_compact_ok, lemma_compact_pad, lemma_compact_sum,
    lemma_line_out_fixed, lemma_merge_run_delta_bound, lemma_merge_run_len,
    lemma_merge_run_ok, lemma_merge_run_sum, lemma_sum_cells_append,
    lemma_sum_cells_nonneg, lemma_sum_vals_le4,
};

verus! {

/// The four directions a move can take. Up and Left sweep their lines toward
/// index zero of the axis; Down and Right sweep toward index three.
#[derive(Clone, Copy, Debug, PartialEq, Eq, Structural)]
pub enum Direction {
    Up,
    Down,
    Left,
    Right,
}

/// Flat row-major index of the `j`-th cell, in sweep order, of the `i`-th
/// line swept by direction `d`. Lines of Left and Right are rows; lines of
/// Up and Down are columns. Sweep order starts at the end tiles are pushed
/// toward.
pub open spec fn line_index(d: Direction, i: int, j: int) -> int {
    match d {
        Direction::Left => 4 * i + j,
        Direction::Right => 4 * i + (3 - j),
        Direction::Up => 4 * j + i,
        Direction::Down => 4 * (3 - j) + i,
    }
}

/// Which of the four lines of direction `d` the flat cell `k` belongs to.
pub open spec fn line_no(d: Direction, k: int) -> int {
    match d {
        Direction::Left => k / 4,
        Direction::Right => k / 4,
        Direction::Up => k % 4,
        Direction::Down => k % 4,
    }
}

/// Position of the flat cell `k` within its line, in sweep order.
pub open spec fn cell_no(d: Direction, k: int) -> int {
    match d {
        Direction::Left => k % 4,
        Direction::Right => 3 - k % 4,
        Direction::Up => k / 4,
        Direction::Down => 3 - k / 4,
    }
}

/// The `i`-th line of the board under direction `d`, read in sweep order.
pub open spec fn line_of(b: Seq<Option<u32>>, d: Direction, i: int) -> Seq<Option<u32>> {
    Seq::new(4, |j: int| b[line_index(d, i, j)])
}

/// The whole board after one move in direction `d`: every line swept
/// independently toward its sweep end.
pub open spec fn board_after_move(b: Seq<Option<u32>>, d: Direction) -> Seq<Option<u32>> {
    Seq::new(16, |k: int| line_out(line_of(b, d, line_no(d, k)))[cell_no(d, k)])
}

/// Score increment of the first `n` lines of a move.
pub open spec fn move_delta_upto(b: Seq<Option<u32>>, d: Direction, n: int) -> int
    decreases n,
{
    if n <= 0 {
        0
    } else {
        move_delta_upto(b, d, n - 1) + line_delta(line_of(b, d, n - 1))
    }
}

/// Score increment of one whole move: the sum of all values created by
/// merges, over all four lines.
pub open spec fn move_delta(b: Seq<Option<u32>>, d: Direction) -> int {
    move_delta_upto(b, d, 4)
}

/// The sweep indices are a bijection between (line, position) pairs and the
/// sixteen flat cells.
pub proof fn lemma_line_index_bijective(d: Direction)
    ensures
        forall|i: int, j: int| 0 <= i < 4 && 0 <= j < 4 ==> {
            &&& 0 <= #[trigger] line_index(d, i, j) < 16
            &&& line_no(d, line_index(d, i, j)) == i
            &&& cell_no(d, line_index(d, i, j)) == j
        },
        forall|k: int| 0 <= k < 16 ==> {
            &&& 0 <= #[trigger] line_no(d, k) < 4
            &&& 0 <= cell_no(d, k) < 4
            &&& line_index(d, line_no(d, k), cell_no(d, k)) == k
        },
{
}

pub proof fn lemma_sum_cells_len4(s: Seq<Option<u32>>)
    requires
        s.len() == 4,
    ensures
        sum_cells(s) == cell_val(s[0]) + cell_val(s[1]) + cell_val(s[2]) + cell_val(s[3]),
{
    let s3 = s.drop_last();
    let s2 = s3.drop_last();
    let s1 = s2.drop_last();
    let s0 = s1.drop_last();
    assert(s0 =~= Seq::<Option<u32>>::empty());
    assert(sum_cells(s0) == 0);
    assert(sum_cells(s1) == cell_val(s[0]));
    assert(sum_cells(s2) == cell_val(s[0]) + cell_val(s[1]));
    assert(sum_cells(s3) == cell_val(s[0]) + cell_val(s[1]) + cell_val(s[2]));
}

pub proof fn lemma_sum_cells_len16(b: Seq<Option<u32>>)
    requires
        b.len() == 16,
    ensures
        sum_cells(b) == cell_val(b[0]) + cell_val(b[1]) + cell_val(b[2]) + cell_val(b[3])
            + cell_val(b[4]) + cell_val(b[5]) + cell_val(b[6]) + cell_val(b[7])
            + cell_val(b[8]) + cell_val(b[9]) + cell_val(b[10]) + cell_val(b[11])
            + cell_val(b[12]) + cell_val(b[13]) + cell_val(b[14]) + cell_val(b[15]),
{
    let p0 = b.subrange(0, 4);
    let p1 = b.subrange(4, 8);
    let p2 = b.subrange(8, 12);
    let p3 = b.subrange(12, 16);
    assert(b =~= ((p0 + p1) + p2) + p3);
    lemma_sum_cells_append((p0 + p1) + p2, p3);
    lemma_sum_cells_append(p0 + p1, p2);
    lemma_sum_cells_append(p0, p1);
    lemma_sum_cells_len4(p0);
    lemma_sum_cells_len4(p1);
    lemma_sum_cells_len4(p2);
    lemma_sum_cells_len4(p3);
}

/// The four lines of a direction partition the board, so their sums add up
/// to the board sum.
pub proof fn lemma_board_partition(b: Seq<Option<u32>>, d: Direction)
    requires
        b.len() == 16,
    ensures
        sum_cells(line_of(b, d, 0)) + sum_cells(line_of(b, d, 1))
            + sum_cells(line_of(b, d, 2)) + sum_cells(line_of(b, d, 3)) == sum_cells(b),
{
    lemma_sum_cells_len16(b);
    lemma_sum_cells_len4(line_of(b, d, 0));
    lemma_sum_cells_len4(line_of(b, d, 1));
    lemma_sum_cells_len4(line_of(b, d, 2));
    lemma_sum_cells_len4(line_of(b, d, 3));
    match d {
        Direction::Left => {
            assert(forall|i: int, j: int| 0 <= i < 4 && 0 <= j < 4
                ==> #[trigger] line_of(b, d, i)[j] == b[4 * i + j]);
        }
        Direction::Right => {
            assert(forall|i: int, j: int| 0 <= i < 4 && 0 <= j < 4
                ==> #[trigger] line_of(b, d, i)[j] == b[4 * i + 3 - j]);
        }
        Direction::Up => {
            assert(forall|i: int, j: int| 0 <= i < 4 && 0 <= j < 4
                ==> #[trigger] line_of(b, d, i)[j] == b[4 * j + i]);
        }
        Direction::Down => {
            assert(forall|i: int, j: int| 0 <= i < 4 && 0 <= j < 4
                ==> #[trigger] line_of(b, d, i)[j] == b[4 * (3 - j) + i]);
        }
    }
}

/// Every line of a board with legal cells is itself a legal line, and its
/// sum is no more than the board's.
pub proof fn lemma_line_of_ok(b: Seq<Option<u32>>, d: Direction, i: int)
    requires
        b.len() == 16,
        0 <= i < 4,
    ensures
        line_of(b, d, i).len() == 4,
        cells_ok(b) ==> cells_ok(line_of(b, d, i)),
        sum_cells(line_of(b, d, i)) >= 0,
        sum_cells(line_of(b, d, i)) <= sum_cells(b),
{
    lemma_line_index_bijective(d);
    let s = line_of(b, d, i);
    if cells_ok(b) {
        assert forall|j: int| 0 <= j < 4 implies cell_ok(#[trigger] s[j]) by {
            assert(s[j] == b[line_index(d, i, j)]);
        }
    }
    lemma_board_partition(b, d);
    lemma_sum_cells_nonneg(line_of(b, d, 0));
    lemma_sum_cells_nonneg(line_of(b, d, 1));
    lemma_sum_cells_nonneg(line_of(b, d, 2));
    lemma_sum_cells_nonneg(line_of(b, d, 3));
}

pub proof fn lemma_pad_sum(q: Seq<u32>)
    requires
        q.len() <= 4,
    ensures
        sum_cells(pad_line(q)) == sum_vals(q),
{
    lemma_sum_cells_len4(pad_line(q));
    lemma_sum_vals_le4(q);
}

/// One sweep neither creates nor destroys tile value in its line.
pub proof fn lemma_line_out_sum(s: Seq<Option<u32>>)
    requires
        s.len() == 4,
        sum_cells(s) <= u32::MAX,
    ensures
        sum_cells(line_out(s)) == sum_cells(s),
{
    lemma_compact_sum(s);
    lemma_merge_run_sum(None, compact_seq(s));
    lemma_compact_len(s);
    lemma_merge_run_len(None, compact_seq(s));
    lemma_pad_sum(merge_run(None, compact_seq(s)));
}

/// One sweep keeps every tile value legal.
pub proof fn lemma_line_out_ok(s: Seq<Option<u32>>)
    requires
        s.len() == 4,
        cells_ok(s),
        sum_cells(s) <= u32::MAX,
    ensures
        cells_ok(line_out(s)),
{
    lemma_compact_ok(s);
    lemma_compact_sum(s);
    lemma_merge_run_ok(None, compact_seq(s));
    let run = merge_run(None, compact_seq(s));
    assert forall|j: int| 0 <= j < 4 implies cell_ok(#[trigger] line_out(s)[j]) by {
        if j < run.len() {
            assert(line_out(s)[j] == Some(run[j]));
        }
    }
}

/// Reading a line of the moved board gives the sweep of that line of the
/// old board.
pub proof fn lemma_lines_of_after(b: Seq<Option<u32>>, d: Direction)
    requires
        b.len() == 16,
    ensures
        forall|i: int| 0 <= i < 4
            ==> #[trigger] line_of(board_after_move(b, d), d, i)
                == line_out(line_of(b, d, i)),
{
    lemma_line_index_bijective(d);
    let m = board_after_move(b, d);
    assert forall|i: int| 0 <= i < 4
        implies #[trigger] line_of(m, d, i) == line_out(line_of(b, d, i)) by {
        assert forall|j: int| 0 <= j < 4
            implies line_of(m, d, i)[j] == line_out(line_of(b, d, i))[j] by {
            let k = line_index(d, i, j);
            assert(line_of(m, d, i)[j] == m[k]);
            assert(line_no(d, k) == i && cell_no(d, k) == j);
        }
        assert(line_of(m, d, i) =~= line_out(line_of(b, d, i)));
    }
}

pub proof fn lemma_line_delta_bounds(s: Seq<Option<u32>>)
    ensures
        0 <= line_delta(s),
        line_delta(s) <= sum_cells(s),
{
    lemma_merge_run_delta_bound(None, compact_seq(s));
    lemma_compact_sum(s);
}

/// The four line increments of a move, written out.
pub proof fn lemma_move_delta_expand(b: Seq<Option<u32>>, d: Direction)
    ensures
        move_delta(b, d) == line_delta(line_of(b, d, 0)) + line_delta(line_of(b, d, 1))
            + line_delta(line_of(b, d, 2)) + line_delta(line_of(b, d, 3)),
{
    reveal_with_fuel(move_delta_upto, 5);
}

pub proof fn lemma_move_delta_upto_nonneg(b: Seq<Option<u32>>, d: Direction, n: int)
    requires
        0 <= n,
    ensures
        0 <= move_delta_upto(b, d, n),
    decreases n,
{
    if n > 0 {
        lemma_move_delta_upto_nonneg(b, d, n - 1);
        lemma_line_delta_bounds(line_of(b, d, n - 1));
    }
}

pub proof fn lemma_move_delta_upto_le_total(b: Seq<Option<u32>>, d: Direction, n: int)
    requires
        0 <= n <= 4,
    ensures
        move_delta_upto(b, d, n) <= move_delta(b, d),
    decreases 4 - n,
{
    if n < 4 {
        lemma_line_delta_bounds(line_of(b, d, n));
        lemma_move_delta_upto_le_total(b, d, n + 1);
    }
}

/// The score increment of a move is nonnegative and bounded by the board
/// sum, and so are all its partial sums.
pub proof fn lemma_move_delta_bounds(b: Seq<Option<u32>>, d: Direction, n: int)
    requires
        b.len() == 16,
        0 <= n <= 4,
    ensures
        0 <= move_delta_upto(b, d, n),
        move_delta_upto(b, d, n) <= move_delta(b, d),
        move_delta(b, d) <= sum_cells(b),
{
    lemma_move_delta_upto_nonneg(b, d, n);
    lemma_move_delta_upto_le_total(b, d, n);
    lemma_move_delta_expand(b, d);
    lemma_line_delta_bounds(line_of(b, d, 0));
    lemma_line_delta_bounds(line_of(b, d, 1));
    lemma_line_delta_bounds(line_of(b, d, 2));
    lemma_line_delta_bounds(line_of(b, d, 3));
    lemma_board_partition(b, d);
}

/// A move keeps the board shape and every tile value legal.
pub proof fn lemma_board_after_ok(b: Seq<Option<u32>>, d: Direction)
    requires
        b.len() == 16,
        cells_ok(b),
        sum_cells(b) <= u32::MAX,
    ensures
        board_after_move(b, d).len() == 16,
        cells_ok(board_after_move(b, d)),
{
    lemma_line_index_bijective(d);
    let m = board_after_move(b, d);
    assert forall|k: int| 0 <= k < 16 implies cell_ok(#[trigger] m[k]) by {
        let i = line_no(d, k);
        lemma_line_of_ok(b, d, i);
        lemma_line_out_ok(line_of(b, d, i));
        assert(m[k] == line_out(line_of(b, d, i))[cell_no(d, k)]);
    }
}

/// A move never creates or destroys tile value: the board sum is an
/// invariant of every sweep, in every direction.
pub proof fn lemma_move_preserves_sum(b: Seq<Option<u32>>, d: Direction)
    requires
        b.len() == 16,
        sum_cells(b) <= u32::MAX,
    ensures
        sum_cells(board_after_move(b, d)) == sum_cells(b),
{
    let m = board_after_move(b, d);
    lemma_board_partition(b, d);
    lemma_board_partition(m, d);
    lemma_lines_of_after(b, d);
    lemma_line_of_ok(b, d, 0);
    lemma_line_of_ok(b, d, 1);
    lemma_line_of_ok(b, d, 2);
    lemma_line_of_ok(b, d, 3);
    lemma_line_out_sum(line_of(b, d, 0));
    lemma_line_out_sum(line_of(b, d, 1));
    lemma_line_out_sum(line_of(b, d, 2));
    lemma_line_out_sum(line_of(b, d, 3));
}

/// No line of the board holds two adjacent equal tiles, read along
/// direction `d`.
pub open spec fn no_adjacent_in_lines(m: Seq<Option<u32>>, d: Direction) -> bool {
    forall|i: int| 0 <= i < 4 ==> no_adjacent_pair(#[trigger] line_of(m, d, i))
}

/// Sweeping twice in the same direction is the same as sweeping once,
/// provided the first sweep left no two adjacent equal tiles in any of its
/// lines; the second sweep then earns no score either.
pub proof fn lemma_move_idempotent(b: Seq<Option<u32>>, d: Direction)
    requires
        b.len() == 16,
        sum_cells(b) <= u32::MAX,
        no_adjacent_in_lines(board_after_move(b, d), d),
    ensures
        board_after_move(board_after_move(b, d), d) == board_after_move(b, d),
        move_delta(board_after_move(b, d), d) == 0,
{
    let m = board_after_move(b, d);
    lemma_line_index_bijective(d);
    lemma_lines_of_after(b, d);
    assert forall|i: int| 0 <= i < 4
        implies line_out(#[trigger] line_of(m, d, i)) == line_of(m, d, i)
            && line_delta(line_of(m, d, i)) == 0 by {
        let s = line_of(b, d, i);
        let run = merge_run(None, compact_seq(s));
        lemma_compact_len(s);
        lemma_merge_run_len(None, compact_seq(s));
        lemma_compact_pad(run);
        assert(line_of(m, d, i) == pad_line(run));
        assert(compact_seq(line_of(m, d, i)) == run);
        lemma_line_out_fixed(line_of(m, d, i));
    }
    assert forall|k: int| 0 <= k < 16
        implies #[trigger] board_after_move(m, d)[k] == m[k] by {
        let i = line_no(d, k);
        let j = cell_no(d, k);
        assert(board_after_move(m, d)[k] == line_out(line_of(m, d, i))[j]);
        assert(line_of(m, d, i)[j] == m[line_index(d, i, j)]);
    }
    assert(board_after_move(m, d) =~= m);
    lemma_move_delta_expand(m, d);
}

/// Every cell of the board holds a tile.
pub open spec fn board_full(b: Seq<Option<u32>>) -> bool {
    forall|k: int| 0 <= k < 16 ==> (#[trigger] b[k]) is Some
}

/// The cell can move or merge: it is empty, or it equals its right
/// neighbour, or it equals the cell below it.
pub open spec fn cell_movable(b: Seq<Option<u32>>, k: int) -> bool {
    ||| b[k] is None
    ||| k % 4 < 3 && b[k] == b[k + 1]
    ||| k < 12 && b[k] == b[k + 4]
}

/// No move is possible anywhere: the board is full and no two adjacent
/// cells, horizontally or vertically, hold equal tiles.
pub open spec fn board_stuck(b: Seq<Option<u32>>) -> bool {
    forall|k: int| 0 <= k < 16 ==> !(#[trigger] cell_movable(b, k))
}

} // verus!
