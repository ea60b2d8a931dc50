//! The game session: a 4x4 board of optional tiles and a score, mutated by
//! directional moves, a status evaluator, and a random spawner.

use vstd::prelude::*;
use crate::line::{
    cell_val, cells_ok, count_filled, line_out, max_cells, merge_line, sum_cells,
    lemma_count_filled_all_none, lemma_count_filled_all_some, lemma_count_filled_fill,
    lemma_max_cells_char, lemma_max_cells_exists, lemma_max_cells_ge,
    lemma_sum_cells_all_none, lemma_sum_cells_fill,
};
use crate::board::{
    board_after_move, board_full, board_stuck, cell_movable, cell_no, Direction,
    line_index, line_no, line_of, move_delta, move_delta_upto,
    lemma_board_after_ok, lemma_line_index_bijective, lemma_line_of_ok,
    lemma_lines_of_after, lemma_move_delta_bounds,
};
use crate::rng::{new_rng, rand_below};

verus! {

/// Classification of the session after a move.
#[derive(Clone, Copy, Debug, PartialEq, Eq, Structural)]
pub enum GameStatus {
    Win,
    Lost,
    Continue,
}

/// One game session: the board cells in row-major order, the score, and the
/// random source used by the spawner.
pub struct Game {
    /// The sixteen cells of the 4x4 board, row-major: row `r`, column `c`
    /// is `board[4 * r + c]`.
    pub board: Vec<Option<u32>>,
    /// Sum of all values created by merges so far.
    pub score: u32,
    /// The random source the spawner draws from.
    pub rng: rand::rngs::ThreadRng,
}

impl Game {
    /// The board is sixteen cells and every tile on it is a power of two.
    pub open spec fn wf(&self) -> bool {
        self.board@.len() == 16 && cells_ok(self.board@)
    }

    /// A fresh session: empty board, zero score. Spawns nothing; see
    /// `new_session` for a board opened with two tiles.
    pub fn new() -> (g: Game)
        ensures
            g.wf(),
            g.score == 0,
            forall|k: int| 0 <= k < 16 ==> (#[trigger] g.board@[k]) is None,
            sum_cells(g.board@) == 0,
    {
        let mut board: Vec<Option<u32>> = Vec::new();
        let mut i: usize = 0;
        while i < 16
            invariant
                board@.len() == i,
                i <= 16,
                forall|k: int| 0 <= k < i ==> (#[trigger] board@[k]) is None,
            decreases 16 - i,
        {
            board.push(None);
            i = i + 1;
        }
        proof {
            lemma_sum_cells_all_none(board@);
        }
        Game { board, score: 0, rng: new_rng() }
    }

    /// Whether the session is over for want of moves: the board is full and
    /// no two adjacent cells, horizontally or vertically, hold equal tiles.
    pub fn check_is_end(&self) -> (r: bool)
        requires
            self.wf(),
        ensures
            r == board_stuck(self.board@),
    {
        let mut movable: bool = false;
        let mut k: usize = 0;
        while k < 16
            invariant
                self.wf(),
                k <= 16,
                movable == exists|t: int|
                    0 <= t < k && #[trigger] cell_movable(self.board@, t),
            decreases 16 - k,
        {
            let mut can: bool = false;
            match self.board[k] {
                None => {
                    can = true;
                }
                Some(v) => {
                    if k % 4 < 3 {
                        match self.board[k + 1] {
                            Some(w) => {
                                if v == w {
                                    can = true;
                                }
                            }
                            None => {}
                        }
                    }
                    if !can && k < 12 {
                        match self.board[k + 4] {
                            Some(w) => {
                                if v == w {
                                    can = true;
                                }
                            }
                            None => {}
                        }
                    }
                }
            }
            proof {
                assert(can == cell_movable(self.board@, k as int));
            }
            if can {
                movable = true;
            }
            k = k + 1;
        }
        !movable
    }

    /// Place one tile on a uniformly chosen empty cell: a 2 with
    /// probability seven in ten, else a 4. On a full board, a no-op.
    /// Returns the (row, column) of the placed tile, or nothing.
    pub fn set_rand(&mut self) -> (r: Option<(usize, usize)>)
        requires
            old(self).wf(),
        ensures
            final(self).wf(),
            final(self).score == old(self).score,
            match r {
                None => {
                    &&& final(self).board@ == old(self).board@
                    &&& board_full(old(self).board@)
                },
                Some((row, col)) => {
                    &&& row < 4 && col < 4
                    &&& old(self).board@[4 * row + col] is None
                    &&& (final(self).board@
                            == old(self).board@.update(4 * row + col, Some(2u32))
                        || final(self).board@
                            == old(self).board@.update(4 * row + col, Some(4u32)))
                },
            },
    {
        let mut available: Vec<usize> = Vec::new();
        let mut k: usize = 0;
        while k < 16
            invariant
                self == old(self),
                self.wf(),
                k <= 16,
                forall|t: int| 0 <= t < available@.len()
                    ==> (#[trigger] available@[t]) < 16
                        && self.board@[available@[t] as int] is None,
                forall|u: int| 0 <= u < k && (#[trigger] self.board@[u]) is None
                    ==> exists|t: int| 0 <= t < available@.len()
                        && available@[t] == u,
            decreases 16 - k,
        {
            match self.board[k] {
                None => {
                    let ghost avail_before = available@;
                    available.push(k);
                    proof {
                        assert forall|u: int|
                            0 <= u < k + 1 && (#[trigger] self.board@[u]) is None
                            implies exists|t: int| 0 <= t < available@.len()
                                && available@[t] == u by {
                            if u < k {
                                let t = choose|t: int| 0 <= t < avail_before.len()
                                    && avail_before[t] == u;
                                assert(available@[t] == u);
                            } else {
                                assert(available@[avail_before.len() as int] == u);
                            }
                        }
                    }
                }
                Some(_) => {}
            }
            k = k + 1;
        }
        let len = available.len();
        if len == 0 {
            proof {
                assert forall|u: int| 0 <= u < 16
                    implies (#[trigger] self.board@[u]) is Some by {
                    if self.board@[u] is None {
                        let t = choose|t: int| 0 <= t < available@.len()
                            && available@[t] == u;
                        assert(false);
                    }
                }
            }
            return None;
        }
        let pick = rand_below(&mut self.rng, len);
        let idx = available[pick];
        let draw = rand_below(&mut self.rng, 10);
        let val: u32 = if draw < 7 { 2 } else { 4 };
        proof {
            assert(crate::line::pow2_tile(2));
            assert(crate::line::pow2_tile(4));
        }
        self.board[idx] = Some(val);
        Some((idx / 4, idx % 4))
    }

    /// Sweep every line of the board toward `d`'s end: the move
    /// orchestration. Returns the largest tile on the moved board and
    /// whether the move changed anything, and adds every merged value to
    /// the score.
    pub fn apply_direction(&mut self, d: Direction) -> (r: (u32, bool))
        requires
            old(self).wf(),
            old(self).score + sum_cells(old(self).board@) <= u32::MAX,
        ensures
            final(self).wf(),
            final(self).board@ == board_after_move(old(self).board@, d),
            final(self).score == old(self).score + move_delta(old(self).board@, d),
            r.0 as int == max_cells(final(self).board@),
            r.1 == (final(self).board@ != old(self).board@),
    {
        let ghost b0 = self.board@;
        let ghost bam = board_after_move(b0, d);
        proof {
            lemma_line_index_bijective(d);
            lemma_board_after_ok(b0, d);
        }
        let mut max_tile: u32 = 0;
        let mut changed: bool = false;
        let mut i: usize = 0;
        while i < 4
            invariant
                self.board@.len() == 16,
                i <= 4,
                b0.len() == 16,
                cells_ok(b0),
                old(self).score + sum_cells(b0) <= u32::MAX,
                bam == board_after_move(b0, d),
                forall|k: int| 0 <= k < 16 && line_no(d, k) >= i
                    ==> #[trigger] self.board@[k] == b0[k],
                forall|k: int| 0 <= k < 16 && line_no(d, k) < i
                    ==> #[trigger] self.board@[k] == bam[k],
                self.score as int == old(self).score + move_delta_upto(b0, d, i as int),
                changed == exists|l: int| 0 <= l < i
                    && line_out(#[trigger] line_of(b0, d, l)) != line_of(b0, d, l),
                forall|k: int| 0 <= k < 16 && line_no(d, k) < i
                    ==> cell_val(#[trigger] bam[k]) <= max_tile,
                max_tile == 0 || exists|k: int| 0 <= k < 16 && line_no(d, k) < i
                    && cell_val(#[trigger] bam[k]) == max_tile,
            decreases 4 - i,
        {
            // Read line i in sweep order; its cells are still the old ones.
            let mut cur: Vec<Option<u32>> = Vec::new();
            let mut j: usize = 0;
            while j < 4
                invariant
                    self.board@.len() == 16,
                    i < 4,
                    j <= 4,
                    cur@.len() == j,
                    forall|t: int| 0 <= t < j ==> #[trigger] cur@[t]
                        == self.board@[line_index(d, i as int, t)],
                decreases 4 - j,
            {
                let p = line_pos(d, i, j);
                let c = self.board[p];
                cur.push(c);
                j = j + 1;
            }
            proof {
                lemma_line_index_bijective(d);
                assert(cur@ =~= line_of(b0, d, i as int));
                lemma_line_of_ok(b0, d, i as int);
            }

            let lr = merge_line(&cur);

            // Write the swept line back.
            let mut j2: usize = 0;
            while j2 < 4
                invariant
                    self.board@.len() == 16,
                    i < 4,
                    j2 <= 4,
                    b0.len() == 16,
                    lr.cells@.len() == 4,
                    bam == board_after_move(b0, d),
                    lr.cells@ == line_out(line_of(b0, d, i as int)),
                    self.score as int
                        == old(self).score + move_delta_upto(b0, d, i as int),
                    forall|k: int| 0 <= k < 16 && line_no(d, k) > i
                        ==> #[trigger] self.board@[k] == b0[k],
                    forall|k: int| 0 <= k < 16 && line_no(d, k) < i
                        ==> #[trigger] self.board@[k] == bam[k],
                    forall|k: int| 0 <= k < 16 && line_no(d, k) == i
                        && cell_no(d, k) < j2
                        ==> #[trigger] self.board@[k] == lr.cells@[cell_no(d, k)],
                    forall|k: int| 0 <= k < 16 && line_no(d, k) == i
                        && cell_no(d, k) >= j2
                        ==> #[trigger] self.board@[k] == b0[k],
                decreases 4 - j2,
            {
                let p = line_pos(d, i, j2);
                let c = lr.cells[j2];
                proof {
                    lemma_line_index_bijective(d);
                }
                self.board[p] = c;
                j2 = j2 + 1;
            }

            proof {
                lemma_line_index_bijective(d);
                // The written line agrees with the moved board.
                assert forall|k: int| 0 <= k < 16 && line_no(d, k) == i
                    implies #[trigger] self.board@[k] == bam[k] by {
                    assert(bam[k] == line_out(line_of(b0, d, i as int))[cell_no(d, k)]);
                }
                lemma_move_delta_bounds(b0, d, i as int + 1);
            }
            self.score = self.score + lr.delta;

            if lr.changed {
                changed = true;
            }
            proof {
                if lr.changed {
                    assert(line_out(line_of(b0, d, i as int)) != line_of(b0, d, i as int));
                } else if !changed {
                    assert forall|l: int| 0 <= l < i + 1
                        && line_out(#[trigger] line_of(b0, d, l)) != line_of(b0, d, l)
                        implies false by {
                        if l == i {
                            assert(lr.cells@ == cur@);
                        }
                    }
                } else {
                    let l = choose|l: int| 0 <= l < i
                        && line_out(#[trigger] line_of(b0, d, l)) != line_of(b0, d, l);
                    assert(0 <= l < i + 1
                        && line_out(line_of(b0, d, l)) != line_of(b0, d, l));
                }
                assert forall|k: int| 0 <= k < 16 && line_no(d, k) == i
                    implies cell_val(#[trigger] bam[k]) <= lr.max_tile by {
                    assert(bam[k] == lr.cells@[cell_no(d, k)]);
                    lemma_max_cells_ge(lr.cells@, cell_no(d, k));
                }
            }
            if lr.max_tile > max_tile {
                max_tile = lr.max_tile;
                proof {
                    lemma_max_cells_exists(lr.cells@);
                    if max_tile != 0 {
                        let j3 = choose|j3: int| 0 <= j3 < lr.cells@.len()
                            && cell_val(#[trigger] lr.cells@[j3]) == max_cells(lr.cells@);
                        let k = line_index(d, i as int, j3);
                        assert(bam[k] == lr.cells@[j3]);
                        assert(0 <= k < 16 && line_no(d, k) < i + 1
                            && cell_val(bam[k]) == max_tile);
                    }
                }
            }
            i = i + 1;
        }
        proof {
            lemma_line_index_bijective(d);
            assert(self.board@ =~= bam);
            lemma_lines_of_after(b0, d);
            if changed {
                let l = choose|l: int| 0 <= l < 4
                    && line_out(#[trigger] line_of(b0, d, l)) != line_of(b0, d, l);
                if bam == b0 {
                    assert(line_of(bam, d, l) == line_of(b0, d, l));
                    assert(false);
                }
            } else {
                assert forall|k: int| 0 <= k < 16 implies #[trigger] bam[k] == b0[k] by {
                    let l = line_no(d, k);
                    assert(line_of(bam, d, l) == line_out(line_of(b0, d, l)));
                    assert(line_of(bam, d, l)[cell_no(d, k)] == bam[k]);
                    assert(line_of(b0, d, l)[cell_no(d, k)] == b0[k]);
                }
                assert(bam =~= b0);
            }
            lemma_max_cells_char(bam, max_tile as int);
        }
        (max_tile, changed)
    }

    /// Sweep every column upward: tiles pack toward row zero.
    pub fn move_up(&mut self) -> (r: (u32, bool))
        requires
            old(self).wf(),
            old(self).score + sum_cells(old(self).board@) <= u32::MAX,
        ensures
            final(self).wf(),
            final(self).board@ == board_after_move(old(self).board@, Direction::Up),
            final(self).score == old(self).score + move_delta(old(self).board@, Direction::Up),
            r.0 as int == max_cells(final(self).board@),
            r.1 == (final(self).board@ != old(self).board@),
    {
        self.apply_direction(Direction::Up)
    }

    /// Sweep every column downward: tiles pack toward row three.
    pub fn move_down(&mut self) -> (r: (u32, bool))
        requires
            old(self).wf(),
            old(self).score + sum_cells(old(self).board@) <= u32::MAX,
        ensures
            final(self).wf(),
            final(self).board@ == board_after_move(old(self).board@, Direction::Down),
            final(self).score == old(self).score + move_delta(old(self).board@, Direction::Down),
            r.0 as int == max_cells(final(self).board@),
            r.1 == (final(self).board@ != old(self).board@),
    {
        self.apply_direction(Direction::Down)
    }

    /// Sweep every row leftward: tiles pack toward column zero.
    pub fn move_left(&mut self) -> (r: (u32, bool))
        requires
            old(self).wf(),
            old(self).score + sum_cells(old(self).board@) <= u32::MAX,
        ensures
            final(self).wf(),
            final(self).board@ == board_after_move(old(self).board@, Direction::Left),
            final(self).score == old(self).score + move_delta(old(self).board@, Direction::Left),
            r.0 as int == max_cells(final(self).board@),
            r.1 == (final(self).board@ != old(self).board@),
    {
        self.apply_direction(Direction::Left)
    }

    /// Sweep every row rightward: tiles pack toward column three.
    pub fn move_right(&mut self) -> (r: (u32, bool))
        requires
            old(self).wf(),
            old(self).score + sum_cells(old(self).board@) <= u32::MAX,
        ensures
            final(self).wf(),
            final(self).board@ == board_after_move(old(self).board@, Direction::Right),
            final(self).score == old(self).score + move_delta(old(self).board@, Direction::Right),
            r.0 as int == max_cells(final(self).board@),
            r.1 == (final(self).board@ != old(self).board@),
    {
        self.apply_direction(Direction::Right)
    }

    /// Apply one full move: sweep toward `direction`, classify the session,
    /// and spawn a tile when play goes on and the board changed. Win (the
    /// moved board's largest tile is 2048) is checked before Lost, and a
    /// winning or losing move never spawns. Returns the status and the
    /// (row, column) of the spawned tile, if one was placed.
    ///
    /// The caller is expected to stop once Win or Lost is returned; a call
    /// after that point simply applies the same rules again (and on a board
    /// already holding a 2048 keeps reporting Win).
    pub fn move_board(&mut self, direction: Direction) -> (r: (
        GameStatus,
        Option<(usize, usize)>,
    ))
        requires
            old(self).wf(),
            old(self).score + sum_cells(old(self).board@) <= u32::MAX,
        ensures
            final(self).wf(),
            final(self).score == old(self).score + move_delta(old(self).board@, direction),
            ({
                let moved = board_after_move(old(self).board@, direction);
                &&& r.0 == (if max_cells(moved) == 2048 {
                    GameStatus::Win
                } else if board_stuck(moved) {
                    GameStatus::Lost
                } else {
                    GameStatus::Continue
                })
                &&& (r.1 is None ==> final(self).board@ == moved)
                &&& (r.0 == GameStatus::Win || r.0 == GameStatus::Lost
                    || moved == old(self).board@ || board_full(moved) ==> r.1 is None)
                &&& (r.0 == GameStatus::Continue && moved != old(self).board@
                    && !board_full(moved) ==> r.1 is Some)
                &&& match r.1 {
                    Some((row, col)) => {
                        &&& r.0 == GameStatus::Continue
                        &&& moved != old(self).board@
                        &&& row < 4 && col < 4
                        &&& moved[4 * row + col] is None
                        &&& (final(self).board@ == moved.update(4 * row + col, Some(2u32))
                            || final(self).board@ == moved.update(4 * row + col, Some(4u32)))
                    },
                    None => true,
                }
            }),
    {
        let (max_tile, changed) = self.apply_direction(direction);
        if max_tile == 2048 {
            return (GameStatus::Win, None);
        }
        if self.check_is_end() {
            return (GameStatus::Lost, None);
        }
        if changed {
            let spawned = self.set_rand();
            return (GameStatus::Continue, spawned);
        }
        (GameStatus::Continue, None)
    }

    /// A fresh session opened like a real game: empty board, zero score,
    /// then two tiles spawned at random, so exactly two cells hold a tile
    /// and each holds a 2 or a 4.
    pub fn new_session() -> (g: Game)
        ensures
            g.wf(),
            g.score == 0,
            count_filled(g.board@) == 2,
            sum_cells(g.board@) <= 8,
            forall|k: int| 0 <= k < 16
                ==> ((#[trigger] g.board@[k]) matches Some(v) ==> v == 2 || v == 4),
    {
        let mut g = Game::new();
        let ghost b_start = g.board@;
        let r1 = g.set_rand();
        let ghost b_mid = g.board@;
        let r2 = g.set_rand();
        proof {
            lemma_count_filled_all_none(b_start);
            assert(!board_full(b_start)) by {
                assert(b_start[0] is None);
            }
            let pair1 = r1->Some_0;
            let idx1 = 4 * pair1.0 + pair1.1;
            if b_mid == b_start.update(idx1 as int, Some(2u32)) {
                lemma_count_filled_fill(b_start, idx1 as int, 2u32);
                lemma_sum_cells_fill(b_start, idx1 as int, 2u32);
            } else {
                lemma_count_filled_fill(b_start, idx1 as int, 4u32);
                lemma_sum_cells_fill(b_start, idx1 as int, 4u32);
            }
            assert(!board_full(b_mid)) by {
                if board_full(b_mid) {
                    lemma_count_filled_all_some(b_mid);
                }
            }
            let pair2 = r2->Some_0;
            let idx2 = 4 * pair2.0 + pair2.1;
            if g.board@ == b_mid.update(idx2 as int, Some(2u32)) {
                lemma_count_filled_fill(b_mid, idx2 as int, 2u32);
                lemma_sum_cells_fill(b_mid, idx2 as int, 2u32);
            } else {
                lemma_count_filled_fill(b_mid, idx2 as int, 4u32);
                lemma_sum_cells_fill(b_mid, idx2 as int, 4u32);
            }
            assert forall|k: int| 0 <= k < 16
                implies ((#[trigger] g.board@[k]) matches Some(v)
                    ==> v == 2 || v == 4) by {
                if k != idx1 && k != idx2 {
                    assert(g.board@[k] == b_start[k]);
                }
            }
        }
        g
    }
}

impl Default for Game {
    /// Same as `Game::new`: an empty board and a zero score.
    fn default() -> (g: Game)
        ensures
            g.wf(),
            g.score == 0,
            forall|k: int| 0 <= k < 16 ==> (#[trigger] g.board@[k]) is None,
    {
        Game::new()
    }
}

/// Flat row-major index of the `j`-th cell, in sweep order, of the `i`-th
/// line of direction `d`.
fn line_pos(d: Direction, i: usize, j: usize) -> (k: usize)
    requires
        i < 4,
        j < 4,
    ensures
        k < 16,
        k as int == line_index(d, i as int, j as int),
{
    match d {
        Direction::Left => 4 * i + j,
        Direction::Right => 4 * i + (3 - j),
        Direction::Up => 4 * j + i,
        Direction::Down => 4 * (3 - j) + i,
    }
}

} // verus!
