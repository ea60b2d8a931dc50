//! The one-dimensional core of the sliding-tile engine: compacting a line of
//! four optional tiles toward its front, merging adjacent equal pairs.
//!
//! Every directional move of the board is this routine applied to each row or
//! column, read in sweep order.

use vstd::prelude::*;

verus! {

/// Numeric value of a cell; an empty cell counts as zero.
pub open spec fn cell_val(c: Option<u32>) -> int {
    match c {
        Some(v) => v as int,
        None => 0,
    }
}

/// A tile value is legal when it is a power of two and at least two.
pub open spec fn pow2_tile(v: int) -> bool
    decreases v,
{
    if v <= 2 {
        v == 2
    } else {
        v % 2 == 0 && pow2_tile(v / 2)
    }
}

/// A cell is legal when it is empty or holds a legal tile value.
pub open spec fn cell_ok(c: Option<u32>) -> bool {
    match c {
        Some(v) => pow2_tile(v as int),
        None => true,
    }
}

/// Every cell of the line is legal.
pub open spec fn cells_ok(s: Seq<Option<u32>>) -> bool {
    forall|i: int| 0 <= i < s.len() ==> cell_ok(#[trigger] s[i])
}

/// Sum of the values of a sequence of cells.
pub open spec fn sum_cells(s: Seq<Option<u32>>) -> int
    decreases s.len(),
{
    if s.len() == 0 {
        0
    } else {
        sum_cells(s.drop_last()) + cell_val(s.last())
    }
}

/// Sum of a sequence of tile values.
pub open spec fn sum_vals(q: Seq<u32>) -> int
    decreases q.len(),
{
    if q.len() == 0 {
        0
    } else {
        sum_vals(q.drop_last()) + q.last()
    }
}

/// Largest value present in a sequence of cells; zero when all are empty.
pub open spec fn max_cells(s: Seq<Option<u32>>) -> int
    decreases s.len(),
{
    if s.len() == 0 {
        0
    } else if max_cells(s.drop_last()) >= cell_val(s.last()) {
        max_cells(s.drop_last())
    } else {
        cell_val(s.last())
    }
}

/// How many cells hold a tile.
pub open spec fn count_filled(s: Seq<Option<u32>>) -> int
    decreases s.len(),
{
    if s.len() == 0 {
        0
    } else {
        count_filled(s.drop_last()) + if s.last() is Some { 1int } else { 0int }
    }
}

/// The tile values of a line, in order, gaps removed.
pub open spec fn compact_seq(s: Seq<Option<u32>>) -> Seq<u32>
    decreases s.len(),
{
    if s.len() == 0 {
        Seq::empty()
    } else {
        compact_seq(s.drop_last()) + match s.last() {
            Some(v) => seq![v],
            None => Seq::<u32>::empty(),
        }
    }
}

/// Value carried by the merge scan's pending slot; zero when none is pending.
pub open spec fn pending_val(p: Option<u32>) -> int {
    match p {
        Some(v) => v as int,
        None => 0,
    }
}

/// Greedy front-to-back merge of a run of tile values.
///
/// `pending` is the last value written that is still allowed to merge; a
/// value equal to it merges into their doubled sum and closes the slot, so a
/// cell produced by a merge never merges again in the same pass.
pub open spec fn merge_run(pending: Option<u32>, q: Seq<u32>) -> Seq<u32>
    decreases q.len(),
{
    if q.len() == 0 {
        match pending {
            Some(p) => seq![p],
            None => Seq::<u32>::empty(),
        }
    } else {
        match pending {
            None => merge_run(Some(q[0]), q.skip(1)),
            Some(p) => if p == q[0] {
                seq![(p + p) as u32] + merge_run(None, q.skip(1))
            } else {
                seq![p] + merge_run(Some(q[0]), q.skip(1))
            },
        }
    }
}

/// Sum of the values created by merges during the greedy scan: the score
/// increment that the scan earns.
pub open spec fn merge_run_delta(pending: Option<u32>, q: Seq<u32>) -> int
    decreases q.len(),
{
    if q.len() == 0 {
        0
    } else {
        match pending {
            None => merge_run_delta(Some(q[0]), q.skip(1)),
            Some(p) => if p == q[0] {
                p + p + merge_run_delta(None, q.skip(1))
            } else {
                merge_run_delta(Some(q[0]), q.skip(1))
            },
        }
    }
}

/// A run of values laid back into a line of four cells, padded with empties.
pub open spec fn pad_line(q: Seq<u32>) -> Seq<Option<u32>> {
    Seq::new(4, |i: int| if i < q.len() { Some(q[i]) } else { None })
}

/// The line after one sweep toward the front: compacted, merged, padded.
pub open spec fn line_out(s: Seq<Option<u32>>) -> Seq<Option<u32>> {
    pad_line(merge_run(None, compact_seq(s)))
}

/// The score increment one sweep of the line earns.
pub open spec fn line_delta(s: Seq<Option<u32>>) -> int {
    merge_run_delta(None, compact_seq(s))
}

/// Every value of the run is a legal tile value.
pub open spec fn vals_ok(q: Seq<u32>) -> bool {
    forall|i: int| 0 <= i < q.len() ==> pow2_tile(#[trigger] q[i] as int)
}

pub proof fn lemma_pow2_tile_ge2(v: int)
    requires
        pow2_tile(v),
    ensures
        v >= 2,
{
}

pub proof fn lemma_pow2_tile_double(v: int)
    requires
        pow2_tile(v),
    ensures
        pow2_tile(2 * v),
{
    lemma_pow2_tile_ge2(v);
    assert((2 * v) % 2 == 0 && (2 * v) / 2 == v) by (nonlinear_arith);
}

pub proof fn lemma_sum_vals_nonneg(q: Seq<u32>)
    ensures
        sum_vals(q) >= 0,
    decreases q.len(),
{
    if q.len() > 0 {
        lemma_sum_vals_nonneg(q.drop_last());
    }
}

pub proof fn lemma_sum_cells_nonneg(s: Seq<Option<u32>>)
    ensures
        sum_cells(s) >= 0,
    decreases s.len(),
{
    if s.len() > 0 {
        lemma_sum_cells_nonneg(s.drop_last());
    }
}

pub proof fn lemma_sum_vals_append(a: Seq<u32>, b: Seq<u32>)
    ensures
        sum_vals(a + b) == sum_vals(a) + sum_vals(b),
    decreases b.len(),
{
    if b.len() == 0 {
        assert(a + b =~= a);
    } else {
        lemma_sum_vals_append(a, b.drop_last());
        assert((a + b).drop_last() =~= a + b.drop_last());
        assert((a + b).last() == b.last());
    }
}

pub proof fn lemma_sum_cells_append(a: Seq<Option<u32>>, b: Seq<Option<u32>>)
    ensures
        sum_cells(a + b) == sum_cells(a) + sum_cells(b),
    decreases b.len(),
{
    if b.len() == 0 {
        assert(a + b =~= a);
    } else {
        lemma_sum_cells_append(a, b.drop_last());
        assert((a + b).drop_last() =~= a + b.drop_last());
        assert((a + b).last() == b.last());
    }
}

pub proof fn lemma_sum_vals_singleton(v: u32)
    ensures
        sum_vals(seq![v]) == v,
{
    assert(seq![v].drop_last() =~= Seq::<u32>::empty());
    assert(sum_vals(Seq::<u32>::empty()) == 0);
}

pub proof fn lemma_sum_vals_skip(q: Seq<u32>, j: int)
    requires
        0 <= j < q.len(),
    ensures
        sum_vals(q.skip(j)) == q[j] + sum_vals(q.skip(j + 1)),
{
    assert(q.skip(j) =~= seq![q[j]] + q.skip(j + 1));
    lemma_sum_vals_append(seq![q[j]], q.skip(j + 1));
    lemma_sum_vals_singleton(q[j]);
}

pub proof fn lemma_compact_sum(s: Seq<Option<u32>>)
    ensures
        sum_vals(compact_seq(s)) == sum_cells(s),
    decreases s.len(),
{
    if s.len() > 0 {
        lemma_compact_sum(s.drop_last());
        match s.last() {
            Some(v) => {
                lemma_sum_vals_append(compact_seq(s.drop_last()), seq![v]);
                lemma_sum_vals_singleton(v);
            }
            None => {
                assert(compact_seq(s.drop_last()) + Seq::<u32>::empty()
                    =~= compact_seq(s.drop_last()));
            }
        }
    }
}

pub proof fn lemma_compact_len(s: Seq<Option<u32>>)
    ensures
        compact_seq(s).len() <= s.len(),
    decreases s.len(),
{
    if s.len() > 0 {
        lemma_compact_len(s.drop_last());
    }
}

pub proof fn lemma_compact_ok(s: Seq<Option<u32>>)
    requires
        cells_ok(s),
    ensures
        vals_ok(compact_seq(s)),
    decreases s.len(),
{
    if s.len() > 0 {
        assert(cells_ok(s.drop_last())) by {
            assert(forall|i: int| 0 <= i < s.len() - 1 ==> s.drop_last()[i] == s[i]);
        }
        lemma_compact_ok(s.drop_last());
        let head = compact_seq(s.drop_last());
        match s.last() {
            Some(v) => {
                assert(cell_ok(s[s.len() - 1]));
                assert(forall|i: int| 0 <= i < head.len()
                    ==> (head + seq![v])[i] == head[i]);
                assert((head + seq![v])[head.len() as int] == v);
            }
            None => {
                assert(head + Seq::<u32>::empty() =~= head);
            }
        }
    }
}

pub proof fn lemma_merge_run_len(pending: Option<u32>, q: Seq<u32>)
    ensures
        merge_run(pending, q).len()
            <= (if pending is Some { 1int } else { 0int }) + q.len(),
    decreases q.len(),
{
    if q.len() > 0 {
        match pending {
            None => lemma_merge_run_len(Some(q[0]), q.skip(1)),
            Some(p) => if p == q[0] {
                lemma_merge_run_len(None, q.skip(1));
            } else {
                lemma_merge_run_len(Some(q[0]), q.skip(1));
            },
        }
    }
}

pub proof fn lemma_merge_run_sum(pending: Option<u32>, q: Seq<u32>)
    requires
        pending_val(pending) + sum_vals(q) <= u32::MAX,
    ensures
        sum_vals(merge_run(pending, q)) == pending_val(pending) + sum_vals(q),
    decreases q.len(),
{
    if q.len() == 0 {
        match pending {
            Some(p) => {
                lemma_sum_vals_singleton(p);
            }
            None => {}
        }
    } else {
        assert(q.skip(0) =~= q);
        lemma_sum_vals_skip(q, 0);
        lemma_sum_vals_nonneg(q.skip(1));
        match pending {
            None => {
                lemma_merge_run_sum(Some(q[0]), q.skip(1));
            }
            Some(p) => if p == q[0] {
                lemma_merge_run_sum(None, q.skip(1));
                lemma_sum_vals_append(seq![(p + p) as u32], merge_run(None, q.skip(1)));
                lemma_sum_vals_singleton((p + p) as u32);
            } else {
                lemma_merge_run_sum(Some(q[0]), q.skip(1));
                lemma_sum_vals_append(seq![p], merge_run(Some(q[0]), q.skip(1)));
                lemma_sum_vals_singleton(p);
            },
        }
    }
}

pub proof fn lemma_merge_run_delta_bound(pending: Option<u32>, q: Seq<u32>)
    ensures
        0 <= merge_run_delta(pending, q),
        merge_run_delta(pending, q) <= pending_val(pending) + sum_vals(q),
    decreases q.len(),
{
    if q.len() == 0 {
    } else {
        assert(q.skip(0) =~= q);
        lemma_sum_vals_skip(q, 0);
        match pending {
            None => {
                lemma_merge_run_delta_bound(Some(q[0]), q.skip(1));
            }
            Some(p) => if p == q[0] {
                lemma_merge_run_delta_bound(None, q.skip(1));
            } else {
                lemma_merge_run_delta_bound(Some(q[0]), q.skip(1));
                lemma_sum_vals_nonneg(q.skip(1));
            },
        }
    }
}

pub proof fn lemma_merge_run_ok(pending: Option<u32>, q: Seq<u32>)
    requires
        pending matches Some(p) ==> pow2_tile(p as int),
        vals_ok(q),
        pending_val(pending) + sum_vals(q) <= u32::MAX,
    ensures
        vals_ok(merge_run(pending, q)),
    decreases q.len(),
{
    if q.len() == 0 {
    } else {
        assert(pow2_tile(q[0] as int));
        assert(vals_ok(q.skip(1))) by {
            assert(forall|i: int| 0 <= i < q.len() - 1 ==> q.skip(1)[i] == q[i + 1]);
        }
        assert(q.skip(0) =~= q);
        lemma_sum_vals_skip(q, 0);
        lemma_sum_vals_nonneg(q.skip(1));
        match pending {
            None => {
                lemma_merge_run_ok(Some(q[0]), q.skip(1));
            }
            Some(p) => if p == q[0] {
                lemma_merge_run_ok(None, q.skip(1));
                lemma_pow2_tile_double(p as int);
                assert(p + p == 2 * (p as int));
                let rest = merge_run(None, q.skip(1));
                let whole = seq![(p + p) as u32] + rest;
                assert(vals_ok(whole)) by {
                    assert(whole[0] == (p + p) as u32);
                    assert(forall|i: int| 1 <= i < whole.len() ==> whole[i] == rest[i - 1]);
                }
            } else {
                lemma_merge_run_ok(Some(q[0]), q.skip(1));
                let rest = merge_run(Some(q[0]), q.skip(1));
                let whole = seq![p] + rest;
                assert(vals_ok(whole)) by {
                    assert(whole[0] == p);
                    assert(forall|i: int| 1 <= i < whole.len() ==> whole[i] == rest[i - 1]);
                }
            },
        }
    }
}

pub proof fn lemma_max_cells_nonneg(s: Seq<Option<u32>>)
    ensures
        max_cells(s) >= 0,
    decreases s.len(),
{
    if s.len() > 0 {
        lemma_max_cells_nonneg(s.drop_last());
    }
}

pub proof fn lemma_max_cells_ge(s: Seq<Option<u32>>, k: int)
    requires
        0 <= k < s.len(),
    ensures
        max_cells(s) >= cell_val(s[k]),
    decreases s.len(),
{
    if k < s.len() - 1 {
        lemma_max_cells_ge(s.drop_last(), k);
    }
}

pub proof fn lemma_max_cells_exists(s: Seq<Option<u32>>)
    ensures
        max_cells(s) == 0 || exists|k: int|
            0 <= k < s.len() && cell_val(#[trigger] s[k]) == max_cells(s),
    decreases s.len(),
{
    if s.len() > 0 {
        lemma_max_cells_exists(s.drop_last());
        if max_cells(s.drop_last()) >= cell_val(s.last()) {
            if max_cells(s) != 0 {
                let k = choose|k: int|
                    0 <= k < s.len() - 1
                        && cell_val(#[trigger] s.drop_last()[k]) == max_cells(s.drop_last());
                assert(cell_val(s[k]) == max_cells(s));
            }
        } else {
            assert(cell_val(s[s.len() - 1]) == max_cells(s));
        }
    }
}

/// A value that bounds every cell and is attained (or zero on an all-empty
/// line) is the maximum.
pub proof fn lemma_max_cells_char(s: Seq<Option<u32>>, m: int)
    requires
        forall|k: int| 0 <= k < s.len() ==> cell_val(#[trigger] s[k]) <= m,
        m == 0 || exists|k: int| 0 <= k < s.len() && cell_val(#[trigger] s[k]) == m,
    ensures
        max_cells(s) == m,
{
    lemma_max_cells_nonneg(s);
    lemma_max_cells_exists(s);
    if m != 0 {
        let k = choose|k: int| 0 <= k < s.len() && cell_val(#[trigger] s[k]) == m;
        lemma_max_cells_ge(s, k);
    }
}

pub proof fn lemma_count_filled_all_none(s: Seq<Option<u32>>)
    requires
        forall|k: int| 0 <= k < s.len() ==> (#[trigger] s[k]) is None,
    ensures
        count_filled(s) == 0,
    decreases s.len(),
{
    if s.len() > 0 {
        lemma_count_filled_all_none(s.drop_last());
    }
}

pub proof fn lemma_count_filled_all_some(s: Seq<Option<u32>>)
    requires
        forall|k: int| 0 <= k < s.len() ==> (#[trigger] s[k]) is Some,
    ensures
        count_filled(s) == s.len(),
    decreases s.len(),
{
    if s.len() > 0 {
        lemma_count_filled_all_some(s.drop_last());
    }
}

/// Filling one empty cell raises the filled count by one.
pub proof fn lemma_count_filled_fill(s: Seq<Option<u32>>, i: int, v: u32)
    requires
        0 <= i < s.len(),
        s[i] is None,
    ensures
        count_filled(s.update(i, Some(v))) == count_filled(s) + 1,
    decreases s.len(),
{
    let t = s.update(i, Some(v));
    if i == s.len() - 1 {
        assert(t.drop_last() =~= s.drop_last());
    } else {
        assert(t.drop_last() =~= s.drop_last().update(i, Some(v)));
        lemma_count_filled_fill(s.drop_last(), i, v);
    }
}

pub proof fn lemma_sum_cells_all_none(s: Seq<Option<u32>>)
    requires
        forall|k: int| 0 <= k < s.len() ==> (#[trigger] s[k]) is None,
    ensures
        sum_cells(s) == 0,
    decreases s.len(),
{
    if s.len() > 0 {
        lemma_sum_cells_all_none(s.drop_last());
    }
}

/// Filling one empty cell raises the sum by the placed value.
pub proof fn lemma_sum_cells_fill(s: Seq<Option<u32>>, i: int, v: u32)
    requires
        0 <= i < s.len(),
        s[i] is None,
    ensures
        sum_cells(s.update(i, Some(v))) == sum_cells(s) + v,
    decreases s.len(),
{
    let t = s.update(i, Some(v));
    if i == s.len() - 1 {
        assert(t.drop_last() =~= s.drop_last());
    } else {
        assert(t.drop_last() =~= s.drop_last().update(i, Some(v)));
        lemma_sum_cells_fill(s.drop_last(), i, v);
    }
}

pub proof fn lemma_sum_vals_le4(q: Seq<u32>)
    requires
        q.len() <= 4,
    ensures
        sum_vals(q) == (if q.len() >= 1 { q[0] as int } else { 0 })
            + (if q.len() >= 2 { q[1] as int } else { 0 })
            + (if q.len() >= 3 { q[2] as int } else { 0 })
            + (if q.len() >= 4 { q[3] as int } else { 0 }),
    decreases q.len(),
{
    if q.len() > 0 {
        lemma_sum_vals_le4(q.drop_last());
    }
}

/// No adjacent pair of cells holds two equal tiles.
pub open spec fn no_adjacent_pair(s: Seq<Option<u32>>) -> bool {
    forall|j: int| 0 <= j < s.len() - 1 ==> !((#[trigger] s[j]) is Some && s[j] == s[j + 1])
}

/// No two adjacent values of the run are equal.
pub open spec fn no_adjacent_eq_vals(q: Seq<u32>) -> bool {
    forall|j: int| 0 <= j < q.len() - 1 ==> (#[trigger] q[j]) != q[j + 1]
}

/// Compacting a padded run gives the run back.
pub proof fn lemma_compact_pad_upto(q: Seq<u32>, n: int)
    requires
        q.len() <= 4,
        0 <= n <= 4,
    ensures
        compact_seq(pad_line(q).take(n)) == (if n <= q.len() { q.take(n) } else { q }),
    decreases n,
{
    if n == 0 {
        assert(pad_line(q).take(0) =~= Seq::<Option<u32>>::empty());
        assert(q.take(0) =~= Seq::<u32>::empty());
    } else {
        lemma_compact_pad_upto(q, n - 1);
        let p = pad_line(q);
        assert(p.take(n).drop_last() =~= p.take(n - 1));
        assert(p.take(n).last() == p[n - 1]);
        if n <= q.len() {
            assert(p[n - 1] == Some(q[n - 1]));
            assert(compact_seq(p.take(n)) =~= q.take(n - 1) + seq![q[n - 1]]);
            assert(q.take(n - 1) + seq![q[n - 1]] =~= q.take(n));
        } else {
            assert(p[n - 1] is None);
            let prev = if n - 1 <= q.len() { q.take(n - 1) } else { q };
            assert(prev =~= q);
            assert(compact_seq(p.take(n)) =~= q + Seq::<u32>::empty());
            assert(q + Seq::<u32>::empty() =~= q);
        }
    }
}

pub proof fn lemma_compact_pad(q: Seq<u32>)
    requires
        q.len() <= 4,
    ensures
        compact_seq(pad_line(q)) == q,
{
    lemma_compact_pad_upto(q, 4);
    assert(pad_line(q).take(4) =~= pad_line(q));
    if 4 <= q.len() {
        assert(q.take(4) =~= q);
    }
}

/// When no two adjacent values are equal, the greedy merge scan writes the
/// run back unchanged and earns nothing.
pub proof fn lemma_merge_run_identity(pending: Option<u32>, q: Seq<u32>)
    requires
        no_adjacent_eq_vals(q),
        pending matches Some(p) ==> (q.len() > 0 ==> p != q[0]),
    ensures
        merge_run(pending, q) == (match pending {
            Some(p) => seq![p] + q,
            None => q,
        }),
        merge_run_delta(pending, q) == 0,
    decreases q.len(),
{
    if q.len() == 0 {
        match pending {
            Some(p) => {
                assert(seq![p] + q =~= seq![p]);
            }
            None => {
                assert(merge_run(pending, q) =~= q);
            }
        }
    } else {
        assert(no_adjacent_eq_vals(q.skip(1))) by {
            assert(forall|j: int| 0 <= j < q.len() - 1 ==> q.skip(1)[j] == q[j + 1]);
        }
        assert(q.skip(1).len() > 0 ==> q[0] != q.skip(1)[0]);
        lemma_merge_run_identity(Some(q[0]), q.skip(1));
        assert(seq![q[0]] + q.skip(1) =~= q);
        match pending {
            Some(p) => {
                assert(merge_run(pending, q) == seq![p] + (seq![q[0]] + q.skip(1)));
                assert(seq![p] + (seq![q[0]] + q.skip(1)) =~= seq![p] + q);
            }
            None => {}
        }
    }
}

/// A line that is already packed toward the front with no adjacent equal
/// pair is a fixed point of the sweep.
pub proof fn lemma_line_out_fixed(s: Seq<Option<u32>>)
    requires
        s.len() == 4,
        s == pad_line(compact_seq(s)),
        no_adjacent_pair(s),
    ensures
        line_out(s) == s,
        line_delta(s) == 0,
{
    let q = compact_seq(s);
    lemma_compact_len(s);
    assert forall|j: int| 0 <= j < q.len() - 1 implies (#[trigger] q[j]) != q[j + 1] by {
        assert(pad_line(q)[j] == Some(q[j]));
        assert(pad_line(q)[j + 1] == Some(q[j + 1]));
        assert(s[j] == Some(q[j]) && s[j + 1] == Some(q[j + 1]));
        assert(!(s[j] is Some && s[j] == s[j + 1]));
    }
    lemma_merge_run_identity(None, q);
}

/// The result of sweeping one line toward its front.
pub struct LineOutcome {
    /// The line after the sweep, still four cells long.
    pub cells: Vec<Option<u32>>,
    /// The largest tile value present after the sweep; zero on an empty line.
    pub max_tile: u32,
    /// Whether the sweep changed the line in position or value.
    pub changed: bool,
    /// The score earned: the sum of all values created by merges.
    pub delta: u32,
}

/// Sweep one line of four cells toward index zero: push tiles to the front
/// and merge adjacent equal pairs once each, scoring each merged sum.
pub fn merge_line(input: &Vec<Option<u32>>) -> (r: LineOutcome)
    requires
        input@.len() == 4,
        sum_cells(input@) <= u32::MAX,
    ensures
        r.cells@.len() == 4,
        r.cells@ == line_out(input@),
        r.delta as int == line_delta(input@),
        r.changed == (r.cells@ != input@),
        r.max_tile as int == max_cells(r.cells@),
        cells_ok(input@) ==> cells_ok(r.cells@),
{
    // Gather the present values in order.
    let mut vals: Vec<u32> = Vec::new();
    let mut i: usize = 0;
    while i < 4
        invariant
            input@.len() == 4,
            i <= 4,
            vals@ == compact_seq(input@.take(i as int)),
            vals@.len() <= i,
        decreases 4 - i,
    {
        match input[i] {
            Some(v) => {
                vals.push(v);
                proof {
                    assert(input@.take(i + 1).drop_last() =~= input@.take(i as int));
                    assert(vals@ =~= compact_seq(input@.take(i as int)) + seq![v]);
                }
            }
            None => {
                proof {
                    assert(input@.take(i + 1).drop_last() =~= input@.take(i as int));
                    assert(vals@ =~= compact_seq(input@.take(i as int))
                        + Seq::<u32>::empty());
                }
            }
        }
        i = i + 1;
    }
    proof {
        assert(input@.take(4) =~= input@);
        lemma_compact_sum(input@);
    }
    let ghost q = vals@;

    // Merge the run greedily from the front.
    let total: usize = vals.len();
    let mut out: Vec<u32> = Vec::new();
    let mut pending: Option<u32> = None;
    let mut delta: u32 = 0;
    let mut j: usize = 0;
    proof {
        assert(q.skip(0) =~= q);
        assert(Seq::<u32>::empty() + merge_run(None, q) =~= merge_run(None, q));
        assert(sum_vals(Seq::<u32>::empty()) == 0);
    }
    while j < total
        invariant
            vals@ == q,
            total == q.len(),
            q.len() <= 4,
            j <= total,
            sum_vals(q) <= u32::MAX,
            out@ + merge_run(pending, q.skip(j as int)) == merge_run(None, q),
            delta + merge_run_delta(pending, q.skip(j as int))
                == merge_run_delta(None, q),
            sum_vals(out@) + pending_val(pending) + sum_vals(q.skip(j as int))
                == sum_vals(q),
        decreases total - j,
    {
        let v: u32 = vals[j];
        proof {
            assert(q.skip(j as int)[0] == q[j as int]);
            assert(q.skip(j as int).skip(1) =~= q.skip(j + 1));
            lemma_sum_vals_skip(q, j as int);
        }
        match pending {
            None => {
                pending = Some(v);
            }
            Some(p) => {
                if p == v {
                    proof {
                        lemma_sum_vals_nonneg(out@);
                        lemma_sum_vals_nonneg(q.skip(j + 1));
                    }
                    let merged_val: u32 = p + p;
                    proof {
                        lemma_merge_run_delta_bound(None, q);
                        lemma_merge_run_delta_bound(None, q.skip(j + 1));
                        lemma_sum_vals_nonneg(q);
                    }
                    let ghost out_before = out@;
                    out.push(merged_val);
                    delta = delta + merged_val;
                    pending = None;
                    proof {
                        assert(out@ =~= out_before + seq![merged_val]);
                        lemma_sum_vals_append(out_before, seq![merged_val]);
                        lemma_sum_vals_singleton(merged_val);
                        assert(out@ + merge_run(None, q.skip(j + 1))
                            =~= out_before
                                + (seq![merged_val] + merge_run(None, q.skip(j + 1))));
                    }
                } else {
                    let ghost out_before = out@;
                    out.push(p);
                    pending = Some(v);
                    proof {
                        assert(out@ =~= out_before + seq![p]);
                        lemma_sum_vals_append(out_before, seq![p]);
                        lemma_sum_vals_singleton(p);
                        assert(out@ + merge_run(Some(v), q.skip(j + 1))
                            =~= out_before
                                + (seq![p] + merge_run(Some(v), q.skip(j + 1))));
                    }
                }
            }
        }
        j = j + 1;
    }
    proof {
        assert(q.skip(total as int) =~= Seq::<u32>::empty());
    }
    match pending {
        Some(p) => {
            let ghost out_before = out@;
            out.push(p);
            proof {
                assert(out@ =~= out_before + seq![p]);
            }
        }
        None => {
            proof {
                assert(out@ + Seq::<u32>::empty() =~= out@);
            }
        }
    }
    proof {
        assert(out@ =~= merge_run(None, q));
        lemma_merge_run_len(None, q);
    }

    // Lay the run back into a line of four cells.
    let mut cells: Vec<Option<u32>> = Vec::new();
    let mut k: usize = 0;
    while k < 4
        invariant
            out@.len() <= 4,
            k <= 4,
            cells@.len() == k,
            forall|t: int| 0 <= t < k
                ==> #[trigger] cells@[t]
                    == (if t < out@.len() { Some(out@[t]) } else { None::<u32> }),
        decreases 4 - k,
    {
        if k < out.len() {
            cells.push(Some(out[k]));
        } else {
            cells.push(None);
        }
        k = k + 1;
    }
    proof {
        assert(cells@ =~= pad_line(out@));
    }

    // Did the sweep change anything?
    let mut changed: bool = false;
    let mut t: usize = 0;
    while t < 4
        invariant
            input@.len() == 4,
            cells@.len() == 4,
            t <= 4,
            changed == exists|u: int| 0 <= u < t && #[trigger] cells@[u] != input@[u],
        decreases 4 - t,
    {
        if cells[t] != input[t] {
            changed = true;
        }
        t = t + 1;
    }
    proof {
        if !changed {
            assert(cells@ =~= input@);
        }
    }

    // The largest tile left on the line.
    let mut max_tile: u32 = 0;
    let mut m: usize = 0;
    while m < 4
        invariant
            cells@.len() == 4,
            m <= 4,
            max_tile as int == max_cells(cells@.take(m as int)),
        decreases 4 - m,
    {
        match cells[m] {
            Some(v) => {
                if v > max_tile {
                    max_tile = v;
                }
            }
            None => {}
        }
        proof {
            assert(cells@.take(m + 1).drop_last() =~= cells@.take(m as int));
        }
        m = m + 1;
    }
    proof {
        assert(cells@.take(4) =~= cells@);
        if cells_ok(input@) {
            lemma_compact_ok(input@);
            lemma_sum_cells_nonneg(input@);
            lemma_merge_run_ok(None, q);
        }
    }

    LineOutcome { cells, max_tile, changed, delta }
}

} // verus!
