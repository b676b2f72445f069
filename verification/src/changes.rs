//! The time of the n-th next and the n-th previous change within a rectangle
//! of the canvas.
//!
//! The edits of a cell that are dated after its moment are its next changes:
//! those that come after the edit it shows. The edits dated at or before its
//! moment are its previous changes: the edit it shows and those before it,
//! the sentinel among them, or none where the moment lies before the sentinel.
//! A query asks, of all cells of a rectangle together, for the n-th nearest
//! in one direction. Where fewer than `n` changes lie in that direction, the
//! answer is the farthest of them; where none does, there is no answer.
//!
//! Each query can be answered in three ways, which agree: by gathering up to
//! `n` candidates from every cell and sorting them, by keeping only the `n`
//! best candidates while the cells are gone through, and by counting, for
//! chosen moments, how many changes lie at or before them.

use crate::canvas::{is_cursor, Canvas};
use crate::rank::{
    all_ascending, answer, answer_by_candidates, answer_by_counting, ascending, capped, count_le,
    first_of_each, flat, is_nth, lemma_answer, lemma_count_add, lemma_count_ascending,
    lemma_count_bounds, lemma_count_monotone, lemma_count_take, lemma_first_n_suffice,
    lemma_flat_take, lemma_mirror_ascending, lemma_mirror_flat_count, lemma_mirror_nth,
    lemma_no_answer, lemma_nth, lemma_nth_ascending, lemma_same_up_to_add,
    lemma_same_up_to_sorted_take, lemma_same_up_to_take, lemma_sorted, lemma_strategies_agree,
    mirror, mirror_each, nth_largest, same_up_to, sorted,
};
use crate::reader::custom::{lemma_history_valid, DatasetView, MAX_CELLS};
use crate::search::{found_at, least_greater, lemma_sorted_in_runs, reads, run_of};
use vstd::prelude::*;

verus! {

/// Why a query has no answer.
#[derive(Clone, Copy, Debug, PartialEq, Eq, Structural)]
pub enum RankQueryError {
    /// No change lies in the direction asked for.
    NoChange,
}

/// The timestamps of the edits of a cell after the one at position `idx`.
pub open spec fn next_lane(ts: Seq<u64>, idx: int) -> Seq<u64> {
    ts.subrange(idx + 1, ts.len() as int)
}

/// The timestamps of the edits of a cell up to the one at position `idx`,
/// that one included, as far as they are dated at or before `moment`: all of
/// them, or none where the edit at `idx` is dated after `moment`, which is so
/// only for a cell that shows its sentinel at a moment before it.
pub open spec fn prev_lane(ts: Seq<u64>, idx: int, moment: u64) -> Seq<u64> {
    if ts[idx] <= moment {
        ts.subrange(0, idx + 1)
    } else {
        Seq::empty()
    }
}

/// The number of cells of a rectangle.
pub open spec fn rect_cells(x1: int, x2: int, y1: int, y2: int) -> int {
    if x1 < x2 && y1 < y2 {
        (x2 - x1) * (y2 - y1)
    } else {
        0
    }
}

/// The cell number `c` of a rectangle, its cells counted row by row.
pub open spec fn rect_cell(x1: int, x2: int, y1: int, c: int) -> (int, int) {
    (x1 + c % (x2 - x1), y1 + c / (x2 - x1))
}

/// The cell number `c` of a rectangle lies in the rectangle.
pub proof fn lemma_rect_cell(x1: int, x2: int, y1: int, y2: int, c: int)
    requires
        0 <= c < rect_cells(x1, x2, y1, y2),
    ensures
        x1 <= rect_cell(x1, x2, y1, c).0 < x2,
        y1 <= rect_cell(x1, x2, y1, c).1 < y2,
{
    let w = x2 - x1;
    let h = y2 - y1;
    vstd::arithmetic::div_mod::lemma_fundamental_div_mod(c, w);
    vstd::arithmetic::div_mod::lemma_mod_pos_bound(c, w);
    vstd::arithmetic::div_mod::lemma_div_pos_is_pos(c, w);
    if c / w >= h {
        vstd::arithmetic::mul::lemma_mul_inequality(h, c / w, w);
        assert(h * w == w * h) by (nonlinear_arith);
        assert((c / w) * w == w * (c / w)) by (nonlinear_arith);
    }
}

/// A rectangle within the canvas has no more cells than the canvas.
pub proof fn lemma_rect_cells(v: DatasetView, x1: int, x2: int, y1: int, y2: int)
    requires
        v.wf(),
        0 <= x1 < x2 <= v.width,
        0 <= y1 < y2 <= v.height,
    ensures
        0 < rect_cells(x1, x2, y1, y2) <= MAX_CELLS,
{
    vstd::arithmetic::mul::lemma_mul_upper_bound(x2 - x1, v.width as int, y2 - y1, v.height as int);
    vstd::arithmetic::mul::lemma_mul_strictly_positive(x2 - x1, y2 - y1);
}

/// The cell number `c` of a rectangle.
fn rect_cell_of(x1: usize, x2: usize, y1: usize, y2: usize, c: usize) -> (r: (usize, usize))
    requires
        c < rect_cells(x1 as int, x2 as int, y1 as int, y2 as int),
    ensures
        (r.0 as int, r.1 as int) == rect_cell(x1 as int, x2 as int, y1 as int, c as int),
        x1 <= r.0 < x2,
        y1 <= r.1 < y2,
{
    proof {
        lemma_rect_cell(x1 as int, x2 as int, y1 as int, y2 as int, c as int);
    }
    let w = x2 - x1;
    (x1 + c % w, y1 + c / w)
}

/// The number of cells of a rectangle within the canvas.
fn rect_cells_of(x1: usize, x2: usize, y1: usize, y2: usize, Ghost(v): Ghost<DatasetView>) -> (r:
    usize)
    requires
        v.wf(),
        x1 < x2 <= v.width,
        y1 < y2 <= v.height,
    ensures
        r == rect_cells(x1 as int, x2 as int, y1 as int, y2 as int),
        0 < r <= MAX_CELLS,
{
    proof {
        lemma_rect_cells(v, x1 as int, x2 as int, y1 as int, y2 as int);
    }
    (x2 - x1) * (y2 - y1)
}

/// `<[u64]>::sort`: puts the timestamps in ascending order.
#[verifier::external_body]
fn sort_timestamps(timestamps: &mut Vec<u64>)
    ensures
        final(timestamps)@ == sorted(old(timestamps)@),
{
    timestamps.sort();
}

impl<'a> Canvas<'a> {
    /// The lane of the cell `(x, y)` in one direction, nearest first: forward
    /// the timestamps of its next changes, backward the distances of its
    /// previous changes from the largest `u64`.
    pub open spec fn cell_lane(&self, x: int, y: int, forward: bool) -> Seq<u64> {
        let ts = self.dataset@.timestamps(x, y);
        let idx = self.pixel(x, y).datapoint_history_idx as int;
        if forward {
            next_lane(ts, idx)
        } else {
            mirror(prev_lane(ts, idx, self.pixel(x, y).timestamp))
        }
    }

    /// For every cell of a rectangle the timestamps of its next changes.
    pub open spec fn next_lanes(&self, x1: int, x2: int, y1: int, y2: int) -> Seq<Seq<u64>> {
        Seq::new(
            rect_cells(x1, x2, y1, y2) as nat,
            |c: int|
                next_lane(
                    self.dataset@.timestamps(
                        rect_cell(x1, x2, y1, c).0,
                        rect_cell(x1, x2, y1, c).1,
                    ),
                    self.pixel(
                        rect_cell(x1, x2, y1, c).0,
                        rect_cell(x1, x2, y1, c).1,
                    ).datapoint_history_idx as int,
                ),
        )
    }

    /// For every cell of a rectangle the timestamps of its previous changes.
    pub open spec fn prev_lanes(&self, x1: int, x2: int, y1: int, y2: int) -> Seq<Seq<u64>> {
        Seq::new(
            rect_cells(x1, x2, y1, y2) as nat,
            |c: int|
                prev_lane(
                    self.dataset@.timestamps(
                        rect_cell(x1, x2, y1, c).0,
                        rect_cell(x1, x2, y1, c).1,
                    ),
                    self.pixel(
                        rect_cell(x1, x2, y1, c).0,
                        rect_cell(x1, x2, y1, c).1,
                    ).datapoint_history_idx as int,
                    self.pixel(rect_cell(x1, x2, y1, c).0, rect_cell(x1, x2, y1, c).1).timestamp,
                ),
        )
    }

    /// The lanes of the cells of a rectangle in one direction.
    pub open spec fn lanes(&self, x1: int, x2: int, y1: int, y2: int, forward: bool) -> Seq<
        Seq<u64>,
    > {
        if forward {
            self.next_lanes(x1, x2, y1, y2)
        } else {
            mirror_each(self.prev_lanes(x1, x2, y1, y2))
        }
    }

    /// The timestamps of all next changes of a rectangle.
    pub open spec fn next_changes(&self, x1: int, x2: int, y1: int, y2: int) -> Seq<u64> {
        flat(self.next_lanes(x1, x2, y1, y2))
    }

    /// The timestamps of all previous changes of a rectangle.
    pub open spec fn prev_changes(&self, x1: int, x2: int, y1: int, y2: int) -> Seq<u64> {
        flat(self.prev_lanes(x1, x2, y1, y2))
    }

    /// The time of the `n`-th next change of a rectangle: the `n`-th smallest
    /// of the timestamps of its next changes, or the largest where there are
    /// fewer than `n`.
    pub open spec fn next_nth_change(&self, n: int, x1: int, x2: int, y1: int, y2: int) -> Result<
        u64,
        RankQueryError,
    > {
        let all = self.next_changes(x1, x2, y1, y2);
        if n <= 0 || all.len() == 0 {
            Err(RankQueryError::NoChange)
        } else {
            Ok(crate::rank::nth_smallest(all, capped(n, all.len() as int)))
        }
    }

    /// The time of the `n`-th previous change of a rectangle: the `n`-th
    /// largest of the timestamps of its previous changes, or the smallest
    /// where there are fewer than `n`.
    pub open spec fn prev_nth_change(&self, n: int, x1: int, x2: int, y1: int, y2: int) -> Result<
        u64,
        RankQueryError,
    > {
        let all = self.prev_changes(x1, x2, y1, y2);
        if n <= 0 || all.len() == 0 {
            Err(RankQueryError::NoChange)
        } else {
            Ok(nth_largest(all, capped(n, all.len() as int)))
        }
    }

    /// The lanes of a rectangle within the canvas are those of its cells,
    /// and each is in ascending order.
    pub proof fn lemma_lanes(&self, x1: int, x2: int, y1: int, y2: int, forward: bool)
        requires
            self.wf(),
            0 <= x1 < x2 <= self.dataset@.width,
            0 <= y1 < y2 <= self.dataset@.height,
        ensures
            self.lanes(x1, x2, y1, y2, forward).len() == rect_cells(x1, x2, y1, y2),
            all_ascending(self.lanes(x1, x2, y1, y2, forward)),
            forall|c: int|
                0 <= c < rect_cells(x1, x2, y1, y2) ==> #[trigger] self.lanes(
                    x1,
                    x2,
                    y1,
                    y2,
                    forward,
                )[c] == self.cell_lane(
                    rect_cell(x1, x2, y1, c).0,
                    rect_cell(x1, x2, y1, c).1,
                    forward,
                ),
    {
        self.dataset.lemma_wf();
        let lanes = self.lanes(x1, x2, y1, y2, forward);
        assert forall|c: int| 0 <= c < lanes.len() implies ascending(#[trigger] lanes[c]) by {
            lemma_rect_cell(x1, x2, y1, y2, c);
            let (x, y) = rect_cell(x1, x2, y1, c);
            self.lemma_cell_lane(x, y, forward);
        }
    }

    /// Whether the cell `(x, y)` shows its sentinel at a moment before the
    /// sentinel's, so that no edit at all is dated at or before its moment.
    pub open spec fn before_all(&self, x: int, y: int) -> bool {
        self.pixel(x, y).datapoint_history_idx == 0 && self.pixel(x, y).timestamp
            < self.dataset@.min_timestamp - 1
    }

    /// The lane of a cell is in ascending order; forward it holds what
    /// follows the edit that the cell shows; backward that edit and what
    /// comes before it, or nothing where the moment of the cell lies before
    /// all its edits.
    pub proof fn lemma_cell_lane(&self, x: int, y: int, forward: bool)
        requires
            self.wf(),
            self.dataset@.has_cell(x, y),
        ensures
            ascending(self.cell_lane(x, y, forward)),
            forward ==> self.cell_lane(x, y, forward).len() == self.dataset@.history(x, y).len()
                - self.pixel(x, y).datapoint_history_idx - 1,
            !forward && !self.before_all(x, y) ==> self.cell_lane(x, y, forward) == mirror(
                self.dataset@.timestamps(x, y).subrange(
                    0,
                    self.pixel(x, y).datapoint_history_idx + 1,
                ),
            ) && self.cell_lane(x, y, forward).len() == self.pixel(x, y).datapoint_history_idx + 1,
            !forward && self.before_all(x, y) ==> self.cell_lane(x, y, forward).len() == 0,
            self.pixel(x, y).datapoint_history_idx < self.dataset@.history(x, y).len(),
            self.dataset@.history(x, y).len() <= u32::MAX,
    {
        self.dataset.lemma_wf();
        lemma_history_valid(self.dataset@, x, y);
        let ts = self.dataset@.timestamps(x, y);
        let idx = self.pixel(x, y).datapoint_history_idx as int;
        assert(is_cursor(self.dataset@.history(x, y), self.pixels@[y]@[x]));
        if forward {
            let lane = next_lane(ts, idx);
            assert forall|i: int, j: int| 0 <= i <= j < lane.len() implies lane[i] <= lane[j] by {
                assert(lane[i] == ts[idx + 1 + i] && lane[j] == ts[idx + 1 + j]);
            }
        } else {
            let lane = prev_lane(ts, idx, self.pixel(x, y).timestamp);
            assert(ts[0] == self.dataset@.min_timestamp - 1);
            assert forall|i: int, j: int| 0 <= i <= j < lane.len() implies lane[i] <= lane[j] by {
                assert(lane[i] == ts[i] && lane[j] == ts[j]);
            }
            lemma_mirror_ascending(lane);
        }
    }

    /// The moment of a cell parts its changes: its next changes are the
    /// edits dated after the moment, and its previous changes the edits dated
    /// at or before it.
    pub proof fn lemma_changes_part_at_moment(&self, x: int, y: int)
        requires
            self.wf(),
            self.dataset@.has_cell(x, y),
        ensures
            forall|k: int|
                0 <= k < self.dataset@.timestamps(x, y).len() ==> (#[trigger] self.dataset@.timestamps(
                    x,
                    y,
                )[k] > self.pixel(x, y).timestamp <==> k > self.pixel(x, y).datapoint_history_idx
                    || self.before_all(x, y)),
            next_lane(
                self.dataset@.timestamps(x, y),
                self.pixel(x, y).datapoint_history_idx as int,
            ) == self.dataset@.timestamps(x, y).subrange(
                self.pixel(x, y).datapoint_history_idx + 1,
                self.dataset@.timestamps(x, y).len() as int,
            ),
            prev_lane(
                self.dataset@.timestamps(x, y),
                self.pixel(x, y).datapoint_history_idx as int,
                self.pixel(x, y).timestamp,
            ) == if self.before_all(x, y) {
                Seq::<u64>::empty()
            } else {
                self.dataset@.timestamps(x, y).subrange(
                    0,
                    self.pixel(x, y).datapoint_history_idx + 1,
                )
            },
    {
        self.dataset.lemma_wf();
        lemma_history_valid(self.dataset@, x, y);
        let ts = self.dataset@.timestamps(x, y);
        let p = self.pixel(x, y);
        let idx = p.datapoint_history_idx as int;
        assert(is_cursor(self.dataset@.history(x, y), self.pixels@[y]@[x]));
        assert(ts[0] == self.dataset@.min_timestamp - 1);
        assert forall|k: int| 0 <= k < ts.len() implies (#[trigger] ts[k] > p.timestamp <==> k > idx
            || self.before_all(x, y)) by {
            if k > idx {
                assert(ts[idx + 1] <= ts[k]);
            } else {
                assert(ts[0] <= ts[k]);
                assert(ts[k] <= ts[idx]);
            }
        }
    }

    /// The length of the lane of a cell.
    fn lane_len(&self, x: usize, y: usize, forward: bool) -> (r: usize)
        requires
            self.wf(),
            self.dataset@.has_cell(x as int, y as int),
        ensures
            r == self.cell_lane(x as int, y as int, forward).len(),
            r <= u32::MAX,
    {
        proof {
            self.dataset.lemma_wf();
            self.lemma_cell_lane(x as int, y as int, forward);
        }
        let pixel = self.pixels[y][x];
        let idx = pixel.datapoint_history_idx;
        if forward {
            self.dataset.datapoint_history_len(x as u32, y as u32) - idx - 1
        } else if idx == 0 && pixel.timestamp < self.min_timestamp - 1 {
            0
        } else {
            idx + 1
        }
    }

    /// What stands at position `j` of the lane of a cell.
    fn lane_key(&self, x: usize, y: usize, forward: bool, j: usize) -> (r: u64)
        requires
            self.wf(),
            self.dataset@.has_cell(x as int, y as int),
            j < self.cell_lane(x as int, y as int, forward).len(),
        ensures
            r == self.cell_lane(x as int, y as int, forward)[j as int],
    {
        proof {
            self.dataset.lemma_wf();
            self.lemma_cell_lane(x as int, y as int, forward);
            lemma_history_valid(self.dataset@, x as int, y as int);
        }
        let idx = self.pixels[y][x].datapoint_history_idx;
        if forward {
            self.dataset.datapoint_timestamp_with_xy_and_idx(
                x as u32,
                y as u32,
                (idx + 1 + j) as u32,
            )
        } else {
            u64::MAX - self.dataset.datapoint_timestamp_with_xy_and_idx(
                x as u32,
                y as u32,
                (idx - j) as u32,
            )
        }
    }

    /// Appends the first `n` of the lane of a cell to the candidates.
    fn gather(&self, x: usize, y: usize, forward: bool, n: usize, timestamps: &mut Vec<u64>)
        requires
            self.wf(),
            self.dataset@.has_cell(x as int, y as int),
        ensures
            final(timestamps)@ == old(timestamps)@ + self.cell_lane(
                x as int,
                y as int,
                forward,
            ).take(
                capped(n as int, self.cell_lane(x as int, y as int, forward).len() as int),
            ),
    {
        let ghost lane = self.cell_lane(x as int, y as int, forward);
        let len = self.lane_len(x, y, forward);
        let m = if n < len {
            n
        } else {
            len
        };
        let mut j: usize = 0;
        while j < m
            invariant
                self.wf(),
                self.dataset@.has_cell(x as int, y as int),
                lane == self.cell_lane(x as int, y as int, forward),
                j <= m <= lane.len(),
                timestamps@ == old(timestamps)@ + lane.take(j as int),
            decreases m - j,
        {
            let key = self.lane_key(x, y, forward, j);
            timestamps.push(key);
            assert(lane.take(j + 1) == lane.take(j as int).push(key));
            j += 1;
        }
    }

    /// The answer in one direction by bounded candidates: up to `n`
    /// candidates are gathered from every cell, all are sorted, and the
    /// `n`-th is taken.
    fn nth_by_candidates(
        &self,
        forward: bool,
        n: usize,
        x1: usize,
        x2: usize,
        y1: usize,
        y2: usize,
    ) -> (r: Option<u64>)
        requires
            self.wf(),
            x1 < x2 && y1 < y2 ==> x2 <= self.dataset@.width && y2 <= self.dataset@.height,
        ensures
            r == answer(self.lanes(x1 as int, x2 as int, y1 as int, y2 as int, forward), n as int),
    {
        let ghost lanes = self.lanes(x1 as int, x2 as int, y1 as int, y2 as int, forward);
        if n == 0 || x1 >= x2 || y1 >= y2 {
            assert(n > 0 ==> lanes.len() == 0);
            return None;
        }
        proof {
            self.dataset.lemma_wf();
            self.lemma_lanes(x1 as int, x2 as int, y1 as int, y2 as int, forward);
            lemma_first_n_suffice(n as int, lanes);
        }
        let ghost firsts = first_of_each(n as int, lanes);
        let cells = rect_cells_of(x1, x2, y1, y2, Ghost(self.dataset@));
        let mut timestamps: Vec<u64> = Vec::new();
        let mut c: usize = 0;
        proof {
            lemma_flat_take(firsts, 0);
        }
        while c < cells
            invariant
                self.wf(),
                x1 < x2 <= self.dataset@.width,
                y1 < y2 <= self.dataset@.height,
                cells == rect_cells(x1 as int, x2 as int, y1 as int, y2 as int),
                lanes == self.lanes(x1 as int, x2 as int, y1 as int, y2 as int, forward),
                lanes.len() == cells,
                forall|c: int|
                    0 <= c < cells ==> #[trigger] lanes[c] == self.cell_lane(
                        rect_cell(x1 as int, x2 as int, y1 as int, c).0,
                        rect_cell(x1 as int, x2 as int, y1 as int, c).1,
                        forward,
                    ),
                firsts == first_of_each(n as int, lanes),
                c <= cells,
                timestamps@ == flat(firsts.take(c as int)),
            decreases cells - c,
        {
            let (x, y) = rect_cell_of(x1, x2, y1, y2, c);
            self.gather(x, y, forward, n, &mut timestamps);
            proof {
                lemma_flat_take(firsts, c as int);
                assert(lanes[c as int] == self.cell_lane(x as int, y as int, forward));
            }
            c += 1;
        }
        proof {
            lemma_flat_take(firsts, cells - 1);
        }
        let ghost pool = timestamps@;
        if timestamps.len() == 0 {
            proof {
                lemma_no_answer(lanes, n as int, pool);
            }
            return None;
        }
        sort_timestamps(&mut timestamps);
        proof {
            lemma_sorted(pool);
        }
        let k = if n < timestamps.len() {
            n
        } else {
            timestamps.len()
        };
        let key = timestamps[k - 1];
        proof {
            lemma_nth_ascending(timestamps@, k as int);
            assert(is_nth(pool, k as int, key));
            lemma_answer(lanes, n as int, pool, key);
        }
        Some(key)
    }
}

/// What cannot be told apart from a second, which cannot be told apart from a
/// third, cannot be told apart from the third.
proof fn lemma_same_up_to_chain(n: int, a: Seq<u64>, b: Seq<u64>, c: Seq<u64>)
    requires
        same_up_to(n, a, b),
        same_up_to(n, b, c),
    ensures
        same_up_to(n, a, c),
{
    assert forall|t: int|
        #![trigger count_le(a, t)]
        #![trigger count_le(c, t)]
        capped(n, count_le(a, t) as int) == capped(n, count_le(c, t) as int) by {
        assert(capped(n, count_le(a, t) as int) == capped(n, count_le(b, t) as int));
        assert(capped(n, count_le(b, t) as int) == capped(n, count_le(c, t) as int));
    }
}

impl<'a> Canvas<'a> {
    /// The answer in one direction with little memory: the candidates of one
    /// cell after the other are put to those kept, and after every cell only
    /// the `n` best are kept.
    fn nth_by_trimming(
        &self,
        forward: bool,
        n: usize,
        x1: usize,
        x2: usize,
        y1: usize,
        y2: usize,
    ) -> (r: Option<u64>)
        requires
            self.wf(),
            x1 < x2 && y1 < y2 ==> x2 <= self.dataset@.width && y2 <= self.dataset@.height,
        ensures
            r == answer(self.lanes(x1 as int, x2 as int, y1 as int, y2 as int, forward), n as int),
    {
        let ghost lanes = self.lanes(x1 as int, x2 as int, y1 as int, y2 as int, forward);
        if n == 0 || x1 >= x2 || y1 >= y2 {
            assert(n > 0 ==> lanes.len() == 0);
            return None;
        }
        proof {
            self.dataset.lemma_wf();
            self.lemma_lanes(x1 as int, x2 as int, y1 as int, y2 as int, forward);
        }
        let cells = rect_cells_of(x1, x2, y1, y2, Ghost(self.dataset@));
        let mut timestamps: Vec<u64> = Vec::new();
        let mut c: usize = 0;
        proof {
            lemma_flat_take(lanes, 0);
        }
        while c < cells
            invariant
                self.wf(),
                1 <= n,
                x1 < x2 <= self.dataset@.width,
                y1 < y2 <= self.dataset@.height,
                cells == rect_cells(x1 as int, x2 as int, y1 as int, y2 as int),
                lanes == self.lanes(x1 as int, x2 as int, y1 as int, y2 as int, forward),
                lanes.len() == cells,
                all_ascending(lanes),
                forall|c: int|
                    0 <= c < cells ==> #[trigger] lanes[c] == self.cell_lane(
                        rect_cell(x1 as int, x2 as int, y1 as int, c).0,
                        rect_cell(x1 as int, x2 as int, y1 as int, c).1,
                        forward,
                    ),
                c <= cells,
                timestamps@.len() <= n,
                ascending(timestamps@),
                same_up_to(n as int, timestamps@, flat(lanes.take(c as int))),
            decreases cells - c,
        {
            let (x, y) = rect_cell_of(x1, x2, y1, y2, c);
            let ghost kept = timestamps@;
            self.gather(x, y, forward, n, &mut timestamps);
            let ghost joined = timestamps@;
            sort_timestamps(&mut timestamps);
            let ghost ordered = timestamps@;
            timestamps.truncate(n);
            proof {
                let lane = lanes[c as int];
                let m = capped(n as int, lane.len() as int);
                assert(lane == self.cell_lane(x as int, y as int, forward));
                assert(ascending(lane));
                lemma_flat_take(lanes, c as int);
                lemma_same_up_to_take(n as int, lane, m);
                lemma_same_up_to_add(
                    n as int,
                    kept,
                    flat(lanes.take(c as int)),
                    lane.take(m),
                    lane,
                );
                lemma_sorted(joined);
                let trimmed = capped(n as int, ordered.len() as int);
                assert(timestamps@ == ordered.take(trimmed));
                lemma_same_up_to_sorted_take(n as int, joined, ordered, trimmed);
                lemma_same_up_to_chain(n as int, timestamps@, joined, flat(lanes.take(c + 1)));
                lemma_count_take(ordered, trimmed, 0);
            }
            c += 1;
        }
        proof {
            lemma_flat_take(lanes, cells - 1);
        }
        if timestamps.len() == 0 {
            proof {
                lemma_no_answer(lanes, n as int, timestamps@);
            }
            return None;
        }
        let k = timestamps.len();
        let key = timestamps[k - 1];
        proof {
            lemma_nth_ascending(timestamps@, k as int);
            lemma_answer(lanes, n as int, timestamps@, key);
        }
        Some(key)
    }
}

/// The memory that the counting works in: for every cell of the rectangle the
/// positions between which its count lies, and the counts of the moment that
/// is tried. It can be used for one query after the other.
#[derive(Debug)]
pub struct RankScratch {
    low: Vec<usize>,
    high: Vec<usize>,
    probe: Vec<usize>,
}

impl RankScratch {
    /// Memory for queries, empty as yet.
    pub fn new() -> (scratch: RankScratch)
        ensures
            scratch.is_empty(),
    {
        RankScratch { low: Vec::new(), high: Vec::new(), probe: Vec::new() }
    }

    /// Whether the memory holds no position and no count.
    pub closed spec fn is_empty(&self) -> bool {
        self.low@.len() == 0 && self.high@.len() == 0 && self.probe@.len() == 0
    }
}

impl<'a> Canvas<'a> {
    /// Counts how many of the first `n` of the lane of a cell are at most
    /// `t`, knowing that `from` of them are at most `a`, a moment not after
    /// `t`, and `to` of them at most `b`, a moment not before `t`. Only the
    /// positions from `from` up to `to` are looked at.
    fn count_in_lane(
        &self,
        x: usize,
        y: usize,
        forward: bool,
        n: usize,
        t: u64,
        from: usize,
        to: usize,
        Ghost(a): Ghost<int>,
        Ghost(b): Ghost<int>,
    ) -> (p: usize)
        requires
            self.wf(),
            self.dataset@.has_cell(x as int, y as int),
            a <= t <= b,
            from == count_le(
                self.cell_lane(x as int, y as int, forward).take(
                    capped(n as int, self.cell_lane(x as int, y as int, forward).len() as int),
                ),
                a,
            ),
            to == count_le(
                self.cell_lane(x as int, y as int, forward).take(
                    capped(n as int, self.cell_lane(x as int, y as int, forward).len() as int),
                ),
                b,
            ),
        ensures
            p == count_le(
                self.cell_lane(x as int, y as int, forward).take(
                    capped(n as int, self.cell_lane(x as int, y as int, forward).len() as int),
                ),
                t as int,
            ),
            from <= p <= to,
            p <= u32::MAX,
    {
        let ghost lane = self.cell_lane(x as int, y as int, forward);
        let ghost first = lane.take(capped(n as int, lane.len() as int));
        proof {
            self.lemma_cell_lane(x as int, y as int, forward);
            lemma_count_take(lane, capped(n as int, lane.len() as int), 0);
            lemma_count_ascending(first, a);
            lemma_count_ascending(first, b);
            lemma_count_ascending(first, t as int);
            lemma_count_bounds(first, a);
            lemma_count_bounds(first, b);
            lemma_count_bounds(first, t as int);
            lemma_count_monotone(first, a, t as int);
            lemma_count_monotone(first, t as int, b);
            lemma_sorted_in_runs(first, t, from as int, to - 1);
        }
        let element = |j: usize| -> (v: u64)
            requires
                self.wf(),
                self.dataset@.has_cell(x as int, y as int),
                j < self.cell_lane(x as int, y as int, forward).len(),
            ensures
                v == self.cell_lane(x as int, y as int, forward)[j as int],
            { self.lane_key(x, y, forward, j) };
        assert(reads(element, first, from as int, to - 1)) by {
            assert forall|j: usize, v: u64|
                from <= j <= to - 1 && #[trigger] call_ensures(element, (j,), v) implies v
                == first[j as int] by {
                assert(first[j as int] == lane[j as int]);
            }
        }
        let result = least_greater(&t, from as i64, to as i64 - 1, element);
        assert(found_at(first, t, from as int, to - 1, result));
        let p = match result {
            Ok(at) => (at + 1) as usize,
            Err(at) => at as usize,
        };
        proof {
            let counted = count_le(first, t as int) as int;
            if counted < p {
                assert(run_of(first[counted], t) <= 1);
            }
            if counted > p {
                assert(run_of(first[p as int], t) == 2);
            }
        }
        p
    }

    /// The answer in one direction by counting: a moment is tried, the
    /// candidates at or before it are counted in every cell, and the moments
    /// that are tried close in on the first at which the count reaches `n`.
    /// For every cell the positions between which its count still lies are
    /// kept from one try to the next.
    fn nth_by_counting(
        &self,
        forward: bool,
        n: usize,
        x1: usize,
        x2: usize,
        y1: usize,
        y2: usize,
        scratch: &mut RankScratch,
    ) -> (r: Option<u64>)
        requires
            self.wf(),
            x1 < x2 && y1 < y2 ==> x2 <= self.dataset@.width && y2 <= self.dataset@.height,
        ensures
            r == answer(self.lanes(x1 as int, x2 as int, y1 as int, y2 as int, forward), n as int),
    {
        let ghost lanes = self.lanes(x1 as int, x2 as int, y1 as int, y2 as int, forward);
        if n == 0 || x1 >= x2 || y1 >= y2 {
            assert(n > 0 ==> lanes.len() == 0);
            return None;
        }
        proof {
            self.dataset.lemma_wf();
            self.lemma_lanes(x1 as int, x2 as int, y1 as int, y2 as int, forward);
            lemma_first_n_suffice(n as int, lanes);
        }
        let ghost firsts = first_of_each(n as int, lanes);
        let ghost pool = flat(firsts);
        let cells = rect_cells_of(x1, x2, y1, y2, Ghost(self.dataset@));
        // the positions between which the count of every cell lies
        let mut low: Vec<usize> = Vec::new();
        let mut high: Vec<usize> = Vec::new();
        let mut probe: Vec<usize> = Vec::new();
        std::mem::swap(&mut low, &mut scratch.low);
        std::mem::swap(&mut high, &mut scratch.high);
        std::mem::swap(&mut probe, &mut scratch.probe);
        low.clear();
        high.clear();
        let mut total: u64 = 0;
        let mut c: usize = 0;
        proof {
            lemma_flat_take(firsts, 0);
        }
        while c < cells
            invariant
                self.wf(),
                x1 < x2 <= self.dataset@.width,
                y1 < y2 <= self.dataset@.height,
                cells == rect_cells(x1 as int, x2 as int, y1 as int, y2 as int),
                cells <= MAX_CELLS,
                lanes == self.lanes(x1 as int, x2 as int, y1 as int, y2 as int, forward),
                lanes.len() == cells,
                forall|c: int|
                    0 <= c < cells ==> #[trigger] lanes[c] == self.cell_lane(
                        rect_cell(x1 as int, x2 as int, y1 as int, c).0,
                        rect_cell(x1 as int, x2 as int, y1 as int, c).1,
                        forward,
                    ),
                firsts == first_of_each(n as int, lanes),
                c <= cells,
                low@.len() == c,
                high@.len() == c,
                forall|i: int| 0 <= i < c ==> #[trigger] low@[i] == 0,
                forall|i: int| 0 <= i < c ==> #[trigger] high@[i] == firsts[i].len(),
                total == flat(firsts.take(c as int)).len(),
                total <= c * 0xffff_ffff,
            decreases cells - c,
        {
            let (x, y) = rect_cell_of(x1, x2, y1, y2, c);
            let len = self.lane_len(x, y, forward);
            let m = if n < len {
                n
            } else {
                len
            };
            proof {
                lemma_flat_take(firsts, c as int);
                assert(lanes[c as int] == self.cell_lane(x as int, y as int, forward));
                assert(firsts[c as int].len() == m);
            }
            low.push(0);
            high.push(m);
            total = total + m as u64;
            c += 1;
        }
        proof {
            lemma_flat_take(firsts, cells - 1);
        }
        if total == 0 {
            proof {
                lemma_no_answer(lanes, n as int, pool);
            }
            scratch.low = low;
            scratch.high = high;
            scratch.probe = probe;
            return None;
        }
        let k: u64 = if (n as u64) < total {
            n as u64
        } else {
            total
        };
        let mut lo: u64 = 0;
        let mut hi: u64 = u64::MAX;
        proof {
            lemma_count_bounds(pool, -1);
            lemma_count_bounds(pool, u64::MAX as int);
            assert forall|i: int| 0 <= i < cells implies #[trigger] low@[i] == count_le(
                firsts[i],
                lo - 1,
            ) by {
                lemma_count_bounds(firsts[i], -1);
            }
            assert forall|i: int| 0 <= i < cells implies #[trigger] high@[i] == count_le(
                firsts[i],
                hi as int,
            ) by {
                lemma_count_bounds(firsts[i], u64::MAX as int);
            }
        }
        while lo < hi
            invariant
                self.wf(),
                1 <= n,
                x1 < x2 <= self.dataset@.width,
                y1 < y2 <= self.dataset@.height,
                cells == rect_cells(x1 as int, x2 as int, y1 as int, y2 as int),
                cells <= MAX_CELLS,
                lanes == self.lanes(x1 as int, x2 as int, y1 as int, y2 as int, forward),
                lanes.len() == cells,
                forall|c: int|
                    0 <= c < cells ==> #[trigger] lanes[c] == self.cell_lane(
                        rect_cell(x1 as int, x2 as int, y1 as int, c).0,
                        rect_cell(x1 as int, x2 as int, y1 as int, c).1,
                        forward,
                    ),
                firsts == first_of_each(n as int, lanes),
                pool == flat(firsts),
                k == capped(n as int, pool.len() as int),
                1 <= k,
                lo <= hi,
                low@.len() == cells,
                high@.len() == cells,
                forall|i: int| 0 <= i < cells ==> #[trigger] low@[i] == count_le(firsts[i], lo - 1),
                forall|i: int|
                    0 <= i < cells ==> #[trigger] high@[i] == count_le(firsts[i], hi as int),
                count_le(pool, lo - 1) < k <= count_le(pool, hi as int),
            decreases hi - lo,
        {
            let mid = lo + (hi - lo) / 2;
            probe.clear();
            let mut count: u64 = 0;
            let mut c: usize = 0;
            proof {
                lemma_flat_take(firsts, 0);
            }
            while c < cells
                invariant
                    self.wf(),
                    x1 < x2 <= self.dataset@.width,
                    y1 < y2 <= self.dataset@.height,
                    cells == rect_cells(x1 as int, x2 as int, y1 as int, y2 as int),
                    cells <= MAX_CELLS,
                    lanes == self.lanes(x1 as int, x2 as int, y1 as int, y2 as int, forward),
                    lanes.len() == cells,
                    forall|c: int|
                        0 <= c < cells ==> #[trigger] lanes[c] == self.cell_lane(
                            rect_cell(x1 as int, x2 as int, y1 as int, c).0,
                            rect_cell(x1 as int, x2 as int, y1 as int, c).1,
                            forward,
                        ),
                    firsts == first_of_each(n as int, lanes),
                    lo <= mid <= hi,
                    low@.len() == cells,
                    high@.len() == cells,
                    forall|i: int|
                        0 <= i < cells ==> #[trigger] low@[i] == count_le(firsts[i], lo - 1),
                    forall|i: int|
                        0 <= i < cells ==> #[trigger] high@[i] == count_le(firsts[i], hi as int),
                    c <= cells,
                    probe@.len() == c,
                    forall|i: int|
                        0 <= i < c ==> #[trigger] probe@[i] == count_le(firsts[i], mid as int),
                    count == count_le(flat(firsts.take(c as int)), mid as int),
                    count <= c * 0xffff_ffff,
                decreases cells - c,
            {
                let (x, y) = rect_cell_of(x1, x2, y1, y2, c);
                proof {
                    assert(lanes[c as int] == self.cell_lane(x as int, y as int, forward));
                    assert(low@[c as int] == count_le(firsts[c as int], lo - 1));
                    assert(high@[c as int] == count_le(firsts[c as int], hi as int));
                }
                let p = self.count_in_lane(
                    x,
                    y,
                    forward,
                    n,
                    mid,
                    low[c],
                    high[c],
                    Ghost(lo - 1),
                    Ghost(hi as int),
                );
                proof {
                    lemma_flat_take(firsts, c as int);
                    lemma_count_add(flat(firsts.take(c as int)), firsts[c as int], mid as int);
                }
                probe.push(p);
                count = count + p as u64;
                c += 1;
            }
            proof {
                lemma_flat_take(firsts, cells - 1);
            }
            if count >= k {
                hi = mid;
                std::mem::swap(&mut high, &mut probe);
            } else {
                lo = mid + 1;
                std::mem::swap(&mut low, &mut probe);
            }
        }
        proof {
            assert(is_nth(pool, k as int, lo));
            lemma_answer(lanes, n as int, pool, lo);
        }
        scratch.low = low;
        scratch.high = high;
        scratch.probe = probe;
        Some(lo)
    }
}

/// The time that a distance from the largest `u64` stands for.
pub open spec fn time_of(found: Option<u64>) -> Result<u64, RankQueryError> {
    match found {
        Some(key) => Ok((u64::MAX - key) as u64),
        None => Err(RankQueryError::NoChange),
    }
}

/// The answer as a result.
pub open spec fn or_no_change(found: Option<u64>) -> Result<u64, RankQueryError> {
    match found {
        Some(key) => Ok(key),
        None => Err(RankQueryError::NoChange),
    }
}

impl<'a> Canvas<'a> {
    /// The time of the `n`-th change of a rectangle is the answer over its
    /// lanes: forward the `n`-th smallest timestamp itself, backward the time
    /// that the `n`-th smallest distance from the largest `u64` stands for.
    pub proof fn lemma_nth_change(&self, n: int, x1: int, x2: int, y1: int, y2: int)
        ensures
            self.prev_nth_change(n, x1, x2, y1, y2) == time_of(
                answer(self.lanes(x1, x2, y1, y2, false), n),
            ),
            self.next_nth_change(n, x1, x2, y1, y2) == or_no_change(
                answer(self.lanes(x1, x2, y1, y2, true), n),
            ),
    {
        let lanes = self.prev_lanes(x1, x2, y1, y2);
        let keys = flat(mirror_each(lanes));
        lemma_mirror_flat_count(lanes, 0);
        if n >= 1 && keys.len() > 0 {
            let k = capped(n, keys.len() as int);
            let key = crate::rank::nth_smallest(keys, k);
            lemma_nth(keys, k, key);
            lemma_mirror_nth(lanes, k, key);
        }
    }

    /// The time of the `n`-th next change within the rectangle of the columns
    /// from `x1` up to, not including, `x2` and the rows from `y1` up to, not
    /// including, `y2`. Up to `n` candidates are gathered from every cell.
    pub fn next_nth_pixel_change(&self, n: usize, x1: usize, x2: usize, y1: usize, y2: usize) -> (r:
        Result<u64, RankQueryError>)
        requires
            self.wf(),
            x1 < x2 && y1 < y2 ==> x2 <= self.dataset@.width && y2 <= self.dataset@.height,
        ensures
            r == self.next_nth_change(n as int, x1 as int, x2 as int, y1 as int, y2 as int),
    {
        proof {
            self.lemma_nth_change(n as int, x1 as int, x2 as int, y1 as int, y2 as int);
        }
        match self.nth_by_candidates(true, n, x1, x2, y1, y2) {
            Some(timestamp) => Ok(timestamp),
            None => Err(RankQueryError::NoChange),
        }
    }

    /// The time of the `n`-th next change within a rectangle, found while
    /// keeping no more than the `n` best candidates and those of one cell.
    pub fn next_nth_pixel_change_low_mem(
        &self,
        n: usize,
        x1: usize,
        x2: usize,
        y1: usize,
        y2: usize,
    ) -> (r: Result<u64, RankQueryError>)
        requires
            self.wf(),
            x1 < x2 && y1 < y2 ==> x2 <= self.dataset@.width && y2 <= self.dataset@.height,
        ensures
            r == self.next_nth_change(n as int, x1 as int, x2 as int, y1 as int, y2 as int),
    {
        proof {
            self.lemma_nth_change(n as int, x1 as int, x2 as int, y1 as int, y2 as int);
        }
        match self.nth_by_trimming(true, n, x1, x2, y1, y2) {
            Some(timestamp) => Ok(timestamp),
            None => Err(RankQueryError::NoChange),
        }
    }

    /// The time of the `n`-th next change within a rectangle, found by
    /// counting.
    pub fn next_nth_pixel_change_fast(
        &self,
        n: usize,
        x1: usize,
        x2: usize,
        y1: usize,
        y2: usize,
    ) -> (r: Result<u64, RankQueryError>)
        requires
            self.wf(),
            x1 < x2 && y1 < y2 ==> x2 <= self.dataset@.width && y2 <= self.dataset@.height,
        ensures
            r == self.next_nth_change(n as int, x1 as int, x2 as int, y1 as int, y2 as int),
    {
        proof {
            self.lemma_nth_change(n as int, x1 as int, x2 as int, y1 as int, y2 as int);
        }
        let mut scratch = RankScratch::new();
        self.next_nth_pixel_change_fast_with(n, x1, x2, y1, y2, &mut scratch)
    }

    /// The time of the `n`-th next change within a rectangle, found by
    /// counting in memory that the caller hands in.
    pub fn next_nth_pixel_change_fast_with(
        &self,
        n: usize,
        x1: usize,
        x2: usize,
        y1: usize,
        y2: usize,
        scratch: &mut RankScratch,
    ) -> (r: Result<u64, RankQueryError>)
        requires
            self.wf(),
            x1 < x2 && y1 < y2 ==> x2 <= self.dataset@.width && y2 <= self.dataset@.height,
        ensures
            r == self.next_nth_change(n as int, x1 as int, x2 as int, y1 as int, y2 as int),
    {
        proof {
            self.lemma_nth_change(n as int, x1 as int, x2 as int, y1 as int, y2 as int);
        }
        match self.nth_by_counting(true, n, x1, x2, y1, y2, scratch) {
            Some(timestamp) => Ok(timestamp),
            None => Err(RankQueryError::NoChange),
        }
    }

    /// The time of the `n`-th previous change within the rectangle of the
    /// columns from `x1` up to, not including, `x2` and the rows from `y1` up
    /// to, not including, `y2`. Up to `n` candidates are gathered from every
    /// cell.
    pub fn prev_nth_pixel_change(&self, n: usize, x1: usize, x2: usize, y1: usize, y2: usize) -> (r:
        Result<u64, RankQueryError>)
        requires
            self.wf(),
            x1 < x2 && y1 < y2 ==> x2 <= self.dataset@.width && y2 <= self.dataset@.height,
        ensures
            r == self.prev_nth_change(n as int, x1 as int, x2 as int, y1 as int, y2 as int),
    {
        proof {
            self.lemma_nth_change(n as int, x1 as int, x2 as int, y1 as int, y2 as int);
        }
        match self.nth_by_candidates(false, n, x1, x2, y1, y2) {
            Some(key) => Ok(u64::MAX - key),
            None => Err(RankQueryError::NoChange),
        }
    }

    /// The time of the `n`-th previous change within a rectangle, found while
    /// keeping no more than the `n` best candidates and those of one cell.
    pub fn prev_nth_pixel_change_low_mem(
        &self,
        n: usize,
        x1: usize,
        x2: usize,
        y1: usize,
        y2: usize,
    ) -> (r: Result<u64, RankQueryError>)
        requires
            self.wf(),
            x1 < x2 && y1 < y2 ==> x2 <= self.dataset@.width && y2 <= self.dataset@.height,
        ensures
            r == self.prev_nth_change(n as int, x1 as int, x2 as int, y1 as int, y2 as int),
    {
        proof {
            self.lemma_nth_change(n as int, x1 as int, x2 as int, y1 as int, y2 as int);
        }
        match self.nth_by_trimming(false, n, x1, x2, y1, y2) {
            Some(key) => Ok(u64::MAX - key),
            None => Err(RankQueryError::NoChange),
        }
    }

    /// The time of the `n`-th previous change within a rectangle, found by
    /// counting.
    pub fn prev_nth_pixel_change_fast(
        &self,
        n: usize,
        x1: usize,
        x2: usize,
        y1: usize,
        y2: usize,
    ) -> (r: Result<u64, RankQueryError>)
        requires
            self.wf(),
            x1 < x2 && y1 < y2 ==> x2 <= self.dataset@.width && y2 <= self.dataset@.height,
        ensures
            r == self.prev_nth_change(n as int, x1 as int, x2 as int, y1 as int, y2 as int),
    {
        proof {
            self.lemma_nth_change(n as int, x1 as int, x2 as int, y1 as int, y2 as int);
        }
        let mut scratch = RankScratch::new();
        self.prev_nth_pixel_change_fast_with(n, x1, x2, y1, y2, &mut scratch)
    }

    /// The time of the `n`-th previous change within a rectangle, found by
    /// counting in memory that the caller hands in.
    pub fn prev_nth_pixel_change_fast_with(
        &self,
        n: usize,
        x1: usize,
        x2: usize,
        y1: usize,
        y2: usize,
        scratch: &mut RankScratch,
    ) -> (r: Result<u64, RankQueryError>)
        requires
            self.wf(),
            x1 < x2 && y1 < y2 ==> x2 <= self.dataset@.width && y2 <= self.dataset@.height,
        ensures
            r == self.prev_nth_change(n as int, x1 as int, x2 as int, y1 as int, y2 as int),
    {
        proof {
            self.lemma_nth_change(n as int, x1 as int, x2 as int, y1 as int, y2 as int);
        }
        match self.nth_by_counting(false, n, x1, x2, y1, y2, scratch) {
            Some(key) => Ok(u64::MAX - key),
            None => Err(RankQueryError::NoChange),
        }
    }
}

impl<'a> Canvas<'a> {
    /// The strategy of bounded candidates and the strategy of selection by
    /// counting give the same time, for every `n` and in both directions: the
    /// time of the `n`-th next change, and of the `n`-th previous change.
    pub proof fn lemma_queries_agree(&self, n: int, x1: int, x2: int, y1: int, y2: int)
        requires
            self.wf(),
            x1 < x2 && y1 < y2 ==> 0 <= x1 && x2 <= self.dataset@.width && 0 <= y1 && y2
                <= self.dataset@.height,
        ensures
            or_no_change(answer_by_candidates(self.lanes(x1, x2, y1, y2, true), n))
                == self.next_nth_change(n, x1, x2, y1, y2),
            or_no_change(answer_by_counting(self.lanes(x1, x2, y1, y2, true), n))
                == self.next_nth_change(n, x1, x2, y1, y2),
            time_of(answer_by_candidates(self.lanes(x1, x2, y1, y2, false), n))
                == self.prev_nth_change(n, x1, x2, y1, y2),
            time_of(answer_by_counting(self.lanes(x1, x2, y1, y2, false), n))
                == self.prev_nth_change(n, x1, x2, y1, y2),
    {
        self.lemma_nth_change(n, x1, x2, y1, y2);
        if x1 < x2 && y1 < y2 {
            self.lemma_lanes(x1, x2, y1, y2, true);
            self.lemma_lanes(x1, x2, y1, y2, false);
        }
        lemma_strategies_agree(self.lanes(x1, x2, y1, y2, true), n);
        lemma_strategies_agree(self.lanes(x1, x2, y1, y2, false), n);
    }
}

} // verus!
