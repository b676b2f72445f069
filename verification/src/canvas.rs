//! The canvas at one moment: for every cell the edit that is in effect, and
//! the operations that move the moment.

use crate::dataset::RPlaceDatasetDatapoint;
use crate::pixel::PixelColor;
use crate::reader::custom::{
    is_floor, lemma_floor_unique, lemma_history_valid, DatasetView, History, SerializedDataset,
};
use vstd::prelude::*;

verus! {

/// What a cell shows: its color, the position in the cell's history of the
/// edit that gave it, and the moment that the cell was last moved to.
#[derive(Debug, Clone, Copy, PartialEq, Eq, Structural)]
pub struct CanvasPixel {
    pub color: PixelColor,
    pub datapoint_history_idx: usize,
    pub timestamp: u64,
}

impl CanvasPixel {
    /// A cell at the head of its history, at the moment `timestamp`.
    pub fn new(color: PixelColor, timestamp: u64) -> (p: CanvasPixel)
        ensures
            p == (CanvasPixel { color, datapoint_history_idx: 0, timestamp }),
    {
        CanvasPixel { color, datapoint_history_idx: 0, timestamp }
    }

    /// A cell at the head of its history, at the moment 0.
    pub fn new_with_color(color: PixelColor) -> (p: CanvasPixel)
        ensures
            p == (CanvasPixel { color, datapoint_history_idx: 0, timestamp: 0 }),
    {
        CanvasPixel { color, datapoint_history_idx: 0, timestamp: 0 }
    }
}

/// Whether `p` shows a cell with history `h` as it was at the moment
/// `p.timestamp`: it names the last edit dated at or before that moment, or
/// the sentinel where the moment lies before all edits, and has the color of
/// the edit that it names.
pub open spec fn is_cursor(h: History, p: CanvasPixel) -> bool {
    &&& p.datapoint_history_idx < h.len()
    &&& p.color == h[p.datapoint_history_idx as int].color
    &&& p.datapoint_history_idx == 0 || h[p.datapoint_history_idx as int].timestamp <= p.timestamp
    &&& p.datapoint_history_idx + 1 < h.len() ==> h[p.datapoint_history_idx + 1].timestamp
        > p.timestamp
}

/// A history in ascending order is shown at a given moment in one way only.
pub proof fn lemma_cursor_unique(h: History, p: CanvasPixel, q: CanvasPixel)
    requires
        forall|i: int, j: int| 0 <= i <= j < h.len() ==> h[i].timestamp <= h[j].timestamp,
        is_cursor(h, p),
        is_cursor(h, q),
        p.timestamp == q.timestamp,
    ensures
        p == q,
{
    let a = p.datapoint_history_idx as int;
    let b = q.datapoint_history_idx as int;
    if a < b {
        assert(h[a + 1].timestamp <= h[b].timestamp);
    }
    if b < a {
        assert(h[b + 1].timestamp <= h[a].timestamp);
    }
}

/// Whether the cell `(x, y)` lies in the rectangle of the columns from `x1` up
/// to, not including, `x2` and the rows from `y1` up to, not including, `y2`.
pub open spec fn in_rect(x: int, y: int, x1: int, x2: int, y1: int, y2: int) -> bool {
    x1 <= x < x2 && y1 <= y < y2
}

/// Whether a grid of cells has the shape of the canvas and shows every cell
/// as it was at some moment.
pub open spec fn shows(pixels: Seq<Vec<CanvasPixel>>, v: DatasetView) -> bool {
    &&& pixels.len() == v.height
    &&& forall|y: int| 0 <= y < v.height ==> (#[trigger] pixels[y])@.len() == v.width
    &&& forall|x: int, y: int|
        0 <= x < v.width && 0 <= y < v.height ==> is_cursor(
            v.history(x, y),
            #[trigger] pixels[y]@[x],
        )
}

/// Whether `post` is `pre` with the cells of a rectangle moved to the moment
/// `t`, and all other cells as they were.
pub open spec fn moved(
    pre: Seq<Vec<CanvasPixel>>,
    post: Seq<Vec<CanvasPixel>>,
    v: DatasetView,
    t: u64,
    x1: int,
    x2: int,
    y1: int,
    y2: int,
) -> bool {
    &&& post.len() == pre.len()
    &&& forall|y: int| 0 <= y < pre.len() ==> (#[trigger] post[y])@.len() == pre[y]@.len()
    &&& forall|x: int, y: int|
        0 <= y < pre.len() && 0 <= x < pre[y]@.len() ==> if in_rect(x, y, x1, x2, y1, y2) {
            is_cursor(v.history(x, y), #[trigger] post[y]@[x]) && post[y]@[x].timestamp == t
        } else {
            post[y]@[x] == pre[y]@[x]
        }
}

/// Moves one cell to the moment `timestamp`: what the cell `(x, y)` shows
/// then, given what it shows now. A move forward searches from the edit in
/// effect on, a move back up to it.
pub fn adjust_pixel(
    dataset: &SerializedDataset,
    timestamp: u64,
    x: usize,
    y: usize,
    pixel: &CanvasPixel,
) -> (r: CanvasPixel)
    requires
        dataset.wf(),
        dataset@.has_cell(x as int, y as int),
        is_cursor(dataset@.history(x as int, y as int), *pixel),
    ensures
        is_cursor(dataset@.history(x as int, y as int), r),
        r.timestamp == timestamp,
{
    proof {
        dataset.lemma_wf();
        lemma_history_valid(dataset@, x as int, y as int);
    }
    let current_idx = pixel.datapoint_history_idx;
    if timestamp == pixel.timestamp {
        return *pixel;
    }
    let (start_idx, end_idx) = if timestamp > pixel.timestamp {
        (current_idx, dataset.datapoint_history_len(x as u32, y as u32))
    } else {
        (0, current_idx + 1)
    };
    let (search_idx, search_datapoint) = dataset.search(
        timestamp,
        x,
        y,
        start_idx,
        end_idx,
        pixel,
    );
    CanvasPixel {
        color: search_datapoint.color,
        datapoint_history_idx: search_idx,
        timestamp,
    }
}

/// The canvas at one moment.
#[derive(Debug)]
pub struct Canvas<'a> {
    /// The cells, row by row.
    pub pixels: Vec<Vec<CanvasPixel>>,
    /// The file that the cells are read from.
    pub dataset: SerializedDataset<'a>,
    /// The time of the first edit.
    pub min_timestamp: u64,
    /// The time of the last edit.
    pub max_timestamp: u64,
    /// The moment that the canvas was last moved to.
    pub timestamp: u64,
}

impl<'a> Canvas<'a> {
    /// Whether the canvas stands on a well-formed store and every cell shows
    /// its history at some moment.
    pub open spec fn wf(&self) -> bool {
        &&& self.dataset.wf()
        &&& self.min_timestamp == self.dataset@.min_timestamp
        &&& self.max_timestamp == self.dataset@.max_timestamp
        &&& shows(self.pixels@, self.dataset@)
    }

    /// What the cell `(x, y)` shows.
    pub open spec fn pixel(&self, x: int, y: int) -> CanvasPixel {
        self.pixels@[y]@[x]
    }

    /// The canvas before any edit: every cell shows its sentinel, at the
    /// moment just before the first edit.
    pub fn new_with_dataset(dataset: SerializedDataset<'a>) -> (canvas: Canvas<'a>)
        requires
            dataset.wf(),
        ensures
            canvas.wf(),
            canvas.dataset == dataset,
            canvas.timestamp == dataset@.min_timestamp - 1,
            forall|x: int, y: int|
                dataset@.has_cell(x, y) ==> #[trigger] canvas.pixel(x, y) == (CanvasPixel {
                    color: dataset@.history(x, y)[0].color,
                    datapoint_history_idx: 0,
                    timestamp: (dataset@.min_timestamp - 1) as u64,
                }),
    {
        proof {
            dataset.lemma_wf();
        }
        let min_timestamp = dataset.metadata().min_timestamp;
        let max_timestamp = dataset.metadata().max_timestamp;
        let width = dataset.metadata().canvas_width as usize;
        let height = dataset.metadata().canvas_height as usize;
        let start = min_timestamp - 1;
        let mut pixels: Vec<Vec<CanvasPixel>> = Vec::new();
        let mut y: usize = 0;
        while y < height
            invariant
                dataset.wf(),
                dataset@.wf(),
                width == dataset@.width,
                height == dataset@.height,
                start == dataset@.min_timestamp - 1,
                y <= height,
                pixels@.len() == y,
                forall|b: int| 0 <= b < y ==> (#[trigger] pixels@[b])@.len() == width,
                forall|a: int, b: int|
                    0 <= a < width && 0 <= b < y ==> #[trigger] pixels@[b]@[a] == (CanvasPixel {
                        color: dataset@.history(a, b)[0].color,
                        datapoint_history_idx: 0,
                        timestamp: start,
                    }),
            decreases height - y,
        {
            let mut row: Vec<CanvasPixel> = Vec::new();
            let mut x: usize = 0;
            while x < width
                invariant
                    dataset.wf(),
                    dataset@.wf(),
                    width == dataset@.width,
                    height == dataset@.height,
                    y < height,
                    x <= width,
                    row@.len() == x,
                    forall|a: int|
                        0 <= a < x ==> #[trigger] row@[a] == (CanvasPixel {
                            color: dataset@.history(a, y as int)[0].color,
                            datapoint_history_idx: 0,
                            timestamp: start,
                        }),
                decreases width - x,
            {
                proof {
                    lemma_history_valid(dataset@, x as int, y as int);
                }
                let sentinel = dataset.datapoint_with_xy_and_idx(x as u32, y as u32, 0);
                row.push(CanvasPixel::new(sentinel.color, start));
                x += 1;
            }
            pixels.push(row);
            y += 1;
        }
        proof {
            assert forall|a: int, b: int| 0 <= a < width && 0 <= b < height implies is_cursor(
                dataset@.history(a, b),
                #[trigger] pixels@[b]@[a],
            ) by {
                lemma_history_valid(dataset@, a, b);
                let h = dataset@.history(a, b);
                if 1 < h.len() {
                    assert(h[1].timestamp >= dataset@.min_timestamp);
                }
            }
        }
        Canvas { pixels, dataset, min_timestamp, max_timestamp, timestamp: start }
    }

    /// The number of rows.
    pub fn height(&self) -> (h: u32)
        requires
            self.wf(),
        ensures
            h == self.dataset@.height,
    {
        proof {
            self.dataset.lemma_wf();
        }
        self.pixels.len() as u32
    }

    /// The number of columns.
    pub fn width(&self) -> (w: u32)
        requires
            self.wf(),
        ensures
            w == self.dataset@.width,
    {
        proof {
            self.dataset.lemma_wf();
        }
        self.pixels[0].len() as u32
    }
}

/// The number of workers that the rows of a rectangle are dealt out to.
pub const WORKERS: usize = 8;

/// The number of rows that each worker but the last takes of `rows` rows:
/// the eighth part, rounded up.
pub fn chunk_size(rows: usize) -> (chunk: usize)
    requires
        rows > 0,
    ensures
        chunk == (rows + WORKERS - 1) / (WORKERS as int),
        chunk >= 1,
        chunk * WORKERS >= rows,
        (chunk - 1) * WORKERS < rows,
{
    (rows - 1) / WORKERS + 1
}

/// Whether `post` is `pre` with the cells of the rows from `y1` up to `y`
/// moved within the columns from `x1` to `x2`, and in row `y` those up to
/// column `x`.
pub open spec fn moved_so_far(
    pre: Seq<Vec<CanvasPixel>>,
    post: Seq<Vec<CanvasPixel>>,
    v: DatasetView,
    t: u64,
    x1: int,
    x2: int,
    y1: int,
    y: int,
    x: int,
) -> bool {
    &&& post.len() == pre.len()
    &&& forall|b: int| 0 <= b < pre.len() ==> (#[trigger] post[b])@.len() == pre[b]@.len()
    &&& forall|a: int, b: int|
        0 <= b < pre.len() && 0 <= a < pre[b]@.len() ==> if in_rect(a, b, x1, x2, y1, y) || (b == y
            && x1 <= a < x) {
            is_cursor(v.history(a, b), #[trigger] post[b]@[a]) && post[b]@[a].timestamp == t
        } else {
            post[b]@[a] == pre[b]@[a]
        }
}

impl<'a> Canvas<'a> {
    /// Moves the cells of the rows from `y1` up to, not including, `y2`,
    /// within the columns from `x1` up to, not including, `x2`, to the moment
    /// `timestamp`. This is the work of one worker.
    pub fn adjust_rows(&mut self, timestamp: u64, x1: usize, x2: usize, y1: usize, y2: usize)
        requires
            old(self).wf(),
            x1 <= x2 <= old(self).dataset@.width,
            y1 <= y2 <= old(self).dataset@.height,
        ensures
            final(self).wf(),
            final(self).dataset == old(self).dataset,
            final(self).min_timestamp == old(self).min_timestamp,
            final(self).max_timestamp == old(self).max_timestamp,
            final(self).timestamp == old(self).timestamp,
            moved(
                old(self).pixels@,
                final(self).pixels@,
                old(self).dataset@,
                timestamp,
                x1 as int,
                x2 as int,
                y1 as int,
                y2 as int,
            ),
    {
        let ghost pre = self.pixels@;
        let ghost v = self.dataset@;
        proof {
            self.dataset.lemma_wf();
        }
        let mut y = y1;
        while y < y2
            invariant
                self.dataset == old(self).dataset,
                self.min_timestamp == old(self).min_timestamp,
                self.max_timestamp == old(self).max_timestamp,
                self.timestamp == old(self).timestamp,
                self.dataset.wf(),
                v == self.dataset@,
                v.wf(),
                pre == old(self).pixels@,
                shows(pre, v),
                x1 <= x2 <= v.width,
                y1 <= y <= y2 <= v.height,
                moved_so_far(
                    pre,
                    self.pixels@,
                    v,
                    timestamp,
                    x1 as int,
                    x2 as int,
                    y1 as int,
                    y as int,
                    x1 as int,
                ),
            decreases y2 - y,
        {
            let mut x = x1;
            while x < x2
                invariant
                    self.dataset == old(self).dataset,
                    self.min_timestamp == old(self).min_timestamp,
                    self.max_timestamp == old(self).max_timestamp,
                    self.timestamp == old(self).timestamp,
                    self.dataset.wf(),
                    v == self.dataset@,
                    v.wf(),
                    pre == old(self).pixels@,
                    shows(pre, v),
                    x1 <= x <= x2 <= v.width,
                    y1 <= y < y2 <= v.height,
                    moved_so_far(
                        pre,
                        self.pixels@,
                        v,
                        timestamp,
                        x1 as int,
                        x2 as int,
                        y1 as int,
                        y as int,
                        x as int,
                    ),
                decreases x2 - x,
            {
                let ghost before = self.pixels@;
                assert(before[y as int]@[x as int] == pre[y as int]@[x as int]);
                let pixel = self.pixels[y][x];
                let adjusted = adjust_pixel(&self.dataset, timestamp, x, y, &pixel);
                self.pixels[y][x] = adjusted;
                proof {
                    let after = self.pixels@;
                    assert(after[y as int]@ == before[y as int]@.update(x as int, adjusted));
                    assert forall|a: int, b: int|
                        0 <= b < pre.len() && 0 <= a < pre[b]@.len() implies if in_rect(
                        a,
                        b,
                        x1 as int,
                        x2 as int,
                        y1 as int,
                        y as int,
                    ) || (b == y && x1 <= a < x + 1) {
                        is_cursor(v.history(a, b), #[trigger] after[b]@[a]) && after[b]@[a].timestamp
                            == timestamp
                    } else {
                        after[b]@[a] == pre[b]@[a]
                    } by {
                        if b == y && a == x {
                        } else {
                            assert(after[b]@[a] == before[b]@[a]);
                        }
                    }
                }
                x += 1;
            }
            y += 1;
        }
    }

    /// Moves the cells of a rectangle, the columns from `x1` up to, not
    /// including, `x2` of the rows from `y1` up to, not including, `y2`, to the
    /// moment `timestamp`. An empty rectangle changes nothing. The rows are
    /// dealt out in `WORKERS` runs of `chunk_size` rows, and each run is moved
    /// by `adjust_rows`.
    pub fn adjust_timestamp(&mut self, timestamp: u64, x1: usize, x2: usize, y1: usize, y2: usize)
        requires
            old(self).wf(),
            x1 < x2 && y1 < y2 ==> x2 <= old(self).dataset@.width && y2 <= old(self).dataset@.height,
        ensures
            final(self).wf(),
            retargeted(
                *old(self),
                *final(self),
                timestamp,
                x1 as int,
                x2 as int,
                y1 as int,
                y2 as int,
            ),
    {
        if x1 >= x2 || y1 >= y2 {
            return ;
        }
        let ghost pre = self.pixels@;
        let ghost v = self.dataset@;
        let chunk = chunk_size(y2 - y1);
        let mut first = y1;
        while first < y2
            invariant
                self.wf(),
                self.dataset == old(self).dataset,
                self.min_timestamp == old(self).min_timestamp,
                self.max_timestamp == old(self).max_timestamp,
                self.timestamp == old(self).timestamp,
                v == self.dataset@,
                pre == old(self).pixels@,
                x1 < x2 <= v.width,
                y1 <= first <= y2 <= v.height,
                chunk >= 1,
                moved(
                    pre,
                    self.pixels@,
                    v,
                    timestamp,
                    x1 as int,
                    x2 as int,
                    y1 as int,
                    first as int,
                ),
            decreases y2 - first,
        {
            let last = if y2 - first > chunk {
                first + chunk
            } else {
                y2
            };
            let ghost before = self.pixels@;
            self.adjust_rows(timestamp, x1, x2, first, last);
            proof {
                let after = self.pixels@;
                assert forall|a: int, b: int|
                    0 <= b < pre.len() && 0 <= a < pre[b]@.len() implies if in_rect(
                    a,
                    b,
                    x1 as int,
                    x2 as int,
                    y1 as int,
                    last as int,
                ) {
                    is_cursor(v.history(a, b), #[trigger] after[b]@[a]) && after[b]@[a].timestamp
                        == timestamp
                } else {
                    after[b]@[a] == pre[b]@[a]
                } by {
                    assert(before[b]@.len() == pre[b]@.len());
                    if !in_rect(a, b, x1 as int, x2 as int, first as int, last as int) {
                        assert(after[b]@[a] == before[b]@[a]);
                    }
                }
            }
            first = last;
        }
        self.timestamp = timestamp;
    }
}

/// Whether `post` is `pre` after the cells of a rectangle were moved to the
/// moment `t`: nothing has changed where the rectangle is empty; else every
/// cell in it shows its history at `t`, every other cell is as it was, and
/// the canvas is at `t`.
pub open spec fn retargeted(
    pre: Canvas,
    post: Canvas,
    t: u64,
    x1: int,
    x2: int,
    y1: int,
    y2: int,
) -> bool {
    if x1 >= x2 || y1 >= y2 {
        post == pre
    } else {
        &&& post.dataset == pre.dataset
        &&& post.min_timestamp == pre.min_timestamp
        &&& post.max_timestamp == pre.max_timestamp
        &&& post.timestamp == t
        &&& moved(pre.pixels@, post.pixels@, pre.dataset@, t, x1, x2, y1, y2)
    }
}

/// After the whole canvas was moved to a moment, a search of a cell's whole
/// history for that moment, whatever hint it is given, names the edit that
/// the cell shows: the position is the cell's, and the edit has the cell's
/// color.
pub proof fn lemma_search_agrees_with_cursor(
    pre: Canvas,
    post: Canvas,
    t: u64,
    x: int,
    y: int,
    found: (usize, RPlaceDatasetDatapoint),
)
    requires
        pre.wf(),
        retargeted(pre, post, t, 0, pre.dataset@.width as int, 0, pre.dataset@.height as int),
        pre.dataset@.has_cell(x, y),
        is_floor(
            pre.dataset@.timestamps(x, y),
            0,
            pre.dataset@.history(x, y).len() as int,
            t,
            found.0 as int,
        ),
        found.1 == pre.dataset@.history(x, y)[found.0 as int],
    ensures
        post.pixel(x, y).datapoint_history_idx == found.0,
        post.pixel(x, y).color == found.1.color,
        post.pixel(x, y).timestamp == t,
{
    pre.dataset.lemma_wf();
    let v = pre.dataset@;
    lemma_history_valid(v, x, y);
    let ts = v.timestamps(x, y);
    let p = post.pixel(x, y);
    assert(in_rect(x, y, 0, v.width as int, 0, v.height as int));
    assert(is_cursor(v.history(x, y), post.pixels@[y]@[x]));
    assert(is_floor(ts, 0, ts.len() as int, t, p.datapoint_history_idx as int));
    lemma_floor_unique(ts, 0, ts.len() as int, t, p.datapoint_history_idx as int, found.0 as int);
}

/// What a rectangle of cells shows after it was moved to a moment does not
/// depend on where it was moved before: moving it to `t1`, then to `t3`, then
/// to `t2` leaves every cell of the canvas as moving it to `t2` at once does.
pub proof fn lemma_retarget_order_independent(
    start: Canvas,
    first: Canvas,
    second: Canvas,
    third: Canvas,
    direct: Canvas,
    t1: u64,
    t2: u64,
    t3: u64,
    x1: int,
    x2: int,
    y1: int,
    y2: int,
)
    requires
        start.wf(),
        retargeted(start, first, t1, x1, x2, y1, y2),
        retargeted(first, second, t3, x1, x2, y1, y2),
        retargeted(second, third, t2, x1, x2, y1, y2),
        retargeted(start, direct, t2, x1, x2, y1, y2),
    ensures
        third.timestamp == direct.timestamp,
        third.dataset == direct.dataset,
        third.pixels@.len() == direct.pixels@.len(),
        forall|x: int, y: int|
            start.dataset@.has_cell(x, y) ==> #[trigger] third.pixel(x, y) == direct.pixel(x, y),
{
    start.dataset.lemma_wf();
    let v = start.dataset@;
    if x1 >= x2 || y1 >= y2 {
    } else {
        assert forall|x: int, y: int| v.has_cell(x, y) implies #[trigger] third.pixel(x, y)
            == direct.pixel(x, y) by {
            lemma_history_valid(v, x, y);
            assert(first.pixels@[y]@.len() == start.pixels@[y]@.len());
            assert(second.pixels@[y]@.len() == start.pixels@[y]@.len());
            if in_rect(x, y, x1, x2, y1, y2) {
                assert(is_cursor(v.history(x, y), third.pixels@[y]@[x]));
                assert(is_cursor(v.history(x, y), direct.pixels@[y]@[x]));
                lemma_cursor_unique(v.history(x, y), third.pixel(x, y), direct.pixel(x, y));
            } else {
                assert(first.pixels@[y]@[x] == start.pixels@[y]@[x]);
                assert(second.pixels@[y]@[x] == first.pixels@[y]@[x]);
                assert(third.pixels@[y]@[x] == second.pixels@[y]@[x]);
                assert(direct.pixels@[y]@[x] == start.pixels@[y]@[x]);
            }
        }
    }
}

} // verus!
