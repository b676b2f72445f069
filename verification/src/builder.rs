//! Building a canvas file from the edits in the order in which they happened.
//!
//! The builder keeps one history for each cell. Every history starts with the
//! sentinel; the first edit that arrives dates the sentinels one unit before
//! itself. When all edits have arrived, the histories are laid out one after
//! the other, row by row, and the place of each is written into the header.

use crate::data::RPlaceDatapoint;
use crate::dataset::{RPlaceDataset, RPlaceDatasetDatapoint};
use crate::pixel::PixelColor;
use crate::reader::custom::{
    edit_position, file_count, file_entry, file_view, lemma_cell_number, valid_file, valid_history,
    PrecompressedDatapointHistoryMetadata, PrecompressedDataset, PrecompressedDatasetData,
    PrecompressedDatasetMetadata, MAX_CELLS,
};
use vstd::prelude::*;

verus! {

/// Why no file can be built.
#[derive(Clone, Copy, Debug, PartialEq, Eq, Structural)]
pub enum IngestionError {
    /// No edit has arrived, so the canvas has no first and no last moment.
    EmptySource,
}

/// The number of edits in the histories of a row of cells.
pub open spec fn row_len(row: Seq<Vec<RPlaceDatasetDatapoint>>) -> nat
    decreases row.len(),
{
    if row.len() == 0 {
        0
    } else {
        row_len(row.drop_last()) + row.last()@.len()
    }
}

/// The number of edits in the histories of all cells.
pub open spec fn grid_len(data: Seq<Vec<Vec<RPlaceDatasetDatapoint>>>) -> nat
    decreases data.len(),
{
    if data.len() == 0 {
        0
    } else {
        grid_len(data.drop_last()) + row_len(data.last()@)
    }
}

/// The sentinel of a canvas whose first edit is dated `min_timestamp`.
pub open spec fn sentinel(min_timestamp: u64) -> RPlaceDatasetDatapoint {
    RPlaceDatasetDatapoint {
        timestamp: (min_timestamp - 1) as u64,
        ..RPlaceDatasetDatapoint::start_spec()
    }
}

/// The edit as it is stored.
pub open spec fn stored(record: RPlaceDatapoint) -> RPlaceDatasetDatapoint {
    RPlaceDatasetDatapoint {
        timestamp: record.timestamp,
        user_id: record.user_id,
        color: record.color,
        is_mod: record.is_mod,
    }
}

/// Rows whose histories are as long, cell by cell, hold as many edits.
proof fn lemma_row_len_same(
    a: Seq<Vec<RPlaceDatasetDatapoint>>,
    b: Seq<Vec<RPlaceDatasetDatapoint>>,
)
    requires
        a.len() == b.len(),
        forall|x: int| 0 <= x < a.len() ==> (#[trigger] a[x])@.len() == b[x]@.len(),
    ensures
        row_len(a) == row_len(b),
    decreases a.len(),
{
    if a.len() > 0 {
        assert(a.last()@.len() == b.last()@.len()) by {
            assert(a[a.len() - 1]@.len() == b[a.len() - 1]@.len());
        }
        assert forall|x: int|
            0 <= x < a.drop_last().len() implies (#[trigger] a.drop_last()[x])@.len()
            == b.drop_last()[x]@.len() by {
            assert(a[x]@.len() == b[x]@.len());
        }
        lemma_row_len_same(a.drop_last(), b.drop_last());
    }
}

/// A row in which one history has one edit more holds one edit more.
proof fn lemma_row_len_one_more(
    a: Seq<Vec<RPlaceDatasetDatapoint>>,
    b: Seq<Vec<RPlaceDatasetDatapoint>>,
    at: int,
)
    requires
        a.len() == b.len(),
        0 <= at < a.len(),
        b[at]@.len() == a[at]@.len() + 1,
        forall|x: int| 0 <= x < a.len() && x != at ==> (#[trigger] a[x])@.len() == b[x]@.len(),
    ensures
        row_len(b) == row_len(a) + 1,
    decreases a.len(),
{
    let last = a.len() - 1;
    if at == last {
        assert forall|x: int|
            0 <= x < a.drop_last().len() implies (#[trigger] a.drop_last()[x])@.len()
            == b.drop_last()[x]@.len() by {
            assert(a[x]@.len() == b[x]@.len());
        }
        lemma_row_len_same(a.drop_last(), b.drop_last());
    } else {
        assert(a[last]@.len() == b[last]@.len());
        assert forall|x: int|
            0 <= x < a.drop_last().len() && x != at implies (#[trigger] a.drop_last()[x])@.len()
            == b.drop_last()[x]@.len() by {
            assert(a[x]@.len() == b[x]@.len());
        }
        assert(a.drop_last()[at] == a[at] && b.drop_last()[at] == b[at]);
        lemma_row_len_one_more(a.drop_last(), b.drop_last(), at);
    }
}

/// Grids whose rows hold as many edits, row by row, hold as many edits.
proof fn lemma_grid_len_same(
    a: Seq<Vec<Vec<RPlaceDatasetDatapoint>>>,
    b: Seq<Vec<Vec<RPlaceDatasetDatapoint>>>,
)
    requires
        a.len() == b.len(),
        forall|y: int| 0 <= y < a.len() ==> row_len((#[trigger] a[y])@) == row_len(b[y]@),
    ensures
        grid_len(a) == grid_len(b),
    decreases a.len(),
{
    if a.len() > 0 {
        assert(row_len(a[a.len() - 1]@) == row_len(b[a.len() - 1]@));
        assert forall|y: int| 0 <= y < a.drop_last().len() implies row_len(
            (#[trigger] a.drop_last()[y])@,
        ) == row_len(b.drop_last()[y]@) by {
            assert(row_len(a[y]@) == row_len(b[y]@));
        }
        lemma_grid_len_same(a.drop_last(), b.drop_last());
    }
}

/// A grid in which one row holds one edit more holds one edit more.
proof fn lemma_grid_len_one_more(
    a: Seq<Vec<Vec<RPlaceDatasetDatapoint>>>,
    b: Seq<Vec<Vec<RPlaceDatasetDatapoint>>>,
    at: int,
)
    requires
        a.len() == b.len(),
        0 <= at < a.len(),
        row_len(b[at]@) == row_len(a[at]@) + 1,
        forall|y: int|
            0 <= y < a.len() && y != at ==> row_len((#[trigger] a[y])@) == row_len(b[y]@),
    ensures
        grid_len(b) == grid_len(a) + 1,
    decreases a.len(),
{
    let last = a.len() - 1;
    if at == last {
        assert forall|y: int| 0 <= y < a.drop_last().len() implies row_len(
            (#[trigger] a.drop_last()[y])@,
        ) == row_len(b.drop_last()[y]@) by {
            assert(row_len(a[y]@) == row_len(b[y]@));
        }
        lemma_grid_len_same(a.drop_last(), b.drop_last());
    } else {
        assert(row_len(a[last]@) == row_len(b[last]@));
        assert forall|y: int| 0 <= y < a.drop_last().len() && y != at implies row_len(
            (#[trigger] a.drop_last()[y])@,
        ) == row_len(b.drop_last()[y]@) by {
            assert(row_len(a[y]@) == row_len(b[y]@));
        }
        assert(a.drop_last()[at] == a[at] && b.drop_last()[at] == b[at]);
        lemma_grid_len_one_more(a.drop_last(), b.drop_last(), at);
    }
}

/// A row holds at least the edits of its first cells, and of any one cell.
proof fn lemma_row_len_part(row: Seq<Vec<RPlaceDatasetDatapoint>>, x: int)
    requires
        0 <= x < row.len(),
    ensures
        row_len(row.take(x + 1)) == row_len(row.take(x)) + row[x]@.len(),
        row_len(row.take(x + 1)) <= row_len(row),
        row_len(row.take(0)) == 0,
        row_len(row.take(row.len() as int)) == row_len(row),
    decreases row.len() - x,
{
    assert(row.take(x + 1).drop_last() == row.take(x));
    assert(row.take(row.len() as int) == row);
    if x + 1 < row.len() {
        lemma_row_len_part(row, x + 1);
    }
}

/// A grid holds at least the edits of its first rows.
proof fn lemma_grid_len_part(data: Seq<Vec<Vec<RPlaceDatasetDatapoint>>>, y: int)
    requires
        0 <= y < data.len(),
    ensures
        grid_len(data.take(y + 1)) == grid_len(data.take(y)) + row_len(data[y]@),
        grid_len(data.take(y + 1)) <= grid_len(data),
        grid_len(data.take(0)) == 0,
        grid_len(data.take(data.len() as int)) == grid_len(data),
    decreases data.len() - y,
{
    assert(data.take(y + 1).drop_last() == data.take(y));
    assert(data.take(data.len() as int) == data);
    if y + 1 < data.len() {
        lemma_grid_len_part(data, y + 1);
    }
}

/// A square grid with one edit in every cell holds as many edits as cells.
proof fn lemma_grid_len_unit(data: Seq<Vec<Vec<RPlaceDatasetDatapoint>>>, size: int, rows: int)
    requires
        0 <= rows <= data.len(),
        0 <= size,
        forall|y: int| 0 <= y < data.len() ==> (#[trigger] data[y])@.len() == size,
        forall|x: int, y: int|
            0 <= y < data.len() && 0 <= x < size ==> (#[trigger] data[y]@[x])@.len() == 1,
    ensures
        grid_len(data.take(rows)) == rows * size,
    decreases rows,
{
    if rows == 0 {
        assert(data.take(0).len() == 0);
        assert(0 * size == 0) by (nonlinear_arith);
    } else {
        lemma_grid_len_unit(data, size, rows - 1);
        lemma_grid_len_part(data, rows - 1);
        lemma_row_len_unit(data[rows - 1]@, size);
        assert(rows * size == (rows - 1) * size + size) by (nonlinear_arith);
    }
}

/// A row with one edit in every cell holds as many edits as cells.
proof fn lemma_row_len_unit(row: Seq<Vec<RPlaceDatasetDatapoint>>, cells: int)
    requires
        0 <= cells <= row.len(),
        forall|x: int| 0 <= x < row.len() ==> (#[trigger] row[x])@.len() == 1,
    ensures
        row_len(row.take(cells)) == cells,
        cells == row.len() ==> row_len(row) == cells,
    decreases cells,
{
    if cells == 0 {
        assert(row.take(0).len() == 0);
    } else {
        lemma_row_len_unit(row, cells - 1);
        lemma_row_len_part(row, cells - 1);
    }
    if cells == row.len() {
        assert(row.take(cells) == row);
    }
}

/// The histories of a square canvas while the edits arrive, with what is
/// known of them: how many edits have arrived, and the times of the first
/// and of the last.
#[derive(Debug)]
pub struct DatasetBuilder {
    pub dataset: RPlaceDataset,
    pub canvas_size: usize,
    pub count: u64,
    pub min_timestamp: u64,
    pub max_timestamp: u64,
}

impl DatasetBuilder {
    /// Whether `(x, y)` is a cell of the canvas.
    pub open spec fn has_cell(&self, x: int, y: int) -> bool {
        0 <= x < self.canvas_size && 0 <= y < self.canvas_size
    }

    /// Whether the builder holds the histories of a canvas: before any edit
    /// has arrived, the one edit `start()` in every cell; after, a valid
    /// history in every cell, with the sentinel dated one unit before the
    /// first edit.
    pub open spec fn wf(&self) -> bool {
        &&& 1 <= self.canvas_size
        &&& self.canvas_size * self.canvas_size <= MAX_CELLS
        &&& self.dataset.is_square(self.canvas_size as int)
        &&& grid_len(self.dataset.data@) == self.count + self.canvas_size * self.canvas_size
        &&& grid_len(self.dataset.data@) <= u32::MAX
        &&& self.count == 0 ==> forall|x: int, y: int|
            self.has_cell(x, y) ==> #[trigger] self.dataset.history(x, y)
                == seq![RPlaceDatasetDatapoint::start_spec()]
        &&& self.count > 0 ==> {
            &&& 1 <= self.min_timestamp <= self.max_timestamp
            &&& forall|x: int, y: int|
                self.has_cell(x, y) ==> valid_history(
                    #[trigger] self.dataset.history(x, y),
                    self.min_timestamp,
                    self.max_timestamp,
                ) && self.dataset.history(x, y)[0].color == PixelColor::Black
        }
    }

    /// A builder for a square canvas of side `canvas_size`, to which no edit
    /// has arrived.
    pub fn new(canvas_size: usize) -> (b: DatasetBuilder)
        requires
            1 <= canvas_size,
            canvas_size * canvas_size <= MAX_CELLS,
        ensures
            b.wf(),
            b.canvas_size == canvas_size,
            b.count == 0,
    {
        let dataset = RPlaceDataset::new_with_initial_datapoint(canvas_size);
        proof {
            assert forall|x: int, y: int|
                0 <= y < dataset.data@.len() && 0 <= x < canvas_size implies (
            #[trigger] dataset.data@[y]@[x])@.len() == 1 by {
                assert(dataset.history(x, y) == seq![RPlaceDatasetDatapoint::start_spec()]);
            }
            lemma_grid_len_unit(dataset.data@, canvas_size as int, canvas_size as int);
            assert(dataset.data@.take(canvas_size as int) == dataset.data@);
        }
        DatasetBuilder {
            dataset,
            canvas_size,
            count: 0,
            min_timestamp: u64::MIN,
            max_timestamp: u64::MAX,
        }
    }
}

impl DatasetBuilder {
    /// The history of a cell as an edit finds it on arrival: the history so
    /// far, or, for the first edit, the sentinel dated one unit before that
    /// edit.
    pub open spec fn on_arrival(&self, x: int, y: int, timestamp: u64) -> Seq<
        RPlaceDatasetDatapoint,
    > {
        if self.count == 0 {
            seq![sentinel(timestamp)]
        } else {
            self.dataset.history(x, y)
        }
    }

    /// Dates the sentinel of every cell one unit before `min_timestamp`.
    fn date_sentinels(&mut self, min_timestamp: u64)
        requires
            old(self).wf(),
            old(self).count == 0,
            1 <= min_timestamp,
        ensures
            final(self).canvas_size == old(self).canvas_size,
            final(self).count == old(self).count,
            final(self).min_timestamp == old(self).min_timestamp,
            final(self).max_timestamp == old(self).max_timestamp,
            final(self).dataset.is_square(final(self).canvas_size as int),
            grid_len(final(self).dataset.data@) == grid_len(old(self).dataset.data@),
            forall|x: int, y: int|
                final(self).has_cell(x, y) ==> #[trigger] final(self).dataset.history(x, y)
                    == seq![sentinel(min_timestamp)],
    {
        let size = self.canvas_size;
        let mut j: usize = 0;
        while j < size
            invariant
                self.canvas_size == old(self).canvas_size,
                self.count == old(self).count,
                self.min_timestamp == old(self).min_timestamp,
                self.max_timestamp == old(self).max_timestamp,
                size == self.canvas_size,
                1 <= min_timestamp,
                j <= size,
                self.dataset.is_square(size as int),
                forall|x: int, y: int|
                    0 <= x < size && 0 <= y < j ==> #[trigger] self.dataset.history(x, y)
                        == seq![sentinel(min_timestamp)],
                forall|x: int, y: int|
                    0 <= x < size && j <= y < size ==> #[trigger] self.dataset.history(x, y)
                        == seq![RPlaceDatasetDatapoint::start_spec()],
            decreases size - j,
        {
            let mut k: usize = 0;
            while k < size
                invariant
                    self.canvas_size == old(self).canvas_size,
                    self.count == old(self).count,
                    self.min_timestamp == old(self).min_timestamp,
                    self.max_timestamp == old(self).max_timestamp,
                    size == self.canvas_size,
                    1 <= min_timestamp,
                    j < size,
                    k <= size,
                    self.dataset.is_square(size as int),
                    forall|x: int, y: int|
                        0 <= x < size && 0 <= y < size ==> #[trigger] self.dataset.history(
                            x,
                            y,
                        ) == if y
                            < j || (y == j && x < k) {
                            seq![sentinel(min_timestamp)]
                        } else {
                            seq![RPlaceDatasetDatapoint::start_spec()]
                        },
                decreases size - k,
            {
                let ghost before = self.dataset;
                assert(before.history(k as int, j as int) == seq![
                    RPlaceDatasetDatapoint::start_spec(),
                ]);
                self.dataset.data[j][k][0].timestamp = min_timestamp - 1;
                proof {
                    assert(self.dataset.history(k as int, j as int) =~= seq![sentinel(min_timestamp)]);
                    assert forall|x: int, y: int|
                        0 <= x < size && 0 <= y < size implies #[trigger] self.dataset.history(
                        x,
                        y,
                    ) == if y < j || (y == j && x < k + 1) {
                        seq![sentinel(min_timestamp)]
                    } else {
                        seq![RPlaceDatasetDatapoint::start_spec()]
                    } by {
                        if !(x == k && y == j) {
                            assert(self.dataset.history(x, y) == before.history(x, y));
                        }
                    }
                }
                k += 1;
            }
            j += 1;
        }
        proof {
            let a = old(self).dataset.data@;
            let b = self.dataset.data@;
            assert forall|y: int| 0 <= y < a.len() implies row_len((#[trigger] a[y])@) == row_len(
                b[y]@,
            ) by {
                assert forall|x: int| 0 <= x < a[y]@.len() implies (#[trigger] a[y]@[x])@.len()
                    == b[y]@[x]@.len() by {
                    assert(old(self).dataset.history(x, y).len() == 1);
                    assert(self.dataset.history(x, y).len() == 1);
                }
                lemma_row_len_same(a[y]@, b[y]@);
            }
            lemma_grid_len_same(a, b);
        }
    }

    /// Takes in the next edit. The edits arrive in the order in which they
    /// happened; the first of them sets the time of the first edit and dates
    /// the sentinels, each sets the time of the last edit.
    pub fn add(&mut self, record: RPlaceDatapoint)
        requires
            old(self).wf(),
            old(self).has_cell(record.coordinate.x as int, record.coordinate.y as int),
            old(self).count + old(self).canvas_size * old(self).canvas_size < u32::MAX,
            1 <= record.timestamp,
            old(self).count > 0 ==> record.timestamp >= old(self).max_timestamp,
        ensures
            final(self).wf(),
            final(self).canvas_size == old(self).canvas_size,
            final(self).count == old(self).count + 1,
            final(self).max_timestamp == record.timestamp,
            final(self).min_timestamp == if old(self).count == 0 {
                record.timestamp
            } else {
                old(self).min_timestamp
            },
            forall|x: int, y: int|
                final(self).has_cell(x, y) ==> #[trigger] final(self).dataset.history(x, y) == if x
                    == record.coordinate.x && y == record.coordinate.y {
                    old(self).on_arrival(x, y, record.timestamp).push(stored(record))
                } else {
                    old(self).on_arrival(x, y, record.timestamp)
                },
    {
        let x = record.coordinate.x as usize;
        let y = record.coordinate.y as usize;
        if self.count == 0 {
            // the sentinels are dated one unit before the first edit
            self.min_timestamp = record.timestamp;
            self.date_sentinels(record.timestamp);
        }
        let ghost mid = self.dataset;
        let ghost min = self.min_timestamp;
        let ghost old_max = self.max_timestamp;
        proof {
            assert forall|a: int, b: int| self.has_cell(a, b) implies #[trigger] mid.history(a, b)
                == old(self).on_arrival(a, b, record.timestamp) by {}
        }
        self.dataset.add(RPlaceDatasetDatapoint::from(record), x, y);
        self.max_timestamp = record.timestamp;
        self.count = self.count + 1;
        proof {
            let a = mid.data@;
            let b = self.dataset.data@;
            assert forall|row: int| 0 <= row < a.len() && row != y implies row_len(
                (#[trigger] a[row])@,
            ) == row_len(b[row]@) by {
                assert forall|col: int| 0 <= col < a[row]@.len() implies (
                #[trigger] a[row]@[col])@.len() == b[row]@[col]@.len() by {
                    assert(b[row]@[col] == a[row]@[col]);
                }
                lemma_row_len_same(a[row]@, b[row]@);
            }
            assert(row_len(b[y as int]@) == row_len(a[y as int]@) + 1) by {
                assert forall|col: int| 0 <= col < a[y as int]@.len() && col != x implies (
                #[trigger] a[y as int]@[col])@.len() == b[y as int]@[col]@.len() by {
                    assert(b[y as int]@[col] == a[y as int]@[col]);
                }
                assert(self.dataset.history(x as int, y as int) == mid.history(
                    x as int,
                    y as int,
                ).push(
                    stored(record),
                ));
                lemma_row_len_one_more(a[y as int]@, b[y as int]@, x as int);
            }
            lemma_grid_len_one_more(a, b, y as int);
            assert forall|c: int, r: int| self.has_cell(c, r) implies valid_history(
                #[trigger] self.dataset.history(c, r),
                self.min_timestamp,
                self.max_timestamp,
            ) && self.dataset.history(c, r)[0].color == PixelColor::Black by {
                let before = mid.history(c, r);
                let after = self.dataset.history(c, r);
                if old(self).count == 0 {
                    assert(before == seq![sentinel(record.timestamp)]);
                } else {
                    assert(valid_history(old(self).dataset.history(c, r), min, old_max));
                }
                if c == x && r == y {
                    assert(after == before.push(stored(record)));
                    lemma_row_len_part(b[y as int]@, x as int);
                    lemma_grid_len_part(b, y as int);
                    assert(after.len() <= grid_len(b));
                } else {
                    assert(b[r]@[c] == a[r]@[c]);
                    assert(after == before);
                }
            }
            assert forall|c: int, r: int|
                self.has_cell(c, r) implies #[trigger] self.dataset.history(
                c,
                r,
            ) == if c == record.coordinate.x && r == record.coordinate.y {
                old(self).on_arrival(c, r, record.timestamp).push(stored(record))
            } else {
                old(self).on_arrival(c, r, record.timestamp)
            } by {
                assert(mid.history(c, r) == old(self).on_arrival(c, r, record.timestamp));
                if !(c == x && r == y) {
                    assert(b[r]@[c] == a[r]@[c]);
                }
            }
        }
    }
}

/// Whether the entry of the cell `(a, b)` of a square canvas of side `size`
/// names, among the edits laid out so far, the history `h`.
pub open spec fn placed(
    table: Seq<PrecompressedDatapointHistoryMetadata>,
    data: Seq<RPlaceDatasetDatapoint>,
    size: int,
    a: int,
    b: int,
    h: Seq<RPlaceDatasetDatapoint>,
) -> bool {
    let entry = table[b * size + a];
    &&& 0 <= b * size + a < table.len()
    &&& entry.offset + entry.length <= data.len()
    &&& data.subrange(entry.offset as int, entry.offset + entry.length) == h
}

/// What is placed stays placed when more entries and more edits follow.
proof fn lemma_placed_stays(
    table: Seq<PrecompressedDatapointHistoryMetadata>,
    data: Seq<RPlaceDatasetDatapoint>,
    more_table: Seq<PrecompressedDatapointHistoryMetadata>,
    more_data: Seq<RPlaceDatasetDatapoint>,
    size: int,
    a: int,
    b: int,
    h: Seq<RPlaceDatasetDatapoint>,
)
    requires
        placed(table, data, size, a, b, h),
    ensures
        placed(table + more_table, data + more_data, size, a, b, h),
{
    let entry = table[b * size + a];
    assert((table + more_table)[b * size + a] == entry);
    assert((data + more_data).subrange(entry.offset as int, entry.offset + entry.length)
        == data.subrange(entry.offset as int, entry.offset + entry.length));
}

/// Whether some entries name histories that lie one after the other and
/// together take up `total` edits: the first starts at 0, each next one where
/// the one before it ends, and the last ends at `total`.
pub open spec fn one_after_the_other(
    entries: Seq<PrecompressedDatapointHistoryMetadata>,
    total: int,
) -> bool {
    &&& entries.len() > 0 ==> entries[0].offset == 0 && entries.last().offset + entries.last().length
        == total
    &&& entries.len() == 0 ==> total == 0
    &&& forall|c: int|
        0 < c < entries.len() ==> (#[trigger] entries[c]).offset == entries[c - 1].offset + entries[c
            - 1].length
}

impl DatasetBuilder {
    /// What a finished file holds: the sizes and bounds of the builder, for
    /// every cell the history that the builder has for it, and the histories
    /// one after the other, row by row.
    pub open spec fn built(&self, d: PrecompressedDataset) -> bool {
        &&& d.wf()
        &&& d@.width == self.canvas_size
        &&& d@.height == self.canvas_size
        &&& d@.min_timestamp == self.min_timestamp
        &&& d@.max_timestamp == self.max_timestamp
        &&& forall|x: int, y: int|
            self.has_cell(x, y) ==> #[trigger] d@.history(x, y) == self.dataset.history(x, y)
        &&& d.data.data@.len() == self.count + self.canvas_size * self.canvas_size
        &&& one_after_the_other(d.metadata.history_metadata@, d.data.data@.len() as int)
    }

    /// Lays the histories out as a canvas file. It fails exactly where no
    /// edit has arrived.
    pub fn finish(&self) -> (r: Result<PrecompressedDataset, IngestionError>)
        requires
            self.wf(),
        ensures
            r is Err <==> self.count == 0,
            r is Err ==> r->Err_0 == IngestionError::EmptySource,
            r is Ok ==> self.built(r->Ok_0),
    {
        if self.count == 0 {
            return Err(IngestionError::EmptySource);
        }
        let size = self.canvas_size;
        let ghost grid = self.dataset.data@;
        let mut table: Vec<PrecompressedDatapointHistoryMetadata> = Vec::new();
        let mut data: Vec<RPlaceDatasetDatapoint> = Vec::new();
        let mut idx: u32 = 0;
        let mut y: usize = 0;
        proof {
            assert(grid.take(0).len() == 0);
            assert(0 * size == 0) by (nonlinear_arith);
        }
        while y < size
            invariant
                self.wf(),
                size == self.canvas_size,
                grid == self.dataset.data@,
                y <= size,
                table@.len() == y * size,
                idx == data@.len(),
                idx == grid_len(grid.take(y as int)),
                one_after_the_other(table@, idx as int),
                forall|a: int, b: int|
                    0 <= a < size && 0 <= b < y ==> #[trigger] placed(
                        table@,
                        data@,
                        size as int,
                        a,
                        b,
                        self.dataset.history(a, b),
                    ),
            decreases size - y,
        {
            let mut x: usize = 0;
            proof {
                assert(grid[y as int]@.take(0).len() == 0);
            }
            while x < size
                invariant
                    self.wf(),
                    size == self.canvas_size,
                    grid == self.dataset.data@,
                    y < size,
                    x <= size,
                    table@.len() == y * size + x,
                    idx == data@.len(),
                    idx == grid_len(grid.take(y as int)) + row_len(grid[y as int]@.take(x as int)),
                    one_after_the_other(table@, idx as int),
                    forall|a: int, b: int|
                        0 <= a < size && (0 <= b < y || (b == y && a < x)) ==> #[trigger] placed(
                            table@,
                            data@,
                            size as int,
                            a,
                            b,
                            self.dataset.history(a, b),
                        ),
                decreases size - x,
            {
                let history = &self.dataset.data[y][x];
                let history_length = history.len();
                proof {
                    lemma_row_len_part(grid[y as int]@, x as int);
                    lemma_grid_len_part(grid, y as int);
                    assert(self.dataset.history(x as int, y as int) == history@);
                }
                let metadata = PrecompressedDatapointHistoryMetadata {
                    offset: idx,
                    length: history_length as u32,
                };
                let ghost table_before = table@;
                let ghost data_before = data@;
                table.push(metadata);
                let mut k: usize = 0;
                while k < history_length
                    invariant
                        k <= history_length,
                        history_length == history@.len(),
                        data@ == data_before + history@.take(k as int),
                    decreases history_length - k,
                {
                    data.push(history[k]);
                    assert(history@.take(k + 1) == history@.take(k as int).push(history@[k as int]));
                    k += 1;
                }
                idx = idx + history_length as u32;
                proof {
                    assert(history@.take(history_length as int) == history@);
                    assert(table@ == table_before + seq![metadata]);
                    assert forall|c: int| 0 < c < table@.len() implies (#[trigger] table@[c]).offset
                        == table@[c - 1].offset + table@[c - 1].length by {
                        if c < table_before.len() {
                            assert(table@[c] == table_before[c]);
                            assert(table@[c - 1] == table_before[c - 1]);
                        } else {
                            assert(table@[c - 1] == table_before.last());
                        }
                    }
                    assert forall|a: int, b: int|
                        0 <= a < size && (0 <= b < y || (b == y && a < x + 1)) implies #[trigger] placed(
                        table@,
                        data@,
                        size as int,
                        a,
                        b,
                        self.dataset.history(a, b),
                    ) by {
                        if b == y && a == x {
                            assert(table@[b * size + a] == metadata);
                            assert(data@.subrange(idx - history_length, idx as int) == history@);
                        } else {
                            lemma_placed_stays(
                                table_before,
                                data_before,
                                seq![metadata],
                                history@,
                                size as int,
                                a,
                                b,
                                self.dataset.history(a, b),
                            );
                        }
                    }
                }
                x += 1;
            }
            proof {
                assert((y + 1) * size == y * size + size) by (nonlinear_arith);
                lemma_grid_len_part(grid, y as int);
                assert(grid[y as int]@.take(size as int) == grid[y as int]@);
            }
            y += 1;
        }
        assert(size * size >= size) by (nonlinear_arith)
            requires
                size >= 1,
        ;
        let d = PrecompressedDataset {
            metadata: PrecompressedDatasetMetadata {
                canvas_width: size as u32,
                canvas_height: size as u32,
                min_timestamp: self.min_timestamp,
                max_timestamp: self.max_timestamp,
                datapoint_size: RPlaceDatasetDatapoint::compressed_size(),
                history_metadata: table,
            },
            data: PrecompressedDatasetData { data },
        };
        proof {
            let v = d@;
            let entries = d.metadata.history_metadata@;
            assert(entries.len() == size * size);
            assert forall|c: int| 0 <= c < entries.len() implies (#[trigger] entries[c]).offset
                + entries[c].length <= d.data.data@.len() && valid_history(
                v.histories[c],
                v.min_timestamp,
                v.max_timestamp,
            ) && v.histories[c][0].color == PixelColor::Black by {
                let a = c % (size as int);
                let b = c / (size as int);
                vstd::arithmetic::div_mod::lemma_fundamental_div_mod(c, size as int);
                vstd::arithmetic::div_mod::lemma_mod_pos_bound(c, size as int);
                vstd::arithmetic::div_mod::lemma_div_pos_is_pos(c, size as int);
                assert(b * size == size * b) by (nonlinear_arith);
                if b >= size {
                    assert(b * size >= size * size) by (nonlinear_arith)
                        requires
                            b >= size,
                            size >= 1,
                    ;
                }
                assert(self.has_cell(a, b));
                assert(placed(entries, d.data.data@, size as int, a, b, self.dataset.history(a, b)));
                assert(valid_history(
                    self.dataset.history(a, b),
                    self.min_timestamp,
                    self.max_timestamp,
                ));
                assert(v.histories[c] == self.dataset.history(a, b));
                assert(v.histories[c][0].color == PixelColor::Black);
            }
            assert forall|c: int| 0 <= c < v.histories.len() implies valid_history(
                #[trigger] v.histories[c],
                v.min_timestamp,
                v.max_timestamp,
            ) && v.histories[c][0].color == v.default_color() by {
                assert(entries[c].offset + entries[c].length <= d.data.data@.len());
                assert(entries[0].offset + entries[0].length <= d.data.data@.len());
            }
            assert forall|a: int, b: int| self.has_cell(a, b) implies #[trigger] v.history(a, b)
                == self.dataset.history(a, b) by {
                lemma_cell_number(size as int, size as int, a, b);
                assert(placed(entries, d.data.data@, size as int, a, b, self.dataset.history(a, b)));
            }
            assert(v.wf());
            assert(d.wf());
            assert(grid.take(size as int) == grid);
        }
        Ok(d)
    }
}

/// The history that the first `records.len()` edits give the cell `(x, y)`
/// of a canvas whose first edit is dated `min_timestamp`: the sentinel, and
/// after it the edits of that cell in the order in which they arrived.
pub open spec fn history_of(
    records: Seq<RPlaceDatapoint>,
    x: int,
    y: int,
    min_timestamp: u64,
) -> Seq<RPlaceDatasetDatapoint>
    decreases records.len(),
{
    if records.len() == 0 {
        seq![sentinel(min_timestamp)]
    } else {
        let before = history_of(records.drop_last(), x, y, min_timestamp);
        if records.last().coordinate.x == x && records.last().coordinate.y == y {
            before.push(stored(records.last()))
        } else {
            before
        }
    }
}

/// Whether some edits can be built into a canvas of side `canvas_size`: they
/// lie on the canvas, are dated 1 or later, and come in the order in which
/// they happened.
pub open spec fn can_build(records: Seq<RPlaceDatapoint>, canvas_size: int) -> bool {
    &&& forall|i: int|
        0 <= i < records.len() ==> 1 <= (#[trigger] records[i]).timestamp && records[i].coordinate.x
            < canvas_size && records[i].coordinate.y < canvas_size
    &&& forall|i: int, j: int|
        0 <= i <= j < records.len() ==> records[i].timestamp <= records[j].timestamp
}

/// Builds the canvas file of a square canvas of side `canvas_size` from the
/// edits in the order in which they happened. It fails exactly where there is
/// no edit. The file holds, for every cell, the sentinel dated one unit
/// before the first edit and then the edits of the cell as they arrived; its
/// bounds are the times of the first and of the last edit.
pub fn write_data(records: &Vec<RPlaceDatapoint>, canvas_size: usize) -> (r: Result<
    Vec<u8>,
    IngestionError,
>)
    requires
        1 <= canvas_size,
        canvas_size * canvas_size <= MAX_CELLS,
        records@.len() + canvas_size * canvas_size < u32::MAX,
        can_build(records@, canvas_size as int),
    ensures
        r is Err <==> records@.len() == 0,
        r is Err ==> r->Err_0 == IngestionError::EmptySource,
        r is Ok ==> {
            &&& valid_file(r->Ok_0@)
            &&& file_view(r->Ok_0@).width == canvas_size
            &&& file_view(r->Ok_0@).height == canvas_size
            &&& file_view(r->Ok_0@).min_timestamp == records@[0].timestamp
            &&& file_view(r->Ok_0@).max_timestamp == records@[records@.len() - 1].timestamp
            &&& forall|x: int, y: int|
                0 <= x < canvas_size && 0 <= y < canvas_size ==> #[trigger] file_view(
                    r->Ok_0@,
                ).history(x, y) == history_of(records@, x, y, records@[0].timestamp)
            &&& file_count(r->Ok_0@) == records@.len() + canvas_size * canvas_size
            &&& r->Ok_0@.len() == edit_position(r->Ok_0@, file_count(r->Ok_0@) as int)
            &&& one_after_the_other(
                Seq::new((canvas_size * canvas_size) as nat, |c: int| file_entry(r->Ok_0@, c)),
                file_count(r->Ok_0@) as int,
            )
        },
{
    let mut builder = DatasetBuilder::new(canvas_size);
    let mut i: usize = 0;
    while i < records.len()
        invariant
            builder.wf(),
            builder.canvas_size == canvas_size,
            builder.count == i,
            i <= records@.len(),
            records@.len() + canvas_size * canvas_size < u32::MAX,
            can_build(records@, canvas_size as int),
            i > 0 ==> builder.min_timestamp == records@[0].timestamp && builder.max_timestamp
                == records@[i - 1].timestamp,
            i > 0 ==> forall|x: int, y: int|
                builder.has_cell(x, y) ==> #[trigger] builder.dataset.history(x, y) == history_of(
                    records@.take(i as int),
                    x,
                    y,
                    records@[0].timestamp,
                ),
        decreases records@.len() - i,
    {
        let ghost before = builder;
        let record = records[i];
        builder.add(record);
        proof {
            let now = records@.take(i + 1);
            assert(now.drop_last() == records@.take(i as int));
            assert(now.last() == record);
            assert forall|x: int, y: int|
                builder.has_cell(x, y) implies #[trigger] builder.dataset.history(
                x,
                y,
            ) == history_of(now, x, y, records@[0].timestamp) by {
                if i == 0 {
                    assert(records@.take(0).len() == 0);
                    assert(before.on_arrival(x, y, record.timestamp) == history_of(
                        records@.take(0),
                        x,
                        y,
                        records@[0].timestamp,
                    ));
                } else {
                    assert(before.on_arrival(x, y, record.timestamp) == before.dataset.history(x, y));
                }
            }
        }
        i += 1;
    }
    match builder.finish() {
        Ok(dataset) => {
            let bytes = dataset.to_bytes();
            let edits = dataset.data.data.len();
            let cells = dataset.metadata.history_metadata.len();
            proof {
                assert(records@.take(i as int) == records@);
                let v = file_view(bytes@);
                crate::reader::custom::lemma_dataset_bytes(dataset);
                let entries = Seq::new(
                    (canvas_size * canvas_size) as nat,
                    |c: int| file_entry(bytes@, c),
                );
                assert(entries =~= dataset.metadata.history_metadata@);
                assert forall|x: int, y: int|
                    0 <= x < canvas_size && 0 <= y < canvas_size implies #[trigger] v.history(x, y)
                    == history_of(records@, x, y, records@[0].timestamp) by {
                    assert(builder.has_cell(x, y));
                    assert(dataset@.history(x, y) == builder.dataset.history(x, y));
                }
            }
            Ok(bytes)
        },
        Err(e) => Err(e),
    }
}

} // verus!
