//! Edits as the readers hand them to the builder: an edit of one cell, and
//! the turning of rows of the table into such edits, one for each cell that a
//! moderator's rectangle covers.

use crate::pixel::{color_of_rgb, PixelColor};
use crate::reader::parquet::{row_of_columns, RPlaceParquetDataIterator, RPlaceParquetDatapoint};
use vstd::prelude::*;
use vstd::std_specs::convert::TryFromSpecImpl;

verus! {

/// The time of the first edit of the first day.
pub const DAY_1_START_TIMESTAMP: u64 = 1648817050315000000;

/// The time of the first edit of the second day.
pub const DAY_2_START_TIMESTAMP: u64 = 1648916696239000000;

/// The time of the first edit of the third day.
pub const DAY_3_START_TIMESTAMP: u64 = 1649012633356000000;

/// The time of the last edit.
pub const MAX_TIMESTAMP: u64 = 1649117640207000000;

/// The row of the table at which the first day starts.
pub const DAY_1_START_LINE: u64 = 0;

/// The row of the table at which the second day starts.
pub const DAY_2_START_LINE: u64 = 28_201_610;

/// The row of the table at which the third day starts.
pub const DAY_3_START_LINE: u64 = 71_784_347;

/// The number of rows of the table.
pub const TOTAL_LINES: u64 = 160_808_191;

/// A cell of the canvas, by column and row.
#[derive(Copy, Clone, Debug, PartialEq, Eq, Structural)]
pub struct RPlaceCoordinate {
    pub x: u32,
    pub y: u32,
}

/// An edit of one cell.
#[derive(Copy, Clone, Debug, PartialEq, Eq, Structural)]
pub struct RPlaceDatapoint {
    pub timestamp: u64,
    pub user_id: u32,
    pub color: PixelColor,
    pub coordinate: RPlaceCoordinate,
    /// Whether the edit was made with a moderator's rectangle.
    pub is_mod: bool,
}

impl Default for RPlaceDatapoint {
    /// An edit of the cell `(0, 0)` at time 0 that leaves it black.
    fn default() -> (d: Self)
        ensures
            d == (RPlaceDatapoint {
                timestamp: 0,
                user_id: 0,
                color: PixelColor::Black,
                coordinate: RPlaceCoordinate { x: 0, y: 0 },
                is_mod: false,
            }),
    {
        RPlaceDatapoint {
            timestamp: 0,
            user_id: 0,
            color: PixelColor::Black,
            coordinate: RPlaceCoordinate { x: 0, y: 0 },
            is_mod: false,
        }
    }
}

/// A column or row of the table as one of the canvas: what lies before the
/// canvas counts as 0.
pub open spec fn on_canvas(v: i16) -> u32 {
    if v < 0 {
        0
    } else {
        v as u32
    }
}

/// The timestamp of a row as an unsigned number with the same bits.
pub open spec fn unsigned_time(v: i64) -> u64 {
    if v >= 0 {
        v as u64
    } else {
        (v + 0x1_0000_0000_0000_0000) as u64
    }
}

/// The user of a row as an unsigned number with the same bits.
pub open spec fn unsigned_user(v: i32) -> u32 {
    if v >= 0 {
        v as u32
    } else {
        (v + 0x1_0000_0000) as u32
    }
}

/// Whether a row was made with a moderator's rectangle.
pub open spec fn is_rectangle(item: RPlaceParquetDatapoint) -> bool {
    !(item.x2 == i16::MIN && item.y2 == i16::MIN)
}

/// The edit that a row makes of the cell `(x, y)`.
pub open spec fn edit_of_row(
    item: RPlaceParquetDatapoint,
    color: PixelColor,
    x: u32,
    y: u32,
    is_mod: bool,
) -> RPlaceDatapoint {
    RPlaceDatapoint {
        timestamp: unsigned_time(item.timestamp),
        user_id: unsigned_user(item.user_id),
        color,
        coordinate: RPlaceCoordinate { x, y },
        is_mod,
    }
}

/// The edit that a row makes of its cell `(x1, y1)`, if the palette has a
/// color with the row's RGB value.
pub open spec fn edit_of(item: RPlaceParquetDatapoint) -> Result<RPlaceDatapoint, ()> {
    match color_of_rgb(item.rgb as int) {
        Some(color) => Ok(
            edit_of_row(item, color, on_canvas(item.x1), on_canvas(item.y1), is_rectangle(item)),
        ),
        None => Err(()),
    }
}

/// The number of columns, or of rows, from `a` to `b`, both included.
pub open spec fn span(a: i16, b: i16) -> int {
    if b < a {
        0
    } else {
        b - a + 1
    }
}

/// The edits that a moderator's rectangle makes: one for every cell from
/// `(x1, y1)` to `(x2, y2)`, both included, row by row.
pub open spec fn edits_of_rectangle(
    item: RPlaceParquetDatapoint,
    color: PixelColor,
) -> Seq<RPlaceDatapoint> {
    Seq::new(
        (span(item.x1, item.x2) * span(item.y1, item.y2)) as nat,
        |k: int|
            edit_of_row(
                item,
                color,
                on_canvas((item.x1 + k % span(item.x1, item.x2)) as i16),
                on_canvas((item.y1 + k / span(item.x1, item.x2)) as i16),
                false,
            ),
    )
}

/// The timestamp of a row as an unsigned number.
fn time_of_row(v: i64) -> (r: u64)
    ensures
        r == unsigned_time(v),
{
    if v >= 0 {
        v as u64
    } else {
        u64::MAX - ((-(v + 1)) as u64)
    }
}

/// The user of a row as an unsigned number.
fn user_of_row(v: i32) -> (r: u32)
    ensures
        r == unsigned_user(v),
{
    if v >= 0 {
        v as u32
    } else {
        u32::MAX - ((-(v + 1)) as u32)
    }
}

/// A column or row of the table as one of the canvas.
fn cell_of_row(v: i16) -> (r: u32)
    ensures
        r == on_canvas(v),
{
    if v < 0 {
        0
    } else {
        v as u32
    }
}

impl RPlaceDatapoint {
    /// The edit that a row makes of its cell `(x1, y1)`. It fails where the
    /// palette has no color with the row's RGB value.
    pub fn try_from_row(item: &RPlaceParquetDatapoint) -> (r: Result<RPlaceDatapoint, ()>)
        ensures
            r == edit_of(*item),
    {
        let is_mod = !(item.x2 == i16::MIN && item.y2 == i16::MIN);
        match PixelColor::from_rgb(item.rgb) {
            Some(color) => Ok(
                RPlaceDatapoint {
                    timestamp: time_of_row(item.timestamp),
                    user_id: user_of_row(item.user_id),
                    color,
                    coordinate: RPlaceCoordinate {
                        x: cell_of_row(item.x1),
                        y: cell_of_row(item.y1),
                    },
                    is_mod,
                },
            ),
            None => Err(()),
        }
    }

    /// The edits that a row makes as a moderator's rectangle, one for every
    /// cell that it covers. It fails where the rectangle covers a cell and
    /// the palette has no color with the row's RGB value.
    pub fn try_all_from_row(item: &RPlaceParquetDatapoint) -> (r: Result<Vec<RPlaceDatapoint>, ()>)
        ensures
            r is Ok <==> color_of_rgb(item.rgb as int) is Some || span(item.x1, item.x2) * span(
                item.y1,
                item.y2,
            ) == 0,
            r is Ok && color_of_rgb(item.rgb as int) is Some ==> r->Ok_0@ == edits_of_rectangle(
                *item,
                color_of_rgb(item.rgb as int).unwrap(),
            ),
            r is Ok && color_of_rgb(item.rgb as int) is None ==> r->Ok_0@.len() == 0,
    {
        let mut vector: Vec<RPlaceDatapoint> = Vec::new();
        let ghost w = span(item.x1, item.x2);
        let ghost h = span(item.y1, item.y2);
        if item.x2 < item.x1 || item.y2 < item.y1 {
            assert(w * h == 0) by (nonlinear_arith)
                requires
                    w == 0 || h == 0,
            ;
            proof {
                if color_of_rgb(item.rgb as int) is Some {
                    assert(vector@ == edits_of_rectangle(
                        *item,
                        color_of_rgb(item.rgb as int).unwrap(),
                    ));
                }
            }
            return Ok(vector);
        }
        assert(w * h >= 1) by (nonlinear_arith)
            requires
                w >= 1,
                h >= 1,
        ;
        let color = match PixelColor::from_rgb(item.rgb) {
            Some(color) => color,
            None => {
                return Err(());
            },
        };
        let ghost all = edits_of_rectangle(*item, color);
        let timestamp = time_of_row(item.timestamp);
        let user_id = user_of_row(item.user_id);
        let mut y: i32 = item.y1 as i32;
        proof {
            assert((y - item.y1) * w == 0) by (nonlinear_arith)
                requires
                    y - item.y1 == 0,
            ;
            assert(vector@ == all.take(0));
        }
        while y <= item.y2 as i32
            invariant
                item.x1 <= item.x2,
                item.y1 <= y <= item.y2 + 1,
                w == span(item.x1, item.x2),
                h == span(item.y1, item.y2),
                all == edits_of_rectangle(*item, color),
                all.len() == w * h,
                timestamp == unsigned_time(item.timestamp),
                user_id == unsigned_user(item.user_id),
                vector@ == all.take((y - item.y1) * w),
                0 <= (y - item.y1) * w <= w * h,
            decreases item.y2 + 1 - y,
        {
            let mut x: i32 = item.x1 as i32;
            assert((y - item.y1 + 1) * w == (y - item.y1) * w + w) by (nonlinear_arith);
            assert((y - item.y1 + 1) * w <= h * w) by (nonlinear_arith)
                requires
                    y - item.y1 + 1 <= h,
                    w >= 0,
            ;
            assert(h * w == w * h) by (nonlinear_arith);
            while x <= item.x2 as i32
                invariant
                    item.x1 <= x <= item.x2 + 1,
                    item.y1 <= y <= item.y2,
                    w == span(item.x1, item.x2),
                    h == span(item.y1, item.y2),
                    all == edits_of_rectangle(*item, color),
                    all.len() == w * h,
                    timestamp == unsigned_time(item.timestamp),
                    user_id == unsigned_user(item.user_id),
                    vector@ == all.take((y - item.y1) * w + (x - item.x1)),
                    0 <= (y - item.y1) * w,
                    (y - item.y1) * w + w <= w * h,
                decreases item.x2 + 1 - x,
            {
                let ghost k = (y - item.y1) * w + (x - item.x1);
                let edit = RPlaceDatapoint {
                    timestamp,
                    user_id,
                    color,
                    coordinate: RPlaceCoordinate {
                        x: cell_of_row(x as i16),
                        y: cell_of_row(y as i16),
                    },
                    is_mod: false,
                };
                proof {
                    vstd::arithmetic::div_mod::lemma_fundamental_div_mod_converse(
                        k,
                        w,
                        y - item.y1,
                        x - item.x1,
                    );
                    assert(all[k] == edit);
                    assert(all.take(k + 1) == all.take(k).push(edit));
                }
                vector.push(edit);
                x += 1;
            }
            y += 1;
        }
        proof {
            assert((y - item.y1) * w == w * h) by (nonlinear_arith)
                requires
                    y - item.y1 == h,
            ;
            assert(all.take(all.len() as int) == all);
        }
        Ok(vector)
    }
}

impl TryFrom<RPlaceParquetDatapoint> for RPlaceDatapoint {
    type Error = ();

    /// The edit that a row makes of its cell `(x1, y1)`.
    fn try_from(item: RPlaceParquetDatapoint) -> (r: Result<RPlaceDatapoint, ()>) {
        RPlaceDatapoint::try_from_row(&item)
    }
}

impl TryFromSpecImpl<RPlaceParquetDatapoint> for RPlaceDatapoint {
    open spec fn obeys_try_from_spec() -> bool {
        true
    }

    open spec fn try_from_spec(item: RPlaceParquetDatapoint) -> Result<RPlaceDatapoint, ()> {
        edit_of(item)
    }
}

/// The edits of the rows of a part of the table, one after the other. A row
/// made with a moderator's rectangle gives one edit for every cell of the
/// rectangle, row by row, before the next row of the table is read.
#[derive(Debug)]
pub struct RPlaceDataIterator {
    /// The rows.
    pub iter: RPlaceParquetDataIterator,
    /// The cell of the rectangle that is handed out next.
    pub position: Option<RPlaceCoordinate>,
    /// The column in which every row of the rectangle starts.
    pub origin: u32,
    /// The column and the row at which the rectangle ends, not included.
    pub limit: Option<RPlaceCoordinate>,
    /// The edit that is made of every cell of the rectangle.
    pub cached_datapoint: Option<RPlaceDatapoint>,
}

/// The state of an iterator as the contracts speak of it.
pub struct ExpansionState {
    pub row: int,
    pub position: Option<RPlaceCoordinate>,
    pub origin: u32,
    pub limit: Option<RPlaceCoordinate>,
    pub cached_datapoint: Option<RPlaceDatapoint>,
}

impl ExpansionState {
    /// Whether a rectangle is being handed out.
    pub open spec fn expanding(self) -> bool {
        self.position is Some && self.limit is Some && self.cached_datapoint is Some
    }

    /// The edit that is handed out next of the rectangle.
    pub open spec fn current(self) -> RPlaceDatapoint {
        RPlaceDatapoint { coordinate: self.position.unwrap(), ..self.cached_datapoint.unwrap() }
    }

    /// The state after one cell of the rectangle was handed out: the next
    /// cell of the row, or the first of the next row, or no rectangle any
    /// more.
    pub open spec fn advanced(self) -> ExpansionState {
        let at = self.position.unwrap();
        let end = self.limit.unwrap();
        if at.x + 1 < end.x {
            ExpansionState { position: Some(RPlaceCoordinate { x: (at.x + 1) as u32, y: at.y }), ..self }
        } else if at.y + 1 < end.y {
            ExpansionState {
                position: Some(RPlaceCoordinate { x: self.origin, y: (at.y + 1) as u32 }),
                ..self
            }
        } else {
            ExpansionState { position: None, cached_datapoint: None, ..self }
        }
    }

    /// The state in which the rectangle of a row starts to be handed out.
    pub open spec fn started(self, item: RPlaceParquetDatapoint, edit: RPlaceDatapoint) -> ExpansionState {
        ExpansionState {
            row: self.row,
            position: Some(edit.coordinate),
            origin: edit.coordinate.x,
            limit: Some(
                RPlaceCoordinate {
                    x: (on_canvas(item.x2) + 1) as u32,
                    y: (on_canvas(item.y2) + 1) as u32,
                },
            ),
            cached_datapoint: Some(edit),
        }
    }

    /// What the iterator hands out next over the rows `rows`, and the state
    /// that it is in after. While a rectangle is handed out, its next cell.
    /// Else the next row is read: a row of one cell gives its edit, a
    /// rectangle gives its first cell, and a row with a color that the
    /// palette lacks ends the iteration, as the end of the rows does.
    pub open spec fn next(self, rows: Seq<Vec<(String, crate::reader::parquet::ParquetField)>>) -> (
        ExpansionState,
        Option<RPlaceDatapoint>,
    ) {
        if self.expanding() {
            (self.advanced(), Some(self.current()))
        } else if self.row >= rows.len() {
            (self, None)
        } else {
            let item = row_of_columns(rows[self.row]@);
            let read = ExpansionState { row: self.row + 1, ..self };
            match edit_of(item) {
                Ok(edit) => if edit.is_mod {
                    (read.started(item, edit).advanced(), Some(read.started(item, edit).current()))
                } else {
                    (read, Some(edit))
                },
                Err(_) => (read, None),
            }
        }
    }
}

impl View for RPlaceDataIterator {
    type V = ExpansionState;

    open spec fn view(&self) -> ExpansionState {
        ExpansionState {
            row: self.iter.position as int,
            position: self.position,
            origin: self.origin,
            limit: self.limit,
            cached_datapoint: self.cached_datapoint,
        }
    }
}

impl RPlaceDataIterator {
    /// An iterator over the edits of some rows.
    pub fn new(iter: RPlaceParquetDataIterator) -> (it: Self)
        ensures
            it.iter == iter,
            !it@.expanding(),
            it@.row == iter.position,
    {
        RPlaceDataIterator { iter, position: None, origin: 0, limit: None, cached_datapoint: None }
    }

    /// Hands out the next cell of the rectangle.
    fn next_of_rectangle(&mut self) -> (r: RPlaceDatapoint)
        requires
            old(self)@.expanding(),
        ensures
            final(self).iter == old(self).iter,
            final(self)@ == old(self)@.advanced(),
            r == old(self)@.current(),
    {
        let position = self.position.unwrap();
        let limit = self.limit.unwrap();
        let mut cached_datapoint = self.cached_datapoint.unwrap();
        cached_datapoint.coordinate = position;
        if position.x < u32::MAX && position.x + 1 < limit.x {
            self.position = Some(RPlaceCoordinate { x: position.x + 1, y: position.y });
        } else if position.y < u32::MAX && position.y + 1 < limit.y {
            self.position = Some(RPlaceCoordinate { x: self.origin, y: position.y + 1 });
        } else {
            self.position = None;
            self.cached_datapoint = None;
        }
        cached_datapoint
    }

    /// The next edit, if there is one.
    pub fn next(&mut self) -> (r: Option<RPlaceDatapoint>)
        ensures
            final(self).iter.rows == old(self).iter.rows,
            (final(self)@, r) == old(self)@.next(old(self).iter.rows@),
    {
        if self.position.is_some() && self.limit.is_some() && self.cached_datapoint.is_some() {
            return Some(self.next_of_rectangle());
        }
        match self.iter.next() {
            Some(parquet_datapoint) => {
                match RPlaceDatapoint::try_from_row(&parquet_datapoint) {
                    Ok(datapoint) => {
                        if datapoint.is_mod {
                            self.position = Some(datapoint.coordinate);
                            self.origin = datapoint.coordinate.x;
                            self.limit = Some(
                                RPlaceCoordinate {
                                    x: cell_of_row(parquet_datapoint.x2) + 1,
                                    y: cell_of_row(parquet_datapoint.y2) + 1,
                                },
                            );
                            self.cached_datapoint = Some(datapoint);
                            return Some(self.next_of_rectangle());
                        }
                        Some(datapoint)
                    },
                    Err(_) => None,
                }
            },
            None => None,
        }
    }
}

} // verus!
