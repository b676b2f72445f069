//! The rows of the table of edits as they come from the columnar file, before
//! they are turned into edits of cells.

use vstd::prelude::*;

verus! {

/// One row of the table of edits. An edit of a single cell has the cell in
/// `(x1, y1)` and `i16::MIN` in `x2` and `y2`; an edit by a moderator covers
/// the rectangle from `(x1, y1)` to `(x2, y2)`, both included.
#[derive(Copy, Clone, Debug, PartialEq, Eq, Structural)]
pub struct RPlaceParquetDatapoint {
    pub timestamp: i64,
    pub user_id: i32,
    pub rgb: u64,
    pub x1: i16,
    pub y1: i16,
    pub x2: i16,
    pub y2: i16,
}

impl Default for RPlaceParquetDatapoint {
    /// The row in which every column is 0.
    fn default() -> (d: Self)
        ensures
            d == empty_row(),
    {
        RPlaceParquetDatapoint { timestamp: 0, user_id: 0, rgb: 0, x1: 0, y1: 0, x2: 0, y2: 0 }
    }
}

/// The row in which every column is 0.
pub open spec fn empty_row() -> RPlaceParquetDatapoint {
    RPlaceParquetDatapoint { timestamp: 0, user_id: 0, rgb: 0, x1: 0, y1: 0, x2: 0, y2: 0 }
}

/// What a column of a row holds, as far as the table of edits uses it.
#[derive(Copy, Clone, Debug, PartialEq, Eq, Structural)]
pub enum ParquetField {
    Long(i64),
    Int(i32),
    Short(i16),
    /// Any other kind of value.
    Other,
}

/// An `i32` as the `u64` with the same bits in its lower half, the sign
/// carried on into the upper half.
pub open spec fn widened(v: i32) -> u64 {
    if v >= 0 {
        v as u64
    } else {
        (v + 0x1_0000_0000_0000_0000) as u64
    }
}

/// A row after the column `name` with the value `field` was read into it: the
/// columns of the table of edits, where they hold the kind of value that
/// belongs in them, set their part of the row; every other column leaves the
/// row as it is.
pub open spec fn with_column(
    d: RPlaceParquetDatapoint,
    name: Seq<char>,
    field: ParquetField,
) -> RPlaceParquetDatapoint {
    if name == "timestamp"@ && field is Long {
        RPlaceParquetDatapoint { timestamp: field->Long_0, ..d }
    } else if name == "user_id"@ && field is Int {
        RPlaceParquetDatapoint { user_id: field->Int_0, ..d }
    } else if name == "rgb"@ && field is Int {
        RPlaceParquetDatapoint { rgb: widened(field->Int_0), ..d }
    } else if name == "x1"@ && field is Short {
        RPlaceParquetDatapoint { x1: field->Short_0, ..d }
    } else if name == "y1"@ && field is Short {
        RPlaceParquetDatapoint { y1: field->Short_0, ..d }
    } else if name == "x2"@ && field is Short {
        RPlaceParquetDatapoint { x2: field->Short_0, ..d }
    } else if name == "y2"@ && field is Short {
        RPlaceParquetDatapoint { y2: field->Short_0, ..d }
    } else {
        d
    }
}

/// The row that some columns give, read one after the other into the empty
/// row.
pub open spec fn row_of_columns(columns: Seq<(String, ParquetField)>) -> RPlaceParquetDatapoint
    decreases columns.len(),
{
    if columns.len() == 0 {
        empty_row()
    } else {
        with_column(row_of_columns(columns.drop_last()), columns.last().0@, columns.last().1)
    }
}

/// The `u64` that `as` makes of an `i32`.
fn widen(v: i32) -> (r: u64)
    ensures
        r == widened(v),
{
    if v >= 0 {
        v as u64
    } else {
        u64::MAX - ((-(v as i64)) as u64 - 1)
    }
}

/// The rows of a part of the table, each as its columns by name, and the
/// place up to which they were handed out.
#[derive(Debug)]
pub struct RPlaceParquetDataIterator {
    pub rows: Vec<Vec<(String, ParquetField)>>,
    pub position: usize,
}

impl RPlaceParquetDataIterator {
    /// The rows, none of them handed out yet.
    pub fn new(rows: Vec<Vec<(String, ParquetField)>>) -> (it: Self)
        ensures
            it.rows == rows,
            it.position == 0,
    {
        RPlaceParquetDataIterator { rows, position: 0 }
    }

    /// The next row, if one is left.
    pub fn next(&mut self) -> (r: Option<RPlaceParquetDatapoint>)
        ensures
            final(self).rows == old(self).rows,
            old(self).position < old(self).rows@.len() ==> r == Some(
                row_of_columns(old(self).rows@[old(self).position as int]@),
            ) && final(self).position == old(self).position + 1,
            old(self).position >= old(self).rows@.len() ==> r.is_none() && final(self).position
                == old(self).position,
    {
        if self.position < self.rows.len() {
            let datapoint = self.convert_row(&self.rows[self.position]);
            self.position = self.position + 1;
            Some(datapoint)
        } else {
            None
        }
    }

    /// Reads a row from its columns.
    pub fn convert_row(&self, row: &Vec<(String, ParquetField)>) -> (datapoint:
        RPlaceParquetDatapoint)
        ensures
            datapoint == row_of_columns(row@),
    {
        let timestamp = "timestamp".to_owned();
        let user_id = "user_id".to_owned();
        let rgb = "rgb".to_owned();
        let x1 = "x1".to_owned();
        let y1 = "y1".to_owned();
        let x2 = "x2".to_owned();
        let y2 = "y2".to_owned();
        let mut datapoint: RPlaceParquetDatapoint = RPlaceParquetDatapoint::default();
        let mut i: usize = 0;
        while i < row.len()
            invariant
                i <= row@.len(),
                timestamp@ == "timestamp"@,
                user_id@ == "user_id"@,
                rgb@ == "rgb"@,
                x1@ == "x1"@,
                y1@ == "y1"@,
                x2@ == "x2"@,
                y2@ == "y2"@,
                datapoint == row_of_columns(row@.take(i as int)),
            decreases row@.len() - i,
        {
            let name = &row[i].0;
            let field = row[i].1;
            proof {
                assert(row@.take(i + 1).drop_last() == row@.take(i as int));
            }
            match field {
                ParquetField::Long(t) => {
                    if *name == timestamp {
                        datapoint.timestamp = t;
                    }
                },
                ParquetField::Int(v) => {
                    if *name == user_id {
                        datapoint.user_id = v;
                    } else if *name == rgb {
                        datapoint.rgb = widen(v);
                    }
                },
                ParquetField::Short(s) => {
                    if *name == x1 {
                        datapoint.x1 = s;
                    } else if *name == y1 {
                        datapoint.y1 = s;
                    } else if *name == x2 {
                        datapoint.x2 = s;
                    } else if *name == y2 {
                        datapoint.y2 = s;
                    }
                },
                ParquetField::Other => {},
            }
            i += 1;
        }
        proof {
            assert(row@.take(row@.len() as int) == row@);
        }
        datapoint
    }
}

} // verus!
