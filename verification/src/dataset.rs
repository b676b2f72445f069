//! One edit of one cell as it is stored, and the grid of edit histories that
//! a canvas file is built from.

use crate::codec::{
    bool_byte, byte_bool, get_bool, get_u32, get_u64, is_bool_byte, put_bool, put_u32, put_u64,
    u32_at, u64_at,
};
use crate::data::RPlaceDatapoint;
use crate::pixel::{color_at, color_index, lemma_color_index, PixelColor, COLOR_COUNT};
use crate::search::{found_at, least_greater, lemma_sorted_in_runs, reads, run_of};
use vstd::bytes::*;
use vstd::prelude::*;
use vstd::std_specs::convert::FromSpecImpl;

verus! {

/// One edit of a cell: when it happened, who made it, which color it left,
/// and whether a moderator's rectangle put it there.
#[derive(Clone, Copy, Debug, PartialEq, Eq, Structural)]
pub struct RPlaceDatasetDatapoint {
    pub timestamp: u64,
    pub user_id: u32,
    pub color: PixelColor,
    pub is_mod: bool,
}

/// The number of bytes that every stored edit takes.
pub const DATAPOINT_SIZE: usize = 17;

/// The bytes of a stored edit: the timestamp, the user, the position of the
/// color in the palette as a `u32`, and one byte for `is_mod`.
pub open spec fn datapoint_bytes(d: RPlaceDatasetDatapoint) -> Seq<u8> {
    spec_u64_to_le_bytes(d.timestamp) + spec_u32_to_le_bytes(d.user_id) + spec_u32_to_le_bytes(
        color_index(d.color),
    ) + seq![bool_byte(d.is_mod)]
}

/// Whether an edit is stored at byte `at`: enough bytes, a color that the
/// palette has, and a byte that stands for a `bool`.
pub open spec fn holds_datapoint(bytes: Seq<u8>, at: int) -> bool {
    &&& 0 <= at
    &&& at + DATAPOINT_SIZE <= bytes.len()
    &&& u32_at(bytes, at + 12) < COLOR_COUNT
    &&& is_bool_byte(bytes[at + 16])
}

/// The edit that is stored at byte `at`.
pub open spec fn datapoint_at(bytes: Seq<u8>, at: int) -> RPlaceDatasetDatapoint {
    RPlaceDatasetDatapoint {
        timestamp: u64_at(bytes, at),
        user_id: u32_at(bytes, at + 8),
        color: color_at(u32_at(bytes, at + 12) as int).unwrap(),
        is_mod: byte_bool(bytes[at + 16]),
    }
}

/// The edit that some bytes begin with, if they begin with one.
pub open spec fn datapoint_of_bytes(bytes: Seq<u8>) -> Option<RPlaceDatasetDatapoint> {
    if holds_datapoint(bytes, 0) {
        Some(datapoint_at(bytes, 0))
    } else {
        None
    }
}

/// An edit takes `DATAPOINT_SIZE` bytes, and reading them back gives the
/// edit, whatever stands before and after them.
pub proof fn lemma_datapoint_round_trip(before: Seq<u8>, d: RPlaceDatasetDatapoint, after: Seq<u8>)
    ensures
        datapoint_bytes(d).len() == DATAPOINT_SIZE,
        holds_datapoint(before + datapoint_bytes(d) + after, before.len() as int),
        datapoint_at(before + datapoint_bytes(d) + after, before.len() as int) == d,
{
    lemma_auto_spec_u64_to_from_le_bytes();
    lemma_auto_spec_u32_to_from_le_bytes();
    lemma_color_index(d.color);
    let t = spec_u64_to_le_bytes(d.timestamp);
    let u = spec_u32_to_le_bytes(d.user_id);
    let c = spec_u32_to_le_bytes(color_index(d.color));
    let m = seq![bool_byte(d.is_mod)];
    let all = before + datapoint_bytes(d) + after;
    let at = before.len() as int;
    assert(all.subrange(at, at + 8) == t);
    assert(all.subrange(at + 8, at + 12) == u);
    assert(all.subrange(at + 12, at + 16) == c);
    assert(all[at + 16] == bool_byte(d.is_mod));
}

/// Bytes that hold the bytes of an edit at `at` hold the edit there.
pub proof fn lemma_datapoint_at(bytes: Seq<u8>, at: int, d: RPlaceDatasetDatapoint)
    requires
        0 <= at,
        at + DATAPOINT_SIZE <= bytes.len(),
        bytes.subrange(at, at + DATAPOINT_SIZE) == datapoint_bytes(d),
    ensures
        holds_datapoint(bytes, at),
        datapoint_at(bytes, at) == d,
{
    let before = bytes.subrange(0, at);
    let after = bytes.subrange(at + DATAPOINT_SIZE, bytes.len() as int);
    lemma_datapoint_round_trip(before, d, after);
    assert(bytes =~= before + bytes.subrange(at, at + DATAPOINT_SIZE) + after);
}

/// Where an edit is stored, it is stored in any bytes that agree on its
/// `DATAPOINT_SIZE` bytes.
pub proof fn lemma_datapoint_in_part(bytes: Seq<u8>, from: int, to: int, at: int)
    requires
        0 <= from <= at,
        at + DATAPOINT_SIZE <= to <= bytes.len(),
    ensures
        holds_datapoint(bytes.subrange(from, to), at - from) == holds_datapoint(bytes, at),
        datapoint_at(bytes.subrange(from, to), at - from) == datapoint_at(bytes, at),
        u64_at(bytes.subrange(from, to), at - from) == u64_at(bytes, at),
{
    let part = bytes.subrange(from, to);
    let a = at - from;
    assert(part.subrange(a, a + 8) == bytes.subrange(at, at + 8));
    assert(part.subrange(a + 8, a + 8 + 4) == bytes.subrange(at + 8, at + 8 + 4));
    assert(part.subrange(a + 12, a + 12 + 4) == bytes.subrange(at + 12, at + 12 + 4));
}

impl RPlaceDatasetDatapoint {
    /// The edit that stands at the head of every cell's history before its
    /// timestamp is set: time 0, user 0, black, no moderator.
    pub open spec fn start_spec() -> Self {
        RPlaceDatasetDatapoint { timestamp: 0, user_id: 0, color: PixelColor::Black, is_mod: false }
    }

    /// The edit that stands at the head of every cell's history before its
    /// timestamp is set.
    #[verifier::when_used_as_spec(start_spec)]
    pub fn start() -> (d: Self)
        ensures
            d == Self::start_spec(),
    {
        RPlaceDatasetDatapoint { timestamp: 0, user_id: 0, color: PixelColor::Black, is_mod: false }
    }

    /// The bytes under which the edit is stored.
    pub fn to_bytes(&self) -> (bytes: Vec<u8>)
        ensures
            bytes@ == datapoint_bytes(*self),
            bytes@.len() == DATAPOINT_SIZE,
    {
        let mut bytes: Vec<u8> = Vec::new();
        put_u64(&mut bytes, self.timestamp);
        put_u32(&mut bytes, self.user_id);
        put_u32(&mut bytes, self.color.index());
        put_bool(&mut bytes, self.is_mod);
        proof {
            lemma_datapoint_round_trip(Seq::empty(), *self, Seq::empty());
            assert(bytes@ == datapoint_bytes(*self));
        }
        bytes
    }

    /// Reads the edit that `bytes` begin with. `None` where they are too
    /// few, name a color that the palette lacks, or hold another byte than 0
    /// or 1 for `is_mod`. What follows the edit is not looked at.
    pub fn from_bytes(bytes: &[u8]) -> (r: Option<Self>)
        ensures
            r == datapoint_of_bytes(bytes@),
    {
        if bytes.len() < DATAPOINT_SIZE {
            return None;
        }
        let timestamp = get_u64(bytes, 0);
        let user_id = get_u32(bytes, 8);
        let color = match PixelColor::from_index(get_u32(bytes, 12)) {
            Some(c) => c,
            None => {
                return None;
            },
        };
        let is_mod = match get_bool(bytes, 16) {
            Some(b) => b,
            None => {
                return None;
            },
        };
        Some(RPlaceDatasetDatapoint { timestamp, user_id, color, is_mod })
    }

    /// The number of bytes that a stored edit takes, measured on the
    /// encoding of `start()`.
    pub fn compressed_size() -> (n: u8)
        ensures
            n == DATAPOINT_SIZE,
    {
        let datapoint = RPlaceDatasetDatapoint::start();
        datapoint.to_bytes().len() as u8
    }
}

/// The histories of the cells of a square canvas while they are gathered:
/// `data[y][x]` is the history of the cell `(x, y)`.
#[derive(Debug)]
pub struct RPlaceDataset {
    pub data: Vec<Vec<Vec<RPlaceDatasetDatapoint>>>,
}

impl RPlaceDataset {
    /// The history of the cell `(x, y)`.
    pub open spec fn history(&self, x: int, y: int) -> Seq<RPlaceDatasetDatapoint> {
        self.data@[y]@[x]@
    }

    /// Whether the histories are those of a square canvas of side `size`.
    pub open spec fn is_square(&self, size: int) -> bool {
        &&& self.data@.len() == size
        &&& forall|y: int| 0 <= y < size ==> (#[trigger] self.data@[y])@.len() == size
    }

    /// The histories of a square canvas of side `size` on which nothing has
    /// happened: every cell has the one edit `start()`, which stands for "no
    /// edit yet".
    pub fn new_with_initial_datapoint(size: usize) -> (d: RPlaceDataset)
        ensures
            d.is_square(size as int),
            forall|x: int, y: int|
                0 <= x < size && 0 <= y < size ==> #[trigger] d.history(x, y)
                    == seq![RPlaceDatasetDatapoint::start_spec()],
    {
        let mut data: Vec<Vec<Vec<RPlaceDatasetDatapoint>>> = Vec::new();
        let mut y: usize = 0;
        while y < size
            invariant
                y <= size,
                data@.len() == y,
                forall|b: int| 0 <= b < y ==> (#[trigger] data@[b])@.len() == size,
                forall|a: int, b: int|
                    0 <= a < size && 0 <= b < y ==> #[trigger] data@[b]@[a]@
                        == seq![RPlaceDatasetDatapoint::start_spec()],
            decreases size - y,
        {
            let mut row: Vec<Vec<RPlaceDatasetDatapoint>> = Vec::new();
            let mut x: usize = 0;
            while x < size
                invariant
                    x <= size,
                    row@.len() == x,
                    forall|a: int|
                        0 <= a < x ==> (#[trigger] row@[a])@
                            == seq![RPlaceDatasetDatapoint::start_spec()],
                decreases size - x,
            {
                let mut vector: Vec<RPlaceDatasetDatapoint> = Vec::new();
                let datapoint = RPlaceDatasetDatapoint::start();
                vector.push(datapoint);
                assert(vector@ == seq![RPlaceDatasetDatapoint::start_spec()]);
                row.push(vector);
                x += 1;
            }
            data.push(row);
            y += 1;
        }
        RPlaceDataset { data }
    }

    /// Puts an edit at the end of the history of the cell `(x, y)`.
    pub fn add(&mut self, datapoint: RPlaceDatasetDatapoint, x: usize, y: usize)
        requires
            y < old(self).data@.len(),
            x < old(self).data@[y as int]@.len(),
        ensures
            final(self).data@.len() == old(self).data@.len(),
            forall|b: int|
                0 <= b < old(self).data@.len() ==> (#[trigger] final(self).data@[b])@.len() == old(
                    self,
                ).data@[b]@.len(),
            final(self).history(x as int, y as int) == old(self).history(x as int, y as int).push(
                datapoint,
            ),
            forall|a: int, b: int|
                0 <= b < old(self).data@.len() && 0 <= a < old(self).data@[b]@.len() && !(a == x && b
                    == y) ==> #[trigger] final(self).data@[b]@[a] == old(self).data@[b]@[a],
    {
        self.data[y][x].push(datapoint);
    }

    /// Searches the edits from position `start_idx` up to, not including,
    /// `end_idx` of the history of the cell `(x, y)` for the last that is
    /// dated at or before `timestamp`, and gives its position in the history:
    /// `start_idx` where all of them are dated after `timestamp`.
    pub fn search(
        &self,
        timestamp: u64,
        x: usize,
        y: usize,
        start_idx: usize,
        end_idx: usize,
    ) -> (r:
        usize)
        requires
            y < self.data@.len(),
            x < self.data@[y as int]@.len(),
            start_idx < end_idx <= self.history(x as int, y as int).len(),
            end_idx <= i64::MAX,
            forall|i: int, j: int|
                start_idx <= i <= j < end_idx ==> self.history(x as int, y as int)[i].timestamp
                    <= self.history(x as int, y as int)[j].timestamp,
        ensures
            start_idx <= r < end_idx,
            r == start_idx || self.history(x as int, y as int)[r as int].timestamp <= timestamp,
            r + 1 < end_idx ==> self.history(x as int, y as int)[r + 1].timestamp > timestamp,
    {
        let pixel_history = &self.data[y][x];
        let ghost ts = pixel_history@.map_values(|d: RPlaceDatasetDatapoint| d.timestamp);
        let element = |i: usize| -> (v: u64)
            requires
                i < pixel_history@.len(),
            ensures
                v == pixel_history@[i as int].timestamp,
            { pixel_history[i].timestamp };
        proof {
            assert forall|i: int, j: int|
                start_idx <= i <= j <= end_idx - 1 implies ts[i] <= ts[j] by {
                assert(ts[i] == pixel_history@[i].timestamp);
                assert(ts[j] == pixel_history@[j].timestamp);
            }
            lemma_sorted_in_runs(ts, timestamp, start_idx as int, end_idx - 1);
            assert(reads(element, ts, start_idx as int, end_idx - 1));
        }
        let result = least_greater(&timestamp, start_idx as i64, end_idx as i64 - 1, element);
        assert(found_at(ts, timestamp, start_idx as int, end_idx - 1, result));
        let index = match result {
            Ok(value) => value as usize,
            Err(value) => if value as usize > start_idx {
                (value - 1) as usize
            } else {
                start_idx
            },
        };
        proof {
            assert(index == start_idx || run_of(ts[index as int], timestamp) <= 1);
            assert(ts[index as int] == pixel_history@[index as int].timestamp);
            if index + 1 < end_idx {
                assert(run_of(ts[index + 1], timestamp) == 2);
                assert(ts[index + 1] == pixel_history@[index + 1].timestamp);
            }
        }
        index
    }
}

impl From<RPlaceDatapoint> for RPlaceDatasetDatapoint {
    /// The edit as it is stored: without its cell.
    fn from(item: RPlaceDatapoint) -> (d: Self) {
        RPlaceDatasetDatapoint {
            timestamp: item.timestamp,
            user_id: item.user_id,
            color: item.color,
            is_mod: item.is_mod,
        }
    }
}

impl FromSpecImpl<RPlaceDatapoint> for RPlaceDatasetDatapoint {
    open spec fn obeys_from_spec() -> bool {
        true
    }

    open spec fn from_spec(item: RPlaceDatapoint) -> Self {
        RPlaceDatasetDatapoint {
            timestamp: item.timestamp,
            user_id: item.user_id,
            color: item.color,
            is_mod: item.is_mod,
        }
    }
}

} // verus!
