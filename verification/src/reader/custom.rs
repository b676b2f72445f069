//! The canvas file: its layout, the tables that are written into it, and the
//! store that reads it in place.
//!
//! A file is a header followed by a flat array of edits:
//!
//! ```text
//! 0      canvas_width        u32
//! 4      canvas_height       u32
//! 8      min_timestamp       u64
//! 16     max_timestamp       u64
//! 24     datapoint_size      u8
//! 25     number of cells     u64      (canvas_width * canvas_height)
//! 33     one entry per cell, row by row: offset u32, length u32
//! 33+8n  number of edits     u64
//! 41+8n  the edits, DATAPOINT_SIZE bytes each
//! ```
//!
//! The entry of a cell names the edits of that cell: `length` of them, the
//! first at position `offset` of the array. They are in the order in which
//! they happened, and the first of them is the sentinel, an edit that nobody
//! made, dated one unit before `min_timestamp`. The sentinels of all cells
//! have one color, the color of a cell that nobody has painted.

use crate::canvas::CanvasPixel;
use crate::codec::{
    get_u32, get_u64, get_u8, lemma_le_bytes_len, lemma_u32_at, lemma_u64_at, put_u32, put_u64,
    put_u8, u32_at, u64_at,
};
use crate::dataset::{
    datapoint_at, datapoint_bytes, datapoint_of_bytes, holds_datapoint, lemma_datapoint_in_part,
    RPlaceDatasetDatapoint, DATAPOINT_SIZE,
};
use crate::pixel::{color_index, lemma_color_at, PixelColor, COLOR_COUNT};
use crate::search::{found_at, least_greater, lemma_sorted_in_runs, reads, run_of};
use vstd::bytes::*;
use vstd::prelude::*;

verus! {

/// The number of bytes of the header that come before the entries.
pub const HEADER_FIXED_SIZE: usize = 33;

/// The most cells whose entries this crate indexes with `usize` on every
/// machine it verifies for.
pub const MAX_CELLS: u64 = 0x0fff_ffff;

/// Why a file cannot be used.
#[derive(Clone, Copy, Debug, PartialEq, Eq, Structural)]
pub enum StoreError {
    /// The bytes are not a canvas file: too short, sizes that do not fit
    /// each other, an entry that points outside the array, an edit that
    /// cannot be read, a history out of order, or sentinels of more than one
    /// color.
    Corrupt,
    /// The file could not be opened or mapped.
    Io,
}

/// Where the edits of one cell are in the array.
#[derive(Clone, Copy, Debug, PartialEq, Eq, Structural)]
pub struct PrecompressedDatapointHistoryMetadata {
    pub offset: u32,
    pub length: u32,
}

impl Default for PrecompressedDatapointHistoryMetadata {
    /// The entry of no edits.
    fn default() -> (m: Self)
        ensures
            m.offset == 0,
            m.length == 0,
    {
        PrecompressedDatapointHistoryMetadata { offset: 0, length: 0 }
    }
}

/// The history of one cell as the contracts of this crate speak of it.
pub type History = Seq<RPlaceDatasetDatapoint>;

/// Whether a history is one that a canvas with these bounds can hold: it
/// starts with the sentinel, every later edit lies within the bounds, and no
/// edit is dated before the one in front of it.
pub open spec fn valid_history(h: History, min_timestamp: u64, max_timestamp: u64) -> bool {
    &&& 1 <= h.len() <= u32::MAX
    &&& h[0].timestamp == min_timestamp - 1
    &&& forall|k: int|
        1 <= k < h.len() ==> min_timestamp <= (#[trigger] h[k]).timestamp <= max_timestamp
    &&& forall|i: int, j: int| 0 <= i <= j < h.len() ==> h[i].timestamp <= h[j].timestamp
}

/// The content of a canvas file.
pub struct DatasetView {
    pub width: nat,
    pub height: nat,
    pub min_timestamp: u64,
    pub max_timestamp: u64,
    /// The histories of the cells, row by row.
    pub histories: Seq<History>,
}

impl DatasetView {
    /// The color of a cell that nobody has painted: that of the sentinels.
    pub open spec fn default_color(self) -> PixelColor {
        self.histories[0][0].color
    }

    /// Whether the content is that of a canvas: sizes that fit, a valid
    /// history for every cell, and one color for all sentinels.
    pub open spec fn wf(self) -> bool {
        &&& 0 < self.width <= u32::MAX
        &&& 0 < self.height <= u32::MAX
        &&& self.width * self.height <= MAX_CELLS
        &&& 1 <= self.min_timestamp
        &&& self.histories.len() == self.width * self.height
        &&& forall|c: int|
            0 <= c < self.histories.len() ==> valid_history(
                #[trigger] self.histories[c],
                self.min_timestamp,
                self.max_timestamp,
            ) && self.histories[c][0].color == self.default_color()
    }

    /// Whether `(x, y)` is a cell of the canvas.
    pub open spec fn has_cell(self, x: int, y: int) -> bool {
        0 <= x < self.width && 0 <= y < self.height
    }

    /// The history of the cell `(x, y)`.
    pub open spec fn history(self, x: int, y: int) -> History {
        self.histories[y * self.width + x]
    }

    /// The timestamps of the history of the cell `(x, y)`.
    pub open spec fn timestamps(self, x: int, y: int) -> Seq<u64> {
        self.history(x, y).map_values(|d: RPlaceDatasetDatapoint| d.timestamp)
    }
}

/// The cells of a canvas are numbered row by row, and each number names one
/// cell.
pub proof fn lemma_cell_number(width: int, height: int, x: int, y: int)
    requires
        0 <= x < width,
        0 <= y < height,
    ensures
        0 <= y * width + x < width * height,
{
    assert(y * width + x < width * height) by (nonlinear_arith)
        requires
            0 <= x < width,
            0 <= y < height,
    ;
    assert(0 <= y * width) by (nonlinear_arith)
        requires
            0 <= y,
            0 < width,
    ;
}

/// The history of a cell of a canvas is valid.
pub proof fn lemma_history_valid(v: DatasetView, x: int, y: int)
    requires
        v.wf(),
        v.has_cell(x, y),
    ensures
        valid_history(v.history(x, y), v.min_timestamp, v.max_timestamp),
        v.history(x, y)[0].color == v.default_color(),
        v.timestamps(x, y).len() == v.history(x, y).len(),
        forall|k: int|
            0 <= k < v.history(x, y).len() ==> #[trigger] v.timestamps(x, y)[k] == v.history(
                x,
                y,
            )[k].timestamp,
{
    lemma_cell_number(v.width as int, v.height as int, x, y);
}

// ---------------------------------------------------------------------------
// The layout
// ---------------------------------------------------------------------------
/// The width that a file states.
pub open spec fn file_width(bytes: Seq<u8>) -> u32 {
    u32_at(bytes, 0)
}

/// The height that a file states.
pub open spec fn file_height(bytes: Seq<u8>) -> u32 {
    u32_at(bytes, 4)
}

/// The time of the first edit that a file states.
pub open spec fn file_min_timestamp(bytes: Seq<u8>) -> u64 {
    u64_at(bytes, 8)
}

/// The time of the last edit that a file states.
pub open spec fn file_max_timestamp(bytes: Seq<u8>) -> u64 {
    u64_at(bytes, 16)
}

/// The number of cells of a file's canvas.
pub open spec fn file_cells(bytes: Seq<u8>) -> int {
    file_width(bytes) * file_height(bytes)
}

/// The number of bytes of a header with `cells` entries.
pub open spec fn header_size(cells: int) -> int {
    HEADER_FIXED_SIZE + 8 * cells
}

/// The entry of cell `c`.
pub open spec fn file_entry(bytes: Seq<u8>, c: int) -> PrecompressedDatapointHistoryMetadata {
    PrecompressedDatapointHistoryMetadata {
        offset: u32_at(bytes, HEADER_FIXED_SIZE + 8 * c),
        length: u32_at(bytes, HEADER_FIXED_SIZE + 8 * c + 4),
    }
}

/// The number of edits that a file states.
pub open spec fn file_count(bytes: Seq<u8>) -> u64 {
    u64_at(bytes, header_size(file_cells(bytes)))
}

/// The byte at which edit `j` of the array starts.
pub open spec fn edit_position(bytes: Seq<u8>, j: int) -> int {
    header_size(file_cells(bytes)) + 8 + DATAPOINT_SIZE * j
}

/// The byte at which edit `k` of the history that an entry names starts.
pub open spec fn entry_edit_position(
    bytes: Seq<u8>,
    entry: PrecompressedDatapointHistoryMetadata,
    k: int,
) -> int {
    edit_position(bytes, entry.offset + k)
}

/// The history that an entry names.
pub open spec fn entry_history(
    bytes: Seq<u8>,
    entry: PrecompressedDatapointHistoryMetadata,
) -> History {
    Seq::new(
        entry.length as nat,
        |k: int| datapoint_at(bytes, entry_edit_position(bytes, entry, k)),
    )
}

/// Whether the header of a file is whole and its sizes fit each other and
/// the number of bytes.
pub open spec fn valid_header(bytes: Seq<u8>) -> bool {
    &&& bytes.len() >= HEADER_FIXED_SIZE
    &&& file_width(bytes) > 0
    &&& file_height(bytes) > 0
    &&& file_cells(bytes) <= MAX_CELLS
    &&& file_min_timestamp(bytes) >= 1
    &&& bytes[24] == DATAPOINT_SIZE
    &&& u64_at(bytes, 25) == file_cells(bytes)
    &&& bytes.len() >= header_size(file_cells(bytes)) + 8
    &&& edit_position(bytes, file_count(bytes) as int) <= bytes.len()
}

/// Whether an entry names edits that the array has, each of them readable,
/// and together a valid history.
pub open spec fn valid_entry(bytes: Seq<u8>, entry: PrecompressedDatapointHistoryMetadata) -> bool {
    &&& entry.offset + entry.length <= file_count(bytes)
    &&& forall|k: int|
        0 <= k < entry.length ==> holds_datapoint(
            bytes,
            #[trigger] entry_edit_position(bytes, entry, k),
        )
    &&& valid_history(
        entry_history(bytes, entry),
        file_min_timestamp(bytes),
        file_max_timestamp(bytes),
    )
}

/// The color of the sentinel of the history that an entry names.
pub open spec fn sentinel_color(
    bytes: Seq<u8>,
    entry: PrecompressedDatapointHistoryMetadata,
) -> PixelColor {
    datapoint_at(bytes, entry_edit_position(bytes, entry, 0)).color
}

/// Whether some bytes are a canvas file: a valid header, for every cell an
/// entry that names a valid history, and one color for all sentinels.
pub open spec fn valid_file(bytes: Seq<u8>) -> bool {
    &&& valid_header(bytes)
    &&& forall|c: int|
        0 <= c < file_cells(bytes) ==> valid_entry(bytes, #[trigger] file_entry(bytes, c))
            && sentinel_color(bytes, file_entry(bytes, c)) == sentinel_color(
            bytes,
            file_entry(bytes, 0),
        )
}

/// The content of a canvas file.
pub open spec fn file_view(bytes: Seq<u8>) -> DatasetView {
    DatasetView {
        width: file_width(bytes) as nat,
        height: file_height(bytes) as nat,
        min_timestamp: file_min_timestamp(bytes),
        max_timestamp: file_max_timestamp(bytes),
        histories: Seq::new(
            file_cells(bytes) as nat,
            |c: int| entry_history(bytes, file_entry(bytes, c)),
        ),
    }
}

/// The content of a valid file is that of a canvas.
pub proof fn lemma_file_view_wf(bytes: Seq<u8>)
    requires
        valid_file(bytes),
    ensures
        file_view(bytes).wf(),
{
    let v = file_view(bytes);
    assert(file_width(bytes) * file_height(bytes) >= 0) by (nonlinear_arith)
        requires
            file_width(bytes) >= 0,
            file_height(bytes) >= 0,
    ;
    assert forall|c: int| 0 <= c < v.histories.len() implies valid_history(
        #[trigger] v.histories[c],
        v.min_timestamp,
        v.max_timestamp,
    ) && v.histories[c][0].color == v.default_color() by {
        assert(valid_entry(bytes, file_entry(bytes, c)));
        assert(valid_entry(bytes, file_entry(bytes, 0)));
        assert(v.histories[c][0].color == sentinel_color(bytes, file_entry(bytes, c)));
        assert(v.histories[0][0].color == sentinel_color(bytes, file_entry(bytes, 0)));
    }
}

// ---------------------------------------------------------------------------
// The header as a value
// ---------------------------------------------------------------------------
/// The header of a canvas file.
#[derive(Debug)]
pub struct PrecompressedDatasetMetadata {
    pub canvas_width: u32,
    pub canvas_height: u32,
    pub min_timestamp: u64,
    pub max_timestamp: u64,
    pub datapoint_size: u8,
    pub history_metadata: Vec<PrecompressedDatapointHistoryMetadata>,
}

/// The bytes of one entry.
pub open spec fn entry_bytes(e: PrecompressedDatapointHistoryMetadata) -> Seq<u8> {
    spec_u32_to_le_bytes(e.offset) + spec_u32_to_le_bytes(e.length)
}

/// The bytes of some entries, one after the other.
pub open spec fn entries_bytes(entries: Seq<PrecompressedDatapointHistoryMetadata>) -> Seq<u8>
    decreases entries.len(),
{
    if entries.len() == 0 {
        Seq::empty()
    } else {
        entries_bytes(entries.drop_last()) + entry_bytes(entries.last())
    }
}

/// The bytes of a header before its entries.
pub open spec fn fixed_header_bytes(m: PrecompressedDatasetMetadata) -> Seq<u8> {
    spec_u32_to_le_bytes(m.canvas_width) + spec_u32_to_le_bytes(m.canvas_height)
        + spec_u64_to_le_bytes(m.min_timestamp) + spec_u64_to_le_bytes(m.max_timestamp)
        + seq![m.datapoint_size] + spec_u64_to_le_bytes(m.history_metadata@.len() as u64)
}

/// The bytes of a header.
pub open spec fn metadata_bytes(m: PrecompressedDatasetMetadata) -> Seq<u8> {
    fixed_header_bytes(m) + entries_bytes(m.history_metadata@)
}

/// Entries take eight bytes each.
pub proof fn lemma_entries_bytes_len(entries: Seq<PrecompressedDatapointHistoryMetadata>)
    ensures
        entries_bytes(entries).len() == 8 * entries.len(),
    decreases entries.len(),
{
    lemma_auto_spec_u32_to_from_le_bytes();
    if entries.len() > 0 {
        lemma_entries_bytes_len(entries.drop_last());
    }
}

/// A header takes `HEADER_FIXED_SIZE` bytes and eight more for each entry.
pub proof fn lemma_metadata_bytes_len(m: PrecompressedDatasetMetadata)
    ensures
        fixed_header_bytes(m).len() == HEADER_FIXED_SIZE,
        metadata_bytes(m).len() == header_size(m.history_metadata@.len() as int),
{
    lemma_auto_spec_u32_to_from_le_bytes();
    lemma_auto_spec_u64_to_from_le_bytes();
    lemma_entries_bytes_len(m.history_metadata@);
}

impl PrecompressedDatasetMetadata {
    /// The header of a square canvas of side `canvas_size` on which nothing
    /// is known yet: the widest bounds, and an empty entry for every cell.
    pub fn new(canvas_size: usize) -> (m: PrecompressedDatasetMetadata)
        requires
            canvas_size <= u32::MAX,
            canvas_size * canvas_size <= usize::MAX,
        ensures
            m.canvas_width == canvas_size,
            m.canvas_height == canvas_size,
            m.min_timestamp == u64::MIN,
            m.max_timestamp == u64::MAX,
            m.datapoint_size == DATAPOINT_SIZE,
            m.history_metadata@ == Seq::new(
                (canvas_size * canvas_size) as nat,
                |c: int| PrecompressedDatapointHistoryMetadata { offset: 0, length: 0 },
            ),
    {
        let default_metadata = PrecompressedDatapointHistoryMetadata::default();
        let cells = canvas_size * canvas_size;
        let mut history_metadata: Vec<PrecompressedDatapointHistoryMetadata> = Vec::new();
        let mut c: usize = 0;
        while c < cells
            invariant
                c <= cells,
                default_metadata == (PrecompressedDatapointHistoryMetadata { offset: 0, length: 0 }),
                history_metadata@ == Seq::new(
                    c as nat,
                    |c: int| PrecompressedDatapointHistoryMetadata { offset: 0, length: 0 },
                ),
            decreases cells - c,
        {
            history_metadata.push(default_metadata);
            c += 1;
        }
        PrecompressedDatasetMetadata {
            canvas_width: canvas_size as u32,
            canvas_height: canvas_size as u32,
            min_timestamp: u64::MIN,
            max_timestamp: u64::MAX,
            datapoint_size: RPlaceDatasetDatapoint::compressed_size(),
            history_metadata,
        }
    }

    /// The bytes of the header.
    pub fn to_bytes(&self) -> (bytes: Vec<u8>)
        ensures
            bytes@ == metadata_bytes(*self),
            bytes@.len() == header_size(self.history_metadata@.len() as int),
    {
        let mut bytes: Vec<u8> = Vec::new();
        put_u32(&mut bytes, self.canvas_width);
        put_u32(&mut bytes, self.canvas_height);
        put_u64(&mut bytes, self.min_timestamp);
        put_u64(&mut bytes, self.max_timestamp);
        put_u8(&mut bytes, self.datapoint_size);
        put_u64(&mut bytes, self.history_metadata.len() as u64);
        assert(bytes@ == fixed_header_bytes(*self));
        let mut c: usize = 0;
        while c < self.history_metadata.len()
            invariant
                c <= self.history_metadata@.len(),
                bytes@ == fixed_header_bytes(*self) + entries_bytes(self.history_metadata@.take(c as int)),
            decreases self.history_metadata@.len() - c,
        {
            let entry = self.history_metadata[c];
            let ghost before = bytes@;
            put_u32(&mut bytes, entry.offset);
            put_u32(&mut bytes, entry.length);
            proof {
                let next = self.history_metadata@.take(c + 1);
                assert(next.drop_last() == self.history_metadata@.take(c as int));
                assert(next.last() == entry);
                assert(bytes@ == before + entry_bytes(entry));
                assert(bytes@ == fixed_header_bytes(*self) + entries_bytes(next));
            }
            c += 1;
        }
        proof {
            assert(self.history_metadata@.take(c as int) == self.history_metadata@);
            lemma_metadata_bytes_len(*self);
        }
        bytes
    }

    /// The number of bytes of the header of a square canvas of side
    /// `canvas_size`.
    pub fn compressed_size(canvas_size: usize) -> (n: u64)
        requires
            header_size(canvas_size * canvas_size) <= u64::MAX,
        ensures
            n == header_size(canvas_size * canvas_size),
    {
        assert(canvas_size * canvas_size >= canvas_size) by (nonlinear_arith)
            requires
                0 <= canvas_size,
        ;
        let side = canvas_size as u64;
        HEADER_FIXED_SIZE as u64 + 8 * (side * side)
    }

    /// The entry of the cell `(x, y)`.
    pub fn get(&self, x: u32, y: u32) -> (e: &PrecompressedDatapointHistoryMetadata)
        requires
            x < self.canvas_width,
            y < self.canvas_height,
            self.history_metadata@.len() == self.canvas_width * self.canvas_height,
        ensures
            *e == self.history_metadata@[y * self.canvas_width + x],
    {
        proof {
            lemma_cell_number(
                self.canvas_width as int,
                self.canvas_height as int,
                x as int,
                y as int,
            );
        }
        let cells = self.history_metadata.len();
        assert(0 <= y * self.canvas_width <= y * self.canvas_width + x) by (nonlinear_arith)
            requires
                0 <= y,
                0 <= self.canvas_width,
                0 <= x,
        ;
        let idx = y as usize * self.canvas_width as usize + x as usize;
        &self.history_metadata[idx]
    }
}

// ---------------------------------------------------------------------------
// The file as a value
// ---------------------------------------------------------------------------
/// The edits of all cells, one history after the other.
#[derive(Debug)]
pub struct PrecompressedDatasetData {
    pub data: Vec<RPlaceDatasetDatapoint>,
}

/// A canvas file before it is written: the header and the edits.
#[derive(Debug)]
pub struct PrecompressedDataset {
    pub metadata: PrecompressedDatasetMetadata,
    pub data: PrecompressedDatasetData,
}

/// The bytes of some edits, one after the other.
pub open spec fn edits_bytes(edits: Seq<RPlaceDatasetDatapoint>) -> Seq<u8>
    decreases edits.len(),
{
    if edits.len() == 0 {
        Seq::empty()
    } else {
        edits_bytes(edits.drop_last()) + datapoint_bytes(edits.last())
    }
}

/// The bytes of a canvas file: the header, the number of edits, the edits.
pub open spec fn dataset_bytes(d: PrecompressedDataset) -> Seq<u8> {
    metadata_bytes(d.metadata) + spec_u64_to_le_bytes(d.data.data@.len() as u64) + edits_bytes(
        d.data.data@,
    )
}

impl View for PrecompressedDataset {
    type V = DatasetView;

    /// The content of the file: for every cell the edits that its entry
    /// names.
    open spec fn view(&self) -> DatasetView {
        DatasetView {
            width: self.metadata.canvas_width as nat,
            height: self.metadata.canvas_height as nat,
            min_timestamp: self.metadata.min_timestamp,
            max_timestamp: self.metadata.max_timestamp,
            histories: Seq::new(
                self.metadata.history_metadata@.len(),
                |c: int|
                    self.data.data@.subrange(
                        self.metadata.history_metadata@[c].offset as int,
                        self.metadata.history_metadata@[c].offset
                            + self.metadata.history_metadata@[c].length,
                    ),
            ),
        }
    }
}

impl PrecompressedDataset {
    /// Whether the value is a canvas file: the header says how large an edit
    /// is, every entry names edits that are there, and the content is that
    /// of a canvas.
    pub open spec fn wf(&self) -> bool {
        &&& self.metadata.datapoint_size == DATAPOINT_SIZE
        &&& forall|c: int|
            0 <= c < self.metadata.history_metadata@.len() ==> (
            #[trigger] self.metadata.history_metadata@[c]).offset
                + self.metadata.history_metadata@[c].length <= self.data.data@.len()
        &&& self@.wf()
    }

    /// The bytes of the file. Those of a well-formed value are a canvas file
    /// with the content of the value.
    pub fn to_bytes(&self) -> (bytes: Vec<u8>)
        ensures
            bytes@ == dataset_bytes(*self),
            self.wf() ==> valid_file(bytes@) && file_view(bytes@) == self@,
    {
        let edits = self.data.data.len();
        proof {
            if self.wf() {
                lemma_written_file_opens(*self);
            }
        }
        let mut bytes = self.metadata.to_bytes();
        put_u64(&mut bytes, self.data.data.len() as u64);
        let ghost head = bytes@;
        let mut j: usize = 0;
        while j < self.data.data.len()
            invariant
                j <= self.data.data@.len(),
                bytes@ == head + edits_bytes(self.data.data@.take(j as int)),
            decreases self.data.data@.len() - j,
        {
            let mut edit = self.data.data[j].to_bytes();
            proof {
                assert(self.data.data@.take(j + 1).drop_last() == self.data.data@.take(j as int));
            }
            bytes.append(&mut edit);
            j += 1;
        }
        proof {
            assert(self.data.data@.take(j as int) == self.data.data@);
        }
        bytes
    }
}

/// The entry at position `c` of some entries lies at byte `8 * c` of their
/// bytes.
pub proof fn lemma_entries_bytes_at(entries: Seq<PrecompressedDatapointHistoryMetadata>, c: int)
    requires
        0 <= c < entries.len(),
    ensures
        entries_bytes(entries).len() == 8 * entries.len(),
        entries_bytes(entries).subrange(8 * c, 8 * c + 4) == spec_u32_to_le_bytes(entries[c].offset),
        entries_bytes(entries).subrange(8 * c + 4, 8 * c + 8) == spec_u32_to_le_bytes(
            entries[c].length,
        ),
    decreases entries.len(),
{
    lemma_entries_bytes_len(entries);
    let front = entries.drop_last();
    lemma_entries_bytes_len(front);
    lemma_le_bytes_len(0, entries.last().offset);
    lemma_le_bytes_len(0, entries.last().length);
    let all = entries_bytes(entries);
    if c == entries.len() - 1 {
        assert(all.subrange(8 * c, 8 * c + 4) == spec_u32_to_le_bytes(entries[c].offset));
        assert(all.subrange(8 * c + 4, 8 * c + 8) == spec_u32_to_le_bytes(entries[c].length));
    } else {
        lemma_entries_bytes_at(front, c);
        assert(front[c] == entries[c]);
        assert(all.subrange(8 * c, 8 * c + 4) == entries_bytes(front).subrange(8 * c, 8 * c + 4));
        assert(all.subrange(8 * c + 4, 8 * c + 8) == entries_bytes(front).subrange(
            8 * c + 4,
            8 * c + 8,
        ));
    }
}

/// The edit at position `j` of some edits lies at byte `DATAPOINT_SIZE * j`
/// of their bytes.
pub proof fn lemma_edits_bytes_at(edits: Seq<RPlaceDatasetDatapoint>, j: int)
    requires
        0 <= j < edits.len(),
    ensures
        edits_bytes(edits).len() == DATAPOINT_SIZE * edits.len(),
        edits_bytes(edits).subrange(DATAPOINT_SIZE * j, DATAPOINT_SIZE * j + DATAPOINT_SIZE)
            == datapoint_bytes(edits[j]),
    decreases edits.len(),
{
    lemma_edits_bytes_len(edits);
    let front = edits.drop_last();
    lemma_edits_bytes_len(front);
    crate::dataset::lemma_datapoint_round_trip(Seq::empty(), edits.last(), Seq::empty());
    let all = edits_bytes(edits);
    if j == edits.len() - 1 {
        assert(all.subrange(DATAPOINT_SIZE * j, DATAPOINT_SIZE * j + DATAPOINT_SIZE)
            == datapoint_bytes(edits[j]));
    } else {
        lemma_edits_bytes_at(front, j);
        assert(front[j] == edits[j]);
        assert(all.subrange(DATAPOINT_SIZE * j, DATAPOINT_SIZE * j + DATAPOINT_SIZE)
            == edits_bytes(front).subrange(
                DATAPOINT_SIZE * j,
                DATAPOINT_SIZE * j + DATAPOINT_SIZE,
            ));
    }
}

/// Edits take `DATAPOINT_SIZE` bytes each.
pub proof fn lemma_edits_bytes_len(edits: Seq<RPlaceDatasetDatapoint>)
    ensures
        edits_bytes(edits).len() == DATAPOINT_SIZE * edits.len(),
    decreases edits.len(),
{
    if edits.len() > 0 {
        lemma_edits_bytes_len(edits.drop_last());
        crate::dataset::lemma_datapoint_round_trip(Seq::empty(), edits.last(), Seq::empty());
    }
}

/// What the bytes of a file hold: the header as it was written, and every
/// edit where the layout puts it.
pub proof fn lemma_dataset_bytes(d: PrecompressedDataset)
    requires
        d.metadata.history_metadata@.len() == d.metadata.canvas_width * d.metadata.canvas_height,
        d.metadata.history_metadata@.len() <= u64::MAX,
        d.data.data@.len() <= u64::MAX,
    ensures
        dataset_bytes(d).len() == header_size(d.metadata.history_metadata@.len() as int) + 8
            + DATAPOINT_SIZE * d.data.data@.len(),
        file_width(dataset_bytes(d)) == d.metadata.canvas_width,
        file_height(dataset_bytes(d)) == d.metadata.canvas_height,
        file_min_timestamp(dataset_bytes(d)) == d.metadata.min_timestamp,
        file_max_timestamp(dataset_bytes(d)) == d.metadata.max_timestamp,
        dataset_bytes(d)[24] == d.metadata.datapoint_size,
        u64_at(dataset_bytes(d), 25) == d.metadata.history_metadata@.len(),
        file_cells(dataset_bytes(d)) == d.metadata.history_metadata@.len(),
        file_count(dataset_bytes(d)) == d.data.data@.len(),
        forall|c: int|
            0 <= c < d.metadata.history_metadata@.len() ==> #[trigger] file_entry(
                dataset_bytes(d),
                c,
            )
                == d.metadata.history_metadata@[c],
        forall|j: int|
            0 <= j < d.data.data@.len() ==> holds_datapoint(
                dataset_bytes(d),
                #[trigger] edit_position(dataset_bytes(d), j),
            ) && datapoint_at(dataset_bytes(d), edit_position(dataset_bytes(d), j))
                == d.data.data@[j],
{
    let m = d.metadata;
    let entries = m.history_metadata@;
    let edits = d.data.data@;
    let b = dataset_bytes(d);
    let fixed = fixed_header_bytes(m);
    let table = entries_bytes(entries);
    let count = spec_u64_to_le_bytes(edits.len() as u64);
    let tail = edits_bytes(edits);
    lemma_metadata_bytes_len(m);
    lemma_entries_bytes_len(entries);
    lemma_edits_bytes_len(edits);
    lemma_le_bytes_len(m.min_timestamp, m.canvas_width);
    lemma_le_bytes_len(m.max_timestamp, m.canvas_height);
    lemma_le_bytes_len(entries.len() as u64, 0);
    lemma_le_bytes_len(edits.len() as u64, 0);
    assert(b == ((fixed + table) + count) + tail);
    assert(b.len() == 33 + 8 * entries.len() + 8 + 17 * edits.len());
    // the fixed part
    assert(b.subrange(0, 4) == spec_u32_to_le_bytes(m.canvas_width));
    lemma_u32_at(b, 0, m.canvas_width);
    assert(b.subrange(4, 8) == spec_u32_to_le_bytes(m.canvas_height));
    lemma_u32_at(b, 4, m.canvas_height);
    assert(b.subrange(8, 16) == spec_u64_to_le_bytes(m.min_timestamp));
    lemma_u64_at(b, 8, m.min_timestamp);
    assert(b.subrange(16, 24) == spec_u64_to_le_bytes(m.max_timestamp));
    lemma_u64_at(b, 16, m.max_timestamp);
    assert(b[24] == m.datapoint_size);
    assert(b.subrange(25, 33) == spec_u64_to_le_bytes(entries.len() as u64));
    lemma_u64_at(b, 25, entries.len() as u64);
    assert(file_cells(b) == entries.len());
    // the count
    let start = header_size(entries.len() as int);
    assert(b.subrange(start, start + 8) == count);
    lemma_u64_at(b, start, edits.len() as u64);
    // the entries
    assert forall|c: int|
        0 <= c < entries.len() implies #[trigger] file_entry(b, c) == entries[c] by {
        lemma_entries_bytes_at(entries, c);
        assert(b.subrange(33 + 8 * c, 33 + 8 * c + 4) == table.subrange(8 * c, 8 * c + 4));
        assert(b.subrange(33 + 8 * c + 4, 33 + 8 * c + 4 + 4) == table.subrange(8 * c + 4, 8 * c + 8));
        lemma_u32_at(b, 33 + 8 * c, entries[c].offset);
        lemma_u32_at(b, 33 + 8 * c + 4, entries[c].length);
    }
    // the edits
    assert forall|j: int| 0 <= j < edits.len() implies holds_datapoint(
        b,
        #[trigger] edit_position(b, j),
    ) && datapoint_at(b, edit_position(b, j)) == edits[j] by {
        lemma_edits_bytes_at(edits, j);
        let at = edit_position(b, j);
        assert(at == start + 8 + 17 * j);
        assert(b.subrange(at, at + 17) == tail.subrange(17 * j, 17 * j + 17));
        crate::dataset::lemma_datapoint_at(b, at, edits[j]);
    }
}

/// A file that is written can be opened, and holds what was written: the
/// bytes of a well-formed value are a canvas file with the content of the
/// value.
pub proof fn lemma_written_file_opens(d: PrecompressedDataset)
    requires
        d.wf(),
        d.data.data@.len() <= u64::MAX,
    ensures
        valid_file(dataset_bytes(d)),
        file_view(dataset_bytes(d)) == d@,
{
    let b = dataset_bytes(d);
    let entries = d.metadata.history_metadata@;
    let edits = d.data.data@;
    let v = d@;
    assert(v.wf());
    lemma_dataset_bytes(d);
    assert(valid_header(b));
    assert forall|c: int| 0 <= c < file_cells(b) implies valid_entry(b, #[trigger] file_entry(b, c))
        && entry_history(b, file_entry(b, c)) == v.histories[c] by {
        let entry = file_entry(b, c);
        assert(entry == entries[c]);
        assert(entry.offset + entry.length <= edits.len());
        let h = entry_history(b, entry);
        assert forall|k: int| 0 <= k < entry.length implies holds_datapoint(
            b,
            #[trigger] entry_edit_position(b, entry, k),
        ) && datapoint_at(b, entry_edit_position(b, entry, k)) == edits[entry.offset + k] by {
            assert(entry_edit_position(b, entry, k) == edit_position(b, entry.offset + k));
        }
        assert(h =~= edits.subrange(entry.offset as int, entry.offset + entry.length));
        assert(valid_history(v.histories[c], v.min_timestamp, v.max_timestamp));
        assert(sentinel_color(b, entry) == v.histories[c][0].color);
    }
    assert(v.width * v.height > 0) by (nonlinear_arith)
        requires
            v.width > 0,
            v.height > 0,
    ;
    assert(entry_history(b, file_entry(b, 0)) == v.histories[0]);
    assert forall|c: int| 0 <= c < file_cells(b) implies valid_entry(b, #[trigger] file_entry(b, c))
        && sentinel_color(b, file_entry(b, c)) == sentinel_color(b, file_entry(b, 0)) by {
        assert(entry_history(b, file_entry(b, c)) == v.histories[c]);
        assert(v.histories[c][0].color == v.default_color());
    }
    assert(file_view(b).histories =~= v.histories);
}

// ---------------------------------------------------------------------------
// The store
// ---------------------------------------------------------------------------
/// Whether a header as a value is the one that some bytes begin with.
pub open spec fn metadata_of_file(m: PrecompressedDatasetMetadata, bytes: Seq<u8>) -> bool {
    &&& m.canvas_width == file_width(bytes)
    &&& m.canvas_height == file_height(bytes)
    &&& m.min_timestamp == file_min_timestamp(bytes)
    &&& m.max_timestamp == file_max_timestamp(bytes)
    &&& m.datapoint_size == DATAPOINT_SIZE
    &&& m.history_metadata@.len() == file_cells(bytes)
    &&& forall|c: int|
        0 <= c < file_cells(bytes) ==> #[trigger] m.history_metadata@[c] == file_entry(bytes, c)
}

/// A canvas file that is read where it lies: the bytes are borrowed, only
/// the header is held as a value.
#[derive(Debug)]
pub struct SerializedDataset<'a> {
    bytes: &'a [u8],
    metadata: PrecompressedDatasetMetadata,
    data_start_idx: u64,
}

/// Checks that an entry names a valid history, and gives the position in the
/// palette of the color of its sentinel.
fn check_entry(bytes: &[u8], entry: PrecompressedDatapointHistoryMetadata) -> (r: Option<u32>)
    requires
        valid_header(bytes@),
    ensures
        r is Some <==> valid_entry(bytes@, entry),
        r is Some ==> r->Some_0 == color_index(sentinel_color(bytes@, entry)),
{
    let n = bytes.len();
    let min_timestamp = get_u64(bytes, 8);
    let max_timestamp = get_u64(bytes, 16);
    let cells = get_u32(bytes, 0) as u64 * get_u32(bytes, 4) as u64;
    let start = HEADER_FIXED_SIZE + 8 * (cells as usize);
    let count = get_u64(bytes, start);
    if entry.offset as u64 + entry.length as u64 > count || entry.length == 0 {
        proof {
            if entry.length == 0 {
                assert(entry_history(bytes@, entry).len() == 0);
            }
        }
        return None;
    }
    let ghost h = entry_history(bytes@, entry);
    let first = start + 8 + DATAPOINT_SIZE * entry.offset as usize;
    let mut k: usize = 0;
    let mut previous: u64 = 0;
    let mut sentinel: u32 = 0;
    while k < entry.length as usize
        invariant
            valid_header(bytes@),
            n == bytes@.len(),
            min_timestamp == file_min_timestamp(bytes@),
            max_timestamp == file_max_timestamp(bytes@),
            start == header_size(file_cells(bytes@)),
            count == file_count(bytes@),
            entry.offset + entry.length <= count,
            first == entry_edit_position(bytes@, entry, 0),
            h == entry_history(bytes@, entry),
            k <= entry.length,
            k > 0 ==> previous == h[k - 1].timestamp,
            k > 0 ==> h[0].timestamp == min_timestamp - 1,
            k > 0 ==> sentinel == color_index(sentinel_color(bytes@, entry)),
            forall|j: int|
                0 <= j < k ==> holds_datapoint(
                    bytes@,
                    #[trigger] entry_edit_position(bytes@, entry, j),
                ),
            forall|j: int|
                1 <= j < k ==> min_timestamp <= (#[trigger] h[j]).timestamp <= max_timestamp,
            forall|i: int, j: int| 0 <= i <= j < k ==> h[i].timestamp <= h[j].timestamp,
        decreases entry.length - k,
    {
        let at = first + DATAPOINT_SIZE * k;
        assert(at == entry_edit_position(bytes@, entry, k as int));
        let color = get_u32(bytes, at + 12);
        let flag = get_u8(bytes, at + 16);
        if color >= COLOR_COUNT as u32 || flag > 1 {
            return None;
        }
        let timestamp = get_u64(bytes, at);
        assert(timestamp == h[k as int].timestamp);
        if k == 0 {
            if timestamp != min_timestamp - 1 {
                return None;
            }
            proof {
                lemma_color_at(color as int);
            }
            sentinel = color;
        } else {
            if timestamp < min_timestamp || timestamp > max_timestamp || timestamp < previous {
                proof {
                    if timestamp < previous {
                        assert(h[k - 1].timestamp > h[k as int].timestamp);
                    }
                }
                return None;
            }
        }
        previous = timestamp;
        k += 1;
    }
    Some(sentinel)
}

impl<'a> View for SerializedDataset<'a> {
    type V = DatasetView;

    /// The content of the file.
    closed spec fn view(&self) -> DatasetView {
        file_view(self.bytes@)
    }
}

impl<'a> SerializedDataset<'a> {
    /// The bytes of the file.
    pub closed spec fn bytes(&self) -> Seq<u8> {
        self.bytes@
    }

    /// The header of the file.
    pub closed spec fn spec_metadata(&self) -> &PrecompressedDatasetMetadata {
        &self.metadata
    }

    /// The header of the file.
    #[verifier::when_used_as_spec(spec_metadata)]
    pub fn metadata(&self) -> (m: &PrecompressedDatasetMetadata)
        ensures
            m == self.spec_metadata(),
    {
        &self.metadata
    }

    /// Whether the store stands on a canvas file and holds its header.
    pub closed spec fn wf(&self) -> bool {
        &&& valid_file(self.bytes@)
        &&& metadata_of_file(self.metadata, self.bytes@)
        &&& self.data_start_idx == header_size(file_cells(self.bytes@))
    }

    /// The byte at which the history of the cell `(x, y)` starts.
    pub open spec fn history_position(&self, x: int, y: int) -> int {
        entry_edit_position(
            self.bytes(),
            file_entry(self.bytes(), y * file_width(self.bytes()) + x),
            0,
        )
    }

    /// What a store that is well formed holds: the content of a canvas, the
    /// header of the file, and for every cell the entry of its history.
    pub proof fn lemma_wf(&self)
        requires
            self.wf(),
        ensures
            self@ == file_view(self.bytes()),
            valid_file(self.bytes()),
            metadata_of_file(*self.metadata(), self.bytes()),
            self@.wf(),
            self@.width == self.metadata().canvas_width,
            self@.height == self.metadata().canvas_height,
            self@.min_timestamp == self.metadata().min_timestamp,
            self@.max_timestamp == self.metadata().max_timestamp,
            self.metadata().history_metadata@.len() == self@.width * self@.height,
    {
        lemma_file_view_wf(self.bytes@);
    }

    /// Every edit of every cell's history can be read where the file has it.
    pub proof fn lemma_history_edit(&self, x: int, y: int, k: int)
        requires
            self.wf(),
            self@.has_cell(x, y),
            0 <= k < self@.history(x, y).len(),
        ensures
            holds_datapoint(self.bytes(), self.history_position(x, y) + DATAPOINT_SIZE * k),
            datapoint_at(self.bytes(), self.history_position(x, y) + DATAPOINT_SIZE * k)
                == self@.history(x, y)[k],
            self.metadata().history_metadata@[y * self@.width + x].length == self@.history(
                x,
                y,
            ).len(),
    {
        let b = self.bytes@;
        lemma_cell_number(file_width(b) as int, file_height(b) as int, x, y);
        let c = y * file_width(b) + x;
        let entry = file_entry(b, c);
        assert(valid_entry(b, entry));
        assert(holds_datapoint(b, entry_edit_position(b, entry, k)));
        assert(file_view(b).histories[c] == entry_history(b, entry));
        assert(self.metadata.history_metadata@[c] == entry);
    }

    /// Opens a canvas file that lies in `bytes`. It is accepted exactly when
    /// the bytes are a canvas file; whatever else they are, truncated or
    /// inconsistent, the answer is `StoreError::Corrupt`.
    pub fn new(bytes: &'a [u8]) -> (r: Result<SerializedDataset<'a>, StoreError>)
        ensures
            r is Ok <==> valid_file(bytes@),
            r matches Ok(store) ==> store.wf() && store.bytes() == bytes@ && store@ == file_view(
                bytes@,
            ),
            r matches Err(e) ==> e == StoreError::Corrupt,
            bytes@.len() < HEADER_FIXED_SIZE ==> r is Err,
    {
        let n = bytes.len();
        if n < HEADER_FIXED_SIZE {
            return Err(StoreError::Corrupt);
        }
        let canvas_width = get_u32(bytes, 0);
        let canvas_height = get_u32(bytes, 4);
        let min_timestamp = get_u64(bytes, 8);
        let max_timestamp = get_u64(bytes, 16);
        let datapoint_size = get_u8(bytes, 24);
        let stated_cells = get_u64(bytes, 25);
        assert(canvas_width * canvas_height <= 0xffff_ffff * 0xffff_ffff) by (nonlinear_arith)
            requires
                0 <= canvas_width <= 0xffff_ffff,
                0 <= canvas_height <= 0xffff_ffff,
        ;
        let cells = canvas_width as u64 * canvas_height as u64;
        if canvas_width == 0 || canvas_height == 0 || cells > MAX_CELLS || min_timestamp < 1
            || datapoint_size != DATAPOINT_SIZE as u8 || stated_cells != cells {
            return Err(StoreError::Corrupt);
        }
        let data_start_idx = HEADER_FIXED_SIZE + 8 * (cells as usize);
        if n < data_start_idx + 8 {
            return Err(StoreError::Corrupt);
        }
        let count = get_u64(bytes, data_start_idx);
        if count > ((n - data_start_idx - 8) / DATAPOINT_SIZE) as u64 {
            return Err(StoreError::Corrupt);
        }
        assert(valid_header(bytes@));
        let mut history_metadata: Vec<PrecompressedDatapointHistoryMetadata> = Vec::new();
        let mut default_color: u32 = 0;
        let mut c: usize = 0;
        while c < cells as usize
            invariant
                valid_header(bytes@),
                n == bytes@.len(),
                cells == file_cells(bytes@),
                cells <= MAX_CELLS,
                c <= cells,
                history_metadata@.len() == c,
                forall|i: int|
                    0 <= i < c ==> #[trigger] history_metadata@[i] == file_entry(bytes@, i),
                forall|i: int| 0 <= i < c ==> valid_entry(bytes@, #[trigger] file_entry(bytes@, i)),
                forall|i: int|
                    0 <= i < c ==> color_index(
                        sentinel_color(bytes@, #[trigger] file_entry(bytes@, i)),
                    ) == default_color,
            decreases cells - c,
        {
            let entry = PrecompressedDatapointHistoryMetadata {
                offset: get_u32(bytes, HEADER_FIXED_SIZE + 8 * c),
                length: get_u32(bytes, HEADER_FIXED_SIZE + 8 * c + 4),
            };
            assert(entry == file_entry(bytes@, c as int));
            match check_entry(bytes, entry) {
                Some(color) => {
                    if c == 0 {
                        default_color = color;
                    } else if color != default_color {
                        return Err(StoreError::Corrupt);
                    }
                },
                None => {
                    return Err(StoreError::Corrupt);
                },
            }
            history_metadata.push(entry);
            c += 1;
        }
        let metadata = PrecompressedDatasetMetadata {
            canvas_width,
            canvas_height,
            min_timestamp,
            max_timestamp,
            datapoint_size,
            history_metadata,
        };
        Ok(SerializedDataset { bytes, metadata, data_start_idx: data_start_idx as u64 })
    }
}

// ---------------------------------------------------------------------------
// Reading the store
// ---------------------------------------------------------------------------
/// Whether `k` is the position of the last edit among those from `start` up
/// to, not including, `end` that is dated at or before `t`, or `start` where
/// all of them are dated after `t`.
pub open spec fn is_floor(ts: Seq<u64>, start: int, end: int, t: u64, k: int) -> bool {
    &&& start <= k < end
    &&& k == start || ts[k] <= t
    &&& k + 1 < end ==> ts[k + 1] > t
}

/// In timestamps in ascending order, only one position is the floor.
pub proof fn lemma_floor_unique(ts: Seq<u64>, start: int, end: int, t: u64, a: int, b: int)
    requires
        0 <= start,
        end <= ts.len(),
        forall|i: int, j: int| start <= i <= j < end ==> ts[i] <= ts[j],
        is_floor(ts, start, end, t, a),
        is_floor(ts, start, end, t, b),
    ensures
        a == b,
{
    if a < b {
        assert(ts[a + 1] <= ts[b]);
    }
    if b < a {
        assert(ts[b + 1] <= ts[a]);
    }
}

impl<'a> SerializedDataset<'a> {
    /// The bytes of the history of the cell `(x, y)`.
    pub fn datapoint_history_bytes(&self, x: u32, y: u32) -> (r: &[u8])
        requires
            self.wf(),
            self@.has_cell(x as int, y as int),
        ensures
            r@ == self.bytes().subrange(
                self.history_position(x as int, y as int),
                self.history_position(x as int, y as int) + DATAPOINT_SIZE * self@.history(
                    x as int,
                    y as int,
                ).len(),
            ),
    {
        let length = self.datapoint_history_len(x, y) as u32;
        self.datapoint_history_bytes_sliced(x, y, 0, length)
    }

    /// The number of edits in the history of the cell `(x, y)`.
    pub fn datapoint_history_len(&self, x: u32, y: u32) -> (r: usize)
        requires
            self.wf(),
            self@.has_cell(x as int, y as int),
        ensures
            r == self@.history(x as int, y as int).len(),
            1 <= r <= u32::MAX,
    {
        proof {
            self.lemma_wf();
            lemma_history_valid(self@, x as int, y as int);
            self.lemma_history_edit(x as int, y as int, 0);
        }
        self.metadata.get(x, y).length as usize
    }

    /// The bytes of the edits from position `slice_start_idx` up to, not
    /// including, `slice_end_idx` of the history of the cell `(x, y)`.
    pub fn datapoint_history_bytes_sliced(
        &self,
        x: u32,
        y: u32,
        slice_start_idx: u32,
        slice_end_idx: u32,
    ) -> (r: &[u8])
        requires
            self.wf(),
            self@.has_cell(x as int, y as int),
            slice_start_idx <= slice_end_idx <= self@.history(x as int, y as int).len(),
        ensures
            r@ == self.bytes().subrange(
                self.history_position(x as int, y as int) + DATAPOINT_SIZE * slice_start_idx,
                self.history_position(x as int, y as int) + DATAPOINT_SIZE * slice_end_idx,
            ),
    {
        let first = self.datapoint_history_xy_offset(x, y) as usize;
        let n = self.bytes.len();
        proof {
            self.lemma_wf();
            lemma_history_valid(self@, x as int, y as int);
            self.lemma_history_edit(
                x as int,
                y as int,
                self@.history(x as int, y as int).len() - 1,
            );
        }
        let from = first + DATAPOINT_SIZE * slice_start_idx as usize;
        let to = first + DATAPOINT_SIZE * slice_end_idx as usize;
        &self.bytes[from..to]
    }

    /// The byte at which the history of the cell `(x, y)` starts.
    pub fn datapoint_history_xy_offset(&self, x: u32, y: u32) -> (r: u64)
        requires
            self.wf(),
            self@.has_cell(x as int, y as int),
        ensures
            r == self.history_position(x as int, y as int),
    {
        proof {
            self.lemma_wf();
            lemma_history_valid(self@, x as int, y as int);
            self.lemma_history_edit(x as int, y as int, 0);
            lemma_cell_number(self@.width as int, self@.height as int, x as int, y as int);
        }
        let entry = self.metadata.get(x, y);
        let first_datapoint_idx = self.data_start_idx + 8;
        first_datapoint_idx + (entry.offset as u64 * DATAPOINT_SIZE as u64)
    }

    /// The bytes of the edit at position `idx` of the history that starts at
    /// byte `history_offset`.
    pub fn datapoint_bytes_with_history_offset(&self, history_offset: u64, idx: u32) -> (r: &[u8])
        requires
            holds_datapoint(self.bytes(), history_offset + DATAPOINT_SIZE * idx),
        ensures
            r@ == self.bytes().subrange(
                history_offset + DATAPOINT_SIZE * idx,
                history_offset + DATAPOINT_SIZE * idx + DATAPOINT_SIZE,
            ),
    {
        let n = self.bytes.len();
        let from = history_offset as usize + DATAPOINT_SIZE * idx as usize;
        &self.bytes[from..from + DATAPOINT_SIZE]
    }

    /// The timestamp of the edit at position `idx` of the history that
    /// starts at byte `history_offset`. Only the timestamp is read.
    pub fn datapoint_timestamp_with_history_offset(&self, history_offset: u64, idx: u32) -> (r: u64)
        requires
            holds_datapoint(self.bytes(), history_offset + DATAPOINT_SIZE * idx),
        ensures
            r == datapoint_at(self.bytes(), history_offset + DATAPOINT_SIZE * idx).timestamp,
    {
        let n = self.bytes.len();
        let from = history_offset as usize + DATAPOINT_SIZE * idx as usize;
        get_u64(self.bytes, from)
    }

    /// The edit at position `idx` of the history that starts at byte
    /// `history_offset`.
    pub fn datapoint_with_history_offset(&self, history_offset: u64, idx: u32) -> (r:
        RPlaceDatasetDatapoint)
        requires
            holds_datapoint(self.bytes(), history_offset + DATAPOINT_SIZE * idx),
        ensures
            r == datapoint_at(self.bytes(), history_offset + DATAPOINT_SIZE * idx),
    {
        let bytes = self.datapoint_bytes_with_history_offset(history_offset, idx);
        proof {
            let at = history_offset + DATAPOINT_SIZE * idx;
            lemma_datapoint_in_part(self.bytes@, at, at + DATAPOINT_SIZE, at);
        }
        match RPlaceDatasetDatapoint::from_bytes(bytes) {
            Some(d) => d,
            None => RPlaceDatasetDatapoint::start(),
        }
    }

    /// The timestamp of the edit at position `idx` of the history of the
    /// cell `(x, y)`.
    pub fn datapoint_timestamp_with_xy_and_idx(&self, x: u32, y: u32, idx: u32) -> (r: u64)
        requires
            self.wf(),
            self@.has_cell(x as int, y as int),
            idx < self@.history(x as int, y as int).len(),
        ensures
            r == self@.history(x as int, y as int)[idx as int].timestamp,
    {
        let history_offset = self.datapoint_history_xy_offset(x, y);
        proof {
            self.lemma_history_edit(x as int, y as int, idx as int);
        }
        self.datapoint_timestamp_with_history_offset(history_offset, idx)
    }

    /// The edit at position `idx` of the history of the cell `(x, y)`.
    pub fn datapoint_with_xy_and_idx(&self, x: u32, y: u32, idx: u32) -> (r: RPlaceDatasetDatapoint)
        requires
            self.wf(),
            self@.has_cell(x as int, y as int),
            idx < self@.history(x as int, y as int).len(),
        ensures
            r == self@.history(x as int, y as int)[idx as int],
    {
        let history_offset = self.datapoint_history_xy_offset(x, y);
        proof {
            self.lemma_history_edit(x as int, y as int, idx as int);
        }
        self.datapoint_with_history_offset(history_offset, idx)
    }
}

impl<'a> SerializedDataset<'a> {
    /// What is known of the history of a cell once its place in the file is:
    /// every edit can be read, and the timestamps are in ascending order.
    proof fn lemma_history_readable(&self, x: int, y: int)
        requires
            self.wf(),
            self@.has_cell(x, y),
        ensures
            valid_history(self@.history(x, y), self@.min_timestamp, self@.max_timestamp),
            self@.timestamps(x, y).len() == self@.history(x, y).len(),
            forall|k: int|
                0 <= k < self@.history(x, y).len() ==> #[trigger] self@.timestamps(x, y)[k]
                    == self@.history(x, y)[k].timestamp,
            forall|k: int|
                #![trigger self@.history(x, y)[k]]
                #![trigger self@.timestamps(x, y)[k]]
                0 <= k < self@.history(x, y).len() ==> {
                    &&& holds_datapoint(
                        self.bytes(),
                        self.history_position(x, y) + DATAPOINT_SIZE * k,
                    )
                    &&& datapoint_at(self.bytes(), self.history_position(x, y) + DATAPOINT_SIZE * k)
                        == self@.history(x, y)[k]
                },
            forall|i: int, j: int|
                0 <= i <= j < self@.history(x, y).len() ==> #[trigger] self@.timestamps(x, y)[i]
                    <= #[trigger] self@.timestamps(x, y)[j],
    {
        self.lemma_wf();
        lemma_history_valid(self@, x, y);
        assert forall|k: int| 0 <= k < self@.history(x, y).len() implies {
            &&& holds_datapoint(self.bytes(), self.history_position(x, y) + DATAPOINT_SIZE * k)
            &&& datapoint_at(self.bytes(), self.history_position(x, y) + DATAPOINT_SIZE * k)
                == #[trigger] self@.history(x, y)[k]
        } by {
            self.lemma_history_edit(x, y, k);
        }
    }

    /// The timestamp at position `idx` of the history of the cell `(x, y)`,
    /// which starts at byte `history_offset`.
    fn timestamp_in_history(&self, x: usize, y: usize, history_offset: u64, idx: usize) -> (r: u64)
        requires
            self.wf(),
            self@.has_cell(x as int, y as int),
            history_offset == self.history_position(x as int, y as int),
            idx < self@.history(x as int, y as int).len(),
        ensures
            r == self@.timestamps(x as int, y as int)[idx as int],
            r == self@.history(x as int, y as int)[idx as int].timestamp,
    {
        proof {
            self.lemma_history_readable(x as int, y as int);
            self.lemma_history_edit(x as int, y as int, idx as int);
        }
        self.datapoint_timestamp_with_history_offset(history_offset, idx as u32)
    }

    /// The edit at position `idx` of the history of the cell `(x, y)`, which
    /// starts at byte `history_offset`.
    fn datapoint_in_history(&self, x: usize, y: usize, history_offset: u64, idx: usize) -> (r:
        RPlaceDatasetDatapoint)
        requires
            self.wf(),
            self@.has_cell(x as int, y as int),
            history_offset == self.history_position(x as int, y as int),
            idx < self@.history(x as int, y as int).len(),
        ensures
            r == self@.history(x as int, y as int)[idx as int],
    {
        proof {
            self.lemma_history_readable(x as int, y as int);
            self.lemma_history_edit(x as int, y as int, idx as int);
        }
        self.datapoint_with_history_offset(history_offset, idx as u32)
    }

    /// Finds, in the history of the cell `(x, y)`, the last edit among those
    /// from position `start_idx` up to, not including, `end_idx` that is
    /// dated at or before `timestamp`, and gives its position and the edit.
    /// Where all of them are dated after `timestamp`, it gives the first.
    ///
    /// `current_value` is a hint: where it names a position next to the
    /// answer, the answer is found by looking at that position and its
    /// neighbours alone. Whatever the hint says, the answer is the same.
    pub fn search(
        &self,
        timestamp: u64,
        x: usize,
        y: usize,
        start_idx: usize,
        end_idx: usize,
        current_value: &CanvasPixel,
    ) -> (r: (usize, RPlaceDatasetDatapoint))
        requires
            self.wf(),
            self@.has_cell(x as int, y as int),
            start_idx < end_idx <= self@.history(x as int, y as int).len(),
        ensures
            is_floor(
                self@.timestamps(x as int, y as int),
                start_idx as int,
                end_idx as int,
                timestamp,
                r.0 as int,
            ),
            r.1 == self@.history(x as int, y as int)[r.0 as int],
            end_idx == start_idx + 1 ==> r.0 == start_idx,
    {
        proof {
            self.lemma_history_readable(x as int, y as int);
        }
        let ghost ts = self@.timestamps(x as int, y as int);
        let history_offset = self.datapoint_history_xy_offset(x as u32, y as u32);
        let current_idx = current_value.datapoint_history_idx;
        if start_idx <= current_idx && current_idx < end_idx {
            if current_value.timestamp < timestamp {
                // first check the next edit
                let last_possible_idx = end_idx - 1;
                let next_idx = if current_idx + 1 < last_possible_idx {
                    current_idx + 1
                } else {
                    last_possible_idx
                };
                let next_timestamp = self.timestamp_in_history(x, y, history_offset, next_idx);
                assert(next_timestamp == ts[next_idx as int]);
                if timestamp < next_timestamp {
                    if current_idx < next_idx {
                        let current_timestamp = self.timestamp_in_history(
                            x,
                            y,
                            history_offset,
                            current_idx,
                        );
                        assert(current_timestamp == ts[current_idx as int]);
                        if current_timestamp <= timestamp {
                            return (
                                current_idx,
                                self.datapoint_in_history(x, y, history_offset, current_idx),
                            );
                        }
                    }
                } else {
                    let settled = if next_idx == last_possible_idx {
                        true
                    } else {
                        let after = self.timestamp_in_history(x, y, history_offset, next_idx + 1);
                        assert(after == ts[next_idx + 1]);
                        timestamp < after
                    };
                    if settled {
                        return (
                            next_idx,
                            self.datapoint_in_history(x, y, history_offset, next_idx),
                        );
                    }
                }
            } else if current_value.timestamp > timestamp {
                // first check the edit in effect and the one before it
                let current_timestamp = self.timestamp_in_history(
                    x,
                    y,
                    history_offset,
                    current_idx,
                );
                assert(current_timestamp == ts[current_idx as int]);
                if current_timestamp <= timestamp {
                    let settled = if current_idx + 1 == end_idx {
                        true
                    } else {
                        let after = self.timestamp_in_history(
                            x,
                            y,
                            history_offset,
                            current_idx + 1,
                        );
                        assert(after == ts[current_idx + 1]);
                        timestamp < after
                    };
                    if settled {
                        return (
                            current_idx,
                            self.datapoint_in_history(x, y, history_offset, current_idx),
                        );
                    }
                } else if current_idx == start_idx {
                    return (
                        current_idx,
                        self.datapoint_in_history(x, y, history_offset, current_idx),
                    );
                } else {
                    let prev_idx = current_idx - 1;
                    let prev_timestamp = self.timestamp_in_history(x, y, history_offset, prev_idx);
                    assert(prev_timestamp == ts[prev_idx as int]);
                    if prev_timestamp <= timestamp {
                        return (
                            prev_idx,
                            self.datapoint_in_history(x, y, history_offset, prev_idx),
                        );
                    }
                }
            }
        }
        // perform binary search
        let element = |i: usize| -> (v: u64)
            requires
                start_idx <= i < end_idx,
            ensures
                v == self@.timestamps(x as int, y as int)[i as int],
            { self.timestamp_in_history(x, y, history_offset, i) };
        proof {
            lemma_sorted_in_runs(ts, timestamp, start_idx as int, end_idx - 1);
            assert(reads(element, ts, start_idx as int, end_idx - 1));
        }
        let result = least_greater(&timestamp, start_idx as i64, end_idx as i64 - 1, element);
        assert(found_at(ts, timestamp, start_idx as int, end_idx - 1, result));
        let index = match result {
            Ok(value) => value as usize,
            Err(value) => if value as usize > start_idx {
                (value - 1) as usize
            } else {
                start_idx
            },
        };
        assert(index == start_idx || run_of(ts[index as int], timestamp) <= 1);
        (index, self.datapoint_in_history(x, y, history_offset, index))
    }
}

// ---------------------------------------------------------------------------
// Histories and edits as bytes
// ---------------------------------------------------------------------------
/// The bytes of the history of one cell.
pub struct SerializedDatapointHistory<'a> {
    bytes: &'a [u8],
    datapoint_size: u8,
    length: usize,
}

impl<'a> SerializedDatapointHistory<'a> {
    /// The bytes.
    pub closed spec fn bytes(&self) -> Seq<u8> {
        self.bytes@
    }

    /// The number of edits.
    pub closed spec fn spec_len(&self) -> usize {
        self.length
    }

    /// Whether the bytes are those of as many edits as the history counts.
    pub closed spec fn wf(&self) -> bool {
        &&& self.datapoint_size == DATAPOINT_SIZE
        &&& self.bytes@.len() == DATAPOINT_SIZE * self.length
    }

    /// The bytes of a well-formed history are `DATAPOINT_SIZE` for each of
    /// its edits.
    pub proof fn lemma_wf(&self)
        requires
            self.wf(),
        ensures
            self.bytes().len() == DATAPOINT_SIZE * self.spec_len(),
    {
    }

    /// The history that lies in `bytes`, which are those of whole edits.
    pub fn new(bytes: &'a [u8]) -> (h: SerializedDatapointHistory<'a>)
        requires
            bytes@.len() % (DATAPOINT_SIZE as nat) == 0,
        ensures
            h.wf(),
            h.bytes() == bytes@,
            h.spec_len() == bytes@.len() / (DATAPOINT_SIZE as nat),
    {
        let datapoint_size = RPlaceDatasetDatapoint::compressed_size();
        let length = bytes.len() / datapoint_size as usize;
        SerializedDatapointHistory { bytes, datapoint_size, length }
    }

    /// The number of edits.
    #[verifier::when_used_as_spec(spec_len)]
    pub fn len(&self) -> (n: usize)
        ensures
            n == self.spec_len(),
    {
        self.length
    }

    /// The edit at position `index`, if the bytes there are those of one.
    pub fn get(&self, index: usize) -> (r: Option<RPlaceDatasetDatapoint>)
        requires
            self.wf(),
            index < self.len(),
        ensures
            r == datapoint_of_bytes(
                self.bytes().subrange(
                    DATAPOINT_SIZE * index,
                    DATAPOINT_SIZE * index + DATAPOINT_SIZE,
                ),
            ),
    {
        RPlaceDatasetDatapoint::from_bytes(self.get_bytes(index))
    }

    /// The bytes of the edit at position `index`: `DATAPOINT_SIZE` of them.
    pub fn get_bytes(&self, index: usize) -> (r: &'a [u8])
        requires
            self.wf(),
            index < self.len(),
        ensures
            r@.len() == DATAPOINT_SIZE,
            r@ == self.bytes().subrange(
                DATAPOINT_SIZE * index,
                DATAPOINT_SIZE * index + DATAPOINT_SIZE,
            ),
    {
        let n = self.bytes.len();
        let start_idx = index * DATAPOINT_SIZE;
        let end_idx = start_idx + DATAPOINT_SIZE;
        &self.bytes[start_idx..end_idx]
    }
}

/// The bytes of one edit.
pub struct SerializedDatapoint<'a> {
    bytes: &'a [u8],
}

impl<'a> SerializedDatapoint<'a> {
    /// The bytes.
    pub closed spec fn bytes(&self) -> Seq<u8> {
        self.bytes@
    }

    /// The edit that lies in `bytes`.
    pub fn new(bytes: &'a [u8]) -> (d: SerializedDatapoint<'a>)
        ensures
            d.bytes() == bytes@,
    {
        SerializedDatapoint { bytes }
    }

    /// The timestamp of the edit: its first eight bytes.
    pub fn timestamp(&self) -> (t: u64)
        requires
            self.bytes().len() >= 8,
        ensures
            t == u64_at(self.bytes(), 0),
    {
        get_u64(self.bytes, 0)
    }

    /// The timestamp of the edit that lies in `bytes`: its first eight
    /// bytes.
    pub fn extract_timestamp(bytes: &[u8]) -> (t: u64)
        requires
            bytes@.len() >= 8,
        ensures
            t == u64_at(bytes@, 0),
    {
        get_u64(bytes, 0)
    }
}

} // verus!
