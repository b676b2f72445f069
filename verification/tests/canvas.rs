use rplace::builder::{DatasetBuilder, IngestionError};
use rplace::canvas::{Canvas, CanvasPixel};
use rplace::changes::{RankQueryError, RankScratch};
use rplace::data::{RPlaceCoordinate, RPlaceDatapoint};
use rplace::pixel::PixelColor;
use rplace::reader::custom::{SerializedDataset, StoreError};

fn edit(timestamp: u64, x: u32, y: u32, color: PixelColor) -> RPlaceDatapoint {
    RPlaceDatapoint {
        timestamp,
        user_id: 7,
        color,
        coordinate: RPlaceCoordinate { x, y },
        is_mod: false,
    }
}

/// A 2x2 canvas on which only the cell (0, 0) was edited, at 10, 20 and 30.
fn small_file() -> Vec<u8> {
    let mut builder = DatasetBuilder::new(2);
    builder.add(edit(10, 0, 0, PixelColor::Red));
    builder.add(edit(20, 0, 0, PixelColor::Blue));
    builder.add(edit(30, 0, 0, PixelColor::Green));
    builder.finish().unwrap().to_bytes()
}

/// A 3x2 region of a 3x3 canvas with edits in several cells.
fn busy_file() -> Vec<u8> {
    let mut builder = DatasetBuilder::new(3);
    builder.add(edit(100, 0, 0, PixelColor::Red));
    builder.add(edit(105, 1, 0, PixelColor::Blue));
    builder.add(edit(105, 2, 1, PixelColor::Green));
    builder.add(edit(110, 0, 0, PixelColor::White));
    builder.add(edit(110, 0, 0, PixelColor::Grey));
    builder.add(edit(120, 1, 1, PixelColor::Teal));
    builder.add(edit(130, 2, 2, PixelColor::Tan));
    builder.add(edit(140, 0, 0, PixelColor::Mud));
    builder.add(edit(150, 1, 0, PixelColor::Brown));
    builder.add(edit(160, 2, 1, PixelColor::Salmon));
    builder.finish().unwrap().to_bytes()
}

#[test]
fn builder_without_edits_fails() {
    let builder = DatasetBuilder::new(2);
    assert_eq!(builder.finish().err(), Some(IngestionError::EmptySource));
}

#[test]
fn builder_dates_sentinels_and_keeps_order() {
    let mut builder = DatasetBuilder::new(2);
    builder.add(edit(10, 0, 0, PixelColor::Red));
    builder.add(edit(20, 1, 1, PixelColor::Blue));
    builder.add(edit(20, 0, 0, PixelColor::Green));
    assert_eq!(builder.min_timestamp, 10);
    assert_eq!(builder.max_timestamp, 20);
    assert_eq!(builder.count, 3);
    for y in 0..2 {
        for x in 0..2 {
            let history = &builder.dataset.data[y][x];
            assert_eq!(history[0].timestamp, 9);
            assert_eq!(history[0].color, PixelColor::Black);
            for k in 1..history.len() {
                assert!(history[k - 1].timestamp <= history[k].timestamp);
            }
        }
    }
    assert_eq!(builder.dataset.data[0][0].len(), 3);
    assert_eq!(builder.dataset.data[1][1].len(), 2);
    assert_eq!(builder.dataset.data[0][1].len(), 1);
}

#[test]
fn file_layout_of_small_canvas() {
    let bytes = small_file();
    // header: 33 bytes and 4 entries; then the count; then 7 edits
    assert_eq!(bytes.len(), 33 + 4 * 8 + 8 + 7 * 17);
    assert_eq!(&bytes[0..4], &[2, 0, 0, 0]);
    assert_eq!(&bytes[4..8], &[2, 0, 0, 0]);
    assert_eq!(&bytes[8..16], &[10, 0, 0, 0, 0, 0, 0, 0]);
    assert_eq!(&bytes[16..24], &[30, 0, 0, 0, 0, 0, 0, 0]);
    assert_eq!(bytes[24], 17);
    assert_eq!(&bytes[25..33], &[4, 0, 0, 0, 0, 0, 0, 0]);
    // entry of the cell (0, 0): offset 0, length 4
    assert_eq!(&bytes[33..41], &[0, 0, 0, 0, 4, 0, 0, 0]);
    // entry of the cell (1, 0): offset 4, length 1
    assert_eq!(&bytes[41..49], &[4, 0, 0, 0, 1, 0, 0, 0]);
    assert_eq!(&bytes[65..73], &[7, 0, 0, 0, 0, 0, 0, 0]);
    // the sentinel of the cell (0, 0)
    assert_eq!(&bytes[73..90], &[9, 0, 0, 0, 0, 0, 0, 0, 0, 0, 0, 0, 27, 0, 0, 0, 0]);
}

#[test]
fn store_opens_what_the_builder_wrote() {
    let bytes = small_file();
    let store = SerializedDataset::new(&bytes).unwrap();
    assert_eq!(store.metadata().canvas_width, 2);
    assert_eq!(store.metadata().canvas_height, 2);
    assert_eq!(store.metadata().min_timestamp, 10);
    assert_eq!(store.metadata().max_timestamp, 30);
    assert_eq!(store.metadata().datapoint_size, 17);
    assert_eq!(store.datapoint_history_len(0, 0), 4);
    assert_eq!(store.datapoint_history_len(1, 0), 1);
    assert_eq!(store.datapoint_history_len(0, 1), 1);
    assert_eq!(store.datapoint_history_len(1, 1), 1);
    assert_eq!(store.datapoint_timestamp_with_xy_and_idx(0, 0, 0), 9);
    assert_eq!(store.datapoint_timestamp_with_xy_and_idx(0, 0, 1), 10);
    assert_eq!(store.datapoint_timestamp_with_xy_and_idx(0, 0, 3), 30);
    let second = store.datapoint_with_xy_and_idx(0, 0, 2);
    assert_eq!(second.timestamp, 20);
    assert_eq!(second.user_id, 7);
    assert_eq!(second.color, PixelColor::Blue);
    assert!(!second.is_mod);
    assert_eq!(store.datapoint_history_bytes(0, 0).len(), 4 * 17);
    assert_eq!(store.datapoint_history_bytes_sliced(0, 0, 1, 3).len(), 2 * 17);
}

#[test]
fn truncated_file_is_corrupt() {
    let bytes = small_file();
    for cut in [0usize, 1, 10, 32, 33, 40, 64, 72, 73, 100, bytes.len() - 1] {
        let r = SerializedDataset::new(&bytes[..cut]);
        assert_eq!(r.err(), Some(StoreError::Corrupt), "cut at {}", cut);
    }
    assert!(SerializedDataset::new(&bytes).is_ok());
}

#[test]
fn inconsistent_file_is_corrupt() {
    let good = small_file();
    // zero width
    let mut bytes = good.clone();
    bytes[0] = 0;
    assert_eq!(SerializedDataset::new(&bytes).err(), Some(StoreError::Corrupt));
    // a number of entries that does not fit the sizes
    let mut bytes = good.clone();
    bytes[25] = 5;
    assert_eq!(SerializedDataset::new(&bytes).err(), Some(StoreError::Corrupt));
    // a wrong size of the edits
    let mut bytes = good.clone();
    bytes[24] = 14;
    assert_eq!(SerializedDataset::new(&bytes).err(), Some(StoreError::Corrupt));
    // an entry that points outside the array
    let mut bytes = good.clone();
    bytes[37] = 9;
    assert_eq!(SerializedDataset::new(&bytes).err(), Some(StoreError::Corrupt));
    // a color that the palette lacks
    let mut bytes = good.clone();
    bytes[73 + 12] = 32;
    assert_eq!(SerializedDataset::new(&bytes).err(), Some(StoreError::Corrupt));
    // a byte that is no bool
    let mut bytes = good.clone();
    bytes[73 + 16] = 2;
    assert_eq!(SerializedDataset::new(&bytes).err(), Some(StoreError::Corrupt));
    // a history out of order: the edit at 20 dated 31
    let mut bytes = good.clone();
    bytes[73 + 2 * 17] = 31;
    assert_eq!(SerializedDataset::new(&bytes).err(), Some(StoreError::Corrupt));
    // a sentinel with another date
    let mut bytes = good.clone();
    bytes[73] = 8;
    assert_eq!(SerializedDataset::new(&bytes).err(), Some(StoreError::Corrupt));
    // a sentinel with another color than the first: that of the cell (1, 0)
    let mut bytes = good.clone();
    bytes[73 + 4 * 17 + 12] = 5;
    assert_eq!(SerializedDataset::new(&bytes).err(), Some(StoreError::Corrupt));
    // another color for all sentinels is as good
    let mut bytes = good.clone();
    for sentinel in [0usize, 4, 5, 6] {
        bytes[73 + sentinel * 17 + 12] = 31;
    }
    let canvas = Canvas::new_with_dataset(SerializedDataset::new(&bytes).unwrap());
    assert_eq!(canvas.pixels[1][1].color, PixelColor::White);
}

#[test]
fn new_canvas_shows_sentinels() {
    let bytes = small_file();
    let canvas = Canvas::new_with_dataset(SerializedDataset::new(&bytes).unwrap());
    assert_eq!(canvas.width(), 2);
    assert_eq!(canvas.height(), 2);
    assert_eq!(canvas.timestamp, 9);
    assert_eq!(canvas.min_timestamp, 10);
    assert_eq!(canvas.max_timestamp, 30);
    for y in 0..2 {
        for x in 0..2 {
            assert_eq!(canvas.pixels[y][x], CanvasPixel::new(PixelColor::Black, 9));
        }
    }
}

#[test]
fn retarget_scenario() {
    let bytes = small_file();
    let mut canvas = Canvas::new_with_dataset(SerializedDataset::new(&bytes).unwrap());
    canvas.adjust_timestamp(25, 0, 2, 0, 2);
    assert_eq!(canvas.timestamp, 25);
    assert_eq!(canvas.pixels[0][0].color, PixelColor::Blue);
    assert_eq!(canvas.pixels[0][0].datapoint_history_idx, 2);
    assert_eq!(canvas.pixels[0][0].timestamp, 25);
    for (x, y) in [(1usize, 0usize), (0, 1), (1, 1)] {
        assert_eq!(canvas.pixels[y][x].color, PixelColor::Black);
        assert_eq!(canvas.pixels[y][x].datapoint_history_idx, 0);
        assert_eq!(canvas.pixels[y][x].timestamp, 25);
    }
    canvas.adjust_timestamp(5, 0, 2, 0, 2);
    assert_eq!(canvas.timestamp, 5);
    for y in 0..2 {
        for x in 0..2 {
            assert_eq!(canvas.pixels[y][x].color, PixelColor::Black);
            assert_eq!(canvas.pixels[y][x].datapoint_history_idx, 0);
            assert_eq!(canvas.pixels[y][x].timestamp, 5);
        }
    }
}

#[test]
fn next_nth_scenario() {
    let bytes = small_file();
    let mut canvas = Canvas::new_with_dataset(SerializedDataset::new(&bytes).unwrap());
    canvas.adjust_timestamp(25, 0, 2, 0, 2);
    canvas.adjust_timestamp(5, 0, 2, 0, 2);
    assert_eq!(canvas.next_nth_pixel_change(1, 0, 2, 0, 2), Ok(10));
    assert_eq!(canvas.next_nth_pixel_change(3, 0, 2, 0, 2), Ok(30));
    assert_eq!(canvas.next_nth_pixel_change_low_mem(1, 0, 2, 0, 2), Ok(10));
    assert_eq!(canvas.next_nth_pixel_change_low_mem(3, 0, 2, 0, 2), Ok(30));
    assert_eq!(canvas.next_nth_pixel_change_fast(1, 0, 2, 0, 2), Ok(10));
    assert_eq!(canvas.next_nth_pixel_change_fast(3, 0, 2, 0, 2), Ok(30));
    assert_eq!(canvas.next_nth_pixel_change(2, 0, 2, 0, 2), Ok(20));
    // fewer than n changes ahead: the last of them
    assert_eq!(canvas.next_nth_pixel_change(9, 0, 2, 0, 2), Ok(30));
    assert_eq!(canvas.next_nth_pixel_change_low_mem(9, 0, 2, 0, 2), Ok(30));
    assert_eq!(canvas.next_nth_pixel_change_fast(9, 0, 2, 0, 2), Ok(30));
}

#[test]
fn no_change_ahead() {
    let bytes = small_file();
    let mut canvas = Canvas::new_with_dataset(SerializedDataset::new(&bytes).unwrap());
    // the cells but (0, 0) have no edit
    assert_eq!(canvas.next_nth_pixel_change(1, 1, 2, 0, 2), Err(RankQueryError::NoChange));
    assert_eq!(canvas.next_nth_pixel_change_low_mem(1, 1, 2, 0, 2), Err(RankQueryError::NoChange));
    assert_eq!(canvas.next_nth_pixel_change_fast(1, 1, 2, 0, 2), Err(RankQueryError::NoChange));
    // at the end nothing is ahead
    canvas.adjust_timestamp(30, 0, 2, 0, 2);
    assert_eq!(canvas.next_nth_pixel_change(1, 0, 2, 0, 2), Err(RankQueryError::NoChange));
    assert_eq!(canvas.next_nth_pixel_change_fast(1, 0, 2, 0, 2), Err(RankQueryError::NoChange));
    // n = 0 and an empty rectangle ask for nothing
    canvas.adjust_timestamp(9, 0, 2, 0, 2);
    assert_eq!(canvas.next_nth_pixel_change(0, 0, 2, 0, 2), Err(RankQueryError::NoChange));
    assert_eq!(canvas.next_nth_pixel_change(1, 1, 1, 0, 2), Err(RankQueryError::NoChange));
    assert_eq!(canvas.prev_nth_pixel_change(0, 0, 2, 0, 2), Err(RankQueryError::NoChange));
    assert_eq!(canvas.prev_nth_pixel_change(1, 0, 2, 2, 0), Err(RankQueryError::NoChange));
    assert_eq!(canvas.prev_nth_pixel_change_fast(1, 0, 0, 0, 2), Err(RankQueryError::NoChange));
    assert_eq!(canvas.prev_nth_pixel_change_low_mem(1, 0, 0, 0, 2), Err(RankQueryError::NoChange));
}

#[test]
fn prev_nth_counts_the_edit_in_effect() {
    let bytes = small_file();
    let mut canvas = Canvas::new_with_dataset(SerializedDataset::new(&bytes).unwrap());
    canvas.adjust_timestamp(25, 0, 2, 0, 2);
    // previous changes: 20, 10, 9 in (0, 0) and the sentinels 9, 9, 9
    assert_eq!(canvas.prev_nth_pixel_change(1, 0, 2, 0, 2), Ok(20));
    assert_eq!(canvas.prev_nth_pixel_change(2, 0, 2, 0, 2), Ok(10));
    assert_eq!(canvas.prev_nth_pixel_change(3, 0, 2, 0, 2), Ok(9));
    assert_eq!(canvas.prev_nth_pixel_change(6, 0, 2, 0, 2), Ok(9));
    assert_eq!(canvas.prev_nth_pixel_change(60, 0, 2, 0, 2), Ok(9));
    for n in 1..8 {
        let expected = canvas.prev_nth_pixel_change(n, 0, 2, 0, 2);
        assert_eq!(canvas.prev_nth_pixel_change_low_mem(n, 0, 2, 0, 2), expected);
        assert_eq!(canvas.prev_nth_pixel_change_fast(n, 0, 2, 0, 2), expected);
    }
    // an edit dated exactly at the moment counts as previous
    canvas.adjust_timestamp(20, 0, 2, 0, 2);
    assert_eq!(canvas.prev_nth_pixel_change(1, 0, 2, 0, 2), Ok(20));
    assert_eq!(canvas.next_nth_pixel_change(1, 0, 2, 0, 2), Ok(30));
}

#[test]
fn strategies_agree_on_busy_canvas() {
    let bytes = busy_file();
    let mut canvas = Canvas::new_with_dataset(SerializedDataset::new(&bytes).unwrap());
    let moments = [0u64, 99, 100, 104, 105, 110, 115, 120, 139, 140, 160, 200];
    let rects = [(0usize, 3usize, 0usize, 3usize), (0, 3, 0, 2), (1, 3, 1, 3), (0, 1, 0, 1), (2, 3, 0, 3)];
    for t in moments {
        canvas.adjust_timestamp(t, 0, 3, 0, 3);
        for (x1, x2, y1, y2) in rects {
            for n in 0..14 {
                let next = canvas.next_nth_pixel_change(n, x1, x2, y1, y2);
                assert_eq!(canvas.next_nth_pixel_change_low_mem(n, x1, x2, y1, y2), next);
                assert_eq!(canvas.next_nth_pixel_change_fast(n, x1, x2, y1, y2), next);
                let prev = canvas.prev_nth_pixel_change(n, x1, x2, y1, y2);
                assert_eq!(canvas.prev_nth_pixel_change_low_mem(n, x1, x2, y1, y2), prev);
                assert_eq!(canvas.prev_nth_pixel_change_fast(n, x1, x2, y1, y2), prev);
            }
        }
    }
}

#[test]
fn queries_against_sorted_lists() {
    let bytes = busy_file();
    let mut canvas = Canvas::new_with_dataset(SerializedDataset::new(&bytes).unwrap());
    canvas.adjust_timestamp(107, 0, 3, 0, 3);
    // ahead of 107 on the whole canvas
    let ahead = [110u64, 110, 120, 130, 140, 150, 160];
    for n in 1..=7 {
        assert_eq!(canvas.next_nth_pixel_change(n, 0, 3, 0, 3), Ok(ahead[n - 1]));
    }
    // at or before 107: 105, 105, 100 and nine sentinels at 99
    let behind = [105u64, 105, 100, 99, 99];
    for n in 1..=5 {
        assert_eq!(canvas.prev_nth_pixel_change(n, 0, 3, 0, 3), Ok(behind[n - 1]));
    }
    // within the middle column: edits of (1, 0) at 105, 150 and of (1, 1) at 120
    assert_eq!(canvas.next_nth_pixel_change(1, 1, 2, 0, 3), Ok(120));
    assert_eq!(canvas.next_nth_pixel_change(2, 1, 2, 0, 3), Ok(150));
    assert_eq!(canvas.prev_nth_pixel_change(1, 1, 2, 0, 3), Ok(105));
}

#[test]
fn retarget_touches_only_the_rectangle() {
    let bytes = busy_file();
    let mut canvas = Canvas::new_with_dataset(SerializedDataset::new(&bytes).unwrap());
    canvas.adjust_timestamp(200, 0, 2, 0, 1);
    assert_eq!(canvas.pixels[0][0].color, PixelColor::Mud);
    assert_eq!(canvas.pixels[0][0].datapoint_history_idx, 4);
    assert_eq!(canvas.pixels[0][1].color, PixelColor::Brown);
    assert_eq!(canvas.pixels[0][2], CanvasPixel::new(PixelColor::Black, 99));
    assert_eq!(canvas.pixels[1][1], CanvasPixel::new(PixelColor::Black, 99));
    assert_eq!(canvas.pixels[2][2], CanvasPixel::new(PixelColor::Black, 99));
    // an empty rectangle changes nothing, not even the moment of the canvas
    canvas.adjust_timestamp(120, 2, 2, 0, 3);
    assert_eq!(canvas.timestamp, 200);
    assert_eq!(canvas.pixels[0][0].timestamp, 200);
}

#[test]
fn retarget_with_ties_shows_the_last_edit() {
    let bytes = busy_file();
    let mut canvas = Canvas::new_with_dataset(SerializedDataset::new(&bytes).unwrap());
    // (0, 0) was painted white and then grey at 110
    canvas.adjust_timestamp(110, 0, 3, 0, 3);
    assert_eq!(canvas.pixels[0][0].color, PixelColor::Grey);
    assert_eq!(canvas.pixels[0][0].datapoint_history_idx, 3);
    canvas.adjust_timestamp(109, 0, 3, 0, 3);
    assert_eq!(canvas.pixels[0][0].color, PixelColor::Red);
    canvas.adjust_timestamp(111, 0, 3, 0, 3);
    assert_eq!(canvas.pixels[0][0].color, PixelColor::Grey);
}

#[test]
fn retarget_does_not_depend_on_the_way() {
    let bytes = busy_file();
    let mut direct = Canvas::new_with_dataset(SerializedDataset::new(&bytes).unwrap());
    let mut around = Canvas::new_with_dataset(SerializedDataset::new(&bytes).unwrap());
    for (t1, t2, t3) in [(100u64, 110u64, 150u64), (99, 105, 160), (104, 139, 140), (0, 120, 1000)] {
        around.adjust_timestamp(t1, 0, 3, 0, 3);
        around.adjust_timestamp(t3, 0, 3, 0, 3);
        around.adjust_timestamp(t2, 0, 3, 0, 3);
        direct.adjust_timestamp(t2, 0, 3, 0, 3);
        assert_eq!(around.pixels, direct.pixels);
        assert_eq!(around.timestamp, direct.timestamp);
    }
}

#[test]
fn search_from_scratch_agrees_with_cursor() {
    let bytes = busy_file();
    let store = SerializedDataset::new(&bytes).unwrap();
    let mut canvas = Canvas::new_with_dataset(SerializedDataset::new(&bytes).unwrap());
    for t in [0u64, 99, 100, 105, 106, 110, 125, 140, 159, 160, 161] {
        canvas.adjust_timestamp(t, 0, 3, 0, 3);
        for y in 0..3usize {
            for x in 0..3usize {
                let len = store.datapoint_history_len(x as u32, y as u32);
                let fresh = CanvasPixel::new(PixelColor::Black, 99);
                let (index, edit) = store.search(t, x, y, 0, len, &fresh);
                assert_eq!(index, canvas.pixels[y][x].datapoint_history_idx);
                assert_eq!(edit.color, canvas.pixels[y][x].color);
                // any hint gives the same answer
                for hint_idx in 0..len + 1 {
                    for hint_t in [0u64, t, t + 1, 1000] {
                        let hint = CanvasPixel {
                            color: PixelColor::Black,
                            datapoint_history_idx: hint_idx,
                            timestamp: hint_t,
                        };
                        assert_eq!(store.search(t, x, y, 0, len, &hint).0, index);
                    }
                }
            }
        }
    }
}

#[test]
fn search_in_history_of_sentinel_only() {
    let bytes = small_file();
    let store = SerializedDataset::new(&bytes).unwrap();
    let hint = CanvasPixel::new(PixelColor::Black, 9);
    for t in [9u64, 10, 25, u64::MAX] {
        let (index, edit) = store.search(t, 1, 1, 0, 1, &hint);
        assert_eq!(index, 0);
        assert_eq!(edit.timestamp, 9);
        assert_eq!(edit.color, PixelColor::Black);
    }
}

#[test]
fn adjust_rows_moves_one_run() {
    let bytes = busy_file();
    let mut canvas = Canvas::new_with_dataset(SerializedDataset::new(&bytes).unwrap());
    canvas.adjust_rows(160, 0, 3, 1, 2);
    assert_eq!(canvas.timestamp, 99);
    assert_eq!(canvas.pixels[1][2].color, PixelColor::Salmon);
    assert_eq!(canvas.pixels[1][1].color, PixelColor::Teal);
    assert_eq!(canvas.pixels[0][0], CanvasPixel::new(PixelColor::Black, 99));
    assert_eq!(canvas.pixels[2][2], CanvasPixel::new(PixelColor::Black, 99));
}

#[test]
fn chunk_sizes() {
    assert_eq!(rplace::canvas::chunk_size(1), 1);
    assert_eq!(rplace::canvas::chunk_size(8), 1);
    assert_eq!(rplace::canvas::chunk_size(9), 2);
    assert_eq!(rplace::canvas::chunk_size(2000), 250);
    assert_eq!(rplace::canvas::chunk_size(2001), 251);
}

#[test]
fn counting_in_memory_of_the_caller() {
    let bytes = busy_file();
    let mut canvas = Canvas::new_with_dataset(SerializedDataset::new(&bytes).unwrap());
    let mut scratch = RankScratch::new();
    for t in [99u64, 107, 125, 160] {
        canvas.adjust_timestamp(t, 0, 3, 0, 3);
        for (x1, x2, y1, y2) in [(0usize, 3usize, 0usize, 3usize), (1, 2, 0, 2), (0, 1, 2, 3)] {
            for n in 0..10 {
                assert_eq!(
                    canvas.next_nth_pixel_change_fast_with(n, x1, x2, y1, y2, &mut scratch),
                    canvas.next_nth_pixel_change(n, x1, x2, y1, y2)
                );
                assert_eq!(
                    canvas.prev_nth_pixel_change_fast_with(n, x1, x2, y1, y2, &mut scratch),
                    canvas.prev_nth_pixel_change(n, x1, x2, y1, y2)
                );
            }
        }
    }
}

#[test]
fn nothing_is_previous_before_the_sentinel() {
    let bytes = small_file();
    let mut canvas = Canvas::new_with_dataset(SerializedDataset::new(&bytes).unwrap());
    let mut scratch = RankScratch::new();
    canvas.adjust_timestamp(25, 0, 2, 0, 2);
    canvas.adjust_timestamp(5, 0, 2, 0, 2);
    // the sentinels are dated 9, after the moment
    for n in 1..4 {
        assert_eq!(canvas.prev_nth_pixel_change(n, 0, 2, 0, 2), Err(RankQueryError::NoChange));
        assert_eq!(canvas.prev_nth_pixel_change_low_mem(n, 0, 2, 0, 2), Err(RankQueryError::NoChange));
        assert_eq!(canvas.prev_nth_pixel_change_fast(n, 0, 2, 0, 2), Err(RankQueryError::NoChange));
        assert_eq!(
            canvas.prev_nth_pixel_change_fast_with(n, 0, 2, 0, 2, &mut scratch),
            Err(RankQueryError::NoChange)
        );
    }
    assert_eq!(canvas.next_nth_pixel_change(1, 0, 2, 0, 2), Ok(10));
    // at the sentinel's moment the sentinels are previous
    canvas.adjust_timestamp(9, 0, 2, 0, 2);
    assert_eq!(canvas.prev_nth_pixel_change(1, 0, 2, 0, 2), Ok(9));
    assert_eq!(canvas.prev_nth_pixel_change_low_mem(4, 0, 2, 0, 2), Ok(9));
    assert_eq!(canvas.prev_nth_pixel_change_fast(9, 0, 2, 0, 2), Ok(9));
    // cells moved apart: (0, 0) to 20, the others stay at 5
    canvas.adjust_timestamp(5, 0, 2, 0, 2);
    canvas.adjust_timestamp(20, 0, 1, 0, 1);
    assert_eq!(canvas.prev_nth_pixel_change(1, 0, 2, 0, 2), Ok(20));
    assert_eq!(canvas.prev_nth_pixel_change(3, 0, 2, 0, 2), Ok(9));
    assert_eq!(canvas.prev_nth_pixel_change(4, 0, 2, 0, 2), Ok(9));
    assert_eq!(canvas.prev_nth_pixel_change_fast(4, 0, 2, 0, 2), Ok(9));
    assert_eq!(canvas.prev_nth_pixel_change(1, 1, 2, 0, 2), Err(RankQueryError::NoChange));
}
