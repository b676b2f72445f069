use rplace::builder::{write_data, DatasetBuilder, IngestionError};
use rplace::data::{RPlaceCoordinate, RPlaceDatapoint};
use rplace::dataset::RPlaceDatasetDatapoint;
use rplace::pixel::PixelColor;
use rplace::reader::custom::{
    PrecompressedDatasetMetadata, SerializedDatapoint, SerializedDatapointHistory,
    SerializedDataset, StoreError,
};

fn edit(timestamp: u64, x: u32, y: u32, color: PixelColor, is_mod: bool) -> RPlaceDatapoint {
    RPlaceDatapoint {
        timestamp,
        user_id: 0xdead_beef,
        color,
        coordinate: RPlaceCoordinate { x, y },
        is_mod,
    }
}

#[test]
fn edit_bytes_are_those_of_bincode() {
    let cases = [
        (0u64, 0u32, PixelColor::Maroon, false),
        (1, 2, PixelColor::Red, true),
        (0x0102_0304_0506_0708, 0x0a0b_0c0d, PixelColor::White, true),
        (u64::MAX, u32::MAX, PixelColor::Black, false),
    ];
    for (timestamp, user_id, color, is_mod) in cases {
        let d = RPlaceDatasetDatapoint { timestamp, user_id, color, is_mod };
        let bytes = d.to_bytes();
        let expected = bincode::serialize(&(timestamp, user_id, color.index(), is_mod)).unwrap();
        assert_eq!(bytes, expected);
        assert_eq!(bytes.len(), 17);
        assert_eq!(RPlaceDatasetDatapoint::from_bytes(&bytes), Some(d));
    }
}

#[test]
fn edit_bytes_by_hand() {
    let d = RPlaceDatasetDatapoint {
        timestamp: 0x0102_0304_0506_0708,
        user_id: 0x0a0b_0c0d,
        color: PixelColor::Orange,
        is_mod: true,
    };
    assert_eq!(
        d.to_bytes(),
        vec![8, 7, 6, 5, 4, 3, 2, 1, 0x0d, 0x0c, 0x0b, 0x0a, 3, 0, 0, 0, 1]
    );
    assert_eq!(RPlaceDatasetDatapoint::compressed_size(), 17);
    assert_eq!(
        RPlaceDatasetDatapoint::start(),
        RPlaceDatasetDatapoint { timestamp: 0, user_id: 0, color: PixelColor::Black, is_mod: false }
    );
}

#[test]
fn edit_from_bad_bytes() {
    let good = RPlaceDatasetDatapoint::start().to_bytes();
    assert_eq!(RPlaceDatasetDatapoint::from_bytes(&good[..16]), None);
    assert_eq!(RPlaceDatasetDatapoint::from_bytes(&[]), None);
    let mut bytes = good.clone();
    bytes[12] = 32;
    assert_eq!(RPlaceDatasetDatapoint::from_bytes(&bytes), None);
    let mut bytes = good.clone();
    bytes[15] = 1;
    assert_eq!(RPlaceDatasetDatapoint::from_bytes(&bytes), None);
    let mut bytes = good.clone();
    bytes[16] = 2;
    assert_eq!(RPlaceDatasetDatapoint::from_bytes(&bytes), None);
    // what follows the edit is not looked at
    let mut bytes = good.clone();
    bytes.push(99);
    assert_eq!(RPlaceDatasetDatapoint::from_bytes(&bytes), Some(RPlaceDatasetDatapoint::start()));
}

#[test]
fn stored_edit_drops_the_cell() {
    let d = RPlaceDatasetDatapoint::from(edit(12, 3, 4, PixelColor::Teal, true));
    assert_eq!(
        d,
        RPlaceDatasetDatapoint {
            timestamp: 12,
            user_id: 0xdead_beef,
            color: PixelColor::Teal,
            is_mod: true
        }
    );
}

#[test]
fn header_of_new_canvas() {
    let m = PrecompressedDatasetMetadata::new(3);
    assert_eq!(m.canvas_width, 3);
    assert_eq!(m.canvas_height, 3);
    assert_eq!(m.min_timestamp, 0);
    assert_eq!(m.max_timestamp, u64::MAX);
    assert_eq!(m.datapoint_size, 17);
    assert_eq!(m.history_metadata.len(), 9);
    assert_eq!(m.get(2, 1).offset, 0);
    assert_eq!(m.get(2, 1).length, 0);
    let bytes = m.to_bytes();
    assert_eq!(bytes.len() as u64, PrecompressedDatasetMetadata::compressed_size(3));
    assert_eq!(PrecompressedDatasetMetadata::compressed_size(3), 33 + 72);
    assert_eq!(PrecompressedDatasetMetadata::compressed_size(0), 33);
    assert_eq!(PrecompressedDatasetMetadata::compressed_size(2000), 33 + 8 * 4_000_000);
    assert_eq!(&bytes[0..8], &[3, 0, 0, 0, 3, 0, 0, 0]);
    assert_eq!(&bytes[16..24], &[255; 8]);
    assert_eq!(bytes[24], 17);
    assert_eq!(&bytes[25..33], &[9, 0, 0, 0, 0, 0, 0, 0]);
    // as bincode writes the same fields
    let fields = (3u32, 3u32, 0u64, u64::MAX, 17u8, vec![(0u32, 0u32); 9]);
    assert_eq!(bytes, bincode::serialize(&fields).unwrap());
}

#[test]
fn header_entries_by_cell() {
    let mut builder = DatasetBuilder::new(2);
    builder.add(edit(10, 1, 0, PixelColor::Red, false));
    builder.add(edit(11, 1, 1, PixelColor::Red, false));
    builder.add(edit(12, 1, 1, PixelColor::Red, false));
    let dataset = builder.finish().unwrap();
    let m = &dataset.metadata;
    assert_eq!((m.get(0, 0).offset, m.get(0, 0).length), (0, 1));
    assert_eq!((m.get(1, 0).offset, m.get(1, 0).length), (1, 2));
    assert_eq!((m.get(0, 1).offset, m.get(0, 1).length), (3, 1));
    assert_eq!((m.get(1, 1).offset, m.get(1, 1).length), (4, 3));
    assert_eq!(dataset.data.data.len(), 7);
    assert_eq!(dataset.data.data[2].timestamp, 10);
    assert_eq!(dataset.data.data[0].timestamp, 9);
}

#[test]
fn write_data_builds_a_file_that_opens() {
    let records = vec![
        edit(1000, 0, 1, PixelColor::Red, false),
        edit(1000, 1, 1, PixelColor::Blue, true),
        edit(1001, 0, 1, PixelColor::Tan, false),
        edit(2000, 0, 0, PixelColor::Mud, false),
    ];
    let bytes = write_data(&records, 2).unwrap();
    let store = SerializedDataset::new(&bytes).unwrap();
    assert_eq!(store.metadata().min_timestamp, 1000);
    assert_eq!(store.metadata().max_timestamp, 2000);
    assert_eq!(store.datapoint_history_len(0, 0), 2);
    assert_eq!(store.datapoint_history_len(1, 0), 1);
    assert_eq!(store.datapoint_history_len(0, 1), 3);
    assert_eq!(store.datapoint_history_len(1, 1), 2);
    for y in 0..2 {
        for x in 0..2 {
            let sentinel = store.datapoint_with_xy_and_idx(x, y, 0);
            assert_eq!(sentinel.timestamp, 999);
            assert_eq!(sentinel.color, PixelColor::Black);
        }
    }
    let e = store.datapoint_with_xy_and_idx(1, 1, 1);
    assert_eq!((e.timestamp, e.color, e.is_mod, e.user_id), (1000, PixelColor::Blue, true, 0xdead_beef));
    assert_eq!(store.datapoint_with_xy_and_idx(0, 1, 2).color, PixelColor::Tan);
    assert_eq!(store.datapoint_with_xy_and_idx(0, 0, 1).timestamp, 2000);
}

#[test]
fn write_data_without_edits_fails() {
    assert_eq!(write_data(&Vec::new(), 4), Err(IngestionError::EmptySource));
}

#[test]
fn store_reads_by_offset() {
    let records = vec![edit(50, 1, 0, PixelColor::Grape, false), edit(60, 1, 0, PixelColor::Grey, false)];
    let bytes = write_data(&records, 2).unwrap();
    let store = SerializedDataset::new(&bytes).unwrap();
    // header 33 + 4 entries + count; the cell (1, 0) follows one sentinel
    let offset = store.datapoint_history_xy_offset(1, 0);
    assert_eq!(offset, 33 + 32 + 8 + 17);
    assert_eq!(store.datapoint_timestamp_with_history_offset(offset, 0), 49);
    assert_eq!(store.datapoint_timestamp_with_history_offset(offset, 2), 60);
    assert_eq!(store.datapoint_with_history_offset(offset, 1).color, PixelColor::Grape);
    assert_eq!(store.datapoint_bytes_with_history_offset(offset, 1).len(), 17);
    let history = SerializedDatapointHistory::new(store.datapoint_history_bytes(1, 0));
    assert_eq!(history.len(), 3);
    assert_eq!(history.get(2).unwrap().color, PixelColor::Grey);
    assert_eq!(history.get_bytes(0).len(), 17);
    let first = SerializedDatapoint::new(history.get_bytes(1));
    assert_eq!(first.timestamp(), 50);
    assert_eq!(SerializedDatapoint::extract_timestamp(history.get_bytes(2)), 60);
    assert_eq!(SerializedDatapoint::extract_timestamp(&[1, 1, 0, 0, 0, 0, 0, 0, 77]), 257);
}

#[test]
fn store_refuses_what_is_no_file() {
    assert_eq!(SerializedDataset::new(&[]).err(), Some(StoreError::Corrupt));
    assert_eq!(SerializedDataset::new(&[0u8; 32]).err(), Some(StoreError::Corrupt));
    assert_eq!(SerializedDataset::new(&[0u8; 200]).err(), Some(StoreError::Corrupt));
    assert_eq!(SerializedDataset::new(&[255u8; 200]).err(), Some(StoreError::Corrupt));
}
