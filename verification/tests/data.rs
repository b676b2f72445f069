use rplace::api::GameDisplay;
use rplace::builder::write_data;
use rplace::canvas::Canvas;
use rplace::data::{
    RPlaceCoordinate, RPlaceDataIterator, RPlaceDatapoint, DAY_1_START_TIMESTAMP,
    DAY_2_START_TIMESTAMP, DAY_3_START_TIMESTAMP, MAX_TIMESTAMP,
};
use rplace::display::{adjust_timestamp_to_day, longer_step, shorter_step};
use rplace::pixel::PixelColor;
use rplace::reader::custom::SerializedDataset;
use rplace::reader::parquet::{ParquetField, RPlaceParquetDataIterator, RPlaceParquetDatapoint};
use rplace::window::SelectionRegion;

fn row(timestamp: i64, rgb: u64, x1: i16, y1: i16, x2: i16, y2: i16) -> RPlaceParquetDatapoint {
    RPlaceParquetDatapoint { timestamp, user_id: 5, rgb, x1, y1, x2, y2 }
}

fn columns(timestamp: i64, rgb: i32, x1: i16, y1: i16, x2: i16, y2: i16) -> Vec<(String, ParquetField)> {
    vec![
        ("timestamp".to_string(), ParquetField::Long(timestamp)),
        ("user_id".to_string(), ParquetField::Int(5)),
        ("rgb".to_string(), ParquetField::Int(rgb)),
        ("x1".to_string(), ParquetField::Short(x1)),
        ("y1".to_string(), ParquetField::Short(y1)),
        ("x2".to_string(), ParquetField::Short(x2)),
        ("y2".to_string(), ParquetField::Short(y2)),
    ]
}

#[test]
fn row_of_one_cell() {
    let d = RPlaceDatapoint::try_from(row(77, 0xff4500, 3, 4, i16::MIN, i16::MIN)).unwrap();
    assert_eq!(
        d,
        RPlaceDatapoint {
            timestamp: 77,
            user_id: 5,
            color: PixelColor::RedOrange,
            coordinate: RPlaceCoordinate { x: 3, y: 4 },
            is_mod: false,
        }
    );
    assert_eq!(RPlaceDatapoint::try_from_row(&row(77, 0xff4500, 3, 4, i16::MIN, i16::MIN)), Ok(d));
}

#[test]
fn row_of_rectangle_and_bad_color() {
    let d = RPlaceDatapoint::try_from_row(&row(77, 0, 3, 4, 5, 4)).unwrap();
    assert!(d.is_mod);
    assert_eq!(d.coordinate, RPlaceCoordinate { x: 3, y: 4 });
    assert!(RPlaceDatapoint::try_from_row(&row(77, 0, 3, 4, i16::MIN, 0)).unwrap().is_mod);
    assert_eq!(RPlaceDatapoint::try_from_row(&row(77, 0x123456, 3, 4, 5, 4)), Err(()));
    assert_eq!(RPlaceDatapoint::default().color, PixelColor::Black);
    assert_eq!(RPlaceDatapoint::default().timestamp, 0);
}

#[test]
fn rectangle_gives_one_edit_per_cell() {
    let edits = RPlaceDatapoint::try_all_from_row(&row(9, 0xffffff, 10, 20, 12, 21)).unwrap();
    let cells: Vec<(u32, u32)> = edits.iter().map(|e| (e.coordinate.x, e.coordinate.y)).collect();
    assert_eq!(cells, vec![(10, 20), (11, 20), (12, 20), (10, 21), (11, 21), (12, 21)]);
    for e in edits.iter() {
        assert_eq!(e.timestamp, 9);
        assert_eq!(e.user_id, 5);
        assert_eq!(e.color, PixelColor::White);
        assert!(!e.is_mod);
    }
    // an empty rectangle
    assert_eq!(RPlaceDatapoint::try_all_from_row(&row(9, 0xffffff, 10, 20, 9, 21)), Ok(Vec::new()));
    assert_eq!(RPlaceDatapoint::try_all_from_row(&row(9, 0x123456, 10, 20, 9, 21)), Ok(Vec::new()));
    // a color that the palette lacks
    assert_eq!(RPlaceDatapoint::try_all_from_row(&row(9, 0x123456, 10, 20, 10, 20)), Err(()));
    // one cell
    assert_eq!(RPlaceDatapoint::try_all_from_row(&row(9, 0, 1, 1, 1, 1)).unwrap().len(), 1);
}

#[test]
fn rows_from_columns() {
    let it = RPlaceParquetDataIterator::new(Vec::new());
    let d = it.convert_row(&columns(1648817050315000000, 0xffa800, 42, 43, i16::MIN, i16::MIN));
    assert_eq!(
        d,
        RPlaceParquetDatapoint {
            timestamp: 1648817050315000000,
            user_id: 5,
            rgb: 0xffa800,
            x1: 42,
            y1: 43,
            x2: i16::MIN,
            y2: i16::MIN
        }
    );
    // columns of another kind or name leave the row as it is
    let odd = vec![
        ("timestamp".to_string(), ParquetField::Int(3)),
        ("rgb".to_string(), ParquetField::Long(3)),
        ("x1".to_string(), ParquetField::Other),
        ("x3".to_string(), ParquetField::Short(3)),
        ("y2".to_string(), ParquetField::Short(8)),
    ];
    let d = it.convert_row(&odd);
    assert_eq!(d, RPlaceParquetDatapoint { y2: 8, ..RPlaceParquetDatapoint::default() });
    // a negative rgb keeps its bits
    let d = it.convert_row(&vec![("rgb".to_string(), ParquetField::Int(-1))]);
    assert_eq!(d.rgb, u64::MAX);
    assert_eq!(RPlaceParquetDatapoint::default().timestamp, 0);
}

#[test]
fn iterator_hands_out_rectangles_cell_by_cell() {
    let rows = vec![
        columns(10, 0xff4500, 1, 1, i16::MIN, i16::MIN),
        columns(11, 0x000000, 2, 3, 3, 4),
        columns(12, 0xffffff, 0, 0, i16::MIN, i16::MIN),
    ];
    let mut it = RPlaceDataIterator::new(RPlaceParquetDataIterator::new(rows));
    let mut seen = Vec::new();
    for _ in 0..10 {
        match it.next() {
            Some(d) => seen.push((d.timestamp, d.coordinate.x, d.coordinate.y, d.color, d.is_mod)),
            None => break,
        }
    }
    assert_eq!(
        seen,
        vec![
            (10, 1, 1, PixelColor::RedOrange, false),
            (11, 2, 3, PixelColor::Black, true),
            (11, 3, 3, PixelColor::Black, true),
            (11, 2, 4, PixelColor::Black, true),
            (11, 3, 4, PixelColor::Black, true),
            (12, 0, 0, PixelColor::White, false),
        ]
    );
    assert_eq!(it.next(), None);
}

#[test]
fn iterator_stops_at_unknown_color() {
    let rows = vec![
        columns(10, 0xff4500, 1, 1, i16::MIN, i16::MIN),
        columns(11, 0x123456, 2, 3, i16::MIN, i16::MIN),
    ];
    let mut it = RPlaceDataIterator::new(RPlaceParquetDataIterator::new(rows));
    assert!(it.next().is_some());
    assert_eq!(it.next(), None);
    let mut rows_only = RPlaceParquetDataIterator::new(vec![columns(1, 2, 3, 4, 5, 6)]);
    assert_eq!(rows_only.next().unwrap().x2, 5);
    assert_eq!(rows_only.next(), None);
}

#[test]
fn days_and_steps() {
    assert_eq!(adjust_timestamp_to_day(0), Some(DAY_1_START_TIMESTAMP - 1));
    assert_eq!(adjust_timestamp_to_day(1), Some(1648817050315000000));
    assert_eq!(adjust_timestamp_to_day(2), Some(DAY_2_START_TIMESTAMP));
    assert_eq!(adjust_timestamp_to_day(3), Some(DAY_3_START_TIMESTAMP));
    assert_eq!(adjust_timestamp_to_day(4), Some(MAX_TIMESTAMP));
    assert_eq!(adjust_timestamp_to_day(5), None);
    assert_eq!(longer_step(1_000_000_000_000), 10_000_000_000_000);
    assert_eq!(longer_step(100_000_000_000_000), 100_000_000_000_000);
    assert_eq!(longer_step(1), 10);
    assert_eq!(shorter_step(1_000_000_000_000), 100_000_000_000);
    assert_eq!(shorter_step(1), 1);
    assert_eq!(shorter_step(5), 0);
}

fn small_canvas_bytes() -> Vec<u8> {
    let e = |timestamp, x, y, color| RPlaceDatapoint {
        timestamp,
        user_id: 1,
        color,
        coordinate: RPlaceCoordinate { x, y },
        is_mod: false,
    };
    write_data(
        &vec![
            e(100, 0, 0, PixelColor::RedOrange),
            e(200, 1, 0, PixelColor::White),
            e(300, 1, 1, PixelColor::Blue),
        ],
        2,
    )
    .unwrap()
}

#[test]
fn steps_stop_at_the_ends() {
    let bytes = small_canvas_bytes();
    let mut canvas = Canvas::new_with_dataset(SerializedDataset::new(&bytes).unwrap());
    assert_eq!(canvas.timestamp, 99);
    assert_eq!(canvas.shifted_timestamp(0), 99);
    assert_eq!(canvas.shifted_timestamp(51), 150);
    assert_eq!(canvas.shifted_timestamp(-1), 99);
    assert_eq!(canvas.shifted_timestamp(i64::MIN), 99);
    assert_eq!(canvas.shifted_timestamp(i64::MAX), 300);
    assert_eq!(canvas.shifted_timestamp(201), 300);
    canvas.adjust_timestamp(250, 0, 2, 0, 2);
    assert_eq!(canvas.shifted_timestamp(-100), 150);
    assert_eq!(canvas.shifted_timestamp(-200), 99);
    assert_eq!(canvas.shifted_timestamp(50), 300);
}

#[test]
fn image_of_canvas() {
    let bytes = small_canvas_bytes();
    let mut canvas = Canvas::new_with_dataset(SerializedDataset::new(&bytes).unwrap());
    canvas.adjust_timestamp(250, 0, 2, 0, 2);
    assert_eq!(
        canvas.get_image(0, 2, 0, 2),
        vec![0xff, 0x45, 0x00, 0xff, 0xff, 0xff, 0, 0, 0, 0, 0, 0]
    );
    assert_eq!(canvas.get_image(1, 2, 0, 2), vec![0xff, 0xff, 0xff, 0, 0, 0]);
    assert_eq!(canvas.get_image(0, 2, 1, 1), Vec::<u8>::new());
    canvas.adjust_timestamp(300, 0, 2, 0, 2);
    assert_eq!(canvas.get_image(1, 2, 1, 2), vec![0x36, 0x90, 0xea]);
}

#[test]
fn game_display_of_canvas() {
    let bytes = small_canvas_bytes();
    let mut canvas = Canvas::new_with_dataset(SerializedDataset::new(&bytes).unwrap());
    canvas.adjust_timestamp(300, 0, 2, 0, 2);
    let d = GameDisplay::of_canvas(&canvas, 0, 0, 2, 2);
    assert_eq!(d.timestamp, 300);
    assert_eq!(d.top_left, (0, 0));
    assert_eq!((d.width, d.height), (2, 2));
    assert_eq!(d.data, vec![2, 31, 27, 13]);
    let d = GameDisplay::of_canvas(&canvas, 1, 0, 1, 2);
    assert_eq!(d.data, vec![31, 13]);
    assert_eq!(GameDisplay::of_canvas(&canvas, 0, 0, 0, 2).data, Vec::<u8>::new());
}

#[test]
fn selection_bounds() {
    let region = SelectionRegion {
        canvas_start: RPlaceCoordinate { x: 7, y: 2 },
        canvas_stop: RPlaceCoordinate { x: 3, y: 9 },
    };
    assert_eq!(region.bounds(), (3, 8, 2, 10));
    let point = SelectionRegion {
        canvas_start: RPlaceCoordinate { x: 4, y: 4 },
        canvas_stop: RPlaceCoordinate { x: 4, y: 4 },
    };
    assert_eq!(point.bounds(), (4, 5, 4, 5));
}
