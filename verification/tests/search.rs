use rplace::dataset::{RPlaceDataset, RPlaceDatasetDatapoint};
use rplace::pixel::PixelColor;
use rplace::search::{least_greater, search};

#[test]
fn search_finds_last_equal_or_first_greater() {
    let vector: Vec<u64> = [2, 3, 3, 5, 5, 5, 6, 6].to_vec();
    assert_eq!(search(&0, &vector), Err(0));
    assert_eq!(search(&1, &vector), Err(0));
    assert_eq!(search(&2, &vector), Ok(0));
    assert_eq!(search(&3, &vector), Ok(2));
    assert_eq!(search(&4, &vector), Err(3));
    assert_eq!(search(&5, &vector), Ok(5));
    assert_eq!(search(&6, &vector), Ok(7));
    assert_eq!(search(&7, &vector), Err(8));
    assert_eq!(search(&9, &vector), Err(8));
}

#[test]
fn search_in_empty_and_single() {
    let empty: Vec<u64> = Vec::new();
    assert_eq!(search(&5, &empty), Err(0));
    let one: Vec<u64> = vec![5];
    assert_eq!(search(&4, &one), Err(0));
    assert_eq!(search(&5, &one), Ok(0));
    assert_eq!(search(&6, &one), Err(1));
}

#[test]
fn search_other_types() {
    let letters: Vec<char> = vec!['a', 'c', 'c', 'x'];
    assert_eq!(search(&'c', &letters), Ok(2));
    assert_eq!(search(&'d', &letters), Err(3));
    let signed: Vec<i32> = vec![-7, -7, 0, 4];
    assert_eq!(search(&-7, &signed), Ok(1));
    assert_eq!(search(&-8, &signed), Err(0));
}

#[test]
fn least_greater_within_bounds() {
    let vector: Vec<u64> = vec![1, 4, 4, 9, 12, 12, 20];
    let element = |i: usize| -> u64 { vector[i] };
    assert_eq!(least_greater(&4, 0, 6, element), Ok(2));
    assert_eq!(least_greater(&4, 2, 6, element), Ok(2));
    assert_eq!(least_greater(&4, 3, 6, element), Err(3));
    assert_eq!(least_greater(&12, 3, 4, element), Ok(4));
    assert_eq!(least_greater(&10, 0, 6, element), Err(4));
    assert_eq!(least_greater(&100, 0, 6, element), Err(7));
    assert_eq!(least_greater(&0, 0, 6, element), Err(0));
    // no position at all
    assert_eq!(least_greater(&4, 3, 2, element), Err(3));
}

fn stored(timestamp: u64) -> RPlaceDatasetDatapoint {
    RPlaceDatasetDatapoint { timestamp, user_id: 1, color: PixelColor::Red, is_mod: false }
}

#[test]
fn dataset_starts_with_one_edit_per_cell() {
    let dataset = RPlaceDataset::new_with_initial_datapoint(3);
    assert_eq!(dataset.data.len(), 3);
    for row in dataset.data.iter() {
        assert_eq!(row.len(), 3);
        for history in row.iter() {
            assert_eq!(history.len(), 1);
            assert_eq!(history[0], RPlaceDatasetDatapoint::start());
        }
    }
    assert_eq!(RPlaceDataset::new_with_initial_datapoint(0).data.len(), 0);
}

#[test]
fn dataset_add_and_search() {
    let mut dataset = RPlaceDataset::new_with_initial_datapoint(2);
    for t in [5u64, 8, 8, 13] {
        dataset.add(stored(t), 1, 0);
    }
    assert_eq!(dataset.data[0][1].len(), 5);
    assert_eq!(dataset.data[0][0].len(), 1);
    assert_eq!(dataset.data[1][1].len(), 1);
    assert_eq!(dataset.data[0][1][4], stored(13));
    // timestamps 0, 5, 8, 8, 13
    assert_eq!(dataset.search(0, 1, 0, 0, 5), 0);
    assert_eq!(dataset.search(4, 1, 0, 0, 5), 0);
    assert_eq!(dataset.search(5, 1, 0, 0, 5), 1);
    assert_eq!(dataset.search(8, 1, 0, 0, 5), 3);
    assert_eq!(dataset.search(12, 1, 0, 0, 5), 3);
    assert_eq!(dataset.search(13, 1, 0, 0, 5), 4);
    assert_eq!(dataset.search(99, 1, 0, 0, 5), 4);
    // positions are those in the history, wherever the search starts
    assert_eq!(dataset.search(8, 1, 0, 2, 5), 3);
    assert_eq!(dataset.search(99, 1, 0, 2, 4), 3);
    assert_eq!(dataset.search(6, 1, 0, 2, 5), 2);
}

#[test]
fn dataset_search_in_window_after_the_start() {
    let mut dataset = RPlaceDataset::new_with_initial_datapoint(1);
    for t in [10u64, 20, 30] {
        dataset.add(stored(t), 0, 0);
    }
    // timestamps 0, 10, 20, 30
    assert_eq!(dataset.search(25, 0, 0, 2, 4), 2);
    assert_eq!(dataset.search(30, 0, 0, 2, 4), 3);
    assert_eq!(dataset.search(25, 0, 0, 0, 4), 2);
    // a window of one edit gives that edit
    assert_eq!(dataset.search(5, 0, 0, 3, 4), 3);
    assert_eq!(dataset.search(99, 0, 0, 1, 2), 1);
}
