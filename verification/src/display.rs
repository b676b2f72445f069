//! The rules by which the view moves in time: how far a step goes, where it
//! stops, and the moments at which the days of the event start.

use crate::canvas::Canvas;
use crate::data::{
    DAY_1_START_TIMESTAMP, DAY_2_START_TIMESTAMP, DAY_3_START_TIMESTAMP, MAX_TIMESTAMP,
};
use vstd::prelude::*;

verus! {

/// The largest length of a step in time.
pub const MAX_TIMESTAMP_DELTA: i64 = 100_000_000_000_000;

/// The length of a step in time when a view is opened.
pub const START_TIMESTAMP_DELTA: i64 = 1_000_000_000_000;

/// A moment that is moved by `delta` and then kept between `low` and
/// `high`: not after `high`, and, what counts more, not before `low`.
pub open spec fn clamped(timestamp: u64, delta: i64, low: int, high: int) -> int {
    let moved = timestamp + delta;
    let capped = if moved > high {
        high
    } else {
        moved
    };
    if capped < low {
        low
    } else {
        capped
    }
}

/// The moment that a key for a day stands for: key 0 the moment before the
/// first edit, the keys 1 to 3 the starts of the three days, key 4 the last
/// edit. Other keys stand for none.
pub open spec fn moment_of_day(day: u32) -> Option<u64> {
    if day == 0 {
        Some((DAY_1_START_TIMESTAMP - 1) as u64)
    } else if day == 1 {
        Some(DAY_1_START_TIMESTAMP)
    } else if day == 2 {
        Some(DAY_2_START_TIMESTAMP)
    } else if day == 3 {
        Some(DAY_3_START_TIMESTAMP)
    } else if day == 4 {
        Some(MAX_TIMESTAMP)
    } else {
        None
    }
}

/// The moment that a key for a day stands for.
pub fn adjust_timestamp_to_day(day: u32) -> (r: Option<u64>)
    ensures
        r == moment_of_day(day),
{
    match day {
        0 => Some(DAY_1_START_TIMESTAMP - 1),
        1 => Some(DAY_1_START_TIMESTAMP),
        2 => Some(DAY_2_START_TIMESTAMP),
        3 => Some(DAY_3_START_TIMESTAMP),
        4 => Some(MAX_TIMESTAMP),
        _ => None,
    }
}

/// The next longer step: ten times as long, as long as the step is shorter
/// than the longest.
pub fn longer_step(delta: i64) -> (r: i64)
    ensures
        r == if delta < MAX_TIMESTAMP_DELTA && -MAX_TIMESTAMP_DELTA < delta {
            delta * 10
        } else {
            delta as int
        },
{
    if delta < MAX_TIMESTAMP_DELTA && delta > -MAX_TIMESTAMP_DELTA {
        delta * 10
    } else {
        delta
    }
}

/// The next shorter step: a tenth as long, as long as the step is longer
/// than 1.
pub fn shorter_step(delta: i64) -> (r: i64)
    ensures
        r == if delta > 1 {
            delta / 10
        } else {
            delta as int
        },
{
    if delta > 1 {
        delta / 10
    } else {
        delta
    }
}

impl<'a> Canvas<'a> {
    /// The moment to which a step of `delta` leads from the moment of the
    /// canvas: it stops at the last edit, and at the moment before the first.
    pub fn shifted_timestamp(&self, delta: i64) -> (r: u64)
        requires
            self.wf(),
        ensures
            r == clamped(
                self.timestamp,
                delta,
                self.min_timestamp - 1,
                self.max_timestamp as int,
            ),
    {
        proof {
            self.dataset.lemma_wf();
        }
        let mut new_timestamp: i128 = self.timestamp as i128 + delta as i128;
        if new_timestamp > self.max_timestamp as i128 {
            new_timestamp = self.max_timestamp as i128;
        }
        if new_timestamp < (self.min_timestamp - 1) as i128 {
            new_timestamp = (self.min_timestamp - 1) as i128;
        }
        new_timestamp as u64
    }
}

} // verus!
