//! Binary search for the place of a value among elements that are given by
//! position.
//!
//! The elements need not be held in memory: they are asked for one at a time
//! through a function from a position to the element there. Relative to the
//! value that is sought they must come in three runs: first those that are
//! less, then those that are equal, then those that are greater. A sorted
//! sequence is of that kind for every value.

use vstd::prelude::*;
use vstd::std_specs::cmp::PartialEqSpec;
use vstd::std_specs::cmp::PartialOrdIs;
use vstd::std_specs::cmp::PartialOrdSpec;

verus! {

/// Whether `<`, `==` and `>` on `T` compute what the contracts say of them.
pub open spec fn obeys_order<T: PartialOrd>() -> bool {
    T::obeys_eq_spec() && T::obeys_partial_cmp_spec()
}

/// The run that an element belongs to, relative to `value`: 0 where it is
/// less, 1 where it is equal, 2 otherwise.
pub open spec fn run_of<T: PartialOrd>(v: T, value: T) -> int {
    if v.is_lt(&value) {
        0
    } else if v.eq_spec(&value) {
        1
    } else {
        2
    }
}

/// Whether `element` can be asked at every position from `start` to `end`,
/// both included, and whatever it gives there can be compared with `value`.
pub open spec fn gives_elements<T: PartialOrd, V: Fn(usize) -> T>(
    element: V,
    value: T,
    start: int,
    end: int,
) -> bool {
    &&& forall|i: usize| start <= i <= end ==> #[trigger] call_requires(element, (i,))
    &&& forall|i: usize, v: T|
        start <= i <= end && #[trigger] call_ensures(element, (i,), v) && run_of(v, value) == 2
            ==> v.is_gt(&value)
}

/// Whether `element` gives, at every position from `start` to `end`, what
/// the sequence `s` holds there.
pub open spec fn reads<T, V: Fn(usize) -> T>(element: V, s: Seq<T>, start: int, end: int) -> bool {
    &&& end < s.len()
    &&& forall|i: usize, v: T|
        start <= i <= end && #[trigger] call_ensures(element, (i,), v) ==> v == s[i as int]
}

/// Whether the elements of `s` from `start` to `end` come in three runs
/// relative to `value`.
pub open spec fn in_runs<T: PartialOrd>(s: Seq<T>, value: T, start: int, end: int) -> bool {
    forall|i: int, j: int|
        start <= i <= j <= end ==> run_of(#[trigger] s[i], value) <= run_of(#[trigger] s[j], value)
}

/// What a search in `s` between `start` and `end` answers: `Ok` with the
/// position of the last element that equals `value`, where there is one;
/// else `Err` with the position of the first element that is greater, or
/// `end + 1` where none is.
pub open spec fn found_at<T: PartialOrd>(
    s: Seq<T>,
    value: T,
    start: int,
    end: int,
    r: Result<i64, i64>,
) -> bool {
    match r {
        Ok(at) => {
            &&& start <= at <= end
            &&& run_of(s[at as int], value) == 1
            &&& forall|i: int| at < i <= end ==> run_of(#[trigger] s[i], value) == 2
        },
        Err(at) => {
            &&& start <= at <= end + 1
            &&& forall|i: int| start <= i < at ==> run_of(#[trigger] s[i], value) == 0
            &&& forall|i: int| at <= i <= end ==> run_of(#[trigger] s[i], value) == 2
        },
    }
}

/// Whether an answer names a position that a search between `start` and
/// `end` can give.
pub open spec fn in_range(start: int, end: int, r: Result<i64, i64>) -> bool {
    match r {
        Ok(at) => start <= at <= end,
        Err(at) => start <= at <= end + 1,
    }
}

/// What the search knows after some probes, of a sequence that `element`
/// reads: up to `low` nothing is greater, from `high` on everything is, and
/// `found` tells whether the element before `low` equals the value.
pub open spec fn narrowed<T: PartialOrd>(
    s: Seq<T>,
    value: T,
    start: int,
    end: int,
    low: int,
    high: int,
    found: bool,
) -> bool {
    &&& forall|i: int| start <= i < low ==> run_of(#[trigger] s[i], value) <= 1
    &&& forall|i: int| high <= i <= end ==> run_of(#[trigger] s[i], value) == 2
    &&& found ==> start < low && run_of(s[low - 1], value) == 1
    &&& !found ==> forall|i: int| start <= i < low ==> run_of(#[trigger] s[i], value) == 0
}

/// The position as an index.
fn index_of(i: i64) -> (r: usize)
    requires
        0 <= i <= usize::MAX,
    ensures
        r == i,
{
    i as usize
}

/// The index as a position.
fn position_of(i: usize) -> (r: i64)
    requires
        i <= i64::MAX,
    ensures
        r == i,
{
    i as i64
}

/// Searches the elements at the positions from `start_idx` to `end_idx`, both
/// included, for `value`. The answer is right for every sequence that
/// `element` reads and that comes in runs relative to `value`.
pub fn least_greater<T, V>(value: &T, start_idx: i64, end_idx: i64, element: V) -> (r: Result<
    i64,
    i64,
>) where V: Fn(usize) -> T, T: PartialOrd + Copy
    requires
        obeys_order::<T>(),
        0 <= start_idx,
        start_idx - 1 <= end_idx < i64::MAX,
        end_idx <= usize::MAX,
        gives_elements(element, *value, start_idx as int, end_idx as int),
    ensures
        in_range(start_idx as int, end_idx as int, r),
        forall|s: Seq<T>|
            #[trigger] reads(element, s, start_idx as int, end_idx as int) && in_runs(
                s,
                *value,
                start_idx as int,
                end_idx as int,
            ) ==> found_at(s, *value, start_idx as int, end_idx as int, r),
{
    let ghost first = start_idx;
    let ghost last = end_idx;
    let mut start_idx = start_idx;
    let mut end_idx = end_idx;
    let mut ret_idx = end_idx + 1;
    let mut found = false;
    while start_idx <= end_idx
        invariant
            obeys_order::<T>(),
            0 <= first <= start_idx <= ret_idx <= last + 1,
            end_idx == ret_idx - 1,
            last < i64::MAX,
            last <= usize::MAX,
            found ==> first < start_idx,
            gives_elements(element, *value, first as int, last as int),
            forall|s: Seq<T>|
                #[trigger] reads(element, s, first as int, last as int) && in_runs(
                    s,
                    *value,
                    first as int,
                    last as int,
                ) ==> narrowed(
                    s,
                    *value,
                    first as int,
                    last as int,
                    start_idx as int,
                    ret_idx as int,
                    found,
                ),
        decreases end_idx - start_idx + 1,
    {
        let mid_idx = start_idx + ((end_idx - start_idx + 1) / 2);
        let at = index_of(mid_idx);
        assert(call_requires(element, (at,)));
        let v = element(at);
        let ghost low = start_idx;
        let ghost high = ret_idx;
        let ghost was = found;
        if v < *value {
            start_idx = mid_idx + 1;
            found = false;
        } else if v == *value {
            start_idx = mid_idx + 1;
            found = true;
        } else {
            ret_idx = mid_idx;
            end_idx = mid_idx - 1;
        }
        proof {
            assert forall|s: Seq<T>|
                #[trigger] reads(element, s, first as int, last as int) && in_runs(
                    s,
                    *value,
                    first as int,
                    last as int,
                ) implies narrowed(
                s,
                *value,
                first as int,
                last as int,
                start_idx as int,
                ret_idx as int,
                found,
            ) by {
                assert(narrowed(s, *value, first as int, last as int, low as int, high as int, was));
                assert(s[mid_idx as int] == v);
            }
        }
    }
    match found {
        true => Ok(ret_idx - 1),
        false => Err(ret_idx),
    }
}

/// Searches a vector for `value`.
pub fn search<T>(value: &T, vector: &Vec<T>) -> (r: Result<i64, i64>) where T: PartialOrd + Copy
    requires
        obeys_order::<T>(),
        vector@.len() <= i64::MAX,
        in_runs(vector@, *value, 0, vector@.len() - 1),
        forall|i: int|
            0 <= i < vector@.len() && run_of(#[trigger] vector@[i], *value) == 2 ==> vector@[i].is_gt(
                value,
            ),
    ensures
        found_at(vector@, *value, 0, vector@.len() - 1, r),
{
    let element = |i: usize| -> (v: T)
        requires
            i < vector@.len(),
        ensures
            v == vector@[i as int],
        { vector[i] };
    let end = position_of(vector.len()) - 1;
    assert(reads(element, vector@, 0, end as int));
    least_greater(value, 0, end, element)
}

/// A sequence of `u64` in ascending order comes in runs relative to every
/// value, and what is not less than or equal to the value is greater.
pub proof fn lemma_sorted_in_runs(s: Seq<u64>, value: u64, start: int, end: int)
    requires
        0 <= start,
        end < s.len(),
        forall|i: int, j: int| start <= i <= j <= end ==> s[i] <= s[j],
    ensures
        obeys_order::<u64>(),
        in_runs(s, value, start, end),
        forall|i: int|
            start <= i <= end ==> (run_of(#[trigger] s[i], value) == 0 <==> s[i] < value),
        forall|i: int|
            start <= i <= end ==> (run_of(#[trigger] s[i], value) == 1 <==> s[i] == value),
        forall|i: int|
            start <= i <= end ==> (run_of(#[trigger] s[i], value) == 2 <==> s[i] > value),
        forall|v: u64| #[trigger] run_of(v, value) == 2 ==> v.is_gt(&value),
{
}

} // verus!
