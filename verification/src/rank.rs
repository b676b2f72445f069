//! Which of many timestamps is the k-th smallest: the arithmetic behind the
//! queries for the k-th next and the k-th previous change.
//!
//! The timestamps come in lanes, one lane for each cell, and each lane is in
//! ascending order. The k-th smallest of all of them can be found without
//! looking at all of them: a lane matters only with its first k, and a moment
//! is the k-th smallest exactly when fewer than k timestamps lie before it and
//! at least k at or before it.

use vstd::prelude::*;
use vstd::seq_lib::*;

verus! {

/// How many of `s` are at most `t`.
pub open spec fn count_le(s: Seq<u64>, t: int) -> nat
    decreases s.len(),
{
    if s.len() == 0 {
        0
    } else {
        count_le(s.drop_last(), t) + if s.last() <= t {
            1nat
        } else {
            0nat
        }
    }
}

/// Whether `s` is in ascending order.
pub open spec fn ascending(s: Seq<u64>) -> bool {
    forall|i: int, j: int| 0 <= i <= j < s.len() ==> s[i] <= s[j]
}

/// The order of timestamps.
pub open spec fn leq() -> spec_fn(u64, u64) -> bool {
    |a: u64, b: u64| a <= b
}

/// `s` in ascending order.
pub open spec fn sorted(s: Seq<u64>) -> Seq<u64> {
    s.sort_by(leq())
}

/// The `k`-th smallest of `s`, counted from 1.
pub open spec fn nth_smallest(s: Seq<u64>, k: int) -> u64 {
    sorted(s)[k - 1]
}

/// The `k`-th largest of `s`, counted from 1.
pub open spec fn nth_largest(s: Seq<u64>, k: int) -> u64 {
    sorted(s)[s.len() - k]
}

/// Whether fewer than `k` of `s` lie before `v` and at least `k` at or
/// before it.
pub open spec fn is_nth(s: Seq<u64>, k: int, v: u64) -> bool {
    count_le(s, v - 1) < k <= count_le(s, v as int)
}

/// The smaller of a bound and a count.
pub open spec fn capped(n: int, c: int) -> int {
    if c < n {
        c
    } else {
        n
    }
}

/// Whether `a` and `b` cannot be told apart by counting up to `n`: for every
/// moment, as many of `a` as of `b` are at or before it, or at least `n` of
/// both.
pub open spec fn same_up_to(n: int, a: Seq<u64>, b: Seq<u64>) -> bool {
    forall|t: int|
        #![trigger count_le(a, t)]
        #![trigger count_le(b, t)]
        capped(n, count_le(a, t) as int) == capped(n, count_le(b, t) as int)
}

/// The lanes one after the other.
pub open spec fn flat(lanes: Seq<Seq<u64>>) -> Seq<u64>
    decreases lanes.len(),
{
    if lanes.len() == 0 {
        Seq::empty()
    } else {
        flat(lanes.drop_last()) + lanes.last()
    }
}

/// A count is at most the length; everything is at or before the largest
/// `u64`, and nothing before 0.
pub proof fn lemma_count_bounds(s: Seq<u64>, t: int)
    ensures
        count_le(s, t) <= s.len(),
        t >= u64::MAX ==> count_le(s, t) == s.len(),
        t < 0 ==> count_le(s, t) == 0,
    decreases s.len(),
{
    if s.len() > 0 {
        lemma_count_bounds(s.drop_last(), t);
    }
}

/// A later moment has at least as many at or before it.
pub proof fn lemma_count_monotone(s: Seq<u64>, t1: int, t2: int)
    requires
        t1 <= t2,
    ensures
        count_le(s, t1) <= count_le(s, t2),
    decreases s.len(),
{
    if s.len() > 0 {
        lemma_count_monotone(s.drop_last(), t1, t2);
    }
}

/// Counting in two sequences put together is counting in each.
pub proof fn lemma_count_add(a: Seq<u64>, b: Seq<u64>, t: int)
    ensures
        count_le(a + b, t) == count_le(a, t) + count_le(b, t),
    decreases b.len(),
{
    if b.len() == 0 {
        assert(a + b == a);
    } else {
        assert((a + b).drop_last() == a + b.drop_last());
        lemma_count_add(a, b.drop_last(), t);
    }
}

/// Counting after one more was put at the end.
pub proof fn lemma_count_push(s: Seq<u64>, x: u64, t: int)
    ensures
        count_le(s.push(x), t) == count_le(s, t) + if x <= t {
            1nat
        } else {
            0nat
        },
{
    assert(s.push(x).drop_last() == s);
}

/// In ascending order, those at or before a moment are the first ones: as
/// many as are counted.
pub proof fn lemma_count_ascending(s: Seq<u64>, t: int)
    requires
        ascending(s),
    ensures
        forall|i: int| 0 <= i < s.len() ==> (#[trigger] s[i] <= t <==> i < count_le(s, t)),
    decreases s.len(),
{
    if s.len() > 0 {
        let front = s.drop_last();
        assert(ascending(front)) by {
            assert forall|i: int, j: int|
                0 <= i <= j < front.len() implies front[i] <= front[j] by {
                assert(front[i] == s[i] && front[j] == s[j]);
            }
        }
        lemma_count_ascending(front, t);
        lemma_count_bounds(front, t);
        assert forall|i: int|
            0 <= i < s.len() implies (#[trigger] s[i] <= t <==> i < count_le(s, t)) by {
            if i < front.len() {
                assert(front[i] == s[i]);
                if s.last() <= t {
                    assert(s[i] <= s[s.len() - 1]);
                }
            } else {
                if !(s.last() <= t) {
                } else {
                    if front.len() > 0 {
                        assert(front[front.len() - 1] == s[s.len() - 2]);
                        assert(s[s.len() - 2] <= s[s.len() - 1]);
                        assert(forall|j: int| 0 <= j < front.len() ==> front[j] == s[j]);
                        assert forall|j: int|
                            0 <= j < front.len() implies #[trigger] front[j] <= t by {
                            assert(s[j] <= s[s.len() - 1]);
                        }
                        assert(front[front.len() - 1] <= t);
                    }
                }
            }
        }
    }
}

/// Of a sequence in ascending order, the first `m` hold as many at or before
/// a moment as the whole, or all `m` of them.
pub proof fn lemma_count_take(s: Seq<u64>, m: int, t: int)
    requires
        ascending(s),
        0 <= m <= s.len(),
    ensures
        count_le(s.take(m), t) == capped(m, count_le(s, t) as int),
        ascending(s.take(m)),
{
    let part = s.take(m);
    assert(ascending(part)) by {
        assert forall|i: int, j: int| 0 <= i <= j < part.len() implies part[i] <= part[j] by {
            assert(part[i] == s[i] && part[j] == s[j]);
        }
    }
    lemma_count_ascending(s, t);
    lemma_count_ascending(part, t);
    lemma_count_bounds(s, t);
    lemma_count_bounds(part, t);
    let c = count_le(s, t) as int;
    let d = count_le(part, t) as int;
    if d < capped(m, c) {
        assert(part[d] == s[d]);
        assert(s[d] <= t);
    }
    if d > capped(m, c) {
        assert(part[d - 1] == s[d - 1]);
        assert(part[d - 1] <= t);
    }
}

/// Counting does not change when one of the sequence is taken out and
/// counted by itself.
pub proof fn lemma_count_remove(s: Seq<u64>, i: int, t: int)
    requires
        0 <= i < s.len(),
    ensures
        count_le(s, t) == count_le(s.remove(i), t) + if s[i] <= t {
            1nat
        } else {
            0nat
        },
{
    let a = s.subrange(0, i);
    let b = s.subrange(i + 1, s.len() as int);
    assert(s == a.push(s[i]) + b);
    assert(s.remove(i) == a + b);
    lemma_count_add(a.push(s[i]), b, t);
    lemma_count_add(a, b, t);
    lemma_count_push(a, s[i], t);
}

/// Counting does not depend on the order.
pub proof fn lemma_count_permutation(a: Seq<u64>, b: Seq<u64>, t: int)
    requires
        a.to_multiset() == b.to_multiset(),
    ensures
        count_le(a, t) == count_le(b, t),
        a.len() == b.len(),
    decreases a.len(),
{
    broadcast use vstd::multiset::group_multiset_axioms;

    a.to_multiset_ensures();
    b.to_multiset_ensures();
    if a.len() == 0 {
    } else {
        let x = a.last();
        let front = a.drop_last();
        front.to_multiset_ensures();
        assert(a == front.push(x));
        assert(a.to_multiset() =~= front.to_multiset().insert(x));
        assert(b.to_multiset().count(x) > 0);
        assert(b.contains(x));
        let i = choose|i: int| 0 <= i < b.len() && b[i] == x;
        let rest = b.remove(i);
        assert(rest.to_multiset() =~= b.to_multiset().remove(x));
        assert(rest.to_multiset() =~= front.to_multiset());
        lemma_count_permutation(front, rest, t);
        lemma_count_remove(b, i, t);
    }
}

/// The order of timestamps is a total order, and sorting by it gives the same
/// timestamps in ascending order.
pub proof fn lemma_sorted(s: Seq<u64>)
    ensures
        ascending(sorted(s)),
        sorted(s).to_multiset() == s.to_multiset(),
        sorted(s).len() == s.len(),
        forall|t: int| #[trigger] count_le(sorted(s), t) == count_le(s, t),
{
    assert(vstd::relations::total_ordering(leq()));
    s.lemma_sort_by_ensures(leq());
    let p = sorted(s);
    assert(ascending(p)) by {
        assert forall|i: int, j: int| 0 <= i <= j < p.len() implies p[i] <= p[j] by {
            if i < j {
                assert(leq()(p[i], p[j]));
            }
        }
    }
    assert forall|t: int| #[trigger] count_le(sorted(s), t) == count_le(s, t) by {
        lemma_count_permutation(p, s, t);
    }
    lemma_count_permutation(p, s, 0);
}

/// At most one moment is the `k`-th.
pub proof fn lemma_nth_unique(s: Seq<u64>, k: int, v: u64, w: u64)
    requires
        is_nth(s, k, v),
        is_nth(s, k, w),
    ensures
        v == w,
{
    if v < w {
        lemma_count_monotone(s, v as int, w - 1);
    }
    if w < v {
        lemma_count_monotone(s, w as int, v - 1);
    }
}

/// In ascending order, the one at position `k - 1` is the `k`-th.
pub proof fn lemma_nth_ascending(s: Seq<u64>, k: int)
    requires
        ascending(s),
        1 <= k <= s.len(),
    ensures
        is_nth(s, k, s[k - 1]),
{
    let v = s[k - 1];
    lemma_count_ascending(s, v as int);
    lemma_count_ascending(s, v - 1);
    lemma_count_bounds(s, v as int);
    lemma_count_bounds(s, v - 1);
    let c = count_le(s, v - 1) as int;
    if c >= k {
        assert(s[k - 1] <= v - 1);
    }
}

/// The moment that is the `k`-th by counting is the `k`-th smallest, and
/// there is one for every `k` from 1 to the number of timestamps.
pub proof fn lemma_nth(s: Seq<u64>, k: int, v: u64)
    ensures
        is_nth(s, k, v) <==> 1 <= k <= s.len() && v == nth_smallest(s, k),
{
    lemma_sorted(s);
    let p = sorted(s);
    lemma_count_bounds(s, v as int);
    lemma_count_bounds(s, v - 1);
    if 1 <= k <= s.len() {
        lemma_nth_ascending(p, k);
        assert(count_le(p, p[k - 1] as int) == count_le(s, p[k - 1] as int));
        assert(count_le(p, p[k - 1] - 1) == count_le(s, p[k - 1] - 1));
        assert(is_nth(s, k, p[k - 1]));
        if is_nth(s, k, v) {
            lemma_nth_unique(s, k, v, p[k - 1]);
        }
    }
}

/// Where two sequences cannot be told apart by counting up to `n`, they
/// have the same `k`-th for every `k` up to `n`, and as many timestamps, or
/// at least `n` both.
pub proof fn lemma_same_up_to_nth(n: int, a: Seq<u64>, b: Seq<u64>, k: int, v: u64)
    requires
        same_up_to(n, a, b),
        k <= n,
    ensures
        is_nth(a, k, v) <==> is_nth(b, k, v),
        capped(n, a.len() as int) == capped(n, b.len() as int),
{
    assert(capped(n, count_le(a, v as int) as int) == capped(n, count_le(b, v as int) as int));
    assert(capped(n, count_le(a, v - 1) as int) == capped(n, count_le(b, v - 1) as int));
    lemma_count_bounds(a, u64::MAX as int);
    lemma_count_bounds(b, u64::MAX as int);
    assert(capped(n, count_le(a, u64::MAX as int) as int) == capped(
        n,
        count_le(b, u64::MAX as int) as int,
    ));
}

/// Putting together what cannot be told apart gives what cannot be told
/// apart.
pub proof fn lemma_same_up_to_add(n: int, a: Seq<u64>, b: Seq<u64>, c: Seq<u64>, d: Seq<u64>)
    requires
        same_up_to(n, a, b),
        same_up_to(n, c, d),
    ensures
        same_up_to(n, a + c, b + d),
{
    assert forall|t: int|
        #![trigger count_le(a + c, t)]
        #![trigger count_le(b + d, t)]
        capped(n, count_le(a + c, t) as int) == capped(n, count_le(b + d, t) as int) by {
        lemma_count_add(a, c, t);
        lemma_count_add(b, d, t);
        assert(capped(n, count_le(a, t) as int) == capped(n, count_le(b, t) as int));
        assert(capped(n, count_le(c, t) as int) == capped(n, count_le(d, t) as int));
    }
}

/// A lane in ascending order cannot be told apart, up to `n`, from its
/// first `n`.
pub proof fn lemma_same_up_to_take(n: int, s: Seq<u64>, m: int)
    requires
        ascending(s),
        0 <= n,
        m == capped(n, s.len() as int),
    ensures
        same_up_to(n, s.take(m), s),
{
    assert forall|t: int|
        #![trigger count_le(s.take(m), t)]
        #![trigger count_le(s, t)]
        capped(n, count_le(s.take(m), t) as int) == capped(n, count_le(s, t) as int) by {
        lemma_count_take(s, m, t);
        lemma_count_bounds(s, t);
    }
}

/// Sorting, and then keeping the first `n`, gives what cannot be told apart
/// up to `n` from what was there.
pub proof fn lemma_same_up_to_sorted_take(n: int, s: Seq<u64>, p: Seq<u64>, m: int)
    requires
        ascending(p),
        p.to_multiset() == s.to_multiset(),
        0 <= n,
        m == capped(n, p.len() as int),
    ensures
        same_up_to(n, p.take(m), s),
{
    lemma_same_up_to_take(n, p, m);
    assert forall|t: int|
        #![trigger count_le(p.take(m), t)]
        #![trigger count_le(s, t)]
        capped(n, count_le(p.take(m), t) as int) == capped(n, count_le(s, t) as int) by {
        lemma_count_permutation(p, s, t);
        assert(capped(n, count_le(p.take(m), t) as int) == capped(n, count_le(p, t) as int));
    }
}

/// Whether every lane is in ascending order.
pub open spec fn all_ascending(lanes: Seq<Seq<u64>>) -> bool {
    forall|c: int| 0 <= c < lanes.len() ==> ascending(#[trigger] lanes[c])
}

/// Of every lane its first `n`.
pub open spec fn first_of_each(n: int, lanes: Seq<Seq<u64>>) -> Seq<Seq<u64>> {
    Seq::new(lanes.len(), |c: int| lanes[c].take(capped(n, lanes[c].len() as int)))
}

/// The lanes up to lane `c`, one after the other, and then lane `c`.
pub proof fn lemma_flat_take(lanes: Seq<Seq<u64>>, c: int)
    requires
        0 <= c < lanes.len(),
    ensures
        flat(lanes.take(c + 1)) == flat(lanes.take(c)) + lanes[c],
        flat(lanes.take(0)) == Seq::<u64>::empty(),
        flat(lanes.take(lanes.len() as int)) == flat(lanes),
{
    assert(lanes.take(c + 1).drop_last() == lanes.take(c));
    assert(lanes.take(lanes.len() as int) == lanes);
}

/// A lane matters only with its first `n`: the first `n` of every lane, put
/// together, cannot be told apart up to `n` from all lanes put together.
pub proof fn lemma_first_n_suffice(n: int, lanes: Seq<Seq<u64>>)
    requires
        0 <= n,
        all_ascending(lanes),
    ensures
        same_up_to(n, flat(first_of_each(n, lanes)), flat(lanes)),
    decreases lanes.len(),
{
    let firsts = first_of_each(n, lanes);
    if lanes.len() == 0 {
        assert(flat(firsts) == flat(lanes));
    } else {
        let front = lanes.drop_last();
        assert(first_of_each(n, front) == firsts.drop_last());
        assert(all_ascending(front)) by {
            assert forall|c: int| 0 <= c < front.len() implies ascending(#[trigger] front[c]) by {
                assert(front[c] == lanes[c]);
            }
        }
        lemma_first_n_suffice(n, front);
        let last = lanes.last();
        assert(ascending(lanes[lanes.len() - 1]));
        lemma_same_up_to_take(n, last, capped(n, last.len() as int));
        lemma_same_up_to_add(n, flat(firsts.drop_last()), flat(front), firsts.last(), last);
    }
}

/// A lane read backwards from the largest `u64`: the distance of its last
/// timestamp first, of its first timestamp last.
pub open spec fn mirror(s: Seq<u64>) -> Seq<u64> {
    Seq::new(s.len(), |j: int| (u64::MAX - s[s.len() - 1 - j]) as u64)
}

/// Every lane read backwards.
pub open spec fn mirror_each(lanes: Seq<Seq<u64>>) -> Seq<Seq<u64>> {
    Seq::new(lanes.len(), |c: int| mirror(lanes[c]))
}

/// A lane in ascending order, read backwards, is in ascending order.
pub proof fn lemma_mirror_ascending(s: Seq<u64>)
    requires
        ascending(s),
    ensures
        ascending(mirror(s)),
        mirror(s).len() == s.len(),
{
    let m = mirror(s);
    assert forall|i: int, j: int| 0 <= i <= j < m.len() implies m[i] <= m[j] by {
        assert(s[s.len() - 1 - j] <= s[s.len() - 1 - i]);
    }
}

/// As many distances are at most that of `w` as timestamps are at least `w`.
pub proof fn lemma_mirror_count(s: Seq<u64>, w: int)
    ensures
        count_le(mirror(s), u64::MAX - w) == s.len() - count_le(s, w - 1),
    decreases s.len(),
{
    if s.len() == 0 {
    } else {
        let front = s.drop_last();
        let head = seq![(u64::MAX - s.last()) as u64];
        assert(mirror(s) == head + mirror(front));
        lemma_count_add(head, mirror(front), u64::MAX - w);
        lemma_mirror_count(front, w);
        assert(head == Seq::<u64>::empty().push((u64::MAX - s.last()) as u64));
        lemma_count_push(Seq::<u64>::empty(), (u64::MAX - s.last()) as u64, u64::MAX - w);
    }
}

/// The same for lanes put together.
pub proof fn lemma_mirror_flat_count(lanes: Seq<Seq<u64>>, w: int)
    ensures
        count_le(flat(mirror_each(lanes)), u64::MAX - w) == flat(lanes).len() - count_le(
            flat(lanes),
            w - 1,
        ),
        flat(mirror_each(lanes)).len() == flat(lanes).len(),
    decreases lanes.len(),
{
    if lanes.len() == 0 {
    } else {
        let front = lanes.drop_last();
        assert(mirror_each(lanes).drop_last() == mirror_each(front));
        lemma_mirror_flat_count(front, w);
        lemma_mirror_count(lanes.last(), w);
        lemma_count_add(flat(mirror_each(front)), mirror(lanes.last()), u64::MAX - w);
        lemma_count_add(flat(front), lanes.last(), w - 1);
    }
}

/// The `k`-th smallest distance is that of the `k`-th largest timestamp.
pub proof fn lemma_mirror_nth(lanes: Seq<Seq<u64>>, k: int, key: u64)
    requires
        is_nth(flat(mirror_each(lanes)), k, key),
    ensures
        1 <= k <= flat(lanes).len(),
        (u64::MAX - key) as u64 == nth_largest(flat(lanes), k),
{
    let all = flat(lanes);
    let v = (u64::MAX - key) as u64;
    lemma_mirror_flat_count(lanes, v as int);
    lemma_mirror_flat_count(lanes, v + 1);
    lemma_count_bounds(all, v as int);
    lemma_count_bounds(all, v - 1);
    assert(is_nth(all, all.len() - k + 1, v));
    lemma_nth(all, all.len() - k + 1, v);
}

/// The answer to "which is the `n`-th smallest of all lanes": none where `n`
/// is 0 or the lanes are empty; the last of all where there are fewer than
/// `n`.
pub open spec fn answer(lanes: Seq<Seq<u64>>, n: int) -> Option<u64> {
    let all = flat(lanes);
    if n <= 0 || all.len() == 0 {
        None
    } else {
        Some(nth_smallest(all, capped(n, all.len() as int)))
    }
}

/// The answer as the strategy of bounded candidates finds it: the first `n`
/// of every lane are gathered, and of those the `n`-th smallest is taken.
pub open spec fn answer_by_candidates(lanes: Seq<Seq<u64>>, n: int) -> Option<u64> {
    let pool = flat(first_of_each(n, lanes));
    if n <= 0 || pool.len() == 0 {
        None
    } else {
        Some(nth_smallest(pool, capped(n, pool.len() as int)))
    }
}

/// Whether `v` is the first moment at or before which the lanes, each
/// counted up to `n`, hold at least `k`.
pub open spec fn reaches_first(lanes: Seq<Seq<u64>>, n: int, k: int, v: u64) -> bool {
    let pool = flat(first_of_each(n, lanes));
    count_le(pool, v - 1) < k <= count_le(pool, v as int)
}

/// The answer as the strategy of selection by counting finds it: the first
/// moment at which the count reaches `n`, or the number of candidates where
/// they are fewer.
pub open spec fn answer_by_counting(lanes: Seq<Seq<u64>>, n: int) -> Option<u64> {
    let pool = flat(first_of_each(n, lanes));
    if n <= 0 || pool.len() == 0 {
        None
    } else {
        Some(choose|v: u64| reaches_first(lanes, n, capped(n, pool.len() as int), v))
    }
}

/// What a strategy has to show of a moment for it to be the answer: it has
/// a pool of candidates that cannot be told apart from all lanes by counting
/// up to `n`, and the moment is the `k`-th of the pool, `k` being `n` or the
/// size of the pool where that is less.
pub proof fn lemma_answer(lanes: Seq<Seq<u64>>, n: int, pool: Seq<u64>, key: u64)
    requires
        1 <= n,
        same_up_to(n, pool, flat(lanes)),
        is_nth(pool, capped(n, pool.len() as int), key),
    ensures
        answer(lanes, n) == Some(key),
{
    let all = flat(lanes);
    let k = capped(n, pool.len() as int);
    lemma_same_up_to_nth(n, pool, all, k, key);
    lemma_nth(pool, k, key);
    lemma_nth(all, k, key);
}

/// Where the pool of a strategy is empty, there is no answer.
pub proof fn lemma_no_answer(lanes: Seq<Seq<u64>>, n: int, pool: Seq<u64>)
    requires
        1 <= n,
        same_up_to(n, pool, flat(lanes)),
        pool.len() == 0,
    ensures
        answer(lanes, n) == None::<u64>,
{
    lemma_same_up_to_nth(n, pool, flat(lanes), 0, 0);
}

/// The two strategies agree, and what they find is the `n`-th smallest of
/// all lanes.
pub proof fn lemma_strategies_agree(lanes: Seq<Seq<u64>>, n: int)
    requires
        all_ascending(lanes),
    ensures
        answer_by_candidates(lanes, n) == answer(lanes, n),
        answer_by_counting(lanes, n) == answer(lanes, n),
        answer_by_candidates(lanes, n) == answer_by_counting(lanes, n),
{
    if n >= 1 {
        let pool = flat(first_of_each(n, lanes));
        lemma_first_n_suffice(n, lanes);
        if pool.len() == 0 {
            lemma_no_answer(lanes, n, pool);
        } else {
            let k = capped(n, pool.len() as int);
            let key = nth_smallest(pool, k);
            lemma_nth(pool, k, key);
            lemma_answer(lanes, n, pool, key);
            assert(reaches_first(lanes, n, k, key));
            let found = choose|v: u64| reaches_first(lanes, n, k, v);
            lemma_nth_unique(pool, k, key, found);
        }
    }
}

} // verus!
