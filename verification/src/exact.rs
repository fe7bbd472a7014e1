//! What holds where sums are exact: the order of the log does not matter, and the days and
//! the minutes of a window tell the same.
use crate::buckets::{
    count_over, member_test, members, share_out, shares_are_unique, window, window_test, Count,
    MinuteBucket,
};
use crate::calendar::{day_of, day_text};
use crate::clock::{span_start_spec, MIN_MS};
use crate::days::{
    day_lines, day_test, limited_over, line_tokens, minute_test, minute_tokens, requests_over,
    shows_days, summarizes, tokens_per_minute, DaySummary,
};
use crate::num::{is_highest, total, Num};
use crate::snapshot::{peak_is_unique, request_peak_is_unique, shows_window, tokens, Snapshot};
use crate::usage::{
    amount, amounts, is_request, lemma_filter_comes_from, lemma_filter_push, lemma_requests_push,
    lemma_sum_insert, limited, limited_test, request_test, requests, sample, samples, sum_of, Gauge,
    Quantity, RawLine,
};
use vstd::prelude::*;

verus! {

/// A scale on which numbers stand that add up exactly.
pub struct Scale {
    /// Where a number stands, if it stands on the scale.
    pub place: spec_fn(Num) -> Option<int>,
    /// The number that stands at a place.
    pub number: spec_fn(int) -> Num,
    /// How far the scale reaches from zero.
    pub limit: int,
}

impl Scale {
    pub open spec fn reaches(self, i: int) -> bool {
        -self.limit <= i <= self.limit
    }

    /// Whether a number stands on the scale.
    pub open spec fn holds(self, n: Num) -> bool {
        (self.place)(n) is Some
    }

    pub open spec fn at(self, n: Num) -> int {
        (self.place)(n).unwrap()
    }
}

/// Whether numbers on a scale add up exactly, as far as it reaches. Doubles do that which
/// are multiples of one power of two: the scale counts these multiples and reaches to 2^53.
pub open spec fn adds_exactly(add_op: spec_fn(Num, Num) -> Num, scale: Scale) -> bool {
    &&& (scale.number)(0) == Num::zero_spec()
    &&& forall|i: int|
        scale.reaches(i) ==> (scale.place)(#[trigger] (scale.number)(i)) == Some(i)
    &&& forall|i: int, n: Num|
        scale.reaches(i) && scale.holds(n) && scale.reaches(i + scale.at(n)) ==> #[trigger] add_op(
            (scale.number)(i),
            n,
        ) == (scale.number)(i + scale.at(n))
    &&& forall|m: Num, n: Num|
        scale.holds(m) && scale.holds(n) && scale.reaches(scale.at(m) + scale.at(n))
            ==> (scale.place)(#[trigger] add_op(m, n)) == Some(scale.at(m) + scale.at(n))
}

pub open spec fn size(n: int) -> int {
    if n >= 0 {
        n
    } else {
        -n
    }
}

pub open spec fn places(scale: Scale, terms: Seq<Num>) -> Seq<int> {
    terms.map_values(|n: Num| scale.at(n))
}

/// How far from zero the terms stand together.
pub open spec fn spread(scale: Scale, terms: Seq<Num>) -> int {
    sum_of(terms.map_values(|n: Num| size(scale.at(n))))
}

pub open spec fn all_held(scale: Scale, terms: Seq<Num>) -> bool {
    forall|i: int| 0 <= i < terms.len() ==> scale.holds(#[trigger] terms[i])
}

/// Whether what the requests of a window report of a quantity stands on the scale, and sums
/// of it do not reach beyond.
pub open spec fn is_exact(lines: Seq<RawLine>, cutoff: int, q: Quantity, scale: Scale) -> bool {
    let terms = amounts(requests(window(lines, cutoff)), q);
    all_held(scale, terms) && spread(scale, terms) <= scale.limit
}

/// Whether all that the requests of a window report adds up exactly, each quantity on a
/// scale of its own.
pub open spec fn all_exact(
    lines: Seq<RawLine>,
    cutoff: int,
    add_op: spec_fn(Num, Num) -> Num,
    scales: spec_fn(Quantity) -> Scale,
) -> bool {
    forall|q: Quantity|
        #[trigger] is_exact(lines, cutoff, q, scales(q)) && adds_exactly(add_op, scales(q))
}

/// Terms on a scale add up to the number that stands where their places add up to.
pub proof fn sum_is_exact(add_op: spec_fn(Num, Num) -> Num, scale: Scale, terms: Seq<Num>)
    requires
        adds_exactly(add_op, scale),
        all_held(scale, terms),
        spread(scale, terms) <= scale.limit,
    ensures
        total(add_op, terms) == (scale.number)(sum_of(places(scale, terms))),
        size(sum_of(places(scale, terms))) <= spread(scale, terms),
    decreases terms.len(),
{
    if terms.len() > 0 {
        let fewer = terms.drop_last();
        let sizes = terms.map_values(|n: Num| size(scale.at(n)));
        assert(fewer.map_values(|n: Num| size(scale.at(n))) =~= sizes.drop_last());
        assert(places(scale, fewer) =~= places(scale, terms).drop_last());
        assert forall|i: int| 0 <= i < fewer.len() implies scale.holds(#[trigger] fewer[i]) by {
            assert(fewer[i] == terms[i]);
        }
        assert(sizes.last() == size(scale.at(terms.last())));
        assert(places(scale, terms).last() == scale.at(terms.last()));
        assert(scale.holds(terms[terms.len() - 1]));
        sum_is_exact(add_op, scale, fewer);
    }
}

// ---------------------------------------------------------------- the same lines

/// Sums do not depend on the order.
proof fn lemma_sum_of_same<T>(a: Seq<T>, b: Seq<T>, f: spec_fn(T) -> int)
    requires
        a.to_multiset() == b.to_multiset(),
    ensures
        sum_of(a.map_values(f)) == sum_of(b.map_values(f)),
    decreases a.len(),
{
    a.to_multiset_ensures();
    b.to_multiset_ensures();
    assert(a.len() == b.len());
    if a.len() > 0 {
        let x = a.last();
        let fewer = a.drop_last();
        assert(a.remove(a.len() - 1) =~= fewer);
        assert(a[a.len() - 1] == x);
        assert(a.contains(x));
        assert(b.to_multiset().count(x) > 0);
        let k = choose|k: int| 0 <= k < b.len() && b[k] == x;
        let rest = b.remove(k);
        assert(rest.to_multiset() == b.to_multiset().remove(x));
        lemma_sum_of_same(fewer, rest, f);
        assert(a.map_values(f).drop_last() =~= fewer.map_values(f));
        assert(b.map_values(f) =~= rest.map_values(f).insert(k, f(x)));
        lemma_sum_insert(rest.map_values(f), k, f(x));
    } else {
        assert(a.map_values(f) =~= b.map_values(f));
    }
}

/// What a filter passes does not depend on the order.
proof fn lemma_filter_of_same<T>(s: Seq<T>, test: spec_fn(T) -> bool)
    ensures
        s.filter(test).to_multiset() == s.to_multiset().filter(test),
    decreases s.len(),
{
    if s.len() == 0 {
        s.to_multiset_ensures();
        reveal(Seq::filter);
        assert(s.filter(test) =~= s);
        assert(s.to_multiset() =~= vstd::multiset::Multiset::empty());
        assert(s.to_multiset().filter(test) =~= vstd::multiset::Multiset::empty());
    } else {
        let fewer = s.drop_last();
        let x = s.last();
        lemma_filter_of_same(fewer, test);
        assert(s =~= fewer.push(x));
        lemma_filter_push(fewer, test, x);
        fewer.to_multiset_ensures();
        fewer.filter(test).to_multiset_ensures();
        assert(s.to_multiset() == fewer.to_multiset().insert(x));
        assert(s.filter(test).to_multiset() =~= s.to_multiset().filter(test));
    }
}

pub proof fn lemma_same_contents<T>(a: Seq<T>, b: Seq<T>, x: T)
    requires
        a.to_multiset() == b.to_multiset(),
    ensures
        a.len() == b.len(),
        a.contains(x) <==> b.contains(x),
{
    a.to_multiset_ensures();
    b.to_multiset_ensures();
    assert(a.contains(x) <==> a.to_multiset().count(x) > 0);
    assert(b.contains(x) <==> b.to_multiset().count(x) > 0);
}

proof fn lemma_samples_contain(ls: Seq<RawLine>, g: Gauge, v: Num)
    ensures
        samples(ls, g).contains(v) <==> exists|i: int|
            0 <= i < ls.len() && sample(#[trigger] ls[i], g) == Some(v),
    decreases ls.len(),
{
    let all = samples(ls, g);
    if ls.len() > 0 {
        let fewer = ls.drop_last();
        let before = samples(fewer, g);
        lemma_samples_contain(fewer, g, v);
        assert(ls[ls.len() - 1] == ls.last());
        if before.contains(v) {
            let i = choose|i: int| 0 <= i < fewer.len() && sample(#[trigger] fewer[i], g) == Some(v);
            assert(sample(ls[i], g) == Some(v));
            let k = choose|k: int| 0 <= k < before.len() && before[k] == v;
            assert(all[k] == v);
        }
        if sample(ls.last(), g) == Some(v) {
            assert(all[all.len() - 1] == v);
        }
        if all.contains(v) && !before.contains(v) {
            let k = choose|k: int| 0 <= k < all.len() && all[k] == v;
            if k < before.len() {
                assert(before[k] == v);
            }
        }
        if exists|i: int| 0 <= i < ls.len() && sample(#[trigger] ls[i], g) == Some(v) {
            let i = choose|i: int| 0 <= i < ls.len() && sample(#[trigger] ls[i], g) == Some(v);
            if i < fewer.len() {
                assert(sample(fewer[i], g) == Some(v));
            }
        }
    }
}

proof fn lemma_highest_of_same(top: Num, a: Seq<Num>, b: Seq<Num>)
    requires
        is_highest(top, a),
        forall|v: Num| a.contains(v) <==> b.contains(v),
    ensures
        is_highest(top, b),
{
    assert forall|i: int| 0 <= i < b.len() implies !(#[trigger] b[i]).above_spec(top) by {
        assert(b.contains(b[i]));
        assert(a.contains(b[i]));
        let k = choose|k: int| 0 <= k < a.len() && a[k] == b[i];
        assert(!a[k].above_spec(top));
    }
}

proof fn lemma_samples_of_same(top: Num, a: Seq<RawLine>, b: Seq<RawLine>, g: Gauge)
    requires
        a.to_multiset() == b.to_multiset(),
        is_highest(top, samples(a, g)),
    ensures
        is_highest(top, samples(b, g)),
{
    assert forall|v: Num| samples(a, g).contains(v) <==> samples(b, g).contains(v) by {
        lemma_samples_contain(a, g, v);
        lemma_samples_contain(b, g, v);
        if samples(a, g).contains(v) {
            let i = choose|i: int| 0 <= i < a.len() && sample(#[trigger] a[i], g) == Some(v);
            lemma_same_contents(a, b, a[i]);
            assert(a.contains(a[i]));
            let k = choose|k: int| 0 <= k < b.len() && b[k] == a[i];
            assert(sample(b[k], g) == Some(v));
        }
        if samples(b, g).contains(v) {
            let i = choose|i: int| 0 <= i < b.len() && sample(#[trigger] b[i], g) == Some(v);
            lemma_same_contents(a, b, b[i]);
            assert(b.contains(b[i]));
            let k = choose|k: int| 0 <= k < a.len() && a[k] == b[i];
            assert(sample(a[k], g) == Some(v));
        }
    }
    lemma_highest_of_same(top, samples(a, g), samples(b, g));
}

/// Terms that are among others are held where these are, and spread no further.
proof fn lemma_part_is_exact(
    lines: Seq<RawLine>,
    cutoff: int,
    test: spec_fn(RawLine) -> bool,
    q: Quantity,
    scale: Scale,
)
    requires
        forall|l: RawLine| #[trigger] test(l) ==> l.t >= cutoff && is_request(l),
        all_held(scale, amounts(requests(window(lines, cutoff)), q)),
    ensures
        all_held(scale, amounts(lines.filter(test), q)),
        0 <= spread(scale, amounts(lines.filter(test), q)) <= spread(
            scale,
            amounts(requests(window(lines, cutoff)), q),
        ),
    decreases lines.len(),
{
    let f = |n: Num| size(scale.at(n));
    let part = amounts(lines.filter(test), q);
    let whole = amounts(requests(window(lines, cutoff)), q);
    if lines.len() == 0 {
        reveal(Seq::filter);
        assert(part.map_values(f) =~= seq![]);
        assert(window(lines, cutoff) =~= seq![]);
        assert(whole.map_values(f) =~= seq![]);
    } else {
        let fewer = lines.drop_last();
        let l = lines.last();
        assert(lines =~= fewer.push(l));
        lemma_filter_push(fewer, test, l);
        lemma_filter_push(fewer, window_test(cutoff), l);
        lemma_requests_push(window(fewer, cutoff), l);
        let part_before = amounts(fewer.filter(test), q);
        let whole_before = amounts(requests(window(fewer, cutoff)), q);
        let n = amount(l, q);
        if l.t >= cutoff && is_request(l) {
            assert(whole =~= whole_before.push(n));
            assert(whole.map_values(f) =~= whole_before.map_values(f).push(f(n)));
            assert(whole_before.map_values(f).push(f(n)).drop_last() =~= whole_before.map_values(f));
            assert(whole[whole.len() - 1] == n);
        } else {
            assert(whole =~= whole_before);
        }
        assert forall|i: int| 0 <= i < whole_before.len() implies scale.holds(
            #[trigger] whole_before[i],
        ) by {
            assert(whole[i] == whole_before[i]);
        }
        lemma_part_is_exact(fewer, cutoff, test, q, scale);
        if test(l) {
            assert(part =~= part_before.push(n));
            assert(part.map_values(f) =~= part_before.map_values(f).push(f(n)));
            assert(part_before.map_values(f).push(f(n)).drop_last() =~= part_before.map_values(f));
            assert forall|i: int| 0 <= i < part.len() implies scale.holds(#[trigger] part[i]) by {
                if i < part_before.len() {
                    assert(part[i] == part_before[i]);
                }
            }
        } else {
            assert(part =~= part_before);
        }
    }
}

pub open spec fn both<T>(p: spec_fn(T) -> bool, q: spec_fn(T) -> bool) -> spec_fn(T) -> bool {
    |x: T| p(x) && q(x)
}

/// Two filters one behind the other are one.
pub proof fn lemma_filter_twice<T>(s: Seq<T>, p: spec_fn(T) -> bool, q: spec_fn(T) -> bool)
    ensures
        s.filter(p).filter(q) == s.filter(both(p, q)),
    decreases s.len(),
{
    if s.len() == 0 {
        reveal(Seq::filter);
        assert(s.filter(p).filter(q) =~= s.filter(both(p, q)));
    } else {
        let fewer = s.drop_last();
        let x = s.last();
        lemma_filter_twice(fewer, p, q);
        assert(s =~= fewer.push(x));
        lemma_filter_push(fewer, p, x);
        lemma_filter_push(fewer, both(p, q), x);
        if p(x) {
            lemma_filter_push(fewer.filter(p), q, x);
        }
    }
}

/// Filters that agree pass the same.
pub proof fn lemma_filters_agree<T>(s: Seq<T>, p: spec_fn(T) -> bool, q: spec_fn(T) -> bool)
    requires
        forall|i: int| 0 <= i < s.len() ==> p(#[trigger] s[i]) == q(s[i]),
    ensures
        s.filter(p) == s.filter(q),
    decreases s.len(),
{
    if s.len() == 0 {
        reveal(Seq::filter);
        assert(s.filter(p) =~= s.filter(q));
    } else {
        let fewer = s.drop_last();
        assert forall|i: int| 0 <= i < fewer.len() implies p(#[trigger] fewer[i]) == q(fewer[i]) by {
            assert(fewer[i] == s[i]);
        }
        lemma_filters_agree(fewer, p, q);
        assert(s =~= fewer.push(s.last()));
        assert(p(s[s.len() - 1]) == q(s[s.len() - 1]));
        lemma_filter_push(fewer, p, s.last());
        lemma_filter_push(fewer, q, s.last());
    }
}

// ---------------------------------------------------------------- the order of the log

/// What the requests of a bucket report adds up the same whatever their order.
proof fn lemma_sums_of_same(
    a: Seq<RawLine>,
    b: Seq<RawLine>,
    cutoff: int,
    length: int,
    start: int,
    q: Quantity,
    add_op: spec_fn(Num, Num) -> Num,
    scale: Scale,
)
    requires
        a.to_multiset() == b.to_multiset(),
        adds_exactly(add_op, scale),
        is_exact(a, cutoff, q, scale),
        is_exact(b, cutoff, q, scale),
    ensures
        total(add_op, amounts(requests(members(a, cutoff, length, start)), q)) == total(
            add_op,
            amounts(requests(members(b, cutoff, length, start)), q),
        ),
{
    let test = both(member_test(cutoff, length, start), request_test());
    lemma_filter_twice(a, member_test(cutoff, length, start), request_test());
    lemma_filter_twice(b, member_test(cutoff, length, start), request_test());
    lemma_filter_of_same(a, test);
    lemma_filter_of_same(b, test);
    lemma_part_is_exact(a, cutoff, test, q, scale);
    lemma_part_is_exact(b, cutoff, test, q, scale);
    let (x, y) = (amounts(a.filter(test), q), amounts(b.filter(test), q));
    sum_is_exact(add_op, scale, x);
    sum_is_exact(add_op, scale, y);
    let f = |l: RawLine| scale.at(amount(l, q));
    lemma_sum_of_same(a.filter(test), b.filter(test), f);
    assert(places(scale, x) =~= a.filter(test).map_values(f));
    assert(places(scale, y) =~= b.filter(test).map_values(f));
}

/// What is exact of a log is exact of the same lines in another order.
proof fn lemma_exact_of_same(
    a: Seq<RawLine>,
    b: Seq<RawLine>,
    cutoff: int,
    q: Quantity,
    scale: Scale,
)
    requires
        a.to_multiset() == b.to_multiset(),
        is_exact(a, cutoff, q, scale),
    ensures
        is_exact(b, cutoff, q, scale),
{
    lemma_filter_of_same(a, window_test(cutoff));
    lemma_filter_of_same(b, window_test(cutoff));
    lemma_filter_of_same(window(a, cutoff), request_test());
    lemma_filter_of_same(window(b, cutoff), request_test());
    let (x, y) = (requests(window(a, cutoff)), requests(window(b, cutoff)));
    let f = |l: RawLine| size(scale.at(amount(l, q)));
    lemma_sum_of_same(x, y, f);
    assert(amounts(x, q).map_values(|n: Num| size(scale.at(n))) =~= x.map_values(f));
    assert(amounts(y, q).map_values(|n: Num| size(scale.at(n))) =~= y.map_values(f));
    assert forall|i: int| 0 <= i < amounts(y, q).len() implies scale.holds(
        #[trigger] amounts(y, q)[i],
    ) by {
        lemma_same_contents(x, y, y[i]);
        assert(y.contains(y[i]));
        let k = choose|k: int| 0 <= k < x.len() && x[k] == y[i];
        assert(scale.holds(amounts(x, q)[k]));
    }
}

/// Buckets that share out a log share out the same lines in another order.
proof fn lemma_share_out_same(
    buckets: Seq<MinuteBucket>,
    a: Seq<RawLine>,
    b: Seq<RawLine>,
    cutoff: int,
    length: int,
    add_op: spec_fn(Num, Num) -> Num,
    scales: spec_fn(Quantity) -> Scale,
)
    requires
        a.to_multiset() == b.to_multiset(),
        all_exact(a, cutoff, add_op, scales),
        all_exact(b, cutoff, add_op, scales),
        share_out(buckets, b, cutoff, length, add_op),
    ensures
        share_out(buckets, a, cutoff, length, add_op),
{
    assert forall|k: int| 0 <= k < buckets.len() implies {
        &&& crate::buckets::sums_up(
            #[trigger] buckets[k],
            members(a, cutoff, length, buckets[k].minute as int),
            add_op,
        )
        &&& members(a, cutoff, length, buckets[k].minute as int).len() > 0
    } by {
        let start = buckets[k].minute as int;
        let (x, y) = (members(a, cutoff, length, start), members(b, cutoff, length, start));
        assert(crate::buckets::sums_up(buckets[k], y, add_op));
        lemma_filter_of_same(a, member_test(cutoff, length, start));
        lemma_filter_of_same(b, member_test(cutoff, length, start));
        assert(y.len() > 0);
        lemma_same_contents(x, y, y[0]);
        lemma_filter_of_same(x, request_test());
        lemma_filter_of_same(y, request_test());
        lemma_filter_of_same(requests(x), limited_test());
        lemma_filter_of_same(requests(y), limited_test());
        requests(x).to_multiset_ensures();
        requests(y).to_multiset_ensures();
        limited(x).to_multiset_ensures();
        limited(y).to_multiset_ensures();
        assert(requests(x).len() == requests(x).to_multiset().len());
        assert(requests(y).len() == requests(y).to_multiset().len());
        assert(limited(x).len() == limited(x).to_multiset().len());
        assert(limited(y).len() == limited(y).to_multiset().len());
        lemma_samples_of_same(buckets[k].u5h, y, x, Gauge::FiveHours);
        lemma_samples_of_same(buckets[k].u7d, y, x, Gauge::SevenDays);
        lemma_quantity_of_same(a, b, cutoff, length, start, Quantity::Input, add_op, scales);
        lemma_quantity_of_same(a, b, cutoff, length, start, Quantity::Output, add_op, scales);
        lemma_quantity_of_same(a, b, cutoff, length, start, Quantity::CacheRead, add_op, scales);
        lemma_quantity_of_same(a, b, cutoff, length, start, Quantity::CacheWrite, add_op, scales);
        lemma_quantity_of_same(a, b, cutoff, length, start, Quantity::BytesIn, add_op, scales);
        lemma_quantity_of_same(a, b, cutoff, length, start, Quantity::BytesOut, add_op, scales);
        lemma_quantity_of_same(a, b, cutoff, length, start, Quantity::Cost, add_op, scales);
    }
    assert forall|i: int| 0 <= i < a.len() && (#[trigger] a[i]).t >= cutoff implies exists|k: int|
        0 <= k < buckets.len() && (#[trigger] buckets[k]).minute == span_start_spec(
            a[i].t as int,
            length,
        ) by {
        lemma_same_contents(a, b, a[i]);
        assert(a.contains(a[i]));
        let j = choose|j: int| 0 <= j < b.len() && b[j] == a[i];
        assert(b[j].t >= cutoff);
    }
}

proof fn lemma_quantity_of_same(
    a: Seq<RawLine>,
    b: Seq<RawLine>,
    cutoff: int,
    length: int,
    start: int,
    q: Quantity,
    add_op: spec_fn(Num, Num) -> Num,
    scales: spec_fn(Quantity) -> Scale,
)
    requires
        a.to_multiset() == b.to_multiset(),
        all_exact(a, cutoff, add_op, scales),
        all_exact(b, cutoff, add_op, scales),
    ensures
        total(add_op, amounts(requests(members(a, cutoff, length, start)), q)) == total(
            add_op,
            amounts(requests(members(b, cutoff, length, start)), q),
        ),
{
    assert(is_exact(a, cutoff, q, scales(q)));
    assert(is_exact(b, cutoff, q, scales(q)));
    lemma_sums_of_same(a, b, cutoff, length, start, q, add_op, scales(q));
}

/// The order of the log does not matter where sums are exact: snapshots of the same lines in
/// two orders show the same buckets, peaks and sums.
pub proof fn order_does_not_matter(
    r: Snapshot,
    s: Snapshot,
    a: Seq<RawLine>,
    b: Seq<RawLine>,
    cutoff: int,
    length: int,
    add_op: spec_fn(Num, Num) -> Num,
    scales: spec_fn(Quantity) -> Scale,
)
    requires
        a.to_multiset() == b.to_multiset(),
        all_exact(a, cutoff, add_op, scales),
        shows_window(r, a, cutoff, length, add_op),
        shows_window(s, b, cutoff, length, add_op),
    ensures
        r.minutes@ == s.minutes@,
        r.peak_tokens == s.peak_tokens,
        r.peak_minute == s.peak_minute,
        r.peak_requests == s.peak_requests,
        r.peak_requests_minute == s.peak_requests_minute,
        r.rate_limited_total == s.rate_limited_total,
        r.total_bytes_in == s.total_bytes_in,
        r.total_bytes_out == s.total_bytes_out,
        r.total_cost == s.total_cost,
{
    assert forall|q: Quantity|
        #[trigger] is_exact(b, cutoff, q, scales(q)) && adds_exactly(add_op, scales(q)) by {
        assert(is_exact(a, cutoff, q, scales(q)));
        lemma_exact_of_same(a, b, cutoff, q, scales(q));
    }
    lemma_share_out_same(s.minutes@, a, b, cutoff, length, add_op, scales);
    shares_are_unique(r.minutes@, s.minutes@, a, cutoff, length, add_op);
    peak_is_unique(
        r.peak_tokens,
        s.peak_tokens,
        r.peak_minute,
        s.peak_minute,
        tokens(r.minutes@, add_op),
        r.minutes@,
    );
    request_peak_is_unique(
        r.peak_requests,
        s.peak_requests,
        r.peak_requests_minute,
        s.peak_requests_minute,
        r.minutes@,
    );
}

// ---------------------------------------------------------------- days and minutes

/// Two times fall into one minute if as many whole minutes are over.
pub proof fn lemma_same_minute(t: int, u: int)
    ensures
        span_start_spec(t, MIN_MS as int) == span_start_spec(u, MIN_MS as int) <==> t / 60_000 == u
            / 60_000,
{
    let (a, b) = (t / 60_000, u / 60_000);
    assert(a * 60_000 == b * 60_000 <==> a == b) by (nonlinear_arith);
}

/// A minute lies in one day.
pub proof fn lemma_minute_has_one_day(t: int, u: int)
    requires
        span_start_spec(t, MIN_MS as int) == span_start_spec(u, MIN_MS as int),
    ensures
        day_of(t) == day_of(u),
{
    lemma_same_minute(t, u);
    assert(t / 86_400_000 == (t / 60_000) / 1440);
    assert(u / 86_400_000 == (u / 60_000) / 1440);
}

/// The requests of a minute: of the window, and of the day that one of them falls on.
proof fn lemma_requests_of_minute(lines: Seq<RawLine>, cutoff: int, minute: int, l: RawLine)
    requires
        span_start_spec(l.t as int, MIN_MS as int) == minute,
    ensures
        requests(members(lines, cutoff, MIN_MS as int, minute)) == day_lines(
            lines,
            cutoff,
            day_text(l.t as int),
        ).filter(minute_test(minute)),
{
    let p = both(member_test(cutoff, MIN_MS as int, minute), request_test());
    let q = both(day_test(cutoff, day_text(l.t as int)), minute_test(minute));
    lemma_filter_twice(lines, member_test(cutoff, MIN_MS as int, minute), request_test());
    lemma_filter_twice(lines, day_test(cutoff, day_text(l.t as int)), minute_test(minute));
    assert forall|i: int| 0 <= i < lines.len() implies p(#[trigger] lines[i]) == q(lines[i]) by {
        if span_start_spec(lines[i].t as int, MIN_MS as int) == minute {
            lemma_minute_has_one_day(lines[i].t as int, l.t as int);
        }
    }
    lemma_filters_agree(lines, p, q);
}

pub open spec fn sum_at(scale: Scale, ls: Seq<RawLine>, q: Quantity) -> int {
    sum_of(places(scale, amounts(ls, q)))
}

/// The tokens of lines, input and output together, stand where these add up to.
proof fn lemma_line_tokens(
    ls: Seq<RawLine>,
    add_op: spec_fn(Num, Num) -> Num,
    scale: Scale,
)
    requires
        adds_exactly(add_op, scale),
        all_held(scale, amounts(ls, Quantity::Input)),
        all_held(scale, amounts(ls, Quantity::Output)),
        spread(scale, amounts(ls, Quantity::Input)) + spread(
            scale,
            amounts(ls, Quantity::Output),
        ) <= scale.limit,
    ensures
        all_held(scale, line_tokens(ls, add_op)),
        0 <= spread(scale, line_tokens(ls, add_op)) <= spread(scale, amounts(ls, Quantity::Input))
            + spread(scale, amounts(ls, Quantity::Output)),
        0 <= spread(scale, amounts(ls, Quantity::Input)),
        0 <= spread(scale, amounts(ls, Quantity::Output)),
        sum_of(places(scale, line_tokens(ls, add_op))) == sum_at(scale, ls, Quantity::Input)
            + sum_at(scale, ls, Quantity::Output),
    decreases ls.len(),
{
    let f = |n: Num| size(scale.at(n));
    let (ins, outs, all) = (
        amounts(ls, Quantity::Input),
        amounts(ls, Quantity::Output),
        line_tokens(ls, add_op),
    );
    if ls.len() > 0 {
        let fewer = ls.drop_last();
        let (a, b) = (amount(ls.last(), Quantity::Input), amount(ls.last(), Quantity::Output));
        let c = add_op(a, b);
        let (ins1, outs1, all1) = (
            amounts(fewer, Quantity::Input),
            amounts(fewer, Quantity::Output),
            line_tokens(fewer, add_op),
        );
        assert(ins =~= ins1.push(a));
        assert(outs =~= outs1.push(b));
        assert(all =~= all1.push(c));
        assert(scale.holds(ins[ins.len() - 1]));
        assert(scale.holds(outs[outs.len() - 1]));
        lemma_spread_push(scale, ins1, a);
        lemma_spread_push(scale, outs1, b);
        lemma_spread_push(scale, all1, c);
        assert forall|i: int| 0 <= i < fewer.len() implies scale.holds(#[trigger] ins1[i]) by {
            assert(ins1[i] == ins[i]);
        }
        assert forall|i: int| 0 <= i < fewer.len() implies scale.holds(#[trigger] outs1[i]) by {
            assert(outs1[i] == outs[i]);
        }
        lemma_spread_is_positive(scale, ins1);
        lemma_spread_is_positive(scale, outs1);
        lemma_line_tokens(fewer, add_op, scale);
        assert((scale.place)(c) == Some(scale.at(a) + scale.at(b)));
        assert forall|i: int| 0 <= i < all.len() implies scale.holds(#[trigger] all[i]) by {
            if i < all1.len() {
                assert(all[i] == all1[i]);
            }
        }
    } else {
        lemma_spread_is_positive(scale, ins);
        lemma_spread_is_positive(scale, outs);
        lemma_spread_is_positive(scale, all);
    }
}

proof fn lemma_spread_push(scale: Scale, terms: Seq<Num>, n: Num)
    ensures
        spread(scale, terms.push(n)) == spread(scale, terms) + size(scale.at(n)),
        sum_of(places(scale, terms.push(n))) == sum_of(places(scale, terms)) + scale.at(n),
{
    let f = |n: Num| size(scale.at(n));
    assert(terms.push(n).map_values(f).drop_last() =~= terms.map_values(f));
    assert(places(scale, terms.push(n)).drop_last() =~= places(scale, terms));
}

proof fn lemma_spread_is_positive(scale: Scale, terms: Seq<Num>)
    ensures
        0 <= spread(scale, terms),
    decreases terms.len(),
{
    if terms.len() > 0 {
        lemma_spread_is_positive(scale, terms.drop_last());
        lemma_spread_push(scale, terms.drop_last(), terms.last());
        assert(terms.drop_last().push(terms.last()) =~= terms);
    }
}

/// Whether the tokens of the requests of a window, input and output together, add up
/// exactly.
pub open spec fn tokens_exact(
    lines: Seq<RawLine>,
    cutoff: int,
    add_op: spec_fn(Num, Num) -> Num,
    scale: Scale,
) -> bool {
    let rs = requests(window(lines, cutoff));
    &&& adds_exactly(add_op, scale)
    &&& all_held(scale, amounts(rs, Quantity::Input))
    &&& all_held(scale, amounts(rs, Quantity::Output))
    &&& spread(scale, amounts(rs, Quantity::Input)) + spread(
        scale,
        amounts(rs, Quantity::Output),
    ) <= scale.limit
}

/// The tokens of a minute are the same, whether its input and output are added up apart or
/// request by request.
proof fn lemma_tokens_of_minute(
    lines: Seq<RawLine>,
    cutoff: int,
    minute: int,
    add_op: spec_fn(Num, Num) -> Num,
    scale: Scale,
)
    requires
        tokens_exact(lines, cutoff, add_op, scale),
    ensures
        ({
            let rs = requests(members(lines, cutoff, MIN_MS as int, minute));
            total(add_op, line_tokens(rs, add_op)) == add_op(
                total(add_op, amounts(rs, Quantity::Input)),
                total(add_op, amounts(rs, Quantity::Output)),
            )
        }),
{
    let test = both(member_test(cutoff, MIN_MS as int, minute), request_test());
    lemma_filter_twice(lines, member_test(cutoff, MIN_MS as int, minute), request_test());
    let rs = lines.filter(test);
    lemma_part_is_exact(lines, cutoff, test, Quantity::Input, scale);
    lemma_part_is_exact(lines, cutoff, test, Quantity::Output, scale);
    lemma_line_tokens(rs, add_op, scale);
    sum_is_exact(add_op, scale, amounts(rs, Quantity::Input));
    sum_is_exact(add_op, scale, amounts(rs, Quantity::Output));
    sum_is_exact(add_op, scale, line_tokens(rs, add_op));
    let (i, j) = (sum_at(scale, rs, Quantity::Input), sum_at(scale, rs, Quantity::Output));
    assert(scale.reaches(i) && scale.reaches(j) && scale.reaches(i + j));
    assert((scale.place)((scale.number)(j)) == Some(j));
    assert(add_op((scale.number)(i), (scale.number)(j)) == (scale.number)(i + j));
}

/// The highest number of tokens of a minute, of each day.
pub open spec fn daily_peaks(days: Seq<DaySummary>) -> Seq<Num> {
    days.map_values(|d: DaySummary| d.peak_tpm)
}

/// The days and the minutes of a window tell the same: they count the same requests and the
/// same that were turned away, and, where sums are exact, the highest of the daily peaks is
/// the peak of the minutes.
pub proof fn days_agree_with_minutes(
    days: Seq<DaySummary>,
    r: Snapshot,
    lines: Seq<RawLine>,
    cutoff: int,
    add_op: spec_fn(Num, Num) -> Num,
    scale: Scale,
)
    requires
        shows_days(days, lines, cutoff, add_op),
        shows_window(r, lines, cutoff, MIN_MS as int, add_op),
        tokens_exact(lines, cutoff, add_op, scale),
    ensures
        requests_over(days) == count_over(r.minutes@, Count::Requests),
        limited_over(days) == r.rate_limited_total,
        is_highest(r.peak_tokens, daily_peaks(days)),
{
    let peak = r.peak_tokens;
    let buckets = r.minutes@;
    let peaks = daily_peaks(days);
    assert forall|d: int| 0 <= d < days.len() implies !(#[trigger] peaks[d]).above_spec(peak) by {
        lemma_daily_peak_is_no_higher(days, r, lines, cutoff, add_op, scale, d);
    }
    if peak != Num::zero_spec() {
        let values = tokens(buckets, add_op);
        let k = choose|k: int| 0 <= k < values.len() && values[k] == peak;
        let start = buckets[k].minute as int;
        let rs = requests(members(lines, cutoff, MIN_MS as int, start));
        assert(crate::buckets::sums_up(
            buckets[k],
            members(lines, cutoff, MIN_MS as int, start),
            add_op,
        ));
        lemma_tokens_of_minute(lines, cutoff, start, add_op, scale);
        assert(peak == total(add_op, line_tokens(rs, add_op)));
        assert(rs.len() > 0);
        let test = both(member_test(cutoff, MIN_MS as int, start), request_test());
        lemma_filter_twice(lines, member_test(cutoff, MIN_MS as int, start), request_test());
        lines.lemma_filter_pred(test, 0);
        lemma_filter_comes_from(lines, test, 0);
        let i = choose|i: int| 0 <= i < lines.len() && lines[i] == rs[0];
        let l = lines[i];
        let d = choose|d: int|
            0 <= d < days.len() && (#[trigger] days[d]).day@ == day_text(lines[i].t as int);
        let ls = day_lines(lines, cutoff, days[d].day@);
        lemma_requests_of_minute(lines, cutoff, start, l);
        assert(summarizes(days[d], ls, add_op));
        assert(ls.contains(l)) by {
            lines.lemma_filter_contains(day_test(cutoff, days[d].day@), i);
        }
        let m = choose|m: int| 0 <= m < ls.len() && ls[m] == l;
        assert(tokens_per_minute(ls, add_op)[m] == minute_tokens(ls, start, add_op));
        assert(minute_tokens(ls, start, add_op) == peak);
        assert(!peak.above_spec(days[d].peak_tpm));
        assert(!peaks[d].above_spec(peak));
        assert(peaks[d] == peak);
    }
}

proof fn lemma_daily_peak_is_no_higher(
    days: Seq<DaySummary>,
    r: Snapshot,
    lines: Seq<RawLine>,
    cutoff: int,
    add_op: spec_fn(Num, Num) -> Num,
    scale: Scale,
    d: int,
)
    requires
        shows_days(days, lines, cutoff, add_op),
        shows_window(r, lines, cutoff, MIN_MS as int, add_op),
        tokens_exact(lines, cutoff, add_op, scale),
        0 <= d < days.len(),
    ensures
        !days[d].peak_tpm.above_spec(r.peak_tokens),
{
    let ls = day_lines(lines, cutoff, days[d].day@);
    let per_minute = tokens_per_minute(ls, add_op);
    let top = days[d].peak_tpm;
    assert(summarizes(days[d], ls, add_op));
    if top != Num::zero_spec() {
        let m = choose|m: int| 0 <= m < per_minute.len() && per_minute[m] == top;
        let l = ls[m];
        let start = span_start_spec(l.t as int, MIN_MS as int);
        let test = day_test(cutoff, days[d].day@);
        lines.lemma_filter_pred(test, m);
        lemma_filter_comes_from(lines, test, m);
        let i = choose|i: int| 0 <= i < lines.len() && lines[i] == l;
        assert(lines[i].t >= cutoff);
        let k = choose|k: int|
            0 <= k < r.minutes@.len() && (#[trigger] r.minutes@[k]).minute == span_start_spec(
                lines[i].t as int,
                MIN_MS as int,
            );
        lemma_requests_of_minute(lines, cutoff, start, l);
        lemma_tokens_of_minute(lines, cutoff, start, add_op, scale);
        assert(crate::buckets::sums_up(
            r.minutes@[k],
            members(lines, cutoff, MIN_MS as int, start),
            add_op,
        ));
        assert(tokens(r.minutes@, add_op)[k] == top);
        assert(!tokens(r.minutes@, add_op)[k].above_spec(r.peak_tokens));
    } else {
        assert(r.peak_tokens == Num::zero_spec() || r.peak_tokens.above_spec(Num::zero_spec()));
    }
}

} // verus!
