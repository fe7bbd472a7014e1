//! Buckets of equal length, into which the usage of a window of time is shared out.
use crate::clock::{fits, span_start, span_start_spec};
use crate::num::{
    higher, highest_with_one_more, is_highest, is_operation, lemma_total_push, meaning, raise,
    total, Num,
};
use crate::usage::{
    add_known, amount, amounts, is_limited, is_ratelimit_sample, is_request, lemma_amounts_push,
    lemma_count_of_sum, lemma_filter_comes_from, lemma_filter_push, lemma_requests_push,
    lemma_sum_insert, lemma_sum_update, limited, requests, samples, sum_of, Gauge, Quantity,
    RawLine,
};
use vstd::prelude::*;
use vstd::string::*;

verus! {

/// The usage of one bucket of time.
#[derive(Debug, Clone, Copy)]
pub struct MinuteBucket {
    /// Milliseconds since the epoch at the start of the bucket.
    pub minute: i64,
    pub input: Num,
    pub output: Num,
    pub cache_read: Num,
    pub cache_write: Num,
    pub bytes_in: Num,
    pub bytes_out: Num,
    pub cost: Num,
    pub requests: u32,
    pub rate_limited: u32,
    /// The highest use of the five-hour limit that was sampled (0 to 1).
    pub u5h: Num,
    pub u7d: Num,
}

// ---------------------------------------------------------------- one bucket

/// Whether a bucket sums up the lines.
pub open spec fn sums_up(
    b: MinuteBucket,
    ls: Seq<RawLine>,
    add_op: spec_fn(Num, Num) -> Num,
) -> bool {
    &&& b.input == total(add_op, amounts(requests(ls), Quantity::Input))
    &&& b.output == total(add_op, amounts(requests(ls), Quantity::Output))
    &&& b.cache_read == total(add_op, amounts(requests(ls), Quantity::CacheRead))
    &&& b.cache_write == total(add_op, amounts(requests(ls), Quantity::CacheWrite))
    &&& b.bytes_in == total(add_op, amounts(requests(ls), Quantity::BytesIn))
    &&& b.bytes_out == total(add_op, amounts(requests(ls), Quantity::BytesOut))
    &&& b.cost == total(add_op, amounts(requests(ls), Quantity::Cost))
    &&& b.requests == requests(ls).len()
    &&& b.rate_limited == limited(ls).len()
    &&& is_highest(b.u5h, samples(ls, Gauge::FiveHours))
    &&& is_highest(b.u7d, samples(ls, Gauge::SevenDays))
}

/// A bucket that nothing has happened in.
pub open spec fn empty_bucket(minute: i64) -> MinuteBucket {
    MinuteBucket {
        minute,
        input: Num::zero_spec(),
        output: Num::zero_spec(),
        cache_read: Num::zero_spec(),
        cache_write: Num::zero_spec(),
        bytes_in: Num::zero_spec(),
        bytes_out: Num::zero_spec(),
        cost: Num::zero_spec(),
        requests: 0,
        rate_limited: 0,
        u5h: Num::zero_spec(),
        u7d: Num::zero_spec(),
    }
}

spec fn raised(top: Num, value: Option<Num>) -> Num {
    match value {
        Some(v) => higher(top, v),
        None => top,
    }
}

/// A bucket with one more line.
spec fn with_line(b: MinuteBucket, l: RawLine, add_op: spec_fn(Num, Num) -> Num) -> MinuteBucket {
    let gauged = MinuteBucket { u5h: raised(b.u5h, l.u5h), u7d: raised(b.u7d, l.u7d), ..b };
    if is_request(l) {
        MinuteBucket {
            input: add_op(b.input, amount(l, Quantity::Input)),
            output: add_op(b.output, amount(l, Quantity::Output)),
            cache_read: add_op(b.cache_read, amount(l, Quantity::CacheRead)),
            cache_write: add_op(b.cache_write, amount(l, Quantity::CacheWrite)),
            bytes_in: add_op(b.bytes_in, amount(l, Quantity::BytesIn)),
            bytes_out: add_op(b.bytes_out, amount(l, Quantity::BytesOut)),
            cost: add_op(b.cost, amount(l, Quantity::Cost)),
            requests: (b.requests + 1) as u32,
            rate_limited: if is_limited(l) {
                (b.rate_limited + 1) as u32
            } else {
                b.rate_limited
            },
            ..gauged
        }
    } else {
        gauged
    }
}

proof fn lemma_raised(top: Num, ls: Seq<RawLine>, l: RawLine, g: Gauge)
    requires
        is_highest(top, samples(ls, g)),
    ensures
        is_highest(raised(top, crate::usage::sample(l, g)), samples(ls.push(l), g)),
{
    assert(ls.push(l).drop_last() =~= ls);
    if let Some(v) = crate::usage::sample(l, g) {
        highest_with_one_more(top, samples(ls, g), v);
    }
}

proof fn lemma_sum_with_line(ls: Seq<RawLine>, l: RawLine, q: Quantity, add_op: spec_fn(Num, Num) -> Num)
    ensures
        total(add_op, amounts(requests(ls.push(l)), q)) == if is_request(l) {
            add_op(total(add_op, amounts(requests(ls), q)), amount(l, q))
        } else {
            total(add_op, amounts(requests(ls), q))
        },
{
    lemma_requests_push(ls, l);
    if is_request(l) {
        lemma_amounts_push(requests(ls), l, q);
        lemma_total_push(add_op, amounts(requests(ls), q), amount(l, q));
    }
}

proof fn lemma_with_line(
    b: MinuteBucket,
    ls: Seq<RawLine>,
    l: RawLine,
    add_op: spec_fn(Num, Num) -> Num,
)
    requires
        sums_up(b, ls, add_op),
        is_request(l) ==> b.requests < u32::MAX,
        b.rate_limited <= b.requests,
    ensures
        sums_up(with_line(b, l, add_op), ls.push(l), add_op),
{
    lemma_requests_push(ls, l);
    lemma_sum_with_line(ls, l, Quantity::Input, add_op);
    lemma_sum_with_line(ls, l, Quantity::Output, add_op);
    lemma_sum_with_line(ls, l, Quantity::CacheRead, add_op);
    lemma_sum_with_line(ls, l, Quantity::CacheWrite, add_op);
    lemma_sum_with_line(ls, l, Quantity::BytesIn, add_op);
    lemma_sum_with_line(ls, l, Quantity::BytesOut, add_op);
    lemma_sum_with_line(ls, l, Quantity::Cost, add_op);
    lemma_raised(b.u5h, ls, l, Gauge::FiveHours);
    lemma_raised(b.u7d, ls, l, Gauge::SevenDays);
}

impl MinuteBucket {
    /// A bucket that nothing has happened in.
    pub fn empty(minute: i64) -> (r: MinuteBucket)
        ensures
            r == empty_bucket(minute),
    {
        MinuteBucket {
            minute,
            input: Num::zero(),
            output: Num::zero(),
            cache_read: Num::zero(),
            cache_write: Num::zero(),
            bytes_in: Num::zero(),
            bytes_out: Num::zero(),
            cost: Num::zero(),
            requests: 0,
            rate_limited: 0,
            u5h: Num::zero(),
            u7d: Num::zero(),
        }
    }

    /// Adds a line to a bucket.
    fn absorb<F: Fn(Num, Num) -> Num>(self, l: &RawLine, add_op: &F) -> (r: MinuteBucket)
        requires
            is_operation(*add_op),
            is_request(*l) ==> self.requests < u32::MAX,
            self.rate_limited <= self.requests,
        ensures
            r == with_line(self, *l, meaning(*add_op)),
    {
        let mut b: MinuteBucket = self;
        if let Some(v) = l.u5h {
            b.u5h = raise(b.u5h, v);
        }
        if let Some(v) = l.u7d {
            b.u7d = raise(b.u7d, v);
        }
        if !is_ratelimit_sample(l) {
            b.input = add_known(b.input, l.input, add_op);
            b.output = add_known(b.output, l.output, add_op);
            b.cache_read = add_known(b.cache_read, l.cache_read, add_op);
            b.cache_write = add_known(b.cache_write, l.cache_write, add_op);
            b.bytes_in = add_known(b.bytes_in, l.bytes_in, add_op);
            b.bytes_out = add_known(b.bytes_out, l.bytes_out, add_op);
            b.cost = add_known(b.cost, l.cost, add_op);
            b.requests = b.requests + 1;
            if l.rate_limited || l.status == 429 {
                b.rate_limited = b.rate_limited + 1;
            }
        }
        b
    }
}

// ---------------------------------------------------------------- all buckets

pub open spec fn window_test(cutoff: int) -> spec_fn(RawLine) -> bool {
    |l: RawLine| l.t >= cutoff
}

pub open spec fn member_test(cutoff: int, length: int, start: int) -> spec_fn(RawLine) -> bool {
    |l: RawLine| l.t >= cutoff && span_start_spec(l.t as int, length) == start
}

/// The lines of the window, which begins at the cutoff.
pub open spec fn window(lines: Seq<RawLine>, cutoff: int) -> Seq<RawLine> {
    lines.filter(window_test(cutoff))
}

/// The lines of the window that fall into the bucket that starts at `start`.
pub open spec fn members(lines: Seq<RawLine>, cutoff: int, length: int, start: int) -> Seq<RawLine> {
    lines.filter(member_test(cutoff, length, start))
}

/// Whether the spans that the lines of the window fall into start at times that can be held.
pub open spec fn starts_fit(lines: Seq<RawLine>, cutoff: int, length: int) -> bool {
    forall|i: int|
        0 <= i < lines.len() && (#[trigger] lines[i]).t >= cutoff ==> fits(
            span_start_spec(lines[i].t as int, length),
        )
}

/// The first lines hold no more requests of the window than all of them.
pub proof fn lemma_requests_grow(lines: Seq<RawLine>, cutoff: int, k: int)
    requires
        0 <= k <= lines.len(),
    ensures
        requests(window(lines.take(k), cutoff)).len() <= requests(window(lines, cutoff)).len(),
    decreases lines.len(),
{
    if k == lines.len() {
        assert(lines.take(k) =~= lines);
    } else {
        let fewer = lines.drop_last();
        assert(fewer.take(k) =~= lines.take(k));
        lemma_requests_grow(fewer, cutoff, k);
        assert(lines =~= fewer.push(lines.last()));
        lemma_filter_push(fewer, window_test(cutoff), lines.last());
        lemma_requests_push(window(fewer, cutoff), lines.last());
    }
}

pub open spec fn ascending(buckets: Seq<MinuteBucket>) -> bool {
    forall|i: int, j: int|
        0 <= i < j < buckets.len() ==> (#[trigger] buckets[i]).minute < (
        #[trigger] buckets[j]).minute
}

/// Whether the buckets share out the lines of the window: they ascend, each sums up the
/// lines that fall into it, none is without lines, and no line is without its bucket.
pub open spec fn share_out(
    buckets: Seq<MinuteBucket>,
    lines: Seq<RawLine>,
    cutoff: int,
    length: int,
    add_op: spec_fn(Num, Num) -> Num,
) -> bool {
    &&& ascending(buckets)
    &&& forall|k: int|
        0 <= k < buckets.len() ==> sums_up(
            #[trigger] buckets[k],
            members(lines, cutoff, length, buckets[k].minute as int),
            add_op,
        )
    &&& forall|k: int|
        0 <= k < buckets.len() ==> members(
            lines,
            cutoff,
            length,
            (#[trigger] buckets[k]).minute as int,
        ).len() > 0
    &&& forall|i: int|
        0 <= i < lines.len() && (#[trigger] lines[i]).t >= cutoff ==> exists|k: int|
            0 <= k < buckets.len() && (#[trigger] buckets[k]).minute == span_start_spec(
                lines[i].t as int,
                length,
            )
}

/// What is counted over all buckets.
pub enum Count {
    Requests,
    Limited,
}

pub open spec fn count_of(b: MinuteBucket, c: Count) -> int {
    match c {
        Count::Requests => b.requests as int,
        Count::Limited => b.rate_limited as int,
    }
}

pub open spec fn counts(buckets: Seq<MinuteBucket>, c: Count) -> Seq<int> {
    buckets.map_values(|b: MinuteBucket| count_of(b, c))
}

pub open spec fn count_over(buckets: Seq<MinuteBucket>, c: Count) -> int {
    sum_of(counts(buckets, c))
}

proof fn lemma_count_update(buckets: Seq<MinuteBucket>, k: int, b: MinuteBucket, c: Count)
    requires
        0 <= k < buckets.len(),
    ensures
        count_over(buckets.update(k, b), c) == count_over(buckets, c) - count_of(buckets[k], c)
            + count_of(b, c),
{
    assert(counts(buckets.update(k, b), c) =~= counts(buckets, c).update(k, count_of(b, c)));
    lemma_sum_update(counts(buckets, c), k, count_of(b, c));
}

proof fn lemma_count_insert(buckets: Seq<MinuteBucket>, k: int, b: MinuteBucket, c: Count)
    requires
        0 <= k <= buckets.len(),
    ensures
        count_over(buckets.insert(k, b), c) == count_over(buckets, c) + count_of(b, c),
{
    assert(counts(buckets.insert(k, b), c) =~= counts(buckets, c).insert(k, count_of(b, c)));
    lemma_sum_insert(counts(buckets, c), k, count_of(b, c));
}

/// Finds the first bucket that does not start before `minute`.
fn slot_for(buckets: &Vec<MinuteBucket>, minute: i64) -> (r: usize)
    requires
        ascending(buckets@),
    ensures
        r <= buckets@.len(),
        forall|i: int| 0 <= i < r ==> (#[trigger] buckets@[i]).minute < minute,
        forall|i: int| r <= i < buckets@.len() ==> (#[trigger] buckets@[i]).minute >= minute,
{
    let mut low: usize = 0;
    let mut high: usize = buckets.len();
    while low < high
        invariant
            low <= high <= buckets@.len(),
            ascending(buckets@),
            forall|i: int| 0 <= i < low ==> (#[trigger] buckets@[i]).minute < minute,
            forall|i: int| high <= i < buckets@.len() ==> (#[trigger] buckets@[i]).minute >= minute,
        decreases high - low,
    {
        let mid: usize = low + (high - low) / 2;
        if buckets[mid].minute < minute {
            low = mid + 1;
        } else {
            high = mid;
        }
    }
    low
}

proof fn lemma_members_push(lines: Seq<RawLine>, l: RawLine, cutoff: int, length: int, start: int)
    ensures
        members(lines.push(l), cutoff, length, start) == if l.t >= cutoff && span_start_spec(
            l.t as int,
            length,
        ) == start {
            members(lines, cutoff, length, start).push(l)
        } else {
            members(lines, cutoff, length, start)
        },
        members(lines, cutoff, length, start).len() <= lines.len(),
{
    lemma_filter_push(lines, member_test(cutoff, length, start), l);
    lines.lemma_filter_len(member_test(cutoff, length, start));
}

/// A bucket without lines sums up no lines.
proof fn lemma_empty_bucket(minute: i64, ls: Seq<RawLine>, add_op: spec_fn(Num, Num) -> Num)
    requires
        ls.len() == 0,
    ensures
        sums_up(empty_bucket(minute), ls, add_op),
{
    reveal(Seq::filter);
    assert(requests(ls) =~= ls);
    assert(limited(ls) =~= ls);
}

/// Where there is no bucket for a start, no line falls there.
proof fn lemma_no_members(
    buckets: Seq<MinuteBucket>,
    lines: Seq<RawLine>,
    cutoff: int,
    length: int,
    start: int,
    add_op: spec_fn(Num, Num) -> Num,
)
    requires
        share_out(buckets, lines, cutoff, length, add_op),
        forall|k: int| 0 <= k < buckets.len() ==> (#[trigger] buckets[k]).minute != start,
    ensures
        members(lines, cutoff, length, start).len() == 0,
{
    let test = member_test(cutoff, length, start);
    if members(lines, cutoff, length, start).len() > 0 {
        let first = members(lines, cutoff, length, start)[0];
        lines.lemma_filter_pred(test, 0);
        lemma_filter_comes_from(lines, test, 0);
        let i = choose|i: int| 0 <= i < lines.len() && lines[i] == first;
        assert(lines[i].t >= cutoff);
    }
}

/// A line before the window changes no bucket.
proof fn lemma_line_outside(
    buckets: Seq<MinuteBucket>,
    lines: Seq<RawLine>,
    l: RawLine,
    cutoff: int,
    length: int,
    add_op: spec_fn(Num, Num) -> Num,
)
    requires
        share_out(buckets, lines, cutoff, length, add_op),
        l.t < cutoff,
    ensures
        share_out(buckets, lines.push(l), cutoff, length, add_op),
{
    let more = lines.push(l);
    assert forall|k: int| 0 <= k < buckets.len() implies members(
        more,
        cutoff,
        length,
        (#[trigger] buckets[k]).minute as int,
    ) == members(lines, cutoff, length, buckets[k].minute as int) by {
        lemma_members_push(lines, l, cutoff, length, buckets[k].minute as int);
    }
    assert forall|i: int| 0 <= i < more.len() && (#[trigger] more[i]).t >= cutoff implies exists|
        k: int,
    |
        0 <= k < buckets.len() && (#[trigger] buckets[k]).minute == span_start_spec(
            more[i].t as int,
            length,
        ) by {
        assert(more[i] == lines[i]);
    }
}

/// A line of the window goes to its bucket, which is there or comes in between the
/// others.
proof fn lemma_line_inside(
    old_buckets: Seq<MinuteBucket>,
    buckets: Seq<MinuteBucket>,
    slot: int,
    lines: Seq<RawLine>,
    l: RawLine,
    cutoff: int,
    length: int,
    add_op: spec_fn(Num, Num) -> Num,
)
    requires
        share_out(old_buckets, lines, cutoff, length, add_op),
        l.t >= cutoff,
        0 <= slot < buckets.len(),
        slot <= old_buckets.len(),
        forall|i: int|
            0 <= i < slot ==> (#[trigger] old_buckets[i]).minute < buckets[slot].minute,
        buckets[slot].minute == span_start_spec(l.t as int, length),
        sums_up(
            buckets[slot],
            members(lines, cutoff, length, buckets[slot].minute as int).push(l),
            add_op,
        ),
        ({
            ||| slot < old_buckets.len() && old_buckets[slot].minute == buckets[slot].minute
                && buckets == old_buckets.update(slot, buckets[slot])
            ||| buckets == old_buckets.insert(slot, buckets[slot]) && forall|i: int|
                slot <= i < old_buckets.len() ==> (#[trigger] old_buckets[i]).minute
                    > buckets[slot].minute
        }),
    ensures
        share_out(buckets, lines.push(l), cutoff, length, add_op),
{
    let more = lines.push(l);
    let there = buckets.len() == old_buckets.len();
    assert forall|k: int| 0 <= k < buckets.len() implies {
        &&& sums_up(
            #[trigger] buckets[k],
            members(more, cutoff, length, buckets[k].minute as int),
            add_op,
        )
        &&& members(more, cutoff, length, buckets[k].minute as int).len() > 0
    } by {
        lemma_members_push(lines, l, cutoff, length, buckets[k].minute as int);
        if k != slot {
            let j = if there || k < slot {
                k
            } else {
                k - 1
            };
            assert(buckets[k] == old_buckets[j]);
        }
    }
    assert forall|i: int, j: int| 0 <= i < j < buckets.len() implies (#[trigger] buckets[i]).minute
        < (#[trigger] buckets[j]).minute by {
        let a = if there || i < slot {
            i
        } else {
            i - 1
        };
        let b = if there || j < slot {
            j
        } else {
            j - 1
        };
        if i != slot {
            assert(buckets[i] == old_buckets[a]);
        }
        if j != slot {
            assert(buckets[j] == old_buckets[b]);
        }
    }
    assert forall|i: int| 0 <= i < more.len() && (#[trigger] more[i]).t >= cutoff implies exists|
        k: int,
    |
        0 <= k < buckets.len() && (#[trigger] buckets[k]).minute == span_start_spec(
            more[i].t as int,
            length,
        ) by {
        if i < lines.len() {
            assert(more[i] == lines[i]);
            let j = choose|j: int|
                0 <= j < old_buckets.len() && (#[trigger] old_buckets[j]).minute == span_start_spec(
                    lines[i].t as int,
                    length,
                );
            let k = if there || j < slot {
                j
            } else {
                j + 1
            };
            assert(buckets[k].minute == old_buckets[j].minute);
        } else {
            assert(buckets[slot].minute == span_start_spec(l.t as int, length));
        }
    }
}

/// Shares out the lines of a window into buckets.
pub fn fill_buckets<F: Fn(Num, Num) -> Num>(
    lines: &Vec<RawLine>,
    cutoff: i64,
    length: i64,
    add_op: &F,
) -> (r: Vec<MinuteBucket>)
    requires
        is_operation(*add_op),
        requests(window(lines@, cutoff as int)).len() <= u32::MAX,
        starts_fit(lines@, cutoff as int, length as int),
        length > 0,
    ensures
        share_out(r@, lines@, cutoff as int, length as int, meaning(*add_op)),
        count_over(r@, Count::Requests) == requests(window(lines@, cutoff as int)).len(),
        count_over(r@, Count::Limited) == limited(window(lines@, cutoff as int)).len(),
{
    let mut buckets: Vec<MinuteBucket> = Vec::new();
    let mut i: usize = 0;
    proof {
        reveal(Seq::filter);
        assert(lines@.take(0) =~= seq![]);
        assert(window(lines@.take(0), cutoff as int) =~= seq![]);
        assert(requests(window(lines@.take(0), cutoff as int)) =~= seq![]);
        assert(limited(window(lines@.take(0), cutoff as int)) =~= seq![]);
    }
    while i < lines.len()
        invariant
            i <= lines@.len(),
            is_operation(*add_op),
            requests(window(lines@, cutoff as int)).len() <= u32::MAX,
            starts_fit(lines@, cutoff as int, length as int),
            length > 0,
            share_out(buckets@, lines@.take(i as int), cutoff as int, length as int, meaning(*add_op)),
            count_over(buckets@, Count::Requests) == requests(
                window(lines@.take(i as int), cutoff as int),
            ).len(),
            count_over(buckets@, Count::Limited) == limited(
                window(lines@.take(i as int), cutoff as int),
            ).len(),
        decreases lines@.len() - i,
    {
        let l: &RawLine = &lines[i];
        let ghost before = lines@.take(i as int);
        let ghost old_buckets = buckets@;
        proof {
            assert(lines@.take(i + 1) =~= before.push(*l));
            lemma_filter_push(before, window_test(cutoff as int), *l);
            lemma_requests_push(window(before, cutoff as int), *l);
            lemma_requests_grow(lines@, cutoff as int, i + 1);
        }
        if l.t >= cutoff {
            let minute: i64 = span_start(l.t, length);
            let slot: usize = slot_for(&buckets, minute);
            if slot < buckets.len() && buckets[slot].minute == minute {
                proof {
                    lemma_members_push(before, *l, cutoff as int, length as int, minute as int);
                    lemma_requests_push(
                        members(before, cutoff as int, length as int, minute as int),
                        *l,
                    );
                    assert(counts(buckets@, Count::Requests)[slot as int]
                        == buckets@[slot as int].requests);
                    lemma_count_of_sum(counts(buckets@, Count::Requests), slot as int);
                }
                let b: MinuteBucket = buckets[slot].absorb(l, add_op);
                proof {
                    lemma_with_line(
                        buckets@[slot as int],
                        members(before, cutoff as int, length as int, minute as int),
                        *l,
                        meaning(*add_op),
                    );
                    lemma_count_update(buckets@, slot as int, b, Count::Requests);
                    lemma_count_update(buckets@, slot as int, b, Count::Limited);
                }
                buckets.set(slot, b);
            } else {
                proof {
                    lemma_members_push(before, *l, cutoff as int, length as int, minute as int);
                    lemma_no_members(
                        buckets@,
                        before,
                        cutoff as int,
                        length as int,
                        minute as int,
                        meaning(*add_op),
                    );
                    lemma_empty_bucket(
                        minute,
                        members(before, cutoff as int, length as int, minute as int),
                        meaning(*add_op),
                    );
                }
                let b: MinuteBucket = MinuteBucket::empty(minute).absorb(l, add_op);
                proof {
                    lemma_with_line(
                        empty_bucket(minute),
                        members(before, cutoff as int, length as int, minute as int),
                        *l,
                        meaning(*add_op),
                    );
                    lemma_count_insert(buckets@, slot as int, b, Count::Requests);
                    lemma_count_insert(buckets@, slot as int, b, Count::Limited);
                }
                buckets.insert(slot, b);
            }
            proof {
                lemma_line_inside(
                    old_buckets,
                    buckets@,
                    slot as int,
                    before,
                    *l,
                    cutoff as int,
                    length as int,
                    meaning(*add_op),
                );
            }
        } else {
            proof {
                lemma_line_outside(old_buckets, before, *l, cutoff as int, length as int, meaning(*add_op));
            }
        }
        i += 1;
    }
    assert(lines@.take(i as int) =~= lines@);
    buckets
}

// ---------------------------------------------------------------- laws

/// A window that no line falls into has no buckets.
pub proof fn old_log_leaves_no_buckets(
    buckets: Seq<MinuteBucket>,
    lines: Seq<RawLine>,
    cutoff: int,
    length: int,
    add_op: spec_fn(Num, Num) -> Num,
)
    requires
        share_out(buckets, lines, cutoff, length, add_op),
        forall|i: int| 0 <= i < lines.len() ==> (#[trigger] lines[i]).t < cutoff,
    ensures
        buckets.len() == 0,
{
    if buckets.len() > 0 {
        let start = buckets[0].minute as int;
        let test = member_test(cutoff, length, start);
        lines.lemma_filter_pred(test, 0);
        lemma_filter_comes_from(lines, test, 0);
    }
}

/// There is one way only to share out the lines of a window.
pub proof fn shares_are_unique(
    a: Seq<MinuteBucket>,
    b: Seq<MinuteBucket>,
    lines: Seq<RawLine>,
    cutoff: int,
    length: int,
    add_op: spec_fn(Num, Num) -> Num,
)
    requires
        share_out(a, lines, cutoff, length, add_op),
        share_out(b, lines, cutoff, length, add_op),
    ensures
        a == b,
{
    lemma_same_starts(a, b, lines, cutoff, length, add_op, 0);
    assert forall|k: int| 0 <= k < a.len() implies a[k] == b[k] by {
        let ls = members(lines, cutoff, length, a[k].minute as int);
        assert(a[k].minute == b[k].minute);
        assert(sums_up(a[k], ls, add_op));
        assert(sums_up(b[k], ls, add_op));
        crate::num::highest_is_unique(a[k].u5h, b[k].u5h, samples(ls, Gauge::FiveHours));
        crate::num::highest_is_unique(a[k].u7d, b[k].u7d, samples(ls, Gauge::SevenDays));
    }
    assert(a =~= b);
}

proof fn lemma_start_is_shared(
    a: Seq<MinuteBucket>,
    b: Seq<MinuteBucket>,
    lines: Seq<RawLine>,
    cutoff: int,
    length: int,
    add_op: spec_fn(Num, Num) -> Num,
    k: int,
) -> (j: int)
    requires
        share_out(a, lines, cutoff, length, add_op),
        share_out(b, lines, cutoff, length, add_op),
        0 <= k < a.len(),
    ensures
        0 <= j < b.len(),
        b[j].minute == a[k].minute,
{
    let start = a[k].minute as int;
    let test = member_test(cutoff, length, start);
    lines.lemma_filter_pred(test, 0);
    lemma_filter_comes_from(lines, test, 0);
    let i = choose|i: int|
        0 <= i < lines.len() && lines[i] == members(lines, cutoff, length, start)[0];
    assert(lines[i].t >= cutoff);
    choose|j: int|
        0 <= j < b.len() && (#[trigger] b[j]).minute == span_start_spec(lines[i].t as int, length)
}

proof fn lemma_same_starts(
    a: Seq<MinuteBucket>,
    b: Seq<MinuteBucket>,
    lines: Seq<RawLine>,
    cutoff: int,
    length: int,
    add_op: spec_fn(Num, Num) -> Num,
    k: int,
)
    requires
        share_out(a, lines, cutoff, length, add_op),
        share_out(b, lines, cutoff, length, add_op),
        0 <= k <= a.len(),
        k <= b.len(),
        forall|i: int| 0 <= i < k ==> (#[trigger] a[i]).minute == b[i].minute,
    ensures
        a.len() == b.len(),
        forall|i: int| 0 <= i < a.len() ==> (#[trigger] a[i]).minute == b[i].minute,
    decreases a.len() - k,
{
    if k < a.len() {
        let j = lemma_start_is_shared(a, b, lines, cutoff, length, add_op, k);
        if j < k {
            assert(a[j].minute == b[j].minute);
        }
        let i = lemma_start_is_shared(b, a, lines, cutoff, length, add_op, k);
        if i < k {
            assert(a[i].minute == b[i].minute);
        }
        assert(a[k].minute == b[k].minute);
        lemma_same_starts(a, b, lines, cutoff, length, add_op, k + 1);
    } else if k < b.len() {
        let i = lemma_start_is_shared(b, a, lines, cutoff, length, add_op, k);
        assert(a[i].minute == b[i].minute);
    }
}

/// Whether a time lies in the bucket that starts at `start`.
pub open spec fn lies_in(t: int, start: int, length: int) -> bool {
    start <= t < start + length && start % length == 0
}

/// A number that may be missing, added to a sum.
pub open spec fn plus(sum: Num, n: Option<Num>, add_op: spec_fn(Num, Num) -> Num) -> Num {
    match n {
        Some(n) => add_op(sum, n),
        None => add_op(sum, Num { bits: 0 }),
    }
}

/// Whether `top` is raised to a number that may be missing: it is that number where it is
/// above it, and what it was where it is not.
pub open spec fn is_raised(top: Num, before: Num, n: Option<Num>) -> bool {
    match n {
        Some(n) => if n.above_spec(before) {
            top == n
        } else {
            top == before
        },
        None => top == before,
    }
}

/// Whether a bucket is another one with one more line. Any line raises the gauges; a line
/// that is no sample of the rate limits counts as a request and adds to the sums.
pub open spec fn grew_by(
    b: MinuteBucket,
    before: MinuteBucket,
    l: RawLine,
    add_op: spec_fn(Num, Num) -> Num,
) -> bool {
    &&& b.minute == before.minute
    &&& is_raised(b.u5h, before.u5h, l.u5h)
    &&& is_raised(b.u7d, before.u7d, l.u7d)
    &&& if l.kind@ == "ratelimit"@ {
        &&& b.requests == before.requests
        &&& b.rate_limited == before.rate_limited
        &&& b.input == before.input
        &&& b.output == before.output
        &&& b.cache_read == before.cache_read
        &&& b.cache_write == before.cache_write
        &&& b.bytes_in == before.bytes_in
        &&& b.bytes_out == before.bytes_out
        &&& b.cost == before.cost
    } else {
        &&& b.requests == before.requests + 1
        &&& b.rate_limited == before.rate_limited + (if l.rate_limited || l.status == 429 {
            1int
        } else {
            0
        })
        &&& b.input == plus(before.input, l.input, add_op)
        &&& b.output == plus(before.output, l.output, add_op)
        &&& b.cache_read == plus(before.cache_read, l.cache_read, add_op)
        &&& b.cache_write == plus(before.cache_write, l.cache_write, add_op)
        &&& b.bytes_in == plus(before.bytes_in, l.bytes_in, add_op)
        &&& b.bytes_out == plus(before.bytes_out, l.bytes_out, add_op)
        &&& b.cost == plus(before.cost, l.cost, add_op)
    }
}

/// Whether a bucket holds nothing.
pub open spec fn holds_nothing(b: MinuteBucket) -> bool {
    let zero = Num { bits: 0 };
    &&& b.requests == 0
    &&& b.rate_limited == 0
    &&& b.input == zero
    &&& b.output == zero
    &&& b.cache_read == zero
    &&& b.cache_write == zero
    &&& b.bytes_in == zero
    &&& b.bytes_out == zero
    &&& b.cost == zero
    &&& b.u5h == zero
    &&& b.u7d == zero
}

/// One more line, of those not older than the cutoff, goes to the bucket that its time lies
/// in: that bucket grows by it, or comes in with nothing else, and all others stay as they
/// are. An older line changes nothing.
pub proof fn one_more_line(
    p: Seq<MinuteBucket>,
    q: Seq<MinuteBucket>,
    lines: Seq<RawLine>,
    l: RawLine,
    cutoff: int,
    length: int,
    add_op: spec_fn(Num, Num) -> Num,
)
    requires
        length > 0,
        share_out(p, lines, cutoff, length, add_op),
        share_out(q, lines.push(l), cutoff, length, add_op),
    ensures
        l.t < cutoff ==> q == p,
        l.t >= cutoff ==> {
            &&& exists|k: int| 0 <= k < q.len() && lies_in(l.t as int, (#[trigger] q[k]).minute as int, length)
            &&& forall|k: int|
                0 <= k < q.len() ==> if lies_in(l.t as int, (#[trigger] q[k]).minute as int, length) {
                    exists|before: MinuteBucket|
                        (p.contains(before) || (holds_nothing(before) && forall|j: int|
                            0 <= j < p.len() ==> (#[trigger] p[j]).minute != q[k].minute))
                            && #[trigger] grew_by(q[k], before, l, add_op)
                } else {
                    p.contains(q[k])
                }
            &&& forall|j: int|
                0 <= j < p.len() && !lies_in(l.t as int, (#[trigger] p[j]).minute as int, length)
                    ==> q.contains(p[j])
        },
{
    let more = lines.push(l);
    if l.t < cutoff {
        lemma_line_outside(p, lines, l, cutoff, length, add_op);
        shares_are_unique(p, q, more, cutoff, length, add_op);
    } else {
        let start = span_start_spec(l.t as int, length);
        crate::clock::span_holds_its_times(l.t as int, length);
        assert(more[lines.len() as int] == l);
        let k0 = choose|k: int| 0 <= k < q.len() && (#[trigger] q[k]).minute == start;
        assert(lies_in(l.t as int, q[k0].minute as int, length));
        assert forall|k: int| 0 <= k < q.len() implies if lies_in(
            l.t as int,
            (#[trigger] q[k]).minute as int,
            length,
        ) {
            exists|before: MinuteBucket|
                (p.contains(before) || (holds_nothing(before) && forall|j: int|
                    0 <= j < p.len() ==> (#[trigger] p[j]).minute != q[k].minute))
                    && #[trigger] grew_by(q[k], before, l, add_op)
        } else {
            p.contains(q[k])
        } by {
            let m = q[k].minute as int;
            lemma_members_push(lines, l, cutoff, length, m);
            lemma_lies_in_one(l.t as int, m, length);
            assert(sums_up(q[k], members(more, cutoff, length, m), add_op));
            if m == start {
                if exists|j: int| 0 <= j < p.len() && (#[trigger] p[j]).minute == m {
                    let j = choose|j: int| 0 <= j < p.len() && (#[trigger] p[j]).minute == m;
                    assert(sums_up(p[j], members(lines, cutoff, length, m), add_op));
                    lemma_grew_by(p[j], q[k], members(lines, cutoff, length, m), l, add_op);
                    assert(p.contains(p[j]));
                } else {
                    lemma_no_members(p, lines, cutoff, length, m, add_op);
                    let e = empty_bucket(q[k].minute);
                    lemma_empty_bucket(q[k].minute, members(lines, cutoff, length, m), add_op);
                    lemma_grew_by(e, q[k], members(lines, cutoff, length, m), l, add_op);
                    assert(holds_nothing(e));
                }
            } else {
                assert(members(lines, cutoff, length, m).len() > 0);
                let j = lemma_has_bucket(p, lines, cutoff, length, m, add_op);
                assert(sums_up(p[j], members(lines, cutoff, length, m), add_op));
                lemma_same_bucket(p[j], q[k], members(lines, cutoff, length, m), add_op);
                assert(p[j] == q[k]);
            }
        }
        assert forall|j: int|
            0 <= j < p.len() && !lies_in(l.t as int, (#[trigger] p[j]).minute as int, length) implies q.contains(
            p[j],
        ) by {
            let m = p[j].minute as int;
            lemma_members_push(lines, l, cutoff, length, m);
            assert(m != start);
            assert(members(lines, cutoff, length, m).len() > 0);
            let k = lemma_has_bucket(q, more, cutoff, length, m, add_op);
            assert(sums_up(q[k], members(more, cutoff, length, m), add_op));
            assert(sums_up(p[j], members(lines, cutoff, length, m), add_op));
            lemma_same_bucket(p[j], q[k], members(lines, cutoff, length, m), add_op);
            assert(q[k] == p[j]);
        }
    }
}

proof fn lemma_lies_in_one(t: int, start: int, length: int)
    requires
        length > 0,
    ensures
        lies_in(t, start, length) ==> start == span_start_spec(t, length),
{
    if lies_in(t, start, length) {
        vstd::arithmetic::div_mod::lemma_fundamental_div_mod(start, length);
        vstd::arithmetic::div_mod::lemma_fundamental_div_mod_converse(
            t,
            length,
            start / length,
            t - start,
        );
        vstd::arithmetic::mul::lemma_mul_is_commutative(start / length, length);
    }
}

proof fn lemma_same_bucket(a: MinuteBucket, b: MinuteBucket, ls: Seq<RawLine>, add_op: spec_fn(Num, Num) -> Num)
    requires
        a.minute == b.minute,
        sums_up(a, ls, add_op),
        sums_up(b, ls, add_op),
    ensures
        a == b,
{
    crate::num::highest_is_unique(a.u5h, b.u5h, samples(ls, Gauge::FiveHours));
    crate::num::highest_is_unique(a.u7d, b.u7d, samples(ls, Gauge::SevenDays));
}

proof fn lemma_has_bucket(
    buckets: Seq<MinuteBucket>,
    lines: Seq<RawLine>,
    cutoff: int,
    length: int,
    start: int,
    add_op: spec_fn(Num, Num) -> Num,
) -> (k: int)
    requires
        share_out(buckets, lines, cutoff, length, add_op),
        members(lines, cutoff, length, start).len() > 0,
    ensures
        0 <= k < buckets.len(),
        buckets[k].minute == start,
{
    let test = member_test(cutoff, length, start);
    lines.lemma_filter_pred(test, 0);
    lemma_filter_comes_from(lines, test, 0);
    let i = choose|i: int|
        0 <= i < lines.len() && lines[i] == members(lines, cutoff, length, start)[0];
    assert(lines[i].t >= cutoff);
    choose|k: int|
        0 <= k < buckets.len() && (#[trigger] buckets[k]).minute == span_start_spec(
            lines[i].t as int,
            length,
        )
}

proof fn lemma_grew_by(
    before: MinuteBucket,
    b: MinuteBucket,
    ls: Seq<RawLine>,
    l: RawLine,
    add_op: spec_fn(Num, Num) -> Num,
)
    requires
        before.minute == b.minute,
        sums_up(before, ls, add_op),
        sums_up(b, ls.push(l), add_op),
    ensures
        grew_by(b, before, l, add_op),
{
    lemma_requests_push(ls, l);
    lemma_sum_with_line(ls, l, Quantity::Input, add_op);
    lemma_sum_with_line(ls, l, Quantity::Output, add_op);
    lemma_sum_with_line(ls, l, Quantity::CacheRead, add_op);
    lemma_sum_with_line(ls, l, Quantity::CacheWrite, add_op);
    lemma_sum_with_line(ls, l, Quantity::BytesIn, add_op);
    lemma_sum_with_line(ls, l, Quantity::BytesOut, add_op);
    lemma_sum_with_line(ls, l, Quantity::Cost, add_op);
    lemma_raised(before.u5h, ls, l, Gauge::FiveHours);
    lemma_raised(before.u7d, ls, l, Gauge::SevenDays);
    crate::num::highest_is_unique(
        b.u5h,
        raised(before.u5h, l.u5h),
        samples(ls.push(l), Gauge::FiveHours),
    );
    crate::num::highest_is_unique(
        b.u7d,
        raised(before.u7d, l.u7d),
        samples(ls.push(l), Gauge::SevenDays),
    );
}

} // verus!
