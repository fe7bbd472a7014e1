//! The usage of a window of time, as the dashboard shows it.
use crate::buckets::{
    count_over, counts, fill_buckets, share_out, starts_fit, window, Count, MinuteBucket,
};
use crate::clock::{fits, MIN_MS};
use crate::json::text_of;
use crate::num::{
    highest_is_unique, highest_with_one_more, is_highest, is_operation, lemma_total_push, meaning,
    total, Num,
};
use crate::usage::{lemma_sum_of_fewer, limited, requests, RawLine};
use vstd::prelude::*;
use vstd::string::*;

verus! {

// ---------------------------------------------------------------- rate limits

/// What a line may say of the rate limits.
#[derive(Debug, Clone, Copy)]
pub enum Reading {
    U5h,
    U7d,
    Reset5h,
    Reset7d,
}

pub open spec fn reading(l: RawLine, what: Reading) -> Option<Num> {
    match what {
        Reading::U5h => l.u5h,
        Reading::U7d => l.u7d,
        Reading::Reset5h => l.reset5h,
        Reading::Reset7d => l.reset7d,
    }
}

/// What a line says of a limit.
fn said(l: &RawLine, what: Reading) -> (r: Option<Num>)
    ensures
        r == reading(*l, what),
{
    match what {
        Reading::U5h => l.u5h,
        Reading::U7d => l.u7d,
        Reading::Reset5h => l.reset5h,
        Reading::Reset7d => l.reset7d,
    }
}

/// Whether the line at `i` is the most recent of those that pass the test: none of them is
/// later, and none before it is as late.
pub open spec fn is_latest(lines: Seq<RawLine>, test: spec_fn(RawLine) -> bool, i: int) -> bool {
    &&& 0 <= i < lines.len()
    &&& test(lines[i])
    &&& forall|j: int|
        0 <= j < lines.len() && #[trigger] test(lines[j]) ==> lines[j].t < lines[i].t || (lines[j].t
            == lines[i].t && i <= j)
}

pub open spec fn reading_test(what: Reading) -> spec_fn(RawLine) -> bool {
    |l: RawLine| reading(l, what) is Some
}

pub open spec fn plan_test() -> spec_fn(RawLine) -> bool {
    |l: RawLine| l.plan is Some
}

/// Whether `n` is what the most recent of the lines that say a thing says of it; zero where
/// none does.
pub open spec fn is_latest_reading(n: Num, lines: Seq<RawLine>, what: Reading) -> bool {
    if exists|i: int| 0 <= i < lines.len() && reading(#[trigger] lines[i], what) is Some {
        exists|i: int|
            #[trigger] is_latest(lines, reading_test(what), i) && reading(lines[i], what) == Some(n)
    } else {
        n == Num::zero_spec()
    }
}

/// Whether `plan` is the one that the most recent of the lines that name one names; none
/// where no line does.
pub open spec fn is_latest_plan(plan: Option<Seq<char>>, lines: Seq<RawLine>) -> bool {
    if exists|i: int| 0 <= i < lines.len() && (#[trigger] lines[i]).plan is Some {
        exists|i: int|
            #[trigger] is_latest(lines, plan_test(), i) && plan == text_of(lines[i].plan)
    } else {
        plan is None
    }
}

/// The latest word on the rate limits.
#[derive(Debug)]
pub struct Limits {
    pub u5h: Num,
    pub u7d: Num,
    pub reset5h: Num,
    pub reset7d: Num,
    pub plan: Option<String>,
}

/// Whether `at` is the place of the most recent of the lines that pass the test, or nothing
/// where none does.
pub open spec fn is_latest_place(
    at: Option<usize>,
    lines: Seq<RawLine>,
    test: spec_fn(RawLine) -> bool,
) -> bool {
    match at {
        Some(i) => is_latest(lines, test, i as int),
        None => forall|j: int| 0 <= j < lines.len() ==> !#[trigger] test(lines[j]),
    }
}

proof fn lemma_latest_with_one_more(
    at: Option<usize>,
    lines: Seq<RawLine>,
    test: spec_fn(RawLine) -> bool,
    l: RawLine,
)
    requires
        is_latest_place(at, lines, test),
    ensures
        ({
            let more = lines.push(l);
            if test(l) && (match at {
                Some(i) => lines[i as int].t < l.t,
                None => true,
            }) {
                is_latest(more, test, lines.len() as int)
            } else {
                is_latest_place(at, more, test)
            }
        }),
{
    let more = lines.push(l);
    assert forall|j: int| 0 <= j < lines.len() implies more[j] == #[trigger] lines[j] by {
    }
    assert(more[lines.len() as int] == l);
    assert forall|j: int| 0 <= j < more.len() && #[trigger] test(more[j]) implies {
        ||| j == lines.len()
        ||| test(lines[j])
    } by {
        if j < lines.len() {
            assert(more[j] == lines[j]);
        }
    }
    if let Some(i) = at {
        assert(more[i as int] == lines[i as int]);
    }
}

/// Finds the most recent line that says a thing of the limits.
fn latest_reading(lines: &Vec<RawLine>, what: Reading) -> (r: Num)
    ensures
        is_latest_reading(r, lines@, what),
{
    let mut at: Option<usize> = None;
    let mut r: Num = Num::zero();
    let mut i: usize = 0;
    let ghost test = reading_test(what);
    while i < lines.len()
        invariant
            i <= lines@.len(),
            test == reading_test(what),
            is_latest_place(at, lines@.take(i as int), test),
            match at {
                Some(k) => k < i && reading(lines@[k as int], what) == Some(r),
                None => r == Num::zero_spec(),
            },
        decreases lines@.len() - i,
    {
        let l: &RawLine = &lines[i];
        proof {
            assert(lines@.take(i + 1) =~= lines@.take(i as int).push(*l));
            lemma_latest_with_one_more(at, lines@.take(i as int), test, *l);
        }
        if let Some(n) = said(l, what) {
            let later: bool = match at {
                Some(k) => lines[k].t < l.t,
                None => true,
            };
            if later {
                at = Some(i);
                r = n;
            }
        }
        i += 1;
    }
    proof {
        assert(lines@.take(i as int) =~= lines@);
        if let Some(k) = at {
            assert(is_latest(lines@, test, k as int));
            assert(reading(lines@[k as int], what) is Some);
        } else {
            assert forall|j: int| 0 <= j < lines@.len() implies reading(
                #[trigger] lines@[j],
                what,
            ) is None by {
                assert(!test(lines@[j]));
            }
        }
    }
    r
}

/// Finds the most recent line that names a plan.
fn latest_plan(lines: &Vec<RawLine>) -> (r: Option<String>)
    ensures
        is_latest_plan(text_of(r), lines@),
{
    let mut at: Option<usize> = None;
    let mut r: Option<String> = None;
    let mut i: usize = 0;
    let ghost test = plan_test();
    while i < lines.len()
        invariant
            i <= lines@.len(),
            test == plan_test(),
            is_latest_place(at, lines@.take(i as int), test),
            match at {
                Some(k) => k < i && r is Some && text_of(r) == text_of(lines@[k as int].plan),
                None => r is None,
            },
        decreases lines@.len() - i,
    {
        let l: &RawLine = &lines[i];
        proof {
            assert(lines@.take(i + 1) =~= lines@.take(i as int).push(*l));
            lemma_latest_with_one_more(at, lines@.take(i as int), test, *l);
        }
        if let Some(p) = &l.plan {
            let later: bool = match at {
                Some(k) => lines[k].t < l.t,
                None => true,
            };
            if later {
                at = Some(i);
                r = Some(p.clone());
            }
        }
        i += 1;
    }
    proof {
        assert(lines@.take(i as int) =~= lines@);
        if let Some(k) = at {
            assert(is_latest(lines@, test, k as int));
            assert(lines@[k as int].plan is Some);
        } else {
            assert forall|j: int| 0 <= j < lines@.len() implies (#[trigger] lines@[j]).plan is None by {
                assert(!test(lines@[j]));
            }
        }
    }
    r
}

/// Reads the latest word on the rate limits off the whole log.
pub fn latest_limits(lines: &Vec<RawLine>) -> (r: Limits)
    ensures
        is_latest_reading(r.u5h, lines@, Reading::U5h),
        is_latest_reading(r.u7d, lines@, Reading::U7d),
        is_latest_reading(r.reset5h, lines@, Reading::Reset5h),
        is_latest_reading(r.reset7d, lines@, Reading::Reset7d),
        is_latest_plan(text_of(r.plan), lines@),
{
    Limits {
        u5h: latest_reading(lines, Reading::U5h),
        u7d: latest_reading(lines, Reading::U7d),
        reset5h: latest_reading(lines, Reading::Reset5h),
        reset7d: latest_reading(lines, Reading::Reset7d),
        plan: latest_plan(lines),
    }
}

// ---------------------------------------------------------------- peaks

/// The tokens of each bucket, input and output together.
pub open spec fn tokens(buckets: Seq<MinuteBucket>, add_op: spec_fn(Num, Num) -> Num) -> Seq<Num> {
    buckets.map_values(|b: MinuteBucket| add_op(b.input, b.output))
}

/// Whether `peak` is the highest of the values and `minute` the start of the first
/// bucket that has it; both are zero where no value is above zero.
pub open spec fn is_peak(peak: Num, minute: i64, values: Seq<Num>, buckets: Seq<MinuteBucket>) -> bool {
    &&& is_highest(peak, values)
    &&& if peak == Num::zero_spec() {
        minute == 0
    } else {
        exists|k: int|
            {
                &&& 0 <= k < values.len()
                &&& #[trigger] values[k] == peak
                &&& buckets[k].minute == minute
                &&& forall|j: int| 0 <= j < k ==> #[trigger] values[j] != peak
            }
    }
}

/// Whether `peak` is the largest number of requests and `minute` the start of the first
/// bucket that has it; both are zero where there was no request.
pub open spec fn is_request_peak(peak: u32, minute: i64, buckets: Seq<MinuteBucket>) -> bool {
    &&& forall|k: int| 0 <= k < buckets.len() ==> (#[trigger] buckets[k]).requests <= peak
    &&& if peak == 0 {
        minute == 0
    } else {
        exists|k: int|
            {
                &&& 0 <= k < buckets.len()
                &&& (#[trigger] buckets[k]).requests == peak
                &&& buckets[k].minute == minute
                &&& forall|j: int| 0 <= j < k ==> (#[trigger] buckets[j]).requests < peak
            }
    }
}

/// What the buckets come to together.
#[derive(Debug, Clone, Copy)]
pub struct Overview {
    pub peak_tokens: Num,
    pub peak_minute: i64,
    pub peak_requests: u32,
    pub peak_requests_minute: i64,
    pub rate_limited_total: u32,
    pub total_bytes_in: Num,
    pub total_bytes_out: Num,
    pub total_cost: Num,
}

pub open spec fn bytes_in_of(buckets: Seq<MinuteBucket>) -> Seq<Num> {
    buckets.map_values(|b: MinuteBucket| b.bytes_in)
}

pub open spec fn bytes_out_of(buckets: Seq<MinuteBucket>) -> Seq<Num> {
    buckets.map_values(|b: MinuteBucket| b.bytes_out)
}

pub open spec fn cost_of(buckets: Seq<MinuteBucket>) -> Seq<Num> {
    buckets.map_values(|b: MinuteBucket| b.cost)
}

/// Whether an overview is that of the buckets.
pub open spec fn is_overview(
    o: Overview,
    buckets: Seq<MinuteBucket>,
    add_op: spec_fn(Num, Num) -> Num,
) -> bool {
    &&& is_peak(o.peak_tokens, o.peak_minute, tokens(buckets, add_op), buckets)
    &&& is_request_peak(o.peak_requests, o.peak_requests_minute, buckets)
    &&& o.rate_limited_total == count_over(buckets, Count::Limited)
    &&& o.total_bytes_in == total(add_op, bytes_in_of(buckets))
    &&& o.total_bytes_out == total(add_op, bytes_out_of(buckets))
    &&& o.total_cost == total(add_op, cost_of(buckets))
}

proof fn lemma_peak_with_one_more(
    peak: Num,
    minute: i64,
    values: Seq<Num>,
    buckets: Seq<MinuteBucket>,
    value: Num,
    b: MinuteBucket,
)
    requires
        is_peak(peak, minute, values, buckets),
        values.len() == buckets.len(),
    ensures
        value.above_spec(peak) ==> is_peak(value, b.minute, values.push(value), buckets.push(b)),
        !value.above_spec(peak) ==> is_peak(peak, minute, values.push(value), buckets.push(b)),
{
    let more = values.push(value);
    highest_with_one_more(peak, values, value);
    if value.above_spec(peak) {
        assert(more[values.len() as int] == value);
        assert forall|j: int| 0 <= j < values.len() implies #[trigger] more[j] != value by {
            assert(!values[j].above_spec(peak));
        }
    } else if peak != Num::zero_spec() {
        let k = choose|k: int|
            {
                &&& 0 <= k < values.len()
                &&& #[trigger] values[k] == peak
                &&& buckets[k].minute == minute
                &&& forall|j: int| 0 <= j < k ==> #[trigger] values[j] != peak
            };
        assert(more[k] == peak);
        assert(buckets.push(b)[k] == buckets[k]);
        assert forall|j: int| 0 <= j < k implies #[trigger] more[j] != peak by {
            assert(values[j] != peak);
        }
    }
}

proof fn lemma_request_peak_with_one_more(
    peak: u32,
    minute: i64,
    buckets: Seq<MinuteBucket>,
    b: MinuteBucket,
)
    requires
        is_request_peak(peak, minute, buckets),
    ensures
        b.requests > peak ==> is_request_peak(b.requests, b.minute, buckets.push(b)),
        b.requests <= peak ==> is_request_peak(peak, minute, buckets.push(b)),
{
    let more = buckets.push(b);
    assert(more[buckets.len() as int] == b);
    assert forall|j: int| 0 <= j < buckets.len() implies (#[trigger] more[j]).requests <= peak by {
        assert(more[j] == buckets[j]);
    }
    if b.requests <= peak && peak != 0 {
        let k = choose|k: int|
            {
                &&& 0 <= k < buckets.len()
                &&& (#[trigger] buckets[k]).requests == peak
                &&& buckets[k].minute == minute
                &&& forall|j: int| 0 <= j < k ==> (#[trigger] buckets[j]).requests < peak
            };
        assert(more[k] == buckets[k]);
        assert forall|j: int| 0 <= j < k implies (#[trigger] more[j]).requests < peak by {
            assert(more[j] == buckets[j]);
        }
    }
}

/// Finds the peaks of the buckets and adds them up.
pub fn overview<F: Fn(Num, Num) -> Num>(buckets: &Vec<MinuteBucket>, add_op: &F) -> (r: Overview)
    requires
        is_operation(*add_op),
        count_over(buckets@, Count::Limited) <= u32::MAX,
    ensures
        is_overview(r, buckets@, meaning(*add_op)),
{
    let mut o: Overview = Overview {
        peak_tokens: Num::zero(),
        peak_minute: 0,
        peak_requests: 0,
        peak_requests_minute: 0,
        rate_limited_total: 0,
        total_bytes_in: Num::zero(),
        total_bytes_out: Num::zero(),
        total_cost: Num::zero(),
    };
    let mut i: usize = 0;
    while i < buckets.len()
        invariant
            i <= buckets@.len(),
            is_operation(*add_op),
            count_over(buckets@, Count::Limited) <= u32::MAX,
            is_overview(o, buckets@.take(i as int), meaning(*add_op)),
        decreases buckets@.len() - i,
    {
        let b: MinuteBucket = buckets[i];
        let ghost before = buckets@.take(i as int);
        let ghost old_o = o;
        let tok: Num = add_op(b.input, b.output);
        proof {
            assert(buckets@.take(i + 1) =~= before.push(b));
            assert(before.push(b).drop_last() =~= before);
            let limited_counts = counts(buckets@, Count::Limited);
            lemma_sum_of_fewer(limited_counts, i + 1);
            assert(counts(before.push(b), Count::Limited) =~= limited_counts.take(i + 1));
            assert(counts(before, Count::Limited) =~= limited_counts.take(i + 1).drop_last());
            assert(tokens(before.push(b), meaning(*add_op)) =~= tokens(before, meaning(*add_op)).push(tok));
            assert(bytes_in_of(before.push(b)) =~= bytes_in_of(before).push(b.bytes_in));
            assert(bytes_out_of(before.push(b)) =~= bytes_out_of(before).push(b.bytes_out));
            assert(cost_of(before.push(b)) =~= cost_of(before).push(b.cost));
            lemma_total_push(meaning(*add_op), bytes_in_of(before), b.bytes_in);
            lemma_total_push(meaning(*add_op), bytes_out_of(before), b.bytes_out);
            lemma_total_push(meaning(*add_op), cost_of(before), b.cost);
            lemma_peak_with_one_more(
                o.peak_tokens,
                o.peak_minute,
                tokens(before, meaning(*add_op)),
                before,
                tok,
                b,
            );
            lemma_request_peak_with_one_more(o.peak_requests, o.peak_requests_minute, before, b);
        }
        if tok.above(o.peak_tokens) {
            o.peak_tokens = tok;
            o.peak_minute = b.minute;
        }
        if b.requests > o.peak_requests {
            o.peak_requests = b.requests;
            o.peak_requests_minute = b.minute;
        }
        o.rate_limited_total = o.rate_limited_total + b.rate_limited;
        o.total_bytes_in = add_op(o.total_bytes_in, b.bytes_in);
        o.total_bytes_out = add_op(o.total_bytes_out, b.bytes_out);
        o.total_cost = add_op(o.total_cost, b.cost);
        i += 1;
    }
    assert(buckets@.take(i as int) =~= buckets@);
    o
}

// ---------------------------------------------------------------- the snapshot

/// The usage of a window of time.
#[derive(Debug)]
pub struct Snapshot {
    /// The buckets of the window, ascending by time.
    pub minutes: Vec<MinuteBucket>,
    /// The highest number of tokens, input and output together, of one bucket.
    pub peak_tokens: Num,
    pub peak_minute: i64,
    pub peak_requests: u32,
    pub peak_requests_minute: i64,
    /// How many requests of the window were turned away by a rate limit.
    pub rate_limited_total: u32,
    /// The latest use of the rate limits, from the whole log: what the most recent line that
    /// has it says.
    pub latest_u5h: Num,
    pub latest_u7d: Num,
    /// Seconds since the epoch at which the rate limits start anew; zero if unknown.
    pub reset5h: Num,
    pub reset7d: Num,
    /// The name of the subscription, if known.
    pub plan: Option<String>,
    /// Sums over the window.
    pub total_bytes_in: Num,
    pub total_bytes_out: Num,
    pub total_cost: Num,
    /// The length of a bucket and of the window, in minutes.
    pub bucket_minutes: i64,
    pub window_minutes: i64,
    /// Where the log lies.
    pub log_path: String,
    /// Whether there is a log.
    pub has_data: bool,
}

/// The length of bucket, in minutes, that suits a window.
pub open spec fn auto_bucket(window_minutes: int) -> int {
    if window_minutes <= 360 {
        1
    } else if window_minutes <= 3 * 1440 {
        15
    } else if window_minutes <= 14 * 1440 {
        60
    } else {
        1440
    }
}

/// The length of bucket that is asked for, or the one that suits the window where none
/// or no positive one is.
pub open spec fn bucket_size(window_minutes: int, asked: Option<i64>) -> int {
    match asked {
        Some(b) if b > 0 => b as int,
        _ => auto_bucket(window_minutes),
    }
}

/// Picks the length of bucket, in minutes.
pub fn pick_bucket(window_minutes: i64, asked: Option<i64>) -> (r: i64)
    ensures
        r == bucket_size(window_minutes as int, asked),
        r > 0,
{
    match asked {
        Some(b) if b > 0 => b,
        _ => {
            if window_minutes <= 360 {
                1
            } else if window_minutes <= 3 * 1440 {
                15
            } else if window_minutes <= 14 * 1440 {
                60
            } else {
                1440
            }
        },
    }
}

/// The time at which a window that ends now begins.
pub open spec fn cutoff_of(now: int, window_minutes: int) -> int {
    now - window_minutes * MIN_MS
}

/// Whether a snapshot shows the lines of a window, in buckets of a length: the lines are
/// shared out, and peaks and sums are those of the buckets.
pub open spec fn shows_window(
    r: Snapshot,
    lines: Seq<RawLine>,
    cutoff: int,
    length: int,
    add_op: spec_fn(Num, Num) -> Num,
) -> bool {
    &&& share_out(r.minutes@, lines, cutoff, length, add_op)
    &&& count_over(r.minutes@, Count::Requests) == requests(window(lines, cutoff)).len()
    &&& count_over(r.minutes@, Count::Limited) == limited(window(lines, cutoff)).len()
    &&& is_peak(r.peak_tokens, r.peak_minute, tokens(r.minutes@, add_op), r.minutes@)
    &&& is_request_peak(r.peak_requests, r.peak_requests_minute, r.minutes@)
    &&& r.rate_limited_total == count_over(r.minutes@, Count::Limited)
    &&& r.total_bytes_in == total(add_op, bytes_in_of(r.minutes@))
    &&& r.total_bytes_out == total(add_op, bytes_out_of(r.minutes@))
    &&& r.total_cost == total(add_op, cost_of(r.minutes@))
}

/// Aggregates the last `window_minutes` of the log into buckets.
///
/// `bucket_minutes` is the length of a bucket; where it is missing or not positive, one
/// is picked that keeps the number of buckets readable. `add_op` adds two numbers up.
pub fn snapshot<F: Fn(Num, Num) -> Num>(
    lines: &Vec<RawLine>,
    now: i64,
    window_minutes: i64,
    bucket_minutes: Option<i64>,
    log_path: String,
    log_exists: bool,
    add_op: &F,
) -> (r: Snapshot)
    requires
        is_operation(*add_op),
        fits(window_minutes * MIN_MS),
        fits(cutoff_of(now as int, window_minutes as int)),
        fits(bucket_size(window_minutes as int, bucket_minutes) * MIN_MS),
        requests(window(lines@, cutoff_of(now as int, window_minutes as int))).len() <= u32::MAX,
        starts_fit(
            lines@,
            cutoff_of(now as int, window_minutes as int),
            bucket_size(window_minutes as int, bucket_minutes) * MIN_MS,
        ),
    ensures
        shows_window(
            r,
            lines@,
            cutoff_of(now as int, window_minutes as int),
            bucket_size(window_minutes as int, bucket_minutes) * MIN_MS,
            meaning(*add_op),
        ),
        is_latest_reading(r.latest_u5h, lines@, Reading::U5h),
        is_latest_reading(r.latest_u7d, lines@, Reading::U7d),
        is_latest_reading(r.reset5h, lines@, Reading::Reset5h),
        is_latest_reading(r.reset7d, lines@, Reading::Reset7d),
        is_latest_plan(text_of(r.plan), lines@),
        r.bucket_minutes == bucket_size(window_minutes as int, bucket_minutes),
        r.window_minutes == window_minutes,
        r.log_path == log_path,
        r.has_data == log_exists,
{
    let cutoff: i64 = now - window_minutes * MIN_MS;
    let bucket_min: i64 = pick_bucket(window_minutes, bucket_minutes);
    let bucket_ms: i64 = bucket_min * MIN_MS;
    let minutes: Vec<MinuteBucket> = fill_buckets(lines, cutoff, bucket_ms, add_op);
    let limits: Limits = latest_limits(lines);
    proof {
        let inside = window(lines@, cutoff as int);
        requests(inside).lemma_filter_len(crate::usage::limited_test());
    }
    let o: Overview = overview(&minutes, add_op);
    Snapshot {
        minutes,
        peak_tokens: o.peak_tokens,
        peak_minute: o.peak_minute,
        peak_requests: o.peak_requests,
        peak_requests_minute: o.peak_requests_minute,
        rate_limited_total: o.rate_limited_total,
        latest_u5h: limits.u5h,
        latest_u7d: limits.u7d,
        reset5h: limits.reset5h,
        reset7d: limits.reset7d,
        plan: limits.plan,
        total_bytes_in: o.total_bytes_in,
        total_bytes_out: o.total_bytes_out,
        total_cost: o.total_cost,
        bucket_minutes: bucket_min,
        window_minutes,
        log_path,
        has_data: log_exists,
    }
}

// ---------------------------------------------------------------- laws

/// The length of bucket that is picked leaves at most 360 whole buckets to a window,
/// unless it is a day already.
pub proof fn picked_buckets_stay_readable(window_minutes: int)
    ensures
        window_minutes <= 360 * auto_bucket(window_minutes) || auto_bucket(window_minutes) == 1440,
{
}

/// The first bucket that has a peak is the only one.
pub proof fn peak_is_unique(
    p: Num,
    q: Num,
    m: i64,
    n: i64,
    values: Seq<Num>,
    buckets: Seq<MinuteBucket>,
)
    requires
        is_peak(p, m, values, buckets),
        is_peak(q, n, values, buckets),
    ensures
        p == q,
        m == n,
{
    highest_is_unique(p, q, values);
}

/// The first bucket that has the most requests is the only one.
pub proof fn request_peak_is_unique(p: u32, q: u32, m: i64, n: i64, buckets: Seq<MinuteBucket>)
    requires
        is_request_peak(p, m, buckets),
        is_request_peak(q, n, buckets),
    ensures
        p == q,
        m == n,
{
}

/// The latest word on a limit is the most recent one: what a line says that no other line
/// with that word is later than, nor as late and before it.
pub proof fn latest_is_most_recent(lines: Seq<RawLine>, what: Reading, i: int, n: Num)
    requires
        is_latest_reading(n, lines, what),
        0 <= i < lines.len(),
        reading(lines[i], what) is Some,
        forall|j: int|
            0 <= j < lines.len() && reading(#[trigger] lines[j], what) is Some ==> lines[j].t
                < lines[i].t || (lines[j].t == lines[i].t && i <= j),
    ensures
        Some(n) == reading(lines[i], what),
{
    let k = choose|k: int|
        #[trigger] is_latest(lines, reading_test(what), k) && reading(lines[k], what) == Some(n);
    assert(reading_test(what)(lines[i]));
    assert(reading_test(what)(lines[k]));
}

/// Where no line says a thing of the limits, it is zero.
pub proof fn silent_log_says_nothing(lines: Seq<RawLine>, what: Reading, n: Num)
    requires
        is_latest_reading(n, lines, what),
        forall|i: int| 0 <= i < lines.len() ==> reading(#[trigger] lines[i], what) is None,
    ensures
        n == Num::zero_spec(),
{
}

} // verus!
