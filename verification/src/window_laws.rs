//! What holds of the snapshot of a window and of the summaries of days, in terms of the lines
//! of the log and of the time alone.
use crate::buckets::{
    grew_by, holds_nothing, lies_in, one_more_line, window, window_test, Count, MinuteBucket,
};
use crate::calendar::day_text;
use crate::clock::{span_start_spec, MIN_MS};
use crate::days::{
    comes_of, day_lines, day_test, days_cutoff, is_among, line_tokens, minute_test, minute_tokens,
    one_more_request, shows_days, summarizes, tokens_per_minute, DaySummary,
};
use crate::exact::{both, lemma_filter_twice, lemma_filters_agree};
use crate::json::text_of;
use crate::num::{total, Num};
use crate::snapshot::{
    bucket_size, cutoff_of, is_latest, is_latest_plan, is_latest_reading, plan_test, reading_test,
    shows_window, tokens, Reading, Snapshot,
};
use crate::usage::{
    lemma_filter_comes_from, limited, limited_test, request_test, requests, sum_of, RawLine,
};
use vstd::prelude::*;

verus! {

// ---------------------------------------------------------------- snapshots

/// Whether a snapshot is that of the log, as far as its buckets, peaks and sums go.
pub open spec fn is_snapshot_of(
    r: Snapshot,
    lines: Seq<RawLine>,
    now: int,
    window_minutes: int,
    bucket_minutes: Option<i64>,
    add_op: spec_fn(Num, Num) -> Num,
) -> bool {
    &&& shows_window(
        r,
        lines,
        cutoff_of(now, window_minutes),
        bucket_size(window_minutes, bucket_minutes) * MIN_MS,
        add_op,
    )
    &&& r.bucket_minutes == bucket_size(window_minutes, bucket_minutes)
}

/// A line counts for a window if it is not older than the window is long, to the millisecond.
/// Such a line, when it comes to the log, goes to the bucket that its time lies in: that
/// bucket grows by it, or comes in with it alone, and all others stay. An older line changes
/// no bucket.
pub proof fn window_holds_what_is_young_enough(
    r: Snapshot,
    s: Snapshot,
    lines: Seq<RawLine>,
    l: RawLine,
    now: int,
    window_minutes: int,
    bucket_minutes: Option<i64>,
    add_op: spec_fn(Num, Num) -> Num,
)
    requires
        is_snapshot_of(r, lines, now, window_minutes, bucket_minutes, add_op),
        is_snapshot_of(s, lines.push(l), now, window_minutes, bucket_minutes, add_op),
    ensures
        now - l.t > window_minutes * 60_000 ==> s.minutes@ == r.minutes@,
        now - l.t <= window_minutes * 60_000 ==> {
            let (p, q, length) = (r.minutes@, s.minutes@, s.bucket_minutes * 60_000);
            &&& exists|k: int|
                0 <= k < q.len() && lies_in(l.t as int, (#[trigger] q[k]).minute as int, length)
            &&& forall|k: int|
                0 <= k < q.len() ==> if lies_in(l.t as int, (#[trigger] q[k]).minute as int, length) {
                    exists|before: MinuteBucket|
                        (p.contains(before) || (holds_nothing(before) && forall|j: int|
                            0 <= j < p.len() ==> (#[trigger] p[j]).minute != q[k].minute))
                            && #[trigger] grew_by(q[k], before, l, add_op)
                } else {
                    p.contains(q[k])
                }
            &&& forall|j: int|
                0 <= j < p.len() && !lies_in(l.t as int, (#[trigger] p[j]).minute as int, length)
                    ==> q.contains(p[j])
        },
{
    one_more_line(
        r.minutes@,
        s.minutes@,
        lines,
        l,
        cutoff_of(now, window_minutes),
        bucket_size(window_minutes, bucket_minutes) * MIN_MS,
        add_op,
    );
}

/// A log without lines has no buckets, and buckets ascend in time.
pub proof fn buckets_ascend_from_nothing(
    r: Snapshot,
    lines: Seq<RawLine>,
    now: int,
    window_minutes: int,
    bucket_minutes: Option<i64>,
    add_op: spec_fn(Num, Num) -> Num,
)
    requires
        is_snapshot_of(r, lines, now, window_minutes, bucket_minutes, add_op),
    ensures
        lines.len() == 0 ==> r.minutes@.len() == 0,
        forall|i: int, j: int|
            0 <= i < j < r.minutes@.len() ==> (#[trigger] r.minutes@[i]).minute < (
            #[trigger] r.minutes@[j]).minute,
{
    if lines.len() == 0 {
        crate::buckets::old_log_leaves_no_buckets(
            r.minutes@,
            lines,
            cutoff_of(now, window_minutes),
            bucket_size(window_minutes, bucket_minutes) * MIN_MS,
            add_op,
        );
    }
}

/// The snapshot counts the requests that are not older than the window is long, and those of
/// them that were turned away.
pub proof fn window_counts_its_requests(
    r: Snapshot,
    lines: Seq<RawLine>,
    now: int,
    window_minutes: int,
    bucket_minutes: Option<i64>,
    add_op: spec_fn(Num, Num) -> Num,
)
    requires
        is_snapshot_of(r, lines, now, window_minutes, bucket_minutes, add_op),
    ensures
        sum_of(r.minutes@.map_values(|b: MinuteBucket| b.requests as int)) == lines.filter(
            |l: RawLine| now - l.t <= window_minutes * 60_000 && l.kind@ != "ratelimit"@,
        ).len(),
        r.rate_limited_total == lines.filter(
            |l: RawLine|
                now - l.t <= window_minutes * 60_000 && l.kind@ != "ratelimit"@ && (l.rate_limited
                    || l.status == 429),
        ).len(),
{
    let cutoff = cutoff_of(now, window_minutes);
    let p = |l: RawLine| now - l.t <= window_minutes * 60_000 && l.kind@ != "ratelimit"@;
    let q = |l: RawLine|
        now - l.t <= window_minutes * 60_000 && l.kind@ != "ratelimit"@ && (l.rate_limited
            || l.status == 429);
    lemma_requests_and_limited(lines, cutoff, p, q);
    assert(r.minutes@.map_values(|b: MinuteBucket| b.requests as int) =~= crate::buckets::counts(
        r.minutes@,
        Count::Requests,
    ));
}

proof fn lemma_requests_and_limited(
    lines: Seq<RawLine>,
    cutoff: int,
    p: spec_fn(RawLine) -> bool,
    q: spec_fn(RawLine) -> bool,
)
    requires
        forall|l: RawLine| #[trigger] p(l) == (l.t >= cutoff && l.kind@ != "ratelimit"@),
        forall|l: RawLine|
            #[trigger] q(l) == (l.t >= cutoff && l.kind@ != "ratelimit"@ && (l.rate_limited
                || l.status == 429)),
    ensures
        requests(window(lines, cutoff)) == lines.filter(p),
        limited(window(lines, cutoff)) == lines.filter(q),
{
    let pair = both(window_test(cutoff), request_test());
    lemma_filter_twice(lines, window_test(cutoff), request_test());
    lemma_filter_twice(lines, pair, limited_test());
    lemma_filters_agree(lines, pair, p);
    lemma_filters_agree(lines, both(pair, limited_test()), q);
}

/// No bucket has more tokens, input and output together, than the peak, and none has more
/// requests than the peak of these; the first bucket that reaches a peak is named. Without a
/// bucket above zero there is no peak.
pub proof fn peaks_are_the_highest(
    r: Snapshot,
    lines: Seq<RawLine>,
    now: int,
    window_minutes: int,
    bucket_minutes: Option<i64>,
    add_op: spec_fn(Num, Num) -> Num,
    k: int,
)
    requires
        is_snapshot_of(r, lines, now, window_minutes, bucket_minutes, add_op),
        0 <= k < r.minutes@.len(),
    ensures
        !add_op(r.minutes@[k].input, r.minutes@[k].output).above_spec(r.peak_tokens),
        r.minutes@[k].requests <= r.peak_requests,
        r.peak_tokens.bits == 0 && r.peak_minute == 0 || {
            &&& r.peak_tokens.above_spec(Num { bits: 0 })
            &&& exists|i: int|
                {
                    &&& 0 <= i < r.minutes@.len()
                    &&& (#[trigger] r.minutes@[i]).minute == r.peak_minute
                    &&& add_op(r.minutes@[i].input, r.minutes@[i].output) == r.peak_tokens
                    &&& forall|j: int|
                        0 <= j < i ==> add_op(
                            (#[trigger] r.minutes@[j]).input,
                            r.minutes@[j].output,
                        ) != r.peak_tokens
                }
        },
        r.peak_requests == 0 && r.peak_requests_minute == 0 || exists|i: int|
            {
                &&& 0 <= i < r.minutes@.len()
                &&& (#[trigger] r.minutes@[i]).minute == r.peak_requests_minute
                &&& r.minutes@[i].requests == r.peak_requests
                &&& forall|j: int|
                    0 <= j < i ==> (#[trigger] r.minutes@[j]).requests < r.peak_requests
            },
{
    let buckets = r.minutes@;
    let values = tokens(buckets, add_op);
    assert(values[k] == add_op(buckets[k].input, buckets[k].output));
    if r.peak_tokens != (Num { bits: 0 }) {
        let i = choose|i: int|
            {
                &&& 0 <= i < values.len()
                &&& #[trigger] values[i] == r.peak_tokens
                &&& buckets[i].minute == r.peak_minute
                &&& forall|j: int| 0 <= j < i ==> #[trigger] values[j] != r.peak_tokens
            };
        assert(buckets[i].minute == r.peak_minute);
        assert forall|j: int| 0 <= j < i implies add_op(
            (#[trigger] buckets[j]).input,
            buckets[j].output,
        ) != r.peak_tokens by {
            assert(values[j] != r.peak_tokens);
        }
    }
}

/// The sums of a snapshot are those of its buckets, added up one after the other.
pub proof fn sums_are_those_of_the_buckets(
    r: Snapshot,
    lines: Seq<RawLine>,
    now: int,
    window_minutes: int,
    bucket_minutes: Option<i64>,
    add_op: spec_fn(Num, Num) -> Num,
)
    requires
        is_snapshot_of(r, lines, now, window_minutes, bucket_minutes, add_op),
    ensures
        r.total_bytes_in == total(add_op, r.minutes@.map_values(|b: MinuteBucket| b.bytes_in)),
        r.total_bytes_out == total(add_op, r.minutes@.map_values(|b: MinuteBucket| b.bytes_out)),
        r.total_cost == total(add_op, r.minutes@.map_values(|b: MinuteBucket| b.cost)),
{
    assert(crate::snapshot::bytes_in_of(r.minutes@) =~= r.minutes@.map_values(
        |b: MinuteBucket| b.bytes_in,
    ));
    assert(crate::snapshot::bytes_out_of(r.minutes@) =~= r.minutes@.map_values(
        |b: MinuteBucket| b.bytes_out,
    ));
    assert(crate::snapshot::cost_of(r.minutes@) =~= r.minutes@.map_values(
        |b: MinuteBucket| b.cost,
    ));
}

/// A bucket is as long as is asked for; where nothing or nothing positive is, the longer the
/// window, the longer the bucket: a minute for windows of up to six hours, a quarter of an
/// hour for up to three days, an hour for up to two weeks, and a day beyond.
pub proof fn buckets_suit_the_window(window_minutes: int, asked: Option<i64>)
    ensures
        asked matches Some(b) && b > 0 ==> bucket_size(window_minutes, asked) == asked.unwrap(),
        !(asked matches Some(b) && b > 0) ==> {
            let b = bucket_size(window_minutes, asked);
            &&& b == 1 || b == 15 || b == 60 || b == 1440
            &&& b == 1 <==> window_minutes <= 6 * 60
            &&& b <= 15 <==> window_minutes <= 3 * 24 * 60
            &&& b <= 60 <==> window_minutes <= 14 * 24 * 60
        },
{
}

/// Whether line `i` is the most recent with a word, by the times of those that have it.
pub open spec fn is_most_recent(ts: Seq<Option<int>>, i: int) -> bool {
    &&& 0 <= i < ts.len()
    &&& ts[i] is Some
    &&& forall|j: int|
        0 <= j < ts.len() && (#[trigger] ts[j]) is Some ==> ts[j].unwrap() < ts[i].unwrap() || (
        ts[j] == ts[i] && i <= j)
}

pub open spec fn time_if(l: RawLine, has_it: bool) -> Option<int> {
    if has_it {
        Some(l.t as int)
    } else {
        None
    }
}

/// Whether `n` is the most recent of the values that some lines have, or zero where none has
/// one.
pub open spec fn is_most_recent_of(n: Num, lines: Seq<RawLine>, values: Seq<Option<Num>>) -> bool {
    let ts = Seq::new(lines.len(), |i: int| time_if(lines[i], values[i] is Some));
    ||| (exists|i: int| #[trigger] is_most_recent(ts, i) && values[i] == Some(n))
    ||| n.bits == 0 && forall|i: int| 0 <= i < values.len() ==> (#[trigger] values[i]) is None
}

proof fn lemma_most_recent(n: Num, lines: Seq<RawLine>, what: Reading, values: Seq<Option<Num>>)
    requires
        is_latest_reading(n, lines, what),
        values.len() == lines.len(),
        forall|i: int|
            0 <= i < lines.len() ==> #[trigger] values[i] == crate::snapshot::reading(
                lines[i],
                what,
            ),
    ensures
        is_most_recent_of(n, lines, values),
{
    let ts = Seq::new(lines.len(), |i: int| time_if(lines[i], values[i] is Some));
    if exists|i: int|
        0 <= i < lines.len() && crate::snapshot::reading(#[trigger] lines[i], what) is Some {
        let i = choose|i: int|
            #[trigger] is_latest(lines, reading_test(what), i) && crate::snapshot::reading(
                lines[i],
                what,
            ) == Some(n);
        assert(values[i] == Some(n));
        assert forall|j: int| 0 <= j < ts.len() && (#[trigger] ts[j]) is Some implies ts[j].unwrap()
            < ts[i].unwrap() || (ts[j] == ts[i] && i <= j) by {
            assert(values[j] is Some);
            assert(reading_test(what)(lines[j]));
        }
        assert(is_most_recent(ts, i));
    }
}

/// The latest word on each of the limits, and on the plan, is that of the most recent line
/// that has it, wherever it stands in the log.
pub proof fn latest_words_are_the_most_recent(r: Snapshot, lines: Seq<RawLine>)
    requires
        is_latest_reading(r.latest_u5h, lines, Reading::U5h),
        is_latest_reading(r.latest_u7d, lines, Reading::U7d),
        is_latest_reading(r.reset5h, lines, Reading::Reset5h),
        is_latest_reading(r.reset7d, lines, Reading::Reset7d),
        is_latest_plan(text_of(r.plan), lines),
    ensures
        is_most_recent_of(r.latest_u5h, lines, lines.map_values(|l: RawLine| l.u5h)),
        is_most_recent_of(r.latest_u7d, lines, lines.map_values(|l: RawLine| l.u7d)),
        is_most_recent_of(r.reset5h, lines, lines.map_values(|l: RawLine| l.reset5h)),
        is_most_recent_of(r.reset7d, lines, lines.map_values(|l: RawLine| l.reset7d)),
        ({
            let ts = Seq::new(lines.len(), |i: int| time_if(lines[i], lines[i].plan is Some));
            match r.plan {
                Some(p) => exists|i: int|
                    #[trigger] is_most_recent(ts, i) && lines[i].plan.unwrap()@ == p@,
                None => forall|i: int| 0 <= i < lines.len() ==> (#[trigger] lines[i]).plan is None,
            }
        }),
{
    lemma_most_recent(
        r.latest_u5h,
        lines,
        Reading::U5h,
        lines.map_values(|l: RawLine| l.u5h),
    );
    lemma_most_recent(
        r.latest_u7d,
        lines,
        Reading::U7d,
        lines.map_values(|l: RawLine| l.u7d),
    );
    lemma_most_recent(
        r.reset5h,
        lines,
        Reading::Reset5h,
        lines.map_values(|l: RawLine| l.reset5h),
    );
    lemma_most_recent(
        r.reset7d,
        lines,
        Reading::Reset7d,
        lines.map_values(|l: RawLine| l.reset7d),
    );
    let ts = Seq::new(lines.len(), |i: int| time_if(lines[i], lines[i].plan is Some));
    if exists|i: int| 0 <= i < lines.len() && (#[trigger] lines[i]).plan is Some {
        let i = choose|i: int|
            #[trigger] is_latest(lines, plan_test(), i) && text_of(r.plan) == text_of(lines[i].plan);
        assert forall|j: int| 0 <= j < ts.len() && (#[trigger] ts[j]) is Some implies ts[j].unwrap()
            < ts[i].unwrap() || (ts[j] == ts[i] && i <= j) by {
            assert(plan_test()(lines[j]));
        }
        assert(plan_test()(lines[i]));
        assert(is_most_recent(ts, i));
    }
}

// ---------------------------------------------------------------- days

/// A request counts for the last days if it is not older than these are long, to the
/// millisecond. Such a request, when it comes to the log, goes to the summary of its day:
/// that one grows by it, or comes in with it alone, and all others stay. Any other line
/// changes no summary.
pub proof fn days_hold_what_is_young_enough(
    p: Seq<DaySummary>,
    q: Seq<DaySummary>,
    lines: Seq<RawLine>,
    l: RawLine,
    now: int,
    days: int,
    add_op: spec_fn(Num, Num) -> Num,
)
    requires
        shows_days(p, lines, days_cutoff(now, days), add_op),
        shows_days(q, lines.push(l), days_cutoff(now, days), add_op),
    ensures
        ({
            let it_counts = now - l.t <= days * 86_400_000 && l.kind@ != "ratelimit"@;
            &&& it_counts ==> exists|k: int|
                0 <= k < q.len() && (#[trigger] q[k]).day@ == day_text(l.t as int)
            &&& forall|k: int|
                0 <= k < q.len() ==> comes_of(#[trigger] q[k], p, l, it_counts, add_op)
            &&& forall|j: int|
                0 <= j < p.len() && !(it_counts && p[j].day@ == day_text(l.t as int))
                    ==> is_among(#[trigger] p[j], q)
        }),
{
    let cutoff = days_cutoff(now, days);
    assert((l.t >= cutoff) == (now - l.t <= days * 86_400_000));
    one_more_request(p, q, lines, l, cutoff, add_op);
}

/// The summaries count the requests that are not older than the days are long, and those of
/// them that were turned away.
pub proof fn days_count_what_is_young_enough(
    list: Seq<DaySummary>,
    lines: Seq<RawLine>,
    now: int,
    days: int,
    add_op: spec_fn(Num, Num) -> Num,
)
    requires
        shows_days(list, lines, days_cutoff(now, days), add_op),
    ensures
        sum_of(list.map_values(|d: DaySummary| d.requests as int)) == lines.filter(
            |l: RawLine| now - l.t <= days * 86_400_000 && l.kind@ != "ratelimit"@,
        ).len(),
        sum_of(list.map_values(|d: DaySummary| d.rate_limited as int)) == lines.filter(
            |l: RawLine|
                now - l.t <= days * 86_400_000 && l.kind@ != "ratelimit"@ && (l.rate_limited
                    || l.status == 429),
        ).len(),
        lines.len() == 0 ==> list.len() == 0,
{
    let cutoff = days_cutoff(now, days);
    let p = |l: RawLine| now - l.t <= days * 86_400_000 && l.kind@ != "ratelimit"@;
    let q = |l: RawLine|
        now - l.t <= days * 86_400_000 && l.kind@ != "ratelimit"@ && (l.rate_limited || l.status
            == 429);
    lemma_requests_and_limited(lines, cutoff, p, q);
    if lines.len() == 0 {
        crate::days::old_log_leaves_no_days(list, lines, cutoff, add_op);
    }
}

/// The tokens that a line reports, input and output together.
pub open spec fn tokens_of(l: RawLine, add_op: spec_fn(Num, Num) -> Num) -> Num {
    let zero = Num { bits: 0 };
    add_op(
        match l.input {
            Some(n) => n,
            None => zero,
        },
        match l.output {
            Some(n) => n,
            None => zero,
        },
    )
}

/// The tokens of the minute that `t` falls into, of the requests of the last days.
pub open spec fn tokens_in_minute(
    lines: Seq<RawLine>,
    now: int,
    days: int,
    t: int,
    add_op: spec_fn(Num, Num) -> Num,
) -> Num {
    total(
        add_op,
        lines.filter(
            |l: RawLine|
                now - l.t <= days * 86_400_000 && l.kind@ != "ratelimit"@ && l.t as int / 60_000
                    == t / 60_000,
        ).map_values(|l: RawLine| tokens_of(l, add_op)),
    )
}

/// The peak of a day is the highest number of tokens of one of its minutes: no minute that a
/// request of the day falls into has more, and one has that many, unless none is above zero.
pub proof fn daily_peak_is_that_of_a_minute(
    list: Seq<DaySummary>,
    lines: Seq<RawLine>,
    now: int,
    days: int,
    add_op: spec_fn(Num, Num) -> Num,
    k: int,
)
    requires
        shows_days(list, lines, days_cutoff(now, days), add_op),
        0 <= k < list.len(),
    ensures
        forall|i: int|
            0 <= i < lines.len() && now - (#[trigger] lines[i]).t <= days * 86_400_000
                && lines[i].kind@ != "ratelimit"@ && day_text(lines[i].t as int) == list[k].day@
                ==> !tokens_in_minute(lines, now, days, lines[i].t as int, add_op).above_spec(
                list[k].peak_tpm,
            ),
        list[k].peak_tpm.bits == 0 || (list[k].peak_tpm.above_spec(Num { bits: 0 }) && exists|i: int|
            {
                &&& 0 <= i < lines.len()
                &&& now - (#[trigger] lines[i]).t <= days * 86_400_000
                &&& lines[i].kind@ != "ratelimit"@
                &&& day_text(lines[i].t as int) == list[k].day@
                &&& tokens_in_minute(lines, now, days, lines[i].t as int, add_op)
                    == list[k].peak_tpm
            }),
{
    let cutoff = days_cutoff(now, days);
    let day = list[k].day@;
    let ls = day_lines(lines, cutoff, day);
    let per_minute = tokens_per_minute(ls, add_op);
    assert(summarizes(list[k], day_lines(lines, cutoff, list[k].day@), add_op));
    assert forall|i: int|
        0 <= i < lines.len() && now - (#[trigger] lines[i]).t <= days * 86_400_000 && lines[i].kind@
            != "ratelimit"@ && day_text(
            lines[i].t as int,
        ) == list[k].day@ implies !tokens_in_minute(
        lines,
        now,
        days,
        lines[i].t as int,
        add_op,
    ).above_spec(list[k].peak_tpm) by {
        let l = lines[i];
        assert(ls.contains(l)) by {
            lines.lemma_filter_contains(day_test(cutoff, day), i);
        }
        let m = choose|m: int| 0 <= m < ls.len() && ls[m] == l;
        lemma_tokens_in_minute(lines, now, days, l, day, add_op);
        assert(per_minute[m] == tokens_in_minute(lines, now, days, l.t as int, add_op));
    }
    let peak = list[k].peak_tpm;
    if peak != (Num { bits: 0 }) {
        let m = choose|m: int| 0 <= m < per_minute.len() && per_minute[m] == peak;
        let l = ls[m];
        lines.lemma_filter_pred(day_test(cutoff, day), m);
        lemma_filter_comes_from(lines, day_test(cutoff, day), m);
        let i = choose|i: int| 0 <= i < lines.len() && lines[i] == l;
        lemma_tokens_in_minute(lines, now, days, l, day, add_op);
        assert(tokens_in_minute(lines, now, days, lines[i].t as int, add_op) == peak);
    }
}

proof fn lemma_tokens_in_minute(
    lines: Seq<RawLine>,
    now: int,
    days: int,
    l: RawLine,
    day: Seq<char>,
    add_op: spec_fn(Num, Num) -> Num,
)
    requires
        day_text(l.t as int) == day,
    ensures
        minute_tokens(
            day_lines(lines, days_cutoff(now, days), day),
            span_start_spec(l.t as int, MIN_MS as int),
            add_op,
        ) == tokens_in_minute(lines, now, days, l.t as int, add_op),
{
    let cutoff = days_cutoff(now, days);
    let start = span_start_spec(l.t as int, MIN_MS as int);
    let t = l.t as int;
    let p = both(day_test(cutoff, day), minute_test(start));
    let q = |x: RawLine|
        now - x.t <= days * 86_400_000 && x.kind@ != "ratelimit"@ && x.t as int / 60_000 == t
            / 60_000;
    lemma_filter_twice(lines, day_test(cutoff, day), minute_test(start));
    assert forall|i: int| 0 <= i < lines.len() implies p(#[trigger] lines[i]) == q(lines[i]) by {
        let u = lines[i].t as int;
        crate::exact::lemma_same_minute(t, u);
        if u / 60_000 == t / 60_000 {
            crate::exact::lemma_minute_has_one_day(u, t);
        }
    }
    lemma_filters_agree(lines, p, q);
    assert(line_tokens(lines.filter(q), add_op) =~= lines.filter(q).map_values(
        |x: RawLine| tokens_of(x, add_op),
    ));
}

} // verus!
