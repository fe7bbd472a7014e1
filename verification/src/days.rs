//! The usage of each day, for the calendar.
use crate::calendar::{day_of, day_text, day_texts_follow_time, local_day, FIRST_MS, LAST_MS};
use crate::clock::{fits, span_start, span_start_spec, MIN_MS};
use crate::num::{
    highest_is_unique, highest_with_one_more, is_highest, is_operation, lemma_total_push, meaning,
    raise, total, Num,
};
use crate::buckets::{lemma_requests_grow, plus, window, window_test};
use crate::text::{comes_before, text_before, text_order_is_total, text_order_is_transitive};
use crate::usage::{
    add_known, amount, amounts, is_limited, is_ratelimit_sample, is_request, known_or_zero,
    lemma_amounts_push, lemma_count_of_sum, lemma_filter_comes_from, lemma_filter_push,
    lemma_requests_push, lemma_sum_insert, lemma_sum_update, limited, limited_test, requests,
    sum_of, Quantity, RawLine,
};
use vstd::prelude::*;
use vstd::string::*;

verus! {

/// The usage of one day.
#[derive(Debug)]
pub struct DaySummary {
    /// The day, as `YYYY-MM-DD`.
    pub day: String,
    pub input: Num,
    pub output: Num,
    pub cache_read: Num,
    pub cache_write: Num,
    pub requests: u32,
    pub rate_limited: u32,
    /// The highest number of tokens, input and output together, of one minute.
    pub peak_tpm: Num,
}

pub open spec fn day_test(cutoff: int, day: Seq<char>) -> spec_fn(RawLine) -> bool {
    |l: RawLine| l.t >= cutoff && is_request(l) && day_text(l.t as int) == day
}

/// The requests of a day, of those that are not older than the cutoff.
pub open spec fn day_lines(lines: Seq<RawLine>, cutoff: int, day: Seq<char>) -> Seq<RawLine> {
    lines.filter(day_test(cutoff, day))
}

pub open spec fn minute_test(minute: int) -> spec_fn(RawLine) -> bool {
    |l: RawLine| span_start_spec(l.t as int, MIN_MS as int) == minute
}

/// The tokens of each line, input and output together.
pub open spec fn line_tokens(ls: Seq<RawLine>, add_op: spec_fn(Num, Num) -> Num) -> Seq<Num> {
    ls.map_values(|l: RawLine| add_op(amount(l, Quantity::Input), amount(l, Quantity::Output)))
}

/// The tokens of one minute.
pub open spec fn minute_tokens(
    ls: Seq<RawLine>,
    minute: int,
    add_op: spec_fn(Num, Num) -> Num,
) -> Num {
    total(add_op, line_tokens(ls.filter(minute_test(minute)), add_op))
}

/// The tokens of the minutes that the lines fall into.
pub open spec fn tokens_per_minute(ls: Seq<RawLine>, add_op: spec_fn(Num, Num) -> Num) -> Seq<Num> {
    ls.map_values(
        |l: RawLine| minute_tokens(ls, span_start_spec(l.t as int, MIN_MS as int), add_op),
    )
}

/// Whether a summary has the sums of the lines, whatever its peak.
pub open spec fn has_sums(s: DaySummary, ls: Seq<RawLine>, add_op: spec_fn(Num, Num) -> Num) -> bool {
    &&& s.input == total(add_op, amounts(ls, Quantity::Input))
    &&& s.output == total(add_op, amounts(ls, Quantity::Output))
    &&& s.cache_read == total(add_op, amounts(ls, Quantity::CacheRead))
    &&& s.cache_write == total(add_op, amounts(ls, Quantity::CacheWrite))
    &&& s.requests == ls.len()
    &&& s.rate_limited == ls.filter(limited_test()).len()
}

/// Whether a summary is that of the lines.
pub open spec fn summarizes(
    s: DaySummary,
    ls: Seq<RawLine>,
    add_op: spec_fn(Num, Num) -> Num,
) -> bool {
    has_sums(s, ls, add_op) && is_highest(s.peak_tpm, tokens_per_minute(ls, add_op))
}

/// The number of requests of all summaries together.
pub open spec fn requests_over(days: Seq<DaySummary>) -> int {
    sum_of(days.map_values(|d: DaySummary| d.requests as int))
}

/// The number of requests that were turned away, of all summaries together.
pub open spec fn limited_over(days: Seq<DaySummary>) -> int {
    sum_of(days.map_values(|d: DaySummary| d.rate_limited as int))
}

/// Whether the minutes that the requests since the cutoff fall into start at times that can
/// be held.
pub open spec fn minutes_fit(lines: Seq<RawLine>, cutoff: int) -> bool {
    forall|i: int|
        0 <= i < lines.len() && (#[trigger] lines[i]).t >= cutoff && is_request(lines[i]) ==> fits(
            span_start_spec(lines[i].t as int, MIN_MS as int),
        )
}

/// Whether the summaries are those of the days since the cutoff: they ascend, each is
/// that of its day, none is of a day without requests, and no request is without the
/// summary of its day.
pub open spec fn are_summaries(
    days: Seq<DaySummary>,
    lines: Seq<RawLine>,
    cutoff: int,
    add_op: spec_fn(Num, Num) -> Num,
) -> bool {
    &&& forall|i: int, j: int|
        0 <= i < j < days.len() ==> text_before((#[trigger] days[i]).day@, (#[trigger] days[j]).day@)
    &&& forall|k: int|
        0 <= k < days.len() ==> summarizes(
            #[trigger] days[k],
            day_lines(lines, cutoff, days[k].day@),
            add_op,
        )
    &&& forall|k: int|
        0 <= k < days.len() ==> day_lines(lines, cutoff, (#[trigger] days[k]).day@).len() > 0
    &&& forall|i: int|
        0 <= i < lines.len() && (#[trigger] lines[i]).t >= cutoff && is_request(lines[i])
            ==> exists|k: int|
            0 <= k < days.len() && (#[trigger] days[k]).day@ == day_text(lines[i].t as int)
}

/// Whether the summaries show the days since the cutoff, and count all requests of theirs.
pub open spec fn shows_days(
    days: Seq<DaySummary>,
    lines: Seq<RawLine>,
    cutoff: int,
    add_op: spec_fn(Num, Num) -> Num,
) -> bool {
    &&& are_summaries(days, lines, cutoff, add_op)
    &&& requests_over(days) == requests(window(lines, cutoff)).len()
    &&& limited_over(days) == limited(window(lines, cutoff)).len()
}

// ---------------------------------------------------------------- one day

/// The tokens of a minute so far.
#[derive(Debug, Clone, Copy)]
struct MinuteTokens {
    minute: i64,
    tokens: Num,
}

/// A day that is being summed up: its sums, and the tokens of its minutes.
#[derive(Debug)]
struct OpenDay {
    summary: DaySummary,
    minutes: Vec<MinuteTokens>,
}

spec fn distinct(minutes: Seq<MinuteTokens>) -> bool {
    forall|i: int, j: int|
        0 <= i < j < minutes.len() ==> (#[trigger] minutes[i]).minute != (
        #[trigger] minutes[j]).minute
}

spec fn has_minutes(
    minutes: Seq<MinuteTokens>,
    ls: Seq<RawLine>,
    add_op: spec_fn(Num, Num) -> Num,
) -> bool {
    &&& distinct(minutes)
    &&& forall|k: int|
        0 <= k < minutes.len() ==> (#[trigger] minutes[k]).tokens == minute_tokens(
            ls,
            minutes[k].minute as int,
            add_op,
        )
    &&& forall|k: int|
        0 <= k < minutes.len() ==> ls.filter(minute_test((#[trigger] minutes[k]).minute as int)).len()
            > 0
    &&& forall|i: int|
        0 <= i < ls.len() ==> exists|k: int|
            0 <= k < minutes.len() && (#[trigger] minutes[k]).minute == span_start_spec(
                (#[trigger] ls[i]).t as int,
                MIN_MS as int,
            )
}

spec fn is_open(d: OpenDay, ls: Seq<RawLine>, add_op: spec_fn(Num, Num) -> Num) -> bool {
    has_sums(d.summary, ls, add_op) && has_minutes(d.minutes@, ls, add_op)
}

proof fn lemma_sums_push(ls: Seq<RawLine>, l: RawLine, q: Quantity, add_op: spec_fn(Num, Num) -> Num)
    ensures
        total(add_op, amounts(ls.push(l), q)) == add_op(total(add_op, amounts(ls, q)),
            amount(l, q),
        ),
{
    lemma_amounts_push(ls, l, q);
    lemma_total_push(add_op, amounts(ls, q), amount(l, q));
}

proof fn lemma_minute_push(
    ls: Seq<RawLine>,
    l: RawLine,
    minute: int,
    add_op: spec_fn(Num, Num) -> Num,
)
    ensures
        ls.push(l).filter(minute_test(minute)) == if span_start_spec(l.t as int, MIN_MS as int)
            == minute {
            ls.filter(minute_test(minute)).push(l)
        } else {
            ls.filter(minute_test(minute))
        },
        minute_tokens(ls.push(l), minute, add_op) == if span_start_spec(l.t as int, MIN_MS as int)
            == minute {
            add_op(minute_tokens(ls, minute, add_op),
                add_op(amount(l, Quantity::Input), amount(l, Quantity::Output)),
            )
        } else {
            minute_tokens(ls, minute, add_op)
        },
{
    lemma_filter_push(ls, minute_test(minute), l);
    let part = ls.filter(minute_test(minute));
    let tokens = add_op(amount(l, Quantity::Input), amount(l, Quantity::Output));
    assert(line_tokens(part.push(l), add_op) =~= line_tokens(part, add_op).push(tokens));
    lemma_total_push(add_op, line_tokens(part, add_op), tokens);
}

/// The minutes of a day with one more line, which goes to its minute `k`.
proof fn lemma_minutes_with_line(
    before: Seq<MinuteTokens>,
    after: Seq<MinuteTokens>,
    k: int,
    ls: Seq<RawLine>,
    l: RawLine,
    add_op: spec_fn(Num, Num) -> Num,
)
    requires
        has_minutes(before, ls, add_op),
        0 <= k < after.len(),
        after[k].minute == span_start_spec(l.t as int, MIN_MS as int),
        after[k].tokens == minute_tokens(ls.push(l), after[k].minute as int, add_op),
        ({
            ||| k < before.len() && before[k].minute == after[k].minute && after == before.update(
                k,
                after[k],
            )
            ||| k == before.len() && after == before.push(after[k]) && forall|i: int|
                0 <= i < before.len() ==> (#[trigger] before[i]).minute != after[k].minute
        }),
    ensures
        has_minutes(after, ls.push(l), add_op),
{
    let more = ls.push(l);
    assert forall|i: int| 0 <= i < after.len() implies {
        &&& (#[trigger] after[i]).tokens == minute_tokens(more, after[i].minute as int, add_op)
        &&& more.filter(minute_test(after[i].minute as int)).len() > 0
    } by {
        lemma_minute_push(ls, l, after[i].minute as int, add_op);
        if i != k {
            assert(after[i] == before[i]);
            assert(after[i].minute != after[k].minute) by {
                if k < before.len() {
                    assert(before[i].minute != before[k].minute);
                }
            }
        }
    }
    assert forall|i: int, j: int| 0 <= i < j < after.len() implies (#[trigger] after[i]).minute != (
    #[trigger] after[j]).minute by {
        if i < before.len() && j < before.len() {
            assert(before[i].minute != before[j].minute);
        }
    }
    assert forall|i: int| 0 <= i < more.len() implies exists|n: int|
        0 <= n < after.len() && (#[trigger] after[n]).minute == span_start_spec(
            (#[trigger] more[i]).t as int,
            MIN_MS as int,
        ) by {
        if i < ls.len() {
            assert(more[i] == ls[i]);
            let n = choose|n: int|
                0 <= n < before.len() && (#[trigger] before[n]).minute == span_start_spec(
                    ls[i].t as int,
                    MIN_MS as int,
                );
            assert(after[n].minute == before[n].minute);
        } else {
            assert(after[k].minute == span_start_spec(l.t as int, MIN_MS as int));
        }
    }
}

impl OpenDay {
    fn begin(day: String) -> (r: OpenDay)
        ensures
            r.summary.day@ == day@,
            r.summary.input == Num::zero_spec(),
            r.summary.output == Num::zero_spec(),
            r.summary.cache_read == Num::zero_spec(),
            r.summary.cache_write == Num::zero_spec(),
            r.summary.requests == 0,
            r.summary.rate_limited == 0,
            r.minutes@.len() == 0,
    {
        OpenDay {
            summary: DaySummary {
                day,
                input: Num::zero(),
                output: Num::zero(),
                cache_read: Num::zero(),
                cache_write: Num::zero(),
                requests: 0,
                rate_limited: 0,
                peak_tpm: Num::zero(),
            },
            minutes: Vec::new(),
        }
    }

    /// Adds a request to a day.
    fn absorb<F: Fn(Num, Num) -> Num>(&mut self, l: &RawLine, add_op: &F, Ghost(ls): Ghost<Seq<RawLine>>)
        requires
            is_operation(*add_op),
            is_open(*old(self), ls, meaning(*add_op)),
            ls.len() < u32::MAX,
            fits(span_start_spec(l.t as int, MIN_MS as int)),
        ensures
            is_open(*final(self), ls.push(*l), meaning(*add_op)),
            final(self).summary.day@ == old(self).summary.day@,
            final(self).summary.requests == old(self).summary.requests + 1,
            final(self).summary.rate_limited == old(self).summary.rate_limited + if is_limited(*l) {
                1int
            } else {
                0
            },
    {
        proof {
            ls.lemma_filter_len(limited_test());
            lemma_filter_push(ls, limited_test(), *l);
            lemma_sums_push(ls, *l, Quantity::Input, meaning(*add_op));
            lemma_sums_push(ls, *l, Quantity::Output, meaning(*add_op));
            lemma_sums_push(ls, *l, Quantity::CacheRead, meaning(*add_op));
            lemma_sums_push(ls, *l, Quantity::CacheWrite, meaning(*add_op));
        }
        let inp: Num = known_or_zero(l.input);
        let out: Num = known_or_zero(l.output);
        self.summary.input = add_op(self.summary.input, inp);
        self.summary.output = add_op(self.summary.output, out);
        self.summary.cache_read = add_known(self.summary.cache_read, l.cache_read, add_op);
        self.summary.cache_write = add_known(self.summary.cache_write, l.cache_write, add_op);
        self.summary.requests = self.summary.requests + 1;
        if l.rate_limited || l.status == 429 {
            self.summary.rate_limited = self.summary.rate_limited + 1;
        }
        let minute: i64 = span_start(l.t, MIN_MS);
        let tokens: Num = add_op(inp, out);
        let ghost before = self.minutes@;
        let mut k: usize = self.minutes.len();
        while k > 0 && self.minutes[k - 1].minute != minute
            invariant
                k <= before.len(),
                before == self.minutes@,
                forall|i: int| k <= i < before.len() ==> (#[trigger] before[i]).minute != minute,
            decreases k,
        {
            k -= 1;
        }
        proof {
            lemma_minute_push(ls, *l, minute as int, meaning(*add_op));
        }
        if k > 0 {
            let sum: Num = add_op(self.minutes[k - 1].tokens, tokens);
            self.minutes.set(k - 1, MinuteTokens { minute, tokens: sum });
            proof {
                lemma_minutes_with_line(before, self.minutes@, k - 1, ls, *l, meaning(*add_op));
            }
        } else {
            let sum: Num = add_op(Num::zero(), tokens);
            proof {
                lemma_no_such_minute(before, ls, minute as int, meaning(*add_op));
            }
            self.minutes.push(MinuteTokens { minute, tokens: sum });
            proof {
                lemma_minutes_with_line(before, self.minutes@, before.len() as int, ls, *l, meaning(*add_op));
            }
        }
    }

    /// Ends a day: finds the highest number of tokens of its minutes.
    fn finish(self) -> (r: DaySummary)
        ensures
            r.day@ == self.summary.day@,
            r == (DaySummary { peak_tpm: r.peak_tpm, ..self.summary }),
            is_highest(r.peak_tpm, self.minutes@.map_values(|m: MinuteTokens| m.tokens)),
    {
        let mut summary: DaySummary = self.summary;
        let minutes: Vec<MinuteTokens> = self.minutes;
        let ghost values = minutes@.map_values(|m: MinuteTokens| m.tokens);
        let mut peak: Num = Num::zero();
        let mut i: usize = 0;
        while i < minutes.len()
            invariant
                i <= minutes@.len(),
                values == minutes@.map_values(|m: MinuteTokens| m.tokens),
                is_highest(peak, values.take(i as int)),
            decreases minutes@.len() - i,
        {
            proof {
                highest_with_one_more(peak, values.take(i as int), minutes@[i as int].tokens);
                assert(values.take(i + 1) =~= values.take(i as int).push(minutes@[i as int].tokens));
            }
            peak = raise(peak, minutes[i].tokens);
            i += 1;
        }
        assert(values.take(i as int) =~= values);
        summary.peak_tpm = peak;
        summary
    }
}

proof fn lemma_no_such_minute(
    minutes: Seq<MinuteTokens>,
    ls: Seq<RawLine>,
    minute: int,
    add_op: spec_fn(Num, Num) -> Num,
)
    requires
        has_minutes(minutes, ls, add_op),
        forall|i: int| 0 <= i < minutes.len() ==> (#[trigger] minutes[i]).minute != minute,
    ensures
        minute_tokens(ls, minute, add_op) == Num::zero_spec(),
{
    let part = ls.filter(minute_test(minute));
    if part.len() > 0 {
        ls.lemma_filter_pred(minute_test(minute), 0);
        lemma_filter_comes_from(ls, minute_test(minute), 0);
        let i = choose|i: int| 0 <= i < ls.len() && ls[i] == part[0];
        assert(span_start_spec(ls[i].t as int, MIN_MS as int) == minute);
    }
}

/// The highest of the minutes is the highest over the lines.
proof fn lemma_peak_of_minutes(
    peak: Num,
    minutes: Seq<MinuteTokens>,
    ls: Seq<RawLine>,
    add_op: spec_fn(Num, Num) -> Num,
)
    requires
        has_minutes(minutes, ls, add_op),
        is_highest(peak, minutes.map_values(|m: MinuteTokens| m.tokens)),
    ensures
        is_highest(peak, tokens_per_minute(ls, add_op)),
{
    let values = minutes.map_values(|m: MinuteTokens| m.tokens);
    let per_line = tokens_per_minute(ls, add_op);
    assert forall|i: int| 0 <= i < per_line.len() implies !(#[trigger] per_line[i]).above_spec(peak) by {
        assert(ls[i] == ls[i]);
        let k = choose|k: int|
            0 <= k < minutes.len() && (#[trigger] minutes[k]).minute == span_start_spec(
                ls[i].t as int,
                MIN_MS as int,
            );
        assert(values[k] == per_line[i]);
    }
    if peak != Num::zero_spec() {
        let k = choose|k: int| 0 <= k < values.len() && values[k] == peak;
        let test = minute_test(minutes[k].minute as int);
        assert(ls.filter(test).len() > 0);
        ls.lemma_filter_pred(test, 0);
        lemma_filter_comes_from(ls, test, 0);
        let i = choose|i: int| 0 <= i < ls.len() && ls[i] == ls.filter(test)[0];
        assert(per_line[i] == peak);
    }
}

// ---------------------------------------------------------------- all days

spec fn in_order(days: Seq<OpenDay>) -> bool {
    forall|i: int, j: int|
        0 <= i < j < days.len() ==> text_before(
            (#[trigger] days[i]).summary.day@,
            (#[trigger] days[j]).summary.day@,
        )
}

spec fn are_open(
    days: Seq<OpenDay>,
    lines: Seq<RawLine>,
    cutoff: int,
    add_op: spec_fn(Num, Num) -> Num,
) -> bool {
    &&& in_order(days)
    &&& forall|k: int|
        0 <= k < days.len() ==> is_open(
            #[trigger] days[k],
            day_lines(lines, cutoff, days[k].summary.day@),
            add_op,
        )
    &&& forall|k: int|
        0 <= k < days.len() ==> day_lines(lines, cutoff, (#[trigger] days[k]).summary.day@).len() > 0
    &&& forall|i: int|
        0 <= i < lines.len() && (#[trigger] lines[i]).t >= cutoff && is_request(lines[i])
            ==> exists|k: int|
            0 <= k < days.len() && (#[trigger] days[k]).summary.day@ == day_text(lines[i].t as int)
}

spec fn open_requests(days: Seq<OpenDay>) -> Seq<int> {
    days.map_values(|d: OpenDay| d.summary.requests as int)
}

spec fn open_limited(days: Seq<OpenDay>) -> Seq<int> {
    days.map_values(|d: OpenDay| d.summary.rate_limited as int)
}

proof fn lemma_day_push(lines: Seq<RawLine>, l: RawLine, cutoff: int, day: Seq<char>)
    ensures
        day_lines(lines.push(l), cutoff, day) == if l.t >= cutoff && is_request(l) && day_text(
            l.t as int,
        ) == day {
            day_lines(lines, cutoff, day).push(l)
        } else {
            day_lines(lines, cutoff, day)
        },
        day_lines(lines, cutoff, day).len() <= lines.len(),
{
    lemma_filter_push(lines, day_test(cutoff, day), l);
    lines.lemma_filter_len(day_test(cutoff, day));
}

/// A line that is too old, or no request, changes no day.
proof fn lemma_line_of_no_day(
    days: Seq<OpenDay>,
    lines: Seq<RawLine>,
    l: RawLine,
    cutoff: int,
    add_op: spec_fn(Num, Num) -> Num,
)
    requires
        are_open(days, lines, cutoff, add_op),
        l.t < cutoff || !is_request(l),
    ensures
        are_open(days, lines.push(l), cutoff, add_op),
{
    let more = lines.push(l);
    assert forall|k: int| 0 <= k < days.len() implies day_lines(
        more,
        cutoff,
        (#[trigger] days[k]).summary.day@,
    ) == day_lines(lines, cutoff, days[k].summary.day@) by {
        lemma_day_push(lines, l, cutoff, days[k].summary.day@);
    }
    assert forall|i: int|
        0 <= i < more.len() && (#[trigger] more[i]).t >= cutoff && is_request(more[i]) implies exists|
        k: int,
    |
        0 <= k < days.len() && (#[trigger] days[k]).summary.day@ == day_text(more[i].t as int) by {
        assert(more[i] == lines[i]);
    }
}

/// A request goes to its day, which is there or comes in between the others.
proof fn lemma_line_of_a_day(
    old_days: Seq<OpenDay>,
    days: Seq<OpenDay>,
    slot: int,
    lines: Seq<RawLine>,
    l: RawLine,
    cutoff: int,
    add_op: spec_fn(Num, Num) -> Num,
)
    requires
        are_open(old_days, lines, cutoff, add_op),
        l.t >= cutoff,
        is_request(l),
        0 <= slot < days.len(),
        slot <= old_days.len(),
        forall|i: int|
            0 <= i < slot ==> text_before(
                (#[trigger] old_days[i]).summary.day@,
                days[slot].summary.day@,
            ),
        days[slot].summary.day@ == day_text(l.t as int),
        is_open(
            days[slot],
            day_lines(lines, cutoff, days[slot].summary.day@).push(l),
            add_op,
        ),
        ({
            ||| slot < old_days.len() && old_days[slot].summary.day@ == days[slot].summary.day@
                && days == old_days.update(slot, days[slot])
            ||| days == old_days.insert(slot, days[slot]) && forall|i: int|
                slot <= i < old_days.len() ==> text_before(
                    days[slot].summary.day@,
                    (#[trigger] old_days[i]).summary.day@,
                )
        }),
    ensures
        are_open(days, lines.push(l), cutoff, add_op),
{
    let more = lines.push(l);
    let there = days.len() == old_days.len();
    assert forall|i: int, j: int| 0 <= i < j < days.len() implies text_before(
        (#[trigger] days[i]).summary.day@,
        (#[trigger] days[j]).summary.day@,
    ) by {
        let a = if there || i < slot {
            i
        } else {
            i - 1
        };
        let b = if there || j < slot {
            j
        } else {
            j - 1
        };
        if i != slot {
            assert(days[i] == old_days[a]);
        }
        if j != slot {
            assert(days[j] == old_days[b]);
        }
        if there {
            assert(text_before(old_days[i].summary.day@, old_days[j].summary.day@));
        }
    }
    assert forall|k: int| 0 <= k < days.len() implies {
        &&& is_open(
            #[trigger] days[k],
            day_lines(more, cutoff, days[k].summary.day@),
            add_op,
        )
        &&& day_lines(more, cutoff, days[k].summary.day@).len() > 0
    } by {
        lemma_day_push(lines, l, cutoff, days[k].summary.day@);
        if k != slot {
            let j = if there || k < slot {
                k
            } else {
                k - 1
            };
            assert(days[k] == old_days[j]);
            text_order_is_total(days[k].summary.day@, days[slot].summary.day@);
            if k < slot {
                assert(text_before(days[k].summary.day@, days[slot].summary.day@));
            } else {
                assert(text_before(days[slot].summary.day@, days[k].summary.day@));
            }
        }
    }
    assert forall|i: int|
        0 <= i < more.len() && (#[trigger] more[i]).t >= cutoff && is_request(more[i]) implies exists|
        k: int,
    |
        0 <= k < days.len() && (#[trigger] days[k]).summary.day@ == day_text(more[i].t as int) by {
        if i < lines.len() {
            assert(more[i] == lines[i]);
            let j = choose|j: int|
                0 <= j < old_days.len() && (#[trigger] old_days[j]).summary.day@ == day_text(
                    lines[i].t as int,
                );
            let k = if there || j < slot {
                j
            } else {
                j + 1
            };
            assert(days[k].summary.day@ == old_days[j].summary.day@);
        } else {
            assert(days[slot].summary.day@ == day_text(l.t as int));
        }
    }
}

proof fn lemma_no_day_yet(
    days: Seq<OpenDay>,
    lines: Seq<RawLine>,
    cutoff: int,
    day: Seq<char>,
    add_op: spec_fn(Num, Num) -> Num,
)
    requires
        are_open(days, lines, cutoff, add_op),
        forall|k: int| 0 <= k < days.len() ==> (#[trigger] days[k]).summary.day@ != day,
    ensures
        day_lines(lines, cutoff, day).len() == 0,
{
    let test = day_test(cutoff, day);
    if day_lines(lines, cutoff, day).len() > 0 {
        lines.lemma_filter_pred(test, 0);
        lemma_filter_comes_from(lines, test, 0);
        let i = choose|i: int| 0 <= i < lines.len() && lines[i] == day_lines(lines, cutoff, day)[0];
        assert(lines[i].t >= cutoff);
    }
}

proof fn lemma_day_begins(d: OpenDay, ls: Seq<RawLine>, add_op: spec_fn(Num, Num) -> Num)
    requires
        ls.len() == 0,
        d.summary.input == Num::zero_spec(),
        d.summary.output == Num::zero_spec(),
        d.summary.cache_read == Num::zero_spec(),
        d.summary.cache_write == Num::zero_spec(),
        d.summary.requests == 0,
        d.summary.rate_limited == 0,
        d.minutes@.len() == 0,
    ensures
        is_open(d, ls, add_op),
{
    reveal(Seq::filter);
}

/// Finds the first day that does not come before `day`.
fn slot_for(days: &Vec<OpenDay>, day: &String) -> (r: usize)
    requires
        in_order(days@),
    ensures
        r <= days@.len(),
        forall|i: int| 0 <= i < r ==> text_before((#[trigger] days@[i]).summary.day@, day@),
        forall|i: int|
            r <= i < days@.len() ==> !text_before((#[trigger] days@[i]).summary.day@, day@),
{
    let mut slot: usize = days.len();
    while slot > 0 && !comes_before(days[slot - 1].summary.day.as_str(), day.as_str())
        invariant
            slot <= days@.len(),
            in_order(days@),
            forall|i: int|
                slot <= i < days@.len() ==> !text_before((#[trigger] days@[i]).summary.day@, day@),
        decreases slot,
    {
        slot -= 1;
    }
    proof {
        assert forall|i: int| 0 <= i < slot implies text_before(
            (#[trigger] days@[i]).summary.day@,
            day@,
        ) by {
            if i < slot - 1 {
                text_order_is_transitive(
                    days@[i].summary.day@,
                    days@[slot - 1].summary.day@,
                    day@,
                );
            }
        }
    }
    slot
}

/// The time at which the last `days` days begin.
pub open spec fn days_cutoff(now: int, days: int) -> int {
    now - days * 24 * 60 * MIN_MS
}

/// Sums up the requests of each of the last `days` days. `add_op` adds two numbers up.
pub fn day_summaries<F: Fn(Num, Num) -> Num>(
    lines: &Vec<RawLine>,
    now: i64,
    days: i64,
    add_op: &F,
) -> (r: Vec<DaySummary>)
    requires
        is_operation(*add_op),
        fits(days * 24 * 60 * MIN_MS),
        fits(days_cutoff(now as int, days as int)),
        requests(window(lines@, days_cutoff(now as int, days as int))).len() <= u32::MAX,
        minutes_fit(lines@, days_cutoff(now as int, days as int)),
    ensures
        shows_days(r@, lines@, days_cutoff(now as int, days as int), meaning(*add_op)),
{
    let cutoff: i64 = now - days * 24 * 60 * MIN_MS;
    let mut open: Vec<OpenDay> = Vec::new();
    let mut i: usize = 0;
    proof {
        reveal(Seq::filter);
        assert(lines@.take(0) =~= seq![]);
        assert(requests(window(lines@.take(0), cutoff as int)).len() == 0);
        assert(limited(window(lines@.take(0), cutoff as int)).len() == 0);
        assert(open_requests(open@).len() == 0);
        assert(open_limited(open@).len() == 0);
    }
    while i < lines.len()
        invariant
            i <= lines@.len(),
            is_operation(*add_op),
            requests(window(lines@, cutoff as int)).len() <= u32::MAX,
            minutes_fit(lines@, cutoff as int),
            are_open(open@, lines@.take(i as int), cutoff as int, meaning(*add_op)),
            sum_of(open_requests(open@)) == requests(
                window(lines@.take(i as int), cutoff as int),
            ).len(),
            sum_of(open_limited(open@)) == limited(
                window(lines@.take(i as int), cutoff as int),
            ).len(),
        decreases lines@.len() - i,
    {
        let l: &RawLine = &lines[i];
        let ghost before = lines@.take(i as int);
        let ghost old_open = open@;
        proof {
            assert(lines@.take(i + 1) =~= before.push(*l));
            lemma_filter_push(before, window_test(cutoff as int), *l);
            lemma_requests_push(window(before, cutoff as int), *l);
            lemma_requests_grow(lines@, cutoff as int, i + 1);
        }
        if l.t >= cutoff && !is_ratelimit_sample(l) {
            let day: String = local_day(l.t);
            let slot: usize = slot_for(&open, &day);
            let ghost ls = day_lines(before, cutoff as int, day@);
            proof {
                lemma_day_push(before, *l, cutoff as int, day@);
            }
            if slot < open.len() && open[slot].summary.day == day {
                proof {
                    assert(open_requests(old_open)[slot as int] == ls.len());
                    lemma_count_of_sum(open_requests(old_open), slot as int);
                }
                let d: &mut OpenDay = &mut open[slot];
                d.absorb(l, add_op, Ghost(ls));
                proof {
                    let n = open@[slot as int].summary.requests as int;
                    lemma_sum_update(open_requests(old_open), slot as int, n);
                    assert(open_requests(open@) =~= open_requests(old_open).update(slot as int, n));
                    let m = open@[slot as int].summary.rate_limited as int;
                    lemma_sum_update(open_limited(old_open), slot as int, m);
                    assert(open_limited(open@) =~= open_limited(old_open).update(slot as int, m));
                }
            } else {
                proof {
                    assert forall|k: int| 0 <= k < old_open.len() implies ({
                        &&& (#[trigger] old_open[k]).summary.day@ != day@
                        &&& k >= slot ==> text_before(day@, old_open[k].summary.day@)
                    }) by {
                        text_order_is_total(old_open[k].summary.day@, day@);
                        if slot < old_open.len() {
                            text_order_is_total(old_open[slot as int].summary.day@, day@);
                        }
                        if k > slot {
                            text_order_is_transitive(
                                day@,
                                old_open[slot as int].summary.day@,
                                old_open[k].summary.day@,
                            );
                        }
                    }
                    lemma_no_day_yet(old_open, before, cutoff as int, day@, meaning(*add_op));
                }
                let mut d: OpenDay = OpenDay::begin(day);
                proof {
                    lemma_day_begins(d, ls, meaning(*add_op));
                }
                d.absorb(l, add_op, Ghost(ls));
                open.insert(slot, d);
                proof {
                    lemma_sum_insert(open_requests(old_open), slot as int, 1);
                    assert(open_requests(open@) =~= open_requests(old_open).insert(slot as int, 1));
                    let m = open@[slot as int].summary.rate_limited as int;
                    lemma_sum_insert(open_limited(old_open), slot as int, m);
                    assert(open_limited(open@) =~= open_limited(old_open).insert(slot as int, m));
                }
            }
            proof {
                lemma_line_of_a_day(
                    old_open,
                    open@,
                    slot as int,
                    before,
                    *l,
                    cutoff as int,
                    meaning(*add_op),
                );
            }
        } else {
            proof {
                lemma_line_of_no_day(old_open, before, *l, cutoff as int, meaning(*add_op));
            }
        }
        i += 1;
    }
    assert(lines@.take(i as int) =~= lines@);
    let ghost closed = open@;
    let mut r: Vec<DaySummary> = Vec::new();
    for d in it: open
        invariant
            it.seq() == closed,
            r@.len() == it.index(),
            are_open(closed, lines@, cutoff as int, meaning(*add_op)),
            sum_of(open_requests(closed)) == requests(window(lines@, cutoff as int)).len(),
            sum_of(open_limited(closed)) == limited(window(lines@, cutoff as int)).len(),
            forall|k: int|
                0 <= k < r@.len() ==> (#[trigger] r@[k]).day@ == closed[k].summary.day@
                    && r@[k].requests == closed[k].summary.requests && r@[k].rate_limited
                    == closed[k].summary.rate_limited,
            forall|k: int|
                0 <= k < r@.len() ==> summarizes(
                    #[trigger] r@[k],
                    day_lines(lines@, cutoff as int, r@[k].day@),
                    meaning(*add_op),
                ),
    {
        let ghost k = it.index() as int;
        let ghost ls = day_lines(lines@, cutoff as int, closed[k].summary.day@);
        assert(d == closed[k]);
        assert(is_open(closed[k], ls, meaning(*add_op)));
        let s: DaySummary = d.finish();
        proof {
            lemma_peak_of_minutes(s.peak_tpm, closed[k].minutes@, ls, meaning(*add_op));
        }
        r.push(s);
    }
    proof {
        assert(r@.map_values(|d: DaySummary| d.requests as int) =~= open_requests(closed));
        assert(r@.map_values(|d: DaySummary| d.rate_limited as int) =~= open_limited(closed));
        assert forall|k: int| 0 <= k < r@.len() implies day_lines(
            lines@,
            cutoff as int,
            (#[trigger] r@[k]).day@,
        ).len() > 0 by {
            assert(r@[k].day@ == closed[k].summary.day@);
        }
        assert forall|a: int, b: int| 0 <= a < b < r@.len() implies text_before(
            (#[trigger] r@[a]).day@,
            (#[trigger] r@[b]).day@,
        ) by {
            assert(text_before(closed[a].summary.day@, closed[b].summary.day@));
        }
        assert forall|i: int|
            0 <= i < lines@.len() && (#[trigger] lines@[i]).t >= cutoff && is_request(
                lines@[i],
            ) implies exists|k: int|
            0 <= k < r@.len() && (#[trigger] r@[k]).day@ == day_text(lines@[i].t as int) by {
            let k = choose|k: int|
                0 <= k < closed.len() && (#[trigger] closed[k]).summary.day@ == day_text(
                    lines@[i].t as int,
                );
            assert(r@[k].day@ == closed[k].summary.day@);
        }
    }
    r
}

// ---------------------------------------------------------------- laws

/// The summaries ascend in time, for requests from the year 0 up to the year 10000.
pub proof fn days_ascend_in_time(
    days: Seq<DaySummary>,
    lines: Seq<RawLine>,
    cutoff: int,
    add_op: spec_fn(Num, Num) -> Num,
    i: int,
    j: int,
    a: int,
    b: int,
)
    requires
        are_summaries(days, lines, cutoff, add_op),
        0 <= i < j < days.len(),
        FIRST_MS <= a < LAST_MS,
        FIRST_MS <= b < LAST_MS,
        days[i].day@ == day_text(a),
        days[j].day@ == day_text(b),
    ensures
        day_of(a) < day_of(b),
{
    day_texts_follow_time(a, b);
}

/// Where no request is as young as the cutoff, there are no summaries.
pub proof fn old_log_leaves_no_days(
    days: Seq<DaySummary>,
    lines: Seq<RawLine>,
    cutoff: int,
    add_op: spec_fn(Num, Num) -> Num,
)
    requires
        are_summaries(days, lines, cutoff, add_op),
        forall|i: int|
            0 <= i < lines.len() ==> (#[trigger] lines[i]).t < cutoff || !is_request(lines[i]),
    ensures
        days.len() == 0,
{
    if days.len() > 0 {
        let test = day_test(cutoff, days[0].day@);
        lines.lemma_filter_pred(test, 0);
        lemma_filter_comes_from(lines, test, 0);
    }
}

/// Of the requests of a day no more were turned away than were made, and a day in the
/// list has at least one.
pub proof fn days_count_their_requests(
    days: Seq<DaySummary>,
    lines: Seq<RawLine>,
    cutoff: int,
    add_op: spec_fn(Num, Num) -> Num,
    k: int,
)
    requires
        are_summaries(days, lines, cutoff, add_op),
        0 <= k < days.len(),
    ensures
        days[k].rate_limited <= days[k].requests,
        days[k].requests > 0,
{
    let ls = day_lines(lines, cutoff, days[k].day@);
    assert(summarizes(days[k], ls, add_op));
    ls.lemma_filter_len(limited_test());
}

/// Whether two summaries say the same.
pub open spec fn says_the_same(a: DaySummary, b: DaySummary) -> bool {
    &&& a.day@ == b.day@
    &&& a.input == b.input
    &&& a.output == b.output
    &&& a.cache_read == b.cache_read
    &&& a.cache_write == b.cache_write
    &&& a.requests == b.requests
    &&& a.rate_limited == b.rate_limited
    &&& a.peak_tpm == b.peak_tpm
}

/// Whether the sums and counts of a summary are those of another one with one more request.
pub open spec fn grew_by_request(
    d: DaySummary,
    before: DaySummary,
    l: RawLine,
    add_op: spec_fn(Num, Num) -> Num,
) -> bool {
    &&& d.day@ == before.day@
    &&& d.requests == before.requests + 1
    &&& d.rate_limited == before.rate_limited + (if l.rate_limited || l.status == 429 {
        1int
    } else {
        0
    })
    &&& d.input == plus(before.input, l.input, add_op)
    &&& d.output == plus(before.output, l.output, add_op)
    &&& d.cache_read == plus(before.cache_read, l.cache_read, add_op)
    &&& d.cache_write == plus(before.cache_write, l.cache_write, add_op)
}

/// Whether a summary is that of one request alone.
pub open spec fn is_of_request(d: DaySummary, l: RawLine, add_op: spec_fn(Num, Num) -> Num) -> bool {
    let zero = Num { bits: 0 };
    &&& d.requests == 1
    &&& d.rate_limited == (if l.rate_limited || l.status == 429 {
        1int
    } else {
        0
    })
    &&& d.input == plus(zero, l.input, add_op)
    &&& d.output == plus(zero, l.output, add_op)
    &&& d.cache_read == plus(zero, l.cache_read, add_op)
    &&& d.cache_write == plus(zero, l.cache_write, add_op)
}

/// Whether a summary comes of a list of summaries when one more line `l` comes in: that of its
/// day grows by it where it counts, or comes in with it alone; any other is in the list.
pub open spec fn comes_of(
    d: DaySummary,
    list: Seq<DaySummary>,
    l: RawLine,
    it_counts: bool,
    add_op: spec_fn(Num, Num) -> Num,
) -> bool {
    if it_counts && d.day@ == day_text(l.t as int) {
        ||| exists|j: int| 0 <= j < list.len() && grew_by_request(d, #[trigger] list[j], l, add_op)
        ||| is_of_request(d, l, add_op) && forall|j: int|
            0 <= j < list.len() ==> (#[trigger] list[j]).day@ != d.day@
    } else {
        is_among(d, list)
    }
}

/// Whether a summary is among others.
pub open spec fn is_among(d: DaySummary, list: Seq<DaySummary>) -> bool {
    exists|j: int| 0 <= j < list.len() && says_the_same(d, #[trigger] list[j])
}

/// One more line that is a request and not older than the cutoff goes to the summary of its
/// day: that one grows by it, or comes in with it alone, and all others stay as they are. Any
/// other line changes nothing.
pub proof fn one_more_request(
    p: Seq<DaySummary>,
    q: Seq<DaySummary>,
    lines: Seq<RawLine>,
    l: RawLine,
    cutoff: int,
    add_op: spec_fn(Num, Num) -> Num,
)
    requires
        are_summaries(p, lines, cutoff, add_op),
        are_summaries(q, lines.push(l), cutoff, add_op),
    ensures
        ({
            let it_counts = l.t >= cutoff && l.kind@ != "ratelimit"@;
            &&& it_counts ==> exists|k: int|
                0 <= k < q.len() && (#[trigger] q[k]).day@ == day_text(l.t as int)
            &&& forall|k: int|
                0 <= k < q.len() ==> comes_of(#[trigger] q[k], p, l, it_counts, add_op)
            &&& forall|j: int|
                0 <= j < p.len() && !(it_counts && p[j].day@ == day_text(l.t as int))
                    ==> is_among(#[trigger] p[j], q)
        }),
{
    let it_counts = l.t >= cutoff && l.kind@ != "ratelimit"@;
    let more = lines.push(l);
    if it_counts {
        assert(more[lines.len() as int] == l);
        assert(more[lines.len() as int].t >= cutoff && is_request(more[lines.len() as int]));
        let k = choose|k: int|
            0 <= k < q.len() && (#[trigger] q[k]).day@ == day_text(
                more[lines.len() as int].t as int,
            );
        assert(q[k].day@ == day_text(l.t as int));
    }
    assert forall|k: int| 0 <= k < q.len() implies comes_of(
        #[trigger] q[k],
        p,
        l,
        it_counts,
        add_op,
    ) by {
        lemma_comes_of(p, q, lines, l, cutoff, add_op, k);
    }
    assert forall|j: int|
        0 <= j < p.len() && !(it_counts && p[j].day@ == day_text(
            l.t as int,
        )) implies is_among(#[trigger] p[j], q) by {
        lemma_stays(p, q, lines, l, cutoff, add_op, j);
    }
}

proof fn lemma_comes_of(
    p: Seq<DaySummary>,
    q: Seq<DaySummary>,
    lines: Seq<RawLine>,
    l: RawLine,
    cutoff: int,
    add_op: spec_fn(Num, Num) -> Num,
    k: int,
)
    requires
        are_summaries(p, lines, cutoff, add_op),
        are_summaries(q, lines.push(l), cutoff, add_op),
        0 <= k < q.len(),
    ensures
        comes_of(q[k], p, l, l.t >= cutoff && l.kind@ != "ratelimit"@, add_op),
{
    let more = lines.push(l);
    let d = q[k];
    let ls = day_lines(lines, cutoff, d.day@);
    lemma_day_push(lines, l, cutoff, d.day@);
    assert(summarizes(q[k], day_lines(more, cutoff, q[k].day@), add_op));
    assert(day_lines(more, cutoff, q[k].day@).len() > 0);
    if l.t >= cutoff && l.kind@ != "ratelimit"@ && d.day@ == day_text(l.t as int) {
        lemma_sums_push(ls, l, Quantity::Input, add_op);
        lemma_sums_push(ls, l, Quantity::Output, add_op);
        lemma_sums_push(ls, l, Quantity::CacheRead, add_op);
        lemma_sums_push(ls, l, Quantity::CacheWrite, add_op);
        lemma_filter_push(ls, limited_test(), l);
        if exists|j: int| 0 <= j < p.len() && (#[trigger] p[j]).day@ == d.day@ {
            let j = choose|j: int| 0 <= j < p.len() && (#[trigger] p[j]).day@ == d.day@;
            assert(summarizes(p[j], day_lines(lines, cutoff, p[j].day@), add_op));
            assert(grew_by_request(d, p[j], l, add_op));
        } else {
            lemma_no_requests(p, lines, cutoff, d.day@, add_op);
            assert(ls.filter(limited_test()).len() == 0) by {
                ls.lemma_filter_len(limited_test());
            }
            assert(amounts(ls, Quantity::Input).len() == 0);
            assert(amounts(ls, Quantity::Output).len() == 0);
            assert(amounts(ls, Quantity::CacheRead).len() == 0);
            assert(amounts(ls, Quantity::CacheWrite).len() == 0);
            assert(is_of_request(d, l, add_op));
        }
    } else {
        let j = lemma_has_summary(p, lines, cutoff, d.day@, add_op);
        assert(summarizes(p[j], day_lines(lines, cutoff, p[j].day@), add_op));
        highest_is_unique(d.peak_tpm, p[j].peak_tpm, tokens_per_minute(ls, add_op));
        assert(says_the_same(d, p[j]));
    }
}

proof fn lemma_stays(
    p: Seq<DaySummary>,
    q: Seq<DaySummary>,
    lines: Seq<RawLine>,
    l: RawLine,
    cutoff: int,
    add_op: spec_fn(Num, Num) -> Num,
    j: int,
)
    requires
        are_summaries(p, lines, cutoff, add_op),
        are_summaries(q, lines.push(l), cutoff, add_op),
        0 <= j < p.len(),
        !(l.t >= cutoff && l.kind@ != "ratelimit"@ && p[j].day@ == day_text(l.t as int)),
    ensures
        is_among(p[j], q),
{
    let more = lines.push(l);
    let ls = day_lines(lines, cutoff, p[j].day@);
    lemma_day_push(lines, l, cutoff, p[j].day@);
    assert(summarizes(p[j], day_lines(lines, cutoff, p[j].day@), add_op));
    assert(day_lines(lines, cutoff, p[j].day@).len() > 0);
    let k = lemma_has_summary(q, more, cutoff, p[j].day@, add_op);
    assert(summarizes(q[k], day_lines(more, cutoff, q[k].day@), add_op));
    highest_is_unique(q[k].peak_tpm, p[j].peak_tpm, tokens_per_minute(ls, add_op));
    assert(says_the_same(p[j], q[k]));
}

proof fn lemma_has_summary(
    days: Seq<DaySummary>,
    lines: Seq<RawLine>,
    cutoff: int,
    day: Seq<char>,
    add_op: spec_fn(Num, Num) -> Num,
) -> (k: int)
    requires
        are_summaries(days, lines, cutoff, add_op),
        day_lines(lines, cutoff, day).len() > 0,
    ensures
        0 <= k < days.len(),
        days[k].day@ == day,
{
    let test = day_test(cutoff, day);
    lines.lemma_filter_pred(test, 0);
    lemma_filter_comes_from(lines, test, 0);
    let i = choose|i: int| 0 <= i < lines.len() && lines[i] == day_lines(lines, cutoff, day)[0];
    assert(lines[i].t >= cutoff && is_request(lines[i]));
    choose|k: int| 0 <= k < days.len() && (#[trigger] days[k]).day@ == day_text(lines[i].t as int)
}

proof fn lemma_no_requests(
    days: Seq<DaySummary>,
    lines: Seq<RawLine>,
    cutoff: int,
    day: Seq<char>,
    add_op: spec_fn(Num, Num) -> Num,
)
    requires
        are_summaries(days, lines, cutoff, add_op),
        forall|j: int| 0 <= j < days.len() ==> (#[trigger] days[j]).day@ != day,
    ensures
        day_lines(lines, cutoff, day).len() == 0,
{
    if day_lines(lines, cutoff, day).len() > 0 {
        let k = lemma_has_summary(days, lines, cutoff, day, add_op);
        assert(days[k].day@ != day);
    }
}

} // verus!
