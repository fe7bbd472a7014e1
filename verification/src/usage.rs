//! The usage log: its lines, and what they say of a window of time.
use crate::num::{is_operation, meaning, Num};
use vstd::prelude::*;
use vstd::string::*;

verus! {

/// A line of the usage log.
#[derive(Debug)]
pub struct RawLine {
    /// Milliseconds since the epoch.
    pub t: i64,
    /// `ratelimit` for a sample of the rate limits; any other line is a request.
    pub kind: String,
    /// The HTTP status of the response.
    pub status: i64,
    pub input: Option<Num>,
    pub output: Option<Num>,
    pub cache_read: Option<Num>,
    pub cache_write: Option<Num>,
    pub bytes_in: Option<Num>,
    pub bytes_out: Option<Num>,
    pub cost: Option<Num>,
    pub rate_limited: bool,
    pub u5h: Option<Num>,
    pub u7d: Option<Num>,
    pub reset5h: Option<Num>,
    pub reset7d: Option<Num>,
    pub plan: Option<String>,
    pub model: Option<String>,
}

/// What a request spends.
pub enum Quantity {
    Input,
    Output,
    CacheRead,
    CacheWrite,
    BytesIn,
    BytesOut,
    Cost,
}

/// Which of the rate limits a sample is of.
pub enum Gauge {
    FiveHours,
    SevenDays,
}

pub open spec fn is_request(l: RawLine) -> bool {
    l.kind@ != "ratelimit"@
}

/// Whether a request was turned away by a rate limit.
pub open spec fn is_limited(l: RawLine) -> bool {
    l.rate_limited || l.status == 429
}

pub open spec fn or_zero(n: Option<Num>) -> Num {
    match n {
        Some(n) => n,
        None => Num::zero_spec(),
    }
}

/// How much of a quantity a line reports; nothing where it is silent.
pub open spec fn amount(l: RawLine, q: Quantity) -> Num {
    or_zero(
        match q {
            Quantity::Input => l.input,
            Quantity::Output => l.output,
            Quantity::CacheRead => l.cache_read,
            Quantity::CacheWrite => l.cache_write,
            Quantity::BytesIn => l.bytes_in,
            Quantity::BytesOut => l.bytes_out,
            Quantity::Cost => l.cost,
        },
    )
}

/// How far a line says that a rate limit is used up.
pub open spec fn sample(l: RawLine, g: Gauge) -> Option<Num> {
    match g {
        Gauge::FiveHours => l.u5h,
        Gauge::SevenDays => l.u7d,
    }
}

pub open spec fn request_test() -> spec_fn(RawLine) -> bool {
    |l: RawLine| is_request(l)
}

pub open spec fn limited_test() -> spec_fn(RawLine) -> bool {
    |l: RawLine| is_limited(l)
}

/// The requests among the lines.
pub open spec fn requests(ls: Seq<RawLine>) -> Seq<RawLine> {
    ls.filter(request_test())
}

/// The requests that were turned away.
pub open spec fn limited(ls: Seq<RawLine>) -> Seq<RawLine> {
    requests(ls).filter(limited_test())
}

/// What each of the lines reports of a quantity.
pub open spec fn amounts(ls: Seq<RawLine>, q: Quantity) -> Seq<Num> {
    ls.map_values(|l: RawLine| amount(l, q))
}

/// The samples of a rate limit that the lines hold.
pub open spec fn samples(ls: Seq<RawLine>, g: Gauge) -> Seq<Num>
    decreases ls.len(),
{
    if ls.len() == 0 {
        seq![]
    } else {
        match sample(ls.last(), g) {
            Some(v) => samples(ls.drop_last(), g).push(v),
            None => samples(ls.drop_last(), g),
        }
    }
}

/// A filter passes the last element on, or leaves it out.
pub proof fn lemma_filter_push<T>(s: Seq<T>, test: spec_fn(T) -> bool, x: T)
    ensures
        s.push(x).filter(test) == if test(x) {
            s.filter(test).push(x)
        } else {
            s.filter(test)
        },
{
    reveal(Seq::filter);
    assert(s.push(x).drop_last() =~= s);
}

/// The sum of a list of counts.
pub open spec fn sum_of(counts: Seq<int>) -> int
    decreases counts.len(),
{
    if counts.len() == 0 {
        0
    } else {
        sum_of(counts.drop_last()) + counts.last()
    }
}

/// The sum, when one count is replaced.
pub proof fn lemma_sum_update(counts: Seq<int>, k: int, n: int)
    requires
        0 <= k < counts.len(),
    ensures
        sum_of(counts.update(k, n)) == sum_of(counts) - counts[k] + n,
    decreases counts.len(),
{
    let changed = counts.update(k, n);
    if k == counts.len() - 1 {
        assert(changed.drop_last() =~= counts.drop_last());
    } else {
        assert(changed.drop_last() =~= counts.drop_last().update(k, n));
        lemma_sum_update(counts.drop_last(), k, n);
    }
}

/// The sum, when one more count comes in.
pub proof fn lemma_sum_insert(counts: Seq<int>, k: int, n: int)
    requires
        0 <= k <= counts.len(),
    ensures
        sum_of(counts.insert(k, n)) == sum_of(counts) + n,
    decreases counts.len(),
{
    let grown = counts.insert(k, n);
    if k == counts.len() {
        assert(grown.drop_last() =~= counts);
    } else {
        assert(grown.drop_last() =~= counts.drop_last().insert(k, n));
        lemma_sum_insert(counts.drop_last(), k, n);
    }
}

/// The first counts come to no more than all of them.
pub proof fn lemma_sum_of_fewer(counts: Seq<int>, k: int)
    requires
        0 <= k <= counts.len(),
        forall|i: int| 0 <= i < counts.len() ==> #[trigger] counts[i] >= 0,
    ensures
        0 <= sum_of(counts.take(k)) <= sum_of(counts),
    decreases counts.len(),
{
    if k == counts.len() {
        assert(counts.take(k) =~= counts);
        if k > 0 {
            lemma_sum_of_fewer(counts.drop_last(), k - 1);
        }
    } else {
        assert(counts.drop_last().take(k) =~= counts.take(k));
        lemma_sum_of_fewer(counts.drop_last(), k);
    }
}

/// A count is no more than all counts together.
pub proof fn lemma_count_of_sum(counts: Seq<int>, k: int)
    requires
        0 <= k < counts.len(),
        forall|i: int| 0 <= i < counts.len() ==> #[trigger] counts[i] >= 0,
    ensures
        counts[k] <= sum_of(counts),
{
    lemma_sum_update(counts, k, 0);
    let rest = counts.update(k, 0);
    lemma_sum_of_fewer(rest, rest.len() as int);
    assert(rest.take(rest.len() as int) =~= rest);
}

/// What a filter passes stands in the list.
pub proof fn lemma_filter_comes_from<T>(s: Seq<T>, test: spec_fn(T) -> bool, k: int)
    requires
        0 <= k < s.filter(test).len(),
    ensures
        s.contains(s.filter(test)[k]),
    decreases s.len(),
{
    reveal(Seq::filter);
    if s.len() > 0 {
        let fewer = s.drop_last();
        if k < fewer.filter(test).len() {
            lemma_filter_comes_from(fewer, test, k);
            let i = choose|i: int| 0 <= i < fewer.len() && fewer[i] == fewer.filter(test)[k];
            assert(s[i] == fewer[i]);
        } else {
            assert(s[s.len() - 1] == s.last());
        }
    }
}

/// The requests and the turned-away ones among the lines, with one more line.
pub proof fn lemma_requests_push(ls: Seq<RawLine>, l: RawLine)
    ensures
        requests(ls.push(l)) == if is_request(l) {
            requests(ls).push(l)
        } else {
            requests(ls)
        },
        limited(ls.push(l)) == if is_request(l) && is_limited(l) {
            limited(ls).push(l)
        } else {
            limited(ls)
        },
        limited(ls).len() <= requests(ls).len() <= ls.len(),
{
    lemma_filter_push(ls, request_test(), l);
    if is_request(l) {
        lemma_filter_push(requests(ls), limited_test(), l);
    }
    ls.lemma_filter_len(request_test());
    requests(ls).lemma_filter_len(limited_test());
}

/// What the lines report of a quantity, with one more line.
pub proof fn lemma_amounts_push(ls: Seq<RawLine>, l: RawLine, q: Quantity)
    ensures
        amounts(ls.push(l), q) == amounts(ls, q).push(amount(l, q)),
{
    assert(amounts(ls.push(l), q) =~= amounts(ls, q).push(amount(l, q)));
}

/// Whether a line is a sample of the rate limits.
pub fn is_ratelimit_sample(l: &RawLine) -> (r: bool)
    ensures
        r == !is_request(*l),
{
    let word: String = "ratelimit".to_owned();
    l.kind == word
}

/// A number that may be missing, with zero in its place.
pub fn known_or_zero(n: Option<Num>) -> (r: Num)
    ensures
        r == or_zero(n),
{
    match n {
        Some(n) => n,
        None => Num::zero(),
    }
}

/// Adds a number that may be missing to a sum.
pub fn add_known<F: Fn(Num, Num) -> Num>(sum: Num, n: Option<Num>, add_op: &F) -> (r: Num)
    requires
        is_operation(*add_op),
    ensures
        r == meaning(*add_op)(sum, or_zero(n)),
{
    add_op(sum, known_or_zero(n))
}

} // verus!
