//! The clock, and whole spans of milliseconds.
use vstd::prelude::*;

verus! {

/// Milliseconds in a minute.
pub const MIN_MS: i64 = 60_000;

/// `a / b` rounded down, for a positive `b`.
pub fn floor_div(a: i64, b: i64) -> (r: i64)
    requires
        b > 0,
    ensures
        r == a as int / b as int,
{
    if a >= 0 {
        a / b
    } else {
        proof {
            lemma_floor_of_negative(a as int, b as int);
        }
        -((-(a + 1)) / b) - 1
    }
}

proof fn lemma_floor_of_negative(a: int, b: int)
    requires
        a < 0,
        b > 0,
    ensures
        a / b == -((-(a + 1)) / b) - 1,
        0 <= (-(a + 1)) / b <= -(a + 1),
{
    let m = -(a + 1);
    vstd::arithmetic::div_mod::lemma_fundamental_div_mod(m, b);
    vstd::arithmetic::div_mod::lemma_mod_bound(m, b);
    vstd::arithmetic::div_mod::lemma_div_pos_is_pos(m, b);
    vstd::arithmetic::div_mod::lemma_div_is_ordered_by_denominator(m, 1, b);
    let q = -(m / b) - 1;
    let r = b - 1 - m % b;
    assert(a == q * b + r) by (nonlinear_arith)
        requires
            m == -(a + 1),
            m == b * (m / b) + m % b,
            q == -(m / b) - 1,
            r == b - 1 - m % b,
    ;
    vstd::arithmetic::div_mod::lemma_fundamental_div_mod_converse(a, b, q, r);
}

/// Where the span of `length` that `t` falls into starts.
pub open spec fn span_start_spec(t: int, length: int) -> int {
    (t / length) * length
}

/// Whether a number of milliseconds can be held.
pub open spec fn fits(n: int) -> bool {
    i64::MIN <= n <= i64::MAX
}

/// Where the span of `length` milliseconds that `t` falls into starts.
pub fn span_start(t: i64, length: i64) -> (r: i64)
    requires
        length > 0,
        fits(span_start_spec(t as int, length as int)),
    ensures
        r == span_start_spec(t as int, length as int),
{
    floor_div(t, length) * length
}

/// A time lies in the span that starts at or before it.
pub proof fn span_holds_its_times(t: int, length: int)
    requires
        length > 0,
    ensures
        span_start_spec(t, length) <= t < span_start_spec(t, length) + length,
        span_start_spec(t, length) % length == 0,
{
    vstd::arithmetic::div_mod::lemma_fundamental_div_mod(t, length);
    vstd::arithmetic::div_mod::lemma_mod_bound(t, length);
    vstd::arithmetic::mul::lemma_mul_is_commutative(t / length, length);
    vstd::arithmetic::div_mod::lemma_mod_multiples_basic(t / length, length);
}

#[verifier::external_type_specification]
#[verifier::external_body]
pub struct ExSystemTime(std::time::SystemTime);

/// What `std::time::SystemTime::duration_since` gives for a time and the epoch: the
/// time that has passed, or nothing where the time is the earlier of the two.
pub uninterp spec fn age_of(t: std::time::SystemTime) -> Option<std::time::Duration>;

/// What `std::time::Duration::as_millis` gives: the whole milliseconds of a duration.
pub uninterp spec fn millis_of(d: std::time::Duration) -> u128;

/// Calls `std::time::SystemTime::now`. Nothing is known of the time that it gives.
#[verifier::external_body]
fn system_time() -> (r: std::time::SystemTime)
{
    std::time::SystemTime::now()
}

/// Calls `std::time::SystemTime::duration_since` with the epoch. The result depends on
/// the time alone.
#[verifier::external_body]
fn since_epoch(t: std::time::SystemTime) -> (r: Option<std::time::Duration>)
    ensures
        r == age_of(t),
{
    t.duration_since(std::time::UNIX_EPOCH).ok()
}

/// Calls `std::time::Duration::as_millis`. The result depends on the duration alone.
#[verifier::external_body]
fn whole_millis(d: std::time::Duration) -> (r: u128)
    ensures
        r == millis_of(d),
{
    d.as_millis()
}

/// A time that has passed since the epoch, in milliseconds; zero for a clock that
/// stands before the epoch.
pub fn millis_or_zero(passed: Option<u128>) -> (r: i64)
    ensures
        passed is None ==> r == 0,
        passed matches Some(ms) ==> r == ms as i64,
{
    match passed {
        Some(ms) => ms as i64,
        None => 0,
    }
}

/// The current time, in milliseconds since the epoch.
pub fn now_ms() -> (r: i64)
    ensures
        exists|t: std::time::SystemTime|
            r == (match #[trigger] age_of(t) {
                Some(d) => millis_of(d) as i64,
                None => 0i64,
            }),
{
    let t = system_time();
    let passed: Option<u128> = match since_epoch(t) {
        Some(d) => Some(whole_millis(d)),
        None => None,
    };
    let r: i64 = millis_or_zero(passed);
    proof {
        let _ = age_of(t);
    }
    r
}

} // verus!
