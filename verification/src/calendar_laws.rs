//! What holds of days of the calendar and of their texts.
use crate::calendar::{
    date_is_unique, date_of, day_number, day_of, day_text, days_to_month, every_day_has_a_date,
    is_date, month_length, year_is_its_months,
};
use crate::text::{
    beyond_width, decimal_text, decimal_value, padded_text, padded_texts_follow_numbers,
};
use crate::text_laws::{numbers_are_written_in_digits, padding_is_zeros_in_front};
use vstd::prelude::*;

verus! {

/// How many days a month has in the Gregorian calendar.
pub open spec fn days_in(year: int, month: int) -> int {
    if month == 2 {
        if year % 400 == 0 || (year % 4 == 0 && year % 100 != 0) {
            29
        } else {
            28
        }
    } else if month == 4 || month == 6 || month == 9 || month == 11 {
        30
    } else {
        31
    }
}

/// Days follow one another through their months and years, from the first of January 1970 on
/// and back.
pub proof fn days_follow_one_another(z: int)
    ensures
        date_of(0) == (1970int, 1int, 1int),
        ({
            let (y, m, d) = date_of(z);
            &&& 1 <= m <= 12
            &&& 1 <= d <= days_in(y, m)
            &&& date_of(z + 1) == if d < days_in(y, m) {
                (y, m, d + 1)
            } else if m < 12 {
                (y, m + 1, 1)
            } else {
                (y + 1, 1, 1)
            }
        }),
{
    every_day_has_a_date(0);
    assert(days_to_month(1970, 1) == 0);
    assert(is_date(1970, 1, 1) && day_number(1970, 1, 1) == 0);
    date_is_unique(date_of(0), (1970, 1, 1));
    every_day_has_a_date(z);
    every_day_has_a_date(z + 1);
    let (y, m, d) = date_of(z);
    assert(month_length(y, m) == days_in(y, m));
    if d < days_in(y, m) {
        date_is_unique(date_of(z + 1), (y, m, d + 1));
    } else if m < 12 {
        assert(is_date(y, m + 1, 1));
        assert(days_to_month(y, m + 1) == days_to_month(y, m) + month_length(y, m));
        date_is_unique(date_of(z + 1), (y, m + 1, 1));
    } else {
        year_is_its_months(y);
        assert(days_to_month(y, 13) == days_to_month(y, 12) + month_length(y, 12));
        assert(days_to_month(y + 1, 1) == 0);
        assert(is_date(y + 1, 1, 1));
        date_is_unique(date_of(z + 1), (y + 1, 1, 1));
    }
}

/// Whether a text writes a number in digits, and in how many at least; it has no more of them
/// than it needs.
pub open spec fn writes(s: Seq<char>, n: int, width: int) -> bool {
    &&& s.len() >= width
    &&& s.len() > width ==> s[0] != '0'
    &&& forall|i: int| 0 <= i < s.len() ==> '0' <= #[trigger] s[i] <= '9'
    &&& decimal_value(s) == n
}

/// The text of a day is its year in four digits or more, its month in two and its day in two,
/// with dashes between them. A year before the year 0 has a minus sign in front, which takes
/// one of the four places.
pub proof fn day_text_shows_the_date(ms: int) -> (parts: (Seq<char>, Seq<char>, Seq<char>))
    ensures
        day_text(ms) == parts.0 + seq!['-'] + parts.1 + seq!['-'] + parts.2,
        ({
            let (y, m, d) = date_of(ms / 86_400_000);
            &&& y >= 0 ==> writes(parts.0, y, 4)
            &&& y < 0 ==> parts.0.len() > 0 && parts.0[0] == '-' && writes(parts.0.skip(1), -y, 3)
            &&& writes(parts.1, m, 2) && parts.1.len() == 2
            &&& writes(parts.2, d, 2) && parts.2.len() == 2
        }),
{
    let date = date_of(day_of(ms));
    every_day_has_a_date(day_of(ms));
    let (y, m, d) = date;
    let year = crate::text::signed_text(y, 4);
    let month = padded_text(m as nat, 2);
    let day = padded_text(d as nat, 2);
    reveal_with_fuel(beyond_width, 3);
    padded_texts_follow_numbers(m as nat, d as nat, 2);
    lemma_padded_writes(m as nat, 2);
    lemma_padded_writes(d as nat, 2);
    if y >= 0 {
        lemma_padded_writes(y as nat, 4);
    } else {
        lemma_padded_writes((-y) as nat, 3);
        assert(year.skip(1) =~= padded_text((-y) as nat, 3));
    }
    (year, month, day)
}

proof fn lemma_padded_writes(n: nat, width: nat)
    requires
        width > 0,
    ensures
        writes(padded_text(n, width), n as int, width as int),
{
    padding_is_zeros_in_front(n, width);
    numbers_are_written_in_digits(n);
    let digits = decimal_text(n);
    let s = padded_text(n, width);
    let zeros = choose|zeros: Seq<char>|
        s == #[trigger] (zeros + digits) && forall|i: int| 0 <= i < zeros.len() ==> zeros[i] == '0';
    assert(s == zeros + digits);
    lemma_zeros_count_for_nothing(zeros, digits);
    assert forall|i: int| 0 <= i < s.len() implies '0' <= #[trigger] s[i] <= '9' by {
        if i >= zeros.len() {
            assert(s[i] == digits[i - zeros.len()]);
        }
    }
}

proof fn lemma_zeros_count_for_nothing(zeros: Seq<char>, digits: Seq<char>)
    requires
        forall|i: int| 0 <= i < zeros.len() ==> zeros[i] == '0',
    ensures
        decimal_value(zeros + digits) == decimal_value(digits),
    decreases digits.len(), zeros.len(),
{
    if digits.len() > 0 {
        lemma_zeros_count_for_nothing(zeros, digits.drop_last());
        assert((zeros + digits).drop_last() =~= zeros + digits.drop_last());
        assert((zeros + digits).last() == digits.last());
    } else if zeros.len() > 0 {
        assert(zeros + digits =~= zeros);
        let fewer = zeros.drop_last();
        lemma_zeros_count_for_nothing(fewer, digits);
        assert(fewer + digits =~= fewer);
        assert(zeros.last() == '0');
    } else {
        assert(zeros + digits =~= digits);
    }
}

} // verus!
