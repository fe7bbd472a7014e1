use pulse::calendar::{civil_from_days, local_day};
use pulse::clock::{floor_div, millis_or_zero, now_ms, span_start};

#[test]
fn the_epoch_is_a_date() {
    assert_eq!(civil_from_days(0), (1970, 1, 1));
    assert_eq!(local_day(0), "1970-01-01");
}

#[test]
fn leap_days_are_dates() {
    assert_eq!(civil_from_days(11_016), (2000, 2, 29));
    assert_eq!(civil_from_days(11_017), (2000, 3, 1));
    assert_eq!(civil_from_days(19_782), (2024, 2, 29));
    assert_eq!(civil_from_days(19_783), (2024, 3, 1));
}

#[test]
fn a_century_year_is_no_leap_year() {
    assert_eq!(civil_from_days(47_540), (2100, 2, 28));
    assert_eq!(civil_from_days(47_541), (2100, 3, 1));
}

#[test]
fn days_before_the_epoch_are_dates() {
    assert_eq!(civil_from_days(-1), (1969, 12, 31));
    assert_eq!(civil_from_days(-719_162), (1, 1, 1));
    assert_eq!(civil_from_days(-719_163), (0, 12, 31));
    assert_eq!(civil_from_days(-719_528), (0, 1, 1));
    assert_eq!(civil_from_days(-719_529), (-1, 12, 31));
}

#[test]
fn dates_follow_each_other() {
    let mut last = civil_from_days(-800_000);
    for z in -799_999..-790_000 {
        let next = civil_from_days(z);
        assert!(last < next);
        last = next;
    }
}

#[test]
fn every_year_has_its_days() {
    // 400 years are 146097 days.
    let (y, m, d) = civil_from_days(20_000);
    assert_eq!(civil_from_days(20_000 + 146_097), (y + 400, m, d));
}

#[test]
fn a_day_is_written_with_leading_zeros() {
    assert_eq!(local_day(951_782_400_000), "2000-02-29");
    assert_eq!(local_day(1_704_067_199_999), "2023-12-31");
    assert_eq!(local_day(1_704_067_200_000), "2024-01-01");
}

#[test]
fn a_time_before_the_epoch_falls_on_its_day() {
    assert_eq!(local_day(-1), "1969-12-31");
    assert_eq!(local_day(-86_400_000), "1969-12-31");
    assert_eq!(local_day(-86_400_001), "1969-12-30");
    assert_eq!(local_day(i64::MIN), local_day(i64::MIN + 1));
}

#[test]
fn years_beyond_four_digits_are_written_out() {
    assert_eq!(local_day(253_402_300_799_999), "9999-12-31");
    assert_eq!(local_day(253_402_300_800_000), "10000-01-01");
}

#[test]
fn years_before_the_first_have_a_sign() {
    assert_eq!(local_day(-62_167_219_200_000), "0000-01-01");
    assert_eq!(local_day(-62_167_305_600_000), "-001-12-31");
}

#[test]
fn day_texts_ascend_with_time() {
    let times = [-62_167_219_200_000, -86_400_000, 0, 86_400_000, 951_782_400_000, 1_704_067_200_000, 253_402_300_799_999];
    for pair in times.windows(2) {
        assert!(local_day(pair[0]) < local_day(pair[1]));
    }
}

#[test]
fn spans_start_at_their_multiples() {
    assert_eq!(span_start(0, 60_000), 0);
    assert_eq!(span_start(59_999, 60_000), 0);
    assert_eq!(span_start(60_000, 60_000), 60_000);
    assert_eq!(span_start(1_704_067_234_567, 60_000), 1_704_067_200_000);
    assert_eq!(span_start(1_704_067_234_567, 86_400_000), 1_704_067_200_000);
}

#[test]
fn spans_before_the_epoch_start_before_their_times() {
    assert_eq!(span_start(-1, 60_000), -60_000);
    assert_eq!(span_start(-60_000, 60_000), -60_000);
    assert_eq!(span_start(-60_001, 60_000), -120_000);
    for t in [-86_400_001i64, -59_999, -1, 0, 1, 60_001] {
        let start = span_start(t, 60_000);
        assert!(start <= t && t < start + 60_000);
    }
}

#[test]
fn division_rounds_down() {
    for a in [i64::MIN, i64::MIN + 1, -7, -6, -1, 0, 1, 6, 7, i64::MAX] {
        for b in [1, 2, 3, 86_400_000, i64::MAX] {
            assert_eq!(floor_div(a, b), a.div_euclid(b), "{} / {}", a, b);
        }
    }
}

#[test]
fn a_clock_before_the_epoch_reads_zero() {
    assert_eq!(millis_or_zero(None), 0);
    assert_eq!(millis_or_zero(Some(1_704_067_200_123)), 1_704_067_200_123);
    assert_eq!(millis_or_zero(Some(u64::MAX as u128)), -1);
}

#[test]
fn the_clock_counts_milliseconds() {
    let before = std::time::SystemTime::now().duration_since(std::time::UNIX_EPOCH).unwrap();
    let now = now_ms();
    let after = std::time::SystemTime::now().duration_since(std::time::UNIX_EPOCH).unwrap();
    assert!(before.as_millis() as i64 <= now);
    assert!(now <= after.as_millis() as i64);
}
