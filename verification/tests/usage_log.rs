use pulse::buckets::MinuteBucket;
use pulse::days::{day_summaries, DaySummary};
use pulse::num::Num;
use pulse::snapshot::{pick_bucket, snapshot, Snapshot};
use pulse::usage::RawLine;

const MIN: i64 = 60_000;
const DAY: i64 = 86_400_000;
const NOW: i64 = 1_704_067_200_000 + 12 * 3_600_000;

fn num(x: f64) -> Num {
    Num { bits: x.to_bits() }
}

fn float(n: Num) -> f64 {
    f64::from_bits(n.bits)
}

fn add(a: Num, b: Num) -> Num {
    num(float(a) + float(b))
}

fn line(t: i64, kind: &str) -> RawLine {
    RawLine {
        t,
        kind: kind.to_string(),
        status: 0,
        input: None,
        output: None,
        cache_read: None,
        cache_write: None,
        bytes_in: None,
        bytes_out: None,
        cost: None,
        rate_limited: false,
        u5h: None,
        u7d: None,
        reset5h: None,
        reset7d: None,
        plan: None,
        model: None,
    }
}

fn request(t: i64, input: f64, output: f64) -> RawLine {
    let mut l = line(t, "request");
    l.status = 200;
    l.input = Some(num(input));
    l.output = Some(num(output));
    l
}

fn sample(t: i64, u5h: Option<f64>, u7d: Option<f64>) -> RawLine {
    let mut l = line(t, "ratelimit");
    l.u5h = u5h.map(num);
    l.u7d = u7d.map(num);
    l
}

fn shot(lines: Vec<RawLine>, window: i64, bucket: Option<i64>) -> Snapshot {
    snapshot(&lines, NOW, window, bucket, "/data/usage.jsonl".to_string(), true, &add)
}

fn days(lines: Vec<RawLine>, n: i64) -> Vec<DaySummary> {
    day_summaries(&lines, NOW, n, &add)
}

fn starts(s: &Snapshot) -> Vec<i64> {
    s.minutes.iter().map(|b| b.minute).collect()
}

// ---------------------------------------------------------------- snapshot

#[test]
fn an_empty_log_gives_an_empty_snapshot() {
    let s = snapshot(&Vec::new(), NOW, 60, None, "/nowhere".to_string(), false, &add);
    assert!(s.minutes.is_empty());
    assert_eq!(s.peak_tokens, num(0.0));
    assert_eq!(s.peak_minute, 0);
    assert_eq!(s.peak_requests, 0);
    assert_eq!(s.peak_requests_minute, 0);
    assert_eq!(s.rate_limited_total, 0);
    assert_eq!(s.latest_u5h, num(0.0));
    assert_eq!(s.plan, None);
    assert_eq!(s.bucket_minutes, 1);
    assert_eq!(s.window_minutes, 60);
    assert_eq!(s.log_path, "/nowhere");
    assert!(!s.has_data);
}

#[test]
fn a_log_that_is_there_is_data_though_it_is_empty() {
    let s = shot(Vec::new(), 60, None);
    assert!(s.has_data);
    assert_eq!(s.log_path, "/data/usage.jsonl");
}

#[test]
fn the_lines_of_a_minute_are_summed_up() {
    let mut a = request(NOW - 5 * MIN + 1_000, 100.0, 20.0);
    a.cache_read = Some(num(7.0));
    a.bytes_in = Some(num(1_000.0));
    a.cost = Some(num(0.5));
    let mut b = request(NOW - 5 * MIN + 59_999, 1.5, 0.25);
    b.cache_write = Some(num(3.0));
    b.bytes_out = Some(num(2_000.0));
    b.cost = Some(num(0.25));
    let s = shot(vec![a, b], 60, None);
    assert_eq!(starts(&s), vec![NOW - 5 * MIN]);
    let m = &s.minutes[0];
    assert_eq!(float(m.input), 101.5);
    assert_eq!(float(m.output), 20.25);
    assert_eq!(float(m.cache_read), 7.0);
    assert_eq!(float(m.cache_write), 3.0);
    assert_eq!(float(m.bytes_in), 1_000.0);
    assert_eq!(float(m.bytes_out), 2_000.0);
    assert_eq!(float(m.cost), 0.75);
    assert_eq!(m.requests, 2);
    assert_eq!(m.rate_limited, 0);
    assert_eq!(float(s.peak_tokens), 121.75);
    assert_eq!(s.peak_minute, NOW - 5 * MIN);
    assert_eq!(float(s.total_bytes_in), 1_000.0);
    assert_eq!(float(s.total_bytes_out), 2_000.0);
    assert_eq!(float(s.total_cost), 0.75);
}

#[test]
fn sums_are_taken_in_the_order_of_the_log() {
    let s = shot(vec![request(NOW, 1e16, 0.0), request(NOW, 1.0, 0.0), request(NOW, -1e16, 0.0)], 60, None);
    assert_eq!(float(s.minutes[0].input), 1e16 + 1.0 - 1e16);
}

#[test]
fn buckets_ascend_whatever_the_order_of_the_log() {
    let s = shot(
        vec![request(NOW - MIN, 1.0, 0.0), request(NOW - 3 * MIN, 2.0, 0.0), request(NOW - 2 * MIN, 3.0, 0.0)],
        60,
        None,
    );
    assert_eq!(starts(&s), vec![NOW - 3 * MIN, NOW - 2 * MIN, NOW - MIN]);
    let inputs: Vec<f64> = s.minutes.iter().map(|b| float(b.input)).collect();
    assert_eq!(inputs, vec![2.0, 3.0, 1.0]);
}

#[test]
fn the_window_begins_at_its_cutoff() {
    let s = shot(vec![request(NOW - 60 * MIN - 1, 1.0, 0.0), request(NOW - 60 * MIN, 2.0, 0.0)], 60, None);
    assert_eq!(starts(&s), vec![NOW - 60 * MIN]);
    assert_eq!(s.minutes[0].requests, 1);
}

#[test]
fn an_old_log_leaves_no_buckets() {
    let s = shot(vec![request(NOW - 2 * DAY, 1.0, 0.0), sample(NOW - 2 * DAY, Some(0.5), None)], 60, None);
    assert!(s.minutes.is_empty());
}

#[test]
fn samples_are_no_requests() {
    let mut a = sample(NOW, Some(0.4), Some(0.1));
    a.input = Some(num(9.0));
    a.rate_limited = true;
    let s = shot(vec![a, sample(NOW, Some(0.3), Some(0.2))], 60, None);
    let m = &s.minutes[0];
    assert_eq!(m.requests, 0);
    assert_eq!(m.rate_limited, 0);
    assert_eq!(float(m.input), 0.0);
    assert_eq!(float(m.u5h), 0.4);
    assert_eq!(float(m.u7d), 0.2);
}

#[test]
fn a_request_may_carry_a_sample() {
    let mut a = request(NOW, 1.0, 1.0);
    a.u5h = Some(num(0.7));
    let s = shot(vec![a], 60, None);
    assert_eq!(float(s.minutes[0].u5h), 0.7);
    assert_eq!(s.minutes[0].requests, 1);
    assert_eq!(float(s.latest_u5h), 0.7);
}

#[test]
fn a_line_of_no_kind_is_a_request() {
    let s = shot(vec![line(NOW, ""), line(NOW, "other")], 60, None);
    assert_eq!(s.minutes[0].requests, 2);
}

#[test]
fn requests_that_were_turned_away_are_counted() {
    let mut a = request(NOW, 1.0, 0.0);
    a.rate_limited = true;
    let mut b = request(NOW - MIN, 1.0, 0.0);
    b.status = 429;
    let mut c = request(NOW - MIN, 1.0, 0.0);
    c.status = 429;
    c.rate_limited = true;
    let s = shot(vec![a, b, c, request(NOW, 1.0, 0.0)], 60, None);
    assert_eq!(s.rate_limited_total, 3);
    assert_eq!(s.minutes.iter().map(|m| m.rate_limited).collect::<Vec<u32>>(), vec![2, 1]);
}

#[test]
fn the_first_of_equal_peaks_is_named() {
    let s = shot(
        vec![request(NOW - 2 * MIN, 5.0, 5.0), request(NOW - MIN, 10.0, 0.0), request(NOW, 1.0, 0.0)],
        60,
        None,
    );
    assert_eq!(float(s.peak_tokens), 10.0);
    assert_eq!(s.peak_minute, NOW - 2 * MIN);
    assert_eq!(s.peak_requests, 1);
    assert_eq!(s.peak_requests_minute, NOW - 2 * MIN);
}

#[test]
fn peaks_of_tokens_and_of_requests_are_apart() {
    let s = shot(
        vec![request(NOW - MIN, 50.0, 0.0), request(NOW, 1.0, 0.0), request(NOW, 1.0, 0.0)],
        60,
        None,
    );
    assert_eq!(s.peak_minute, NOW - MIN);
    assert_eq!(s.peak_requests, 2);
    assert_eq!(s.peak_requests_minute, NOW);
}

#[test]
fn tokens_below_zero_are_no_peak() {
    let s = shot(vec![request(NOW, -5.0, 0.0)], 60, None);
    assert_eq!(s.peak_tokens, num(0.0));
    assert_eq!(s.peak_minute, 0);
}

#[test]
fn the_latest_use_is_read_off_the_whole_log() {
    let mut old = sample(NOW - 2 * DAY, Some(0.9), Some(0.3));
    old.reset5h = Some(num(1_704_000_000.0));
    old.plan = Some("Max 20x".to_string());
    let s = shot(vec![old, sample(NOW - MIN, Some(0.1), None)], 60, None);
    assert_eq!(float(s.latest_u5h), 0.1);
    assert_eq!(float(s.latest_u7d), 0.3);
    assert_eq!(float(s.reset5h), 1_704_000_000.0);
    assert_eq!(float(s.reset7d), 0.0);
    assert_eq!(s.plan, Some("Max 20x".to_string()));
}

#[test]
fn an_older_line_does_not_replace_a_newer_one() {
    let s = shot(vec![sample(NOW, Some(0.1), None), sample(NOW - MIN, Some(0.8), None)], 60, None);
    assert_eq!(float(s.latest_u5h), 0.1);
    let s = shot(vec![sample(NOW, Some(0.1), None), sample(NOW, Some(0.8), None)], 60, None);
    assert_eq!(float(s.latest_u5h), 0.1);
}

#[test]
fn the_most_recent_line_that_has_a_field_is_heard() {
    let s = shot(vec![line(200, ""), sample(100, Some(0.5), None)], 60, None);
    assert_eq!(float(s.latest_u5h), 0.5);
    let s = shot(vec![request(NOW, 1.0, 0.0), sample(NOW - MIN, Some(0.8), None)], 60, None);
    assert_eq!(float(s.latest_u5h), 0.8);
    let s = shot(vec![sample(0, Some(0.8), None)], 60, None);
    assert_eq!(float(s.latest_u5h), 0.8);
    let s = shot(vec![sample(-5, Some(0.8), None), sample(-6, None, Some(0.3))], 60, None);
    assert_eq!(float(s.latest_u5h), 0.8);
    assert_eq!(float(s.latest_u7d), 0.3);
}

#[test]
fn each_field_has_a_most_recent_line_of_its_own() {
    let mut a = sample(NOW - 3, Some(0.1), Some(0.2));
    a.plan = Some("Pro".to_string());
    let mut b = sample(NOW - 1, Some(0.3), None);
    b.reset7d = Some(num(7.0));
    let mut c = sample(NOW - 2, Some(0.4), Some(0.5));
    c.plan = Some("Max".to_string());
    let s = shot(vec![a, b, c], 60, None);
    assert_eq!(float(s.latest_u5h), 0.3);
    assert_eq!(float(s.latest_u7d), 0.5);
    assert_eq!(float(s.reset7d), 7.0);
    assert_eq!(s.plan, Some("Max".to_string()));
}

#[test]
fn buckets_before_the_epoch_start_before_their_lines() {
    let lines = vec![request(-1, 1.0, 0.0), request(0, 2.0, 0.0)];
    let s = snapshot(&lines, 0, 60, None, String::new(), true, &add);
    assert_eq!(starts(&s), vec![-60_000, 0]);
}

#[test]
fn the_order_of_the_log_does_not_matter() {
    let log = |order: &[usize]| -> Vec<RawLine> {
        order
            .iter()
            .map(|i| {
                let mut l = request(NOW - (*i as i64 % 3) * MIN, *i as f64, 0.25 * *i as f64);
                l.cost = Some(num(0.5));
                l.bytes_in = Some(num(*i as f64));
                l.rate_limited = *i % 2 == 0;
                l
            })
            .collect()
    };
    let r = shot(log(&[0, 1, 2, 3, 4, 5, 6, 7]), 60, None);
    let s = shot(log(&[7, 2, 5, 0, 3, 6, 1, 4]), 60, None);
    assert_eq!(format!("{:?}", r.minutes), format!("{:?}", s.minutes));
    assert_eq!((r.peak_tokens, r.peak_minute), (s.peak_tokens, s.peak_minute));
    assert_eq!((r.peak_requests, r.peak_requests_minute), (s.peak_requests, s.peak_requests_minute));
    assert_eq!(r.rate_limited_total, s.rate_limited_total);
    assert_eq!((r.total_bytes_in, r.total_cost), (s.total_bytes_in, s.total_cost));
}

#[test]
fn days_and_minutes_tell_the_same() {
    let log = || -> Vec<RawLine> {
        (0..400)
            .map(|i| {
                let mut l = request(NOW - (i * 7919 % 5000) * 60_500, (i % 17) as f64, (i % 5) as f64);
                l.rate_limited = i % 7 == 0;
                l
            })
            .collect()
    };
    let s = shot(log(), 3 * 1440, Some(1));
    let list = days(log(), 3);
    assert_eq!(
        list.iter().map(|d| d.requests).sum::<u32>(),
        s.minutes.iter().map(|m| m.requests).sum::<u32>()
    );
    assert_eq!(list.iter().map(|d| d.rate_limited).sum::<u32>(), s.rate_limited_total);
    let peak = list.iter().map(|d| float(d.peak_tpm)).fold(0.0, f64::max);
    assert_eq!(peak, float(s.peak_tokens));
}

#[test]
fn a_bucket_that_suits_the_window_is_picked() {
    assert_eq!(pick_bucket(60, None), 1);
    assert_eq!(pick_bucket(360, None), 1);
    assert_eq!(pick_bucket(361, None), 15);
    assert_eq!(pick_bucket(4320, None), 15);
    assert_eq!(pick_bucket(4321, None), 60);
    assert_eq!(pick_bucket(20160, None), 60);
    assert_eq!(pick_bucket(20161, None), 1440);
    for window in [1, 360, 361, 4320, 4321, 20160] {
        assert!(window <= 360 * pick_bucket(window, None));
    }
}

#[test]
fn a_bucket_that_is_asked_for_is_taken_if_positive() {
    assert_eq!(pick_bucket(60, Some(5)), 5);
    assert_eq!(pick_bucket(60, Some(0)), 1);
    assert_eq!(pick_bucket(60, Some(-3)), 1);
    let s = shot(vec![request(NOW - 7 * MIN, 1.0, 0.0), request(NOW - 6 * MIN, 2.0, 0.0)], 60, Some(60));
    assert_eq!(s.bucket_minutes, 60);
    assert_eq!(starts(&s), vec![NOW - 60 * MIN]);
    assert_eq!(float(s.minutes[0].input), 3.0);
}

#[test]
fn days_are_the_buckets_of_a_long_window() {
    let s = shot(vec![request(NOW, 1.0, 0.0), request(NOW - DAY, 2.0, 0.0)], 30 * 1440, None);
    assert_eq!(s.bucket_minutes, 1440);
    assert_eq!(starts(&s), vec![1_704_067_200_000 - DAY, 1_704_067_200_000]);
}

#[test]
fn requests_are_neither_lost_nor_counted_twice() {
    let lines: Vec<RawLine> = (0..500).map(|i| request(NOW - (i * 7919 % 5000) * 1_000, 1.0, 0.0)).collect();
    let s = shot(lines, 60, None);
    let inside = (0..500).filter(|i| (i * 7919 % 5000) * 1_000 <= 60 * MIN).count();
    assert_eq!(s.minutes.iter().map(|m| m.requests as usize).sum::<usize>(), inside);
    assert_eq!(s.minutes.iter().map(|m| float(m.input)).sum::<f64>(), inside as f64);
}

#[test]
fn an_empty_bucket_holds_nothing() {
    let b = MinuteBucket::empty(MIN);
    assert_eq!(b.minute, MIN);
    assert_eq!(b.requests, 0);
    assert_eq!(b.u7d, num(0.0));
}

// ---------------------------------------------------------------- days

#[test]
fn the_requests_of_a_day_are_summed_up() {
    let mut a = request(NOW - MIN, 100.0, 20.0);
    a.cache_read = Some(num(5.0));
    let mut b = request(NOW - MIN + 30_000, 10.0, 2.0);
    b.cache_write = Some(num(4.0));
    b.status = 429;
    let list = days(vec![a, b, request(NOW - 9 * MIN, 50.0, 0.0)], 7);
    assert_eq!(list.len(), 1);
    let d = &list[0];
    assert_eq!(d.day, "2024-01-01");
    assert_eq!(float(d.input), 160.0);
    assert_eq!(float(d.output), 22.0);
    assert_eq!(float(d.cache_read), 5.0);
    assert_eq!(float(d.cache_write), 4.0);
    assert_eq!(d.requests, 3);
    assert_eq!(d.rate_limited, 1);
    assert_eq!(float(d.peak_tpm), 132.0);
}

#[test]
fn days_ascend() {
    let list = days(
        vec![request(NOW, 1.0, 0.0), request(NOW - 2 * DAY, 2.0, 0.0), request(NOW - DAY, 3.0, 0.0)],
        7,
    );
    let names: Vec<&str> = list.iter().map(|d| d.day.as_str()).collect();
    assert_eq!(names, vec!["2023-12-30", "2023-12-31", "2024-01-01"]);
}

#[test]
fn a_day_of_samples_only_is_left_out() {
    assert!(days(vec![sample(NOW, Some(0.5), None)], 7).is_empty());
}

#[test]
fn an_old_log_leaves_no_days() {
    assert!(days(vec![request(NOW - 7 * DAY - 1, 1.0, 0.0)], 7).is_empty());
    assert_eq!(days(vec![request(NOW - 7 * DAY, 1.0, 0.0)], 7).len(), 1);
}

#[test]
fn the_peak_of_a_day_is_that_of_its_highest_minute() {
    let list = days(
        vec![
            request(NOW, 1.0, 0.0),
            request(NOW - DAY, 9.0, 9.0),
            request(NOW - DAY + MIN, 10.0, 0.0),
            request(NOW - DAY + MIN, 10.0, 0.0),
        ],
        7,
    );
    assert_eq!(list.iter().map(|d| float(d.peak_tpm)).collect::<Vec<f64>>(), vec![20.0, 1.0]);
}

#[test]
fn a_day_without_tokens_has_no_peak() {
    let list = days(vec![line(NOW, "")], 1);
    assert_eq!(list[0].peak_tpm, num(0.0));
    assert_eq!(list[0].requests, 1);
}

#[test]
fn the_days_count_the_requests_of_the_window() {
    let lines: Vec<RawLine> = (0..300).map(|i| request(NOW - i * 3_600_000, 1.0, 1.0)).collect();
    let list = days(lines, 5);
    assert_eq!(list.iter().map(|d| d.requests).sum::<u32>(), 121);
}
