use pulse::http::Fetch;
use pulse::num::Num;
use pulse::poll::{PollAction, RatelimitPoll};
use pulse::ratelimit::{
    live_ratelimit, parse_ratelimit, probe, probe_fields, FreshestScan, LiveRatelimit, PortScan,
    RatelimitCache, RatelimitFields,
};
use pulse::search::{PortSearch, SearchAction};

const NOW: f64 = 1_704_067_200_000.0;

fn num(x: f64) -> Num {
    Num { bits: x.to_bits() }
}

fn sub(a: Num, b: Num) -> Num {
    num(f64::from_bits(a.bits) - f64::from_bits(b.bits))
}

fn silent() -> RatelimitFields {
    RatelimitFields { u5h: None, u7d: None, reset5h: None, reset7d: None, status: None, plan: None, at: None }
}

fn reading(at: Option<f64>, u5h: f64) -> LiveRatelimit {
    let mut rl = LiveRatelimit::default();
    rl.available = true;
    rl.u5h = Some(num(u5h));
    rl.at = at.map(num);
    rl
}

fn target(action: &PollAction) -> (String, u16, String, u64) {
    match action {
        PollAction::Get(f) => place(f),
        other => panic!("{:?}", other),
    }
}

fn place(f: &Fetch) -> (String, u16, String, u64) {
    (f.host.clone(), f.port, f.path.clone(), f.timeout_ms)
}

fn local(port: u16, timeout: u64) -> (String, u16, String, u64) {
    ("127.0.0.1".to_string(), port, "/ratelimit".to_string(), timeout)
}

fn body(at: f64, u5h: f64) -> Option<String> {
    Some(format!("{{\"unified5hUtilization\":{},\"at\":{}}}", u5h, at))
}

// ---------------------------------------------------------------- reading

#[test]
fn an_answer_is_read() {
    let rl = parse_ratelimit(
        "{\"unified5hUtilization\":0.25,\"unified7dUtilization\":1,\"unified5hReset\":1704070800,\
          \"unified7dReset\":1704500000.5,\"unifiedStatus\":\"allowed\",\"planLabel\":\"Max 20\\u00d7\",\
          \"at\":1704067200000}",
        "here",
    )
    .unwrap();
    assert!(rl.available);
    assert_eq!(rl.u5h, Some(num(0.25)));
    assert_eq!(rl.u7d, Some(num(1.0)));
    assert_eq!(rl.reset5h, Some(num(1_704_070_800.0)));
    assert_eq!(rl.reset7d, Some(num(1_704_500_000.5)));
    assert_eq!(rl.status, Some("allowed".to_string()));
    assert_eq!(rl.plan, Some("Max 20\u{d7}".to_string()));
    assert_eq!(rl.source, Some("here".to_string()));
    assert_eq!(rl.at, Some(num(NOW)));
    assert_eq!(rl.taken_at(), num(NOW));
}

#[test]
fn an_answer_may_speak_of_one_limit_only() {
    let rl = parse_ratelimit("{\"unified7dUtilization\":0.5}", "s").unwrap();
    assert_eq!(rl.u5h, None);
    assert_eq!(rl.u7d, Some(num(0.5)));
    assert_eq!(rl.at, None);
    assert_eq!(rl.taken_at(), num(0.0));
}

#[test]
fn members_of_another_type_are_missing() {
    let rl = parse_ratelimit(
        "{\"unified5hUtilization\":0.5,\"unified7dUtilization\":\"0.5\",\"planLabel\":3,\"at\":null}",
        "s",
    )
    .unwrap();
    assert_eq!(rl.u7d, None);
    assert_eq!(rl.plan, None);
    assert_eq!(rl.at, None);
}

#[test]
fn an_answer_without_use_is_no_reading() {
    assert!(parse_ratelimit("{}", "s").is_none());
    assert!(parse_ratelimit("{\"unified5hUtilization\":\"x\"}", "s").is_none());
    assert!(parse_ratelimit("{\"unified5hUtilization\":null,\"at\":1}", "s").is_none());
    assert!(parse_ratelimit("[0.5]", "s").is_none());
    assert!(parse_ratelimit("no json", "s").is_none());
    assert!(parse_ratelimit("", "s").is_none());
}

#[test]
fn fields_make_a_reading() {
    assert!(live_ratelimit(silent(), "s").is_none());
    let mut f = silent();
    f.u7d = Some(num(0.5));
    f.plan = Some("Pro".to_string());
    let rl = live_ratelimit(f, "s").unwrap();
    assert_eq!(rl.u7d, Some(num(0.5)));
    assert_eq!(rl.plan, Some("Pro".to_string()));
    assert_eq!(rl.source, Some("s".to_string()));
}

#[test]
fn nothing_is_known_by_default() {
    let rl = LiveRatelimit::default();
    assert!(!rl.available);
    assert_eq!(rl.u5h, None);
    assert_eq!(rl.source, None);
}

// ---------------------------------------------------------------- the freshest

#[test]
fn the_freshest_reading_wins() {
    let mut scan = FreshestScan::new();
    scan.offer(1, reading(Some(NOW - 2_000.0), 0.1), num(NOW), &sub);
    scan.offer(2, reading(Some(NOW - 1_000.0), 0.2), num(NOW), &sub);
    scan.offer(3, reading(Some(NOW - 1_500.0), 0.3), num(NOW), &sub);
    scan.offer(4, reading(Some(NOW - 1_000.0), 0.4), num(NOW), &sub);
    assert_eq!(scan.good_port, Some(2));
    assert_eq!(scan.result.u5h, Some(num(0.2)));
}

#[test]
fn a_reading_of_five_minutes_ago_is_the_oldest_that_counts() {
    let mut scan = FreshestScan::new();
    scan.offer(1, reading(Some(NOW - 300_001.0), 0.1), num(NOW), &sub);
    assert_eq!(scan.good_port, None);
    assert!(!scan.result.available);
    scan.offer(2, reading(Some(NOW - 300_000.0), 0.2), num(NOW), &sub);
    assert_eq!(scan.good_port, Some(2));
}

#[test]
fn a_reading_without_a_time_is_too_old() {
    let mut scan = FreshestScan::new();
    scan.offer(1, reading(None, 0.1), num(NOW), &sub);
    assert_eq!(scan.good_port, None);
    let mut scan = FreshestScan::new();
    scan.offer(1, reading(None, 0.1), num(1_000.0), &sub);
    assert_eq!(scan.good_port, Some(1));
}

#[test]
fn a_reading_from_before_the_epoch_is_not_fresher_than_none() {
    let mut scan = FreshestScan::new();
    scan.offer(1, reading(Some(-1.0), 0.1), num(0.0), &sub);
    assert_eq!(scan.good_port, None);
    scan.offer(2, reading(Some(-0.5), 0.1), num(0.0), &sub);
    assert_eq!(scan.good_port, Some(2));
}

#[test]
fn the_freshest_port_wins() {
    let mut scan = PortScan::new();
    assert_eq!(scan.port(), None);
    scan.offer(1, num(NOW - 300_001.0), num(NOW), &sub);
    assert_eq!(scan.port(), None);
    scan.offer(2, num(NOW - 300_000.0), num(NOW), &sub);
    assert_eq!(scan.port(), Some(2));
    scan.offer(3, num(NOW - 300_000.0), num(NOW), &sub);
    assert_eq!(scan.port(), Some(2));
    scan.offer(4, num(NOW + 5.0), num(NOW), &sub);
    assert_eq!(scan.port(), Some(4));
}

#[test]
fn an_answer_is_probed_for_its_time() {
    assert_eq!(probe("{\"unified5hUtilization\":0.5,\"at\":12.5}"), Some(num(12.5)));
    assert_eq!(probe("{\"unified7dUtilization\":null}"), Some(num(0.0)));
    assert_eq!(probe("{\"unified5hUtilization\":\"x\",\"at\":\"y\"}"), Some(num(0.0)));
    assert_eq!(probe("{\"at\":12.5}"), None);
    assert_eq!(probe("12.5"), None);
    assert_eq!(probe("{"), None);
    assert_eq!(probe_fields(false, true, Some(num(3.0))), Some(num(3.0)));
    assert_eq!(probe_fields(false, false, Some(num(3.0))), None);
}

// ---------------------------------------------------------------- the cache

#[test]
fn a_reading_is_served_again_for_four_seconds() {
    let mut cache = RatelimitCache::new();
    assert!(cache.fresh(4_000).is_none());
    cache.store(reading(Some(1.0), 0.5), 10_000, Some(7));
    assert_eq!(cache.fresh(13_999).unwrap().u5h, Some(num(0.5)));
    assert!(cache.fresh(14_000).is_none());
    cache.store(LiveRatelimit::default(), 20_000, None);
    assert_eq!(cache.good_port, Some(7));
    assert!(!cache.fresh(20_000).unwrap().available);
}

#[test]
fn a_new_cache_serves_nothing_known() {
    let cache = RatelimitCache::new();
    assert!(!cache.fresh(3_999).unwrap().available);
}

// ---------------------------------------------------------------- the poll

#[test]
fn a_poll_asks_all_local_services() {
    let (mut poll, action) = RatelimitPoll::begin(None, num(NOW));
    assert!(matches!(action, PollAction::ListPorts));
    let action = poll.ports_listed(vec![10, 20, 30]);
    assert_eq!(target(&action), local(10, 800));
    let action = poll.answered(body(NOW - 9.0, 0.1), &sub);
    assert_eq!(target(&action), local(20, 800));
    let action = poll.answered(body(NOW - 4.0, 0.2), &sub);
    assert_eq!(target(&action), local(30, 800));
    match poll.answered(None, &sub) {
        PollAction::Finish(rl, port) => {
            assert_eq!(rl.u5h, Some(num(0.2)));
            assert_eq!(rl.source, Some("http://127.0.0.1:20/ratelimit".to_string()));
            assert_eq!(port, Some(20));
        }
        other => panic!("{:?}", other),
    }
}

#[test]
fn a_poll_of_no_services_ends_at_once() {
    let (mut poll, _) = RatelimitPoll::begin(None, num(NOW));
    match poll.ports_listed(Vec::new()) {
        PollAction::Finish(rl, port) => {
            assert!(!rl.available);
            assert_eq!(port, None);
        }
        other => panic!("{:?}", other),
    }
}

#[test]
fn a_poll_passes_bad_answers_over() {
    let (mut poll, _) = RatelimitPoll::begin(None, num(NOW));
    poll.ports_listed(vec![1, 2]);
    poll.answered(Some("no json".to_string()), &sub);
    match poll.answered(body(NOW - 400_000.0, 0.3), &sub) {
        PollAction::Finish(rl, port) => {
            assert!(!rl.available);
            assert_eq!(port, None);
        }
        other => panic!("{:?}", other),
    }
}

#[test]
fn a_named_service_is_asked_and_no_other() {
    let url = "http://10.0.0.1:99/limits".to_string();
    let (mut poll, action) = RatelimitPoll::begin(Some(url.clone()), num(NOW));
    assert_eq!(target(&action), ("10.0.0.1".to_string(), 99, "/limits".to_string(), 1200));
    // A named service is believed however old its answer is.
    match poll.answered(body(1.0, 0.7), &sub) {
        PollAction::Finish(rl, port) => {
            assert_eq!(rl.u5h, Some(num(0.7)));
            assert_eq!(rl.source, Some(url));
            assert_eq!(port, None);
        }
        other => panic!("{:?}", other),
    }
}

#[test]
fn a_named_service_that_is_silent_gives_nothing() {
    for answer in [None, Some("{}".to_string()), Some("?".to_string())] {
        let (mut poll, _) = RatelimitPoll::begin(Some("h:1".to_string()), num(NOW));
        match poll.answered(answer, &sub) {
            PollAction::Finish(rl, port) => {
                assert!(!rl.available);
                assert_eq!(port, None);
            }
            other => panic!("{:?}", other),
        }
    }
}

#[test]
fn a_poll_of_a_bad_address_ends_at_once() {
    let (_, action) = RatelimitPoll::begin(Some("h:x".to_string()), num(NOW));
    assert!(matches!(action, PollAction::Finish(rl, None) if !rl.available));
}

// ---------------------------------------------------------------- the search

#[test]
fn a_search_asks_all_local_services() {
    let (mut search, action) = PortSearch::begin(None, num(NOW));
    assert!(matches!(action, SearchAction::ListPorts));
    match search.ports_listed(vec![10, 20]) {
        SearchAction::Get(f) => assert_eq!(place(&f), local(10, 700)),
        other => panic!("{:?}", other),
    }
    match search.answered(body(NOW - 5.0, 0.1), &sub) {
        SearchAction::Get(f) => assert_eq!(place(&f), local(20, 700)),
        other => panic!("{:?}", other),
    }
    let action = search.answered(body(NOW - 3.0, 0.1), &sub);
    assert!(matches!(action, SearchAction::Finish(Some(20))));
}

#[test]
fn a_search_may_find_nothing() {
    let (mut search, _) = PortSearch::begin(None, num(NOW));
    assert!(matches!(search.ports_listed(Vec::new()), SearchAction::Finish(None)));
    let (mut search, _) = PortSearch::begin(None, num(NOW));
    search.ports_listed(vec![1, 2, 3]);
    search.answered(None, &sub);
    search.answered(Some("{\"at\":1704067200000}".to_string()), &sub);
    assert!(matches!(search.answered(body(NOW - 300_001.0, 0.1), &sub), SearchAction::Finish(None)));
}

#[test]
fn a_port_that_is_named_is_taken_unasked() {
    let (_, action) = PortSearch::begin(Some("http://h:4096/x".to_string()), num(NOW));
    assert!(matches!(action, SearchAction::Finish(Some(4096))));
    let (_, action) = PortSearch::begin(Some("h".to_string()), num(NOW));
    assert!(matches!(action, SearchAction::Finish(Some(80))));
}

#[test]
fn a_search_asks_where_the_address_is_bad() {
    let (_, action) = PortSearch::begin(Some("h:x".to_string()), num(NOW));
    assert!(matches!(action, SearchAction::ListPorts));
}
