use pulse::http::Fetch;
use pulse::importer::{ImportAction, ImportMemory, ImportRun, SampleState};
use pulse::log::{log_text, sample_fields, usage_fields, Field, FieldValue, Sample};
use pulse::messages::{import_messages, read_messages, MessageFields, UsageRecord};
use pulse::num::Num;
use pulse::ratelimit::RatelimitFields;
use pulse::sessions::{newest_first, newest_sessions, sessions_to_scan, SessionEntry};
use pulse::text::{chars_of, split_lines};

const NOW: i64 = 1_704_067_200_000;

fn num(x: f64) -> Num {
    Num { bits: x.to_bits() }
}

fn add(a: Num, b: Num) -> Num {
    num(f64::from_bits(a.bits) + f64::from_bits(b.bits))
}

fn bytes(s: &str) -> Vec<u8> {
    s.as_bytes().to_vec()
}

fn place(f: &Fetch) -> (String, u16, String, u64) {
    (f.host.clone(), f.port, f.path.clone(), f.timeout_ms)
}

fn local(port: u16, path: &str, timeout: u64) -> (String, u16, String, u64) {
    ("127.0.0.1".to_string(), port, path.to_string(), timeout)
}

fn message(id: &str, input: f64) -> MessageFields {
    MessageFields {
        role: Some("assistant".to_string()),
        id: Some(id.to_string()),
        is_completed: true,
        completed: Some(num(1_000.75)),
        created: None,
        input: Some(num(input)),
        output: None,
        cache_read: None,
        cache_write: None,
        model: None,
    }
}

fn json_message(id: &str, input: u32) -> String {
    format!(
        "{{\"info\":{{\"role\":\"assistant\",\"id\":\"{}\",\"time\":{{\"completed\":5}},\"tokens\":{{\"input\":{}}}}}}}",
        id, input
    )
}

fn limits(u5h: Option<f64>, reset5h: Option<f64>) -> RatelimitFields {
    RatelimitFields {
        u5h: u5h.map(num),
        u7d: None,
        reset5h: reset5h.map(num),
        reset7d: None,
        status: Some("allowed".to_string()),
        plan: Some("Pro".to_string()),
        at: None,
    }
}

fn entry(updated: f64, id: Option<&str>) -> SessionEntry {
    SessionEntry { updated: num(updated), id: id.map(|s| s.to_string()) }
}

fn ids(records: &[UsageRecord]) -> Vec<String> {
    records.iter().map(|r| r.id.clone()).collect()
}

/// Imports lists of messages one after the other with one memory of ids.
fn import_lists(lists: Vec<Vec<MessageFields>>) -> Vec<Vec<String>> {
    let mut memory = ImportMemory::new();
    lists
        .into_iter()
        .map(|list| ids(&import_messages(&mut memory.seen, &list, num(NOW as f64), &add)))
        .collect()
}

fn shown(fields: &[Field]) -> Vec<String> {
    fields
        .iter()
        .map(|f| {
            let value = match &f.value {
                FieldValue::Null => "null".to_string(),
                FieldValue::Flag(b) => format!("{}", b),
                FieldValue::Whole(n) => format!("{}", n),
                FieldValue::Double(n) => format!("{:?}", f64::from_bits(n.bits)),
                FieldValue::Text(s) => format!("{:?}", s),
            };
            format!("{}={}", f.key, value)
        })
        .collect()
}

// ---------------------------------------------------------------- sessions

#[test]
fn the_newest_come_first() {
    let keys = vec![num(1.0), num(3.0), num(2.0), num(3.0), num(-1.0), num(0.0), num(-0.0)];
    assert_eq!(newest_first(&keys), vec![1, 3, 2, 0, 5, 6, 4]);
    assert_eq!(newest_first(&Vec::new()), Vec::<usize>::new());
}

#[test]
fn sessions_without_an_id_count_for_the_limit() {
    let entries = vec![entry(1.0, Some("a")), entry(4.0, None), entry(3.0, Some("b")), entry(2.0, Some("c"))];
    assert_eq!(newest_sessions(&entries, 3), vec!["b", "c"]);
    assert_eq!(newest_sessions(&entries, 9), vec!["b", "c", "a"]);
    assert_eq!(newest_sessions(&entries, 0), Vec::<String>::new());
}

#[test]
fn the_sessions_to_scan_are_read_off_the_list() {
    let body = bytes(
        "[{\"id\":\"old\",\"time\":{\"updated\":10}},{\"id\":\"none\"},{\"id\":7,\"time\":{\"updated\":99}},\
          {\"id\":\"new\",\"time\":{\"updated\":20.5}}]",
    );
    assert_eq!(sessions_to_scan(&body, true).unwrap(), vec!["new", "old", "none"]);
    assert_eq!(sessions_to_scan(&body, false).unwrap(), vec!["new", "old"]);
}

#[test]
fn more_sessions_are_scanned_at_first() {
    let items: Vec<String> = (0..20).map(|i| format!("{{\"id\":\"s{}\",\"time\":{{\"updated\":{}}}}}", i, i)).collect();
    let body = bytes(&format!("[{}]", items.join(",")));
    let first = sessions_to_scan(&body, true).unwrap();
    assert_eq!(first.len(), 12);
    assert_eq!(first[0], "s19");
    assert_eq!(first[11], "s8");
    assert_eq!(sessions_to_scan(&body, false).unwrap(), vec!["s19", "s18", "s17"]);
}

#[test]
fn a_list_that_is_no_array_holds_no_sessions() {
    assert!(sessions_to_scan(&bytes("{}"), true).is_none());
    assert!(sessions_to_scan(&bytes("x"), true).is_none());
    assert!(sessions_to_scan(&vec![255], true).is_none());
    assert_eq!(sessions_to_scan(&bytes("[]"), true), Some(Vec::new()));
}

// ---------------------------------------------------------------- messages

#[test]
fn messages_are_read_wrapped_or_not() {
    let body = bytes(
        "[{\"info\":{\"role\":\"assistant\",\"id\":\"m1\",\"time\":{\"created\":1,\"completed\":2.5},\
          \"tokens\":{\"input\":10,\"output\":20,\"cache\":{\"read\":30,\"write\":40}},\"modelID\":\"big\"}},\
          {\"role\":\"user\",\"id\":\"m2\",\"time\":{\"completed\":null}},5]",
    );
    let list = read_messages(&body).unwrap();
    assert_eq!(list.len(), 3);
    let m = &list[0];
    assert_eq!(m.role, Some("assistant".to_string()));
    assert_eq!(m.id, Some("m1".to_string()));
    assert!(m.is_completed);
    assert_eq!(m.completed, Some(num(2.5)));
    assert_eq!(m.created, Some(num(1.0)));
    assert_eq!(m.input, Some(num(10.0)));
    assert_eq!(m.output, Some(num(20.0)));
    assert_eq!(m.cache_read, Some(num(30.0)));
    assert_eq!(m.cache_write, Some(num(40.0)));
    assert_eq!(m.model, Some("big".to_string()));
    let m = &list[1];
    assert_eq!(m.role, Some("user".to_string()));
    assert!(!m.is_completed);
    assert_eq!(m.completed, None);
    assert_eq!(m.input, None);
    assert_eq!(list[2].role, None);
    assert!(!list[2].is_completed);
}

#[test]
fn a_list_that_is_no_array_holds_no_messages() {
    assert!(read_messages(&bytes("{\"a\":[]}")).is_none());
    assert!(read_messages(&bytes("[")).is_none());
    assert_eq!(read_messages(&bytes("[]")).unwrap().len(), 0);
}

#[test]
fn a_message_becomes_a_record() {
    let mut m = message("m", 10.0);
    m.output = Some(num(20.0));
    m.cache_read = Some(num(30.0));
    m.model = Some("big".to_string());
    let mut memory = ImportMemory::new();
    let records = import_messages(&mut memory.seen, &vec![m], num(NOW as f64), &add);
    assert_eq!(records.len(), 1);
    let r = &records[0];
    assert_eq!(r.t, 1_000);
    assert_eq!(r.input, num(10.0));
    assert_eq!(r.output, num(20.0));
    assert_eq!(r.cache_read, num(30.0));
    assert_eq!(r.cache_write, num(0.0));
    assert_eq!(r.model, "big");
    assert_eq!(r.id, "m");
    assert!(memory.seen.contains("m"));
}

#[test]
fn a_message_has_the_time_of_its_making_or_now() {
    let mut created = message("a", 1.0);
    created.completed = None;
    created.created = Some(num(77.9));
    let mut timeless = message("b", 1.0);
    timeless.completed = None;
    let mut memory = ImportMemory::new();
    let records = import_messages(&mut memory.seen, &vec![created, timeless], num(NOW as f64), &add);
    assert_eq!(records.iter().map(|r| r.t).collect::<Vec<i64>>(), vec![77, NOW]);
    assert_eq!(records[0].model, "");
}

#[test]
fn messages_without_usage_are_passed_over() {
    let mut user = message("user", 1.0);
    user.role = Some("user".to_string());
    let mut nobody = message("nobody", 1.0);
    nobody.role = None;
    let mut nameless = message("x", 1.0);
    nameless.id = None;
    let mut running = message("running", 1.0);
    running.is_completed = false;
    let mut silent = message("silent", 1.0);
    silent.input = None;
    let zero = message("zero", 0.0);
    let mut even = message("even", 5.0);
    even.output = Some(num(-5.0));
    let lists = vec![vec![user, nobody, nameless, running, silent, zero, even, message("good", 1.0)]];
    assert_eq!(import_lists(lists), vec![vec!["good".to_string()]]);
}

#[test]
fn no_message_is_imported_twice() {
    let lists = vec![
        vec![message("a", 1.0), message("b", 1.0), message("a", 2.0)],
        vec![message("b", 3.0), message("c", 1.0)],
        vec![message("a", 1.0), message("b", 1.0), message("c", 9.0)],
    ];
    assert_eq!(
        import_lists(lists),
        vec![vec!["a".to_string(), "b".to_string()], vec!["c".to_string()], vec![]]
    );
}

#[test]
fn a_message_is_imported_once_it_is_completed() {
    let mut running = message("a", 1.0);
    running.is_completed = false;
    assert_eq!(
        import_lists(vec![vec![running], vec![message("a", 4.0)]]),
        vec![vec![], vec!["a".to_string()]]
    );
}

#[test]
fn a_message_that_is_not_finalized_waits() {
    let mut memory = ImportMemory::new();
    let body = |completed: &str| {
        bytes(&format!(
            "[{{\"id\":\"m\",\"role\":\"assistant\",\"time\":{{\"created\":1,\"completed\":{}}},\"tokens\":{{\"input\":5}}}}]",
            completed
        ))
    };
    for (completed, expected) in [("null", 0), ("\"x\"", 1), ("7", 0)] {
        let list = read_messages(&body(completed)).unwrap();
        let records = import_messages(&mut memory.seen, &list, num(9.0), &add);
        assert_eq!(records.len(), expected);
    }
    let mut memory = ImportMemory::new();
    assert!(import_messages(&mut memory.seen, &read_messages(&body("null")).unwrap(), num(9.0), &add).is_empty());
    let records = import_messages(&mut memory.seen, &read_messages(&body("7")).unwrap(), num(9.0), &add);
    assert_eq!(records[0].t, 7);
}

#[test]
fn two_imports_add_up_to_one() {
    let one = import_lists(vec![vec![message("a", 1.0), message("b", 1.0), message("a", 1.0), message("c", 1.0)]]);
    let two = import_lists(vec![
        vec![message("a", 1.0), message("b", 1.0)],
        vec![message("a", 1.0), message("c", 1.0)],
    ]);
    assert_eq!(one.concat(), two.concat());
}

// ---------------------------------------------------------------- samples

#[test]
fn a_first_sample_is_written() {
    let mut state = SampleState::new();
    let s = state.take(limits(Some(0.5), None), 1).unwrap();
    assert_eq!(s.t, 1);
    assert_eq!(s.u5h, Some(num(0.5)));
    assert_eq!(s.u7d, None);
    assert_eq!(s.status, Some("allowed".to_string()));
    assert_eq!(s.plan, Some("Pro".to_string()));
}

#[test]
fn an_unchanged_sample_waits_its_time() {
    let mut state = SampleState::new();
    assert!(state.take(limits(Some(0.5), None), NOW).is_some());
    assert!(state.take(limits(Some(0.5), None), NOW + 54_999).is_none());
    assert!(state.take(limits(Some(0.5), None), NOW + 55_000).is_some());
    assert_eq!(state.written_at, NOW + 55_000);
}

#[test]
fn a_changed_sample_is_written_at_once() {
    let mut state = SampleState::new();
    assert!(state.take(limits(Some(0.5), None), NOW).is_some());
    assert!(state.take(limits(Some(0.6), None), NOW + 1).is_some());
    assert!(state.take(limits(Some(0.6), Some(1.0)), NOW + 2).is_some());
    assert!(state.take(limits(Some(0.6), Some(1.0)), NOW + 3).is_none());
    assert_eq!(state.written_at, NOW + 2);
}

#[test]
fn a_clock_that_jumps_is_no_matter() {
    let mut state = SampleState::new();
    assert!(state.take(limits(Some(0.5), None), i64::MIN).is_some());
    assert!(state.take(limits(Some(0.5), None), i64::MAX).is_some());
    assert!(state.take(limits(Some(0.5), None), i64::MIN).is_none());
}

#[test]
fn limits_without_use_are_no_sample() {
    let mut state = SampleState::new();
    assert!(state.take(limits(None, Some(1.0)), NOW).is_none());
    assert!(state.last.is_none());
}

// ---------------------------------------------------------------- the run

/// An import up to the list of sessions, on port 9 and with no sample due.
fn upto_sessions(memory: &mut ImportMemory, now: i64) -> ImportRun {
    let (mut run, action) = ImportRun::begin(memory, now, num(now as f64));
    assert!(matches!(action, ImportAction::FindPort));
    match run.port_found(Some(9)) {
        ImportAction::GetLimits(f) => assert_eq!(place(&f), local(9, "/ratelimit", 800)),
        other => panic!("{:?}", other),
    }
    match run.limits_read(memory, None) {
        ImportAction::GetSessions(f) => assert_eq!(place(&f), local(9, "/session", 2500)),
        other => panic!("{:?}", other),
    }
    run
}

#[test]
fn imports_keep_their_distance() {
    let mut memory = ImportMemory::new();
    let (_, action) = ImportRun::begin(&mut memory, 3_999, num(3_999.0));
    assert!(matches!(action, ImportAction::Finish(0)));
    assert_eq!(memory.last_import, 0);
    let (_, action) = ImportRun::begin(&mut memory, NOW, num(NOW as f64));
    assert!(matches!(action, ImportAction::FindPort));
    let (_, action) = ImportRun::begin(&mut memory, NOW + 3_999, num(0.0));
    assert!(matches!(action, ImportAction::Finish(0)));
    let (_, action) = ImportRun::begin(&mut memory, NOW + 4_000, num(0.0));
    assert!(matches!(action, ImportAction::FindPort));
}

#[test]
fn an_import_without_a_service_ends() {
    let mut memory = ImportMemory::new();
    let (mut run, _) = ImportRun::begin(&mut memory, NOW, num(NOW as f64));
    assert!(matches!(run.port_found(None), ImportAction::Finish(0)));
}

#[test]
fn an_import_writes_a_sample_that_is_due() {
    let mut memory = ImportMemory::new();
    let (mut run, _) = ImportRun::begin(&mut memory, NOW, num(NOW as f64));
    run.port_found(Some(9));
    let body = "{\"unified7dUtilization\":0.75,\"unified7dReset\":12,\"planLabel\":\"Pro\"}".to_string();
    match run.limits_read(&mut memory, Some(body.clone())) {
        ImportAction::AppendSample(s) => {
            assert_eq!(s.t, NOW);
            assert_eq!(s.u7d, Some(num(0.75)));
            assert_eq!(s.reset7d, Some(num(12.0)));
            assert_eq!(s.plan, Some("Pro".to_string()));
        }
        other => panic!("{:?}", other),
    }
    assert!(matches!(run.sample_written(&mut memory, true), ImportAction::GetSessions(_)));
    // The same limits are not written again so soon.
    let (mut run, _) = ImportRun::begin(&mut memory, NOW + 5_000, num(NOW as f64));
    run.port_found(Some(9));
    assert!(matches!(run.limits_read(&mut memory, Some(body)), ImportAction::GetSessions(_)));
}

#[test]
fn a_sample_that_could_not_be_written_is_tried_again() {
    let mut memory = ImportMemory::new();
    let body = "{\"unified5hUtilization\":0.5}".to_string();
    for (now, ok) in [(NOW, false), (NOW + 5_000, true)] {
        let (mut run, _) = ImportRun::begin(&mut memory, now, num(now as f64));
        run.port_found(Some(9));
        assert!(matches!(run.limits_read(&mut memory, Some(body.clone())), ImportAction::AppendSample(_)));
        assert!(matches!(run.sample_written(&mut memory, ok), ImportAction::GetSessions(_)));
        assert_eq!(memory.sample.last.is_some(), ok);
    }
    assert_eq!(memory.sample.written_at, NOW + 5_000);
}

#[test]
fn limits_that_cannot_be_read_are_passed_over() {
    let mut memory = ImportMemory::new();
    for text in ["no json", "{}", "{\"unified5hUtilization\":null}"] {
        let now = memory.last_import + NOW;
        let (mut run, _) = ImportRun::begin(&mut memory, now, num(now as f64));
        run.port_found(Some(9));
        assert!(matches!(run.limits_read(&mut memory, Some(text.to_string())), ImportAction::GetSessions(_)));
        assert!(memory.sample.last.is_none());
    }
}

#[test]
fn an_import_scans_the_sessions_and_writes_what_they_give() {
    let mut memory = ImportMemory::new();
    let mut run = upto_sessions(&mut memory, NOW);
    let sessions = bytes("[{\"id\":\"s1\",\"time\":{\"updated\":1}},{\"id\":\"s2\",\"time\":{\"updated\":2}},{\"id\":\"s3\"}]");
    match run.sessions_read(&memory, Some(sessions)) {
        ImportAction::GetMessages(f) => assert_eq!(place(&f), local(9, "/session/s2/message", 3000)),
        other => panic!("{:?}", other),
    }
    let body = bytes(&format!("[{},{}]", json_message("a", 1), json_message("b", 0)));
    match run.messages_read(&mut memory, Some(body), &add) {
        ImportAction::GetMessages(f) => assert_eq!(place(&f), local(9, "/session/s1/message", 3000)),
        other => panic!("{:?}", other),
    }
    match run.messages_read(&mut memory, None, &add) {
        ImportAction::GetMessages(f) => assert_eq!(place(&f), local(9, "/session/s3/message", 3000)),
        other => panic!("{:?}", other),
    }
    let body = bytes(&format!("[{},{}]", json_message("a", 1), json_message("c", 2)));
    match run.messages_read(&mut memory, Some(body), &add) {
        ImportAction::AppendUsage(records) => assert_eq!(ids(&records), vec!["a", "c"]),
        other => panic!("{:?}", other),
    }
    assert!(matches!(run.usage_written(&mut memory, true), ImportAction::Finish(2)));
    assert!(memory.seen.contains("a") && memory.seen.contains("c"));
}

#[test]
fn usage_that_cannot_be_written_is_not_counted_and_comes_back() {
    let mut memory = ImportMemory::new();
    memory.seen.insert("z".to_string());
    for (now, ok, expected) in [(NOW, false, 0), (NOW + 5_000, true, 1)] {
        let mut run = upto_sessions(&mut memory, now);
        run.sessions_read(&memory, Some(bytes("[{\"id\":\"s\"}]")));
        match run.messages_read(&mut memory, Some(bytes(&format!("[{}]", json_message("a", 1)))), &add) {
            ImportAction::AppendUsage(records) => assert_eq!(ids(&records), vec!["a"]),
            other => panic!("{:?}", other),
        }
        assert!(memory.seen.contains("a"));
        match run.usage_written(&mut memory, ok) {
            ImportAction::Finish(n) => assert_eq!(n, expected),
            other => panic!("{:?}", other),
        }
        assert_eq!(memory.seen.contains("a"), ok);
        assert!(memory.seen.contains("z"));
    }
}

#[test]
fn an_import_without_sessions_ends() {
    for body in [None, Some(bytes("x")), Some(bytes("{}")), Some(bytes("[]")), Some(bytes("[{}]"))] {
        let mut memory = ImportMemory::new();
        let mut run = upto_sessions(&mut memory, NOW);
        assert!(matches!(run.sessions_read(&memory, body), ImportAction::Finish(0)));
    }
}

#[test]
fn an_import_of_nothing_new_ends() {
    for body in [None, Some(bytes("x")), Some(bytes("{}")), Some(bytes("[1]"))] {
        let mut memory = ImportMemory::new();
        let mut run = upto_sessions(&mut memory, NOW);
        run.sessions_read(&memory, Some(bytes("[{\"id\":\"s\"}]")));
        assert!(matches!(run.messages_read(&mut memory, body, &add), ImportAction::Finish(0)));
    }
}

#[test]
fn a_later_import_scans_fewer_sessions() {
    let items: Vec<String> = (0..20).map(|i| format!("{{\"id\":\"s{}\"}}", i)).collect();
    let sessions = bytes(&format!("[{}]", items.join(",")));
    let mut memory = ImportMemory::new();
    for (now, expected) in [(NOW, 12), (NOW + 10_000, 12), (NOW + 20_000, 3)] {
        let mut run = upto_sessions(&mut memory, now);
        let mut action = run.sessions_read(&memory, Some(sessions.clone()));
        let mut asked = 0;
        while let ImportAction::GetMessages(_) = action {
            asked += 1;
            let body = if now == NOW { None } else { Some(bytes(&format!("[{}]", json_message("m", 1)))) };
            action = run.messages_read(&mut memory, body, &add);
        }
        assert_eq!(asked, expected);
    }
}

// ---------------------------------------------------------------- the log

#[test]
fn a_sample_has_its_fields() {
    let s = Sample {
        t: 5,
        u5h: Some(num(0.5)),
        u7d: None,
        reset5h: Some(num(10.0)),
        reset7d: None,
        status: None,
        plan: Some("Pro".to_string()),
    };
    assert_eq!(
        shown(&sample_fields(&s)),
        vec![
            "t=5",
            "kind=\"ratelimit\"",
            "u5h=0.5",
            "u7d=null",
            "reset5h=10.0",
            "reset7d=null",
            "rlStatus=null",
            "plan=\"Pro\"",
            "source=\"opencode-live-rust\"",
        ]
    );
}

#[test]
fn a_record_has_its_fields() {
    let r = UsageRecord {
        t: 5,
        input: num(1.0),
        output: num(2.0),
        cache_read: num(3.0),
        cache_write: num(4.5),
        model: "big".to_string(),
        id: "m".to_string(),
    };
    assert_eq!(
        shown(&usage_fields(&r)),
        vec![
            "t=5",
            "kind=\"request\"",
            "status=200",
            "input=1.0",
            "output=2.0",
            "cacheRead=3.0",
            "cacheWrite=4.5",
            "model=\"big\"",
            "rateLimited=false",
            "durationMs=0",
            "source=\"opencode-live-rust\"",
            "msgId=\"m\"",
        ]
    );
}

#[test]
fn lines_are_appended_with_line_feeds() {
    assert_eq!(log_text(&vec!["a".to_string(), "b".to_string()]), "a\nb\n");
    assert_eq!(log_text(&Vec::new()), "");
}

#[test]
fn lines_that_were_appended_are_read_back() {
    let lines = vec!["{\"t\":1}".to_string(), "".to_string(), "{\"t\":2}".to_string()];
    let text = log_text(&lines);
    for old in ["", "{\"t\":0}\n", "a\r\n\nb\n"] {
        let log = format!("{}{}", old, text);
        let back: Vec<String> = split_lines(&chars_of(&log)).iter().map(|l| l.iter().collect()).collect();
        let mut expected: Vec<String> = old.lines().map(|l| l.to_string()).collect();
        expected.extend(lines.clone());
        assert_eq!(back, expected);
    }
}
