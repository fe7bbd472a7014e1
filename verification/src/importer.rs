//! An import of usage, step by step: each step says what to do next, and what comes of it
//! is handed to the step after it. What is kept from one import to the next is apart.
use crate::http::{is_fetch, local_fetch, messages_path, messages_place, Fetch};
use crate::json::{json_tree, parse_text, text_tree};
use crate::log::Sample;
use crate::messages::{
    are_messages, ids_in, import_messages, imports, read_messages, seen_after, usages, without,
    MessageFields, Usage, UsageRecord,
};
use crate::num::{is_operation, meaning, Num};
use crate::ratelimit::{are_fields_of, ratelimit_fields, tells_use, RatelimitFields};
use crate::sessions::{
    are_newest, items_in, scan_limit, session_ids, session_times, sessions_to_scan, texts,
};
use crate::clock::fits;
use vstd::hash_set::StringHashSet;
use vstd::prelude::*;
use vstd::string::*;

verus! {

/// Milliseconds that must pass between two imports.
pub const IMPORT_MS: i64 = 4000;

/// Milliseconds after which an unchanged sample is written again.
pub const SAMPLE_MS: i64 = 55_000;

/// For how many milliseconds to wait for the rate limits.
pub const LIMITS_TIMEOUT_MS: u64 = 800;

/// For how many milliseconds to wait for the list of sessions.
pub const SESSIONS_TIMEOUT_MS: u64 = 2500;

/// For how many milliseconds to wait for the messages of a session.
pub const MESSAGES_TIMEOUT_MS: u64 = 3000;

// ---------------------------------------------------------------- samples

/// The numbers of a sample, by which a change is noticed.
#[derive(Debug, Clone, Copy)]
pub struct Signature {
    pub u5h: Option<Num>,
    pub u7d: Option<Num>,
    pub reset5h: Option<Num>,
    pub reset7d: Option<Num>,
}

pub open spec fn signature_of(f: RatelimitFields) -> Signature {
    Signature { u5h: f.u5h, u7d: f.u7d, reset5h: f.reset5h, reset7d: f.reset7d }
}

fn same_number(a: Option<Num>, b: Option<Num>) -> (r: bool)
    ensures
        r == (a == b),
{
    match (a, b) {
        (Some(a), Some(b)) => a.bits == b.bits,
        (None, None) => true,
        _ => false,
    }
}

impl Signature {
    fn same(&self, other: &Signature) -> (r: bool)
        ensures
            r == (*self == *other),
    {
        same_number(self.u5h, other.u5h) && same_number(self.u7d, other.u7d) && same_number(
            self.reset5h,
            other.reset5h,
        ) && same_number(self.reset7d, other.reset7d)
    }
}

/// The last sample that was written, and when.
#[derive(Debug, Clone, Copy)]
pub struct SampleState {
    pub last: Option<Signature>,
    pub written_at: i64,
}

/// Whether a sample is to be written: its numbers have changed, or it is long enough ago
/// that one was.
pub open spec fn is_due(s: SampleState, sig: Signature, now: int) -> bool {
    s.last != Some(sig) || now - s.written_at >= SAMPLE_MS
}

/// Whether a service's fields are to be written as a sample.
pub open spec fn is_sampled(s: SampleState, f: RatelimitFields, now: int) -> bool {
    tells_use(f.u5h, f.u7d) && is_due(s, signature_of(f), now)
}

/// The last sample, after a service's fields.
pub open spec fn after_fields(s: SampleState, f: RatelimitFields, now: i64) -> SampleState {
    if is_sampled(s, f, now as int) {
        SampleState { last: Some(signature_of(f)), written_at: now }
    } else {
        s
    }
}

/// Whether a sample is that of the fields.
pub open spec fn is_sample_of(s: Sample, f: RatelimitFields, now: i64) -> bool {
    &&& s.t == now
    &&& s.u5h == f.u5h
    &&& s.u7d == f.u7d
    &&& s.reset5h == f.reset5h
    &&& s.reset7d == f.reset7d
    &&& s.status == f.status
    &&& s.plan == f.plan
}

impl SampleState {
    pub fn new() -> (r: SampleState)
        ensures
            r.last is None,
            r.written_at == 0,
    {
        SampleState { last: None, written_at: 0 }
    }

    /// Makes a sample of a service's fields, where they tell of the use of a limit and the
    /// sample is due.
    pub fn take(&mut self, f: RatelimitFields, now: i64) -> (r: Option<Sample>)
        ensures
            r is Some <==> is_sampled(*old(self), f, now as int),
            r matches Some(s) ==> is_sample_of(s, f, now),
            *final(self) == after_fields(*old(self), f, now),
    {
        if f.u5h.is_none() && f.u7d.is_none() {
            return None;
        }
        let sig: Signature = Signature {
            u5h: f.u5h,
            u7d: f.u7d,
            reset5h: f.reset5h,
            reset7d: f.reset7d,
        };
        let unchanged: bool = match &self.last {
            Some(last) => last.same(&sig),
            None => false,
        };
        if unchanged && (now as i128) - (self.written_at as i128) < SAMPLE_MS as i128 {
            return None;
        }
        self.last = Some(sig);
        self.written_at = now;
        Some(
            Sample {
                t: now,
                u5h: f.u5h,
                u7d: f.u7d,
                reset5h: f.reset5h,
                reset7d: f.reset7d,
                status: f.status,
                plan: f.plan,
            },
        )
    }
}

/// A sample that was written is not written again before its time, unless its numbers
/// change.
pub proof fn samples_keep_their_distance(
    s: SampleState,
    f: RatelimitFields,
    g: RatelimitFields,
    now: i64,
    later: i64,
)
    requires
        is_sampled(s, f, now as int),
        signature_of(g) == signature_of(f),
        later < now + SAMPLE_MS,
    ensures
        !is_sampled(after_fields(s, f, now), g, later as int),
{
}

/// A change of the numbers is written at once.
pub proof fn changes_are_sampled(
    s: SampleState,
    f: RatelimitFields,
    g: RatelimitFields,
    now: i64,
    later: i64,
)
    requires
        is_sampled(s, f, now as int),
        signature_of(g) != signature_of(f),
        tells_use(g.u5h, g.u7d),
    ensures
        is_sampled(after_fields(s, f, now), g, later as int),
{
}

// ---------------------------------------------------------------- memory

/// What is kept from one import to the next.
pub struct ImportMemory {
    /// The ids of the messages that went into the log.
    pub seen: StringHashSet,
    pub last_import: i64,
    pub sample: SampleState,
}

impl ImportMemory {
    pub fn new() -> (r: ImportMemory)
        ensures
            r.seen@ == Set::<Seq<char>>::empty(),
            r.last_import == 0,
            r.sample.last is None,
            r.sample.written_at == 0,
    {
        ImportMemory { seen: StringHashSet::new(), last_import: 0, sample: SampleState::new() }
    }
}

/// Whether an import may begin: the last one is long enough ago.
pub open spec fn may_begin(m: ImportMemory, now: int) -> bool {
    now - m.last_import >= IMPORT_MS
}

/// Whether a text is to be written as a sample, and as which. Nothing is written of a text
/// that is no JSON.
pub open spec fn is_sample_in(
    r: Option<Sample>,
    before: SampleState,
    after: SampleState,
    body: Seq<char>,
    now: i64,
) -> bool {
    match text_tree(body) {
        Some(j) => exists|f: RatelimitFields|
            #[trigger] are_fields_of(f, j) && is_taken(r, before, after, f, now),
        None => r is None && after == before,
    }
}

/// Whether `r` is the sample that is made of a service's fields.
pub open spec fn is_taken(
    r: Option<Sample>,
    before: SampleState,
    after: SampleState,
    f: RatelimitFields,
    now: i64,
) -> bool {
    &&& r is Some <==> is_sampled(before, f, now as int)
    &&& r matches Some(s) ==> is_sample_of(s, f, now)
    &&& after == after_fields(before, f, now)
}

/// Makes a sample of a service's answer on its rate limits, where it is due.
pub fn sample_answer(state: &mut SampleState, body: &str, now: i64) -> (r: Option<Sample>)
    ensures
        is_sample_in(r, *old(state), *final(state), body@, now),
{
    match parse_text(body) {
        Some(j) => {
            let f: RatelimitFields = ratelimit_fields(&j);
            let ghost fields = f;
            let ghost before = *state;
            let r: Option<Sample> = state.take(f, now);
            assert(are_fields_of(fields, json_tree(j)));
            assert(is_taken(r, before, *state, fields, now));
            r
        },
        None => None,
    }
}

/// What bytes give to be imported, and what was seen after them. Nothing comes of bytes that
/// are no JSON array.
pub open spec fn is_import_of(
    new: Seq<Usage>,
    before: Set<Seq<char>>,
    after: Set<Seq<char>>,
    body: Seq<u8>,
    now: Num,
    add_op: spec_fn(Num, Num) -> Num,
) -> bool {
    match items_in(body) {
        Some(items) => exists|list: Seq<MessageFields>|
            #[trigger] are_messages(list, items) && new == imports(before, list, now, add_op)
                && after == seen_after(before, list, add_op),
        None => new == Seq::<Usage>::empty() && after == before,
    }
}

/// Imports the messages of a session from a service's list of them. `now` stands in for a
/// message's time where it has none, and `add_op` adds two numbers up.
pub fn import_answer<F: Fn(Num, Num) -> Num>(
    seen: &mut StringHashSet,
    body: &Vec<u8>,
    now: Num,
    add_op: &F,
) -> (r: Vec<UsageRecord>)
    requires
        is_operation(*add_op),
    ensures
        is_import_of(usages(r@), old(seen)@, final(seen)@, body@, now, meaning(*add_op)),
{
    match read_messages(body) {
        Some(list) => import_messages(seen, &list, now, add_op),
        None => {
            let r: Vec<UsageRecord> = Vec::new();
            assert(usages(r@) =~= seq![]);
            r
        },
    }
}

// ---------------------------------------------------------------- steps

/// What to do next in an import.
#[derive(Debug)]
pub enum ImportAction {
    /// Find the port of the service with the freshest answer.
    FindPort,
    /// Ask the service for its rate limits, as text.
    GetLimits(Fetch),
    /// Append a sample of the rate limits to the log.
    AppendSample(Sample),
    /// Ask the service for its sessions, as bytes.
    GetSessions(Fetch),
    /// Ask the service for the messages of a session, as bytes.
    GetMessages(Fetch),
    /// Append the usage of messages to the log.
    AppendUsage(Vec<UsageRecord>),
    /// The import is over, and has written this many lines of usage.
    Finish(usize),
}

/// The sessions that are scanned: all before `next` have been, and gave `records`.
#[derive(Debug)]
pub struct SessionScan {
    pub port: u16,
    pub ids: Vec<String>,
    pub next: usize,
    pub records: Vec<UsageRecord>,
}

/// What an import is waiting for.
#[derive(Debug)]
pub enum ImportStage {
    /// The port of the service.
    Port,
    /// The rate limits.
    Limits(u16),
    /// The sample to be written; the last one before it is kept.
    Sample(u16, SampleState),
    /// The list of sessions.
    Sessions(u16),
    /// The messages of a session.
    Messages(SessionScan),
    /// The usage to be written, of messages with these ids.
    Usage(Vec<String>),
    Over,
}

/// An import of usage.
#[derive(Debug)]
pub struct ImportRun {
    pub stage: ImportStage,
    /// The time of the import, in milliseconds since the epoch.
    pub now: i64,
    /// The same time as a number.
    pub now_num: Num,
}

/// Whether an import goes on to the list of sessions.
pub open spec fn lists_sessions(stage: ImportStage, action: ImportAction, port: u16) -> bool {
    &&& stage == ImportStage::Sessions(port)
    &&& action matches ImportAction::GetSessions(f) && is_fetch(
        f,
        "127.0.0.1"@,
        port,
        "/session"@,
        SESSIONS_TIMEOUT_MS,
    )
}

/// Whether an import goes on with a scan that has given `records` so far: the next session
/// is looked at, and after the last one the records are written, if there are any.
pub open spec fn goes_on(
    stage: ImportStage,
    action: ImportAction,
    port: u16,
    ids: Seq<Seq<char>>,
    next: int,
    records: Seq<Usage>,
) -> bool {
    if next < ids.len() {
        &&& stage matches ImportStage::Messages(s) && s.port == port && texts(s.ids@) == ids && s.next
            == next && usages(s.records@) == records
        &&& action matches ImportAction::GetMessages(f) && is_fetch(
            f,
            "127.0.0.1"@,
            port,
            messages_place(ids[next]),
            MESSAGES_TIMEOUT_MS,
        )
    } else if records.len() == 0 {
        stage is Over && action == ImportAction::Finish(0)
    } else {
        &&& stage matches ImportStage::Usage(ids) && texts(ids@) == ids_in(records)
        &&& action matches ImportAction::AppendUsage(list) && usages(list@) == records
    }
}

/// Whether the ids are those of the sessions to scan, of the service's list of them.
pub open spec fn are_scanned(ids: Seq<Seq<char>>, items: Seq<crate::json::Json>, first_run: bool) -> bool {
    are_newest(ids, session_times(items), session_ids(items), scan_limit(first_run))
}

/// Whether an import has taken the messages of a session in and goes on with its scan.
pub open spec fn takes_messages(
    s: SessionScan,
    stage: ImportStage,
    action: ImportAction,
    before: Set<Seq<char>>,
    after: Set<Seq<char>>,
    body: Seq<u8>,
    now: Num,
    add_op: spec_fn(Num, Num) -> Num,
) -> bool {
    exists|new: Seq<Usage>|
        #[trigger] is_import_of(new, before, after, body, now, add_op) && goes_on(
            stage,
            action,
            s.port,
            texts(s.ids@),
            s.next + 1,
            usages(s.records@) + new,
        )
}

fn list_sessions(port: u16) -> (r: ImportAction)
    ensures
        lists_sessions(ImportStage::Sessions(port), r, port),
{
    ImportAction::GetSessions(local_fetch(port, "/session", SESSIONS_TIMEOUT_MS))
}

/// Goes on with a scan.
fn go_on(scan: SessionScan) -> (r: (ImportStage, ImportAction))
    ensures
        goes_on(r.0, r.1, scan.port, texts(scan.ids@), scan.next as int, usages(scan.records@)),
{
    if scan.next < scan.ids.len() {
        let path: String = messages_path(scan.ids[scan.next].as_str());
        let fetch: Fetch = local_fetch(scan.port, path.as_str(), MESSAGES_TIMEOUT_MS);
        (ImportStage::Messages(scan), ImportAction::GetMessages(fetch))
    } else if scan.records.len() == 0 {
        (ImportStage::Over, ImportAction::Finish(0))
    } else {
        (ImportStage::Usage(ids_of_records(&scan.records)), ImportAction::AppendUsage(scan.records))
    }
}

fn ids_of_records(records: &Vec<UsageRecord>) -> (r: Vec<String>)
    ensures
        texts(r@) == ids_in(usages(records@)),
{
    let mut r: Vec<String> = Vec::new();
    let mut i: usize = 0;
    while i < records.len()
        invariant
            i <= records@.len(),
            r@.len() == i,
            forall|k: int| 0 <= k < i ==> (#[trigger] r@[k])@ == records@[k].id@,
        decreases records@.len() - i,
    {
        r.push(records[i].id.clone());
        i += 1;
    }
    assert(texts(r@) =~= ids_in(usages(records@)));
    r
}

impl ImportRun {
    /// Begins an import, unless the last one is too recent.
    pub fn begin(memory: &mut ImportMemory, now: i64, now_num: Num) -> (r: (
        ImportRun,
        ImportAction,
    ))
        requires
            fits(now - old(memory).last_import),
        ensures
            r.0.now == now,
            r.0.now_num == now_num,
            final(memory).seen@ == old(memory).seen@,
            final(memory).sample == old(memory).sample,
            if may_begin(*old(memory), now as int) {
                &&& final(memory).last_import == now
                &&& r.0.stage is Port
                &&& r.1 is FindPort
            } else {
                &&& final(memory).last_import == old(memory).last_import
                &&& r.0.stage is Over
                &&& r.1 == ImportAction::Finish(0)
            },
    {
        if now - memory.last_import < IMPORT_MS {
            return (
                ImportRun { stage: ImportStage::Over, now, now_num },
                ImportAction::Finish(0),
            );
        }
        memory.last_import = now;
        (ImportRun { stage: ImportStage::Port, now, now_num }, ImportAction::FindPort)
    }

    /// Takes in the port of the service, if one was found.
    pub fn port_found(&mut self, port: Option<u16>) -> (r: ImportAction)
        requires
            old(self).stage is Port,
        ensures
            final(self).now == old(self).now,
            final(self).now_num == old(self).now_num,
            match port {
                Some(port) => {
                    &&& final(self).stage == ImportStage::Limits(port)
                    &&& r matches ImportAction::GetLimits(f) && is_fetch(
                        f,
                        "127.0.0.1"@,
                        port,
                        "/ratelimit"@,
                        LIMITS_TIMEOUT_MS,
                    ) && f.timeout_ms == 800
                },
                None => final(self).stage is Over && r == ImportAction::Finish(0),
            },
    {
        match port {
            Some(port) => {
                self.stage = ImportStage::Limits(port);
                ImportAction::GetLimits(local_fetch(port, "/ratelimit", LIMITS_TIMEOUT_MS))
            },
            None => {
                self.stage = ImportStage::Over;
                ImportAction::Finish(0)
            },
        }
    }

    /// Takes in the rate limits, if the service gave them.
    pub fn limits_read(&mut self, memory: &mut ImportMemory, body: Option<String>) -> (r:
        ImportAction)
        requires
            old(self).stage is Limits,
        ensures
            final(self).now == old(self).now,
            final(self).now_num == old(self).now_num,
            final(memory).seen@ == old(memory).seen@,
            final(memory).last_import == old(memory).last_import,
            old(self).stage matches ImportStage::Limits(port) && match r {
                ImportAction::AppendSample(s) => {
                    &&& final(self).stage == ImportStage::Sample(port, old(memory).sample)
                    &&& body matches Some(text) && is_sample_in(
                        Some(s),
                        old(memory).sample,
                        final(memory).sample,
                        text@,
                        old(self).now,
                    )
                },
                _ => {
                    &&& lists_sessions(final(self).stage, r, port)
                    &&& match body {
                        Some(text) => is_sample_in(
                            None,
                            old(memory).sample,
                            final(memory).sample,
                            text@,
                            old(self).now,
                        ),
                        None => final(memory).sample == old(memory).sample,
                    }
                },
            },
    {
        let port: u16 = match self.stage {
            ImportStage::Limits(port) => port,
            _ => 0,
        };
        let before: SampleState = memory.sample;
        let sample: Option<Sample> = match &body {
            Some(text) => sample_answer(&mut memory.sample, text.as_str(), self.now),
            None => None,
        };
        match sample {
            Some(sample) => {
                self.stage = ImportStage::Sample(port, before);
                ImportAction::AppendSample(sample)
            },
            None => {
                self.stage = ImportStage::Sessions(port);
                list_sessions(port)
            },
        }
    }

    /// Goes on after the sample was appended, or could not be. A sample that could not be
    /// appended does not count as written.
    pub fn sample_written(&mut self, memory: &mut ImportMemory, ok: bool) -> (r: ImportAction)
        requires
            old(self).stage is Sample,
        ensures
            final(self).now == old(self).now,
            final(self).now_num == old(self).now_num,
            final(memory).seen@ == old(memory).seen@,
            final(memory).last_import == old(memory).last_import,
            old(self).stage matches ImportStage::Sample(port, before) && {
                &&& lists_sessions(final(self).stage, r, port)
                &&& final(memory).sample == if ok {
                    old(memory).sample
                } else {
                    before
                }
            },
    {
        let port: u16 = match self.stage {
            ImportStage::Sample(port, before) => {
                if !ok {
                    memory.sample = before;
                }
                port
            },
            _ => 0,
        };
        self.stage = ImportStage::Sessions(port);
        list_sessions(port)
    }

    /// Takes in the service's list of its sessions, if it gave one. Nothing comes of a list
    /// that is no JSON array. More sessions are scanned while nothing was imported yet.
    pub fn sessions_read(&mut self, memory: &ImportMemory, body: Option<Vec<u8>>) -> (r:
        ImportAction)
        requires
            old(self).stage is Sessions,
        ensures
            final(self).now == old(self).now,
            final(self).now_num == old(self).now_num,
            old(self).stage matches ImportStage::Sessions(port) && match body {
                Some(bytes) => match items_in(bytes@) {
                    Some(items) => exists|ids: Seq<Seq<char>>|
                        #[trigger] are_scanned(ids, items, memory.seen@.is_empty()) && goes_on(
                            final(self).stage,
                            r,
                            port,
                            ids,
                            0,
                            seq![],
                        ),
                    None => final(self).stage is Over && r == ImportAction::Finish(0),
                },
                None => final(self).stage is Over && r == ImportAction::Finish(0),
            },
    {
        let port: u16 = match self.stage {
            ImportStage::Sessions(port) => port,
            _ => 0,
        };
        let ids: Option<Vec<String>> = match &body {
            Some(bytes) => sessions_to_scan(bytes, memory.seen.is_empty()),
            None => None,
        };
        match ids {
            Some(ids) => {
                let ghost found = texts(ids@);
                let records: Vec<UsageRecord> = Vec::new();
                assert(usages(records@) =~= seq![]);
                let (stage, action) = go_on(SessionScan { port, ids, next: 0, records });
                assert(are_scanned(found, items_in(body->0@)->0, memory.seen@.is_empty()));
                self.stage = stage;
                action
            },
            None => {
                self.stage = ImportStage::Over;
                ImportAction::Finish(0)
            },
        }
    }

    /// Takes in the messages of the session that was asked for, if the service gave them.
    /// `add_op` adds two numbers up.
    pub fn messages_read<F: Fn(Num, Num) -> Num>(
        &mut self,
        memory: &mut ImportMemory,
        body: Option<Vec<u8>>,
        add_op: &F,
    ) -> (r: ImportAction)
        requires
            is_operation(*add_op),
            old(self).stage matches ImportStage::Messages(s) && s.next < s.ids@.len(),
        ensures
            final(self).now == old(self).now,
            final(self).now_num == old(self).now_num,
            final(memory).last_import == old(memory).last_import,
            final(memory).sample == old(memory).sample,
            old(self).stage matches ImportStage::Messages(s) && match body {
                Some(bytes) => takes_messages(
                    s,
                    final(self).stage,
                    r,
                    old(memory).seen@,
                    final(memory).seen@,
                    bytes@,
                    old(self).now_num,
                    meaning(*add_op),
                ),
                None => final(memory).seen@ == old(memory).seen@ && goes_on(
                    final(self).stage,
                    r,
                    s.port,
                    texts(s.ids@),
                    s.next + 1,
                    usages(s.records@),
                ),
            },
    {
        let mut stage: ImportStage = ImportStage::Over;
        core::mem::swap(&mut self.stage, &mut stage);
        match stage {
            ImportStage::Messages(mut scan) => {
                let ghost before = scan;
                let ghost seen = memory.seen@;
                let next: usize = scan.next;
                let count: usize = scan.ids.len();
                assert(next < count);
                scan.next = next + 1;
                match body {
                    Some(bytes) => {
                        let mut new: Vec<UsageRecord> = import_answer(
                            &mut memory.seen,
                            &bytes,
                            self.now_num,
                            add_op,
                        );
                        let ghost given = usages(new@);
                        scan.records.append(&mut new);
                        assert(usages(scan.records@) =~= usages(before.records@) + given);
                        let (stage, action) = go_on(scan);
                        assert(is_import_of(
                            given,
                            seen,
                            memory.seen@,
                            bytes@,
                            self.now_num,
                            meaning(*add_op),
                        ));
                        self.stage = stage;
                        action
                    },
                    None => {
                        let (stage, action) = go_on(scan);
                        self.stage = stage;
                        action
                    },
                }
            },
            _ => ImportAction::Finish(0),
        }
    }

    /// Ends the import after the usage was appended, or could not be. The ids of messages
    /// whose usage could not be appended are forgotten.
    pub fn usage_written(&mut self, memory: &mut ImportMemory, ok: bool) -> (r: ImportAction)
        requires
            old(self).stage is Usage,
        ensures
            final(self).now == old(self).now,
            final(self).now_num == old(self).now_num,
            final(self).stage is Over,
            final(memory).last_import == old(memory).last_import,
            final(memory).sample == old(memory).sample,
            old(self).stage matches ImportStage::Usage(ids) && if ok {
                &&& r == ImportAction::Finish(ids.len())
                &&& final(memory).seen@ == old(memory).seen@
            } else {
                &&& r == ImportAction::Finish(0)
                &&& final(memory).seen@ == without(old(memory).seen@, texts(ids@))
            },
    {
        let mut stage: ImportStage = ImportStage::Over;
        core::mem::swap(&mut self.stage, &mut stage);
        match stage {
            ImportStage::Usage(ids) => {
                if ok {
                    return ImportAction::Finish(ids.len());
                }
                let ghost all = texts(ids@);
                let ghost before = memory.seen@;
                let mut i: usize = 0;
                assert(without(before, all.take(0)) =~= before);
                while i < ids.len()
                    invariant
                        i <= ids@.len(),
                        all == texts(ids@),
                        memory.seen@ == without(before, all.take(i as int)),
                        memory.last_import == old(memory).last_import,
                        memory.sample == old(memory).sample,
                    decreases ids@.len() - i,
                {
                    memory.seen.remove(ids[i].as_str());
                    proof {
                        let upto = all.take(i + 1);
                        assert(upto =~= all.take(i as int).push(all[i as int]));
                        assert(upto.to_set() =~= all.take(i as int).to_set().insert(all[i as int])) by {
                            assert(upto[i as int] == all[i as int]);
                            assert forall|id: Seq<char>|
                                all.take(i as int).contains(id) implies upto.contains(id) by {
                                let k = choose|k: int| 0 <= k < i && all.take(i as int)[k] == id;
                                assert(upto[k] == id);
                            }
                        }
                        assert(without(before, upto) =~= without(before, all.take(i as int)).remove(
                            all[i as int],
                        ));
                    }
                    i += 1;
                }
                assert(all.take(i as int) =~= all);
                ImportAction::Finish(0)
            },
            _ => ImportAction::Finish(0),
        }
    }
}

/// After an import has begun none begins before its time.
pub proof fn imports_keep_their_distance(before: ImportMemory, after: ImportMemory, now: i64, later: int)
    requires
        may_begin(before, now as int),
        after.last_import == now,
        later < now + IMPORT_MS,
    ensures
        !may_begin(after, later),
{
}

} // verus!
