//! A poll of the live rate limits, step by step: each step says what to ask for next, and
//! the answer is handed to the step after it.
use crate::http::{is_fetch, local_fetch, ratelimit_address, ratelimit_url, Fetch};
use crate::num::{is_operation, meaning, Num};
use crate::ratelimit::{
    after_offer, is_reading_in, is_stale, is_unknown, parse_ratelimit, FreshestScan, LiveRatelimit,
};
use crate::url::{split_url, url_parts};
use crate::usage::or_zero;
use vstd::prelude::*;
use vstd::string::*;

verus! {

/// For how many milliseconds to wait for a service that was named.
pub const NAMED_TIMEOUT_MS: u64 = 1200;

/// For how many milliseconds to wait for a service that was found.
pub const SCAN_TIMEOUT_MS: u64 = 800;

/// What to do next in a poll.
#[derive(Debug)]
pub enum PollAction {
    /// List the ports at which local services listen.
    ListPorts,
    /// Ask a service.
    Get(Fetch),
    /// The poll is over, with this reading, and the port that gave it.
    Finish(LiveRatelimit, Option<u16>),
}

/// The local services that are asked: all before `next` have been.
#[derive(Debug)]
pub struct LimitsScan {
    pub ports: Vec<u16>,
    pub next: usize,
    pub best: FreshestScan,
}

/// What a poll is waiting for.
#[derive(Debug)]
pub enum PollStage {
    /// The answer of the service at an address that was named.
    Named(String),
    /// The ports of the local services.
    Ports,
    /// The answers of the local services.
    Scan(LimitsScan),
    Over,
}

/// A poll of the live rate limits.
#[derive(Debug)]
pub struct RatelimitPoll {
    pub stage: PollStage,
    /// The time of the poll, in milliseconds since the epoch.
    pub now: Num,
}

/// Whether an action goes on with a scan: the next service is asked, and after the last one
/// the freshest reading is the result.
pub open spec fn goes_on(action: PollAction, s: LimitsScan) -> bool {
    if s.next < s.ports@.len() {
        action matches PollAction::Get(f) && is_fetch(
            f,
            "127.0.0.1"@,
            s.ports@[s.next as int],
            "/ratelimit"@,
            SCAN_TIMEOUT_MS,
        )
    } else {
        action == PollAction::Finish(s.best.result, s.best.good_port)
    }
}

/// Whether an action ends a poll without a reading.
pub open spec fn ends_unknown(action: PollAction) -> bool {
    action matches PollAction::Finish(rl, port) && is_unknown(rl) && port is None
}

/// The search for the freshest reading after an answer that may give one.
pub open spec fn after_reading(
    s: FreshestScan,
    port: u16,
    r: Option<LiveRatelimit>,
    now: Num,
    sub_op: spec_fn(Num, Num) -> Num,
) -> FreshestScan {
    match r {
        Some(rl) => after_offer(s, port, rl, now, sub_op),
        None => s,
    }
}

/// Whether a search for the freshest reading has heard what a service says.
pub open spec fn hears(
    before: FreshestScan,
    after: FreshestScan,
    port: u16,
    body: Seq<char>,
    now: Num,
    sub_op: spec_fn(Num, Num) -> Num,
) -> bool {
    exists|r: Option<LiveRatelimit>|
        #[trigger] is_reading_in(r, body, ratelimit_address(port)) && after == after_reading(
            before,
            port,
            r,
            now,
            sub_op,
        )
}

/// Whether a scan has taken one more answer in.
pub open spec fn takes_answer(
    before: LimitsScan,
    after: LimitsScan,
    body: Option<Seq<char>>,
    now: Num,
    sub_op: spec_fn(Num, Num) -> Num,
) -> bool {
    &&& after.ports == before.ports
    &&& after.next == before.next + 1
    &&& match body {
        Some(body) => hears(
            before.best,
            after.best,
            before.ports@[before.next as int],
            body,
            now,
            sub_op,
        ),
        None => after.best == before.best,
    }
}

/// What the text of an answer says, if there is one.
pub open spec fn answer_text(body: Option<String>) -> Option<Seq<char>> {
    match body {
        Some(body) => Some(body@),
        None => None,
    }
}

impl LimitsScan {
    /// The next step of the scan.
    fn next_action(&self) -> (r: PollAction)
        ensures
            goes_on(r, *self),
    {
        if self.next < self.ports.len() {
            PollAction::Get(local_fetch(self.ports[self.next], "/ratelimit", SCAN_TIMEOUT_MS))
        } else {
            PollAction::Finish(self.best.result.clone(), self.best.good_port)
        }
    }
}

impl RatelimitPoll {
    /// Begins a poll. Where an address is named the service there is asked and no other;
    /// where none is, all local services are.
    pub fn begin(named: Option<String>, now: Num) -> (r: (RatelimitPoll, PollAction))
        ensures
            r.0.now == now,
            match named {
                Some(url) => match url_parts(url@) {
                    Some((host, port, path)) => {
                        &&& r.0.stage == PollStage::Named(url)
                        &&& r.1 matches PollAction::Get(f) && is_fetch(
                            f,
                            host,
                            port,
                            path,
                            NAMED_TIMEOUT_MS,
                        ) && f.timeout_ms == 1200
                    },
                    None => r.0.stage is Over && ends_unknown(r.1),
                },
                None => r.0.stage is Ports && r.1 is ListPorts,
            },
    {
        match named {
            Some(url) => match split_url(url.as_str()) {
                Some((host, port, path)) => {
                    let fetch: Fetch = Fetch { host, port, path, timeout_ms: NAMED_TIMEOUT_MS };
                    (RatelimitPoll { stage: PollStage::Named(url), now }, PollAction::Get(fetch))
                },
                None => (
                    RatelimitPoll { stage: PollStage::Over, now },
                    PollAction::Finish(LiveRatelimit::default(), None),
                ),
            },
            None => (RatelimitPoll { stage: PollStage::Ports, now }, PollAction::ListPorts),
        }
    }

    /// Takes in the ports of the local services.
    pub fn ports_listed(&mut self, ports: Vec<u16>) -> (r: PollAction)
        requires
            old(self).stage is Ports,
        ensures
            final(self).now == old(self).now,
            final(self).stage matches PollStage::Scan(s) && {
                &&& s.ports == ports
                &&& s.next == 0
                &&& s.best.is_start()
                &&& goes_on(r, s)
            },
    {
        let scan: LimitsScan = LimitsScan { ports, next: 0, best: FreshestScan::new() };
        let action: PollAction = scan.next_action();
        self.stage = PollStage::Scan(scan);
        action
    }

    /// Takes in the answer of the service that was asked, if it gave one. `sub_op`
    /// subtracts one number from another.
    pub fn answered<F: Fn(Num, Num) -> Num>(&mut self, body: Option<String>, sub_op: &F) -> (r:
        PollAction)
        requires
            is_operation(*sub_op),
            match old(self).stage {
                PollStage::Named(_) => true,
                PollStage::Scan(s) => s.next < s.ports@.len(),
                _ => false,
            },
        ensures
            final(self).now == old(self).now,
            match old(self).stage {
                PollStage::Named(url) => {
                    &&& final(self).stage is Over
                    &&& match body {
                        Some(body) => exists|reading: Option<LiveRatelimit>|
                            #[trigger] is_reading_in(reading, body@, url@) && match reading {
                                Some(rl) => r == PollAction::Finish(rl, None),
                                None => ends_unknown(r),
                            },
                        None => ends_unknown(r),
                    }
                },
                PollStage::Scan(s) => final(self).stage matches PollStage::Scan(after)
                    && takes_answer(s, after, answer_text(body), old(self).now, meaning(*sub_op)) && goes_on(
                    r,
                    after,
                ),
                _ => true,
            },
    {
        let mut stage: PollStage = PollStage::Over;
        core::mem::swap(&mut self.stage, &mut stage);
        match stage {
            PollStage::Named(url) => {
                let reading: Option<LiveRatelimit> = match &body {
                    Some(text) => parse_ratelimit(text.as_str(), url.as_str()),
                    None => None,
                };
                match reading {
                    Some(rl) => PollAction::Finish(rl, None),
                    None => PollAction::Finish(LiveRatelimit::default(), None),
                }
            },
            PollStage::Scan(mut scan) => {
                let ghost before = scan;
                let next: usize = scan.next;
                let count: usize = scan.ports.len();
                assert(next < count);
                let port: u16 = scan.ports[next];
                scan.next = next + 1;
                if let Some(text) = &body {
                    let source: String = ratelimit_url(port);
                    let reading: Option<LiveRatelimit> = parse_ratelimit(
                        text.as_str(),
                        source.as_str(),
                    );
                    let ghost given = reading;
                    if let Some(rl) = reading {
                        scan.best.offer(port, rl, self.now, sub_op);
                    }
                    assert(is_reading_in(given, text@, ratelimit_address(port)));
                    assert(hears(before.best, scan.best, port, text@, self.now, meaning(*sub_op)));
                }
                let action: PollAction = scan.next_action();
                self.stage = PollStage::Scan(scan);
                action
            },
            _ => PollAction::ListPorts,
        }
    }
}

/// The search for the freshest reading after what several services gave.
pub open spec fn after_readings(
    s: FreshestScan,
    ports: Seq<u16>,
    readings: Seq<Option<LiveRatelimit>>,
    now: Num,
    sub_op: spec_fn(Num, Num) -> Num,
) -> FreshestScan
    decreases ports.len(),
{
    if ports.len() == 0 {
        s
    } else {
        after_reading(
            after_readings(s, ports.drop_last(), readings.drop_last(), now, sub_op),
            ports.last(),
            readings.last(),
            now,
            sub_op,
        )
    }
}

/// Whether a service gave a reading that is not too old.
pub open spec fn is_good(
    r: Option<LiveRatelimit>,
    now: Num,
    sub_op: spec_fn(Num, Num) -> Num,
) -> bool {
    r matches Some(rl) && !is_stale(now, or_zero(rl.at), sub_op)
}

/// Whether the service at `k` gave a reading that is not too old and which none before it is
/// as fresh as.
pub open spec fn is_first_of_its_time(
    readings: Seq<Option<LiveRatelimit>>,
    k: int,
    now: Num,
    sub_op: spec_fn(Num, Num) -> Num,
) -> bool {
    &&& is_good(readings[k], now, sub_op)
    &&& forall|j: int|
        0 <= j < k && is_good(#[trigger] readings[j], now, sub_op) ==> !or_zero(
            readings[k]->0.at,
        ).at_most_spec(or_zero(readings[j]->0.at))
}

/// A poll that asks several services ends with the reading of one of them that is not too
/// old and that no other's is fresher than, and the first of those that are as fresh, or
/// without a reading. It ends without one only
/// where none is good, or all that are good are from before the epoch.
pub proof fn poll_finds_the_freshest(
    start: FreshestScan,
    ports: Seq<u16>,
    readings: Seq<Option<LiveRatelimit>>,
    now: Num,
    sub_op: spec_fn(Num, Num) -> Num,
)
    requires
        start.is_start(),
        readings.len() == ports.len(),
    ensures
        ({
            let end = after_readings(start, ports, readings, now, sub_op);
            match end.good_port {
                Some(port) => exists|k: int|
                    {
                        &&& 0 <= k < ports.len()
                        &&& ports[k] == port
                        &&& #[trigger] is_first_of_its_time(readings, k, now, sub_op)
                        &&& readings[k] == Some(end.result)
                        &&& end.best_at == or_zero(end.result.at)
                    },
                None => end == start,
            }
        }),
        forall|k: int|
            0 <= k < ports.len() && is_good(#[trigger] readings[k], now, sub_op) ==> !or_zero(
                readings[k]->0.at,
            ).above_spec(after_readings(start, ports, readings, now, sub_op).best_at),
        !after_readings(start, ports, readings, now, sub_op).best_at.is_nan_spec(),
    decreases ports.len(),
{
    if ports.len() > 0 {
        let n = ports.len() - 1;
        let fewer = readings.drop_last();
        poll_finds_the_freshest(start, ports.drop_last(), fewer, now, sub_op);
        let before = after_readings(start, ports.drop_last(), fewer, now, sub_op);
        let end = after_readings(start, ports, readings, now, sub_op);
        assert(readings[n] == readings.last());
        if let Some(port) = before.good_port {
            let k = choose|k: int|
                {
                    &&& 0 <= k < ports.len() - 1
                    &&& ports.drop_last()[k] == port
                    &&& #[trigger] is_first_of_its_time(fewer, k, now, sub_op)
                    &&& fewer[k] == Some(before.result)
                    &&& before.best_at == or_zero(before.result.at)
                };
            assert(readings[k] == fewer[k]);
            assert(ports[k] == port);
            assert forall|j: int|
                0 <= j < k && is_good(#[trigger] readings[j], now, sub_op) implies !or_zero(
                readings[k]->0.at,
            ).at_most_spec(or_zero(readings[j]->0.at)) by {
                assert(readings[j] == fewer[j]);
            }
            assert(is_first_of_its_time(readings, k, now, sub_op));
        }
        if end != before {
            assert forall|j: int|
                0 <= j < n && is_good(#[trigger] readings[j], now, sub_op) implies !or_zero(
                readings[n]->0.at,
            ).at_most_spec(or_zero(readings[j]->0.at)) by {
                assert(readings[j] == fewer[j]);
            }
            assert(is_first_of_its_time(readings, n, now, sub_op));
        }
        assert forall|k: int|
            0 <= k < ports.len() && is_good(#[trigger] readings[k], now, sub_op) implies !or_zero(
            readings[k]->0.at,
        ).above_spec(end.best_at) by {
            if k < n {
                assert(fewer[k] == readings[k]);
            }
        }
    }
}

} // verus!
