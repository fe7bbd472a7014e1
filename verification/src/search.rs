//! A search for the local service with the freshest answer, step by step: each step says
//! what to ask for next, and the answer is handed to the step after it.
use crate::http::{is_fetch, local_fetch, Fetch};
use crate::num::{is_operation, meaning, Num};
use crate::poll::answer_text;
use crate::ratelimit::{after_probe, is_young, probe, probe_in, PortScan};
use crate::url::{split_url, url_parts};
use vstd::prelude::*;
use vstd::string::*;

verus! {

/// For how many milliseconds to wait for a service.
pub const SEARCH_TIMEOUT_MS: u64 = 700;

/// What to do next in a search.
#[derive(Debug)]
pub enum SearchAction {
    /// List the ports at which local services listen.
    ListPorts,
    /// Ask a service.
    Get(Fetch),
    /// The search is over, and has found this port.
    Finish(Option<u16>),
}

/// The local services that are asked: all before `next` have been.
#[derive(Debug)]
pub struct ServiceScan {
    pub ports: Vec<u16>,
    pub next: usize,
    pub best: PortScan,
}

/// What a search is waiting for.
#[derive(Debug)]
pub enum SearchStage {
    /// The ports of the local services.
    Ports,
    /// The answers of the local services.
    Scan(ServiceScan),
    Over,
}

/// A search for the local service with the freshest answer.
#[derive(Debug)]
pub struct PortSearch {
    pub stage: SearchStage,
    /// The time of the search, in milliseconds since the epoch.
    pub now: Num,
}

/// The port that a scan has found.
pub open spec fn port_in(s: PortScan) -> Option<u16> {
    match s.best {
        Some((port, _)) => Some(port),
        None => None,
    }
}

/// The port of an address that was named, if it has one.
pub open spec fn named_port(named: Option<String>) -> Option<u16> {
    match named {
        Some(url) => match url_parts(url@) {
            Some((_, port, _)) => Some(port),
            None => None,
        },
        None => None,
    }
}

/// Whether an action goes on with a scan: the next service is asked, and after the last one
/// the port with the freshest answer is the result.
pub open spec fn goes_on(action: SearchAction, s: ServiceScan) -> bool {
    if s.next < s.ports@.len() {
        action matches SearchAction::Get(f) && is_fetch(
            f,
            "127.0.0.1"@,
            s.ports@[s.next as int],
            "/ratelimit"@,
            SEARCH_TIMEOUT_MS,
        )
    } else {
        action == SearchAction::Finish(port_in(s.best))
    }
}

/// The scan after the answer of a service, if it gave one.
pub open spec fn after_answer(
    s: PortScan,
    port: u16,
    body: Option<Seq<char>>,
    now: Num,
    sub_op: spec_fn(Num, Num) -> Num,
) -> PortScan {
    match body {
        Some(body) => match probe_in(body) {
            Some(at) => after_probe(s, port, at, now, sub_op),
            None => s,
        },
        None => s,
    }
}

impl ServiceScan {
    /// The next step of the scan.
    fn next_action(&self) -> (r: SearchAction)
        ensures
            goes_on(r, *self),
    {
        if self.next < self.ports.len() {
            SearchAction::Get(local_fetch(self.ports[self.next], "/ratelimit", SEARCH_TIMEOUT_MS))
        } else {
            SearchAction::Finish(self.best.port())
        }
    }
}

impl PortSearch {
    /// Begins a search. The port of an address that is named is taken unasked; where there
    /// is none, all local services are asked.
    pub fn begin(named: Option<String>, now: Num) -> (r: (PortSearch, SearchAction))
        ensures
            r.0.now == now,
            match named_port(named) {
                Some(port) => r.0.stage is Over && r.1 == SearchAction::Finish(Some(port)),
                None => r.0.stage is Ports && r.1 is ListPorts,
            },
    {
        if let Some(url) = &named {
            if let Some((_, port, _)) = split_url(url.as_str()) {
                return (
                    PortSearch { stage: SearchStage::Over, now },
                    SearchAction::Finish(Some(port)),
                );
            }
        }
        (PortSearch { stage: SearchStage::Ports, now }, SearchAction::ListPorts)
    }

    /// Takes in the ports of the local services.
    pub fn ports_listed(&mut self, ports: Vec<u16>) -> (r: SearchAction)
        requires
            old(self).stage is Ports,
        ensures
            final(self).now == old(self).now,
            final(self).stage matches SearchStage::Scan(s) && {
                &&& s.ports == ports
                &&& s.next == 0
                &&& s.best.best is None
                &&& goes_on(r, s)
            },
    {
        let scan: ServiceScan = ServiceScan { ports, next: 0, best: PortScan::new() };
        let action: SearchAction = scan.next_action();
        self.stage = SearchStage::Scan(scan);
        action
    }

    /// Takes in the answer of the service that was asked, if it gave one. `sub_op`
    /// subtracts one number from another.
    pub fn answered<F: Fn(Num, Num) -> Num>(&mut self, body: Option<String>, sub_op: &F) -> (r:
        SearchAction)
        requires
            is_operation(*sub_op),
            old(self).stage matches SearchStage::Scan(s) && s.next < s.ports@.len(),
        ensures
            final(self).now == old(self).now,
            old(self).stage matches SearchStage::Scan(s) && final(self).stage matches SearchStage::Scan(
                after,
            ) && {
                &&& after.ports == s.ports
                &&& after.next == s.next + 1
                &&& after.best == after_answer(
                    s.best,
                    s.ports@[s.next as int],
                    answer_text(body),
                    old(self).now,
                    meaning(*sub_op),
                )
                &&& goes_on(r, after)
            },
    {
        let mut stage: SearchStage = SearchStage::Over;
        core::mem::swap(&mut self.stage, &mut stage);
        match stage {
            SearchStage::Scan(mut scan) => {
                let next: usize = scan.next;
                let count: usize = scan.ports.len();
                assert(next < count);
                if let Some(text) = &body {
                    if let Some(at) = probe(text.as_str()) {
                        scan.best.offer(scan.ports[next], at, self.now, sub_op);
                    }
                }
                scan.next = next + 1;
                let action: SearchAction = scan.next_action();
                self.stage = SearchStage::Scan(scan);
                action
            },
            _ => SearchAction::ListPorts,
        }
    }
}

/// The scan after the answers of several services.
pub open spec fn after_answers(
    s: PortScan,
    ports: Seq<u16>,
    bodies: Seq<Option<Seq<char>>>,
    now: Num,
    sub_op: spec_fn(Num, Num) -> Num,
) -> PortScan
    decreases ports.len(),
{
    if ports.len() == 0 {
        s
    } else {
        after_answer(
            after_answers(s, ports.drop_last(), bodies.drop_last(), now, sub_op),
            ports.last(),
            bodies.last(),
            now,
            sub_op,
        )
    }
}

/// When the answer of a service was taken, if it gave one that says and that is young
/// enough.
pub open spec fn young_answer(
    body: Option<Seq<char>>,
    now: Num,
    sub_op: spec_fn(Num, Num) -> Num,
) -> Option<Num> {
    match body {
        Some(body) => match probe_in(body) {
            Some(at) if is_young(now, at, sub_op) => Some(at),
            _ => None,
        },
        None => None,
    }
}

/// Whether the service at `k` gave an answer that was taken at `at`, is young enough, and
/// which none before it is as fresh as.
pub open spec fn is_first_of_its_time(
    bodies: Seq<Option<Seq<char>>>,
    k: int,
    at: Num,
    now: Num,
    sub_op: spec_fn(Num, Num) -> Num,
) -> bool {
    &&& young_answer(bodies[k], now, sub_op) == Some(at)
    &&& forall|j: int|
        0 <= j < k ==> match young_answer(#[trigger] bodies[j], now, sub_op) {
            Some(other) => !at.at_most_spec(other),
            None => true,
        }
}

/// A search that asks several services finds the port of one whose answer is young enough
/// and which no other's is fresher than, and the first of those that are as fresh. It finds
/// none where no answer is young enough.
pub proof fn search_finds_the_freshest(
    ports: Seq<u16>,
    bodies: Seq<Option<Seq<char>>>,
    now: Num,
    sub_op: spec_fn(Num, Num) -> Num,
)
    requires
        bodies.len() == ports.len(),
    ensures
        match after_answers(PortScan { best: None }, ports, bodies, now, sub_op).best {
            Some((port, at)) => {
                &&& exists|k: int|
                    0 <= k < ports.len() && ports[k] == port
                        && #[trigger] is_first_of_its_time(bodies, k, at, now, sub_op)
                &&& forall|k: int|
                    0 <= k < ports.len() ==> match young_answer(#[trigger] bodies[k], now, sub_op) {
                        Some(other) => !other.above_spec(at),
                        None => true,
                    }
            },
            None => forall|k: int|
                0 <= k < ports.len() ==> young_answer(#[trigger] bodies[k], now, sub_op) is None,
        },
    decreases ports.len(),
{
    if ports.len() > 0 {
        let n = ports.len() - 1;
        let fewer = bodies.drop_last();
        search_finds_the_freshest(ports.drop_last(), fewer, now, sub_op);
        let before = after_answers(PortScan { best: None }, ports.drop_last(), fewer, now, sub_op);
        let end = after_answers(PortScan { best: None }, ports, bodies, now, sub_op);
        assert(bodies[n] == bodies.last());
        if let Some((port, at)) = before.best {
            let k = choose|k: int|
                0 <= k < ports.len() - 1 && ports.drop_last()[k] == port
                    && #[trigger] is_first_of_its_time(fewer, k, at, now, sub_op);
            assert(bodies[k] == fewer[k]);
            assert(ports[k] == port);
            assert forall|j: int| 0 <= j < k implies match young_answer(
                #[trigger] bodies[j],
                now,
                sub_op,
            ) {
                Some(other) => !at.at_most_spec(other),
                None => true,
            } by {
                assert(bodies[j] == fewer[j]);
            }
            assert(is_first_of_its_time(bodies, k, at, now, sub_op));
        }
        if end.best != before.best {
            let at = end.best.unwrap().1;
            assert forall|j: int| 0 <= j < n implies match young_answer(
                #[trigger] bodies[j],
                now,
                sub_op,
            ) {
                Some(other) => !at.at_most_spec(other),
                None => true,
            } by {
                assert(bodies[j] == fewer[j]);
            }
            assert(is_first_of_its_time(bodies, n, at, now, sub_op));
        }
        if let Some((port, at)) = end.best {
            assert forall|k: int| 0 <= k < ports.len() implies match young_answer(
                #[trigger] bodies[k],
                now,
                sub_op,
            ) {
                Some(other) => !other.above_spec(at),
                None => true,
            } by {
                if k < n {
                    assert(fewer[k] == bodies[k]);
                }
            }
        } else {
            assert forall|k: int| 0 <= k < ports.len() implies young_answer(
                #[trigger] bodies[k],
                now,
                sub_op,
            ) is None by {
                if k < n {
                    assert(fewer[k] == bodies[k]);
                }
            }
        }
    }
}

} // verus!
