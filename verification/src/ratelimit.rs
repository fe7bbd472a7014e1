//! The live rate limits: what a local service says of them, which of several services
//! to believe, and for how long.
use crate::json::{
    json_tree, member, member_of, number_at, number_in, parse_text, text_at, text_in, text_of,
    text_tree, Json,
};
use crate::num::{is_operation, meaning, Num, MINUS_ONE_BITS};
use crate::clock::fits;
use crate::usage::{known_or_zero, or_zero};
use vstd::prelude::*;
use vstd::string::*;

verus! {

/// The bit pattern of 300000.0: milliseconds in five minutes.
pub const MAX_AGE_BITS: u64 = 0x4112_4f80_0000_0000;

/// For how many milliseconds a reading is served again.
pub const CACHE_MS: i64 = 4000;

/// The age from which on a reading is no longer believed.
pub open spec fn max_age() -> Num {
    Num { bits: MAX_AGE_BITS }
}

/// What a service says of the rate limits.
#[derive(Debug)]
pub struct RatelimitFields {
    pub u5h: Option<Num>,
    pub u7d: Option<Num>,
    pub reset5h: Option<Num>,
    pub reset7d: Option<Num>,
    pub status: Option<String>,
    pub plan: Option<String>,
    pub at: Option<Num>,
}

/// Whether the fields are those of a service's answer.
pub open spec fn are_fields_of(f: RatelimitFields, j: Json) -> bool {
    &&& f.u5h == number_in(member_of(j, "unified5hUtilization"@))
    &&& f.u7d == number_in(member_of(j, "unified7dUtilization"@))
    &&& f.reset5h == number_in(member_of(j, "unified5hReset"@))
    &&& f.reset7d == number_in(member_of(j, "unified7dReset"@))
    &&& text_of(f.status) == text_in(member_of(j, "unifiedStatus"@))
    &&& text_of(f.plan) == text_in(member_of(j, "planLabel"@))
    &&& f.at == number_in(member_of(j, "at"@))
}

/// Reads the fields off a service's answer.
pub fn ratelimit_fields(j: &serde_json::Value) -> (r: RatelimitFields)
    ensures
        are_fields_of(r, json_tree(*j)),
{
    RatelimitFields {
        u5h: number_at(j, "unified5hUtilization"),
        u7d: number_at(j, "unified7dUtilization"),
        reset5h: number_at(j, "unified5hReset"),
        reset7d: number_at(j, "unified7dReset"),
        status: text_at(j, "unifiedStatus"),
        plan: text_at(j, "planLabel"),
        at: number_at(j, "at"),
    }
}

/// The live rate limits.
#[derive(Debug)]
pub struct LiveRatelimit {
    pub available: bool,
    pub u5h: Option<Num>,
    pub u7d: Option<Num>,
    /// Seconds since the epoch.
    pub reset5h: Option<Num>,
    pub reset7d: Option<Num>,
    pub status: Option<String>,
    pub plan: Option<String>,
    /// The address that the reading came from.
    pub source: Option<String>,
    /// Milliseconds since the epoch at which the service took the reading.
    pub at: Option<Num>,
}

/// Whether nothing is known of the rate limits.
pub open spec fn is_unknown(rl: LiveRatelimit) -> bool {
    &&& !rl.available
    &&& rl.u5h is None
    &&& rl.u7d is None
    &&& rl.reset5h is None
    &&& rl.reset7d is None
    &&& rl.status is None
    &&& rl.plan is None
    &&& rl.source is None
    &&& rl.at is None
}

/// Whether a service's fields say anything of how far a limit is used up.
pub open spec fn tells_use(u5h: Option<Num>, u7d: Option<Num>) -> bool {
    u5h is Some || u7d is Some
}

fn copy_text(s: &Option<String>) -> (r: Option<String>)
    ensures
        r == *s,
{
    match s {
        Some(s) => Some(s.clone()),
        None => None,
    }
}

impl Clone for LiveRatelimit {
    fn clone(&self) -> (r: LiveRatelimit)
        ensures
            r == *self,
    {
        LiveRatelimit {
            available: self.available,
            u5h: self.u5h,
            u7d: self.u7d,
            reset5h: self.reset5h,
            reset7d: self.reset7d,
            status: copy_text(&self.status),
            plan: copy_text(&self.plan),
            source: copy_text(&self.source),
            at: self.at,
        }
    }
}

impl Default for LiveRatelimit {
    fn default() -> (r: LiveRatelimit)
        ensures
            is_unknown(r),
    {
        LiveRatelimit {
            available: false,
            u5h: None,
            u7d: None,
            reset5h: None,
            reset7d: None,
            status: None,
            plan: None,
            source: None,
            at: None,
        }
    }
}

impl LiveRatelimit {
    /// When the reading was taken; the epoch where it does not say.
    pub fn taken_at(&self) -> (r: Num)
        ensures
            r == or_zero(self.at),
    {
        known_or_zero(self.at)
    }
}

/// Makes a reading of a service's fields. There is none where they are silent on how far
/// both limits are used up.
pub fn live_ratelimit(f: RatelimitFields, source: &str) -> (r: Option<LiveRatelimit>)
    ensures
        r is Some <==> tells_use(f.u5h, f.u7d),
        r matches Some(rl) ==> {
            &&& rl.available
            &&& rl.u5h == f.u5h
            &&& rl.u7d == f.u7d
            &&& rl.reset5h == f.reset5h
            &&& rl.reset7d == f.reset7d
            &&& rl.status == f.status
            &&& rl.plan == f.plan
            &&& text_of(rl.source) == Some(source@)
            &&& rl.at == f.at
        },
{
    if f.u5h.is_none() && f.u7d.is_none() {
        return None;
    }
    Some(
        LiveRatelimit {
            available: true,
            u5h: f.u5h,
            u7d: f.u7d,
            reset5h: f.reset5h,
            reset7d: f.reset7d,
            status: f.status,
            plan: f.plan,
            source: Some(source.to_owned()),
            at: f.at,
        },
    )
}

/// Whether a reading is what a service's answer says.
pub open spec fn is_reading_of(rl: LiveRatelimit, j: Json, source: Seq<char>) -> bool {
    &&& tells_use(rl.u5h, rl.u7d)
    &&& rl.available
    &&& rl.u5h == number_in(member_of(j, "unified5hUtilization"@))
    &&& rl.u7d == number_in(member_of(j, "unified7dUtilization"@))
    &&& rl.reset5h == number_in(member_of(j, "unified5hReset"@))
    &&& rl.reset7d == number_in(member_of(j, "unified7dReset"@))
    &&& text_of(rl.status) == text_in(member_of(j, "unifiedStatus"@))
    &&& text_of(rl.plan) == text_in(member_of(j, "planLabel"@))
    &&& text_of(rl.source) == Some(source)
    &&& rl.at == number_in(member_of(j, "at"@))
}

/// Whether `r` is the reading that a text gives, or nothing where it gives none.
pub open spec fn is_reading_in(r: Option<LiveRatelimit>, body: Seq<char>, source: Seq<char>) -> bool {
    match text_tree(body) {
        None => r is None,
        Some(j) => match r {
            Some(rl) => is_reading_of(rl, j, source),
            None => !tells_use(
                number_in(member_of(j, "unified5hUtilization"@)),
                number_in(member_of(j, "unified7dUtilization"@)),
            ),
        },
    }
}

/// Reads a service's answer. There is no reading where the answer is no JSON, or is
/// silent on how far both limits are used up.
pub fn parse_ratelimit(body: &str, source: &str) -> (r: Option<LiveRatelimit>)
    ensures
        is_reading_in(r, body@, source@),
{
    match parse_text(body) {
        Some(j) => live_ratelimit(ratelimit_fields(&j), source),
        None => None,
    }
}

// ---------------------------------------------------------------- the freshest reading

/// A search for the freshest reading among those of several services. The services of
/// earlier sessions may still be there and answer with what was true then.
#[derive(Debug)]
pub struct FreshestScan {
    pub best_at: Num,
    pub result: LiveRatelimit,
    pub good_port: Option<u16>,
}

/// Whether a reading that was taken at a time is too old.
pub open spec fn is_stale(now: Num, at: Num, sub_op: spec_fn(Num, Num) -> Num) -> bool {
    sub_op(now, at).above_spec(max_age())
}

/// The search after one more reading.
pub open spec fn after_offer(
    s: FreshestScan,
    port: u16,
    rl: LiveRatelimit,
    now: Num,
    sub_op: spec_fn(Num, Num) -> Num,
) -> FreshestScan {
    if is_stale(now, or_zero(rl.at), sub_op) || !or_zero(rl.at).above_spec(s.best_at) {
        s
    } else {
        FreshestScan { best_at: or_zero(rl.at), result: rl, good_port: Some(port) }
    }
}

impl FreshestScan {
    /// Whether nothing has been taken in yet. Any reading since the epoch is fresher than
    /// none.
    pub open spec fn is_start(self) -> bool {
        &&& self.best_at == (Num { bits: MINUS_ONE_BITS })
        &&& is_unknown(self.result)
        &&& self.good_port is None
    }

    pub fn new() -> (r: FreshestScan)
        ensures
            r.is_start(),
    {
        FreshestScan {
            best_at: Num { bits: MINUS_ONE_BITS },
            result: LiveRatelimit::default(),
            good_port: None,
        }
    }

    /// Takes a reading in, where it is not too old and fresher than the best so far.
    /// `sub_op` subtracts one number from another.
    pub fn offer<F: Fn(Num, Num) -> Num>(
        &mut self,
        port: u16,
        rl: LiveRatelimit,
        now: Num,
        sub_op: &F,
    )
        requires
            is_operation(*sub_op),
        ensures
            *final(self) == after_offer(*old(self), port, rl, now, meaning(*sub_op)),
    {
        let at: Num = rl.taken_at();
        let age: Num = sub_op(now, at);
        if age.above(Num { bits: MAX_AGE_BITS }) {
            return;
        }
        if at.above(self.best_at) {
            self.best_at = at;
            self.result = rl;
            self.good_port = Some(port);
        }
    }
}

// ---------------------------------------------------------------- the cache

/// The last reading, when it was fetched, and the last port that gave a good one.
#[derive(Debug)]
pub struct RatelimitCache {
    pub last: LiveRatelimit,
    pub fetched_at: i64,
    pub good_port: Option<u16>,
}

impl RatelimitCache {
    /// Whether the last reading is served again.
    pub open spec fn is_fresh(self, now: int) -> bool {
        now - self.fetched_at < CACHE_MS
    }

    pub fn new() -> (r: RatelimitCache)
        ensures
            is_unknown(r.last),
            r.fetched_at == 0,
            r.good_port is None,
    {
        RatelimitCache { last: LiveRatelimit::default(), fetched_at: 0, good_port: None }
    }

    /// The last reading, if it is to be served again.
    pub fn fresh(&self, now: i64) -> (r: Option<LiveRatelimit>)
        requires
            fits(now - self.fetched_at),
        ensures
            r == if self.is_fresh(now as int) {
                Some(self.last)
            } else {
                None
            },
    {
        if now - self.fetched_at < CACHE_MS {
            Some(self.last.clone())
        } else {
            None
        }
    }

    /// Keeps a reading. The last good port stays where the reading has none.
    pub fn store(&mut self, result: LiveRatelimit, now: i64, good_port: Option<u16>)
        ensures
            final(self).last == result,
            final(self).fetched_at == now,
            final(self).good_port == if good_port is Some {
                good_port
            } else {
                old(self).good_port
            },
    {
        self.last = result;
        self.fetched_at = now;
        if good_port.is_some() {
            self.good_port = good_port;
        }
    }
}

// ---------------------------------------------------------------- the freshest port

/// When an answer was taken that speaks of the rate limits at all: the epoch where it does
/// not say.
pub open spec fn probe_of(j: Json) -> Option<Num> {
    if member_of(j, "unified5hUtilization"@) is Some || member_of(j, "unified7dUtilization"@) is Some {
        Some(or_zero(number_in(member_of(j, "at"@))))
    } else {
        None
    }
}

/// When an answer was taken that speaks of the five-hour limit, of the seven-day limit, or
/// of neither.
pub fn probe_fields(has_5h: bool, has_7d: bool, at: Option<Num>) -> (r: Option<Num>)
    ensures
        r == if has_5h || has_7d {
            Some(or_zero(at))
        } else {
            None
        },
{
    if has_5h || has_7d {
        Some(known_or_zero(at))
    } else {
        None
    }
}

/// When the answer that a text gives was taken; nothing where the text is no JSON or does
/// not speak of the rate limits.
pub open spec fn probe_in(body: Seq<char>) -> Option<Num> {
    match text_tree(body) {
        Some(j) => probe_of(j),
        None => None,
    }
}

/// Asks a service's answer when it was taken.
pub fn probe(body: &str) -> (r: Option<Num>)
    ensures
        r == probe_in(body@),
{
    match parse_text(body) {
        Some(j) => probe_fields(
            member(&j, "unified5hUtilization").is_some(),
            member(&j, "unified7dUtilization").is_some(),
            number_at(&j, "at"),
        ),
        None => None,
    }
}

/// A search for the port of the service with the freshest answer.
#[derive(Debug, Clone, Copy)]
pub struct PortScan {
    pub best: Option<(u16, Num)>,
}

/// Whether an answer that was taken at a time is young enough.
pub open spec fn is_young(now: Num, at: Num, sub_op: spec_fn(Num, Num) -> Num) -> bool {
    sub_op(now, at).at_most_spec(max_age())
}

/// The search after one more answer.
pub open spec fn after_probe(
    s: PortScan,
    port: u16,
    at: Num,
    now: Num,
    sub_op: spec_fn(Num, Num) -> Num,
) -> PortScan {
    if is_young(now, at, sub_op) && (match s.best {
        Some((_, best_at)) => at.above_spec(best_at),
        None => true,
    }) {
        PortScan { best: Some((port, at)) }
    } else {
        s
    }
}

impl PortScan {
    pub fn new() -> (r: PortScan)
        ensures
            r.best is None,
    {
        PortScan { best: None }
    }

    /// Takes an answer in, where it is young enough and fresher than the best so far.
    /// `sub_op` subtracts one number from another.
    pub fn offer<F: Fn(Num, Num) -> Num>(&mut self, port: u16, at: Num, now: Num, sub_op: &F)
        requires
            is_operation(*sub_op),
        ensures
            *final(self) == after_probe(*old(self), port, at, now, meaning(*sub_op)),
    {
        let age: Num = sub_op(now, at);
        if age.at_most(Num { bits: MAX_AGE_BITS }) {
            let better: bool = match self.best {
                Some((_, best_at)) => at.above(best_at),
                None => true,
            };
            if better {
                self.best = Some((port, at));
            }
        }
    }

    /// The port that was found.
    pub fn port(&self) -> (r: Option<u16>)
        ensures
            r == match self.best {
                Some((port, _)) => Some(port),
                None => None,
            },
    {
        match self.best {
            Some((port, _)) => Some(port),
            None => None,
        }
    }
}

} // verus!
