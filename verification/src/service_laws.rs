//! What holds of the answers of services on their rate limits, and of the searches among them.
use crate::import_laws::{
    asks, lemma_walk_one, number_under, text_under, walk, zero_if_missing,
};
use crate::http::{is_fetch, ratelimit_address, Fetch};
use crate::json::{text_of, text_tree, Json};
use crate::num::Num;
use crate::poll::{
    after_reading, answer_text, ends_unknown, takes_answer, LimitsScan, PollAction,
};
use crate::ratelimit::{
    after_offer, after_probe, is_reading_in, is_stale, is_unknown, is_young, max_age, probe_in,
    FreshestScan, LiveRatelimit, PortScan, RatelimitCache,
};
use crate::search::{after_answer, named_port, SearchAction};
use crate::text::decimal_text;
use vstd::prelude::*;

verus! {

/// A reading holds what the service's answer says, each value under its own name. There is one
/// if the answer is JSON and has a number for one of the limits.
pub proof fn readings_say_what_the_service_says(
    r: Option<LiveRatelimit>,
    body: Seq<char>,
    source: Seq<char>,
)
    requires
        is_reading_in(r, body, source),
    ensures
        match text_tree(body) {
            Some(j) => {
                let u5h = number_under(j, seq!["unified5hUtilization"@]);
                let u7d = number_under(j, seq!["unified7dUtilization"@]);
                &&& r is Some <==> u5h is Some || u7d is Some
                &&& r matches Some(rl) ==> {
                    &&& rl.available
                    &&& rl.u5h == u5h
                    &&& rl.u7d == u7d
                    &&& rl.reset5h == number_under(j, seq!["unified5hReset"@])
                    &&& rl.reset7d == number_under(j, seq!["unified7dReset"@])
                    &&& text_of(rl.status) == text_under(j, seq!["unifiedStatus"@])
                    &&& text_of(rl.plan) == text_under(j, seq!["planLabel"@])
                    &&& text_of(rl.source) == Some(source)
                    &&& rl.at == number_under(j, seq!["at"@])
                }
            },
            None => r is None,
        },
{
    if let Some(j) = text_tree(body) {
        lemma_walk_one(j, "unified5hUtilization"@);
        lemma_walk_one(j, "unified7dUtilization"@);
        lemma_walk_one(j, "unified5hReset"@);
        lemma_walk_one(j, "unified7dReset"@);
        lemma_walk_one(j, "unifiedStatus"@);
        lemma_walk_one(j, "planLabel"@);
        lemma_walk_one(j, "at"@);
    }
}

/// An answer that speaks of one of the limits, in whatever form, was taken when it says, or
/// else at the epoch. Any other tells nothing.
pub proof fn probes_tell_when_an_answer_was_taken(body: Seq<char>)
    ensures
        match text_tree(body) {
            Some(j) => if walk(j, seq!["unified5hUtilization"@]) is Some || walk(
                j,
                seq!["unified7dUtilization"@],
            ) is Some {
                probe_in(body) == Some(zero_if_missing(number_under(j, seq!["at"@])))
            } else {
                probe_in(body) is None
            },
            None => probe_in(body) is None,
        },
{
    if let Some(j) = text_tree(body) {
        lemma_walk_one(j, "unified5hUtilization"@);
        lemma_walk_one(j, "unified7dUtilization"@);
        lemma_walk_one(j, "at"@);
    }
}

/// A reading is too old if its age is above five minutes, and young if it is not above them:
/// an age that is no number is neither.
pub proof fn readings_last_five_minutes(now: Num, at: Num, sub_op: spec_fn(Num, Num) -> Num)
    ensures
        max_age().whole_spec() == 5 * 60 * 1000,
        is_stale(now, at, sub_op) <==> sub_op(now, at).above_spec(
            Num { bits: 0x4112_4f80_0000_0000 },
        ),
        is_young(now, at, sub_op) <==> !sub_op(now, at).is_nan_spec() && !is_stale(now, at, sub_op),
{
    vstd::arithmetic::power2::lemma2_to64_rest();
    let m = 0x4112_4f80_0000_0000int;
    assert(m / 0x0010_0000_0000_0000 == 1041);
    assert(m % 0x0010_0000_0000_0000 == 0x0002_4f80_0000_0000);
    assert(max_age().whole_size() == 0x0012_4f80_0000_0000int / 0x4_0000_0000int);
}

/// A search takes a reading over if it is not too old and was taken later than the best one so
/// far, with the port that gave it. Otherwise it stays as it is.
pub proof fn searches_take_what_is_fresher(
    s: FreshestScan,
    port: u16,
    rl: LiveRatelimit,
    now: Num,
    sub_op: spec_fn(Num, Num) -> Num,
)
    ensures
        ({
            let at = zero_if_missing(rl.at);
            let after = after_offer(s, port, rl, now, sub_op);
            if !sub_op(now, at).above_spec(Num { bits: 0x4112_4f80_0000_0000 }) && at.above_spec(
                s.best_at,
            ) {
                after.best_at == at && after.result == rl && after.good_port == Some(port)
            } else {
                after == s
            }
        }),
        s.is_start() ==> s.best_at.bits == 0xbff0_0000_0000_0000 && s.best_at.whole_spec() == -1
            && s.good_port is None && !s.result.available,
{
    vstd::arithmetic::power2::lemma2_to64_rest();
    if s.is_start() {
        let m = 0x3ff0_0000_0000_0000int;
        assert(s.best_at.magnitude() == m);
        assert(m / 0x0010_0000_0000_0000 == 1023);
        assert(m % 0x0010_0000_0000_0000 == 0);
        assert(s.best_at.whole_size() == 0x0010_0000_0000_0000int / 0x0010_0000_0000_0000int);
    }
}

/// A search for a port takes an answer over if it is young and was taken later than the best
/// one so far, or is the first. Otherwise it stays as it is.
pub proof fn searches_for_ports_take_what_is_fresher(
    s: PortScan,
    port: u16,
    at: Num,
    now: Num,
    sub_op: spec_fn(Num, Num) -> Num,
)
    ensures
        ({
            let after = after_probe(s, port, at, now, sub_op);
            if sub_op(now, at).at_most_spec(Num { bits: 0x4112_4f80_0000_0000 }) && (match s.best {
                Some((_, best_at)) => at.above_spec(best_at),
                None => true,
            }) {
                after.best == Some((port, at))
            } else {
                after == s
            }
        }),
{
}

/// A reading is served again for four seconds.
pub proof fn readings_are_kept_for_four_seconds(cache: RatelimitCache, now: int)
    ensures
        cache.is_fresh(now) <==> now < cache.fetched_at + 4_000,
{
}

/// A poll asks one service after the other for its rate limits, and ends with the best reading.
pub proof fn polls_ask_one_service_after_the_other(action: PollAction, s: LimitsScan)
    requires
        crate::poll::goes_on(action, s),
    ensures
        s.next < s.ports@.len() ==> (action matches PollAction::Get(f) && asks(
            f,
            s.ports@[s.next as int],
            "/ratelimit"@,
            800,
        )),
        s.next >= s.ports@.len() ==> (action matches PollAction::Finish(rl, port) && rl
            == s.best.result && port == s.best.good_port),
{
}

/// A search asks one service after the other, and ends with the port of the best answer.
pub proof fn searches_ask_one_service_after_the_other(
    action: SearchAction,
    s: crate::search::ServiceScan,
)
    requires
        crate::search::goes_on(action, s),
    ensures
        s.next < s.ports@.len() ==> (action matches SearchAction::Get(f) && asks(
            f,
            s.ports@[s.next as int],
            "/ratelimit"@,
            700,
        )),
        s.next >= s.ports@.len() ==> (action matches SearchAction::Finish(port) && match s.best.best {
            Some((p, _)) => port == Some(p),
            None => port is None,
        }),
{
}

/// Whether a search has taken over what a service at a port says, whose answer was taken at
/// `at`.
pub open spec fn has_taken(
    s: FreshestScan,
    port: u16,
    j: Json,
    at: Num,
) -> bool {
    &&& s.best_at == at
    &&& s.good_port == Some(port)
    &&& s.result.available
    &&& s.result.u5h == number_under(j, seq!["unified5hUtilization"@])
    &&& s.result.u7d == number_under(j, seq!["unified7dUtilization"@])
    &&& s.result.reset5h == number_under(j, seq!["unified5hReset"@])
    &&& s.result.reset7d == number_under(j, seq!["unified7dReset"@])
    &&& text_of(s.result.status) == text_under(j, seq!["unifiedStatus"@])
    &&& text_of(s.result.plan) == text_under(j, seq!["planLabel"@])
    &&& text_of(s.result.source) == Some(
        "http://127.0.0.1:"@ + decimal_text(port as nat) + "/ratelimit"@,
    )
    &&& s.result.at == number_under(j, seq!["at"@])
}

/// A poll that takes an answer in goes on to the next service. What it has found changes only
/// where the answer has a number for one of the limits, is not too old, and was taken later
/// than the best one so far; it is then what that answer says.
pub proof fn polls_take_answers_in(
    before: LimitsScan,
    after: LimitsScan,
    body: Option<Seq<char>>,
    now: Num,
    sub_op: spec_fn(Num, Num) -> Num,
)
    requires
        takes_answer(before, after, body, now, sub_op),
    ensures
        after.ports@ == before.ports@,
        after.next == before.next + 1,
        ({
            let answer = match body {
                Some(body) => text_tree(body),
                None => None,
            };
            match answer {
                Some(j) => {
                    let at = zero_if_missing(number_under(j, seq!["at"@]));
                    let tells = number_under(j, seq!["unified5hUtilization"@]) is Some
                        || number_under(j, seq!["unified7dUtilization"@]) is Some;
                    if tells && !sub_op(now, at).above_spec(Num { bits: 0x4112_4f80_0000_0000 })
                        && at.above_spec(before.best.best_at) {
                        has_taken(after.best, before.ports@[before.next as int], j, at)
                    } else {
                        after.best == before.best
                    }
                },
                None => after.best == before.best,
            }
        }),
{
    if let Some(body) = body {
        let port = before.ports@[before.next as int];
        let r = choose|r: Option<LiveRatelimit>|
            #[trigger] is_reading_in(r, body, ratelimit_address(port)) && after.best
                == after_reading(before.best, port, r, now, sub_op);
        assert(is_reading_in(r, body, ratelimit_address(port)));
        readings_say_what_the_service_says(r, body, ratelimit_address(port));
        if let Some(rl) = r {
            searches_take_what_is_fresher(before.best, port, rl, now, sub_op);
        }
    }
}

/// A search for a port that takes an answer in changes only where the answer speaks of one of
/// the limits, is young, and was taken later than the best one so far or is the first.
pub proof fn searches_take_answers_in(
    before: PortScan,
    port: u16,
    body: Option<Seq<char>>,
    now: Num,
    sub_op: spec_fn(Num, Num) -> Num,
)
    ensures
        ({
            let after = after_answer(before, port, body, now, sub_op);
            let answer = match body {
                Some(body) => text_tree(body),
                None => None,
            };
            match answer {
                Some(j) => {
                    let at = zero_if_missing(number_under(j, seq!["at"@]));
                    let speaks = walk(j, seq!["unified5hUtilization"@]) is Some || walk(
                        j,
                        seq!["unified7dUtilization"@],
                    ) is Some;
                    if speaks && sub_op(now, at).at_most_spec(Num { bits: 0x4112_4f80_0000_0000 })
                        && (match before.best {
                        Some((_, best_at)) => at.above_spec(best_at),
                        None => true,
                    }) {
                        after.best == Some((port, at))
                    } else {
                        after == before
                    }
                },
                None => after == before,
            }
        }),
{
    if let Some(body) = body {
        probes_tell_when_an_answer_was_taken(body);
        if let Some(at) = probe_in(body) {
            searches_for_ports_take_what_is_fresher(before, port, at, now, sub_op);
        }
    }
}

/// A search for which an address is named finds the port of that address, or goes on without
/// it where it has none.
pub proof fn named_addresses_give_their_port(
    named: Option<String>,
    host: Seq<char>,
    port: u16,
    path: Seq<char>,
)
    requires
        !host.contains('/'),
        path.len() > 0,
        path[0] == '/',
    ensures
        text_of(named) == Some("http://"@ + (host + seq![':'] + decimal_text(port as nat) + path))
            ==> named_port(named) == Some(port),
        text_of(named) == Some("http://"@ + (host + path)) && !host.contains(':') ==> named_port(
            named,
        ) == Some(80u16),
        text_of(named) == Some("http://"@ + (host + seq![':'] + path)) ==> named_port(named) is None,
        named is None ==> named_port(named) is None,
{
    crate::url::url_is_split_into_its_parts(host, port, path);
    if !host.contains(':') {
        crate::text_laws::parts_of_an_address_may_be_missing(host, None, path);
    }
    crate::text_laws::parts_of_an_address_may_be_missing(host, Some(seq![]), path);
    crate::text_laws::port_numbers_are_digits(seq![]);
    assert(host + seq![':'] + seq![] =~= host + seq![':']);
}

/// Limits of which nothing is known say nothing; a poll that ends without a reading ends with
/// such, and without a port.
pub proof fn unknown_limits_say_nothing(rl: LiveRatelimit, action: PollAction)
    ensures
        is_unknown(rl) <==> !rl.available && rl.u5h is None && rl.u7d is None && rl.reset5h is None
            && rl.reset7d is None && rl.status is None && rl.plan is None && rl.source is None
            && rl.at is None,
        ends_unknown(action) <==> (action matches PollAction::Finish(reading, port) && is_unknown(
            reading,
        ) && port is None),
{
}

/// An answer is taken in with all of its text.
pub proof fn answers_are_heard_whole(body: Option<String>)
    ensures
        match (body, answer_text(body)) {
            (Some(s), Some(heard)) => heard == s@,
            (None, None) => true,
            _ => false,
        },
{
}

/// A request names its host, its port, its path and how long it may take.
pub proof fn requests_name_their_service(
    f: Fetch,
    host: Seq<char>,
    port: u16,
    path: Seq<char>,
    timeout_ms: u64,
)
    ensures
        is_fetch(f, host, port, path, timeout_ms) <==> f.host@ == host && f.port == port && f.path@
            == path && f.timeout_ms == timeout_ms,
{
}

} // verus!
