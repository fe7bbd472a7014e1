//! What holds of imports, from the JSON that a service answers with to the lines that are
//! read back from the log.
use crate::http::Fetch;
use crate::importer::{
    are_scanned, goes_on, is_import_of, is_sample_in, is_sampled, is_taken, lists_sessions,
    may_begin, takes_messages, ImportAction, ImportMemory, ImportStage, SampleState, SessionScan,
    Signature,
};
use crate::json::{bytes_tree, member_in, member_of, text_of, text_tree, Json};
use crate::log::{contents, sample_line, usage_line, Content, Field, FieldValue, Line, Sample};
use crate::messages::{
    all_tokens, are_message_fields, are_messages, has_usage, imports, lemma_is_new, message_in,
    seen_after, usage_of, usages, without, MessageFields, Usage, UsageRecord,
};
use crate::num::Num;
use crate::ratelimit::{are_fields_of, RatelimitFields};
use crate::sessions::{
    are_newest, first_places, ids_at, is_before, is_newest_first, items_in, scan_limit, session_id,
    session_ids, session_time, session_times, texts,
};
use crate::usage::RawLine;
use vstd::prelude::*;

verus! {

// ---------------------------------------------------------------- walking through JSON

/// What a value holds under one key after the other.
pub open spec fn walk(j: Json, keys: Seq<Seq<char>>) -> Option<Json>
    decreases keys.len(),
{
    if keys.len() == 0 {
        Some(j)
    } else {
        match j {
            Json::Object(members) => if members.contains_key(keys[0]) {
                walk(members[keys[0]], keys.skip(1))
            } else {
                None
            },
            _ => None,
        }
    }
}

/// The number under one key after the other, if there is one.
pub open spec fn number_under(j: Json, keys: Seq<Seq<char>>) -> Option<Num> {
    match walk(j, keys) {
        Some(Json::Number(n)) => Some(n),
        _ => None,
    }
}

/// The text under one key after the other, if there is one.
pub open spec fn text_under(j: Json, keys: Seq<Seq<char>>) -> Option<Seq<char>> {
    match walk(j, keys) {
        Some(Json::Text(s)) => Some(s),
        _ => None,
    }
}

pub open spec fn zero_if_missing(n: Option<Num>) -> Num {
    match n {
        Some(n) => n,
        None => Num { bits: 0 },
    }
}

pub proof fn lemma_walk_one(j: Json, a: Seq<char>)
    ensures
        walk(j, seq![a]) == member_of(j, a),
{
    assert(seq![a][0] == a);
    assert(seq![a].skip(1) =~= seq![]);
    if let Json::Object(members) = j {
        if members.contains_key(a) {
            assert(walk(members[a], seq![]) == Some(members[a]));
        }
    }
}

proof fn lemma_walk_two(j: Json, a: Seq<char>, b: Seq<char>)
    ensures
        walk(j, seq![a, b]) == member_in(member_of(j, a), b),
{
    assert(seq![a, b][0] == a);
    assert(seq![a, b].skip(1) =~= seq![b]);
    if let Json::Object(members) = j {
        if members.contains_key(a) {
            lemma_walk_one(members[a], b);
        }
    }
}

proof fn lemma_walk_three(j: Json, a: Seq<char>, b: Seq<char>, c: Seq<char>)
    ensures
        walk(j, seq![a, b, c]) == member_in(member_in(member_of(j, a), b), c),
{
    assert(seq![a, b, c][0] == a);
    assert(seq![a, b, c].skip(1) =~= seq![b, c]);
    if let Json::Object(members) = j {
        if members.contains_key(a) {
            lemma_walk_two(members[a], b, c);
        }
    }
}

// ---------------------------------------------------------------- messages

/// The message itself, of an item of a service's list: what stands under `info`, or else the
/// item.
pub open spec fn unwrapped(item: Json) -> Json {
    match walk(item, seq!["info"@]) {
        Some(m) => m,
        None => item,
    }
}

/// Whether a usage is what the message of an item says, field by field.
pub open spec fn says(u: Usage, item: Json, now: Num) -> bool {
    let m = unwrapped(item);
    &&& u.input == zero_if_missing(number_under(m, seq!["tokens"@, "input"@]))
    &&& u.output == zero_if_missing(number_under(m, seq!["tokens"@, "output"@]))
    &&& u.cache_read == zero_if_missing(number_under(m, seq!["tokens"@, "cache"@, "read"@]))
    &&& u.cache_write == zero_if_missing(number_under(m, seq!["tokens"@, "cache"@, "write"@]))
    &&& u.t == (match number_under(m, seq!["time"@, "completed"@]) {
        Some(t) => t,
        None => match number_under(m, seq!["time"@, "created"@]) {
            Some(t) => t,
            None => now,
        },
    }).whole_spec()
    &&& u.model == match text_under(m, seq!["modelID"@]) {
        Some(s) => s,
        None => Seq::<char>::empty(),
    }
    &&& text_under(m, seq!["id"@]) == Some(u.id)
}

/// Whether the message of an item counts: the model wrote it, it has an id, it is completed,
/// and its four numbers of tokens do not add up to a zero.
pub open spec fn counts(item: Json, add_op: spec_fn(Num, Num) -> Num) -> bool {
    let m = unwrapped(item);
    let sum = add_op(
        add_op(
            add_op(
                zero_if_missing(number_under(m, seq!["tokens"@, "input"@])),
                zero_if_missing(number_under(m, seq!["tokens"@, "output"@])),
            ),
            zero_if_missing(number_under(m, seq!["tokens"@, "cache"@, "read"@])),
        ),
        zero_if_missing(number_under(m, seq!["tokens"@, "cache"@, "write"@])),
    );
    &&& text_under(m, seq!["role"@]) == Some("assistant"@)
    &&& text_under(m, seq!["id"@]) is Some
    &&& match walk(m, seq!["time"@, "completed"@]) {
        Some(j) => !(j is Null),
        None => false,
    }
    &&& sum.bits != 0 && sum.bits != 0x8000_0000_0000_0000
}

proof fn lemma_walks(f: MessageFields, item: Json)
    requires
        are_message_fields(f, item),
    ensures
        ({
            let m = unwrapped(item);
            &&& text_of(f.role) == text_under(m, seq!["role"@])
            &&& text_of(f.id) == text_under(m, seq!["id"@])
            &&& text_of(f.model) == text_under(m, seq!["modelID"@])
            &&& f.completed == number_under(m, seq!["time"@, "completed"@])
            &&& f.created == number_under(m, seq!["time"@, "created"@])
            &&& f.is_completed == match walk(m, seq!["time"@, "completed"@]) {
                Some(j) => !(j is Null),
                None => false,
            }
            &&& f.input == number_under(m, seq!["tokens"@, "input"@])
            &&& f.output == number_under(m, seq!["tokens"@, "output"@])
            &&& f.cache_read == number_under(m, seq!["tokens"@, "cache"@, "read"@])
            &&& f.cache_write == number_under(m, seq!["tokens"@, "cache"@, "write"@])
        }),
{
    lemma_walk_one(item, "info"@);
    let m = unwrapped(item);
    assert(m == message_in(item));
    lemma_walk_one(m, "role"@);
    lemma_walk_one(m, "id"@);
    lemma_walk_one(m, "modelID"@);
    lemma_walk_two(m, "time"@, "completed"@);
    lemma_walk_two(m, "time"@, "created"@);
    lemma_walk_two(m, "tokens"@, "input"@);
    lemma_walk_two(m, "tokens"@, "output"@);
    lemma_walk_three(m, "tokens"@, "cache"@, "read"@);
    lemma_walk_three(m, "tokens"@, "cache"@, "write"@);
}

/// What is made of the message of an item holds its numbers and texts, each under its own
/// name; and a message counts by what its JSON says.
pub proof fn usage_is_what_the_message_says(
    f: MessageFields,
    item: Json,
    now: Num,
    add_op: spec_fn(Num, Num) -> Num,
)
    requires
        are_message_fields(f, item),
    ensures
        has_usage(f, add_op) == counts(item, add_op),
        counts(item, add_op) ==> says(usage_of(f, now), item, now),
{
    lemma_walks(f, item);
    let sum = all_tokens(f, add_op);
    assert(sum.is_zero_spec() == (sum.bits == 0 || sum.bits == 0x8000_0000_0000_0000));
    if counts(item, add_op) {
        assert(f.id is Some);
        if f.model is None {
            assert(usage_of(f, now).model =~= Seq::<char>::empty());
        }
    }
}

/// The four numbers of tokens of a record add up to those of its message.
pub proof fn tokens_of_a_record_add_up(
    f: MessageFields,
    now: Num,
    add_op: spec_fn(Num, Num) -> Num,
)
    ensures
        ({
            let u = usage_of(f, now);
            add_op(add_op(add_op(u.input, u.output), u.cache_read), u.cache_write) == all_tokens(
                f,
                add_op,
            )
        }),
{
}

/// One more message is imported if it counts and no message with its id was seen; what is
/// imported of it is what it says, and its id is seen from then on. Nothing else changes.
pub proof fn one_more_message(
    seen: Set<Seq<char>>,
    list: Seq<MessageFields>,
    f: MessageFields,
    item: Json,
    now: Num,
    add_op: spec_fn(Num, Num) -> Num,
)
    requires
        are_message_fields(f, item),
    ensures
        imports(seen, seq![], now, add_op) == Seq::<Usage>::empty(),
        seen_after(seen, seq![], add_op) == seen,
        ({
            let before = imports(seen, list, now, add_op);
            let after = imports(seen, list.push(f), now, add_op);
            let known = seen_after(seen, list, add_op);
            let known_then = seen_after(seen, list.push(f), add_op);
            match text_under(unwrapped(item), seq!["id"@]) {
                Some(id) if counts(item, add_op) => {
                    &&& known_then == known.insert(id)
                    &&& known.contains(id) ==> after == before
                    &&& !known.contains(id) ==> after.len() == before.len() + 1 && after.drop_last()
                        == before && says(after.last(), item, now)
                },
                _ => after == before && known_then == known,
            }
        }),
{
    let more = list.push(f);
    assert(more.drop_last() =~= list);
    assert(more.last() == f);
    usage_is_what_the_message_says(f, item, now, add_op);
    lemma_walks(f, item);
    if has_usage(f, add_op) {
        lemma_is_new(seen, more, add_op);
        let before = imports(seen, list, now, add_op);
        assert(before.push(usage_of(f, now)).drop_last() =~= before);
    }
}

/// Whether a usage is that of an item which counts.
pub open spec fn is_of_item(
    u: Usage,
    item: Json,
    now: Num,
    add_op: spec_fn(Num, Num) -> Num,
) -> bool {
    counts(item, add_op) && says(u, item, now)
}

/// What an import takes out of a service's list of messages is what messages say that count
/// and were not seen, and no message that counts is left out unless one with its id was seen
/// or imported.
pub proof fn imports_hold_what_messages_say(
    new: Seq<Usage>,
    before: Set<Seq<char>>,
    after: Set<Seq<char>>,
    body: Seq<u8>,
    items: Seq<Json>,
    now: Num,
    add_op: spec_fn(Num, Num) -> Num,
)
    requires
        is_import_of(new, before, after, body, now, add_op),
        items_in(body) == Some(items),
    ensures
        forall|i: int|
            0 <= i < new.len() ==> !before.contains((#[trigger] new[i]).id) && exists|k: int|
                0 <= k < items.len() && is_of_item(new[i], #[trigger] items[k], now, add_op),
        forall|k: int|
            0 <= k < items.len() && counts(#[trigger] items[k], add_op) ==> {
                let id = text_under(unwrapped(items[k]), seq!["id"@]).unwrap();
                after.contains(id) && (before.contains(id) || exists|i: int|
                    0 <= i < new.len() && (#[trigger] new[i]).id == id)
            },
{
    let list = choose|list: Seq<MessageFields>|
        #[trigger] are_messages(list, items) && new == imports(before, list, now, add_op) && after
            == seen_after(before, list, add_op);
    lemma_imports_hold(before, list, items, now, add_op);
    crate::messages::no_message_is_imported_twice(before, list, now, add_op);
}

proof fn lemma_imports_hold(
    seen: Set<Seq<char>>,
    list: Seq<MessageFields>,
    items: Seq<Json>,
    now: Num,
    add_op: spec_fn(Num, Num) -> Num,
)
    requires
        are_messages(list, items),
    ensures
        ({
            let new = imports(seen, list, now, add_op);
            let after = seen_after(seen, list, add_op);
            &&& forall|i: int|
                0 <= i < new.len() ==> exists|k: int|
                    0 <= k < items.len() && is_of_item(
                        #[trigger] new[i],
                        #[trigger] items[k],
                        now,
                        add_op,
                    )
            &&& forall|id: Seq<char>|
                #[trigger] after.contains(id) ==> seen.contains(id) || exists|i: int|
                    0 <= i < new.len() && (#[trigger] new[i]).id == id
            &&& forall|k: int|
                0 <= k < items.len() && counts(#[trigger] items[k], add_op) ==> after.contains(
                    text_under(unwrapped(items[k]), seq!["id"@]).unwrap(),
                )
        }),
    decreases list.len(),
{
    let new = imports(seen, list, now, add_op);
    let after = seen_after(seen, list, add_op);
    if list.len() > 0 {
        let (fewer, less) = (list.drop_last(), items.drop_last());
        assert forall|k: int| 0 <= k < less.len() implies are_message_fields(
            #[trigger] fewer[k],
            less[k],
        ) by {
            assert(fewer[k] == list[k] && less[k] == items[k]);
        }
        lemma_imports_hold(seen, fewer, less, now, add_op);
        let n = list.len() - 1;
        let (f, item) = (list[n], items[n]);
        assert(are_message_fields(f, item));
        one_more_message(seen, fewer, f, item, now, add_op);
        assert(fewer.push(f) =~= list);
        let old_new = imports(seen, fewer, now, add_op);
        let old_after = seen_after(seen, fewer, add_op);
        assert forall|i: int| 0 <= i < new.len() implies exists|k: int|
            0 <= k < items.len() && is_of_item(
                #[trigger] new[i],
                #[trigger] items[k],
                now,
                add_op,
            ) by {
            if i < old_new.len() {
                assert(new[i] == old_new[i]);
                let k = choose|k: int|
                    0 <= k < less.len() && is_of_item(old_new[i], #[trigger] less[k], now, add_op);
                assert(items[k] == less[k]);
            } else {
                assert(new[i] == new.last());
                assert(is_of_item(new[i], items[n], now, add_op));
            }
        }
        assert forall|id: Seq<char>| #[trigger] after.contains(id) implies seen.contains(id)
            || exists|i: int| 0 <= i < new.len() && (#[trigger] new[i]).id == id by {
            if old_after.contains(id) {
                if !seen.contains(id) {
                    let i = choose|i: int| 0 <= i < old_new.len() && (#[trigger] old_new[i]).id == id;
                    assert(new[i] == old_new[i]);
                }
            } else {
                assert(new[new.len() - 1].id == id);
            }
        }
        assert forall|k: int|
            0 <= k < items.len() && counts(#[trigger] items[k], add_op) implies after.contains(
            text_under(unwrapped(items[k]), seq!["id"@]).unwrap(),
        ) by {
            if k < n {
                assert(items[k] == less[k]);
            }
        }
    }
}

// ---------------------------------------------------------------- lines of the log

/// What a line says under a key; the last word counts.
pub open spec fn word_under(line: Line, key: Seq<char>) -> Option<Content>
    decreases line.len(),
{
    if line.len() == 0 {
        None
    } else {
        let (k, word) = line.last();
        if k == key {
            Some(word)
        } else {
            word_under(line.drop_last(), key)
        }
    }
}

pub open spec fn double_under(line: Line, key: Seq<char>) -> Option<Num> {
    match word_under(line, key) {
        Some(Content::Double(n)) => Some(n),
        _ => None,
    }
}

pub open spec fn whole_under(line: Line, key: Seq<char>) -> int {
    match word_under(line, key) {
        Some(Content::Whole(n)) => n,
        _ => 0,
    }
}

pub open spec fn words_under(line: Line, key: Seq<char>) -> Option<Seq<char>> {
    match word_under(line, key) {
        Some(Content::Text(s)) => Some(s),
        _ => None,
    }
}

/// Whether a line of the log is read as `l`: each field under its own key, with what is
/// missing or null left out.
pub open spec fn is_read_as(line: Line, l: RawLine) -> bool {
    &&& l.t == whole_under(line, "t"@)
    &&& l.kind@ == match words_under(line, "kind"@) {
        Some(s) => s,
        None => Seq::<char>::empty(),
    }
    &&& l.status == whole_under(line, "status"@)
    &&& l.input == double_under(line, "input"@)
    &&& l.output == double_under(line, "output"@)
    &&& l.cache_read == double_under(line, "cacheRead"@)
    &&& l.cache_write == double_under(line, "cacheWrite"@)
    &&& l.bytes_in == double_under(line, "bytesIn"@)
    &&& l.bytes_out == double_under(line, "bytesOut"@)
    &&& l.cost == double_under(line, "cost"@)
    &&& l.rate_limited == (word_under(line, "rateLimited"@) == Some(Content::Flag(true)))
    &&& l.u5h == double_under(line, "u5h"@)
    &&& l.u7d == double_under(line, "u7d"@)
    &&& l.reset5h == double_under(line, "reset5h"@)
    &&& l.reset7d == double_under(line, "reset7d"@)
    &&& text_of(l.plan) == words_under(line, "plan"@)
    &&& text_of(l.model) == words_under(line, "model"@)
}

/// A line that is written of a sample is read back as a sample with the same values, and
/// nothing of a request.
pub proof fn samples_are_read_back(s: Sample, fields: Seq<Field>, l: RawLine)
    requires
        contents(fields) == sample_line(s),
        is_read_as(contents(fields), l),
    ensures
        l.t == s.t,
        l.kind@ == "ratelimit"@,
        l.u5h == s.u5h,
        l.u7d == s.u7d,
        l.reset5h == s.reset5h,
        l.reset7d == s.reset7d,
        text_of(l.plan) == text_of(s.plan),
        l.status == 0,
        !l.rate_limited,
        l.input is None && l.output is None && l.cache_read is None && l.cache_write is None,
        l.bytes_in is None && l.bytes_out is None && l.cost is None && l.model is None,
        words_under(contents(fields), "rlStatus"@) == text_of(s.status),
        words_under(contents(fields), "source"@) == Some("opencode-live-rust"@),
{
    lemma_words_of_sample(s);
}

/// A line that is written of a message's usage is read back as a request that succeeded, with
/// the same values.
pub proof fn usage_is_read_back(u: Usage, line: Line, l: RawLine)
    requires
        line == usage_line(u),
        is_read_as(line, l),
    ensures
        l.t == u.t,
        l.kind@ == "request"@,
        l.kind@ != "ratelimit"@,
        l.status == 200,
        l.input == Some(u.input),
        l.output == Some(u.output),
        l.cache_read == Some(u.cache_read),
        l.cache_write == Some(u.cache_write),
        text_of(l.model) == Some(u.model),
        !l.rate_limited,
        l.u5h is None && l.u7d is None && l.reset5h is None && l.reset7d is None && l.plan is None,
        l.bytes_in is None && l.bytes_out is None && l.cost is None,
        words_under(line, "msgId"@) == Some(u.id),
        words_under(line, "source"@) == Some("opencode-live-rust"@),
        word_under(line, "durationMs"@) == Some(Content::Whole(0)),
{
    lemma_keys_differ();
    lemma_words_of_usage(u);
}

/// The keys of the log are told apart by their length and a few of their letters.
proof fn lemma_keys_differ()
    ensures
        "t"@.len() == 1 && "t"@[0] == 't',
        "kind"@.len() == 4 && "kind"@[0] == 'k' && "kind"@[1] == 'i',
        "status"@.len() == 6 && "status"@[0] == 's' && "status"@[1] == 't' && "status"@[5] == 's',
        "input"@.len() == 5 && "input"@[0] == 'i' && "input"@[1] == 'n',
        "output"@.len() == 6 && "output"@[0] == 'o' && "output"@[1] == 'u' && "output"@[5] == 't',
        "cacheRead"@.len() == 9 && "cacheRead"@[0] == 'c'
            && "cacheRead"@[1] == 'a' && "cacheRead"@[5] == 'R',
        "cacheWrite"@.len() == 10 && "cacheWrite"@[0] == 'c'
            && "cacheWrite"@[1] == 'a' && "cacheWrite"@[5] == 'W',
        "bytesIn"@.len() == 7 && "bytesIn"@[0] == 'b'
            && "bytesIn"@[1] == 'y' && "bytesIn"@[5] == 'I',
        "bytesOut"@.len() == 8 && "bytesOut"@[0] == 'b'
            && "bytesOut"@[1] == 'y' && "bytesOut"@[5] == 'O',
        "cost"@.len() == 4 && "cost"@[0] == 'c' && "cost"@[1] == 'o',
        "rateLimited"@.len() == 11 && "rateLimited"@[0] == 'r'
            && "rateLimited"@[1] == 'a' && "rateLimited"@[5] == 'i',
        "u5h"@.len() == 3 && "u5h"@[0] == 'u' && "u5h"@[1] == '5',
        "u7d"@.len() == 3 && "u7d"@[0] == 'u' && "u7d"@[1] == '7',
        "reset5h"@.len() == 7 && "reset5h"@[0] == 'r'
            && "reset5h"@[1] == 'e' && "reset5h"@[5] == '5',
        "reset7d"@.len() == 7 && "reset7d"@[0] == 'r'
            && "reset7d"@[1] == 'e' && "reset7d"@[5] == '7',
        "plan"@.len() == 4 && "plan"@[0] == 'p' && "plan"@[1] == 'l',
        "model"@.len() == 5 && "model"@[0] == 'm' && "model"@[1] == 'o',
        "rlStatus"@.len() == 8 && "rlStatus"@[0] == 'r'
            && "rlStatus"@[1] == 'l' && "rlStatus"@[5] == 't',
        "source"@.len() == 6 && "source"@[0] == 's' && "source"@[1] == 'o' && "source"@[5] == 'e',
        "durationMs"@.len() == 10 && "durationMs"@[0] == 'd'
            && "durationMs"@[1] == 'u' && "durationMs"@[5] == 'i',
        "msgId"@.len() == 5 && "msgId"@[0] == 'm' && "msgId"@[1] == 's',
        "request"@ != "ratelimit"@,
{
    reveal_strlit("t");
    reveal_strlit("kind");
    reveal_strlit("status");
    reveal_strlit("input");
    reveal_strlit("output");
    reveal_strlit("cacheRead");
    reveal_strlit("cacheWrite");
    reveal_strlit("bytesIn");
    reveal_strlit("bytesOut");
    reveal_strlit("cost");
    reveal_strlit("rateLimited");
    reveal_strlit("u5h");
    reveal_strlit("u7d");
    reveal_strlit("reset5h");
    reveal_strlit("reset7d");
    reveal_strlit("plan");
    reveal_strlit("model");
    reveal_strlit("rlStatus");
    reveal_strlit("source");
    reveal_strlit("durationMs");
    reveal_strlit("msgId");
    reveal_strlit("request");
    reveal_strlit("ratelimit");
    assert("request"@.len() != "ratelimit"@.len());
}

proof fn lemma_word(line: Line, key: Seq<char>, i: int)
    requires
        0 <= i < line.len(),
        line[i].0 == key,
        forall|j: int| i < j < line.len() ==> (#[trigger] line[j]).0 != key,
    ensures
        word_under(line, key) == Some(line[i].1),
    decreases line.len(),
{
    if i < line.len() - 1 {
        assert(line[line.len() - 1].0 != key);
        let less = line.drop_last();
        assert forall|j: int| i < j < less.len() implies (#[trigger] less[j]).0 != key by {
            assert(line[j].0 != key);
        }
        lemma_word(less, key, i);
    }
}

proof fn lemma_no_word(line: Line, key: Seq<char>)
    requires
        forall|j: int| 0 <= j < line.len() ==> (#[trigger] line[j]).0 != key,
    ensures
        word_under(line, key) is None,
    decreases line.len(),
{
    if line.len() > 0 {
        assert(line[line.len() - 1].0 != key);
        let less = line.drop_last();
        assert forall|j: int| 0 <= j < less.len() implies (#[trigger] less[j]).0 != key by {
            assert(line[j].0 != key);
        }
        lemma_no_word(less, key);
    }
}

proof fn lemma_words_of_sample(s: Sample)
    ensures
        word_under(sample_line(s), "t"@) == Some(sample_line(s)[0].1),
        word_under(sample_line(s), "kind"@) == Some(sample_line(s)[1].1),
        word_under(sample_line(s), "u5h"@) == Some(sample_line(s)[2].1),
        word_under(sample_line(s), "u7d"@) == Some(sample_line(s)[3].1),
        word_under(sample_line(s), "reset5h"@) == Some(sample_line(s)[4].1),
        word_under(sample_line(s), "reset7d"@) == Some(sample_line(s)[5].1),
        word_under(sample_line(s), "rlStatus"@) == Some(sample_line(s)[6].1),
        word_under(sample_line(s), "plan"@) == Some(sample_line(s)[7].1),
        word_under(sample_line(s), "source"@) == Some(sample_line(s)[8].1),
        word_under(sample_line(s), "status"@) is None,
        word_under(sample_line(s), "input"@) is None,
        word_under(sample_line(s), "output"@) is None,
        word_under(sample_line(s), "cacheRead"@) is None,
        word_under(sample_line(s), "cacheWrite"@) is None,
        word_under(sample_line(s), "bytesIn"@) is None,
        word_under(sample_line(s), "bytesOut"@) is None,
        word_under(sample_line(s), "cost"@) is None,
        word_under(sample_line(s), "rateLimited"@) is None,
        word_under(sample_line(s), "model"@) is None,
        word_under(sample_line(s), "durationMs"@) is None,
        word_under(sample_line(s), "msgId"@) is None,
{
    lemma_keys_differ();
    let line = sample_line(s);
    lemma_word(line, "t"@, 0);
    lemma_word(line, "kind"@, 1);
    lemma_word(line, "u5h"@, 2);
    lemma_word(line, "u7d"@, 3);
    lemma_word(line, "reset5h"@, 4);
    lemma_word(line, "reset7d"@, 5);
    lemma_word(line, "rlStatus"@, 6);
    lemma_word(line, "plan"@, 7);
    lemma_word(line, "source"@, 8);
    lemma_no_word(line, "status"@);
    lemma_no_word(line, "input"@);
    lemma_no_word(line, "output"@);
    lemma_no_word(line, "cacheRead"@);
    lemma_no_word(line, "cacheWrite"@);
    lemma_no_word(line, "bytesIn"@);
    lemma_no_word(line, "bytesOut"@);
    lemma_no_word(line, "cost"@);
    lemma_no_word(line, "rateLimited"@);
    lemma_no_word(line, "model"@);
    lemma_no_word(line, "durationMs"@);
    lemma_no_word(line, "msgId"@);
}

proof fn lemma_words_of_usage(u: Usage)
    ensures
        word_under(usage_line(u), "t"@) == Some(usage_line(u)[0].1),
        word_under(usage_line(u), "kind"@) == Some(usage_line(u)[1].1),
        word_under(usage_line(u), "status"@) == Some(usage_line(u)[2].1),
        word_under(usage_line(u), "input"@) == Some(usage_line(u)[3].1),
        word_under(usage_line(u), "output"@) == Some(usage_line(u)[4].1),
        word_under(usage_line(u), "cacheRead"@) == Some(usage_line(u)[5].1),
        word_under(usage_line(u), "cacheWrite"@) == Some(usage_line(u)[6].1),
        word_under(usage_line(u), "model"@) == Some(usage_line(u)[7].1),
        word_under(usage_line(u), "rateLimited"@) == Some(usage_line(u)[8].1),
        word_under(usage_line(u), "durationMs"@) == Some(usage_line(u)[9].1),
        word_under(usage_line(u), "source"@) == Some(usage_line(u)[10].1),
        word_under(usage_line(u), "msgId"@) == Some(usage_line(u)[11].1),
        word_under(usage_line(u), "bytesIn"@) is None,
        word_under(usage_line(u), "bytesOut"@) is None,
        word_under(usage_line(u), "cost"@) is None,
        word_under(usage_line(u), "u5h"@) is None,
        word_under(usage_line(u), "u7d"@) is None,
        word_under(usage_line(u), "reset5h"@) is None,
        word_under(usage_line(u), "reset7d"@) is None,
        word_under(usage_line(u), "plan"@) is None,
        word_under(usage_line(u), "rlStatus"@) is None,
{
    lemma_keys_differ();
    let line = usage_line(u);
    lemma_word(line, "t"@, 0);
    lemma_word(line, "kind"@, 1);
    lemma_word(line, "status"@, 2);
    lemma_word(line, "input"@, 3);
    lemma_word(line, "output"@, 4);
    lemma_word(line, "cacheRead"@, 5);
    lemma_word(line, "cacheWrite"@, 6);
    lemma_word(line, "model"@, 7);
    lemma_word(line, "rateLimited"@, 8);
    lemma_word(line, "durationMs"@, 9);
    lemma_word(line, "source"@, 10);
    lemma_word(line, "msgId"@, 11);
    lemma_no_word(line, "bytesIn"@);
    lemma_no_word(line, "bytesOut"@);
    lemma_no_word(line, "cost"@);
    lemma_no_word(line, "u5h"@);
    lemma_no_word(line, "u7d"@);
    lemma_no_word(line, "reset5h"@);
    lemma_no_word(line, "reset7d"@);
    lemma_no_word(line, "plan"@);
    lemma_no_word(line, "rlStatus"@);
}

// ---------------------------------------------------------------- from an answer to the log

/// A sample is written of an answer that tells of the use of a limit, if one of its four
/// numbers differs from those of the last sample or that is 55 seconds ago; it is then the
/// last one. Otherwise nothing is written, and the last sample stays.
pub proof fn samples_are_written_when_due(
    r: Option<Sample>,
    before: SampleState,
    after: SampleState,
    body: Seq<char>,
    now: i64,
)
    requires
        is_sample_in(r, before, after, body, now),
    ensures
        match text_tree(body) {
            Some(j) => {
                let u5h = number_under(j, seq!["unified5hUtilization"@]);
                let u7d = number_under(j, seq!["unified7dUtilization"@]);
                let reset5h = number_under(j, seq!["unified5hReset"@]);
                let reset7d = number_under(j, seq!["unified7dReset"@]);
                let unchanged = before.last matches Some(last) && last.u5h == u5h && last.u7d == u7d
                    && last.reset5h == reset5h && last.reset7d == reset7d;
                &&& r is Some <==> (u5h is Some || u7d is Some) && (!unchanged || now
                    - before.written_at >= 55_000)
                &&& r is Some ==> after.written_at == now && after.last == Some(
                    Signature { u5h, u7d, reset5h, reset7d },
                )
                &&& r is None ==> after == before
            },
            None => r is None && after == before,
        },
{
    if let Some(j) = text_tree(body) {
        lemma_walk_one(j, "unified5hUtilization"@);
        lemma_walk_one(j, "unified7dUtilization"@);
        lemma_walk_one(j, "unified5hReset"@);
        lemma_walk_one(j, "unified7dReset"@);
        let f = choose|f: RatelimitFields|
            #[trigger] are_fields_of(f, j) && is_taken(r, before, after, f, now);
        assert(r is Some <==> is_sampled(before, f, now as int));
    }
}

/// What a service answers on its rate limits is what is read back from the log of the sample
/// that is written of it.
pub proof fn limits_come_back_from_the_log(
    s: Sample,
    before: SampleState,
    after: SampleState,
    body: Seq<char>,
    j: Json,
    now: i64,
    l: RawLine,
)
    requires
        is_sample_in(Some(s), before, after, body, now),
        text_tree(body) == Some(j),
        is_read_as(sample_line(s), l),
    ensures
        l.t == now,
        l.kind@ == "ratelimit"@,
        l.u5h == number_under(j, seq!["unified5hUtilization"@]),
        l.u7d == number_under(j, seq!["unified7dUtilization"@]),
        l.reset5h == number_under(j, seq!["unified5hReset"@]),
        l.reset7d == number_under(j, seq!["unified7dReset"@]),
        text_of(l.plan) == text_under(j, seq!["planLabel"@]),
        words_under(sample_line(s), "rlStatus"@) == text_under(j, seq!["unifiedStatus"@]),
{
    lemma_walk_one(j, "unified5hUtilization"@);
    lemma_walk_one(j, "unified7dUtilization"@);
    lemma_walk_one(j, "unified5hReset"@);
    lemma_walk_one(j, "unified7dReset"@);
    lemma_walk_one(j, "planLabel"@);
    lemma_walk_one(j, "unifiedStatus"@);
    let f = choose|f: RatelimitFields|
        #[trigger] are_fields_of(f, j) && is_taken(Some(s), before, after, f, now);
    assert(is_taken(Some(s), before, after, f, now));
    lemma_words_of_sample(s);
}

/// What a message says of its tokens is what is read back from the log of the line that is
/// written of it.
pub proof fn messages_come_back_from_the_log(
    new: Seq<Usage>,
    before: Set<Seq<char>>,
    after: Set<Seq<char>>,
    body: Seq<u8>,
    items: Seq<Json>,
    now: Num,
    add_op: spec_fn(Num, Num) -> Num,
    i: int,
    l: RawLine,
) -> (k: int)
    requires
        is_import_of(new, before, after, body, now, add_op),
        items_in(body) == Some(items),
        0 <= i < new.len(),
        is_read_as(usage_line(new[i]), l),
    ensures
        0 <= k < items.len(),
        counts(items[k], add_op),
        l.kind@ != "ratelimit"@,
        l.status == 200,
        !l.rate_limited,
        ({
            let m = unwrapped(items[k]);
            &&& l.input == Some(zero_if_missing(number_under(m, seq!["tokens"@, "input"@])))
            &&& l.output == Some(zero_if_missing(number_under(m, seq!["tokens"@, "output"@])))
            &&& l.cache_read == Some(
                zero_if_missing(number_under(m, seq!["tokens"@, "cache"@, "read"@])),
            )
            &&& l.cache_write == Some(
                zero_if_missing(number_under(m, seq!["tokens"@, "cache"@, "write"@])),
            )
            &&& number_under(m, seq!["time"@, "completed"@]) matches Some(t) ==> l.t
                == t.whole_spec()
        }),
{
    imports_hold_what_messages_say(new, before, after, body, items, now, add_op);
    let k = choose|k: int|
        0 <= k < items.len() && is_of_item(new[i], #[trigger] items[k], now, add_op);
    usage_is_read_back(new[i], usage_line(new[i]), l);
    k
}

// ---------------------------------------------------------------- sessions

/// When a session was last changed; the epoch where it does not say.
pub open spec fn changed_at(session: Json) -> Num {
    zero_if_missing(number_under(session, seq!["time"@, "updated"@]))
}

/// Whether the session at `a` comes before the one at `b`: it was changed later, or neither
/// was and it stands earlier in the list.
pub open spec fn comes_first(sessions: Seq<Json>, a: int, b: int) -> bool {
    let (s, t) = (changed_at(sessions[a]), changed_at(sessions[b]));
    s.place() > t.place() || (s.place() == t.place() && a < b)
}

/// Whether `places` are those of the sessions that come first, in order, and as many as the
/// limit allows.
pub open spec fn are_first(places: Seq<int>, sessions: Seq<Json>, limit: int) -> bool {
    &&& places.len() == if sessions.len() <= limit {
        sessions.len() as int
    } else {
        limit
    }
    &&& forall|i: int| 0 <= i < places.len() ==> 0 <= #[trigger] places[i] < sessions.len()
    &&& forall|i: int, j: int|
        0 <= i < j < places.len() ==> comes_first(
            sessions,
            #[trigger] places[i],
            #[trigger] places[j],
        )
    &&& forall|i: int, p: int|
        0 <= i < places.len() && 0 <= p < sessions.len() && !places.contains(p)
            ==> #[trigger] comes_first(sessions, places[i], p)
}

/// The ids of the sessions at the given places, of those that have one.
pub open spec fn names_of(sessions: Seq<Json>, places: Seq<int>) -> Seq<Seq<char>> {
    places.filter(|p: int| text_under(sessions[p], seq!["id"@]) is Some).map_values(
        |p: int| text_under(sessions[p], seq!["id"@]).unwrap(),
    )
}

/// The sessions that are scanned are those that were changed last, the last one first: twelve
/// of them in the first run, and three in a later one. A session without an id is passed over
/// and takes a place.
pub proof fn sessions_changed_last_are_scanned(
    list: Seq<Seq<char>>,
    sessions: Seq<Json>,
    first_run: bool,
) -> (places: Seq<int>)
    requires
        are_newest(list, session_times(sessions), session_ids(sessions), scan_limit(first_run)),
    ensures
        are_first(
            places,
            sessions,
            if first_run {
                12
            } else {
                3
            },
        ),
        list == names_of(sessions, places),
{
    let limit = scan_limit(first_run);
    let times = session_times(sessions);
    let ids = session_ids(sessions);
    let order = choose|order: Seq<usize>|
        {
            &&& #[trigger] is_newest_first(order, times)
            &&& list == ids_at(ids, first_places(order, limit))
        };
    let firsts = first_places(order, limit);
    let places = firsts.map_values(|p: usize| p as int);
    assert forall|p: int| 0 <= p < sessions.len() implies #[trigger] times[p] == changed_at(
        sessions[p],
    ) && ids[p] == text_under(sessions[p], seq!["id"@]) by {
        lemma_walk_two(sessions[p], "time"@, "updated"@);
        lemma_walk_one(sessions[p], "id"@);
        assert(times[p] == session_time(sessions[p]));
        assert(ids[p] == session_id(sessions[p]));
    }
    assert forall|i: int| 0 <= i < places.len() implies 0 <= #[trigger] places[i] < sessions.len() by {
        assert(places[i] == order[i]);
    }
    assert forall|i: int, j: int| 0 <= i < j < places.len() implies comes_first(
        sessions,
        #[trigger] places[i],
        #[trigger] places[j],
    ) by {
        assert(places[i] == order[i] && places[j] == order[j]);
        assert(is_before(times, order[i] as int, order[j] as int));
        assert(times[order[i] as int] == changed_at(sessions[places[i]]));
        assert(times[order[j] as int] == changed_at(sessions[places[j]]));
    }
    assert forall|i: int, p: int|
        0 <= i < places.len() && 0 <= p < sessions.len() && !places.contains(
            p,
        ) implies #[trigger] comes_first(
        sessions,
        places[i],
        p,
    ) by {
        crate::sessions::lemma_order_is_complete(order, times, p);
        let q = choose|q: int| 0 <= q < order.len() && #[trigger] order[q] == p;
        if q < places.len() {
            assert(places[q] == p);
        }
        assert(places[i] == order[i]);
        assert(is_before(times, order[i] as int, order[q] as int));
        assert(times[order[i] as int] == changed_at(sessions[places[i]]));
        assert(times[p] == changed_at(sessions[p]));
    }
    assert forall|k: int| 0 <= k < firsts.len() implies (#[trigger] firsts[k]) < sessions.len() by {
        assert(firsts[k] == order[k]);
    }
    lemma_names(sessions, firsts);
    places
}

proof fn lemma_names(sessions: Seq<Json>, firsts: Seq<usize>)
    requires
        forall|k: int| 0 <= k < firsts.len() ==> (#[trigger] firsts[k]) < sessions.len(),
    ensures
        ids_at(session_ids(sessions), firsts) == names_of(
            sessions,
            firsts.map_values(|p: usize| p as int),
        ),
    decreases firsts.len(),
{
    let places = firsts.map_values(|p: usize| p as int);
    let test = |p: int| text_under(sessions[p], seq!["id"@]) is Some;
    let name = |p: int| text_under(sessions[p], seq!["id"@]).unwrap();
    reveal(Seq::filter);
    if firsts.len() == 0 {
        assert(names_of(sessions, places) =~= seq![]);
    } else {
        let less = firsts.drop_last();
        assert forall|k: int| 0 <= k < less.len() implies (#[trigger] less[k]) < sessions.len() by {
            assert(less[k] == firsts[k]);
        }
        lemma_names(sessions, less);
        let p = firsts.last() as int;
        assert(firsts[firsts.len() - 1] < sessions.len());
        lemma_walk_one(sessions[p], "id"@);
        assert(places.drop_last() =~= less.map_values(|p: usize| p as int));
        assert(places.last() == p);
        let sub = places.drop_last().filter(test);
        if test(p) {
            assert(places.filter(test) == sub.push(p));
            assert(sub.push(p).map_values(name) =~= sub.map_values(name).push(name(p)));
        }
    }
}

// ---------------------------------------------------------------- steps

/// Whether a request goes to a path of a port of this machine, and how long it may take.
pub open spec fn asks(f: Fetch, port: u16, path: Seq<char>, timeout_ms: int) -> bool {
    f.host@ == "127.0.0.1"@ && f.port == port && f.path@ == path && f.timeout_ms == timeout_ms
}

/// An import asks for the messages of one session after the other; after the last one it
/// writes what they gave, if that is anything, and keeps the ids for the case that it cannot
/// be written.
pub proof fn sessions_are_scanned_one_by_one(
    stage: ImportStage,
    action: ImportAction,
    port: u16,
    ids: Seq<Seq<char>>,
    next: int,
    records: Seq<Usage>,
)
    requires
        goes_on(stage, action, port, ids, next, records),
    ensures
        next < ids.len() ==> {
            &&& action matches ImportAction::GetMessages(f) && asks(
                f,
                port,
                "/session/"@ + ids[next] + "/message"@,
                3000,
            )
            &&& stage matches ImportStage::Messages(s) && s.port == port && texts(s.ids@) == ids
                && s.next == next && usages(s.records@) == records
        },
        next >= ids.len() && records.len() == 0 ==> stage is Over && action
            == ImportAction::Finish(0),
        next >= ids.len() && records.len() > 0 ==> {
            &&& action matches ImportAction::AppendUsage(list) && usages(list@) == records
            &&& stage matches ImportStage::Usage(kept) && kept@.len() == records.len() && forall|
                k: int,
            |
                0 <= k < kept@.len() ==> (#[trigger] kept@[k])@ == records[k].id
        },
{
    if let ImportStage::Usage(kept) = stage {
        assert forall|k: int| 0 <= k < kept@.len() && texts(kept@) == crate::messages::ids_in(
            records,
        ) implies (#[trigger] kept@[k])@ == records[k].id by {
            assert(texts(kept@)[k] == kept@[k]@);
            assert(texts(kept@).len() == crate::messages::ids_in(records).len());
        }
        assert(texts(kept@).len() == kept@.len());
    }
}

/// An import asks a service for its sessions, at the path of sessions.
pub proof fn sessions_are_listed(stage: ImportStage, action: ImportAction, port: u16)
    requires
        lists_sessions(stage, action, port),
    ensures
        stage == ImportStage::Sessions(port),
        action matches ImportAction::GetSessions(f) && asks(f, port, "/session"@, 2500),
{
}

/// An import begins if the last one is four seconds ago or more.
pub proof fn imports_begin_four_seconds_apart(m: ImportMemory, now: int)
    ensures
        may_begin(m, now) <==> now - m.last_import >= 4_000,
{
}

/// After the messages of a session the scan goes on to the next one, with what it had and,
/// behind it, what is imported of these.
pub proof fn scans_keep_what_they_have(
    s: SessionScan,
    stage: ImportStage,
    action: ImportAction,
    before: Set<Seq<char>>,
    after: Set<Seq<char>>,
    body: Seq<u8>,
    now: Num,
    add_op: spec_fn(Num, Num) -> Num,
) -> (new: Seq<Usage>)
    requires
        takes_messages(s, stage, action, before, after, body, now, add_op),
    ensures
        is_import_of(new, before, after, body, now, add_op),
        s.next + 1 < s.ids@.len() ==> {
            &&& stage matches ImportStage::Messages(then) && then.port == s.port && then.next
                == s.next + 1 && texts(then.ids@) == texts(s.ids@) && usages(then.records@)
                == usages(s.records@) + new
            &&& action matches ImportAction::GetMessages(f) && asks(
                f,
                s.port,
                "/session/"@ + s.ids@[s.next + 1]@ + "/message"@,
                3000,
            )
        },
        s.next + 1 >= s.ids@.len() ==> if s.records@.len() + new.len() == 0 {
            action == ImportAction::Finish(0)
        } else {
            action matches ImportAction::AppendUsage(list) && usages(list@) == usages(s.records@)
                + new
        },
{
    let new = choose|new: Seq<Usage>|
        #[trigger] is_import_of(new, before, after, body, now, add_op) && goes_on(
            stage,
            action,
            s.port,
            texts(s.ids@),
            s.next + 1,
            usages(s.records@) + new,
        );
    sessions_are_scanned_one_by_one(
        stage,
        action,
        s.port,
        texts(s.ids@),
        s.next + 1,
        usages(s.records@) + new,
    );
    if s.next + 1 < s.ids@.len() {
        assert(texts(s.ids@)[s.next + 1] == s.ids@[s.next + 1]@);
    }
    new
}

/// The sessions that an import goes on with are those that were changed last: twelve while
/// nothing was imported yet, and three later.
pub proof fn imports_scan_what_was_changed_last(
    ids: Seq<Seq<char>>,
    sessions: Seq<Json>,
    first_run: bool,
) -> (places: Seq<int>)
    requires
        are_scanned(ids, sessions, first_run),
    ensures
        are_first(
            places,
            sessions,
            if first_run {
                12
            } else {
                3
            },
        ),
        ids == names_of(sessions, places),
{
    sessions_changed_last_are_scanned(ids, sessions, first_run)
}

/// The items of a service's list are all those of the JSON array that it answers with, and an
/// answer that is none has no items.
pub proof fn all_items_are_read(body: Seq<u8>)
    ensures
        match bytes_tree(body) {
            Some(Json::Array(items)) => items_in(body) == Some(items),
            _ => items_in(body) is None,
        },
{
}

/// Nothing is imported of an answer that is no JSON array, and what was seen stays.
pub proof fn nothing_is_imported_of_other_answers(
    new: Seq<Usage>,
    before: Set<Seq<char>>,
    after: Set<Seq<char>>,
    body: Seq<u8>,
    now: Num,
    add_op: spec_fn(Num, Num) -> Num,
)
    requires
        is_import_of(new, before, after, body, now, add_op),
        !(bytes_tree(body) matches Some(Json::Array(items))),
    ensures
        new.len() == 0,
        after == before,
{
}

/// The ids of messages that could not be written are forgotten, and no others.
pub proof fn ids_are_forgotten(seen: Set<Seq<char>>, ids: Seq<Seq<char>>, id: Seq<char>)
    ensures
        without(seen, ids).contains(id) <==> seen.contains(id) && forall|k: int|
            0 <= k < ids.len() ==> #[trigger] ids[k] != id,
{
    if ids.to_set().contains(id) {
        let k = choose|k: int| 0 <= k < ids.len() && ids[k] == id;
        assert(ids[k] == id);
    }
}

// ---------------------------------------------------------------- values

/// A list of records says what each of them holds, field by field and in order.
pub proof fn records_say_what_they_hold(records: Seq<UsageRecord>, k: int)
    requires
        0 <= k < records.len(),
    ensures
        usages(records).len() == records.len(),
        ({
            let (r, u) = (records[k], usages(records)[k]);
            &&& u.t == r.t && u.input == r.input && u.output == r.output
            &&& u.cache_read == r.cache_read && u.cache_write == r.cache_write
            &&& u.model == r.model@ && u.id == r.id@
        }),
{
}

/// The fields of a line say what their keys and values are, in order.
pub proof fn fields_say_what_they_hold(fields: Seq<Field>, k: int)
    requires
        0 <= k < fields.len(),
    ensures
        contents(fields).len() == fields.len(),
        ({
            let (key, content) = contents(fields)[k];
            &&& key == fields[k].key@
            &&& content == match fields[k].value {
                FieldValue::Null => Content::Null,
                FieldValue::Flag(b) => Content::Flag(b),
                FieldValue::Whole(n) => Content::Whole(n as int),
                FieldValue::Double(n) => Content::Double(n),
                FieldValue::Text(s) => Content::Text(s@),
            }
        }),
{
}

/// A text that may be missing says what it is, and a list of texts what each of them is.
pub proof fn texts_say_what_they_are(s: Option<String>, list: Seq<String>, k: int)
    requires
        0 <= k < list.len(),
    ensures
        text_of(s) is Some <==> s is Some,
        s matches Some(s_text) ==> text_of(s) == Some(s_text@),
        texts(list).len() == list.len(),
        texts(list)[k] == list[k]@,
{
}

} // verus!
