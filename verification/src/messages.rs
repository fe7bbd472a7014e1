//! The messages of a session, and which of them go into the usage log.
use crate::json::{
    as_items, inner, is_null, json_tree, member, member_in, member_of, number, number_in,
    parse_bytes, text, text_in, text_of, trees, Json,
};
use crate::num::{is_operation, meaning, Num};
use crate::sessions::items_in;
use crate::usage::{known_or_zero, or_zero};
use vstd::hash_set::StringHashSet;
use vstd::prelude::*;
use vstd::string::*;

verus! {

/// What a message says of itself.
#[derive(Debug)]
pub struct MessageFields {
    pub role: Option<String>,
    pub id: Option<String>,
    /// Whether the message says when it was completed, in whatever form.
    pub is_completed: bool,
    pub completed: Option<Num>,
    pub created: Option<Num>,
    pub input: Option<Num>,
    pub output: Option<Num>,
    pub cache_read: Option<Num>,
    pub cache_write: Option<Num>,
    pub model: Option<String>,
}

// ---------------------------------------------------------------- reading

/// The message of an item of the list, which may wrap it.
pub open spec fn message_in(item: Json) -> Json {
    match member_of(item, "info"@) {
        Some(m) => m,
        None => item,
    }
}

/// Whether a value is there and is not null.
pub open spec fn is_given(j: Option<Json>) -> bool {
    j matches Some(j) && !(j is Null)
}

/// Whether the fields are those of an item of the list.
pub open spec fn are_message_fields(f: MessageFields, item: Json) -> bool {
    let m = message_in(item);
    let time = member_of(m, "time"@);
    let tokens = member_of(m, "tokens"@);
    &&& text_of(f.role) == text_in(member_of(m, "role"@))
    &&& text_of(f.id) == text_in(member_of(m, "id"@))
    &&& f.is_completed == is_given(member_in(time, "completed"@))
    &&& f.completed == number_in(member_in(time, "completed"@))
    &&& f.created == number_in(member_in(time, "created"@))
    &&& f.input == number_in(member_in(tokens, "input"@))
    &&& f.output == number_in(member_in(tokens, "output"@))
    &&& f.cache_read == number_in(member_in(member_in(tokens, "cache"@), "read"@))
    &&& f.cache_write == number_in(member_in(member_in(tokens, "cache"@), "write"@))
    &&& text_of(f.model) == text_in(member_of(m, "modelID"@))
}

/// Reads an item of the list.
pub fn message_fields(item: &serde_json::Value) -> (r: MessageFields)
    ensures
        are_message_fields(r, json_tree(*item)),
{
    let m: &serde_json::Value = match member(item, "info") {
        Some(m) => m,
        None => item,
    };
    let time = member(m, "time");
    let tokens = member(m, "tokens");
    let cache = inner(tokens, "cache");
    let is_completed: bool = match inner(time, "completed") {
        Some(v) => !is_null(v),
        None => false,
    };
    MessageFields {
        role: text(member(m, "role")),
        id: text(member(m, "id")),
        is_completed,
        completed: number(inner(time, "completed")),
        created: number(inner(time, "created")),
        input: number(inner(tokens, "input")),
        output: number(inner(tokens, "output")),
        cache_read: number(inner(cache, "read")),
        cache_write: number(inner(cache, "write")),
        model: text(member(m, "modelID")),
    }
}

/// Whether the fields are those of the items of a list.
pub open spec fn are_messages(list: Seq<MessageFields>, items: Seq<Json>) -> bool {
    &&& list.len() == items.len()
    &&& forall|k: int| 0 <= k < items.len() ==> are_message_fields(#[trigger] list[k], items[k])
}

/// Reads a service's list of the messages of a session. Nothing comes of a list that is
/// no JSON array.
pub fn read_messages(body: &Vec<u8>) -> (r: Option<Vec<MessageFields>>)
    ensures
        match (items_in(body@), r) {
            (Some(items), Some(list)) => are_messages(list@, items),
            (None, None) => true,
            _ => false,
        },
{
    let messages = match parse_bytes(body.as_slice()) {
        Some(messages) => messages,
        None => {
            return None;
        },
    };
    let items = match as_items(&messages) {
        Some(items) => items,
        None => {
            return None;
        },
    };
    let mut list: Vec<MessageFields> = Vec::new();
    let mut i: usize = 0;
    while i < items.len()
        invariant
            i <= items@.len(),
            list@.len() == i,
            forall|k: int|
                0 <= k < i ==> are_message_fields(#[trigger] list@[k], trees(items@)[k]),
        decreases items@.len() - i,
    {
        list.push(message_fields(&items[i]));
        i += 1;
    }
    Some(list)
}

// ---------------------------------------------------------------- importing

/// The usage of a message, as it goes into the log.
#[derive(Debug)]
pub struct UsageRecord {
    pub t: i64,
    pub input: Num,
    pub output: Num,
    pub cache_read: Num,
    pub cache_write: Num,
    pub model: String,
    pub id: String,
}

/// What a record says.
pub struct Usage {
    pub t: int,
    pub input: Num,
    pub output: Num,
    pub cache_read: Num,
    pub cache_write: Num,
    pub model: Seq<char>,
    pub id: Seq<char>,
}

impl View for UsageRecord {
    type V = Usage;

    open spec fn view(&self) -> Usage {
        Usage {
            t: self.t as int,
            input: self.input,
            output: self.output,
            cache_read: self.cache_read,
            cache_write: self.cache_write,
            model: self.model@,
            id: self.id@,
        }
    }
}

/// All tokens of a message together.
pub open spec fn all_tokens(m: MessageFields, add_op: spec_fn(Num, Num) -> Num) -> Num {
    add_op(add_op(add_op(or_zero(m.input), or_zero(m.output)),
            or_zero(m.cache_read),
        ),
        or_zero(m.cache_write),
    )
}

/// Whether a message has usage to report: the model wrote it, it has an id, it is
/// completed, and its tokens do not come to zero.
pub open spec fn has_usage(m: MessageFields, add_op: spec_fn(Num, Num) -> Num) -> bool {
    &&& text_of(m.role) == Some("assistant"@)
    &&& m.id is Some
    &&& m.is_completed
    &&& !all_tokens(m, add_op).is_zero_spec()
}

/// The time of a message: when it was completed, or else created, or else now.
pub open spec fn message_time(m: MessageFields, now: Num) -> Num {
    match m.completed {
        Some(t) => t,
        None => match m.created {
            Some(t) => t,
            None => now,
        },
    }
}

/// The usage that a message reports.
pub open spec fn usage_of(m: MessageFields, now: Num) -> Usage {
    Usage {
        t: message_time(m, now).whole_spec(),
        input: or_zero(m.input),
        output: or_zero(m.output),
        cache_read: or_zero(m.cache_read),
        cache_write: or_zero(m.cache_write),
        model: match m.model {
            Some(s) => s@,
            None => seq![],
        },
        id: m.id.unwrap()@,
    }
}

/// Whether a message of the list is to be imported: it has usage, and neither was its id
/// seen before nor does a message before it with usage have the same.
pub open spec fn is_new(
    seen: Set<Seq<char>>,
    messages: Seq<MessageFields>,
    i: int,
    add_op: spec_fn(Num, Num) -> Num,
) -> bool {
    &&& has_usage(messages[i], add_op)
    &&& !seen.contains(messages[i].id.unwrap()@)
    &&& forall|j: int|
        0 <= j < i && has_usage(#[trigger] messages[j], add_op) ==> messages[j].id.unwrap()@
            != messages[i].id.unwrap()@
}

/// The usage that is imported from a list of messages.
pub open spec fn imports(
    seen: Set<Seq<char>>,
    messages: Seq<MessageFields>,
    now: Num,
    add_op: spec_fn(Num, Num) -> Num,
) -> Seq<Usage>
    decreases messages.len(),
{
    if messages.len() == 0 {
        seq![]
    } else {
        let before = imports(seen, messages.drop_last(), now, add_op);
        if is_new(seen, messages, messages.len() - 1, add_op) {
            before.push(usage_of(messages.last(), now))
        } else {
            before
        }
    }
}

/// The ids that were seen after a list of messages.
pub open spec fn seen_after(
    seen: Set<Seq<char>>,
    messages: Seq<MessageFields>,
    add_op: spec_fn(Num, Num) -> Num,
) -> Set<Seq<char>>
    decreases messages.len(),
{
    if messages.len() == 0 {
        seen
    } else {
        let before = seen_after(seen, messages.drop_last(), add_op);
        if has_usage(messages.last(), add_op) {
            before.insert(messages.last().id.unwrap()@)
        } else {
            before
        }
    }
}

/// What the records say.
pub open spec fn usages(records: Seq<UsageRecord>) -> Seq<Usage> {
    records.map_values(|r: UsageRecord| r@)
}

/// An id was seen if it was seen before or a message of the list with usage has it.
pub proof fn seen_ids_are_those_of_messages(
    seen: Set<Seq<char>>,
    messages: Seq<MessageFields>,
    id: Seq<char>,
    add_op: spec_fn(Num, Num) -> Num,
)
    ensures
        seen_after(seen, messages, add_op).contains(id) <==> seen.contains(id) || exists|i: int|
            0 <= i < messages.len() && has_usage(#[trigger] messages[i], add_op)
                && messages[i].id.unwrap()@ == id,
    decreases messages.len(),
{
    if messages.len() > 0 {
        let fewer = messages.drop_last();
        seen_ids_are_those_of_messages(seen, fewer, id, add_op);
        assert(messages[messages.len() - 1] == messages.last());
        assert forall|i: int| 0 <= i < fewer.len() implies messages[i] == #[trigger] fewer[i] by {
        }
        if exists|i: int|
            0 <= i < fewer.len() && has_usage(#[trigger] fewer[i], add_op) && fewer[i].id.unwrap()@
                == id {
            let i = choose|i: int|
                0 <= i < fewer.len() && has_usage(#[trigger] fewer[i], add_op)
                    && fewer[i].id.unwrap()@ == id;
            assert(messages[i] == fewer[i]);
        }
        if exists|i: int|
            0 <= i < messages.len() && has_usage(#[trigger] messages[i], add_op)
                && messages[i].id.unwrap()@ == id {
            let i = choose|i: int|
                0 <= i < messages.len() && has_usage(#[trigger] messages[i], add_op)
                    && messages[i].id.unwrap()@ == id;
            if i < fewer.len() {
                assert(fewer[i] == messages[i]);
            }
        }
    }
}

fn is_assistant(role: &Option<String>) -> (r: bool)
    ensures
        r == (text_of(*role) == Some("assistant"@)),
{
    match role {
        Some(role) => {
            let word: String = "assistant".to_owned();
            *role == word
        },
        None => false,
    }
}

/// Makes the record of a message.
fn record_of(m: &MessageFields, id: &String, now: Num) -> (r: UsageRecord)
    requires
        m.id == Some(*id),
    ensures
        r@ == usage_of(*m, now),
{
    let time: Num = match m.completed {
        Some(t) => t,
        None => match m.created {
            Some(t) => t,
            None => now,
        },
    };
    let model: String = match &m.model {
        Some(s) => s.clone(),
        None => String::new(),
    };
    UsageRecord {
        t: time.whole(),
        input: known_or_zero(m.input),
        output: known_or_zero(m.output),
        cache_read: known_or_zero(m.cache_read),
        cache_write: known_or_zero(m.cache_write),
        model,
        id: id.clone(),
    }
}

/// Imports the messages of a list that have usage and were not seen before. `now` stands
/// in for a message's time where it has none, and `add_op` adds two numbers up.
pub fn import_messages<F: Fn(Num, Num) -> Num>(
    seen: &mut StringHashSet,
    messages: &Vec<MessageFields>,
    now: Num,
    add_op: &F,
) -> (r: Vec<UsageRecord>)
    requires
        is_operation(*add_op),
    ensures
        usages(r@) == imports(old(seen)@, messages@, now, meaning(*add_op)),
        final(seen)@ == seen_after(old(seen)@, messages@, meaning(*add_op)),
{
    let ghost seen_before = seen@;
    let mut r: Vec<UsageRecord> = Vec::new();
    let mut i: usize = 0;
    assert(usages(r@) =~= imports(seen_before, messages@.take(0), now, meaning(*add_op)));
    while i < messages.len()
        invariant
            i <= messages@.len(),
            is_operation(*add_op),
            usages(r@) == imports(seen_before, messages@.take(i as int), now, meaning(*add_op)),
            seen@ == seen_after(seen_before, messages@.take(i as int), meaning(*add_op)),
        decreases messages@.len() - i,
    {
        let m: &MessageFields = &messages[i];
        let ghost upto = messages@.take(i + 1);
        proof {
            assert(upto.drop_last() =~= messages@.take(i as int));
            assert(upto.last() == *m);
        }
        if is_assistant(&m.role) && m.is_completed {
            if let Some(id) = &m.id {
                let input: Num = known_or_zero(m.input);
                let output: Num = known_or_zero(m.output);
                let cache_read: Num = known_or_zero(m.cache_read);
                let cache_write: Num = known_or_zero(m.cache_write);
                let sum: Num = add_op(add_op(add_op(input, output), cache_read), cache_write);
                if !sum.is_zero() {
                    proof {
                        assert(has_usage(*m, meaning(*add_op)));
                        lemma_is_new(seen_before, upto, meaning(*add_op));
                    }
                    if !seen.contains(id.as_str()) {
                        seen.insert(id.clone());
                        let record: UsageRecord = record_of(m, id, now);
                        let ghost before = r@;
                        r.push(record);
                        assert(usages(r@) =~= usages(before).push(usage_of(*m, now)));
                    } else {
                        assert(seen@.insert(id@) =~= seen@);
                    }
                }
            }
        }
        i += 1;
    }
    assert(messages@.take(i as int) =~= messages@);
    r
}

/// The last message of a list is to be imported if it has usage and its id was not seen
/// in the list before it.
pub proof fn lemma_is_new(
    seen: Set<Seq<char>>,
    messages: Seq<MessageFields>,
    add_op: spec_fn(Num, Num) -> Num,
)
    requires
        messages.len() > 0,
        has_usage(messages.last(), add_op),
    ensures
        is_new(seen, messages, messages.len() - 1, add_op) <==> !seen_after(
            seen,
            messages.drop_last(),
            add_op,
        ).contains(messages.last().id.unwrap()@),
{
    let fewer = messages.drop_last();
    let id = messages.last().id.unwrap()@;
    seen_ids_are_those_of_messages(seen, fewer, id, add_op);
    assert forall|i: int| 0 <= i < fewer.len() implies messages[i] == #[trigger] fewer[i] by {
    }
    if !is_new(seen, messages, messages.len() - 1, add_op) && !seen.contains(id) {
        let j = choose|j: int|
            0 <= j < messages.len() - 1 && has_usage(#[trigger] messages[j], add_op)
                && messages[j].id.unwrap()@ == id;
        assert(fewer[j] == messages[j]);
    }
}

// ---------------------------------------------------------------- laws

/// Two imports one after the other import what one import of both lists would.
pub proof fn imports_add_up(
    seen: Set<Seq<char>>,
    a: Seq<MessageFields>,
    b: Seq<MessageFields>,
    now: Num,
    add_op: spec_fn(Num, Num) -> Num,
)
    ensures
        imports(seen, a + b, now, add_op) == imports(seen, a, now, add_op) + imports(
            seen_after(seen, a, add_op),
            b,
            now,
            add_op,
        ),
        seen_after(seen, a + b, add_op) == seen_after(seen_after(seen, a, add_op), b, add_op),
    decreases b.len(),
{
    let both = a + b;
    let first = imports(seen, a, now, add_op);
    if b.len() == 0 {
        assert(both =~= a);
        assert(first + seq![] =~= first);
    } else {
        let fewer = b.drop_last();
        imports_add_up(seen, a, fewer, now, add_op);
        assert(both.drop_last() =~= a + fewer);
        assert(both.last() == b.last());
        if has_usage(b.last(), add_op) {
            lemma_is_new(seen, both, add_op);
            lemma_is_new(seen_after(seen, a, add_op), b, add_op);
        }
        let then = imports(seen_after(seen, a, add_op), fewer, now, add_op);
        assert((first + then).push(usage_of(b.last(), now)) =~= first + then.push(
            usage_of(b.last(), now),
        ));
    }
}

/// No message is imported twice: the ids that are imported differ from each other and
/// from those that were seen before.
pub proof fn no_message_is_imported_twice(
    seen: Set<Seq<char>>,
    messages: Seq<MessageFields>,
    now: Num,
    add_op: spec_fn(Num, Num) -> Num,
)
    ensures
        ({
            let list = imports(seen, messages, now, add_op);
            &&& forall|i: int| 0 <= i < list.len() ==> !seen.contains((#[trigger] list[i]).id)
            &&& forall|i: int|
                0 <= i < list.len() ==> seen_after(seen, messages, add_op).contains(
                    (#[trigger] list[i]).id,
                )
            &&& forall|i: int, j: int|
                0 <= i < j < list.len() ==> (#[trigger] list[i]).id != (#[trigger] list[j]).id
        }),
    decreases messages.len(),
{
    if messages.len() > 0 {
        let fewer = messages.drop_last();
        no_message_is_imported_twice(seen, fewer, now, add_op);
        if has_usage(messages.last(), add_op) {
            lemma_is_new(seen, messages, add_op);
        }
        let before = imports(seen, fewer, now, add_op);
        let list = imports(seen, messages, now, add_op);
        assert forall|i: int| 0 <= i < before.len() implies {
            &&& (#[trigger] list[i]).id == before[i].id
            &&& !seen.contains(list[i].id)
            &&& seen_after(seen, fewer, add_op).contains(list[i].id)
        } by {
            assert(list[i] == before[i]);
        }
        assert forall|i: int, j: int| 0 <= i < j < list.len() implies (#[trigger] list[i]).id != (
        #[trigger] list[j]).id by {
            if j < before.len() {
                assert(before[i].id != before[j].id);
            }
        }
    }
}

/// Messages that were imported once are not imported again, whenever they come back.
pub proof fn imported_messages_stay_imported(
    seen: Set<Seq<char>>,
    first: Seq<MessageFields>,
    between: Seq<MessageFields>,
    again: Seq<MessageFields>,
    now: Num,
    add_op: spec_fn(Num, Num) -> Num,
)
    requires
        forall|i: int| 0 <= i < again.len() ==> first.contains(#[trigger] again[i]),
    ensures
        imports(
            seen_after(seen_after(seen, first, add_op), between, add_op),
            again,
            now,
            add_op,
        ).len() == 0,
    decreases again.len(),
{
    if again.len() > 0 {
        let fewer = again.drop_last();
        assert forall|i: int| 0 <= i < fewer.len() implies first.contains(#[trigger] fewer[i]) by {
            assert(fewer[i] == again[i]);
        }
        imported_messages_stay_imported(seen, first, between, fewer, now, add_op);
        let m = again.last();
        assert(again[again.len() - 1] == m);
        let k = choose|k: int| 0 <= k < first.len() && first[k] == m;
        if has_usage(m, add_op) {
            let id = m.id.unwrap()@;
            assert(has_usage(first[k], add_op));
            seen_ids_are_those_of_messages(seen, first, id, add_op);
            seen_ids_are_those_of_messages(seen_after(seen, first, add_op), between, id, add_op);
        }
    }
}

/// The usage that is imported from the messages of several sessions, one after the other.
pub open spec fn imports_over(
    seen: Set<Seq<char>>,
    sessions: Seq<Seq<MessageFields>>,
    now: Num,
    add_op: spec_fn(Num, Num) -> Num,
) -> Seq<Usage>
    decreases sessions.len(),
{
    if sessions.len() == 0 {
        seq![]
    } else {
        let before = sessions.drop_last();
        imports_over(seen, before, now, add_op) + imports(
            seen_over(seen, before, add_op),
            sessions.last(),
            now,
            add_op,
        )
    }
}

/// The ids that were seen after the messages of several sessions.
pub open spec fn seen_over(
    seen: Set<Seq<char>>,
    sessions: Seq<Seq<MessageFields>>,
    add_op: spec_fn(Num, Num) -> Num,
) -> Set<Seq<char>>
    decreases sessions.len(),
{
    if sessions.len() == 0 {
        seen
    } else {
        seen_after(seen_over(seen, sessions.drop_last(), add_op), sessions.last(), add_op)
    }
}

/// The messages of several sessions, in one list.
pub open spec fn all_messages(sessions: Seq<Seq<MessageFields>>) -> Seq<MessageFields>
    decreases sessions.len(),
{
    if sessions.len() == 0 {
        seq![]
    } else {
        all_messages(sessions.drop_last()) + sessions.last()
    }
}

/// A message that is in several sessions is imported once: the sessions give what one list
/// of all their messages would, and no id of theirs comes twice or was seen before.
pub proof fn sessions_share_no_message(
    seen: Set<Seq<char>>,
    sessions: Seq<Seq<MessageFields>>,
    now: Num,
    add_op: spec_fn(Num, Num) -> Num,
)
    ensures
        imports_over(seen, sessions, now, add_op) == imports(
            seen,
            all_messages(sessions),
            now,
            add_op,
        ),
        seen_over(seen, sessions, add_op) == seen_after(seen, all_messages(sessions), add_op),
        ({
            let list = imports_over(seen, sessions, now, add_op);
            &&& forall|i: int| 0 <= i < list.len() ==> !seen.contains((#[trigger] list[i]).id)
            &&& forall|i: int, j: int|
                0 <= i < j < list.len() ==> (#[trigger] list[i]).id != (#[trigger] list[j]).id
        }),
    decreases sessions.len(),
{
    if sessions.len() > 0 {
        let before = sessions.drop_last();
        sessions_share_no_message(seen, before, now, add_op);
        imports_add_up(seen, all_messages(before), sessions.last(), now, add_op);
    }
    no_message_is_imported_twice(seen, all_messages(sessions), now, add_op);
}

/// The ids of the usage of messages.
pub open spec fn ids_in(us: Seq<Usage>) -> Seq<Seq<char>> {
    us.map_values(|u: Usage| u.id)
}

/// The ids that were seen, without those of a list.
pub open spec fn without(seen: Set<Seq<char>>, ids: Seq<Seq<char>>) -> Set<Seq<char>> {
    seen.difference(ids.to_set())
}

/// Where the ids that an import has seen are forgotten again, what was seen is as before it,
/// and a later import imports the same messages again.
pub proof fn forgotten_messages_come_back(
    seen: Set<Seq<char>>,
    sessions: Seq<Seq<MessageFields>>,
    now: Num,
    add_op: spec_fn(Num, Num) -> Num,
)
    ensures
        without(
            seen_over(seen, sessions, add_op),
            ids_in(imports_over(seen, sessions, now, add_op)),
        ) == seen,
{
    let all = all_messages(sessions);
    let ids = ids_in(imports(seen, all, now, add_op));
    sessions_share_no_message(seen, sessions, now, add_op);
    no_message_is_imported_twice(seen, all, now, add_op);
    let after = seen_after(seen, all, add_op);
    assert forall|id: Seq<char>| without(after, ids).contains(id) <==> seen.contains(id) by {
        lemma_seen_is_imported(seen, all, id, now, add_op);
        if seen.contains(id) && ids.contains(id) {
            let k = choose|k: int| 0 <= k < ids.len() && ids[k] == id;
            assert(imports(seen, all, now, add_op)[k].id == id);
        }
    }
    assert(without(after, ids) =~= seen);
}

/// An id that was seen was seen before, or is that of a message that is imported.
proof fn lemma_seen_is_imported(
    seen: Set<Seq<char>>,
    messages: Seq<MessageFields>,
    id: Seq<char>,
    now: Num,
    add_op: spec_fn(Num, Num) -> Num,
)
    ensures
        seen_after(seen, messages, add_op).contains(id) <==> seen.contains(id) || ids_in(
            imports(seen, messages, now, add_op),
        ).contains(id),
    decreases messages.len(),
{
    let ids = ids_in(imports(seen, messages, now, add_op));
    if messages.len() == 0 {
        assert(ids.len() == 0);
    } else {
        let fewer = messages.drop_last();
        lemma_seen_is_imported(seen, fewer, id, now, add_op);
        let before = ids_in(imports(seen, fewer, now, add_op));
        if has_usage(messages.last(), add_op) {
            let last = messages.last().id.unwrap()@;
            lemma_is_new(seen, messages, add_op);
            lemma_seen_is_imported(seen, fewer, last, now, add_op);
            if is_new(seen, messages, messages.len() - 1, add_op) {
                assert(ids =~= before.push(last));
                if before.contains(id) {
                    let k = choose|k: int| 0 <= k < before.len() && before[k] == id;
                    assert(ids[k] == id);
                }
                assert(ids[ids.len() - 1] == last);
                if ids.contains(id) && id != last {
                    let k = choose|k: int| 0 <= k < ids.len() && ids[k] == id;
                    assert(before[k] == id);
                }
            }
        }
    }
}

} // verus!
