//! What the importer writes into the usage log: the fields of its lines, and the text that
//! is appended.
use crate::messages::{Usage, UsageRecord};
use crate::num::Num;
use crate::sessions::texts;
use crate::text::{lemma_first_char, lines_of, without_return};
use vstd::prelude::*;
use vstd::string::*;

verus! {

/// A sample of the rate limits.
#[derive(Debug)]
pub struct Sample {
    pub t: i64,
    pub u5h: Option<Num>,
    pub u7d: Option<Num>,
    pub reset5h: Option<Num>,
    pub reset7d: Option<Num>,
    pub status: Option<String>,
    pub plan: Option<String>,
}

/// The value of a field of a line.
#[derive(Debug)]
pub enum FieldValue {
    Null,
    Flag(bool),
    Whole(i64),
    Double(Num),
    Text(String),
}

/// A field of a line, which is a JSON object.
#[derive(Debug)]
pub struct Field {
    pub key: String,
    pub value: FieldValue,
}

/// What the value of a field says.
pub enum Content {
    Null,
    Flag(bool),
    Whole(int),
    Double(Num),
    Text(Seq<char>),
}

impl View for FieldValue {
    type V = Content;

    open spec fn view(&self) -> Content {
        match *self {
            FieldValue::Null => Content::Null,
            FieldValue::Flag(b) => Content::Flag(b),
            FieldValue::Whole(n) => Content::Whole(n as int),
            FieldValue::Double(n) => Content::Double(n),
            FieldValue::Text(s) => Content::Text(s@),
        }
    }
}

/// What the fields of a line say.
pub open spec fn contents(fields: Seq<Field>) -> Seq<(Seq<char>, Content)> {
    fields.map_values(|f: Field| (f.key@, f.value@))
}

pub open spec fn double_or_null(n: Option<Num>) -> Content {
    match n {
        Some(n) => Content::Double(n),
        None => Content::Null,
    }
}

pub open spec fn text_or_null(s: Option<String>) -> Content {
    match s {
        Some(s) => Content::Text(s@),
        None => Content::Null,
    }
}

/// The line of a sample of the rate limits.
pub open spec fn sample_line(s: Sample) -> Seq<(Seq<char>, Content)> {
    seq![
        ("t"@, Content::Whole(s.t as int)),
        ("kind"@, Content::Text("ratelimit"@)),
        ("u5h"@, double_or_null(s.u5h)),
        ("u7d"@, double_or_null(s.u7d)),
        ("reset5h"@, double_or_null(s.reset5h)),
        ("reset7d"@, double_or_null(s.reset7d)),
        ("rlStatus"@, text_or_null(s.status)),
        ("plan"@, text_or_null(s.plan)),
        ("source"@, Content::Text("opencode-live-rust"@)),
    ]
}

/// The line of a message's usage.
pub open spec fn usage_line(u: Usage) -> Seq<(Seq<char>, Content)> {
    seq![
        ("t"@, Content::Whole(u.t)),
        ("kind"@, Content::Text("request"@)),
        ("status"@, Content::Whole(200)),
        ("input"@, Content::Double(u.input)),
        ("output"@, Content::Double(u.output)),
        ("cacheRead"@, Content::Double(u.cache_read)),
        ("cacheWrite"@, Content::Double(u.cache_write)),
        ("model"@, Content::Text(u.model)),
        ("rateLimited"@, Content::Flag(false)),
        ("durationMs"@, Content::Whole(0)),
        ("source"@, Content::Text("opencode-live-rust"@)),
        ("msgId"@, Content::Text(u.id)),
    ]
}

fn field(key: &str, value: FieldValue) -> (r: Field)
    ensures
        r.key@ == key@,
        r.value == value,
{
    Field { key: key.to_owned(), value }
}

fn text_field(key: &str, s: &str) -> (r: Field)
    ensures
        r.key@ == key@,
        r.value@ == Content::Text(s@),
{
    Field { key: key.to_owned(), value: FieldValue::Text(s.to_owned()) }
}

fn double_field(key: &str, n: Option<Num>) -> (r: Field)
    ensures
        r.key@ == key@,
        r.value@ == double_or_null(n),
{
    let value: FieldValue = match n {
        Some(n) => FieldValue::Double(n),
        None => FieldValue::Null,
    };
    Field { key: key.to_owned(), value }
}

fn optional_text_field(key: &str, s: &Option<String>) -> (r: Field)
    ensures
        r.key@ == key@,
        r.value@ == text_or_null(*s),
{
    let value: FieldValue = match s {
        Some(s) => FieldValue::Text(s.clone()),
        None => FieldValue::Null,
    };
    Field { key: key.to_owned(), value }
}

/// The fields of the line of a sample.
pub fn sample_fields(s: &Sample) -> (r: Vec<Field>)
    ensures
        contents(r@) == sample_line(*s),
{
    let r: Vec<Field> = vec![
        field("t", FieldValue::Whole(s.t)),
        text_field("kind", "ratelimit"),
        double_field("u5h", s.u5h),
        double_field("u7d", s.u7d),
        double_field("reset5h", s.reset5h),
        double_field("reset7d", s.reset7d),
        optional_text_field("rlStatus", &s.status),
        optional_text_field("plan", &s.plan),
        text_field("source", "opencode-live-rust"),
    ];
    assert(contents(r@) =~= sample_line(*s));
    r
}

/// The fields of the line of a message's usage.
pub fn usage_fields(u: &UsageRecord) -> (r: Vec<Field>)
    ensures
        contents(r@) == usage_line(u@),
{
    let r: Vec<Field> = vec![
        field("t", FieldValue::Whole(u.t)),
        text_field("kind", "request"),
        field("status", FieldValue::Whole(200)),
        field("input", FieldValue::Double(u.input)),
        field("output", FieldValue::Double(u.output)),
        field("cacheRead", FieldValue::Double(u.cache_read)),
        field("cacheWrite", FieldValue::Double(u.cache_write)),
        text_field("model", u.model.as_str()),
        field("rateLimited", FieldValue::Flag(false)),
        field("durationMs", FieldValue::Whole(0)),
        text_field("source", "opencode-live-rust"),
        text_field("msgId", u.id.as_str()),
    ];
    assert(contents(r@) =~= usage_line(u@));
    r
}

/// The text that is appended for a list of lines: each ends with a line feed.
pub open spec fn appended(lines: Seq<Seq<char>>) -> Seq<char>
    decreases lines.len(),
{
    if lines.len() == 0 {
        seq![]
    } else {
        appended(lines.drop_last()) + lines.last() + seq!['\n']
    }
}

/// Puts together the text that is appended for a list of lines.
pub fn log_text(lines: &Vec<String>) -> (r: String)
    ensures
        r@ == appended(texts(lines@)),
{
    let mut r: String = String::new();
    let ghost all = texts(lines@);
    let mut i: usize = 0;
    proof {
        reveal_strlit("\n");
    }
    while i < lines.len()
        invariant
            i <= lines@.len(),
            all == texts(lines@),
            "\n"@ == seq!['\n'],
            r@ == appended(all.take(i as int)),
        decreases lines@.len() - i,
    {
        proof {
            assert(all.take(i + 1).drop_last() =~= all.take(i as int));
            assert(all.take(i + 1).last() == lines@[i as int]@);
        }
        r.append(lines[i].as_str());
        r.append("\n");
        i += 1;
    }
    assert(all.take(i as int) =~= all);
    r
}

/// Whether a log holds whole lines only.
pub open spec fn ends_its_lines(log: Seq<char>) -> bool {
    log.len() == 0 || log.last() == '\n'
}

/// Lines that are appended to a log are read back behind the lines that it held. They hold
/// no line feed and do not end with a carriage return.
pub proof fn lines_are_read_back(old_log: Seq<char>, lines: Seq<Seq<char>>)
    requires
        ends_its_lines(old_log),
        forall|i: int|
            0 <= i < lines.len() ==> !(#[trigger] lines[i]).contains('\n') && (lines[i].len() == 0
                || lines[i].last() != '\r'),
    ensures
        lines_of(old_log + appended(lines)) == lines_of(old_log) + lines,
        ends_its_lines(old_log + appended(lines)),
    decreases old_log.len(),
{
    let s = old_log + appended(lines);
    if old_log.len() == 0 {
        lemma_lines_of_appended(lines);
        assert(s =~= appended(lines));
        assert(lines_of(old_log) + lines =~= lines);
        if lines.len() > 0 {
            assert(appended(lines).last() == '\n');
        }
    } else {
        let i = lemma_first_line_feed(old_log, 0);
        let rest = old_log.skip(i + 1);
        if rest.len() > 0 {
            assert(rest.last() == old_log.last());
        }
        lines_are_read_back(rest, lines);
        assert(s[i] == old_log[i]);
        assert forall|j: int| 0 <= j < i implies s[j] != '\n' by {
            assert(s[j] == old_log[j]);
        }
        lemma_first_char(old_log, '\n', i);
        lemma_first_char(s, '\n', i);
        assert(s.take(i) =~= old_log.take(i));
        assert(s.skip(i + 1) =~= rest + appended(lines));
        let first = without_return(old_log.take(i));
        assert(seq![first] + (lines_of(rest) + lines) =~= (seq![first] + lines_of(rest)) + lines);
        if lines.len() > 0 {
            assert(appended(lines).last() == '\n');
            assert(s.last() == appended(lines).last());
        } else {
            assert(s =~= old_log);
        }
    }
}

proof fn lemma_first_line_feed(log: Seq<char>, from: int) -> (i: int)
    requires
        log.len() > 0,
        log.last() == '\n',
        0 <= from < log.len(),
    ensures
        from <= i < log.len(),
        log[i] == '\n',
        forall|j: int| from <= j < i ==> log[j] != '\n',
    decreases log.len() - from,
{
    if log[from] == '\n' {
        from
    } else {
        lemma_first_line_feed(log, from + 1)
    }
}

proof fn lemma_lines_of_appended(lines: Seq<Seq<char>>)
    requires
        forall|i: int|
            0 <= i < lines.len() ==> !(#[trigger] lines[i]).contains('\n') && (lines[i].len() == 0
                || lines[i].last() != '\r'),
    ensures
        lines_of(appended(lines)) == lines,
    decreases lines.len(),
{
    if lines.len() == 0 {
        assert(lines_of(seq![]) =~= lines);
    } else {
        let rest = lines.skip(1);
        assert forall|i: int| 0 <= i < rest.len() implies !(#[trigger] rest[i]).contains('\n') && (
        rest[i].len() == 0 || rest[i].last() != '\r') by {
            assert(rest[i] == lines[i + 1]);
        }
        lemma_lines_of_appended(rest);
        lemma_appended_first(lines);
        let first = lines[0];
        let s = appended(lines);
        assert(s =~= first + seq!['\n'] + appended(rest));
        assert forall|j: int| 0 <= j < first.len() implies s[j] != '\n' by {
            assert(first.contains(first[j]));
        }
        lemma_first_char(s, '\n', first.len() as int);
        assert(s.take(first.len() as int) =~= first);
        assert(s.skip(first.len() as int + 1) =~= appended(rest));
        assert(seq![first] + rest =~= lines);
    }
}

/// What the fields of a line say.
pub type Line = Seq<(Seq<char>, Content)>;

/// The records of a log, as they are read: those lines that are none are passed over.
pub open spec fn records_of(read: spec_fn(Seq<char>) -> Option<Line>, lines: Seq<Seq<char>>) -> Seq<Line>
    decreases lines.len(),
{
    if lines.len() == 0 {
        seq![]
    } else {
        match read(lines.last()) {
            Some(line) => records_of(read, lines.drop_last()).push(line),
            None => records_of(read, lines.drop_last()),
        }
    }
}

/// The lines that an import writes of the rate limits: one, if a sample is due.
pub open spec fn sample_lines(sample: Option<Sample>) -> Seq<Line> {
    match sample {
        Some(s) => seq![sample_line(s)],
        None => seq![],
    }
}

/// The lines that an import writes of the usage of messages.
pub open spec fn usage_lines(us: Seq<Usage>) -> Seq<Line> {
    us.map_values(|u: Usage| usage_line(u))
}

/// Whether lines can be written, each as one line of text, and read again.
pub open spec fn can_be_kept(
    write: spec_fn(Line) -> Seq<char>,
    read: spec_fn(Seq<char>) -> Option<Line>,
    lines: Seq<Line>,
) -> bool {
    forall|i: int|
        0 <= i < lines.len() ==> {
            let text = write(#[trigger] lines[i]);
            !text.contains('\n') && (text.len() == 0 || text.last() != '\r') && read(text) == Some(
                lines[i],
            )
        }
}

pub open spec fn written(write: spec_fn(Line) -> Seq<char>, lines: Seq<Line>) -> Seq<Seq<char>> {
    lines.map_values(|line: Line| write(line))
}

/// An import leaves the log as it was and puts behind it the sample, if one is due, and then
/// a line for each message. This holds of every way to write a line as a line of text from
/// which it is read again.
pub proof fn imports_are_logged(
    old_log: Seq<char>,
    sample: Option<Sample>,
    us: Seq<Usage>,
    write: spec_fn(Line) -> Seq<char>,
    read: spec_fn(Seq<char>) -> Option<Line>,
)
    requires
        ends_its_lines(old_log),
        can_be_kept(write, read, sample_lines(sample) + usage_lines(us)),
    ensures
        ({
            let new_log = old_log + appended(written(write, sample_lines(sample))) + appended(
                written(write, usage_lines(us)),
            );
            &&& old_log.is_prefix_of(new_log)
            &&& ends_its_lines(new_log)
            &&& records_of(read, lines_of(new_log)) == records_of(read, lines_of(old_log))
                + sample_lines(sample) + usage_lines(us)
        }),
{
    let lines = sample_lines(sample) + usage_lines(us);
    let texts_of = written(write, lines);
    let new_log = old_log + appended(written(write, sample_lines(sample))) + appended(
        written(write, usage_lines(us)),
    );
    assert forall|i: int| 0 <= i < texts_of.len() implies !(#[trigger] texts_of[i]).contains('\n') && (
    texts_of[i].len() == 0 || texts_of[i].last() != '\r') by {
        assert(texts_of[i] == write(lines[i]));
    }
    lines_are_read_back(old_log, texts_of);
    assert(texts_of =~= written(write, sample_lines(sample)) + written(write, usage_lines(us)));
    lemma_appended_of_both(
        written(write, sample_lines(sample)),
        written(write, usage_lines(us)),
    );
    assert(new_log =~= old_log + appended(texts_of));
    lemma_records_of_written(lines_of(old_log), lines, write, read);
    let before = records_of(read, lines_of(old_log));
    assert(before + lines =~= before + sample_lines(sample) + usage_lines(us));
}

proof fn lemma_appended_of_both(a: Seq<Seq<char>>, b: Seq<Seq<char>>)
    ensures
        appended(a + b) == appended(a) + appended(b),
    decreases b.len(),
{
    if b.len() == 0 {
        assert(a + b =~= a);
        assert(appended(a) + appended(b) =~= appended(a));
    } else {
        lemma_appended_of_both(a, b.drop_last());
        assert((a + b).drop_last() =~= a + b.drop_last());
        assert(appended(a + b) =~= appended(a) + appended(b));
    }
}

proof fn lemma_records_of_written(
    before: Seq<Seq<char>>,
    lines: Seq<Line>,
    write: spec_fn(Line) -> Seq<char>,
    read: spec_fn(Seq<char>) -> Option<Line>,
)
    requires
        can_be_kept(write, read, lines),
    ensures
        records_of(read, before + written(write, lines)) == records_of(read, before) + lines,
    decreases lines.len(),
{
    let all = before + written(write, lines);
    if lines.len() == 0 {
        assert(all =~= before);
        assert(records_of(read, before) + lines =~= records_of(read, before));
    } else {
        let fewer = lines.drop_last();
        assert forall|i: int| 0 <= i < fewer.len() implies ({
            let text = write(#[trigger] fewer[i]);
            !text.contains('\n') && (text.len() == 0 || text.last() != '\r') && read(text) == Some(
                fewer[i],
            )
        }) by {
            assert(fewer[i] == lines[i]);
        }
        lemma_records_of_written(before, fewer, write, read);
        assert(lines[lines.len() - 1] == lines.last());
        assert(all.drop_last() =~= before + written(write, fewer));
        assert(all.last() == write(lines.last()));
        assert((records_of(read, before) + fewer).push(lines.last()) =~= records_of(read, before)
            + lines);
    }
}

proof fn lemma_appended_first(lines: Seq<Seq<char>>)
    requires
        lines.len() > 0,
    ensures
        appended(lines) == lines[0] + seq!['\n'] + appended(lines.skip(1)),
    decreases lines.len(),
{
    if lines.len() == 1 {
        assert(lines.drop_last() =~= seq![]);
        assert(lines.skip(1) =~= seq![]);
        assert(appended(lines) =~= lines[0] + seq!['\n'] + appended(lines.skip(1)));
    } else {
        let fewer = lines.drop_last();
        lemma_appended_first(fewer);
        assert(fewer.skip(1) =~= lines.skip(1).drop_last());
        assert(appended(lines) =~= lines[0] + seq!['\n'] + appended(lines.skip(1)));
    }
}

} // verus!
