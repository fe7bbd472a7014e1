//! Plain text: searching, splitting into lines, and numbers in decimal.
use vstd::prelude::*;
use vstd::string::*;

verus! {

/// The characters of a text.
pub fn chars_of(s: &str) -> (r: Vec<char>)
    ensures
        r@ == s@,
{
    let mut r: Vec<char> = Vec::new();
    for c in it: s.chars()
        invariant
            r@ == it.seq().take(it.index() as int),
            it.seq() == s@,
    {
        r.push(c);
    }
    r
}

/// The part of a text from one character position to another.
pub fn part_of(s: &str, from: usize, to: usize) -> (r: String)
    requires
        from <= to <= s@.len(),
    ensures
        r@ == s@.subrange(from as int, to as int),
{
    s.substring_char(from, to).to_owned()
}

// ---------------------------------------------------------------- searching

/// Whether `pattern` stands in `s` at position `i`.
pub open spec fn occurs_at<T>(s: Seq<T>, pattern: Seq<T>, i: int) -> bool {
    0 <= i && i + pattern.len() <= s.len() && s.subrange(i, i + pattern.len()) == pattern
}

/// Whether `pattern` stands anywhere in `s`.
pub open spec fn occurs<T>(s: Seq<T>, pattern: Seq<T>) -> bool {
    exists|i: int| occurs_at(s, pattern, i)
}

/// The first place at or after `from` where `pattern` stands in `s`.
pub open spec fn first_from<T>(s: Seq<T>, pattern: Seq<T>, from: int) -> Option<int>
    decreases s.len() - from,
{
    if from < 0 || from + pattern.len() > s.len() {
        None
    } else if occurs_at(s, pattern, from) {
        Some(from)
    } else if from == s.len() {
        None
    } else {
        first_from(s, pattern, from + 1)
    }
}

/// What the first place is: the pattern stands there and nowhere before it.
pub proof fn first_from_is_first<T>(s: Seq<T>, pattern: Seq<T>, from: int)
    requires
        0 <= from,
    ensures
        match first_from(s, pattern, from) {
            Some(i) => from <= i && occurs_at(s, pattern, i) && forall|j: int|
                from <= j < i ==> !occurs_at(s, pattern, j),
            None => forall|j: int| from <= j ==> !occurs_at(s, pattern, j),
        },
    decreases s.len() - from,
{
    if from + pattern.len() > s.len() {
    } else if occurs_at(s, pattern, from) {
    } else if from == s.len() {
    } else {
        first_from_is_first(s, pattern, from + 1);
    }
}

/// There is only one first place.
pub proof fn first_place_is_unique<T>(s: Seq<T>, pattern: Seq<T>, from: int, i: int)
    requires
        0 <= from <= i,
        occurs_at(s, pattern, i),
        forall|j: int| from <= j < i ==> !occurs_at(s, pattern, j),
    ensures
        first_from(s, pattern, from) == Some(i),
{
    first_from_is_first(s, pattern, from);
}

fn stands_at(s: &Vec<char>, pattern: &Vec<char>, at: usize) -> (r: bool)
    requires
        at + pattern@.len() <= s@.len(),
    ensures
        r == occurs_at(s@, pattern@, at as int),
{
    let length: usize = s.len();
    let mut k: usize = 0;
    while k < pattern.len()
        invariant
            k <= pattern@.len(),
            length == s@.len(),
            at + pattern@.len() <= length,
            forall|j: int| 0 <= j < k ==> s@[at + j] == pattern@[j],
        decreases pattern@.len() - k,
    {
        if s[at + k] != pattern[k] {
            proof {
                let part = s@.subrange(at as int, at + pattern@.len());
                assert(part[k as int] == s@[at + k]);
            }
            return false;
        }
        k += 1;
    }
    assert(s@.subrange(at as int, at + pattern@.len()) =~= pattern@);
    true
}

/// Finds the first place at or after `from` where `pattern` stands.
pub fn find_from(s: &Vec<char>, pattern: &Vec<char>, from: usize) -> (r: Option<usize>)
    ensures
        match r {
            Some(i) => first_from(s@, pattern@, from as int) == Some(i as int),
            None => first_from(s@, pattern@, from as int) is None,
        },
{
    let mut at: usize = from;
    while at <= s.len() && pattern.len() <= s.len() - at
        invariant
            from <= at,
            from <= s@.len() ==> at <= s@.len() + 1,
            from > s@.len() ==> at == from,
            first_from(s@, pattern@, from as int) == first_from(s@, pattern@, at as int),
        decreases s@.len() + 1 - at,
    {
        if stands_at(s, pattern, at) {
            return Some(at);
        }
        if at == s.len() {
            return None;
        }
        at += 1;
    }
    None
}

/// Whether `pattern` stands anywhere in `s`.
pub fn contains_text(s: &Vec<char>, pattern: &Vec<char>) -> (r: bool)
    ensures
        r == occurs(s@, pattern@),
{
    proof {
        first_from_is_first(s@, pattern@, 0);
    }
    find_from(s, pattern, 0).is_some()
}

// ---------------------------------------------------------------- lines

/// A line without the carriage return that may end it.
pub open spec fn without_return(line: Seq<char>) -> Seq<char> {
    if line.len() > 0 && line.last() == '\r' {
        line.drop_last()
    } else {
        line
    }
}

/// The lines of a text. A line ends with a line feed, or with a carriage return and a
/// line feed; neither belongs to it. What follows the last line feed is a line too,
/// as it stands, unless it is empty.
pub open spec fn lines_of(s: Seq<char>) -> Seq<Seq<char>>
    decreases s.len(),
{
    if s.len() == 0 {
        seq![]
    } else {
        match first_from(s, seq!['\n'], 0) {
            Some(i) => if 0 <= i < s.len() {
                seq![without_return(s.take(i))] + lines_of(s.skip(i + 1))
            } else {
                seq![s]
            },
            None => seq![s],
        }
    }
}

/// Splits a text into its lines.
pub fn split_lines(s: &Vec<char>) -> (r: Vec<Vec<char>>)
    ensures
        r@.map_values(|line: Vec<char>| line@) == lines_of(s@),
{
    let mut r: Vec<Vec<char>> = Vec::new();
    let mut line: Vec<char> = Vec::new();
    let mut start: usize = 0;
    let mut at: usize = 0;
    let ghost done = r@.map_values(|line: Vec<char>| line@);
    proof {
        assert(s@.skip(0) =~= s@);
        assert(done =~= seq![]);
        assert(done + lines_of(s@) =~= lines_of(s@));
    }
    while at < s.len()
        invariant
            start <= at <= s@.len(),
            line@ == s@.subrange(start as int, at as int),
            forall|j: int| start <= j < at ==> s@[j] != '\n',
            done == r@.map_values(|line: Vec<char>| line@),
            lines_of(s@) == done + lines_of(s@.skip(start as int)),
        decreases s@.len() - at,
    {
        let c = s[at];
        if c == '\n' {
            let ghost rest = s@.skip(start as int);
            let ghost whole = line@;
            proof {
                lemma_first_char(rest, '\n', at - start);
                assert(rest.take(at - start) =~= whole);
                assert(rest.skip(at - start + 1) =~= s@.skip(at + 1));
            }
            let n: usize = line.len();
            if n > 0 && line[n - 1] == '\r' {
                line.pop();
                assert(line@ =~= whole.drop_last());
            }
            let ghost ended = line@;
            let ghost before = r@;
            r.push(line);
            proof {
                assert(r@.map_values(|line: Vec<char>| line@) =~= before.map_values(
                    |line: Vec<char>| line@,
                ).push(ended));
                assert(done + (seq![ended] + lines_of(s@.skip(at + 1))) =~= done.push(ended)
                    + lines_of(s@.skip(at + 1)));
                done = done.push(ended);
            }
            line = Vec::new();
            start = at + 1;
        } else {
            line.push(c);
        }
        at += 1;
        assert(line@ =~= s@.subrange(start as int, at as int));
    }
    proof {
        assert(s@.skip(start as int) =~= line@);
        lemma_no_char(line@, '\n');
    }
    if start < s.len() {
        let ghost last = line@;
        let ghost before = r@;
        r.push(line);
        assert(r@.map_values(|line: Vec<char>| line@) =~= before.map_values(
            |line: Vec<char>| line@,
        ).push(last));
        assert(done + seq![last] =~= done.push(last));
    } else {
        assert(done + seq![] =~= done);
    }
    r
}

/// The first place of one character.
pub proof fn lemma_first_char(s: Seq<char>, c: char, i: int)
    requires
        0 <= i < s.len(),
        s[i] == c,
        forall|j: int| 0 <= j < i ==> s[j] != c,
    ensures
        first_from(s, seq![c], 0) == Some(i),
{
    first_from_is_first(s, seq![c], 0);
    assert(s.subrange(i, i + 1) =~= seq![c]);
    assert(occurs_at(s, seq![c], i));
    let k = first_from(s, seq![c], 0).unwrap();
    assert(s.subrange(k, k + 1)[0] == s[k]);
}

/// A character that a text does not hold has no first place.
pub proof fn lemma_no_char(s: Seq<char>, c: char)
    requires
        forall|j: int| 0 <= j < s.len() ==> s[j] != c,
    ensures
        first_from(s, seq![c], 0) is None,
{
    first_from_is_first(s, seq![c], 0);
    if let Some(k) = first_from(s, seq![c], 0) {
        assert(s.subrange(k, k + 1)[0] == s[k]);
    }
}

// ---------------------------------------------------------------- decimal numbers

pub open spec fn is_digit(c: char) -> bool {
    '0' <= c <= '9'
}

pub open spec fn digit_value(c: char) -> int {
    c as int - '0' as int
}

/// How many digits a text begins with.
pub open spec fn digit_run(s: Seq<char>) -> int
    decreases s.len(),
{
    if s.len() > 0 && is_digit(s[0]) {
        1 + digit_run(s.skip(1))
    } else {
        0
    }
}

pub open spec fn all_digits(s: Seq<char>) -> bool {
    forall|i: int| 0 <= i < s.len() ==> is_digit(#[trigger] s[i])
}

/// The number that digits write.
pub open spec fn decimal_value(s: Seq<char>) -> int
    decreases s.len(),
{
    if s.len() == 0 {
        0
    } else {
        decimal_value(s.drop_last()) * 10 + digit_value(s.last())
    }
}

/// The port number that a text writes: digits, of which a plus sign may stand in
/// front, with a value below 65536.
pub open spec fn port_value(s: Seq<char>) -> Option<u16> {
    let digits = if s.len() > 0 && s[0] == '+' {
        s.skip(1)
    } else {
        s
    };
    if digits.len() > 0 && all_digits(digits) && decimal_value(digits) <= u16::MAX {
        Some(decimal_value(digits) as u16)
    } else {
        None
    }
}

proof fn lemma_decimal_value_grows(s: Seq<char>, k: int)
    requires
        all_digits(s),
        0 <= k <= s.len(),
    ensures
        0 <= decimal_value(s.take(k)) <= decimal_value(s),
    decreases s.len(),
{
    if k == s.len() {
        assert(s.take(k) =~= s);
        if k > 0 {
            lemma_decimal_value_grows(s.drop_last(), k - 1);
            assert(is_digit(s.last()));
        }
    } else {
        lemma_decimal_value_grows(s.drop_last(), k);
        assert(s.drop_last().take(k) =~= s.take(k));
        assert(is_digit(s.last()));
    }
}

/// Reads a port number.
pub fn parse_port(s: &Vec<char>) -> (r: Option<u16>)
    ensures
        r == port_value(s@),
{
    let from: usize = if s.len() > 0 && s[0] == '+' {
        1
    } else {
        0
    };
    let ghost digits = s@.skip(from as int);
    assert(from == 0 ==> digits =~= s@);
    if from == s.len() {
        return None;
    }
    let mut value: u32 = 0;
    let mut at: usize = from;
    while at < s.len()
        invariant
            from <= at <= s@.len(),
            from < s@.len(),
            digits == s@.skip(from as int),
            port_value(s@) == (if all_digits(digits) && decimal_value(digits) <= u16::MAX {
                Some(decimal_value(digits) as u16)
            } else {
                None::<u16>
            }),
            forall|j: int| 0 <= j < at - from ==> is_digit(#[trigger] digits[j]),
            value == decimal_value(digits.take(at - from)),
            value <= u16::MAX,
        decreases s@.len() - at,
    {
        let c = s[at];
        assert(digits[at - from] == c);
        if c < '0' || c > '9' {
            return None;
        }
        proof {
            let upto = digits.take(at - from + 1);
            assert(upto.drop_last() =~= digits.take(at - from));
            assert(upto.last() == c);
        }
        value = value * 10 + (c as u32 - '0' as u32);
        at += 1;
        if value > 65_535 {
            proof {
                if all_digits(digits) {
                    lemma_decimal_value_grows(digits, at - from);
                }
            }
            return None;
        }
    }
    assert(digits.take(at - from) =~= digits);
    Some(value as u16)
}

/// The digit that stands for a number below ten.
pub open spec fn digit_char(n: int) -> char {
    ('0' as int + n) as char
}

/// A number in decimal, without leading zeros.
pub open spec fn decimal_text(n: nat) -> Seq<char>
    decreases n,
{
    if n < 10 {
        seq![digit_char(n as int)]
    } else {
        decimal_text(n / 10).push(digit_char((n % 10) as int))
    }
}

/// A number in decimal, with zeros in front up to the width.
pub open spec fn padded_text(n: nat, width: nat) -> Seq<char> {
    let digits = decimal_text(n);
    if digits.len() >= width {
        digits
    } else {
        Seq::new((width - digits.len()) as nat, |i: int| '0') + digits
    }
}

/// A signed number in decimal; a minus sign stands before the zeros and counts for the
/// width.
pub open spec fn signed_text(n: int, width: nat) -> Seq<char>
    recommends
        width > 0,
{
    if n < 0 {
        seq!['-'] + padded_text((-n) as nat, (width - 1) as nat)
    } else {
        padded_text(n as nat, width)
    }
}

fn push_digit(out: &mut String, n: u64)
    requires
        n < 10,
    ensures
        final(out)@ == old(out)@.push(digit_char(n as int)),
{
    proof {
        reveal_strlit("0");
        reveal_strlit("1");
        reveal_strlit("2");
        reveal_strlit("3");
        reveal_strlit("4");
        reveal_strlit("5");
        reveal_strlit("6");
        reveal_strlit("7");
        reveal_strlit("8");
        reveal_strlit("9");
    }
    let digit: &str = match n {
        0 => "0",
        1 => "1",
        2 => "2",
        3 => "3",
        4 => "4",
        5 => "5",
        6 => "6",
        7 => "7",
        8 => "8",
        _ => "9",
    };
    assert(digit@ =~= seq![digit_char(n as int)]);
    out.append(digit);
    assert(out@ =~= old(out)@.push(digit_char(n as int)));
}

/// Writes a number in decimal behind a text.
pub fn push_decimal(out: &mut String, n: u64)
    ensures
        final(out)@ == old(out)@ + decimal_text(n as nat),
    decreases n,
{
    if n < 10 {
        push_digit(out, n);
    } else {
        push_decimal(out, n / 10);
        push_digit(out, n % 10);
    }
    assert(out@ =~= old(out)@ + decimal_text(n as nat));
}

/// How many places of the width the digits of a number take.
fn places_taken(n: u64, width: usize) -> (r: usize)
    ensures
        r == if decimal_text(n as nat).len() < width {
            decimal_text(n as nat).len() as int
        } else {
            width as int
        },
    decreases n,
{
    if width == 0 {
        0
    } else if n < 10 {
        1
    } else {
        places_taken(n / 10, width - 1) + 1
    }
}

/// Writes a number behind a text, with zeros in front up to the width.
pub fn push_padded(out: &mut String, n: u64, width: usize)
    ensures
        final(out)@ == old(out)@ + padded_text(n as nat, width as nat),
{
    let taken: usize = places_taken(n, width);
    let ghost before = out@;
    let mut k: usize = taken;
    proof {
        reveal_strlit("0");
    }
    while k < width
        invariant
            taken <= k <= width,
            "0"@ == seq!['0'],
            out@ == before + Seq::new((k - taken) as nat, |i: int| '0'),
        decreases width - k,
    {
        out.append("0");
        k += 1;
        assert(out@ =~= before + Seq::new((k - taken) as nat, |i: int| '0'));
    }
    push_decimal(out, n);
    assert(out@ =~= before + padded_text(n as nat, width as nat));
}

/// Writes a signed number behind a text, with zeros in front up to the width.
pub fn push_signed(out: &mut String, n: i64, width: usize)
    requires
        n > i64::MIN,
        width > 0,
    ensures
        final(out)@ == old(out)@ + signed_text(n as int, width as nat),
{
    let ghost before = out@;
    if n < 0 {
        proof {
            reveal_strlit("-");
        }
        out.append("-");
        push_padded(out, (-n) as u64, width - 1);
        assert(out@ =~= before + signed_text(n as int, width as nat));
    } else {
        push_padded(out, n as u64, width);
    }
}

// ---------------------------------------------------------------- order

/// Whether `a` comes before `b` in the order of a dictionary.
pub open spec fn text_before(a: Seq<char>, b: Seq<char>) -> bool
    decreases a.len(),
{
    if b.len() == 0 {
        false
    } else if a.len() == 0 {
        true
    } else {
        a[0] < b[0] || (a[0] == b[0] && text_before(a.skip(1), b.skip(1)))
    }
}

/// Of two texts one comes first, unless they are the same.
pub proof fn text_order_is_total(a: Seq<char>, b: Seq<char>)
    ensures
        text_before(a, b) || text_before(b, a) || a == b,
        !(text_before(a, b) && text_before(b, a)),
        a == b ==> !text_before(a, b),
    decreases a.len(),
{
    if a.len() > 0 && b.len() > 0 {
        text_order_is_total(a.skip(1), b.skip(1));
        if a[0] == b[0] && a.skip(1) == b.skip(1) {
            assert(a =~= seq![a[0]] + a.skip(1));
            assert(b =~= seq![b[0]] + b.skip(1));
        }
    } else {
        assert(a.len() == 0 && b.len() == 0 ==> a =~= b);
    }
}

/// What comes before a text comes before all that follow it.
pub proof fn text_order_is_transitive(a: Seq<char>, b: Seq<char>, c: Seq<char>)
    requires
        text_before(a, b),
        text_before(b, c),
    ensures
        text_before(a, c),
    decreases a.len(),
{
    if a.len() > 0 && a[0] == b[0] && b[0] == c[0] {
        text_order_is_transitive(a.skip(1), b.skip(1), c.skip(1));
    }
}

/// Whether `a` comes before `b`.
pub fn comes_before(a: &str, b: &str) -> (r: bool)
    ensures
        r == text_before(a@, b@),
{
    let a_chars = chars_of(a);
    let b_chars = chars_of(b);
    let mut k: usize = 0;
    proof {
        assert(a@.skip(0) =~= a@);
        assert(b@.skip(0) =~= b@);
    }
    while k < a_chars.len() && k < b_chars.len()
        invariant
            k <= a_chars@.len(),
            k <= b_chars@.len(),
            a_chars@ == a@,
            b_chars@ == b@,
            text_before(a@, b@) == text_before(a@.skip(k as int), b@.skip(k as int)),
        decreases a_chars@.len() - k,
    {
        proof {
            assert(a@.skip(k as int).skip(1) =~= a@.skip(k + 1));
            assert(b@.skip(k as int).skip(1) =~= b@.skip(k + 1));
        }
        if a_chars[k] < b_chars[k] {
            return true;
        }
        if a_chars[k] != b_chars[k] {
            return false;
        }
        k += 1;
    }
    k < b_chars.len()
}

/// Texts that begin with parts of one length are ordered by these, and where they are the
/// same by what follows.
pub proof fn lemma_order_of_parts(a: Seq<char>, b: Seq<char>, s: Seq<char>, t: Seq<char>)
    requires
        a.len() == b.len(),
    ensures
        text_before(a + s, b + t) <==> text_before(a, b) || (a == b && text_before(s, t)),
    decreases a.len(),
{
    if a.len() == 0 {
        assert(a + s =~= s);
        assert(b + t =~= t);
        assert(a =~= b);
    } else {
        lemma_order_of_parts(a.skip(1), b.skip(1), s, t);
        assert((a + s).skip(1) =~= a.skip(1) + s);
        assert((b + t).skip(1) =~= b.skip(1) + t);
        if a[0] == b[0] && a.skip(1) == b.skip(1) {
            assert(a =~= seq![a[0]] + a.skip(1));
            assert(b =~= seq![b[0]] + b.skip(1));
        }
    }
}

/// The first number that needs more digits than the width.
pub open spec fn beyond_width(width: nat) -> nat
    decreases width,
{
    if width == 0 {
        1
    } else {
        10 * beyond_width((width - 1) as nat)
    }
}

proof fn lemma_padded_by_digits(n: nat, width: nat)
    requires
        width >= 2,
    ensures
        padded_text(n, width) == padded_text(n / 10, (width - 1) as nat).push(
            digit_char((n % 10) as int),
        ),
{
    if n < 10 {
        assert(padded_text(n, width) =~= padded_text(n / 10, (width - 1) as nat).push(
            digit_char((n % 10) as int),
        ));
    } else {
        assert(padded_text(n, width) =~= padded_text(n / 10, (width - 1) as nat).push(
            digit_char((n % 10) as int),
        ));
    }
}

/// Numbers that are padded to one width are ordered as their texts are.
pub proof fn padded_texts_follow_numbers(m: nat, n: nat, width: nat)
    requires
        width >= 1,
        m < beyond_width(width),
        n < beyond_width(width),
    ensures
        padded_text(m, width).len() == width,
        padded_text(n, width).len() == width,
        text_before(padded_text(m, width), padded_text(n, width)) <==> m < n,
        padded_text(m, width) == padded_text(n, width) <==> m == n,
    decreases width,
{
    let a = digit_char((m % 10) as int);
    let b = digit_char((n % 10) as int);
    reveal_with_fuel(text_before, 3);
    if width == 1 {
        assert(beyond_width(0) == 1);
        assert(padded_text(m, 1) =~= seq![a]);
        assert(padded_text(n, 1) =~= seq![b]);
        assert(seq![a][0] == a && seq![b][0] == b);
        assert(seq![a].skip(1).len() == 0 && seq![b].skip(1).len() == 0);
    } else {
        let less = (width - 1) as nat;
        padded_texts_follow_numbers(m / 10, n / 10, less);
        lemma_padded_by_digits(m, width);
        lemma_padded_by_digits(n, width);
        let p = padded_text(m / 10, less);
        let q = padded_text(n / 10, less);
        assert(p.push(a) =~= p + seq![a]);
        assert(q.push(b) =~= q + seq![b]);
        lemma_order_of_parts(p, q, seq![a], seq![b]);
        assert(seq![a][0] == a && seq![b][0] == b);
        assert(seq![a].skip(1).len() == 0 && seq![b].skip(1).len() == 0);
        if p.push(a) == q.push(b) {
            assert(p =~= p.push(a).drop_last());
            assert(q =~= q.push(b).drop_last());
            assert(p.push(a).last() == a);
            assert(q.push(b).last() == b);
        }
    }
}

} // verus!
