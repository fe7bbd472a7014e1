//! What holds of texts: of numbers in decimal, of lines, of addresses, of requests and their
//! responses, and of the list of listening sockets.
use crate::http::{body_bytes, body_text, messages_place, ratelimit_address, request_text};
use crate::ports::{line_port, ports_of};
use crate::text::{
    all_digits, decimal_text, decimal_value, digit_run, first_from, first_from_is_first,
    first_place_is_unique, is_digit, lemma_first_char, lemma_no_char, lines_of, occurs, occurs_at,
    padded_text, port_value, signed_text, text_before,
};
use crate::url::{
    lemma_decimal_is_read_back, lemma_last_place, lemma_no_place, url_is_split_into_its_parts,
    url_parts,
};
use vstd::prelude::*;

verus! {

// ---------------------------------------------------------------- numbers

/// Digits count tens: one more digit makes ten times the number, and the digit itself.
pub proof fn digits_count_tens(s: Seq<char>, c: char)
    ensures
        decimal_value(seq![]) == 0,
        decimal_value(s.push(c)) == 10 * decimal_value(s) + (c as int - 48),
{
    assert(s.push(c).drop_last() =~= s);
    assert('0' as int == 48);
}

/// A number in decimal is digits from which it is read back, and the first is no zero unless
/// it is the only one.
pub proof fn numbers_are_written_in_digits(n: nat)
    ensures
        decimal_value(decimal_text(n)) == n,
        decimal_text(n).len() > 0,
        forall|i: int| 0 <= i < decimal_text(n).len() ==> '0' <= #[trigger] decimal_text(n)[i] <= '9',
        decimal_text(n).len() > 1 ==> decimal_text(n)[0] != '0',
    decreases n,
{
    lemma_decimal_is_read_back(n);
    assert forall|i: int| 0 <= i < decimal_text(n).len() implies '0' <= #[trigger] decimal_text(
        n,
    )[i] <= '9' by {
        assert(is_digit(decimal_text(n)[i]));
    }
    if n >= 10 {
        numbers_are_written_in_digits(n / 10);
        let front = decimal_text(n / 10);
        assert(decimal_text(n)[0] == front[0]);
        if n / 10 < 10 {
            assert(front[0] as int == 48 + n / 10);
        } else {
            lemma_decimal_is_read_back(n / 10 / 10);
            assert(front.len() > 1);
        }
    }
}

/// A padded number is that number behind zeros, as many as the width lacks; a minus sign
/// takes a place in front of these.
pub proof fn padding_is_zeros_in_front(n: nat, width: nat)
    ensures
        padded_text(n, width).len() >= width,
        padded_text(n, width).len() == width || padded_text(n, width) == decimal_text(n),
        exists|zeros: Seq<char>|
            padded_text(n, width) == #[trigger] (zeros + decimal_text(n)) && forall|i: int|
                0 <= i < zeros.len() ==> zeros[i] == '0',
        signed_text(n as int, width) == padded_text(n, width),
        n > 0 && width > 0 ==> signed_text(-n, width) == seq!['-'] + padded_text(
            n,
            (width - 1) as nat,
        ),
{
    let digits = decimal_text(n);
    if digits.len() >= width {
        assert(seq![] + digits =~= padded_text(n, width));
    } else {
        let zeros = Seq::new((width - digits.len()) as nat, |i: int| '0');
        assert(padded_text(n, width) == zeros + digits);
    }
}

/// Digits of a number below 65536 write a port number, with or without a plus sign in front,
/// and no other text does.
pub proof fn port_numbers_are_digits(s: Seq<char>)
    ensures
        ({
            let are_digits = s.len() > 0 && forall|i: int|
                0 <= i < s.len() ==> '0' <= #[trigger] s[i] <= '9';
            &&& port_value(s) is Some && !(s[0] == '+') ==> are_digits
            &&& are_digits && decimal_value(s) < 65536 ==> port_value(s) == Some(
                decimal_value(s) as u16,
            ) && port_value(seq!['+'] + s) == Some(decimal_value(s) as u16)
            &&& !(are_digits && decimal_value(s) < 65536) ==> port_value(seq!['+'] + s) is None
            &&& s.len() == 0 ==> port_value(s) is None
            &&& are_digits && decimal_value(s) >= 65536 ==> port_value(s) is None
        }),
{
    let signed = seq!['+'] + s;
    assert(signed.skip(1) =~= s);
    if all_digits(s) {
        assert forall|i: int| 0 <= i < s.len() implies '0' <= #[trigger] s[i] <= '9' by {
            assert(is_digit(s[i]));
        }
        if s.len() > 0 {
            assert(is_digit(s[0]));
        }
    }
    if forall|i: int| 0 <= i < s.len() ==> '0' <= #[trigger] s[i] <= '9' {
        assert(all_digits(s));
        if s.len() > 0 {
            assert(is_digit(s[0]));
        }
    }
}

// ---------------------------------------------------------------- places and order

/// A text stands in another where they have the same characters one by one.
pub proof fn texts_stand_character_by_character<T>(s: Seq<T>, pattern: Seq<T>, i: int)
    ensures
        occurs_at(s, pattern, i) <==> 0 <= i && i + pattern.len() <= s.len() && forall|k: int|
            0 <= k < pattern.len() ==> s[i + k] == #[trigger] pattern[k],
        occurs_at(s, pattern, i) ==> occurs(s, pattern),
{
    if 0 <= i && i + pattern.len() <= s.len() {
        let part = s.subrange(i, i + pattern.len());
        if part == pattern {
            assert forall|k: int| 0 <= k < pattern.len() implies s[i + k] == #[trigger] pattern[k] by {
                assert(part[k] == s[i + k]);
            }
        }
        if forall|k: int| 0 <= k < pattern.len() ==> s[i + k] == #[trigger] pattern[k] {
            assert(part =~= pattern);
        }
    }
}

/// Two texts are ordered by the first character in which they differ; a text comes before
/// those that it begins.
pub proof fn texts_are_ordered_by_their_first_difference(
    start: Seq<char>,
    x: char,
    y: char,
    s: Seq<char>,
    t: Seq<char>,
)
    ensures
        x != y ==> (text_before(start + seq![x] + s, start + seq![y] + t) <==> x < y),
        text_before(start, start + seq![x] + s),
        !text_before(start + s, start),
    decreases start.len(),
{
    let (a, b) = (start + seq![x] + s, start + seq![y] + t);
    if start.len() == 0 {
        assert(a[0] == x && b[0] == y);
    } else {
        let less = start.skip(1);
        texts_are_ordered_by_their_first_difference(less, x, y, s, t);
        assert(a[0] == start[0] && b[0] == start[0]);
        assert(a.skip(1) =~= less + seq![x] + s);
        assert(b.skip(1) =~= less + seq![y] + t);
        assert((start + s).skip(1) =~= less + s);
    }
}

// ---------------------------------------------------------------- lines

/// A line ends at the first line feed; a carriage return before it belongs to the end. What
/// follows the last line feed is a line, unless it is empty.
pub proof fn lines_end_at_line_feeds(line: Seq<char>, rest: Seq<char>)
    requires
        forall|i: int| 0 <= i < line.len() ==> line[i] != '\n',
    ensures
        line.len() == 0 || line.last() != '\r' ==> lines_of(line + seq!['\n'] + rest) == seq![line]
            + lines_of(rest),
        lines_of(line + seq!['\r', '\n'] + rest) == seq![line] + lines_of(rest),
        line.len() > 0 ==> lines_of(line) == seq![line],
        lines_of(seq![]) == Seq::<Seq<char>>::empty(),
{
    let s = line + seq!['\n'] + rest;
    assert(s[line.len() as int] == '\n');
    lemma_first_char(s, '\n', line.len() as int);
    assert(s.take(line.len() as int) =~= line);
    assert(s.skip(line.len() as int + 1) =~= rest);
    let t = line + seq!['\r', '\n'] + rest;
    let end = line.len() as int + 1;
    assert(t[end] == '\n');
    lemma_first_char(t, '\n', end);
    assert(t.take(end).last() == '\r');
    assert(t.take(end).drop_last() =~= line);
    assert(t.skip(end + 1) =~= rest);
    lemma_no_char(line, '\n');
}

// ---------------------------------------------------------------- addresses

/// An address without a port has port 80, and one without a path the path of the rate limits.
/// Where a port is given, it stands behind the last colon, and where it is no port number
/// nothing comes of the address. The scheme changes nothing.
pub proof fn parts_of_an_address_may_be_missing(
    host: Seq<char>,
    port: Option<Seq<char>>,
    path: Seq<char>,
)
    requires
        !host.contains('/'),
        path.len() == 0 || path[0] == '/',
        match port {
            Some(digits) => !digits.contains('/') && !digits.contains(':'),
            None => !host.contains(':'),
        },
    ensures
        ({
            let place = match port {
                Some(digits) => host + seq![':'] + digits,
                None => host,
            };
            let expected = match port {
                Some(digits) => match port_value(digits) {
                    Some(n) => Some((host, n, if path.len() == 0 {
                        "/ratelimit"@
                    } else {
                        path
                    })),
                    None => None,
                },
                None => Some((host, 80u16, if path.len() == 0 {
                    "/ratelimit"@
                } else {
                    path
                })),
            };
            &&& url_parts("http://"@ + (place + path)) == expected
            &&& !occurs_at(place + path, "http://"@, 0) ==> url_parts(place + path) == expected
        }),
{
    let place = match port {
        Some(digits) => host + seq![':'] + digits,
        None => host,
    };
    let s = place + path;
    let url = "http://"@ + s;
    assert(url.subrange(0, "http://"@.len() as int) =~= "http://"@);
    assert(url.skip("http://"@.len() as int) =~= s);
    assert forall|j: int| 0 <= j < place.len() implies place[j] != '/' by {
        if j < host.len() {
            assert(host[j] == place[j]);
        } else if j > host.len() {
            let digits = port.unwrap();
            assert(digits[j - host.len() - 1] == place[j]);
        }
    }
    if path.len() == 0 {
        assert(s =~= place);
        lemma_no_char(s, '/');
    } else {
        lemma_first_char(s, '/', place.len() as int);
        assert(s.take(place.len() as int) =~= place);
        assert(s.skip(place.len() as int) =~= path);
    }
    match port {
        Some(digits) => {
            assert forall|j: int| host.len() < j < place.len() implies place[j] != ':' by {
                assert(digits[j - host.len() - 1] == place[j]);
            }
            lemma_last_place(place, ':', host.len() as int);
            assert(place.skip(host.len() as int + 1) =~= digits);
            assert(place.take(host.len() as int) =~= host);
        },
        None => {
            lemma_no_place(place, ':');
        },
    }
}

/// The address of the rate limits at a port leads to that port of this machine, and to the
/// path of the rate limits.
pub proof fn ratelimit_address_leads_to_its_port(port: u16)
    ensures
        url_parts(ratelimit_address(port)) == Some(("127.0.0.1"@, port, "/ratelimit"@)),
{
    reveal_strlit("http://127.0.0.1:");
    reveal_strlit("http://");
    reveal_strlit("127.0.0.1");
    reveal_strlit("/ratelimit");
    let host = "127.0.0.1"@;
    let path = "/ratelimit"@;
    assert(!host.contains('/'));
    url_is_split_into_its_parts(host, port, path);
    assert("http://127.0.0.1:"@ =~= "http://"@ + host + seq![':']);
    assert(ratelimit_address(port) =~= "http://"@ + (host + seq![':'] + decimal_text(port as nat)
        + path));
}

/// The path of a session's messages has three steps, of which the second is the session: it
/// tells sessions apart.
pub proof fn messages_are_found_under_their_session(a: Seq<char>, b: Seq<char>)
    ensures
        messages_place(a).len() == a.len() + 17,
        messages_place(a).take(9) == "/session/"@,
        messages_place(a).subrange(9, 9 + a.len() as int) == a,
        messages_place(a).skip(9 + a.len() as int) == "/message"@,
        messages_place(a) == messages_place(b) ==> a == b,
{
    reveal_strlit("/session/");
    reveal_strlit("/message");
    assert(messages_place(a).take(9) =~= "/session/"@);
    assert(messages_place(a).subrange(9, 9 + a.len() as int) =~= a);
    assert(messages_place(b).subrange(9, 9 + b.len() as int) =~= b);
    assert(messages_place(a).skip(9 + a.len() as int) =~= "/message"@);
}

// ---------------------------------------------------------------- requests and responses

/// A request is a line for the path, lines for the host, for how the connection ends and for
/// what is accepted, and a blank line, each with a carriage return and a line feed at its end.
pub proof fn request_is_made_of_lines(host: Seq<char>, path: Seq<char>)
    ensures
        request_text(host, path) == "GET "@ + path + " HTTP/1.0"@ + seq!['\r', '\n'] + "Host: "@
            + host + seq!['\r', '\n'] + "Connection: close"@ + seq!['\r', '\n']
            + "Accept: application/json"@ + seq!['\r', '\n', '\r', '\n'],
        !host.contains('\n') && !path.contains('\n') ==> lines_of(request_text(host, path)) == seq![
            "GET "@ + path + " HTTP/1.0"@,
            "Host: "@ + host,
            "Connection: close"@,
            "Accept: application/json"@,
            ""@,
        ],
{
    reveal_strlit("GET ");
    reveal_strlit(" HTTP/1.0");
    reveal_strlit(" HTTP/1.0\r\nHost: ");
    reveal_strlit("Host: ");
    reveal_strlit("Connection: close");
    reveal_strlit("Accept: application/json");
    reveal_strlit("\r\nConnection: close\r\nAccept: application/json\r\n\r\n");
    reveal_strlit("");
    let end = seq!['\r', '\n'];
    let nothing = Seq::<char>::empty();
    let l1 = "GET "@ + path + " HTTP/1.0"@;
    let l2 = "Host: "@ + host;
    let l3 = "Connection: close"@;
    let l4 = "Accept: application/json"@;
    let r4 = ""@ + end + nothing;
    let r3 = l4 + end + r4;
    let r2 = l3 + end + r3;
    let r1 = l2 + end + r2;
    assert("\r\nConnection: close\r\nAccept: application/json\r\n\r\n"@ =~= end + r2);
    assert(" HTTP/1.0\r\nHost: "@ =~= " HTTP/1.0"@ + end + "Host: "@);
    assert(request_text(host, path) =~= l1 + end + r1);
    assert(r4 =~= end);
    assert(request_text(host, path) =~= "GET "@ + path + " HTTP/1.0"@ + end + "Host: "@ + host + end
        + "Connection: close"@ + end + "Accept: application/json"@ + seq!['\r', '\n', '\r', '\n']);
    if !host.contains('\n') && !path.contains('\n') {
        lemma_lines_of_request(l1, l2, host, path);
    }
}

proof fn lemma_lines_of_request(l1: Seq<char>, l2: Seq<char>, host: Seq<char>, path: Seq<char>)
    requires
        !host.contains('\n'),
        !path.contains('\n'),
        l1 == "GET "@ + path + " HTTP/1.0"@,
        l2 == "Host: "@ + host,
    ensures
        lines_of(
            l1 + seq!['\r', '\n'] + (l2 + seq!['\r', '\n'] + ("Connection: close"@ + seq!['\r', '\n']
                + ("Accept: application/json"@ + seq!['\r', '\n'] + (""@ + seq!['\r', '\n']
                + Seq::<char>::empty())))),
        ) == seq![l1, l2, "Connection: close"@, "Accept: application/json"@, ""@],
{
    reveal_strlit("GET ");
    reveal_strlit(" HTTP/1.0");
    reveal_strlit("Host: ");
    reveal_strlit("Connection: close");
    reveal_strlit("Accept: application/json");
    reveal_strlit("");
    let end = seq!['\r', '\n'];
    let nothing = Seq::<char>::empty();
    let l3 = "Connection: close"@;
    let l4 = "Accept: application/json"@;
    let r4 = ""@ + end + nothing;
    let r3 = l4 + end + r4;
    let r2 = l3 + end + r3;
    let r1 = l2 + end + r2;
    assert forall|i: int| 0 <= i < l1.len() implies l1[i] != '\n' by {
        if 4 <= i < 4 + path.len() {
            assert(path[i - 4] == l1[i]);
        }
    }
    assert forall|i: int| 0 <= i < l2.len() implies l2[i] != '\n' by {
        if i >= 6 {
            assert(host[i - 6] == l2[i]);
        }
    }
    lines_end_at_line_feeds(l1, r1);
    lines_end_at_line_feeds(l2, r2);
    lines_end_at_line_feeds(l3, r3);
    lines_end_at_line_feeds(l4, r4);
    lines_end_at_line_feeds(""@, nothing);
    assert(lines_of(l1 + end + r1) =~= seq![l1, l2, l3, l4, ""@]);
}

/// Whether four values stand one after the other from place `i` on.
pub open spec fn four_stand_at<T>(s: Seq<T>, i: int, a: T, b: T) -> bool {
    0 <= i && i + 4 <= s.len() && s[i] == a && s[i + 1] == b && s[i + 2] == a && s[i + 3] == b
}

/// The body of a response is all that follows its first blank line. A response without one
/// has none.
pub proof fn body_follows_the_first_blank_line(response: Seq<char>, i: int)
    ensures
        four_stand_at(response, i, '\r', '\n') && (forall|j: int|
            j < i ==> !#[trigger] four_stand_at(response, j, '\r', '\n')) ==> body_text(response)
            == response.skip(i + 4),
        (forall|j: int| !#[trigger] four_stand_at(response, j, '\r', '\n')) ==> body_text(
            response,
        ).len() == 0,
{
    reveal_strlit("\r\n\r\n");
    let blank = "\r\n\r\n"@;
    assert(blank.len() == 4);
    assert forall|j: int| #[trigger] occurs_at(response, blank, j) <==> four_stand_at(
        response,
        j,
        '\r',
        '\n',
    ) by {
        texts_stand_character_by_character(response, blank, j);
        if occurs_at(response, blank, j) {
            assert(response[j + 0] == blank[0]);
            assert(response[j + 1] == blank[1]);
            assert(response[j + 2] == blank[2]);
            assert(response[j + 3] == blank[3]);
        }
    }
    first_from_is_first(response, blank, 0);
    if four_stand_at(response, i, '\r', '\n') && (forall|j: int|
        j < i ==> !#[trigger] four_stand_at(response, j, '\r', '\n')) {
        assert(occurs_at(response, blank, i));
        first_place_is_unique(response, blank, 0, i);
    }
}

/// The same of the bytes of a response: 13 and 10 end a line.
pub proof fn body_bytes_follow_the_first_blank_line(response: Seq<u8>, i: int)
    ensures
        four_stand_at(response, i, 13u8, 10u8) && (forall|j: int|
            j < i ==> !#[trigger] four_stand_at(response, j, 13u8, 10u8)) ==> body_bytes(response)
            == Some(response.skip(i + 4)),
        (forall|j: int| !#[trigger] four_stand_at(response, j, 13u8, 10u8)) ==> body_bytes(
            response,
        ) is None,
{
    let blank = seq![13u8, 10, 13, 10];
    assert forall|j: int| #[trigger] occurs_at(response, blank, j) <==> four_stand_at(
        response,
        j,
        13u8,
        10u8,
    ) by {
        texts_stand_character_by_character(response, blank, j);
        if occurs_at(response, blank, j) {
            assert(response[j + 0] == blank[0]);
            assert(response[j + 1] == blank[1]);
            assert(response[j + 2] == blank[2]);
            assert(response[j + 3] == blank[3]);
        }
    }
    first_from_is_first(response, blank, 0);
    if four_stand_at(response, i, 13u8, 10u8) && (forall|j: int|
        j < i ==> !#[trigger] four_stand_at(response, j, 13u8, 10u8)) {
        assert(occurs_at(response, blank, i));
        first_place_is_unique(response, blank, 0, i);
    }
}

// ---------------------------------------------------------------- ports

/// Whether a text holds another, character by character.
pub open spec fn holds_text(s: Seq<char>, word: Seq<char>) -> bool {
    exists|i: int|
        0 <= i && i + word.len() <= s.len() && #[trigger] s.subrange(i, i + word.len()) == word
}

/// The digits behind the first local address of a line are its port, whatever stands before
/// and behind them, if they write a number below 65536 and the line speaks of a runtime.
/// A line that speaks of none has no port.
pub proof fn port_stands_behind_the_address(front: Seq<char>, digits: Seq<char>, rest: Seq<char>)
    requires
        !holds_text(front, "127.0.0.1:"@),
        digits.len() > 0,
        forall|i: int| 0 <= i < digits.len() ==> '0' <= #[trigger] digits[i] <= '9',
        rest.len() == 0 || !('0' <= rest[0] <= '9'),
    ensures
        ({
            let line = front + "127.0.0.1:"@ + digits + rest;
            if (holds_text(line, "bun"@) || holds_text(line, "node"@)) && decimal_value(digits)
                < 65536 {
                line_port(line) == Some(decimal_value(digits) as u16)
            } else {
                line_port(line) is None
            }
        }),
{
    let address = "127.0.0.1:"@;
    let line = front + address + digits + rest;
    let at = front.len() as int;
    lemma_holds_text(line, "bun"@);
    lemma_holds_text(line, "node"@);
    assert(line =~= front + address + (digits + rest));
    lemma_first_address(front, digits + rest);
    lemma_digit_run(digits, rest);
    assert((digits + rest).take(digits.len() as int) =~= digits);
    port_numbers_are_digits(digits);
    assert(digits[0] != '+');
}

/// The address stands behind the front, and nowhere before.
proof fn lemma_first_address(front: Seq<char>, behind: Seq<char>)
    requires
        !holds_text(front, "127.0.0.1:"@),
    ensures
        ({
            let line = front + "127.0.0.1:"@ + behind;
            &&& first_from(line, "127.0.0.1:"@, 0) == Some(front.len() as int)
            &&& occurs(line, "127.0.0.1"@)
            &&& line.skip(front.len() as int + "127.0.0.1:"@.len()) == behind
        }),
{
    let address = "127.0.0.1:"@;
    let line = front + address + behind;
    let at = front.len() as int;
    assert(line.subrange(at, at + address.len()) =~= address);
    assert forall|j: int| 0 <= j < at implies !occurs_at(line, address, j) by {
        lemma_no_early_address(front, behind, j);
    }
    first_place_is_unique(line, address, 0, at);
    assert(line.skip(at + address.len()) =~= behind);
    assert(occurs(line, "127.0.0.1"@)) by {
        reveal_strlit("127.0.0.1:");
        reveal_strlit("127.0.0.1");
        assert(address.subrange(0, 9) =~= "127.0.0.1"@);
        assert(line.subrange(at, at + 9) =~= address.subrange(0, 9));
        assert(occurs_at(line, "127.0.0.1"@, at));
    }
}

/// The address holds a colon at its end only, so that none begins in the front and ends
/// behind it.
proof fn lemma_no_early_address(front: Seq<char>, behind: Seq<char>, j: int)
    requires
        !holds_text(front, "127.0.0.1:"@),
        0 <= j < front.len(),
    ensures
        !occurs_at(front + "127.0.0.1:"@ + behind, "127.0.0.1:"@, j),
{
    let address = "127.0.0.1:"@;
    let line = front + address + behind;
    let at = front.len() as int;
    reveal_strlit("127.0.0.1:");
    if occurs_at(line, address, j) {
        let part = line.subrange(j, j + 10);
        assert(part[9] == line[j + 9]);
        assert(address[9] == ':');
        if j + 9 < at {
            assert(front.subrange(j, j + address.len()) =~= part);
        } else {
            let k = j + 9 - at;
            assert(line[j + 9] == address[k]);
            assert(0 <= k < 9);
            assert(address[k] != ':');
        }
    }
}

/// The port that a line names behind the local address is read off, for every port.
pub proof fn every_port_can_be_listed(front: Seq<char>, port: u16, rest: Seq<char>)
    requires
        !holds_text(front, "127.0.0.1:"@),
        rest.len() == 0 || !('0' <= rest[0] <= '9'),
        ({
            let line = front + "127.0.0.1:"@ + decimal_text(port as nat) + rest;
            holds_text(line, "bun"@) || holds_text(line, "node"@)
        }),
    ensures
        line_port(front + "127.0.0.1:"@ + decimal_text(port as nat) + rest) == Some(port),
{
    let digits = decimal_text(port as nat);
    numbers_are_written_in_digits(port as nat);
    port_stands_behind_the_address(front, digits, rest);
}

/// A line without the local address, or without digits behind the first one, names no port.
pub proof fn lines_without_an_address_name_no_port(line: Seq<char>, front: Seq<char>, rest: Seq<char>)
    requires
        !holds_text(front, "127.0.0.1:"@),
        rest.len() == 0 || !('0' <= rest[0] <= '9'),
    ensures
        !holds_text(line, "127.0.0.1:"@) ==> line_port(line) is None,
        line_port(front + "127.0.0.1:"@ + rest) is None,
{
    let address = "127.0.0.1:"@;
    lemma_holds_text(line, address);
    first_from_is_first(line, address, 0);
    lemma_first_address(front, rest);
    assert(rest.take(0).len() == 0);
}

/// Ports are listed in the order of the lines that name them first.
pub proof fn ports_are_listed_in_order(lines: Seq<Seq<char>>, line: Seq<char>)
    ensures
        ports_of(seq![]) == Seq::<u16>::empty(),
        match line_port(line) {
            Some(port) => if exists|i: int|
                0 <= i < lines.len() && line_port(#[trigger] lines[i]) == Some(port) {
                ports_of(lines.push(line)) == ports_of(lines)
            } else {
                ports_of(lines.push(line)) == ports_of(lines).push(port)
            },
            None => ports_of(lines.push(line)) == ports_of(lines),
        },
{
    assert(lines.push(line).drop_last() =~= lines);
    if let Some(port) = line_port(line) {
        crate::ports::every_port_is_found(lines, port);
    }
}

proof fn lemma_holds_text(s: Seq<char>, word: Seq<char>)
    ensures
        holds_text(s, word) == occurs(s, word),
{
    if occurs(s, word) {
        let i = choose|i: int| occurs_at(s, word, i);
        assert(s.subrange(i, i + word.len()) == word);
    }
    if holds_text(s, word) {
        let i = choose|i: int|
            0 <= i && i + word.len() <= s.len() && #[trigger] s.subrange(i, i + word.len()) == word;
        assert(occurs_at(s, word, i));
    }
}

proof fn lemma_digit_run(digits: Seq<char>, rest: Seq<char>)
    requires
        forall|i: int| 0 <= i < digits.len() ==> '0' <= #[trigger] digits[i] <= '9',
        rest.len() == 0 || !('0' <= rest[0] <= '9'),
    ensures
        digit_run(digits + rest) == digits.len(),
    decreases digits.len(),
{
    let s = digits + rest;
    if digits.len() == 0 {
        assert(s =~= rest);
    } else {
        assert(s[0] == digits[0]);
        let fewer = digits.skip(1);
        assert forall|i: int| 0 <= i < fewer.len() implies '0' <= #[trigger] fewer[i] <= '9' by {
            assert(fewer[i] == digits[i + 1]);
        }
        assert(s.skip(1) =~= fewer + rest);
        lemma_digit_run(fewer, rest);
    }
}

} // verus!
