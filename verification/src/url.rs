//! Addresses of the services that are asked for usage and rate limits.
use crate::text::{
    all_digits, chars_of, decimal_text, decimal_value, find_from, first_from, first_from_is_first,
    is_digit, lemma_first_char, occurs_at, parse_port, part_of, port_value,
};
use vstd::prelude::*;
use vstd::string::*;

verus! {

/// The port of an address that names none.
pub const DEFAULT_PORT: u16 = 80;

/// An address without the scheme that may stand in front of it.
pub open spec fn without_scheme(url: Seq<char>) -> Seq<char> {
    if occurs_at(url, "http://"@, 0) {
        url.skip("http://"@.len() as int)
    } else {
        url
    }
}

/// The last place of a character.
pub open spec fn last_place(s: Seq<char>, c: char) -> Option<int>
    decreases s.len(),
{
    if s.len() == 0 {
        None
    } else if s.last() == c {
        Some(s.len() - 1)
    } else {
        last_place(s.drop_last(), c)
    }
}

/// Host, port and path of an address. The path begins at the first slash, and the port
/// stands behind the last colon before it.
pub open spec fn url_parts(url: Seq<char>) -> Option<(Seq<char>, u16, Seq<char>)> {
    let s = without_scheme(url);
    let slash = first_from(s, seq!['/'], 0);
    let place = match slash {
        Some(i) => s.take(i),
        None => s,
    };
    let path = match slash {
        Some(i) => s.skip(i),
        None => "/ratelimit"@,
    };
    match last_place(place, ':') {
        Some(k) => match port_value(place.skip(k + 1)) {
            Some(port) => Some((place.take(k), port, path)),
            None => None,
        },
        None => Some((place, DEFAULT_PORT, path)),
    }
}

pub proof fn lemma_last_place(s: Seq<char>, c: char, k: int)
    requires
        0 <= k < s.len(),
        s[k] == c,
        forall|j: int| k < j < s.len() ==> s[j] != c,
    ensures
        last_place(s, c) == Some(k),
    decreases s.len(),
{
    if k < s.len() - 1 {
        lemma_last_place(s.drop_last(), c, k);
    }
}

pub proof fn lemma_no_place(s: Seq<char>, c: char)
    requires
        forall|j: int| 0 <= j < s.len() ==> s[j] != c,
    ensures
        last_place(s, c) is None,
    decreases s.len(),
{
    if s.len() > 0 {
        lemma_no_place(s.drop_last(), c);
    }
}

/// Splits an address into host, port and path. Nothing comes of one whose port is no
/// port number.
pub fn split_url(url: &str) -> (r: Option<(String, u16, String)>)
    ensures
        match r {
            Some((host, port, path)) => url_parts(url@) == Some((host@, port, path@)),
            None => url_parts(url@) is None,
        },
{
    let chars = chars_of(url);
    let scheme = chars_of("http://");
    proof {
        reveal_strlit("http://");
        first_from_is_first(chars@, scheme@, 0);
    }
    let start: usize = match find_from(&chars, &scheme, 0) {
        Some(i) => if i == 0 {
            scheme.len()
        } else {
            0
        },
        None => 0,
    };
    let ghost s = without_scheme(url@);
    assert(s =~= chars@.skip(start as int));
    let mut slash: usize = start;
    while slash < chars.len() && chars[slash] != '/'
        invariant
            start <= slash <= chars@.len(),
            s == chars@.skip(start as int),
            forall|j: int| 0 <= j < slash - start ==> s[j] != '/',
        decreases chars@.len() - slash,
    {
        slash += 1;
    }
    let ghost place = s.take(slash - start);
    proof {
        if slash < chars@.len() {
            lemma_first_char(s, '/', slash - start);
        } else {
            crate::text::lemma_no_char(s, '/');
            assert(place =~= s);
        }
    }
    let path: String = if slash < chars.len() {
        part_of(url, slash, chars.len())
    } else {
        "/ratelimit".to_owned()
    };
    proof {
        if slash < chars@.len() {
            assert(path@ =~= s.skip(slash - start));
        }
    }
    let mut after: usize = slash;
    while after > start && chars[after - 1] != ':'
        invariant
            start <= after <= slash <= chars@.len(),
            s == chars@.skip(start as int),
            place == s.take(slash - start),
            forall|j: int| after - start <= j < slash - start ==> place[j] != ':',
        decreases after,
    {
        after -= 1;
    }
    if after == start {
        proof {
            lemma_no_place(place, ':');
            assert(url@.subrange(start as int, slash as int) =~= place);
        }
        Some((part_of(url, start, slash), DEFAULT_PORT, path))
    } else {
        let mut digits: Vec<char> = Vec::new();
        let mut at: usize = after;
        while at < slash
            invariant
                start < after <= at <= slash <= chars@.len(),
                digits@ == chars@.subrange(after as int, at as int),
            decreases slash - at,
        {
            digits.push(chars[at]);
            at += 1;
            assert(digits@ =~= chars@.subrange(after as int, at as int));
        }
        proof {
            lemma_last_place(place, ':', after - 1 - start);
            assert(place.skip(after - start) =~= digits@);
            assert(url@.subrange(start as int, after - 1) =~= place.take(after - 1 - start));
        }
        match parse_port(&digits) {
            Some(port) => Some((part_of(url, start, after - 1), port, path)),
            None => None,
        }
    }
}

/// The scheme may be left out of an address.
pub proof fn scheme_is_optional(rest: Seq<char>)
    requires
        !occurs_at(rest, "http://"@, 0),
    ensures
        url_parts("http://"@ + rest) == url_parts(rest),
{
    let url = "http://"@ + rest;
    assert(url.subrange(0, "http://"@.len() as int) =~= "http://"@);
    assert(url.skip("http://"@.len() as int) =~= rest);
}

/// Digits write a port number, and it is read back from them.
pub proof fn port_is_read_back(port: u16)
    ensures
        port_value(decimal_text(port as nat)) == Some(port),
        all_digits(decimal_text(port as nat)),
        decimal_text(port as nat).len() > 0,
{
    lemma_decimal_is_read_back(port as nat);
    assert(is_digit(decimal_text(port as nat)[0]));
}

pub proof fn lemma_decimal_is_read_back(n: nat)
    ensures
        decimal_text(n).len() > 0,
        all_digits(decimal_text(n)),
        decimal_value(decimal_text(n)) == n,
    decreases n,
{
    let text = decimal_text(n);
    if n < 10 {
        assert(text.drop_last() =~= seq![]);
        assert(decimal_value(text.drop_last()) == 0);
    } else {
        lemma_decimal_is_read_back(n / 10);
        assert(text.drop_last() =~= decimal_text(n / 10));
    }
}

/// An address that is put together of a host, a port and a path is split into these.
pub proof fn url_is_split_into_its_parts(host: Seq<char>, port: u16, path: Seq<char>)
    requires
        !host.contains('/'),
        path.len() > 0,
        path[0] == '/',
    ensures
        url_parts(host + seq![':'] + decimal_text(port as nat) + path) == Some((host, port, path)),
        url_parts("http://"@ + (host + seq![':'] + decimal_text(port as nat) + path)) == Some(
            (host, port, path),
        ),
{
    let digits = decimal_text(port as nat);
    let place = host + seq![':'] + digits;
    let s = place + path;
    port_is_read_back(port);
    reveal_strlit("http://");
    assert forall|j: int| 0 <= j < place.len() implies place[j] != '/' by {
        if j < host.len() {
            assert(host[j] != '/');
        } else if j > host.len() {
            assert(is_digit(digits[j - host.len() - 1]));
        }
    }
    if occurs_at(s, "http://"@, 0) {
        let front = s.subrange(0, 7);
        assert(front[4] == s[4] && front[5] == s[5] && front[6] == s[6]);
        assert(front[0] == s[0] && front[1] == s[1] && front[2] == s[2] && front[3] == s[3]);
        assert(s[5] == '/' && s[4] == ':');
        assert(place.len() <= 5);
        if host.len() <= 3 {
            assert(s[host.len() as int] == ':');
        }
    }
    lemma_first_char(s, '/', place.len() as int);
    assert(s.take(place.len() as int) =~= place);
    assert(s.skip(place.len() as int) =~= path);
    assert forall|j: int| host.len() < j < place.len() implies place[j] != ':' by {
        assert(is_digit(digits[j - host.len() - 1]));
    }
    lemma_last_place(place, ':', host.len() as int);
    assert(place.skip(host.len() as int + 1) =~= digits);
    assert(place.take(host.len() as int) =~= host);
    scheme_is_optional(s);
}

} // verus!
