//! Requests to a local service over HTTP/1.0, and the bodies of its responses.
use crate::text::{
    chars_of, decimal_text, find_from, first_from, first_from_is_first, first_place_is_unique,
    occurs_at, part_of, push_decimal,
};
use vstd::prelude::*;
use vstd::string::*;

verus! {

/// A request to a service.
#[derive(Debug)]
pub struct Fetch {
    pub host: String,
    pub port: u16,
    pub path: String,
    /// For how many milliseconds to wait for the service.
    pub timeout_ms: u64,
}

/// Whether a request is one for a path of a host.
pub open spec fn is_fetch(
    f: Fetch,
    host: Seq<char>,
    port: u16,
    path: Seq<char>,
    timeout_ms: u64,
) -> bool {
    &&& f.host@ == host
    &&& f.port == port
    &&& f.path@ == path
    &&& f.timeout_ms == timeout_ms
}

/// Makes a request to a service of this machine.
pub fn local_fetch(port: u16, path: &str, timeout_ms: u64) -> (r: Fetch)
    ensures
        is_fetch(r, "127.0.0.1"@, port, path@, timeout_ms),
{
    Fetch { host: "127.0.0.1".to_owned(), port, path: path.to_owned(), timeout_ms }
}

/// The address to connect to: host and port.
pub fn socket_address(host: &str, port: u16) -> (r: String)
    ensures
        r@ == host@ + seq![':'] + decimal_text(port as nat),
{
    proof {
        reveal_strlit(":");
    }
    let mut r: String = host.to_owned();
    r.append(":");
    push_decimal(&mut r, port as u64);
    assert(r@ =~= host@ + seq![':'] + decimal_text(port as nat));
    r
}

/// The address of the rate-limit service at a local port.
pub open spec fn ratelimit_address(port: u16) -> Seq<char> {
    "http://127.0.0.1:"@ + decimal_text(port as nat) + "/ratelimit"@
}

/// The address of the rate-limit service at a local port.
pub fn ratelimit_url(port: u16) -> (r: String)
    ensures
        r@ == ratelimit_address(port),
{
    let mut r: String = "http://127.0.0.1:".to_owned();
    push_decimal(&mut r, port as u64);
    r.append("/ratelimit");
    r
}

/// The path of a session's messages.
pub open spec fn messages_place(session: Seq<char>) -> Seq<char> {
    "/session/"@ + session + "/message"@
}

/// The path of a session's messages.
pub fn messages_path(session: &str) -> (r: String)
    ensures
        r@ == messages_place(session@),
{
    let mut r: String = "/session/".to_owned();
    r.append(session);
    r.append("/message");
    r
}

/// The text of a request for a path of a host.
pub open spec fn request_text(host: Seq<char>, path: Seq<char>) -> Seq<char> {
    "GET "@ + path + " HTTP/1.0\r\nHost: "@ + host
        + "\r\nConnection: close\r\nAccept: application/json\r\n\r\n"@
}

/// The text of a request for a path of a host.
pub fn get_request(host: &str, path: &str) -> (r: String)
    ensures
        r@ == request_text(host@, path@),
{
    let mut r: String = "GET ".to_owned();
    r.append(path);
    r.append(" HTTP/1.0\r\nHost: ");
    r.append(host);
    r.append("\r\nConnection: close\r\nAccept: application/json\r\n\r\n");
    r
}

/// All that follows the first blank line of a response; nothing where it has none.
pub open spec fn body_text(response: Seq<char>) -> Seq<char> {
    let blank = "\r\n\r\n"@;
    match first_from(response, blank, 0) {
        Some(i) => response.skip(i + blank.len()),
        None => seq![],
    }
}

/// The body of a response as text: all that follows its first blank line. There is none
/// where that is empty.
pub fn response_body(response: &str) -> (r: Option<String>)
    ensures
        match r {
            Some(body) => body@ == body_text(response@) && body@.len() > 0,
            None => body_text(response@).len() == 0,
        },
{
    let chars = chars_of(response);
    let blank = chars_of("\r\n\r\n");
    proof {
        first_from_is_first(chars@, blank@, 0);
        reveal_strlit("\r\n\r\n");
    }
    match find_from(&chars, &blank, 0) {
        Some(i) => {
            let total: usize = chars.len();
            let start: usize = i + blank.len();
            assert(response@.skip(start as int) =~= response@.subrange(start as int, total as int));
            if start == total {
                None
            } else {
                Some(part_of(response, start, total))
            }
        },
        None => None,
    }
}

/// The bytes of a blank line.
pub open spec fn blank_bytes() -> Seq<u8> {
    seq![13u8, 10, 13, 10]
}

/// All that follows the first blank line of a response.
pub open spec fn body_bytes(response: Seq<u8>) -> Option<Seq<u8>> {
    match first_from(response, blank_bytes(), 0) {
        Some(i) => Some(response.skip(i + blank_bytes().len())),
        None => None,
    }
}

/// The body of a response as bytes: all that follows its first blank line. There is
/// none where the response has no blank line.
pub fn response_body_bytes(response: &Vec<u8>) -> (r: Option<Vec<u8>>)
    ensures
        match r {
            Some(body) => body_bytes(response@) == Some(body@),
            None => body_bytes(response@) is None,
        },
{
    let total: usize = response.len();
    let mut at: usize = 0;
    while at < total && total - at >= 4
        invariant
            at <= total,
            total == response@.len(),
            first_from(response@, blank_bytes(), 0) == first_from(response@, blank_bytes(), at as int),
        decreases total - at,
    {
        let ghost part = response@.subrange(at as int, at + 4);
        proof {
            assert(part[0] == response@[at as int]);
            assert(part[1] == response@[at + 1]);
            assert(part[2] == response@[at + 2]);
            assert(part[3] == response@[at + 3]);
        }
        if response[at] == 13 && response[at + 1] == 10 && response[at + 2] == 13 && response[at + 3]
            == 10 {
            assert(part =~= blank_bytes());
            let mut body: Vec<u8> = Vec::new();
            let mut k: usize = at + 4;
            while k < total
                invariant
                    at + 4 <= k <= total,
                    total == response@.len(),
                    body@ == response@.subrange(at + 4, k as int),
                decreases total - k,
            {
                body.push(response[k]);
                k += 1;
                assert(body@ =~= response@.subrange(at + 4, k as int));
            }
            assert(body@ =~= response@.skip(at + 4));
            return Some(body);
        }
        at += 1;
    }
    None
}

/// Behind headers that hold no blank line of their own, the first blank line is the one
/// that ends them.
proof fn lemma_headers_end<T>(headers: Seq<T>, blank: Seq<T>, body: Seq<T>)
    requires
        first_from(headers + blank, blank, 0) == Some(headers.len() as int),
    ensures
        first_from(headers + blank + body, blank, 0) == Some(headers.len() as int),
{
    let front = headers + blank;
    let response = front + body;
    first_from_is_first(front, blank, 0);
    assert(response.subrange(headers.len() as int, front.len() as int) =~= blank);
    assert forall|j: int| 0 <= j < headers.len() implies !occurs_at(response, blank, j) by {
        assert(!occurs_at(front, blank, j));
        assert(response.subrange(j, j + blank.len()) =~= front.subrange(j, j + blank.len()));
    }
    first_place_is_unique(response, blank, 0, headers.len() as int);
}

/// The text behind headers without a blank line of their own is all found, whatever it is.
pub proof fn body_is_found(headers: Seq<char>, body: Seq<char>)
    requires
        first_from(headers + "\r\n\r\n"@, "\r\n\r\n"@, 0) == Some(headers.len() as int),
    ensures
        body_text(headers + "\r\n\r\n"@ + body) == body,
{
    let blank = "\r\n\r\n"@;
    lemma_headers_end(headers, blank, body);
    assert((headers + blank + body).skip((headers + blank).len() as int) =~= body);
}

/// The bytes behind headers without a blank line of their own are all found, whatever
/// they are.
pub proof fn body_bytes_are_found(headers: Seq<u8>, body: Seq<u8>)
    requires
        first_from(headers + blank_bytes(), blank_bytes(), 0) == Some(headers.len() as int),
    ensures
        body_bytes(headers + blank_bytes() + body) == Some(body),
{
    lemma_headers_end(headers, blank_bytes(), body);
    assert((headers + blank_bytes() + body).skip(headers.len() as int + 4) =~= body);
}

} // verus!
