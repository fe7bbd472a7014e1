use pulse::http::{
    get_request, local_fetch, messages_path, ratelimit_url, response_body, response_body_bytes,
    socket_address,
};
use pulse::ports::listen_ports;
use pulse::text::{chars_of, comes_before, parse_port, push_padded, push_signed, split_lines};
use pulse::url::split_url;

fn parts(url: &str) -> Option<(String, u16, String)> {
    split_url(url)
}

fn three(host: &str, port: u16, path: &str) -> Option<(String, u16, String)> {
    Some((host.to_string(), port, path.to_string()))
}

#[test]
fn an_address_is_split() {
    assert_eq!(parts("http://127.0.0.1:4096/ratelimit"), three("127.0.0.1", 4096, "/ratelimit"));
    assert_eq!(parts("127.0.0.1:4096/a/b"), three("127.0.0.1", 4096, "/a/b"));
}

#[test]
fn the_parts_of_an_address_may_be_left_out() {
    assert_eq!(parts("127.0.0.1:4096"), three("127.0.0.1", 4096, "/ratelimit"));
    assert_eq!(parts("http://localhost"), three("localhost", 80, "/ratelimit"));
    assert_eq!(parts("localhost/x"), three("localhost", 80, "/x"));
    assert_eq!(parts(""), three("", 80, "/ratelimit"));
    assert_eq!(parts("http://"), three("", 80, "/ratelimit"));
}

#[test]
fn the_last_colon_parts_the_port_off() {
    assert_eq!(parts("a:b:80"), three("a:b", 80, "/ratelimit"));
    assert_eq!(parts("[::1]:8080/"), three("[::1]", 8080, "/"));
    assert_eq!(parts("host/x:1"), three("host", 80, "/x:1"));
}

#[test]
fn an_address_without_a_good_port_has_no_parts() {
    assert_eq!(parts("host:"), None);
    assert_eq!(parts("host:x"), None);
    assert_eq!(parts("host:65536"), None);
    assert_eq!(parts("host:-1"), None);
    assert_eq!(parts("https://host/x"), None);
}

#[test]
fn ports_are_read_as_numbers() {
    assert_eq!(parts("host:65535"), three("host", 65535, "/ratelimit"));
    assert_eq!(parts("host:007"), three("host", 7, "/ratelimit"));
    assert_eq!(parts("host:+7"), three("host", 7, "/ratelimit"));
    assert_eq!(parts("host:+"), None);
    for text in ["0", "1", "65535", "65536", "", "+", "+1", "-1", "1 ", "00080", "99999999999999999999"] {
        assert_eq!(parse_port(&chars_of(text)), text.parse::<u16>().ok(), "{}", text);
    }
}

#[test]
fn an_address_is_split_into_what_it_was_put_together_of() {
    for port in [0u16, 1, 80, 999, 4096, 65535] {
        let url = format!("http://some.host:{}/a/b:c", port);
        assert_eq!(parts(&url), three("some.host", port, "/a/b:c"));
        assert_eq!(parts(&url["http://".len()..]), three("some.host", port, "/a/b:c"));
    }
}

#[test]
fn addresses_and_paths_are_written() {
    assert_eq!(socket_address("127.0.0.1", 4096), "127.0.0.1:4096");
    assert_eq!(socket_address("h", 0), "h:0");
    assert_eq!(ratelimit_url(65535), "http://127.0.0.1:65535/ratelimit");
    assert_eq!(messages_path("ses_1"), "/session/ses_1/message");
}

#[test]
fn a_request_is_written() {
    assert_eq!(
        get_request("127.0.0.1", "/ratelimit"),
        "GET /ratelimit HTTP/1.0\r\nHost: 127.0.0.1\r\nConnection: close\r\n\
         Accept: application/json\r\n\r\n"
    );
}

#[test]
fn a_local_request_names_this_machine() {
    let f = local_fetch(4096, "/session", 2500);
    assert_eq!((f.host.as_str(), f.port, f.path.as_str(), f.timeout_ms), ("127.0.0.1", 4096, "/session", 2500));
}

#[test]
fn the_body_stands_behind_the_blank_line() {
    assert_eq!(response_body("HTTP/1.0 200 OK\r\nA: b\r\n\r\n{\"x\":1}"), Some("{\"x\":1}".to_string()));
    assert_eq!(response_body("HTTP/1.0 200 OK\r\n\r\n"), None);
    assert_eq!(response_body("HTTP/1.0 200 OK\r\nA: b\r\n"), None);
    assert_eq!(response_body(""), None);
}

#[test]
fn the_text_of_a_body_is_all_that_follows() {
    assert_eq!(response_body("HTTP/1.0 200 OK\r\n\r\na\r\n\r\nb"), Some("a\r\n\r\nb".to_string()));
    assert_eq!(response_body("h\r\n\r\n\r\n\r\ntwo"), Some("\r\n\r\ntwo".to_string()));
    assert_eq!(response_body("h\r\n\r\n\r\nx"), Some("\r\nx".to_string()));
}

#[test]
fn the_bytes_of_a_body_are_all_that_follows() {
    assert_eq!(response_body_bytes(&b"h\r\n\r\none\r\n\r\ntwo".to_vec()), Some(b"one\r\n\r\ntwo".to_vec()));
    assert_eq!(response_body_bytes(&b"h\r\n\r\n".to_vec()), Some(Vec::new()));
    assert_eq!(response_body_bytes(&b"h\r\n\r".to_vec()), None);
    assert_eq!(response_body_bytes(&Vec::new()), None);
    assert_eq!(response_body_bytes(&vec![13, 13, 10, 13, 10, 255]), Some(vec![255]));
}

#[test]
fn the_ports_of_local_services_are_found() {
    let text = "State  Recv-Q Local Address:Port Peer\n\
        LISTEN 0 511 127.0.0.1:4096 0.0.0.0:* users:((\"bun\",pid=1,fd=2))\n\
        LISTEN 0 511 0.0.0.0:8080 0.0.0.0:* users:((\"node\",pid=2,fd=2))\r\n\
        LISTEN 0 511 127.0.0.1:631 0.0.0.0:* users:((\"cupsd\",pid=3,fd=2))\n\
        LISTEN 0 511 127.0.0.1:5173 0.0.0.0:* users:((\"node\",pid=4,fd=2))\n\
        LISTEN 0 511 127.0.0.1:4096 0.0.0.0:* users:((\"bun\",pid=1,fd=3))";
    assert_eq!(listen_ports(text), vec![4096, 5173]);
}

#[test]
fn lines_without_a_good_port_are_passed_over() {
    assert_eq!(listen_ports("127.0.0.1:99999 bun"), Vec::<u16>::new());
    assert_eq!(listen_ports("127.0.0.1: bun"), Vec::<u16>::new());
    assert_eq!(listen_ports("127.0.0.1 bun"), Vec::<u16>::new());
    assert_eq!(listen_ports("127.0.0.1:x 127.0.0.1:80 bun"), Vec::<u16>::new());
    assert_eq!(listen_ports("127.0.0.1:80bun"), vec![80]);
    assert_eq!(listen_ports(""), Vec::<u16>::new());
}

#[test]
fn text_is_split_into_lines() {
    for text in ["", "\n", "a", "a\n", "a\nb", "a\r\nb\r\n", "a\r", "\r\n\r\n", "a\n\nb", "a\r\r\nb"] {
        let lines: Vec<String> = split_lines(&chars_of(text)).iter().map(|l| l.iter().collect()).collect();
        let expected: Vec<String> = text.lines().map(|l| l.to_string()).collect();
        assert_eq!(lines, expected, "{:?}", text);
    }
}

#[test]
fn numbers_are_written_with_leading_zeros() {
    let mut s = String::new();
    push_padded(&mut s, 7, 2);
    push_padded(&mut s, 123, 2);
    push_signed(&mut s, -5, 4);
    push_signed(&mut s, 5, 4);
    push_signed(&mut s, -12345, 4);
    assert_eq!(s, format!("{:02}{:02}{:04}{:04}{:04}", 7, 123, -5, 5, -12345));
}

#[test]
fn texts_are_ordered_by_their_characters() {
    let texts = ["", "-001-12-31", "10000-01-01", "2024-01-01", "2024-01-02", "9999", "a", "aa", "\u{e9}", "\u{1f600}"];
    for a in texts {
        for b in texts {
            assert_eq!(comes_before(a, b), a < b, "{:?} {:?}", a, b);
        }
    }
}
