//! Local services, as the list of listening sockets shows them.
use crate::text::{
    chars_of, contains_text, digit_run, find_from, first_from, first_from_is_first, lines_of,
    occurs, parse_port, port_value, split_lines,
};
use vstd::prelude::*;

verus! {

/// The port of a line of the list: what stands behind the local address, where the line
/// speaks of one of the runtimes that serve usage.
pub open spec fn line_port(line: Seq<char>) -> Option<u16> {
    if !occurs(line, "127.0.0.1"@) {
        None
    } else if !(occurs(line, "bun"@) || occurs(line, "node"@)) {
        None
    } else {
        match first_from(line, "127.0.0.1:"@, 0) {
            Some(i) => {
                let rest = line.skip(i + "127.0.0.1:"@.len());
                port_value(rest.take(digit_run(rest)))
            },
            None => None,
        }
    }
}

/// The ports of the lines, each at its first place.
pub open spec fn ports_of(lines: Seq<Seq<char>>) -> Seq<u16>
    decreases lines.len(),
{
    if lines.len() == 0 {
        seq![]
    } else {
        let before = ports_of(lines.drop_last());
        match line_port(lines.last()) {
            Some(port) => if before.contains(port) {
                before
            } else {
                before.push(port)
            },
            None => before,
        }
    }
}

/// Reads the port of a line of the list.
pub fn port_of_line(line: &Vec<char>) -> (r: Option<u16>)
    ensures
        r == line_port(line@),
{
    if !contains_text(line, &chars_of("127.0.0.1")) {
        return None;
    }
    if !(contains_text(line, &chars_of("bun")) || contains_text(line, &chars_of("node"))) {
        return None;
    }
    let address = chars_of("127.0.0.1:");
    proof {
        first_from_is_first(line@, address@, 0);
    }
    match find_from(line, &address, 0) {
        Some(i) => {
            let total: usize = line.len();
            let start: usize = i + address.len();
            let ghost rest = line@.skip(start as int);
            let mut digits: Vec<char> = Vec::new();
            let mut at: usize = start;
            assert(rest.skip(0) =~= rest);
            while at < total && '0' <= line[at] && line[at] <= '9'
                invariant
                    start <= at <= total,
                    total == line@.len(),
                    rest == line@.skip(start as int),
                    digits@ == rest.take(at - start),
                    digit_run(rest) == at - start + digit_run(rest.skip(at - start)),
                decreases total - at,
            {
                assert(rest.skip(at - start)[0] == line@[at as int]);
                assert(rest.skip(at - start).skip(1) =~= rest.skip(at + 1 - start));
                digits.push(line[at]);
                at += 1;
                assert(digits@ =~= rest.take(at - start));
            }
            proof {
                if at < total {
                    assert(rest.skip(at - start)[0] == line@[at as int]);
                }
            }
            parse_port(&digits)
        },
        None => None,
    }
}

/// The ports of local services, from the list of listening sockets. No port comes
/// twice.
pub fn listen_ports(text: &str) -> (r: Vec<u16>)
    ensures
        r@ == ports_of(lines_of(text@)),
        r@.no_duplicates(),
{
    let lines = split_lines(&chars_of(text));
    let ghost all = lines_of(text@);
    let mut ports: Vec<u16> = Vec::new();
    let mut i: usize = 0;
    assert(all.take(0) =~= seq![]);
    while i < lines.len()
        invariant
            i <= lines@.len(),
            all == lines@.map_values(|line: Vec<char>| line@),
            ports@ == ports_of(all.take(i as int)),
            ports@.no_duplicates(),
        decreases lines@.len() - i,
    {
        proof {
            assert(all.take(i + 1).drop_last() =~= all.take(i as int));
            assert(all.take(i + 1).last() == lines@[i as int]@);
        }
        match port_of_line(&lines[i]) {
            Some(port) => {
                if !holds(&ports, port) {
                    ports.push(port);
                }
            },
            None => {},
        }
        i += 1;
    }
    assert(all.take(i as int) =~= all);
    ports
}

fn holds(ports: &Vec<u16>, port: u16) -> (r: bool)
    ensures
        r == ports@.contains(port),
{
    let mut i: usize = 0;
    while i < ports.len()
        invariant
            i <= ports@.len(),
            forall|j: int| 0 <= j < i ==> ports@[j] != port,
        decreases ports@.len() - i,
    {
        if ports[i] == port {
            return true;
        }
        i += 1;
    }
    false
}

/// A port is found if and only if a line names it.
pub proof fn every_port_is_found(lines: Seq<Seq<char>>, port: u16)
    ensures
        ports_of(lines).contains(port) <==> exists|i: int|
            0 <= i < lines.len() && line_port(#[trigger] lines[i]) == Some(port),
    decreases lines.len(),
{
    if lines.len() > 0 {
        let fewer = lines.drop_last();
        every_port_is_found(fewer, port);
        let before = ports_of(fewer);
        if line_port(lines.last()) == Some(port) {
            assert(lines[lines.len() - 1] == lines.last());
            if !before.contains(port) {
                assert(before.push(port).last() == port);
            }
        }
        if before.contains(port) {
            let i = choose|i: int| 0 <= i < fewer.len() && line_port(#[trigger] fewer[i]) == Some(port);
            assert(lines[i] == fewer[i]);
            let k = choose|k: int| 0 <= k < before.len() && before[k] == port;
            if let Some(other) = line_port(lines.last()) {
                assert(before.push(other)[k] == port);
            }
        }
        if exists|i: int| 0 <= i < lines.len() && line_port(#[trigger] lines[i]) == Some(port) {
            let i = choose|i: int| 0 <= i < lines.len() && line_port(#[trigger] lines[i]) == Some(port);
            if i < fewer.len() {
                assert(fewer[i] == lines[i]);
            }
        }
    }
}

} // verus!
