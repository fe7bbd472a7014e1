# pulse

A verified library that keeps the books on the usage of a language model: it aggregates an
append-only log into buckets and days, reads the live rate limits of local services, and
decides which messages of a service go into the log.

## Layout

- `src/` is the library. Verus proves its functions, all but the few that call outside code.
  - `num`, `text`, `calendar`, `clock`: doubles by their bit pattern, plain text, dates, time.
  - `usage`, `buckets`, `snapshot`, `days`, `exact`: the log, what it comes to, and what holds
    of that where sums are exact.
  - `url`, `http`, `ports`, `json`: addresses, requests and responses, listening ports, JSON.
  - `ratelimit`, `poll`: a reading of the rate limits, and a poll of the services for one.
  - `search`, `sessions`, `messages`, `log`, `importer`: an import of usage from a service.
- `tests/` runs the library on concrete values.
- `app/` is the desktop program around it: the window, the network, the disk, the writing of
  lines as JSON, and the addition and subtraction of doubles, which it hands to the library.

## What is taken on trust

Verus believes the contracts of the functions that call outside code, and does not prove
them. `json` states what `serde_json` does when it parses a text and when a value is looked
into; `clock` states that what is made of a time of the clock depends on that time alone, and
states nothing of which time it is. Each such function says so in its comment.
