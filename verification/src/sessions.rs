//! The sessions of a local service, and which of them to look at.
use crate::json::{
    as_items, bytes_tree, inner, items_of, json_tree, member, member_in, member_of, number,
    number_in, parse_bytes, text, text_in, text_of, trees, Json,
};
use crate::num::Num;
use crate::usage::{known_or_zero, or_zero};
use vstd::prelude::*;
use vstd::string::*;

verus! {

/// Sessions that the first import scans.
pub const FIRST_SCAN: usize = 12;

/// Sessions that a later import scans.
pub const LATER_SCAN: usize = 3;

// ---------------------------------------------------------------- newest first

/// Whether the item at `a` comes before the item at `b` when the newest come first: it is
/// newer, or as new and earlier in the list.
pub open spec fn is_before(keys: Seq<Num>, a: int, b: int) -> bool {
    keys[a].place() > keys[b].place() || (keys[a].place() == keys[b].place() && a < b)
}

/// Whether `order` lists the places of all keys with the newest first. Keys that are the
/// same stay in the order they came in.
pub open spec fn is_newest_first(order: Seq<usize>, keys: Seq<Num>) -> bool {
    &&& order.len() == keys.len()
    &&& forall|i: int| 0 <= i < order.len() ==> (#[trigger] order[i]) < keys.len()
    &&& forall|i: int, j: int|
        0 <= i < j < order.len() ==> is_before(
            keys,
            #[trigger] order[i] as int,
            #[trigger] order[j] as int,
        )
}

/// Lists the places of the keys with the newest first.
pub fn newest_first(keys: &Vec<Num>) -> (r: Vec<usize>)
    requires
        forall|i: int| 0 <= i < keys@.len() ==> !(#[trigger] keys@[i]).is_nan_spec(),
    ensures
        is_newest_first(r@, keys@),
{
    let mut order: Vec<usize> = Vec::new();
    let mut n: usize = 0;
    while n < keys.len()
        invariant
            n <= keys@.len(),
            order@.len() == n,
            forall|i: int| 0 <= i < keys@.len() ==> !(#[trigger] keys@[i]).is_nan_spec(),
            forall|i: int| 0 <= i < n ==> (#[trigger] order@[i]) < n,
            forall|i: int, j: int|
                0 <= i < j < n ==> is_before(
                    keys@,
                    #[trigger] order@[i] as int,
                    #[trigger] order@[j] as int,
                ),
        decreases keys@.len() - n,
    {
        let mut slot: usize = n;
        while slot > 0 && keys[n].above(keys[order[slot - 1]])
            invariant
                slot <= n < keys@.len(),
                order@.len() == n,
                forall|i: int| 0 <= i < keys@.len() ==> !(#[trigger] keys@[i]).is_nan_spec(),
                forall|i: int| 0 <= i < n ==> (#[trigger] order@[i]) < n,
                forall|i: int|
                    slot <= i < n ==> is_before(keys@, n as int, #[trigger] order@[i] as int),
            decreases slot,
        {
            slot -= 1;
        }
        let ghost before = order@;
        order.insert(slot, n);
        proof {
            assert forall|i: int, j: int| 0 <= i < j < n + 1 implies is_before(
                keys@,
                #[trigger] order@[i] as int,
                #[trigger] order@[j] as int,
            ) by {
                let a = if i < slot {
                    i
                } else {
                    i - 1
                };
                let b = if j < slot {
                    j
                } else {
                    j - 1
                };
                if i != slot {
                    assert(order@[i] == before[a]);
                }
                if j != slot {
                    assert(order@[j] == before[b]);
                }
                if j == slot && i < slot - 1 {
                    assert(is_before(keys@, before[i] as int, before[slot - 1] as int));
                }
            }
        }
        n += 1;
    }
    order
}

/// There is only one order with the newest first.
pub proof fn newest_first_is_unique(a: Seq<usize>, b: Seq<usize>, keys: Seq<Num>)
    requires
        is_newest_first(a, keys),
        is_newest_first(b, keys),
    ensures
        a == b,
{
    lemma_same_order(a, b, keys, 0);
    assert(a =~= b);
}

/// An order with the newest first lists every place.
pub proof fn lemma_order_is_complete(order: Seq<usize>, keys: Seq<Num>, place: int)
    requires
        is_newest_first(order, keys),
        0 <= place < keys.len(),
    ensures
        exists|i: int| 0 <= i < order.len() && #[trigger] order[i] == place,
{
    let places = order.map_values(|p: usize| p as int);
    assert(places.no_duplicates()) by {
        assert forall|i: int, j: int|
            0 <= i < places.len() && 0 <= j < places.len() && i != j implies places[i] != places[j] by {
            if i < j {
                assert(is_before(keys, order[i] as int, order[j] as int));
            } else {
                assert(is_before(keys, order[j] as int, order[i] as int));
            }
        }
    }
    let range = vstd::set_lib::set_int_range(0, keys.len() as int);
    vstd::set_lib::lemma_int_range(0, keys.len() as int);
    places.unique_seq_to_set();
    assert(places.to_set().subset_of(range)) by {
        assert forall|p: int| places.to_set().contains(p) implies range.contains(p) by {
            let i = choose|i: int| 0 <= i < places.len() && places[i] == p;
            assert(order[i] < keys.len());
        }
    }
    vstd::set_lib::lemma_subset_equality(places.to_set(), range);
    assert(range.contains(place));
    let i = choose|i: int| 0 <= i < places.len() && places[i] == place;
    assert(order[i] == place);
}

proof fn lemma_same_order(a: Seq<usize>, b: Seq<usize>, keys: Seq<Num>, k: int)
    requires
        is_newest_first(a, keys),
        is_newest_first(b, keys),
        0 <= k <= a.len(),
        forall|i: int| 0 <= i < k ==> #[trigger] a[i] == b[i],
    ensures
        forall|i: int| 0 <= i < a.len() ==> #[trigger] a[i] == b[i],
    decreases a.len() - k,
{
    if k < a.len() {
        lemma_order_is_complete(b, keys, a[k] as int);
        lemma_order_is_complete(a, keys, b[k] as int);
        let p = choose|i: int| 0 <= i < b.len() && #[trigger] b[i] == a[k] as int;
        let q = choose|i: int| 0 <= i < a.len() && #[trigger] a[i] == b[k] as int;
        if p < k {
            assert(a[p] == b[p]);
            assert(is_before(keys, a[p] as int, a[k] as int));
        }
        if q < k {
            assert(a[q] == b[q]);
            assert(is_before(keys, b[q] as int, b[k] as int));
        }
        if p > k && q > k {
            assert(is_before(keys, b[k] as int, b[p] as int));
            assert(is_before(keys, a[k] as int, a[q] as int));
        }
        assert(a[k] == b[k]);
        lemma_same_order(a, b, keys, k + 1);
    }
}

// ---------------------------------------------------------------- sessions

/// A session: when it was last changed, and its id.
#[derive(Debug)]
pub struct SessionEntry {
    pub updated: Num,
    pub id: Option<String>,
}

/// When a session was last changed; the epoch where it does not say.
pub open spec fn session_time(j: Json) -> Num {
    or_zero(number_in(member_in(member_of(j, "time"@), "updated"@)))
}

/// The id of a session.
pub open spec fn session_id(j: Json) -> Option<Seq<char>> {
    text_in(member_of(j, "id"@))
}

pub open spec fn times_of(entries: Seq<SessionEntry>) -> Seq<Num> {
    entries.map_values(|e: SessionEntry| e.updated)
}

pub open spec fn ids_of(entries: Seq<SessionEntry>) -> Seq<Option<Seq<char>>> {
    entries.map_values(|e: SessionEntry| text_of(e.id))
}

/// The texts of a list.
pub open spec fn texts(list: Seq<String>) -> Seq<Seq<char>> {
    list.map_values(|s: String| s@)
}

/// The ids at the given places, where there are any.
pub open spec fn ids_at(ids: Seq<Option<Seq<char>>>, places: Seq<usize>) -> Seq<Seq<char>>
    decreases places.len(),
{
    if places.len() == 0 {
        seq![]
    } else {
        match ids[places.last() as int] {
            Some(id) => ids_at(ids, places.drop_last()).push(id),
            None => ids_at(ids, places.drop_last()),
        }
    }
}

/// The first places of an order, up to a limit.
pub open spec fn first_places(order: Seq<usize>, limit: int) -> Seq<usize> {
    if order.len() <= limit {
        order
    } else {
        order.take(limit)
    }
}

/// Whether `list` holds the ids of the newest sessions, the newest first. A session
/// without an id counts for the limit.
pub open spec fn are_newest(
    list: Seq<Seq<char>>,
    times: Seq<Num>,
    ids: Seq<Option<Seq<char>>>,
    limit: int,
) -> bool {
    exists|order: Seq<usize>|
        {
            &&& #[trigger] is_newest_first(order, times)
            &&& list == ids_at(ids, first_places(order, limit))
        }
}

/// The ids of the newest sessions, the newest first.
pub fn newest_sessions(entries: &Vec<SessionEntry>, limit: usize) -> (r: Vec<String>)
    requires
        forall|i: int| 0 <= i < entries@.len() ==> !(#[trigger] entries@[i]).updated.is_nan_spec(),
    ensures
        are_newest(texts(r@), times_of(entries@), ids_of(entries@), limit as int),
{
    let mut keys: Vec<Num> = Vec::new();
    let mut i: usize = 0;
    while i < entries.len()
        invariant
            i <= entries@.len(),
            keys@ == times_of(entries@).take(i as int),
            forall|i: int|
                0 <= i < entries@.len() ==> !(#[trigger] entries@[i]).updated.is_nan_spec(),
            forall|k: int| 0 <= k < keys@.len() ==> !(#[trigger] keys@[k]).is_nan_spec(),
        decreases entries@.len() - i,
    {
        assert(!entries@[i as int].updated.is_nan_spec());
        keys.push(entries[i].updated);
        i += 1;
        assert(keys@ =~= times_of(entries@).take(i as int));
    }
    assert(keys@ =~= times_of(entries@));
    let order: Vec<usize> = newest_first(&keys);
    let count: usize = if order.len() <= limit {
        order.len()
    } else {
        limit
    };
    let ghost places = first_places(order@, limit as int);
    assert(order@.take(count as int) =~= places);
    let mut r: Vec<String> = Vec::new();
    let mut k: usize = 0;
    assert(texts(r@) =~= ids_at(ids_of(entries@), places.take(0)));
    while k < count
        invariant
            k <= count <= order@.len(),
            places == order@.take(count as int),
            is_newest_first(order@, times_of(entries@)),
            texts(r@) == ids_at(ids_of(entries@), places.take(k as int)),
        decreases count - k,
    {
        assert(order@[k as int] < times_of(entries@).len());
        let entry: &SessionEntry = &entries[order[k]];
        proof {
            assert(places.take(k + 1).drop_last() =~= places.take(k as int));
            assert(places.take(k + 1).last() == order@[k as int]);
            assert(ids_of(entries@)[order@[k as int] as int] == text_of(entry.id));
        }
        let ghost before = r@;
        if let Some(id) = &entry.id {
            r.push(id.clone());
            assert(texts(r@) =~= texts(before).push(id@));
        }
        k += 1;
    }
    assert(places.take(k as int) =~= places);
    r
}

/// Reads a session.
pub fn session_entry(v: &serde_json::Value) -> (r: SessionEntry)
    ensures
        r.updated == session_time(json_tree(*v)),
        text_of(r.id) == session_id(json_tree(*v)),
        !r.updated.is_nan_spec(),
{
    SessionEntry {
        updated: known_or_zero(number(inner(member(v, "time"), "updated"))),
        id: text(member(v, "id")),
    }
}

pub open spec fn session_times(items: Seq<Json>) -> Seq<Num> {
    items.map_values(|j: Json| session_time(j))
}

pub open spec fn session_ids(items: Seq<Json>) -> Seq<Option<Seq<char>>> {
    items.map_values(|j: Json| session_id(j))
}

/// The items of the array that bytes write in JSON; nothing where they write none.
pub open spec fn items_in(bytes: Seq<u8>) -> Option<Seq<Json>> {
    match bytes_tree(bytes) {
        Some(j) => items_of(j),
        None => None,
    }
}

/// How many sessions are scanned.
pub open spec fn scan_limit(first_run: bool) -> int {
    if first_run {
        FIRST_SCAN as int
    } else {
        LATER_SCAN as int
    }
}

/// The ids of the sessions to scan, from a service's list of its sessions: the newest
/// few, and more of them in the first run. Nothing comes of a list that is no JSON array.
pub fn sessions_to_scan(body: &Vec<u8>, first_run: bool) -> (r: Option<Vec<String>>)
    ensures
        match (items_in(body@), r) {
            (Some(items), Some(list)) => are_newest(
                texts(list@),
                session_times(items),
                session_ids(items),
                scan_limit(first_run),
            ),
            (None, None) => true,
            _ => false,
        },
{
    let sessions = match parse_bytes(body.as_slice()) {
        Some(sessions) => sessions,
        None => {
            return None;
        },
    };
    let items = match as_items(&sessions) {
        Some(items) => items,
        None => {
            return None;
        },
    };
    let ghost trees_of = trees(items@);
    let mut entries: Vec<SessionEntry> = Vec::new();
    let mut i: usize = 0;
    while i < items.len()
        invariant
            i <= items@.len(),
            entries@.len() == i,
            trees_of == trees(items@),
            forall|k: int|
                0 <= k < i ==> !(#[trigger] entries@[k]).updated.is_nan_spec()
                    && entries@[k].updated == session_time(trees_of[k]) && text_of(entries@[k].id)
                    == session_id(trees_of[k]),
        decreases items@.len() - i,
    {
        entries.push(session_entry(&items[i]));
        i += 1;
    }
    assert(times_of(entries@) =~= session_times(trees_of));
    assert(ids_of(entries@) =~= session_ids(trees_of));
    let limit: usize = if first_run {
        FIRST_SCAN
    } else {
        LATER_SCAN
    };
    Some(newest_sessions(&entries, limit))
}

/// There is only one list of the newest sessions.
pub proof fn newest_sessions_are_unique(
    a: Seq<Seq<char>>,
    b: Seq<Seq<char>>,
    times: Seq<Num>,
    ids: Seq<Option<Seq<char>>>,
    limit: int,
)
    requires
        are_newest(a, times, ids, limit),
        are_newest(b, times, ids, limit),
    ensures
        a == b,
{
    let p = choose|order: Seq<usize>|
        {
            &&& #[trigger] is_newest_first(order, times)
            &&& a == ids_at(ids, first_places(order, limit))
        };
    let q = choose|order: Seq<usize>|
        {
            &&& #[trigger] is_newest_first(order, times)
            &&& b == ids_at(ids, first_places(order, limit))
        };
    newest_first_is_unique(p, q, times);
}

} // verus!
