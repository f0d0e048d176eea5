//! Properties of the server that span several steps.
use vstd::prelude::*;
use vstd::string::StringSliceAdditionalSpecFns;

use crate::addr::{ip_address_text, peer_name_text, SocketAddr};
use crate::assoc::{
    distinct_keys, has_key, lemma_found, lemma_lookup_none, lemma_lookup_without, lemma_without,
    lemma_without_keeps, lookup, without,
};
use crate::cache::{lemma_put_then_pop, put_entries};
use crate::pages::http_ok;
use crate::pages::counter_page;
use crate::bytes::{first_index, lemma_first_index_bound, lemma_split_nonempty, split};
use crate::path::{counter_path, dotdot, is_dynamic_page, last_index, request_path, resolve};
use crate::server::{
    cache_stored, cache_touched, has_priority, state_wf, step, ActionView, EventView, ServerView,
};

verus! {

/// Every accepted connection counts one visitor (modulo 2^64) and changes
/// nothing else of the state.
pub proof fn law_connection_counts_visitor(
    s: ServerView,
    conn: u64,
    peer: Option<SocketAddr>,
    request: Seq<u8>,
    cwd: Seq<u8>,
)
    ensures
        step(s, EventView::Connection { conn, peer, request, cwd }).0 == (ServerView {
            counter: vstd::wrapping::u64_specs::wrapping_add(s.counter, 1),
            ..s
        }),
{
}

/// A file read from disk and put in the cache is found there afterwards with
/// the same contents.
pub proof fn law_read_file_is_cached(s: ServerView, conn: u64, path: Seq<u8>, data: Seq<u8>)
    requires
        state_wf(s),
    ensures
        step(s, EventView::StaticFileRead { conn, path, contents: Some(data) }).1
            == (ActionView::Respond { conn, bytes: http_ok() + data }),
        lookup(step(s, EventView::StaticFileRead { conn, path, contents: Some(data) }).0.cache, path)
            == Some(data),
{
    lemma_put_then_pop(s.cache, s.cache_capacity, path, data);
}

/// A static-file request is served on the connection it came with: on a
/// server with nothing queued, a request for an existing file that is neither
/// a directory nor a dynamic page is queued, and the next time the responder
/// is told, it takes that request with that connection, answering from the
/// cache where the file is cached and asking to read it otherwise.
pub proof fn law_queued_request_is_served_on_its_connection(
    s: ServerView,
    conn: u64,
    peer: Option<SocketAddr>,
    path: Seq<u8>,
)
    requires
        state_wf(s),
        s.queue.len() == 0,
        !is_dynamic_page(path),
    ensures
        ({
            let s1 = step(
                s,
                EventView::PathChecked { conn, peer, path, present: true, is_dir: false },
            ).0;
            let a2 = step(s1, EventView::Notified).1;
            match lookup(s.cache, path) {
                Some(data) => a2 == ActionView::Respond { conn, bytes: http_ok() + data },
                None => a2 == ActionView::ReadStaticFile { conn, path },
            }
        }),
{
    let name = peer_name_text(peer);
    lemma_without(s.streams, name);
    let w = without(s.streams, name);
    let streams1 = w.push((name, conn));
    assert(streams1.drop_last() == w);
    let s1 = step(s, EventView::PathChecked { conn, peer, path, present: true, is_dir: false }).0;
    assert(s1.streams == streams1);
    assert(s1.queue[0] == (name, path));
    assert(s1.cache == s.cache);
}

/// A request from a peer without priority joins the end of the queue, and a
/// request from a peer with priority goes to its head, to be served next.
pub proof fn law_queue_order(s: ServerView, conn: u64, peer: Option<SocketAddr>, path: Seq<u8>)
    requires
        !is_dynamic_page(path),
    ensures
        ({
            let s1 = step(
                s,
                EventView::PathChecked { conn, peer, path, present: true, is_dir: false },
            ).0;
            let req = (peer_name_text(peer), path);
            &&& has_priority(ip_address_text(peer)) ==> s1.queue == seq![req] + s.queue
            &&& !has_priority(ip_address_text(peer)) ==> s1.queue == s.queue.push(req)
        }),
{
}

/// The responder always serves the head of the queue: telling it of a queued
/// request takes the first request out and leaves the others in order.
pub proof fn law_responder_takes_head(s: ServerView)
    requires
        s.queue.len() > 0,
    ensures
        step(s, EventView::Notified).0.queue == s.queue.drop_first(),
{
}

/// A request queued under a peer name replaces the connection kept under that
/// name: the step reports the replaced connection, and only the new one is
/// kept.
pub proof fn law_stream_replaced(s: ServerView, conn: u64, peer: Option<SocketAddr>, path: Seq<u8>)
    requires
        state_wf(s),
        !is_dynamic_page(path),
    ensures
        ({
            let r = step(
                s,
                EventView::PathChecked { conn, peer, path, present: true, is_dir: false },
            );
            let name = peer_name_text(peer);
            &&& r.1 == ActionView::Enqueued { replaced: lookup(s.streams, name) }
            &&& lookup(r.0.streams, name) == Some(conn)
            &&& distinct_keys(r.0.streams)
        }),
{
    let name = peer_name_text(peer);
    lemma_without(s.streams, name);
    let w = without(s.streams, name);
    let e1 = w.push((name, conn));
    assert(e1.drop_last() == w);
    assert forall|a: int, b: int| 0 <= a < b < e1.len() implies e1[a].0 != e1[b].0 by {
        if b == w.len() {
            assert(w[a].0 != name);
        } else {
            assert(e1[a] == w[a] && e1[b] == w[b]);
        }
    }
}

/// Every step keeps the server's state well formed.
pub proof fn law_step_keeps_wf(s: ServerView, e: EventView)
    requires
        state_wf(s),
    ensures
        state_wf(step(s, e).0),
{
    match e {
        EventView::PathChecked { conn, peer, path, present, is_dir } => {
            if present && !is_dir && !is_dynamic_page(path) {
                law_stream_replaced(s, conn, peer, path);
            }
        },
        EventView::Notified => {
            if s.queue.len() > 0 {
                let req = s.queue[0];
                lemma_without(s.streams, req.0);
                lemma_without(s.cache, req.1);
                match lookup(s.cache, req.1) {
                    Some(data) => lemma_cache_put_wf(
                        without(s.cache, req.1),
                        s.cache_capacity,
                        req.1,
                        data,
                    ),
                    None => {},
                }
            }
        },
        EventView::StaticFileRead { conn, path, contents } => {
            match contents {
                Some(data) => lemma_cache_put_wf(s.cache, s.cache_capacity, path, data),
                None => {},
            }
        },
        _ => {},
    }
}

/// Putting an entry keeps a cache well formed.
proof fn lemma_cache_put_wf(e: Seq<(Seq<u8>, Seq<u8>)>, cap: nat, k: Seq<u8>, v: Seq<u8>)
    requires
        distinct_keys(e),
        e.len() <= cap,
    ensures
        distinct_keys(put_entries(e, cap, k, v)),
        put_entries(e, cap, k, v).len() <= cap,
{
    lemma_without(e, k);
    let w = without(e, k);
    let e1 = w.push((k, v));
    assert forall|a: int, b: int| 0 <= a < b < e1.len() implies e1[a].0 != e1[b].0 by {
        if b == w.len() {
            assert(w[a].0 != k);
        } else {
            assert(e1[a] == w[a] && e1[b] == w[b]);
        }
    }
    if e1.len() > cap {
        let e2 = e1.drop_first();
        assert forall|a: int, b: int| 0 <= a < b < e2.len() implies e2[a].0 != e2[b].0 by {
            assert(e2[a] == e1[a + 1] && e2[b] == e1[b + 1]);
        }
    }
}

/// The state after the events `es`, one step after the other.
pub open spec fn run_events(s: ServerView, es: Seq<EventView>) -> ServerView
    decreases es.len(),
{
    if es.len() == 0 {
        s
    } else {
        step(run_events(s, es.drop_last()), es.last()).0
    }
}

/// The number of accepted connections among the events.
pub open spec fn connections(es: Seq<EventView>) -> nat
    decreases es.len(),
{
    if es.len() == 0 {
        0
    } else {
        connections(es.drop_last()) + if es.last() is Connection {
            1nat
        } else {
            0nat
        }
    }
}

/// The counter after any run of events is the counter before it plus the
/// number of connections among them, modulo 2^64: every connection counts
/// once, whatever it asked for, and nothing else counts.
pub proof fn law_counter_counts_connections(s: ServerView, es: Seq<EventView>)
    ensures
        run_events(s, es).counter as int == (s.counter + connections(es)) % 0x1_0000_0000_0000_0000,
    decreases es.len(),
{
    if es.len() == 0 {
        assert(s.counter as int % 0x1_0000_0000_0000_0000 == s.counter);
    } else {
        let d = es.drop_last();
        law_counter_counts_connections(s, d);
        let before = run_events(s, d);
        let x = s.counter + connections(d);
        if es.last() is Connection {
            vstd::arithmetic::div_mod::lemma_add_mod_noop(x, 1, 0x1_0000_0000_0000_0000);
            assert(step(before, es.last()).0.counter == vstd::wrapping::u64_specs::wrapping_add(
                before.counter,
                1,
            ));
        } else {
            assert(step(before, es.last()).0.counter == before.counter) by {
                law_only_connections_count(before, es.last());
            }
        }
    }
}

/// Only an accepted connection changes the counter.
pub proof fn law_only_connections_count(s: ServerView, e: EventView)
    requires
        !(e is Connection),
    ensures
        step(s, e).0.counter == s.counter,
{
}

/// Until it wraps at 2^64, the counter never drops: after a run of events it
/// is at least what it was after any first part of the run.
pub proof fn law_counter_never_drops(s: ServerView, es: Seq<EventView>, i: int)
    requires
        0 <= i <= es.len(),
        s.counter + connections(es) < 0x1_0000_0000_0000_0000,
    ensures
        run_events(s, es.take(i)).counter <= run_events(s, es).counter,
        run_events(s, es).counter == s.counter + connections(es),
    decreases es.len(),
{
    law_counter_counts_connections(s, es);
    lemma_connections_prefix(es, i);
    law_counter_counts_connections(s, es.take(i));
}

/// A first part of a run has no more connections than the whole run.
proof fn lemma_connections_prefix(es: Seq<EventView>, i: int)
    requires
        0 <= i <= es.len(),
    ensures
        connections(es.take(i)) <= connections(es),
    decreases es.len(),
{
    if i < es.len() {
        assert(es.drop_last().take(i) == es.take(i));
        lemma_connections_prefix(es.drop_last(), i);
    } else {
        assert(es.take(i) == es);
    }
}

/// A cache hit neither adds nor drops a path: the entry only becomes the most
/// recently used, it is found again with the same contents, and a second hit
/// leaves the cache as the first left it.
pub proof fn law_cache_hit(c: Seq<(Seq<u8>, Seq<u8>)>, cap: nat, p: Seq<u8>, d: Seq<u8>)
    requires
        distinct_keys(c),
        c.len() <= cap,
        lookup(c, p) == Some(d),
    ensures
        ({
            let c1 = put_entries(without(c, p), cap, p, d);
            &&& c1 == without(c, p).push((p, d))
            &&& lookup(c1, p) == Some(d)
            &&& put_entries(without(c1, p), cap, p, d) == c1
            &&& forall|k: Seq<u8>| has_key(c1, k) == has_key(c, k)
        }),
{
    let i = lemma_lookup_some_index(c, p);
    lemma_found(c, p, i);
    lemma_without(c, p);
    let w = without(c, p);
    let c1 = w.push((p, d));
    assert(w.len() == c.len() - 1);
    assert(c1.drop_last() == w);
    assert forall|j: int| 0 <= j < w.len() implies w[j].0 != p by {}
    assert(without(c1, p) == w) by {
        crate::assoc::lemma_absent(w, p);
    }
    assert forall|k: Seq<u8>| has_key(c1, k) == has_key(c, k) by {
        if k == p {
            assert(c1[c1.len() - 1].0 == p);
            assert(c[i].0 == p);
        } else {
            lemma_without_keeps(c, p, k);
            if has_key(c1, k) {
                let j = choose|j: int| 0 <= j < c1.len() && c1[j].0 == k;
                assert(c1[j] == w[j]);
            }
            if has_key(w, k) {
                let j = choose|j: int| 0 <= j < w.len() && w[j].0 == k;
                assert(c1[j] == w[j]);
            }
        }
    }
}

/// Where a lookup finds an entry, it is at some index of the list.
proof fn lemma_lookup_some_index(c: Seq<(Seq<u8>, Seq<u8>)>, p: Seq<u8>) -> (i: int)
    requires
        lookup(c, p) is Some,
    ensures
        0 <= i < c.len(),
        c[i].0 == p,
    decreases c.len(),
{
    if c.last().0 == p {
        c.len() - 1
    } else {
        let i = lemma_lookup_some_index(c.drop_last(), p);
        assert(c[i] == c.drop_last()[i]);
        i
    }
}

/// A miss on a full cache drops exactly the least recently used entry and
/// adds the new one as the most recently used.
pub proof fn law_cache_miss_when_full(c: Seq<(Seq<u8>, Seq<u8>)>, cap: nat, p: Seq<u8>, d: Seq<u8>)
    requires
        distinct_keys(c),
        c.len() == cap,
        cap > 0,
        lookup(c, p) is None,
    ensures
        put_entries(c, cap, p, d) == c.drop_first().push((p, d)),
        !has_key(put_entries(c, cap, p, d), c[0].0),
        put_entries(c, cap, p, d).len() == cap,
{
    lemma_lookup_none(c, p);
    assert(c.push((p, d)).drop_first() =~= c.drop_first().push((p, d)));
    let r = c.drop_first().push((p, d));
    assert forall|j: int| 0 <= j < r.len() implies r[j].0 != c[0].0 by {
        if j < r.len() - 1 {
            assert(r[j] == c[j + 1]);
        } else {
            assert(c[0].0 != p);
        }
    }
}

/// Serving one file twice from the cache writes the same bytes both times and
/// leaves the cache as the first serve left it.
pub proof fn law_serving_twice_from_cache(s: ServerView, p: Seq<u8>, d: Seq<u8>)
    requires
        state_wf(s),
        lookup(s.cache, p) == Some(d),
    ensures
        lookup(cache_touched(s, p, d).cache, p) == Some(d),
        cache_touched(cache_touched(s, p, d), p, d) == cache_touched(s, p, d),
{
    law_cache_hit(s.cache, s.cache_capacity, p, d);
}

/// A file read from disk and then served again from the cache writes the same
/// bytes, and the second serve leaves the cache as the read left it.
pub proof fn law_read_then_hit(s: ServerView, p: Seq<u8>, d: Seq<u8>)
    requires
        state_wf(s),
    ensures
        lookup(cache_stored(s, p, d).cache, p) == Some(d),
        cache_touched(cache_stored(s, p, d), p, d) == cache_stored(s, p, d),
{
    lemma_put_then_pop(s.cache, s.cache_capacity, p, d);
    lemma_cache_put_wf(s.cache, s.cache_capacity, p, d);
    law_cache_hit(cache_stored(s, p, d).cache, s.cache_capacity, p, d);
    let c1 = cache_stored(s, p, d).cache;
    let i = lemma_lookup_some_index(c1, p);
    lemma_found(c1, p, i);
    assert(c1.last().0 == p);
    if i != c1.len() - 1 {
        assert(c1[i].0 == c1[c1.len() - 1].0);
    }
    assert(c1.remove(i) == c1.drop_last());
    assert(without(c1, p).push((p, d)) =~= c1);
}

/// Every waiting request has a distinct peer name and a connection kept
/// under it.
pub open spec fn pending_ok(s: ServerView) -> bool {
    &&& forall|i: int, j: int| 0 <= i < j < s.queue.len() ==> s.queue[i].0 != s.queue[j].0
    &&& forall|i: int| 0 <= i < s.queue.len() ==> lookup(s.streams, #[trigger] s.queue[i].0) is Some
}

/// Queuing a request from a peer with no request waiting keeps every waiting
/// request's connection, keeps the new one under the peer's name, and keeps
/// each waiting request matched with its connection.
pub proof fn law_enqueue_keeps_connections(
    s: ServerView,
    conn: u64,
    peer: Option<SocketAddr>,
    path: Seq<u8>,
)
    requires
        state_wf(s),
        pending_ok(s),
        !is_dynamic_page(path),
        forall|i: int| 0 <= i < s.queue.len() ==> s.queue[i].0 != peer_name_text(peer),
    ensures
        ({
            let s1 = step(
                s,
                EventView::PathChecked { conn, peer, path, present: true, is_dir: false },
            ).0;
            let name = peer_name_text(peer);
            &&& pending_ok(s1)
            &&& lookup(s1.streams, name) == Some(conn)
            &&& forall|k: Seq<u8>| k != name ==> lookup(s1.streams, k) == lookup(s.streams, k)
        }),
{
    let name = peer_name_text(peer);
    let w = without(s.streams, name);
    let e1 = w.push((name, conn));
    assert(e1.drop_last() == w);
    assert forall|k: Seq<u8>| k != name implies lookup(e1, k) == lookup(s.streams, k) by {
        lemma_lookup_without(s.streams, name, k);
    }
    let s1 = step(s, EventView::PathChecked { conn, peer, path, present: true, is_dir: false }).0;
    assert forall|i: int| 0 <= i < s1.queue.len() implies lookup(
        s1.streams,
        #[trigger] s1.queue[i].0,
    ) is Some by {
        let k = s1.queue[i].0;
        if k != name {
            if has_priority(crate::addr::ip_address_text(peer)) {
                assert(s1.queue[i] == s.queue[i - 1]);
            } else {
                assert(s1.queue[i] == s.queue[i]);
            }
        }
    }
    assert forall|i: int, j: int| 0 <= i < j < s1.queue.len() implies s1.queue[i].0
        != s1.queue[j].0 by {
        if has_priority(crate::addr::ip_address_text(peer)) {
            if i == 0 {
                assert(s1.queue[j] == s.queue[j - 1]);
            } else {
                assert(s1.queue[i] == s.queue[i - 1] && s1.queue[j] == s.queue[j - 1]);
            }
        } else {
            if j == s.queue.len() {
                assert(s1.queue[i] == s.queue[i]);
            } else {
                assert(s1.queue[i] == s.queue[i] && s1.queue[j] == s.queue[j]);
            }
        }
    }
}

/// The responder serves the head of the queue on the connection kept for it,
/// hands that connection out once, never stops for a missing connection, and
/// leaves every other waiting request matched with its connection.
pub proof fn law_notified_serves_head(s: ServerView)
    requires
        state_wf(s),
        pending_ok(s),
        s.queue.len() > 0,
    ensures
        ({
            let (s1, a) = step(s, EventView::Notified);
            let h = s.queue[0];
            let c = lookup(s.streams, h.0).unwrap();
            &&& match lookup(s.cache, h.1) {
                Some(d) => a == ActionView::Respond { conn: c, bytes: http_ok() + d },
                None => a == ActionView::ReadStaticFile { conn: c, path: h.1 },
            }
            &&& s1.queue == s.queue.drop_first()
            &&& lookup(s1.streams, h.0) is None
            &&& forall|k: Seq<u8>| k != h.0 ==> lookup(s1.streams, k) == lookup(s.streams, k)
            &&& pending_ok(s1)
        }),
{
    let h = s.queue[0];
    assert(lookup(s.streams, h.0) is Some);
    lemma_without(s.streams, h.0);
    let w = without(s.streams, h.0);
    assert forall|j: int| 0 <= j < w.len() implies w[j].0 != h.0 by {}
    crate::assoc::lemma_absent(w, h.0);
    assert forall|k: Seq<u8>| k != h.0 implies lookup(w, k) == lookup(s.streams, k) by {
        lemma_lookup_without(s.streams, h.0, k);
    }
    let s1 = step(s, EventView::Notified).0;
    assert(s1.streams == w);
    assert forall|i: int| 0 <= i < s1.queue.len() implies lookup(
        s1.streams,
        #[trigger] s1.queue[i].0,
    ) is Some by {
        assert(s1.queue[i] == s.queue[i + 1]);
        assert(s.queue[0].0 != s.queue[i + 1].0);
        assert(lookup(s.streams, s.queue[i + 1].0) is Some);
    }
    assert forall|i: int, j: int| 0 <= i < j < s1.queue.len() implies s1.queue[i].0
        != s1.queue[j].0 by {
        assert(s1.queue[i] == s.queue[i + 1] && s1.queue[j] == s.queue[j + 1]);
    }
}

/// A static-file request as the caller reports it once its file is found:
/// its connection, its peer and its path.
pub open spec fn request_event(r: (u64, Option<SocketAddr>, Seq<u8>)) -> EventView {
    EventView::PathChecked { conn: r.0, peer: r.1, path: r.2, present: true, is_dir: false }
}

/// The queue entry of a request.
pub open spec fn queued_request(r: (u64, Option<SocketAddr>, Seq<u8>)) -> (Seq<u8>, Seq<u8>) {
    (peer_name_text(r.1), r.2)
}

/// The request comes from a peer with priority.
pub open spec fn is_priority(r: (u64, Option<SocketAddr>, Seq<u8>)) -> bool {
    has_priority(crate::addr::ip_address_text(r.1))
}

/// The state after the requests `rs` are reported, one after the other.
pub open spec fn enqueue_all(s: ServerView, rs: Seq<(u64, Option<SocketAddr>, Seq<u8>)>) -> ServerView
    decreases rs.len(),
{
    if rs.len() == 0 {
        s
    } else {
        step(enqueue_all(s, rs.drop_last()), request_event(rs.last())).0
    }
}

/// The requests with priority, the latest first.
pub open spec fn priority_front(rs: Seq<(u64, Option<SocketAddr>, Seq<u8>)>) -> Seq<(Seq<u8>, Seq<u8>)>
    decreases rs.len(),
{
    if rs.len() == 0 {
        Seq::empty()
    } else if is_priority(rs.last()) {
        seq![queued_request(rs.last())] + priority_front(rs.drop_last())
    } else {
        priority_front(rs.drop_last())
    }
}

/// The requests without priority, in the order they came.
pub open spec fn others_back(rs: Seq<(u64, Option<SocketAddr>, Seq<u8>)>) -> Seq<(Seq<u8>, Seq<u8>)>
    decreases rs.len(),
{
    if rs.len() == 0 {
        Seq::empty()
    } else if is_priority(rs.last()) {
        others_back(rs.drop_last())
    } else {
        others_back(rs.drop_last()).push(queued_request(rs.last()))
    }
}

/// After `k` static-file requests are queued, none is lost or doubled: the
/// queue holds the requests with priority (the latest first), then what was
/// queued before, then the other requests in the order they came; each step
/// asks the caller to tell the responder once; and where the peers' names
/// differ, each request's connection is kept under its peer's name while the
/// connections of other names stay as they were.
pub proof fn law_k_enqueues(s: ServerView, rs: Seq<(u64, Option<SocketAddr>, Seq<u8>)>)
    requires
        forall|i: int| 0 <= i < rs.len() ==> !is_dynamic_page(#[trigger] rs[i].2),
    ensures
        enqueue_all(s, rs).queue == priority_front(rs) + s.queue + others_back(rs),
        forall|i: int|
            0 <= i < rs.len() ==> step(enqueue_all(s, rs.take(i)), request_event(#[trigger] rs[i])).1
                is Enqueued,
        (forall|i: int, j: int|
            0 <= i < j < rs.len() ==> peer_name_text(rs[i].1) != peer_name_text(rs[j].1)) ==> forall|
            i: int,
        |
            0 <= i < rs.len() ==> lookup(enqueue_all(s, rs).streams, peer_name_text(#[trigger] rs[i].1))
                == Some(rs[i].0),
        forall|k: Seq<u8>|
            (forall|i: int| 0 <= i < rs.len() ==> peer_name_text(#[trigger] rs[i].1) != k) ==> lookup(
                enqueue_all(s, rs).streams,
                k,
            ) == lookup(s.streams, k),
    decreases rs.len(),
{
    if rs.len() > 0 {
        let d = rs.drop_last();
        let r = rs.last();
        let n = rs.len() - 1;
        assert forall|i: int| 0 <= i < d.len() implies !is_dynamic_page(#[trigger] d[i].2) by {
            assert(d[i] == rs[i]);
        }
        law_k_enqueues(s, d);
        let t = enqueue_all(s, d);
        let name = peer_name_text(r.1);
        let w = without(t.streams, name);
        let e1 = w.push((name, r.0));
        assert(rs[n] == r);
        assert(enqueue_all(s, rs).streams == e1);
        assert(e1.drop_last() == w);
        if is_priority(r) {
            assert(enqueue_all(s, rs).queue =~= priority_front(rs) + s.queue + others_back(rs));
        } else {
            assert(enqueue_all(s, rs).queue =~= priority_front(rs) + s.queue + others_back(rs));
        }
        assert forall|i: int| 0 <= i < rs.len() implies step(
            enqueue_all(s, rs.take(i)),
            request_event(#[trigger] rs[i]),
        ).1 is Enqueued by {
            assert(!is_dynamic_page(rs[i].2));
        }
        if forall|i: int, j: int|
            0 <= i < j < rs.len() ==> peer_name_text(rs[i].1) != peer_name_text(rs[j].1) {
            assert forall|i: int| 0 <= i < rs.len() implies lookup(
                enqueue_all(s, rs).streams,
                peer_name_text(#[trigger] rs[i].1),
            ) == Some(rs[i].0) by {
                if i < n {
                    assert(d[i] == rs[i]);
                    assert(peer_name_text(rs[i].1) != name);
                    lemma_lookup_without(t.streams, name, peer_name_text(rs[i].1));
                    assert forall|a: int, b: int|
                        0 <= a < b < d.len() implies peer_name_text(d[a].1) != peer_name_text(
                        d[b].1,
                    ) by {
                        assert(d[a] == rs[a] && d[b] == rs[b]);
                    }
                }
            }
        }
        assert forall|k: Seq<u8>|
            (forall|i: int| 0 <= i < rs.len() ==> peer_name_text(#[trigger] rs[i].1) != k) implies lookup(
            enqueue_all(s, rs).streams,
            k,
        ) == lookup(s.streams, k) by {
            assert(peer_name_text(rs[n].1) != k);
            assert forall|i: int| 0 <= i < d.len() implies peer_name_text(#[trigger] d[i].1) != k by {
                assert(d[i] == rs[i]);
                assert(peer_name_text(rs[i].1) != k);
            }
            lemma_lookup_without(t.streams, name, k);
        }
    }
}

/// The state and the actions after the responder is told `k` times.
pub open spec fn serve_all(s: ServerView, k: nat) -> (ServerView, Seq<ActionView>)
    decreases k,
{
    if k == 0 {
        (s, Seq::empty())
    } else {
        let (s1, a) = step(s, EventView::Notified);
        let r = serve_all(s1, (k - 1) as nat);
        (r.0, seq![a] + r.1)
    }
}

/// The action serves the file `path` on the connection `conn`: from the cache,
/// or by asking for the file to be read.
pub open spec fn serves(a: ActionView, conn: u64, path: Seq<u8>) -> bool {
    match a {
        ActionView::Respond { conn: c, .. } => c == conn,
        ActionView::ReadStaticFile { conn: c, path: p } => c == conn && p == path,
        _ => false,
    }
}

/// Telling the responder never gives back a connection that is not kept.
proof fn lemma_serve_keeps_none(s: ServerView, k: nat, n: Seq<u8>)
    requires
        lookup(s.streams, n) is None,
    ensures
        lookup(serve_all(s, k).0.streams, n) is None,
    decreases k,
{
    if k > 0 {
        let s1 = step(s, EventView::Notified).0;
        if s.queue.len() > 0 {
            let h = s.queue[0].0;
            if n == h {
                lemma_without(s.streams, h);
                let w = without(s.streams, h);
                assert forall|j: int| 0 <= j < w.len() implies w[j].0 != h by {}
                crate::assoc::lemma_absent(w, h);
            } else {
                lemma_lookup_without(s.streams, h, n);
            }
        }
        lemma_serve_keeps_none(s1, (k - 1) as nat, n);
    }
}

/// Every waiting request is served exactly once, in queue order, each on the
/// connection kept for it: telling the responder once per waiting request
/// serves the `i`-th request at the `i`-th telling, empties the queue, hands
/// out every one of their connections, and a further telling finds nothing.
pub proof fn law_queue_served_in_order(s: ServerView)
    requires
        state_wf(s),
        pending_ok(s),
    ensures
        ({
            let k = s.queue.len();
            let (s2, acts) = serve_all(s, k);
            &&& acts.len() == k
            &&& forall|i: int|
                0 <= i < k ==> serves(
                    #[trigger] acts[i],
                    lookup(s.streams, s.queue[i].0).unwrap(),
                    s.queue[i].1,
                )
            &&& s2.queue.len() == 0
            &&& forall|i: int| 0 <= i < k ==> lookup(s2.streams, #[trigger] s.queue[i].0) is None
            &&& step(s2, EventView::Notified).1 == ActionView::Idle
        }),
    decreases s.queue.len(),
{
    let k = s.queue.len();
    if k > 0 {
        law_notified_serves_head(s);
        law_step_keeps_wf(s, EventView::Notified);
        let (s1, a) = step(s, EventView::Notified);
        law_queue_served_in_order(s1);
        let r = serve_all(s1, (k - 1) as nat);
        let acts = seq![a] + r.1;
        let h = s.queue[0];
        assert(s1.queue.len() == k - 1);
        assert(serve_all(s, k) == (r.0, acts));
        assert forall|i: int| 0 <= i < k implies serves(
            #[trigger] acts[i],
            lookup(s.streams, s.queue[i].0).unwrap(),
            s.queue[i].1,
        ) by {
            if i > 0 {
                assert(acts[i] == r.1[i - 1]);
                assert(s1.queue[i - 1] == s.queue[i]);
                assert(s.queue[i].0 != h.0);
            }
        }
        assert forall|i: int| 0 <= i < k implies lookup(r.0.streams, #[trigger] s.queue[i].0) is None by {
            if i == 0 {
                lemma_serve_keeps_none(s1, (k - 1) as nat, h.0);
            } else {
                assert(s1.queue[i - 1] == s.queue[i]);
            }
        }
    }
}

/// Every entry that the queued requests add comes from one of them.
proof fn lemma_queued_from(rs: Seq<(u64, Option<SocketAddr>, Seq<u8>)>)
    ensures
        forall|x: int| 0 <= x < priority_front(rs).len() ==> exists|j: int|
            0 <= j < rs.len() && #[trigger] priority_front(rs)[x] == queued_request(rs[j]),
        forall|x: int| 0 <= x < others_back(rs).len() ==> exists|j: int|
            0 <= j < rs.len() && #[trigger] others_back(rs)[x] == queued_request(rs[j]),
    decreases rs.len(),
{
    if rs.len() > 0 {
        let d = rs.drop_last();
        let n = rs.len() - 1;
        lemma_queued_from(d);
        assert forall|x: int| 0 <= x < priority_front(rs).len() implies exists|j: int|
            0 <= j < rs.len() && #[trigger] priority_front(rs)[x] == queued_request(rs[j]) by {
            if is_priority(rs.last()) && x == 0 {
                assert(priority_front(rs)[x] == queued_request(rs[n]));
            } else {
                let y = if is_priority(rs.last()) { x - 1 } else { x };
                assert(priority_front(rs)[x] == priority_front(d)[y]);
                let j = choose|j: int| 0 <= j < d.len() && priority_front(d)[y] == queued_request(d[j]);
                assert(d[j] == rs[j]);
            }
        }
        assert forall|x: int| 0 <= x < others_back(rs).len() implies exists|j: int|
            0 <= j < rs.len() && #[trigger] others_back(rs)[x] == queued_request(rs[j]) by {
            if !is_priority(rs.last()) && x == others_back(rs).len() - 1 {
                assert(others_back(rs)[x] == queued_request(rs[n]));
            } else {
                assert(others_back(rs)[x] == others_back(d)[x]);
                let j = choose|j: int| 0 <= j < d.len() && others_back(d)[x] == queued_request(d[j]);
                assert(d[j] == rs[j]);
            }
        }
    }
}

/// Queuing requests from peers with distinct names, none of which has a
/// request waiting, keeps every waiting request matched with its connection,
/// so that `law_queue_served_in_order` then serves each of them once.
pub proof fn law_k_enqueues_keep_pending(s: ServerView, rs: Seq<(u64, Option<SocketAddr>, Seq<u8>)>)
    requires
        state_wf(s),
        pending_ok(s),
        forall|i: int| 0 <= i < rs.len() ==> !is_dynamic_page(#[trigger] rs[i].2),
        forall|i: int, j: int|
            0 <= i < j < rs.len() ==> peer_name_text(rs[i].1) != peer_name_text(rs[j].1),
        forall|i: int, q: int|
            0 <= i < rs.len() && 0 <= q < s.queue.len() ==> peer_name_text(rs[i].1) != s.queue[q].0,
    ensures
        state_wf(enqueue_all(s, rs)),
        pending_ok(enqueue_all(s, rs)),
    decreases rs.len(),
{
    if rs.len() > 0 {
        let d = rs.drop_last();
        let n = rs.len() - 1;
        let r = rs.last();
        assert(rs[n] == r);
        assert forall|i: int| 0 <= i < d.len() implies !is_dynamic_page(#[trigger] d[i].2) by {
            assert(d[i] == rs[i]);
        }
        assert forall|i: int, j: int| 0 <= i < j < d.len() implies peer_name_text(d[i].1)
            != peer_name_text(d[j].1) by {
            assert(d[i] == rs[i] && d[j] == rs[j]);
        }
        assert forall|i: int, q: int| 0 <= i < d.len() && 0 <= q < s.queue.len() implies peer_name_text(
            d[i].1,
        ) != s.queue[q].0 by {
            assert(d[i] == rs[i]);
        }
        law_k_enqueues_keep_pending(s, d);
        law_k_enqueues(s, d);
        lemma_queued_from(d);
        let t = enqueue_all(s, d);
        let name = peer_name_text(r.1);
        let pf = priority_front(d);
        let ob = others_back(d);
        assert(t.queue == pf + s.queue + ob);
        assert forall|i: int| 0 <= i < t.queue.len() implies t.queue[i].0 != name by {
            if i < pf.len() {
                assert(t.queue[i] == pf[i]);
                let j = choose|j: int| 0 <= j < d.len() && pf[i] == queued_request(d[j]);
                assert(d[j] == rs[j]);
            } else if i < pf.len() + s.queue.len() {
                assert(t.queue[i] == s.queue[i - pf.len()]);
            } else {
                let x = i - pf.len() - s.queue.len();
                assert(t.queue[i] == ob[x]);
                let j = choose|j: int| 0 <= j < d.len() && ob[x] == queued_request(d[j]);
                assert(d[j] == rs[j]);
            }
        }
        law_enqueue_keeps_connections(t, r.0, r.1, r.2);
        law_step_keeps_wf(t, request_event(r));
    }
}

/// In a list without repeated keys, dropping the oldest entry leaves the
/// lookup of every other key as it was.
proof fn lemma_lookup_drop_first(e: Seq<(Seq<u8>, Seq<u8>)>, k: Seq<u8>)
    requires
        distinct_keys(e),
        e.len() > 0,
        k != e[0].0,
    ensures
        lookup(e.drop_first(), k) == lookup(e, k),
        distinct_keys(e.drop_first()),
{
    let f = e.drop_first();
    assert forall|a: int, b: int| 0 <= a < b < f.len() implies f[a].0 != f[b].0 by {
        assert(f[a] == e[a + 1] && f[b] == e[b + 1]);
    }
    if has_key(e, k) {
        let i = choose|i: int| 0 <= i < e.len() && e[i].0 == k;
        lemma_found(e, k, i);
        assert(f[i - 1] == e[i]);
        lemma_found(f, k, i - 1);
    } else {
        assert forall|j: int| 0 <= j < e.len() implies e[j].0 != k by {}
        crate::assoc::lemma_absent(e, k);
        assert forall|j: int| 0 <= j < f.len() implies f[j].0 != k by {
            assert(f[j] == e[j + 1]);
        }
        crate::assoc::lemma_absent(f, k);
    }
}

/// A new newest entry leaves the lookup of every other key as it was.
proof fn lemma_lookup_push(e: Seq<(Seq<u8>, Seq<u8>)>, k: Seq<u8>, v: Seq<u8>, k2: Seq<u8>)
    ensures
        k2 != k ==> lookup(e.push((k, v)), k2) == lookup(e, k2),
        lookup(e.push((k, v)), k) == Some(v),
{
    assert(e.push((k, v)).drop_last() == e);
}

/// Storing a path that is already cached replaces only its contents: every
/// other cached path keeps its contents, nothing is dropped, and the number
/// of cached paths stays the same.
pub proof fn law_put_existing_key_drops_nothing(
    e: Seq<(Seq<u8>, Seq<u8>)>,
    cap: nat,
    k: Seq<u8>,
    v: Seq<u8>,
)
    requires
        distinct_keys(e),
        e.len() <= cap,
        has_key(e, k),
    ensures
        lookup(put_entries(e, cap, k, v), k) == Some(v),
        forall|k2: Seq<u8>| k2 != k ==> lookup(put_entries(e, cap, k, v), k2) == lookup(e, k2),
        put_entries(e, cap, k, v).len() == e.len(),
{
    let i = choose|i: int| 0 <= i < e.len() && e[i].0 == k;
    lemma_found(e, k, i);
    let w = without(e, k);
    assert(w.len() == e.len() - 1);
    assert forall|k2: Seq<u8>| k2 != k implies lookup(put_entries(e, cap, k, v), k2) == lookup(
        e,
        k2,
    ) by {
        lemma_lookup_push(w, k, v, k2);
        lemma_lookup_without(e, k, k2);
    }
    lemma_lookup_push(w, k, v, k);
}

/// Storing a new path keeps every cached path while there is room; only on a
/// cache holding its full number of paths is one dropped, and then it is the
/// least recently used one.
pub proof fn law_put_new_key_drops_only_when_full(
    e: Seq<(Seq<u8>, Seq<u8>)>,
    cap: nat,
    k: Seq<u8>,
    v: Seq<u8>,
)
    requires
        distinct_keys(e),
        e.len() <= cap,
        cap > 0,
        !has_key(e, k),
    ensures
        lookup(put_entries(e, cap, k, v), k) == Some(v),
        e.len() < cap ==> put_entries(e, cap, k, v).len() == e.len() + 1,
        e.len() < cap ==> forall|k2: Seq<u8>|
            k2 != k ==> lookup(put_entries(e, cap, k, v), k2) == lookup(e, k2),
        e.len() == cap ==> put_entries(e, cap, k, v).len() == e.len(),
        e.len() == cap ==> lookup(put_entries(e, cap, k, v), e[0].0) is None,
        e.len() == cap ==> forall|k2: Seq<u8>|
            k2 != k && k2 != e[0].0 ==> lookup(put_entries(e, cap, k, v), k2) == lookup(e, k2),
{
    assert forall|j: int| 0 <= j < e.len() implies e[j].0 != k by {}
    crate::assoc::lemma_absent(e, k);
    let e1 = e.push((k, v));
    lemma_lookup_push(e, k, v, k);
    assert forall|k2: Seq<u8>| k2 != k implies lookup(e1, k2) == lookup(e, k2) by {
        lemma_lookup_push(e, k, v, k2);
    }
    if e.len() == cap {
        assert(distinct_keys(e1)) by {
            assert forall|a: int, b: int| 0 <= a < b < e1.len() implies e1[a].0 != e1[b].0 by {
                if b == e.len() {
                    assert(e1[a] == e[a]);
                } else {
                    assert(e1[a] == e[a] && e1[b] == e[b]);
                }
            }
        }
        assert(e1[0] == e[0]);
        assert(e[0].0 != k);
        lemma_lookup_drop_first(e1, k);
        assert forall|k2: Seq<u8>| k2 != k && k2 != e[0].0 implies lookup(
            put_entries(e, cap, k, v),
            k2,
        ) == lookup(e, k2) by {
            lemma_lookup_drop_first(e1, k2);
        }
        let f = e1.drop_first();
        assert forall|j: int| 0 <= j < f.len() implies f[j].0 != e[0].0 by {
            assert(f[j] == e1[j + 1]);
            if j + 1 < e.len() {
                assert(e1[j + 1] == e[j + 1]);
            }
        }
        crate::assoc::lemma_absent(f, e[0].0);
    }
}

/// A request goes to the head of the queue exactly when the text of its
/// peer's IP address begins with `128.143.` or with `137.54.`; any other
/// request, such as one from `66.128.143.20`, goes to the end.
pub proof fn law_priority_is_a_prefix_test(
    s: ServerView,
    conn: u64,
    peer: Option<SocketAddr>,
    path: Seq<u8>,
)
    requires
        !is_dynamic_page(path),
    ensures
        ({
            let ip = ip_address_text(peer);
            let local = (exists|t: Seq<u8>| ip == "128.143.".spec_bytes() + t) || (exists|t: Seq<u8>|
                ip == "137.54.".spec_bytes() + t);
            let q = step(
                s,
                EventView::PathChecked { conn, peer, path, present: true, is_dir: false },
            ).0.queue;
            let req = (peer_name_text(peer), path);
            &&& local ==> q == seq![req] + s.queue
            &&& !local ==> q == s.queue.push(req)
        }),
{
    let ip = ip_address_text(peer);
    lemma_prefix_concat(ip, "128.143.".spec_bytes());
    lemma_prefix_concat(ip, "137.54.".spec_bytes());
}

/// `s` begins with `p` exactly when `s` is `p` followed by something.
pub proof fn lemma_prefix_concat(s: Seq<u8>, p: Seq<u8>)
    ensures
        crate::bytes::starts_with(s, p) == exists|t: Seq<u8>| s == p + t,
{
    if crate::bytes::starts_with(s, p) {
        assert(s =~= p + s.skip(p.len() as int));
    }
    if exists|t: Seq<u8>| s == p + t {
        let t = choose|t: Seq<u8>| s == p + t;
        assert(s.subrange(0, p.len() as int) =~= p);
    }
}

/// Only the path `./` gets the counter page: a connection answered with the
/// counter page asked for `./`, and a connection whose UTF-8 request asks
/// for any other path without a zero byte is resolved against the current
/// directory and checked.
pub proof fn law_counter_page_only_for_root(
    s: ServerView,
    conn: u64,
    peer: Option<SocketAddr>,
    request: Seq<u8>,
    cwd: Seq<u8>,
)
    ensures
        ({
            let a = step(s, EventView::Connection { conn, peer, request, cwd }).1;
            &&& a is Respond ==> request_path(request) == Some(seq![46u8, 47u8])
            &&& (vstd::utf8::valid_utf8(request) && request_path(request) == Some(
                seq![46u8, 47u8],
            )) ==> a == ActionView::Respond {
                conn,
                bytes: counter_page(vstd::wrapping::u64_specs::wrapping_add(s.counter, 1) as nat),
            }
            &&& forall|p: Seq<u8>|
                vstd::utf8::valid_utf8(request) && request_path(request) == Some(p) && !p.contains(
                    0u8,
                ) && p != seq![46u8, 47u8] ==> a == ActionView::CheckPath {
                    conn,
                    peer,
                    path: resolve(cwd, p),
                }
        }),
{
    assert(counter_path() =~= seq![46u8, 47u8]);
    if request_path(request) == Some(seq![46u8, 47u8]) {
        assert(!seq![46u8, 47u8].contains(0u8)) by {
            let z = seq![46u8, 47u8];
            if z.contains(0u8) {
                let i = choose|i: int| 0 <= i < z.len() && z[i] == 0u8;
            }
        }
    }
}

/// The last piece of a split is what follows some part of the text.
proof fn lemma_split_last_suffix(s: Seq<u8>, d: u8)
    ensures
        exists|a: Seq<u8>| s == a + split(s, d).last(),
    decreases s.len(),
{
    lemma_first_index_bound(s, d);
    match first_index(s, d) {
        Some(f) => {
            let r = s.skip(f + 1 as int);
            lemma_split_last_suffix(r, d);
            lemma_split_nonempty(r, d);
            let a1 = choose|a: Seq<u8>| r == a + split(r, d).last();
            assert(split(s, d).last() == split(r, d).last());
            assert(s =~= s.take(f + 1 as int) + r);
            assert(s =~= (s.take(f + 1 as int) + a1) + split(r, d).last());
            assert(s == (s.take(f + 1 as int) + a1) + split(s, d).last());
        },
        None => {
            assert(split(s, d) == seq![s]);
            assert(split(s, d).last() == s);
            assert(s =~= Seq::<u8>::empty() + s);
            assert(s == Seq::<u8>::empty() + split(s, d).last());
        },
    }
}

/// After a separator, the last piece of a split is the last piece of what
/// follows that separator.
proof fn lemma_split_last_after(s: Seq<u8>, d: u8, i: int)
    requires
        0 <= i < s.len(),
        s[i] == d,
    ensures
        split(s, d).last() == split(s.skip(i + 1), d).last(),
    decreases s.len(),
{
    lemma_first_index_bound(s, d);
    let f = first_index(s, d).unwrap() as int;
    let r = s.skip(f + 1);
    lemma_split_nonempty(r, d);
    assert(split(s, d).last() == split(r, d).last());
    if f < i {
        assert(r[i - f - 1] == s[i]);
        lemma_split_last_after(r, d, i - f - 1);
        assert(r.skip(i - f) == s.skip(i + 1));
    } else {
        assert(f == i);
    }
}

/// Bytes without `d` after some text do not move its last `d`.
proof fn lemma_last_index_append(x: Seq<u8>, y: Seq<u8>, d: u8)
    requires
        !y.contains(d),
    ensures
        last_index(x + y, d) == last_index(x, d),
    decreases y.len(),
{
    if y.len() > 0 {
        assert(y.last() != d) by {
            assert(y[y.len() - 1] == y.last());
        }
        assert(!y.drop_last().contains(d)) by {
            if y.drop_last().contains(d) {
                let j = choose|j: int| 0 <= j < y.drop_last().len() && y.drop_last()[j] == d;
                assert(y[j] == d);
            }
        }
        lemma_last_index_append(x, y.drop_last(), d);
        assert((x + y).drop_last() =~= x + y.drop_last());
    } else {
        assert(x + y =~= x);
    }
}

/// A found last index points at `d`.
proof fn lemma_last_index_bound(s: Seq<u8>, d: u8)
    ensures
        last_index(s, d) matches Some(i) ==> i < s.len() && s[i as int] == d,
    decreases s.len(),
{
    if s.len() > 0 && s.last() != d {
        lemma_last_index_bound(s.drop_last(), d);
    }
}

/// A path names a dynamic page only where it ends with `.shtml`, so that
/// `/srv/www/report.shtml.bak` is not one; every path whose last component is
/// a non-empty name followed by `.shtml` is one; and a last component that is
/// just `.shtml` (a hidden file with no extension) is not.
pub proof fn law_dynamic_pages_end_with_shtml(p: Seq<u8>, a: Seq<u8>, b: Seq<u8>)
    ensures
        is_dynamic_page(p) ==> exists|x: Seq<u8>| p == x + seq![46u8] + "shtml".spec_bytes(),
        (b.len() > 0 && !b.contains(47u8)) ==> is_dynamic_page(
            a + seq![47u8] + b + seq![46u8] + "shtml".spec_bytes(),
        ),
        !is_dynamic_page(a + seq![47u8] + seq![46u8] + "shtml".spec_bytes()),
{
    reveal_strlit("shtml");
    broadcast use vstd::string::group_string_axioms;

    assert(vstd::string::is_ascii("shtml"));
    let sh = "shtml".spec_bytes();
    assert(sh =~= seq![115u8, 104u8, 116u8, 109u8, 108u8]);
    if is_dynamic_page(p) {
        let name = split(p, 47u8).last();
        lemma_split_last_suffix(p, 47u8);
        let x0 = choose|x: Seq<u8>| p == x + split(p, 47u8).last();
        let i = last_index(name, 46u8).unwrap() as int;
        lemma_last_index_bound(name, 46u8);
        assert(name =~= name.take(i) + seq![46u8] + name.skip(i + 1));
        assert(p =~= (x0 + name.take(i)) + seq![46u8] + sh);
    }
    if b.len() > 0 && !b.contains(47u8) {
        let n = b + seq![46u8] + sh;
        let q = a + seq![47u8] + n;
        assert(q =~= a + seq![47u8] + b + seq![46u8] + sh);
        assert(q[a.len() as int] == 47u8);
        lemma_split_last_after(q, 47u8, a.len() as int);
        assert(q.skip(a.len() + 1 as int) =~= n);
        assert forall|j: int| 0 <= j < n.len() implies n[j] != 47u8 by {
            if j < b.len() {
                assert(n[j] == b[j]);
                if b[j] == 47u8 {
                    assert(b.contains(47u8));
                }
            }
        }
        crate::bytes::lemma_first_index(n, 47u8, n.len() as int);
        assert(split(n, 47u8) == seq![n]);
        assert(!sh.contains(46u8)) by {
            if sh.contains(46u8) {
                let j = choose|j: int| 0 <= j < sh.len() && sh[j] == 46u8;
            }
        }
        lemma_last_index_append(b + seq![46u8], sh, 46u8);
        assert((b + seq![46u8]).last() == 46u8);
        assert(last_index(n, 46u8) == Some(b.len()));
        assert(n.skip(b.len() + 1 as int) =~= sh);
        assert(n != dotdot()) by {
            assert(n.len() > 2);
        }
    }
    let n = seq![46u8] + sh;
    let q = a + seq![47u8] + n;
    assert(q =~= a + seq![47u8] + seq![46u8] + sh);
    assert(q[a.len() as int] == 47u8);
    lemma_split_last_after(q, 47u8, a.len() as int);
    assert(q.skip(a.len() + 1 as int) =~= n);
    crate::bytes::lemma_first_index(n, 47u8, n.len() as int);
    assert(split(n, 47u8) == seq![n]);
    assert(!sh.contains(46u8)) by {
        if sh.contains(46u8) {
            let j = choose|j: int| 0 <= j < sh.len() && sh[j] == 46u8;
        }
    }
    lemma_last_index_append(seq![46u8], sh, 46u8);
    assert(last_index(seq![46u8], 46u8) == Some(0nat));
}

} // verus!
