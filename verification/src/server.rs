//! The server's state and its event step.
//!
//! The server counts its visitors, keeps the static-file requests waiting to
//! be served in a queue (requests from the local networks go first), keeps
//! the connection of each waiting request under the peer's name, and keeps
//! the contents of recently served files in a cache. Everything it decides is
//! the step `run` from one event to the next action; the I/O is left to the
//! caller, which performs the action and reports what came of it.
use vstd::prelude::*;
use vstd::string::StringSliceAdditionalSpecFns;

use crate::addr::{ip_address_text, peer_name_text, SocketAddr};
use crate::assoc::{
    distinct_keys, find_key, lemma_absent, lemma_found, lemma_lookup_none, lemma_without, lookup,
    without,
};
use crate::bytes::{is_utf8, push_bytes, starts_with, starts_with_bytes};
use crate::cache::{put_entries, LruCache};
use crate::dynamic::{dynamic_output, exec_commands, page_commands};
use crate::pages::{counter_page, error_page, http_ok, http_ok_bytes};
use crate::path::{counter_path, is_dynamic_page, normalize, request_path, resolve};

verus! {

/// How many files the cache holds.
pub const CACHE_SIZE: usize = 4;

/// A static-file request waiting in the queue.
#[derive(Debug, PartialEq, Eq)]
pub struct HttpRequest {
    /// The name of the peer, under which its connection is kept.
    pub peer_name: Vec<u8>,
    /// The file asked for.
    pub path: Vec<u8>,
}

/// The server's state.
pub struct WebServer {
    ip: Vec<u8>,
    port: u64,
    www_dir_path: Vec<u8>,
    request_queue: Vec<HttpRequest>,
    stream_map: Vec<(Vec<u8>, u64)>,
    counter: u64,
    cache: LruCache,
}

/// The server's state as values.
pub struct ServerView {
    pub ip: Seq<u8>,
    pub port: u64,
    pub www_dir: Seq<u8>,
    /// The waiting requests as (peer name, path), the next to be served first.
    pub queue: Seq<(Seq<u8>, Seq<u8>)>,
    /// The connections of waiting requests, under their peers' names.
    pub streams: Seq<(Seq<u8>, u64)>,
    /// The number of connections accepted, modulo 2^64.
    pub counter: u64,
    /// The cached files, least recently used first.
    pub cache: Seq<(Seq<u8>, Seq<u8>)>,
    pub cache_capacity: nat,
}

/// What the caller reports to the server.
pub enum ServerEvent {
    /// A connection `conn` was accepted from `peer`; `request` is what was read
    /// from it into a zero-filled buffer, and `cwd` the current directory.
    Connection { conn: u64, peer: Option<SocketAddr>, request: Vec<u8>, cwd: Vec<u8> },
    /// The file system was asked about the path of a request.
    PathChecked { conn: u64, peer: Option<SocketAddr>, path: Vec<u8>, present: bool, is_dir: bool },
    /// A dynamic page was read; `None` where it could not be opened.
    DynamicFileRead { conn: u64, contents: Option<Vec<u8>> },
    /// Every command of a dynamic page ran; `outputs` are their cleaned
    /// outputs, in order.
    CommandsRan { conn: u64, page: Vec<u8>, outputs: Vec<Vec<u8>> },
    /// The responder was told that a request was queued.
    Notified,
    /// A static file was read; `None` where it could not be opened.
    StaticFileRead { conn: u64, path: Vec<u8>, contents: Option<Vec<u8>> },
}

/// What the server asks the caller to do.
pub enum ServerAction {
    /// Write `bytes` to the connection and close it.
    Respond { conn: u64, bytes: Vec<u8> },
    /// Close the connection without a response.
    Close { conn: u64 },
    /// Ask the file system whether `path` exists and is a directory.
    CheckPath { conn: u64, peer: Option<SocketAddr>, path: Vec<u8> },
    /// Read the dynamic page at `path`.
    ReadDynamicFile { conn: u64, path: Vec<u8> },
    /// Run the commands in order, clean each output, and report them; where
    /// `stops`, close the connection after running them instead.
    RunCommands { conn: u64, page: Vec<u8>, commands: Vec<Vec<u8>>, stops: bool },
    /// A request was queued: tell the responder, and close the connection that
    /// the queued one replaced, if any.
    Enqueued { replaced: Option<u64> },
    /// Read the static file at `path` for the connection.
    ReadStaticFile { conn: u64, path: Vec<u8> },
    /// Nothing is waiting.
    Idle,
    /// The connection of a queued request is missing: the responder stops.
    Fatal { peer_name: Vec<u8> },
}

/// An event as values.
pub enum EventView {
    Connection { conn: u64, peer: Option<SocketAddr>, request: Seq<u8>, cwd: Seq<u8> },
    PathChecked { conn: u64, peer: Option<SocketAddr>, path: Seq<u8>, present: bool, is_dir: bool },
    DynamicFileRead { conn: u64, contents: Option<Seq<u8>> },
    CommandsRan { conn: u64, page: Seq<u8>, outputs: Seq<Seq<u8>> },
    Notified,
    StaticFileRead { conn: u64, path: Seq<u8>, contents: Option<Seq<u8>> },
}

/// An action as values.
pub enum ActionView {
    Respond { conn: u64, bytes: Seq<u8> },
    Close { conn: u64 },
    CheckPath { conn: u64, peer: Option<SocketAddr>, path: Seq<u8> },
    ReadDynamicFile { conn: u64, path: Seq<u8> },
    RunCommands { conn: u64, page: Seq<u8>, commands: Seq<Seq<u8>>, stops: bool },
    Enqueued { replaced: Option<u64> },
    ReadStaticFile { conn: u64, path: Seq<u8> },
    Idle,
    Fatal { peer_name: Seq<u8> },
}

/// A well-formed server state: no peer name keeps two connections, and the
/// cache holds at most `CACHE_SIZE` files, none twice.
pub open spec fn state_wf(s: ServerView) -> bool {
    &&& s.cache_capacity == CACHE_SIZE
    &&& distinct_keys(s.streams)
    &&& distinct_keys(s.cache)
    &&& s.cache.len() <= s.cache_capacity
}

/// The view of optional bytes.
pub open spec fn opt_view(o: Option<Vec<u8>>) -> Option<Seq<u8>> {
    match o {
        Some(v) => Some(v@),
        None => None,
    }
}

impl View for ServerEvent {
    type V = EventView;

    open spec fn view(&self) -> EventView {
        match self {
            ServerEvent::Connection { conn, peer, request, cwd } => EventView::Connection {
                conn: *conn,
                peer: *peer,
                request: request@,
                cwd: cwd@,
            },
            ServerEvent::PathChecked { conn, peer, path, present, is_dir } => EventView::PathChecked {
                conn: *conn,
                peer: *peer,
                path: path@,
                present: *present,
                is_dir: *is_dir,
            },
            ServerEvent::DynamicFileRead { conn, contents } => EventView::DynamicFileRead {
                conn: *conn,
                contents: opt_view(*contents),
            },
            ServerEvent::CommandsRan { conn, page, outputs } => EventView::CommandsRan {
                conn: *conn,
                page: page@,
                outputs: outputs.deep_view(),
            },
            ServerEvent::Notified => EventView::Notified,
            ServerEvent::StaticFileRead { conn, path, contents } => EventView::StaticFileRead {
                conn: *conn,
                path: path@,
                contents: opt_view(*contents),
            },
        }
    }
}

impl View for ServerAction {
    type V = ActionView;

    open spec fn view(&self) -> ActionView {
        match self {
            ServerAction::Respond { conn, bytes } => ActionView::Respond { conn: *conn, bytes: bytes@ },
            ServerAction::Close { conn } => ActionView::Close { conn: *conn },
            ServerAction::CheckPath { conn, peer, path } => ActionView::CheckPath {
                conn: *conn,
                peer: *peer,
                path: path@,
            },
            ServerAction::ReadDynamicFile { conn, path } => ActionView::ReadDynamicFile {
                conn: *conn,
                path: path@,
            },
            ServerAction::RunCommands { conn, page, commands, stops } => ActionView::RunCommands {
                conn: *conn,
                page: page@,
                commands: commands.deep_view(),
                stops: *stops,
            },
            ServerAction::Enqueued { replaced } => ActionView::Enqueued { replaced: *replaced },
            ServerAction::ReadStaticFile { conn, path } => ActionView::ReadStaticFile {
                conn: *conn,
                path: path@,
            },
            ServerAction::Idle => ActionView::Idle,
            ServerAction::Fatal { peer_name } => ActionView::Fatal { peer_name: peer_name@ },
        }
    }
}

/// The view of a queued request.
pub open spec fn request_view(r: HttpRequest) -> (Seq<u8>, Seq<u8>) {
    (r.peer_name@, r.path@)
}

impl View for WebServer {
    type V = ServerView;

    closed spec fn view(&self) -> ServerView {
        ServerView {
            ip: self.ip@,
            port: self.port,
            www_dir: self.www_dir_path@,
            queue: self.request_queue@.map_values(|r: HttpRequest| request_view(r)),
            streams: self.stream_map@.map_values(|p: (Vec<u8>, u64)| (p.0@, p.1)),
            counter: self.counter,
            cache: self.cache@,
            cache_capacity: self.cache.max_len(),
        }
    }
}

/// The addresses whose requests go to the head of the queue.
pub open spec fn local_prefix_a() -> Seq<u8> {
    "128.143.".spec_bytes()
}

/// The addresses whose requests go to the head of the queue.
pub open spec fn local_prefix_b() -> Seq<u8> {
    "137.54.".spec_bytes()
}

/// Requests from these IP addresses are served first.
pub open spec fn has_priority(ip: Seq<u8>) -> bool {
    starts_with(ip, local_prefix_a()) || starts_with(ip, local_prefix_b())
}

/// The state after the request of `peer` for `path` is queued with its
/// connection `conn`: the connection is kept under the peer's name (replacing
/// one kept there before), and the request goes to the head of the queue for
/// a peer with priority, to its end for any other.
pub open spec fn enqueued(s: ServerView, conn: u64, peer: Option<SocketAddr>, path: Seq<u8>) -> ServerView {
    let name = peer_name_text(peer);
    let req = (name, path);
    ServerView {
        streams: without(s.streams, name).push((name, conn)),
        queue: if has_priority(ip_address_text(peer)) {
            seq![req] + s.queue
        } else {
            s.queue.push(req)
        },
        ..s
    }
}

/// The state after a cached file is served: its entry becomes the most
/// recently used.
pub open spec fn cache_touched(s: ServerView, path: Seq<u8>, data: Seq<u8>) -> ServerView {
    ServerView { cache: put_entries(without(s.cache, path), s.cache_capacity, path, data), ..s }
}

/// The state after a file read from disk is put in the cache.
pub open spec fn cache_stored(s: ServerView, path: Seq<u8>, data: Seq<u8>) -> ServerView {
    ServerView { cache: put_entries(s.cache, s.cache_capacity, path, data), ..s }
}

/// The step of the server on a connection: the visitor is counted; a request
/// that is not UTF-8 text, has no path, or whose path holds a zero byte (which
/// no file path may hold) is dropped; `./` asks for the counter page; any
/// other path is resolved against `cwd` and checked.
pub open spec fn connection_step(
    s: ServerView,
    conn: u64,
    peer: Option<SocketAddr>,
    request: Seq<u8>,
    cwd: Seq<u8>,
) -> (ServerView, ActionView) {
    let s1 = ServerView { counter: vstd::wrapping::u64_specs::wrapping_add(s.counter, 1), ..s };
    let action = if !vstd::utf8::valid_utf8(request) {
        ActionView::Close { conn }
    } else {
        match request_path(request) {
            None => ActionView::Close { conn },
            Some(p) => if p.contains(0u8) {
                ActionView::Close { conn }
            } else if p == counter_path() {
                ActionView::Respond { conn, bytes: counter_page(s1.counter as nat) }
            } else {
                ActionView::CheckPath { conn, peer, path: resolve(cwd, p) }
            },
        }
    };
    (s1, action)
}

/// The step of the server once a path is checked: a missing path or a
/// directory gets the error page (the path must be UTF-8 text), a dynamic
/// page is read, and any other file is queued for the responder.
pub open spec fn path_step(
    s: ServerView,
    conn: u64,
    peer: Option<SocketAddr>,
    path: Seq<u8>,
    present: bool,
    is_dir: bool,
) -> (ServerView, ActionView) {
    if !present || is_dir {
        if vstd::utf8::valid_utf8(path) {
            (s, ActionView::Respond { conn, bytes: error_page(path) })
        } else {
            (s, ActionView::Close { conn })
        }
    } else if is_dynamic_page(path) {
        (s, ActionView::ReadDynamicFile { conn, path })
    } else {
        (
            enqueued(s, conn, peer, path),
            ActionView::Enqueued { replaced: lookup(s.streams, peer_name_text(peer)) },
        )
    }
}

/// The step of the responder when told of a queued request: the head of the
/// queue is taken with its connection; its file is served from the cache if
/// it is there, else read.
pub open spec fn notified_step(s: ServerView) -> (ServerView, ActionView) {
    if s.queue.len() == 0 {
        (s, ActionView::Idle)
    } else {
        let req = s.queue[0];
        let s1 = ServerView { queue: s.queue.drop_first(), streams: without(s.streams, req.0), ..s };
        match lookup(s.streams, req.0) {
            None => (s1, ActionView::Fatal { peer_name: req.0 }),
            Some(conn) => match lookup(s.cache, req.1) {
                Some(data) => (
                    cache_touched(s1, req.1, data),
                    ActionView::Respond { conn, bytes: http_ok() + data },
                ),
                None => (s1, ActionView::ReadStaticFile { conn, path: req.1 }),
            },
        }
    }
}

/// One step of the server: its next state and the action it asks for.
pub open spec fn step(s: ServerView, e: EventView) -> (ServerView, ActionView) {
    match e {
        EventView::Connection { conn, peer, request, cwd } => connection_step(
            s,
            conn,
            peer,
            request,
            cwd,
        ),
        EventView::PathChecked { conn, peer, path, present, is_dir } => path_step(
            s,
            conn,
            peer,
            path,
            present,
            is_dir,
        ),
        EventView::DynamicFileRead { conn, contents } => match contents {
            None => (s, ActionView::Close { conn }),
            Some(c) => if vstd::utf8::valid_utf8(c) {
                (
                    s,
                    ActionView::RunCommands {
                        conn,
                        page: c,
                        commands: page_commands(c).0,
                        stops: page_commands(c).1,
                    },
                )
            } else {
                (s, ActionView::Close { conn })
            },
        },
        EventView::CommandsRan { conn, page, outputs } => if !page_commands(page).1
            && outputs.len() == page_commands(page).0.len() {
            (
                s,
                ActionView::Respond {
                    conn,
                    bytes: http_ok() + dynamic_output(page, page_commands(page).0, outputs),
                },
            )
        } else {
            (s, ActionView::Close { conn })
        },
        EventView::Notified => notified_step(s),
        EventView::StaticFileRead { conn, path, contents } => match contents {
            None => (s, ActionView::Close { conn }),
            Some(data) => (
                cache_stored(s, path, data),
                ActionView::Respond { conn, bytes: http_ok() + data },
            ),
        },
    }
}

/// Tells whether `s` holds a zero byte.
pub fn has_zero_byte(s: &[u8]) -> (r: bool)
    ensures
        r == s@.contains(0u8),
{
    let mut i: usize = 0;
    while i < s.len()
        invariant
            i <= s@.len(),
            forall|j: int| 0 <= j < i ==> s@[j] != 0u8,
        decreases s@.len() - i,
    {
        if s[i] == 0u8 {
            assert(s@[i as int] == 0u8);
            return true;
        }
        i = i + 1;
    }
    false
}

/// What the responder takes from the queue.
pub enum Dequeued {
    /// The queue is empty.
    Empty,
    /// The head request, with its connection.
    Serve { request: HttpRequest, conn: u64 },
    /// The head request, whose connection is missing.
    MissingStream { request: HttpRequest },
}

impl WebServer {
    /// The server's invariant.
    pub open spec fn wf(&self) -> bool {
        state_wf(self@)
    }

    /// The cache's own view and invariant, read through the server's view.
    proof fn lemma_cache_view(&self)
        ensures
            self.cache.wf() == (distinct_keys(self@.cache) && self@.cache.len()
                <= self@.cache_capacity),
            self@.cache == self.cache@,
    {
    }

    /// A server for `ip` and `port` serving from the normal form of the path
    /// `www_dir`, with no visitor yet, nothing queued and nothing cached.
    pub fn new(ip: &[u8], port: u64, www_dir: &[u8]) -> (s: WebServer)
        ensures
            s.wf(),
            s@.ip == ip@,
            s@.port == port,
            s@.www_dir == normalize(www_dir@),
            s@.counter == 0,
            s@.queue == Seq::<(Seq<u8>, Seq<u8>)>::empty(),
            s@.streams == Seq::<(Seq<u8>, u64)>::empty(),
            s@.cache == Seq::<(Seq<u8>, Seq<u8>)>::empty(),
            s@.cache_capacity == CACHE_SIZE,
    {
        let mut ip_v: Vec<u8> = Vec::new();
        push_bytes(&mut ip_v, ip);
        let www_v = Self::normalize_path(www_dir);
        let s = WebServer {
            ip: ip_v,
            port,
            www_dir_path: www_v,
            request_queue: Vec::new(),
            stream_map: Vec::new(),
            counter: 0,
            cache: LruCache::new(CACHE_SIZE),
        };
        assert(s@.queue =~= Seq::<(Seq<u8>, Seq<u8>)>::empty());
        assert(s@.streams =~= Seq::<(Seq<u8>, u64)>::empty());
        assert(s@.ip =~= ip@);

        s
    }

    /// The address the server listens on.
    pub fn ip(&self) -> (r: &Vec<u8>)
        ensures
            r@ == self@.ip,
    {
        &self.ip
    }

    /// The port the server listens on.
    pub fn port(&self) -> (r: u64)
        ensures
            r == self@.port,
    {
        self.port
    }

    /// The directory the server serves from.
    pub fn www_dir(&self) -> (r: &Vec<u8>)
        ensures
            r@ == self@.www_dir,
    {
        &self.www_dir_path
    }

    /// The number of visitors counted, modulo 2^64.
    pub fn visitor_count(&self) -> (r: u64)
        ensures
            r == self@.counter,
    {
        self.counter
    }

    /// The number of requests waiting.
    pub fn queue_len(&self) -> (r: usize)
        ensures
            r == self@.queue.len(),
    {
        self.request_queue.len()
    }

    /// The number of cached files.
    pub fn cache_len(&self) -> (r: usize)
        ensures
            r == self@.cache.len(),
    {
        self.cache.len()
    }

    /// Counts one more visitor, wrapping at 2^64, and returns the new count.
    pub fn count_visitor(&mut self) -> (r: u64)
        requires
            old(self).wf(),
        ensures
            final(self).wf(),
            r == vstd::wrapping::u64_specs::wrapping_add(old(self)@.counter, 1),
            final(self)@ == (ServerView { counter: r, ..old(self)@ }),
    {
        self.counter = self.counter.wrapping_add(1);
        self.counter
    }

    /// Queues the request of `peer` for `path`, keeping its connection `conn`
    /// under the peer's name; returns the connection that was kept there
    /// before, if any.
    pub fn enqueue_static_file_request(
        &mut self,
        conn: u64,
        peer: Option<SocketAddr>,
        path: &[u8],
    ) -> (replaced: Option<u64>)
        requires
            old(self).wf(),
        ensures
            final(self).wf(),
            final(self)@ == enqueued(old(self)@, conn, peer, path@),
            replaced == lookup(old(self)@.streams, peer_name_text(peer)),
    {
        let peer_name = Self::get_peer_name(peer);
        let ip_addr = Self::get_ip_address(peer);
        let ghost s = self@;
        let ghost e = s.streams;
        let ghost name = peer_name@;
        proof {
            lemma_without(e, name);
        }
        let replaced = match find_key(&self.stream_map, peer_name.as_slice()) {
            Some(i) => {
                proof {
                    lemma_found(e, name, i as int);
                }
                let (_name, old_conn) = self.stream_map.remove(i);
                assert(self@.streams =~= e.remove(i as int));
                Some(old_conn)
            },
            None => {
                proof {
                    lemma_absent(e, name);
                }
                None
            },
        };
        let ghost w = self@.streams;
        let key = peer_name.clone();
        assert(key@ == name);
        self.stream_map.push((key, conn));
        assert(self@.streams =~= w.push((name, conn)));
        proof {
            let e1 = w.push((name, conn));
            assert forall|a: int, b: int| 0 <= a < b < e1.len() implies e1[a].0 != e1[b].0 by {
                if b == w.len() {
                    assert(w[a].0 != name);
                } else {
                    assert(e1[a] == w[a] && e1[b] == w[b]);
                }
            }
        }
        let ghost q = self@.queue;
        let mut path_v: Vec<u8> = Vec::new();
        push_bytes(&mut path_v, path);
        let req = HttpRequest { peer_name, path: path_v };
        assert(request_view(req) == (name, path@));
        let first = starts_with_bytes(ip_addr.as_slice(), "128.143.".as_bytes());
        let second = starts_with_bytes(ip_addr.as_slice(), "137.54.".as_bytes());
        if first || second {
            self.request_queue.insert(0, req);
            assert(self@.queue =~= seq![(name, path@)] + q);
        } else {
            self.request_queue.push(req);
            assert(self@.queue =~= q.push((name, path@)));
        }
        replaced
    }

    /// Takes the head of the queue and the connection kept for its peer.
    pub fn dequeue_static_file_request(&mut self) -> (d: Dequeued)
        requires
            old(self).wf(),
        ensures
            final(self).wf(),
            old(self)@.queue.len() == 0 ==> d is Empty && final(self)@ == old(self)@,
            old(self)@.queue.len() > 0 ==> {
                let req = old(self)@.queue[0];
                &&& final(self)@ == (ServerView {
                    queue: old(self)@.queue.drop_first(),
                    streams: without(old(self)@.streams, req.0),
                    ..old(self)@
                })
                &&& match d {
                    Dequeued::Empty => false,
                    Dequeued::Serve { request, conn } => request_view(request) == req && lookup(
                        old(self)@.streams,
                        req.0,
                    ) == Some(conn),
                    Dequeued::MissingStream { request } => request_view(request) == req && lookup(
                        old(self)@.streams,
                        req.0,
                    ) is None,
                }
            },
    {
        if self.request_queue.len() == 0 {
            return Dequeued::Empty;
        }
        let ghost s = self@;
        let request = self.request_queue.remove(0);
        assert(self@.queue =~= s.queue.drop_first());
        assert(request_view(request) == s.queue[0]);
        let ghost e = s.streams;
        let ghost name = request.peer_name@;
        proof {
            lemma_without(e, name);
        }
        match find_key(&self.stream_map, request.peer_name.as_slice()) {
            Some(i) => {
                proof {
                    lemma_found(e, name, i as int);
                }
                let (_name, conn) = self.stream_map.remove(i);
                assert(self@.streams =~= e.remove(i as int));
                Dequeued::Serve { request, conn }
            },
            None => {
                proof {
                    lemma_absent(e, name);
                }
                assert(self@.streams =~= e);
                Dequeued::MissingStream { request }
            },
        }
    }

    /// Serves `path` from the cache where it is there: the response is the
    /// cached contents after the success header, and the entry becomes the
    /// most recently used; `None` where the file is not cached.
    pub fn respond_with_static_file(&mut self, path: &[u8]) -> (r: Option<Vec<u8>>)
        requires
            old(self).wf(),
        ensures
            final(self).wf(),
            match lookup(old(self)@.cache, path@) {
                Some(data) => r matches Some(bytes) && bytes@ == http_ok() + data && final(self)@
                    == cache_touched(old(self)@, path@, data),
                None => r is None && final(self)@ == old(self)@,
            },
    {
        let ghost s = self@;
        proof {
            self.lemma_cache_view();
        }
        match self.cache.pop(path) {
            Some(buffer) => {
                let mut out = http_ok_bytes();
                push_bytes(&mut out, buffer.as_slice());
                let mut key: Vec<u8> = Vec::new();
                push_bytes(&mut key, path);
                assert(key@ == path@);
                self.cache.put(key, buffer);
                proof {
                    self.lemma_cache_view();
                }
                assert(self@ == cache_touched(s, path@, lookup(s.cache, path@).unwrap()));
                Some(out)
            },
            None => {
                proof {
                    lemma_lookup_none(s.cache, path@);
                    self.lemma_cache_view();
                }
                assert(self@ == s);
                None
            },
        }
    }

    /// Puts a file read from disk in the cache and returns the response that
    /// serves it.
    pub fn cache_static_file(&mut self, path: &[u8], contents: Vec<u8>) -> (r: Vec<u8>)
        requires
            old(self).wf(),
        ensures
            final(self).wf(),
            r@ == http_ok() + contents@,
            final(self)@ == cache_stored(old(self)@, path@, contents@),
    {
        let ghost s = self@;
        let mut out = http_ok_bytes();
        push_bytes(&mut out, contents.as_slice());
        let mut key: Vec<u8> = Vec::new();
        push_bytes(&mut key, path);
        proof {
            self.lemma_cache_view();
        }
        self.cache.put(key, contents);
        proof {
            self.lemma_cache_view();
        }
        out
    }

    /// One step of the server: performs the decision that `event` calls for
    /// and returns the action for the caller to carry out.
    pub fn run(&mut self, event: ServerEvent) -> (action: ServerAction)
        requires
            old(self).wf(),
        ensures
            final(self).wf(),
            (final(self)@, action@) == step(old(self)@, event@),
    {
        match event {
            ServerEvent::Connection { conn, peer, request, cwd } => {
                let count = self.count_visitor();
                if !is_utf8(request.as_slice()) {
                    return ServerAction::Close { conn };
                }
                match Self::request_path(request.as_slice()) {
                    None => ServerAction::Close { conn },
                    Some(p) => {
                        if has_zero_byte(p.as_slice()) {
                            ServerAction::Close { conn }
                        } else if p.len() == 2 && p[0] == 46u8 && p[1] == 47u8 {
                            assert(p@ =~= counter_path());
                            let bytes = Self::respond_with_counter_page(count);
                            ServerAction::Respond { conn, bytes }
                        } else {
                            assert(p@ != counter_path()) by {
                                if p@ == counter_path() {
                                    assert(p@.len() == 2 && p@[0] == 46u8 && p@[1] == 47u8);
                                }
                            }
                            let path = Self::resolve_path(cwd.as_slice(), p.as_slice());
                            ServerAction::CheckPath { conn, peer, path }
                        }
                    },
                }
            },
            ServerEvent::PathChecked { conn, peer, path, present, is_dir } => {
                if !present || is_dir {
                    if is_utf8(path.as_slice()) {
                        let bytes = Self::respond_with_error_page(path.as_slice());
                        ServerAction::Respond { conn, bytes }
                    } else {
                        ServerAction::Close { conn }
                    }
                } else if Self::is_dynamic_page(path.as_slice()) {
                    ServerAction::ReadDynamicFile { conn, path }
                } else {
                    let replaced = self.enqueue_static_file_request(conn, peer, path.as_slice());
                    ServerAction::Enqueued { replaced }
                }
            },
            ServerEvent::DynamicFileRead { conn, contents } => match contents {
                None => ServerAction::Close { conn },
                Some(c) => {
                    if !is_utf8(c.as_slice()) {
                        ServerAction::Close { conn }
                    } else {
                        let (commands, stops) = exec_commands(c.as_slice());
                        ServerAction::RunCommands { conn, page: c, commands, stops }
                    }
                },
            },
            ServerEvent::CommandsRan { conn, page, outputs } => {
                let (commands, stops) = exec_commands(page.as_slice());
                assert(commands.deep_view().len() == commands@.len());
                assert(outputs.deep_view().len() == outputs@.len());
                if !stops && outputs.len() == commands.len() {
                    let bytes = Self::respond_with_dynamic_page(page.as_slice(), &outputs);
                    ServerAction::Respond { conn, bytes }
                } else {
                    ServerAction::Close { conn }
                }
            },
            ServerEvent::Notified => match self.dequeue_static_file_request() {
                Dequeued::Empty => ServerAction::Idle,
                Dequeued::MissingStream { request } => ServerAction::Fatal {
                    peer_name: request.peer_name,
                },
                Dequeued::Serve { request, conn } => {
                    match self.respond_with_static_file(request.path.as_slice()) {
                        Some(bytes) => ServerAction::Respond { conn, bytes },
                        None => ServerAction::ReadStaticFile { conn, path: request.path },
                    }
                },
            },
            ServerEvent::StaticFileRead { conn, path, contents } => match contents {
                None => ServerAction::Close { conn },
                Some(data) => {
                    let bytes = self.cache_static_file(path.as_slice(), data);
                    ServerAction::Respond { conn, bytes }
                },
            },
        }
    }
}

} // verus!
