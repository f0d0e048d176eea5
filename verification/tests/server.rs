use lib::addr::{IpAddr, SocketAddr};
use lib::cache::LruCache;
use lib::server::{Dequeued, ServerAction, ServerEvent, WebServer, CACHE_SIZE};

const OK: &[u8] = b"HTTP/1.1 200 OK\r\nContent-Type: text/html; charset=UTF-8\r\n\r\n";

fn peer(a: u8, b: u8, c: u8, d: u8, port: u16) -> Option<SocketAddr> {
    Some(SocketAddr { ip: IpAddr::Ipv4Addr(a, b, c, d), port })
}

fn server() -> WebServer {
    WebServer::new(b"127.0.0.1", 4414, b"./www")
}

fn ok_with(body: &[u8]) -> Vec<u8> {
    let mut v = OK.to_vec();
    v.extend_from_slice(body);
    v
}

fn connect(s: &mut WebServer, conn: u64, request: &[u8]) -> ServerAction {
    let mut buf = request.to_vec();
    buf.resize(500, 0);
    s.run(ServerEvent::Connection { conn, peer: peer(10, 0, 0, 1, 5000), request: buf, cwd: b"/srv/www".to_vec() })
}

fn checked(s: &mut WebServer, conn: u64, p: Option<SocketAddr>, path: &[u8]) -> ServerAction {
    s.run(ServerEvent::PathChecked { conn, peer: p, path: path.to_vec(), present: true, is_dir: false })
}

#[test]
fn new_server_is_empty() {
    let s = server();
    assert_eq!(s.visitor_count(), 0);
    assert_eq!(s.queue_len(), 0);
    assert_eq!(s.cache_len(), 0);
    assert_eq!(s.ip(), &b"127.0.0.1".to_vec());
    assert_eq!(s.port(), 4414);
    assert_eq!(s.www_dir(), &b"www".to_vec());
    assert_eq!(CACHE_SIZE, 4);
}

#[test]
fn counter_page_counts_every_connection() {
    let mut s = server();
    match connect(&mut s, 1, b"GET / HTTP/1.1") {
        ServerAction::Respond { conn, bytes } => {
            assert_eq!(conn, 1);
            assert_eq!(bytes, WebServer::respond_with_counter_page(1));
        }
        _ => panic!("expected the counter page"),
    }
    assert!(matches!(connect(&mut s, 2, b"GET"), ServerAction::Close { conn: 2 }));
    match connect(&mut s, 3, b"GET / HTTP/1.1") {
        ServerAction::Respond { bytes, .. } => assert_eq!(bytes, WebServer::respond_with_counter_page(3)),
        _ => panic!("expected the counter page"),
    }
    assert_eq!(s.visitor_count(), 3);
}

#[test]
fn counter_wraps_around() {
    let mut s = server();
    for _ in 0..3 {
        s.count_visitor();
    }
    assert_eq!(s.visitor_count(), 3);
}

#[test]
fn request_that_is_not_utf8_is_dropped() {
    let mut s = server();
    let a = connect(&mut s, 7, &[0x47, 0x20, 0xff, 0x20, 0x48]);
    assert!(matches!(a, ServerAction::Close { conn: 7 }));
    assert_eq!(s.visitor_count(), 1);
}

#[test]
fn file_request_is_resolved_and_checked() {
    let mut s = server();
    match connect(&mut s, 4, b"GET /docs/../a.html HTTP/1.1\r\n") {
        ServerAction::CheckPath { conn, peer: p, path } => {
            assert_eq!(conn, 4);
            assert_eq!(p, peer(10, 0, 0, 1, 5000));
            assert_eq!(path, b"/srv/www/a.html".to_vec());
        }
        _ => panic!("expected a path check"),
    }
}

#[test]
fn missing_file_or_directory_gets_the_error_page() {
    let mut s = server();
    for (present, is_dir) in [(false, false), (true, true)] {
        let a = s.run(ServerEvent::PathChecked {
            conn: 9,
            peer: None,
            path: b"/srv/www/x".to_vec(),
            present,
            is_dir,
        });
        match a {
            ServerAction::Respond { conn, bytes } => {
                assert_eq!(conn, 9);
                assert_eq!(bytes, b"HTTP/1.1 404 Not Found\r\n\r\nCannot open: /srv/www/x".to_vec());
            }
            _ => panic!("expected the error page"),
        }
    }
    let a = s.run(ServerEvent::PathChecked { conn: 9, peer: None, path: vec![0xff], present: false, is_dir: false });
    assert!(matches!(a, ServerAction::Close { conn: 9 }));
}

#[test]
fn shtml_file_is_read_as_dynamic_page() {
    let mut s = server();
    match checked(&mut s, 5, None, b"/srv/www/time.shtml") {
        ServerAction::ReadDynamicFile { conn, path } => {
            assert_eq!(conn, 5);
            assert_eq!(path, b"/srv/www/time.shtml".to_vec());
        }
        _ => panic!("expected a dynamic page"),
    }
    assert_eq!(s.queue_len(), 0);
}

#[test]
fn dynamic_page_steps() {
    let mut s = server();
    let page = b"<html><!--#exec cmd=\"date\" --></html>".to_vec();
    assert!(matches!(s.run(ServerEvent::DynamicFileRead { conn: 1, contents: None }), ServerAction::Close { conn: 1 }));
    assert!(matches!(
        s.run(ServerEvent::DynamicFileRead { conn: 1, contents: Some(vec![0xc3]) }),
        ServerAction::Close { conn: 1 }
    ));
    match s.run(ServerEvent::DynamicFileRead { conn: 1, contents: Some(page.clone()) }) {
        ServerAction::RunCommands { conn, page: p, commands, stops } => {
            assert_eq!(conn, 1);
            assert_eq!(p, page);
            assert_eq!(commands, vec![b"date".to_vec()]);
            assert!(!stops);
        }
        _ => panic!("expected commands to run"),
    }
    match s.run(ServerEvent::CommandsRan { conn: 1, page: page.clone(), outputs: vec![b"Mon".to_vec()] }) {
        ServerAction::Respond { conn, bytes } => {
            assert_eq!(conn, 1);
            assert_eq!(bytes, ok_with(b"<html>Mon</html>"));
        }
        _ => panic!("expected the page"),
    }
    assert!(matches!(
        s.run(ServerEvent::CommandsRan { conn: 1, page, outputs: Vec::new() }),
        ServerAction::Close { conn: 1 }
    ));
}

#[test]
fn malformed_dynamic_page_stops_after_its_commands() {
    let mut s = server();
    let page = b"<!--#exec cmd=\"ls\" --><!--#exec cmd=".to_vec();
    match s.run(ServerEvent::DynamicFileRead { conn: 2, contents: Some(page.clone()) }) {
        ServerAction::RunCommands { commands, stops, .. } => {
            assert_eq!(commands, vec![b"ls".to_vec()]);
            assert!(stops);
        }
        _ => panic!("expected commands to run"),
    }
    assert!(matches!(
        s.run(ServerEvent::CommandsRan { conn: 2, page, outputs: vec![b"x".to_vec()] }),
        ServerAction::Close { conn: 2 }
    ));
}

#[test]
fn static_file_is_queued_then_read_then_cached() {
    let mut s = server();
    let p = peer(10, 0, 0, 1, 5000);
    assert!(matches!(checked(&mut s, 11, p, b"/srv/www/a.html"), ServerAction::Enqueued { replaced: None }));
    assert_eq!(s.queue_len(), 1);
    match s.run(ServerEvent::Notified) {
        ServerAction::ReadStaticFile { conn, path } => {
            assert_eq!(conn, 11);
            assert_eq!(path, b"/srv/www/a.html".to_vec());
        }
        _ => panic!("expected a file read"),
    }
    let read = ServerEvent::StaticFileRead { conn: 11, path: b"/srv/www/a.html".to_vec(), contents: Some(b"<p>a</p>".to_vec()) };
    match s.run(read) {
        ServerAction::Respond { conn, bytes } => {
            assert_eq!(conn, 11);
            assert_eq!(bytes, ok_with(b"<p>a</p>"));
        }
        _ => panic!("expected the file"),
    }
    assert_eq!(s.cache_len(), 1);
    assert!(matches!(checked(&mut s, 12, peer(10, 0, 0, 2, 6000), b"/srv/www/a.html"), ServerAction::Enqueued { replaced: None }));
    match s.run(ServerEvent::Notified) {
        ServerAction::Respond { conn, bytes } => {
            assert_eq!(conn, 12);
            assert_eq!(bytes, ok_with(b"<p>a</p>"));
        }
        _ => panic!("expected the cached file"),
    }
    assert_eq!(s.queue_len(), 0);
}

#[test]
fn unreadable_static_file_closes_the_connection() {
    let mut s = server();
    let a = s.run(ServerEvent::StaticFileRead { conn: 3, path: b"/x".to_vec(), contents: None });
    assert!(matches!(a, ServerAction::Close { conn: 3 }));
    assert_eq!(s.cache_len(), 0);
}

#[test]
fn local_network_requests_are_served_first() {
    let mut s = server();
    checked(&mut s, 21, peer(10, 0, 0, 1, 1000), b"/srv/www/a");
    checked(&mut s, 22, peer(10, 0, 0, 2, 1000), b"/srv/www/b");
    checked(&mut s, 23, peer(128, 143, 7, 7, 1000), b"/srv/www/c");
    checked(&mut s, 24, peer(137, 54, 1, 1, 1000), b"/srv/www/d");
    let mut order = Vec::new();
    for _ in 0..4 {
        match s.run(ServerEvent::Notified) {
            ServerAction::ReadStaticFile { conn, .. } => order.push(conn),
            _ => panic!("expected a file read"),
        }
    }
    assert_eq!(order, vec![24, 23, 21, 22]);
    assert!(matches!(s.run(ServerEvent::Notified), ServerAction::Idle));
}

#[test]
fn same_peer_replaces_its_connection() {
    let mut s = server();
    let p = peer(10, 0, 0, 9, 4000);
    assert!(matches!(checked(&mut s, 31, p, b"/srv/www/a"), ServerAction::Enqueued { replaced: None }));
    assert!(matches!(checked(&mut s, 32, p, b"/srv/www/b"), ServerAction::Enqueued { replaced: Some(31) }));
    match s.run(ServerEvent::Notified) {
        ServerAction::ReadStaticFile { conn, path } => {
            assert_eq!(conn, 32);
            assert_eq!(path, b"/srv/www/a".to_vec());
        }
        _ => panic!("expected a file read"),
    }
    match s.run(ServerEvent::Notified) {
        ServerAction::Fatal { peer_name } => assert_eq!(peer_name, b"10.0.0.9:4000".to_vec()),
        _ => panic!("expected the responder to stop"),
    }
}

#[test]
fn enqueue_and_dequeue_directly() {
    let mut s = server();
    assert!(matches!(s.dequeue_static_file_request(), Dequeued::Empty));
    assert_eq!(s.enqueue_static_file_request(41, peer(1, 2, 3, 4, 5), b"/f"), None);
    match s.dequeue_static_file_request() {
        Dequeued::Serve { request, conn } => {
            assert_eq!(conn, 41);
            assert_eq!(request.peer_name, b"1.2.3.4:5".to_vec());
            assert_eq!(request.path, b"/f".to_vec());
        }
        _ => panic!("expected a request"),
    }
}

#[test]
fn static_file_cache_hit_and_miss() {
    let mut s = server();
    assert_eq!(s.respond_with_static_file(b"/f"), None);
    assert_eq!(s.cache_static_file(b"/f", b"data".to_vec()), ok_with(b"data"));
    assert_eq!(s.respond_with_static_file(b"/f"), Some(ok_with(b"data")));
    assert_eq!(s.cache_len(), 1);
}

#[test]
fn cache_evicts_least_recently_used() {
    let mut c = LruCache::new(2);
    c.put(b"a".to_vec(), b"1".to_vec());
    c.put(b"b".to_vec(), b"2".to_vec());
    c.put(b"a".to_vec(), b"3".to_vec());
    c.put(b"c".to_vec(), b"4".to_vec());
    assert_eq!(c.len(), 2);
    assert_eq!(c.capacity(), 2);
    assert_eq!(c.pop(b"b"), None);
    assert_eq!(c.pop(b"a"), Some(b"3".to_vec()));
    assert_eq!(c.pop(b"c"), Some(b"4".to_vec()));
    assert_eq!(c.len(), 0);
}

#[test]
fn cache_of_server_holds_four_files() {
    let mut s = server();
    for name in [b"/1", b"/2", b"/3", b"/4", b"/5"] {
        s.cache_static_file(name, name.to_vec());
    }
    assert_eq!(s.cache_len(), 4);
    assert_eq!(s.respond_with_static_file(b"/1"), None);
    assert_eq!(s.respond_with_static_file(b"/5"), Some(ok_with(b"/5")));
}

#[test]
fn zero_capacity_cache_keeps_nothing() {
    let mut c = LruCache::new(0);
    c.put(b"a".to_vec(), b"1".to_vec());
    assert_eq!(c.len(), 0);
    assert_eq!(c.pop(b"a"), None);
}

#[test]
fn served_directory_is_normalized() {
    assert_eq!(WebServer::new(b"127.0.0.1", 1, b"./no_such_dir").www_dir(), &b"no_such_dir".to_vec());
    assert_eq!(WebServer::new(b"127.0.0.1", 1, b"/srv/./www/").www_dir(), &b"/srv/www".to_vec());
}

#[test]
fn two_hits_write_the_same_bytes_and_keep_the_cache() {
    let mut s = server();
    s.cache_static_file(b"/a", b"A".to_vec());
    s.cache_static_file(b"/b", b"B".to_vec());
    let first = s.respond_with_static_file(b"/a");
    let second = s.respond_with_static_file(b"/a");
    assert_eq!(first, Some(ok_with(b"A")));
    assert_eq!(first, second);
    assert_eq!(s.cache_len(), 2);
    assert_eq!(s.respond_with_static_file(b"/b"), Some(ok_with(b"B")));
}

#[test]
fn every_queued_request_is_served_once_on_its_connection() {
    let mut s = server();
    for (i, conn) in [51u64, 52, 53].iter().enumerate() {
        let path = format!("/srv/www/{}", i);
        checked(&mut s, *conn, peer(10, 0, 0, i as u8, 7000), path.as_bytes());
    }
    for (i, expected) in [51u64, 52, 53].iter().enumerate() {
        match s.run(ServerEvent::Notified) {
            ServerAction::ReadStaticFile { conn, path } => {
                assert_eq!(conn, *expected);
                assert_eq!(path, format!("/srv/www/{}", i).into_bytes());
            }
            _ => panic!("expected a file read"),
        }
    }
    assert!(matches!(s.run(ServerEvent::Notified), ServerAction::Idle));
}

#[test]
fn path_with_zero_byte_is_dropped() {
    let mut s = server();
    let a = connect(&mut s, 8, b"GET /a\0b HTTP/1.1");
    assert!(matches!(a, ServerAction::Close { conn: 8 }));
    assert_eq!(s.visitor_count(), 1);
}
