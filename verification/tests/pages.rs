use lib::addr::{IpAddr, SocketAddr};
use lib::dynamic::{exec_commands, tag_command_of};
use lib::pages::{banner, default_ip_bytes, default_www_bytes, http_ok_bytes, usage};
use lib::server::WebServer;

const OK: &[u8] = b"HTTP/1.1 200 OK\r\nContent-Type: text/html; charset=UTF-8\r\n\r\n";

fn counter_page(count: &str) -> Vec<u8> {
    let mut v = OK.to_vec();
    v.extend_from_slice(b"<doctype !html><html><head><title>Hello, Rust!</title>\n             <style>body { background-color: #884414; color: #FFEEAA}\n                    h1 { font-size:2cm; text-align: center; color: black; text-shadow: 0 0 4mm red }\n                    h2 { font-size:2cm; text-align: center; color: black; text-shadow: 0 0 4mm green }\n             </style></head>\n             <body>");
    v.extend_from_slice(b"<h1>Greetings, Krusty!</h1>\n                     <h2>Visitor count: ");
    v.extend_from_slice(count.as_bytes());
    v.extend_from_slice(b"</h2></body></html>\r\n");
    v
}

#[test]
fn error_page_names_the_path() {
    let page = WebServer::respond_with_error_page(b"/srv/www/missing.html");
    assert_eq!(page, b"HTTP/1.1 404 Not Found\r\n\r\nCannot open: /srv/www/missing.html".to_vec());
}

#[test]
fn counter_page_shows_the_count() {
    assert_eq!(WebServer::respond_with_counter_page(1), counter_page("1"));
    assert_eq!(WebServer::respond_with_counter_page(120), counter_page("120"));
}

#[test]
fn fixed_texts() {
    assert_eq!(http_ok_bytes(), OK.to_vec());
    assert_eq!(default_ip_bytes(), b"127.0.0.1".to_vec());
    assert_eq!(default_www_bytes(), b"./www".to_vec());
}

#[test]
fn usage_text_names_the_program() {
    let expected = b"Usage: zhtta [options]\n--ip     \tIP address, \"127.0.0.1\" by default.\n--port   \tport number, \"4414\" by default.\n--www    \tworking directory, \"./www\" by default\n-h --help \tUsage\n";
    assert_eq!(usage(b"zhtta"), expected.to_vec());
}

#[test]
fn banner_names_address_and_directory() {
    let addr = SocketAddr { ip: IpAddr::Ipv4Addr(127, 0, 0, 1), port: 4414 };
    assert_eq!(
        banner(addr, b"./www"),
        b"Zhtta Version 0.5 listening on 127.0.0.1:4414 (serving from: ./www).".to_vec()
    );
}

#[test]
fn request_path_is_second_word() {
    assert_eq!(WebServer::request_path(b"GET /index.html HTTP/1.1\r\n"), Some(b"./index.html".to_vec()));
    assert_eq!(WebServer::request_path(b"GET / HTTP/1.1"), Some(b"./".to_vec()));
    assert_eq!(WebServer::request_path(b"GET  x"), Some(b".".to_vec()));
    let mut padded = b"GET /a b c d".to_vec();
    padded.resize(500, 0);
    assert_eq!(WebServer::request_path(&padded), Some(b"./a".to_vec()));
}

#[test]
fn request_without_three_words_has_no_path() {
    assert_eq!(WebServer::request_path(b"GET /index.html"), None);
    assert_eq!(WebServer::request_path(b"GET"), None);
    assert_eq!(WebServer::request_path(&[0u8; 500]), None);
}

#[test]
fn normalize_drops_dots_and_empty_components() {
    assert_eq!(WebServer::normalize_path(b"/home/www/./a/../b.html"), b"/home/www/b.html".to_vec());
    assert_eq!(WebServer::normalize_path(b"/a//b/"), b"/a/b".to_vec());
    assert_eq!(WebServer::normalize_path(b"/.."), b"/".to_vec());
    assert_eq!(WebServer::normalize_path(b"/"), b"/".to_vec());
}

#[test]
fn normalize_relative_paths() {
    assert_eq!(WebServer::normalize_path(b"a/../../b"), b"../b".to_vec());
    assert_eq!(WebServer::normalize_path(b"./"), b".".to_vec());
    assert_eq!(WebServer::normalize_path(b""), b".".to_vec());
    assert_eq!(WebServer::normalize_path(b"../.."), b"../..".to_vec());
}

#[test]
fn resolve_against_current_directory() {
    assert_eq!(WebServer::resolve_path(b"/srv/www", b"./index.html"), b"/srv/www/index.html".to_vec());
    assert_eq!(WebServer::resolve_path(b"/srv/www", b"./../secret"), b"/srv/secret".to_vec());
    assert_eq!(WebServer::resolve_path(b"/srv/www/", b"./"), b"/srv/www".to_vec());
    assert_eq!(WebServer::resolve_path(b"/srv", b"/etc/x"), b"/etc/x".to_vec());
    assert_eq!(WebServer::resolve_path(b"/srv", b""), b"/srv".to_vec());
}

#[test]
fn extension_of_last_component() {
    assert_eq!(WebServer::extension_of(b"/srv/www/page.shtml"), Some(b"shtml".to_vec()));
    assert_eq!(WebServer::extension_of(b"/srv/www/archive.tar.gz"), Some(b"gz".to_vec()));
    assert_eq!(WebServer::extension_of(b"/srv/www/dir."), Some(Vec::new()));
    assert_eq!(WebServer::extension_of(b"/srv/www/.hidden"), None);
    assert_eq!(WebServer::extension_of(b"/srv/www/plain"), None);
    assert_eq!(WebServer::extension_of(b"/"), None);
    assert_eq!(WebServer::extension_of(b"a/.."), None);
}

#[test]
fn dynamic_pages_by_extension() {
    assert!(WebServer::is_dynamic_page(b"/srv/www/index.shtml"));
    assert!(!WebServer::is_dynamic_page(b"/srv/www/index.html"));
    assert!(!WebServer::is_dynamic_page(b"/srv/www/shtml"));
}

#[test]
fn command_of_an_exec_tag() {
    assert_eq!(tag_command_of(b"!--#exec cmd=\"date\" -->"), Some(b"date".to_vec()));
    assert_eq!(tag_command_of(b"!--#exec cmd=\"\"\" -->"), Some(Vec::new()));
    assert_eq!(tag_command_of(b"!--#exec cmd="), None);
    assert_eq!(tag_command_of(b"!--#exec cmd=\""), None);
}

#[test]
fn commands_of_a_page() {
    let page = b"<html><!--#exec cmd=\"date\" --><p>x</p><!--#exec cmd=\"ls\" --></html>";
    assert_eq!(exec_commands(page), (vec![b"date".to_vec(), b"ls".to_vec()], false));
    assert_eq!(exec_commands(b"<html>plain</html>"), (Vec::new(), false));
}

#[test]
fn malformed_exec_tag_stops_the_commands() {
    let page = b"<!--#exec cmd=\"date\" --><!--#exec cmd= --><!--#exec cmd=\"ls\" -->";
    assert_eq!(exec_commands(page), (vec![b"date".to_vec()], true));
}

#[test]
fn gash_output_is_cleaned() {
    assert_eq!(
        WebServer::gash_output(b"[www] gash > Mon Jan 1\n[www] gash > "),
        Some(b"Mon Jan 1".to_vec())
    );
    assert_eq!(WebServer::gash_output(b"a\nb\n"), Some(b"ab".to_vec()));
    assert_eq!(WebServer::gash_output(&[0xff, 0xfe]), None);
}

#[test]
fn dynamic_page_replaces_the_tag() {
    let page = b"<html><!--#exec cmd=\"date\" --></html>";
    let mut expected = OK.to_vec();
    expected.extend_from_slice(b"<html>Mon</html>");
    assert_eq!(WebServer::respond_with_dynamic_page(page, &vec![b"Mon".to_vec()]), expected);
}

#[test]
fn dynamic_page_replaces_every_tag_by_its_own_output() {
    let page = b"<!--#exec cmd=\"a\" --> <!--#exec cmd=\"b\" -->";
    let mut expected = OK.to_vec();
    expected.extend_from_slice(b"A B");
    assert_eq!(
        WebServer::respond_with_dynamic_page(page, &vec![b"A".to_vec(), b"B".to_vec()]),
        expected
    );
}

#[test]
fn dynamic_page_without_commands_is_served_as_is() {
    let mut expected = OK.to_vec();
    expected.extend_from_slice(b"<p>static</p>");
    assert_eq!(WebServer::respond_with_dynamic_page(b"<p>static</p>", &Vec::new()), expected);
}

#[test]
fn dynamic_output_is_not_read_again() {
    let page = b"<!--#exec cmd=\"a\" --><!--#exec cmd=\"b\" -->";
    let outputs = vec![b"<!--#exec cmd=\"b\" -->".to_vec(), b"Z".to_vec()];
    let mut expected = OK.to_vec();
    expected.extend_from_slice(b"<!--#exec cmd=\"b\" -->Z");
    assert_eq!(WebServer::respond_with_dynamic_page(page, &outputs), expected);
}

#[test]
fn repeated_tag_gets_its_first_command_output() {
    let page = b"x<!--#exec cmd=\"a\" -->y<!--#exec cmd=\"a\" -->z";
    let mut expected = OK.to_vec();
    expected.extend_from_slice(b"x1y1z");
    assert_eq!(WebServer::respond_with_dynamic_page(page, &vec![b"1".to_vec(), b"2".to_vec()]), expected);
}
