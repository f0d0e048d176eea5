//! The fixed texts of the server and the pages built from them.
use vstd::prelude::*;
use vstd::string::StringSliceAdditionalSpecFns;

use crate::addr::{socket_text, SocketAddr};
use crate::bytes::{decimal, push_bytes, push_decimal};
use crate::server::WebServer;

verus! {

/// The port the server listens on unless told otherwise.
pub const PORT: u64 = 4414;

/// The status line and headers of a page that is served.
pub open spec fn http_ok() -> Seq<u8> {
    "HTTP/1.1 200 OK\r\nContent-Type: text/html; charset=UTF-8\r\n\r\n".spec_bytes()
}

/// The status line of a page that is not found.
pub open spec fn http_bad() -> Seq<u8> {
    "HTTP/1.1 404 Not Found\r\n\r\n".spec_bytes()
}

/// The head and style of the visitor counter page.
pub open spec fn counter_style() -> Seq<u8> {
    "<doctype !html><html><head><title>Hello, Rust!</title>\n             <style>body { background-color: #884414; color: #FFEEAA}\n                    h1 { font-size:2cm; text-align: center; color: black; text-shadow: 0 0 4mm red }\n                    h2 { font-size:2cm; text-align: center; color: black; text-shadow: 0 0 4mm green }\n             </style></head>\n             <body>".spec_bytes()
}

/// The greeting of the counter page, up to the count.
pub open spec fn counter_greeting() -> Seq<u8> {
    "<h1>Greetings, Krusty!</h1>\n                     <h2>Visitor count: ".spec_bytes()
}

/// The end of the counter page, after the count.
pub open spec fn counter_end() -> Seq<u8> {
    "</h2></body></html>\r\n".spec_bytes()
}

/// The whole response to a request for a missing file or a directory.
pub open spec fn error_page(path: Seq<u8>) -> Seq<u8> {
    http_bad() + "Cannot open: ".spec_bytes() + path
}

/// The whole response to a request for the counter page.
pub open spec fn counter_page(count: nat) -> Seq<u8> {
    http_ok() + counter_style() + counter_greeting() + decimal(count) + counter_end()
}

/// The address the server listens on unless told otherwise.
pub open spec fn default_ip() -> Seq<u8> {
    "127.0.0.1".spec_bytes()
}

/// The directory the server serves from unless told otherwise.
pub open spec fn default_www() -> Seq<u8> {
    "./www".spec_bytes()
}

/// The help text for the program named `program`.
pub open spec fn usage_text(program: Seq<u8>) -> Seq<u8> {
    "Usage: ".spec_bytes() + program + " [options]\n".spec_bytes()
        + "--ip     \tIP address, \"".spec_bytes() + default_ip() + "\" by default.\n".spec_bytes()
        + "--port   \tport number, \"".spec_bytes() + decimal(PORT as nat)
        + "\" by default.\n".spec_bytes() + "--www    \tworking directory, \"".spec_bytes()
        + default_www() + "\" by default\n".spec_bytes() + "-h --help \tUsage\n".spec_bytes()
}

/// The line printed when the server starts listening.
pub open spec fn banner_text(addr: SocketAddr, www: Seq<u8>) -> Seq<u8> {
    "Zhtta Version 0.5".spec_bytes() + " listening on ".spec_bytes() + socket_text(addr)
        + " (serving from: ".spec_bytes() + www + ").".spec_bytes()
}

/// The status line and headers of a page that is served.
pub fn http_ok_bytes() -> (r: Vec<u8>)
    ensures
        r@ == http_ok(),
{
    let mut out: Vec<u8> = Vec::new();
    push_bytes(&mut out, "HTTP/1.1 200 OK\r\nContent-Type: text/html; charset=UTF-8\r\n\r\n".as_bytes());
    assert(out@ =~= http_ok());
    out
}

/// The address the server listens on unless told otherwise.
pub fn default_ip_bytes() -> (r: Vec<u8>)
    ensures
        r@ == default_ip(),
{
    let mut out: Vec<u8> = Vec::new();
    push_bytes(&mut out, "127.0.0.1".as_bytes());
    assert(out@ =~= default_ip());
    out
}

/// The directory the server serves from unless told otherwise.
pub fn default_www_bytes() -> (r: Vec<u8>)
    ensures
        r@ == default_www(),
{
    let mut out: Vec<u8> = Vec::new();
    push_bytes(&mut out, "./www".as_bytes());
    assert(out@ =~= default_www());
    out
}

/// The help text for the program named `program`.
pub fn usage(program: &[u8]) -> (r: Vec<u8>)
    ensures
        r@ == usage_text(program@),
{
    let mut out: Vec<u8> = Vec::new();
    push_bytes(&mut out, "Usage: ".as_bytes());
    push_bytes(&mut out, program);
    push_bytes(&mut out, " [options]\n".as_bytes());
    push_bytes(&mut out, "--ip     \tIP address, \"".as_bytes());
    push_bytes(&mut out, "127.0.0.1".as_bytes());
    push_bytes(&mut out, "\" by default.\n".as_bytes());
    push_bytes(&mut out, "--port   \tport number, \"".as_bytes());
    push_decimal(&mut out, PORT);
    push_bytes(&mut out, "\" by default.\n".as_bytes());
    push_bytes(&mut out, "--www    \tworking directory, \"".as_bytes());
    push_bytes(&mut out, "./www".as_bytes());
    push_bytes(&mut out, "\" by default\n".as_bytes());
    push_bytes(&mut out, "-h --help \tUsage\n".as_bytes());
    assert(out@ =~= usage_text(program@));
    out
}

/// The line printed when the server starts listening on `addr`, serving
/// from `www`.
pub fn banner(addr: SocketAddr, www: &[u8]) -> (r: Vec<u8>)
    ensures
        r@ == banner_text(addr, www@),
{
    let mut out: Vec<u8> = Vec::new();
    push_bytes(&mut out, "Zhtta Version 0.5".as_bytes());
    push_bytes(&mut out, " listening on ".as_bytes());
    let name = WebServer::get_peer_name(Some(addr));
    push_bytes(&mut out, name.as_slice());
    push_bytes(&mut out, " (serving from: ".as_bytes());
    push_bytes(&mut out, www);
    push_bytes(&mut out, ").".as_bytes());
    assert(out@ =~= banner_text(addr, www@));
    out
}

impl WebServer {
    /// The response to a request for a path that does not exist or is a
    /// directory: the not-found status and a line naming the path.
    pub fn respond_with_error_page(path: &[u8]) -> (r: Vec<u8>)
        requires
            vstd::utf8::valid_utf8(path@),
        ensures
            r@ == error_page(path@),
    {
        let mut out: Vec<u8> = Vec::new();
        push_bytes(&mut out, "HTTP/1.1 404 Not Found\r\n\r\n".as_bytes());
        push_bytes(&mut out, "Cannot open: ".as_bytes());
        push_bytes(&mut out, path);
        assert(out@ =~= error_page(path@));
        out
    }

    /// The response to a request for the counter page, showing `count`
    /// visitors.
    pub fn respond_with_counter_page(count: u64) -> (r: Vec<u8>)
        ensures
            r@ == counter_page(count as nat),
    {
        let mut out: Vec<u8> = Vec::new();
        push_bytes(&mut out, "HTTP/1.1 200 OK\r\nContent-Type: text/html; charset=UTF-8\r\n\r\n".as_bytes());
        push_bytes(&mut out, "<doctype !html><html><head><title>Hello, Rust!</title>\n             <style>body { background-color: #884414; color: #FFEEAA}\n                    h1 { font-size:2cm; text-align: center; color: black; text-shadow: 0 0 4mm red }\n                    h2 { font-size:2cm; text-align: center; color: black; text-shadow: 0 0 4mm green }\n             </style></head>\n             <body>".as_bytes());
        push_bytes(&mut out, "<h1>Greetings, Krusty!</h1>\n                     <h2>Visitor count: ".as_bytes());
        push_decimal(&mut out, count);
        push_bytes(&mut out, "</h2></body></html>\r\n".as_bytes());
        assert(out@ =~= counter_page(count as nat));
        out
    }
}

} // verus!
