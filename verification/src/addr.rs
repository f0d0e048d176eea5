//! Peer addresses and their text forms.
//!
//! A connection's peer is named by the text of its socket address; the
//! request queue keys streams by that name and ranks requests by the text of
//! the peer's IP address.
use vstd::prelude::*;

use crate::bytes::{decimal, hex, push_decimal, push_hex};
use crate::server::WebServer;

verus! {

/// An IP address: four octets, or eight 16-bit groups.
#[derive(Clone, Copy, Debug, PartialEq, Eq)]
pub enum IpAddr {
    Ipv4Addr(u8, u8, u8, u8),
    Ipv6Addr(u16, u16, u16, u16, u16, u16, u16, u16),
}

/// An IP address with a port.
#[derive(Clone, Copy, Debug, PartialEq, Eq)]
pub struct SocketAddr {
    pub ip: IpAddr,
    pub port: u16,
}

/// `a.b.c.d` in decimal.
pub open spec fn dotted(a: nat, b: nat, c: nat, d: nat) -> Seq<u8> {
    decimal(a) + seq![46u8] + decimal(b) + seq![46u8] + decimal(c) + seq![46u8] + decimal(d)
}

/// The last two groups of an IPv6 address read as four octets.
pub open spec fn dotted_groups(g: u16, h: u16) -> Seq<u8> {
    dotted((g / 256) as nat, (g % 256) as nat, (h / 256) as nat, (h % 256) as nat)
}

/// The text of an IP address: dotted decimal for IPv4; for IPv6, `::a.b.c.d`
/// for an IPv4-compatible address, `::FFFF:a.b.c.d` for an IPv4-mapped one,
/// and otherwise the eight groups in lower-case hexadecimal joined by `:`.
pub open spec fn ip_text(ip: IpAddr) -> Seq<u8> {
    match ip {
        IpAddr::Ipv4Addr(a, b, c, d) => dotted(a as nat, b as nat, c as nat, d as nat),
        IpAddr::Ipv6Addr(a, b, c, d, e, f, g, h) => {
            if a == 0 && b == 0 && c == 0 && d == 0 && e == 0 && f == 0 {
                seq![58u8, 58u8] + dotted_groups(g, h)
            } else if a == 0 && b == 0 && c == 0 && d == 0 && e == 0 && f == 0xffff {
                seq![58u8, 58u8, 70u8, 70u8, 70u8, 70u8, 58u8] + dotted_groups(g, h)
            } else {
                hex(a as nat) + seq![58u8] + hex(b as nat) + seq![58u8] + hex(c as nat) + seq![58u8]
                    + hex(d as nat) + seq![58u8] + hex(e as nat) + seq![58u8] + hex(f as nat)
                    + seq![58u8] + hex(g as nat) + seq![58u8] + hex(h as nat)
            }
        },
    }
}

/// The text of a socket address: `ip:port`, with the IP in brackets for IPv6.
pub open spec fn socket_text(sa: SocketAddr) -> Seq<u8> {
    match sa.ip {
        IpAddr::Ipv4Addr(..) => ip_text(sa.ip) + seq![58u8] + decimal(sa.port as nat),
        IpAddr::Ipv6Addr(..) => seq![91u8] + ip_text(sa.ip) + seq![93u8, 58u8] + decimal(
            sa.port as nat,
        ),
    }
}

fn push_dotted(out: &mut Vec<u8>, a: u8, b: u8, c: u8, d: u8)
    ensures
        final(out)@ == old(out)@ + dotted(a as nat, b as nat, c as nat, d as nat),
{
    push_decimal(out, a as u64);
    out.push(46u8);
    push_decimal(out, b as u64);
    out.push(46u8);
    push_decimal(out, c as u64);
    out.push(46u8);
    push_decimal(out, d as u64);
    assert(final(out)@ =~= old(out)@ + dotted(a as nat, b as nat, c as nat, d as nat));
}

fn push_ip(out: &mut Vec<u8>, ip: IpAddr)
    ensures
        final(out)@ == old(out)@ + ip_text(ip),
{
    match ip {
        IpAddr::Ipv4Addr(a, b, c, d) => {
            push_dotted(out, a, b, c, d);
        },
        IpAddr::Ipv6Addr(a, b, c, d, e, f, g, h) => {
            let ghost start = out@;
            if a == 0 && b == 0 && c == 0 && d == 0 && e == 0 && f == 0 {
                out.push(58u8);
                out.push(58u8);
                push_dotted(out, (g / 256) as u8, (g % 256) as u8, (h / 256) as u8, (h % 256) as u8);
                assert(out@ =~= start + ip_text(ip));
            } else if a == 0 && b == 0 && c == 0 && d == 0 && e == 0 && f == 0xffff {
                out.push(58u8);
                out.push(58u8);
                out.push(70u8);
                out.push(70u8);
                out.push(70u8);
                out.push(70u8);
                out.push(58u8);
                push_dotted(out, (g / 256) as u8, (g % 256) as u8, (h / 256) as u8, (h % 256) as u8);
                assert(out@ =~= start + ip_text(ip));
            } else {
                push_hex(out, a);
                out.push(58u8);
                push_hex(out, b);
                out.push(58u8);
                push_hex(out, c);
                out.push(58u8);
                push_hex(out, d);
                out.push(58u8);
                push_hex(out, e);
                out.push(58u8);
                push_hex(out, f);
                out.push(58u8);
                push_hex(out, g);
                out.push(58u8);
                push_hex(out, h);
                assert(out@ =~= start + ip_text(ip));
            }
        },
    }
}

fn push_socket(out: &mut Vec<u8>, sa: SocketAddr)
    ensures
        final(out)@ == old(out)@ + socket_text(sa),
{
    let ghost start = out@;
    match sa.ip {
        IpAddr::Ipv4Addr(..) => {
            push_ip(out, sa.ip);
            out.push(58u8);
            push_decimal(out, sa.port as u64);
        },
        IpAddr::Ipv6Addr(..) => {
            out.push(91u8);
            push_ip(out, sa.ip);
            out.push(93u8);
            out.push(58u8);
            push_decimal(out, sa.port as u64);
        },
    }
    assert(out@ =~= start + socket_text(sa));
}

/// The peer name of a connection, or nothing where the peer is unknown.
pub open spec fn peer_name_text(peer: Option<SocketAddr>) -> Seq<u8> {
    match peer {
        Some(sa) => socket_text(sa),
        None => Seq::empty(),
    }
}

/// The IP address text of a connection's peer, or nothing where the peer is
/// unknown.
pub open spec fn ip_address_text(peer: Option<SocketAddr>) -> Seq<u8> {
    match peer {
        Some(sa) => ip_text(sa.ip),
        None => Seq::empty(),
    }
}

impl WebServer {
    /// The text of the peer's socket address; empty where there is no peer.
    pub fn get_peer_name(peer: Option<SocketAddr>) -> (name: Vec<u8>)
        ensures
            name@ == peer_name_text(peer),
    {
        let mut out: Vec<u8> = Vec::new();
        match peer {
            Some(sa) => {
                push_socket(&mut out, sa);
                assert(out@ =~= socket_text(sa));
            },
            None => {},
        }
        out
    }

    /// The text of the peer's IP address; empty where there is no peer.
    pub fn get_ip_address(peer: Option<SocketAddr>) -> (ip: Vec<u8>)
        ensures
            ip@ == ip_address_text(peer),
    {
        let mut out: Vec<u8> = Vec::new();
        match peer {
            Some(sa) => {
                push_ip(&mut out, sa.ip);
                assert(out@ =~= ip_text(sa.ip));
            },
            None => {},
        }
        out
    }
}

} // verus!
