//! The command line: `--ip`, `--port` and `--www` take a value, `-h` and
//! `--help` ask for the usage text.
//!
//! Options are read the way getopts reads them: an argument that begins with
//! `-` and is longer than that is an option; `--` ends the options; a long
//! option takes its value after `=` or from the next argument; a short
//! argument names one option per character. Other arguments are ignored.
use vstd::prelude::*;
use vstd::string::StringSliceAdditionalSpecFns;

use crate::bytes::{bytes_eq, decimal, lemma_split_nonempty, push_bytes, split, split_bytes, to_vec};
use crate::pages::{default_ip, default_ip_bytes, default_www, default_www_bytes, PORT};

verus! {

/// How reading the options failed.
#[derive(Clone, Copy, Debug, PartialEq, Eq)]
pub enum OptError {
    /// An option that takes a value was last and had none.
    ArgumentMissing,
    /// An option that is not known.
    UnrecognizedOption,
    /// An option given twice.
    OptionDuplicated,
    /// A flag given a value.
    UnexpectedArgument,
}

/// The values given so far to each option.
pub struct OptVals {
    pub ip: Seq<Seq<u8>>,
    pub port: Seq<Seq<u8>>,
    pub www: Seq<Seq<u8>>,
    pub h: nat,
    pub help: nat,
}

/// No option given yet.
pub open spec fn no_opts() -> OptVals {
    OptVals { ip: Seq::empty(), port: Seq::empty(), www: Seq::empty(), h: 0, help: 0 }
}

pub open spec fn name_ip() -> Seq<u8> {
    "ip".spec_bytes()
}

pub open spec fn name_port() -> Seq<u8> {
    "port".spec_bytes()
}

pub open spec fn name_www() -> Seq<u8> {
    "www".spec_bytes()
}

pub open spec fn name_h() -> Seq<u8> {
    "h".spec_bytes()
}

pub open spec fn name_help() -> Seq<u8> {
    "help".spec_bytes()
}

/// An argument longer than one byte that begins with `-`.
pub open spec fn is_option(cur: Seq<u8>) -> bool {
    cur.len() > 1 && cur[0] == 45u8
}

/// The name and the value of a long option, after its `--`: the value
/// follows the first `=` and runs to the next one.
pub open spec fn long_parts(tail: Seq<u8>) -> (Seq<u8>, Option<Seq<u8>>) {
    let p = split(tail, 61u8);
    if p.len() <= 1 {
        (tail, None)
    } else {
        (p[0], Some(p[1]))
    }
}

/// The number of `h` bytes at the start of `s`.
pub open spec fn h_prefix(s: Seq<u8>) -> nat
    decreases s.len(),
{
    if s.len() == 0 {
        0
    } else if s[0] == 104u8 {
        1 + h_prefix(s.skip(1))
    } else {
        0
    }
}

/// The length of the UTF-8 character that begins with byte `b`.
pub open spec fn utf8_width(b: u8) -> nat {
    if b < 0x80 {
        1
    } else if b < 0xe0 {
        2
    } else if b < 0xf0 {
        3
    } else {
        4
    }
}

/// The character of `s` that begins at `k`.
pub open spec fn char_at(s: Seq<u8>, k: int) -> Seq<u8> {
    let w = utf8_width(s[k]);
    if k + w <= s.len() {
        s.subrange(k, k + w)
    } else {
        s.skip(k)
    }
}

/// The option with one more value.
pub open spec fn with_value(v: OptVals, name: Seq<u8>, x: Seq<u8>) -> OptVals {
    if name == name_ip() {
        OptVals { ip: v.ip.push(x), ..v }
    } else if name == name_port() {
        OptVals { port: v.port.push(x), ..v }
    } else {
        OptVals { www: v.www.push(x), ..v }
    }
}

/// Reads the options from `a[i]` on, with `v` given so far.
pub open spec fn scan(a: Seq<Seq<u8>>, i: nat, v: OptVals) -> Result<OptVals, (OptError, Seq<u8>)>
    decreases a.len() - i,
{
    if i >= a.len() {
        Ok(v)
    } else {
        let cur = a[i as int];
        if !is_option(cur) {
            scan(a, i + 1, v)
        } else if cur == "--".spec_bytes() {
            Ok(v)
        } else if cur[1] == 45u8 {
            let (name, arg) = long_parts(cur.skip(2));
            if name == name_ip() || name == name_port() || name == name_www() {
                match arg {
                    Some(x) => scan(a, i + 1, with_value(v, name, x)),
                    None => if i + 1 == a.len() {
                        Err((OptError::ArgumentMissing, name))
                    } else {
                        scan(a, i + 2, with_value(v, name, a[i + 1 as int]))
                    },
                }
            } else if name == name_help() {
                if arg is Some {
                    Err((OptError::UnexpectedArgument, name))
                } else {
                    scan(a, i + 1, OptVals { help: v.help + 1, ..v })
                }
            } else {
                Err((OptError::UnrecognizedOption, name))
            }
        } else {
            let s = cur.skip(1);
            let k = h_prefix(s);
            if k == s.len() {
                scan(a, i + 1, OptVals { h: v.h + k, ..v })
            } else {
                Err((OptError::UnrecognizedOption, char_at(s, k as int)))
            }
        }
    }
}

/// The options read from the arguments after the program's name, each
/// checked to be given at most once.
pub open spec fn read_opts(args: Seq<Seq<u8>>) -> Result<OptVals, (OptError, Seq<u8>)> {
    match scan(args.skip(1), 0, no_opts()) {
        Err(e) => Err(e),
        Ok(v) => if v.ip.len() > 1 {
            Err((OptError::OptionDuplicated, name_ip()))
        } else if v.port.len() > 1 {
            Err((OptError::OptionDuplicated, name_port()))
        } else if v.www.len() > 1 {
            Err((OptError::OptionDuplicated, name_www()))
        } else if v.h > 1 {
            Err((OptError::OptionDuplicated, name_h()))
        } else if v.help > 1 {
            Err((OptError::OptionDuplicated, name_help()))
        } else {
            Ok(v)
        },
    }
}

/// Every byte is a decimal digit.
pub open spec fn all_digits(s: Seq<u8>) -> bool {
    forall|i: int| 0 <= i < s.len() ==> 48u8 <= #[trigger] s[i] <= 57u8
}

/// The number that decimal digits write.
pub open spec fn digits_value(s: Seq<u8>) -> nat
    decreases s.len(),
{
    if s.len() == 0 {
        0
    } else {
        digits_value(s.drop_last()) * 10 + (s.last() - 48) as nat
    }
}

/// An unsigned number: an optional `+` and one or more decimal digits, whose
/// value fits in 64 bits.
pub open spec fn parse_uint(s: Seq<u8>) -> Option<u64> {
    let d = if s.len() > 0 && s[0] == 43u8 {
        s.skip(1)
    } else {
        s
    };
    if d.len() > 0 && all_digits(d) && digits_value(d) <= u64::MAX {
        Some(digits_value(d) as u64)
    } else {
        None
    }
}

/// How the program was asked to run.
pub enum Args {
    /// Print the usage text of `program` and stop.
    Usage { program: Vec<u8> },
    /// Serve on `ip` and `port` from the directory `www`.
    Serve { ip: Vec<u8>, port: u64, www: Vec<u8> },
}

/// Why the command line was refused.
pub enum ArgsError {
    /// The options could not be read.
    Getopts { kind: OptError, name: Vec<u8> },
    /// The port is not an unsigned number.
    BadPort { text: Vec<u8> },
}

/// How the program was asked to run, as values.
pub enum ArgsView {
    Usage { program: Seq<u8> },
    Serve { ip: Seq<u8>, port: u64, www: Seq<u8> },
}

/// Why the command line was refused, as values.
pub enum ArgsErrorView {
    Getopts { kind: OptError, name: Seq<u8> },
    BadPort { text: Seq<u8> },
}

/// The view of the outcome of reading the command line.
pub open spec fn outcome_view(r: Result<Args, ArgsError>) -> Result<ArgsView, ArgsErrorView> {
    match r {
        Ok(Args::Usage { program }) => Ok(ArgsView::Usage { program: program@ }),
        Ok(Args::Serve { ip, port, www }) => Ok(ArgsView::Serve { ip: ip@, port, www: www@ }),
        Err(ArgsError::Getopts { kind, name }) => Err(ArgsErrorView::Getopts { kind, name: name@ }),
        Err(ArgsError::BadPort { text }) => Err(ArgsErrorView::BadPort { text: text@ }),
    }
}

/// The outcome of the command line `args`, whose first element is the
/// program's name: a reading error first; then a request for help; then the
/// address, port and directory, each with its default, where the port reads
/// as a number.
pub open spec fn args_outcome(args: Seq<Seq<u8>>) -> Result<ArgsView, ArgsErrorView> {
    match read_opts(args) {
        Err((kind, name)) => Err(ArgsErrorView::Getopts { kind, name }),
        Ok(v) => if v.h > 0 || v.help > 0 {
            Ok(ArgsView::Usage { program: args[0] })
        } else {
            let ip = if v.ip.len() > 0 {
                v.ip[0]
            } else {
                default_ip()
            };
            let www = if v.www.len() > 0 {
                v.www[0]
            } else {
                default_www()
            };
            if v.port.len() > 0 {
                match parse_uint(v.port[0]) {
                    Some(port) => Ok(ArgsView::Serve { ip, port, www }),
                    None => Err(ArgsErrorView::BadPort { text: v.port[0] }),
                }
            } else {
                Ok(ArgsView::Serve { ip, port: PORT, www })
            }
        },
    }
}

/// Whether a byte is the short flag `h`.
fn is_h(b: u8) -> (r: bool)
    ensures
        r == (b == 104u8),
{
    b == 104u8
}

/// Counts the `h` bytes at the start of `s`.
fn count_h(s: &[u8], from: usize) -> (k: usize)
    requires
        from <= s@.len(),
    ensures
        from + k <= s@.len(),
        k == h_prefix(s@.skip(from as int)),
{
    let mut k: usize = from;
    while k < s.len() && is_h(s[k])
        invariant
            from <= k <= s@.len(),
            h_prefix(s@.skip(from as int)) == (k - from) + h_prefix(s@.skip(k as int)),
        decreases s@.len() - k,
    {
        assert(s@.skip(k as int).skip(1) == s@.skip(k + 1));
        k = k + 1;
    }
    k - from
}

/// The character of `s` that begins at `k`.
fn char_at_bytes(s: &[u8], k: usize) -> (r: Vec<u8>)
    requires
        k < s@.len(),
    ensures
        r@ == char_at(s@, k as int),
{
    let b = s[k];
    let w: usize = if b < 0x80 {
        1
    } else if b < 0xe0 {
        2
    } else if b < 0xf0 {
        3
    } else {
        4
    };
    let end = if w <= s.len() - k {
        k + w
    } else {
        s.len()
    };
    let mut out: Vec<u8> = Vec::new();
    let mut j: usize = k;
    while j < end
        invariant
            k <= j <= end <= s@.len(),
            out@ == s@.subrange(k as int, j as int),
        decreases end - j,
    {
        out.push(s[j]);
        j = j + 1;
        assert(out@ =~= s@.subrange(k as int, j as int));
    }
    assert(s@.skip(k as int) =~= s@.subrange(k as int, s@.len() as int));
    out
}

/// The value of a string of decimal digits grows with each digit.
proof fn lemma_digits_prefix(s: Seq<u8>, k: int)
    requires
        0 <= k <= s.len(),
        all_digits(s),
    ensures
        digits_value(s.take(k)) <= digits_value(s),
    decreases s.len(),
{
    if k < s.len() {
        assert(s.drop_last().take(k) == s.take(k));
        lemma_digits_prefix(s.drop_last(), k);
    } else {
        assert(s.take(k) == s);
    }
}

/// Reads an unsigned number.
pub fn parse_uint_bytes(s: &[u8]) -> (r: Option<u64>)
    ensures
        r == parse_uint(s@),
{
    let start: usize = if s.len() > 0 && s[0] == 43u8 {
        1
    } else {
        0
    };
    let ghost d = if s@.len() > 0 && s@[0] == 43u8 {
        s@.skip(1)
    } else {
        s@
    };
    assert(d == s@.skip(start as int));
    if start == s.len() {
        return None;
    }
    let mut acc: u64 = 0;
    let mut k: usize = start;
    assert(d.take(0) =~= Seq::<u8>::empty());
    while k < s.len()
        invariant
            start <= k <= s@.len(),
            d == s@.skip(start as int),
            d == (if s@.len() > 0 && s@[0] == 43u8 {
                s@.skip(1)
            } else {
                s@
            }),
            all_digits(d.take(k - start)),
            acc as nat == digits_value(d.take(k - start)),
        decreases s@.len() - k,
    {
        let c = s[k];
        let ghost t = d.take(k + 1 - start);
        assert(t.drop_last() == d.take(k - start));
        assert(t.last() == c);
        if c < 48u8 || c > 57u8 {
            assert(!all_digits(d)) by {
                assert(d[k - start] == c);
            }
            return None;
        }
        assert(all_digits(t)) by {
            assert forall|i: int| 0 <= i < t.len() implies 48u8 <= #[trigger] t[i] <= 57u8 by {
                if i < t.len() - 1 {
                    assert(t[i] == d.take(k - start)[i]);
                }
            }
        }
        match acc.checked_mul(10) {
            None => {
                proof {
                    if all_digits(d) {
                        lemma_digits_prefix(d, k + 1 - start);
                    }
                }
                return None;
            },
            Some(m) => match m.checked_add((c - 48u8) as u64) {
                None => {
                    proof {
                        if all_digits(d) {
                            lemma_digits_prefix(d, k + 1 - start);
                        }
                    }
                    return None;
                },
                Some(n) => {
                    acc = n;
                },
            },
        }
        k = k + 1;
    }
    assert(d.take(k - start) == d);
    Some(acc)
}

/// The message with which the program stops on a refused command line.
pub open spec fn error_message(e: ArgsErrorView) -> Seq<u8> {
    match e {
        ArgsErrorView::Getopts { kind, name } => match kind {
            OptError::ArgumentMissing => "Argument to option '".spec_bytes() + name
                + "' missing.".spec_bytes(),
            OptError::UnrecognizedOption => "Unrecognized option: '".spec_bytes() + name
                + "'.".spec_bytes(),
            OptError::OptionDuplicated => "Option '".spec_bytes() + name
                + "' given more than once.".spec_bytes(),
            OptError::UnexpectedArgument => "Option '".spec_bytes() + name
                + "' does not take an argument.".spec_bytes(),
        },
        ArgsErrorView::BadPort { .. } => "not uint?".spec_bytes(),
    }
}

impl ArgsError {
    /// The message with which the program stops.
    pub fn message(&self) -> (m: Vec<u8>)
        ensures
            m@ == error_message(match self {
                ArgsError::Getopts { kind, name } => ArgsErrorView::Getopts { kind: *kind, name: name@ },
                ArgsError::BadPort { text } => ArgsErrorView::BadPort { text: text@ },
            }),
    {
        let mut out: Vec<u8> = Vec::new();
        match self {
            ArgsError::Getopts { kind, name } => match kind {
                OptError::ArgumentMissing => {
                    push_bytes(&mut out, "Argument to option '".as_bytes());
                    push_bytes(&mut out, name.as_slice());
                    push_bytes(&mut out, "' missing.".as_bytes());
                },
                OptError::UnrecognizedOption => {
                    push_bytes(&mut out, "Unrecognized option: '".as_bytes());
                    push_bytes(&mut out, name.as_slice());
                    push_bytes(&mut out, "'.".as_bytes());
                },
                OptError::OptionDuplicated => {
                    push_bytes(&mut out, "Option '".as_bytes());
                    push_bytes(&mut out, name.as_slice());
                    push_bytes(&mut out, "' given more than once.".as_bytes());
                },
                OptError::UnexpectedArgument => {
                    push_bytes(&mut out, "Option '".as_bytes());
                    push_bytes(&mut out, name.as_slice());
                    push_bytes(&mut out, "' does not take an argument.".as_bytes());
                },
            },
            ArgsError::BadPort { .. } => {
                push_bytes(&mut out, "not uint?".as_bytes());
            },
        }
        assert(out@ =~= error_message(match self {
            ArgsError::Getopts { kind, name } => ArgsErrorView::Getopts { kind: *kind, name: name@ },
            ArgsError::BadPort { text } => ArgsErrorView::BadPort { text: text@ },
        }));
        out
    }
}

/// Appends a copy of `x` to a list of values.
fn push_value(vals: &mut Vec<Vec<u8>>, x: &[u8])
    ensures
        final(vals).deep_view() == old(vals).deep_view().push(x@),
{
    let ghost before = vals.deep_view();
    let c = to_vec(x);
    assert(c.deep_view() =~= c@);
    vals.push(c);
    assert(vals.deep_view() =~= before.push(x@));
}

/// The first value of a list, or the default.
fn first_or(vals: &Vec<Vec<u8>>, default: Vec<u8>) -> (r: Vec<u8>)
    ensures
        r@ == (if vals.deep_view().len() > 0 {
            vals.deep_view()[0]
        } else {
            default@
        }),
{
    if vals.len() > 0 {
        assert(vals.deep_view()[0] == vals@[0]@);
        to_vec(vals[0].as_slice())
    } else {
        default
    }
}

/// Reads the command line `args`, whose first element is the program's name.
pub fn get_args(args: &Vec<Vec<u8>>) -> (r: Result<Args, ArgsError>)
    requires
        args@.len() >= 1,
    ensures
        outcome_view(r) == args_outcome(args.deep_view()),
{
    let ghost all = args.deep_view();
    let ghost a = all.skip(1);
    let n = args.len();
    let mut ip_vals: Vec<Vec<u8>> = Vec::new();
    let mut port_vals: Vec<Vec<u8>> = Vec::new();
    let mut www_vals: Vec<Vec<u8>> = Vec::new();
    let mut h_seen: usize = 0;
    let mut help_seen: usize = 0;
    let ghost mut gv = no_opts();
    assert(ip_vals.deep_view() =~= gv.ip);
    assert(port_vals.deep_view() =~= gv.port);
    assert(www_vals.deep_view() =~= gv.www);
    let mut j: usize = 1;
    let mut ended = false;
    while j < n && !ended
        invariant
            n == args@.len(),
            all == args.deep_view(),
            a == all.skip(1),
            1 <= j <= n,
            ip_vals.deep_view() == gv.ip,
            port_vals.deep_view() == gv.port,
            www_vals.deep_view() == gv.www,
            h_seen as nat == if gv.h > 2 { 2 } else { gv.h },
            help_seen as nat == if gv.help > 2 { 2 } else { gv.help },
            ended ==> scan(a, 0, no_opts()) == Ok::<OptVals, (OptError, Seq<u8>)>(gv),
            !ended ==> scan(a, 0, no_opts()) == scan(a, (j - 1) as nat, gv),
        decreases (n - j) + (if ended { 0int } else { 1int }),
    {
        let cur = &args[j];
        let ghost i = (j - 1) as nat;
        let ghost cv = a[i as int];
        assert(cv == cur@) by {
            assert(all[j as int] == args@[j as int]@);
        }
        if !(cur.len() > 1 && cur[0] == 45u8) {
            j = j + 1;
        } else if bytes_eq(cur.as_slice(), "--".as_bytes()) {
            ended = true;
        } else if cur[1] == 45u8 {
            let mut tail: Vec<u8> = Vec::new();
            let mut m: usize = 2;
            while m < cur.len()
                invariant
                    2 <= m <= cur@.len(),
                    tail@ == cur@.subrange(2, m as int),
                decreases cur@.len() - m,
            {
                tail.push(cur[m]);
                m = m + 1;
                assert(tail@ =~= cur@.subrange(2, m as int));
            }
            assert(tail@ =~= cv.skip(2));
            let pieces = split_bytes(tail.as_slice(), 61u8);
            proof {
                lemma_split_nonempty(tail@, 61u8);
            }
            let ghost parts = long_parts(tail@);
            let (name, arg): (Vec<u8>, Option<Vec<u8>>) = if pieces.len() <= 1 {
                (tail, None)
            } else {
                assert(pieces.deep_view()[0] == pieces@[0]@);
                assert(pieces.deep_view()[1] == pieces@[1]@);
                (to_vec(pieces[0].as_slice()), Some(to_vec(pieces[1].as_slice())))
            };
            assert(name@ == parts.0);
            assert(match arg {
                Some(x) => parts.1 == Some(x@),
                None => parts.1 is None,
            });
            let is_ip = bytes_eq(name.as_slice(), "ip".as_bytes());
            let is_port = bytes_eq(name.as_slice(), "port".as_bytes());
            let is_www = bytes_eq(name.as_slice(), "www".as_bytes());
            if is_ip || is_port || is_www {
                let inline = arg.is_some();
                let value: Vec<u8> = match arg {
                    Some(x) => x,
                    None => {
                        if j + 1 == n {
                            return Err(ArgsError::Getopts { kind: OptError::ArgumentMissing, name });
                        }
                        assert(a[i + 1 as int] == args@[j + 1]@) by {
                            assert(all[j + 1] == args@[j + 1]@);
                        }
                        to_vec(args[j + 1].as_slice())
                    },
                };
                if is_ip {
                    push_value(&mut ip_vals, value.as_slice());
                } else if is_port {
                    push_value(&mut port_vals, value.as_slice());
                } else {
                    push_value(&mut www_vals, value.as_slice());
                }
                proof {
                    gv = with_value(gv, name@, value@);
                }
                if inline {
                    j = j + 1;
                } else {
                    j = j + 2;
                }
            } else if bytes_eq(name.as_slice(), "help".as_bytes()) {
                if arg.is_some() {
                    return Err(ArgsError::Getopts { kind: OptError::UnexpectedArgument, name });
                }
                if help_seen < 2 {
                    help_seen = help_seen + 1;
                }
                proof {
                    gv = OptVals { help: gv.help + 1, ..gv };
                }
                j = j + 1;
            } else {
                return Err(ArgsError::Getopts { kind: OptError::UnrecognizedOption, name });
            }
        } else {
            let k = count_h(cur.as_slice(), 1);
            assert(cur@.skip(1) == cv.skip(1));
            if 1 + k == cur.len() {
                if k >= 2 || h_seen + k >= 2 {
                    h_seen = 2;
                } else {
                    h_seen = h_seen + k;
                }
                proof {
                    gv = OptVals { h: gv.h + k as nat, ..gv };
                }
                j = j + 1;
            } else {
                let c = char_at_bytes(cur.as_slice(), 1 + k);
                assert(c@ =~= char_at(cv.skip(1), k as int));
                return Err(ArgsError::Getopts { kind: OptError::UnrecognizedOption, name: c });
            }
        }
    }
    proof {
        if !ended {
            assert(j - 1 >= a.len());
        }
    }
    assert(scan(a, 0, no_opts()) == Ok::<OptVals, (OptError, Seq<u8>)>(gv));
    assert(all.skip(1) == a);
    if ip_vals.len() > 1 {
        return Err(ArgsError::Getopts { kind: OptError::OptionDuplicated, name: to_vec("ip".as_bytes()) });
    }
    if port_vals.len() > 1 {
        return Err(ArgsError::Getopts { kind: OptError::OptionDuplicated, name: to_vec("port".as_bytes()) });
    }
    if www_vals.len() > 1 {
        return Err(ArgsError::Getopts { kind: OptError::OptionDuplicated, name: to_vec("www".as_bytes()) });
    }
    if h_seen > 1 {
        return Err(ArgsError::Getopts { kind: OptError::OptionDuplicated, name: to_vec("h".as_bytes()) });
    }
    if help_seen > 1 {
        return Err(ArgsError::Getopts { kind: OptError::OptionDuplicated, name: to_vec("help".as_bytes()) });
    }
    if h_seen > 0 || help_seen > 0 {
        assert(all[0] == args@[0]@);
        return Ok(Args::Usage { program: to_vec(args[0].as_slice()) });
    }
    let ip = first_or(&ip_vals, default_ip_bytes());
    let www = first_or(&www_vals, default_www_bytes());
    if port_vals.len() > 0 {
        assert(port_vals.deep_view()[0] == port_vals@[0]@);
        match parse_uint_bytes(port_vals[0].as_slice()) {
            Some(port) => Ok(Args::Serve { ip, port, www }),
            None => Err(ArgsError::BadPort { text: to_vec(port_vals[0].as_slice()) }),
        }
    } else {
        Ok(Args::Serve { ip, port: PORT, www })
    }
}

/// A number written in decimal reads back as itself.
pub proof fn lemma_decimal_parses_back(n: u64)
    ensures
        parse_uint(decimal(n as nat)) == Some(n),
{
    lemma_decimal_digits(n as nat);
    assert(decimal(n as nat)[0] != 43u8);
}

/// The decimal digits of `n` are digits, and their value is `n`.
pub proof fn lemma_decimal_digits(n: nat)
    ensures
        all_digits(decimal(n)),
        digits_value(decimal(n)) == n,
        decimal(n).len() > 0,
    decreases n,
{
    if n < 10 {
        let d = decimal(n);
        assert(d.drop_last() =~= Seq::<u8>::empty());
        assert(d.last() == (48 + n) as u8);
        assert(digits_value(d) == digits_value(d.drop_last()) * 10 + (d.last() - 48) as nat);
    } else {
        lemma_decimal_digits(n / 10);
        let d = decimal(n);
        assert(d.drop_last() == decimal(n / 10));
        assert(d.last() == (48 + n % 10) as u8);
        assert((d.last() - 48) as nat == n % 10);
        assert(n == (n / 10) * 10 + n % 10);
        assert(digits_value(d) == digits_value(d.drop_last()) * 10 + (d.last() - 48) as nat);
        assert(all_digits(d)) by {
            assert forall|i: int| 0 <= i < d.len() implies 48u8 <= #[trigger] d[i] <= 57u8 by {
                if i < d.len() - 1 {
                    assert(d[i] == decimal(n / 10)[i]);
                }
            }
        }
    }
}

} // verus!
