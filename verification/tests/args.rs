use lib::args::{get_args, parse_uint_bytes, Args, ArgsError, OptError};

fn run(args: &[&str]) -> Result<Args, ArgsError> {
    let v: Vec<Vec<u8>> = args.iter().map(|a| a.as_bytes().to_vec()).collect();
    get_args(&v)
}

fn serve(r: Result<Args, ArgsError>) -> (Vec<u8>, u64, Vec<u8>) {
    match r {
        Ok(Args::Serve { ip, port, www }) => (ip, port, www),
        _ => panic!("expected a configuration"),
    }
}

fn getopts_error(r: Result<Args, ArgsError>) -> (OptError, Vec<u8>) {
    match r {
        Err(ArgsError::Getopts { kind, name }) => (kind, name),
        _ => panic!("expected an option error"),
    }
}

#[test]
fn defaults_without_options() {
    assert_eq!(serve(run(&["zhtta"])), (b"127.0.0.1".to_vec(), 4414, b"./www".to_vec()));
}

#[test]
fn options_with_values() {
    let r = run(&["zhtta", "--ip", "0.0.0.0", "--port=8080", "--www", "/srv"]);
    assert_eq!(serve(r), (b"0.0.0.0".to_vec(), 8080, b"/srv".to_vec()));
}

#[test]
fn value_after_equals_sign_stops_at_the_next_one() {
    assert_eq!(serve(run(&["zhtta", "free", "--port=1=2"])).1, 1);
}

#[test]
fn value_may_begin_with_a_dash() {
    assert_eq!(serve(run(&["zhtta", "--www", "-dir"])).2, b"-dir".to_vec());
}

#[test]
fn double_dash_ends_the_options() {
    assert_eq!(serve(run(&["zhtta", "--", "--bogus"])), (b"127.0.0.1".to_vec(), 4414, b"./www".to_vec()));
}

#[test]
fn help_flags_ask_for_usage() {
    for flag in ["-h", "--help"] {
        match run(&["zhtta", "--port", "80", flag]) {
            Ok(Args::Usage { program }) => assert_eq!(program, b"zhtta".to_vec()),
            _ => panic!("expected usage"),
        }
    }
}

#[test]
fn missing_argument_is_refused() {
    assert_eq!(getopts_error(run(&["zhtta", "--port"])), (OptError::ArgumentMissing, b"port".to_vec()));
}

#[test]
fn unknown_options_are_refused() {
    assert_eq!(getopts_error(run(&["zhtta", "--bogus"])), (OptError::UnrecognizedOption, b"bogus".to_vec()));
    assert_eq!(getopts_error(run(&["zhtta", "-x"])), (OptError::UnrecognizedOption, b"x".to_vec()));
    assert_eq!(getopts_error(run(&["zhtta", "-hx"])), (OptError::UnrecognizedOption, b"x".to_vec()));
    assert_eq!(getopts_error(run(&["zhtta", "--h"])), (OptError::UnrecognizedOption, b"h".to_vec()));
    assert_eq!(getopts_error(run(&["zhtta", "-hé"])), (OptError::UnrecognizedOption, "é".as_bytes().to_vec()));
}

#[test]
fn repeated_options_are_refused() {
    assert_eq!(getopts_error(run(&["zhtta", "-hh"])), (OptError::OptionDuplicated, b"h".to_vec()));
    assert_eq!(
        getopts_error(run(&["zhtta", "--ip", "a", "--ip=b"])),
        (OptError::OptionDuplicated, b"ip".to_vec())
    );
    assert_eq!(
        getopts_error(run(&["zhtta", "--help", "--help"])),
        (OptError::OptionDuplicated, b"help".to_vec())
    );
}

#[test]
fn flag_with_value_is_refused() {
    assert_eq!(
        getopts_error(run(&["zhtta", "--help=yes"])),
        (OptError::UnexpectedArgument, b"help".to_vec())
    );
}

#[test]
fn port_must_be_a_number() {
    match run(&["zhtta", "--port", "abc"]) {
        Err(ArgsError::BadPort { text }) => assert_eq!(text, b"abc".to_vec()),
        _ => panic!("expected a bad port"),
    }
    assert!(matches!(run(&["zhtta", "--port", "99999999999999999999"]), Err(ArgsError::BadPort { .. })));
    assert_eq!(serve(run(&["zhtta", "--port", "+80"])).1, 80);
}

#[test]
fn parse_unsigned_numbers() {
    assert_eq!(parse_uint_bytes(b"0"), Some(0));
    assert_eq!(parse_uint_bytes(b"4414"), Some(4414));
    assert_eq!(parse_uint_bytes(b"18446744073709551615"), Some(u64::MAX));
    assert_eq!(parse_uint_bytes(b"18446744073709551616"), None);
    assert_eq!(parse_uint_bytes(b""), None);
    assert_eq!(parse_uint_bytes(b"+"), None);
    assert_eq!(parse_uint_bytes(b"-1"), None);
    assert_eq!(parse_uint_bytes(b"12a"), None);
}

#[test]
fn error_messages() {
    let e = ArgsError::Getopts { kind: OptError::ArgumentMissing, name: b"ip".to_vec() };
    assert_eq!(e.message(), b"Argument to option 'ip' missing.".to_vec());
    let e = ArgsError::Getopts { kind: OptError::UnrecognizedOption, name: b"x".to_vec() };
    assert_eq!(e.message(), b"Unrecognized option: 'x'.".to_vec());
    let e = ArgsError::Getopts { kind: OptError::OptionDuplicated, name: b"h".to_vec() };
    assert_eq!(e.message(), b"Option 'h' given more than once.".to_vec());
    let e = ArgsError::Getopts { kind: OptError::UnexpectedArgument, name: b"help".to_vec() };
    assert_eq!(e.message(), b"Option 'help' does not take an argument.".to_vec());
    let e = ArgsError::BadPort { text: b"abc".to_vec() };
    assert_eq!(e.message(), b"not uint?".to_vec());
}
