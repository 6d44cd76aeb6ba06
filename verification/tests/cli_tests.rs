use legacy_tx::cli::{parse_amount, parse_cli_args, CliCommand};
use legacy_tx::errors::BitcoinError;
use legacy_tx::types::Point;

fn args(list: &[&str]) -> Vec<String> {
    list.iter().map(|s| s.to_string()).collect()
}

#[test]
fn send_with_amount_and_address() {
    let r = parse_cli_args(&args(&["send", "500", "addr1"])).unwrap();
    assert_eq!(r, CliCommand::Send { amount: 500, address: "addr1".to_string() });
}

#[test]
fn send_with_bad_amount_is_invalid_amount() {
    let r = parse_cli_args(&args(&["send", "abc", "addr1"]));
    assert_eq!(r, Err(BitcoinError::InvalidAmount));
}

#[test]
fn balance_alone_parses() {
    let r = parse_cli_args(&args(&["balance"])).unwrap();
    assert_eq!(r, CliCommand::Balance);
}

#[test]
fn no_arguments_is_a_parse_error() {
    match parse_cli_args(&args(&[])) {
        Err(BitcoinError::ParseError(m)) => assert_eq!(m, "No command provided"),
        other => panic!("expected a parse error, got {other:?}"),
    }
}

#[test]
fn send_without_arguments_is_a_parse_error() {
    for a in [args(&["send"]), args(&["send", "5"]), args(&["send", "5", "x", "y"])] {
        match parse_cli_args(&a) {
            Err(BitcoinError::ParseError(m)) => {
                assert_eq!(m, "Send requires additional arguments: amount and address")
            },
            other => panic!("expected a parse error, got {other:?}"),
        }
    }
}

#[test]
fn unknown_commands_are_rejected() {
    for a in [args(&["pay"]), args(&["balance", "now"]), args(&["", "x", "y"])] {
        match parse_cli_args(&a) {
            Err(BitcoinError::ParseError(m)) => assert_eq!(m, "Invalid command"),
            other => panic!("expected a parse error, got {other:?}"),
        }
    }
}

#[test]
fn amounts_parse_like_unsigned_integers() {
    assert_eq!(parse_amount("0"), Some(0));
    assert_eq!(parse_amount("500"), Some(500));
    assert_eq!(parse_amount("+500"), Some(500));
    assert_eq!(parse_amount("18446744073709551615"), Some(u64::MAX));
    assert_eq!(parse_amount("18446744073709551616"), None);
    assert_eq!(parse_amount(""), None);
    assert_eq!(parse_amount("+"), None);
    assert_eq!(parse_amount("-1"), None);
    assert_eq!(parse_amount("12a"), None);
    assert_eq!(parse_amount("1 2"), None);
    assert_eq!(parse_amount("５"), None);
}

#[test]
fn point_keeps_its_coordinates() {
    let p = Point::new(3u32, 4u32);
    assert_eq!(p.x, 3);
    assert_eq!(p.y, 4);
    let q = Point::new("a", "b");
    assert_eq!(q, Point { x: "a", y: "b" });
}
