use btclib::wallet::{is_white_space, parse_command, CliCommand};

#[test]
fn commands_of_the_wallet_line() {
    assert!(matches!(parse_command(""), CliCommand::Empty));
    assert!(matches!(parse_command("  \t \n"), CliCommand::Empty));
    assert!(matches!(parse_command("balance"), CliCommand::Balance));
    assert!(matches!(parse_command("  balance  extra"), CliCommand::Balance));
    assert!(matches!(parse_command("exit\n"), CliCommand::Exit));
    assert!(matches!(parse_command("Balance"), CliCommand::Unknown));
    match parse_command(" send  Alice\t1500\n") {
        CliCommand::Send(name, amount) => {
            assert_eq!(name, "Alice");
            assert_eq!(amount, 1500);
        }
        _ => panic!("expected a send command"),
    }
    match parse_command("send Bob +7") {
        CliCommand::Send(name, amount) => {
            assert_eq!(name, "Bob");
            assert_eq!(amount, 7);
        }
        _ => panic!("expected a send command"),
    }
    assert!(matches!(parse_command("send Alice"), CliCommand::SendUsage));
    assert!(matches!(parse_command("send Alice 1 2"), CliCommand::SendUsage));
    assert!(matches!(parse_command("send Alice -1"), CliCommand::InvalidAmount));
    assert!(matches!(parse_command("send Alice 18446744073709551616"), CliCommand::InvalidAmount));
    assert!(matches!(parse_command("send Alice 1x"), CliCommand::InvalidAmount));
    // words are separated by any Unicode white space
    match parse_command("send\u{3000}Zoë\u{2003}42") {
        CliCommand::Send(name, amount) => {
            assert_eq!(name, "Zoë");
            assert_eq!(amount, 42);
        }
        _ => panic!("expected a send command"),
    }
}

#[test]
fn white_space_is_unicode_white_space() {
    for c in ['\t', '\n', '\u{b}', '\u{c}', '\r', ' ', '\u{85}', '\u{a0}', '\u{1680}', '\u{2000}', '\u{200a}', '\u{2028}', '\u{2029}', '\u{202f}', '\u{205f}', '\u{3000}'] {
        assert!(is_white_space(c), "{:?}", c);
    }
    for c in ['a', '0', '\u{200b}', '\u{feff}', '\u{180e}', '_'] {
        assert!(!is_white_space(c), "{:?}", c);
    }
    for code in 0u32..0x3100 {
        if let Some(c) = char::from_u32(code) {
            assert_eq!(is_white_space(c), c.is_whitespace(), "{:#x}", code);
        }
    }
}

#[test]
fn amounts_read_as_str_parse_reads_them() {
    for text in ["0", "+0", "18446744073709551615", "007", "+", "", "1_000", "١٢", "+-1", "99999999999999999999"] {
        let line = format!("send A {}", text);
        let expected = text.parse::<u64>().ok();
        match (parse_command(&line), expected) {
            (CliCommand::Send(_, amount), Some(v)) => assert_eq!(amount, v),
            (CliCommand::InvalidAmount, None) => {}
            (CliCommand::SendUsage, None) => assert!(text.is_empty()),
            _ => panic!("unexpected result for {:?}", text),
        }
    }
}
