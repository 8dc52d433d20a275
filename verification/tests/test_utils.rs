use argot_cli::errors::ArgotError;
use argot_cli::types::CliArg;
use argot_cli::utils::{get_opt_value, has_whitespace, parse_int, render_list, split};

#[test]
fn parse_integer() {
    let input = "64";
    let output = parse_int(input).unwrap();

    let expected: i64 = 64;

    assert_eq!(output, expected);
}

#[test]
fn return_error_on_pos_overflow() {
    let input = "18446744073709551616";
    let error = parse_int(input).unwrap_err();

    let value = "18446744073709551616".to_string();
    let expected: ArgotError = ArgotError::UnsafeInteger { value };

    assert_eq!(error, expected);
    assert_eq!(error.to_string(), expected.to_string());
}

#[test]
fn return_error_on_neg_overflow() {
    let input = "-18446744073709551617";
    let error = parse_int(input).unwrap_err();

    let value = "-18446744073709551617".to_string();
    let expected: ArgotError = ArgotError::UnsafeInteger { value };

    assert_eq!(error, expected);
    assert_eq!(error.to_string(), expected.to_string());
}

#[test]
fn return_error_on_empty_input() {
    let input = "";
    let error = parse_int(input).unwrap_err();

    let value = "cannot parse integer from empty string".to_string();
    let expected: ArgotError = ArgotError::InvalidInt { value };

    assert_eq!(error, expected);
    assert_eq!(error.to_string(), expected.to_string());
}

#[test]
fn return_error_on_invalid_input() {
    let input = "pizza";
    let error = parse_int(input).unwrap_err();

    let value = "invalid digit found in string".to_string();
    let expected: ArgotError = ArgotError::InvalidInt { value };

    assert_eq!(error, expected);
    assert_eq!(error.to_string(), expected.to_string());
}

#[test]
fn return_error_on_whitespace() {
    let input = " 201 ";
    let error = parse_int(input).unwrap_err();

    let value = "invalid digit found in string".to_string();
    let expected: ArgotError = ArgotError::InvalidInt { value };

    assert_eq!(error, expected);
    assert_eq!(error.to_string(), expected.to_string());
}

#[test]
fn parse_int_agrees_with_std() {
    let inputs = [
        "0", "-0", "+0", "+17", "-17", "9223372036854775807", "-9223372036854775808",
        "9223372036854775808", "-9223372036854775809", "99999999999999999999x", "12x",
        "+", "-", "", "--1", "+-1", "1_000", "٣", "00012", "-00", " 1",
    ];
    for input in inputs {
        let ours = parse_int(input);
        match input.parse::<i64>() {
            Ok(n) => assert_eq!(ours, Ok(n), "{:?}", input),
            Err(e) => {
                let err = ours.unwrap_err();
                match e.kind() {
                    std::num::IntErrorKind::PosOverflow | std::num::IntErrorKind::NegOverflow => {
                        assert_eq!(err, ArgotError::UnsafeInteger { value: input.to_string() })
                    },
                    _ => assert_eq!(err, ArgotError::InvalidInt { value: format!("{}", e) }),
                }
            },
        }
    }
}

#[test]
fn return_operand_on_single_dash() {
    let input = "-";
    let output = get_opt_value(input);
    let expected = CliArg::Operand;
    assert_eq!(output, expected);
}

#[test]
fn return_operand_on_double_dash() {
    let input = "--";
    let output = get_opt_value(input);
    let expected = CliArg::Operand;
    assert_eq!(output, expected);
}

#[test]
fn return_long_option() {
    let input = "--user=jim";
    let output = get_opt_value(input);
    let expected = CliArg::Long { name: "user".to_string(), value: Some("jim".to_string()) };
    assert_eq!(output, expected);
}

#[test]
fn return_short_option() {
    let input = "-ubob";
    let output = get_opt_value(input);
    let expected = CliArg::Short { flags: "ubob".to_string() };
    assert_eq!(output, expected);
}

#[test]
fn return_parameter() {
    let input = "name=alice";
    let output = get_opt_value(input);
    let expected = CliArg::Parameter("name".into(), "alice".into());
    assert_eq!(output, expected);
}

#[test]
fn return_operand_on_empty_long_option_name() {
    let input = "--=jim";
    let output = get_opt_value(input);
    let expected = CliArg::Operand;
    assert_eq!(output, expected);
}

#[test]
fn return_operand_on_empty_parameter_name() {
    let input = "=bianca";
    let output = get_opt_value(input);
    let expected = CliArg::Operand;
    assert_eq!(output, expected);
}

#[test]
fn return_operand() {
    let input = "maria";
    let output = get_opt_value(input);
    let expected = CliArg::Operand;
    assert_eq!(output, expected);
}

#[test]
fn classify_edge_cases() {
    assert_eq!(get_opt_value("--a=b=c"), CliArg::Long { name: "a".into(), value: Some("b=c".into()) });
    assert_eq!(get_opt_value("--flag"), CliArg::Long { name: "flag".into(), value: None });
    assert_eq!(get_opt_value("--x="), CliArg::Long { name: "x".into(), value: Some("".into()) });
    assert_eq!(get_opt_value("---x"), CliArg::Long { name: "-x".into(), value: None });
    assert_eq!(get_opt_value("-a=b"), CliArg::Short { flags: "a=b".into() });
    assert_eq!(get_opt_value("a=b=c"), CliArg::Parameter("a".into(), "b=c".into()));
    assert_eq!(get_opt_value("ENV="), CliArg::Parameter("ENV".into(), "".into()));
    assert_eq!(get_opt_value(""), CliArg::Operand);
    assert_eq!(get_opt_value("ü=ö"), CliArg::Parameter("ü".into(), "ö".into()));
}

#[test]
fn classified_argument_can_be_rebuilt() {
    let inputs = ["--user=jim", "--flag", "-xyz", "a=b=c", "--k==", "-=", "ü=ö"];
    for input in inputs {
        let rebuilt = match get_opt_value(input) {
            CliArg::Long { name, value: Some(v) } => format!("--{}={}", name, v),
            CliArg::Long { name, value: None } => format!("--{}", name),
            CliArg::Short { flags } => format!("-{}", flags),
            CliArg::Parameter(n, v) => format!("{}={}", n, v),
            CliArg::Operand => panic!("{:?} is no operand", input),
        };
        assert_eq!(rebuilt, input);
    }
}

#[test]
fn split_agrees_with_std() {
    let cases = [
        ("build,test", ","),
        ("a,,b,", ","),
        ("~/.local/bin:~/bin", ":"),
        ("aaa", "aa"),
        ("abcabc", "bc"),
        ("abc", ""),
        ("x", ","),
        ("é,ü", ","),
        ("a--b--", "--"),
    ];
    for (text, sep) in cases {
        let ours = split(text, sep);
        let theirs: Vec<String> = text.split(sep).map(|s| s.to_string()).collect();
        assert_eq!(ours, theirs, "{:?} split at {:?}", text, sep);
    }
}

#[test]
fn split_pieces_join_back() {
    let cases = [("a,,b,", ","), ("aaa", "aa"), ("abc", ""), ("", ":"), ("", "")];
    for (text, sep) in cases {
        assert_eq!(split(text, sep).join(sep), text);
    }
}

#[test]
fn detect_whitespace() {
    assert!(has_whitespace("a b"));
    assert!(has_whitespace("tab\there"));
    assert!(has_whitespace("nbsp\u{a0}"));
    assert!(has_whitespace("\u{3000}"));
    assert!(!has_whitespace("plain"));
    assert!(!has_whitespace(""));
    assert!(!has_whitespace("\u{200b}"));
    for c in ['\u{85}', '\u{1680}', '\u{2000}', '\u{200a}', '\u{2028}', '\u{2029}', '\u{202f}', '\u{205f}', '\u{b}', '\u{c}'] {
        assert_eq!(has_whitespace(&c.to_string()), c.is_whitespace());
    }
}

#[test]
fn decimal_text_of_every_integer_reads_back() {
    let values: [i64; 10] = [0, 1, -1, 9, 10, -10, 123456789, -987654321, i64::MAX, i64::MIN];
    for n in values.iter() {
        assert_eq!(parse_int(&n.to_string()), Ok(*n));
    }
}

#[test]
fn accepted_integer_texts() {
    assert_eq!(parse_int("+0012"), Ok(12));
    assert_eq!(parse_int("-0"), Ok(0));
    assert_eq!(parse_int("007"), Ok(7));
    assert_eq!(
        parse_int("9223372036854775808"),
        Err(ArgotError::UnsafeInteger { value: "9223372036854775808".to_string() })
    );
    assert_eq!(
        parse_int("-9223372036854775809"),
        Err(ArgotError::UnsafeInteger { value: "-9223372036854775809".to_string() })
    );
    for bad in ["", "+", "-", "1_000", "12a", " 1", "1.0", "--1"].iter() {
        assert!(parse_int(bad).is_err(), "{:?}", bad);
    }
}

#[test]
fn render_list_joins_and_tells_quoting() {
    let items: Vec<String> = vec!["a".to_string(), "b c".to_string(), "d".to_string()];
    assert_eq!(render_list(&items, ":", false), ("a:b c:d".to_string(), true));
    assert_eq!(render_list(&items[..1], ":", false), ("a".to_string(), false));
    assert_eq!(render_list(&items[..1], ", ", true), ("a, ".to_string(), false));
    assert_eq!(render_list(&[], ":", true), (String::new(), false));
}
