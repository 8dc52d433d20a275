use std::io;

use argot_cli::errors::ArgotError;
use argot_cli::errors::ArgotError::{
    AliasTargetNotFound,
    InvalidAliasTarget,
    InvalidInt,
    InvalidOptionType,
    MissingOptionProperty,
    MissingOptionType,
    NullArg,
    NullInt,
    UnknownOption,
    UnsafeInteger,
};

#[test]
fn test_invalid_int() {
    let value = "12L".to_string();
    let error = InvalidInt { value };
    let expected = "'12L' is not a valid integer";
    assert_eq!(error.to_string(), expected);
}

#[test]
fn test_unsafe_integer() {
    let value = "18446744073709551616".to_string();
    let error = UnsafeInteger { value };
    let expected = "'18446744073709551616' is out of range for a signed 64-bit integer";
    assert_eq!(error.to_string(), expected);
}

#[test]
fn test_null_arg() {
    {
        let option = "t".to_string();
        let target = Some("tasks".to_string());
        let error = NullArg { option, target };
        let expected = "option 't' (alias for 'tasks') must take an argument";
        assert_eq!(error.to_string(), expected);
    }
    {
        let option = "t".to_string();
        let error = NullArg { option, target: None };
        let expected = "option 't' must take an argument";
        assert_eq!(error.to_string(), expected);
    }
}

#[test]
fn test_null_int() {
    {
        let option = "j".to_string();
        let target = Some("jobs".to_string());
        let error = NullInt { option, target };
        let expected = "option 'j' (alias for 'jobs') requires an integer number argument";
        assert_eq!(error.to_string(), expected);
    }
    {
        let option = "j".to_string();
        let error = NullInt { option, target: None };
        let expected = "option 'j' requires an integer number argument";
        assert_eq!(error.to_string(), expected);
    }
}

#[test]
fn test_unknown_option() {
    let option = "j".to_string();
    let error = UnknownOption { option };
    let expected = "option 'j' is not supported";
    assert_eq!(error.to_string(), expected);
}

#[test]
fn test_invalid_option_type() {
    let tag = "string".to_string();
    let error = InvalidOptionType { tag };
    let expected = "option type 'string' is not supported";
    assert_eq!(error.to_string(), expected);
}

#[test]
fn test_alias_target_not_found() {
    let option = "x".to_string();
    let target = "xtrace".to_string();
    let error = AliasTargetNotFound { option, target };
    let expected = "target value 'xtrace' for option 'x' was not found";
    assert_eq!(error.to_string(), expected);
}

#[test]
fn test_invalid_alias_target() {
    let option = "X".to_string();
    let target = "x".to_string();
    let error = InvalidAliasTarget { option, target };
    let expected = "cannot create an alias to another alias ('X' => 'x')";
    assert_eq!(error.to_string(), expected);
}

#[test]
fn test_missing_option_property() {
    let option = "retries".to_string();
    let property = "min".to_string();
    let error = MissingOptionProperty { option, property };
    let expected = "option 'retries' is missing required property 'min'";
    assert_eq!(error.to_string(), expected);
}

#[test]
fn test_missin_option_type() {
    let option = "a".to_string();
    let error = MissingOptionType { option };
    let expected = "option 'a' is missing required property 'type'";
    assert_eq!(error.to_string(), expected);
}

#[test]
fn get_value() {
    let error1 = InvalidInt { value: " 21".to_string() };
    let error2 = UnsafeInteger { value: "18446744073709551616".to_string() };
    let error3 = NullArg { option: "x".to_string(), target: None };

    assert_eq!(error1.value(), Some(" 21"));
    assert_eq!(error2.value(), Some("18446744073709551616"));
    assert_eq!(error3.value(), None);
}

#[test]
fn get_option() {
    let error1 = NullArg { option: "b".to_string(), target: None };
    let error2 = NullInt { option: "i".to_string(), target: None };
    let error3 = UnknownOption { option: "a".to_string() };
    let error4 = AliasTargetNotFound { option: "a".to_string(), target: "alpha".to_string() };
    let error5 = InvalidAliasTarget { option: "A".to_string(), target: "a".to_string() };
    let error6 = MissingOptionProperty { option: "v".to_string(), property: "target".to_string() };
    let error7 = MissingOptionType { option: "version".to_string() };
    let error8 = InvalidInt { value: "\t3".to_string() };

    assert_eq!(error1.option(), Some("b"));
    assert_eq!(error2.option(), Some("i"));
    assert_eq!(error3.option(), Some("a"));
    assert_eq!(error4.option(), Some("a"));
    assert_eq!(error5.option(), Some("A"));
    assert_eq!(error6.option(), Some("v"));
    assert_eq!(error7.option(), Some("version"));
    assert_eq!(error8.option(), None);
}

#[test]
fn get_target() {
    let error1 = NullArg { option: "u".to_string(), target: Some("user".to_string()) };
    let error2 = NullInt { option: "i".to_string(), target: Some("id".to_string()) };
    let error3 = InvalidInt { value: "\t4".to_string() };

    assert_eq!(error1.target(), Some("user"));
    assert_eq!(error2.target(), Some("id"));
    assert_eq!(error3.target(), None);
}

#[test]
fn get_type() {
    let error1 = InvalidOptionType { tag: "number".to_string() };
    let error2 = InvalidAliasTarget { option: "A".to_string(), target: "a".to_string() };

    assert_eq!(error1.option_type(), Some("number"));
    assert_eq!(error2.option_type(), None);

    // alias method
    assert_eq!(error1.tag(), Some("number"));
    assert_eq!(error2.tag(), None);
}

#[test]
fn get_property() {
    let error1 = MissingOptionProperty { option: "m".to_string(), property: "target".to_string() };
    let error2 = MissingOptionType { option: "n".to_string() };

    assert_eq!(error1.property(), Some("target"));
    assert_eq!(error2.property(), None);
}

#[test]
fn get_io_error_from_argot_error() {
    let error: io::Error = InvalidInt { value: "0o777".to_string() }.into();

    let kind = io::ErrorKind::InvalidData;

    assert_eq!(error.kind(), kind);
    assert_eq!(format!("{}", error), "'0o777' is not a valid integer");
}

#[test]
fn target_is_absent_for_errors_without_alias() {
    let error = NullArg { option: "t".to_string(), target: None };
    assert_eq!(error.target(), None);
    assert_eq!(error.option(), Some("t"));
    assert_eq!(error.property(), None);
    assert_eq!(error.tag(), None);
}

#[test]
fn io_error_from_method_carries_message() {
    let error: ArgotError = UnknownOption { option: "zz".to_string() };
    let io_error = error.to_io_error();
    assert_eq!(io_error.kind(), io::ErrorKind::InvalidData);
    assert_eq!(io_error.to_string(), "option 'zz' is not supported");
}
