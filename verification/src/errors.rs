//! The errors of parsing arguments and of building a parser configuration.
use vstd::prelude::*;

verus! {

/// An error met while parsing arguments or while checking a configuration.
#[derive(Debug, Clone, PartialEq, Eq)]
pub enum ArgotError {
    /// The text that stands for an integer is not one.
    InvalidInt { value: String },
    /// The integer is out of the range of a signed 64-bit integer.
    UnsafeInteger { value: String },
    /// The option takes an argument and none was given.
    NullArg { option: String, target: Option<String> },
    /// The option takes an integer argument and none was given.
    NullInt { option: String, target: Option<String> },
    /// The option is not in the configuration.
    UnknownOption { option: String },
    /// The option type is not one that the configuration knows.
    InvalidOptionType { tag: String },
    /// An alias names an option that is not in the configuration.
    AliasTargetNotFound { option: String, target: String },
    /// An alias names another alias.
    InvalidAliasTarget { option: String, target: String },
    /// A property that the option type needs is missing.
    MissingOptionProperty { option: String, property: String },
    /// The option has no type.
    MissingOptionType { option: String },
}

/// An [`ArgotError`] as plain values.
pub enum ErrorView {
    InvalidInt { value: Seq<char> },
    UnsafeInteger { value: Seq<char> },
    NullArg { option: Seq<char>, target: Option<Seq<char>> },
    NullInt { option: Seq<char>, target: Option<Seq<char>> },
    UnknownOption { option: Seq<char> },
    InvalidOptionType { tag: Seq<char> },
    AliasTargetNotFound { option: Seq<char>, target: Seq<char> },
    InvalidAliasTarget { option: Seq<char>, target: Seq<char> },
    MissingOptionProperty { option: Seq<char>, property: Seq<char> },
    MissingOptionType { option: Seq<char> },
}

/// An optional text as a plain value.
pub open spec fn opt_text(o: Option<String>) -> Option<Seq<char>> {
    match o {
        Some(s) => Some(s@),
        None => None,
    }
}

impl View for ArgotError {
    type V = ErrorView;

    open spec fn view(&self) -> ErrorView {
        match self {
            ArgotError::InvalidInt { value } => ErrorView::InvalidInt { value: value@ },
            ArgotError::UnsafeInteger { value } => ErrorView::UnsafeInteger { value: value@ },
            ArgotError::NullArg { option, target } => ErrorView::NullArg {
                option: option@,
                target: opt_text(*target),
            },
            ArgotError::NullInt { option, target } => ErrorView::NullInt {
                option: option@,
                target: opt_text(*target),
            },
            ArgotError::UnknownOption { option } => ErrorView::UnknownOption { option: option@ },
            ArgotError::InvalidOptionType { tag } => ErrorView::InvalidOptionType { tag: tag@ },
            ArgotError::AliasTargetNotFound { option, target } => ErrorView::AliasTargetNotFound {
                option: option@,
                target: target@,
            },
            ArgotError::InvalidAliasTarget { option, target } => ErrorView::InvalidAliasTarget {
                option: option@,
                target: target@,
            },
            ArgotError::MissingOptionProperty { option, property } =>
                ErrorView::MissingOptionProperty { option: option@, property: property@ },
            ArgotError::MissingOptionType { option } => ErrorView::MissingOptionType {
                option: option@,
            },
        }
    }
}

/// The text that describes an error to a user.
pub open spec fn error_message(e: ErrorView) -> Seq<char> {
    match e {
        ErrorView::InvalidInt { value } => "'"@ + value + "' is not a valid integer"@,
        ErrorView::UnsafeInteger { value } => "'"@ + value
            + "' is out of range for a signed 64-bit integer"@,
        ErrorView::NullArg { option, target } => match target {
            Some(t) => "option '"@ + option + "' (alias for '"@ + t + "') must take an argument"@,
            None => "option '"@ + option + "' must take an argument"@,
        },
        ErrorView::NullInt { option, target } => match target {
            Some(t) => "option '"@ + option + "' (alias for '"@ + t
                + "') requires an integer number argument"@,
            None => "option '"@ + option + "' requires an integer number argument"@,
        },
        ErrorView::UnknownOption { option } => "option '"@ + option + "' is not supported"@,
        ErrorView::InvalidOptionType { tag } => "option type '"@ + tag + "' is not supported"@,
        ErrorView::AliasTargetNotFound { option, target } => "target value '"@ + target
            + "' for option '"@ + option + "' was not found"@,
        ErrorView::InvalidAliasTarget { option, target } =>
            "cannot create an alias to another alias ('"@ + option + "' => '"@ + target + "')"@,
        ErrorView::MissingOptionProperty { option, property } => "option '"@ + option
            + "' is missing required property '"@ + property + "'"@,
        ErrorView::MissingOptionType { option } => "option '"@ + option
            + "' is missing required property 'type'"@,
    }
}

/// `'{a}{b}'`-style text: `p`, then `a`, then `s`.
fn wrap3(p: &str, a: &str, s: &str) -> (r: String)
    ensures
        r@ == p@ + a@ + s@,
{
    let mut r = String::from_str(p);
    r.append(a);
    r.append(s);
    r
}

/// `p`, `a`, `m`, `b`, `s` one after the other.
fn wrap5(p: &str, a: &str, m: &str, b: &str, s: &str) -> (r: String)
    ensures
        r@ == p@ + a@ + m@ + b@ + s@,
{
    let mut r = String::from_str(p);
    r.append(a);
    r.append(m);
    r.append(b);
    r.append(s);
    r
}

impl ArgotError {
    /// The text that describes the error to a user.
    pub fn to_string(&self) -> (r: String)
        ensures
            r@ == error_message(self@),
    {
        match self {
            ArgotError::InvalidInt { value } => wrap3("'", value.as_str(), "' is not a valid integer"),
            ArgotError::UnsafeInteger { value } => wrap3(
                "'",
                value.as_str(),
                "' is out of range for a signed 64-bit integer",
            ),
            ArgotError::NullArg { option, target } => match target {
                Some(t) => wrap5(
                    "option '",
                    option.as_str(),
                    "' (alias for '",
                    t.as_str(),
                    "') must take an argument",
                ),
                None => wrap3("option '", option.as_str(), "' must take an argument"),
            },
            ArgotError::NullInt { option, target } => match target {
                Some(t) => wrap5(
                    "option '",
                    option.as_str(),
                    "' (alias for '",
                    t.as_str(),
                    "') requires an integer number argument",
                ),
                None => wrap3("option '", option.as_str(), "' requires an integer number argument"),
            },
            ArgotError::UnknownOption { option } => wrap3(
                "option '",
                option.as_str(),
                "' is not supported",
            ),
            ArgotError::InvalidOptionType { tag } => wrap3(
                "option type '",
                tag.as_str(),
                "' is not supported",
            ),
            ArgotError::AliasTargetNotFound { option, target } => wrap5(
                "target value '",
                target.as_str(),
                "' for option '",
                option.as_str(),
                "' was not found",
            ),
            ArgotError::InvalidAliasTarget { option, target } => wrap5(
                "cannot create an alias to another alias ('",
                option.as_str(),
                "' => '",
                target.as_str(),
                "')",
            ),
            ArgotError::MissingOptionProperty { option, property } => wrap5(
                "option '",
                option.as_str(),
                "' is missing required property '",
                property.as_str(),
                "'",
            ),
            ArgotError::MissingOptionType { option } => wrap3(
                "option '",
                option.as_str(),
                "' is missing required property 'type'",
            ),
        }
    }

    /// The offending text of an integer error.
    pub fn value(&self) -> (r: Option<&str>)
        ensures
            match self@ {
                ErrorView::InvalidInt { value } => r matches Some(v) && v@ == value,
                ErrorView::UnsafeInteger { value } => r matches Some(v) && v@ == value,
                _ => r is None,
            },
    {
        match self {
            ArgotError::InvalidInt { value } => Some(value.as_str()),
            ArgotError::UnsafeInteger { value } => Some(value.as_str()),
            _ => None,
        }
    }

    /// The option that an error is about.
    pub fn option(&self) -> (r: Option<&str>)
        ensures
            match self@ {
                ErrorView::NullArg { option, .. } => r matches Some(v) && v@ == option,
                ErrorView::NullInt { option, .. } => r matches Some(v) && v@ == option,
                ErrorView::UnknownOption { option } => r matches Some(v) && v@ == option,
                ErrorView::AliasTargetNotFound { option, .. } => r matches Some(v) && v@ == option,
                ErrorView::InvalidAliasTarget { option, .. } => r matches Some(v) && v@ == option,
                ErrorView::MissingOptionProperty { option, .. } => r matches Some(v) && v@
                    == option,
                ErrorView::MissingOptionType { option } => r matches Some(v) && v@ == option,
                _ => r is None,
            },
    {
        match self {
            ArgotError::NullArg { option, .. } => Some(option.as_str()),
            ArgotError::NullInt { option, .. } => Some(option.as_str()),
            ArgotError::UnknownOption { option } => Some(option.as_str()),
            ArgotError::AliasTargetNotFound { option, .. } => Some(option.as_str()),
            ArgotError::InvalidAliasTarget { option, .. } => Some(option.as_str()),
            ArgotError::MissingOptionProperty { option, .. } => Some(option.as_str()),
            ArgotError::MissingOptionType { option } => Some(option.as_str()),
            _ => None,
        }
    }

    /// The alias target named by a missing-argument error, if the option was an alias.
    pub fn target(&self) -> (r: Option<&str>)
        ensures
            match self@ {
                ErrorView::NullArg { target, .. } => match target {
                    Some(t) => r matches Some(v) && v@ == t,
                    None => r is None,
                },
                ErrorView::NullInt { target, .. } => match target {
                    Some(t) => r matches Some(v) && v@ == t,
                    None => r is None,
                },
                _ => r is None,
            },
    {
        match self {
            ArgotError::NullArg { target, .. } => match target {
                Some(t) => Some(t.as_str()),
                None => None,
            },
            ArgotError::NullInt { target, .. } => match target {
                Some(t) => Some(t.as_str()),
                None => None,
            },
            _ => None,
        }
    }

    /// The option type named by an unsupported-type error.
    pub fn tag(&self) -> (r: Option<&str>)
        ensures
            match self@ {
                ErrorView::InvalidOptionType { tag } => r matches Some(v) && v@ == tag,
                _ => r is None,
            },
    {
        match self {
            ArgotError::InvalidOptionType { tag } => Some(tag.as_str()),
            _ => None,
        }
    }

    /// The option type named by an unsupported-type error; the same as [`ArgotError::tag`].
    pub fn option_type(&self) -> (r: Option<&str>)
        ensures
            match self@ {
                ErrorView::InvalidOptionType { tag } => r matches Some(v) && v@ == tag,
                _ => r is None,
            },
    {
        match self {
            ArgotError::InvalidOptionType { tag } => Some(tag.as_str()),
            _ => None,
        }
    }

    /// The property named by a missing-property error.
    pub fn property(&self) -> (r: Option<&str>)
        ensures
            match self@ {
                ErrorView::MissingOptionProperty { property, .. } => r matches Some(v) && v@
                    == property,
                _ => r is None,
            },
    {
        match self {
            ArgotError::MissingOptionProperty { property, .. } => Some(property.as_str()),
            _ => None,
        }
    }
}

#[verifier::external_type_specification]
#[verifier::external_body]
pub struct ExIoError(std::io::Error);

/// Whether `std::io::Error::kind` gives `std::io::ErrorKind::InvalidData` for `e`.
pub uninterp spec fn io_error_is_invalid_data(e: std::io::Error) -> bool;

/// The text that the `Display` form of `e` (`to_string`) gives.
pub uninterp spec fn io_error_text(e: std::io::Error) -> Seq<char>;

/// Wraps `msg` in an I/O error of the kind `InvalidData`.
///
/// Calls `std::io::Error::new(ErrorKind::InvalidData, msg)`. Its documentation gives the
/// error the kind it is made with, and an error made from a text payload displays as
/// that text; the contract claims those two things and nothing else of the error.
#[verifier::external_body]
fn invalid_data_error(msg: String) -> (r: std::io::Error)
    ensures
        io_error_is_invalid_data(r),
        io_error_text(r) == msg@,
{
    std::io::Error::new(std::io::ErrorKind::InvalidData, msg)
}

impl ArgotError {
    /// An I/O error of the kind `InvalidData` that carries the error's description.
    pub fn to_io_error(&self) -> (r: std::io::Error)
        ensures
            io_error_is_invalid_data(r),
            io_error_text(r) == error_message(self@),
    {
        let msg = self.to_string();
        invalid_data_error(msg)
    }
}

/// An I/O error is opaque here, so the trait's own contract names no result; the
/// conversion's contract is stated on [`From::from`] below.
impl vstd::std_specs::convert::FromSpecImpl<ArgotError> for std::io::Error {
    open spec fn obeys_from_spec() -> bool {
        false
    }

    open spec fn from_spec(v: ArgotError) -> std::io::Error {
        arbitrary()
    }
}

/// An argument error as an I/O error of the kind `InvalidData`.
impl From<ArgotError> for std::io::Error {
    fn from(err: ArgotError) -> (r: std::io::Error)
        ensures
            io_error_is_invalid_data(r),
            io_error_text(r) == error_message(err@),
    {
        err.to_io_error()
    }
}

} // verus!
