//! The values that configure a parser and the values that it produces.
use vstd::prelude::*;

use crate::strmap::StrMap;

verus! {

/// A list of texts as plain values.
pub open spec fn texts(v: Seq<String>) -> Seq<Seq<char>> {
    v.map_values(|s: String| s@)
}

/// How one option is configured.
#[derive(Debug, PartialEq)]
pub enum ConfigEntry {
    /// An option that is present or absent.
    Flag,
    /// An option that takes a text, with an optional default.
    Text { default: Option<String> },
    /// An option that takes an integer, with an optional default.
    Int { default: Option<i64> },
    /// An option that counts how often it is given.
    Count,
    /// An option that takes a list, split at `sep` (`,` when there is none).
    List { sep: Option<String> },
    /// Another name for the option `target`.
    Alias { target: String },
}

/// A [`ConfigEntry`] as plain values.
pub enum EntryView {
    Flag,
    Text { default: Option<Seq<char>> },
    Int { default: Option<i64> },
    Count,
    List { sep: Option<Seq<char>> },
    Alias { target: Seq<char> },
}

impl View for ConfigEntry {
    type V = EntryView;

    open spec fn view(&self) -> EntryView {
        match self {
            ConfigEntry::Flag => EntryView::Flag,
            ConfigEntry::Text { default } => EntryView::Text {
                default: crate::errors::opt_text(*default),
            },
            ConfigEntry::Int { default } => EntryView::Int { default: *default },
            ConfigEntry::Count => EntryView::Count,
            ConfigEntry::List { sep } => EntryView::List { sep: crate::errors::opt_text(*sep) },
            ConfigEntry::Alias { target } => EntryView::Alias { target: target@ },
        }
    }
}

/// A copy of an optional text.
fn clone_opt_text(o: &Option<String>) -> (r: Option<String>)
    ensures
        crate::errors::opt_text(r) == crate::errors::opt_text(*o),
{
    match o {
        Some(t) => Some(t.clone()),
        None => None,
    }
}

/// A copy of an entry, with the same texts.
impl Clone for ConfigEntry {
    fn clone(&self) -> (r: Self)
        ensures
            r@ == self@,
    {
        match self {
            ConfigEntry::Flag => ConfigEntry::Flag,
            ConfigEntry::Text { default } => ConfigEntry::Text { default: clone_opt_text(default) },
            ConfigEntry::Int { default } => ConfigEntry::Int { default: *default },
            ConfigEntry::Count => ConfigEntry::Count,
            ConfigEntry::List { sep } => ConfigEntry::List { sep: clone_opt_text(sep) },
            ConfigEntry::Alias { target } => ConfigEntry::Alias { target: target.clone() },
        }
    }
}

/// A configuration entry together with the name of its option.
#[derive(Debug, PartialEq)]
pub struct LabeledEntry {
    pub option: String,
    pub entry: ConfigEntry,
}

/// The configuration entries of a parser, given either as a map or as a list.
#[derive(Debug)]
pub enum ConfigEntries {
    Table(StrMap<ConfigEntry>),
    List(Vec<LabeledEntry>),
}

/// The labelled entries of a list, as plain values.
pub open spec fn labeled_entries(l: Seq<LabeledEntry>) -> Seq<(Seq<char>, EntryView)> {
    l.map_values(|e: LabeledEntry| (e.option@, e.entry@))
}

impl ConfigEntries {
    /// The entries in the order in which they are given, as plain values.
    pub open spec fn entry_seq(&self) -> Seq<(Seq<char>, EntryView)> {
        match self {
            ConfigEntries::Table(m) => m.entries(),
            ConfigEntries::List(l) => labeled_entries(l@),
        }
    }

    /// The number of entries.
    pub fn len(&self) -> (r: usize)
        ensures
            r == self.entry_seq().len(),
    {
        match self {
            ConfigEntries::Table(m) => m.len(),
            ConfigEntries::List(l) => l.len(),
        }
    }

    /// Whether there are no entries.
    pub fn is_empty(&self) -> (r: bool)
        ensures
            r == (self.entry_seq().len() == 0),
    {
        self.len() == 0
    }
}

/// One command-line argument, classified.
#[derive(Debug, Clone, PartialEq)]
pub enum CliArg {
    /// A GNU-style long option
    Long { name: String, value: Option<String> },
    /// A Unix-style short option
    Short { flags: String },
    /// A name=value parameter assignment
    Parameter(String, String),
    /// A positional argument
    Operand,
}

/// A [`CliArg`] as plain values.
pub enum CliArgView {
    Long { name: Seq<char>, value: Option<Seq<char>> },
    Short { flags: Seq<char> },
    Parameter(Seq<char>, Seq<char>),
    Operand,
}

impl View for CliArg {
    type V = CliArgView;

    open spec fn view(&self) -> CliArgView {
        match self {
            CliArg::Long { name, value } => CliArgView::Long {
                name: name@,
                value: crate::errors::opt_text(*value),
            },
            CliArg::Short { flags } => CliArgView::Short { flags: flags@ },
            CliArg::Parameter(n, v) => CliArgView::Parameter(n@, v@),
            CliArg::Operand => CliArgView::Operand,
        }
    }
}

/// The value that an option takes in a parse result.
#[derive(Clone, Debug, PartialEq)]
pub enum OptionValue {
    Flag,
    Text(String),
    Int(i64),
    List(Vec<String>),
}

/// An [`OptionValue`] as plain values.
pub enum ValueView {
    Flag,
    Text(Seq<char>),
    Int(i64),
    List(Seq<Seq<char>>),
}

impl View for OptionValue {
    type V = ValueView;

    open spec fn view(&self) -> ValueView {
        match self {
            OptionValue::Flag => ValueView::Flag,
            OptionValue::Text(t) => ValueView::Text(t@),
            OptionValue::Int(n) => ValueView::Int(*n),
            OptionValue::List(l) => ValueView::List(texts(l@)),
        }
    }
}

impl OptionValue {
    /// The text of a text value.
    pub fn unwrap_text(self) -> (r: String)
        requires
            self is Text,
        ensures
            self@ == ValueView::Text(r@),
    {
        match self {
            OptionValue::Text(text) => text,
            _ => unreached(),
        }
    }

    /// The integer of an integer value.
    pub fn unwrap_int(self) -> (r: i64)
        requires
            self is Int,
        ensures
            self@ == ValueView::Int(r),
    {
        match self {
            OptionValue::Int(n) => n,
            _ => unreached(),
        }
    }

    /// The items of a list value.
    pub fn unwrap_list(self) -> (r: Vec<String>)
        requires
            self is List,
        ensures
            self@ == ValueView::List(texts(r@)),
    {
        match self {
            OptionValue::List(l) => l,
            _ => unreached(),
        }
    }
}

/// Adding to an integer value is defined where the sum fits in an `i64`.
impl vstd::std_specs::ops::AddSpecImpl<i64> for OptionValue {
    open spec fn obeys_add_spec() -> bool {
        true
    }

    open spec fn add_req(self, other: i64) -> bool {
        &&& self is Int
        &&& i64::MIN <= self->Int_0 + other <= i64::MAX
    }

    open spec fn add_spec(self, other: i64) -> OptionValue {
        OptionValue::Int((self->Int_0 + other) as i64)
    }
}

/// An integer value increased by `other`.
impl std::ops::Add<i64> for OptionValue {
    type Output = OptionValue;

    fn add(self, other: i64) -> (r: OptionValue) {
        match self {
            OptionValue::Int(n) => OptionValue::Int(n + other),
            _ => unreached(),
        }
    }
}

/// A [`ParseResult`] as plain values.
pub struct ResultView {
    pub options: Map<Seq<char>, ValueView>,
    pub parameters: Map<Seq<char>, Seq<char>>,
    pub operands: Seq<Seq<char>>,
}

/// What a parser found in a list of arguments.
#[derive(Debug, Clone, PartialEq)]
pub struct ParseResult {
    options: StrMap<OptionValue>,
    parameters: StrMap<String>,
    operands: Vec<String>,
}

impl View for ParseResult {
    type V = ResultView;

    closed spec fn view(&self) -> ResultView {
        ResultView {
            options: self.options@,
            parameters: self.parameters@,
            operands: texts(self.operands@),
        }
    }
}

impl ParseResult {
    /// Gathers options, parameters and operands into a result.
    pub fn new(
        options: StrMap<OptionValue>,
        parameters: StrMap<String>,
        operands: Vec<String>,
    ) -> (r: Self)
        ensures
            r@ == (ResultView {
                options: options@,
                parameters: parameters@,
                operands: texts(operands@),
            }),
    {
        ParseResult { options, parameters, operands }
    }

    /// The options found, by the name under which they are configured.
    pub fn options(&self) -> (r: &StrMap<OptionValue>)
        ensures
            r@ == self@.options,
    {
        &self.options
    }

    /// The `name=value` parameters found.
    pub fn parameters(&self) -> (r: &StrMap<String>)
        ensures
            r@ == self@.parameters,
    {
        &self.parameters
    }

    /// The operands found, in order.
    pub fn operands(&self) -> (r: &[String])
        ensures
            texts(r@) == self@.operands,
    {
        self.operands.as_slice()
    }
}

} // verus!
