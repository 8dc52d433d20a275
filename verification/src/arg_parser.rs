//! Parsing a list of command-line arguments against a parser configuration.
use vstd::prelude::*;

use crate::errors::{ArgotError, ErrorView, opt_text};
use crate::parser_config::{ParserConfig, aliases_resolve};
use crate::strmap::StrMap;
use crate::types::{
    CliArg,
    CliArgView,
    ConfigEntry,
    EntryView,
    OptionValue,
    ParseResult,
    ResultView,
    ValueView,
    texts,
};
use crate::utils::{
    chars_of,
    int_text,
    lemma_first_index_found,
    lemma_int_text_round_trip,
    lemma_parameter_word,
    classify,
    get_opt_value,
    int_result,
    parse_int,
    split,
    split_text,
    err_view,
};

verus! {

/// A configuration as plain values.
pub type ConfigView = Map<Seq<char>, EntryView>;

/// An optional borrowed text as a plain value.
pub open spec fn opt_str(o: Option<&str>) -> Option<Seq<char>> {
    match o {
        Some(s) => Some(s@),
        None => None,
    }
}

/// The arguments as plain values.
pub open spec fn arg_texts(args: Seq<&str>) -> Seq<Seq<char>> {
    args.map_values(|s: &str| s@)
}

/// What a configured name stands for: the name under which its value is kept, the
/// entry that decides how the value is read, and the alias target if the name is an alias.
pub open spec fn resolve(cfg: ConfigView, name: Seq<char>) -> (Seq<char>, EntryView, Option<Seq<char>>) {
    match cfg[name] {
        EntryView::Alias { target } => (target, cfg[target], Some(target)),
        e => (name, e, None),
    }
}

/// The separator of a list option: the configured one, or a comma.
pub open spec fn list_sep(sep: Option<Seq<char>>) -> Seq<char> {
    match sep {
        Some(s) => s,
        None => ","@,
    }
}

/// The options found so far with one more value for `key`: a count adds to the count
/// already found (wrapping around on overflow), a list goes after the items already
/// found, and any other value replaces the one found before.
pub open spec fn merge(
    cfg: ConfigView,
    opts: Map<Seq<char>, ValueView>,
    key: Seq<char>,
    val: ValueView,
) -> Map<Seq<char>, ValueView> {
    if cfg.contains_key(key) && cfg[key] is Count && opts.contains_key(key) && opts[key] is Int
        && val is Int {
        opts.insert(key, ValueView::Int(opts[key]->Int_0.wrapping_add(val->Int_0)))
    } else if cfg.contains_key(key) && cfg[key] is List && opts.contains_key(key)
        && opts[key] is List && val is List {
        opts.insert(key, ValueView::List(opts[key]->List_0 + val->List_0))
    } else {
        opts.insert(key, val)
    }
}

/// The integer read from a text, as an option value.
pub open spec fn int_value(t: Seq<char>) -> Result<ValueView, ErrorView> {
    match int_result(t) {
        Ok(n) => Ok(ValueView::Int(n)),
        Err(e) => Err(e),
    }
}

/// The value of a long option `--name[=value]`, with the name under which it is kept.
pub open spec fn long_value(cfg: ConfigView, name: Seq<char>, value: Option<Seq<char>>) -> Result<
    (Seq<char>, ValueView),
    ErrorView,
> {
    if !cfg.contains_key(name) {
        Err(ErrorView::UnknownOption { option: name })
    } else {
        let (key, entry, via) = resolve(cfg, name);
        match entry {
            EntryView::Flag => Ok((key, ValueView::Flag)),
            EntryView::Text { default } => match value {
                Some(t) => Ok((key, ValueView::Text(t))),
                None => match default {
                    Some(d) => Ok((key, ValueView::Text(d))),
                    None => Err(ErrorView::NullArg { option: name, target: via }),
                },
            },
            EntryView::Int { default } => {
                if value is Some && value->0.len() > 0 {
                    match int_value(value->0) {
                        Ok(v) => Ok((key, v)),
                        Err(e) => Err(e),
                    }
                } else {
                    match default {
                        Some(d) => Ok((key, ValueView::Int(d))),
                        None => Err(ErrorView::NullInt { option: name, target: via }),
                    }
                }
            },
            EntryView::Count => match value {
                Some(t) => match int_value(t) {
                    Ok(v) => Ok((key, v)),
                    Err(e) => Err(e),
                },
                None => Ok((key, ValueView::Int(1))),
            },
            EntryView::List { sep } => match value {
                Some(t) => if t.len() == 0 {
                    Ok((key, ValueView::List(Seq::empty())))
                } else {
                    Ok((key, ValueView::List(split_text(t, list_sep(sep)))))
                },
                None => Err(ErrorView::NullArg { option: name, target: via }),
            },
            EntryView::Alias { target } => Err(
                ErrorView::InvalidAliasTarget { option: name, target },
            ),
        }
    }
}

/// Reading the cluster of short options `flags` from position `j` on, with `next` the
/// argument after the cluster: each flag character is an option; a flag or a count
/// leaves the rest of the cluster to be read, while a text, integer or list option takes
/// the rest of the cluster as its value, else its default, else the next argument.
/// Gives the options found and whether the next argument was taken.
pub open spec fn short_step(
    cfg: ConfigView,
    flags: Seq<char>,
    j: int,
    next: Option<Seq<char>>,
    opts: Map<Seq<char>, ValueView>,
) -> Result<(Map<Seq<char>, ValueView>, bool), ErrorView>
    decreases flags.len() - j,
{
    if j < 0 || j >= flags.len() {
        Ok((opts, false))
    } else {
        let name = seq![flags[j]];
        let rest = flags.skip(j + 1);
        if !cfg.contains_key(name) {
            Err(ErrorView::UnknownOption { option: name })
        } else {
            let (key, entry, via) = resolve(cfg, name);
            match entry {
                EntryView::Flag => short_step(
                    cfg,
                    flags,
                    j + 1,
                    next,
                    merge(cfg, opts, key, ValueView::Flag),
                ),
                EntryView::Count => short_step(
                    cfg,
                    flags,
                    j + 1,
                    next,
                    merge(cfg, opts, key, ValueView::Int(1)),
                ),
                EntryView::Text { default } => if rest.len() > 0 {
                    Ok((merge(cfg, opts, key, ValueView::Text(rest)), false))
                } else {
                    match default {
                        Some(d) => Ok((merge(cfg, opts, key, ValueView::Text(d)), false)),
                        None => match next {
                            Some(v) => Ok((merge(cfg, opts, key, ValueView::Text(v)), true)),
                            None => Err(ErrorView::NullArg { option: name, target: via }),
                        },
                    }
                },
                EntryView::Int { default } => if rest.len() > 0 {
                    match int_value(rest) {
                        Ok(v) => Ok((merge(cfg, opts, key, v), false)),
                        Err(e) => Err(e),
                    }
                } else {
                    match default {
                        Some(d) => Ok((merge(cfg, opts, key, ValueView::Int(d)), false)),
                        None => match next {
                            Some(v) => match int_value(v) {
                                Ok(x) => Ok((merge(cfg, opts, key, x), true)),
                                Err(e) => Err(e),
                            },
                            None => Err(ErrorView::NullInt { option: name, target: via }),
                        },
                    }
                },
                EntryView::List { sep } => if rest.len() > 0 {
                    Ok(
                        (
                            merge(cfg, opts, key, ValueView::List(split_text(rest, list_sep(sep)))),
                            false,
                        ),
                    )
                } else {
                    match next {
                        Some(v) => if v.len() == 0 {
                            Ok((merge(cfg, opts, key, ValueView::List(Seq::empty())), true))
                        } else {
                            Ok(
                                (
                                    merge(
                                        cfg,
                                        opts,
                                        key,
                                        ValueView::List(split_text(v, list_sep(sep))),
                                    ),
                                    true,
                                ),
                            )
                        },
                        None => Err(ErrorView::NullArg { option: name, target: via }),
                    }
                },
                EntryView::Alias { target } => Err(
                    ErrorView::InvalidAliasTarget { option: name, target },
                ),
            }
        }
    }
}

/// Without an argument after the cluster, reading the cluster takes none.
proof fn lemma_short_step_no_next(
    cfg: ConfigView,
    flags: Seq<char>,
    j: int,
    opts: Map<Seq<char>, ValueView>,
)
    ensures
        short_step(cfg, flags, j, None, opts) matches Ok((_, used)) ==> !used,
    decreases flags.len() - j,
{
    if 0 <= j < flags.len() {
        let name = seq![flags[j]];
        if cfg.contains_key(name) {
            let (key, entry, via) = resolve(cfg, name);
            match entry {
                EntryView::Flag => {
                    lemma_short_step_no_next(cfg, flags, j + 1, merge(cfg, opts, key, ValueView::Flag));
                },
                EntryView::Count => {
                    lemma_short_step_no_next(
                        cfg,
                        flags,
                        j + 1,
                        merge(cfg, opts, key, ValueView::Int(1)),
                    );
                },
                _ => {},
            }
        }
    }
}

/// The result found so far with one more operand.
pub open spec fn with_operand(st: ResultView, a: Seq<char>) -> ResultView {
    ResultView { options: st.options, parameters: st.parameters, operands: st.operands.push(a) }
}

/// The result found so far with other options.
pub open spec fn with_options(st: ResultView, o: Map<Seq<char>, ValueView>) -> ResultView {
    ResultView { options: o, parameters: st.parameters, operands: st.operands }
}

/// Reading the arguments from position `i` on, with `st` found so far and `stop` set once
/// a `--` has been read: after `--` every argument is an operand; before it, each argument
/// is read as [`classify`] says, and a cluster of short options may take the argument after it.
pub open spec fn parse_from(
    cfg: ConfigView,
    args: Seq<Seq<char>>,
    i: int,
    stop: bool,
    st: ResultView,
) -> Result<ResultView, ErrorView>
    decreases args.len() + 1 - i,
{
    if i < 0 || i >= args.len() {
        Ok(st)
    } else {
        let a = args[i];
        if stop {
            parse_from(cfg, args, i + 1, true, with_operand(st, a))
        } else if a == seq!['-', '-'] {
            parse_from(cfg, args, i + 1, true, st)
        } else {
            match classify(a) {
                CliArgView::Operand => parse_from(cfg, args, i + 1, false, with_operand(st, a)),
                CliArgView::Parameter(n, v) => parse_from(
                    cfg,
                    args,
                    i + 1,
                    false,
                    ResultView {
                        options: st.options,
                        parameters: st.parameters.insert(n, v),
                        operands: st.operands,
                    },
                ),
                CliArgView::Long { name, value } => match long_value(cfg, name, value) {
                    Ok((k, v)) => parse_from(
                        cfg,
                        args,
                        i + 1,
                        false,
                        with_options(st, merge(cfg, st.options, k, v)),
                    ),
                    Err(e) => Err(e),
                },
                CliArgView::Short { flags } => {
                    let next = if i + 1 < args.len() {
                        Some(args[i + 1])
                    } else {
                        None
                    };
                    match short_step(cfg, flags, 0, next, st.options) {
                        Ok((o, used)) => parse_from(
                            cfg,
                            args,
                            if used {
                                i + 2
                            } else {
                                i + 1
                            },
                            false,
                            with_options(st, o),
                        ),
                        Err(e) => Err(e),
                    }
                },
            }
        }
    }
}

/// The result of parsing `args` with the configuration `cfg`.
pub open spec fn parse_args(cfg: ConfigView, args: Seq<Seq<char>>) -> Result<ResultView, ErrorView> {
    parse_from(
        cfg,
        args,
        0,
        false,
        ResultView { options: Map::empty(), parameters: Map::empty(), operands: Seq::empty() },
    )
}

/// A parser of command-line arguments.
#[derive(Debug)]
pub struct ArgParser {
    configs: ParserConfig,
}

/// A copy of a list of texts.
fn copy_texts(v: &Vec<String>) -> (r: Vec<String>)
    ensures
        texts(r@) == texts(v@),
{
    let mut r: Vec<String> = Vec::new();
    let n = v.len();
    let mut i: usize = 0;
    while i < n
        invariant
            n == v@.len(),
            i <= n,
            texts(r@) == texts(v@.take(i as int)),
        decreases n - i,
    {
        let ghost before = r@;
        let item = v[i].clone();
        r.push(item);
        assert(r@ =~= before.push(v@[i as int]));
        assert(v@.take(i + 1) =~= v@.take(i as int).push(v@[i as int]));
        assert(texts(r@) =~= texts(before).push(v@[i as int]@));
        assert(texts(v@.take(i + 1)) =~= texts(v@.take(i as int)).push(v@[i as int]@));
        i = i + 1;
    }
    assert(v@.take(n as int) =~= v@);
    r
}

/// Whether `arg` is `--`.
fn is_double_dash(arg: &str) -> (r: bool)
    ensures
        r == (arg@ == seq!['-', '-']),
{
    let c = chars_of(arg);
    if c.len() == 2 && c[0] == '-' && c[1] == '-' {
        assert(arg@ =~= seq!['-', '-']);
        true
    } else {
        assert(arg@ != seq!['-', '-']) by {
            if arg@ == seq!['-', '-'] {
                assert(c@.len() == 2 && c@[0] == '-' && c@[1] == '-');
            }
        }
        false
    }
}

impl ArgParser {
    /// The configuration of the parser, as plain values.
    pub closed spec fn config(&self) -> ConfigView {
        self.configs@
    }

    /// A parser for the options of `configs`.
    pub fn new(configs: ParserConfig) -> (r: Self)
        ensures
            r.config() == configs@,
    {
        ArgParser { configs }
    }

    /// What `name` stands for in the configuration, if it is configured.
    fn resolve(&self, name: &str) -> (r: Option<(String, &ConfigEntry, Option<String>)>)
        ensures
            r is Some <==> self.config().contains_key(name@),
            r matches Some(p) ==> (p.0@, p.1@, opt_text(p.2)) == resolve(self.config(), name@),
            r matches Some(p) ==> self.config().contains_key(p.0@) && !(p.1@ is Alias)
                && p.1@ == self.config()[p.0@],
    {
        proof {
            use_type_invariant(&self.configs);
        }
        match self.configs.get(name) {
            None => None,
            Some(entry) => match entry {
                ConfigEntry::Alias { target } => {
                    match self.configs.get(target.as_str()) {
                        Some(t) => Some((target.clone(), t, Some(target.clone()))),
                        None => unreached(),
                    }
                },
                _ => Some((name.to_string(), entry, None)),
            },
        }
    }

    /// Adds the value `val` for `key` to the options found so far, as [`merge`] says.
    fn merge_into(&self, options: &mut StrMap<OptionValue>, key: String, val: OptionValue)
        ensures
            final(options)@ == merge(self.config(), old(options)@, key@, val@),
    {
        let is_count = match self.configs.get(key.as_str()) {
            Some(ConfigEntry::Count) => true,
            _ => false,
        };
        let is_list = match self.configs.get(key.as_str()) {
            Some(ConfigEntry::List { .. }) => true,
            _ => false,
        };
        if is_count {
            if let OptionValue::Int(new) = val {
                let old_value = match options.get(key.as_str()) {
                    Some(OptionValue::Int(old)) => Some(*old),
                    _ => None,
                };
                if let Some(old) = old_value {
                    options.insert(key, OptionValue::Int(old.wrapping_add(new)));
                    return ;
                }
            }
        } else if is_list {
            if let OptionValue::List(new) = val {
                let old_items = match options.get(key.as_str()) {
                    Some(OptionValue::List(old)) => Some(copy_texts(old)),
                    _ => None,
                };
                match old_items {
                    Some(items) => {
                        let mut items = items;
                        let mut new = new;
                        let ghost a = items@;
                        let ghost b = new@;
                        items.append(&mut new);
                        assert(texts(items@) =~= texts(a) + texts(b));
                        options.insert(key, OptionValue::List(items));
                    },
                    None => {
                        options.insert(key, OptionValue::List(new));
                    },
                }
                return ;
            }
        }
        options.insert(key, val);
    }

    /// The value of the long option `--name[=value]`, with the name under which it is kept.
    fn parse_long_option(&self, name: &str, value: Option<&str>) -> (r: Result<
        (String, OptionValue),
        ArgotError,
    >)
        ensures
            match long_value(self.config(), name@, opt_str(value)) {
                Ok((k, v)) => r matches Ok(p) && p.0@ == k && p.1@ == v,
                Err(e) => r matches Err(x) && x@ == e,
            },
    {
        let (key, entry, via) = match self.resolve(name) {
            None => {
                return Err(ArgotError::UnknownOption { option: name.to_string() });
            },
            Some(p) => p,
        };
        match entry {
            ConfigEntry::Flag => Ok((key, OptionValue::Flag)),
            ConfigEntry::Text { default } => match value {
                Some(t) => Ok((key, OptionValue::Text(t.to_string()))),
                None => match default {
                    Some(d) => Ok((key, OptionValue::Text(d.clone()))),
                    None => Err(ArgotError::NullArg { option: name.to_string(), target: via }),
                },
            },
            ConfigEntry::Int { default } => {
                let given = match value {
                    Some(t) => if t.unicode_len() > 0 {
                        Some(t)
                    } else {
                        None
                    },
                    None => None,
                };
                match given {
                    Some(t) => match parse_int(t) {
                        Ok(n) => Ok((key, OptionValue::Int(n))),
                        Err(e) => Err(e),
                    },
                    None => match default {
                        Some(d) => Ok((key, OptionValue::Int(*d))),
                        None => Err(ArgotError::NullInt { option: name.to_string(), target: via }),
                    },
                }
            },
            ConfigEntry::Count => match value {
                Some(t) => match parse_int(t) {
                    Ok(n) => Ok((key, OptionValue::Int(n))),
                    Err(e) => Err(e),
                },
                None => Ok((key, OptionValue::Int(1))),
            },
            ConfigEntry::List { sep } => match value {
                Some(t) => if t.unicode_len() == 0 {
                    let empty: Vec<String> = Vec::new();
                    assert(texts(empty@) =~= Seq::<Seq<char>>::empty());
                    Ok((key, OptionValue::List(empty)))
                } else {
                    let sep_text: &str = match sep {
                        Some(s) => s.as_str(),
                        None => ",",
                    };
                    assert(sep_text@ == list_sep(opt_text(*sep)));
                    let items = split(t, sep_text);
                    Ok((key, OptionValue::List(items)))
                },
                None => Err(ArgotError::NullArg { option: name.to_string(), target: via }),
            },
            ConfigEntry::Alias { .. } => unreached(),
        }
    }

    /// Reads the cluster of short options `flags`, as [`short_step`] says, adding what it
    /// finds to `options`; tells whether the argument `next` was taken as a value.
    fn parse_short_option(
        &self,
        flags: &str,
        next: Option<&str>,
        options: &mut StrMap<OptionValue>,
    ) -> (r: Result<bool, ArgotError>)
        ensures
            match short_step(self.config(), flags@, 0, opt_str(next), old(options)@) {
                Ok((o, used)) => r == Ok::<bool, ArgotError>(used) && final(options)@ == o,
                Err(e) => r matches Err(x) && x@ == e,
            },
    {
        let ghost cfg = self.config();
        let ghost nx = opt_str(next);
        let chars = chars_of(flags);
        let n = chars.len();
        let mut j: usize = 0;
        while j < n
            invariant
                n == flags@.len(),
                chars@ == flags@,
                j <= n,
                cfg == self.config(),
                nx == opt_str(next),
                short_step(cfg, flags@, j as int, nx, options@) == short_step(
                    cfg,
                    flags@,
                    0,
                    nx,
                    old(options)@,
                ),
            decreases n - j,
        {
            let name_str = flags.substring_char(j, j + 1);
            assert(name_str@ =~= seq![flags@[j as int]]);
            let rest = flags.substring_char(j + 1, n);
            assert(rest@ =~= flags@.skip(j + 1));
            let (key, entry, via) = match self.resolve(name_str) {
                None => {
                    return Err(ArgotError::UnknownOption { option: name_str.to_string() });
                },
                Some(p) => p,
            };
            let has_rest = j + 1 < n;
            match entry {
                ConfigEntry::Flag => {
                    self.merge_into(options, key, OptionValue::Flag);
                },
                ConfigEntry::Count => {
                    self.merge_into(options, key, OptionValue::Int(1));
                },
                ConfigEntry::Text { default } => {
                    if has_rest {
                        self.merge_into(options, key, OptionValue::Text(rest.to_string()));
                        return Ok(false);
                    }
                    match default {
                        Some(d) => {
                            self.merge_into(options, key, OptionValue::Text(d.clone()));
                            return Ok(false);
                        },
                        None => {},
                    }
                    match next {
                        Some(v) => {
                            self.merge_into(options, key, OptionValue::Text(v.to_string()));
                            return Ok(true);
                        },
                        None => {
                            return Err(
                                ArgotError::NullArg { option: name_str.to_string(), target: via },
                            );
                        },
                    }
                },
                ConfigEntry::Int { default } => {
                    if has_rest {
                        match parse_int(rest) {
                            Ok(x) => {
                                self.merge_into(options, key, OptionValue::Int(x));
                                return Ok(false);
                            },
                            Err(e) => {
                                return Err(e);
                            },
                        }
                    }
                    match default {
                        Some(d) => {
                            self.merge_into(options, key, OptionValue::Int(*d));
                            return Ok(false);
                        },
                        None => {},
                    }
                    match next {
                        Some(v) => match parse_int(v) {
                            Ok(x) => {
                                self.merge_into(options, key, OptionValue::Int(x));
                                return Ok(true);
                            },
                            Err(e) => {
                                return Err(e);
                            },
                        },
                        None => {
                            return Err(
                                ArgotError::NullInt { option: name_str.to_string(), target: via },
                            );
                        },
                    }
                },
                ConfigEntry::List { sep } => {
                    let sep_text: &str = match sep {
                        Some(s) => s.as_str(),
                        None => ",",
                    };
                    assert(sep_text@ == list_sep(opt_text(*sep)));
                    if has_rest {
                        let items = split(rest, sep_text);
                        self.merge_into(options, key, OptionValue::List(items));
                        return Ok(false);
                    }
                    match next {
                        Some(v) => {
                            if v.unicode_len() == 0 {
                                let empty: Vec<String> = Vec::new();
                                assert(texts(empty@) =~= Seq::<Seq<char>>::empty());
                                self.merge_into(options, key, OptionValue::List(empty));
                            } else {
                                let items = split(v, sep_text);
                                self.merge_into(options, key, OptionValue::List(items));
                            }
                            return Ok(true);
                        },
                        None => {
                            return Err(
                                ArgotError::NullArg { option: name_str.to_string(), target: via },
                            );
                        },
                    }
                },
                ConfigEntry::Alias { .. } => unreached(),
            }
            j = j + 1;
        }
        Ok(false)
    }

    /// Parses `args`: options as the configuration says, `name=value` parameters, and
    /// operands, where every argument after the first `--` is an operand.
    pub fn parse(&self, args: &[&str]) -> (r: Result<ParseResult, ArgotError>)
        ensures
            aliases_resolve(self.config()),
            match parse_args(self.config(), arg_texts(args@)) {
                Ok(v) => r matches Ok(res) && res@ == v,
                Err(e) => r matches Err(x) && x@ == e,
            },
    {
        proof {
            use_type_invariant(&self.configs);
        }
        let ghost cfg = self.config();
        let ghost a = arg_texts(args@);
        let mut options: StrMap<OptionValue> = StrMap::new();
        let mut parameters: StrMap<String> = StrMap::new();
        let mut operands: Vec<String> = Vec::new();
        let mut stop = false;
        let n = args.len();
        let mut i: usize = 0;
        assert(texts(operands@) =~= Seq::<Seq<char>>::empty());
        while i < n
            invariant
                n == args@.len(),
                a == arg_texts(args@),
                cfg == self.config(),
                aliases_resolve(cfg),
                i <= n,
                parse_from(
                    cfg,
                    a,
                    i as int,
                    stop,
                    ResultView {
                        options: options@,
                        parameters: parameters@,
                        operands: texts(operands@),
                    },
                ) == parse_args(cfg, a),
            decreases n - i,
        {
            let arg: &str = args[i];
            assert(arg@ == a[i as int]);
            if stop {
                let ghost before = operands@;
                operands.push(arg.to_string());
                assert(texts(operands@) =~= texts(before).push(arg@));
                i = i + 1;
                continue;
            }
            if is_double_dash(arg) {
                stop = true;
                i = i + 1;
                continue;
            }
            match get_opt_value(arg) {
                CliArg::Operand => {
                    let ghost before = operands@;
                    operands.push(arg.to_string());
                    assert(texts(operands@) =~= texts(before).push(arg@));
                },
                CliArg::Parameter(name, value) => {
                    parameters.insert(name, value);
                },
                CliArg::Long { name, value } => {
                    let v: Option<&str> = match &value {
                        Some(t) => Some(t.as_str()),
                        None => None,
                    };
                    match self.parse_long_option(name.as_str(), v) {
                        Ok((key, val)) => {
                            self.merge_into(&mut options, key, val);
                        },
                        Err(e) => {
                            return Err(e);
                        },
                    }
                },
                CliArg::Short { flags } => {
                    let next: Option<&str> = if i + 1 < n {
                        Some(args[i + 1])
                    } else {
                        None
                    };
                    assert(opt_str(next) == (if i + 1 < a.len() {
                        Some(a[i + 1])
                    } else {
                        None::<Seq<char>>
                    }));
                    proof {
                        lemma_short_step_no_next(cfg, flags@, 0, options@);
                    }
                    match self.parse_short_option(flags.as_str(), next, &mut options) {
                        Ok(used) => {
                            if used {
                                i = i + 1;
                            }
                        },
                        Err(e) => {
                            return Err(e);
                        },
                    }
                },
            }
            i = i + 1;
        }
        Ok(ParseResult::new(options, parameters, operands))
    }
}

/// A value of the kind that the entry `e` gives its option.
pub open spec fn value_fits(e: EntryView, v: ValueView) -> bool {
    match e {
        EntryView::Flag => v is Flag,
        EntryView::Text { .. } => v is Text,
        EntryView::Int { .. } => v is Int,
        EntryView::Count => v is Int,
        EntryView::List { .. } => v is List,
        EntryView::Alias { .. } => false,
    }
}

/// Every option found is configured under its name, is not an alias, and holds a value
/// of the kind that its entry gives.
pub open spec fn options_fit(cfg: ConfigView, opts: Map<Seq<char>, ValueView>) -> bool {
    forall|k: Seq<char>|
        #[trigger] opts.contains_key(k) ==> cfg.contains_key(k) && value_fits(cfg[k], opts[k])
}

proof fn lemma_resolve_fits(cfg: ConfigView, name: Seq<char>)
    requires
        aliases_resolve(cfg),
        cfg.contains_key(name),
    ensures
        cfg.contains_key(resolve(cfg, name).0),
        cfg[resolve(cfg, name).0] == resolve(cfg, name).1,
        !(resolve(cfg, name).1 is Alias),
{
    assert(cfg.contains_key(name));
}

proof fn lemma_merge_fits(
    cfg: ConfigView,
    opts: Map<Seq<char>, ValueView>,
    key: Seq<char>,
    val: ValueView,
)
    requires
        options_fit(cfg, opts),
        cfg.contains_key(key),
        value_fits(cfg[key], val),
    ensures
        options_fit(cfg, merge(cfg, opts, key, val)),
{
    let m = merge(cfg, opts, key, val);
    assert forall|k: Seq<char>| #[trigger] m.contains_key(k) implies cfg.contains_key(k)
        && value_fits(cfg[k], m[k]) by {
        if k != key {
            assert(opts.contains_key(k));
        }
    }
}

proof fn lemma_long_fits(cfg: ConfigView, name: Seq<char>, value: Option<Seq<char>>)
    requires
        aliases_resolve(cfg),
    ensures
        long_value(cfg, name, value) matches Ok((k, v)) ==> cfg.contains_key(k) && value_fits(
            cfg[k],
            v,
        ),
{
    if cfg.contains_key(name) {
        lemma_resolve_fits(cfg, name);
    }
}

proof fn lemma_short_fits(
    cfg: ConfigView,
    flags: Seq<char>,
    j: int,
    next: Option<Seq<char>>,
    opts: Map<Seq<char>, ValueView>,
)
    requires
        aliases_resolve(cfg),
        options_fit(cfg, opts),
    ensures
        short_step(cfg, flags, j, next, opts) matches Ok((o, _)) ==> options_fit(cfg, o),
    decreases flags.len() - j,
{
    if 0 <= j < flags.len() {
        let name = seq![flags[j]];
        if cfg.contains_key(name) {
            lemma_resolve_fits(cfg, name);
            let (key, entry, via) = resolve(cfg, name);
            let rest = flags.skip(j + 1);
            match entry {
                EntryView::Flag => {
                    lemma_merge_fits(cfg, opts, key, ValueView::Flag);
                    lemma_short_fits(cfg, flags, j + 1, next, merge(cfg, opts, key, ValueView::Flag));
                },
                EntryView::Count => {
                    lemma_merge_fits(cfg, opts, key, ValueView::Int(1));
                    lemma_short_fits(
                        cfg,
                        flags,
                        j + 1,
                        next,
                        merge(cfg, opts, key, ValueView::Int(1)),
                    );
                },
                EntryView::Text { default } => {
                    lemma_merge_fits(cfg, opts, key, ValueView::Text(rest));
                    if default is Some {
                        lemma_merge_fits(cfg, opts, key, ValueView::Text(default->0));
                    }
                    if next is Some {
                        lemma_merge_fits(cfg, opts, key, ValueView::Text(next->0));
                    }
                },
                EntryView::Int { default } => {
                    if int_value(rest) is Ok {
                        lemma_merge_fits(cfg, opts, key, int_value(rest)->Ok_0);
                    }
                    if default is Some {
                        lemma_merge_fits(cfg, opts, key, ValueView::Int(default->0));
                    }
                    if next is Some && int_value(next->0) is Ok {
                        lemma_merge_fits(cfg, opts, key, int_value(next->0)->Ok_0);
                    }
                },
                EntryView::List { sep } => {
                    lemma_merge_fits(
                        cfg,
                        opts,
                        key,
                        ValueView::List(split_text(rest, list_sep(sep))),
                    );
                    lemma_merge_fits(cfg, opts, key, ValueView::List(Seq::empty()));
                    if next is Some {
                        lemma_merge_fits(
                            cfg,
                            opts,
                            key,
                            ValueView::List(split_text(next->0, list_sep(sep))),
                        );
                    }
                },
                EntryView::Alias { .. } => {},
            }
        }
    }
}

proof fn lemma_parse_from_fits(
    cfg: ConfigView,
    args: Seq<Seq<char>>,
    i: int,
    stop: bool,
    st: ResultView,
)
    requires
        aliases_resolve(cfg),
        options_fit(cfg, st.options),
    ensures
        parse_from(cfg, args, i, stop, st) matches Ok(r) ==> options_fit(cfg, r.options),
    decreases args.len() + 1 - i,
{
    if 0 <= i < args.len() {
        let a = args[i];
        if stop {
            lemma_parse_from_fits(cfg, args, i + 1, true, with_operand(st, a));
        } else if a == seq!['-', '-'] {
            lemma_parse_from_fits(cfg, args, i + 1, true, st);
        } else {
            match classify(a) {
                CliArgView::Operand => {
                    lemma_parse_from_fits(cfg, args, i + 1, false, with_operand(st, a));
                },
                CliArgView::Parameter(n, v) => {
                    lemma_parse_from_fits(
                        cfg,
                        args,
                        i + 1,
                        false,
                        ResultView {
                            options: st.options,
                            parameters: st.parameters.insert(n, v),
                            operands: st.operands,
                        },
                    );
                },
                CliArgView::Long { name, value } => {
                    lemma_long_fits(cfg, name, value);
                    if let Ok((k, v)) = long_value(cfg, name, value) {
                        lemma_merge_fits(cfg, st.options, k, v);
                        lemma_parse_from_fits(
                            cfg,
                            args,
                            i + 1,
                            false,
                            with_options(st, merge(cfg, st.options, k, v)),
                        );
                    }
                },
                CliArgView::Short { flags } => {
                    let next = if i + 1 < args.len() {
                        Some(args[i + 1])
                    } else {
                        None
                    };
                    lemma_short_fits(cfg, flags, 0, next, st.options);
                    if let Ok((o, used)) = short_step(cfg, flags, 0, next, st.options) {
                        lemma_parse_from_fits(
                            cfg,
                            args,
                            if used {
                                i + 2
                            } else {
                                i + 1
                            },
                            false,
                            with_options(st, o),
                        );
                    }
                },
            }
        }
    }
}

/// Every option in a parse result is configured under the name it is kept under, is not
/// an alias, and holds a value of the kind its entry gives: a flag for a flag, a text for
/// a text option, an integer for an integer or count option, a list for a list option.
pub proof fn lemma_parse_options_fit(cfg: ConfigView, args: Seq<Seq<char>>)
    requires
        aliases_resolve(cfg),
    ensures
        parse_args(cfg, args) matches Ok(r) ==> options_fit(cfg, r.options),
{
    lemma_parse_from_fits(
        cfg,
        args,
        0,
        false,
        ResultView { options: Map::empty(), parameters: Map::empty(), operands: Seq::empty() },
    );
}

/// Once `--` has been read, every argument that follows is an operand, in order, and
/// nothing else changes.
pub proof fn lemma_rest_are_operands(cfg: ConfigView, args: Seq<Seq<char>>, i: int, st: ResultView)
    requires
        0 <= i <= args.len(),
    ensures
        parse_from(cfg, args, i, true, st) == Ok::<ResultView, ErrorView>(
            ResultView {
                options: st.options,
                parameters: st.parameters,
                operands: st.operands + args.subrange(i, args.len() as int),
            },
        ),
    decreases args.len() - i,
{
    if i == args.len() {
        assert(st.operands + args.subrange(i, args.len() as int) =~= st.operands);
    } else {
        lemma_rest_are_operands(cfg, args, i + 1, with_operand(st, args[i]));
        assert(st.operands.push(args[i]) + args.subrange(i + 1, args.len() as int) =~= st.operands
            + args.subrange(i, args.len() as int));
    }
}

/// Arguments that begin with `--` parse to no options, no parameters, and all the
/// arguments after that `--` as operands.
pub proof fn lemma_leading_double_dash(cfg: ConfigView, args: Seq<Seq<char>>)
    requires
        args.len() > 0,
        args[0] == seq!['-', '-'],
    ensures
        parse_args(cfg, args) == Ok::<ResultView, ErrorView>(
            ResultView { options: Map::empty(), parameters: Map::empty(), operands: args.skip(1) },
        ),
{
    let st = ResultView { options: Map::empty(), parameters: Map::empty(), operands: Seq::empty() };
    lemma_rest_are_operands(cfg, args, 1, st);
    assert(Seq::<Seq<char>>::empty() + args.subrange(1, args.len() as int) =~= args.skip(1));
}

/// A long option given by an alias gives what the option it names gives: it succeeds
/// exactly when the target succeeds, and then with the same value kept under the same name.
pub proof fn lemma_long_alias_same(
    cfg: ConfigView,
    alias: Seq<char>,
    target: Seq<char>,
    value: Option<Seq<char>>,
)
    requires
        aliases_resolve(cfg),
        cfg.contains_key(alias),
        cfg[alias] == (EntryView::Alias { target }),
    ensures
        long_value(cfg, alias, value) is Ok <==> long_value(cfg, target, value) is Ok,
        long_value(cfg, alias, value) is Ok ==> long_value(cfg, alias, value) == long_value(
            cfg,
            target,
            value,
        ),
{
    assert(cfg.contains_key(alias));
    assert(cfg.contains_key(target) && !(cfg[target] is Alias));
}

/// Reading a cluster from position `j` is reading the cluster without its first flag
/// from position `j - 1`.
proof fn lemma_short_step_shift(
    cfg: ConfigView,
    flags: Seq<char>,
    j: int,
    next: Option<Seq<char>>,
    opts: Map<Seq<char>, ValueView>,
)
    requires
        1 <= j,
        flags.len() >= 1,
    ensures
        short_step(cfg, flags, j, next, opts) == short_step(cfg, flags.skip(1), j - 1, next, opts),
    decreases flags.len() - j,
{
    let t = flags.skip(1);
    if j < flags.len() {
        assert(t[j - 1] == flags[j]);
        assert(t.skip(j) =~= flags.skip(j + 1));
        let name = seq![flags[j]];
        if cfg.contains_key(name) {
            let (key, entry, via) = resolve(cfg, name);
            match entry {
                EntryView::Flag => {
                    lemma_short_step_shift(cfg, flags, j + 1, next, merge(cfg, opts, key, ValueView::Flag));
                },
                EntryView::Count => {
                    lemma_short_step_shift(
                        cfg,
                        flags,
                        j + 1,
                        next,
                        merge(cfg, opts, key, ValueView::Int(1)),
                    );
                },
                _ => {},
            }
        }
    }
}

/// In a cluster of short options, a flag or count option reads as its long form
/// `--c` does, and the rest of the cluster reads as a cluster of its own: `-abc` is
/// `-a` followed by `-bc`.
pub proof fn lemma_cluster_splits(
    cfg: ConfigView,
    flags: Seq<char>,
    next: Option<Seq<char>>,
    opts: Map<Seq<char>, ValueView>,
)
    requires
        aliases_resolve(cfg),
        flags.len() >= 1,
        cfg.contains_key(seq![flags[0]]),
        resolve(cfg, seq![flags[0]]).1 is Flag || resolve(cfg, seq![flags[0]]).1 is Count,
    ensures
        long_value(cfg, seq![flags[0]], None) matches Ok((k, v)) && short_step(
            cfg,
            flags,
            0,
            next,
            opts,
        ) == short_step(cfg, flags.skip(1), 0, next, merge(cfg, opts, k, v)),
{
    let (key, entry, via) = resolve(cfg, seq![flags[0]]);
    match entry {
        EntryView::Flag => {
            lemma_short_step_shift(cfg, flags, 1, next, merge(cfg, opts, key, ValueView::Flag));
        },
        _ => {
            lemma_short_step_shift(cfg, flags, 1, next, merge(cfg, opts, key, ValueView::Int(1)));
        },
    }
}

/// A short option of a text, integer or list kind with its value attached, `-oVALUE`,
/// reads as the long form `--o=VALUE` does, and takes no further argument.
pub proof fn lemma_attached_value_same_as_long(
    cfg: ConfigView,
    flags: Seq<char>,
    next: Option<Seq<char>>,
    opts: Map<Seq<char>, ValueView>,
)
    requires
        aliases_resolve(cfg),
        flags.len() >= 2,
        cfg.contains_key(seq![flags[0]]),
        !(resolve(cfg, seq![flags[0]]).1 is Flag),
        !(resolve(cfg, seq![flags[0]]).1 is Count),
    ensures
        short_step(cfg, flags, 0, next, opts) == match long_value(
            cfg,
            seq![flags[0]],
            Some(flags.skip(1)),
        ) {
            Ok((k, v)) => Ok((merge(cfg, opts, k, v), false)),
            Err(e) => Err(e),
        },
{
    assert(cfg.contains_key(seq![flags[0]]));
}


/// An error that comes from the arguments themselves: an integer that cannot be read,
/// a missing value, or an option that is not configured.
pub open spec fn argument_error(e: ErrorView) -> bool {
    ||| e is InvalidInt
    ||| e is UnsafeInteger
    ||| e is NullArg
    ||| e is NullInt
    ||| e is UnknownOption
}

proof fn lemma_int_value_error(t: Seq<char>)
    ensures
        int_value(t) matches Err(e) ==> argument_error(e),
{
}

proof fn lemma_long_error(cfg: ConfigView, name: Seq<char>, value: Option<Seq<char>>)
    requires
        aliases_resolve(cfg),
    ensures
        long_value(cfg, name, value) matches Err(e) ==> argument_error(e),
{
    if cfg.contains_key(name) {
        lemma_resolve_fits(cfg, name);
        if value is Some {
            lemma_int_value_error(value->0);
        }
    }
}

proof fn lemma_short_error(
    cfg: ConfigView,
    flags: Seq<char>,
    j: int,
    next: Option<Seq<char>>,
    opts: Map<Seq<char>, ValueView>,
)
    requires
        aliases_resolve(cfg),
    ensures
        short_step(cfg, flags, j, next, opts) matches Err(e) ==> argument_error(e),
    decreases flags.len() - j,
{
    if 0 <= j < flags.len() {
        let name = seq![flags[j]];
        if cfg.contains_key(name) {
            lemma_resolve_fits(cfg, name);
            let (key, entry, via) = resolve(cfg, name);
            lemma_int_value_error(flags.skip(j + 1));
            if next is Some {
                lemma_int_value_error(next->0);
            }
            match entry {
                EntryView::Flag => {
                    lemma_short_error(cfg, flags, j + 1, next, merge(cfg, opts, key, ValueView::Flag));
                },
                EntryView::Count => {
                    lemma_short_error(
                        cfg,
                        flags,
                        j + 1,
                        next,
                        merge(cfg, opts, key, ValueView::Int(1)),
                    );
                },
                _ => {},
            }
        }
    }
}

proof fn lemma_parse_from_error(
    cfg: ConfigView,
    args: Seq<Seq<char>>,
    i: int,
    stop: bool,
    st: ResultView,
)
    requires
        aliases_resolve(cfg),
    ensures
        parse_from(cfg, args, i, stop, st) matches Err(e) ==> argument_error(e),
    decreases args.len() + 1 - i,
{
    if 0 <= i < args.len() {
        let a = args[i];
        if stop {
            lemma_parse_from_error(cfg, args, i + 1, true, with_operand(st, a));
        } else if a == seq!['-', '-'] {
            lemma_parse_from_error(cfg, args, i + 1, true, st);
        } else {
            match classify(a) {
                CliArgView::Operand => {
                    lemma_parse_from_error(cfg, args, i + 1, false, with_operand(st, a));
                },
                CliArgView::Parameter(n, v) => {
                    lemma_parse_from_error(
                        cfg,
                        args,
                        i + 1,
                        false,
                        ResultView {
                            options: st.options,
                            parameters: st.parameters.insert(n, v),
                            operands: st.operands,
                        },
                    );
                },
                CliArgView::Long { name, value } => {
                    lemma_long_error(cfg, name, value);
                    if let Ok((k, v)) = long_value(cfg, name, value) {
                        lemma_parse_from_error(
                            cfg,
                            args,
                            i + 1,
                            false,
                            with_options(st, merge(cfg, st.options, k, v)),
                        );
                    }
                },
                CliArgView::Short { flags } => {
                    let next = if i + 1 < args.len() {
                        Some(args[i + 1])
                    } else {
                        None
                    };
                    lemma_short_error(cfg, flags, 0, next, st.options);
                    if let Ok((o, used)) = short_step(cfg, flags, 0, next, st.options) {
                        lemma_parse_from_error(
                            cfg,
                            args,
                            if used {
                                i + 2
                            } else {
                                i + 1
                            },
                            false,
                            with_options(st, o),
                        );
                    }
                },
            }
        }
    }
}

/// With a configuration in which every alias resolves, parsing fails only for a fault
/// of the arguments: an integer that cannot be read, a missing value, or an option that
/// is not configured; never with an alias or configuration error.
pub proof fn lemma_parse_errors_are_argument_errors(cfg: ConfigView, args: Seq<Seq<char>>)
    requires
        aliases_resolve(cfg),
    ensures
        parse_args(cfg, args) matches Err(e) ==> argument_error(e),
{
    lemma_parse_from_error(
        cfg,
        args,
        0,
        false,
        ResultView { options: Map::empty(), parameters: Map::empty(), operands: Seq::empty() },
    );
}

/// The long word `--name=value`.
pub open spec fn long_word(name: Seq<char>, value: Seq<char>) -> Seq<char> {
    seq!['-', '-'] + name + seq!['='] + value
}

/// The short word `-cc…c`: the flag `c`, `n` times.
pub open spec fn repeated_flag_word(c: char, n: nat) -> Seq<char> {
    seq!['-'] + Seq::new(n, |i: int| c)
}

/// The result that holds only the options `o`.
pub open spec fn options_only(o: Map<Seq<char>, ValueView>) -> ResultView {
    ResultView { options: o, parameters: Map::empty(), operands: Seq::empty() }
}

proof fn lemma_classify_long_word(name: Seq<char>, value: Seq<char>)
    requires
        name.len() > 0,
        !name.contains('='),
    ensures
        long_word(name, value) != seq!['-', '-'],
        classify(long_word(name, value)) == (CliArgView::Long { name, value: Some(value) }),
{
    let a = long_word(name, value);
    let rest = a.skip(2);
    assert(rest =~= name + seq!['='] + value);
    assert(a.len() > 2);
    assert(a[0] == '-' && a[1] == '-');
    assert(rest[name.len() as int] == '=');
    assert forall|j: int| 0 <= j < name.len() implies rest[j] != '=' by {
        assert(rest[j] == name[j]);
        if name[j] == '=' {
            assert(name.contains('='));
        }
    }
    lemma_first_index_found(rest, '=', name.len() as int);
    assert(rest.take(name.len() as int) =~= name);
    assert(rest.skip(name.len() as int + 1) =~= value);
    if a == seq!['-'] {
        assert(a.len() == 1);
    }
}

proof fn lemma_classify_repeated_flag(c: char, n: nat)
    requires
        c != '-',
        n >= 1,
    ensures
        repeated_flag_word(c, n) != seq!['-', '-'],
        classify(repeated_flag_word(c, n)) == (CliArgView::Short {
            flags: Seq::new(n, |i: int| c),
        }),
{
    let a = repeated_flag_word(c, n);
    assert(a[1] == c);
    assert(a.skip(1) =~= Seq::new(n, |i: int| c));
    if a == seq!['-'] {
        assert(a.len() == 1);
    }
    if a == seq!['-', '-'] {
        assert(a[1] == '-');
    }
}

/// Two long words that give values for the same option parse to those values merged.
proof fn lemma_two_long_words(
    cfg: ConfigView,
    n1: Seq<char>,
    t1: Seq<char>,
    n2: Seq<char>,
    t2: Seq<char>,
    k: Seq<char>,
    v1: ValueView,
    v2: ValueView,
)
    requires
        n1.len() > 0,
        !n1.contains('='),
        n2.len() > 0,
        !n2.contains('='),
        long_value(cfg, n1, Some(t1)) == Ok::<(Seq<char>, ValueView), ErrorView>((k, v1)),
        long_value(cfg, n2, Some(t2)) == Ok::<(Seq<char>, ValueView), ErrorView>((k, v2)),
    ensures
        parse_args(cfg, seq![long_word(n1, t1), long_word(n2, t2)]) == Ok::<ResultView, ErrorView>(
            options_only(merge(cfg, merge(cfg, Map::empty(), k, v1), k, v2)),
        ),
{
    let args = seq![long_word(n1, t1), long_word(n2, t2)];
    lemma_classify_long_word(n1, t1);
    lemma_classify_long_word(n2, t2);
    let st0 = options_only(Map::empty());
    let st1 = with_options(st0, merge(cfg, Map::empty(), k, v1));
    let st2 = with_options(st1, merge(cfg, st1.options, k, v2));
    assert(parse_from(cfg, args, 2, false, st2) == Ok::<ResultView, ErrorView>(st2));
    assert(parse_from(cfg, args, 1, false, st1) == parse_from(cfg, args, 2, false, st2));
    assert(parse_from(cfg, args, 0, false, st0) == parse_from(cfg, args, 1, false, st1));
    assert(st2 == options_only(merge(cfg, merge(cfg, Map::empty(), k, v1), k, v2)));
}

/// A count option given twice in long form, `--name=a` then `--name=b` (by its own name
/// or by an alias), is found with the sum of the two counts (wrapping around on overflow).
pub proof fn lemma_long_counts_add(cfg: ConfigView, name: Seq<char>, a: i64, b: i64)
    requires
        aliases_resolve(cfg),
        cfg.contains_key(name),
        name.len() > 0,
        !name.contains('='),
        resolve(cfg, name).1 is Count,
    ensures
        parse_args(cfg, seq![long_word(name, int_text(a as int)), long_word(name, int_text(b as int))])
            == Ok::<ResultView, ErrorView>(
            options_only(map![resolve(cfg, name).0 => ValueView::Int(a.wrapping_add(b))]),
        ),
{
    lemma_int_text_round_trip(a);
    lemma_int_text_round_trip(b);
    let k = resolve(cfg, name).0;
    assert(cfg.contains_key(name));
    assert(cfg.contains_key(k) && cfg[k] is Count);
    lemma_two_long_words(
        cfg,
        name,
        int_text(a as int),
        name,
        int_text(b as int),
        k,
        ValueView::Int(a),
        ValueView::Int(b),
    );
    let m1 = merge(cfg, Map::empty(), k, ValueView::Int(a));
    assert(m1 == Map::<Seq<char>, ValueView>::empty().insert(k, ValueView::Int(a)));
    assert(merge(cfg, m1, k, ValueView::Int(b)) =~= map![k => ValueView::Int(a.wrapping_add(b))]);
}

/// A list option given twice in long form, `--name=x` then `--name=y` (by its own name
/// or by an alias), is found with the items of `x` followed by the items of `y`.
pub proof fn lemma_long_lists_append(
    cfg: ConfigView,
    name: Seq<char>,
    x: Seq<char>,
    y: Seq<char>,
)
    requires
        aliases_resolve(cfg),
        cfg.contains_key(name),
        name.len() > 0,
        !name.contains('='),
        resolve(cfg, name).1 is List,
        x.len() > 0,
        y.len() > 0,
    ensures
        ({
            let sep = list_sep(resolve(cfg, name).1->List_sep);
            parse_args(cfg, seq![long_word(name, x), long_word(name, y)]) == Ok::<ResultView, ErrorView>(
                options_only(
                    map![resolve(cfg, name).0 => ValueView::List(split_text(x, sep) + split_text(y, sep))],
                ),
            )
        }),
{
    let k = resolve(cfg, name).0;
    let sep = list_sep(resolve(cfg, name).1->List_sep);
    assert(cfg.contains_key(name));
    assert(cfg.contains_key(k) && cfg[k] is List);
    let v1 = ValueView::List(split_text(x, sep));
    let v2 = ValueView::List(split_text(y, sep));
    lemma_two_long_words(cfg, name, x, name, y, k, v1, v2);
    let m1 = merge(cfg, Map::empty(), k, v1);
    assert(m1 == Map::<Seq<char>, ValueView>::empty().insert(k, v1));
    assert(merge(cfg, m1, k, v2) =~= map![k => ValueView::List(split_text(x, sep) + split_text(y, sep))]);
}

/// Reading a cluster of one count flag repeated, with the count `x` already found, adds
/// one per repetition.
proof fn lemma_short_repeat(
    cfg: ConfigView,
    c: char,
    n: nat,
    j: int,
    next: Option<Seq<char>>,
    opts: Map<Seq<char>, ValueView>,
    x: i64,
)
    requires
        aliases_resolve(cfg),
        cfg.contains_key(seq![c]),
        resolve(cfg, seq![c]).1 is Count,
        0 <= j <= n,
        opts.contains_key(resolve(cfg, seq![c]).0),
        opts[resolve(cfg, seq![c]).0] == ValueView::Int(x),
        0 <= x,
        x + n - j <= i64::MAX,
    ensures
        short_step(cfg, Seq::new(n, |i: int| c), j, next, opts) == Ok::<
            (Map<Seq<char>, ValueView>, bool),
            ErrorView,
        >((opts.insert(resolve(cfg, seq![c]).0, ValueView::Int((x + n - j) as i64)), false)),
    decreases n - j,
{
    let flags = Seq::new(n, |i: int| c);
    let k = resolve(cfg, seq![c]).0;
    assert(cfg.contains_key(seq![c]));
    assert(cfg.contains_key(k) && cfg[k] is Count);
    if j == n {
        assert(opts.insert(k, ValueView::Int(x)) =~= opts);
    } else {
        assert(flags[j] == c);
        assert(seq![flags[j]] == seq![c]);
        let o2 = merge(cfg, opts, k, ValueView::Int(1));
        assert(x.wrapping_add(1) == x + 1);
        assert(o2 == opts.insert(k, ValueView::Int((x + 1) as i64)));
        lemma_short_repeat(cfg, c, n, j + 1, next, o2, (x + 1) as i64);
        assert(o2.insert(k, ValueView::Int((x + 1 + n - (j + 1)) as i64)) =~= opts.insert(
            k,
            ValueView::Int((x + n - j) as i64),
        ));
    }
}

/// A count flag given as two clusters of short options, `-c…c` (`m` times) then `-c…c`
/// (`n` times), by its own letter or by an alias letter, is found with the count `m + n`.
pub proof fn lemma_short_counts_add(cfg: ConfigView, c: char, m: nat, n: nat)
    requires
        aliases_resolve(cfg),
        cfg.contains_key(seq![c]),
        c != '-',
        resolve(cfg, seq![c]).1 is Count,
        m >= 1,
        n >= 1,
        m + n <= i64::MAX,
    ensures
        parse_args(cfg, seq![repeated_flag_word(c, m), repeated_flag_word(c, n)]) == Ok::<
            ResultView,
            ErrorView,
        >(options_only(map![resolve(cfg, seq![c]).0 => ValueView::Int((m + n) as i64)])),
{
    let args = seq![repeated_flag_word(c, m), repeated_flag_word(c, n)];
    let k = resolve(cfg, seq![c]).0;
    assert(cfg.contains_key(seq![c]));
    assert(cfg.contains_key(k) && cfg[k] is Count);
    lemma_classify_repeated_flag(c, m);
    lemma_classify_repeated_flag(c, n);
    let fm = Seq::new(m, |i: int| c);
    let fn_ = Seq::new(n, |i: int| c);
    let e = Map::<Seq<char>, ValueView>::empty();
    // the first cluster
    assert(fm[0] == c);
    assert(seq![fm[0]] == seq![c]);
    let o1 = merge(cfg, e, k, ValueView::Int(1));
    assert(o1 == e.insert(k, ValueView::Int(1)));
    lemma_short_repeat(cfg, c, m, 1, Some(args[1]), o1, 1);
    assert(short_step(cfg, fm, 0, Some(args[1]), e) == short_step(cfg, fm, 1, Some(args[1]), o1));
    let om = o1.insert(k, ValueView::Int(m as i64));
    assert(om =~= e.insert(k, ValueView::Int(m as i64)));
    // the second cluster
    assert(fn_[0] == c);
    assert(seq![fn_[0]] == seq![c]);
    let o2 = merge(cfg, om, k, ValueView::Int(1));
    assert((m as i64).wrapping_add(1) == m + 1);
    assert(o2 == om.insert(k, ValueView::Int((m + 1) as i64)));
    lemma_short_repeat(cfg, c, n, 1, None, o2, (m + 1) as i64);
    assert(short_step(cfg, fn_, 0, None, om) == short_step(cfg, fn_, 1, None, o2));
    let on = o2.insert(k, ValueView::Int((m + n) as i64));
    assert(on =~= map![k => ValueView::Int((m + n) as i64)]);
    let st0 = options_only(e);
    let st1 = with_options(st0, om);
    let st2 = with_options(st1, on);
    assert(parse_from(cfg, args, 2, false, st2) == Ok::<ResultView, ErrorView>(st2));
    assert(parse_from(cfg, args, 1, false, st1) == parse_from(cfg, args, 2, false, st2));
    assert(parse_from(cfg, args, 0, false, st0) == parse_from(cfg, args, 1, false, st1));
}

proof fn lemma_classify_short_word(c: char, x: Seq<char>)
    requires
        c != '-',
    ensures
        seq!['-', c] + x != seq!['-', '-'],
        classify(seq!['-', c] + x) == (CliArgView::Short { flags: seq![c] + x }),
{
    let a = seq!['-', c] + x;
    assert(a[1] == c);
    assert(a.skip(1) =~= seq![c] + x);
    if a == seq!['-'] {
        assert(a.len() == 1);
    }
    if a == seq!['-', '-'] {
        assert(a[1] == '-');
    }
}

/// A list option given twice as a short option with its value attached, `-cx` then `-cy`
/// (by its own letter or by an alias letter), is found with the items of `x` followed by
/// the items of `y`.
pub proof fn lemma_short_lists_append(cfg: ConfigView, c: char, x: Seq<char>, y: Seq<char>)
    requires
        aliases_resolve(cfg),
        cfg.contains_key(seq![c]),
        c != '-',
        resolve(cfg, seq![c]).1 is List,
        x.len() > 0,
        y.len() > 0,
    ensures
        ({
            let sep = list_sep(resolve(cfg, seq![c]).1->List_sep);
            parse_args(cfg, seq![seq!['-', c] + x, seq!['-', c] + y]) == Ok::<ResultView, ErrorView>(
                options_only(
                    map![resolve(cfg, seq![c]).0 => ValueView::List(split_text(x, sep) + split_text(y, sep))],
                ),
            )
        }),
{
    let args = seq![seq!['-', c] + x, seq!['-', c] + y];
    let k = resolve(cfg, seq![c]).0;
    let sep = list_sep(resolve(cfg, seq![c]).1->List_sep);
    assert(cfg.contains_key(seq![c]));
    assert(cfg.contains_key(k) && cfg[k] is List);
    lemma_classify_short_word(c, x);
    lemma_classify_short_word(c, y);
    let fx = seq![c] + x;
    let fy = seq![c] + y;
    assert(seq![fx[0]] == seq![c]);
    assert(fx.skip(1) =~= x);
    assert(seq![fy[0]] == seq![c]);
    assert(fy.skip(1) =~= y);
    let e = Map::<Seq<char>, ValueView>::empty();
    let v1 = ValueView::List(split_text(x, sep));
    let v2 = ValueView::List(split_text(y, sep));
    let o1 = merge(cfg, e, k, v1);
    assert(o1 == e.insert(k, v1));
    let o2 = merge(cfg, o1, k, v2);
    assert(o2 =~= map![k => ValueView::List(split_text(x, sep) + split_text(y, sep))]);
    assert(short_step(cfg, fx, 0, Some(args[1]), e) == Ok::<(Map<Seq<char>, ValueView>, bool), ErrorView>((o1, false)));
    assert(short_step(cfg, fy, 0, None, o1) == Ok::<(Map<Seq<char>, ValueView>, bool), ErrorView>((o2, false)));
    let st0 = options_only(e);
    let st1 = with_options(st0, o1);
    let st2 = with_options(st1, o2);
    assert(parse_from(cfg, args, 2, false, st2) == Ok::<ResultView, ErrorView>(st2));
    assert(parse_from(cfg, args, 1, false, st1) == parse_from(cfg, args, 2, false, st2));
    assert(parse_from(cfg, args, 0, false, st0) == parse_from(cfg, args, 1, false, st1));
}

/// A list option given twice as a short option with its value as the next argument,
/// `-c x -c y` (by its own letter or by an alias letter), is found with the items of `x`
/// followed by the items of `y`.
pub proof fn lemma_short_separate_lists_append(cfg: ConfigView, c: char, x: Seq<char>, y: Seq<char>)
    requires
        aliases_resolve(cfg),
        cfg.contains_key(seq![c]),
        c != '-',
        resolve(cfg, seq![c]).1 is List,
        x.len() > 0,
        y.len() > 0,
    ensures
        ({
            let sep = list_sep(resolve(cfg, seq![c]).1->List_sep);
            parse_args(cfg, seq![seq!['-', c], x, seq!['-', c], y]) == Ok::<ResultView, ErrorView>(
                options_only(
                    map![resolve(cfg, seq![c]).0 => ValueView::List(split_text(x, sep) + split_text(y, sep))],
                ),
            )
        }),
{
    let w = seq!['-', c];
    let args = seq![w, x, w, y];
    let k = resolve(cfg, seq![c]).0;
    let sep = list_sep(resolve(cfg, seq![c]).1->List_sep);
    assert(cfg.contains_key(seq![c]));
    assert(cfg.contains_key(k) && cfg[k] is List);
    lemma_classify_short_word(c, Seq::<char>::empty());
    assert(w =~= seq!['-', c] + Seq::<char>::empty());
    let f = seq![c];
    assert(f =~= seq![c] + Seq::<char>::empty());
    assert(seq![f[0]] == seq![c]);
    assert(f.skip(1).len() == 0);
    let e = Map::<Seq<char>, ValueView>::empty();
    let v1 = ValueView::List(split_text(x, sep));
    let v2 = ValueView::List(split_text(y, sep));
    let o1 = merge(cfg, e, k, v1);
    assert(o1 == e.insert(k, v1));
    let o2 = merge(cfg, o1, k, v2);
    assert(o2 =~= map![k => ValueView::List(split_text(x, sep) + split_text(y, sep))]);
    assert(args[1] == x && args[3] == y && args[2] == w);
    assert(short_step(cfg, f, 0, Some(x), e) == Ok::<(Map<Seq<char>, ValueView>, bool), ErrorView>((o1, true)));
    assert(short_step(cfg, f, 0, Some(y), o1) == Ok::<(Map<Seq<char>, ValueView>, bool), ErrorView>((o2, true)));
    let st0 = options_only(e);
    let st1 = with_options(st0, o1);
    let st2 = with_options(st1, o2);
    assert(parse_from(cfg, args, 4, false, st2) == Ok::<ResultView, ErrorView>(st2));
    assert(parse_from(cfg, args, 2, false, st1) == parse_from(cfg, args, 4, false, st2));
    assert(parse_from(cfg, args, 0, false, st0) == parse_from(cfg, args, 2, false, st1));
}

/// A long option of an integer kind given a non-empty value that reads as the integer
/// `n` takes the value `n`, whatever its default; the default only stands in for a
/// missing or empty value.
pub proof fn lemma_long_int_value_read(cfg: ConfigView, name: Seq<char>, t: Seq<char>, n: i64)
    requires
        cfg.contains_key(name),
        resolve(cfg, name).1 is Int,
        t.len() > 0,
        int_result(t) == Ok::<i64, ErrorView>(n),
    ensures
        long_value(cfg, name, Some(t)) == Ok::<(Seq<char>, ValueView), ErrorView>(
            (resolve(cfg, name).0, ValueView::Int(n)),
        ),
{
}

/// A short option of an integer kind with a value attached that reads as the integer `n`
/// takes the value `n`, whatever its default, and takes no further argument.
pub proof fn lemma_short_int_value_read(
    cfg: ConfigView,
    flags: Seq<char>,
    next: Option<Seq<char>>,
    opts: Map<Seq<char>, ValueView>,
    n: i64,
)
    requires
        flags.len() >= 2,
        cfg.contains_key(seq![flags[0]]),
        resolve(cfg, seq![flags[0]]).1 is Int,
        int_result(flags.skip(1)) == Ok::<i64, ErrorView>(n),
    ensures
        short_step(cfg, flags, 0, next, opts) == Ok::<(Map<Seq<char>, ValueView>, bool), ErrorView>(
            (merge(cfg, opts, resolve(cfg, seq![flags[0]]).0, ValueView::Int(n)), false),
        ),
{
}

/// A value for an option that is neither a count nor a list replaces the one found
/// before: the option holds the value given last.
pub proof fn lemma_merge_replaces(
    cfg: ConfigView,
    opts: Map<Seq<char>, ValueView>,
    key: Seq<char>,
    val: ValueView,
)
    requires
        cfg.contains_key(key),
        !(cfg[key] is Count),
        !(cfg[key] is List),
    ensures
        merge(cfg, opts, key, val) == opts.insert(key, val),
        merge(cfg, opts, key, val)[key] == val,
{
}

/// `--name=a` for an integer option gives the option the value `a`, whatever its default.
pub proof fn lemma_long_int_given(cfg: ConfigView, name: Seq<char>, a: i64)
    requires
        aliases_resolve(cfg),
        cfg.contains_key(name),
        name.len() > 0,
        !name.contains('='),
        resolve(cfg, name).1 is Int,
    ensures
        parse_args(cfg, seq![long_word(name, int_text(a as int))]) == Ok::<ResultView, ErrorView>(
            options_only(map![resolve(cfg, name).0 => ValueView::Int(a)]),
        ),
{
    let w = long_word(name, int_text(a as int));
    let args = seq![w];
    lemma_int_text_round_trip(a);
    lemma_classify_long_word(name, int_text(a as int));
    let k = resolve(cfg, name).0;
    assert(cfg.contains_key(name));
    assert(cfg.contains_key(k) && cfg[k] is Int);
    lemma_long_int_value_read(cfg, name, int_text(a as int), a);
    let e = Map::<Seq<char>, ValueView>::empty();
    let o = merge(cfg, e, k, ValueView::Int(a));
    assert(o =~= map![k => ValueView::Int(a)]);
    let st0 = options_only(e);
    let st1 = with_options(st0, o);
    assert(parse_from(cfg, args, 1, false, st1) == Ok::<ResultView, ErrorView>(st1));
    assert(parse_from(cfg, args, 0, false, st0) == parse_from(cfg, args, 1, false, st1));
}

/// `-c` followed by the decimal text of `a`, for an integer option, gives the option the
/// value `a`, whatever its default.
pub proof fn lemma_short_int_given(cfg: ConfigView, c: char, a: i64)
    requires
        aliases_resolve(cfg),
        cfg.contains_key(seq![c]),
        c != '-',
        resolve(cfg, seq![c]).1 is Int,
    ensures
        parse_args(cfg, seq![seq!['-', c] + int_text(a as int)]) == Ok::<ResultView, ErrorView>(
            options_only(map![resolve(cfg, seq![c]).0 => ValueView::Int(a)]),
        ),
{
    let t = int_text(a as int);
    let w = seq!['-', c] + t;
    let args = seq![w];
    let f = seq![c] + t;
    let k = resolve(cfg, seq![c]).0;
    let e = Map::<Seq<char>, ValueView>::empty();
    let o = merge(cfg, e, k, ValueView::Int(a));
    assert(short_step(cfg, f, 0, None, e) == Ok::<(Map<Seq<char>, ValueView>, bool), ErrorView>(
        (o, false),
    )) by {
        lemma_int_text_round_trip(a);
        assert(f[0] == c);
        assert(seq![f[0]] == seq![c]);
        assert(f.skip(1) =~= t);
        lemma_short_int_value_read(cfg, f, None, e, a);
    }
    assert(o =~= map![k => ValueView::Int(a)]) by {
        assert(cfg.contains_key(seq![c]));
        assert(cfg.contains_key(k) && cfg[k] is Int);
    }
    lemma_classify_short_word(c, t);
    assert(args[0] == w);
    let st0 = options_only(e);
    let st1 = with_options(st0, o);
    assert(parse_from(cfg, args, 1, false, st1) == Ok::<ResultView, ErrorView>(st1));
    assert(parse_from(cfg, args, 0, false, st0) == parse_from(cfg, args, 1, false, st1));
}

/// An integer option given twice in long form, `--name=a` then `--name=b`, holds `b`: the
/// later value replaces the earlier one.
pub proof fn lemma_long_int_later_replaces(cfg: ConfigView, name: Seq<char>, a: i64, b: i64)
    requires
        aliases_resolve(cfg),
        cfg.contains_key(name),
        name.len() > 0,
        !name.contains('='),
        resolve(cfg, name).1 is Int,
    ensures
        parse_args(cfg, seq![long_word(name, int_text(a as int)), long_word(name, int_text(b as int))])
            == Ok::<ResultView, ErrorView>(options_only(map![resolve(cfg, name).0 => ValueView::Int(b)])),
{
    lemma_int_text_round_trip(a);
    lemma_int_text_round_trip(b);
    let k = resolve(cfg, name).0;
    assert(cfg.contains_key(name));
    assert(cfg.contains_key(k) && cfg[k] is Int);
    lemma_long_int_value_read(cfg, name, int_text(a as int), a);
    lemma_long_int_value_read(cfg, name, int_text(b as int), b);
    lemma_two_long_words(
        cfg,
        name,
        int_text(a as int),
        name,
        int_text(b as int),
        k,
        ValueView::Int(a),
        ValueView::Int(b),
    );
    let e = Map::<Seq<char>, ValueView>::empty();
    lemma_merge_replaces(cfg, e, k, ValueView::Int(a));
    let m1 = e.insert(k, ValueView::Int(a));
    lemma_merge_replaces(cfg, m1, k, ValueView::Int(b));
    assert(m1.insert(k, ValueView::Int(b)) =~= map![k => ValueView::Int(b)]);
}

/// The parameter word `n=v`.
pub open spec fn parameter_word(n: Seq<char>, v: Seq<char>) -> Seq<char> {
    n + seq!['='] + v
}

/// A parameter assigned twice, `n=v1` then `n=v2`, holds `v2`: the later assignment
/// replaces the earlier one; the words give no options and no operands.
pub proof fn lemma_later_parameter_replaces(
    cfg: ConfigView,
    n: Seq<char>,
    v1: Seq<char>,
    v2: Seq<char>,
)
    requires
        n.len() > 0,
        n[0] != '-',
        !n.contains('='),
    ensures
        parse_args(cfg, seq![parameter_word(n, v1), parameter_word(n, v2)]) == Ok::<
            ResultView,
            ErrorView,
        >(ResultView { options: Map::empty(), parameters: map![n => v2], operands: Seq::empty() }),
{
    let args = seq![parameter_word(n, v1), parameter_word(n, v2)];
    lemma_parameter_word(n, v1);
    lemma_parameter_word(n, v2);
    let w1 = parameter_word(n, v1);
    let w2 = parameter_word(n, v2);
    assert(w1[0] == n[0] && w2[0] == n[0]);
    assert(w1 != seq!['-', '-'] && w2 != seq!['-', '-']);
    let st0 = options_only(Map::empty());
    let st1 = ResultView {
        options: Map::empty(),
        parameters: Map::<Seq<char>, Seq<char>>::empty().insert(n, v1),
        operands: Seq::empty(),
    };
    let st2 = ResultView {
        options: Map::empty(),
        parameters: st1.parameters.insert(n, v2),
        operands: Seq::empty(),
    };
    assert(parse_from(cfg, args, 2, false, st2) == Ok::<ResultView, ErrorView>(st2));
    assert(parse_from(cfg, args, 1, false, st1) == parse_from(cfg, args, 2, false, st2));
    assert(parse_from(cfg, args, 0, false, st0) == parse_from(cfg, args, 1, false, st1));
    assert(st2.parameters =~= map![n => v2]);
}

/// A long option of a text kind given a value takes that value, whatever its default.
pub proof fn lemma_long_text_value_read(cfg: ConfigView, name: Seq<char>, t: Seq<char>)
    requires
        cfg.contains_key(name),
        resolve(cfg, name).1 is Text,
    ensures
        long_value(cfg, name, Some(t)) == Ok::<(Seq<char>, ValueView), ErrorView>(
            (resolve(cfg, name).0, ValueView::Text(t)),
        ),
{
}

/// A short option of a text kind with a value attached takes that value, whatever its
/// default, and takes no further argument.
pub proof fn lemma_short_text_value_read(
    cfg: ConfigView,
    flags: Seq<char>,
    next: Option<Seq<char>>,
    opts: Map<Seq<char>, ValueView>,
)
    requires
        flags.len() >= 2,
        cfg.contains_key(seq![flags[0]]),
        resolve(cfg, seq![flags[0]]).1 is Text,
    ensures
        short_step(cfg, flags, 0, next, opts) == Ok::<(Map<Seq<char>, ValueView>, bool), ErrorView>(
            (merge(cfg, opts, resolve(cfg, seq![flags[0]]).0, ValueView::Text(flags.skip(1))), false),
        ),
{
}

/// A long text or integer option given no value (or, for an integer, an empty value)
/// takes its default when it has one, and fails for want of a value when it has none.
pub proof fn lemma_long_default_when_missing(
    cfg: ConfigView,
    name: Seq<char>,
    value: Option<Seq<char>>,
)
    requires
        cfg.contains_key(name),
    ensures
        resolve(cfg, name).1 matches EntryView::Text { default } ==> (value is None ==> long_value(
            cfg,
            name,
            value,
        ) == match default {
            Some(d) => Ok::<(Seq<char>, ValueView), ErrorView>((resolve(cfg, name).0, ValueView::Text(d))),
            None => Err(ErrorView::NullArg { option: name, target: resolve(cfg, name).2 }),
        }),
        resolve(cfg, name).1 matches EntryView::Int { default } ==> ((value is None || value->0.len()
            == 0) ==> long_value(cfg, name, value) == match default {
            Some(d) => Ok::<(Seq<char>, ValueView), ErrorView>((resolve(cfg, name).0, ValueView::Int(d))),
            None => Err(ErrorView::NullInt { option: name, target: resolve(cfg, name).2 }),
        }),
{
}

} // verus!
