//! A checked set of option configurations.
use vstd::prelude::*;

use crate::errors::{ArgotError, ErrorView};
use crate::strmap::{StrMap, fold_pairs, unique_keys, lemma_fold_contains, lemma_fold_index, lemma_fold_push};
use crate::types::{ConfigEntry, ConfigEntries, EntryView, LabeledEntry, labeled_entries};

verus! {

/// Every alias names an option that is configured and that is not itself an alias.
pub open spec fn aliases_resolve(m: Map<Seq<char>, EntryView>) -> bool {
    forall|k: Seq<char>|
        #[trigger] m.contains_key(k) ==> match m[k] {
            EntryView::Alias { target } => m.contains_key(target) && !(m[target] is Alias),
            _ => true,
        }
}

/// The `(option, target)` pairs of the alias entries, in the order of the entries.
pub open spec fn alias_list(es: Seq<(Seq<char>, EntryView)>) -> Seq<(Seq<char>, Seq<char>)>
    decreases es.len(),
{
    if es.len() == 0 {
        Seq::empty()
    } else {
        let rest = alias_list(es.drop_last());
        match es.last().1 {
            EntryView::Alias { target } => rest.push((es.last().0, target)),
            _ => rest,
        }
    }
}

/// The error for the first alias, from position `i` of `al` on, whose target is
/// missing from `m` or is itself an alias.
pub open spec fn first_bad_alias(
    al: Seq<(Seq<char>, Seq<char>)>,
    m: Map<Seq<char>, EntryView>,
    i: int,
) -> Option<ErrorView>
    decreases al.len() - i,
{
    if i < 0 || i >= al.len() {
        None
    } else if !m.contains_key(al[i].1) {
        Some(ErrorView::AliasTargetNotFound { option: al[i].0, target: al[i].1 })
    } else if m[al[i].1] is Alias {
        Some(ErrorView::InvalidAliasTarget { option: al[i].0, target: al[i].1 })
    } else {
        first_bad_alias(al, m, i + 1)
    }
}

/// What checking the entries `es` gives: the error for the first bad alias, if any.
pub open spec fn config_error(es: Seq<(Seq<char>, EntryView)>) -> Option<ErrorView> {
    first_bad_alias(alias_list(es), fold_pairs(es), 0)
}

proof fn lemma_alias_listed(es: Seq<(Seq<char>, EntryView)>, k: Seq<char>)
    requires
        fold_pairs(es).contains_key(k),
        fold_pairs(es)[k] is Alias,
    ensures
        exists|j: int|
            0 <= j < alias_list(es).len() && #[trigger] alias_list(es)[j] == (
                k,
                fold_pairs(es)[k]->Alias_target,
            ),
    decreases es.len(),
{
    let t = es.drop_last();
    let al = alias_list(es);
    if es.last().0 == k {
        assert(al[al.len() - 1] == (k, fold_pairs(es)[k]->Alias_target));
    } else {
        lemma_alias_listed(t, k);
        let j = choose|j: int|
            0 <= j < alias_list(t).len() && #[trigger] alias_list(t)[j] == (
                k,
                fold_pairs(t)[k]->Alias_target,
            );
        assert(al[j] == alias_list(t)[j]);
    }
}

proof fn lemma_no_bad_alias(al: Seq<(Seq<char>, Seq<char>)>, m: Map<Seq<char>, EntryView>, i: int)
    requires
        0 <= i <= al.len(),
        first_bad_alias(al, m, i) is None,
    ensures
        forall|j: int|
            i <= j < al.len() ==> m.contains_key((#[trigger] al[j]).1) && !(m[al[j].1] is Alias),
    decreases al.len() - i,
{
    if i < al.len() {
        lemma_no_bad_alias(al, m, i + 1);
    }
}

proof fn lemma_resolved(es: Seq<(Seq<char>, EntryView)>)
    requires
        config_error(es) is None,
    ensures
        aliases_resolve(fold_pairs(es)),
{
    let m = fold_pairs(es);
    let al = alias_list(es);
    lemma_no_bad_alias(al, m, 0);
    assert forall|k: Seq<char>| #[trigger] m.contains_key(k) implies match m[k] {
        EntryView::Alias { target } => m.contains_key(target) && !(m[target] is Alias),
        _ => true,
    } by {
        if m[k] is Alias {
            lemma_alias_listed(es, k);
            let j = choose|j: int|
                0 <= j < al.len() && #[trigger] al[j] == (k, m[k]->Alias_target);
            assert(m.contains_key(al[j].1));
        }
    }
}

proof fn lemma_alias_from_entry(es: Seq<(Seq<char>, EntryView)>, j: int)
    requires
        0 <= j < alias_list(es).len(),
    ensures
        exists|i: int|
            0 <= i < es.len() && #[trigger] es[i] == (
                alias_list(es)[j].0,
                EntryView::Alias { target: alias_list(es)[j].1 },
            ),
    decreases es.len(),
{
    let t = es.drop_last();
    let al = alias_list(es);
    if j < alias_list(t).len() {
        lemma_alias_from_entry(t, j);
        let i = choose|i: int|
            0 <= i < t.len() && #[trigger] t[i] == (
                alias_list(t)[j].0,
                EntryView::Alias { target: alias_list(t)[j].1 },
            );
        assert(es[i] == t[i]);
        assert(al[j] == alias_list(t)[j]);
    } else {
        let last = es.last();
        assert(es[es.len() - 1] == last);
        match last.1 {
            EntryView::Alias { target } => {
                assert(al[j] == (last.0, target));
            },
            _ => {},
        }
    }
}

proof fn lemma_no_bad_from(al: Seq<(Seq<char>, Seq<char>)>, m: Map<Seq<char>, EntryView>, i: int)
    requires
        0 <= i,
        forall|j: int|
            i <= j < al.len() ==> m.contains_key((#[trigger] al[j]).1) && !(m[al[j].1] is Alias),
    ensures
        first_bad_alias(al, m, i) is None,
    decreases al.len() - i,
{
    if i < al.len() {
        assert(m.contains_key(al[i].1) && !(m[al[i].1] is Alias));
        lemma_no_bad_from(al, m, i + 1);
    }
}

/// For entries that name each option once, checking them succeeds exactly when every
/// alias among them names an option that is configured and that is not an alias.
pub proof fn lemma_config_ok_iff_aliases_resolve(es: Seq<(Seq<char>, EntryView)>)
    requires
        unique_keys(es),
    ensures
        config_error(es) is None <==> aliases_resolve(fold_pairs(es)),
{
    let m = fold_pairs(es);
    let al = alias_list(es);
    if config_error(es) is None {
        lemma_resolved(es);
    }
    if aliases_resolve(m) {
        assert forall|j: int| 0 <= j < al.len() implies m.contains_key((#[trigger] al[j]).1)
            && !(m[al[j].1] is Alias) by {
            lemma_alias_from_entry(es, j);
            let i = choose|i: int|
                0 <= i < es.len() && #[trigger] es[i] == (
                    al[j].0,
                    EntryView::Alias { target: al[j].1 },
                );
            lemma_fold_index(es, i);
            assert(m.contains_key(al[j].0));
        }
        lemma_no_bad_from(al, m, 0);
    }
}

/// A map of entries in which every alias resolves builds a configuration: its entries
/// give no error, and the configuration built from them is the map itself.
pub proof fn lemma_valid_table_builds(m: StrMap<ConfigEntry>)
    requires
        unique_keys(m.entries()),
        aliases_resolve(m@),
    ensures
        config_error(ConfigEntries::Table(m).entry_seq()) is None,
        fold_pairs(ConfigEntries::Table(m).entry_seq()) == m@,
{
    lemma_config_ok_iff_aliases_resolve(m.entries());
}

/// A list of entries that names each option once and a map that holds the same entries
/// give the same outcome: both build, or neither does, and when they build they give the
/// same configuration.
pub proof fn lemma_list_and_table_agree(l: Vec<LabeledEntry>, m: StrMap<ConfigEntry>)
    requires
        unique_keys(labeled_entries(l@)),
        unique_keys(m.entries()),
        m@ == fold_pairs(labeled_entries(l@)),
    ensures
        config_error(ConfigEntries::List(l).entry_seq()) is None <==> config_error(
            ConfigEntries::Table(m).entry_seq(),
        ) is None,
        fold_pairs(ConfigEntries::List(l).entry_seq()) == fold_pairs(
            ConfigEntries::Table(m).entry_seq(),
        ),
{
    lemma_config_ok_iff_aliases_resolve(labeled_entries(l@));
    lemma_config_ok_iff_aliases_resolve(m.entries());
}

/// The configuration of a parser: each option with its entry, where every alias
/// names an option that is configured and that is not itself an alias.
#[derive(Debug, PartialEq)]
pub struct ParserConfig {
    configs: StrMap<ConfigEntry>,
}

/// A copy of a configuration, with the same options and entries.
impl Clone for ParserConfig {
    fn clone(&self) -> (r: Self)
        ensures
            r@ == self@,
    {
        proof {
            use_type_invariant(self);
            assert forall|v: ConfigEntry, w: ConfigEntry| #[trigger] cloned::<ConfigEntry>(v, w) implies v@
                == w@ by {
                if !(v == w) {
                    assert(call_ensures(ConfigEntry::clone, (&v,), w));
                }
            }
        }
        ParserConfig { configs: self.configs.clone() }
    }
}

impl View for ParserConfig {
    type V = Map<Seq<char>, EntryView>;

    closed spec fn view(&self) -> Map<Seq<char>, EntryView> {
        self.configs@
    }
}

impl ParserConfig {
    /// Every alias of the configuration resolves; this holds of every value of the type.
    #[verifier::type_invariant]
    pub open spec fn well_formed(&self) -> bool {
        aliases_resolve(self@)
    }

    /// The configuration's options and entries, in insertion order.
    pub closed spec fn entries(&self) -> Seq<(Seq<char>, EntryView)> {
        self.configs.entries()
    }

    /// Builds a configuration from its entries; a later entry for an option replaces
    /// an earlier one. Fails on the first alias entry (in the order of the entries)
    /// whose target is not configured or is itself an alias.
    pub fn new(entries: ConfigEntries) -> (r: Result<Self, ArgotError>)
        ensures
            match r {
                Ok(c) => config_error(entries.entry_seq()) is None && c@ == fold_pairs(
                    entries.entry_seq(),
                ) && aliases_resolve(c@),
                Err(e) => config_error(entries.entry_seq()) == Some(e@),
            },
    {
        let ghost es = entries.entry_seq();
        let mut items: Vec<(String, ConfigEntry)> = Vec::new();
        match entries {
            ConfigEntries::Table(m) => {
                items = m.into_pairs();
            },
            ConfigEntries::List(l) => {
                let ghost lv = l@;
                for e in it: l.into_iter()
                    invariant
                        it.seq() == lv,
                        es == labeled_entries(lv),
                        items@.len() == it.index(),
                        forall|j: int|
                            0 <= j < it.index() ==> (#[trigger] items@[j]).0@ == es[j].0
                                && items@[j].1@ == es[j].1,
                {
                    let LabeledEntry { option, entry } = e;
                    items.push((option, entry));
                }
            },
        }
        let n = items.len();
        let mut configs: StrMap<ConfigEntry> = StrMap::new();
        let mut aliases: Vec<(String, String)> = Vec::new();
        let ghost iv = items@;
        let mut idx: usize = 0;
        assert(es.take(0) =~= Seq::<(Seq<char>, EntryView)>::empty());
        for item in it: items.into_iter()
            invariant
                it.seq() == iv,
                iv.len() == es.len(),
                forall|j: int|
                    0 <= j < iv.len() ==> (#[trigger] iv[j]).0@ == es[j].0 && iv[j].1@ == es[j].1,
                configs@ == fold_pairs(es.take(it.index())),
                aliases@.len() == alias_list(es.take(it.index())).len(),
                forall|j: int|
                    0 <= j < aliases@.len() ==> (#[trigger] aliases@[j]).0@ == alias_list(
                        es.take(it.index()),
                    )[j].0 && aliases@[j].1@ == alias_list(es.take(it.index()))[j].1,
        {
            let ghost k = it.index();
            let ghost prev = es.take(k);
            let ghost next = es.take(k + 1);
            assert(next.drop_last() =~= prev);
            assert(next.last() == es[k]);
            let (option, entry) = item;
            let ghost before = aliases@;
            match &entry {
                ConfigEntry::Alias { target } => {
                    aliases.push((option.clone(), target.clone()));
                },
                _ => {},
            }
            proof {
                lemma_fold_push(prev, es[k].0, es[k].1);
                assert(next =~= prev.push(es[k]));
            }
            configs.insert(option, entry);
        }
        assert(es.take(es.len() as int) =~= es);
        let ghost al = alias_list(es);
        let ghost m = fold_pairs(es);
        let na = aliases.len();
        let mut i: usize = 0;
        while i < na
            invariant
                na == aliases@.len(),
                na == al.len(),
                es == entries.entry_seq(),
                i <= na,
                configs@ == m,
                al == alias_list(es),
                m == fold_pairs(es),
                forall|j: int|
                    0 <= j < aliases@.len() ==> (#[trigger] aliases@[j]).0@ == al[j].0
                        && aliases@[j].1@ == al[j].1,
                first_bad_alias(al, m, i as int) == first_bad_alias(al, m, 0),
            decreases na - i,
        {
            let (option, target) = (&aliases[i].0, &aliases[i].1);
            match configs.get(target.as_str()) {
                None => {
                    return Err(
                        ArgotError::AliasTargetNotFound {
                            option: option.clone(),
                            target: target.clone(),
                        },
                    );
                },
                Some(ConfigEntry::Alias { .. }) => {
                    return Err(
                        ArgotError::InvalidAliasTarget {
                            option: option.clone(),
                            target: target.clone(),
                        },
                    );
                },
                _ => {},
            }
            i = i + 1;
        }
        proof {
            lemma_resolved(es);
        }
        Ok(ParserConfig { configs })
    }

    /// Whether `key` is configured.
    pub fn contains_key(&self, key: &str) -> (r: bool)
        ensures
            r == self@.contains_key(key@),
    {
        self.configs.contains_key(key)
    }

    /// The entry of `key`, if it is configured.
    pub fn get(&self, key: &str) -> (r: Option<&ConfigEntry>)
        ensures
            r is Some <==> self@.contains_key(key@),
            r matches Some(e) ==> e@ == self@[key@],
    {
        self.configs.get(key)
    }

    /// The stored name and the entry of `key`, if it is configured.
    pub fn get_key_value(&self, key: &str) -> (r: Option<(&str, &ConfigEntry)>)
        ensures
            r is Some <==> self@.contains_key(key@),
            r matches Some(p) ==> p.0@ == key@ && p.1@ == self@[key@],
    {
        self.configs.get_key_value(key)
    }

    /// Whether no option is configured.
    pub fn is_empty(&self) -> (r: bool)
        ensures
            r == (self@.len() == 0),
    {
        self.configs.is_empty()
    }

    /// The number of configured options.
    pub fn len(&self) -> (r: usize)
        ensures
            r == self@.len(),
            self@.dom().finite(),
    {
        self.configs.len()
    }

    /// The configured options with their entries, each option once.
    pub fn iter(&self) -> (r: &[(String, ConfigEntry)])
        ensures
            r@.len() == self@.len(),
            forall|i: int|
                0 <= i < r@.len() ==> self@.contains_key((#[trigger] r@[i]).0@) && self@[r@[i].0@]
                    == r@[i].1@,
            forall|k: Seq<char>|
                self@.contains_key(k) ==> exists|i: int| 0 <= i < r@.len() && (#[trigger] r@[i]).0@ == k,
    {
        let r = self.configs.iter();
        proof {
            let es = self.configs.entries();
            crate::strmap::lemma_fold_len(es);
            assert forall|i: int| 0 <= i < r@.len() implies self@.contains_key(
                (#[trigger] r@[i]).0@,
            ) && self@[r@[i].0@] == r@[i].1@ by {
                crate::strmap::lemma_fold_index(es, i);
            }
            assert forall|k: Seq<char>| self@.contains_key(k) implies exists|i: int|
                0 <= i < r@.len() && (#[trigger] r@[i]).0@ == k by {
                lemma_fold_contains(es, k);
                let i = choose|i: int| 0 <= i < es.len() && #[trigger] es[i].0 == k;
                assert(r@[i].0@ == k);
            }
        }
        r
    }

    /// The configured options, each once.
    pub fn keys(&self) -> (r: Vec<&String>)
        ensures
            r@.len() == self@.len(),
            forall|i: int| 0 <= i < r@.len() ==> self@.contains_key((#[trigger] r@[i])@),
            forall|k: Seq<char>|
                self@.contains_key(k) ==> exists|i: int| 0 <= i < r@.len() && (#[trigger] r@[i])@ == k,
    {
        let r = self.configs.keys();
        proof {
            let es = self.configs.entries();
            crate::strmap::lemma_fold_len(es);
            assert forall|i: int| 0 <= i < r@.len() implies self@.contains_key(
                (#[trigger] r@[i])@,
            ) by {
                crate::strmap::lemma_fold_index(es, i);
            }
            assert forall|k: Seq<char>| self@.contains_key(k) implies exists|i: int|
                0 <= i < r@.len() && (#[trigger] r@[i])@ == k by {
                lemma_fold_contains(es, k);
                let i = choose|i: int| 0 <= i < es.len() && #[trigger] es[i].0 == k;
                assert(r@[i]@ == k);
            }
        }
        r
    }

    /// The entries of the configured options, one per option, in the order of
    /// [`ParserConfig::keys`].
    pub fn values(&self) -> (r: Vec<&ConfigEntry>)
        ensures
            r@.len() == self@.len(),
            r@.len() == self.entries().len(),
            forall|i: int|
                0 <= i < r@.len() ==> self@.contains_key(#[trigger] self.entries()[i].0),
            forall|i: int|
                #![trigger r@[i]]
                0 <= i < r@.len() ==> self@[self.entries()[i].0] == r@[i]@,
    {
        let r = self.configs.values();
        proof {
            let es = self.configs.entries();
            crate::strmap::lemma_fold_len(es);
            assert forall|i: int| 0 <= i < r@.len() implies self@.contains_key(
                #[trigger] self.entries()[i].0,
            ) by {
                crate::strmap::lemma_fold_index(es, i);
            }
            assert forall|i: int| #![trigger r@[i]] 0 <= i < r@.len() implies self@[self.entries()[i].0] == r@[i]@ by {
                crate::strmap::lemma_fold_index(es, i);
            }
        }
        r
    }
}

} // verus!
