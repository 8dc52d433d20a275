//! Reading option configurations out of a JSON-like document.
use vstd::prelude::*;

use crate::strmap::{StrMap, fold_pairs};
use crate::types::{ConfigEntry, EntryView};

verus! {

/// A document value, holding what the configuration reader looks at.
#[derive(Debug)]
pub enum JsonValue {
    Null,
    Bool(bool),
    /// A number: its value, when it is an integer in the range of `i64`.
    Number(Option<i64>),
    String(String),
    Array(Vec<JsonValue>),
    /// The fields of an object, in order. Where a name occurs more than once, a field
    /// lookup finds its first occurrence, while reading the fields as option entries
    /// lets a later occurrence replace an earlier one.
    Object(Vec<(String, JsonValue)>),
}

/// Why a document does not describe a configuration.
#[derive(Debug, Clone, Copy, PartialEq, Eq)]
pub enum ConfigFileError {
    /// The document is not a map or list of option entries.
    UnexpectedStructure,
    /// The document has no `entries` field.
    MissingEntries,
}

impl ConfigFileError {
    /// The text that describes the error to a user.
    pub fn to_string(&self) -> (r: String)
        ensures
            r@ == match self {
                ConfigFileError::UnexpectedStructure => "configuration file has an unexpected structure"@,
                ConfigFileError::MissingEntries => "'entries' key not found"@,
            },
    {
        match self {
            ConfigFileError::UnexpectedStructure => String::from_str(
                "configuration file has an unexpected structure",
            ),
            ConfigFileError::MissingEntries => String::from_str("'entries' key not found"),
        }
    }
}

/// The value of the first field of `fields` named `name`, from position `i` on.
pub open spec fn field_from(fields: Seq<(String, JsonValue)>, name: Seq<char>, i: int) -> Option<
    JsonValue,
>
    decreases fields.len() - i,
{
    if i < 0 || i >= fields.len() {
        None
    } else if fields[i].0@ == name {
        Some(fields[i].1)
    } else {
        field_from(fields, name, i + 1)
    }
}

/// The value of the field `name` of an object; nothing for a value that is no object.
pub open spec fn field(v: JsonValue, name: Seq<char>) -> Option<JsonValue> {
    match v {
        JsonValue::Object(fields) => field_from(fields@, name, 0),
        _ => None,
    }
}

/// An optional text property: absent, or a string.
pub open spec fn text_property(p: Option<JsonValue>) -> Option<Option<Seq<char>>> {
    match p {
        None => Some(None),
        Some(JsonValue::String(s)) => Some(Some(s@)),
        _ => None,
    }
}

/// The entry an object describes: its `type` names the kind, and `default`, `sep`
/// and `target` give the properties of the kinds that have them. Nothing when the
/// value does not describe an entry.
pub open spec fn entry_of(v: JsonValue) -> Option<EntryView> {
    match field(v, "type"@) {
        Some(JsonValue::String(t)) => {
            if t@ == "flag"@ {
                Some(EntryView::Flag)
            } else if t@ == "text"@ {
                match text_property(field(v, "default"@)) {
                    Some(d) => Some(EntryView::Text { default: d }),
                    None => None,
                }
            } else if t@ == "int"@ {
                match field(v, "default"@) {
                    None => Some(EntryView::Int { default: None }),
                    Some(JsonValue::Number(n)) => Some(EntryView::Int { default: n }),
                    _ => None,
                }
            } else if t@ == "count"@ {
                Some(EntryView::Count)
            } else if t@ == "list"@ {
                match text_property(field(v, "sep"@)) {
                    Some(s) => Some(EntryView::List { sep: s }),
                    None => None,
                }
            } else if t@ == "alias"@ {
                match field(v, "target"@) {
                    Some(JsonValue::String(target)) => Some(EntryView::Alias { target: target@ }),
                    _ => None,
                }
            } else {
                None
            }
        },
        _ => None,
    }
}

/// The entries of the fields of an object, from position `i` on, each under the field name.
pub open spec fn object_entries(fields: Seq<(String, JsonValue)>, i: int) -> Option<
    Seq<(Seq<char>, EntryView)>,
>
    decreases fields.len() - i,
{
    if i < 0 || i >= fields.len() {
        Some(Seq::empty())
    } else {
        match entry_of(fields[i].1) {
            None => None,
            Some(e) => match object_entries(fields, i + 1) {
                None => None,
                Some(rest) => Some(seq![(fields[i].0@, e)] + rest),
            },
        }
    }
}

/// The entries of the items of a list, from position `i` on, each under the text of its
/// `option` field.
pub open spec fn array_entries(items: Seq<JsonValue>, i: int) -> Option<
    Seq<(Seq<char>, EntryView)>,
>
    decreases items.len() - i,
{
    if i < 0 || i >= items.len() {
        Some(Seq::empty())
    } else {
        match field(items[i], "option"@) {
            Some(JsonValue::String(k)) => match entry_of(items[i]) {
                None => None,
                Some(e) => match array_entries(items, i + 1) {
                    None => None,
                    Some(rest) => Some(seq![(k@, e)] + rest),
                },
            },
            _ => None,
        }
    }
}

/// The entries a document describes, in order: an object maps option names to entries,
/// a list holds entries that name their option. Nothing when it describes none.
pub open spec fn document_entries(v: JsonValue) -> Option<Seq<(Seq<char>, EntryView)>> {
    match v {
        JsonValue::Object(fields) => object_entries(fields@, 0),
        JsonValue::Array(items) => array_entries(items@, 0),
        _ => None,
    }
}

/// Whether `a` is the text `b`.
fn text_is(a: &String, b: &str) -> (r: bool)
    ensures
        r == (a@ == b@),
{
    let t = String::from_str(b);
    *a == t
}

/// The value of the field `name` of the object with the fields `fields`.
fn get_field<'a>(fields: &'a Vec<(String, JsonValue)>, name: &str) -> (r: Option<&'a JsonValue>)
    ensures
        match field_from(fields@, name@, 0) {
            Some(v) => r == Some(&v),
            None => r is None,
        },
{
    let n = fields.len();
    let mut i: usize = 0;
    while i < n
        invariant
            n == fields@.len(),
            i <= n,
            field_from(fields@, name@, i as int) == field_from(fields@, name@, 0),
        decreases n - i,
    {
        if text_is(&fields[i].0, name) {
            return Some(&fields[i].1);
        }
        i = i + 1;
    }
    None
}

/// The value of the field `name`, if `v` is an object that has it.
pub fn get_member<'a>(v: &'a JsonValue, name: &str) -> (r: Option<&'a JsonValue>)
    ensures
        match field(*v, name@) {
            Some(x) => r == Some(&x),
            None => r is None,
        },
{
    match v {
        JsonValue::Object(fields) => get_field(fields, name),
        _ => None,
    }
}

/// An optional text property, read as [`text_property`] says.
fn read_text_property(p: Option<&JsonValue>) -> (r: Result<Option<String>, ConfigFileError>)
    ensures
        match text_property(
            match p {
                Some(x) => Some(*x),
                None => None,
            },
        ) {
            Some(t) => r matches Ok(o) && crate::errors::opt_text(o) == t,
            None => r == Err::<Option<String>, ConfigFileError>(ConfigFileError::UnexpectedStructure),
        },
{
    match p {
        None => Ok(None),
        Some(JsonValue::String(s)) => Ok(Some(s.clone())),
        _ => Err(ConfigFileError::UnexpectedStructure),
    }
}

/// The entry that `value` describes, as [`entry_of`] says.
fn read_entry(value: &JsonValue) -> (r: Result<ConfigEntry, ConfigFileError>)
    ensures
        match entry_of(*value) {
            Some(e) => r matches Ok(x) && x@ == e,
            None => r == Err::<ConfigEntry, ConfigFileError>(ConfigFileError::UnexpectedStructure),
        },
{
    let t = match get_member(value, "type") {
        Some(JsonValue::String(t)) => t,
        _ => {
            return Err(ConfigFileError::UnexpectedStructure);
        },
    };
    if text_is(t, "flag") {
        Ok(ConfigEntry::Flag)
    } else if text_is(t, "text") {
        let default = read_text_property(get_member(value, "default"));
        match default {
            Ok(d) => Ok(ConfigEntry::Text { default: d }),
            Err(e) => Err(e),
        }
    } else if text_is(t, "int") {
        match get_member(value, "default") {
            None => Ok(ConfigEntry::Int { default: None }),
            Some(JsonValue::Number(n)) => Ok(ConfigEntry::Int { default: *n }),
            _ => Err(ConfigFileError::UnexpectedStructure),
        }
    } else if text_is(t, "count") {
        Ok(ConfigEntry::Count)
    } else if text_is(t, "list") {
        let sep = read_text_property(get_member(value, "sep"));
        match sep {
            Ok(s) => Ok(ConfigEntry::List { sep: s }),
            Err(e) => Err(e),
        }
    } else if text_is(t, "alias") {
        match get_member(value, "target") {
            Some(JsonValue::String(target)) => Ok(ConfigEntry::Alias { target: target.clone() }),
            _ => Err(ConfigFileError::UnexpectedStructure),
        }
    } else {
        Err(ConfigFileError::UnexpectedStructure)
    }
}

/// Adds to `dictionary` the entry that `value` describes, under `key`; leaves it as it
/// was when `value` describes no entry.
pub fn add_to_dictionary(
    dictionary: &mut StrMap<ConfigEntry>,
    key: &str,
    value: &JsonValue,
) -> (r: Result<(), ConfigFileError>)
    ensures
        match entry_of(*value) {
            Some(e) => r is Ok && final(dictionary)@ == old(dictionary)@.insert(key@, e),
            None => r == Err::<(), ConfigFileError>(ConfigFileError::UnexpectedStructure)
                && *final(dictionary) == *old(dictionary),
        },
{
    match read_entry(value) {
        Ok(entry) => {
            dictionary.insert(key.to_string(), entry);
            Ok(())
        },
        Err(e) => Err(e),
    }
}

/// The configuration entries that a document describes, as [`document_entries`] says,
/// gathered into a map where a later entry for an option replaces an earlier one.
pub fn parse_value(json: &JsonValue) -> (r: Result<StrMap<ConfigEntry>, ConfigFileError>)
    ensures
        match document_entries(*json) {
            Some(es) => r matches Ok(m) && m@ == fold_pairs(es),
            None => r == Err::<StrMap<ConfigEntry>, ConfigFileError>(
                ConfigFileError::UnexpectedStructure,
            ),
        },
{
    let mut dictionary: StrMap<ConfigEntry> = StrMap::new();
    match json {
        JsonValue::Object(fields) => {
            let n = fields.len();
            let mut i: usize = 0;
            let ghost fs = fields@;
            proof {
                if object_entries(fs, 0) is Some {
                    lemma_fold_after_base(object_entries(fs, 0)->0);
                }
            }
            while i < n
                invariant
                    n == fs.len(),
                    fs == fields@,
                    document_entries(*json) == object_entries(fs, 0),
                    i <= n,
                    object_entries(fs, 0) is Some ==> object_entries(fs, i as int) is Some && fold_pairs(
                        object_entries(fs, 0)->0,
                    ) == fold_pairs_after(dictionary@, object_entries(fs, i as int)->0),
                    object_entries(fs, 0) is None ==> object_entries(fs, i as int) is None,
                decreases n - i,
            {
                let ghost before = dictionary@;
                match add_to_dictionary(&mut dictionary, fields[i].0.as_str(), &fields[i].1) {
                    Ok(()) => {},
                    Err(e) => {
                        return Err(e);
                    },
                }
                proof {
                    let rest = object_entries(fs, i + 1);
                    if rest is Some {
                        let e = entry_of(fs[i as int].1)->0;
                        lemma_fold_after_cons(before, fs[i as int].0@, e, rest->0);
                    }
                }
                i = i + 1;
            }
            proof {
                lemma_fold_after_empty(dictionary@);
            }
            Ok(dictionary)
        },
        JsonValue::Array(items) => {
            let n = items.len();
            let mut i: usize = 0;
            let ghost its = items@;
            proof {
                if array_entries(its, 0) is Some {
                    lemma_fold_after_base(array_entries(its, 0)->0);
                }
            }
            while i < n
                invariant
                    n == its.len(),
                    its == items@,
                    document_entries(*json) == array_entries(its, 0),
                    i <= n,
                    array_entries(its, 0) is Some ==> array_entries(its, i as int) is Some && fold_pairs(
                        array_entries(its, 0)->0,
                    ) == fold_pairs_after(dictionary@, array_entries(its, i as int)->0),
                    array_entries(its, 0) is None ==> array_entries(its, i as int) is None,
                decreases n - i,
            {
                let key = match get_member(&items[i], "option") {
                    Some(JsonValue::String(k)) => k,
                    _ => {
                        return Err(ConfigFileError::UnexpectedStructure);
                    },
                };
                let ghost before = dictionary@;
                match add_to_dictionary(&mut dictionary, key.as_str(), &items[i]) {
                    Ok(()) => {},
                    Err(e) => {
                        return Err(e);
                    },
                }
                proof {
                    let rest = array_entries(its, i + 1);
                    if rest is Some {
                        let e = entry_of(its[i as int])->0;
                        lemma_fold_after_cons(before, key@, e, rest->0);
                    }
                }
                i = i + 1;
            }
            proof {
                lemma_fold_after_empty(dictionary@);
            }
            Ok(dictionary)
        },
        _ => Err(ConfigFileError::UnexpectedStructure),
    }
}

/// The map `m` with the pairs of `s` inserted in turn.
pub open spec fn fold_pairs_after<K, W>(m: Map<K, W>, s: Seq<(K, W)>) -> Map<K, W>
    decreases s.len(),
{
    if s.len() == 0 {
        m
    } else {
        fold_pairs_after(m, s.drop_last()).insert(s.last().0, s.last().1)
    }
}

proof fn lemma_fold_after_base<K, W>(s: Seq<(K, W)>)
    ensures
        fold_pairs_after(Map::<K, W>::empty(), s) == fold_pairs(s),
    decreases s.len(),
{
    if s.len() > 0 {
        lemma_fold_after_base(s.drop_last());
    }
}

proof fn lemma_fold_after_empty<K, W>(m: Map<K, W>)
    ensures
        fold_pairs_after(m, Seq::<(K, W)>::empty()) == m,
{
}

proof fn lemma_fold_after_cons<K, W>(m: Map<K, W>, k: K, w: W, s: Seq<(K, W)>)
    ensures
        fold_pairs_after(m, seq![(k, w)] + s) == fold_pairs_after(m.insert(k, w), s),
    decreases s.len(),
{
    let t = seq![(k, w)] + s;
    if s.len() == 0 {
        assert(t.drop_last() =~= Seq::<(K, W)>::empty());
        assert(t.last() == (k, w));
        assert(fold_pairs_after(m, t) == fold_pairs_after(m, t.drop_last()).insert(k, w));
    } else {
        assert(t.drop_last() =~= seq![(k, w)] + s.drop_last());
        assert(t.last() == s.last());
        lemma_fold_after_cons(m, k, w, s.drop_last());
    }
}

/// The configuration entries under the `entries` field of a document.
pub fn parse_entries_field(doc: &JsonValue) -> (r: Result<StrMap<ConfigEntry>, ConfigFileError>)
    ensures
        match field(*doc, "entries"@) {
            None => r == Err::<StrMap<ConfigEntry>, ConfigFileError>(
                ConfigFileError::MissingEntries,
            ),
            Some(v) => match document_entries(v) {
                Some(es) => r matches Ok(m) && m@ == fold_pairs(es),
                None => r == Err::<StrMap<ConfigEntry>, ConfigFileError>(
                    ConfigFileError::UnexpectedStructure,
                ),
            },
        },
{
    match get_member(doc, "entries") {
        Some(v) => parse_value(v),
        None => Err(ConfigFileError::MissingEntries),
    }
}

/// An entry object is read by its properties: a `text` entry takes its string `default`,
/// an `int` entry its number `default`, a `list` entry its string `sep`, each of them none
/// when the property is absent; an `alias` entry takes its string `target`; `flag` and
/// `count` entries take nothing.
pub proof fn lemma_entry_properties(v: JsonValue, t: String)
    requires
        field(v, "type"@) == Some(JsonValue::String(t)),
    ensures
        t@ == "flag"@ ==> entry_of(v) == Some(EntryView::Flag),
        t@ == "count"@ ==> entry_of(v) == Some(EntryView::Count),
        t@ == "text"@ && field(v, "default"@) is None ==> entry_of(v) == Some(
            EntryView::Text { default: None },
        ),
        t@ == "text"@ ==> (field(v, "default"@) matches Some(JsonValue::String(d)) ==> entry_of(v)
            == Some(EntryView::Text { default: Some(d@) })),
        t@ == "int"@ && field(v, "default"@) is None ==> entry_of(v) == Some(
            EntryView::Int { default: None },
        ),
        t@ == "int"@ ==> (field(v, "default"@) matches Some(JsonValue::Number(n)) ==> entry_of(v)
            == Some(EntryView::Int { default: n })),
        t@ == "list"@ && field(v, "sep"@) is None ==> entry_of(v) == Some(
            EntryView::List { sep: None },
        ),
        t@ == "list"@ ==> (field(v, "sep"@) matches Some(JsonValue::String(d)) ==> entry_of(v)
            == Some(EntryView::List { sep: Some(d@) })),
        t@ == "alias"@ ==> (field(v, "target"@) matches Some(JsonValue::String(d)) ==> entry_of(v)
            == Some(EntryView::Alias { target: d@ })),
{
    reveal_strlit("flag");
    reveal_strlit("text");
    reveal_strlit("int");
    reveal_strlit("count");
    reveal_strlit("list");
    reveal_strlit("alias");
    let (fl, tx, it, co, li, al) = ("flag"@, "text"@, "int"@, "count"@, "list"@, "alias"@);
    assert(fl.len() == 4 && tx.len() == 4 && li.len() == 4 && it.len() == 3);
    assert(co.len() == 5 && al.len() == 5);
    assert(fl[0] == 'f' && tx[0] == 't' && li[0] == 'l' && co[0] == 'c' && al[0] == 'a');
    assert(fl != tx && fl != li && tx != li && co != al);
}

} // verus!
