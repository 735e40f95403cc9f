//! The manifest document model: exactly the shapes the dependency logic
//! reads. A manifest text is parsed by `toml_edit` behind a trusted
//! wrapper and carried over into this model; every decision taken on it
//! afterwards is verified.

use vstd::prelude::*;

verus! {

/// A parsed manifest node. Strings, booleans, tables (regular or inline)
/// and arrays are the shapes the logic inspects; every other TOML value
/// is carried as `Other` and ignored.
#[derive(Debug, PartialEq, Eq)]
pub enum TomlItem {
    Str(String),
    Bool(bool),
    Table(Vec<(String, TomlItem)>),
    Arr(Vec<TomlItem>),
    Other,
}

/// The first entry under the given key, the lookup every accessor is
/// specified against.
pub open spec fn lookup_entry(entries: Seq<(String, TomlItem)>, key: Seq<char>) -> Option<TomlItem>
    decreases entries.len(),
{
    if entries.len() == 0 {
        None
    } else if entries[0].0@ == key {
        Some(entries[0].1)
    } else {
        lookup_entry(entries.drop_first(), key)
    }
}

/// Table lookup on an item: `None` on every non-table shape.
pub open spec fn toml_get(item: TomlItem, key: Seq<char>) -> Option<TomlItem> {
    match item {
        TomlItem::Table(entries) => lookup_entry(entries@, key),
        _ => None,
    }
}

/// The characters of a string item.
pub open spec fn toml_str(item: TomlItem) -> Option<Seq<char>> {
    match item {
        TomlItem::Str(s) => Some(s@),
        _ => None,
    }
}

pub proof fn lemma_lookup_at(s: Seq<(String, TomlItem)>, key: Seq<char>, i: int)
    requires
        0 <= i <= s.len(),
        forall|m: int| 0 <= m < i ==> (#[trigger] s[m]).0@ != key,
        i < s.len() ==> s[i].0@ == key,
    ensures
        lookup_entry(s, key) == if i < s.len() {
            Some(s[i].1)
        } else {
            Option::<TomlItem>::None
        },
    decreases i,
{
    if s.len() == 0 {
    } else if i == 0 {
        if s.len() > 0 && i < s.len() {
        }
    } else {
        let t = s.drop_first();
        assert forall|m: int| 0 <= m < i - 1 implies (#[trigger] t[m]).0@ != key by {
            assert(t[m] == s[m + 1]);
        }
        if i - 1 < t.len() {
            assert(t[i - 1] == s[i]);
        }
        lemma_lookup_at(t, key, i - 1);
    }
}

/// Looks a key up in a table item, matching `toml_get` exactly.
#[verifier::loop_isolation(false)]
pub fn get_key<'a>(item: &'a TomlItem, key: &str) -> (r: Option<&'a TomlItem>)
    ensures
        match r {
            Some(v) => toml_get(*item, key@) == Some(*v),
            None => toml_get(*item, key@) is None,
        },
{
    match item {
        TomlItem::Table(entries) => {
            let n = entries.len();
            let mut i: usize = 0;
            while i < n
                invariant
                    i <= n,
                    n == entries@.len(),
                    forall|m: int| 0 <= m < i ==> (#[trigger] entries@[m]).0@ != key@,
                decreases n - i,
            {
                if crate::text::text_eq(entries[i].0.as_str(), key) {
                    proof {
                        lemma_lookup_at(entries@, key@, i as int);
                    }
                    return Some(&entries[i].1);
                }
                i = i + 1;
            }
            proof {
                lemma_lookup_at(entries@, key@, n as int);
            }
            None
        },
        _ => None,
    }
}

/// The string under an item, matching `toml_str` exactly.
pub fn get_str<'a>(item: &'a TomlItem) -> (r: Option<&'a str>)
    ensures
        match r {
            Some(s) => toml_str(*item) == Some(s@),
            None => toml_str(*item) is None,
        },
{
    match item {
        TomlItem::Str(s) => Some(s.as_str()),
        _ => None,
    }
}

/// Whether a manifest text parses as a TOML document.
pub uninterp spec fn manifest_parses(s: Seq<char>) -> bool;

/// The document a manifest text parses to, under this crate's model.
pub uninterp spec fn manifest_doc_of(s: Seq<char>) -> TomlItem;

#[verifier::external_type_specification]
#[verifier::external_body]
pub struct ExTomlEditItem(toml_edit::Item);

#[verifier::external_type_specification]
#[verifier::external_body]
pub struct ExTomlEditValue(toml_edit::Value);

/// Relies on toml_edit::Item's enum structure: each table entry and value
/// is carried over shape by shape, and shapes the logic never reads
/// become `Other`.
#[verifier::external_body]
fn convert_item(i: &toml_edit::Item) -> TomlItem {
    match i {
        toml_edit::Item::None => TomlItem::Other,
        toml_edit::Item::Value(v) => convert_value(v),
        toml_edit::Item::Table(t) => TomlItem::Table(
            t.iter().map(|(k, v)| (k.to_string(), convert_item(v))).collect(),
        ),
        toml_edit::Item::ArrayOfTables(_) => TomlItem::Other,
    }
}

/// Relies on toml_edit::Value's enum structure, as `convert_item` does.
#[verifier::external_body]
fn convert_value(v: &toml_edit::Value) -> TomlItem {
    match v {
        toml_edit::Value::String(s) => TomlItem::Str(s.value().clone()),
        toml_edit::Value::Boolean(b) => TomlItem::Bool(*b.value()),
        toml_edit::Value::Array(a) => TomlItem::Arr(a.iter().map(convert_value).collect()),
        toml_edit::Value::InlineTable(t) => TomlItem::Table(
            t.iter().map(|(k, v)| (k.to_string(), convert_value(v))).collect(),
        ),
        _ => TomlItem::Other,
    }
}

/// Relies on toml_edit::DocumentMut's FromStr parser: whether a text
/// parses, and the document it parses to, depend on its characters alone.
/// The top level of a parsed document is always a table.
#[verifier::external_body]
pub fn parse_manifest(text: &str) -> (r: Option<TomlItem>)
    ensures
        (r is Some) <==> manifest_parses(text@),
        r is Some ==> r->0 == manifest_doc_of(text@),
        r is Some ==> r->0 is Table,
{
    let doc: toml_edit::DocumentMut = text.parse().ok()?;
    Some(TomlItem::Table(
        doc.as_table().iter().map(|(k, v)| (k.to_string(), convert_item(v))).collect(),
    ))
}

} // verus!
