//! The default-registry response logic: a JSON document model holding
//! exactly the shapes the response reader inspects, the typed response it
//! extracts, and the decision whether a declaration is outdated against
//! it. The HTTP transfer lives with the caller; the response bytes are
//! parsed by `serde_json` behind a trusted wrapper.

use vstd::prelude::*;

use crate::cargo::{opt_view, CargoDependency};
use crate::dependency::Dependency;
use crate::errors::Error;
use crate::text::{
    normalize_text, spec_normalize, spec_strip_req_ops, spec_trim, strip_req_ops, text_eq,
    trim_text,
};
use crate::version::{version_less, version_lt, version_parses};

verus! {

/// A parsed JSON node: strings, objects and arrays are the shapes the
/// response reader inspects; every other value is carried as `Other`.
#[derive(Debug, PartialEq, Eq)]
pub enum JsonItem {
    Str(String),
    Obj(Vec<(String, JsonItem)>),
    Arr(Vec<JsonItem>),
    Other,
}

/// The first field under the given key.
pub open spec fn json_lookup(entries: Seq<(String, JsonItem)>, key: Seq<char>) -> Option<JsonItem>
    decreases entries.len(),
{
    if entries.len() == 0 {
        None
    } else if entries[0].0@ == key {
        Some(entries[0].1)
    } else {
        json_lookup(entries.drop_first(), key)
    }
}

/// Object field lookup: `None` on every non-object shape.
pub open spec fn json_get(item: JsonItem, key: Seq<char>) -> Option<JsonItem> {
    match item {
        JsonItem::Obj(entries) => json_lookup(entries@, key),
        _ => None,
    }
}

proof fn lemma_json_lookup_at(s: Seq<(String, JsonItem)>, key: Seq<char>, i: int)
    requires
        0 <= i <= s.len(),
        forall|m: int| 0 <= m < i ==> (#[trigger] s[m]).0@ != key,
        i < s.len() ==> s[i].0@ == key,
    ensures
        json_lookup(s, key) == if i < s.len() {
            Some(s[i].1)
        } else {
            Option::<JsonItem>::None
        },
    decreases i,
{
    if s.len() == 0 {
    } else if i == 0 {
    } else {
        let t = s.drop_first();
        assert forall|m: int| 0 <= m < i - 1 implies (#[trigger] t[m]).0@ != key by {
            assert(t[m] == s[m + 1]);
        }
        if i - 1 < t.len() {
            assert(t[i - 1] == s[i]);
        }
        lemma_json_lookup_at(t, key, i - 1);
    }
}

/// Looks a key up in an object item, matching `json_get` exactly.
#[verifier::loop_isolation(false)]
pub fn json_key<'a>(item: &'a JsonItem, key: &str) -> (r: Option<&'a JsonItem>)
    ensures
        match r {
            Some(v) => json_get(*item, key@) == Some(*v),
            None => json_get(*item, key@) is None,
        },
{
    match item {
        JsonItem::Obj(entries) => {
            let n = entries.len();
            let mut i: usize = 0;
            while i < n
                invariant
                    i <= n,
                    n == entries@.len(),
                    forall|m: int| 0 <= m < i ==> (#[trigger] entries@[m]).0@ != key@,
                decreases n - i,
            {
                if text_eq(entries[i].0.as_str(), key) {
                    proof {
                        lemma_json_lookup_at(entries@, key@, i as int);
                    }
                    return Some(&entries[i].1);
                }
                i = i + 1;
            }
            proof {
                lemma_json_lookup_at(entries@, key@, n as int);
            }
            None
        },
        _ => None,
    }
}

/// Whether a response text parses as JSON.
pub uninterp spec fn json_parses(s: Seq<u8>) -> bool;

#[verifier::external_type_specification]
#[verifier::external_body]
pub struct ExSerdeJsonValue(serde_json::Value);

/// Relies on serde_json::Value's enum structure: strings, objects and
/// arrays are carried over shape by shape, and shapes the logic never
/// reads become `Other`.
#[verifier::external_body]
fn convert_json(v: &serde_json::Value) -> JsonItem {
    match v {
        serde_json::Value::String(s) => JsonItem::Str(s.clone()),
        serde_json::Value::Array(a) => JsonItem::Arr(a.iter().map(convert_json).collect()),
        serde_json::Value::Object(o) => JsonItem::Obj(
            o.iter().map(|(k, v)| (k.clone(), convert_json(v))).collect(),
        ),
        _ => JsonItem::Other,
    }
}

/// Relies on serde_json::from_slice: whether the bytes parse, and the
/// document they parse to, depend on the bytes alone.
#[verifier::external_body]
pub fn parse_json(bytes: &[u8]) -> (r: Option<JsonItem>)
    ensures
        (r is Some) <==> json_parses(bytes@),
{
    let v: serde_json::Value = serde_json::from_slice(bytes).ok()?;
    Some(convert_json(&v))
}

/// What the default registry reports of one package.
#[derive(Debug, Clone, PartialEq, Eq)]
pub struct CratesIoResponse {
    pub repository: Option<String>,
    pub description: Option<String>,
    pub latest_version: String,
    pub latest_version_date: Option<String>,
    pub current_version_date: Option<String>,
}

/// The `crate` object of a response, when it is an object.
pub open spec fn spec_crate_obj(value: JsonItem) -> Option<JsonItem> {
    match json_get(value, "crate"@) {
        Some(o) => if o is Obj {
            Some(o)
        } else {
            None
        },
        None => None,
    }
}

/// A free-text string field of an object, trimmed and with line breaks
/// flattened.
pub open spec fn spec_string_field(value: Option<JsonItem>, key: Seq<char>) -> Option<Seq<char>> {
    match value {
        Some(v) => match json_get(v, key) {
            Some(JsonItem::Str(s)) => Some(spec_normalize(s@)),
            _ => None,
        },
        None => None,
    }
}

/// Reads a trimmed, flattened string field, matching `spec_string_field`
/// exactly.
pub fn get_string_from_value(value: Option<&JsonItem>, key: &str) -> (r: Option<String>)
    ensures
        opt_view(r) == spec_string_field(
            match value {
                Some(v) => Some(*v),
                None => None,
            },
            key@,
        ),
{
    match value {
        Some(v) => match json_key(v, key) {
            Some(JsonItem::Str(s)) => Some(normalize_text(s.as_str())),
            _ => None,
        },
        None => None,
    }
}

/// The `num` string of one version record, or nothing at all.
pub open spec fn spec_num_of(item: JsonItem) -> Seq<char> {
    match json_get(item, "num"@) {
        Some(JsonItem::Str(s)) => s@,
        _ => Seq::empty(),
    }
}

/// The first version record whose `num` equals the wanted version.
pub open spec fn spec_find_version(items: Seq<JsonItem>, want: Seq<char>) -> Option<JsonItem>
    decreases items.len(),
{
    if items.len() == 0 {
        None
    } else if spec_num_of(items[0]) == want {
        Some(items[0])
    } else {
        spec_find_version(items.drop_first(), want)
    }
}

/// A trimmed string field of the version record matching the version,
/// looked up in the response's `versions` array. The wanted version is
/// the declaration's, without its leading `=` or `^` operators.
pub open spec fn spec_field_from_versions(
    versions: Option<JsonItem>,
    version: Seq<char>,
    key: Seq<char>,
) -> Option<Seq<char>> {
    match versions {
        Some(JsonItem::Arr(items)) => match spec_find_version(
            items@,
            spec_strip_req_ops(version),
        ) {
            Some(entry) => match json_get(entry, key) {
                Some(JsonItem::Str(s)) => Some(spec_trim(s@)),
                _ => None,
            },
            None => None,
        },
        _ => None,
    }
}

proof fn lemma_find_version_at(items: Seq<JsonItem>, want: Seq<char>, i: int)
    requires
        0 <= i <= items.len(),
        forall|m: int| 0 <= m < i ==> spec_num_of(#[trigger] items[m]) != want,
        i < items.len() ==> spec_num_of(items[i]) == want,
    ensures
        spec_find_version(items, want) == if i < items.len() {
            Some(items[i])
        } else {
            Option::<JsonItem>::None
        },
    decreases i,
{
    if items.len() == 0 {
    } else if i == 0 {
    } else {
        let t = items.drop_first();
        assert forall|m: int| 0 <= m < i - 1 implies spec_num_of(#[trigger] t[m]) != want by {
            assert(t[m] == items[m + 1]);
        }
        if i - 1 < t.len() {
            assert(t[i - 1] == items[i]);
        }
        lemma_find_version_at(t, want, i - 1);
    }
}

/// Reads the matching version record's field, matching
/// `spec_field_from_versions` exactly.
#[verifier::loop_isolation(false)]
pub fn get_field_from_versions(versions: Option<&JsonItem>, version: &str, key: &str) -> (r:
    Option<String>)
    ensures
        opt_view(r) == spec_field_from_versions(
            match versions {
                Some(v) => Some(*v),
                None => None,
            },
            version@,
            key@,
        ),
{
    let items = match versions {
        Some(JsonItem::Arr(items)) => items,
        _ => {
            return None;
        },
    };
    let want = strip_req_ops(version);
    let n = items.len();
    let mut i: usize = 0;
    while i < n
        invariant
            i <= n,
            n == items@.len(),
            forall|m: int| 0 <= m < i ==> spec_num_of(#[trigger] items@[m]) != want@,
        decreases n - i,
    {
        let numstr: &str = match json_key(&items[i], "num") {
            Some(JsonItem::Str(s)) => s.as_str(),
            _ => "",
        };
        let num_matches = text_eq(numstr, want);
        proof {
            reveal_strlit("");
            assert(""@ =~= Seq::<char>::empty());
            assert(num_matches == (spec_num_of(items@[i as int]) == want@));
        }
        if num_matches {
            proof {
                lemma_find_version_at(items@, want@, i as int);
            }
            let field = match json_key(&items[i], key) {
                Some(JsonItem::Str(s)) => Some(trim_text(s.as_str())),
                _ => None,
            };
            return field;
        }
        proof {
            assert(spec_num_of(items@[i as int]) != want@);
        }
        i = i + 1;
    }
    proof {
        lemma_find_version_at(items@, want@, n as int);
    }
    None
}

impl CratesIoResponse {
    /// Reads a registry response document against the declaration's
    /// version: free-text fields are trimmed and flattened, the latest
    /// version falls back to the declaration's own when the response
    /// names none, and the two dates come from the matching version
    /// records.
    pub fn from_value(value: &JsonItem, version: &str) -> (r: Option<CratesIoResponse>)
        ensures
            r is Some,
            ({
                let data = spec_crate_obj(*value);
                let versions = json_get(*value, "versions"@);
                let latest = match spec_string_field(data, "max_stable_version"@) {
                    Some(v) => v,
                    None => version@,
                };
                &&& r->0.latest_version@ == latest
                &&& opt_view(r->0.repository) == spec_string_field(data, "repository"@)
                &&& opt_view(r->0.description) == spec_string_field(data, "description"@)
                &&& opt_view(r->0.latest_version_date) == spec_field_from_versions(
                    versions,
                    latest,
                    "updated_at"@,
                )
                &&& opt_view(r->0.current_version_date) == spec_field_from_versions(
                    versions,
                    version@,
                    "updated_at"@,
                )
            }),
    {
        let data = match json_key(value, "crate") {
            Some(c) => match c {
                JsonItem::Obj(_) => Some(c),
                _ => None,
            },
            None => None,
        };
        let versions = json_key(value, "versions");
        let latest_version = match get_string_from_value(data, "max_stable_version") {
            Some(v) => v,
            None => version.to_owned(),
        };
        Some(
            CratesIoResponse {
                repository: get_string_from_value(data, "repository"),
                description: get_string_from_value(data, "description"),
                latest_version_date: get_field_from_versions(
                    versions,
                    latest_version.as_str(),
                    "updated_at",
                ),
                current_version_date: get_field_from_versions(versions, version, "updated_at"),
                latest_version,
            },
        )
    }
}

/// Decides the default-registry outcome for one declaration: no response
/// or a not-newer latest version is "no update"; a strictly newer latest
/// version yields the outdated record; a version string that does not
/// parse is fatal.
pub fn fetch_package_from_crates_io(
    dep: CargoDependency,
    workspace_member: Option<String>,
    workspace_path: Option<String>,
    response: Option<CratesIoResponse>,
) -> (r: Result<Option<Dependency>, Error>)
    ensures
        ({
            match response {
                None => r == Result::<Option<Dependency>, Error>::Ok(None),
                Some(res) => {
                    &&& ((r is Err) <==> !(version_parses(dep.version@) && version_parses(
                        res.latest_version@,
                    )))
                    &&& (r is Ok ==> ((r->Ok_0 is Some) <==> version_lt(
                        dep.version@,
                        res.latest_version@,
                    )))
                    &&& (r is Ok && r->Ok_0 is Some ==> {
                        let d = r->Ok_0->0;
                        &&& d.name == dep.name
                        &&& d.current_version == dep.version
                        &&& d.latest_version == res.latest_version
                        &&& d.repository == res.repository
                        &&& d.description == res.description
                        &&& d.kind == dep.kind
                        &&& d.latest_version_date == res.latest_version_date
                        &&& d.current_version_date == res.current_version_date
                        &&& d.workspace_member == workspace_member
                        &&& d.workspace_path == workspace_path
                    })
                },
            }
        }),
{
    let res = match response {
        None => {
            return Ok(None);
        },
        Some(res) => res,
    };
    match version_less(dep.version.as_str(), res.latest_version.as_str()) {
        None => Err(Error::BadVersion(dep.version)),
        Some(outdated) => {
            if outdated {
                Ok(
                    Some(
                        Dependency {
                            name: dep.name,
                            current_version: dep.version,
                            latest_version: res.latest_version,
                            kind: dep.kind,
                            repository: res.repository,
                            description: res.description,
                            latest_version_date: res.latest_version_date,
                            current_version_date: res.current_version_date,
                            workspace_member,
                            workspace_path,
                        },
                    ),
                )
            } else {
                Ok(None)
            }
        },
    }
}

} // verus!
