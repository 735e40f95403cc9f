//! The gathering engine: manifest tables are classified entry by entry
//! into raw declarations, each declaration is resolved to its locked (or
//! path-local) version, workspace members are walked recursively, and the
//! resolved declarations are classified by source registry for the fetch
//! phase.

use vstd::prelude::*;

use crate::dependency::DependencyKind;
use crate::errors::Error;
use crate::lock::{entry_matches, find_matching_package, LockEntry, LockFile};
use crate::text::text_eq;
use crate::toml_model::{get_key, get_str, lookup_entry, toml_get, toml_str, TomlItem};
use crate::version::{check_requirement, check_version, req_parses, version_parses};

verus! {

/// One declared dependency, joined with the version its lock entry (or,
/// for a path declaration, the target manifest) assigns to it.
#[derive(Debug, Clone, PartialEq, Eq, Default)]
pub struct CargoDependency {
    pub name: String,
    pub package: String,
    pub version: String,
    pub kind: DependencyKind,
    pub source: Option<String>,
    pub path: Option<String>,
}

/// The characters of an optional string.
pub open spec fn opt_view(o: Option<String>) -> Option<Seq<char>> {
    match o {
        Some(s) => Some(s@),
        None => None,
    }
}

/// A declaration as written in a manifest table, before resolution.
#[derive(Debug, Clone, PartialEq, Eq)]
pub struct RawDeclaration {
    pub name: String,
    pub package: String,
    pub req: String,
    pub path: Option<String>,
}

/// The characters of a raw declaration's fields.
pub struct DeclView {
    pub name: Seq<char>,
    pub package: Seq<char>,
    pub req: Seq<char>,
    pub path: Option<Seq<char>>,
}

impl View for RawDeclaration {
    type V = DeclView;

    open spec fn view(&self) -> DeclView {
        DeclView {
            name: self.name@,
            package: self.package@,
            req: self.req@,
            path: opt_view(self.path),
        }
    }
}

/// What one manifest table entry contributes to the declaration set.
#[derive(Debug, PartialEq, Eq)]
pub enum EntryOutcome {
    /// A declaration to resolve.
    Kept(RawDeclaration),
    /// An ignored shape, or an entry inherited from the workspace.
    Skipped,
    /// A table entry without its required `version` key.
    Invalid,
}

/// Ghost counterpart of `EntryOutcome`.
pub enum DeclOutcome {
    Kept(DeclView),
    Skipped,
    Invalid,
}

/// Whether a table entry carries `workspace = true` and is therefore
/// excluded from the declaration set.
pub open spec fn spec_is_workspace(item: TomlItem) -> bool {
    match toml_get(item, "workspace"@) {
        Some(TomlItem::Bool(b)) => b,
        _ => false,
    }
}

/// How one table entry is classified: a bare string is a version
/// requirement; a table is read for its `version`, `package`, `path` and
/// `workspace` keys; every other shape is ignored. A table without a
/// `version` key is a configuration error unless it inherits from the
/// workspace; a table whose `version` is not a string is a malformed
/// shape and is skipped.
pub open spec fn spec_classify_entry(key: Seq<char>, item: TomlItem) -> DeclOutcome {
    match item {
        TomlItem::Str(s) => DeclOutcome::Kept(
            DeclView { name: key, package: key, req: s@, path: None },
        ),
        TomlItem::Table(_) => {
            if spec_is_workspace(item) {
                DeclOutcome::Skipped
            } else {
                match toml_get(item, "version"@) {
                    None => DeclOutcome::Invalid,
                    Some(v) => match toml_str(v) {
                        None => DeclOutcome::Skipped,
                        Some(req) => DeclOutcome::Kept(
                            DeclView {
                                name: key,
                                package: match toml_get(item, "package"@) {
                                    Some(p) => match toml_str(p) {
                                        Some(ps) => ps,
                                        None => key,
                                    },
                                    None => key,
                                },
                                req,
                                path: match toml_get(item, "path"@) {
                                    Some(p) => match toml_str(p) {
                                        Some(ps) => Some(ps),
                                        None => None,
                                    },
                                    None => None,
                                },
                            },
                        ),
                    },
                }
            }
        },
        _ => DeclOutcome::Skipped,
    }
}

/// Classifies one table entry, matching `spec_classify_entry` exactly.
pub fn classify_entry(key: &str, item: &TomlItem) -> (r: EntryOutcome)
    ensures
        (r is Kept) <==> (spec_classify_entry(key@, *item) is Kept),
        (r is Skipped) <==> (spec_classify_entry(key@, *item) is Skipped),
        (r is Invalid) <==> (spec_classify_entry(key@, *item) is Invalid),
        r is Kept ==> r->Kept_0@ == spec_classify_entry(key@, *item)->Kept_0,
{
    match item {
        TomlItem::Str(s) => EntryOutcome::Kept(
            RawDeclaration {
                name: key.to_owned(),
                package: key.to_owned(),
                req: s.clone(),
                path: None,
            },
        ),
        TomlItem::Table(_) => {
            let workspace = match get_key(item, "workspace") {
                Some(TomlItem::Bool(b)) => *b,
                _ => false,
            };
            if workspace {
                EntryOutcome::Skipped
            } else {
                match get_key(item, "version") {
                    None => EntryOutcome::Invalid,
                    Some(v) => match get_str(v) {
                        None => EntryOutcome::Skipped,
                        Some(req) => {
                            let package = match get_key(item, "package") {
                                Some(p) => match get_str(p) {
                                    Some(ps) => ps.to_owned(),
                                    None => key.to_owned(),
                                },
                                None => key.to_owned(),
                            };
                            let path = match get_key(item, "path") {
                                Some(p) => match get_str(p) {
                                    Some(ps) => Some(ps.to_owned()),
                                    None => None,
                                },
                                None => None,
                            };
                            EntryOutcome::Kept(
                                RawDeclaration {
                                    name: key.to_owned(),
                                    package,
                                    req: req.to_owned(),
                                    path,
                                },
                            )
                        },
                    },
                }
            }
        },
        _ => EntryOutcome::Skipped,
    }
}

/// The characters of each raw declaration in a list.
pub open spec fn raws_view(s: Seq<RawDeclaration>) -> Seq<DeclView> {
    s.map_values(|r: RawDeclaration| r@)
}

/// The declaration set a table's entries produce, in table order; `None`
/// is the fatal missing-version case.
pub open spec fn spec_raw_decls(entries: Seq<(String, TomlItem)>) -> Option<Seq<DeclView>>
    decreases entries.len(),
{
    if entries.len() == 0 {
        Some(Seq::empty())
    } else {
        match spec_raw_decls(entries.drop_last()) {
            None => None,
            Some(rest) => {
                match spec_classify_entry(entries.last().0@, entries.last().1) {
                    DeclOutcome::Kept(d) => Some(rest.push(d)),
                    DeclOutcome::Skipped => Some(rest),
                    DeclOutcome::Invalid => None,
                }
            },
        }
    }
}

proof fn lemma_raw_none_extends(s: Seq<(String, TomlItem)>, k: int)
    requires
        0 <= k <= s.len(),
        spec_raw_decls(s.subrange(0, k)) is None,
    ensures
        spec_raw_decls(s) is None,
    decreases s.len() - k,
{
    if k == s.len() {
        assert(s.subrange(0, k) =~= s);
    } else {
        let next = s.subrange(0, k + 1);
        assert(next.drop_last() =~= s.subrange(0, k));
        lemma_raw_none_extends(s, k + 1);
    }
}

/// Collects the raw declarations of a table's entries, matching
/// `spec_raw_decls` exactly; fails exactly on its fatal case.
#[verifier::loop_isolation(false)]
pub fn collect_raw_decls(entries: &Vec<(String, TomlItem)>) -> (r: Result<
    Vec<RawDeclaration>,
    Error,
>)
    ensures
        (r is Ok) <==> (spec_raw_decls(entries@) is Some),
        r is Ok ==> raws_view(r->Ok_0@) == spec_raw_decls(entries@)->0,
{
    let mut out: Vec<RawDeclaration> = Vec::new();
    let mut i: usize = 0;
    proof {
        assert(entries@.subrange(0, 0) =~= Seq::<(String, TomlItem)>::empty());
        assert(raws_view(out@) =~= spec_raw_decls(entries@.subrange(0, 0))->0);
    }
    while i < entries.len()
        invariant
            i <= entries@.len(),
            spec_raw_decls(entries@.subrange(0, i as int)) is Some,
            raws_view(out@) == spec_raw_decls(entries@.subrange(0, i as int))->0,
        decreases entries@.len() - i,
    {
        let pair = &entries[i];
        let ghost prefix = entries@.subrange(0, i as int);
        let ghost next = entries@.subrange(0, i + 1);
        proof {
            assert(next.drop_last() =~= prefix);
            assert(next.last() == entries@[i as int]);
        }
        match classify_entry(pair.0.as_str(), &pair.1) {
            EntryOutcome::Kept(raw) => {
                out.push(raw);
                proof {
                    assert(raws_view(out@) =~= spec_raw_decls(next)->0);
                }
            },
            EntryOutcome::Skipped => {
                proof {
                    assert(raws_view(out@) =~= spec_raw_decls(next)->0);
                }
            },
            EntryOutcome::Invalid => {
                proof {
                    lemma_raw_none_extends(entries@, i + 1);
                }
                return Err(Error::MissingVersion(pair.0.clone()));
            },
        }
        i = i + 1;
    }
    proof {
        assert(entries@.subrange(0, entries@.len() as int) =~= entries@);
    }
    Ok(out)
}

/// The key a relative member or path reference resolves to: relative
/// references from the run's starting node are used as they stand.
pub open spec fn spec_member_key(parent: Seq<char>, rel: Seq<char>) -> Seq<char> {
    if parent == "."@ {
        rel
    } else {
        parent + "/"@ + rel
    }
}

/// Joins a node path with a relative reference, matching
/// `spec_member_key` exactly.
pub fn member_manifest_key(parent: &str, rel: &str) -> (r: String)
    ensures
        r@ == spec_member_key(parent@, rel@),
{
    if text_eq(parent, ".") {
        rel.to_owned()
    } else {
        let mut s = parent.to_owned();
        s.append("/");
        s.append(rel);
        s
    }
}

/// The manifest supplied for a node key, if any.
pub fn find_manifest<'a>(manifests: &'a Vec<(String, TomlItem)>, key: &str) -> (r: Option<
    &'a TomlItem,
>)
    ensures
        match r {
            Some(m) => lookup_entry(manifests@, key@) == Some(*m),
            None => lookup_entry(manifests@, key@) is None,
        },
{
    let n = manifests.len();
    let mut i: usize = 0;
    while i < n
        invariant
            i <= n,
            n == manifests@.len(),
            forall|m: int| 0 <= m < i ==> (#[trigger] manifests@[m]).0@ != key@,
        decreases n - i,
    {
        if text_eq(manifests[i].0.as_str(), key) {
            proof {
                crate::toml_model::lemma_lookup_at(manifests@, key@, i as int);
            }
            return Some(&manifests[i].1);
        }
        i = i + 1;
    }
    proof {
        crate::toml_model::lemma_lookup_at(manifests@, key@, n as int);
    }
    None
}

/// The version the target manifest of a path declaration assigns:
/// its `package.version` string.
pub open spec fn spec_path_version(
    manifests: Seq<(String, TomlItem)>,
    key: Seq<char>,
) -> Option<Seq<char>> {
    match lookup_entry(manifests, key) {
        Some(m) => match toml_get(m, "package"@) {
            Some(p) => match toml_get(p, "version"@) {
                Some(v) => toml_str(v),
                None => None,
            },
            None => None,
        },
        None => None,
    }
}

/// Some lock entry resolves the declaration.
pub open spec fn lock_has_match(lock: Seq<LockEntry>, name: Seq<char>, req: Seq<char>) -> bool {
    exists|j: int| 0 <= j < lock.len() && entry_matches(#[trigger] lock[j], name, req)
}

/// Whether a raw declaration can be resolved at all: a path declaration
/// needs its target manifest to record a parsable version; any other
/// declaration needs a parsable requirement and a lock entry that
/// satisfies it.
pub open spec fn spec_resolvable(
    raw: DeclView,
    lock: Seq<LockEntry>,
    manifests: Seq<(String, TomlItem)>,
    node_path: Seq<char>,
) -> bool {
    match raw.path {
        Some(p) => match spec_path_version(manifests, spec_member_key(node_path, p)) {
            Some(v) => version_parses(v),
            None => false,
        },
        None => req_parses(raw.req) && lock_has_match(lock, raw.package, raw.req),
    }
}

/// How a resolved dependency relates to its raw declaration: a path
/// declaration takes the target manifest's version and no source; any
/// other takes a matching lock entry's exact version and source locator.
pub open spec fn resolved_from(
    d: CargoDependency,
    raw: DeclView,
    kind: DependencyKind,
    lock: Seq<LockEntry>,
    manifests: Seq<(String, TomlItem)>,
    node_path: Seq<char>,
) -> bool {
    d.name@ == raw.name && d.kind == kind && match raw.path {
        Some(p) => {
            &&& opt_view(d.path) == Some(p)
            &&& d.source is None
            &&& d.package@ == raw.package
            &&& spec_path_version(manifests, spec_member_key(node_path, p)) == Some(d.version@)
            &&& version_parses(d.version@)
        },
        None => {
            &&& d.path is None
            &&& (crate::lock::spec_matching_index(lock, raw.package, raw.req) matches Some(i)
                && d.version@ == lock[i].version@ && opt_view(d.source) == opt_view(
                lock[i].source,
            ) && d.package@ == lock[i].name@)
        },
    }
}

/// A lock entry matches the declaration and supplies exactly these
/// fields.
pub open spec fn lock_resolves(
    lock: Seq<LockEntry>,
    raw: DeclView,
    version: Seq<char>,
    source: Option<Seq<char>>,
    package: Seq<char>,
) -> bool {
    exists|j: int|
        0 <= j < lock.len() && entry_matches(#[trigger] lock[j], raw.package, raw.req) && version
            == lock[j].version@ && source == opt_view(lock[j].source) && package == lock[j].name@
}

/// Resolves one raw declaration, succeeding exactly when
/// `spec_resolvable` holds of it.
pub fn resolve_declaration(
    raw: &RawDeclaration,
    kind: DependencyKind,
    lockfile: &LockFile,
    manifests: &Vec<(String, TomlItem)>,
    node_path: &str,
) -> (r: Result<CargoDependency, Error>)
    requires
        lockfile.wf(),
    ensures
        (r is Ok) <==> spec_resolvable(raw@, lockfile@, manifests@, node_path@),
        r is Ok ==> resolved_from(r->Ok_0, raw@, kind, lockfile@, manifests@, node_path@),
{
    match &raw.path {
        Some(p) => {
            let key = member_manifest_key(node_path, p.as_str());
            let target = match find_manifest(manifests, key.as_str()) {
                None => {
                    return Err(Error::MissingManifest(key));
                },
                Some(m) => m,
            };
            let package_table = match get_key(target, "package") {
                None => {
                    return Err(Error::BadManifest(key));
                },
                Some(t) => t,
            };
            let version_item = match get_key(package_table, "version") {
                None => {
                    return Err(Error::BadManifest(key));
                },
                Some(v) => v,
            };
            let version = match get_str(version_item) {
                None => {
                    return Err(Error::BadManifest(key));
                },
                Some(s) => s,
            };
            if check_version(version) {
                Ok(
                    CargoDependency {
                        name: raw.name.clone(),
                        package: raw.package.clone(),
                        version: version.to_owned(),
                        kind,
                        source: None,
                        path: Some(p.clone()),
                    },
                )
            } else {
                Err(Error::BadVersion(version.to_owned()))
            }
        },
        None => {
            if !check_requirement(raw.req.as_str()) {
                return Err(Error::BadRequirement(raw.req.clone()));
            }
            match find_matching_package(lockfile, raw.package.as_str(), raw.req.as_str()) {
                Ok(entry) => {
                    let source = match &entry.source {
                        Some(s) => Some(s.clone()),
                        None => None,
                    };
                    let d = CargoDependency {
                        name: raw.name.clone(),
                        package: entry.name.clone(),
                        version: entry.version.clone(),
                        kind,
                        source,
                        path: None,
                    };
                    Ok(d)
                },
                Err(e) => Err(e),
            }
        },
    }
}

/// Every raw declaration of the list can be resolved.
pub open spec fn all_resolvable(
    raws: Seq<DeclView>,
    lock: Seq<LockEntry>,
    manifests: Seq<(String, TomlItem)>,
    node_path: Seq<char>,
) -> bool {
    forall|i: int|
        0 <= i < raws.len() ==> spec_resolvable(#[trigger] raws[i], lock, manifests, node_path)
}

/// The resolved list corresponds to the raw declarations one for one.
pub open spec fn section_resolved(
    deps: Seq<CargoDependency>,
    raws: Seq<DeclView>,
    kind: DependencyKind,
    lock: Seq<LockEntry>,
    manifests: Seq<(String, TomlItem)>,
    node_path: Seq<char>,
) -> bool {
    deps.len() == raws.len() && forall|i: int|
        0 <= i < deps.len() ==> resolved_from(
            #[trigger] deps[i],
            raws[i],
            kind,
            lock,
            manifests,
            node_path,
        )
}

/// The table entries a section item contributes: those of a table shape,
/// and none otherwise.
pub open spec fn spec_section_entries(section: Option<TomlItem>) -> Seq<(String, TomlItem)> {
    match section {
        Some(TomlItem::Table(es)) => es@,
        _ => Seq::empty(),
    }
}

/// Turns one manifest table into resolved declarations of the given
/// kind. Ignored shapes contribute nothing; a missing required version is
/// fatal; every kept declaration resolves against the lock table (or its
/// path target) or the run fails.
#[verifier::loop_isolation(false)]
pub fn extract_dependencies_from_sections(
    dependencies_section: Option<&TomlItem>,
    kind: DependencyKind,
    lockfile: &LockFile,
    manifests: &Vec<(String, TomlItem)>,
    node_path: &str,
) -> (r: Result<Vec<CargoDependency>, Error>)
    requires
        lockfile.wf(),
    ensures
        ({
            let entries = spec_section_entries(match dependencies_section {
                Some(s) => Some(*s),
                None => None,
            });
            &&& ((r is Ok) <==> (spec_raw_decls(entries) is Some && all_resolvable(
                spec_raw_decls(entries)->0,
                lockfile@,
                manifests@,
                node_path@,
            )))
            &&& (r is Ok ==> section_resolved(
                r->Ok_0@,
                spec_raw_decls(entries)->0,
                kind,
                lockfile@,
                manifests@,
                node_path@,
            ))
        }),
{
    let section = match dependencies_section {
        Some(s) => s,
        None => {
            let r: Vec<CargoDependency> = Vec::new();
            return Ok(r);
        },
    };
    let entries = match section {
        TomlItem::Table(es) => es,
        _ => {
            let r: Vec<CargoDependency> = Vec::new();
            return Ok(r);
        },
    };
    let raws = collect_raw_decls(entries)?;
    let ghost rviews = raws_view(raws@);
    let mut out: Vec<CargoDependency> = Vec::new();
    let mut i: usize = 0;
    while i < raws.len()
        invariant
            i <= raws@.len(),
            out@.len() == i,
            forall|k: int|
                0 <= k < i ==> resolved_from(
                    #[trigger] out@[k],
                    rviews[k],
                    kind,
                    lockfile@,
                    manifests@,
                    node_path@,
                ),
            forall|k: int|
                0 <= k < i ==> spec_resolvable(
                    #[trigger] rviews[k],
                    lockfile@,
                    manifests@,
                    node_path@,
                ),
        decreases raws@.len() - i,
    {
        let d = resolve_declaration(&raws[i], kind, lockfile, manifests, node_path);
        match d {
            Ok(dep) => {
                out.push(dep);
            },
            Err(e) => {
                proof {
                    assert(rviews[i as int] == raws@[i as int]@);
                    assert(!spec_resolvable(rviews[i as int], lockfile@, manifests@, node_path@));
                }
                return Err(e);
            },
        }
        i = i + 1;
    }
    Ok(out)
}

/// The workspace-level shared dependency table, if the manifest has one.
pub open spec fn spec_workspace_section(doc: TomlItem) -> Option<TomlItem> {
    match toml_get(doc, "workspace"@) {
        Some(w) => toml_get(w, "dependencies"@),
        None => None,
    }
}

/// The raw declarations of one section item.
pub open spec fn spec_section_raws(section: Option<TomlItem>) -> Option<Seq<DeclView>> {
    spec_raw_decls(spec_section_entries(section))
}

/// Every table of the manifest classifies without a fatal entry and every
/// kept declaration resolves.
pub open spec fn spec_manifest_ok(
    doc: TomlItem,
    lock: Seq<LockEntry>,
    manifests: Seq<(String, TomlItem)>,
    node_path: Seq<char>,
) -> bool {
    let r0 = spec_section_raws(toml_get(doc, "dependencies"@));
    let r1 = spec_section_raws(toml_get(doc, "dev-dependencies"@));
    let r2 = spec_section_raws(toml_get(doc, "build-dependencies"@));
    let r3 = spec_section_raws(spec_workspace_section(doc));
    &&& r0 is Some && all_resolvable(r0->0, lock, manifests, node_path)
    &&& r1 is Some && all_resolvable(r1->0, lock, manifests, node_path)
    &&& r2 is Some && all_resolvable(r2->0, lock, manifests, node_path)
    &&& r3 is Some && all_resolvable(r3->0, lock, manifests, node_path)
}

/// The declaration list of a whole manifest: the four tables' resolved
/// declarations, in the fixed normal, dev, build, workspace order.
pub open spec fn manifest_sections_resolved(
    deps: Seq<CargoDependency>,
    doc: TomlItem,
    lock: Seq<LockEntry>,
    manifests: Seq<(String, TomlItem)>,
    node_path: Seq<char>,
) -> bool {
    let r0 = spec_section_raws(toml_get(doc, "dependencies"@))->0;
    let r1 = spec_section_raws(toml_get(doc, "dev-dependencies"@))->0;
    let r2 = spec_section_raws(toml_get(doc, "build-dependencies"@))->0;
    let r3 = spec_section_raws(spec_workspace_section(doc))->0;
    let n0 = r0.len() as int;
    let n1 = r1.len() as int;
    let n2 = r2.len() as int;
    let n3 = r3.len() as int;
    &&& deps.len() == n0 + n1 + n2 + n3
    &&& section_resolved(
        deps.subrange(0, n0),
        r0,
        DependencyKind::Normal,
        lock,
        manifests,
        node_path,
    )
    &&& section_resolved(
        deps.subrange(n0, n0 + n1),
        r1,
        DependencyKind::Dev,
        lock,
        manifests,
        node_path,
    )
    &&& section_resolved(
        deps.subrange(n0 + n1, n0 + n1 + n2),
        r2,
        DependencyKind::Build,
        lock,
        manifests,
        node_path,
    )
    &&& section_resolved(
        deps.subrange(n0 + n1 + n2, n0 + n1 + n2 + n3),
        r3,
        DependencyKind::Workspace,
        lock,
        manifests,
        node_path,
    )
}

/// Reads the four dependency tables of a manifest into one resolved
/// declaration list, in the fixed normal, dev, build, workspace order.
pub fn get_cargo_dependencies(
    cargo_toml: &TomlItem,
    lockfile: &LockFile,
    manifests: &Vec<(String, TomlItem)>,
    node_path: &str,
) -> (r: Result<Vec<CargoDependency>, Error>)
    requires
        lockfile.wf(),
    ensures
        (r is Ok) <==> spec_manifest_ok(*cargo_toml, lockfile@, manifests@, node_path@),
        r is Ok ==> manifest_sections_resolved(
            r->Ok_0@,
            *cargo_toml,
            lockfile@,
            manifests@,
            node_path@,
        ),
{
    let normal = extract_dependencies_from_sections(
        get_key(cargo_toml, "dependencies"),
        DependencyKind::Normal,
        lockfile,
        manifests,
        node_path,
    )?;
    let mut dev = extract_dependencies_from_sections(
        get_key(cargo_toml, "dev-dependencies"),
        DependencyKind::Dev,
        lockfile,
        manifests,
        node_path,
    )?;
    let mut build = extract_dependencies_from_sections(
        get_key(cargo_toml, "build-dependencies"),
        DependencyKind::Build,
        lockfile,
        manifests,
        node_path,
    )?;
    let ws_section = match get_key(cargo_toml, "workspace") {
        Some(w) => get_key(w, "dependencies"),
        None => None,
    };
    let mut workspace = extract_dependencies_from_sections(
        ws_section,
        DependencyKind::Workspace,
        lockfile,
        manifests,
        node_path,
    )?;
    let ghost s0 = normal@;
    let ghost s1 = dev@;
    let ghost s2 = build@;
    let ghost s3 = workspace@;
    let mut all = normal;
    all.append(&mut dev);
    all.append(&mut build);
    all.append(&mut workspace);
    proof {
        assert(all@ == s0 + s1 + s2 + s3);
        assert(all@.subrange(0, s0.len() as int) =~= s0);
        assert(all@.subrange(s0.len() as int, (s0.len() + s1.len()) as int) =~= s1);
        assert(all@.subrange((s0.len() + s1.len()) as int, (s0.len() + s1.len() + s2.len()) as int) =~= s2);
        assert(all@.subrange(
            (s0.len() + s1.len() + s2.len()) as int,
            (s0.len() + s1.len() + s2.len() + s3.len()) as int,
        ) =~= s3);
    }
    Ok(all)
}

/// The `package.name` string of a manifest, if it has one.
pub open spec fn spec_package_name(doc: TomlItem) -> Option<Seq<char>> {
    match toml_get(doc, "package"@) {
        Some(p) => match toml_get(p, "name"@) {
            Some(n) => toml_str(n),
            None => None,
        },
        None => None,
    }
}

/// Reads the manifest's own package name, matching `spec_package_name`
/// exactly.
pub fn get_package_name(cargo_toml: &TomlItem) -> (r: Option<String>)
    ensures
        opt_view(r) == spec_package_name(*cargo_toml),
{
    match get_key(cargo_toml, "package") {
        Some(p) => match get_key(p, "name") {
            Some(n) => match get_str(n) {
                Some(s) => Some(s.to_owned()),
                None => None,
            },
            None => None,
        },
        None => None,
    }
}

/// The string entries of an array, in order; other shapes are ignored.
pub open spec fn spec_str_items(items: Seq<TomlItem>) -> Seq<Seq<char>>
    decreases items.len(),
{
    if items.len() == 0 {
        Seq::empty()
    } else {
        let rest = spec_str_items(items.drop_last());
        match items.last() {
            TomlItem::Str(s) => rest.push(s@),
            _ => rest,
        }
    }
}

/// The relative paths of the manifest's workspace members.
pub open spec fn spec_member_paths(doc: TomlItem) -> Seq<Seq<char>> {
    match toml_get(doc, "workspace"@) {
        Some(w) => match toml_get(w, "members"@) {
            Some(TomlItem::Arr(items)) => spec_str_items(items@),
            _ => Seq::empty(),
        },
        None => Seq::empty(),
    }
}

/// The characters of each string in a list.
pub open spec fn strs_view(s: Seq<String>) -> Seq<Seq<char>> {
    s.map_values(|x: String| x@)
}

/// Reads the member path strings of a manifest, matching
/// `spec_member_paths` exactly; non-string array entries are ignored.
#[verifier::loop_isolation(false)]
pub fn member_paths(cargo_toml: &TomlItem) -> (r: Vec<String>)
    ensures
        strs_view(r@) == spec_member_paths(*cargo_toml),
{
    let mut out: Vec<String> = Vec::new();
    let members = match get_key(cargo_toml, "workspace") {
        Some(w) => get_key(w, "members"),
        None => None,
    };
    let items = match members {
        Some(TomlItem::Arr(items)) => items,
        _ => {
            proof {
                assert(strs_view(out@) =~= spec_member_paths(*cargo_toml));
            }
            return out;
        },
    };
    let mut i: usize = 0;
    proof {
        assert(items@.subrange(0, 0) =~= Seq::<TomlItem>::empty());
        assert(strs_view(out@) =~= spec_str_items(items@.subrange(0, 0)));
    }
    while i < items.len()
        invariant
            i <= items@.len(),
            strs_view(out@) == spec_str_items(items@.subrange(0, i as int)),
        decreases items@.len() - i,
    {
        let ghost next = items@.subrange(0, i + 1);
        proof {
            assert(next.drop_last() =~= items@.subrange(0, i as int));
            assert(next.last() == items@[i as int]);
        }
        match get_str(&items[i]) {
            Some(s) => {
                out.push(s.to_owned());
                proof {
                    assert(strs_view(out@) =~= spec_str_items(next));
                }
            },
            None => {
                proof {
                    assert(strs_view(out@) =~= spec_str_items(next));
                }
            },
        }
        i = i + 1;
    }
    proof {
        assert(items@.subrange(0, items@.len() as int) =~= items@);
    }
    out
}

/// A project node: its own resolved declarations and its workspace
/// member nodes, each owned outright.
#[derive(Debug, PartialEq, Eq, Default)]
pub struct CargoDependencies {
    pub package_name: Option<String>,
    pub dependencies: Vec<CargoDependency>,
    pub workspace_members: Vec<(String, Box<CargoDependencies>)>,
}

/// The manifest model a node key selects: the supplied one, or the empty
/// model when the key has none (an unreadable manifest contributes
/// nothing, as reading it tolerantly would).
pub open spec fn spec_node_doc(manifests: Seq<(String, TomlItem)>, path: Seq<char>) -> TomlItem {
    match lookup_entry(manifests, path) {
        Some(m) => m,
        None => TomlItem::Other,
    }
}

/// What a correctly gathered node looks like: its name, declarations and
/// member list follow its manifest, and each member node is gathered in
/// turn. The fuel bounds the member chain's depth.
pub open spec fn node_gathered(
    node: CargoDependencies,
    path: Seq<char>,
    lock: Seq<LockEntry>,
    manifests: Seq<(String, TomlItem)>,
    fuel: nat,
) -> bool
    decreases fuel,
{
    let doc = spec_node_doc(manifests, path);
    &&& fuel > 0
    &&& opt_view(node.package_name) == spec_package_name(doc)
    &&& manifest_sections_resolved(node.dependencies@, doc, lock, manifests, path)
    &&& node.workspace_members@.len() == spec_member_paths(doc).len()
    &&& forall|i: int|
        0 <= i < node.workspace_members@.len() ==> (#[trigger] node.workspace_members@[i]).0@
            == spec_member_paths(doc)[i] && node_gathered(
            *node.workspace_members@[i].1,
            spec_member_paths(doc)[i],
            lock,
            manifests,
            (fuel - 1) as nat,
        )
}

/// A gathered node at some fuel is gathered at any larger fuel.
pub proof fn lemma_node_gathered_mono(
    node: CargoDependencies,
    path: Seq<char>,
    lock: Seq<LockEntry>,
    manifests: Seq<(String, TomlItem)>,
    f1: nat,
    f2: nat,
)
    requires
        node_gathered(node, path, lock, manifests, f1),
        f1 <= f2,
    ensures
        node_gathered(node, path, lock, manifests, f2),
    decreases f1,
{
    let doc = spec_node_doc(manifests, path);
    assert forall|i: int| 0 <= i < node.workspace_members@.len() implies (
    #[trigger] node.workspace_members@[i]).0@ == spec_member_paths(doc)[i] && node_gathered(
        *node.workspace_members@[i].1,
        spec_member_paths(doc)[i],
        lock,
        manifests,
        (f2 - 1) as nat,
    ) by {
        lemma_node_gathered_mono(
            *node.workspace_members@[i].1,
            spec_member_paths(doc)[i],
            lock,
            manifests,
            (f1 - 1) as nat,
            (f2 - 1) as nat,
        );
    }
}

/// Whether gathering can succeed at a node within the given fuel: the
/// node's manifest tables classify and resolve, and every declared
/// member can be gathered with one fuel step less.
pub open spec fn spec_gather_ok(
    path: Seq<char>,
    lock: Seq<LockEntry>,
    manifests: Seq<(String, TomlItem)>,
    fuel: nat,
) -> bool
    decreases fuel,
{
    let doc = spec_node_doc(manifests, path);
    &&& fuel > 0
    &&& spec_manifest_ok(doc, lock, manifests, path)
    &&& forall|i: int|
        0 <= i < spec_member_paths(doc).len() ==> spec_gather_ok(
            #[trigger] spec_member_paths(doc)[i],
            lock,
            manifests,
            (fuel - 1) as nat,
        )
}

/// Builds the member nodes a manifest declares, each gathered at one
/// fuel step less.
#[verifier::loop_isolation(false)]
pub fn get_workspace_members(
    cargo_toml: &TomlItem,
    lockfile: &LockFile,
    manifests: &Vec<(String, TomlItem)>,
    fuel: usize,
) -> (r: Result<Vec<(String, Box<CargoDependencies>)>, Error>)
    requires
        lockfile.wf(),
        fuel >= 1,
    ensures
        r is Ok ==> {
            &&& r->Ok_0@.len() == spec_member_paths(*cargo_toml).len()
            &&& forall|i: int|
                0 <= i < r->Ok_0@.len() ==> (#[trigger] r->Ok_0@[i]).0@ == spec_member_paths(
                    *cargo_toml,
                )[i] && node_gathered(
                    *r->Ok_0@[i].1,
                    spec_member_paths(*cargo_toml)[i],
                    lockfile@,
                    manifests@,
                    (fuel - 1) as nat,
                )
        },
        (r is Ok) <==> forall|i: int|
            0 <= i < spec_member_paths(*cargo_toml).len() ==> spec_gather_ok(
                #[trigger] spec_member_paths(*cargo_toml)[i],
                lockfile@,
                manifests@,
                (fuel - 1) as nat,
            ),
    decreases fuel, 0int,
{
    let paths = member_paths(cargo_toml);
    let ghost path_views = strs_view(paths@);
    let mut rest = paths;
    let mut out: Vec<(String, Box<CargoDependencies>)> = Vec::new();
    proof {
        assert(rest@ =~= paths@.subrange(0, path_views.len() as int));
    }
    while rest.len() > 0
        invariant
            rest@.len() <= path_views.len(),
            forall|k: int|
                0 <= k < rest@.len() ==> (#[trigger] rest@[k])@ == path_views[out@.len() + k],
            out@.len() + rest@.len() == path_views.len(),
            forall|i: int|
                0 <= i < out@.len() ==> (#[trigger] out@[i]).0@ == path_views[i] && node_gathered(
                    *out@[i].1,
                    path_views[i],
                    lockfile@,
                    manifests@,
                    (fuel - 1) as nat,
                ),
            forall|i: int|
                0 <= i < out@.len() ==> spec_gather_ok(
                    #[trigger] path_views[i],
                    lockfile@,
                    manifests@,
                    (fuel - 1) as nat,
                ),
        decreases rest@.len(),
    {
        let ghost done = out@.len();
        let p = rest.remove(0);
        let child = match CargoDependencies::gather_dependencies_inner(
            p.as_str(),
            manifests,
            lockfile,
            fuel - 1,
        ) {
            Ok(child) => child,
            Err(e) => {
                proof {
                    assert(!spec_gather_ok(
                        path_views[done as int],
                        lockfile@,
                        manifests@,
                        (fuel - 1) as nat,
                    ));
                }
                return Err(e);
            },
        };
        out.push((p, Box::new(child)));
    }
    Ok(out)
}

impl CargoDependencies {
    /// Gathers the whole workspace tree rooted at the run's starting
    /// node, with fuel for the longest member chain the supplied
    /// manifests could form.
    pub fn gather_dependencies(manifests: &Vec<(String, TomlItem)>, lockfile: &LockFile) -> (r:
        Result<CargoDependencies, Error>)
        requires
            lockfile.wf(),
        ensures
            r is Ok ==> node_gathered(
                r->Ok_0,
                "."@,
                lockfile@,
                manifests@,
                manifests@.len() + 1,
            ),
            manifests@.len() < usize::MAX ==> ((r is Ok) <==> spec_gather_ok(
                "."@,
                lockfile@,
                manifests@,
                manifests@.len() + 1,
            )),
    {
        let n = manifests.len();
        let fuel: usize = if n < usize::MAX {
            n + 1
        } else {
            n
        };
        let r = Self::gather_dependencies_inner(".", manifests, lockfile, fuel);
        proof {
            if r is Ok {
                lemma_node_gathered_mono(
                    r->Ok_0,
                    "."@,
                    lockfile@,
                    manifests@,
                    fuel as nat,
                    manifests@.len() + 1,
                );
            }
        }
        r
    }

    /// Gathers one project node: reads its manifest model, resolves its
    /// declarations, and recurses into its declared members. A key with
    /// no supplied manifest contributes an empty node. Fails on a fatal
    /// manifest or resolution error, or with `WorkspaceCycle` when the
    /// member chain outruns the fuel.
    pub fn gather_dependencies_inner(
        relative_path: &str,
        manifests: &Vec<(String, TomlItem)>,
        lockfile: &LockFile,
        fuel: usize,
    ) -> (r: Result<CargoDependencies, Error>)
        requires
            lockfile.wf(),
        ensures
            r is Ok ==> node_gathered(
                r->Ok_0,
                relative_path@,
                lockfile@,
                manifests@,
                fuel as nat,
            ),
            (r is Ok) <==> spec_gather_ok(relative_path@, lockfile@, manifests@, fuel as nat),
        decreases fuel, 1int,
    {
        if fuel == 0 {
            return Err(Error::WorkspaceCycle);
        }
        let fallback = TomlItem::Other;
        let cargo_toml: &TomlItem = match find_manifest(manifests, relative_path) {
            Some(m) => m,
            None => &fallback,
        };
        proof {
            assert(*cargo_toml == spec_node_doc(manifests@, relative_path@));
        }
        let package_name = get_package_name(cargo_toml);
        let dependencies =
            match get_cargo_dependencies(cargo_toml, lockfile, manifests, relative_path) {
            Ok(deps) => deps,
            Err(e) => {
                return Err(e);
            },
        };
        let workspace_members = match get_workspace_members(cargo_toml, lockfile, manifests, fuel) {
            Ok(members) => members,
            Err(e) => {
                return Err(e);
            },
        };
        Ok(CargoDependencies { package_name, dependencies, workspace_members })
    }
}

/// The declared-dependency count of a whole node tree: the node's own
/// declarations plus every descendant node's, the size the progress
/// counter is created with.
pub open spec fn spec_total(node: CargoDependencies) -> nat
    decreases node, 1int,
{
    node.dependencies@.len() + spec_members_total(node.workspace_members@)
}

/// The summed counts of a list of member nodes.
pub open spec fn spec_members_total(members: Seq<(String, Box<CargoDependencies>)>) -> nat
    decreases members, 0int,
{
    if members.len() == 0 {
        0
    } else {
        spec_members_total(members.drop_last()) + spec_total(*members.last().1)
    }
}

/// The total declared-dependency count of a workspace equals the node's
/// own declaration count plus the sum of its member subtrees' counts.
pub proof fn lemma_total_count_decomposition(node: CargoDependencies)
    ensures
        spec_total(node) == node.dependencies@.len() + spec_members_total(node.workspace_members@),
        node.workspace_members@.len() > 0 ==> spec_members_total(node.workspace_members@)
            == spec_members_total(node.workspace_members@.drop_last()) + spec_total(
            *node.workspace_members@.last().1,
        ),
{
}

proof fn lemma_members_total_prefix(members: Seq<(String, Box<CargoDependencies>)>, k: int)
    requires
        0 <= k <= members.len(),
    ensures
        spec_members_total(members.subrange(0, k)) <= spec_members_total(members),
    decreases members.len() - k,
{
    if k == members.len() {
        assert(members.subrange(0, k) =~= members);
    } else {
        assert(members.subrange(0, k + 1).drop_last() =~= members.subrange(0, k));
        assert(members.subrange(0, k + 1).last() == members[k]);
        lemma_members_total_prefix(members, k + 1);
    }
}

impl CargoDependencies {
    /// Counts the declared dependencies of the whole tree.
    #[verifier::loop_isolation(false)]
    pub fn len(&self) -> (r: usize)
        requires
            spec_total(*self) <= usize::MAX,
        ensures
            r as nat == spec_total(*self),
        decreases *self, 2int,
    {
        let mut total: usize = self.dependencies.len();
        let mut i: usize = 0;
        proof {
            assert(self.workspace_members@.subrange(0, 0) =~= Seq::<
                (String, Box<CargoDependencies>),
            >::empty());
        }
        while i < self.workspace_members.len()
            invariant
                i <= self.workspace_members@.len(),
                total as nat == self.dependencies@.len() + spec_members_total(
                    self.workspace_members@.subrange(0, i as int),
                ),
            decreases self.workspace_members@.len() - i,
        {
            proof {
                assert(self.workspace_members@.subrange(0, i + 1).drop_last()
                    =~= self.workspace_members@.subrange(0, i as int));
                assert(self.workspace_members@.subrange(0, i + 1).last()
                    == self.workspace_members@[i as int]);
                lemma_members_total_prefix(self.workspace_members@, i + 1);
            }
            let pair = &self.workspace_members[i];
            let sub = pair.1.len();
            total = total + sub;
            i = i + 1;
        }
        proof {
            assert(self.workspace_members@.subrange(0, self.workspace_members@.len() as int)
                =~= self.workspace_members@);
        }
        total
    }
}

/// The well-known locator of the default registry.
pub open spec fn crates_io_locator() -> Seq<char> {
    "registry+https://github.com/rust-lang/crates.io-index"@
}

/// A declaration locked to the default registry.
pub open spec fn is_crates_io_dep(d: CargoDependency) -> bool {
    opt_view(d.source) == Some(crates_io_locator())
}

/// A declaration locked to any other named source.
pub open spec fn is_alt_registry_dep(d: CargoDependency) -> bool {
    d.source is Some && !is_crates_io_dep(d)
}

/// A declaration with no source locator: a path or workspace-local one,
/// never sent to a registry.
pub open spec fn is_unsourced_dep(d: CargoDependency) -> bool {
    d.source is None
}

/// The declarations routed to the default registry, in order.
pub open spec fn spec_filter_crates_io(s: Seq<CargoDependency>) -> Seq<CargoDependency>
    decreases s.len(),
{
    if s.len() == 0 {
        Seq::empty()
    } else {
        let rest = spec_filter_crates_io(s.drop_last());
        if is_crates_io_dep(s.last()) {
            rest.push(s.last())
        } else {
            rest
        }
    }
}

/// The declarations routed to an alternate registry, in order.
pub open spec fn spec_filter_alt_registry(s: Seq<CargoDependency>) -> Seq<CargoDependency>
    decreases s.len(),
{
    if s.len() == 0 {
        Seq::empty()
    } else {
        let rest = spec_filter_alt_registry(s.drop_last());
        if is_alt_registry_dep(s.last()) {
            rest.push(s.last())
        } else {
            rest
        }
    }
}

/// The declarations resolved locally, in order.
pub open spec fn spec_filter_unsourced(s: Seq<CargoDependency>) -> Seq<CargoDependency>
    decreases s.len(),
{
    if s.len() == 0 {
        Seq::empty()
    } else {
        let rest = spec_filter_unsourced(s.drop_last());
        if is_unsourced_dep(s.last()) {
            rest.push(s.last())
        } else {
            rest
        }
    }
}

/// The three routes partition the declarations: no declaration is lost
/// or duplicated on its way to the fetch phase.
pub proof fn lemma_classification_partitions(s: Seq<CargoDependency>)
    ensures
        spec_filter_crates_io(s).len() + spec_filter_alt_registry(s).len()
            + spec_filter_unsourced(s).len() == s.len(),
    decreases s.len(),
{
    if s.len() > 0 {
        lemma_classification_partitions(s.drop_last());
    }
}

/// Splits a node's declarations by the source locator of their lock
/// entries: default registry, alternate registry, and locally resolved,
/// exactly in that order.
#[verifier::loop_isolation(false)]
pub fn classify_dependencies(deps: Vec<CargoDependency>) -> (r: (
    Vec<CargoDependency>,
    Vec<CargoDependency>,
    Vec<CargoDependency>,
))
    ensures
        r.0@ == spec_filter_crates_io(deps@),
        r.1@ == spec_filter_alt_registry(deps@),
        r.2@ == spec_filter_unsourced(deps@),
        r.0@.len() + r.1@.len() + r.2@.len() == deps@.len(),
{
    let ghost orig = deps@;
    let mut rest = deps;
    let mut crates_io: Vec<CargoDependency> = Vec::new();
    let mut alt: Vec<CargoDependency> = Vec::new();
    let mut unsourced: Vec<CargoDependency> = Vec::new();
    proof {
        assert(orig.subrange(0, 0) =~= Seq::<CargoDependency>::empty());
        assert(rest@ =~= orig.subrange(0, orig.len() as int));
    }
    while rest.len() > 0
        invariant
            rest@.len() <= orig.len(),
            rest@ == orig.subrange(orig.len() - rest@.len(), orig.len() as int),
            crates_io@ == spec_filter_crates_io(orig.subrange(0, orig.len() - rest@.len())),
            alt@ == spec_filter_alt_registry(orig.subrange(0, orig.len() - rest@.len())),
            unsourced@ == spec_filter_unsourced(orig.subrange(0, orig.len() - rest@.len())),
        decreases rest@.len(),
    {
        let ghost done = orig.len() - rest@.len();
        let d = rest.remove(0);
        proof {
            assert(d == orig[done]);
            assert(rest@ =~= orig.subrange(orig.len() - rest@.len(), orig.len() as int));
            assert(orig.subrange(0, done + 1).drop_last() =~= orig.subrange(0, done));
            assert(orig.subrange(0, done + 1).last() == orig[done]);
        }
        let route: u8 = match &d.source {
            Some(s) => {
                if text_eq(s.as_str(), "registry+https://github.com/rust-lang/crates.io-index") {
                    0
                } else {
                    1
                }
            },
            None => 2,
        };
        if route == 0 {
            crates_io.push(d);
        } else if route == 1 {
            alt.push(d);
        } else {
            unsourced.push(d);
        }
    }
    proof {
        assert(orig.subrange(0, orig.len() as int) =~= orig);
        lemma_classification_partitions(orig);
    }
    (crates_io, alt, unsourced)
}

/// The parsed models a list of manifest texts pins: the same keys, each
/// paired with the document its text parses to.
pub open spec fn models_conform(
    models: Seq<(String, TomlItem)>,
    texts: Seq<(String, String)>,
) -> bool {
    &&& models.len() == texts.len()
    &&& forall|i: int|
        0 <= i < models.len() ==> (#[trigger] models[i]).0 == texts[i].0 && models[i].1
            == crate::toml_model::manifest_doc_of(texts[i].1@)
}

/// Two model lists conforming to the same texts are the same list.
proof fn lemma_models_conform_unique(
    m1: Seq<(String, TomlItem)>,
    m2: Seq<(String, TomlItem)>,
    texts: Seq<(String, String)>,
)
    requires
        models_conform(m1, texts),
        models_conform(m2, texts),
    ensures
        m1 == m2,
{
    assert forall|i: int| 0 <= i < m1.len() implies m1[i] == m2[i] by {
        assert(m1[i].0 == texts[i].0 && m2[i].0 == texts[i].0);
        assert(m1[i].1 == m2[i].1);
    }
    assert(m1 =~= m2);
}

/// A satisfying entry in one table conforming to the recorded contents
/// has a counterpart in any other conforming table.
proof fn lemma_has_match_conforming_one(
    l1: Seq<LockEntry>,
    l2: Seq<LockEntry>,
    contents: Seq<(Seq<char>, Seq<char>, Option<Seq<char>>)>,
    name: Seq<char>,
    req: Seq<char>,
)
    requires
        crate::lock::lock_conforms(l1, contents),
        crate::lock::lock_conforms(l2, contents),
        lock_has_match(l1, name, req),
    ensures
        lock_has_match(l2, name, req),
{
    let j = choose|j: int| 0 <= j < l1.len() && entry_matches(#[trigger] l1[j], name, req);
    assert(contents.contains(crate::lock::entry_view(l1[j])));
    let c = choose|c: int|
        0 <= c < contents.len() && contents[c] == crate::lock::entry_view(l1[j]);
    assert(crate::lock::represented(l2, contents[c]));
    let m = choose|m: int| 0 <= m < l2.len() && crate::lock::entry_view(#[trigger] l2[m])
        == contents[c];
    assert(l2[m].name@ == l1[j].name@);
    assert(l2[m].version@ == l1[j].version@);
    assert(entry_matches(l2[m], name, req));
}

/// Whether a declaration can be resolved does not depend on which
/// conforming table shows the recorded contents.
proof fn lemma_resolvable_conforming(
    raw: DeclView,
    l1: Seq<LockEntry>,
    l2: Seq<LockEntry>,
    contents: Seq<(Seq<char>, Seq<char>, Option<Seq<char>>)>,
    manifests: Seq<(String, TomlItem)>,
    node_path: Seq<char>,
)
    requires
        crate::lock::lock_conforms(l1, contents),
        crate::lock::lock_conforms(l2, contents),
    ensures
        spec_resolvable(raw, l1, manifests, node_path) == spec_resolvable(
            raw,
            l2,
            manifests,
            node_path,
        ),
{
    match raw.path {
        Some(_) => {
        },
        None => {
            if lock_has_match(l1, raw.package, raw.req) {
                lemma_has_match_conforming_one(l1, l2, contents, raw.package, raw.req);
            }
            if lock_has_match(l2, raw.package, raw.req) {
                lemma_has_match_conforming_one(l2, l1, contents, raw.package, raw.req);
            }
        },
    }
}

proof fn lemma_manifest_ok_conforming(
    doc: TomlItem,
    l1: Seq<LockEntry>,
    l2: Seq<LockEntry>,
    contents: Seq<(Seq<char>, Seq<char>, Option<Seq<char>>)>,
    manifests: Seq<(String, TomlItem)>,
    node_path: Seq<char>,
)
    requires
        crate::lock::lock_conforms(l1, contents),
        crate::lock::lock_conforms(l2, contents),
    ensures
        spec_manifest_ok(doc, l1, manifests, node_path) == spec_manifest_ok(
            doc,
            l2,
            manifests,
            node_path,
        ),
{
    lemma_all_resolvable_conforming(
        spec_section_raws(toml_get(doc, "dependencies"@)),
        l1,
        l2,
        contents,
        manifests,
        node_path,
    );
    lemma_all_resolvable_conforming(
        spec_section_raws(toml_get(doc, "dev-dependencies"@)),
        l1,
        l2,
        contents,
        manifests,
        node_path,
    );
    lemma_all_resolvable_conforming(
        spec_section_raws(toml_get(doc, "build-dependencies"@)),
        l1,
        l2,
        contents,
        manifests,
        node_path,
    );
    lemma_all_resolvable_conforming(
        spec_section_raws(spec_workspace_section(doc)),
        l1,
        l2,
        contents,
        manifests,
        node_path,
    );
}

proof fn lemma_all_resolvable_conforming(
    raws: Option<Seq<DeclView>>,
    l1: Seq<LockEntry>,
    l2: Seq<LockEntry>,
    contents: Seq<(Seq<char>, Seq<char>, Option<Seq<char>>)>,
    manifests: Seq<(String, TomlItem)>,
    node_path: Seq<char>,
)
    requires
        crate::lock::lock_conforms(l1, contents),
        crate::lock::lock_conforms(l2, contents),
    ensures
        raws is Some ==> all_resolvable(raws->0, l1, manifests, node_path) == all_resolvable(
            raws->0,
            l2,
            manifests,
            node_path,
        ),
{
    if raws is Some {
        let rs = raws->0;
        assert forall|i: int| 0 <= i < rs.len() implies spec_resolvable(
            #[trigger] rs[i],
            l1,
            manifests,
            node_path,
        ) == spec_resolvable(rs[i], l2, manifests, node_path) by {
            lemma_resolvable_conforming(rs[i], l1, l2, contents, manifests, node_path);
        }
    }
}

/// Whether gathering can succeed does not depend on which conforming
/// table shows the recorded lock contents: with the models fixed by the
/// texts, success is a function of the input texts alone.
proof fn lemma_gather_ok_conforming(
    path: Seq<char>,
    l1: Seq<LockEntry>,
    l2: Seq<LockEntry>,
    contents: Seq<(Seq<char>, Seq<char>, Option<Seq<char>>)>,
    manifests: Seq<(String, TomlItem)>,
    fuel: nat,
)
    requires
        crate::lock::lock_conforms(l1, contents),
        crate::lock::lock_conforms(l2, contents),
    ensures
        spec_gather_ok(path, l1, manifests, fuel) == spec_gather_ok(path, l2, manifests, fuel),
    decreases fuel,
{
    if fuel > 0 {
        let doc = spec_node_doc(manifests, path);
        lemma_manifest_ok_conforming(doc, l1, l2, contents, manifests, path);
        assert forall|i: int| 0 <= i < spec_member_paths(doc).len() implies spec_gather_ok(
            #[trigger] spec_member_paths(doc)[i],
            l1,
            manifests,
            (fuel - 1) as nat,
        ) == spec_gather_ok(spec_member_paths(doc)[i], l2, manifests, (fuel - 1) as nat) by {
            lemma_gather_ok_conforming(
                spec_member_paths(doc)[i],
                l1,
                l2,
                contents,
                manifests,
                (fuel - 1) as nat,
            );
        }
    }
}

/// Every condition the gathering phase needs of its raw inputs: the lock
/// text parses and records only parsable versions, every manifest text
/// parses, and gathering succeeds against any lock table showing the
/// recorded contents, with the models the texts pin.
pub open spec fn spec_sources_gather(texts: Seq<(String, String)>, lock_text: Seq<char>) -> bool {
    &&& crate::lock::lock_parses(lock_text)
    &&& forall|j: int|
        0 <= j < crate::lock::lock_contents(lock_text).len() ==> version_parses(
            (#[trigger] crate::lock::lock_contents(lock_text)[j]).1,
        )
    &&& forall|i: int|
        0 <= i < texts.len() ==> crate::toml_model::manifest_parses((#[trigger] texts[i]).1@)
    &&& forall|lockv: Seq<LockEntry>, models: Seq<(String, TomlItem)>|
        crate::lock::lock_conforms(lockv, crate::lock::lock_contents(lock_text))
            && models_conform(models, texts) ==> #[trigger] spec_gather_ok(
            "."@,
            lockv,
            models,
            (texts.len() + 1) as nat,
        )
}

/// Gathers a workspace from raw text: every manifest text is parsed,
/// the lock text is loaded and prepared, and the tree is gathered
/// against them. The parsed manifest models are returned beside the
/// tree so that callers can state what the tree was gathered from.
/// Succeeds exactly when `spec_sources_gather` holds of the input texts;
/// fails on an unparsable lock or manifest text and on every fatal
/// gathering error.
#[verifier::loop_isolation(false)]
#[verifier::rlimit(60)]
pub fn gather_from_sources(manifest_texts: &Vec<(String, String)>, lock_text: &str) -> (r: Result<
    (CargoDependencies, LockFile, Vec<(String, TomlItem)>),
    Error,
>)
    ensures
        r is Ok ==> r->Ok_0.1.wf(),
        r is Ok ==> node_gathered(
            r->Ok_0.0,
            "."@,
            r->Ok_0.1@,
            r->Ok_0.2@,
            r->Ok_0.2@.len() + 1,
        ),
        r is Ok ==> models_conform(r->Ok_0.2@, manifest_texts@),
        r is Ok ==> forall|i: int|
            0 <= i < manifest_texts@.len() ==> crate::toml_model::manifest_parses(
                (#[trigger] manifest_texts@[i]).1@,
            ),
        !crate::lock::lock_parses(lock_text@) ==> r is Err,
        manifest_texts@.len() < usize::MAX ==> ((r is Ok) <==> spec_sources_gather(
            manifest_texts@,
            lock_text@,
        )),
{
    let ghost texts = manifest_texts@;
    let ghost contents = crate::lock::lock_contents(lock_text@);
    let lock = match crate::lock::load_lock_file(lock_text) {
        Ok(l) => l,
        Err(e) => {
            return Err(e);
        },
    };
    let mut models: Vec<(String, TomlItem)> = Vec::new();
    let mut i: usize = 0;
    proof {
        assert(manifest_texts@.subrange(0, 0) =~= Seq::<(String, String)>::empty());
    }
    while i < manifest_texts.len()
        invariant
            i <= manifest_texts@.len(),
            models@.len() == i,
            forall|k: int|
                0 <= k < i ==> (#[trigger] models@[k]).0 == manifest_texts@[k].0
                    && crate::toml_model::manifest_parses(manifest_texts@[k].1@)
                    && models@[k].1 == crate::toml_model::manifest_doc_of(
                    manifest_texts@[k].1@,
                ),
        decreases manifest_texts@.len() - i,
    {
        let pair = &manifest_texts[i];
        match crate::toml_model::parse_manifest(pair.1.as_str()) {
            Some(model) => {
                models.push((pair.0.clone(), model));
            },
            None => {
                proof {
                    assert(!crate::toml_model::manifest_parses(texts[i as int].1@));
                }
                return Err(Error::BadManifest(pair.0.clone()));
            },
        }
        i = i + 1;
    }
    proof {
        assert(models_conform(models@, texts));
    }
    let tree = match CargoDependencies::gather_dependencies(&models, &lock) {
        Ok(tree) => tree,
        Err(e) => {
            proof {
                if texts.len() < usize::MAX {
                    assert(!spec_sources_gather(texts, lock_text@)) by {
                        if spec_sources_gather(texts, lock_text@) {
                            assert(crate::lock::lock_conforms(lock@, contents));
                            assert(spec_gather_ok(
                                "."@,
                                lock@,
                                models@,
                                (texts.len() + 1) as nat,
                            ));
                        }
                    }
                }
            }
            return Err(e);
        },
    };
    proof {
        assert forall|k: int| 0 <= k < texts.len() implies crate::toml_model::manifest_parses(
            (#[trigger] texts[k]).1@,
        ) by {
            assert(models@[k].0 == texts[k].0);
        }
        if texts.len() < usize::MAX {
            assert(spec_gather_ok("."@, lock@, models@, (texts.len() + 1) as nat));
            assert forall|lockv: Seq<LockEntry>, other: Seq<(String, TomlItem)>|
                crate::lock::lock_conforms(lockv, crate::lock::lock_contents(lock_text@))
                    && models_conform(other, texts) implies #[trigger] spec_gather_ok(
                "."@,
                lockv,
                other,
                (texts.len() + 1) as nat,
            ) by {
                lemma_models_conform_unique(other, models@, texts);
                lemma_gather_ok_conforming(
                    "."@,
                    lock@,
                    lockv,
                    contents,
                    models@,
                    (texts.len() + 1) as nat,
                );
            }
            assert(spec_sources_gather(texts, lock_text@));
        }
    }
    Ok((tree, lock, models))
}

/// Every non-path declaration of a resolved section is backed by a lock
/// entry whose name is the declaration's resolution name and whose
/// version satisfies the declaration's requirement; the resolved record
/// carries that entry's exact version and source.
pub proof fn lemma_every_declaration_resolves(
    deps: Seq<CargoDependency>,
    raws: Seq<DeclView>,
    kind: DependencyKind,
    lock: Seq<LockEntry>,
    manifests: Seq<(String, TomlItem)>,
    node_path: Seq<char>,
)
    requires
        section_resolved(deps, raws, kind, lock, manifests, node_path),
    ensures
        forall|i: int|
            0 <= i < deps.len() && raws[i].path is None ==> lock_resolves(
                lock,
                raws[i],
                (#[trigger] deps[i]).version@,
                opt_view(deps[i].source),
                deps[i].package@,
            ),
{
    assert forall|i: int| 0 <= i < deps.len() && raws[i].path is None implies lock_resolves(
        lock,
        raws[i],
        (#[trigger] deps[i]).version@,
        opt_view(deps[i].source),
        deps[i].package@,
    ) by {
        crate::lock::lemma_matching_index_sound(lock, raws[i].package, raws[i].req);
    }
}

/// Any two records resolved from one declaration against one lock table
/// agree: resolution is pinned to the single entry the
/// nearest-index-then-neighbour tie-break picks, so a second gathering
/// run over the same inputs can differ in nothing.
pub proof fn lemma_resolution_unique(
    d1: CargoDependency,
    d2: CargoDependency,
    raw: DeclView,
    kind: DependencyKind,
    lock: Seq<LockEntry>,
    manifests: Seq<(String, TomlItem)>,
    node_path: Seq<char>,
)
    requires
        resolved_from(d1, raw, kind, lock, manifests, node_path),
        resolved_from(d2, raw, kind, lock, manifests, node_path),
    ensures
        d1.name@ == d2.name@,
        d1.version@ == d2.version@,
        opt_view(d1.source) == opt_view(d2.source),
        d1.package@ == d2.package@,
        d1.kind == d2.kind,
        opt_view(d1.path) == opt_view(d2.path),
{
}

/// Two resolved records showing the same characters everywhere the
/// result model reads them.
pub open spec fn dep_views_agree(a: CargoDependency, b: CargoDependency) -> bool {
    &&& a.name@ == b.name@
    &&& a.package@ == b.package@
    &&& a.version@ == b.version@
    &&& a.kind == b.kind
    &&& opt_view(a.source) == opt_view(b.source)
    &&& opt_view(a.path) == opt_view(b.path)
}

/// Two workspace trees showing the same characters everywhere: the same
/// names, the same resolved declarations in the same order, and member
/// subtrees that agree in turn.
pub open spec fn nodes_agree(n1: CargoDependencies, n2: CargoDependencies) -> bool
    decreases n1,
{
    &&& opt_view(n1.package_name) == opt_view(n2.package_name)
    &&& n1.dependencies@.len() == n2.dependencies@.len()
    &&& (forall|i: int|
        0 <= i < n1.dependencies@.len() ==> dep_views_agree(
            #[trigger] n1.dependencies@[i],
            n2.dependencies@[i],
        ))
    &&& n1.workspace_members@.len() == n2.workspace_members@.len()
    &&& (forall|i: int|
        0 <= i < n1.workspace_members@.len() ==> (#[trigger] n1.workspace_members@[i]).0@
            == n2.workspace_members@[i].0@ && nodes_agree(
            *n1.workspace_members@[i].1,
            *n2.workspace_members@[i].1,
        ))
}

proof fn lemma_sections_agree(
    d1: Seq<CargoDependency>,
    d2: Seq<CargoDependency>,
    doc: TomlItem,
    lock: Seq<LockEntry>,
    manifests: Seq<(String, TomlItem)>,
    node_path: Seq<char>,
)
    requires
        manifest_sections_resolved(d1, doc, lock, manifests, node_path),
        manifest_sections_resolved(d2, doc, lock, manifests, node_path),
    ensures
        d1.len() == d2.len(),
        forall|i: int| 0 <= i < d1.len() ==> dep_views_agree(#[trigger] d1[i], d2[i]),
{
    let r0 = spec_section_raws(toml_get(doc, "dependencies"@))->0;
    let r1 = spec_section_raws(toml_get(doc, "dev-dependencies"@))->0;
    let r2 = spec_section_raws(toml_get(doc, "build-dependencies"@))->0;
    let r3 = spec_section_raws(spec_workspace_section(doc))->0;
    let n0 = r0.len() as int;
    let n1 = r1.len() as int;
    let n2 = r2.len() as int;
    let n3 = r3.len() as int;
    assert forall|i: int| 0 <= i < d1.len() implies dep_views_agree(#[trigger] d1[i], d2[i]) by {
        if i < n0 {
            assert(d1.subrange(0, n0)[i] == d1[i]);
            assert(d2.subrange(0, n0)[i] == d2[i]);
            lemma_resolution_unique(
                d1[i],
                d2[i],
                r0[i],
                DependencyKind::Normal,
                lock,
                manifests,
                node_path,
            );
        } else if i < n0 + n1 {
            assert(d1.subrange(n0, n0 + n1)[i - n0] == d1[i]);
            assert(d2.subrange(n0, n0 + n1)[i - n0] == d2[i]);
            lemma_resolution_unique(
                d1[i],
                d2[i],
                r1[i - n0],
                DependencyKind::Dev,
                lock,
                manifests,
                node_path,
            );
        } else if i < n0 + n1 + n2 {
            assert(d1.subrange(n0 + n1, n0 + n1 + n2)[i - n0 - n1] == d1[i]);
            assert(d2.subrange(n0 + n1, n0 + n1 + n2)[i - n0 - n1] == d2[i]);
            lemma_resolution_unique(
                d1[i],
                d2[i],
                r2[i - n0 - n1],
                DependencyKind::Build,
                lock,
                manifests,
                node_path,
            );
        } else {
            assert(d1.subrange(n0 + n1 + n2, n0 + n1 + n2 + n3)[i - n0 - n1 - n2] == d1[i]);
            assert(d2.subrange(n0 + n1 + n2, n0 + n1 + n2 + n3)[i - n0 - n1 - n2] == d2[i]);
            lemma_resolution_unique(
                d1[i],
                d2[i],
                r3[i - n0 - n1 - n2],
                DependencyKind::Workspace,
                lock,
                manifests,
                node_path,
            );
        }
    }
}

/// The gathering phase is deterministic: any two trees the gathering
/// contract admits for one starting path, lock table and manifest set
/// agree everywhere, down to the characters of every name, version,
/// source and member subtree.
pub proof fn lemma_gathered_unique(
    n1: CargoDependencies,
    n2: CargoDependencies,
    path: Seq<char>,
    lock: Seq<LockEntry>,
    manifests: Seq<(String, TomlItem)>,
    fuel: nat,
)
    requires
        node_gathered(n1, path, lock, manifests, fuel),
        node_gathered(n2, path, lock, manifests, fuel),
    ensures
        nodes_agree(n1, n2),
    decreases fuel,
{
    let doc = spec_node_doc(manifests, path);
    lemma_sections_agree(n1.dependencies@, n2.dependencies@, doc, lock, manifests, path);
    assert forall|i: int| 0 <= i < n1.workspace_members@.len() implies (
    #[trigger] n1.workspace_members@[i]).0@ == n2.workspace_members@[i].0@ && nodes_agree(
        *n1.workspace_members@[i].1,
        *n2.workspace_members@[i].1,
    ) by {
        lemma_gathered_unique(
            *n1.workspace_members@[i].1,
            *n2.workspace_members@[i].1,
            spec_member_paths(doc)[i],
            lock,
            manifests,
            (fuel - 1) as nat,
        );
    }
}

/// A table entry that inherits from the workspace contributes nothing:
/// the declaration set of a table holding it equals the declaration set
/// of the table without it.
pub proof fn lemma_workspace_inherited_excluded(entries: Seq<(String, TomlItem)>, i: int)
    requires
        0 <= i < entries.len(),
        spec_classify_entry(entries[i].0@, entries[i].1) is Skipped,
    ensures
        spec_raw_decls(entries) == spec_raw_decls(entries.remove(i)),
    decreases entries.len(),
{
    if i == entries.len() - 1 {
        assert(entries.remove(i) =~= entries.drop_last());
    } else {
        let shorter = entries.drop_last();
        lemma_workspace_inherited_excluded(shorter, i);
        assert(entries.remove(i).drop_last() =~= shorter.remove(i));
        assert(entries.remove(i).last() == entries.last());
    }
}

} // verus!
