//! The alternate-registry decision: what one lookup answer contributes
//! to the collected results. The registry client that produces the
//! answer lives with the caller; the strict-outdatedness filter is
//! applied later by the result builder.

use vstd::prelude::*;

use crate::cargo::CargoDependency;
use crate::dependency::Dependency;
use crate::text::{first_line, spec_first_line};

verus! {

/// What a registry lookup reports of one package: the newest version it
/// offers and, when known, where the package lives and what it is.
#[derive(Debug, Clone, PartialEq, Eq)]
pub struct RegistryAnswer {
    pub latest_version: String,
    pub repository: Option<String>,
    pub description: Option<String>,
}

/// Turns one alternate-registry answer into a collected record: no
/// answer contributes nothing; an answer contributes the declaration's
/// current version joined with the reported latest version, repository,
/// and the first line of the reported description. Whether the record is
/// actually outdated is decided by the result builder.
pub fn fetch_package_from_source(
    dep: CargoDependency,
    workspace_member: Option<String>,
    workspace_path: Option<String>,
    answer: Option<RegistryAnswer>,
) -> (r: Option<Dependency>)
    ensures
        (r is Some) <==> (answer is Some),
        r is Some ==> {
            let d = r->0;
            let a = answer->0;
            &&& d.name == dep.name
            &&& d.current_version == dep.version
            &&& d.latest_version == a.latest_version
            &&& d.repository == a.repository
            &&& (match (d.description, a.description) {
                (Some(got), Some(full)) => got@ == spec_first_line(full@),
                (None, None) => true,
                _ => false,
            })
            &&& d.kind == dep.kind
            &&& d.workspace_member == workspace_member
            &&& d.workspace_path == workspace_path
            &&& d.latest_version_date is None
            &&& d.current_version_date is None
        },
{
    let a = match answer {
        None => {
            return None;
        },
        Some(a) => a,
    };
    let description = match &a.description {
        Some(full) => Some(first_line(full.as_str()).to_owned()),
        None => None,
    };
    Some(
        Dependency {
            name: dep.name,
            current_version: dep.version,
            latest_version: a.latest_version,
            kind: dep.kind,
            repository: a.repository,
            description,
            latest_version_date: None,
            current_version_date: None,
            workspace_member,
            workspace_path,
        },
    )
}

} // verus!
