//! Semantic-version facts used by the resolution and filtering logic.
//!
//! Whether a string parses as a version or a requirement, whether one
//! version precedes another, and whether a requirement accepts a version
//! are all functions of the characters alone; they are named here and
//! computed by the `semver` crate behind trusted wrappers.

use vstd::prelude::*;

verus! {

/// Whether `s` is a valid semantic version string.
pub uninterp spec fn version_parses(s: Seq<char>) -> bool;

/// Whether version `a` strictly precedes version `b` in semantic-version
/// precedence order. Meaningful only when both sides satisfy
/// `version_parses`.
pub uninterp spec fn version_lt(a: Seq<char>, b: Seq<char>) -> bool;

/// Whether `s` is a valid version-requirement string.
pub uninterp spec fn req_parses(s: Seq<char>) -> bool;

/// Whether requirement `req` accepts version `v`. Meaningful only when
/// `req_parses(req)` and `version_parses(v)` hold.
pub uninterp spec fn req_matches(req: Seq<char>, v: Seq<char>) -> bool;

/// Relies on semver::Version::parse: whether a string is a valid semantic
/// version depends on its characters alone.
#[verifier::external_body]
pub fn check_version(s: &str) -> (b: bool)
    ensures
        b == version_parses(s@),
{
    semver::Version::parse(s).is_ok()
}

/// Relies on semver::Version::parse and on the strict precedence order of
/// semver::Version's Ord implementation; both depend on the characters of
/// the two strings alone. Returns None exactly when one side is not a
/// valid semantic version.
#[verifier::external_body]
pub fn version_less(a: &str, b: &str) -> (r: Option<bool>)
    ensures
        (r is Some) <==> (version_parses(a@) && version_parses(b@)),
        r is Some ==> r->0 == version_lt(a@, b@),
{
    let pa = semver::Version::parse(a).ok()?;
    let pb = semver::Version::parse(b).ok()?;
    Some(pa < pb)
}

/// Relies on semver::VersionReq::parse: validity of a requirement string
/// depends on its characters alone.
#[verifier::external_body]
pub fn check_requirement(s: &str) -> (b: bool)
    ensures
        b == req_parses(s@),
{
    semver::VersionReq::parse(s).is_ok()
}

/// Relies on semver::VersionReq::parse, semver::Version::parse and
/// VersionReq::matches; all three depend on the characters of their inputs
/// alone. Returns None exactly when the requirement or the version does
/// not parse.
#[verifier::external_body]
pub fn requirement_matches(req: &str, v: &str) -> (r: Option<bool>)
    ensures
        (r is Some) <==> (req_parses(req@) && version_parses(v@)),
        r is Some ==> r->0 == req_matches(req@, v@),
{
    let pr = semver::VersionReq::parse(req).ok()?;
    let pv = semver::Version::parse(v).ok()?;
    Some(pr.matches(&pv))
}

} // verus!
