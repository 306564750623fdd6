//! Versions and version requirements, as the `semver` crate reads and
//! decides them.
//!
//! Nothing in this file is proved. Each function parses its texts with
//! `semver` and asks it one question, and its contract gives the answer a
//! name.

use vstd::prelude::*;

verus! {

/// What `semver` makes of a requirement and a version, both as text:
/// whether the version meets the requirement, or `None` where one of the
/// two texts is not what `semver` accepts.
pub uninterp spec fn req_matches(req: Seq<char>, version: Seq<char>) -> Option<bool>;

/// `VersionReq::parse`, `Version::parse` and `VersionReq::matches`: parses
/// both texts and asks whether the version meets the requirement. The
/// answer depends on the two texts alone. Neither parser panics; a text
/// that does not parse gives `None`.
#[verifier::external_body]
pub(crate) fn version_req_matches(req: &str, version: &str) -> (res: Option<bool>)
    ensures
        res == req_matches(req@, version@),
{
    let req = semver::VersionReq::parse(req).ok()?;
    let version = semver::Version::parse(version).ok()?;
    Some(req.matches(&version))
}

/// What `semver` makes of two versions, both as text: whether they are the
/// same version, or `None` where one of the texts is no version. Build
/// metadata does not tell two versions apart.
pub uninterp spec fn version_same(a: Seq<char>, b: Seq<char>) -> Option<bool>;

/// What `semver` makes of two versions, both as text: whether the first
/// comes before the second in precedence or is the same version, or `None`
/// where one of the texts is no version.
pub uninterp spec fn version_at_most(a: Seq<char>, b: Seq<char>) -> Option<bool>;

/// `Version::parse` and the `==` of `Version`: parses both texts and asks
/// whether they are the same version. The answer depends on the two texts
/// alone. A text that does not parse gives `None`.
#[verifier::external_body]
pub(crate) fn versions_equal(a: &str, b: &str) -> (res: Option<bool>)
    ensures
        res == version_same(a@, b@),
{
    let a = semver::Version::parse(a).ok()?;
    let b = semver::Version::parse(b).ok()?;
    Some(a == b)
}

/// `Version::parse` and the `<=` of `Version`: parses both texts and asks
/// whether the first is at most the second. The answer depends on the two
/// texts alone. A text that does not parse gives `None`.
#[verifier::external_body]
pub(crate) fn version_not_above(a: &str, b: &str) -> (res: Option<bool>)
    ensures
        res == version_at_most(a@, b@),
{
    let a = semver::Version::parse(a).ok()?;
    let b = semver::Version::parse(b).ok()?;
    Some(a <= b)
}

} // verus!
