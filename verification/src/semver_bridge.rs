//! Semantic versions and version requirements, parsed and compared by the
//! `semver` crate.
//!
//! A parsed value keeps the text it was parsed from, and that text is its
//! view: every fact stated here about a parsed value is a fact about what the
//! `semver` crate computes from that text. Values of these types are made only
//! by the two parse functions of this module, so the text and the parsed value
//! always agree.

use vstd::prelude::*;

verus! {

#[verifier::external_type_specification]
#[verifier::external_body]
pub struct ExSemverVersion(semver::Version);

#[verifier::external_type_specification]
#[verifier::external_body]
pub struct ExSemverVersionReq(semver::VersionReq);

/// What `semver::Version::parse` reports for `text`: `None` when it parses,
/// otherwise the message of the error (its `Display` text).
pub uninterp spec fn semver_version_parse_error(text: Seq<char>) -> Option<Seq<char>>;

/// What `semver::VersionReq::parse` reports for `text`: `None` when it parses,
/// otherwise the message of the error (its `Display` text).
pub uninterp spec fn semver_req_parse_error(text: Seq<char>) -> Option<Seq<char>>;

/// Whether `semver::VersionReq::matches` holds for the requirement parsed
/// from `requirement` and the version parsed from `version`.
pub uninterp spec fn semver_req_matches(requirement: Seq<char>, version: Seq<char>) -> bool;

/// The `Display` text of the requirement parsed from `text`.
pub uninterp spec fn semver_req_display(text: Seq<char>) -> Seq<char>;

/// A version that `semver` accepted, with the text it came from.
pub struct ParsedVersion {
    text: String,
    value: semver::Version,
}

/// A version requirement that `semver` accepted, with the text it came from.
pub struct ParsedRequirement {
    text: String,
    value: semver::VersionReq,
}

impl View for ParsedVersion {
    type V = Seq<char>;

    closed spec fn view(&self) -> Seq<char> {
        self.text@
    }
}

impl View for ParsedRequirement {
    type V = Seq<char>;

    closed spec fn view(&self) -> Seq<char> {
        self.text@
    }
}

/// Calls `semver::Version::parse` on `text`. Trusted: the outcome, and on
/// failure the error's message, are what `semver` computes from `text`; a
/// parsed value keeps `text` as its view.
#[verifier::external_body]
pub(crate) fn parse_version(text: &str) -> (r: Result<ParsedVersion, String>)
    ensures
        match r {
            Ok(v) => semver_version_parse_error(text@) is None && v@ == text@,
            Err(e) => semver_version_parse_error(text@) == Some(e@),
        },
{
    match semver::Version::parse(text) {
        Ok(value) => Ok(ParsedVersion { text: text.to_string(), value }),
        Err(e) => Err(e.to_string()),
    }
}

/// Calls `semver::VersionReq::parse` on `text`. Trusted: the outcome, and on
/// failure the error's message, are what `semver` computes from `text`; a
/// parsed value keeps `text` as its view.
#[verifier::external_body]
pub(crate) fn parse_requirement(text: &str) -> (r: Result<ParsedRequirement, String>)
    ensures
        match r {
            Ok(q) => semver_req_parse_error(text@) is None && q@ == text@,
            Err(e) => semver_req_parse_error(text@) == Some(e@),
        },
{
    match semver::VersionReq::parse(text) {
        Ok(value) => Ok(ParsedRequirement { text: text.to_string(), value }),
        Err(e) => Err(e.to_string()),
    }
}

/// Calls `semver::VersionReq::matches`. Trusted: the answer is the one
/// `semver` gives for the requirement and version parsed from the two texts.
#[verifier::external_body]
pub(crate) fn requirement_matches(req: &ParsedRequirement, version: &ParsedVersion) -> (r: bool)
    ensures
        r == semver_req_matches(req@, version@),
{
    req.value.matches(&version.value)
}

/// Formats a version with its `Display` impl. Trusted: a version prints back
/// as the text it was parsed from (parsing admits no leading zeros and nothing
/// around the version, and `Display` writes major, minor, patch, pre-release
/// and build metadata as they were parsed).
#[verifier::external_body]
pub(crate) fn version_to_string(version: &ParsedVersion) -> (r: String)
    ensures
        r@ == version@,
{
    version.value.to_string()
}

/// Formats a requirement with its `Display` impl. Trusted: the text is what
/// `semver` prints for the requirement parsed from the view.
#[verifier::external_body]
pub(crate) fn requirement_to_string(req: &ParsedRequirement) -> (r: String)
    ensures
        r@ == semver_req_display(req@),
{
    req.value.to_string()
}

} // verus!
