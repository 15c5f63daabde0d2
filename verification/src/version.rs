//! Semantic versions and version requirements.
use vstd::prelude::*;
use vstd::string::*;

use crate::text::Text;

verus! {

/// Whether `semver::Version::parse` accepts the text.
pub uninterp spec fn version_parses(text: Seq<char>) -> bool;

/// Whether `semver::VersionReq::parse` accepts the text.
pub uninterp spec fn version_req_parses(text: Seq<char>) -> bool;

/// Whether, by `semver::VersionReq::matches`, the requirement read from
/// `req` admits the version read from `version`.
pub uninterp spec fn version_req_admits(req: Seq<char>, version: Seq<char>) -> bool;

/// Whether the text is three digits with dots between them.
pub open spec fn is_short_version(text: Text) -> bool {
    &&& text.len() == 5
    &&& '0' <= text[0] <= '9'
    &&& text[1] == '.'
    &&& '0' <= text[2] <= '9'
    &&& text[3] == '.'
    &&& '0' <= text[4] <= '9'
}

/// Calls `semver::Version::parse`. Whether it succeeds depends on the text
/// alone; it does on three digits with dots between them.
#[verifier::external_body]
fn semver_version_ok(text: &str) -> (ok: bool)
    ensures
        ok == version_parses(text@),
        is_short_version(text@) ==> ok,
{
    semver::Version::parse(text).is_ok()
}

/// Whether the text begins with an ASCII letter other than `x` and `X`, the
/// letters that stand for a wildcard.
pub open spec fn starts_with_word(text: Text) -> bool {
    &&& text.len() > 0
    &&& ('a' <= text[0] <= 'z' || 'A' <= text[0] <= 'Z')
    &&& text[0] != 'x'
    &&& text[0] != 'X'
}

/// Calls `semver::VersionReq::parse`. Whether it succeeds depends on the text
/// alone; a requirement begins with an operator, a digit, a wildcard or a
/// space, so a text that begins with another letter is refused.
#[verifier::external_body]
fn semver_req_ok(text: &str) -> (ok: bool)
    ensures
        ok == version_req_parses(text@),
        starts_with_word(text@) ==> !ok,
{
    semver::VersionReq::parse(text).is_ok()
}

/// Calls `semver::VersionReq::matches` on what the two texts are read as.
/// The answer depends on the two texts alone.
#[verifier::external_body]
fn semver_req_matches(req: &str, version: &str) -> (admits: bool)
    requires
        version_req_parses(req@),
        version_parses(version@),
    ensures
        admits == version_req_admits(req@, version@),
{
    semver::VersionReq::parse(req).unwrap().matches(&semver::Version::parse(version).unwrap())
}

/// A version that reads as one.
#[derive(Debug)]
pub struct Version {
    text: String,
}

/// A version requirement that reads as one.
#[derive(Debug)]
pub struct VersionReq {
    text: String,
}

impl View for Version {
    type V = Text;

    closed spec fn view(&self) -> Text {
        self.text@
    }
}

impl View for VersionReq {
    type V = Text;

    closed spec fn view(&self) -> Text {
        self.text@
    }
}

impl Version {
    #[verifier::type_invariant]
    spec fn reads(self) -> bool {
        version_parses(self.text@)
    }

    /// Reads a version.
    pub fn parse(text: &str) -> (version: Option<Version>)
        ensures
            version is Some <==> version_parses(text@),
            version matches Some(v) ==> v@ == text@,
            is_short_version(text@) ==> version is Some,
    {
        if semver_version_ok(text) {
            Some(Version { text: String::from_str(text) })
        } else {
            None
        }
    }
}

impl VersionReq {
    #[verifier::type_invariant]
    spec fn reads(self) -> bool {
        version_req_parses(self.text@)
    }

    /// Reads a requirement.
    pub fn parse(text: &str) -> (req: Option<VersionReq>)
        ensures
            req is Some <==> version_req_parses(text@),
            req matches Some(r) ==> r@ == text@,
            starts_with_word(text@) ==> req is None,
    {
        if semver_req_ok(text) {
            Some(VersionReq { text: String::from_str(text) })
        } else {
            None
        }
    }

    /// Whether the requirement admits the version.
    pub fn matches(&self, version: &Version) -> (admits: bool)
        ensures
            admits == version_req_admits(self@, version@),
    {
        proof {
            use_type_invariant(self);
            use_type_invariant(version);
        }
        semver_req_matches(self.text.as_str(), version.text.as_str())
    }
}

/// Whether a demand and a version are at odds: both read, and the demand does
/// not admit the version.
pub open spec fn at_odds(req: Text, version: Text) -> bool {
    version_req_parses(req) && version_parses(version) && !version_req_admits(req, version)
}

/// Whether a demanded requirement rules out a version. A text that does not
/// read as a requirement rules out nothing.
pub fn rules_out(req: &str, version: &str) -> (odds: bool)
    ensures
        odds == at_odds(req@, version@),
        starts_with_word(req@) ==> !odds,
{
    match VersionReq::parse(req) {
        Some(r) => match Version::parse(version) {
            Some(v) => !r.matches(&v),
            None => false,
        },
        None => false,
    }
}

/// A demand rules out a version just where it reads as a requirement, the
/// version reads as one, and the requirement does not admit it.
pub proof fn law_at_odds(req: Text, version: Text)
    ensures
        !version_req_parses(req) ==> !at_odds(req, version),
        !version_parses(version) ==> !at_odds(req, version),
        version_req_parses(req) && version_parses(version) ==> at_odds(req, version) == !version_req_admits(
            req,
            version,
        ),
{
}

/// A requirement that reads rules out just those versions that read and that it
/// does not admit; anything else rules out nothing.
pub proof fn law_rules_out(req: &str, version: &str, odds: bool)
    requires
        call_ensures(rules_out, (req, version), odds),
    ensures
        odds ==> version_req_parses(req@) && version_parses(version@) && !version_req_admits(req@, version@),
        version_req_parses(req@) && version_parses(version@) && !version_req_admits(req@, version@) ==> odds,
{
}

} // verus!
