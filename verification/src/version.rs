//! The format revision a run targets.
//!
//! Revisions are written `<major>.<minor>`, and a bundle may declare the one
//! it targets with `okf_version` in its bundle-root `index.md`.

use vstd::prelude::*;
use vstd::string::*;

use crate::text::{chars_of, copy_range, push_str, trim_chars, trim_white};

verus! {

/// A revision of the Open Knowledge Format, ordered oldest to newest.
#[derive(Debug, Clone, Copy, PartialEq, Eq, Structural, PartialOrd, Ord, Hash)]
pub enum OkfVersion {
    /// v0.1: provenance lives in `timestamp` and a body `# Citations` list.
    V0_1,
    /// v0.2, the revision this toolkit implements.
    V0_2,
}

impl Default for OkfVersion {
    fn default() -> (v: Self)
        ensures
            v == OkfVersion::V0_2,
    {
        OkfVersion::V0_2
    }
}

/// Every revision this toolkit understands, oldest first.
pub const SUPPORTED: [OkfVersion; 2] = [OkfVersion::V0_1, OkfVersion::V0_2];

/// The newest supported revision, and the default when nothing says otherwise.
pub const LATEST: OkfVersion = OkfVersion::V0_2;

/// How each revision is written.
pub open spec fn version_text(v: OkfVersion) -> Seq<char> {
    match v {
        OkfVersion::V0_1 => seq!['0', '.', '1'],
        OkfVersion::V0_2 => seq!['0', '.', '2'],
    }
}

/// `t` without one leading `v` or `V`.
pub open spec fn without_v(t: Seq<char>) -> Seq<char> {
    if t.len() > 0 && (t[0] == 'v' || t[0] == 'V') {
        t.drop_first()
    } else {
        t
    }
}

/// The revision a declared or requested text names: trimmed, with one
/// optional `v` or `V` prefix.
pub open spec fn version_of(text: Seq<char>) -> Option<OkfVersion> {
    let t = without_v(trim_white(text));
    if t == version_text(OkfVersion::V0_1) {
        Some(OkfVersion::V0_1)
    } else if t == version_text(OkfVersion::V0_2) {
        Some(OkfVersion::V0_2)
    } else {
        None
    }
}

fn is_version(t: &[char], v: OkfVersion) -> (b: bool)
    ensures
        b == (t@ == version_text(v)),
{
    let last = match v {
        OkfVersion::V0_1 => '1',
        OkfVersion::V0_2 => '2',
    };
    if t.len() == 3 && t[0] == '0' && t[1] == '.' && t[2] == last {
        assert(t@ =~= version_text(v));
        true
    } else {
        proof {
            if t@.len() == 3 {
                assert(version_text(v)[2] == last);
            }
        }
        false
    }
}

impl OkfVersion {
    pub fn as_str(self) -> (s: &'static str)
        ensures
            s@ == version_text(self),
    {
        proof {
            reveal_strlit("0.1");
            reveal_strlit("0.2");
        }
        match self {
            OkfVersion::V0_1 => "0.1",
            OkfVersion::V0_2 => "0.2",
        }
    }

    /// The revision as an owned string, as `Display` renders it.
    pub fn to_string(self) -> (s: String)
        ensures
            s@ == version_text(self),
    {
        self.as_str().to_owned()
    }

    /// Parses a declared or requested revision, tolerating a `v` prefix.
    ///
    /// Bundles write `okf_version: "0.2"` while people type `v0.2`, and
    /// rejecting one of those spellings would be pedantry rather than rigour.
    pub fn parse(text: &str) -> (r: Option<Self>)
        ensures
            r == version_of(text@),
    {
        let cs = chars_of(text);
        let trimmed = trim_chars(cs.as_slice());
        let start: usize = if trimmed.len() > 0 && (trimmed[0] == 'v' || trimmed[0] == 'V') {
            1
        } else {
            0
        };
        let t = copy_range(trimmed.as_slice(), start, trimmed.len());
        assert(t@ =~= without_v(trim_white(text@)));
        if is_version(t.as_slice(), OkfVersion::V0_1) {
            Some(OkfVersion::V0_1)
        } else if is_version(t.as_slice(), OkfVersion::V0_2) {
            Some(OkfVersion::V0_2)
        } else {
            None
        }
    }

    /// The supported revisions as `0.1, 0.2`, for error messages.
    fn supported_list() -> (s: String)
        ensures
            s@ == version_text(OkfVersion::V0_1) + seq![',', ' '] + version_text(OkfVersion::V0_2),
    {
        let mut s = OkfVersion::V0_1.to_string();
        proof {
            reveal_strlit(", ");
        }
        push_str(&mut s, ", ");
        push_str(&mut s, OkfVersion::V0_2.as_str());
        s
    }

    /// Parses a revision, or explains which revisions are supported.
    pub fn from_text(text: &str) -> (r: Result<Self, String>)
        ensures
            r matches Ok(v) ==> version_of(text@) == Some(v),
            r matches Err(m) ==> version_of(text@) is None && m@ == "unknown OKF version `"@
                + text@ + "`; supported versions are "@ + version_text(OkfVersion::V0_1) + seq![
                ',',
                ' ',
            ] + version_text(OkfVersion::V0_2),
    {
        match OkfVersion::parse(text) {
            Some(v) => Ok(v),
            None => {
                let mut m = "unknown OKF version `".to_owned();
                push_str(&mut m, text);
                push_str(&mut m, "`; supported versions are ");
                let list = OkfVersion::supported_list();
                push_str(&mut m, list.as_str());
                Err(m)
            },
        }
    }
}

impl core::str::FromStr for OkfVersion {
    type Err = String;

    fn from_str(text: &str) -> (r: Result<Self, String>)
        ensures
            r matches Ok(v) ==> version_of(text@) == Some(v),
            r matches Err(m) ==> version_of(text@) is None && m@ == "unknown OKF version `"@
                + text@ + "`; supported versions are "@ + version_text(OkfVersion::V0_1) + seq![
                ',',
                ' ',
            ] + version_text(OkfVersion::V0_2),
    {
        OkfVersion::from_text(text)
    }
}

/// The revision a run targets: an explicit request wins; otherwise the
/// bundle's own declaration decides; an absent or unrecognised declaration
/// falls back to the latest revision.
pub open spec fn resolved_version(requested: Option<OkfVersion>, declared: Option<Seq<char>>) -> OkfVersion {
    match requested {
        Some(v) => v,
        None => match declared {
            Some(t) => match version_of(t) {
                Some(v) => v,
                None => OkfVersion::V0_2,
            },
            None => OkfVersion::V0_2,
        },
    }
}

/// Resolves the revision a run targets.
///
/// An explicit request wins: pinning a version is a deliberate statement about
/// which consumer is being emulated, and it has to be able to contradict a
/// bundle whose declaration is what the caller is investigating.
pub fn resolve(requested: Option<OkfVersion>, declared: Option<&str>) -> (v: OkfVersion)
    ensures
        v == resolved_version(
            requested,
            match declared {
                Some(t) => Some(t@),
                None => None,
            },
        ),
{
    match requested {
        Some(v) => v,
        None => match declared {
            Some(t) => match OkfVersion::parse(t) {
                Some(v) => v,
                None => LATEST,
            },
            None => LATEST,
        },
    }
}

/// Writing a revision and reading it back gives the same revision.
pub proof fn lemma_version_round_trip(v: OkfVersion)
    ensures
        version_of(version_text(v)) == Some(v),
{
    let t = version_text(v);
    assert(trim_white(t) == t) by {
        assert(crate::text::trim_start_white(t) == t);
        assert(crate::text::trim_end_white(t) == t);
    }
    assert(without_v(t) == t);
    assert(version_text(OkfVersion::V0_1) != version_text(OkfVersion::V0_2)) by {
        assert(version_text(OkfVersion::V0_1)[2] != version_text(OkfVersion::V0_2)[2]);
    }
}

/// An explicit request always wins over whatever the bundle declares.
pub proof fn lemma_request_wins(v: OkfVersion, declared: Option<Seq<char>>)
    ensures
        resolved_version(Some(v), declared) == v,
{
}

} // verus!
