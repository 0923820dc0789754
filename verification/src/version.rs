//! The YAML version that decides how implicit scalars resolve.
use vstd::prelude::*;
use crate::text::{chars_are, chars_of, trim_chars, trimmed};

verus! {

/// The YAML version used to resolve implicit scalar tags.
#[derive(Clone, Copy, Debug, PartialEq, Eq, Hash, Structural)]
pub enum YamlVersion {
    Version11,
    Version12,
}

/// The version's spelling in a `%YAML` directive.
pub open spec fn version_text(v: YamlVersion) -> Seq<char> {
    match v {
        YamlVersion::Version11 => "1.1"@,
        YamlVersion::Version12 => "1.2"@,
    }
}

/// The version a directive argument names once surrounding whitespace is trimmed: `1.1` or
/// `1.2`, each also with a trailing `.`.
pub open spec fn version_named(s: Seq<char>) -> Option<YamlVersion> {
    let t = trimmed(s);
    if t == "1.1"@ || t == "1.1."@ {
        Some(YamlVersion::Version11)
    } else if t == "1.2"@ || t == "1.2."@ {
        Some(YamlVersion::Version12)
    } else {
        None
    }
}

impl YamlVersion {
    pub fn as_str(self) -> (r: &'static str)
        ensures
            r@ == version_text(self),
    {
        match self {
            YamlVersion::Version11 => "1.1",
            YamlVersion::Version12 => "1.2",
        }
    }

    /// Reads a version number, ignoring surrounding whitespace.
    pub fn parse_text(value: &str) -> (r: Result<YamlVersion, ()>)
        ensures
            match r {
                Ok(v) => version_named(value@) == Some(v),
                Err(_) => version_named(value@) is None,
            },
    {
        let t = trim_chars(&chars_of(value));
        if chars_are(&t, "1.1") || chars_are(&t, "1.1.") {
            Ok(YamlVersion::Version11)
        } else if chars_are(&t, "1.2") || chars_are(&t, "1.2.") {
            Ok(YamlVersion::Version12)
        } else {
            Err(())
        }
    }
}

impl core::str::FromStr for YamlVersion {
    type Err = ();

    fn from_str(value: &str) -> (r: Result<YamlVersion, ()>)
        ensures
            match r {
                Ok(v) => version_named(value@) == Some(v),
                Err(_) => version_named(value@) is None,
            },
    {
        YamlVersion::parse_text(value)
    }
}

/// Every version reads back from its own spelling.
pub proof fn lemma_version_round_trip(v: YamlVersion)
    ensures
        version_named(version_text(v)) == Some(v),
{
    reveal_strlit("1.1");
    reveal_strlit("1.1.");
    reveal_strlit("1.2");
    reveal_strlit("1.2.");
    let t = version_text(v);
    assert(!crate::text::unicode_whitespace('1'));
    assert(crate::text::leading_ws(t) == 0);
    assert(crate::text::trailing_ws(t) == 0);
    assert(trimmed(t) =~= t);
    assert("1.1"@[2] != "1.2"@[2]);
}

} // verus!
