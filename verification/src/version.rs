//! Versions of servers, and what they support.
use core::cmp::Ordering;

use vstd::prelude::*;

use crate::text::{
    is_white, is_white_char, parse_uint, parsed_uint, push_dec, split, split_text, texts, to_chars,
};

verus! {

/// The version of a server.
#[derive(Debug, Clone, Copy, PartialEq, Eq, Structural)]
pub struct Version {
    pub major: u32,
    pub minor: u32,
    pub patch: u32,
}

/// Whether a version is at least the given one.
pub open spec fn at_least(v: Version, major: u32, minor: u32) -> bool {
    v.major > major || (v.major == major && v.minor >= minor)
}

/// The order of versions: by the first number that differs.
pub open spec fn compared_versions(a: Version, b: Version) -> Ordering {
    if a.major != b.major {
        if a.major < b.major {
            Ordering::Less
        } else {
            Ordering::Greater
        }
    } else if a.minor != b.minor {
        if a.minor < b.minor {
            Ordering::Less
        } else {
            Ordering::Greater
        }
    } else if a.patch != b.patch {
        if a.patch < b.patch {
            Ordering::Less
        } else {
            Ordering::Greater
        }
    } else {
        Ordering::Equal
    }
}

impl PartialOrd for Version {
    fn partial_cmp(&self, other: &Version) -> (r: Option<Ordering>) {
        if self.major != other.major {
            if self.major < other.major {
                Some(Ordering::Less)
            } else {
                Some(Ordering::Greater)
            }
        } else if self.minor != other.minor {
            if self.minor < other.minor {
                Some(Ordering::Less)
            } else {
                Some(Ordering::Greater)
            }
        } else if self.patch != other.patch {
            if self.patch < other.patch {
                Some(Ordering::Less)
            } else {
                Some(Ordering::Greater)
            }
        } else {
            Some(Ordering::Equal)
        }
    }
}

impl vstd::std_specs::cmp::PartialOrdSpecImpl for Version {
    open spec fn obeys_partial_cmp_spec() -> bool {
        true
    }

    open spec fn partial_cmp_spec(&self, other: &Version) -> Option<Ordering> {
        Some(compared_versions(*self, *other))
    }
}

/// The place of the first character from `i` on that is white, or is not.
pub open spec fn find_white(s: Seq<char>, i: int, white: bool) -> int
    decreases s.len() - i,
{
    if 0 <= i < s.len() && is_white(s[i]) != white {
        find_white(s, i + 1, white)
    } else {
        i
    }
}

/// The first word of a text.
pub open spec fn first_word(s: Seq<char>) -> Seq<char> {
    let start = find_white(s, 0, false);
    let end = find_white(s, start, true);
    s.subrange(start, end)
}

/// The version that a text tells: at least two numbers with dots between them. The third
/// one ends at a hyphen, and is zero where there is none.
pub open spec fn parsed_version(s: Seq<char>) -> Option<Version> {
    let parts = split_text(first_word(s), '.');
    if parts.len() < 2 {
        None
    } else {
        let max = u32::MAX as nat;
        match (parsed_uint(parts[0], max), parsed_uint(parts[1], max)) {
            (Some(major), Some(minor)) => {
                let patch = if parts.len() >= 3 {
                    parsed_uint(split_text(parts[2], '-')[0], max)
                } else {
                    Some(0)
                };
                match patch {
                    Some(p) => Some(
                        Version { major: major as u32, minor: minor as u32, patch: p as u32 },
                    ),
                    None => None,
                }
            },
            _ => None,
        }
    }
}

proof fn lemma_find_white(s: Seq<char>, i: int, white: bool)
    requires
        0 <= i <= s.len(),
    ensures
        i <= find_white(s, i, white) <= s.len(),
    decreases s.len() - i,
{
    if i < s.len() && is_white(s[i]) != white {
        lemma_find_white(s, i + 1, white);
    }
}

fn next_white(s: &Vec<char>, from: usize, white: bool) -> (r: usize)
    requires
        from <= s@.len(),
    ensures
        r == find_white(s@, from as int, white),
        from <= r <= s@.len(),
{
    let mut i: usize = from;
    while i < s.len() && is_white_char(s[i]) != white
        invariant
            from <= i <= s@.len(),
            find_white(s@, from as int, white) == find_white(s@, i as int, white),
        decreases s.len() - i,
    {
        i += 1;
    }
    i
}

fn read_number(s: &String) -> (r: Option<u32>)
    ensures
        match r {
            Some(n) => parsed_uint(s@, u32::MAX as nat) == Some(n as nat),
            None => parsed_uint(s@, u32::MAX as nat) is None,
        },
{
    let chars = to_chars(s.as_str());
    match parse_uint(&chars, u32::MAX as u64) {
        Some(n) => Some(n as u32),
        None => None,
    }
}

impl Version {
    /// A version of three numbers.
    pub fn new(major: u32, minor: u32, patch: u32) -> (r: Version)
        ensures
            r == (Version { major, minor, patch }),
    {
        Version { major, minor, patch }
    }

    /// Reads a version from a text.
    pub fn parse(version_str: &str) -> (r: Option<Version>)
        ensures
            r == parsed_version(version_str@),
    {
        let chars = to_chars(version_str);
        let start: usize = next_white(&chars, 0, false);
        let end: usize = next_white(&chars, start, true);
        let word = vstd::slice::slice_subrange(chars.as_slice(), start, end);
        assert(word@ =~= first_word(version_str@));
        let parts = split(word, '.');
        let ghost pv = split_text(first_word(version_str@), '.');
        assert(pv.len() == parts@.len());
        if parts.len() < 2 {
            return None;
        }
        assert(pv[0] == parts@[0]@ && pv[1] == parts@[1]@);
        let major: u32 = match read_number(&parts[0]) {
            Some(n) => n,
            None => return None,
        };
        let minor: u32 = match read_number(&parts[1]) {
            Some(n) => n,
            None => return None,
        };
        let patch: u32 = if parts.len() >= 3 {
            assert(pv[2] == parts@[2]@);
            let third = to_chars(parts[2].as_str());
            let pieces = split(&third, '-');
            proof {
                crate::text::lemma_split_nonempty(third@, '-');
                assert(texts(pieces@)[0] == pieces@[0]@);
            }
            match read_number(&pieces[0]) {
                Some(n) => n,
                None => return None,
            }
        } else {
            0
        };
        Some(Version::new(major, minor, patch))
    }

    /// Whether values of any type are supported.
    pub fn supports_dynamic(&self) -> (r: bool)
        ensures
            r == at_least(*self, 24, 8),
    {
        self.major > 24 || (self.major == 24 && self.minor >= 8)
    }

    /// Whether JSON documents are supported.
    pub fn supports_json(&self) -> (r: bool)
        ensures
            r == at_least(*self, 25, 1),
    {
        self.major > 25 || (self.major == 25 && self.minor >= 1)
    }

    /// Whether JSON documents with a column for each path are supported.
    pub fn supports_json_v3(&self) -> (r: bool)
        ensures
            r == at_least(*self, 25, 6),
    {
        self.major > 25 || (self.major == 25 && self.minor >= 6)
    }

    /// Whether variants are supported.
    pub fn supports_variant(&self) -> (r: bool)
        ensures
            r == at_least(*self, 25, 1),
    {
        self.supports_json()
    }

    /// Whether support for values of any type and JSON documents is stable.
    pub fn has_stable_dynamic_json(&self) -> (r: bool)
        ensures
            r == at_least(*self, 25, 6),
    {
        self.supports_json_v3()
    }

    /// The text of the version.
    pub fn to_string(&self) -> (r: String)
        ensures
            r@ == version_text(*self),
    {
        let mut out = String::new();
        push_dec(&mut out, self.major as u128);
        out.push('.');
        push_dec(&mut out, self.minor as u128);
        out.push('.');
        push_dec(&mut out, self.patch as u128);
        assert(out@ =~= version_text(*self));
        out
    }
}

/// The text of a version.
pub open spec fn version_text(v: Version) -> Seq<char> {
    crate::text::dec_text(v.major as nat) + seq!['.'] + crate::text::dec_text(v.minor as nat)
        + seq!['.'] + crate::text::dec_text(v.patch as nat)
}

/// A later version supports what an earlier one does.
pub proof fn law_support_is_kept(a: Version, b: Version, major: u32, minor: u32)
    requires
        compared_versions(a, b) != Ordering::Greater,
        at_least(a, major, minor),
    ensures
        at_least(b, major, minor),
{
}

/// The order of versions is total and transitive.
pub proof fn law_versions_are_ordered(a: Version, b: Version, c: Version)
    ensures
        compared_versions(a, b) == Ordering::Equal <==> a == b,
        compared_versions(a, b) == Ordering::Less <==> compared_versions(b, a)
            == Ordering::Greater,
        compared_versions(a, b) == Ordering::Less && compared_versions(b, c) == Ordering::Less
            ==> compared_versions(a, c) == Ordering::Less,
{
}

/// Tells what the server of a version supports. Of an unknown version nothing is taken
/// to be supported.
#[derive(Copy, Clone)]
pub struct VersionChecker {
    pub version: Option<Version>,
}

impl VersionChecker {
    /// A checker for the version that a text tells.
    pub fn new(version_str: Option<&str>) -> (r: VersionChecker)
        ensures
            r.version == (match version_str {
                Some(s) => parsed_version(s@),
                None => None,
            }),
    {
        match version_str {
            Some(s) => VersionChecker { version: Version::parse(s) },
            None => VersionChecker { version: None },
        }
    }

    /// Whether values of any type are supported.
    pub fn require_dynamic_support(&self) -> (r: bool)
        ensures
            r == (self.version is Some && at_least(self.version->0, 24, 8)),
    {
        match &self.version {
            Some(v) => v.supports_dynamic(),
            None => false,
        }
    }

    /// Whether JSON documents are supported.
    pub fn require_json_support(&self) -> (r: bool)
        ensures
            r == (self.version is Some && at_least(self.version->0, 25, 1)),
    {
        match &self.version {
            Some(v) => v.supports_json(),
            None => false,
        }
    }

    /// Whether JSON documents with a column for each path are supported.
    pub fn require_json_v3_support(&self) -> (r: bool)
        ensures
            r == (self.version is Some && at_least(self.version->0, 25, 6)),
    {
        match &self.version {
            Some(v) => v.supports_json_v3(),
            None => false,
        }
    }

    /// Whether variants are supported.
    pub fn require_variant_support(&self) -> (r: bool)
        ensures
            r == (self.version is Some && at_least(self.version->0, 25, 1)),
    {
        match &self.version {
            Some(v) => v.supports_variant(),
            None => false,
        }
    }

    /// Whether support for values of any type and JSON documents is stable.
    pub fn require_stable_dynamic_json(&self) -> (r: bool)
        ensures
            r == (self.version is Some && at_least(self.version->0, 25, 6)),
    {
        match &self.version {
            Some(v) => v.has_stable_dynamic_json(),
            None => false,
        }
    }
}

} // verus!
