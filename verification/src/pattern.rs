//! Pattern-matching capabilities for rules.
//!
//! The resolution core only needs two pure boolean predicates: one on a
//! target's content type and one on its path.  They are expressed as the
//! traits [`MimeMatcher`] and [`NameMatcher`]; the concrete syntax is up
//! to the implementor.  [`MimeGlob`] and [`NameGlob`] are simple
//! single-`*` implementations sufficient for common configurations.

use vstd::prelude::*;
use vstd::string::StrSliceExecFns;
use crate::text::str_eq;

verus! {

/// A matcher for a target's content type.  `matches` must be a pure,
/// deterministic predicate of the pattern and the string alone;
/// `spec_matches` is its mathematical statement.
pub trait MimeMatcher: Sized {
    /// What the pattern accepts, as a predicate on character sequences.
    spec fn spec_matches(&self, mime: Seq<char>) -> bool;

    /// Decides whether the pattern accepts the content-type string.
    fn matches(&self, mime: &str) -> (r: bool)
        ensures
            r == self.spec_matches(mime@),
    ;
}

/// A matcher for a target's path, which may additionally distinguish
/// directories from plain files.  `match_path` must be a pure,
/// deterministic predicate of the pattern, the path and the flag.
pub trait NameMatcher: Sized {
    /// What the pattern accepts, as a predicate on the path's characters
    /// and on whether the target is a directory.
    spec fn spec_matches(&self, path: Seq<char>, is_dir: bool) -> bool;

    /// Decides whether the pattern accepts the path.
    fn match_path(&self, path: &str, is_dir: bool) -> (r: bool)
        ensures
            r == self.spec_matches(path@, is_dir),
    ;
}

/// With `wild` set, whether `s` begins with `prefix`, ends with `suffix`,
/// and is long enough to hold both; otherwise whether `s` is exactly
/// `prefix`.
pub open spec fn glob_matches(prefix: Seq<char>, suffix: Seq<char>, wild: bool, s: Seq<char>) -> bool {
    if wild {
        &&& s.len() >= prefix.len() + suffix.len()
        &&& s.subrange(0, prefix.len() as int) == prefix
        &&& s.subrange(s.len() - suffix.len(), s.len() as int) == suffix
    } else {
        s == prefix
    }
}

/// Decides `glob_matches(prefix@, suffix@, wild, s@)`.
fn glob_match_str(prefix: &String, suffix: &String, wild: bool, s: &str) -> (r: bool)
    ensures
        r == glob_matches(prefix@, suffix@, wild, s@),
{
    if !wild {
        return str_eq(s, prefix.as_str());
    }
    let n = s.unicode_len();
    let p = prefix.as_str().unicode_len();
    let q = suffix.as_str().unicode_len();
    if n < p {
        return false;
    }
    if n - p < q {
        return false;
    }
    let pre = s.substring_char(0, p);
    if !str_eq(pre, prefix.as_str()) {
        return false;
    }
    let suf = s.substring_char(n - q, n);
    str_eq(suf, suffix.as_str())
}

/// A content-type pattern: either a literal string, or a fixed prefix
/// and suffix around a single `*` wildcard.
pub struct MimeGlob {
    pub prefix: String,
    pub suffix: String,
    pub wild: bool,
}

impl MimeGlob {
    /// A pattern accepting exactly `text`.
    pub fn literal(text: String) -> (r: MimeGlob)
        ensures
            r.prefix@ == text@,
            r.suffix@.len() == 0,
            !r.wild,
    {
        MimeGlob { prefix: text, suffix: String::new(), wild: false }
    }

    /// A pattern accepting any string that begins with `prefix` and ends
    /// with `suffix`, the `*` standing for the middle.
    pub fn wildcard(prefix: String, suffix: String) -> (r: MimeGlob)
        ensures
            r.prefix@ == prefix@,
            r.suffix@ == suffix@,
            r.wild,
    {
        MimeGlob { prefix, suffix, wild: true }
    }
}

impl MimeMatcher for MimeGlob {
    open spec fn spec_matches(&self, mime: Seq<char>) -> bool {
        glob_matches(self.prefix@, self.suffix@, self.wild, mime)
    }

    fn matches(&self, mime: &str) -> (r: bool) {
        glob_match_str(&self.prefix, &self.suffix, self.wild, mime)
    }
}

/// A path pattern: the same single-`*` glob, together with an optional
/// requirement on whether the target is a directory.
pub struct NameGlob {
    pub prefix: String,
    pub suffix: String,
    pub wild: bool,
    pub dir: Option<bool>,
}

impl NameGlob {
    /// A pattern accepting exactly the path `text`; with `dir` set, only
    /// targets whose directory flag equals it.
    pub fn literal(text: String, dir: Option<bool>) -> (r: NameGlob)
        ensures
            r.prefix@ == text@,
            r.suffix@.len() == 0,
            !r.wild,
            r.dir == dir,
    {
        NameGlob { prefix: text, suffix: String::new(), wild: false, dir }
    }

    /// A pattern accepting any path that begins with `prefix` and ends
    /// with `suffix`; with `dir` set, only targets whose directory flag
    /// equals it.
    pub fn wildcard(prefix: String, suffix: String, dir: Option<bool>) -> (r: NameGlob)
        ensures
            r.prefix@ == prefix@,
            r.suffix@ == suffix@,
            r.wild,
            r.dir == dir,
    {
        NameGlob { prefix, suffix, wild: true, dir }
    }
}

impl NameMatcher for NameGlob {
    open spec fn spec_matches(&self, path: Seq<char>, is_dir: bool) -> bool {
        &&& (match self.dir {
            Some(d) => d == is_dir,
            None => true,
        })
        &&& glob_matches(self.prefix@, self.suffix@, self.wild, path)
    }

    fn match_path(&self, path: &str, is_dir: bool) -> (r: bool) {
        let dir_ok = match self.dir {
            Some(d) => d == is_dir,
            None => true,
        };
        dir_ok && glob_match_str(&self.prefix, &self.suffix, self.wild, path)
    }
}

} // verus!
