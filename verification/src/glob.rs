//! Glob patterns, compiled and matched by the `globset` crate.
use vstd::prelude::*;

use globset::{Glob, GlobSet, GlobSetBuilder};

use crate::text::count_of;

verus! {

#[verifier::external_type_specification]
#[verifier::external_body]
pub struct ExGlobSet(GlobSet);

/// The longest glob pattern, in characters, that is compiled.
///
/// `globset` builds a literal pattern into an Aho-Corasick automaton and
/// unwraps the result; that build fails only for literals of about
/// `i32::MAX` bytes or more. A pattern under this many characters (at most
/// four bytes each) stays far below that.
pub const MAX_GLOB_CHARS: usize = 1048576;

/// The most `{` characters a compiled glob pattern may hold, plus one.
///
/// `globset` nests `{..}` alternations without a limit while parsing, and
/// turns them into a regex by a function that calls itself once per level
/// (`Tokens::tokens_to_regex`); deep nesting overflows the stack. Each
/// level opens with a `{`, so fewer `{` than this keeps the nesting
/// shallow. The regex parser that follows refuses nesting beyond its own
/// limit with an error.
pub const MAX_GLOB_BRACES: usize = 64;

/// A pattern that `compile` accepts: fewer than `MAX_GLOB_CHARS`
/// characters and fewer than `MAX_GLOB_BRACES` opening braces.
pub open spec fn glob_fits(pattern: Seq<char>) -> bool {
    pattern.len() < MAX_GLOB_CHARS && count_of(pattern, '{') < MAX_GLOB_BRACES
}

/// Whether `globset` accepts `pattern` as a glob (default options) and
/// builds a one-glob set from it.
pub uninterp spec fn glob_compiles(pattern: Seq<char>) -> bool;

/// Whether the one-glob set built from `pattern` (default options) matches
/// the file name `name`.
pub uninterp spec fn glob_matches(pattern: Seq<char>, name: Seq<char>) -> bool;

/// A compiled glob together with the text it was compiled from.
///
/// The fields are private to this module and only `compile` builds a
/// value, so `inner` is always the set compiled from `text`.
pub struct Matcher {
    text: String,
    inner: GlobSet,
}

impl Matcher {
    /// The pattern this matcher was compiled from.
    pub closed spec fn pattern(&self) -> Seq<char> {
        self.text@
    }

    /// Compiles a glob pattern.
    ///
    /// Trusted: calls `globset::Glob::new`, then adds the glob to a
    /// `GlobSetBuilder` and calls `build`. Both report failure as an `Err`
    /// (a regex over the size limit, or nested too deep for the regex
    /// parser, included); `glob_compiles` names whether both succeed. Two
    /// ways to crash remain in the source, and `glob_fits` rules both out:
    /// the recursion of `tokens_to_regex` over nested `{..}` groups (at most
    /// one level per `{`), and the `unwrap` of an Aho-Corasick build for a
    /// literal of about `i32::MAX` bytes. The result keeps the pattern text
    /// beside the set.
    #[verifier::external_body]
    pub(crate) fn compile(pattern: &str) -> (res: Option<Matcher>)
        requires
            glob_fits(pattern@),
        ensures
            res.is_some() == glob_compiles(pattern@),
            res matches Some(m) ==> m.pattern() == pattern@,
    {
        match Glob::new(pattern) {
            Ok(g) => match GlobSetBuilder::new().add(g).build() {
                Ok(set) => Some(Matcher { text: pattern.to_string(), inner: set }),
                Err(_) => None,
            },
            Err(_) => None,
        }
    }

    /// Whether the glob matches a file name.
    ///
    /// Trusted: calls `globset::GlobSet::is_match`; its result is named
    /// `glob_matches` of the pattern and the name.
    #[verifier::external_body]
    pub(crate) fn is_match(&self, name: &str) -> (res: bool)
        ensures
            res == glob_matches(self.pattern(), name@),
    {
        self.inner.is_match(name)
    }
}

} // verus!
