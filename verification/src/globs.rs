//! Glob patterns and sets of them, taken from the `globset` crate.
//!
//! Nothing in this file is proved: each contract states what the `globset`
//! source and documentation show of the function it names. All patterns are
//! parsed by `Glob::new`, that is with the options that the crate sets by
//! itself; what a pattern matches is settled by the crate for the platform it
//! is built for.

use globset::{Glob, GlobSet, GlobSetBuilder};
use vstd::prelude::*;

verus! {

/// `globset::Glob`: a pattern that was parsed.
#[verifier::external_type_specification]
#[verifier::external_body]
pub struct ExGlob(Glob);

/// `globset::GlobSetBuilder`: the globs that a set is to be made of.
#[verifier::external_type_specification]
#[verifier::external_body]
pub struct ExGlobSetBuilder(GlobSetBuilder);

/// `globset::GlobSet`: globs that are matched together.
#[verifier::external_type_specification]
#[verifier::external_body]
pub struct ExGlobSet(GlobSet);

/// `globset::Error`: why a pattern or a set of patterns was refused.
#[verifier::external_type_specification]
#[verifier::external_body]
pub struct ExGlobError(globset::Error);

/// Whether `Glob::new` accepts a text as a glob pattern.
pub uninterp spec fn glob_parses(pattern: Seq<char>) -> bool;

/// The text that a glob was parsed from: what `Glob::glob` returns.
pub uninterp spec fn glob_text(glob: Glob) -> Seq<char>;

/// The texts of the globs that a builder holds, in the order in which they
/// were added.
pub uninterp spec fn builder_patterns(builder: GlobSetBuilder) -> Seq<Seq<char>>;

/// Whether `GlobSetBuilder::build` makes a set of the globs with these texts.
/// It fails where the regular expression that stands for them cannot be
/// compiled, for one because it is too large.
pub uninterp spec fn glob_set_compiles(patterns: Seq<Seq<char>>) -> bool;

/// The texts of the globs that a set was built from, in the order in which
/// they were added to its builder.
pub uninterp spec fn set_patterns(set: GlobSet) -> Seq<Seq<char>>;

/// Whether any of the globs with these texts matches a path: what
/// `GlobSet::is_match` returns for a set built from them, in whatever order
/// and however often each was added.
pub uninterp spec fn glob_set_match(patterns: Set<Seq<char>>, path: Seq<char>) -> bool;

/// `Glob::new`: parses a pattern. Whether it is accepted depends on the text
/// alone, and the glob keeps the text it was parsed from.
#[verifier::external_body]
pub(crate) fn parse_glob(pattern: &str) -> (parsed: Result<Glob, globset::Error>)
    ensures
        parsed is Ok <==> glob_parses(pattern@),
        parsed matches Ok(glob) ==> glob_text(glob) == pattern@,
{
    Glob::new(pattern)
}

/// `GlobSetBuilder::new`: a builder that holds no glob.
#[verifier::external_body]
pub(crate) fn builder_new() -> (builder: GlobSetBuilder)
    ensures
        builder_patterns(builder) == Seq::<Seq<char>>::empty(),
{
    GlobSetBuilder::new()
}

/// `GlobSetBuilder::add`: puts a glob behind those that the builder holds.
#[verifier::external_body]
pub(crate) fn builder_add(builder: &mut GlobSetBuilder, glob: Glob)
    ensures
        builder_patterns(*final(builder)) == builder_patterns(*old(builder)).push(glob_text(glob)),
{
    builder.add(glob);
}

/// `GlobSetBuilder::build`: the set of the globs added so far. A builder that
/// holds no glob always gives a set, the empty one.
#[verifier::external_body]
pub(crate) fn builder_build(builder: &GlobSetBuilder) -> (built: Result<GlobSet, globset::Error>)
    ensures
        built is Ok <==> glob_set_compiles(builder_patterns(*builder)),
        built matches Ok(set) ==> set_patterns(set) == builder_patterns(*builder),
        builder_patterns(*builder).len() == 0 ==> built is Ok,
{
    builder.build()
}

/// `GlobSet::is_match`: whether any glob of the set matches the path, which
/// depends on which globs the set holds and not on their order. An empty set
/// matches nothing.
#[verifier::external_body]
pub(crate) fn set_is_match(set: &GlobSet, path: &str) -> (matched: bool)
    ensures
        matched == glob_set_match(set_patterns(*set).to_set(), path@),
        set_patterns(*set).len() == 0 ==> !matched,
{
    set.is_match(path)
}

/// The `Display` text of a `globset::Error`: what is wrong with a pattern.
#[verifier::external_body]
pub(crate) fn error_text(error: &globset::Error) -> (text: String) {
    error.to_string()
}

} // verus!
