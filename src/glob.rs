//! Glob matching, through the `globset` crate.
use vstd::prelude::*;
use globset::{Glob, GlobSet, GlobSetBuilder};

verus! {

#[verifier::external_type_specification]
#[verifier::external_body]
pub struct ExGlobSet(GlobSet);

#[verifier::external_type_specification]
#[verifier::external_body]
pub struct ExGlobSetBuilder(GlobSetBuilder);

#[verifier::external_type_specification]
#[verifier::external_body]
pub struct ExGlobError(globset::Error);

/// The patterns a glob set was built from, in the order they were added.
pub uninterp spec fn glob_set_patterns(set: GlobSet) -> Seq<Seq<char>>;

/// The patterns added to a glob set builder so far, in order.
pub uninterp spec fn builder_patterns(builder: GlobSetBuilder) -> Seq<Seq<char>>;

/// Whether `globset::Glob::new` accepts a pattern.
pub uninterp spec fn glob_parses(pattern: Seq<char>) -> bool;

/// Whether `GlobSet::new` builds a set of the globs of `patterns` (it may
/// refuse a set whose compiled matchers grow too large).
pub uninterp spec fn glob_set_builds(patterns: Seq<Seq<char>>) -> bool;

/// Whether the glob `pattern` matches `path`, as `globset` matches it.
pub uninterp spec fn glob_matches(pattern: Seq<char>, path: Seq<char>) -> bool;

/// Some pattern of `patterns` matches `path`.
pub open spec fn any_glob_matches(patterns: Seq<Seq<char>>, path: Seq<char>) -> bool {
    exists|i: int| 0 <= i < patterns.len() && glob_matches(#[trigger] patterns[i], path)
}

/// Relies on `GlobSetBuilder::new`: a builder that holds no pattern.
#[verifier::external_body]
pub(crate) fn new_glob_builder() -> (b: GlobSetBuilder)
    ensures
        builder_patterns(b) == Seq::<Seq<char>>::empty(),
{
    GlobSetBuilder::new()
}

/// Relies on `Glob::new`, which parses the pattern, and `GlobSetBuilder::add`,
/// which appends the parsed glob to the builder's patterns.
#[verifier::external_body]
pub(crate) fn add_glob(b: &mut GlobSetBuilder, pattern: &str) -> (r: Result<(), globset::Error>)
    ensures
        r is Ok <==> glob_parses(pattern@),
        r is Ok ==> builder_patterns(*final(b)) == builder_patterns(*old(b)).push(pattern@),
        r is Err ==> builder_patterns(*final(b)) == builder_patterns(*old(b)),
{
    let glob = Glob::new(pattern)?;
    b.add(glob);
    Ok(())
}

/// Relies on `GlobSetBuilder::build`: a set of the builder's patterns, built
/// or refused according to the patterns alone; a builder without patterns
/// always builds (into the empty set).
#[verifier::external_body]
pub(crate) fn build_glob_set(b: &GlobSetBuilder) -> (r: Result<GlobSet, globset::Error>)
    ensures
        r is Ok <==> glob_set_builds(builder_patterns(*b)),
        r is Ok ==> glob_set_patterns(r->Ok_0) == builder_patterns(*b),
        builder_patterns(*b).len() == 0 ==> r is Ok,
{
    b.build()
}

/// Relies on `GlobSet::is_match`: true if any glob in the set matches the path.
#[verifier::external_body]
pub(crate) fn glob_set_is_match(set: &GlobSet, path: &str) -> (r: bool)
    ensures
        r == (exists|i: int|
            0 <= i < glob_set_patterns(*set).len() && glob_matches(
                #[trigger] glob_set_patterns(*set)[i],
                path@,
            )),
{
    set.is_match(path)
}

} // verus!
