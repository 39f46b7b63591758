//! The glob patterns of the `globset` crate, as the matcher uses them.
use globset::Error as GlobError;
use globset::{Glob, GlobSet, GlobSetBuilder};
use vstd::prelude::*;

verus! {

#[verifier::external_type_specification]
#[verifier::external_body]
pub struct ExGlob(Glob);

#[verifier::external_type_specification]
#[verifier::external_body]
pub struct ExGlobSet(GlobSet);

#[verifier::external_type_specification]
#[verifier::external_body]
pub struct ExGlobSetBuilder(GlobSetBuilder);

/// Whether a pattern compiles as a glob with the default options.
pub uninterp spec fn glob_valid(pattern: Seq<char>) -> bool;

/// Whether the glob compiled from a pattern with the default options matches
/// a text taken as a path, on the platform the library is built for: on
/// Windows globset reads a backslash in a text as a separator and in a
/// pattern as a literal character, elsewhere as a character and an escape.
pub uninterp spec fn glob_match(pattern: Seq<char>, text: Seq<char>) -> bool;

/// The pattern that a compiled glob was built from.
pub uninterp spec fn glob_text(glob: Glob) -> Seq<char>;

/// The patterns added to a glob set builder, in order.
pub uninterp spec fn pending_patterns(builder: GlobSetBuilder) -> Seq<Seq<char>>;

/// Whether a glob set can be built from the given patterns: it fails only
/// when the regular expressions they compile to exceed globset's limits.
pub uninterp spec fn set_builds(patterns: Seq<Seq<char>>) -> bool;

/// The patterns of a glob set, in order; the index of each is its sequence
/// number.
pub uninterp spec fn set_patterns(set: GlobSet) -> Seq<Seq<char>>;

/// The pattern that matches everything.
pub open spec fn everything() -> Seq<char> {
    seq!['*', '*']
}

/// Whether a pattern matches every text.
pub open spec fn matches_everything(pattern: Seq<char>) -> bool {
    forall|t: Seq<char>| #[trigger] glob_match(pattern, t)
}

/// Relies on `globset::Glob::new`: compiling depends on the pattern alone, the
/// glob keeps its pattern (`Glob::glob`), and `**` compiles and matches
/// everything.
#[verifier::external_body]
pub(crate) fn compile(pattern: &str) -> (r: Result<Glob, GlobError>)
    ensures
        r is Ok <==> glob_valid(pattern@),
        r matches Ok(g) ==> glob_text(g) == pattern@,
        pattern@ == everything() ==> r is Ok,
        pattern@ == everything() && r is Ok ==> forall|t: Seq<char>| #[trigger] glob_match(pattern@, t),
{
    Glob::new(pattern)
}

/// Relies on `globset::GlobSetBuilder::new`: a builder without patterns.
#[verifier::external_body]
pub(crate) fn new_builder() -> (r: GlobSetBuilder)
    ensures
        pending_patterns(r) == Seq::<Seq<char>>::empty(),
{
    GlobSetBuilder::new()
}

/// Relies on `globset::GlobSetBuilder::add`: the glob is appended.
#[verifier::external_body]
pub(crate) fn add_glob(builder: &mut GlobSetBuilder, glob: Glob)
    ensures
        pending_patterns(*final(builder)) == pending_patterns(*old(builder)).push(glob_text(glob)),
{
    builder.add(glob);
}

/// Relies on `globset::GlobSetBuilder::build`: whether it succeeds depends on
/// the patterns added alone, a builder without patterns always succeeds, and
/// a set holds the patterns added, in order, counted by a `usize`.
#[verifier::external_body]
pub(crate) fn build_set(builder: &GlobSetBuilder) -> (r: Result<GlobSet, GlobError>)
    ensures
        r is Ok <==> set_builds(pending_patterns(*builder)),
        pending_patterns(*builder).len() == 0 ==> r is Ok,
        r matches Ok(s) ==> set_patterns(s) == pending_patterns(*builder),
        r matches Ok(s) ==> set_patterns(s).len() <= usize::MAX,
{
    builder.build()
}

/// Relies on `globset::GlobSet::len`: the number of patterns.
#[verifier::external_body]
pub(crate) fn set_len(set: &GlobSet) -> (r: usize)
    ensures
        r == set_patterns(*set).len(),
{
    set.len()
}

/// Relies on `globset::GlobSet::is_match`: whether any pattern of the set
/// matches the text.
#[verifier::external_body]
pub(crate) fn set_is_match(set: &GlobSet, text: &str) -> (r: bool)
    ensures
        r == (exists|i: int| 0 <= i < set_patterns(*set).len() && glob_match(set_patterns(*set)[i], text@)),
{
    set.is_match(text)
}

/// Relies on `globset::GlobSet::matches`: the sequence numbers of the
/// patterns that match the text, in ascending order.
#[verifier::external_body]
pub(crate) fn set_matches(set: &GlobSet, text: &str) -> (r: Vec<usize>)
    ensures
        forall|k: int| 0 <= k < r@.len() ==> #[trigger] r@[k] < set_patterns(*set).len(),
        forall|j: int, k: int| 0 <= j < k < r@.len() ==> r@[j] < r@[k],
        forall|i: int| 0 <= i < set_patterns(*set).len() ==> (#[trigger] glob_match(set_patterns(*set)[i], text@)
            <==> r@.contains(i as usize)),
{
    set.matches(text)
}

/// Relies on `Clone` of `globset::GlobSet`: the copy holds the same patterns.
pub assume_specification[ <GlobSet as Clone>::clone ](set: &GlobSet) -> (r: GlobSet)
    ensures
        set_patterns(r) == set_patterns(*set),
;

} // verus!
