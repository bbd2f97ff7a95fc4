//! Exclude globs.

use std::path::PathBuf;

use globset::{Glob, GlobSet};
use vstd::prelude::*;

use crate::paths::path_bytes;

verus! {

/// A parsed glob.
#[verifier::external_type_specification]
#[verifier::external_body]
pub struct ExGlob(Glob);

/// A set of globs that are matched together.
#[verifier::external_type_specification]
#[verifier::external_body]
pub struct ExGlobSet(GlobSet);

/// Why a glob, or a set of them, was refused.
#[verifier::external_type_specification]
#[verifier::external_body]
pub struct ExGlobError(globset::Error);

/// Whether a pattern is a glob under the default options of the platform that
/// the library is built for.
pub uninterp spec fn is_glob(pattern: Seq<char>) -> bool;

/// The pattern of a glob that was made with the default options; for one made
/// with others, a text that tells pattern and options and is no glob itself.
pub uninterp spec fn glob_pattern(glob: Glob) -> Seq<char>;

/// The patterns of the globs of a set, each as of a [`Glob`], in the order in
/// which they were added.
pub uninterp spec fn glob_set_patterns(set: GlobSet) -> Seq<Seq<char>>;

/// Whether the globs with these patterns can be compiled together: what has to
/// be compiled of them stays within the fixed size limit, as sizes are on the
/// platform that the library is built for.
pub uninterp spec fn globs_build(patterns: Seq<Seq<char>>) -> bool;

/// Whether the glob with this pattern matches the path that holds the given
/// bytes.
pub uninterp spec fn glob_matches(pattern: Seq<char>, path: Seq<u8>) -> bool;

/// `GlobSet::empty`. Trusted: the set holds no glob.
pub assume_specification[ GlobSet::empty ]() -> (set: GlobSet)
    ensures
        glob_set_patterns(set) == Seq::<Seq<char>>::empty(),
;

/// `Glob::new`. Trusted: whether the pattern parses depends on its text alone,
/// and the glob keeps that text as its pattern.
pub assume_specification[ Glob::new ](glob: &str) -> (parsed: Result<Glob, globset::Error>)
    ensures
        parsed is Ok <==> is_glob(glob@),
        parsed matches Ok(g) ==> glob_pattern(g) == glob@,
;

/// Calls `GlobSet::new`. Trusted: whether the globs can be compiled together
/// depends on their patterns alone, no globs always can, and the set holds the
/// given globs in their order.
#[verifier::external_body]
fn set_of(globs: &Vec<Glob>) -> (built: Result<GlobSet, globset::Error>)
    ensures
        built is Ok <==> globs_build(globs@.map_values(|glob: Glob| glob_pattern(glob))),
        globs.len() == 0 ==> built is Ok,
        built matches Ok(set) ==> glob_set_patterns(set) == globs@.map_values(
            |glob: Glob| glob_pattern(glob),
        ),
{
    GlobSet::new(globs)
}

/// Calls `GlobSet::is_match`. Trusted: the set matches where one of its globs
/// does, and whether a glob matches depends on its pattern and on the bytes of
/// the path alone.
#[verifier::external_body]
fn set_matches(set: &GlobSet, path: &PathBuf) -> (matched: bool)
    ensures
        matched <==> (exists|i: int|
            0 <= i < glob_set_patterns(*set).len() && #[trigger] glob_matches(
                glob_set_patterns(*set)[i],
                path_bytes(*path),
            )),
{
    set.is_match(path)
}

/// Whether some glob of the set matches the path.
pub open spec fn excludes(set: GlobSet, path: PathBuf) -> bool {
    exists|i: int|
        0 <= i < glob_set_patterns(set).len() && #[trigger] glob_matches(
            glob_set_patterns(set)[i],
            path_bytes(path),
        )
}

/// Whether the exclude globs match this path.
pub fn is_excluded(set: &GlobSet, path: &PathBuf) -> (r: bool)
    ensures
        r == excludes(*set, *path),
{
    set_matches(set, path)
}

/// The texts of some patterns.
pub open spec fn texts(patterns: Seq<String>) -> Seq<Seq<char>> {
    patterns.map_values(|pattern: String| pattern@)
}

/// Whether each of these patterns is a glob.
pub open spec fn are_globs(patterns: Seq<String>) -> bool {
    forall|i: int| 0 <= i < patterns.len() ==> is_glob((#[trigger] patterns[i])@)
}

/// Why the exclude globs could not be used.
pub enum ExcludeError {
    /// The pattern at this position is no glob; those before it are.
    Pattern(usize, globset::Error),
    /// Every pattern is a glob, but the set of them could not be built.
    Unbuildable(globset::Error),
}

/// Build the set of globs for these patterns, or report the first that is no
/// glob.
pub fn exclude_set(patterns: &Vec<String>) -> (built: Result<GlobSet, ExcludeError>)
    ensures
        built is Ok <==> are_globs(patterns@) && globs_build(texts(patterns@)),
        patterns.len() == 0 ==> built is Ok,
        match built {
            Ok(set) => glob_set_patterns(set) == texts(patterns@),
            Err(ExcludeError::Pattern(at, _)) => {
                &&& at < patterns.len()
                &&& !is_glob(patterns[at as int]@)
                &&& forall|i: int| 0 <= i < at ==> is_glob((#[trigger] patterns[i])@)
            },
            Err(ExcludeError::Unbuildable(_)) => {
                &&& are_globs(patterns@)
                &&& !globs_build(texts(patterns@))
            },
        },
{
    let mut globs: Vec<Glob> = Vec::new();
    let mut at: usize = 0;
    while at < patterns.len()
        invariant
            at <= patterns.len(),
            globs.len() == at,
            forall|i: int|
                0 <= i < at ==> is_glob((#[trigger] patterns[i])@) && glob_pattern(globs[i])
                    == patterns[i]@,
        decreases patterns.len() - at,
    {
        match Glob::new(patterns[at].as_str()) {
            Ok(glob) => globs.push(glob),
            Err(error) => return Err(ExcludeError::Pattern(at, error)),
        }
        at = at + 1;
    }
    assert(globs@.map_values(|glob: Glob| glob_pattern(glob)) == texts(patterns@));
    match set_of(&globs) {
        Ok(set) => Ok(set),
        Err(error) => Err(ExcludeError::Unbuildable(error)),
    }
}

/// The set built for some patterns matches a path where one of them does.
pub proof fn law_any_pattern_excludes(set: GlobSet, patterns: Seq<String>, path: PathBuf)
    requires
        glob_set_patterns(set) == texts(patterns),
    ensures
        excludes(set, path) <==> exists|i: int|
            0 <= i < patterns.len() && #[trigger] glob_matches(patterns[i]@, path_bytes(path)),
{
    if excludes(set, path) {
        let i = choose|i: int|
            0 <= i < texts(patterns).len() && #[trigger] glob_matches(
                texts(patterns)[i],
                path_bytes(path),
            );
        assert(glob_matches(patterns[i]@, path_bytes(path)));
    }
    if exists|i: int|
        0 <= i < patterns.len() && #[trigger] glob_matches(patterns[i]@, path_bytes(path)) {
        let i = choose|i: int|
            0 <= i < patterns.len() && #[trigger] glob_matches(patterns[i]@, path_bytes(path));
        assert(glob_matches(texts(patterns)[i], path_bytes(path)));
    }
}

/// A set of no globs matches nothing.
pub proof fn law_empty_set_excludes_nothing(set: GlobSet, path: PathBuf)
    requires
        glob_set_patterns(set).len() == 0,
    ensures
        !excludes(set, path),
{
}

/// Patterns are refused where one of them is no glob, wherever it stands, and
/// only there.
pub proof fn law_one_bad_pattern_is_enough(patterns: Seq<String>, pattern: String)
    ensures
        are_globs(Seq::empty()),
        are_globs(patterns.push(pattern)) <==> are_globs(patterns) && is_glob(pattern@),
        forall|i: int|
            0 <= i < patterns.len() && !is_glob((#[trigger] patterns[i])@) ==> !are_globs(patterns),
{
    let more = patterns.push(pattern);
    if are_globs(more) {
        assert(more[patterns.len() as int] == pattern);
        assert forall|i: int| 0 <= i < patterns.len() implies is_glob(
            (#[trigger] patterns[i])@,
        ) by {
            assert(more[i] == patterns[i]);
        }
    }
}

} // verus!
