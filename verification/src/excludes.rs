//! Exclude patterns: globs relative to a library root, compiled once per
//! scan with `globset`.
use vstd::prelude::*;

use globset::{Error as GlobError, Glob, GlobSet, GlobSetBuilder};

verus! {

#[verifier::external_type_specification]
#[verifier::external_body]
pub struct ExGlob(Glob);

#[verifier::external_type_specification]
#[verifier::external_body]
pub struct ExGlobSet(GlobSet);

#[verifier::external_type_specification]
#[verifier::external_body]
pub struct ExGlobSetBuilder(GlobSetBuilder);

#[verifier::external_type_specification]
#[verifier::external_body]
pub struct ExGlobError(GlobError);

/// Whether `Glob::new` accepts a pattern.
pub uninterp spec fn glob_parses(pattern: Seq<char>) -> bool;

/// The pattern text a `Glob` was made from (what `Glob::glob` returns).
pub uninterp spec fn glob_text(g: Glob) -> Seq<char>;

/// The patterns added to a builder so far, in order.
pub uninterp spec fn builder_patterns(b: GlobSetBuilder) -> Seq<Seq<char>>;

/// Whether `GlobSetBuilder::build` succeeds on these patterns.
pub uninterp spec fn glob_set_builds(patterns: Seq<Seq<char>>) -> bool;

/// The patterns a built set holds.
pub uninterp spec fn set_patterns(s: GlobSet) -> Seq<Seq<char>>;

/// Whether any of the patterns matches the path.
pub uninterp spec fn globs_match(patterns: Seq<Seq<char>>, path: Seq<char>) -> bool;

/// `Glob::new`: parses one pattern. The result depends on the text alone;
/// a parsed glob remembers its text.
#[verifier::external_body]
fn parse_glob(pattern: &str) -> (r: Result<Glob, GlobError>)
    ensures
        r is Ok <==> glob_parses(pattern@),
        r matches Ok(g) ==> glob_text(g) == pattern@,
{
    Glob::new(pattern)
}

/// `GlobSetBuilder::new`: a builder holding no patterns.
#[verifier::external_body]
fn new_builder() -> (b: GlobSetBuilder)
    ensures
        builder_patterns(b) == Seq::<Seq<char>>::empty(),
{
    GlobSetBuilder::new()
}

/// `GlobSetBuilder::add`: appends the glob to the builder's list.
#[verifier::external_body]
fn add_glob(b: &mut GlobSetBuilder, g: Glob)
    ensures
        builder_patterns(*final(b)) == builder_patterns(*old(b)).push(glob_text(g)),
{
    b.add(g);
}

/// `GlobSetBuilder::build`: a set of exactly the added patterns, unless
/// compiling them fails.
#[verifier::external_body]
fn build_set(b: &GlobSetBuilder) -> (r: Result<GlobSet, GlobError>)
    ensures
        r is Ok <==> glob_set_builds(builder_patterns(*b)),
        r matches Ok(s) ==> set_patterns(s) == builder_patterns(*b),
{
    b.build()
}

/// `GlobSet::is_empty`: whether the set holds no pattern.
#[verifier::external_body]
pub(crate) fn set_is_empty(s: &GlobSet) -> (r: bool)
    ensures
        r == (set_patterns(*s).len() == 0),
{
    s.is_empty()
}

/// `GlobSet::is_match`: whether any pattern of the set matches `path`. An
/// empty set matches nothing.
#[verifier::external_body]
pub(crate) fn set_matches(s: &GlobSet, path: &str) -> (r: bool)
    ensures
        r == globs_match(set_patterns(*s), path@),
        set_patterns(*s).len() == 0 ==> !r,
{
    s.is_match(path)
}

/// What compiling the patterns gives: the error of the first pattern that
/// does not parse, a failed build, or a set of all the patterns.
pub open spec fn all_parse(patterns: Seq<Seq<char>>) -> bool {
    forall|i: int| 0 <= i < patterns.len() ==> glob_parses(#[trigger] patterns[i])
}

/// Compile exclude globs. Patterns are relative to the root.
pub fn compile_excludes(patterns: &[String]) -> (r: Result<GlobSet, GlobError>)
    ensures
        r is Ok <==> all_parse(patterns@.map_values(|p: String| p@)) && glob_set_builds(
            patterns@.map_values(|p: String| p@),
        ),
        r matches Ok(s) ==> set_patterns(s) == patterns@.map_values(|p: String| p@),
{
    let ghost pv = patterns@.map_values(|p: String| p@);
    let mut b = new_builder();
    let mut i: usize = 0;
    while i < patterns.len()
        invariant
            i <= patterns.len(),
            pv == patterns@.map_values(|p: String| p@),
            builder_patterns(b) == pv.take(i as int),
            forall|k: int| 0 <= k < i ==> glob_parses(#[trigger] pv[k]),
        decreases patterns.len() - i,
    {
        let g = match parse_glob(patterns[i].as_str()) {
            Ok(g) => g,
            Err(e) => {
                proof {
                    assert(pv[i as int] == patterns@[i as int]@);
                    assert(!glob_parses(pv[i as int]));
                }
                return Err(e);
            },
        };
        proof {
            assert(pv[i as int] == patterns@[i as int]@);
        }
        add_glob(&mut b, g);
        proof {
            assert(pv.take(i + 1) =~= pv.take(i as int).push(pv[i as int]));
        }
        i = i + 1;
    }
    proof {
        assert(pv.take(patterns.len() as int) =~= pv);
    }
    build_set(&b)
}

} // verus!
