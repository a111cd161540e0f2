use vstd::prelude::*;
use crate::options::strings_view;

verus! {

#[verifier::external_type_specification]
#[verifier::external_body]
pub struct ExGlob(globset::Glob);

#[verifier::external_type_specification]
#[verifier::external_body]
pub struct ExGlobSet(globset::GlobSet);

#[verifier::external_type_specification]
#[verifier::external_body]
pub struct ExGlobError(globset::Error);

/// Whether globset accepts `pattern` as glob syntax.
pub uninterp spec fn glob_valid(pattern: Seq<char>) -> bool;

/// The pattern text that a compiled glob was built from.
pub uninterp spec fn glob_text(g: globset::Glob) -> Seq<char>;

/// Whether a compiled set matches `path`.
pub uninterp spec fn set_matches(s: globset::GlobSet, path: Seq<char>) -> bool;

/// Whether globset builds a set from globs with these pattern texts: it
/// fails only when the matcher compiled from them cannot be built.
pub uninterp spec fn set_builds(patterns: Seq<Seq<char>>) -> bool;

/// Whether the glob `pattern` matches `path`.
pub uninterp spec fn glob_match(pattern: Seq<char>, path: Seq<char>) -> bool;

/// Whether at least one of `patterns` matches `path`.
pub open spec fn matches_any(patterns: Seq<Seq<char>>, path: Seq<char>) -> bool {
    exists|i: int| 0 <= i < patterns.len() && glob_match(#[trigger] patterns[i], path)
}

/// Whether a path passes: every path when no patterns are given, else those
/// that match at least one pattern.
pub open spec fn admits_path(patterns: Option<Seq<Seq<char>>>, path: Seq<char>) -> bool {
    match patterns {
        None => true,
        Some(p) => matches_any(p, path),
    }
}

/// Relies on globset::Glob::new: it fails exactly on invalid glob syntax,
/// and the glob keeps its pattern text (what Glob::glob returns).
#[verifier::external_body]
fn compile_glob(pattern: &str) -> (r: Result<globset::Glob, globset::Error>)
    ensures
        r is Ok == glob_valid(pattern@),
        r matches Ok(g) ==> glob_text(g) == pattern@,
{
    globset::Glob::new(pattern)
}

/// Relies on globset::GlobSet::new: whether it succeeds depends on the
/// globs alone, and the set it builds matches a path exactly when one of
/// the globs does.
#[verifier::external_body]
fn build_glob_set(globs: &Vec<globset::Glob>) -> (r: Result<globset::GlobSet, globset::Error>)
    ensures
        r is Ok == set_builds(globs@.map_values(|g: globset::Glob| glob_text(g))),
        r matches Ok(s) ==> forall|p: Seq<char>| #[trigger] set_matches(s, p) == (exists|i: int| 0 <= i < globs@.len() && glob_match(glob_text(#[trigger] globs@[i]), p)),
{
    globset::GlobSet::new(globs.iter())
}

/// Relies on globset::GlobSet::is_match: true if any glob in the set matches
/// the path.
#[verifier::external_body]
fn glob_set_matches(set: &globset::GlobSet, path: &str) -> (r: bool)
    ensures
        r == set_matches(*set, path@),
{
    set.is_match(path)
}

/// Decides which paths a run looks at: every path when no patterns were
/// given, else those that match at least one pattern.
pub struct PathFilter {
    set: Option<globset::GlobSet>,
    patterns: Ghost<Option<Seq<Seq<char>>>>,
}

impl PathFilter {
    /// The patterns in force, or `None` when every path passes.
    pub closed spec fn patterns(&self) -> Option<Seq<Seq<char>>> {
        self.patterns@
    }

    pub closed spec fn wf(&self) -> bool {
        match self.set {
            None => self.patterns@ is None,
            Some(s) => self.patterns@ matches Some(p) && forall|path: Seq<char>|
                #[trigger] set_matches(s, path) == matches_any(p, path),
        }
    }

    /// Whether a path passes the filter.
    pub open spec fn admits(&self, path: Seq<char>) -> bool {
        admits_path(self.patterns(), path)
    }

    /// Compiles the patterns, if any. An invalid pattern is an error.
    pub fn new(patterns: &Option<Vec<String>>) -> (r: Result<PathFilter, crate::error::ConfigError>)
        ensures
            patterns is None ==> r is Ok,
            patterns matches Some(p) ==> (r is Ok <==> (forall|i: int|
                0 <= i < p@.len() ==> glob_valid(#[trigger] p@[i]@)) && set_builds(
                strings_view(p@),
            )),
            r matches Err(e) ==> e is InvalidGlobPattern,
            r matches Ok(f) ==> f.wf(),
            r matches Ok(f) ==> match patterns {
                None => f.patterns() is None,
                Some(p) => f.patterns() == Some(strings_view(p@)),
            },
    {
        match patterns {
            None => Ok(PathFilter { set: None, patterns: Ghost(None) }),
            Some(p) => {
                let mut globs: Vec<globset::Glob> = Vec::new();
                let mut i: usize = 0;
                while i < p.len()
                    invariant
                        0 <= i <= p@.len(),
                        *patterns == Some(*p),
                        globs@.map_values(|g: globset::Glob| glob_text(g)) =~= strings_view(
                            p@.take(i as int),
                        ),
                        forall|k: int| 0 <= k < i ==> glob_valid(#[trigger] p@[k]@),
                    decreases p@.len() - i,
                {
                    match compile_glob(p[i].as_str()) {
                        Ok(g) => {
                            let ghost before = globs@;
                            globs.push(g);
                            assert(p@.take(i + 1) =~= p@.take(i as int).push(p@[i as int]));
                            assert(globs@.map_values(|g: globset::Glob| glob_text(g))
                                =~= before.map_values(|g: globset::Glob| glob_text(g)).push(p@[i as int]@));
                            assert(strings_view(p@.take(i + 1))
                                =~= strings_view(p@.take(i as int)).push(p@[i as int]@));
                        },
                        Err(_) => {
                            assert(!glob_valid(p@[i as int]@));
                            return Err(crate::error::ConfigError::InvalidGlobPattern);
                        },
                    }
                    i = i + 1;
                }
                assert(p@.take(p@.len() as int) =~= p@);
                match build_glob_set(&globs) {
                    Ok(s) => {
                        let ghost texts = strings_view(p@);
                        assert forall|path: Seq<char>| #[trigger]
                            set_matches(s, path) == matches_any(texts, path) by {
                            if set_matches(s, path) {
                                let i = choose|i: int|
                                    0 <= i < globs@.len() && glob_match(
                                        glob_text(#[trigger] globs@[i]),
                                        path,
                                    );
                                assert(texts[i] == glob_text(globs@[i]));
                            }
                            if matches_any(texts, path) {
                                let i = choose|i: int|
                                    0 <= i < texts.len() && glob_match(#[trigger] texts[i], path);
                                assert(texts[i] == glob_text(globs@[i]));
                            }
                        }
                        Ok(PathFilter { set: Some(s), patterns: Ghost(Some(texts)) })
                    },
                    Err(_) => Err(crate::error::ConfigError::InvalidGlobPattern),
                }
            },
        }
    }

    /// Whether a path passes the filter.
    pub fn is_match(&self, path: &str) -> (r: bool)
        requires
            self.wf(),
        ensures
            r == self.admits(path@),
    {
        match &self.set {
            None => true,
            Some(s) => glob_set_matches(s, path),
        }
    }
}

} // verus!
