//! Compiled included/excluded pattern sets.
//!
//! Patterns are glob expressions relative to the home root, compiled with
//! the `globset` crate.  A pattern whose text names an existing directory
//! under the root is expanded: a second glob with the recursive descendant
//! suffix is compiled beside it, so that the set also matches every path
//! nested under that directory.  The expansion looks at the filesystem
//! once, at compile time.  A path is selected when the included set matches
//! it and the excluded set does not: excluded wins on overlap.

use vstd::prelude::*;

use crate::errors::{Error, ErrorV};
use crate::fs::FsTree;
use crate::fs::{dir_at, EntryV};
use crate::paths::{join_path, join_seq};

verus! {

#[verifier::external_type_specification]
#[verifier::external_body]
pub struct ExGlobSet(globset::GlobSet);

/// Whether `globset` compiles `pattern`: the success of
/// `globset::Glob::new` followed by `globset::GlobSetBuilder::build` on
/// that one glob — syntax and compiled size together — a function of the
/// pattern text alone.
pub uninterp spec fn glob_syntax_ok(pattern: Seq<char>) -> bool;

/// Whether the glob compiled from `pattern` matches `path`: the result of
/// `globset::GlobSet::is_match` on the one-glob set compiled from
/// `pattern`, a function of the two texts alone.
pub uninterp spec fn glob_match(pattern: Seq<char>, path: Seq<char>) -> bool;

/// One glob pattern: its text and the one-glob set compiled from it.
#[derive(Debug)]
pub(crate) struct GlobPattern {
    text: String,
    matcher: globset::GlobSet,
}

impl View for GlobPattern {
    type V = Seq<char>;

    closed spec fn view(&self) -> Seq<char> {
        self.text@
    }
}

impl GlobPattern {
    /// Relies on `globset::Glob::new` and `globset::GlobSetBuilder::build`:
    /// a pattern compiles exactly when the parse and the build both
    /// succeed, and the compiled set is a function of the pattern text.
    /// Both steps are fallible — the build reports, rather than aborts
    /// on, a pattern whose compiled form exceeds globset's size limit.
    #[verifier::external_body]
    pub(crate) fn compile(pattern: &str) -> (r: Result<GlobPattern, Error>)
        ensures
            match r {
                Ok(g) => glob_syntax_ok(pattern@) && g@ == pattern@,
                Err(e) => !glob_syntax_ok(pattern@) && e@ == (ErrorV::Pattern {
                    pattern: pattern@,
                }),
            },
    {
        match globset::Glob::new(pattern) {
            Ok(glob) => {
                let mut builder = globset::GlobSetBuilder::new();
                builder.add(glob);
                match builder.build() {
                    Ok(set) => Ok(GlobPattern { text: pattern.to_owned(), matcher: set }),
                    Err(_) => Err(Error::Pattern { pattern: pattern.to_owned() }),
                }
            },
            Err(_) => Err(Error::Pattern { pattern: pattern.to_owned() }),
        }
    }

    /// Relies on `globset::GlobSet::is_match`: whether the one glob
    /// compiled from this pattern matches `path`.
    #[verifier::external_body]
    pub(crate) fn is_match(&self, path: &str) -> (r: bool)
        ensures
            r == glob_match(self@, path@),
    {
        self.matcher.is_match(path)
    }
}

/// Whether any pattern of `pats` matches `path`.
pub open spec fn any_match(pats: Seq<Seq<char>>, path: Seq<char>) -> bool {
    exists|i: int| 0 <= i < pats.len() && glob_match(#[trigger] pats[i], path)
}

/// The recursive descendant form of a directory pattern.
pub open spec fn descend(p: Seq<char>) -> Seq<char> {
    p + seq!['/', '*', '*']
}

/// What compiling `pats` against `root` over the filesystem `m` yields:
/// the glob forms in order — each pattern, preceded by nothing and
/// followed by its descendant form when its text names an existing
/// directory — or the first pattern text that `globset` refuses.
pub open spec fn compile_spec(
    m: Map<Seq<char>, EntryV>,
    root: Seq<char>,
    pats: Seq<Seq<char>>,
) -> Result<Seq<Seq<char>>, ErrorV>
    decreases pats.len(),
{
    if pats.len() == 0 {
        Result::Ok(Seq::empty())
    } else {
        match compile_spec(m, root, pats.drop_last()) {
            Result::Err(e) => Result::Err(e),
            Result::Ok(front) => {
                let p = pats.last();
                if !glob_syntax_ok(p) {
                    Result::Err(ErrorV::Pattern { pattern: p })
                } else if dir_at(m, join_seq(root, p)) {
                    if !glob_syntax_ok(descend(p)) {
                        Result::Err(ErrorV::Pattern { pattern: descend(p) })
                    } else {
                        Result::Ok(front + seq![p, descend(p)])
                    }
                } else {
                    Result::Ok(front.push(p))
                }
            },
        }
    }
}

/// A failure while compiling a prefix of the patterns is the failure of
/// the whole compilation.
proof fn lemma_compile_spec_err(
    m: Map<Seq<char>, EntryV>,
    root: Seq<char>,
    pats: Seq<Seq<char>>,
    n: int,
)
    requires
        0 <= n <= pats.len(),
        compile_spec(m, root, pats.take(n)) is Err,
    ensures
        compile_spec(m, root, pats) == compile_spec(m, root, pats.take(n)),
    decreases pats.len() - n,
{
    if n < pats.len() {
        assert(pats.take(n + 1).drop_last() =~= pats.take(n));
        lemma_compile_spec_err(m, root, pats, n + 1);
    } else {
        assert(pats.take(n) =~= pats);
    }
}

/// A compiled sequence of glob patterns with union semantics: the set
/// matches a path when any of its globs does.
#[derive(Debug)]
pub struct PatternSet {
    globs: Vec<GlobPattern>,
}

impl View for PatternSet {
    type V = Seq<Seq<char>>;

    closed spec fn view(&self) -> Seq<Seq<char>> {
        Seq::new(self.globs@.len(), |i: int| self.globs@[i]@)
    }
}

impl PatternSet {
    /// Compiles `patterns` against `root`, expanding each pattern that
    /// names an existing directory with its recursive descendant form.
    pub fn compile(fs: &FsTree, root: &str, patterns: &Vec<String>) -> (r: Result<
        PatternSet,
        Error,
    >)
        requires
            fs.wf(),
        ensures
            match r {
                Ok(ps) => compile_spec(fs@, root@, patterns.deep_view()) == Result::<
                    Seq<Seq<char>>,
                    ErrorV,
                >::Ok(ps@),
                Err(e) => compile_spec(fs@, root@, patterns.deep_view()) == Result::<
                    Seq<Seq<char>>,
                    ErrorV,
                >::Err(e@),
            },
    {
        let ghost all = patterns.deep_view();
        let n: usize = patterns.len();
        let mut globs: Vec<GlobPattern> = Vec::new();
        let mut i: usize = 0;
        proof {
            assert(all.take(0) =~= Seq::<Seq<char>>::empty());
            assert(Seq::new(globs@.len(), |t: int| globs@[t]@) =~= Seq::<Seq<char>>::empty());
        }
        while i < n
            invariant
                fs.wf(),
                n == patterns@.len(),
                all == patterns.deep_view(),
                i <= n,
                compile_spec(fs@, root@, all.take(i as int)) == Result::<
                    Seq<Seq<char>>,
                    ErrorV,
                >::Ok(Seq::new(globs@.len(), |t: int| globs@[t]@)),
            decreases n - i,
        {
            let ghost front = Seq::new(globs@.len(), |t: int| globs@[t]@);
            let p: &String = &patterns[i];
            proof {
                assert(all.take(i as int + 1).drop_last() =~= all.take(i as int));
                assert(all[i as int] == p@);
            }
            match GlobPattern::compile(p.as_str()) {
                Err(e) => {
                    proof {
                        lemma_compile_spec_err(fs@, root@, all, i as int + 1);
                    }
                    return Err(e);
                },
                Ok(g) => {
                    globs.push(g);
                },
            }
            let joined: String = join_path(root, p.as_str());
            if fs.is_dir(&joined) {
                let mut ext: String = p.clone();
                ext.append("/**");
                proof {
                    reveal_strlit("/**");
                    assert(ext@ =~= descend(p@));
                }
                match GlobPattern::compile(ext.as_str()) {
                    Err(e) => {
                        proof {
                            lemma_compile_spec_err(fs@, root@, all, i as int + 1);
                        }
                        return Err(e);
                    },
                    Ok(g) => {
                        globs.push(g);
                        proof {
                            assert(Seq::new(globs@.len(), |t: int| globs@[t]@) =~= front + seq![
                                p@,
                                descend(p@),
                            ]);
                        }
                    },
                }
            } else {
                proof {
                    assert(Seq::new(globs@.len(), |t: int| globs@[t]@) =~= front.push(p@));
                }
            }
            i = i + 1;
        }
        proof {
            assert(all.take(n as int) =~= all);
        }
        Ok(PatternSet { globs })
    }

    /// Whether any pattern of the set matches `path`.
    pub fn matches(&self, path: &str) -> (r: bool)
        ensures
            r == any_match(self@, path@),
    {
        let n: usize = self.globs.len();
        let mut i: usize = 0;
        while i < n
            invariant
                n == self.globs@.len(),
                i <= n,
                forall|j: int| 0 <= j < i ==> !glob_match(self@[j], path@),
            decreases n - i,
        {
            if self.globs[i].is_match(path) {
                proof {
                    assert(glob_match(self@[i as int], path@));
                }
                return true;
            }
            i = i + 1;
        }
        false
    }
}

/// A path is selected when the included set matches it and the excluded set
/// does not: excluded always wins on overlap.
pub open spec fn selected(inc: Seq<Seq<char>>, exc: Seq<Seq<char>>, path: Seq<char>) -> bool {
    any_match(inc, path) && !any_match(exc, path)
}

/// The included and excluded pattern sets of a configuration, compiled.
#[derive(Debug)]
pub struct Matchers {
    pub included: PatternSet,
    pub excluded: PatternSet,
}

impl Matchers {
    /// Compiles the included patterns, then the excluded patterns; the
    /// first refused pattern text is reported.
    pub fn compile(fs: &FsTree, root: &str, included: &Vec<String>, excluded: &Vec<String>) -> (r:
        Result<Matchers, Error>)
        requires
            fs.wf(),
        ensures
            match r {
                Ok(ms) => compile_spec(fs@, root@, included.deep_view()) == Result::<
                    Seq<Seq<char>>,
                    ErrorV,
                >::Ok(ms.included@) && compile_spec(fs@, root@, excluded.deep_view()) == Result::<
                    Seq<Seq<char>>,
                    ErrorV,
                >::Ok(ms.excluded@),
                Err(e) => compile_spec(fs@, root@, included.deep_view()) == Result::<
                    Seq<Seq<char>>,
                    ErrorV,
                >::Err(e@) || (compile_spec(fs@, root@, included.deep_view()) is Ok && compile_spec(
                    fs@,
                    root@,
                    excluded.deep_view(),
                ) == Result::<Seq<Seq<char>>, ErrorV>::Err(e@)),
            },
    {
        let inc: PatternSet = match PatternSet::compile(fs, root, included) {
            Ok(ps) => ps,
            Err(e) => {
                return Err(e);
            },
        };
        let exc: PatternSet = match PatternSet::compile(fs, root, excluded) {
            Ok(ps) => ps,
            Err(e) => {
                return Err(e);
            },
        };
        Ok(Matchers { included: inc, excluded: exc })
    }

    /// Whether `path` is selected: included and not excluded.
    pub fn matches(&self, path: &str) -> (r: bool)
        ensures
            r == selected(self.included@, self.excluded@, path@),
    {
        self.included.matches(path) && !self.excluded.matches(path)
    }
}

} // verus!
