//! The engine's configuration.
//!
//! An ordered list of inclusion patterns and an ordered list of exclusion
//! patterns, both glob syntax, both relative to the home root.  Order is
//! irrelevant to matching but is preserved here so that loading and saving
//! the configuration round-trips.  Loading and saving themselves are the
//! business of the unverified shell; this module holds the value and the
//! list edits the commands perform.

use vstd::prelude::*;

verus! {

/// The pattern configuration.  When a path is matched by both lists, the
/// exclusion wins.
pub struct FilesConfig {
    /// Patterns for the paths to manage, relative to the home root.
    pub included: Vec<String>,
    /// Patterns for the paths never to manage, relative to the home root.
    pub excluded: Vec<String>,
}

impl FilesConfig {
    /// The default inclusion patterns: the configuration file itself.
    pub fn default_include() -> (r: Vec<String>)
        ensures
            r.deep_view() == seq![".dotbak/config.toml"@],
    {
        let mut v: Vec<String> = Vec::new();
        v.push(".dotbak/config.toml".to_owned());
        proof {
            assert(v.deep_view() =~= seq![".dotbak/config.toml"@]);
        }
        v
    }

    /// The default exclusion patterns: the storage tree itself.
    pub fn default_exclude() -> (r: Vec<String>)
        ensures
            r.deep_view() == seq![".dotbak/dotfiles"@],
    {
        let mut v: Vec<String> = Vec::new();
        v.push(".dotbak/dotfiles".to_owned());
        proof {
            assert(v.deep_view() =~= seq![".dotbak/dotfiles"@]);
        }
        v
    }
}

impl Default for FilesConfig {
    /// The default pattern configuration.
    fn default() -> (r: FilesConfig)
        ensures
            r.included.deep_view() == seq![".dotbak/config.toml"@],
            r.excluded.deep_view() == seq![".dotbak/dotfiles"@],
    {
        FilesConfig { included: FilesConfig::default_include(), excluded: FilesConfig::default_exclude() }
    }
}

/// The whole configuration: where the configuration file itself lives,
/// the URL of the remote repository, and the pattern configuration.
pub struct Config {
    /// The location of the configuration file; set by whoever loads the
    /// configuration, never stored in the file.
    pub path: String,
    /// The URL of the remote repository, if one is configured.
    pub repository_url: Option<String>,
    /// The pattern configuration.
    pub files: FilesConfig,
}

impl Default for Config {
    /// The default configuration: no path, no remote, default patterns.
    fn default() -> (r: Config)
        ensures
            r.path@ == Seq::<char>::empty(),
            r.repository_url is None,
            r.files.included.deep_view() == seq![".dotbak/config.toml"@],
            r.files.excluded.deep_view() == seq![".dotbak/dotfiles"@],
    {
        Config { path: String::new(), repository_url: None, files: FilesConfig::default() }
    }
}

/// `pats` with every occurrence of `d` removed, order kept.
pub open spec fn without(pats: Seq<Seq<char>>, d: Seq<char>) -> Seq<Seq<char>>
    decreases pats.len(),
{
    if pats.len() == 0 {
        Seq::empty()
    } else if pats.last() == d {
        without(pats.drop_last(), d)
    } else {
        without(pats.drop_last(), d).push(pats.last())
    }
}

impl Config {
    /// Appends a pattern to the inclusion list; nothing else changes.
    pub fn add_dotfile(&mut self, dotfile: String)
        ensures
            final(self).files.included@ == old(self).files.included@.push(dotfile),
            final(self).files.excluded == old(self).files.excluded,
            final(self).path == old(self).path,
            final(self).repository_url == old(self).repository_url,
    {
        self.files.included.push(dotfile);
    }

    /// Removes every occurrence of a pattern from the inclusion list,
    /// keeping the order of the rest; nothing else changes.
    pub fn remove_dotfile(&mut self, dotfile: &String)
        ensures
            final(self).files.included.deep_view() == without(
                old(self).files.included.deep_view(),
                dotfile@,
            ),
            final(self).files.excluded == old(self).files.excluded,
            final(self).path == old(self).path,
            final(self).repository_url == old(self).repository_url,
    {
        let ghost all = self.files.included.deep_view();
        let n: usize = self.files.included.len();
        let mut kept: Vec<String> = Vec::new();
        let mut i: usize = 0;
        proof {
            assert(all.take(0) =~= Seq::<Seq<char>>::empty());
            assert(kept.deep_view() =~= without(all.take(0), dotfile@));
        }
        while i < n
            invariant
                n == self.files.included@.len(),
                all == self.files.included.deep_view(),
                i <= n,
                kept.deep_view() == without(all.take(i as int), dotfile@),
            decreases n - i,
        {
            let ghost pre = kept.deep_view();
            let entry: &String = &self.files.included[i];
            proof {
                assert(all.take(i as int + 1).drop_last() =~= all.take(i as int));
                assert(all.take(i as int + 1).last() == entry@);
            }
            if !(*entry == *dotfile) {
                kept.push(entry.clone());
                proof {
                    let s1 = all.take(i as int + 1);
                    assert(s1.len() == i + 1);
                    assert(s1.last() == entry@);
                    assert(s1.drop_last() == all.take(i as int));
                    assert(without(s1, dotfile@) == without(s1.drop_last(), dotfile@).push(
                        s1.last(),
                    ));
                    assert(kept.deep_view() =~= pre.push(entry@));
                    assert(without(all.take(i as int + 1), dotfile@) == pre.push(entry@));
                }
            } else {
                proof {
                    let s1 = all.take(i as int + 1);
                    assert(s1.len() == i + 1);
                    assert(s1.last() == entry@);
                    assert(s1.drop_last() == all.take(i as int));
                    assert(without(s1, dotfile@) == without(s1.drop_last(), dotfile@));
                    assert(without(all.take(i as int + 1), dotfile@) == pre);
                }
            }
            i = i + 1;
        }
        proof {
            assert(all.take(n as int) =~= all);
        }
        self.files.included = kept;
    }
}

} // verus!
