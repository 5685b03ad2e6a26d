//! A model of the filesystem subtrees the engine works on.
//!
//! The filesystem is a finite map from absolute paths to entries: regular
//! files with their content, directories, and symbolic links with their
//! literal target.  A well-formed tree is closed under parents: every
//! directory above an entry is itself present as a directory.  The engine
//! is verified against this model; the unverified shell mirrors each
//! mutation onto the real filesystem by replaying the actions the engine
//! returns.

use vstd::prelude::*;

use crate::errors::{Error, ErrorV};
use crate::paths::{
    at_or_under, is_at_or_under, lemma_at_or_under_trans, lemma_remap_roundtrip, remap_path,
    remap_under, under_dir,
};

verus! {

/// One entry of the filesystem: a regular file with its content, a
/// directory, or a symbolic link with its literal, unresolved target.
#[derive(Debug)]
pub enum FsEntry {
    File(Vec<u8>),
    Dir,
    Symlink(String),
}

/// The mathematical value of an [`FsEntry`].
pub enum EntryV {
    File(Seq<u8>),
    Dir,
    Symlink(Seq<char>),
}

impl View for FsEntry {
    type V = EntryV;

    open spec fn view(&self) -> EntryV {
        match self {
            FsEntry::File(content) => EntryV::File(content@),
            FsEntry::Dir => EntryV::Dir,
            FsEntry::Symlink(target) => EntryV::Symlink(target@),
        }
    }
}

/// A directory sits at `path` in `m`.
pub open spec fn dir_at(m: Map<Seq<char>, EntryV>, path: Seq<char>) -> bool {
    m.dom().contains(path) && m[path] is Dir
}

/// Every directory above `path` (every proper prefix ending at a `/`
/// boundary) is present in `m` as a directory.
pub open spec fn parents_ok(m: Map<Seq<char>, EntryV>, path: Seq<char>) -> bool {
    forall|kp: Seq<char>|
        kp.len() > 0 && #[trigger] under_dir(path, kp) ==> m.dom().contains(kp) && m[kp] is Dir
}

/// No directory position above `path` is occupied by a non-directory.
pub open spec fn parents_clear(m: Map<Seq<char>, EntryV>, path: Seq<char>) -> bool {
    forall|kp: Seq<char>|
        kp.len() > 0 && #[trigger] under_dir(path, kp) && m.dom().contains(kp) ==> m[kp] is Dir
}

/// The tree is closed under parents: every entry's ancestors are present
/// as directories.
pub open spec fn tree_closed(m: Map<Seq<char>, EntryV>) -> bool {
    forall|k: Seq<char>, kp: Seq<char>|
        #![trigger m.dom().contains(k), under_dir(k, kp)]
        m.dom().contains(k) && kp.len() > 0 && under_dir(k, kp) ==> m.dom().contains(kp)
            && m[kp] is Dir
}

/// `m` with a directory at every position above `path` that was free.
pub open spec fn with_parent_dirs(
    m: Map<Seq<char>, EntryV>,
    path: Seq<char>,
) -> Map<Seq<char>, EntryV> {
    Map::new(
        |k: Seq<char>| m.dom().contains(k) || (k.len() > 0 && under_dir(path, k)),
        |k: Seq<char>| if m.dom().contains(k) { m[k] } else { EntryV::Dir },
    )
}

/// When a move of `from` onto `to` succeeds: the source exists, the
/// destination is free, the directories above the destination exist, and
/// the destination does not lie inside the moved subtree.
pub open spec fn rename_ok(m: Map<Seq<char>, EntryV>, from: Seq<char>, to: Seq<char>) -> bool {
    &&& from.len() > 0
    &&& to.len() > 0
    &&& m.dom().contains(from)
    &&& !m.dom().contains(to)
    &&& parents_ok(m, to)
    &&& !at_or_under(to, from)
}

/// `m` with a directory at every position above `path`, counting only
/// positions before `n`; the intermediate states of directory creation.
spec fn with_parents_upto(m: Map<Seq<char>, EntryV>, path: Seq<char>, n: int) -> Map<
    Seq<char>,
    EntryV,
> {
    Map::new(
        |k: Seq<char>| m.dom().contains(k) || (0 < k.len() < n && under_dir(path, k)),
        |k: Seq<char>| if m.dom().contains(k) { m[k] } else { EntryV::Dir },
    )
}

/// The map after moving the whole subtree at `from` to `to`.
pub open spec fn rename_map(
    m: Map<Seq<char>, EntryV>,
    from: Seq<char>,
    to: Seq<char>,
) -> Map<Seq<char>, EntryV> {
    Map::new(
        |k: Seq<char>|
            if at_or_under(k, to) {
                m.dom().contains(remap_path(k, to, from))
            } else {
                m.dom().contains(k) && !at_or_under(k, from)
            },
        |k: Seq<char>|
            if at_or_under(k, to) {
                m[remap_path(k, to, from)]
            } else {
                m[k]
            },
    )
}

/// Where a key of the tree ends up under a move of the subtree at `from`
/// to `to`: re-anchored if it was in the subtree, untouched otherwise.
spec fn xkey(k: Seq<char>, from: Seq<char>, to: Seq<char>) -> Seq<char> {
    if at_or_under(k, from) {
        remap_path(k, from, to)
    } else {
        k
    }
}

/// Moving a subtree of a closed tree to a free position with existing
/// parent directories leaves the tree closed.
proof fn lemma_rename_closed(m0: Map<Seq<char>, EntryV>, from: Seq<char>, to: Seq<char>)
    requires
        tree_closed(m0),
        rename_ok(m0, from, to),
    ensures
        tree_closed(rename_map(m0, from, to)),
{
    let m1 = rename_map(m0, from, to);
    assert forall|k: Seq<char>, kp: Seq<char>|
        #![trigger m1.dom().contains(k), under_dir(k, kp)]
        m1.dom().contains(k) && kp.len() > 0 && under_dir(k, kp) implies m1.dom().contains(kp)
        && m1[kp] is Dir by {
        if !at_or_under(k, to) {
            assert(m0.dom().contains(k) && !at_or_under(k, from));
            assert(m0.dom().contains(kp) && m0[kp] is Dir);
            if at_or_under(kp, from) {
                lemma_at_or_under_trans(k, kp, from);
                assert(false);
            }
            if at_or_under(kp, to) {
                lemma_closed_no_orphans(m0, to, kp);
                assert(false);
            }
        } else {
            let k0 = remap_path(k, to, from);
            assert(m0.dom().contains(k0));
            lemma_remap_roundtrip(k, to, from);
            if kp.len() < to.len() {
                assert(under_dir(to, kp)) by {
                    assert(to.subrange(0, kp.len() as int) =~= kp);
                    assert(to[kp.len() as int] == k[kp.len() as int]);
                }
                assert(m0.dom().contains(kp) && m0[kp] is Dir);
                if at_or_under(kp, from) {
                    lemma_at_or_under_trans(to, kp, from);
                    assert(false);
                }
                assert(!at_or_under(kp, to));
            } else if kp.len() == to.len() {
                assert(k != to);
                assert(under_dir(k, to));
                assert(kp =~= to);
                assert(under_dir(k0, from)) by {
                    assert(k0.subrange(0, from.len() as int) =~= from);
                    assert(k0[from.len() as int] == k[to.len() as int]);
                }
                assert(m0.dom().contains(from) && m0[from] is Dir);
                lemma_remap_roundtrip(to, to, from);
                assert(remap_path(to, to, from) == from);
                assert(m1.dom().contains(to) && m1[to] is Dir);
            } else {
                assert(k != to);
                assert(under_dir(k, to));
                assert(under_dir(kp, to)) by {
                    assert(kp.subrange(0, to.len() as int) =~= to);
                    assert(kp[to.len() as int] == k[to.len() as int]);
                }
                let kp0 = remap_path(kp, to, from);
                lemma_remap_roundtrip(kp, to, from);
                assert(under_dir(k0, kp0)) by {
                    assert(k0.subrange(0, kp0.len() as int) =~= kp0);
                    assert(k0[kp0.len() as int] == k[kp.len() as int]);
                }
                assert(m0.dom().contains(kp0) && m0[kp0] is Dir);
                assert(m1.dom().contains(kp) && m1[kp] is Dir);
            }
        }
    }
}

/// In a closed tree, an absent directory has nothing below it.
pub proof fn lemma_closed_no_orphans(m: Map<Seq<char>, EntryV>, d: Seq<char>, k: Seq<char>)
    requires
        tree_closed(m),
        d.len() > 0,
        !m.dom().contains(d),
        m.dom().contains(k),
    ensures
        !at_or_under(k, d),
{
}

/// The filesystem model: a finite map from absolute paths to entries,
/// held as a list of distinct keyed entries.
pub struct FsTree {
    entries: Vec<(String, FsEntry)>,
}

/// The keys of `s` are pairwise distinct.
spec fn uniq_keys(s: Seq<(String, FsEntry)>) -> bool {
    forall|i: int, j: int| 0 <= i < j < s.len() ==> (#[trigger] s[i]).0@ != (#[trigger] s[j]).0@
}

/// The map held by a list of keyed entries; a later entry wins, though a
/// well-formed tree never holds a key twice.
spec fn entries_map(s: Seq<(String, FsEntry)>) -> Map<Seq<char>, EntryV>
    decreases s.len(),
{
    if s.len() == 0 {
        Map::empty()
    } else {
        entries_map(s.drop_last()).insert(s.last().0@, s.last().1@)
    }
}

impl View for FsTree {
    type V = Map<Seq<char>, EntryV>;

    closed spec fn view(&self) -> Map<Seq<char>, EntryV> {
        entries_map(self.entries@)
    }
}

proof fn lemma_map_absent(s: Seq<(String, FsEntry)>, k: Seq<char>)
    requires
        forall|i: int| 0 <= i < s.len() ==> (#[trigger] s[i]).0@ != k,
    ensures
        !entries_map(s).dom().contains(k),
    decreases s.len(),
{
    if s.len() > 0 {
        lemma_map_absent(s.drop_last(), k);
    }
}

proof fn lemma_map_present(s: Seq<(String, FsEntry)>, i: int)
    requires
        uniq_keys(s),
        0 <= i < s.len(),
    ensures
        entries_map(s).dom().contains(s[i].0@),
        entries_map(s)[s[i].0@] == s[i].1@,
    decreases s.len(),
{
    if i == s.len() - 1 {
    } else {
        lemma_map_present(s.drop_last(), i);
    }
}

proof fn lemma_map_covered(s: Seq<(String, FsEntry)>, k: Seq<char>)
    requires
        entries_map(s).dom().contains(k),
    ensures
        exists|i: int| 0 <= i < s.len() && (#[trigger] s[i]).0@ == k,
    decreases s.len(),
{
    if s.len() > 0 && s.last().0@ != k {
        lemma_map_covered(s.drop_last(), k);
        let i = choose|i: int| 0 <= i < s.drop_last().len() && (#[trigger] s.drop_last()[i]).0@ == k;
        assert(s[i].0@ == k);
    }
}

/// The one proof obligation of every mutation: a list of distinct keyed
/// entries holds exactly the map that characterises it element by element.
proof fn lemma_map_char(s: Seq<(String, FsEntry)>, m: Map<Seq<char>, EntryV>)
    requires
        uniq_keys(s),
        forall|i: int| 0 <= i < s.len() ==> m.dom().contains((#[trigger] s[i]).0@) && m[s[i].0@]
            == s[i].1@,
        forall|k: Seq<char>| #[trigger] m.dom().contains(k) ==> exists|i: int|
            0 <= i < s.len() && (#[trigger] s[i]).0@ == k,
    ensures
        entries_map(s) == m,
{
    assert forall|k: Seq<char>| #[trigger] entries_map(s).dom().contains(k) implies m.dom().contains(
        k,
    ) && entries_map(s)[k] == m[k] by {
        lemma_map_covered(s, k);
        let i = choose|i: int| 0 <= i < s.len() && (#[trigger] s[i]).0@ == k;
        lemma_map_present(s, i);
    }
    assert forall|k: Seq<char>| #[trigger] m.dom().contains(k) implies entries_map(s).dom().contains(
        k,
    ) by {
        let i = choose|i: int| 0 <= i < s.len() && (#[trigger] s[i]).0@ == k;
        lemma_map_present(s, i);
    }
    assert(entries_map(s) =~= m);
}

impl FsTree {
    /// The tree is well-formed: no key occurs twice, and the tree is
    /// closed under parents.
    pub closed spec fn wf(&self) -> bool {
        uniq_keys(self.entries@) && tree_closed(entries_map(self.entries@))
    }

    /// A well-formed tree is closed under parents.
    pub proof fn lemma_wf_closed(&self)
        requires
            self.wf(),
        ensures
            tree_closed(self@),
    {
    }

    /// An empty filesystem.
    pub fn new() -> (r: FsTree)
        ensures
            r.wf(),
            r@ == Map::<Seq<char>, EntryV>::empty(),
    {
        let r = FsTree { entries: Vec::new() };
        proof {
            assert(r@ =~= Map::<Seq<char>, EntryV>::empty());
        }
        r
    }

    fn find_index(&self, path: &String) -> (r: Option<usize>)
        ensures
            match r {
                Some(i) => i < self.entries@.len() && self.entries@[i as int].0@ == path@,
                None => forall|j: int|
                    0 <= j < self.entries@.len() ==> (#[trigger] self.entries@[j]).0@ != path@,
            },
    {
        let n: usize = self.entries.len();
        let mut i: usize = 0;
        while i < n
            invariant
                n == self.entries@.len(),
                i <= n,
                forall|j: int| 0 <= j < i ==> (#[trigger] self.entries@[j]).0@ != path@,
            decreases n - i,
        {
            if self.entries[i].0 == *path {
                return Some(i);
            }
            i = i + 1;
        }
        None
    }

    /// Looks a path up in the tree.
    pub fn lookup(&self, path: &String) -> (r: Option<&FsEntry>)
        requires
            self.wf(),
        ensures
            match r {
                Some(e) => self@.dom().contains(path@) && e@ == self@[path@],
                None => !self@.dom().contains(path@),
            },
    {
        match self.find_index(path) {
            Some(i) => {
                proof {
                    lemma_map_present(self.entries@, i as int);
                }
                Some(&self.entries[i].1)
            },
            None => {
                proof {
                    lemma_map_absent(self.entries@, path@);
                }
                None
            },
        }
    }

    /// Whether any entry exists at `path`.
    pub fn contains(&self, path: &String) -> (r: bool)
        requires
            self.wf(),
        ensures
            r == self@.dom().contains(path@),
    {
        match self.lookup(path) {
            Some(_) => true,
            None => false,
        }
    }

    /// Whether a directory sits at `path`.
    pub fn is_dir(&self, path: &String) -> (r: bool)
        requires
            self.wf(),
        ensures
            r == dir_at(self@, path@),
    {
        match self.lookup(path) {
            Some(e) => match e {
                FsEntry::Dir => true,
                _ => false,
            },
            None => false,
        }
    }

    /// Whether every directory above `path` is present as a directory.
    pub fn parents_all_dirs(&self, path: &String) -> (r: bool)
        requires
            self.wf(),
        ensures
            r == parents_ok(self@, path@),
    {
        let ps: &str = path.as_str();
        let n: usize = ps.unicode_len();
        let mut i: usize = 1;
        while i < n
            invariant
                self.wf(),
                n == path@.len(),
                ps@ == path@,
                1 <= i,
                i <= n || n < 1,
                forall|j: int|
                    1 <= j < i && path@[j] == '/' ==> self@.dom().contains(
                        #[trigger] path@.subrange(0, j),
                    ) && self@[path@.subrange(0, j)] is Dir,
            decreases n - i,
        {
            if ps.get_char(i) == '/' {
                let pre: String = ps.substring_char(0, i).to_owned();
                let ok: bool = self.is_dir(&pre);
                if !ok {
                    proof {
                        assert(under_dir(path@, pre@));
                    }
                    return false;
                }
            }
            i = i + 1;
        }
        proof {
            assert forall|kp: Seq<char>| kp.len() > 0 && #[trigger] under_dir(path@, kp) implies self@.dom().contains(
                kp,
            ) && self@[kp] is Dir by {
                let j = kp.len() as int;
                assert(path@.subrange(0, j) == kp);
                assert(path@[j] == '/');
            }
        }
        true
    }

    /// Whether no directory position above `path` is blocked by a
    /// non-directory entry.
    pub fn parents_unblocked(&self, path: &String) -> (r: bool)
        requires
            self.wf(),
        ensures
            r == parents_clear(self@, path@),
    {
        let ps: &str = path.as_str();
        let n: usize = ps.unicode_len();
        let mut i: usize = 1;
        while i < n
            invariant
                self.wf(),
                n == path@.len(),
                ps@ == path@,
                1 <= i,
                i <= n || n < 1,
                forall|j: int|
                    1 <= j < i && path@[j] == '/' && self@.dom().contains(
                        #[trigger] path@.subrange(0, j),
                    ) ==> self@[path@.subrange(0, j)] is Dir,
            decreases n - i,
        {
            if ps.get_char(i) == '/' {
                let pre: String = ps.substring_char(0, i).to_owned();
                match self.lookup(&pre) {
                    Some(e) => {
                        let bad: bool = match e {
                            FsEntry::Dir => false,
                            _ => true,
                        };
                        if bad {
                            proof {
                                assert(under_dir(path@, pre@));
                            }
                            return false;
                        }
                    },
                    None => {},
                }
            }
            i = i + 1;
        }
        proof {
            assert forall|kp: Seq<char>|
                kp.len() > 0 && #[trigger] under_dir(path@, kp) && self@.dom().contains(
                    kp,
                ) implies self@[kp] is Dir by {
                let j = kp.len() as int;
                assert(path@.subrange(0, j) == kp);
                assert(path@[j] == '/');
            }
        }
        true
    }

    /// Stores `entry` at `path`, replacing whatever was there.  The
    /// directories above `path` must exist, and a non-directory entry may
    /// not bury the children of a directory it replaces.
    pub fn put_entry(&mut self, path: &String, entry: FsEntry)
        requires
            old(self).wf(),
            path@.len() > 0,
            parents_ok(old(self)@, path@),
            !(entry@ is Dir) ==> forall|k: Seq<char>|
                #[trigger] old(self)@.dom().contains(k) ==> !under_dir(k, path@),
        ensures
            final(self).wf(),
            final(self)@ == old(self)@.insert(path@, entry@),
    {
        let ghost s0 = self.entries@;
        let ghost m0 = old(self)@;
        let ghost target = m0.insert(path@, entry@);
        match self.find_index(path) {
            Some(i) => {
                self.entries.set(i, (path.clone(), entry));
                proof {
                    let s1 = self.entries@;
                    assert(uniq_keys(s1)) by {
                        assert(forall|j: int|
                            0 <= j < s1.len() && j != i ==> s1[j] == s0[j] && (#[trigger] s1[j]).0@
                                == s0[j].0@);
                        assert(s1[i as int].0@ == s0[i as int].0@);
                    }
                    assert forall|j: int| 0 <= j < s1.len() implies target.dom().contains(
                        (#[trigger] s1[j]).0@,
                    ) && target[s1[j].0@] == s1[j].1@ by {
                        if j != i {
                            lemma_map_present(s0, j);
                            assert(s0[j].0@ != path@);
                        }
                    }
                    assert forall|k: Seq<char>| #[trigger] target.dom().contains(k) implies exists|
                        j: int,
                    |
                        0 <= j < s1.len() && (#[trigger] s1[j]).0@ == k by {
                        if k == path@ {
                            assert(s1[i as int].0@ == k);
                        } else {
                            lemma_map_covered(s0, k);
                            let j = choose|j: int| 0 <= j < s0.len() && (#[trigger] s0[j]).0@ == k;
                            assert(s1[j].0@ == k);
                        }
                    }
                    lemma_map_char(s1, target);
                    self.lemma_put_closed(m0, path@, entry@);
                }
            },
            None => {
                self.entries.push((path.clone(), entry));
                proof {
                    let s1 = self.entries@;
                    assert(s1.drop_last() =~= s0);
                    assert(uniq_keys(s1)) by {
                        assert(forall|j: int| 0 <= j < s0.len() ==> s1[j] == s0[j]);
                    }
                    assert(self@ == target);
                    self.lemma_put_closed(m0, path@, entry@);
                }
            },
        }
    }

    proof fn lemma_put_closed(&self, m0: Map<Seq<char>, EntryV>, path: Seq<char>, e: EntryV)
        requires
            uniq_keys(self.entries@),
            tree_closed(m0),
            path.len() > 0,
            parents_ok(m0, path),
            !(e is Dir) ==> forall|k: Seq<char>| #[trigger] m0.dom().contains(k) ==> !under_dir(
                k,
                path,
            ),
            self@ == m0.insert(path, e),
        ensures
            self.wf(),
    {
        let m1 = self@;
        assert forall|k: Seq<char>, kp: Seq<char>|
            #![trigger m1.dom().contains(k), under_dir(k, kp)]
            m1.dom().contains(k) && kp.len() > 0 && under_dir(k, kp) implies m1.dom().contains(kp)
            && m1[kp] is Dir by {
            if k == path {
                assert(m0.dom().contains(kp) && m0[kp] is Dir);
                if kp == path {
                    assert(under_dir(path, path));
                    assert(false);
                }
            } else {
                assert(m0.dom().contains(k));
                assert(m0.dom().contains(kp) && m0[kp] is Dir);
                if kp == path {
                    assert(m0.dom().contains(k) && under_dir(k, path));
                    assert(e is Dir);
                }
            }
        }
    }

    /// Removes the non-directory entry at `path`; fails with the delete
    /// error when the entry is missing or is a directory.
    pub fn remove_file(&mut self, path: &String) -> (r: Result<(), Error>)
        requires
            old(self).wf(),
        ensures
            final(self).wf(),
            match r {
                Ok(_) => old(self)@.dom().contains(path@) && !(old(self)@[path@] is Dir)
                    && final(self)@ == old(self)@.remove(path@),
                Err(e) => (!old(self)@.dom().contains(path@) || old(self)@[path@] is Dir)
                    && final(self)@ == old(self)@ && e@ == (ErrorV::Delete { path: path@ }),
            },
    {
        let ghost s0 = self.entries@;
        let ghost m0 = old(self)@;
        match self.find_index(path) {
            None => {
                proof {
                    lemma_map_absent(s0, path@);
                }
                Err(Error::Delete { path: path.clone() })
            },
            Some(i) => {
                let is_dir_entry: bool = match &self.entries[i].1 {
                    FsEntry::Dir => true,
                    _ => false,
                };
                proof {
                    lemma_map_present(s0, i as int);
                }
                if is_dir_entry {
                    return Err(Error::Delete { path: path.clone() });
                }
                let _removed = self.entries.swap_remove(i);
                proof {
                    let s1 = self.entries@;
                    let target = m0.remove(path@);
                    let last = s0.len() - 1;
                    assert(uniq_keys(s1)) by {
                        assert(forall|j: int|
                            0 <= j < s1.len() ==> (#[trigger] s1[j]) == (if j == i as int {
                                s0[last]
                            } else {
                                s0[j]
                            }));
                    }
                    assert forall|j: int| 0 <= j < s1.len() implies target.dom().contains(
                        (#[trigger] s1[j]).0@,
                    ) && target[s1[j].0@] == s1[j].1@ by {
                        if j == i as int && i as int != last {
                            lemma_map_present(s0, last);
                            assert(s0[last].0@ != path@);
                        } else {
                            lemma_map_present(s0, j);
                            assert(s0[j].0@ != path@);
                        }
                    }
                    assert forall|k: Seq<char>| #[trigger] target.dom().contains(k) implies exists|
                        j: int,
                    |
                        0 <= j < s1.len() && (#[trigger] s1[j]).0@ == k by {
                        lemma_map_covered(s0, k);
                        let j0 = choose|j: int| 0 <= j < s0.len() && (#[trigger] s0[j]).0@ == k;
                        assert(j0 != i as int);
                        if j0 == last {
                            assert(s1[i as int].0@ == k);
                        } else {
                            assert(s1[j0].0@ == k);
                        }
                    }
                    lemma_map_char(s1, target);
                    assert forall|k: Seq<char>, kp: Seq<char>|
                        #![trigger self@.dom().contains(k), under_dir(k, kp)]
                        self@.dom().contains(k) && kp.len() > 0 && under_dir(k, kp) implies self@
                        .dom().contains(kp) && self@[kp] is Dir by {
                        assert(m0.dom().contains(kp) && m0[kp] is Dir);
                        assert(kp != path@);
                    }
                }
                Ok(())
            },
        }
    }

    /// Creates every missing directory above `path`, left to right; fails
    /// without mutating when a non-directory blocks one of the positions.
    pub fn ensure_parent_dirs(&mut self, path: &String) -> (r: Result<(), Error>)
        requires
            old(self).wf(),
        ensures
            final(self).wf(),
            match r {
                Ok(_) => parents_clear(old(self)@, path@) && final(self)@ == with_parent_dirs(
                    old(self)@,
                    path@,
                ),
                Err(e) => !parents_clear(old(self)@, path@) && final(self)@ == old(self)@ && e@
                    == (ErrorV::AlreadyExists { path: path@ }),
            },
    {
        if !self.parents_unblocked(path) {
            return Err(Error::AlreadyExists { path: path.clone() });
        }
        let ghost m0 = self@;
        let ps: &str = path.as_str();
        let n: usize = ps.unicode_len();
        let mut i: usize = 1;
        proof {
            assert(self@ =~= with_parents_upto(m0, path@, 1));
        }
        while i < n
            invariant
                self.wf(),
                parents_clear(m0, path@),
                n == path@.len(),
                ps@ == path@,
                1 <= i,
                i <= n || n < 1,
                self@ == with_parents_upto(m0, path@, i as int),
            decreases n - i,
        {
            if ps.get_char(i) == '/' {
                let pre: String = ps.substring_char(0, i).to_owned();
                proof {
                    assert(under_dir(path@, pre@));
                }
                let present: bool = self.contains(&pre);
                if !present {
                    proof {
                        assert forall|kp: Seq<char>|
                            kp.len() > 0 && #[trigger] under_dir(pre@, kp) implies self@
                            .dom().contains(kp) && self@[kp] is Dir by {
                            assert(kp =~= path@.subrange(0, kp.len() as int));
                            assert(path@[kp.len() as int] == pre@[kp.len() as int]);
                            assert(under_dir(path@, kp));
                        }
                    }
                    self.put_entry(&pre, FsEntry::Dir);
                    proof {
                        assert(self@ =~= with_parents_upto(m0, path@, i as int + 1));
                    }
                } else {
                    proof {
                        assert(self@ =~= with_parents_upto(m0, path@, i as int + 1));
                    }
                }
            } else {
                proof {
                    assert forall|k: Seq<char>|
                        0 < k.len() < i as int + 1 && #[trigger] under_dir(path@, k) implies 0
                        < k.len() < i as int by {
                        if k.len() == i as int {
                            assert(path@[i as int] == '/');
                        }
                    }
                    assert(self@ =~= with_parents_upto(m0, path@, i as int + 1));
                }
            }
            i = i + 1;
        }
        proof {
            assert forall|k: Seq<char>|
                k.len() > 0 && #[trigger] under_dir(path@, k) implies 0 < k.len() < n as int by {}
            assert(self@ =~= with_parent_dirs(m0, path@));
        }
        Ok(())
    }

    /// Creates the symbolic link `link` pointing at `target`; fails with
    /// the already-exists error when `link` is occupied, and with the
    /// symlink error when a directory above `link` is missing.
    pub fn symlink(&mut self, target: &String, link: &String) -> (r: Result<(), Error>)
        requires
            old(self).wf(),
            link@.len() > 0,
        ensures
            final(self).wf(),
            match r {
                Ok(_) => !old(self)@.dom().contains(link@) && parents_ok(old(self)@, link@)
                    && final(self)@ == old(self)@.insert(link@, EntryV::Symlink(target@)),
                Err(e) => final(self)@ == old(self)@ && if old(self)@.dom().contains(link@) {
                    e@ == (ErrorV::AlreadyExists { path: link@ })
                } else {
                    !parents_ok(old(self)@, link@) && e@ == (ErrorV::Symlink {
                        from: target@,
                        to: link@,
                    })
                },
            },
    {
        if self.contains(link) {
            return Err(Error::AlreadyExists { path: link.clone() });
        }
        if !self.parents_all_dirs(link) {
            return Err(Error::Symlink { from: target.clone(), to: link.clone() });
        }
        proof {
            self.lemma_wf_closed();
            assert forall|k: Seq<char>| #[trigger] self@.dom().contains(k) implies !under_dir(
                k,
                link@,
            ) by {
                lemma_closed_no_orphans(self@, link@, k);
            }
        }
        self.put_entry(link, FsEntry::Symlink(target.clone()));
        Ok(())
    }

    /// Creates the regular file `path` with `content`, together with every
    /// missing directory above it; a convenience for building trees.
    pub fn place_file(&mut self, path: &String, content: Vec<u8>) -> (r: Result<(), Error>)
        requires
            old(self).wf(),
            path@.len() > 0,
        ensures
            final(self).wf(),
            match r {
                Ok(_) => parents_clear(old(self)@, path@) && !(old(self)@.dom().contains(path@)
                    && old(self)@[path@] is Dir) && final(self)@ == with_parent_dirs(
                    old(self)@,
                    path@,
                ).insert(path@, EntryV::File(content@)),
                Err(e) => e@ == (ErrorV::AlreadyExists { path: path@ }) && if !parents_clear(
                    old(self)@,
                    path@,
                ) {
                    final(self)@ == old(self)@
                } else {
                    old(self)@.dom().contains(path@) && old(self)@[path@] is Dir && final(self)@
                        == with_parent_dirs(old(self)@, path@)
                },
            },
    {
        self.place_entry(path, FsEntry::File(content))
    }

    /// Creates the directory `path`, together with every missing directory
    /// above it.
    pub fn place_dir(&mut self, path: &String) -> (r: Result<(), Error>)
        requires
            old(self).wf(),
            path@.len() > 0,
        ensures
            final(self).wf(),
            match r {
                Ok(_) => parents_clear(old(self)@, path@) && !(old(self)@.dom().contains(path@)
                    && !(old(self)@[path@] is Dir)) && final(self)@ == with_parent_dirs(
                    old(self)@,
                    path@,
                ).insert(path@, EntryV::Dir),
                Err(e) => e@ == (ErrorV::AlreadyExists { path: path@ }) && if !parents_clear(
                    old(self)@,
                    path@,
                ) {
                    final(self)@ == old(self)@
                } else {
                    old(self)@.dom().contains(path@) && !(old(self)@[path@] is Dir)
                        && final(self)@ == with_parent_dirs(old(self)@, path@)
                },
            },
    {
        let ghost m0 = self@;
        match self.ensure_parent_dirs(path) {
            Err(e) => Err(e),
            Ok(_) => {
                match self.lookup(path) {
                    Some(e) => {
                        let blocked: bool = match e {
                            FsEntry::Dir => false,
                            _ => true,
                        };
                        if blocked {
                            return Err(Error::AlreadyExists { path: path.clone() });
                        }
                        proof {
                            assert(self@ =~= with_parent_dirs(m0, path@).insert(
                                path@,
                                EntryV::Dir,
                            ));
                        }
                        Ok(())
                    },
                    None => {
                        proof {
                            self.lemma_wf_closed();
                            assert forall|k: Seq<char>| #[trigger]
                                self@.dom().contains(k) implies !under_dir(k, path@) by {
                                lemma_closed_no_orphans(self@, path@, k);
                            }
                        }
                        self.put_entry(path, FsEntry::Dir);
                        Ok(())
                    },
                }
            },
        }
    }

    /// Moves the whole subtree at `from` to `to`; fails with the move
    /// error, and without mutating, unless the source exists, the
    /// destination is free, the directories above the destination exist,
    /// and the destination does not lie inside the moved subtree.
    pub fn rename(&mut self, from: &String, to: &String) -> (r: Result<(), Error>)
        requires
            old(self).wf(),
        ensures
            final(self).wf(),
            match r {
                Ok(_) => rename_ok(old(self)@, from@, to@) && final(self)@ == rename_map(
                    old(self)@,
                    from@,
                    to@,
                ),
                Err(e) => !rename_ok(old(self)@, from@, to@) && final(self)@ == old(self)@ && e@
                    == (ErrorV::Move { from: from@, to: to@ }),
            },
    {
        let src_ok: bool = self.contains(from);
        let dst_free: bool = !self.contains(to);
        let pdirs: bool = self.parents_all_dirs(to);
        let nested: bool = is_at_or_under(to.as_str(), from.as_str());
        let from_ne: bool = !from.as_str().is_empty();
        let to_ne: bool = !to.as_str().is_empty();
        if !(src_ok && dst_free && pdirs && !nested && from_ne && to_ne) {
            return Err(Error::Move { from: from.clone(), to: to.clone() });
        }
        let ghost s0 = self.entries@;
        let ghost m0 = self@;
        let len0: usize = self.entries.len();
        let mut kept: Vec<(String, FsEntry)> = Vec::new();
        proof {
            assert(self.entries@ =~= s0.take(self.entries@.len() as int));
        }
        while self.entries.len() > 0
            invariant
                kept@.len() + self.entries@.len() == len0,
                self.entries@ == s0.take(self.entries@.len() as int),
                forall|t: int|
                    0 <= t < kept@.len() ==> (#[trigger] kept@[t]).0@ == xkey(
                        s0[len0 - 1 - t].0@,
                        from@,
                        to@,
                    ) && kept@[t].1 == s0[len0 - 1 - t].1,
                len0 == s0.len(),
            decreases self.entries@.len(),
        {
            let ghost rem = self.entries@.len() as int - 1;
            let pair: (String, FsEntry) = self.entries.pop().unwrap();
            proof {
                assert(pair == s0.take(rem + 1).last());
                assert(pair == s0[rem]);
                assert(self.entries@ =~= s0.take(rem));
            }
            let (k, e) = pair;
            let under: bool = is_at_or_under(k.as_str(), from.as_str());
            if under {
                let nk: String = remap_under(k.as_str(), from.as_str(), to.as_str());
                kept.push((nk, e));
            } else {
                kept.push((k, e));
            }
        }
        self.entries = kept;
        proof {
            let s1 = self.entries@;
            let target = rename_map(m0, from@, to@);
            assert(forall|t: int|
                0 <= t < s1.len() ==> (#[trigger] s1[t]).0@ == xkey(s0[len0 - 1 - t].0@, from@, to@)
                    && s1[t].1 == s0[len0 - 1 - t].1);
            assert forall|a: int, b: int| 0 <= a < b < s1.len() implies (#[trigger] s1[a]).0@ != (
            #[trigger] s1[b]).0@ by {
                let ia = len0 - 1 - a;
                let ib = len0 - 1 - b;
                let ka = s0[ia].0@;
                let kb = s0[ib].0@;
                lemma_map_present(s0, ia);
                lemma_map_present(s0, ib);
                assert(ka != kb);
                if at_or_under(ka, from@) {
                    lemma_remap_roundtrip(ka, from@, to@);
                }
                if at_or_under(kb, from@) {
                    lemma_remap_roundtrip(kb, from@, to@);
                }
                if !at_or_under(ka, from@) {
                    lemma_closed_no_orphans(m0, to@, ka);
                }
                if !at_or_under(kb, from@) {
                    lemma_closed_no_orphans(m0, to@, kb);
                }
            }
            assert forall|t: int| 0 <= t < s1.len() implies target.dom().contains(
                (#[trigger] s1[t]).0@,
            ) && target[s1[t].0@] == s1[t].1@ by {
                let it = len0 - 1 - t;
                let kt = s0[it].0@;
                lemma_map_present(s0, it);
                if at_or_under(kt, from@) {
                    lemma_remap_roundtrip(kt, from@, to@);
                } else {
                    lemma_closed_no_orphans(m0, to@, kt);
                }
            }
            assert forall|key: Seq<char>| #[trigger] target.dom().contains(key) implies exists|
                t: int,
            |
                0 <= t < s1.len() && (#[trigger] s1[t]).0@ == key by {
                if at_or_under(key, to@) {
                    let k0 = remap_path(key, to@, from@);
                    lemma_remap_roundtrip(key, to@, from@);
                    lemma_map_covered(s0, k0);
                    let a = choose|a: int| 0 <= a < s0.len() && (#[trigger] s0[a]).0@ == k0;
                    assert(s1[len0 - 1 - a].0@ == xkey(k0, from@, to@));
                    assert(xkey(k0, from@, to@) == key);
                } else {
                    lemma_map_covered(s0, key);
                    let a = choose|a: int| 0 <= a < s0.len() && (#[trigger] s0[a]).0@ == key;
                    assert(s1[len0 - 1 - a].0@ == xkey(key, from@, to@));
                }
            }
            lemma_map_char(s1, target);
            lemma_rename_closed(m0, from@, to@);
        }
        Ok(())
    }

    /// The entries of the tree as a sequence of key/entry pairs, for
    /// callers that visit every entry in turn.
    pub closed spec fn entry_seq(&self) -> Seq<(Seq<char>, EntryV)> {
        Seq::new(self.entries@.len(), |i: int| (self.entries@[i].0@, self.entries@[i].1@))
    }

    /// How many entries the tree holds.
    pub fn entry_count(&self) -> (n: usize)
        ensures
            n == self.entry_seq().len(),
    {
        self.entries.len()
    }

    /// The `i`-th entry of the tree.
    pub fn entry_at(&self, i: usize) -> (r: (&String, &FsEntry))
        requires
            i < self.entry_seq().len(),
        ensures
            r.0@ == self.entry_seq()[i as int].0,
            r.1@ == self.entry_seq()[i as int].1,
    {
        (&self.entries[i].0, &self.entries[i].1)
    }

    /// Every listed entry is in the tree, with the listed value.
    pub proof fn lemma_entry_view(&self, i: int)
        requires
            self.wf(),
            0 <= i < self.entry_seq().len(),
        ensures
            self@.dom().contains(self.entry_seq()[i].0),
            self@[self.entry_seq()[i].0] == self.entry_seq()[i].1,
    {
        lemma_map_present(self.entries@, i);
    }

    /// No key is listed twice.
    pub proof fn lemma_entry_seq_uniq(&self)
        requires
            self.wf(),
        ensures
            forall|i: int, j: int|
                0 <= i < j < self.entry_seq().len() ==> (#[trigger] self.entry_seq()[i]).0 != (
                #[trigger] self.entry_seq()[j]).0,
    {
    }

    /// Every key of the tree is listed.
    pub proof fn lemma_entry_seq_covers(&self, k: Seq<char>)
        requires
            self.wf(),
            self@.dom().contains(k),
        ensures
            exists|i: int|
                0 <= i < self.entry_seq().len() && (#[trigger] self.entry_seq()[i]).0 == k,
    {
        lemma_map_covered(self.entries@, k);
        let i = choose|i: int| 0 <= i < self.entries@.len() && (#[trigger] self.entries@[i]).0@ == k;
        assert(self.entry_seq()[i].0 == k);
    }

    /// Creates `entry` at `path` with every missing directory above it;
    /// the shared body of the placement helpers.
    fn place_entry(&mut self, path: &String, entry: FsEntry) -> (r: Result<(), Error>)
        requires
            old(self).wf(),
            path@.len() > 0,
            !(entry@ is Dir),
        ensures
            final(self).wf(),
            match r {
                Ok(_) => parents_clear(old(self)@, path@) && !(old(self)@.dom().contains(path@)
                    && old(self)@[path@] is Dir) && final(self)@ == with_parent_dirs(
                    old(self)@,
                    path@,
                ).insert(path@, entry@),
                Err(e) => e@ == (ErrorV::AlreadyExists { path: path@ }) && if !parents_clear(
                    old(self)@,
                    path@,
                ) {
                    final(self)@ == old(self)@
                } else {
                    old(self)@.dom().contains(path@) && old(self)@[path@] is Dir && final(self)@
                        == with_parent_dirs(old(self)@, path@)
                },
            },
    {
        match self.ensure_parent_dirs(path) {
            Err(e) => Err(e),
            Ok(_) => {
                if self.is_dir(path) {
                    return Err(Error::AlreadyExists { path: path.clone() });
                }
                proof {
                    self.lemma_wf_closed();
                    assert forall|k: Seq<char>| #[trigger] self@.dom().contains(k) implies !under_dir(
                        k,
                        path@,
                    ) by {
                        if under_dir(k, path@) {
                            assert(self@[path@] is Dir);
                        }
                    }
                }
                self.put_entry(path, entry);
                Ok(())
            },
        }
    }
}

} // verus!
