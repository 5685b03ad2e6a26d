//! The reconciliation engine.
//!
//! `Files` holds the root pair: the home root, whose layout the user keeps
//! using, and the storage root, which holds the relocated content.  The
//! engine works against the filesystem model of [`crate::fs`] and returns
//! the list of mutations it performed, in order, so that the unverified
//! shell can replay them onto the real filesystem.  Batches are not
//! transactional: the engine reports the first error and stops, and the
//! work already done stays done.

use vstd::prelude::*;

use crate::config::FilesConfig;
use crate::errors::{Error, ErrorV};
use crate::fs::{
    parents_clear, parents_ok, rename_map, rename_ok, with_parent_dirs, EntryV, FsEntry, FsTree,
};
use crate::matcher::{compile_spec, selected, Matchers};
use crate::paths::{
    at_or_under, incomparable, is_at_or_under, is_under_dir, join_path, join_seq,
    lemma_join_injective, lemma_join_under, lemma_prefix_comparable, str_eq, strip_dir, under_dir,
    valid_rel, valid_root,
};

verus! {

/// One filesystem mutation performed by the engine, for the shell to
/// replay onto the real filesystem, in order.
#[derive(Debug)]
pub enum Action {
    /// Create every missing directory above `path`.
    MkParents { path: String },
    /// Move the entry at `from`, with everything below it, to `to`.
    Move { from: String, to: String },
    /// Delete the non-directory entry at `path`.
    Remove { path: String },
    /// Create a symbolic link at `link` pointing at `target`.
    Symlink { target: String, link: String },
}

/// The mathematical value of an [`Action`].
pub enum ActionV {
    MkParents { path: Seq<char> },
    Move { from: Seq<char>, to: Seq<char> },
    Remove { path: Seq<char> },
    Symlink { target: Seq<char>, link: Seq<char> },
}

impl View for Action {
    type V = ActionV;

    open spec fn view(&self) -> ActionV {
        match self {
            Action::MkParents { path } => ActionV::MkParents { path: path@ },
            Action::Move { from, to } => ActionV::Move { from: from@, to: to@ },
            Action::Remove { path } => ActionV::Remove { path: path@ },
            Action::Symlink { target, link } => ActionV::Symlink { target: target@, link: link@ },
        }
    }
}

/// The views of a list of actions.
pub open spec fn acts_view(s: Seq<Action>) -> Seq<ActionV> {
    Seq::new(s.len(), |i: int| s[i]@)
}

/// A path is home-linked when the home-side entry is a symbolic link
/// whose literal target lies at or under the storage root.  A symlink
/// pointing anywhere else is foreign and never counts as managed.
pub open spec fn home_linked(
    m: Map<Seq<char>, EntryV>,
    home: Seq<char>,
    sto: Seq<char>,
    p: Seq<char>,
) -> bool {
    &&& m.dom().contains(join_seq(home, p))
    &&& m[join_seq(home, p)] matches EntryV::Symlink(t) && at_or_under(t, sto)
}

/// A path is stored when any entry exists at the storage-side location.
pub open spec fn stored(m: Map<Seq<char>, EntryV>, sto: Seq<char>, p: Seq<char>) -> bool {
    m.dom().contains(join_seq(sto, p))
}

/// A path is fully managed when it is both home-linked and stored.
pub open spec fn fully_managed(
    m: Map<Seq<char>, EntryV>,
    home: Seq<char>,
    sto: Seq<char>,
    p: Seq<char>,
) -> bool {
    home_linked(m, home, sto, p) && stored(m, sto, p)
}

/// What the engine asks of a batch: normalised relative paths, no path
/// containing another — the paths are independent management units — and
/// no home-side path at, under or above the storage root, which is what
/// the default exclusion pattern expresses.
pub open spec fn batch_ok(home: Seq<char>, sto: Seq<char>, ps: Seq<Seq<char>>) -> bool {
    &&& forall|i: int| 0 <= i < ps.len() ==> valid_rel(#[trigger] ps[i])
    &&& forall|i: int|
        0 <= i < ps.len() ==> incomparable(join_seq(home, #[trigger] ps[i]), sto)
    &&& forall|i: int, j: int|
        0 <= i < ps.len() && 0 <= j < ps.len() && i != j ==> incomparable(
            #[trigger] ps[i],
            #[trigger] ps[j],
        )
}

/// One path's link step: create the home-side symlink to the storage
/// copy.  An entry in the way is deleted and the creation retried once; a
/// second failure is fatal for the path.
pub open spec fn link_step(
    m: Map<Seq<char>, EntryV>,
    home: Seq<char>,
    sto: Seq<char>,
    p: Seq<char>,
) -> (Map<Seq<char>, EntryV>, Seq<ActionV>, Option<ErrorV>) {
    let h = join_seq(home, p);
    let s = join_seq(sto, p);
    if m.dom().contains(h) {
        if m[h] is Dir {
            (m, Seq::empty(), Some(ErrorV::Delete { path: h }))
        } else {
            let m1 = m.remove(h);
            if !parents_ok(m1, h) {
                (
                    m1,
                    seq![ActionV::Remove { path: h }],
                    Some(ErrorV::Symlink { from: s, to: h }),
                )
            } else {
                (
                    m1.insert(h, EntryV::Symlink(s)),
                    seq![
                        ActionV::Remove { path: h },
                        ActionV::Symlink { target: s, link: h },
                    ],
                    None,
                )
            }
        }
    } else {
        if !parents_ok(m, h) {
            (m, Seq::empty(), Some(ErrorV::Symlink { from: s, to: h }))
        } else {
            (
                m.insert(h, EntryV::Symlink(s)),
                seq![ActionV::Symlink { target: s, link: h }],
                None,
            )
        }
    }
}

/// One path's move-and-link step.  A path already home-linked is left
/// alone entirely.  Otherwise the home-side entry is moved to the
/// storage side — unless storage already holds a copy, placed there
/// out-of-band, in which case the move is skipped — and the link step
/// runs.  Missing parent directories on the storage side are created
/// before the move.
pub open spec fn msl_step(
    m: Map<Seq<char>, EntryV>,
    home: Seq<char>,
    sto: Seq<char>,
    p: Seq<char>,
) -> (Map<Seq<char>, EntryV>, Seq<ActionV>, Option<ErrorV>) {
    let h = join_seq(home, p);
    let s = join_seq(sto, p);
    if home_linked(m, home, sto, p) {
        (m, Seq::empty(), None)
    } else if !stored(m, sto, p) {
        if !m.dom().contains(h) {
            (m, Seq::empty(), Some(ErrorV::Move { from: h, to: s }))
        } else if !parents_clear(m, s) {
            (m, Seq::empty(), Some(ErrorV::AlreadyExists { path: s }))
        } else {
            let mv = rename_map(with_parent_dirs(m, s), h, s);
            let (m2, a2, e2) = link_step(mv, home, sto, p);
            (
                m2,
                seq![ActionV::MkParents { path: s }, ActionV::Move { from: h, to: s }] + a2,
                e2,
            )
        }
    } else {
        link_step(m, home, sto, p)
    }
}

/// `move_and_symlink` over a batch, path by path, stopping at the first
/// error without undoing earlier work.
pub open spec fn msl_fold(
    m: Map<Seq<char>, EntryV>,
    home: Seq<char>,
    sto: Seq<char>,
    ps: Seq<Seq<char>>,
) -> (Map<Seq<char>, EntryV>, Seq<ActionV>, Option<ErrorV>)
    decreases ps.len(),
{
    if ps.len() == 0 {
        (m, Seq::empty(), None)
    } else {
        let (m1, a1, e1) = msl_fold(m, home, sto, ps.drop_last());
        if e1 is Some {
            (m1, a1, e1)
        } else {
            let (m2, a2, e2) = msl_step(m1, home, sto, ps.last());
            (m2, a1 + a2, e2)
        }
    }
}

/// A failure on a prefix of the batch is the failure of the whole batch.
proof fn lemma_msl_fold_err(
    m: Map<Seq<char>, EntryV>,
    home: Seq<char>,
    sto: Seq<char>,
    ps: Seq<Seq<char>>,
    n: int,
)
    requires
        0 <= n <= ps.len(),
        msl_fold(m, home, sto, ps.take(n)).2 is Some,
    ensures
        msl_fold(m, home, sto, ps) == msl_fold(m, home, sto, ps.take(n)),
    decreases ps.len() - n,
{
    if n < ps.len() {
        assert(ps.take(n + 1).drop_last() =~= ps.take(n));
        lemma_msl_fold_err(m, home, sto, ps, n + 1);
    } else {
        assert(ps.take(n) =~= ps);
    }
}

/// One path's repair step: create the missing home-side symlink for a
/// stored path; paths already linked, and paths absent from storage, are
/// left untouched.
pub open spec fn sbh_step(
    m: Map<Seq<char>, EntryV>,
    home: Seq<char>,
    sto: Seq<char>,
    p: Seq<char>,
) -> (Map<Seq<char>, EntryV>, Seq<ActionV>, Option<ErrorV>) {
    if !home_linked(m, home, sto, p) && stored(m, sto, p) {
        link_step(m, home, sto, p)
    } else {
        (m, Seq::empty(), None)
    }
}

/// `symlink_back_home` over a batch, path by path, stopping at the first
/// error without undoing earlier work.
pub open spec fn sbh_fold(
    m: Map<Seq<char>, EntryV>,
    home: Seq<char>,
    sto: Seq<char>,
    ps: Seq<Seq<char>>,
) -> (Map<Seq<char>, EntryV>, Seq<ActionV>, Option<ErrorV>)
    decreases ps.len(),
{
    if ps.len() == 0 {
        (m, Seq::empty(), None)
    } else {
        let (m1, a1, e1) = sbh_fold(m, home, sto, ps.drop_last());
        if e1 is Some {
            (m1, a1, e1)
        } else {
            let (m2, a2, e2) = sbh_step(m1, home, sto, ps.last());
            (m2, a1 + a2, e2)
        }
    }
}

proof fn lemma_sbh_fold_err(
    m: Map<Seq<char>, EntryV>,
    home: Seq<char>,
    sto: Seq<char>,
    ps: Seq<Seq<char>>,
    n: int,
)
    requires
        0 <= n <= ps.len(),
        sbh_fold(m, home, sto, ps.take(n)).2 is Some,
    ensures
        sbh_fold(m, home, sto, ps) == sbh_fold(m, home, sto, ps.take(n)),
    decreases ps.len() - n,
{
    if n < ps.len() {
        assert(ps.take(n + 1).drop_last() =~= ps.take(n));
        lemma_sbh_fold_err(m, home, sto, ps, n + 1);
    } else {
        assert(ps.take(n) =~= ps);
    }
}

/// One path's unlink step: delete the home-side symlink.  An entry that
/// is missing or not a symbolic link is a hard failure: the caller names
/// only paths it believes managed.
pub open spec fn unlink_step(m: Map<Seq<char>, EntryV>, home: Seq<char>, p: Seq<char>) -> (
    Map<Seq<char>, EntryV>,
    Seq<ActionV>,
    Option<ErrorV>,
) {
    let h = join_seq(home, p);
    if m.dom().contains(h) && m[h] is Symlink {
        (m.remove(h), seq![ActionV::Remove { path: h }], None)
    } else {
        (m, Seq::empty(), Some(ErrorV::Delete { path: h }))
    }
}

/// The unlink phase over a batch.
pub open spec fn unlink_fold(m: Map<Seq<char>, EntryV>, home: Seq<char>, ps: Seq<Seq<char>>) -> (
    Map<Seq<char>, EntryV>,
    Seq<ActionV>,
    Option<ErrorV>,
)
    decreases ps.len(),
{
    if ps.len() == 0 {
        (m, Seq::empty(), None)
    } else {
        let (m1, a1, e1) = unlink_fold(m, home, ps.drop_last());
        if e1 is Some {
            (m1, a1, e1)
        } else {
            let (m2, a2, e2) = unlink_step(m1, home, ps.last());
            (m2, a1 + a2, e2)
        }
    }
}

proof fn lemma_unlink_fold_err(
    m: Map<Seq<char>, EntryV>,
    home: Seq<char>,
    ps: Seq<Seq<char>>,
    n: int,
)
    requires
        0 <= n <= ps.len(),
        unlink_fold(m, home, ps.take(n)).2 is Some,
    ensures
        unlink_fold(m, home, ps) == unlink_fold(m, home, ps.take(n)),
    decreases ps.len() - n,
{
    if n < ps.len() {
        assert(ps.take(n + 1).drop_last() =~= ps.take(n));
        lemma_unlink_fold_err(m, home, ps, n + 1);
    } else {
        assert(ps.take(n) =~= ps);
    }
}

/// One path's restore step: move the storage entry back to the home
/// side, creating missing parent directories there first.
pub open spec fn restore_step(
    m: Map<Seq<char>, EntryV>,
    home: Seq<char>,
    sto: Seq<char>,
    p: Seq<char>,
) -> (Map<Seq<char>, EntryV>, Seq<ActionV>, Option<ErrorV>) {
    let h = join_seq(home, p);
    let s = join_seq(sto, p);
    if !parents_clear(m, h) {
        (m, Seq::empty(), Some(ErrorV::AlreadyExists { path: h }))
    } else {
        let md = with_parent_dirs(m, h);
        if !rename_ok(md, s, h) {
            (
                md,
                seq![ActionV::MkParents { path: h }],
                Some(ErrorV::Move { from: s, to: h }),
            )
        } else {
            (
                rename_map(md, s, h),
                seq![ActionV::MkParents { path: h }, ActionV::Move { from: s, to: h }],
                None,
            )
        }
    }
}

/// The restore phase over a batch.
pub open spec fn restore_fold(
    m: Map<Seq<char>, EntryV>,
    home: Seq<char>,
    sto: Seq<char>,
    ps: Seq<Seq<char>>,
) -> (Map<Seq<char>, EntryV>, Seq<ActionV>, Option<ErrorV>)
    decreases ps.len(),
{
    if ps.len() == 0 {
        (m, Seq::empty(), None)
    } else {
        let (m1, a1, e1) = restore_fold(m, home, sto, ps.drop_last());
        if e1 is Some {
            (m1, a1, e1)
        } else {
            let (m2, a2, e2) = restore_step(m1, home, sto, ps.last());
            (m2, a1 + a2, e2)
        }
    }
}

proof fn lemma_restore_fold_err(
    m: Map<Seq<char>, EntryV>,
    home: Seq<char>,
    sto: Seq<char>,
    ps: Seq<Seq<char>>,
    n: int,
)
    requires
        0 <= n <= ps.len(),
        restore_fold(m, home, sto, ps.take(n)).2 is Some,
    ensures
        restore_fold(m, home, sto, ps) == restore_fold(m, home, sto, ps.take(n)),
    decreases ps.len() - n,
{
    if n < ps.len() {
        assert(ps.take(n + 1).drop_last() =~= ps.take(n));
        lemma_restore_fold_err(m, home, sto, ps, n + 1);
    } else {
        assert(ps.take(n) =~= ps);
    }
}

/// `remove_and_restore` over a batch: first every home-side symlink is
/// deleted, then every storage entry is moved back.
pub open spec fn rr_spec(
    m: Map<Seq<char>, EntryV>,
    home: Seq<char>,
    sto: Seq<char>,
    ps: Seq<Seq<char>>,
) -> (Map<Seq<char>, EntryV>, Seq<ActionV>, Option<ErrorV>) {
    let (m1, a1, e1) = unlink_fold(m, home, ps);
    if e1 is Some {
        (m1, a1, e1)
    } else {
        let (m2, a2, e2) = restore_fold(m1, home, sto, ps);
        (m2, a1 + a2, e2)
    }
}

/// Whether `p` lies in the walked subtree: everywhere when the walk
/// starts at `.`, else at or under the start path.
pub open spec fn in_scope(start: Seq<char>, p: Seq<char>) -> bool {
    start == seq!['.'] || at_or_under(p, start)
}

/// Whether a walk yields `p`: `p` is a normalised relative path whose
/// home-side entry is a regular file, `p` lies in the walked subtree,
/// and the patterns select it.
pub open spec fn walk_selects(
    m: Map<Seq<char>, EntryV>,
    home: Seq<char>,
    inc: Seq<Seq<char>>,
    exc: Seq<Seq<char>>,
    start: Seq<char>,
    p: Seq<char>,
) -> bool {
    &&& valid_rel(p)
    &&& m.dom().contains(join_seq(home, p))
    &&& m[join_seq(home, p)] is File
    &&& in_scope(start, p)
    &&& selected(inc, exc, p)
}

/// The `j`-th entry of the tree is the home-side file of `p`.
spec fn entry_is(fs: &FsTree, home: Seq<char>, p: Seq<char>, j: int) -> bool {
    &&& 0 <= j < fs.entry_seq().len()
    &&& fs.entry_seq()[j].0 == join_seq(home, p)
    &&& fs.entry_seq()[j].1 is File
}

/// The engine: the pair of roots, fixed for the engine's lifetime, and
/// the reconciliation operations against a filesystem.
pub struct Files {
    home_dir: String,
    file_dir: String,
}

impl Files {
    /// The home root.
    pub closed spec fn home(&self) -> Seq<char> {
        self.home_dir@
    }

    /// The storage root.
    pub closed spec fn storage(&self) -> Seq<char> {
        self.file_dir@
    }

    /// Both roots are absolute normalised paths.
    pub open spec fn wf(&self) -> bool {
        valid_root(self.home()) && valid_root(self.storage())
    }

    /// Creates a new engine over the root pair.
    pub fn init(home_dir: String, file_dir: String) -> (r: Files)
        ensures
            r.home() == home_dir@,
            r.storage() == file_dir@,
    {
        Files { home_dir, file_dir }
    }

    /// Whether `files` is a batch the mutating operations accept:
    /// normalised relative paths, none containing another, none at,
    /// under or above the storage root.
    pub fn batch_is_ok(&self, files: &Vec<String>) -> (r: bool)
        ensures
            r == batch_ok(self.home(), self.storage(), files.deep_view()),
    {
        let ghost all = files.deep_view();
        let n: usize = files.len();
        let mut i: usize = 0;
        while i < n
            invariant
                all == files.deep_view(),
                n == files@.len(),
                i <= n,
                forall|j: int| 0 <= j < i ==> valid_rel(#[trigger] all[j]),
                forall|j: int|
                    0 <= j < i ==> incomparable(join_seq(self.home(), #[trigger] all[j]), self.storage()),
                forall|j: int, k: int|
                    0 <= j < k < i ==> incomparable(#[trigger] all[j], #[trigger] all[k]),
            decreases n - i,
        {
            let p: &String = &files[i];
            proof {
                assert(all[i as int] == p@);
            }
            if !crate::paths::is_valid_rel(p.as_str()) {
                return false;
            }
            let h: String = join_path(self.home_dir.as_str(), p.as_str());
            if is_at_or_under(h.as_str(), self.file_dir.as_str()) {
                return false;
            }
            if is_at_or_under(self.file_dir.as_str(), h.as_str()) {
                return false;
            }
            let mut j: usize = 0;
            while j < i
                invariant
                    all == files.deep_view(),
                    n == files@.len(),
                    i < n,
                    j <= i,
                    p@ == all[i as int],
                    forall|k: int| 0 <= k < j ==> incomparable(#[trigger] all[k], all[i as int]),
                decreases i - j,
            {
                let q: &String = &files[j];
                proof {
                    assert(all[j as int] == q@);
                }
                if is_at_or_under(p.as_str(), q.as_str()) {
                    proof {
                        assert(!incomparable(all[i as int], all[j as int]));
                    }
                    return false;
                }
                if is_at_or_under(q.as_str(), p.as_str()) {
                    proof {
                        assert(!incomparable(all[j as int], all[i as int]));
                    }
                    return false;
                }
                j = j + 1;
            }
            i = i + 1;
        }
        true
    }

    /// Whether `file` is already managed on the home side: the home-side
    /// entry is a symlink whose target falls under the storage root.
    /// Unreadable and missing states fold to false; the query never fails.
    pub fn is_managed_in_home(&self, fs: &FsTree, file: &str) -> (r: bool)
        requires
            fs.wf(),
        ensures
            r == home_linked(fs@, self.home(), self.storage(), file@),
    {
        let h: String = join_path(self.home_dir.as_str(), file);
        match fs.lookup(&h) {
            Some(e) => match e {
                FsEntry::Symlink(t) => is_at_or_under(t.as_str(), self.file_dir.as_str()),
                _ => false,
            },
            None => false,
        }
    }

    /// Whether any entry for `file` exists under the storage root.
    pub fn is_managed_in_repo(&self, fs: &FsTree, file: &str) -> (r: bool)
        requires
            fs.wf(),
        ensures
            r == stored(fs@, self.storage(), file@),
    {
        let s: String = join_path(self.file_dir.as_str(), file);
        fs.contains(&s)
    }

    /// Moves one path into storage if needed and links it back home.
    fn msl_one(&self, fs: &mut FsTree, p: &String, acts: &mut Vec<Action>) -> (r: Result<
        (),
        Error,
    >)
        requires
            old(fs).wf(),
            self.wf(),
            valid_rel(p@),
            incomparable(join_seq(self.home(), p@), self.storage()),
        ensures
            final(fs).wf(),
            ({
                let (m2, a2, e2) = msl_step(old(fs)@, self.home(), self.storage(), p@);
                &&& final(fs)@ == m2
                &&& acts_view(final(acts)@) == acts_view(old(acts)@) + a2
                &&& match r {
                    Ok(_) => e2 is None,
                    Err(e) => e2 == Some(e@),
                }
            }),
    {
        let ghost a0 = acts@;
        if self.is_managed_in_home(fs, p.as_str()) {
            proof {
                assert(acts_view(acts@) =~= acts_view(a0) + Seq::<ActionV>::empty());
            }
            return Ok(());
        }
        let h: String = join_path(self.home_dir.as_str(), p.as_str());
        let s: String = join_path(self.file_dir.as_str(), p.as_str());
        if !self.is_managed_in_repo(fs, p.as_str()) {
            if !fs.contains(&h) {
                proof {
                    assert(acts_view(acts@) =~= acts_view(a0) + Seq::<ActionV>::empty());
                }
                return Err(Error::Move { from: h, to: s });
            }
            match fs.ensure_parent_dirs(&s) {
                Err(e) => {
                    proof {
                        assert(acts_view(acts@) =~= acts_view(a0) + Seq::<ActionV>::empty());
                    }
                    return Err(e);
                },
                Ok(_) => {},
            }
            acts.push(Action::MkParents { path: s.clone() });
            proof {
                lemma_join_under(self.storage(), p@);
                assert forall|kp: Seq<char>|
                    kp.len() > 0 && #[trigger] under_dir(s@, kp) implies fs@.dom().contains(kp)
                    && fs@[kp] is Dir by {}
                if at_or_under(s@, h@) {
                    lemma_prefix_comparable(s@, h@, self.storage());
                    assert(false);
                }
            }
            // the source exists, the destination is free and its parent
            // directories were just created: the move cannot fail
            match fs.rename(&h, &s) {
                Err(e) => {
                    proof {
                        assert(false);
                    }
                    return Err(e);
                },
                Ok(_) => {},
            }
            acts.push(Action::Move { from: h.clone(), to: s.clone() });
            let ghost mv = fs@;
            let r = self.link_one(fs, p.as_str(), acts);
            proof {
                let step = msl_step(old(fs)@, self.home(), self.storage(), p@);
                let lk = link_step(mv, self.home(), self.storage(), p@);
                assert(acts_view(acts@) =~= acts_view(a0) + (seq![
                    ActionV::MkParents { path: s@ },
                    ActionV::Move { from: h@, to: s@ },
                ] + lk.1));
            }
            r
        } else {
            let r = self.link_one(fs, p.as_str(), acts);
            r
        }
    }

    /// Moves every path of the batch into storage and symlinks it back
    /// into the home tree.  Paths already home-linked are skipped
    /// entirely; paths already stored are only linked.  Processing stops
    /// at the first error; earlier paths stay mutated.  On success the
    /// actions performed are returned, in order.
    pub fn move_and_symlink(&self, fs: &mut FsTree, files: &Vec<String>) -> (r: Result<
        Vec<Action>,
        Error,
    >)
        requires
            old(fs).wf(),
            self.wf(),
            batch_ok(self.home(), self.storage(), files.deep_view()),
        ensures
            final(fs).wf(),
            ({
                let (m2, a2, e2) = msl_fold(old(fs)@, self.home(), self.storage(), files.deep_view());
                &&& final(fs)@ == m2
                &&& match r {
                    Ok(a) => e2 is None && acts_view(a@) == a2,
                    Err(e) => e2 == Some(e@),
                }
            }),
    {
        let ghost all = files.deep_view();
        let ghost m0 = fs@;
        let n: usize = files.len();
        let mut acts: Vec<Action> = Vec::new();
        let mut i: usize = 0;
        proof {
            assert(all.take(0) =~= Seq::<Seq<char>>::empty());
            assert(acts_view(acts@) =~= Seq::<ActionV>::empty());
        }
        while i < n
            invariant
                fs.wf(),
                self.wf(),
                batch_ok(self.home(), self.storage(), all),
                all == files.deep_view(),
                m0 == old(fs)@,
                i <= n,
                n == files@.len(),
                ({
                    let (m1, a1, e1) = msl_fold(m0, self.home(), self.storage(), all.take(i as int));
                    fs@ == m1 && acts_view(acts@) == a1 && e1 is None
                }),
            decreases n - i,
        {
            let p: &String = &files[i];
            proof {
                assert(all.take(i as int + 1).drop_last() =~= all.take(i as int));
                assert(all.take(i as int + 1).last() == p@);
                assert(all[i as int] == p@);
            }
            let ghost a_pre = acts@;
            let ghost m_pre = fs@;
            match self.msl_one(fs, p, &mut acts) {
                Err(e) => {
                    proof {
                        assert(msl_fold(m0, self.home(), self.storage(), all.take(i as int + 1)).2
                            == Some(e@));
                        lemma_msl_fold_err(m0, self.home(), self.storage(), all, i as int + 1);
                    }
                    return Err(e);
                },
                Ok(_) => {
                    proof {
                        let (m1, a1, e1) = msl_fold(m0, self.home(), self.storage(), all.take(
                            i as int + 1,
                        ));
                        assert(fs@ == m1 && acts_view(acts@) == a1 && e1 is None);
                    }
                },
            }
            i = i + 1;
        }
        proof {
            assert(all.take(n as int) =~= all);
        }
        Ok(acts)
    }

    /// Creates the missing home-side symlinks for stored paths: the
    /// narrow repair used after the storage tree changed externally.  A
    /// path already linked, or with no storage copy, is not touched, so
    /// the operation never moves or destroys content.
    pub fn symlink_back_home(&self, fs: &mut FsTree, files: &Vec<String>) -> (r: Result<
        Vec<Action>,
        Error,
    >)
        requires
            old(fs).wf(),
        ensures
            final(fs).wf(),
            ({
                let (m2, a2, e2) = sbh_fold(old(fs)@, self.home(), self.storage(), files.deep_view());
                &&& final(fs)@ == m2
                &&& match r {
                    Ok(a) => e2 is None && acts_view(a@) == a2,
                    Err(e) => e2 == Some(e@),
                }
            }),
    {
        let ghost all = files.deep_view();
        let ghost m0 = fs@;
        let n: usize = files.len();
        let mut acts: Vec<Action> = Vec::new();
        let mut i: usize = 0;
        proof {
            assert(all.take(0) =~= Seq::<Seq<char>>::empty());
            assert(acts_view(acts@) =~= Seq::<ActionV>::empty());
        }
        while i < n
            invariant
                fs.wf(),
                all == files.deep_view(),
                m0 == old(fs)@,
                i <= n,
                n == files@.len(),
                ({
                    let (m1, a1, e1) = sbh_fold(m0, self.home(), self.storage(), all.take(i as int));
                    fs@ == m1 && acts_view(acts@) == a1 && e1 is None
                }),
            decreases n - i,
        {
            let p: &String = &files[i];
            proof {
                assert(all.take(i as int + 1).drop_last() =~= all.take(i as int));
                assert(all.take(i as int + 1).last() == p@);
            }
            let ghost a_pre = acts@;
            let linked: bool = self.is_managed_in_home(fs, p.as_str());
            let in_repo: bool = self.is_managed_in_repo(fs, p.as_str());
            if !linked && in_repo {
                match self.link_one(fs, p.as_str(), &mut acts) {
                    Err(e) => {
                        proof {
                            lemma_sbh_fold_err(m0, self.home(), self.storage(), all, i as int + 1);
                        }
                        return Err(e);
                    },
                    Ok(_) => {},
                }
            } else {
                proof {
                    assert(acts_view(acts@) =~= acts_view(a_pre) + Seq::<ActionV>::empty());
                }
            }
            i = i + 1;
        }
        proof {
            assert(all.take(n as int) =~= all);
        }
        Ok(acts)
    }

    /// Deletes the home-side symlink of one path.
    fn unlink_one(&self, fs: &mut FsTree, p: &str, acts: &mut Vec<Action>) -> (r: Result<
        (),
        Error,
    >)
        requires
            old(fs).wf(),
        ensures
            final(fs).wf(),
            ({
                let (m2, a2, e2) = unlink_step(old(fs)@, self.home(), p@);
                &&& final(fs)@ == m2
                &&& acts_view(final(acts)@) == acts_view(old(acts)@) + a2
                &&& match r {
                    Ok(_) => e2 is None,
                    Err(e) => e2 == Some(e@),
                }
            }),
    {
        let ghost a0 = acts@;
        let h: String = join_path(self.home_dir.as_str(), p);
        let is_link: bool = match fs.lookup(&h) {
            Some(e) => match e {
                FsEntry::Symlink(_) => true,
                _ => false,
            },
            None => false,
        };
        if !is_link {
            proof {
                assert(acts_view(acts@) =~= acts_view(a0) + Seq::<ActionV>::empty());
            }
            return Err(Error::Delete { path: h });
        }
        // a present symbolic link is never a directory: the delete cannot fail
        match fs.remove_file(&h) {
            Err(e) => {
                proof {
                    assert(false);
                }
                Err(e)
            },
            Ok(_) => {
                acts.push(Action::Remove { path: h });
                proof {
                    assert(acts_view(acts@) =~= acts_view(a0) + unlink_step(
                        old(fs)@,
                        self.home(),
                        p@,
                    ).1);
                }
                Ok(())
            },
        }
    }

    /// Moves the storage entry of one path back to the home side.
    fn restore_one(&self, fs: &mut FsTree, p: &str, acts: &mut Vec<Action>) -> (r: Result<
        (),
        Error,
    >)
        requires
            old(fs).wf(),
        ensures
            final(fs).wf(),
            ({
                let (m2, a2, e2) = restore_step(old(fs)@, self.home(), self.storage(), p@);
                &&& final(fs)@ == m2
                &&& acts_view(final(acts)@) == acts_view(old(acts)@) + a2
                &&& match r {
                    Ok(_) => e2 is None,
                    Err(e) => e2 == Some(e@),
                }
            }),
    {
        let ghost a0 = acts@;
        let h: String = join_path(self.home_dir.as_str(), p);
        let s: String = join_path(self.file_dir.as_str(), p);
        match fs.ensure_parent_dirs(&h) {
            Err(e) => {
                proof {
                    assert(acts_view(acts@) =~= acts_view(a0) + Seq::<ActionV>::empty());
                }
                return Err(e);
            },
            Ok(_) => {},
        }
        acts.push(Action::MkParents { path: h.clone() });
        match fs.rename(&s, &h) {
            Err(e) => {
                proof {
                    assert(acts_view(acts@) =~= acts_view(a0) + seq![
                        ActionV::MkParents { path: h@ },
                    ]);
                }
                Err(e)
            },
            Ok(_) => {
                acts.push(Action::Move { from: s, to: h });
                proof {
                    assert(acts_view(acts@) =~= acts_view(a0) + restore_step(
                        old(fs)@,
                        self.home(),
                        self.storage(),
                        p@,
                    ).1);
                }
                Ok(())
            },
        }
    }

    /// Undoes `move_and_symlink`: first deletes every home-side symlink
    /// of the batch, then moves every storage entry back to its home
    /// location.  Processing stops at the first error; earlier paths stay
    /// mutated.  On success the actions performed are returned, in order.
    pub fn remove_and_restore(&self, fs: &mut FsTree, files: &Vec<String>) -> (r: Result<
        Vec<Action>,
        Error,
    >)
        requires
            old(fs).wf(),
        ensures
            final(fs).wf(),
            ({
                let (m2, a2, e2) = rr_spec(old(fs)@, self.home(), self.storage(), files.deep_view());
                &&& final(fs)@ == m2
                &&& match r {
                    Ok(a) => e2 is None && acts_view(a@) == a2,
                    Err(e) => e2 == Some(e@),
                }
            }),
    {
        let ghost all = files.deep_view();
        let ghost m0 = fs@;
        let n: usize = files.len();
        let mut acts: Vec<Action> = Vec::new();
        let mut i: usize = 0;
        proof {
            assert(all.take(0) =~= Seq::<Seq<char>>::empty());
            assert(acts_view(acts@) =~= Seq::<ActionV>::empty());
        }
        while i < n
            invariant
                fs.wf(),
                all == files.deep_view(),
                m0 == old(fs)@,
                i <= n,
                n == files@.len(),
                ({
                    let (m1, a1, e1) = unlink_fold(m0, self.home(), all.take(i as int));
                    fs@ == m1 && acts_view(acts@) == a1 && e1 is None
                }),
            decreases n - i,
        {
            let p: &String = &files[i];
            proof {
                assert(all.take(i as int + 1).drop_last() =~= all.take(i as int));
                assert(all.take(i as int + 1).last() == p@);
            }
            match self.unlink_one(fs, p.as_str(), &mut acts) {
                Err(e) => {
                    proof {
                        lemma_unlink_fold_err(m0, self.home(), all, i as int + 1);
                    }
                    return Err(e);
                },
                Ok(_) => {},
            }
            i = i + 1;
        }
        proof {
            assert(all.take(n as int) =~= all);
        }
        let ghost m_mid = fs@;
        let ghost a_mid = acts@;
        let mut j: usize = 0;
        proof {
            assert(all.take(0) =~= Seq::<Seq<char>>::empty());
            assert(acts_view(acts@) =~= acts_view(a_mid) + Seq::<ActionV>::empty());
        }
        while j < n
            invariant
                fs.wf(),
                all == files.deep_view(),
                m0 == old(fs)@,
                j <= n,
                n == files@.len(),
                unlink_fold(m0, self.home(), all) == (m_mid, acts_view(a_mid), None::<ErrorV>),
                ({
                    let (m1, a1, e1) = restore_fold(m_mid, self.home(), self.storage(), all.take(
                        j as int,
                    ));
                    fs@ == m1 && acts_view(acts@) == acts_view(a_mid) + a1 && e1 is None
                }),
            decreases n - j,
        {
            let p: &String = &files[j];
            proof {
                assert(all.take(j as int + 1).drop_last() =~= all.take(j as int));
                assert(all.take(j as int + 1).last() == p@);
            }
            let ghost a_pre = acts@;
            match self.restore_one(fs, p.as_str(), &mut acts) {
                Err(e) => {
                    proof {
                        lemma_restore_fold_err(m_mid, self.home(), self.storage(), all, j as int
                            + 1);
                    }
                    return Err(e);
                },
                Ok(_) => {
                    proof {
                        let (m1, a1, e1) = restore_fold(m_mid, self.home(), self.storage(), all
                            .take(j as int + 1));
                        assert(acts_view(acts@) =~= acts_view(a_mid) + a1);
                    }
                },
            }
            j = j + 1;
        }
        proof {
            assert(all.take(n as int) =~= all);
        }
        Ok(acts)
    }

    /// Expands `start` to the concrete files to manage: every regular
    /// file at or under `start` — relative to the home root; `.` walks
    /// the whole home tree — that the compiled patterns select.
    /// Directory nodes are never yielded, only the files below them, and
    /// a symbolic link cannot be walked through.  The order of the
    /// result carries no meaning.
    pub fn walk_dir(&self, fs: &FsTree, start: &str, config: &FilesConfig) -> (r: Result<
        Vec<String>,
        Error,
    >)
        requires
            fs.wf(),
        ensures
            ({
                let rinc = compile_spec(fs@, self.home(), config.included.deep_view());
                let rexc = compile_spec(fs@, self.home(), config.excluded.deep_view());
                let st = join_seq(self.home(), start@);
                match r {
                    Ok(v) => {
                        &&& rinc is Ok
                        &&& rexc is Ok
                        &&& start@ != seq!['.'] ==> fs@.dom().contains(st) && !(fs@[st] is Symlink)
                        &&& forall|p: Seq<char>| #[trigger]
                            v.deep_view().contains(p) <==> walk_selects(
                                fs@,
                                self.home(),
                                rinc->Ok_0,
                                rexc->Ok_0,
                                start@,
                                p,
                            )
                        &&& forall|a: int, b: int|
                            0 <= a < b < v.deep_view().len() ==> v.deep_view()[a]
                                != v.deep_view()[b]
                        &&& forall|t: int|
                            0 <= t < v.deep_view().len() ==> valid_rel(#[trigger] v.deep_view()[t])
                    },
                    Err(e) => {
                        if rinc is Err {
                            e@ == rinc->Err_0
                        } else if rexc is Err {
                            e@ == rexc->Err_0
                        } else {
                            &&& start@ != seq!['.']
                            &&& if !fs@.dom().contains(st) {
                                e@ == (ErrorV::NotFound { path: st })
                            } else {
                                fs@[st] is Symlink && e@ == (ErrorV::Traversal { path: st })
                            }
                        }
                    },
                }
            }),
    {
        let ms: Matchers = match Matchers::compile(
            fs,
            self.home_dir.as_str(),
            &config.included,
            &config.excluded,
        ) {
            Ok(ms) => ms,
            Err(e) => {
                return Err(e);
            },
        };
        let start_is_dot: bool = str_eq(start, ".");
        proof {
            reveal_strlit(".");
            assert("."@ =~= seq!['.']);
        }
        if !start_is_dot {
            let st: String = join_path(self.home_dir.as_str(), start);
            match fs.lookup(&st) {
                None => {
                    return Err(Error::NotFound { path: st });
                },
                Some(e) => match e {
                    FsEntry::Symlink(_) => {
                        return Err(Error::Traversal { path: st });
                    },
                    _ => {},
                },
            }
        }
        let ghost inc = ms.included@;
        let ghost exc = ms.excluded@;
        let cnt: usize = fs.entry_count();
        let mut res: Vec<String> = Vec::new();
        let mut i: usize = 0;
        while i < cnt
            invariant
                fs.wf(),
                cnt == fs.entry_seq().len(),
                i <= cnt,
                inc == ms.included@,
                exc == ms.excluded@,
                start_is_dot == (start@ == seq!['.']),
                forall|p: Seq<char>| #[trigger]
                    res.deep_view().contains(p) <==> (exists|j: int|
                        0 <= j < i && entry_is(fs, self.home(), p, j)) && valid_rel(p) && in_scope(
                        start@,
                        p,
                    ) && selected(inc, exc, p),
                forall|a: int, b: int|
                    0 <= a < b < res.deep_view().len() ==> res.deep_view()[a] != res.deep_view()[b],
            decreases cnt - i,
        {
            let (k, e) = fs.entry_at(i);
            let is_file: bool = match e {
                FsEntry::File(_) => true,
                _ => false,
            };
            let under_home: bool = is_under_dir(k.as_str(), self.home_dir.as_str());
            let ghost pre = res.deep_view();
            let ghost home = self.home();
            if is_file && under_home {
                let rel: String = strip_dir(k.as_str(), self.home_dir.as_str());
                let ghost grel = rel@;
                proof {
                    assert(k@ =~= join_seq(home, grel));
                }
                let scope: bool = if start_is_dot {
                    true
                } else {
                    if str_eq(rel.as_str(), start) {
                        true
                    } else {
                        is_under_dir(rel.as_str(), start)
                    }
                };
                let matched: bool = ms.matches(rel.as_str());
                let normal: bool = crate::paths::is_valid_rel(rel.as_str());
                if normal && scope && matched {
                    proof {
                        if res.deep_view().contains(grel) {
                            let j = choose|j: int| 0 <= j < i && entry_is(fs, home, grel, j);
                            fs.lemma_entry_seq_uniq();
                            assert(fs.entry_seq()[j].0 == fs.entry_seq()[i as int].0);
                            assert(false);
                        }
                    }
                    res.push(rel);
                    proof {
                        assert(res.deep_view() =~= pre.push(grel));
                        assert(entry_is(fs, home, grel, i as int));
                        assert forall|p: Seq<char>| #[trigger] res.deep_view().contains(
                            p,
                        ) implies (exists|j: int| 0 <= j < i + 1 && entry_is(fs, home, p, j))
                            && valid_rel(p) && in_scope(start@, p) && selected(inc, exc, p) by {
                            if p == grel {
                            } else {
                                assert(pre.contains(p));
                            }
                        }
                        assert forall|p: Seq<char>|
                            (exists|j: int| 0 <= j < i + 1 && entry_is(fs, home, p, j))
                                && valid_rel(p) && in_scope(start@, p) && selected(
                                inc,
                                exc,
                                p,
                            ) implies #[trigger] res.deep_view().contains(p) by {
                            let j = choose|j: int| 0 <= j < i + 1 && entry_is(fs, home, p, j);
                            if j == i as int {
                                lemma_join_injective(home, p, grel);
                                assert(res.deep_view()[pre.len() as int] == grel);
                            } else {
                                assert(pre.contains(p));
                                let t = choose|t: int| 0 <= t < pre.len() && pre[t] == p;
                                assert(res.deep_view()[t] == p);
                            }
                        }
                    }
                } else {
                    proof {
                        assert forall|p: Seq<char>|
                            (exists|j: int| 0 <= j < i + 1 && entry_is(fs, home, p, j))
                                && valid_rel(p) && in_scope(start@, p) && selected(
                                inc,
                                exc,
                                p,
                            ) implies #[trigger] res.deep_view().contains(p) by {
                            let j = choose|j: int| 0 <= j < i + 1 && entry_is(fs, home, p, j);
                            if j == i as int {
                                lemma_join_injective(home, p, grel);
                                assert(p == grel);
                                assert(false);
                            } else {
                                assert(pre.contains(p));
                            }
                        }
                    }
                }
            } else {
                proof {
                    assert forall|p: Seq<char>|
                        (exists|j: int| 0 <= j < i + 1 && entry_is(fs, home, p, j)) && valid_rel(
                            p,
                        ) && in_scope(start@, p) && selected(inc, exc, p) implies #[trigger]
                        res.deep_view().contains(p) by {
                        let j = choose|j: int| 0 <= j < i + 1 && entry_is(fs, home, p, j);
                        if j == i as int {
                            lemma_join_under(home, p);
                            assert(false);
                        } else {
                            assert(pre.contains(p));
                        }
                    }
                }
            }
            i = i + 1;
        }
        proof {
            let home = self.home();
            assert forall|p: Seq<char>| #[trigger] res.deep_view().contains(p) implies walk_selects(
                fs@,
                home,
                inc,
                exc,
                start@,
                p,
            ) by {
                let j = choose|j: int| 0 <= j < cnt && entry_is(fs, home, p, j);
                fs.lemma_entry_view(j);
            }
            assert forall|p: Seq<char>| walk_selects(fs@, home, inc, exc, start@, p) implies #[trigger]
                res.deep_view().contains(p) by {
                fs.lemma_entry_seq_covers(join_seq(home, p));
                let j = choose|j: int|
                    0 <= j < fs.entry_seq().len() && (#[trigger] fs.entry_seq()[j]).0 == join_seq(
                        home,
                        p,
                    );
                fs.lemma_entry_view(j);
                assert(entry_is(fs, home, p, j));
            }
            assert forall|t: int| 0 <= t < res.deep_view().len() implies valid_rel(
                #[trigger] res.deep_view()[t],
            ) by {
                assert(res.deep_view().contains(res.deep_view()[t]));
            }
        }
        Ok(res)
    }

    /// Creates the home-side symlink for one stored path, deleting a
    /// foreign entry in the way and retrying once.
    fn link_one(&self, fs: &mut FsTree, p: &str, acts: &mut Vec<Action>) -> (r: Result<(), Error>)
        requires
            old(fs).wf(),
        ensures
            final(fs).wf(),
            ({
                let (m2, a2, e2) = link_step(old(fs)@, self.home(), self.storage(), p@);
                &&& final(fs)@ == m2
                &&& acts_view(final(acts)@) == acts_view(old(acts)@) + a2
                &&& match r {
                    Ok(_) => e2 is None,
                    Err(e) => e2 == Some(e@),
                }
            }),
    {
        let h: String = join_path(self.home_dir.as_str(), p);
        let s: String = join_path(self.file_dir.as_str(), p);
        let ghost a0 = acts@;
        match fs.symlink(&s, &h) {
            Ok(_) => {
                acts.push(Action::Symlink { target: s, link: h });
                proof {
                    assert(acts_view(acts@) =~= acts_view(a0) + link_step(
                        old(fs)@,
                        self.home(),
                        self.storage(),
                        p@,
                    ).1);
                }
                Ok(())
            },
            Err(first) => {
                match first {
                    Error::AlreadyExists { .. } => {
                        match fs.remove_file(&h) {
                            Err(e2) => {
                                proof {
                                    assert(acts_view(acts@) =~= acts_view(a0) + Seq::<
                                        ActionV,
                                    >::empty());
                                }
                                Err(e2)
                            },
                            Ok(_) => {
                                acts.push(Action::Remove { path: h.clone() });
                                let second = fs.symlink(&s, &h);
                                match second {
                                    Ok(_) => {
                                        acts.push(Action::Symlink { target: s, link: h });
                                        proof {
                                            assert(acts_view(acts@) =~= acts_view(a0) + link_step(
                                                old(fs)@,
                                                self.home(),
                                                self.storage(),
                                                p@,
                                            ).1);
                                        }
                                        Ok(())
                                    },
                                    Err(e3) => {
                                        proof {
                                            assert(acts_view(acts@) =~= acts_view(a0) + link_step(
                                                old(fs)@,
                                                self.home(),
                                                self.storage(),
                                                p@,
                                            ).1);
                                        }
                                        Err(e3)
                                    },
                                }
                            },
                        }
                    },
                    _ => {
                        proof {
                            assert(acts_view(acts@) =~= acts_view(a0) + Seq::<ActionV>::empty());
                        }
                        Err(first)
                    },
                }
            },
        }
    }
}

} // verus!
