//! The engine's guarantees that span several operations.
//!
//! Each proof function here states one law over the specification
//! functions that the engine's contracts are written in, so the laws
//! carry over to the executable operations through those contracts.

use vstd::prelude::*;

use crate::errors::ErrorV;
use crate::files::{
    batch_ok, fully_managed, home_linked, link_step, msl_fold, msl_step, restore_fold,
    restore_step, rr_spec, sbh_fold, stored, unlink_fold, unlink_step, walk_selects, ActionV,
};
use crate::fs::{
    parents_clear, parents_ok, rename_map, rename_ok, tree_closed, with_parent_dirs, EntryV,
};
use crate::matcher::{any_match, selected};
use crate::paths::{
    at_or_under, incomparable, join_seq, lemma_at_or_under_trans, lemma_join_preserves_order,
    lemma_join_under, lemma_prefix_comparable, lemma_remap_roundtrip, remap_path, under_dir,
    valid_rel,
};

verus! {

/// A successful move-and-link step leaves its path home-linked, and a
/// path that was not yet linked also stored.
proof fn lemma_msl_step_links(
    m: Map<Seq<char>, EntryV>,
    home: Seq<char>,
    sto: Seq<char>,
    p: Seq<char>,
)
    requires
        incomparable(join_seq(home, p), sto),
        msl_step(m, home, sto, p).2 is None,
    ensures
        home_linked(msl_step(m, home, sto, p).0, home, sto, p),
        !home_linked(m, home, sto, p) ==> stored(msl_step(m, home, sto, p).0, sto, p),
{
    let h = join_seq(home, p);
    let s = join_seq(sto, p);
    lemma_join_under(sto, p);
    assert(at_or_under(s, sto));
    assert(h != s);
    if !home_linked(m, home, sto, p) && !stored(m, sto, p) {
        let md = with_parent_dirs(m, s);
        let mv = rename_map(md, h, s);
        lemma_remap_roundtrip(s, s, h);
        assert(mv.dom().contains(s)) by {
            assert(at_or_under(s, s));
            assert(remap_path(s, s, h) == h);
            assert(md.dom().contains(h));
        }
    }
}

/// A move-and-link step of one path reads and writes nothing at another,
/// incomparable path's home or storage location, whatever the outcome.
proof fn lemma_msl_step_untouched(
    m: Map<Seq<char>, EntryV>,
    home: Seq<char>,
    sto: Seq<char>,
    p: Seq<char>,
    q: Seq<char>,
)
    requires
        incomparable(p, q),
        incomparable(join_seq(home, p), sto),
        incomparable(join_seq(home, q), sto),
    ensures
        ({
            let m1 = msl_step(m, home, sto, q).0;
            let hp = join_seq(home, p);
            let sp = join_seq(sto, p);
            &&& m1.dom().contains(hp) == m.dom().contains(hp)
            &&& m.dom().contains(hp) ==> m1[hp] == m[hp]
            &&& m1.dom().contains(sp) == m.dom().contains(sp)
            &&& m.dom().contains(sp) ==> m1[sp] == m[sp]
        }),
{
    let hp = join_seq(home, p);
    let sp = join_seq(sto, p);
    let hq = join_seq(home, q);
    let sq = join_seq(sto, q);
    lemma_join_preserves_order(home, p, q);
    lemma_join_preserves_order(home, q, p);
    lemma_join_preserves_order(sto, p, q);
    lemma_join_preserves_order(sto, q, p);
    lemma_join_under(sto, p);
    lemma_join_under(sto, q);
    // the home location of `p` is incomparable with everything touched
    assert(hp != hq && !at_or_under(hp, hq));
    if at_or_under(hp, sq) {
        lemma_at_or_under_trans(hp, sq, sto);
        assert(false);
    }
    if under_dir(sq, hp) {
        lemma_prefix_comparable(sq, hp, sto);
        assert(false);
    }
    // so is the storage location of `p`
    assert(sp != sq && !at_or_under(sp, sq));
    if at_or_under(sp, hq) {
        assert(at_or_under(sp, sto));
        lemma_prefix_comparable(sp, hq, sto);
        assert(false);
    }
    if under_dir(sq, sp) {
        assert(at_or_under(sq, sp));
        assert(false);
    }
    assert(hq != sp) by {
        if hq == sp {
            assert(at_or_under(hq, sto));
        }
    }
    let md = with_parent_dirs(m, sq);
    assert(md.dom().contains(hp) == m.dom().contains(hp));
    assert(md.dom().contains(sp) == m.dom().contains(sp));
    let mv = rename_map(md, hq, sq);
    assert(mv.dom().contains(hp) == md.dom().contains(hp));
    assert(mv.dom().contains(sp) == md.dom().contains(sp));
}

/// What a fold of move-and-link steps over other paths leaves untouched:
/// the home and storage locations of a path incomparable with all of
/// them.
proof fn lemma_msl_fold_untouched(
    m: Map<Seq<char>, EntryV>,
    home: Seq<char>,
    sto: Seq<char>,
    ps: Seq<Seq<char>>,
    p: Seq<char>,
)
    requires
        forall|i: int| 0 <= i < ps.len() ==> incomparable(p, #[trigger] ps[i]),
        forall|i: int| 0 <= i < ps.len() ==> incomparable(join_seq(home, #[trigger] ps[i]), sto),
        incomparable(join_seq(home, p), sto),
    ensures
        ({
            let m1 = msl_fold(m, home, sto, ps).0;
            let hp = join_seq(home, p);
            let sp = join_seq(sto, p);
            &&& m1.dom().contains(hp) == m.dom().contains(hp)
            &&& m.dom().contains(hp) ==> m1[hp] == m[hp]
            &&& m1.dom().contains(sp) == m.dom().contains(sp)
            &&& m.dom().contains(sp) ==> m1[sp] == m[sp]
        }),
    decreases ps.len(),
{
    if ps.len() > 0 {
        let ps0 = ps.drop_last();
        assert(forall|i: int| 0 <= i < ps0.len() ==> ps0[i] == ps[i]);
        lemma_msl_fold_untouched(m, home, sto, ps0, p);
        let (m1, a1, e1) = msl_fold(m, home, sto, ps0);
        if !(e1 is Some) {
            lemma_msl_step_untouched(m1, home, sto, p, ps.last());
        }
    }
}

/// A move-and-link step of one path leaves another, incomparable path's
/// home-side entry untouched, whatever the step's outcome.
proof fn lemma_msl_step_preserves(
    m: Map<Seq<char>, EntryV>,
    home: Seq<char>,
    sto: Seq<char>,
    p: Seq<char>,
    q: Seq<char>,
)
    requires
        incomparable(p, q),
        incomparable(join_seq(home, p), sto),
        home_linked(m, home, sto, p),
    ensures
        home_linked(msl_step(m, home, sto, q).0, home, sto, p),
{
    let hp = join_seq(home, p);
    let hq = join_seq(home, q);
    let sq = join_seq(sto, q);
    lemma_join_preserves_order(home, p, q);
    assert(hp != hq);
    lemma_join_under(sto, q);
    if at_or_under(hp, sq) {
        lemma_at_or_under_trans(hp, sq, sto);
        assert(false);
    }
    if at_or_under(hp, hq) {
        assert(false);
    }
    let md = with_parent_dirs(m, sq);
    assert(md.dom().contains(hp) && md[hp] == m[hp]);
    let mv = rename_map(md, hq, sq);
    assert(mv.dom().contains(hp) && mv[hp] == m[hp]);
}

/// After a successful batch, every path of the batch is home-linked, and
/// every path that was not linked at the start is also stored.
proof fn lemma_msl_fold_links(
    m: Map<Seq<char>, EntryV>,
    home: Seq<char>,
    sto: Seq<char>,
    ps: Seq<Seq<char>>,
)
    requires
        batch_ok(home, sto, ps),
        msl_fold(m, home, sto, ps).2 is None,
    ensures
        forall|i: int|
            0 <= i < ps.len() ==> home_linked(
                msl_fold(m, home, sto, ps).0,
                home,
                sto,
                #[trigger] ps[i],
            ),
        forall|i: int|
            0 <= i < ps.len() && !home_linked(m, home, sto, #[trigger] ps[i]) ==> stored(
                msl_fold(m, home, sto, ps).0,
                sto,
                ps[i],
            ),
    decreases ps.len(),
{
    if ps.len() > 0 {
        let ps0 = ps.drop_last();
        let (m1, a1, e1) = msl_fold(m, home, sto, ps0);
        assert(e1 is None);
        assert(batch_ok(home, sto, ps0)) by {
            assert(forall|i: int| 0 <= i < ps0.len() ==> ps0[i] == ps[i]);
        }
        lemma_msl_fold_links(m, home, sto, ps0);
        let q = ps.last();
        let (m2, a2, e2) = msl_step(m1, home, sto, q);
        assert(e2 is None);
        lemma_msl_step_links(m1, home, sto, q);
        assert(forall|i: int| 0 <= i < ps0.len() ==> incomparable(q, #[trigger] ps0[i]));
        assert(forall|i: int|
            0 <= i < ps0.len() ==> incomparable(join_seq(home, #[trigger] ps0[i]), sto));
        lemma_msl_fold_untouched(m, home, sto, ps0, q);
        assert(home_linked(m1, home, sto, q) == home_linked(m, home, sto, q));
        assert forall|i: int| 0 <= i < ps.len() implies home_linked(
            m2,
            home,
            sto,
            #[trigger] ps[i],
        ) && (!home_linked(m, home, sto, ps[i]) ==> stored(m2, sto, ps[i])) by {
            if i < ps.len() - 1 {
                assert(ps0[i] == ps[i]);
                assert(home_linked(m1, home, sto, ps[i]));
                lemma_msl_step_preserves(m1, home, sto, ps[i], q);
                lemma_msl_step_untouched(m1, home, sto, ps[i], q);
                if !home_linked(m, home, sto, ps[i]) {
                    assert(stored(m1, sto, ps[i]));
                }
            }
        }
    }
}

/// A batch whose every path is already home-linked is a no-op: the state
/// is unchanged and not a single action is performed.
proof fn lemma_msl_fold_identity(
    m: Map<Seq<char>, EntryV>,
    home: Seq<char>,
    sto: Seq<char>,
    ps: Seq<Seq<char>>,
)
    requires
        forall|i: int| 0 <= i < ps.len() ==> home_linked(m, home, sto, #[trigger] ps[i]),
    ensures
        msl_fold(m, home, sto, ps) == (m, Seq::<ActionV>::empty(), None::<ErrorV>),
    decreases ps.len(),
{
    if ps.len() > 0 {
        let ps0 = ps.drop_last();
        assert(forall|i: int| 0 <= i < ps0.len() ==> ps0[i] == ps[i]);
        lemma_msl_fold_identity(m, home, sto, ps0);
        assert(home_linked(m, home, sto, ps.last()));
        assert(Seq::<ActionV>::empty() + Seq::<ActionV>::empty() =~= Seq::<ActionV>::empty());
    }
}

/// Idempotence: after a batch of `move_and_symlink` succeeds, running
/// the same batch again on the unchanged filesystem changes nothing and
/// performs not a single move, link, delete or directory creation.
pub proof fn lemma_move_and_symlink_idempotent(
    m: Map<Seq<char>, EntryV>,
    home: Seq<char>,
    sto: Seq<char>,
    ps: Seq<Seq<char>>,
)
    requires
        batch_ok(home, sto, ps),
        msl_fold(m, home, sto, ps).2 is None,
    ensures
        ({
            let m1 = msl_fold(m, home, sto, ps).0;
            msl_fold(m1, home, sto, ps) == (m1, Seq::<ActionV>::empty(), None::<ErrorV>)
        }),
{
    lemma_msl_fold_links(m, home, sto, ps);
    lemma_msl_fold_identity(msl_fold(m, home, sto, ps).0, home, sto, ps);
}

/// Target state: after `move_and_symlink` succeeds on a batch, every
/// path of the batch is home-linked, and every path that was not already
/// home-linked beforehand is fully managed — home-linked with a storage
/// copy.  A path that was already linked is skipped untouched, so a link
/// whose storage copy is missing stays as it was.
pub proof fn lemma_move_and_symlink_manages(
    m: Map<Seq<char>, EntryV>,
    home: Seq<char>,
    sto: Seq<char>,
    ps: Seq<Seq<char>>,
)
    requires
        batch_ok(home, sto, ps),
        msl_fold(m, home, sto, ps).2 is None,
    ensures
        forall|i: int|
            0 <= i < ps.len() ==> home_linked(
                msl_fold(m, home, sto, ps).0,
                home,
                sto,
                #[trigger] ps[i],
            ),
        forall|i: int|
            0 <= i < ps.len() && !home_linked(m, home, sto, #[trigger] ps[i]) ==> fully_managed(
                msl_fold(m, home, sto, ps).0,
                home,
                sto,
                ps[i],
            ),
{
    lemma_msl_fold_links(m, home, sto, ps);
}

/// Round trip: on a path that is not yet managed and has no storage
/// copy, a successful `move_and_symlink` followed by `remove_and_restore`
/// succeeds, puts the original entry back at the home location with its
/// content intact, and leaves no entry at the storage location.
///
/// A storage copy placed there beforehand is genuinely excluded: on such
/// a path the move is skipped and a restore would bring back the storage
/// copy, not the home content.
pub proof fn lemma_round_trip(
    m: Map<Seq<char>, EntryV>,
    home: Seq<char>,
    sto: Seq<char>,
    p: Seq<char>,
)
    requires
        tree_closed(m),
        valid_rel(p),
        incomparable(join_seq(home, p), sto),
        !home_linked(m, home, sto, p),
        !stored(m, sto, p),
        msl_fold(m, home, sto, seq![p]).2 is None,
    ensures
        ({
            let m1 = msl_fold(m, home, sto, seq![p]).0;
            let rr = rr_spec(m1, home, sto, seq![p]);
            &&& rr.2 is None
            &&& rr.0.dom().contains(join_seq(home, p))
            &&& rr.0[join_seq(home, p)] == m[join_seq(home, p)]
            &&& !rr.0.dom().contains(join_seq(sto, p))
        }),
{
    let h = join_seq(home, p);
    let s = join_seq(sto, p);
    let ps = seq![p];
    assert(ps.drop_last() =~= Seq::<Seq<char>>::empty());
    assert(ps.last() == p);
    assert(msl_fold(m, home, sto, Seq::<Seq<char>>::empty()) == (
        m,
        Seq::<ActionV>::empty(),
        None::<ErrorV>,
    ));
    assert(msl_fold(m, home, sto, ps).0 == msl_step(m, home, sto, p).0);
    assert(msl_fold(m, home, sto, ps).2 == msl_step(m, home, sto, p).2);
    lemma_join_under(sto, p);
    lemma_join_under(home, p);
    if at_or_under(h, s) {
        lemma_at_or_under_trans(h, s, sto);
        assert(false);
    }
    if at_or_under(s, h) {
        lemma_prefix_comparable(s, h, sto);
        assert(false);
    }
    // the move branch was taken and succeeded
    assert(m.dom().contains(h));
    let md0 = with_parent_dirs(m, s);
    let mv = rename_map(md0, h, s);
    assert(md0.dom().contains(h) && md0[h] == m[h]);
    // the moved entry sits at the storage location
    lemma_remap_roundtrip(s, s, h);
    assert(mv.dom().contains(s) && mv[s] == m[h]) by {
        assert(at_or_under(s, s));
        assert(remap_path(s, s, h) == h);
    }
    // the home location is free after the move
    assert(!mv.dom().contains(h)) by {
        assert(at_or_under(h, h));
    }
    // the link step inserted the managed symlink
    let (m1, a1, e1) = link_step(mv, home, sto, p);
    assert(e1 is None);
    assert(m1 == mv.insert(h, EntryV::Symlink(s)));
    assert(msl_step(m, home, sto, p).0 == m1);
    // every directory above the home location survives the round trip
    assert forall|kp: Seq<char>| kp.len() > 0 && #[trigger] under_dir(h, kp) implies m1.dom()
        .contains(kp) && m1[kp] is Dir by {
        assert(m.dom().contains(kp) && m[kp] is Dir);
        assert(md0.dom().contains(kp) && md0[kp] == m[kp]);
        if at_or_under(kp, s) {
            lemma_at_or_under_trans(h, kp, s);
            assert(false);
        }
        if at_or_under(kp, h) {
            assert(under_dir(h, kp) && at_or_under(kp, h));
            assert(kp.len() < h.len());
            assert(false);
        }
        assert(mv.dom().contains(kp) && mv[kp] == m[kp]);
        assert(kp != h);
    }
    // the unlink phase removes the symlink
    assert(unlink_fold(m1, home, Seq::<Seq<char>>::empty()) == (
        m1,
        Seq::<ActionV>::empty(),
        None::<ErrorV>,
    ));
    let (mr, ar, er) = unlink_fold(m1, home, ps);
    assert(unlink_step(m1, home, p).0 == m1.remove(h));
    assert(m1[h] is Symlink);
    assert(er is None && mr == m1.remove(h));
    // the restore phase moves the storage entry back
    assert(parents_clear(mr, h));
    let md1 = with_parent_dirs(mr, h);
    assert(md1 =~= mr);
    assert(rename_ok(md1, s, h)) by {
        assert(md1.dom().contains(s));
        assert(!md1.dom().contains(h));
        assert(parents_ok(md1, h));
    }
    let m2 = rename_map(md1, s, h);
    assert(restore_step(mr, home, sto, p).0 == m2);
    assert(restore_step(mr, home, sto, p).2 is None);
    assert(restore_fold(mr, home, sto, Seq::<Seq<char>>::empty()) == (
        mr,
        Seq::<ActionV>::empty(),
        None::<ErrorV>,
    ));
    assert(restore_fold(mr, home, sto, ps).0 == m2);
    assert(restore_fold(mr, home, sto, ps).2 is None);
    // the original entry is back, and storage is clean
    lemma_remap_roundtrip(h, h, s);
    assert(m2.dom().contains(h) && m2[h] == md1[s]) by {
        assert(at_or_under(h, h));
        assert(remap_path(h, h, s) == s);
    }
    assert(md1[s] == m[h]);
    assert(!m2.dom().contains(s)) by {
        assert(at_or_under(s, s));
    }
}

/// Foreign symlink safety: a pre-existing home-side symlink whose target
/// lies outside the storage root is never classified as managed, and a
/// successful `move_and_symlink` moves the foreign link itself into
/// storage like any ordinary entry.
pub proof fn lemma_foreign_symlink_moved(
    m: Map<Seq<char>, EntryV>,
    home: Seq<char>,
    sto: Seq<char>,
    p: Seq<char>,
    t: Seq<char>,
)
    requires
        valid_rel(p),
        incomparable(join_seq(home, p), sto),
        m.dom().contains(join_seq(home, p)),
        m[join_seq(home, p)] == EntryV::Symlink(t),
        !at_or_under(t, sto),
        !stored(m, sto, p),
        msl_step(m, home, sto, p).2 is None,
    ensures
        !home_linked(m, home, sto, p),
        ({
            let m1 = msl_step(m, home, sto, p).0;
            &&& m1.dom().contains(join_seq(sto, p))
            &&& m1[join_seq(sto, p)] == EntryV::Symlink(t)
            &&& fully_managed(m1, home, sto, p)
        }),
{
    let h = join_seq(home, p);
    let s = join_seq(sto, p);
    lemma_join_under(sto, p);
    lemma_join_under(home, p);
    if at_or_under(h, s) {
        lemma_at_or_under_trans(h, s, sto);
        assert(false);
    }
    if at_or_under(s, h) {
        lemma_prefix_comparable(s, h, sto);
        assert(false);
    }
    let md0 = with_parent_dirs(m, s);
    let mv = rename_map(md0, h, s);
    assert(md0.dom().contains(h) && md0[h] == m[h]);
    lemma_remap_roundtrip(s, s, h);
    assert(mv.dom().contains(s) && mv[s] == m[h]) by {
        assert(at_or_under(s, s));
        assert(remap_path(s, s, h) == h);
    }
    assert(!mv.dom().contains(h)) by {
        assert(at_or_under(h, h));
    }
    let (m1, a1, e1) = link_step(mv, home, sto, p);
    assert(e1 is None);
    assert(m1 == mv.insert(h, EntryV::Symlink(s)));
    assert(m1[s] == EntryV::Symlink(t));
    lemma_msl_step_links(m, home, sto, p);
}

/// The repair is never destructive: `symlink_back_home` reads and writes
/// nothing but the home-side link locations of its batch.  Every other
/// location — all content, the whole storage tree — is exactly as it was,
/// whether the repair succeeded or failed.
pub proof fn lemma_symlink_back_home_never_moves(
    m: Map<Seq<char>, EntryV>,
    home: Seq<char>,
    sto: Seq<char>,
    ps: Seq<Seq<char>>,
    k: Seq<char>,
)
    requires
        forall|i: int| 0 <= i < ps.len() ==> k != join_seq(home, #[trigger] ps[i]),
    ensures
        ({
            let m1 = sbh_fold(m, home, sto, ps).0;
            &&& m1.dom().contains(k) == m.dom().contains(k)
            &&& m.dom().contains(k) ==> m1[k] == m[k]
        }),
    decreases ps.len(),
{
    if ps.len() > 0 {
        let ps0 = ps.drop_last();
        assert(forall|i: int| 0 <= i < ps0.len() ==> ps0[i] == ps[i]);
        lemma_symlink_back_home_never_moves(m, home, sto, ps0, k);
        let (m1, a1, e1) = sbh_fold(m, home, sto, ps0);
        if !(e1 is Some) {
            assert(k != join_seq(home, ps.last()));
        }
    }
}

/// Exclude precedence: a path matched by the exclude pattern set is
/// never selected, and never appears in a walk's result, whatever the
/// include patterns say.
pub proof fn lemma_exclude_precedence(
    m: Map<Seq<char>, EntryV>,
    home: Seq<char>,
    inc: Seq<Seq<char>>,
    exc: Seq<Seq<char>>,
    start: Seq<char>,
    p: Seq<char>,
)
    requires
        any_match(exc, p),
    ensures
        !selected(inc, exc, p),
        !walk_selects(m, home, inc, exc, start, p),
{
}

} // verus!
