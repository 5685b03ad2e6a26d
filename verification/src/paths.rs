//! Paths as plain strings.
//!
//! Every path handled by the library is a normalised string: an absolute
//! root such as `/home/user` (leading `/`, no trailing `/`) or a relative
//! path such as `.config/foo` (no leading or trailing `/`).  No path
//! resolution takes place anywhere: a path below a directory is recognised
//! purely by the text, with the component boundary made explicit by a `/`.

use vstd::assert_seqs_equal;
use vstd::prelude::*;

verus! {

/// The absolute path of `rel` inside the directory `dir`.
pub open spec fn join_seq(dir: Seq<char>, rel: Seq<char>) -> Seq<char> {
    dir + seq!['/'] + rel
}

/// `path` lies strictly below the directory `dir`.
pub open spec fn under_dir(path: Seq<char>, dir: Seq<char>) -> bool {
    &&& path.len() > dir.len()
    &&& path.subrange(0, dir.len() as int) == dir
    &&& path[dir.len() as int] == '/'
}

/// `path` is `dir` itself or lies below it.
pub open spec fn at_or_under(path: Seq<char>, dir: Seq<char>) -> bool {
    path == dir || under_dir(path, dir)
}

/// Neither path contains the other.
pub open spec fn incomparable(a: Seq<char>, b: Seq<char>) -> bool {
    !at_or_under(a, b) && !at_or_under(b, a)
}

/// An absolute, normalised root directory: begins with `/`, does not end
/// with `/`.  The filesystem root `/` itself is not a usable root here.
pub open spec fn valid_root(r: Seq<char>) -> bool {
    &&& r.len() > 1
    &&& r[0] == '/'
    &&& r[r.len() - 1] != '/'
}

/// A normalised relative path: nonempty, neither begins nor ends with `/`.
pub open spec fn valid_rel(p: Seq<char>) -> bool {
    &&& p.len() > 0
    &&& p[0] != '/'
    &&& p[p.len() - 1] != '/'
}

/// The suffix of `path` below `dir`, without the separator.
pub open spec fn rel_suffix(path: Seq<char>, dir: Seq<char>) -> Seq<char> {
    path.subrange(dir.len() as int + 1, path.len() as int)
}

/// `k`, a path at or under `from`, re-anchored at `to`.
pub open spec fn remap_path(k: Seq<char>, from: Seq<char>, to: Seq<char>) -> Seq<char> {
    to + k.subrange(from.len() as int, k.len() as int)
}

/// Equality of two string slices.
pub fn str_eq(a: &str, b: &str) -> (r: bool)
    ensures
        r == (a@ == b@),
{
    let sa: String = a.to_owned();
    let sb: String = b.to_owned();
    sa == sb
}

/// Joins a directory and a path below it with the separator.
pub fn join_path(dir: &str, rel: &str) -> (r: String)
    ensures
        r@ == join_seq(dir@, rel@),
{
    let mut r: String = dir.to_owned();
    r.append("/");
    r.append(rel);
    proof {
        reveal_strlit("/");
        assert(r@ =~= join_seq(dir@, rel@));
    }
    r
}

/// Whether `path` lies strictly below the directory `dir`.
pub fn is_under_dir(path: &str, dir: &str) -> (r: bool)
    ensures
        r == under_dir(path@, dir@),
{
    let plen: usize = path.unicode_len();
    let dlen: usize = dir.unicode_len();
    if plen <= dlen {
        return false;
    }
    let head: &str = path.substring_char(0, dlen);
    if !str_eq(head, dir) {
        return false;
    }
    path.get_char(dlen) == '/'
}

/// Whether `path` is `dir` itself or lies below it.
pub fn is_at_or_under(path: &str, dir: &str) -> (r: bool)
    ensures
        r == at_or_under(path@, dir@),
{
    if str_eq(path, dir) {
        true
    } else {
        is_under_dir(path, dir)
    }
}

/// `s` with every trailing separator dropped.
pub open spec fn trim_trailing_seps(s: Seq<char>) -> Seq<char>
    decreases s.len(),
{
    if s.len() > 0 && s[s.len() - 1] == '/' {
        trim_trailing_seps(s.drop_last())
    } else {
        s
    }
}

/// The home-relative form of a command-line path: after trailing
/// separators are dropped, a path strictly below the home root loses the
/// home prefix, and anything else is taken as already relative.
pub open spec fn home_relative(home: Seq<char>, p: Seq<char>) -> Seq<char> {
    let t = trim_trailing_seps(p);
    if under_dir(t, home) {
        rel_suffix(t, home)
    } else {
        t
    }
}

/// Makes a command-line path relative to the home root.
pub fn home_relative_path(home: &str, p: &str) -> (r: String)
    ensures
        r@ == home_relative(home@, p@),
{
    let mut n: usize = p.unicode_len();
    proof {
        assert(p@.take(n as int) =~= p@);
    }
    while n > 0 && p.get_char(n - 1) == '/'
        invariant
            n <= p@.len(),
            trim_trailing_seps(p@) == trim_trailing_seps(p@.take(n as int)),
        decreases n,
    {
        proof {
            assert(p@.take(n as int).drop_last() =~= p@.take(n as int - 1));
        }
        n = n - 1;
    }
    proof {
        assert(trim_trailing_seps(p@) == p@.take(n as int));
    }
    let t: &str = p.substring_char(0, n);
    if is_under_dir(t, home) {
        strip_dir(t, home)
    } else {
        t.to_owned()
    }
}

/// Whether `p` is a normalised relative path.
pub fn is_valid_rel(p: &str) -> (r: bool)
    ensures
        r == valid_rel(p@),
{
    let n: usize = p.unicode_len();
    if n == 0 {
        return false;
    }
    p.get_char(0) != '/' && p.get_char(n - 1) != '/'
}

/// The path of `path` relative to the directory `dir` above it.
pub fn strip_dir(path: &str, dir: &str) -> (r: String)
    requires
        under_dir(path@, dir@),
    ensures
        r@ == rel_suffix(path@, dir@),
{
    let plen: usize = path.unicode_len();
    let dlen: usize = dir.unicode_len();
    let tail: &str = path.substring_char(dlen + 1, plen);
    tail.to_owned()
}

/// Re-anchors `k`, a path at or under `from_dir`, at `to_dir`.
pub fn remap_under(k: &str, from_dir: &str, to_dir: &str) -> (r: String)
    requires
        at_or_under(k@, from_dir@),
    ensures
        r@ == remap_path(k@, from_dir@, to_dir@),
{
    let klen: usize = k.unicode_len();
    let flen: usize = from_dir.unicode_len();
    let mut r: String = to_dir.to_owned();
    let tail: &str = k.substring_char(flen, klen);
    r.append(tail);
    r
}

/// A joined path always lies strictly below the directory it was joined to.
pub proof fn lemma_join_under(dir: Seq<char>, rel: Seq<char>)
    ensures
        under_dir(join_seq(dir, rel), dir),
{
    assert(join_seq(dir, rel).subrange(0, dir.len() as int) =~= dir);
    assert(join_seq(dir, rel)[dir.len() as int] == '/');
}

/// Joining is injective in the relative part.
pub proof fn lemma_join_injective(dir: Seq<char>, a: Seq<char>, b: Seq<char>)
    requires
        join_seq(dir, a) == join_seq(dir, b),
    ensures
        a == b,
{
    assert(a =~= join_seq(dir, a).subrange(dir.len() as int + 1, join_seq(dir, a).len() as int));
    assert(b =~= join_seq(dir, b).subrange(dir.len() as int + 1, join_seq(dir, b).len() as int));
}

/// Two directories both containing a common path are comparable.
pub proof fn lemma_prefix_comparable(x: Seq<char>, a: Seq<char>, b: Seq<char>)
    requires
        at_or_under(x, a),
        at_or_under(x, b),
    ensures
        at_or_under(a, b) || at_or_under(b, a),
{
    if x == a || x == b {
    } else {
        if a.len() == b.len() {
            assert(a =~= b);
        } else if a.len() < b.len() {
            assert(b.subrange(0, a.len() as int) =~= a) by {
                assert(forall|i: int| 0 <= i < a.len() ==> b[i] == x[i] && a[i] == x[i]);
            }
            assert(b[a.len() as int] == x[a.len() as int]);
        } else {
            assert(a.subrange(0, b.len() as int) =~= b) by {
                assert(forall|i: int| 0 <= i < b.len() ==> a[i] == x[i] && b[i] == x[i]);
            }
            assert(a[b.len() as int] == x[b.len() as int]);
        }
    }
}

/// Containment of paths in directories is transitive.
pub proof fn lemma_at_or_under_trans(x: Seq<char>, a: Seq<char>, b: Seq<char>)
    requires
        at_or_under(x, a),
        at_or_under(a, b),
    ensures
        at_or_under(x, b),
{
    if x == a || a == b {
    } else {
        assert(x.subrange(0, b.len() as int) =~= b) by {
            assert(forall|i: int| 0 <= i < a.len() ==> x[i] == a[i]);
            assert(forall|i: int| 0 <= i < b.len() ==> a[i] == b[i]);
        }
        assert(x[b.len() as int] == a[b.len() as int]);
    }
}

/// Re-anchoring a path takes it below the new root and can be undone by
/// re-anchoring back.
pub proof fn lemma_remap_roundtrip(k: Seq<char>, from: Seq<char>, to: Seq<char>)
    requires
        at_or_under(k, from),
    ensures
        at_or_under(remap_path(k, from, to), to),
        remap_path(remap_path(k, from, to), to, from) == k,
        k == from ==> remap_path(k, from, to) == to,
{
    let s = k.subrange(from.len() as int, k.len() as int);
    let r = remap_path(k, from, to);
    if k == from {
        assert(s =~= Seq::<char>::empty());
        assert(r =~= to);
        assert(remap_path(r, to, from) =~= k);
    } else {
        assert(k[from.len() as int] == '/');
        assert(r.subrange(0, to.len() as int) =~= to);
        assert(r[to.len() as int] == '/');
        assert(under_dir(r, to));
        assert(remap_path(r, to, from) =~= k);
    }
}

/// Joining two paths to the same root preserves their relative containment.
pub proof fn lemma_join_preserves_order(dir: Seq<char>, a: Seq<char>, b: Seq<char>)
    ensures
        at_or_under(join_seq(dir, a), join_seq(dir, b)) <==> at_or_under(a, b),
{
    let ja = join_seq(dir, a);
    let jb = join_seq(dir, b);
    if a == b {
        assert(ja =~= jb);
    }
    if ja == jb {
        lemma_join_injective(dir, a, b);
    }
    if under_dir(a, b) {
        assert(ja.subrange(0, jb.len() as int) =~= jb) by {
            assert(forall|i: int| 0 <= i < b.len() ==> a[i] == b[i]);
        }
        assert(ja[jb.len() as int] == a[b.len() as int]);
        assert(under_dir(ja, jb));
    }
    if under_dir(ja, jb) && ja != jb && a != b {
        let d = dir.len() as int;
        assert_seqs_equal!(a.subrange(0, b.len() as int) == b, i => {
            assert(b[i] == jb[d + 1 + i]);
            assert(a[i] == ja[d + 1 + i]);
            assert(jb[d + 1 + i] == ja.subrange(0, jb.len() as int)[d + 1 + i]);
        });
        assert(a[b.len() as int] == ja[jb.len() as int]);
        assert(under_dir(a, b));
    }
}

} // verus!
