//! File trees as the contracts see them: regular files, directories and
//! symbolic links under one root, the changes that can be made to them, and
//! what holds of both.
//!
//! Links are kept as they are stored and are followed only at the end of a
//! path: a path that runs through a link names nothing.

use crate::error::IoKind;
use crate::order::{lemma_path_before_irreflexive, lemma_path_before_transitive, path_before};
use crate::path::{
    lemma_rebased_parent, lemma_starts_with_parent, rebased, starts_with, Names,
};
use vstd::prelude::*;

verus! {


/// What stands at a path.
pub enum Content {
    /// A regular file and its bytes.
    File(Seq<u8>),
    /// A directory.
    Dir,
    /// A symbolic link and the path stored in it.
    Link(Names),
}

/// A file tree as the contracts see it: what stands at each path but the
/// root, which is always a directory.
pub type Tree = Map<Names, Content>;

/// Whether every entry of `t` lies in a directory of `t`.
pub open spec fn shaped(t: Tree) -> bool {
    forall|p: Names| #[trigger]
        t.dom().contains(p) ==> p.len() > 0 && entry(t, p.drop_last()) == Some(Content::Dir)
}

/// What stands at `p`, links not followed.
pub open spec fn entry(t: Tree, p: Names) -> Option<Content> {
    if p.len() == 0 {
        Some(Content::Dir)
    } else if t.dom().contains(p) {
        Some(t[p])
    } else {
        None
    }
}

/// How many links in a row are followed before a path is given up.
pub const MAX_HOPS: usize = 40;

/// What `p` leads to when links are followed, at most `hops` of them.
pub open spec fn resolve(t: Tree, p: Names, hops: nat) -> Option<Content>
    decreases hops,
{
    match entry(t, p) {
        Some(Content::Link(to)) => if hops == 0 {
            None
        } else {
            resolve(t, to, (hops - 1) as nat)
        },
        other => other,
    }
}

/// What `p` leads to when links are followed.
pub open spec fn reached(t: Tree, p: Names) -> Option<Content> {
    resolve(t, p, MAX_HOPS as nat)
}

/// `t` without `p` and everything under it.
pub open spec fn without(t: Tree, p: Names) -> Tree {
    Map::new(|q: Names| t.dom().contains(q) && !starts_with(q, p), |q: Names| t[q])
}

/// Whether directories can be made all the way down to `p`: nothing but a
/// directory stands at `p` or above it.
pub open spec fn takes_dirs(t: Tree, p: Names) -> bool {
    forall|n: int| 0 < n <= p.len() ==> {
        let q = #[trigger] p.take(n);
        t.dom().contains(q) ==> t[q] == Content::Dir
    }
}

/// `t` with a directory at `p` and at every path above it.
pub open spec fn with_dirs(t: Tree, p: Names) -> Tree {
    Map::new(
        |q: Names| t.dom().contains(q) || (q.len() > 0 && starts_with(p, q)),
        |q: Names|
            if t.dom().contains(q) {
                t[q]
            } else {
                Content::Dir
            },
    )
}

/// Why nothing new can be put at `p`, if anything stands in the way.
pub open spec fn blocked(t: Tree, p: Names) -> Option<IoKind> {
    if entry(t, p) is Some {
        Some(IoKind::AlreadyExists)
    } else {
        match entry(t, p.drop_last()) {
            None => Some(IoKind::NotFound),
            Some(Content::Dir) => None,
            Some(_) => Some(IoKind::NotADirectory),
        }
    }
}

/// The kind of thing that stands at a path.
#[derive(Debug, Clone, Copy, PartialEq, Eq, Structural)]
pub enum Kind {
    /// A regular file.
    File,
    /// A directory.
    Dir,
    /// A symbolic link.
    Link,
}

/// The kind of `c`.
pub open spec fn kind_of(c: Content) -> Kind {
    match c {
        Content::File(_) => Kind::File,
        Content::Dir => Kind::Dir,
        Content::Link(_) => Kind::Link,
    }
}

/// The kind of what `found` holds, if it holds anything.
pub open spec fn kind_in(found: Option<Content>) -> Option<Kind> {
    match found {
        Some(c) => Some(kind_of(c)),
        None => None,
    }
}

/// A change to a tree, as the contracts see it.
pub enum Step {
    /// Make a directory at the path and at every path above it.
    MakeDirs(Names),
    /// Make a regular file at the path, with these bytes.
    CreateFile(Names, Seq<u8>),
    /// Make a link at the first path that stores the second.
    MakeLink(Names, Names),
    /// Take away the file or link at the path.
    RemoveFile(Names),
    /// Take away the directory at the path and everything under it.
    RemoveTree(Names),
    /// Make at the second path a file with the bytes of the file at the first.
    CopyFile(Names, Names),
    /// Move what stands at the first path, with everything under it, to the
    /// second.
    Move(Names, Names),
}

/// `t` after what stands at `from` has moved to `to` with everything under it.
pub open spec fn moved(t: Tree, from: Names, to: Names) -> Tree {
    Map::new(
        |q: Names|
            (t.dom().contains(q) && !starts_with(q, from)) || (starts_with(q, to)
                && t.dom().contains(rebased(q, to, from))),
        |q: Names|
            if starts_with(q, to) && t.dom().contains(rebased(q, to, from)) {
                t[rebased(q, to, from)]
            } else {
                t[q]
            },
    )
}

/// Why the change `s` cannot be made to `t`, if it cannot.
pub open spec fn refusal(t: Tree, s: Step) -> Option<IoKind> {
    match s {
        Step::MakeDirs(p) => if takes_dirs(t, p) {
            None
        } else {
            Some(IoKind::NotADirectory)
        },
        Step::CreateFile(p, _) => blocked(t, p),
        Step::MakeLink(link, _) => blocked(t, link),
        Step::RemoveFile(p) => match entry(t, p) {
            None => Some(IoKind::NotFound),
            Some(Content::Dir) => Some(IoKind::IsADirectory),
            Some(_) => None,
        },
        Step::RemoveTree(p) => match entry(t, p) {
            None => Some(IoKind::NotFound),
            Some(Content::Dir) => None,
            Some(_) => Some(IoKind::NotADirectory),
        },
        Step::CopyFile(from, to) => match entry(t, from) {
            None => Some(IoKind::NotFound),
            Some(Content::File(_)) => blocked(t, to),
            Some(_) => Some(IoKind::InvalidInput),
        },
        Step::Move(from, to) => if from.len() == 0 || starts_with(to, from) {
            Some(IoKind::InvalidInput)
        } else if entry(t, from) is None {
            Some(IoKind::NotFound)
        } else {
            blocked(t, to)
        },
    }
}

/// `t` after the change `s` has been made to it.
pub open spec fn applied(t: Tree, s: Step) -> Tree {
    match s {
        Step::MakeDirs(p) => with_dirs(t, p),
        Step::CreateFile(p, bytes) => t.insert(p, Content::File(bytes)),
        Step::MakeLink(link, to) => t.insert(link, Content::Link(to)),
        Step::RemoveFile(p) => t.remove(p),
        Step::RemoveTree(p) => without(t, p),
        Step::CopyFile(from, to) => t.insert(to, t[from]),
        Step::Move(from, to) => moved(t, from, to),
    }
}

/// `t` after the changes `steps` have been made to it, one after the other.
pub open spec fn replayed(t: Tree, steps: Seq<Step>) -> Tree
    decreases steps.len(),
{
    if steps.len() == 0 {
        t
    } else {
        applied(replayed(t, steps.drop_last()), steps.last())
    }
}

/// Where a directory of a shaped tree does not hold the first `n` names of
/// `p`, it holds no longer beginning of `p` either.
pub proof fn lemma_nothing_below(t: Tree, p: Names, n: int, m: int)
    requires
        shaped(t),
        0 < n <= m <= p.len(),
        !t.dom().contains(p.take(n)),
    ensures
        !t.dom().contains(p.take(m)),
    decreases m - n,
{
    if m > n {
        lemma_nothing_below(t, p, n, m - 1);
        assert(p.take(m).drop_last() =~= p.take(m - 1));
    }
}

/// Nothing stands under a path at which nothing stands.
pub proof fn lemma_nothing_under(t: Tree, p: Names, q: Names)
    requires
        shaped(t),
        p.len() > 0,
        !t.dom().contains(p),
        starts_with(q, p),
    ensures
        !t.dom().contains(q),
{
    assert(q.take(p.len() as int) =~= p);
    assert(q.take(q.len() as int) =~= q);
    lemma_nothing_below(t, q, p.len() as int, q.len() as int);
}

/// A shaped tree stays shaped when an entry is put where nothing blocks it.
pub proof fn lemma_insert_shaped(t: Tree, p: Names, c: Content)
    requires
        shaped(t),
        blocked(t, p) is None,
    ensures
        shaped(t.insert(p, c)),
{
    let u = t.insert(p, c);
    assert forall|q: Names| #[trigger] u.dom().contains(q) implies q.len() > 0 && entry(
        u,
        q.drop_last(),
    ) == Some(Content::Dir) by {
        if q != p {
            assert(t.dom().contains(q));
        }
    }
}

/// A shaped tree stays shaped when a file or a link is taken from it.
pub proof fn lemma_remove_shaped(t: Tree, p: Names)
    requires
        shaped(t),
        t.dom().contains(p),
        t[p] != Content::Dir,
    ensures
        shaped(t.remove(p)),
{
    let u = t.remove(p);
    assert forall|q: Names| #[trigger] u.dom().contains(q) implies q.len() > 0 && entry(
        u,
        q.drop_last(),
    ) == Some(Content::Dir) by {
        assert(t.dom().contains(q));
    }
}

/// A shaped tree stays shaped when a path is taken from it with everything
/// under it.
pub proof fn lemma_without_shaped(t: Tree, p: Names)
    requires
        shaped(t),
    ensures
        shaped(without(t, p)),
{
    let u = without(t, p);
    assert forall|q: Names| #[trigger] u.dom().contains(q) implies q.len() > 0 && entry(
        u,
        q.drop_last(),
    ) == Some(Content::Dir) by {
        assert(t.dom().contains(q));
        let up = q.drop_last();
        if starts_with(up, p) {
            assert(q.subrange(0, p.len() as int) =~= up.subrange(0, p.len() as int));
        }
    }
}

/// A shaped tree stays shaped when directories are made down to a path that
/// takes them.
pub proof fn lemma_with_dirs_shaped(t: Tree, p: Names)
    requires
        shaped(t),
        takes_dirs(t, p),
    ensures
        shaped(with_dirs(t, p)),
{
    let u = with_dirs(t, p);
    assert forall|q: Names| #[trigger] u.dom().contains(q) implies q.len() > 0 && entry(
        u,
        q.drop_last(),
    ) == Some(Content::Dir) by {
        if !t.dom().contains(q) {
            let up = q.drop_last();
            if up.len() > 0 {
                assert(p.subrange(0, up.len() as int) =~= p.subrange(0, q.len() as int).drop_last());
                assert(starts_with(p, up));
                assert(p.take(up.len() as int) =~= up);
            }
        } else {
            assert(t.dom().contains(q));
        }
    }
}

/// Whether the paths of `s` stand in the order of a walk, none twice.
pub open spec fn ascending(s: Seq<Names>) -> bool {
    forall|i: int, j: int| 0 <= i < j < s.len() ==> path_before(#[trigger] s[i], #[trigger] s[j])
}

/// Whether `s` holds the paths of `t`, each once, in the order of a walk.
pub open spec fn lists(s: Seq<Names>, t: Tree) -> bool {
    &&& ascending(s)
    &&& forall|p: Names| #[trigger] t.dom().contains(p) <==> s.contains(p)
}

/// The paths of `t` in the order of a walk, where `t` has finitely many.
pub open spec fn listing(t: Tree) -> Seq<Names> {
    choose|s: Seq<Names>| lists(s, t)
}

/// What holds of every tree that a file tree in memory shows: each entry
/// lies in a directory, and the entries can be listed in order.
pub open spec fn well_formed(t: Tree) -> bool {
    shaped(t) && lists(listing(t), t)
}

/// A tree has one listing at most.
pub proof fn lemma_one_listing(a: Seq<Names>, b: Seq<Names>, t: Tree)
    requires
        lists(a, t),
        lists(b, t),
    ensures
        a == b,
    decreases a.len(),
{
    if a.len() == 0 {
        if b.len() > 0 {
            assert(b.contains(b[0]));
            assert(t.dom().contains(b[0]));
        }
        assert(a =~= b);
    } else {
        assert(a.contains(a[0]));
        assert(t.dom().contains(a[0]));
        let j = choose|j: int| 0 <= j < b.len() && b[j] == a[0];
        assert(b.contains(b[0]));
        assert(t.dom().contains(b[0]));
        let i = choose|i: int| 0 <= i < a.len() && a[i] == b[0];
        if j > 0 {
            if i > 0 {
                lemma_path_before_transitive(b[0], a[0], a[i]);
            }
            lemma_path_before_irreflexive(b[0]);
        }
        let u = t.remove(a[0]);
        let a1 = a.skip(1);
        let b1 = b.skip(1);
        assert forall|p: Names| #[trigger] u.dom().contains(p) <==> a1.contains(p) by {
            if u.dom().contains(p) {
                assert(t.dom().contains(p));
                let k = choose|k: int| 0 <= k < a.len() && a[k] == p;
                assert(a1[k - 1] == p);
            }
            if a1.contains(p) {
                let k = choose|k: int| 0 <= k < a1.len() && a1[k] == p;
                assert(a[k + 1] == p);
                assert(a.contains(p));
                if p == a[0] {
                    lemma_path_before_irreflexive(p);
                }
            }
        }
        assert forall|p: Names| #[trigger] u.dom().contains(p) <==> b1.contains(p) by {
            if u.dom().contains(p) {
                assert(t.dom().contains(p));
                let k = choose|k: int| 0 <= k < b.len() && b[k] == p;
                assert(b1[k - 1] == p);
            }
            if b1.contains(p) {
                let k = choose|k: int| 0 <= k < b1.len() && b1[k] == p;
                assert(b[k + 1] == p);
                assert(b.contains(p));
                if p == b[0] {
                    lemma_path_before_irreflexive(p);
                }
            }
        }
        assert(ascending(a1)) by {
            assert forall|x: int, y: int| 0 <= x < y < a1.len() implies path_before(
                #[trigger] a1[x],
                #[trigger] a1[y],
            ) by {
                assert(a1[x] == a[x + 1] && a1[y] == a[y + 1]);
            }
        }
        assert(ascending(b1)) by {
            assert forall|x: int, y: int| 0 <= x < y < b1.len() implies path_before(
                #[trigger] b1[x],
                #[trigger] b1[y],
            ) by {
                assert(b1[x] == b[x + 1] && b1[y] == b[y + 1]);
            }
        }
        lemma_one_listing(a1, b1, u);
        assert(a =~= seq![a[0]] + a1);
        assert(b =~= seq![b[0]] + b1);
    }
}

/// After a move, what stayed where it was still lies in a directory.
proof fn lemma_moved_kept(t: Tree, from: Names, to: Names, q: Names)
    requires
        shaped(t),
        to.len() > 0,
        !t.dom().contains(to),
        t.dom().contains(q),
        !starts_with(q, from),
    ensures
        entry(moved(t, from, to), q.drop_last()) == Some(Content::Dir),
{
    let up = q.drop_last();
    if up.len() > 0 {
        assert(t.dom().contains(up));
        if starts_with(up, from) {
            lemma_starts_with_parent(q, from);
        }
        if starts_with(up, to) {
            lemma_nothing_under(t, to, up);
        }
    }
}

/// After a move, what arrived at the new path lies in a directory.
proof fn lemma_moved_top(t: Tree, from: Names, to: Names)
    requires
        shaped(t),
        blocked(t, to) is None,
        !starts_with(to, from),
    ensures
        entry(moved(t, from, to), to.drop_last()) == Some(Content::Dir),
{
    let up = to.drop_last();
    if up.len() > 0 {
        assert(t.dom().contains(up));
        if starts_with(up, from) {
            lemma_starts_with_parent(to, from);
        }
    }
}

/// After a move, what arrived under the new path lies in a directory.
proof fn lemma_moved_under(t: Tree, from: Names, to: Names, q: Names)
    requires
        shaped(t),
        from.len() > 0,
        starts_with(q, to),
        q.len() > to.len(),
        t.dom().contains(rebased(q, to, from)),
    ensures
        entry(moved(t, from, to), q.drop_last()) == Some(Content::Dir),
{
    let origin = rebased(q, to, from);
    lemma_rebased_parent(q, to, from);
    assert(t.dom().contains(origin));
    assert(origin.drop_last().len() > 0);
    assert(entry(t, origin.drop_last()) == Some(Content::Dir));
}

/// A tree stays shaped when what stands at one path moves to another.
pub proof fn lemma_moved_shaped(t: Tree, from: Names, to: Names)
    requires
        shaped(t),
        refusal(t, Step::Move(from, to)) is None,
    ensures
        shaped(moved(t, from, to)),
{
    let u = moved(t, from, to);
    assert forall|q: Names| #[trigger] u.dom().contains(q) implies q.len() > 0 && entry(
        u,
        q.drop_last(),
    ) == Some(Content::Dir) by {
        if starts_with(q, to) && t.dom().contains(rebased(q, to, from)) {
            if q.len() == to.len() {
                assert(q =~= to) by {
                    assert(q.subrange(0, to.len() as int) =~= q);
                }
                lemma_moved_top(t, from, to);
            } else {
                lemma_moved_under(t, from, to, q);
            }
        } else {
            lemma_moved_kept(t, from, to, q);
        }
    }
}

} // verus!
