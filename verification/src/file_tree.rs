//! A file tree held in memory.
//!
//! The tree is the library's picture of the disk. Every operation reads and
//! changes it in place of the disk, and every change that takes effect is
//! written to a list, in order, so that a caller can make the same changes
//! elsewhere.
//!
//! The tree follows a link only at the end of a path. A caller that shows
//! the tree a disk therefore shows a link to a directory as the directory
//! itself wherever paths that an operation touches lie under it, and as a
//! link, with the text stored in it, where an operation names it itself.

use crate::error::IoKind;
use crate::order::{
    lemma_path_before_irreflexive, lemma_path_before_transitive, path_before, Rank,
};
use crate::path::{lemma_rebased, rebased, starts_with, Names, TreePath};
use crate::tree::{
    applied, ascending, blocked, entry, kind_in, kind_of, lemma_insert_shaped,
    lemma_moved_shaped, lemma_nothing_below, lemma_nothing_under, lemma_one_listing,
    lemma_remove_shaped, lemma_with_dirs_shaped, lemma_without_shaped, listing, lists, moved,
    reached, refusal, replayed, resolve, shaped, takes_dirs, well_formed, with_dirs, without,
    Content, Kind, Step, Tree, MAX_HOPS,
};
use vstd::prelude::*;

verus! {

/// One kept entry of the tree.
struct Slot {
    path: TreePath,
    node: Node,
}

/// What a kept entry holds.
enum Node {
    File(Vec<u8>),
    Dir,
    Link(TreePath),
}

impl View for Node {
    type V = Content;

    closed spec fn view(&self) -> Content {
        match self {
            Node::File(bytes) => Content::File(bytes@),
            Node::Dir => Content::Dir,
            Node::Link(to) => Content::Link(to@),
        }
    }
}

/// The path of the entry kept at place `i`.
spec fn key(slots: Seq<Slot>, i: int) -> Names {
    slots[i].path@
}

/// Whether an entry is kept for `p`.
spec fn keeps(slots: Seq<Slot>, p: Names) -> bool {
    exists|i: int| 0 <= i < slots.len() && #[trigger] key(slots, i) == p
}

/// The place at which the entry for `p` is kept.
spec fn place(slots: Seq<Slot>, p: Names) -> int {
    choose|i: int| 0 <= i < slots.len() && #[trigger] key(slots, i) == p
}

/// The tree that the kept entries make up.
spec fn tree_of(slots: Seq<Slot>) -> Tree {
    Map::new(|p: Names| keeps(slots, p), |p: Names| slots[place(slots, p)].node@)
}

/// Whether the entries are kept in the order of their paths.
spec fn in_order(slots: Seq<Slot>) -> bool {
    forall|i: int, j: int|
        0 <= i < j < slots.len() ==> path_before(#[trigger] key(slots, i), #[trigger] key(slots, j))
}

/// No path is kept twice where the entries are in order.
proof fn lemma_one_place(slots: Seq<Slot>, i: int, j: int)
    requires
        in_order(slots),
        0 <= i < slots.len(),
        0 <= j < slots.len(),
        key(slots, i) == key(slots, j),
    ensures
        i == j,
{
    lemma_path_before_irreflexive(key(slots, i));
}

/// The tree holds at the path of each kept entry what that entry holds.
proof fn lemma_kept(slots: Seq<Slot>, i: int)
    requires
        in_order(slots),
        0 <= i < slots.len(),
    ensures
        tree_of(slots).dom().contains(key(slots, i)),
        tree_of(slots)[key(slots, i)] == slots[i].node@,
{
    let p = key(slots, i);
    assert(keeps(slots, p));
    lemma_one_place(slots, i, place(slots, p));
}

/// Taking the entry at place `k` away takes its path out of the tree.
proof fn lemma_taken(slots: Seq<Slot>, k: int)
    requires
        in_order(slots),
        0 <= k < slots.len(),
    ensures
        in_order(slots.remove(k)),
        tree_of(slots.remove(k)) == tree_of(slots).remove(key(slots, k)),
{
    let less = slots.remove(k);
    assert forall|i: int, j: int| 0 <= i < j < less.len() implies path_before(
        #[trigger] key(less, i),
        #[trigger] key(less, j),
    ) by {
        let oi = if i < k {
            i
        } else {
            i + 1
        };
        let oj = if j < k {
            j
        } else {
            j + 1
        };
        assert(key(less, i) == key(slots, oi));
        assert(key(less, j) == key(slots, oj));
    }
    let a = tree_of(less);
    let b = tree_of(slots).remove(key(slots, k));
    assert forall|p: Names| a.dom().contains(p) <==> b.dom().contains(p) by {
        if a.dom().contains(p) {
            let i = place(less, p);
            let oi = if i < k {
                i
            } else {
                i + 1
            };
            assert(key(slots, oi) == p);
            lemma_one_place(slots, oi, oi);
            if p == key(slots, k) {
                lemma_one_place(slots, oi, k);
            }
        }
        if b.dom().contains(p) {
            let oi = place(slots, p);
            let i = if oi < k {
                oi
            } else {
                oi - 1
            };
            assert(key(less, i) == p);
        }
    }
    assert forall|p: Names| a.dom().contains(p) implies a[p] == b[p] by {
        let i = place(less, p);
        let oi = if i < k {
            i
        } else {
            i + 1
        };
        assert(key(slots, oi) == p);
        lemma_kept(slots, oi);
        lemma_kept(less, i);
    }
    assert(a =~= b);
}

/// Putting a new entry at place `k`, where the order allows it, puts its path into
/// the tree.
proof fn lemma_put(slots: Seq<Slot>, k: int, slot: Slot)
    requires
        in_order(slots),
        0 <= k <= slots.len(),
        forall|i: int| 0 <= i < k ==> path_before(#[trigger] key(slots, i), slot.path@),
        forall|i: int| k <= i < slots.len() ==> path_before(slot.path@, #[trigger] key(slots, i)),
    ensures
        in_order(slots.insert(k, slot)),
        tree_of(slots.insert(k, slot)) == tree_of(slots).insert(slot.path@, slot.node@),
{
    let more = slots.insert(k, slot);
    assert forall|i: int, j: int| 0 <= i < j < more.len() implies path_before(
        #[trigger] key(more, i),
        #[trigger] key(more, j),
    ) by {
        if i != k && j != k {
            let oi = if i < k {
                i
            } else {
                i - 1
            };
            let oj = if j < k {
                j
            } else {
                j - 1
            };
            assert(key(more, i) == key(slots, oi));
            assert(key(more, j) == key(slots, oj));
        } else if i == k {
            assert(key(more, j) == key(slots, j - 1));
        } else {
            assert(key(more, i) == key(slots, i));
        }
    }
    let a = tree_of(more);
    let b = tree_of(slots).insert(slot.path@, slot.node@);
    assert(key(more, k) == slot.path@);
    assert forall|p: Names| a.dom().contains(p) <==> b.dom().contains(p) by {
        if a.dom().contains(p) {
            let i = place(more, p);
            if i != k {
                let oi = if i < k {
                    i
                } else {
                    i - 1
                };
                assert(key(slots, oi) == p);
            }
        }
        if b.dom().contains(p) && p != slot.path@ {
            let oi = place(slots, p);
            let i = if oi < k {
                oi
            } else {
                oi + 1
            };
            assert(key(more, i) == p);
        }
    }
    assert forall|p: Names| a.dom().contains(p) implies a[p] == b[p] by {
        let i = place(more, p);
        lemma_kept(more, i);
        if i != k {
            let oi = if i < k {
                i
            } else {
                i - 1
            };
            assert(key(slots, oi) == p);
            lemma_kept(slots, oi);
            lemma_one_place(more, i, i);
            if p == slot.path@ {
                lemma_one_place(more, i, k);
            }
        }
    }
    assert(a =~= b);
}

/// The first place whose path does not come before `path`, and whether
/// `path` itself is kept there.
fn seek(slots: &Vec<Slot>, path: &TreePath) -> (at: (usize, bool))
    requires
        in_order(slots@),
    ensures
        at.0 <= slots@.len(),
        forall|i: int| 0 <= i < at.0 ==> path_before(#[trigger] key(slots@, i), path@),
        at.1 ==> at.0 < slots@.len() && key(slots@, at.0 as int) == path@,
        !at.1 ==> forall|i: int|
            at.0 <= i < slots@.len() ==> path_before(path@, #[trigger] key(slots@, i)),
        at.1 == tree_of(slots@).dom().contains(path@),
{
    let mut k: usize = 0;
    while k < slots.len()
        invariant
            k <= slots@.len(),
            in_order(slots@),
            forall|i: int| 0 <= i < k ==> path_before(#[trigger] key(slots@, i), path@),
        decreases slots@.len() - k,
    {
        let r = slots[k].path.rank(path);
        if r == Rank::Same {
            proof {
                lemma_kept(slots@, k as int);
            }
            return (k, true);
        }
        if r == Rank::After {
            proof {
                assert forall|i: int| k <= i < slots@.len() implies path_before(
                    path@,
                    #[trigger] key(slots@, i),
                ) by {
                    if i > k {
                        lemma_path_before_transitive(path@, key(slots@, k as int), key(slots@, i));
                    }
                }
                lemma_not_kept(slots@, path@, k as int);
            }
            return (k, false);
        }
        k += 1;
    }
    proof {
        lemma_not_kept(slots@, path@, k as int);
    }
    (k, false)
}

/// Keeps a new entry, at the place that the order gives it.
fn put(slots: &mut Vec<Slot>, path: TreePath, node: Node)
    requires
        in_order(old(slots)@),
        !tree_of(old(slots)@).dom().contains(path@),
    ensures
        in_order(final(slots)@),
        tree_of(final(slots)@) == tree_of(old(slots)@).insert(path@, node@),
{
    let at = seek(slots, &path);
    let slot = Slot { path, node };
    proof {
        lemma_put(slots@, at.0 as int, slot);
    }
    slots.insert(at.0, slot);
}

/// Drops `path` and every entry under it, and hands out what was dropped, in
/// order.
fn cut_under(slots: &mut Vec<Slot>, path: &TreePath) -> (cut: Vec<Slot>)
    requires
        in_order(old(slots)@),
    ensures
        in_order(final(slots)@),
        tree_of(final(slots)@) == without(tree_of(old(slots)@), path@),
        in_order(cut@),
        forall|q: Names| #[trigger]
            tree_of(cut@).dom().contains(q) <==> tree_of(old(slots)@).dom().contains(q)
                && starts_with(q, path@),
        forall|q: Names| #[trigger]
            tree_of(cut@).dom().contains(q) ==> tree_of(cut@)[q] == tree_of(old(slots)@)[q],
{
    let ghost all = tree_of(slots@);
    let mut cut: Vec<Slot> = Vec::new();
    let mut i: usize = 0;
    proof {
        assert(tree_of(cut@) =~= Tree::empty());
    }
    while i < slots.len()
        invariant
            i <= slots@.len(),
            in_order(slots@),
            in_order(cut@),
            forall|k: int| 0 <= k < i ==> !starts_with(#[trigger] key(slots@, k), path@),
            forall|k: int, m: int|
                0 <= k < cut@.len() && i <= m < slots@.len() ==> path_before(
                    #[trigger] key(cut@, k),
                    #[trigger] key(slots@, m),
                ),
            forall|q: Names| #[trigger]
                tree_of(slots@).dom().contains(q) ==> all.dom().contains(q) && tree_of(slots@)[q]
                    == all[q],
            forall|q: Names| #[trigger]
                tree_of(cut@).dom().contains(q) ==> all.dom().contains(q) && starts_with(q, path@)
                    && tree_of(cut@)[q] == all[q],
            forall|q: Names| #[trigger]
                all.dom().contains(q) ==> tree_of(slots@).dom().contains(q) || tree_of(
                    cut@,
                ).dom().contains(q),
        decreases slots@.len() - i,
    {
        if slots[i].path.starts_with(path) {
            let ghost before = slots@;
            let ghost cut_before = cut@;
            proof {
                lemma_taken(before, i as int);
                lemma_kept(before, i as int);
            }
            let slot = slots.remove(i);
            proof {
                assert forall|k: int| 0 <= k < cut_before.len() implies path_before(
                    #[trigger] key(cut_before, k),
                    slot.path@,
                ) by {
                    assert(key(before, i as int) == slot.path@);
                }
                assert forall|k: int| cut_before.len() <= k < cut_before.len() implies path_before(
                    slot.path@,
                    #[trigger] key(cut_before, k),
                ) by {}
                lemma_put(cut_before, cut_before.len() as int, slot);
                assert(cut_before.insert(cut_before.len() as int, slot) =~= cut_before.push(slot));
            }
            cut.push(slot);
            proof {
                assert forall|k: int, m: int|
                    0 <= k < cut@.len() && i <= m < slots@.len() implies path_before(
                    #[trigger] key(cut@, k),
                    #[trigger] key(slots@, m),
                ) by {
                    assert(key(slots@, m) == key(before, m + 1));
                    if k < cut_before.len() {
                        assert(key(cut@, k) == key(cut_before, k));
                    } else {
                        assert(key(cut@, k) == key(before, i as int));
                    }
                }
                assert forall|k: int| 0 <= k < i implies !starts_with(
                    #[trigger] key(slots@, k),
                    path@,
                ) by {
                    assert(key(slots@, k) == key(before, k));
                }
            }
        } else {
            i += 1;
        }
    }
    proof {
        assert forall|q: Names| tree_of(slots@).dom().contains(q) implies !starts_with(
            q,
            path@,
        ) by {
            let k = place(slots@, q);
            assert(key(slots@, k) == q);
        }
        assert(tree_of(slots@) =~= without(all, path@));
    }
    cut
}

/// The tree in the middle of a move from `from` to `to`: what does not move
/// stays, and of what moves everything has arrived but what `waiting` holds.
spec fn carried(t: Tree, from: Names, to: Names, waiting: Tree) -> Tree {
    Map::new(
        |q: Names|
            (t.dom().contains(q) && !starts_with(q, from)) || (starts_with(q, to)
                && t.dom().contains(rebased(q, to, from)) && !waiting.dom().contains(
                rebased(q, to, from),
            )),
        |q: Names|
            if starts_with(q, to) && t.dom().contains(rebased(q, to, from)) {
                t[rebased(q, to, from)]
            } else {
                t[q]
            },
    )
}

/// The beginning of a move: while everything that moves is still waiting, the
/// tree is the old one without what moves.
proof fn lemma_carry_start(t: Tree, from: Names, to: Names, waiting: Tree)
    requires
        shaped(t),
        to.len() > 0,
        !t.dom().contains(to),
        forall|q: Names| #[trigger]
            waiting.dom().contains(q) <==> t.dom().contains(q) && starts_with(q, from),
    ensures
        carried(t, from, to, waiting) == without(t, from),
{
    let now = carried(t, from, to, waiting);
    assert forall|q: Names| now.dom().contains(q) <==> without(t, from).dom().contains(q) by {
        if starts_with(q, to) && t.dom().contains(rebased(q, to, from)) {
            lemma_rebased(q, to, from);
        }
    }
    assert forall|q: Names| now.dom().contains(q) implies now[q] == without(t, from)[q] by {
        if starts_with(q, to) {
            lemma_nothing_under(t, to, q);
        }
    }
    assert(now =~= without(t, from));
}

/// The end of a move: when nothing is waiting any more, the move is done.
proof fn lemma_carry_end(t: Tree, from: Names, to: Names)
    ensures
        carried(t, from, to, Tree::empty()) == moved(t, from, to),
{
    assert(carried(t, from, to, Tree::empty()) =~= moved(t, from, to));
}

/// One step of a move: when the entry at `s` arrives, it is put at its new
/// path, where nothing stood.
proof fn lemma_carry_step(t: Tree, from: Names, to: Names, waiting: Tree, s: Names)
    requires
        shaped(t),
        to.len() > 0,
        !t.dom().contains(to),
        waiting.dom().contains(s),
        t.dom().contains(s),
        starts_with(s, from),
    ensures
        !carried(t, from, to, waiting).dom().contains(rebased(s, from, to)),
        carried(t, from, to, waiting.remove(s)) == carried(t, from, to, waiting).insert(
            rebased(s, from, to),
            t[s],
        ),
{
    let fresh = rebased(s, from, to);
    let now = carried(t, from, to, waiting);
    let after = carried(t, from, to, waiting.remove(s));
    lemma_rebased(s, from, to);
    lemma_nothing_under(t, to, fresh);
    assert forall|q: Names| after.dom().contains(q) <==> now.insert(fresh, t[s]).dom().contains(
        q,
    ) by {
        if starts_with(q, to) && rebased(q, to, from) == s {
            lemma_rebased(q, to, from);
        }
    }
    assert(after =~= now.insert(fresh, t[s]));
}

/// The paths of the kept entries, in the order in which they are kept.
spec fn keys(slots: Seq<Slot>) -> Seq<Names> {
    Seq::new(slots.len(), |i: int| key(slots, i))
}

/// The paths of entries kept in order are the listing of their tree.
proof fn lemma_keys_list(slots: Seq<Slot>)
    requires
        in_order(slots),
    ensures
        keys(slots) == listing(tree_of(slots)),
        lists(keys(slots), tree_of(slots)),
{
    let ks = keys(slots);
    let t = tree_of(slots);
    assert forall|p: Names| #[trigger] t.dom().contains(p) <==> ks.contains(p) by {
        if t.dom().contains(p) {
            let i = place(slots, p);
            assert(ks[i] == p);
        }
        if ks.contains(p) {
            let i = choose|i: int| 0 <= i < ks.len() && ks[i] == p;
            assert(key(slots, i) == p);
        }
    }
    assert(ascending(ks)) by {
        assert forall|i: int, j: int| 0 <= i < j < ks.len() implies path_before(
            #[trigger] ks[i],
            #[trigger] ks[j],
        ) by {
            assert(path_before(key(slots, i), key(slots, j)));
        }
    }
    assert(lists(ks, t));
    lemma_one_listing(ks, listing(t), t);
}

/// A path that falls between two neighbours is not kept.
proof fn lemma_not_kept(slots: Seq<Slot>, p: Names, k: int)
    requires
        0 <= k <= slots.len(),
        forall|i: int| 0 <= i < k ==> path_before(#[trigger] key(slots, i), p),
        forall|i: int| k <= i < slots.len() ==> path_before(p, #[trigger] key(slots, i)),
    ensures
        !tree_of(slots).dom().contains(p),
{
    if keeps(slots, p) {
        let i = place(slots, p);
        lemma_path_before_irreflexive(p);
    }
}


/// A change that has been made to a tree.
#[derive(Debug, PartialEq, Eq)]
pub enum Change {
    /// A directory was made at the path and at every path above it.
    MakeDirs(TreePath),
    /// A regular file was made.
    CreateFile { path: TreePath, content: Vec<u8> },
    /// A link was made at `link` that stores `points_to`.
    MakeLink { link: TreePath, points_to: TreePath },
    /// The file or link at the path was taken away.
    RemoveFile(TreePath),
    /// The directory at the path was taken away with everything under it.
    RemoveTree(TreePath),
    /// The file at `from` was copied to `to`.
    CopyFile { from: TreePath, to: TreePath },
    /// What stood at `from` was moved to `to`.
    Move { from: TreePath, to: TreePath },
}

impl View for Change {
    type V = Step;

    open spec fn view(&self) -> Step {
        match self {
            Change::MakeDirs(p) => Step::MakeDirs(p@),
            Change::CreateFile { path, content } => Step::CreateFile(path@, content@),
            Change::MakeLink { link, points_to } => Step::MakeLink(link@, points_to@),
            Change::RemoveFile(p) => Step::RemoveFile(p@),
            Change::RemoveTree(p) => Step::RemoveTree(p@),
            Change::CopyFile { from, to } => Step::CopyFile(from@, to@),
            Change::Move { from, to } => Step::Move(from@, to@),
        }
    }
}

/// The changes that a list holds, as the contracts see them.
pub open spec fn steps_in(log: Seq<Change>) -> Seq<Step> {
    Seq::new(log.len(), |i: int| log[i]@)
}

/// Whether `after` and `outcome` are what becomes of `before` when the change
/// `step` is asked of it: where nothing refuses it the change is made and
/// listed, and where something does the tree and the list stay as they were
/// and the outcome says why.
pub open spec fn asked(before: FileTree, after: FileTree, step: Step, outcome: Result<(), IoKind>) -> bool {
    &&& after.origin() == before.origin()
    &&& match refusal(before@, step) {
        None => {
            &&& outcome == Ok::<(), IoKind>(())
            &&& after@ == applied(before@, step)
            &&& after.changes() == before.changes().push(step)
        },
        Some(kind) => {
            &&& outcome == Err::<(), IoKind>(kind)
            &&& after@ == before@
            &&& after.changes() == before.changes()
        },
    }
}

/// A file tree, with the list of the changes made to it since the list was
/// last taken.
pub struct FileTree {
    slots: Vec<Slot>,
    log: Vec<Change>,
    start: Ghost<Tree>,
}

impl View for FileTree {
    type V = Tree;

    closed spec fn view(&self) -> Tree {
        tree_of(self.slots@)
    }
}

impl FileTree {
    /// What holds of every tree: its entries are kept in order, each lies in a
    /// directory, and the listed changes lead from the tree as it was when the
    /// list was begun to the tree as it is.
    #[verifier::type_invariant]
    pub closed spec fn sound(&self) -> bool {
        &&& in_order(self.slots@)
        &&& shaped(tree_of(self.slots@))
        &&& replayed(self.start@, steps_in(self.log@)) == tree_of(self.slots@)
    }

    /// The changes made since the list was last taken.
    pub closed spec fn changes(&self) -> Seq<Step> {
        steps_in(self.log@)
    }

    /// The tree as it was when the list of changes was last taken.
    pub closed spec fn origin(&self) -> Tree {
        self.start@
    }

    /// Every tree is well formed, and the listed changes lead from its origin
    /// to the tree.
    pub proof fn lemma_sound(&self)
        requires
            self.sound(),
        ensures
            well_formed(self@),
            replayed(self.origin(), self.changes()) == self@,
    {
        lemma_keys_list(self.slots@);
    }

    /// The tree that holds the root alone.
    pub fn new() -> (fs: FileTree)
        ensures
            fs@ == Tree::empty(),
            fs.changes() == Seq::<Step>::empty(),
            fs.origin() == fs@,
    {
        let slots: Vec<Slot> = Vec::new();
        let log: Vec<Change> = Vec::new();
        proof {
            assert(tree_of(slots@) =~= Tree::empty());
            assert(steps_in(log@) =~= Seq::<Step>::empty());
        }
        FileTree { slots, log, start: Ghost(Tree::empty()) }
    }

    /// Takes the parts out of the tree and leaves the empty tree behind.
    fn take_apart(&mut self) -> (parts: (Vec<Slot>, Vec<Change>, Ghost<Tree>))
        ensures
            parts.0 == old(self).slots,
            parts.1 == old(self).log,
            parts.2 == old(self).start,
    {
        let mut rest = FileTree::new();
        std::mem::swap(self, &mut rest);
        let FileTree { slots, log, start } = rest;
        (slots, log, start)
    }

    /// What stands at `path`, links not followed.
    fn node(&self, path: &TreePath) -> (found: Option<&Node>)
        ensures
            path@.len() > 0 ==> match found {
                Some(n) => self@.dom().contains(path@) && self@[path@] == n@,
                None => !self@.dom().contains(path@),
            },
            path@.len() == 0 ==> found is None,
    {
        proof {
            use_type_invariant(self);
        }
        if path.is_root() {
            return None;
        }
        let at = seek(&self.slots, path);
        if at.1 {
            proof {
                lemma_kept(self.slots@, at.0 as int);
            }
            Some(&self.slots[at.0].node)
        } else {
            None
        }
    }

    /// The kind of what stands at `path`, links not followed.
    pub fn kind(&self, path: &TreePath) -> (k: Option<Kind>)
        ensures
            k == kind_in(entry(self@, path@)),
    {
        if path.is_root() {
            return Some(Kind::Dir);
        }
        match self.node(path) {
            Some(Node::File(_)) => Some(Kind::File),
            Some(Node::Dir) => Some(Kind::Dir),
            Some(Node::Link(_)) => Some(Kind::Link),
            None => None,
        }
    }

    /// The path stored in the link at `path`, where a link stands there.
    pub fn read_link(&self, path: &TreePath) -> (to: Option<TreePath>)
        ensures
            match entry(self@, path@) {
                Some(Content::Link(stored)) => to is Some && to->0@ == stored,
                _ => to is None,
            },
    {
        match self.node(path) {
            Some(Node::Link(to)) => Some(to.clone()),
            _ => None,
        }
    }

    /// The bytes of the file at `path`, where a regular file stands there.
    pub fn read_file(&self, path: &TreePath) -> (bytes: Option<Vec<u8>>)
        ensures
            match entry(self@, path@) {
                Some(Content::File(held)) => bytes is Some && bytes->0@ == held,
                _ => bytes is None,
            },
    {
        match self.node(path) {
            Some(Node::File(held)) => Some(copy_of(held)),
            _ => None,
        }
    }

    /// What `path` leads to when links are followed.
    fn follow(&self, path: &TreePath) -> (found: Option<Kind>)
        ensures
            found == kind_in(reached(self@, path@)),
    {
        let mut at = path.clone();
        let mut hops: usize = MAX_HOPS;
        loop
            invariant
                hops <= MAX_HOPS,
                reached(self@, path@) == resolve(self@, at@, hops as nat),
            decreases hops,
        {
            if at.is_root() {
                return Some(Kind::Dir);
            }
            match self.node(&at) {
                None => {
                    return None;
                },
                Some(Node::File(_)) => {
                    return Some(Kind::File);
                },
                Some(Node::Dir) => {
                    return Some(Kind::Dir);
                },
                Some(Node::Link(to)) => {
                    if hops == 0 {
                        return None;
                    }
                    let next = to.clone();
                    hops = hops - 1;
                    at = next;
                },
            }
        }
    }

    /// Whether `path` leads to anything when links are followed.
    pub fn resolves(&self, path: &TreePath) -> (b: bool)
        ensures
            b == reached(self@, path@) is Some,
    {
        self.follow(path).is_some()
    }

    /// Whether `path` leads to a directory when links are followed.
    pub fn is_dir(&self, path: &TreePath) -> (b: bool)
        ensures
            b == (kind_in(reached(self@, path@)) == Some(Kind::Dir)),
    {
        match self.follow(path) {
            Some(Kind::Dir) => true,
            _ => false,
        }
    }

    /// Whether `path` leads to a regular file when links are followed.
    pub fn is_file(&self, path: &TreePath) -> (b: bool)
        ensures
            b == (kind_in(reached(self@, path@)) == Some(Kind::File)),
    {
        match self.follow(path) {
            Some(Kind::File) => true,
            _ => false,
        }
    }

    /// Why nothing new can be put at `path`, if anything stands in the way.
    pub fn blocker(&self, path: &TreePath) -> (why: Option<IoKind>)
        ensures
            why == blocked(self@, path@),
    {
        if self.kind(path).is_some() {
            return Some(IoKind::AlreadyExists);
        }
        match path.parent() {
            None => Some(IoKind::AlreadyExists),
            Some(up) => match self.kind(&up) {
                None => Some(IoKind::NotFound),
                Some(Kind::Dir) => None,
                Some(_) => Some(IoKind::NotADirectory),
            },
        }
    }

    /// Puts the parts back into the tree, with one more change listed.
    fn put_back(
        &mut self,
        slots: Vec<Slot>,
        log: Vec<Change>,
        start: Ghost<Tree>,
        change: Change,
    )
        requires
            in_order(slots@),
            shaped(tree_of(slots@)),
            tree_of(slots@) == applied(replayed(start@, steps_in(log@)), change@),
        ensures
            final(self)@ == tree_of(slots@),
            final(self).changes() == steps_in(log@).push(change@),
            final(self).origin() == start@,
    {
        let ghost before = steps_in(log@);
        let mut log = log;
        log.push(change);
        proof {
            assert(steps_in(log@) =~= before.push(change@));
            assert(steps_in(log@).drop_last() =~= before);
        }
        *self = FileTree { slots, log, start };
    }

    /// Puts one new entry into the tree and lists the change that made it.
    fn place_entry(&mut self, path: &TreePath, node: Node, change: Change)
        requires
            blocked(old(self)@, path@) is None,
            applied(old(self)@, change@) == old(self)@.insert(path@, node@),
        ensures
            final(self)@ == old(self)@.insert(path@, node@),
            final(self).changes() == old(self).changes().push(change@),
            final(self).origin() == old(self).origin(),
    {
        proof {
            use_type_invariant(&*self);
            lemma_insert_shaped(self@, path@, node@);
        }
        let (mut slots, log, start) = self.take_apart();
        put(&mut slots, path.clone(), node);
        self.put_back(slots, log, start, change);
    }

    /// Makes a directory at `path` and at every path above it where there is
    /// none yet.
    pub fn create_dir_all(&mut self, path: &TreePath) -> (outcome: Result<(), IoKind>)
        ensures
            asked(*old(self), *final(self), Step::MakeDirs(path@), outcome),
    {
        proof {
            use_type_invariant(&*self);
        }
        let ghost t = self@;
        let ghost p = path@;
        let n = path.len();
        let mut have: usize = 0;
        let mut gap = false;
        while have < n && !gap
            invariant
                self@ == t,
                p == path@,
                n == p.len(),
                have <= n,
                forall|k: int| 0 < k <= have ==> t.dom().contains(#[trigger] p.take(k)) && t[p.take(k)]
                    == Content::Dir,
                gap ==> have < n && !t.dom().contains(p.take(have + 1)),
            decreases n - have + if gap { 0int } else { 1int },
        {
            let next = path.first_names(have + 1);
            match self.kind(&next) {
                Some(Kind::Dir) => {},
                Some(_) => {
                    proof {
                        assert(!takes_dirs(t, p)) by {
                            let q = p.take(have + 1);
                            assert(t.dom().contains(q) && t[q] != Content::Dir);
                        }
                    }
                    return Err(IoKind::NotADirectory);
                },
                None => {
                    gap = true;
                },
            }
            if !gap {
                have += 1;
            }
        }
        proof {
            assert(have < n ==> !t.dom().contains(p.take(have + 1)));
            assert forall|k: int| 0 < k <= p.len() implies {
                let q = #[trigger] p.take(k);
                t.dom().contains(q) ==> t[q] == Content::Dir
            } by {
                if k > have {
                    lemma_nothing_below(t, p, have + 1, k);
                }
            }
            assert(takes_dirs(t, p));
            lemma_with_dirs_shaped(t, p);
        }
        let (mut slots, log, start) = self.take_apart();
        let mut made: usize = have;
        proof {
            assert forall|k: int| made < k <= n implies !t.dom().contains(#[trigger] p.take(k)) by {
                lemma_nothing_below(t, p, have + 1, k);
            }
            assert(tree_of(slots@) =~= with_dirs(t, p.take(made as int))) by {
                assert forall|q: Names| q.len() > 0 && starts_with(p.take(made as int), q) implies t.dom().contains(
                    q,
                ) by {
                    assert(p.take(q.len() as int) =~= q);
                }
            }
        }
        while made < n
            invariant
                p == path@,
                n == p.len(),
                have <= made <= n,
                in_order(slots@),
                shaped(t),
                takes_dirs(t, p),
                tree_of(slots@) == with_dirs(t, p.take(made as int)),
                forall|k: int| made < k <= n ==> !t.dom().contains(#[trigger] p.take(k)),
            decreases n - made,
        {
            let next = path.first_names(made + 1);
            proof {
                let q = p.take(made + 1);
                let now = with_dirs(t, p.take(made as int));
                assert(!now.dom().contains(q)) by {
                    if starts_with(p.take(made as int), q) {
                        assert(q.len() <= made);
                    }
                }
                assert(now.insert(q, Content::Dir) =~= with_dirs(t, q)) by {
                    assert forall|r: Names| r.len() > 0 && starts_with(q, r) implies r == q
                        || starts_with(p.take(made as int), r) by {
                        if r.len() <= made {
                            assert(p.take(made as int).subrange(0, r.len() as int) =~= q.subrange(
                                0,
                                r.len() as int,
                            ));
                        } else {
                            assert(r =~= q);
                        }
                    }
                    assert forall|r: Names| r.len() > 0 && starts_with(p.take(made as int), r)
                        implies starts_with(q, r) by {
                        assert(q.subrange(0, r.len() as int) =~= p.take(made as int).subrange(
                            0,
                            r.len() as int,
                        ));
                    }
                    assert(starts_with(q, q)) by {
                        assert(q.subrange(0, q.len() as int) =~= q);
                    }
                }
            }
            put(&mut slots, next, Node::Dir);
            made += 1;
        }
        proof {
            assert(p.take(n as int) =~= p);
        }
        self.put_back(slots, log, start, Change::MakeDirs(path.clone()));
        Ok(())
    }

    /// Makes a regular file at `path` that holds `content`. Nothing may stand
    /// at `path` yet, and the directory that is to hold it must be there.
    pub fn create_file(&mut self, path: &TreePath, content: Vec<u8>) -> (outcome: Result<
        (),
        IoKind,
    >)
        ensures
            asked(*old(self), *final(self), Step::CreateFile(path@, content@), outcome),
    {
        match self.blocker(path) {
            Some(why) => Err(why),
            None => {
                let change = Change::CreateFile { path: path.clone(), content: copy_of(&content) };
                self.place_entry(path, Node::File(content), change);
                Ok(())
            },
        }
    }

    /// Makes a link at `link` that stores the path `points_to`. Nothing may
    /// stand at `link` yet, and the directory that is to hold it must be
    /// there. Whether `points_to` leads anywhere is not asked.
    pub fn make_link(&mut self, points_to: &TreePath, link: &TreePath) -> (outcome: Result<
        (),
        IoKind,
    >)
        ensures
            asked(*old(self), *final(self), Step::MakeLink(link@, points_to@), outcome),
    {
        match self.blocker(link) {
            Some(why) => Err(why),
            None => {
                let change = Change::MakeLink { link: link.clone(), points_to: points_to.clone() };
                self.place_entry(link, Node::Link(points_to.clone()), change);
                Ok(())
            },
        }
    }

    /// Makes at `to` a regular file with the bytes of the regular file at
    /// `from`. Nothing may stand at `to` yet.
    pub fn copy_file(&mut self, from: &TreePath, to: &TreePath) -> (outcome: Result<(), IoKind>)
        ensures
            asked(*old(self), *final(self), Step::CopyFile(from@, to@), outcome),
    {
        match self.kind(from) {
            None => {
                return Err(IoKind::NotFound);
            },
            Some(Kind::File) => {},
            Some(_) => {
                return Err(IoKind::InvalidInput);
            },
        }
        match self.read_file(from) {
            None => Err(IoKind::NotFound),
            Some(bytes) => match self.blocker(to) {
                Some(why) => Err(why),
                None => {
                    let change = Change::CopyFile { from: from.clone(), to: to.clone() };
                    self.place_entry(to, Node::File(bytes), change);
                    Ok(())
                },
            },
        }
    }

    /// Takes away the file or the link at `path`.
    pub fn remove_file(&mut self, path: &TreePath) -> (outcome: Result<(), IoKind>)
        ensures
            asked(*old(self), *final(self), Step::RemoveFile(path@), outcome),
    {
        proof {
            use_type_invariant(&*self);
        }
        match self.kind(path) {
            None => {
                return Err(IoKind::NotFound);
            },
            Some(Kind::Dir) => {
                return Err(IoKind::IsADirectory);
            },
            Some(_) => {},
        }
        proof {
            lemma_remove_shaped(self@, path@);
        }
        let (mut slots, log, start) = self.take_apart();
        let at = seek(&slots, path);
        proof {
            lemma_taken(slots@, at.0 as int);
        }
        slots.remove(at.0);
        self.put_back(slots, log, start, Change::RemoveFile(path.clone()));
        Ok(())
    }

    /// Takes away the directory at `path` with everything under it. Of the
    /// root only what is under it is taken.
    pub fn remove_dir_all(&mut self, path: &TreePath) -> (outcome: Result<(), IoKind>)
        ensures
            asked(*old(self), *final(self), Step::RemoveTree(path@), outcome),
    {
        proof {
            use_type_invariant(&*self);
        }
        match self.kind(path) {
            None => {
                return Err(IoKind::NotFound);
            },
            Some(Kind::Dir) => {},
            Some(_) => {
                return Err(IoKind::NotADirectory);
            },
        }
        proof {
            lemma_without_shaped(self@, path@);
        }
        let (mut slots, log, start) = self.take_apart();
        cut_under(&mut slots, path);
        self.put_back(slots, log, start, Change::RemoveTree(path.clone()));
        Ok(())
    }

    /// Moves what stands at `from`, with everything under it, to `to`. Nothing
    /// may stand at `to` yet, and `to` may not lie under `from`.
    pub fn rename(&mut self, from: &TreePath, to: &TreePath) -> (outcome: Result<(), IoKind>)
        ensures
            asked(*old(self), *final(self), Step::Move(from@, to@), outcome),
    {
        proof {
            use_type_invariant(&*self);
        }
        if from.is_root() || to.starts_with(from) {
            return Err(IoKind::InvalidInput);
        }
        if self.kind(from).is_none() {
            return Err(IoKind::NotFound);
        }
        match self.blocker(to) {
            Some(why) => {
                return Err(why);
            },
            None => {},
        }
        let ghost t = self@;
        let ghost f = from@;
        let ghost d = to@;
        proof {
            lemma_moved_shaped(t, f, d);
        }
        let (mut slots, log, start) = self.take_apart();
        let mut cut = cut_under(&mut slots, from);
        proof {
            lemma_carry_start(t, f, d, tree_of(cut@));
        }
        while cut.len() > 0
            invariant
                f == from@,
                d == to@,
                shaped(t),
                d.len() > 0,
                !t.dom().contains(d),
                in_order(slots@),
                in_order(cut@),
                forall|q: Names| #[trigger]
                    tree_of(cut@).dom().contains(q) ==> t.dom().contains(q) && starts_with(q, f)
                        && tree_of(cut@)[q] == t[q],
                tree_of(slots@) == carried(t, f, d, tree_of(cut@)),
            decreases cut@.len(),
        {
            let ghost left = cut@;
            let ghost last = left.len() - 1;
            proof {
                lemma_taken(left, last);
                lemma_kept(left, last);
                assert(left.remove(last) =~= left.drop_last());
            }
            let slot = cut.pop().unwrap();
            proof {
                assert(slot.path@ == key(left, last));
                lemma_carry_step(t, f, d, tree_of(left), slot.path@);
            }
            let rest = match slot.path.strip_prefix(from) {
                Some(rest) => rest,
                None => TreePath::root(),
            };
            let target = to.join(&rest);
            put(&mut slots, target, slot.node);
        }
        proof {
            assert(tree_of(cut@) =~= Tree::empty());
            lemma_carry_end(t, f, d);
        }
        self.put_back(slots, log, start, Change::Move { from: from.clone(), to: to.clone() });
        Ok(())
    }

    /// The number of entries in the tree, the root not counted.
    pub fn count(&self) -> (n: usize)
        ensures
            n == listing(self@).len(),
    {
        proof {
            use_type_invariant(self);
            lemma_keys_list(self.slots@);
        }
        self.slots.len()
    }

    /// The path of the entry at place `i` of the listing.
    pub fn path_at(&self, i: usize) -> (path: &TreePath)
        requires
            i < listing(self@).len(),
        ensures
            path@ == listing(self@)[i as int],
            self@.dom().contains(path@),
    {
        proof {
            use_type_invariant(self);
            lemma_keys_list(self.slots@);
            lemma_kept(self.slots@, i as int);
        }
        &self.slots[i].path
    }

    /// The kind of the entry at place `i` of the listing.
    pub fn kind_at(&self, i: usize) -> (kind: Kind)
        requires
            i < listing(self@).len(),
        ensures
            kind == kind_of(self@[listing(self@)[i as int]]),
    {
        proof {
            use_type_invariant(self);
            lemma_keys_list(self.slots@);
            lemma_kept(self.slots@, i as int);
        }
        match &self.slots[i].node {
            Node::File(_) => Kind::File,
            Node::Dir => Kind::Dir,
            Node::Link(_) => Kind::Link,
        }
    }

    /// Hands out the list of the changes made so far and begins a new one.
    pub fn take_changes(&mut self) -> (list: Vec<Change>)
        ensures
            steps_in(list@) == old(self).changes(),
            final(self)@ == old(self)@,
            final(self).changes() == Seq::<Step>::empty(),
            final(self).origin() == old(self)@,
    {
        proof {
            use_type_invariant(&*self);
        }
        let (slots, log, start) = self.take_apart();
        let fresh: Vec<Change> = Vec::new();
        proof {
            assert(steps_in(fresh@) =~= Seq::<Step>::empty());
        }
        *self = FileTree { slots, log: fresh, start: Ghost(tree_of(slots@)) };
        log
    }
}

/// A copy of `bytes`.
fn copy_of(bytes: &Vec<u8>) -> (copy: Vec<u8>)
    ensures
        copy@ == bytes@,
{
    let mut copy: Vec<u8> = Vec::new();
    let mut i: usize = 0;
    while i < bytes.len()
        invariant
            i <= bytes@.len(),
            copy@ == bytes@.take(i as int),
        decreases bytes@.len() - i,
    {
        copy.push(bytes[i]);
        proof {
            assert(bytes@.take(i + 1) =~= bytes@.take(i as int).push(bytes@[i as int]));
        }
        i += 1;
    }
    proof {
        assert(bytes@.take(bytes@.len() as int) =~= bytes@);
    }
    copy
}

} // verus!
