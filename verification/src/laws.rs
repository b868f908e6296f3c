//! What holds of the operations together: what a change to one path leaves
//! alone, what restowing keeps, and what installing and then uninstalling a
//! package restores.

use crate::config::{package_dir_of, target_of, Settings};
use crate::error::Fault;
use crate::lifecycle::{
    installed, linked_all, removed_all, removed_one, restowed, uninstalled,
};
use crate::order::lemma_path_before_irreflexive;
use crate::package::{
    discovered, discovery, is_discovery, lemma_one_discovery, lemma_walk_finds_all, maps,
};
use crate::path::{
    lemma_rebased, lemma_starts_with_parent, rebased, starts_with, Names,
};
use crate::symlink::{
    cleared, linked, owned, placed, state_of, unlinked, with_parents, LinkState, Mapping,
};
use crate::tree::{
    blocked, entry, lemma_insert_shaped, lemma_remove_shaped, lemma_with_dirs_shaped,
    lemma_without_shaped, reached, refusal, shaped, takes_dirs, well_formed, with_dirs, without,
    Content, Step, Tree,
};
use vstd::prelude::*;

verus! {

/// Whether `t` and `u` hold the same at `q`.
pub open spec fn same_at(t: Tree, u: Tree, q: Names) -> bool {
    &&& t.dom().contains(q) == u.dom().contains(q)
    &&& t.dom().contains(q) ==> t[q] == u[q]
}

/// Whether `t` and `u` hold the same regular files, with the same bytes.
pub open spec fn same_files(t: Tree, u: Tree) -> bool {
    forall|q: Names|
        (#[trigger] t.dom().contains(q) && t[q] is File) || (#[trigger] u.dom().contains(q)
            && u[q] is File) ==> same_at(t, u, q)
}

/// Whether a change at `p` leaves `q` alone in `t`: `q` does not lie at or
/// under `p`, and where it lies above `p` something stands there already.
pub open spec fn apart_from(t: Tree, q: Names, p: Names) -> bool {
    &&& !starts_with(q, p)
    &&& starts_with(p, q) ==> q.len() == 0 || t.dom().contains(q)
}

/// Whether `step` is a change that puts a link or a copy of a file at `p`.
pub open spec fn puts_at(step: Step, p: Names) -> bool {
    match step {
        Step::MakeLink(at, _) => at == p,
        Step::CopyFile(_, to) => to == p,
        _ => false,
    }
}

/// In a shaped tree a directory stands at every path above an entry.
pub proof fn lemma_dirs_above(t: Tree, p: Names, n: int)
    requires
        shaped(t),
        t.dom().contains(p),
        0 < n < p.len(),
    ensures
        t.dom().contains(p.take(n)),
        t[p.take(n)] == Content::Dir,
    decreases p.len() - n,
{
    if n + 1 < p.len() {
        lemma_dirs_above(t, p, n + 1);
    } else {
        assert(p.take(n + 1) =~= p);
    }
    assert(p.take(n + 1).drop_last() =~= p.take(n));
}

/// Directories can be made down to the holder of an entry of a shaped
/// tree, and making them changes nothing.
pub proof fn lemma_parents_are_there(t: Tree, p: Names)
    requires
        shaped(t),
        t.dom().contains(p),
    ensures
        takes_dirs(t, p.drop_last()),
        with_dirs(t, p.drop_last()) == t,
{
    let up = p.drop_last();
    assert forall|n: int| 0 < n <= up.len() implies {
        let q = #[trigger] up.take(n);
        t.dom().contains(q) ==> t[q] == Content::Dir
    } by {
        assert(up.take(n) =~= p.take(n));
        lemma_dirs_above(t, p, n);
    }
    assert forall|q: Names| q.len() > 0 && starts_with(up, q) implies t.dom().contains(q) by {
        assert(up.take(q.len() as int) =~= q);
        assert(up.take(q.len() as int) =~= p.take(q.len() as int));
        lemma_dirs_above(t, p, q.len() as int);
    }
    assert(with_dirs(t, up) =~= t);
}

/// Clearing a path away leaves a shaped tree shaped.
pub proof fn lemma_cleared_shaped(t: Tree, p: Names)
    requires
        shaped(t),
    ensures
        shaped(cleared(t, p)),
{
    if entry(t, p) == Some(Content::Dir) {
        lemma_without_shaped(t, p);
    } else if t.dom().contains(p) {
        lemma_remove_shaped(t, p);
    } else {
        assert(t.remove(p) =~= t);
    }
}

/// Making the directories for a target and then a change that puts one
/// entry there leaves a shaped tree shaped.
pub proof fn lemma_placed_shaped(t: Tree, target: Names, step: Step, aim: Seq<char>)
    requires
        shaped(t),
        puts_at(step, target),
    ensures
        shaped(placed(t, target, step, aim).tree),
{
    if let Ok(ready) = with_parents(t, target) {
        if target.len() > 0 {
            lemma_with_dirs_shaped(t, target.drop_last());
        }
        if refusal(ready, step) is None {
            match step {
                Step::MakeLink(at, to) => {
                    lemma_insert_shaped(ready, at, Content::Link(to));
                },
                Step::CopyFile(from, to) => {
                    lemma_insert_shaped(ready, to, ready[from]);
                },
                _ => {},
            }
        }
    }
}

/// Making a link leaves a shaped tree shaped.
pub proof fn lemma_linked_shaped(t: Tree, source: Names, target: Names, force: bool, dry_run: bool)
    requires
        shaped(t),
    ensures
        shaped(linked(t, source, target, force, dry_run).tree),
{
    let state = state_of(t, target, source);
    if !owned(state) && !(state == LinkState::Foreign && !force) && !dry_run {
        let free = if state == LinkState::Foreign {
            cleared(t, target)
        } else {
            t
        };
        lemma_cleared_shaped(t, target);
        lemma_placed_shaped(free, target, Step::MakeLink(target, source), "Cannot create symlink"@);
    }
}

/// Making the directories for a target and then a change that puts one
/// entry there leaves alone what lies apart from the target.
pub proof fn lemma_placed_apart(t: Tree, target: Names, step: Step, aim: Seq<char>, q: Names)
    requires
        apart_from(t, q, target),
        puts_at(step, target),
    ensures
        same_at(t, placed(t, target, step, aim).tree, q),
{
    if let Ok(ready) = with_parents(t, target) {
        if target.len() > 0 {
            if q.len() > 0 && starts_with(target.drop_last(), q) {
                lemma_starts_with_parent(target, q);
            }
        }
        assert(same_at(t, ready, q));
        assert(q != target) by {
            assert(target.subrange(0, target.len() as int) =~= target);
        }
    }
}

/// Clearing a path away leaves alone what does not lie at or under it.
pub proof fn lemma_cleared_apart(t: Tree, p: Names, q: Names)
    requires
        !starts_with(q, p),
    ensures
        same_at(t, cleared(t, p), q),
{
    assert(q != p) by {
        assert(p.subrange(0, p.len() as int) =~= p);
    }
}

/// Making a link leaves alone what lies apart from its target.
pub proof fn lemma_linked_apart(
    t: Tree,
    source: Names,
    target: Names,
    force: bool,
    dry_run: bool,
    q: Names,
)
    requires
        apart_from(t, q, target),
    ensures
        same_at(t, linked(t, source, target, force, dry_run).tree, q),
{
    let state = state_of(t, target, source);
    if !owned(state) && !(state == LinkState::Foreign && !force) && !dry_run {
        let free = if state == LinkState::Foreign {
            cleared(t, target)
        } else {
            t
        };
        lemma_cleared_apart(t, target, q);
        assert(apart_from(free, q, target));
        lemma_placed_apart(free, target, Step::MakeLink(target, source), "Cannot create symlink"@, q);
    }
}

/// After a link has been made, and not on a dry run, the link stands at the
/// target and stores the source.
pub proof fn lemma_linked_stands(t: Tree, source: Names, target: Names, force: bool)
    requires
        linked(t, source, target, force, false).result is Ok,
    ensures
        entry(linked(t, source, target, force, false).tree, target) == Some(Content::Link(source)),
{
    if !owned(state_of(t, target, source)) {
        assert(target.len() > 0);
    }
}

/// Making a link without force keeps every regular file as it is.
pub proof fn lemma_linked_keeps_files(t: Tree, source: Names, target: Names, dry_run: bool)
    ensures
        same_files(t, linked(t, source, target, false, dry_run).tree),
{
    let state = state_of(t, target, source);
    let after = linked(t, source, target, false, dry_run).tree;
    if state == LinkState::Absent && !dry_run {
        if let Ok(ready) = with_parents(t, target) {
            assert forall|q: Names|
                (#[trigger] t.dom().contains(q) && t[q] is File) || (#[trigger] after.dom().contains(
                    q,
                ) && after[q] is File) implies same_at(t, after, q) by {
                if t.dom().contains(q) {
                    assert(q != target);
                }
            }
        }
    }
}

/// Removing a link of the package keeps every regular file as it is.
pub proof fn lemma_unlinked_keeps_files(t: Tree, target: Names, source: Names, dry_run: bool)
    ensures
        same_files(t, unlinked(t, target, source, dry_run).tree),
{
}

/// Trees that hold the same files as a third hold the same files.
pub proof fn lemma_same_files_chain(t: Tree, u: Tree, v: Tree)
    requires
        same_files(t, u),
        same_files(u, v),
    ensures
        same_files(t, v),
{
    assert forall|q: Names|
        (#[trigger] t.dom().contains(q) && t[q] is File) || (#[trigger] v.dom().contains(q)
            && v[q] is File) implies same_at(t, v, q) by {
        if t.dom().contains(q) && t[q] is File {
            assert(same_at(t, u, q));
            assert(u.dom().contains(q));
            assert(same_at(u, v, q));
        } else {
            assert(same_at(u, v, q));
            assert(u.dom().contains(q));
            assert(same_at(t, u, q));
        }
    }
}

/// Making links without force, one after the other, keeps every regular file
/// as it is.
pub proof fn lemma_linked_all_keeps_files(t: Tree, ms: Seq<Mapping>, dry_run: bool)
    ensures
        same_files(t, linked_all(t, ms, false, dry_run).tree),
    decreases ms.len(),
{
    if ms.len() > 0 {
        let first = linked(t, ms[0].source, ms[0].target, false, dry_run);
        lemma_linked_keeps_files(t, ms[0].source, ms[0].target, dry_run);
        if first.result is Ok {
            lemma_linked_all_keeps_files(first.tree, ms.drop_first(), dry_run);
            lemma_same_files_chain(
                t,
                first.tree,
                linked_all(first.tree, ms.drop_first(), false, dry_run).tree,
            );
        }
    }
}

/// Removing links without copying anything back, one after the other, keeps
/// every regular file as it is.
pub proof fn lemma_removed_all_keeps_files(t: Tree, ms: Seq<Mapping>, force: bool, dry_run: bool)
    ensures
        same_files(t, removed_all(t, ms, false, force, dry_run).tree),
    decreases ms.len(),
{
    if ms.len() > 0 {
        let first = removed_one(t, ms[0], false, force, dry_run);
        lemma_unlinked_keeps_files(t, ms[0].target, ms[0].source, dry_run);
        if first.result is Ok {
            lemma_removed_all_keeps_files(first.tree, ms.drop_first(), force, dry_run);
            lemma_same_files_chain(
                t,
                first.tree,
                removed_all(first.tree, ms.drop_first(), false, force, dry_run).tree,
            );
        }
    }
}

/// Restowing a package copies nothing: after it, whether it went well or
/// not, the tree holds the regular files that it held before, with the bytes
/// that they had, and no other.
pub proof fn lemma_restow_keeps_files(
    t: Tree,
    settings: Settings,
    package: Seq<char>,
    target: Option<Names>,
    run_setup: bool,
    dry_run: bool,
)
    ensures
        same_files(t, restowed(t, settings, package, target, run_setup, dry_run).tree),
{
    let package_dir = package_dir_of(settings, package);
    let target_dir = target_of(settings, target);
    let gone = uninstalled(t, settings, package, target, false, false, dry_run);
    if let Ok(ms) = discovery(t, package_dir, target_dir) {
        lemma_removed_all_keeps_files(t, ms, false, dry_run);
    }
    if gone.result is Ok {
        if let Ok(ms) = discovery(gone.tree, package_dir, target_dir) {
            lemma_linked_all_keeps_files(gone.tree, ms, dry_run);
        }
        lemma_same_files_chain(
            t,
            gone.tree,
            restowed(t, settings, package, target, run_setup, dry_run).tree,
        );
    }
}


/// Whether neither of two directories lies in the other or is the other.
pub open spec fn lie_apart(a: Names, b: Names) -> bool {
    !starts_with(a, b) && !starts_with(b, a)
}

/// Whether the link of each of the first `k` mappings stands at its target.
pub open spec fn links_stand(u: Tree, ms: Seq<Mapping>, k: int) -> bool {
    forall|j: int|
        0 <= j < k ==> entry(u, (#[trigger] ms[j]).target) == Some(Content::Link(ms[j].source))
}

/// Whether the link of each mapping from the `k`th on stands at its target.
pub open spec fn links_wait(u: Tree, ms: Seq<Mapping>, k: int) -> bool {
    forall|j: int|
        k <= j < ms.len() ==> entry(u, (#[trigger] ms[j]).target) == Some(
            Content::Link(ms[j].source),
        )
}

/// Whether at the target of each of the first `k` mappings `u` holds what
/// `t` holds at its source, which is a regular file.
pub open spec fn files_back(t: Tree, u: Tree, ms: Seq<Mapping>, k: int) -> bool {
    forall|j: int|
        0 <= j < k ==> {
            &&& t.dom().contains((#[trigger] ms[j]).source)
            &&& t[ms[j].source] is File
            &&& u.dom().contains(ms[j].target)
            &&& u[ms[j].target] == t[ms[j].source]
        }
}

/// What begins a path that begins another begins that one too.
pub proof fn lemma_starts_with_chain(a: Names, b: Names, c: Names)
    requires
        starts_with(a, b),
        starts_with(b, c),
    ensures
        starts_with(a, c),
{
    assert(a.subrange(0, c.len() as int) =~= b.subrange(0, c.len() as int)) by {
        assert forall|i: int| 0 <= i < c.len() implies a[i] == b[i] by {
            assert(a.subrange(0, b.len() as int)[i] == b[i]);
        }
    }
}

/// Of two beginnings of one path, one begins the other.
pub proof fn lemma_beginnings_nest(q: Names, a: Names, b: Names)
    requires
        starts_with(q, a),
        starts_with(q, b),
    ensures
        starts_with(a, b) || starts_with(b, a),
{
    if a.len() <= b.len() {
        assert(b.subrange(0, a.len() as int) =~= a) by {
            assert forall|i: int| 0 <= i < a.len() implies b[i] == a[i] by {
                assert(q.subrange(0, a.len() as int)[i] == a[i]);
                assert(q.subrange(0, b.len() as int)[i] == b[i]);
            }
        }
    } else {
        assert(a.subrange(0, b.len() as int) =~= b) by {
            assert forall|i: int| 0 <= i < b.len() implies a[i] == b[i] by {
                assert(q.subrange(0, a.len() as int)[i] == a[i]);
                assert(q.subrange(0, b.len() as int)[i] == b[i]);
            }
        }
    }
}

/// Where the package directory and the target directory lie apart, the
/// target of a file of the package has nothing to do with any path at or
/// under the package directory: neither begins the other.
pub proof fn lemma_target_outside_package(pkg: Names, target_root: Names, source: Names, q: Names)
    requires
        lie_apart(pkg, target_root),
        starts_with(source, pkg),
        starts_with(q, pkg),
    ensures
        !starts_with(q, rebased(source, pkg, target_root)),
        !starts_with(rebased(source, pkg, target_root), q),
{
    let target = rebased(source, pkg, target_root);
    lemma_rebased(source, pkg, target_root);
    if starts_with(q, target) {
        lemma_starts_with_chain(q, target, target_root);
        lemma_beginnings_nest(q, pkg, target_root);
    }
    if starts_with(target, q) {
        lemma_starts_with_chain(target, q, pkg);
        lemma_beginnings_nest(target, pkg, target_root);
    }
}

/// A path that begins another keeps beginning with it when both are moved
/// from one directory to another.
pub proof fn lemma_rebased_begins(a: Names, b: Names, from: Names, to: Names)
    requires
        starts_with(a, from),
        starts_with(b, from),
        starts_with(rebased(a, from, to), rebased(b, from, to)),
    ensures
        starts_with(a, b),
{
    let ra = rebased(a, from, to);
    let rb = rebased(b, from, to);
    lemma_rebased(a, from, to);
    lemma_rebased(b, from, to);
    assert(a.subrange(0, b.len() as int) =~= b) by {
        assert forall|i: int| 0 <= i < b.len() implies a[i] == b[i] by {
            if i < from.len() {
                assert(a.subrange(0, from.len() as int)[i] == from[i]);
                assert(b.subrange(0, from.len() as int)[i] == from[i]);
            } else {
                let k = i - from.len() + to.len();
                assert(ra.subrange(0, rb.len() as int)[k] == rb[k]);
                assert(ra[k] == a[i]);
                assert(rb[k] == b[i]);
            }
        }
    }
}

/// The targets of two files of a package have nothing to do with each other:
/// none begins the other.
pub proof fn lemma_targets_apart(
    t: Tree,
    ms: Seq<Mapping>,
    pkg: Names,
    target_root: Names,
    i: int,
    j: int,
)
    requires
        shaped(t),
        is_discovery(ms, t, pkg, target_root),
        0 <= i < ms.len(),
        0 <= j < ms.len(),
        i != j,
    ensures
        !starts_with(ms[i].target, ms[j].target),
{
    let a = ms[i].source;
    let b = ms[j].source;
    assert(maps(t, pkg, ms[i].source));
    assert(maps(t, pkg, ms[j].source));
    if starts_with(ms[i].target, ms[j].target) {
        lemma_rebased_begins(a, b, pkg, target_root);
        if a.len() == b.len() {
            assert(a =~= b) by {
                assert(a.subrange(0, b.len() as int) =~= a);
            }
            if i < j {
                assert(crate::order::path_before(ms[i].source, ms[j].source));
            } else {
                assert(crate::order::path_before(ms[j].source, ms[i].source));
            }
            lemma_path_before_irreflexive(a);
        } else {
            lemma_dirs_above(t, a, b.len() as int);
            assert(a.take(b.len() as int) =~= b);
        }
    }
}

/// Whether no target of `ms` lies at or above a source of `ms`.
pub open spec fn targets_spare_sources(ms: Seq<Mapping>) -> bool {
    forall|i: int, k: int|
        0 <= i < ms.len() && 0 <= k < ms.len() ==> !starts_with(
            (#[trigger] ms[i]).source,
            (#[trigger] ms[k]).target,
        )
}

/// Whether `u` holds at the source of each mapping what `t` holds there.
pub open spec fn sources_kept(t: Tree, u: Tree, ms: Seq<Mapping>) -> bool {
    forall|i: int|
        0 <= i < ms.len() ==> u.dom().contains((#[trigger] ms[i]).source) && u[ms[i].source]
            == t[ms[i].source]
}

/// Whether every regular file of `u` is a regular file of `t`, with the same
/// bytes.
pub open spec fn no_new_files(t: Tree, u: Tree) -> bool {
    forall|q: Names| #[trigger]
        u.dom().contains(q) && u[q] is File ==> t.dom().contains(q) && t[q] == u[q]
}

/// Whether nothing stands at the target of any mapping.
pub open spec fn targets_free(u: Tree, ms: Seq<Mapping>, k: int) -> bool {
    forall|j: int| 0 <= j < k ==> entry(u, (#[trigger] ms[j]).target) is None
}

/// Making a link makes no regular file, with force or without.
pub proof fn lemma_linked_adds_no_files(
    t: Tree,
    source: Names,
    target: Names,
    force: bool,
    dry_run: bool,
)
    ensures
        no_new_files(t, linked(t, source, target, force, dry_run).tree),
{
    let after = linked(t, source, target, force, dry_run).tree;
    let state = state_of(t, target, source);
    if !owned(state) && !(state == LinkState::Foreign && !force) && !dry_run {
        let free = if state == LinkState::Foreign {
            cleared(t, target)
        } else {
            t
        };
        assert(no_new_files(t, free));
        if let Ok(ready) = with_parents(free, target) {
            assert(no_new_files(free, ready));
            assert forall|q: Names| #[trigger] after.dom().contains(q) && after[q] is File implies
                t.dom().contains(q) && t[q] == after[q] by {
                assert(ready.dom().contains(q));
                assert(free.dom().contains(q));
            }
        }
    }
}

/// What stands at or above an entry of a shaped tree is there, and is
/// foreign to every source: a file or a directory, no link.
proof fn lemma_above_a_source_is_foreign(t: Tree, source: Names, target: Names, other: Names)
    requires
        shaped(t),
        t.dom().contains(source),
        t[source] is File,
        target.len() > 0,
        starts_with(source, target),
    ensures
        state_of(t, target, other) == LinkState::Foreign,
{
    if target.len() == source.len() {
        assert(source.subrange(0, target.len() as int) =~= source);
    } else {
        lemma_dirs_above(t, source, target.len() as int);
        assert(source.take(target.len() as int) =~= target);
    }
}

/// Where nothing stands at the target of any mapping, no target lies at or
/// above a source.
pub proof fn lemma_free_targets_spare_sources(
    t: Tree,
    ms: Seq<Mapping>,
    pkg: Names,
    target_root: Names,
)
    requires
        shaped(t),
        is_discovery(ms, t, pkg, target_root),
        targets_free(t, ms, ms.len() as int),
    ensures
        targets_spare_sources(ms),
{
    assert forall|i: int, k: int| 0 <= i < ms.len() && 0 <= k < ms.len() implies !starts_with(
        (#[trigger] ms[i]).source,
        (#[trigger] ms[k]).target,
    ) by {
        if starts_with(ms[i].source, ms[k].target) {
            assert(maps(t, pkg, ms[i].source));
            lemma_target_not_root(t, ms, pkg, target_root, k);
            lemma_above_a_source_is_foreign(t, ms[i].source, ms[k].target, ms[k].source);
        }
    }
}

/// Where the package directory and the target directory lie apart, no target
/// lies at or above a source.
pub proof fn lemma_apart_directories_spare_sources(
    t: Tree,
    ms: Seq<Mapping>,
    pkg: Names,
    target_root: Names,
)
    requires
        is_discovery(ms, t, pkg, target_root),
        lie_apart(pkg, target_root),
    ensures
        targets_spare_sources(ms),
{
    assert forall|i: int, k: int| 0 <= i < ms.len() && 0 <= k < ms.len() implies !starts_with(
        (#[trigger] ms[i]).source,
        (#[trigger] ms[k]).target,
    ) by {
        assert(maps(t, pkg, ms[i].source));
        assert(maps(t, pkg, ms[k].source));
        lemma_target_outside_package(pkg, target_root, ms[k].source, ms[i].source);
    }
}

/// Where a dry run of the links from the `k`th mapping on goes well, no
/// target from there on is a conflict.
proof fn lemma_dry_links_meet_no_conflict(t: Tree, ms: Seq<Mapping>, k: int, j: int, force: bool)
    requires
        0 <= k <= j < ms.len(),
        linked_all(t, ms.skip(k), force, true).result is Ok,
    ensures
        force || state_of(t, ms[j].target, ms[j].source) != LinkState::Foreign,
    decreases j - k,
{
    let m = ms[k];
    assert(ms.skip(k)[0] == m);
    assert(ms.skip(k).drop_first() =~= ms.skip(k + 1));
    crate::symlink::lemma_dry_run_keeps_tree(t, m.source, m.target, force);
    if k < j {
        lemma_dry_links_meet_no_conflict(t, ms, k + 1, j, force);
    }
}

/// An install without force that goes well has met no target at or above a
/// source: such a target is a conflict.
pub proof fn lemma_unforced_links_spare_sources(
    t: Tree,
    ms: Seq<Mapping>,
    pkg: Names,
    target_root: Names,
)
    requires
        shaped(t),
        is_discovery(ms, t, pkg, target_root),
        linked_all(t, ms, false, false).result is Ok,
    ensures
        targets_spare_sources(ms),
{
    assert(ms.skip(0) =~= ms);
    assert(targets_wait(t, t, ms, 0));
    lemma_dry_links_report_alike(t, ms, pkg, target_root, t, 0, false);
    assert forall|i: int, k: int| 0 <= i < ms.len() && 0 <= k < ms.len() implies !starts_with(
        (#[trigger] ms[i]).source,
        (#[trigger] ms[k]).target,
    ) by {
        if starts_with(ms[i].source, ms[k].target) {
            assert(maps(t, pkg, ms[i].source));
            lemma_target_not_root(t, ms, pkg, target_root, k);
            lemma_above_a_source_is_foreign(t, ms[i].source, ms[k].target, ms[k].source);
            lemma_dry_links_meet_no_conflict(t, ms, 0, k, false);
        }
    }
}

/// Where the links of a package are made without error and no target lies at
/// or above a source, the links all stand afterwards, the tree is shaped, the
/// files of the package are as they were, and no regular file has been made.
proof fn lemma_install_links(
    t: Tree,
    ms: Seq<Mapping>,
    pkg: Names,
    target_root: Names,
    u: Tree,
    k: int,
    force: bool,
)
    requires
        shaped(t),
        is_discovery(ms, t, pkg, target_root),
        targets_spare_sources(ms),
        0 <= k <= ms.len(),
        shaped(u),
        sources_kept(t, u, ms),
        no_new_files(t, u),
        links_stand(u, ms, k),
        linked_all(u, ms.skip(k), force, false).result is Ok,
    ensures
        shaped(linked_all(u, ms.skip(k), force, false).tree),
        sources_kept(t, linked_all(u, ms.skip(k), force, false).tree, ms),
        no_new_files(t, linked_all(u, ms.skip(k), force, false).tree),
        links_stand(linked_all(u, ms.skip(k), force, false).tree, ms, ms.len() as int),
    decreases ms.len() - k,
{
    if k < ms.len() {
        let m = ms[k];
        assert(ms.skip(k)[0] == m);
        assert(ms.skip(k).drop_first() =~= ms.skip(k + 1));
        let first = linked(u, m.source, m.target, force, false);
        let v = first.tree;
        lemma_linked_shaped(u, m.source, m.target, force, false);
        lemma_linked_adds_no_files(u, m.source, m.target, force, false);
        assert(no_new_files(t, v)) by {
            assert forall|q: Names| #[trigger] v.dom().contains(q) && v[q] is File implies
                t.dom().contains(q) && t[q] == v[q] by {
                assert(u.dom().contains(q));
            }
        }
        assert(sources_kept(t, v, ms)) by {
            assert forall|i: int| 0 <= i < ms.len() implies v.dom().contains(
                (#[trigger] ms[i]).source,
            ) && v[ms[i].source] == t[ms[i].source] by {
                assert(!starts_with(ms[i].source, ms[k].target));
                assert(u.dom().contains(ms[i].source));
                lemma_linked_apart(u, m.source, m.target, force, false, ms[i].source);
            }
        }
        assert(links_stand(v, ms, k + 1)) by {
            assert forall|j: int| 0 <= j < k + 1 implies entry(v, (#[trigger] ms[j]).target) == Some(
                Content::Link(ms[j].source),
            ) by {
                if j < k {
                    lemma_targets_apart(t, ms, pkg, target_root, j, k);
                    lemma_targets_apart(t, ms, pkg, target_root, k, j);
                    lemma_linked_apart(u, m.source, m.target, force, false, ms[j].target);
                } else {
                    lemma_linked_stands(u, m.source, m.target, force);
                }
            }
        }
        lemma_install_links(t, ms, pkg, target_root, v, k + 1, force);
    }
}

/// A tree that keeps the files of a package, holds no new files and is
/// shaped gives a walk of the package what the tree before gave it.
proof fn lemma_walk_kept(t: Tree, u: Tree, ms: Seq<Mapping>, pkg: Names, target_root: Names)
    requires
        is_discovery(ms, t, pkg, target_root),
        discovery(t, pkg, target_root) is Ok,
        shaped(u),
        sources_kept(t, u, ms),
        no_new_files(t, u),
        ms.len() > 0 || u == t,
    ensures
        is_discovery(ms, u, pkg, target_root),
        reached(u, pkg) is Some,
        discovery(u, pkg, target_root) == Ok::<Seq<Mapping>, Fault>(ms),
{
    if ms.len() > 0 {
        assert(maps(t, pkg, ms[0].source));
        assert(u.dom().contains(ms[0].source));
        if pkg.len() > 0 {
            lemma_dirs_above(u, ms[0].source, pkg.len() as int);
            assert(ms[0].source.take(pkg.len() as int) =~= pkg);
        }
        assert(entry(u, pkg) == Some(Content::Dir));
    }
    assert(reached(u, pkg) is Some);
    assert(is_discovery(ms, u, pkg, target_root)) by {
        assert forall|i: int| 0 <= i < ms.len() implies maps(u, pkg, (#[trigger] ms[i]).source)
            && ms[i].target == rebased(ms[i].source, pkg, target_root) by {
            assert(maps(t, pkg, ms[i].source));
        }
        assert forall|p: Names| #[trigger] maps(u, pkg, p) implies exists|i: int|
            0 <= i < ms.len() && (#[trigger] ms[i]).source == p by {
            assert(u.dom().contains(p) && u[p] is File);
            assert(maps(t, pkg, p));
        }
    }
    lemma_one_discovery(ms, discovered(u, pkg, target_root), u, pkg, target_root);
}

/// Where the link of a package stands at a target in a shaped tree and the
/// file of the package is there, removing the link and copying the file back
/// puts the file at the target and changes nothing else.
proof fn lemma_remove_one_restores(u: Tree, m: Mapping, force: bool)
    requires
        shaped(u),
        m.target.len() > 0,
        entry(u, m.target) == Some(Content::Link(m.source)),
        u.dom().contains(m.source),
        u[m.source] is File,
    ensures
        removed_one(u, m, true, force, false).tree == u.insert(m.target, u[m.source]),
        removed_one(u, m, true, force, false).result == Ok::<bool, Fault>(true),
{
    let gone = u.remove(m.target);
    let up = m.target.drop_last();
    lemma_parents_are_there(u, m.target);
    assert(takes_dirs(gone, up));
    assert(with_dirs(gone, up) =~= gone) by {
        assert forall|q: Names| q.len() > 0 && starts_with(up, q) implies gone.dom().contains(
            q,
        ) by {
            assert(with_dirs(u, up).dom().contains(q));
        }
    }
    assert(entry(gone, m.target) is None);
    assert(gone.insert(m.target, gone[m.source]) =~= u.insert(m.target, u[m.source]));
}

/// Where the links of a package all stand, removing them with the files
/// copied back puts the file of each mapping at its target.
proof fn lemma_uninstall_restores(
    t: Tree,
    ms: Seq<Mapping>,
    pkg: Names,
    target_root: Names,
    u: Tree,
    k: int,
    force: bool,
)
    requires
        shaped(t),
        is_discovery(ms, t, pkg, target_root),
        targets_spare_sources(ms),
        0 <= k <= ms.len(),
        shaped(u),
        sources_kept(t, u, ms),
        files_back(t, u, ms, k),
        links_wait(u, ms, k),
    ensures
        removed_all(u, ms.skip(k), true, force, false).result == Ok::<nat, Fault>(
            (ms.len() - k) as nat,
        ),
        files_back(t, removed_all(u, ms.skip(k), true, force, false).tree, ms, ms.len() as int),
        sources_kept(t, removed_all(u, ms.skip(k), true, force, false).tree, ms),
        shaped(removed_all(u, ms.skip(k), true, force, false).tree),
    decreases ms.len() - k,
{
    if k < ms.len() {
        let m = ms[k];
        assert(ms.skip(k)[0] == m);
        assert(ms.skip(k).drop_first() =~= ms.skip(k + 1));
        assert(maps(t, pkg, ms[k].source));
        lemma_target_not_root(t, ms, pkg, target_root, k);
        assert(u.dom().contains(ms[k].source) && u[ms[k].source] == t[ms[k].source]);
        lemma_remove_one_restores(u, m, force);
        let v = u.insert(m.target, u[m.source]);
        assert(shaped(v)) by {
            lemma_remove_shaped(u, m.target);
            let gone = u.remove(m.target);
            lemma_parents_are_there(u, m.target);
            assert(blocked(gone, m.target) is None) by {
                if m.target.drop_last().len() > 0 {
                    assert(gone.dom().contains(m.target.drop_last()));
                }
            }
            lemma_insert_shaped(gone, m.target, u[m.source]);
            assert(gone.insert(m.target, u[m.source]) =~= v);
        }
        assert forall|i: int| 0 <= i < ms.len() implies (#[trigger] ms[i]).source != m.target by {
            assert(!starts_with(ms[i].source, ms[k].target));
            assert(m.target.subrange(0, m.target.len() as int) =~= m.target);
        }
        assert(sources_kept(t, v, ms));
        assert(files_back(t, v, ms, k + 1)) by {
            assert forall|j: int| 0 <= j < k + 1 implies {
                &&& t.dom().contains((#[trigger] ms[j]).source)
                &&& t[ms[j].source] is File
                &&& v.dom().contains(ms[j].target)
                &&& v[ms[j].target] == t[ms[j].source]
            } by {
                if j < k {
                    lemma_targets_apart(t, ms, pkg, target_root, j, k);
                    assert(ms[j].target != m.target) by {
                        assert(m.target.subrange(0, m.target.len() as int) =~= m.target);
                    }
                }
            }
        }
        assert(links_wait(v, ms, k + 1)) by {
            assert forall|j: int| k + 1 <= j < ms.len() implies entry(
                v,
                (#[trigger] ms[j]).target,
            ) == Some(Content::Link(ms[j].source)) by {
                lemma_targets_apart(t, ms, pkg, target_root, j, k);
                assert(ms[j].target != m.target) by {
                    assert(m.target.subrange(0, m.target.len() as int) =~= m.target);
                }
            }
        }
        lemma_uninstall_restores(t, ms, pkg, target_root, v, k + 1, force);
    }
}

/// The tree after the links of a package were made, where that went well:
/// the links stand, the files of the package are as they were, and a walk of
/// the package finds what it found before.
proof fn lemma_after_install(
    t: Tree,
    settings: Settings,
    package: Seq<char>,
    target: Option<Names>,
    no_setup: bool,
    force: bool,
)
    requires
        well_formed(t),
        installed(t, settings, package, target, no_setup, force, false).result is Ok,
        force ==> targets_spare_sources(
            discovered(t, package_dir_of(settings, package), target_of(settings, target)),
        ),
    ensures
        ({
            let pkg = package_dir_of(settings, package);
            let target_root = target_of(settings, target);
            let ms = discovered(t, pkg, target_root);
            let mid = installed(t, settings, package, target, no_setup, force, false).tree;
            &&& is_discovery(ms, t, pkg, target_root)
            &&& targets_spare_sources(ms)
            &&& shaped(mid)
            &&& sources_kept(t, mid, ms)
            &&& links_stand(mid, ms, ms.len() as int)
            &&& reached(mid, pkg) is Some
            &&& discovery(mid, pkg, target_root) == Ok::<Seq<Mapping>, Fault>(ms)
        }),
{
    let pkg = package_dir_of(settings, package);
    let target_root = target_of(settings, target);
    let ms = discovered(t, pkg, target_root);
    let mid = installed(t, settings, package, target, no_setup, force, false).tree;
    lemma_walk_finds_all(t, pkg, target_root);
    assert(ms.skip(0) =~= ms);
    assert(mid == linked_all(t, ms, force, false).tree);
    if !force {
        lemma_unforced_links_spare_sources(t, ms, pkg, target_root);
    }
    assert(sources_kept(t, t, ms)) by {
        assert forall|i: int| 0 <= i < ms.len() implies t.dom().contains(
            (#[trigger] ms[i]).source,
        ) by {
            assert(maps(t, pkg, ms[i].source));
        }
    }
    lemma_install_links(t, ms, pkg, target_root, t, 0, force);
    lemma_walk_kept(t, mid, ms, pkg, target_root);
}

/// Installing a package and then uninstalling it puts the files of the
/// package where their links stood.
///
/// Let the install go well and, where it was made with force, let no target
/// lie at or above a file of the package, which force would clear away.
/// Then the uninstall that follows, with the files copied back, goes well
/// too and removes one link for each file of the package; after it a regular
/// file stands at the target of each mapping, with the bytes of the file of
/// the package, so that no link of the package is left; and the files of the
/// package are as they were before the install.
pub proof fn lemma_install_then_uninstall_restores(
    t: Tree,
    settings: Settings,
    package: Seq<char>,
    target: Option<Names>,
    no_setup: bool,
    force: bool,
    force_back: bool,
)
    requires
        well_formed(t),
        installed(t, settings, package, target, no_setup, force, false).result is Ok,
        force ==> targets_spare_sources(
            discovered(t, package_dir_of(settings, package), target_of(settings, target)),
        ),
    ensures
        ({
            let ms = discovered(
                t,
                package_dir_of(settings, package),
                target_of(settings, target),
            );
            let mid = installed(t, settings, package, target, no_setup, force, false).tree;
            let back = uninstalled(mid, settings, package, target, true, force_back, false);
            &&& back.result == Ok::<(nat, nat), Fault>((ms.len(), ms.len()))
            &&& files_back(t, back.tree, ms, ms.len() as int)
            &&& sources_kept(t, back.tree, ms)
        }),
{
    let pkg = package_dir_of(settings, package);
    let target_root = target_of(settings, target);
    let ms = discovered(t, pkg, target_root);
    let mid = installed(t, settings, package, target, no_setup, force, false).tree;
    lemma_after_install(t, settings, package, target, no_setup, force);
    assert(ms.skip(0) =~= ms);
    assert(files_back(t, mid, ms, 0));
    lemma_uninstall_restores(t, ms, pkg, target_root, mid, 0, force_back);
}

/// The round trip on a fresh target: where nothing stands at the target of
/// any file of the package and the install goes well, with force or without,
/// the uninstall that follows puts at each target a regular file with the
/// bytes of the file of the package, and the files of the package are as
/// they were.
pub proof fn lemma_round_trip_on_free_targets(
    t: Tree,
    settings: Settings,
    package: Seq<char>,
    target: Option<Names>,
    no_setup: bool,
    force: bool,
    force_back: bool,
)
    requires
        well_formed(t),
        installed(t, settings, package, target, no_setup, force, false).result is Ok,
        targets_free(
            t,
            discovered(t, package_dir_of(settings, package), target_of(settings, target)),
            discovered(t, package_dir_of(settings, package), target_of(settings, target)).len() as int,
        ),
    ensures
        ({
            let ms = discovered(
                t,
                package_dir_of(settings, package),
                target_of(settings, target),
            );
            let mid = installed(t, settings, package, target, no_setup, force, false).tree;
            let back = uninstalled(mid, settings, package, target, true, force_back, false);
            &&& back.result == Ok::<(nat, nat), Fault>((ms.len(), ms.len()))
            &&& files_back(t, back.tree, ms, ms.len() as int)
            &&& sources_kept(t, back.tree, ms)
        }),
{
    let pkg = package_dir_of(settings, package);
    let target_root = target_of(settings, target);
    lemma_walk_finds_all(t, pkg, target_root);
    lemma_free_targets_spare_sources(t, discovered(t, pkg, target_root), pkg, target_root);
    lemma_install_then_uninstall_restores(
        t,
        settings,
        package,
        target,
        no_setup,
        force,
        force_back,
    );
}

/// Where the links of all mappings stand, making them changes nothing.
proof fn lemma_links_that_stand_stay(u: Tree, ms: Seq<Mapping>, k: int, force: bool, dry_run: bool)
    requires
        0 <= k <= ms.len(),
        links_stand(u, ms, ms.len() as int),
        forall|j: int| 0 <= j < ms.len() ==> (#[trigger] ms[j]).target.len() > 0,
    ensures
        linked_all(u, ms.skip(k), force, dry_run) == crate::symlink::untouched(
            u,
            Ok::<(), Fault>(()),
        ),
    decreases ms.len() - k,
{
    if k < ms.len() {
        let m = ms[k];
        assert(ms.skip(k)[0] == m);
        assert(ms.skip(k).drop_first() =~= ms.skip(k + 1));
        assert(entry(u, ms[k].target) == Some(Content::Link(ms[k].source)));
        assert(owned(state_of(u, m.target, m.source)));
        lemma_links_that_stand_stay(u, ms, k + 1, force, dry_run);
        assert(Seq::<Step>::empty() + Seq::<Step>::empty() =~= Seq::<Step>::empty());
    }
}

/// Installing a package twice is installing it once: after an install that
/// went well, a second install with the same arguments goes well too, finds
/// the same mappings, and changes nothing. Where the install was made with
/// force, let no target lie at or above a file of the package.
pub proof fn lemma_install_twice(
    t: Tree,
    settings: Settings,
    package: Seq<char>,
    target: Option<Names>,
    no_setup: bool,
    force: bool,
)
    requires
        well_formed(t),
        installed(t, settings, package, target, no_setup, force, false).result is Ok,
        force ==> targets_spare_sources(
            discovered(t, package_dir_of(settings, package), target_of(settings, target)),
        ),
    ensures
        ({
            let first = installed(t, settings, package, target, no_setup, force, false);
            let second = installed(first.tree, settings, package, target, no_setup, force, false);
            &&& second.tree == first.tree
            &&& second.steps == Seq::<Step>::empty()
            &&& second.result is Ok
            &&& second.result->Ok_0.mappings == first.result->Ok_0.mappings
        }),
{
    let pkg = package_dir_of(settings, package);
    let target_root = target_of(settings, target);
    let ms = discovered(t, pkg, target_root);
    let mid = installed(t, settings, package, target, no_setup, force, false).tree;
    lemma_after_install(t, settings, package, target, no_setup, force);
    assert(ms.skip(0) =~= ms);
    assert forall|j: int| 0 <= j < ms.len() implies (#[trigger] ms[j]).target.len() > 0 by {
        lemma_target_not_root(t, ms, pkg, target_root, j);
    }
    lemma_links_that_stand_stay(mid, ms, 0, force, false);
}

/// Where the link of each mapping stands, removing the links without copying
/// anything back removes them all and leaves the targets free.
proof fn lemma_unlinking_frees(
    t: Tree,
    ms: Seq<Mapping>,
    pkg: Names,
    target_root: Names,
    u: Tree,
    k: int,
    force: bool,
)
    requires
        shaped(t),
        is_discovery(ms, t, pkg, target_root),
        0 <= k <= ms.len(),
        targets_free(u, ms, k),
        links_wait(u, ms, k),
    ensures
        removed_all(u, ms.skip(k), false, force, false).result == Ok::<nat, Fault>(
            (ms.len() - k) as nat,
        ),
        targets_free(removed_all(u, ms.skip(k), false, force, false).tree, ms, ms.len() as int),
    decreases ms.len() - k,
{
    if k < ms.len() {
        let m = ms[k];
        assert(ms.skip(k)[0] == m);
        assert(ms.skip(k).drop_first() =~= ms.skip(k + 1));
        lemma_target_not_root(t, ms, pkg, target_root, k);
        assert(entry(u, ms[k].target) == Some(Content::Link(ms[k].source)));
        let v = u.remove(m.target);
        assert(removed_one(u, m, false, force, false).tree == v);
        assert(targets_free(v, ms, k + 1)) by {
            assert forall|j: int| 0 <= j < k + 1 implies entry(v, (#[trigger] ms[j]).target) is None by {
                lemma_target_not_root(t, ms, pkg, target_root, j);
            }
        }
        assert(links_wait(v, ms, k + 1)) by {
            assert forall|j: int| k + 1 <= j < ms.len() implies entry(
                v,
                (#[trigger] ms[j]).target,
            ) == Some(Content::Link(ms[j].source)) by {
                lemma_targets_apart(t, ms, pkg, target_root, j, k);
                assert(ms[j].target != m.target) by {
                    assert(m.target.subrange(0, m.target.len() as int) =~= m.target);
                }
                lemma_target_not_root(t, ms, pkg, target_root, j);
            }
        }
        lemma_unlinking_frees(t, ms, pkg, target_root, v, k + 1, force);
    }
}

/// Removing the links of a package without copying anything back leaves
/// nothing at the targets: where the link of each file of the package stands
/// at its target, the removal goes well and removes them all, nothing stands
/// at any target afterwards, and the tree holds the regular files that it
/// held before, with the bytes that they had, and no other.
pub proof fn lemma_unlinking_leaves_no_copies(
    t: Tree,
    settings: Settings,
    package: Seq<char>,
    target: Option<Names>,
    force: bool,
)
    requires
        well_formed(t),
        discovery(t, package_dir_of(settings, package), target_of(settings, target)) is Ok,
        links_stand(
            t,
            discovered(t, package_dir_of(settings, package), target_of(settings, target)),
            discovered(t, package_dir_of(settings, package), target_of(settings, target)).len() as int,
        ),
    ensures
        ({
            let ms = discovered(
                t,
                package_dir_of(settings, package),
                target_of(settings, target),
            );
            let gone = uninstalled(t, settings, package, target, false, force, false);
            &&& gone.result == Ok::<(nat, nat), Fault>((ms.len(), ms.len()))
            &&& targets_free(gone.tree, ms, ms.len() as int)
            &&& same_files(t, gone.tree)
        }),
{
    let pkg = package_dir_of(settings, package);
    let target_root = target_of(settings, target);
    let ms = discovered(t, pkg, target_root);
    lemma_walk_finds_all(t, pkg, target_root);
    assert(ms.skip(0) =~= ms);
    lemma_unlinking_frees(t, ms, pkg, target_root, t, 0, force);
    lemma_removed_all_keeps_files(t, ms, force, false);
}

/// Whether `u` holds at the target of each mapping from the `k`th on what
/// `t` holds there.
pub open spec fn targets_wait(t: Tree, u: Tree, ms: Seq<Mapping>, k: int) -> bool {
    forall|j: int| k <= j < ms.len() ==> entry(u, (#[trigger] ms[j]).target) == entry(t, ms[j].target)
}

/// Whether an error is one that is found by looking at the tree, before
/// anything is changed: any error but a change that the tree refused.
pub open spec fn foreseen(fault: Fault) -> bool {
    !(fault is Io) && !(fault is PermissionDenied)
}

/// The target of a file of a package is not the root.
proof fn lemma_target_not_root(t: Tree, ms: Seq<Mapping>, pkg: Names, target_root: Names, j: int)
    requires
        is_discovery(ms, t, pkg, target_root),
        0 <= j < ms.len(),
    ensures
        ms[j].target.len() > 0,
{
    assert(maps(t, pkg, ms[j].source));
    lemma_rebased(ms[j].source, pkg, target_root);
}

/// Making the link of one mapping leaves the targets of the later mappings
/// as they are.
proof fn lemma_link_spares_later_targets(
    t: Tree,
    ms: Seq<Mapping>,
    pkg: Names,
    target_root: Names,
    u: Tree,
    k: int,
    force: bool,
)
    requires
        shaped(t),
        is_discovery(ms, t, pkg, target_root),
        0 <= k < ms.len(),
        targets_wait(t, u, ms, k),
    ensures
        targets_wait(t, linked(u, ms[k].source, ms[k].target, force, false).tree, ms, k + 1),
{
    let v = linked(u, ms[k].source, ms[k].target, force, false).tree;
    assert forall|j: int| k + 1 <= j < ms.len() implies entry(v, (#[trigger] ms[j]).target)
        == entry(t, ms[j].target) by {
        lemma_targets_apart(t, ms, pkg, target_root, j, k);
        lemma_targets_apart(t, ms, pkg, target_root, k, j);
        lemma_target_not_root(t, ms, pkg, target_root, j);
        lemma_linked_apart(u, ms[k].source, ms[k].target, force, false, ms[j].target);
    }
}

/// A dry run of one link in a tree reports what the making of the link
/// reports in a tree that holds the same at the target, wherever the making
/// goes well or ends in a conflict.
proof fn lemma_dry_link_reports_alike(t: Tree, u: Tree, source: Names, target: Names, force: bool)
    requires
        target.len() > 0,
        entry(u, target) == entry(t, target),
        match linked(u, source, target, force, false).result {
            Ok(_) => true,
            Err(fault) => foreseen(fault),
        },
    ensures
        linked(t, source, target, force, true).result == linked(
            u,
            source,
            target,
            force,
            false,
        ).result,
        linked(t, source, target, force, true).tree == t,
        linked(t, source, target, force, true).steps == Seq::<Step>::empty(),
{
    assert(owned(state_of(u, target, source)) == owned(state_of(t, target, source)));
    assert((state_of(u, target, source) == LinkState::Foreign) == (state_of(t, target, source)
        == LinkState::Foreign));
}

/// A dry run of the links of a package reports what the run itself reports,
/// wherever the run itself goes well or ends in a conflict.
#[verifier::rlimit(30)]
proof fn lemma_dry_links_report_alike(
    t: Tree,
    ms: Seq<Mapping>,
    pkg: Names,
    target_root: Names,
    u: Tree,
    k: int,
    force: bool,
)
    requires
        shaped(t),
        is_discovery(ms, t, pkg, target_root),
        0 <= k <= ms.len(),
        targets_wait(t, u, ms, k),
        match linked_all(u, ms.skip(k), force, false).result {
            Ok(_) => true,
            Err(fault) => foreseen(fault),
        },
    ensures
        linked_all(t, ms.skip(k), force, true).result == linked_all(
            u,
            ms.skip(k),
            force,
            false,
        ).result,
    decreases ms.len() - k,
{
    if k < ms.len() {
        let m = ms[k];
        assert(ms.skip(k)[0] == m);
        assert(ms.skip(k).drop_first() =~= ms.skip(k + 1));
        lemma_target_not_root(t, ms, pkg, target_root, k);
        assert(entry(u, ms[k].target) == entry(t, ms[k].target));
        let made = linked(u, m.source, m.target, force, false);
        lemma_dry_link_reports_alike(t, u, m.source, m.target, force);
        let dry = linked(t, m.source, m.target, force, true);
        let rest = ms.skip(k + 1);
        assert(linked_all(u, ms.skip(k), force, false).result == if made.result is Err {
            made.result
        } else {
            linked_all(made.tree, rest, force, false).result
        });
        assert(linked_all(t, ms.skip(k), force, true).result == if dry.result is Err {
            dry.result
        } else {
            linked_all(t, rest, force, true).result
        });
        if made.result is Ok {
            lemma_link_spares_later_targets(t, ms, pkg, target_root, u, k, force);
            lemma_dry_links_report_alike(t, ms, pkg, target_root, made.tree, k + 1, force);
        }
    }
}

/// A dry run of an install reports what the install itself reports: where
/// the install goes well, the dry run goes well and finds the same mappings,
/// and where the install ends in an error that is found by looking at the
/// tree, such as a conflict, the dry run ends in the same error.
pub proof fn lemma_dry_install_reports_alike(
    t: Tree,
    settings: Settings,
    package: Seq<char>,
    target: Option<Names>,
    no_setup: bool,
    force: bool,
)
    requires
        well_formed(t),
    ensures
        match installed(t, settings, package, target, no_setup, force, false).result {
            Ok(report) => {
                &&& installed(t, settings, package, target, no_setup, force, true).result is Ok
                &&& installed(
                    t,
                    settings,
                    package,
                    target,
                    no_setup,
                    force,
                    true,
                ).result->Ok_0.mappings == report.mappings
            },
            Err(fault) => foreseen(fault) ==> installed(
                t,
                settings,
                package,
                target,
                no_setup,
                force,
                true,
            ).result == Err::<crate::lifecycle::Installed, Fault>(fault),
        },
{
    lemma_walk_finds_all(t, package_dir_of(settings, package), target_of(settings, target));
    let pkg = package_dir_of(settings, package);
    let target_root = target_of(settings, target);
    if reached(t, pkg) is Some {
        if let Ok(ms) = discovery(t, pkg, target_root) {
            assert(ms.skip(0) =~= ms);
            let made = linked_all(t, ms, force, false);
            if made.result is Ok || (made.result is Err && foreseen(made.result->Err_0)) {
                lemma_dry_links_report_alike(t, ms, pkg, target_root, t, 0, force);
            }
        }
    }
}


/// Removing the link of one mapping, with or without copying its file back,
/// leaves alone what lies apart from its target.
pub proof fn lemma_removed_one_apart(u: Tree, m: Mapping, copy_back: bool, force: bool, q: Names)
    requires
        apart_from(u, q, m.target),
    ensures
        same_at(u, removed_one(u, m, copy_back, force, false).tree, q),
{
    let gone = unlinked(u, m.target, m.source, false);
    assert(q != m.target) by {
        assert(m.target.subrange(0, m.target.len() as int) =~= m.target);
    }
    if gone.result == Ok::<bool, Fault>(true) && copy_back {
        assert(m.target.len() > 0);
        assert(entry(gone.tree, m.target) is None);
        assert(apart_from(gone.tree, q, m.target));
        lemma_placed_apart(
            gone.tree,
            m.target,
            Step::CopyFile(m.source, m.target),
            "Cannot copy file"@,
            q,
        );
    }
}

/// A dry run of the removal of the links of a package counts the links that
/// the removal itself removes, wherever the removal itself goes well.
proof fn lemma_dry_removals_count_alike(
    t: Tree,
    ms: Seq<Mapping>,
    pkg: Names,
    target_root: Names,
    u: Tree,
    k: int,
    copy_back: bool,
    force: bool,
)
    requires
        shaped(t),
        is_discovery(ms, t, pkg, target_root),
        0 <= k <= ms.len(),
        targets_wait(t, u, ms, k),
        removed_all(u, ms.skip(k), copy_back, force, false).result is Ok,
    ensures
        removed_all(t, ms.skip(k), copy_back, force, true).result == removed_all(
            u,
            ms.skip(k),
            copy_back,
            force,
            false,
        ).result,
    decreases ms.len() - k,
{
    if k < ms.len() {
        let m = ms[k];
        assert(ms.skip(k)[0] == m);
        assert(ms.skip(k).drop_first() =~= ms.skip(k + 1));
        lemma_target_not_root(t, ms, pkg, target_root, k);
        assert(entry(u, ms[k].target) == entry(t, ms[k].target));
        let one = removed_one(u, m, copy_back, force, false);
        assert(owned(state_of(u, m.target, m.source)) == owned(state_of(t, m.target, m.source)));
        crate::symlink::lemma_dry_run_keeps_tree(t, m.source, m.target, force);
        assert(removed_one(t, m, copy_back, force, true).tree == t);
        assert(targets_wait(t, one.tree, ms, k + 1)) by {
            assert forall|j: int| k + 1 <= j < ms.len() implies entry(
                one.tree,
                (#[trigger] ms[j]).target,
            ) == entry(t, ms[j].target) by {
                lemma_targets_apart(t, ms, pkg, target_root, j, k);
                lemma_targets_apart(t, ms, pkg, target_root, k, j);
                lemma_target_not_root(t, ms, pkg, target_root, j);
                lemma_removed_one_apart(u, m, copy_back, force, ms[j].target);
            }
        }
        lemma_dry_removals_count_alike(t, ms, pkg, target_root, one.tree, k + 1, copy_back, force);
    }
}

/// A dry run of an uninstall counts what the uninstall itself counts: where
/// the uninstall goes well, the dry run goes well too, finds as many mappings
/// and counts as many links as the uninstall removes.
pub proof fn lemma_dry_uninstall_counts_alike(
    t: Tree,
    settings: Settings,
    package: Seq<char>,
    target: Option<Names>,
    copy_back: bool,
    force: bool,
)
    requires
        well_formed(t),
        uninstalled(t, settings, package, target, copy_back, force, false).result is Ok,
    ensures
        uninstalled(t, settings, package, target, copy_back, force, true).result == uninstalled(
            t,
            settings,
            package,
            target,
            copy_back,
            force,
            false,
        ).result,
{
    lemma_walk_finds_all(t, package_dir_of(settings, package), target_of(settings, target));
    let pkg = package_dir_of(settings, package);
    let target_root = target_of(settings, target);
    let ms = discovered(t, pkg, target_root);
    assert(ms.skip(0) =~= ms);
    lemma_dry_removals_count_alike(t, ms, pkg, target_root, t, 0, copy_back, force);
}

} // verus!
