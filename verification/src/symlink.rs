//! Links between a package and its target: how a path stands to the source
//! that a link there should store, and the changes that make, remove and
//! replace such links.
//!
//! A path belongs to a package only through a link: the link stored there
//! must be the path of the source, name for name. What a file holds never
//! makes it the package's own.

use crate::error::{refused_as, seen, Fault, IoKind, StauError};
use crate::path::{Names, TreePath};
use crate::file_tree::FileTree;
use crate::tree::{
    applied, entry, reached, refusal, replayed, takes_dirs, with_dirs, without, Content, Kind,
    Step, Tree,
};
use vstd::prelude::*;

verus! {

/// A file of a package and the place where its link belongs.
#[derive(Debug, PartialEq, Eq)]
pub struct SymlinkMapping {
    /// The file in the package directory.
    pub source: TreePath,
    /// The path under the target directory at which the link is made.
    pub target: TreePath,
}

/// A mapping as the contracts see it.
pub struct Mapping {
    /// The file in the package directory.
    pub source: Names,
    /// The path under the target directory at which the link is made.
    pub target: Names,
}

impl View for SymlinkMapping {
    type V = Mapping;

    open spec fn view(&self) -> Mapping {
        Mapping { source: self.source@, target: self.target@ }
    }
}

impl Clone for SymlinkMapping {
    fn clone(&self) -> (copy: Self)
        ensures
            copy@ == self@,
    {
        SymlinkMapping { source: self.source.clone(), target: self.target.clone() }
    }
}

impl SymlinkMapping {
    /// The mapping from `source` to `target`.
    pub fn new(source: TreePath, target: TreePath) -> (mapping: SymlinkMapping)
        ensures
            mapping.source == source,
            mapping.target == target,
    {
        SymlinkMapping { source, target }
    }
}

/// How a path stands to the source that a link there should store.
#[derive(Debug, Clone, Copy, PartialEq, Eq, Structural)]
pub enum LinkState {
    /// Nothing stands at the path.
    Absent,
    /// A link stands there that stores the source, and it leads somewhere.
    ManagedIntact,
    /// A link stands there that stores the source, and it leads nowhere.
    ManagedBroken,
    /// Something else stands there: a file, a directory, or a link that
    /// stores another path.
    Foreign,
}

/// How `target` stands to `source` in `t`.
pub open spec fn state_of(t: Tree, target: Names, source: Names) -> LinkState {
    match entry(t, target) {
        None => LinkState::Absent,
        Some(Content::Link(stored)) => if stored == source {
            if reached(t, target) is Some {
                LinkState::ManagedIntact
            } else {
                LinkState::ManagedBroken
            }
        } else {
            LinkState::Foreign
        },
        Some(_) => LinkState::Foreign,
    }
}

/// Whether a path in this state belongs to the package.
pub open spec fn owned(state: LinkState) -> bool {
    state == LinkState::ManagedIntact || state == LinkState::ManagedBroken
}

/// Whether a link stands at `p` that leads nowhere.
pub open spec fn dangling(t: Tree, p: Names) -> bool {
    entry(t, p) matches Some(Content::Link(_)) && reached(t, p) is None
}

/// What an operation leaves behind: the tree, the changes that it made to
/// the tree, in order, and what it reports.
pub struct Done<R> {
    /// The tree after the operation.
    pub tree: Tree,
    /// The changes that led there.
    pub steps: Seq<Step>,
    /// What the operation reports.
    pub result: Result<R, Fault>,
}

/// An operation that changes nothing and reports `result`.
pub open spec fn untouched<R>(t: Tree, result: Result<R, Fault>) -> Done<R> {
    Done { tree: t, steps: Seq::empty(), result }
}

/// `done` with the changes `steps` made before it.
pub open spec fn preceded<R>(steps: Seq<Step>, done: Done<R>) -> Done<R> {
    Done { tree: done.tree, steps: steps + done.steps, result: done.result }
}

/// `done` with another report in the place of its own, where it went well.
pub open spec fn reporting<R, S>(done: Done<R>, report: S) -> Done<S> {
    Done {
        tree: done.tree,
        steps: done.steps,
        result: match done.result {
            Ok(_) => Ok(report),
            Err(fault) => Err(fault),
        },
    }
}

/// The change that takes away what stands at `p`: a directory goes with
/// everything under it.
pub open spec fn clearing(t: Tree, p: Names) -> Step {
    if entry(t, p) == Some(Content::Dir) {
        Step::RemoveTree(p)
    } else {
        Step::RemoveFile(p)
    }
}

/// `t` without what stands at `p`: a directory goes with everything under it.
pub open spec fn cleared(t: Tree, p: Names) -> Tree {
    if entry(t, p) == Some(Content::Dir) {
        without(t, p)
    } else {
        t.remove(p)
    }
}

/// `t` with the directories that are to hold `target`, or the error where
/// something that is no directory stands in their way.
pub open spec fn with_parents(t: Tree, target: Names) -> Result<Tree, Fault> {
    if target.len() == 0 {
        Ok(t)
    } else if takes_dirs(t, target.drop_last()) {
        Ok(with_dirs(t, target.drop_last()))
    } else {
        Err(refused_as(IoKind::NotADirectory, "Cannot create directory"@, target.drop_last()))
    }
}

/// The change that makes the directories that are to hold `target`, which
/// the root needs none of.
pub open spec fn parents_made(target: Names) -> Seq<Step> {
    if target.len() == 0 {
        Seq::empty()
    } else {
        seq![Step::MakeDirs(target.drop_last())]
    }
}

/// What becomes of `t` when the directories for `target` are made and then the
/// change `step` at `target`: the error names `aim` where the change is refused.
pub open spec fn placed(t: Tree, target: Names, step: Step, aim: Seq<char>) -> Done<()> {
    match with_parents(t, target) {
        Err(fault) => untouched(t, Err(fault)),
        Ok(ready) => match refusal(ready, step) {
            Some(kind) => Done {
                tree: ready,
                steps: parents_made(target),
                result: Err(refused_as(kind, aim, target)),
            },
            None => Done {
                tree: applied(ready, step),
                steps: parents_made(target).push(step),
                result: Ok(()),
            },
        },
    }
}

/// What `create_symlink_with_force` leaves behind.
///
/// A target that belongs to the package already is left as it is. A foreign
/// target is a conflict unless `force` is set, and is then cleared away. On a
/// dry run nothing changes. Otherwise the directories above the target are
/// made, and then the link.
pub open spec fn linked(t: Tree, source: Names, target: Names, force: bool, dry_run: bool) -> Done<
    (),
> {
    let state = state_of(t, target, source);
    if owned(state) {
        untouched(t, Ok(()))
    } else if state == LinkState::Foreign && !force {
        untouched(t, Err(Fault::ConflictingFile(target)))
    } else if dry_run {
        untouched(t, Ok(()))
    } else if state == LinkState::Foreign {
        preceded(
            seq![clearing(t, target)],
            placed(
                cleared(t, target),
                target,
                Step::MakeLink(target, source),
                "Cannot create symlink"@,
            ),
        )
    } else {
        placed(t, target, Step::MakeLink(target, source), "Cannot create symlink"@)
    }
}

/// What `remove_symlink` leaves behind: a target that belongs to the package
/// is removed and `true` reported, on a dry run without the removal; any other
/// target is left alone and `false` reported.
pub open spec fn unlinked(t: Tree, target: Names, source: Names, dry_run: bool) -> Done<bool> {
    if !owned(state_of(t, target, source)) {
        untouched(t, Ok(false))
    } else if dry_run {
        untouched(t, Ok(true))
    } else {
        Done { tree: t.remove(target), steps: seq![Step::RemoveFile(target)], result: Ok(true) }
    }
}

/// What `copy_file` leaves behind: on a dry run nothing changes; a target at
/// which anything stands is a conflict; otherwise the directories above the
/// target are made and the file copied.
pub open spec fn restored(t: Tree, source: Names, target: Names, dry_run: bool) -> Done<()> {
    if dry_run {
        untouched(t, Ok(()))
    } else if entry(t, target) is Some {
        untouched(t, Err(Fault::ConflictingFile(target)))
    } else {
        placed(t, target, Step::CopyFile(source, target), "Cannot copy file"@)
    }
}

/// What `copy_file_with_force` leaves behind: as `copy_file`, but with `force`
/// set whatever stands at the target is cleared away first.
pub open spec fn restored_over(
    t: Tree,
    source: Names,
    target: Names,
    force: bool,
    dry_run: bool,
) -> Done<()> {
    if !dry_run && force && entry(t, target) is Some {
        preceded(seq![clearing(t, target)], restored(cleared(t, target), source, target, dry_run))
    } else {
        restored(t, source, target, dry_run)
    }
}

/// What `purge_if_broken` leaves behind: a link that leads nowhere is removed
/// and `true` reported, on a dry run without the removal; anything else is
/// left alone and `false` reported.
pub open spec fn purged(t: Tree, target: Names, dry_run: bool) -> Done<bool> {
    if !dangling(t, target) {
        untouched(t, Ok(false))
    } else if dry_run {
        untouched(t, Ok(true))
    } else {
        Done { tree: t.remove(target), steps: seq![Step::RemoveFile(target)], result: Ok(true) }
    }
}

/// Making a link twice is making it once: after a link has been made, or was
/// found to be there, asking for it again with the same arguments reports
/// success, changes nothing and leaves the tree as the first call left it.
pub proof fn lemma_link_twice(t: Tree, source: Names, target: Names, force: bool, dry_run: bool)
    requires
        linked(t, source, target, force, dry_run).result is Ok,
    ensures
        linked(linked(t, source, target, force, dry_run).tree, source, target, force, dry_run)
            == untouched(linked(t, source, target, force, dry_run).tree, Ok::<(), Fault>(())),
{
    let first = linked(t, source, target, force, dry_run);
    let state = state_of(t, target, source);
    if !owned(state) && !dry_run {
        let free = if state == LinkState::Foreign {
            cleared(t, target)
        } else {
            t
        };
        let ready = with_parents(free, target)->Ok_0;
        assert(first.tree == ready.insert(target, Content::Link(source)));
        assert(target.len() > 0);
        assert(owned(state_of(first.tree, target, source)));
    }
}

/// A link that stores another path than the source asked about is not the
/// package's: removing the package's link at such a target reports that
/// nothing was removed, and changes nothing.
pub proof fn lemma_unlink_spares_other_links(
    t: Tree,
    target: Names,
    source: Names,
    stored: Names,
    dry_run: bool,
)
    requires
        entry(t, target) == Some(Content::Link(stored)),
        stored != source,
    ensures
        unlinked(t, target, source, dry_run) == untouched(t, Ok::<bool, Fault>(false)),
{
}

/// On a dry run none of the changes to links and files changes anything.
pub proof fn lemma_dry_run_keeps_tree(t: Tree, source: Names, target: Names, force: bool)
    ensures
        linked(t, source, target, force, true).tree == t,
        linked(t, source, target, force, true).steps == Seq::<Step>::empty(),
        unlinked(t, target, source, true).tree == t,
        unlinked(t, target, source, true).steps == Seq::<Step>::empty(),
        restored(t, source, target, true).tree == t,
        restored(t, source, target, true).steps == Seq::<Step>::empty(),
        restored_over(t, source, target, force, true).tree == t,
        restored_over(t, source, target, force, true).steps == Seq::<Step>::empty(),
        purged(t, target, true).tree == t,
        purged(t, target, true).steps == Seq::<Step>::empty(),
{
}

/// A dry run gives the answer that the run itself gives: always for a
/// removal, and for the making of a link wherever the run itself goes well
/// or ends in a conflict.
pub proof fn lemma_dry_run_answers_alike(t: Tree, source: Names, target: Names, force: bool)
    ensures
        unlinked(t, target, source, true).result == unlinked(t, target, source, false).result,
        purged(t, target, true).result == purged(t, target, false).result,
        linked(t, source, target, force, false).result is Ok || linked(
            t,
            source,
            target,
            force,
            false,
        ).result == Err::<(), Fault>(Fault::ConflictingFile(target)) ==> linked(
            t,
            source,
            target,
            force,
            true,
        ).result == linked(t, source, target, force, false).result,
{
    let state = state_of(t, target, source);
    if !owned(state) && !(state == LinkState::Foreign && !force) {
        let free = if state == LinkState::Foreign {
            cleared(t, target)
        } else {
            t
        };
        let done = placed(free, target, Step::MakeLink(target, source), "Cannot create symlink"@);
        if done.result is Err {
            assert(done.result != Err::<(), Fault>(Fault::ConflictingFile(target)));
        }
    }
}

/// The changes that an operation on links and files lists lead from the tree
/// before it to the tree after it.
pub proof fn lemma_steps_lead_to_tree(
    t: Tree,
    source: Names,
    target: Names,
    force: bool,
    dry_run: bool,
)
    ensures
        replayed(t, linked(t, source, target, force, dry_run).steps) == linked(
            t,
            source,
            target,
            force,
            dry_run,
        ).tree,
        replayed(t, unlinked(t, target, source, dry_run).steps) == unlinked(
            t,
            target,
            source,
            dry_run,
        ).tree,
        replayed(t, restored_over(t, source, target, force, dry_run).steps) == restored_over(
            t,
            source,
            target,
            force,
            dry_run,
        ).tree,
        replayed(t, purged(t, target, dry_run).steps) == purged(t, target, dry_run).tree,
{
    lemma_cleared_then_placed(t, target, Step::MakeLink(target, source), "Cannot create symlink"@);
    lemma_cleared_then_placed(t, target, Step::CopyFile(source, target), "Cannot copy file"@);
    lemma_replayed_one(t, Step::RemoveFile(target));
    lemma_replayed_one(t, clearing(t, target));
    assert(replayed(t, Seq::<Step>::empty()) == t);
    assert(seq![clearing(t, target)] + Seq::<Step>::empty() =~= seq![clearing(t, target)]);
}

/// One change replayed is that change made.
pub proof fn lemma_replayed_one(t: Tree, step: Step)
    ensures
        replayed(t, seq![step]) == applied(t, step),
{
    assert(seq![step].drop_last() =~= Seq::<Step>::empty());
    assert(replayed(t, seq![step].drop_last()) == t);
}

/// The changes of placing an entry lead to the tree that placing it leaves,
/// whether or not the place is cleared first.
proof fn lemma_cleared_then_placed(t: Tree, target: Names, step: Step, aim: Seq<char>)
    ensures
        replayed(t, placed(t, target, step, aim).steps) == placed(t, target, step, aim).tree,
        replayed(
            t,
            preceded(seq![clearing(t, target)], placed(cleared(t, target), target, step, aim)).steps,
        ) == placed(cleared(t, target), target, step, aim).tree,
{
    lemma_placed_replays(t, target, step, aim);
    let free = cleared(t, target);
    lemma_placed_replays(free, target, step, aim);
    lemma_replayed_one(t, clearing(t, target));
    lemma_replayed_joined(t, seq![clearing(t, target)], placed(free, target, step, aim).steps);
}

/// The changes of placing an entry lead to the tree that placing it leaves.
proof fn lemma_placed_replays(t: Tree, target: Names, step: Step, aim: Seq<char>)
    ensures
        replayed(t, placed(t, target, step, aim).steps) == placed(t, target, step, aim).tree,
{
    assert(replayed(t, Seq::<Step>::empty()) == t);
    if let Ok(ready) = with_parents(t, target) {
        let made = parents_made(target);
        if target.len() > 0 {
            lemma_replayed_one(t, Step::MakeDirs(target.drop_last()));
        }
        assert(replayed(t, made) == ready);
        if refusal(ready, step) is None {
            assert(made.push(step).drop_last() =~= made);
        }
    }
}

/// Changes replayed one list after the other are the joined list replayed.
pub proof fn lemma_replayed_joined(t: Tree, first: Seq<Step>, second: Seq<Step>)
    ensures
        replayed(t, first + second) == replayed(replayed(t, first), second),
    decreases second.len(),
{
    if second.len() == 0 {
        assert(first + second =~= first);
    } else {
        lemma_replayed_joined(t, first, second.drop_last());
        assert((first + second).drop_last() =~= first + second.drop_last());
    }
}

/// Says how `target` stands to `expected_source`: whether nothing is there,
/// a link of the package that leads somewhere or nowhere, or something else.
/// A link is judged by the path stored in it, not by where it leads.
pub fn classify(fs: &FileTree, target: &TreePath, expected_source: &TreePath) -> (state: LinkState)
    ensures
        state == state_of(fs@, target@, expected_source@),
{
    match fs.kind(target) {
        None => LinkState::Absent,
        Some(Kind::Link) => match fs.read_link(target) {
            Some(stored) => {
                if stored.same_as(expected_source) {
                    if fs.resolves(target) {
                        LinkState::ManagedIntact
                    } else {
                        LinkState::ManagedBroken
                    }
                } else {
                    LinkState::Foreign
                }
            },
            None => LinkState::Foreign,
        },
        Some(_) => LinkState::Foreign,
    }
}

/// Whether a link stands at `path` that stores `expected_target`.
pub fn is_stau_symlink(fs: &FileTree, path: &TreePath, expected_target: &TreePath) -> (found:
    Result<bool, StauError>)
    ensures
        found is Ok,
        found->Ok_0 == owned(state_of(fs@, path@, expected_target@)),
{
    match classify(fs, path, expected_target) {
        LinkState::ManagedIntact => Ok(true),
        LinkState::ManagedBroken => Ok(true),
        _ => Ok(false),
    }
}

/// Whether a link stands at `path` that leads nowhere, whatever it stores.
pub fn is_broken_symlink(fs: &FileTree, path: &TreePath) -> (broken: bool)
    ensures
        broken == dangling(fs@, path@),
{
    match fs.kind(path) {
        Some(Kind::Link) => !fs.resolves(path),
        _ => false,
    }
}

/// Removes what stands at `path`: a directory with everything under it.
fn clear(fs: &mut FileTree, path: &TreePath) -> (outcome: Result<(), StauError>)
    requires
        entry(old(fs)@, path@) is Some,
    ensures
        outcome is Ok,
        final(fs)@ == cleared(old(fs)@, path@),
        final(fs).changes() == old(fs).changes().push(clearing(old(fs)@, path@)),
        final(fs).origin() == old(fs).origin(),
{
    match fs.kind(path) {
        Some(Kind::Dir) => match fs.remove_dir_all(path) {
            Ok(()) => Ok(()),
            Err(kind) => Err(StauError::refused(kind, "Cannot remove existing directory", path)),
        },
        Some(Kind::Link) => match fs.remove_file(path) {
            Ok(()) => Ok(()),
            Err(kind) => Err(StauError::refused(kind, "Cannot remove existing symlink", path)),
        },
        _ => match fs.remove_file(path) {
            Ok(()) => Ok(()),
            Err(kind) => Err(StauError::refused(kind, "Cannot remove existing file", path)),
        },
    }
}

/// Makes the directories above `target`.
fn make_parents(fs: &mut FileTree, target: &TreePath) -> (outcome: Result<(), StauError>)
    ensures
        match with_parents(old(fs)@, target@) {
            Ok(ready) => outcome is Ok && final(fs)@ == ready && final(fs).changes() == old(
                fs,
            ).changes() + parents_made(target@),
            Err(fault) => outcome is Err && outcome->Err_0@ == fault && final(fs)@ == old(fs)@
                && final(fs).changes() == old(fs).changes(),
        },
        final(fs).origin() == old(fs).origin(),
{
    match target.parent() {
        None => {
            proof {
                assert(fs.changes() + Seq::<Step>::empty() =~= fs.changes());
            }
            Ok(())
        },
        Some(up) => {
            let ghost before = fs.changes();
            match fs.create_dir_all(&up) {
                Ok(()) => {
                    proof {
                        assert(before.push(Step::MakeDirs(up@)) =~= before + parents_made(target@));
                    }
                    Ok(())
                },
                Err(kind) => Err(StauError::refused(kind, "Cannot create directory", &up)),
            }
        },
    }
}

/// Makes a link at `target` that stores `source`, with the directories above
/// it. A target that belongs to the package already is left as it is; any
/// other target at which something stands is a conflict.
pub fn create_symlink(fs: &mut FileTree, source: &TreePath, target: &TreePath, dry_run: bool) -> (outcome:
    Result<(), StauError>)
    ensures
        final(fs)@ == linked(old(fs)@, source@, target@, false, dry_run).tree,
        final(fs).changes() == old(fs).changes() + linked(
            old(fs)@,
            source@,
            target@,
            false,
            dry_run,
        ).steps,
        seen(outcome) == linked(old(fs)@, source@, target@, false, dry_run).result,
        final(fs).origin() == old(fs).origin(),
{
    create_symlink_with_force(fs, source, target, dry_run, false)
}

/// Makes a link at `target` that stores `source`, with the directories above
/// it.
///
/// A target that belongs to the package already is left as it is. A foreign
/// target is a conflict unless `force` is set; with `force` it is removed
/// first, a directory with everything under it. On a dry run the outcome is
/// reported and nothing is changed, the removal included.
pub fn create_symlink_with_force(
    fs: &mut FileTree,
    source: &TreePath,
    target: &TreePath,
    dry_run: bool,
    force: bool,
) -> (outcome: Result<(), StauError>)
    ensures
        final(fs)@ == linked(old(fs)@, source@, target@, force, dry_run).tree,
        final(fs).changes() == old(fs).changes() + linked(
            old(fs)@,
            source@,
            target@,
            force,
            dry_run,
        ).steps,
        seen(outcome) == linked(old(fs)@, source@, target@, force, dry_run).result,
        final(fs).origin() == old(fs).origin(),
{
    let ghost before = fs.changes();
    let ghost t = fs@;
    proof {
        assert(before + Seq::<Step>::empty() =~= before);
    }
    let state = classify(fs, target, source);
    match state {
        LinkState::ManagedIntact => {
            return Ok(());
        },
        LinkState::ManagedBroken => {
            return Ok(());
        },
        LinkState::Foreign => {
            if !force {
                return Err(StauError::ConflictingFile(target.clone()));
            }
            if !dry_run {
                match clear(fs, target) {
                    Ok(()) => {},
                    Err(e) => {
                        return Err(e);
                    },
                }
            }
        },
        LinkState::Absent => {},
    }
    if dry_run {
        return Ok(());
    }
    let ghost free = fs@;
    let done = place_link(fs, source, target);
    proof {
        let made = placed(free, target@, Step::MakeLink(target@, source@), "Cannot create symlink"@);
        if state == LinkState::Foreign {
            assert(before.push(clearing(t, target@)) + made.steps =~= before + (seq![
                clearing(t, target@),
            ] + made.steps));
        }
    }
    done
}

/// Makes the directories above `target` and then the link at `target`.
fn place_link(fs: &mut FileTree, source: &TreePath, target: &TreePath) -> (outcome: Result<
    (),
    StauError,
>)
    ensures
        final(fs)@ == placed(
            old(fs)@,
            target@,
            Step::MakeLink(target@, source@),
            "Cannot create symlink"@,
        ).tree,
        final(fs).changes() == old(fs).changes() + placed(
            old(fs)@,
            target@,
            Step::MakeLink(target@, source@),
            "Cannot create symlink"@,
        ).steps,
        seen(outcome) == placed(
            old(fs)@,
            target@,
            Step::MakeLink(target@, source@),
            "Cannot create symlink"@,
        ).result,
        final(fs).origin() == old(fs).origin(),
{
    let ghost before = fs.changes();
    proof {
        assert(before + Seq::<Step>::empty() =~= before);
    }
    match make_parents(fs, target) {
        Ok(()) => {},
        Err(e) => {
            return Err(e);
        },
    }
    match fs.make_link(source, target) {
        Ok(()) => {
            proof {
                let step = Step::MakeLink(target@, source@);
                assert((before + parents_made(target@)).push(step) =~= before + parents_made(
                    target@,
                ).push(step));
            }
            Ok(())
        },
        Err(kind) => Err(StauError::refused(kind, "Cannot create symlink", target)),
    }
}

/// Makes the directories above `dest` and then a copy of `source` at `dest`.
fn place_copy(fs: &mut FileTree, source: &TreePath, dest: &TreePath) -> (outcome: Result<
    (),
    StauError,
>)
    ensures
        final(fs)@ == placed(
            old(fs)@,
            dest@,
            Step::CopyFile(source@, dest@),
            "Cannot copy file"@,
        ).tree,
        final(fs).changes() == old(fs).changes() + placed(
            old(fs)@,
            dest@,
            Step::CopyFile(source@, dest@),
            "Cannot copy file"@,
        ).steps,
        seen(outcome) == placed(
            old(fs)@,
            dest@,
            Step::CopyFile(source@, dest@),
            "Cannot copy file"@,
        ).result,
        final(fs).origin() == old(fs).origin(),
{
    let ghost before = fs.changes();
    proof {
        assert(before + Seq::<Step>::empty() =~= before);
    }
    match make_parents(fs, dest) {
        Ok(()) => {},
        Err(e) => {
            return Err(e);
        },
    }
    match fs.copy_file(source, dest) {
        Ok(()) => {
            proof {
                let step = Step::CopyFile(source@, dest@);
                assert((before + parents_made(dest@)).push(step) =~= before + parents_made(
                    dest@,
                ).push(step));
            }
            Ok(())
        },
        Err(kind) => Err(StauError::refused(kind, "Cannot copy file", dest)),
    }
}

/// Removes the link at `path` if it belongs to the package, that is, if it
/// stores `expected_source`, and says whether it did. Anything else is left
/// alone. On a dry run the answer is the same and nothing is removed.
pub fn remove_symlink(
    fs: &mut FileTree,
    path: &TreePath,
    expected_source: &TreePath,
    dry_run: bool,
) -> (outcome: Result<bool, StauError>)
    ensures
        final(fs)@ == unlinked(old(fs)@, path@, expected_source@, dry_run).tree,
        final(fs).changes() == old(fs).changes() + unlinked(
            old(fs)@,
            path@,
            expected_source@,
            dry_run,
        ).steps,
        seen(outcome) == unlinked(old(fs)@, path@, expected_source@, dry_run).result,
        final(fs).origin() == old(fs).origin(),
{
    let ghost before = fs.changes();
    proof {
        assert(before + Seq::<Step>::empty() =~= before);
        assert(before.push(Step::RemoveFile(path@)) =~= before + seq![Step::RemoveFile(path@)]);
    }
    match classify(fs, path, expected_source) {
        LinkState::ManagedIntact => {},
        LinkState::ManagedBroken => {},
        _ => {
            return Ok(false);
        },
    }
    if dry_run {
        return Ok(true);
    }
    match fs.remove_file(path) {
        Ok(()) => Ok(true),
        Err(kind) => Err(StauError::refused(kind, "Cannot remove symlink", path)),
    }
}

/// Copies the file at `source` to `dest`, with the directories above it. A
/// `dest` at which anything stands is a conflict. On a dry run nothing is
/// asked and nothing is changed.
pub fn copy_file(fs: &mut FileTree, source: &TreePath, dest: &TreePath, dry_run: bool) -> (outcome:
    Result<(), StauError>)
    ensures
        final(fs)@ == restored(old(fs)@, source@, dest@, dry_run).tree,
        final(fs).changes() == old(fs).changes() + restored(
            old(fs)@,
            source@,
            dest@,
            dry_run,
        ).steps,
        seen(outcome) == restored(old(fs)@, source@, dest@, dry_run).result,
        final(fs).origin() == old(fs).origin(),
{
    proof {
        assert(fs.changes() + Seq::<Step>::empty() =~= fs.changes());
    }
    if dry_run {
        return Ok(());
    }
    if fs.kind(dest).is_some() {
        return Err(StauError::ConflictingFile(dest.clone()));
    }
    place_copy(fs, source, dest)
}

/// Copies the file at `source` to `dest` as `copy_file` does, but with
/// `force` set whatever stands at `dest` is removed first.
pub fn copy_file_with_force(
    fs: &mut FileTree,
    source: &TreePath,
    dest: &TreePath,
    force: bool,
    dry_run: bool,
) -> (outcome: Result<(), StauError>)
    ensures
        final(fs)@ == restored_over(old(fs)@, source@, dest@, force, dry_run).tree,
        final(fs).changes() == old(fs).changes() + restored_over(
            old(fs)@,
            source@,
            dest@,
            force,
            dry_run,
        ).steps,
        seen(outcome) == restored_over(old(fs)@, source@, dest@, force, dry_run).result,
        final(fs).origin() == old(fs).origin(),
{
    let ghost before = fs.changes();
    let ghost t = fs@;
    if !dry_run && force && fs.kind(dest).is_some() {
        match clear(fs, dest) {
            Ok(()) => {},
            Err(e) => {
                return Err(e);
            },
        }
        let ghost free = fs@;
        let done = copy_file(fs, source, dest, dry_run);
        proof {
            let made = restored(free, source@, dest@, dry_run);
            assert(before.push(clearing(t, dest@)) + made.steps =~= before + (seq![
                clearing(t, dest@),
            ] + made.steps));
        }
        return done;
    }
    copy_file(fs, source, dest, dry_run)
}

/// Removes the link at `target` if it leads nowhere, whatever path it stores,
/// and says whether it did. On a dry run the answer is the same and nothing
/// is removed.
pub fn purge_if_broken(fs: &mut FileTree, target: &TreePath, dry_run: bool) -> (outcome: Result<
    bool,
    StauError,
>)
    ensures
        final(fs)@ == purged(old(fs)@, target@, dry_run).tree,
        final(fs).changes() == old(fs).changes() + purged(old(fs)@, target@, dry_run).steps,
        seen(outcome) == purged(old(fs)@, target@, dry_run).result,
        final(fs).origin() == old(fs).origin(),
{
    let ghost before = fs.changes();
    proof {
        assert(before + Seq::<Step>::empty() =~= before);
        assert(before.push(Step::RemoveFile(target@)) =~= before + seq![
            Step::RemoveFile(target@),
        ]);
    }
    if !is_broken_symlink(fs, target) {
        return Ok(false);
    }
    if dry_run {
        return Ok(true);
    }
    match fs.remove_file(target) {
        Ok(()) => Ok(true),
        Err(kind) => Err(StauError::refused(kind, "Cannot remove symlink", target)),
    }
}

} // verus!
