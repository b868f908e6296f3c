//! Adopting files into a package: a file under the target directory is moved
//! into the package directory, to the place that corresponds to its own, and
//! a link to it is left where it stood.

use crate::config::{names_in_option, package_dir_of, target_of, Config, Settings};
use crate::error::{refused_as, Fault, IoKind, StauError};
use crate::path::{rebased, starts_with, Names, TreePath};
use crate::symlink::{
    create_symlink, lemma_replayed_joined, lemma_replayed_one, lemma_steps_lead_to_tree, linked,
    parents_made, preceded, reporting, untouched, with_parents, Done,
};
use crate::file_tree::FileTree;
use crate::tree::{
    applied, entry, reached, refusal, replayed, shaped, takes_dirs, with_dirs, Content, Step,
    Tree,
};
use vstd::prelude::*;

verus! {

/// What became of a file that was to be adopted.
#[derive(Debug, PartialEq, Eq)]
pub enum Adoption {
    /// It was moved from the first path to the second and a link left behind,
    /// or would have been but for the dry run.
    Moved { from: TreePath, to: TreePath },
    /// Nothing is at the path, so nothing was done.
    Missing(TreePath),
    /// The path does not lie under the target directory, so nothing was done.
    Outside(TreePath),
}

/// What became of a file that was to be adopted, as the contracts see it.
pub enum Adopted {
    /// It was moved from the first path to the second and a link left behind,
    /// or would have been but for the dry run.
    Moved { from: Names, to: Names },
    /// Nothing is at the path.
    Missing(Names),
    /// The path does not lie under the target directory.
    Outside(Names),
}

impl View for Adoption {
    type V = Adopted;

    open spec fn view(&self) -> Adopted {
        match self {
            Adoption::Moved { from, to } => Adopted::Moved { from: from@, to: to@ },
            Adoption::Missing(path) => Adopted::Missing(path@),
            Adoption::Outside(path) => Adopted::Outside(path@),
        }
    }
}

/// What a list of adoptions holds, as the contracts see it.
pub open spec fn adoptions_in(list: Seq<Adoption>) -> Seq<Adopted> {
    Seq::new(list.len(), |i: int| list[i]@)
}

/// What adopting the one file `file` leaves behind.
///
/// A file that is not there, or does not lie under the target directory, is
/// passed over. It is a conflict where the package holds something at the
/// place for the file already. Otherwise the directories above that place
/// are made, the file is moved there, and a link to it is made where it
/// stood; on a dry run nothing is changed.
pub open spec fn adopted_one(
    t: Tree,
    package_dir: Names,
    target_dir: Names,
    file: Names,
    dry_run: bool,
) -> Done<Adopted> {
    if reached(t, file) is None {
        untouched(t, Ok(Adopted::Missing(file)))
    } else if !starts_with(file, target_dir) {
        untouched(t, Ok(Adopted::Outside(file)))
    } else {
        let dest = rebased(file, target_dir, package_dir);
        if reached(t, dest) is Some {
            untouched(t, Err(Fault::ConflictingFile(dest)))
        } else if dry_run {
            untouched(t, Ok(Adopted::Moved { from: file, to: dest }))
        } else {
            match with_parents(t, dest) {
                Err(fault) => untouched(t, Err(fault)),
                Ok(ready) => match refusal(ready, Step::Move(file, dest)) {
                    Some(kind) => Done {
                        tree: ready,
                        steps: parents_made(dest),
                        result: Err(refused_as(kind, "Cannot move file"@, file)),
                    },
                    None => preceded(
                        parents_made(dest).push(Step::Move(file, dest)),
                        reporting(
                            linked(applied(ready, Step::Move(file, dest)), dest, file, false, false),
                            Adopted::Moved { from: file, to: dest },
                        ),
                    ),
                },
            }
        }
    }
}

/// `done` with `before` in front of what it lists.
pub open spec fn after(before: Seq<Adopted>, done: Done<Seq<Adopted>>) -> Done<Seq<Adopted>> {
    Done {
        tree: done.tree,
        steps: done.steps,
        result: match done.result {
            Ok(list) => Ok(before + list),
            Err(fault) => Err(fault),
        },
    }
}

/// What adopting the files `files` leaves behind: they are taken one after
/// the other, and the first error ends the work.
pub open spec fn adopted_all(
    t: Tree,
    package_dir: Names,
    target_dir: Names,
    files: Seq<Names>,
    dry_run: bool,
) -> Done<Seq<Adopted>>
    decreases files.len(),
{
    if files.len() == 0 {
        untouched(t, Ok(Seq::empty()))
    } else {
        let first = adopted_one(t, package_dir, target_dir, files[0], dry_run);
        match first.result {
            Err(fault) => reporting(first, Seq::empty()),
            Ok(one) => preceded(
                first.steps,
                after(
                    seq![one],
                    adopted_all(first.tree, package_dir, target_dir, files.drop_first(), dry_run),
                ),
            ),
        }
    }
}

/// What `adopt_files` leaves behind: the package directory is made where it
/// is not there, and the files are adopted one after the other.
pub open spec fn adopted(
    t: Tree,
    settings: Settings,
    package: Seq<char>,
    files: Seq<Names>,
    target: Option<Names>,
    dry_run: bool,
) -> Done<Seq<Adopted>> {
    let package_dir = package_dir_of(settings, package);
    let target_dir = target_of(settings, target);
    if reached(t, package_dir) is Some || dry_run {
        adopted_all(t, package_dir, target_dir, files, dry_run)
    } else if takes_dirs(t, package_dir) {
        preceded(
            seq![Step::MakeDirs(package_dir)],
            adopted_all(with_dirs(t, package_dir), package_dir, target_dir, files, dry_run),
        )
    } else {
        untouched(
            t,
            Err(
                refused_as(
                    IoKind::NotADirectory,
                    "Cannot create package directory"@,
                    package_dir,
                ),
            ),
        )
    }
}

/// Adopting files one after the other is adopting the first and then the
/// rest.
proof fn lemma_adopted_all_step(
    t: Tree,
    package_dir: Names,
    target_dir: Names,
    paths: Seq<Names>,
    i: int,
    dry_run: bool,
)
    requires
        0 <= i < paths.len(),
    ensures
        ({
            let first = adopted_one(t, package_dir, target_dir, paths[i], dry_run);
            let all = adopted_all(t, package_dir, target_dir, paths.skip(i), dry_run);
            let rest = adopted_all(first.tree, package_dir, target_dir, paths.skip(i + 1), dry_run);
            match first.result {
                Err(fault) => all.tree == first.tree && all.steps == first.steps && all.result
                    == Err::<Seq<Adopted>, Fault>(fault),
                Ok(one) => all.tree == rest.tree && all.steps == first.steps + rest.steps
                    && all.result == after(seq![one], rest).result,
            }
        }),
{
    assert(paths.skip(i)[0] == paths[i]);
    assert(paths.skip(i).drop_first() =~= paths.skip(i + 1));
}

/// The paths of a list, as the contracts see them.
pub open spec fn paths_in(list: Seq<TreePath>) -> Seq<Names> {
    Seq::new(list.len(), |i: int| list[i]@)
}

/// A list of adoptions or an error, as the contracts see it.
pub open spec fn adopted_in(outcome: Result<Vec<Adoption>, StauError>) -> Result<
    Seq<Adopted>,
    Fault,
> {
    match outcome {
        Ok(list) => Ok(adoptions_in(list@)),
        Err(e) => Err(e@),
    }
}

/// Adopts the one file at `file_path`.
fn adopt_one(
    fs: &mut FileTree,
    package_dir: &TreePath,
    target_dir: &TreePath,
    file_path: &TreePath,
    dry_run: bool,
) -> (outcome: Result<Adoption, StauError>)
    ensures
        final(fs)@ == adopted_one(old(fs)@, package_dir@, target_dir@, file_path@, dry_run).tree,
        final(fs).changes() == old(fs).changes() + adopted_one(
            old(fs)@,
            package_dir@,
            target_dir@,
            file_path@,
            dry_run,
        ).steps,
        match adopted_one(old(fs)@, package_dir@, target_dir@, file_path@, dry_run).result {
            Ok(one) => outcome is Ok && outcome->Ok_0@ == one,
            Err(fault) => outcome is Err && outcome->Err_0@ == fault,
        },
        final(fs).origin() == old(fs).origin(),
{
    let ghost before = fs.changes();
    proof {
        assert(before + Seq::<Step>::empty() =~= before);
    }
    if !fs.resolves(file_path) {
        return Ok(Adoption::Missing(file_path.clone()));
    }
    let rel_path = match file_path.strip_prefix(target_dir) {
        Some(rest) => rest,
        None => {
            return Ok(Adoption::Outside(file_path.clone()));
        },
    };
    let dest = package_dir.join(&rel_path);
    if fs.resolves(&dest) {
        return Err(StauError::ConflictingFile(dest));
    }
    if dry_run {
        return Ok(Adoption::Moved { from: file_path.clone(), to: dest });
    }
    match dest.parent() {
        None => {},
        Some(up) => match fs.create_dir_all(&up) {
            Ok(()) => {
                proof {
                    assert(before.push(Step::MakeDirs(up@)) =~= before + parents_made(dest@));
                }
            },
            Err(kind) => {
                return Err(StauError::refused(kind, "Cannot create directory", &up));
            },
        },
    }
    match fs.rename(file_path, &dest) {
        Ok(()) => {},
        Err(kind) => {
            return Err(StauError::refused(kind, "Cannot move file", file_path));
        },
    }
    let ghost moved = fs@;
    proof {
        let step = Step::Move(file_path@, dest@);
        let link = linked(moved, dest@, file_path@, false, false);
        assert((before + parents_made(dest@)).push(step) + link.steps =~= before + (
        parents_made(dest@).push(step) + link.steps));
    }
    match create_symlink(fs, &dest, file_path, false) {
        Ok(()) => Ok(Adoption::Moved { from: file_path.clone(), to: dest }),
        Err(e) => Err(e),
    }
}

/// Adopts the files `files` into the package `package`, which is made where
/// it is not there yet.
///
/// Each file is moved into the package directory, to the place that lies
/// there as the file lies under the target directory, and a link to it is
/// made where it stood. A file that is not there, or does not lie under the
/// target directory, is passed over and reported as such. It is a conflict,
/// and the end of the work, where the package holds something at the place
/// for a file already; what was adopted before stays adopted. On a dry run
/// nothing is changed.
pub fn adopt_files(
    fs: &mut FileTree,
    config: &Config,
    package: &str,
    files: &Vec<TreePath>,
    target: Option<TreePath>,
    dry_run: bool,
) -> (outcome: Result<Vec<Adoption>, StauError>)
    ensures
        final(fs)@ == adopted(
            old(fs)@,
            config@,
            package@,
            paths_in(files@),
            names_in_option(target),
            dry_run,
        ).tree,
        final(fs).changes() == old(fs).changes() + adopted(
            old(fs)@,
            config@,
            package@,
            paths_in(files@),
            names_in_option(target),
            dry_run,
        ).steps,
        adopted_in(outcome) == adopted(
            old(fs)@,
            config@,
            package@,
            paths_in(files@),
            names_in_option(target),
            dry_run,
        ).result,
        final(fs).origin() == old(fs).origin(),
        dry_run ==> final(fs)@ == old(fs)@ && final(fs).changes() == old(fs).changes(),
{
    let ghost want = adopted(
        fs@,
        config@,
        package@,
        paths_in(files@),
        names_in_option(target),
        dry_run,
    );
    let ghost begun = fs.changes();
    proof {
        assert(begun + Seq::<Step>::empty() =~= begun);
    }
    let target_dir = config.get_target(target);
    let package_dir = config.get_package_dir(package);
    if !fs.resolves(&package_dir) && !dry_run {
        match fs.create_dir_all(&package_dir) {
            Ok(()) => {},
            Err(kind) => {
                return Err(
                    StauError::refused(kind, "Cannot create package directory", &package_dir),
                );
            },
        }
    }
    let ghost paths = paths_in(files@);
    let ghost goal = adopted_all(fs@, package_dir@, target_dir@, paths, dry_run);
    proof {
        if dry_run {
            lemma_dry_adoption_keeps_tree(fs@, package_dir@, target_dir@, paths);
        }
        assert(begun + want.steps =~= fs.changes() + goal.steps) by {
            if fs.changes() != begun {
                assert(begun.push(Step::MakeDirs(package_dir@)) + goal.steps =~= begun + (seq![
                    Step::MakeDirs(package_dir@),
                ] + goal.steps));
            }
        }
    }
    let mut done: Vec<Adoption> = Vec::new();
    let mut i: usize = 0;
    proof {
        assert(paths.skip(0) =~= paths);
        assert(adoptions_in(done@) =~= Seq::<Adopted>::empty());
        assert(goal.result == after(adoptions_in(done@), goal).result) by {
            if let Ok(list) = goal.result {
                assert(Seq::<Adopted>::empty() + list =~= list);
            }
        }
    }
    while i < files.len()
        invariant
            i <= files@.len(),
            paths == paths_in(files@),
            begun == old(fs).changes(),
            want == adopted(
                old(fs)@,
                config@,
                package@,
                paths_in(files@),
                names_in_option(target),
                dry_run,
            ),
            want.tree == adopted_all(
                fs@,
                package_dir@,
                target_dir@,
                paths.skip(i as int),
                dry_run,
            ).tree,
            want.result == after(
                adoptions_in(done@),
                adopted_all(fs@, package_dir@, target_dir@, paths.skip(i as int), dry_run),
            ).result,
            begun + want.steps == fs.changes() + adopted_all(
                fs@,
                package_dir@,
                target_dir@,
                paths.skip(i as int),
                dry_run,
            ).steps,
            fs.origin() == old(fs).origin(),
            dry_run ==> want.tree == old(fs)@ && want.steps == Seq::<Step>::empty(),
        decreases files@.len() - i,
    {
        let ghost before = adoptions_in(done@);
        let ghost here = fs.changes();
        let ghost first = adopted_one(fs@, package_dir@, target_dir@, files@[i as int]@, dry_run);
        proof {
            assert(paths[i as int] == files@[i as int]@);
            lemma_adopted_all_step(fs@, package_dir@, target_dir@, paths, i as int, dry_run);
            let rest = adopted_all(
                first.tree,
                package_dir@,
                target_dir@,
                paths.skip(i + 1),
                dry_run,
            );
            assert(here + (first.steps + rest.steps) =~= (here + first.steps) + rest.steps);
        }
        match adopt_one(fs, &package_dir, &target_dir, &files[i], dry_run) {
            Ok(one) => {
                proof {
                    let rest = adopted_all(
                        fs@,
                        package_dir@,
                        target_dir@,
                        paths.skip(i + 1),
                        dry_run,
                    );
                    assert(adoptions_in(done@.push(one)) =~= before.push(one@));
                    if let Ok(list) = rest.result {
                        assert(before + (seq![one@] + list) =~= before.push(one@) + list);
                    }
                }
                done.push(one);
            },
            Err(e) => {
                return Err(e);
            },
        }
        i += 1;
    }
    proof {
        assert(adoptions_in(done@) + Seq::<Adopted>::empty() =~= adoptions_in(done@));
        assert(fs.changes() + Seq::<Step>::empty() =~= fs.changes());
        if dry_run {
            assert(begun + Seq::<Step>::empty() =~= begun);
        }
    }
    Ok(done)
}

/// On a dry run adopting files changes nothing.
pub proof fn lemma_dry_adoption_changes_nothing(
    t: Tree,
    settings: Settings,
    package: Seq<char>,
    files: Seq<Names>,
    target: Option<Names>,
)
    ensures
        adopted(t, settings, package, files, target, true).tree == t,
        adopted(t, settings, package, files, target, true).steps == Seq::<Step>::empty(),
{
    lemma_dry_adoption_keeps_tree(
        t,
        package_dir_of(settings, package),
        target_of(settings, target),
        files,
    );
}

/// On a dry run adopting files one after the other changes nothing.
pub proof fn lemma_dry_adoption_keeps_tree(
    t: Tree,
    package_dir: Names,
    target_dir: Names,
    files: Seq<Names>,
)
    ensures
        adopted_all(t, package_dir, target_dir, files, true).tree == t,
        adopted_all(t, package_dir, target_dir, files, true).steps == Seq::<Step>::empty(),
    decreases files.len(),
{
    if files.len() > 0 {
        lemma_dry_adoption_keeps_tree(t, package_dir, target_dir, files.drop_first());
        assert(Seq::<Step>::empty() + Seq::<Step>::empty() =~= Seq::<Step>::empty());
    }
}


/// The changes that adopting one file lists lead from the tree before it to
/// the tree after it.
proof fn lemma_adoption_lists_its_changes(
    t: Tree,
    package_dir: Names,
    target_dir: Names,
    file: Names,
    dry_run: bool,
)
    ensures
        replayed(t, adopted_one(t, package_dir, target_dir, file, dry_run).steps) == adopted_one(
            t,
            package_dir,
            target_dir,
            file,
            dry_run,
        ).tree,
{
    let dest = rebased(file, target_dir, package_dir);
    let made = parents_made(dest);
    assert(replayed(t, Seq::<Step>::empty()) == t);
    if let Ok(ready) = with_parents(t, dest) {
        if dest.len() > 0 {
            lemma_replayed_one(t, Step::MakeDirs(dest.drop_last()));
        }
        assert(replayed(t, made) == ready);
        let step = Step::Move(file, dest);
        if refusal(ready, step) is None {
            let moved = applied(ready, step);
            assert(made.push(step).drop_last() =~= made);
            assert(replayed(t, made.push(step)) == moved);
            lemma_steps_lead_to_tree(moved, dest, file, false, false);
            lemma_replayed_joined(t, made.push(step), linked(moved, dest, file, false, false).steps);
        }
    }
}

/// The changes that adopting files lists lead from the tree before it to the
/// tree after it, whether all went well or not.
pub proof fn lemma_adoptions_list_their_changes(
    t: Tree,
    settings: Settings,
    package: Seq<char>,
    files: Seq<Names>,
    target: Option<Names>,
    dry_run: bool,
)
    ensures
        replayed(t, adopted(t, settings, package, files, target, dry_run).steps) == adopted(
            t,
            settings,
            package,
            files,
            target,
            dry_run,
        ).tree,
{
    let package_dir = package_dir_of(settings, package);
    let target_dir = target_of(settings, target);
    lemma_all_adoptions_list_their_changes(t, package_dir, target_dir, files, dry_run);
    if !(reached(t, package_dir) is Some || dry_run) && takes_dirs(t, package_dir) {
        let ready = with_dirs(t, package_dir);
        lemma_replayed_one(t, Step::MakeDirs(package_dir));
        lemma_all_adoptions_list_their_changes(ready, package_dir, target_dir, files, dry_run);
        lemma_replayed_joined(
            t,
            seq![Step::MakeDirs(package_dir)],
            adopted_all(ready, package_dir, target_dir, files, dry_run).steps,
        );
    }
    assert(replayed(t, Seq::<Step>::empty()) == t);
}

/// The changes that adopting files one after the other lists lead from the
/// tree before it to the tree after it.
proof fn lemma_all_adoptions_list_their_changes(
    t: Tree,
    package_dir: Names,
    target_dir: Names,
    files: Seq<Names>,
    dry_run: bool,
)
    ensures
        replayed(t, adopted_all(t, package_dir, target_dir, files, dry_run).steps) == adopted_all(
            t,
            package_dir,
            target_dir,
            files,
            dry_run,
        ).tree,
    decreases files.len(),
{
    assert(replayed(t, Seq::<Step>::empty()) == t);
    if files.len() > 0 {
        let first = adopted_one(t, package_dir, target_dir, files[0], dry_run);
        lemma_adoption_lists_its_changes(t, package_dir, target_dir, files[0], dry_run);
        if first.result is Ok {
            let rest = files.drop_first();
            lemma_all_adoptions_list_their_changes(
                first.tree,
                package_dir,
                target_dir,
                rest,
                dry_run,
            );
            lemma_replayed_joined(
                t,
                first.steps,
                adopted_all(first.tree, package_dir, target_dir, rest, dry_run).steps,
            );
        }
    }
}


/// A file that is not there, or does not lie under the target directory, is
/// passed over: nothing is changed, and the report says which of the two it
/// was.
pub proof fn lemma_passed_over(
    t: Tree,
    package_dir: Names,
    target_dir: Names,
    file: Names,
    dry_run: bool,
)
    ensures
        reached(t, file) is None ==> adopted_one(t, package_dir, target_dir, file, dry_run)
            == untouched(t, Ok::<Adopted, Fault>(Adopted::Missing(file))),
        reached(t, file) is Some && !starts_with(file, target_dir) ==> adopted_one(
            t,
            package_dir,
            target_dir,
            file,
            dry_run,
        ) == untouched(t, Ok::<Adopted, Fault>(Adopted::Outside(file))),
        reached(t, file) is Some && starts_with(file, target_dir) && reached(
            t,
            rebased(file, target_dir, package_dir),
        ) is Some ==> adopted_one(t, package_dir, target_dir, file, dry_run) == untouched(
            t,
            Err::<Adopted, Fault>(Fault::ConflictingFile(rebased(file, target_dir, package_dir))),
        ),
{
}

/// Where a file is adopted, what stood at its path stands at its place in
/// the package afterwards, and a link stands at its path that stores that
/// place.
pub proof fn lemma_adopted_file_is_linked(
    t: Tree,
    package_dir: Names,
    target_dir: Names,
    file: Names,
)
    requires
        shaped(t),
        adopted_one(t, package_dir, target_dir, file, false).result is Ok,
        reached(t, file) is Some,
        starts_with(file, target_dir),
    ensures
        ({
            let dest = rebased(file, target_dir, package_dir);
            let after = adopted_one(t, package_dir, target_dir, file, false);
            &&& after.result == Ok::<Adopted, Fault>(Adopted::Moved { from: file, to: dest })
            &&& entry(after.tree, file) == Some(Content::Link(dest))
            &&& entry(after.tree, dest) == entry(t, file)
        }),
{
    let dest = rebased(file, target_dir, package_dir);
    let ready = with_parents(t, dest)->Ok_0;
    let step = Step::Move(file, dest);
    let carried = applied(ready, step);
    let link = linked(carried, dest, file, false, false);
    assert(file.len() > 0 && dest.len() > 0);
    assert(t.dom().contains(file));
    assert(ready.dom().contains(file) && ready[file] == t[file]);
    assert(starts_with(dest, dest)) by {
        assert(dest.subrange(0, dest.len() as int) =~= dest);
    }
    assert(rebased(dest, dest, file) =~= file);
    assert(carried.dom().contains(dest) && carried[dest] == t[file]);
    assert(!carried.dom().contains(file)) by {
        assert(file.subrange(0, file.len() as int) =~= file);
        if starts_with(file, dest) {
            if dest.len() > 1 {
                crate::tree::lemma_with_dirs_shaped(t, dest.drop_last());
            }
            crate::tree::lemma_nothing_under(ready, dest, file);
        }
    }
    assert(link.result is Ok);
    assert(dest != file);
    if let Ok(made) = with_parents(carried, file) {
        assert(made.dom().contains(dest) && made[dest] == t[file]);
    }
}

} // verus!
