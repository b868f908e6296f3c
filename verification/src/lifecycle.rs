//! The operations on a package: install, uninstall, restow and clean.
//!
//! Each operation reads the package directory anew, takes the mappings in
//! the order of a walk, and stops at the first error. What was changed before
//! the error stays changed. Scripts are not run here: an operation reports the
//! script that is due, and the caller runs it.

use crate::config::{names_in_option, package_dir_of, script_of, target_of, Config, Settings};
use crate::error::{Fault, StauError};
use crate::laws::{lemma_removed_all_keeps_files, lemma_restow_keeps_files, same_files};
use crate::package::{discover_package_files, discovery, mappings_in};
use crate::path::{Names, TreePath};
use crate::symlink::{
    copy_file_with_force, create_symlink_with_force, lemma_replayed_joined,
    lemma_steps_lead_to_tree, linked, preceded, purge_if_broken, purged, remove_symlink,
    reporting, restored_over, unlinked, untouched, Done, Mapping, SymlinkMapping,
};
use crate::file_tree::FileTree;
use crate::tree::{reached, replayed, Step, Tree};
use vstd::prelude::*;
use vstd::string::StringExecFns;

verus! {

/// What making the links of `ms` leaves behind: the links are made one after
/// the other, and the first error ends the work.
pub open spec fn linked_all(t: Tree, ms: Seq<Mapping>, force: bool, dry_run: bool) -> Done<()>
    decreases ms.len(),
{
    if ms.len() == 0 {
        untouched(t, Ok(()))
    } else {
        let first = linked(t, ms[0].source, ms[0].target, force, dry_run);
        if first.result is Err {
            first
        } else {
            preceded(first.steps, linked_all(first.tree, ms.drop_first(), force, dry_run))
        }
    }
}

/// What removing the link of `m` leaves behind, and whether a link was
/// removed. With `copy_back` set the file of the package is copied to the
/// place of a removed link.
pub open spec fn removed_one(t: Tree, m: Mapping, copy_back: bool, force: bool, dry_run: bool) -> Done<
    bool,
> {
    let gone = unlinked(t, m.target, m.source, dry_run);
    if gone.result == Ok::<bool, Fault>(true) && copy_back {
        let back = restored_over(gone.tree, m.source, m.target, force, dry_run);
        Done {
            tree: back.tree,
            steps: gone.steps + back.steps,
            result: match back.result {
                Ok(()) => Ok(true),
                Err(fault) => Err(fault),
            },
        }
    } else {
        gone
    }
}

/// `done` with `n` more counted.
pub open spec fn and_more(done: Done<nat>, n: nat) -> Done<nat> {
    Done {
        tree: done.tree,
        steps: done.steps,
        result: match done.result {
            Ok(count) => Ok(count + n),
            Err(fault) => Err(fault),
        },
    }
}

/// One where `b` holds, nothing otherwise.
pub open spec fn one_if(b: bool) -> nat {
    if b {
        1
    } else {
        0
    }
}

/// What removing the links of `ms` leaves behind, and how many links were
/// removed: the mappings are taken one after the other, and the first error
/// ends the work.
pub open spec fn removed_all(
    t: Tree,
    ms: Seq<Mapping>,
    copy_back: bool,
    force: bool,
    dry_run: bool,
) -> Done<nat>
    decreases ms.len(),
{
    if ms.len() == 0 {
        untouched(t, Ok(0))
    } else {
        let first = removed_one(t, ms[0], copy_back, force, dry_run);
        match first.result {
            Err(fault) => reporting(first, 0nat),
            Ok(was) => preceded(
                first.steps,
                and_more(
                    removed_all(first.tree, ms.drop_first(), copy_back, force, dry_run),
                    one_if(was),
                ),
            ),
        }
    }
}

/// What removing the broken links at the targets of `ms` leaves behind, and
/// how many were removed.
pub open spec fn purged_all(t: Tree, ms: Seq<Mapping>, dry_run: bool) -> Done<nat>
    decreases ms.len(),
{
    if ms.len() == 0 {
        untouched(t, Ok(0))
    } else {
        let first = purged(t, ms[0].target, dry_run);
        match first.result {
            Err(fault) => reporting(first, 0nat),
            Ok(was) => preceded(
                first.steps,
                and_more(purged_all(first.tree, ms.drop_first(), dry_run), one_if(was)),
            ),
        }
    }
}

/// What an install found and did.
#[derive(Debug, PartialEq, Eq)]
pub struct InstallReport {
    /// The mappings of the package, each of which now has its link, or would
    /// have it but for the dry run.
    pub mappings: Vec<SymlinkMapping>,
    /// The setup script that is now due, if there is one.
    pub setup_script: Option<TreePath>,
}

/// An install report as the contracts see it.
pub struct Installed {
    /// The mappings of the package.
    pub mappings: Seq<Mapping>,
    /// The setup script that is due, if there is one.
    pub setup_script: Option<Names>,
}

impl View for InstallReport {
    type V = Installed;

    open spec fn view(&self) -> Installed {
        Installed {
            mappings: mappings_in(self.mappings@),
            setup_script: names_in_option(self.setup_script),
        }
    }
}

/// What an uninstall did.
#[derive(Debug, PartialEq, Eq)]
pub struct UninstallReport {
    /// How many mappings the package has.
    pub found: usize,
    /// How many links were removed, or would have been but for the dry run.
    pub removed: usize,
}

/// What `install_package` leaves behind.
///
/// The package must be there. Its mappings are found and their links made,
/// with `force` as given, up to the first error. Where all links are made,
/// which holds of a package without files too, its setup script is due,
/// unless `no_setup` is set.
pub open spec fn installed(
    t: Tree,
    settings: Settings,
    package: Seq<char>,
    target: Option<Names>,
    no_setup: bool,
    force: bool,
    dry_run: bool,
) -> Done<Installed> {
    let package_dir = package_dir_of(settings, package);
    let target_dir = target_of(settings, target);
    if reached(t, package_dir) is None {
        untouched(t, Err(Fault::PackageNotFound(package)))
    } else {
        match discovery(t, package_dir, target_dir) {
            Err(fault) => untouched(t, Err(fault)),
            Ok(ms) => {
                let links = linked_all(t, ms, force, dry_run);
                reporting(
                    links,
                    Installed {
                        mappings: ms,
                        setup_script: if no_setup {
                            None
                        } else {
                            script_of(links.tree, settings, package, "setup.sh"@)
                        },
                    },
                )
            },
        }
    }
}

/// What `uninstall_package` and `restow_package` leave behind of the links of
/// a package, and how many mappings were found and how many links removed.
///
/// The package must be there. Its mappings are found and the link of each is
/// removed if it belongs to the package. With `copy_back` set the file of the
/// package is then copied to the place of the link, over whatever stands
/// there if `force` is set.
pub open spec fn uninstalled(
    t: Tree,
    settings: Settings,
    package: Seq<char>,
    target: Option<Names>,
    copy_back: bool,
    force: bool,
    dry_run: bool,
) -> Done<(nat, nat)> {
    let package_dir = package_dir_of(settings, package);
    let target_dir = target_of(settings, target);
    if reached(t, package_dir) is None {
        untouched(t, Err(Fault::PackageNotFound(package)))
    } else {
        match discovery(t, package_dir, target_dir) {
            Err(fault) => untouched(t, Err(fault)),
            Ok(ms) => {
                let gone = removed_all(t, ms, copy_back, force, dry_run);
                reporting(
                    gone,
                    (
                        ms.len(),
                        match gone.result {
                            Ok(count) => count,
                            Err(_) => 0,
                        },
                    ),
                )
            },
        }
    }
}

/// What `clean_broken_symlinks` leaves behind, and how many links it removed.
pub open spec fn cleaned(
    t: Tree,
    settings: Settings,
    package: Seq<char>,
    target: Option<Names>,
    dry_run: bool,
) -> Done<nat> {
    let package_dir = package_dir_of(settings, package);
    let target_dir = target_of(settings, target);
    if reached(t, package_dir) is None {
        untouched(t, Err(Fault::PackageNotFound(package)))
    } else {
        match discovery(t, package_dir, target_dir) {
            Err(fault) => untouched(t, Err(fault)),
            Ok(ms) => purged_all(t, ms, dry_run),
        }
    }
}

/// What `restow_package` leaves behind: the links of the package are removed
/// without copying anything back, and then made again without force. The
/// setup script is due only where `run_setup` is set.
pub open spec fn restowed(
    t: Tree,
    settings: Settings,
    package: Seq<char>,
    target: Option<Names>,
    run_setup: bool,
    dry_run: bool,
) -> Done<Installed> {
    let gone = uninstalled(t, settings, package, target, false, false, dry_run);
    match gone.result {
        Err(fault) => Done { tree: gone.tree, steps: gone.steps, result: Err(fault) },
        Ok(_) => preceded(
            gone.steps,
            installed(gone.tree, settings, package, target, !run_setup, false, dry_run),
        ),
    }
}

/// An install report or an error, as the contracts see it.
pub open spec fn installed_in(outcome: Result<InstallReport, StauError>) -> Result<Installed, Fault> {
    match outcome {
        Ok(report) => Ok(report@),
        Err(e) => Err(e@),
    }
}

/// An uninstall report or an error, as the contracts see it.
pub open spec fn uninstalled_in(outcome: Result<UninstallReport, StauError>) -> Result<
    (nat, nat),
    Fault,
> {
    match outcome {
        Ok(report) => Ok((report.found as nat, report.removed as nat)),
        Err(e) => Err(e@),
    }
}

/// A count or an error, as the contracts see it.
pub open spec fn count_in(outcome: Result<usize, StauError>) -> Result<nat, Fault> {
    match outcome {
        Ok(n) => Ok(n as nat),
        Err(e) => Err(e@),
    }
}

/// Makes the links of all the mappings, up to the first error.
fn link_all(fs: &mut FileTree, mappings: &Vec<SymlinkMapping>, force: bool, dry_run: bool) -> (outcome:
    Result<(), StauError>)
    ensures
        final(fs)@ == linked_all(old(fs)@, mappings_in(mappings@), force, dry_run).tree,
        final(fs).changes() == old(fs).changes() + linked_all(
            old(fs)@,
            mappings_in(mappings@),
            force,
            dry_run,
        ).steps,
        crate::error::seen(outcome) == linked_all(
            old(fs)@,
            mappings_in(mappings@),
            force,
            dry_run,
        ).result,
        final(fs).origin() == old(fs).origin(),
{
    let ghost ms = mappings_in(mappings@);
    let ghost goal = linked_all(fs@, ms, force, dry_run);
    let ghost begun = fs.changes();
    let mut i: usize = 0;
    proof {
        assert(ms.skip(0) =~= ms);
    }
    while i < mappings.len()
        invariant
            i <= mappings@.len(),
            ms == mappings_in(mappings@),
            begun == old(fs).changes(),
            goal == linked_all(old(fs)@, ms, force, dry_run),
            goal.tree == linked_all(fs@, ms.skip(i as int), force, dry_run).tree,
            goal.result == linked_all(fs@, ms.skip(i as int), force, dry_run).result,
            begun + goal.steps == fs.changes() + linked_all(
                fs@,
                ms.skip(i as int),
                force,
                dry_run,
            ).steps,
            fs.origin() == old(fs).origin(),
        decreases mappings@.len() - i,
    {
        let ghost here = fs.changes();
        let ghost first = linked(
            fs@,
            mappings@[i as int]@.source,
            mappings@[i as int]@.target,
            force,
            dry_run,
        );
        proof {
            assert(ms.skip(i as int)[0] == mappings@[i as int]@);
            assert(ms.skip(i as int).drop_first() =~= ms.skip(i + 1));
            let rest = linked_all(first.tree, ms.skip(i + 1), force, dry_run);
            assert(here + (first.steps + rest.steps) =~= (here + first.steps) + rest.steps);
        }
        match create_symlink_with_force(
            fs,
            &mappings[i].source,
            &mappings[i].target,
            dry_run,
            force,
        ) {
            Ok(()) => {},
            Err(e) => {
                return Err(e);
            },
        }
        i += 1;
    }
    proof {
        assert(fs.changes() + Seq::<Step>::empty() =~= fs.changes());
    }
    Ok(())
}

/// Removes the links of all the mappings that belong to the package, up to
/// the first error, and counts them.
fn remove_all(
    fs: &mut FileTree,
    mappings: &Vec<SymlinkMapping>,
    copy_back: bool,
    force: bool,
    dry_run: bool,
) -> (outcome: Result<usize, StauError>)
    ensures
        final(fs)@ == removed_all(old(fs)@, mappings_in(mappings@), copy_back, force, dry_run).tree,
        final(fs).changes() == old(fs).changes() + removed_all(
            old(fs)@,
            mappings_in(mappings@),
            copy_back,
            force,
            dry_run,
        ).steps,
        match removed_all(old(fs)@, mappings_in(mappings@), copy_back, force, dry_run).result {
            Ok(count) => outcome is Ok && outcome->Ok_0 == count,
            Err(fault) => outcome is Err && outcome->Err_0@ == fault,
        },
        final(fs).origin() == old(fs).origin(),
{
    let ghost ms = mappings_in(mappings@);
    let ghost goal = removed_all(fs@, ms, copy_back, force, dry_run);
    let ghost begun = fs.changes();
    let mut removed: usize = 0;
    let mut i: usize = 0;
    proof {
        assert(ms.skip(0) =~= ms);
    }
    while i < mappings.len()
        invariant
            i <= mappings@.len(),
            removed <= i,
            ms == mappings_in(mappings@),
            begun == old(fs).changes(),
            goal == removed_all(old(fs)@, ms, copy_back, force, dry_run),
            goal.tree == removed_all(fs@, ms.skip(i as int), copy_back, force, dry_run).tree,
            goal.result == and_more(
                removed_all(fs@, ms.skip(i as int), copy_back, force, dry_run),
                removed as nat,
            ).result,
            begun + goal.steps == fs.changes() + removed_all(
                fs@,
                ms.skip(i as int),
                copy_back,
                force,
                dry_run,
            ).steps,
            fs.origin() == old(fs).origin(),
        decreases mappings@.len() - i,
    {
        let ghost here = fs.changes();
        let ghost m = mappings@[i as int]@;
        let ghost gone = unlinked(fs@, m.target, m.source, dry_run);
        let ghost first = removed_one(fs@, m, copy_back, force, dry_run);
        proof {
            assert(ms.skip(i as int)[0] == m);
            assert(ms.skip(i as int).drop_first() =~= ms.skip(i + 1));
            let rest = removed_all(first.tree, ms.skip(i + 1), copy_back, force, dry_run);
            assert(here + (first.steps + rest.steps) =~= (here + first.steps) + rest.steps);
            if gone.result == Ok::<bool, Fault>(true) && copy_back {
                let back = restored_over(gone.tree, m.source, m.target, force, dry_run);
                assert((here + gone.steps) + back.steps =~= here + (gone.steps + back.steps));
            }
        }
        let was_removed = match remove_symlink(
            fs,
            &mappings[i].target,
            &mappings[i].source,
            dry_run,
        ) {
            Ok(was) => was,
            Err(e) => {
                return Err(e);
            },
        };
        if was_removed {
            if copy_back {
                match copy_file_with_force(
                    fs,
                    &mappings[i].source,
                    &mappings[i].target,
                    force,
                    dry_run,
                ) {
                    Ok(()) => {},
                    Err(e) => {
                        return Err(e);
                    },
                }
            }
            removed += 1;
        }
        i += 1;
    }
    proof {
        assert(fs.changes() + Seq::<Step>::empty() =~= fs.changes());
    }
    Ok(removed)
}

/// Removes the broken links at the targets of all the mappings, and counts
/// them.
fn purge_all(fs: &mut FileTree, mappings: &Vec<SymlinkMapping>, dry_run: bool) -> (outcome: Result<
    usize,
    StauError,
>)
    ensures
        final(fs)@ == purged_all(old(fs)@, mappings_in(mappings@), dry_run).tree,
        final(fs).changes() == old(fs).changes() + purged_all(
            old(fs)@,
            mappings_in(mappings@),
            dry_run,
        ).steps,
        count_in(outcome) == purged_all(old(fs)@, mappings_in(mappings@), dry_run).result,
        final(fs).origin() == old(fs).origin(),
{
    let ghost ms = mappings_in(mappings@);
    let ghost goal = purged_all(fs@, ms, dry_run);
    let ghost begun = fs.changes();
    let mut cleaned: usize = 0;
    let mut i: usize = 0;
    proof {
        assert(ms.skip(0) =~= ms);
    }
    while i < mappings.len()
        invariant
            i <= mappings@.len(),
            cleaned <= i,
            ms == mappings_in(mappings@),
            begun == old(fs).changes(),
            goal == purged_all(old(fs)@, ms, dry_run),
            goal.tree == purged_all(fs@, ms.skip(i as int), dry_run).tree,
            goal.result == and_more(purged_all(fs@, ms.skip(i as int), dry_run), cleaned as nat).result,
            begun + goal.steps == fs.changes() + purged_all(fs@, ms.skip(i as int), dry_run).steps,
            fs.origin() == old(fs).origin(),
        decreases mappings@.len() - i,
    {
        let ghost here = fs.changes();
        let ghost first = purged(fs@, mappings@[i as int]@.target, dry_run);
        proof {
            assert(ms.skip(i as int)[0] == mappings@[i as int]@);
            assert(ms.skip(i as int).drop_first() =~= ms.skip(i + 1));
            let rest = purged_all(first.tree, ms.skip(i + 1), dry_run);
            assert(here + (first.steps + rest.steps) =~= (here + first.steps) + rest.steps);
        }
        match purge_if_broken(fs, &mappings[i].target, dry_run) {
            Ok(was) => {
                if was {
                    cleaned += 1;
                }
            },
            Err(e) => {
                return Err(e);
            },
        }
        i += 1;
    }
    proof {
        assert(fs.changes() + Seq::<Step>::empty() =~= fs.changes());
    }
    Ok(cleaned)
}

/// Installs the package `package`: makes a link under the target directory
/// for each of its files.
///
/// A package that is not in the repository is an error. The links are made in
/// the order of a walk; a target at which something foreign stands ends the
/// work with a conflict unless `force` is set, and the links made before it
/// stay. On a dry run nothing is changed. The report names the setup script
/// of the package where one is due: where all went well and `no_setup` is not
/// set, whether the package has files or not.
pub fn install_package(
    fs: &mut FileTree,
    config: &Config,
    package: &str,
    target: Option<TreePath>,
    no_setup: bool,
    force: bool,
    dry_run: bool,
) -> (outcome: Result<InstallReport, StauError>)
    ensures
        final(fs)@ == installed(
            old(fs)@,
            config@,
            package@,
            names_in_option(target),
            no_setup,
            force,
            dry_run,
        ).tree,
        final(fs).changes() == old(fs).changes() + installed(
            old(fs)@,
            config@,
            package@,
            names_in_option(target),
            no_setup,
            force,
            dry_run,
        ).steps,
        installed_in(outcome) == installed(
            old(fs)@,
            config@,
            package@,
            names_in_option(target),
            no_setup,
            force,
            dry_run,
        ).result,
        final(fs).origin() == old(fs).origin(),
        dry_run ==> final(fs)@ == old(fs)@ && final(fs).changes() == old(fs).changes(),
{
    let ghost t = fs@;
    proof {
        assert(fs.changes() + Seq::<Step>::empty() =~= fs.changes());
    }
    let target_dir = config.get_target(target);
    let package_dir = config.get_package_dir(package);
    if !config.package_exists(fs, package) {
        return Err(StauError::PackageNotFound(String::from_str(package)));
    }
    let mappings = match discover_package_files(fs, &package_dir, &target_dir) {
        Ok(mappings) => mappings,
        Err(e) => {
            return Err(e);
        },
    };
    proof {
        lemma_dry_run_keeps_tree_all(t, mappings_in(mappings@), false, force);
    }
    match link_all(fs, &mappings, force, dry_run) {
        Ok(()) => {},
        Err(e) => {
            return Err(e);
        },
    }
    let setup_script = if no_setup {
        None
    } else {
        config.get_setup_script(fs, package)
    };
    Ok(InstallReport { mappings, setup_script })
}

/// Removes the links of the package `package`, with or without copying the
/// files back.
///
/// A package that is not in the repository is an error. Each link under the
/// target directory that belongs to the package is removed and counted; what
/// does not belong to it is left alone. With `copy_back` set the file of the
/// package is put in the place of each removed link, over whatever stands
/// there if `force` is set; without it nothing is copied, so that the tree
/// holds the same regular files afterwards as before. On a dry run nothing
/// is changed.
pub fn uninstall_package_internal(
    fs: &mut FileTree,
    config: &Config,
    package: &str,
    target: Option<TreePath>,
    copy_back: bool,
    force: bool,
    dry_run: bool,
) -> (outcome: Result<UninstallReport, StauError>)
    ensures
        final(fs)@ == uninstalled(
            old(fs)@,
            config@,
            package@,
            names_in_option(target),
            copy_back,
            force,
            dry_run,
        ).tree,
        final(fs).changes() == old(fs).changes() + uninstalled(
            old(fs)@,
            config@,
            package@,
            names_in_option(target),
            copy_back,
            force,
            dry_run,
        ).steps,
        uninstalled_in(outcome) == uninstalled(
            old(fs)@,
            config@,
            package@,
            names_in_option(target),
            copy_back,
            force,
            dry_run,
        ).result,
        final(fs).origin() == old(fs).origin(),
        dry_run ==> final(fs)@ == old(fs)@ && final(fs).changes() == old(fs).changes(),
        !copy_back ==> same_files(old(fs)@, final(fs)@),
{
    let ghost t = fs@;
    proof {
        assert(fs.changes() + Seq::<Step>::empty() =~= fs.changes());
    }
    let target_dir = config.get_target(target);
    let package_dir = config.get_package_dir(package);
    if !config.package_exists(fs, package) {
        return Err(StauError::PackageNotFound(String::from_str(package)));
    }
    let mappings = match discover_package_files(fs, &package_dir, &target_dir) {
        Ok(mappings) => mappings,
        Err(e) => {
            return Err(e);
        },
    };
    proof {
        lemma_dry_run_keeps_tree_all(t, mappings_in(mappings@), copy_back, force);
        if !copy_back {
            lemma_removed_all_keeps_files(t, mappings_in(mappings@), force, dry_run);
        }
    }
    match remove_all(fs, &mappings, copy_back, force, dry_run) {
        Ok(removed) => Ok(UninstallReport { found: mappings.len(), removed }),
        Err(e) => Err(e),
    }
}

/// Uninstalls the package `package`: removes each link under the target
/// directory that belongs to it, and puts a copy of the file of the package
/// in the place of each.
///
/// A package that is not in the repository is an error. What does not belong
/// to the package is left alone and not counted. With `force` set the copy
/// replaces whatever stands at its place. On a dry run nothing is changed,
/// and the links that would be removed are counted.
pub fn uninstall_package(
    fs: &mut FileTree,
    config: &Config,
    package: &str,
    target: Option<TreePath>,
    force: bool,
    dry_run: bool,
) -> (outcome: Result<UninstallReport, StauError>)
    ensures
        final(fs)@ == uninstalled(
            old(fs)@,
            config@,
            package@,
            names_in_option(target),
            true,
            force,
            dry_run,
        ).tree,
        final(fs).changes() == old(fs).changes() + uninstalled(
            old(fs)@,
            config@,
            package@,
            names_in_option(target),
            true,
            force,
            dry_run,
        ).steps,
        uninstalled_in(outcome) == uninstalled(
            old(fs)@,
            config@,
            package@,
            names_in_option(target),
            true,
            force,
            dry_run,
        ).result,
        final(fs).origin() == old(fs).origin(),
        dry_run ==> final(fs)@ == old(fs)@ && final(fs).changes() == old(fs).changes(),
{
    uninstall_package_internal(fs, config, package, target, true, force, dry_run)
}

/// The teardown script that is due before the package `package` is
/// uninstalled: the script of the package, unless `no_teardown` is set. A
/// package that is not in the repository is an error.
pub fn teardown_due(fs: &FileTree, config: &Config, package: &str, no_teardown: bool) -> (outcome:
    Result<Option<TreePath>, StauError>)
    ensures
        reached(fs@, package_dir_of(config@, package@)) is None ==> outcome is Err
            && outcome->Err_0@ == Fault::PackageNotFound(package@),
        reached(fs@, package_dir_of(config@, package@)) is Some ==> outcome is Ok
            && names_in_option(outcome->Ok_0) == if no_teardown {
            None
        } else {
            script_of(fs@, config@, package@, "teardown.sh"@)
        },
{
    if !config.package_exists(fs, package) {
        return Err(StauError::PackageNotFound(String::from_str(package)));
    }
    if no_teardown {
        Ok(None)
    } else {
        Ok(config.get_teardown_script(fs, package))
    }
}

/// Removes every link at a target of the package `package` that leads
/// nowhere, whatever it stores, and counts them. A package that is not in the
/// repository is an error. On a dry run nothing is changed, and the links
/// that would be removed are counted.
pub fn clean_broken_symlinks(
    fs: &mut FileTree,
    config: &Config,
    package: &str,
    target: Option<TreePath>,
    dry_run: bool,
) -> (outcome: Result<usize, StauError>)
    ensures
        final(fs)@ == cleaned(old(fs)@, config@, package@, names_in_option(target), dry_run).tree,
        final(fs).changes() == old(fs).changes() + cleaned(
            old(fs)@,
            config@,
            package@,
            names_in_option(target),
            dry_run,
        ).steps,
        count_in(outcome) == cleaned(
            old(fs)@,
            config@,
            package@,
            names_in_option(target),
            dry_run,
        ).result,
        final(fs).origin() == old(fs).origin(),
        dry_run ==> final(fs)@ == old(fs)@ && final(fs).changes() == old(fs).changes(),
{
    let ghost t = fs@;
    proof {
        assert(fs.changes() + Seq::<Step>::empty() =~= fs.changes());
    }
    let target_dir = config.get_target(target);
    let package_dir = config.get_package_dir(package);
    if !config.package_exists(fs, package) {
        return Err(StauError::PackageNotFound(String::from_str(package)));
    }
    let mappings = match discover_package_files(fs, &package_dir, &target_dir) {
        Ok(mappings) => mappings,
        Err(e) => {
            return Err(e);
        },
    };
    proof {
        lemma_dry_run_keeps_tree_all(t, mappings_in(mappings@), false, false);
    }
    purge_all(fs, &mappings, dry_run)
}

/// What a restow did.
#[derive(Debug, PartialEq, Eq)]
pub struct RestowReport {
    /// How many links were removed before the links were made again.
    pub removed: usize,
    /// What the install that followed found and did.
    pub install: InstallReport,
}

/// Restows the package `package`: removes its links and makes them again.
///
/// Nothing is copied back when the links are removed, and nothing foreign is
/// replaced when they are made, so that the tree holds the same regular files
/// afterwards as before. The teardown script is never due; the setup script
/// is due only where `run_setup` is set.
pub fn restow_package(
    fs: &mut FileTree,
    config: &Config,
    package: &str,
    target: Option<TreePath>,
    run_setup: bool,
    dry_run: bool,
) -> (outcome: Result<RestowReport, StauError>)
    ensures
        final(fs)@ == restowed(
            old(fs)@,
            config@,
            package@,
            names_in_option(target),
            run_setup,
            dry_run,
        ).tree,
        final(fs).changes() == old(fs).changes() + restowed(
            old(fs)@,
            config@,
            package@,
            names_in_option(target),
            run_setup,
            dry_run,
        ).steps,
        match restowed(old(fs)@, config@, package@, names_in_option(target), run_setup, dry_run).result {
            Ok(report) => outcome is Ok && outcome->Ok_0.install@ == report,
            Err(fault) => outcome is Err && outcome->Err_0@ == fault,
        },
        outcome is Ok ==> uninstalled(
            old(fs)@,
            config@,
            package@,
            names_in_option(target),
            false,
            false,
            dry_run,
        ).result is Ok && outcome->Ok_0.removed == uninstalled(
            old(fs)@,
            config@,
            package@,
            names_in_option(target),
            false,
            false,
            dry_run,
        ).result->Ok_0.1,
        final(fs).origin() == old(fs).origin(),
        dry_run ==> final(fs)@ == old(fs)@ && final(fs).changes() == old(fs).changes(),
        same_files(old(fs)@, final(fs)@),
{
    let ghost begun = fs.changes();
    let ghost gone_spec = uninstalled(
        fs@,
        config@,
        package@,
        names_in_option(target),
        false,
        false,
        dry_run,
    );
    proof {
        lemma_restow_keeps_files(
            fs@,
            config@,
            package@,
            names_in_option(target),
            run_setup,
            dry_run,
        );
        let then = installed(
            gone_spec.tree,
            config@,
            package@,
            names_in_option(target),
            !run_setup,
            false,
            dry_run,
        );
        assert((begun + gone_spec.steps) + then.steps =~= begun + (gone_spec.steps + then.steps));
    }
    let again = match &target {
        Some(path) => Some(path.clone()),
        None => None,
    };
    let gone = match uninstall_package_internal(fs, config, package, target, false, false, dry_run) {
        Ok(report) => report,
        Err(e) => {
            return Err(e);
        },
    };
    match install_package(fs, config, package, again, !run_setup, false, dry_run) {
        Ok(install) => Ok(RestowReport { removed: gone.removed, install }),
        Err(e) => Err(e),
    }
}

/// On a dry run none of the passes over the mappings of a package changes
/// anything.
pub proof fn lemma_dry_run_keeps_tree_all(t: Tree, ms: Seq<Mapping>, copy_back: bool, force: bool)
    ensures
        linked_all(t, ms, force, true).tree == t,
        linked_all(t, ms, force, true).steps == Seq::<Step>::empty(),
        removed_all(t, ms, copy_back, force, true).tree == t,
        removed_all(t, ms, copy_back, force, true).steps == Seq::<Step>::empty(),
        purged_all(t, ms, true).tree == t,
        purged_all(t, ms, true).steps == Seq::<Step>::empty(),
    decreases ms.len(),
{
    if ms.len() > 0 {
        lemma_dry_run_keeps_tree_all(t, ms.drop_first(), copy_back, force);
        assert(Seq::<Step>::empty() + Seq::<Step>::empty() =~= Seq::<Step>::empty());
    }
}

/// On a dry run no operation on a package changes anything, whatever it
/// reports.
pub proof fn lemma_dry_run_changes_nothing(
    t: Tree,
    settings: Settings,
    package: Seq<char>,
    target: Option<Names>,
    flag: bool,
    force: bool,
)
    ensures
        installed(t, settings, package, target, flag, force, true).tree == t,
        installed(t, settings, package, target, flag, force, true).steps == Seq::<Step>::empty(),
        uninstalled(t, settings, package, target, flag, force, true).tree == t,
        uninstalled(t, settings, package, target, flag, force, true).steps == Seq::<
            Step,
        >::empty(),
        restowed(t, settings, package, target, flag, true).tree == t,
        restowed(t, settings, package, target, flag, true).steps == Seq::<Step>::empty(),
        cleaned(t, settings, package, target, true).tree == t,
        cleaned(t, settings, package, target, true).steps == Seq::<Step>::empty(),
{
    let package_dir = package_dir_of(settings, package);
    let target_dir = target_of(settings, target);
    if let Ok(ms) = discovery(t, package_dir, target_dir) {
        lemma_dry_run_keeps_tree_all(t, ms, flag, force);
        lemma_dry_run_keeps_tree_all(t, ms, false, false);
    }
    assert(Seq::<Step>::empty() + Seq::<Step>::empty() =~= Seq::<Step>::empty());
}


/// The changes that a pass over the mappings of a package lists lead from
/// the tree before it to the tree after it.
pub proof fn lemma_passes_list_their_changes(
    t: Tree,
    ms: Seq<Mapping>,
    copy_back: bool,
    force: bool,
    dry_run: bool,
)
    ensures
        replayed(t, linked_all(t, ms, force, dry_run).steps) == linked_all(
            t,
            ms,
            force,
            dry_run,
        ).tree,
        replayed(t, removed_all(t, ms, copy_back, force, dry_run).steps) == removed_all(
            t,
            ms,
            copy_back,
            force,
            dry_run,
        ).tree,
        replayed(t, purged_all(t, ms, dry_run).steps) == purged_all(t, ms, dry_run).tree,
    decreases ms.len(),
{
    assert(replayed(t, Seq::<Step>::empty()) == t);
    if ms.len() > 0 {
        let m = ms[0];
        let rest = ms.drop_first();
        lemma_steps_lead_to_tree(t, m.source, m.target, force, dry_run);
        let link = linked(t, m.source, m.target, force, dry_run);
        if link.result is Ok {
            lemma_passes_list_their_changes(link.tree, rest, copy_back, force, dry_run);
            lemma_replayed_joined(t, link.steps, linked_all(link.tree, rest, force, dry_run).steps);
        }
        let gone = unlinked(t, m.target, m.source, dry_run);
        let one = removed_one(t, m, copy_back, force, dry_run);
        if gone.result == Ok::<bool, Fault>(true) && copy_back {
            lemma_steps_lead_to_tree(gone.tree, m.source, m.target, force, dry_run);
            lemma_replayed_joined(
                t,
                gone.steps,
                restored_over(gone.tree, m.source, m.target, force, dry_run).steps,
            );
        }
        assert(replayed(t, one.steps) == one.tree);
        if one.result is Ok {
            lemma_passes_list_their_changes(one.tree, rest, copy_back, force, dry_run);
            lemma_replayed_joined(
                t,
                one.steps,
                removed_all(one.tree, rest, copy_back, force, dry_run).steps,
            );
        }
        let purge = purged(t, m.target, dry_run);
        if purge.result is Ok {
            lemma_passes_list_their_changes(purge.tree, rest, copy_back, force, dry_run);
            lemma_replayed_joined(t, purge.steps, purged_all(purge.tree, rest, dry_run).steps);
        }
    }
}

/// The changes that an operation on a package lists lead from the tree
/// before it to the tree after it, whether the operation went well or not.
pub proof fn lemma_operations_list_their_changes(
    t: Tree,
    settings: Settings,
    package: Seq<char>,
    target: Option<Names>,
    flag: bool,
    force: bool,
    dry_run: bool,
)
    ensures
        replayed(t, installed(t, settings, package, target, flag, force, dry_run).steps)
            == installed(t, settings, package, target, flag, force, dry_run).tree,
        replayed(t, uninstalled(t, settings, package, target, flag, force, dry_run).steps)
            == uninstalled(t, settings, package, target, flag, force, dry_run).tree,
        replayed(t, restowed(t, settings, package, target, flag, dry_run).steps) == restowed(
            t,
            settings,
            package,
            target,
            flag,
            dry_run,
        ).tree,
        replayed(t, cleaned(t, settings, package, target, dry_run).steps) == cleaned(
            t,
            settings,
            package,
            target,
            dry_run,
        ).tree,
{
    let package_dir = package_dir_of(settings, package);
    let target_dir = target_of(settings, target);
    assert(replayed(t, Seq::<Step>::empty()) == t);
    if let Ok(ms) = discovery(t, package_dir, target_dir) {
        lemma_passes_list_their_changes(t, ms, flag, force, dry_run);
        lemma_passes_list_their_changes(t, ms, false, false, dry_run);
    }
    let gone = uninstalled(t, settings, package, target, false, false, dry_run);
    if gone.result is Ok {
        if let Ok(ms) = discovery(gone.tree, package_dir, target_dir) {
            lemma_passes_list_their_changes(gone.tree, ms, false, false, dry_run);
        }
        let then = installed(gone.tree, settings, package, target, !flag, false, dry_run);
        assert(replayed(gone.tree, Seq::<Step>::empty()) == gone.tree);
        lemma_replayed_joined(t, gone.steps, then.steps);
    }
}

} // verus!
