//! What is said of a package without changing anything: how each of its files
//! stands under the target directory, and how the package stands as a whole.

use crate::config::{names_in_option, package_dir_of, script_of, target_of, Config, Settings};
use crate::error::{Fault, StauError};
use crate::package::{
    discover_package_files, discovery, is_package_list, list_packages, mappings_in, texts_in,
};
use crate::path::{Names, TreePath};
use crate::symlink::{
    dangling, is_broken_symlink, is_stau_symlink, owned, state_of, Mapping, SymlinkMapping,
};
use crate::file_tree::FileTree;
use crate::tree::{reached, Tree};
use vstd::prelude::*;
use vstd::string::StringExecFns;

verus! {

/// How one file of a package stands under the target directory.
#[derive(Debug, Clone, Copy, PartialEq, Eq, Structural)]
pub enum FileStatus {
    /// A link stands at the target that leads nowhere, whatever it stores.
    Broken,
    /// The link of the package stands at the target and leads somewhere.
    Installed,
    /// Something foreign stands at the target.
    Conflict,
    /// Nothing stands at the target.
    NotInstalled,
}

/// How the file of `m` stands in `t`.
pub open spec fn status_of(t: Tree, m: Mapping) -> FileStatus {
    if dangling(t, m.target) {
        FileStatus::Broken
    } else if owned(state_of(t, m.target, m.source)) {
        FileStatus::Installed
    } else if reached(t, m.target) is Some {
        FileStatus::Conflict
    } else {
        FileStatus::NotInstalled
    }
}

/// How many of the files of `ms` have the status `wanted` in `t`.
pub open spec fn count_with(t: Tree, ms: Seq<Mapping>, wanted: FileStatus) -> nat
    decreases ms.len(),
{
    if ms.len() == 0 {
        0
    } else {
        count_with(t, ms.drop_last(), wanted) + if status_of(t, ms.last()) == wanted {
            1nat
        } else {
            0nat
        }
    }
}

/// How many of the targets of `ms` hold the link of the package in `t`,
/// whether it leads somewhere or not.
pub open spec fn count_owned(t: Tree, ms: Seq<Mapping>) -> nat
    decreases ms.len(),
{
    if ms.len() == 0 {
        0
    } else {
        count_owned(t, ms.drop_last()) + if owned(state_of(t, ms.last().target, ms.last().source)) {
            1nat
        } else {
            0nat
        }
    }
}

/// How many of the targets of `ms` hold a link that leads nowhere in `t`,
/// whatever it stores.
pub open spec fn count_dangling(t: Tree, ms: Seq<Mapping>) -> nat
    decreases ms.len(),
{
    if ms.len() == 0 {
        0
    } else {
        count_dangling(t, ms.drop_last()) + if dangling(t, ms.last().target) {
            1nat
        } else {
            0nat
        }
    }
}

/// The status of one file under the target directory.
#[derive(Debug, PartialEq, Eq)]
pub struct FileLine {
    /// The path under the target directory.
    pub target: TreePath,
    /// How the file stands there.
    pub status: FileStatus,
}

/// What is known of a package.
#[derive(Debug, PartialEq, Eq)]
pub struct StatusReport {
    /// The directory of the package.
    pub package_dir: TreePath,
    /// The target directory.
    pub target_dir: TreePath,
    /// The setup script of the package, if it has one.
    pub setup_script: Option<TreePath>,
    /// The teardown script of the package, if it has one.
    pub teardown_script: Option<TreePath>,
    /// The files of the package, in the order of a walk.
    pub files: Vec<FileLine>,
    /// How many files are installed.
    pub installed: usize,
    /// How many files are not installed, those with a conflict among them.
    pub not_installed: usize,
    /// How many targets hold something foreign.
    pub conflicts: usize,
    /// How many targets hold a link that leads nowhere.
    pub broken: usize,
}

/// Whether `report` says of the package `package` what holds in `t`.
pub open spec fn reports(
    report: StatusReport,
    t: Tree,
    settings: Settings,
    package: Seq<char>,
    target: Option<Names>,
    ms: Seq<Mapping>,
) -> bool {
    &&& report.package_dir@ == package_dir_of(settings, package)
    &&& report.target_dir@ == target_of(settings, target)
    &&& names_in_option(report.setup_script) == script_of(t, settings, package, "setup.sh"@)
    &&& names_in_option(report.teardown_script) == script_of(t, settings, package, "teardown.sh"@)
    &&& report.files@.len() == ms.len()
    &&& forall|i: int|
        0 <= i < ms.len() ==> (#[trigger] report.files@[i]).target@ == ms[i].target
            && report.files@[i].status == status_of(t, ms[i])
    &&& report.installed == count_with(t, ms, FileStatus::Installed)
    &&& report.broken == count_with(t, ms, FileStatus::Broken)
    &&& report.not_installed == count_with(t, ms, FileStatus::Conflict) + count_with(
        t,
        ms,
        FileStatus::NotInstalled,
    )
    &&& report.conflicts == count_with(t, ms, FileStatus::Conflict)
}

/// How the file of `mapping` stands under the target directory.
pub fn file_status(fs: &FileTree, mapping: &SymlinkMapping) -> (status: FileStatus)
    ensures
        status == status_of(fs@, mapping@),
{
    let is_our_link = match is_stau_symlink(fs, &mapping.target, &mapping.source) {
        Ok(b) => b,
        Err(_) => false,
    };
    if is_broken_symlink(fs, &mapping.target) {
        FileStatus::Broken
    } else if is_our_link {
        FileStatus::Installed
    } else if fs.resolves(&mapping.target) {
        FileStatus::Conflict
    } else {
        FileStatus::NotInstalled
    }
}

/// Says how the package `package` stands: where it lies, which scripts it
/// has, how each of its files stands under the target directory, and how many
/// are installed, not installed and broken. A package that is not in the
/// repository is an error. Nothing is changed.
pub fn show_status(fs: &FileTree, config: &Config, package: &str, target: Option<TreePath>) -> (outcome:
    Result<StatusReport, StauError>)
    ensures
        reached(fs@, package_dir_of(config@, package@)) is None ==> outcome is Err
            && outcome->Err_0@ == Fault::PackageNotFound(package@),
        reached(fs@, package_dir_of(config@, package@)) is Some ==> match discovery(
            fs@,
            package_dir_of(config@, package@),
            target_of(config@, names_in_option(target)),
        ) {
            Err(fault) => outcome is Err && outcome->Err_0@ == fault,
            Ok(ms) => outcome is Ok && reports(
                outcome->Ok_0,
                fs@,
                config@,
                package@,
                names_in_option(target),
                ms,
            ),
        },
{
    let target_dir = config.get_target(target);
    let package_dir = config.get_package_dir(package);
    if !config.package_exists(fs, package) {
        return Err(StauError::PackageNotFound(String::from_str(package)));
    }
    let setup_script = config.get_setup_script(fs, package);
    let teardown_script = config.get_teardown_script(fs, package);
    let mappings = match discover_package_files(fs, &package_dir, &target_dir) {
        Ok(mappings) => mappings,
        Err(e) => {
            return Err(e);
        },
    };
    let ghost t = fs@;
    let ghost ms = mappings_in(mappings@);
    let mut files: Vec<FileLine> = Vec::new();
    let mut installed: usize = 0;
    let mut not_installed: usize = 0;
    let mut conflicts: usize = 0;
    let mut broken: usize = 0;
    let mut i: usize = 0;
    while i < mappings.len()
        invariant
            t == fs@,
            ms == mappings_in(mappings@),
            i <= mappings@.len(),
            files@.len() == i,
            forall|k: int|
                0 <= k < i ==> (#[trigger] files@[k]).target@ == ms[k].target && files@[k].status
                    == status_of(t, ms[k]),
            installed == count_with(t, ms.take(i as int), FileStatus::Installed),
            broken == count_with(t, ms.take(i as int), FileStatus::Broken),
            not_installed == count_with(t, ms.take(i as int), FileStatus::Conflict) + count_with(
                t,
                ms.take(i as int),
                FileStatus::NotInstalled,
            ),
            conflicts == count_with(t, ms.take(i as int), FileStatus::Conflict),
            conflicts <= not_installed,
            installed + broken + not_installed == i,
        decreases mappings@.len() - i,
    {
        let status = file_status(fs, &mappings[i]);
        proof {
            assert(ms.take(i + 1).drop_last() =~= ms.take(i as int));
            assert(ms.take(i + 1).last() == mappings@[i as int]@);
        }
        match status {
            FileStatus::Broken => {
                broken += 1;
            },
            FileStatus::Installed => {
                installed += 1;
            },
            FileStatus::Conflict => {
                not_installed += 1;
                conflicts += 1;
            },
            FileStatus::NotInstalled => {
                not_installed += 1;
            },
        }
        files.push(FileLine { target: mappings[i].target.clone(), status });
        i += 1;
    }
    proof {
        assert(ms.take(ms.len() as int) =~= ms);
    }
    Ok(
        StatusReport {
            package_dir,
            target_dir,
            setup_script,
            teardown_script,
            files,
            installed,
            not_installed,
            conflicts,
            broken,
        },
    )
}

/// How a package stands as a whole.
#[derive(Debug, Clone, Copy, PartialEq, Eq, Structural)]
pub enum PackageSummary {
    /// None of its links is there, or it has no files.
    NotInstalled,
    /// All of its links are there, and none of its targets holds a broken
    /// link.
    Installed { links: usize },
    /// Some of its links are there, and some of its targets hold a broken
    /// link.
    Broken { links: usize, broken: usize },
    /// Some of its links are there and some are not, and none of its targets
    /// holds a broken link.
    Partial { links: usize, total: usize },
    /// Its directory could not be read.
    Unreadable,
}

/// How a package with the mappings `ms` stands in `t`.
pub open spec fn summary_of(t: Tree, ms: Seq<Mapping>) -> PackageSummary {
    let links = count_owned(t, ms);
    let broken = count_dangling(t, ms);
    if links == 0 {
        PackageSummary::NotInstalled
    } else if broken > 0 {
        PackageSummary::Broken { links: links as usize, broken: broken as usize }
    } else if links == ms.len() {
        PackageSummary::Installed { links: links as usize }
    } else {
        PackageSummary::Partial { links: links as usize, total: ms.len() as usize }
    }
}

/// How the package at `package_dir` stands in `t`, with `target_dir` as its
/// target directory.
pub open spec fn summary_at(t: Tree, package_dir: Names, target_dir: Names) -> PackageSummary {
    match discovery(t, package_dir, target_dir) {
        Ok(ms) => summary_of(t, ms),
        Err(_) => PackageSummary::Unreadable,
    }
}

/// Says how a package with the mappings `mappings` stands as a whole.
pub fn summarize(fs: &FileTree, mappings: &Vec<SymlinkMapping>) -> (summary: PackageSummary)
    ensures
        summary == summary_of(fs@, mappings_in(mappings@)),
{
    let ghost t = fs@;
    let ghost ms = mappings_in(mappings@);
    let mut installed_count: usize = 0;
    let mut broken_count: usize = 0;
    let mut i: usize = 0;
    while i < mappings.len()
        invariant
            t == fs@,
            ms == mappings_in(mappings@),
            i <= mappings@.len(),
            installed_count == count_owned(t, ms.take(i as int)),
            broken_count == count_dangling(t, ms.take(i as int)),
            installed_count <= i,
            broken_count <= i,
        decreases mappings@.len() - i,
    {
        proof {
            assert(ms.take(i + 1).drop_last() =~= ms.take(i as int));
            assert(ms.take(i + 1).last() == mappings@[i as int]@);
        }
        let ours = match is_stau_symlink(fs, &mappings[i].target, &mappings[i].source) {
            Ok(b) => b,
            Err(_) => false,
        };
        if ours {
            installed_count += 1;
        }
        if is_broken_symlink(fs, &mappings[i].target) {
            broken_count += 1;
        }
        i += 1;
    }
    proof {
        assert(ms.take(ms.len() as int) =~= ms);
    }
    if installed_count == 0 {
        PackageSummary::NotInstalled
    } else if broken_count > 0 {
        PackageSummary::Broken { links: installed_count, broken: broken_count }
    } else if installed_count == mappings.len() {
        PackageSummary::Installed { links: installed_count }
    } else {
        PackageSummary::Partial { links: installed_count, total: mappings.len() }
    }
}

/// One package of the repository and how it stands.
#[derive(Debug, PartialEq, Eq)]
pub struct PackageLine {
    /// The name of the package.
    pub name: String,
    /// How it stands.
    pub summary: PackageSummary,
}

/// The names of the packages that a list of lines holds.
pub open spec fn names_listed(lines: Seq<PackageLine>) -> Seq<Seq<char>> {
    Seq::new(lines.len(), |i: int| lines[i].name@)
}

/// Says of each package of the repository how it stands as a whole, the
/// packages in the order of their names. It is an error where the repository
/// is not there. Nothing is changed.
pub fn list_status(fs: &FileTree, config: &Config, target: Option<TreePath>) -> (outcome: Result<
    Vec<PackageLine>,
    StauError,
>)
    ensures
        reached(fs@, config@.stau_dir) is None ==> outcome is Err && outcome->Err_0@
            == Fault::StauDirNotFound(config@.stau_dir),
        reached(fs@, config@.stau_dir) is Some ==> outcome is Ok && is_package_list(
            names_listed(outcome->Ok_0@),
            fs@,
            config@.stau_dir,
        ) && forall|i: int|
            0 <= i < outcome->Ok_0@.len() ==> (#[trigger] outcome->Ok_0@[i]).summary == summary_at(
                fs@,
                package_dir_of(config@, outcome->Ok_0@[i].name@),
                target_of(config@, names_in_option(target)),
            ),
{
    let target_dir = config.get_target(target);
    let packages = match list_packages(fs, &config.stau_dir) {
        Ok(packages) => packages,
        Err(e) => {
            return Err(e);
        },
    };
    let ghost t = fs@;
    let mut lines: Vec<PackageLine> = Vec::new();
    let mut i: usize = 0;
    while i < packages.len()
        invariant
            t == fs@,
            i <= packages@.len(),
            lines@.len() == i,
            forall|k: int| 0 <= k < i ==> (#[trigger] lines@[k]).name@ == packages@[k]@,
            forall|k: int|
                0 <= k < i ==> (#[trigger] lines@[k]).summary == summary_at(
                    t,
                    package_dir_of(config@, lines@[k].name@),
                    target_dir@,
                ),
        decreases packages@.len() - i,
    {
        let package_dir = config.get_package_dir(packages[i].as_str());
        let summary = match discover_package_files(fs, &package_dir, &target_dir) {
            Ok(mappings) => summarize(fs, &mappings),
            Err(_) => PackageSummary::Unreadable,
        };
        lines.push(PackageLine { name: packages[i].clone(), summary });
        i += 1;
    }
    proof {
        assert(names_listed(lines@) =~= texts_in(packages@));
    }
    Ok(lines)
}

} // verus!
