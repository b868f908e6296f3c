//! Packages: which files a package directory holds, where each belongs under
//! the target directory, and which packages a repository holds.

use crate::error::{seen, Fault, StauError};
use crate::order::{lemma_path_before_irreflexive, lemma_path_before_transitive, path_before};
use crate::path::{rebased, starts_with, written, Names, TreePath};
use crate::symlink::{Mapping, SymlinkMapping};
use crate::file_tree::FileTree;
use crate::tree::{
    ascending, entry, kind_in, listing, lists, reached, Content, Kind, Tree,
};
use vstd::prelude::*;
use vstd::string::StrSliceExecFns;
use vstd::string::StringExecFns;

verus! {

/// Whether an entry of this name, directly in a package directory, is left out
/// of the package: the two scripts of a package and what a version control
/// system keeps there.
pub open spec fn skipped_at_root(name: Seq<char>) -> bool {
    ||| name == "setup.sh"@
    ||| name == "teardown.sh"@
    ||| name == ".git"@
    ||| name == ".gitignore"@
    ||| name == ".gitattributes"@
    ||| name == ".gitmodules"@
}

/// Whether `p` is a file of the package at `pkg` that gets a link: a regular
/// file under `pkg`, at any depth, that does not lie at or under a skipped
/// entry of the package directory. Links in the package are not files, and
/// nothing lies under them.
pub open spec fn maps(t: Tree, pkg: Names, p: Names) -> bool {
    &&& starts_with(p, pkg)
    &&& p.len() > pkg.len()
    &&& !skipped_at_root(p[pkg.len() as int])
    &&& t.dom().contains(p)
    &&& t[p] is File
}

/// Whether `ms` is what a walk of the package at `pkg` finds: one mapping for
/// each file of the package and no other, each with the target that has
/// `target_root` in the place of `pkg`, in the order of a walk.
pub open spec fn is_discovery(ms: Seq<Mapping>, t: Tree, pkg: Names, target_root: Names) -> bool {
    &&& forall|i: int|
        0 <= i < ms.len() ==> maps(t, pkg, (#[trigger] ms[i]).source) && ms[i].target == rebased(
            ms[i].source,
            pkg,
            target_root,
        )
    &&& forall|i: int, j: int|
        0 <= i < j < ms.len() ==> path_before((#[trigger] ms[i]).source, (#[trigger] ms[j]).source)
    &&& forall|p: Names| #[trigger]
        maps(t, pkg, p) ==> exists|i: int| 0 <= i < ms.len() && (#[trigger] ms[i]).source == p
}

/// What a walk of the package at `pkg` finds.
pub open spec fn discovered(t: Tree, pkg: Names, target_root: Names) -> Seq<Mapping> {
    choose|ms: Seq<Mapping>| is_discovery(ms, t, pkg, target_root)
}

/// What `discover_package_files` reports: that the package is not found where
/// `pkg` leads nowhere, that the path is invalid where something other than a
/// directory stands at `pkg`, and what a walk finds otherwise.
pub open spec fn discovery(t: Tree, pkg: Names, target_root: Names) -> Result<Seq<Mapping>, Fault> {
    if reached(t, pkg) is None {
        Err(Fault::PackageNotFound(written(pkg)))
    } else if entry(t, pkg) != Some(Content::Dir) {
        Err(Fault::InvalidPath(pkg))
    } else {
        Ok(discovered(t, pkg, target_root))
    }
}

/// The mappings of a list, as the contracts see them.
pub open spec fn mappings_in(list: Seq<SymlinkMapping>) -> Seq<Mapping> {
    Seq::new(list.len(), |i: int| list[i]@)
}

/// Without its last mapping, what a walk finds is what a walk finds in the
/// tree without the source of that mapping.
proof fn lemma_discovery_shrinks(a: Seq<Mapping>, t: Tree, pkg: Names, target_root: Names)
    requires
        is_discovery(a, t, pkg, target_root),
        a.len() > 0,
    ensures
        is_discovery(a.drop_last(), t.remove(a.last().source), pkg, target_root),
{
    let last = a.last().source;
    let u = t.remove(last);
    let a1 = a.drop_last();
    assert forall|i: int| 0 <= i < a1.len() implies maps(u, pkg, (#[trigger] a1[i]).source)
        && a1[i].target == rebased(a1[i].source, pkg, target_root) by {
        assert(a1[i] == a[i]);
        assert(path_before(a[i].source, a[a.len() - 1].source));
        lemma_path_before_irreflexive(last);
    }
    assert forall|i: int, j: int| 0 <= i < j < a1.len() implies path_before(
        (#[trigger] a1[i]).source,
        (#[trigger] a1[j]).source,
    ) by {
        assert(a1[i] == a[i] && a1[j] == a[j]);
    }
    assert forall|p: Names| #[trigger] maps(u, pkg, p) implies exists|i: int|
        0 <= i < a1.len() && (#[trigger] a1[i]).source == p by {
        assert(maps(t, pkg, p));
        let i = choose|i: int| 0 <= i < a.len() && (#[trigger] a[i]).source == p;
        assert(a1[i].source == p);
    }
}

/// The last mapping that a walk finds has the last source in the order.
proof fn lemma_discovery_last(
    a: Seq<Mapping>,
    b: Seq<Mapping>,
    t: Tree,
    pkg: Names,
    target_root: Names,
)
    requires
        is_discovery(a, t, pkg, target_root),
        is_discovery(b, t, pkg, target_root),
        a.len() > 0,
    ensures
        b.len() > 0,
        a.last() == b.last(),
{
    let last = a.last().source;
    assert(maps(t, pkg, a[a.len() - 1].source));
    let j = choose|j: int| 0 <= j < b.len() && (#[trigger] b[j]).source == last;
    if j < b.len() - 1 {
        let beyond = b[b.len() - 1].source;
        assert(path_before(b[j].source, b[b.len() - 1].source));
        assert(maps(t, pkg, b[b.len() - 1].source));
        let i = choose|i: int| 0 <= i < a.len() && (#[trigger] a[i]).source == beyond;
        if i < a.len() - 1 {
            assert(path_before(a[i].source, a[a.len() - 1].source));
            lemma_path_before_transitive(beyond, last, beyond);
        }
        lemma_path_before_irreflexive(beyond);
    }
    assert(b[j].target == rebased(b[j].source, pkg, target_root));
    assert(a[a.len() - 1].target == rebased(a[a.len() - 1].source, pkg, target_root));
}

/// A walk of a package finds one thing only.
pub proof fn lemma_one_discovery(
    a: Seq<Mapping>,
    b: Seq<Mapping>,
    t: Tree,
    pkg: Names,
    target_root: Names,
)
    requires
        is_discovery(a, t, pkg, target_root),
        is_discovery(b, t, pkg, target_root),
    ensures
        a == b,
    decreases a.len(),
{
    if a.len() == 0 {
        if b.len() > 0 {
            assert(maps(t, pkg, b[0].source));
        }
        assert(a =~= b);
    } else {
        lemma_discovery_last(a, b, t, pkg, target_root);
        lemma_discovery_shrinks(a, t, pkg, target_root);
        lemma_discovery_shrinks(b, t, pkg, target_root);
        lemma_one_discovery(a.drop_last(), b.drop_last(), t.remove(a.last().source), pkg, target_root);
        assert(a =~= a.drop_last().push(a.last()));
        assert(b =~= b.drop_last().push(b.last()));
    }
}

/// The mappings for the files of the package at `pkg` among `paths`, in the
/// order of `paths`.
pub open spec fn found_among(t: Tree, pkg: Names, target_root: Names, paths: Seq<Names>) -> Seq<
    Mapping,
>
    decreases paths.len(),
{
    if paths.len() == 0 {
        Seq::empty()
    } else {
        let before = found_among(t, pkg, target_root, paths.drop_last());
        if maps(t, pkg, paths.last()) {
            before.push(
                Mapping { source: paths.last(), target: rebased(paths.last(), pkg, target_root) },
            )
        } else {
            before
        }
    }
}

/// The mappings found among paths in the order of a walk are mappings for
/// files of the package, one for each such file among the paths, in the
/// order of a walk.
proof fn lemma_found_among(t: Tree, pkg: Names, target_root: Names, paths: Seq<Names>)
    requires
        ascending(paths),
    ensures
        ({
            let ms = found_among(t, pkg, target_root, paths);
            &&& forall|i: int|
                0 <= i < ms.len() ==> maps(t, pkg, (#[trigger] ms[i]).source) && ms[i].target
                    == rebased(ms[i].source, pkg, target_root) && paths.contains(ms[i].source)
            &&& forall|i: int, j: int|
                0 <= i < j < ms.len() ==> path_before(
                    (#[trigger] ms[i]).source,
                    (#[trigger] ms[j]).source,
                )
            &&& forall|k: int|
                0 <= k < paths.len() && maps(t, pkg, #[trigger] paths[k]) ==> exists|i: int|
                    0 <= i < ms.len() && (#[trigger] ms[i]).source == paths[k]
        }),
    decreases paths.len(),
{
    if paths.len() > 0 {
        let front = paths.drop_last();
        let last = paths.last();
        let before = found_among(t, pkg, target_root, front);
        let ms = found_among(t, pkg, target_root, paths);
        assert(ascending(front)) by {
            assert forall|i: int, j: int| 0 <= i < j < front.len() implies path_before(
                #[trigger] front[i],
                #[trigger] front[j],
            ) by {
                assert(front[i] == paths[i] && front[j] == paths[j]);
            }
        }
        lemma_found_among(t, pkg, target_root, front);
        assert forall|i: int| 0 <= i < before.len() implies paths.contains(
            (#[trigger] before[i]).source,
        ) && path_before(before[i].source, last) by {
            assert(front.contains(before[i].source));
            let k = choose|k: int| 0 <= k < front.len() && front[k] == before[i].source;
            assert(paths[k] == before[i].source);
            assert(path_before(paths[k], paths[paths.len() - 1]));
        }
        assert forall|i: int| 0 <= i < ms.len() implies maps(t, pkg, (#[trigger] ms[i]).source)
            && ms[i].target == rebased(ms[i].source, pkg, target_root) && paths.contains(
            ms[i].source,
        ) by {
            if i < before.len() {
                assert(ms[i] == before[i]);
            } else {
                assert(paths[paths.len() - 1] == last);
            }
        }
        assert forall|i: int, j: int| 0 <= i < j < ms.len() implies path_before(
            (#[trigger] ms[i]).source,
            (#[trigger] ms[j]).source,
        ) by {
            assert(ms[i] == before[i]);
            if j < before.len() {
                assert(ms[j] == before[j]);
            }
        }
        assert forall|k: int|
            0 <= k < paths.len() && maps(t, pkg, #[trigger] paths[k]) implies exists|i: int|
            0 <= i < ms.len() && (#[trigger] ms[i]).source == paths[k] by {
            if k < front.len() {
                assert(front[k] == paths[k]);
                let i = choose|i: int|
                    0 <= i < before.len() && (#[trigger] before[i]).source == front[k];
                assert(ms[i].source == paths[k]);
            } else {
                assert(ms[ms.len() - 1].source == paths[k]);
            }
        }
    }
}

/// Every tree that has a listing can be walked: what a walk of a package
/// finds in it is one mapping for each file of the package, in order.
pub proof fn lemma_walk_finds_all(t: Tree, pkg: Names, target_root: Names)
    requires
        lists(listing(t), t),
    ensures
        is_discovery(discovered(t, pkg, target_root), t, pkg, target_root),
{
    let paths = listing(t);
    let ms = found_among(t, pkg, target_root, paths);
    lemma_found_among(t, pkg, target_root, paths);
    assert forall|p: Names| #[trigger] maps(t, pkg, p) implies exists|i: int|
        0 <= i < ms.len() && (#[trigger] ms[i]).source == p by {
        assert(paths.contains(p));
        let k = choose|k: int| 0 <= k < paths.len() && paths[k] == p;
        assert(maps(t, pkg, paths[k]));
    }
    assert(is_discovery(ms, t, pkg, target_root));
}

/// Whether the name is one that is left out directly in a package directory.
pub fn is_skipped_at_root(name: &str) -> (skipped: bool)
    ensures
        skipped == skipped_at_root(name@),
{
    let name = String::from_str(name);
    name == String::from_str("setup.sh") || name == String::from_str("teardown.sh") || name
        == String::from_str(".git") || name == String::from_str(".gitignore") || name
        == String::from_str(".gitattributes") || name == String::from_str(".gitmodules")
}

/// Walks the package directory at `package_dir` and gives one mapping for
/// each regular file in it, at any depth, to the path under `target_dir` that
/// lies as the file lies under `package_dir`.
///
/// Directly in the package directory the two scripts of a package and the
/// entries of a version control system are left out; deeper down the same
/// names are files like any other. Links in the package are left out and not
/// followed. The mappings come in the order of a walk that takes the entries
/// of each directory by name.
///
/// It is an error where `package_dir` leads nowhere: the package is not
/// found. It is another where something other than a directory stands there,
/// a link to a directory included: the path is invalid.
pub fn discover_package_files(fs: &FileTree, package_dir: &TreePath, target_dir: &TreePath) -> (found:
    Result<Vec<SymlinkMapping>, StauError>)
    ensures
        match discovery(fs@, package_dir@, target_dir@) {
            Ok(ms) => found is Ok && mappings_in(found->Ok_0@) == ms,
            Err(fault) => found is Err && found->Err_0@ == fault,
        },
        found is Ok ==> is_discovery(
            mappings_in(found->Ok_0@),
            fs@,
            package_dir@,
            target_dir@,
        ),
{
    if !fs.resolves(package_dir) {
        return Err(StauError::PackageNotFound(package_dir.render()));
    }
    match fs.kind(package_dir) {
        Some(Kind::Dir) => {},
        _ => {
            return Err(StauError::InvalidPath(package_dir.clone()));
        },
    }
    let mut mappings: Vec<SymlinkMapping> = Vec::new();
    walk_directory(fs, package_dir, target_dir, &mut mappings);
    proof {
        let ms = mappings_in(mappings@);
        let other = discovered(fs@, package_dir@, target_dir@);
        lemma_one_discovery(ms, other, fs@, package_dir@, target_dir@);
    }
    Ok(mappings)
}

/// Goes through the tree in the order of a walk and adds to `mappings` one
/// mapping for each file of the package at `base_dir`.
fn walk_directory(
    fs: &FileTree,
    base_dir: &TreePath,
    target_dir: &TreePath,
    mappings: &mut Vec<SymlinkMapping>,
)
    requires
        old(mappings)@.len() == 0,
    ensures
        is_discovery(mappings_in(final(mappings)@), fs@, base_dir@, target_dir@),
{
    proof {
        use_type_invariant(fs);
        fs.lemma_sound();
    }
    let ghost t = fs@;
    let ghost all = listing(t);
    let ghost pkg = base_dir@;
    let ghost root = target_dir@;
    let n = fs.count();
    let mut i: usize = 0;
    while i < n
        invariant
            t == fs@,
            all == listing(t),
            lists(all, t),
            pkg == base_dir@,
            root == target_dir@,
            n == all.len(),
            i <= n,
            forall|k: int|
                0 <= k < mappings@.len() ==> maps(t, pkg, (#[trigger] mappings_in(mappings@)[k]).source)
                    && mappings_in(mappings@)[k].target == rebased(
                    mappings_in(mappings@)[k].source,
                    pkg,
                    root,
                ),
            forall|k: int, m: int|
                0 <= k < m < mappings@.len() ==> path_before(
                    (#[trigger] mappings_in(mappings@)[k]).source,
                    (#[trigger] mappings_in(mappings@)[m]).source,
                ),
            forall|k: int, m: int|
                0 <= k < mappings@.len() && i <= m < n ==> path_before(
                    (#[trigger] mappings_in(mappings@)[k]).source,
                    #[trigger] all[m],
                ),
            forall|m: int|
                0 <= m < i && maps(t, pkg, #[trigger] all[m]) ==> exists|k: int|
                    0 <= k < mappings@.len() && (#[trigger] mappings_in(mappings@)[k]).source
                        == all[m],
        decreases n - i,
    {
        let path = fs.path_at(i);
        let ghost before = mappings_in(mappings@);
        let mut takes = false;
        if fs.kind_at(i) == Kind::File && path.len() > base_dir.len() && path.starts_with(base_dir) {
            if !is_skipped_at_root(path.name(base_dir.len())) {
                takes = true;
            }
        }
        proof {
            assert(all.contains(all[i as int]));
            assert(takes == maps(t, pkg, all[i as int]));
        }
        if takes {
            let rest = match path.strip_prefix(base_dir) {
                Some(rest) => rest,
                None => TreePath::root(),
            };
            let target = target_dir.join(&rest);
            mappings.push(SymlinkMapping::new(path.clone(), target));
            proof {
                let after = mappings_in(mappings@);
                assert(after =~= before.push(after[before.len() as int]));
                assert(after[before.len() as int].source == all[i as int]);
                assert forall|m: int|
                    0 <= m < i + 1 && maps(t, pkg, #[trigger] all[m]) implies exists|k: int|
                    0 <= k < mappings@.len() && (#[trigger] mappings_in(mappings@)[k]).source
                        == all[m] by {
                    if m < i {
                        let k = choose|k: int|
                            0 <= k < before.len() && (#[trigger] before[k]).source == all[m];
                        assert(after[k].source == all[m]);
                    } else {
                        assert(after[before.len() as int].source == all[m]);
                    }
                }
            }
        }
        i += 1;
    }
    proof {
        let ms = mappings_in(mappings@);
        assert forall|p: Names| #[trigger] maps(t, pkg, p) implies exists|k: int|
            0 <= k < ms.len() && (#[trigger] ms[k]).source == p by {
            assert(all.contains(p));
            let m = choose|m: int| 0 <= m < all.len() && all[m] == p;
            assert(maps(t, pkg, all[m]));
        }
    }
}


/// No mapping leaves its directories: the source of each lies under the
/// package directory, and the target lies under the target directory as the
/// source lies under the package directory.
pub proof fn lemma_mappings_stay_inside(
    ms: Seq<Mapping>,
    t: Tree,
    pkg: Names,
    target_root: Names,
    i: int,
)
    requires
        is_discovery(ms, t, pkg, target_root),
        0 <= i < ms.len(),
    ensures
        starts_with(ms[i].source, pkg),
        starts_with(ms[i].target, target_root),
        ms[i].target.skip(target_root.len() as int) == ms[i].source.skip(pkg.len() as int),
{
    assert(maps(t, pkg, ms[i].source));
    crate::path::lemma_rebased(ms[i].source, pkg, target_root);
    assert(ms[i].target.skip(target_root.len() as int) =~= ms[i].source.skip(pkg.len() as int));
}

/// The scripts of a package are left out of it where they lie directly in the
/// package directory, and are files like any other one directory further
/// down: a walk finds no mapping for `setup.sh` or `teardown.sh` in the
/// package directory itself, and finds one for each that is a regular file in
/// a directory `dir` of the package, unless `dir` is itself left out.
pub proof fn lemma_scripts_left_out_at_root_only(
    ms: Seq<Mapping>,
    t: Tree,
    pkg: Names,
    target_root: Names,
    dir: Seq<char>,
)
    requires
        is_discovery(ms, t, pkg, target_root),
    ensures
        forall|i: int|
            0 <= i < ms.len() ==> (#[trigger] ms[i]).source != pkg.push("setup.sh"@)
                && ms[i].source != pkg.push("teardown.sh"@),
        !skipped_at_root(dir) && entry(t, pkg.push(dir).push("setup.sh"@)) is Some && entry(
            t,
            pkg.push(dir).push("setup.sh"@),
        )->0 is File ==> exists|i: int|
            0 <= i < ms.len() && (#[trigger] ms[i]).source == pkg.push(dir).push("setup.sh"@)
                && ms[i].target == target_root.push(dir).push("setup.sh"@),
        !skipped_at_root(dir) && entry(t, pkg.push(dir).push("teardown.sh"@)) is Some && entry(
            t,
            pkg.push(dir).push("teardown.sh"@),
        )->0 is File ==> exists|i: int|
            0 <= i < ms.len() && (#[trigger] ms[i]).source == pkg.push(dir).push("teardown.sh"@)
                && ms[i].target == target_root.push(dir).push("teardown.sh"@),
{
    assert forall|i: int| 0 <= i < ms.len() implies (#[trigger] ms[i]).source != pkg.push(
        "setup.sh"@,
    ) && ms[i].source != pkg.push("teardown.sh"@) by {
        assert(maps(t, pkg, ms[i].source));
    }
    lemma_nested_file_found(ms, t, pkg, target_root, dir, "setup.sh"@);
    lemma_nested_file_found(ms, t, pkg, target_root, dir, "teardown.sh"@);
}

/// A walk finds each regular file that lies in a directory of the package
/// that is not left out, whatever the name of the file.
pub proof fn lemma_nested_file_found(
    ms: Seq<Mapping>,
    t: Tree,
    pkg: Names,
    target_root: Names,
    dir: Seq<char>,
    name: Seq<char>,
)
    requires
        is_discovery(ms, t, pkg, target_root),
    ensures
        !skipped_at_root(dir) && entry(t, pkg.push(dir).push(name)) is Some && entry(
            t,
            pkg.push(dir).push(name),
        )->0 is File ==> exists|i: int|
            0 <= i < ms.len() && (#[trigger] ms[i]).source == pkg.push(dir).push(name)
                && ms[i].target == target_root.push(dir).push(name),
{
    let p = pkg.push(dir).push(name);
    if !skipped_at_root(dir) && entry(t, p) is Some && entry(t, p)->0 is File {
        assert(p.subrange(0, pkg.len() as int) =~= pkg);
        assert(maps(t, pkg, p));
        let i = choose|i: int| 0 <= i < ms.len() && (#[trigger] ms[i]).source == p;
        assert(rebased(p, pkg, target_root) =~= target_root.push(dir).push(name));
    }
}

/// Whether `name` is a package of the repository at `repo`: a directory
/// directly in it, or a link there that leads to one, whose name does not
/// begin with a dot.
pub open spec fn is_package(t: Tree, repo: Names, name: Seq<char>) -> bool {
    &&& name.len() > 0
    &&& name[0] != '.'
    &&& t.dom().contains(repo.push(name))
    &&& kind_in(reached(t, repo.push(name))) == Some(Kind::Dir)
}

/// Whether `names` are the packages of the repository at `repo`, each once,
/// in the order of their names.
pub open spec fn is_package_list(names: Seq<Seq<char>>, t: Tree, repo: Names) -> bool {
    &&& forall|i: int| 0 <= i < names.len() ==> is_package(t, repo, #[trigger] names[i])
    &&& forall|i: int, j: int|
        0 <= i < j < names.len() ==> crate::order::name_before(
            #[trigger] names[i],
            #[trigger] names[j],
        )
    &&& forall|name: Seq<char>| #[trigger]
        is_package(t, repo, name) ==> names.contains(name)
}

/// The texts of a list, as the contracts see them.
pub open spec fn texts_in(list: Seq<String>) -> Seq<Seq<char>> {
    Seq::new(list.len(), |i: int| list[i]@)
}

/// Two paths in one directory stand in the order of their last names.
proof fn lemma_siblings_in_order(up: Names, a: Seq<char>, b: Seq<char>)
    requires
        path_before(up.push(a), up.push(b)),
    ensures
        crate::order::name_before(a, b),
{
    let x = up.push(a);
    let y = up.push(b);
    let k = choose|k: int| #[trigger]
        crate::order::agree_to(x, y, k) && (if k == x.len() {
            k < y.len()
        } else {
            k < y.len() && crate::order::name_before(x[k], y[k])
        });
    if k < up.len() {
        assert(x[k] == up[k] && y[k] == up[k]);
        crate::order::lemma_name_before_irreflexive(up[k]);
    }
}

/// The names of the packages in the repository at `stau_dir`, in the order
/// of their names: the directories directly in it whose names do not begin
/// with a dot.
pub fn list_packages(fs: &FileTree, stau_dir: &TreePath) -> (found: Result<Vec<String>, StauError>)
    ensures
        reached(fs@, stau_dir@) is None ==> seen(found) == Err::<Vec<String>, Fault>(
            Fault::StauDirNotFound(stau_dir@),
        ),
        reached(fs@, stau_dir@) is Some ==> found is Ok && is_package_list(
            texts_in(found->Ok_0@),
            fs@,
            stau_dir@,
        ),
{
    if !fs.resolves(stau_dir) {
        return Err(StauError::StauDirNotFound(stau_dir.clone()));
    }
    proof {
        use_type_invariant(fs);
        fs.lemma_sound();
    }
    let ghost t = fs@;
    let ghost all = listing(t);
    let ghost repo = stau_dir@;
    let depth = stau_dir.len();
    let mut packages: Vec<String> = Vec::new();
    let n = fs.count();
    let mut i: usize = 0;
    while i < n
        invariant
            t == fs@,
            all == listing(t),
            lists(all, t),
            repo == stau_dir@,
            depth == repo.len(),
            n == all.len(),
            i <= n,
            forall|k: int|
                0 <= k < packages@.len() ==> is_package(t, repo, #[trigger] texts_in(packages@)[k]),
            forall|k: int, m: int|
                0 <= k < m < packages@.len() ==> path_before(
                    repo.push(#[trigger] texts_in(packages@)[k]),
                    repo.push(#[trigger] texts_in(packages@)[m]),
                ),
            forall|k: int, m: int|
                0 <= k < packages@.len() && i <= m < n ==> path_before(
                    repo.push(#[trigger] texts_in(packages@)[k]),
                    #[trigger] all[m],
                ),
            forall|m: int, name: Seq<char>|
                0 <= m < i && #[trigger] all[m] == repo.push(name) && #[trigger] is_package(
                    t,
                    repo,
                    name,
                ) ==> texts_in(packages@).contains(name),
        decreases n - i,
    {
        let path = fs.path_at(i);
        let ghost before = texts_in(packages@);
        let ghost here = all[i as int];
        let length = path.len();
        if length > depth && length - 1 == depth && path.starts_with(stau_dir) {
            let name = path.name(depth);
            proof {
                assert(here =~= repo.push(name@)) by {
                    assert(here.subrange(0, repo.len() as int) == repo);
                }
                assert(all.contains(here));
            }
            if name.unicode_len() > 0 && name.get_char(0) != '.' && fs.is_dir(path) {
                packages.push(String::from_str(name));
                proof {
                    let after = texts_in(packages@);
                    assert(after =~= before.push(name@));
                    assert forall|m: int, other: Seq<char>|
                        0 <= m < i + 1 && #[trigger] all[m] == repo.push(other)
                            && #[trigger] is_package(t, repo, other) implies after.contains(
                        other,
                    ) by {
                        if m < i {
                            assert(before.contains(other));
                            let k = choose|k: int| 0 <= k < before.len() && before[k] == other;
                            assert(after[k] == other);
                        } else {
                            assert(repo.push(other).last() == other);
                            assert(repo.push(name@).last() == name@);
                            assert(after[before.len() as int] == other);
                        }
                    }
                }
            } else {
                proof {
                    assert forall|m: int, other: Seq<char>|
                        0 <= m < i + 1 && #[trigger] all[m] == repo.push(other)
                            && #[trigger] is_package(t, repo, other) implies before.contains(
                        other,
                    ) by {
                        if m == i {
                            assert(repo.push(other).last() == other);
                            assert(repo.push(name@).last() == name@);
                        }
                    }
                }
            }
        } else {
            proof {
                assert forall|m: int, other: Seq<char>|
                    0 <= m < i + 1 && #[trigger] all[m] == repo.push(other) && #[trigger] is_package(
                        t,
                        repo,
                        other,
                    ) implies before.contains(other) by {
                    if m == i {
                        assert(path@ == repo.push(other));
                        assert(path@.subrange(0, repo.len() as int) =~= repo);
                        assert(starts_with(path@, repo));
                        assert(path@.len() == depth + 1);
                    }
                }
            }
        }
        i += 1;
    }
    proof {
        let names = texts_in(packages@);
        assert forall|k: int, m: int| 0 <= k < m < names.len() implies crate::order::name_before(
            #[trigger] names[k],
            #[trigger] names[m],
        ) by {
            lemma_siblings_in_order(repo, names[k], names[m]);
        }
        assert forall|name: Seq<char>| #[trigger] is_package(t, repo, name) implies names.contains(
            name,
        ) by {
            let p = repo.push(name);
            assert(all.contains(p));
            let m = choose|m: int| 0 <= m < all.len() && all[m] == p;
            assert(all[m] == repo.push(name));
        }
    }
    Ok(packages)
}

} // verus!
