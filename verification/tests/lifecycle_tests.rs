use stau::adopt::{adopt_files, Adoption};
use stau::config::Config;
use stau::error::StauError;
use stau::lifecycle::{
    clean_broken_symlinks, install_package, restow_package, teardown_due, uninstall_package,
    uninstall_package_internal, UninstallReport,
};
use stau::path::TreePath;
use stau::script::{script_call, script_result, teardown_warning, ScriptRun};
use stau::status::{list_status, show_status, FileStatus, PackageSummary};
use stau::file_tree::{Change, FileTree};
use stau::tree::Kind;

struct World {
    fs: FileTree,
    config: Config,
    stau_dir: TreePath,
    target_dir: TreePath,
}

fn world() -> World {
    let mut fs = FileTree::new();
    let stau_dir = TreePath::parse("/tmp/work/dotfiles");
    let target_dir = TreePath::parse("/tmp/work/home");
    fs.create_dir_all(&stau_dir).unwrap();
    fs.create_dir_all(&target_dir).unwrap();
    fs.take_changes();
    let config = Config {
        stau_dir: stau_dir.clone(),
        default_target: target_dir.clone(),
    };
    World {
        fs,
        config,
        stau_dir,
        target_dir,
    }
}

fn content_for(file_path: &str) -> Vec<u8> {
    format!("test content for {}\n", file_path).into_bytes()
}

fn create_test_package(w: &mut World, package_name: &str, files: &[&str]) {
    let package_dir = w.stau_dir.join_text(package_name);
    w.fs.create_dir_all(&package_dir).unwrap();
    for file_path in files {
        let full_path = package_dir.join_text(file_path);
        w.fs.create_dir_all(&full_path.parent().unwrap()).unwrap();
        w.fs.create_file(&full_path, content_for(file_path)).unwrap();
    }
    w.fs.take_changes();
}

fn write(w: &mut World, path: &TreePath, content: &str) {
    w.fs.create_file(path, content.as_bytes().to_vec()).unwrap();
    w.fs.take_changes();
}

fn is_symlink(w: &World, path: &TreePath) -> bool {
    w.fs.kind(path) == Some(Kind::Link)
}

fn snapshot(fs: &FileTree) -> Vec<(String, Kind, Option<Vec<u8>>, Option<TreePath>)> {
    let mut all = Vec::new();
    for i in 0..fs.count() {
        let path = fs.path_at(i);
        all.push((
            path.render(),
            fs.kind_at(i),
            fs.read_file(path),
            fs.read_link(path),
        ));
    }
    all
}

fn install(w: &mut World, package: &str) -> Result<stau::lifecycle::InstallReport, StauError> {
    install_package(&mut w.fs, &w.config, package, None, false, false, false)
}

#[test]
fn test_install_and_uninstall_workflow() {
    let mut w = world();
    create_test_package(&mut w, "vim", &[".vimrc", ".vim/colors/theme.vim"]);

    let output = install(&mut w, "vim");
    assert!(output.is_ok(), "Install failed: {:?}", output);
    assert!(w.fs.resolves(&w.target_dir.join_text(".vimrc")));
    assert!(w.fs.resolves(&w.target_dir.join_text(".vim/colors/theme.vim")));
    assert!(is_symlink(&w, &w.target_dir.join_text(".vimrc")));

    let output = uninstall_package(&mut w.fs, &w.config, "vim", None, false, false);
    assert!(output.is_ok(), "Uninstall failed: {:?}", output);
    assert!(w.fs.resolves(&w.target_dir.join_text(".vimrc")));
    assert!(!is_symlink(&w, &w.target_dir.join_text(".vimrc")));
}

#[test]
fn test_install_with_setup_script() {
    let mut w = world();
    create_test_package(&mut w, "zsh", &[".zshrc"]);
    let marker_file = w.target_dir.join_text("setup-ran");
    let setup_script = w.stau_dir.join_text("zsh/setup.sh");
    write(&mut w, &setup_script, "#!/bin/bash\ntouch {}\n");

    let report = install(&mut w, "zsh");
    assert!(report.is_ok(), "Install with setup failed: {:?}", report);
    let report = report.unwrap();
    assert_eq!(report.setup_script, Some(setup_script.clone()));
    assert!(is_symlink(&w, &w.target_dir.join_text(".zshrc")));

    // The script is due after the links are made; the caller runs it.
    let call = script_call(&setup_script, "zsh", &w.stau_dir, &w.target_dir, false).unwrap();
    assert_eq!(call.program, setup_script);
    assert_eq!(call.working_dir, w.target_dir);
    assert_eq!(call.stau_dir, w.stau_dir);
    assert_eq!(call.stau_package, "zsh");
    assert_eq!(call.stau_target, w.target_dir);
    write(&mut w, &marker_file, "");
    let run = ScriptRun::Exited {
        success: true,
        code: Some(0),
    };
    assert_eq!(script_result(&setup_script, "zsh", run), Ok(()));
    assert!(w.fs.resolves(&marker_file), "Setup script didn't run");
}

#[test]
fn test_install_no_setup_flag() {
    let mut w = world();
    create_test_package(&mut w, "zsh", &[".zshrc"]);
    let setup_script = w.stau_dir.join_text("zsh/setup.sh");
    write(&mut w, &setup_script, "#!/bin/bash\ntouch {}\n");

    let report =
        install_package(&mut w.fs, &w.config, "zsh", None, true, false, false).unwrap();
    assert_eq!(
        report.setup_script, None,
        "Setup script ran when it shouldn't"
    );
    assert_eq!(report.mappings.len(), 1);
}

#[test]
fn test_list_command() {
    let mut w = world();
    create_test_package(&mut w, "vim", &[".vimrc"]);
    create_test_package(&mut w, "git", &[".gitconfig"]);

    install(&mut w, "vim").unwrap();

    let lines = list_status(&w.fs, &w.config, None).unwrap();
    let shown: Vec<(&str, PackageSummary)> =
        lines.iter().map(|l| (l.name.as_str(), l.summary)).collect();
    assert_eq!(
        shown,
        vec![
            ("git", PackageSummary::NotInstalled),
            ("vim", PackageSummary::Installed { links: 1 }),
        ]
    );
}

#[test]
fn test_adopt_command() {
    let mut w = world();
    let bashrc = w.target_dir.join_text(".bashrc");
    write(&mut w, &bashrc, "echo 'hello'");

    let output = adopt_files(
        &mut w.fs,
        &w.config,
        "bash",
        &vec![bashrc.clone()],
        None,
        false,
    );
    assert!(output.is_ok(), "Adopt failed: {:?}", output);
    assert!(is_symlink(&w, &bashrc), "File should be a symlink");
    let in_package = w.stau_dir.join_text("bash/.bashrc");
    assert_eq!(
        w.fs.kind(&in_package),
        Some(Kind::File),
        "File should be in package"
    );
    assert_eq!(w.fs.read_file(&in_package).unwrap(), b"echo 'hello'");
    assert_eq!(w.fs.read_link(&bashrc), Some(in_package.clone()));
    assert_eq!(
        output.unwrap(),
        vec![Adoption::Moved {
            from: bashrc.clone(),
            to: in_package.clone()
        }]
    );
    assert_eq!(
        w.fs.take_changes(),
        vec![
            Change::MakeDirs(w.stau_dir.join_text("bash")),
            Change::MakeDirs(w.stau_dir.join_text("bash")),
            Change::Move {
                from: bashrc.clone(),
                to: in_package.clone()
            },
            Change::MakeDirs(w.target_dir.clone()),
            Change::MakeLink {
                link: bashrc.clone(),
                points_to: in_package.clone()
            },
        ]
    );
}

#[test]
fn test_status_command() {
    let mut w = world();
    create_test_package(&mut w, "vim", &[".vimrc"]);

    let report = show_status(&w.fs, &w.config, "vim", None).unwrap();
    assert_eq!(report.package_dir, w.stau_dir.join_text("vim"));
    assert_eq!(report.target_dir, w.target_dir);
    assert_eq!(report.setup_script, None);
    assert_eq!(report.teardown_script, None);
    assert_eq!(report.files.len(), 1);
    assert_eq!(report.files[0].target, w.target_dir.join_text(".vimrc"));
    assert_eq!(report.files[0].status, FileStatus::NotInstalled);
    assert_eq!(
        (report.installed, report.not_installed, report.broken),
        (0, 1, 0)
    );
    assert_eq!(report.conflicts, 0);
}

#[test]
fn test_dry_run_mode() {
    let mut w = world();
    create_test_package(&mut w, "vim", &[".vimrc"]);
    let before = snapshot(&w.fs);

    let report = install_package(&mut w.fs, &w.config, "vim", None, false, false, true).unwrap();
    assert_eq!(report.mappings.len(), 1);
    assert!(
        !w.fs.resolves(&w.target_dir.join_text(".vimrc")),
        "Dry run should not create files"
    );
    assert_eq!(snapshot(&w.fs), before);
    assert!(w.fs.take_changes().is_empty());
}

#[test]
fn test_conflict_detection() {
    let mut w = world();
    create_test_package(&mut w, "vim", &[".vimrc"]);
    let conflict = w.target_dir.join_text(".vimrc");
    write(&mut w, &conflict, "existing content");
    let before = snapshot(&w.fs);

    let output = install(&mut w, "vim");
    assert!(output.is_err(), "Should fail due to conflict");
    let err = output.unwrap_err();
    assert_eq!(err, StauError::ConflictingFile(conflict.clone()));
    assert_eq!(err.exit_code(), 2, "Should exit with code 2");
    assert_eq!(snapshot(&w.fs), before);
    assert!(w.fs.take_changes().is_empty());
}

#[test]
fn test_restow_command() {
    let mut w = world();
    create_test_package(&mut w, "vim", &[".vimrc"]);
    install(&mut w, "vim").unwrap();
    let link = w.target_dir.join_text(".vimrc");
    assert!(is_symlink(&w, &link));

    let output = restow_package(&mut w.fs, &w.config, "vim", None, false, false);
    assert!(output.is_ok(), "Restow failed: {:?}", output);
    let report = output.unwrap();
    assert_eq!(report.removed, 1);
    assert_eq!(report.install.mappings.len(), 1);
    assert!(is_symlink(&w, &link));
    assert_eq!(w.fs.read_link(&link), Some(w.stau_dir.join_text("vim/.vimrc")));
}

#[test]
fn integration_test_test_package_not_found_error() {
    let mut w = world();
    let output = install(&mut w, "nonexistent");
    let err = output.unwrap_err();
    assert_eq!(err, StauError::PackageNotFound("nonexistent".to_string()));
    assert_eq!(err.exit_code(), 1, "Should exit with code 1");
}

#[test]
fn test_force_flag_overwrites_file() {
    let mut w = world();
    create_test_package(&mut w, "vim", &[".vimrc"]);
    let conflict_file = w.target_dir.join_text(".vimrc");
    write(&mut w, &conflict_file, "existing content");

    let output = install(&mut w, "vim");
    assert!(output.is_err(), "Should fail without --force");
    assert!(!is_symlink(&w, &conflict_file));

    let output = install_package(&mut w.fs, &w.config, "vim", None, false, true, false);
    assert!(output.is_ok(), "Should succeed with --force: {:?}", output);
    assert!(is_symlink(&w, &conflict_file));
    assert_eq!(
        w.fs.take_changes(),
        vec![
            Change::RemoveFile(conflict_file.clone()),
            Change::MakeDirs(w.target_dir.clone()),
            Change::MakeLink {
                link: conflict_file.clone(),
                points_to: w.stau_dir.join_text("vim/.vimrc")
            },
        ]
    );
}

#[test]
fn test_force_flag_overwrites_directory() {
    let mut w = world();
    create_test_package(&mut w, "config", &[".config"]);
    let conflict_dir = w.target_dir.join_text(".config");
    w.fs.create_dir_all(&conflict_dir).unwrap();
    write(&mut w, &conflict_dir.join_text("old_file.txt"), "old content");

    let output = install(&mut w, "config");
    assert!(output.is_err(), "Should fail without --force");
    assert_eq!(w.fs.kind(&conflict_dir), Some(Kind::Dir));

    let output = install_package(&mut w.fs, &w.config, "config", None, false, true, false);
    assert!(output.is_ok(), "Should succeed with --force: {:?}", output);
    assert!(is_symlink(&w, &w.target_dir.join_text(".config")));
    assert!(!w.fs.resolves(&conflict_dir.join_text("old_file.txt")));
}

#[test]
fn test_uninstall_force_flag() {
    let mut w = world();
    create_test_package(&mut w, "vim", &[".vimrc"]);
    install(&mut w, "vim").unwrap();
    assert!(is_symlink(&w, &w.target_dir.join_text(".vimrc")));

    let output = uninstall_package(&mut w.fs, &w.config, "vim", None, true, false);
    assert!(
        output.is_ok(),
        "Uninstall with --force should succeed: {:?}",
        output
    );
    assert!(w.fs.resolves(&w.target_dir.join_text(".vimrc")));
    assert!(!is_symlink(&w, &w.target_dir.join_text(".vimrc")));
}

fn break_link(w: &mut World, target: &str) {
    let target_path = w.target_dir.join_text(target);
    w.fs.remove_file(&target_path).unwrap();
    let broken_target = w.stau_dir.join_text("vim/.nonexistent");
    w.fs.make_link(&broken_target, &target_path).unwrap();
    w.fs.take_changes();
}

#[test]
fn test_clean_command() {
    let mut w = world();
    create_test_package(&mut w, "vim", &[".vimrc", ".vim/plugin.vim"]);
    install(&mut w, "vim").unwrap();
    break_link(&mut w, ".vimrc");
    let target_vimrc = w.target_dir.join_text(".vimrc");
    assert!(w.fs.kind(&target_vimrc).is_some());
    assert!(!w.fs.resolves(&target_vimrc));

    let output = clean_broken_symlinks(&mut w.fs, &w.config, "vim", None, false);
    assert!(output.is_ok(), "Clean should succeed: {:?}", output);
    assert_eq!(output, Ok(1));
    assert!(
        w.fs.kind(&target_vimrc).is_none(),
        "Broken symlink should be completely removed"
    );
    assert!(is_symlink(&w, &w.target_dir.join_text(".vim/plugin.vim")));
    assert_eq!(w.fs.take_changes(), vec![Change::RemoveFile(target_vimrc)]);
}

#[test]
fn test_clean_no_broken_symlinks() {
    let mut w = world();
    create_test_package(&mut w, "vim", &[".vimrc"]);
    install(&mut w, "vim").unwrap();
    w.fs.take_changes();

    // "No broken symlinks" is the count nought.
    assert_eq!(
        clean_broken_symlinks(&mut w.fs, &w.config, "vim", None, false),
        Ok(0)
    );
    assert!(w.fs.take_changes().is_empty());
    assert!(is_symlink(&w, &w.target_dir.join_text(".vimrc")));
}

#[test]
fn test_uninstall_with_teardown_script() {
    let mut w = world();
    create_test_package(&mut w, "zsh", &[".zshrc"]);
    let marker_file = w.target_dir.join_text("teardown-ran");
    let teardown_script = w.stau_dir.join_text("zsh/teardown.sh");
    write(&mut w, &teardown_script, "#!/bin/bash\ntouch {}\n");
    install_package(&mut w.fs, &w.config, "zsh", None, true, false, false).unwrap();

    let due = teardown_due(&w.fs, &w.config, "zsh", false).unwrap();
    assert_eq!(due, Some(teardown_script.clone()));
    let call = script_call(&teardown_script, "zsh", &w.stau_dir, &w.target_dir, false);
    assert!(call.is_some());
    write(&mut w, &marker_file, "");

    let output = uninstall_package(&mut w.fs, &w.config, "zsh", None, false, false);
    assert!(output.is_ok(), "Uninstall with teardown failed: {:?}", output);
    assert!(w.fs.resolves(&marker_file), "Teardown script didn't run");
}

#[test]
fn test_uninstall_no_teardown_flag() {
    let mut w = world();
    create_test_package(&mut w, "zsh", &[".zshrc"]);
    let teardown_script = w.stau_dir.join_text("zsh/teardown.sh");
    write(&mut w, &teardown_script, "#!/bin/bash\ntouch {}\n");
    install_package(&mut w.fs, &w.config, "zsh", None, true, false, false).unwrap();

    assert_eq!(
        teardown_due(&w.fs, &w.config, "zsh", true),
        Ok(None),
        "Teardown script ran when it shouldn't"
    );
    assert!(uninstall_package(&mut w.fs, &w.config, "zsh", None, false, false).is_ok());
}

#[test]
fn test_teardown_script_failure_continues() {
    let mut w = world();
    create_test_package(&mut w, "vim", &[".vimrc"]);
    let teardown_script = w.stau_dir.join_text("vim/teardown.sh");
    write(&mut w, &teardown_script, "#!/bin/bash\nexit 1\n");
    install_package(&mut w.fs, &w.config, "vim", None, true, false, false).unwrap();

    let due = teardown_due(&w.fs, &w.config, "vim", false).unwrap().unwrap();
    let ended = script_result(
        &due,
        "vim",
        ScriptRun::Exited {
            success: false,
            code: Some(1),
        },
    );
    assert!(ended.is_err());
    let warning = teardown_warning(&ended).unwrap();
    assert!(warning.starts_with(
        "Teardown script failed: Teardown script failed for package vim: teardown script failed with exit code 1"
    ));

    let output = uninstall_package(&mut w.fs, &w.config, "vim", None, false, false);
    assert!(
        output.is_ok(),
        "Uninstall should succeed even if teardown fails"
    );
    assert!(!is_symlink(&w, &w.target_dir.join_text(".vimrc")));
}

#[test]
fn test_adopt_multiple_files() {
    let mut w = world();
    let bashrc = w.target_dir.join_text(".bashrc");
    let zshrc = w.target_dir.join_text(".zshrc");
    write(&mut w, &bashrc, "echo 'bash'");
    write(&mut w, &zshrc, "echo 'zsh'");

    let output = adopt_files(
        &mut w.fs,
        &w.config,
        "shell",
        &vec![bashrc.clone(), zshrc.clone()],
        None,
        false,
    );
    assert!(output.is_ok(), "Adopt failed: {:?}", output);
    assert!(is_symlink(&w, &bashrc), ".bashrc should be a symlink");
    assert!(is_symlink(&w, &zshrc), ".zshrc should be a symlink");
    assert!(w.fs.resolves(&w.stau_dir.join_text("shell/.bashrc")));
    assert!(w.fs.resolves(&w.stau_dir.join_text("shell/.zshrc")));
}

#[test]
fn test_partial_install_status() {
    let mut w = world();
    create_test_package(&mut w, "vim", &[".vimrc", ".vim/plugin.vim"]);
    install(&mut w, "vim").unwrap();

    w.fs.remove_file(&w.target_dir.join_text(".vimrc")).unwrap();

    let lines = list_status(&w.fs, &w.config, None).unwrap();
    assert_eq!(lines.len(), 1);
    assert_eq!(lines[0].name, "vim");
    assert_eq!(
        lines[0].summary,
        PackageSummary::Partial { links: 1, total: 2 }
    );
}

#[test]
fn test_install_empty_package() {
    let mut w = world();
    w.fs.create_dir_all(&w.stau_dir.join_text("empty")).unwrap();
    w.fs.take_changes();

    // "No files to link": no mappings, and nothing is changed.
    let report = install(&mut w, "empty").unwrap();
    assert!(report.mappings.is_empty());
    assert_eq!(report.setup_script, None);
    assert!(w.fs.take_changes().is_empty());
}

#[test]
fn a_package_without_files_still_has_its_setup_script_run() {
    let mut w = world();
    w.fs.create_dir_all(&w.stau_dir.join_text("empty")).unwrap();
    let setup_script = TreePath::parse("/tmp/work/dotfiles/empty/setup.sh");
    write(&mut w, &setup_script, "#!/bin/bash\n");

    let report = install(&mut w, "empty").unwrap();
    assert!(report.mappings.is_empty());
    assert_eq!(report.setup_script, Some(setup_script.clone()));
    assert!(w.fs.take_changes().is_empty());

    let skipped =
        install_package(&mut w.fs, &w.config, "empty", None, true, false, false).unwrap();
    assert_eq!(skipped.setup_script, None);
    let restowed = restow_package(&mut w.fs, &w.config, "empty", None, true, false).unwrap();
    assert_eq!(restowed.install.setup_script, Some(setup_script));
}

#[test]
fn test_list_with_empty_stau_dir() {
    let w = world();
    // "No packages found": the list is empty.
    assert_eq!(list_status(&w.fs, &w.config, None), Ok(vec![]));
}

#[test]
fn test_list_with_broken_symlinks() {
    let mut w = world();
    create_test_package(&mut w, "vim", &[".vimrc", ".vim/plugin.vim"]);
    install(&mut w, "vim").unwrap();
    break_link(&mut w, ".vimrc");

    let lines = list_status(&w.fs, &w.config, None).unwrap();
    assert_eq!(
        lines[0].summary,
        PackageSummary::Broken { links: 1, broken: 1 }
    );
    let report = show_status(&w.fs, &w.config, "vim", None).unwrap();
    assert_eq!(report.files[1].status, FileStatus::Broken);
    assert_eq!(report.broken, 1);
}

#[test]
fn test_adopt_nonexistent_file() {
    let mut w = world();
    let nonexistent = w.target_dir.join_text(".nonexistent");
    let before = snapshot(&w.fs);

    let output = adopt_files(
        &mut w.fs,
        &w.config,
        "test",
        &vec![nonexistent.clone()],
        None,
        false,
    );
    assert_eq!(output, Ok(vec![Adoption::Missing(nonexistent)]));
    // Only the package directory was made.
    let mut expected = before;
    expected.insert(
        0,
        ("/tmp/work/dotfiles/test".to_string(), Kind::Dir, None, None),
    );
    expected.sort_by(|a, b| a.0.cmp(&b.0));
    assert_eq!(snapshot(&w.fs), expected);
}

#[test]
fn test_adopt_file_outside_target() {
    let mut w = world();
    let outside_file = TreePath::parse("/tmp/work/outside.txt");
    write(&mut w, &outside_file, "content");

    let output = adopt_files(
        &mut w.fs,
        &w.config,
        "test",
        &vec![outside_file.clone()],
        None,
        false,
    );
    assert_eq!(output, Ok(vec![Adoption::Outside(outside_file.clone())]));
    assert_eq!(w.fs.kind(&outside_file), Some(Kind::File));
}

#[test]
fn test_adopt_with_existing_file_in_package() {
    let mut w = world();
    let package_dir = w.stau_dir.join_text("vim");
    w.fs.create_dir_all(&package_dir).unwrap();
    write(&mut w, &package_dir.join_text(".vimrc"), "existing");
    let vimrc = w.target_dir.join_text(".vimrc");
    write(&mut w, &vimrc, "new");

    let output = adopt_files(&mut w.fs, &w.config, "vim", &vec![vimrc.clone()], None, false);
    let err = output.unwrap_err();
    assert_eq!(
        err,
        StauError::ConflictingFile(package_dir.join_text(".vimrc"))
    );
    assert_eq!(err.exit_code(), 2);
    assert_eq!(w.fs.read_file(&vimrc).unwrap(), b"new");
    assert_eq!(
        w.fs.read_file(&package_dir.join_text(".vimrc")).unwrap(),
        b"existing"
    );
}

#[test]
fn test_clean_with_dry_run() {
    let mut w = world();
    create_test_package(&mut w, "vim", &[".vimrc"]);
    install(&mut w, "vim").unwrap();
    break_link(&mut w, ".vimrc");
    let before = snapshot(&w.fs);

    let output = clean_broken_symlinks(&mut w.fs, &w.config, "vim", None, true);
    assert_eq!(output, Ok(1));
    assert!(w.fs.kind(&w.target_dir.join_text(".vimrc")).is_some());
    assert_eq!(snapshot(&w.fs), before);
    assert!(w.fs.take_changes().is_empty());
}

#[test]
fn test_restow_with_run_setup() {
    let mut w = world();
    create_test_package(&mut w, "vim", &[".vimrc"]);
    let setup_script = w.stau_dir.join_text("vim/setup.sh");
    write(&mut w, &setup_script, "#!/bin/bash\ntouch {}\n");
    install_package(&mut w.fs, &w.config, "vim", None, true, false, false).unwrap();

    let report = restow_package(&mut w.fs, &w.config, "vim", None, true, false).unwrap();
    assert_eq!(
        report.install.setup_script,
        Some(setup_script),
        "Setup script should have run"
    );
    let report = restow_package(&mut w.fs, &w.config, "vim", None, false, false).unwrap();
    assert_eq!(report.install.setup_script, None);
}

#[test]
fn test_uninstall_empty_package() {
    let mut w = world();
    w.fs.create_dir_all(&w.stau_dir.join_text("empty")).unwrap();
    w.fs.take_changes();

    // "No symlinks to remove": nothing found, nothing removed.
    assert_eq!(
        uninstall_package(&mut w.fs, &w.config, "empty", None, false, false),
        Ok(UninstallReport {
            found: 0,
            removed: 0
        })
    );
    assert!(w.fs.take_changes().is_empty());
}

#[test]
fn test_status_with_conflict() {
    let mut w = world();
    create_test_package(&mut w, "vim", &[".vimrc"]);
    let conflict = w.target_dir.join_text(".vimrc");
    write(&mut w, &conflict, "conflict");

    let report = show_status(&w.fs, &w.config, "vim", None).unwrap();
    assert_eq!(report.files[0].status, FileStatus::Conflict);
    assert_eq!(
        (report.installed, report.not_installed, report.broken),
        (0, 1, 0)
    );
    assert_eq!(report.conflicts, 1);
}

#[test]
fn test_install_with_setup_script_failure() {
    let mut w = world();
    create_test_package(&mut w, "vim", &[".vimrc"]);
    let setup_script = w.stau_dir.join_text("vim/setup.sh");
    write(&mut w, &setup_script, "#!/bin/bash\nexit 1\n");

    let report = install(&mut w, "vim").unwrap();
    let due = report.setup_script.unwrap();
    let ended = script_result(
        &due,
        "vim",
        ScriptRun::Exited {
            success: false,
            code: Some(1),
        },
    );
    let err = ended.unwrap_err();
    assert_eq!(
        err,
        StauError::SetupScriptFailed {
            package: "vim".to_string(),
            message: "setup script failed with exit code 1".to_string()
        }
    );
    assert_eq!(err.exit_code(), 4);
    // The links that were made stay.
    assert!(is_symlink(&w, &w.target_dir.join_text(".vimrc")));
}

#[test]
fn installing_vim_links_both_files_and_lists_it_installed() {
    let mut w = world();
    create_test_package(&mut w, "vim", &[".vimrc", ".vim/colors/theme.vim"]);

    let report = install(&mut w, "vim").unwrap();
    assert_eq!(report.mappings.len(), 2);
    for file in [".vimrc", ".vim/colors/theme.vim"] {
        let link = w.target_dir.join_text(file);
        let source = w.stau_dir.join_text("vim").join_text(file);
        assert_eq!(w.fs.read_link(&link), Some(source.clone()));
        assert!(w.fs.is_file(&link));
        assert_eq!(w.fs.kind(&source), Some(Kind::File));
    }
    let lines = list_status(&w.fs, &w.config, None).unwrap();
    assert_eq!(lines.len(), 1);
    assert_eq!(lines[0].name, "vim");
    assert_eq!(lines[0].summary, PackageSummary::Installed { links: 2 });
}

#[test]
fn a_plain_file_in_the_way_stops_the_install_unless_forced() {
    let mut w = world();
    create_test_package(&mut w, "vim", &[".vimrc"]);
    let plain = w.target_dir.join_text(".vimrc");
    write(&mut w, &plain, "mine");

    let err = install(&mut w, "vim").unwrap_err();
    assert_eq!(err.exit_code(), 2);
    for i in 0..w.fs.count() {
        assert!(w.fs.kind_at(i) != Kind::Link);
    }

    let forced = install_package(&mut w.fs, &w.config, "vim", None, false, true, false);
    assert!(forced.is_ok());
    assert_eq!(
        w.fs.read_link(&plain),
        Some(w.stau_dir.join_text("vim/.vimrc"))
    );
}

#[test]
fn a_link_that_leads_nowhere_is_counted_broken_and_clean_removes_it_alone() {
    let mut w = world();
    create_test_package(&mut w, "vim", &[".vimrc", ".vim/colors/theme.vim"]);
    install(&mut w, "vim").unwrap();
    break_link(&mut w, ".vimrc");
    let broken = w.target_dir.join_text(".vimrc");

    let lines = list_status(&w.fs, &w.config, None).unwrap();
    assert_eq!(
        lines[0].summary,
        PackageSummary::Broken { links: 1, broken: 1 }
    );

    assert_eq!(
        clean_broken_symlinks(&mut w.fs, &w.config, "vim", None, false),
        Ok(1)
    );
    assert_eq!(w.fs.kind(&broken), None);
    let kept = w.target_dir.join_text(".vim/colors/theme.vim");
    assert_eq!(
        w.fs.read_link(&kept),
        Some(w.stau_dir.join_text("vim/.vim/colors/theme.vim"))
    );
    assert_eq!(w.fs.take_changes(), vec![Change::RemoveFile(broken)]);
}

#[test]
fn a_file_deleted_from_the_package_is_no_file_of_the_package_any_more() {
    let mut w = world();
    create_test_package(&mut w, "vim", &[".vimrc", ".vim/colors/theme.vim"]);
    install(&mut w, "vim").unwrap();

    // The file goes away behind the library's back. Its link leads nowhere
    // now, but the package is read anew and no longer holds the file, so the
    // link is at no target of the package.
    w.fs.remove_file(&w.stau_dir.join_text("vim/.vimrc")).unwrap();
    w.fs.take_changes();
    let stray = w.target_dir.join_text(".vimrc");
    assert!(w.fs.kind(&stray) == Some(Kind::Link) && !w.fs.resolves(&stray));

    let lines = list_status(&w.fs, &w.config, None).unwrap();
    assert_eq!(lines[0].summary, PackageSummary::Installed { links: 1 });
    assert_eq!(
        clean_broken_symlinks(&mut w.fs, &w.config, "vim", None, false),
        Ok(0)
    );
    assert_eq!(w.fs.kind(&stray), Some(Kind::Link));
}

#[test]
fn install_then_uninstall_puts_the_bytes_of_each_file_at_its_target() {
    let mut w = world();
    let files = [".vimrc", ".vim/colors/theme.vim", ".vim/autoload/plug.vim"];
    create_test_package(&mut w, "vim", &files);
    let package_before: Vec<_> = snapshot(&w.fs)
        .into_iter()
        .filter(|e| e.0.starts_with("/tmp/work/dotfiles"))
        .collect();

    install(&mut w, "vim").unwrap();
    let report = uninstall_package(&mut w.fs, &w.config, "vim", None, false, false).unwrap();
    assert_eq!(
        report,
        UninstallReport {
            found: 3,
            removed: 3
        }
    );
    for file in files {
        let target = w.target_dir.join_text(file);
        assert_eq!(w.fs.kind(&target), Some(Kind::File));
        assert_eq!(w.fs.read_file(&target).unwrap(), content_for(file));
    }
    for i in 0..w.fs.count() {
        assert!(w.fs.kind_at(i) != Kind::Link);
    }
    let package_after: Vec<_> = snapshot(&w.fs)
        .into_iter()
        .filter(|e| e.0.starts_with("/tmp/work/dotfiles"))
        .collect();
    assert_eq!(package_after, package_before);
}

#[test]
fn restow_copies_nothing_to_the_target() {
    let mut w = world();
    create_test_package(&mut w, "vim", &[".vimrc", ".vim/colors/theme.vim"]);
    install(&mut w, "vim").unwrap();
    // One link is missing, one target is foreign.
    w.fs.remove_file(&w.target_dir.join_text(".vimrc")).unwrap();
    let files_before: Vec<_> = snapshot(&w.fs)
        .into_iter()
        .filter(|e| e.1 == Kind::File)
        .collect();

    restow_package(&mut w.fs, &w.config, "vim", None, false, false).unwrap();
    let files_after: Vec<_> = snapshot(&w.fs)
        .into_iter()
        .filter(|e| e.1 == Kind::File)
        .collect();
    assert_eq!(files_after, files_before);
    assert!(is_symlink(&w, &w.target_dir.join_text(".vimrc")));
    assert!(is_symlink(&w, &w.target_dir.join_text(".vim/colors/theme.vim")));

    // A foreign file stops the restow after the removal, and still nothing
    // is copied.
    w.fs.remove_file(&w.target_dir.join_text(".vimrc")).unwrap();
    write(&mut w, &TreePath::parse("/tmp/work/home/.vimrc"), "mine");
    let files_before: Vec<_> = snapshot(&w.fs)
        .into_iter()
        .filter(|e| e.1 == Kind::File)
        .collect();
    let err = restow_package(&mut w.fs, &w.config, "vim", None, false, false).unwrap_err();
    assert_eq!(err.exit_code(), 2);
    let files_after: Vec<_> = snapshot(&w.fs)
        .into_iter()
        .filter(|e| e.1 == Kind::File)
        .collect();
    assert_eq!(files_after, files_before);
}

#[test]
fn every_operation_leaves_the_tree_alone_on_a_dry_run() {
    let mut w = world();
    create_test_package(&mut w, "vim", &[".vimrc", ".vim/colors/theme.vim"]);
    install(&mut w, "vim").unwrap();
    break_link(&mut w, ".vimrc");
    let stray = w.target_dir.join_text(".stray");
    write(&mut w, &stray, "adopt me");
    let before = snapshot(&w.fs);

    assert!(install_package(&mut w.fs, &w.config, "vim", None, false, true, true).is_ok());
    assert_eq!(
        uninstall_package(&mut w.fs, &w.config, "vim", None, true, true),
        Ok(UninstallReport {
            found: 2,
            removed: 1
        })
    );
    assert!(restow_package(&mut w.fs, &w.config, "vim", None, true, true).is_err());
    assert_eq!(
        clean_broken_symlinks(&mut w.fs, &w.config, "vim", None, true),
        Ok(1)
    );
    assert_eq!(
        adopt_files(&mut w.fs, &w.config, "new", &vec![stray.clone()], None, true),
        Ok(vec![Adoption::Moved {
            from: stray.clone(),
            to: w.stau_dir.join_text("new/.stray")
        }])
    );
    assert_eq!(snapshot(&w.fs), before);
    assert!(w.fs.take_changes().is_empty());

    // The real uninstall removes the link that the dry run counted.
    assert_eq!(
        uninstall_package(&mut w.fs, &w.config, "vim", None, true, false),
        Ok(UninstallReport {
            found: 2,
            removed: 1
        })
    );
}

#[test]
fn a_conflict_stops_the_install_and_earlier_links_stay() {
    let mut w = world();
    create_test_package(&mut w, "vim", &[".vimrc", ".vim/colors/theme.vim"]);
    let plain = w.target_dir.join_text(".vimrc");
    write(&mut w, &plain, "mine");

    let err = install(&mut w, "vim").unwrap_err();
    assert_eq!(err, StauError::ConflictingFile(plain.clone()));
    // `.vim/colors/theme.vim` comes first in the walk, so its link was made.
    assert!(is_symlink(&w, &w.target_dir.join_text(".vim/colors/theme.vim")));
    assert_eq!(w.fs.read_file(&plain).unwrap(), b"mine");
    let lines = list_status(&w.fs, &w.config, None).unwrap();
    assert_eq!(
        lines[0].summary,
        PackageSummary::Partial { links: 1, total: 2 }
    );
}

#[test]
fn uninstall_leaves_alone_what_is_not_the_packages() {
    let mut w = world();
    create_test_package(&mut w, "vim", &[".vimrc", ".gvimrc"]);
    create_test_package(&mut w, "other", &["file"]);
    let foreign_link = w.target_dir.join_text(".vimrc");
    w.fs.make_link(&w.stau_dir.join_text("other/file"), &foreign_link)
        .unwrap();
    write(&mut w, &TreePath::parse("/tmp/work/home/.gvimrc"), "plain");

    assert_eq!(
        uninstall_package(&mut w.fs, &w.config, "vim", None, false, false),
        Ok(UninstallReport {
            found: 2,
            removed: 0
        })
    );
    assert_eq!(
        w.fs.read_link(&foreign_link),
        Some(w.stau_dir.join_text("other/file"))
    );
    assert_eq!(
        w.fs.read_file(&w.target_dir.join_text(".gvimrc")).unwrap(),
        b"plain"
    );
}

#[test]
fn an_override_target_takes_the_place_of_the_default() {
    let mut w = world();
    create_test_package(&mut w, "vim", &[".vimrc"]);
    let elsewhere = TreePath::parse("/srv/other");
    install_package(
        &mut w.fs,
        &w.config,
        "vim",
        Some(elsewhere.clone()),
        false,
        false,
        false,
    )
    .unwrap();
    assert!(is_symlink(&w, &elsewhere.join_text(".vimrc")));
    assert_eq!(w.fs.kind(&w.target_dir.join_text(".vimrc")), None);
    let report = show_status(&w.fs, &w.config, "vim", Some(elsewhere.clone())).unwrap();
    assert_eq!(report.files[0].status, FileStatus::Installed);
    assert_eq!(report.installed, 1);
}

#[test]
fn adopting_a_directory_moves_all_that_it_holds() {
    let mut w = world();
    let dir = w.target_dir.join_text(".config/app");
    w.fs.create_dir_all(&dir.join_text("themes")).unwrap();
    write(&mut w, &dir.join_text("settings"), "a=1");
    write(&mut w, &dir.join_text("themes/dark"), "black");

    let output = adopt_files(&mut w.fs, &w.config, "app", &vec![dir.clone()], None, false);
    let dest = w.stau_dir.join_text("app/.config/app");
    assert_eq!(
        output,
        Ok(vec![Adoption::Moved {
            from: dir.clone(),
            to: dest.clone()
        }])
    );
    assert_eq!(w.fs.read_link(&dir), Some(dest.clone()));
    assert_eq!(w.fs.read_file(&dest.join_text("settings")).unwrap(), b"a=1");
    assert_eq!(
        w.fs.read_file(&dest.join_text("themes/dark")).unwrap(),
        b"black"
    );
    assert_eq!(w.fs.kind(&dir.join_text("settings")), None);
    assert!(w.fs.is_dir(&dir));
}

#[test]
fn missing_packages_are_reported_by_every_operation() {
    let mut w = world();
    let missing = StauError::PackageNotFound("ghost".to_string());
    assert_eq!(
        uninstall_package(&mut w.fs, &w.config, "ghost", None, false, false),
        Err(StauError::PackageNotFound("ghost".to_string()))
    );
    assert_eq!(
        restow_package(&mut w.fs, &w.config, "ghost", None, false, false).unwrap_err(),
        missing
    );
    assert_eq!(
        clean_broken_symlinks(&mut w.fs, &w.config, "ghost", None, false),
        Err(StauError::PackageNotFound("ghost".to_string()))
    );
    assert_eq!(
        show_status(&w.fs, &w.config, "ghost", None).unwrap_err(),
        missing
    );
    assert_eq!(
        teardown_due(&w.fs, &w.config, "ghost", false).unwrap_err(),
        missing
    );
}

#[test]
fn installing_twice_changes_nothing_the_second_time() {
    let mut w = world();
    create_test_package(&mut w, "vim", &[".vimrc", ".vim/colors/theme.vim"]);
    let first = install(&mut w, "vim").unwrap();
    assert_eq!(w.fs.take_changes().len(), 4);
    let after_first = snapshot(&w.fs);

    let second = install(&mut w, "vim").unwrap();
    assert_eq!(second.mappings, first.mappings);
    assert!(w.fs.take_changes().is_empty());
    assert_eq!(snapshot(&w.fs), after_first);
}

#[test]
fn a_dry_run_of_an_install_reports_what_the_install_reports() {
    let mut w = world();
    create_test_package(&mut w, "vim", &[".vimrc", ".vim/colors/theme.vim"]);
    let dry = install_package(&mut w.fs, &w.config, "vim", None, false, false, true).unwrap();
    let wet = install(&mut w, "vim").unwrap();
    assert_eq!(dry.mappings, wet.mappings);

    let mut w = world();
    create_test_package(&mut w, "vim", &[".vimrc", ".vim/colors/theme.vim"]);
    write(&mut w, &TreePath::parse("/tmp/work/home/.vimrc"), "mine");
    let dry = install_package(&mut w.fs, &w.config, "vim", None, false, false, true);
    let wet = install(&mut w, "vim");
    assert_eq!(
        dry.unwrap_err(),
        StauError::ConflictingFile(TreePath::parse("/tmp/work/home/.vimrc"))
    );
    assert_eq!(
        wet.unwrap_err(),
        StauError::ConflictingFile(TreePath::parse("/tmp/work/home/.vimrc"))
    );
}

#[test]
fn with_force_and_the_target_in_the_package_the_files_do_not_come_back() {
    // The package directory is its own target directory: with force, each
    // file is replaced by a link to itself, and nothing is left to copy back.
    let mut w = world();
    create_test_package(&mut w, "vim", &[".vimrc"]);
    let package_dir = w.stau_dir.join_text("vim");
    let report = install_package(
        &mut w.fs,
        &w.config,
        "vim",
        Some(package_dir.clone()),
        false,
        true,
        false,
    )
    .unwrap();
    assert_eq!(report.mappings.len(), 1);
    let file = package_dir.join_text(".vimrc");
    assert_eq!(w.fs.read_link(&file), Some(file.clone()));
    assert_eq!(
        uninstall_package(
            &mut w.fs,
            &w.config,
            "vim",
            Some(package_dir.clone()),
            false,
            false
        ),
        Ok(UninstallReport {
            found: 0,
            removed: 0
        })
    );
    assert_eq!(w.fs.kind(&file), Some(Kind::Link));
}

#[test]
fn the_round_trip_holds_with_the_repository_under_the_target() {
    // The usual layout: the repository lies in the home directory, which is
    // the target directory.
    let mut fs = FileTree::new();
    let home = TreePath::parse("/home/user");
    let stau_dir = home.join_text("dotfiles");
    let package_dir = stau_dir.join_text("vim");
    fs.create_dir_all(&package_dir.join_text(".vim/colors")).unwrap();
    fs.create_file(&package_dir.join_text(".vimrc"), b"set nocp".to_vec())
        .unwrap();
    fs.create_file(
        &package_dir.join_text(".vim/colors/theme.vim"),
        b"hi Normal".to_vec(),
    )
    .unwrap();
    fs.take_changes();
    let config = Config {
        stau_dir: stau_dir.clone(),
        default_target: home.clone(),
    };

    let report = install_package(&mut fs, &config, "vim", None, false, false, false).unwrap();
    assert_eq!(report.mappings.len(), 2);
    assert_eq!(
        fs.read_link(&home.join_text(".vimrc")),
        Some(package_dir.join_text(".vimrc"))
    );
    let again = install_package(&mut fs, &config, "vim", None, false, false, false).unwrap();
    assert_eq!(again.mappings, report.mappings);

    assert_eq!(
        uninstall_package(&mut fs, &config, "vim", None, false, false),
        Ok(UninstallReport {
            found: 2,
            removed: 2
        })
    );
    assert_eq!(
        fs.read_file(&home.join_text(".vimrc")),
        Some(b"set nocp".to_vec())
    );
    assert_eq!(
        fs.read_file(&home.join_text(".vim/colors/theme.vim")),
        Some(b"hi Normal".to_vec())
    );
    assert_eq!(
        fs.read_file(&package_dir.join_text(".vimrc")),
        Some(b"set nocp".to_vec())
    );
    assert_eq!(
        fs.read_file(&package_dir.join_text(".vim/colors/theme.vim")),
        Some(b"hi Normal".to_vec())
    );
}

#[test]
fn with_force_a_target_above_the_package_takes_the_package_away() {
    // The package holds a file named as the repository is: its target is the
    // repository itself, which force clears away.
    let mut fs = FileTree::new();
    let home = TreePath::parse("/home/user");
    let package_dir = home.join_text("dotfiles/vim");
    fs.create_dir_all(&package_dir).unwrap();
    fs.create_file(&package_dir.join_text("dotfiles"), b"x".to_vec())
        .unwrap();
    let config = Config {
        stau_dir: home.join_text("dotfiles"),
        default_target: home.clone(),
    };
    let before = snapshot(&fs);
    assert_eq!(
        install_package(&mut fs, &config, "vim", None, false, false, false),
        Err(StauError::ConflictingFile(home.join_text("dotfiles")))
    );
    assert_eq!(snapshot(&fs), before);

    assert!(install_package(&mut fs, &config, "vim", None, false, true, false).is_ok());
    assert_eq!(fs.kind(&package_dir), None);
    assert_eq!(
        uninstall_package(&mut fs, &config, "vim", None, false, false),
        Err(StauError::PackageNotFound("vim".to_string()))
    );
}

#[test]
fn removing_links_without_copying_leaves_the_targets_free() {
    let mut w = world();
    create_test_package(&mut w, "vim", &[".vimrc", ".vim/colors/theme.vim"]);
    install(&mut w, "vim").unwrap();
    let package_before: Vec<_> = snapshot(&w.fs)
        .into_iter()
        .filter(|e| e.0.starts_with("/tmp/work/dotfiles"))
        .collect();

    assert_eq!(
        uninstall_package_internal(&mut w.fs, &w.config, "vim", None, false, false, false),
        Ok(UninstallReport {
            found: 2,
            removed: 2
        })
    );
    assert_eq!(w.fs.kind(&w.target_dir.join_text(".vimrc")), None);
    assert_eq!(
        w.fs.kind(&w.target_dir.join_text(".vim/colors/theme.vim")),
        None
    );
    for i in 0..w.fs.count() {
        let path = w.fs.path_at(i).render();
        assert!(
            w.fs.kind_at(i) != Kind::File || path.starts_with("/tmp/work/dotfiles"),
            "a copy was left at {}",
            path
        );
    }
    let package_after: Vec<_> = snapshot(&w.fs)
        .into_iter()
        .filter(|e| e.0.starts_with("/tmp/work/dotfiles"))
        .collect();
    assert_eq!(package_after, package_before);
}

#[test]
fn restow_counts_the_links_that_it_removed() {
    let mut w = world();
    create_test_package(&mut w, "vim", &[".vimrc", ".gvimrc", ".vim/colors/theme.vim"]);
    install(&mut w, "vim").unwrap();
    w.fs.remove_file(&w.target_dir.join_text(".gvimrc")).unwrap();

    let report = restow_package(&mut w.fs, &w.config, "vim", None, false, false).unwrap();
    assert_eq!(report.removed, 2);
    assert_eq!(report.install.mappings.len(), 3);
    let dry = restow_package(&mut w.fs, &w.config, "vim", None, false, true).unwrap();
    assert_eq!(dry.removed, 3);
}
