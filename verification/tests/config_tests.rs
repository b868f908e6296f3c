use stau::config::{Config, Environment};
use stau::error::StauError;
use stau::path::TreePath;
use stau::file_tree::FileTree;

fn temp_dir() -> (FileTree, TreePath) {
    let mut fs = FileTree::new();
    let dir = TreePath::parse("/tmp/work");
    fs.create_dir_all(&dir).unwrap();
    (fs, dir)
}

fn env(stau_dir: Option<&str>, stau_target: Option<&str>, home: Option<&str>) -> Environment {
    Environment {
        stau_dir: stau_dir.map(|s| s.to_string()),
        stau_target: stau_target.map(|s| s.to_string()),
        home: home.map(|s| s.to_string()),
    }
}

#[test]
fn test_config_with_stau_dir_env() {
    let (mut fs, temp_dir) = temp_dir();
    let stau_dir = temp_dir.join_text("dotfiles");
    fs.create_dir_all(&stau_dir).unwrap();

    let config = Config::new(
        &fs,
        &env(Some(&stau_dir.render()), None, Some("/home/user")),
    )
    .unwrap();
    assert_eq!(config.stau_dir, stau_dir);
}

#[test]
fn test_config_stau_dir_not_found() {
    let (fs, temp_dir) = temp_dir();
    let nonexistent = temp_dir.join_text("nonexistent");

    let result = Config::new(
        &fs,
        &env(Some(&nonexistent.render()), None, Some("/home/user")),
    );
    assert!(result.is_err());
    assert!(matches!(result.unwrap_err(), StauError::StauDirNotFound(_)));
}

#[test]
fn test_config_with_stau_target_env() {
    let (mut fs, temp_dir) = temp_dir();
    let stau_dir = temp_dir.join_text("dotfiles");
    let target_dir = temp_dir.join_text("target");
    fs.create_dir_all(&stau_dir).unwrap();

    let config = Config::new(
        &fs,
        &env(Some(&stau_dir.render()), Some(&target_dir.render()), None),
    )
    .unwrap();
    assert_eq!(config.default_target, target_dir);
}

#[test]
fn test_get_target_with_override() {
    let (mut fs, temp_dir) = temp_dir();
    let stau_dir = temp_dir.join_text("dotfiles");
    let default_target = temp_dir.join_text("default");
    let override_target = temp_dir.join_text("override");

    fs.create_dir_all(&stau_dir).unwrap();

    let config = Config {
        stau_dir,
        default_target: default_target.clone(),
    };

    let target = config.get_target(Some(override_target.clone()));
    assert_eq!(target, override_target);

    let target = config.get_target(None);
    assert_eq!(target, default_target);
}

#[test]
fn test_get_package_dir() {
    let (mut fs, temp_dir) = temp_dir();
    let stau_dir = temp_dir.join_text("dotfiles");
    fs.create_dir_all(&stau_dir).unwrap();

    let config = Config {
        stau_dir: stau_dir.clone(),
        default_target: temp_dir.clone(),
    };

    let package_dir = config.get_package_dir("vim");
    assert_eq!(package_dir, stau_dir.join_text("vim"));
}

#[test]
fn test_package_exists() {
    let (mut fs, temp_dir) = temp_dir();
    let stau_dir = temp_dir.join_text("dotfiles");
    fs.create_dir_all(&stau_dir).unwrap();

    let vim_dir = stau_dir.join_text("vim");
    fs.create_dir_all(&vim_dir).unwrap();

    let config = Config {
        stau_dir: stau_dir.clone(),
        default_target: temp_dir.clone(),
    };

    assert!(config.package_exists(&fs, "vim"));
    assert!(!config.package_exists(&fs, "nonexistent"));
}

#[test]
fn test_get_setup_script() {
    let (mut fs, temp_dir) = temp_dir();
    let stau_dir = temp_dir.join_text("dotfiles");
    fs.create_dir_all(&stau_dir).unwrap();

    let vim_dir = stau_dir.join_text("vim");
    fs.create_dir_all(&vim_dir).unwrap();

    let setup_script = vim_dir.join_text("setup.sh");
    fs.create_file(&setup_script, "#!/bin/bash\necho test".as_bytes().to_vec())
        .unwrap();

    let config = Config {
        stau_dir: stau_dir.clone(),
        default_target: temp_dir.clone(),
    };

    let script = config.get_setup_script(&fs, "vim");
    assert!(script.is_some());
    assert_eq!(script.unwrap(), setup_script);

    let script = config.get_setup_script(&fs, "git");
    assert!(script.is_none());
}

#[test]
fn test_get_teardown_script() {
    let (mut fs, temp_dir) = temp_dir();
    let stau_dir = temp_dir.join_text("dotfiles");
    fs.create_dir_all(&stau_dir).unwrap();

    let vim_dir = stau_dir.join_text("vim");
    fs.create_dir_all(&vim_dir).unwrap();

    let teardown_script = vim_dir.join_text("teardown.sh");
    fs.create_file(
        &teardown_script,
        "#!/bin/bash\necho test".as_bytes().to_vec(),
    )
    .unwrap();

    let config = Config {
        stau_dir: stau_dir.clone(),
        default_target: temp_dir.clone(),
    };

    let script = config.get_teardown_script(&fs, "vim");
    assert!(script.is_some());
    assert_eq!(script.unwrap(), teardown_script);

    let script = config.get_teardown_script(&fs, "git");
    assert!(script.is_none());
}

#[test]
fn test_setup_script_not_directory() {
    let (mut fs, temp_dir) = temp_dir();
    let stau_dir = temp_dir.join_text("dotfiles");
    fs.create_dir_all(&stau_dir).unwrap();

    let vim_dir = stau_dir.join_text("vim");
    fs.create_dir_all(&vim_dir).unwrap();

    let setup_dir = vim_dir.join_text("setup.sh");
    fs.create_dir_all(&setup_dir).unwrap();

    let config = Config {
        stau_dir: stau_dir.clone(),
        default_target: temp_dir.clone(),
    };

    let script = config.get_setup_script(&fs, "vim");
    assert!(script.is_none());
}

#[test]
fn the_home_directory_stands_in_for_what_is_not_set() {
    let mut fs = FileTree::new();
    fs.create_dir_all(&TreePath::parse("/home/user/dotfiles"))
        .unwrap();

    let config = Config::new(&fs, &env(None, None, Some("/home/user"))).unwrap();
    assert_eq!(config.stau_dir, TreePath::parse("/home/user/dotfiles"));
    assert_eq!(config.default_target, TreePath::parse("/home/user"));

    assert_eq!(
        Config::new(&fs, &env(None, None, Some("/home/other"))),
        Err(StauError::StauDirNotFound(TreePath::parse(
            "/home/other/dotfiles"
        )))
    );
    assert_eq!(
        Config::new(&fs, &env(None, None, None)),
        Err(StauError::Other(
            "HOME environment variable not set".to_string()
        ))
    );
    assert_eq!(
        Config::new(&fs, &env(Some("/home/user/dotfiles"), None, None)),
        Err(StauError::Other(
            "HOME environment variable not set".to_string()
        ))
    );
    assert_eq!(
        Config::new(&fs, &env(None, Some("/srv/target"), None)),
        Err(StauError::Other(
            "HOME environment variable not set".to_string()
        ))
    );
    // The repository is looked for before the target.
    assert_eq!(
        Config::new(&fs, &env(Some("/nowhere"), None, None)),
        Err(StauError::StauDirNotFound(TreePath::parse("/nowhere")))
    );
}

#[test]
fn a_script_may_be_a_link_to_a_file() {
    let mut fs = FileTree::new();
    let vim = TreePath::parse("/dotfiles/vim");
    fs.create_dir_all(&vim).unwrap();
    fs.create_dir_all(&TreePath::parse("/shared")).unwrap();
    fs.create_file(&TreePath::parse("/shared/hook"), Vec::new())
        .unwrap();
    fs.make_link(&TreePath::parse("/shared/hook"), &vim.join_text("setup.sh"))
        .unwrap();
    fs.make_link(&TreePath::parse("/shared/gone"), &vim.join_text("teardown.sh"))
        .unwrap();
    let config = Config {
        stau_dir: TreePath::parse("/dotfiles"),
        default_target: TreePath::parse("/home"),
    };
    assert_eq!(
        config.get_setup_script(&fs, "vim"),
        Some(vim.join_text("setup.sh"))
    );
    assert_eq!(config.get_teardown_script(&fs, "vim"), None);
}
