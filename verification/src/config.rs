//! Where the repository of packages lies and where links are made by default.
//!
//! The library reads no environment. A caller hands it what three variables
//! hold: `STAU_DIR`, the repository; `STAU_TARGET`, the default target
//! directory; and `HOME`, which stands in for both.

use crate::error::{Fault, StauError};
use crate::path::{names_of, Names, TreePath};
use crate::file_tree::FileTree;
use crate::tree::{kind_in, reached, Kind, Tree};
use vstd::prelude::*;
use vstd::string::StringExecFns;

verus! {

/// What the environment holds of the variables that the library knows.
#[derive(Debug, PartialEq, Eq)]
pub struct Environment {
    /// The value of `STAU_DIR`, if it is set.
    pub stau_dir: Option<String>,
    /// The value of `STAU_TARGET`, if it is set.
    pub stau_target: Option<String>,
    /// The value of `HOME`, if it is set.
    pub home: Option<String>,
}

/// The environment as the contracts see it.
pub struct Variables {
    /// The value of `STAU_DIR`, if it is set.
    pub stau_dir: Option<Seq<char>>,
    /// The value of `STAU_TARGET`, if it is set.
    pub stau_target: Option<Seq<char>>,
    /// The value of `HOME`, if it is set.
    pub home: Option<Seq<char>>,
}

/// A text that may be missing, as the contracts see it.
pub open spec fn text_in(value: Option<String>) -> Option<Seq<char>> {
    match value {
        Some(text) => Some(text@),
        None => None,
    }
}

impl View for Environment {
    type V = Variables;

    open spec fn view(&self) -> Variables {
        Variables {
            stau_dir: text_in(self.stau_dir),
            stau_target: text_in(self.stau_target),
            home: text_in(self.home),
        }
    }
}

/// The repository and the default target directory.
#[derive(Debug, PartialEq, Eq)]
pub struct Config {
    /// The directory that holds the packages.
    pub stau_dir: TreePath,
    /// The directory under which links are made when no other is named.
    pub default_target: TreePath,
}

/// A configuration as the contracts see it.
pub struct Settings {
    /// The directory that holds the packages.
    pub stau_dir: Names,
    /// The directory under which links are made when no other is named.
    pub default_target: Names,
}

impl View for Config {
    type V = Settings;

    open spec fn view(&self) -> Settings {
        Settings { stau_dir: self.stau_dir@, default_target: self.default_target@ }
    }
}

impl Clone for Config {
    fn clone(&self) -> (copy: Self)
        ensures
            copy@ == self@,
    {
        Config { stau_dir: self.stau_dir.clone(), default_target: self.default_target.clone() }
    }
}

/// The home directory, or the error where `HOME` is not set.
pub open spec fn home_of(vars: Variables) -> Result<Names, Fault> {
    match vars.home {
        Some(text) => Ok(names_of(text)),
        None => Err(Fault::Other("HOME environment variable not set"@)),
    }
}

/// The repository: what `STAU_DIR` names or, where it is not set, `dotfiles`
/// in the home directory. It is an error where that directory is not there.
pub open spec fn repository_of(t: Tree, vars: Variables) -> Result<Names, Fault> {
    match vars.stau_dir {
        Some(text) => if reached(t, names_of(text)) is Some {
            Ok(names_of(text))
        } else {
            Err(Fault::StauDirNotFound(names_of(text)))
        },
        None => match home_of(vars) {
            Err(fault) => Err(fault),
            Ok(home) => if reached(t, home + names_of("dotfiles"@)) is Some {
                Ok(home + names_of("dotfiles"@))
            } else {
                Err(Fault::StauDirNotFound(home + names_of("dotfiles"@)))
            },
        },
    }
}

/// The default target directory: what `STAU_TARGET` names or, where it is not
/// set, the home directory.
pub open spec fn default_target_of(vars: Variables) -> Result<Names, Fault> {
    match vars.stau_target {
        Some(text) => Ok(names_of(text)),
        None => home_of(vars),
    }
}

/// The configuration that the environment gives, the repository looked for
/// first.
pub open spec fn configured(t: Tree, vars: Variables) -> Result<Settings, Fault> {
    match repository_of(t, vars) {
        Err(fault) => Err(fault),
        Ok(stau_dir) => match default_target_of(vars) {
            Err(fault) => Err(fault),
            Ok(default_target) => Ok(Settings { stau_dir, default_target }),
        },
    }
}

/// The directory of the package `package` in the repository.
pub open spec fn package_dir_of(settings: Settings, package: Seq<char>) -> Names {
    settings.stau_dir + names_of(package)
}

/// The target directory: the one named, or the default where none is.
pub open spec fn target_of(settings: Settings, named: Option<Names>) -> Names {
    match named {
        Some(target) => target,
        None => settings.default_target,
    }
}

/// The script `script` of the package `package`, where a regular file of that
/// name lies directly in the package directory, or a link there leads to one.
pub open spec fn script_of(t: Tree, settings: Settings, package: Seq<char>, script: Seq<char>) -> Option<
    Names,
> {
    let path = package_dir_of(settings, package) + names_of(script);
    if kind_in(reached(t, path)) == Some(Kind::File) {
        Some(path)
    } else {
        None
    }
}

/// A path that may be missing, as the contracts see it.
pub open spec fn names_in_option(path: Option<TreePath>) -> Option<Names> {
    match path {
        Some(p) => Some(p@),
        None => None,
    }
}

/// A configuration or an error, as the contracts see it.
pub open spec fn settings_in(made: Result<Config, StauError>) -> Result<Settings, Fault> {
    match made {
        Ok(config) => Ok(config@),
        Err(e) => Err(e@),
    }
}

/// A path or an error, as the contracts see it.
pub open spec fn names_in_result(made: Result<TreePath, StauError>) -> Result<Names, Fault> {
    match made {
        Ok(path) => Ok(path@),
        Err(e) => Err(e@),
    }
}

impl Config {
    /// The configuration that the environment `env` gives, in the tree `fs`.
    pub fn new(fs: &FileTree, env: &Environment) -> (made: Result<Config, StauError>)
        ensures
            settings_in(made) == configured(fs@, env@),
    {
        let stau_dir = match Self::get_stau_dir(fs, env) {
            Ok(path) => path,
            Err(e) => {
                return Err(e);
            },
        };
        let default_target = match Self::get_default_target(env) {
            Ok(path) => path,
            Err(e) => {
                return Err(e);
            },
        };
        Ok(Config { stau_dir, default_target })
    }

    /// The repository: what `STAU_DIR` names or, where it is not set,
    /// `dotfiles` in the home directory.
    fn get_stau_dir(fs: &FileTree, env: &Environment) -> (found: Result<TreePath, StauError>)
        ensures
            names_in_result(found) == repository_of(fs@, env@),
    {
        match &env.stau_dir {
            Some(text) => {
                let path = TreePath::parse(text.as_str());
                if fs.resolves(&path) {
                    Ok(path)
                } else {
                    Err(StauError::StauDirNotFound(path))
                }
            },
            None => {
                let home = match Self::get_home_dir(env) {
                    Ok(home) => home,
                    Err(e) => {
                        return Err(e);
                    },
                };
                let dotfiles = home.join_text("dotfiles");
                if fs.resolves(&dotfiles) {
                    Ok(dotfiles)
                } else {
                    Err(StauError::StauDirNotFound(dotfiles))
                }
            },
        }
    }

    /// The default target directory: what `STAU_TARGET` names or, where it is
    /// not set, the home directory.
    fn get_default_target(env: &Environment) -> (found: Result<TreePath, StauError>)
        ensures
            names_in_result(found) == default_target_of(env@),
    {
        match &env.stau_target {
            Some(text) => Ok(TreePath::parse(text.as_str())),
            None => Self::get_home_dir(env),
        }
    }

    /// The home directory.
    fn get_home_dir(env: &Environment) -> (found: Result<TreePath, StauError>)
        ensures
            names_in_result(found) == home_of(env@),
    {
        match &env.home {
            Some(text) => Ok(TreePath::parse(text.as_str())),
            None => Err(StauError::Other(String::from_str("HOME environment variable not set"))),
        }
    }

    /// The target directory: `override_target` where one is given, the
    /// default otherwise.
    pub fn get_target(&self, override_target: Option<TreePath>) -> (target: TreePath)
        ensures
            target@ == target_of(self@, names_in_option(override_target)),
    {
        match override_target {
            Some(target) => target,
            None => self.default_target.clone(),
        }
    }

    /// The directory of the package `package` in the repository.
    pub fn get_package_dir(&self, package: &str) -> (dir: TreePath)
        ensures
            dir@ == package_dir_of(self@, package@),
    {
        self.stau_dir.join_text(package)
    }

    /// Whether the repository holds the package `package`.
    pub fn package_exists(&self, fs: &FileTree, package: &str) -> (b: bool)
        ensures
            b == reached(fs@, package_dir_of(self@, package@)) is Some,
    {
        fs.resolves(&self.get_package_dir(package))
    }

    /// The setup script of the package `package`, if it has one.
    pub fn get_setup_script(&self, fs: &FileTree, package: &str) -> (script: Option<TreePath>)
        ensures
            names_in_option(script) == script_of(fs@, self@, package@, "setup.sh"@),
    {
        let script_path = self.get_package_dir(package).join_text("setup.sh");
        if fs.is_file(&script_path) {
            Some(script_path)
        } else {
            None
        }
    }

    /// The teardown script of the package `package`, if it has one.
    pub fn get_teardown_script(&self, fs: &FileTree, package: &str) -> (script: Option<TreePath>)
        ensures
            names_in_option(script) == script_of(fs@, self@, package@, "teardown.sh"@),
    {
        let script_path = self.get_package_dir(package).join_text("teardown.sh");
        if fs.is_file(&script_path) {
            Some(script_path)
        } else {
            None
        }
    }
}

} // verus!
