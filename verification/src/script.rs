//! The scripts of a package: how one is to be started, and what its end means
//! for the operation that started it.
//!
//! The library starts no process. It says with what a script is to be
//! started, and is told how the script ended.

use crate::error::{Fault, IoFailure, IoKind, StauError};
use crate::path::{written, Names, TreePath};
use crate::text::{signed_decimal, signed_decimal_text};
use vstd::prelude::*;
use vstd::string::StringExecFns;

verus! {

/// Which of the two scripts of a package a script is.
#[derive(Debug, Clone, Copy, PartialEq, Eq, Structural)]
pub enum ScriptKind {
    /// The script that is run after a package has been installed.
    Setup,
    /// The script that is run before a package is uninstalled.
    Teardown,
}

/// Which script stands at `path`: the setup script where the last name of the
/// path is `setup.sh`, the teardown script otherwise.
pub open spec fn kind_of_script(path: Names) -> ScriptKind {
    if path.len() > 0 && path.last() == "setup.sh"@ {
        ScriptKind::Setup
    } else {
        ScriptKind::Teardown
    }
}

/// Which script stands at `script_path`.
pub fn script_kind(script_path: &TreePath) -> (kind: ScriptKind)
    ensures
        kind == kind_of_script(script_path@),
{
    match script_path.file_name() {
        Some(name) => {
            if String::from_str(name) == String::from_str("setup.sh") {
                ScriptKind::Setup
            } else {
                ScriptKind::Teardown
            }
        },
        None => ScriptKind::Teardown,
    }
}

/// With what a script is to be started.
#[derive(Debug, PartialEq, Eq)]
pub struct ScriptCall {
    /// The script to run.
    pub program: TreePath,
    /// The directory in which it runs: the target directory.
    pub working_dir: TreePath,
    /// What it is told as `STAU_DIR`: the repository.
    pub stau_dir: TreePath,
    /// What it is told as `STAU_PACKAGE`: the name of the package.
    pub stau_package: String,
    /// What it is told as `STAU_TARGET`: the target directory.
    pub stau_target: TreePath,
}

/// How a script ended.
#[derive(Debug, PartialEq, Eq)]
pub enum ScriptRun {
    /// It ran and ended, with success or not, and with an exit code if the
    /// system gave one.
    Exited { success: bool, code: Option<i32> },
    /// It could not be started.
    NotStarted(IoFailure),
}

/// The words for the kind of a script.
pub open spec fn kind_word(kind: ScriptKind) -> Seq<char> {
    match kind {
        ScriptKind::Setup => "setup"@,
        ScriptKind::Teardown => "teardown"@,
    }
}

/// What is said of a script that ended without success.
pub open spec fn failure_words(kind: ScriptKind, code: Option<i32>) -> Seq<char> {
    kind_word(kind) + " script failed with exit code "@ + signed_decimal(
        match code {
            Some(c) => c as int,
            None => -1,
        },
    )
}

/// What the end of a script means: nothing is wrong where it ended with
/// success; a script that ended otherwise has failed, as the setup or the
/// teardown script of the package according to its name; one that could not
/// be started for want of permission is reported so, and any other failure
/// to start is passed on.
pub open spec fn verdict(script: Names, package: Seq<char>, run: ScriptRun) -> Result<(), Fault> {
    match run {
        ScriptRun::Exited { success, code } => if success {
            Ok(())
        } else {
            match kind_of_script(script) {
                ScriptKind::Setup => Err(
                    Fault::SetupScriptFailed {
                        package,
                        message: failure_words(ScriptKind::Setup, code),
                    },
                ),
                ScriptKind::Teardown => Err(
                    Fault::TeardownScriptFailed {
                        package,
                        message: failure_words(ScriptKind::Teardown, code),
                    },
                ),
            }
        },
        ScriptRun::NotStarted(failure) => if failure.kind == IoKind::PermissionDenied {
            Err(
                Fault::PermissionDenied(
                    "Cannot execute script: "@ + written(script)
                        + ". Make sure it's executable (chmod +x)"@,
                ),
            )
        } else {
            Err(Fault::Io(failure.kind, failure.message@))
        },
    }
}

/// Says with what the script at `script_path` is to be started for the
/// package `package_name`: in the target directory, and told the repository,
/// the name of the package and the target directory. On a dry run no script
/// is started.
pub fn script_call(
    script_path: &TreePath,
    package_name: &str,
    stau_dir: &TreePath,
    target_dir: &TreePath,
    dry_run: bool,
) -> (call: Option<ScriptCall>)
    ensures
        dry_run ==> call is None,
        !dry_run ==> call is Some && call->0.program@ == script_path@ && call->0.working_dir@
            == target_dir@ && call->0.stau_dir@ == stau_dir@ && call->0.stau_package@
            == package_name@ && call->0.stau_target@ == target_dir@,
{
    if dry_run {
        None
    } else {
        Some(
            ScriptCall {
                program: script_path.clone(),
                working_dir: target_dir.clone(),
                stau_dir: stau_dir.clone(),
                stau_package: String::from_str(package_name),
                stau_target: target_dir.clone(),
            },
        )
    }
}

/// Says what the end of the script at `script_path`, run for the package
/// `package_name`, means for the operation that started it.
pub fn script_result(script_path: &TreePath, package_name: &str, run: ScriptRun) -> (outcome:
    Result<(), StauError>)
    ensures
        crate::error::seen(outcome) == verdict(script_path@, package_name@, run),
{
    match run {
        ScriptRun::Exited { success, code } => {
            if success {
                return Ok(());
            }
            let kind = script_kind(script_path);
            let shown = match code {
                Some(c) => c,
                None => -1,
            };
            let mut message = String::from_str(
                match kind {
                    ScriptKind::Setup => "setup",
                    ScriptKind::Teardown => "teardown",
                },
            );
            message.append(" script failed with exit code ");
            message.append(signed_decimal_text(shown).as_str());
            let package = String::from_str(package_name);
            match kind {
                ScriptKind::Setup => Err(StauError::SetupScriptFailed { package, message }),
                ScriptKind::Teardown => Err(StauError::TeardownScriptFailed { package, message }),
            }
        },
        ScriptRun::NotStarted(failure) => {
            match failure.kind {
                IoKind::PermissionDenied => {
                    let mut text = String::from_str("Cannot execute script: ");
                    text.append(script_path.render().as_str());
                    text.append(". Make sure it's executable (chmod +x)");
                    Err(StauError::PermissionDenied(text))
                },
                _ => Err(StauError::Io(failure)),
            }
        },
    }
}

/// What is to be said when the teardown script of a package failed. Such a
/// failure stops nothing: there is a warning where the script failed, and
/// nothing where it did not.
pub open spec fn warning_of(outcome: Result<(), Fault>) -> Option<Seq<char>> {
    match outcome {
        Ok(()) => None,
        Err(fault) => Some("Teardown script failed: "@ + crate::error::message_of(fault)),
    }
}

/// The warning for a teardown script that ended as `outcome` says, if it
/// gives cause for one.
pub fn teardown_warning(outcome: &Result<(), StauError>) -> (warning: Option<String>)
    ensures
        match warning_of(crate::error::seen(*outcome)) {
            Some(words) => warning is Some && warning->0@ == words,
            None => warning is None,
        },
{
    match outcome {
        Ok(()) => None,
        Err(e) => {
            let mut text = String::from_str("Teardown script failed: ");
            text.append(e.to_string().as_str());
            Some(text)
        },
    }
}

} // verus!
