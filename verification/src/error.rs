//! The errors that the operations report, the text that tells a user of each,
//! and the code with which a program that met one should end.

use crate::path::{written, Names, TreePath};
use vstd::prelude::*;
use vstd::std_specs::convert::FromSpecImpl;
use vstd::string::StringExecFns;

verus! {

/// Why the file tree refused a change or a reading.
#[derive(Debug, Clone, Copy, PartialEq, Eq, Structural)]
pub enum IoKind {
    /// Nothing is at the path, or the directory that should hold it is missing.
    NotFound,
    /// The change is not allowed to the caller.
    PermissionDenied,
    /// Something is at the path already.
    AlreadyExists,
    /// A directory was needed and something else is there.
    NotADirectory,
    /// A file or a link was needed and a directory is there.
    IsADirectory,
    /// The change makes no sense for the paths it was given.
    InvalidInput,
    /// Any other failure.
    Other,
}

/// A failed reading or change of files: its kind and what is to be said of it.
#[derive(Debug, PartialEq, Eq)]
pub struct IoFailure {
    /// The kind of failure.
    pub kind: IoKind,
    /// The words that describe it.
    pub message: String,
}

impl IoFailure {
    /// A failure of the kind `kind`, described by `message`.
    pub fn new(kind: IoKind, message: &str) -> (failure: IoFailure)
        ensures
            failure.kind == kind,
            failure.message@ == message@,
    {
        IoFailure { kind, message: String::from_str(message) }
    }
}

/// What went wrong in an operation.
#[derive(Debug, PartialEq, Eq)]
pub enum StauError {
    /// No package of this name is in the repository.
    PackageNotFound(String),
    /// Something that the package does not own stands at the path.
    ConflictingFile(TreePath),
    /// A change was not allowed; the text says which.
    PermissionDenied(String),
    /// The setup script of the package failed.
    SetupScriptFailed { package: String, message: String },
    /// The teardown script of the package failed.
    TeardownScriptFailed { package: String, message: String },
    /// The repository of packages is not at the path.
    StauDirNotFound(TreePath),
    /// The path cannot be used for what was asked.
    InvalidPath(TreePath),
    /// A reading or a change of files failed.
    Io(IoFailure),
    /// Anything else; the text says what.
    Other(String),
}

/// An error as the contracts see it.
pub enum Fault {
    /// No package of this name is in the repository.
    PackageNotFound(Seq<char>),
    /// Something that the package does not own stands at the path.
    ConflictingFile(Names),
    /// A change was not allowed; the text says which.
    PermissionDenied(Seq<char>),
    /// The setup script of the package failed.
    SetupScriptFailed { package: Seq<char>, message: Seq<char> },
    /// The teardown script of the package failed.
    TeardownScriptFailed { package: Seq<char>, message: Seq<char> },
    /// The repository of packages is not at the path.
    StauDirNotFound(Names),
    /// The path cannot be used for what was asked.
    InvalidPath(Names),
    /// A reading or a change of files failed.
    Io(IoKind, Seq<char>),
    /// Anything else; the text says what.
    Other(Seq<char>),
}

impl View for StauError {
    type V = Fault;

    open spec fn view(&self) -> Fault {
        match self {
            StauError::PackageNotFound(name) => Fault::PackageNotFound(name@),
            StauError::ConflictingFile(path) => Fault::ConflictingFile(path@),
            StauError::PermissionDenied(text) => Fault::PermissionDenied(text@),
            StauError::SetupScriptFailed { package, message } => Fault::SetupScriptFailed {
                package: package@,
                message: message@,
            },
            StauError::TeardownScriptFailed { package, message } => Fault::TeardownScriptFailed {
                package: package@,
                message: message@,
            },
            StauError::StauDirNotFound(path) => Fault::StauDirNotFound(path@),
            StauError::InvalidPath(path) => Fault::InvalidPath(path@),
            StauError::Io(failure) => Fault::Io(failure.kind, failure.message@),
            StauError::Other(text) => Fault::Other(text@),
        }
    }
}

/// A result as the contracts see it: the error by its view.
pub open spec fn seen<T>(r: Result<T, StauError>) -> Result<T, Fault> {
    match r {
        Ok(value) => Ok(value),
        Err(e) => Err(e@),
    }
}

/// The code with which a program ends that met `fault`: 1 for what was not
/// found and for what has no code of its own, 2 for a conflicting file, 3 for
/// what the file system refused, 4 for a failed script.
pub open spec fn exit_code_of(fault: Fault) -> int {
    match fault {
        Fault::PackageNotFound(_) => 1,
        Fault::ConflictingFile(_) => 2,
        Fault::PermissionDenied(_) => 3,
        Fault::SetupScriptFailed { .. } => 4,
        Fault::TeardownScriptFailed { .. } => 4,
        Fault::StauDirNotFound(_) => 1,
        Fault::InvalidPath(_) => 1,
        Fault::Io(_, _) => 3,
        Fault::Other(_) => 1,
    }
}

/// The text that tells a user of `fault`.
pub open spec fn message_of(fault: Fault) -> Seq<char> {
    match fault {
        Fault::PackageNotFound(name) => "Package not found: "@ + name
            + "\nHint: Check that the package exists in your STAU_DIR. Use 'stau list' to see available packages."@,
        Fault::ConflictingFile(path) => "Conflicting file exists: "@ + written(path)
            + "\nHint: A file already exists at this location. Either:\n  - Remove the existing file manually\n  - Use --force to overwrite it (caution: this will delete the existing file)\n  - Adopt the existing file with 'stau adopt <package> "@
            + written(path) + "'"@,
        Fault::PermissionDenied(text) => "Permission denied: "@ + text
            + "\nHint: You may need elevated privileges. Try running with 'sudo' or check file permissions."@,
        Fault::SetupScriptFailed { package, message } => "Setup script failed for package "@
            + package + ": "@ + message + "\nHint: Check the setup script at <STAU_DIR>/"@ + package
            + "/setup.sh for errors. You can skip the setup script with --no-setup."@,
        Fault::TeardownScriptFailed { package, message } => "Teardown script failed for package "@
            + package + ": "@ + message + "\nHint: Check the teardown script at <STAU_DIR>/"@
            + package
            + "/teardown.sh for errors. You can skip the teardown script with --no-teardown."@,
        Fault::StauDirNotFound(path) => "STAU_DIR not found: "@ + written(path)
            + "\nHint: Create your dotfiles directory or set the STAU_DIR environment variable to point to your existing dotfiles."@,
        Fault::InvalidPath(path) => "Invalid path: "@ + written(path)
            + "\nHint: The specified path is invalid or inaccessible."@,
        Fault::Io(_, text) => "IO error: "@ + text,
        Fault::Other(text) => text,
    }
}

/// The words for a kind of failure.
pub open spec fn kind_words(kind: IoKind) -> Seq<char> {
    match kind {
        IoKind::NotFound => "entity not found"@,
        IoKind::PermissionDenied => "permission denied"@,
        IoKind::AlreadyExists => "entity already exists"@,
        IoKind::NotADirectory => "not a directory"@,
        IoKind::IsADirectory => "is a directory"@,
        IoKind::InvalidInput => "invalid input parameter"@,
        IoKind::Other => "other error"@,
    }
}

/// The error for a change that the file tree refused: of `kind`, met at `path`
/// while doing what `aim` says. A refusal for want of permission names the aim
/// and the path; any other is passed on with the words for its kind.
pub open spec fn refused_as(kind: IoKind, aim: Seq<char>, path: Names) -> Fault {
    if kind == IoKind::PermissionDenied {
        Fault::PermissionDenied(aim + ": "@ + written(path))
    } else {
        Fault::Io(kind, kind_words(kind) + ": "@ + written(path))
    }
}

impl StauError {
    /// The code with which a program that met this error should end.
    pub fn exit_code(&self) -> (code: i32)
        ensures
            code == exit_code_of(self@),
    {
        match self {
            StauError::PackageNotFound(_) => 1,
            StauError::ConflictingFile(_) => 2,
            StauError::PermissionDenied(_) => 3,
            StauError::SetupScriptFailed { .. } => 4,
            StauError::TeardownScriptFailed { .. } => 4,
            StauError::StauDirNotFound(_) => 1,
            StauError::InvalidPath(_) => 1,
            StauError::Io(_) => 3,
            StauError::Other(_) => 1,
        }
    }

    /// The text that tells a user of this error, with a hint at what to do.
    pub fn to_string(&self) -> (text: String)
        ensures
            text@ == message_of(self@),
    {
        match self {
            StauError::PackageNotFound(name) => {
                let mut text = String::from_str("Package not found: ");
                text.append(name.as_str());
                text.append(
                    "\nHint: Check that the package exists in your STAU_DIR. Use 'stau list' to see available packages.",
                );
                text
            },
            StauError::ConflictingFile(path) => {
                let shown = path.render();
                let mut text = String::from_str("Conflicting file exists: ");
                text.append(shown.as_str());
                text.append(
                    "\nHint: A file already exists at this location. Either:\n  - Remove the existing file manually\n  - Use --force to overwrite it (caution: this will delete the existing file)\n  - Adopt the existing file with 'stau adopt <package> ",
                );
                text.append(shown.as_str());
                text.append("'");
                text
            },
            StauError::PermissionDenied(what) => {
                let mut text = String::from_str("Permission denied: ");
                text.append(what.as_str());
                text.append(
                    "\nHint: You may need elevated privileges. Try running with 'sudo' or check file permissions.",
                );
                text
            },
            StauError::SetupScriptFailed { package, message } => {
                let mut text = String::from_str("Setup script failed for package ");
                text.append(package.as_str());
                text.append(": ");
                text.append(message.as_str());
                text.append("\nHint: Check the setup script at <STAU_DIR>/");
                text.append(package.as_str());
                text.append("/setup.sh for errors. You can skip the setup script with --no-setup.");
                text
            },
            StauError::TeardownScriptFailed { package, message } => {
                let mut text = String::from_str("Teardown script failed for package ");
                text.append(package.as_str());
                text.append(": ");
                text.append(message.as_str());
                text.append("\nHint: Check the teardown script at <STAU_DIR>/");
                text.append(package.as_str());
                text.append(
                    "/teardown.sh for errors. You can skip the teardown script with --no-teardown.",
                );
                text
            },
            StauError::StauDirNotFound(path) => {
                let shown = path.render();
                let mut text = String::from_str("STAU_DIR not found: ");
                text.append(shown.as_str());
                text.append(
                    "\nHint: Create your dotfiles directory or set the STAU_DIR environment variable to point to your existing dotfiles.",
                );
                text
            },
            StauError::InvalidPath(path) => {
                let shown = path.render();
                let mut text = String::from_str("Invalid path: ");
                text.append(shown.as_str());
                text.append("\nHint: The specified path is invalid or inaccessible.");
                text
            },
            StauError::Io(failure) => {
                let mut text = String::from_str("IO error: ");
                text.append(failure.message.as_str());
                text
            },
            StauError::Other(what) => what.clone(),
        }
    }

    /// The error for a change that the file tree refused: of `kind`, met at
    /// `path` while doing what `aim` says.
    pub fn refused(kind: IoKind, aim: &str, path: &TreePath) -> (e: StauError)
        ensures
            e@ == refused_as(kind, aim@, path@),
    {
        let shown = path.render();
        match kind {
            IoKind::PermissionDenied => {
                let mut text = String::from_str(aim);
                text.append(": ");
                text.append(shown.as_str());
                StauError::PermissionDenied(text)
            },
            _ => {
                let mut text = String::from_str(kind_text(kind));
                text.append(": ");
                text.append(shown.as_str());
                StauError::Io(IoFailure { kind, message: text })
            },
        }
    }
}

/// The words for a kind of failure.
pub fn kind_text(kind: IoKind) -> (words: &'static str)
    ensures
        words@ == kind_words(kind),
{
    match kind {
        IoKind::NotFound => "entity not found",
        IoKind::PermissionDenied => "permission denied",
        IoKind::AlreadyExists => "entity already exists",
        IoKind::NotADirectory => "not a directory",
        IoKind::IsADirectory => "is a directory",
        IoKind::InvalidInput => "invalid input parameter",
        IoKind::Other => "other error",
    }
}

impl From<IoFailure> for StauError {
    fn from(failure: IoFailure) -> (e: StauError) {
        StauError::Io(failure)
    }
}

impl FromSpecImpl<IoFailure> for StauError {
    open spec fn obeys_from_spec() -> bool {
        true
    }

    open spec fn from_spec(failure: IoFailure) -> StauError {
        StauError::Io(failure)
    }
}

} // verus!
