use stau::error::{IoFailure, IoKind, StauError};
use stau::path::TreePath;

#[test]
fn error_test_package_not_found_error() {
    let err = StauError::PackageNotFound("vim".to_string());
    assert_eq!(err.exit_code(), 1);
    assert!(err.to_string().contains("vim"));
    assert!(err.to_string().contains("stau list"));
}

#[test]
fn test_conflicting_file_error() {
    let path = TreePath::parse("/home/user/.vimrc");
    let err = StauError::ConflictingFile(path.clone());
    assert_eq!(err.exit_code(), 2);
    assert!(err.to_string().contains("/home/user/.vimrc"));
    assert!(err.to_string().contains("--force"));
    assert!(err.to_string().contains("stau adopt"));
}

#[test]
fn test_permission_denied_error() {
    let err = StauError::PermissionDenied("Cannot write to /root".to_string());
    assert_eq!(err.exit_code(), 3);
    assert!(err.to_string().contains("Cannot write to /root"));
    assert!(err.to_string().contains("sudo"));
}

#[test]
fn test_setup_script_failed_error() {
    let err = StauError::SetupScriptFailed {
        package: "vim".to_string(),
        message: "script exited with code 1".to_string(),
    };
    assert_eq!(err.exit_code(), 4);
    assert!(err.to_string().contains("vim"));
    assert!(err.to_string().contains("script exited with code 1"));
    assert!(err.to_string().contains("--no-setup"));
}

#[test]
fn test_teardown_script_failed_error() {
    let err = StauError::TeardownScriptFailed {
        package: "zsh".to_string(),
        message: "script exited with code 2".to_string(),
    };
    assert_eq!(err.exit_code(), 4);
    assert!(err.to_string().contains("zsh"));
    assert!(err.to_string().contains("script exited with code 2"));
    assert!(err.to_string().contains("--no-teardown"));
}

#[test]
fn test_stau_dir_not_found_error() {
    let path = TreePath::parse("/home/user/dotfiles");
    let err = StauError::StauDirNotFound(path.clone());
    assert_eq!(err.exit_code(), 1);
    assert!(err.to_string().contains("/home/user/dotfiles"));
    assert!(err.to_string().contains("STAU_DIR"));
}

#[test]
fn test_invalid_path_error() {
    let path = TreePath::parse("/invalid/path");
    let err = StauError::InvalidPath(path.clone());
    assert_eq!(err.exit_code(), 1);
    assert!(err.to_string().contains("/invalid/path"));
}

#[test]
fn test_io_error() {
    let io_err = IoFailure::new(IoKind::NotFound, "file not found");
    let err = StauError::Io(io_err);
    assert_eq!(err.exit_code(), 3);
    assert!(err.to_string().contains("file not found"));
}

#[test]
fn test_other_error() {
    let err = StauError::Other("Something went wrong".to_string());
    assert_eq!(err.exit_code(), 1);
    assert!(err.to_string().contains("Something went wrong"));
}

#[test]
fn test_error_conversion_from_io() {
    let io_err = IoFailure::new(IoKind::PermissionDenied, "access denied");
    let stau_err: StauError = io_err.into();
    assert_eq!(stau_err.exit_code(), 3);
}

#[test]
fn error_messages_are_exact() {
    let err = StauError::PackageNotFound("vim".to_string());
    assert_eq!(
        err.to_string(),
        "Package not found: vim\nHint: Check that the package exists in your STAU_DIR. Use 'stau list' to see available packages."
    );
    let err = StauError::InvalidPath(TreePath::parse("invalid//path/"));
    assert_eq!(
        err.to_string(),
        "Invalid path: /invalid/path\nHint: The specified path is invalid or inaccessible."
    );
    let err = StauError::Io(IoFailure::new(IoKind::Other, "disk on fire"));
    assert_eq!(err.to_string(), "IO error: disk on fire");
    let err = StauError::Other("plain".to_string());
    assert_eq!(err.to_string(), "plain");
}

#[test]
fn refused_changes_become_errors_by_kind() {
    let path = TreePath::parse("/home/user/.config");
    let denied = StauError::refused(IoKind::PermissionDenied, "Cannot create directory", &path);
    assert_eq!(
        denied,
        StauError::PermissionDenied("Cannot create directory: /home/user/.config".to_string())
    );
    assert_eq!(denied.exit_code(), 3);
    let other = StauError::refused(IoKind::NotADirectory, "Cannot create directory", &path);
    assert_eq!(
        other,
        StauError::Io(IoFailure::new(
            IoKind::NotADirectory,
            "not a directory: /home/user/.config"
        ))
    );
    assert_eq!(other.exit_code(), 3);
}
