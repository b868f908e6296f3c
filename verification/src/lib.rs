//! A dotfile manager in the style of a directory-stowing tool.
//!
//! Configuration files are kept in packages, one directory each, in a
//! repository. Installing a package makes, for each of its files, a symbolic
//! link under a target directory that stores the path of the file. The
//! library decides which files a package holds, where each belongs, how a
//! path under the target stands to the package, and what installing,
//! uninstalling, restowing, adopting and cleaning change.
//!
//! The library touches no disk. It works on a file tree held in memory,
//! [`file_tree::FileTree`], which a caller fills with what stands on the disk
//! and which lists every change made to it, so that the caller can make the
//! same changes on the disk afterwards. It starts no process either: it names
//! the script that is due and is told how the script ended.
//!
//! - [`path`], [`order`]: paths as lists of names, and the order of a walk.
//! - [`tree`]: file trees and changes to them as the contracts see them.
//! - [`file_tree`]: the tree held in memory.
//! - [`error`]: the errors, their texts and exit codes.
//! - [`config`]: the repository and the default target directory.
//! - [`package`]: the files of a package and the packages of a repository.
//! - [`symlink`]: how a path stands to a package, and the changes to single
//!   links and files.
//! - [`lifecycle`], [`adopt`], [`status`]: the operations on a package.
//! - [`script`]: the scripts of a package.
//! - [`laws`]: what holds of the operations together.
//! - [`text`]: numbers written as text.

pub mod adopt;
pub mod config;
pub mod error;
pub mod file_tree;
pub mod laws;
pub mod lifecycle;
pub mod order;
pub mod package;
pub mod path;
pub mod script;
pub mod status;
pub mod symlink;
pub mod text;
pub mod tree;
