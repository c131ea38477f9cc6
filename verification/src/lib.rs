//! Filesystem-tree operations — pattern-based entry matching, recursive
//! directory listing, recursive copy and recursive removal — specified and
//! verified over an explicit snapshot of a directory tree.
//!
//! The snapshot model ([`tree::FsSnapshot`]) holds the paths and kinds of the
//! entries below a root; the operations on it state exactly which entries a
//! traversal yields and how copy and removal transform the tree. Glob matching
//! of a single pattern against a path is delegated to the `globset` crate
//! behind a small trusted boundary; the include/exclude overlay, the literal
//! prefix extraction and everything built on them are verified here.

pub mod access;
pub mod cp;
pub mod encoding;
pub mod fileflags;
pub mod errors;
pub mod glob;
pub mod laws;
pub mod tree;
pub mod paths;
pub mod mkdirop;
pub mod mkdtempop;
pub mod pattern;
pub mod readdir;
pub mod rm;
pub mod types;

pub use cp::CpOptions;
pub use glob::GlobOptions;
pub use glob::GlobResult;
pub use mkdirop::MkdirOptions;
pub use readdir::ReaddirOptions;
pub use rm::RmOptions;
pub use pattern::MatchRule;
pub use pattern::Matcher;
pub use pattern::Polarity;
pub use pattern::Verdict;
pub use tree::FsEntry;
pub use tree::FsSnapshot;
pub use types::Dirent;
pub use types::EntryKind;
