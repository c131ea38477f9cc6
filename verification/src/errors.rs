//! The error taxonomy and the message text each error carries.
//!
//! Every failure names a POSIX-style symbolic code, a short description, the
//! operation and the path (or path pair) involved, in the exact shape that
//! string-matching callers of a conventional scripting-platform filesystem
//! API expect.

use vstd::prelude::*;
use vstd::string::*;

verus! {

/// The failure classes the operations report.
#[derive(Clone, Copy, PartialEq, Eq, Structural, Debug)]
pub enum FsErrorKind {
    NotFound,
    AlreadyExists,
    PermissionDenied,
    NotADirectory,
    DirectoryNotEmpty,
    InvalidPattern,
    InvalidArgument,
    IsADirectory,
}

/// The symbolic code of each failure class.
pub open spec fn code_text(k: FsErrorKind) -> Seq<char> {
    match k {
        FsErrorKind::NotFound => "ENOENT"@,
        FsErrorKind::AlreadyExists => "EEXIST"@,
        FsErrorKind::PermissionDenied => "EACCES"@,
        FsErrorKind::NotADirectory => "ENOTDIR"@,
        FsErrorKind::DirectoryNotEmpty => "ENOTEMPTY"@,
        FsErrorKind::InvalidPattern => "EINVAL"@,
        FsErrorKind::InvalidArgument => "EINVAL"@,
        FsErrorKind::IsADirectory => "ERR_FS_EISDIR"@,
    }
}

/// The description of each failure class.
pub open spec fn desc_text(k: FsErrorKind) -> Seq<char> {
    match k {
        FsErrorKind::NotFound => "no such file or directory"@,
        FsErrorKind::AlreadyExists => "file already exists"@,
        FsErrorKind::PermissionDenied => "permission denied"@,
        FsErrorKind::NotADirectory => "not a directory"@,
        FsErrorKind::DirectoryNotEmpty => "directory not empty"@,
        FsErrorKind::InvalidPattern => "invalid pattern"@,
        FsErrorKind::InvalidArgument => "invalid argument"@,
        FsErrorKind::IsADirectory => "Path is a directory. To copy a directory set the 'recursive' option to true"@,
    }
}

/// The message for an error on one path:
/// `<code>: <description>, <op> '<path>'`.
pub open spec fn msg_spec(k: FsErrorKind, op: Seq<char>, path: Seq<char>) -> Seq<char> {
    code_text(k) + ": "@ + desc_text(k) + ", "@ + op + " '"@ + path + "'"@
}

/// The message for an error on a source and a destination path:
/// `<code>: <description>, <op> '<src>' -> '<dst>'`.
pub open spec fn msg2_spec(k: FsErrorKind, op: Seq<char>, src: Seq<char>, dst: Seq<char>) -> Seq<
    char,
> {
    code_text(k) + ": "@ + desc_text(k) + ", "@ + op + " '"@ + src + "' -> '"@ + dst + "'"@
}

/// A failed operation: its class and the message shown to the caller.
#[derive(Clone, Debug)]
pub struct FsError {
    pub kind: FsErrorKind,
    pub message: String,
}

impl FsError {
    /// The message shown to the caller.
    pub fn message(&self) -> (m: String)
        ensures
            m@ == self.message@,
    {
        self.message.clone()
    }
}

/// The symbolic code of `k`, as a string slice.
fn code_str(k: FsErrorKind) -> (r: &'static str)
    ensures
        r@ == code_text(k),
{
    match k {
        FsErrorKind::NotFound => "ENOENT",
        FsErrorKind::AlreadyExists => "EEXIST",
        FsErrorKind::PermissionDenied => "EACCES",
        FsErrorKind::NotADirectory => "ENOTDIR",
        FsErrorKind::DirectoryNotEmpty => "ENOTEMPTY",
        FsErrorKind::InvalidPattern => "EINVAL",
        FsErrorKind::InvalidArgument => "EINVAL",
        FsErrorKind::IsADirectory => "ERR_FS_EISDIR",
    }
}

/// The description of `k`, as a string slice.
fn desc_str(k: FsErrorKind) -> (r: &'static str)
    ensures
        r@ == desc_text(k),
{
    match k {
        FsErrorKind::NotFound => "no such file or directory",
        FsErrorKind::AlreadyExists => "file already exists",
        FsErrorKind::PermissionDenied => "permission denied",
        FsErrorKind::NotADirectory => "not a directory",
        FsErrorKind::DirectoryNotEmpty => "directory not empty",
        FsErrorKind::InvalidPattern => "invalid pattern",
        FsErrorKind::InvalidArgument => "invalid argument",
        FsErrorKind::IsADirectory => "Path is a directory. To copy a directory set the 'recursive' option to true",
    }
}

/// Builds the error for `op` failing on `path` with class `k`.
pub fn fs_error(k: FsErrorKind, op: &str, path: &str) -> (e: FsError)
    ensures
        e.kind == k,
        e.message@ == msg_spec(k, op@, path@),
{
    let mut m = String::new();
    m.append(code_str(k));
    m.append(": ");
    m.append(desc_str(k));
    m.append(", ");
    m.append(op);
    m.append(" '");
    m.append(path);
    m.append("'");
    FsError { kind: k, message: m }
}

/// Builds the error for `op` failing on the pair `src` and `dst` with class
/// `k`.
pub fn fs_error2(k: FsErrorKind, op: &str, src: &str, dst: &str) -> (e: FsError)
    ensures
        e.kind == k,
        e.message@ == msg2_spec(k, op@, src@, dst@),
{
    let mut m = String::new();
    m.append(code_str(k));
    m.append(": ");
    m.append(desc_str(k));
    m.append(", ");
    m.append(op);
    m.append(" '");
    m.append(src);
    m.append("' -> '");
    m.append(dst);
    m.append("'");
    FsError { kind: k, message: m }
}

} // verus!
