//! The permission-bit check behind the access call.
//!
//! The caller reads the entry's mode and ownership and its own identity
//! from the system; the decision over those numbers — which classes of
//! permission satisfy a requested access mode — is made and verified here.

use vstd::prelude::*;

verus! {

/// Requests existence only.
pub const F_OK: u32 = 0;

/// Requests read permission.
pub const R_OK: u32 = 4;

/// Requests write permission.
pub const W_OK: u32 = 2;

/// Requests execute permission.
pub const X_OK: u32 = 1;

/// One class of the check: a flag not requested passes; the superuser
/// passes everything but execute, which needs some execute bit; otherwise
/// the owner, group or other bit decides, in that order.
pub open spec fn perm_check(
    mode: u32,
    flag: u32,
    owner_bit: u32,
    group_bit: u32,
    other_bit: u32,
    file_mode: u32,
    uid: u32,
    gid: u32,
    file_uid: u32,
    file_gid: u32,
) -> bool {
    if mode & flag == 0 {
        true
    } else if uid == 0 {
        if flag == X_OK {
            file_mode & ((owner_bit | group_bit) | other_bit) != 0
        } else {
            true
        }
    } else if uid == file_uid && file_mode & owner_bit != 0 {
        true
    } else if gid == file_gid && file_mode & group_bit != 0 {
        true
    } else {
        file_mode & other_bit != 0
    }
}

/// Whether the requested access `mode` is granted on an entry with the
/// given mode bits and ownership, for a caller with the given identity.
pub open spec fn access_ok(
    mode: u32,
    file_mode: u32,
    uid: u32,
    gid: u32,
    file_uid: u32,
    file_gid: u32,
) -> bool {
    &&& perm_check(mode, R_OK, 0o400, 0o040, 0o004, file_mode, uid, gid, file_uid, file_gid)
    &&& perm_check(mode, W_OK, 0o200, 0o020, 0o002, file_mode, uid, gid, file_uid, file_gid)
    &&& perm_check(mode, X_OK, 0o100, 0o010, 0o001, file_mode, uid, gid, file_uid, file_gid)
}

/// One class of the check.
fn perm_check_exec(
    mode: u32,
    flag: u32,
    owner_bit: u32,
    group_bit: u32,
    other_bit: u32,
    file_mode: u32,
    uid: u32,
    gid: u32,
    file_uid: u32,
    file_gid: u32,
) -> (r: bool)
    ensures
        r == perm_check(
            mode,
            flag,
            owner_bit,
            group_bit,
            other_bit,
            file_mode,
            uid,
            gid,
            file_uid,
            file_gid,
        ),
{
    if mode & flag == 0 {
        true
    } else if uid == 0 {
        if flag == X_OK {
            file_mode & ((owner_bit | group_bit) | other_bit) != 0
        } else {
            true
        }
    } else if uid == file_uid && file_mode & owner_bit != 0 {
        true
    } else if gid == file_gid && file_mode & group_bit != 0 {
        true
    } else {
        file_mode & other_bit != 0
    }
}

/// Decides the access call over the entry's mode bits and ownership and
/// the caller's identity.
pub fn access_check(
    mode: u32,
    file_mode: u32,
    uid: u32,
    gid: u32,
    file_uid: u32,
    file_gid: u32,
) -> (r: bool)
    ensures
        r == access_ok(mode, file_mode, uid, gid, file_uid, file_gid),
{
    let a = perm_check_exec(mode, R_OK, 0o400, 0o040, 0o004, file_mode, uid, gid, file_uid, file_gid);
    let b = perm_check_exec(mode, W_OK, 0o200, 0o020, 0o002, file_mode, uid, gid, file_uid, file_gid);
    let c = perm_check_exec(mode, X_OK, 0o100, 0o010, 0o001, file_mode, uid, gid, file_uid, file_gid);
    a && b && c
}

} // verus!
