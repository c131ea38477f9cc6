//! Recursive removal over the snapshot model.
//!
//! Removal deletes the entry at a path together with everything below it,
//! under the options of the conventional `rm` call: `recursive` allows a
//! non-empty directory to go, and `force` silences the error for a path
//! that is not there. The contract pins, for every path of the snapshot,
//! what the resulting tree holds, and states exactly when each error is
//! returned.

use vstd::prelude::*;

use crate::errors::FsError;
use crate::errors::FsErrorKind;
use crate::paths::seg_prefix_of;
use crate::paths::strict_seg_prefix_of;
use crate::tree::kind_at_seq;
use crate::tree::FsSnapshot;
use crate::types::EntryKind;

verus! {

/// Options of a removal.
#[derive(Clone, Debug)]
pub struct RmOptions {
    pub force: Option<bool>,
    pub max_retries: Option<u32>,
    pub recursive: Option<bool>,
    pub retry_delay: Option<u32>,
    pub concurrency: Option<u32>,
}

/// The `force` flag an option value resolves to; unset means `false`.
pub open spec fn rm_force(options: Option<RmOptions>) -> bool {
    match options {
        None => false,
        Some(o) => match o.force {
            None => false,
            Some(b) => b,
        },
    }
}

/// The `recursive` flag an option value resolves to; unset means `false`.
pub open spec fn rm_recursive(options: Option<RmOptions>) -> bool {
    match options {
        None => false,
        Some(o) => match o.recursive {
            None => false,
            Some(b) => b,
        },
    }
}

/// The retry bound an option value resolves to; unset means no retry.
pub open spec fn rm_max_retries(options: Option<RmOptions>) -> u32 {
    match options {
        None => 0,
        Some(o) => match o.max_retries {
            None => 0,
            Some(n) => n,
        },
    }
}

/// The delay between removal attempts, in milliseconds; unset means 100.
pub open spec fn rm_retry_delay(options: Option<RmOptions>) -> u32 {
    match options {
        None => 100,
        Some(o) => match o.retry_delay {
            None => 100,
            Some(n) => n,
        },
    }
}

/// The retry decision of the removal policy: after the failed attempt
/// numbered `attempt`, counting from zero, the whole removal is attempted
/// once more exactly when the bound allows a further attempt.
pub fn rm_should_retry(attempt: u32, options: &Option<RmOptions>) -> (r: bool)
    ensures
        r == (attempt < rm_max_retries(*options)),
{
    let bound = match options {
        None => 0,
        Some(o) => match o.max_retries {
            None => 0,
            Some(n) => n,
        },
    };
    attempt < bound
}

/// The delay to sleep between removal attempts, in milliseconds.
pub fn rm_retry_delay_ms(options: &Option<RmOptions>) -> (r: u32)
    ensures
        r == rm_retry_delay(*options),
{
    match options {
        None => 100,
        Some(o) => match o.retry_delay {
            None => 100,
            Some(n) => n,
        },
    }
}

/// Keeps every entry that is not at or below `p`.
fn prune_below(t: &FsSnapshot, p: &Vec<String>) -> (r: FsSnapshot)
    requires
        t.wf(),
    ensures
        r.wf(),
        forall|q: Seq<Seq<char>>|
            #[trigger] r.kind_at(q) == if seg_prefix_of(p.deep_view(), q) {
                None::<EntryKind>
            } else {
                t.kind_at(q)
            },
{
    let ghost tv = t.entries@;
    let ghost pd = p.deep_view();
    let mut out: Vec<crate::tree::FsEntry> = Vec::new();
    let mut i: usize = 0;
    proof {
        assert(tv.take(0) =~= Seq::<crate::tree::FsEntry>::empty());
    }
    while i < t.entries.len()
        invariant
            t.wf(),
            tv == t.entries@,
            pd == p.deep_view(),
            i <= tv.len(),
            forall|q: Seq<Seq<char>>|
                #[trigger] kind_at_seq(out@, q) == if seg_prefix_of(pd, q) {
                    None::<EntryKind>
                } else {
                    kind_at_seq(tv.take(i as int), q)
                },
            forall|j: int|
                0 <= j < out@.len() ==> crate::paths::valid_path(#[trigger] out@[j].pview()),
            forall|j1: int, j2: int|
                0 <= j1 < out@.len() && 0 <= j2 < out@.len() && j1 != j2 ==> (
                #[trigger] out@[j1].pview()) != (#[trigger] out@[j2].pview()),
        decreases tv.len() - i,
    {
        let keep = !crate::paths::is_seg_prefix(p, &t.entries[i].path);
        proof {
            assert(tv.take(i + 1) =~= tv.take(i as int).push(tv[i as int]));
            crate::tree::lemma_kind_at_push_all(tv.take(i as int), tv[i as int]);
            assert(tv[i as int].pview() == tv[i as int].path.deep_view());
            crate::tree::lemma_take_unique(tv, i as int);
        }
        if keep {
            let e2 = crate::tree::clone_entry(&t.entries[i]);
            let ghost outold = out@;
            proof {
                assert(kind_at_seq(outold, e2.pview()) is None);
                crate::tree::lemma_kind_at_none_iff(outold, e2.pview());
                crate::tree::lemma_kind_at_push_all(outold, e2);
            }
            out.push(e2);
            proof {
                assert(out@ =~= outold.push(e2));
                assert forall|q: Seq<Seq<char>>|
                    #[trigger] kind_at_seq(out@, q) == if seg_prefix_of(pd, q) {
                        None::<EntryKind>
                    } else {
                        kind_at_seq(tv.take(i + 1), q)
                    } by {
                    if seg_prefix_of(pd, q) {
                        assert(e2.pview() != q);
                    }
                }
            }
        } else {
            proof {
                assert forall|q: Seq<Seq<char>>|
                    #[trigger] kind_at_seq(out@, q) == if seg_prefix_of(pd, q) {
                        None::<EntryKind>
                    } else {
                        kind_at_seq(tv.take(i + 1), q)
                    } by {
                    if !seg_prefix_of(pd, q) {
                        assert(tv[i as int].pview() != q);
                    }
                }
            }
        }
        i = i + 1;
    }
    proof {
        assert(tv.take(tv.len() as int) =~= tv);
    }
    let r = FsSnapshot { entries: out };
    proof {
        assert forall|j: int|
            0 <= j < r.entries@.len() && #[trigger] r.entries@[j].pview().len() > 1 implies kind_at_seq(
            r.entries@,
            r.entries@[j].pview().drop_last(),
        ) == Some(EntryKind::Directory) by {
            let pv = r.entries@[j].pview();
            let parent = pv.drop_last();
            crate::tree::lemma_kind_at_none_iff(r.entries@, pv);
            assert(kind_at_seq(r.entries@, pv) is Some);
            assert(!seg_prefix_of(pd, pv));
            assert(kind_at_seq(tv, pv) is Some);
            crate::tree::lemma_kind_at_none_iff(tv, pv);
            let w = choose|w: int| 0 <= w < tv.len() && tv[w].pview() == pv;
            assert(kind_at_seq(tv, parent) == Some(EntryKind::Directory));
            crate::paths::lemma_prefix_of_drop_last(pv);
            if seg_prefix_of(pd, parent) {
                crate::paths::lemma_prefix_trans(pd, parent, pv);
            }
            assert(kind_at_seq(r.entries@, parent) == kind_at_seq(tv, parent));
        }
    }
    r
}

/// Removes the entry at `path` and everything below it.
///
/// On success the returned snapshot holds, at every path at or below the
/// removed one, nothing, and at every other path exactly what the given
/// snapshot held. An empty path is refused as invalid; a missing path is
/// silently accepted under `force` and refused as `NotFound` otherwise; a
/// directory that still holds entries is refused as `DirectoryNotEmpty`
/// unless `recursive` is set.
pub fn rm_sync(t: &FsSnapshot, path: &str, options: Option<RmOptions>) -> (r: Result<
    FsSnapshot,
    FsError,
>)
    requires
        t.wf(),
    ensures
        ({
            let p = crate::paths::split_path_spec(path@);
            let force = rm_force(options);
            let recursive = rm_recursive(options);
            &&& (r matches Ok(t2) ==> t2.wf() && (forall|q: Seq<Seq<char>>|
                #[trigger] t2.kind_at(q) == if seg_prefix_of(p, q) {
                    None::<EntryKind>
                } else {
                    t.kind_at(q)
                }))
            &&& if p.len() == 0 {
                r matches Err(e) && e.kind == FsErrorKind::InvalidArgument && e.message@
                    == crate::errors::msg_spec(FsErrorKind::InvalidArgument, "rm"@, path@)
            } else {
                match t.kind_at(p) {
                    None => if force {
                        r is Ok
                    } else {
                        r matches Err(e) && e.kind == FsErrorKind::NotFound && e.message@
                            == crate::errors::msg_spec(FsErrorKind::NotFound, "rm"@, path@)
                    },
                    Some(EntryKind::Directory) => if !recursive && (exists|i: int|
                        0 <= i < t.entries@.len() && strict_seg_prefix_of(
                            p,
                            #[trigger] t.entries@[i].pview(),
                        )) {
                        r matches Err(e) && e.kind == FsErrorKind::DirectoryNotEmpty && e.message@
                            == crate::errors::msg_spec(
                            FsErrorKind::DirectoryNotEmpty,
                            "rm"@,
                            path@,
                        )
                    } else {
                        r is Ok
                    },
                    Some(_) => r is Ok,
                }
            }
        }),
{
    let segs = crate::paths::split_path(path);
    let force = match &options {
        None => false,
        Some(o) => match o.force {
            None => false,
            Some(b) => b,
        },
    };
    let recursive = match &options {
        None => false,
        Some(o) => match o.recursive {
            None => false,
            Some(b) => b,
        },
    };
    if segs.len() == 0 {
        proof {
            assert(crate::paths::split_path_spec(path@).len() == 0);
        }
        return Err(crate::errors::fs_error(FsErrorKind::InvalidArgument, "rm", path));
    }
    match t.lookup(&segs) {
        None => {
            if force {
                Ok(prune_below(t, &segs))
            } else {
                Err(crate::errors::fs_error(FsErrorKind::NotFound, "rm", path))
            }
        },
        Some(k) => {
            if matches!(k, EntryKind::Directory) && !recursive && t.has_descendant(&segs) {
                Err(crate::errors::fs_error(FsErrorKind::DirectoryNotEmpty, "rm", path))
            } else {
                Ok(prune_below(t, &segs))
            }
        },
    }
}

/// Removing a subtree leaves nothing at or below its root, so removing it
/// again changes nothing: the second forced removal finds the path absent
/// and succeeds silently.
pub proof fn lemma_rm_twice(t: FsSnapshot, t2: FsSnapshot, t3: FsSnapshot, p: Seq<Seq<char>>)
    requires
        forall|q: Seq<Seq<char>>|
            #[trigger] t2.kind_at(q) == if seg_prefix_of(p, q) {
                None::<EntryKind>
            } else {
                t.kind_at(q)
            },
        forall|q: Seq<Seq<char>>|
            #[trigger] t3.kind_at(q) == if seg_prefix_of(p, q) {
                None::<EntryKind>
            } else {
                t2.kind_at(q)
            },
    ensures
        t2.kind_at(p) is None,
        forall|q: Seq<Seq<char>>| #[trigger] t3.kind_at(q) == t2.kind_at(q),
{
    assert(seg_prefix_of(p, p)) by {
        assert(p.subrange(0, p.len() as int) =~= p);
    }
}

} // verus!
