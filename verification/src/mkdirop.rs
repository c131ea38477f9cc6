//! Directory creation over the snapshot model.
//!
//! Non-recursive creation adds one directory whose parent must already be
//! present; recursive creation adds every missing directory along the path
//! and reports the first one it created, as the conventional `mkdir` call
//! does.

use vstd::prelude::*;

use crate::errors::FsError;
use crate::errors::FsErrorKind;
use crate::paths::join_spec;
use crate::paths::seg_prefix_of;
use crate::tree::FsSnapshot;
use crate::types::EntryKind;

verus! {

/// Options of a directory creation. The mode is applied by the caller that
/// touches the real filesystem; the snapshot model does not carry modes.
#[derive(Clone, Debug)]
pub struct MkdirOptions {
    pub recursive: Option<bool>,
    pub mode: Option<u32>,
}

/// The `recursive` flag an option value resolves to; unset means `false`.
pub open spec fn mkdir_recursive(options: Option<MkdirOptions>) -> bool {
    match options {
        None => false,
        Some(o) => match o.recursive {
            None => false,
            Some(b) => b,
        },
    }
}

/// What every path of the snapshot holds after a successful creation of the
/// directory `p`: every nonempty initial run of `p` that was absent is now a
/// directory, everything else is untouched.
pub open spec fn mkdir_kind_spec(
    t: FsSnapshot,
    p: Seq<Seq<char>>,
    q: Seq<Seq<char>>,
) -> Option<EntryKind> {
    if q.len() > 0 && seg_prefix_of(q, p) && t.kind_at(q) is None {
        Some(EntryKind::Directory)
    } else {
        t.kind_at(q)
    }
}

/// Creates the directory at `path`.
///
/// On success the returned snapshot holds a directory at every nonempty
/// initial run of the path that was absent, and everything else unchanged;
/// the returned string names the first directory created, or is `None` when
/// recursive creation found the directory already present. An empty path is
/// refused as invalid. Without `recursive`, an existing entry is refused as
/// `AlreadyExists`, a missing parent as `NotFound` and a parent that is no
/// directory as `NotADirectory`. With `recursive`, an existing non-directory
/// is refused as `AlreadyExists` and an existing non-directory along the
/// path as `NotADirectory`.
pub fn mkdir_sync(t: &FsSnapshot, path: &str, options: Option<MkdirOptions>) -> (r: Result<
    (FsSnapshot, Option<String>),
    FsError,
>)
    requires
        t.wf(),
    ensures
        ({
            let p = crate::paths::split_path_spec(path@);
            let recursive = mkdir_recursive(options);
            &&& (r matches Ok(ok) ==> ok.0.wf() && (forall|q: Seq<Seq<char>>|
                #[trigger] ok.0.kind_at(q) == mkdir_kind_spec(*t, p, q)))
            &&& if p.len() == 0 {
                r matches Err(e) && e.kind == FsErrorKind::InvalidArgument && e.message@
                    == crate::errors::msg_spec(FsErrorKind::InvalidArgument, "mkdir"@, path@)
            } else if recursive {
                match t.kind_at(p) {
                    Some(EntryKind::Directory) => r matches Ok(ok) && ok.1 is None,
                    Some(_) => r matches Err(e) && e.kind == FsErrorKind::AlreadyExists
                        && e.message@ == crate::errors::msg_spec(
                        FsErrorKind::AlreadyExists,
                        "mkdir"@,
                        path@,
                    ),
                    None => if exists|l: int|
                        1 <= l <= p.len() && (#[trigger] t.kind_at(p.take(l))) is Some
                            && t.kind_at(p.take(l)) != Some(EntryKind::Directory) {
                        r matches Err(e) && e.kind == FsErrorKind::NotADirectory && e.message@
                            == crate::errors::msg_spec(FsErrorKind::NotADirectory, "mkdir"@, path@)
                    } else {
                        r matches Ok(ok) && exists|m: int|
                            1 <= m <= p.len() && (#[trigger] t.kind_at(p.take(m))) is None && (
                            forall|l: int| 1 <= l < m ==> (#[trigger] t.kind_at(p.take(l))) is Some)
                                && (ok.1 matches Some(s) && s@ == join_spec(p.take(m)))
                    },
                }
            } else {
                match t.kind_at(p) {
                    Some(_) => r matches Err(e) && e.kind == FsErrorKind::AlreadyExists
                        && e.message@ == crate::errors::msg_spec(
                        FsErrorKind::AlreadyExists,
                        "mkdir"@,
                        path@,
                    ),
                    None => if p.len() == 1 {
                        r matches Ok(ok) && ok.1 is None
                    } else {
                        match t.kind_at(p.drop_last()) {
                            None => r matches Err(e) && e.kind == FsErrorKind::NotFound
                                && e.message@ == crate::errors::msg_spec(
                                FsErrorKind::NotFound,
                                "mkdir"@,
                                path@,
                            ),
                            Some(EntryKind::Directory) => r matches Ok(ok) && ok.1 is None,
                            Some(_) => r matches Err(e) && e.kind == FsErrorKind::NotADirectory
                                && e.message@ == crate::errors::msg_spec(
                                FsErrorKind::NotADirectory,
                                "mkdir"@,
                                path@,
                            ),
                        }
                    },
                }
            }
        }),
{
    let segs = crate::paths::split_path(path);
    let ghost sd = segs.deep_view();
    proof {
        crate::tree::lemma_split_valid(path@);
        assert(sd.len() == segs@.len());
    }
    let recursive = match &options {
        None => false,
        Some(o) => match o.recursive {
            None => false,
            Some(b) => b,
        },
    };
    if segs.len() == 0 {
        return Err(crate::errors::fs_error(FsErrorKind::InvalidArgument, "mkdir", path));
    }
    if !recursive {
        match t.lookup(&segs) {
            Some(_) => {
                return Err(crate::errors::fs_error(FsErrorKind::AlreadyExists, "mkdir", path));
            },
            None => {},
        }
        if segs.len() > 1 {
            let mut parent = crate::tree::clone_path(&segs);
            parent.pop();
            proof {
                assert(parent.deep_view() =~= sd.drop_last());
            }
            match t.lookup(&parent) {
                None => {
                    return Err(crate::errors::fs_error(FsErrorKind::NotFound, "mkdir", path));
                },
                Some(EntryKind::Directory) => {},
                Some(_) => {
                    return Err(
                        crate::errors::fs_error(FsErrorKind::NotADirectory, "mkdir", path),
                    );
                },
            }
        }
        let mut t2 = t.duplicate();
        t2.add_entry_segs(segs, EntryKind::Directory);
        proof {
            assert(sd.take(sd.len() as int) =~= sd);
            assert forall|q: Seq<Seq<char>>| #[trigger] t2.kind_at(q) == mkdir_kind_spec(
                *t,
                sd,
                q,
            ) by {
                if q != sd && q.len() > 0 && seg_prefix_of(q, sd) && t.kind_at(q) is None {
                    assert(q == sd.take(q.len() as int));
                    assert(q.len() < sd.len()) by {
                        if q.len() == sd.len() {
                            assert(sd.take(q.len() as int) =~= sd);
                        }
                    }
                    let par = sd.drop_last();
                    assert(t.kind_at(par) is Some);
                    assert(par.take(q.len() as int) =~= sd.take(q.len() as int));
                    crate::tree::lemma_prefix_chain_present(*t, par, q.len() as int);
                    assert(false);
                }
            }
        }
        return Ok((t2, None));
    }
    // Recursive creation: find the first missing initial run, refuse a
    // non-directory along the path, then add what is missing.
    match t.lookup(&segs) {
        Some(EntryKind::Directory) => {
            let t2 = t.duplicate();
            proof {
                assert forall|q: Seq<Seq<char>>| #[trigger] t2.kind_at(q) == mkdir_kind_spec(
                    *t,
                    sd,
                    q,
                ) by {
                    if q.len() > 0 && seg_prefix_of(q, sd) && t.kind_at(q) is None {
                        assert(q == sd.take(q.len() as int));
                        crate::tree::lemma_prefix_chain_present(*t, sd, q.len() as int);
                        assert(false);
                    }
                }
            }
            return Ok((t2, None));
        },
        Some(_) => {
            return Err(crate::errors::fs_error(FsErrorKind::AlreadyExists, "mkdir", path));
        },
        None => {},
    }
    // Scan the initial runs from the top: find the first missing one and
    // refuse any existing non-directory.
    let mut pre: Vec<String> = Vec::new();
    let mut m: usize = 0;
    let mut first_created: Option<String> = None;
    let mut l: usize = 0;
    proof {
        assert(pre.deep_view() =~= sd.take(0));
    }
    while l < segs.len()
        invariant
            t.wf(),
            sd == segs.deep_view(),
            sd == crate::paths::split_path_spec(path@),
            sd.len() == segs@.len(),
            sd.len() > 0,
            mkdir_recursive(options),
            t.kind_at(sd) is None,
            l <= sd.len(),
            pre.deep_view() == sd.take(l as int),
            m <= l,
            m == 0 ==> forall|j: int| 1 <= j <= l ==> (#[trigger] t.kind_at(sd.take(j))) is Some
                && t.kind_at(sd.take(j)) == Some(EntryKind::Directory),
            m == 0 ==> first_created is None,
            m > 0 ==> 1 <= m <= l && t.kind_at(sd.take(m as int)) is None && (forall|j: int|
                1 <= j < m ==> (#[trigger] t.kind_at(sd.take(j))) is Some && t.kind_at(
                    sd.take(j),
                ) == Some(EntryKind::Directory)),
            m > 0 ==> (first_created matches Some(s) && s@ == join_spec(sd.take(m as int))),
        decreases sd.len() - l,
    {
        let ghost prev = pre.deep_view();
        pre.push(segs[l].clone());
        proof {
            assert(pre.deep_view() =~= prev.push(sd[l as int]));
            assert(pre.deep_view() =~= sd.take(l + 1));
        }
        if m == 0 {
            match t.lookup(&pre) {
                None => {
                    m = l + 1;
                    first_created = Some(crate::paths::join_segs(&pre));
                },
                Some(EntryKind::Directory) => {},
                Some(_) => {
                    proof {
                        assert(t.kind_at(sd.take(l + 1)) is Some && t.kind_at(sd.take(l + 1))
                            != Some(EntryKind::Directory));
                    }
                    return Err(
                        crate::errors::fs_error(FsErrorKind::NotADirectory, "mkdir", path),
                    );
                },
            }
        }
        l = l + 1;
    }
    proof {
        assert(sd.take(sd.len() as int) =~= sd);
        assert(m > 0) by {
            if m == 0 {
                assert(t.kind_at(sd.take(sd.len() as int)) is Some);
            }
        }
    }
    // Every initial run at or beyond the first missing one is missing too,
    // and no initial run is a non-directory.
    proof {
        assert forall|j: int| m <= j <= sd.len() implies (#[trigger] t.kind_at(
            sd.take(j),
        )) is None by {
            lemma_missing_upward(*t, sd, m as int, j);
        }
        assert forall|l2: int|
            1 <= l2 <= sd.len() && (#[trigger] t.kind_at(sd.take(l2))) is Some implies t.kind_at(
            sd.take(l2),
        ) == Some(EntryKind::Directory) by {
            assert(l2 < m);
        }
    }
    // Add the missing directories from the first missing one down.
    let mut t2 = t.duplicate();
    let mut pre2: Vec<String> = Vec::new();
    let mut k: usize = 0;
    proof {
        assert(pre2.deep_view() =~= sd.take(0));
    }
    while k < segs.len()
        invariant
            t.wf(),
            t2.wf(),
            sd == segs.deep_view(),
            sd.len() == segs@.len(),
            k <= sd.len(),
            1 <= m <= sd.len(),
            pre2.deep_view() == sd.take(k as int),
            forall|j: int| m <= j <= sd.len() ==> (#[trigger] t.kind_at(sd.take(j))) is None,
            forall|j: int|
                1 <= j < m ==> (#[trigger] t.kind_at(sd.take(j))) == Some(EntryKind::Directory),
            forall|j: int|
                0 <= j < sd.len() ==> crate::paths::valid_seg(#[trigger] sd[j]),
            forall|q: Seq<Seq<char>>|
                #[trigger] t2.kind_at(q) == if q.len() > 0 && seg_prefix_of(q, sd.take(k as int))
                    && t.kind_at(q) is None {
                    Some(EntryKind::Directory)
                } else {
                    t.kind_at(q)
                },
        decreases sd.len() - k,
    {
        let ghost prev = pre2.deep_view();
        pre2.push(segs[k].clone());
        proof {
            assert(pre2.deep_view() =~= prev.push(sd[k as int]));
            assert(pre2.deep_view() =~= sd.take(k + 1));
        }
        if k + 1 >= m {
            let np = crate::tree::clone_path(&pre2);
            proof {
                let npd = sd.take(k + 1);
                assert(crate::paths::valid_path(npd)) by {
                    assert(forall|j: int|
                        0 <= j < npd.len() ==> crate::paths::valid_seg(#[trigger] npd[j]));
                }
                assert(t2.kind_at(npd) is None) by {
                    assert(!seg_prefix_of(npd, sd.take(k as int)));
                    assert(t.kind_at(npd) is None);
                }
                if npd.len() > 1 {
                    let par = npd.drop_last();
                    assert(par =~= sd.take(k as int));
                    assert(t2.kind_at(par) == Some(EntryKind::Directory)) by {
                        if k >= m {
                            assert(seg_prefix_of(par, sd.take(k as int))) by {
                                assert(sd.take(k as int).take(par.len() as int) =~= par);
                            }
                        } else {
                            assert(k == m - 1 && k >= 1);
                            assert(t.kind_at(sd.take(k as int)) == Some(EntryKind::Directory));
                            assert(!(t.kind_at(par) is None));
                        }
                    }
                }
            }
            t2.add_entry_segs(np, EntryKind::Directory);
            proof {
                assert forall|q: Seq<Seq<char>>|
                    #[trigger] t2.kind_at(q) == if q.len() > 0 && seg_prefix_of(q, sd.take(k + 1))
                        && t.kind_at(q) is None {
                        Some(EntryKind::Directory)
                    } else {
                        t.kind_at(q)
                    } by {
                    if q == sd.take(k + 1) {
                        assert(seg_prefix_of(q, sd.take(k + 1))) by {
                            assert(sd.take(k + 1).take(q.len() as int) =~= q);
                        }
                    } else {
                        crate::paths::lemma_prefix_shrink(q, sd, k as int);
                    }
                }
            }
        } else {
            proof {
                assert forall|q: Seq<Seq<char>>|
                    #[trigger] t2.kind_at(q) == if q.len() > 0 && seg_prefix_of(q, sd.take(k + 1))
                        && t.kind_at(q) is None {
                        Some(EntryKind::Directory)
                    } else {
                        t.kind_at(q)
                    } by {
                    if q == sd.take(k + 1) {
                        assert(k + 1 < m);
                        assert(t.kind_at(sd.take(k + 1)) is Some);
                    } else {
                        crate::paths::lemma_prefix_shrink(q, sd, k as int);
                    }
                }
            }
        }
        k = k + 1;
    }
    proof {
        assert(sd.take(sd.len() as int) =~= sd);
        assert forall|q: Seq<Seq<char>>| #[trigger] t2.kind_at(q) == mkdir_kind_spec(
            *t,
            sd,
            q,
        ) by {}
    }
    Ok((t2, first_created))
}

/// A missing initial run stays missing further down the path.
proof fn lemma_missing_upward(t: FsSnapshot, p: Seq<Seq<char>>, m: int, j: int)
    requires
        t.wf(),
        1 <= m <= j <= p.len(),
        t.kind_at(p.take(m)) is None,
    ensures
        t.kind_at(p.take(j)) is None,
    decreases j - m,
{
    if j > m {
        lemma_missing_upward(t, p, m, j - 1);
        if t.kind_at(p.take(j)) is Some {
            assert(p.take(j).len() > 1);
            crate::tree::lemma_parent_present(t, p.take(j));
            assert(p.take(j).drop_last() =~= p.take(j - 1));
        }
    }
}

} // verus!
