//! Recursive copy over the snapshot model.
//!
//! A copy takes the entry at the source path — with everything below it when
//! `recursive` is set — to the destination path, creating missing parent
//! directories on the way. A destination entry that is already present is
//! refused under `error_on_exist`, overwritten under `force` (the default),
//! and silently kept otherwise; an existing directory is never replaced by a
//! directory copy, it is merged into. The snapshot carries entry kinds, not
//! contents or link targets, so a plain copy takes a symlink entry across
//! as a symlink, and the caller that touches the real filesystem reads and
//! rewrites targets and applies timestamps under the remaining options. A
//! dereferencing copy resolves link targets the snapshot does not carry, so
//! the contract pins the result exactly only when `dereference` is unset or
//! the source subtree holds no symlink, and otherwise promises no more than
//! that paths outside the destination region are untouched.

use vstd::prelude::*;

use crate::errors::FsError;
use crate::errors::FsErrorKind;
use crate::paths::join_spec;
use crate::paths::seg_prefix_of;
use crate::paths::strict_seg_prefix_of;
use crate::tree::FsSnapshot;
use crate::types::EntryKind;

verus! {

/// Options of a copy.
#[derive(Clone, Debug)]
pub struct CpOptions {
    pub recursive: Option<bool>,
    pub force: Option<bool>,
    pub error_on_exist: Option<bool>,
    pub preserve_timestamps: Option<bool>,
    pub dereference: Option<bool>,
    pub verbatim_symlinks: Option<bool>,
    pub concurrency: Option<u32>,
}

/// The `force` flag an option value resolves to; unset means `true`.
pub open spec fn cp_force(options: Option<CpOptions>) -> bool {
    match options {
        None => true,
        Some(o) => match o.force {
            None => true,
            Some(b) => b,
        },
    }
}

/// The `recursive` flag an option value resolves to; unset means `false`.
pub open spec fn cp_recursive(options: Option<CpOptions>) -> bool {
    match options {
        None => false,
        Some(o) => match o.recursive {
            None => false,
            Some(b) => b,
        },
    }
}

/// The `error_on_exist` flag an option value resolves to; unset means
/// `false`.
pub open spec fn cp_error_on_exist(options: Option<CpOptions>) -> bool {
    match options {
        None => false,
        Some(o) => match o.error_on_exist {
            None => false,
            Some(b) => b,
        },
    }
}

/// The `dereference` flag an option value resolves to; unset means `false`.
pub open spec fn cp_dereference(options: Option<CpOptions>) -> bool {
    match options {
        None => false,
        Some(o) => match o.dereference {
            None => false,
            Some(b) => b,
        },
    }
}

/// Whether the snapshot model pins this copy exactly: it does unless
/// dereferencing is requested while the source subtree holds a symlink. A
/// dereferencing copy resolves such a link and copies its target's kind
/// and content, which the snapshot does not carry, so the model then says
/// nothing about what lands under the destination.
pub open spec fn cp_model_exact(t: FsSnapshot, s: Seq<Seq<char>>, options: Option<CpOptions>) -> bool {
    !cp_dereference(options) || (forall|j: int|
        #![trigger t.entries@[j].pview()]
        cp_member(t, s, j) ==> t.entries@[j].kind != EntryKind::Symlink)
}

/// Where the entry at `pv`, below the source `s`, lands under the
/// destination `d`.
pub open spec fn cp_target(s: Seq<Seq<char>>, d: Seq<Seq<char>>, pv: Seq<Seq<char>>) -> Seq<
    Seq<char>,
> {
    d + pv.skip(s.len() as int)
}

/// What every path of the snapshot holds after a successful copy from `s`
/// to `d`: at a target of a copied source entry, the source's kind — except
/// that directories merge, and that without `force` an existing entry is
/// kept; at a missing parent of the destination, a new directory; anywhere
/// else, what it held before.
pub open spec fn cp_kind_spec(
    t: FsSnapshot,
    s: Seq<Seq<char>>,
    d: Seq<Seq<char>>,
    force: bool,
    q: Seq<Seq<char>>,
) -> Option<EntryKind> {
    if seg_prefix_of(d, q) && t.kind_at(s + q.skip(d.len() as int)) is Some {
        let sk = t.kind_at(s + q.skip(d.len() as int))->Some_0;
        if sk == EntryKind::Directory {
            Some(EntryKind::Directory)
        } else if t.kind_at(q) is Some && !force {
            t.kind_at(q)
        } else {
            Some(sk)
        }
    } else if q.len() > 0 && strict_seg_prefix_of(q, d) {
        Some(EntryKind::Directory)
    } else {
        t.kind_at(q)
    }
}

/// Some proper initial run of the destination is present as something other
/// than a directory, so the destination cannot be created under it.
pub open spec fn cp_dest_prefix_bad(t: FsSnapshot, d: Seq<Seq<char>>) -> bool {
    exists|l: int|
        1 <= l < d.len() && (#[trigger] t.kind_at(d.take(l))) is Some && t.kind_at(d.take(l))
            != Some(EntryKind::Directory)
}

/// Entry `j` lies at or below the source `s`.
pub open spec fn cp_member(t: FsSnapshot, s: Seq<Seq<char>>, j: int) -> bool {
    0 <= j < t.entries@.len() && seg_prefix_of(s, t.entries@[j].pview())
}

/// The copy of entry `i` collides with what sits at its target: a source
/// directory meets a non-directory, an overwrite would hit a directory, or
/// `error_on_exist` meets anything at all.
pub open spec fn cp_conflict_at(
    t: FsSnapshot,
    s: Seq<Seq<char>>,
    d: Seq<Seq<char>>,
    force: bool,
    eoe: bool,
    i: int,
) -> bool {
    cp_member(t, s, i) && {
        let tk = t.kind_at(cp_target(s, d, t.entries@[i].pview()));
        if t.entries@[i].kind == EntryKind::Directory {
            tk is Some && tk != Some(EntryKind::Directory)
        } else {
            tk is Some && (eoe || (force && tk == Some(EntryKind::Directory)))
        }
    }
}

/// The error class a conflict at entry `i` raises.
pub open spec fn cp_conflict_kind(t: FsSnapshot, i: int) -> FsErrorKind {
    if t.entries@[i].kind == EntryKind::Directory {
        FsErrorKind::NotADirectory
    } else {
        FsErrorKind::AlreadyExists
    }
}

/// Among the first `i` entries, some non-directory source entry has target
/// `q`.
pub open spec fn nd_done(
    t: FsSnapshot,
    s: Seq<Seq<char>>,
    d: Seq<Seq<char>>,
    i: int,
    q: Seq<Seq<char>>,
) -> bool {
    exists|j: int|
        #![trigger t.entries@[j].pview()]
        0 <= j < i && cp_member(t, s, j) && t.entries@[j].kind != EntryKind::Directory
            && cp_target(s, d, t.entries@[j].pview()) == q
}

/// Among the first `i` entries, some source entry's copy has made `q` a
/// directory: `q` is the target of a source directory, or a proper initial
/// run of any target.
pub open spec fn dir_done(
    t: FsSnapshot,
    s: Seq<Seq<char>>,
    d: Seq<Seq<char>>,
    i: int,
    q: Seq<Seq<char>>,
) -> bool {
    exists|j: int|
        #![trigger t.entries@[j].pview()]
        0 <= j < i && cp_member(t, s, j) && q.len() > 0 && seg_prefix_of(
            q,
            cp_target(s, d, t.entries@[j].pview()),
        ) && (t.entries@[j].kind == EntryKind::Directory || q != cp_target(
            s,
            d,
            t.entries@[j].pview(),
        ))
}

/// What every path holds after the copies of the first `i` entries.
pub open spec fn cp_partial(
    t: FsSnapshot,
    s: Seq<Seq<char>>,
    d: Seq<Seq<char>>,
    force: bool,
    i: int,
    q: Seq<Seq<char>>,
) -> Option<EntryKind> {
    if nd_done(t, s, d, i, q) {
        if t.kind_at(q) is Some && !force {
            t.kind_at(q)
        } else {
            Some(t.kind_at(s + q.skip(d.len() as int))->Some_0)
        }
    } else if dir_done(t, s, d, i, q) {
        if t.kind_at(q) is None {
            Some(EntryKind::Directory)
        } else {
            t.kind_at(q)
        }
    } else {
        t.kind_at(q)
    }
}

/// The front piece a target shares with the destination, and the source
/// path recovered from a target.
proof fn lemma_target_basics(s: Seq<Seq<char>>, d: Seq<Seq<char>>, pv: Seq<Seq<char>>)
    requires
        seg_prefix_of(s, pv),
    ensures
        seg_prefix_of(d, cp_target(s, d, pv)),
        cp_target(s, d, pv).skip(d.len() as int) =~= pv.skip(s.len() as int),
        s + pv.skip(s.len() as int) =~= pv,
        cp_target(s, d, pv).len() == d.len() + pv.len() - s.len(),
{
    assert(cp_target(s, d, pv).subrange(0, d.len() as int) =~= d);
    assert(cp_target(s, d, pv).skip(d.len() as int) =~= pv.skip(s.len() as int));
    assert(s + pv.skip(s.len() as int) =~= pv) by {
        assert forall|k: int| 0 <= k < pv.len() implies (s + pv.skip(s.len() as int))[k]
            == pv[k] by {
            if k < s.len() {
                assert(pv.subrange(0, s.len() as int)[k] == s[k]);
            }
        }
    }
}

/// Targets of two source paths relate exactly as the source paths do.
proof fn lemma_target_prefix(
    s: Seq<Seq<char>>,
    d: Seq<Seq<char>>,
    pv1: Seq<Seq<char>>,
    pv2: Seq<Seq<char>>,
)
    requires
        seg_prefix_of(s, pv1),
        seg_prefix_of(s, pv2),
    ensures
        seg_prefix_of(cp_target(s, d, pv1), cp_target(s, d, pv2)) == seg_prefix_of(pv1, pv2),
        (cp_target(s, d, pv1) == cp_target(s, d, pv2)) == (pv1 == pv2),
        cp_target(s, d, pv1).len() <= cp_target(s, d, pv2).len() <==> pv1.len() <= pv2.len(),
{
    lemma_target_basics(s, d, pv1);
    lemma_target_basics(s, d, pv2);
    crate::paths::lemma_concat_prefix(d, pv1.skip(s.len() as int), pv2.skip(s.len() as int));
    crate::paths::lemma_concat_prefix(s, pv1.skip(s.len() as int), pv2.skip(s.len() as int));
    assert((s + pv1.skip(s.len() as int)) == pv1);
    assert((s + pv2.skip(s.len() as int)) == pv2);
    if pv1 == pv2 {
        assert(cp_target(s, d, pv1) == cp_target(s, d, pv2));
    }
    if cp_target(s, d, pv1) == cp_target(s, d, pv2) {
        assert(pv1.skip(s.len() as int) =~= pv2.skip(s.len() as int));
        assert(pv1 == pv2);
    }
    if seg_prefix_of(pv1, pv2) {
        assert(seg_prefix_of(pv1.skip(s.len() as int), pv2.skip(s.len() as int))) by {
            crate::paths::lemma_concat_prefix(s, pv1.skip(s.len() as int), pv2.skip(s.len() as int));
            assert(seg_prefix_of(s + pv1.skip(s.len() as int), s + pv2.skip(s.len() as int)));
        }
    }
    if seg_prefix_of(pv1.skip(s.len() as int), pv2.skip(s.len() as int)) {
        assert(seg_prefix_of(s + pv1.skip(s.len() as int), s + pv2.skip(s.len() as int)));
    }
}

/// Only directories can sit at or above `q` among the source entries whose
/// target reaches down to `q`, once the per-entry conflict scan has passed:
/// every source entry whose target is exactly `q` is then a directory, and
/// an existing entry at `q` itself is a directory.
proof fn lemma_cp_covered_dir(
    t: FsSnapshot,
    s: Seq<Seq<char>>,
    d: Seq<Seq<char>>,
    force: bool,
    eoe: bool,
    i: int,
    q: Seq<Seq<char>>,
)
    requires
        t.wf(),
        s.len() > 0,
        d.len() > 0,
        !cp_dest_prefix_bad(t, d),
        forall|j: int| 0 <= j < t.entries@.len() ==> !cp_conflict_at(t, s, d, force, eoe, j),
        cp_member(t, s, i),
        q.len() > 0,
        seg_prefix_of(q, cp_target(s, d, t.entries@[i].pview())),
        t.entries@[i].kind == EntryKind::Directory || q != cp_target(s, d, t.entries@[i].pview()),
    ensures
        forall|j: int|
            #![trigger t.entries@[j].pview()]
            cp_member(t, s, j) && cp_target(s, d, t.entries@[j].pview()) == q ==> t.entries@[j].kind
                == EntryKind::Directory,
        t.kind_at(q) is Some ==> t.kind_at(q) == Some(EntryKind::Directory),
{
    let pvi = t.entries@[i].pview();
    let tgti = cp_target(s, d, pvi);
    lemma_target_basics(s, d, pvi);
    assert forall|j: int|
        #![trigger t.entries@[j].pview()]
        cp_member(t, s, j) && cp_target(s, d, t.entries@[j].pview()) == q implies t.entries@[j].kind
        == EntryKind::Directory by {
        let pvj = t.entries@[j].pview();
        lemma_target_prefix(s, d, pvj, pvi);
        if pvj == pvi {
            assert(j == i);
            assert(q == tgti);
        } else {
            assert(seg_prefix_of(cp_target(s, d, pvj), tgti));
            assert(seg_prefix_of(pvj, pvi));
            assert(cp_target(s, d, pvj).len() < tgti.len() || cp_target(s, d, pvj) == tgti);
            assert(pvj.len() < pvi.len());
            crate::tree::lemma_kind_at_index(t.entries@, pvi);
            assert(t.kind_at(pvi) is Some);
            crate::tree::lemma_ancestor_is_dir(t, pvj, pvi);
            crate::tree::lemma_kind_at_index(t.entries@, pvj);
        }
    }
    if t.kind_at(q) is Some {
        if q.len() < d.len() {
            // a proper initial run of the destination
            crate::paths::lemma_prefix_chain(q, d, tgti);
            assert(q == d.take(q.len() as int)) by {
                assert(d.subrange(0, q.len() as int) =~= q);
            }
            assert(!(t.kind_at(d.take(q.len() as int)) is Some && t.kind_at(
                d.take(q.len() as int),
            ) != Some(EntryKind::Directory)));
        } else {
            // the target of a source path at or above entry i's path
            crate::paths::lemma_prefix_chain(d, q, tgti);
            let rel = q.skip(d.len() as int);
            let m = s + rel;
            assert(q == cp_target(s, d, m)) by {
                assert(seg_prefix_of(s, m)) by {
                    assert(m.subrange(0, s.len() as int) =~= s);
                }
                lemma_target_basics(s, d, m);
                assert(d + m.skip(s.len() as int) =~= d + rel) by {
                    assert(m.skip(s.len() as int) =~= rel);
                }
                assert(d + rel =~= q) by {
                    assert forall|k: int| 0 <= k < q.len() implies (d + rel)[k] == q[k] by {
                        if k < d.len() {
                            assert(tgti.subrange(0, q.len() as int)[k] == q[k]);
                            assert(tgti.subrange(0, d.len() as int)[k] == d[k]);
                        }
                    }
                }
            }
            assert(seg_prefix_of(s, m)) by {
                assert(m.subrange(0, s.len() as int) =~= s);
            }
            lemma_target_prefix(s, d, m, pvi);
            assert(seg_prefix_of(m, pvi));
            assert(t.kind_at(pvi) is Some) by {
                crate::tree::lemma_kind_at_index(t.entries@, pvi);
            }
            assert(t.kind_at(m) is Some) by {
                crate::tree::lemma_kind_at_index(t.entries@, pvi);
                assert(t.kind_at(pvi) is Some);
                assert(m =~= pvi.take(m.len() as int)) by {
                    assert(pvi.subrange(0, m.len() as int) =~= m);
                }
                crate::tree::lemma_prefix_chain_present(t, pvi, m.len() as int);
            }
            crate::tree::lemma_kind_at_index(t.entries@, m);
            let jm = choose|jm: int|
                0 <= jm < t.entries@.len() && (#[trigger] t.entries@[jm].pview()) == m;
            assert(cp_member(t, s, jm));
            assert(t.entries@[jm].kind == EntryKind::Directory) by {
                if m == pvi {
                    assert(q == tgti);
                    assert(jm == i);
                } else {
                    assert(m.len() < pvi.len()) by {
                        if m.len() == pvi.len() {
                            assert(pvi.subrange(0, m.len() as int) =~= pvi);
                        }
                    }
                    crate::tree::lemma_ancestor_is_dir(t, m, pvi);
                }
            }
            assert(!cp_conflict_at(t, s, d, force, eoe, jm));
            assert(t.kind_at(cp_target(s, d, m)) == t.kind_at(q));
        }
    }
}

/// Builds the target path of a source entry: the destination followed by
/// the entry's segments below the source.
fn build_target(d: &Vec<String>, ep: &Vec<String>, slen: usize) -> (r: Vec<String>)
    requires
        slen <= ep@.len(),
    ensures
        r.deep_view() == d.deep_view() + ep.deep_view().skip(slen as int),
{
    let mut r = crate::tree::clone_path(d);
    let mut j: usize = slen;
    proof {
        assert(ep.deep_view().len() == ep@.len());
        assert(r.deep_view() =~= d.deep_view() + ep.deep_view().subrange(
            slen as int,
            slen as int,
        ));
    }
    while j < ep.len()
        invariant
            slen <= j <= ep@.len(),
            ep.deep_view().len() == ep@.len(),
            r.deep_view() == d.deep_view() + ep.deep_view().subrange(slen as int, j as int),
        decreases ep@.len() - j,
    {
        let ghost prev = r.deep_view();
        r.push(ep[j].clone());
        proof {
            assert(r.deep_view() =~= prev.push(ep.deep_view()[j as int]));
            assert(r.deep_view() =~= d.deep_view() + ep.deep_view().subrange(slen as int, j + 1));
        }
        j = j + 1;
    }
    proof {
        assert(ep.deep_view().subrange(slen as int, ep.deep_view().len() as int)
            =~= ep.deep_view().skip(slen as int));
    }
    r
}

/// Copies the entry at `src` — with everything below it when `recursive`
/// is set — to `dest`.
///
/// A successful copy touches only the destination region: every path
/// neither at or below the destination nor strictly above it is unchanged.
/// When the snapshot model pins the copy exactly ([`cp_model_exact`]:
/// `dereference` unset, or no symlink in the source subtree), the contract
/// says the rest in full: on success the returned snapshot holds, at every
/// path, what [`cp_kind_spec`] gives it, and each failure comes if and only
/// if its condition does — a missing source as `NotFound`; a source
/// directory without `recursive` as the is-a-directory condition; an empty
/// destination path as invalid; a destination under an existing
/// non-directory as `NotADirectory`; and the first colliding entry, in
/// entry order, as `NotADirectory` (directory over non-directory) or
/// `AlreadyExists` (overwrite refused), naming the colliding pair. A
/// dereferencing copy over a symlink-bearing source resolves targets the
/// snapshot does not carry, so there the contract claims no more than the
/// locality above.
pub fn cp_sync(t: &FsSnapshot, src: &str, dest: &str, options: Option<CpOptions>) -> (r: Result<
    FsSnapshot,
    FsError,
>)
    requires
        t.wf(),
    ensures
        ({
            let s = crate::paths::split_path_spec(src@);
            let d = crate::paths::split_path_spec(dest@);
            let force = cp_force(options);
            let recursive = cp_recursive(options);
            let eoe = cp_error_on_exist(options);
            &&& (r matches Ok(t2) ==> t2.wf() && (forall|q: Seq<Seq<char>>|
                !seg_prefix_of(d, q) && !strict_seg_prefix_of(q, d) ==> (#[trigger] t2.kind_at(
                    q,
                )) == t.kind_at(q)))
            &&& cp_model_exact(*t, s, options) ==> ((r matches Ok(t2) ==> (forall|
                q: Seq<Seq<char>>,
            |
                #[trigger] t2.kind_at(q) == cp_kind_spec(*t, s, d, force, q)))
                && if t.kind_at(s) is None {
                r matches Err(e) && e.kind == FsErrorKind::NotFound && e.message@
                    == crate::errors::msg2_spec(FsErrorKind::NotFound, "cp"@, src@, dest@)
            } else if t.kind_at(s) == Some(EntryKind::Directory) && !recursive {
                r matches Err(e) && e.kind == FsErrorKind::IsADirectory && e.message@
                    == crate::errors::msg2_spec(FsErrorKind::IsADirectory, "cp"@, src@, dest@)
            } else if d.len() == 0 {
                r matches Err(e) && e.kind == FsErrorKind::InvalidArgument && e.message@
                    == crate::errors::msg2_spec(FsErrorKind::InvalidArgument, "cp"@, src@, dest@)
            } else if cp_dest_prefix_bad(*t, d) {
                r matches Err(e) && e.kind == FsErrorKind::NotADirectory && e.message@
                    == crate::errors::msg2_spec(FsErrorKind::NotADirectory, "cp"@, src@, dest@)
            } else if exists|i: int|
                0 <= i < t.entries@.len() && cp_conflict_at(*t, s, d, force, eoe, i) {
                r matches Err(e) && exists|i: int|
                    0 <= i < t.entries@.len() && cp_conflict_at(*t, s, d, force, eoe, i) && (
                    forall|j: int| 0 <= j < i ==> !cp_conflict_at(*t, s, d, force, eoe, j))
                        && e.kind == cp_conflict_kind(*t, i) && e.message@
                        == crate::errors::msg2_spec(
                        cp_conflict_kind(*t, i),
                        "cp"@,
                        join_spec(t.entries@[i].pview()),
                        join_spec(cp_target(s, d, t.entries@[i].pview())),
                    )
            } else {
                r is Ok
            })
        }),
{
    let sv = crate::paths::split_path(src);
    let dv = crate::paths::split_path(dest);
    let ghost sd = sv.deep_view();
    let ghost dd = dv.deep_view();
    proof {
        crate::tree::lemma_split_valid(src@);
        crate::tree::lemma_split_valid(dest@);
        assert(sd.len() == sv@.len());
        assert(dd.len() == dv@.len());
    }
    let force = match &options {
        None => true,
        Some(o) => match o.force {
            None => true,
            Some(b) => b,
        },
    };
    let recursive = match &options {
        None => false,
        Some(o) => match o.recursive {
            None => false,
            Some(b) => b,
        },
    };
    let eoe = match &options {
        None => false,
        Some(o) => match o.error_on_exist {
            None => false,
            Some(b) => b,
        },
    };
    let skind = match t.lookup(&sv) {
        None => {
            return Err(crate::errors::fs_error2(FsErrorKind::NotFound, "cp", src, dest));
        },
        Some(k) => k,
    };
    if matches!(skind, EntryKind::Directory) && !recursive {
        return Err(crate::errors::fs_error2(FsErrorKind::IsADirectory, "cp", src, dest));
    }
    if dv.len() == 0 {
        return Err(crate::errors::fs_error2(FsErrorKind::InvalidArgument, "cp", src, dest));
    }
    proof {
        crate::tree::lemma_kind_at_index(t.entries@, sd);
        let w = choose|w: int|
            0 <= w < t.entries@.len() && (#[trigger] t.entries@[w].pview()) == sd;
        assert(crate::paths::valid_path(sd));
    }
    // Refuse a destination that sits under an existing non-directory.
    let mut pre: Vec<String> = Vec::new();
    let mut l: usize = 0;
    let dstop = dv.len() - 1;
    proof {
        assert(pre.deep_view() =~= dd.take(0));
    }
    while l < dstop
        invariant
            dstop == dd.len() - 1,
            t.wf(),
            sd == sv.deep_view(),
            dd == dv.deep_view(),
            sd == crate::paths::split_path_spec(src@),
            dd == crate::paths::split_path_spec(dest@),
            dd.len() == dv@.len(),
            dd.len() > 0,
            t.kind_at(sd) is Some,
            !(t.kind_at(sd) == Some(EntryKind::Directory) && !recursive),
            force == cp_force(options),
            recursive == cp_recursive(options),
            eoe == cp_error_on_exist(options),
            l + 1 <= dd.len(),
            pre.deep_view() == dd.take(l as int),
            forall|j: int|
                1 <= j <= l ==> !((#[trigger] t.kind_at(dd.take(j))) is Some && t.kind_at(
                    dd.take(j),
                ) != Some(EntryKind::Directory)),
        decreases dd.len() - l,
    {
        let ghost prev = pre.deep_view();
        pre.push(dv[l].clone());
        proof {
            assert(pre.deep_view() =~= prev.push(dd[l as int]));
            assert(pre.deep_view() =~= dd.take(l + 1));
        }
        match t.lookup(&pre) {
            Some(EntryKind::Directory) => {},
            Some(_) => {
                proof {
                    assert(t.kind_at(dd.take(l + 1)) is Some && t.kind_at(dd.take(l + 1))
                        != Some(EntryKind::Directory));
                    assert(1 <= l + 1 < dd.len());
                }
                return Err(crate::errors::fs_error2(FsErrorKind::NotADirectory, "cp", src, dest));
            },
            None => {},
        }
        l = l + 1;
    }
    proof {
        assert(!cp_dest_prefix_bad(*t, dd)) by {
            if cp_dest_prefix_bad(*t, dd) {
                let lb = choose|lb: int|
                    1 <= lb < dd.len() && (#[trigger] t.kind_at(dd.take(lb))) is Some && t.kind_at(
                        dd.take(lb),
                    ) != Some(EntryKind::Directory);
                assert(lb <= l);
            }
        }
    }
    // Refuse the first colliding entry, in entry order.
    let mut i: usize = 0;
    while i < t.entries.len()
        invariant
            t.wf(),
            sd == sv.deep_view(),
            dd == dv.deep_view(),
            sd == crate::paths::split_path_spec(src@),
            dd == crate::paths::split_path_spec(dest@),
            sd.len() == sv@.len(),
            dd.len() > 0,
            t.kind_at(sd) is Some,
            !(t.kind_at(sd) == Some(EntryKind::Directory) && !recursive),
            !cp_dest_prefix_bad(*t, dd),
            force == cp_force(options),
            recursive == cp_recursive(options),
            eoe == cp_error_on_exist(options),
            i <= t.entries@.len(),
            forall|j: int| 0 <= j < i ==> !cp_conflict_at(*t, sd, dd, force, eoe, j),
        decreases t.entries@.len() - i,
    {
        let member = crate::paths::is_seg_prefix(&sv, &t.entries[i].path);
        proof {
            assert(t.entries@[i as int].pview().len() == t.entries@[i as int].path@.len());
        }
        if member {
            let tgt = build_target(&dv, &t.entries[i].path, sv.len());
            proof {
                assert(tgt.deep_view() == cp_target(sd, dd, t.entries@[i as int].pview()));
            }
            let tk = t.lookup(&tgt);
            let e_is_dir = matches!(t.entries[i].kind, EntryKind::Directory);
            let bad = match tk {
                None => false,
                Some(k2) => if e_is_dir {
                    !matches!(k2, EntryKind::Directory)
                } else {
                    eoe || (force && matches!(k2, EntryKind::Directory))
                },
            };
            if bad {
                let ep_str = crate::paths::join_segs(&t.entries[i].path);
                let tp_str = crate::paths::join_segs(&tgt);
                let ek = if e_is_dir {
                    FsErrorKind::NotADirectory
                } else {
                    FsErrorKind::AlreadyExists
                };
                proof {
                    assert(cp_conflict_at(*t, sd, dd, force, eoe, i as int));
                    assert(cp_conflict_kind(*t, i as int) == ek);
                }
                return Err(crate::errors::fs_error2(ek, "cp", ep_str.as_str(), tp_str.as_str()));
            }
            proof {
                assert(!cp_conflict_at(*t, sd, dd, force, eoe, i as int));
            }
        } else {
            proof {
                assert(!cp_member(*t, sd, i as int));
            }
        }
        i = i + 1;
    }
    // Carry the copies out, one source entry at a time.
    let mut t2 = t.duplicate();
    proof {
        assert forall|q: Seq<Seq<char>>| #[trigger] t2.kind_at(q) == cp_partial(
            *t,
            sd,
            dd,
            force,
            0,
            q,
        ) by {
            assert(!nd_done(*t, sd, dd, 0, q));
            assert(!dir_done(*t, sd, dd, 0, q));
        }
    }
    let mut i2: usize = 0;
    while i2 < t.entries.len()
        invariant
            t.wf(),
            t2.wf(),
            sd == sv.deep_view(),
            dd == dv.deep_view(),
            sd == crate::paths::split_path_spec(src@),
            dd == crate::paths::split_path_spec(dest@),
            sd.len() == sv@.len(),
            dd.len() == dv@.len(),
            sd.len() > 0,
            dd.len() > 0,
            crate::paths::valid_path(sd),
            forall|j: int| 0 <= j < dd.len() ==> crate::paths::valid_seg(#[trigger] dd[j]),
            t.kind_at(sd) is Some,
            !cp_dest_prefix_bad(*t, dd),
            forall|j: int|
                0 <= j < t.entries@.len() ==> !cp_conflict_at(*t, sd, dd, force, eoe, j),
            i2 <= t.entries@.len(),
            forall|q: Seq<Seq<char>>|
                #[trigger] t2.kind_at(q) == cp_partial(*t, sd, dd, force, i2 as int, q),
        decreases t.entries@.len() - i2,
    {
        let member = crate::paths::is_seg_prefix(&sv, &t.entries[i2].path);
        proof {
            assert(t.entries@[i2 as int].pview().len() == t.entries@[i2 as int].path@.len());
        }
        if member {
            let ghost pvi = t.entries@[i2 as int].pview();
            let tgt = build_target(&dv, &t.entries[i2].path, sv.len());
            let ghost tgtd = tgt.deep_view();
            proof {
                assert(tgtd == cp_target(sd, dd, pvi));
                lemma_target_basics(sd, dd, pvi);
                assert(seg_prefix_of(dd, tgtd));
                assert(tgtd.len() >= dd.len());
                assert(crate::paths::valid_path(pvi));
                assert(forall|j: int|
                    0 <= j < tgtd.len() ==> crate::paths::valid_seg(#[trigger] tgtd[j])) by {
                    assert forall|j: int|
                        0 <= j < tgtd.len() implies crate::paths::valid_seg(
                        #[trigger] tgtd[j],
                    ) by {
                        if j < dd.len() {
                            assert(tgtd[j] == dd[j]);
                        } else {
                            assert(tgtd[j] == pvi[sd.len() + (j - dd.len())]);
                        }
                    }
                }
                assert(crate::paths::seg_prefix_of(tgtd, tgtd)) by {
                    assert(tgtd.subrange(0, tgtd.len() as int) =~= tgtd);
                }
            }
            if matches!(t.entries[i2].kind, EntryKind::Directory) {
                proof {
                    assert forall|l2: int|
                        1 <= l2 <= tgtd.len() implies ((#[trigger] t2.kind_at(
                        tgtd.take(l2),
                    )) is None || t2.kind_at(tgtd.take(l2)) == Some(EntryKind::Directory)) by {
                        let q = tgtd.take(l2);
                        assert(seg_prefix_of(q, tgtd)) by {
                            assert(tgtd.subrange(0, l2) =~= q);
                        }
                        lemma_cp_covered_dir(*t, sd, dd, force, eoe, i2 as int, q);
                        if nd_done(*t, sd, dd, i2 as int, q) {
                            assert(false);
                        }
                    }
                }
                t2.ensure_dirs(&tgt);
                proof {
                    assert forall|q: Seq<Seq<char>>| #[trigger] t2.kind_at(q) == cp_partial(
                        *t,
                        sd,
                        dd,
                        force,
                        i2 + 1,
                        q,
                    ) by {
                        lemma_cp_step(*t, sd, dd, force, eoe, i2 as int, q);
                        let old2 = cp_partial(*t, sd, dd, force, i2 as int, q);
                        if nd_done(*t, sd, dd, i2 as int, q) {
                            assert(old2 is Some);
                        } else if dir_done(*t, sd, dd, i2 as int, q) {
                            assert(old2 is Some);
                        } else {
                            if q.len() > 0 && seg_prefix_of(q, tgtd) {
                                assert(dir_done(*t, sd, dd, i2 + 1, q));
                            }
                        }
                    }
                }
            } else {
                let mut par = crate::tree::clone_path(&tgt);
                par.pop();
                let ghost pard = par.deep_view();
                proof {
                    assert(pard =~= tgtd.drop_last());
                    crate::paths::lemma_prefix_of_drop_last(tgtd);
                    assert(seg_prefix_of(pard, tgtd));
                    assert(forall|j: int|
                        0 <= j < pard.len() ==> crate::paths::valid_seg(#[trigger] pard[j]));
                    assert forall|l2: int|
                        1 <= l2 <= pard.len() implies ((#[trigger] t2.kind_at(
                        pard.take(l2),
                    )) is None || t2.kind_at(pard.take(l2)) == Some(EntryKind::Directory)) by {
                        let q = pard.take(l2);
                        assert(seg_prefix_of(q, pard)) by {
                            assert(pard.subrange(0, l2) =~= q);
                        }
                        crate::paths::lemma_prefix_trans(q, pard, tgtd);
                        assert(q != tgtd) by {
                            assert(q.len() <= pard.len() < tgtd.len());
                        }
                        lemma_cp_covered_dir(*t, sd, dd, force, eoe, i2 as int, q);
                        if nd_done(*t, sd, dd, i2 as int, q) {
                            assert(false);
                        }
                    }
                }
                t2.ensure_dirs(&par);
                let ghost tmid = t2;
                let tk = t.lookup(&tgt);
                proof {
                    // What the evolving tree holds at the target: exactly
                    // what the given snapshot held there.
                    assert(!nd_done(*t, sd, dd, i2 as int, tgtd)) by {
                        if nd_done(*t, sd, dd, i2 as int, tgtd) {
                            let j = choose|j: int|
                                #![trigger t.entries@[j].pview()]
                                0 <= j < i2 && cp_member(*t, sd, j) && t.entries@[j].kind
                                    != EntryKind::Directory && cp_target(
                                    sd,
                                    dd,
                                    t.entries@[j].pview(),
                                ) == tgtd;
                            lemma_target_prefix(sd, dd, t.entries@[j].pview(), pvi);
                            assert(t.entries@[j].pview() == pvi);
                        }
                    }
                    assert(!dir_done(*t, sd, dd, i2 as int, tgtd)) by {
                        if dir_done(*t, sd, dd, i2 as int, tgtd) {
                            let j = choose|j: int|
                                #![trigger t.entries@[j].pview()]
                                0 <= j < i2 && cp_member(*t, sd, j) && tgtd.len() > 0
                                    && seg_prefix_of(tgtd, cp_target(sd, dd, t.entries@[j].pview()))
                                    && (t.entries@[j].kind == EntryKind::Directory || tgtd
                                    != cp_target(sd, dd, t.entries@[j].pview()));
                            let pvj = t.entries@[j].pview();
                            lemma_target_prefix(sd, dd, pvi, pvj);
                            if pvi == pvj {
                            } else {
                                assert(seg_prefix_of(pvi, pvj));
                                assert(pvi.len() < pvj.len()) by {
                                    if pvi.len() == pvj.len() {
                                        assert(pvj.subrange(0, pvi.len() as int) =~= pvj);
                                    }
                                }
                                crate::tree::lemma_kind_at_index(t.entries@, pvj);
                                assert(t.kind_at(pvj) is Some);
                                crate::tree::lemma_ancestor_is_dir(*t, pvi, pvj);
                                crate::tree::lemma_kind_at_index(t.entries@, pvi);
                            }
                        }
                    }
                    assert(!seg_prefix_of(tgtd, pard)) by {
                        assert(pard.len() < tgtd.len());
                    }
                    assert(tmid.kind_at(tgtd) == t.kind_at(tgtd));
                    if tgtd.len() > 1 {
                        assert(tmid.kind_at(pard) == Some(EntryKind::Directory)) by {
                            assert(pard.len() > 0);
                            assert(seg_prefix_of(pard, pard)) by {
                                assert(pard.subrange(0, pard.len() as int) =~= pard);
                            }
                            if cp_partial(*t, sd, dd, force, i2 as int, pard) is None {
                            } else {
                                lemma_cp_covered_dir(*t, sd, dd, force, eoe, i2 as int, pard);
                                assert(pard != tgtd);
                                if nd_done(*t, sd, dd, i2 as int, pard) {
                                    assert(false);
                                }
                            }
                        }
                    }
                    assert(crate::paths::valid_path(tgtd)) by {
                        assert(tgtd.len() > 0);
                    }
                }
                match tk {
                    None => {
                        let np = crate::tree::clone_path(&tgt);
                        proof {
                            assert(t2.kind_at(tgtd) is None);
                            if tgtd.len() > 1 {
                                assert(tgtd.drop_last() =~= pard);
                            }
                        }
                        t2.add_entry_segs(np, t.entries[i2].kind);
                    },
                    Some(_) => {
                        if force {
                            proof {
                                assert(t2.kind_at(tgtd) is Some);
                                assert(t.kind_at(tgtd) != Some(EntryKind::Directory)) by {
                                    assert(!cp_conflict_at(*t, sd, dd, force, eoe, i2 as int));
                                }
                            }
                            t2.remove_leaf(&tgt);
                            let np = crate::tree::clone_path(&tgt);
                            proof {
                                assert(t2.kind_at(tgtd) is None);
                                if tgtd.len() > 1 {
                                    assert(tgtd.drop_last() =~= pard);
                                    assert(pard != tgtd);
                                    assert(t2.kind_at(pard) == Some(EntryKind::Directory));
                                }
                            }
                            t2.add_entry_segs(np, t.entries[i2].kind);
                        }
                    },
                }
                proof {
                    crate::tree::lemma_kind_at_index(t.entries@, pvi);
                    assert(t.kind_at(pvi) == Some(t.entries@[i2 as int].kind));
                    assert forall|q: Seq<Seq<char>>| #[trigger] t2.kind_at(q) == cp_partial(
                        *t,
                        sd,
                        dd,
                        force,
                        i2 + 1,
                        q,
                    ) by {
                        lemma_cp_step(*t, sd, dd, force, eoe, i2 as int, q);
                        let old2 = cp_partial(*t, sd, dd, force, i2 as int, q);
                        if q == tgtd {
                            assert(nd_done(*t, sd, dd, i2 + 1, q));
                            assert(sd + q.skip(dd.len() as int) == pvi) by {
                                assert(tgtd.skip(dd.len() as int) =~= pvi.skip(sd.len() as int));
                                assert(sd + pvi.skip(sd.len() as int) =~= pvi);
                            }
                        } else {
                            if q.len() > 0 && seg_prefix_of(q, tgtd) {
                                assert(seg_prefix_of(q, pard)) by {
                                    crate::paths::lemma_prefix_chain(q, pard, tgtd);
                                    assert(q.len() < tgtd.len()) by {
                                        if q.len() == tgtd.len() {
                                            assert(tgtd.subrange(0, q.len() as int) =~= tgtd);
                                        }
                                    }
                                }
                            }
                            if nd_done(*t, sd, dd, i2 as int, q) {
                                assert(old2 is Some);
                            } else if dir_done(*t, sd, dd, i2 as int, q) {
                                assert(old2 is Some);
                            } else {
                                if q.len() > 0 && seg_prefix_of(q, pard) {
                                    assert(dir_done(*t, sd, dd, i2 + 1, q)) by {
                                        crate::paths::lemma_prefix_trans(q, pard, tgtd);
                                        assert(q != tgtd) by {
                                            assert(q.len() <= pard.len() < tgtd.len());
                                        }
                                    }
                                }
                            }
                        }
                    }
                }
            }
        } else {
            proof {
                assert(!cp_member(*t, sd, i2 as int));
                assert forall|q: Seq<Seq<char>>| #[trigger] t2.kind_at(q) == cp_partial(
                    *t,
                    sd,
                    dd,
                    force,
                    i2 + 1,
                    q,
                ) by {
                    lemma_cp_step(*t, sd, dd, force, eoe, i2 as int, q);
                }
            }
        }
        i2 = i2 + 1;
    }
    proof {
        lemma_cp_final(*t, sd, dd, force, eoe);
        assert forall|q: Seq<Seq<char>>|
            !seg_prefix_of(dd, q) && !strict_seg_prefix_of(q, dd) implies (#[trigger] t2.kind_at(
            q,
        )) == t.kind_at(q) by {
            assert(t2.kind_at(q) == cp_kind_spec(*t, sd, dd, force, q));
        }
    }
    Ok(t2)
}

/// Copying into a fresh destination mirrors the source subtree: after a
/// successful copy that the model pins exactly ([`cp_model_exact`]) and
/// whose destination had nothing at or below it, every path below the
/// destination holds exactly what the same path relative to the source
/// held — whatever the `force` flag, and with symlink entries kept as
/// symlinks, so the relative structures agree exactly.
pub proof fn lemma_cp_fresh_dest_mirror(
    t: FsSnapshot,
    s: Seq<Seq<char>>,
    d: Seq<Seq<char>>,
    force: bool,
    rel: Seq<Seq<char>>,
)
    requires
        d.len() > 0,
        forall|q: Seq<Seq<char>>| seg_prefix_of(d, q) ==> (#[trigger] t.kind_at(q)) is None,
    ensures
        cp_kind_spec(t, s, d, force, d + rel) == t.kind_at(s + rel),
{
    let q = d + rel;
    assert(seg_prefix_of(d, q)) by {
        assert(q.subrange(0, d.len() as int) =~= d);
    }
    assert(t.kind_at(q) is None);
    assert(q.skip(d.len() as int) =~= rel);
    assert(s + q.skip(d.len() as int) == s + rel);
    assert(!strict_seg_prefix_of(q, d)) by {
        assert(q.len() >= d.len());
    }
}

/// After a successful copy that the model pins exactly
/// ([`cp_model_exact`]), into a fresh destination that does not sit inside
/// the source, the destination subtree and the source subtree of the
/// resulting snapshot agree path for path: every relative path holds an
/// entry of the same kind below both roots, or none below either. The two
/// recursive listings therefore carry the same relative structure,
/// directory flags and all.
pub proof fn lemma_cp_same_structure(
    t: FsSnapshot,
    t2: FsSnapshot,
    s: Seq<Seq<char>>,
    d: Seq<Seq<char>>,
    force: bool,
)
    requires
        t.kind_at(s) is Some,
        d.len() > 0,
        !seg_prefix_of(s, d),
        forall|q: Seq<Seq<char>>| seg_prefix_of(d, q) ==> (#[trigger] t.kind_at(q)) is None,
        forall|q: Seq<Seq<char>>| #[trigger] t2.kind_at(q) == cp_kind_spec(t, s, d, force, q),
    ensures
        forall|rel: Seq<Seq<char>>| #[trigger] t2.kind_at(d + rel) == t2.kind_at(s + rel),
{
    assert forall|rel: Seq<Seq<char>>| #[trigger] t2.kind_at(d + rel) == t2.kind_at(s + rel) by {
        lemma_cp_fresh_dest_mirror(t, s, d, force, rel);
        let q2 = s + rel;
        assert(seg_prefix_of(s, q2)) by {
            assert(q2.subrange(0, s.len() as int) =~= s);
        }
        if seg_prefix_of(d, q2) {
            if d.len() <= s.len() {
                crate::paths::lemma_prefix_chain(d, s, q2);
                assert(t.kind_at(s) is None);
            } else {
                crate::paths::lemma_prefix_chain(s, d, q2);
            }
            assert(false);
        }
        if q2.len() > 0 && strict_seg_prefix_of(q2, d) {
            crate::paths::lemma_prefix_trans(s, q2, d);
            assert(false);
        }
        assert(cp_kind_spec(t, s, d, force, q2) == t.kind_at(q2));
    }
}

/// How the done-predicates grow by one entry: a non-member changes nothing;
/// a member contributes its own target (with its kind) and the region below
/// its target.
proof fn lemma_cp_step(
    t: FsSnapshot,
    s: Seq<Seq<char>>,
    d: Seq<Seq<char>>,
    force: bool,
    eoe: bool,
    i: int,
    q: Seq<Seq<char>>,
)
    requires
        t.wf(),
        0 <= i < t.entries@.len(),
    ensures
        nd_done(t, s, d, i + 1, q) == (nd_done(t, s, d, i, q) || (cp_member(t, s, i)
            && t.entries@[i].kind != EntryKind::Directory && cp_target(
            s,
            d,
            t.entries@[i].pview(),
        ) == q)),
        dir_done(t, s, d, i + 1, q) == (dir_done(t, s, d, i, q) || (cp_member(t, s, i) && q.len()
            > 0 && seg_prefix_of(q, cp_target(s, d, t.entries@[i].pview())) && (t.entries@[i].kind
            == EntryKind::Directory || q != cp_target(s, d, t.entries@[i].pview())))),
{
    if nd_done(t, s, d, i + 1, q) {
        let j = choose|j: int|
            #![trigger t.entries@[j].pview()]
            0 <= j < i + 1 && cp_member(t, s, j) && t.entries@[j].kind != EntryKind::Directory
                && cp_target(s, d, t.entries@[j].pview()) == q;
        if j < i {
            assert(nd_done(t, s, d, i, q));
        }
    }
    if nd_done(t, s, d, i, q) {
        let j = choose|j: int|
            #![trigger t.entries@[j].pview()]
            0 <= j < i && cp_member(t, s, j) && t.entries@[j].kind != EntryKind::Directory
                && cp_target(s, d, t.entries@[j].pview()) == q;
        assert(nd_done(t, s, d, i + 1, q));
    }
    if cp_member(t, s, i) && t.entries@[i].kind != EntryKind::Directory && cp_target(
        s,
        d,
        t.entries@[i].pview(),
    ) == q {
        assert(nd_done(t, s, d, i + 1, q));
    }
    if dir_done(t, s, d, i + 1, q) {
        let j = choose|j: int|
            #![trigger t.entries@[j].pview()]
            0 <= j < i + 1 && cp_member(t, s, j) && q.len() > 0 && seg_prefix_of(
                q,
                cp_target(s, d, t.entries@[j].pview()),
            ) && (t.entries@[j].kind == EntryKind::Directory || q != cp_target(
                s,
                d,
                t.entries@[j].pview(),
            ));
        if j < i {
            assert(dir_done(t, s, d, i, q));
        }
    }
    if dir_done(t, s, d, i, q) {
        let j = choose|j: int|
            #![trigger t.entries@[j].pview()]
            0 <= j < i && cp_member(t, s, j) && q.len() > 0 && seg_prefix_of(
                q,
                cp_target(s, d, t.entries@[j].pview()),
            ) && (t.entries@[j].kind == EntryKind::Directory || q != cp_target(
                s,
                d,
                t.entries@[j].pview(),
            ));
        assert(dir_done(t, s, d, i + 1, q));
    }
    if cp_member(t, s, i) && q.len() > 0 && seg_prefix_of(q, cp_target(s, d, t.entries@[i].pview()))
        && (t.entries@[i].kind == EntryKind::Directory || q != cp_target(
        s,
        d,
        t.entries@[i].pview(),
    )) {
        assert(dir_done(t, s, d, i + 1, q));
    }
}

/// After every entry has been processed, the partial result is the copy's
/// result.
proof fn lemma_cp_final(t: FsSnapshot, s: Seq<Seq<char>>, d: Seq<Seq<char>>, force: bool, eoe: bool)
    requires
        t.wf(),
        t.kind_at(s) is Some,
        s.len() > 0,
        d.len() > 0,
        !cp_dest_prefix_bad(t, d),
        forall|j: int| 0 <= j < t.entries@.len() ==> !cp_conflict_at(t, s, d, force, eoe, j),
    ensures
        forall|q: Seq<Seq<char>>|
            #[trigger] cp_partial(t, s, d, force, t.entries@.len() as int, q) == cp_kind_spec(
                t,
                s,
                d,
                force,
                q,
            ),
{
    let n = t.entries@.len() as int;
    crate::tree::lemma_kind_at_index(t.entries@, s);
    let js = choose|js: int| 0 <= js < t.entries@.len() && (#[trigger] t.entries@[js].pview()) == s;
    assert(cp_member(t, s, js)) by {
        assert(s.subrange(0, s.len() as int) =~= s);
    }
    lemma_target_basics(s, d, s);
    assert(s.skip(s.len() as int) =~= Seq::<Seq<char>>::empty());
    assert(cp_target(s, d, s) =~= d) by {
        assert(d + Seq::<Seq<char>>::empty() =~= d);
    }
    assert forall|q: Seq<Seq<char>>|
        #[trigger] cp_partial(t, s, d, force, n, q) == cp_kind_spec(t, s, d, force, q) by {
        if nd_done(t, s, d, n, q) {
            let j = choose|j: int|
                #![trigger t.entries@[j].pview()]
                0 <= j < n && cp_member(t, s, j) && t.entries@[j].kind != EntryKind::Directory
                    && cp_target(s, d, t.entries@[j].pview()) == q;
            let pvj = t.entries@[j].pview();
            lemma_target_basics(s, d, pvj);
            assert(seg_prefix_of(d, q));
            assert(s + q.skip(d.len() as int) == pvj) by {
                assert(q.skip(d.len() as int) =~= pvj.skip(s.len() as int));
                assert(s + pvj.skip(s.len() as int) =~= pvj);
            }
            crate::tree::lemma_kind_at_index(t.entries@, pvj);
            assert(t.kind_at(s + q.skip(d.len() as int)) == Some(t.entries@[j].kind));
        } else if dir_done(t, s, d, n, q) {
            let j = choose|j: int|
                #![trigger t.entries@[j].pview()]
                0 <= j < n && cp_member(t, s, j) && q.len() > 0 && seg_prefix_of(
                    q,
                    cp_target(s, d, t.entries@[j].pview()),
                ) && (t.entries@[j].kind == EntryKind::Directory || q != cp_target(
                    s,
                    d,
                    t.entries@[j].pview(),
                ));
            lemma_cp_covered_dir(t, s, d, force, eoe, j, q);
            let pvj = t.entries@[j].pview();
            lemma_target_basics(s, d, pvj);
            if q.len() < d.len() {
                // a proper initial run of the destination
                crate::paths::lemma_prefix_chain(q, d, cp_target(s, d, pvj));
                assert(strict_seg_prefix_of(q, d));
                if seg_prefix_of(d, q) {
                    assert(false);
                }
                assert(cp_kind_spec(t, s, d, force, q) == Some(EntryKind::Directory));
                if t.kind_at(q) is Some {
                    assert(t.kind_at(q) == Some(EntryKind::Directory));
                }
            } else {
                crate::paths::lemma_prefix_chain(d, q, cp_target(s, d, pvj));
                let rel = q.skip(d.len() as int);
                let m = s + rel;
                assert(seg_prefix_of(s, m)) by {
                    assert(m.subrange(0, s.len() as int) =~= s);
                }
                assert(q == cp_target(s, d, m)) by {
                    lemma_target_basics(s, d, m);
                    assert(m.skip(s.len() as int) =~= rel);
                    assert(d + rel =~= q) by {
                        assert forall|k: int| 0 <= k < q.len() implies (d + rel)[k] == q[k] by {
                            if k < d.len() {
                                assert(cp_target(s, d, pvj).subrange(0, q.len() as int)[k]
                                    == q[k]);
                                assert(cp_target(s, d, pvj).subrange(0, d.len() as int)[k]
                                    == d[k]);
                            }
                        }
                    }
                }
                // the source path above q's relative part is present
                assert(t.kind_at(m) is Some) by {
                    lemma_target_prefix(s, d, m, pvj);
                    assert(seg_prefix_of(m, pvj));
                    crate::tree::lemma_kind_at_index(t.entries@, pvj);
                    assert(t.kind_at(pvj) is Some);
                    assert(m =~= pvj.take(m.len() as int)) by {
                        assert(pvj.subrange(0, m.len() as int) =~= m);
                    }
                    crate::tree::lemma_prefix_chain_present(t, pvj, m.len() as int);
                }
                assert(t.kind_at(m) == Some(EntryKind::Directory)) by {
                    crate::tree::lemma_kind_at_index(t.entries@, m);
                    let jm = choose|jm: int|
                        0 <= jm < t.entries@.len() && (#[trigger] t.entries@[jm].pview()) == m;
                    assert(cp_member(t, s, jm));
                    assert(t.entries@[jm].kind == EntryKind::Directory);
                }
                assert(cp_kind_spec(t, s, d, force, q) == Some(EntryKind::Directory));
                if t.kind_at(q) is Some {
                    assert(t.kind_at(q) == Some(EntryKind::Directory));
                }
            }
        } else {
            // no processed entry reaches q: the copy leaves it alone, and the
            // result formula must agree
            if seg_prefix_of(d, q) && t.kind_at(s + q.skip(d.len() as int)) is Some {
                let m = s + q.skip(d.len() as int);
                crate::tree::lemma_kind_at_index(t.entries@, m);
                let jm = choose|jm: int|
                    0 <= jm < t.entries@.len() && (#[trigger] t.entries@[jm].pview()) == m;
                assert(cp_member(t, s, jm)) by {
                    assert(m.subrange(0, s.len() as int) =~= s);
                }
                assert(q == cp_target(s, d, m)) by {
                    lemma_target_basics(s, d, m);
                    assert(m.skip(s.len() as int) =~= q.skip(d.len() as int));
                    assert(d + q.skip(d.len() as int) =~= q) by {
                        assert(q.subrange(0, d.len() as int) =~= d);
                    }
                }
                assert(q.len() > 0);
                assert(seg_prefix_of(q, cp_target(s, d, m))) by {
                    assert(q.subrange(0, q.len() as int) =~= q);
                }
                if t.entries@[jm].kind == EntryKind::Directory {
                    assert(dir_done(t, s, d, n, q));
                    assert(false);
                } else {
                    assert(nd_done(t, s, d, n, q));
                    assert(false);
                }
            }
            if q.len() > 0 && strict_seg_prefix_of(q, d) {
                assert(seg_prefix_of(q, cp_target(s, d, s))) by {
                    assert(cp_target(s, d, s) == d);
                }
                assert(q != cp_target(s, d, s)) by {
                    assert(q.len() < d.len());
                }
                assert(dir_done(t, s, d, n, q)) by {
                    assert(0 <= js < n && cp_member(t, s, js) && q.len() > 0 && seg_prefix_of(
                        q,
                        cp_target(s, d, t.entries@[js].pview()),
                    ) && (t.entries@[js].kind == EntryKind::Directory || q != cp_target(
                        s,
                        d,
                        t.entries@[js].pview(),
                    )));
                }
                assert(false);
            }
        }
    }
}

} // verus!
