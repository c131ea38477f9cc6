//! The snapshot model of a directory tree.
//!
//! A snapshot holds one entry per path below an unnamed root: the path as
//! its segment sequence and the kind of the entry. Well-formedness asks that
//! paths are unique and valid and that every entry below the top level has
//! its parent present as a directory. The traversal and mutation operations
//! of this crate are specified as functions of such snapshots.

use vstd::prelude::*;

use crate::paths::seg_prefix_of;
use crate::paths::valid_path;
use crate::types::EntryKind;

verus! {

/// One entry of a snapshot: its path from the root, and its kind.
#[derive(Clone, Debug)]
pub struct FsEntry {
    pub path: Vec<String>,
    pub kind: EntryKind,
}

impl FsEntry {
    /// The path of the entry as a sequence of segment character sequences.
    pub open spec fn pview(self) -> Seq<Seq<char>> {
        self.path.deep_view()
    }
}

/// The kind recorded for path `p` in the entry run `es`, if any; the first
/// entry with that path decides.
pub open spec fn kind_at_seq(es: Seq<FsEntry>, p: Seq<Seq<char>>) -> Option<EntryKind>
    decreases es.len(),
{
    if es.len() == 0 {
        None
    } else if es[0].pview() == p {
        Some(es[0].kind)
    } else {
        kind_at_seq(es.drop_first(), p)
    }
}

/// A snapshot of a directory tree.
#[derive(Clone, Debug)]
pub struct FsSnapshot {
    pub entries: Vec<FsEntry>,
}

impl FsSnapshot {
    /// The kind recorded for path `p`, if any.
    pub open spec fn kind_at(self, p: Seq<Seq<char>>) -> Option<EntryKind> {
        kind_at_seq(self.entries@, p)
    }

    /// Well-formedness: valid unique paths, and every entry below the top
    /// level sits in a directory that is itself present.
    pub open spec fn wf(self) -> bool {
        let es = self.entries@;
        &&& forall|i: int| 0 <= i < es.len() ==> valid_path(#[trigger] es[i].pview())
        &&& forall|i: int, j: int|
            0 <= i < es.len() && 0 <= j < es.len() && i != j ==> (#[trigger] es[i].pview())
                != (#[trigger] es[j].pview())
        &&& forall|i: int|
            0 <= i < es.len() && #[trigger] es[i].pview().len() > 1 ==> kind_at_seq(
                es,
                es[i].pview().drop_last(),
            ) == Some(EntryKind::Directory)
    }

    /// The empty snapshot.
    pub fn new() -> (t: FsSnapshot)
        ensures
            t.entries@ =~= Seq::<FsEntry>::empty(),
            t.wf(),
    {
        FsSnapshot { entries: Vec::new() }
    }

    /// Looks the path `p` up.
    pub fn lookup(&self, p: &Vec<String>) -> (r: Option<EntryKind>)
        ensures
            r == self.kind_at(p.deep_view()),
    {
        let mut i: usize = 0;
        proof {
            assert(self.entries@.skip(0) =~= self.entries@);
        }
        while i < self.entries.len()
            invariant
                i <= self.entries@.len(),
                kind_at_seq(self.entries@.skip(i as int), p.deep_view()) == kind_at_seq(
                    self.entries@,
                    p.deep_view(),
                ),
            decreases self.entries@.len() - i,
        {
            proof {
                assert(self.entries@.skip(i as int).drop_first() =~= self.entries@.skip(i + 1));
                assert(self.entries@.skip(i as int)[0] == self.entries@[i as int]);
            }
            if crate::paths::path_eq(&self.entries[i].path, p) {
                proof {
                    assert(self.entries@.skip(i as int)[0].pview() == p.deep_view());
                    assert(kind_at_seq(self.entries@.skip(i as int), p.deep_view()) == Some(
                        self.entries@[i as int].kind,
                    ));
                }
                return Some(self.entries[i].kind);
            }
            i = i + 1;
        }
        proof {
            assert(self.entries@.skip(self.entries@.len() as int) =~= Seq::<FsEntry>::empty());
        }
        None
    }

    /// Does any entry sit strictly below `p`?
    pub fn has_descendant(&self, p: &Vec<String>) -> (r: bool)
        ensures
            r == exists|i: int|
                0 <= i < self.entries@.len() && crate::paths::strict_seg_prefix_of(
                    p.deep_view(),
                    #[trigger] self.entries@[i].pview(),
                ),
    {
        let mut i: usize = 0;
        while i < self.entries.len()
            invariant
                i <= self.entries@.len(),
                forall|j: int|
                    0 <= j < i ==> !crate::paths::strict_seg_prefix_of(
                        p.deep_view(),
                        #[trigger] self.entries@[j].pview(),
                    ),
            decreases self.entries@.len() - i,
        {
            if crate::paths::is_seg_prefix(p, &self.entries[i].path) && self.entries[i].path.len()
                > p.len() {
                proof {
                    assert(self.entries@[i as int].pview().len() == self.entries@[i as int].path@.len());
                    assert(p.deep_view().len() == p@.len());
                    assert(crate::paths::strict_seg_prefix_of(
                        p.deep_view(),
                        self.entries@[i as int].pview(),
                    ));
                }
                return true;
            }
            proof {
                assert(self.entries@[i as int].pview().len() == self.entries@[i as int].path@.len());
                assert(p.deep_view().len() == p@.len());
            }
            i = i + 1;
        }
        false
    }

    /// Adds an entry at `path` with kind `kind`. The addition is carried out,
    /// and `true` returned, exactly when the path is nonempty, nothing is
    /// recorded there yet, and its parent (when it has one) is present as a
    /// directory; otherwise the snapshot stays as it was.
    pub fn add_entry(&mut self, path: &str, kind: EntryKind) -> (ok: bool)
        requires
            old(self).wf(),
        ensures
            final(self).wf(),
            ({
                let p = crate::paths::split_path_spec(path@);
                if p.len() > 0 && old(self).kind_at(p) is None && (p.len() == 1 || old(
                    self,
                ).kind_at(p.drop_last()) == Some(EntryKind::Directory)) {
                    &&& ok
                    &&& final(self).kind_at(p) == Some(kind)
                    &&& forall|q: Seq<Seq<char>>|
                        q != p ==> final(self).kind_at(q) == old(self).kind_at(q)
                } else {
                    !ok && *final(self) == *old(self)
                }
            }),
    {
        let segs = crate::paths::split_path(path);
        proof {
            lemma_split_valid(path@);
            assert(segs.deep_view().len() == segs@.len());
        }
        if segs.len() == 0 {
            return false;
        }
        if self.lookup(&segs).is_some() {
            return false;
        }
        if segs.len() > 1 {
            let mut parent = segs.clone();
            let ghost segsd = segs.deep_view();
            parent.pop();
            proof {
                assert(parent.deep_view() =~= segsd.drop_last());
            }
            match self.lookup(&parent) {
                Some(k) => {
                    if !matches!(k, EntryKind::Directory) {
                        return false;
                    }
                },
                None => {
                    return false;
                },
            }
        }
        self.add_entry_segs(segs, kind);
        true
    }

    /// Adds an entry at the segment path `segs`, which must be valid, fresh,
    /// and sitting in a present directory (or at the top level).
    pub fn add_entry_segs(&mut self, segs: Vec<String>, kind: EntryKind)
        requires
            old(self).wf(),
            crate::paths::valid_path(segs.deep_view()),
            old(self).kind_at(segs.deep_view()) is None,
            segs.deep_view().len() == 1 || old(self).kind_at(segs.deep_view().drop_last())
                == Some(EntryKind::Directory),
        ensures
            final(self).wf(),
            final(self).kind_at(segs.deep_view()) == Some(kind),
            forall|q: Seq<Seq<char>>|
                q != segs.deep_view() ==> final(self).kind_at(q) == old(self).kind_at(q),
    {
        let ghost oldes = self.entries@;
        let ghost p = segs.deep_view();
        let e = FsEntry { path: segs, kind };
        self.entries.push(e);
        proof {
            let es = self.entries@;
            assert(es =~= oldes.push(e));
            assert(es.drop_last() =~= oldes);
            assert(es.last().pview() == p);
            lemma_kind_at_push_all(oldes, e);
            lemma_kind_at_push(oldes, e, p);
            assert forall|q: Seq<Seq<char>>| q != p implies kind_at_seq(es, q) == kind_at_seq(
                oldes,
                q,
            ) by {
                lemma_kind_at_push(oldes, e, q);
            }
            assert forall|i: int| 0 <= i < es.len() implies valid_path(
                #[trigger] es[i].pview(),
            ) by {
                if i < oldes.len() {
                    assert(es[i] == oldes[i]);
                }
            }
            lemma_kind_at_none_iff(oldes, p);
            assert forall|i: int, j: int|
                0 <= i < es.len() && 0 <= j < es.len() && i != j implies (
            #[trigger] es[i].pview()) != (#[trigger] es[j].pview()) by {
                if i < oldes.len() && j < oldes.len() {
                    assert(es[i] == oldes[i] && es[j] == oldes[j]);
                }
            }
            assert forall|i: int|
                0 <= i < es.len() && #[trigger] es[i].pview().len() > 1 implies kind_at_seq(
                es,
                es[i].pview().drop_last(),
            ) == Some(EntryKind::Directory) by {
                if i < oldes.len() {
                    assert(es[i] == oldes[i]);
                    assert(kind_at_seq(oldes, es[i].pview().drop_last()) == Some(
                        EntryKind::Directory,
                    ));
                } else {
                    assert(es[i] == e);
                }
            }
        }
    }

    /// Copies the snapshot.
    pub fn duplicate(&self) -> (r: FsSnapshot)
        requires
            self.wf(),
        ensures
            r.wf(),
            forall|q: Seq<Seq<char>>| #[trigger] r.kind_at(q) == self.kind_at(q),
    {
        let ghost tv = self.entries@;
        let mut out: Vec<FsEntry> = Vec::new();
        let mut i: usize = 0;
        proof {
            assert(tv.take(0) =~= Seq::<FsEntry>::empty());
        }
        while i < self.entries.len()
            invariant
                self.wf(),
                tv == self.entries@,
                i <= tv.len(),
                forall|q: Seq<Seq<char>>|
                    #[trigger] kind_at_seq(out@, q) == kind_at_seq(tv.take(i as int), q),
                forall|j: int|
                    0 <= j < out@.len() ==> crate::paths::valid_path(#[trigger] out@[j].pview()),
                forall|j1: int, j2: int|
                    0 <= j1 < out@.len() && 0 <= j2 < out@.len() && j1 != j2 ==> (
                    #[trigger] out@[j1].pview()) != (#[trigger] out@[j2].pview()),
            decreases tv.len() - i,
        {
            let e2 = clone_entry(&self.entries[i]);
            let ghost outold = out@;
            proof {
                assert(e2.pview() == tv[i as int].pview() && e2.kind == tv[i as int].kind);
                lemma_take_unique(tv, i as int);
                assert(kind_at_seq(outold, e2.pview()) is None);
                lemma_kind_at_none_iff(outold, e2.pview());
                lemma_kind_at_push_all(outold, e2);
                lemma_kind_at_push_all(tv.take(i as int), tv[i as int]);
            }
            out.push(e2);
            proof {
                assert(out@ =~= outold.push(e2));
                assert(tv.take(i + 1) =~= tv.take(i as int).push(tv[i as int]));
                assert forall|q: Seq<Seq<char>>|
                    #[trigger] kind_at_seq(out@, q) == kind_at_seq(tv.take(i + 1), q) by {}
            }
            i = i + 1;
        }
        proof {
            assert(tv.take(tv.len() as int) =~= tv);
        }
        let r = FsSnapshot { entries: out };
        proof {
            assert forall|i2: int|
                0 <= i2 < r.entries@.len() && #[trigger] r.entries@[i2].pview().len()
                    > 1 implies kind_at_seq(
                r.entries@,
                r.entries@[i2].pview().drop_last(),
            ) == Some(EntryKind::Directory) by {
                let pv = r.entries@[i2].pview();
                lemma_kind_at_none_iff(r.entries@, pv);
                assert(kind_at_seq(r.entries@, pv) is Some);
                assert(kind_at_seq(tv, pv) is Some);
                lemma_parent_present(*self, pv);
            }
        }
        r
    }
}

/// Index-wise uniqueness carries to a front prefix: within `take(i)` no
/// entry carries the path of entry `i`.
pub proof fn lemma_take_unique(tv: Seq<FsEntry>, i: int)
    requires
        0 <= i < tv.len(),
        forall|j1: int, j2: int|
            0 <= j1 < tv.len() && 0 <= j2 < tv.len() && j1 != j2 ==> (#[trigger] tv[j1].pview())
                != (#[trigger] tv[j2].pview()),
    ensures
        kind_at_seq(tv.take(i), tv[i].pview()) is None,
{
    lemma_kind_at_none_iff(tv.take(i), tv[i].pview());
    assert forall|j: int| 0 <= j < i implies (#[trigger] tv.take(i)[j].pview()) != tv[i].pview() by {
        assert(tv.take(i)[j] == tv[j]);
    }
}

impl FsSnapshot {
    /// Makes every nonempty initial run of `segs` a directory, adding the
    /// missing ones; every initial run that is already present must be a
    /// directory.
    pub fn ensure_dirs(&mut self, segs: &Vec<String>)
        requires
            old(self).wf(),
            forall|j: int|
                0 <= j < segs.deep_view().len() ==> crate::paths::valid_seg(
                    #[trigger] segs.deep_view()[j],
                ),
            forall|l: int|
                1 <= l <= segs.deep_view().len() ==> ((#[trigger] old(self).kind_at(
                    segs.deep_view().take(l),
                )) is None || old(self).kind_at(segs.deep_view().take(l)) == Some(
                    EntryKind::Directory,
                )),
        ensures
            final(self).wf(),
            forall|q: Seq<Seq<char>>|
                #[trigger] final(self).kind_at(q) == if q.len() > 0 && crate::paths::seg_prefix_of(
                    q,
                    segs.deep_view(),
                ) && old(self).kind_at(q) is None {
                    Some(EntryKind::Directory)
                } else {
                    old(self).kind_at(q)
                },
    {
        let ghost t0 = *old(self);
        let ghost sd = segs.deep_view();
        let mut pre: Vec<String> = Vec::new();
        let mut k: usize = 0;
        proof {
            assert(pre.deep_view() =~= sd.take(0));
            assert forall|q: Seq<Seq<char>>|
                #[trigger] self.kind_at(q) == if q.len() > 0 && crate::paths::seg_prefix_of(
                    q,
                    sd.take(0),
                ) && t0.kind_at(q) is None {
                    Some(EntryKind::Directory)
                } else {
                    t0.kind_at(q)
                } by {
                if q.len() > 0 && crate::paths::seg_prefix_of(q, sd.take(0)) {
                    assert(q.len() <= 0);
                }
            }
        }
        while k < segs.len()
            invariant
                t0.wf(),
                self.wf(),
                sd == segs.deep_view(),
                sd.len() == segs@.len(),
                k <= sd.len(),
                pre.deep_view() == sd.take(k as int),
                forall|j: int| 0 <= j < sd.len() ==> crate::paths::valid_seg(#[trigger] sd[j]),
                forall|l: int|
                    1 <= l <= sd.len() ==> ((#[trigger] t0.kind_at(sd.take(l))) is None
                        || t0.kind_at(sd.take(l)) == Some(EntryKind::Directory)),
                forall|q: Seq<Seq<char>>|
                    #[trigger] self.kind_at(q) == if q.len() > 0 && crate::paths::seg_prefix_of(
                        q,
                        sd.take(k as int),
                    ) && t0.kind_at(q) is None {
                        Some(EntryKind::Directory)
                    } else {
                        t0.kind_at(q)
                    },
            decreases sd.len() - k,
        {
            let ghost prev = pre.deep_view();
            pre.push(segs[k].clone());
            proof {
                assert(pre.deep_view() =~= prev.push(sd[k as int]));
                assert(pre.deep_view() =~= sd.take(k + 1));
            }
            let ghost npd = sd.take(k + 1);
            proof {
                assert(crate::paths::seg_prefix_of(npd, npd)) by {
                    assert(npd.subrange(0, npd.len() as int) =~= npd);
                }
                assert(!crate::paths::seg_prefix_of(npd, sd.take(k as int)));
            }
            match self.lookup(&pre) {
                None => {
                    proof {
                        assert(t0.kind_at(npd) is None);
                        assert(crate::paths::valid_path(npd)) by {
                            assert(forall|j: int|
                                0 <= j < npd.len() ==> crate::paths::valid_seg(#[trigger] npd[j]));
                        }
                        if npd.len() > 1 {
                            let par = npd.drop_last();
                            assert(par =~= sd.take(k as int));
                            assert(self.kind_at(par) == Some(EntryKind::Directory)) by {
                                if t0.kind_at(par) is None {
                                    assert(crate::paths::seg_prefix_of(par, sd.take(k as int)))
                                        by {
                                        assert(sd.take(k as int).subrange(0, par.len() as int)
                                            =~= par);
                                    }
                                } else {
                                    assert(t0.kind_at(sd.take(k as int)) == Some(
                                        EntryKind::Directory,
                                    ));
                                }
                            }
                        }
                    }
                    let np = clone_path(&pre);
                    self.add_entry_segs(np, EntryKind::Directory);
                },
                Some(_) => {
                    proof {
                        assert(self.kind_at(npd) is Some);
                        assert(t0.kind_at(npd) is Some || crate::paths::seg_prefix_of(
                            npd,
                            sd.take(k as int),
                        ));
                        assert(t0.kind_at(npd) == Some(EntryKind::Directory));
                    }
                },
            }
            proof {
                assert forall|q: Seq<Seq<char>>|
                    #[trigger] self.kind_at(q) == if q.len() > 0 && crate::paths::seg_prefix_of(
                        q,
                        sd.take(k + 1),
                    ) && t0.kind_at(q) is None {
                        Some(EntryKind::Directory)
                    } else {
                        t0.kind_at(q)
                    } by {
                    if q != npd {
                        crate::paths::lemma_prefix_shrink(q, sd, k as int);
                    }
                }
            }
            k = k + 1;
        }
        proof {
            assert(sd.take(sd.len() as int) =~= sd);
        }
    }

    /// Removes the entry at `p`, which must be present and no directory.
    pub fn remove_leaf(&mut self, p: &Vec<String>)
        requires
            old(self).wf(),
            old(self).kind_at(p.deep_view()) is Some,
            old(self).kind_at(p.deep_view()) != Some(EntryKind::Directory),
        ensures
            final(self).wf(),
            forall|q: Seq<Seq<char>>|
                #[trigger] final(self).kind_at(q) == if q == p.deep_view() {
                    None::<EntryKind>
                } else {
                    old(self).kind_at(q)
                },
    {
        let ghost tv = self.entries@;
        let ghost t0 = *old(self);
        let ghost pd = p.deep_view();
        let mut out: Vec<FsEntry> = Vec::new();
        let mut i: usize = 0;
        proof {
            assert(tv.take(0) =~= Seq::<FsEntry>::empty());
        }
        while i < self.entries.len()
            invariant
                t0.wf(),
                t0 == *self,
                tv == self.entries@,
                pd == p.deep_view(),
                i <= tv.len(),
                forall|q: Seq<Seq<char>>|
                    #[trigger] kind_at_seq(out@, q) == if q == pd {
                        None::<EntryKind>
                    } else {
                        kind_at_seq(tv.take(i as int), q)
                    },
                forall|j: int|
                    0 <= j < out@.len() ==> crate::paths::valid_path(#[trigger] out@[j].pview()),
                forall|j1: int, j2: int|
                    0 <= j1 < out@.len() && 0 <= j2 < out@.len() && j1 != j2 ==> (
                    #[trigger] out@[j1].pview()) != (#[trigger] out@[j2].pview()),
            decreases tv.len() - i,
        {
            let keep = !crate::paths::path_eq(&self.entries[i].path, p);
            proof {
                assert(tv.take(i + 1) =~= tv.take(i as int).push(tv[i as int]));
                lemma_kind_at_push_all(tv.take(i as int), tv[i as int]);
                lemma_take_unique(tv, i as int);
            }
            if keep {
                let e2 = clone_entry(&self.entries[i]);
                let ghost outold = out@;
                proof {
                    assert(kind_at_seq(outold, e2.pview()) is None);
                    lemma_kind_at_none_iff(outold, e2.pview());
                    lemma_kind_at_push_all(outold, e2);
                }
                out.push(e2);
                proof {
                    assert(out@ =~= outold.push(e2));
                    assert forall|q: Seq<Seq<char>>|
                        #[trigger] kind_at_seq(out@, q) == if q == pd {
                            None::<EntryKind>
                        } else {
                            kind_at_seq(tv.take(i + 1), q)
                        } by {}
                }
            } else {
                proof {
                    assert forall|q: Seq<Seq<char>>|
                        #[trigger] kind_at_seq(out@, q) == if q == pd {
                            None::<EntryKind>
                        } else {
                            kind_at_seq(tv.take(i + 1), q)
                        } by {}
                }
            }
            i = i + 1;
        }
        proof {
            assert(tv.take(tv.len() as int) =~= tv);
        }
        self.entries = out;
        proof {
            assert forall|j: int|
                0 <= j < self.entries@.len() && #[trigger] self.entries@[j].pview().len()
                    > 1 implies kind_at_seq(
                self.entries@,
                self.entries@[j].pview().drop_last(),
            ) == Some(EntryKind::Directory) by {
                let pv = self.entries@[j].pview();
                let parent = pv.drop_last();
                lemma_kind_at_none_iff(self.entries@, pv);
                assert(kind_at_seq(self.entries@, pv) is Some);
                assert(pv != pd);
                assert(kind_at_seq(tv, pv) is Some);
                lemma_parent_present(t0, pv);
                assert(parent != pd) by {
                    if parent == pd {
                        assert(kind_at_seq(tv, pd) == Some(EntryKind::Directory));
                    }
                }
            }
        }
    }
}

/// With paths unique, a present path has exactly one entry, whose kind the
/// lookup reports.
pub proof fn lemma_kind_at_index(es: Seq<FsEntry>, p: Seq<Seq<char>>)
    requires
        forall|j1: int, j2: int|
            0 <= j1 < es.len() && 0 <= j2 < es.len() && j1 != j2 ==> (#[trigger] es[j1].pview())
                != (#[trigger] es[j2].pview()),
    ensures
        (kind_at_seq(es, p) is Some) <==> (exists|j: int|
            0 <= j < es.len() && (#[trigger] es[j].pview()) == p),
        forall|j: int|
            0 <= j < es.len() && (#[trigger] es[j].pview()) == p ==> kind_at_seq(es, p) == Some(
                es[j].kind,
            ),
    decreases es.len(),
{
    lemma_kind_at_none_iff(es, p);
    if es.len() > 0 && es[0].pview() != p {
        let d = es.drop_first();
        assert(forall|j1: int, j2: int|
            0 <= j1 < d.len() && 0 <= j2 < d.len() && j1 != j2 ==> (#[trigger] d[j1].pview()) != (
            #[trigger] d[j2].pview())) by {
            assert(forall|j: int| 0 <= j < d.len() ==> (#[trigger] d[j]) == es[j + 1]);
        }
        lemma_kind_at_index(d, p);
        assert forall|j: int|
            0 <= j < es.len() && (#[trigger] es[j].pview()) == p implies kind_at_seq(es, p) == Some(
            es[j].kind,
        ) by {
            assert(j >= 1);
            assert(d[j - 1] == es[j]);
        }
    }
}

/// A strict ancestor of a present path is present as a directory.
pub proof fn lemma_ancestor_is_dir(t: FsSnapshot, p: Seq<Seq<char>>, q: Seq<Seq<char>>)
    requires
        t.wf(),
        crate::paths::strict_seg_prefix_of(p, q),
        p.len() > 0,
        t.kind_at(q) is Some,
    ensures
        t.kind_at(p) == Some(EntryKind::Directory),
    decreases q.len(),
{
    let parent = q.drop_last();
    assert(q.len() > 1);
    lemma_parent_present(t, q);
    assert(parent =~= q.take(q.len() - 1));
    if p.len() == parent.len() {
        assert(p =~= parent) by {
            assert(q.subrange(0, p.len() as int) =~= p);
        }
    } else {
        assert(crate::paths::strict_seg_prefix_of(p, parent)) by {
            assert(parent.subrange(0, p.len() as int) =~= q.subrange(0, p.len() as int));
        }
        lemma_ancestor_is_dir(t, p, parent);
    }
}

/// Every nonempty initial run of a present path is present: presence walks
/// up the parent chain.
pub proof fn lemma_prefix_chain_present(t: FsSnapshot, p: Seq<Seq<char>>, n: int)
    requires
        t.wf(),
        0 < n <= p.len(),
        t.kind_at(p) is Some,
    ensures
        t.kind_at(p.take(n)) is Some,
    decreases p.len() - n,
{
    if n == p.len() {
        assert(p.take(n) =~= p);
    } else {
        lemma_prefix_chain_present(t, p, n + 1);
        assert(p.take(n + 1).len() > 1);
        lemma_parent_present(t, p.take(n + 1));
        assert(p.take(n + 1).drop_last() =~= p.take(n));
    }
}

/// An entry present below the top level has its parent present as a
/// directory.
pub proof fn lemma_parent_present(t: FsSnapshot, q: Seq<Seq<char>>)
    requires
        t.wf(),
        q.len() > 1,
        t.kind_at(q) is Some,
    ensures
        t.kind_at(q.drop_last()) == Some(EntryKind::Directory),
{
    lemma_kind_at_none_iff(t.entries@, q);
    let w = choose|w: int| 0 <= w < t.entries@.len() && (#[trigger] t.entries@[w].pview()) == q;
    assert(t.entries@[w].pview().len() > 1);
    assert(kind_at_seq(t.entries@, t.entries@[w].pview().drop_last()) == Some(
        EntryKind::Directory,
    ));
}

/// Copies a segment path.
pub fn clone_path(v: &Vec<String>) -> (r: Vec<String>)
    ensures
        r.deep_view() == v.deep_view(),
{
    let mut r: Vec<String> = Vec::new();
    let mut i: usize = 0;
    while i < v.len()
        invariant
            i <= v@.len(),
            r@.len() == i,
            forall|j: int| 0 <= j < i ==> r.deep_view()[j] == #[trigger] v.deep_view()[j],
        decreases v@.len() - i,
    {
        r.push(v[i].clone());
        i = i + 1;
    }
    proof {
        assert(r.deep_view() =~= v.deep_view());
    }
    r
}

/// Copies one entry.
pub fn clone_entry(e: &FsEntry) -> (r: FsEntry)
    ensures
        r.pview() == e.pview(),
        r.kind == e.kind,
{
    FsEntry { path: clone_path(&e.path), kind: e.kind }
}

/// Every segment that splitting a path string produces is valid.
pub proof fn lemma_split_valid(s: Seq<char>)
    ensures
        forall|j: int|
            0 <= j < crate::paths::split_path_spec(s).len() ==> crate::paths::valid_seg(
                #[trigger] crate::paths::split_path_spec(s)[j],
            ),
{
    lemma_split_go_valid(s, Seq::empty(), Seq::empty());
}

proof fn lemma_split_go_valid(s: Seq<char>, cur: Seq<char>, acc: Seq<Seq<char>>)
    requires
        forall|j: int| 0 <= j < acc.len() ==> crate::paths::valid_seg(#[trigger] acc[j]),
        forall|k: int| 0 <= k < cur.len() ==> #[trigger] cur[k] != '/',
    ensures
        forall|j: int|
            0 <= j < crate::paths::split_go(s, cur, acc).len() ==> crate::paths::valid_seg(
                #[trigger] crate::paths::split_go(s, cur, acc)[j],
            ),
    decreases s.len(),
{
    let r = crate::paths::split_go(s, cur, acc);
    if s.len() == 0 {
        if cur.len() > 0 {
            assert(r == acc.push(cur));
            assert(crate::paths::valid_seg(cur));
            assert forall|j: int| 0 <= j < r.len() implies crate::paths::valid_seg(
                #[trigger] r[j],
            ) by {
                if j < acc.len() {
                    assert(r[j] == acc[j]);
                } else {
                    assert(r[j] == cur);
                }
            }
        } else {
            assert(r == acc);
            assert forall|j: int| 0 <= j < r.len() implies crate::paths::valid_seg(
                #[trigger] r[j],
            ) by {
                assert(r[j] == acc[j]);
            }
        }
    } else if s[0] == '/' {
        let acc2 = if cur.len() == 0 {
            acc
        } else {
            acc.push(cur)
        };
        if cur.len() > 0 {
            assert(crate::paths::valid_seg(cur));
            assert forall|j: int| 0 <= j < acc2.len() implies crate::paths::valid_seg(
                #[trigger] acc2[j],
            ) by {
                if j < acc.len() {
                    assert(acc2[j] == acc[j]);
                } else {
                    assert(acc2[j] == cur);
                }
            }
        }
        lemma_split_go_valid(s.drop_first(), Seq::empty(), acc2);
        assert(r == crate::paths::split_go(s.drop_first(), Seq::empty(), acc2));
        assert forall|j: int| 0 <= j < r.len() implies crate::paths::valid_seg(
            #[trigger] r[j],
        ) by {
            assert(r[j] == crate::paths::split_go(s.drop_first(), Seq::empty(), acc2)[j]);
        }
    } else {
        assert(forall|k: int|
            0 <= k < cur.push(s[0]).len() ==> #[trigger] cur.push(s[0])[k] != '/');
        lemma_split_go_valid(s.drop_first(), cur.push(s[0]), acc);
        assert(r == crate::paths::split_go(s.drop_first(), cur.push(s[0]), acc));
        assert forall|j: int| 0 <= j < r.len() implies crate::paths::valid_seg(
            #[trigger] r[j],
        ) by {
            assert(r[j] == crate::paths::split_go(s.drop_first(), cur.push(s[0]), acc)[j]);
        }
    }
}

/// `kind_at_seq` yields nothing exactly when no entry carries the path.
pub proof fn lemma_kind_at_none_iff(es: Seq<FsEntry>, p: Seq<Seq<char>>)
    ensures
        (kind_at_seq(es, p) is None) <==> (forall|i: int|
            0 <= i < es.len() ==> (#[trigger] es[i].pview()) != p),
    decreases es.len(),
{
    if es.len() > 0 {
        lemma_kind_at_none_iff(es.drop_first(), p);
        assert forall|i: int| 1 <= i < es.len() implies es.drop_first()[i - 1] == es[i] by {}
    }
}

/// Looking any path up in a run extended at its end: the old run decides
/// first, the new entry only where the old run is silent.
pub proof fn lemma_kind_at_push_all(es: Seq<FsEntry>, e: FsEntry)
    ensures
        forall|q: Seq<Seq<char>>|
            #[trigger] kind_at_seq(es.push(e), q) == if kind_at_seq(es, q) is Some {
                kind_at_seq(es, q)
            } else if e.pview() == q {
                Some(e.kind)
            } else {
                None
            },
{
    assert forall|q: Seq<Seq<char>>|
        #[trigger] kind_at_seq(es.push(e), q) == if kind_at_seq(es, q) is Some {
            kind_at_seq(es, q)
        } else if e.pview() == q {
            Some(e.kind)
        } else {
            None
        } by {
        lemma_kind_at_push(es, e, q);
    }
}

proof fn lemma_kind_at_push(es: Seq<FsEntry>, e: FsEntry, q: Seq<Seq<char>>)
    ensures
        kind_at_seq(es.push(e), q) == if kind_at_seq(es, q) is Some {
            kind_at_seq(es, q)
        } else if e.pview() == q {
            Some(e.kind)
        } else {
            None
        },
    decreases es.len(),
{
    if es.len() == 0 {
        assert(es.push(e)[0] == e);
        assert(es.push(e).drop_first() =~= Seq::<FsEntry>::empty());
    } else {
        assert(es.push(e)[0] == es[0]);
        assert(es.push(e).drop_first() =~= es.drop_first().push(e));
        lemma_kind_at_push(es.drop_first(), e, q);
    }
}

} // verus!
