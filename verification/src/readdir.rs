//! Recursive directory listing over the snapshot model.
//!
//! A listing walks the subtree below a root path and yields one entry per
//! visited path: its name, its full path and whether it is a directory.
//! `recursive` turns the one-level listing into a full walk; `skip_hidden`
//! prunes entries with a hidden name — and everything below them — from the
//! walk entirely. The root itself is never listed.

use vstd::prelude::*;

use crate::errors::FsError;
use crate::errors::FsErrorKind;
use crate::paths::any_hidden;
use crate::paths::join_spec;
use crate::paths::strict_seg_prefix_of;
use crate::tree::FsEntry;
use crate::tree::FsSnapshot;
use crate::types::EntryKind;

verus! {

/// Options of a listing.
#[derive(Clone, Debug)]
pub struct ReaddirOptions {
    pub skip_hidden: Option<bool>,
    pub concurrency: Option<u32>,
    pub recursive: Option<bool>,
}

/// One listed entry: its name, its full path, and whether it is a directory.
#[derive(Clone, Debug)]
pub struct Dirent {
    pub name: String,
    pub path: String,
    pub is_dir: bool,
}

/// The `skip_hidden` flag an option value resolves to; unset means `false`.
pub open spec fn rd_skip_hidden(options: Option<ReaddirOptions>) -> bool {
    match options {
        None => false,
        Some(o) => match o.skip_hidden {
            None => false,
            Some(b) => b,
        },
    }
}

/// The `recursive` flag an option value resolves to; unset means `false`.
pub open spec fn rd_recursive(options: Option<ReaddirOptions>) -> bool {
    match options {
        None => false,
        Some(o) => match o.recursive {
            None => false,
            Some(b) => b,
        },
    }
}

/// Whether a listing of `root` yields the entry `e`: the entry lies strictly
/// below the root, at depth one unless the walk is recursive, and carries no
/// hidden name below the root when hidden entries are skipped.
pub open spec fn readdir_visible(
    e: FsEntry,
    root: Seq<Seq<char>>,
    recursive: bool,
    skip_hidden: bool,
) -> bool {
    &&& strict_seg_prefix_of(root, e.pview())
    &&& (recursive || e.pview().len() == root.len() + 1)
    &&& (!skip_hidden || !any_hidden(e.pview().skip(root.len() as int)))
}

/// What one visible entry contributes to the listing.
pub open spec fn listing_of(e: FsEntry) -> (Seq<char>, Seq<char>, bool) {
    (e.pview().last(), join_spec(e.pview()), e.kind == EntryKind::Directory)
}

/// The listing of a root over an entry run, in entry order.
pub open spec fn readdir_list(
    es: Seq<FsEntry>,
    root: Seq<Seq<char>>,
    recursive: bool,
    skip_hidden: bool,
) -> Seq<(Seq<char>, Seq<char>, bool)>
    decreases es.len(),
{
    if es.len() == 0 {
        Seq::empty()
    } else {
        let rest = readdir_list(es.drop_last(), root, recursive, skip_hidden);
        if readdir_visible(es.last(), root, recursive, skip_hidden) {
            rest.push(listing_of(es.last()))
        } else {
            rest
        }
    }
}

/// The view of a produced listing.
pub open spec fn dirent_views(v: Seq<Dirent>) -> Seq<(Seq<char>, Seq<char>, bool)> {
    Seq::new(v.len(), |k: int| (v[k].name@, v[k].path@, v[k].is_dir))
}

/// Does any segment of `path` from position `from` on carry a hidden name?
pub(crate) fn rel_hidden(path: &Vec<String>, from: usize) -> (r: bool)
    requires
        from <= path@.len(),
    ensures
        r == any_hidden(path.deep_view().skip(from as int)),
{
    let ghost dv = path.deep_view();
    let mut j: usize = from;
    while j < path.len()
        invariant
            dv == path.deep_view(),
            dv.len() == path@.len(),
            from <= j <= dv.len(),
            forall|k: int| from <= k < j ==> !crate::paths::hidden_name(#[trigger] dv[k]),
        decreases dv.len() - j,
    {
        if crate::paths::is_hidden_name(&path[j]) {
            proof {
                assert(dv.skip(from as int)[j - from] == dv[j as int]);
            }
            return true;
        }
        j = j + 1;
    }
    proof {
        assert forall|k: int| 0 <= k < dv.skip(from as int).len() implies !crate::paths::hidden_name(
            #[trigger] dv.skip(from as int)[k],
        ) by {
            assert(dv.skip(from as int)[k] == dv[k + from]);
        }
    }
    false
}

/// Is the entry `e` visible from `root` under the given flags?
fn visible_check(e: &FsEntry, root: &Vec<String>, recursive: bool, skip_hidden: bool) -> (r: bool)
    ensures
        r == readdir_visible(*e, root.deep_view(), recursive, skip_hidden),
{
    proof {
        assert(e.pview().len() == e.path@.len());
        assert(root.deep_view().len() == root@.len());
    }
    if !crate::paths::is_seg_prefix(root, &e.path) {
        return false;
    }
    if e.path.len() <= root.len() {
        return false;
    }
    if !recursive && e.path.len() != root.len() + 1 {
        return false;
    }
    if skip_hidden {
        if rel_hidden(&e.path, root.len()) {
            return false;
        }
    }
    true
}

/// Lists the entries below `path`.
///
/// Fails with `NotFound` exactly when a nonempty `path` has no entry; an
/// empty path names the root of the snapshot, which always exists. On
/// success the listing holds, in entry order, exactly the entries the flags
/// make visible, each as its name, its full path and its directory flag.
pub fn readdir_sync(t: &FsSnapshot, path: &str, options: Option<ReaddirOptions>) -> (r: Result<
    Vec<Dirent>,
    FsError,
>)
    ensures
        ({
            let root = crate::paths::split_path_spec(path@);
            let recursive = rd_recursive(options);
            let skip_hidden = rd_skip_hidden(options);
            &&& (r is Err) <==> (root.len() > 0 && t.kind_at(root) is None)
            &&& (r matches Err(e) ==> e.kind == FsErrorKind::NotFound && e.message@
                == crate::errors::msg_spec(FsErrorKind::NotFound, "scandir"@, path@))
            &&& (r matches Ok(v) ==> dirent_views(v@) == readdir_list(
                t.entries@,
                root,
                recursive,
                skip_hidden,
            ))
        }),
{
    let root = crate::paths::split_path(path);
    let recursive = match &options {
        None => false,
        Some(o) => match o.recursive {
            None => false,
            Some(b) => b,
        },
    };
    let skip_hidden = match &options {
        None => false,
        Some(o) => match o.skip_hidden {
            None => false,
            Some(b) => b,
        },
    };
    if root.len() > 0 && t.lookup(&root).is_none() {
        proof {
            assert(crate::paths::split_path_spec(path@).len() > 0);
        }
        return Err(crate::errors::fs_error(FsErrorKind::NotFound, "scandir", path));
    }
    let ghost tv = t.entries@;
    let ghost rootd = root.deep_view();
    let mut out: Vec<Dirent> = Vec::new();
    let mut i: usize = 0;
    proof {
        assert(tv.take(0) =~= Seq::<FsEntry>::empty());
        assert(dirent_views(out@) =~= readdir_list(tv.take(0), rootd, recursive, skip_hidden));
    }
    while i < t.entries.len()
        invariant
            tv == t.entries@,
            rootd == root.deep_view(),
            i <= tv.len(),
            dirent_views(out@) == readdir_list(tv.take(i as int), rootd, recursive, skip_hidden),
        decreases tv.len() - i,
    {
        proof {
            assert(tv.take(i + 1).drop_last() =~= tv.take(i as int));
            assert(tv.take(i + 1).last() == tv[i as int]);
        }
        if visible_check(&t.entries[i], &root, recursive, skip_hidden) {
            let e = &t.entries[i];
            proof {
                assert(tv[i as int].pview().len() == tv[i as int].path@.len());
                assert(tv[i as int].pview().len() > rootd.len() >= 0);
            }
            let name = e.path[e.path.len() - 1].clone();
            let joined = crate::paths::join_segs(&e.path);
            let is_dir = matches!(e.kind, EntryKind::Directory);
            let d = Dirent { name, path: joined, is_dir };
            let ghost outold = out@;
            proof {
                assert(d.name@ == tv[i as int].pview().last());
                assert(d.path@ == join_spec(tv[i as int].pview()));
            }
            out.push(d);
            proof {
                assert(dirent_views(out@) =~= dirent_views(outold).push(
                    (d.name@, d.path@, d.is_dir),
                ));
            }
        }
        i = i + 1;
    }
    proof {
        assert(tv.take(tv.len() as int) =~= tv);
    }
    Ok(out)
}

/// The full paths of the regular-file entries of an entry run, in order.
pub open spec fn file_paths(es: Seq<FsEntry>) -> Seq<Seq<char>>
    decreases es.len(),
{
    if es.len() == 0 {
        Seq::empty()
    } else {
        let rest = file_paths(es.drop_last());
        if es.last().pview().len() > 0 && es.last().kind == EntryKind::File {
            rest.push(join_spec(es.last().pview()))
        } else {
            rest
        }
    }
}

/// Lists the full paths of the regular-file entries of the snapshot, in
/// entry order: the files-only recursive listing of the snapshot root.
/// Directories, symlinks and special files never appear in it.
pub fn ls(t: &FsSnapshot) -> (r: Vec<String>)
    ensures
        r.deep_view() == file_paths(t.entries@),
{
    let ghost tv = t.entries@;
    let mut out: Vec<String> = Vec::new();
    let mut i: usize = 0;
    proof {
        assert(tv.take(0) =~= Seq::<FsEntry>::empty());
        assert(out.deep_view() =~= file_paths(tv.take(0)));
    }
    while i < t.entries.len()
        invariant
            tv == t.entries@,
            i <= tv.len(),
            out.deep_view() == file_paths(tv.take(i as int)),
        decreases tv.len() - i,
    {
        proof {
            assert(tv.take(i + 1).drop_last() =~= tv.take(i as int));
            assert(tv.take(i + 1).last() == tv[i as int]);
            assert(tv[i as int].pview().len() == tv[i as int].path@.len());
        }
        let e = &t.entries[i];
        if e.path.len() > 0 && matches!(e.kind, EntryKind::File) {
            let joined = crate::paths::join_segs(&e.path);
            let ghost outold = out.deep_view();
            proof {
                assert(joined@ == join_spec(tv[i as int].pview()));
            }
            out.push(joined);
            proof {
                assert(out.deep_view() =~= outold.push(join_spec(tv[i as int].pview())));
            }
        }
        i = i + 1;
    }
    proof {
        assert(tv.take(tv.len() as int) =~= tv);
    }
    out
}

/// Two listings of one snapshot whose options differ at most in their
/// concurrency setting are the same: the listing is a function of the root,
/// the `recursive` flag and the `skip_hidden` flag alone.
pub proof fn lemma_readdir_concurrency_irrelevant(
    t: FsSnapshot,
    root: Seq<Seq<char>>,
    o1: Option<ReaddirOptions>,
    o2: Option<ReaddirOptions>,
)
    requires
        rd_recursive(o1) == rd_recursive(o2),
        rd_skip_hidden(o1) == rd_skip_hidden(o2),
    ensures
        readdir_list(t.entries@, root, rd_recursive(o1), rd_skip_hidden(o1)) == readdir_list(
            t.entries@,
            root,
            rd_recursive(o2),
            rd_skip_hidden(o2),
        ),
{
}

} // verus!
