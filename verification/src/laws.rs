//! Relations between the traversal operations.
//!
//! The recursive listing of a snapshot and the pattern walk over it are
//! specified independently; this module proves how they agree: with the
//! overlay including every path, the walk's non-directory results carry
//! exactly the paths of the listing's non-directory entries.

use vstd::prelude::*;

use crate::glob::glob_typed;
use crate::glob::glob_visible;
use crate::paths::join_spec;
use crate::paths::strict_seg_prefix_of;
use crate::paths::valid_path;
use crate::pattern::overlay;
use crate::pattern::Polarity;
use crate::pattern::Verdict;
use crate::readdir::readdir_list;
use crate::readdir::readdir_visible;
use crate::tree::FsEntry;
use crate::types::kind_id;
use crate::types::EntryKind;

verus! {

/// The paths of the non-directory entries of a listing, in order.
pub open spec fn listing_nondir_paths(l: Seq<(Seq<char>, Seq<char>, bool)>) -> Seq<Seq<char>>
    decreases l.len(),
{
    if l.len() == 0 {
        Seq::empty()
    } else {
        let rest = listing_nondir_paths(l.drop_last());
        if !l.last().2 {
            rest.push(l.last().1)
        } else {
            rest
        }
    }
}

/// The full path a typed walk result denotes: its parent path and its name
/// joined.
pub open spec fn joined_of(parent: Seq<char>, name: Seq<char>) -> Seq<char> {
    if parent.len() == 0 {
        name
    } else {
        parent + seq!['/'] + name
    }
}

/// The paths of the non-directory entries of a typed walk result, in order.
pub open spec fn typed_nondir_paths(l: Seq<(Seq<char>, Seq<char>, u8)>) -> Seq<Seq<char>>
    decreases l.len(),
{
    if l.len() == 0 {
        Seq::empty()
    } else {
        let rest = typed_nondir_paths(l.drop_last());
        if l.last().2 != kind_id(EntryKind::Directory) {
            rest.push(joined_of(l.last().1, l.last().0))
        } else {
            rest
        }
    }
}

/// The joined form of a valid path is never empty.
proof fn lemma_join_nonempty(p: Seq<Seq<char>>)
    requires
        valid_path(p),
    ensures
        join_spec(p).len() > 0,
    decreases p.len(),
{
    if p.len() == 1 {
        assert(valid_path(p) ==> p[0].len() > 0);
    } else {
        assert(valid_path(p.drop_last())) by {
            assert(forall|j: int| 0 <= j < p.drop_last().len() ==> p.drop_last()[j] == p[j]);
        }
        lemma_join_nonempty(p.drop_last());
    }
}

/// Joining a valid path equals joining its parent and appending its name.
proof fn lemma_join_parts(p: Seq<Seq<char>>)
    requires
        valid_path(p),
    ensures
        join_spec(p) == joined_of(join_spec(p.drop_last()), p.last()),
{
    if p.len() == 1 {
        assert(p.drop_last() =~= Seq::<Seq<char>>::empty());
    } else {
        assert(valid_path(p.drop_last())) by {
            assert(forall|j: int| 0 <= j < p.drop_last().len() ==> p.drop_last()[j] == p[j]);
        }
        lemma_join_nonempty(p.drop_last());
    }
}

/// The recursive, unfiltered listing of a root lists exactly the present
/// paths strictly below it: an entry stands in the listing exactly when
/// its path is present in the snapshot, with that path's name, its joined
/// form and its directory flag. Together with the copy law on kinds
/// ([`crate::cp::lemma_cp_same_structure`]), the listings of a fresh copy's
/// destination and of its source therefore correspond entry for entry at
/// equal relative paths, directory flags and all.
pub proof fn lemma_listing_membership(
    es: Seq<FsEntry>,
    root: Seq<Seq<char>>,
    x: (Seq<char>, Seq<char>, bool),
)
    requires
        forall|j1: int, j2: int|
            0 <= j1 < es.len() && 0 <= j2 < es.len() && j1 != j2 ==> (#[trigger] es[j1].pview())
                != (#[trigger] es[j2].pview()),
    ensures
        readdir_list(es, root, true, false).contains(x) <==> (exists|p: Seq<Seq<char>>|
            strict_seg_prefix_of(root, p) && (#[trigger] crate::tree::kind_at_seq(es, p)) is Some
                && x == (
            p.last(),
            join_spec(p),
            crate::tree::kind_at_seq(es, p) == Some(EntryKind::Directory),
        )),
    decreases es.len(),
{
    let l = readdir_list(es, root, true, false);
    if es.len() == 0 {
        if l.contains(x) {
            let idx = choose|idx: int| 0 <= idx < l.len() && l[idx] == x;
            assert(false);
        }
        if exists|p: Seq<Seq<char>>|
            strict_seg_prefix_of(root, p) && (#[trigger] crate::tree::kind_at_seq(es, p)) is Some
                && x == (
            p.last(),
            join_spec(p),
            crate::tree::kind_at_seq(es, p) == Some(EntryKind::Directory),
        ) {
            assert(false);
        }
    } else {
        let es0 = es.drop_last();
        let e = es.last();
        assert(forall|j1: int, j2: int|
            0 <= j1 < es0.len() && 0 <= j2 < es0.len() && j1 != j2 ==> (#[trigger] es0[j1].pview())
                != (#[trigger] es0[j2].pview())) by {
            assert(forall|j: int| 0 <= j < es0.len() ==> #[trigger] es0[j] == es[j]);
        }
        lemma_listing_membership(es0, root, x);
        let l0 = readdir_list(es0, root, true, false);
        assert(es =~= es0.push(e));
        crate::tree::lemma_kind_at_push_all(es0, e);
        assert(crate::tree::kind_at_seq(es0, e.pview()) is None) by {
            crate::tree::lemma_take_unique(es, es.len() - 1);
            assert(es.take(es.len() - 1) =~= es0);
        }
        let visible = readdir_visible(e, root, true, false);
        let y = crate::readdir::listing_of(e);
        // membership across the one-entry extension, on both sides
        if l.contains(x) {
            let idx = choose|idx: int| 0 <= idx < l.len() && l[idx] == x;
            if visible {
                assert(l == l0.push(y));
                if idx < l0.len() {
                    assert(l0[idx] == x);
                    assert(l0.contains(x));
                } else {
                    assert(x == y);
                }
            } else {
                assert(l == l0);
                assert(l0.contains(x));
            }
        }
        if l0.contains(x) {
            let idx = choose|idx: int| 0 <= idx < l0.len() && l0[idx] == x;
            if visible {
                assert(l == l0.push(y));
                assert(l[idx] == x);
            }
            assert(l.contains(x));
        }
        if visible && x == y {
            assert(l == l0.push(y));
            assert(l[l0.len() as int] == x);
            assert(l.contains(x));
        }
        // the present-path witnesses across the extension
        if l.contains(x) {
            if l0.contains(x) {
                let p = choose|p: Seq<Seq<char>>|
                    strict_seg_prefix_of(root, p) && (#[trigger] crate::tree::kind_at_seq(
                        es0,
                        p,
                    )) is Some && x == (
                    p.last(),
                    join_spec(p),
                    crate::tree::kind_at_seq(es0, p) == Some(EntryKind::Directory),
                );
                assert(crate::tree::kind_at_seq(es, p) == crate::tree::kind_at_seq(es0, p));
            } else {
                assert(visible && x == y);
                let p = e.pview();
                assert(crate::tree::kind_at_seq(es, p) == Some(e.kind));
                assert(strict_seg_prefix_of(root, p));
                assert(x == (
                    p.last(),
                    join_spec(p),
                    crate::tree::kind_at_seq(es, p) == Some(EntryKind::Directory),
                ));
            }
        }
        if exists|p: Seq<Seq<char>>|
            strict_seg_prefix_of(root, p) && (#[trigger] crate::tree::kind_at_seq(es, p)) is Some
                && x == (
            p.last(),
            join_spec(p),
            crate::tree::kind_at_seq(es, p) == Some(EntryKind::Directory),
        ) {
            let p = choose|p: Seq<Seq<char>>|
                strict_seg_prefix_of(root, p) && (#[trigger] crate::tree::kind_at_seq(
                    es,
                    p,
                )) is Some && x == (
                p.last(),
                join_spec(p),
                crate::tree::kind_at_seq(es, p) == Some(EntryKind::Directory),
            );
            if crate::tree::kind_at_seq(es0, p) is Some {
                assert(crate::tree::kind_at_seq(es, p) == crate::tree::kind_at_seq(es0, p));
                assert(l0.contains(x));
                assert(l.contains(x));
            } else {
                assert(p == e.pview());
                assert(crate::tree::kind_at_seq(es, p) == Some(e.kind));
                assert(visible);
                assert(x == y);
                assert(l.contains(x));
            }
        }
    }
}

/// The round trip between the recursive listing and the all-including walk:
/// against an overlay that includes every path, the pattern walk rooted at
/// the top of the snapshot yields, among its non-directory results, exactly
/// the paths that the recursive listing of the top yields among its
/// non-directory entries — the listing minus its directories is the walk's
/// flattened file set.
pub proof fn lemma_readdir_glob_files(es: Seq<FsEntry>, rules: Seq<(Seq<char>, Polarity)>)
    requires
        forall|p: Seq<char>| #[trigger] overlay(rules, p) == Verdict::Included,
        forall|i: int| 0 <= i < es.len() ==> valid_path(#[trigger] es[i].pview()),
    ensures
        listing_nondir_paths(readdir_list(es, Seq::empty(), true, false)) == typed_nondir_paths(
            glob_typed(es, Seq::empty(), rules),
        ),
    decreases es.len(),
{
    if es.len() > 0 {
        assert(forall|i: int|
            0 <= i < es.drop_last().len() ==> valid_path(#[trigger] es.drop_last()[i].pview()))
            by {
            assert(forall|i: int|
                0 <= i < es.drop_last().len() ==> es.drop_last()[i] == es[i]);
        }
        lemma_readdir_glob_files(es.drop_last(), rules);
        let e = es.last();
        assert(valid_path(e.pview()));
        assert(strict_seg_prefix_of(Seq::empty(), e.pview())) by {
            assert(e.pview().subrange(0, 0) =~= Seq::<Seq<char>>::empty());
        }
        assert(readdir_visible(e, Seq::empty(), true, false));
        assert(glob_visible(e, Seq::empty(), rules)) by {
            assert(overlay(rules, join_spec(e.pview())) == Verdict::Included);
        }
        let rl = readdir_list(es, Seq::empty(), true, false);
        let gl = glob_typed(es, Seq::empty(), rules);
        assert(rl == readdir_list(es.drop_last(), Seq::empty(), true, false).push(
            crate::readdir::listing_of(e),
        ));
        assert(gl == glob_typed(es.drop_last(), Seq::empty(), rules).push(
            crate::glob::typed_of(e),
        ));
        assert(rl.drop_last() =~= readdir_list(es.drop_last(), Seq::empty(), true, false));
        assert(rl.last() == crate::readdir::listing_of(e));
        assert(gl.drop_last() =~= glob_typed(es.drop_last(), Seq::empty(), rules));
        assert(gl.last() == crate::glob::typed_of(e));
        lemma_join_parts(e.pview());
        if e.kind == EntryKind::Directory {
            assert(crate::readdir::listing_of(e).2);
            assert(crate::glob::typed_of(e).2 == kind_id(EntryKind::Directory));
        } else {
            assert(!crate::readdir::listing_of(e).2);
            assert(crate::glob::typed_of(e).2 != kind_id(EntryKind::Directory));
            assert(joined_of(crate::glob::typed_of(e).1, crate::glob::typed_of(e).0) == join_spec(
                e.pview(),
            ));
        }
    }
}

} // verus!
