//! Pattern-matched walking over the snapshot model.
//!
//! A glob call compiles one include pattern with any exclude patterns into
//! a [`crate::pattern::Matcher`], restricts the walk to the literal prefix
//! extracted from the pattern, and yields every entry strictly below that
//! prefix whose full path the overlay includes — files and directories
//! alike, the walk root itself never. Results come as plain paths or, on
//! request, as typed entries.

use vstd::prelude::*;

use crate::errors::FsError;
use crate::errors::FsErrorKind;
use crate::paths::join_spec;
use crate::paths::strict_seg_prefix_of;
use crate::pattern::glob_pattern_ok;
use crate::pattern::overlay;
use crate::pattern::MatchRule;
use crate::pattern::Matcher;
use crate::pattern::Polarity;
use crate::pattern::Verdict;
use crate::tree::FsEntry;
use crate::tree::FsSnapshot;
use crate::types::kind_id;
use crate::types::EntryKind;

verus! {

/// Options of a glob call. The working directory is the root of the
/// snapshot the call walks, so `cwd` is carried for the caller that touches
/// the real filesystem; ignore-rule filtering reads ignore files during the
/// real walk and is likewise the caller's concern.
#[derive(Clone, Debug)]
pub struct GlobOptions {
    pub cwd: Option<String>,
    pub with_file_types: Option<bool>,
    pub exclude: Option<Vec<String>>,
    pub concurrency: Option<u32>,
    pub git_ignore: Option<bool>,
}

/// What a glob call yields: plain paths, or typed entries on request.
pub enum GlobResult {
    Paths(Vec<String>),
    Entries(Vec<crate::types::Dirent>),
}

/// The `with_file_types` flag an option value resolves to; unset means
/// `false`.
pub open spec fn glob_with_types(options: Option<GlobOptions>) -> bool {
    match options {
        None => false,
        Some(o) => match o.with_file_types {
            None => false,
            Some(b) => b,
        },
    }
}

/// The exclude patterns an option value resolves to; unset means none.
pub open spec fn glob_excludes(options: Option<GlobOptions>) -> Seq<Seq<char>> {
    match options {
        None => Seq::empty(),
        Some(o) => match o.exclude {
            None => Seq::empty(),
            Some(v) => v.deep_view(),
        },
    }
}

/// The rule list a glob call runs: the user pattern as the one include
/// rule, each exclude pattern appended as an exclude rule.
pub open spec fn glob_rule_views(pattern: Seq<char>, excludes: Seq<Seq<char>>) -> Seq<
    (Seq<char>, Polarity),
> {
    seq![(pattern, Polarity::Include)] + Seq::new(
        excludes.len(),
        |i: int| (excludes[i], Polarity::Exclude),
    )
}

/// Whether the walk yields the entry `e`: strictly below the walk-root
/// prefix, and its full path included by the overlay.
pub open spec fn glob_visible(
    e: FsEntry,
    prefix: Seq<Seq<char>>,
    rules: Seq<(Seq<char>, Polarity)>,
) -> bool {
    strict_seg_prefix_of(prefix, e.pview()) && overlay(rules, join_spec(e.pview()))
        == Verdict::Included
}

/// The paths a glob call yields, in entry order.
pub open spec fn glob_paths(
    es: Seq<FsEntry>,
    prefix: Seq<Seq<char>>,
    rules: Seq<(Seq<char>, Polarity)>,
) -> Seq<Seq<char>>
    decreases es.len(),
{
    if es.len() == 0 {
        Seq::empty()
    } else {
        let rest = glob_paths(es.drop_last(), prefix, rules);
        if glob_visible(es.last(), prefix, rules) {
            rest.push(join_spec(es.last().pview()))
        } else {
            rest
        }
    }
}

/// What one visible entry contributes to a typed result: its name, the path
/// of its parent, and the identifier of its kind.
pub open spec fn typed_of(e: FsEntry) -> (Seq<char>, Seq<char>, u8) {
    (e.pview().last(), join_spec(e.pview().drop_last()), kind_id(e.kind))
}

/// The typed entries a glob call yields, in entry order.
pub open spec fn glob_typed(
    es: Seq<FsEntry>,
    prefix: Seq<Seq<char>>,
    rules: Seq<(Seq<char>, Polarity)>,
) -> Seq<(Seq<char>, Seq<char>, u8)>
    decreases es.len(),
{
    if es.len() == 0 {
        Seq::empty()
    } else {
        let rest = glob_typed(es.drop_last(), prefix, rules);
        if glob_visible(es.last(), prefix, rules) {
            rest.push(typed_of(es.last()))
        } else {
            rest
        }
    }
}

/// The view of a produced typed result.
pub open spec fn typed_views(v: Seq<crate::types::Dirent>) -> Seq<(Seq<char>, Seq<char>, u8)> {
    Seq::new(v.len(), |k: int| (v[k].name@, v[k].parent_path@, v[k].file_type))
}

/// Is the entry `e` yielded by a walk with the compiled matcher `m`?
fn glob_check(e: &FsEntry, m: &Matcher) -> (r: bool)
    requires
        m.wf(),
    ensures
        r == glob_visible(*e, m.prefix.deep_view(), m.rules_view()),
{
    proof {
        assert(e.pview().len() == e.path@.len());
        assert(m.prefix.deep_view().len() == m.prefix@.len());
    }
    if !crate::paths::is_seg_prefix(&m.prefix, &e.path) {
        return false;
    }
    if e.path.len() <= m.prefix.len() {
        return false;
    }
    let joined = crate::paths::join_segs(&e.path);
    let v = m.test(joined.as_str(), matches!(e.kind, EntryKind::Directory));
    matches!(v, Verdict::Included)
}

/// Walks the snapshot with `pattern` and the options' exclude patterns.
///
/// Fails with `InvalidPattern` exactly when the pattern or one of the
/// excludes is refused by glob compilation. On success the result holds, in
/// entry order, every entry strictly below the pattern's literal prefix
/// whose full path the rule overlay includes: as full paths, or as typed
/// entries when `with_file_types` is set.
pub fn glob_sync(t: &FsSnapshot, pattern: &str, options: Option<GlobOptions>) -> (r: Result<
    GlobResult,
    FsError,
>)
    ensures
        ({
            let ex = glob_excludes(options);
            let rv = glob_rule_views(pattern@, ex);
            let pre = crate::pattern::prefix_segs_spec(crate::paths::split_path_spec(pattern@));
            &&& (r is Ok) <==> (glob_pattern_ok(pattern@) && (forall|i: int|
                0 <= i < ex.len() ==> glob_pattern_ok(#[trigger] ex[i])))
            &&& (r matches Err(e) ==> e.kind == FsErrorKind::InvalidPattern && exists|p: Seq<char>|
                (p == pattern@ || ex.contains(p)) && !(#[trigger] glob_pattern_ok(p)) && e.message@
                    == crate::errors::msg_spec(FsErrorKind::InvalidPattern, "glob"@, p))
            &&& (r matches Ok(g) ==> if glob_with_types(options) {
                g matches GlobResult::Entries(v) && typed_views(v@) == glob_typed(
                    t.entries@,
                    pre,
                    rv,
                )
            } else {
                g matches GlobResult::Paths(v) && v.deep_view() == glob_paths(t.entries@, pre, rv)
            })
        }),
{
    let ghost ex = glob_excludes(options);
    let with_types = match &options {
        None => false,
        Some(o) => match o.with_file_types {
            None => false,
            Some(b) => b,
        },
    };
    let mut rules: Vec<MatchRule> = Vec::new();
    rules.push(MatchRule { pattern: String::from_str(pattern), polarity: Polarity::Include });
    match &options {
        None => {},
        Some(o) => match &o.exclude {
            None => {},
            Some(exs) => {
                let mut k: usize = 0;
                while k < exs.len()
                    invariant
                        ex == glob_excludes(options),
                        exs@ == (match options {
                            Some(oo) => match oo.exclude {
                                Some(v) => v@,
                                None => Seq::empty(),
                            },
                            None => Seq::empty(),
                        }),
                        ex.len() == exs@.len(),
                        forall|j: int| 0 <= j < ex.len() ==> #[trigger] ex[j] == exs@[j]@,
                        k <= exs@.len(),
                        rules@.len() == k + 1,
                        rules@[0].pattern@ == pattern@ && rules@[0].polarity == Polarity::Include,
                        forall|j: int|
                            1 <= j < rules@.len() ==> (#[trigger] rules@[j].pattern@) == ex[j - 1]
                                && rules@[j].polarity == Polarity::Exclude,
                    decreases exs@.len() - k,
                {
                    let ghost rulesold = rules@;
                    rules.push(
                        MatchRule { pattern: exs[k].clone(), polarity: Polarity::Exclude },
                    );
                    proof {
                        assert forall|j: int|
                            1 <= j < rules@.len() implies (#[trigger] rules@[j].pattern@) == ex[j
                            - 1] && rules@[j].polarity == Polarity::Exclude by {
                            if j < rules@.len() - 1 {
                                assert(rules@[j] == rulesold[j]);
                                assert(rulesold[j].pattern@ == ex[j - 1]);
                            } else {
                                assert(rules@[j].pattern@ == exs@[k as int]@);
                                assert(ex[j - 1] == exs@[j - 1]@);
                            }
                        }
                        assert(rules@[0] == rulesold[0]);
                    }
                    k = k + 1;
                }
            },
        },
    }
    proof {
        assert(crate::pattern::rule_views(rules@) =~= glob_rule_views(pattern@, ex));
    }
    let m = match Matcher::compile(&rules) {
        Ok(m) => m,
        Err(e) => {
            proof {
                assert(!(forall|i: int|
                    0 <= i < rules@.len() ==> glob_pattern_ok(#[trigger] rules@[i].pattern@)));
                let bad = choose|i: int|
                    0 <= i < rules@.len() && !glob_pattern_ok(#[trigger] rules@[i].pattern@) && (
                    forall|j: int|
                        0 <= j < i ==> glob_pattern_ok(#[trigger] rules@[j].pattern@))
                        && e.message@ == crate::errors::msg_spec(
                        FsErrorKind::InvalidPattern,
                        "glob"@,
                        rules@[i].pattern@,
                    );
                if bad == 0 {
                    assert(!glob_pattern_ok(pattern@));
                    assert(rules@[0].pattern@ == pattern@);
                } else {
                    assert(!glob_pattern_ok(ex[bad - 1]));
                    assert(ex.contains(ex[bad - 1])) by {
                        assert(ex[bad - 1] == ex[bad - 1]);
                    }
                }
            }
            return Err(e);
        },
    };
    proof {
        assert forall|i: int| 0 <= i < rules@.len() implies glob_pattern_ok(
            #[trigger] rules@[i].pattern@,
        ) by {}
        assert forall|i: int| 0 <= i < ex.len() implies glob_pattern_ok(#[trigger] ex[i]) by {
            assert(rules@[i + 1].pattern@ == ex[i]);
        }
        assert(m.rules_view() == glob_rule_views(pattern@, ex));
        assert(m.prefix.deep_view() == crate::pattern::prefix_segs_spec(
            crate::paths::split_path_spec(pattern@),
        ));
    }
    let ghost tv = t.entries@;
    let ghost pre = m.prefix.deep_view();
    let ghost rv = m.rules_view();
    if with_types {
        let mut out: Vec<crate::types::Dirent> = Vec::new();
        let mut i: usize = 0;
        proof {
            assert(tv.take(0) =~= Seq::<FsEntry>::empty());
            assert(typed_views(out@) =~= glob_typed(tv.take(0), pre, rv));
        }
        while i < t.entries.len()
            invariant
                tv == t.entries@,
                m.wf(),
                pre == m.prefix.deep_view(),
                rv == m.rules_view(),
                i <= tv.len(),
                typed_views(out@) == glob_typed(tv.take(i as int), pre, rv),
            decreases tv.len() - i,
        {
            proof {
                assert(tv.take(i + 1).drop_last() =~= tv.take(i as int));
                assert(tv.take(i + 1).last() == tv[i as int]);
            }
            if glob_check(&t.entries[i], &m) {
                let e = &t.entries[i];
                proof {
                    assert(tv[i as int].pview().len() == tv[i as int].path@.len());
                    assert(tv[i as int].pview().len() > pre.len() >= 0);
                }
                let name = e.path[e.path.len() - 1].clone();
                let mut parent = crate::tree::clone_path(&e.path);
                parent.pop();
                proof {
                    assert(parent.deep_view() =~= tv[i as int].pview().drop_last());
                }
                let parent_path = crate::paths::join_segs(&parent);
                let ft = crate::types::get_file_type_id(
                    matches!(e.kind, EntryKind::File),
                    matches!(e.kind, EntryKind::Directory),
                    matches!(e.kind, EntryKind::Symlink),
                    matches!(e.kind, EntryKind::BlockDevice),
                    matches!(e.kind, EntryKind::CharDevice),
                    matches!(e.kind, EntryKind::Fifo),
                    matches!(e.kind, EntryKind::Socket),
                );
                proof {
                    assert(kind_id(crate::types::classify(
                        tv[i as int].kind == EntryKind::File,
                        tv[i as int].kind == EntryKind::Directory,
                        tv[i as int].kind == EntryKind::Symlink,
                        tv[i as int].kind == EntryKind::BlockDevice,
                        tv[i as int].kind == EntryKind::CharDevice,
                        tv[i as int].kind == EntryKind::Fifo,
                        tv[i as int].kind == EntryKind::Socket,
                    )) == kind_id(tv[i as int].kind));
                }
                let d = crate::types::Dirent { name, parent_path, file_type: ft };
                let ghost outold = out@;
                proof {
                    assert(d.name@ == tv[i as int].pview().last());
                    assert(d.parent_path@ == join_spec(tv[i as int].pview().drop_last()));
                    assert(d.file_type == kind_id(tv[i as int].kind));
                }
                out.push(d);
                proof {
                    assert(typed_views(out@) =~= typed_views(outold).push(
                        (d.name@, d.parent_path@, d.file_type),
                    ));
                }
            }
            i = i + 1;
        }
        proof {
            assert(tv.take(tv.len() as int) =~= tv);
        }
        Ok(GlobResult::Entries(out))
    } else {
        let mut out: Vec<String> = Vec::new();
        let mut i: usize = 0;
        proof {
            assert(tv.take(0) =~= Seq::<FsEntry>::empty());
            assert(out.deep_view() =~= glob_paths(tv.take(0), pre, rv));
        }
        while i < t.entries.len()
            invariant
                tv == t.entries@,
                m.wf(),
                pre == m.prefix.deep_view(),
                rv == m.rules_view(),
                i <= tv.len(),
                out.deep_view() == glob_paths(tv.take(i as int), pre, rv),
            decreases tv.len() - i,
        {
            proof {
                assert(tv.take(i + 1).drop_last() =~= tv.take(i as int));
                assert(tv.take(i + 1).last() == tv[i as int]);
            }
            if glob_check(&t.entries[i], &m) {
                let joined = crate::paths::join_segs(&t.entries[i].path);
                let ghost outold = out.deep_view();
                proof {
                    assert(joined@ == join_spec(tv[i as int].pview()));
                }
                out.push(joined);
                proof {
                    assert(out.deep_view() =~= outold.push(join_spec(tv[i as int].pview())));
                }
            }
            i = i + 1;
        }
        proof {
            assert(tv.take(tv.len() as int) =~= tv);
        }
        Ok(GlobResult::Paths(out))
    }
}

/// The walk ignores the concurrency setting: two glob calls on one
/// unchanging snapshot whose options differ at most in their worker counts
/// (and ignore-file flag, which the snapshot walk does not read) yield the
/// same results.
pub proof fn lemma_glob_concurrency_irrelevant(
    t: FsSnapshot,
    pattern: Seq<char>,
    prefix: Seq<Seq<char>>,
    o1: Option<GlobOptions>,
    o2: Option<GlobOptions>,
)
    requires
        glob_excludes(o1) == glob_excludes(o2),
    ensures
        glob_paths(t.entries@, prefix, glob_rule_views(pattern, glob_excludes(o1))) == glob_paths(
            t.entries@,
            prefix,
            glob_rule_views(pattern, glob_excludes(o2)),
        ),
        glob_typed(t.entries@, prefix, glob_rule_views(pattern, glob_excludes(o1))) == glob_typed(
            t.entries@,
            prefix,
            glob_rule_views(pattern, glob_excludes(o2)),
        ),
{
}

} // verus!
