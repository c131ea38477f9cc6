//! The pattern matcher: an ordered overlay of include and exclude glob rules
//! plus the literal walk-root prefix extracted from the user pattern.
//!
//! Matching one glob pattern against one path is the `globset` crate's work
//! and is taken on trust through the named result [`glob_match`]; the overlay
//! (the last rule whose pattern matches a candidate path wins) and the prefix
//! extraction are verified here.

use vstd::prelude::*;
use vstd::string::*;

use crate::errors::FsError;
use crate::errors::FsErrorKind;

verus! {

/// Whether a rule includes or excludes the paths its pattern matches.
#[derive(Clone, Copy, PartialEq, Eq, Structural, Debug)]
pub enum Polarity {
    Include,
    Exclude,
}

/// What the overlay says of one candidate path.
#[derive(Clone, Copy, PartialEq, Eq, Structural, Debug)]
pub enum Verdict {
    Included,
    Excluded,
}

/// One ordered rule: a glob pattern and its polarity.
#[derive(Clone, Debug)]
pub struct MatchRule {
    pub pattern: String,
    pub polarity: Polarity,
}

/// Whether `globset` accepts and compiles `pattern`; the answer depends on
/// the pattern alone.
pub uninterp spec fn glob_pattern_ok(pattern: Seq<char>) -> bool;

/// Whether the glob `pattern` matches `path`; the result depends on the two
/// strings alone.
pub uninterp spec fn glob_match(pattern: Seq<char>, path: Seq<char>) -> bool;

#[verifier::external_type_specification]
#[verifier::external_body]
pub struct ExGlobSet(globset::GlobSet);

/// The pattern the one-pattern matcher set was built from.
pub uninterp spec fn compiled_pattern(m: globset::GlobSet) -> Seq<char>;

/// Compiles one glob pattern into a one-pattern matcher set.
///
/// Relies on `globset::GlobBuilder::build`, which accepts or refuses a
/// pattern by its syntax alone, and on `globset::GlobSetBuilder::build`,
/// which compiles the accepted pattern's matcher and returns its error —
/// rather than failing — when the compiled automaton would exceed the
/// crate's size cap; both answers are functions of the pattern and the
/// fixed builder options. The separator is kept literal, so `*` and `?`
/// stay within one path segment, as the rule overlay expects.
#[verifier::external_body]
fn compile_glob(pattern: &str) -> (r: Option<globset::GlobSet>)
    ensures
        r is Some <==> glob_pattern_ok(pattern@),
        r is Some ==> compiled_pattern(r->Some_0) == pattern@,
{
    let glob = match globset::GlobBuilder::new(pattern).literal_separator(true).build() {
        Ok(g) => g,
        Err(_) => {
            return None;
        },
    };
    let mut builder = globset::GlobSetBuilder::new();
    builder.add(glob);
    match builder.build() {
        Ok(s) => Some(s),
        Err(_) => None,
    }
}

/// Tests one compiled pattern against one path.
///
/// Relies on `globset::GlobSet::is_match`: the set holds exactly the one
/// compiled pattern, and the result depends on that pattern and the path
/// alone.
#[verifier::external_body]
fn glob_is_match(m: &globset::GlobSet, path: &str) -> (r: bool)
    ensures
        r == glob_match(compiled_pattern(*m), path@),
{
    m.is_match(path)
}

/// One rule with its compiled matcher.
pub struct CompiledRule {
    pub pattern: String,
    pub polarity: Polarity,
    pub matcher: globset::GlobSet,
}

impl CompiledRule {
    /// The matcher was really compiled from this rule's accepted pattern.
    pub open spec fn wf(self) -> bool {
        glob_pattern_ok(self.pattern@) && compiled_pattern(self.matcher) == self.pattern@
    }
}

/// The views of a rule list: each pattern's characters with its polarity.
pub open spec fn rule_views(rs: Seq<MatchRule>) -> Seq<(Seq<char>, Polarity)> {
    Seq::new(rs.len(), |i: int| (rs[i].pattern@, rs[i].polarity))
}

/// The verdict one matched rule imposes.
pub open spec fn polarity_verdict(p: Polarity) -> Verdict {
    if p == Polarity::Include {
        Verdict::Included
    } else {
        Verdict::Excluded
    }
}

/// The overlay of ordered rules over `path`, folded left to right: a rule
/// overrides the verdict built so far exactly when its own pattern matches,
/// and a path no rule matches is excluded.
pub open spec fn overlay(rules: Seq<(Seq<char>, Polarity)>, path: Seq<char>) -> Verdict
    decreases rules.len(),
{
    if rules.len() == 0 {
        Verdict::Excluded
    } else if glob_match(rules.last().0, path) {
        polarity_verdict(rules.last().1)
    } else {
        overlay(rules.drop_last(), path)
    }
}

/// The compiled rule set with the extracted walk-root prefix.
pub struct Matcher {
    pub rules: Vec<CompiledRule>,
    pub prefix: Vec<String>,
}

impl Matcher {
    /// The rules as pattern-polarity pairs, in order.
    pub open spec fn rules_view(self) -> Seq<(Seq<char>, Polarity)> {
        Seq::new(self.rules@.len(), |i: int| (self.rules@[i].pattern@, self.rules@[i].polarity))
    }

    /// Every rule holds its own compiled pattern.
    pub open spec fn wf(self) -> bool {
        forall|i: int| 0 <= i < self.rules@.len() ==> (#[trigger] self.rules@[i]).wf()
    }

    /// Compiles an ordered rule list and extracts the walk-root prefix from
    /// the first rule's pattern. Fails with `InvalidPattern`, naming the
    /// first refused pattern, exactly when some pattern is refused.
    pub fn compile(rules: &Vec<MatchRule>) -> (r: Result<Matcher, FsError>)
        ensures
            (r is Ok) <==> (forall|i: int|
                0 <= i < rules@.len() ==> glob_pattern_ok(#[trigger] rules@[i].pattern@)),
            r matches Ok(m) ==> m.wf() && m.rules_view() == rule_views(rules@)
                && m.prefix.deep_view() == prefix_segs_spec(
                crate::paths::split_path_spec(if rules@.len() > 0 {
                    rules@[0].pattern@
                } else {
                    Seq::empty()
                }),
            ),
            r matches Err(e) ==> e.kind == FsErrorKind::InvalidPattern && exists|i: int|
                0 <= i < rules@.len() && !glob_pattern_ok(#[trigger] rules@[i].pattern@)
                    && (forall|j: int|
                    0 <= j < i ==> glob_pattern_ok(#[trigger] rules@[j].pattern@))
                    && e.message@ == crate::errors::msg_spec(
                    FsErrorKind::InvalidPattern,
                    "glob"@,
                    rules@[i].pattern@,
                ),
    {
        let mut compiled: Vec<CompiledRule> = Vec::new();
        let mut i: usize = 0;
        while i < rules.len()
            invariant
                i <= rules@.len(),
                compiled@.len() == i,
                forall|j: int| 0 <= j < i ==> (#[trigger] compiled@[j]).wf(),
                forall|j: int|
                    0 <= j < i ==> (#[trigger] compiled@[j]).pattern@ == rules@[j].pattern@
                        && compiled@[j].polarity == rules@[j].polarity,
                forall|j: int| 0 <= j < i ==> glob_pattern_ok(#[trigger] rules@[j].pattern@),
            decreases rules@.len() - i,
        {
            match compile_glob(rules[i].pattern.as_str()) {
                Some(m) => {
                    let cr = CompiledRule {
                        pattern: rules[i].pattern.clone(),
                        polarity: rules[i].polarity,
                        matcher: m,
                    };
                    compiled.push(cr);
                },
                None => {
                    let e = crate::errors::fs_error(
                        FsErrorKind::InvalidPattern,
                        "glob",
                        rules[i].pattern.as_str(),
                    );
                    return Err(e);
                },
            }
            i = i + 1;
        }
        let prefix = if rules.len() > 0 {
            extract_prefix(rules[0].pattern.as_str())
        } else {
            Vec::new()
        };
        proof {
            if rules@.len() == 0 {
                assert(crate::paths::split_path_spec(Seq::<char>::empty())
                    =~= Seq::<Seq<char>>::empty());
                assert(prefix.deep_view() =~= Seq::<Seq<char>>::empty());
            }
        }
        let m = Matcher { rules: compiled, prefix };
        proof {
            assert(m.rules_view() =~= rule_views(rules@));
        }
        Ok(m)
    }

    /// The overlay verdict for one candidate path. The verdict does not
    /// depend on whether the candidate is a directory: a directory is tested
    /// against its own relative path like any other entry.
    pub fn test(&self, path: &str, _is_directory: bool) -> (v: Verdict)
        requires
            self.wf(),
        ensures
            v == overlay(self.rules_view(), path@),
    {
        let mut i: usize = self.rules.len();
        proof {
            assert(self.rules_view().take(self.rules@.len() as int) =~= self.rules_view());
        }
        while i > 0
            invariant
                i <= self.rules@.len(),
                self.wf(),
                overlay(self.rules_view().take(i as int), path@) == overlay(
                    self.rules_view(),
                    path@,
                ),
            decreases i,
        {
            let matched = glob_is_match(&self.rules[i - 1].matcher, path);
            proof {
                let rv = self.rules_view();
                assert(rv.take(i as int).last() == rv[i - 1]);
                assert(rv.take(i as int).drop_last() =~= rv.take(i - 1));
                assert(compiled_pattern(self.rules@[i - 1].matcher) == rv[i - 1].0);
            }
            if matched {
                if matches!(self.rules[i - 1].polarity, Polarity::Include) {
                    return Verdict::Included;
                } else {
                    return Verdict::Excluded;
                }
            }
            i = i - 1;
        }
        proof {
            assert(self.rules_view().take(0) =~= Seq::<(Seq<char>, Polarity)>::empty());
        }
        Verdict::Excluded
    }
}

/// The overlay is the last-match-wins reading of the rule list: a path no
/// rule matches is excluded, and otherwise the last rule whose pattern
/// matches the path decides with its polarity. Together with the fold that
/// [`overlay`] itself writes out, this pins the equivalence of the two
/// readings of an ordered include/exclude rule set.
pub proof fn lemma_overlay_last_match_wins(rules: Seq<(Seq<char>, Polarity)>, path: Seq<char>)
    ensures
        (forall|i: int| 0 <= i < rules.len() ==> !glob_match((#[trigger] rules[i]).0, path))
            ==> overlay(rules, path) == Verdict::Excluded,
        forall|i: int|
            0 <= i < rules.len() && glob_match((#[trigger] rules[i]).0, path) && (forall|j: int|
                i < j < rules.len() ==> !glob_match((#[trigger] rules[j]).0, path)) ==> overlay(
                rules,
                path,
            ) == polarity_verdict(rules[i].1),
    decreases rules.len(),
{
    if rules.len() == 0 {
    } else {
        lemma_overlay_last_match_wins(rules.drop_last(), path);
        let d = rules.drop_last();
        assert(forall|i: int| 0 <= i < d.len() ==> #[trigger] d[i] == rules[i]);
        if glob_match(rules.last().0, path) {
            assert forall|i: int|
                0 <= i < rules.len() && glob_match((#[trigger] rules[i]).0, path) && (forall|
                    j: int,
                |
                    i < j < rules.len() ==> !glob_match((#[trigger] rules[j]).0, path)) implies overlay(
                rules,
                path,
            ) == polarity_verdict(rules[i].1) by {
                if i < rules.len() - 1 {
                    assert(glob_match(rules[rules.len() - 1].0, path));
                }
            }
        } else {
            assert(overlay(rules, path) == overlay(d, path));
            assert forall|i: int|
                0 <= i < rules.len() && glob_match((#[trigger] rules[i]).0, path) && (forall|
                    j: int,
                |
                    i < j < rules.len() ==> !glob_match((#[trigger] rules[j]).0, path)) implies overlay(
                rules,
                path,
            ) == polarity_verdict(rules[i].1) by {
                assert(i < rules.len() - 1 || i == rules.len() - 1);
                assert(i != rules.len() - 1);
                assert(glob_match(d[i].0, path));
                assert(forall|j: int| i < j < d.len() ==> !glob_match((#[trigger] d[j]).0, path));
                assert(overlay(d, path) == polarity_verdict(d[i].1));
            }
        }
    }
}

/// Is `c` one of the glob wildcard openers?
pub open spec fn is_wild(c: char) -> bool {
    c == '*' || c == '?' || c == '['
}

/// A segment with no wildcard character.
pub open spec fn seg_wild_free(seg: Seq<char>) -> bool {
    forall|k: int| 0 <= k < seg.len() ==> !is_wild(#[trigger] seg[k])
}

/// How many leading segments carry no wildcard.
pub open spec fn leading_clean(segs: Seq<Seq<char>>) -> int
    decreases segs.len(),
{
    if segs.len() == 0 {
        0
    } else if !seg_wild_free(segs[0]) {
        0
    } else {
        1 + leading_clean(segs.drop_first())
    }
}

/// The literal walk-root prefix of a pattern, as segments: the complete
/// segments strictly before the first segment that carries a wildcard. A
/// pattern with no wildcard keeps its last segment as the match target, so
/// the prefix stops short of it; a prefix of just `.` counts as none.
pub open spec fn prefix_segs_spec(segs: Seq<Seq<char>>) -> Seq<Seq<char>> {
    let m = leading_clean(segs);
    let cut = if m == segs.len() && m > 0 {
        m - 1
    } else {
        m
    };
    let p = segs.take(cut);
    if p.len() == 1 && p[0] == "."@ {
        Seq::empty()
    } else {
        p
    }
}

/// `leading_clean` counts exactly the leading wildcard-free segments.
proof fn lemma_leading_clean_val(segs: Seq<Seq<char>>, m: int)
    requires
        0 <= m <= segs.len(),
        forall|j: int| 0 <= j < m ==> seg_wild_free(#[trigger] segs[j]),
        m < segs.len() ==> !seg_wild_free(segs[m]),
    ensures
        leading_clean(segs) == m,
    decreases segs.len(),
{
    if m == 0 {
    } else {
        assert(seg_wild_free(segs[0]));
        let d = segs.drop_first();
        assert(forall|j: int| 0 <= j < m - 1 ==> #[trigger] d[j] == segs[j + 1]);
        lemma_leading_clean_val(d, m - 1);
    }
}

/// Does `seg` carry a wildcard character?
fn has_wildcard(seg: &String) -> (r: bool)
    ensures
        r == !seg_wild_free(seg@),
{
    let n = seg.as_str().unicode_len();
    let mut k: usize = 0;
    while k < n
        invariant
            k <= n,
            n == seg@.len(),
            forall|j: int| 0 <= j < k ==> !is_wild(#[trigger] seg@[j]),
        decreases n - k,
    {
        let c = seg.as_str().get_char(k);
        if c == '*' || c == '?' || c == '[' {
            return true;
        }
        k = k + 1;
    }
    false
}

/// Extracts the literal walk-root prefix of `pattern`, as segments.
pub fn extract_prefix(pattern: &str) -> (prefix: Vec<String>)
    ensures
        prefix.deep_view() == prefix_segs_spec(crate::paths::split_path_spec(pattern@)),
{
    let segs = crate::paths::split_path(pattern);
    let ghost sv = segs.deep_view();
    let mut m: usize = 0;
    let mut stop = false;
    while !stop && m < segs.len()
        invariant
            m <= segs@.len(),
            sv == segs.deep_view(),
            sv.len() == segs@.len(),
            forall|j: int| 0 <= j < m ==> seg_wild_free(#[trigger] sv[j]),
            stop ==> m < sv.len() && !seg_wild_free(sv[m as int]),
        decreases segs@.len() - m + (if stop {
            0int
        } else {
            1int
        }),
    {
        if has_wildcard(&segs[m]) {
            stop = true;
        } else {
            m = m + 1;
        }
    }
    proof {
        lemma_leading_clean_val(sv, m as int);
    }
    let cut = if m == segs.len() && m > 0 {
        m - 1
    } else {
        m
    };
    let mut prefix: Vec<String> = Vec::new();
    let mut k: usize = 0;
    while k < cut
        invariant
            k <= cut,
            cut <= segs@.len(),
            sv == segs.deep_view(),
            sv.len() == segs@.len(),
            prefix.deep_view() =~= sv.take(k as int),
        decreases cut - k,
    {
        let ghost prev = prefix.deep_view();
        prefix.push(segs[k].clone());
        proof {
            assert(prefix.deep_view() =~= prev.push(sv[k as int]));
            assert(prefix.deep_view() =~= sv.take(k + 1));
        }
        k = k + 1;
    }
    if prefix.len() == 1 {
        let dot_str = String::from_str(".");
        let dot = prefix[0].eq(&dot_str);
        if dot {
            let out: Vec<String> = Vec::new();
            proof {
                assert(prefix.deep_view()[0] == sv.take(cut as int)[0]);
                assert(sv.take(cut as int)[0] == "."@);
                assert(out.deep_view() =~= Seq::<Seq<char>>::empty());
            }
            return out;
        }
    }
    proof {
        assert(prefix.deep_view() =~= sv.take(cut as int));
        if sv.take(cut as int).len() == 1 && sv.take(cut as int)[0] == "."@ {
            assert(prefix.deep_view()[0] == "."@);
        }
    }
    prefix
}

} // verus!
