//! Paths as sequences of name segments.
//!
//! Every operation in this crate addresses entries by a relative path, kept
//! as the sequence of its `/`-separated segments. This module gives the
//! splitting and joining between that form and plain strings, together with
//! the prefix and hidden-name predicates the traversals are specified with.

use vstd::prelude::*;
use vstd::string::*;

verus! {

/// One step of splitting: consumes `s` from the left, `cur` holding the
/// segment begun so far and `acc` the segments already finished. Empty
/// segments (from doubled, leading or trailing separators) are dropped.
pub open spec fn split_go(s: Seq<char>, cur: Seq<char>, acc: Seq<Seq<char>>) -> Seq<Seq<char>>
    decreases s.len(),
{
    if s.len() == 0 {
        if cur.len() == 0 {
            acc
        } else {
            acc.push(cur)
        }
    } else if s[0] == '/' {
        split_go(s.drop_first(), Seq::empty(), if cur.len() == 0 {
            acc
        } else {
            acc.push(cur)
        })
    } else {
        split_go(s.drop_first(), cur.push(s[0]), acc)
    }
}

/// The segments of a `/`-separated path string, empty segments dropped.
pub open spec fn split_path_spec(s: Seq<char>) -> Seq<Seq<char>> {
    split_go(s, Seq::empty(), Seq::empty())
}

/// The string a segment sequence denotes: the segments interleaved with `/`.
pub open spec fn join_spec(segs: Seq<Seq<char>>) -> Seq<char>
    decreases segs.len(),
{
    if segs.len() == 0 {
        Seq::empty()
    } else if segs.len() == 1 {
        segs[0]
    } else {
        join_spec(segs.drop_last()) + seq!['/'] + segs.last()
    }
}

/// `p` is an initial run of `q`'s segments.
pub open spec fn seg_prefix_of(p: Seq<Seq<char>>, q: Seq<Seq<char>>) -> bool {
    p.len() <= q.len() && q.subrange(0, p.len() as int) == p
}

/// `p` is an initial run of `q`'s segments and `q` goes on below it.
pub open spec fn strict_seg_prefix_of(p: Seq<Seq<char>>, q: Seq<Seq<char>>) -> bool {
    seg_prefix_of(p, q) && p.len() < q.len()
}

/// A name that the conventional hidden-file marker opens.
pub open spec fn hidden_name(seg: Seq<char>) -> bool {
    seg.len() > 0 && seg[0] == '.'
}

/// Some segment of `rel` is a hidden name.
pub open spec fn any_hidden(rel: Seq<Seq<char>>) -> bool {
    exists|i: int| 0 <= i < rel.len() && hidden_name(#[trigger] rel[i])
}

/// A well-formed segment: nonempty and free of the separator.
pub open spec fn valid_seg(seg: Seq<char>) -> bool {
    seg.len() > 0 && forall|k: int| 0 <= k < seg.len() ==> #[trigger] seg[k] != '/'
}

/// A well-formed path: at least one segment, all of them well-formed.
pub open spec fn valid_path(p: Seq<Seq<char>>) -> bool {
    p.len() > 0 && forall|j: int| 0 <= j < p.len() ==> valid_seg(#[trigger] p[j])
}

/// Prefixes compose: an initial run of an initial run is an initial run.
pub proof fn lemma_prefix_trans(a: Seq<Seq<char>>, b: Seq<Seq<char>>, c: Seq<Seq<char>>)
    requires
        seg_prefix_of(a, b),
        seg_prefix_of(b, c),
    ensures
        seg_prefix_of(a, c),
{
    assert(c.subrange(0, a.len() as int) =~= b.subrange(0, a.len() as int));
    assert(b.subrange(0, a.len() as int) =~= a) by {
        assert forall|k: int| 0 <= k < a.len() implies b.subrange(0, a.len() as int)[k]
            == a[k] by {
            assert(b[k] == c.subrange(0, b.len() as int)[k]);
        }
    }
}

/// A path other than `p.take(k + 1)` is an initial run of `p.take(k + 1)`
/// exactly when it is one of `p.take(k)`.
pub proof fn lemma_prefix_shrink(q: Seq<Seq<char>>, p: Seq<Seq<char>>, k: int)
    requires
        0 <= k,
        k + 1 <= p.len(),
        q != p.take(k + 1),
    ensures
        seg_prefix_of(q, p.take(k + 1)) == seg_prefix_of(q, p.take(k)),
{
    if seg_prefix_of(q, p.take(k + 1)) {
        assert(q.len() < p.take(k + 1).len()) by {
            if q.len() == p.take(k + 1).len() {
                assert(p.take(k + 1).subrange(0, q.len() as int) =~= p.take(k + 1));
            }
        }
        assert(p.take(k).subrange(0, q.len() as int) =~= p.take(k + 1).subrange(
            0,
            q.len() as int,
        ));
    } else {
        if seg_prefix_of(q, p.take(k)) {
            assert(p.take(k + 1).subrange(0, q.len() as int) =~= p.take(k).subrange(
                0,
                q.len() as int,
            ));
        }
    }
}

/// Concatenation on a common front piece respects prefixes and equality.
pub proof fn lemma_concat_prefix(a: Seq<Seq<char>>, b1: Seq<Seq<char>>, b2: Seq<Seq<char>>)
    ensures
        seg_prefix_of(a + b1, a + b2) == seg_prefix_of(b1, b2),
        ((a + b1) =~= (a + b2)) == (b1 =~= b2),
        (a + b1).skip(a.len() as int) =~= b1,
{
    assert((a + b1).skip(a.len() as int) =~= b1);
    assert((a + b2).skip(a.len() as int) =~= b2);
    if seg_prefix_of(a + b1, a + b2) {
        assert(b2.subrange(0, b1.len() as int) =~= b1) by {
            assert forall|k: int| 0 <= k < b1.len() implies b2.subrange(0, b1.len() as int)[k]
                == b1[k] by {
                assert((a + b2).subrange(0, (a + b1).len() as int)[a.len() + k] == (a + b1)[a.len()
                    + k]);
            }
        }
    }
    if seg_prefix_of(b1, b2) {
        assert((a + b2).subrange(0, (a + b1).len() as int) =~= (a + b1)) by {
            assert forall|k: int| 0 <= k < (a + b1).len() implies (a + b2).subrange(
                0,
                (a + b1).len() as int,
            )[k] == (a + b1)[k] by {
                if k >= a.len() {
                    assert(b2.subrange(0, b1.len() as int)[k - a.len()] == b1[k - a.len()]);
                }
            }
        }
    }
    if b1 =~= b2 {
        assert((a + b1) =~= (a + b2));
    }
    if (a + b1) =~= (a + b2) {
        assert(b1 =~= b2);
    }
}

/// Two initial runs of one path are chained: the shorter is an initial run
/// of the longer.
pub proof fn lemma_prefix_chain(p1: Seq<Seq<char>>, p2: Seq<Seq<char>>, r: Seq<Seq<char>>)
    requires
        seg_prefix_of(p1, r),
        seg_prefix_of(p2, r),
        p1.len() <= p2.len(),
    ensures
        seg_prefix_of(p1, p2),
{
    assert(p2.subrange(0, p1.len() as int) =~= p1) by {
        assert forall|k: int| 0 <= k < p1.len() implies p2.subrange(0, p1.len() as int)[k]
            == p1[k] by {
            assert(r.subrange(0, p2.len() as int)[k] == p2[k]);
            assert(r.subrange(0, p1.len() as int)[k] == p1[k]);
        }
    }
}

/// A path with its last segment dropped is an initial run of the path.
pub proof fn lemma_prefix_of_drop_last(p: Seq<Seq<char>>)
    requires
        p.len() > 0,
    ensures
        seg_prefix_of(p.drop_last(), p),
        strict_seg_prefix_of(p.drop_last(), p),
{
    assert(p.subrange(0, p.drop_last().len() as int) =~= p.drop_last());
}

/// Appends one character to a string.
///
/// Relies on `String::push`, which appends the given character to the end of
/// the string.
#[verifier::external_body]
pub(crate) fn push_char(s: &mut String, c: char)
    ensures
        final(s)@ == old(s)@.push(c),
{
    s.push(c);
}

/// Splits a path string into its nonempty `/`-separated segments.
pub fn split_path(s: &str) -> (segs: Vec<String>)
    ensures
        segs.deep_view() == split_path_spec(s@),
{
    let n = s.unicode_len();
    let mut acc: Vec<String> = Vec::new();
    let mut cur = String::new();
    let mut i: usize = 0;
    proof {
        assert(s@.skip(0) =~= s@);
        assert(acc.deep_view() =~= Seq::<Seq<char>>::empty());
    }
    while i < n
        invariant
            i <= n,
            n == s@.len(),
            split_go(s@.skip(i as int), cur@, acc.deep_view()) == split_path_spec(s@),
        decreases n - i,
    {
        let c = s.get_char(i);
        proof {
            assert(s@.skip(i as int).drop_first() =~= s@.skip(i + 1));
            assert(s@.skip(i as int)[0] == s@[i as int]);
        }
        if c == '/' {
            if !cur.as_str().is_empty() {
                let ghost prev = acc.deep_view();
                acc.push(cur);
                proof {
                    assert(acc.deep_view() =~= prev.push(cur@));
                }
            }
            cur = String::new();
        } else {
            push_char(&mut cur, c);
        }
        i = i + 1;
    }
    proof {
        assert(s@.skip(n as int) =~= Seq::<char>::empty());
    }
    if !cur.as_str().is_empty() {
        let ghost prev = acc.deep_view();
        acc.push(cur);
        proof {
            assert(acc.deep_view() =~= prev.push(cur@));
        }
    }
    acc
}

/// Joins segments with `/` into a path string.
pub fn join_segs(segs: &Vec<String>) -> (s: String)
    ensures
        s@ == join_spec(segs.deep_view()),
{
    let mut out = String::new();
    let mut i: usize = 0;
    proof {
        reveal_strlit("/");
        assert("/"@ =~= seq!['/']);
        assert(segs.deep_view().take(0) =~= Seq::<Seq<char>>::empty());
    }
    while i < segs.len()
        invariant
            i <= segs.len(),
            out@ == join_spec(segs.deep_view().take(i as int)),
            "/"@ == seq!['/'],
        decreases segs.len() - i,
    {
        if i > 0 {
            out.append("/");
        }
        out.append(segs[i].as_str());
        proof {
            let dv = segs.deep_view();
            assert(dv.take(i + 1).drop_last() =~= dv.take(i as int));
            assert(dv.take(i + 1).last() == dv[i as int]);
            if i == 0 {
                assert(out@ =~= join_spec(dv.take(i + 1)));
            } else {
                assert(out@ =~= join_spec(dv.take(i + 1)));
            }
        }
        i = i + 1;
    }
    proof {
        assert(segs.deep_view().take(segs.len() as int) =~= segs.deep_view());
    }
    out
}

/// Compares two segment paths.
pub fn path_eq(a: &Vec<String>, b: &Vec<String>) -> (r: bool)
    ensures
        r == (a.deep_view() == b.deep_view()),
{
    if a.len() != b.len() {
        proof {
            assert(a.deep_view().len() == a.len());
            assert(b.deep_view().len() == b.len());
        }
        return false;
    }
    let mut i: usize = 0;
    while i < a.len()
        invariant
            i <= a.len(),
            a.len() == b.len(),
            forall|j: int| 0 <= j < i ==> a.deep_view()[j] == #[trigger] b.deep_view()[j],
        decreases a.len() - i,
    {
        if !a[i].eq(&b[i]) {
            proof {
                assert(a.deep_view()[i as int] != b.deep_view()[i as int]);
            }
            return false;
        }
        i = i + 1;
    }
    proof {
        assert(a.deep_view() =~= b.deep_view());
    }
    true
}

/// Does `p` name an initial run of `q`'s segments?
pub fn is_seg_prefix(p: &Vec<String>, q: &Vec<String>) -> (r: bool)
    ensures
        r == seg_prefix_of(p.deep_view(), q.deep_view()),
{
    if p.len() > q.len() {
        proof {
            assert(p.deep_view().len() == p.len());
            assert(q.deep_view().len() == q.len());
        }
        return false;
    }
    let mut i: usize = 0;
    while i < p.len()
        invariant
            i <= p.len(),
            p.len() <= q.len(),
            p.deep_view().len() == p.len(),
            q.deep_view().len() == q.len(),
            forall|j: int| 0 <= j < i ==> p.deep_view()[j] == #[trigger] q.deep_view()[j],
        decreases p.len() - i,
    {
        if !p[i].eq(&q[i]) {
            proof {
                assert(p.deep_view()[i as int] != q.deep_view()[i as int]);
                assert(!seg_prefix_of(p.deep_view(), q.deep_view()));
            }
            return false;
        }
        i = i + 1;
    }
    proof {
        assert(q.deep_view().subrange(0, p.deep_view().len() as int) =~= p.deep_view());
    }
    true
}

/// Compares two string slices character by character.
pub fn str_eq(a: &str, b: &str) -> (r: bool)
    ensures
        r == (a@ == b@),
{
    let n = a.unicode_len();
    let m = b.unicode_len();
    if n != m {
        return false;
    }
    let mut i: usize = 0;
    while i < n
        invariant
            i <= n,
            n == a@.len(),
            n == b@.len(),
            forall|j: int| 0 <= j < i ==> a@[j] == #[trigger] b@[j],
        decreases n - i,
    {
        if a.get_char(i) != b.get_char(i) {
            return false;
        }
        i = i + 1;
    }
    proof {
        assert(a@ =~= b@);
    }
    true
}

/// Strips the verbatim path prefixes that resolved paths may carry on the
/// platform that produces them: a verbatim share prefix becomes the plain
/// share form, a plain verbatim prefix is dropped, and any other string is
/// returned as it is.
pub open spec fn strip_verbatim_spec(s: Seq<char>) -> Seq<char> {
    if s.len() >= 8 && s.subrange(0, 8) == "\\\\?\\UNC\\"@ {
        seq!['\\', '\\'] + s.skip(8)
    } else if s.len() >= 4 && s.subrange(0, 4) == "\\\\?\\"@ {
        s.skip(4)
    } else {
        s
    }
}

/// Strips a verbatim prefix from a resolved path string.
pub fn strip_verbatim_prefix(s: String) -> (r: String)
    ensures
        r@ == strip_verbatim_spec(s@),
{
    proof {
        reveal_strlit("\\\\?\\UNC\\");
        reveal_strlit("\\\\?\\");
        reveal_strlit("\\\\");
    }
    let n = s.as_str().unicode_len();
    let mut unc = n >= 8;
    let mut k: usize = 0;
    let pat = "\\\\?\\UNC\\";
    while k < 8 && unc
        invariant
            k <= 8,
            n == s@.len(),
            pat@ == "\\\\?\\UNC\\"@,
            pat@.len() == 8,
            unc ==> n >= 8 && (forall|j: int| 0 <= j < k ==> s@[j] == #[trigger] pat@[j]),
            !unc ==> n < 8 || (exists|j: int| 0 <= j < 8 && s@[j] != #[trigger] pat@[j]),
        decreases 8 - k + (if unc {
            1int
        } else {
            0int
        }),
    {
        if s.as_str().get_char(k) != pat.get_char(k) {
            unc = false;
        } else {
            k = k + 1;
        }
    }
    if unc {
        proof {
            assert(s@.subrange(0, 8) =~= "\\\\?\\UNC\\"@);
        }
        let mut out = String::from_str("\\\\");
        let tail = s.as_str().substring_char(8, n);
        out.append(tail);
        proof {
            assert(out@ =~= seq!['\\', '\\'] + s@.skip(8));
        }
        return out;
    }
    let mut verb = n >= 4;
    let pat2 = "\\\\?\\";
    let mut k2: usize = 0;
    while k2 < 4 && verb
        invariant
            k2 <= 4,
            n == s@.len(),
            pat2@ == "\\\\?\\"@,
            pat2@.len() == 4,
            verb ==> n >= 4 && (forall|j: int| 0 <= j < k2 ==> s@[j] == #[trigger] pat2@[j]),
            !verb ==> n < 4 || (exists|j: int| 0 <= j < 4 && s@[j] != #[trigger] pat2@[j]),
            n < 8 || (exists|j: int| 0 <= j < 8 && s@[j] != #[trigger] pat@[j]),
            pat@ == "\\\\?\\UNC\\"@,
        decreases 4 - k2 + (if verb {
            1int
        } else {
            0int
        }),
    {
        if s.as_str().get_char(k2) != pat2.get_char(k2) {
            verb = false;
        } else {
            k2 = k2 + 1;
        }
    }
    if verb {
        proof {
            assert(s@.subrange(0, 4) =~= "\\\\?\\"@);
            if s@.len() >= 8 && s@.subrange(0, 8) == "\\\\?\\UNC\\"@ {
                let j = choose|j: int| 0 <= j < 8 && s@[j] != pat@[j];
                assert(s@.subrange(0, 8)[j] == s@[j]);
                assert(false);
            }
        }
        let tail = s.as_str().substring_char(4, n);
        let out = String::from_str(tail);
        proof {
            assert(out@ =~= s@.skip(4));
        }
        return out;
    }
    proof {
        if s@.len() >= 8 && s@.subrange(0, 8) == "\\\\?\\UNC\\"@ {
            let j = choose|j: int| 0 <= j < 8 && s@[j] != pat@[j];
            assert(s@.subrange(0, 8)[j] == s@[j]);
            assert(false);
        }
        if s@.len() >= 4 && s@.subrange(0, 4) == "\\\\?\\"@ {
            let j2 = choose|j2: int| 0 <= j2 < 4 && s@[j2] != pat2@[j2];
            assert(s@.subrange(0, 4)[j2] == s@[j2]);
            assert(false);
        }
    }
    s
}

/// Is `name` a hidden name?
pub fn is_hidden_name(name: &String) -> (r: bool)
    ensures
        r == hidden_name(name@),
{
    if name.as_str().is_empty() {
        false
    } else {
        name.as_str().get_char(0) == '.'
    }
}

} // verus!
