//! Slash-delimited path handling.
//!
//! A path names a branch chain: leading and trailing separators are
//! ignored and empty segments collapse, so `"/a//b/"` walks `a`, then `b`.

use vstd::prelude::*;
use vstd::string::StrSliceExecFns;

verus! {

/// How many separators the path starts with.
pub open spec fn leading_seps(s: Seq<char>) -> int
    decreases s.len(),
{
    if s.len() == 0 {
        0
    } else if s[0] != '/' {
        0
    } else {
        1 + leading_seps(s.drop_first())
    }
}

/// How many separators the path ends with.
pub open spec fn trailing_seps(s: Seq<char>) -> int
    decreases s.len(),
{
    if s.len() == 0 {
        0
    } else if s.last() != '/' {
        0
    } else {
        1 + trailing_seps(s.drop_last())
    }
}

/// The path with leading and trailing separators removed.
pub open spec fn trimmed(s: Seq<char>) -> Seq<char> {
    if leading_seps(s) == s.len() {
        Seq::empty()
    } else {
        s.subrange(leading_seps(s), s.len() - trailing_seps(s))
    }
}

/// Whether the path holds a separator anywhere.
pub open spec fn has_sep(s: Seq<char>) -> bool {
    exists|i: int| 0 <= i < s.len() && s[i] == '/'
}

/// Index of the first separator, or the length when there is none.
pub open spec fn first_sep(s: Seq<char>) -> int
    decreases s.len(),
{
    if s.len() == 0 {
        0
    } else if s[0] == '/' {
        0
    } else {
        1 + first_sep(s.drop_first())
    }
}

/// The non-empty segments between separators, in order.
pub open spec fn split_path(s: Seq<char>) -> Seq<Seq<char>>
    decreases s.len(),
    via split_path_decreases
{
    if s.len() == 0 {
        Seq::empty()
    } else {
        let i = first_sep(s);
        if i == 0 {
            split_path(s.drop_first())
        } else if i == s.len() {
            seq![s]
        } else {
            seq![s.subrange(0, i)] + split_path(s.subrange(i + 1, s.len() as int))
        }
    }
}

#[via_fn]
proof fn split_path_decreases(s: Seq<char>) {
    lemma_first_sep(s);
}

pub proof fn lemma_leading_seps(s: Seq<char>)
    ensures
        0 <= leading_seps(s) <= s.len(),
        forall|k: int| 0 <= k < leading_seps(s) ==> s[k] == '/',
        leading_seps(s) < s.len() ==> s[leading_seps(s)] != '/',
    decreases s.len(),
{
    if s.len() > 0 && s[0] == '/' {
        lemma_leading_seps(s.drop_first());
        assert forall|k: int| 0 <= k < leading_seps(s) implies s[k] == '/' by {
            if k >= 1 {
                assert(s.drop_first()[k - 1] == s[k]);
            }
        }
        if leading_seps(s) < s.len() {
            assert(s.drop_first()[leading_seps(s) - 1] == s[leading_seps(s)]);
        }
    }
}

pub proof fn lemma_trailing_seps(s: Seq<char>)
    ensures
        0 <= trailing_seps(s) <= s.len(),
        forall|k: int| s.len() - trailing_seps(s) <= k < s.len() ==> s[k] == '/',
        trailing_seps(s) < s.len() ==> s[s.len() - 1 - trailing_seps(s)] != '/',
    decreases s.len(),
{
    if s.len() > 0 && s.last() == '/' {
        lemma_trailing_seps(s.drop_last());
        assert(forall|k: int| 0 <= k < s.len() - 1 ==> s.drop_last()[k] == s[k]);
    }
}

pub proof fn lemma_first_sep(s: Seq<char>)
    ensures
        0 <= first_sep(s) <= s.len(),
        forall|k: int| 0 <= k < first_sep(s) ==> s[k] != '/',
        first_sep(s) < s.len() ==> s[first_sep(s)] == '/',
        has_sep(s) <==> first_sep(s) < s.len(),
    decreases s.len(),
{
    if s.len() > 0 && s[0] != '/' {
        lemma_first_sep(s.drop_first());
        assert forall|k: int| 0 <= k < first_sep(s) implies s[k] != '/' by {
            if k >= 1 {
                assert(s.drop_first()[k - 1] == s[k]);
            }
        }
        if first_sep(s) < s.len() {
            assert(s.drop_first()[first_sep(s) - 1] == s[first_sep(s)]);
        }
        if has_sep(s) {
            let w = choose|i: int| 0 <= i < s.len() && s[i] == '/';
            assert(s.drop_first()[w - 1] == '/');
        }
    }
}

/// A scan that saw `/` on `[0, a)` and a non-separator (or the end) at `a`
/// pins the leading-separator count.
proof fn lemma_leading_from_scan(s: Seq<char>, a: int)
    requires
        0 <= a <= s.len(),
        forall|k: int| 0 <= k < a ==> s[k] == '/',
        a < s.len() ==> s[a] != '/',
    ensures
        leading_seps(s) == a,
    decreases a,
{
    lemma_leading_seps(s);
    if a > 0 {
        assert(forall|k: int| 0 <= k < a - 1 ==> s.drop_first()[k] == s[k + 1]);
        lemma_leading_from_scan(s.drop_first(), a - 1);
    }
}

proof fn lemma_trailing_from_scan(s: Seq<char>, b: int)
    requires
        0 <= b <= s.len(),
        forall|k: int| b <= k < s.len() ==> s[k] == '/',
        b > 0 ==> s[b - 1] != '/',
    ensures
        trailing_seps(s) == s.len() - b,
    decreases s.len() - b,
{
    lemma_trailing_seps(s);
    if b < s.len() {
        assert(forall|k: int| 0 <= k < s.len() - 1 ==> s.drop_last()[k] == s[k]);
        lemma_trailing_from_scan(s.drop_last(), b);
    }
}

proof fn lemma_first_sep_from_scan(s: Seq<char>, m: int)
    requires
        0 <= m <= s.len(),
        forall|k: int| 0 <= k < m ==> s[k] != '/',
        m < s.len() ==> s[m] == '/',
    ensures
        first_sep(s) == m,
    decreases m,
{
    lemma_first_sep(s);
    if m > 0 {
        assert(forall|k: int| 0 <= k < m - 1 ==> s.drop_first()[k] == s[k + 1]);
        lemma_first_sep_from_scan(s.drop_first(), m - 1);
    }
}

/// `path` with leading and trailing separators removed.
pub fn trim_seps<'a>(path: &'a str) -> (r: &'a str)
    ensures
        r@ == trimmed(path@),
{
    let n = path.unicode_len();
    let mut a: usize = 0;
    while a < n && path.get_char(a) == '/'
        invariant
            0 <= a <= n,
            n == path@.len(),
            forall|k: int| 0 <= k < a ==> path@[k] == '/',
        decreases n - a,
    {
        a += 1;
    }
    proof {
        lemma_leading_from_scan(path@, a as int);
    }
    if a == n {
        let r = "";
        proof {
            reveal_strlit("");
            assert(r@ =~= trimmed(path@));
        }
        return r;
    }
    let mut b: usize = n;
    while b > a && path.get_char(b - 1) == '/'
        invariant
            a <= b <= n,
            n == path@.len(),
            a < n,
            path@[a as int] != '/',
            forall|k: int| b <= k < n ==> path@[k] == '/',
        decreases b,
    {
        b -= 1;
    }
    proof {
        if b == a {
            assert(path@[a as int] == '/');
        }
        assert(b > a);
        assert(path@[b - 1] != '/');
        lemma_trailing_from_scan(path@, b as int);
    }
    let r = path.substring_char(a, b);
    proof {
        assert(r@ =~= trimmed(path@));
    }
    r
}

/// Whether `path` holds a separator anywhere.
pub fn contains_sep(path: &str) -> (r: bool)
    ensures
        r == has_sep(path@),
{
    let n = path.unicode_len();
    let mut i: usize = 0;
    while i < n
        invariant
            0 <= i <= n,
            n == path@.len(),
            forall|k: int| 0 <= k < i ==> path@[k] != '/',
        decreases n - i,
    {
        if path.get_char(i) == '/' {
            return true;
        }
        i += 1;
    }
    false
}

/// The non-empty segments of `path`, in order.
pub fn split_segments(path: &str) -> (r: Vec<String>)
    ensures
        r.deep_view() == split_path(path@),
{
    let s = path;
    let ghost whole = s@;
    let n = s.unicode_len();
    let mut r: Vec<String> = Vec::new();
    let mut pos: usize = 0;
    proof {
        assert(whole.subrange(0, n as int) =~= whole);
        assert(r.deep_view() =~= Seq::<Seq<char>>::empty());
        assert(Seq::<Seq<char>>::empty() + split_path(whole) =~= split_path(whole));
    }
    while pos < n
        invariant
            0 <= pos <= n,
            n == whole.len(),
            whole == s@,
            split_path(whole) == r.deep_view() + split_path(whole.subrange(pos as int, n as int)),
        decreases n - pos,
    {
        let ghost rest = whole.subrange(pos as int, n as int);
        if s.get_char(pos) == '/' {
            proof {
                assert(rest[0] == '/');
                assert(first_sep(rest) == 0);
                assert(rest.drop_first() =~= whole.subrange(pos + 1 as int, n as int));
            }
            pos += 1;
        } else {
            let mut end: usize = pos;
            while end < n && s.get_char(end) != '/'
                invariant
                    pos <= end <= n,
                    n == whole.len(),
                    whole == s@,
                    forall|k: int| pos <= k < end ==> whole[k] != '/',
                decreases n - end,
            {
                end += 1;
            }
            proof {
                assert(forall|k: int| 0 <= k < end - pos ==> rest[k] == whole[pos + k]);
                lemma_first_sep_from_scan(rest, end - pos as int);
            }
            let seg = s.substring_char(pos, end);
            let ghost r0 = r.deep_view();
            r.push(seg.to_owned());
            proof {
                let fs = end - pos as int;
                assert(rest.subrange(0, fs) =~= whole.subrange(pos as int, end as int));
                assert(seg@ == rest.subrange(0, fs));
                if end < n {
                    assert(rest.subrange(fs + 1, rest.len() as int) =~= whole.subrange(
                        end + 1 as int,
                        n as int,
                    ));
                    assert(split_path(rest) == seq![rest.subrange(0, fs)] + split_path(
                        whole.subrange(end + 1 as int, n as int),
                    ));
                } else {
                    assert(fs == rest.len());
                    assert(rest.subrange(0, fs) =~= rest);
                    assert(split_path(rest) == seq![rest]);
                    assert(whole.subrange(n as int, n as int) =~= Seq::<char>::empty());
                    assert(split_path(whole.subrange(n as int, n as int))
                        == Seq::<Seq<char>>::empty());
                    assert(split_path(rest) == seq![rest.subrange(0, fs)] + split_path(
                        whole.subrange(n as int, n as int),
                    ));
                }
                assert(r.deep_view() =~= r0.push(seg@));
                let next = if end < n {
                    whole.subrange(end + 1 as int, n as int)
                } else {
                    whole.subrange(n as int, n as int)
                };
                assert(r0 + (seq![seg@] + split_path(next)) =~= r0.push(seg@) + split_path(next));
            }
            if end < n {
                pos = end + 1;
            } else {
                pos = n;
            }
        }
    }
    proof {
        assert(whole.subrange(n as int, n as int) =~= Seq::<char>::empty());
        assert(split_path(whole) =~= r.deep_view());
    }
    r
}

} // verus!
