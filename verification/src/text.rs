//! Small verified string utilities shared by the parsers: prefix tests,
//! whitespace trimming, and first-token extraction.
//!
//! Whitespace here is the ASCII set (space, tab, line feed, carriage
//! return), which is all that git control files carry.

use vstd::prelude::*;

verus! {

pub open spec fn is_ascii_ws(c: char) -> bool {
    c == ' ' || c == '\t' || c == '\n' || c == '\r'
}

/// Count of leading whitespace characters.
pub open spec fn leading_ws(s: Seq<char>) -> int
    decreases s.len(),
{
    if s.len() == 0 || !is_ascii_ws(s[0]) {
        0
    } else {
        1 + leading_ws(s.skip(1))
    }
}

/// Count of leading non-whitespace characters.
pub open spec fn leading_non_ws(s: Seq<char>) -> int
    decreases s.len(),
{
    if s.len() == 0 || is_ascii_ws(s[0]) {
        0
    } else {
        1 + leading_non_ws(s.skip(1))
    }
}

/// Count of trailing whitespace characters.
pub open spec fn trailing_ws(s: Seq<char>) -> int
    decreases s.len(),
{
    if s.len() == 0 || !is_ascii_ws(s.last()) {
        0
    } else {
        1 + trailing_ws(s.drop_last())
    }
}

/// The string with leading and trailing ASCII whitespace removed.
pub open spec fn trim_spec(s: Seq<char>) -> Seq<char> {
    if leading_ws(s) == s.len() {
        Seq::empty()
    } else {
        s.subrange(leading_ws(s), s.len() - trailing_ws(s))
    }
}

/// The first whitespace-delimited token, empty when there is none.
pub open spec fn first_token(s: Seq<char>) -> Seq<char> {
    let f = leading_ws(s);
    s.subrange(f, f + leading_non_ws(s.skip(f)))
}

pub open spec fn is_prefix(p: Seq<char>, s: Seq<char>) -> bool {
    p.len() <= s.len() && s.subrange(0, p.len() as int) == p
}

pub proof fn lemma_leading_ws_is(s: Seq<char>, i: int)
    requires
        0 <= i <= s.len(),
        forall|j: int| 0 <= j < i ==> is_ascii_ws(#[trigger] s[j]),
        i < s.len() ==> !is_ascii_ws(s[i]),
    ensures
        leading_ws(s) == i,
    decreases i,
{
    if i == 0 {
    } else {
        assert forall|j: int| 0 <= j < i - 1 implies is_ascii_ws(#[trigger] s.skip(1)[j]) by {
            assert(s[j + 1] == s.skip(1)[j]);
        }
        if i - 1 < s.len() - 1 {
            assert(s.skip(1)[i - 1] == s[i]);
        }
        lemma_leading_ws_is(s.skip(1), i - 1);
    }
}

pub proof fn lemma_leading_non_ws_is(s: Seq<char>, i: int)
    requires
        0 <= i <= s.len(),
        forall|j: int| 0 <= j < i ==> !is_ascii_ws(#[trigger] s[j]),
        i < s.len() ==> is_ascii_ws(s[i]),
    ensures
        leading_non_ws(s) == i,
    decreases i,
{
    if i == 0 {
    } else {
        assert forall|j: int| 0 <= j < i - 1 implies !is_ascii_ws(#[trigger] s.skip(1)[j]) by {
            assert(s[j + 1] == s.skip(1)[j]);
        }
        if i - 1 < s.len() - 1 {
            assert(s.skip(1)[i - 1] == s[i]);
        }
        lemma_leading_non_ws_is(s.skip(1), i - 1);
    }
}

pub proof fn lemma_trailing_ws_is(s: Seq<char>, i: int)
    requires
        0 <= i <= s.len(),
        forall|j: int| s.len() - i <= j < s.len() ==> is_ascii_ws(#[trigger] s[j]),
        i < s.len() ==> !is_ascii_ws(s[s.len() - i - 1]),
    ensures
        trailing_ws(s) == i,
    decreases i,
{
    if i == 0 {
    } else {
        assert forall|j: int|
            s.drop_last().len() - (i - 1) <= j < s.drop_last().len() implies is_ascii_ws(
            #[trigger] s.drop_last()[j],
        ) by {
            assert(s.drop_last()[j] == s[j]);
        }
        if i - 1 < s.len() - 1 {
            assert(s.drop_last()[s.len() - i - 1] == s[s.len() - i - 1]);
        }
        lemma_trailing_ws_is(s.drop_last(), i - 1);
    }
}

/// Whether `p` is a leading substring of `s`.
pub fn starts_with(s: &str, p: &str) -> (r: bool)
    ensures
        r == is_prefix(p@, s@),
{
    let plen = p.unicode_len();
    let slen = s.unicode_len();
    if plen > slen {
        return false;
    }
    let mut i: usize = 0;
    while i < plen
        invariant
            plen == p@.len() <= s@.len(),
            slen == s@.len(),
            0 <= i <= plen,
            forall|j: int| 0 <= j < i ==> s@[j] == p@[j],
        decreases plen - i,
    {
        if s.get_char(i) != p.get_char(i) {
            proof {
                assert(s@.subrange(0, p@.len() as int)[i as int] != p@[i as int]);
            }
            return false;
        }
        i += 1;
    }
    proof {
        assert(s@.subrange(0, p@.len() as int) =~= p@);
    }
    true
}

/// Exact string equality.
pub fn str_eq(a: &str, b: &str) -> (r: bool)
    ensures
        r == (a@ == b@),
{
    let alen = a.unicode_len();
    if alen != b.unicode_len() {
        return false;
    }
    let mut i: usize = 0;
    while i < alen
        invariant
            alen == a@.len() == b@.len(),
            0 <= i <= alen,
            forall|j: int| 0 <= j < i ==> a@[j] == b@[j],
        decreases alen - i,
    {
        if a.get_char(i) != b.get_char(i) {
            return false;
        }
        i += 1;
    }
    proof {
        assert(a@ =~= b@);
    }
    true
}

fn is_ws_char(c: char) -> (r: bool)
    ensures
        r == is_ascii_ws(c),
{
    c == ' ' || c == '\t' || c == '\n' || c == '\r'
}

/// The slice of `s` with leading and trailing ASCII whitespace removed.
pub fn trim_ascii(s: &str) -> (r: &str)
    ensures
        r@ == trim_spec(s@),
{
    let n = s.unicode_len();
    let mut f: usize = 0;
    while f < n && is_ws_char(s.get_char(f))
        invariant
            n == s@.len(),
            0 <= f <= n,
            forall|j: int| 0 <= j < f ==> is_ascii_ws(#[trigger] s@[j]),
        decreases n - f,
    {
        f += 1;
    }
    if f == n {
        proof {
            lemma_leading_ws_is(s@, n as int);
        }
        let r = s.substring_char(0, 0);
        proof {
            assert(r@ =~= trim_spec(s@));
        }
        return r;
    }
    proof {
        lemma_leading_ws_is(s@, f as int);
    }
    let mut l: usize = n;
    while l > f + 1 && is_ws_char(s.get_char(l - 1))
        invariant
            n == s@.len(),
            0 <= f < n,
            !is_ascii_ws(s@[f as int]),
            f + 1 <= l <= n,
            forall|j: int| l <= j < n ==> is_ascii_ws(#[trigger] s@[j]),
        decreases l,
    {
        l -= 1;
    }
    proof {
        if is_ascii_ws(s@[l - 1]) {
            // then l == f + 1, impossible: position f is not whitespace
            assert(l == f + 1);
            assert(false);
        }
        lemma_trailing_ws_is(s@, n - l as int);
    }
    s.substring_char(f, l)
}

/// The first ASCII-whitespace-delimited token of `s`; empty when `s` is
/// blank.
pub fn first_token_of(s: &str) -> (r: &str)
    ensures
        r@ == first_token(s@),
{
    let n = s.unicode_len();
    let mut f: usize = 0;
    while f < n && is_ws_char(s.get_char(f))
        invariant
            n == s@.len(),
            0 <= f <= n,
            forall|j: int| 0 <= j < f ==> is_ascii_ws(#[trigger] s@[j]),
        decreases n - f,
    {
        f += 1;
    }
    proof {
        lemma_leading_ws_is(s@, f as int);
    }
    let mut e: usize = f;
    while e < n && !is_ws_char(s.get_char(e))
        invariant
            n == s@.len(),
            0 <= f <= e <= n,
            forall|j: int| f <= j < e ==> !is_ascii_ws(#[trigger] s@[j]),
        decreases n - e,
    {
        e += 1;
    }
    proof {
        assert forall|j: int| 0 <= j < e - f implies !is_ascii_ws(
            #[trigger] s@.skip(f as int)[j],
        ) by {
            assert(s@.skip(f as int)[j] == s@[j + f]);
        }
        if e < n {
            assert(s@.skip(f as int)[e - f] == s@[e as int]);
        }
        lemma_leading_non_ws_is(s@.skip(f as int), e - f as int);
    }
    s.substring_char(f, e)
}

} // verus!
