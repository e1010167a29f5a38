//! Longest-common-prefix computations on hex digit strings and raw object
//! ids, as used by the hash abbreviation engine.

use vstd::prelude::*;

verus! {

/// Index of the first position where `a` and `b` disagree; if one sequence is
/// a prefix of the other, this is the length of the shorter one.
pub open spec fn mismatch_at<T>(a: Seq<T>, b: Seq<T>) -> int
    decreases a.len(),
{
    if a.len() == 0 || b.len() == 0 {
        0
    } else if a[0] != b[0] {
        0
    } else {
        1 + mismatch_at(a.skip(1), b.skip(1))
    }
}

pub open spec fn min_len<T>(a: Seq<T>, b: Seq<T>) -> int {
    if a.len() <= b.len() {
        a.len() as int
    } else {
        b.len() as int
    }
}

pub proof fn lemma_mismatch_props<T>(a: Seq<T>, b: Seq<T>)
    ensures
        0 <= mismatch_at(a, b) <= min_len(a, b),
        forall|j: int| 0 <= j < mismatch_at(a, b) ==> a[j] == b[j],
        mismatch_at(a, b) < min_len(a, b) ==> a[mismatch_at(a, b)] != b[mismatch_at(a, b)],
    decreases a.len(),
{
    if a.len() == 0 || b.len() == 0 {
    } else if a[0] != b[0] {
    } else {
        lemma_mismatch_props(a.skip(1), b.skip(1));
        assert forall|j: int| 0 <= j < mismatch_at(a, b) implies a[j] == b[j] by {
            if j > 0 {
                assert(a.skip(1)[j - 1] == b.skip(1)[j - 1]);
            }
        }
        let m = mismatch_at(a, b);
        if m < min_len(a, b) {
            assert(a.skip(1)[m - 1] != b.skip(1)[m - 1]);
        }
    }
}

/// The mismatch position is determined by pointwise agreement: if `a` and `b`
/// agree strictly below `i` and either `i` is the shorter length or they
/// disagree at `i`, then `i` is the mismatch position.
pub proof fn lemma_mismatch_is<T>(a: Seq<T>, b: Seq<T>, i: int)
    requires
        0 <= i <= min_len(a, b),
        forall|j: int| 0 <= j < i ==> a[j] == b[j],
        i == min_len(a, b) || a[i] != b[i],
    ensures
        mismatch_at(a, b) == i,
    decreases i,
{
    if i == 0 {
        if min_len(a, b) > 0 {
            assert(a.len() > 0 && b.len() > 0);
        }
    } else {
        assert(a[0] == b[0]);
        assert forall|j: int| 0 <= j < i - 1 implies a.skip(1)[j] == b.skip(1)[j] by {
            assert(a[j + 1] == b[j + 1]);
        }
        if i - 1 < min_len(a.skip(1), b.skip(1)) {
            assert(a.skip(1)[i - 1] == a[i]);
            assert(b.skip(1)[i - 1] == b[i]);
        }
        lemma_mismatch_is(a.skip(1), b.skip(1), i - 1);
    }
}

pub proof fn lemma_mismatch_sym<T>(a: Seq<T>, b: Seq<T>)
    ensures
        mismatch_at(a, b) == mismatch_at(b, a),
    decreases a.len(),
{
    if a.len() == 0 || b.len() == 0 {
    } else if a[0] != b[0] {
    } else {
        lemma_mismatch_sym(a.skip(1), b.skip(1));
    }
}

/// Count of leading hex characters shared by two hex strings, with the
/// convention that the count is zero when one string is a prefix of the other
/// (so a name never collides with itself).
pub open spec fn lcp_chars(a: Seq<char>, b: Seq<char>) -> int {
    if mismatch_at(a, b) == min_len(a, b) {
        0
    } else {
        mismatch_at(a, b)
    }
}

/// Count of leading hex digits (nibbles) shared by two raw ids: two per fully
/// equal byte, plus one more when the high nibbles of the first differing
/// byte still agree.  Zero when one id is a prefix of the other.
pub open spec fn hex_lcp(a: Seq<u8>, b: Seq<u8>) -> int {
    let m = mismatch_at(a, b);
    if m == min_len(a, b) {
        0
    } else if a[m] / 16 == b[m] / 16 {
        2 * m + 1
    } else {
        2 * m
    }
}

/// Position of the first differing character, or zero when one string is a
/// prefix of the other.
pub fn lcp(a: &str, b: &str) -> (r: usize)
    ensures
        r == lcp_chars(a@, b@),
{
    let alen = a.unicode_len();
    let blen = b.unicode_len();
    let n = if alen < blen { alen } else { blen };
    let mut i: usize = 0;
    while i < n
        invariant
            n == min_len(a@, b@),
            alen == a@.len(),
            blen == b@.len(),
            0 <= i <= n,
            forall|j: int| 0 <= j < i ==> a@[j] == b@[j],
        decreases n - i,
    {
        if a.get_char(i) != b.get_char(i) {
            proof {
                lemma_mismatch_is(a@, b@, i as int);
            }
            return i;
        }
        i += 1;
    }
    proof {
        lemma_mismatch_is(a@, b@, n as int);
    }
    0
}

/// Count of leading hex digits shared by two raw byte ids; zero when one is
/// a prefix of the other.
pub fn lcp_bytes(a: &[u8], b: &[u8]) -> (r: usize)
    requires
        2 * min_len(a@, b@) + 1 <= usize::MAX,
    ensures
        r == hex_lcp(a@, b@),
{
    let alen = a.len();
    let blen = b.len();
    let n = if alen < blen { alen } else { blen };
    let mut i: usize = 0;
    while i < n
        invariant
            n == min_len(a@, b@),
            alen == a@.len(),
            blen == b@.len(),
            2 * n + 1 <= usize::MAX,
            0 <= i <= n,
            forall|j: int| 0 <= j < i ==> a@[j] == b@[j],
        decreases n - i,
    {
        let x = a[i];
        let y = b[i];
        if x != y {
            proof {
                lemma_mismatch_is(a@, b@, i as int);
                assert(x >> 4 == x / 16) by (bit_vector);
                assert(y >> 4 == y / 16) by (bit_vector);
            }
            if x >> 4 == y >> 4 {
                return 2 * i + 1;
            } else {
                return 2 * i;
            }
        }
        i += 1;
    }
    proof {
        lemma_mismatch_is(a@, b@, n as int);
    }
    0
}

/// Shared hex-digit counting is symmetric in its two arguments.
pub proof fn lemma_hex_lcp_sym(a: Seq<u8>, b: Seq<u8>)
    ensures
        hex_lcp(a, b) == hex_lcp(b, a),
{
    lemma_mismatch_sym(a, b);
    lemma_mismatch_props(a, b);
}

/// Two distinct ids of the same length share strictly fewer hex digits than
/// their full length.
pub proof fn lemma_hex_lcp_bound(a: Seq<u8>, b: Seq<u8>)
    requires
        a.len() == b.len(),
        a != b,
    ensures
        0 <= hex_lcp(a, b) < 2 * a.len(),
{
    lemma_mismatch_props(a, b);
    if mismatch_at(a, b) == a.len() {
        assert(a =~= b);
    }
}

/// Strict lexicographic order on byte sequences.
pub open spec fn lex_lt(a: Seq<u8>, b: Seq<u8>) -> bool
    decreases a.len(),
{
    if b.len() == 0 {
        false
    } else if a.len() == 0 {
        true
    } else if a[0] < b[0] {
        true
    } else if a[0] > b[0] {
        false
    } else {
        lex_lt(a.skip(1), b.skip(1))
    }
}

/// Lexicographic order, characterised through the first mismatch position.
pub proof fn lemma_lex_lt_char(a: Seq<u8>, b: Seq<u8>)
    ensures
        lex_lt(a, b) <==> (mismatch_at(a, b) < b.len() && (mismatch_at(a, b) == a.len()
            || a[mismatch_at(a, b)] < b[mismatch_at(a, b)])),
    decreases a.len(),
{
    if b.len() == 0 {
    } else if a.len() == 0 {
    } else if a[0] != b[0] {
    } else {
        lemma_lex_lt_char(a.skip(1), b.skip(1));
        lemma_mismatch_props(a.skip(1), b.skip(1));
        let m = mismatch_at(a, b);
        assert(m == 1 + mismatch_at(a.skip(1), b.skip(1)));
        if m - 1 < min_len(a.skip(1), b.skip(1)) {
            assert(a.skip(1)[m - 1] == a[m]);
            assert(b.skip(1)[m - 1] == b[m]);
        }
    }
}

pub proof fn lemma_lex_lt_trans(a: Seq<u8>, b: Seq<u8>, c: Seq<u8>)
    requires
        lex_lt(a, b),
        lex_lt(b, c),
    ensures
        lex_lt(a, c),
    decreases a.len(),
{
    if a.len() == 0 {
    } else {
        assert(b.len() > 0 && c.len() > 0);
        if a[0] == b[0] && b[0] == c[0] {
            lemma_lex_lt_trans(a.skip(1), b.skip(1), c.skip(1));
        }
    }
}

/// Same-length byte sequences are totally ordered: equal, or one strictly
/// below the other.
pub proof fn lemma_lex_trichotomy(a: Seq<u8>, b: Seq<u8>)
    requires
        a.len() == b.len(),
    ensures
        a == b || lex_lt(a, b) || lex_lt(b, a),
{
    lemma_lex_lt_char(a, b);
    lemma_lex_lt_char(b, a);
    lemma_mismatch_sym(a, b);
    lemma_mismatch_props(a, b);
    if mismatch_at(a, b) == a.len() {
        assert(a =~= b);
    }
}

/// An id strictly between another id and the target, in either direction,
/// shares at least as many leading hex digits with the target.
pub proof fn lemma_hex_lcp_mono(a: Seq<u8>, b: Seq<u8>, t: Seq<u8>)
    requires
        a.len() == t.len(),
        b.len() == t.len(),
        (lex_lt(a, b) && lex_lt(b, t)) || (lex_lt(t, b) && lex_lt(b, a)),
    ensures
        hex_lcp(a, t) <= hex_lcp(b, t),
{
    let n = t.len() as int;
    let i = mismatch_at(a, t);
    let j = mismatch_at(b, t);
    lemma_mismatch_props(a, t);
    lemma_mismatch_props(b, t);
    lemma_mismatch_props(a, b);
    lemma_mismatch_sym(b, t);
    lemma_mismatch_sym(a, b);
    lemma_lex_lt_char(a, b);
    lemma_lex_lt_char(b, a);
    lemma_lex_lt_char(b, t);
    lemma_lex_lt_char(t, b);
    if j == n {
        assert(b =~= t);
        assert(!lex_lt(b, t) && !lex_lt(t, b));
    }
    assert(j < n);
    if i > j {
        // `a` agrees with `t` through position j, so at j it sides with `t`
        // against `b`; that contradicts `a` and `b` being on the same side.
        assert(a[j] == t[j]);
        assert(forall|k: int| 0 <= k < j ==> a[k] == b[k]);
        lemma_mismatch_is(a, b, j);
        if lex_lt(a, b) && lex_lt(b, t) {
            assert(b[j] < t[j]);
            assert(a[j] < b[j]);
            assert(false);
        } else {
            assert(t[j] < b[j]);
            assert(b[j] < a[j]);
            assert(false);
        }
    }
    if i < j {
        assert(hex_lcp(a, t) <= 2 * i + 1);
        assert(2 * j <= hex_lcp(b, t));
    } else {
        // i == j: both differ from `t` first at position i, and b[i] lies
        // between a[i] and t[i]; high nibbles follow by monotonicity of /16.
        assert(a[i] != t[i]);
        assert(b[i] != t[i]);
        let k = mismatch_at(a, b);
        if k < i {
            assert(a[k] == t[k] && b[k] == t[k]);
            assert(false);
        }
        if hex_lcp(a, t) == 2 * i + 1 {
            assert(a[i] / 16 == t[i] / 16);
            if lex_lt(a, b) && lex_lt(b, t) {
                if k == n {
                    assert(a =~= b);
                    assert(false);
                }
                let ai = a[i];
                let bi = b[i];
                let ti = t[i];
                assert(ai <= bi) by {
                    if k == i {
                        assert(a[k] < b[k]);
                    } else {
                        assert(a[i] == b[i]);
                    }
                }
                assert(bi < ti);
                vstd::arithmetic::div_mod::lemma_div_is_ordered(ai as int, bi as int, 16);
                vstd::arithmetic::div_mod::lemma_div_is_ordered(bi as int, ti as int, 16);
                assert(bi / 16 == ti / 16);
            } else {
                if k == n {
                    assert(a =~= b);
                    assert(false);
                }
                let ai = a[i];
                let bi = b[i];
                let ti = t[i];
                assert(bi <= ai) by {
                    if k == i {
                        assert(b[k] < a[k]);
                    } else {
                        assert(a[i] == b[i]);
                    }
                }
                assert(ti < bi);
                vstd::arithmetic::div_mod::lemma_div_is_ordered(ti as int, bi as int, 16);
                vstd::arithmetic::div_mod::lemma_div_is_ordered(bi as int, ai as int, 16);
                assert(bi / 16 == ti / 16);
            }
            assert(hex_lcp(b, t) == 2 * i + 1);
        }
    }
}

/// Exact lexicographic comparison of two byte vectors.
pub fn bytes_lt(a: &Vec<u8>, b: &Vec<u8>) -> (r: bool)
    ensures
        r == lex_lt(a@, b@),
{
    let alen = a.len();
    let blen = b.len();
    let n = if alen < blen { alen } else { blen };
    let mut i: usize = 0;
    while i < n
        invariant
            n == min_len(a@, b@),
            alen == a@.len(),
            blen == b@.len(),
            0 <= i <= n,
            forall|j: int| 0 <= j < i ==> a@[j] == b@[j],
        decreases n - i,
    {
        let x = a[i];
        let y = b[i];
        if x != y {
            proof {
                lemma_mismatch_is(a@, b@, i as int);
                lemma_lex_lt_char(a@, b@);
            }
            return x < y;
        }
        i += 1;
    }
    proof {
        lemma_mismatch_is(a@, b@, n as int);
        lemma_lex_lt_char(a@, b@);
    }
    alen < blen
}

pub open spec fn is_hex_digit(c: char) -> bool {
    (48 <= c as u32 <= 57) || (97 <= c as u32 <= 102) || (65 <= c as u32 <= 70)
}

/// Numeric value of one hex digit.
pub open spec fn hex_digit_val(c: char) -> int {
    if 48 <= c as u32 <= 57 {
        c as u32 - 48
    } else if 97 <= c as u32 <= 102 {
        c as u32 - 87
    } else {
        c as u32 - 55
    }
}

/// A full object id: exactly forty hex characters.
pub open spec fn valid_oid(s: Seq<char>) -> bool {
    s.len() == 40 && forall|i: int| 0 <= i < 40 ==> is_hex_digit(#[trigger] s[i])
}

/// The twenty raw bytes a forty-digit hex id denotes.
pub open spec fn oid_bytes(s: Seq<char>) -> Seq<u8> {
    Seq::new(20, |i: int| (16 * hex_digit_val(s[2 * i]) + hex_digit_val(s[2 * i + 1])) as u8)
}

fn hex_val(c: char) -> (r: Option<u8>)
    ensures
        r is Some <==> is_hex_digit(c),
        r matches Some(v) ==> v as int == hex_digit_val(c),
{
    let u = c as u32;
    if 48 <= u && u <= 57 {
        Some((u - 48) as u8)
    } else if 97 <= u && u <= 102 {
        Some((u - 87) as u8)
    } else if 65 <= u && u <= 70 {
        Some((u - 55) as u8)
    } else {
        None
    }
}

/// Decodes a forty-character hex id into its twenty raw bytes; any other
/// input is rejected.
pub fn parse_oid(id: &str) -> (r: Option<Vec<u8>>)
    ensures
        r is Some <==> valid_oid(id@),
        r matches Some(v) ==> v@ == oid_bytes(id@) && v@.len() == 20,
{
    if id.unicode_len() != 40 {
        return None;
    }
    let mut out: Vec<u8> = Vec::new();
    let mut i: usize = 0;
    while i < 20
        invariant
            id@.len() == 40,
            0 <= i <= 20,
            out@.len() == i,
            forall|j: int| 0 <= j < 2 * i ==> is_hex_digit(#[trigger] id@[j]),
            forall|j: int|
                0 <= j < i ==> #[trigger] out@[j] as int == 16 * hex_digit_val(id@[2 * j])
                    + hex_digit_val(id@[2 * j + 1]),
        decreases 20 - i,
    {
        let hi = match hex_val(id.get_char(2 * i)) {
            Some(v) => v,
            None => {
                return None;
            },
        };
        let lo = match hex_val(id.get_char(2 * i + 1)) {
            Some(v) => v,
            None => {
                return None;
            },
        };
        out.push(16 * hi + lo);
        i += 1;
    }
    proof {
        assert(out@ =~= oid_bytes(id@));
    }
    Some(out)
}

/// Exact equality of two byte vectors.
pub fn bytes_eq(a: &Vec<u8>, b: &Vec<u8>) -> (r: bool)
    ensures
        r == (a@ == b@),
{
    if a.len() != b.len() {
        return false;
    }
    let n = a.len();
    let mut i: usize = 0;
    while i < n
        invariant
            n == a@.len() == b@.len(),
            0 <= i <= n,
            forall|j: int| 0 <= j < i ==> a@[j] == b@[j],
        decreases n - i,
    {
        if a[i] != b[i] {
            return false;
        }
        i += 1;
    }
    proof {
        assert(a@ =~= b@);
    }
    true
}

} // verus!
