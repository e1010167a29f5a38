//! Binary pack index files: bounds-checked decoding and the bucket search
//! that the hash abbreviation engine runs against packed object ids.
//!
//! A pack index lists every object id of one pack archive: a 4-byte magic
//! constant, a 4-byte format version (only version 2 is accepted), a 256-entry
//! fanout table of cumulative counts by leading byte, then the 20-byte ids in
//! ascending lexicographic order.  All integers are big-endian.

use vstd::prelude::*;

use crate::hex::{
    hex_lcp, lemma_hex_lcp_bound, lemma_hex_lcp_mono, lemma_lex_lt_char, lemma_lex_lt_trans,
    lemma_lex_trichotomy, lemma_mismatch_is, lemma_mismatch_props, lex_lt, lcp_bytes,
    mismatch_at, bytes_lt, bytes_eq,
};

verus! {

/// Why a pack index file was rejected.  A rejected file contributes nothing
/// to abbreviation; it is never partially trusted.
#[derive(Clone, Copy, Debug, PartialEq, Eq)]
pub enum PackError {
    /// Shorter than the fixed header (magic, version and fanout table).
    TooShort,
    /// The magic constant is wrong.
    BadMagic,
    /// The format version is not 2.
    BadVersion,
    /// The fanout table announces more entries than the file holds.
    Truncated,
    /// The fanout table is not cumulative, or the entries are not sorted in
    /// ascending order, or an entry sits outside its leading byte's bucket.
    Malformed,
}

/// Big-endian 32-bit value of a 4-byte sequence.
pub open spec fn be32(b: Seq<u8>) -> int
    recommends
        b.len() == 4,
{
    0x100_0000 * (b[0] as int) + 0x1_0000 * (b[1] as int) + 0x100 * (b[2] as int) + (b[3] as int)
}

/// The file is long enough to hold magic, version and the fanout table.
pub open spec fn header_ok(data: Seq<u8>) -> bool {
    data.len() >= 1032
}

pub open spec fn magic_ok(data: Seq<u8>) -> bool {
    be32(data.subrange(0, 4)) == 0xFF74_4F63
}

pub open spec fn version_ok(data: Seq<u8>) -> bool {
    be32(data.subrange(4, 8)) == 2
}

/// Cumulative count of ids whose leading byte is at most `b`.
pub open spec fn fanout_val(data: Seq<u8>, b: int) -> int
    recommends
        header_ok(data),
        0 <= b < 256,
{
    be32(data.subrange(8 + 4 * b, 12 + 4 * b))
}

/// Total number of ids the fanout table announces.
pub open spec fn pack_count(data: Seq<u8>) -> int {
    fanout_val(data, 255)
}

/// The file holds all announced 20-byte entries.
pub open spec fn complete(data: Seq<u8>) -> bool {
    data.len() >= 1032 + 20 * pack_count(data)
}

/// The `i`-th 20-byte id of the file.
pub open spec fn entry_at(data: Seq<u8>, i: int) -> Seq<u8> {
    data.subrange(1032 + 20 * i, 1052 + 20 * i)
}

pub open spec fn fanout_monotone(data: Seq<u8>) -> bool {
    forall|b: int| 1 <= b < 256 ==> fanout_val(data, b - 1) <= #[trigger] fanout_val(data, b)
}

pub open spec fn entries_sorted(data: Seq<u8>) -> bool {
    forall|i: int|
        0 <= i < pack_count(data) - 1 ==> lex_lt(#[trigger] entry_at(data, i), entry_at(data, i + 1))
}

/// Start of the bucket of ids with leading byte `b`.
pub open spec fn spec_bucket_lo(data: Seq<u8>, b: int) -> int {
    if b == 0 {
        0
    } else {
        fanout_val(data, b - 1)
    }
}

/// Every id lies inside the bucket its leading byte selects.
pub open spec fn buckets_consistent(data: Seq<u8>) -> bool {
    forall|i: int|
        0 <= i < pack_count(data) ==> spec_bucket_lo(data, #[trigger] entry_at(data, i)[0] as int)
            <= i < fanout_val(data, entry_at(data, i)[0] as int)
}

/// A pack index file that decoding accepts.
pub open spec fn pack_valid(data: Seq<u8>) -> bool {
    &&& header_ok(data)
    &&& magic_ok(data)
    &&& version_ok(data)
    &&& complete(data)
    &&& fanout_monotone(data)
    &&& entries_sorted(data)
    &&& buckets_consistent(data)
}

/// Greatest count of leading hex digits that any element of `entries` other
/// than `t` shares with `t`; zero when there is no other element.
pub open spec fn max_hex_other(entries: Seq<Seq<u8>>, t: Seq<u8>) -> int
    decreases entries.len(),
{
    if entries.len() == 0 {
        0
    } else {
        let rest = max_hex_other(entries.drop_last(), t);
        let v = if entries.last() == t {
            0
        } else {
            hex_lcp(entries.last(), t)
        };
        if v > rest {
            v
        } else {
            rest
        }
    }
}

pub proof fn lemma_max_hex_other_props(entries: Seq<Seq<u8>>, t: Seq<u8>)
    ensures
        max_hex_other(entries, t) >= 0,
        forall|i: int|
            0 <= i < entries.len() && entries[i] != t ==> hex_lcp(#[trigger] entries[i], t)
                <= max_hex_other(entries, t),
        max_hex_other(entries, t) > 0 ==> exists|i: int|
            0 <= i < entries.len() && entries[i] != t && hex_lcp(#[trigger] entries[i], t)
                == max_hex_other(entries, t),
    decreases entries.len(),
{
    if entries.len() == 0 {
    } else {
        lemma_max_hex_other_props(entries.drop_last(), t);
        lemma_mismatch_props(entries.last(), t);
        assert forall|i: int|
            0 <= i < entries.len() && entries[i] != t implies hex_lcp(#[trigger] entries[i], t)
            <= max_hex_other(entries, t) by {
            if i < entries.len() - 1 {
                assert(entries.drop_last()[i] == entries[i]);
            }
        }
        let m = max_hex_other(entries, t);
        if m > 0 {
            if m == max_hex_other(entries.drop_last(), t) {
                let i = choose|i: int|
                    0 <= i < entries.drop_last().len() && entries.drop_last()[i] != t && hex_lcp(
                        entries.drop_last()[i],
                        t,
                    ) == m;
                assert(entries[i] == entries.drop_last()[i]);
                assert(0 <= i < entries.len() && entries[i] != t && hex_lcp(entries[i], t) == m);
            } else {
                let i = entries.len() - 1;
                assert(0 <= i < entries.len() && entries[i] != t && hex_lcp(entries[i], t) == m);
            }
        }
    }
}

/// Growing the collection of ids never shrinks the shared-digit maximum.
pub proof fn lemma_max_hex_other_mono(sub: Seq<Seq<u8>>, sup: Seq<Seq<u8>>, t: Seq<u8>)
    requires
        forall|i: int| 0 <= i < sub.len() ==> sup.contains(#[trigger] sub[i]),
    ensures
        max_hex_other(sub, t) <= max_hex_other(sup, t),
{
    lemma_max_hex_other_props(sub, t);
    lemma_max_hex_other_props(sup, t);
    if max_hex_other(sub, t) > 0 {
        let i = choose|i: int|
            0 <= i < sub.len() && sub[i] != t && hex_lcp(#[trigger] sub[i], t) == max_hex_other(
                sub,
                t,
            );
        assert(sup.contains(sub[i]));
        let j = choose|j: int| 0 <= j < sup.len() && sup[j] == sub[i];
        assert(hex_lcp(sup[j], t) <= max_hex_other(sup, t));
    }
}

/// One decoded pack index: the fanout table and the sorted 20-byte ids.
pub struct PackIndex {
    fanout: Vec<u32>,
    hashes: Vec<Vec<u8>>,
}

impl PackIndex {
    /// Structural facts that decoding establishes: table shape, sortedness,
    /// and bucket consistency.
    #[verifier::type_invariant]
    pub closed spec fn wf(&self) -> bool {
        &&& self.fanout@.len() == 256
        &&& self.hashes@.len() == self.fanout@[255]
        &&& forall|i: int|
            0 <= i < self.hashes@.len() ==> (#[trigger] self.hashes@[i])@.len() == 20
        &&& forall|i: int|
            0 <= i < self.hashes@.len() - 1 ==> lex_lt(
                #[trigger] self.hashes@[i]@,
                self.hashes@[i + 1]@,
            )
        &&& forall|b: int| 1 <= b < 256 ==> self.fanout@[b - 1] <= #[trigger] self.fanout@[b]
        &&& forall|i: int|
            0 <= i < self.hashes@.len() ==> {
                let b = (#[trigger] self.hashes@[i])@[0] as int;
                (if b == 0 {
                    0int
                } else {
                    self.fanout@[b - 1] as int
                }) <= i < self.fanout@[b]
            }
    }

    /// The ids this index holds, in file order.
    pub closed spec fn entries(&self) -> Seq<Seq<u8>> {
        self.hashes@.map_values(|h: Vec<u8>| h@)
    }

    proof fn lemma_fanout_mono(&self, b1: int, b2: int)
        requires
            self.wf(),
            0 <= b1 <= b2 < 256,
        ensures
            self.fanout@[b1] <= self.fanout@[b2],
        decreases b2 - b1,
    {
        if b1 < b2 {
            self.lemma_fanout_mono(b1, b2 - 1);
        }
    }

    proof fn lemma_sorted_range(&self, i: int, j: int)
        requires
            self.wf(),
            0 <= i < j < self.hashes@.len(),
        ensures
            lex_lt(self.hashes@[i]@, self.hashes@[j]@),
        decreases j - i,
    {
        if j == i + 1 {
        } else {
            self.lemma_sorted_range(i, j - 1);
            lemma_lex_lt_trans(self.hashes@[i]@, self.hashes@[j - 1]@, self.hashes@[j]@);
        }
    }

    /// An index inside the bucket of leading byte `b` holds an id that does
    /// begin with `b`.
    proof fn lemma_in_bucket(&self, i: int, b: int)
        requires
            self.wf(),
            0 <= b < 256,
            0 <= i < self.hashes@.len(),
            (if b == 0 {
                0int
            } else {
                self.fanout@[b - 1] as int
            }) <= i < self.fanout@[b],
        ensures
            self.hashes@[i]@[0] == b,
    {
        let c = self.hashes@[i]@[0] as int;
        if c < b {
            self.lemma_fanout_mono(c, b - 1);
            assert(false);
        } else if c > b {
            self.lemma_fanout_mono(b, c - 1);
            assert(false);
        }
    }

    /// An index outside the bucket of leading byte `b` holds an id that does
    /// not begin with `b`, hence shares at most one hex digit with any id
    /// that does.
    proof fn lemma_outside_bucket(&self, i: int, t: Seq<u8>)
        requires
            self.wf(),
            t.len() == 20,
            0 <= i < self.hashes@.len(),
            !((if t[0] == 0 {
                0int
            } else {
                self.fanout@[t[0] - 1] as int
            }) <= i < self.fanout@[t[0] as int]),
        ensures
            self.hashes@[i]@[0] != t[0],
            hex_lcp(self.hashes@[i]@, t) <= 1,
    {
        let b = t[0] as int;
        let e = self.hashes@[i]@;
        if e[0] == t[0] {
            // then i would lie in b's bucket by the invariant
            assert(false);
        }
        lemma_mismatch_props(e, t);
        if mismatch_at(e, t) > 0 {
            assert(e[0] == t[0]);
        }
    }

    /// Greatest count of leading hex digits that any id of this index other
    /// than `oid` shares with `oid`, except that ids outside `oid`'s
    /// leading-byte bucket are reported as zero; those share at most one
    /// digit, which the abbreviation floor of four digits absorbs.
    ///
    /// The fanout table selects the bucket, a binary search finds `oid`'s
    /// insertion point, and only the two neighbouring ids (skipping an id
    /// equal to `oid` itself) need to be compared.
    pub fn bucket_lcp(&self, oid: &Vec<u8>) -> (r: usize)
        requires
            oid@.len() == 20,
        ensures
            r == 0 || r as int == max_hex_other(self.entries(), oid@),
            max_hex_other(self.entries(), oid@) <= if r == 0 {
                1int
            } else {
                r as int
            },
            r == 0 || (2 <= r <= 39),
    {
        proof {
            use_type_invariant(self);
        }
        let ghost t = oid@;
        proof {
            assert(self.entries().len() == self.hashes@.len());
            assert forall|i: int| 0 <= i < self.hashes@.len() implies #[trigger] self.entries()[i]
                == self.hashes@[i]@ by {}
        }
        let b0 = oid[0];
        let lo: usize = if b0 == 0 {
            0
        } else {
            self.fanout[(b0 - 1) as usize] as usize
        };
        let hi: usize = self.fanout[b0 as usize] as usize;
        proof {
            self.lemma_fanout_mono(b0 as int, 255);
            if b0 > 0 {
                self.lemma_fanout_mono(b0 as int - 1, b0 as int);
            }
            assert(lo <= hi <= self.hashes@.len());
        }
        if lo == hi {
            proof {
                lemma_max_hex_other_props(self.entries(), t);
                assert forall|i: int|
                    0 <= i < self.entries().len() && self.entries()[i] != t implies hex_lcp(
                    #[trigger] self.entries()[i],
                    t,
                ) <= 1 by {
                    self.lemma_outside_bucket(i, t);
                }
                if max_hex_other(self.entries(), t) > 1 {
                    let i = choose|i: int|
                        0 <= i < self.entries().len() && self.entries()[i] != t && hex_lcp(
                            #[trigger] self.entries()[i],
                            t,
                        ) == max_hex_other(self.entries(), t);
                    assert(false);
                }
            }
            return 0;
        }
        let mut low = lo;
        let mut high = hi;
        while low < high
            invariant
                self.wf(),
                oid@ == t,
                t.len() == 20,
                lo <= low <= high <= hi,
                hi <= self.hashes@.len(),
                forall|k: int| lo <= k < low ==> lex_lt(#[trigger] self.hashes@[k]@, t),
                forall|k: int| high <= k < hi ==> !lex_lt(#[trigger] self.hashes@[k]@, t),
            decreases high - low,
        {
            let mid = low + (high - low) / 2;
            if bytes_lt(&self.hashes[mid], oid) {
                proof {
                    assert forall|k: int| lo <= k < mid + 1 implies lex_lt(
                        #[trigger] self.hashes@[k]@,
                        t,
                    ) by {
                        if low <= k < mid {
                            self.lemma_sorted_range(k, mid as int);
                            lemma_lex_lt_trans(self.hashes@[k]@, self.hashes@[mid as int]@, t);
                        }
                    }
                }
                low = mid + 1;
            } else {
                proof {
                    assert forall|k: int| mid <= k < hi implies !lex_lt(
                        #[trigger] self.hashes@[k]@,
                        t,
                    ) by {
                        if mid < k < high {
                            if lex_lt(self.hashes@[k]@, t) {
                                self.lemma_sorted_range(mid as int, k);
                                lemma_lex_lt_trans(
                                    self.hashes@[mid as int]@,
                                    self.hashes@[k]@,
                                    t,
                                );
                            }
                        }
                    }
                }
                high = mid;
            }
        }
        let p = low;
        let mut res: usize = 0;
        if p > lo {
            res = lcp_bytes(self.hashes[p - 1].as_slice(), oid.as_slice());
            proof {
                let e = self.hashes@[p - 1]@;
                self.lemma_in_bucket(p - 1, b0 as int);
                lemma_mismatch_props(e, t);
                if mismatch_at(e, t) == 0 {
                    assert(false);
                }
                if mismatch_at(e, t) == 20 {
                    assert(e =~= t);
                    lemma_lex_lt_char(t, t);
                    lemma_mismatch_is(t, t, 20);
                    assert(false);
                }
                assert(res >= 2);
                if e == t {
                    lemma_lex_lt_char(t, t);
                    lemma_mismatch_is(t, t, 20);
                    assert(false);
                }
                lemma_hex_lcp_bound(e, t);
                assert(res <= 39);
            }
        }
        let ghost mut q: int = p as int;
        if p < hi {
            let at_p_equal = bytes_eq(&self.hashes[p], oid);
            let qe = if at_p_equal {
                p + 1
            } else {
                p
            };
            proof {
                q = qe as int;
            }
            if qe < hi {
                proof {
                    // the id at qe is strictly above the target
                    if at_p_equal {
                        self.lemma_sorted_range(p as int, qe as int);
                        assert(lex_lt(t, self.hashes@[qe as int]@));
                    } else {
                        lemma_lex_trichotomy(self.hashes@[p as int]@, t);
                        assert(lex_lt(t, self.hashes@[qe as int]@));
                    }
                    self.lemma_in_bucket(qe as int, b0 as int);
                    lemma_mismatch_props(self.hashes@[qe as int]@, t);
                    lemma_mismatch_sym_helper(self.hashes@[qe as int]@, t);
                    if self.hashes@[qe as int]@ == t {
                        lemma_lex_lt_char(t, self.hashes@[qe as int]@);
                        lemma_mismatch_is(t, t, 20);
                        assert(false);
                    }
                    lemma_hex_lcp_bound(self.hashes@[qe as int]@, t);
                }
                let v = lcp_bytes(self.hashes[qe].as_slice(), oid.as_slice());
                proof {
                    let e = self.hashes@[qe as int]@;
                    if mismatch_at(e, t) == 0 {
                        assert(false);
                    }
                    if mismatch_at(e, t) == 20 {
                        assert(e =~= t);
                        lemma_lex_lt_char(t, t);
                        lemma_mismatch_is(t, t, 20);
                        assert(false);
                    }
                    assert(2 <= v <= 39);
                }
                if v > res {
                    res = v;
                }
            }
        }
        proof {
            self.lemma_bucket_lcp_post(t, lo as int, hi as int, p as int, q, res as int);
        }
        res
    }

    /// The neighbour comparisons bound every other id of the index.
    proof fn lemma_bucket_lcp_post(
        &self,
        t: Seq<u8>,
        lo: int,
        hi: int,
        p: int,
        q: int,
        res: int,
    )
        requires
            self.wf(),
            t.len() == 20,
            lo == (if t[0] == 0 {
                0int
            } else {
                self.fanout@[t[0] - 1] as int
            }),
            hi == self.fanout@[t[0] as int],
            lo <= p <= hi <= self.hashes@.len(),
            lo < hi,
            forall|k: int| lo <= k < p ==> lex_lt(#[trigger] self.hashes@[k]@, t),
            forall|k: int| p <= k < hi ==> !lex_lt(#[trigger] self.hashes@[k]@, t),
            p <= q <= hi,
            q == p || (p < hi && self.hashes@[p]@ == t && q == p + 1),
            p < hi && self.hashes@[p]@ == t ==> q == p + 1,
            p > lo ==> res >= hex_lcp(self.hashes@[p - 1]@, t),
            q < hi ==> res >= hex_lcp(self.hashes@[q]@, t),
            res == 0 || (2 <= res <= 39),
            res > 0 ==> (p > lo && res == hex_lcp(self.hashes@[p - 1]@, t)) || (q < hi && res
                == hex_lcp(self.hashes@[q]@, t)),
        ensures
            res == 0 || res == max_hex_other(self.entries(), t),
            max_hex_other(self.entries(), t) <= if res == 0 {
                1int
            } else {
                res
            },
    {
        let entries = self.entries();
        assert(entries.len() == self.hashes@.len());
        assert forall|i: int| 0 <= i < self.hashes@.len() implies #[trigger] entries[i]
            == self.hashes@[i]@ by {}
        lemma_max_hex_other_props(entries, t);
        let bound = if res == 0 {
            1int
        } else {
            res
        };
        assert forall|i: int| 0 <= i < entries.len() && entries[i] != t implies hex_lcp(
            #[trigger] entries[i],
            t,
        ) <= bound by {
            let e = self.hashes@[i]@;
            if i < lo || i >= hi {
                self.lemma_outside_bucket(i, t);
                assert(hex_lcp(e, t) <= 1);
                if res > 0 {
                    assert(hex_lcp(e, t) <= res);
                }
            } else {
                // inside the bucket: bounded through the nearest neighbour
                if i < p {
                    assert(p > lo);
                    if i < p - 1 {
                        self.lemma_sorted_range(i, p - 1);
                        lemma_hex_lcp_mono(e, self.hashes@[p - 1]@, t);
                    }
                    assert(hex_lcp(e, t) <= res);
                } else {
                    // i >= p and entries[i] != t, so the q neighbour exists
                    if i == p && q == p + 1 {
                        assert(false);
                    }
                    assert(i >= q);
                    assert(q < hi);
                    let eq = self.hashes@[q]@;
                    if i > q {
                        // t < eq < e
                        if q == p + 1 {
                            self.lemma_sorted_range(p, q);
                            assert(lex_lt(t, eq));
                        } else {
                            lemma_lex_trichotomy(self.hashes@[p]@, t);
                            assert(lex_lt(t, eq));
                        }
                        self.lemma_sorted_range(q, i);
                        lemma_hex_lcp_mono(e, eq, t);
                    }
                    assert(hex_lcp(e, t) <= res);
                }
            }
        }
        if max_hex_other(entries, t) > bound {
            let i = choose|i: int|
                0 <= i < entries.len() && entries[i] != t && hex_lcp(#[trigger] entries[i], t)
                    == max_hex_other(entries, t);
            assert(false);
        }
        if res > 0 {
            // res is attained by an actual id, so the maximum reaches it
            if p > lo && res == hex_lcp(self.hashes@[p - 1]@, t) {
                assert(self.hashes@[p - 1]@ != t) by {
                    if self.hashes@[p - 1]@ == t {
                        lemma_lex_lt_char(t, t);
                        lemma_mismatch_is(t, t, 20);
                    }
                }
                assert(hex_lcp(entries[p - 1], t) <= max_hex_other(entries, t));
            } else {
                assert(q < hi && res == hex_lcp(self.hashes@[q]@, t));
                assert(self.hashes@[q]@ != t) by {
                    if q == p {
                        if self.hashes@[p]@ == t {
                            assert(q == p + 1);
                        }
                    } else {
                        self.lemma_sorted_range(p, q);
                        if self.hashes@[q]@ == t {
                            lemma_lex_lt_char(t, t);
                            lemma_mismatch_is(t, t, 20);
                        }
                    }
                }
                assert(hex_lcp(entries[q], t) <= max_hex_other(entries, t));
            }
            assert(max_hex_other(entries, t) == res);
        }
    }
}

/// Mismatch positions do not depend on argument order.
proof fn lemma_mismatch_sym_helper(a: Seq<u8>, b: Seq<u8>)
    ensures
        mismatch_at(a, b) == mismatch_at(b, a),
{
    crate::hex::lemma_mismatch_sym(a, b);
}

/// Big-endian 32-bit read at a checked offset.
fn read_be32(data: &[u8], off: usize) -> (r: u32)
    requires
        off + 4 <= data@.len(),
    ensures
        r as int == be32(data@.subrange(off as int, off as int + 4)),
{
    let b0 = data[off] as u32;
    let b1 = data[off + 1] as u32;
    let b2 = data[off + 2] as u32;
    let b3 = data[off + 3] as u32;
    proof {
        let s = data@.subrange(off as int, off as int + 4);
        assert(s[0] == data@[off as int]);
        assert(s[1] == data@[off as int + 1]);
        assert(s[2] == data@[off as int + 2]);
        assert(s[3] == data@[off as int + 3]);
    }
    0x100_0000 * b0 + 0x1_0000 * b1 + 0x100 * b2 + b3
}

/// Decodes one pack index file.
///
/// A file is accepted only when the magic constant and the version are both
/// right, every announced entry is present, the fanout table is cumulative,
/// the ids are in strictly ascending order and each id lies in the bucket its
/// leading byte selects; the error says which of these failed first.  The
/// decoded index holds exactly the ids of the file, in file order.
#[verifier::rlimit(60)]
pub fn parse_pack_index(data: &[u8]) -> (r: Result<PackIndex, PackError>)
    ensures
        !header_ok(data@) ==> r == Err::<PackIndex, PackError>(PackError::TooShort),
        header_ok(data@) && !magic_ok(data@) ==> r == Err::<PackIndex, PackError>(
            PackError::BadMagic,
        ),
        header_ok(data@) && magic_ok(data@) && !version_ok(data@) ==> r == Err::<
            PackIndex,
            PackError,
        >(PackError::BadVersion),
        header_ok(data@) && magic_ok(data@) && version_ok(data@) && !complete(data@) ==> r
            == Err::<PackIndex, PackError>(PackError::Truncated),
        header_ok(data@) && magic_ok(data@) && version_ok(data@) && complete(data@)
            && !(fanout_monotone(data@) && entries_sorted(data@) && buckets_consistent(data@))
            ==> r == Err::<PackIndex, PackError>(PackError::Malformed),
        pack_valid(data@) ==> r is Ok,
        r matches Ok(idx) ==> pack_valid(data@) && idx.entries() == Seq::new(
            pack_count(data@) as nat,
            |i: int| entry_at(data@, i),
        ),
{
    if data.len() < 1032 {
        return Err(PackError::TooShort);
    }
    let magic = read_be32(data, 0);
    if magic != 0xFF74_4F63 {
        return Err(PackError::BadMagic);
    }
    let version = read_be32(data, 4);
    if version != 2 {
        return Err(PackError::BadVersion);
    }
    let mut fanout: Vec<u32> = Vec::new();
    let mut b: usize = 0;
    while b < 256
        invariant
            data@.len() >= 1032,
            data@.len() <= usize::MAX,
            magic_ok(data@),
            version_ok(data@),
            0 <= b <= 256,
            fanout@.len() == b,
            forall|j: int| 0 <= j < b ==> #[trigger] fanout@[j] as int == fanout_val(data@, j),
        decreases 256 - b,
    {
        fanout.push(read_be32(data, 8 + 4 * b));
        b += 1;
    }
    let n32 = fanout[255];
    if (data.len() as u64) < 1032u64 + 20u64 * (n32 as u64) {
        proof {
            assert(!complete(data@));
        }
        return Err(PackError::Truncated);
    }
    let n = n32 as usize;
    proof {
        assert(n as int == pack_count(data@));
        assert(complete(data@));
    }
    let mut mono: usize = 1;
    while mono < 256
        invariant
            data@.len() >= 1032,
            data@.len() <= usize::MAX,
            magic_ok(data@),
            version_ok(data@),
            n as int == pack_count(data@),
            complete(data@),
            data@.len() >= 1032 + 20 * n,
            1 <= mono <= 256,
            fanout@.len() == 256,
            forall|j: int| 0 <= j < 256 ==> #[trigger] fanout@[j] as int == fanout_val(data@, j),
            forall|j: int| 1 <= j < mono ==> fanout@[j - 1] <= #[trigger] fanout@[j],
        decreases 256 - mono,
    {
        if fanout[mono - 1] > fanout[mono] {
            proof {
                assert(fanout@[mono - 1] as int == fanout_val(data@, mono as int - 1));
                assert(fanout@[mono as int] as int == fanout_val(data@, mono as int));
                assert(!fanout_monotone(data@));
            }
            return Err(PackError::Malformed);
        }
        mono += 1;
    }
    proof {
        assert forall|bb: int| 1 <= bb < 256 implies fanout_val(data@, bb - 1)
            <= #[trigger] fanout_val(data@, bb) by {
            assert(fanout@[bb] as int == fanout_val(data@, bb));
            assert(fanout@[bb - 1] as int == fanout_val(data@, bb - 1));
        }
        assert(fanout_monotone(data@));
    }
    let mut hashes: Vec<Vec<u8>> = Vec::new();
    let mut i: usize = 0;
    while i < n
        invariant
            data@.len() >= 1032 + 20 * n,
            data@.len() <= usize::MAX,
            magic_ok(data@),
            version_ok(data@),
            fanout_monotone(data@),
            n as int == pack_count(data@),
            0 <= i <= n,
            fanout@.len() == 256,
            forall|j: int| 0 <= j < 256 ==> #[trigger] fanout@[j] as int == fanout_val(data@, j),
            forall|j: int| 1 <= j < 256 ==> fanout@[j - 1] <= #[trigger] fanout@[j],
            n == fanout@[255],
            hashes@.len() == i,
            forall|k: int| 0 <= k < i ==> (#[trigger] hashes@[k])@ == entry_at(data@, k),
            forall|k: int| 0 <= k < i - 1 ==> lex_lt(
                (#[trigger] hashes@[k])@,
                hashes@[k + 1]@,
            ),
            forall|k: int|
                0 <= k < i ==> {
                    let bb = (#[trigger] hashes@[k])@[0] as int;
                    spec_bucket_lo(data@, bb) <= k < fanout_val(data@, bb)
                },
        decreases n - i,
    {
        let base = 1032 + 20 * i;
        let mut e: Vec<u8> = Vec::new();
        let mut j: usize = 0;
        while j < 20
            invariant
                data@.len() >= 1032 + 20 * n,
                data@.len() <= usize::MAX,
                0 <= i < n,
                base == 1032 + 20 * i,
                0 <= j <= 20,
                e@.len() == j,
                forall|k: int| 0 <= k < j ==> #[trigger] e@[k] == data@[base + k],
            decreases 20 - j,
        {
            e.push(data[base + j]);
            j += 1;
        }
        proof {
            assert(e@ =~= entry_at(data@, i as int));
        }
        if i > 0 && !bytes_lt(&hashes[i - 1], &e) {
            proof {
                assert(hashes@[i - 1]@ == entry_at(data@, i as int - 1));
                assert(!lex_lt(entry_at(data@, i as int - 1), entry_at(data@, i as int)));
                assert(!entries_sorted(data@));
            }
            return Err(PackError::Malformed);
        }
        let b0 = e[0];
        let lo32: u32 = if b0 == 0 {
            0
        } else {
            fanout[(b0 - 1) as usize]
        };
        let hi32: u32 = fanout[b0 as usize];
        if !((lo32 as u64) <= (i as u64) && (i as u64) < (hi32 as u64)) {
            proof {
                assert(entry_at(data@, i as int)[0] == b0);
                assert(fanout@[b0 as int] as int == fanout_val(data@, b0 as int));
                if b0 > 0 {
                    assert(fanout@[b0 as int - 1] as int == fanout_val(data@, b0 as int - 1));
                }
                assert(!(spec_bucket_lo(data@, b0 as int) <= i as int
                    && (i as int) < fanout_val(data@, b0 as int)));
                assert(!buckets_consistent(data@));
            }
            return Err(PackError::Malformed);
        }
        hashes.push(e);
        i += 1;
    }
    proof {
        assert forall|k: int| 0 <= k < pack_count(data@) - 1 implies lex_lt(
            #[trigger] entry_at(data@, k),
            entry_at(data@, k + 1),
        ) by {
            assert(hashes@[k]@ == entry_at(data@, k));
            assert(hashes@[k + 1]@ == entry_at(data@, k + 1));
        }
        assert(entries_sorted(data@));
        assert forall|k: int| 0 <= k < pack_count(data@) implies spec_bucket_lo(
            data@,
            #[trigger] entry_at(data@, k)[0] as int,
        ) <= k < fanout_val(data@, entry_at(data@, k)[0] as int) by {
            assert(hashes@[k]@ == entry_at(data@, k));
        }
        assert(buckets_consistent(data@));
    }
    let idx = PackIndex { fanout, hashes };
    proof {
        assert(idx.entries() =~= Seq::new(pack_count(data@) as nat, |k: int| entry_at(data@, k)));
    }
    Ok(idx)
}

} // verus!
