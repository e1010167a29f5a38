//! The machine-readable status stream: header lines carrying ahead/behind
//! deltas, then one line per path with a fixed-width state code.
//!
//! Classification per path line: a leading `?` marks an untracked path, a
//! leading `u` an unmerged one; otherwise a two-character code counts as
//! staged when its first character is not `.` and as dirty when its second
//! is not `.` (a path can be both).  Malformed path lines are skipped;
//! a malformed header makes the whole parse fail.

use vstd::prelude::*;

use vstd::slice::slice_subrange;

use crate::status::GitStatusExtended;

verus! {

/// Length of the leading run without the separator byte.
pub open spec fn brun(s: Seq<u8>, sep: u8) -> int
    decreases s.len(),
{
    if s.len() == 0 || s[0] == sep {
        0
    } else {
        1 + brun(s.skip(1), sep)
    }
}

proof fn lemma_brun_bound(s: Seq<u8>, sep: u8)
    ensures
        0 <= brun(s, sep) <= s.len(),
    decreases s.len(),
{
    if s.len() > 0 && s[0] != sep {
        lemma_brun_bound(s.skip(1), sep);
    }
}

/// Split at every separator byte; a trailing separator yields a final empty
/// piece, and the empty sequence is one empty piece.
pub open spec fn bsplit(s: Seq<u8>, sep: u8) -> Seq<Seq<u8>>
    decreases s.len(),
    via bsplit_decreases
{
    let n = brun(s, sep);
    if n == s.len() {
        seq![s]
    } else {
        seq![s.take(n)] + bsplit(s.skip(n + 1), sep)
    }
}

#[via_fn]
proof fn bsplit_decreases(s: Seq<u8>, sep: u8) {
    lemma_brun_bound(s, sep);
}

proof fn lemma_brun_is(s: Seq<u8>, sep: u8, i: int)
    requires
        0 <= i <= s.len(),
        forall|j: int| 0 <= j < i ==> s[j] != sep,
        i < s.len() ==> s[i] == sep,
    ensures
        brun(s, sep) == i,
    decreases i,
{
    if i > 0 {
        assert forall|j: int| 0 <= j < i - 1 implies s.skip(1)[j] != sep by {
            assert(s.skip(1)[j] == s[j + 1]);
        }
        if i - 1 < s.len() - 1 {
            assert(s.skip(1)[i - 1] == s[i]);
        }
        lemma_brun_is(s.skip(1), sep, i - 1);
    }
}

pub open spec fn is_bprefix(p: Seq<u8>, s: Seq<u8>) -> bool {
    p.len() <= s.len() && s.subrange(0, p.len() as int) == p
}

/// The two bytes `# ` that open a header line.
pub open spec fn hdr_marker() -> Seq<u8> {
    seq![35u8, 32u8]
}

/// The ten bytes `branch.ab ` after the header marker.
pub open spec fn branch_ab() -> Seq<u8> {
    seq![98u8, 114u8, 97u8, 110u8, 99u8, 104u8, 46u8, 97u8, 98u8, 32u8]
}

pub open spec fn all_digits(w: Seq<u8>) -> bool {
    w.len() > 0 && forall|i: int| 0 <= i < w.len() ==> 48 <= #[trigger] w[i] <= 57
}

/// Value of a run of decimal digit bytes.
pub open spec fn dec_val(w: Seq<u8>) -> int
    decreases w.len(),
{
    if w.len() == 0 {
        0
    } else {
        dec_val(w.drop_last()) * 10 + (w.last() - 48)
    }
}

/// What `str::parse::<u32>` accepts of a digit-only word: non-empty, digits,
/// in range.
pub open spec fn parse_u32_spec(w: Seq<u8>) -> Option<int> {
    if all_digits(w) && dec_val(w) <= u32::MAX {
        Some(dec_val(w))
    } else {
        None
    }
}

/// An ahead/behind header payload: exactly two words, each a sign byte
/// followed by a count.
pub open spec fn parse_ab(rest: Seq<u8>) -> Option<(int, int)> {
    let ws = bsplit(rest, 32);
    if ws.len() != 2 || ws[0].len() < 1 || ws[1].len() < 1 {
        None
    } else {
        match (parse_u32_spec(ws[0].skip(1)), parse_u32_spec(ws[1].skip(1))) {
            (Some(a), Some(b)) => Some((a, b)),
            _ => None,
        }
    }
}

/// Per-path counts of one line: (unmerged, staged, dirty, untracked).
pub open spec fn classify(line: Seq<u8>) -> (int, int, int, int) {
    let ws = bsplit(line, 32);
    if ws.len() < 2 {
        (0int, 0int, 0int, 0int)
    } else {
        let c = ws[0];
        if c.len() > 0 && c[0] == 63 {  // '?'
            (0int, 0int, 0int, 1int)
        } else if c.len() > 0 && c[0] == 117 {  // 'u'
            (1int, 0int, 0int, 0int)
        } else if c.len() == 2 {
            (
                0int,
                if c[0] != 46 {  // '.'
                    1int
                } else {
                    0int
                },
                if c[1] != 46 {
                    1int
                } else {
                    0int
                },
                0int,
            )
        } else {
            (0int, 0int, 0int, 0int)
        }
    }
}

/// Sums of the per-path counts over a run of lines.
pub open spec fn body_counts(lines: Seq<Seq<u8>>) -> (int, int, int, int)
    decreases lines.len(),
{
    if lines.len() == 0 {
        (0int, 0int, 0int, 0int)
    } else {
        let c = classify(lines[0]);
        let r = body_counts(lines.skip(1));
        (c.0 + r.0, c.1 + r.1, c.2 + r.2, c.3 + r.3)
    }
}

/// The counts the whole stream denotes.  Ahead/behind come from the last
/// `branch.ab` header; a malformed one fails the parse.  The first
/// non-header line starts the per-path section.
pub open spec fn status_rec(lines: Seq<Seq<u8>>, a: int, b: int) -> Option<(
    int,
    int,
    int,
    int,
    int,
    int,
)>
    decreases lines.len(),
{
    if lines.len() == 0 {
        Some((a, b, 0int, 0int, 0int, 0int))
    } else if is_bprefix(hdr_marker(), lines[0]) {
        let cmd = lines[0].skip(2);
        if is_bprefix(branch_ab(), cmd) {
            match parse_ab(cmd.skip(10)) {
                Some((a2, b2)) => status_rec(lines.skip(1), a2, b2),
                None => None,
            }
        } else {
            status_rec(lines.skip(1), a, b)
        }
    } else {
        let c = body_counts(lines);
        Some((a, b, c.0, c.1, c.2, c.3))
    }
}

/// `(ahead, behind, unmerged, staged, dirty, untracked)` of the stream, or
/// `None` on a malformed header.
pub open spec fn status_spec(out: Seq<u8>) -> Option<(int, int, int, int, int, int)> {
    status_rec(bsplit(out, 10), 0, 0)
}

fn bstarts_with(s: &[u8], p: &[u8]) -> (r: bool)
    ensures
        r == is_bprefix(p@, s@),
{
    let plen = p.len();
    if plen > s.len() {
        return false;
    }
    let mut i: usize = 0;
    while i < plen
        invariant
            plen == p@.len() <= s@.len(),
            0 <= i <= plen,
            forall|j: int| 0 <= j < i ==> s@[j] == p@[j],
        decreases plen - i,
    {
        if s[i] != p[i] {
            proof {
                assert(s@.subrange(0, p@.len() as int)[i as int] != p@[i as int]);
            }
            return false;
        }
        i += 1;
    }
    proof {
        assert(s@.subrange(0, p@.len() as int) =~= p@);
    }
    true
}

/// Parses one count word after its sign byte, exactly as `str::parse::<u32>`
/// does on digits: non-empty, all decimal digits, within range.
fn parse_count(w: &[u8]) -> (r: Option<u32>)
    ensures
        match r {
            Some(v) => parse_u32_spec(w@) == Some(v as int),
            None => parse_u32_spec(w@) is None,
        },
{
    let n = w.len();
    if n == 0 {
        return None;
    }
    let mut val: u64 = 0;
    let mut i: usize = 0;
    while i < n
        invariant
            n == w@.len(),
            0 <= i <= n,
            forall|j: int| 0 <= j < i ==> 48 <= #[trigger] w@[j] <= 57,
            val == dec_val(w@.take(i as int)),
            val <= u32::MAX,
        decreases n - i,
    {
        let b = w[i];
        if b < 48 || b > 57 {
            return None;
        }
        proof {
            assert(w@.take(i as int + 1).drop_last() =~= w@.take(i as int));
            assert(w@.take(i as int + 1).last() == w@[i as int]);
        }
        val = val * 10 + ((b - 48) as u64);
        if val > 0xFFFF_FFFFu64 {
            proof {
                // a longer digit word only grows, so the whole word is out
                // of range too (when it is all digits at all)
                if all_digits(w@) {
                    lemma_dec_val_grows(w@, i as int + 1);
                }
            }
            return None;
        }
        i += 1;
    }
    proof {
        assert(w@.take(n as int) =~= w@);
    }
    Some(val as u32)
}

/// Every separator-split has at least one piece.
proof fn lemma_bsplit_nonempty(s: Seq<u8>, sep: u8)
    ensures
        bsplit(s, sep).len() >= 1,
{
    lemma_brun_bound(s, sep);
}

/// The empty leftover after the last consumed line denotes no further
/// counts, whichever phase the parse is in.
proof fn lemma_empty_piece()
    ensures
        bsplit(Seq::<u8>::empty(), 10) =~= seq![Seq::<u8>::empty()],
        body_counts(seq![Seq::<u8>::empty()]) == (0int, 0int, 0int, 0int),
        forall|a: int, b: int| #[trigger] status_rec(seq![Seq::<u8>::empty()], a, b) == Some(
            (a, b, 0int, 0int, 0int, 0int),
        ),
{
    let l = seq![Seq::<u8>::empty()];
    assert(l.len() == 1);
    assert(l[0] =~= Seq::<u8>::empty());
    assert(l.skip(1) =~= Seq::<Seq<u8>>::empty());
    assert(bsplit(Seq::<u8>::empty(), 32) =~= seq![Seq::<u8>::empty()]);
    assert(bsplit(l[0], 32).len() == 1);
    assert(classify(l[0]) == (0int, 0int, 0int, 0int));
    assert(body_counts(l.skip(1)) == (0int, 0int, 0int, 0int));
    assert(body_counts(l) == (0int, 0int, 0int, 0int));
}

/// Parses the whole machine-readable status stream.  Every leading `# `
/// header line is consumed; each `branch.ab` header resets the ahead and
/// behind counts, and a malformed one fails the whole parse.  Every later
/// line updates the per-path counters; malformed path lines are skipped.
pub fn parse_status_stream(out: &[u8]) -> (r: Option<GitStatusExtended>)
    requires
        out@.len() < 0xFFFF_FFFF,
    ensures
        match r {
            Some(g) => status_spec(out@) == Some(
                (
                    g.ahead as int,
                    g.behind as int,
                    g.unmerged as int,
                    g.staged as int,
                    g.dirty as int,
                    g.untracked as int,
                ),
            ),
            None => status_spec(out@) is None,
        },
{
    let hm: Vec<u8> = vec![35u8, 32u8];
    let bab: Vec<u8> = vec![98u8, 114u8, 97u8, 110u8, 99u8, 104u8, 46u8, 97u8, 98u8, 32u8];
    proof {
        assert(hm@ =~= hdr_marker());
        assert(bab@ =~= branch_ab());
    }
    let n = out.len();
    let mut pos: usize = 0;
    let mut ahead: u32 = 0;
    let mut behind: u32 = 0;
    let mut unmerged: u32 = 0;
    let mut staged: u32 = 0;
    let mut dirty: u32 = 0;
    let mut untracked: u32 = 0;
    let mut in_headers = true;
    proof {
        assert(out@.skip(0) =~= out@);
    }
    while pos < n
        invariant
            n == out@.len() < 0xFFFF_FFFF,
            hm@ == hdr_marker(),
            bab@ == branch_ab(),
            0 <= pos <= n,
            unmerged <= pos && staged <= pos && dirty <= pos && untracked <= pos,
            in_headers ==> unmerged == 0 && staged == 0 && dirty == 0 && untracked == 0,
            in_headers ==> status_spec(out@) == status_rec(
                bsplit(out@.skip(pos as int), 10),
                ahead as int,
                behind as int,
            ),
            !in_headers ==> ({
                let c = body_counts(bsplit(out@.skip(pos as int), 10));
                status_spec(out@) == Some(
                    (
                        ahead as int,
                        behind as int,
                        unmerged + c.0,
                        staged + c.1,
                        dirty + c.2,
                        untracked + c.3,
                    ),
                )
            }),
        decreases n - pos,
    {
        let mut e: usize = pos;
        while e < n && out[e] != 10
            invariant
                n == out@.len(),
                pos <= e <= n,
                forall|j: int| pos <= j < e ==> out@[j] != 10,
            decreases n - e,
        {
            e += 1;
        }
        let line = slice_subrange(out, pos, e);
        let newpos = if e < n {
            e + 1
        } else {
            n
        };
        let ghost tail = out@.skip(pos as int);
        let ghost lines = bsplit(tail, 10);
        proof {
            assert forall|j: int| 0 <= j < e - pos implies tail[j] != 10 by {
                assert(tail[j] == out@[j + pos]);
            }
            if e < n {
                assert(tail[e - pos] == out@[e as int]);
            }
            lemma_brun_is(tail, 10, e - pos as int);
            assert(line@ =~= tail.take(e - pos as int));
            if e < n {
                assert(tail.skip(e - pos as int + 1) =~= out@.skip(newpos as int));
                assert(lines == seq![line@] + bsplit(out@.skip(newpos as int), 10));
                assert(lines[0] == line@);
                assert(lines.skip(1) =~= bsplit(out@.skip(newpos as int), 10));
            } else {
                assert(tail.take(e - pos as int) =~= tail);
                assert(lines == seq![line@]);
                assert(lines[0] == line@);
                assert(lines.skip(1) =~= Seq::<Seq<u8>>::empty());
                // the leftover empty piece after the loop contributes nothing
                assert(out@.skip(n as int) =~= Seq::<u8>::empty());
                lemma_empty_piece();
            }
        }
        if in_headers && bstarts_with(line, hm.as_slice()) {
            let cmd = slice_subrange(line, 2, line.len());
            proof {
                assert(cmd@ =~= lines[0].skip(2));
            }
            if bstarts_with(cmd, bab.as_slice()) {
                let rest = slice_subrange(cmd, 10, cmd.len());
                proof {
                    assert(rest@ =~= lines[0].skip(2).skip(10));
                }
                match parse_ab_exec(rest) {
                    Some((a, b)) => {
                        ahead = a;
                        behind = b;
                    },
                    None => {
                        return None;
                    },
                }
            }
            proof {
                if e >= n {
                    lemma_empty_piece();
                    assert(status_rec(lines.skip(1), ahead as int, behind as int) == Some(
                        (ahead as int, behind as int, 0int, 0int, 0int, 0int),
                    ));
                    assert(out@.skip(newpos as int) =~= Seq::<u8>::empty());
                    assert(status_rec(
                        bsplit(out@.skip(newpos as int), 10),
                        ahead as int,
                        behind as int,
                    ) == Some((ahead as int, behind as int, 0int, 0int, 0int, 0int)));
                }
            }
            pos = newpos;
        } else {
            proof {
                if in_headers {
                    // the first non-header line starts the per-path section
                    assert(status_rec(lines, ahead as int, behind as int) == Some(
                        (
                            ahead as int,
                            behind as int,
                            body_counts(lines).0,
                            body_counts(lines).1,
                            body_counts(lines).2,
                            body_counts(lines).3,
                        ),
                    ));
                }
            }
            in_headers = false;
            let mut e1: usize = 0;
            let llen = line.len();
            while e1 < llen && out_of_line(line, e1) != 32
                invariant
                    llen == line@.len(),
                    0 <= e1 <= llen,
                    forall|j: int| 0 <= j < e1 ==> line@[j] != 32,
                decreases llen - e1,
            {
                e1 += 1;
            }
            proof {
                lemma_brun_is(line@, 32, e1 as int);
                lemma_bsplit_nonempty(line@.skip(e1 as int + 1), 32);
            }
            if e1 < llen {
                // two or more words: the first decides the classification
                let ghost ws = bsplit(line@, 32);
                proof {
                    assert(ws[0] == line@.take(e1 as int));
                    assert(ws.len() >= 2);
                }
                if e1 >= 1 {
                    let c0 = out_of_line(line, 0);
                    if c0 == 63 {
                        untracked += 1;
                    } else if c0 == 117 {
                        unmerged += 1;
                    } else if e1 == 2 {
                        let c1 = out_of_line(line, 1);
                        if c0 != 46 {
                            staged += 1;
                        }
                        if c1 != 46 {
                            dirty += 1;
                        }
                    }
                    proof {
                        assert(ws[0][0] == line@[0]);
                        if e1 == 2 {
                            assert(ws[0][1] == line@[1]);
                        }
                    }
                }
            }
            proof {
                let c0 = classify(lines[0]);
                let cr = body_counts(lines.skip(1));
                assert(body_counts(lines) == (c0.0 + cr.0, c0.1 + cr.1, c0.2 + cr.2, c0.3 + cr.3));
                if e >= n {
                    lemma_empty_piece();
                    assert(out@.skip(newpos as int) =~= Seq::<u8>::empty());
                    assert(body_counts(bsplit(out@.skip(n as int), 10)) == (
                        0int,
                        0int,
                        0int,
                        0int,
                    ));
                }
            }
            pos = newpos;
        }
    }
    proof {
        assert(out@.skip(pos as int) =~= Seq::<u8>::empty());
        lemma_empty_piece();
    }
    Some(
        GitStatusExtended {
            behind,
            ahead,
            unmerged,
            staged,
            dirty,
            untracked,
        },
    )
}

/// One byte of a line.
fn out_of_line(line: &[u8], i: usize) -> (r: u8)
    requires
        i < line@.len(),
    ensures
        r == line@[i as int],
{
    line[i]
}

/// Parses the payload after `branch.ab `: exactly two sign-prefixed counts.
fn parse_ab_exec(rest: &[u8]) -> (r: Option<(u32, u32)>)
    ensures
        match r {
            Some((a, b)) => parse_ab(rest@) == Some((a as int, b as int)),
            None => parse_ab(rest@) is None,
        },
{
    let n = rest.len();
    let mut e1: usize = 0;
    while e1 < n && rest[e1] != 32
        invariant
            n == rest@.len(),
            0 <= e1 <= n,
            forall|j: int| 0 <= j < e1 ==> rest@[j] != 32,
        decreases n - e1,
    {
        e1 += 1;
    }
    proof {
        lemma_brun_is(rest@, 32, e1 as int);
    }
    if e1 == n {
        // a single word: not an ahead/behind pair
        return None;
    }
    let w0 = slice_subrange(rest, 0, e1);
    let w1 = slice_subrange(rest, e1 + 1, n);
    let ghost ws = bsplit(rest@, 32);
    proof {
        assert(w1@ =~= rest@.skip(e1 as int + 1));
        assert(ws == seq![rest@.take(e1 as int)] + bsplit(w1@, 32));
    }
    // a further separator would make a third word
    let mut e2: usize = 0;
    let n1 = w1.len();
    while e2 < n1 && w1[e2] != 32
        invariant
            n1 == w1@.len(),
            0 <= e2 <= n1,
            forall|j: int| 0 <= j < e2 ==> w1@[j] != 32,
        decreases n1 - e2,
    {
        e2 += 1;
    }
    proof {
        lemma_brun_is(w1@, 32, e2 as int);
        if e2 < n1 {
            lemma_bsplit_nonempty(w1@.skip(e2 as int + 1), 32);
        } else {
            assert(w1@.take(e2 as int) =~= w1@);
        }
    }
    if e2 < n1 {
        return None;
    }
    if e1 == 0 || n1 == 0 {
        return None;
    }
    let a = match parse_count(slice_subrange(w0, 1, e1)) {
        Some(v) => v,
        None => {
            proof {
                assert(ws[0].skip(1) =~= rest@.take(e1 as int).skip(1));
            }
            return None;
        },
    };
    let b = match parse_count(slice_subrange(w1, 1, n1)) {
        Some(v) => v,
        None => {
            proof {
                assert(ws[1].skip(1) =~= w1@.skip(1));
            }
            return None;
        },
    };
    proof {
        assert(ws[0].skip(1) =~= rest@.take(e1 as int).skip(1));
        assert(ws[1].skip(1) =~= w1@.skip(1));
    }
    Some((a, b))
}

/// A longer digit prefix never has a smaller value.
proof fn lemma_dec_val_grows(w: Seq<u8>, k: int)
    requires
        0 <= k <= w.len(),
        forall|j: int| 0 <= j < w.len() ==> 48 <= #[trigger] w[j] <= 57,
    ensures
        dec_val(w) >= dec_val(w.take(k)),
    decreases w.len() - k,
{
    if k < w.len() {
        lemma_dec_val_grows(w, k + 1);
        assert(w.take(k + 1).drop_last() =~= w.take(k));
        assert(w.take(k + 1).last() == w[k]);
        assert(dec_val(w.take(k + 1)) == dec_val(w.take(k)) * 10 + (w[k] - 48));
        assert(dec_val(w.take(k)) >= 0) by {
            assert forall|j: int| 0 <= j < w.take(k).len() implies 48 <= #[trigger] w.take(k)[j] by {
                assert(w.take(k)[j] == w[j]);
            }
            lemma_dec_val_nonneg(w.take(k));
        }
    } else {
        assert(w.take(k) =~= w);
    }
}

proof fn lemma_dec_val_nonneg(w: Seq<u8>)
    requires
        forall|j: int| 0 <= j < w.len() ==> 48 <= #[trigger] w[j],
    ensures
        dec_val(w) >= 0,
    decreases w.len(),
{
    if w.len() > 0 {
        assert forall|j: int| 0 <= j < w.drop_last().len() implies 48 <= #[trigger] w.drop_last()[j] by {
            assert(w.drop_last()[j] == w[j]);
        }
        lemma_dec_val_nonneg(w.drop_last());
    }
}

} // verus!
