//! The line model of git's text control files: splitting on line feeds with
//! one trailing carriage return stripped per line, a final unterminated line
//! kept, and no empty line invented after a trailing line feed.

use vstd::prelude::*;

verus! {

/// Length of the leading run without a line feed.
pub open spec fn line_len(s: Seq<char>) -> int
    decreases s.len(),
{
    if s.len() == 0 || s[0] == '\n' {
        0
    } else {
        1 + line_len(s.skip(1))
    }
}

/// One line with a single trailing carriage return removed.
pub open spec fn strip_cr(l: Seq<char>) -> Seq<char> {
    if l.len() > 0 && l.last() == '\r' {
        l.drop_last()
    } else {
        l
    }
}

proof fn lemma_line_len_bound(s: Seq<char>)
    ensures
        0 <= line_len(s) <= s.len(),
    decreases s.len(),
{
    if s.len() > 0 && s[0] != '\n' {
        lemma_line_len_bound(s.skip(1));
    }
}

/// The lines of `s`.
pub open spec fn split_lines(s: Seq<char>) -> Seq<Seq<char>>
    decreases s.len(),
    via split_lines_decreases
{
    if s.len() == 0 {
        Seq::empty()
    } else {
        let n = line_len(s);
        if n == s.len() {
            seq![strip_cr(s.take(n))]
        } else {
            seq![strip_cr(s.take(n))] + split_lines(s.skip(n + 1))
        }
    }
}

#[via_fn]
proof fn split_lines_decreases(s: Seq<char>) {
    if s.len() > 0 {
        lemma_line_len_bound(s);
    }
}

/// Count of line feeds.
pub open spec fn newline_count(s: Seq<char>) -> int
    decreases s.len(),
{
    if s.len() == 0 {
        0
    } else {
        (if s[0] == '\n' {
            1int
        } else {
            0int
        }) + newline_count(s.skip(1))
    }
}

/// Number of lines: one per line feed, plus a final unterminated line.
pub open spec fn line_count(s: Seq<char>) -> int {
    newline_count(s) + if s.len() > 0 && s.last() != '\n' {
        1int
    } else {
        0int
    }
}

/// Count of lines that do not begin with `#`, `at_start` saying whether the
/// scan stands at the beginning of a line.
pub open spec fn noncomment_rec(s: Seq<char>, at_start: bool) -> int
    decreases s.len(),
{
    if s.len() == 0 {
        0
    } else {
        (if at_start && s[0] != '#' {
            1int
        } else {
            0int
        }) + noncomment_rec(s.skip(1), s[0] == '\n')
    }
}

/// Count of lines not prefixed by a `#` comment marker.
pub open spec fn noncomment_line_count(s: Seq<char>) -> int {
    noncomment_rec(s, true)
}

proof fn lemma_newline_count_bound(s: Seq<char>)
    ensures
        0 <= newline_count(s) <= s.len(),
        s.len() > 0 && s.last() != '\n' ==> newline_count(s) <= s.len() - 1,
    decreases s.len(),
{
    if s.len() > 0 {
        lemma_newline_count_bound(s.skip(1));
        if s.len() > 1 {
            assert(s.skip(1).last() == s.last());
        }
    }
}

proof fn lemma_noncomment_bound(s: Seq<char>, at_start: bool)
    ensures
        0 <= noncomment_rec(s, at_start) <= s.len(),
    decreases s.len(),
{
    if s.len() > 0 {
        lemma_noncomment_bound(s.skip(1), s[0] == '\n');
    }
}

/// Number of lines of `s`: one per line feed, plus a final line without one.
/// An absent file reads as the empty string, which has zero lines.
pub fn count_lines(s: &str) -> (r: usize)
    ensures
        r == line_count(s@),
{
    let n = s.unicode_len();
    let mut count: usize = 0;
    let mut i: usize = 0;
    proof {
        assert(s@.skip(0) =~= s@);
    }
    while i < n
        invariant
            n == s@.len(),
            0 <= i <= n,
            count == newline_count(s@) - newline_count(s@.skip(i as int)),
            count <= i,
        decreases n - i,
    {
        proof {
            assert(s@.skip(i as int).skip(1) =~= s@.skip(i as int + 1));
            lemma_newline_count_bound(s@.skip(i as int + 1));
        }
        if s.get_char(i) == '\n' {
            count += 1;
        }
        i += 1;
    }
    proof {
        assert(s@.skip(n as int) =~= Seq::<char>::empty());
        lemma_newline_count_bound(s@);
    }
    if n > 0 && s.get_char(n - 1) != '\n' {
        count += 1;
    }
    count
}

/// Number of lines of `s` that do not begin with a `#` comment marker.
pub fn count_noncomment_lines(s: &str) -> (r: usize)
    ensures
        r == noncomment_line_count(s@),
{
    let n = s.unicode_len();
    let mut count: usize = 0;
    let mut i: usize = 0;
    let mut at_start = true;
    proof {
        assert(s@.skip(0) =~= s@);
    }
    while i < n
        invariant
            n == s@.len(),
            0 <= i <= n,
            count + noncomment_rec(s@.skip(i as int), at_start) == noncomment_rec(s@, true),
            count <= i,
        decreases n - i,
    {
        proof {
            assert(s@.skip(i as int).skip(1) =~= s@.skip(i as int + 1));
            lemma_noncomment_bound(s@.skip(i as int + 1), s@[i as int] == '\n');
        }
        let c = s.get_char(i);
        if at_start && c != '#' {
            count += 1;
        }
        at_start = c == '\n';
        i += 1;
    }
    proof {
        assert(s@.skip(n as int) =~= Seq::<char>::empty());
    }
    count
}

proof fn lemma_line_len_is(s: Seq<char>, i: int)
    requires
        0 <= i <= s.len(),
        forall|j: int| 0 <= j < i ==> s[j] != '\n',
        i < s.len() ==> s[i] == '\n',
    ensures
        line_len(s) == i,
    decreases i,
{
    if i > 0 {
        assert forall|j: int| 0 <= j < i - 1 implies s.skip(1)[j] != '\n' by {
            assert(s.skip(1)[j] == s[j + 1]);
        }
        if i - 1 < s.len() - 1 {
            assert(s.skip(1)[i - 1] == s[i]);
        }
        lemma_line_len_is(s.skip(1), i - 1);
    }
}

/// The lines of `s`, materialised.
pub fn split_lines_of(s: &str) -> (r: Vec<String>)
    ensures
        r@.map_values(|l: String| l@) == split_lines(s@),
{
    let n = s.unicode_len();
    let mut out: Vec<String> = Vec::new();
    let mut pos: usize = 0;
    proof {
        assert(s@.skip(0) =~= s@);
        assert(out@.map_values(|l: String| l@) =~= Seq::<Seq<char>>::empty());
        assert(Seq::<Seq<char>>::empty() + split_lines(s@) =~= split_lines(s@));
    }
    while pos < n
        invariant
            n == s@.len(),
            0 <= pos <= n,
            split_lines(s@) == out@.map_values(|l: String| l@) + split_lines(s@.skip(pos as int)),
        decreases n - pos,
    {
        let mut e: usize = pos;
        while e < n && s.get_char(e) != '\n'
            invariant
                n == s@.len(),
                pos <= e <= n,
                forall|j: int| pos <= j < e ==> s@[j] != '\n',
            decreases n - e,
        {
            e += 1;
        }
        proof {
            assert forall|j: int| 0 <= j < e - pos implies s@.skip(pos as int)[j] != '\n' by {
                assert(s@.skip(pos as int)[j] == s@[j + pos]);
            }
            if e < n {
                assert(s@.skip(pos as int)[e - pos] == s@[e as int]);
            }
            lemma_line_len_is(s@.skip(pos as int), e - pos as int);
        }
        let stripped_end = if e > pos && s.get_char(e - 1) == '\r' {
            e - 1
        } else {
            e
        };
        let line = s.substring_char(pos, stripped_end);
        proof {
            let tail = s@.skip(pos as int);
            assert(tail.take(e - pos as int) =~= s@.subrange(pos as int, e as int));
            if e > pos && s@[e - 1] == '\r' {
                assert(strip_cr(tail.take(e - pos as int)) =~= s@.subrange(
                    pos as int,
                    e as int - 1,
                ));
            }
            assert(line@ == strip_cr(tail.take(e - pos as int)));
        }
        out.push(String::from_str(line));
        proof {
            let prev = out@.drop_last().map_values(|l: String| l@);
            assert(out@.drop_last() =~= out@.subrange(0, out@.len() - 1));
            assert(out@.map_values(|l: String| l@) =~= prev.push(line@));
            let tail = s@.skip(pos as int);
            if e == n {
                assert(split_lines(tail) =~= seq![strip_cr(tail.take(e - pos as int))]);
            } else {
                assert(tail.skip(e - pos as int + 1) =~= s@.skip(e as int + 1));
            }
        }
        if e == n {
            pos = n;
        } else {
            pos = e + 1;
        }
    }
    proof {
        assert(s@.skip(pos as int) =~= Seq::<char>::empty());
        assert(out@.map_values(|l: String| l@) =~= out@.map_values(|l: String| l@) + split_lines(
            Seq::<char>::empty(),
        ));
    }
    out
}

} // verus!
