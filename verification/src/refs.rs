//! Reference resolution: what HEAD points at, and the indirection file that
//! worktrees and submodules use in place of a control directory.

use vstd::prelude::*;

use crate::hex::valid_oid;
use crate::text::{
    first_token, is_ascii_ws, is_prefix, lemma_leading_non_ws_is, lemma_leading_ws_is,
    lemma_trailing_ws_is, trim_spec, first_token_of, starts_with, trim_ascii,
};

verus! {

/// The current HEAD: a named branch, a detached commit id, or something this
/// reader does not understand.
#[derive(Debug, PartialEq, Eq)]
pub enum Head {
    Branch(String),
    Commit(String),
    Unknown,
}

/// A reference target resolves to branch `b` when, after trimming, it reads
/// `refs/heads/<b>`.
pub open spec fn names_branch(target: Seq<char>, b: Seq<char>) -> bool {
    is_prefix(("refs/heads/")@, trim_spec(target)) && b == trim_spec(target).skip(11)
}

/// HEAD content resolves to branch `b` when it is a `ref:` pointer whose
/// target names `refs/heads/<b>`.
pub open spec fn resolves_to_branch(c: Seq<char>, b: Seq<char>) -> bool {
    is_prefix(("ref:")@, c) && names_branch(c.skip(4), b)
}

/// HEAD content resolves to detached commit `id` when it is not a `ref:`
/// pointer and its first token is a well-formed forty-digit hex id.
pub open spec fn resolves_to_commit(c: Seq<char>, id: Seq<char>) -> bool {
    !is_prefix(("ref:")@, c) && valid_oid(first_token(c)) && id == first_token(c)
}

/// Classifies a symbolic reference target: `refs/heads/<name>` becomes a
/// branch, anything else is unknown.
pub fn parse_ref_by_name(name: &str) -> (r: Head)
    ensures
        r matches Head::Branch(b) ==> names_branch(name@, b@),
        r matches Head::Unknown ==> !is_prefix(("refs/heads/")@, trim_spec(name@)),
        !(r is Commit),
{
    let t = trim_ascii(name);
    if starts_with(t, "refs/heads/") {
        proof {
            reveal_strlit("refs/heads/");
        }
        let b = t.substring_char(11, t.unicode_len());
        proof {
            assert(b@ =~= trim_spec(name@).skip(11));
        }
        Head::Branch(String::from_str(b))
    } else {
        Head::Unknown
    }
}

/// Classifies the content of a HEAD file: a `ref:` pointer is resolved as a
/// symbolic reference; otherwise the first token is taken as a detached
/// commit id when it has the forty-digit hex shape, and anything else
/// degrades to unknown rather than failing.
pub fn head_from_content(content: &str) -> (r: Head)
    ensures
        r matches Head::Branch(b) ==> resolves_to_branch(content@, b@),
        r matches Head::Commit(id) ==> resolves_to_commit(content@, id@),
        r matches Head::Unknown ==> (!is_prefix(("ref:")@, content@) ==> !valid_oid(
            first_token(content@),
        )) && (is_prefix(("ref:")@, content@) ==> !is_prefix(
            ("refs/heads/")@,
            trim_spec(content@.skip(4)),
        )),
{
    if starts_with(content, "ref:") {
        proof {
            reveal_strlit("ref:");
        }
        let rest = content.substring_char(4, content.unicode_len());
        proof {
            assert(rest@ =~= content@.skip(4));
        }
        parse_ref_by_name(rest)
    } else {
        let tok = first_token_of(content);
        match crate::hex::parse_oid(tok) {
            Some(_) => Head::Commit(String::from_str(tok)),
            None => Head::Unknown,
        }
    }
}

/// Count of trailing carriage-return or line-feed characters.
pub open spec fn trailing_newlines(s: Seq<char>) -> int
    decreases s.len(),
{
    if s.len() == 0 || !(s.last() == '\n' || s.last() == '\r') {
        0
    } else {
        1 + trailing_newlines(s.drop_last())
    }
}

proof fn lemma_trailing_newlines_is(s: Seq<char>, i: int)
    requires
        0 <= i <= s.len(),
        forall|j: int| s.len() - i <= j < s.len() ==> #[trigger] s[j] == '\n' || s[j] == '\r',
        i < s.len() ==> !(s[s.len() - i - 1] == '\n' || s[s.len() - i - 1] == '\r'),
    ensures
        trailing_newlines(s) == i,
    decreases i,
{
    if i == 0 {
    } else {
        assert forall|j: int|
            s.drop_last().len() - (i - 1) <= j < s.drop_last().len() implies #[trigger] s.drop_last()[j]
            == '\n' || s.drop_last()[j] == '\r' by {
            assert(s.drop_last()[j] == s[j]);
        }
        if i - 1 < s.len() - 1 {
            assert(s.drop_last()[s.len() - i - 1] == s[s.len() - i - 1]);
        }
        lemma_trailing_newlines_is(s.drop_last(), i - 1);
    }
}

fn is_newline_char(c: char) -> (r: bool)
    ensures
        r == (c == '\n' || c == '\r'),
{
    c == '\n' || c == '\r'
}

/// Reads a control-directory indirection file: `gitdir: <path>`, with any
/// trailing line endings removed.  Any other content is malformed and
/// rejected.
pub fn parse_gitdir(content: &str) -> (r: Option<String>)
    ensures
        r is Some <==> is_prefix(("gitdir: ")@, content@),
        r matches Some(p) ==> {
            let rest = content@.skip(8);
            p@ == rest.subrange(0, rest.len() - trailing_newlines(rest))
        },
{
    if !starts_with(content, "gitdir: ") {
        return None;
    }
    proof {
        reveal_strlit("gitdir: ");
    }
    let n = content.unicode_len();
    let mut l: usize = n;
    while l > 8 && is_newline_char(content.get_char(l - 1))
        invariant
            n == content@.len() >= 8,
            8 <= l <= n,
            forall|j: int| l <= j < n ==> #[trigger] content@[j] == '\n' || content@[j] == '\r',
        decreases l,
    {
        l -= 1;
    }
    let ghost rest = content@.skip(8);
    proof {
        assert forall|j: int| rest.len() - (n - l) <= j < rest.len() implies #[trigger] rest[j]
            == '\n' || rest[j] == '\r' by {
            assert(rest[j] == content@[j + 8]);
        }
        if l > 8 {
            assert(rest[l - 8 - 1] == content@[l - 1]);
        }
        lemma_trailing_newlines_is(rest, n - l as int);
    }
    let p = content.substring_char(8, l);
    proof {
        assert(p@ =~= rest.subrange(0, rest.len() - trailing_newlines(rest)));
    }
    Some(String::from_str(p))
}

/// Writing HEAD as `ref: refs/heads/<name>` followed by a newline resolves
/// back to branch `<name>`, for any name free of ASCII whitespace.
pub proof fn lemma_reference_round_trip(name: Seq<char>)
    requires
        name.len() > 0,
        forall|i: int| 0 <= i < name.len() ==> !is_ascii_ws(#[trigger] name[i]),
    ensures
        resolves_to_branch(("ref: refs/heads/")@ + name + seq!['\n'], name),
{
    reveal_strlit("ref: refs/heads/");
    reveal_strlit("ref:");
    reveal_strlit("refs/heads/");
    let c = ("ref: refs/heads/")@ + name + seq!['\n'];
    assert(c.subrange(0, 4) =~= ("ref:")@);
    let s = c.skip(4);
    assert(s.len() == 13 + name.len());
    assert(s[0] == ' ');
    assert(s[1] == 'r');
    lemma_leading_ws_is(s, 1);
    assert(s[s.len() - 1] == '\n');
    assert(s[s.len() - 2] == name[name.len() - 1]);
    lemma_trailing_ws_is(s, 1);
    let tr = trim_spec(s);
    assert(tr =~= s.subrange(1, s.len() - 1));
    assert(tr.subrange(0, 11) =~= ("refs/heads/")@);
    assert(tr.skip(11) =~= name);
}

/// Writing HEAD as a bare forty-digit hex id resolves back to that detached
/// commit id.
pub proof fn lemma_commit_round_trip(id: Seq<char>)
    requires
        valid_oid(id),
    ensures
        resolves_to_commit(id, id),
{
    reveal_strlit("ref:");
    if is_prefix(("ref:")@, id) {
        assert(id.subrange(0, 4)[0] == id[0]);
        assert(id[0] == 'r');
        assert(crate::hex::is_hex_digit(id[0]));
        assert(false);
    }
    assert forall|j: int| 0 <= j < id.len() implies !is_ascii_ws(#[trigger] id[j]) by {
        assert(crate::hex::is_hex_digit(id[j]));
    }
    lemma_leading_ws_is(id, 0);
    lemma_leading_non_ws_is(id.skip(0), id.len() as int);
    assert(first_token(id) =~= id);
}

} // verus!
