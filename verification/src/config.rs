//! Remote tracking lookup in the repository's text configuration: the
//! upstream branch declared by a `merge = refs/heads/<name>` entry inside
//! the `[branch "<name>"]` section.

use vstd::prelude::*;

use crate::lines::{split_lines, split_lines_of};
use crate::text::{is_prefix, starts_with, str_eq};

verus! {

/// Search inside one section: its lines are those beginning with a tab, and
/// the first `merge = refs/heads/` entry among them names the upstream.
pub open spec fn upstream_in_section(lines: Seq<Seq<char>>) -> Option<Seq<char>>
    decreases lines.len(),
{
    if lines.len() == 0 {
        None
    } else if !is_prefix(seq!['\t'], lines[0]) {
        None
    } else if is_prefix(("\tmerge = refs/heads/")@, lines[0]) {
        Some(lines[0].skip(20))
    } else {
        upstream_in_section(lines.skip(1))
    }
}

/// The upstream named under the first line equal to `header`, if any.
pub open spec fn upstream_of(lines: Seq<Seq<char>>, header: Seq<char>) -> Option<Seq<char>>
    decreases lines.len(),
{
    if lines.len() == 0 {
        None
    } else if lines[0] == header {
        upstream_in_section(lines.skip(1))
    } else {
        upstream_of(lines.skip(1), header)
    }
}

/// The section header whose section declares branch `b`'s upstream.
pub open spec fn branch_header(b: Seq<char>) -> Seq<char> {
    ("[branch \"")@ + b + ("\"]")@
}

/// Looks up the configured upstream of `branch` in the configuration text:
/// the first `merge = refs/heads/<upstream>` entry among the tab-indented
/// lines following the exact `[branch "<branch>"]` header.  A same-named key
/// in another section is never matched.
pub fn remote_branch(config: &str, branch: &str) -> (r: Option<String>)
    ensures
        match r {
            Some(u) => upstream_of(split_lines(config@), branch_header(branch@)) == Some(u@),
            None => upstream_of(split_lines(config@), branch_header(branch@)) is None,
        },
{
    let mut header = String::from_str("[branch \"");
    header.append(branch);
    header.append("\"]");
    proof {
        assert(header@ == branch_header(branch@));
    }
    let lines = split_lines_of(config);
    let ghost model = lines@.map_values(|l: String| l@);
    let n = lines.len();
    let mut i: usize = 0;
    let mut found = false;
    proof {
        assert(model.skip(0) =~= model);
    }
    while i < n && !found
        invariant
            n == lines@.len(),
            model == lines@.map_values(|l: String| l@),
            model == split_lines(config@),
            0 <= i <= n,
            header@ == branch_header(branch@),
            found ==> i >= 1 && model[i as int - 1] == header@,
            found ==> upstream_of(model, header@) == upstream_in_section(
                model.skip(i as int),
            ),
            !found ==> upstream_of(model, header@) == upstream_of(
                model.skip(i as int),
                header@,
            ),
        decreases n - i + if found {
            0int
        } else {
            1int
        },
    {
        proof {
            assert(model.skip(i as int).skip(1) =~= model.skip(i as int + 1));
            assert(model.skip(i as int)[0] == model[i as int]);
        }
        if str_eq(lines[i].as_str(), header.as_str()) {
            found = true;
        }
        i += 1;
    }
    if !found {
        proof {
            assert(model.skip(i as int) =~= Seq::<Seq<char>>::empty());
        }
        return None;
    }
    while i < n
        invariant
            n == lines@.len(),
            model == lines@.map_values(|l: String| l@),
            model == split_lines(config@),
            0 <= i <= n,
            upstream_of(model, branch_header(branch@)) == upstream_in_section(
                model.skip(i as int),
            ),
        decreases n - i,
    {
        proof {
            assert(model.skip(i as int).skip(1) =~= model.skip(i as int + 1));
            assert(model.skip(i as int)[0] == model[i as int]);
        }
        let line = lines[i].as_str();
        if !starts_with(line, "\t") {
            proof {
                reveal_strlit("\t");
                assert(("\t")@ =~= seq!['\t']);
            }
            return None;
        }
        proof {
            reveal_strlit("\t");
            assert(("\t")@ =~= seq!['\t']);
        }
        if starts_with(line, "\tmerge = refs/heads/") {
            proof {
                reveal_strlit("\tmerge = refs/heads/");
            }
            let u = line.substring_char(20, line.unicode_len());
            proof {
                assert(u@ =~= model[i as int].skip(20));
            }
            return Some(String::from_str(u));
        }
        i += 1;
    }
    proof {
        assert(model.skip(i as int) =~= Seq::<Seq<char>>::empty());
    }
    None
}

} // verus!
