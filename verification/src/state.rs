//! Detection of an in-progress repository operation from its marker files,
//! with a fixed priority order: bisect, then revert, then cherry-pick, then
//! rebase, then merge.  Only the first match is reported even when several
//! markers coexist.

use vstd::prelude::*;

use crate::lines::{count_lines, count_noncomment_lines, line_count, noncomment_line_count};

verus! {

/// An operation in progress; for an interactive rebase, how many steps are
/// done and how many remain.
#[derive(Debug, PartialEq, Eq)]
pub enum State {
    Merging,
    Rebasing { interactive: bool, done: usize, todo: usize },
    CherryPicking,
    Reverting,
    Bisecting,
}

/// What the caller found on disk: which marker paths exist, and the contents
/// of the two rebase step files (absent files read as empty, never an error).
pub struct RepoMarkers {
    /// The bisect log file exists.
    pub bisect_log: bool,
    /// The revert head marker exists.
    pub revert_head: bool,
    /// The cherry-pick head marker exists.
    pub cherry_pick_head: bool,
    /// The rebase-merge directory exists.
    pub rebase_merge: bool,
    /// The interactive marker inside the rebase-merge directory exists.
    pub rebase_interactive: bool,
    /// Content of the rebase todo file; empty when absent.
    pub rebase_todo: String,
    /// Content of the rebase done file; empty when absent.
    pub rebase_done: String,
    /// The merge head marker exists.
    pub merge_head: bool,
}

impl State {
    /// Classifies the markers in fixed priority order.  A rebase reports the
    /// todo count as the lines of the todo file not prefixed by a comment
    /// marker, and the done count as all lines of the done file; with both
    /// a rebase directory and a merge head present, the rebase wins.
    pub fn from_markers(m: &RepoMarkers) -> (r: Option<State>)
        ensures
            m.bisect_log ==> r == Some(State::Bisecting),
            !m.bisect_log && m.revert_head ==> r == Some(State::Reverting),
            !m.bisect_log && !m.revert_head && m.cherry_pick_head ==> r == Some(
                State::CherryPicking,
            ),
            !m.bisect_log && !m.revert_head && !m.cherry_pick_head && m.rebase_merge ==> (
            r matches Some(st) && st matches State::Rebasing { interactive, done, todo }
                && interactive == m.rebase_interactive && done == line_count(m.rebase_done@)
                && todo == noncomment_line_count(m.rebase_todo@)),
            !m.bisect_log && !m.revert_head && !m.cherry_pick_head && !m.rebase_merge
                && m.merge_head ==> r == Some(State::Merging),
            !m.bisect_log && !m.revert_head && !m.cherry_pick_head && !m.rebase_merge
                && !m.merge_head ==> r is None,
    {
        if m.bisect_log {
            Some(State::Bisecting)
        } else if m.revert_head {
            Some(State::Reverting)
        } else if m.cherry_pick_head {
            Some(State::CherryPicking)
        } else if m.rebase_merge {
            Some(
                State::Rebasing {
                    interactive: m.rebase_interactive,
                    done: count_lines(m.rebase_done.as_str()),
                    todo: count_noncomment_lines(m.rebase_todo.as_str()),
                },
            )
        } else if m.merge_head {
            Some(State::Merging)
        } else {
            None
        }
    }
}

} // verus!
