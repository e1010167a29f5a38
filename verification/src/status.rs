//! The repository snapshot handed to the rendering layer, and its exact
//! textual rendering.

use vstd::prelude::*;

use crate::fmt::{dec_str, format_usize};
use crate::refs::Head;
use crate::state::State;
use crate::text::str_eq;

verus! {

/// The icon strings the rendering layer chose; this crate only splices them
/// into the status text.
pub struct Prompt {
    pub on_branch: String,
    pub at_commit: String,
    pub bisect: String,
    pub revert: String,
    pub cherry_pick: String,
    pub merge: String,
    pub rebase: String,
    pub autorebase: String,
    pub behind: String,
    pub ahead: String,
    pub conflict: String,
    pub staged: String,
    pub dirty: String,
    pub untracked: String,
}

/// Repository snapshot: everything the fast status line shows.  Each query
/// builds a fresh immutable value; nothing is cached across renders.
pub struct GitStatus {
    /// Working tree root.
    pub tree: String,
    /// Control directory, resolved through any indirection file.
    pub root: String,
    /// What HEAD points at.
    pub head: Head,
    /// Upstream branch name, when HEAD is a branch and one is configured.
    pub remote_branch: Option<String>,
    /// Entries in the stash log.
    pub stashes: usize,
    /// Operation in progress, if any.
    pub state: Option<State>,
    /// Abbreviation length for a detached commit id, computed at build time.
    pub abbrev: usize,
}

/// Working-tree counts parsed from the machine-readable status stream.
pub struct GitStatusExtended {
    pub behind: u32,
    pub ahead: u32,
    pub unmerged: u32,
    pub staged: u32,
    pub dirty: u32,
    pub untracked: u32,
}

pub open spec fn state_pretty_spec(st: State, p: Prompt) -> Seq<char> {
    match st {
        State::Bisecting => p.bisect@,
        State::Reverting => p.revert@,
        State::CherryPicking => p.cherry_pick@,
        State::Merging => p.merge@,
        State::Rebasing { interactive, done, todo } => (if interactive {
            p.rebase@
        } else {
            p.autorebase@
        }) + seq![' '] + dec_str(done as nat) + seq!['/'] + dec_str(todo as nat),
    }
}

pub open spec fn head_pretty_spec(h: Head, p: Prompt, abbrev: int) -> Seq<char> {
    match h {
        Head::Branch(name) => p.on_branch@ + seq![' '] + name@,
        Head::Commit(id) => p.at_commit@ + seq![' '] + id@.take(
            if abbrev <= id@.len() {
                abbrev
            } else {
                id@.len() as int
            },
        ),
        Head::Unknown => ("<unknown>")@,
    }
}

pub open spec fn git_status_pretty_spec(g: GitStatus, p: Prompt) -> Seq<char> {
    (match g.state {
        Some(st) => state_pretty_spec(st, p) + seq!['|'],
        None => Seq::<char>::empty(),
    }) + head_pretty_spec(g.head, p, g.abbrev as int) + (match g.head {
        Head::Branch(h) => match g.remote_branch {
            Some(rem) => if h@ != rem@ {
                seq![':'] + rem@
            } else {
                Seq::<char>::empty()
            },
            None => Seq::<char>::empty(),
        },
        _ => Seq::<char>::empty(),
    }) + (if g.stashes != 0 {
        seq![' ', '*'] + dec_str(g.stashes as nat)
    } else {
        Seq::<char>::empty()
    })
}

/// One ` <icon><count>` segment, dropped when the count is zero.
pub open spec fn seg_spec(icon: Seq<char>, v: nat) -> Seq<char> {
    if v != 0 {
        seq![' '] + icon + dec_str(v)
    } else {
        Seq::<char>::empty()
    }
}

pub open spec fn extended_pretty_spec(g: GitStatusExtended, p: Prompt) -> Seq<char> {
    seg_spec(p.behind@, g.behind as nat) + seg_spec(p.ahead@, g.ahead as nat) + seg_spec(
        p.conflict@,
        g.unmerged as nat,
    ) + seg_spec(p.staged@, g.staged as nat) + seg_spec(p.dirty@, g.dirty as nat) + seg_spec(
        p.untracked@,
        g.untracked as nat,
    )
}

impl State {
    /// Renders the in-progress operation; a rebase shows `done/todo` step
    /// counts after its icon.
    pub fn pretty(&self, prompt: &Prompt) -> (r: String)
        ensures
            r@ == state_pretty_spec(*self, *prompt),
    {
        match self {
            State::Bisecting => String::from_str(prompt.bisect.as_str()),
            State::Reverting => String::from_str(prompt.revert.as_str()),
            State::CherryPicking => String::from_str(prompt.cherry_pick.as_str()),
            State::Merging => String::from_str(prompt.merge.as_str()),
            State::Rebasing { interactive, done, todo } => {
                let mut s = if *interactive {
                    String::from_str(prompt.rebase.as_str())
                } else {
                    String::from_str(prompt.autorebase.as_str())
                };
                s.append(" ");
                s.append(format_usize(*done).as_str());
                s.append("/");
                s.append(format_usize(*todo).as_str());
                proof {
                    reveal_strlit(" ");
                    reveal_strlit("/");
                    assert((" ")@ =~= seq![' ']);
                    assert(("/")@ =~= seq!['/']);
                    assert(s@ =~= state_pretty_spec(*self, *prompt));
                }
                s
            },
        }
    }
}

impl Head {
    /// Renders the current reference: branch icon and name, or commit icon
    /// and the id cut to the abbreviation length.
    pub fn pretty(&self, prompt: &Prompt, abbrev: usize) -> (r: String)
        ensures
            r@ == head_pretty_spec(*self, *prompt, abbrev as int),
    {
        match self {
            Head::Branch(name) => {
                let mut s = String::from_str(prompt.on_branch.as_str());
                s.append(" ");
                s.append(name.as_str());
                proof {
                    reveal_strlit(" ");
                    assert((" ")@ =~= seq![' ']);
                    assert(s@ =~= head_pretty_spec(*self, *prompt, abbrev as int));
                }
                s
            },
            Head::Commit(id) => {
                let len = id.as_str().unicode_len();
                let k = if abbrev <= len {
                    abbrev
                } else {
                    len
                };
                let prefix = id.as_str().substring_char(0, k);
                let mut s = String::from_str(prompt.at_commit.as_str());
                s.append(" ");
                s.append(prefix);
                proof {
                    reveal_strlit(" ");
                    assert((" ")@ =~= seq![' ']);
                    assert(prefix@ =~= id@.take(
                        if abbrev as int <= id@.len() {
                            abbrev as int
                        } else {
                            id@.len() as int
                        },
                    ));
                    assert(s@ =~= head_pretty_spec(*self, *prompt, abbrev as int));
                }
                s
            },
            Head::Unknown => String::from_str("<unknown>"),
        }
    }
}

fn push_seg(s: &mut String, icon: &String, v: u32)
    ensures
        final(s)@ == old(s)@ + seg_spec(icon@, v as nat),
{
    if v != 0 {
        s.append(" ");
        s.append(icon.as_str());
        s.append(format_usize(v as usize).as_str());
        proof {
            reveal_strlit(" ");
            assert((" ")@ =~= seq![' ']);
            assert(final(s)@ =~= old(s)@ + seg_spec(icon@, v as nat));
        }
    } else {
        proof {
            assert(final(s)@ =~= old(s)@ + seg_spec(icon@, v as nat));
        }
    }
}

impl GitStatus {
    /// Renders the snapshot: the in-progress operation and a bar, the
    /// reference, `:upstream` when it differs from the branch, and ` *n`
    /// when stashes exist.
    pub fn pretty(&self, prompt: &Prompt) -> (r: String)
        ensures
            r@ == git_status_pretty_spec(*self, *prompt),
    {
        let mut s = match &self.state {
            Some(st) => {
                let mut s = st.pretty(prompt);
                s.append("|");
                proof {
                    reveal_strlit("|");
                    assert(("|")@ =~= seq!['|']);
                }
                s
            },
            None => String::new(),
        };
        let head = self.head.pretty(prompt, self.abbrev);
        s.append(head.as_str());
        match &self.head {
            Head::Branch(h) => {
                match &self.remote_branch {
                    Some(rem) => {
                        if !str_eq(h.as_str(), rem.as_str()) {
                            s.append(":");
                            s.append(rem.as_str());
                            proof {
                                reveal_strlit(":");
                                assert((":")@ =~= seq![':']);
                            }
                        }
                    },
                    None => {},
                }
            },
            _ => {},
        }
        if self.stashes != 0 {
            s.append(" *");
            s.append(format_usize(self.stashes).as_str());
            proof {
                reveal_strlit(" *");
                assert((" *")@ =~= seq![' ', '*']);
            }
        }
        proof {
            assert(s@ =~= git_status_pretty_spec(*self, *prompt));
        }
        s
    }
}

impl GitStatusExtended {
    /// Renders the working-tree counters, one ` <icon><count>` segment per
    /// non-zero counter, in the order behind, ahead, unmerged, staged,
    /// dirty, untracked.
    pub fn pretty(&self, prompt: &Prompt) -> (r: String)
        ensures
            r@ == extended_pretty_spec(*self, *prompt),
    {
        let mut s = String::new();
        push_seg(&mut s, &prompt.behind, self.behind);
        push_seg(&mut s, &prompt.ahead, self.ahead);
        push_seg(&mut s, &prompt.conflict, self.unmerged);
        push_seg(&mut s, &prompt.staged, self.staged);
        push_seg(&mut s, &prompt.dirty, self.dirty);
        push_seg(&mut s, &prompt.untracked, self.untracked);
        proof {
            assert(s@ =~= extended_pretty_spec(*self, *prompt));
        }
        s
    }
}

} // verus!
