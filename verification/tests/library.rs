use statusline::abbrev::{abbreviate, objects_dir_len};
use statusline::config::remote_branch;
use statusline::hex::{lcp, lcp_bytes, parse_oid};
use statusline::lines::{count_lines, count_noncomment_lines};
use statusline::pack::{parse_pack_index, PackError, PackIndex};
use statusline::porcelain::parse_status_stream;
use statusline::refs::{head_from_content, parse_gitdir, parse_ref_by_name, Head};
use statusline::state::{RepoMarkers, State};
use statusline::status::{GitStatus, GitStatusExtended, Prompt};
use statusline::width::{readline_width, readline_width_checked};

fn build_pack_index(entries: &[[u8; 20]]) -> Vec<u8> {
    let mut data = vec![0xFFu8, 0x74, 0x4F, 0x63, 0, 0, 0, 2];
    let mut counts = [0u32; 256];
    for e in entries {
        counts[e[0] as usize] += 1;
    }
    let mut cum = 0u32;
    for b in 0..256 {
        cum += counts[b];
        data.extend_from_slice(&cum.to_be_bytes());
    }
    for e in entries {
        data.extend_from_slice(e);
    }
    data
}

fn oid_with_first_bytes(prefix: &[u8]) -> [u8; 20] {
    let mut id = [0u8; 20];
    id[..prefix.len()].copy_from_slice(prefix);
    id
}

fn test_prompt() -> Prompt {
    Prompt {
        on_branch: "on".to_string(),
        at_commit: "at".to_string(),
        bisect: "bisect".to_string(),
        revert: "revert".to_string(),
        cherry_pick: "cherry".to_string(),
        merge: "merge".to_string(),
        rebase: "rebase".to_string(),
        autorebase: "autorebase".to_string(),
        behind: "v".to_string(),
        ahead: "^".to_string(),
        conflict: "!".to_string(),
        staged: "+".to_string(),
        dirty: "~".to_string(),
        untracked: "?".to_string(),
    }
}

#[test]
fn lcp_counts_first_mismatch() {
    assert_eq!(lcp("abc", "abd"), 2);
    assert_eq!(lcp("0f3a", "0f3a99"), 0); // one a prefix of the other
    assert_eq!(lcp("same", "same"), 0); // identical names collide with nothing
    assert_eq!(lcp("xyz", "abc"), 0);
}

#[test]
fn lcp_bytes_counts_nibbles() {
    // ids ab12... and ab10...: the 1 nibble of the second byte matches,
    // the 2/0 nibble does not: three shared hex digits
    let a = oid_with_first_bytes(&[0xab, 0x12]);
    let b = oid_with_first_bytes(&[0xab, 0x10]);
    assert_eq!(lcp_bytes(&a, &b), 3);
    assert_eq!(lcp_bytes(&b, &a), 3); // symmetric
    // two full bytes shared, high nibbles of the third differ
    let c = oid_with_first_bytes(&[0xab, 0x12, 0x34]);
    let d = oid_with_first_bytes(&[0xab, 0x12, 0x78]);
    assert_eq!(lcp_bytes(&c, &d), 4);
    assert_eq!(lcp_bytes(&a, &a), 0); // equal ids share nothing by convention
}

#[test]
fn parse_oid_accepts_only_forty_hex() {
    let id = "0123456789abcdef0123456789abcdef01234567";
    let bytes = parse_oid(id).unwrap();
    assert_eq!(bytes.len(), 20);
    assert_eq!(bytes[0], 0x01);
    assert_eq!(bytes[1], 0x23);
    assert_eq!(bytes[19], 0x67);
    assert!(parse_oid("0123456789abcdef0123456789abcdef0123456").is_none()); // 39
    assert!(parse_oid("0123456789abcdef0123456789abcdef012345678").is_none()); // 41
    assert!(parse_oid("z123456789abcdef0123456789abcdef01234567").is_none());
    assert!(parse_oid("0123456789ABCDEF0123456789abcdef01234567").is_some());
}

#[test]
fn objects_dir_len_empty_directory() {
    let siblings: Vec<String> = vec![];
    assert_eq!(objects_dir_len(&siblings, "0123456789"), 2);
}

#[test]
fn objects_dir_len_longest_sibling() {
    let siblings = vec!["00012".to_string(), "0124".to_string(), "9".to_string()];
    // longest shared run with "0123..." is 3 ("012"), so 3 + 3
    assert_eq!(objects_dir_len(&siblings, "0123456789"), 6);
}

#[test]
fn pack_index_rejects_wrong_version() {
    // correct magic, version 3: must be skipped, not partially trusted
    let mut data = build_pack_index(&[]);
    data[7] = 3;
    assert!(matches!(parse_pack_index(&data), Err(PackError::BadVersion)));
}

#[test]
fn pack_index_rejects_wrong_magic() {
    // wrong magic, correct version: also rejected
    let mut data = build_pack_index(&[]);
    data[0] = 0x00;
    assert!(matches!(parse_pack_index(&data), Err(PackError::BadMagic)));
    // wrong magic and wrong version: the magic decides first
    let mut both = build_pack_index(&[]);
    both[0] = 0x00;
    both[7] = 9;
    assert!(matches!(parse_pack_index(&both), Err(PackError::BadMagic)));
}

#[test]
fn pack_index_rejects_short_and_truncated_files() {
    assert!(matches!(parse_pack_index(&[0xFF, 0x74]), Err(PackError::TooShort)));
    let data = build_pack_index(&[oid_with_first_bytes(&[0x10])]);
    let cut = &data[..data.len() - 1];
    assert!(matches!(parse_pack_index(cut), Err(PackError::Truncated)));
}

#[test]
fn pack_index_rejects_unsorted_entries() {
    let e1 = oid_with_first_bytes(&[0x10, 0x09]);
    let e2 = oid_with_first_bytes(&[0x10, 0x05]);
    let mut data = vec![0xFFu8, 0x74, 0x4F, 0x63, 0, 0, 0, 2];
    let mut cum = 0u32;
    for b in 0..256 {
        if b == 0x10 {
            cum = 2;
        }
        data.extend_from_slice(&cum.to_be_bytes());
    }
    data.extend_from_slice(&e1);
    data.extend_from_slice(&e2);
    assert!(matches!(parse_pack_index(&data), Err(PackError::Malformed)));
}

#[test]
fn pack_index_accepts_valid_file() {
    let entries = [
        oid_with_first_bytes(&[0x10, 0x05]),
        oid_with_first_bytes(&[0x10, 0x09]),
        oid_with_first_bytes(&[0xab, 0x12]),
    ];
    assert!(parse_pack_index(&build_pack_index(&entries)).is_ok());
}

#[test]
fn abbreviate_empty_store_is_four() {
    let siblings: Vec<String> = vec![];
    let packs: Vec<PackIndex> = vec![];
    assert_eq!(
        abbreviate("0123456789abcdef0123456789abcdef01234567", &siblings, &packs),
        4
    );
    assert_eq!(
        abbreviate("ffffffffffffffffffffffffffffffffffffffff", &siblings, &packs),
        4
    );
}

#[test]
fn abbreviate_loose_sibling_forces_longer_prefix() {
    // id aa00...; a sibling sharing five characters of the remaining digits
    let id = "aa00000000000000000000000000000000000000";
    let mut sib = String::from("00000");
    sib.push_str(&"1".repeat(33));
    assert_eq!(sib.len(), 38);
    let siblings = vec![sib];
    let packs: Vec<PackIndex> = vec![];
    // 3 + 5 shared characters
    assert_eq!(abbreviate(id, &siblings, &packs), 8);
}

#[test]
fn abbreviate_ignores_the_commit_itself() {
    let id = "aa00000000000000000000000000000000000000";
    let siblings = vec!["00000000000000000000000000000000000000".to_string()];
    let packs: Vec<PackIndex> = vec![];
    assert_eq!(abbreviate(id, &siblings, &packs), 4);
}

#[test]
fn abbreviate_packed_neighbour_counts_nibbles() {
    // target ab12...; packed neighbour ab10... shares 3 hex digits -> 1 + 3
    // is below the floor of four; ab1234... shares 5 -> length 6
    let id = "ab12340000000000000000000000000000000000";
    let target_neighbour = oid_with_first_bytes(&[0xab, 0x12, 0x35]);
    let idx = parse_pack_index(&build_pack_index(&[target_neighbour])).unwrap();
    let siblings: Vec<String> = vec![];
    let packs = vec![idx];
    assert_eq!(abbreviate(id, &siblings, &packs), 6);
}

#[test]
fn abbreviate_skips_equal_packed_entry() {
    let id = "ab12340000000000000000000000000000000000";
    let own = {
        let mut b = [0u8; 20];
        b[0] = 0xab;
        b[1] = 0x12;
        b[2] = 0x34;
        b
    };
    let idx = parse_pack_index(&build_pack_index(&[own])).unwrap();
    let siblings: Vec<String> = vec![];
    let packs = vec![idx];
    // the only packed id is the commit itself: floor of four
    assert_eq!(abbreviate(id, &siblings, &packs), 4);
}

#[test]
fn abbreviate_two_sided_neighbours() {
    let id = "ab12340000000000000000000000000000000000";
    let below = oid_with_first_bytes(&[0xab, 0x12, 0x33]);
    let own = oid_with_first_bytes(&[0xab, 0x12, 0x34]);
    let above = oid_with_first_bytes(&[0xab, 0x12, 0x34, 0x00, 0x01]);
    let idx = parse_pack_index(&build_pack_index(&[below, own, above])).unwrap();
    let siblings: Vec<String> = vec![];
    let packs = vec![idx];
    // the successor shares 7 bytes of nibbles: 0xab1234000001 vs 0xab12340000...
    // shared: ab 12 34 00 0 -> 9 digits; 1 + 9 = 10
    assert_eq!(abbreviate(id, &siblings, &packs), 10);
}

#[test]
fn abbreviate_other_bucket_contributes_nothing() {
    let id = "ab12340000000000000000000000000000000000";
    // different leading byte: even a shared first nibble (0xab vs 0xac)
    // stays under the floor of four digits
    let near = oid_with_first_bytes(&[0xac, 0x12, 0x34]);
    let far = oid_with_first_bytes(&[0xcd]);
    let idx = parse_pack_index(&build_pack_index(&[near, far])).unwrap();
    let siblings: Vec<String> = vec![];
    let packs = vec![idx];
    assert_eq!(abbreviate(id, &siblings, &packs), 4);
}

#[test]
fn abbreviate_singleton_bucket_below_target() {
    // one entry smaller than the target in the same bucket: predecessor only
    let id = "ab12340000000000000000000000000000000000";
    let below = oid_with_first_bytes(&[0xab, 0x11]);
    let idx = parse_pack_index(&build_pack_index(&[below])).unwrap();
    let siblings: Vec<String> = vec![];
    let packs = vec![idx];
    // shared digits: a, b, 1 -> contribution 4; floor also 4
    assert_eq!(abbreviate(id, &siblings, &packs), 4);
    let closer = oid_with_first_bytes(&[0xab, 0x12, 0x30]);
    let idx2 = parse_pack_index(&build_pack_index(&[closer])).unwrap();
    let packs2 = vec![idx2];
    // shared digits: a, b, 1, 2, 3 -> length 6
    assert_eq!(abbreviate(id, &siblings, &packs2), 6);
}

#[test]
fn abbreviate_monotone_as_objects_are_added() {
    let id = "ab12340000000000000000000000000000000000";
    let siblings0: Vec<String> = vec![];
    let siblings1 = vec!["12300000000000000000000000000000000000".to_string()];
    let packs: Vec<PackIndex> = vec![];
    let l0 = abbreviate(id, &siblings0, &packs);
    let l1 = abbreviate(id, &siblings1, &packs);
    assert!(l0 <= l1);
    assert!(l0 >= 4);
    let neighbour = oid_with_first_bytes(&[0xab, 0x12, 0x30]);
    let idx = parse_pack_index(&build_pack_index(&[neighbour])).unwrap();
    let packs1 = vec![idx];
    let l2 = abbreviate(id, &siblings1, &packs1);
    assert!(l1 <= l2);
}

#[test]
fn head_round_trip_branch() {
    assert_eq!(
        head_from_content("ref: refs/heads/feature\n"),
        Head::Branch("feature".to_string())
    );
}

#[test]
fn head_round_trip_commit() {
    let id = "0123456789abcdef0123456789abcdef01234567";
    assert_eq!(head_from_content(id), Head::Commit(id.to_string()));
    let with_newline = "0123456789abcdef0123456789abcdef01234567\n";
    assert_eq!(head_from_content(with_newline), Head::Commit(id.to_string()));
}

#[test]
fn head_degrades_to_unknown() {
    assert_eq!(head_from_content("ref: refs/tags/v1\n"), Head::Unknown);
    assert_eq!(head_from_content("not an id"), Head::Unknown);
    assert_eq!(head_from_content(""), Head::Unknown);
}

#[test]
fn ref_by_name_parses_branches_only() {
    assert_eq!(
        parse_ref_by_name("refs/heads/main\n"),
        Head::Branch("main".to_string())
    );
    assert_eq!(parse_ref_by_name("refs/remotes/origin/main"), Head::Unknown);
}

#[test]
fn gitdir_indirection() {
    assert_eq!(
        parse_gitdir("gitdir: ../.git/worktrees/x\r\n"),
        Some("../.git/worktrees/x".to_string())
    );
    assert_eq!(parse_gitdir("somewhere"), None);
}

#[test]
fn state_precedence_rebase_beats_merge() {
    let m = RepoMarkers {
        bisect_log: false,
        revert_head: false,
        cherry_pick_head: false,
        rebase_merge: true,
        rebase_interactive: true,
        rebase_todo: "# comment\npick a\npick b\n".to_string(),
        rebase_done: "x\ny\ny\n".to_string(),
        merge_head: true,
    };
    let st = State::from_markers(&m).unwrap();
    assert_eq!(
        st,
        State::Rebasing {
            interactive: true,
            done: 3,
            todo: 2
        }
    );
}

#[test]
fn state_precedence_order() {
    let all = RepoMarkers {
        bisect_log: true,
        revert_head: true,
        cherry_pick_head: true,
        rebase_merge: true,
        rebase_interactive: false,
        rebase_todo: String::new(),
        rebase_done: String::new(),
        merge_head: true,
    };
    assert_eq!(State::from_markers(&all), Some(State::Bisecting));
    let none = RepoMarkers {
        bisect_log: false,
        revert_head: false,
        cherry_pick_head: false,
        rebase_merge: false,
        rebase_interactive: false,
        rebase_todo: String::new(),
        rebase_done: String::new(),
        merge_head: false,
    };
    assert_eq!(State::from_markers(&none), None);
    let merge_only = RepoMarkers { merge_head: true, ..none };
    assert_eq!(State::from_markers(&merge_only), Some(State::Merging));
}

#[test]
fn line_counts() {
    assert_eq!(count_lines(""), 0);
    assert_eq!(count_lines("a\n"), 1);
    assert_eq!(count_lines("a\nb"), 2);
    assert_eq!(count_lines("\n"), 1);
    assert_eq!(count_noncomment_lines("# a\npick b\n\npick c"), 3);
    assert_eq!(count_noncomment_lines("# a\n# b\n"), 0);
}

#[test]
fn remote_branch_exact_section() {
    let config = "[core]\n\tbare = false\n[branch \"main\"]\n\tremote = origin\n\tmerge = refs/heads/main\n[branch \"dev\"]\n\tmerge = refs/heads/devel\n";
    assert_eq!(remote_branch(config, "main"), Some("main".to_string()));
    assert_eq!(remote_branch(config, "dev"), Some("devel".to_string()));
    assert_eq!(remote_branch(config, "other"), None);
}

#[test]
fn remote_branch_stops_at_section_end() {
    // the merge key sits outside the tab-indented block of the named section
    let config = "[branch \"main\"]\n\tremote = origin\n[branch \"dev\"]\n\tmerge = refs/heads/devel\n";
    assert_eq!(remote_branch(config, "main"), None);
}

#[test]
fn status_stream_counts() {
    let out = b"# branch.ab +2 -1\nM. file1\n.M file2\n?? file3\n";
    let g = parse_status_stream(out).unwrap();
    assert_eq!(g.ahead, 2);
    assert_eq!(g.behind, 1);
    assert_eq!(g.staged, 1);
    assert_eq!(g.dirty, 1);
    assert_eq!(g.untracked, 1);
    assert_eq!(g.unmerged, 0);
}

#[test]
fn status_stream_both_staged_and_dirty() {
    let out = b"MM conflicted\nu UU file\n? x\n";
    let g = parse_status_stream(out).unwrap();
    assert_eq!(g.staged, 1);
    assert_eq!(g.dirty, 1);
    assert_eq!(g.unmerged, 1);
    assert_eq!(g.untracked, 1);
    assert_eq!(g.ahead, 0);
    assert_eq!(g.behind, 0);
}

#[test]
fn status_stream_malformed_header_fails() {
    assert!(parse_status_stream(b"# branch.ab +2\n").is_none());
    assert!(parse_status_stream(b"# branch.ab +a -1\n").is_none());
    assert!(parse_status_stream(b"# branch.ab +2 -1 -3\n").is_none());
}

#[test]
fn status_stream_skips_malformed_lines() {
    let out = b"# branch.oid deadbeef\nnonsense\nM.\n\n?? tracked file\n";
    let g = parse_status_stream(out).unwrap();
    // only the ?? line carries a second word and a known code
    assert_eq!(g.untracked, 1);
    assert_eq!(g.staged, 0);
    assert_eq!(g.dirty, 0);
}

#[test]
fn extended_pretty_renders_nonzero_segments() {
    let p = test_prompt();
    let g = GitStatusExtended {
        behind: 1,
        ahead: 2,
        unmerged: 0,
        staged: 3,
        dirty: 0,
        untracked: 12,
    };
    assert_eq!(g.pretty(&p), " v1 ^2 +3 ?12");
}

#[test]
fn state_pretty_rebasing() {
    let p = test_prompt();
    let st = State::Rebasing {
        interactive: true,
        done: 2,
        todo: 10,
    };
    assert_eq!(st.pretty(&p), "rebase 2/10");
    let auto = State::Rebasing {
        interactive: false,
        done: 0,
        todo: 0,
    };
    assert_eq!(auto.pretty(&p), "autorebase 0/0");
    assert_eq!(State::Merging.pretty(&p), "merge");
}

#[test]
fn git_status_pretty_full_line() {
    let p = test_prompt();
    let g = GitStatus {
        tree: "/w".to_string(),
        root: "/w/.git".to_string(),
        head: Head::Branch("main".to_string()),
        remote_branch: Some("upstream".to_string()),
        stashes: 3,
        state: Some(State::Merging),
        abbrev: 4,
    };
    assert_eq!(g.pretty(&p), "merge|on main:upstream *3");
    let same_remote = GitStatus {
        remote_branch: Some("main".to_string()),
        stashes: 0,
        state: None,
        ..g
    };
    assert_eq!(same_remote.pretty(&p), "on main");
}

#[test]
fn git_status_pretty_detached() {
    let p = test_prompt();
    let g = GitStatus {
        tree: "/w".to_string(),
        root: "/w/.git".to_string(),
        head: Head::Commit("0123456789abcdef0123456789abcdef01234567".to_string()),
        remote_branch: None,
        stashes: 0,
        state: None,
        abbrev: 7,
    };
    assert_eq!(g.pretty(&p), "at 0123456");
}

#[test]
fn readline_width_counts_columns() {
    assert_eq!(readline_width("abc"), 3);
    // double-width characters count two columns, unlike bytes or chars
    assert_eq!(readline_width("\u{4f60}\u{597d}"), 4);
}

#[test]
fn readline_width_checked_detects_underflow() {
    // a closing marker with no opening one subtracts more than the width
    assert_eq!(readline_width_checked("ab\u{2}\u{2}"), None);
    assert_eq!(readline_width_checked("abc"), Some(3));
}
