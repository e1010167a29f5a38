//! The hash abbreviation engine: the shortest hex prefix (at least four
//! digits) that names a commit unambiguously against every other object in
//! the repository's store.
//!
//! Two sources are consulted: the loose-object directory that shares the
//! commit's first two hex digits, and every decoded pack index.  The final
//! length is the most conservative one either source requires.

use vstd::prelude::*;

use crate::hex::{
    hex_lcp, lcp, lcp_chars, lemma_mismatch_props, mismatch_at, oid_bytes, parse_oid, valid_oid,
};
use crate::pack::{lemma_max_hex_other_props, max_hex_other, PackIndex};

verus! {

/// Greatest count of leading hex characters that any name in `siblings`
/// shares with `rest`, a name identical to `rest` counting as zero.
pub open spec fn max_lcp_chars(siblings: Seq<Seq<char>>, rest: Seq<char>) -> int
    decreases siblings.len(),
{
    if siblings.len() == 0 {
        0
    } else {
        let r = max_lcp_chars(siblings.drop_last(), rest);
        let v = lcp_chars(siblings.last(), rest);
        if v > r {
            v
        } else {
            r
        }
    }
}

pub proof fn lemma_max_lcp_chars_props(siblings: Seq<Seq<char>>, rest: Seq<char>)
    ensures
        max_lcp_chars(siblings, rest) >= 0,
        forall|i: int|
            0 <= i < siblings.len() ==> lcp_chars(#[trigger] siblings[i], rest) <= max_lcp_chars(
                siblings,
                rest,
            ),
        siblings.len() > 0 ==> exists|i: int|
            0 <= i < siblings.len() && lcp_chars(#[trigger] siblings[i], rest) == max_lcp_chars(
                siblings,
                rest,
            ),
    decreases siblings.len(),
{
    if siblings.len() == 0 {
        lemma_mismatch_props(rest, rest);
    } else {
        lemma_max_lcp_chars_props(siblings.drop_last(), rest);
        lemma_mismatch_props(siblings.last(), rest);
        assert forall|i: int| 0 <= i < siblings.len() implies lcp_chars(
            #[trigger] siblings[i],
            rest,
        ) <= max_lcp_chars(siblings, rest) by {
            if i < siblings.len() - 1 {
                assert(siblings.drop_last()[i] == siblings[i]);
            }
        }
        let m = max_lcp_chars(siblings, rest);
        if siblings.len() > 1 && m == max_lcp_chars(siblings.drop_last(), rest) {
            let i = choose|i: int|
                0 <= i < siblings.drop_last().len() && lcp_chars(
                    #[trigger] siblings.drop_last()[i],
                    rest,
                ) == m;
            assert(siblings[i] == siblings.drop_last()[i]);
            assert(lcp_chars(siblings[i], rest) == m);
        } else {
            assert(lcp_chars(siblings[siblings.len() - 1], rest) == m);
        }
    }
}

/// Growing the set of sibling names never shrinks the shared-prefix maximum.
pub proof fn lemma_max_lcp_chars_mono(sub: Seq<Seq<char>>, sup: Seq<Seq<char>>, rest: Seq<char>)
    requires
        forall|i: int| 0 <= i < sub.len() ==> sup.contains(#[trigger] sub[i]),
    ensures
        max_lcp_chars(sub, rest) <= max_lcp_chars(sup, rest),
{
    lemma_max_lcp_chars_props(sub, rest);
    lemma_max_lcp_chars_props(sup, rest);
    if sub.len() > 0 {
        let i = choose|i: int|
            0 <= i < sub.len() && lcp_chars(#[trigger] sub[i], rest) == max_lcp_chars(sub, rest);
        assert(sup.contains(sub[i]));
        let j = choose|j: int| 0 <= j < sup.len() && sup[j] == sub[i];
        assert(lcp_chars(sup[j], rest) <= max_lcp_chars(sup, rest));
    }
}

/// Hex digits the loose-object directory forces: the two directory digits
/// alone when the directory holds no sibling, else one digit past the
/// longest run shared with any sibling file name.
pub open spec fn loose_required(siblings: Seq<Seq<char>>, rest: Seq<char>) -> int {
    if siblings.len() == 0 {
        2
    } else {
        3 + max_lcp_chars(siblings, rest)
    }
}

/// Greatest count of leading hex digits that any id in any pack other than
/// `t` itself shares with `t`.
pub open spec fn max_packs(packs: Seq<Seq<Seq<u8>>>, t: Seq<u8>) -> int
    decreases packs.len(),
{
    if packs.len() == 0 {
        0
    } else {
        let r = max_packs(packs.drop_last(), t);
        let v = max_hex_other(packs.last(), t);
        if v > r {
            v
        } else {
            r
        }
    }
}

pub proof fn lemma_max_packs_props(packs: Seq<Seq<Seq<u8>>>, t: Seq<u8>)
    ensures
        max_packs(packs, t) >= 0,
        forall|p: int|
            0 <= p < packs.len() ==> max_hex_other(#[trigger] packs[p], t) <= max_packs(packs, t),
        max_packs(packs, t) > 0 ==> exists|p: int|
            0 <= p < packs.len() && max_hex_other(#[trigger] packs[p], t) == max_packs(packs, t),
    decreases packs.len(),
{
    if packs.len() == 0 {
    } else {
        lemma_max_packs_props(packs.drop_last(), t);
        lemma_max_hex_other_props(packs.last(), t);
        assert forall|p: int| 0 <= p < packs.len() implies max_hex_other(#[trigger] packs[p], t)
            <= max_packs(packs, t) by {
            if p < packs.len() - 1 {
                assert(packs.drop_last()[p] == packs[p]);
            }
        }
        let m = max_packs(packs, t);
        if m > 0 {
            if m == max_packs(packs.drop_last(), t) {
                let p = choose|p: int|
                    0 <= p < packs.drop_last().len() && max_hex_other(
                        #[trigger] packs.drop_last()[p],
                        t,
                    ) == m;
                assert(packs[p] == packs.drop_last()[p]);
                assert(max_hex_other(packs[p], t) == m);
            } else {
                assert(max_hex_other(packs[packs.len() - 1], t) == m);
            }
        }
    }
}

/// The shortest unambiguous abbreviation: never below four digits, and past
/// whatever either object source shares with the target.
pub open spec fn abbrev_spec(
    siblings: Seq<Seq<char>>,
    rest: Seq<char>,
    packs: Seq<Seq<Seq<u8>>>,
    t: Seq<u8>,
) -> int {
    let l = loose_required(siblings, rest);
    let p = 1 + max_packs(packs, t);
    let m = if l > p {
        l
    } else {
        p
    };
    if m > 4 {
        m
    } else {
        4
    }
}

/// Digits the loose-object directory that shares the target's first two hex
/// digits forces, from the file names listed there.  `rest` is the target id
/// without those two digits.
pub fn objects_dir_len(siblings: &Vec<String>, rest: &str) -> (r: usize)
    requires
        rest@.len() + 3 <= usize::MAX,
    ensures
        r == loose_required(siblings@.map_values(|s: String| s@), rest@),
{
    let ghost model = siblings@.map_values(|s: String| s@);
    if siblings.len() == 0 {
        proof {
            assert(model.len() == 0);
        }
        return 2;
    }
    let mut best: usize = 0;
    let mut i: usize = 0;
    while i < siblings.len()
        invariant
            rest@.len() + 3 <= usize::MAX,
            model == siblings@.map_values(|s: String| s@),
            model.len() == siblings@.len(),
            0 < siblings@.len(),
            0 <= i <= siblings@.len(),
            best == max_lcp_chars(model.take(i as int), rest@),
            best <= rest@.len(),
        decreases siblings@.len() - i,
    {
        let v = lcp(siblings[i].as_str(), rest);
        proof {
            lemma_mismatch_props(model[i as int], rest@);
            assert(model.take(i as int + 1).drop_last() =~= model.take(i as int));
            assert(model.take(i as int + 1).last() == model[i as int]);
        }
        if v > best {
            best = v;
        }
        i += 1;
    }
    proof {
        assert(model.take(model.len() as int) =~= model);
    }
    3 + best
}

/// Shortest unambiguous hex prefix length of the full forty-digit id `id`:
/// at least four digits, and strictly longer than any run of digits the id
/// shares with a loose sibling (`siblings`, the file names in `id`'s fanout
/// directory) or with a different packed id in any of `packs`.
pub fn abbreviate(id: &str, siblings: &Vec<String>, packs: &Vec<PackIndex>) -> (r: usize)
    requires
        valid_oid(id@),
    ensures
        r == abbrev_spec(
            siblings@.map_values(|s: String| s@),
            id@.skip(2),
            packs@.map_values(|p: PackIndex| p.entries()),
            oid_bytes(id@),
        ),
        4 <= r <= 40,
{
    let ghost smodel = siblings@.map_values(|s: String| s@);
    let ghost pmodel = packs@.map_values(|p: PackIndex| p.entries());
    let ghost t = oid_bytes(id@);
    let rest = id.substring_char(2, 40);
    proof {
        assert(rest@ =~= id@.skip(2));
    }
    let oid = match parse_oid(id) {
        Some(v) => v,
        None => {
            proof {
                assert(false);
            }
            Vec::new()
        },
    };
    let loose = objects_dir_len(siblings, rest);
    proof {
        // a sibling name shares at most 37 digits with the 38 remaining ones
        if smodel.len() > 0 {
            lemma_max_lcp_chars_props(smodel, rest@);
            let i = choose|i: int|
                0 <= i < smodel.len() && lcp_chars(#[trigger] smodel[i], rest@) == max_lcp_chars(
                    smodel,
                    rest@,
                );
            lemma_mismatch_props(smodel[i], rest@);
        }
        assert(loose <= 40);
    }
    let mut r: usize = if loose > 4 {
        loose
    } else {
        4
    };
    let mut k: usize = 0;
    while k < packs.len()
        invariant
            valid_oid(id@),
            t == oid_bytes(id@),
            oid@ == t,
            oid@.len() == 20,
            smodel == siblings@.map_values(|s: String| s@),
            pmodel == packs@.map_values(|p: PackIndex| p.entries()),
            pmodel.len() == packs@.len(),
            rest@ == id@.skip(2),
            0 <= k <= packs@.len(),
            loose == loose_required(smodel, rest@),
            4 <= r <= 40,
            r as int == abbrev_spec(smodel, rest@, pmodel.take(k as int), t),
        decreases packs@.len() - k,
    {
        let c = packs[k].bucket_lcp(&oid);
        proof {
            assert(pmodel.take(k as int + 1).drop_last() =~= pmodel.take(k as int));
            assert(pmodel.take(k as int + 1).last() == pmodel[k as int]);
            assert(pmodel[k as int] == packs@[k as int].entries());
            lemma_max_packs_props(pmodel.take(k as int), t);
        }
        let cand = 1 + c;
        if cand > r {
            r = cand;
        }
        k += 1;
    }
    proof {
        assert(pmodel.take(pmodel.len() as int) =~= pmodel);
    }
    r
}

/// The abbreviation length is unambiguous and minimal.
///
/// No other object in the store agrees with the target on the first `r` hex
/// digits: a loose sibling (a 38-character file name in the target's fanout
/// directory, so its full id carries two extra leading digits) agrees on
/// fewer than `r` digits, and so does every packed id other than the target
/// itself.  And `r` is the least such length not below the floor of four:
/// above the floor, some other object agrees on `r - 1` digits.
pub proof fn lemma_abbreviate_unambiguous(
    siblings: Seq<Seq<char>>,
    rest: Seq<char>,
    packs: Seq<Seq<Seq<u8>>>,
    t: Seq<u8>,
    r: int,
)
    requires
        rest.len() == 38,
        t.len() == 20,
        forall|i: int| 0 <= i < siblings.len() ==> (#[trigger] siblings[i]).len() == 38,
        r == abbrev_spec(siblings, rest, packs, t),
    ensures
        forall|i: int|
            0 <= i < siblings.len() && siblings[i] != rest ==> 2 + lcp_chars(
                #[trigger] siblings[i],
                rest,
            ) < r,
        forall|p: int, i: int|
            0 <= p < packs.len() && 0 <= i < packs[p].len() && packs[p][i] != t ==> hex_lcp(
                #[trigger] packs[p][i],
                t,
            ) < r,
        r > 4 ==> (exists|i: int|
            0 <= i < siblings.len() && siblings[i] != rest && 2 + lcp_chars(
                #[trigger] siblings[i],
                rest,
            ) == r - 1) || (exists|p: int, i: int|
            0 <= p < packs.len() && 0 <= i < packs[p].len() && packs[p][i] != t && hex_lcp(
                #[trigger] packs[p][i],
                t,
            ) == r - 1),
{
    lemma_max_lcp_chars_props(siblings, rest);
    lemma_max_packs_props(packs, t);
    assert forall|i: int| 0 <= i < siblings.len() && siblings[i] != rest implies 2 + lcp_chars(
        #[trigger] siblings[i],
        rest,
    ) < r by {
        lemma_mismatch_props(siblings[i], rest);
        // distinct names of equal length disagree strictly inside, so the
        // shared run is the true mismatch position, below 38
        if mismatch_at(siblings[i], rest) == 38 {
            assert(siblings[i] =~= rest);
        }
        assert(lcp_chars(siblings[i], rest) <= max_lcp_chars(siblings, rest));
        assert(r >= loose_required(siblings, rest));
    }
    assert forall|p: int, i: int|
        0 <= p < packs.len() && 0 <= i < packs[p].len() && packs[p][i] != t implies hex_lcp(
        #[trigger] packs[p][i],
        t,
    ) < r by {
        lemma_max_hex_other_props(packs[p], t);
        assert(hex_lcp(packs[p][i], t) <= max_hex_other(packs[p], t));
        assert(max_hex_other(packs[p], t) <= max_packs(packs, t));
        assert(r >= 1 + max_packs(packs, t));
    }
    if r > 4 {
        if r == loose_required(siblings, rest) {
            assert(siblings.len() > 0);
            let i = choose|i: int|
                0 <= i < siblings.len() && lcp_chars(#[trigger] siblings[i], rest)
                    == max_lcp_chars(siblings, rest);
            lemma_mismatch_props(siblings[i], rest);
            // the witness shares r - 3 > 0 digits, so it is a distinct name
            assert(lcp_chars(siblings[i], rest) == r - 3 > 0);
            assert(siblings[i] != rest);
            assert(2 + lcp_chars(siblings[i], rest) == r - 1);
        } else {
            assert(r == 1 + max_packs(packs, t));
            assert(max_packs(packs, t) == r - 1 > 0);
            let p = choose|p: int|
                0 <= p < packs.len() && max_hex_other(#[trigger] packs[p], t) == max_packs(
                    packs,
                    t,
                );
            lemma_max_hex_other_props(packs[p], t);
            let i = choose|i: int|
                0 <= i < packs[p].len() && packs[p][i] != t && hex_lcp(#[trigger] packs[p][i], t)
                    == max_hex_other(packs[p], t);
            assert(hex_lcp(packs[p][i], t) == r - 1);
        }
    }
}

/// Adding objects to the store never shortens the abbreviation: with every
/// loose sibling kept, every pack's ids kept pack by pack, and possibly new
/// packs appended, the required length can only grow.
pub proof fn lemma_abbreviate_monotone(
    siblings1: Seq<Seq<char>>,
    siblings2: Seq<Seq<char>>,
    rest: Seq<char>,
    packs1: Seq<Seq<Seq<u8>>>,
    packs2: Seq<Seq<Seq<u8>>>,
    t: Seq<u8>,
)
    requires
        forall|i: int| 0 <= i < siblings1.len() ==> siblings2.contains(#[trigger] siblings1[i]),
        packs1.len() <= packs2.len(),
        forall|p: int, i: int|
            0 <= p < packs1.len() && 0 <= i < packs1[p].len() ==> packs2[p].contains(
                #[trigger] packs1[p][i],
            ),
    ensures
        abbrev_spec(siblings1, rest, packs1, t) <= abbrev_spec(siblings2, rest, packs2, t),
{
    lemma_max_lcp_chars_mono(siblings1, siblings2, rest);
    lemma_max_lcp_chars_props(siblings2, rest);
    if siblings1.len() > 0 {
        assert(siblings2.contains(siblings1[0]));
        assert(siblings2.len() > 0);
    }
    lemma_max_packs_props(packs1, t);
    lemma_max_packs_props(packs2, t);
    if max_packs(packs1, t) > 0 {
        let p = choose|p: int|
            0 <= p < packs1.len() && max_hex_other(#[trigger] packs1[p], t) == max_packs(
                packs1,
                t,
            );
        crate::pack::lemma_max_hex_other_mono(packs1[p], packs2[p], t);
        assert(max_hex_other(packs2[p], t) <= max_packs(packs2, t));
    }
}

/// An empty store — no loose sibling and no pack — needs exactly the floor
/// of four digits, whatever the target id is.
pub proof fn lemma_abbreviate_empty_store(rest: Seq<char>, t: Seq<u8>)
    ensures
        abbrev_spec(Seq::<Seq<char>>::empty(), rest, Seq::<Seq<Seq<u8>>>::empty(), t) == 4,
{
}

} // verus!
