//! Decimal rendering of counters for the status line.

use vstd::prelude::*;

verus! {

pub open spec fn digit_char(d: int) -> char {
    if d == 0 {
        '0'
    } else if d == 1 {
        '1'
    } else if d == 2 {
        '2'
    } else if d == 3 {
        '3'
    } else if d == 4 {
        '4'
    } else if d == 5 {
        '5'
    } else if d == 6 {
        '6'
    } else if d == 7 {
        '7'
    } else if d == 8 {
        '8'
    } else {
        '9'
    }
}

/// The usual decimal rendering, most significant digit first and without
/// leading zeros (zero itself reads `0`).
pub open spec fn dec_str(v: nat) -> Seq<char>
    decreases v,
{
    if v < 10 {
        seq![digit_char(v as int)]
    } else {
        dec_str(v / 10).push(digit_char((v % 10) as int))
    }
}

/// The digit characters of the byte digits in `ds`, last byte first.
pub open spec fn rev_digit_chars(ds: Seq<u8>) -> Seq<char> {
    Seq::new(ds.len(), |i: int| digit_char(ds[ds.len() - 1 - i] as int))
}

fn digit_str(d: u8) -> (r: &'static str)
    requires
        d < 10,
    ensures
        r@ == seq![digit_char(d as int)],
{
    proof {
        reveal_strlit("0");
        reveal_strlit("1");
        reveal_strlit("2");
        reveal_strlit("3");
        reveal_strlit("4");
        reveal_strlit("5");
        reveal_strlit("6");
        reveal_strlit("7");
        reveal_strlit("8");
        reveal_strlit("9");
    }
    let r = match d {
        0 => "0",
        1 => "1",
        2 => "2",
        3 => "3",
        4 => "4",
        5 => "5",
        6 => "6",
        7 => "7",
        8 => "8",
        _ => "9",
    };
    proof {
        assert(r@ =~= seq![digit_char(d as int)]);
    }
    r
}

/// Renders a counter in decimal.
pub fn format_usize(v: usize) -> (r: String)
    ensures
        r@ == dec_str(v as nat),
{
    let mut digits: Vec<u8> = Vec::new();
    let mut x = v;
    digits.push((x % 10) as u8);
    x = x / 10;
    proof {
        assert(rev_digit_chars(digits@) =~= seq![digit_char((v % 10) as int)]);
        if v >= 10 {
            assert(dec_str(v as nat) =~= dec_str(x as nat) + rev_digit_chars(digits@));
        } else {
            assert(dec_str(v as nat) =~= rev_digit_chars(digits@));
        }
    }
    while x > 0
        invariant
            digits@.len() >= 1,
            forall|j: int| 0 <= j < digits@.len() ==> #[trigger] digits@[j] < 10,
            dec_str(v as nat) == (if x > 0 {
                dec_str(x as nat)
            } else {
                Seq::<char>::empty()
            }) + rev_digit_chars(digits@),
        decreases x,
    {
        let d = (x % 10) as u8;
        digits.push(d);
        x = x / 10;
        proof {
            assert(rev_digit_chars(digits@) =~= seq![digit_char(d as int)] + rev_digit_chars(
                digits@.drop_last(),
            ));
            if x > 0 {
                assert(dec_str(v as nat) =~= dec_str(x as nat) + rev_digit_chars(digits@));
            } else {
                assert(dec_str(v as nat) =~= rev_digit_chars(digits@));
            }
        }
    }
    let mut s = String::new();
    let n = digits.len();
    let mut i: usize = n;
    proof {
        assert(s@ =~= rev_digit_chars(digits@).take(0));
    }
    while i > 0
        invariant
            n == digits@.len(),
            0 <= i <= n,
            forall|j: int| 0 <= j < digits@.len() ==> #[trigger] digits@[j] < 10,
            s@ == rev_digit_chars(digits@).take(n - i as int),
        decreases i,
    {
        i -= 1;
        s.append(digit_str(digits[i]));
        proof {
            assert(s@ =~= rev_digit_chars(digits@).take(n - i as int));
        }
    }
    proof {
        assert(rev_digit_chars(digits@).take(n as int) =~= rev_digit_chars(digits@));
        assert(s@ =~= dec_str(v as nat));
    }
    s
}

} // verus!
