//! Width of a prompt string as the line editor will count it: the terminal
//! column width of the text, adjusted for the invisible-span markers (bytes
//! 0x01 and 0x02) that bracket non-printing escape sequences.

use vstd::prelude::*;

use unicode_width::UnicodeWidthStr;
use vstd::string::StringSliceAdditionalSpecFns;

verus! {

/// Terminal column width of a string, as unicode-width's tables define it:
/// a pure function of the characters alone.
pub uninterp spec fn display_width_of(s: Seq<char>) -> nat;

/// Relies on unicode_width::UnicodeWidthStr::width for str: the column
/// width of the string, computed from its characters alone by table lookup;
/// an empty string has width zero.
#[verifier::external_body]
fn display_width(s: &str) -> (r: usize)
    ensures
        r as nat == display_width_of(s@),
        s@.len() == 0 ==> r == 0,
{
    s.width()
}

/// Running adjustment for the marker bytes among the first `upto` bytes:
/// a 0x01 marker at byte position `i` adds `i + 1` columns, a 0x02 marker
/// at position `i` subtracts `i`.  For a matched pair this subtracts the
/// byte length of the bracketed invisible span.
pub open spec fn marker_adjust(bytes: Seq<u8>, upto: int) -> int
    recommends
        upto <= bytes.len(),
    decreases upto,
{
    if upto <= 0 {
        0
    } else {
        marker_adjust(bytes, upto - 1) + (if bytes[upto - 1] == 1 {
            upto
        } else if bytes[upto - 1] == 2 {
            1 - upto
        } else {
            0
        })
    }
}

/// The width the line editor ascribes to `s`: its display width, adjusted
/// at every marker byte.  The precondition keeps every running value a
/// machine integer, exactly where the unadjusted arithmetic stays in range.
pub fn readline_width(s: &str) -> (r: usize)
    requires
        forall|k: int|
            0 <= k <= s.spec_bytes().len() ==> 0 <= display_width_of(s@) + #[trigger] marker_adjust(
                s.spec_bytes(),
                k,
            ) <= usize::MAX,
    ensures
        r == display_width_of(s@) + marker_adjust(s.spec_bytes(), s.spec_bytes().len() as int),
{
    let bytes = s.as_bytes();
    let n = bytes.len();
    let mut res: usize = display_width(s);
    let mut i: usize = 0;
    while i < n
        invariant
            bytes@ == s.spec_bytes(),
            n == bytes@.len(),
            0 <= i <= n,
            res == display_width_of(s@) + marker_adjust(bytes@, i as int),
            forall|k: int|
                0 <= k <= n ==> 0 <= display_width_of(s@) + #[trigger] marker_adjust(bytes@, k)
                    <= usize::MAX,
        decreases n - i,
    {
        let b = bytes[i];
        proof {
            assert(0 <= display_width_of(s@) + marker_adjust(bytes@, i as int + 1)
                <= usize::MAX);
            assert(marker_adjust(bytes@, i as int + 1) == marker_adjust(bytes@, i as int) + (
            if bytes@[i as int] == 1 {
                i as int + 1
            } else if bytes@[i as int] == 2 {
                -(i as int)
            } else {
                0int
            }));
        }
        if b == 1 {
            res = res + (i + 1);
        } else if b == 2 {
            res = res - i;
        }
        i += 1;
    }
    res
}

/// Like `readline_width`, but tests each running value instead of assuming
/// it stays in range: `None` exactly when some prefix of the scan would
/// leave the machine range.
pub fn readline_width_checked(s: &str) -> (r: Option<usize>)
    ensures
        match r {
            Some(v) => v == display_width_of(s@) + marker_adjust(
                s.spec_bytes(),
                s.spec_bytes().len() as int,
            ) && forall|k: int|
                0 <= k <= s.spec_bytes().len() ==> 0 <= display_width_of(s@)
                    + #[trigger] marker_adjust(s.spec_bytes(), k) <= usize::MAX,
            None => exists|k: int|
                0 <= k <= s.spec_bytes().len() && !(0 <= display_width_of(s@)
                    + #[trigger] marker_adjust(s.spec_bytes(), k) <= usize::MAX),
        },
{
    let bytes = s.as_bytes();
    let n = bytes.len();
    let mut res: usize = display_width(s);
    let mut i: usize = 0;
    while i < n
        invariant
            bytes@ == s.spec_bytes(),
            n == bytes@.len(),
            0 <= i <= n,
            res == display_width_of(s@) + marker_adjust(bytes@, i as int),
            forall|k: int|
                0 <= k <= i ==> 0 <= display_width_of(s@) + #[trigger] marker_adjust(bytes@, k)
                    <= usize::MAX,
        decreases n - i,
    {
        let b = bytes[i];
        if b == 1 {
            if res > usize::MAX - (i + 1) {
                proof {
                    assert(display_width_of(s@) + marker_adjust(bytes@, i as int + 1)
                        > usize::MAX);
                }
                return None;
            }
            res = res + (i + 1);
        } else if b == 2 {
            if res < i {
                proof {
                    assert(display_width_of(s@) + marker_adjust(bytes@, i as int + 1) < 0);
                }
                return None;
            }
            res = res - i;
        }
        i += 1;
    }
    Some(readline_width(s))
}

} // verus!
