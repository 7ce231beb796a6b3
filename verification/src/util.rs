//! Small helpers: interval intersection and clock formatting.

use vstd::prelude::*;
use vstd::string::StringExecFns;

verus! {

/// Intersection of two closed intervals, each given as `(low, high)`.
/// The result is empty (low > high) iff the intervals do not overlap.
pub fn range_intersection(r1: (usize, usize), r2: (usize, usize)) -> (r: (usize, usize))
    ensures
        r.0 == if r1.0 >= r2.0 {
            r1.0
        } else {
            r2.0
        },
        r.1 == if r1.1 <= r2.1 {
            r1.1
        } else {
            r2.1
        },
{
    let lo: usize = if r1.0 >= r2.0 {
        r1.0
    } else {
        r2.0
    };
    let hi: usize = if r1.1 <= r2.1 {
        r1.1
    } else {
        r2.1
    };
    (lo, hi)
}

/// Number of whole seconds held by a `Duration`: a pure function of the
/// duration value alone.
pub uninterp spec fn duration_secs(d: core::time::Duration) -> u64;

/// Relies on `Duration::as_secs`: it returns the number of whole seconds
/// contained in the duration, determined by the duration value alone.
pub assume_specification[ core::time::Duration::as_secs ](d: &core::time::Duration) -> (r: u64)
    ensures
        r == duration_secs(*d),
;

/// The character for one decimal digit.
pub open spec fn digit_char(d: int) -> char {
    if d == 0 {
        '0'
    } else if d == 1 {
        '1'
    } else if d == 2 {
        '2'
    } else if d == 3 {
        '3'
    } else if d == 4 {
        '4'
    } else if d == 5 {
        '5'
    } else if d == 6 {
        '6'
    } else if d == 7 {
        '7'
    } else if d == 8 {
        '8'
    } else {
        '9'
    }
}

/// The decimal digits of `n`, most significant first, with no leading
/// zeros (a single zero for `n == 0`).
pub open spec fn dec_digits(n: int) -> Seq<char>
    decreases n,
{
    if n < 10 {
        seq![digit_char(n)]
    } else {
        dec_digits(n / 10).push(digit_char(n % 10))
    }
}

/// Left-pad a digit string with zeros to at least two characters.
pub open spec fn pad2(s: Seq<char>) -> Seq<char> {
    if s.len() < 2 {
        seq!['0'] + s
    } else {
        s
    }
}

/// A duration of `total` whole seconds rendered as minutes and seconds,
/// each zero-padded to two digits and separated by a colon.
pub open spec fn mmss(total: int) -> Seq<char> {
    pad2(dec_digits(total / 60)) + seq![':'] + pad2(dec_digits(total % 60))
}

/// A decimal rendering has one digit per recursion step: at least one
/// character, and at least two from ten upward.
proof fn lemma_dec_digits_len(n: int)
    requires
        n >= 0,
    ensures
        dec_digits(n).len() >= 1,
        n >= 10 ==> dec_digits(n).len() >= 2,
        n < 10 ==> dec_digits(n).len() == 1,
    decreases n,
{
    if n >= 10 {
        lemma_dec_digits_len(n / 10);
    }
}

/// The one-character string for a decimal digit.
fn digit_str(d: u64) -> (s: &'static str)
    requires
        d < 10,
    ensures
        s@ == seq![digit_char(d as int)],
{
    let s: &'static str = match d {
        0 => "0",
        1 => "1",
        2 => "2",
        3 => "3",
        4 => "4",
        5 => "5",
        6 => "6",
        7 => "7",
        8 => "8",
        _ => "9",
    };
    proof {
        reveal_strlit("0");
        reveal_strlit("1");
        reveal_strlit("2");
        reveal_strlit("3");
        reveal_strlit("4");
        reveal_strlit("5");
        reveal_strlit("6");
        reveal_strlit("7");
        reveal_strlit("8");
        reveal_strlit("9");
        assert(s@ =~= seq![digit_char(d as int)]);
    }
    s
}

/// Append the decimal digits of `n` to `out`.
fn push_decimal(n: u64, out: &mut String)
    ensures
        final(out)@ == old(out)@ + dec_digits(n as int),
    decreases n,
{
    if n >= 10 {
        push_decimal(n / 10, out);
    }
    let ghost mid = out@;
    out.append(digit_str(n % 10));
    proof {
        if n < 10 {
            assert(out@ =~= old(out)@ + dec_digits(n as int));
        } else {
            assert(mid == old(out)@ + dec_digits(n as int / 10));
            assert(out@ =~= old(out)@ + dec_digits(n as int / 10).push(
                digit_char(n as int % 10),
            ));
        }
    }
}

/// Render a duration as zero-padded minutes and seconds, `mm:ss`.
pub fn format_duration(dur: core::time::Duration) -> (s: String)
    ensures
        s@ == mmss(duration_secs(dur) as int),
{
    let total: u64 = dur.as_secs();
    let min: u64 = total / 60;
    let sec: u64 = total % 60;
    let mut out = String::new();
    if min < 10 {
        out.append("0");
    }
    push_decimal(min, &mut out);
    out.append(":");
    if sec < 10 {
        out.append("0");
    }
    push_decimal(sec, &mut out);
    proof {
        reveal_strlit("0");
        reveal_strlit(":");
        lemma_dec_digits_len(min as int);
        lemma_dec_digits_len(sec as int);
        assert(out@ =~= mmss(duration_secs(dur) as int));
    }
    out
}

} // verus!
