//! Spans of time as hours, minutes and seconds.

use crate::decimal::{append_decimal, decimal};
use vstd::prelude::*;
use vstd::string::StringExecFns;

verus! {

/// The decimal numeral of `n` in two places at least: a zero stands before a
/// single digit.
pub open spec fn two_places(n: nat) -> Seq<char> {
    if n < 10 {
        seq!['0'] + decimal(n)
    } else {
        decimal(n)
    }
}

/// A span of `diff` seconds as a sign, hours, minutes and seconds, with
/// colons between them. The sign is `+` where `diff` is not negative.
pub open spec fn offset_text(diff: int) -> Seq<char> {
    let size = if diff < 0 {
        -diff
    } else {
        diff
    };
    (if diff < 0 {
        seq!['-']
    } else {
        seq!['+']
    }) + two_places((size / 3600) as nat) + seq![':'] + two_places(((size % 3600) / 60) as nat)
        + seq![':'] + two_places((size % 60) as nat)
}

/// Appends the decimal numeral of `n`, in two places at least, to `out`.
fn append_two_places(out: &mut String, n: u64)
    ensures
        final(out)@ == old(out)@ + two_places(n as nat),
{
    if n < 10 {
        proof {
            reveal_strlit("0");
        }
        out.append("0");
    }
    append_decimal(out, n);
    proof {
        if n < 10 {
            assert(old(out)@ + seq!['0'] + decimal(n as nat) =~= old(out)@ + (seq!['0'] + decimal(
                n as nat,
            )));
        }
    }
}

/// How far the Unix time `ts` lies from the Unix time `anchor`, as a sign,
/// hours, minutes and seconds.
pub fn relative_offset(ts: i64, anchor: i64) -> (text: String)
    ensures
        text@ == offset_text(ts - anchor),
{
    let size: u64 = if ts < anchor {
        (anchor as i128 - ts as i128) as u64
    } else {
        (ts as i128 - anchor as i128) as u64
    };
    let hours: u64 = size / 3600;
    let minutes: u64 = (size % 3600) / 60;
    let seconds: u64 = size % 60;
    let mut text = String::new();
    proof {
        reveal_strlit("-");
        reveal_strlit("+");
        reveal_strlit(":");
    }
    if ts < anchor {
        text.append("-");
    } else {
        text.append("+");
    }
    let ghost sign = text@;
    append_two_places(&mut text, hours);
    text.append(":");
    append_two_places(&mut text, minutes);
    text.append(":");
    append_two_places(&mut text, seconds);
    proof {
        assert(text@ =~= sign + two_places(hours as nat) + seq![':'] + two_places(minutes as nat)
            + seq![':'] + two_places(seconds as nat));
    }
    text
}

} // verus!
