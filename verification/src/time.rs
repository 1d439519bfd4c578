//! Duration display: a whole number of seconds rendered as `minutes:seconds`,
//! with the seconds always two digits.
use vstd::prelude::*;
use vstd::string::StringExecFns;

use crate::digits::{dec_str, digit_char, digit_str, padded_digits, u64_to_string};

verus! {

/// The `minutes:seconds` display of a duration of `t` seconds: minutes in
/// plain decimal, then `':'`, then the remaining seconds zero padded to two
/// digits.
pub open spec fn format_time_spec(t: nat) -> Seq<char> {
    dec_str(t / 60) + seq![':'] + padded_digits(t % 60, 2)
}

/// Renders a duration of `time` seconds as `minutes:seconds`.
pub fn format_time(time: u64) -> (r: String)
    ensures
        r@ == format_time_spec(time as nat),
{
    let minutes = time / 60;
    let seconds = time % 60;
    let mut s = u64_to_string(minutes);
    s.append(":");
    s.append(digit_str(seconds / 10));
    s.append(digit_str(seconds % 10));
    proof {
        reveal_strlit(":");
        let t = time as nat;
        assert(seconds < 60);
        let x = t % 60;
        assert(x == seconds as nat);
        assert(padded_digits(x, 2) == padded_digits(x / 10, 1).push(digit_char(x % 10)));
        assert(padded_digits(x / 10, 1) == padded_digits(x / 10 / 10, 0).push(
            digit_char(x / 10 % 10),
        ));
        assert(padded_digits(x / 10 / 10, 0) == Seq::<char>::empty());
        assert(x / 10 % 10 == x / 10) by {
            assert(x / 10 < 10);
        };
        assert(padded_digits(x, 2) =~= seq![
            digit_char((seconds / 10) as nat),
            digit_char((seconds % 10) as nat),
        ]);
        assert(s@ =~= format_time_spec(t));
    }
    s
}

} // verus!
