//! Decimal digit strings: spec-level descriptions of decimal notation and the
//! verified routines that render numbers as text.
use vstd::prelude::*;
use vstd::string::StringExecFns;

verus! {

/// The character that stands for a single decimal digit.
pub open spec fn digit_char(d: nat) -> char {
    if d == 0 {
        '0'
    } else if d == 1 {
        '1'
    } else if d == 2 {
        '2'
    } else if d == 3 {
        '3'
    } else if d == 4 {
        '4'
    } else if d == 5 {
        '5'
    } else if d == 6 {
        '6'
    } else if d == 7 {
        '7'
    } else if d == 8 {
        '8'
    } else {
        '9'
    }
}

/// Decimal notation of `n`, most significant digit first, no leading zeros
/// (except for `n == 0`, which reads `"0"`).
pub open spec fn dec_str(n: nat) -> Seq<char>
    decreases n,
{
    if n < 10 {
        seq![digit_char(n)]
    } else {
        dec_str(n / 10).push(digit_char(n % 10))
    }
}

/// The low `k` decimal digits of `n`, zero padded to exactly `k` characters.
pub open spec fn padded_digits(n: nat, k: nat) -> Seq<char>
    decreases k,
{
    if k == 0 {
        Seq::empty()
    } else {
        padded_digits(n / 10, (k - 1) as nat).push(digit_char(n % 10))
    }
}

/// `s` with every trailing `'0'` removed.
pub open spec fn strip_trailing_zeros(s: Seq<char>) -> Seq<char>
    decreases s.len(),
{
    if s.len() > 0 && s.last() == '0' {
        strip_trailing_zeros(s.drop_last())
    } else {
        s
    }
}

/// `10^e`.
pub open spec fn pow10(e: nat) -> nat
    decreases e,
{
    if e == 0 {
        1
    } else {
        10 * pow10((e - 1) as nat)
    }
}

/// The number written by a big-endian sequence of decimal digits.
pub open spec fn digits_val(s: Seq<u8>) -> nat
    decreases s.len(),
{
    if s.len() == 0 {
        0
    } else {
        digits_val(s.drop_last()) * 10 + (s.last() as nat)
    }
}

/// Every entry of `s` is a single decimal digit.
pub open spec fn all_digits(s: Seq<u8>) -> bool {
    forall|i: int| 0 <= i < s.len() ==> s[i] < 10
}

/// The characters for a sequence of decimal digits.
pub open spec fn digit_chars(s: Seq<u8>) -> Seq<char> {
    s.map_values(|d: u8| digit_char(d as nat))
}

pub proof fn lemma_pow10_pos(e: nat)
    ensures
        pow10(e) >= 1,
    decreases e,
{
    if e > 0 {
        lemma_pow10_pos((e - 1) as nat);
    }
}

pub proof fn lemma_pow10_adds(a: nat, b: nat)
    ensures
        pow10(a + b) == pow10(a) * pow10(b),
    decreases a,
{
    if a == 0 {
        assert(pow10(0) * pow10(b) == pow10(b)) by (nonlinear_arith)
            requires
                pow10(0) == 1,
        ;
    } else {
        lemma_pow10_adds((a - 1) as nat, b);
        assert((a - 1) as nat + b == (a + b - 1) as nat);
        assert(pow10((a + b - 1) as nat) == pow10((a - 1) as nat) * pow10(b));
        assert(pow10(a + b) == 10 * pow10((a + b - 1) as nat));
        assert(pow10(a) == 10 * pow10((a - 1) as nat));
        assert(10 * (pow10((a - 1) as nat) * pow10(b)) == (10 * pow10((a - 1) as nat)) * pow10(
            b,
        )) by (nonlinear_arith);
        assert((10 * pow10((a - 1) as nat)) * pow10(b) == pow10(a) * pow10(b)) by (nonlinear_arith)
            requires
                pow10(a) == 10 * pow10((a - 1) as nat),
        ;
    }
}

/// `k` digits write a number below `10^k`.
pub proof fn lemma_digits_val_bound(s: Seq<u8>)
    requires
        all_digits(s),
    ensures
        digits_val(s) < pow10(s.len()),
    decreases s.len(),
{
    if s.len() == 0 {
    } else {
        let dl = s.drop_last();
        assert(all_digits(dl));
        lemma_digits_val_bound(dl);
        assert(digits_val(dl) * 10 <= (pow10(dl.len()) - 1) * 10) by (nonlinear_arith)
            requires
                digits_val(dl) <= pow10(dl.len()) - 1,
        ;
        assert(s.last() < 10);
    }
}

/// Rendering the number written by `k` digits back at width `k` returns those
/// digits' characters.
pub proof fn lemma_padded_of_digits(s: Seq<u8>)
    requires
        all_digits(s),
    ensures
        padded_digits(digits_val(s), s.len()) == digit_chars(s),
    decreases s.len(),
{
    if s.len() == 0 {
        assert(padded_digits(0, 0) =~= digit_chars(s));
    } else {
        let dl = s.drop_last();
        assert(all_digits(dl));
        lemma_padded_of_digits(dl);
        let n = digits_val(s);
        assert(s.last() < 10);
        vstd::arithmetic::div_mod::lemma_fundamental_div_mod_converse(
            n as int,
            10,
            digits_val(dl) as int,
            s.last() as int,
        );
        assert(padded_digits(n, s.len()) == padded_digits(digits_val(dl), dl.len()).push(
            digit_char(s.last() as nat),
        ));
        assert(digit_chars(s) =~= digit_chars(dl).push(digit_char(s.last() as nat)));
    }
}

/// Appending `j` zero digits to a fraction does not change it once trailing
/// zeros are stripped.
pub proof fn lemma_strip_shift(x: nat, k: nat, j: nat)
    ensures
        strip_trailing_zeros(padded_digits(x * pow10(j), k + j)) == strip_trailing_zeros(
            padded_digits(x, k),
        ),
    decreases j,
{
    if j == 0 {
        assert(x * pow10(0) == x) by (nonlinear_arith)
            requires
                pow10(0) == 1,
        ;
    } else {
        let y = x * pow10((j - 1) as nat);
        assert(x * pow10(j) == y * 10) by (nonlinear_arith)
            requires
                pow10(j) == 10 * pow10((j - 1) as nat),
                y == x * pow10((j - 1) as nat),
        ;
        vstd::arithmetic::div_mod::lemma_fundamental_div_mod_converse(
            (y * 10) as int,
            10,
            y as int,
            0,
        );
        let inner = padded_digits(y, (k + j - 1) as nat);
        assert(padded_digits(x * pow10(j), k + j) == inner.push(digit_char(0)));
        assert(inner.push('0').drop_last() =~= inner);
        assert(strip_trailing_zeros(inner.push('0')) == strip_trailing_zeros(inner));
        lemma_strip_shift(x, k, (j - 1) as nat);
    }
}

/// Changing the digit at position `j` moves the written number by the digit
/// difference times its place value.
pub proof fn lemma_digits_val_update(s: Seq<u8>, j: int, v: u8)
    requires
        0 <= j < s.len(),
    ensures
        digits_val(s.update(j, v)) as int == digits_val(s) as int + (v as int - s[j] as int)
            * (pow10((s.len() - 1 - j) as nat) as int),
    decreases s.len(),
{
    let su = s.update(j, v);
    let diff = v as int - s[j] as int;
    if j == s.len() - 1 {
        assert(su.drop_last() =~= s.drop_last());
        assert(su.last() == v);
        assert(pow10((s.len() - 1 - j) as nat) == 1);
        assert(diff * (pow10((s.len() - 1 - j) as nat) as int) == diff) by (nonlinear_arith)
            requires
                pow10((s.len() - 1 - j) as nat) == 1,
        ;
    } else {
        assert(su.drop_last() =~= s.drop_last().update(j, v));
        assert(su.last() == s.last());
        assert(s.drop_last()[j] == s[j]);
        lemma_digits_val_update(s.drop_last(), j, v);
        let p = pow10((s.len() - 2 - j) as nat) as int;
        let dl = digits_val(s.drop_last()) as int;
        assert(digits_val(su.drop_last()) as int == dl + diff * p);
        assert(digits_val(su) as int == (dl + diff * p) * 10 + su.last() as int);
        assert((dl + diff * p) * 10 == dl * 10 + diff * (10 * p)) by (nonlinear_arith);
        assert(pow10((s.len() - 1 - j) as nat) == 10 * pow10((s.len() - 2 - j) as nat));
        assert(digits_val(s) as int == dl * 10 + s.last() as int);
    }
}

/// The one-character string for a decimal digit.
pub fn digit_str(d: u64) -> (r: &'static str)
    requires
        d < 10,
    ensures
        r@ == seq![digit_char(d as nat)],
{
    proof {
        reveal_strlit("0");
        reveal_strlit("1");
        reveal_strlit("2");
        reveal_strlit("3");
        reveal_strlit("4");
        reveal_strlit("5");
        reveal_strlit("6");
        reveal_strlit("7");
        reveal_strlit("8");
        reveal_strlit("9");
    }
    match d {
        0 => "0",
        1 => "1",
        2 => "2",
        3 => "3",
        4 => "4",
        5 => "5",
        6 => "6",
        7 => "7",
        8 => "8",
        _ => "9",
    }
}

/// Renders `n` in decimal notation.
pub fn u64_to_string(n: u64) -> (s: String)
    ensures
        s@ == dec_str(n as nat),
    decreases n,
{
    if n < 10 {
        let s = digit_str(n).to_owned();
        assert(s@ =~= dec_str(n as nat));
        s
    } else {
        let mut s = u64_to_string(n / 10);
        s.append(digit_str(n % 10));
        assert(s@ =~= dec_str(n as nat));
        s
    }
}

} // verus!
