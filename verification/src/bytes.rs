//! Human-readable byte sizes: a byte count becomes a value scaled by a power
//! of 1024, rounded half away from zero to a requested number of decimal
//! places, followed by the matching unit suffix.
use vstd::prelude::*;
use vstd::arithmetic::div_mod::{lemma_fundamental_div_mod, lemma_fundamental_div_mod_converse};
use vstd::string::StringExecFns;

use crate::digits::{
    all_digits, dec_str, digit_char, digit_chars, digit_str, digits_val, lemma_digits_val_bound,
    lemma_digits_val_update, lemma_padded_of_digits, lemma_pow10_adds, lemma_pow10_pos,
    lemma_strip_shift, padded_digits, pow10, strip_trailing_zeros, u64_to_string,
};

verus! {

/// `1024^e`.
pub open spec fn pow1024(e: nat) -> nat
    decreases e,
{
    if e == 0 {
        1
    } else {
        1024 * pow1024((e - 1) as nat)
    }
}

/// The power-of-1024 bucket of a positive byte count: the largest `i` with
/// `1024^i <= b`.
pub open spec fn magnitude_index(b: nat) -> nat
    decreases b,
{
    if b < 1024 {
        0
    } else {
        1 + magnitude_index(b / 1024)
    }
}

/// `b / 1024^i` scaled by `10^dm` and rounded half away from zero, as an
/// integer: `round(b * 10^dm / 1024^i)` where `i` is the magnitude index.
pub open spec fn scaled_value(b: nat, dm: nat) -> nat {
    let d = pow1024(magnitude_index(b));
    (2 * b * pow10(dm) + d) / (2 * d)
}

/// `scaled / 10^dm` written in decimal with up to `dm` fractional digits:
/// trailing zeros are dropped, and so is the point when nothing follows it.
pub open spec fn decimal_string(scaled: nat, dm: nat) -> Seq<char> {
    let ip = scaled / pow10(dm);
    let frac = strip_trailing_zeros(padded_digits(scaled % pow10(dm), dm));
    if frac.len() == 0 {
        dec_str(ip)
    } else {
        dec_str(ip) + seq!['.'] + frac
    }
}

/// The unit suffix for each power-of-1024 bucket, clamped to the last entry.
pub open spec fn unit_name(i: nat) -> Seq<char> {
    if i == 0 {
        "Bytes"@
    } else if i == 1 {
        "KB"@
    } else if i == 2 {
        "MB"@
    } else if i == 3 {
        "GB"@
    } else if i == 4 {
        "TB"@
    } else if i == 5 {
        "PB"@
    } else if i == 6 {
        "EB"@
    } else if i == 7 {
        "ZB"@
    } else {
        "YB"@
    }
}

/// The full display of a byte count at `dm` decimal places.
pub open spec fn format_bytes_spec(b: nat, dm: nat) -> Seq<char> {
    if b == 0 {
        "0 Bytes"@
    } else {
        decimal_string(scaled_value(b, dm), dm) + seq![' '] + unit_name(magnitude_index(b))
    }
}

/// A byte count of zero reads `"0 Bytes"` whatever number of decimal places
/// is asked for.
pub proof fn lemma_format_bytes_zero(dm: nat)
    ensures
        format_bytes_spec(0, dm) == "0 Bytes"@,
{
}

proof fn lemma_pow1024_values()
    ensures
        pow1024(0) == 1,
        pow1024(1) == 0x400,
        pow1024(2) == 0x100000,
        pow1024(3) == 0x40000000,
        pow1024(4) == 0x10000000000,
        pow1024(5) == 0x4000000000000,
        pow1024(6) == 0x1000000000000000,
{
    assert(pow1024(0) == 1);
    assert(pow1024(1) == 0x400);
    assert(pow1024(2) == 0x100000);
    assert(pow1024(3) == 0x40000000);
    assert(pow1024(4) == 0x10000000000);
    assert(pow1024(5) == 0x4000000000000);
    assert(pow1024(6) == 0x1000000000000000);
}

proof fn lemma_pow1024_bounds(e: nat)
    requires
        e <= 6,
    ensures
        pow1024(e) <= 0x1000000000000000,
        e <= 5 ==> pow1024(e) <= 0x4000000000000,
        pow1024(e) >= 1,
{
    lemma_pow1024_values();
    if e == 0 {
    } else if e == 1 {
    } else if e == 2 {
    } else if e == 3 {
    } else if e == 4 {
    } else if e == 5 {
    } else {
    }
}

/// With `v` whole steps of the divisor taken at `k` fractional digits and
/// `rem` left over, the exactly rounded scaled value is `v`, bumped by one
/// when the remainder rounds up, shifted to `dm` digits.
proof fn lemma_scaled_from_partial(b: nat, dm: nat, k: nat, v: nat, rem: nat)
    requires
        b >= 1,
        k <= dm,
        rem < pow1024(magnitude_index(b)),
        b * pow10(k) == v * pow1024(magnitude_index(b)) + rem,
        rem == 0 || k == dm,
    ensures
        scaled_value(b, dm) == if 2 * rem >= pow1024(magnitude_index(b)) {
            (v + 1) * pow10((dm - k) as nat)
        } else {
            v * pow10((dm - k) as nat)
        },
{
    let d = pow1024(magnitude_index(b));
    let j = (dm - k) as nat;
    let n = 2 * b * pow10(dm) + d;
    lemma_pow10_adds(k, j);
    assert(pow10(dm) == pow10(k) * pow10(j));
    assert(b * pow10(dm) == (v * pow10(j)) * d + rem * pow10(j)) by (nonlinear_arith)
        requires
            pow10(dm) == pow10(k) * pow10(j),
            b * pow10(k) == v * d + rem,
    ;
    if rem == 0 {
        assert(n == (v * pow10(j)) * (2 * d) + d) by (nonlinear_arith)
            requires
                n == 2 * b * pow10(dm) + d,
                b * pow10(dm) == (v * pow10(j)) * d + 0,
        ;
        lemma_fundamental_div_mod_converse(n as int, 2 * d as int, (v * pow10(j)) as int, d as int);
        assert(scaled_value(b, dm) == v * pow10(j));
        assert(!(2 * rem >= d));
    } else {
        assert(k == dm);
        assert(j == 0);
        lemma_pow10_pos(j);
        assert(pow10(0) == 1);
        assert(v * pow10(j) == v) by (nonlinear_arith)
            requires
                pow10(j) == 1,
        ;
        assert(rem * pow10(j) == rem) by (nonlinear_arith)
            requires
                pow10(j) == 1,
        ;
        assert(b * pow10(dm) == v * d + rem) by (nonlinear_arith)
            requires
                b * pow10(dm) == (v * pow10(j)) * d + rem * pow10(j),
                v * pow10(j) == v,
                rem * pow10(j) == rem,
        ;
        if 2 * rem >= d {
            assert(n == (v + 1) * (2 * d) + (2 * rem - d)) by (nonlinear_arith)
                requires
                    n == 2 * b * pow10(dm) + d,
                    b * pow10(dm) == v * d + rem,
            ;
            lemma_fundamental_div_mod_converse(
                n as int,
                2 * d as int,
                (v + 1) as int,
                2 * rem - d,
            );
            assert(scaled_value(b, dm) == v + 1);
        } else {
            assert(n == v * (2 * d) + (2 * rem + d)) by (nonlinear_arith)
                requires
                    n == 2 * b * pow10(dm) + d,
                    b * pow10(dm) == v * d + rem,
            ;
            lemma_fundamental_div_mod_converse(n as int, 2 * d as int, v as int, (2 * rem + d) as int);
            assert(scaled_value(b, dm) == v);
        }
    }
}

/// The decimal display of a value assembled from a whole part `q` and
/// fractional digits `digs`, shifted out to `dm` digits, is `q`, a point, and
/// the digits with trailing zeros dropped.
proof fn lemma_decimal_string_digits(q: nat, digs: Seq<u8>, dm: nat)
    requires
        all_digits(digs),
        digs.len() <= dm,
    ensures
        decimal_string((q * pow10(digs.len()) + digits_val(digs)) * pow10((dm - digs.len()) as nat), dm)
            == if strip_trailing_zeros(digit_chars(digs)).len() == 0 {
                dec_str(q)
            } else {
                dec_str(q) + seq!['.'] + strip_trailing_zeros(digit_chars(digs))
            },
{
    let k = digs.len();
    let j = (dm - k) as nat;
    let dval = digits_val(digs);
    let scaled = (q * pow10(k) + dval) * pow10(j);
    lemma_pow10_adds(k, j);
    lemma_pow10_pos(j);
    lemma_pow10_pos(k);
    assert(scaled == q * pow10(dm) + dval * pow10(j)) by (nonlinear_arith)
        requires
            pow10(dm) == pow10(k) * pow10(j),
            scaled == (q * pow10(k) + dval) * pow10(j),
    ;
    lemma_digits_val_bound(digs);
    assert(dval * pow10(j) < pow10(dm)) by (nonlinear_arith)
        requires
            dval < pow10(k),
            pow10(j) >= 1,
            pow10(dm) == pow10(k) * pow10(j),
    ;
    lemma_fundamental_div_mod_converse(
        scaled as int,
        pow10(dm) as int,
        q as int,
        (dval * pow10(j)) as int,
    );
    assert(scaled / pow10(dm) == q);
    assert(scaled % pow10(dm) == dval * pow10(j));
    lemma_strip_shift(dval, k, j);
    assert(k + j == dm);
    lemma_padded_of_digits(digs);
}

/// The suffix for a power-of-1024 bucket, from the fixed unit table.
pub fn unit_str(i: usize) -> (r: &'static str)
    ensures
        r@ == unit_name(i as nat),
{
    match i {
        0 => "Bytes",
        1 => "KB",
        2 => "MB",
        3 => "GB",
        4 => "TB",
        5 => "PB",
        6 => "EB",
        7 => "ZB",
        _ => "YB",
    }
}

/// Renders a byte count with `decimals` decimal places and a unit suffix.
pub fn format_bytes(bytes: u64, decimals: usize) -> (r: String)
    ensures
        r@ == format_bytes_spec(bytes as nat, decimals as nat),
{
    if bytes == 0 {
        return "0 Bytes".to_owned();
    }
    let ghost bn = bytes as nat;
    let ghost dm = decimals as nat;

    // Find the magnitude index and its power of 1024.
    let mut i: usize = 0;
    let mut d: u64 = 1;
    let mut m: u64 = bytes;
    while m >= 1024
        invariant
            bytes >= 1,
            i <= 6,
            1 <= d,
            d == pow1024(i as nat),
            m as nat == bytes as nat / d as nat,
            magnitude_index(bytes as nat) == i + magnitude_index(m as nat),
            d <= bytes,
        decreases m,
    {
        proof {
            lemma_fundamental_div_mod(bytes as int, d as int);
            assert(d as int * (m as int) >= d as int * 1024) by (nonlinear_arith)
                requires
                    m >= 1024,
                    d >= 1,
            ;
            assert(bytes as int >= 1024 * d);
            lemma_pow1024_bounds(i as nat);
            if i == 6 {
                lemma_pow1024_values();
                assert(false);
            }
            assert(pow1024((i + 1) as nat) == 1024 * pow1024(i as nat));
            vstd::arithmetic::div_mod::lemma_div_denominator(bytes as int, d as int, 1024);
            lemma_fundamental_div_mod(m as int, 1024);
            assert(1024 * (m as int / 1024) <= m as int);
            if m as int / 1024 >= m {
                assert(1024 * (m as int / 1024) >= 1024 * m) by (nonlinear_arith)
                    requires
                        m as int / 1024 >= m,
                ;
                assert(false);
            }
        }
        m = m / 1024;
        d = d * 1024;
        i = i + 1;
    }
    let ghost ii = i as nat;
    let ghost dn = d as nat;
    proof {
        assert(magnitude_index(m as nat) == 0);
        assert(magnitude_index(bn) == ii);
        lemma_pow1024_bounds(ii);
        lemma_fundamental_div_mod(bytes as int, d as int);
        assert(d as int * (m as int) <= 1023 * d) by (nonlinear_arith)
            requires
                m <= 1023,
                d >= 1,
                d as int * (m as int) == d as int * (bytes as int / d as int),
                m as int == bytes as int / d as int,
        ;
        assert(bytes < 1024 * d);
    }
    let q0: u64 = m;  // == bytes / d, at most 1023
    let mut rem: u64 = bytes % d;
    proof {
        assert(q0 as nat * pow10(0) + digits_val(Seq::<u8>::empty()) == q0 as nat) by {
            assert(pow10(0) == 1);
        };
        assert(bn * pow10(0) == q0 as nat * dn + rem as nat) by (nonlinear_arith)
            requires
                pow10(0) == 1,
                bytes as int == d as int * (bytes as int / d as int) + bytes as int % d as int,
                q0 as int == bytes as int / d as int,
                rem as int == bytes as int % d as int,
                bn == bytes as nat,
                dn == d as nat,
        ;
    }

    // Long division: one decimal digit of the fraction at a time.
    let mut digs: Vec<u8> = Vec::new();
    let mut k: usize = 0;
    while k < decimals && rem != 0
        invariant
            1 <= d <= 0x1000000000000000,
            dn == d as nat,
            rem < d,
            k <= decimals,
            digs.len() == k,
            all_digits(digs@),
            bn * pow10(k as nat) == (q0 as nat * pow10(k as nat) + digits_val(digs@)) * dn
                + rem as nat,
        decreases decimals - k,
    {
        let ghost digs_old = digs@;
        let ghost v_old = q0 as nat * pow10(k as nat) + digits_val(digs@);
        let ghost rem_old = rem as nat;
        let t = rem * 10;
        proof {
            lemma_fundamental_div_mod(t as int, d as int);
            assert(d as int * (t as int / d as int) <= t);
            if t / d >= 10 {
                assert(d as int * (t as int / d as int) >= d as int * 10) by (nonlinear_arith)
                    requires
                        t as int / d as int >= 10,
                        d >= 1,
                ;
                assert(false);
            }
        }
        let dig = (t / d) as u8;
        rem = t % d;
        digs.push(dig);
        k = k + 1;
        proof {
            let ds = digs@;
            assert(ds.drop_last() =~= digs_old);
            assert(digits_val(ds) == digits_val(ds.drop_last()) * 10 + (dig as nat));
            assert(all_digits(ds)) by {
                assert(forall|x: int|
                    0 <= x < ds.len() - 1 ==> ds[x] == #[trigger] ds.drop_last()[x]);
            };
            assert(pow10(k as nat) == 10 * pow10((k - 1) as nat));
            let v_new = q0 as nat * pow10(k as nat) + digits_val(ds);
            assert(v_new == v_old * 10 + dig as nat) by (nonlinear_arith)
                requires
                    v_new == q0 as nat * pow10(k as nat) + digits_val(ds),
                    digits_val(ds) == digits_val(ds.drop_last()) * 10 + (dig as nat),
                    v_old == q0 as nat * pow10((k - 1) as nat) + digits_val(ds.drop_last()),
                    pow10(k as nat) == 10 * pow10((k - 1) as nat),
            ;
            assert(pow10((k - 1) as nat) * 10 == pow10(k as nat));
            assert(bn * pow10(k as nat) == v_new * dn + rem as nat) by (nonlinear_arith)
                requires
                    bn * pow10((k - 1) as nat) == v_old * dn + rem_old,
                    v_new == v_old * 10 + dig as nat,
                    pow10(k as nat) == 10 * pow10((k - 1) as nat),
                    t == rem_old * 10,
                    t as int == dn * (dig as int) + rem as int,
                    (rem as nat) < dn,
            ;
        }
    }
    let ghost kn = k as nat;
    let ghost v_part = q0 as nat * pow10(kn) + digits_val(digs@);

    // Round half away from zero on what remains.
    let round_up = 2 * rem >= d;
    let ghost rv: nat = if round_up {
        v_part + 1
    } else {
        v_part
    };
    proof {
        lemma_scaled_from_partial(bn, dm, kn, v_part, rem as nat);
        assert(scaled_value(bn, dm) == rv * pow10((dm - kn) as nat));
    }
    let mut q: u64 = q0;
    if round_up {
        let mut j = digs.len();
        let mut carry = true;
        while carry && j > 0
            invariant
                j <= digs.len(),
                digs.len() == kn,
                all_digits(digs@),
                q == q0,
                q0 <= 1023,
                carry ==> v_part + 1 == q0 as nat * pow10(kn) + digits_val(digs@) + pow10(
                    (kn - j) as nat,
                ),
                !carry ==> v_part + 1 == q0 as nat * pow10(kn) + digits_val(digs@),
            decreases j,
        {
            j = j - 1;
            let ghost before = digs@;
            let place = digs[j];
            if place == 9 {
                digs.set(j, 0);
            } else {
                digs.set(j, place + 1);
                carry = false;
            }
            proof {
                let newv = digs@[j as int];
                lemma_digits_val_update(before, j as int, newv);
                assert(digs@ =~= before.update(j as int, newv));
                let p = pow10((kn - j - 1) as nat) as int;
                assert(digits_val(digs@) as int == digits_val(before) as int + (newv as int
                    - before[j as int] as int) * p);
                assert(pow10((kn - j) as nat) as int == 10 * p);
                if place == 9 {
                    assert((newv as int - before[j as int] as int) * p == -9 * p)
                        by (nonlinear_arith)
                        requires
                            newv == 0,
                            before[j as int] == 9,
                    ;
                    assert(digits_val(digs@) as int == digits_val(before) as int - 9 * p);
                    assert(v_part + 1 == q0 as nat * pow10(kn) + digits_val(digs@) + pow10(
                        (kn - j) as nat,
                    ));
                } else {
                    assert((newv as int - before[j as int] as int) * p == p) by (nonlinear_arith)
                        requires
                            newv as int == before[j as int] as int + 1,
                    ;
                    assert(digits_val(digs@) as int == digits_val(before) as int + p);
                    assert(v_part + 1 == q0 as nat * pow10(kn) + digits_val(digs@));
                }
            }
        }
        if carry {
            q = q0 + 1;
            proof {
                assert(pow10((kn - 0) as nat) == pow10(kn));
                assert((q0 as nat + 1) * pow10(kn) == q0 as nat * pow10(kn) + pow10(kn))
                    by (nonlinear_arith);
            }
        }
    }
    proof {
        assert(rv == q as nat * pow10(kn) + digits_val(digs@));
    }
    let ghost rdigs = digs@;

    // Drop trailing zero digits of the fraction.
    while digs.len() > 0 && digs[digs.len() - 1] == 0
        invariant
            all_digits(digs@),
            strip_trailing_zeros(digit_chars(digs@)) == strip_trailing_zeros(digit_chars(rdigs)),
        decreases digs.len(),
    {
        let ghost before = digs@;
        digs.pop();
        proof {
            assert(digs@ =~= before.drop_last());
            assert(digit_chars(before).last() == digit_char(before.last() as nat));
            assert(digit_char(0) == '0');
            assert(digit_chars(before).drop_last() =~= digit_chars(before.drop_last()));
            assert(strip_trailing_zeros(digit_chars(before)) == strip_trailing_zeros(
                digit_chars(digs@),
            ));
        }
    }
    proof {
        if digs.len() > 0 {
            let lastd = digs@.last() as nat;
            assert(1 <= lastd <= 9);
            assert(digit_char(lastd) != '0');
            assert(digit_chars(digs@).last() == digit_char(lastd));
            assert(strip_trailing_zeros(digit_chars(digs@)) == digit_chars(digs@));
        } else {
            assert(digit_chars(digs@) =~= Seq::<char>::empty());
            assert(strip_trailing_zeros(digit_chars(digs@)) == Seq::<char>::empty());
        }
    }

    // Assemble the display string.
    let mut out = u64_to_string(q);
    if digs.len() > 0 {
        out.append(".");
        proof {
            reveal_strlit(".");
            assert(out@ =~= dec_str(q as nat) + seq!['.'] + digit_chars(digs@.take(0)));
        }
        let mut x: usize = 0;
        while x < digs.len()
            invariant
                x <= digs.len(),
                all_digits(digs@),
                out@ == dec_str(q as nat) + seq!['.'] + digit_chars(digs@.take(x as int)),
            decreases digs.len() - x,
        {
            out.append(digit_str(digs[x] as u64));
            x = x + 1;
            proof {
                assert(digit_chars(digs@.take(x as int)) =~= digit_chars(
                    digs@.take(x as int - 1),
                ).push(digit_char(digs@[x as int - 1] as nat)));
                assert(out@ =~= dec_str(q as nat) + seq!['.'] + digit_chars(digs@.take(x as int)));
            }
        }
        proof {
            assert(digs@.take(digs@.len() as int) =~= digs@);
        }
    }
    out.append(" ");
    out.append(unit_str(i));
    proof {
        reveal_strlit(" ");
        lemma_decimal_string_digits(q as nat, rdigs, dm);
        assert(rdigs.len() == kn);
        assert(decimal_string(scaled_value(bn, dm), dm) == if strip_trailing_zeros(
            digit_chars(rdigs),
        ).len() == 0 {
            dec_str(q as nat)
        } else {
            dec_str(q as nat) + seq!['.'] + strip_trailing_zeros(digit_chars(rdigs))
        });
        assert(digit_chars(digs@).len() == digs@.len());
        assert(out@ =~= format_bytes_spec(bn, dm));
    }
    out
}

} // verus!
