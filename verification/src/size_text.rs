//! Human-readable sizes, as the listing shows them.
use vstd::prelude::*;

verus! {

/// 2 to the power `n`.
pub open spec fn pow2(n: nat) -> nat
    decreases n,
{
    if n == 0 {
        1
    } else {
        2 * pow2((n - 1) as nat)
    }
}

/// 1024 to the power `n`.
pub open spec fn pow1024(n: nat) -> nat
    decreases n,
{
    if n == 0 {
        1
    } else {
        1024 * pow1024((n - 1) as nat)
    }
}

/// The number of binary digits of `b`.
pub open spec fn bit_len(b: nat) -> nat
    decreases b,
{
    if b == 0 {
        0
    } else {
        1 + bit_len(b / 2)
    }
}

/// `n / den`, rounded to the nearest integer, ties to the even one.
pub open spec fn div_round_even(n: nat, den: nat) -> nat
    recommends
        den > 0,
{
    let q = n / den;
    let r = n % den;
    if 2 * r > den || (2 * r == den && q % 2 == 1) {
        q + 1
    } else {
        q
    }
}

/// The value `b` takes as an `f64` (`b as f64`): kept to 53 significant
/// bits, rounding to nearest with ties to even.
pub open spec fn f64_value(b: nat) -> nat {
    if bit_len(b) <= 53 {
        b
    } else {
        let e = (bit_len(b) - 53) as nat;
        div_round_even(b, pow2(e)) * pow2(e)
    }
}

/// How many times the size is divided by 1024 before it is shown: while it
/// is at least 1024, up to terabytes.
pub open spec fn unit_index(v: nat, k: nat) -> nat
    decreases 4 - k,
{
    if k < 4 && v >= pow1024(k + 1) {
        unit_index(v, k + 1)
    } else {
        k
    }
}

/// The name of the `k`-th unit: B, KB, MB, GB, TB.
pub open spec fn unit_name(k: nat) -> Seq<char> {
    if k == 0 {
        seq!['B']
    } else if k == 1 {
        seq!['K', 'B']
    } else if k == 2 {
        seq!['M', 'B']
    } else if k == 3 {
        seq!['G', 'B']
    } else {
        seq!['T', 'B']
    }
}

/// The character of the decimal digit `d`.
pub open spec fn digit_char(d: nat) -> char {
    seq!['0', '1', '2', '3', '4', '5', '6', '7', '8', '9'][d as int]
}

/// The decimal digits of `n`.
pub open spec fn decimal(n: nat) -> Seq<char>
    decreases n,
{
    if n < 10 {
        seq![digit_char(n)]
    } else {
        decimal(n / 10) + seq![digit_char(n % 10)]
    }
}

/// The unit `bytes` is shown in, from 0 (B) to 4 (TB): the largest that
/// keeps the value of `bytes as f64` at least 1.
pub open spec fn shown_unit(bytes: u64) -> nat {
    unit_index(f64_value(bytes as nat), 0)
}

/// The amount shown: whole bytes in unit 0, otherwise tenths of the unit,
/// rounded to nearest with ties to even.
pub open spec fn shown_amount(bytes: u64) -> nat {
    let v = f64_value(bytes as nat);
    let k = shown_unit(bytes);
    if k == 0 {
        v
    } else {
        div_round_even(v * 10, pow1024(k))
    }
}

/// The number part of the text: the whole bytes, or the amount with one
/// decimal.
pub open spec fn size_number(bytes: u64) -> Seq<char> {
    let d = shown_amount(bytes);
    if shown_unit(bytes) == 0 {
        decimal(d)
    } else {
        decimal(d / 10) + seq!['.', digit_char(d % 10)]
    }
}

/// `bytes` as text: whole bytes below 1 KB, otherwise the value in the
/// largest unit up to TB that keeps it at least 1, with one decimal, rounded
/// to nearest with ties to even; the value is that of `bytes as f64`.
pub open spec fn size_text(bytes: u64) -> Seq<char> {
    size_number(bytes) + seq![' '] + unit_name(shown_unit(bytes))
}

/// Appends the decimal digit `d`.
fn push_digit(s: &mut String, d: u128)
    requires
        d < 10,
    ensures
        final(s)@ == old(s)@ + seq![digit_char(d as nat)],
{
    let digits = "0123456789";
    proof {
        reveal_strlit("0123456789");
    }
    let c = digits.substring_char(d as usize, (d + 1) as usize);
    s.append(c);
    proof {
        assert(c@ =~= seq![digit_char(d as nat)]);
    }
}

/// Appends `n` in decimal.
pub(crate) fn push_decimal(s: &mut String, n: u128)
    ensures
        final(s)@ == old(s)@ + decimal(n as nat),
    decreases n,
{
    if n >= 10 {
        push_decimal(s, n / 10);
    }
    let ghost mid = s@;
    push_digit(s, n % 10);
    proof {
        if n >= 10 {
            assert(s@ =~= old(s)@ + decimal(n as nat));
        } else {
            assert(s@ =~= old(s)@ + decimal(n as nat));
        }
    }
}

/// The name of the `k`-th unit.
fn unit_text(k: u128) -> (u: &'static str)
    requires
        k <= 4,
    ensures
        u@ == unit_name(k as nat),
{
    proof {
        reveal_strlit("B");
        reveal_strlit("KB");
        reveal_strlit("MB");
        reveal_strlit("GB");
        reveal_strlit("TB");
    }
    if k == 0 {
        "B"
    } else if k == 1 {
        "KB"
    } else if k == 2 {
        "MB"
    } else if k == 3 {
        "GB"
    } else {
        "TB"
    }
}

/// A number below `2^n` has at most `n` bits.
proof fn lemma_bit_len_bound(b: nat, n: nat)
    requires
        b < pow2(n),
    ensures
        bit_len(b) <= n,
    decreases n,
{
    if n > 0 && b > 0 {
        lemma_bit_len_bound(b / 2, (n - 1) as nat);
    }
}

/// `2^64` as a literal.
proof fn lemma_pow2_64()
    ensures
        pow2(64) == 0x1_0000_0000_0000_0000,
{
    reveal_with_fuel(pow2, 65);
}

/// `n / den`, rounded to the nearest integer, ties to even.
fn div_round_even_exec(n: u128, den: u128) -> (r: u128)
    requires
        0 < den <= 0x1_0000_0000_0000,
        n < 0x1_0000_0000_0000_0000_0000,
    ensures
        r == div_round_even(n as nat, den as nat),
{
    let q = n / den;
    let r = n % den;
    if 2 * r > den || (2 * r == den && q % 2 == 1) {
        q + 1
    } else {
        q
    }
}

/// The size `bytes` as the listing shows it, e.g. "512 B" or "1.5 KB".
pub fn format_size(bytes: u64) -> (text: String)
    ensures
        text@ == size_text(bytes),
{
    let b = bytes as u128;
    proof {
        lemma_pow2_64();
        lemma_bit_len_bound(b as nat, 64);
    }
    // The number of binary digits.
    let mut len: u128 = 0;
    let mut rest = b;
    while rest > 0
        invariant
            len + bit_len(rest as nat) == bit_len(b as nat),
            len <= 64,
            rest <= b,
            b < 0x1_0000_0000_0000_0000,
            bit_len(b as nat) <= 64,
        decreases rest,
    {
        rest = rest / 2;
        len = len + 1;
    }
    let v: u128 = if len <= 53 {
        b
    } else {
        let e = len - 53;
        let mut p: u128 = 1;
        let mut i: u128 = 0;
        while i < e
            invariant
                i <= e,
                e <= 11,
                p == pow2(i as nat),
                1 <= p <= 2048,
            decreases e - i,
        {
            p = p * 2;
            i = i + 1;
            proof {
                assert(pow2(i as nat) == 2 * pow2((i - 1) as nat));
                reveal_with_fuel(pow2, 12);
                assert(p <= 2048) by {
                    lemma_pow2_mono(i as nat, 11);
                }
            }
        }
        let q = div_round_even_exec(b, p);
        proof {
            assert(q <= b / p + 1);
            assert(q * p <= 0x1_0000_0000_0000_0000 + 2048) by (nonlinear_arith)
                requires
                    q <= b / p + 1,
                    b < 0x1_0000_0000_0000_0000,
                    p > 0,
                    p <= 2048,
            {
                assert((b / p) * p <= b);
            }
        }
        q * p
    };
    assert(v == f64_value(bytes as nat));
    assert(v <= 0x1_0000_0000_0000_0800);
    let mut k: u128 = 0;
    let mut scale: u128 = 1;
    while k < 4 && v >= scale * 1024
        invariant
            k <= 4,
            scale == pow1024(k as nat),
            1 <= scale <= 0x100_0000_0000,
            unit_index(v as nat, 0) == unit_index(v as nat, k as nat),
        decreases 4 - k,
    {
        proof {
            reveal_with_fuel(pow1024, 5);
        }
        scale = scale * 1024;
        k = k + 1;
    }
    let mut text = String::new();
    if k == 0 {
        push_decimal(&mut text, v);
        text.append(" ");
        text.append(unit_text(0));
        proof {
            reveal_strlit(" ");
        }
    } else {
        let d = div_round_even_exec(v * 10, scale);
        push_decimal(&mut text, d / 10);
        text.append(".");
        push_digit(&mut text, d % 10);
        text.append(" ");
        text.append(unit_text(k));
        proof {
            reveal_strlit(".");
            reveal_strlit(" ");
        }
    }
    proof {
        assert(text@ =~= size_text(bytes));
    }
    text
}

/// Powers of two grow with the exponent.
proof fn lemma_pow2_mono(a: nat, b: nat)
    requires
        a <= b,
    ensures
        pow2(a) <= pow2(b),
    decreases b,
{
    if a < b {
        lemma_pow2_mono(a, (b - 1) as nat);
    }
}

/// `2^(a + b) = 2^a * 2^b`.
proof fn lemma_pow2_add(a: nat, b: nat)
    ensures
        pow2(a + b) == pow2(a) * pow2(b),
    decreases a,
{
    if a > 0 {
        let a1 = (a - 1) as nat;
        lemma_pow2_add(a1, b);
        assert(a1 + b + 1 == a + b);
        assert(pow2(a + b) == 2 * pow2(a1 + b));
        assert(pow2(a) == 2 * pow2(a1));
        let (x, y, z, w) = (pow2(a + b), pow2(a1), pow2(b), pow2(a));
        assert(x == w * z) by (nonlinear_arith)
            requires
                x == 2 * (y * z),
                w == 2 * y,
        {
        }
    } else {
        let (x, z, w) = (pow2(a + b), pow2(b), pow2(a));
        assert(x == z && w == 1);
        assert(x == w * z) by (nonlinear_arith)
            requires
                x == z,
                w == 1,
        {
        }
    }
}

/// A positive number has `bit_len` bits: it lies in `[2^(bit_len - 1), 2^bit_len)`.
proof fn lemma_bit_len_range(b: nat)
    requires
        b > 0,
    ensures
        bit_len(b) >= 1,
        pow2((bit_len(b) - 1) as nat) <= b < pow2(bit_len(b)),
    decreases b,
{
    reveal_with_fuel(bit_len, 2);
    reveal_with_fuel(pow2, 2);
    if b >= 2 {
        lemma_bit_len_range(b / 2);
        assert(bit_len(b) == 1 + bit_len(b / 2));
        assert(pow2(bit_len(b)) == 2 * pow2(bit_len(b / 2)));
        assert(pow2((bit_len(b) - 1) as nat) == pow2(bit_len(b / 2)));
        assert(pow2(bit_len(b / 2)) == 2 * pow2((bit_len(b / 2) - 1) as nat));
    }
}

/// Rounding a quotient to nearest, ties to even, keeps the order of the
/// numerators.
proof fn lemma_div_round_even_mono(n1: nat, n2: nat, d: nat)
    requires
        n1 <= n2,
        d > 0,
    ensures
        div_round_even(n1, d) <= div_round_even(n2, d),
        n1 / d <= div_round_even(n1, d) <= n1 / d + 1,
{
    vstd::arithmetic::div_mod::lemma_div_is_ordered(n1 as int, n2 as int, d as int);
    vstd::arithmetic::div_mod::lemma_fundamental_div_mod(n1 as int, d as int);
    vstd::arithmetic::div_mod::lemma_fundamental_div_mod(n2 as int, d as int);
    vstd::arithmetic::div_mod::lemma_mod_pos_bound(n1 as int, d as int);
    vstd::arithmetic::div_mod::lemma_mod_pos_bound(n2 as int, d as int);
}

/// Numbers below `2^53` are their own `f64` value.
proof fn lemma_f64_exact(b: nat)
    requires
        b < pow2(53),
    ensures
        f64_value(b) == b,
{
    lemma_bit_len_bound(b, 53);
}

/// A number's `f64` value is at most `2^bit_len`.
proof fn lemma_f64_upper(a: nat)
    requires
        a > 0,
    ensures
        f64_value(a) <= pow2(bit_len(a)),
{
    lemma_bit_len_range(a);
    if bit_len(a) > 53 {
        let e = (bit_len(a) - 53) as nat;
        let p = pow2(e);
        lemma_pow2_add(53, e);
        assert(53 + e == bit_len(a));
        assert(p > 0) by {
            lemma_pow2_pos(e);
        }
        let q = a / p;
        vstd::arithmetic::div_mod::lemma_fundamental_div_mod(a as int, p as int);
        vstd::arithmetic::div_mod::lemma_mod_pos_bound(a as int, p as int);
        assert(q < pow2(53)) by (nonlinear_arith)
            requires
                p * q <= a,
                a < pow2(53) * p,
                p > 0,
        {
        }
        lemma_div_round_even_mono(a, a, p);
        let r = div_round_even(a, p);
        assert(r * p <= pow2(53) * p) by (nonlinear_arith)
            requires
                r <= pow2(53),
                p > 0,
        {
        }
    }
}

/// A number of more than 53 bits has an `f64` value of at least
/// `2^(bit_len - 1)`.
proof fn lemma_f64_lower(b: nat)
    requires
        bit_len(b) > 53,
    ensures
        f64_value(b) >= pow2((bit_len(b) - 1) as nat),
{
    lemma_bit_len_range(b);
    let e = (bit_len(b) - 53) as nat;
    let p = pow2(e);
    lemma_pow2_add(52, e);
    assert(52 + e == bit_len(b) - 1);
    assert(p > 0) by {
        lemma_pow2_pos(e);
    }
    vstd::arithmetic::div_mod::lemma_div_is_ordered((p * pow2(52)) as int, b as int, p as int);
    vstd::arithmetic::div_mod::lemma_div_multiples_vanish(pow2(52) as int, p as int);
    assert(pow2(52) * p == p * pow2(52)) by (nonlinear_arith);
    lemma_div_round_even_mono(b, b, p);
    let r = div_round_even(b, p);
    assert(r * p >= pow2(52) * p) by (nonlinear_arith)
        requires
            r >= pow2(52),
            p > 0,
    {
    }
}

/// Powers of two are positive.
proof fn lemma_pow2_pos(n: nat)
    ensures
        pow2(n) > 0,
    decreases n,
{
    if n > 0 {
        lemma_pow2_pos((n - 1) as nat);
    }
}

/// The `f64` value keeps the order of numbers.
proof fn lemma_f64_value_mono(a: nat, b: nat)
    requires
        a <= b,
    ensures
        f64_value(a) <= f64_value(b),
{
    if a == 0 {
        reveal_with_fuel(bit_len, 1);
        if bit_len(b) > 53 {
            lemma_f64_lower(b);
        }
        return;
    }
    lemma_bit_len_range(b);
    lemma_bit_len_bound(a, bit_len(b));
    let la = bit_len(a);
    let lb = bit_len(b);
    if lb <= 53 {
    } else if la == lb {
        let e = (lb - 53) as nat;
        let p = pow2(e);
        lemma_pow2_pos(e);
        lemma_div_round_even_mono(a, b, p);
        let ra = div_round_even(a, p);
        let rb = div_round_even(b, p);
        assert(ra * p <= rb * p) by (nonlinear_arith)
            requires
                ra <= rb,
                p > 0,
        {
        }
    } else {
        lemma_f64_upper(a);
        lemma_f64_lower(b);
        lemma_pow2_mono(la, (lb - 1) as nat);
    }
}

/// The unit chosen for a value keeps the order of values.
proof fn lemma_unit_index_mono(v1: nat, v2: nat, k: nat)
    requires
        v1 <= v2,
        k <= 4,
    ensures
        k <= unit_index(v1, k) <= unit_index(v2, k) <= 4,
    decreases 4 - k,
{
    if k < 4 {
        lemma_unit_index_mono(v1, v2, k + 1);
    }
}

/// 1024 to a power up to 4 is positive and at most `2^40`.
proof fn lemma_pow1024_small(k: nat)
    requires
        k <= 4,
    ensures
        1 <= pow1024(k) <= 0x100_0000_0000,
{
    reveal_with_fuel(pow1024, 5);
}

/// A larger size is never shown smaller: it is shown in a larger unit, or in
/// the same unit with an amount at least as large.
pub proof fn lemma_format_size_monotone(a: u64, b: u64)
    requires
        a <= b,
    ensures
        shown_unit(a) < shown_unit(b) || (shown_unit(a) == shown_unit(b) && shown_amount(a) <= shown_amount(b)),
{
    let va = f64_value(a as nat);
    let vb = f64_value(b as nat);
    lemma_f64_value_mono(a as nat, b as nat);
    lemma_unit_index_mono(va, vb, 0);
    let k = shown_unit(a);
    if k == shown_unit(b) && k > 0 {
        lemma_pow1024_small(k);
        lemma_div_round_even_mono(va * 10, vb * 10, pow1024(k));
    }
}

/// The unit of a size by its thresholds: B below `2^10`, KB below `2^20`,
/// MB below `2^30`, GB below `2^40`, TB from `2^40` on.
pub open spec fn unit_of(bytes: nat) -> nat {
    if bytes < 0x400 {
        0
    } else if bytes < 0x10_0000 {
        1
    } else if bytes < 0x4000_0000 {
        2
    } else if bytes < 0x100_0000_0000 {
        3
    } else {
        4
    }
}

/// Below `2^53`, comparing a size's `f64` value with a threshold is
/// comparing the size.
proof fn lemma_f64_threshold(b: nat, x: nat)
    requires
        x <= 0x100_0000_0000,
    ensures
        f64_value(b) >= x <==> b >= x,
{
    assert(pow2(53) == 0x20_0000_0000_0000) by {
        reveal_with_fuel(pow2, 54);
    }
    if b >= x {
        lemma_f64_exact(x);
        lemma_f64_value_mono(x, b);
    } else {
        lemma_f64_exact(b);
    }
}

/// A size is shown in B below `2^10` bytes, in KB below `2^20`, in MB below
/// `2^30`, in GB below `2^40`, and in TB from `2^40` on; the text ends with
/// a space and that unit's name.
pub proof fn lemma_format_size_units(bytes: u64)
    ensures
        shown_unit(bytes) == unit_of(bytes as nat),
        size_text(bytes) == size_number(bytes) + seq![' '] + unit_name(unit_of(bytes as nat)),
{
    let b = bytes as nat;
    let v = f64_value(b);
    reveal_with_fuel(pow1024, 5);
    lemma_f64_threshold(b, 0x400);
    lemma_f64_threshold(b, 0x10_0000);
    lemma_f64_threshold(b, 0x4000_0000);
    lemma_f64_threshold(b, 0x100_0000_0000);
    reveal_with_fuel(unit_index, 5);
}

} // verus!
