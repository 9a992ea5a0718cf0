//! Rendering of a byte count as a short human-readable string such as `"1.50 KB"`.
//!
//! Counts below one kilobyte are written exactly (`"512 B"`). Larger counts are
//! first taken to the nearest double-precision value (53 significant bits, ties
//! to even), then divided by the largest unit of 1024^i bytes that they reach
//! (up to exabytes), and the quotient is written with two decimals, rounded to
//! the nearest hundredth with ties to even.

use vstd::prelude::*;
use vstd::arithmetic::power2::*;
use crate::decimal::{decimal, digit_char, push_decimal, push_digit};

verus! {

/// `n / d` rounded to the nearest integer, ties going to the even neighbour.
pub open spec fn div_round_half_even(n: nat, d: nat) -> nat
    recommends
        d > 0,
{
    let q = n / d;
    let r = n % d;
    if 2 * r > d || (2 * r == d && q % 2 == 1) {
        q + 1
    } else {
        q
    }
}

/// How many low bits of `n` fall outside 53 significant bits: the number of
/// halvings after which `n` is below 2^53.
pub open spec fn dropped_bits(n: nat) -> nat
    decreases n,
{
    if n < pow2(53) {
        0
    } else {
        proof {
            lemma_pow2_pos(53);
        }
        1 + dropped_bits(n / 2)
    }
}

/// The double-precision value nearest to `n` (ties to even), as an integer.
pub open spec fn nearest_f64(n: nat) -> nat {
    let k = dropped_bits(n);
    div_round_half_even(n, pow2(k)) * pow2(k)
}

/// The number of bytes in the unit of index `i`: 1024^i.
pub open spec fn unit_size(i: nat) -> nat {
    pow2(10 * i)
}

/// The names of the units, by index.
pub open spec fn unit_name(i: nat) -> Seq<char> {
    seq![
        seq!['B'],
        seq!['K', 'B'],
        seq!['M', 'B'],
        seq!['G', 'B'],
        seq!['T', 'B'],
        seq!['P', 'B'],
        seq!['E', 'B'],
    ][i as int]
}

/// The index of the unit used for the value `v`: the largest `i <= 6` with
/// `unit_size(i) <= v` (0 when there is none).
pub open spec fn unit_index(v: nat) -> nat {
    if v >= unit_size(6) {
        6
    } else if v >= unit_size(5) {
        5
    } else if v >= unit_size(4) {
        4
    } else if v >= unit_size(3) {
        3
    } else if v >= unit_size(2) {
        2
    } else if v >= unit_size(1) {
        1
    } else {
        0
    }
}

/// `q` hundredths written with two decimals, such as `"12.05"` for 1205.
pub open spec fn two_decimals(q: nat) -> Seq<char> {
    decimal(q / 100) + seq!['.', digit_char((q / 10) % 10), digit_char(q % 10)]
}

/// The value of the count `bytes` in the unit it is shown in, in hundredths,
/// rounded to the nearest hundredth with ties to even.
pub open spec fn shown_hundredths(bytes: nat) -> nat {
    let v = nearest_f64(bytes);
    div_round_half_even(v * 100, unit_size(unit_index(v)))
}

/// The human-readable rendering of a byte count.
pub open spec fn human_readable(bytes: nat) -> Seq<char> {
    if bytes < 1024 {
        decimal(bytes) + seq![' ', 'B']
    } else {
        two_decimals(shown_hundredths(bytes)) + seq![' '] + unit_name(
            unit_index(nearest_f64(bytes)),
        )
    }
}

/// Rounding to the nearest integer misses `n / d` by at most one half.
pub proof fn lemma_round_half_even_close(n: nat, d: nat)
    requires
        d > 0,
    ensures
        2 * (div_round_half_even(n, d) * d - n) <= d,
        2 * (n - div_round_half_even(n, d) * d) <= d,
{
    let q = n / d;
    let r = n % d;
    vstd::arithmetic::div_mod::lemma_fundamental_div_mod(n as int, d as int);
    assert(0 <= r < d);
    assert((q + 1) * d == q * d + d) by (nonlinear_arith);
}

/// The double-precision value of a count misses it by at most half a step,
/// the step being `2^dropped_bits(n)` (one, below 2^53).
pub proof fn law_nearest_f64_within_half_step(n: nat)
    ensures
        2 * (nearest_f64(n) - n) <= pow2(dropped_bits(n)),
        2 * (n - nearest_f64(n)) <= pow2(dropped_bits(n)),
{
    lemma_pow2_pos(dropped_bits(n));
    lemma_round_half_even_close(n, pow2(dropped_bits(n)));
}

/// Counts below 2^53 are doubles already: rounding leaves them unchanged.
pub proof fn lemma_nearest_f64_exact(n: nat)
    requires
        n < pow2(53),
    ensures
        nearest_f64(n) == n,
{
    assert(dropped_bits(n) == 0);
    lemma2_to64();
    assert(n / 1 == n && n % 1 == 0) by (nonlinear_arith);
}

/// The unit that a count of at least 1024 bytes is shown in is the largest
/// of KB, ..., EB that its double-precision value reaches, and the number
/// shown is at least 1.00, and at most 1024.00 unless the unit is EB.
pub proof fn law_shown_number_in_unit_range(bytes: u64)
    requires
        bytes >= 1024,
    ensures
        ({
            let v = nearest_f64(bytes as nat);
            let i = unit_index(v);
            &&& 1 <= i <= 6
            &&& unit_size(i) <= v
            &&& i < 6 ==> v < unit_size(i + 1)
            &&& 100 <= shown_hundredths(bytes as nat)
            &&& i < 6 ==> shown_hundredths(bytes as nat) <= 102400
            &&& i == 6 ==> shown_hundredths(bytes as nat) <= 1600
        }),
{
    let v = nearest_f64(bytes as nat);
    let i = unit_index(v);
    lemma_nearest_f64_at_least_1024(bytes);
    lemma2_to64();
    lemma2_to64_rest();
    let u = unit_size(i);
    assert(u > 0);
    let x = v * 100;
    let q = x / u;
    vstd::arithmetic::div_mod::lemma_fundamental_div_mod(x as int, u as int);
    assert(q >= 100) by (nonlinear_arith)
        requires
            u * q + x % u == x,
            0 <= x % u < u,
            x == v * 100,
            v >= u,
            u > 0,
    ;
    if i < 6 {
        assert(unit_size(i + 1) == 1024 * u);
        assert(q <= 102399) by (nonlinear_arith)
            requires
                u * q + x % u == x,
                0 <= x % u < u,
                x == v * 100,
                v < 1024 * u,
                u > 0,
        ;
    } else {
        lemma_nearest_f64_at_most_2_64(bytes as nat);
        assert(x <= 1600 * u);
        lemma_div_round_at_most(x, u, 1600);
    }
}

/// Rounding `x / u` gives at most `m` when `x <= m * u`.
proof fn lemma_div_round_at_most(x: nat, u: nat, m: nat)
    requires
        u > 0,
        x <= m * u,
    ensures
        div_round_half_even(x, u) <= m,
{
    let q = x / u;
    let r = x % u;
    vstd::arithmetic::div_mod::lemma_fundamental_div_mod(x as int, u as int);
    assert(q <= m) by (nonlinear_arith)
        requires
            u * q + r == x,
            0 <= r < u,
            x <= m * u,
    ;
    if q == m {
        assert(r == 0) by (nonlinear_arith)
            requires
                u * q + r == x,
                0 <= r,
                x <= m * u,
                q == m,
        ;
    }
}

/// A count below 2^64 is at most 2^64 when taken to double precision.
proof fn lemma_nearest_f64_at_most_2_64(n: nat)
    requires
        n < pow2(64),
    ensures
        nearest_f64(n) <= pow2(64),
{
    let k = dropped_bits(n);
    let d = pow2(k);
    lemma_pow2_pos(k);
    if n == 0 {
        lemma_nearest_f64_exact(0);
        return;
    }
    lemma_dropped_bits_bound(n);
    if k >= 64 {
        if k > 64 {
            lemma_pow2_strictly_increases(64, k);
        }
        assert(false);
    }
    let big_m = pow2((64 - k) as nat);
    lemma_pow2_adds(k, (64 - k) as nat);
    assert(d * big_m == pow2(64));
    let q = n / d;
    let r = n % d;
    vstd::arithmetic::div_mod::lemma_fundamental_div_mod(n as int, d as int);
    assert(q + 1 <= big_m) by (nonlinear_arith)
        requires
            d * q + r == n,
            0 <= r,
            n < d * big_m,
            d > 0,
    ;
    assert(div_round_half_even(n, d) <= big_m);
    assert(div_round_half_even(n, d) * d <= big_m * d) by (nonlinear_arith)
        requires
            div_round_half_even(n, d) <= big_m,
            d > 0,
    ;
}

/// Scaling numerator and denominator by the same factor leaves the rounded
/// quotient unchanged.
proof fn lemma_div_round_scale(n: nat, d: nat, c: nat)
    requires
        d > 0,
        c > 0,
    ensures
        div_round_half_even(c * n, c * d) == div_round_half_even(n, d),
{
    let q = n / d;
    let r = n % d;
    vstd::arithmetic::div_mod::lemma_fundamental_div_mod(n as int, d as int);
    assert(c * n == q * (c * d) + c * r) by (nonlinear_arith)
        requires
            d * q + r == n,
    ;
    assert(0 <= c * r < c * d) by (nonlinear_arith)
        requires
            0 <= r < d,
            c > 0,
    ;
    assert(c * d > 0) by (nonlinear_arith)
        requires
            c > 0,
            d > 0,
    ;
    vstd::arithmetic::div_mod::lemma_fundamental_div_mod_converse(
        (c * n) as int,
        (c * d) as int,
        q as int,
        (c * r) as int,
    );
    assert(2 * (c * r) > c * d <==> 2 * r > d) by (nonlinear_arith)
        requires
            c > 0,
    ;
    assert(2 * (c * r) == c * d <==> 2 * r == d) by (nonlinear_arith)
        requires
            c > 0,
    ;
}

/// Doubling a count doubles its double-precision value.
proof fn lemma_nearest_f64_double(n: nat)
    ensures
        nearest_f64(2 * n) == 2 * nearest_f64(n),
{
    lemma2_to64();
    lemma2_to64_rest();
    let k = dropped_bits(n);
    lemma_pow2_pos(k);
    if n < pow2(52) {
        assert(dropped_bits(2 * n) == 0);
        assert(k == 0);
        assert(n / 1 == n && n % 1 == 0 && (2 * n) / 1 == 2 * n && (2 * n) % 1 == 0)
            by (nonlinear_arith);
    } else {
        assert(2 * n >= pow2(53));
        assert((2 * n) / 2 == n);
        assert(dropped_bits(2 * n) == k + 1);
        lemma_pow2_unfold(k + 1);
        lemma_div_round_scale(n, pow2(k), 2);
        assert(nearest_f64(2 * n) == div_round_half_even(n, pow2(k)) * (2 * pow2(k)));
        assert(div_round_half_even(n, pow2(k)) * (2 * pow2(k)) == 2 * (div_round_half_even(
            n,
            pow2(k),
        ) * pow2(k))) by (nonlinear_arith);
    }
}

/// Multiplying a count by `2^j` multiplies its double-precision value by `2^j`.
proof fn lemma_nearest_f64_scale(n: nat, j: nat)
    ensures
        nearest_f64(pow2(j) * n) == pow2(j) * nearest_f64(n),
    decreases j,
{
    if j == 0 {
        lemma2_to64();
        assert(pow2(0) * n == n);
        assert(pow2(0) * nearest_f64(n) == nearest_f64(n));
    } else {
        let j1 = (j - 1) as nat;
        lemma_nearest_f64_scale(n, j1);
        lemma_pow2_unfold(j);
        lemma_nearest_f64_double(pow2(j1) * n);
        assert(pow2(j) * n == 2 * (pow2(j1) * n)) by (nonlinear_arith)
            requires
                pow2(j) == 2 * pow2(j1),
        ;
        assert(pow2(j) * nearest_f64(n) == 2 * (pow2(j1) * nearest_f64(n))) by (nonlinear_arith)
            requires
                pow2(j) == 2 * pow2(j1),
        ;
    }
}

/// A count of at least 1024 bytes shows, multiplied by 1024, the same number
/// in the next unit: "1.50 KB" becomes "1.50 MB". The count times 1024 must
/// fit in a `u64`, so the unit of `bytes` is at most PB.
pub proof fn law_times_1024_moves_to_next_unit(bytes: u64)
    requires
        1024 <= bytes,
        bytes * 1024 <= u64::MAX,
    ensures
        ({
            let i = unit_index(nearest_f64(bytes as nat));
            let shown = two_decimals(shown_hundredths(bytes as nat));
            &&& 1 <= i <= 5
            &&& human_readable(bytes as nat) == shown + seq![' '] + unit_name(i)
            &&& human_readable(bytes as nat * 1024) == shown + seq![' '] + unit_name(i + 1)
        }),
{
    let b = bytes as nat;
    let v = nearest_f64(b);
    let i = unit_index(v);
    lemma2_to64();
    lemma2_to64_rest();
    lemma_nearest_f64_at_least_1024(bytes);
    law_nearest_f64_within_half_step(b);
    lemma_dropped_bits_bound(b);
    assert(v < pow2(60));
    lemma_nearest_f64_scale(b, 10);
    assert(nearest_f64(b * 1024) == 1024 * v);
    assert(unit_index(1024 * v) == i + 1);
    let u = unit_size(i);
    assert(unit_size(i + 1) == 1024 * u);
    assert((1024 * v) * 100 == 1024 * (v * 100));
    lemma_div_round_scale(v * 100, u, 1024);
    assert(shown_hundredths(b * 1024) == shown_hundredths(b));
}

/// A count of at least 1024 bytes stays at least 1024 when taken to double
/// precision.
proof fn lemma_nearest_f64_at_least_1024(bytes: u64)
    requires
        bytes >= 1024,
    ensures
        nearest_f64(bytes as nat) >= 1024,
{
    let n = bytes as nat;
    let k = dropped_bits(n);
    let d = pow2(k);
    lemma_pow2_pos(k);
    lemma_round_half_even_close(n, d);
    if k == 0 {
        lemma2_to64();
        assert(n / 1 == n && n % 1 == 0) by (nonlinear_arith);
    } else {
        // n >= 2^53 here, and the rounded value is within d / 2 <= n / 2 of n.
        lemma2_to64_rest();
        assert(n >= pow2(53));
        assert(d <= n) by {
            lemma_dropped_bits_bound(n);
        }
    }
}

/// Dropping `dropped_bits(n)` bits leaves a value of at least one when `n >= 1`,
/// so the step `2^dropped_bits(n)` is at most `n`.
proof fn lemma_dropped_bits_bound(n: nat)
    requires
        n >= 1,
    ensures
        pow2(dropped_bits(n)) <= n,
    decreases n,
{
    lemma2_to64();
    lemma2_to64_rest();
    if n >= pow2(53) {
        lemma_dropped_bits_bound(n / 2);
        lemma_pow2_unfold(dropped_bits(n));
    }
}

/// For counts of at least one kilobyte and below 2^53 (which doubles hold
/// exactly), the number shown is the count divided by the unit, rounded to
/// the nearest hundredth: it misses by at most half a hundredth.
pub proof fn law_shown_number_is_nearest_hundredth(bytes: u64)
    requires
        1024 <= bytes < pow2(53),
    ensures
        ({
            let u = unit_size(unit_index(bytes as nat));
            let q = shown_hundredths(bytes as nat);
            &&& 2 * (q * u - 100 * bytes) <= u
            &&& 2 * (100 * bytes - q * u) <= u
        }),
{
    lemma_nearest_f64_exact(bytes as nat);
    let u = unit_size(unit_index(bytes as nat));
    lemma_pow2_pos(10 * unit_index(bytes as nat));
    lemma_round_half_even_close(bytes as nat * 100, u);
}

/// Rounds `n` to 53 significant bits, ties to even.
fn round_to_f64(n: u64) -> (v: u128)
    ensures
        v == nearest_f64(n as nat),
        v < 0x2_0000_0000_0000_0000,
        n >= 1024 ==> v >= 1024,
{
    proof {
        lemma2_to64();
        lemma2_to64_rest();
    }
    let ghost mut k: nat = 0;
    let mut d: u128 = 1;
    let mut m: u128 = n as u128;
    while m >= 0x20_0000_0000_0000
        invariant
            d == pow2(k),
            0 < d <= 0x1_0000_0000_0000_0000,
            m == (n as nat) / (d as nat),
            dropped_bits(n as nat) == k + dropped_bits(m as nat),
            d == 1 || m >= 0x10_0000_0000_0000,
            pow2(53) == 0x20_0000_0000_0000,
            pow2(64) == 0x1_0000_0000_0000_0000,
        decreases m,
    {
        assert(d * m <= n) by (nonlinear_arith)
            requires
                m == (n as nat) / (d as nat),
                d > 0,
        {
            vstd::arithmetic::div_mod::lemma_fundamental_div_mod(n as int, d as int);
        }
        assert(d * 2 <= d * m) by (nonlinear_arith)
            requires
                m >= 2,
                d > 0,
        ;
        proof {
            vstd::arithmetic::div_mod::lemma_div_denominator(n as int, d as int, 2);
            lemma_pow2_unfold(k + 1);
        }
        m = m / 2;
        d = d * 2;
        proof {
            k = k + 1;
        }
    }
    let nn: u128 = n as u128;
    let r: u128 = nn % d;
    proof {
        vstd::arithmetic::div_mod::lemma_fundamental_div_mod(n as int, d as int);
    }
    let q: u128 = if 2 * r > d || (2 * r == d && m % 2 == 1) {
        m + 1
    } else {
        m
    };
    assert(d == 1 || q * d >= 0x20_0000_0000_0000) by (nonlinear_arith)
        requires
            q >= m,
            d == 1 || m >= 0x10_0000_0000_0000,
            d > 0,
    ;
    assert(d == 1 ==> q == n);
    assert(q * d <= n + d) by (nonlinear_arith)
        requires
            q <= m + 1,
            d * m + r == n,
            r >= 0,
    ;
    q * d
}

/// `n / d` rounded to the nearest integer, ties to even.
fn round_half_even(n: u128, d: u128) -> (q: u128)
    requires
        d > 0,
        n < u128::MAX,
    ensures
        q == div_round_half_even(n as nat, d as nat),
{
    let q: u128 = n / d;
    let r: u128 = n % d;
    proof {
        vstd::arithmetic::div_mod::lemma_fundamental_div_mod(n as int, d as int);
    }
    assert(q < u128::MAX) by (nonlinear_arith)
        requires
            d * q + r == n,
            d > 0,
            r >= 0,
            n < u128::MAX,
    ;
    if r > d - r || (r == d - r && q % 2 == 1) {
        q + 1
    } else {
        q
    }
}

/// Appends the name of the unit of index `i` to `out`.
fn push_unit_name(out: &mut String, i: usize)
    requires
        i <= 6,
    ensures
        final(out)@ == old(out)@ + unit_name(i as nat),
{
    proof {
        reveal_strlit("B");
        reveal_strlit("KB");
        reveal_strlit("MB");
        reveal_strlit("GB");
        reveal_strlit("TB");
        reveal_strlit("PB");
        reveal_strlit("EB");
    }
    let sizes: [&str; 7] = ["B", "KB", "MB", "GB", "TB", "PB", "EB"];
    let name: &str = sizes[i];
    assert(name@ =~= unit_name(i as nat));
    out.append(name);
}

/// Converts a byte count to a human-readable string.
///
/// Counts below 1024 are written exactly, followed by `" B"`. Larger counts are
/// written in the largest of KB, MB, GB, TB, PB and EB (powers of 1024) that
/// they reach, with two decimals.
pub fn bytes_to_human_readable(bytes: u64) -> (res: String)
    ensures
        res@ == human_readable(bytes as nat),
{
    let mut out = String::new();
    if bytes < 1024 {
        push_decimal(&mut out, bytes as u128);
        proof {
            reveal_strlit(" B");
        }
        out.append(" B");
        return out;
    }
    let count: u128 = round_to_f64(bytes);
    // Divide by 1024 while the count reaches the next unit, as far as exabytes.
    let mut unit: u128 = 1;
    let mut i: usize = 0;
    proof {
        lemma2_to64();
    }
    while count >= unit * 1024 && i < 6
        invariant
            0 <= i <= 6,
            unit == unit_size(i as nat),
            1 <= unit <= 0x1000_0000_0000_0000,
            count >= unit,
        decreases 6 - i,
    {
        proof {
            lemma2_to64();
            lemma2_to64_rest();
        }
        unit = unit * 1024;
        i = i + 1;
    }
    assert(i as nat == unit_index(count as nat)) by {
        lemma2_to64();
        lemma2_to64_rest();
    }
    let q: u128 = round_half_even(count * 100, unit);
    push_decimal(&mut out, q / 100);
    proof {
        reveal_strlit(".");
        reveal_strlit(" ");
    }
    out.append(".");
    push_digit(&mut out, (q / 10) % 10);
    push_digit(&mut out, q % 10);
    out.append(" ");
    push_unit_name(&mut out, i);
    assert(out@ =~= human_readable(bytes as nat));
    out
}

} // verus!
