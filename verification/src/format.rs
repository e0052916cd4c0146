//! Human-readable byte sizes (`1.2 GiB`, `340 MiB`, ...), with the
//! decimal digits worked out in integers.
//!
//! The sizes are those of the dashboard: the byte count, read as a 64-bit
//! float, is divided by 1024 until it drops below 1024 (or reaches TiB),
//! then printed with no decimals in bytes and for whole numbers of a
//! larger unit, and with one decimal otherwise, rounding the exact
//! quotient to the nearest tenth and ties to even.

use vstd::prelude::*;

verus! {

/// 2 to the power `e`.
pub open spec fn pow_two(e: nat) -> nat
    decreases e,
{
    if e == 0 {
        1
    } else {
        2 * pow_two((e - 1) as nat)
    }
}

/// The first integer that a 64-bit float cannot hold exactly: 2^53.
pub open spec fn float_exact_limit() -> nat {
    9007199254740992
}

/// How many low bits of `b` a 64-bit float drops: the number of halvings
/// that bring `b` below 2^53.
pub open spec fn float_dropped_bits(b: nat) -> nat
    decreases b,
{
    if b < float_exact_limit() {
        0
    } else {
        1 + float_dropped_bits(b / 2)
    }
}

/// The value of `b as f64`: `b` rounded to 53 significant bits, to the
/// nearest and ties to even.
pub open spec fn float_of(b: nat) -> nat {
    let d = pow_two(float_dropped_bits(b));
    let q = b / d;
    let r = b % d;
    if r * 2 > d || (r * 2 == d && q % 2 == 1) {
        (q + 1) * d
    } else {
        q * d
    }
}

/// 1024 to the power `k`.
pub open spec fn pow_1024(k: nat) -> nat
    decreases k,
{
    if k == 0 {
        1
    } else {
        1024 * pow_1024((k - 1) as nat)
    }
}

/// The unit a value is shown in: the number of times it can be divided by
/// 1024 while it is at least 1024, at most 4 (TiB).
pub open spec fn unit_index(m: nat) -> nat {
    if m < pow_1024(1) {
        0
    } else if m < pow_1024(2) {
        1
    } else if m < pow_1024(3) {
        2
    } else if m < pow_1024(4) {
        3
    } else {
        4
    }
}

/// The name of unit `k`.
pub open spec fn unit_name(k: nat) -> Seq<char> {
    if k == 0 {
        seq!['B']
    } else if k == 1 {
        seq!['K', 'i', 'B']
    } else if k == 2 {
        seq!['M', 'i', 'B']
    } else if k == 3 {
        seq!['G', 'i', 'B']
    } else {
        seq!['T', 'i', 'B']
    }
}

/// `m / 1024^k` in tenths, rounded to the nearest tenth, ties to even.
pub open spec fn rounded_tenths(m: nat, k: nat) -> nat {
    let d = pow_1024(k);
    let q = (m * 10) / d;
    let r = (m * 10) % d;
    if r * 2 > d || (r * 2 == d && q % 2 == 1) {
        q + 1
    } else {
        q
    }
}

/// The decimal digit for `d < 10`.
pub open spec fn digit_char(d: nat) -> char {
    if d == 0 {
        '0'
    } else if d == 1 {
        '1'
    } else if d == 2 {
        '2'
    } else if d == 3 {
        '3'
    } else if d == 4 {
        '4'
    } else if d == 5 {
        '5'
    } else if d == 6 {
        '6'
    } else if d == 7 {
        '7'
    } else if d == 8 {
        '8'
    } else {
        '9'
    }
}

/// The decimal digits of `n`, without leading zeros.
pub open spec fn decimal(n: nat) -> Seq<char>
    decreases n,
{
    if n < 10 {
        seq![digit_char(n)]
    } else {
        decimal(n / 10).push(digit_char(n % 10))
    }
}

/// The text shown for `bytes`.
pub open spec fn human_bytes_text(bytes: nat) -> Seq<char> {
    let m = float_of(bytes);
    let k = unit_index(m);
    if k == 0 {
        decimal(m) + seq![' '] + unit_name(0)
    } else if m % pow_1024(k) == 0 {
        decimal(m / pow_1024(k)) + seq![' '] + unit_name(k)
    } else {
        let t = rounded_tenths(m, k);
        decimal(t / 10) + seq!['.', digit_char(t % 10), ' '] + unit_name(k)
    }
}

/// The one-character string of the decimal digit `d`.
fn digit_str(d: u128) -> (s: &'static str)
    requires
        d < 10,
    ensures
        s@ == seq![digit_char(d as nat)],
{
    proof {
        reveal_strlit("0");
        reveal_strlit("1");
        reveal_strlit("2");
        reveal_strlit("3");
        reveal_strlit("4");
        reveal_strlit("5");
        reveal_strlit("6");
        reveal_strlit("7");
        reveal_strlit("8");
        reveal_strlit("9");
    }
    let s = if d == 0 {
        "0"
    } else if d == 1 {
        "1"
    } else if d == 2 {
        "2"
    } else if d == 3 {
        "3"
    } else if d == 4 {
        "4"
    } else if d == 5 {
        "5"
    } else if d == 6 {
        "6"
    } else if d == 7 {
        "7"
    } else if d == 8 {
        "8"
    } else {
        "9"
    };
    assert(s@ =~= seq![digit_char(d as nat)]);
    s
}

/// The decimal digits of `n`.
pub fn decimal_string(n: u128) -> (s: String)
    ensures
        s@ == decimal(n as nat),
    decreases n,
{
    if n < 10 {
        digit_str(n).to_owned()
    } else {
        let mut s = decimal_string(n / 10);
        s.append(digit_str(n % 10));
        s
    }
}

/// Below 2^53 nothing is dropped; each halving above it drops one bit.
proof fn lemma_dropped_bits_step(q: nat)
    ensures
        q < float_exact_limit() ==> float_dropped_bits(q) == 0,
        q >= float_exact_limit() ==> float_dropped_bits(q) == 1 + float_dropped_bits(q / 2),
{
}

/// `b as f64`, as an integer.
pub fn float_rounded(b: u64) -> (m: u128)
    ensures
        m == float_of(b as nat),
        m <= 36893488147419103232,
{
    let mut q: u128 = b as u128;
    let mut d: u128 = 1;
    let ghost mut e: nat = 0;
    while q >= 9007199254740992
        invariant
            d as nat == pow_two(e),
            1 <= d <= 4096,
            q as nat == b as nat / d as nat,
            float_dropped_bits(b as nat) == e + float_dropped_bits(q as nat),
        decreases q,
    {
        proof {
            lemma_dropped_bits_step(q as nat);
            vstd::arithmetic::div_mod::lemma_fundamental_div_mod(b as int, d as int);
            assert(d * q <= b);
            assert(d * 9007199254740992 <= d * q) by (nonlinear_arith)
                requires
                    q >= 9007199254740992,
                    d >= 1,
            ;
            assert(d < 2048);
            vstd::arithmetic::div_mod::lemma_div_denominator(b as int, d as int, 2);
        }
        q = q / 2;
        d = d * 2;
        proof {
            e = e + 1;
        }
    }
    proof {
        lemma_dropped_bits_step(q as nat);
        assert(e == float_dropped_bits(b as nat));
        vstd::arithmetic::div_mod::lemma_fundamental_div_mod(b as int, d as int);
    }
    let r = (b as u128) % d;
    if r * 2 > d || (r * 2 == d && q % 2 == 1) {
        proof {
            assert((q + 1) * d <= b as int + d) by (nonlinear_arith)
                requires
                    d * q + r == b,
                    r < d,
                    r >= 0,
            ;
            assert((q + 1) * d <= 36893488147419103232) by (nonlinear_arith)
                requires
                    q < 9007199254740992,
                    d <= 4096,
            ;
        }
        (q + 1) * d
    } else {
        proof {
            assert(q * d <= b) by (nonlinear_arith)
                requires
                    d * q + r == b,
                    r >= 0,
            ;
            assert(b < 36893488147419103232);
        }
        q * d
    }
}

/// The unit name for unit `k`, and `1024^k`.
fn unit_of(m: u128) -> (r: (usize, u128, &'static str))
    ensures
        r.0 == unit_index(m as nat),
        r.1 == pow_1024(r.0 as nat),
        r.1 >= 1,
        r.2@ == unit_name(r.0 as nat),
{
    proof {
        reveal_with_fuel(pow_1024, 5);
        reveal_strlit("B");
        reveal_strlit("KiB");
        reveal_strlit("MiB");
        reveal_strlit("GiB");
        reveal_strlit("TiB");
        assert("B"@ =~= unit_name(0));
        assert("KiB"@ =~= unit_name(1));
        assert("MiB"@ =~= unit_name(2));
        assert("GiB"@ =~= unit_name(3));
        assert("TiB"@ =~= unit_name(4));
    }
    if m < 1024 {
        (0, 1, "B")
    } else if m < 1048576 {
        (1, 1024, "KiB")
    } else if m < 1073741824 {
        (2, 1048576, "MiB")
    } else if m < 1099511627776 {
        (3, 1073741824, "GiB")
    } else {
        (4, 1099511627776, "TiB")
    }
}

/// Human-readable byte size (`1.2 GiB`, `340 MiB`, `512 B`, ...), in the
/// binary units B, KiB, MiB, GiB and TiB.
pub fn human_bytes(bytes: u64) -> (text: String)
    ensures
        text@ == human_bytes_text(bytes as nat),
{
    proof {
        reveal_strlit(" ");
        reveal_strlit(".");
    }
    let m = float_rounded(bytes);
    let (unit, scale, name) = unit_of(m);
    if unit == 0 {
        let mut text = decimal_string(m);
        text.append(" ");
        text.append(name);
        proof {
            assert(text@ =~= human_bytes_text(bytes as nat));
        }
        text
    } else if m % scale == 0 {
        let mut text = decimal_string(m / scale);
        text.append(" ");
        text.append(name);
        proof {
            assert(text@ =~= human_bytes_text(bytes as nat));
        }
        text
    } else {
        let n = m * 10;
        let q = n / scale;
        let r = n % scale;
        let tenths = if r * 2 > scale || (r * 2 == scale && q % 2 == 1) {
            q + 1
        } else {
            q
        };
        let mut text = decimal_string(tenths / 10);
        text.append(".");
        text.append(digit_str(tenths % 10));
        text.append(" ");
        text.append(name);
        proof {
            assert(tenths == rounded_tenths(m as nat, unit as nat));
            assert(text@ =~= human_bytes_text(bytes as nat));
        }
        text
    }
}

/// Law: sizes below 1 KiB are shown exactly, as a whole number of bytes.
pub proof fn lemma_small_sizes_exact(bytes: nat)
    requires
        bytes < 1024,
    ensures
        human_bytes_text(bytes) == decimal(bytes) + seq![' ', 'B'],
{
    reveal_with_fuel(pow_1024, 2);
    assert(float_dropped_bits(bytes) == 0);
    assert(pow_two(0) == 1);
    assert(float_of(bytes) == bytes);
}

/// Law: a 64-bit float holds every byte count below 2^53 exactly, so such
/// sizes are scaled from the exact count.
pub proof fn lemma_float_exact_below_limit(bytes: nat)
    requires
        bytes < float_exact_limit(),
    ensures
        float_of(bytes) == bytes,
{
    assert(float_dropped_bits(bytes) == 0);
    assert(pow_two(0) == 1);
}

/// Law: a whole number of KiB, MiB, GiB or TiB is shown as that whole
/// number, without a decimal (`340 MiB`).
pub proof fn lemma_whole_sizes_shown_whole(n: nat, k: nat)
    requires
        1 <= k <= 4,
        1 <= n,
        n < 1024 || k == 4,
        n * pow_1024(k) < float_exact_limit(),
    ensures
        human_bytes_text(n * pow_1024(k)) == decimal(n) + seq![' '] + unit_name(k),
{
    reveal_with_fuel(pow_1024, 5);
    let d = pow_1024(k);
    let b = n * d;
    lemma_float_exact_below_limit(b);
    assert(b >= d) by (nonlinear_arith)
        requires
            b == n * d,
            n >= 1,
            d >= 1,
    ;
    if k < 4 {
        assert(b < 1024 * d) by (nonlinear_arith)
            requires
                b == n * d,
                n < 1024,
                d >= 1,
        ;
    }
    assert(unit_index(b) == k);
    vstd::arithmetic::div_mod::lemma_mod_multiples_basic(n as int, d as int);
    vstd::arithmetic::div_mod::lemma_div_multiples_vanish(n as int, d as int);
    assert(d * n == n * d) by (nonlinear_arith);
}

} // verus!
