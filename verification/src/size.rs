//! Human-readable sizes: the unit a size is shown in and its two-decimal text.

use vstd::prelude::*;

use crate::text::{chars_of, decimal, digit_char, string_of};

verus! {

/// Decimal units (`KB = 1000`, as on macOS) or binary units (`KB = 1024`,
/// as on Windows and Linux).
#[derive(Debug, Clone, Copy, PartialEq, Eq)]
pub enum SizeUnits {
    Decimal,
    Binary,
}

/// The unit a size is shown in.
#[derive(Debug, Clone, Copy, PartialEq, Eq)]
pub enum ByteFormat {
    Bytes,
    Kb,
    Mb,
    Gb,
    Tb,
}

/// Bytes per kilobyte.
pub open spec fn base_of(units: SizeUnits) -> int {
    match units {
        SizeUnits::Decimal => 1000,
        SizeUnits::Binary => 1024,
    }
}

/// Bytes per `unit`.
pub open spec fn unit_scale(unit: ByteFormat, units: SizeUnits) -> int {
    let b = base_of(units);
    match unit {
        ByteFormat::Bytes => 1,
        ByteFormat::Kb => b,
        ByteFormat::Mb => b * b,
        ByteFormat::Gb => b * b * b,
        ByteFormat::Tb => b * b * b * b,
    }
}

/// The largest unit that `size` reaches (bytes below one kilobyte).
pub open spec fn unit_for(size: int, units: SizeUnits) -> ByteFormat {
    if size >= unit_scale(ByteFormat::Tb, units) {
        ByteFormat::Tb
    } else if size >= unit_scale(ByteFormat::Gb, units) {
        ByteFormat::Gb
    } else if size >= unit_scale(ByteFormat::Mb, units) {
        ByteFormat::Mb
    } else if size >= unit_scale(ByteFormat::Kb, units) {
        ByteFormat::Kb
    } else {
        ByteFormat::Bytes
    }
}

/// The label of a unit.
pub open spec fn unit_label(unit: ByteFormat) -> Seq<char> {
    match unit {
        ByteFormat::Bytes => seq!['B'],
        ByteFormat::Kb => seq!['K', 'B'],
        ByteFormat::Mb => seq!['M', 'B'],
        ByteFormat::Gb => seq!['G', 'B'],
        ByteFormat::Tb => seq!['T', 'B'],
    }
}

/// `2^k`.
pub open spec fn pow_two(k: nat) -> nat
    decreases k,
{
    if k == 0 {
        1
    } else {
        2 * pow_two((k - 1) as nat)
    }
}

/// Number of binary digits of `n` (0 for 0).
pub open spec fn bit_len(n: nat) -> nat
    decreases n,
{
    if n == 0 {
        0
    } else {
        1 + bit_len(n / 2)
    }
}

/// `num / den` rounded to the nearest integer, ties to even.
pub open spec fn round_even(num: int, den: int) -> int {
    let q = num / den;
    let r = num % den;
    if 2 * r > den || (2 * r == den && q % 2 == 1) {
        q + 1
    } else {
        q
    }
}

/// `size as f64`: `size` rounded to 53 significant bits, ties to even.
pub open spec fn f64_of(size: nat) -> nat {
    if size < pow_two(53) {
        size
    } else {
        let k = (bit_len(size) - 53) as nat;
        (round_even(size as int, pow_two(k) as int) * pow_two(k)) as nat
    }
}

/// How many binary digits after the point the `f64` quotient `a / s` has:
/// 53 significant bits, less those before the point.
pub open spec fn frac_bits(a: nat, s: nat) -> nat {
    if bit_len(a / s) <= 53 {
        (53 - bit_len(a / s)) as nat
    } else {
        0
    }
}

/// What the size shows, in hundredths of its unit: `size as f64 / scale`
/// rounded to the nearest `f64` (a multiple of `2^-frac_bits`), then to two
/// decimals, ties to even, as `{:.2}` formats it.
pub open spec fn shown_hundredths(size: u64, units: SizeUnits) -> int {
    let s = unit_scale(unit_for(size as int, units), units);
    let a = f64_of(size as nat);
    let p = frac_bits(a, s as nat);
    round_even(100 * round_even((a * pow_two(p)) as int, s), pow_two(p) as int)
}

/// The two digits of `n < 100`.
pub open spec fn two_digits(n: int) -> Seq<char> {
    seq![digit_char(n / 10), digit_char(n % 10)]
}

/// How a size is shown: its value in the unit it reaches, with two
/// decimals, a space, and the unit's label (`"1.50 KB"`).
pub open spec fn size_text(size: u64, units: SizeUnits) -> Seq<char> {
    let unit = unit_for(size as int, units);
    let h = shown_hundredths(size, units);
    decimal((h / 100) as nat) + seq!['.'] + two_digits(h % 100) + seq![' '] + unit_label(unit)
}

/// The unit a size is shown in is the largest one it reaches: the size is
/// at least one of that unit (unless it is shown in bytes), and, below
/// terabytes, less than one of the next unit up.
pub proof fn lemma_unit_is_largest_reached(size: u64, units: SizeUnits)
    ensures
        unit_for(size as int, units) != ByteFormat::Bytes ==> unit_scale(
            unit_for(size as int, units),
            units,
        ) <= size,
        unit_for(size as int, units) != ByteFormat::Tb ==> size < base_of(units) * unit_scale(
            unit_for(size as int, units),
            units,
        ),
        1 <= unit_scale(unit_for(size as int, units), units),
{
    let b = base_of(units);
    match units {
        SizeUnits::Decimal => {
            assert(b == 1000);
            assert(b * b == 1_000_000) by (nonlinear_arith)
                requires
                    b == 1000,
            ;
            assert(b * b * b == 1_000_000_000) by (nonlinear_arith)
                requires
                    b == 1000,
            ;
            assert(b * b * b * b == 1_000_000_000_000) by (nonlinear_arith)
                requires
                    b == 1000,
            ;
        },
        SizeUnits::Binary => {
            assert(b == 1024);
            assert(b * b == 1_048_576) by (nonlinear_arith)
                requires
                    b == 1024,
            ;
            assert(b * b * b == 1_073_741_824) by (nonlinear_arith)
                requires
                    b == 1024,
            ;
            assert(b * b * b * b == 1_099_511_627_776) by (nonlinear_arith)
                requires
                    b == 1024,
            ;
        },
    }
}

/// Bytes per kilobyte.
pub fn size_base(units: SizeUnits) -> (b: u64)
    ensures
        b == base_of(units),
{
    match units {
        SizeUnits::Decimal => 1000,
        SizeUnits::Binary => 1024,
    }
}

/// The largest unit that `size` reaches (the choice of unit that the
/// display value is divided by).
pub fn byte_format(size: u64, units: SizeUnits) -> (unit: ByteFormat)
    ensures
        unit == unit_for(size as int, units),
{
    let b = size_base(units);
    let kb = b;
    let mb = b * b;
    let gb = b * mb;
    let tb = b * gb;
    if size >= tb {
        ByteFormat::Tb
    } else if size >= gb {
        ByteFormat::Gb
    } else if size >= mb {
        ByteFormat::Mb
    } else if size >= kb {
        ByteFormat::Kb
    } else {
        ByteFormat::Bytes
    }
}

/// Bytes per `unit`.
pub fn scale_of(unit: ByteFormat, units: SizeUnits) -> (s: u64)
    ensures
        s == unit_scale(unit, units),
        s >= 1,
{
    let b = size_base(units);
    match unit {
        ByteFormat::Bytes => 1,
        ByteFormat::Kb => b,
        ByteFormat::Mb => b * b,
        ByteFormat::Gb => b * b * b,
        ByteFormat::Tb => b * b * b * b,
    }
}

/// The label of a unit.
pub fn format_unit(unit: &ByteFormat) -> (label: &'static str)
    ensures
        label@ == unit_label(*unit),
{
    match unit {
        ByteFormat::Bytes => {
            proof {
                reveal_strlit("B");
            }
            "B"
        },
        ByteFormat::Kb => {
            proof {
                reveal_strlit("KB");
            }
            "KB"
        },
        ByteFormat::Mb => {
            proof {
                reveal_strlit("MB");
            }
            "MB"
        },
        ByteFormat::Gb => {
            proof {
                reveal_strlit("GB");
            }
            "GB"
        },
        ByteFormat::Tb => {
            proof {
                reveal_strlit("TB");
            }
            "TB"
        },
    }
}

fn digit_of(d: u128) -> (c: char)
    requires
        d < 10,
    ensures
        c == digit_char(d as int),
{
    let b: u8 = 48u8 + (d as u8);
    b as char
}

/// Powers of two are positive.
proof fn lemma_pow_two_pos(a: nat)
    ensures
        pow_two(a) >= 1,
    decreases a,
{
    if a > 0 {
        lemma_pow_two_pos((a - 1) as nat);
    }
}

/// Powers of two grow with the exponent.
proof fn lemma_pow_two_mono(a: nat, b: nat)
    requires
        a <= b,
    ensures
        1 <= pow_two(a) <= pow_two(b),
    decreases b,
{
    lemma_pow_two_pos(a);
    if b > a {
        lemma_pow_two_mono(a, (b - 1) as nat);
    }
}

/// Powers of two multiply by adding exponents.
proof fn lemma_pow_two_add(a: nat, b: nat)
    ensures
        pow_two(a + b) == pow_two(a) * pow_two(b),
    decreases a,
{
    if a > 0 {
        let a1 = (a - 1) as nat;
        lemma_pow_two_add(a1, b);
        let p = pow_two(a1);
        let q = pow_two(b);
        assert(a1 + b + 1 == a + b);
        assert(pow_two(a + b) == 2 * pow_two(a1 + b));
        assert(pow_two(a1 + b) == p * q);
        assert(pow_two(a) == 2 * p);
        assert(pow_two(a) * q == 2 * (p * q)) by (nonlinear_arith)
            requires
                pow_two(a) == 2 * p,
        ;
    } else {
        assert(a + b == b);
        assert(pow_two(a) == 1);
        assert(pow_two(a) * pow_two(b) == pow_two(b));
    }
}

/// The powers of two that sizes need.
proof fn lemma_pow_two_values()
    ensures
        pow_two(11) == 0x800,
        pow_two(53) == 0x20_0000_0000_0000,
        pow_two(64) == 0x1_0000_0000_0000_0000,
        pow_two(128) == 0x1_0000_0000_0000_0000_0000_0000_0000_0000,
{
    reveal_with_fuel(pow_two, 9);
    assert(pow_two(2) == 4);
    assert(pow_two(3) == 8);
    assert(pow_two(8) == 256);
    lemma_pow_two_add(8, 8);
    assert(pow_two(16) == 0x1_0000);
    lemma_pow_two_add(16, 16);
    assert(pow_two(32) == 0x1_0000_0000);
    lemma_pow_two_add(32, 32);
    assert(pow_two(64) == 0x1_0000_0000_0000_0000);
    lemma_pow_two_add(64, 64);
    assert(pow_two(128) == 0x1_0000_0000_0000_0000_0000_0000_0000_0000);
    lemma_pow_two_add(8, 3);
    assert(pow_two(11) == 0x800);
    lemma_pow_two_add(32, 16);
    assert(pow_two(48) == 0x1_0000_0000_0000);
    lemma_pow_two_add(48, 3);
    assert(pow_two(51) == 0x8_0000_0000_0000);
    lemma_pow_two_add(51, 2);
    assert(pow_two(53) == 0x20_0000_0000_0000);
}

/// `bit_len(n) <= j` exactly when `n < 2^j`.
proof fn lemma_bit_len_below(n: nat, j: nat)
    ensures
        bit_len(n) <= j <==> n < pow_two(j),
    decreases j,
{
    if j > 0 && n > 0 {
        lemma_bit_len_below(n / 2, (j - 1) as nat);
    } else if j == 0 {
        if n > 0 {
            assert(bit_len(n) >= 1);
        }
    } else {
        lemma_pow_two_mono(0, j);
    }
}

/// `2^k` for `k <= 64`.
fn pow_two_exec(k: u32) -> (r: u128)
    requires
        k <= 64,
    ensures
        r == pow_two(k as nat),
{
    proof {
        lemma_pow_two_values();
    }
    let mut r: u128 = 1;
    let mut i: u32 = 0;
    while i < k
        invariant
            i <= k <= 64,
            r == pow_two(i as nat),
            pow_two(64) == 0x1_0000_0000_0000_0000,
        decreases k - i,
    {
        proof {
            lemma_pow_two_mono((i + 1) as nat, 64);
        }
        r = r * 2;
        i = i + 1;
    }
    r
}

/// Number of binary digits of `n`.
fn bit_len_exec(n: u128) -> (b: u32)
    ensures
        b == bit_len(n as nat),
{
    proof {
        lemma_pow_two_values();
        lemma_bit_len_below(n as nat, 128);
    }
    let mut m: u128 = n;
    let mut b: u32 = 0;
    while m > 0
        invariant
            b + bit_len(m as nat) == bit_len(n as nat),
            bit_len(n as nat) <= 128,
        decreases m,
    {
        m = m / 2;
        b = b + 1;
    }
    b
}

/// `num / den` rounded to the nearest integer, ties to even.
fn round_even_exec(num: u128, den: u128) -> (r: u128)
    requires
        den > 0,
    ensures
        r == round_even(num as int, den as int),
        r <= num / den + 1,
{
    let q = num / den;
    let rem = num % den;
    proof {
        vstd::arithmetic::div_mod::lemma_fundamental_div_mod(num as int, den as int);
        assert(q <= den * q) by (nonlinear_arith)
            requires
                den >= 1,
                q >= 0,
        ;
    }
    if rem > den - rem || (rem == den - rem && q % 2 == 1) {
        assert(rem >= 1);
        assert(q + 1 <= num);
        q + 1
    } else {
        q
    }
}

/// `size as f64`, as an integer.
fn f64_of_exec(size: u64) -> (a: u128)
    ensures
        a == f64_of(size as nat),
        a <= 0x1_0000_0000_0000_0800,
{
    proof {
        lemma_pow_two_values();
    }
    if size < 0x20_0000_0000_0000u64 {
        return size as u128;
    }
    let b = bit_len_exec(size as u128);
    proof {
        lemma_bit_len_below(size as nat, 53);
        lemma_bit_len_below(size as nat, 64);
    }
    let k = b - 53;
    let d = pow_two_exec(k);
    proof {
        lemma_pow_two_mono(k as nat, 11);
    }
    let wide = size as u128;
    let m = round_even_exec(wide, d);
    proof {
        vstd::arithmetic::div_mod::lemma_fundamental_div_mod(wide as int, d as int);
        assert(m * d <= wide + d) by (nonlinear_arith)
            requires
                m <= wide / d + 1,
                wide == d * (wide / d) + wide % d,
                wide % d >= 0,
                d >= 1,
        ;
    }
    m * d
}

/// `a / s` has at most 53 binary digits before the point.
proof fn lemma_quotient_bits(size: u64, units: SizeUnits, a: nat)
    requires
        a == f64_of(size as nat),
        a <= 0x1_0000_0000_0000_0800,
    ensures
        bit_len(a / unit_scale(unit_for(size as int, units), units) as nat) <= 53,
{
    let s: nat = unit_scale(unit_for(size as int, units), units) as nat;
    lemma_pow_two_values();
    assert(unit_scale(unit_for(size as int, units), units) >= 1);
    if size < 0x20_0000_0000_0000u64 {
        assert(a / s <= a) by (nonlinear_arith)
            requires
                s >= 1,
                a >= 0,
        ;
    } else {
        assert(unit_scale(ByteFormat::Tb, units) <= 0x100_0000_0000);
        assert(unit_for(size as int, units) == ByteFormat::Tb);
        assert(unit_scale(ByteFormat::Tb, units) >= 0x80_0000_0000);
        assert(a / s <= 0x1_0000_0000_0000_0800nat / 0x80_0000_0000nat) by (nonlinear_arith)
            requires
                s >= 0x80_0000_0000,
                a <= 0x1_0000_0000_0000_0800,
                a >= 0,
        ;
    }
    lemma_bit_len_below(a / s, 53);
}

/// What `size` shows, in hundredths of its unit.
fn shown_hundredths_exec(size: u64, units: SizeUnits, unit: ByteFormat) -> (h: u128)
    requires
        unit == unit_for(size as int, units),
    ensures
        h == shown_hundredths(size, units),
{
    let scale = scale_of(unit, units) as u128;
    let a = f64_of_exec(size);
    proof {
        lemma_quotient_bits(size, units, a as nat);
    }
    let b = bit_len_exec(a / scale);
    let p = 53 - b;
    let unit_of_last_bit = pow_two_exec(p);
    proof {
        lemma_pow_two_mono(p as nat, 53);
        lemma_pow_two_values();
    }
    assert(a * unit_of_last_bit <= 0x1_0000_0000_0000_0800 * 0x20_0000_0000_0000) by (
    nonlinear_arith)
        requires
            a <= 0x1_0000_0000_0000_0800,
            unit_of_last_bit <= 0x20_0000_0000_0000,
    ;
    let x = a * unit_of_last_bit;
    let m = round_even_exec(x, scale);
    proof {
        assert(x / scale <= x) by (nonlinear_arith)
            requires
                scale >= 1,
                x >= 0,
        ;
    }
    assert(100 * m <= 100 * (0x1_0000_0000_0000_0800 * 0x20_0000_0000_0000 + 1));
    round_even_exec(100 * m, unit_of_last_bit)
}

/// How a size is shown (`"1.50 KB"`, `"512.00 B"`): as `format!("{:.2} {}")`
/// prints the size divided, in `f64`, by its unit.
pub fn format_size(size: u64, units: SizeUnits) -> (text: String)
    ensures
        text@ == size_text(size, units),
{
    let unit = byte_format(size, units);
    let h = shown_hundredths_exec(size, units, unit);
    let mut v: Vec<char> = Vec::new();
    crate::text::push_decimal_u128(&mut v, h / 100);
    v.push('.');
    v.push(digit_of((h % 100) / 10));
    v.push(digit_of(h % 10));
    v.push(' ');
    let label = chars_of(format_unit(&unit));
    let mut k: usize = 0;
    let ghost mid = v@;
    while k < label.len()
        invariant
            k <= label@.len(),
            v@ == mid + label@.take(k as int),
        decreases label@.len() - k,
    {
        v.push(label[k]);
        k = k + 1;
        assert(mid + label@.take(k as int) =~= (mid + label@.take(k - 1)).push(label@[k - 1]));
    }
    assert(label@.take(k as int) =~= label@);
    assert((h % 100) % 10 == h % 10);
    assert(v@ =~= size_text(size, units));
    string_of(&v)
}

} // verus!
