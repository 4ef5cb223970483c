//! Fixed-point measurements with one fractional digit, held as tenths.

use vstd::prelude::*;

verus! {

/// The longest value field that is parsed, sign and fraction included.
pub const MAX_MEASUREMENT_LEN: usize = 16;

/// The digit that a byte stands for, wrapping like `u8` subtraction.
pub open spec fn digit_of(b: u8) -> nat {
    if b >= 48 {
        (b - 48) as nat
    } else {
        (b + 208) as nat
    }
}

/// Decimal value of a digit string, most significant digit first.
pub open spec fn digits_value(d: Seq<u8>) -> nat
    decreases d.len(),
{
    if d.len() == 0 {
        0
    } else {
        digits_value(d.drop_last()) * 10 + digit_of(d.last())
    }
}

pub open spec fn pow10(n: nat) -> nat
    decreases n,
{
    if n == 0 {
        1
    } else {
        10 * pow10((n - 1) as nat)
    }
}

/// Whether a value field starts with a minus sign.
pub open spec fn is_negative(s: Seq<u8>) -> bool {
    s.len() > 2 && s[0] == 45
}

/// The digits in front of the decimal point (the byte before the last one
/// is taken to be the point and is not looked at).
pub open spec fn whole_part(s: Seq<u8>) -> Seq<u8> {
    if is_negative(s) {
        s.subrange(1, s.len() - 2)
    } else {
        s.subrange(0, s.len() - 2)
    }
}

/// The value of a field `-?digits.digit`, in tenths.
pub open spec fn tenths_of(s: Seq<u8>) -> int {
    let magnitude = digits_value(whole_part(s)) * 10 + digit_of(s.last());
    if is_negative(s) {
        -magnitude
    } else {
        magnitude as int
    }
}

/// A field that `parse_measurement` accepts.
pub open spec fn parsable(s: Seq<u8>) -> bool {
    2 <= s.len() <= MAX_MEASUREMENT_LEN
}

/// Bound on the magnitude of any parsed value, in tenths.
pub const VALUE_BOUND: i64 = 100_000_000_000_000_000;

/// The digit value of an ASCII digit byte.
pub fn byte_ascii_digit(byte: &u8) -> (r: u8)
    ensures
        r as nat == digit_of(*byte),
{
    byte.wrapping_sub(48)
}

proof fn lemma_digits_bound(d: Seq<u8>)
    ensures
        digits_value(d) + 30 <= 30 * pow10(d.len()),
    decreases d.len(),
{
    if d.len() > 0 {
        lemma_digits_bound(d.drop_last());
    }
}

proof fn lemma_pow10_mono(a: nat, b: nat)
    requires
        a <= b,
    ensures
        pow10(a) <= pow10(b),
    decreases b,
{
    if a < b {
        lemma_pow10_mono(a, (b - 1) as nat);
    }
}

proof fn lemma_pow10_14()
    ensures
        pow10(14) == 100_000_000_000_000,
{
    reveal_with_fuel(pow10, 15);
}

/// The value of a field in tenths. Digit bytes are not checked: any
/// byte stands for a digit as `byte_ascii_digit` gives it.
pub fn parse_measurement(measurement_bytes: &[u8]) -> (r: i64)
    requires
        parsable(measurement_bytes@),
    ensures
        r == tenths_of(measurement_bytes@),
        -VALUE_BOUND < r < VALUE_BOUND,
{
    let s = measurement_bytes;
    let n = s.len();
    let negative = n > 2 && s[0] == 45u8;
    let start: usize = if negative { 1 } else { 0 };
    let ghost w = whole_part(s@);
    proof {
        lemma_digits_bound(w);
        lemma_pow10_mono(w.len(), 14);
        lemma_pow10_14();
    }
    let mut whole: i64 = 0;
    let mut i: usize = start;
    while i < n - 2
        invariant
            start <= i <= n - 2,
            n == s@.len(),
            2 <= n <= MAX_MEASUREMENT_LEN,
            w == s@.subrange(start as int, n - 2),
            start == (if negative { 1usize } else { 0usize }),
            negative == is_negative(s@),
            whole == digits_value(w.subrange(0, i - start)),
            digits_value(w) + 30 <= 30 * pow10(w.len()),
            pow10(w.len()) <= 100_000_000_000_000,
        decreases n - i,
    {
        let ghost prefix = w.subrange(0, i - start);
        let ghost next = w.subrange(0, i + 1 - start);
        assert(next.drop_last() =~= prefix);
        proof {
            lemma_digits_bound(next);
            lemma_pow10_mono(next.len(), w.len());
        }
        let d = byte_ascii_digit(&s[i]);
        whole = whole * 10 + d as i64;
        i = i + 1;
    }
    assert(w.subrange(0, w.len() as int) =~= w);
    let fractional = byte_ascii_digit(&s[n - 1]);
    let magnitude = whole * 10 + fractional as i64;
    if negative {
        -magnitude
    } else {
        magnitude
    }
}

/// Decimal digits of a natural number, without leading zeros.
pub open spec fn decimal_digits(n: nat) -> Seq<u8>
    decreases n,
{
    if n < 10 {
        seq![(48 + n) as u8]
    } else {
        decimal_digits(n / 10) + seq![(48 + n % 10) as u8]
    }
}

pub open spec fn abs(v: int) -> nat {
    if v < 0 {
        (-v) as nat
    } else {
        v as nat
    }
}

/// A value in tenths written with exactly one fractional digit.
pub open spec fn tenths_text(v: int) -> Seq<u8> {
    let sign = if v < 0 {
        seq![45u8]
    } else {
        Seq::<u8>::empty()
    };
    sign + decimal_digits(abs(v) / 10) + seq![46u8, (48 + abs(v) % 10) as u8]
}

/// Appends the decimal digits of `n`.
pub fn push_decimal(out: &mut Vec<u8>, n: u64)
    ensures
        final(out)@ == old(out)@ + decimal_digits(n as nat),
    decreases n,
{
    if n >= 10 {
        push_decimal(out, n / 10);
    }
    out.push((48 + n % 10) as u8);
    assert(out@ =~= old(out)@ + decimal_digits(n as nat));
}

/// Appends a value in tenths with one fractional digit, as `-5.5` or `12.0`.
pub fn push_tenths(out: &mut Vec<u8>, v: i64)
    ensures
        final(out)@ == old(out)@ + tenths_text(v as int),
{
    let magnitude: u64 = if v < 0 {
        (-(v as i128)) as u64
    } else {
        v as u64
    };
    assert(magnitude == abs(v as int));
    let ghost start = out@;
    if v < 0 {
        out.push(45u8);
    }
    push_decimal(out, magnitude / 10);
    out.push(46u8);
    out.push((48 + magnitude % 10) as u8);
    assert(out@ =~= start + tenths_text(v as int));
}

pub open spec fn is_digit(b: u8) -> bool {
    48 <= b <= 57
}

/// Digit strings with no leading zero, such as `0`, `7` or `42`.
pub open spec fn canonical_digits(w: Seq<u8>) -> bool {
    &&& w.len() >= 1
    &&& forall|i: int| 0 <= i < w.len() ==> is_digit(#[trigger] w[i])
    &&& (w.len() == 1 || w[0] != 48)
}

/// A field in its one written form: `-?digits.digit` with no leading
/// zero, and no minus sign on zero.
pub open spec fn canonical_measurement(s: Seq<u8>) -> bool {
    &&& parsable(s)
    &&& s[s.len() - 2] == 46
    &&& is_digit(s.last())
    &&& canonical_digits(whole_part(s))
    &&& (is_negative(s) ==> tenths_of(s) != 0)
}

proof fn lemma_leading_digit_positive(w: Seq<u8>)
    requires
        w.len() >= 1,
        forall|i: int| 0 <= i < w.len() ==> is_digit(#[trigger] w[i]),
        w[0] != 48,
    ensures
        digits_value(w) >= 1,
    decreases w.len(),
{
    if w.len() > 1 {
        let p = w.drop_last();
        assert(p[0] == w[0]);
        assert forall|i: int| 0 <= i < p.len() implies is_digit(#[trigger] p[i]) by {
            assert(p[i] == w[i]);
        }
        lemma_leading_digit_positive(p);
    }
}

proof fn lemma_decimal_digits_of_value(w: Seq<u8>)
    requires
        canonical_digits(w),
    ensures
        decimal_digits(digits_value(w)) == w,
    decreases w.len(),
{
    let p = w.drop_last();
    let d = digit_of(w.last());
    assert(is_digit(w[w.len() - 1]));
    if w.len() == 1 {
        assert(digits_value(p) == 0);
        assert(decimal_digits(digits_value(w)) =~= w);
    } else {
        assert(p[0] == w[0]);
        assert forall|i: int| 0 <= i < p.len() implies is_digit(#[trigger] p[i]) by {
            assert(p[i] == w[i]);
        }
        lemma_leading_digit_positive(p);
        lemma_decimal_digits_of_value(p);
        let n = digits_value(w);
        let a = digits_value(p);
        assert(n / 10 == a && n % 10 == d) by (nonlinear_arith)
            requires
                n == a * 10 + d,
                d < 10,
        ;
        assert(decimal_digits(n) =~= w);
    }
}

/// Parsing a field in its written form and writing the value back with
/// one fractional digit gives the same bytes.
pub proof fn lemma_parse_then_format(s: Seq<u8>)
    requires
        canonical_measurement(s),
    ensures
        tenths_text(tenths_of(s)) == s,
{
    let w = whole_part(s);
    lemma_decimal_digits_of_value(w);
    let a = digits_value(w);
    let f = digit_of(s.last());
    let m = a * 10 + f;
    assert(abs(tenths_of(s)) == m);
    assert(m / 10 == a && m % 10 == f) by (nonlinear_arith)
        requires
            f < 10,
            m == a * 10 + f,
    ;
    assert(tenths_text(tenths_of(s)) =~= s);
}

} // verus!
