use vstd::prelude::*;
use vstd::string::*;
use crate::error::{ScanError, ScanResult};
use crate::text::{scanned, skip_ascii};

verus! {

/// An ASCII decimal digit, `0` (0x30) to `9` (0x39).
pub open spec fn is_digit(c: u8) -> bool {
    0x30 <= c <= 0x39
}

/// The length of the longest prefix of `b` made of digits.
pub open spec fn digit_run(b: Seq<u8>) -> nat
    decreases b.len(),
{
    if b.len() > 0 && is_digit(b[0]) {
        1 + digit_run(b.drop_first())
    } else {
        0
    }
}

/// The value of the digits `d`, most significant first.
pub open spec fn decimal_value(d: Seq<u8>) -> int
    decreases d.len(),
{
    if d.len() == 0 {
        0
    } else {
        decimal_value(d.drop_last()) * 10 + (d.last() - 0x30)
    }
}

/// The smaller of two integers.
pub open spec fn min_of(a: int, b: int) -> int {
    if a <= b { a } else { b }
}

/// Outcome of `number`: at most `max` leading digits are read, and at least `min` are needed.
/// The digits read are checked to fit an `i64` before their count is checked against `min`.
pub open spec fn number_model(b: Seq<u8>, min: int, max: int) -> ScanResult<(int, i64)> {
    let k = min_of(digit_run(b) as int, max);
    if b.len() < min {
        Err(ScanError::TooShort)
    } else if decimal_value(b.take(k)) > i64::MAX {
        Err(ScanError::OutOfRange)
    } else if k < min {
        Err(ScanError::Invalid)
    } else {
        Ok((k, decimal_value(b.take(k)) as i64))
    }
}

pub(crate) proof fn lemma_digit_run_at_least(b: Seq<u8>, i: int)
    requires
        0 <= i <= b.len(),
        forall|j: int| 0 <= j < i ==> is_digit(#[trigger] b[j]),
    ensures
        digit_run(b) >= i,
        i == b.len() || !is_digit(b[i]) ==> digit_run(b) == i,
    decreases i,
{
    if i > 0 {
        let t = b.drop_first();
        assert forall|j: int| 0 <= j < i - 1 implies is_digit(#[trigger] t[j]) by {
            assert(t[j] == b[j + 1]);
        }
        if i < b.len() {
            assert(t[i - 1] == b[i]);
        }
        lemma_digit_run_at_least(t, i - 1);
    }
}

pub(crate) proof fn lemma_digit_run_bound(b: Seq<u8>)
    ensures
        digit_run(b) <= b.len(),
        forall|j: int| 0 <= j < digit_run(b) ==> is_digit(#[trigger] b[j]),
    decreases b.len(),
{
    if b.len() > 0 && is_digit(b[0]) {
        let t = b.drop_first();
        lemma_digit_run_bound(t);
        assert forall|j: int| 0 <= j < digit_run(b) implies is_digit(#[trigger] b[j]) by {
            if j > 0 {
                assert(b[j] == t[j - 1]);
            }
        }
    }
}

proof fn lemma_decimal_value_grows(b: Seq<u8>, i: int, k: int)
    requires
        0 <= i <= k <= b.len(),
        forall|j: int| 0 <= j < k ==> is_digit(#[trigger] b[j]),
    ensures
        0 <= decimal_value(b.take(i)) <= decimal_value(b.take(k)),
    decreases k,
{
    if k > 0 {
        assert(b.take(k).drop_last() == b.take(k - 1));
        if i < k {
            lemma_decimal_value_grows(b, i, k - 1);
        } else {
            lemma_decimal_value_grows(b, k - 1, k - 1);
        }
    }
}

/// Reads from `min` to `max` leading ASCII digits as a non-negative `i64`.
///
/// Fewer than `min` bytes in all is `TooShort`; a non-digit among the first `min` bytes is
/// `Invalid`; a value past `i64::MAX` is `OutOfRange`. Digits past the first `max` are left.
pub fn number(s: &str, min: usize, max: usize) -> (r: ScanResult<(&str, i64)>)
    requires
        min <= max,
    ensures
        scanned(s, r, number_model(s.spec_bytes(), min as int, max as int)),
        r matches Ok((_, v)) ==> v >= 0,
        s.spec_bytes().len() >= min && decimal_value(
            s.spec_bytes().take(min_of(digit_run(s.spec_bytes()) as int, max as int)),
        ) > i64::MAX ==> r == Err::<(&str, i64), ScanError>(ScanError::OutOfRange),
{
    let bytes = s.as_bytes();
    let ghost b = s.spec_bytes();
    if bytes.len() < min {
        return Err(ScanError::TooShort);
    }
    let end: usize = if max < bytes.len() { max } else { bytes.len() };
    let mut n: i64 = 0;
    let mut i: usize = 0;
    while i < end
        invariant
            b == bytes@,
            b == s.spec_bytes(),
            end <= max,
            end <= b.len(),
            min <= b.len(),
            i <= end,
            forall|j: int| 0 <= j < i ==> is_digit(#[trigger] b[j]),
            n as int == decimal_value(b.take(i as int)),
            n >= 0,
        decreases end - i,
    {
        let c = bytes[i];
        if !(0x30 <= c && c <= 0x39) {
            proof {
                lemma_digit_run_at_least(b, i as int);
            }
            if i < min {
                return Err(ScanError::Invalid);
            } else {
                return Ok((skip_ascii(s, i), n));
            }
        }
        proof {
            assert(b.take(i + 1).drop_last() == b.take(i as int));
            lemma_digit_run_at_least(b, i + 1);
            lemma_digit_run_bound(b);
            lemma_decimal_value_grows(b, i + 1, min_of(digit_run(b) as int, max as int));
        }
        match n.checked_mul(10) {
            Some(m) => match m.checked_add((c - 0x30) as i64) {
                Some(x) => n = x,
                None => return Err(ScanError::OutOfRange),
            },
            None => return Err(ScanError::OutOfRange),
        }
        i = i + 1;
    }
    proof {
        lemma_digit_run_at_least(b, end as int);
        lemma_decimal_value_grows(b, 0, end as int);
    }
    Ok((skip_ascii(s, end), n))
}

/// Ten to the power `n`.
pub open spec fn pow10(n: nat) -> int
    decreases n,
{
    if n == 0 {
        1
    } else {
        10 * pow10((n - 1) as nat)
    }
}

proof fn lemma_pow10_add(a: nat, b: nat)
    ensures
        pow10(a) * pow10(b) == pow10(a + b),
        pow10(a) >= 1,
    decreases a,
{
    if a > 0 {
        lemma_pow10_add((a - 1) as nat, b);
        assert(pow10(a) * pow10(b) == 10 * (pow10((a - 1) as nat) * pow10(b))) by (nonlinear_arith)
            requires
                pow10(a) == 10 * pow10((a - 1) as nat),
        ;
    }
}

proof fn lemma_decimal_value_below(d: Seq<u8>)
    requires
        forall|j: int| 0 <= j < d.len() ==> is_digit(#[trigger] d[j]),
    ensures
        0 <= decimal_value(d) < pow10(d.len()),
    decreases d.len(),
{
    if d.len() > 0 {
        let t = d.drop_last();
        assert forall|j: int| 0 <= j < t.len() implies is_digit(#[trigger] t[j]) by {
            assert(t[j] == d[j]);
        }
        lemma_decimal_value_below(t);
        assert(is_digit(d[d.len() - 1]));
    }
}

/// A fractional second: `v` read from its first `k` digits, scaled so that the first digit
/// counts hundreds of milliseconds.
pub open spec fn nanos_of(v: int, k: int) -> int {
    v * pow10((9 - k) as nat)
}

/// Outcome of `nanosecond`: one to nine digits give the value, and the digits after the
/// ninth are consumed without being read.
pub open spec fn nanosecond_model(b: Seq<u8>) -> ScanResult<(int, i64)> {
    let k = min_of(digit_run(b) as int, 9);
    if b.len() == 0 {
        Err(ScanError::TooShort)
    } else if !is_digit(b[0]) {
        Err(ScanError::Invalid)
    } else {
        Ok((digit_run(b) as int, nanos_of(decimal_value(b.take(k)), k) as i64))
    }
}

/// Outcome of `nanosecond_fixed`: exactly `digits` digits, scaled as in `nanos_of`.
pub open spec fn nanosecond_fixed_model(b: Seq<u8>, digits: int) -> ScanResult<(int, i64)> {
    match number_model(b, digits, digits) {
        Ok((k, v)) => Ok((k, nanos_of(v as int, digits) as i64)),
        Err(e) => Err(e),
    }
}

/// The factor that turns a value read from `digits` digits into nanoseconds.
fn nano_scale(digits: usize) -> (r: i64)
    requires
        digits <= 9,
    ensures
        r == pow10((9 - digits) as nat),
{
    proof {
        reveal_with_fuel(pow10, 10);
    }
    match digits {
        0 => 1_000_000_000,
        1 => 100_000_000,
        2 => 10_000_000,
        3 => 1_000_000,
        4 => 100_000,
        5 => 10_000,
        6 => 1_000,
        7 => 100,
        8 => 10,
        _ => 1,
    }
}

proof fn lemma_nanos_fit(b: Seq<u8>, k: int)
    requires
        0 <= k <= 9,
        k <= b.len(),
        forall|j: int| 0 <= j < k ==> is_digit(#[trigger] b[j]),
    ensures
        0 <= nanos_of(decimal_value(b.take(k)), k) < 1_000_000_000,
        0 <= decimal_value(b.take(k)) < 1_000_000_000,
{
    let d = b.take(k);
    assert forall|j: int| 0 <= j < d.len() implies is_digit(#[trigger] d[j]) by {
        assert(d[j] == b[j]);
    }
    lemma_decimal_value_below(d);
    lemma_pow10_add(k as nat, (9 - k) as nat);
    reveal_with_fuel(pow10, 10);
    let v = decimal_value(d);
    let p = pow10((9 - k) as nat);
    assert(0 <= v <= v * p < 1_000_000_000) by (nonlinear_arith)
        requires
            0 <= v < pow10(k as nat),
            p >= 1,
            pow10(k as nat) * p == 1_000_000_000,
    ;
}

/// Reads one to nine digits as a fractional second, in nanoseconds (0 to 999,999,999).
///
/// Digits past the ninth are consumed and ignored.
pub fn nanosecond(s: &str) -> (r: ScanResult<(&str, i64)>)
    ensures
        scanned(s, r, nanosecond_model(s.spec_bytes())),
        r matches Ok((_, v)) ==> 0 <= v < 1_000_000_000,
{
    let ghost b = s.spec_bytes();
    let ghost k = min_of(digit_run(b) as int, 9);
    proof {
        lemma_digit_run_bound(b);
        lemma_nanos_fit(b, k);
    }
    let origlen = s.as_bytes().len();
    let (rest, v) = match number(s, 1, 9) {
        Ok(p) => p,
        Err(e) => return Err(e),
    };
    assert(rest.spec_bytes() == b.skip(k));
    let consumed = origlen - rest.as_bytes().len();
    let v = match v.checked_mul(nano_scale(consumed)) {
        Some(v) => v,
        None => return Err(ScanError::OutOfRange),
    };
    let bytes = s.as_bytes();
    let mut j: usize = consumed;
    while j < bytes.len() && 0x30 <= bytes[j] && bytes[j] <= 0x39
        invariant
            b == bytes@,
            b == s.spec_bytes(),
            consumed <= j <= b.len(),
            forall|i: int| 0 <= i < j ==> is_digit(#[trigger] b[i]),
        decreases b.len() - j,
    {
        j = j + 1;
    }
    proof {
        lemma_digit_run_at_least(b, j as int);
    }
    Ok((skip_ascii(s, j), v))
}

/// Reads exactly `digits` digits as a fractional second, in nanoseconds.
pub fn nanosecond_fixed(s: &str, digits: usize) -> (r: ScanResult<(&str, i64)>)
    requires
        digits <= 9,
    ensures
        scanned(s, r, nanosecond_fixed_model(s.spec_bytes(), digits as int)),
        r matches Ok((_, v)) ==> 0 <= v < 1_000_000_000,
{
    let ghost b = s.spec_bytes();
    proof {
        lemma_digit_run_bound(b);
        if digits <= b.len() && digit_run(b) >= digits {
            lemma_nanos_fit(b, digits as int);
        }
    }
    let (rest, v) = match number(s, digits, digits) {
        Ok(p) => p,
        Err(e) => return Err(e),
    };
    let v = match v.checked_mul(nano_scale(digits)) {
        Some(v) => v,
        None => return Err(ScanError::OutOfRange),
    };
    Ok((rest, v))
}

/// How the count of leading digits decides `number`: with fewer than `min` of them it fails,
/// `TooShort` when the whole input is shorter than `min` and `Invalid` otherwise; with at least
/// `min` it succeeds and reads `min(n, max)` of them. This holds wherever the digits it reads
/// fit in an `i64`; past that it fails with `OutOfRange` first.
pub proof fn number_digit_count_law(b: Seq<u8>, min: int, max: int)
    requires
        0 <= min <= max,
        decimal_value(b.take(min_of(digit_run(b) as int, max))) <= i64::MAX,
    ensures
        digit_run(b) < min && b.len() < min ==> number_model(b, min, max) == Err::<(int, i64), ScanError>(
            ScanError::TooShort,
        ),
        digit_run(b) < min && b.len() >= min ==> number_model(b, min, max) == Err::<(int, i64), ScanError>(
            ScanError::Invalid,
        ),
        digit_run(b) >= min ==> (number_model(b, min, max) matches Ok((k, v)) && k == min_of(
            digit_run(b) as int,
            max,
        ) && v as int == decimal_value(b.take(k))),
{
    lemma_digit_run_bound(b);
    lemma_decimal_value_grows(b, 0, min_of(digit_run(b) as int, max));
}

/// `v` written with exactly `k` decimal digits, most significant first, padded with zeros
/// (only its last `k` digits where it has more).
pub open spec fn decimal_digits(v: int, k: nat) -> Seq<u8>
    decreases k,
{
    if k == 0 {
        seq![]
    } else {
        decimal_digits(v / 10, (k - 1) as nat).push((v % 10 + 0x30) as u8)
    }
}

/// Digits read as a value and written back with as many digits are the same digits.
pub(crate) proof fn lemma_decimal_round_trip(d: Seq<u8>)
    requires
        forall|j: int| 0 <= j < d.len() ==> is_digit(#[trigger] d[j]),
    ensures
        decimal_digits(decimal_value(d), d.len()) == d,
    decreases d.len(),
{
    if d.len() > 0 {
        let t = d.drop_last();
        assert forall|j: int| 0 <= j < t.len() implies is_digit(#[trigger] t[j]) by {
            assert(t[j] == d[j]);
        }
        lemma_decimal_round_trip(t);
        let a = decimal_value(t);
        let r = d.last() - 0x30;
        assert(is_digit(d[d.len() - 1]));
        assert((a * 10 + r) / 10 == a && (a * 10 + r) % 10 == r) by (nonlinear_arith)
            requires
                0 <= r < 10,
        ;
        assert(decimal_digits(decimal_value(d), d.len()) =~= t.push(d.last()));
        assert(t.push(d.last()) =~= d);
    }
}

/// What `number` reads, written back with as many digits as it read, gives the very bytes it
/// consumed.
pub proof fn number_round_trip_law(b: Seq<u8>, min: int, max: int)
    requires
        0 <= min <= max,
        number_model(b, min, max) is Ok,
    ensures
        number_model(b, min, max) matches Ok((k, v)) && decimal_digits(v as int, k as nat)
            == b.take(k),
{
    let k = min_of(digit_run(b) as int, max);
    lemma_digit_run_bound(b);
    lemma_decimal_value_grows(b, 0, k);
    let d = b.take(k);
    assert forall|j: int| 0 <= j < d.len() implies is_digit(#[trigger] d[j]) by {
        assert(d[j] == b[j]);
    }
    lemma_decimal_round_trip(d);
}

proof fn lemma_digits_shift(x: int, n: nat, j: nat)
    requires
        x >= 0,
    ensures
        decimal_digits(x * pow10(j), n + j) == decimal_digits(x, n) + Seq::new(j, |i: int| 0x30u8),
    decreases j,
{
    if j == 0 {
        assert(decimal_digits(x, n) + Seq::new(0, |i: int| 0x30u8) =~= decimal_digits(x, n));
    } else {
        let j1 = (j - 1) as nat;
        lemma_digits_shift(x, n, j1);
        lemma_pow10_add(j1, 0);
        let y = x * pow10(j1);
        assert(x * pow10(j) == y * 10 && (y * 10) / 10 == y && (y * 10) % 10 == 0)
            by (nonlinear_arith)
            requires
                y == x * pow10(j1),
                pow10(j) == 10 * pow10(j1),
        ;
        assert(decimal_digits(x * pow10(j), n + j) == decimal_digits(y, n + j1).push(0x30u8));
        assert(decimal_digits(x, n) + Seq::new(j, |i: int| 0x30u8) =~= (decimal_digits(x, n)
            + Seq::new(j1, |i: int| 0x30u8)).push(0x30u8));
    }
}

/// The fraction that `nanosecond` reads, written back with nine digits, gives the digits it
/// read (the first nine, where there were more) followed by zeros.
pub proof fn nanosecond_round_trip_law(b: Seq<u8>)
    requires
        nanosecond_model(b) is Ok,
    ensures
        nanosecond_model(b) matches Ok((_, v)) && ({
            let k = min_of(digit_run(b) as int, 9);
            decimal_digits(v as int, 9) == b.take(k) + Seq::new((9 - k) as nat, |i: int| 0x30u8)
        }),
{
    let k = min_of(digit_run(b) as int, 9);
    lemma_digit_run_bound(b);
    lemma_nanos_fit(b, k);
    let d = b.take(k);
    assert forall|j: int| 0 <= j < d.len() implies is_digit(#[trigger] d[j]) by {
        assert(d[j] == b[j]);
    }
    lemma_decimal_round_trip(d);
    lemma_decimal_value_grows(b, 0, k);
    lemma_digits_shift(decimal_value(d), k as nat, (9 - k) as nat);
}

} // verus!
