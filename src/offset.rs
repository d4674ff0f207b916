use vstd::prelude::*;
use vstd::string::*;
use crate::error::{ScanError, ScanResult};
use crate::number::{decimal_digits, decimal_value, is_digit, lemma_decimal_round_trip};
use crate::text::{
    ascii_bytes, ascii_lower, char, char_model, colon_taken, consume_colon_maybe, equals,
    lemma_ascii_literal, lemma_or32, lower_bytes, run_of, scanned, scanned_text, skip_ascii,
    skip_run, tail_of,
};

verus! {

/// How the hours and the minutes of a numeric offset are separated.
#[derive(Clone, Copy, Debug, PartialEq, Eq, Structural)]
pub enum Separator {
    /// Nothing stands between them.
    Absent,
    /// A `:` may stand between them.
    Optional,
    /// A `:` must stand between them.
    Required,
}

/// Bytes that `sep` consumes at the start of `b`, or why it fails.
pub open spec fn separator_model(sep: Separator, b: Seq<u8>) -> ScanResult<int> {
    match sep {
        Separator::Absent => Ok(0),
        Separator::Optional => Ok(colon_taken(b)),
        Separator::Required => char_model(b, 0x3a),
    }
}

impl Separator {
    /// Consumes the separator at the start of `s`.
    pub fn consume<'a>(&self, s: &'a str) -> (r: ScanResult<&'a str>)
        ensures
            scanned_text(s, r, separator_model(*self, s.spec_bytes())),
    {
        match self {
            Separator::Absent => {
                assert(s.spec_bytes().skip(0) =~= s.spec_bytes());
                Ok(s)
            },
            Separator::Optional => consume_colon_maybe(s),
            Separator::Required => char(s, 0x3a),
        }
    }
}

/// The value of two decimal digits.
pub open spec fn two_digit_value(x: u8, y: u8) -> int {
    (x - 0x30) * 10 + (y - 0x30)
}

/// An offset in seconds east of UTC, from its sign and its hours and minutes.
pub open spec fn signed_offset(negative: bool, hours: int, minutes: int) -> int {
    if negative {
        -(hours * 3600 + minutes * 60)
    } else {
        hours * 3600 + minutes * 60
    }
}

/// Outcome of a numeric offset `[+-]HH`, the separator, then `MM`: the minutes may be left
/// out altogether, at the very end of the input, where `allow_missing_minutes` holds.
pub open spec fn offset_model(b: Seq<u8>, sep: Separator, allow_missing_minutes: bool) -> ScanResult<
    (int, i32),
> {
    if b.len() == 0 {
        Err(ScanError::TooShort)
    } else if b[0] != '+' as u8 && b[0] != '-' as u8 {
        Err(ScanError::Invalid)
    } else if b.len() < 3 {
        Err(ScanError::TooShort)
    } else if !is_digit(b[1]) || !is_digit(b[2]) {
        Err(ScanError::Invalid)
    } else {
        let negative = b[0] == '-' as u8;
        let hours = two_digit_value(b[1], b[2]);
        match separator_model(sep, b.skip(3)) {
            Err(e) => Err(e),
            Ok(j) => {
                let p = 3 + j;
                let m = b.skip(p);
                if m.len() >= 2 {
                    if 0x30 <= m[0] <= 0x35 && is_digit(m[1]) {
                        Ok((p + 2, signed_offset(negative, hours, two_digit_value(m[0], m[1])) as i32))
                    } else if 0x36 <= m[0] <= 0x39 && is_digit(m[1]) {
                        Err(ScanError::OutOfRange)
                    } else {
                        Err(ScanError::Invalid)
                    }
                } else if allow_missing_minutes && m.len() == 0 {
                    Ok((p, signed_offset(negative, hours, 0) as i32))
                } else {
                    Err(ScanError::TooShort)
                }
            },
        }
    }
}

/// The first two bytes of `s`, or `TooShort`.
fn leading_pair(s: &str) -> (r: ScanResult<(u8, u8)>)
    ensures
        s.spec_bytes().len() < 2 ==> r == Err::<(u8, u8), ScanError>(ScanError::TooShort),
        s.spec_bytes().len() >= 2 ==> r == Ok::<(u8, u8), ScanError>(
            (s.spec_bytes()[0], s.spec_bytes()[1]),
        ),
{
    let b = s.as_bytes();
    if b.len() < 2 {
        Err(ScanError::TooShort)
    } else {
        Ok((b[0], b[1]))
    }
}

/// Reads a numeric offset `[+-]HH`, the separator, then `MM`, as seconds east of UTC;
/// where `allow_missing_minutes` holds, the minutes may be absent at the end of the input.
///
/// Minutes from 60 to 99 are `OutOfRange`.
pub fn timezone_offset_internal(s: &str, sep: Separator, allow_missing_minutes: bool) -> (r:
    ScanResult<(&str, i32)>)
    ensures
        scanned(s, r, offset_model(s.spec_bytes(), sep, allow_missing_minutes)),
{
    let ghost b = s.spec_bytes();
    let bytes = s.as_bytes();
    if bytes.len() == 0 {
        return Err(ScanError::TooShort);
    }
    let negative = if bytes[0] == '+' as u8 {
        false
    } else if bytes[0] == '-' as u8 {
        true
    } else {
        return Err(ScanError::Invalid);
    };
    let s1 = skip_ascii(s, 1);
    let (h1, h2) = match leading_pair(s1) {
        Ok(p) => p,
        Err(e) => return Err(e),
    };
    if !(0x30 <= h1 && h1 <= 0x39 && 0x30 <= h2 && h2 <= 0x39) {
        return Err(ScanError::Invalid);
    }
    let hours: i32 = ((h1 - 0x30) * 10 + (h2 - 0x30)) as i32;
    let s2 = skip_ascii(s1, 2);
    assert(s2.spec_bytes() =~= b.skip(3));
    let s3 = match sep.consume(s2) {
        Ok(t) => t,
        Err(e) => return Err(e),
    };
    let ghost p = 3 + b.len() - 3 - s3.spec_bytes().len();
    assert(s3.spec_bytes() =~= b.skip(p));
    let minutes: i32 = match leading_pair(s3) {
        Ok((m1, m2)) => {
            if 0x30 <= m1 && m1 <= 0x35 && 0x30 <= m2 && m2 <= 0x39 {
                ((m1 - 0x30) * 10 + (m2 - 0x30)) as i32
            } else if 0x36 <= m1 && m1 <= 0x39 && 0x30 <= m2 && m2 <= 0x39 {
                return Err(ScanError::OutOfRange);
            } else {
                return Err(ScanError::Invalid);
            }
        },
        Err(_) => {
            if allow_missing_minutes {
                0
            } else {
                return Err(ScanError::TooShort);
            }
        },
    };
    let b3 = s3.as_bytes();
    let s4 = if b3.len() >= 2 {
        skip_ascii(s3, 2)
    } else if b3.len() == 0 {
        s3
    } else {
        return Err(ScanError::TooShort);
    };
    assert(s4.spec_bytes() =~= b.skip(b.len() - s4.spec_bytes().len()));
    let seconds = hours * 3600 + minutes * 60;
    Ok((s4, if negative { -seconds } else { seconds }))
}

/// Reads a numeric offset `[+-]HH`, the separator, then `MM`, as seconds east of UTC.
pub fn timezone_offset(s: &str, sep: Separator) -> (r: ScanResult<(&str, i32)>)
    ensures
        scanned(s, r, offset_model(s.spec_bytes(), sep, false)),
{
    timezone_offset_internal(s, sep, false)
}

/// `b` starts with `z` or `Z`.
pub open spec fn starts_zulu(b: Seq<u8>) -> bool {
    b.len() > 0 && ascii_lower(b[0]) == 'z' as u8
}

/// Outcome of the offsets that take a Zulu form: `Z` or `UTC` (any case) is offset zero;
/// anything else that starts with `u` or `U` is `Invalid`; the rest is a numeric offset, whose
/// minutes may be absent at the end of the input where `allow_missing_minutes` holds.
pub open spec fn zulu_model(b: Seq<u8>, sep: Separator, allow_missing_minutes: bool) -> ScanResult<
    (int, i32),
> {
    if starts_zulu(b) {
        Ok((1, 0))
    } else if b.len() > 0 && ascii_lower(b[0]) == 'u' as u8 {
        if b.len() >= 3 && ascii_lower(b[1]) == 't' as u8 && ascii_lower(b[2]) == 'c' as u8 {
            Ok((3, 0))
        } else {
            Err(ScanError::Invalid)
        }
    } else {
        offset_model(b, sep, allow_missing_minutes)
    }
}

/// Reads `Z`, `UTC` (in any case) or a numeric offset, as seconds east of UTC.
fn zulu_or_offset(s: &str, sep: Separator, allow_missing_minutes: bool) -> (r: ScanResult<
    (&str, i32),
>)
    ensures
        scanned(s, r, zulu_model(s.spec_bytes(), sep, allow_missing_minutes)),
{
    let bytes = s.as_bytes();
    if bytes.len() > 0 && (bytes[0] == 'z' as u8 || bytes[0] == 'Z' as u8) {
        Ok((skip_ascii(s, 1), 0))
    } else if bytes.len() > 0 && (bytes[0] == 'u' as u8 || bytes[0] == 'U' as u8) {
        if bytes.len() >= 3 {
            proof {
                lemma_or32(bytes[1], 't' as u8);
                lemma_or32(bytes[2], 'c' as u8);
            }
            if bytes[1] | 0x20 == 't' as u8 && bytes[2] | 0x20 == 'c' as u8 {
                Ok((skip_ascii(s, 3), 0))
            } else {
                Err(ScanError::Invalid)
            }
        } else {
            Err(ScanError::Invalid)
        }
    } else {
        timezone_offset_internal(s, sep, allow_missing_minutes)
    }
}

/// Reads `Z`, `UTC` (in any case) or a numeric offset, as seconds east of UTC.
pub fn timezone_offset_zulu(s: &str, sep: Separator) -> (r: ScanResult<(&str, i32)>)
    ensures
        scanned(s, r, zulu_model(s.spec_bytes(), sep, false)),
{
    zulu_or_offset(s, sep, false)
}

/// Reads `Z`, `UTC` (in any case) or a numeric offset whose minutes may be absent at the end
/// of the input, as seconds east of UTC.
pub fn timezone_offset_permissive(s: &str, sep: Separator) -> (r: ScanResult<(&str, i32)>)
    ensures
        scanned(s, r, zulu_model(s.spec_bytes(), sep, true)),
{
    zulu_or_offset(s, sep, true)
}

/// Consumes every character up to the first white space. Never fails, and decodes nothing.
pub fn timezone_name_skip(s: &str) -> (r: ScanResult<(&str, ())>)
    ensures
        r matches Ok((rest, _)) && rest@ == s@.skip(run_of(s@, false) as int) && tail_of(rest, s),
{
    Ok((skip_run(s, false), ()))
}

/// An ASCII letter.
pub open spec fn is_letter(c: u8) -> bool {
    0x41 <= c <= 0x5a || 0x61 <= c <= 0x7a
}

/// The length of the longest prefix of `b` made of ASCII letters.
pub open spec fn letter_run(b: Seq<u8>) -> nat
    decreases b.len(),
{
    if b.len() > 0 && is_letter(b[0]) {
        1 + letter_run(b.drop_first())
    } else {
        0
    }
}

proof fn lemma_letter_run(b: Seq<u8>, i: int)
    requires
        0 <= i <= b.len(),
        forall|j: int| 0 <= j < i ==> is_letter(#[trigger] b[j]),
        i == b.len() || !is_letter(b[i]),
    ensures
        letter_run(b) == i,
    decreases i,
{
    if i > 0 {
        let t = b.drop_first();
        assert forall|j: int| 0 <= j < i - 1 implies is_letter(#[trigger] t[j]) by {
            assert(t[j] == b[j + 1]);
        }
        if i < b.len() {
            assert(t[i - 1] == b[i]);
        }
        lemma_letter_run(t, i - 1);
    }
}

/// The offset in hours of a legacy zone name of RFC 2822, given in lower case: the named
/// North American zones, `gmt` and `ut`, and the single military letters but `j`, which
/// count as zero. Other names have none.
pub open spec fn legacy_zone_hours(name: Seq<u8>) -> Option<int> {
    if name == ascii_bytes(seq!['g', 'm', 't']) || name == ascii_bytes(seq!['u', 't']) {
        Some(0)
    } else if name == ascii_bytes(seq!['e', 'd', 't']) {
        Some(-4)
    } else if name == ascii_bytes(seq!['e', 's', 't']) || name == ascii_bytes(seq!['c', 'd', 't']) {
        Some(-5)
    } else if name == ascii_bytes(seq!['c', 's', 't']) || name == ascii_bytes(seq!['m', 'd', 't']) {
        Some(-6)
    } else if name == ascii_bytes(seq!['m', 's', 't']) || name == ascii_bytes(seq!['p', 'd', 't']) {
        Some(-7)
    } else if name == ascii_bytes(seq!['p', 's', 't']) {
        Some(-8)
    } else if name.len() == 1 && name[0] != 'j' as u8 {
        Some(0)
    } else {
        None
    }
}

/// Outcome of `timezone_offset_2822`: a leading run of letters is a zone name, consumed
/// whole, with the offset that `legacy_zone_hours` gives it; without letters, a numeric
/// offset with nothing between hours and minutes.
pub open spec fn offset_2822_model(b: Seq<u8>) -> ScanResult<(int, Option<i32>)> {
    let n = letter_run(b);
    if n > 0 {
        match legacy_zone_hours(lower_bytes(b.take(n as int))) {
            Some(h) => Ok((n as int, Some((h * 3600) as i32))),
            None => Ok((n as int, None)),
        }
    } else {
        match offset_model(b, Separator::Absent, false) {
            Ok((k, v)) => Ok((k, Some(v))),
            Err(e) => Err(e),
        }
    }
}

proof fn lemma_zone_literals()
    ensures
        "gmt".spec_bytes() == ascii_bytes(seq!['g', 'm', 't']),
        "ut".spec_bytes() == ascii_bytes(seq!['u', 't']),
        "edt".spec_bytes() == ascii_bytes(seq!['e', 'd', 't']),
        "est".spec_bytes() == ascii_bytes(seq!['e', 's', 't']),
        "cdt".spec_bytes() == ascii_bytes(seq!['c', 'd', 't']),
        "cst".spec_bytes() == ascii_bytes(seq!['c', 's', 't']),
        "mdt".spec_bytes() == ascii_bytes(seq!['m', 'd', 't']),
        "mst".spec_bytes() == ascii_bytes(seq!['m', 's', 't']),
        "pdt".spec_bytes() == ascii_bytes(seq!['p', 'd', 't']),
        "pst".spec_bytes() == ascii_bytes(seq!['p', 's', 't']),
{
    reveal_strlit("gmt");
    reveal_strlit("ut");
    reveal_strlit("edt");
    reveal_strlit("est");
    reveal_strlit("cdt");
    reveal_strlit("cst");
    reveal_strlit("mdt");
    reveal_strlit("mst");
    reveal_strlit("pdt");
    reveal_strlit("pst");
    assert("gmt"@ =~= seq!['g', 'm', 't']);
    lemma_ascii_literal("gmt", seq!['g', 'm', 't']);
    assert("ut"@ =~= seq!['u', 't']);
    lemma_ascii_literal("ut", seq!['u', 't']);
    assert("edt"@ =~= seq!['e', 'd', 't']);
    lemma_ascii_literal("edt", seq!['e', 'd', 't']);
    assert("est"@ =~= seq!['e', 's', 't']);
    lemma_ascii_literal("est", seq!['e', 's', 't']);
    assert("cdt"@ =~= seq!['c', 'd', 't']);
    lemma_ascii_literal("cdt", seq!['c', 'd', 't']);
    assert("cst"@ =~= seq!['c', 's', 't']);
    lemma_ascii_literal("cst", seq!['c', 's', 't']);
    assert("mdt"@ =~= seq!['m', 'd', 't']);
    lemma_ascii_literal("mdt", seq!['m', 'd', 't']);
    assert("mst"@ =~= seq!['m', 's', 't']);
    lemma_ascii_literal("mst", seq!['m', 's', 't']);
    assert("pdt"@ =~= seq!['p', 'd', 't']);
    lemma_ascii_literal("pdt", seq!['p', 'd', 't']);
    assert("pst"@ =~= seq!['p', 's', 't']);
    lemma_ascii_literal("pst", seq!['p', 's', 't']);
}

/// Reads an offset as RFC 2822 writes it: a legacy zone name or a numeric offset `[+-]HHMM`.
/// A name whose offset is unknown is consumed and gives `None`.
pub fn timezone_offset_2822(s: &str) -> (r: ScanResult<(&str, Option<i32>)>)
    ensures
        scanned(s, r, offset_2822_model(s.spec_bytes())),
{
    let ghost b = s.spec_bytes();
    let bytes = s.as_bytes();
    let mut upto: usize = 0;
    while upto < bytes.len() && (0x41 <= bytes[upto] && bytes[upto] <= 0x5a || 0x61 <= bytes[upto]
        && bytes[upto] <= 0x7a)
        invariant
            b == bytes@,
            upto <= b.len(),
            forall|j: int| 0 <= j < upto ==> is_letter(#[trigger] b[j]),
        decreases b.len() - upto,
    {
        upto = upto + 1;
    }
    proof {
        lemma_letter_run(b, upto as int);
    }
    if upto > 0 {
        let (name, _) = bytes.split_at(upto);
        let rest = skip_ascii(s, upto);
        proof {
            lemma_zone_literals();
            assert(name@ == b.take(upto as int));
        }
        let hours: Option<i32> = if equals(name, "gmt") || equals(name, "ut") {
            Some(0)
        } else if equals(name, "edt") {
            Some(-4)
        } else if equals(name, "est") || equals(name, "cdt") {
            Some(-5)
        } else if equals(name, "cst") || equals(name, "mdt") {
            Some(-6)
        } else if equals(name, "mst") || equals(name, "pdt") {
            Some(-7)
        } else if equals(name, "pst") {
            Some(-8)
        } else if upto == 1 {
            let c = name[0];
            proof {
                assert(lower_bytes(name@)[0] == ascii_lower(c));
            }
            if 'a' as u8 <= c && c <= 'i' as u8 || 'k' as u8 <= c && c <= 'z' as u8 || 'A' as u8
                <= c && c <= 'I' as u8 || 'K' as u8 <= c && c <= 'Z' as u8 {
                Some(0)
            } else {
                None
            }
        } else {
            None
        };
        match hours {
            Some(h) => Ok((rest, Some(h * 3600))),
            None => Ok((rest, None)),
        }
    } else {
        match timezone_offset(s, Separator::Absent) {
            Ok((rest, offset)) => Ok((rest, Some(offset))),
            Err(e) => Err(e),
        }
    }
}

/// The absolute value of `v`.
pub open spec fn abs(v: int) -> int {
    if v < 0 {
        -v
    } else {
        v
    }
}

proof fn lemma_two_digits(x: u8, y: u8)
    requires
        is_digit(x),
        is_digit(y),
    ensures
        decimal_digits(two_digit_value(x, y), 2) == seq![x, y],
        0 <= two_digit_value(x, y) <= 99,
{
    let d = seq![x, y];
    assert(d.drop_last().drop_last() =~= Seq::<u8>::empty());
    assert(d.drop_last() =~= seq![x]);
    reveal_with_fuel(decimal_value, 3);
    assert(decimal_value(seq![x]) == x - 0x30);
    assert(decimal_value(d) == two_digit_value(x, y));
    lemma_decimal_round_trip(d);
}

/// A numeric offset written back in the form it was read in gives the bytes that were read:
/// the sign (of a non-zero offset), two digits of hours, and two digits of minutes, or no
/// minutes where none were read and the offset is whole hours.
pub proof fn offset_round_trip_law(b: Seq<u8>, sep: Separator, allow_missing_minutes: bool)
    requires
        offset_model(b, sep, allow_missing_minutes) is Ok,
    ensures
        offset_model(b, sep, allow_missing_minutes) matches Ok((k, v)) && separator_model(
            sep,
            b.skip(3),
        ) matches Ok(j) && {
            let a = abs(v as int);
            &&& v < 0 ==> b[0] == '-' as u8
            &&& v > 0 ==> b[0] == '+' as u8
            &&& a % 60 == 0
            &&& b.subrange(1, 3) == decimal_digits(a / 3600, 2)
            &&& (k == 3 + j + 2 ==> b.subrange(3 + j, k) == decimal_digits(a / 60 % 60, 2))
            &&& (k == 3 + j ==> a / 60 % 60 == 0)
            &&& (k == 3 + j + 2 || k == 3 + j)
        },
{
    let h = two_digit_value(b[1], b[2]);
    lemma_two_digits(b[1], b[2]);
    assert(b.subrange(1, 3) =~= seq![b[1], b[2]]);
    let j = separator_model(sep, b.skip(3))->Ok_0;
    let p = 3 + j;
    let m = b.skip(p);
    if m.len() >= 2 {
        let mi = two_digit_value(m[0], m[1]);
        lemma_two_digits(m[0], m[1]);
        assert(b.subrange(p, p + 2) =~= seq![m[0], m[1]]);
        let a = h * 3600 + mi * 60;
        assert(a % 60 == 0 && a / 3600 == h && a / 60 % 60 == mi) by (nonlinear_arith)
            requires
                a == h * 3600 + mi * 60,
                0 <= h <= 99,
                0 <= mi < 60,
        ;
    } else {
        let a = h * 3600;
        assert(a % 60 == 0 && a / 3600 == h && a / 60 % 60 == 0) by (nonlinear_arith)
            requires
                a == h * 3600,
                0 <= h <= 99,
        ;
    }
}

} // verus!
