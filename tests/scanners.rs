use datescan::ScanError::{Invalid, OutOfRange, TooShort};
use datescan::{
    char, comment_2822, consume_colon_maybe, equals, nanosecond, nanosecond_fixed, number,
    s_next, short_month0, short_or_long_month0, short_or_long_weekday, short_weekday, space,
    timezone_name_skip, timezone_offset, timezone_offset_2822, timezone_offset_internal,
    timezone_offset_permissive, timezone_offset_zulu, trim1, Separator, Weekday,
};

#[test]
fn number_reads_between_min_and_max_digits() {
    assert_eq!(number("12345", 1, 3), Ok(("45", 123)));
    assert_eq!(number("12x", 1, 3), Ok(("x", 12)));
    assert_eq!(number("007", 3, 3), Ok(("", 7)));
    assert_eq!(number("", 0, 2), Ok(("", 0)));
    assert_eq!(number("x", 0, 2), Ok(("x", 0)));
}

#[test]
fn number_fails_by_count_of_digits() {
    assert_eq!(number("1", 2, 4), Err(TooShort));
    assert_eq!(number("1x", 2, 4), Err(Invalid));
    assert_eq!(number("x123", 1, 4), Err(Invalid));
    assert_eq!(number("", 1, 1), Err(TooShort));
}

#[test]
fn number_overflow_is_out_of_range() {
    assert_eq!(number("9223372036854775807", 1, 19), Ok(("", i64::MAX)));
    assert_eq!(number("9223372036854775808", 1, 19), Err(OutOfRange));
    assert_eq!(number("99999999999999999999x", 21, 21), Err(OutOfRange));
    assert_eq!(number("99999999999999999999", 1, 30), Err(OutOfRange));
}

#[test]
fn number_stops_before_multibyte_character() {
    assert_eq!(number("42é", 1, 5), Ok(("é", 42)));
}

#[test]
fn nanosecond_scales_and_skips_extra_digits() {
    assert_eq!(nanosecond("123"), Ok(("", 123_000_000)));
    assert_eq!(nanosecond("123456789"), Ok(("", 123_456_789)));
    assert_eq!(nanosecond("1234567891234x"), Ok(("x", 123_456_789)));
    assert_eq!(nanosecond("000000001"), Ok(("", 1)));
    assert_eq!(nanosecond(""), Err(TooShort));
    assert_eq!(nanosecond("x1"), Err(Invalid));
}

#[test]
fn nanosecond_fixed_needs_exact_count() {
    assert_eq!(nanosecond_fixed("123456", 3), Ok(("456", 123_000_000)));
    assert_eq!(nanosecond_fixed("999999999", 9), Ok(("", 999_999_999)));
    assert_eq!(nanosecond_fixed("12", 3), Err(TooShort));
    assert_eq!(nanosecond_fixed("12x", 3), Err(Invalid));
}

#[test]
fn short_names_and_errors() {
    assert_eq!(short_month0("DECember"), Ok(("ember", 11)));
    assert_eq!(short_month0("Ja"), Err(TooShort));
    assert_eq!(short_month0("Jax"), Err(Invalid));
    assert_eq!(short_month0("J@N"), Err(Invalid));
    assert_eq!(short_weekday("wEDx"), Ok(("x", Weekday::Wed)));
    assert_eq!(short_weekday("su"), Err(TooShort));
    assert_eq!(short_weekday("sux"), Err(Invalid));
}

#[test]
fn long_names_are_preferred() {
    assert_eq!(short_or_long_month0("SEPTEMBER 1"), Ok((" 1", 8)));
    assert_eq!(short_or_long_month0("Apr?"), Ok(("?", 3)));
    assert_eq!(short_or_long_month0("Febru"), Ok(("ru", 1)));
    assert_eq!(short_or_long_month0("xyz"), Err(Invalid));
    assert_eq!(short_or_long_weekday("wednesday,"), Ok((",", Weekday::Wed)));
    assert_eq!(short_or_long_weekday("Sun"), Ok(("", Weekday::Sun)));
    assert_eq!(short_or_long_weekday("Tu"), Err(TooShort));
    assert_eq!(Weekday::Sun.num_days_from_monday(), 6);
}

#[test]
fn char_consumes_one_byte() {
    assert_eq!(char(":x", b':'), Ok("x"));
    assert_eq!(char("x", b':'), Err(Invalid));
    assert_eq!(char("", b':'), Err(TooShort));
}

#[test]
fn space_handles_unicode_white_space() {
    assert_eq!(space("\u{3000}\u{a0} x"), Ok("x"));
    assert_eq!(trim1("\u{2003}a"), "a");
}

#[test]
fn colon_is_consumed_once() {
    let once = consume_colon_maybe(":: x").unwrap();
    assert_eq!(once, ": x");
    assert_eq!(consume_colon_maybe(once), Ok(" x"));
    let once = consume_colon_maybe(": :x").unwrap();
    assert_eq!(consume_colon_maybe(once), Ok(" :x"));
}

#[test]
fn numeric_offsets() {
    assert_eq!(timezone_offset("+0530", Separator::Absent), Ok(("", 19800)));
    assert_eq!(timezone_offset("-05:30x", Separator::Optional), Ok(("x", -19800)));
    assert_eq!(timezone_offset("-0530", Separator::Optional), Ok(("", -19800)));
    assert_eq!(timezone_offset("+05:30", Separator::Required), Ok(("", 19800)));
    assert_eq!(timezone_offset("+0530", Separator::Required), Err(Invalid));
    assert_eq!(timezone_offset("+99:59", Separator::Optional), Ok(("", 359940)));
    assert_eq!(timezone_offset("+0560", Separator::Absent), Err(OutOfRange));
    assert_eq!(timezone_offset("+0590", Separator::Absent), Err(OutOfRange));
    assert_eq!(timezone_offset("+05", Separator::Absent), Err(TooShort));
    assert_eq!(timezone_offset("+0", Separator::Absent), Err(TooShort));
    assert_eq!(timezone_offset("", Separator::Absent), Err(TooShort));
    assert_eq!(timezone_offset("05", Separator::Absent), Err(Invalid));
    assert_eq!(timezone_offset("+a5", Separator::Absent), Err(Invalid));
    assert_eq!(timezone_offset("+05x0", Separator::Absent), Err(Invalid));
}

#[test]
fn offsets_with_missing_minutes() {
    assert_eq!(timezone_offset_internal("+05", Separator::Absent, true), Ok(("", 18000)));
    assert_eq!(timezone_offset_internal("+051", Separator::Absent, true), Err(TooShort));
    assert_eq!(timezone_offset_permissive("-03", Separator::Optional), Ok(("", -10800)));
    assert_eq!(timezone_offset_permissive("z", Separator::Optional), Ok(("", 0)));
    assert_eq!(timezone_offset_permissive("+03:3", Separator::Optional), Err(TooShort));
    assert_eq!(timezone_offset_permissive("uTc", Separator::Optional), Ok(("", 0)));
    assert_eq!(timezone_offset_permissive("UTC+01", Separator::Optional), Ok(("+01", 0)));
    assert_eq!(timezone_offset_permissive("Ux", Separator::Optional), Err(Invalid));
}

#[test]
fn zulu_and_utc() {
    assert_eq!(timezone_offset_zulu("Z", Separator::Absent), Ok(("", 0)));
    assert_eq!(timezone_offset_zulu("uTc+1", Separator::Absent), Ok(("+1", 0)));
    assert_eq!(timezone_offset_zulu("ut", Separator::Absent), Err(Invalid));
    assert_eq!(timezone_offset_zulu("uxc", Separator::Absent), Err(Invalid));
    assert_eq!(timezone_offset_zulu("+01:00", Separator::Required), Ok(("", 3600)));
}

#[test]
fn legacy_zone_names() {
    assert_eq!(timezone_offset_2822("GMT x"), Ok((" x", Some(0))));
    assert_eq!(timezone_offset_2822("ut"), Ok(("", Some(0))));
    assert_eq!(timezone_offset_2822("EDT"), Ok(("", Some(-14400))));
    assert_eq!(timezone_offset_2822("cdt"), Ok(("", Some(-18000))));
    assert_eq!(timezone_offset_2822("pdt"), Ok(("", Some(-25200))));
    assert_eq!(timezone_offset_2822("a"), Ok(("", Some(0))));
    assert_eq!(timezone_offset_2822("Z1"), Ok(("1", Some(0))));
    assert_eq!(timezone_offset_2822("J"), Ok(("", None)));
    assert_eq!(timezone_offset_2822("zulu"), Ok(("", None)));
    assert_eq!(timezone_offset_2822("+0000"), Ok(("", Some(0))));
    assert_eq!(timezone_offset_2822("+00:00"), Err(Invalid));
    assert_eq!(timezone_offset_2822(""), Err(TooShort));
}

#[test]
fn name_skip_stops_at_white_space() {
    assert_eq!(timezone_name_skip("Europe/Paris rest"), Ok((" rest", ())));
    assert_eq!(timezone_name_skip("ABCé"), Ok(("", ())));
}

#[test]
fn comments_nest_and_escape() {
    assert_eq!(comment_2822("(a(b)c) rest"), Ok((" rest", ())));
    assert_eq!(comment_2822("((x)"), Err(TooShort));
    assert_eq!(comment_2822(r"(\"), Err(TooShort));
    assert_eq!(comment_2822("  (é)x"), Ok(("x", ())));
}

#[test]
fn nanosecond_reads_single_digit_before_letter() {
    assert_eq!(nanosecond("2X"), Ok(("X", 200_000_000)));
}

#[test]
fn number_written_back_gives_its_digits() {
    let (rest, v) = number("0042:", 4, 4).unwrap();
    assert_eq!(rest, ":");
    assert_eq!(format!("{:04}", v), "0042");
    let (_, v) = nanosecond("05").unwrap();
    assert_eq!(format!("{:09}", v), "050000000");
}

#[test]
fn offset_written_back_gives_its_text() {
    for text in ["-05:30", "+14:00", "+00:45", "-23:59"] {
        let (rest, v) = timezone_offset(text, Separator::Required).unwrap();
        assert_eq!(rest, "");
        let a = v.abs();
        let sign = if v < 0 { '-' } else { '+' };
        assert_eq!(format!("{}{:02}:{:02}", sign, a / 3600, a / 60 % 60), text);
    }
}

#[test]
fn remainder_is_never_longer_than_input() {
    let inputs = ["", " ", ":", "12ab", "(x) y", "Jan", "+0100", "\u{3000}x", "z", "GMT+1"];
    for s in inputs {
        if let Ok(r) = consume_colon_maybe(s) {
            assert!(r.len() <= s.len() && s.ends_with(r));
        }
        if let Ok((r, _)) = number(s, 0, 3) {
            assert!(s.ends_with(r));
        }
        if let Ok((r, _)) = comment_2822(s) {
            assert!(s.ends_with(r));
        }
        if let Ok((r, _)) = timezone_offset_2822(s) {
            assert!(s.ends_with(r));
        }
        assert!(s.ends_with(s_next(s)));
        assert!(s.ends_with(trim1(s)));
    }
}

#[test]
fn equals_lowers_only_ascii_capitals() {
    assert!(equals(b"MaRcH", "march"));
    assert!(!equals(b"mar", "march"));
    assert!(!equals(b"\xc3\x89", "\u{e9}"));
}
