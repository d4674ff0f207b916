use datescan::ScanError::{Invalid, TooShort};
use datescan::{
    comment_2822, consume_colon_maybe, equals, nanosecond, nanosecond_fixed, s_next,
    short_or_long_month0, short_or_long_weekday, space, timezone_name_skip, timezone_offset_2822,
    trim1, Weekday,
};

#[test]
fn test_rfc2822_comments() {
    let testdata = [
        ("", Err(TooShort)),
        (" ", Err(TooShort)),
        ("x", Err(Invalid)),
        ("(", Err(TooShort)),
        ("()", Ok("")),
        (" \r\n\t()", Ok("")),
        ("() ", Ok(" ")),
        ("()z", Ok("z")),
        ("(x)", Ok("")),
        ("(())", Ok("")),
        ("((()))", Ok("")),
        ("(x(x(x)x)x)", Ok("")),
        ("( x ( x ( x ) x ) x )", Ok("")),
        (r"(\)", Err(TooShort)),
        (r"(\()", Ok("")),
        (r"(\))", Ok("")),
        (r"(\\)", Ok("")),
        ("(()())", Ok("")),
        ("( x ( x ) x ( x ) x )", Ok("")),
    ];

    for (test_in, expected) in testdata.iter() {
        let actual = comment_2822(test_in).map(|(s, _)| s);
        assert_eq!(
            *expected, actual,
            "{:?} expected to produce {:?}, but produced {:?}.",
            test_in, expected, actual
        );
    }
}

#[test]
fn test_space() {
    assert_eq!(space(""), Err(TooShort));
    assert_eq!(space(" "), Ok(""));
    assert_eq!(space(" \t"), Ok(""));
    assert_eq!(space(" \ta"), Ok("a"));
    assert_eq!(space(" \ta "), Ok("a "));
    assert_eq!(space("a"), Err(Invalid));
    assert_eq!(space("a "), Err(Invalid));
}

#[test]
fn test_timezone_name_skip() {
    assert!(timezone_name_skip("\r").is_ok());
}

#[test]
fn test_timezone_offset_2822() {
    assert_eq!(timezone_offset_2822("cSt").unwrap(), ("", Some(-21600)));
    assert_eq!(timezone_offset_2822("pSt").unwrap(), ("", Some(-28800)));
    assert_eq!(timezone_offset_2822("mSt").unwrap(), ("", Some(-25200)));
    assert_eq!(timezone_offset_2822("-1551").unwrap(), ("", Some(-57060)));
    assert_eq!(timezone_offset_2822("Gp").unwrap(), ("", None));
}

#[test]
fn test_short_or_long_month0() {
    assert_eq!(short_or_long_month0("JUn").unwrap(), ("", 5));
    assert_eq!(short_or_long_month0("mAy").unwrap(), ("", 4));
    assert_eq!(short_or_long_month0("AuG").unwrap(), ("", 7));
    assert_eq!(short_or_long_month0("Aprâ").unwrap(), ("â", 3));
    assert_eq!(short_or_long_month0("JUl").unwrap(), ("", 6));
    assert_eq!(short_or_long_month0("mAr").unwrap(), ("", 2));
    assert_eq!(short_or_long_month0("Jan").unwrap(), ("", 0));
}

#[test]
fn test_short_or_long_weekday() {
    assert_eq!(short_or_long_weekday("sAtu").unwrap(), ("u", Weekday::Sat));
    assert_eq!(short_or_long_weekday("thu").unwrap(), ("", Weekday::Thu));
}

#[test]
fn test_nanosecond_fixed() {
    assert_eq!(nanosecond_fixed("", 0usize).unwrap(), ("", 0));
    assert!(nanosecond_fixed("", 1usize).is_err());
}

#[test]
fn test_nanosecond() {
    assert_eq!(nanosecond("2Ù").unwrap(), ("Ù", 200000000));
    assert_eq!(nanosecond("8").unwrap(), ("", 800000000));
}

#[test]
fn test_equals() {
    assert!(equals(b"\x5b", "["));
    assert!(!equals(b"\x0a\x5b\x4b", "[K"));
    assert!(!equals(b"\x00", ""));
}

#[test]
fn test_s_next() {
    assert_eq!(s_next(""), "");
    assert_eq!(s_next(" "), "");
    assert_eq!(s_next("a"), "");
    assert_eq!(s_next("ab"), "b");
    assert_eq!(s_next("abc"), "bc");
    assert_eq!(s_next("😾b"), "b");
    assert_eq!(s_next("a😾"), "😾");
    assert_eq!(s_next("😾bc"), "bc");
    assert_eq!(s_next("a😾c"), "😾c");
}

#[test]
fn test_trim1() {
    assert_eq!(trim1(""), "");
    assert_eq!(trim1(" "), "");
    assert_eq!(trim1("\t"), "");
    assert_eq!(trim1("\t\t"), "\t");
    assert_eq!(trim1("  "), " ");
    assert_eq!(trim1("a"), "a");
    assert_eq!(trim1("a "), "a ");
    assert_eq!(trim1("ab"), "ab");
    assert_eq!(trim1("😼"), "😼");
    assert_eq!(trim1("😼b"), "😼b");
}

#[test]
fn test_consume_colon_maybe() {
    assert_eq!(consume_colon_maybe(""), Ok(""));
    assert_eq!(consume_colon_maybe(" "), Ok(" "));
    assert_eq!(consume_colon_maybe("\n"), Ok("\n"));
    assert_eq!(consume_colon_maybe("  "), Ok("  "));
    assert_eq!(consume_colon_maybe(":"), Ok(""));
    assert_eq!(consume_colon_maybe(" :"), Ok(" :"));
    assert_eq!(consume_colon_maybe(": "), Ok(" "));
    assert_eq!(consume_colon_maybe(" : "), Ok(" : "));
    assert_eq!(consume_colon_maybe(":  "), Ok("  "));
    assert_eq!(consume_colon_maybe("  :"), Ok("  :"));
    assert_eq!(consume_colon_maybe(":: "), Ok(": "));
    assert_eq!(consume_colon_maybe("😸"), Ok("😸"));
    assert_eq!(consume_colon_maybe("😸😸"), Ok("😸😸"));
    assert_eq!(consume_colon_maybe("😸:"), Ok("😸:"));
    assert_eq!(consume_colon_maybe("😸 "), Ok("😸 "));
    assert_eq!(consume_colon_maybe(":😸"), Ok("😸"));
    assert_eq!(consume_colon_maybe(":😸 "), Ok("😸 "));
    assert_eq!(consume_colon_maybe(": 😸"), Ok(" 😸"));
    assert_eq!(consume_colon_maybe(":  😸"), Ok("  😸"));
    assert_eq!(consume_colon_maybe(": :😸"), Ok(" :😸"));
}
