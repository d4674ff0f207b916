use vstd::prelude::*;
use vstd::string::*;
use vstd::utf8::*;
use crate::error::{ScanError, ScanResult};
use crate::text::{
    ascii_bytes, cut_at, equals, lemma_ascii_literal, lemma_or32, lower_bytes,
    skip_ascii,
};

verus! {

broadcast use vstd::utf8::group_utf8_lib;

/// A day of the week.
#[derive(Clone, Copy, Debug, PartialEq, Eq, Structural)]
pub enum Weekday {
    Mon,
    Tue,
    Wed,
    Thu,
    Fri,
    Sat,
    Sun,
}

impl Weekday {
    /// Days since Monday: 0 for Monday up to 6 for Sunday.
    pub open spec fn days_from_monday(self) -> nat {
        match self {
            Weekday::Mon => 0,
            Weekday::Tue => 1,
            Weekday::Wed => 2,
            Weekday::Thu => 3,
            Weekday::Fri => 4,
            Weekday::Sat => 5,
            Weekday::Sun => 6,
        }
    }

    /// Days since Monday: 0 for Monday up to 6 for Sunday.
    pub fn num_days_from_monday(&self) -> (r: u32)
        ensures
            r == self.days_from_monday(),
    {
        match self {
            Weekday::Mon => 0,
            Weekday::Tue => 1,
            Weekday::Wed => 2,
            Weekday::Thu => 3,
            Weekday::Fri => 4,
            Weekday::Sat => 5,
            Weekday::Sun => 6,
        }
    }
}

/// The English name of month `m` (0 for January), in lower case.
pub open spec fn month_name(m: int) -> Seq<char> {
    if m == 0 {
        seq!['j', 'a', 'n', 'u', 'a', 'r', 'y']
    } else if m == 1 {
        seq!['f', 'e', 'b', 'r', 'u', 'a', 'r', 'y']
    } else if m == 2 {
        seq!['m', 'a', 'r', 'c', 'h']
    } else if m == 3 {
        seq!['a', 'p', 'r', 'i', 'l']
    } else if m == 4 {
        seq!['m', 'a', 'y']
    } else if m == 5 {
        seq!['j', 'u', 'n', 'e']
    } else if m == 6 {
        seq!['j', 'u', 'l', 'y']
    } else if m == 7 {
        seq!['a', 'u', 'g', 'u', 's', 't']
    } else if m == 8 {
        seq!['s', 'e', 'p', 't', 'e', 'm', 'b', 'e', 'r']
    } else if m == 9 {
        seq!['o', 'c', 't', 'o', 'b', 'e', 'r']
    } else if m == 10 {
        seq!['n', 'o', 'v', 'e', 'm', 'b', 'e', 'r']
    } else {
        seq!['d', 'e', 'c', 'e', 'm', 'b', 'e', 'r']
    }
}

/// The English name of a weekday, in lower case.
pub open spec fn weekday_name(w: Weekday) -> Seq<char> {
    match w {
        Weekday::Mon => seq!['m', 'o', 'n', 'd', 'a', 'y'],
        Weekday::Tue => seq!['t', 'u', 'e', 's', 'd', 'a', 'y'],
        Weekday::Wed => seq!['w', 'e', 'd', 'n', 'e', 's', 'd', 'a', 'y'],
        Weekday::Thu => seq!['t', 'h', 'u', 'r', 's', 'd', 'a', 'y'],
        Weekday::Fri => seq!['f', 'r', 'i', 'd', 'a', 'y'],
        Weekday::Sat => seq!['s', 'a', 't', 'u', 'r', 'd', 'a', 'y'],
        Weekday::Sun => seq!['s', 'u', 'n', 'd', 'a', 'y'],
    }
}

/// `t` spells `name` when the case of ASCII letters is ignored.
pub open spec fn spells(t: Seq<u8>, name: Seq<char>) -> bool {
    lower_bytes(t) == ascii_bytes(name)
}

/// The number of bytes of the long form that follow the three-letter form at the start of
/// `rest`: all of `suffix` when `rest` starts with it (case ignored), else none.
pub open spec fn suffix_taken(rest: Seq<u8>, suffix: Seq<char>) -> int {
    if suffix.len() <= rest.len() && spells(rest.take(suffix.len() as int), suffix) {
        suffix.len() as int
    } else {
        0
    }
}

proof fn lemma_spells3(t: Seq<u8>, name: Seq<char>)
    requires
        t.len() == 3,
        name.len() >= 3,
        forall|i: int| 0 <= i < 3 ==> 'a' <= #[trigger] name[i] <= 'z',
    ensures
        spells(t, name.take(3)) == (t[0] | 0x20 == name[0] as u8 && t[1] | 0x20 == name[1] as u8
            && t[2] | 0x20 == name[2] as u8),
{
    lemma_or32(t[0], name[0] as u8);
    lemma_or32(t[1], name[1] as u8);
    lemma_or32(t[2], name[2] as u8);
    if t[0] | 0x20 == name[0] as u8 && t[1] | 0x20 == name[1] as u8 && t[2] | 0x20
        == name[2] as u8 {
        assert(lower_bytes(t) =~= ascii_bytes(name.take(3)));
    } else {
        if spells(t, name.take(3)) {
            assert(lower_bytes(t)[0] == ascii_bytes(name.take(3))[0]);
            assert(lower_bytes(t)[1] == ascii_bytes(name.take(3))[1]);
            assert(lower_bytes(t)[2] == ascii_bytes(name.take(3))[2]);
        }
    }
}

/// Reads a month from its three-letter English abbreviation, in any case, as 0 to 11.
pub fn short_month0(s: &str) -> (r: ScanResult<(&str, u8)>)
    ensures
        s.spec_bytes().len() < 3 ==> r == Err::<(&str, u8), ScanError>(ScanError::TooShort),
        s.spec_bytes().len() >= 3 ==> match r {
            Ok((rest, m)) => m < 12 && spells(s.spec_bytes().take(3), month_name(m as int).take(3))
                && cut_at(s, rest, 3),
            Err(e) => e == ScanError::Invalid && forall|m: int|
                0 <= m < 12 ==> !spells(s.spec_bytes().take(3), #[trigger] month_name(m).take(3)),
        },
{
    let bytes = s.as_bytes();
    if bytes.len() < 3 {
        return Err(ScanError::TooShort);
    }
    let ghost t = s.spec_bytes().take(3);
    let a = bytes[0] | 0x20;
    let b = bytes[1] | 0x20;
    let c = bytes[2] | 0x20;
    proof {
        assert forall|m: int| 0 <= m < 12 implies spells(t, #[trigger] month_name(m).take(3)) == (a
            == month_name(m)[0] as u8 && b == month_name(m)[1] as u8 && c == month_name(
            m,
        )[2] as u8) by {
            lemma_spells3(t, month_name(m));
        }
    }
    let month0: u8 = if a == 'j' as u8 && b == 'a' as u8 && c == 'n' as u8 {
        0
    } else if a == 'f' as u8 && b == 'e' as u8 && c == 'b' as u8 {
        1
    } else if a == 'm' as u8 && b == 'a' as u8 && c == 'r' as u8 {
        2
    } else if a == 'a' as u8 && b == 'p' as u8 && c == 'r' as u8 {
        3
    } else if a == 'm' as u8 && b == 'a' as u8 && c == 'y' as u8 {
        4
    } else if a == 'j' as u8 && b == 'u' as u8 && c == 'n' as u8 {
        5
    } else if a == 'j' as u8 && b == 'u' as u8 && c == 'l' as u8 {
        6
    } else if a == 'a' as u8 && b == 'u' as u8 && c == 'g' as u8 {
        7
    } else if a == 's' as u8 && b == 'e' as u8 && c == 'p' as u8 {
        8
    } else if a == 'o' as u8 && b == 'c' as u8 && c == 't' as u8 {
        9
    } else if a == 'n' as u8 && b == 'o' as u8 && c == 'v' as u8 {
        10
    } else if a == 'd' as u8 && b == 'e' as u8 && c == 'c' as u8 {
        11
    } else {
        return Err(ScanError::Invalid);
    };
    proof {
        lemma_or32(bytes[2], c);
    }
    Ok((skip_ascii(s, 3), month0))
}

/// Reads a weekday from its three-letter English abbreviation, in any case.
pub fn short_weekday(s: &str) -> (r: ScanResult<(&str, Weekday)>)
    ensures
        s.spec_bytes().len() < 3 ==> r == Err::<(&str, Weekday), ScanError>(ScanError::TooShort),
        s.spec_bytes().len() >= 3 ==> match r {
            Ok((rest, w)) => spells(s.spec_bytes().take(3), weekday_name(w).take(3)) && cut_at(
                s,
                rest,
                3,
            ),
            Err(e) => e == ScanError::Invalid && forall|w: Weekday|
                !spells(s.spec_bytes().take(3), #[trigger] weekday_name(w).take(3)),
        },
{
    let bytes = s.as_bytes();
    if bytes.len() < 3 {
        return Err(ScanError::TooShort);
    }
    let ghost t = s.spec_bytes().take(3);
    let a = bytes[0] | 0x20;
    let b = bytes[1] | 0x20;
    let c = bytes[2] | 0x20;
    proof {
        assert forall|w: Weekday| spells(t, #[trigger] weekday_name(w).take(3)) == (a
            == weekday_name(w)[0] as u8 && b == weekday_name(w)[1] as u8 && c == weekday_name(
            w,
        )[2] as u8) by {
            lemma_spells3(t, weekday_name(w));
        }
    }
    let weekday = if a == 'm' as u8 && b == 'o' as u8 && c == 'n' as u8 {
        Weekday::Mon
    } else if a == 't' as u8 && b == 'u' as u8 && c == 'e' as u8 {
        Weekday::Tue
    } else if a == 'w' as u8 && b == 'e' as u8 && c == 'd' as u8 {
        Weekday::Wed
    } else if a == 't' as u8 && b == 'h' as u8 && c == 'u' as u8 {
        Weekday::Thu
    } else if a == 'f' as u8 && b == 'r' as u8 && c == 'i' as u8 {
        Weekday::Fri
    } else if a == 's' as u8 && b == 'a' as u8 && c == 't' as u8 {
        Weekday::Sat
    } else if a == 's' as u8 && b == 'u' as u8 && c == 'n' as u8 {
        Weekday::Sun
    } else {
        return Err(ScanError::Invalid);
    };
    proof {
        lemma_or32(bytes[2], c);
    }
    Ok((skip_ascii(s, 3), weekday))
}

/// The rest of a month's name after its first three letters.
fn long_month_suffix(m: u8) -> (r: &'static str)
    requires
        m < 12,
    ensures
        r@ == month_name(m as int).skip(3),
        r.spec_bytes() == ascii_bytes(month_name(m as int).skip(3)),
        is_ascii_chars(r@),
{
    let r = match m {
        0 => "uary",
        1 => "ruary",
        2 => "ch",
        3 => "il",
        4 => "",
        5 => "e",
        6 => "y",
        7 => "ust",
        8 => "tember",
        9 => "ober",
        10 => "ember",
        _ => "ember",
    };
    proof {
        reveal_strlit("uary");
        reveal_strlit("ruary");
        reveal_strlit("ch");
        reveal_strlit("il");
        reveal_strlit("");
        reveal_strlit("e");
        reveal_strlit("y");
        reveal_strlit("ust");
        reveal_strlit("tember");
        reveal_strlit("ober");
        reveal_strlit("ember");
        assert(r@ =~= month_name(m as int).skip(3));
        lemma_ascii_literal(r, month_name(m as int).skip(3));
    }
    r
}

/// The rest of a weekday's name after its first three letters.
fn long_weekday_suffix(w: Weekday) -> (r: &'static str)
    ensures
        r@ == weekday_name(w).skip(3),
        r.spec_bytes() == ascii_bytes(weekday_name(w).skip(3)),
        is_ascii_chars(r@),
{
    let r = match w {
        Weekday::Mon => "day",
        Weekday::Tue => "sday",
        Weekday::Wed => "nesday",
        Weekday::Thu => "rsday",
        Weekday::Fri => "day",
        Weekday::Sat => "urday",
        Weekday::Sun => "day",
    };
    proof {
        reveal_strlit("day");
        reveal_strlit("sday");
        reveal_strlit("nesday");
        reveal_strlit("rsday");
        reveal_strlit("urday");
        assert(r@ =~= weekday_name(w).skip(3));
        lemma_ascii_literal(r, weekday_name(w).skip(3));
    }
    r
}

/// Consumes `suffix` from the start of `s` when it is there (case ignored); else consumes
/// nothing.
fn take_suffix<'a>(s: &'a str, suffix: &str) -> (r: &'a str)
    requires
        is_ascii_chars(suffix@),
        suffix.spec_bytes() == ascii_bytes(suffix@),
    ensures
        cut_at(s, r, suffix_taken(s.spec_bytes(), suffix@)),
{
    let b = s.as_bytes();
    let n = suffix.as_bytes().len();
    if b.len() >= n {
        let (head, _) = b.split_at(n);
        if equals(head, suffix) {
            proof {
                if n > 0 {
                    assert(lower_bytes(head@)[n - 1] == ascii_bytes(suffix@)[n - 1]);
                    assert(head@[n - 1] == b@[n - 1]);
                }
            }
            return skip_ascii(s, n);
        }
    }
    assert(s.spec_bytes().skip(0) =~= s.spec_bytes());
    s
}

/// Reads a month from its English name or its three-letter abbreviation, in any case, as
/// 0 to 11. The full name is taken whenever it is there.
pub fn short_or_long_month0(s: &str) -> (r: ScanResult<(&str, u8)>)
    ensures
        s.spec_bytes().len() < 3 ==> r == Err::<(&str, u8), ScanError>(ScanError::TooShort),
        s.spec_bytes().len() >= 3 ==> match r {
            Ok((rest, m)) => m < 12 && spells(s.spec_bytes().take(3), month_name(m as int).take(3))
                && cut_at(
                s,
                rest,
                3 + suffix_taken(s.spec_bytes().skip(3), month_name(m as int).skip(3)),
            ),
            Err(e) => e == ScanError::Invalid && forall|m: int|
                0 <= m < 12 ==> !spells(s.spec_bytes().take(3), #[trigger] month_name(m).take(3)),
        },
{
    let (rest, month0) = match short_month0(s) {
        Ok(p) => p,
        Err(e) => return Err(e),
    };
    let suffix = long_month_suffix(month0);
    let r = take_suffix(rest, suffix);
    assert(r.spec_bytes() =~= s.spec_bytes().skip(
        3 + suffix_taken(s.spec_bytes().skip(3), suffix@),
    ));
    Ok((r, month0))
}

/// Reads a weekday from its English name or its three-letter abbreviation, in any case.
/// The full name is taken whenever it is there.
pub fn short_or_long_weekday(s: &str) -> (r: ScanResult<(&str, Weekday)>)
    ensures
        s.spec_bytes().len() < 3 ==> r == Err::<(&str, Weekday), ScanError>(ScanError::TooShort),
        s.spec_bytes().len() >= 3 ==> match r {
            Ok((rest, w)) => spells(s.spec_bytes().take(3), weekday_name(w).take(3)) && cut_at(
                s,
                rest,
                3 + suffix_taken(s.spec_bytes().skip(3), weekday_name(w).skip(3)),
            ),
            Err(e) => e == ScanError::Invalid && forall|w: Weekday|
                !spells(s.spec_bytes().take(3), #[trigger] weekday_name(w).take(3)),
        },
{
    let (rest, weekday) = match short_weekday(s) {
        Ok(p) => p,
        Err(e) => return Err(e),
    };
    let suffix = long_weekday_suffix(weekday);
    let r = take_suffix(rest, suffix);
    assert(r.spec_bytes() =~= s.spec_bytes().skip(
        3 + suffix_taken(s.spec_bytes().skip(3), suffix@),
    ));
    Ok((r, weekday))
}

} // verus!
