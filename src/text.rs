use vstd::prelude::*;
use vstd::utf8::*;
use vstd::string::*;
use crate::error::{ScanError, ScanResult};

verus! {

broadcast use vstd::utf8::group_utf8_lib;

/// `rest` is what is left of `s` after its first `k` bytes.
pub open spec fn cut_at(s: &str, rest: &str, k: int) -> bool {
    &&& 0 <= k <= s.spec_bytes().len()
    &&& rest.spec_bytes() == s.spec_bytes().skip(k)
}

/// In valid UTF-8, the position right after an ASCII byte starts a character.
proof fn lemma_boundary_after_ascii(b: Seq<u8>, k: int)
    requires
        valid_utf8(b),
        0 < k <= b.len(),
        b[k - 1] < 0x80,
    ensures
        is_char_boundary(b, k),
    decreases b.len(),
{
    let w = length_of_first_scalar(b);
    if k == w {
        assert(is_char_boundary(pop_first_scalar(b), 0));
    } else if k < w {
        assert(false);
    } else {
        let t = pop_first_scalar(b);
        assert(t[k - w - 1] == b[k - 1]);
        lemma_boundary_after_ascii(t, k - w);
    }
}

/// `r` is the outcome that the model `m` gives for `s`: on success the same value, with
/// what is left of `s` after the bytes that `m` counts; on failure the same kind.
pub open spec fn scanned<T>(s: &str, r: ScanResult<(&str, T)>, m: ScanResult<(int, T)>) -> bool {
    match (r, m) {
        (Ok((rest, v)), Ok((k, w))) => v == w && cut_at(s, rest, k),
        (Err(e), Err(f)) => e == f,
        _ => false,
    }
}

/// As `scanned`, for scanners that decode no value.
pub open spec fn scanned_text(s: &str, r: ScanResult<&str>, m: ScanResult<int>) -> bool {
    match (r, m) {
        (Ok(rest), Ok(k)) => cut_at(s, rest, k),
        (Err(e), Err(f)) => e == f,
        _ => false,
    }
}

/// The text after its first `k` bytes, where byte `k - 1` is ASCII.
pub(crate) fn skip_ascii(s: &str, k: usize) -> (r: &str)
    requires
        k <= s.spec_bytes().len(),
        k == 0 || s.spec_bytes()[k - 1] < 0x80,
    ensures
        cut_at(s, r, k as int),
{
    proof {
        if k > 0 {
            lemma_boundary_after_ascii(s.spec_bytes(), k as int);
        }
    }
    let (_, r) = s.split_at(k);
    r
}

/// Outcome of `char`: one byte if it is `c`.
pub open spec fn char_model(b: Seq<u8>, c: u8) -> ScanResult<int> {
    if b.len() == 0 {
        Err(ScanError::TooShort)
    } else if b[0] == c {
        Ok(1)
    } else {
        Err(ScanError::Invalid)
    }
}

/// Consumes exactly one byte, which must be `c1`.
///
/// `c1` is an ASCII byte: a text cannot be cut inside a character.
pub fn char(s: &str, c1: u8) -> (r: ScanResult<&str>)
    requires
        c1 < 0x80,
    ensures
        scanned_text(s, r, char_model(s.spec_bytes(), c1)),
{
    let bytes = s.as_bytes();
    if bytes.len() == 0 {
        Err(ScanError::TooShort)
    } else if bytes[0] == c1 {
        Ok(skip_ascii(s, 1))
    } else {
        Err(ScanError::Invalid)
    }
}

/// An ASCII upper-case letter turned to lower case; any other byte as it is.
pub open spec fn ascii_lower(c: u8) -> u8 {
    if 0x41 <= c <= 0x5a {
        (c + 0x20) as u8
    } else {
        c
    }
}

/// `ascii_lower` applied to each byte.
pub open spec fn lower_bytes(b: Seq<u8>) -> Seq<u8> {
    b.map_values(|c: u8| ascii_lower(c))
}

/// Whether `s`, with its ASCII upper-case letters lowered, is exactly `pattern`
/// (which is meant to be in lower case already). Lengths must agree.
pub fn equals(s: &[u8], pattern: &str) -> (r: bool)
    ensures
        r == (lower_bytes(s@) == pattern.spec_bytes()),
{
    let p = pattern.as_bytes();
    if s.len() != p.len() {
        assert(lower_bytes(s@).len() != p@.len());
        return false;
    }
    let mut i: usize = 0;
    while i < s.len()
        invariant
            s@.len() == p@.len(),
            p@ == pattern.spec_bytes(),
            i <= s@.len(),
            forall|j: int| 0 <= j < i ==> ascii_lower(#[trigger] s@[j]) == p@[j],
        decreases s@.len() - i,
    {
        let c = s[i];
        let lowered = if 0x41 <= c && c <= 0x5a { c + 0x20 } else { c };
        if lowered != p[i] {
            assert(lower_bytes(s@)[i as int] != p@[i as int]);
            return false;
        }
        i = i + 1;
    }
    assert(lower_bytes(s@) =~= p@);
    true
}

/// `rest` is a suffix of `s`, byte for byte.
pub open spec fn tail_of(rest: &str, s: &str) -> bool {
    &&& rest.spec_bytes().len() <= s.spec_bytes().len()
    &&& cut_at(s, rest, s.spec_bytes().len() - rest.spec_bytes().len())
}

pub(crate) proof fn lemma_tail_trans(a: &str, b: &str, c: &str)
    requires
        tail_of(a, b),
        tail_of(b, c),
    ensures
        tail_of(a, c),
{
    let k1 = c.spec_bytes().len() - b.spec_bytes().len();
    let k2 = b.spec_bytes().len() - a.spec_bytes().len();
    assert(a.spec_bytes() =~= c.spec_bytes().skip(k1 + k2));
}

/// The characters with Unicode's `White_Space` property.
pub open spec fn is_white_space(c: char) -> bool {
    let u = c as u32;
    ||| 0x09 <= u <= 0x0d
    ||| u == 0x20
    ||| u == 0x85
    ||| u == 0xa0
    ||| u == 0x1680
    ||| 0x2000 <= u <= 0x200a
    ||| u == 0x2028
    ||| u == 0x2029
    ||| u == 0x202f
    ||| u == 0x205f
    ||| u == 0x3000
}

/// Relies on `char::is_whitespace`: true exactly for the characters with Unicode's
/// `White_Space` property.
#[verifier::external_body]
fn char_is_whitespace(c: char) -> (r: bool)
    ensures
        r == is_white_space(c),
{
    c.is_whitespace()
}

/// The first character of a non-empty text, and the text after it.
fn split_first(s: &str) -> (r: (char, &str))
    requires
        s@.len() > 0,
    ensures
        r.0 == s@[0],
        r.1@ == s@.drop_first(),
        tail_of(r.1, s),
        r.1.spec_bytes().len() < s.spec_bytes().len(),
{
    let c = s.get_char(0);
    let u = c as u32;
    let w: usize = if u < 0x80 {
        1
    } else if u < 0x800 {
        2
    } else if u < 0x10000 {
        3
    } else {
        4
    };
    let ghost b = s.spec_bytes();
    proof {
        encode_utf8_first_scalar(s@);
        assert(b == encode_scalar(s@[0] as u32) + encode_utf8(s@.drop_first()));
        assert(encode_scalar(u).len() == w);
        assert(is_char_boundary(pop_first_scalar(b), 0));
        assert(is_char_boundary(b, w as int));
    }
    let (_, rest) = s.split_at(w);
    proof {
        assert(rest.spec_bytes() =~= encode_utf8(s@.drop_first()));
        encode_utf8_decode_utf8(rest@);
        encode_utf8_decode_utf8(s@.drop_first());
    }
    (c, rest)
}

/// The text after its first character; empty when it has one character or none.
pub fn s_next(s: &str) -> (r: &str)
    ensures
        r@ == (if s@.len() == 0 { s@ } else { s@.drop_first() }),
        tail_of(r, s),
{
    if s.is_empty() {
        assert(s.spec_bytes().skip(0) =~= s.spec_bytes());
        s
    } else {
        split_first(s).1
    }
}

/// The text after its first character if that character is white space; else the text as
/// it is.
pub fn trim1(s: &str) -> (r: &str)
    ensures
        r@ == (if s@.len() > 0 && is_white_space(s@[0]) { s@.drop_first() } else { s@ }),
        tail_of(r, s),
{
    if !s.is_empty() && char_is_whitespace(s.get_char(0)) {
        s_next(s)
    } else {
        assert(s.spec_bytes().skip(0) =~= s.spec_bytes());
        s
    }
}

/// The number of leading characters of `cs` that are white space (`white`) or that are
/// not (`!white`).
pub open spec fn run_of(cs: Seq<char>, white: bool) -> nat
    decreases cs.len(),
{
    if cs.len() > 0 && is_white_space(cs[0]) == white {
        1 + run_of(cs.drop_first(), white)
    } else {
        0
    }
}

/// The text after its longest prefix of white space (`white`), or of characters that are
/// not white space (`!white`).
pub(crate) fn skip_run(s: &str, white: bool) -> (r: &str)
    ensures
        r@ == s@.skip(run_of(s@, white) as int),
        tail_of(r, s),
{
    let mut cur = s;
    assert(s.spec_bytes().skip(0) =~= s.spec_bytes());
    assert(s@.skip(0) =~= s@);
    let ghost mut k: int = 0;
    while !cur.is_empty() && char_is_whitespace(cur.get_char(0)) == white
        invariant
            tail_of(cur, s),
            0 <= k <= s@.len(),
            cur@ == s@.skip(k),
            run_of(s@, white) == k + run_of(cur@, white),
        decreases cur@.len(),
    {
        let (_, rest) = split_first(cur);
        proof {
            lemma_tail_trans(rest, cur, s);
            assert(rest@ =~= s@.skip(k + 1));
            k = k + 1;
        }
        cur = rest;
    }
    cur
}

/// Consumes one or more leading white-space characters.
///
/// Empty input is `TooShort`; input that does not start with white space is `Invalid`.
pub fn space(s: &str) -> (r: ScanResult<&str>)
    ensures
        s@.len() == 0 ==> r == Err::<&str, ScanError>(ScanError::TooShort),
        s@.len() > 0 && !is_white_space(s@[0]) ==> r == Err::<&str, ScanError>(
            ScanError::Invalid,
        ),
        s@.len() > 0 && is_white_space(s@[0]) ==> (r matches Ok(rest) && rest@ == s@.skip(
            run_of(s@, true) as int,
        ) && tail_of(rest, s)),
{
    if s.is_empty() {
        Err(ScanError::TooShort)
    } else if !char_is_whitespace(s.get_char(0)) {
        Err(ScanError::Invalid)
    } else {
        Ok(skip_run(s, true))
    }
}

/// Bytes taken by `consume_colon_maybe`: one if the text starts with `:`, else none.
pub open spec fn colon_taken(b: Seq<u8>) -> int {
    if b.len() > 0 && b[0] == 0x3a {
        1
    } else {
        0
    }
}

/// Consumes one `:` if the text starts with it. Never fails.
pub fn consume_colon_maybe(s: &str) -> (r: ScanResult<&str>)
    ensures
        scanned_text(s, r, Ok(colon_taken(s.spec_bytes()))),
{
    let b = s.as_bytes();
    if b.len() > 0 && b[0] == 0x3a {
        Ok(skip_ascii(s, 1))
    } else {
        assert(s.spec_bytes().skip(0) =~= s.spec_bytes());
        Ok(s)
    }
}

/// For a lower-case letter `t`, setting bit 5 of `c` gives `t` exactly when lowering `c` does.
pub(crate) proof fn lemma_or32(c: u8, t: u8)
    requires
        0x61 <= t <= 0x7a,
    ensures
        (c | 0x20 == t) == (ascii_lower(c) == t),
{
    assert((c | 0x20 == t) == (c == t || c == t - 0x20)) by (bit_vector)
        requires
            0x61 <= t <= 0x7a,
    ;
}

/// The bytes of an ASCII text.
pub open spec fn ascii_bytes(cs: Seq<char>) -> Seq<u8> {
    cs.map_values(|c: char| c as u8)
}

/// A string whose characters are ASCII has those characters as its bytes.
pub(crate) proof fn lemma_ascii_literal(s: &str, name: Seq<char>)
    requires
        s@ == name,
        is_ascii_chars(name),
    ensures
        s.spec_bytes() == ascii_bytes(name),
{
    assert(s.spec_bytes() =~= ascii_bytes(name));
}

/// `consume_colon_maybe` takes at most one colon per call: run again on what it left, it
/// takes a second colon only when that colon came right after the first.
pub proof fn colon_once_law(b: Seq<u8>)
    ensures
        0 <= colon_taken(b) <= 1,
        colon_taken(b) == 1 ==> (colon_taken(b.skip(1)) == 1 <==> b.len() > 1 && b[1] == 0x3a),
{
}

/// What a scanner leaves of its input is a suffix of it, and never longer.
pub proof fn remainder_law<T>(s: &str, r: ScanResult<(&str, T)>, m: ScanResult<(int, T)>)
    requires
        scanned(s, r, m),
        r is Ok,
    ensures
        tail_of(r->Ok_0.0, s),
        r->Ok_0.0.spec_bytes().len() <= s.spec_bytes().len(),
{
}

} // verus!
