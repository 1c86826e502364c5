//! Validation of configuration strings: a fontconfig-style font
//! specification `family:size`, and a color in CSS notation.

use vstd::prelude::*;
use crate::strutil::find_colon;
use crate::strutil::first_colon;
use crate::strutil::lemma_first_colon_is;

verus! {

/// An ASCII decimal digit.
pub open spec fn is_digit_char(c: char) -> bool {
    '0' <= c && c <= '9'
}

/// Every character of the sequence is an ASCII decimal digit.
pub open spec fn all_digits(s: Seq<char>) -> bool {
    forall|i: int| 0 <= i < s.len() ==> is_digit_char(s[i])
}

/// A decimal mantissa: digits, or digits around a single decimal point,
/// with at least one digit overall.
pub open spec fn mantissa_ok(s: Seq<char>) -> bool {
    ||| (s.len() > 0 && all_digits(s))
    ||| (s.len() > 1 && exists|k: int|
        0 <= k < s.len() && s[k] == '.' && all_digits(s.take(k)) && all_digits(s.skip(k + 1)))
}

/// The part after the exponent marker: an optional sign, then at least one digit.
pub open spec fn exp_digits_ok(s: Seq<char>) -> bool {
    if s.len() > 0 && (s[0] == '+' || s[0] == '-') {
        s.len() > 1 && all_digits(s.skip(1))
    } else {
        s.len() > 0 && all_digits(s)
    }
}

/// A decimal number: a mantissa with an optional `e`/`E` exponent part.
pub open spec fn number_ok(s: Seq<char>) -> bool {
    ||| mantissa_ok(s)
    ||| (exists|e: int|
        0 <= e < s.len() && (s[e] == 'e' || s[e] == 'E') && mantissa_ok(s.take(e)) && exp_digits_ok(
            s.skip(e + 1),
        ))
}

/// The keyword `inf` in any letter case.
pub open spec fn keyword_inf(s: Seq<char>) -> bool {
    s.len() == 3 && (s[0] == 'i' || s[0] == 'I') && (s[1] == 'n' || s[1] == 'N') && (s[2] == 'f'
        || s[2] == 'F')
}

/// The keyword `infinity` in any letter case.
pub open spec fn keyword_infinity(s: Seq<char>) -> bool {
    s.len() == 8 && (s[0] == 'i' || s[0] == 'I') && (s[1] == 'n' || s[1] == 'N') && (s[2] == 'f'
        || s[2] == 'F') && (s[3] == 'i' || s[3] == 'I') && (s[4] == 'n' || s[4] == 'N') && (s[5]
        == 'i' || s[5] == 'I') && (s[6] == 't' || s[6] == 'T') && (s[7] == 'y' || s[7] == 'Y')
}

/// The keyword `nan` in any letter case.
pub open spec fn keyword_nan(s: Seq<char>) -> bool {
    s.len() == 3 && (s[0] == 'n' || s[0] == 'N') && (s[1] == 'a' || s[1] == 'A') && (s[2] == 'n'
        || s[2] == 'N')
}

/// The grammar of floating-point literals that the standard library's float
/// parsing documents: an optional sign, then `inf`, `infinity` or `nan` in
/// any letter case, or a decimal number with an optional exponent.
pub open spec fn is_float_literal(s: Seq<char>) -> bool {
    let body = if s.len() > 0 && (s[0] == '+' || s[0] == '-') {
        s.skip(1)
    } else {
        s
    };
    keyword_inf(body) || keyword_infinity(body) || keyword_nan(body) || number_ok(body)
}

/// Every character of a mantissa is a digit or the decimal point.
proof fn lemma_mantissa_chars(t: Seq<char>, p: int)
    requires
        mantissa_ok(t),
        0 <= p < t.len(),
    ensures
        t[p] == '.' || is_digit_char(t[p]),
{
    if !(t.len() > 0 && all_digits(t)) {
        let k = choose|k: int|
            0 <= k < t.len() && t[k] == '.' && all_digits(t.take(k)) && all_digits(t.skip(k + 1));
        if p < k {
            assert(t.take(k)[p] == t[p]);
            assert(is_digit_char(t.take(k)[p]));
        } else if p > k {
            assert(t.skip(k + 1)[p - k - 1] == t[p]);
            assert(is_digit_char(t.skip(k + 1)[p - k - 1]));
        }
    }
}

/// Are the characters of `s` in `[lo, hi)` all decimal digits?
fn all_digits_range(s: &str, lo: usize, hi: usize) -> (r: bool)
    requires
        lo <= hi <= s@.len(),
    ensures
        r == all_digits(s@.subrange(lo as int, hi as int)),
{
    let ghost sub = s@.subrange(lo as int, hi as int);
    let mut i: usize = lo;
    while i < hi
        invariant
            lo <= i <= hi <= s@.len(),
            sub == s@.subrange(lo as int, hi as int),
            forall|t: int| 0 <= t < i - lo ==> is_digit_char(sub[t]),
        decreases hi - i,
    {
        let c = s.get_char(i);
        proof {
            assert(sub[i - lo] == s@[i as int]);
        }
        if !('0' <= c && c <= '9') {
            return false;
        }
        i += 1;
    }
    true
}

/// Position of the first occurrence of `c1` or `c2` in `[lo, hi)`, or `hi`.
fn find_first(s: &str, lo: usize, hi: usize, c1: char, c2: char) -> (r: usize)
    requires
        lo <= hi <= s@.len(),
    ensures
        lo <= r <= hi,
        forall|t: int| lo <= t < r ==> s@[t] != c1 && s@[t] != c2,
        r < hi ==> s@[r as int] == c1 || s@[r as int] == c2,
{
    let mut i: usize = lo;
    while i < hi
        invariant
            lo <= i <= hi <= s@.len(),
            forall|t: int| lo <= t < i ==> s@[t] != c1 && s@[t] != c2,
        decreases hi - i,
    {
        let c = s.get_char(i);
        if c == c1 || c == c2 {
            return i;
        }
        i += 1;
    }
    hi
}

/// Is the stretch of `s` in `[lo, hi)` a decimal mantissa?
fn mantissa_check(s: &str, lo: usize, hi: usize) -> (r: bool)
    requires
        lo <= hi <= s@.len(),
    ensures
        r == mantissa_ok(s@.subrange(lo as int, hi as int)),
{
    let ghost sub = s@.subrange(lo as int, hi as int);
    let dot = find_first(s, lo, hi, '.', '.');
    if dot == hi {
        if lo == hi {
            return false;
        }
        let r = all_digits_range(s, lo, hi);
        proof {
            if !r {
                // Without a dot the second form of a mantissa is out too.
                assert forall|k: int| 0 <= k < sub.len() implies sub[k] != '.' by {
                    assert(sub[k] == s@[lo + k]);
                }
            }
        }
        r
    } else {
        let left = all_digits_range(s, lo, dot);
        let right = all_digits_range(s, dot + 1, hi);
        let r = left && right && hi - lo > 1;
        proof {
            let kd = dot - lo;
            assert(sub[kd] == s@[dot as int]);
            assert(sub[kd] == '.');
            assert(!all_digits(sub));
            if r {
                assert(sub.take(kd) =~= s@.subrange(lo as int, dot as int));
                assert(sub.skip(kd + 1) =~= s@.subrange(dot + 1, hi as int));
                assert(mantissa_ok(sub));
            } else {
                if mantissa_ok(sub) {
                    let k = choose|k: int|
                        0 <= k < sub.len() && sub[k] == '.' && all_digits(sub.take(k))
                            && all_digits(sub.skip(k + 1));
                    assert(sub[k] == s@[lo + k]);
                    if k < kd {
                        assert(false);
                    } else if k > kd {
                        assert(sub.take(k)[kd] == sub[kd]);
                        assert(is_digit_char(sub[kd]));
                        assert(false);
                    } else {
                        assert(sub.take(kd) =~= s@.subrange(lo as int, dot as int));
                        assert(sub.skip(kd + 1) =~= s@.subrange(dot + 1, hi as int));
                        assert(sub.len() > 1);
                        assert(false);
                    }
                }
            }
        }
        r
    }
}

/// Is the stretch of `s` in `[lo, hi)` an exponent tail: an optional sign,
/// then at least one digit?
fn exp_digits_check(s: &str, lo: usize, hi: usize) -> (r: bool)
    requires
        lo <= hi <= s@.len(),
    ensures
        r == exp_digits_ok(s@.subrange(lo as int, hi as int)),
{
    let ghost sub = s@.subrange(lo as int, hi as int);
    if lo == hi {
        return false;
    }
    let c = s.get_char(lo);
    proof {
        assert(sub[0] == s@[lo as int]);
    }
    if c == '+' || c == '-' {
        if hi - lo <= 1 {
            return false;
        }
        let r = all_digits_range(s, lo + 1, hi);
        proof {
            assert(sub.skip(1) =~= s@.subrange(lo + 1, hi as int));
        }
        r
    } else {
        all_digits_range(s, lo, hi)
    }
}

/// Is the stretch of `s` in `[lo, hi)` a decimal number, mantissa with an
/// optional exponent part?
fn number_check(s: &str, lo: usize, hi: usize) -> (r: bool)
    requires
        lo <= hi <= s@.len(),
    ensures
        r == number_ok(s@.subrange(lo as int, hi as int)),
{
    let ghost sub = s@.subrange(lo as int, hi as int);
    let e = find_first(s, lo, hi, 'e', 'E');
    if e == hi {
        let r = mantissa_check(s, lo, hi);
        proof {
            if !r && number_ok(sub) {
                let k = choose|k: int|
                    0 <= k < sub.len() && (sub[k] == 'e' || sub[k] == 'E') && mantissa_ok(
                        sub.take(k),
                    ) && exp_digits_ok(sub.skip(k + 1));
                assert(sub[k] == s@[lo + k]);
                assert(false);
            }
        }
        r
    } else {
        let left = mantissa_check(s, lo, e);
        let r = left && exp_digits_check(s, e + 1, hi);
        proof {
            let ke = e - lo;
            assert(sub[ke] == s@[e as int]);
            assert(sub.take(ke) =~= s@.subrange(lo as int, e as int));
            assert(sub.skip(ke + 1) =~= s@.subrange(e + 1, hi as int));
            if r {
                assert(number_ok(sub));
            } else {
                if number_ok(sub) {
                    if mantissa_ok(sub) {
                        lemma_mantissa_chars(sub, ke);
                        assert(false);
                    }
                    let k = choose|k: int|
                        0 <= k < sub.len() && (sub[k] == 'e' || sub[k] == 'E') && mantissa_ok(
                            sub.take(k),
                        ) && exp_digits_ok(sub.skip(k + 1));
                    assert(sub[k] == s@[lo + k]);
                    if k < ke {
                        assert(false);
                    } else if k > ke {
                        assert(sub.take(k)[ke] == sub[ke]);
                        lemma_mantissa_chars(sub.take(k), ke);
                        assert(false);
                    } else {
                        assert(false);
                    }
                }
            }
        }
        r
    }
}

/// Is the tail of `s` from `lo` one of the keywords `inf`, `infinity`,
/// `nan`, in any letter case?
fn keyword_check(s: &str, lo: usize) -> (r: bool)
    requires
        lo <= s@.len(),
    ensures
        r == (keyword_inf(s@.skip(lo as int)) || keyword_infinity(s@.skip(lo as int))
            || keyword_nan(s@.skip(lo as int))),
{
    let ghost sub = s@.skip(lo as int);
    let n = s.unicode_len();
    proof {
        assert forall|t: int| 0 <= t < sub.len() implies sub[t] == s@[lo + t] by {}
    }
    if n - lo == 3 {
        let c0 = s.get_char(lo);
        let c1 = s.get_char(lo + 1);
        let c2 = s.get_char(lo + 2);
        ((c0 == 'i' || c0 == 'I') && (c1 == 'n' || c1 == 'N') && (c2 == 'f' || c2 == 'F')) || ((c0
            == 'n' || c0 == 'N') && (c1 == 'a' || c1 == 'A') && (c2 == 'n' || c2 == 'N'))
    } else if n - lo == 8 {
        let c0 = s.get_char(lo);
        let c1 = s.get_char(lo + 1);
        let c2 = s.get_char(lo + 2);
        let c3 = s.get_char(lo + 3);
        let c4 = s.get_char(lo + 4);
        let c5 = s.get_char(lo + 5);
        let c6 = s.get_char(lo + 6);
        let c7 = s.get_char(lo + 7);
        (c0 == 'i' || c0 == 'I') && (c1 == 'n' || c1 == 'N') && (c2 == 'f' || c2 == 'F') && (c3
            == 'i' || c3 == 'I') && (c4 == 'n' || c4 == 'N') && (c5 == 'i' || c5 == 'I') && (c6
            == 't' || c6 == 'T') && (c7 == 'y' || c7 == 'Y')
    } else {
        false
    }
}

/// Does the whole of `s` match the documented floating-point grammar?
pub fn is_float_str(s: &str) -> (r: bool)
    ensures
        r == is_float_literal(s@),
{
    let n = s.unicode_len();
    let start: usize = if n > 0 {
        let c = s.get_char(0);
        if c == '+' || c == '-' {
            1
        } else {
            0
        }
    } else {
        0
    };
    let ghost body = if s@.len() > 0 && (s@[0] == '+' || s@[0] == '-') {
        s@.skip(1)
    } else {
        s@
    };
    proof {
        assert(body == s@.skip(start as int)) by {
            if start == 0 {
                assert(s@.skip(0) =~= s@);
            }
        }
        assert(body =~= s@.subrange(start as int, n as int));
    }
    if keyword_check(s, start) {
        return true;
    }
    number_check(s, start, n)
}

/// The size part of a font specification: what stands between the first
/// colon and the following colon (or the end).
pub open spec fn spec_size_part(s: Seq<char>) -> Seq<char> {
    let rest = s.skip(first_colon(s) + 1);
    rest.take(first_colon(rest))
}

/// A valid fontconfig-style font specification `family:size`: it has a
/// colon, and the part between the first and the second colon (or the end)
/// is a floating-point literal.
pub open spec fn spec_font_ok(s: Seq<char>) -> bool {
    first_colon(s) < s.len() && is_float_literal(spec_size_part(s))
}

/// Checks whether the provided fontconfig font `f` is valid: it must have
/// the format `family:size` with a floating-point size.
pub fn is_truetype_font(f: String) -> (r: Result<(), String>)
    ensures
        r is Ok <==> spec_font_ok(f@),
        first_colon(f@) == f@.len() ==> (r matches Err(m) && m@ == "From font format"@),
        first_colon(f@) < f@.len() && spec_size_part(f@).len() == 0 ==> (r matches Err(m) && m@
            == "cannot parse float from empty string"@),
        first_colon(f@) < f@.len() && spec_size_part(f@).len() > 0 && !spec_font_ok(f@) ==> (
        r matches Err(m) && m@ == "invalid float literal"@),
{
    let s = f.as_str();
    let n = s.unicode_len();
    let fc = find_colon(s, 0);
    proof {
        lemma_first_colon_is(s@, fc as int);
    }
    if fc == n {
        return Err(String::from_str("From font format"));
    }
    let sc = find_colon(s, fc + 1);
    proof {
        let rest = s@.skip(fc + 1);
        assert forall|t: int| 0 <= t < sc - fc - 1 implies rest[t] != ':' by {
            assert(rest[t] == s@[fc + 1 + t]);
        }
        if sc < n {
            assert(rest[sc - fc - 1] == s@[sc as int]);
        }
        lemma_first_colon_is(rest, sc - fc - 1);
        assert(spec_size_part(s@) =~= s@.subrange(fc + 1, sc as int));
    }
    let size_str = s.substring_char(fc + 1, sc);
    if is_float_str(size_str) {
        Ok(())
    } else if sc == fc + 1 {
        Err(String::from_str("cannot parse float from empty string"))
    } else {
        Err(String::from_str("invalid float literal"))
    }
}

/// Whether a string is a color in CSS notation.
pub uninterp spec fn css_color_ok(s: Seq<char>) -> bool;

/// Relies on css_color_parser::Color::from_str: whether a string parses as a
/// CSS color is a function of its characters alone.
#[verifier::external_body]
fn parse_css_color_ok(c: &str) -> (r: bool)
    ensures
        r == css_color_ok(c@),
{
    c.parse::<css_color_parser::Color>().is_ok()
}

/// Validate a color given in CSS notation.
pub fn is_valid_color(c: String) -> (r: Result<(), String>)
    ensures
        r is Ok <==> css_color_ok(c@),
        !css_color_ok(c@) ==> (r matches Err(m) && m@ == "Invalid color format"@),
{
    if parse_css_color_ok(c.as_str()) {
        Ok(())
    } else {
        Err(String::from_str("Invalid color format"))
    }
}

} // verus!
