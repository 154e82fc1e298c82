//! Character classification and text conversion taken from the standard library.
//!
//! Each function marked `external_body` makes one call into `std`; its contract is
//! trusted, not proved. The others are built on them and verified.
use vstd::prelude::*;
use vstd::std_specs::iter::IteratorSpec;
use vstd::utf8::{decode_utf8, valid_utf8};

verus! {

/// What `char::is_alphabetic` answers for a character (Unicode's `Alphabetic` property).
pub uninterp spec fn unicode_alphabetic(c: char) -> bool;

/// What `char::is_numeric` answers for a character (Unicode's `Nd`, `Nl` and `No` categories).
pub uninterp spec fn unicode_numeric(c: char) -> bool;

/// The text that `String::from_utf8_lossy` decodes from a byte sequence.
pub uninterp spec fn utf8_lossy(bytes: Seq<u8>) -> Seq<char>;

/// The text that `str::to_lowercase` gives for a string.
pub uninterp spec fn unicode_lowercase(s: Seq<char>) -> Seq<char>;

/// Calls `char::is_alphabetic`. Trusted: the answer is the Unicode property named
/// `unicode_alphabetic`, which among the ASCII characters holds of the letters alone.
#[verifier::external_body]
pub fn char_is_alphabetic(c: char) -> (r: bool)
    ensures
        r == unicode_alphabetic(c),
        (c as u32) < 128 ==> (r <==> ('a' <= c <= 'z' || 'A' <= c <= 'Z')),
{
    c.is_alphabetic()
}

/// Calls `char::is_numeric`. Trusted: the answer is the Unicode property named
/// `unicode_numeric`, which among the ASCII characters holds of the digits alone.
#[verifier::external_body]
pub fn char_is_numeric(c: char) -> (r: bool)
    ensures
        r == unicode_numeric(c),
        (c as u32) < 128 ==> (r <==> ('0' <= c <= '9')),
{
    c.is_numeric()
}

/// What `char::is_whitespace` answers for a character (Unicode's `White_Space` property).
pub uninterp spec fn unicode_white_space(c: char) -> bool;

/// Calls `char::is_whitespace`. Trusted: the answer is the Unicode property named
/// `unicode_white_space`, which among the ASCII characters holds of the space and of the
/// tab, line feed, vertical tab, form feed and carriage return alone.
#[verifier::external_body]
pub fn char_is_whitespace(c: char) -> (r: bool)
    ensures
        r == unicode_white_space(c),
        (c as u32) < 128 ==> (r <==> (c == ' ' || '\t' <= c <= '\r')),
{
    c.is_whitespace()
}

/// Whether a character is alphabetic or numeric, as `char::is_alphanumeric` is defined.
pub fn char_is_alphanumeric(c: char) -> (r: bool)
    ensures
        r == (unicode_alphabetic(c) || unicode_numeric(c)),
{
    char_is_alphabetic(c) || char_is_numeric(c)
}

/// Calls `String::from_utf8_lossy` and takes the owned text. Trusted: the text is the
/// named decoding `utf8_lossy`, and, as the documentation says, valid UTF-8 is decoded
/// unchanged. How invalid sequences are replaced is left unsaid.
#[verifier::external_body]
pub fn lossy_string(bytes: &[u8]) -> (s: String)
    ensures
        s@ == utf8_lossy(bytes@),
        valid_utf8(bytes@) ==> s@ == decode_utf8(bytes@),
{
    String::from_utf8_lossy(bytes).to_string()
}

/// Calls `String::push`. Trusted: the character is appended to the text.
#[verifier::external_body]
pub fn push_char(s: &mut String, c: char)
    ensures
        final(s)@ == old(s)@.push(c),
{
    s.push(c)
}

/// Whether `s` is a nonempty run of ASCII decimal digits.
pub open spec fn all_digits(s: Seq<char>) -> bool {
    s.len() > 0 && forall|i: int| 0 <= i < s.len() ==> 48 <= #[trigger] (s[i] as u32) <= 57
}

/// The value of a run of decimal digits.
pub open spec fn digits_value(s: Seq<char>) -> int
    decreases s.len(),
{
    if s.len() == 0 {
        0
    } else {
        digits_value(s.drop_last()) * 10 + (s.last() as u32 - 48)
    }
}

/// The number `i64::from_str` reads from a text: an optional `+` or `-` followed by
/// decimal digits and nothing else, whose value fits in an `i64`; `None` for any other text.
pub open spec fn decimal_i64(s: Seq<char>) -> Option<i64> {
    let signed = s.len() > 0 && (s[0] == '-' || s[0] == '+');
    let digits = if signed { s.drop_first() } else { s };
    let value = if s.len() > 0 && s[0] == '-' { -digits_value(digits) } else { digits_value(digits) };
    if all_digits(digits) && i64::MIN <= value <= i64::MAX {
        Some(value as i64)
    } else {
        None
    }
}


proof fn lemma_digits_value_grows(s: Seq<char>, k: int)
    requires
        0 <= k <= s.len(),
        forall|i: int| 0 <= i < s.len() ==> 48 <= #[trigger] (s[i] as u32) <= 57,
    ensures
        0 <= digits_value(s.take(k)) <= digits_value(s),
    decreases s.len(),
{
    if s.len() > 0 {
        if k == s.len() {
            assert(s.take(k) =~= s);
            lemma_digits_value_grows(s.drop_last(), s.len() - 1);
            assert(s.drop_last().take(s.len() - 1) =~= s.drop_last());
        } else {
            lemma_digits_value_grows(s.drop_last(), k);
            assert(s.drop_last().take(k) =~= s.take(k));
            lemma_digits_value_grows(s.drop_last(), s.len() - 1);
            assert(s.drop_last().take(s.len() - 1) =~= s.drop_last());
        }
    } else {
        assert(s.take(k) =~= s);
    }
}

/// Reads a number as `i64::from_str` does (see `decimal_i64`).
pub fn parse_i64(s: &str) -> (r: Option<i64>)
    ensures
        r == decimal_i64(s@),
{
    let chars = chars_of(s);
    let n = chars.len();
    if n == 0 {
        return None;
    }
    let negative = chars[0] == '-';
    let start: usize = if chars[0] == '-' || chars[0] == '+' {
        1
    } else {
        0
    };
    let ghost digits = chars@.subrange(start as int, n as int);
    proof {
        assert(digits =~= if start == 1 { s@.drop_first() } else { s@ });
    }
    if start == n {
        return None;
    }
    let mut magnitude: i128 = 0;
    let mut i: usize = start;
    while i < n
        invariant
            start <= i <= n,
            n == chars@.len(),
            chars@ == s@,
            digits == chars@.subrange(start as int, n as int),
            s@.len() > 0,
            start == (if s@[0] == '-' || s@[0] == '+' { 1usize } else { 0usize }),
            negative == (s@[0] == '-'),
            digits == if start == 1 { s@.drop_first() } else { s@ },
            0 <= magnitude <= 0x8000_0000_0000_0000,
            magnitude == digits_value(digits.take(i - start)),
            forall|j: int| 0 <= j < i - start ==> 48 <= #[trigger] (digits[j] as u32) <= 57,
        decreases n - i,
    {
        let c = chars[i];
        if (c as u32) < 48 || (c as u32) > 57 {
            proof {
                assert(digits[i - start] == c);
                assert(!(48 <= (digits[i - start] as u32) <= 57));
                assert(!all_digits(digits));
            }
            return None;
        }
        proof {
            assert(digits.take(i + 1 - start).drop_last() =~= digits.take(i - start));
            assert(digits.take(i + 1 - start).last() == c);
        }
        magnitude = magnitude * 10 + (c as u32 - 48) as i128;
        i += 1;
        if magnitude > 0x8000_0000_0000_0000 {
            proof {
                if all_digits(digits) {
                    lemma_digits_value_grows(digits, i - start);
                    assert(digits_value(digits) > 0x8000_0000_0000_0000);
                }
            }
            return None;
        }
    }
    proof {
        assert(digits.take(i - start) =~= digits);
    }
    if negative {
        Some((-magnitude) as i64)
    } else if magnitude <= 0x7fff_ffff_ffff_ffff {
        Some(magnitude as i64)
    } else {
        None
    }
}

/// Calls `str::to_lowercase`. Trusted: the result is the named mapping `unicode_lowercase`.
#[verifier::external_body]
pub fn lowercase(s: &str) -> (r: String)
    ensures
        r@ == unicode_lowercase(s@),
{
    s.to_lowercase()
}

} // verus!

verus! {



} // verus!

verus! {

/// Whether two lists of characters are the same.
pub fn same_chars(a: &Vec<char>, b: &Vec<char>) -> (r: bool)
    ensures
        r == (a@ == b@),
{
    if a.len() != b.len() {
        return false;
    }
    let mut i: usize = 0;
    while i < a.len()
        invariant
            i <= a@.len(),
            a@.len() == b@.len(),
            forall|k: int| 0 <= k < i ==> a@[k] == b@[k],
        decreases a@.len() - i,
    {
        if a[i] != b[i] {
            return false;
        }
        i += 1;
    }
    proof {
        assert(a@ =~= b@);
    }
    true
}

/// Whether two strings hold the same characters.
pub fn str_eq(a: &str, b: &str) -> (r: bool)
    ensures
        r == (a@ == b@),
{
    let x = chars_of(a);
    let y = chars_of(b);
    same_chars(&x, &y)
}

/// The characters of a string, in order.
pub fn chars_of(s: &str) -> (r: Vec<char>)
    ensures
        r@ == s@,
{
    let mut iter = s.chars();
    let mut out: Vec<char> = Vec::new();
    loop
        invariant
            out@ + iter.remaining() == s@,
            iter.obeys_prophetic_iter_laws(),
            iter.decrease() is Some,
        ensures
            out@ == s@,
        decreases iter.decrease()->0,
    {
        let ghost before = iter.remaining();
        match iter.next() {
            Some(c) => {
                proof {
                    assert(out@.push(c) + iter.remaining() =~= out@ + before);
                }
                out.push(c);
            },
            None => {
                proof {
                    assert(out@ + before =~= out@);
                }
                break;
            },
        }
    }
    out
}

/// A string holding the characters, in order.
pub fn string_of(chars: &[char]) -> (s: String)
    ensures
        s@ == chars@,
{
    let mut out = String::new();
    let mut i: usize = 0;
    while i < chars.len()
        invariant
            i <= chars@.len(),
            out@ == chars@.take(i as int),
        decreases chars@.len() - i,
    {
        push_char(&mut out, chars[i]);
        proof {
            assert(chars@.take(i + 1) =~= chars@.take(i as int).push(chars@[i as int]));
        }
        i += 1;
    }
    proof {
        assert(chars@.take(i as int) =~= chars@);
    }
    out
}

} // verus!
