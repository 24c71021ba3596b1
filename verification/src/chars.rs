//! Character classes used by the value-type validators and the parsers.
//!
//! All classes are defined over the character's scalar value, so the same
//! definitions serve as the specification and are decided by executable
//! classifiers below.

use vstd::prelude::*;

verus! {

/// Whitespace characters: the ASCII whitespace control characters and the
/// Unicode space separators.
pub open spec fn is_whitespace(c: char) -> bool {
    let u = c as u32;
    u == 0x09 || u == 0x0A || u == 0x0B || u == 0x0C || u == 0x0D || u == 0x20 || u == 0x85
        || u == 0xA0 || u == 0x1680 || (0x2000 <= u && u <= 0x200A) || u == 0x2028 || u == 0x2029
        || u == 0x202F || u == 0x205F || u == 0x3000
}

/// Word characters: ASCII letters, digits and the underscore.
pub open spec fn is_word(c: char) -> bool {
    let u = c as u32;
    (0x30 <= u && u <= 0x39) || (0x41 <= u && u <= 0x5A) || (0x61 <= u && u <= 0x7A) || u == 0x5F
}

/// ASCII decimal digits.
pub open spec fn is_digit(c: char) -> bool {
    let u = c as u32;
    0x30 <= u && u <= 0x39
}

/// Letters of the Cyrillic script: the base block and its extensions.
pub open spec fn is_cyrillic(c: char) -> bool {
    let u = c as u32;
    (0x400 <= u && u <= 0x4FF) || (0x500 <= u && u <= 0x52F) || (0x1C80 <= u && u <= 0x1C88) || (
    0x2DE0 <= u && u <= 0x2DFF) || (0xA640 <= u && u <= 0xA69F)
}

/// Letters of the Latin script: the ASCII letters and the Latin extension
/// blocks.
pub open spec fn is_latin(c: char) -> bool {
    let u = c as u32;
    (0x41 <= u && u <= 0x5A) || (0x61 <= u && u <= 0x7A) || (0xC0 <= u && u <= 0xD6) || (0xD8 <= u
        && u <= 0xF6) || (0xF8 <= u && u <= 0x24F) || (0x1E00 <= u && u <= 0x1EFF) || (0x2C60 <= u
        && u <= 0x2C7F) || (0xA720 <= u && u <= 0xA7FF)
}

/// The punctuation accepted inside raw text: `, - : . ' "`.
pub open spec fn is_raw_punctuation(c: char) -> bool {
    c == ',' || c == '-' || c == ':' || c == '.' || c == '\'' || c == '"'
}

/// A character allowed in a raw text segment: a digit, a Cyrillic or Latin
/// letter, whitespace, or one of the accepted punctuation marks.
pub open spec fn is_raw_text_char(c: char) -> bool {
    is_digit(c) || is_cyrillic(c) || is_latin(c) || is_whitespace(c) || is_raw_punctuation(c)
}

/// A character of the URL-safe base64 alphabet.
pub open spec fn is_base64url(c: char) -> bool {
    let u = c as u32;
    (0x41 <= u && u <= 0x5A) || (0x61 <= u && u <= 0x7A) || (0x30 <= u && u <= 0x39) || c == '-'
        || c == '_'
}

pub fn whitespace_char(c: char) -> (r: bool)
    ensures
        r == is_whitespace(c),
{
    let u = c as u32;
    u == 0x09 || u == 0x0A || u == 0x0B || u == 0x0C || u == 0x0D || u == 0x20 || u == 0x85
        || u == 0xA0 || u == 0x1680 || (0x2000 <= u && u <= 0x200A) || u == 0x2028 || u == 0x2029
        || u == 0x202F || u == 0x205F || u == 0x3000
}

pub fn word_char(c: char) -> (r: bool)
    ensures
        r == is_word(c),
{
    let u = c as u32;
    (0x30 <= u && u <= 0x39) || (0x41 <= u && u <= 0x5A) || (0x61 <= u && u <= 0x7A) || u == 0x5F
}

pub fn raw_text_char(c: char) -> (r: bool)
    ensures
        r == is_raw_text_char(c),
{
    let u = c as u32;
    (0x30 <= u && u <= 0x39) || (0x400 <= u && u <= 0x4FF) || (0x500 <= u && u <= 0x52F) || (0x1C80
        <= u && u <= 0x1C88) || (0x2DE0 <= u && u <= 0x2DFF) || (0xA640 <= u && u <= 0xA69F) || (
    0x41 <= u && u <= 0x5A) || (0x61 <= u && u <= 0x7A) || (0xC0 <= u && u <= 0xD6) || (0xD8 <= u
        && u <= 0xF6) || (0xF8 <= u && u <= 0x24F) || (0x1E00 <= u && u <= 0x1EFF) || (0x2C60 <= u
        && u <= 0x2C7F) || (0xA720 <= u && u <= 0xA7FF) || whitespace_char(c) || c == ','
        || c == '-' || c == ':' || c == '.' || c == '\'' || c == '"'
}

pub fn base64url_char(c: char) -> (r: bool)
    ensures
        r == is_base64url(c),
{
    let u = c as u32;
    (0x41 <= u && u <= 0x5A) || (0x61 <= u && u <= 0x7A) || (0x30 <= u && u <= 0x39) || c == '-'
        || c == '_'
}

/// Relies on String::push: appends exactly the one character.
/// vstd specifies append for string slices but not push for a single char.
#[verifier::external_body]
pub fn push_char(s: &mut String, c: char)
    ensures
        final(s)@ == old(s)@ + seq![c],
{
    s.push(c)
}

/// Collects the characters of a string into a vector, so that the parsers can
/// index them directly.
pub fn chars_of(s: &str) -> (r: Vec<char>)
    ensures
        r@ == s@,
{
    let n = s.unicode_len();
    let mut r: Vec<char> = Vec::new();
    let mut i: usize = 0;
    while i < n
        invariant
            n == s@.len(),
            i <= n,
            r@ == s@.subrange(0, i as int),
        decreases n - i,
    {
        r.push(s.get_char(i));
        assert(r@ =~= s@.subrange(0, i + 1 as int));
        i = i + 1;
    }
    assert(r@ =~= s@);
    r
}

/// The characters `cs[a..b]` as a string.
pub fn string_of_range(cs: &Vec<char>, a: usize, b: usize) -> (r: String)
    requires
        a <= b <= cs@.len(),
    ensures
        r@ == cs@.subrange(a as int, b as int),
{
    let mut r = String::new();
    proof {
        assert(r@ =~= cs@.subrange(a as int, a as int));
    }
    let mut t: usize = a;
    while t < b
        invariant
            a <= t <= b <= cs@.len(),
            r@ == cs@.subrange(a as int, t as int),
        decreases b - t,
    {
        push_char(&mut r, cs[t]);
        proof {
            assert(r@ =~= cs@.subrange(a as int, t + 1 as int));
        }
        t = t + 1;
    }
    r
}

} // verus!
