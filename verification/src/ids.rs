//! Object identifiers: 128-bit content-derived values, presented in text as
//! 22 characters of the URL-safe base64 alphabet.

use vstd::prelude::*;
use crate::chars::is_base64url;

verus! {

/// A 128-bit identifier. Equality and order are those of the value.
#[derive(Clone, Copy, PartialEq, Eq, Structural, Hash, Debug)]
pub struct ObjectId {
    pub value: u128,
}

/// 64^k.
pub open spec fn p64(k: nat) -> int
    decreases k,
{
    if k == 0 {
        1
    } else {
        64 * p64((k - 1) as nat)
    }
}

/// The numeric value of a base64url character, -1 when the character is not
/// in the alphabet.
pub open spec fn b64_val(c: char) -> int {
    let u = c as u32 as int;
    if 0x41 <= u && u <= 0x5A {
        u - 0x41
    } else if 0x61 <= u && u <= 0x7A {
        u - 0x61 + 26
    } else if 0x30 <= u && u <= 0x39 {
        u - 0x30 + 52
    } else if c == '-' {
        62
    } else if c == '_' {
        63
    } else {
        -1
    }
}

/// The base64url character of a digit in 0..64.
pub open spec fn b64_char(d: int) -> char {
    if 0 <= d && d < 26 {
        ((0x41 + d) as u8) as char
    } else if 26 <= d && d < 52 {
        ((0x61 + d - 26) as u8) as char
    } else if 52 <= d && d < 62 {
        ((0x30 + d - 52) as u8) as char
    } else if d == 62 {
        '-'
    } else {
        '_'
    }
}

/// Digit `i` (0 = leftmost) of the textual form of `v`: the first 21
/// characters carry the 126 high bits, the last character carries the low two
/// bits in its high positions, so its value is a multiple of 16.
pub open spec fn id_digit(v: u128, i: int) -> int {
    if i < 21 {
        ((v as int) / 4) / p64((20 - i) as nat) % 64
    } else {
        ((v as int) % 4) * 16
    }
}

/// The 22-character textual form of an identifier value.
pub open spec fn id_text(v: u128) -> Seq<char> {
    Seq::new(22, |i: int| b64_char(id_digit(v, i)))
}

/// The value read back from 22 base64url characters by Horner's rule over the
/// first 21 digits, the last character contributing the low two bits.
pub open spec fn horner(s: Seq<char>, k: int) -> int
    decreases k,
{
    if k <= 0 {
        0
    } else {
        horner(s, k - 1) * 64 + b64_val(s[k - 1])
    }
}

/// Whether a character sequence is the textual form of some identifier:
/// 22 alphabet characters whose last digit is a multiple of 16.
pub open spec fn is_id_text(s: Seq<char>) -> bool {
    s.len() == 22 && (forall|i: int| 0 <= i < 22 ==> b64_val(#[trigger] s[i]) >= 0) && b64_val(
        s[21],
    ) % 16 == 0
}

/// The identifier value of a valid textual form.
pub open spec fn id_text_value(s: Seq<char>) -> int {
    horner(s, 21) * 4 + b64_val(s[21]) / 16
}

proof fn lemma_p64_21()
    ensures
        p64(21) == 0x40000000000000000000000000000000,
{
    reveal_with_fuel(p64, 22);
}

proof fn lemma_p64_pos(k: nat)
    ensures
        p64(k) >= 1,
    decreases k,
{
    if k > 0 {
        lemma_p64_pos((k - 1) as nat);
    }
}

proof fn lemma_b64_char_val(d: int)
    requires
        0 <= d < 64,
    ensures
        b64_val(b64_char(d)) == d,
        is_base64url(b64_char(d)),
{
}

/// Each digit of the textual form is in 0..64.
proof fn lemma_id_digit_bounds(v: u128, i: int)
    requires
        0 <= i < 22,
    ensures
        0 <= id_digit(v, i) < 64,
        i == 21 ==> id_digit(v, i) % 16 == 0,
{
    if i < 21 {
        lemma_p64_pos((20 - i) as nat);
    }
}

/// The textual form of a value is a valid identifier text.
pub proof fn lemma_id_text_valid(v: u128)
    ensures
        is_id_text(id_text(v)),
        forall|i: int| 0 <= i < 22 ==> is_base64url(#[trigger] id_text(v)[i]),
{
    assert forall|i: int| 0 <= i < 22 implies b64_val(#[trigger] id_text(v)[i]) >= 0
        && is_base64url(id_text(v)[i]) by {
        lemma_id_digit_bounds(v, i);
        lemma_b64_char_val(id_digit(v, i));
    }
    lemma_id_digit_bounds(v, 21);
    lemma_b64_char_val(id_digit(v, 21));
}

/// Horner's rule over the digits of `w` rebuilds the prefix quotients of `w`.
proof fn lemma_horner_digits(s: Seq<char>, w: int, j: int)
    requires
        0 <= j <= 21,
        0 <= w < p64(21),
        forall|k: int| 0 <= k < 21 ==> b64_val(#[trigger] s[k]) == w / p64((20 - k) as nat) % 64,
    ensures
        horner(s, j) == w / p64((21 - j) as nat),
    decreases j,
{
    if j == 0 {
        lemma_p64_pos(21);
        vstd::arithmetic::div_mod::lemma_basic_div_specific_divisor(p64(21));
    } else {
        lemma_horner_digits(s, w, j - 1);
        let m = p64((21 - j) as nat);
        lemma_p64_pos((21 - j) as nat);
        assert(p64((22 - j) as nat) == 64 * m);
        vstd::arithmetic::div_mod::lemma_div_denominator(w, m, 64);
        assert(w / (m * 64) == (w / m) / 64);
        vstd::arithmetic::div_mod::lemma_fundamental_div_mod_converse(
            w / m,
            64,
            (w / m) / 64,
            (w / m) % 64,
        );
        assert(horner(s, j) == horner(s, j - 1) * 64 + b64_val(s[j - 1]));
        assert(b64_val(s[j - 1]) == w / p64((21 - j) as nat) % 64);
        assert(horner(s, j - 1) == w / p64((22 - j) as nat));
        assert(w / (64 * m) * 64 + (w / m) % 64 == w / m) by {
            vstd::arithmetic::div_mod::lemma_fundamental_div_mod(w / m, 64);
            assert(w / (64 * m) == (w / m) / 64) by {
                assert(64 * m == m * 64);
            }
        }
    }
}

/// Reading the textual form of a value back yields the value: the codec
/// round-trips.
pub proof fn lemma_id_text_round_trip(v: u128)
    ensures
        id_text_value(id_text(v)) == v as int,
{
    let s = id_text(v);
    let w = (v as int) / 4;
    assert(0 <= w < p64(21)) by {
        lemma_p64_21();
    }
    assert forall|k: int| 0 <= k < 21 implies b64_val(#[trigger] s[k]) == w / p64(
        (20 - k) as nat,
    ) % 64 by {
        lemma_id_digit_bounds(v, k);
        lemma_b64_char_val(id_digit(v, k));
    }
    lemma_horner_digits(s, w, 21);
    assert(p64(0) == 1);
    assert(horner(s, 21) == w);
    lemma_id_digit_bounds(v, 21);
    lemma_b64_char_val(id_digit(v, 21));
    assert(b64_val(s[21]) == (v as int) % 4 * 16);
    assert(id_text_value(s) == w * 4 + (v as int) % 4);
    vstd::arithmetic::div_mod::lemma_fundamental_div_mod(v as int, 4);
}

/// An alphabet character is recovered from its digit value.
proof fn lemma_b64_val_char(c: char)
    requires
        b64_val(c) >= 0,
    ensures
        b64_char(b64_val(c)) == c,
{
}

/// With every digit in range, Horner's rule stays under the corresponding
/// power.
proof fn lemma_horner_bounds(s: Seq<char>, j: int)
    requires
        0 <= j,
        forall|k: int| 0 <= k < j ==> b64_val(#[trigger] s[k]) >= 0,
    ensures
        0 <= horner(s, j) < p64(j as nat),
    decreases j,
{
    if j > 0 {
        lemma_horner_bounds(s, j - 1);
        let h = horner(s, j - 1);
        let d = b64_val(s[j - 1]);
        assert(d <= 63);
        assert(h * 64 <= (p64((j - 1) as nat) - 1) * 64) by (nonlinear_arith)
            requires
                h <= p64((j - 1) as nat) - 1,
        ;
        assert(h * 64 >= 0) by (nonlinear_arith)
            requires
                h >= 0,
        ;
        assert(p64(j as nat) == 64 * p64((j - 1) as nat));
    }
}

/// The tail of the digit expansion: the value its digits from `j` on carry.
spec fn rest_sum(s: Seq<char>, j: int) -> int
    decreases 21 - j,
{
    if !(0 <= j < 21) {
        0
    } else {
        b64_val(s[j]) * p64((20 - j) as nat) + rest_sum(s, j + 1)
    }
}

/// Splitting the digit expansion at `j`: the head digits shifted past the
/// tail, whose value stays under the shift.
proof fn lemma_horner_decomp(s: Seq<char>, j: int)
    requires
        0 <= j <= 21,
        forall|k: int| 0 <= k < 21 ==> b64_val(#[trigger] s[k]) >= 0,
    ensures
        horner(s, 21) == horner(s, j) * p64((21 - j) as nat) + rest_sum(s, j),
        0 <= rest_sum(s, j) < p64((21 - j) as nat),
    decreases 21 - j,
{
    if j == 21 {
        assert(p64(0) == 1);
    } else {
        lemma_horner_decomp(s, j + 1);
        let h = horner(s, j);
        let d = b64_val(s[j]);
        let p = p64((20 - j) as nat);
        lemma_p64_pos((20 - j) as nat);
        assert(horner(s, j + 1) == h * 64 + d);
        assert((h * 64 + d) * p == h * (64 * p) + d * p) by (nonlinear_arith);
        assert(p64((21 - j) as nat) == 64 * p);
        assert(d * p <= 63 * p) by (nonlinear_arith)
            requires
                d <= 63,
                p >= 0,
        ;
        assert(d * p >= 0) by (nonlinear_arith)
            requires
                d >= 0,
                p >= 0,
        ;
        assert(rest_sum(s, j) == d * p + rest_sum(s, j + 1));
        assert(63 * p + p == 64 * p) by (nonlinear_arith);
    }
}

/// The codec is one-to-one: a valid textual form is the textual form of
/// the value it carries, so the 22-character spelling of an identifier is
/// unique.
pub proof fn lemma_id_text_unique(t: Seq<char>)
    requires
        is_id_text(t),
    ensures
        0 <= id_text_value(t) < 0x100000000000000000000000000000000,
        id_text(id_text_value(t) as u128) == t,
{
    lemma_p64_21();
    lemma_horner_bounds(t, 21);
    let w = horner(t, 21);
    let d21 = b64_val(t[21]);
    let val = id_text_value(t);
    assert(val == w * 4 + d21 / 16);
    assert(0 <= d21 / 16 <= 3);
    assert(w * 4 <= (p64(21) - 1) * 4) by (nonlinear_arith)
        requires
            w <= p64(21) - 1,
    ;
    assert(w * 4 >= 0) by (nonlinear_arith)
        requires
            w >= 0,
    ;
    let v = val as u128;
    assert(v as int == val);
    vstd::arithmetic::div_mod::lemma_fundamental_div_mod_converse(val, 4, w, d21 / 16);
    assert((v as int) / 4 == w);
    assert((v as int) % 4 == d21 / 16);
    // The final digit.
    assert(d21 == (d21 / 16) * 16) by {
        vstd::arithmetic::div_mod::lemma_fundamental_div_mod(d21, 16);
    }
    assert(id_digit(v, 21) == d21);
    // The leading digits.
    assert forall|i: int| 0 <= i < 21 implies id_digit(v, i) == b64_val(t[i]) by {
        lemma_horner_decomp(t, i + 1);
        let p = p64((20 - i) as nat);
        lemma_p64_pos((20 - i) as nat);
        vstd::arithmetic::div_mod::lemma_fundamental_div_mod_converse(
            w,
            p,
            horner(t, i + 1),
            rest_sum(t, i + 1),
        );
        assert(w / p == horner(t, i + 1));
        assert(horner(t, i + 1) == horner(t, i) * 64 + b64_val(t[i]));
        vstd::arithmetic::div_mod::lemma_fundamental_div_mod_converse(
            horner(t, i + 1),
            64,
            horner(t, i),
            b64_val(t[i]),
        );
        assert(horner(t, i + 1) % 64 == b64_val(t[i]));
    }
    assert forall|i: int| 0 <= i < 22 implies #[trigger] id_text(v)[i] == t[i] by {
        assert(id_text(v)[i] == b64_char(id_digit(v, i)));
        lemma_b64_val_char(t[i]);
    }
    assert(id_text(v) =~= t);
}

fn b64_char_of(d: u8) -> (c: char)
    requires
        d < 64,
    ensures
        c == b64_char(d as int),
{
    if d < 26 {
        (0x41 + d) as char
    } else if d < 52 {
        (0x61 + d - 26) as char
    } else if d < 62 {
        (0x30 + d - 52) as char
    } else if d == 62 {
        '-'
    } else {
        '_'
    }
}

fn b64_val_of(c: char) -> (d: i32)
    ensures
        d as int == b64_val(c),
{
    let u = c as u32;
    if 0x41 <= u && u <= 0x5A {
        (u - 0x41) as i32
    } else if 0x61 <= u && u <= 0x7A {
        (u - 0x61 + 26) as i32
    } else if 0x30 <= u && u <= 0x39 {
        (u - 0x30 + 52) as i32
    } else if c == '-' {
        62
    } else if c == '_' {
        63
    } else {
        -1
    }
}

impl ObjectId {
    /// The 22 characters of the textual form of this identifier.
    pub fn text_chars(&self) -> (r: Vec<char>)
        ensures
            r@ == id_text(self.value),
    {
        let v = self.value;
        let mut digits: Vec<u8> = Vec::new();
        let mut w: u128 = v / 4;
        let ghost w0 = (v as int) / 4;
        let mut j: usize = 0;
        while j < 21
            invariant
                j <= 21,
                digits@.len() == j,
                w0 == (v as int) / 4,
                w as int == w0 / p64(j as nat),
                forall|k: int|
                    0 <= k < j ==> digits@[k] as int == w0 / p64(k as nat) % 64 && digits@[k] < 64,
            decreases 21 - j,
        {
            proof {
                lemma_p64_pos(j as nat);
                vstd::arithmetic::div_mod::lemma_div_denominator(w0, p64(j as nat), 64);
            }
            digits.push((w % 64) as u8);
            w = w / 64;
            j = j + 1;
        }
        let mut r: Vec<char> = Vec::new();
        let mut i: usize = 0;
        while i < 21
            invariant
                i <= 21,
                digits@.len() == 21,
                w0 == (v as int) / 4,
                forall|k: int|
                    0 <= k < 21 ==> digits@[k] as int == w0 / p64(k as nat) % 64 && digits@[k] < 64,
                r@.len() == i,
                forall|k: int| 0 <= k < i ==> #[trigger] r@[k] == b64_char(id_digit(v, k)),
            decreases 21 - i,
        {
            r.push(b64_char_of(digits[20 - i]));
            i = i + 1;
        }
        let last: u8 = ((v % 4) * 16) as u8;
        r.push(b64_char_of(last));
        proof {
            assert(last as int == id_digit(v, 21));
            assert(r@ =~= id_text(v));
        }
        r
    }

    /// Reads an identifier back from 22 characters of its textual form.
    /// Returns `None` when the characters are not a valid textual form.
    pub fn from_text_chars(s: &Vec<char>) -> (r: Option<ObjectId>)
        ensures
            r is Some <==> is_id_text(s@),
            r is Some ==> r->Some_0.value as int == id_text_value(s@),
    {
        if s.len() != 22 {
            return None;
        }
        let mut acc: u128 = 0;
        let mut j: usize = 0;
        while j < 21
            invariant
                j <= 21,
                s@.len() == 22,
                forall|k: int| 0 <= k < j ==> b64_val(#[trigger] s@[k]) >= 0,
                acc as int == horner(s@, j as int),
                (acc as int) < p64(j as nat),
            decreases 21 - j,
        {
            let d = b64_val_of(s[j]);
            if d < 0 {
                proof {
                    assert(b64_val(s@[j as int]) < 0);
                }
                return None;
            }
            proof {
                lemma_p64_pos(j as nat);
                assert(p64((j + 1) as nat) == 64 * p64(j as nat));
                assert(acc as int * 64 + (d as int) < p64((j + 1) as nat));
                assert(p64((j + 1) as nat) <= p64(21)) by {
                    lemma_p64_increases((j + 1) as nat, 21);
                }
                lemma_p64_21();
            }
            acc = acc * 64 + (d as u128);
            j = j + 1;
        }
        let d_last = b64_val_of(s[21]);
        if d_last < 0 || d_last % 16 != 0 {
            return None;
        }
        proof {
            lemma_p64_21();
        }
        let value: u128 = acc * 4 + (d_last as u128) / 16;
        Some(ObjectId { value })
    }
}

proof fn lemma_p64_increases(a: nat, b: nat)
    requires
        a <= b,
    ensures
        p64(a) <= p64(b),
    decreases b,
{
    if a < b {
        lemma_p64_increases(a, (b - 1) as nat);
        lemma_p64_pos((b - 1) as nat);
    }
}

} // verus!
