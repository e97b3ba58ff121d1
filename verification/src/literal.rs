//! Floating-point numerals in text.
//!
//! A numeral is an optional sign, then `inf`, `infinity` or `nan` in any
//! mix of upper and lower case, or a decimal number: digits with an optional
//! point among them, at least one digit in all, and an optional exponent,
//! `e` or `E` with an optional sign and at least one digit. A decimal number
//! stands for the number of the format nearest to it, ties to even.

use crate::decimal::{
    binary32, binary64, lemma_digits_below, lemma_rounded_far_above, lemma_rounded_far_below,
    lemma_rounded_zero, to_magnitude, Format,
};
use crate::number::{digits_value, is_digit, lemma_digits_prefix};
use vstd::prelude::*;
use vstd::string::StrSliceExecFns;

verus! {

/// From this exponent on, whatever the digits are, the number is out of
/// range: 2^70.
pub const SATURATED: i128 = 0x40_0000_0000_0000_0000;

/// The character is a plus or a minus sign.
pub open spec fn is_sign(c: char) -> bool {
    c == '+' || c == '-'
}

/// The character is the lower-case letter `w` or its upper-case form.
pub open spec fn matches_letter(c: char, w: char) -> bool {
    c == w || (0x41 <= c as u32 <= 0x5A && c as u32 + 32 == w as u32)
}

/// The text is the lower-case word `w` in some mix of upper and lower case.
pub open spec fn matches_word(s: Seq<char>, w: Seq<char>) -> bool {
    s.len() == w.len() && forall|i: int| 0 <= i < s.len() ==> matches_letter(#[trigger] s[i], w[i])
}

/// The text without its sign, where it has one.
pub open spec fn unsigned_part(s: Seq<char>) -> Seq<char> {
    if s.len() > 0 && is_sign(s[0]) {
        s.skip(1)
    } else {
        s
    }
}

/// The text starts with a minus sign.
pub open spec fn starts_negative(s: Seq<char>) -> bool {
    s.len() > 0 && s[0] == '-'
}

/// The end of the run of digits that starts at `from`.
pub open spec fn digits_end(s: Seq<char>, from: int) -> int
    decreases s.len() - from,
{
    if 0 <= from < s.len() && is_digit(s[from]) {
        digits_end(s, from + 1)
    } else {
        from
    }
}

/// The end of the digits before the point.
pub open spec fn whole_end(b: Seq<char>) -> int {
    digits_end(b, 0)
}

/// A point follows the digits before it.
pub open spec fn has_point(b: Seq<char>) -> bool {
    0 <= whole_end(b) < b.len() && b[whole_end(b)] == '.'
}

/// The end of the digits after the point; the end of the digits before it
/// where there is no point.
pub open spec fn fraction_end(b: Seq<char>) -> int {
    if has_point(b) {
        digits_end(b, whole_end(b) + 1)
    } else {
        whole_end(b)
    }
}

/// The number of digits after the point.
pub open spec fn fraction_len(b: Seq<char>) -> int {
    if has_point(b) {
        fraction_end(b) - whole_end(b) - 1
    } else {
        0
    }
}

/// The digits of the number, those before the point and those after it.
pub open spec fn mantissa_digits(b: Seq<char>) -> Seq<char> {
    if has_point(b) {
        b.subrange(0, whole_end(b)) + b.subrange(whole_end(b) + 1, fraction_end(b))
    } else {
        b.subrange(0, whole_end(b))
    }
}

/// Something follows the digits: it has to be an exponent.
pub open spec fn has_exponent(b: Seq<char>) -> bool {
    fraction_end(b) < b.len()
}

/// Where the digits of the exponent start: behind the `e` and the sign.
pub open spec fn exponent_start(b: Seq<char>) -> int {
    let at = fraction_end(b) + 1;
    if 0 <= at < b.len() && is_sign(b[at]) {
        at + 1
    } else {
        at
    }
}

/// The exponent is negative.
pub open spec fn exponent_negative(b: Seq<char>) -> bool {
    let at = fraction_end(b) + 1;
    0 <= at < b.len() && b[at] == '-'
}

/// The exponent; zero where there is none.
pub open spec fn exponent_value(b: Seq<char>) -> int {
    if !has_exponent(b) {
        0
    } else {
        let v = digits_value(b.subrange(exponent_start(b), b.len() as int)) as int;
        if exponent_negative(b) {
            -v
        } else {
            v
        }
    }
}

/// The text is a decimal number.
pub open spec fn is_number(b: Seq<char>) -> bool {
    &&& mantissa_digits(b).len() >= 1
    &&& has_exponent(b) ==> {
        &&& matches_letter(b[fraction_end(b)], 'e')
        &&& exponent_start(b) < b.len()
        &&& digits_end(b, exponent_start(b)) == b.len()
    }
}

/// The power of ten by which the digits of the number are to be taken.
pub open spec fn scale_of(b: Seq<char>) -> int {
    exponent_value(b) - fraction_len(b)
}

/// The word `inf`.
pub open spec fn word_inf() -> Seq<char> {
    seq!['i', 'n', 'f']
}

/// The word `infinity`.
pub open spec fn word_infinity() -> Seq<char> {
    seq!['i', 'n', 'f', 'i', 'n', 'i', 't', 'y']
}

/// The word `nan`.
pub open spec fn word_nan() -> Seq<char> {
    seq!['n', 'a', 'n']
}

/// The bit pattern that the text stands for in the format, where it is a
/// numeral: the sign bit for a minus sign, and the magnitude of infinity, of
/// the quiet not-a-number, or of the nearest number.
pub open spec fn numeral_bits(fmt: Format, s: Seq<char>) -> Option<nat> {
    let b = unsigned_part(s);
    let sign: nat = if starts_negative(s) {
        (fmt.top + fmt.hidden) as nat
    } else {
        0
    };
    if matches_word(b, word_inf()) || matches_word(b, word_infinity()) {
        Some(sign + fmt.top as nat)
    } else if matches_word(b, word_nan()) {
        Some(sign + fmt.top as nat + fmt.hidden as nat / 2)
    } else if is_number(b) {
        Some(sign + fmt.rounded(digits_value(mantissa_digits(b)), scale_of(b)))
    } else {
        None
    }
}

/// `digits_end` stays within the text, and only digits lie before it.
pub proof fn lemma_digits_end(s: Seq<char>, from: int)
    requires
        0 <= from <= s.len(),
    ensures
        from <= digits_end(s, from) <= s.len(),
        forall|i: int| from <= i < digits_end(s, from) ==> is_digit(#[trigger] s[i]),
        digits_end(s, from) < s.len() ==> !is_digit(s[digits_end(s, from)]),
    decreases s.len() - from,
{
    if from < s.len() && is_digit(s[from]) {
        lemma_digits_end(s, from + 1);
    }
}

/// The characters of a text.
fn chars_of(s: &str) -> (r: Vec<char>)
    ensures
        r@ == s@,
{
    let n = s.unicode_len();
    let mut out: Vec<char> = Vec::new();
    let mut i: usize = 0;
    while i < n
        invariant
            0 <= i <= n,
            n == s@.len(),
            out@ == s@.take(i as int),
        decreases n - i,
    {
        out.push(s.get_char(i));
        proof {
            assert(out@ =~= s@.take(i + 1));
        }
        i = i + 1;
    }
    proof {
        assert(s@.take(n as int) =~= s@);
    }
    out
}

/// Finds the end of the run of digits that starts at `from`.
fn scan_digits(b: &Vec<char>, from: usize) -> (r: usize)
    requires
        from <= b.len(),
    ensures
        r == digits_end(b@, from as int),
        from <= r <= b.len(),
        forall|i: int| from <= i < r ==> is_digit(#[trigger] b@[i]),
{
    let mut i: usize = from;
    proof {
        lemma_digits_end(b@, from as int);
    }
    while i < b.len() && 0x30 <= b[i] as u32 && b[i] as u32 <= 0x39
        invariant
            from <= i <= b.len(),
            digits_end(b@, i as int) == digits_end(b@, from as int),
        decreases b.len() - i,
    {
        assert(is_digit(b@[i as int]));
        i = i + 1;
    }
    assert(digits_end(b@, i as int) == i);
    i
}

/// Tells whether the text is the lower-case word in some mix of cases.
fn is_word(b: &Vec<char>, word: &Vec<char>) -> (r: bool)
    ensures
        r == matches_word(b@, word@),
{
    if b.len() != word.len() {
        return false;
    }
    let mut i: usize = 0;
    while i < b.len()
        invariant
            0 <= i <= b.len(),
            b.len() == word.len(),
            forall|k: int| 0 <= k < i ==> matches_letter(#[trigger] b@[k], word@[k]),
        decreases b.len() - i,
    {
        let c = b[i];
        let w = word[i];
        let cu: u32 = c as u32;
        let wu: u32 = w as u32;
        let upper = 0x41 <= cu && cu <= 0x5A && cu + 32 == wu;
        if !(c == w || upper) {
            assert(!matches_letter(b@[i as int], word@[i as int]));
            return false;
        }
        i = i + 1;
    }
    true
}

/// Takes the sign off a text.
fn body_of(all: &Vec<char>) -> (b: Vec<char>)
    ensures
        b@ == unsigned_part(all@),
{
    let start: usize = if all.len() > 0 && (all[0] == '+' || all[0] == '-') {
        1
    } else {
        0
    };
    let mut b: Vec<char> = Vec::new();
    let mut i: usize = start;
    while i < all.len()
        invariant
            start <= i <= all.len(),
            b@ == all@.subrange(start as int, i as int),
        decreases all.len() - i,
    {
        b.push(all[i]);
        proof {
            assert(b@ =~= all@.subrange(start as int, i + 1));
        }
        i = i + 1;
    }
    assert(b@ =~= unsigned_part(all@));
    b
}

/// Gathers the digits of a number and finds where they end.
fn read_mantissa(b: &Vec<char>) -> (r: (Vec<char>, usize, usize))
    ensures
        r.0@ == mantissa_digits(b@),
        r.1 == fraction_end(b@),
        r.2 == fraction_len(b@),
        r.1 <= b@.len(),
        forall|k: int| 0 <= k < r.0@.len() ==> is_digit(#[trigger] r.0@[k]),
{
    let n = b.len();
    let whole = scan_digits(b, 0);
    let point = whole < n && b[whole] == '.';
    let end = if point {
        scan_digits(b, whole + 1)
    } else {
        whole
    };
    let mut digits: Vec<char> = Vec::new();
    let mut j: usize = 0;
    while j < whole
        invariant
            0 <= j <= whole <= n,
            n == b@.len(),
            digits@ == b@.subrange(0, j as int),
        decreases whole - j,
    {
        digits.push(b[j]);
        proof {
            assert(digits@ =~= b@.subrange(0, j + 1));
        }
        j = j + 1;
    }
    if point {
        let mut k: usize = whole + 1;
        assert(digits@ =~= b@.subrange(0, whole as int) + b@.subrange(whole + 1, k as int));
        while k < end
            invariant
                whole + 1 <= k <= end <= n,
                n == b@.len(),
                digits@ == b@.subrange(0, whole as int) + b@.subrange(whole + 1, k as int),
            decreases end - k,
        {
            digits.push(b[k]);
            proof {
                assert(digits@ =~= b@.subrange(0, whole as int) + b@.subrange(whole + 1, k + 1));
            }
            k = k + 1;
        }
        (digits, end, end - whole - 1)
    } else {
        (digits, end, 0)
    }
}

/// Reads the digits of an exponent, up to `SATURATED`.
fn read_exponent(b: &Vec<char>, from: usize) -> (r: i128)
    requires
        from <= b.len(),
        forall|i: int| from <= i < b@.len() ==> is_digit(#[trigger] b@[i]),
    ensures
        0 <= r <= SATURATED,
        r < SATURATED ==> r == digits_value(b@.subrange(from as int, b@.len() as int)),
        r == SATURATED ==> digits_value(b@.subrange(from as int, b@.len() as int)) >= SATURATED,
{
    let ghost text = b@.subrange(from as int, b@.len() as int);
    let mut acc: i128 = 0;
    let mut i: usize = from;
    proof {
        assert(text.take(0) =~= Seq::<char>::empty());
    }
    while i < b.len()
        invariant
            from <= i <= b.len(),
            text == b@.subrange(from as int, b@.len() as int),
            forall|k: int| from <= k < b@.len() ==> is_digit(#[trigger] b@[k]),
            0 <= acc <= SATURATED,
            acc < SATURATED ==> acc == digits_value(text.take(i - from)),
            acc == SATURATED ==> digits_value(text.take(i - from)) >= SATURATED,
        decreases b.len() - i,
    {
        let c = b[i];
        assert(is_digit(b@[i as int]));
        proof {
            assert(text.take(i - from + 1).drop_last() =~= text.take(i - from));
            assert(text.take(i - from + 1).last() == c);
            lemma_digits_prefix(text.take(i - from + 1), i - from);
            assert(text.take(i - from + 1).take(i - from) =~= text.take(i - from));
        }
        if acc < SATURATED {
            let next: i128 = acc * 10 + ((c as u32 - 0x30) as i128);
            acc = if next >= SATURATED {
                SATURATED
            } else {
                next
            };
        }
        i = i + 1;
    }
    proof {
        assert(text.take(text.len() as int) =~= text);
    }
    acc
}

/// What follows the digits of a number is an exponent, or nothing.
pub open spec fn exponent_fits(b: Seq<char>) -> bool {
    has_exponent(b) ==> {
        &&& matches_letter(b[fraction_end(b)], 'e')
        &&& exponent_start(b) < b.len()
        &&& digits_end(b, exponent_start(b)) == b.len()
    }
}

/// Reads what follows the digits of a number: the exponent, held within
/// `SATURATED` on either side, or nothing where it is no exponent.
fn read_scale(b: &Vec<char>, end: usize) -> (r: Option<i128>)
    requires
        end == fraction_end(b@),
        end <= b@.len(),
    ensures
        r is Some == exponent_fits(b@),
        r is Some ==> {
            let e = r->Some_0;
            &&& -SATURATED <= e <= SATURATED
            &&& -SATURATED < e < SATURATED ==> e == exponent_value(b@)
            &&& e == SATURATED ==> exponent_value(b@) >= SATURATED
            &&& e == -SATURATED ==> exponent_value(b@) <= -SATURATED
        },
{
    let n = b.len();
    if end >= n {
        return Some(0);
    }
    let e = b[end];
    let eu: u32 = e as u32;
    if !(e == 'e' || (0x41 <= eu && eu <= 0x5A && eu + 32 == 'e' as u32)) {
        return None;
    }
    let at = end + 1;
    let from = if at < n && (b[at] == '+' || b[at] == '-') {
        at + 1
    } else {
        at
    };
    if from >= n {
        return None;
    }
    let stop = scan_digits(b, from);
    if stop != n {
        return None;
    }
    let magnitude = read_exponent(b, from);
    if at < n && b[at] == '-' {
        Some(-magnitude)
    } else {
        Some(magnitude)
    }
}

/// Reads a numeral as a bit pattern of the format.
pub fn parse_numeral(fmt: Format, s: &str) -> (r: Option<u64>)
    requires
        fmt.well_formed(),
    ensures
        match numeral_bits(fmt, s@) {
            Some(bits) => r == Some(bits as u64) && bits < 2 * (fmt.top + fmt.hidden),
            None => r is None,
        },
{
    let all = chars_of(s);
    let negative = all.len() > 0 && all[0] == '-';
    let b = body_of(&all);
    let sign: u64 = if negative {
        fmt.top + fmt.hidden
    } else {
        0
    };
    let inf: Vec<char> = vec!['i', 'n', 'f'];
    let infinity: Vec<char> = vec!['i', 'n', 'f', 'i', 'n', 'i', 't', 'y'];
    let nan: Vec<char> = vec!['n', 'a', 'n'];
    assert(inf@ =~= word_inf());
    assert(infinity@ =~= word_infinity());
    assert(nan@ =~= word_nan());
    if is_word(&b, &inf) || is_word(&b, &infinity) {
        return Some(sign + fmt.top);
    }
    if is_word(&b, &nan) {
        return Some(sign + fmt.top + fmt.hidden / 2);
    }
    let (digits, end, fraction) = read_mantissa(&b);
    if digits.len() == 0 {
        return None;
    }
    let exponent = match read_scale(&b, end) {
        Some(e) => e,
        None => {
            return None;
        },
    };
    assert(is_number(b@));
    let x: i128 = exponent - (fraction as i128);
    let m = to_magnitude(fmt, &digits, x);
    proof {
        let d = digits_value(digits@);
        let true_x = scale_of(b@);
        if true_x != x {
            lemma_digits_below(digits@);
            if d == 0 {
                lemma_rounded_zero(fmt, true_x);
                lemma_rounded_zero(fmt, x as int);
            } else if exponent > 0 {
                lemma_rounded_far_above(fmt, d, true_x);
                lemma_rounded_far_above(fmt, d, x as int);
            } else {
                lemma_rounded_far_below(fmt, d, digits@.len(), true_x);
                lemma_rounded_far_below(fmt, d, digits@.len(), x as int);
            }
        }
    }
    Some(sign + m)
}

/// The format binary32.
pub open spec fn format_binary32() -> Format {
    Format { hidden: 0x80_0000, top: 0x7F80_0000, unit: 149 }
}

/// The format binary64.
pub open spec fn format_binary64() -> Format {
    Format { hidden: 0x10_0000_0000_0000, top: 0x7FF0_0000_0000_0000, unit: 1074 }
}

/// The binary32 pattern that the text stands for, where it is a numeral.
pub open spec fn binary32_bits(s: Seq<char>) -> Option<u32> {
    match numeral_bits(format_binary32(), s) {
        Some(bits) => Some(bits as u32),
        None => None,
    }
}

/// The binary64 pattern that the text stands for, where it is a numeral.
pub open spec fn binary64_bits(s: Seq<char>) -> Option<u64> {
    match numeral_bits(format_binary64(), s) {
        Some(bits) => Some(bits as u64),
        None => None,
    }
}

/// Reads a numeral as a binary32 pattern.
pub fn parse_binary32(s: &str) -> (r: Option<u32>)
    ensures
        r == binary32_bits(s@),
{
    match parse_numeral(binary32(), s) {
        Some(bits) => Some(bits as u32),
        None => None,
    }
}

/// Reads a numeral as a binary64 pattern.
pub fn parse_binary64(s: &str) -> (r: Option<u64>)
    ensures
        r == binary64_bits(s@),
{
    parse_numeral(binary64(), s)
}

} // verus!
