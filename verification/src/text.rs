//! Characters, decimal numbers and the conversions between strings and sequences of
//! characters that the rest of the library builds on.

use vstd::prelude::*;

verus! {

/// `String::push` appends the character to the end of the string.
pub assume_specification[ String::push ](s: &mut String, c: char)
    ensures
        final(s)@ == old(s)@.push(c),
;

/// An ASCII decimal digit.
pub open spec fn is_digit(c: char) -> bool {
    '0' <= c <= '9'
}

/// An ASCII upper-case letter.
pub open spec fn is_upper(c: char) -> bool {
    'A' <= c <= 'Z'
}

/// A white-space character: one of the code points with the Unicode property
/// `White_Space`.
pub open spec fn is_blank(c: char) -> bool {
    ||| '\u{9}' <= c <= '\u{d}'
    ||| c == ' '
    ||| c == '\u{85}'
    ||| c == '\u{a0}'
    ||| c == '\u{1680}'
    ||| '\u{2000}' <= c <= '\u{200a}'
    ||| c == '\u{2028}'
    ||| c == '\u{2029}'
    ||| c == '\u{202f}'
    ||| c == '\u{205f}'
    ||| c == '\u{3000}'
}

/// What a digit counts for.
pub open spec fn digit_value(c: char) -> int {
    c as int - '0' as int
}

/// The digit that writes `d`, for `d` from 0 to 9.
pub open spec fn digit_char(d: int) -> char {
    (d + '0' as int) as char
}

/// Ten to the power of `exponent`.
pub open spec fn pow10(exponent: int) -> int
    decreases exponent,
{
    if exponent <= 0 {
        1
    } else {
        10 * pow10(exponent - 1)
    }
}

/// The number that a run of digits writes in base ten; 0 for the empty run.
pub open spec fn decimal_value(digits: Seq<char>) -> int
    decreases digits.len(),
{
    if digits.len() == 0 {
        0
    } else {
        decimal_value(digits.drop_last()) * 10 + digit_value(digits.last())
    }
}

/// How `n` is written in base ten, without leading zeros.
pub open spec fn decimal_text(n: int) -> Seq<char>
    decreases n,
{
    if n < 10 {
        seq![digit_char(n)]
    } else {
        decimal_text(n / 10).push(digit_char(n % 10))
    }
}

/// How many digits stand in `s` from `from` on, up to the first character that is
/// none.
pub open spec fn digit_run(s: Seq<char>, from: int) -> int
    decreases s.len() - from,
{
    if 0 <= from < s.len() && is_digit(s[from]) {
        1 + digit_run(s, from + 1)
    } else {
        0
    }
}

/// Whether `c` is an ASCII decimal digit.
pub fn char_is_digit(c: char) -> (r: bool)
    ensures
        r == is_digit(c),
{
    '0' <= c && c <= '9'
}

/// Whether `c` is an ASCII upper-case letter.
pub fn char_is_upper(c: char) -> (r: bool)
    ensures
        r == is_upper(c),
{
    'A' <= c && c <= 'Z'
}

/// Whether `c` is a white-space character.
pub fn char_is_blank(c: char) -> (r: bool)
    ensures
        r == is_blank(c),
{
    ('\u{9}' <= c && c <= '\u{d}') || c == ' ' || c == '\u{85}' || c == '\u{a0}' || c
        == '\u{1680}' || ('\u{2000}' <= c && c <= '\u{200a}') || c == '\u{2028}' || c
        == '\u{2029}' || c == '\u{202f}' || c == '\u{205f}' || c == '\u{3000}'
}

/// The characters of `text`, in order.
pub fn chars_of(text: &str) -> (r: Vec<char>)
    ensures
        r@ == text@,
{
    let mut out: Vec<char> = Vec::new();
    for c in it: text.chars()
        invariant
            out@ == it.seq().take(it.index() as int),
            it.seq() == text@,
    {
        out.push(c);
    }
    out
}

/// Appends `chars[from..to]` to `out`.
pub fn push_chars(out: &mut String, chars: &Vec<char>, from: usize, to: usize)
    requires
        from <= to <= chars.len(),
    ensures
        final(out)@ == old(out)@ + chars@.subrange(from as int, to as int),
{
    let mut i: usize = from;
    while i < to
        invariant
            from <= i <= to <= chars.len(),
            out@ == old(out)@ + chars@.subrange(from as int, i as int),
        decreases to - i,
    {
        out.push(chars[i]);
        i += 1;
        assert(chars@.subrange(from as int, i as int) == chars@.subrange(
            from as int,
            i - 1,
        ).push(chars@[i - 1]));
    }
}

/// The string made of `chars[from..to]`.
pub fn string_of(chars: &Vec<char>, from: usize, to: usize) -> (r: String)
    requires
        from <= to <= chars.len(),
    ensures
        r@ == chars@.subrange(from as int, to as int),
{
    let mut out = String::new();
    push_chars(&mut out, chars, from, to);
    out
}

/// The length of the run of digits that starts at `from`.
pub fn scan_digits(s: &Vec<char>, from: usize) -> (r: usize)
    requires
        from <= s.len(),
    ensures
        r == digit_run(s@, from as int),
        from + r <= s.len(),
{
    let mut i: usize = from;
    while i < s.len() && char_is_digit(s[i])
        invariant
            from <= i <= s.len(),
            digit_run(s@, from as int) == (i - from) + digit_run(s@, i as int),
        decreases s.len() - i,
    {
        i += 1;
    }
    i - from
}

/// The characters that a run of digits covers are digits.
pub proof fn lemma_digit_run(s: Seq<char>, from: int, i: int)
    requires
        0 <= from <= i < from + digit_run(s, from),
    ensures
        i < s.len(),
        is_digit(s[i]),
        digit_run(s, i) == from + digit_run(s, from) - i,
    decreases i - from,
{
    if from < i {
        lemma_digit_run(s, from + 1, i);
    }
}

/// The run of digits ends where the text ends or a character is no digit.
pub proof fn lemma_digit_run_end(s: Seq<char>, from: int)
    requires
        0 <= from <= s.len(),
    ensures
        0 <= digit_run(s, from),
        from + digit_run(s, from) <= s.len(),
        from + digit_run(s, from) < s.len() ==> !is_digit(s[from + digit_run(s, from)]),
    decreases s.len() - from,
{
    if from < s.len() && is_digit(s[from]) {
        lemma_digit_run_end(s, from + 1);
    }
}

/// The number that digits write is not negative, and more digits write no less.
pub proof fn lemma_decimal_value_grows(digits: Seq<char>, shorter: int)
    requires
        forall|i: int| 0 <= i < digits.len() ==> is_digit(#[trigger] digits[i]),
        0 <= shorter <= digits.len(),
    ensures
        0 <= decimal_value(digits.take(shorter)) <= decimal_value(digits),
    decreases digits.len() - shorter,
{
    if shorter == digits.len() {
        assert(digits.take(shorter) == digits);
        lemma_decimal_value_bounds(digits);
    } else {
        lemma_decimal_value_grows(digits.drop_last(), shorter);
        assert(digits.drop_last().take(shorter) == digits.take(shorter));
    }
}

/// The number that `n` digits write is not negative and less than the `n`-th power
/// of ten.
pub proof fn lemma_decimal_value_bounds(digits: Seq<char>)
    requires
        forall|i: int| 0 <= i < digits.len() ==> is_digit(#[trigger] digits[i]),
    ensures
        0 <= decimal_value(digits) < pow10(digits.len() as int),
    decreases digits.len(),
{
    if digits.len() > 0 {
        lemma_decimal_value_bounds(digits.drop_last());
    }
}

/// The number that the `len` digits from `from` on write, if it fits a `u64`.
pub fn parse_decimal(s: &Vec<char>, from: usize, len: usize) -> (r: Option<u64>)
    requires
        from + len <= s.len(),
        len <= digit_run(s@, from as int),
    ensures
        match r {
            Some(n) => n == decimal_value(s@.subrange(from as int, from + len)),
            None => decimal_value(s@.subrange(from as int, from + len)) > u64::MAX,
        },
{
    let ghost digits = s@.subrange(from as int, from + len);
    proof {
        assert forall|i: int| 0 <= i < digits.len() implies is_digit(#[trigger] digits[i]) by {
            lemma_digit_run(s@, from as int, from + i);
        }
    }
    let mut value: u64 = 0;
    let mut i: usize = 0;
    while i < len
        invariant
            i <= len,
            from + len <= s.len(),
            digits == s@.subrange(from as int, from + len),
            forall|i: int| 0 <= i < digits.len() ==> is_digit(#[trigger] digits[i]),
            value == decimal_value(digits.take(i as int)),
        decreases len - i,
    {
        let c = s[from + i];
        assert(c == digits[i as int]);
        let d: u64 = (c as u32 - '0' as u32) as u64;
        proof {
            assert(digits.take(i + 1).drop_last() == digits.take(i as int));
            lemma_decimal_value_grows(digits, i + 1);
        }
        if value > (u64::MAX - d) / 10 {
            return None;
        }
        value = value * 10 + d;
        i += 1;
    }
    assert(digits.take(len as int) == digits);
    Some(value)
}

/// Appends the decimal writing of `n` to `out`.
pub fn push_decimal(out: &mut String, n: u128)
    ensures
        final(out)@ == old(out)@ + decimal_text(n as int),
    decreases n,
{
    if n >= 10 {
        push_decimal(out, n / 10);
    }
    let d: u8 = (n % 10) as u8;
    out.push((48u8 + d) as char);
}

} // verus!
