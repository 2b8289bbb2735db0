//! The grammar of the ledger text, line by line.
//!
//! A line is blank, a comment, or the declaration of an account, an invoice or a
//! payment; the first line of a ledger is its header. Where a line could be read in
//! more than one of these ways, the first of them in this order counts. The parts of
//! a line are separated by one white-space character each.

use crate::account::{is_acronym, Account, AccountView};
use crate::date::{Date, DateView, MAX_YEAR};
use crate::money::{amount_units, fraction_units, FRACTION_DIGITS, UNITS_PER_WHOLE};
use crate::recurrence::{Period, Recurrence, RecurrenceView};
use crate::text::{
    char_is_blank, char_is_upper, decimal_value, digit_run, is_blank, is_digit, is_upper,
    lemma_decimal_value_bounds, lemma_digit_run, lemma_digit_run_end, parse_decimal, pow10,
    scan_digits, string_of,
};
use vstd::prelude::*;

verus! {

/// A white-space character stands at `at`.
pub open spec fn blank_at(s: Seq<char>, at: int) -> bool {
    0 <= at < s.len() && is_blank(s[at])
}

/// The character `c` stands at `at`.
pub open spec fn char_at(s: Seq<char>, at: int, c: char) -> bool {
    0 <= at < s.len() && s[at] == c
}

/// The characters of `word` stand at `at` and after it.
pub open spec fn word_at(s: Seq<char>, at: int, word: Seq<char>) -> bool {
    0 <= at && at + word.len() <= s.len() && s.subrange(at, at + word.len()) == word
}

/// Two upper-case letters stand at `at` and after it.
pub open spec fn acronym_at(s: Seq<char>, at: int) -> bool {
    0 <= at && at + 2 <= s.len() && is_upper(s[at]) && is_upper(s[at + 1])
}

/// A date written at `at`, as three numbers, and where its text ends: one or two
/// digits for the day, a full stop, one or two digits for the month, a full stop,
/// four digits for the year. The numbers need not name a day of the calendar.
pub open spec fn date_at(s: Seq<char>, at: int) -> Option<(DateView, int)> {
    let day_digits = digit_run(s, at);
    let month_at = at + day_digits + 1;
    let month_digits = digit_run(s, month_at);
    let year_at = month_at + month_digits + 1;
    if 0 <= at && 1 <= day_digits <= 2 && char_at(s, at + day_digits, '.') && 1 <= month_digits
        <= 2 && char_at(s, month_at + month_digits, '.') && digit_run(s, year_at) >= 4 {
        Some(
            (
                DateView {
                    year: decimal_value(s.subrange(year_at, year_at + 4)),
                    month: decimal_value(s.subrange(month_at, month_at + month_digits)),
                    day: decimal_value(s.subrange(at, at + day_digits)),
                },
                year_at + 4,
            ),
        )
    } else {
        None
    }
}

/// An amount written at `at`, in units, and where its text ends: digits, a decimal
/// point, digits, as many of each as there are.
pub open spec fn amount_at(s: Seq<char>, at: int) -> Option<(int, int)> {
    let whole_digits = digit_run(s, at);
    let fraction_at = at + whole_digits + 1;
    let fraction_digits = digit_run(s, fraction_at);
    if 0 <= at && 1 <= whole_digits && char_at(s, at + whole_digits, '.') && 1
        <= fraction_digits {
        Some(
            (
                amount_units(
                    s.subrange(at, at + whole_digits),
                    s.subrange(fraction_at, fraction_at + fraction_digits),
                ),
                fraction_at + fraction_digits,
            ),
        )
    } else {
        None
    }
}

/// A further sender stands at `at`: white space, a colon, white space, an acronym.
pub open spec fn sender_at(s: Seq<char>, at: int) -> bool {
    blank_at(s, at) && char_at(s, at + 1, ':') && blank_at(s, at + 2) && acronym_at(s, at + 3)
}

/// A recipient stands at `at`: white space, an arrow, white space, an acronym.
pub open spec fn recipient_at(s: Seq<char>, at: int) -> bool {
    blank_at(s, at) && char_at(s, at + 1, '-') && char_at(s, at + 2, '>') && blank_at(s, at + 3)
        && acronym_at(s, at + 4)
}

/// The further senders written from `at` on, one after the other, and where the
/// last of them ends.
pub open spec fn senders_at(s: Seq<char>, at: int) -> (Seq<Seq<char>>, int)
    decreases s.len() - at,
{
    if sender_at(s, at) {
        let rest = senders_at(s, at + 5);
        (seq![s.subrange(at + 3, at + 5)] + rest.0, rest.1)
    } else {
        (Seq::empty(), at)
    }
}

/// The recipients written from `at` on, one after the other, and where the last of
/// them ends.
pub open spec fn recipients_at(s: Seq<char>, at: int) -> (Seq<Seq<char>>, int)
    decreases s.len() - at,
{
    if recipient_at(s, at) {
        let rest = recipients_at(s, at + 6);
        (seq![s.subrange(at + 4, at + 6)] + rest.0, rest.1)
    } else {
        (Seq::empty(), at)
    }
}

/// What is written at `at` for a recurrence, and where it ends: white space, a
/// dash, white space, the last date, white space, a colon, white space, and the
/// step in the form of a date.
pub open spec fn range_at(s: Seq<char>, at: int) -> Option<(DateView, DateView, int)> {
    if blank_at(s, at) && char_at(s, at + 1, '-') && blank_at(s, at + 2) {
        match date_at(s, at + 3) {
            Some((end, colon_at)) => {
                if blank_at(s, colon_at) && char_at(s, colon_at + 1, ':') && blank_at(
                    s,
                    colon_at + 2,
                ) {
                    match date_at(s, colon_at + 3) {
                        Some((step, after)) => Some((end, step, after)),
                        None => None,
                    }
                } else {
                    None
                }
            },
            None => None,
        }
    } else {
        None
    }
}

/// The rest of the line from `at` on is a note: white space and then at least one
/// character.
pub open spec fn note_at(s: Seq<char>, at: int) -> bool {
    blank_at(s, at) && at + 1 < s.len()
}

/// What an invoice line says, as written.
pub struct InvoiceText {
    pub senders: Seq<Seq<char>>,
    pub recipients: Seq<Seq<char>>,
    /// The amount in units.
    pub amount: int,
    pub start: DateView,
    /// The last date and the step of the recurrence, if the line has one.
    pub range: Option<(DateView, DateView)>,
    pub note: Seq<char>,
}

/// What a payment line says, as written.
pub struct PaymentText {
    pub sender: Seq<char>,
    pub recipient: Seq<char>,
    /// The amount in units.
    pub amount: int,
    pub date: DateView,
    pub note: Seq<char>,
}

/// The header of a ledger: the word `today`, white space, and the reference date,
/// with nothing after it.
pub open spec fn header_text(s: Seq<char>) -> Option<DateView> {
    if word_at(s, 0, "today"@) && blank_at(s, 5) {
        match date_at(s, 6) {
            Some((date, end)) => if end == s.len() {
                Some(date)
            } else {
                None
            },
            None => None,
        }
    } else {
        None
    }
}

/// A comment begins with two slashes.
pub open spec fn is_comment(s: Seq<char>) -> bool {
    word_at(s, 0, "//"@)
}

/// The declaration of an account: the word `account`, an acronym and a name that
/// takes the rest of the line. Gives the acronym and the name.
pub open spec fn account_text(s: Seq<char>) -> Option<(Seq<char>, Seq<char>)> {
    if word_at(s, 0, "account"@) && blank_at(s, 7) && acronym_at(s, 8) && note_at(s, 10) {
        Some((s.subrange(8, 10), s.skip(11)))
    } else {
        None
    }
}

/// An invoice: the word `invoice`, a sender, further senders after colons,
/// recipients after arrows, of which there is at least one, the amount, the first
/// date, a recurrence or none, and a note that takes the rest of the line. A
/// recurrence that no note follows is none: it is the note.
pub open spec fn invoice_text(s: Seq<char>) -> Option<InvoiceText> {
    if word_at(s, 0, "invoice"@) && blank_at(s, 7) && acronym_at(s, 8) {
        let more = senders_at(s, 10);
        let to = recipients_at(s, more.1);
        if to.0.len() >= 1 && blank_at(s, to.1) {
            match amount_at(s, to.1 + 1) {
                Some((amount, amount_end)) => {
                    if blank_at(s, amount_end) {
                        match date_at(s, amount_end + 1) {
                            Some((start, start_end)) => {
                                let with_range = match range_at(s, start_end) {
                                    Some((_, _, range_end)) => note_at(s, range_end),
                                    None => false,
                                };
                                if with_range {
                                    let range = range_at(s, start_end)->0;
                                    Some(
                                        InvoiceText {
                                            senders: seq![s.subrange(8, 10)] + more.0,
                                            recipients: to.0,
                                            amount,
                                            start,
                                            range: Some((range.0, range.1)),
                                            note: s.skip(range.2 + 1),
                                        },
                                    )
                                } else if note_at(s, start_end) {
                                    Some(
                                        InvoiceText {
                                            senders: seq![s.subrange(8, 10)] + more.0,
                                            recipients: to.0,
                                            amount,
                                            start,
                                            range: None,
                                            note: s.skip(start_end + 1),
                                        },
                                    )
                                } else {
                                    None
                                }
                            },
                            None => None,
                        }
                    } else {
                        None
                    }
                },
                None => None,
            }
        } else {
            None
        }
    } else {
        None
    }
}

/// A payment: the word `payment`, the sender, an arrow, the recipient, the amount,
/// the date, and a note that takes the rest of the line.
pub open spec fn payment_text(s: Seq<char>) -> Option<PaymentText> {
    if word_at(s, 0, "payment"@) && blank_at(s, 7) && acronym_at(s, 8) && recipient_at(s, 10) {
        match amount_at(s, 17) {
            Some((amount, amount_end)) => {
                if blank_at(s, 16) && blank_at(s, amount_end) {
                    match date_at(s, amount_end + 1) {
                        Some((date, date_end)) => {
                            if note_at(s, date_end) {
                                Some(
                                    PaymentText {
                                        sender: s.subrange(8, 10),
                                        recipient: s.subrange(14, 16),
                                        amount,
                                        date,
                                        note: s.skip(date_end + 1),
                                    },
                                )
                            } else {
                                None
                            }
                        },
                        None => None,
                    }
                } else {
                    None
                }
            },
            None => None,
        }
    } else {
        None
    }
}

/// Three numbers in the place of a date, as a line gives them.
#[derive(Clone, Copy, Debug)]
pub struct DateText {
    pub day: u32,
    pub month: u32,
    pub year: u32,
}

impl View for DateText {
    type V = DateView;

    open spec fn view(&self) -> DateView {
        DateView { year: self.year as int, month: self.month as int, day: self.day as int }
    }
}

/// Whether a white-space character stands at `at`.
pub fn has_blank(s: &Vec<char>, at: usize) -> (r: bool)
    ensures
        r == blank_at(s@, at as int),
        r ==> at < s.len(),
{
    at < s.len() && char_is_blank(s[at])
}

/// Whether the character `c` stands at `at`.
pub fn has_char(s: &Vec<char>, at: usize, c: char) -> (r: bool)
    ensures
        r == char_at(s@, at as int, c),
        r ==> at < s.len(),
{
    at < s.len() && s[at] == c
}

/// Whether two upper-case letters stand at `at` and after it.
pub fn has_acronym(s: &Vec<char>, at: usize) -> (r: bool)
    ensures
        r == acronym_at(s@, at as int),
{
    at < s.len() && 1 < s.len() - at && char_is_upper(s[at]) && char_is_upper(s[at + 1])
}

/// Whether the characters of `word` stand at `at` and after it.
pub fn has_word(s: &Vec<char>, at: usize, word: &str) -> (r: bool)
    ensures
        r == word_at(s@, at as int, word@),
{
    let n = word.unicode_len();
    if at > s.len() || n > s.len() - at {
        return false;
    }
    let mut i: usize = 0;
    while i < n
        invariant
            i <= n,
            n == word@.len(),
            at + n <= s.len(),
            s@.subrange(at as int, at + i) == word@.take(i as int),
        decreases n - i,
    {
        if s[at + i] != word.get_char(i) {
            assert(s@.subrange(at as int, at + n)[i as int] != word@[i as int]);
            return false;
        }
        i += 1;
        assert(s@.subrange(at as int, at + i) == s@.subrange(at as int, at + i - 1).push(
            s@[at + i - 1],
        ));
        assert(word@.take(i as int) == word@.take(i - 1).push(word@[i - 1]));
    }
    assert(word@.take(n as int) == word@);
    true
}

/// Whether a note takes the rest of the line from `at` on.
pub fn has_note(s: &Vec<char>, at: usize) -> (r: bool)
    ensures
        r == note_at(s@, at as int),
{
    has_blank(s, at) && 1 < s.len() - at
}

/// The number that the `len` digits from `from` on write, where they are at most
/// four.
fn small_number(s: &Vec<char>, from: usize, len: usize) -> (r: u32)
    requires
        from + len <= s.len(),
        len <= digit_run(s@, from as int),
        len <= 4,
    ensures
        r == decimal_value(s@.subrange(from as int, from + len)),
        r < 10_000,
        len <= 2 ==> r < 100,
{
    proof {
        let digits = s@.subrange(from as int, from + len);
        assert forall|i: int| 0 <= i < digits.len() implies is_digit(#[trigger] digits[i]) by {
            lemma_digit_run(s@, from as int, from + i);
        }
        lemma_decimal_value_bounds(digits);
        reveal_with_fuel(pow10, 5);
    }
    match parse_decimal(s, from, len) {
        Some(n) => n as u32,
        None => 0,
    }
}

/// The date written at `at`, if one is, and where its text ends.
pub fn scan_date(s: &Vec<char>, at: usize) -> (r: Option<(DateText, usize)>)
    ensures
        match r {
            Some((date, end)) => date_at(s@, at as int) == Some((date@, end as int)) && end
                <= s.len(),
            None => date_at(s@, at as int) is None,
        },
{
    if at > s.len() {
        return None;
    }
    let day_digits = scan_digits(s, at);
    if day_digits < 1 || day_digits > 2 || !has_char(s, at + day_digits, '.') {
        return None;
    }
    let month_at = at + day_digits + 1;
    let month_digits = scan_digits(s, month_at);
    if month_digits < 1 || month_digits > 2 || !has_char(s, month_at + month_digits, '.') {
        return None;
    }
    let year_at = month_at + month_digits + 1;
    if scan_digits(s, year_at) < 4 {
        return None;
    }
    let day = small_number(s, at, day_digits);
    let month = small_number(s, month_at, month_digits);
    let year = small_number(s, year_at, 4);
    Some((DateText { day, month, year }, year_at + 4))
}

/// Ten to the power of `exponent`, for an exponent of at most six.
fn small_power(exponent: usize) -> (r: u64)
    requires
        exponent <= 6,
    ensures
        r == pow10(exponent as int),
        r <= 1_000_000,
{
    proof {
        reveal_with_fuel(pow10, 7);
    }
    let mut r: u64 = 1;
    let mut i: usize = 0;
    while i < exponent
        invariant
            i <= exponent <= 6,
            r == pow10(i as int),
            r <= pow10(6),
            pow10(6) == 1_000_000,
        decreases exponent - i,
    {
        proof {
            lemma_pow10_grows(i + 1, 6);
        }
        r = r * 10;
        i += 1;
    }
    r
}

proof fn lemma_pow10_grows(smaller: int, larger: int)
    requires
        0 <= smaller <= larger,
    ensures
        1 <= pow10(smaller) <= pow10(larger),
    decreases larger,
{
    if smaller < larger {
        lemma_pow10_grows(smaller, larger - 1);
    } else if smaller > 0 {
        lemma_pow10_grows(smaller - 1, larger - 1);
    }
}

/// The amount written at `at`, if one is, and where its text ends. The amount is
/// given in units, or as `None` where it does not fit a `u64`.
pub fn scan_amount(s: &Vec<char>, at: usize) -> (r: Option<(Option<u64>, usize)>)
    ensures
        match r {
            Some((units, end)) => end <= s.len() && match amount_at(s@, at as int) {
                Some((exact, e)) => e == end && match units {
                    Some(u) => exact == u,
                    None => exact > u64::MAX,
                },
                None => false,
            },
            None => amount_at(s@, at as int) is None,
        },
{
    if at > s.len() {
        return None;
    }
    let whole_digits = scan_digits(s, at);
    if whole_digits < 1 || !has_char(s, at + whole_digits, '.') {
        return None;
    }
    let fraction_at = at + whole_digits + 1;
    let fraction_digits = scan_digits(s, fraction_at);
    if fraction_digits < 1 {
        return None;
    }
    let end = fraction_at + fraction_digits;
    let kept = if fraction_digits < FRACTION_DIGITS {
        fraction_digits
    } else {
        FRACTION_DIGITS
    };
    let ghost whole_text = s@.subrange(at as int, at + whole_digits);
    let ghost fraction_text = s@.subrange(fraction_at as int, fraction_at + fraction_digits);
    let ghost kept_text = s@.subrange(fraction_at as int, fraction_at + kept);
    proof {
        assert(fraction_text.take(kept as int) == kept_text);
        assert forall|i: int| 0 <= i < kept_text.len() implies is_digit(
            #[trigger] kept_text[i],
        ) by {
            lemma_digit_run(s@, fraction_at as int, fraction_at + i);
        }
        assert forall|i: int| 0 <= i < whole_text.len() implies is_digit(
            #[trigger] whole_text[i],
        ) by {
            lemma_digit_run(s@, at as int, at + i);
        }
        lemma_decimal_value_bounds(kept_text);
        lemma_decimal_value_bounds(whole_text);
        lemma_pow10_grows(kept as int, 6);
        reveal_with_fuel(pow10, 7);
    }
    let scale = small_power(FRACTION_DIGITS - kept);
    let part = match parse_decimal(s, fraction_at, kept) {
        Some(n) => n,
        None => 0,
    };
    assert(part * scale == fraction_units(fraction_text)) by {
        if kept == FRACTION_DIGITS {
            assert(scale == 1);
        } else {
            assert(fraction_text == kept_text);
        }
    }
    proof {
        reveal_with_fuel(pow10, 7);
        if kept == 1 {
            assert(part * scale < 1_000_000) by (nonlinear_arith)
                requires
                    0 <= part < 10,
                    scale == 100_000,
            ;
        } else if kept == 2 {
            assert(part * scale < 1_000_000) by (nonlinear_arith)
                requires
                    0 <= part < 100,
                    scale == 10_000,
            ;
        } else if kept == 3 {
            assert(part * scale < 1_000_000) by (nonlinear_arith)
                requires
                    0 <= part < 1_000,
                    scale == 1_000,
            ;
        } else if kept == 4 {
            assert(part * scale < 1_000_000) by (nonlinear_arith)
                requires
                    0 <= part < 10_000,
                    scale == 100,
            ;
        } else if kept == 5 {
            assert(part * scale < 1_000_000) by (nonlinear_arith)
                requires
                    0 <= part < 100_000,
                    scale == 10,
            ;
        } else {
            assert(part * scale < 1_000_000) by (nonlinear_arith)
                requires
                    0 <= part < 1_000_000,
                    scale == 1,
            ;
        }
    }
    let fraction: u64 = part * scale;
    let units = match parse_decimal(s, at, whole_digits) {
        Some(whole) => match whole.checked_mul(UNITS_PER_WHOLE) {
            Some(scaled) => scaled.checked_add(fraction),
            None => None,
        },
        None => {
            assert(decimal_value(whole_text) * 1_000_000 >= decimal_value(whole_text));
            None
        },
    };
    Some((units, end))
}

/// What each string of a list holds.
pub open spec fn texts(strings: Seq<String>) -> Seq<Seq<char>> {
    strings.map_values(|s: String| s@)
}

/// Whether a further sender stands at `at`.
pub fn has_sender(s: &Vec<char>, at: usize) -> (r: bool)
    ensures
        r == sender_at(s@, at as int),
{
    has_blank(s, at) && has_char(s, at + 1, ':') && has_blank(s, at + 2) && has_acronym(
        s,
        at + 3,
    )
}

/// Whether a recipient stands at `at`.
pub fn has_recipient(s: &Vec<char>, at: usize) -> (r: bool)
    ensures
        r == recipient_at(s@, at as int),
{
    has_blank(s, at) && has_char(s, at + 1, '-') && has_char(s, at + 2, '>') && has_blank(
        s,
        at + 3,
    ) && has_acronym(s, at + 4)
}

/// The further senders written from `at` on, and where the last of them ends.
pub fn scan_senders(s: &Vec<char>, at: usize) -> (r: (Vec<String>, usize))
    ensures
        (texts(r.0@), r.1 as int) == senders_at(s@, at as int),
        at <= r.1,
        at <= s.len() ==> r.1 <= s.len(),
{
    let mut found: Vec<String> = Vec::new();
    let mut cursor: usize = at;
    assert(texts(found@) + senders_at(s@, cursor as int).0 =~= senders_at(s@, at as int).0);
    while has_sender(s, cursor)
        invariant
            at <= cursor,
            at <= s.len() ==> cursor <= s.len(),
            texts(found@) + senders_at(s@, cursor as int).0 == senders_at(s@, at as int).0,
            senders_at(s@, cursor as int).1 == senders_at(s@, at as int).1,
        decreases s.len() - cursor,
    {
        let ghost before = texts(found@);
        found.push(string_of(s, cursor + 3, cursor + 5));
        proof {
            let item = s@.subrange(cursor + 3, cursor + 5);
            assert(texts(found@) =~= before.push(item));
            assert(before.push(item) + senders_at(s@, cursor + 5).0 =~= before + (seq![item]
                + senders_at(s@, cursor + 5).0));
        }
        cursor += 5;
    }
    assert(texts(found@) + Seq::<Seq<char>>::empty() =~= texts(found@));
    (found, cursor)
}

/// The recipients written from `at` on, and where the last of them ends.
pub fn scan_recipients(s: &Vec<char>, at: usize) -> (r: (Vec<String>, usize))
    ensures
        (texts(r.0@), r.1 as int) == recipients_at(s@, at as int),
        at <= r.1,
        at <= s.len() ==> r.1 <= s.len(),
{
    let mut found: Vec<String> = Vec::new();
    let mut cursor: usize = at;
    assert(texts(found@) + recipients_at(s@, cursor as int).0 =~= recipients_at(
        s@,
        at as int,
    ).0);
    while has_recipient(s, cursor)
        invariant
            at <= cursor,
            at <= s.len() ==> cursor <= s.len(),
            texts(found@) + recipients_at(s@, cursor as int).0 == recipients_at(
                s@,
                at as int,
            ).0,
            recipients_at(s@, cursor as int).1 == recipients_at(s@, at as int).1,
        decreases s.len() - cursor,
    {
        let ghost before = texts(found@);
        found.push(string_of(s, cursor + 4, cursor + 6));
        proof {
            let item = s@.subrange(cursor + 4, cursor + 6);
            assert(texts(found@) =~= before.push(item));
            assert(before.push(item) + recipients_at(s@, cursor + 6).0 =~= before + (seq![item]
                + recipients_at(s@, cursor + 6).0));
        }
        cursor += 6;
    }
    assert(texts(found@) + Seq::<Seq<char>>::empty() =~= texts(found@));
    (found, cursor)
}

/// What is written at `at` for a recurrence, if anything is, and where it ends.
pub fn scan_range(s: &Vec<char>, at: usize) -> (r: Option<(DateText, DateText, usize)>)
    ensures
        match r {
            Some((end, step, after)) => range_at(s@, at as int) == Some(
                (end@, step@, after as int),
            ) && after <= s.len(),
            None => range_at(s@, at as int) is None,
        },
{
    if !(has_blank(s, at) && has_char(s, at + 1, '-') && has_blank(s, at + 2)) {
        return None;
    }
    match scan_date(s, at + 3) {
        Some((end, colon_at)) => {
            if !(has_blank(s, colon_at) && has_char(s, colon_at + 1, ':') && has_blank(
                s,
                colon_at + 2,
            )) {
                return None;
            }
            match scan_date(s, colon_at + 3) {
                Some((step, after)) => Some((end, step, after)),
                None => None,
            }
        },
        None => None,
    }
}

/// What an [`InvoiceLine`] stands for.
pub struct InvoiceView {
    pub senders: Seq<Seq<char>>,
    pub recipients: Seq<Seq<char>>,
    /// The amount in units.
    pub amount: int,
    pub start: DateView,
    pub recurrence: Option<RecurrenceView>,
    pub note: Seq<char>,
}

/// What a [`PaymentLine`] stands for.
pub struct PaymentView {
    pub sender: Seq<char>,
    pub recipient: Seq<char>,
    /// The amount in units.
    pub amount: int,
    pub date: DateView,
    pub note: Seq<char>,
}

/// What a [`Line`] stands for.
pub enum LineView {
    Blank,
    Comment,
    Account(AccountView),
    Invoice(InvoiceView),
    Payment(PaymentView),
}

/// Why a line could not be read.
#[derive(Clone, Copy, Debug, PartialEq, Eq, Structural)]
pub enum LineError {
    /// The line has none of the forms of the grammar.
    Malformed,
    /// The amount does not fit a `u64` of units.
    AmountTooLarge,
    /// A date of the line is no day of the calendar.
    InvalidDate,
}

/// The step of a recurrence, from the three numbers that a line gives in the form
/// of a date: the first counts days, the second months, the third years.
pub open spec fn period_of(step: DateView) -> Period {
    Period { days: step.day as u32, months: step.month as u32, years: step.year as u32 }
}

/// What an invoice line declares, or why it declares nothing: the amount must fit,
/// then the first date must exist, then the last.
pub open spec fn invoice_of(text: InvoiceText) -> Result<InvoiceView, LineError> {
    if text.amount > u64::MAX {
        Err(LineError::AmountTooLarge)
    } else if !text.start.is_valid() {
        Err(LineError::InvalidDate)
    } else {
        match text.range {
            None => Ok(
                InvoiceView {
                    senders: text.senders,
                    recipients: text.recipients,
                    amount: text.amount,
                    start: text.start,
                    recurrence: None,
                    note: text.note,
                },
            ),
            Some((end, step)) => if !end.is_valid() {
                Err(LineError::InvalidDate)
            } else {
                Ok(
                    InvoiceView {
                        senders: text.senders,
                        recipients: text.recipients,
                        amount: text.amount,
                        start: text.start,
                        recurrence: Some(RecurrenceView { end, period: period_of(step) }),
                        note: text.note,
                    },
                )
            },
        }
    }
}

/// What a payment line declares, or why it declares nothing: the amount must fit,
/// then the date must exist.
pub open spec fn payment_of(text: PaymentText) -> Result<PaymentView, LineError> {
    if text.amount > u64::MAX {
        Err(LineError::AmountTooLarge)
    } else if !text.date.is_valid() {
        Err(LineError::InvalidDate)
    } else {
        Ok(
            PaymentView {
                sender: text.sender,
                recipient: text.recipient,
                amount: text.amount,
                date: text.date,
                note: text.note,
            },
        )
    }
}

/// What a line after the header is: the first form that fits, in the order blank,
/// comment, account, invoice, payment.
pub open spec fn line_of(s: Seq<char>) -> Result<LineView, LineError> {
    if s.len() == 0 {
        Ok(LineView::Blank)
    } else if is_comment(s) {
        Ok(LineView::Comment)
    } else if account_text(s) is Some {
        let (acronym, name) = account_text(s)->0;
        Ok(LineView::Account(AccountView { acronym, name }))
    } else if invoice_text(s) is Some {
        match invoice_of(invoice_text(s)->0) {
            Ok(invoice) => Ok(LineView::Invoice(invoice)),
            Err(e) => Err(e),
        }
    } else if payment_text(s) is Some {
        match payment_of(payment_text(s)->0) {
            Ok(payment) => Ok(LineView::Payment(payment)),
            Err(e) => Err(e),
        }
    } else {
        Err(LineError::Malformed)
    }
}

/// The reference date that a header line gives.
pub open spec fn header_of(s: Seq<char>) -> Result<DateView, LineError> {
    match header_text(s) {
        Some(date) => if date.is_valid() {
            Ok(date)
        } else {
            Err(LineError::InvalidDate)
        },
        None => Err(LineError::Malformed),
    }
}

/// An amount that is written is not negative.
pub proof fn lemma_amount_at(s: Seq<char>, at: int)
    requires
        amount_at(s, at) is Some,
    ensures
        ({
            let found = amount_at(s, at)->0;
            0 <= found.0
        }),
{
    let whole_digits = digit_run(s, at);
    let fraction_at = at + whole_digits + 1;
    let fraction_digits = digit_run(s, fraction_at);
    let whole = s.subrange(at, at + whole_digits);
    let fraction = s.subrange(fraction_at, fraction_at + fraction_digits);
    lemma_digit_run_end(s, at);
    lemma_digit_run_end(s, fraction_at);
    assert forall|i: int| 0 <= i < whole.len() implies is_digit(#[trigger] whole[i]) by {
        lemma_digit_run(s, at, at + i);
    }
    assert forall|i: int| 0 <= i < fraction.len() implies is_digit(#[trigger] fraction[i]) by {
        lemma_digit_run(s, fraction_at, fraction_at + i);
    }
    lemma_decimal_value_bounds(whole);
    lemma_decimal_value_bounds(fraction);
    if fraction.len() >= FRACTION_DIGITS {
        let kept = fraction.take(FRACTION_DIGITS as int);
        assert forall|i: int| 0 <= i < kept.len() implies is_digit(#[trigger] kept[i]) by {
            assert(kept[i] == fraction[i]);
        }
        lemma_decimal_value_bounds(kept);
    } else {
        lemma_pow10_grows(0, FRACTION_DIGITS - fraction.len());
        assert(decimal_value(fraction) * pow10(FRACTION_DIGITS - fraction.len()) >= 0)
            by (nonlinear_arith)
            requires
                decimal_value(fraction) >= 0,
                pow10(FRACTION_DIGITS - fraction.len()) >= 1,
        ;
    }
    assert(decimal_value(whole) * UNITS_PER_WHOLE >= 0) by (nonlinear_arith)
        requires
            decimal_value(whole) >= 0,
            UNITS_PER_WHOLE == 1_000_000,
    ;
}

/// The further senders that a line names are acronyms.
pub proof fn lemma_senders_at(s: Seq<char>, at: int)
    ensures
        forall|i: int|
            0 <= i < senders_at(s, at).0.len() ==> is_acronym(#[trigger] senders_at(s, at).0[i]),
    decreases s.len() - at,
{
    if sender_at(s, at) {
        lemma_senders_at(s, at + 5);
        let rest = senders_at(s, at + 5).0;
        let all = senders_at(s, at).0;
        assert forall|i: int| 0 <= i < all.len() implies is_acronym(#[trigger] all[i]) by {
            if i > 0 {
                assert(all[i] == rest[i - 1]);
            }
        }
    }
}

/// The recipients that a line names are acronyms.
pub proof fn lemma_recipients_at(s: Seq<char>, at: int)
    ensures
        forall|i: int|
            0 <= i < recipients_at(s, at).0.len() ==> is_acronym(
                #[trigger] recipients_at(s, at).0[i],
            ),
    decreases s.len() - at,
{
    if recipient_at(s, at) {
        lemma_recipients_at(s, at + 6);
        let rest = recipients_at(s, at + 6).0;
        let all = recipients_at(s, at).0;
        assert forall|i: int| 0 <= i < all.len() implies is_acronym(#[trigger] all[i]) by {
            if i > 0 {
                assert(all[i] == rest[i - 1]);
            }
        }
    }
}

/// What a line that can be read declares is sound: an account has an acronym; an
/// invoice has a sender and a recipient, and all of them are acronyms; the amount
/// of an invoice or a payment is one, and their dates are days of the calendar.
pub proof fn lemma_line_of(s: Seq<char>)
    ensures
        match line_of(s) {
            Ok(LineView::Account(account)) => is_acronym(account.acronym),
            Ok(LineView::Invoice(invoice)) => {
                &&& invoice.senders.len() >= 1
                &&& invoice.recipients.len() >= 1
                &&& forall|i: int|
                    0 <= i < invoice.senders.len() ==> is_acronym(#[trigger] invoice.senders[i])
                &&& forall|i: int|
                    0 <= i < invoice.recipients.len() ==> is_acronym(
                        #[trigger] invoice.recipients[i],
                    )
                &&& 0 <= invoice.amount <= u64::MAX
                &&& invoice.start.is_valid()
                &&& invoice.recurrence matches Some(r) ==> r.end.is_valid()
            },
            Ok(LineView::Payment(payment)) => {
                &&& is_acronym(payment.sender)
                &&& is_acronym(payment.recipient)
                &&& 0 <= payment.amount <= u64::MAX
                &&& payment.date.is_valid()
            },
            _ => true,
        },
{
    match line_of(s) {
        Ok(LineView::Account(account)) => {
            assert(account.acronym == s.subrange(8, 10));
        },
        Ok(LineView::Invoice(invoice)) => {
            let more = senders_at(s, 10);
            let to = recipients_at(s, more.1);
            lemma_amount_at(s, to.1 + 1);
            lemma_senders_at(s, 10);
            lemma_recipients_at(s, more.1);
            assert forall|i: int| 0 <= i < invoice.senders.len() implies is_acronym(
                #[trigger] invoice.senders[i],
            ) by {
                if i == 0 {
                    assert(invoice.senders[0] == s.subrange(8, 10));
                } else {
                    assert(invoice.senders[i] == more.0[i - 1]);
                }
            }
        },
        Ok(LineView::Payment(payment)) => {
            lemma_amount_at(s, 17);
            assert(payment.sender == s.subrange(8, 10));
            assert(payment.recipient == s.subrange(14, 16));
        },
        _ => {},
    }
}

/// An invoice as a line declares it.
#[derive(Debug)]
pub struct InvoiceLine {
    /// The acronyms of those who owe, each an equal share.
    pub senders: Vec<String>,
    /// The acronyms of those who are owed: the first by the senders, each further
    /// one by the one before.
    pub recipients: Vec<String>,
    /// The amount in units.
    pub amount: u64,
    /// The first date.
    pub start: Date,
    pub recurrence: Option<Recurrence>,
    pub note: String,
}

impl View for InvoiceLine {
    type V = InvoiceView;

    open spec fn view(&self) -> InvoiceView {
        InvoiceView {
            senders: texts(self.senders@),
            recipients: texts(self.recipients@),
            amount: self.amount as int,
            start: self.start@,
            recurrence: match self.recurrence {
                Some(r) => Some(r@),
                None => None,
            },
            note: self.note@,
        }
    }
}

/// A payment as a line declares it.
#[derive(Debug)]
pub struct PaymentLine {
    pub sender: String,
    pub recipient: String,
    /// The amount in units.
    pub amount: u64,
    pub date: Date,
    pub note: String,
}

impl View for PaymentLine {
    type V = PaymentView;

    open spec fn view(&self) -> PaymentView {
        PaymentView {
            sender: self.sender@,
            recipient: self.recipient@,
            amount: self.amount as int,
            date: self.date@,
            note: self.note@,
        }
    }
}

/// A line of a ledger after its header.
#[derive(Debug)]
pub enum Line {
    Blank,
    Comment,
    Account(Account),
    Invoice(InvoiceLine),
    Payment(PaymentLine),
}

impl View for Line {
    type V = LineView;

    open spec fn view(&self) -> LineView {
        match self {
            Line::Blank => LineView::Blank,
            Line::Comment => LineView::Comment,
            Line::Account(account) => LineView::Account(account@),
            Line::Invoice(invoice) => LineView::Invoice(invoice@),
            Line::Payment(payment) => LineView::Payment(payment@),
        }
    }
}

/// The date that three numbers name, if they name a day of the calendar.
pub fn date_of(text: DateText) -> (r: Option<Date>)
    ensures
        match r {
            Some(date) => date@ == text@ && text@.is_valid(),
            None => !text@.is_valid(),
        },
{
    if text.year > MAX_YEAR as u32 {
        None
    } else {
        Date::new(text.day, text.month, text.year as i32)
    }
}

/// Reads the header of a ledger: see [`header_of`].
pub fn parse_header(s: &Vec<char>) -> (r: Result<Date, LineError>)
    ensures
        match r {
            Ok(date) => header_of(s@) == Ok::<DateView, LineError>(date@),
            Err(e) => header_of(s@) == Err::<DateView, LineError>(e),
        },
{
    proof {
        reveal_strlit("today");
    }
    if !(has_word(s, 0, "today") && has_blank(s, 5)) {
        return Err(LineError::Malformed);
    }
    match scan_date(s, 6) {
        Some((text, end)) => {
            if end != s.len() {
                return Err(LineError::Malformed);
            }
            match date_of(text) {
                Some(date) => Ok(date),
                None => Err(LineError::InvalidDate),
            }
        },
        None => Err(LineError::Malformed),
    }
}

/// Reads the declaration of an account, if the line is one.
fn parse_account(s: &Vec<char>) -> (r: Option<Account>)
    ensures
        match r {
            Some(account) => account_text(s@) == Some((account@.acronym, account@.name)),
            None => account_text(s@) is None,
        },
{
    proof {
        reveal_strlit("account");
    }
    if has_word(s, 0, "account") && has_blank(s, 7) && has_acronym(s, 8) && has_note(s, 10) {
        assert(s@.skip(11) == s@.subrange(11, s.len() as int));
        Account::new(string_of(s, 8, 10), string_of(s, 11, s.len()))
    } else {
        None
    }
}

/// Reads an invoice, if the line has the form of one.
fn parse_invoice(s: &Vec<char>) -> (r: Option<Result<InvoiceLine, LineError>>)
    ensures
        match r {
            Some(Ok(invoice)) => invoice_text(s@) is Some && invoice_of(invoice_text(s@)->0)
                == Ok::<InvoiceView, LineError>(invoice@),
            Some(Err(e)) => invoice_text(s@) is Some && invoice_of(invoice_text(s@)->0) == Err::<
                InvoiceView,
                LineError,
            >(e),
            None => invoice_text(s@) is None,
        },
{
    proof {
        reveal_strlit("invoice");
    }
    if !(has_word(s, 0, "invoice") && has_blank(s, 7) && has_acronym(s, 8)) {
        return None;
    }
    let mut senders: Vec<String> = Vec::new();
    senders.push(string_of(s, 8, 10));
    let (more, senders_end) = scan_senders(s, 10);
    let ghost first = texts(senders@);
    let mut more = more;
    let ghost rest = texts(more@);
    senders.append(&mut more);
    assert(texts(senders@) =~= seq![s@.subrange(8, 10)] + senders_at(s@, 10).0);
    let (recipients, recipients_end) = scan_recipients(s, senders_end);
    if recipients.len() < 1 || !has_blank(s, recipients_end) {
        return None;
    }
    match scan_amount(s, recipients_end + 1) {
        Some((units, amount_end)) => {
            if !has_blank(s, amount_end) {
                return None;
            }
            match scan_date(s, amount_end + 1) {
                Some((start, start_end)) => {
                    let range = match scan_range(s, start_end) {
                        Some((end, step, after)) => if has_note(s, after) {
                            Some((end, step, after))
                        } else {
                            None
                        },
                        None => None,
                    };
                    let note_from = match range {
                        Some((_, _, after)) => after + 1,
                        None => {
                            if !has_note(s, start_end) {
                                return None;
                            }
                            start_end + 1
                        },
                    };
                    assert(s@.skip(note_from as int) == s@.subrange(
                        note_from as int,
                        s.len() as int,
                    ));
                    let note = string_of(s, note_from, s.len());
                    let amount = match units {
                        Some(amount) => amount,
                        None => {
                            return Some(Err(LineError::AmountTooLarge));
                        },
                    };
                    let start = match date_of(start) {
                        Some(date) => date,
                        None => {
                            return Some(Err(LineError::InvalidDate));
                        },
                    };
                    let recurrence = match range {
                        Some((end, step, _)) => match date_of(end) {
                            Some(end) => Some(
                                Recurrence {
                                    end,
                                    period: Period {
                                        days: step.day,
                                        months: step.month,
                                        years: step.year,
                                    },
                                },
                            ),
                            None => {
                                return Some(Err(LineError::InvalidDate));
                            },
                        },
                        None => None,
                    };
                    Some(Ok(InvoiceLine { senders, recipients, amount, start, recurrence, note }))
                },
                None => None,
            }
        },
        None => None,
    }
}

/// Reads a payment, if the line has the form of one.
fn parse_payment(s: &Vec<char>) -> (r: Option<Result<PaymentLine, LineError>>)
    ensures
        match r {
            Some(Ok(payment)) => payment_text(s@) is Some && payment_of(payment_text(s@)->0)
                == Ok::<PaymentView, LineError>(payment@),
            Some(Err(e)) => payment_text(s@) is Some && payment_of(payment_text(s@)->0) == Err::<
                PaymentView,
                LineError,
            >(e),
            None => payment_text(s@) is None,
        },
{
    proof {
        reveal_strlit("payment");
    }
    if !(has_word(s, 0, "payment") && has_blank(s, 7) && has_acronym(s, 8) && has_recipient(
        s,
        10,
    ) && has_blank(s, 16)) {
        return None;
    }
    match scan_amount(s, 17) {
        Some((units, amount_end)) => {
            if !has_blank(s, amount_end) {
                return None;
            }
            match scan_date(s, amount_end + 1) {
                Some((date, date_end)) => {
                    if !has_note(s, date_end) {
                        return None;
                    }
                    assert(s@.skip(date_end + 1) == s@.subrange(date_end + 1, s.len() as int));
                    let amount = match units {
                        Some(amount) => amount,
                        None => {
                            return Some(Err(LineError::AmountTooLarge));
                        },
                    };
                    let date = match date_of(date) {
                        Some(date) => date,
                        None => {
                            return Some(Err(LineError::InvalidDate));
                        },
                    };
                    Some(
                        Ok(
                            PaymentLine {
                                sender: string_of(s, 8, 10),
                                recipient: string_of(s, 14, 16),
                                amount,
                                date,
                                note: string_of(s, date_end + 1, s.len()),
                            },
                        ),
                    )
                },
                None => None,
            }
        },
        None => None,
    }
}

/// Reads a line after the header: see [`line_of`].
pub fn parse_line(s: &Vec<char>) -> (r: Result<Line, LineError>)
    ensures
        match r {
            Ok(line) => line_of(s@) == Ok::<LineView, LineError>(line@),
            Err(e) => line_of(s@) == Err::<LineView, LineError>(e),
        },
{
    if s.len() == 0 {
        return Ok(Line::Blank);
    }
    if has_word(s, 0, "//") {
        return Ok(Line::Comment);
    }
    if let Some(account) = parse_account(s) {
        return Ok(Line::Account(account));
    }
    match parse_invoice(s) {
        Some(Ok(invoice)) => {
            return Ok(Line::Invoice(invoice));
        },
        Some(Err(e)) => {
            return Err(e);
        },
        None => {},
    }
    match parse_payment(s) {
        Some(Ok(payment)) => Ok(Line::Payment(payment)),
        Some(Err(e)) => Err(e),
        None => Err(LineError::Malformed),
    }
}

} // verus!
