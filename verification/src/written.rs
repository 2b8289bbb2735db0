//! How the lines of a ledger are written, and the proof that what is written so is
//! read as what it says.

use crate::account::{is_acronym, AccountView};
use crate::date::DateView;
use crate::grammar::{
    account_text, acronym_at, amount_at, blank_at, date_at, header_of, invoice_of,
    invoice_text, is_comment, line_of, note_at, period_of, range_at, recipient_at,
    recipients_at, sender_at, senders_at, word_at, InvoiceView, LineError, LineView,
    PaymentView,
};
use crate::money::{amount_text, fraction_text, fraction_units, padded_decimal};
use crate::recurrence::{Period, RecurrenceView};
use crate::text::{
    decimal_text, decimal_value, digit_char, digit_run, digit_value, is_digit,
    lemma_digit_run_end, pow10,
};
use vstd::prelude::*;

verus! {

/// Every character of the text is a digit.
pub open spec fn all_digits(text: Seq<char>) -> bool {
    forall|i: int| 0 <= i < text.len() ==> is_digit(#[trigger] text[i])
}

/// No digit follows the place `at` directly.
pub open spec fn no_digit_at(s: Seq<char>, at: int) -> bool {
    at >= s.len() || !is_digit(s[at])
}

/// A number written in base ten is made of digits, at least one, and they write
/// the number.
pub proof fn lemma_decimal_text(n: int)
    requires
        0 <= n,
    ensures
        all_digits(decimal_text(n)),
        decimal_text(n).len() >= 1,
        n < 10 ==> decimal_text(n).len() == 1,
        10 <= n < 100 ==> decimal_text(n).len() == 2,
        decimal_value(decimal_text(n)) == n,
    decreases n,
{
    if n < 10 {
        assert(decimal_text(n).drop_last() =~= Seq::<char>::empty());
        assert(decimal_value(decimal_text(n)) == digit_value(digit_char(n))) by {
            reveal_with_fuel(decimal_value, 2);
        }
    } else {
        lemma_decimal_text(n / 10);
        let front = decimal_text(n / 10);
        let text = decimal_text(n);
        assert(text == front.push(digit_char(n % 10)));
        assert(text.drop_last() =~= front);
        assert forall|i: int| 0 <= i < text.len() implies is_digit(#[trigger] text[i]) by {
            if i < front.len() {
                assert(text[i] == front[i]);
            }
        }
    }
}

/// A number written with a given number of digits is made of that many digits, and
/// they write the number if it is small enough for them.
pub proof fn lemma_padded_decimal(n: int, width: int)
    requires
        0 <= n,
        0 <= width,
    ensures
        all_digits(padded_decimal(n, width)),
        padded_decimal(n, width).len() == width,
        n < pow10(width) ==> decimal_value(padded_decimal(n, width)) == n,
    decreases width,
{
    if width > 0 {
        lemma_padded_decimal(n / 10, width - 1);
        let front = padded_decimal(n / 10, width - 1);
        let text = padded_decimal(n, width);
        assert(text == front.push(digit_char(n % 10)));
        assert(text.drop_last() =~= front);
        assert forall|i: int| 0 <= i < text.len() implies is_digit(#[trigger] text[i]) by {
            if i < front.len() {
                assert(text[i] == front[i]);
            }
        }
    }
}

/// Where digits stand in a text and no digit follows them, the run of digits that
/// begins with them is as long as they are.
pub proof fn lemma_digit_run_of(s: Seq<char>, at: int, digits: Seq<char>)
    requires
        word_at(s, at, digits),
        all_digits(digits),
        no_digit_at(s, at + digits.len()),
    ensures
        digit_run(s, at) == digits.len(),
    decreases digits.len(),
{
    if digits.len() > 0 {
        assert(s[at] == s.subrange(at, at + digits.len())[0]);
        assert(is_digit(digits[0]));
        let rest = digits.drop_first();
        assert(s.subrange(at + 1, at + 1 + rest.len()) =~= rest);
        assert forall|i: int| 0 <= i < rest.len() implies is_digit(#[trigger] rest[i]) by {
            assert(rest[i] == digits[i + 1]);
        }
        lemma_digit_run_of(s, at + 1, rest);
    }
}

/// Where digits stand in a text, the run of digits that begins with them is at
/// least as long as they are.
pub proof fn lemma_digit_run_over(s: Seq<char>, at: int, digits: Seq<char>)
    requires
        word_at(s, at, digits),
        all_digits(digits),
    ensures
        digit_run(s, at) >= digits.len(),
    decreases digits.len(),
{
    if digits.len() > 0 {
        assert(s[at] == s.subrange(at, at + digits.len())[0]);
        assert(is_digit(digits[0]));
        let rest = digits.drop_first();
        assert(s.subrange(at + 1, at + 1 + rest.len()) =~= rest);
        assert forall|i: int| 0 <= i < rest.len() implies is_digit(#[trigger] rest[i]) by {
            assert(rest[i] == digits[i + 1]);
        }
        lemma_digit_run_over(s, at + 1, rest);
    } else {
        lemma_digit_run_end(s, at);
    }
}

/// Where a word stands in a text, every part of the word stands in its place.
pub proof fn lemma_word_part(s: Seq<char>, at: int, word: Seq<char>, from: int, to: int)
    requires
        word_at(s, at, word),
        0 <= from <= to <= word.len(),
    ensures
        word_at(s, at + from, word.subrange(from, to)),
        forall|i: int| 0 <= i < word.len() ==> s[at + i] == word[i],
{
    assert(s.subrange(at + from, at + to) =~= s.subrange(at, at + word.len()).subrange(from, to));
    assert forall|i: int| 0 <= i < word.len() implies s[at + i] == word[i] by {
        assert(s.subrange(at, at + word.len())[i] == word[i]);
    }
}

/// How a date is written in a ledger: the day and the month as they are, the year
/// with four digits, and a full stop after the day and after the month.
pub open spec fn written_date(d: DateView) -> Seq<char> {
    decimal_text(d.day) + seq!['.'] + decimal_text(d.month) + seq!['.'] + padded_decimal(
        d.year,
        4,
    )
}

/// Three numbers that can be written in the form of a date: the first two with at
/// most two digits, the third with at most four.
pub open spec fn writable(d: DateView) -> bool {
    0 <= d.day <= 99 && 0 <= d.month <= 99 && 0 <= d.year <= 9999
}

/// A date that is written at a place is read there as what was written.
pub proof fn lemma_date_reads(s: Seq<char>, at: int, d: DateView)
    requires
        writable(d),
        word_at(s, at, written_date(d)),
    ensures
        date_at(s, at) == Some((d, at + written_date(d).len())),
{
    let day = decimal_text(d.day);
    let month = decimal_text(d.month);
    let year = padded_decimal(d.year, 4);
    let text = written_date(d);
    lemma_decimal_text(d.day);
    lemma_decimal_text(d.month);
    lemma_padded_decimal(d.year, 4);
    assert(pow10(4) == 10_000) by {
        reveal_with_fuel(pow10, 5);
    }
    let month_at: int = day.len() as int + 1;
    let year_at: int = month_at + month.len() + 1;
    assert(text.len() == year_at + 4);
    assert(text.subrange(0, day.len() as int) =~= day);
    assert(text.subrange(month_at, month_at + month.len()) =~= month);
    assert(text.subrange(year_at, year_at + 4) =~= year);
    assert(text[day.len() as int] == '.');
    assert(text[month_at + month.len()] == '.');
    lemma_word_part(s, at, text, 0, day.len() as int);
    lemma_word_part(s, at, text, month_at, month_at + month.len());
    lemma_word_part(s, at, text, year_at, year_at + 4);
    lemma_digit_run_of(s, at, day);
    lemma_digit_run_of(s, at + month_at, month);
    lemma_digit_run_over(s, at + year_at, year);
}

/// An amount that is written at a place, with no digit after it, is read there as
/// what was written.
pub proof fn lemma_amount_reads(s: Seq<char>, at: int, units: int)
    requires
        0 <= units,
        0 <= at,
        word_at(s, at, amount_text(units)),
        no_digit_at(s, at + amount_text(units).len()),
    ensures
        amount_at(s, at) == Some((units, at + amount_text(units).len())),
{
    let whole = decimal_text(units / 1_000_000);
    let rest = units % 1_000_000;
    let fraction = fraction_text(rest);
    let text = amount_text(units);
    lemma_decimal_text(units / 1_000_000);
    lemma_fraction_text(rest);
    let fraction_at: int = whole.len() as int + 1;
    assert(text.len() == fraction_at + fraction.len());
    assert(text.subrange(0, whole.len() as int) =~= whole);
    assert(text.subrange(fraction_at, fraction_at + fraction.len()) =~= fraction);
    assert(text[whole.len() as int] == '.');
    lemma_word_part(s, at, text, 0, whole.len() as int);
    lemma_word_part(s, at, text, fraction_at, fraction_at + fraction.len());
    lemma_digit_run_of(s, at, whole);
    lemma_digit_run_of(s, at + fraction_at, fraction);
}

/// The part of an amount below one currency unit is written with two to six
/// digits, and they stand for that part.
pub proof fn lemma_fraction_text(rest: int)
    requires
        0 <= rest < 1_000_000,
    ensures
        all_digits(fraction_text(rest)),
        2 <= fraction_text(rest).len() <= 6,
        fraction_units(fraction_text(rest)) == rest,
{
    reveal_with_fuel(pow10, 7);
    let text = fraction_text(rest);
    if rest % 10_000 == 0 {
        lemma_padded_decimal(rest / 10_000, 2);
        assert(pow10(2) == 100 && pow10(4) == 10_000);
        assert(fraction_units(text) == decimal_value(text) * 10_000);
    } else if rest % 1_000 == 0 {
        lemma_padded_decimal(rest / 1_000, 3);
        assert(pow10(3) == 1_000);
        assert(fraction_units(text) == decimal_value(text) * 1_000);
    } else if rest % 100 == 0 {
        lemma_padded_decimal(rest / 100, 4);
        assert(pow10(4) == 10_000 && pow10(2) == 100);
        assert(fraction_units(text) == decimal_value(text) * 100);
    } else if rest % 10 == 0 {
        lemma_padded_decimal(rest / 10, 5);
        assert(pow10(5) == 100_000 && pow10(1) == 10);
        assert(fraction_units(text) == decimal_value(text) * 10);
    } else {
        lemma_padded_decimal(rest, 6);
        assert(pow10(6) == 1_000_000);
        assert(text.take(6) =~= text);
    }
}

/// How the header of a ledger is written.
pub open spec fn written_header(today: DateView) -> Seq<char> {
    "today "@ + written_date(today)
}

/// How the declaration of an account is written.
pub open spec fn written_account(account: AccountView) -> Seq<char> {
    "account "@ + account.acronym + seq![' '] + account.name
}

/// How a payment is written.
pub open spec fn written_payment(payment: PaymentView) -> Seq<char> {
    "payment "@ + payment.sender + " -> "@ + payment.recipient + seq![' '] + amount_text(
        payment.amount,
    ) + seq![' '] + written_date(payment.date) + seq![' '] + payment.note
}

/// A header that is written for a day of the calendar, in a year of at most four
/// digits, is read as that day.
pub proof fn lemma_header_reads(today: DateView)
    requires
        today.is_valid(),
        writable(today),
    ensures
        header_of(written_header(today)) == Ok::<DateView, LineError>(today),
{
    reveal_strlit("today ");
    reveal_strlit("today");
    let line = written_header(today);
    let date = written_date(today);
    assert(line.subrange(0, 5) =~= "today"@);
    assert(line[5] == ' ');
    assert(line.subrange(6, 6 + date.len() as int) =~= date);
    lemma_date_reads(line, 6, today);
}

/// The declaration of an account that is written with an acronym and a name of at
/// least one character is read as that account.
pub proof fn lemma_account_reads(account: AccountView)
    requires
        is_acronym(account.acronym),
        account.name.len() >= 1,
    ensures
        line_of(written_account(account)) == Ok::<LineView, LineError>(
            LineView::Account(account),
        ),
{
    reveal_strlit("account ");
    reveal_strlit("account");
    reveal_strlit("//");
    let line = written_account(account);
    assert(line.subrange(0, 7) =~= "account"@);
    assert(line[0] == 'a');
    assert(line.subrange(0, 2)[0] == 'a');
    assert(line[7] == ' ');
    assert(line[8] == account.acronym[0]);
    assert(line[9] == account.acronym[1]);
    assert(line[10] == ' ');
    assert(line.subrange(8, 10) =~= account.acronym);
    assert(line.skip(11) =~= account.name);
}

/// A payment that is written between two acronyms, for an amount that is one, on a
/// day of the calendar in a year of at most four digits and with a note of at least
/// one character is read as that payment.
pub proof fn lemma_payment_reads(payment: PaymentView)
    requires
        is_acronym(payment.sender),
        is_acronym(payment.recipient),
        0 <= payment.amount <= u64::MAX,
        payment.date.is_valid(),
        writable(payment.date),
        payment.note.len() >= 1,
    ensures
        line_of(written_payment(payment)) == Ok::<LineView, LineError>(
            LineView::Payment(payment),
        ),
{
    reveal_strlit("payment ");
    reveal_strlit("payment");
    reveal_strlit("account");
    reveal_strlit("invoice");
    reveal_strlit(" -> ");
    reveal_strlit("//");
    let line = written_payment(payment);
    let amount = amount_text(payment.amount);
    let date = written_date(payment.date);
    let head = "payment "@ + payment.sender + " -> "@ + payment.recipient + seq![' '];
    assert(head.len() == 17);
    assert(line =~= head + amount + (seq![' '] + date + seq![' '] + payment.note));
    assert(line =~= (head + amount + seq![' ']) + date + (seq![' '] + payment.note));
    let amount_end: int = 17 + amount.len() as int;
    let date_at_: int = amount_end + 1;
    let date_end: int = date_at_ + date.len();
    assert(line.len() == date_end + 1 + payment.note.len());
    assert forall|i: int| 0 <= i < 17 implies line[i] == head[i] by {}
    assert(line.subrange(0, 7) =~= "payment"@);
    assert(line.subrange(0, 2)[0] == 'p');
    assert(line.subrange(0, 7)[0] == 'p');
    assert(line[7] == ' ');
    assert(line[8] == payment.sender[0] && line[9] == payment.sender[1]);
    assert(line[10] == ' ' && line[11] == '-' && line[12] == '>' && line[13] == ' ');
    assert(line[14] == payment.recipient[0] && line[15] == payment.recipient[1]);
    assert(line[16] == ' ');
    assert(line.subrange(8, 10) =~= payment.sender);
    assert(line.subrange(14, 16) =~= payment.recipient);
    assert(line.subrange(17, amount_end) =~= amount);
    assert(line[amount_end] == ' ');
    assert(line.subrange(date_at_, date_at_ + date.len()) =~= date);
    assert(line[date_end] == ' ');
    assert(line.skip(date_end + 1) =~= payment.note);
    lemma_amount_reads(line, 17, payment.amount);
    lemma_date_reads(line, date_at_, payment.date);
    assert(account_text(line) is None);
    assert(!is_comment(line));
    assert(!word_at(line, 0, "invoice"@));
}

/// How the senders after the first are written: each after a colon.
pub open spec fn written_senders(more: Seq<Seq<char>>) -> Seq<char>
    decreases more.len(),
{
    if more.len() == 0 {
        Seq::empty()
    } else {
        seq![' ', ':', ' '] + more[0] + written_senders(more.drop_first())
    }
}

/// How the recipients are written: each after an arrow.
pub open spec fn written_recipients(recipients: Seq<Seq<char>>) -> Seq<char>
    decreases recipients.len(),
{
    if recipients.len() == 0 {
        Seq::empty()
    } else {
        seq![' ', '-', '>', ' '] + recipients[0] + written_recipients(recipients.drop_first())
    }
}

/// The step of a recurrence as the three numbers that are written for it.
pub open spec fn step_numbers(period: Period) -> DateView {
    DateView { year: period.years as int, month: period.months as int, day: period.days as int }
}

/// How a recurrence is written: a dash and the last date, a colon and the step.
pub open spec fn written_range(recurrence: RecurrenceView) -> Seq<char> {
    seq![' ', '-', ' '] + written_date(recurrence.end) + seq![' ', ':', ' '] + written_date(
        step_numbers(recurrence.period),
    )
}

/// What is written for the recurrence of an invoice: nothing where it has none.
pub open spec fn written_recurrence(invoice: InvoiceView) -> Seq<char> {
    match invoice.recurrence {
        Some(recurrence) => written_range(recurrence),
        None => Seq::empty(),
    }
}

/// How an invoice is written: the first sender, the further senders, the
/// recipients, the amount, the first date, the recurrence and the note.
pub open spec fn written_invoice(invoice: InvoiceView) -> Seq<char> {
    "invoice "@ + invoice.senders[0] + written_senders(invoice.senders.drop_first())
        + written_recipients(invoice.recipients) + seq![' '] + amount_text(invoice.amount)
        + seq![' '] + written_date(invoice.start) + written_recurrence(invoice) + seq![' ']
        + invoice.note
}

/// Every text of the list is an acronym.
pub open spec fn all_acronyms(list: Seq<Seq<char>>) -> bool {
    forall|i: int| 0 <= i < list.len() ==> is_acronym(#[trigger] list[i])
}

/// Senders that are written at a place, with no further sender after them, are
/// read there as what was written.
pub proof fn lemma_senders_read(s: Seq<char>, at: int, more: Seq<Seq<char>>)
    requires
        0 <= at,
        all_acronyms(more),
        word_at(s, at, written_senders(more)),
        !sender_at(s, at + written_senders(more).len()),
    ensures
        senders_at(s, at) == (more, at + written_senders(more).len()),
        written_senders(more).len() == 5 * more.len(),
    decreases more.len(),
{
    let text = written_senders(more);
    if more.len() > 0 {
        let rest = more.drop_first();
        let tail = written_senders(rest);
        assert(is_acronym(more[0]));
        assert forall|i: int| 0 <= i < rest.len() implies is_acronym(#[trigger] rest[i]) by {
            assert(rest[i] == more[i + 1]);
        }
        assert(text.len() == 5 + tail.len());
        lemma_word_part(s, at, text, 5, text.len() as int);
        assert(text.subrange(5, text.len() as int) =~= tail);
        lemma_senders_read(s, at + 5, rest);
        assert(text[0] == ' ' && text[1] == ':' && text[2] == ' ');
        assert(text[3] == more[0][0] && text[4] == more[0][1]);
        assert(s.subrange(at + 3, at + 5) =~= more[0]);
        assert(seq![more[0]] + rest =~= more);
    } else {
        assert(more =~= Seq::<Seq<char>>::empty());
    }
}

/// Recipients that are written at a place, with no further recipient after them,
/// are read there as what was written.
pub proof fn lemma_recipients_read(s: Seq<char>, at: int, recipients: Seq<Seq<char>>)
    requires
        0 <= at,
        all_acronyms(recipients),
        word_at(s, at, written_recipients(recipients)),
        !recipient_at(s, at + written_recipients(recipients).len()),
    ensures
        recipients_at(s, at) == (recipients, at + written_recipients(recipients).len()),
        written_recipients(recipients).len() == 6 * recipients.len(),
    decreases recipients.len(),
{
    let text = written_recipients(recipients);
    if recipients.len() > 0 {
        let rest = recipients.drop_first();
        let tail = written_recipients(rest);
        assert(is_acronym(recipients[0]));
        assert forall|i: int| 0 <= i < rest.len() implies is_acronym(#[trigger] rest[i]) by {
            assert(rest[i] == recipients[i + 1]);
        }
        assert(text.len() == 6 + tail.len());
        lemma_word_part(s, at, text, 6, text.len() as int);
        assert(text.subrange(6, text.len() as int) =~= tail);
        lemma_recipients_read(s, at + 6, rest);
        assert(text[0] == ' ' && text[1] == '-' && text[2] == '>' && text[3] == ' ');
        assert(text[4] == recipients[0][0] && text[5] == recipients[0][1]);
        assert(s.subrange(at + 4, at + 6) =~= recipients[0]);
        assert(seq![recipients[0]] + rest =~= recipients);
    } else {
        assert(recipients =~= Seq::<Seq<char>>::empty());
    }
}

/// A recurrence that is written at a place is read there as what was written.
pub proof fn lemma_range_reads(s: Seq<char>, at: int, recurrence: RecurrenceView)
    requires
        0 <= at,
        writable(recurrence.end),
        writable(step_numbers(recurrence.period)),
        word_at(s, at, written_range(recurrence)),
    ensures
        range_at(s, at) == Some(
            (
                recurrence.end,
                step_numbers(recurrence.period),
                at + written_range(recurrence).len(),
            ),
        ),
{
    let text = written_range(recurrence);
    let end = written_date(recurrence.end);
    let step = written_date(step_numbers(recurrence.period));
    let colon_at: int = 3 + end.len() as int;
    assert(text.len() == colon_at + 3 + step.len());
    lemma_word_part(s, at, text, 3, colon_at);
    lemma_word_part(s, at, text, colon_at + 3, text.len() as int);
    assert(text.subrange(3, colon_at) =~= end);
    assert(text.subrange(colon_at + 3, text.len() as int) =~= step);
    assert(text[0] == ' ' && text[1] == '-' && text[2] == ' ');
    assert(text[colon_at] == ' ' && text[colon_at + 1] == ':' && text[colon_at + 2] == ' ');
    lemma_date_reads(s, at + 3, recurrence.end);
    lemma_date_reads(s, at + colon_at + 3, step_numbers(recurrence.period));
}

/// An invoice that can be written and read back: it has senders and recipients,
/// all of them acronyms, an amount that is one, and dates that are days of the
/// calendar in years of at most four digits; the numbers of its step have no more
/// digits than a date has; and its
/// note has at least one character and, where the invoice does not recur, does not
/// begin with a dash.
pub open spec fn is_writable_invoice(invoice: InvoiceView) -> bool {
    &&& invoice.senders.len() >= 1
    &&& invoice.recipients.len() >= 1
    &&& all_acronyms(invoice.senders)
    &&& all_acronyms(invoice.recipients)
    &&& 0 <= invoice.amount <= u64::MAX
    &&& invoice.start.is_valid()
    &&& writable(invoice.start)
    &&& invoice.note.len() >= 1
    &&& match invoice.recurrence {
        Some(recurrence) => recurrence.end.is_valid() && writable(recurrence.end) && writable(
            step_numbers(recurrence.period),
        ),
        None => invoice.note[0] != '-',
    }
}

/// Where the parts of a written invoice stand in its line.
pub struct InvoicePlaces {
    /// Where the senders end and the recipients begin.
    pub senders_end: int,
    /// Where the recipients end.
    pub recipients_end: int,
    /// Where the amount ends.
    pub amount_end: int,
    /// Where the first date ends.
    pub date_end: int,
    /// Where the recurrence ends, if there is one, and else the first date.
    pub range_end: int,
}

/// The places of the parts of an invoice in the line that is written for it.
pub open spec fn places_of(invoice: InvoiceView) -> InvoicePlaces {
    let senders_end: int = 10 + written_senders(invoice.senders.drop_first()).len() as int;
    let recipients_end: int = senders_end + written_recipients(invoice.recipients).len() as int;
    let amount_end: int = recipients_end + 1 + amount_text(invoice.amount).len() as int;
    let date_end: int = amount_end + 1 + written_date(invoice.start).len() as int;
    InvoicePlaces {
        senders_end,
        recipients_end,
        amount_end,
        date_end,
        range_end: date_end + written_recurrence(invoice).len() as int,
    }
}

/// What is written stays where it is when more is written after it, and what is
/// written last stands at the end.
proof fn lemma_appended(s: Seq<char>, t: Seq<char>)
    ensures
        word_at(s + t, s.len() as int, t),
        (s + t).len() == s.len() + t.len(),
        forall|at: int, w: Seq<char>| word_at(s, at, w) ==> #[trigger] word_at(s + t, at, w),
{
    assert((s + t).subrange(s.len() as int, (s.len() + t.len()) as int) =~= t);
    assert forall|at: int, w: Seq<char>| word_at(s, at, w) implies #[trigger] word_at(
        s + t,
        at,
        w,
    ) by {
        assert((s + t).subrange(at, at + w.len()) =~= s.subrange(at, at + w.len()));
    }
}

/// The character of a word of one character stands where the word stands.
proof fn lemma_char_at(s: Seq<char>, at: int, c: char)
    requires
        word_at(s, at, seq![c]),
    ensures
        0 <= at < s.len(),
        s[at] == c,
{
    assert(s.subrange(at, at + 1)[0] == c);
}

/// The parts of a written invoice stand in its line at their places, with one
/// white-space character between the recipients and the amount, between the amount
/// and the first date, and before the note.
proof fn lemma_invoice_places(invoice: InvoiceView)
    requires
        invoice.senders.len() >= 1,
        invoice.senders[0].len() == 2,
    ensures
        ({
            let line = written_invoice(invoice);
            let at = places_of(invoice);
            &&& line.len() == at.range_end + 1 + invoice.note.len()
            &&& word_at(line, 0, "invoice "@)
            &&& word_at(line, 8, invoice.senders[0])
            &&& word_at(line, 10, written_senders(invoice.senders.drop_first()))
            &&& word_at(line, at.senders_end, written_recipients(invoice.recipients))
            &&& word_at(line, at.recipients_end, seq![' '])
            &&& word_at(line, at.recipients_end + 1, amount_text(invoice.amount))
            &&& word_at(line, at.amount_end, seq![' '])
            &&& word_at(line, at.amount_end + 1, written_date(invoice.start))
            &&& word_at(line, at.date_end, written_recurrence(invoice))
            &&& word_at(line, at.range_end, seq![' '])
            &&& word_at(line, at.range_end + 1, invoice.note)
        }),
{
    reveal_strlit("invoice ");
    let key = "invoice "@;
    let blank = seq![' '];
    let a0 = Seq::<char>::empty() + key;
    let a1 = key + invoice.senders[0];
    let a2 = a1 + written_senders(invoice.senders.drop_first());
    let a3 = a2 + written_recipients(invoice.recipients);
    let a4 = a3 + blank;
    let a5 = a4 + amount_text(invoice.amount);
    let a6 = a5 + blank;
    let a7 = a6 + written_date(invoice.start);
    let a8 = a7 + written_recurrence(invoice);
    let a9 = a8 + blank;
    assert(a0 =~= key);
    lemma_appended(Seq::<char>::empty(), key);
    lemma_appended(key, invoice.senders[0]);
    lemma_appended(a1, written_senders(invoice.senders.drop_first()));
    lemma_appended(a2, written_recipients(invoice.recipients));
    lemma_appended(a3, blank);
    lemma_appended(a4, amount_text(invoice.amount));
    lemma_appended(a5, blank);
    lemma_appended(a6, written_date(invoice.start));
    lemma_appended(a7, written_recurrence(invoice));
    lemma_appended(a8, blank);
    lemma_appended(a9, invoice.note);
}

/// The names of a written invoice are read as what was written: the word that
/// begins the line, the senders and the recipients.
proof fn lemma_invoice_names_read(invoice: InvoiceView)
    requires
        is_writable_invoice(invoice),
    ensures
        ({
            let line = written_invoice(invoice);
            let at = places_of(invoice);
            &&& word_at(line, 0, "invoice"@)
            &&& blank_at(line, 7)
            &&& acronym_at(line, 8)
            &&& seq![line.subrange(8, 10)] + senders_at(line, 10).0 == invoice.senders
            &&& senders_at(line, 10).1 == at.senders_end
            &&& recipients_at(line, at.senders_end) == (invoice.recipients, at.recipients_end)
            &&& blank_at(line, at.recipients_end)
        }),
{
    reveal_strlit("invoice ");
    reveal_strlit("invoice");
    let line = written_invoice(invoice);
    let at = places_of(invoice);
    let first = invoice.senders[0];
    let more = invoice.senders.drop_first();
    let amount = amount_text(invoice.amount);
    let recipients = written_recipients(invoice.recipients);
    assert(is_acronym(first));
    assert forall|i: int| 0 <= i < more.len() implies is_acronym(#[trigger] more[i]) by {
        assert(more[i] == invoice.senders[i + 1]);
    }
    lemma_invoice_places(invoice);
    assert(word_at(line, 0, "invoice"@) && blank_at(line, 7)) by {
        lemma_word_part(line, 0, "invoice "@, 0, 7);
        assert("invoice "@.subrange(0, 7) =~= "invoice"@);
    }
    assert(acronym_at(line, 8)) by {
        lemma_word_part(line, 8, first, 0, 2);
    }
    assert(senders_at(line, 10) == (more, at.senders_end)) by {
        assert(!sender_at(line, at.senders_end)) by {
            assert(recipients == seq![' ', '-', '>', ' '] + invoice.recipients[0]
                + written_recipients(invoice.recipients.drop_first()));
            lemma_word_part(line, at.senders_end, recipients, 0, 2);
            assert(line[at.senders_end + 1] == '-');
        }
        lemma_senders_read(line, 10, more);
    }
    assert(recipients_at(line, at.senders_end) == (invoice.recipients, at.recipients_end)) by {
        assert(is_digit(amount[0])) by {
            lemma_decimal_text(invoice.amount / 1_000_000);
            assert(amount[0] == decimal_text(invoice.amount / 1_000_000)[0]);
        }
        assert(!recipient_at(line, at.recipients_end)) by {
            lemma_word_part(line, at.recipients_end + 1, amount, 0, 1);
            assert(line[at.recipients_end + 1] == amount[0]);
        }
        lemma_recipients_read(line, at.senders_end, invoice.recipients);
    }
    assert(blank_at(line, at.recipients_end)) by {
        lemma_char_at(line, at.recipients_end, ' ');
    }
    assert(seq![line.subrange(8, 10)] + more =~= invoice.senders);
}

/// The rest of a written invoice is read as what was written: the amount, the
/// first date, the recurrence and the note.
proof fn lemma_invoice_rest_reads(invoice: InvoiceView)
    requires
        is_writable_invoice(invoice),
    ensures
        ({
            let line = written_invoice(invoice);
            let at = places_of(invoice);
            &&& amount_at(line, at.recipients_end + 1) == Some((invoice.amount, at.amount_end))
            &&& blank_at(line, at.amount_end)
            &&& date_at(line, at.amount_end + 1) == Some((invoice.start, at.date_end))
            &&& match invoice.recurrence {
                Some(recurrence) => range_at(line, at.date_end) == Some(
                    (recurrence.end, step_numbers(recurrence.period), at.range_end),
                ),
                None => range_at(line, at.date_end) is None && at.range_end == at.date_end,
            }
            &&& note_at(line, at.range_end)
            &&& line.skip(at.range_end + 1) == invoice.note
        }),
{
    let line = written_invoice(invoice);
    let at = places_of(invoice);
    assert(invoice.senders[0].len() == 2);
    lemma_invoice_places(invoice);
    assert(amount_at(line, at.recipients_end + 1) == Some((invoice.amount, at.amount_end))) by {
        lemma_char_at(line, at.amount_end, ' ');
        lemma_amount_reads(line, at.recipients_end + 1, invoice.amount);
    }
    assert(blank_at(line, at.amount_end)) by {
        lemma_char_at(line, at.amount_end, ' ');
    }
    assert(date_at(line, at.amount_end + 1) == Some((invoice.start, at.date_end))) by {
        lemma_date_reads(line, at.amount_end + 1, invoice.start);
    }
    assert(note_at(line, at.range_end)) by {
        lemma_char_at(line, at.range_end, ' ');
    }
    assert(line.skip(at.range_end + 1) == invoice.note) by {
        assert(line.skip(at.range_end + 1) =~= line.subrange(
            at.range_end + 1,
            at.range_end + 1 + invoice.note.len(),
        ));
    }
    match invoice.recurrence {
        Some(recurrence) => {
            assert(range_at(line, at.date_end) == Some(
                (recurrence.end, step_numbers(recurrence.period), at.range_end),
            )) by {
                lemma_range_reads(line, at.date_end, recurrence);
            }
        },
        None => {
            assert(range_at(line, at.date_end) is None) by {
                lemma_word_part(line, at.range_end + 1, invoice.note, 0, 1);
                assert(line[at.date_end + 1] == invoice.note[0]);
            }
        },
    }
}

/// What the form of a written invoice is read as.
proof fn lemma_invoice_text_reads(invoice: InvoiceView)
    requires
        is_writable_invoice(invoice),
    ensures
        invoice_text(written_invoice(invoice)) is Some,
        invoice_of(invoice_text(written_invoice(invoice))->0) == Ok::<InvoiceView, LineError>(
            invoice,
        ),
{
    lemma_invoice_names_read(invoice);
    lemma_invoice_rest_reads(invoice);
    if let Some(recurrence) = invoice.recurrence {
        assert(period_of(step_numbers(recurrence.period)) == recurrence.period);
    }
}

/// An invoice that is written is read as that invoice.
pub proof fn lemma_invoice_reads(invoice: InvoiceView)
    requires
        is_writable_invoice(invoice),
    ensures
        line_of(written_invoice(invoice)) == Ok::<LineView, LineError>(
            LineView::Invoice(invoice),
        ),
{
    let line = written_invoice(invoice);
    lemma_invoice_text_reads(invoice);
    lemma_invoice_places(invoice);
    assert(line.len() > 0 && line[0] == 'i') by {
        reveal_strlit("invoice ");
        lemma_word_part(line, 0, "invoice "@, 0, 1);
    }
    assert(!is_comment(line)) by {
        reveal_strlit("//");
        if is_comment(line) {
            assert(line.subrange(0, 2)[0] == '/');
        }
    }
    assert(account_text(line) is None) by {
        reveal_strlit("account");
        if word_at(line, 0, "account"@) {
            assert(line.subrange(0, 7)[0] == 'a');
        }
    }
}

} // verus!
