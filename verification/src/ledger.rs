//! The ledger: the reference date, the accounts, and the invoices and payments up to
//! that date, as the ledger text declares them.
//!
//! The text is read line by line. Its first line is the header; every line after it
//! is taken into the ledger as it stands, and the first line that cannot be taken
//! in ends the reading with an error that names it. Invoices are never merged: two
//! lines that agree in everything give rise to two sets of transactions.

use crate::account::{
    account_text, acronyms_distinct, declared, find, is_acronym, lemma_position,
    lemma_position_stable, position, views, Account, AccountView,
};
use crate::date::{date_text, Date, DateView};
use crate::grammar::{
    header_of, lemma_line_of, line_of, parse_header, parse_line, texts, InvoiceLine,
    InvoiceView, Line, LineError, LineView, PaymentLine, PaymentView,
};
use crate::recurrence::{date_views, expand, lemma_occurrences, occurrences, RecurrenceError};
use crate::text::{chars_of, string_of};
use crate::transaction::{transaction_text, transaction_views, Transaction, TransactionView};
use vstd::prelude::*;

verus! {

/// Where the line that begins at `from` ends: at the next line feed, or at the end
/// of the text.
pub open spec fn line_end(s: Seq<char>, from: int) -> int
    decreases s.len() - from,
{
    if from < 0 || from >= s.len() || s[from] == '\n' {
        from
    } else {
        line_end(s, from + 1)
    }
}

/// The line that begins at `from`, without the line feed that ends it and without a
/// carriage return before that line feed.
pub open spec fn line_at(s: Seq<char>, from: int) -> Seq<char> {
    let end = line_end(s, from);
    if from < end < s.len() && s[end - 1] == '\r' {
        s.subrange(from, end - 1)
    } else {
        s.subrange(from, end)
    }
}

/// The lines of the text from `from` on.
pub open spec fn lines_from(s: Seq<char>, from: int) -> Seq<Seq<char>>
    decreases s.len() - from,
{
    if from < 0 || from >= s.len() {
        Seq::empty()
    } else if line_end(s, from) >= s.len() {
        seq![line_at(s, from)]
    } else {
        proof {
            lemma_line_end(s, from);
        }
        seq![line_at(s, from)] + lines_from(s, line_end(s, from) + 1)
    }
}

/// The lines of a text. Each ends with a line feed, but for the last, which may end
/// with the text.
pub open spec fn lines_of(s: Seq<char>) -> Seq<Seq<char>> {
    lines_from(s, 0)
}

/// A line ends at a line feed or with the text, and holds no line feed.
pub proof fn lemma_line_end(s: Seq<char>, from: int)
    requires
        0 <= from <= s.len(),
    ensures
        from <= line_end(s, from) <= s.len(),
        line_end(s, from) < s.len() ==> s[line_end(s, from)] == '\n',
        forall|i: int| from <= i < line_end(s, from) ==> s[i] != '\n',
    decreases s.len() - from,
{
    if from < s.len() && s[from] != '\n' {
        lemma_line_end(s, from + 1);
    }
}

/// What a [`Ledger`] stands for.
pub struct LedgerView {
    /// The reference date.
    pub today: DateView,
    pub accounts: Seq<AccountView>,
    pub invoices: Seq<TransactionView>,
    pub payments: Seq<TransactionView>,
}

impl LedgerView {
    /// The ledger with a reference date and nothing else.
    pub open spec fn empty(today: DateView) -> LedgerView {
        LedgerView { today, accounts: Seq::empty(), invoices: Seq::empty(), payments: Seq::empty() }
    }

    /// The transactions are between different accounts of the ledger, for an amount
    /// that is one, on a day of the calendar that is not after the reference date.
    pub open spec fn holds(self, transactions: Seq<TransactionView>) -> bool {
        forall|i: int|
            0 <= i < transactions.len() ==> {
                &&& (#[trigger] transactions[i]).is_valid()
                &&& transactions[i].within(self.accounts.len() as int)
                &&& !self.today.before(transactions[i].date)
            }
    }

    /// What holds of every ledger: the reference date is a day of the calendar, the
    /// accounts have acronyms, no two the same, and the invoices and payments are as
    /// [`LedgerView::holds`] says.
    pub open spec fn is_valid(self) -> bool {
        &&& self.today.is_valid()
        &&& acronyms_distinct(self.accounts)
        &&& forall|i: int|
            0 <= i < self.accounts.len() ==> is_acronym((#[trigger] self.accounts[i]).acronym)
        &&& self.holds(self.invoices)
        &&& self.holds(self.payments)
    }
}

/// Why a ledger text could not be read.
#[derive(Clone, Copy, Debug, PartialEq, Eq, Structural)]
pub enum ErrorKind {
    /// The text is empty: it has no header.
    MissingHeader,
    /// The line has none of the forms of the grammar.
    Malformed,
    /// The amount does not fit a `u64` of units.
    AmountTooLarge,
    /// A date of the line is no day of the calendar.
    InvalidDate,
    /// The line declares an account under an acronym that another account has.
    DuplicateAcronym,
    /// The line names an account that no line before it declares.
    UnknownAcronym,
    /// A step of the recurrence leads to a month that lacks the day of the month.
    InvalidDay,
    /// The step of the recurrence is empty, and its dates would never end.
    Endless,
}

/// What a [`ParseError`] stands for.
pub struct ParseErrorView {
    /// The number of the line, the header being line 1.
    pub line: int,
    pub kind: ErrorKind,
    /// The line as it stands in the text.
    pub text: Seq<char>,
}

/// The kind of error that a line that cannot be read gives rise to.
pub open spec fn line_error_kind(e: LineError) -> ErrorKind {
    match e {
        LineError::Malformed => ErrorKind::Malformed,
        LineError::AmountTooLarge => ErrorKind::AmountTooLarge,
        LineError::InvalidDate => ErrorKind::InvalidDate,
    }
}

/// The kind of error that a recurrence without dates gives rise to.
pub open spec fn recurrence_error_kind(e: RecurrenceError) -> ErrorKind {
    match e {
        RecurrenceError::InvalidDay => ErrorKind::InvalidDay,
        RecurrenceError::Endless => ErrorKind::Endless,
    }
}

/// The indices under which the registry knows the acronyms, if it knows them all.
pub open spec fn resolved(accounts: Seq<AccountView>, acronyms: Seq<Seq<char>>) -> Option<
    Seq<int>,
> {
    if forall|i: int| 0 <= i < acronyms.len() ==> declared(accounts, #[trigger] acronyms[i]) {
        Some(Seq::new(acronyms.len(), |i: int| position(accounts, acronyms[i])->0))
    } else {
        None
    }
}

/// The transaction that an invoice line gives rise to between two accounts.
pub open spec fn owing(
    sender: int,
    recipient: int,
    amount: int,
    date: DateView,
    note: Seq<char>,
) -> Seq<TransactionView> {
    if sender == recipient {
        Seq::empty()
    } else {
        seq![TransactionView { sender, recipient, amount, date, note }]
    }
}

/// What the senders owe the first recipient on one date: each sender other than the
/// recipient owes the share.
pub open spec fn shares(
    senders: Seq<int>,
    recipient: int,
    share: int,
    date: DateView,
    note: Seq<char>,
) -> Seq<TransactionView>
    decreases senders.len(),
{
    if senders.len() == 0 {
        Seq::empty()
    } else {
        shares(senders.drop_last(), recipient, share, date, note) + owing(
            senders.last(),
            recipient,
            share,
            date,
            note,
        )
    }
}

/// What the recipients pass on along their chain on one date: each recipient owes
/// the whole amount to the next one, unless the two are the same.
pub open spec fn forwards(recipients: Seq<int>, amount: int, date: DateView, note: Seq<char>) -> Seq<
    TransactionView,
>
    decreases recipients.len(),
{
    if recipients.len() <= 1 {
        Seq::empty()
    } else {
        forwards(recipients.drop_last(), amount, date, note) + owing(
            recipients[recipients.len() - 2],
            recipients.last(),
            amount,
            date,
            note,
        )
    }
}

/// The transactions of an invoice on one date: the shares of the senders, then what
/// the recipients pass on. The share is the amount divided by the number of senders,
/// rounded down to a whole unit.
pub open spec fn on_date(
    senders: Seq<int>,
    recipients: Seq<int>,
    amount: int,
    date: DateView,
    note: Seq<char>,
) -> Seq<TransactionView> {
    shares(senders, recipients[0], amount / (senders.len() as int), date, note) + forwards(
        recipients,
        amount,
        date,
        note,
    )
}

/// The transactions of an invoice on its dates, date by date.
pub open spec fn on_dates(
    senders: Seq<int>,
    recipients: Seq<int>,
    amount: int,
    dates: Seq<DateView>,
    note: Seq<char>,
) -> Seq<TransactionView>
    decreases dates.len(),
{
    if dates.len() == 0 {
        Seq::empty()
    } else {
        on_dates(senders, recipients, amount, dates.drop_last(), note) + on_date(
            senders,
            recipients,
            amount,
            dates.last(),
            note,
        )
    }
}

/// The ledger after the declaration of an account, whose acronym must be new.
pub open spec fn with_account(ledger: LedgerView, account: AccountView) -> Result<
    LedgerView,
    ErrorKind,
> {
    if declared(ledger.accounts, account.acronym) {
        Err(ErrorKind::DuplicateAcronym)
    } else {
        Ok(
            LedgerView {
                today: ledger.today,
                accounts: ledger.accounts.push(account),
                invoices: ledger.invoices,
                payments: ledger.payments,
            },
        )
    }
}

/// The ledger after an invoice line. Its accounts must be declared. An invoice that
/// starts after the reference date leaves the ledger as it is. Any other adds its
/// transactions on each of its dates.
pub open spec fn with_invoice(ledger: LedgerView, invoice: InvoiceView) -> Result<
    LedgerView,
    ErrorKind,
> {
    match (
        resolved(ledger.accounts, invoice.senders),
        resolved(ledger.accounts, invoice.recipients),
    ) {
        (Some(senders), Some(recipients)) => {
            if ledger.today.before(invoice.start) {
                Ok(ledger)
            } else {
                match occurrences(invoice.start, invoice.recurrence, ledger.today) {
                    Ok(dates) => Ok(
                        LedgerView {
                            today: ledger.today,
                            accounts: ledger.accounts,
                            invoices: ledger.invoices + on_dates(
                                senders,
                                recipients,
                                invoice.amount,
                                dates,
                                invoice.note,
                            ),
                            payments: ledger.payments,
                        },
                    ),
                    Err(e) => Err(recurrence_error_kind(e)),
                }
            }
        },
        _ => Err(ErrorKind::UnknownAcronym),
    }
}

/// The ledger after a payment line. Its accounts must be declared. A payment after
/// the reference date, or from an account to itself, leaves the ledger as it is.
pub open spec fn with_payment(ledger: LedgerView, payment: PaymentView) -> Result<
    LedgerView,
    ErrorKind,
> {
    match (position(ledger.accounts, payment.sender), position(ledger.accounts, payment.recipient)) {
        (Some(sender), Some(recipient)) => {
            if ledger.today.before(payment.date) {
                Ok(ledger)
            } else {
                Ok(
                    LedgerView {
                        today: ledger.today,
                        accounts: ledger.accounts,
                        invoices: ledger.invoices,
                        payments: ledger.payments + owing(
                            sender,
                            recipient,
                            payment.amount,
                            payment.date,
                            payment.note,
                        ),
                    },
                )
            }
        },
        _ => Err(ErrorKind::UnknownAcronym),
    }
}

/// The ledger after one more line.
#[verifier::opaque]
pub open spec fn with_line(ledger: LedgerView, line: Seq<char>) -> Result<LedgerView, ErrorKind> {
    match line_of(line) {
        Ok(LineView::Blank) => Ok(ledger),
        Ok(LineView::Comment) => Ok(ledger),
        Ok(LineView::Account(account)) => with_account(ledger, account),
        Ok(LineView::Invoice(invoice)) => with_invoice(ledger, invoice),
        Ok(LineView::Payment(payment)) => with_payment(ledger, payment),
        Err(e) => Err(line_error_kind(e)),
    }
}

/// The ledger after further lines, of which the first has the number `number`. The
/// first line that cannot be taken in ends the reading.
pub open spec fn with_lines(ledger: LedgerView, lines: Seq<Seq<char>>, number: int) -> Result<
    LedgerView,
    ParseErrorView,
>
    decreases lines.len(),
{
    if lines.len() == 0 {
        Ok(ledger)
    } else {
        match with_lines(ledger, lines.drop_last(), number) {
            Ok(before) => match with_line(before, lines.last()) {
                Ok(after) => Ok(after),
                Err(kind) => Err(
                    ParseErrorView {
                        line: number + lines.len() - 1,
                        kind,
                        text: lines.last(),
                    },
                ),
            },
            Err(e) => Err(e),
        }
    }
}

/// The ledger that a text declares: its first line is the header, and the lines
/// after it are taken in one by one.
pub open spec fn ledger_of(text: Seq<char>) -> Result<LedgerView, ParseErrorView> {
    let lines = lines_of(text);
    if lines.len() == 0 {
        Err(ParseErrorView { line: 1, kind: ErrorKind::MissingHeader, text: Seq::empty() })
    } else {
        match header_of(lines[0]) {
            Ok(today) => with_lines(LedgerView::empty(today), lines.skip(1), 2),
            Err(e) => Err(ParseErrorView { line: 1, kind: line_error_kind(e), text: lines[0] }),
        }
    }
}

/// What each line of a list holds.
pub open spec fn line_texts(lines: Seq<Vec<char>>) -> Seq<Seq<char>> {
    lines.map_values(|l: Vec<char>| l@)
}

/// The indices of a list as mathematical integers.
pub open spec fn indices(list: Seq<usize>) -> Seq<int> {
    list.map_values(|i: usize| i as int)
}

/// A copy of `s[from..to]`.
fn copy_range(s: &Vec<char>, from: usize, to: usize) -> (r: Vec<char>)
    requires
        from <= to <= s.len(),
    ensures
        r@ == s@.subrange(from as int, to as int),
{
    let mut out: Vec<char> = Vec::new();
    let mut i: usize = from;
    while i < to
        invariant
            from <= i <= to <= s.len(),
            out@ == s@.subrange(from as int, i as int),
        decreases to - i,
    {
        out.push(s[i]);
        i += 1;
        assert(s@.subrange(from as int, i as int) == s@.subrange(from as int, i - 1).push(
            s@[i - 1],
        ));
    }
    out
}

/// The lines of a text: see [`lines_of`].
pub fn split_lines(s: &Vec<char>) -> (r: Vec<Vec<char>>)
    ensures
        line_texts(r@) == lines_of(s@),
{
    let mut lines: Vec<Vec<char>> = Vec::new();
    let mut from: usize = 0;
    assert(line_texts(lines@) + lines_from(s@, 0) =~= lines_of(s@));
    while from < s.len()
        invariant
            from <= s.len(),
            line_texts(lines@) + lines_from(s@, from as int) == lines_of(s@),
        decreases s.len() - from,
    {
        let mut end: usize = from;
        while end < s.len() && s[end] != '\n'
            invariant
                from <= end <= s.len(),
                line_end(s@, from as int) == line_end(s@, end as int),
            decreases s.len() - end,
        {
            end += 1;
        }
        let stop = if from < end && end < s.len() && s[end - 1] == '\r' {
            end - 1
        } else {
            end
        };
        let ghost before = line_texts(lines@);
        lines.push(copy_range(s, from, stop));
        proof {
            assert(line_texts(lines@) =~= before.push(line_at(s@, from as int)));
        }
        if end >= s.len() {
            assert(line_texts(lines@) =~= before + lines_from(s@, from as int));
            return lines;
        }
        proof {
            assert(before.push(line_at(s@, from as int)) + lines_from(s@, end + 1) =~= before
                + lines_from(s@, from as int));
        }
        from = end + 1;
    }
    assert(line_texts(lines@) + Seq::<Seq<char>>::empty() =~= line_texts(lines@));
    lines
}

/// The indices of the accounts with these acronyms, if the registry has them all.
pub fn resolve(acronyms: &Vec<String>, accounts: &Vec<Account>) -> (r: Option<Vec<usize>>)
    ensures
        match r {
            Some(found) => resolved(views(accounts@), texts(acronyms@)) == Some(
                indices(found@),
            ) && found.len() == acronyms.len() && forall|i: int|
                0 <= i < found.len() ==> (#[trigger] found[i]) < accounts.len(),
            None => resolved(views(accounts@), texts(acronyms@)) is None,
        },
{
    let ghost registry = views(accounts@);
    let ghost wanted = texts(acronyms@);
    let mut found: Vec<usize> = Vec::new();
    let mut i: usize = 0;
    while i < acronyms.len()
        invariant
            i <= acronyms.len(),
            registry == views(accounts@),
            wanted == texts(acronyms@),
            found.len() == i,
            forall|j: int| 0 <= j < i ==> declared(registry, #[trigger] wanted[j]),
            forall|j: int|
                0 <= j < i ==> position(registry, wanted[j]) == Some((#[trigger] found[j]) as int),
            forall|j: int| 0 <= j < i ==> (#[trigger] found[j]) < accounts.len(),
        decreases acronyms.len() - i,
    {
        proof {
            assert(wanted[i as int] == acronyms@[i as int]@);
            lemma_position(registry, wanted[i as int]);
        }
        match find(&acronyms[i], accounts) {
            Some(index) => {
                found.push(index);
            },
            None => {
                return None;
            },
        }
        i += 1;
    }
    proof {
        assert(indices(found@) =~= resolved(registry, wanted)->0);
    }
    Some(found)
}

/// Adds the transaction between the two accounts, unless they are one.
fn push_owing(
    out: &mut Vec<Transaction>,
    sender: usize,
    recipient: usize,
    amount: u64,
    date: Date,
    note: &String,
)
    ensures
        transaction_views(final(out)@) == transaction_views(old(out)@) + owing(
            sender as int,
            recipient as int,
            amount as int,
            date@,
            note@,
        ),
{
    let ghost before = transaction_views(out@);
    if sender != recipient {
        out.push(Transaction::new(sender, recipient, amount, date, note.clone()));
        assert(transaction_views(out@) =~= before + owing(
            sender as int,
            recipient as int,
            amount as int,
            date@,
            note@,
        ));
    } else {
        assert(before + Seq::<TransactionView>::empty() =~= before);
    }
}

/// Adds the transactions of an invoice on one date: see [`on_date`].
fn push_on_date(
    out: &mut Vec<Transaction>,
    senders: &Vec<usize>,
    recipients: &Vec<usize>,
    amount: u64,
    date: Date,
    note: &String,
)
    requires
        senders.len() >= 1,
        recipients.len() >= 1,
    ensures
        transaction_views(final(out)@) == transaction_views(old(out)@) + on_date(
            indices(senders@),
            indices(recipients@),
            amount as int,
            date@,
            note@,
        ),
{
    let ghost before = transaction_views(out@);
    let ghost from = indices(senders@);
    let ghost to = indices(recipients@);
    let share: u64 = amount / (senders.len() as u64);
    let first = recipients[0];
    assert(to[0] == first);
    let mut i: usize = 0;
    assert(from.take(0) =~= Seq::<int>::empty());
    assert(before + Seq::<TransactionView>::empty() =~= before);
    while i < senders.len()
        invariant
            i <= senders.len(),
            from == indices(senders@),
            transaction_views(out@) == before + shares(
                from.take(i as int),
                first as int,
                share as int,
                date@,
                note@,
            ),
        decreases senders.len() - i,
    {
        proof {
            assert(from.take(i + 1).drop_last() =~= from.take(i as int));
            assert(from.take(i + 1).last() == senders@[i as int]);
        }
        let ghost so_far = transaction_views(out@);
        push_owing(out, senders[i], first, share, date, note);
        proof {
            let added = owing(senders@[i as int] as int, first as int, share as int, date@, note@);
            assert(so_far + added =~= before + (shares(
                from.take(i as int),
                first as int,
                share as int,
                date@,
                note@,
            ) + added));
        }
        i += 1;
    }
    assert(from.take(senders.len() as int) =~= from);
    let ghost shared = shares(from, first as int, share as int, date@, note@);
    let mut k: usize = 1;
    assert(forwards(to.take(1), amount as int, date@, note@) =~= Seq::<TransactionView>::empty());
    assert(before + shared + Seq::<TransactionView>::empty() =~= before + shared);
    while k < recipients.len()
        invariant
            1 <= k <= recipients.len(),
            to == indices(recipients@),
            transaction_views(out@) == before + shared + forwards(
                to.take(k as int),
                amount as int,
                date@,
                note@,
            ),
        decreases recipients.len() - k,
    {
        proof {
            assert(to.take(k + 1).drop_last() =~= to.take(k as int));
            assert(to.take(k + 1).last() == recipients@[k as int]);
            assert(to.take(k + 1)[k - 1] == recipients@[k - 1]);
        }
        let ghost so_far = transaction_views(out@);
        push_owing(out, recipients[k - 1], recipients[k], amount, date, note);
        proof {
            let added = owing(
                recipients@[k - 1] as int,
                recipients@[k as int] as int,
                amount as int,
                date@,
                note@,
            );
            assert(so_far + added =~= before + shared + (forwards(
                to.take(k as int),
                amount as int,
                date@,
                note@,
            ) + added));
        }
        k += 1;
    }
    assert(to.take(recipients.len() as int) =~= to);
    assert(before + shared + forwards(to, amount as int, date@, note@) =~= before + (shared
        + forwards(to, amount as int, date@, note@)));
}

/// Adds the transactions of an invoice on its dates: see [`on_dates`].
pub fn push_on_dates(
    out: &mut Vec<Transaction>,
    senders: &Vec<usize>,
    recipients: &Vec<usize>,
    amount: u64,
    dates: &Vec<Date>,
    note: &String,
)
    requires
        senders.len() >= 1,
        recipients.len() >= 1,
    ensures
        transaction_views(final(out)@) == transaction_views(old(out)@) + on_dates(
            indices(senders@),
            indices(recipients@),
            amount as int,
            date_views(dates@),
            note@,
        ),
{
    let ghost before = transaction_views(out@);
    let ghost days = date_views(dates@);
    let mut i: usize = 0;
    assert(days.take(0) =~= Seq::<DateView>::empty());
    assert(before + Seq::<TransactionView>::empty() =~= before);
    while i < dates.len()
        invariant
            i <= dates.len(),
            senders.len() >= 1,
            recipients.len() >= 1,
            days == date_views(dates@),
            transaction_views(out@) == before + on_dates(
                indices(senders@),
                indices(recipients@),
                amount as int,
                days.take(i as int),
                note@,
            ),
        decreases dates.len() - i,
    {
        proof {
            assert(days.take(i + 1).drop_last() =~= days.take(i as int));
            assert(days.take(i + 1).last() == dates@[i as int]@);
        }
        let ghost so_far = transaction_views(out@);
        push_on_date(out, senders, recipients, amount, dates[i], note);
        proof {
            let added = on_date(
                indices(senders@),
                indices(recipients@),
                amount as int,
                dates@[i as int]@,
                note@,
            );
            assert(so_far + added =~= before + (on_dates(
                indices(senders@),
                indices(recipients@),
                amount as int,
                days.take(i as int),
                note@,
            ) + added));
        }
        i += 1;
    }
    assert(days.take(dates.len() as int) =~= days);
}

proof fn lemma_holds_joined(
    ledger: LedgerView,
    first: Seq<TransactionView>,
    second: Seq<TransactionView>,
)
    requires
        ledger.holds(first),
        ledger.holds(second),
    ensures
        ledger.holds(first + second),
{
    let all = first + second;
    assert forall|i: int| 0 <= i < all.len() implies {
        &&& (#[trigger] all[i]).is_valid()
        &&& all[i].within(ledger.accounts.len() as int)
        &&& !ledger.today.before(all[i].date)
    } by {
        if i < first.len() {
            assert(all[i] == first[i]);
        } else {
            assert(all[i] == second[i - first.len()]);
        }
    }
}

/// Whether `i` is the index of an account of the ledger.
pub open spec fn is_account(ledger: LedgerView, i: int) -> bool {
    0 <= i < ledger.accounts.len()
}

proof fn lemma_owing_holds(
    ledger: LedgerView,
    sender: int,
    recipient: int,
    amount: int,
    date: DateView,
    note: Seq<char>,
)
    requires
        is_account(ledger, sender),
        is_account(ledger, recipient),
        0 <= amount <= u64::MAX,
        date.is_valid(),
        !ledger.today.before(date),
    ensures
        ledger.holds(owing(sender, recipient, amount, date, note)),
{
}

proof fn lemma_shares_hold(
    ledger: LedgerView,
    senders: Seq<int>,
    recipient: int,
    share: int,
    date: DateView,
    note: Seq<char>,
)
    requires
        forall|i: int| 0 <= i < senders.len() ==> is_account(ledger, #[trigger] senders[i]),
        is_account(ledger, recipient),
        0 <= share <= u64::MAX,
        date.is_valid(),
        !ledger.today.before(date),
    ensures
        ledger.holds(shares(senders, recipient, share, date, note)),
    decreases senders.len(),
{
    if senders.len() > 0 {
        let rest = senders.drop_last();
        assert forall|i: int| 0 <= i < rest.len() implies is_account(ledger, #[trigger] rest[i]) by {
            assert(rest[i] == senders[i]);
        }
        lemma_shares_hold(ledger, rest, recipient, share, date, note);
        assert(is_account(ledger, senders[senders.len() - 1]));
        lemma_owing_holds(ledger, senders.last(), recipient, share, date, note);
        lemma_holds_joined(
            ledger,
            shares(rest, recipient, share, date, note),
            owing(senders.last(), recipient, share, date, note),
        );
    }
}

proof fn lemma_forwards_hold(
    ledger: LedgerView,
    recipients: Seq<int>,
    amount: int,
    date: DateView,
    note: Seq<char>,
)
    requires
        forall|i: int| 0 <= i < recipients.len() ==> is_account(ledger, #[trigger] recipients[i]),
        0 <= amount <= u64::MAX,
        date.is_valid(),
        !ledger.today.before(date),
    ensures
        ledger.holds(forwards(recipients, amount, date, note)),
    decreases recipients.len(),
{
    if recipients.len() > 1 {
        let rest = recipients.drop_last();
        assert forall|i: int| 0 <= i < rest.len() implies is_account(ledger, #[trigger] rest[i]) by {
            assert(rest[i] == recipients[i]);
        }
        lemma_forwards_hold(ledger, rest, amount, date, note);
        assert(is_account(ledger, recipients[recipients.len() - 2]));
        assert(is_account(ledger, recipients[recipients.len() - 1]));
        lemma_owing_holds(
            ledger,
            recipients[recipients.len() - 2],
            recipients.last(),
            amount,
            date,
            note,
        );
        lemma_holds_joined(
            ledger,
            forwards(rest, amount, date, note),
            owing(recipients[recipients.len() - 2], recipients.last(), amount, date, note),
        );
    }
}

/// The transactions of an invoice are between different accounts of the ledger and
/// fall on the dates of the invoice.
pub proof fn lemma_on_dates_hold(
    ledger: LedgerView,
    senders: Seq<int>,
    recipients: Seq<int>,
    amount: int,
    dates: Seq<DateView>,
    note: Seq<char>,
)
    requires
        senders.len() >= 1,
        recipients.len() >= 1,
        forall|i: int| 0 <= i < senders.len() ==> is_account(ledger, #[trigger] senders[i]),
        forall|i: int| 0 <= i < recipients.len() ==> is_account(ledger, #[trigger] recipients[i]),
        0 <= amount <= u64::MAX,
        forall|i: int|
            0 <= i < dates.len() ==> (#[trigger] dates[i]).is_valid() && !ledger.today.before(
                dates[i],
            ),
    ensures
        ledger.holds(on_dates(senders, recipients, amount, dates, note)),
    decreases dates.len(),
{
    if dates.len() > 0 {
        let rest = dates.drop_last();
        let date = dates.last();
        assert forall|i: int| 0 <= i < rest.len() implies (#[trigger] rest[i]).is_valid()
            && !ledger.today.before(rest[i]) by {
            assert(rest[i] == dates[i]);
        }
        lemma_on_dates_hold(ledger, senders, recipients, amount, rest, note);
        assert(dates[dates.len() - 1].is_valid());
        let count = senders.len() as int;
        let share = amount / count;
        assert(0 <= share <= amount) by (nonlinear_arith)
            requires
                share == amount / count,
                0 <= amount,
                1 <= count,
        ;
        assert(is_account(ledger, recipients[0]));
        lemma_shares_hold(ledger, senders, recipients[0], share, date, note);
        lemma_forwards_hold(ledger, recipients, amount, date, note);
        lemma_holds_joined(
            ledger,
            shares(senders, recipients[0], share, date, note),
            forwards(recipients, amount, date, note),
        );
        lemma_holds_joined(
            ledger,
            on_dates(senders, recipients, amount, rest, note),
            on_date(senders, recipients, amount, date, note),
        );
    }
}

proof fn lemma_resolved_are_accounts(ledger: LedgerView, acronyms: Seq<Seq<char>>)
    requires
        resolved(ledger.accounts, acronyms) is Some,
    ensures
        resolved(ledger.accounts, acronyms)->0.len() == acronyms.len(),
        forall|i: int|
            0 <= i < acronyms.len() ==> is_account(
                ledger,
                #[trigger] resolved(ledger.accounts, acronyms)->0[i],
            ),
{
    let found = resolved(ledger.accounts, acronyms)->0;
    assert forall|i: int| 0 <= i < acronyms.len() implies is_account(
        ledger,
        #[trigger] found[i],
    ) by {
        assert(declared(ledger.accounts, acronyms[i]));
        lemma_position(ledger.accounts, acronyms[i]);
    }
}

proof fn lemma_holds_more_accounts(
    ledger: LedgerView,
    account: AccountView,
    transactions: Seq<TransactionView>,
)
    requires
        ledger.holds(transactions),
    ensures
        (LedgerView {
            today: ledger.today,
            accounts: ledger.accounts.push(account),
            invoices: ledger.invoices,
            payments: ledger.payments,
        }).holds(transactions),
{
}

/// A line that a valid ledger takes in leaves a valid ledger. The ledger only
/// grows: the reference date stays, and the accounts, invoices and payments that
/// were there keep their places.
pub proof fn lemma_with_line(ledger: LedgerView, line: Seq<char>)
    requires
        ledger.is_valid(),
        with_line(ledger, line) is Ok,
    ensures
        ({
            let after = with_line(ledger, line)->Ok_0;
            &&& after.is_valid()
            &&& after.today == ledger.today
            &&& ledger.accounts.is_prefix_of(after.accounts)
            &&& ledger.invoices.is_prefix_of(after.invoices)
            &&& ledger.payments.is_prefix_of(after.payments)
        }),
{
    reveal(with_line);
    let after = with_line(ledger, line)->Ok_0;
    lemma_line_of(line);
    match line_of(line) {
        Ok(LineView::Account(account)) => {
            lemma_holds_more_accounts(ledger, account, ledger.invoices);
            lemma_holds_more_accounts(ledger, account, ledger.payments);
            assert(acronyms_distinct(after.accounts)) by {
                assert forall|i: int, j: int| 0 <= i < j < after.accounts.len() implies (
                #[trigger] after.accounts[i]).acronym != (#[trigger] after.accounts[j]).acronym by {
                    if j < ledger.accounts.len() {
                        assert(ledger.accounts[i].acronym != ledger.accounts[j].acronym);
                    } else {
                        assert(ledger.accounts[i].acronym != account.acronym);
                    }
                }
            }
            assert forall|i: int| 0 <= i < after.accounts.len() implies is_acronym(
                (#[trigger] after.accounts[i]).acronym,
            ) by {
                if i < ledger.accounts.len() {
                    assert(is_acronym(ledger.accounts[i].acronym));
                }
            }
        },
        Ok(LineView::Invoice(invoice)) => {
            if !ledger.today.before(invoice.start) {
                let senders = resolved(ledger.accounts, invoice.senders)->0;
                let recipients = resolved(ledger.accounts, invoice.recipients)->0;
                let dates = occurrences(invoice.start, invoice.recurrence, ledger.today)->Ok_0;
                lemma_resolved_are_accounts(ledger, invoice.senders);
                lemma_resolved_are_accounts(ledger, invoice.recipients);
                lemma_occurrences(invoice.start, invoice.recurrence, ledger.today);
                assert forall|i: int| 0 <= i < dates.len() implies (#[trigger] dates[i]).is_valid()
                    && !ledger.today.before(dates[i]) by {
                    if i == 0 {
                        assert(dates[0] == invoice.start);
                    }
                }
                lemma_on_dates_hold(
                    ledger,
                    senders,
                    recipients,
                    invoice.amount,
                    dates,
                    invoice.note,
                );
                lemma_holds_joined(
                    ledger,
                    ledger.invoices,
                    on_dates(senders, recipients, invoice.amount, dates, invoice.note),
                );
            }
        },
        Ok(LineView::Payment(payment)) => {
            if !ledger.today.before(payment.date) {
                lemma_position(ledger.accounts, payment.sender);
                lemma_position(ledger.accounts, payment.recipient);
                let sender = position(ledger.accounts, payment.sender)->0;
                let recipient = position(ledger.accounts, payment.recipient)->0;
                lemma_owing_holds(
                    ledger,
                    sender,
                    recipient,
                    payment.amount,
                    payment.date,
                    payment.note,
                );
                lemma_holds_joined(
                    ledger,
                    ledger.payments,
                    owing(sender, recipient, payment.amount, payment.date, payment.note),
                );
            }
        },
        _ => {},
    }
}

/// An acronym that a ledger knows keeps its index when the ledger takes in a line:
/// looking it up gives the same account before and after.
pub proof fn lemma_lookup_stays(ledger: LedgerView, line: Seq<char>, acronym: Seq<char>)
    requires
        ledger.is_valid(),
        with_line(ledger, line) is Ok,
        declared(ledger.accounts, acronym),
    ensures
        position(with_line(ledger, line)->Ok_0.accounts, acronym) == position(
            ledger.accounts,
            acronym,
        ),
{
    lemma_with_line(ledger, line);
    let after = with_line(ledger, line)->Ok_0;
    let more = after.accounts.skip(ledger.accounts.len() as int);
    assert(after.accounts =~= ledger.accounts + more);
    lemma_position_stable(ledger.accounts, more, acronym);
}

/// The lines that a valid ledger takes in leave a valid ledger with the same
/// reference date, in which every acronym that was known has kept its index.
pub proof fn lemma_with_lines(ledger: LedgerView, lines: Seq<Seq<char>>, number: int)
    requires
        ledger.is_valid(),
        with_lines(ledger, lines, number) is Ok,
    ensures
        ({
            let after = with_lines(ledger, lines, number)->Ok_0;
            &&& after.is_valid()
            &&& after.today == ledger.today
            &&& ledger.accounts.is_prefix_of(after.accounts)
            &&& ledger.invoices.is_prefix_of(after.invoices)
            &&& ledger.payments.is_prefix_of(after.payments)
            &&& forall|acronym: Seq<char>|
                declared(ledger.accounts, acronym) ==> #[trigger] position(
                    after.accounts,
                    acronym,
                ) == position(ledger.accounts, acronym)
        }),
    decreases lines.len(),
{
    if lines.len() > 0 {
        let before = with_lines(ledger, lines.drop_last(), number)->Ok_0;
        lemma_with_lines(ledger, lines.drop_last(), number);
        lemma_with_line(before, lines.last());
        let after = with_lines(ledger, lines, number)->Ok_0;
        assert forall|acronym: Seq<char>| declared(ledger.accounts, acronym) implies #[trigger] position(
            after.accounts,
            acronym,
        ) == position(ledger.accounts, acronym) by {
            let i = choose|i: int|
                0 <= i < ledger.accounts.len() && #[trigger] ledger.accounts[i].acronym == acronym;
            assert(before.accounts[i] == ledger.accounts[i]);
            assert(declared(before.accounts, acronym));
            lemma_lookup_stays(before, lines.last(), acronym);
        }
    }
}

/// The ledger that a text declares is valid: among other things, no two of its
/// accounts share an acronym, and none of its invoices and payments is dated after
/// its reference date.
pub proof fn lemma_ledger_of(text: Seq<char>)
    requires
        ledger_of(text) is Ok,
    ensures
        ledger_of(text)->Ok_0.is_valid(),
{
    let lines = lines_of(text);
    let today = header_of(lines[0])->Ok_0;
    lemma_with_lines(LedgerView::empty(today), lines.skip(1), 2);
}

/// Once a line has ended the reading, the lines after it change nothing.
pub proof fn lemma_with_lines_error(
    ledger: LedgerView,
    lines: Seq<Seq<char>>,
    read: int,
    number: int,
)
    requires
        0 <= read <= lines.len(),
        with_lines(ledger, lines.take(read), number) is Err,
    ensures
        with_lines(ledger, lines, number) == with_lines(ledger, lines.take(read), number),
    decreases lines.len() - read,
{
    if read < lines.len() {
        assert(lines.drop_last().take(read) == lines.take(read));
        lemma_with_lines_error(ledger, lines.drop_last(), read, number);
    } else {
        assert(lines.take(read) == lines);
    }
}

/// The accounts as text: a line for each.
pub open spec fn accounts_text(accounts: Seq<AccountView>) -> Seq<char>
    decreases accounts.len(),
{
    if accounts.len() == 0 {
        Seq::empty()
    } else {
        accounts_text(accounts.drop_last()) + account_text(accounts.last()) + seq!['\n']
    }
}

/// The transactions as text: a line for each, with the acronyms of `accounts`.
pub open spec fn transactions_text(
    transactions: Seq<TransactionView>,
    accounts: Seq<AccountView>,
) -> Seq<char>
    decreases transactions.len(),
{
    if transactions.len() == 0 {
        Seq::empty()
    } else {
        transactions_text(transactions.drop_last(), accounts) + transaction_text(
            transactions.last(),
            accounts,
        ) + seq!['\n']
    }
}

/// The ledger as text: the reference date, then the accounts, the invoices and the
/// payments, each under a heading of its own.
pub open spec fn ledger_text(ledger: LedgerView) -> Seq<char> {
    "Today "@ + date_text(ledger.today) + "\n\nAccounts:\n"@ + accounts_text(ledger.accounts)
        + "\nInvoices:\n"@ + transactions_text(ledger.invoices, ledger.accounts)
        + "\nPayments:\n"@ + transactions_text(ledger.payments, ledger.accounts)
}

/// Appends the transactions as text: see [`transactions_text`].
fn push_transactions(out: &mut String, transactions: &Vec<Transaction>, accounts: &Vec<Account>)
    requires
        forall|i: int|
            0 <= i < transactions.len() ==> (#[trigger] transactions@[i])@.within(
                accounts.len() as int,
            ),
    ensures
        final(out)@ == old(out)@ + transactions_text(
            transaction_views(transactions@),
            views(accounts@),
        ),
{
    let ghost all = transaction_views(transactions@);
    let ghost before = out@;
    assert(all.take(0) =~= Seq::<TransactionView>::empty());
    assert(before + Seq::<char>::empty() =~= before);
    let mut i: usize = 0;
    while i < transactions.len()
        invariant
            i <= transactions.len(),
            all == transaction_views(transactions@),
            forall|i: int|
                0 <= i < transactions.len() ==> (#[trigger] transactions@[i])@.within(
                    accounts.len() as int,
                ),
            out@ == before + transactions_text(all.take(i as int), views(accounts@)),
        decreases transactions.len() - i,
    {
        proof {
            assert(all.take(i + 1).drop_last() =~= all.take(i as int));
            assert(all.take(i + 1).last() == transactions@[i as int]@);
        }
        let ghost so_far = out@;
        let line = transactions[i].to_string(accounts);
        out.append(line.as_str());
        out.push('\n');
        assert(out@ =~= before + (transactions_text(all.take(i as int), views(accounts@))
            + transaction_text(transactions@[i as int]@, views(accounts@)) + seq!['\n']));
        i += 1;
    }
    assert(all.take(transactions.len() as int) =~= all);
}

/// Why reading a ledger text failed, and where.
#[derive(Debug)]
pub struct ParseError {
    /// The number of the line, the header being line 1.
    pub line: usize,
    pub kind: ErrorKind,
    /// The line as it stands in the text.
    pub text: String,
}

impl View for ParseError {
    type V = ParseErrorView;

    open spec fn view(&self) -> ParseErrorView {
        ParseErrorView { line: self.line as int, kind: self.kind, text: self.text@ }
    }
}

/// The reference date, the accounts in the order of their declaration, and the
/// invoices and payments in the order in which the text gives rise to them.
#[derive(Debug)]
pub struct Ledger {
    today: Date,
    accounts: Vec<Account>,
    invoices: Vec<Transaction>,
    payments: Vec<Transaction>,
}

/// The ledger that the four parts make up.
pub open spec fn ledger_view(
    today: Date,
    accounts: Seq<Account>,
    invoices: Seq<Transaction>,
    payments: Seq<Transaction>,
) -> LedgerView {
    LedgerView {
        today: today@,
        accounts: views(accounts),
        invoices: transaction_views(invoices),
        payments: transaction_views(payments),
    }
}

impl View for Ledger {
    type V = LedgerView;

    closed spec fn view(&self) -> LedgerView {
        ledger_view(self.today, self.accounts@, self.invoices@, self.payments@)
    }
}

fn kind_of_line_error(e: LineError) -> (r: ErrorKind)
    ensures
        r == line_error_kind(e),
{
    match e {
        LineError::Malformed => ErrorKind::Malformed,
        LineError::AmountTooLarge => ErrorKind::AmountTooLarge,
        LineError::InvalidDate => ErrorKind::InvalidDate,
    }
}

fn kind_of_recurrence_error(e: RecurrenceError) -> (r: ErrorKind)
    ensures
        r == recurrence_error_kind(e),
{
    match e {
        RecurrenceError::InvalidDay => ErrorKind::InvalidDay,
        RecurrenceError::Endless => ErrorKind::Endless,
    }
}

/// Takes an invoice line into the ledger: see [`with_invoice`].
fn take_invoice(
    today: Date,
    accounts: &Vec<Account>,
    invoices: &mut Vec<Transaction>,
    payments: &Vec<Transaction>,
    invoice: &InvoiceLine,
) -> (r: Result<(), ErrorKind>)
    requires
        invoice@.senders.len() >= 1,
        invoice@.recipients.len() >= 1,
    ensures
        match r {
            Ok(()) => with_invoice(
                ledger_view(today, accounts@, old(invoices)@, payments@),
                invoice@,
            ) == Ok::<LedgerView, ErrorKind>(
                ledger_view(today, accounts@, final(invoices)@, payments@),
            ),
            Err(kind) => with_invoice(
                ledger_view(today, accounts@, old(invoices)@, payments@),
                invoice@,
            ) == Err::<LedgerView, ErrorKind>(kind) && final(invoices)@ == old(invoices)@,
        },
{
    let senders = match resolve(&invoice.senders, accounts) {
        Some(found) => found,
        None => {
            return Err(ErrorKind::UnknownAcronym);
        },
    };
    let recipients = match resolve(&invoice.recipients, accounts) {
        Some(found) => found,
        None => {
            return Err(ErrorKind::UnknownAcronym);
        },
    };
    if invoice.start.is_after(&today) {
        return Ok(());
    }
    match expand(invoice.start, invoice.recurrence, today) {
        Ok(dates) => {
            push_on_dates(invoices, &senders, &recipients, invoice.amount, &dates, &invoice.note);
            Ok(())
        },
        Err(e) => Err(kind_of_recurrence_error(e)),
    }
}

/// Takes a payment line into the ledger: see [`with_payment`].
fn take_payment(
    today: Date,
    accounts: &Vec<Account>,
    invoices: &Vec<Transaction>,
    payments: &mut Vec<Transaction>,
    payment: &PaymentLine,
) -> (r: Result<(), ErrorKind>)
    ensures
        match r {
            Ok(()) => with_payment(
                ledger_view(today, accounts@, invoices@, old(payments)@),
                payment@,
            ) == Ok::<LedgerView, ErrorKind>(
                ledger_view(today, accounts@, invoices@, final(payments)@),
            ),
            Err(kind) => with_payment(
                ledger_view(today, accounts@, invoices@, old(payments)@),
                payment@,
            ) == Err::<LedgerView, ErrorKind>(kind) && final(payments)@ == old(payments)@,
        },
{
    let sender = match find(&payment.sender, accounts) {
        Some(found) => found,
        None => {
            return Err(ErrorKind::UnknownAcronym);
        },
    };
    let recipient = match find(&payment.recipient, accounts) {
        Some(found) => found,
        None => {
            return Err(ErrorKind::UnknownAcronym);
        },
    };
    if payment.date.is_after(&today) {
        return Ok(());
    }
    push_owing(payments, sender, recipient, payment.amount, payment.date, &payment.note);
    Ok(())
}

/// Takes one more line into the ledger: see [`with_line`].
fn take_line(
    today: Date,
    accounts: &mut Vec<Account>,
    invoices: &mut Vec<Transaction>,
    payments: &mut Vec<Transaction>,
    line: &Vec<char>,
) -> (r: Result<(), ErrorKind>)
    ensures
        match r {
            Ok(()) => with_line(
                ledger_view(today, old(accounts)@, old(invoices)@, old(payments)@),
                line@,
            ) == Ok::<LedgerView, ErrorKind>(
                ledger_view(today, final(accounts)@, final(invoices)@, final(payments)@),
            ),
            Err(kind) => with_line(
                ledger_view(today, old(accounts)@, old(invoices)@, old(payments)@),
                line@,
            ) == Err::<LedgerView, ErrorKind>(kind),
        },
{
    proof {
        reveal(with_line);
        lemma_line_of(line@);
    }
    match parse_line(line) {
        Ok(Line::Blank) => Ok(()),
        Ok(Line::Comment) => Ok(()),
        Ok(Line::Account(account)) => {
            proof {
                lemma_position(views(accounts@), account@.acronym);
            }
            if find(account.acronym(), accounts).is_some() {
                return Err(ErrorKind::DuplicateAcronym);
            }
            let ghost before = views(accounts@);
            let ghost declared_now = account@;
            accounts.push(account);
            assert(views(accounts@) =~= before.push(declared_now));
            Ok(())
        },
        Ok(Line::Invoice(invoice)) => take_invoice(today, accounts, invoices, payments, &invoice),
        Ok(Line::Payment(payment)) => take_payment(today, accounts, invoices, payments, &payment),
        Err(e) => Err(kind_of_line_error(e)),
    }
}

impl Ledger {
    /// Every ledger is valid: see [`LedgerView::is_valid`].
    #[verifier::type_invariant]
    pub open spec fn inv(self) -> bool {
        self@.is_valid()
    }

    /// Reads a ledger from its text: see [`ledger_of`].
    pub fn new(text: &str) -> (r: Result<Ledger, ParseError>)
        ensures
            match r {
                Ok(ledger) => ledger_of(text@) == Ok::<LedgerView, ParseErrorView>(ledger@)
                    && ledger@.is_valid(),
                Err(e) => ledger_of(text@) == Err::<LedgerView, ParseErrorView>(e@),
            },
    {
        let chars = chars_of(text);
        let lines = split_lines(&chars);
        let ghost all = line_texts(lines@);
        if lines.len() == 0 {
            return Err(
                ParseError { line: 1, kind: ErrorKind::MissingHeader, text: String::new() },
            );
        }
        assert(all[0] == lines@[0]@);
        let today = match parse_header(&lines[0]) {
            Ok(date) => date,
            Err(e) => {
                assert(lines@[0]@.subrange(0, lines@[0]@.len() as int) == lines@[0]@);
                return Err(
                    ParseError {
                        line: 1,
                        kind: kind_of_line_error(e),
                        text: string_of(&lines[0], 0, lines[0].len()),
                    },
                );
            },
        };
        let ghost rest = all.skip(1);
        let ghost start = LedgerView::empty(today@);
        let mut accounts: Vec<Account> = Vec::new();
        let mut invoices: Vec<Transaction> = Vec::new();
        let mut payments: Vec<Transaction> = Vec::new();
        proof {
            use_type_invariant(&today);
            assert(rest.take(0) =~= Seq::<Seq<char>>::empty());
            assert(ledger_view(today, accounts@, invoices@, payments@) =~= start) by {
                assert(views(accounts@) =~= Seq::<AccountView>::empty());
                assert(transaction_views(invoices@) =~= Seq::<TransactionView>::empty());
                assert(transaction_views(payments@) =~= Seq::<TransactionView>::empty());
            }
        }
        let mut i: usize = 1;
        while i < lines.len()
            invariant
                1 <= i <= lines.len(),
                all == line_texts(lines@),
                all == lines_of(text@),
                header_of(all[0]) == Ok::<DateView, LineError>(today@),
                rest == all.skip(1),
                start == LedgerView::empty(today@),
                with_lines(start, rest.take(i - 1), 2) == Ok::<LedgerView, ParseErrorView>(
                    ledger_view(today, accounts@, invoices@, payments@),
                ),
                ledger_view(today, accounts@, invoices@, payments@).is_valid(),
            decreases lines.len() - i,
        {
            let ghost before = ledger_view(today, accounts@, invoices@, payments@);
            proof {
                assert(rest.take(i as int).drop_last() =~= rest.take(i - 1));
                assert(rest.take(i as int).last() == lines@[i as int]@);
            }
            match take_line(today, &mut accounts, &mut invoices, &mut payments, &lines[i]) {
                Ok(()) => {
                    proof {
                        lemma_with_line(before, lines@[i as int]@);
                    }
                },
                Err(kind) => {
                    proof {
                        lemma_with_lines_error(start, rest, i as int, 2);
                        assert(lines@[i as int]@.subrange(0, lines@[i as int]@.len() as int)
                            == lines@[i as int]@);
                    }
                    return Err(
                        ParseError {
                            line: i + 1,
                            kind,
                            text: string_of(&lines[i], 0, lines[i].len()),
                        },
                    );
                },
            }
            i += 1;
        }
        assert(rest.take(lines.len() - 1) =~= rest);
        Ok(Ledger { today, accounts, invoices, payments })
    }

    /// The ledger as text, as [`ledger_text`] writes it.
    pub fn to_string(&self) -> (r: String)
        ensures
            r@ == ledger_text(self@),
    {
        proof {
            use_type_invariant(self);
        }
        let mut out = String::from_str("Today ");
        let today = self.today.to_string();
        out.append(today.as_str());
        out.append("\n\nAccounts:\n");
        let ghost head = out@;
        let ghost registry = views(self.accounts@);
        assert(registry.take(0) =~= Seq::<AccountView>::empty());
        assert(head + Seq::<char>::empty() =~= head);
        let mut i: usize = 0;
        while i < self.accounts.len()
            invariant
                i <= self.accounts.len(),
                registry == views(self.accounts@),
                out@ == head + accounts_text(registry.take(i as int)),
            decreases self.accounts.len() - i,
        {
            proof {
                assert(registry.take(i + 1).drop_last() =~= registry.take(i as int));
                assert(registry.take(i + 1).last() == self.accounts@[i as int]@);
            }
            let line = self.accounts[i].to_string();
            out.append(line.as_str());
            out.push('\n');
            assert(out@ =~= head + (accounts_text(registry.take(i as int)) + account_text(
                self.accounts@[i as int]@,
            ) + seq!['\n']));
            i += 1;
        }
        assert(registry.take(self.accounts.len() as int) =~= registry);
        out.append("\nInvoices:\n");
        assert forall|i: int| 0 <= i < self.invoices.len() implies (
        #[trigger] self.invoices@[i])@.within(self.accounts.len() as int) by {
            assert(self@.invoices[i] == self.invoices@[i]@);
        }
        push_transactions(&mut out, &self.invoices, &self.accounts);
        out.append("\nPayments:\n");
        assert forall|i: int| 0 <= i < self.payments.len() implies (
        #[trigger] self.payments@[i])@.within(self.accounts.len() as int) by {
            assert(self@.payments[i] == self.payments@[i]@);
        }
        push_transactions(&mut out, &self.payments, &self.accounts);
        assert(out@ =~= ledger_text(self@));
        out
    }

    /// The reference date: the day up to which the ledger counts.
    pub fn accounting_date(&self) -> (r: Date)
        ensures
            r@ == self@.today,
            self@.is_valid(),
    {
        proof {
            use_type_invariant(self);
        }
        self.today
    }

    /// The accounts, in the order of their declaration.
    pub fn accounts(&self) -> (r: &Vec<Account>)
        ensures
            views(r@) == self@.accounts,
            self@.is_valid(),
    {
        proof {
            use_type_invariant(self);
        }
        &self.accounts
    }

    /// The invoices, in the order in which the text gives rise to them.
    pub fn invoices(&self) -> (r: &Vec<Transaction>)
        ensures
            transaction_views(r@) == self@.invoices,
            self@.is_valid(),
    {
        proof {
            use_type_invariant(self);
        }
        &self.invoices
    }

    /// The payments, in the order of the text.
    pub fn payments(&self) -> (r: &Vec<Transaction>)
        ensures
            transaction_views(r@) == self@.payments,
            self@.is_valid(),
    {
        proof {
            use_type_invariant(self);
        }
        &self.payments
    }
}

} // verus!
