//! Transactions: an amount that one account owes or pays to another on a day.

use crate::account::{views, Account, AccountView};
use crate::date::{date_text, Date, DateView};
use crate::money::{amount_text, push_amount};
use std::cmp::Ordering;
use vstd::prelude::*;

verus! {

/// What a [`Transaction`] stands for.
pub struct TransactionView {
    /// Index of the account that owes or pays.
    pub sender: int,
    /// Index of the account that is owed or paid.
    pub recipient: int,
    /// The amount, in units.
    pub amount: int,
    pub date: DateView,
    pub note: Seq<char>,
}

impl TransactionView {
    /// Sender and recipient differ, the amount is one, and the date is a day of the
    /// calendar.
    pub open spec fn is_valid(self) -> bool {
        &&& 0 <= self.sender
        &&& 0 <= self.recipient
        &&& self.sender != self.recipient
        &&& 0 <= self.amount <= u64::MAX
        &&& self.date.is_valid()
    }

    /// Both accounts are among the first `count` of the registry.
    pub open spec fn within(self, count: int) -> bool {
        self.sender < count && self.recipient < count
    }
}

/// An invoice or a payment between two different accounts. Which of the two it is
/// follows from the list that holds it.
#[derive(Debug)]
pub struct Transaction {
    sender_index: usize,
    recipient_index: usize,
    amount: u64,
    date: Date,
    note: String,
}

impl View for Transaction {
    type V = TransactionView;

    closed spec fn view(&self) -> TransactionView {
        TransactionView {
            sender: self.sender_index as int,
            recipient: self.recipient_index as int,
            amount: self.amount as int,
            date: self.date@,
            note: self.note@,
        }
    }
}

impl Clone for Transaction {
    fn clone(&self) -> (r: Transaction)
        ensures
            r@ == self@,
    {
        proof {
            use_type_invariant(self);
        }
        Transaction {
            sender_index: self.sender_index,
            recipient_index: self.recipient_index,
            amount: self.amount,
            date: self.date,
            note: self.note.clone(),
        }
    }
}

impl PartialEq for Transaction {
    fn eq(&self, other: &Transaction) -> (r: bool) {
        (self.sender_index == other.sender_index) && (self.recipient_index
            == other.recipient_index) && (self.date == other.date) && (self.note == other.note)
    }
}

impl vstd::std_specs::cmp::PartialEqSpecImpl for Transaction {
    open spec fn obeys_eq_spec() -> bool {
        true
    }

    /// Two transactions are equal when they agree in sender, recipient, date and
    /// note: the amount does not count.
    open spec fn eq_spec(&self, other: &Transaction) -> bool {
        &&& self@.sender == other@.sender
        &&& self@.recipient == other@.recipient
        &&& self@.date == other@.date
        &&& self@.note == other@.note
    }
}

impl PartialOrd for Transaction {
    fn partial_cmp(&self, other: &Transaction) -> (r: Option<Ordering>) {
        self.date.partial_cmp(&other.date)
    }
}

impl vstd::std_specs::cmp::PartialOrdSpecImpl for Transaction {
    open spec fn obeys_partial_cmp_spec() -> bool {
        true
    }

    /// Transactions are ordered by their dates alone.
    open spec fn partial_cmp_spec(&self, other: &Transaction) -> Option<Ordering> {
        if self@.date.before(other@.date) {
            Some(Ordering::Less)
        } else if other@.date.before(self@.date) {
            Some(Ordering::Greater)
        } else {
            Some(Ordering::Equal)
        }
    }
}

/// What each transaction of a list stands for.
pub open spec fn transaction_views(transactions: Seq<Transaction>) -> Seq<TransactionView> {
    transactions.map_values(|t: Transaction| t@)
}

/// How a transaction is written: the two acronyms with an arrow between them, the
/// amount and the currency, then the date and the note, each after a tab.
pub open spec fn transaction_text(t: TransactionView, accounts: Seq<AccountView>) -> Seq<char> {
    accounts[t.sender].acronym + seq![' ', '-', '>', ' '] + accounts[t.recipient].acronym
        + seq![' '] + amount_text(t.amount) + seq![' ', 'C', 'H', 'F', '\t'] + date_text(t.date)
        + seq!['\t'] + t.note
}

impl Transaction {
    /// Every transaction is between two different accounts.
    #[verifier::type_invariant]
    pub open spec fn inv(self) -> bool {
        self@.is_valid()
    }

    /// The transaction of `amount_param` units from the account at
    /// `sender_index_param` to the one at `recipient_index_param`, which is another.
    pub fn new(
        sender_index_param: usize,
        recipient_index_param: usize,
        amount_param: u64,
        date_param: Date,
        note_param: String,
    ) -> (r: Transaction)
        requires
            sender_index_param != recipient_index_param,
        ensures
            r@ == (TransactionView {
                sender: sender_index_param as int,
                recipient: recipient_index_param as int,
                amount: amount_param as int,
                date: date_param@,
                note: note_param@,
            }),
            r@.is_valid(),
    {
        proof {
            use_type_invariant(date_param);
        }
        Transaction {
            sender_index: sender_index_param,
            recipient_index: recipient_index_param,
            amount: amount_param,
            date: date_param,
            note: note_param,
        }
    }

    /// The index of the account that owes or pays.
    pub fn sender_index(&self) -> (r: usize)
        ensures
            r == self@.sender,
            self@.is_valid(),
    {
        proof {
            use_type_invariant(self);
        }
        self.sender_index
    }

    /// The index of the account that is owed or paid.
    pub fn recipient_index(&self) -> (r: usize)
        ensures
            r == self@.recipient,
            self@.is_valid(),
    {
        proof {
            use_type_invariant(self);
        }
        self.recipient_index
    }

    /// The amount, in units.
    pub fn amount(&self) -> (r: u64)
        ensures
            r == self@.amount,
    {
        self.amount
    }

    /// The day on which the amount is owed or paid.
    pub fn date(&self) -> (r: Date)
        ensures
            r@ == self@.date,
    {
        self.date
    }

    /// The note that the line gave.
    pub fn note(&self) -> (r: String)
        ensures
            r@ == self@.note,
    {
        self.note.clone()
    }

    /// The transaction as text, as [`transaction_text`] writes it, with the acronyms
    /// taken from `accounts`, which holds both accounts.
    pub fn to_string(&self, accounts: &Vec<Account>) -> (r: String)
        requires
            self@.within(accounts.len() as int),
        ensures
            r@ == transaction_text(self@, views(accounts@)),
    {
        let mut out = accounts[self.sender_index].acronym().clone();
        out.append(" -> ");
        out.append(accounts[self.recipient_index].acronym().as_str());
        out.push(' ');
        push_amount(&mut out, self.amount as u128);
        out.append(" CHF\t");
        let date = self.date.to_string();
        out.append(date.as_str());
        out.push('\t');
        out.append(self.note.as_str());
        proof {
            reveal_strlit(" -> ");
            reveal_strlit(" CHF\t");
            assert(" -> "@ =~= seq![' ', '-', '>', ' ']);
            assert(" CHF\t"@ =~= seq![' ', 'C', 'H', 'F', '\t']);
            assert(out@ =~= transaction_text(self@, views(accounts@)));
        }
        out
    }
}

} // verus!
