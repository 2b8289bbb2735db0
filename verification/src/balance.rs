//! The netting engine: folds invoices and payments into one signed balance for each
//! pair of accounts that had a transaction between them.

use crate::account::{views, Account, AccountView};
use crate::money::{balance_text, push_balance};
use crate::transaction::{transaction_views, Transaction, TransactionView};
use vstd::prelude::*;

verus! {

/// What a [`BalanceEntry`] stands for: a pair of accounts in the direction in which
/// it was first seen, and the balance between them.
pub struct EntryView {
    pub sender: int,
    pub recipient: int,
    pub balance: int,
}

impl EntryView {
    /// The entry is about the accounts `a` and `b`, in either direction.
    pub open spec fn joins(self, a: int, b: int) -> bool {
        (self.sender == a && self.recipient == b) || (self.sender == b && self.recipient == a)
    }

    /// What the entry says of the balance from `a` to `b`: its own balance where it
    /// runs from `a` to `b`, the opposite where it runs from `b` to `a`, nothing
    /// where it is about another pair.
    pub open spec fn net(self, a: int, b: int) -> int {
        if self.sender == a && self.recipient == b {
            self.balance
        } else if self.sender == b && self.recipient == a {
            -self.balance
        } else {
            0
        }
    }

    /// The entry joins two different accounts, and its balance fits the machine's
    /// widest signed integer.
    pub open spec fn is_valid(self) -> bool {
        &&& 0 <= self.sender
        &&& 0 <= self.recipient
        &&& self.sender != self.recipient
        &&& i128::MIN <= self.balance <= i128::MAX
    }
}

/// A signed amount to net between two accounts.
pub struct Posting {
    pub sender: int,
    pub recipient: int,
    pub amount: int,
}

impl Posting {
    /// What the posting adds to the balance from `a` to `b`.
    pub open spec fn net(self, a: int, b: int) -> int {
        if self.sender == a && self.recipient == b {
            self.amount
        } else if self.sender == b && self.recipient == a {
            -self.amount
        } else {
            0
        }
    }

    /// The posting is between the accounts `a` and `b`, in either direction.
    pub open spec fn joins(self, a: int, b: int) -> bool {
        (self.sender == a && self.recipient == b) || (self.sender == b && self.recipient == a)
    }
}

/// An invoice counts with a minus sign.
pub open spec fn invoice_posting(t: TransactionView) -> Posting {
    Posting { sender: t.sender, recipient: t.recipient, amount: -t.amount }
}

/// A payment counts with a plus sign.
pub open spec fn payment_posting(t: TransactionView) -> Posting {
    Posting { sender: t.sender, recipient: t.recipient, amount: t.amount }
}

/// `i` is the index of the first entry that runs from `sender` to `recipient`.
pub open spec fn is_first_entry(entries: Seq<EntryView>, sender: int, recipient: int, i: int) -> bool {
    &&& 0 <= i < entries.len()
    &&& entries[i].sender == sender
    &&& entries[i].recipient == recipient
    &&& forall|j: int|
        0 <= j < i ==> !((#[trigger] entries[j]).sender == sender && entries[j].recipient
            == recipient)
}

/// The index of the first entry that runs from `sender` to `recipient`, if there is
/// one.
pub open spec fn entry_index(entries: Seq<EntryView>, sender: int, recipient: int) -> Option<int> {
    if exists|i: int| is_first_entry(entries, sender, recipient, i) {
        Some(choose|i: int| is_first_entry(entries, sender, recipient, i))
    } else {
        None
    }
}

/// The entries after one posting. An entry in the posting's direction takes the
/// amount; failing that, an entry in the opposite direction gives it; failing both,
/// a new entry in the posting's direction is added at the end.
pub open spec fn netted(entries: Seq<EntryView>, p: Posting) -> Seq<EntryView> {
    match entry_index(entries, p.sender, p.recipient) {
        Some(i) => entries.update(
            i,
            EntryView {
                sender: entries[i].sender,
                recipient: entries[i].recipient,
                balance: entries[i].balance + p.amount,
            },
        ),
        None => match entry_index(entries, p.recipient, p.sender) {
            Some(i) => entries.update(
                i,
                EntryView {
                    sender: entries[i].sender,
                    recipient: entries[i].recipient,
                    balance: entries[i].balance - p.amount,
                },
            ),
            None => entries.push(
                EntryView { sender: p.sender, recipient: p.recipient, balance: p.amount },
            ),
        },
    }
}

/// The entries after a list of postings, taken in order.
pub open spec fn netted_all(entries: Seq<EntryView>, postings: Seq<Posting>) -> Seq<EntryView>
    decreases postings.len(),
{
    if postings.len() == 0 {
        entries
    } else {
        netted(netted_all(entries, postings.drop_last()), postings.last())
    }
}

/// The postings of a ledger: its invoices in order, then its payments in order.
pub open spec fn postings_of(invoices: Seq<TransactionView>, payments: Seq<TransactionView>) -> Seq<
    Posting,
> {
    invoices.map_values(|t: TransactionView| invoice_posting(t)) + payments.map_values(
        |t: TransactionView| payment_posting(t),
    )
}

/// Every entry joins two different accounts, and no two entries join the same two.
pub open spec fn pairs_distinct(entries: Seq<EntryView>) -> bool {
    &&& forall|i: int|
        0 <= i < entries.len() ==> (#[trigger] entries[i]).sender != entries[i].recipient
    &&& forall|i: int, j: int|
        0 <= i < j < entries.len() ==> !(#[trigger] entries[i]).joins(
            (#[trigger] entries[j]).sender,
            entries[j].recipient,
        )
}

/// Every balance fits the machine's widest signed integer.
pub open spec fn representable(entries: Seq<EntryView>) -> bool {
    forall|i: int|
        0 <= i < entries.len() ==> i128::MIN <= (#[trigger] entries[i]).balance <= i128::MAX
}

/// What holds of the entries of every [`Balance`].
pub open spec fn well_formed(entries: Seq<EntryView>) -> bool {
    &&& pairs_distinct(entries)
    &&& forall|i: int| 0 <= i < entries.len() ==> (#[trigger] entries[i]).is_valid()
}

/// The balance from `a` to `b` that the entries hold: an invoice from `a` to `b`
/// lowers it and a payment from `a` to `b` raises it, and so do a payment and an
/// invoice from `b` to `a`.
pub open spec fn net(entries: Seq<EntryView>, a: int, b: int) -> int
    decreases entries.len(),
{
    if entries.len() == 0 {
        0
    } else {
        net(entries.drop_last(), a, b) + entries.last().net(a, b)
    }
}

/// What a list of postings adds to the balance from `a` to `b`.
pub open spec fn total(postings: Seq<Posting>, a: int, b: int) -> int
    decreases postings.len(),
{
    if postings.len() == 0 {
        0
    } else {
        total(postings.drop_last(), a, b) + postings.last().net(a, b)
    }
}

/// Some entry joins `a` and `b`.
pub open spec fn has_entry(entries: Seq<EntryView>, a: int, b: int) -> bool {
    exists|i: int| 0 <= i < entries.len() && (#[trigger] entries[i]).joins(a, b)
}

/// Some posting is between `a` and `b`.
pub open spec fn has_posting(postings: Seq<Posting>, a: int, b: int) -> bool {
    exists|i: int| 0 <= i < postings.len() && (#[trigger] postings[i]).joins(a, b)
}

/// The running balance between two accounts.
#[derive(Clone, Copy, Debug)]
pub struct BalanceEntry {
    sender_index: usize,
    recipient_index: usize,
    balance: i128,
}

impl View for BalanceEntry {
    type V = EntryView;

    closed spec fn view(&self) -> EntryView {
        EntryView {
            sender: self.sender_index as int,
            recipient: self.recipient_index as int,
            balance: self.balance as int,
        }
    }
}

impl BalanceEntry {
    /// Every entry joins two different accounts.
    #[verifier::type_invariant]
    pub open spec fn inv(self) -> bool {
        self@.is_valid()
    }

    /// The entry for the accounts at `sender_index_param` and
    /// `recipient_index_param`, which differ, with the balance `balance_param`.
    pub fn new(sender_index_param: usize, recipient_index_param: usize, balance_param: i128) -> (r:
        BalanceEntry)
        requires
            sender_index_param != recipient_index_param,
        ensures
            r@ == (EntryView {
                sender: sender_index_param as int,
                recipient: recipient_index_param as int,
                balance: balance_param as int,
            }),
    {
        BalanceEntry {
            sender_index: sender_index_param,
            recipient_index: recipient_index_param,
            balance: balance_param,
        }
    }

    /// The index of the account that the entry runs from.
    pub fn sender_index(&self) -> (r: usize)
        ensures
            r == self@.sender,
            self@.is_valid(),
    {
        proof {
            use_type_invariant(self);
        }
        self.sender_index
    }

    /// The index of the account that the entry runs to.
    pub fn recipient_index(&self) -> (r: usize)
        ensures
            r == self@.recipient,
            self@.is_valid(),
    {
        proof {
            use_type_invariant(self);
        }
        self.recipient_index
    }

    /// The balance, in units.
    pub fn balance(&self) -> (r: i128)
        ensures
            r == self@.balance,
    {
        self.balance
    }
}

/// What each entry of a list stands for.
pub open spec fn entry_views(entries: Seq<BalanceEntry>) -> Seq<EntryView> {
    entries.map_values(|e: BalanceEntry| e@)
}

/// A balance left the range of `i128`.
#[derive(Clone, Copy, Debug, PartialEq, Eq, Structural)]
pub struct Overflow;

/// The balances between the accounts of a ledger: one entry for each pair of
/// accounts that had a transaction between them, in the order in which the pairs
/// were first seen.
#[derive(Debug)]
pub struct Balance {
    entries: Vec<BalanceEntry>,
}

impl View for Balance {
    type V = Seq<EntryView>;

    closed spec fn view(&self) -> Seq<EntryView> {
        entry_views(self.entries@)
    }
}

/// How the balances are written: a heading, then a line for each entry with the two
/// acronyms, an arrow between them, the balance and the currency.
pub open spec fn balances_text(entries: Seq<EntryView>, accounts: Seq<AccountView>) -> Seq<char>
    decreases entries.len(),
{
    if entries.len() == 0 {
        seq!['B', 'a', 'l', 'a', 'n', 'c', 'e', ':', '\n']
    } else {
        balances_text(entries.drop_last(), accounts) + entry_text(entries.last(), accounts)
    }
}

/// The line of one entry.
pub open spec fn entry_text(e: EntryView, accounts: Seq<AccountView>) -> Seq<char> {
    accounts[e.sender].acronym + seq![' ', '-', '>', ' '] + accounts[e.recipient].acronym
        + seq![' '] + balance_text(e.balance) + seq![' ', 'C', 'H', 'F', '\n']
}

impl Balance {
    /// No two entries of a balance join the same two accounts.
    #[verifier::type_invariant]
    pub open spec fn inv(self) -> bool {
        well_formed(self@)
    }

    /// No balances yet.
    pub fn new() -> (r: Balance)
        ensures
            r@ == Seq::<EntryView>::empty(),
    {
        let r = Balance { entries: Vec::new() };
        assert(r@ =~= Seq::<EntryView>::empty());
        r
    }

    /// The balance that holds these entries, if no two of them join the same two
    /// accounts.
    pub fn from_entries(entries: Vec<BalanceEntry>) -> (r: Option<Balance>)
        ensures
            match r {
                Some(balance) => balance@ == entry_views(entries@) && well_formed(balance@),
                None => !pairs_distinct(entry_views(entries@)),
            },
    {
        let ghost all = entry_views(entries@);
        let mut j: usize = 0;
        while j < entries.len()
            invariant
                j <= entries.len(),
                all == entry_views(entries@),
                forall|k: int| 0 <= k < j ==> (#[trigger] all[k]).is_valid(),
                forall|i: int, k: int|
                    0 <= i < k < j ==> !(#[trigger] all[i]).joins(
                        (#[trigger] all[k]).sender,
                        all[k].recipient,
                    ),
            decreases entries.len() - j,
        {
            let sender = entries[j].sender_index();
            let recipient = entries[j].recipient_index();
            assert(all[j as int] == entries@[j as int]@);
            let mut i: usize = 0;
            while i < j
                invariant
                    i <= j < entries.len(),
                    all == entry_views(entries@),
                    all[j as int].sender == sender,
                    all[j as int].recipient == recipient,
                    forall|m: int|
                        0 <= m < i ==> !(#[trigger] all[m]).joins(sender as int, recipient as int),
                decreases j - i,
            {
                assert(all[i as int] == entries@[i as int]@);
                let a = entries[i].sender_index();
                let b = entries[i].recipient_index();
                if (a == sender && b == recipient) || (a == recipient && b == sender) {
                    assert(all[i as int].joins(all[j as int].sender, all[j as int].recipient));
                    return None;
                }
                i += 1;
            }
            j += 1;
        }
        Some(Balance { entries })
    }

    /// Nets an invoice: its amount is taken from the balance from its sender to its
    /// recipient. Fails, and changes nothing, where that balance would leave the
    /// range of `i128`. An invoice of nothing changes no balance. No entry is removed or
    /// turned round.
    pub fn add_invoice(&mut self, invoice: &Transaction) -> (r: Result<(), Overflow>)
        ensures
            well_formed(old(self)@),
            well_formed(final(self)@),
            r is Ok <==> representable(netted(old(self)@, invoice_posting(invoice@))),
            r is Ok ==> final(self)@ == netted(old(self)@, invoice_posting(invoice@)),
            r is Err ==> final(self)@ == old(self)@,
            invoice@.amount == 0 ==> r is Ok && forall|i: int|
                0 <= i < old(self)@.len() ==> #[trigger] final(self)@[i] == old(self)@[i],
            invoice@.amount == 0 && has_entry(old(self)@, invoice@.sender, invoice@.recipient)
                ==> final(self)@ == old(self)@,
            old(self)@.len() <= final(self)@.len() <= old(self)@.len() + 1,
            forall|i: int|
                0 <= i < old(self)@.len() ==> (#[trigger] final(self)@[i]).sender
                    == old(self)@[i].sender
                    && final(self)@[i].recipient == old(self)@[i].recipient,
    {
        proof {
            use_type_invariant(&*self);
            if invoice@.amount == 0 {
                lemma_zero_posting(self@, invoice_posting(invoice@));
            }
        }
        self.add_transaction(
            invoice.sender_index(),
            invoice.recipient_index(),
            -(invoice.amount() as i128),
        )
    }

    /// Nets a payment: its amount is added to the balance from its sender to its
    /// recipient. Fails, and changes nothing, where that balance would leave the
    /// range of `i128`. A payment of nothing changes no balance. No entry is removed or
    /// turned round.
    pub fn add_payment(&mut self, payment: &Transaction) -> (r: Result<(), Overflow>)
        ensures
            well_formed(old(self)@),
            well_formed(final(self)@),
            r is Ok <==> representable(netted(old(self)@, payment_posting(payment@))),
            r is Ok ==> final(self)@ == netted(old(self)@, payment_posting(payment@)),
            r is Err ==> final(self)@ == old(self)@,
            payment@.amount == 0 ==> r is Ok && forall|i: int|
                0 <= i < old(self)@.len() ==> #[trigger] final(self)@[i] == old(self)@[i],
            payment@.amount == 0 && has_entry(old(self)@, payment@.sender, payment@.recipient)
                ==> final(self)@ == old(self)@,
            old(self)@.len() <= final(self)@.len() <= old(self)@.len() + 1,
            forall|i: int|
                0 <= i < old(self)@.len() ==> (#[trigger] final(self)@[i]).sender
                    == old(self)@[i].sender
                    && final(self)@[i].recipient == old(self)@[i].recipient,
    {
        proof {
            use_type_invariant(&*self);
            if payment@.amount == 0 {
                lemma_zero_posting(self@, payment_posting(payment@));
            }
        }
        self.add_transaction(
            payment.sender_index(),
            payment.recipient_index(),
            payment.amount() as i128,
        )
    }

    /// The balances of a ledger: its invoices netted in order, then its payments in
    /// order. Fails where a balance leaves the range of `i128` on the way.
    pub fn fold(invoices: &Vec<Transaction>, payments: &Vec<Transaction>) -> (r: Result<
        Balance,
        Overflow,
    >)
        ensures
            r matches Ok(balance) ==> balance@ == netted_all(
                Seq::empty(),
                postings_of(transaction_views(invoices@), transaction_views(payments@)),
            ) && well_formed(balance@),
            r is Ok <==> forall|k: int|
                0 <= k <= invoices.len() + payments.len() ==> representable(
                    #[trigger] netted_all(
                        Seq::empty(),
                        postings_of(
                            transaction_views(invoices@),
                            transaction_views(payments@),
                        ).take(k),
                    ),
                ),
    {
        let ghost postings = postings_of(
            transaction_views(invoices@),
            transaction_views(payments@),
        );
        let ghost none = Seq::<EntryView>::empty();
        let mut balance = Balance::new();
        assert(postings.take(0) =~= Seq::<Posting>::empty());
        let mut i: usize = 0;
        while i < invoices.len()
            invariant
                i <= invoices.len(),
                none == Seq::<EntryView>::empty(),
                postings == postings_of(
                    transaction_views(invoices@),
                    transaction_views(payments@),
                ),
                balance@ == netted_all(none, postings.take(i as int)),
                forall|k: int|
                    0 <= k <= i ==> representable(#[trigger] netted_all(none, postings.take(k))),
            decreases invoices.len() - i,
        {
            proof {
                assert(postings[i as int] == invoice_posting(invoices@[i as int]@));
                assert(postings.take(i + 1).drop_last() =~= postings.take(i as int));
            }
            if balance.add_invoice(&invoices[i]).is_err() {
                assert(!representable(netted_all(none, postings.take(i + 1))));
                return Err(Overflow);
            }
            i += 1;
        }
        let mut j: usize = 0;
        while j < payments.len()
            invariant
                j <= payments.len(),
                none == Seq::<EntryView>::empty(),
                postings == postings_of(
                    transaction_views(invoices@),
                    transaction_views(payments@),
                ),
                balance@ == netted_all(none, postings.take(invoices.len() + j)),
                forall|k: int|
                    0 <= k <= invoices.len() + j ==> representable(
                        #[trigger] netted_all(none, postings.take(k)),
                    ),
            decreases payments.len() - j,
        {
            proof {
                let n = invoices.len() + j;
                assert(postings[n] == payment_posting(payments@[j as int]@));
                assert(postings.take(n + 1).drop_last() =~= postings.take(n));
            }
            if balance.add_payment(&payments[j]).is_err() {
                assert(!representable(netted_all(none, postings.take(invoices.len() + j + 1))));
                return Err(Overflow);
            }
            j += 1;
        }
        proof {
            assert(postings.take(invoices.len() + payments.len()) =~= postings);
            use_type_invariant(&balance);
        }
        Ok(balance)
    }

    /// The balances as text, as [`balances_text`] writes them, with the acronyms
    /// taken from `accounts`, which holds the accounts of every entry.
    pub fn to_string(&self, accounts: &Vec<Account>) -> (r: String)
        requires
            forall|i: int|
                0 <= i < self@.len() ==> (#[trigger] self@[i]).sender < accounts.len()
                    && self@[i].recipient < accounts.len(),
        ensures
            r@ == balances_text(self@, views(accounts@)),
    {
        let mut string = String::from_str("Balance:\n");
        proof {
            reveal_strlit("Balance:\n");
            assert(string@ =~= balances_text(self@.take(0), views(accounts@)));
        }
        let mut i: usize = 0;
        while i < self.entries.len()
            invariant
                i <= self.entries.len(),
                self@.len() == self.entries.len(),
                forall|i: int|
                    0 <= i < self@.len() ==> (#[trigger] self@[i]).sender < accounts.len()
                        && self@[i].recipient < accounts.len(),
                string@ == balances_text(self@.take(i as int), views(accounts@)),
            decreases self.entries.len() - i,
        {
            let entry = &self.entries[i];
            proof {
                assert(self@[i as int] == entry@);
                assert(self@.take(i + 1).drop_last() =~= self@.take(i as int));
                reveal_strlit(" -> ");
                reveal_strlit(" CHF\n");
                assert(" -> "@ =~= seq![' ', '-', '>', ' ']);
                assert(" CHF\n"@ =~= seq![' ', 'C', 'H', 'F', '\n']);
            }
            let ghost so_far = string@;
            string.append(accounts[entry.sender_index].acronym().as_str());
            string.append(" -> ");
            string.append(accounts[entry.recipient_index].acronym().as_str());
            string.push(' ');
            push_balance(&mut string, entry.balance);
            string.append(" CHF\n");
            assert(string@ =~= so_far + entry_text(entry@, views(accounts@)));
            i += 1;
        }
        assert(self@.take(self.entries.len() as int) =~= self@);
        string
    }

    /// The entries, in the order in which their pairs were first seen.
    pub fn entries(&self) -> (r: &Vec<BalanceEntry>)
        ensures
            entry_views(r@) == self@,
            well_formed(self@),
    {
        proof {
            use_type_invariant(self);
        }
        &self.entries
    }

    /// The index of the first entry that runs from `sender` to `recipient`.
    fn find(&self, sender: usize, recipient: usize) -> (r: Option<usize>)
        ensures
            match r {
                Some(i) => entry_index(self@, sender as int, recipient as int) == Some(i as int)
                    && i < self.entries.len(),
                None => entry_index(self@, sender as int, recipient as int) is None,
            },
    {
        let ghost model = self@;
        let mut i: usize = 0;
        while i < self.entries.len()
            invariant
                i <= self.entries.len(),
                model == self@,
                model.len() == self.entries.len(),
                forall|j: int|
                    0 <= j < i ==> !((#[trigger] model[j]).sender == sender && model[j].recipient
                        == recipient),
            decreases self.entries.len() - i,
        {
            if self.entries[i].sender_index == sender && self.entries[i].recipient_index
                == recipient {
                proof {
                    assert(model[i as int] == self.entries@[i as int]@);
                    assert(is_first_entry(model, sender as int, recipient as int, i as int));
                    lemma_entry_index(model, sender as int, recipient as int);
                }
                return Some(i);
            }
            proof {
                assert(model[i as int] == self.entries@[i as int]@);
            }
            i += 1;
        }
        proof {
            lemma_entry_index(model, sender as int, recipient as int);
        }
        None
    }

    /// Puts `balance` in the place of the balance of the entry at `i`.
    fn set_balance(&mut self, i: usize, balance: i128)
        requires
            i < old(self)@.len(),
        ensures
            final(self)@ == old(self)@.update(
                i as int,
                EntryView {
                    sender: old(self)@[i as int].sender,
                    recipient: old(self)@[i as int].recipient,
                    balance: balance as int,
                },
            ),
    {
        proof {
            use_type_invariant(&*self);
        }
        let ghost before = self@;
        let entry = self.entries[i];
        assert(entry@ == before[i as int]);
        let changed = BalanceEntry {
            sender_index: entry.sender_index,
            recipient_index: entry.recipient_index,
            balance,
        };
        let mut entries: Vec<BalanceEntry> = Vec::new();
        std::mem::swap(&mut self.entries, &mut entries);
        entries.set(i, changed);
        proof {
            let after = entry_views(entries@);
            assert(after =~= before.update(i as int, changed@));
            assert forall|j: int, k: int| 0 <= j < k < after.len() implies !(
            #[trigger] after[j]).joins((#[trigger] after[k]).sender, after[k].recipient) by {
                assert(!before[j].joins(before[k].sender, before[k].recipient));
            }
            assert forall|j: int| 0 <= j < after.len() implies (#[trigger] after[j]).is_valid() by {
                if j != i {
                    assert(before[j].is_valid());
                }
            }
        }
        self.entries = entries;
    }

    /// Nets a signed amount between two different accounts: see [`netted`]. Fails,
    /// and changes nothing, where a balance would leave the range of `i128`. No
    /// entry is removed or turned round; an entry is added only where none joins the
    /// two accounts yet; and an amount of nothing changes no balance.
    pub fn add_transaction(&mut self, sender_index: usize, recipient_index: usize, amount: i128) -> (r:
        Result<(), Overflow>)
        requires
            sender_index != recipient_index,
        ensures
            well_formed(old(self)@),
            well_formed(final(self)@),
            old(self)@.len() <= final(self)@.len() <= old(self)@.len() + 1,
            forall|i: int|
                0 <= i < old(self)@.len() ==> (#[trigger] final(self)@[i]).sender
                    == old(self)@[i].sender
                    && final(self)@[i].recipient == old(self)@[i].recipient,
            has_entry(old(self)@, sender_index as int, recipient_index as int)
                ==> final(self)@.len() == old(self)@.len(),
            amount == 0 ==> r is Ok && forall|i: int|
                0 <= i < old(self)@.len() ==> #[trigger] final(self)@[i] == old(self)@[i],
            amount == 0 && has_entry(old(self)@, sender_index as int, recipient_index as int)
                ==> final(self)@ == old(self)@,
            r is Ok <==> representable(
                netted(
                    old(self)@,
                    Posting {
                        sender: sender_index as int,
                        recipient: recipient_index as int,
                        amount: amount as int,
                    },
                ),
            ),
            r is Ok ==> final(self)@ == netted(
                old(self)@,
                Posting {
                    sender: sender_index as int,
                    recipient: recipient_index as int,
                    amount: amount as int,
                },
            ),
            r is Err ==> final(self)@ == old(self)@,
    {
        proof {
            use_type_invariant(&*self);
        }
        let ghost before = self@;
        let ghost p = Posting {
            sender: sender_index as int,
            recipient: recipient_index as int,
            amount: amount as int,
        };
        let ghost after = netted(before, p);
        proof {
            lemma_netted_pairs_distinct(before, p);
            lemma_netted_keeps_entries(before, p);
            if amount == 0 {
                lemma_zero_posting(before, p);
            }
        }
        if let Some(i) = self.find(sender_index, recipient_index) {
            match self.entries[i].balance.checked_add(amount) {
                Some(sum) => {
                    self.set_balance(i, sum);
                    assert(representable(after)) by {
                        assert forall|j: int| 0 <= j < after.len() implies i128::MIN <= (
                        #[trigger] after[j]).balance <= i128::MAX by {
                            if j != i {
                                assert(before[j].is_valid());
                            }
                        }
                    }
                    Ok(())
                },
                None => {
                    assert(!representable(after)) by {
                        assert(before[i as int] == self.entries@[i as int]@);
                        assert(after[i as int].balance == before[i as int].balance + amount);
                    }
                    Err(Overflow)
                },
            }
        } else if let Some(i) = self.find(recipient_index, sender_index) {
            match self.entries[i].balance.checked_sub(amount) {
                Some(difference) => {
                    self.set_balance(i, difference);
                    assert(representable(after)) by {
                        assert forall|j: int| 0 <= j < after.len() implies i128::MIN <= (
                        #[trigger] after[j]).balance <= i128::MAX by {
                            if j != i {
                                assert(before[j].is_valid());
                            }
                        }
                    }
                    Ok(())
                },
                None => {
                    assert(!representable(after)) by {
                        assert(before[i as int] == self.entries@[i as int]@);
                        assert(after[i as int].balance == before[i as int].balance - amount);
                    }
                    Err(Overflow)
                },
            }
        } else {
            let mut entries: Vec<BalanceEntry> = Vec::new();
            std::mem::swap(&mut self.entries, &mut entries);
            entries.push(BalanceEntry::new(sender_index, recipient_index, amount));
            proof {
                let now = entry_views(entries@);
                assert(now =~= after);
                assert forall|j: int| 0 <= j < after.len() implies (#[trigger] after[j]).is_valid() by {
                    if j < before.len() {
                        assert(before[j].is_valid());
                    }
                }
            }
            self.entries = entries;
            Ok(())
        }
    }
}

/// The first entry in a direction is what [`entry_index`] gives, and it gives none
/// only where no entry runs in that direction.
pub proof fn lemma_entry_index(entries: Seq<EntryView>, sender: int, recipient: int)
    ensures
        forall|i: int|
            is_first_entry(entries, sender, recipient, i) ==> entry_index(
                entries,
                sender,
                recipient,
            ) == Some(i),
        entry_index(entries, sender, recipient) is None <==> forall|i: int|
            0 <= i < entries.len() ==> !((#[trigger] entries[i]).sender == sender
                && entries[i].recipient == recipient),
        entry_index(entries, sender, recipient) matches Some(i) ==> is_first_entry(
            entries,
            sender,
            recipient,
            i,
        ),
{
    assert forall|i: int| is_first_entry(entries, sender, recipient, i) implies entry_index(
        entries,
        sender,
        recipient,
    ) == Some(i) by {
        let c = choose|c: int| is_first_entry(entries, sender, recipient, c);
        if c < i {
            assert(entries[c].sender == sender);
        } else if i < c {
            assert(entries[i].sender == sender);
        }
    }
    if exists|k: int|
        0 <= k < entries.len() && (#[trigger] entries[k]).sender == sender && entries[k].recipient
            == recipient {
        let k = choose|k: int|
            0 <= k < entries.len() && (#[trigger] entries[k]).sender == sender
                && entries[k].recipient == recipient;
        lemma_first_entry_exists(entries, sender, recipient, k);
    }
}

proof fn lemma_first_entry_exists(entries: Seq<EntryView>, sender: int, recipient: int, k: int)
    requires
        0 <= k < entries.len(),
        entries[k].sender == sender,
        entries[k].recipient == recipient,
    ensures
        exists|i: int| is_first_entry(entries, sender, recipient, i),
    decreases k,
{
    if exists|j: int|
        0 <= j < k && (#[trigger] entries[j]).sender == sender && entries[j].recipient
            == recipient {
        let j = choose|j: int|
            0 <= j < k && (#[trigger] entries[j]).sender == sender && entries[j].recipient
                == recipient;
        lemma_first_entry_exists(entries, sender, recipient, j);
    } else {
        assert(is_first_entry(entries, sender, recipient, k));
    }
}

proof fn lemma_net_push(entries: Seq<EntryView>, e: EntryView, a: int, b: int)
    ensures
        net(entries.push(e), a, b) == net(entries, a, b) + e.net(a, b),
{
    assert(entries.push(e).drop_last() == entries);
}

proof fn lemma_net_update(entries: Seq<EntryView>, i: int, e: EntryView, a: int, b: int)
    requires
        0 <= i < entries.len(),
    ensures
        net(entries.update(i, e), a, b) == net(entries, a, b) - entries[i].net(a, b) + e.net(a, b),
    decreases entries.len(),
{
    let updated = entries.update(i, e);
    if i == entries.len() - 1 {
        assert(updated.drop_last() == entries.drop_last());
    } else {
        assert(updated.drop_last() == entries.drop_last().update(i, e));
        lemma_net_update(entries.drop_last(), i, e, a, b);
    }
}

/// One posting changes the balance from `a` to `b` by what the posting adds to it.
pub proof fn lemma_netted_net(entries: Seq<EntryView>, p: Posting, a: int, b: int)
    ensures
        net(netted(entries, p), a, b) == net(entries, a, b) + p.net(a, b),
{
    lemma_entry_index(entries, p.sender, p.recipient);
    lemma_entry_index(entries, p.recipient, p.sender);
    match entry_index(entries, p.sender, p.recipient) {
        Some(i) => {
            lemma_net_update(entries, i, netted(entries, p)[i], a, b);
        },
        None => match entry_index(entries, p.recipient, p.sender) {
            Some(i) => {
                lemma_net_update(entries, i, netted(entries, p)[i], a, b);
            },
            None => {
                lemma_net_push(
                    entries,
                    EntryView { sender: p.sender, recipient: p.recipient, balance: p.amount },
                    a,
                    b,
                );
            },
        },
    }
}

/// A list of postings changes the balance from `a` to `b` by the sum of what each
/// adds to it.
pub proof fn lemma_netted_all_net(entries: Seq<EntryView>, postings: Seq<Posting>, a: int, b: int)
    ensures
        net(netted_all(entries, postings), a, b) == net(entries, a, b) + total(postings, a, b),
    decreases postings.len(),
{
    if postings.len() > 0 {
        lemma_netted_all_net(entries, postings.drop_last(), a, b);
        lemma_netted_net(netted_all(entries, postings.drop_last()), postings.last(), a, b);
    }
}

proof fn lemma_total_remove(postings: Seq<Posting>, k: int, a: int, b: int)
    requires
        0 <= k < postings.len(),
    ensures
        total(postings, a, b) == total(postings.remove(k), a, b) + postings[k].net(a, b),
    decreases postings.len(),
{
    if k == postings.len() - 1 {
        assert(postings.remove(k) == postings.drop_last());
    } else {
        assert(postings.remove(k).drop_last() == postings.drop_last().remove(k));
        assert(postings.remove(k).last() == postings.last());
        lemma_total_remove(postings.drop_last(), k, a, b);
    }
}

/// The sum of what postings add to a balance does not depend on their order.
pub proof fn lemma_total_permutation(first: Seq<Posting>, second: Seq<Posting>, a: int, b: int)
    requires
        first.to_multiset() == second.to_multiset(),
    ensures
        total(first, a, b) == total(second, a, b),
    decreases first.len(),
{
    broadcast use vstd::seq_lib::group_to_multiset_ensures;

    first.to_multiset_ensures();
    second.to_multiset_ensures();
    if first.len() == 0 {
        assert(second.len() == 0);
    } else {
        let x = first.last();
        let rest = first.drop_last();
        assert(first == rest.push(x));
        assert(first.contains(x));
        assert(second.to_multiset().count(x) > 0);
        assert(second.contains(x));
        let k = choose|k: int| 0 <= k < second.len() && second[k] == x;
        rest.to_multiset_ensures();
        assert(rest.to_multiset() =~= first.to_multiset().remove(x));
        assert(second.remove(k).to_multiset() =~= second.to_multiset().remove(x));
        lemma_total_permutation(rest, second.remove(k), a, b);
        lemma_total_remove(second, k, a, b);
    }
}

proof fn lemma_has_posting_permutation(first: Seq<Posting>, second: Seq<Posting>, a: int, b: int)
    requires
        first.to_multiset() == second.to_multiset(),
        has_posting(first, a, b),
    ensures
        has_posting(second, a, b),
{
    broadcast use vstd::seq_lib::group_to_multiset_ensures;

    first.to_multiset_ensures();
    second.to_multiset_ensures();
    let i = choose|i: int| 0 <= i < first.len() && (#[trigger] first[i]).joins(a, b);
    assert(first.contains(first[i]));
    assert(second.to_multiset().count(first[i]) > 0);
    assert(second.contains(first[i]));
    let k = choose|k: int| 0 <= k < second.len() && second[k] == first[i];
    assert(second[k].joins(a, b));
}

/// After one posting an entry joins `a` and `b` if one did before or the posting is
/// between the two.
pub proof fn lemma_netted_has_entry(entries: Seq<EntryView>, p: Posting, a: int, b: int)
    ensures
        has_entry(netted(entries, p), a, b) <==> has_entry(entries, a, b) || p.joins(a, b),
{
    lemma_entry_index(entries, p.sender, p.recipient);
    lemma_entry_index(entries, p.recipient, p.sender);
    let after = netted(entries, p);
    if has_entry(entries, a, b) {
        let i = choose|i: int| 0 <= i < entries.len() && (#[trigger] entries[i]).joins(a, b);
        assert(after[i].joins(a, b));
    }
    if p.joins(a, b) {
        match entry_index(entries, p.sender, p.recipient) {
            Some(i) => {
                assert(after[i].joins(a, b));
            },
            None => match entry_index(entries, p.recipient, p.sender) {
                Some(i) => {
                    assert(after[i].joins(a, b));
                },
                None => {
                    assert(after[entries.len() as int].joins(a, b));
                },
            },
        }
    }
    if has_entry(after, a, b) {
        let i = choose|i: int| 0 <= i < after.len() && (#[trigger] after[i]).joins(a, b);
        if i < entries.len() {
            assert(entries[i].joins(a, b));
        }
    }
}

/// After a list of postings an entry joins `a` and `b` if one did before or one of
/// the postings is between the two.
pub proof fn lemma_netted_all_has_entry(
    entries: Seq<EntryView>,
    postings: Seq<Posting>,
    a: int,
    b: int,
)
    ensures
        has_entry(netted_all(entries, postings), a, b) <==> has_entry(entries, a, b)
            || has_posting(postings, a, b),
    decreases postings.len(),
{
    if postings.len() > 0 {
        let rest = postings.drop_last();
        lemma_netted_all_has_entry(entries, rest, a, b);
        lemma_netted_has_entry(netted_all(entries, rest), postings.last(), a, b);
        if has_posting(rest, a, b) {
            let i = choose|i: int| 0 <= i < rest.len() && (#[trigger] rest[i]).joins(a, b);
            assert(postings[i].joins(a, b));
        }
        if postings.last().joins(a, b) {
            assert(postings[postings.len() - 1].joins(a, b));
        }
        if has_posting(postings, a, b) {
            let i = choose|i: int| 0 <= i < postings.len() && (#[trigger] postings[i]).joins(a, b);
            if i < rest.len() {
                assert(rest[i].joins(a, b));
            }
        }
    }
}

/// Netting does not depend on the order of the postings. Two lists that hold the
/// same postings, each as often as the other, lead from the same entries to the same
/// balance between any two accounts `a` and `b`, read from `a` to `b`, and to an
/// entry for the same pairs.
pub proof fn lemma_netting_order_independent(
    entries: Seq<EntryView>,
    first: Seq<Posting>,
    second: Seq<Posting>,
    a: int,
    b: int,
)
    requires
        first.to_multiset() == second.to_multiset(),
    ensures
        net(netted_all(entries, first), a, b) == net(netted_all(entries, second), a, b),
        has_entry(netted_all(entries, first), a, b) == has_entry(
            netted_all(entries, second),
            a,
            b,
        ),
{
    lemma_netted_all_net(entries, first, a, b);
    lemma_netted_all_net(entries, second, a, b);
    lemma_total_permutation(first, second, a, b);
    lemma_netted_all_has_entry(entries, first, a, b);
    lemma_netted_all_has_entry(entries, second, a, b);
    if has_posting(first, a, b) {
        lemma_has_posting_permutation(first, second, a, b);
    }
    if has_posting(second, a, b) {
        lemma_has_posting_permutation(second, first, a, b);
    }
}

/// A posting never removes an entry and never turns one round: the entries that
/// were there keep their places and their directions.
pub proof fn lemma_netted_keeps_entries(entries: Seq<EntryView>, p: Posting)
    ensures
        entries.len() <= netted(entries, p).len() <= entries.len() + 1,
        forall|i: int|
            0 <= i < entries.len() ==> (#[trigger] netted(entries, p)[i]).sender
                == entries[i].sender && netted(entries, p)[i].recipient == entries[i].recipient,
        has_entry(entries, p.sender, p.recipient) ==> netted(entries, p).len() == entries.len(),
        !has_entry(entries, p.sender, p.recipient) ==> netted(entries, p) == entries.push(
            EntryView { sender: p.sender, recipient: p.recipient, balance: p.amount },
        ),
{
    lemma_entry_index(entries, p.sender, p.recipient);
    lemma_entry_index(entries, p.recipient, p.sender);
    if has_entry(entries, p.sender, p.recipient) {
        let i = choose|i: int|
            0 <= i < entries.len() && (#[trigger] entries[i]).joins(p.sender, p.recipient);
        assert(entries[i].joins(p.sender, p.recipient));
    } else {
        assert forall|i: int| 0 <= i < entries.len() implies !(#[trigger] entries[i]).joins(
            p.sender,
            p.recipient,
        ) by {}
    }
}

/// A posting of nothing leaves every balance as it was, and where an entry joins
/// its two accounts, in either direction, it leaves the entries as they were.
pub proof fn lemma_zero_posting(entries: Seq<EntryView>, p: Posting)
    requires
        p.amount == 0,
    ensures
        forall|i: int| 0 <= i < entries.len() ==> #[trigger] netted(entries, p)[i] == entries[i],
        forall|i: int|
            entries.len() <= i < netted(entries, p).len() ==> (#[trigger] netted(
                entries,
                p,
            )[i]).balance == 0,
        has_entry(entries, p.sender, p.recipient) ==> netted(entries, p) == entries,
{
    lemma_entry_index(entries, p.sender, p.recipient);
    lemma_entry_index(entries, p.recipient, p.sender);
    lemma_netted_keeps_entries(entries, p);
    if has_entry(entries, p.sender, p.recipient) {
        assert(netted(entries, p) =~= entries);
    }
}

/// A posting between two different accounts keeps the entries such that each joins
/// two different accounts and no two join the same two.
pub proof fn lemma_netted_pairs_distinct(entries: Seq<EntryView>, p: Posting)
    requires
        pairs_distinct(entries),
        p.sender != p.recipient,
    ensures
        pairs_distinct(netted(entries, p)),
{
    lemma_entry_index(entries, p.sender, p.recipient);
    lemma_entry_index(entries, p.recipient, p.sender);
    let after = netted(entries, p);
    assert forall|i: int, j: int| 0 <= i < j < after.len() implies !(#[trigger] after[i]).joins(
        (#[trigger] after[j]).sender,
        after[j].recipient,
    ) by {
        if j < entries.len() {
            assert(!entries[i].joins(entries[j].sender, entries[j].recipient));
        } else {
            assert(!(entries[i].sender == p.sender && entries[i].recipient == p.recipient));
            assert(!(entries[i].sender == p.recipient && entries[i].recipient == p.sender));
        }
    }
}

/// Postings between different accounts keep the entries such that each joins two
/// different accounts and no two join the same two.
pub proof fn lemma_netted_all_pairs_distinct(entries: Seq<EntryView>, postings: Seq<Posting>)
    requires
        pairs_distinct(entries),
        forall|i: int|
            0 <= i < postings.len() ==> (#[trigger] postings[i]).sender != postings[i].recipient,
    ensures
        pairs_distinct(netted_all(entries, postings)),
    decreases postings.len(),
{
    if postings.len() > 0 {
        let rest = postings.drop_last();
        assert forall|i: int| 0 <= i < rest.len() implies (#[trigger] rest[i]).sender
            != rest[i].recipient by {
            assert(rest[i] == postings[i]);
        }
        lemma_netted_all_pairs_distinct(entries, rest);
        lemma_netted_pairs_distinct(netted_all(entries, rest), postings.last());
    }
}

proof fn lemma_net_of_strangers(entries: Seq<EntryView>, a: int, b: int)
    requires
        !has_entry(entries, a, b),
    ensures
        net(entries, a, b) == 0,
    decreases entries.len(),
{
    if entries.len() > 0 {
        let rest = entries.drop_last();
        assert(!entries[entries.len() - 1].joins(a, b));
        assert forall|i: int| 0 <= i < rest.len() implies !(#[trigger] rest[i]).joins(a, b) by {
            assert(rest[i] == entries[i]);
            assert(!entries[i].joins(a, b));
        }
        lemma_net_of_strangers(rest, a, b);
    }
}

/// Where no two entries join the same two accounts, the balance between the two
/// accounts of an entry, read in the entry's direction, is the entry's own balance.
pub proof fn lemma_net_of_entry(entries: Seq<EntryView>, i: int)
    requires
        pairs_distinct(entries),
        0 <= i < entries.len(),
    ensures
        net(entries, entries[i].sender, entries[i].recipient) == entries[i].balance,
        net(entries, entries[i].recipient, entries[i].sender) == -entries[i].balance,
    decreases entries.len(),
{
    let rest = entries.drop_last();
    let a = entries[i].sender;
    let b = entries[i].recipient;
    let last = entries.len() - 1;
    if i == last {
        assert forall|j: int| 0 <= j < rest.len() implies !(#[trigger] rest[j]).joins(a, b) by {
            assert(rest[j] == entries[j]);
            assert(!entries[j].joins(entries[last].sender, entries[last].recipient));
        }
        assert forall|j: int| 0 <= j < rest.len() implies !(#[trigger] rest[j]).joins(b, a) by {
            assert(rest[j] == entries[j]);
            assert(!entries[j].joins(entries[last].sender, entries[last].recipient));
        }
        lemma_net_of_strangers(rest, a, b);
        lemma_net_of_strangers(rest, b, a);
    } else {
        assert(rest[i] == entries[i]);
        assert(!entries[i].joins(entries[last].sender, entries[last].recipient));
        assert forall|j: int, k: int| 0 <= j < k < rest.len() implies !(#[trigger] rest[j]).joins(
            (#[trigger] rest[k]).sender,
            rest[k].recipient,
        ) by {
            assert(!entries[j].joins(entries[k].sender, entries[k].recipient));
        }
        assert forall|j: int| 0 <= j < rest.len() implies (#[trigger] rest[j]).sender
            != rest[j].recipient by {
            assert(rest[j] == entries[j]);
        }
        lemma_net_of_entry(rest, i);
    }
}

/// Netting does not depend on the order of the postings, entry by entry. Of two
/// lists that hold the same postings between different accounts, each as often as
/// the other, and are applied to the same entries: where both leave an entry for two
/// accounts in the same direction, the two balances are equal, and where the
/// directions are opposite, so are the balances.
pub proof fn lemma_netting_same_entries(
    entries: Seq<EntryView>,
    first: Seq<Posting>,
    second: Seq<Posting>,
    i: int,
    j: int,
)
    requires
        pairs_distinct(entries),
        first.to_multiset() == second.to_multiset(),
        forall|k: int| 0 <= k < first.len() ==> (#[trigger] first[k]).sender != first[k].recipient,
        0 <= i < netted_all(entries, first).len(),
        0 <= j < netted_all(entries, second).len(),
        netted_all(entries, first)[i].joins(
            netted_all(entries, second)[j].sender,
            netted_all(entries, second)[j].recipient,
        ),
    ensures
        netted_all(entries, first)[i].sender == netted_all(entries, second)[j].sender
            ==> netted_all(entries, first)[i].balance == netted_all(entries, second)[j].balance,
        netted_all(entries, first)[i].sender == netted_all(entries, second)[j].recipient
            ==> netted_all(entries, first)[i].balance == -netted_all(entries, second)[j].balance,
{
    broadcast use vstd::seq_lib::group_to_multiset_ensures;

    first.to_multiset_ensures();
    second.to_multiset_ensures();
    assert forall|k: int| 0 <= k < second.len() implies (#[trigger] second[k]).sender
        != second[k].recipient by {
        assert(second.contains(second[k]));
        assert(first.to_multiset().count(second[k]) > 0);
        assert(first.contains(second[k]));
        let m = choose|m: int| 0 <= m < first.len() && first[m] == second[k];
        assert(first[m].sender != first[m].recipient);
    }
    let one = netted_all(entries, first);
    let other = netted_all(entries, second);
    lemma_netted_all_pairs_distinct(entries, first);
    lemma_netted_all_pairs_distinct(entries, second);
    lemma_net_of_entry(one, i);
    lemma_net_of_entry(other, j);
    lemma_netting_order_independent(entries, first, second, one[i].sender, one[i].recipient);
}

proof fn lemma_netted_all_keeps_entries(entries: Seq<EntryView>, postings: Seq<Posting>)
    ensures
        entries.len() <= netted_all(entries, postings).len(),
        forall|i: int|
            0 <= i < entries.len() ==> (#[trigger] netted_all(entries, postings)[i]).sender
                == entries[i].sender && netted_all(entries, postings)[i].recipient
                == entries[i].recipient,
        (forall|k: int|
            0 <= k < postings.len() ==> has_entry(
                entries,
                (#[trigger] postings[k]).sender,
                postings[k].recipient,
            )) ==> netted_all(entries, postings).len() == entries.len(),
    decreases postings.len(),
{
    if postings.len() > 0 {
        let rest = postings.drop_last();
        let p = postings.last();
        let before = netted_all(entries, rest);
        lemma_netted_all_keeps_entries(entries, rest);
        lemma_netted_keeps_entries(before, p);
        if forall|k: int|
            0 <= k < postings.len() ==> has_entry(
                entries,
                (#[trigger] postings[k]).sender,
                postings[k].recipient,
            ) {
            assert forall|k: int| 0 <= k < rest.len() implies has_entry(
                entries,
                (#[trigger] rest[k]).sender,
                rest[k].recipient,
            ) by {
                assert(rest[k] == postings[k]);
            }
            assert(has_entry(entries, postings[postings.len() - 1].sender, p.recipient));
            let i = choose|i: int|
                0 <= i < entries.len() && (#[trigger] entries[i]).joins(p.sender, p.recipient);
            assert(before[i].joins(p.sender, p.recipient));
            lemma_entry_index(before, p.sender, p.recipient);
            lemma_entry_index(before, p.recipient, p.sender);
        }
    }
}

/// Netting does not depend on the order of the postings: where the entries to start
/// from already have one for every pair of accounts that the postings are between,
/// so that the direction of every entry is given, two lists that hold the same
/// postings, each as often as the other, lead to the same entries.
pub proof fn lemma_netting_same_balance(
    entries: Seq<EntryView>,
    first: Seq<Posting>,
    second: Seq<Posting>,
)
    requires
        pairs_distinct(entries),
        first.to_multiset() == second.to_multiset(),
        forall|k: int| 0 <= k < first.len() ==> (#[trigger] first[k]).sender != first[k].recipient,
        forall|k: int|
            0 <= k < first.len() ==> has_entry(
                entries,
                (#[trigger] first[k]).sender,
                first[k].recipient,
            ),
    ensures
        netted_all(entries, first) == netted_all(entries, second),
{
    broadcast use vstd::seq_lib::group_to_multiset_ensures;

    first.to_multiset_ensures();
    second.to_multiset_ensures();
    assert forall|k: int| 0 <= k < second.len() implies has_entry(
        entries,
        (#[trigger] second[k]).sender,
        second[k].recipient,
    ) by {
        assert(second.contains(second[k]));
        assert(first.to_multiset().count(second[k]) > 0);
        assert(first.contains(second[k]));
        let m = choose|m: int| 0 <= m < first.len() && first[m] == second[k];
        assert(has_entry(entries, first[m].sender, first[m].recipient));
    }
    let one = netted_all(entries, first);
    let other = netted_all(entries, second);
    lemma_netted_all_keeps_entries(entries, first);
    lemma_netted_all_keeps_entries(entries, second);
    assert forall|i: int| 0 <= i < one.len() implies one[i] == other[i] by {
        lemma_netting_same_entries(entries, first, second, i, i);
    }
    assert(one =~= other);
}

/// `k` is the index of the first posting between `sender` and `recipient`, and that
/// posting runs from `sender` to `recipient`.
pub open spec fn is_first_posting(postings: Seq<Posting>, sender: int, recipient: int, k: int) -> bool {
    &&& 0 <= k < postings.len()
    &&& postings[k].sender == sender
    &&& postings[k].recipient == recipient
    &&& forall|j: int| 0 <= j < k ==> !(#[trigger] postings[j]).joins(sender, recipient)
}

/// The entry runs in the direction of the first posting between its two accounts.
pub open spec fn runs_as_first_seen(postings: Seq<Posting>, e: EntryView) -> bool {
    exists|k: int| is_first_posting(postings, e.sender, e.recipient, k)
}

proof fn lemma_first_posting_unique(
    postings: Seq<Posting>,
    sender: int,
    recipient: int,
    k1: int,
    k2: int,
)
    requires
        is_first_posting(postings, sender, recipient, k1),
        is_first_posting(postings, sender, recipient, k2),
    ensures
        k1 == k2,
{
    if k1 < k2 {
        assert(postings[k1].joins(sender, recipient));
    } else if k2 < k1 {
        assert(postings[k2].joins(sender, recipient));
    }
}

proof fn lemma_first_posting_stays(postings: Seq<Posting>, sender: int, recipient: int, k: int)
    requires
        postings.len() > 0,
        is_first_posting(postings.drop_last(), sender, recipient, k),
    ensures
        is_first_posting(postings, sender, recipient, k),
{
    let rest = postings.drop_last();
    assert(postings[k] == rest[k]);
    assert forall|j: int| 0 <= j < k implies !(#[trigger] postings[j]).joins(sender, recipient) by {
        assert(postings[j] == rest[j]);
    }
}

/// The entries that postings add come in the order in which their pairs of
/// accounts are first seen, and each runs in the direction of the first posting
/// between its two accounts. An entry is added only for a pair that had none.
pub proof fn lemma_netted_all_new_entries(entries: Seq<EntryView>, postings: Seq<Posting>)
    ensures
        entries.len() <= netted_all(entries, postings).len(),
        forall|i: int|
            entries.len() <= i < netted_all(entries, postings).len() ==> {
                let e = #[trigger] netted_all(entries, postings)[i];
                &&& !has_entry(entries, e.sender, e.recipient)
                &&& runs_as_first_seen(postings, e)
            },
        forall|i: int, j: int, ki: int, kj: int|
            entries.len() <= i < j < netted_all(entries, postings).len() && #[trigger] is_first_posting(
                postings,
                netted_all(entries, postings)[i].sender,
                netted_all(entries, postings)[i].recipient,
                ki,
            ) && #[trigger] is_first_posting(
                postings,
                netted_all(entries, postings)[j].sender,
                netted_all(entries, postings)[j].recipient,
                kj,
            ) ==> ki < kj,
    decreases postings.len(),
{
    if postings.len() > 0 {
        let rest = postings.drop_last();
        let p = postings.last();
        let before = netted_all(entries, rest);
        let after = netted_all(entries, postings);
        lemma_netted_all_new_entries(entries, rest);
        lemma_netted_keeps_entries(before, p);
        lemma_netted_all_has_entry(entries, rest, p.sender, p.recipient);
        assert forall|i: int| entries.len() <= i < after.len() implies {
            let e = #[trigger] after[i];
            &&& !has_entry(entries, e.sender, e.recipient)
            &&& runs_as_first_seen(postings, e)
        } by {
            let e = after[i];
            if i < before.len() {
                assert(e.sender == before[i].sender && e.recipient == before[i].recipient);
                let k = choose|k: int|
                    is_first_posting(rest, before[i].sender, before[i].recipient, k);
                lemma_first_posting_stays(postings, e.sender, e.recipient, k);
            } else {
                assert(e.sender == p.sender && e.recipient == p.recipient);
                assert forall|j: int| 0 <= j < rest.len() implies !(#[trigger] postings[j]).joins(
                    p.sender,
                    p.recipient,
                ) by {
                    assert(postings[j] == rest[j]);
                    if rest[j].joins(p.sender, p.recipient) {
                        assert(has_posting(rest, p.sender, p.recipient));
                    }
                }
                assert(is_first_posting(postings, e.sender, e.recipient, postings.len() - 1));
            }
        }
        assert forall|i: int, j: int, ki: int, kj: int|
            entries.len() <= i < j < after.len() && #[trigger] is_first_posting(
                postings,
                after[i].sender,
                after[i].recipient,
                ki,
            ) && #[trigger] is_first_posting(
                postings,
                after[j].sender,
                after[j].recipient,
                kj,
            ) implies ki < kj by {
            assert(after[i].sender == before[i].sender && after[i].recipient
                == before[i].recipient);
            let k = choose|k: int| is_first_posting(rest, before[i].sender, before[i].recipient, k);
            lemma_first_posting_stays(postings, after[i].sender, after[i].recipient, k);
            lemma_first_posting_unique(postings, after[i].sender, after[i].recipient, k, ki);
            if j < before.len() {
                assert(after[j].sender == before[j].sender && after[j].recipient
                    == before[j].recipient);
                let m = choose|m: int|
                    is_first_posting(rest, before[j].sender, before[j].recipient, m);
                lemma_first_posting_stays(postings, after[j].sender, after[j].recipient, m);
                lemma_first_posting_unique(postings, after[j].sender, after[j].recipient, m, kj);
                assert(is_first_posting(rest, before[i].sender, before[i].recipient, k));
                assert(is_first_posting(rest, before[j].sender, before[j].recipient, m));
            } else {
                assert(after[j].sender == p.sender && after[j].recipient == p.recipient);
                if kj < rest.len() {
                    assert(rest[kj] == postings[kj]);
                    assert(rest[kj].joins(p.sender, p.recipient));
                    assert(has_posting(rest, p.sender, p.recipient));
                }
            }
        }
    }
}

/// Netting does not depend on the order of the postings, from no entries on. Of
/// two lists that hold the same postings between different accounts, each as often
/// as the other, either leads to exactly one entry for each pair of accounts that a
/// posting is between, and to none for any other pair. The entry of a pair runs in
/// the direction of the first posting between the two in the list that was used.
/// The balances of a pair agree: they are equal where the two entries run in the
/// same direction, and opposite where they do not.
pub proof fn lemma_netting_from_none(first: Seq<Posting>, second: Seq<Posting>)
    requires
        first.to_multiset() == second.to_multiset(),
        forall|k: int| 0 <= k < first.len() ==> (#[trigger] first[k]).sender != first[k].recipient,
    ensures
        ({
            let one = netted_all(Seq::empty(), first);
            let other = netted_all(Seq::empty(), second);
            &&& pairs_distinct(one)
            &&& pairs_distinct(other)
            &&& forall|a: int, b: int| #[trigger] has_entry(one, a, b) == has_posting(first, a, b)
            &&& forall|a: int, b: int| #[trigger] has_entry(other, a, b) == has_entry(one, a, b)
            &&& forall|i: int| 0 <= i < one.len() ==> runs_as_first_seen(first, #[trigger] one[i])
            &&& forall|j: int|
                0 <= j < other.len() ==> runs_as_first_seen(second, #[trigger] other[j])
            &&& forall|i: int, j: int|
                0 <= i < one.len() && 0 <= j < other.len() && (#[trigger] one[i]).sender == (
                #[trigger] other[j]).sender && one[i].recipient == other[j].recipient
                    ==> one[i].balance == other[j].balance
            &&& forall|i: int, j: int|
                0 <= i < one.len() && 0 <= j < other.len() && (#[trigger] one[i]).sender == (
                #[trigger] other[j]).recipient && one[i].recipient == other[j].sender
                    ==> one[i].balance == -other[j].balance
        }),
{
    broadcast use vstd::seq_lib::group_to_multiset_ensures;

    first.to_multiset_ensures();
    second.to_multiset_ensures();
    let none = Seq::<EntryView>::empty();
    let one = netted_all(none, first);
    let other = netted_all(none, second);
    assert forall|k: int| 0 <= k < second.len() implies (#[trigger] second[k]).sender
        != second[k].recipient by {
        assert(second.contains(second[k]));
        assert(first.to_multiset().count(second[k]) > 0);
        assert(first.contains(second[k]));
        let m = choose|m: int| 0 <= m < first.len() && first[m] == second[k];
        assert(first[m].sender != first[m].recipient);
    }
    lemma_netted_all_pairs_distinct(none, first);
    lemma_netted_all_pairs_distinct(none, second);
    lemma_netted_all_new_entries(none, first);
    lemma_netted_all_new_entries(none, second);
    assert forall|i: int| 0 <= i < one.len() implies runs_as_first_seen(
        first,
        #[trigger] one[i],
    ) by {
        assert(!has_entry(none, one[i].sender, one[i].recipient));
    }
    assert forall|j: int| 0 <= j < other.len() implies runs_as_first_seen(
        second,
        #[trigger] other[j],
    ) by {
        assert(!has_entry(none, other[j].sender, other[j].recipient));
    }
    assert forall|a: int, b: int| #[trigger] has_entry(one, a, b) == has_posting(first, a, b) by {
        lemma_netted_all_has_entry(none, first, a, b);
        assert(!has_entry(none, a, b));
    }
    assert forall|a: int, b: int| #[trigger] has_entry(other, a, b) == has_entry(one, a, b) by {
        lemma_netting_order_independent(none, first, second, a, b);
    }
    assert forall|i: int, j: int|
        0 <= i < one.len() && 0 <= j < other.len() && (#[trigger] one[i]).sender == (
        #[trigger] other[j]).sender && one[i].recipient == other[j].recipient implies one[i].balance
        == other[j].balance by {
        lemma_netting_same_entries(none, first, second, i, j);
    }
    assert forall|i: int, j: int|
        0 <= i < one.len() && 0 <= j < other.len() && (#[trigger] one[i]).sender == (
        #[trigger] other[j]).recipient && one[i].recipient == other[j].sender implies one[i].balance
        == -other[j].balance by {
        lemma_netting_same_entries(none, first, second, i, j);
    }
}

} // verus!
