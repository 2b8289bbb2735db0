//! The statement of one account as plain text: what it has to pay and to get, what
//! it has paid and got, and what is still open between it and the others.

use crate::account::{find, position, views, Account, AccountView};
use crate::balance::{entry_views, Balance, BalanceEntry, EntryView};
use crate::date::date_text;
use crate::ledger::{Ledger, LedgerView};
use crate::money::{
    add_amount_to_string, magnitude, round_to_cents, rounded_cents, statement_text,
    UNITS_PER_CENT,
};
use crate::text::chars_of;
use crate::transaction::{transaction_views, Transaction, TransactionView};
use vstd::prelude::*;

verus! {

/// Whether money comes in or goes out.
#[derive(Clone, Copy, Debug, PartialEq, Eq, Structural)]
pub enum MoneyFlow {
    In,
    Out,
}

/// `line`, and after it as many spaces as it lacks to be `width` characters long.
pub open spec fn padded(line: Seq<char>, width: int) -> Seq<char> {
    if line.len() >= width {
        line
    } else {
        line + Seq::new((width - line.len()) as nat, |i: int| ' ')
    }
}

/// `x` put into a list that is in order: after everything that `x` does not come
/// before, so behind its equals.
pub open spec fn inserted<T>(sorted: Seq<T>, x: T, before: spec_fn(T, T) -> bool) -> Seq<T>
    decreases sorted.len(),
{
    if sorted.len() > 0 && before(x, sorted.last()) {
        inserted(sorted.drop_last(), x, before).push(sorted.last())
    } else {
        sorted.push(x)
    }
}

/// The items in the order that `before` gives; items of which neither comes before
/// the other stay in the order in which they stood.
pub open spec fn sorted_by<T>(items: Seq<T>, before: spec_fn(T, T) -> bool) -> Seq<T>
    decreases items.len(),
{
    if items.len() == 0 {
        Seq::empty()
    } else {
        inserted(sorted_by(items.drop_last(), before), items.last(), before)
    }
}

/// The order of transactions in a statement: by date.
pub open spec fn earlier() -> spec_fn(TransactionView, TransactionView) -> bool {
    |a: TransactionView, b: TransactionView| a.date.before(b.date)
}

/// The order of balances in a statement: the smallest first.
pub open spec fn smaller() -> spec_fn(EntryView, EntryView) -> bool {
    |a: EntryView, b: EntryView| a.balance < b.balance
}

/// Where `x` goes in a list that is in order.
pub open spec fn is_place<T>(sorted: Seq<T>, x: T, before: spec_fn(T, T) -> bool, place: int) -> bool {
    &&& 0 <= place <= sorted.len()
    &&& forall|j: int| place <= j < sorted.len() ==> before(x, #[trigger] sorted[j])
    &&& place > 0 ==> !before(x, sorted[place - 1])
}

/// Putting `x` into a list leaves what stood before its place and what stood after
/// it as they were.
pub proof fn lemma_inserted<T>(sorted: Seq<T>, x: T, before: spec_fn(T, T) -> bool, place: int)
    requires
        is_place(sorted, x, before, place),
    ensures
        inserted(sorted, x, before) == sorted.take(place).push(x) + sorted.skip(place),
    decreases sorted.len(),
{
    if place == sorted.len() {
        assert(sorted.take(place) == sorted);
        assert(sorted.push(x) + sorted.skip(place) =~= sorted.push(x));
    } else {
        let rest = sorted.drop_last();
        assert(before(x, sorted[sorted.len() - 1]));
        assert forall|j: int| place <= j < rest.len() implies before(x, #[trigger] rest[j]) by {
            assert(rest[j] == sorted[j]);
        }
        lemma_inserted(rest, x, before, place);
        assert(rest.take(place) == sorted.take(place));
        assert((rest.take(place).push(x) + rest.skip(place)).push(sorted.last())
            =~= sorted.take(place).push(x) + sorted.skip(place));
    }
}

/// The transactions that `account` sent.
pub open spec fn sent_by(transactions: Seq<TransactionView>, account: int) -> Seq<TransactionView>
    decreases transactions.len(),
{
    if transactions.len() == 0 {
        Seq::empty()
    } else if transactions.last().sender == account {
        sent_by(transactions.drop_last(), account).push(transactions.last())
    } else {
        sent_by(transactions.drop_last(), account)
    }
}

/// The transactions that `account` received from another account.
pub open spec fn received_by(transactions: Seq<TransactionView>, account: int) -> Seq<
    TransactionView,
>
    decreases transactions.len(),
{
    if transactions.len() == 0 {
        Seq::empty()
    } else if transactions.last().sender != account && transactions.last().recipient == account {
        received_by(transactions.drop_last(), account).push(transactions.last())
    } else {
        received_by(transactions.drop_last(), account)
    }
}

/// The transactions of `account` with money going the way of `flow`: out where the
/// account is the sender, in where it is the recipient.
pub open spec fn selected(transactions: Seq<TransactionView>, account: int, flow: MoneyFlow) -> Seq<
    TransactionView,
> {
    match flow {
        MoneyFlow::Out => sent_by(transactions, account),
        MoneyFlow::In => received_by(transactions, account),
    }
}

/// The entries that join `account` and another.
pub open spec fn concerning(entries: Seq<EntryView>, account: int) -> Seq<EntryView>
    decreases entries.len(),
{
    if entries.len() == 0 {
        Seq::empty()
    } else if entries.last().sender == account || entries.last().recipient == account {
        concerning(entries.drop_last(), account).push(entries.last())
    } else {
        concerning(entries.drop_last(), account)
    }
}

/// The word before the name of the other account.
pub open spec fn preposition(flow: MoneyFlow) -> Seq<char> {
    match flow {
        MoneyFlow::In => seq!['V', 'o', 'n'],
        MoneyFlow::Out => seq!['A', 'n'],
    }
}

/// The other account of a transaction.
pub open spec fn other_party(t: TransactionView, flow: MoneyFlow) -> int {
    match flow {
        MoneyFlow::In => t.sender,
        MoneyFlow::Out => t.recipient,
    }
}

/// The line of a transaction in a statement: the date; from column 15 less the
/// length of the preposition, the preposition and the name of the other account;
/// from column 35 the amount; from column 50 the note. What is too long pushes the
/// rest to the right.
pub open spec fn transaction_line(t: TransactionView, flow: MoneyFlow, accounts: Seq<AccountView>) -> Seq<
    char,
> {
    let dated = padded(date_text(t.date), 15 - preposition(flow).len());
    let named = padded(dated + preposition(flow) + seq![' '] + accounts[other_party(t, flow)].name, 35);
    padded(named + statement_text(t.amount), 50) + t.note + seq!['\n']
}

/// The lines of the transactions, one after the other.
pub open spec fn transaction_lines(
    transactions: Seq<TransactionView>,
    flow: MoneyFlow,
    accounts: Seq<AccountView>,
) -> Seq<char>
    decreases transactions.len(),
{
    if transactions.len() == 0 {
        Seq::empty()
    } else {
        transaction_lines(transactions.drop_last(), flow, accounts) + transaction_line(
            transactions.last(),
            flow,
            accounts,
        )
    }
}

/// A table of a statement: nothing where there are no transactions; otherwise an
/// empty line, the heading, and the lines of the transactions in the order of their
/// dates.
pub open spec fn table_text(
    heading: Seq<char>,
    flow: MoneyFlow,
    accounts: Seq<AccountView>,
    transactions: Seq<TransactionView>,
) -> Seq<char> {
    if transactions.len() == 0 {
        Seq::empty()
    } else {
        seq!['\n'] + heading + seq![':', '\n'] + transaction_lines(
            sorted_by(transactions, earlier()),
            flow,
            accounts,
        )
    }
}

/// The line of a balance in a statement: nothing where the balance rounds to no
/// cent; otherwise the names of the two accounts with an arrow between them, and
/// from column 35 the balance in whole cents, without its sign. The arrow runs in
/// the direction of the entry where the balance is negative, and against it where
/// the balance is positive.
pub open spec fn open_line(e: EntryView, accounts: Seq<AccountView>) -> Seq<char> {
    let cents = rounded_cents(e.balance);
    if cents == 0 {
        Seq::empty()
    } else if cents > 0 {
        padded(
            accounts[e.recipient].name + seq![' ', '-', '>', ' '] + accounts[e.sender].name,
            35,
        ) + statement_text(cents * UNITS_PER_CENT) + seq!['\n']
    } else {
        padded(
            accounts[e.sender].name + seq![' ', '-', '>', ' '] + accounts[e.recipient].name,
            35,
        ) + statement_text(-cents * UNITS_PER_CENT) + seq!['\n']
    }
}

/// The lines of the balances, one after the other.
pub open spec fn open_lines(entries: Seq<EntryView>, accounts: Seq<AccountView>) -> Seq<char>
    decreases entries.len(),
{
    if entries.len() == 0 {
        Seq::empty()
    } else {
        open_lines(entries.drop_last(), accounts) + open_line(entries.last(), accounts)
    }
}

/// The title of the statement of an account.
pub open spec fn title_text(ledger: LedgerView, account: int) -> Seq<char> {
    "WG Abrechnung "@ + date_text(ledger.today) + seq![' '] + ledger.accounts[account].name
}

/// The name of the file of a statement: its title with every full stop turned into
/// an underscore, and the extension of a text file.
pub open spec fn file_name_text(title: Seq<char>) -> Seq<char> {
    title.map_values(
        |c: char|
            if c == '.' {
                '_'
            } else {
                c
            },
    ) + seq!['.', 't', 'x', 't']
}

/// What is still open: the lines of the balances that concern the account, the
/// smallest balance first, or a dash where no balance amounts to a cent.
pub open spec fn open_text(entries: Seq<EntryView>, accounts: Seq<AccountView>, account: int) -> Seq<
    char,
> {
    let lines = open_lines(sorted_by(concerning(entries, account), smaller()), accounts);
    if lines.len() == 0 {
        seq!['-', '\n']
    } else {
        lines
    }
}

/// The statement of an account: the title, the invoices to pay and those to get,
/// the payments made and those received, and what is still open.
pub open spec fn statement_of(ledger: LedgerView, entries: Seq<EntryView>, account: int) -> Seq<
    char,
> {
    title_text(ledger, account) + seq!['\n'] + table_text(
        "Zu zahlen"@,
        MoneyFlow::Out,
        ledger.accounts,
        selected(ledger.invoices, account, MoneyFlow::Out),
    ) + table_text(
        "Zu gute"@,
        MoneyFlow::In,
        ledger.accounts,
        selected(ledger.invoices, account, MoneyFlow::In),
    ) + table_text(
        "Gezahlt"@,
        MoneyFlow::Out,
        ledger.accounts,
        selected(ledger.payments, account, MoneyFlow::Out),
    ) + table_text(
        "Erhalten"@,
        MoneyFlow::In,
        ledger.accounts,
        selected(ledger.payments, account, MoneyFlow::In),
    ) + "\nNoch offen:\n"@ + open_text(entries, ledger.accounts, account)
}

/// Adds spaces to `line` until it is `width` characters long.
pub fn pad(line: &mut String, width: usize)
    ensures
        final(line)@ == padded(old(line)@, width as int),
{
    let length = line.as_str().unicode_len();
    let mut i: usize = length;
    assert(line@ =~= line@ + Seq::new(0, |i: int| ' '));
    while i < width
        invariant
            length == old(line)@.len(),
            length <= i,
            i <= width || i == length,
            line@ == old(line)@ + Seq::new((i - length) as nat, |i: int| ' '),
        decreases width - i,
    {
        line.push(' ');
        i += 1;
        assert(line@ =~= old(line)@ + Seq::new((i - length) as nat, |i: int| ' '));
    }
    assert(length < width ==> i == width);
    assert(length >= width ==> line@ =~= old(line)@);
}

/// The transactions of `account` with money going the way of `flow`, in the order
/// of their dates.
pub fn sorted_selection(transactions: &Vec<Transaction>, account: usize, flow: MoneyFlow) -> (r:
    Vec<Transaction>)
    ensures
        transaction_views(r@) == sorted_by(
            selected(transaction_views(transactions@), account as int, flow),
            earlier(),
        ),
{
    let ghost all = transaction_views(transactions@);
    let mut out: Vec<Transaction> = Vec::new();
    let mut i: usize = 0;
    assert(all.take(0) =~= Seq::<TransactionView>::empty());
    assert(transaction_views(out@) =~= Seq::<TransactionView>::empty());
    while i < transactions.len()
        invariant
            i <= transactions.len(),
            all == transaction_views(transactions@),
            transaction_views(out@) == sorted_by(
                selected(all.take(i as int), account as int, flow),
                earlier(),
            ),
        decreases transactions.len() - i,
    {
        let t = &transactions[i];
        proof {
            assert(all.take(i + 1).drop_last() =~= all.take(i as int));
            assert(all.take(i + 1).last() == t@);
        }
        let chosen = match flow {
            MoneyFlow::Out => t.sender_index() == account,
            MoneyFlow::In => t.sender_index() != account && t.recipient_index() == account,
        };
        if chosen {
            let ghost before = transaction_views(out@);
            let day = t.date();
            let mut place: usize = out.len();
            while place > 0 && day.is_before(&out[place - 1].date())
                invariant
                    place <= out.len(),
                    before == transaction_views(out@),
                    day@ == t@.date,
                    forall|j: int|
                        place <= j < before.len() ==> earlier()(t@, #[trigger] before[j]),
                decreases place,
            {
                assert(before[place - 1] == out@[place - 1]@);
                place -= 1;
            }
            proof {
                if place > 0 {
                    assert(before[place - 1] == out@[place - 1]@);
                }
                assert(is_place(before, t@, earlier(), place as int));
                lemma_inserted(before, t@, earlier(), place as int);
            }
            out.insert(place, t.clone());
            proof {
                let picked = selected(all.take(i as int), account as int, flow);
                assert(transaction_views(out@) =~= before.take(place as int).push(t@)
                    + before.skip(place as int));
                assert(selected(all.take(i + 1), account as int, flow) == picked.push(t@));
                assert(picked.push(t@).drop_last() =~= picked);
            }
        } else {
            assert(selected(all.take(i + 1), account as int, flow) == selected(
                all.take(i as int),
                account as int,
                flow,
            ));
        }
        i += 1;
    }
    assert(all.take(transactions.len() as int) =~= all);
    out
}

/// The entries that join `account` and another, the smallest balance first.
pub fn sorted_entries(entries: &Vec<BalanceEntry>, account: usize) -> (r: Vec<BalanceEntry>)
    ensures
        entry_views(r@) == sorted_by(
            concerning(entry_views(entries@), account as int),
            smaller(),
        ),
{
    let ghost all = entry_views(entries@);
    let mut out: Vec<BalanceEntry> = Vec::new();
    let mut i: usize = 0;
    assert(all.take(0) =~= Seq::<EntryView>::empty());
    assert(entry_views(out@) =~= Seq::<EntryView>::empty());
    while i < entries.len()
        invariant
            i <= entries.len(),
            all == entry_views(entries@),
            entry_views(out@) == sorted_by(concerning(all.take(i as int), account as int), smaller()),
        decreases entries.len() - i,
    {
        let e = entries[i];
        proof {
            assert(all.take(i + 1).drop_last() =~= all.take(i as int));
            assert(all.take(i + 1).last() == e@);
        }
        if e.sender_index() == account || e.recipient_index() == account {
            let ghost before = entry_views(out@);
            let mut place: usize = out.len();
            while place > 0 && e.balance() < out[place - 1].balance()
                invariant
                    place <= out.len(),
                    before == entry_views(out@),
                    forall|j: int|
                        place <= j < before.len() ==> smaller()(e@, #[trigger] before[j]),
                decreases place,
            {
                assert(before[place - 1] == out@[place - 1]@);
                place -= 1;
            }
            proof {
                if place > 0 {
                    assert(before[place - 1] == out@[place - 1]@);
                }
                assert(is_place(before, e@, smaller(), place as int));
                lemma_inserted(before, e@, smaller(), place as int);
            }
            out.insert(place, e);
            proof {
                let picked = concerning(all.take(i as int), account as int);
                assert(entry_views(out@) =~= before.take(place as int).push(e@) + before.skip(
                    place as int,
                ));
                assert(concerning(all.take(i + 1), account as int) == picked.push(e@));
                assert(picked.push(e@).drop_last() =~= picked);
            }
        } else {
            assert(concerning(all.take(i + 1), account as int) == concerning(
                all.take(i as int),
                account as int,
            ));
        }
        i += 1;
    }
    assert(all.take(entries.len() as int) =~= all);
    out
}

/// An order that compares by rank: nothing comes before itself or before what comes
/// before it, and what comes before one item comes before every item that the one
/// does not come after.
pub open spec fn ranks<T>(before: spec_fn(T, T) -> bool) -> bool {
    &&& forall|a: T, b: T| #[trigger] before(a, b) ==> !before(b, a)
    &&& forall|x: T, a: T, b: T| #[trigger] before(x, a) && !#[trigger] before(b, a) ==> before(x, b)
}

/// No item of the list comes before an item that stands earlier in the list.
pub open spec fn in_order<T>(items: Seq<T>, before: spec_fn(T, T) -> bool) -> bool {
    forall|i: int, j: int| 0 <= i < j < items.len() ==> !before(#[trigger] items[j], #[trigger] items[i])
}

proof fn lemma_inserted_in_order<T>(sorted: Seq<T>, x: T, before: spec_fn(T, T) -> bool)
    requires
        ranks(before),
        in_order(sorted, before),
    ensures
        in_order(inserted(sorted, x, before), before),
        inserted(sorted, x, before).to_multiset() == sorted.to_multiset().insert(x),
        inserted(sorted, x, before).len() == sorted.len() + 1,
        forall|i: int|
            0 <= i < inserted(sorted, x, before).len() ==> #[trigger] inserted(sorted, x, before)[i]
                == x || sorted.contains(inserted(sorted, x, before)[i]),
    decreases sorted.len(),
{
    broadcast use vstd::seq_lib::group_to_multiset_ensures;

    let result = inserted(sorted, x, before);
    if sorted.len() > 0 && before(x, sorted.last()) {
        let rest = sorted.drop_last();
        let last = sorted.last();
        assert(sorted == rest.push(last));
        assert forall|i: int, j: int| 0 <= i < j < rest.len() implies !before(
            #[trigger] rest[j],
            #[trigger] rest[i],
        ) by {
            assert(rest[i] == sorted[i] && rest[j] == sorted[j]);
        }
        lemma_inserted_in_order(rest, x, before);
        let inner = inserted(rest, x, before);
        assert(result == inner.push(last));
        assert forall|i: int, j: int| 0 <= i < j < result.len() implies !before(
            #[trigger] result[j],
            #[trigger] result[i],
        ) by {
            if j < inner.len() {
                assert(result[i] == inner[i] && result[j] == inner[j]);
            } else {
                assert(result[i] == inner[i]);
                if inner[i] != x {
                    assert(rest.contains(inner[i]));
                    let k = choose|k: int| 0 <= k < rest.len() && rest[k] == inner[i];
                    assert(sorted[k] == inner[i]);
                    assert(!before(sorted[sorted.len() - 1], sorted[k]));
                }
            }
        }
        assert(result.to_multiset() =~= sorted.to_multiset().insert(x));
        assert forall|i: int| 0 <= i < result.len() implies #[trigger] result[i] == x
            || sorted.contains(result[i]) by {
            if i < inner.len() {
                if inner[i] != x {
                    let k = choose|k: int| 0 <= k < rest.len() && rest[k] == inner[i];
                    assert(sorted[k] == result[i]);
                }
            } else {
                assert(sorted[sorted.len() - 1] == result[i]);
            }
        }
    } else {
        assert forall|i: int, j: int| 0 <= i < j < result.len() implies !before(
            #[trigger] result[j],
            #[trigger] result[i],
        ) by {
            if j < sorted.len() {
                assert(result[i] == sorted[i] && result[j] == sorted[j]);
            } else if sorted.len() > 0 {
                let last = sorted[sorted.len() - 1];
                assert(!before(x, last));
                if i < sorted.len() - 1 {
                    assert(!before(last, sorted[i]));
                }
                assert(result[i] == sorted[i]);
                if before(x, sorted[i]) {
                    assert(before(x, last));
                }
            }
        }
        assert forall|i: int| 0 <= i < result.len() implies #[trigger] result[i] == x
            || sorted.contains(result[i]) by {
            if i < sorted.len() {
                assert(sorted[i] == result[i]);
            }
        }
    }
}

/// Putting a list in order by rank leaves a list that is in order and holds the
/// same items, each as often as before.
pub proof fn lemma_sorted_by<T>(items: Seq<T>, before: spec_fn(T, T) -> bool)
    requires
        ranks(before),
    ensures
        in_order(sorted_by(items, before), before),
        sorted_by(items, before).to_multiset() == items.to_multiset(),
    decreases items.len(),
{
    broadcast use vstd::seq_lib::group_to_multiset_ensures;

    if items.len() > 0 {
        let rest = items.drop_last();
        assert(items == rest.push(items.last()));
        lemma_sorted_by(rest, before);
        lemma_inserted_in_order(sorted_by(rest, before), items.last(), before);
        assert(sorted_by(items, before).to_multiset() =~= items.to_multiset());
    } else {
        assert(sorted_by(items, before).to_multiset() =~= items.to_multiset());
    }
}

/// The transactions in the order of their dates are in order, and so are the
/// entries in the order of their balances: both orders compare by rank.
pub proof fn lemma_statement_orders()
    ensures
        ranks(earlier()),
        ranks(smaller()),
{
}

/// What holds of every item of a list holds of every item of the list in order,
/// which is as long.
pub proof fn lemma_sorted_by_keeps<T>(
    items: Seq<T>,
    before: spec_fn(T, T) -> bool,
    holds: spec_fn(T) -> bool,
)
    requires
        forall|i: int| 0 <= i < items.len() ==> holds(#[trigger] items[i]),
    ensures
        sorted_by(items, before).len() == items.len(),
        forall|i: int|
            0 <= i < sorted_by(items, before).len() ==> holds(#[trigger] sorted_by(items, before)[i]),
    decreases items.len(),
{
    if items.len() > 0 {
        let rest = items.drop_last();
        assert forall|i: int| 0 <= i < rest.len() implies holds(#[trigger] rest[i]) by {
            assert(rest[i] == items[i]);
        }
        lemma_sorted_by_keeps(rest, before, holds);
        assert(holds(items[items.len() - 1]));
        lemma_inserted_keeps(sorted_by(rest, before), items.last(), before, holds);
    }
}

proof fn lemma_inserted_keeps<T>(
    sorted: Seq<T>,
    x: T,
    before: spec_fn(T, T) -> bool,
    holds: spec_fn(T) -> bool,
)
    requires
        forall|i: int| 0 <= i < sorted.len() ==> holds(#[trigger] sorted[i]),
        holds(x),
    ensures
        inserted(sorted, x, before).len() == sorted.len() + 1,
        forall|i: int|
            0 <= i < inserted(sorted, x, before).len() ==> holds(
                #[trigger] inserted(sorted, x, before)[i],
            ),
    decreases sorted.len(),
{
    if sorted.len() > 0 && before(x, sorted.last()) {
        let rest = sorted.drop_last();
        assert forall|i: int| 0 <= i < rest.len() implies holds(#[trigger] rest[i]) by {
            assert(rest[i] == sorted[i]);
        }
        lemma_inserted_keeps(rest, x, before, holds);
        assert(holds(sorted[sorted.len() - 1]));
    }
}

/// What holds of every transaction of a list holds of every one selected from it.
pub proof fn lemma_selected_keeps(
    transactions: Seq<TransactionView>,
    account: int,
    flow: MoneyFlow,
    holds: spec_fn(TransactionView) -> bool,
)
    requires
        forall|i: int| 0 <= i < transactions.len() ==> holds(#[trigger] transactions[i]),
    ensures
        forall|i: int|
            0 <= i < selected(transactions, account, flow).len() ==> holds(
                #[trigger] selected(transactions, account, flow)[i],
            ),
    decreases transactions.len(),
{
    if transactions.len() > 0 {
        let rest = transactions.drop_last();
        assert forall|i: int| 0 <= i < rest.len() implies holds(#[trigger] rest[i]) by {
            assert(rest[i] == transactions[i]);
        }
        lemma_selected_keeps(rest, account, flow, holds);
        assert(holds(transactions[transactions.len() - 1]));
        let chosen = selected(transactions, account, flow);
        let chosen_before = selected(rest, account, flow);
        assert forall|i: int| 0 <= i < chosen.len() implies holds(#[trigger] chosen[i]) by {
            if i < chosen_before.len() {
                assert(chosen[i] == chosen_before[i]);
            } else {
                assert(chosen[i] == transactions.last());
            }
        }
    }
}

/// What holds of every entry of a list holds of every one that concerns an account.
pub proof fn lemma_concerning_keeps(
    entries: Seq<EntryView>,
    account: int,
    holds: spec_fn(EntryView) -> bool,
)
    requires
        forall|i: int| 0 <= i < entries.len() ==> holds(#[trigger] entries[i]),
    ensures
        forall|i: int|
            0 <= i < concerning(entries, account).len() ==> holds(
                #[trigger] concerning(entries, account)[i],
            ),
    decreases entries.len(),
{
    if entries.len() > 0 {
        let rest = entries.drop_last();
        assert forall|i: int| 0 <= i < rest.len() implies holds(#[trigger] rest[i]) by {
            assert(rest[i] == entries[i]);
        }
        lemma_concerning_keeps(rest, account, holds);
        assert(holds(entries[entries.len() - 1]));
        let chosen = concerning(entries, account);
        let chosen_before = concerning(rest, account);
        assert forall|i: int| 0 <= i < chosen.len() implies holds(#[trigger] chosen[i]) by {
            if i < chosen_before.len() {
                assert(chosen[i] == chosen_before[i]);
            } else {
                assert(chosen[i] == entries.last());
            }
        }
    }
}

/// Appends the line of a transaction: see [`transaction_line`].
fn push_transaction_line(
    out: &mut String,
    transaction: &Transaction,
    flow: MoneyFlow,
    accounts: &Vec<Account>,
)
    requires
        transaction@.within(accounts.len() as int),
    ensures
        final(out)@ == old(out)@ + transaction_line(transaction@, flow, views(accounts@)),
{
    let mut line = transaction.date().to_string();
    let (word, other) = match flow {
        MoneyFlow::In => ("Von", transaction.sender_index()),
        MoneyFlow::Out => ("An", transaction.recipient_index()),
    };
    proof {
        reveal_strlit("Von");
        reveal_strlit("An");
        assert(word@ =~= preposition(flow));
    }
    pad(&mut line, 15 - word.unicode_len());
    line.append(word);
    line.push(' ');
    line.append(accounts[other].name().as_str());
    pad(&mut line, 35);
    add_amount_to_string(transaction.amount() as u128, &mut line);
    pad(&mut line, 50);
    line.append(transaction.note().as_str());
    line.push('\n');
    out.append(line.as_str());
}

/// Appends a table of a statement, given its transactions in the order of their
/// dates.
fn add_transaction_table(
    out: &mut String,
    name: &str,
    money_flow: MoneyFlow,
    accounts: &Vec<Account>,
    transactions: &Vec<Transaction>,
)
    requires
        forall|i: int|
            0 <= i < transactions.len() ==> (#[trigger] transactions@[i])@.within(
                accounts.len() as int,
            ),
    ensures
        final(out)@ == old(out)@ + (if transactions.len() == 0 {
            Seq::<char>::empty()
        } else {
            seq!['\n'] + name@ + seq![':', '\n'] + transaction_lines(
                transaction_views(transactions@),
                money_flow,
                views(accounts@),
            )
        }),
{
    let ghost before = out@;
    if transactions.len() == 0 {
        assert(before + Seq::<char>::empty() =~= before);
        return ;
    }
    out.push('\n');
    out.append(name);
    out.append(":\n");
    proof {
        reveal_strlit(":\n");
    }
    let ghost head = out@;
    let ghost all = transaction_views(transactions@);
    assert(head =~= before + (seq!['\n'] + name@ + seq![':', '\n']));
    assert(all.take(0) =~= Seq::<TransactionView>::empty());
    assert(head + Seq::<char>::empty() =~= head);
    let mut i: usize = 0;
    while i < transactions.len()
        invariant
            i <= transactions.len(),
            all == transaction_views(transactions@),
            forall|i: int|
                0 <= i < transactions.len() ==> (#[trigger] transactions@[i])@.within(
                    accounts.len() as int,
                ),
            out@ == head + transaction_lines(all.take(i as int), money_flow, views(accounts@)),
        decreases transactions.len() - i,
    {
        proof {
            assert(all.take(i + 1).drop_last() =~= all.take(i as int));
            assert(all.take(i + 1).last() == transactions@[i as int]@);
        }
        push_transaction_line(out, &transactions[i], money_flow, accounts);
        assert(out@ =~= head + (transaction_lines(
            all.take(i as int),
            money_flow,
            views(accounts@),
        ) + transaction_line(transactions@[i as int]@, money_flow, views(accounts@))));
        i += 1;
    }
    assert(all.take(transactions.len() as int) =~= all);
    assert(out@ =~= before + (seq!['\n'] + name@ + seq![':', '\n'] + transaction_lines(
        all,
        money_flow,
        views(accounts@),
    )));
}

/// Appends the line of a balance: see [`open_line`].
fn push_open_line(out: &mut String, entry: &BalanceEntry, accounts: &Vec<Account>)
    requires
        entry@.sender < accounts.len(),
        entry@.recipient < accounts.len(),
    ensures
        final(out)@ == old(out)@ + open_line(entry@, views(accounts@)),
        open_line(entry@, views(accounts@)).len() > 0 <==> rounded_cents(entry@.balance) != 0,
{
    let ghost before = out@;
    let cents = round_to_cents(entry.balance());
    if cents == 0 {
        assert(before + Seq::<char>::empty() =~= before);
        return ;
    }
    let (debtor, creditor) = if cents > 0 {
        (entry.recipient_index(), entry.sender_index())
    } else {
        (entry.sender_index(), entry.recipient_index())
    };
    let mut line = accounts[debtor].name().clone();
    line.append(" -> ");
    line.append(accounts[creditor].name().as_str());
    proof {
        reveal_strlit(" -> ");
        assert(" -> "@ =~= seq![' ', '-', '>', ' ']);
    }
    pad(&mut line, 35);
    let size = magnitude(cents);
    assert(size <= 17_014_118_346_046_923_173_168_730_371_588_411u128);
    assert(size * 10_000 <= u128::MAX) by (nonlinear_arith)
        requires
            size <= 17_014_118_346_046_923_173_168_730_371_588_411u128,
    ;
    let amount: u128 = size * 10_000;
    add_amount_to_string(amount, &mut line);
    line.push('\n');
    out.append(line.as_str());
}

/// Appends the lines of the balances: see [`open_lines`]. Says whether there was
/// anything to append.
fn push_open_lines(out: &mut String, entries: &Vec<BalanceEntry>, accounts: &Vec<Account>) -> (r:
    bool)
    requires
        forall|i: int|
            0 <= i < entries.len() ==> (#[trigger] entries@[i])@.sender < accounts.len()
                && entries@[i]@.recipient < accounts.len(),
    ensures
        final(out)@ == old(out)@ + open_lines(entry_views(entries@), views(accounts@)),
        r == (open_lines(entry_views(entries@), views(accounts@)).len() > 0),
{
    let ghost before = out@;
    let ghost all = entry_views(entries@);
    let mut found = false;
    assert(all.take(0) =~= Seq::<EntryView>::empty());
    assert(before + Seq::<char>::empty() =~= before);
    let mut i: usize = 0;
    while i < entries.len()
        invariant
            i <= entries.len(),
            all == entry_views(entries@),
            forall|i: int|
                0 <= i < entries.len() ==> (#[trigger] entries@[i])@.sender < accounts.len()
                    && entries@[i]@.recipient < accounts.len(),
            out@ == before + open_lines(all.take(i as int), views(accounts@)),
            found == (open_lines(all.take(i as int), views(accounts@)).len() > 0),
        decreases entries.len() - i,
    {
        proof {
            assert(all.take(i + 1).drop_last() =~= all.take(i as int));
            assert(all.take(i + 1).last() == entries@[i as int]@);
        }
        let entry = &entries[i];
        if round_to_cents(entry.balance()) != 0 {
            found = true;
        }
        push_open_line(out, entry, accounts);
        assert(out@ =~= before + (open_lines(all.take(i as int), views(accounts@)) + open_line(
            entries@[i as int]@,
            views(accounts@),
        )));
        i += 1;
    }
    assert(all.take(entries.len() as int) =~= all);
    found
}

/// The statement of an account, ready to be written to a file.
#[derive(Debug)]
pub struct Statement {
    /// The first line of the statement.
    pub title: String,
    /// The name of the file to write the statement to.
    pub file_name: String,
    /// The whole statement, title included.
    pub text: String,
}

/// Why no statement could be made.
#[derive(Clone, Copy, Debug, PartialEq, Eq, Structural)]
pub enum StatementError {
    /// The ledger has no account with this acronym.
    UnknownAcronym,
    /// A balance is about an account that the ledger does not have.
    ForeignBalance,
}

/// Every entry is about two accounts among the first `count`.
pub open spec fn entries_within(entries: Seq<EntryView>, count: int) -> bool {
    forall|i: int|
        0 <= i < entries.len() ==> (#[trigger] entries[i]).sender < count && entries[i].recipient
            < count
}

/// Whether every entry is about two accounts among the first `count`.
fn check_entries(entries: &Vec<BalanceEntry>, count: usize) -> (r: bool)
    ensures
        r == entries_within(entry_views(entries@), count as int),
{
    let ghost all = entry_views(entries@);
    let mut i: usize = 0;
    while i < entries.len()
        invariant
            i <= entries.len(),
            all == entry_views(entries@),
            forall|j: int|
                0 <= j < i ==> (#[trigger] all[j]).sender < count && all[j].recipient < count,
        decreases entries.len() - i,
    {
        assert(all[i as int] == entries@[i as int]@);
        if entries[i].sender_index() >= count || entries[i].recipient_index() >= count {
            return false;
        }
        i += 1;
    }
    true
}

/// The name of the file of a statement: see [`file_name_text`].
pub fn file_name(title: &String) -> (r: String)
    ensures
        r@ == file_name_text(title@),
{
    let chars = chars_of(title.as_str());
    let ghost turned = title@.map_values(
        |c: char|
            if c == '.' {
                '_'
            } else {
                c
            },
    );
    let mut out = String::new();
    let mut i: usize = 0;
    while i < chars.len()
        invariant
            i <= chars.len(),
            chars@ == title@,
            turned == title@.map_values(
                |c: char|
                    if c == '.' {
                        '_'
                    } else {
                        c
                    },
            ),
            out@ == turned.take(i as int),
        decreases chars.len() - i,
    {
        let c = chars[i];
        out.push(
            if c == '.' {
                '_'
            } else {
                c
            },
        );
        i += 1;
        assert(out@ =~= turned.take(i as int));
    }
    assert(turned.take(chars.len() as int) =~= turned);
    out.append(".txt");
    proof {
        reveal_strlit(".txt");
        assert(".txt"@ =~= seq!['.', 't', 'x', 't']);
    }
    out
}

/// Appends the table of the transactions of `account` with money going the way of
/// `money_flow`: see [`table_text`].
fn push_table(
    out: &mut String,
    name: &str,
    money_flow: MoneyFlow,
    transactions: &Vec<Transaction>,
    accounts: &Vec<Account>,
    account: usize,
)
    requires
        forall|i: int|
            0 <= i < transactions.len() ==> (#[trigger] transactions@[i])@.within(
                accounts.len() as int,
            ),
    ensures
        final(out)@ == old(out)@ + table_text(
            name@,
            money_flow,
            views(accounts@),
            selected(transaction_views(transactions@), account as int, money_flow),
        ),
{
    let chosen = sorted_selection(transactions, account, money_flow);
    proof {
        let count = accounts.len() as int;
        let fits = |t: TransactionView| t.within(count);
        let all = transaction_views(transactions@);
        assert forall|i: int| 0 <= i < all.len() implies fits(#[trigger] all[i]) by {
            assert(all[i] == transactions@[i]@);
        }
        lemma_selected_keeps(all, account as int, money_flow, fits);
        lemma_sorted_by_keeps(selected(all, account as int, money_flow), earlier(), fits);
        assert forall|i: int| 0 <= i < chosen.len() implies (#[trigger] chosen@[i])@.within(
            count,
        ) by {
            assert(fits(transaction_views(chosen@)[i]));
        }
    }
    add_transaction_table(out, name, money_flow, accounts, &chosen);
}

/// Appends what is still open for `account`: see [`open_text`].
fn push_open_text(
    out: &mut String,
    entries: &Vec<BalanceEntry>,
    accounts: &Vec<Account>,
    account: usize,
)
    requires
        entries_within(entry_views(entries@), accounts.len() as int),
    ensures
        final(out)@ == old(out)@ + open_text(
            entry_views(entries@),
            views(accounts@),
            account as int,
        ),
{
    let open = sorted_entries(entries, account);
    proof {
        let count = accounts.len() as int;
        let near = |e: EntryView| e.sender < count && e.recipient < count;
        let all = entry_views(entries@);
        assert forall|i: int| 0 <= i < all.len() implies near(#[trigger] all[i]) by {}
        lemma_concerning_keeps(all, account as int, near);
        lemma_sorted_by_keeps(concerning(all, account as int), smaller(), near);
        assert forall|i: int| 0 <= i < open.len() implies (#[trigger] open@[i])@.sender < count
            && open@[i]@.recipient < count by {
            assert(near(entry_views(open@)[i]));
        }
    }
    let ghost head = out@;
    let uncleared_balance_found = push_open_lines(out, &open, accounts);
    if !uncleared_balance_found {
        out.append("-\n");
        proof {
            reveal_strlit("-\n");
            assert("-\n"@ =~= seq!['-', '\n']);
            assert(out@ =~= head + seq!['-', '\n']);
        }
    }
}

/// The title of the statement of the account at `account`: see [`title_text`].
fn title_of(ledger: &Ledger, account: usize) -> (r: String)
    requires
        account < ledger@.accounts.len(),
    ensures
        r@ == title_text(ledger@, account as int),
{
    let accounts = ledger.accounts();
    let mut title = String::from_str("WG Abrechnung ");
    let today = ledger.accounting_date().to_string();
    title.append(today.as_str());
    title.push(' ');
    assert(ledger@.accounts[account as int] == accounts@[account as int]@);
    title.append(accounts[account].name().as_str());
    assert(title@ =~= title_text(ledger@, account as int));
    title
}

/// The statement of the account with the given acronym: see [`statement_of`].
pub fn generate(ledger: &Ledger, balance: &Balance, acronym: &String) -> (r: Result<
    Statement,
    StatementError,
>)
    ensures
        match r {
            Ok(statement) => {
                &&& position(ledger@.accounts, acronym@) is Some
                &&& entries_within(balance@, ledger@.accounts.len() as int)
                &&& statement.title@ == title_text(
                    ledger@,
                    position(ledger@.accounts, acronym@)->0,
                )
                &&& statement.file_name@ == file_name_text(statement.title@)
                &&& statement.text@ == statement_of(
                    ledger@,
                    balance@,
                    position(ledger@.accounts, acronym@)->0,
                )
            },
            Err(StatementError::UnknownAcronym) => position(ledger@.accounts, acronym@) is None,
            Err(StatementError::ForeignBalance) => position(ledger@.accounts, acronym@) is Some
                && !entries_within(balance@, ledger@.accounts.len() as int),
        },
{
    let accounts = ledger.accounts();
    let account_index = match find(acronym, accounts) {
        Some(index) => index,
        None => {
            return Err(StatementError::UnknownAcronym);
        },
    };
    if !check_entries(balance.entries(), accounts.len()) {
        return Err(StatementError::ForeignBalance);
    }
    let invoices = ledger.invoices();
    let payments = ledger.payments();
    proof {
        assert forall|i: int| 0 <= i < invoices.len() implies (#[trigger] invoices@[i])@.within(
            accounts.len() as int,
        ) by {
            assert(ledger@.invoices[i] == invoices@[i]@);
        }
        assert forall|i: int| 0 <= i < payments.len() implies (#[trigger] payments@[i])@.within(
            accounts.len() as int,
        ) by {
            assert(ledger@.payments[i] == payments@[i]@);
        }
    }
    let title = title_of(ledger, account_index);
    let mut text = title.clone();
    text.push('\n');
    push_table(&mut text, "Zu zahlen", MoneyFlow::Out, invoices, accounts, account_index);
    push_table(&mut text, "Zu gute", MoneyFlow::In, invoices, accounts, account_index);
    push_table(&mut text, "Gezahlt", MoneyFlow::Out, payments, accounts, account_index);
    push_table(&mut text, "Erhalten", MoneyFlow::In, payments, accounts, account_index);
    text.append("\nNoch offen:\n");
    push_open_text(&mut text, balance.entries(), accounts, account_index);
    let file_name = file_name(&title);
    Ok(Statement { title, file_name, text })
}

} // verus!
