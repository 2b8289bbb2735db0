use household_ledger::account::Account;
use household_ledger::balance::{Balance, BalanceEntry, Overflow};
use household_ledger::date::Date;
use household_ledger::transaction::Transaction;

fn tx(sender: usize, recipient: usize, amount: u64) -> Transaction {
    Transaction::new(sender, recipient, amount, Date::new(1, 1, 2024).unwrap(), String::from("n"))
}

fn entries(balance: &Balance) -> Vec<(usize, usize, i128)> {
    balance
        .entries()
        .iter()
        .map(|e| (e.sender_index(), e.recipient_index(), e.balance()))
        .collect()
}

#[test]
fn new_balance_is_empty() {
    assert!(Balance::new().entries().is_empty());
}

#[test]
fn entry_keeps_what_it_was_made_with() {
    let e = BalanceEntry::new(3, 1, -25);
    assert_eq!((e.sender_index(), e.recipient_index(), e.balance()), (3, 1, -25));
}

#[test]
fn invoice_counts_with_a_minus_sign() {
    let mut b = Balance::new();
    assert_eq!(b.add_invoice(&tx(0, 1, 30)), Ok(()));
    assert_eq!(entries(&b), vec![(0, 1, -30)]);
}

#[test]
fn payment_counts_with_a_plus_sign() {
    let mut b = Balance::new();
    assert_eq!(b.add_payment(&tx(0, 1, 30)), Ok(()));
    assert_eq!(entries(&b), vec![(0, 1, 30)]);
}

#[test]
fn same_direction_adds_and_opposite_direction_subtracts() {
    let mut b = Balance::new();
    b.add_invoice(&tx(0, 1, 30)).unwrap();
    b.add_invoice(&tx(0, 1, 12)).unwrap();
    assert_eq!(entries(&b), vec![(0, 1, -42)]);
    b.add_invoice(&tx(1, 0, 2)).unwrap();
    assert_eq!(entries(&b), vec![(0, 1, -40)]);
    b.add_payment(&tx(1, 0, 5)).unwrap();
    assert_eq!(entries(&b), vec![(0, 1, -45)]);
    b.add_payment(&tx(0, 1, 45)).unwrap();
    assert_eq!(entries(&b), vec![(0, 1, 0)]);
}

#[test]
fn entries_come_in_the_order_of_first_sight_and_keep_their_direction() {
    let mut b = Balance::new();
    b.add_invoice(&tx(2, 1, 1)).unwrap();
    b.add_invoice(&tx(0, 1, 2)).unwrap();
    b.add_payment(&tx(1, 2, 4)).unwrap();
    b.add_invoice(&tx(0, 2, 8)).unwrap();
    b.add_payment(&tx(1, 0, 16)).unwrap();
    assert_eq!(entries(&b), vec![(2, 1, -5), (0, 1, -18), (0, 2, -8)]);
}

#[test]
fn zero_amount_is_always_taken() {
    let mut b = Balance::from_entries(vec![BalanceEntry::new(0, 1, i128::MAX)]).unwrap();
    assert_eq!(b.add_payment(&tx(0, 1, 0)), Ok(()));
    assert_eq!(b.add_invoice(&tx(1, 0, 0)), Ok(()));
    assert_eq!(entries(&b), vec![(0, 1, i128::MAX)]);
}

#[test]
fn settled_entry_stays() {
    let mut b = Balance::new();
    b.add_invoice(&tx(0, 1, 30)).unwrap();
    b.add_payment(&tx(0, 1, 30)).unwrap();
    assert_eq!(entries(&b), vec![(0, 1, 0)]);
}

#[test]
fn zero_amount_changes_no_balance() {
    let mut b = Balance::new();
    b.add_invoice(&tx(0, 1, 30)).unwrap();
    b.add_invoice(&tx(2, 1, 7)).unwrap();
    let before = entries(&b);
    b.add_invoice(&tx(0, 1, 0)).unwrap();
    b.add_payment(&tx(1, 0, 0)).unwrap();
    b.add_payment(&tx(1, 2, 0)).unwrap();
    assert_eq!(entries(&b), before);
    b.add_invoice(&tx(0, 2, 0)).unwrap();
    assert_eq!(entries(&b)[..2], before[..]);
    assert_eq!(entries(&b)[2], (0, 2, 0));
}

fn net(balance: &Balance, a: usize, b: usize) -> i128 {
    balance
        .entries()
        .iter()
        .map(|e| {
            if (e.sender_index(), e.recipient_index()) == (a, b) {
                e.balance()
            } else if (e.sender_index(), e.recipient_index()) == (b, a) {
                -e.balance()
            } else {
                0
            }
        })
        .sum()
}

#[test]
fn netting_does_not_depend_on_the_order() {
    let list = [(0usize, 1usize, 30u64, true), (1, 0, 12, false), (1, 2, 5, true), (0, 1, 7, false)];
    let orders: [[usize; 4]; 6] =
        [[0, 1, 2, 3], [3, 2, 1, 0], [1, 0, 3, 2], [2, 3, 0, 1], [1, 3, 0, 2], [3, 0, 2, 1]];
    let mut results: Vec<Vec<i128>> = Vec::new();
    for order in orders.iter() {
        let mut b = Balance::new();
        for k in order.iter() {
            let (s, r, amount, invoice) = list[*k];
            if invoice {
                b.add_invoice(&tx(s, r, amount)).unwrap();
            } else {
                b.add_payment(&tx(s, r, amount)).unwrap();
            }
        }
        assert_eq!(b.entries().len(), 2);
        results.push(vec![net(&b, 0, 1), net(&b, 1, 2), net(&b, 0, 2)]);
    }
    for r in results.iter() {
        assert_eq!(*r, vec![-30 - 12 + 7, -5, 0]);
    }
}

#[test]
fn fold_takes_invoices_first_and_then_payments() {
    let invoices = vec![tx(0, 1, 30), tx(2, 0, 4)];
    let payments = vec![tx(1, 2, 9), tx(1, 0, 10)];
    let b = Balance::fold(&invoices, &payments).unwrap();
    assert_eq!(entries(&b), vec![(0, 1, -40), (2, 0, -4), (1, 2, 9)]);
    let none = Balance::fold(&Vec::new(), &Vec::new()).unwrap();
    assert!(none.entries().is_empty());
}

#[test]
fn largest_amount_is_netted_exactly() {
    let mut b = Balance::new();
    b.add_payment(&tx(0, 1, u64::MAX)).unwrap();
    b.add_payment(&tx(0, 1, u64::MAX)).unwrap();
    assert_eq!(entries(&b), vec![(0, 1, 2 * (u64::MAX as i128))]);
    b.add_invoice(&tx(1, 0, u64::MAX)).unwrap();
    assert_eq!(entries(&b), vec![(0, 1, 3 * (u64::MAX as i128))]);
    assert_eq!(Overflow, Overflow);
}

#[test]
fn balance_that_leaves_the_range_is_refused() {
    let mut b = Balance::from_entries(vec![
        BalanceEntry::new(0, 1, i128::MAX - 5),
        BalanceEntry::new(2, 1, i128::MIN + 5),
    ])
    .unwrap();
    assert_eq!(b.add_payment(&tx(0, 1, 5)), Ok(()));
    let full = vec![(0, 1, i128::MAX), (2, 1, i128::MIN + 5)];
    assert_eq!(entries(&b), full);
    assert_eq!(b.add_payment(&tx(0, 1, 1)), Err(Overflow));
    assert_eq!(entries(&b), full);
    assert_eq!(b.add_invoice(&tx(1, 0, 1)), Err(Overflow));
    assert_eq!(entries(&b), full);
    assert_eq!(b.add_payment(&tx(0, 1, 0)), Ok(()));
    assert_eq!(b.add_invoice(&tx(2, 1, 5)), Ok(()));
    let fuller = vec![(0, 1, i128::MAX), (2, 1, i128::MIN)];
    assert_eq!(entries(&b), fuller);
    assert_eq!(b.add_invoice(&tx(2, 1, 1)), Err(Overflow));
    assert_eq!(b.add_payment(&tx(1, 2, 1)), Err(Overflow));
    assert_eq!(entries(&b), fuller);
    assert_eq!(b.add_invoice(&tx(0, 1, u64::MAX)), Ok(()));
    assert_eq!(entries(&b), vec![(0, 1, i128::MAX - u64::MAX as i128), (2, 1, i128::MIN)]);
}

#[test]
fn from_entries_wants_one_entry_for_a_pair() {
    assert!(Balance::from_entries(Vec::new()).unwrap().entries().is_empty());
    let b = Balance::from_entries(vec![
        BalanceEntry::new(0, 1, 5),
        BalanceEntry::new(1, 2, -5),
        BalanceEntry::new(2, 0, 0),
    ])
    .unwrap();
    assert_eq!(entries(&b), vec![(0, 1, 5), (1, 2, -5), (2, 0, 0)]);
    assert!(Balance::from_entries(vec![BalanceEntry::new(0, 1, 5), BalanceEntry::new(0, 1, 6)])
        .is_none());
    assert!(Balance::from_entries(vec![
        BalanceEntry::new(0, 1, 5),
        BalanceEntry::new(2, 1, 5),
        BalanceEntry::new(1, 0, 6)
    ])
    .is_none());
}

#[test]
fn balances_are_written_line_by_line() {
    let accounts = vec![
        Account::new(String::from("AA"), String::from("Alice")).unwrap(),
        Account::new(String::from("BB"), String::from("Bob")).unwrap(),
        Account::new(String::from("CC"), String::from("Carol")).unwrap(),
    ];
    let mut b = Balance::new();
    assert_eq!(b.to_string(&accounts), "Balance:\n");
    b.add_invoice(&tx(0, 1, 30_000_000)).unwrap();
    b.add_payment(&tx(2, 1, 1_250_000)).unwrap();
    b.add_payment(&tx(0, 2, 3_333_333)).unwrap();
    assert_eq!(
        b.to_string(&accounts),
        "Balance:\nAA -> BB -30.00 CHF\nCC -> BB 1.25 CHF\nAA -> CC 3.333333 CHF\n"
    );
}

#[test]
fn add_transaction_nets_a_signed_amount() {
    let mut b = Balance::new();
    assert_eq!(b.add_transaction(0, 1, -30), Ok(()));
    assert_eq!(b.add_transaction(1, 0, 5), Ok(()));
    assert_eq!(b.add_transaction(2, 0, 7), Ok(()));
    assert_eq!(b.add_transaction(0, 1, 10), Ok(()));
    assert_eq!(entries(&b), vec![(0, 1, -25), (2, 0, 7)]);
    assert_eq!(b.add_transaction(0, 2, i128::MIN), Err(Overflow));
    assert_eq!(b.add_transaction(2, 0, i128::MAX), Err(Overflow));
    assert_eq!(entries(&b), vec![(0, 1, -25), (2, 0, 7)]);
    assert_eq!(b.add_transaction(0, 2, i128::MAX), Ok(()));
    assert_eq!(entries(&b), vec![(0, 1, -25), (2, 0, 7 - i128::MAX)]);
}

#[test]
fn zero_amount_between_known_accounts_changes_nothing_at_all() {
    let mut b = Balance::from_entries(vec![
        BalanceEntry::new(0, 1, 12),
        BalanceEntry::new(2, 1, -4),
        BalanceEntry::new(0, 2, 0),
    ])
    .unwrap();
    let before = entries(&b);
    for (s, r) in [(0, 1), (1, 0), (2, 1), (1, 2), (0, 2), (2, 0)] {
        assert_eq!(b.add_transaction(s, r, 0), Ok(()));
        assert_eq!(entries(&b), before);
    }
}

#[test]
fn order_does_not_matter_where_the_directions_are_given() {
    let list: [(usize, usize, i128); 5] = [(0, 1, 30), (1, 0, -12), (2, 1, 5), (1, 2, 7), (0, 1, -1)];
    let orders: [[usize; 5]; 5] =
        [[0, 1, 2, 3, 4], [4, 3, 2, 1, 0], [2, 0, 4, 1, 3], [1, 3, 0, 4, 2], [3, 4, 1, 2, 0]];
    for order in orders.iter() {
        let mut b = Balance::from_entries(vec![BalanceEntry::new(1, 0, 100), BalanceEntry::new(1, 2, 0)])
            .unwrap();
        for k in order.iter() {
            let (s, r, amount) = list[*k];
            b.add_transaction(s, r, amount).unwrap();
        }
        assert_eq!(entries(&b), vec![(1, 0, 100 - 30 - 12 + 1), (1, 2, -5 + 7)]);
    }
}

#[test]
fn entries_run_as_their_pairs_were_first_seen() {
    let list: [(usize, usize, i128); 4] = [(0, 1, 30), (1, 0, -12), (2, 1, 5), (1, 2, 7)];
    let mut forward = Balance::new();
    for (s, r, amount) in list.iter() {
        forward.add_transaction(*s, *r, *amount).unwrap();
    }
    assert_eq!(entries(&forward), vec![(0, 1, 42), (2, 1, -2)]);
    let mut backward = Balance::new();
    for (s, r, amount) in list.iter().rev() {
        backward.add_transaction(*s, *r, *amount).unwrap();
    }
    assert_eq!(entries(&backward), vec![(1, 2, 2), (1, 0, -42)]);
}
