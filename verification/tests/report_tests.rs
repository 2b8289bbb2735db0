use household_ledger::balance::Balance;
use household_ledger::date::Date;
use household_ledger::ledger::Ledger;
use household_ledger::report_txt::{
    file_name, generate, pad, sorted_entries, sorted_selection, MoneyFlow, StatementError,
};
use household_ledger::transaction::Transaction;

const TEXT: &str = "today 1.2.2024\n\
account AA Alice\n\
account BB Bob\n\
account CC Carol\n\
account DD Dan\n\
invoice AA -> BB 30.00 5.1.2024 Miete\n\
invoice BB -> AA 12.50 3.1.2024 Strom\n\
invoice AA : CC -> BB 20.00 1.1.2024 Einkauf\n\
payment AA -> BB 10.00 10.1.2024 Teil\n\
payment CC -> AA 1.05 11.1.2024 Bier\n";

fn spaces(n: usize) -> String {
    " ".repeat(n)
}

#[test]
fn statement_of_an_account_with_everything() {
    let ledger = Ledger::new(TEXT).unwrap();
    let balance = Balance::fold(ledger.invoices(), ledger.payments()).unwrap();
    let statement = generate(&ledger, &balance, &String::from("AA")).unwrap();
    assert_eq!(statement.title, "WG Abrechnung 1.2.2024 Alice");
    assert_eq!(statement.file_name, "WG Abrechnung 1_2_2024 Alice.txt");
    let mut expected = String::new();
    expected += "WG Abrechnung 1.2.2024 Alice\n";
    expected += "\nZu zahlen:\n";
    expected += &format!("1.1.2024{}An Bob{}10.- CHF{}Einkauf\n", spaces(5), spaces(16), spaces(7));
    expected += &format!("5.1.2024{}An Bob{}30.- CHF{}Miete\n", spaces(5), spaces(16), spaces(7));
    expected += "\nZu gute:\n";
    expected += &format!("3.1.2024{}Von Bob{}12.50 CHF{}Strom\n", spaces(4), spaces(16), spaces(6));
    expected += "\nGezahlt:\n";
    expected += &format!("10.1.2024{}An Bob{}10.- CHF{}Teil\n", spaces(4), spaces(16), spaces(7));
    expected += "\nErhalten:\n";
    expected += &format!("11.1.2024{}Von Carol{}1.5 CHF{}Bier\n", spaces(3), spaces(14), spaces(8));
    expected += "\nNoch offen:\n";
    expected += &format!("Alice -> Bob{}17.50 CHF\n", spaces(23));
    expected += &format!("Alice -> Carol{}1.5 CHF\n", spaces(21));
    assert_eq!(statement.text, expected);
}

#[test]
fn statement_of_an_account_with_nothing() {
    let ledger = Ledger::new(TEXT).unwrap();
    let balance = Balance::fold(ledger.invoices(), ledger.payments()).unwrap();
    let statement = generate(&ledger, &balance, &String::from("DD")).unwrap();
    assert_eq!(statement.text, "WG Abrechnung 1.2.2024 Dan\n\nNoch offen:\n-\n");
    assert_eq!(statement.file_name, "WG Abrechnung 1_2_2024 Dan.txt");
}

#[test]
fn settled_balance_is_shown_as_a_dash() {
    let text = "today 1.2.2024\naccount AA Alice\naccount BB Bob\n\
                invoice AA -> BB 30.00 1.1.2024 note\n\
                payment AA -> BB 30.00 2.1.2024 note2\n";
    let ledger = Ledger::new(text).unwrap();
    let balance = Balance::fold(ledger.invoices(), ledger.payments()).unwrap();
    let statement = generate(&ledger, &balance, &String::from("BB")).unwrap();
    let mut expected = String::from("WG Abrechnung 1.2.2024 Bob\n");
    expected += "\nZu gute:\n";
    expected += &format!("1.1.2024{}Von Alice{}30.- CHF{}note\n", spaces(4), spaces(14), spaces(7));
    expected += "\nErhalten:\n";
    expected += &format!("2.1.2024{}Von Alice{}30.- CHF{}note2\n", spaces(4), spaces(14), spaces(7));
    expected += "\nNoch offen:\n-\n";
    assert_eq!(statement.text, expected);
}

#[test]
fn balance_below_half_a_cent_counts_as_settled() {
    let text = "today 1.2.2024\naccount AA Alice\naccount BB Bob\naccount CC Carol\n\
                account DD Dan\n\
                invoice AA : BB : CC -> DD 10.00 1.1.2024 thirds\n\
                payment AA -> DD 3.33 2.1.2024 back\n\
                payment BB -> DD 3.34 2.1.2024 back\n\
                payment CC -> DD 3.328333 2.1.2024 back\n";
    let ledger = Ledger::new(text).unwrap();
    let balance = Balance::fold(ledger.invoices(), ledger.payments()).unwrap();
    let balances: Vec<i128> = balance.entries().iter().map(|e| e.balance()).collect();
    assert_eq!(balances, vec![-3_333, 6_667, -5_000]);
    let statement = generate(&ledger, &balance, &String::from("DD")).unwrap();
    let open = statement.text.split("\nNoch offen:\n").nth(1).unwrap().to_string();
    assert_eq!(
        open,
        format!("Carol -> Dan{}0.1 CHF\nDan -> Bob{}0.1 CHF\n", spaces(23), spaces(25))
    );
}

#[test]
fn long_names_push_the_columns_to_the_right() {
    let text = "today 1.2.2024\naccount AA A name that is much longer than the column is wide\n\
                account BB Bob\ninvoice BB -> AA 1234567.891 1.1.2024 note\n";
    let ledger = Ledger::new(text).unwrap();
    let balance = Balance::fold(ledger.invoices(), ledger.payments()).unwrap();
    let statement = generate(&ledger, &balance, &String::from("BB")).unwrap();
    let mut expected = String::from("WG Abrechnung 1.2.2024 Bob\n\nZu zahlen:\n");
    expected += "1.1.2024     An A name that is much longer than the column is wide1234567.89 CHFnote\n";
    expected += "\nNoch offen:\n";
    expected += &format!("Bob -> A name that is much longer than the column is wide1234567.89 CHF\n");
    assert_eq!(statement.text, expected);
}

#[test]
fn statement_needs_a_declared_acronym() {
    let ledger = Ledger::new(TEXT).unwrap();
    let balance = Balance::fold(ledger.invoices(), ledger.payments()).unwrap();
    assert_eq!(
        generate(&ledger, &balance, &String::from("ZZ")).unwrap_err(),
        StatementError::UnknownAcronym
    );
}

#[test]
fn statement_needs_a_balance_of_the_same_ledger() {
    let ledger = Ledger::new("today 1.2.2024\naccount AA Alice\naccount BB Bob\n").unwrap();
    let other = Ledger::new(TEXT).unwrap();
    let balance = Balance::fold(other.invoices(), other.payments()).unwrap();
    assert_eq!(
        generate(&ledger, &balance, &String::from("AA")).unwrap_err(),
        StatementError::ForeignBalance
    );
    assert_eq!(
        generate(&ledger, &balance, &String::from("CC")).unwrap_err(),
        StatementError::UnknownAcronym
    );
}

#[test]
fn transactions_of_one_day_keep_their_order() {
    let day = |d: u32| Date::new(d, 1, 2024).unwrap();
    let list = vec![
        Transaction::new(0, 1, 1, day(3), String::from("a")),
        Transaction::new(0, 2, 2, day(1), String::from("b")),
        Transaction::new(1, 0, 3, day(2), String::from("c")),
        Transaction::new(0, 1, 4, day(1), String::from("d")),
        Transaction::new(2, 0, 5, day(2), String::from("e")),
        Transaction::new(0, 2, 6, day(3), String::from("f")),
        Transaction::new(1, 2, 7, day(1), String::from("g")),
    ];
    let out: Vec<String> =
        sorted_selection(&list, 0, MoneyFlow::Out).iter().map(|t| t.note()).collect();
    assert_eq!(out, vec!["b", "d", "a", "f"]);
    let inn: Vec<String> =
        sorted_selection(&list, 0, MoneyFlow::In).iter().map(|t| t.note()).collect();
    assert_eq!(inn, vec!["c", "e"]);
    assert!(sorted_selection(&list, 3, MoneyFlow::In).is_empty());
}

#[test]
fn entries_are_sorted_by_balance() {
    let mut b = Balance::new();
    let day = Date::new(1, 1, 2024).unwrap();
    b.add_payment(&Transaction::new(0, 1, 5, day, String::new())).unwrap();
    b.add_invoice(&Transaction::new(2, 0, 7, day, String::new())).unwrap();
    b.add_payment(&Transaction::new(1, 2, 9, day, String::new())).unwrap();
    b.add_payment(&Transaction::new(0, 3, 5, day, String::new())).unwrap();
    b.add_invoice(&Transaction::new(4, 0, 7, day, String::new())).unwrap();
    let sorted: Vec<(usize, usize, i128)> = sorted_entries(b.entries(), 0)
        .iter()
        .map(|e| (e.sender_index(), e.recipient_index(), e.balance()))
        .collect();
    assert_eq!(sorted, vec![(2, 0, -7), (4, 0, -7), (0, 1, 5), (0, 3, 5)]);
}

#[test]
fn pad_fills_up_to_the_width_and_no_further() {
    let mut s = String::from("abc");
    pad(&mut s, 5);
    assert_eq!(s, "abc  ");
    pad(&mut s, 5);
    assert_eq!(s, "abc  ");
    pad(&mut s, 2);
    assert_eq!(s, "abc  ");
    let mut u = String::from("äöü");
    pad(&mut u, 4);
    assert_eq!(u, "äöü ");
    let mut e = String::new();
    pad(&mut e, 0);
    assert_eq!(e, "");
}

#[test]
fn file_name_turns_full_stops_into_underscores() {
    assert_eq!(file_name(&String::from("a.b.c")), "a_b_c.txt");
    assert_eq!(file_name(&String::new()), ".txt");
    assert_eq!(file_name(&String::from("Süd")), "Süd.txt");
}
