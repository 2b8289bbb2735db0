use household_ledger::balance::Balance;
use household_ledger::date::Date;
use household_ledger::account::Account;
use household_ledger::ledger::{push_on_dates, resolve, split_lines, ErrorKind, Ledger};
use household_ledger::transaction::Transaction;

fn date(day: u32, month: u32, year: i32) -> Date {
    Date::new(day, month, year).unwrap()
}

fn shape(t: &Transaction) -> (usize, usize, u64, Date, String) {
    (t.sender_index(), t.recipient_index(), t.amount(), t.date(), t.note())
}

#[test]
fn round_trip_settles_the_pair() {
    let text = "today 1.2.2024\naccount AA Alice\naccount BB Bob\n\
                invoice AA -> BB 30.00 1.1.2024 note\n\
                payment AA -> BB 30.00 2.1.2024 note2\n";
    let ledger = Ledger::new(text).unwrap();
    assert_eq!(ledger.accounting_date(), date(1, 2, 2024));
    assert_eq!(ledger.accounts().len(), 2);
    assert_eq!(ledger.accounts()[0].acronym(), "AA");
    assert_eq!(ledger.accounts()[0].name(), "Alice");
    assert_eq!(ledger.accounts()[1].acronym(), "BB");
    assert_eq!(ledger.accounts()[1].name(), "Bob");
    assert_eq!(ledger.invoices().len(), 1);
    assert_eq!(
        shape(&ledger.invoices()[0]),
        (0, 1, 30_000_000, date(1, 1, 2024), "note".to_string())
    );
    assert_eq!(ledger.payments().len(), 1);
    assert_eq!(
        shape(&ledger.payments()[0]),
        (0, 1, 30_000_000, date(2, 1, 2024), "note2".to_string())
    );
    let balance = Balance::fold(ledger.invoices(), ledger.payments()).unwrap();
    assert_eq!(balance.entries().len(), 1);
    let entry = balance.entries()[0];
    assert_eq!(entry.sender_index(), 0);
    assert_eq!(entry.recipient_index(), 1);
    assert_eq!(entry.balance(), 0);
}

#[test]
fn monthly_recurrence_includes_both_bounds() {
    let text = "today 1.5.2024\naccount AA Alice\naccount BB Bob\n\
                invoice AA -> BB 12.50 1.1.2024 - 1.4.2024 : 0.1.0000 rent";
    let ledger = Ledger::new(text).unwrap();
    let dates: Vec<Date> = ledger.invoices().iter().map(|t| t.date()).collect();
    assert_eq!(
        dates,
        vec![date(1, 1, 2024), date(1, 2, 2024), date(1, 3, 2024), date(1, 4, 2024)]
    );
    for invoice in ledger.invoices() {
        assert_eq!(invoice.amount(), 12_500_000);
        assert_eq!(invoice.note(), "rent");
        assert_eq!((invoice.sender_index(), invoice.recipient_index()), (0, 1));
    }
}

#[test]
fn recurrence_is_capped_by_the_reference_date() {
    let text = "today 15.2.2024\naccount AA Alice\naccount BB Bob\n\
                invoice AA -> BB 1.0 1.1.2024 - 1.4.2024 : 0.1.0000 rent";
    let ledger = Ledger::new(text).unwrap();
    let dates: Vec<Date> = ledger.invoices().iter().map(|t| t.date()).collect();
    assert_eq!(dates, vec![date(1, 1, 2024), date(1, 2, 2024)]);
}

#[test]
fn future_invoice_contributes_nothing() {
    let text = "today 1.2.2024\naccount AA Alice\naccount BB Bob\n\
                invoice AA -> BB 30.00 2.2.2024 later\n\
                invoice AA -> BB 30.00 2.2.2024 - 1.1.2030 : 0.1.0000 later still\n";
    let ledger = Ledger::new(text).unwrap();
    assert_eq!(ledger.invoices().len(), 0);
    let balance = Balance::fold(ledger.invoices(), ledger.payments()).unwrap();
    assert_eq!(balance.entries().len(), 0);
}

#[test]
fn invoice_on_the_reference_date_counts() {
    let text = "today 1.2.2024\naccount AA Alice\naccount BB Bob\n\
                invoice AA -> BB 30.00 1.2.2024 today\n";
    let ledger = Ledger::new(text).unwrap();
    assert_eq!(ledger.invoices().len(), 1);
}

#[test]
fn future_payment_contributes_nothing() {
    let text = "today 1.2.2024\naccount AA Alice\naccount BB Bob\n\
                payment AA -> BB 30.00 2.2.2024 later\n\
                payment AA -> BB 30.00 1.2.2024 today\n";
    let ledger = Ledger::new(text).unwrap();
    assert_eq!(ledger.payments().len(), 1);
    assert_eq!(ledger.payments()[0].note(), "today");
}

#[test]
fn chained_recipients_forward_the_whole_amount() {
    let text = "today 1.2.2024\naccount AA Alice\naccount BB Bob\naccount CC Carol\n\
                invoice AA -> BB -> CC 10.00 1.1.2024 note\n";
    let ledger = Ledger::new(text).unwrap();
    assert_eq!(ledger.invoices().len(), 2);
    assert_eq!(
        shape(&ledger.invoices()[0]),
        (0, 1, 10_000_000, date(1, 1, 2024), "note".to_string())
    );
    assert_eq!(
        shape(&ledger.invoices()[1]),
        (1, 2, 10_000_000, date(1, 1, 2024), "note".to_string())
    );
}

#[test]
fn split_senders_share_the_amount() {
    let text = "today 1.2.2024\naccount AA Alice\naccount BB Bob\naccount CC Carol\n\
                invoice AA : BB -> CC 20.00 1.1.2024 shared\n";
    let ledger = Ledger::new(text).unwrap();
    assert_eq!(ledger.invoices().len(), 2);
    assert_eq!(
        shape(&ledger.invoices()[0]),
        (0, 2, 10_000_000, date(1, 1, 2024), "shared".to_string())
    );
    assert_eq!(
        shape(&ledger.invoices()[1]),
        (1, 2, 10_000_000, date(1, 1, 2024), "shared".to_string())
    );
}

#[test]
fn share_is_rounded_down_to_a_unit() {
    let text = "today 1.2.2024\naccount AA Alice\naccount BB Bob\naccount CC Carol\n\
                account DD Dan\ninvoice AA : BB : CC -> DD 10.00 1.1.2024 thirds\n";
    let ledger = Ledger::new(text).unwrap();
    assert_eq!(ledger.invoices().len(), 3);
    for invoice in ledger.invoices() {
        assert_eq!(invoice.amount(), 3_333_333);
    }
}

#[test]
fn sender_who_is_the_recipient_is_dropped() {
    let text = "today 1.2.2024\naccount AA Alice\naccount BB Bob\n\
                invoice AA : BB -> BB 20.00 1.1.2024 shared\n\
                invoice AA -> BB -> BB 5.00 1.1.2024 chain\n\
                payment AA -> AA 1.00 1.1.2024 self\n";
    let ledger = Ledger::new(text).unwrap();
    assert_eq!(ledger.invoices().len(), 2);
    assert_eq!(
        shape(&ledger.invoices()[0]),
        (0, 1, 10_000_000, date(1, 1, 2024), "shared".to_string())
    );
    assert_eq!(
        shape(&ledger.invoices()[1]),
        (0, 1, 5_000_000, date(1, 1, 2024), "chain".to_string())
    );
    assert_eq!(ledger.payments().len(), 0);
}

#[test]
fn blank_lines_and_comments_are_skipped() {
    let text = "today 1.2.2024\n\n// a comment\naccount AA Alice\n//account BB Bob\n\r\n";
    let ledger = Ledger::new(text).unwrap();
    assert_eq!(ledger.accounts().len(), 1);
}

#[test]
fn carriage_returns_before_line_feeds_are_dropped() {
    let text = "today 1.2.2024\r\naccount AA Alice\r\naccount BB Bob\r\n\
                invoice AA -> BB 30.00 1.1.2024 note\r\n";
    let ledger = Ledger::new(text).unwrap();
    assert_eq!(ledger.accounts()[0].name(), "Alice");
    assert_eq!(ledger.invoices()[0].note(), "note");
}

#[test]
fn empty_text_has_no_header() {
    let e = Ledger::new("").unwrap_err();
    assert_eq!((e.line, e.kind, e.text.as_str()), (1, ErrorKind::MissingHeader, ""));
}

#[test]
fn first_line_must_be_the_header() {
    let e = Ledger::new("account AA Alice\n").unwrap_err();
    assert_eq!((e.line, e.kind, e.text.as_str()), (1, ErrorKind::Malformed, "account AA Alice"));
    let e = Ledger::new("today 1.2.2024 \n").unwrap_err();
    assert_eq!((e.line, e.kind, e.text.as_str()), (1, ErrorKind::Malformed, "today 1.2.2024 "));
    let e = Ledger::new("today 30.2.2024\n").unwrap_err();
    assert_eq!((e.line, e.kind, e.text.as_str()), (1, ErrorKind::InvalidDate, "today 30.2.2024"));
    let e = Ledger::new("\ntoday 1.2.2024\n").unwrap_err();
    assert_eq!((e.line, e.kind, e.text.as_str()), (1, ErrorKind::Malformed, ""));
}

#[test]
fn malformed_line_is_reported_with_its_text() {
    let text = "today 1.2.2024\naccount AA Alice\n\nsomething else\naccount BB Bob\n";
    let e = Ledger::new(text).unwrap_err();
    assert_eq!((e.line, e.kind, e.text.as_str()), (4, ErrorKind::Malformed, "something else"));
    let e = Ledger::new("today 1.2.2024\n \n").unwrap_err();
    assert_eq!((e.line, e.kind, e.text.as_str()), (2, ErrorKind::Malformed, " "));
    let e = Ledger::new("today 1.2.2024\ntoday 1.2.2024\n").unwrap_err();
    assert_eq!((e.line, e.kind), (2, ErrorKind::Malformed));
}

#[test]
fn unknown_acronym_is_an_error() {
    let text = "today 1.2.2024\naccount AA Alice\ninvoice AA -> BB 1.00 1.1.2024 x\naccount BB Bob\n";
    let e = Ledger::new(text).unwrap_err();
    assert_eq!(
        (e.line, e.kind, e.text.as_str()),
        (3, ErrorKind::UnknownAcronym, "invoice AA -> BB 1.00 1.1.2024 x")
    );
    let text = "today 1.2.2024\naccount AA Alice\npayment BB -> AA 1.00 1.1.2024 x\n";
    assert_eq!(Ledger::new(text).unwrap_err().kind, ErrorKind::UnknownAcronym);
    let text = "today 1.2.2024\naccount AA Alice\naccount BB Bob\n\
                invoice AA : CC -> BB 1.00 1.1.2024 x\n";
    assert_eq!(Ledger::new(text).unwrap_err().kind, ErrorKind::UnknownAcronym);
    let text = "today 1.2.2024\naccount AA Alice\naccount BB Bob\n\
                invoice AA -> BB -> CC 1.00 1.1.2024 x\n";
    assert_eq!(Ledger::new(text).unwrap_err().kind, ErrorKind::UnknownAcronym);
    let text = "today 1.2.2024\naccount AA Alice\ninvoice AA -> BB 1.00 1.1.2025 future\n";
    assert_eq!(Ledger::new(text).unwrap_err().kind, ErrorKind::UnknownAcronym);
}

#[test]
fn duplicate_acronym_is_an_error() {
    let text = "today 1.2.2024\naccount AA Alice\naccount BB Bob\naccount AA Anna\n";
    let e = Ledger::new(text).unwrap_err();
    assert_eq!((e.line, e.kind, e.text.as_str()), (4, ErrorKind::DuplicateAcronym, "account AA Anna"));
}

#[test]
fn dates_must_exist() {
    let text = "today 1.2.2024\naccount AA Alice\naccount BB Bob\n\
                invoice AA -> BB 1.00 31.4.2023 x\n";
    assert_eq!(Ledger::new(text).unwrap_err().kind, ErrorKind::InvalidDate);
    let text = "today 1.2.2024\naccount AA Alice\naccount BB Bob\n\
                invoice AA -> BB 1.00 1.1.2023 - 29.2.2023 : 0.1.0000 x\n";
    assert_eq!(Ledger::new(text).unwrap_err().kind, ErrorKind::InvalidDate);
    let text = "today 1.2.2024\naccount AA Alice\naccount BB Bob\n\
                payment AA -> BB 1.00 0.1.2023 x\n";
    assert_eq!(Ledger::new(text).unwrap_err().kind, ErrorKind::InvalidDate);
}

#[test]
fn amount_must_fit() {
    let text = "today 1.2.2024\naccount AA Alice\naccount BB Bob\n\
                invoice AA -> BB 18446744073709.551615 1.1.2024 x\n";
    let ledger = Ledger::new(text).unwrap();
    assert_eq!(ledger.invoices()[0].amount(), u64::MAX);
    let text = "today 1.2.2024\naccount AA Alice\naccount BB Bob\n\
                invoice AA -> BB 18446744073709.551616 1.1.2024 x\n";
    assert_eq!(Ledger::new(text).unwrap_err().kind, ErrorKind::AmountTooLarge);
    let text = "today 1.2.2024\naccount AA Alice\naccount BB Bob\n\
                payment AA -> BB 99999999999999999999999999.0 1.1.2024 x\n";
    assert_eq!(Ledger::new(text).unwrap_err().kind, ErrorKind::AmountTooLarge);
}

#[test]
fn recurrence_step_must_lead_somewhere() {
    let text = "today 1.2.2024\naccount AA Alice\naccount BB Bob\n\
                invoice AA -> BB 1.00 1.1.2023 - 1.1.2024 : 0.0.0000 x\n";
    let e = Ledger::new(text).unwrap_err();
    assert_eq!((e.line, e.kind), (4, ErrorKind::Endless));
    let text = "today 1.2.2024\naccount AA Alice\naccount BB Bob\n\
                invoice AA -> BB 1.00 1.1.2023 - 1.1.2022 : 0.0.0000 x\n";
    assert_eq!(Ledger::new(text).unwrap().invoices().len(), 1);
}

#[test]
fn recurrence_must_keep_the_day_of_the_month() {
    let text = "today 1.2.2025\naccount AA Alice\naccount BB Bob\n\
                invoice AA -> BB 1.00 31.1.2024 - 1.1.2025 : 0.1.0000 x\n";
    let e = Ledger::new(text).unwrap_err();
    assert_eq!((e.line, e.kind), (4, ErrorKind::InvalidDay));
}

#[test]
fn period_counts_days_months_and_years_each_from_its_own_field() {
    let text = "today 1.1.2030\naccount AA Alice\naccount BB Bob\n\
                invoice AA -> BB 1.00 1.1.2024 - 1.1.2030 : 1.0.0002 x\n";
    let ledger = Ledger::new(text).unwrap();
    let dates: Vec<Date> = ledger.invoices().iter().map(|t| t.date()).collect();
    assert_eq!(dates, vec![date(1, 1, 2024), date(2, 1, 2026), date(3, 1, 2028)]);
    let text = "today 1.1.2030\naccount AA Alice\naccount BB Bob\n\
                invoice AA -> BB 1.00 1.1.2024 - 1.1.2030 : 0.18.0000 x\n";
    let ledger = Ledger::new(text).unwrap();
    let dates: Vec<Date> = ledger.invoices().iter().map(|t| t.date()).collect();
    assert_eq!(
        dates,
        vec![date(1, 1, 2024), date(1, 7, 2025), date(1, 1, 2027), date(1, 7, 2028), date(1, 1, 2030)]
    );
}

#[test]
fn recurrence_without_a_note_is_the_note() {
    let text = "today 1.2.2025\naccount AA Alice\naccount BB Bob\n\
                invoice AA -> BB 1.00 1.1.2024 - 1.4.2024 : 0.1.0000\n";
    let ledger = Ledger::new(text).unwrap();
    assert_eq!(ledger.invoices().len(), 1);
    assert_eq!(ledger.invoices()[0].note(), "- 1.4.2024 : 0.1.0000");
}

#[test]
fn lookup_of_an_acronym_is_stable() {
    let text = "today 1.2.2024\naccount AA Alice\naccount BB Bob\n\
                invoice AA -> BB 1.00 1.1.2024 first\naccount CC Carol\n\
                invoice AA -> BB 1.00 1.1.2024 second\ninvoice CC -> AA 1.00 1.1.2024 third\n";
    let ledger = Ledger::new(text).unwrap();
    let pairs: Vec<(usize, usize)> =
        ledger.invoices().iter().map(|t| (t.sender_index(), t.recipient_index())).collect();
    assert_eq!(pairs, vec![(0, 1), (0, 1), (2, 0)]);
}

#[test]
fn ledger_is_written_under_its_headings() {
    let text = "today 1.2.2024\naccount AA Alice\naccount BB Bob\n\
                invoice AA -> BB 30.00 1.1.2024 note\n\
                invoice BB -> AA 7.5 3.1.2024 other\n\
                payment AA -> BB 30.00 2.1.2024 note2\n";
    let ledger = Ledger::new(text).unwrap();
    assert_eq!(
        ledger.to_string(),
        "Today 1.2.2024\n\nAccounts:\nAA -> Alice\nBB -> Bob\n\nInvoices:\n\
         AA -> BB 30.00 CHF\t1.1.2024\tnote\nBB -> AA 7.50 CHF\t3.1.2024\tother\n\nPayments:\n\
         AA -> BB 30.00 CHF\t2.1.2024\tnote2\n"
    );
    let bare = Ledger::new("today 5.11.2024").unwrap();
    assert_eq!(bare.to_string(), "Today 5.11.2024\n\nAccounts:\n\nInvoices:\n\nPayments:\n");
}

#[test]
fn text_is_split_at_line_feeds() {
    let split = |s: &str| -> Vec<String> {
        split_lines(&s.chars().collect()).iter().map(|l| l.iter().collect()).collect()
    };
    assert_eq!(split(""), Vec::<String>::new());
    assert_eq!(split("a"), vec!["a"]);
    assert_eq!(split("a\n"), vec!["a"]);
    assert_eq!(split("a\nb"), vec!["a", "b"]);
    assert_eq!(split("a\n\nb\n"), vec!["a", "", "b"]);
    assert_eq!(split("\n"), vec![""]);
    assert_eq!(split("\n\n"), vec!["", ""]);
    assert_eq!(split("a\r\nb\r\n"), vec!["a", "b"]);
    assert_eq!(split("a\r\nb\r"), vec!["a", "b\r"]);
    assert_eq!(split("a\rb\n\r\n\r\r\n"), vec!["a\rb", "", "\r"]);
}

#[test]
fn acronyms_are_resolved_all_or_none() {
    let accounts = vec![
        Account::new(String::from("AA"), String::from("Alice")).unwrap(),
        Account::new(String::from("BB"), String::from("Bob")).unwrap(),
    ];
    let names = |list: &[&str]| -> Vec<String> { list.iter().map(|s| s.to_string()).collect() };
    assert_eq!(resolve(&names(&["BB", "AA", "BB"]), &accounts), Some(vec![1, 0, 1]));
    assert_eq!(resolve(&names(&[]), &accounts), Some(vec![]));
    assert_eq!(resolve(&names(&["BB", "CC"]), &accounts), None);
    assert_eq!(resolve(&names(&["AA"]), &Vec::new()), None);
}

#[test]
fn transactions_of_an_invoice_come_date_by_date() {
    let mut out = vec![Transaction::new(9, 8, 7, date(1, 1, 2020), String::from("before"))];
    let dates = vec![date(1, 1, 2024), date(1, 2, 2024)];
    push_on_dates(&mut out, &vec![0, 1, 2], &vec![2, 3, 3, 0], 100, &dates, &String::from("n"));
    let shapes: Vec<(usize, usize, u64, Date, String)> = out.iter().map(shape).collect();
    let n = || String::from("n");
    assert_eq!(
        shapes,
        vec![
            (9, 8, 7, date(1, 1, 2020), String::from("before")),
            (0, 2, 33, date(1, 1, 2024), n()),
            (1, 2, 33, date(1, 1, 2024), n()),
            (2, 3, 100, date(1, 1, 2024), n()),
            (3, 0, 100, date(1, 1, 2024), n()),
            (0, 2, 33, date(1, 2, 2024), n()),
            (1, 2, 33, date(1, 2, 2024), n()),
            (2, 3, 100, date(1, 2, 2024), n()),
            (3, 0, 100, date(1, 2, 2024), n()),
        ]
    );
    let mut none = Vec::new();
    push_on_dates(&mut none, &vec![0], &vec![1], 5, &Vec::new(), &n());
    assert!(none.is_empty());
}
