use household_ledger::date::Date;
use household_ledger::grammar::{
    has_acronym, has_blank, has_char, has_note, has_recipient, has_sender, has_word,
    parse_header, parse_line, scan_amount, scan_date, scan_range, scan_recipients,
    scan_senders, Line, LineError,
};
use household_ledger::recurrence::Period;
use regex::Regex;

fn chars(s: &str) -> Vec<char> {
    s.chars().collect()
}

/// The patterns of the line forms, in the order in which a line is tried against them.
fn patterns() -> (Regex, Regex, Regex, Regex, Regex) {
    let date = r"(?P<day>\d{1,2})\.(?P<month>\d{1,2})\.(?P<year>\d{4})";
    let amount = r"(?P<amount>\d+\.\d+)";
    let note = r"(?P<note>.+)";
    let header = format!(r"^today\s{}$", date);
    let account = r"^account\s(?P<acronym>[A-Z]{2})\s(?P<name>.+)";
    let invoice = format!(
        "{}{}{}{}",
        r"^invoice\s(?P<first_sender>[A-Z]{2})(\s:\s[A-Z]{2})*(\s->\s[A-Z]{2})+\s",
        amount,
        r"\s(?P<start_date>\d{1,2}\.\d{1,2}\.\d{4})(?P<time_range>\s-\s\d{1,2}\.\d{1,2}\.\d{4}\s:\s\d{1,2}\.\d{1,2}\.\d{4})?\s",
        note
    );
    let payment = format!(
        r"^payment\s(?P<sender>[A-Z]{{2}})\s->\s(?P<recipient>[A-Z]{{2}})\s{}\s{}\s{}",
        amount, date, note
    );
    (
        Regex::new(r"^//").unwrap(),
        Regex::new(&header).unwrap(),
        Regex::new(account).unwrap(),
        Regex::new(&invoice).unwrap(),
        Regex::new(&payment).unwrap(),
    )
}

fn kind_by_pattern(line: &str) -> &'static str {
    let (comment, _, account, invoice, payment) = patterns();
    if line.is_empty() {
        "blank"
    } else if comment.is_match(line) {
        "comment"
    } else if account.is_match(line) {
        "account"
    } else if invoice.is_match(line) {
        "invoice"
    } else if payment.is_match(line) {
        "payment"
    } else {
        "malformed"
    }
}

fn kind_by_library(line: &str) -> &'static str {
    match parse_line(&chars(line)) {
        Ok(Line::Blank) => "blank",
        Ok(Line::Comment) => "comment",
        Ok(Line::Account(_)) => "account",
        Ok(Line::Invoice(_)) => "invoice",
        Ok(Line::Payment(_)) => "payment",
        Err(LineError::Malformed) => "malformed",
        Err(LineError::AmountTooLarge) => "too large",
        Err(LineError::InvalidDate) => "invalid date",
    }
}

const SAMPLES: [&str; 64] = [
    "",
    " ",
    "//",
    "// a comment",
    "/ / not a comment",
    " // not a comment either",
    "//account AA Alice",
    "account AA Alice",
    "account AA A",
    "account AA ",
    "account AA",
    "account AAA Alice",
    "account Aa Alice",
    "account  AA Alice",
    "account\tAA\tAlice",
    "account\u{a0}AA\u{2003}Alice Süd",
    "accountAA Alice",
    "Account AA Alice",
    "account AA  Alice",
    "today 1.2.2024",
    "invoice AA -> BB 30.00 1.1.2024 note",
    "invoice AA -> BB 30.00 1.1.2024 n",
    "invoice AA -> BB 30.00 1.1.2024 ",
    "invoice AA -> BB 30.00 1.1.2024",
    "invoice AA -> BB 30.00 01.01.2024 note",
    "invoice AA -> BB 30.00 001.1.2024 note",
    "invoice AA -> BB 30.00 1.1.24 note",
    "invoice AA -> BB 30.00 1.1.20240 note",
    "invoice AA -> BB 30 1.1.2024 note",
    "invoice AA -> BB 30. 1.1.2024 note",
    "invoice AA -> BB .5 1.1.2024 note",
    "invoice AA -> BB 0.5 1.1.2024 note",
    "invoice AA -> BB -1.5 1.1.2024 note",
    "invoice AA -> BB 30.00  1.1.2024 note",
    "invoice AA 30.00 1.1.2024 note",
    "invoice AA : BB 30.00 1.1.2024 note",
    "invoice AA : BB -> CC 30.00 1.1.2024 note",
    "invoice AA : BB : CC : DD -> EE -> FF -> GG 30.00 1.1.2024 note",
    "invoice AA -> BB : CC 30.00 1.1.2024 note",
    "invoice AA -> BB -> 30.00 1.1.2024 note",
    "invoice AA ->BB 30.00 1.1.2024 note",
    "invoice AA - > BB 30.00 1.1.2024 note",
    "invoice aa -> BB 30.00 1.1.2024 note",
    "invoice AA -> BB 30.00 1.1.2024 - 1.4.2024 : 0.1.0000 rent",
    "invoice AA -> BB 30.00 1.1.2024 - 1.4.2024 : 0.1.0000",
    "invoice AA -> BB 30.00 1.1.2024 - 1.4.2024 : 0.1.0000 ",
    "invoice AA -> BB 30.00 1.1.2024 - 1.4.2024 : 0.1.00 rent",
    "invoice AA -> BB 30.00 1.1.2024 - 1.4.2024 0.1.0000 rent",
    "invoice AA -> BB 30.00 1.1.2024 -1.4.2024 : 0.1.0000 rent",
    "invoice AA -> BB 30.00 1.1.2024 - 1.4.2024 : 0.1.00000 rent",
    "invoice AA -> BB 30.00 1.1.2024- 1.4.2024 : 0.1.0000 rent",
    "invoice AA -> BB 30.00 1.1.2024 note : CC and -> DD",
    "invoice\tAA\t->\tBB\t30.00\t1.1.2024\tnote",
    "payment AA -> BB 30.00 2.1.2024 note2",
    "payment AA -> BB 30.00 2.1.2024 ",
    "payment AA -> BB 30.00 2.1.2024",
    "payment AA -> BB -> CC 30.00 2.1.2024 note",
    "payment AA : BB -> CC 30.00 2.1.2024 note",
    "payment AA BB 30.00 2.1.2024 note",
    "payment AA -> BB 30.00 2.1.2024 - 1.4.2024 : 0.1.0000 note",
    "payment AA -> BB 1234567890.123456789 12.12.9999 x",
    "payment AA  -> BB 30.00 2.1.2024 note",
    "payments AA -> BB 30.00 2.1.2024 note",
    "something else",
];

#[test]
fn lines_are_classified_as_the_patterns_classify_them() {
    for line in SAMPLES.iter() {
        assert_eq!(kind_by_library(line), kind_by_pattern(line), "line {:?}", line);
    }
}

#[test]
fn header_is_read_as_its_pattern_reads_it() {
    let (_, header, _, _, _) = patterns();
    let samples = [
        "today 1.2.2024",
        "today 01.02.2024",
        "today 31.12.9999",
        "today\t1.2.2024",
        "today 1.2.2024 ",
        " today 1.2.2024",
        "today  1.2.2024",
        "today 1.2.20245",
        "today 1.2.202",
        "today 111.2.2024",
        "today 1.222.2024",
        "today 1-2-2024",
        "today",
        "today ",
        "Today 1.2.2024",
        "",
        "account AA Alice",
    ];
    for line in samples.iter() {
        let by_library = parse_header(&chars(line));
        match header.captures(line) {
            Some(found) => {
                let day: u32 = found.name("day").unwrap().as_str().parse().unwrap();
                let month: u32 = found.name("month").unwrap().as_str().parse().unwrap();
                let year: i32 = found.name("year").unwrap().as_str().parse().unwrap();
                assert_eq!(by_library, Ok(Date::new(day, month, year).unwrap()), "line {:?}", line);
            }
            None => assert_eq!(by_library, Err(LineError::Malformed), "line {:?}", line),
        }
    }
    assert_eq!(parse_header(&chars("today 31.2.2024")), Err(LineError::InvalidDate));
    assert_eq!(parse_header(&chars("today 0.1.2024")), Err(LineError::InvalidDate));
    assert_eq!(parse_header(&chars("today 1.13.2024")), Err(LineError::InvalidDate));
}

#[test]
fn invoice_parts_are_those_that_the_pattern_captures() {
    let (_, _, _, invoice, _) = patterns();
    for line in SAMPLES.iter() {
        if let Some(found) = invoice.captures(line) {
            let read = match parse_line(&chars(line)) {
                Ok(Line::Invoice(read)) => read,
                other => panic!("line {:?} read as {:?}", line, other),
            };
            assert_eq!(read.senders[0], found.name("first_sender").unwrap().as_str());
            assert_eq!(read.note, found.name("note").unwrap().as_str());
            assert_eq!(read.recurrence.is_some(), found.name("time_range").is_some());
            assert_eq!(read.start.to_string(), {
                let text = found.name("start_date").unwrap().as_str();
                let parts: Vec<u32> = text.split('.').map(|p| p.parse().unwrap()).collect();
                format!("{}.{}.{}", parts[0], parts[1], parts[2])
            });
        }
    }
}

#[test]
fn account_line_gives_acronym_and_name() {
    match parse_line(&chars("account WG Wohngemeinschaft Süd ")) {
        Ok(Line::Account(account)) => {
            assert_eq!(account.acronym(), "WG");
            assert_eq!(account.name(), "Wohngemeinschaft Süd ");
        }
        other => panic!("read as {:?}", other),
    }
}

#[test]
fn invoice_line_gives_all_its_parts() {
    let line = "invoice AA : BB : CC -> DD -> EE 1234.5 1.3.2024 - 31.12.2025 : 14.2.0001 every now and then";
    match parse_line(&chars(line)) {
        Ok(Line::Invoice(invoice)) => {
            assert_eq!(invoice.senders, vec!["AA", "BB", "CC"]);
            assert_eq!(invoice.recipients, vec!["DD", "EE"]);
            assert_eq!(invoice.amount, 1_234_500_000);
            assert_eq!(invoice.start, Date::new(1, 3, 2024).unwrap());
            let recurrence = invoice.recurrence.unwrap();
            assert_eq!(recurrence.end, Date::new(31, 12, 2025).unwrap());
            assert_eq!(recurrence.period, Period { days: 14, months: 2, years: 1 });
            assert_eq!(invoice.note, "every now and then");
        }
        other => panic!("read as {:?}", other),
    }
}

#[test]
fn acronyms_in_the_note_are_part_of_the_note() {
    match parse_line(&chars("invoice AA -> BB 30.00 1.1.2024 note : CC and -> DD")) {
        Ok(Line::Invoice(invoice)) => {
            assert_eq!(invoice.senders, vec!["AA"]);
            assert_eq!(invoice.recipients, vec!["BB"]);
            assert_eq!(invoice.note, "note : CC and -> DD");
        }
        other => panic!("read as {:?}", other),
    }
}

#[test]
fn payment_line_gives_all_its_parts() {
    match parse_line(&chars("payment AA -> BB 0.000001 29.2.2024 a note")) {
        Ok(Line::Payment(payment)) => {
            assert_eq!(payment.sender, "AA");
            assert_eq!(payment.recipient, "BB");
            assert_eq!(payment.amount, 1);
            assert_eq!(payment.date, Date::new(29, 2, 2024).unwrap());
            assert_eq!(payment.note, "a note");
        }
        other => panic!("read as {:?}", other),
    }
}

#[test]
fn line_errors_come_in_their_order() {
    let too_large = "invoice AA -> BB 99999999999999.0 31.2.2024 x";
    assert_eq!(kind_by_library(too_large), "too large");
    assert_eq!(kind_by_library("invoice AA -> BB 1.0 31.2.2024 - 31.2.2024 : 0.1.0000 x"), "invalid date");
    assert_eq!(kind_by_library("invoice AA -> BB 1.0 1.2.2024 - 31.2.2024 : 0.1.0000 x"), "invalid date");
    assert_eq!(kind_by_library("invoice AA -> BB 1.0 1.2.2024 - 31.2.2024 : 0.1.0000"), "invoice");
    assert_eq!(kind_by_library("payment AA -> BB 99999999999999.0 31.2.2024 x"), "too large");
    assert_eq!(kind_by_library("payment AA -> BB 1.0 31.2.2024 x"), "invalid date");
}

#[test]
fn amounts_are_read_in_units() {
    let read = |s: &str| scan_amount(&chars(s), 0);
    assert_eq!(read("12.50"), Some((Some(12_500_000), 5)));
    assert_eq!(read("12.5"), Some((Some(12_500_000), 4)));
    assert_eq!(read("0.0"), Some((Some(0), 3)));
    assert_eq!(read("007.000001"), Some((Some(7_000_001), 10)));
    assert_eq!(read("1.1234567"), Some((Some(1_123_456), 9)));
    assert_eq!(read("1.9999999999"), Some((Some(1_999_999), 12)));
    assert_eq!(read("12.50 rest"), Some((Some(12_500_000), 5)));
    assert_eq!(read("18446744073709.551615"), Some((Some(u64::MAX), 21)));
    assert_eq!(read("18446744073709.551616"), Some((None, 21)));
    assert_eq!(read("18446744073710.0"), Some((None, 16)));
    assert_eq!(read("99999999999999999999999999999999.0"), Some((None, 34)));
    assert_eq!(read("12"), None);
    assert_eq!(read("12."), None);
    assert_eq!(read(".5"), None);
    assert_eq!(read("12,5"), None);
    assert_eq!(read(""), None);
    assert_eq!(scan_amount(&chars("x 3.25"), 2), Some((Some(3_250_000), 6)));
    assert_eq!(scan_amount(&chars("3.25"), 5), None);
    assert_eq!(read("١٢.٥"), None);
}

#[test]
fn dates_are_read_as_numbers() {
    let read = |s: &str| scan_date(&chars(s), 0).map(|(d, end)| (d.day, d.month, d.year, end));
    assert_eq!(read("1.2.2024"), Some((1, 2, 2024, 8)));
    assert_eq!(read("01.02.2024"), Some((1, 2, 2024, 10)));
    assert_eq!(read("99.99.0000"), Some((99, 99, 0, 10)));
    assert_eq!(read("1.2.20245"), Some((1, 2, 2024, 8)));
    assert_eq!(read("1.2.202"), None);
    assert_eq!(read("123.2.2024"), None);
    assert_eq!(read("1.234.2024"), None);
    assert_eq!(read(".2.2024"), None);
    assert_eq!(read("1..2024"), None);
    assert_eq!(read("1.2"), None);
    assert_eq!(read("1"), None);
    assert_eq!(read(""), None);
    assert_eq!(scan_date(&chars("1.2.2024"), 9).map(|(_, end)| end), None);
}

#[test]
fn small_scanners_look_at_the_right_place() {
    let s = chars("ab CD\t: EF -> GH x");
    assert!(has_word(&s, 0, "ab") && has_word(&s, 1, "b C") && has_word(&s, 0, ""));
    assert!(!has_word(&s, 1, "ab") && !has_word(&s, 17, "xy") && !has_word(&s, 30, "a"));
    assert!(has_word(&s, 18, "") && !has_word(&s, 19, ""));
    assert!(has_blank(&s, 2) && has_blank(&s, 5) && !has_blank(&s, 0) && !has_blank(&s, 18));
    assert!(has_char(&s, 6, ':') && !has_char(&s, 5, ':') && !has_char(&s, 18, ':'));
    assert!(has_acronym(&s, 3) && !has_acronym(&s, 2) && !has_acronym(&s, 4));
    assert!(!has_acronym(&s, 17) && !has_acronym(&s, 18) && !has_acronym(&chars("A"), 0));
    assert!(has_sender(&s, 5) && !has_sender(&s, 2) && !has_sender(&s, 10));
    assert!(has_recipient(&s, 10) && !has_recipient(&s, 5));
    assert!(has_note(&s, 16) && !has_note(&s, 17) && !has_note(&chars("a "), 1));
    assert_eq!(scan_senders(&s, 5), (vec![String::from("EF")], 10));
    assert_eq!(scan_senders(&s, 10), (Vec::<String>::new(), 10));
    assert_eq!(scan_recipients(&s, 10), (vec![String::from("GH")], 16));
    assert_eq!(scan_recipients(&s, 40), (Vec::<String>::new(), 40));
    let t = chars(" : AA : BB : CC -> DD -> EE");
    assert_eq!(
        scan_senders(&t, 0),
        (vec![String::from("AA"), String::from("BB"), String::from("CC")], 15)
    );
    assert_eq!(scan_recipients(&t, 15), (vec![String::from("DD"), String::from("EE")], 27));
}

#[test]
fn range_is_read_as_two_dates() {
    let read = |s: &str| {
        scan_range(&chars(s), 0).map(|(e, p, end)| ((e.day, e.month, e.year), (p.day, p.month, p.year), end))
    };
    assert_eq!(read(" - 1.4.2024 : 0.1.0000"), Some(((1, 4, 2024), (0, 1, 0), 22)));
    assert_eq!(read(" - 31.12.2024 : 14.10.0002 x"), Some(((31, 12, 2024), (14, 10, 2), 26)));
    assert_eq!(read("- 1.4.2024 : 0.1.0000"), None);
    assert_eq!(read(" - 1.4.2024 0.1.0000"), None);
    assert_eq!(read(" - 1.4.2024 : 0.1."), None);
    assert_eq!(read(" - 1.4.2024"), None);
    assert_eq!(read(""), None);
}
