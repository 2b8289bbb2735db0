use household_ledger::money::{
    add_amount_to_string, magnitude, push_amount, push_balance, round_to_cents, UNITS_PER_CENT,
    UNITS_PER_WHOLE,
};

fn statement(units: u128) -> String {
    let mut s = String::from(">");
    add_amount_to_string(units, &mut s);
    s
}

fn amount(units: u128) -> String {
    let mut s = String::new();
    push_amount(&mut s, units);
    s
}

fn balance(units: i128) -> String {
    let mut s = String::new();
    push_balance(&mut s, units);
    s
}

#[test]
fn units_of_a_cent_and_of_a_whole() {
    assert_eq!(UNITS_PER_WHOLE, 1_000_000);
    assert_eq!(UNITS_PER_CENT, 10_000);
}

#[test]
fn statement_amount_shows_whole_and_rounded_cents() {
    assert_eq!(statement(12_500_000), ">12.50 CHF");
    assert_eq!(statement(12_000_000), ">12.- CHF");
    assert_eq!(statement(0), ">0.- CHF");
    assert_eq!(statement(12_050_000), ">12.5 CHF");
    assert_eq!(statement(12_004_999), ">12.- CHF");
    assert_eq!(statement(12_005_000), ">12.1 CHF");
    assert_eq!(statement(12_994_999), ">12.99 CHF");
    assert_eq!(statement(12_995_000), ">12.100 CHF");
    assert_eq!(statement(999_999), ">0.100 CHF");
    assert_eq!(statement(3_333_333), ">3.33 CHF");
    assert_eq!(
        statement(u128::MAX),
        ">340282366920938463463374607431768.21 CHF"
    );
}

#[test]
fn amount_is_written_with_at_least_two_decimals() {
    assert_eq!(amount(0), "0.00");
    assert_eq!(amount(30_000_000), "30.00");
    assert_eq!(amount(12_500_000), "12.50");
    assert_eq!(amount(12_050_000), "12.05");
    assert_eq!(amount(12_345_000), "12.345");
    assert_eq!(amount(12_345_600), "12.3456");
    assert_eq!(amount(12_345_670), "12.34567");
    assert_eq!(amount(12_345_678), "12.345678");
    assert_eq!(amount(1), "0.000001");
    assert_eq!(amount(1_000_001), "1.000001");
    assert_eq!(amount(u64::MAX as u128), "18446744073709.551615");
}

#[test]
fn balance_is_written_with_its_sign() {
    assert_eq!(balance(0), "0.00");
    assert_eq!(balance(-1), "-0.000001");
    assert_eq!(balance(-30_000_000), "-30.00");
    assert_eq!(balance(1_250_000), "1.25");
    assert_eq!(balance(i128::MIN), "-170141183460469231731687303715884.105728");
    assert_eq!(balance(i128::MAX), "170141183460469231731687303715884.105727");
}

#[test]
fn rounding_to_cents_goes_away_from_zero_at_the_half() {
    assert_eq!(round_to_cents(0), 0);
    assert_eq!(round_to_cents(4_999), 0);
    assert_eq!(round_to_cents(5_000), 1);
    assert_eq!(round_to_cents(-4_999), 0);
    assert_eq!(round_to_cents(-5_000), -1);
    assert_eq!(round_to_cents(14_999), 1);
    assert_eq!(round_to_cents(15_000), 2);
    assert_eq!(round_to_cents(-17_500_000), -1750);
    assert_eq!(round_to_cents(1_050_000), 105);
    assert_eq!(round_to_cents(i128::MAX), 17014118346046923173168730371588411);
    assert_eq!(round_to_cents(i128::MIN), -17014118346046923173168730371588411);
}

#[test]
fn magnitude_drops_the_sign() {
    assert_eq!(magnitude(0), 0);
    assert_eq!(magnitude(5), 5);
    assert_eq!(magnitude(-5), 5);
    assert_eq!(magnitude(i128::MAX), i128::MAX as u128);
    assert_eq!(magnitude(i128::MIN), (i128::MAX as u128) + 1);
}
