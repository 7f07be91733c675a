use csv::StringRecord;
use payments::input::{
    build_record, make_input_record, parse_kind, process_row, process_rows, Amount, InputRecord,
    TransactionType, MAX_AMOUNT_NANOS,
};
use payments::parse::{parse_amount, parse_unsigned};

fn units(record: &InputRecord) -> Option<f64> {
    record.amount.map(|a| a.nanos as f64 / 1e9)
}

fn row(fields: Vec<&str>) -> StringRecord {
    StringRecord::from(fields)
}

#[test]
fn test_valid_deposit_record() {
    let record = StringRecord::from(vec!["deposit", "1", "1", "20.00"]);
    let test_record: InputRecord = InputRecord {
        kind: TransactionType::Deposit,
        client: 1,
        tx: 1,
        amount: Some(Amount { nanos: 20_000_000_000 }),
    };
    assert_eq!(units(&test_record), Some(20.00));
    assert_eq!(make_input_record(&record), Some(test_record));
}

#[test]
fn test_big_float_deposit_record() {
    let record = StringRecord::from(vec!["deposit", "1", "1", "20.987654321"]);
    let test_record: InputRecord = InputRecord {
        kind: TransactionType::Deposit,
        client: 1,
        tx: 1,
        amount: Some(Amount { nanos: 20_987_654_321 }),
    };
    assert_eq!(units(&test_record), Some(20.987654321));
    assert_eq!(make_input_record(&record), Some(test_record));
}

#[test]
fn test_valid_withdrawal_record() {
    let record = StringRecord::from(vec!["withdrawal", "1", "1", "20.00"]);
    let test_record: InputRecord = InputRecord {
        kind: TransactionType::Withdrawal,
        client: 1,
        tx: 1,
        amount: Some(Amount { nanos: 20_000_000_000 }),
    };
    assert_eq!(units(&test_record), Some(20.00));
    assert_eq!(make_input_record(&record), Some(test_record));
}

#[test]
fn test_valid_dispute_record() {
    let record = StringRecord::from(vec!["dispute", "1", "1", ""]);
    let test_record: InputRecord = InputRecord {
        kind: TransactionType::Dispute,
        client: 1,
        tx: 1,
        amount: None,
    };
    assert_eq!(make_input_record(&record), Some(test_record));
}

#[test]
fn test_valid_resolve_record() {
    let record = StringRecord::from(vec!["resolve", "1", "1", ""]);
    let test_record: InputRecord = InputRecord {
        kind: TransactionType::Resolve,
        client: 1,
        tx: 1,
        amount: None,
    };
    assert_eq!(make_input_record(&record), Some(test_record));
}

#[test]
fn test_valid_chargeback_record() {
    let record = StringRecord::from(vec!["chargeback", "1", "1", ""]);
    let test_record: InputRecord = InputRecord {
        kind: TransactionType::Chargeback,
        client: 1,
        tx: 1,
        amount: None,
    };
    assert_eq!(make_input_record(&record), Some(test_record));
}

#[test]
fn test_record_empty_transaction_type_field() {
    let record = StringRecord::from(vec!["", "1", "1", "20.00"]);
    assert_eq!(make_input_record(&record), None);
}

#[test]
fn test_record_empty_client_id_field() {
    let record = StringRecord::from(vec!["deposit", "", "1", "20.00"]);
    assert_eq!(make_input_record(&record), None);
}

#[test]
fn test_record_empty_transaction_id_field() {
    let record = StringRecord::from(vec!["deposit", "1", "", "20.00"]);
    assert_eq!(make_input_record(&record), None);
}

#[test]
fn test_record_empty_amount_field() {
    let record = StringRecord::from(vec!["deposit", "1", "1", ""]);
    assert_eq!(make_input_record(&record), None);
}

#[test]
fn test_record_missing_transaction_type_field() {
    let record = StringRecord::from(vec!["1", "1", "20.00"]);
    assert_eq!(make_input_record(&record), None);
}

#[test]
fn test_record_missing_client_id_field() {
    let record = StringRecord::from(vec!["deposit", "1", "20.00"]);
    assert_eq!(make_input_record(&record), None);
}

#[test]
fn test_record_missing_transaction_id_field() {
    let record = StringRecord::from(vec!["deposit", "1", "20.00"]);
    assert_eq!(make_input_record(&record), None);
}

#[test]
fn test_record_missing_amount_field() {
    let record = StringRecord::from(vec!["deposit", "1", "1"]);
    assert_eq!(make_input_record(&record), None);
}

#[test]
fn kind_is_read_in_any_letter_case() {
    let record = make_input_record(&row(vec!["DePoSiT", "7", "9", "1.5"])).unwrap();
    assert_eq!(record.kind, TransactionType::Deposit);
    assert_eq!(record.client, 7);
    assert_eq!(record.tx, 9);
    assert_eq!(record.amount, Some(Amount { nanos: 1_500_000_000 }));
    let upper = make_input_record(&row(vec!["CHARGEBACK", "7", "9", ""])).unwrap();
    assert_eq!(upper.kind, TransactionType::Chargeback);
}

#[test]
fn parse_kind_takes_lower_case_names_only() {
    assert_eq!(parse_kind("deposit"), Some(TransactionType::Deposit));
    assert_eq!(parse_kind("withdrawal"), Some(TransactionType::Withdrawal));
    assert_eq!(parse_kind("dispute"), Some(TransactionType::Dispute));
    assert_eq!(parse_kind("resolve"), Some(TransactionType::Resolve));
    assert_eq!(parse_kind("chargeback"), Some(TransactionType::Chargeback));
    assert_eq!(parse_kind("Deposit"), None);
    assert_eq!(parse_kind("deposits"), None);
    assert_eq!(parse_kind("deposi"), None);
    assert_eq!(parse_kind(""), None);
}

#[test]
fn unknown_kind_is_rejected() {
    assert_eq!(make_input_record(&row(vec!["refund", "1", "1", "2.0"])), None);
    assert_eq!(make_input_record(&row(vec![])), None);
}

#[test]
fn wrong_field_count_is_rejected() {
    assert_eq!(make_input_record(&row(vec!["deposit", "1", "1", "2.0", ""])), None);
    assert_eq!(make_input_record(&row(vec!["dispute", "1", "1"])), None);
    assert_eq!(make_input_record(&row(vec!["deposit"])), None);
}

#[test]
fn client_and_transaction_must_fit_their_ranges() {
    let top = make_input_record(&row(vec!["deposit", "65535", "4294967295", "1"])).unwrap();
    assert_eq!(top.client, 65535);
    assert_eq!(top.tx, 4294967295);
    assert_eq!(make_input_record(&row(vec!["deposit", "65536", "1", "1"])), None);
    assert_eq!(make_input_record(&row(vec!["deposit", "1", "4294967296", "1"])), None);
    assert_eq!(make_input_record(&row(vec!["deposit", "-1", "1", "1"])), None);
    assert_eq!(make_input_record(&row(vec!["deposit", "1", "x", "1"])), None);
    assert_eq!(make_input_record(&row(vec!["deposit", "1 ", "1", "1"])), None);
}

#[test]
fn unsigned_numbers() {
    assert_eq!(parse_unsigned("0", 10), Some(0));
    assert_eq!(parse_unsigned("10", 10), Some(10));
    assert_eq!(parse_unsigned("11", 10), None);
    assert_eq!(parse_unsigned("+7", 10), Some(7));
    assert_eq!(parse_unsigned("007", 10), Some(7));
    assert_eq!(parse_unsigned("", 10), None);
    assert_eq!(parse_unsigned("+", 10), None);
    assert_eq!(parse_unsigned("-7", 10), None);
    assert_eq!(parse_unsigned("7a", 10), None);
    assert_eq!(parse_unsigned("++7", 10), None);
    assert_eq!(parse_unsigned("99999999999999999999999999999999", u64::MAX), None);
    assert_eq!(parse_unsigned("18446744073709551615", u64::MAX), Some(u64::MAX));
    assert_eq!(parse_unsigned("18446744073709551616", u64::MAX), None);
}

#[test]
fn decimal_amounts() {
    assert_eq!(parse_amount("0"), Some(Amount { nanos: 0 }));
    assert_eq!(parse_amount("1"), Some(Amount { nanos: 1_000_000_000 }));
    assert_eq!(parse_amount("1.5"), Some(Amount { nanos: 1_500_000_000 }));
    assert_eq!(parse_amount("1."), Some(Amount { nanos: 1_000_000_000 }));
    assert_eq!(parse_amount(".5"), Some(Amount { nanos: 500_000_000 }));
    assert_eq!(parse_amount("+2.25"), Some(Amount { nanos: 2_250_000_000 }));
    assert_eq!(parse_amount("-2.25"), Some(Amount { nanos: -2_250_000_000 }));
    assert_eq!(parse_amount("0.000000001"), Some(Amount { nanos: 1 }));
    assert_eq!(parse_amount("0.123456789"), Some(Amount { nanos: 123_456_789 }));
    assert_eq!(parse_amount("0012.3400"), Some(Amount { nanos: 12_340_000_000 }));
}

#[test]
fn unreadable_amounts() {
    assert_eq!(parse_amount(""), None);
    assert_eq!(parse_amount("."), None);
    assert_eq!(parse_amount("-"), None);
    assert_eq!(parse_amount("+."), None);
    assert_eq!(parse_amount("1.2.3"), None);
    assert_eq!(parse_amount("1,5"), None);
    assert_eq!(parse_amount("abc"), None);
    assert_eq!(parse_amount("1.5x"), None);
    assert_eq!(parse_amount(" 1.5"), None);
    assert_eq!(parse_amount("--1"), None);
    assert_eq!(parse_amount("1.5-"), None);
    assert_eq!(parse_amount("1 000"), None);
}

#[test]
fn exponents_and_names_are_not_decimal_numbers() {
    assert_eq!(parse_amount("1e3"), None);
    assert_eq!(parse_amount("1E3"), None);
    assert_eq!(parse_amount("1.5e-2"), None);
    assert_eq!(parse_amount("inf"), None);
    assert_eq!(parse_amount("infinity"), None);
    assert_eq!(parse_amount("NaN"), None);
    assert_eq!(make_input_record(&row(vec!["deposit", "1", "1", "1e3"])), None);
}

#[test]
fn digits_after_the_ninth_are_dropped() {
    assert_eq!(parse_amount("1.0000000000"), Some(Amount { nanos: 1_000_000_000 }));
    assert_eq!(parse_amount("0.0000000001"), Some(Amount { nanos: 0 }));
    assert_eq!(parse_amount("0.1234567899"), Some(Amount { nanos: 123_456_789 }));
    assert_eq!(parse_amount("-0.0000000019"), Some(Amount { nanos: -1 }));
    assert_eq!(parse_amount("-0.0000000009"), Some(Amount { nanos: 0 }));
    assert_eq!(
        parse_amount("2.99999999999999999999999999999999999999999999"),
        Some(Amount { nanos: 2_999_999_999 })
    );
    let record = make_input_record(&row(vec!["deposit", "1", "1", "1.0000000000"])).unwrap();
    assert_eq!(record.amount, Some(Amount { nanos: 1_000_000_000 }));
    assert_eq!(units(&record), Some(1.0));
}

#[test]
fn amount_range() {
    assert_eq!(parse_amount("10000000000"), Some(Amount { nanos: 10_000_000_000_000_000_000 }));
    assert_eq!(
        parse_amount("9223372036.854775808"),
        Some(Amount { nanos: 9_223_372_036_854_775_808 })
    );
    assert_eq!(
        parse_amount("123456789012345678.000000001"),
        Some(Amount { nanos: 123_456_789_012_345_678_000_000_001 })
    );
    assert_eq!(
        parse_amount("4000000000000000000.999999999"),
        Some(Amount { nanos: MAX_AMOUNT_NANOS })
    );
    assert_eq!(
        parse_amount("-4000000000000000000.9999999999"),
        Some(Amount { nanos: -MAX_AMOUNT_NANOS })
    );
    assert_eq!(parse_amount("4000000000000000001"), None);
    assert_eq!(parse_amount("-4000000000000000001.0"), None);
    assert_eq!(parse_amount("99999999999999999999999999999999999999999"), None);
}

#[test]
fn record_from_kind_and_texts() {
    assert_eq!(
        build_record(TransactionType::Withdrawal, "+3", "0004", "2.5"),
        Some(InputRecord {
            kind: TransactionType::Withdrawal,
            client: 3,
            tx: 4,
            amount: Some(Amount { nanos: 2_500_000_000 }),
        })
    );
    assert_eq!(
        build_record(TransactionType::Resolve, "3", "4", "n/a"),
        Some(InputRecord { kind: TransactionType::Resolve, client: 3, tx: 4, amount: None })
    );
    assert_eq!(build_record(TransactionType::Deposit, "3", "4", "n/a"), None);
    assert_eq!(build_record(TransactionType::Dispute, "70000", "4", ""), None);
    assert_eq!(build_record(TransactionType::Dispute, "3", "", ""), None);
}

#[test]
fn one_row_is_trimmed_and_validated() {
    let spaced = row(vec!["  Withdrawal", "3 ", " 4", " 2.5 "]);
    assert_eq!(make_input_record(&spaced), None);
    assert_eq!(
        process_row(&spaced),
        Some(InputRecord {
            kind: TransactionType::Withdrawal,
            client: 3,
            tx: 4,
            amount: Some(Amount { nanos: 2_500_000_000 }),
        })
    );
    assert_eq!(process_row(&row(vec!["withdrawal", "3", "4", "  "])), None);
}

#[test]
fn unreadable_amount_rejects_only_where_one_is_needed() {
    assert_eq!(make_input_record(&row(vec!["deposit", "1", "1", "abc"])), None);
    assert_eq!(make_input_record(&row(vec!["withdrawal", "1", "1", ""])), None);
    let dispute = make_input_record(&row(vec!["dispute", "1", "1", "abc"])).unwrap();
    assert_eq!(dispute.amount, None);
    let resolve = make_input_record(&row(vec!["resolve", "1", "1", "3.5"])).unwrap();
    assert_eq!(resolve.amount, Some(Amount { nanos: 3_500_000_000 }));
}

#[test]
fn rejected_rows_are_reported_and_skipped() {
    let rows = vec![
        row(vec!["deposit", "1", "1", "20.0"]),
        row(vec!["bogus", "1", "2", "1.0"]),
        row(vec!["dispute", "1", "1", ""]),
        row(vec!["deposit", "1", "3"]),
        row(vec!["withdrawal", "x", "4", "1.0"]),
        row(vec!["withdrawal", "1", "5", ""]),
    ];
    let (records, rejected) = process_rows(&rows);
    assert_eq!(rejected, vec![1, 3, 4, 5]);
    assert_eq!(records.len(), 2);
    assert_eq!(records[0].kind, TransactionType::Deposit);
    assert_eq!(records[1].kind, TransactionType::Dispute);
    let kept = vec![row(vec!["deposit", "1", "1", "20.0"]), row(vec!["dispute", "1", "1", ""])];
    assert_eq!(process_rows(&kept), (records, vec![]));
}

#[test]
fn rows_are_trimmed_before_they_are_validated() {
    let rows = vec![
        row(vec![" deposit ", " 1", "1 ", "  20.0\t"]),
        row(vec!["dispute", "1", "1", "   "]),
    ];
    let (records, rejected) = process_rows(&rows);
    assert_eq!(rejected, Vec::<usize>::new());
    assert_eq!(
        records,
        vec![
            InputRecord {
                kind: TransactionType::Deposit,
                client: 1,
                tx: 1,
                amount: Some(Amount { nanos: 20_000_000_000 }),
            },
            InputRecord { kind: TransactionType::Dispute, client: 1, tx: 1, amount: None },
        ]
    );
    assert_eq!(make_input_record(&rows[0]), None);
}
