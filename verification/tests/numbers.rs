use pivot::directive::{parse, Directive, Op};
use pivot::error::{ArgumentFault, PivotError};
use pivot::summarize;

fn words(items: &[&str]) -> Vec<String> {
    items.iter().map(|s| s.to_string()).collect()
}

fn sum_of_field(text: &str) -> Result<String, PivotError> {
    summarize(&words(&["0", "sum:1"]), &vec![Some(words(&["k", text]))])
}

fn invalid(text: &str) -> Result<String, PivotError> {
    Err(PivotError::InvalidNumber { text: text.to_string(), row: 0 })
}

#[test]
fn fields_are_read_as_signed_decimal_numbers() {
    assert_eq!(sum_of_field("0"), Ok("k,0,\n".to_string()));
    assert_eq!(sum_of_field("42"), Ok("k,42,\n".to_string()));
    assert_eq!(sum_of_field("-42"), Ok("k,-42,\n".to_string()));
    assert_eq!(sum_of_field("+42"), Ok("k,42,\n".to_string()));
    assert_eq!(sum_of_field("007"), Ok("k,7,\n".to_string()));
    assert_eq!(sum_of_field("-0"), Ok("k,0,\n".to_string()));
    assert_eq!(sum_of_field("+0"), Ok("k,0,\n".to_string()));
}

#[test]
fn the_bounds_of_the_64_bit_range_are_read() {
    assert_eq!(sum_of_field("9223372036854775807"), Ok("k,9223372036854775807,\n".to_string()));
    assert_eq!(sum_of_field("-9223372036854775808"), Ok("k,-9223372036854775808,\n".to_string()));
    assert_eq!(sum_of_field("9223372036854775808"), invalid("9223372036854775808"));
    assert_eq!(sum_of_field("-9223372036854775809"), invalid("-9223372036854775809"));
    assert_eq!(
        sum_of_field("00000000000000000009223372036854775807"),
        Ok("k,9223372036854775807,\n".to_string())
    );
}

#[test]
fn anything_but_a_sign_and_digits_is_no_number() {
    for text in [
        "", "+", "-", "--1", "+-1", "-+1", "1-", "1+", " 1", "1 ", "1_000", "1.0", "1e3", "0x10",
        "foo", "١٢", "１２", "1,2", "\t1", "1\n",
    ] {
        assert_eq!(sum_of_field(text), invalid(text));
    }
}

#[test]
fn column_indexes_are_read_as_unsigned_decimal_numbers() {
    let expect = |col: usize| Ok((col, vec![Directive { op: Op::Sum, col }]));
    assert_eq!(parse(&words(&["0", "sum:0"])), expect(0));
    assert_eq!(parse(&words(&["12", "sum:12"])), expect(12));
    assert_eq!(parse(&words(&["+3", "sum:+3"])), expect(3));
    assert_eq!(parse(&words(&["003", "sum:003"])), expect(3));
    let max = usize::MAX.to_string();
    assert_eq!(parse(&vec![max.clone(), format!("sum:{}", max)]), expect(usize::MAX));
}

#[test]
fn a_negative_or_oversized_pivot_index_is_refused() {
    for text in ["-1", "-0", "", "+", "a", "1 ", " 1", "1.5", "340282366920938463463374607431768211456"] {
        assert_eq!(
            parse(&words(&[text, "sum:1"])),
            Err(PivotError::ArgumentParseError {
                fault: ArgumentFault::PivotIndex,
                token: text.to_string(),
            })
        );
    }
}

#[test]
fn results_are_written_in_decimal() {
    let args = words(&["0", "sum:1", "min:1", "max:1", "avg:1"]);
    let records = vec![
        Some(words(&["k", "-1000000"])),
        Some(words(&["k", "10"])),
        Some(words(&["k", "1234567890123"])),
    ];
    assert_eq!(
        summarize(&args, &records),
        Ok("k,1234566890133,-1000000,1234567890123,411522296711,\n".to_string())
    );
}
