use pivot::directive::{parse, parse_directive, parse_op, Directive, Op};
use pivot::error::{ArgumentFault, PivotError};

fn tokens(items: &[&str]) -> Vec<String> {
    items.iter().map(|s| s.to_string()).collect()
}

fn bad_form(token: &str) -> PivotError {
    PivotError::ArgumentParseError { fault: ArgumentFault::DirectiveForm, token: token.to_string() }
}

fn bad_operator(name: &str) -> PivotError {
    PivotError::ArgumentParseError { fault: ArgumentFault::Operator, token: name.to_string() }
}

#[test]
fn the_four_operations_are_named_in_lower_case() {
    assert_eq!(parse_op("sum"), Some(Op::Sum));
    assert_eq!(parse_op("max"), Some(Op::Max));
    assert_eq!(parse_op("min"), Some(Op::Min));
    assert_eq!(parse_op("avg"), Some(Op::Avg));
    for name in ["", "Sum", "SUM", "sum ", " sum", "su", "summ", "average", "mean"] {
        assert_eq!(parse_op(name), None);
    }
}

#[test]
fn a_directive_is_an_operation_a_colon_and_a_column() {
    assert_eq!(parse_directive("sum:1"), Ok(Directive { op: Op::Sum, col: 1 }));
    assert_eq!(parse_directive("max:0"), Ok(Directive { op: Op::Max, col: 0 }));
    assert_eq!(parse_directive("min:25"), Ok(Directive { op: Op::Min, col: 25 }));
    assert_eq!(parse_directive("avg:3"), Ok(Directive { op: Op::Avg, col: 3 }));
}

#[test]
fn a_directive_must_hold_exactly_one_colon() {
    for token in ["", "sum", "sum1", "sum:1:2", "sum::1", ":sum:1", "sum:1:", "::"] {
        assert_eq!(parse_directive(token), Err(bad_form(token)));
    }
}

#[test]
fn the_column_of_a_directive_must_be_an_index() {
    for token in ["sum:", "sum:x", "sum:-1", "sum:1.5", "sum: 1", "bogus:x", ":"] {
        assert_eq!(parse_directive(token), Err(bad_form(token)));
    }
}

#[test]
fn the_column_is_checked_before_the_operation() {
    assert_eq!(parse_directive("bogus:x"), Err(bad_form("bogus:x")));
    assert_eq!(parse_directive("bogus:1"), Err(bad_operator("bogus")));
    assert_eq!(parse_directive(":1"), Err(bad_operator("")));
    assert_eq!(parse_directive("Sum:1"), Err(bad_operator("Sum")));
    assert_eq!(parse_directive("sümme:1"), Err(bad_operator("sümme")));
}

#[test]
fn arguments_give_the_pivot_column_and_the_directives_in_order() {
    assert_eq!(
        parse(&tokens(&["2", "avg:3", "sum:1", "sum:1", "min:0"])),
        Ok((
            2,
            vec![
                Directive { op: Op::Avg, col: 3 },
                Directive { op: Op::Sum, col: 1 },
                Directive { op: Op::Sum, col: 1 },
                Directive { op: Op::Min, col: 0 },
            ]
        ))
    );
}

#[test]
fn fewer_than_two_arguments_are_refused_first() {
    assert_eq!(parse(&tokens(&[])), Err(PivotError::ArgumentCountError { given: 0 }));
    assert_eq!(parse(&tokens(&["x"])), Err(PivotError::ArgumentCountError { given: 1 }));
    assert_eq!(parse(&tokens(&["sum:1"])), Err(PivotError::ArgumentCountError { given: 1 }));
}

#[test]
fn the_pivot_column_is_checked_before_the_directives() {
    assert_eq!(
        parse(&tokens(&["x", "bogus"])),
        Err(PivotError::ArgumentParseError {
            fault: ArgumentFault::PivotIndex,
            token: "x".to_string(),
        })
    );
}

#[test]
fn the_first_bad_directive_is_reported() {
    assert_eq!(parse(&tokens(&["0", "sum:1", "nope:2", "sum"])), Err(bad_operator("nope")));
    assert_eq!(parse(&tokens(&["0", "sum:1", "sum", "nope:2"])), Err(bad_form("sum")));
}

#[test]
fn each_failure_has_its_diagnostic() {
    assert_eq!(
        PivotError::ArgumentCountError { given: 1 }.message(),
        "need at least two arguments, got 1"
    );
    assert_eq!(
        PivotError::ArgumentParseError {
            fault: ArgumentFault::PivotIndex,
            token: "x".to_string()
        }
        .message(),
        "the pivot column must be a column index, not x"
    );
    assert_eq!(bad_form("sum").message(), "a directive must have the form operation:column, not sum");
    assert_eq!(bad_operator("nope").message(), "the operations are sum, max, min and avg, not nope");
    assert_eq!(PivotError::MalformedRow { row: 12 }.message(), "too few fields in record 12");
    assert_eq!(
        PivotError::InvalidNumber { text: "foo".to_string(), row: 0 }.message(),
        "cannot read the number foo in record 0"
    );
    assert_eq!(
        PivotError::Overflow { row: 305 }.message(),
        "a sum or a count overflows in record 305"
    );
}
