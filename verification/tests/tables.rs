use pivot::accumulator::{Accumulator, Extent};
use pivot::directive::{Directive, Op};
use pivot::error::PivotError;
use pivot::render::{read, render};
use pivot::table::{run, Table};

fn fields(items: &[&str]) -> Option<Vec<String>> {
    Some(items.iter().map(|s| s.to_string()).collect())
}

fn table_of(pivot: usize, directives: Vec<Directive>, records: &Vec<Option<Vec<String>>>) -> Table {
    match run(pivot, directives, records) {
        Ok(table) => table,
        Err(e) => panic!("{}", e.message()),
    }
}

fn folded(values: &[i64]) -> Accumulator {
    let mut acc = Accumulator::new();
    for v in values {
        assert!(acc.fold(*v));
    }
    acc
}

#[test]
fn a_new_accumulator_has_no_extent() {
    let acc = Accumulator::new();
    assert_eq!(acc, Accumulator { sum: 0, count: 0, extent: None });
    assert_eq!(acc.sum(), 0);
    assert_eq!(acc.max(), None);
    assert_eq!(acc.min(), None);
    assert_eq!(acc.avg(), None);
}

#[test]
fn the_first_fold_sets_both_ends_of_the_extent() {
    assert_eq!(
        folded(&[-4]),
        Accumulator { sum: -4, count: 1, extent: Some(Extent { max: -4, min: -4 }) }
    );
    assert_eq!(
        folded(&[0]),
        Accumulator { sum: 0, count: 1, extent: Some(Extent { max: 0, min: 0 }) }
    );
}

#[test]
fn later_folds_widen_the_extent() {
    let acc = folded(&[5, -2, 9, 3]);
    assert_eq!(acc, Accumulator { sum: 15, count: 4, extent: Some(Extent { max: 9, min: -2 }) });
    assert_eq!(acc.sum(), 15);
    assert_eq!(acc.max(), Some(9));
    assert_eq!(acc.min(), Some(-2));
    assert_eq!(acc.avg(), Some(3));
}

#[test]
fn a_fold_that_would_overflow_changes_nothing() {
    let mut high = folded(&[i64::MAX - 1]);
    assert!(high.fold(1));
    let kept = high;
    assert!(!high.fold(1));
    assert_eq!(high, kept);
    assert!(high.fold(-3));
    assert_eq!(high.sum(), i64::MAX - 3);
    let mut low = folded(&[i64::MIN]);
    assert!(!low.fold(-1));
    assert_eq!(low.sum(), i64::MIN);
    let mut full = Accumulator { sum: 0, count: i64::MAX, extent: Some(Extent { max: 0, min: 0 }) };
    assert!(!full.fold(0));
    assert_eq!(full.count, i64::MAX);
}

#[test]
fn the_average_is_the_quotient_rounded_toward_zero() {
    assert_eq!(folded(&[7, 0]).avg(), Some(3));
    assert_eq!(folded(&[-7, 0]).avg(), Some(-3));
    assert_eq!(folded(&[1, 1, 2]).avg(), Some(1));
    assert_eq!(folded(&[-1, -1, -2]).avg(), Some(-1));
    assert_eq!(folded(&[i64::MIN]).avg(), Some(i64::MIN));
    assert_eq!(folded(&[i64::MAX]).avg(), Some(i64::MAX));
    assert_eq!(folded(&[-5, 5]).avg(), Some(0));
}

#[test]
fn each_operation_reads_its_own_statistic() {
    let acc = folded(&[10, -3, 4]);
    assert_eq!(read(&acc, Op::Sum), 11);
    assert_eq!(read(&acc, Op::Max), 10);
    assert_eq!(read(&acc, Op::Min), -3);
    assert_eq!(read(&acc, Op::Avg), 3);
}

#[test]
fn keys_stand_once_in_the_order_of_their_first_record() {
    let records = vec![
        fields(&["b", "1"]),
        fields(&["a", "2"]),
        fields(&["b", "3"]),
        fields(&["c", "4"]),
        fields(&["a", "5"]),
        fields(&["", "6"]),
        fields(&["c", "7"]),
    ];
    let table = table_of(0, vec![Directive { op: Op::Sum, col: 1 }], &records);
    assert_eq!(table.keys(), &vec!["b".to_string(), "a".to_string(), "c".to_string(), String::new()]);
    assert_eq!(table.row(0), &vec![folded(&[1, 3])]);
    assert_eq!(table.row(1), &vec![folded(&[2, 5])]);
    assert_eq!(table.row(2), &vec![folded(&[4, 7])]);
    assert_eq!(table.row(3), &vec![folded(&[6])]);
}

#[test]
fn each_directive_has_its_own_accumulator() {
    let directives = vec![
        Directive { op: Op::Max, col: 1 },
        Directive { op: Op::Min, col: 2 },
        Directive { op: Op::Sum, col: 1 },
    ];
    let records = vec![fields(&["k", "1", "10"]), fields(&["k", "2", "-20"])];
    let table = table_of(0, directives.clone(), &records);
    assert_eq!(table.directives(), &directives);
    assert_eq!(table.row(0), &vec![folded(&[1, 2]), folded(&[10, -20]), folded(&[1, 2])]);
    assert_eq!(render(&table), "k,2,-20,3,\n");
}

#[test]
fn the_pivot_column_may_be_a_number_column_too() {
    let records = vec![fields(&["5", "x"]), fields(&["5", "y"]), fields(&["05", "z"])];
    let table = table_of(0, vec![Directive { op: Op::Sum, col: 0 }], &records);
    assert_eq!(render(&table), "5,10,\n05,5,\n");
}

#[test]
fn undecoded_records_are_passed_over_but_counted() {
    let records = vec![None, fields(&["a", "1"]), None, None, fields(&["a", "oops"])];
    let failure = run(0, vec![Directive { op: Op::Sum, col: 1 }], &records).err();
    assert_eq!(failure, Some(PivotError::InvalidNumber { text: "oops".to_string(), row: 4 }));
    let only_gaps = vec![None, None];
    let table = table_of(3, vec![Directive { op: Op::Sum, col: 9 }], &only_gaps);
    assert!(table.keys().is_empty());
    assert_eq!(render(&table), "");
}

#[test]
fn no_records_make_an_empty_table() {
    let table = table_of(0, vec![Directive { op: Op::Avg, col: 1 }], &Vec::new());
    assert!(table.keys().is_empty());
    assert_eq!(render(&table), "");
    let empty = Table::new(4, vec![Directive { op: Op::Avg, col: 1 }]);
    assert_eq!(empty.pivot(), 4);
    assert_eq!(empty.taken(), 0);
    assert!(empty.keys().is_empty());
    assert_eq!(empty.directives(), &vec![Directive { op: Op::Avg, col: 1 }]);
    assert_eq!(render(&empty), "");
}

#[test]
fn without_directives_only_the_keys_are_listed() {
    let records = vec![fields(&["a"]), fields(&["b"]), fields(&["a"])];
    let table = table_of(0, Vec::new(), &records);
    assert_eq!(render(&table), "a,\nb,\n");
}

#[test]
fn a_failure_hands_out_no_table() {
    let directives = vec![Directive { op: Op::Sum, col: 1 }, Directive { op: Op::Sum, col: 2 }];
    let records = vec![
        fields(&["a", "1", "1"]),
        fields(&["b", "2", "2"]),
        fields(&["a", "3"]),
        fields(&["c", "4", "4"]),
    ];
    let failure = run(0, directives, &records).err();
    assert_eq!(failure, Some(PivotError::MalformedRow { row: 2 }));
    let short = vec![fields(&["a", "1"]), fields(&[])];
    let no_pivot = run(0, vec![Directive { op: Op::Sum, col: 1 }], &short).err();
    assert_eq!(no_pivot, Some(PivotError::MalformedRow { row: 1 }));
}

#[test]
fn an_overflow_names_the_record_that_caused_it() {
    let directives = vec![Directive { op: Op::Min, col: 1 }, Directive { op: Op::Sum, col: 2 }];
    let records = vec![
        fields(&["a", "1", "9223372036854775807"]),
        fields(&["b", "1", "9223372036854775807"]),
        fields(&["a", "1", "-1"]),
        fields(&["b", "1", "1"]),
    ];
    let failure = run(0, directives, &records).err();
    assert_eq!(failure, Some(PivotError::Overflow { row: 3 }));
}

#[test]
fn records_can_be_taken_in_one_by_one() {
    let mut table = Table::new(1, vec![Directive { op: Op::Sum, col: 0 }, Directive { op: Op::Max, col: 2 }]);
    assert_eq!(table.absorb(&fields(&["1", "x", "10"])), Ok(()));
    assert_eq!(render(&table), "x,1,10,\n");
    assert_eq!(table.absorb(&None), Ok(()));
    assert_eq!(table.absorb(&fields(&["2", "y", "20"])), Ok(()));
    assert_eq!(table.absorb(&fields(&["3", "x", "-30"])), Ok(()));
    assert_eq!(table.taken(), 4);
    assert_eq!(table.pivot(), 1);
    assert_eq!(table.keys(), &vec!["x".to_string(), "y".to_string()]);
    assert_eq!(table.row(0), &vec![folded(&[1, 3]), folded(&[10, -30])]);
    assert_eq!(table.row(1), &vec![folded(&[2]), folded(&[20])]);
    assert_eq!(render(&table), "x,4,10,\ny,2,20,\n");
}

#[test]
fn a_record_that_fails_leaves_the_table_as_it_was() {
    let mut table = Table::new(0, vec![Directive { op: Op::Sum, col: 1 }, Directive { op: Op::Sum, col: 2 }]);
    assert_eq!(table.absorb(&fields(&["a", "1", "2"])), Ok(()));
    assert_eq!(
        table.absorb(&fields(&["a", "5", "x"])),
        Err(PivotError::InvalidNumber { text: "x".to_string(), row: 1 })
    );
    assert_eq!(table.absorb(&fields(&["b", "5"])), Err(PivotError::MalformedRow { row: 1 }));
    assert_eq!(table.absorb(&fields(&[])), Err(PivotError::MalformedRow { row: 1 }));
    assert_eq!(
        table.absorb(&fields(&["a", "1", "9223372036854775806"])),
        Err(PivotError::Overflow { row: 1 })
    );
    assert_eq!(table.taken(), 1);
    assert_eq!(table.keys(), &vec!["a".to_string()]);
    assert_eq!(table.row(0), &vec![folded(&[1]), folded(&[2])]);
    assert_eq!(render(&table), "a,1,2,\n");
    assert_eq!(table.absorb(&fields(&["b", "5", "6"])), Ok(()));
    assert_eq!(render(&table), "a,1,2,\nb,5,6,\n");
}

#[test]
fn a_run_is_the_records_taken_in_order() {
    let directives = vec![Directive { op: Op::Avg, col: 1 }, Directive { op: Op::Min, col: 1 }];
    let records = vec![fields(&["p", "4"]), None, fields(&["q", "-9"]), fields(&["p", "7"])];
    let whole = table_of(0, directives.clone(), &records);
    let mut stepwise = Table::new(0, directives);
    for record in &records {
        assert_eq!(stepwise.absorb(record), Ok(()));
    }
    assert_eq!(whole.keys(), stepwise.keys());
    assert_eq!(whole.row(0), stepwise.row(0));
    assert_eq!(whole.row(1), stepwise.row(1));
    assert_eq!(whole.taken(), stepwise.taken());
    assert_eq!(render(&whole), "p,5,4,\nq,-9,-9,\n");
    assert_eq!(render(&stepwise), render(&whole));
}
