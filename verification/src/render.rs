//! The output text: one line for each key, in the table's order.

use crate::accumulator::{
    fits, is_greatest, is_least, lemma_extent_is_exact, quotient_toward_zero, summary, total,
    Accumulator,
};
use crate::decimal::{i64_text, integer_text};
use crate::directive::{Directive, Op};
use crate::records::RecordView;
use crate::table::{aggregated, column, keys_seen, sums_fit, Table, TableView};
use vstd::pervasive::unreached;
use vstd::prelude::*;
use vstd::string::StringExecFns;

verus! {

/// The number that `op` reads from an accumulator that has taken a value.
pub open spec fn statistic(acc: Accumulator, op: Op) -> int {
    match op {
        Op::Sum => acc.sum as int,
        Op::Max => acc.extent->0.max as int,
        Op::Min => acc.extent->0.min as int,
        Op::Avg => quotient_toward_zero(acc.sum as int, acc.count as int),
    }
}

/// The results of a row, each followed by a comma.
pub open spec fn cells_text(row: Seq<Accumulator>, directives: Seq<Directive>) -> Seq<char>
    decreases row.len(),
{
    if row.len() == 0 {
        Seq::empty()
    } else {
        cells_text(row.drop_last(), directives) + integer_text(
            statistic(row.last(), directives[row.len() - 1].op),
        ) + seq![',']
    }
}

/// One output line: the key, a comma, the results with their commas, and
/// a line feed.
pub open spec fn line_text(key: Seq<char>, row: Seq<Accumulator>, directives: Seq<Directive>)
    -> Seq<char> {
    key + seq![','] + cells_text(row, directives) + seq!['\n']
}

/// The lines of the first `n` keys.
pub open spec fn lines_text(table: TableView, n: int) -> Seq<char>
    decreases n,
{
    if n <= 0 {
        Seq::empty()
    } else {
        lines_text(table, n - 1) + line_text(
            table.keys[n - 1],
            table.rows[n - 1],
            table.directives,
        )
    }
}

/// The whole output: the lines of all keys, in the table's order.
pub open spec fn table_text(table: TableView) -> Seq<char> {
    lines_text(table, table.keys.len() as int)
}

/// Reads the result of `op` from an accumulator that has taken a value.
pub fn read(acc: &Accumulator, op: Op) -> (value: i64)
    requires
        acc.wf(),
        acc.count >= 1,
    ensures
        value == statistic(*acc, op),
{
    let result = match op {
        Op::Sum => Some(acc.sum()),
        Op::Max => acc.max(),
        Op::Min => acc.min(),
        Op::Avg => acc.avg(),
    };
    match result {
        Some(value) => value,
        None => unreached(),
    }
}

/// Writes the table out.
pub fn render(table: &Table) -> (text: String)
    requires
        table.wf(),
    ensures
        text@ == table_text(table@),
{
    proof {
        table.lemma_wf();
        reveal_strlit(",");
        reveal_strlit("\n");
    }
    let keys = table.keys();
    let directives = table.directives();
    let mut text = String::new();
    let mut k: usize = 0;
    while k < keys.len()
        invariant
            0 <= k <= keys.len(),
            table.wf(),
            table@.wf(),
            keys.deep_view() == table@.keys,
            directives@ == table@.directives,
            ","@ =~= seq![','],
            "\n"@ =~= seq!['\n'],
            text@ == lines_text(table@, k as int),
        decreases keys.len() - k,
    {
        let row = table.row(k);
        let ghost start = text@;
        let ghost key = keys[k as int]@;
        assert(key == table@.keys[k as int]);
        text.append(keys[k].as_str());
        text.append(",");
        let ghost head = text@;
        let mut d: usize = 0;
        assert(row@.take(0) =~= Seq::<Accumulator>::empty());
        while d < directives.len()
            invariant
                0 <= d <= directives.len(),
                table@.wf(),
                k < table@.keys.len(),
                row@ == table@.rows[k as int],
                directives@ == table@.directives,
                ","@ =~= seq![','],
                text@ == head + cells_text(row@.take(d as int), directives@),
            decreases directives.len() - d,
        {
            proof {
                let upto = row@.take(d + 1);
                assert(upto.drop_last() =~= row@.take(d as int));
                assert(upto.last() == row@[d as int]);
                assert(table@.rows[k as int][d as int].wf());
            }
            let number = i64_text(read(&row[d], directives[d].op));
            text.append(number.as_str());
            text.append(",");
            assert(text@ =~= head + (cells_text(row@.take(d as int), directives@) + number@
                + seq![',']));
            d = d + 1;
        }
        assert(row@.take(d as int) =~= row@);
        text.append("\n");
        assert(text@ =~= start + line_text(key, row@, directives@));
        k = k + 1;
    }
    text
}

/// What a directive reports of a group is exact: `sum` is the arithmetic
/// sum of the group's values, `max` and `min` are their true maximum and
/// minimum, and `avg` is the sum divided by their number, rounded toward
/// zero.
pub proof fn lemma_statistics_are_exact(values: Seq<i64>)
    requires
        fits(values),
        values.len() > 0,
    ensures
        statistic(summary(values), Op::Sum) == total(values),
        is_greatest(statistic(summary(values), Op::Max) as i64, values),
        is_least(statistic(summary(values), Op::Min) as i64, values),
        statistic(summary(values), Op::Avg) == quotient_toward_zero(
            total(values),
            values.len() as int,
        ),
{
    lemma_extent_is_exact(values);
}

/// In the table that records add up to, every result is exact: for each
/// key and directive the accumulator has taken the numbers of the
/// directive's column within the key's group, at least one, and the
/// directive reports their arithmetic sum, their true maximum or minimum,
/// or their sum divided by their number and rounded toward zero.
pub proof fn lemma_results_are_exact(
    pivot: int,
    directives: Seq<Directive>,
    records: Seq<RecordView>,
    k: int,
    d: int,
)
    requires
        aggregated(pivot, directives, records).wf(),
        sums_fit(pivot, directives, records),
        0 <= k < keys_seen(records, pivot).len(),
        0 <= d < directives.len(),
    ensures
        ({
            let key = keys_seen(records, pivot)[k];
            let values = column(records, pivot, key, directives[d].col as int);
            let acc = aggregated(pivot, directives, records).rows[k][d];
            &&& values.len() > 0
            &&& acc.count == values.len()
            &&& statistic(acc, Op::Sum) == total(values)
            &&& is_greatest(statistic(acc, Op::Max) as i64, values)
            &&& is_least(statistic(acc, Op::Min) as i64, values)
            &&& statistic(acc, Op::Avg) == quotient_toward_zero(
                total(values),
                values.len() as int,
            )
        }),
{
    let key = keys_seen(records, pivot)[k];
    let values = column(records, pivot, key, directives[d].col as int);
    let table = aggregated(pivot, directives, records);
    assert(fits(values));
    assert(table.rows[k][d] == summary(values));
    assert(table.rows[k][d].count >= 1);
    lemma_statistics_are_exact(values);
}

} // verus!
