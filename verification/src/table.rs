//! The aggregation table: one row of accumulators for each distinct value
//! of the pivot column, in the order in which the values first appear.

use crate::accumulator::{fits, lemma_fold_summarizes, summary, Accumulator};
use crate::decimal::{decimal_i64, parse_i64};
use crate::directive::Directive;
use crate::error::{Fault, PivotError};
use crate::records::RecordView;
use vstd::hash_map::StringHashMap;
use vstd::prelude::*;

verus! {

/// The group that `record` belongs to: its field at the pivot column,
/// taken as it stands. A record that was not decoded, or that is too
/// short, belongs to none.
pub open spec fn key_of(record: RecordView, pivot: int) -> Option<Seq<char>> {
    match record {
        Some(fields) if 0 <= pivot < fields.len() => Some(fields[pivot]),
        _ => None,
    }
}

/// The number in column `col` of `record`, where there is one.
pub open spec fn cell(record: RecordView, col: int) -> Option<i64> {
    match record {
        Some(fields) if 0 <= col < fields.len() => decimal_i64(fields[col]),
        _ => None,
    }
}

/// The distinct keys of `records`, each once, in the order of their first
/// occurrence.
pub open spec fn keys_seen(records: Seq<RecordView>, pivot: int) -> Seq<Seq<char>>
    decreases records.len(),
{
    if records.len() == 0 {
        Seq::empty()
    } else {
        let before = keys_seen(records.drop_last(), pivot);
        match key_of(records.last(), pivot) {
            Some(key) if !before.contains(key) => before.push(key),
            _ => before,
        }
    }
}

/// The numbers in column `col` of the records of group `key`, in the
/// order of the records.
pub open spec fn column(records: Seq<RecordView>, pivot: int, key: Seq<char>, col: int) -> Seq<
    i64,
>
    decreases records.len(),
{
    if records.len() == 0 {
        Seq::empty()
    } else {
        let before = column(records.drop_last(), pivot, key, col);
        if key_of(records.last(), pivot) == Some(key) {
            match cell(records.last(), col) {
                Some(value) => before.push(value),
                None => before,
            }
        } else {
            before
        }
    }
}

/// What stops `directive` from being applied to a record with the fields
/// `fields`, which `prior` precede: the column is missing, its field is no
/// number, or the number does not fit on top of what the group holds.
pub open spec fn directive_fault(
    prior: Seq<RecordView>,
    fields: Seq<Seq<char>>,
    pivot: int,
    directive: Directive,
    row: int,
) -> Option<Fault> {
    let col = directive.col as int;
    if col >= fields.len() {
        Some(Fault::MalformedRow { row })
    } else {
        match decimal_i64(fields[col]) {
            None => Some(Fault::InvalidNumber { text: fields[col], row }),
            Some(value) => if fits(column(prior, pivot, fields[pivot], col).push(value)) {
                None
            } else {
                Some(Fault::Overflow { row })
            },
        }
    }
}

/// The failure of the first of `directives` that cannot be applied.
pub open spec fn directives_fault(
    prior: Seq<RecordView>,
    fields: Seq<Seq<char>>,
    pivot: int,
    directives: Seq<Directive>,
    row: int,
) -> Option<Fault>
    decreases directives.len(),
{
    if directives.len() == 0 {
        None
    } else {
        match directives_fault(prior, fields, pivot, directives.drop_last(), row) {
            Some(fault) => Some(fault),
            None => directive_fault(prior, fields, pivot, directives.last(), row),
        }
    }
}

/// The failure that `record` causes as record number `row`, after
/// `prior`. A record that was not decoded is passed over; one without a
/// field at the pivot column is malformed; otherwise the directives are
/// applied in their order.
pub open spec fn row_fault(
    prior: Seq<RecordView>,
    record: RecordView,
    pivot: int,
    directives: Seq<Directive>,
    row: int,
) -> Option<Fault> {
    match record {
        None => None,
        Some(fields) => if pivot >= fields.len() {
            Some(Fault::MalformedRow { row })
        } else {
            directives_fault(prior, fields, pivot, directives, row)
        },
    }
}

/// The failure of the first record that causes one. Records are numbered
/// from zero by their position, the undecoded ones included.
pub open spec fn first_fault(
    records: Seq<RecordView>,
    pivot: int,
    directives: Seq<Directive>,
) -> Option<Fault>
    decreases records.len(),
{
    if records.len() == 0 {
        None
    } else {
        let prior = records.drop_last();
        match first_fault(prior, pivot, directives) {
            Some(fault) => Some(fault),
            None => row_fault(prior, records.last(), pivot, directives, records.len() - 1),
        }
    }
}

/// A table as contracts speak of it: the directives, the keys in output
/// order and, for each key, one accumulator for each directive.
#[verifier::ext_equal]
pub struct TableView {
    pub directives: Seq<Directive>,
    pub keys: Seq<Seq<char>>,
    pub rows: Seq<Seq<Accumulator>>,
}

impl TableView {
    /// Every key has a row, every row has one accumulator for each
    /// directive, and every accumulator has taken a value.
    pub open spec fn wf(self) -> bool {
        &&& self.rows.len() == self.keys.len()
        &&& forall|k: int|
            0 <= k < self.rows.len() ==> (#[trigger] self.rows[k]).len() == self.directives.len()
        &&& forall|k: int, d: int|
            0 <= k < self.rows.len() && 0 <= d < self.directives.len() ==> (
            #[trigger] self.rows[k][d]).wf() && self.rows[k][d].count >= 1
    }
}

/// The table that `records` add up to: the keys seen, and for each key
/// and directive the summary of the directive's column within the key's
/// group.
pub open spec fn aggregated(pivot: int, directives: Seq<Directive>, records: Seq<RecordView>)
    -> TableView {
    let keys = keys_seen(records, pivot);
    TableView {
        directives,
        keys,
        rows: Seq::new(
            keys.len(),
            |k: int|
                Seq::new(
                    directives.len(),
                    |d: int| summary(column(records, pivot, keys[k], directives[d].col as int)),
                ),
        ),
    }
}

/// No sum and no count of the table that `records` add up to is cut to
/// fit: each is the true sum, or number, of its column.
pub open spec fn sums_fit(pivot: int, directives: Seq<Directive>, records: Seq<RecordView>)
    -> bool {
    forall|k: int, d: int|
        #![trigger keys_seen(records, pivot)[k], directives[d]]
        0 <= k < keys_seen(records, pivot).len() && 0 <= d < directives.len() ==> fits(
            column(records, pivot, keys_seen(records, pivot)[k], directives[d].col as int),
        )
}

/// The aggregation table: the state of a run between two records.
pub struct Table {
    pivot: usize,
    directives: Vec<Directive>,
    keys: Vec<String>,
    rows: Vec<Vec<Accumulator>>,
    index: StringHashMap<usize>,
    taken: usize,
    seen: Ghost<Seq<RecordView>>,
}

impl View for Table {
    type V = TableView;

    closed spec fn view(&self) -> TableView {
        TableView {
            directives: self.directives@,
            keys: self.keys.deep_view(),
            rows: Seq::new(self.rows@.len(), |k: int| self.rows@[k]@),
        }
    }
}

impl Table {
    /// The pivot column that the table groups by.
    pub closed spec fn pivot_column(&self) -> int {
        self.pivot as int
    }

    /// The records taken in so far, in their order, the undecoded ones
    /// included.
    pub closed spec fn seen(&self) -> Seq<RecordView> {
        self.seen@
    }

    /// Each key is found at its own position, so that no key stands twice.
    spec fn indexed(&self) -> bool {
        &&& forall|k: int|
            0 <= k < self.keys@.len() ==> self.index@.contains_key(#[trigger] self.keys@[k]@)
                && self.index@[self.keys@[k]@] == k
        &&& forall|key: Seq<char>| #[trigger]
            self.index@.contains_key(key) ==> self.index@[key] < self.keys@.len()
                && self.keys@[self.index@[key] as int]@ == key
    }

    /// The table is sound: none of the records taken in has failed, and
    /// the table holds exactly what they add up to.
    pub closed spec fn wf(&self) -> bool {
        &&& self@.wf()
        &&& self.indexed()
        &&& self.taken == self.seen@.len()
        &&& first_fault(self.seen@, self.pivot as int, self.directives@) is None
        &&& self@ == aggregated(self.pivot as int, self.directives@, self.seen@)
        &&& sums_fit(self.pivot as int, self.directives@, self.seen@)
    }

    /// What soundness means, in terms of the records taken in.
    pub proof fn lemma_wf(&self)
        requires
            self.wf(),
        ensures
            self@.wf(),
            first_fault(self.seen(), self.pivot_column(), self@.directives) is None,
            self@ == aggregated(self.pivot_column(), self@.directives, self.seen()),
            sums_fit(self.pivot_column(), self@.directives, self.seen()),
    {
    }

    /// An empty table that groups by column `pivot` and applies
    /// `directives`.
    pub fn new(pivot: usize, directives: Vec<Directive>) -> (table: Table)
        ensures
            table.wf(),
            table.pivot_column() == pivot,
            table.seen() == Seq::<RecordView>::empty(),
            table@ == (TableView { directives: directives@, keys: Seq::empty(), rows: Seq::empty() }),
    {
        let table = Table {
            pivot,
            directives,
            keys: Vec::new(),
            rows: Vec::new(),
            index: StringHashMap::new(),
            taken: 0,
            seen: Ghost(Seq::empty()),
        };
        assert(table@ =~~= aggregated(pivot as int, directives@, Seq::empty()));
        table
    }

    /// Takes in the next record. A record that was not decoded changes
    /// nothing but the count of records. For a decoded one the row of its
    /// key is found, or made at the end of the table, and one number is
    /// folded into each of its accumulators. On a failure the table is
    /// left as it was.
    pub fn absorb(&mut self, record: &Option<Vec<String>>) -> (res: Result<(), PivotError>)
        requires
            old(self).wf(),
            old(self).seen().len() < usize::MAX,
        ensures
            final(self).wf(),
            final(self).pivot_column() == old(self).pivot_column(),
            final(self)@.directives == old(self)@.directives,
            match res {
                Ok(()) => {
                    &&& row_fault(
                        old(self).seen(),
                        record.deep_view(),
                        old(self).pivot_column(),
                        old(self)@.directives,
                        old(self).seen().len() as int,
                    ) is None
                    &&& final(self).seen() == old(self).seen().push(record.deep_view())
                },
                Err(e) => {
                    &&& row_fault(
                        old(self).seen(),
                        record.deep_view(),
                        old(self).pivot_column(),
                        old(self)@.directives,
                        old(self).seen().len() as int,
                    ) == Some(e@)
                    &&& final(self).seen() == old(self).seen()
                    &&& final(self)@ == old(self)@
                },
            },
    {
        match record {
            Some(fields) => self.absorb_fields(fields),
            None => {
                let ghost prior = self.seen@;
                let ghost next = prior.push(None);
                let ghost p = self.pivot as int;
                let ghost ds = self.directives@;
                proof {
                    assert(next.drop_last() =~= prior);
                    assert(keys_seen(next, p) == keys_seen(prior, p));
                    assert forall|key: Seq<char>, col: int|
                        column(next, p, key, col) == column(prior, p, key, col) by {}
                    assert(aggregated(p, ds, next) =~~= aggregated(p, ds, prior));
                }
                self.taken = self.taken + 1;
                self.seen = Ghost(next);
                Ok(())
            },
        }
    }

    /// Takes in the next record, which was decoded into `fields`.
    #[verifier::loop_isolation(false)]
    fn absorb_fields(&mut self, fields: &Vec<String>) -> (res: Result<(), PivotError>)
        requires
            old(self).wf(),
            old(self).seen().len() < usize::MAX,
        ensures
            final(self).wf(),
            final(self).pivot_column() == old(self).pivot_column(),
            final(self)@.directives == old(self)@.directives,
            match res {
                Ok(()) => {
                    &&& row_fault(
                        old(self).seen(),
                        Some(fields.deep_view()),
                        old(self).pivot_column(),
                        old(self)@.directives,
                        old(self).seen().len() as int,
                    ) is None
                    &&& final(self).seen() == old(self).seen().push(Some(fields.deep_view()))
                },
                Err(e) => {
                    &&& row_fault(
                        old(self).seen(),
                        Some(fields.deep_view()),
                        old(self).pivot_column(),
                        old(self)@.directives,
                        old(self).seen().len() as int,
                    ) == Some(e@)
                    &&& final(self).seen() == old(self).seen()
                    &&& final(self)@ == old(self)@
                },
            },
    {
        let pivot: usize = self.pivot;
        let row: usize = self.taken;
        let ghost prior = self.seen@;
        let ghost texts = fields.deep_view();
        let ghost record: RecordView = Some(texts);
        let ghost next = prior.push(record);
        let ghost ds = self@.directives;
        let ghost p = pivot as int;
        let ghost before_view = self@;
        if pivot >= fields.len() {
            return Err(PivotError::MalformedRow { row });
        }
        let key: &String = &fields[pivot];
        let found: Option<usize> = match self.index.get(key.as_str()) {
            Some(at) => Some(*at),
            None => None,
        };
        proof {
            assert(next.drop_last() =~= prior);
            match found {
                Some(at) => {
                    assert(before_view.keys[at as int] == key@);
                },
                None => {
                    assert(!before_view.keys.contains(key@));
                },
            }
        }
        let n: usize = self.directives.len();
        let mut fresh: Vec<Accumulator> = Vec::new();
        let mut d: usize = 0;
        while d < n
            invariant
                0 <= d <= n,
                fresh@.len() == d,
                directives_fault(prior, texts, p, ds.take(d as int), row as int) is None,
                forall|c: int|
                    0 <= c < d ==> fits(#[trigger] column(next, p, key@, ds[c].col as int))
                        && fresh@[c] == summary(column(next, p, key@, ds[c].col as int))
                        && fresh@[c].wf() && fresh@[c].count >= 1,
            decreases n - d,
        {
            let directive = self.directives[d];
            let ghost col = directive.col as int;
            proof {
                assert(ds.take(d + 1).drop_last() =~= ds.take(d as int));
            }
            if directive.col >= fields.len() {
                proof {
                    lemma_directive_fault_stays(prior, texts, p, ds, row as int, d + 1);
                }
                return Err(PivotError::MalformedRow { row });
            }
            let text: &String = &fields[directive.col];
            let value: i64 = match parse_i64(text.as_str()) {
                None => {
                    proof {
                        lemma_directive_fault_stays(prior, texts, p, ds, row as int, d + 1);
                    }
                    return Err(PivotError::InvalidNumber { text: text.clone(), row });
                },
                Some(value) => value,
            };
            let ghost before = column(prior, p, key@, col);
            proof {
                if let Some(at) = found {
                    assert(before_view.rows[at as int].len() == n);
                }
            }
            let mut acc: Accumulator = match found {
                Some(at) => self.rows[at][d],
                None => Accumulator::new(),
            };
            proof {
                if found is None {
                    lemma_unseen_key_has_no_values(prior, p, key@, col);
                }
                lemma_fold_summarizes(acc, before, value);
            }
            if !acc.fold(value) {
                proof {
                    lemma_directive_fault_stays(prior, texts, p, ds, row as int, d + 1);
                }
                return Err(PivotError::Overflow { row });
            }
            fresh.push(acc);
            d = d + 1;
        }
        assert(ds.take(n as int) =~= ds);
        match found {
            Some(at) => {
                self.rows.set(at, fresh);
            },
            None => {
                let at: usize = self.keys.len();
                self.keys.push(key.clone());
                self.rows.push(fresh);
                self.index.insert(key.clone(), at);
            },
        }
        proof {
            let after = self@;
            let goal = aggregated(p, ds, next);
            let at: int = match found {
                Some(at) => at as int,
                None => before_view.keys.len() as int,
            };
            assert forall|k: int| 0 <= k < after.keys.len() && k != at implies #[trigger] after.rows[k]
                == before_view.rows[k] && after.keys[k] == before_view.keys[k] && after.keys[k]
                != key@ by {}
            assert forall|k: int| 0 <= k < after.keys.len() implies (#[trigger] after.rows[k]).len()
                == ds.len() by {}
            assert forall|k: int, c: int| 0 <= k < after.keys.len() && 0 <= c < ds.len() implies {
                let values = column(next, p, after.keys[k], ds[c].col as int);
                &&& fits(values)
                &&& #[trigger] after.rows[k][c] == summary(values)
                &&& after.rows[k][c].wf()
                &&& after.rows[k][c].count >= 1
            } by {
                if k != at {
                    assert(column(next, p, after.keys[k], ds[c].col as int) == column(
                        prior,
                        p,
                        after.keys[k],
                        ds[c].col as int,
                    ));
                }
            }
            assert forall|k: int| 0 <= k < after.keys.len() implies #[trigger] after.rows[k]
                =~= goal.rows[k] by {
                assert forall|c: int| 0 <= c < ds.len() implies after.rows[k][c]
                    == goal.rows[k][c] by {}
            }
            assert(after =~~= goal);
        }
        self.taken = self.taken + 1;
        self.seen = Ghost(next);
        Ok(())
    }

    /// The pivot column that the table groups by.
    pub fn pivot(&self) -> (pivot: usize)
        ensures
            pivot == self.pivot_column(),
    {
        self.pivot
    }

    /// The number of records taken in so far.
    pub fn taken(&self) -> (taken: usize)
        requires
            self.wf(),
        ensures
            taken == self.seen().len(),
    {
        self.taken
    }

    /// The directives that the table was made for.
    pub fn directives(&self) -> (directives: &Vec<Directive>)
        ensures
            directives@ == self@.directives,
    {
        &self.directives
    }

    /// The keys, in output order.
    pub fn keys(&self) -> (keys: &Vec<String>)
        ensures
            keys.deep_view() == self@.keys,
    {
        &self.keys
    }

    /// The accumulators of the key at position `k`, one for each directive.
    pub fn row(&self, k: usize) -> (row: &Vec<Accumulator>)
        requires
            self.wf(),
            k < self@.keys.len(),
        ensures
            row@ == self@.rows[k as int],
    {
        &self.rows[k]
    }
}

/// A key that was not seen has no record, and so no values.
proof fn lemma_unseen_key_has_no_values(
    records: Seq<RecordView>,
    pivot: int,
    key: Seq<char>,
    col: int,
)
    requires
        !keys_seen(records, pivot).contains(key),
    ensures
        column(records, pivot, key, col) =~= Seq::<i64>::empty(),
    decreases records.len(),
{
    if records.len() > 0 {
        let before = keys_seen(records.drop_last(), pivot);
        let seen = keys_seen(records, pivot);
        if before.contains(key) {
            let i = choose|i: int| 0 <= i < before.len() && before[i] == key;
            assert(seen[i] == key);
        }
        if key_of(records.last(), pivot) == Some(key) {
            assert(seen[seen.len() - 1] == key);
        }
        lemma_unseen_key_has_no_values(records.drop_last(), pivot, key, col);
    }
}

/// Once a directive has failed, the directives after it change nothing.
proof fn lemma_directive_fault_stays(
    prior: Seq<RecordView>,
    fields: Seq<Seq<char>>,
    pivot: int,
    directives: Seq<Directive>,
    row: int,
    n: int,
)
    requires
        0 <= n <= directives.len(),
        directives_fault(prior, fields, pivot, directives.take(n), row) is Some,
    ensures
        directives_fault(prior, fields, pivot, directives, row) == directives_fault(
            prior,
            fields,
            pivot,
            directives.take(n),
            row,
        ),
    decreases directives.len() - n,
{
    if n == directives.len() {
        assert(directives.take(n) =~= directives);
    } else {
        assert(directives.take(n + 1).drop_last() =~= directives.take(n));
        lemma_directive_fault_stays(prior, fields, pivot, directives, row, n + 1);
    }
}

/// Once a record has failed, the records after it change nothing.
proof fn lemma_fault_stays(
    records: Seq<RecordView>,
    pivot: int,
    directives: Seq<Directive>,
    n: int,
)
    requires
        0 <= n <= records.len(),
        first_fault(records.take(n), pivot, directives) is Some,
    ensures
        first_fault(records, pivot, directives) == first_fault(
            records.take(n),
            pivot,
            directives,
        ),
    decreases records.len() - n,
{
    if n == records.len() {
        assert(records.take(n) =~= records);
    } else {
        assert(records.take(n + 1).drop_last() =~= records.take(n));
        lemma_fault_stays(records, pivot, directives, n + 1);
    }
}

/// Builds the table for `records`: an empty table takes them in one by
/// one, in their order. The first record that fails ends the run, and
/// nothing of the table is handed out.
pub fn run(pivot: usize, directives: Vec<Directive>, records: &Vec<Option<Vec<String>>>) -> (res:
    Result<Table, PivotError>)
    ensures
        match res {
            Ok(table) => {
                &&& first_fault(records.deep_view(), pivot as int, directives@) is None
                &&& table.wf()
                &&& table.pivot_column() == pivot
                &&& table.seen() == records.deep_view()
                &&& table@ == aggregated(pivot as int, directives@, records.deep_view())
                &&& sums_fit(pivot as int, directives@, records.deep_view())
            },
            Err(e) => first_fault(records.deep_view(), pivot as int, directives@) == Some(e@),
        },
{
    let ghost ds = directives@;
    let ghost all = records.deep_view();
    let mut table = Table::new(pivot, directives);
    let mut j: usize = 0;
    assert(all.take(0) =~= Seq::<RecordView>::empty());
    while j < records.len()
        invariant
            0 <= j <= records.len(),
            all == records.deep_view(),
            ds == directives@,
            table.wf(),
            table.pivot_column() == pivot,
            table@.directives == ds,
            table.seen() == all.take(j as int),
        decreases records.len() - j,
    {
        proof {
            let upto = all.take(j + 1);
            assert(upto.drop_last() =~= all.take(j as int));
            assert(upto =~= all.take(j as int).push(records[j as int].deep_view()));
        }
        match table.absorb(&records[j]) {
            Ok(()) => {},
            Err(e) => {
                proof {
                    table.lemma_wf();
                    lemma_fault_stays(all, pivot as int, ds, j + 1);
                }
                return Err(e);
            },
        }
        j = j + 1;
    }
    proof {
        assert(all.take(j as int) =~= all);
        table.lemma_wf();
    }
    Ok(table)
}

/// Some record of `records` belongs to the group `key`.
pub open spec fn occurs(records: Seq<RecordView>, pivot: int, key: Seq<char>) -> bool {
    exists|j: int| 0 <= j < records.len() && #[trigger] key_of(records[j], pivot) == Some(key)
}

/// Record number `row` is the first of the group `key`.
pub open spec fn is_first_row(records: Seq<RecordView>, pivot: int, key: Seq<char>, row: int)
    -> bool {
    &&& 0 <= row < records.len()
    &&& key_of(records[row], pivot) == Some(key)
    &&& forall|i: int| 0 <= i < row ==> #[trigger] key_of(records[i], pivot) != Some(key)
}

/// The keys of the table are the distinct values of the pivot column: no
/// key stands twice, a text is a key exactly when some record has it in
/// the pivot column, and of two keys the one whose first record comes
/// first stands first.
pub proof fn lemma_keys_in_order_of_first_occurrence(records: Seq<RecordView>, pivot: int)
    ensures
        keys_seen(records, pivot).no_duplicates(),
        forall|key: Seq<char>| #[trigger]
            keys_seen(records, pivot).contains(key) <==> occurs(records, pivot, key),
        forall|a: int, b: int, first_a: int, first_b: int|
            #![trigger
                is_first_row(records, pivot, keys_seen(records, pivot)[a], first_a),
                is_first_row(records, pivot, keys_seen(records, pivot)[b], first_b),
            ]
            0 <= a < b < keys_seen(records, pivot).len() && is_first_row(
                records,
                pivot,
                keys_seen(records, pivot)[a],
                first_a,
            ) && is_first_row(records, pivot, keys_seen(records, pivot)[b], first_b) ==> first_a
                < first_b,
    decreases records.len(),
{
    let keys = keys_seen(records, pivot);
    if records.len() == 0 {
        assert forall|key: Seq<char>| !occurs(records, pivot, key) by {}
    } else {
        let prior = records.drop_last();
        let before = keys_seen(prior, pivot);
        let last = records.len() - 1;
        lemma_keys_in_order_of_first_occurrence(prior, pivot);
        assert forall|j: int| 0 <= j < last implies records[j] == prior[j] by {}
        assert forall|key: Seq<char>| #[trigger]
            keys.contains(key) <==> occurs(records, pivot, key) by {
            if keys.contains(key) {
                if before.contains(key) {
                    let j = choose|j: int|
                        0 <= j < prior.len() && #[trigger] key_of(prior[j], pivot) == Some(key);
                    assert(key_of(records[j], pivot) == Some(key));
                } else {
                    let i = choose|i: int| 0 <= i < keys.len() && keys[i] == key;
                    assert(key_of(records[last], pivot) == Some(key));
                }
            }
            if occurs(records, pivot, key) {
                let j = choose|j: int|
                    0 <= j < records.len() && #[trigger] key_of(records[j], pivot) == Some(key);
                if j < last {
                    assert(key_of(prior[j], pivot) == Some(key));
                    assert(occurs(prior, pivot, key));
                    assert(before.contains(key));
                } else if !before.contains(key) {
                    assert(keys[keys.len() - 1] == key);
                }
                if before.contains(key) {
                    let i = choose|i: int| 0 <= i < before.len() && before[i] == key;
                    assert(keys[i] == key);
                }
            }
        }
        assert forall|a: int, b: int, first_a: int, first_b: int|
            0 <= a < b < keys.len() && #[trigger] is_first_row(records, pivot, keys[a], first_a)
                && #[trigger] is_first_row(records, pivot, keys[b], first_b) implies first_a
            < first_b by {
            assert(before.contains(keys[a])) by {
                assert(before[a] == keys[a]);
            }
            assert(occurs(prior, pivot, keys[a]));
            let ja = choose|j: int|
                0 <= j < prior.len() && #[trigger] key_of(prior[j], pivot) == Some(keys[a]);
            assert(key_of(records[ja], pivot) == Some(keys[a]));
            assert(first_a <= ja);
            assert(is_first_row(prior, pivot, keys[a], first_a)) by {
                assert forall|i: int| 0 <= i < first_a implies #[trigger] key_of(prior[i], pivot)
                    != Some(keys[a]) by {
                    assert(key_of(records[i], pivot) != Some(keys[a]));
                }
            }
            if b < before.len() {
                assert(before.contains(keys[b])) by {
                    assert(before[b] == keys[b]);
                }
                assert(occurs(prior, pivot, keys[b]));
                let jb = choose|j: int|
                    0 <= j < prior.len() && #[trigger] key_of(prior[j], pivot) == Some(keys[b]);
                assert(key_of(records[jb], pivot) == Some(keys[b]));
                assert(first_b <= jb);
                assert(is_first_row(prior, pivot, keys[b], first_b)) by {
                    assert forall|i: int| 0 <= i < first_b implies #[trigger] key_of(
                        prior[i],
                        pivot,
                    ) != Some(keys[b]) by {
                        assert(key_of(records[i], pivot) != Some(keys[b]));
                    }
                }
                assert(before[a] == keys[a] && before[b] == keys[b]);
            } else {
                assert(!before.contains(keys[b]));
                assert(!occurs(prior, pivot, keys[b]));
                if first_b < last {
                    assert(key_of(prior[first_b], pivot) == Some(keys[b]));
                }
            }
        }
    }
}

/// A record without a field at the pivot column, or at the column of some
/// directive, is fatal wherever it stands: the run fails, at that record
/// if no earlier one failed. Where it is the pivot column that is missing
/// and no earlier record failed, the failure is `MalformedRow` with the
/// record's number.
pub proof fn lemma_short_record_is_fatal(
    records: Seq<RecordView>,
    pivot: int,
    directives: Seq<Directive>,
    row: int,
)
    requires
        0 <= pivot,
        0 <= row < records.len(),
        records[row] matches Some(fields) && (pivot >= fields.len() || exists|d: int|
            0 <= d < directives.len() && (#[trigger] directives[d]).col >= fields.len()),
    ensures
        first_fault(records, pivot, directives) is Some,
        first_fault(records.take(row), pivot, directives) is None ==> first_fault(
            records,
            pivot,
            directives,
        ) == row_fault(records.take(row), records[row], pivot, directives, row),
        first_fault(records.take(row), pivot, directives) is None && pivot
            >= records[row]->0.len() ==> first_fault(records, pivot, directives) == Some(
            Fault::MalformedRow { row },
        ),
{
    let fields = records[row]->0;
    let prior = records.take(row);
    let upto = records.take(row + 1);
    assert(upto.drop_last() =~= prior);
    assert(upto.last() == records[row]);
    if pivot < fields.len() {
        let d = choose|d: int|
            0 <= d < directives.len() && (#[trigger] directives[d]).col >= fields.len();
        let some = directives.take(d + 1);
        assert(some.drop_last() =~= directives.take(d));
        assert(some.last() == directives[d]);
        assert(directives_fault(prior, fields, pivot, some, row) is Some);
        lemma_directive_fault_stays(prior, fields, pivot, directives, row, d + 1);
    }
    assert(row_fault(prior, records[row], pivot, directives, row) is Some);
    assert(first_fault(upto, pivot, directives) is Some);
    lemma_fault_stays(records, pivot, directives, row + 1);
}

} // verus!
