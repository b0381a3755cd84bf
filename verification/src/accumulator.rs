//! Running statistics over the values of one column within one group.

use vstd::prelude::*;

verus! {

/// Sum of a sequence of values, without any machine limit.
pub open spec fn total(values: Seq<i64>) -> int
    decreases values.len(),
{
    if values.len() == 0 {
        0
    } else {
        total(values.drop_last()) + values.last()
    }
}

/// `m` occurs in `values` and nothing in `values` is larger.
pub open spec fn is_greatest(m: i64, values: Seq<i64>) -> bool {
    &&& values.contains(m)
    &&& forall|i: int| 0 <= i < values.len() ==> values[i] <= m
}

/// `m` occurs in `values` and nothing in `values` is smaller.
pub open spec fn is_least(m: i64, values: Seq<i64>) -> bool {
    &&& values.contains(m)
    &&& forall|i: int| 0 <= i < values.len() ==> values[i] >= m
}

/// The largest of `values`; the smallest 64-bit integer where there is none.
pub open spec fn greatest(values: Seq<i64>) -> i64
    decreases values.len(),
{
    if values.len() == 0 {
        i64::MIN
    } else {
        let before = greatest(values.drop_last());
        if values.last() > before {
            values.last()
        } else {
            before
        }
    }
}

/// The smallest of `values`; the largest 64-bit integer where there is none.
pub open spec fn least(values: Seq<i64>) -> i64
    decreases values.len(),
{
    if values.len() == 0 {
        i64::MAX
    } else {
        let before = least(values.drop_last());
        if values.last() < before {
            values.last()
        } else {
            before
        }
    }
}

/// The sum and the number of `values` both fit in a signed 64-bit integer.
pub open spec fn fits(values: Seq<i64>) -> bool {
    &&& i64::MIN <= total(values) <= i64::MAX
    &&& values.len() <= i64::MAX
}

/// Quotient of `a` by a positive `b`, rounded toward zero.
pub open spec fn quotient_toward_zero(a: int, b: int) -> int {
    if a >= 0 {
        a / b
    } else {
        -((-a) / b)
    }
}

/// The largest and the smallest value folded into an accumulator.
#[derive(Clone, Copy, Debug, PartialEq, Eq)]
pub struct Extent {
    pub max: i64,
    pub min: i64,
}

/// Sum, count and extent of the values folded in so far.
///
/// Before the first fold there is no extent: `max` and `min` have no value
/// rather than a placeholder.
#[derive(Clone, Copy, Debug, PartialEq, Eq)]
pub struct Accumulator {
    pub sum: i64,
    pub count: i64,
    pub extent: Option<Extent>,
}

impl Accumulator {
    /// The fields agree with one another: an accumulator has an extent
    /// exactly when something was folded in.
    pub open spec fn wf(self) -> bool {
        &&& self.count >= 0
        &&& self.count == 0 <==> self.extent is None
        &&& self.count == 0 ==> self.sum == 0
        &&& self.extent matches Some(e) ==> e.min <= e.max
    }

    /// The accumulator holds exactly the statistics of `values`, none of
    /// them cut to fit.
    pub open spec fn summarizes(self, values: Seq<i64>) -> bool {
        fits(values) && self == summary(values)
    }

    /// Folding `value` in keeps both the sum and the count within 64 bits.
    pub open spec fn can_fold(self, value: i64) -> bool {
        &&& i64::MIN <= self.sum + value <= i64::MAX
        &&& self.count < i64::MAX
    }

    /// The accumulator after `value` was folded in.
    pub open spec fn folded(self, value: i64) -> Accumulator {
        Accumulator {
            sum: (self.sum + value) as i64,
            count: (self.count + 1) as i64,
            extent: Some(
                match self.extent {
                    None => Extent { max: value, min: value },
                    Some(e) => Extent {
                        max: if value > e.max { value } else { e.max },
                        min: if value < e.min { value } else { e.min },
                    },
                },
            ),
        }
    }

    /// The integer average, where there is one.
    pub open spec fn spec_avg(self) -> Option<i64> {
        if self.count == 0 {
            None
        } else {
            Some(quotient_toward_zero(self.sum as int, self.count as int) as i64)
        }
    }

    /// An accumulator into which nothing was folded.
    pub fn new() -> (acc: Accumulator)
        ensures
            acc == (Accumulator { sum: 0, count: 0, extent: None }),
            acc.wf(),
            acc.summarizes(Seq::<i64>::empty()),
    {
        Accumulator { sum: 0, count: 0, extent: None }
    }

    /// Folds `value` in, unless the sum or the count would leave the signed
    /// 64-bit range; then the accumulator stays as it was and the result is
    /// `false`.
    pub fn fold(&mut self, value: i64) -> (done: bool)
        requires
            old(self).wf(),
        ensures
            done == old(self).can_fold(value),
            done ==> *final(self) == old(self).folded(value),
            !done ==> *final(self) == *old(self),
            final(self).wf(),
    {
        if self.count == i64::MAX {
            return false;
        }
        match self.sum.checked_add(value) {
            None => false,
            Some(sum) => {
                let extent = match self.extent {
                    None => Extent { max: value, min: value },
                    Some(e) => Extent {
                        max: if value > e.max { value } else { e.max },
                        min: if value < e.min { value } else { e.min },
                    },
                };
                self.sum = sum;
                self.count = self.count + 1;
                self.extent = Some(extent);
                true
            },
        }
    }

    /// The sum of the folded values.
    pub fn sum(&self) -> (s: i64)
        ensures
            s == self.sum,
    {
        self.sum
    }

    /// The largest folded value, or `None` before the first fold.
    pub fn max(&self) -> (m: Option<i64>)
        ensures
            m == match self.extent {
                Some(e) => Some(e.max),
                None => None,
            },
    {
        match self.extent {
            Some(e) => Some(e.max),
            None => None,
        }
    }

    /// The smallest folded value, or `None` before the first fold.
    pub fn min(&self) -> (m: Option<i64>)
        ensures
            m == match self.extent {
                Some(e) => Some(e.min),
                None => None,
            },
    {
        match self.extent {
            Some(e) => Some(e.min),
            None => None,
        }
    }

    /// The sum divided by the count, rounded toward zero; `None` before the
    /// first fold, when there is nothing to divide by.
    pub fn avg(&self) -> (a: Option<i64>)
        requires
            self.wf(),
        ensures
            a == self.spec_avg(),
    {
        if self.count == 0 {
            None
        } else {
            Some(self.sum / self.count)
        }
    }
}

/// The statistics of `values`: their sum, their number, and, where there
/// is a value, the largest and the smallest.
pub open spec fn summary(values: Seq<i64>) -> Accumulator {
    Accumulator {
        sum: total(values) as i64,
        count: values.len() as i64,
        extent: if values.len() == 0 {
            None
        } else {
            Some(Extent { max: greatest(values), min: least(values) })
        },
    }
}

/// Folding keeps an accumulator in step with the values it has seen: it
/// takes a further value exactly when the longer sequence still fits, and
/// then holds the statistics of the longer sequence.
pub proof fn lemma_fold_summarizes(acc: Accumulator, values: Seq<i64>, value: i64)
    requires
        acc.summarizes(values),
    ensures
        acc.can_fold(value) <==> fits(values.push(value)),
        acc.can_fold(value) ==> acc.folded(value).summarizes(values.push(value)),
{
    let next = values.push(value);
    assert(next.drop_last() =~= values);
    assert(total(next) == total(values) + value);
    assert(greatest(next) == if value > greatest(values) { value } else { greatest(values) });
    assert(least(next) == if value < least(values) { value } else { least(values) });
}

/// The extent of a summary is the true one: its maximum and its minimum
/// both occur among the values, and no value lies outside them.
pub proof fn lemma_extent_is_exact(values: Seq<i64>)
    requires
        values.len() > 0,
    ensures
        is_greatest(greatest(values), values),
        is_least(least(values), values),
    decreases values.len(),
{
    let before = values.drop_last();
    let n = values.len() - 1;
    let high = greatest(values);
    let low = least(values);
    assert(values[n] == values.last());
    if before.len() == 0 {
        assert(greatest(before) == i64::MIN && least(before) == i64::MAX);
    } else {
        lemma_extent_is_exact(before);
        let i_max = choose|i: int| 0 <= i < before.len() && before[i] == greatest(before);
        let i_min = choose|i: int| 0 <= i < before.len() && before[i] == least(before);
        assert(values[i_max] == greatest(before));
        assert(values[i_min] == least(before));
        assert(high == values[n] || high == values[i_max]);
        assert(low == values[n] || low == values[i_min]);
        assert forall|i: int| 0 <= i < n implies low <= #[trigger] values[i] <= high by {
            assert(values[i] == before[i]);
        }
    }
    assert(values.contains(high));
    assert(values.contains(low));
}

/// The quotient rounded toward zero is the multiple of `b` nearest to zero
/// within less than `b` of `a`, on the side of zero.
pub proof fn lemma_quotient_toward_zero(a: int, b: int)
    requires
        b > 0,
    ensures
        ({
            let q = quotient_toward_zero(a, b);
            &&& a >= 0 ==> 0 <= q * b <= a < q * b + b
            &&& a <= 0 ==> q * b - b < a <= q * b <= 0
        }),
{
    if a >= 0 {
        assert(0 <= (a / b) * b <= a < (a / b) * b + b) by (nonlinear_arith)
            requires
                a >= 0,
                b > 0,
        ;
    } else {
        let m = -a;
        assert(0 <= (m / b) * b <= m < (m / b) * b + b) by (nonlinear_arith)
            requires
                m >= 0,
                b > 0,
        ;
        assert((-(m / b)) * b == -((m / b) * b)) by (nonlinear_arith);
    }
}

} // verus!
