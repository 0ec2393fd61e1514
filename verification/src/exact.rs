//! The numbers of the transform and their sums.
//!
//! The transform is written once, for any numbers that can be added and
//! multiplied ([`Arithmetic`]). A program that draws brings rounded complex
//! numbers. What the transform promises of its sums is proved for numbers
//! without rounding ([`Exact`]): any commutative ring with a conjugation.
//!
//! [`total`] is the value of a sequence of terms, added from left to right.
use crate::terms::{analysis_terms, synthesis_terms, Term};
use vstd::prelude::*;

verus! {

/// Numbers with their operations. Nothing is asked of the operations here:
/// rounded arithmetic has them as well as exact arithmetic. They say what the
/// results of a computation are; [`Arithmetic`] computes them.
pub trait Number: Sized {
    /// The number 0.
    spec fn zero() -> Self;

    /// The number 1.
    spec fn one() -> Self;

    /// The sum of two numbers.
    spec fn plus(self, other: Self) -> Self;

    /// The product of two numbers.
    spec fn times(self, other: Self) -> Self;

    /// The complex conjugate.
    spec fn conj(self) -> Self;

    /// The number divided by a count.
    spec fn over(self, count: usize) -> Self;

    /// The power `power` of the root of unity of order `size`:
    /// `exp(2*pi*i * power / size)`.
    spec fn unit_root(size: usize, power: usize) -> Self;

    /// The number can stand in a signal: it is neither infinite nor undefined.
    spec fn finite(self) -> bool;
}

/// Numbers that a program can compute with. Each operation computes what the
/// operation of [`Number`] beside it says.
pub trait Arithmetic: Number {
    /// Computes [`Number::zero`].
    fn new_zero() -> (r: Self)
        ensures
            r == Self::zero(),
    ;

    /// Computes [`Number::plus`].
    fn added(&self, other: &Self) -> (r: Self)
        ensures
            r == self.plus(*other),
    ;

    /// Computes [`Number::times`].
    fn multiplied(&self, other: &Self) -> (r: Self)
        ensures
            r == self.times(*other),
    ;

    /// Computes [`Number::conj`].
    fn conjugated(&self) -> (r: Self)
        ensures
            r == self.conj(),
    ;

    /// Computes [`Number::over`].
    fn divided(&self, count: usize) -> (r: Self)
        ensures
            r == self.over(count),
    ;

    /// Computes [`Number::unit_root`].
    fn root(size: usize, power: usize) -> (r: Self)
        ensures
            r == Self::unit_root(size, power),
    ;

    /// Computes [`Number::finite`].
    fn is_finite(&self) -> (r: bool)
        ensures
            r == self.finite(),
    ;
}

/// Numbers without rounding: a commutative ring with a conjugation. What has
/// to hold of the division and of the roots of unity is asked where it is
/// needed, size by size.
pub trait Exact: Number {
    proof fn plus_commutes(a: Self, b: Self)
        ensures
            a.plus(b) == b.plus(a),
    ;

    proof fn plus_associates(a: Self, b: Self, c: Self)
        ensures
            a.plus(b).plus(c) == a.plus(b.plus(c)),
    ;

    proof fn plus_zero(a: Self)
        ensures
            a.plus(Self::zero()) == a,
    ;

    proof fn times_commutes(a: Self, b: Self)
        ensures
            a.times(b) == b.times(a),
    ;

    proof fn times_associates(a: Self, b: Self, c: Self)
        ensures
            a.times(b).times(c) == a.times(b.times(c)),
    ;

    proof fn times_one(a: Self)
        ensures
            a.times(Self::one()) == a,
    ;

    proof fn times_zero(a: Self)
        ensures
            a.times(Self::zero()) == Self::zero(),
    ;

    proof fn times_distributes(a: Self, b: Self, c: Self)
        ensures
            a.times(b.plus(c)) == a.times(b).plus(a.times(c)),
    ;

    proof fn conj_zero()
        ensures
            Self::zero().conj() == Self::zero(),
    ;

    proof fn conj_plus(a: Self, b: Self)
        ensures
            a.plus(b).conj() == a.conj().plus(b.conj()),
    ;

    proof fn conj_times(a: Self, b: Self)
        ensures
            a.times(b).conj() == a.conj().times(b.conj()),
    ;

    proof fn conj_conj(a: Self)
        ensures
            a.conj().conj() == a,
    ;
}

/// The sum of a sequence of numbers, added from left to right.
pub open spec fn sum<C: Number>(values: Seq<C>) -> C
    decreases values.len(),
{
    if values.len() == 0 {
        C::zero()
    } else {
        sum(values.drop_last()).plus(values.last())
    }
}

/// `x` added to itself `count` times.
pub open spec fn multiple<C: Number>(count: nat, x: C) -> C {
    sum(Seq::new(count, |k: int| x))
}

/// The value of one term: `input[index] * w[phase]`.
pub open spec fn value_of<C: Number>(term: Term, input: Seq<C>, w: Seq<C>) -> C {
    input[term.index as int].times(w[term.phase as int])
}

/// The values of the terms of a sequence, in order.
pub open spec fn values_of<C: Number>(terms: Seq<Term>, input: Seq<C>, w: Seq<C>) -> Seq<C> {
    Seq::new(terms.len(), |p: int| value_of(terms[p], input, w))
}

/// The value of a sequence of terms: the sum of their values, added from left
/// to right.
pub open spec fn total<C: Number>(terms: Seq<Term>, input: Seq<C>, w: Seq<C>) -> C {
    sum(values_of(terms, input, w))
}

/// The coefficients of a signal before the division by its size: for each
/// frequency the value of its analysis terms over the signal.
pub open spec fn transform<C: Number>(signal: Seq<C>, w: Seq<C>) -> Seq<C> {
    Seq::new(
        signal.len(),
        |k: int| total(analysis_terms(signal.len() as int, k), signal, w),
    )
}

/// The table of the powers of the root of unity of order `n`.
pub open spec fn root_table<C: Number>(n: nat) -> Seq<C> {
    Seq::new(n, |m: int| C::unit_root(n as usize, m as usize))
}

/// The coefficients of a signal: for each frequency the value of its analysis
/// terms over the signal and the table of roots, divided by the size.
pub open spec fn coefficients_of<C: Number>(signal: Seq<C>) -> Seq<C> {
    Seq::new(
        signal.len(),
        |k: int|
            total(analysis_terms(signal.len() as int, k), signal, root_table(signal.len())).over(
                signal.len() as usize,
            ),
    )
}

/// The signal rebuilt from the frequencies `k_min` to `k_max` alone: at every
/// sample position the value of the synthesis terms over the coefficients.
pub open spec fn reconstruction_of<C: Number>(signal: Seq<C>, k_min: int, k_max: int) -> Seq<C> {
    Seq::new(
        signal.len(),
        |i: int|
            total(
                synthesis_terms(signal.len() as int, k_min, k_max, i),
                coefficients_of(signal),
                root_table(signal.len()),
            ),
    )
}

/// The powers `w^(j * 0), w^(j * 1), ...` of the root of unity, as many as the
/// table `w` holds.
pub open spec fn powers<C: Number>(w: Seq<C>, j: int) -> Seq<C> {
    Seq::new(w.len(), |k: int| w[(j * k) % (w.len() as int)])
}

/// `w` holds the powers of a root of unity of its length: `w[0]` is 1, the
/// product of two entries is the entry at the sum of their places, and the
/// powers of every entry but `w[0]` add up to 0.
pub open spec fn roots_of_unity<C: Number>(w: Seq<C>) -> bool {
    &&& w.len() >= 1
    &&& w[0] == C::one()
    &&& forall|a: int, b: int|
        0 <= a < w.len() && 0 <= b < w.len() ==> #[trigger] w[a].times(w[b]) == w[(a + b) % (
        w.len() as int)]
    &&& forall|j: int| 0 < j < w.len() ==> sum(#[trigger] powers(w, j)) == C::zero()
}

/// Every entry of `w` is the conjugate of the entry at the opposite place.
pub open spec fn conjugate_roots<C: Number>(w: Seq<C>) -> bool {
    forall|a: int|
        0 <= a < w.len() ==> (#[trigger] w[a]).conj() == w[(w.len() - a) % (w.len() as int)]
}

/// Every number of the signal is its own conjugate.
pub open spec fn real_valued<C: Number>(signal: Seq<C>) -> bool {
    forall|t: int| 0 <= t < signal.len() ==> (#[trigger] signal[t]).conj() == signal[t]
}

/// A term appended to a sequence adds its value to the total. This holds of
/// any numbers: it is how the total is added up.
pub proof fn lemma_total_push<C: Number>(terms: Seq<Term>, term: Term, input: Seq<C>, w: Seq<C>)
    ensures
        total(terms.push(term), input, w) == total(terms, input, w).plus(
            value_of(term, input, w),
        ),
{
    assert(values_of(terms.push(term), input, w).drop_last() =~= values_of(terms, input, w));
}

/// 0 added on the left changes nothing.
pub proof fn lemma_zero_plus<C: Exact>(a: C)
    ensures
        C::zero().plus(a) == a,
{
    C::plus_commutes(C::zero(), a);
    C::plus_zero(a);
}

/// Two sums of two can trade their inner numbers.
pub proof fn lemma_plus_interchange<C: Exact>(a: C, b: C, c: C, d: C)
    ensures
        a.plus(b).plus(c.plus(d)) == a.plus(c).plus(b.plus(d)),
{
    C::plus_associates(a, b, c.plus(d));
    C::plus_associates(b, c, d);
    C::plus_commutes(b, c);
    C::plus_associates(c, b, d);
    C::plus_associates(a, c, b.plus(d));
}

/// The sum of one number is that number.
pub proof fn lemma_sum_one<C: Exact>(a: C)
    ensures
        sum(seq![a]) == a,
{
    assert(seq![a].drop_last() =~= Seq::<C>::empty());
    assert(sum(seq![a]) == sum(seq![a].drop_last()).plus(a));
    assert(sum(Seq::<C>::empty()) == C::zero());
    lemma_zero_plus(a);
}

/// The sum of two sequences laid end to end is the sum of their sums.
pub proof fn lemma_sum_concat<C: Exact>(a: Seq<C>, b: Seq<C>)
    ensures
        sum(a + b) == sum(a).plus(sum(b)),
    decreases b.len(),
{
    if b.len() == 0 {
        assert(a + b =~= a);
        C::plus_zero(sum(a));
    } else {
        assert((a + b).drop_last() =~= a + b.drop_last());
        assert((a + b).last() == b.last());
        lemma_sum_concat(a, b.drop_last());
        C::plus_associates(sum(a), sum(b.drop_last()), b.last());
    }
}

/// A sequence can be cut anywhere: its sum is the sum of the two parts.
pub proof fn lemma_sum_split<C: Exact>(values: Seq<C>, at: int)
    requires
        0 <= at <= values.len(),
    ensures
        sum(values) == sum(values.take(at)).plus(sum(values.skip(at))),
{
    assert(values =~= values.take(at) + values.skip(at));
    lemma_sum_concat(values.take(at), values.skip(at));
}

/// A sequence of zeros adds up to 0.
pub proof fn lemma_sum_zeros<C: Exact>(values: Seq<C>)
    requires
        forall|k: int| 0 <= k < values.len() ==> values[k] == C::zero(),
    ensures
        sum(values) == C::zero(),
    decreases values.len(),
{
    if values.len() > 0 {
        lemma_sum_zeros(values.drop_last());
        C::plus_zero(C::zero());
    }
}

/// A sequence with a single entry that may differ from 0 adds up to that entry.
pub proof fn lemma_sum_single<C: Exact>(values: Seq<C>, j: int)
    requires
        0 <= j < values.len(),
        forall|k: int| 0 <= k < values.len() && k != j ==> values[k] == C::zero(),
    ensures
        sum(values) == values[j],
{
    lemma_sum_split(values, j);
    lemma_sum_zeros(values.take(j));
    let rest = values.skip(j);
    assert(rest =~= seq![values[j]] + values.skip(j + 1));
    lemma_sum_concat(seq![values[j]], values.skip(j + 1));
    lemma_sum_one(values[j]);
    lemma_sum_zeros(values.skip(j + 1));
    C::plus_zero(values[j]);
    lemma_zero_plus(values[j]);
}

/// Adding two sequences entry by entry adds their sums.
pub proof fn lemma_sum_pointwise<C: Exact>(a: Seq<C>, b: Seq<C>)
    requires
        a.len() == b.len(),
    ensures
        sum(Seq::new(a.len(), |k: int| a[k].plus(b[k]))) == sum(a).plus(sum(b)),
    decreases a.len(),
{
    let both = Seq::new(a.len(), |k: int| a[k].plus(b[k]));
    if a.len() == 0 {
        C::plus_zero(C::zero());
    } else {
        let shorter = Seq::new(
            a.drop_last().len(),
            |k: int| a.drop_last()[k].plus(b.drop_last()[k]),
        );
        assert(both.drop_last() =~= shorter);
        lemma_sum_pointwise(a.drop_last(), b.drop_last());
        lemma_plus_interchange(sum(a.drop_last()), sum(b.drop_last()), a.last(), b.last());
    }
}

/// Multiplying every entry by `c` multiplies the sum by `c`.
pub proof fn lemma_sum_scaled<C: Exact>(c: C, values: Seq<C>)
    ensures
        sum(Seq::new(values.len(), |k: int| c.times(values[k]))) == c.times(sum(values)),
    decreases values.len(),
{
    let scaled = Seq::new(values.len(), |k: int| c.times(values[k]));
    if values.len() == 0 {
        C::times_zero(c);
    } else {
        let shorter = Seq::new(values.drop_last().len(), |k: int| c.times(values.drop_last()[k]));
        assert(scaled.drop_last() =~= shorter);
        lemma_sum_scaled(c, values.drop_last());
        C::times_distributes(c, sum(values.drop_last()), values.last());
    }
}

/// The conjugate of a sum is the sum of the conjugates.
pub proof fn lemma_sum_conj<C: Exact>(values: Seq<C>)
    ensures
        sum(values).conj() == sum(Seq::new(values.len(), |k: int| values[k].conj())),
    decreases values.len(),
{
    let turned = Seq::new(values.len(), |k: int| values[k].conj());
    if values.len() == 0 {
        C::conj_zero();
    } else {
        let shorter = Seq::new(values.drop_last().len(), |k: int| values.drop_last()[k].conj());
        assert(turned.drop_last() =~= shorter);
        lemma_sum_conj(values.drop_last());
        C::conj_plus(sum(values.drop_last()), values.last());
    }
}

/// A table of numbers can be added row by row or column by column.
pub proof fn lemma_sum_exchange<C: Exact>(f: spec_fn(int, int) -> C, rows: nat, columns: nat)
    ensures
        sum(Seq::new(rows, |a: int| sum(Seq::new(columns, |b: int| f(a, b))))) == sum(
            Seq::new(columns, |b: int| sum(Seq::new(rows, |a: int| f(a, b)))),
        ),
    decreases rows,
{
    let by_rows = Seq::new(rows, |a: int| sum(Seq::new(columns, |b: int| f(a, b))));
    let by_columns = Seq::new(columns, |b: int| sum(Seq::new(rows, |a: int| f(a, b))));
    if rows == 0 {
        assert forall|b: int| 0 <= b < columns implies by_columns[b] == C::zero() by {
            assert(Seq::new(rows, |a: int| f(a, b)) =~= Seq::<C>::empty());
        }
        lemma_sum_zeros(by_columns);
    } else {
        let fewer = (rows - 1) as nat;
        let rows_before = Seq::new(fewer, |a: int| sum(Seq::new(columns, |b: int| f(a, b))));
        let columns_before = Seq::new(columns, |b: int| sum(Seq::new(fewer, |a: int| f(a, b))));
        let last_row = Seq::new(columns, |b: int| f(fewer as int, b));
        lemma_sum_exchange(f, fewer, columns);
        assert(by_rows.drop_last() =~= rows_before);
        assert(by_rows.last() == sum(last_row));
        assert forall|b: int| 0 <= b < columns implies by_columns[b] == columns_before[b].plus(
            last_row[b],
        ) by {
            let column = Seq::new(rows, |a: int| f(a, b));
            assert(column.drop_last() =~= Seq::new(fewer, |a: int| f(a, b)));
        }
        assert(by_columns =~= Seq::new(
            columns_before.len(),
            |b: int| columns_before[b].plus(last_row[b]),
        ));
        lemma_sum_pointwise(columns_before, last_row);
    }
}

/// The values of two sequences of terms laid end to end are those of the first
/// followed by those of the second.
pub proof fn lemma_total_concat<C: Exact>(a: Seq<Term>, b: Seq<Term>, input: Seq<C>, w: Seq<C>)
    ensures
        total(a + b, input, w) == total(a, input, w).plus(total(b, input, w)),
{
    assert(values_of(a + b, input, w) =~= values_of(a, input, w) + values_of(b, input, w));
    lemma_sum_concat(values_of(a, input, w), values_of(b, input, w));
}

} // verus!
