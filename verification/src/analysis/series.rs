//! Sums, extremes and spread of lists of numbers.

use crate::num::Num;
use vstd::prelude::*;

verus! {

/// The sum of numbers, from zero and in order.
pub open spec fn spec_total(s: Seq<Num>) -> Num
    decreases s.len(),
{
    if s.len() == 0 {
        Num::zero()
    } else {
        spec_total(s.drop_last()).plus(s.last())
    }
}

/// The greatest of a number and others.
pub open spec fn spec_greatest(start: Num, s: Seq<Num>) -> Num
    decreases s.len(),
{
    if s.len() == 0 {
        start
    } else {
        spec_greatest(start, s.drop_last()).larger(s.last())
    }
}

/// The least of a number and others.
pub open spec fn spec_least(start: Num, s: Seq<Num>) -> Num
    decreases s.len(),
{
    if s.len() == 0 {
        start
    } else {
        spec_least(start, s.drop_last()).smaller(s.last())
    }
}

/// The numbers that are there, in order.
pub open spec fn present(s: Seq<Option<Num>>) -> Seq<Num>
    decreases s.len(),
{
    if s.len() == 0 {
        Seq::empty()
    } else {
        match s.last() {
            Some(x) => present(s.drop_last()).push(x),
            None => present(s.drop_last()),
        }
    }
}

/// The sum of numbers, from zero and in order.
pub fn total(v: &Vec<Num>) -> (r: Num)
    ensures
        r == spec_total(v@),
{
    let mut sum = Num::zero();
    for i in 0..v.len()
        invariant
            sum == spec_total(v@.take(i as int)),
    {
        assert(v@.take(i + 1).drop_last() =~= v@.take(i as int));
        sum = sum.plus(v[i]);
    }
    assert(v@.take(v@.len() as int) =~= v@);
    sum
}

/// The greatest of a number and others.
pub fn greatest(start: Num, v: &Vec<Num>) -> (r: Num)
    ensures
        r == spec_greatest(start, v@),
{
    let mut top = start;
    for i in 0..v.len()
        invariant
            top == spec_greatest(start, v@.take(i as int)),
    {
        assert(v@.take(i + 1).drop_last() =~= v@.take(i as int));
        top = top.larger(v[i]);
    }
    assert(v@.take(v@.len() as int) =~= v@);
    top
}

/// The least of a number and others.
pub fn least(start: Num, v: &Vec<Num>) -> (r: Num)
    ensures
        r == spec_least(start, v@),
{
    let mut bottom = start;
    for i in 0..v.len()
        invariant
            bottom == spec_least(start, v@.take(i as int)),
    {
        assert(v@.take(i + 1).drop_last() =~= v@.take(i as int));
        bottom = bottom.smaller(v[i]);
    }
    assert(v@.take(v@.len() as int) =~= v@);
    bottom
}

/// The mean of numbers.
pub open spec fn spec_mean(s: Seq<Num>) -> Num {
    spec_total(s).over(Num::from_count(s.len() as u64))
}

/// The squared distances of numbers from another.
pub open spec fn squared_distances(s: Seq<Num>, from: Num) -> Seq<Num> {
    Seq::new(s.len(), |i: int| s[i].minus(from).times(s[i].minus(from)))
}

/// The standard deviation of numbers; zero of fewer than two.
pub open spec fn spec_standard_deviation(s: Seq<Num>) -> Num {
    if s.len() < 2 {
        Num::zero()
    } else {
        spec_mean(squared_distances(s, spec_mean(s))).root()
    }
}

/// The mean of numbers.
pub fn mean(v: &Vec<Num>) -> (r: Num)
    ensures
        r == spec_mean(v@),
{
    total(v).over(Num::from_count(v.len() as u64))
}

/// The standard deviation of numbers; zero of fewer than two.
pub fn standard_deviation(values: &Vec<Num>) -> (r: Num)
    ensures
        r == spec_standard_deviation(values@),
{
    if values.len() < 2 {
        return Num::zero();
    }
    let center = mean(values);
    let mut squares: Vec<Num> = Vec::new();
    for i in 0..values.len()
        invariant
            squares@ == squared_distances(values@, center).take(i as int),
    {
        let difference = values[i].minus(center);
        squares.push(difference.times(difference));
        assert(squares@ =~= squared_distances(values@, center).take(i + 1));
    }
    assert(squares@ =~= squared_distances(values@, center));
    mean(&squares).root()
}

/// How one number outweighs another, from minus one to one; zero where there is nothing.
pub open spec fn spec_imbalance(left: Num, right: Num) -> Num {
    let sum = left.plus(right);
    if Num::zero().lt(sum) {
        left.minus(right).over(sum).within(Num::one().negated(), Num::one())
    } else {
        Num::zero()
    }
}

/// How one number outweighs another, from minus one to one; zero where there is nothing.
#[verifier::when_used_as_spec(spec_imbalance)]
pub fn imbalance(left: Num, right: Num) -> (r: Num)
    ensures
        r == spec_imbalance(left, right),
{
    let sum = left.plus(right);
    if Num::zero().lt(sum) {
        left.minus(right).over(sum).within(Num::one().negated(), Num::one())
    } else {
        Num::zero()
    }
}

} // verus!
