//! Exact statistics over a sequence of distances. Every result that is a
//! quotient is handed out as a fraction of two integers, so that nothing is
//! rounded.

use vstd::prelude::*;
use vstd::relations::sorted_by;
use vstd::relations::total_ordering;
use vstd::seq_lib::lemma_sorted_unique;

verus! {

/// The quotient of `numerator` by `denominator`. The two need not be in
/// lowest terms.
#[derive(Clone, Copy, Debug, PartialEq, Eq)]
pub struct Fraction {
    pub numerator: u128,
    pub denominator: u128,
}

impl Fraction {
    /// The quotient is defined.
    pub open spec fn wf(&self) -> bool {
        self.denominator > 0
    }
}

/// Why a statistic has no value.
#[derive(Clone, Copy, Debug, PartialEq, Eq)]
pub enum StatisticsError {
    /// There are no observations.
    Empty,
    /// The exact value does not fit the integers of the result.
    Overflow,
}

/// Sum of the values of `s`.
pub open spec fn total(s: Seq<u32>) -> int
    decreases s.len(),
{
    if s.len() == 0 {
        0
    } else {
        total(s.drop_last()) + s.last()
    }
}

/// Sum over `s` of the squares of `q * x - p`. Divided by `q * q` it is the
/// sum of the squared deviations of the values from `p / q`.
pub open spec fn squared_deviations(s: Seq<u32>, p: int, q: int) -> int
    decreases s.len(),
{
    if s.len() == 0 {
        0
    } else {
        squared_deviations(s.drop_last(), p, q) + (q * s.last() - p) * (q * s.last() - p)
    }
}

/// The order of the natural numbers.
pub open spec fn at_most() -> spec_fn(u32, u32) -> bool {
    |a: u32, b: u32| a <= b
}

/// The values of `s` in ascending order.
pub open spec fn ascending(s: Seq<u32>) -> Seq<u32> {
    s.sort_by(at_most())
}

/// No value of `s` is followed by a lesser one.
pub open spec fn is_ascending(s: Seq<u32>) -> bool {
    forall|i: int, j: int| 0 <= i <= j < s.len() ==> s[i] <= s[j]
}

/// The median of a sequence in ascending order: its middle value where the
/// length is odd, the mean of its two middle values where it is even.
pub open spec fn middle(sorted: Seq<u32>) -> Fraction {
    let mid = sorted.len() as int / 2;
    if sorted.len() % 2 == 0 {
        Fraction { numerator: (sorted[mid - 1] + sorted[mid]) as u128, denominator: 2 }
    } else {
        Fraction { numerator: sorted[mid] as u128, denominator: 1 }
    }
}

/// `result` is the mean of `data`: the fraction of its sum by its length,
/// and nothing where `data` is empty.
pub open spec fn is_mean_of(result: Option<Fraction>, data: Seq<u32>) -> bool {
    match result {
        Some(m) => data.len() > 0 && m.numerator == total(data) && m.denominator == data.len(),
        None => data.len() == 0,
    }
}

/// `greatest` is the greatest value of `data`, and zero where `data` is
/// empty.
pub open spec fn is_maximum_of(greatest: u32, data: Seq<u32>) -> bool {
    &&& data.len() == 0 ==> greatest == 0
    &&& data.len() > 0 ==> data.contains(greatest)
    &&& forall|i: int| 0 <= i < data.len() ==> data[i] <= greatest
}

/// `result` is the median of `data`, and nothing where `data` is empty.
pub open spec fn is_median_of(result: Option<Fraction>, data: Seq<u32>) -> bool {
    match result {
        Some(m) => data.len() > 0 && m == middle(ascending(data)),
        None => data.len() == 0,
    }
}

/// `result` is the population variance of `data` about `mean`. For the mean
/// `p / q` it is the sum of the squares of `q * x - p` by `q * q` times the
/// number of values. It is refused where `data` is empty, and where that
/// sum or that divisor is beyond `u128`.
pub open spec fn is_variance_of(
    result: Result<Fraction, StatisticsError>,
    data: Seq<u32>,
    mean: Fraction,
) -> bool {
    let p = mean.numerator as int;
    let q = mean.denominator as int;
    match result {
        Ok(v) => {
            &&& data.len() > 0
            &&& v.numerator == squared_deviations(data, p, q)
            &&& v.denominator == q * q * data.len()
        },
        Err(StatisticsError::Empty) => data.len() == 0,
        Err(StatisticsError::Overflow) => {
            &&& data.len() > 0
            &&& (squared_deviations(data, p, q) > u128::MAX || q * q * data.len() > u128::MAX)
        },
    }
}

/// `ascending(s)` holds the values of `s`, each as often as `s` does, and
/// in ascending order.
pub proof fn lemma_ascending(s: Seq<u32>)
    ensures
        ascending(s).to_multiset() == s.to_multiset(),
        ascending(s).len() == s.len(),
        is_ascending(ascending(s)),
{
    assert(total_ordering(at_most()));
    s.lemma_sort_by_ensures(at_most());
    vstd::seq_lib::to_multiset_len(s);
    vstd::seq_lib::to_multiset_len(ascending(s));
    let r = ascending(s);
    assert forall|i: int, j: int| 0 <= i <= j < r.len() implies r[i] <= r[j] by {
        assert(at_most()(r[i], r[j]));
    }
}

/// A sequence in ascending order with the values of `s` is `ascending(s)`.
pub proof fn lemma_ascending_unique(s: Seq<u32>, sorted: Seq<u32>)
    requires
        sorted.to_multiset() == s.to_multiset(),
        is_ascending(sorted),
    ensures
        sorted == ascending(s),
{
    assert(total_ordering(at_most()));
    s.lemma_sort_by_ensures(at_most());
    assert(sorted_by(sorted, at_most()));
    lemma_sorted_unique(sorted, ascending(s), at_most());
}

/// The sum of squares over a part of `s` from its start is at most the sum
/// over all of `s`.
pub proof fn lemma_squared_deviations_grow(s: Seq<u32>, p: int, q: int, upto: int)
    requires
        0 <= upto <= s.len(),
    ensures
        0 <= squared_deviations(s.take(upto), p, q) <= squared_deviations(s, p, q),
    decreases s.len() - upto,
{
    if upto == s.len() {
        assert(s.take(upto) =~= s);
        lemma_squared_deviations_nonnegative(s, p, q);
    } else {
        lemma_squared_deviations_grow(s, p, q, upto + 1);
        let longer = s.take(upto + 1);
        assert(longer.drop_last() =~= s.take(upto));
        let d = q * longer.last() - p;
        assert(0 <= d * d) by (nonlinear_arith);
        lemma_squared_deviations_nonnegative(s.take(upto), p, q);
    }
}

/// A sum of squares is not negative.
pub proof fn lemma_squared_deviations_nonnegative(s: Seq<u32>, p: int, q: int)
    ensures
        0 <= squared_deviations(s, p, q),
    decreases s.len(),
{
    if s.len() > 0 {
        lemma_squared_deviations_nonnegative(s.drop_last(), p, q);
        let d = q * s.last() - p;
        assert(0 <= d * d) by (nonlinear_arith);
    }
}

/// Sorts in place with the standard library's stable sort, `sort` of
/// slices. What is taken on trust: afterwards the vector holds the same
/// values as before, each as often, and no value is followed by a lesser
/// one.
#[verifier::external_body]
fn sort_ascending(data: &mut Vec<u32>)
    ensures
        final(data)@.to_multiset() == old(data)@.to_multiset(),
        is_ascending(final(data)@),
{
    data.sort();
}

/// The sum of `data`.
pub fn sum_of(data: &Vec<u32>) -> (sum: u128)
    ensures
        sum == total(data@),
{
    let n = data.len();
    let mut sum: u128 = 0;
    let mut i: usize = 0;
    while i < n
        invariant
            n == data@.len(),
            i <= n,
            sum == total(data@.take(i as int)),
            sum <= i * 0xffff_ffff,
        decreases n - i,
    {
        proof {
            assert(data@.take(i + 1).drop_last() =~= data@.take(i as int));
        }
        sum = sum + data[i] as u128;
        i += 1;
    }
    proof {
        assert(data@.take(n as int) =~= data@);
    }
    sum
}

/// The mean of `data` as the fraction of its sum by its length, or nothing
/// where `data` is empty.
pub fn mean(data: &Vec<u32>) -> (result: Option<Fraction>)
    ensures
        is_mean_of(result, data@),
{
    if data.len() == 0 {
        None
    } else {
        Some(Fraction { numerator: sum_of(data), denominator: data.len() as u128 })
    }
}

/// The greatest value of `data`, and zero where `data` is empty.
pub fn maximum(data: &Vec<u32>) -> (greatest: u32)
    ensures
        is_maximum_of(greatest, data@),
{
    let mut greatest: u32 = 0;
    let mut i: usize = 0;
    while i < data.len()
        invariant
            i <= data@.len(),
            i == 0 ==> greatest == 0,
            i > 0 ==> exists|j: int| 0 <= j < i && data@[j] == greatest,
            forall|j: int| 0 <= j < i ==> data@[j] <= greatest,
        decreases data@.len() - i,
    {
        if i == 0 || data[i] > greatest {
            greatest = data[i];
        }
        i += 1;
    }
    greatest
}

/// Sorts `data` and gives its median: the middle value where the number of
/// values is odd, the mean of the two middle values where it is even, and
/// nothing where there is no value.
pub fn median(data: &mut Vec<u32>) -> (result: Option<Fraction>)
    ensures
        final(data)@ == ascending(old(data)@),
        is_median_of(result, old(data)@),
{
    sort_ascending(data);
    proof {
        lemma_ascending_unique(old(data)@, data@);
        lemma_ascending(old(data)@);
    }
    let n = data.len();
    if n == 0 {
        return None;
    }
    let mid = n / 2;
    if n % 2 == 0 {
        Some(Fraction { numerator: data[mid - 1] as u128 + data[mid] as u128, denominator: 2 })
    } else {
        Some(Fraction { numerator: data[mid] as u128, denominator: 1 })
    }
}

/// The population variance of `data` about `mean`: the mean of the squared
/// deviations from `mean`, the divisor being the number of values.
///
/// The result is exact: see `is_variance_of`.
pub fn variance(data: &Vec<u32>, mean: &Fraction) -> (result: Result<Fraction, StatisticsError>)
    requires
        mean.wf(),
    ensures
        is_variance_of(result, data@, *mean),
{
    let n = data.len();
    if n == 0 {
        return Err(StatisticsError::Empty);
    }
    let p = mean.numerator;
    let q = mean.denominator;
    proof {
        assert(q * q <= q * q * n) by (nonlinear_arith)
            requires
                n >= 1,
                q >= 0,
        ;
    }
    let square = match q.checked_mul(q) {
        Some(square) => square,
        None => {
            return Err(StatisticsError::Overflow);
        },
    };
    let denominator = match square.checked_mul(n as u128) {
        Some(denominator) => denominator,
        None => {
            return Err(StatisticsError::Overflow);
        },
    };
    proof {
        assert(q < 0x1_0000_0000_0000_0000) by (nonlinear_arith)
            requires
                q * q <= u128::MAX,
                q >= 0,
        ;
    }
    let mut sum: u128 = 0;
    let mut i: usize = 0;
    while i < n
        invariant
            n == data@.len(),
            i <= n,
            p == mean.numerator,
            q == mean.denominator,
            q < 0x1_0000_0000_0000_0000,
            sum == squared_deviations(data@.take(i as int), p as int, q as int),
        decreases n - i,
    {
        let x = data[i];
        proof {
            assert(data@.take(i + 1).drop_last() =~= data@.take(i as int));
            assert(data@.take(i + 1).last() == x);
            lemma_squared_deviations_grow(data@, p as int, q as int, i + 1);
            lemma_squared_deviations_nonnegative(data@.take(i as int), p as int, q as int);
            assert(q * x <= 0xffff_ffff_ffff_ffff * 0xffff_ffff) by (nonlinear_arith)
                requires
                    0 <= q <= 0xffff_ffff_ffff_ffff,
                    0 <= x <= 0xffff_ffff,
            ;
        }
        let scaled: u128 = q * (x as u128);
        let deviation: u128 = if scaled >= p {
            scaled - p
        } else {
            p - scaled
        };
        proof {
            assert(deviation * deviation == (q * x - p) * (q * x - p)) by (nonlinear_arith)
                requires
                    deviation == q * x - p || deviation == p - q * x,
            ;
            assert(squared_deviations(data@.take(i + 1), p as int, q as int) == sum + deviation
                * deviation);
        }
        let term = match deviation.checked_mul(deviation) {
            Some(term) => term,
            None => {
                return Err(StatisticsError::Overflow);
            },
        };
        sum = match sum.checked_add(term) {
            Some(sum) => sum,
            None => {
                return Err(StatisticsError::Overflow);
            },
        };
        i += 1;
    }
    proof {
        assert(data@.take(n as int) =~= data@);
    }
    Ok(Fraction { numerator: sum, denominator })
}

} // verus!
