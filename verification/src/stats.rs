//! Online statistics of one clause's metric values.
//!
//! The statistics are kept exactly, as integers: how many values were seen,
//! their sum and the sum of their squares. Mean and variance follow from
//! these as fractions, so nothing depends on the order in which the values
//! arrive, and nothing is lost to rounding before the numbers are printed.

use vstd::prelude::*;
use vstd::seq_lib::*;

verus! {

/// What is remembered of a series of values.
pub struct Summary {
    /// How many values there were.
    pub count: nat,
    /// Their sum.
    pub sum: int,
    /// The sum of their squares.
    pub sum_sq: int,
}

impl Summary {
    /// The summary of no values at all.
    pub open spec fn empty() -> Summary {
        Summary { count: 0, sum: 0, sum_sq: 0 }
    }

    /// The summary after one more value.
    pub open spec fn push(self, x: int) -> Summary {
        Summary { count: self.count + 1, sum: self.sum + x, sum_sq: self.sum_sq + x * x }
    }

    /// The summary of a series of values.
    pub open spec fn of(samples: Seq<int>) -> Summary
        decreases samples.len(),
    {
        if samples.len() == 0 {
            Summary::empty()
        } else {
            Summary::of(samples.drop_last()).push(samples.last())
        }
    }

    /// The count times the sum of squared deviations from the mean. With
    /// mean `sum / count`, the squared deviations add up to
    /// `sum_sq - sum * sum / count`; multiplying by the count clears the
    /// fraction. That this is so is shown by
    /// [`lemma_spread_is_squared_deviations`].
    pub open spec fn spread(self) -> int {
        self.count * self.sum_sq - self.sum * self.sum
    }

    /// Numerator of the sample variance, over [`Summary::variance_den`]. The
    /// variance is the sum of squared deviations over `count - 1`, and zero
    /// for fewer than two values.
    pub open spec fn variance_num(self) -> int {
        if self.count < 2 {
            0
        } else {
            self.spread()
        }
    }

    /// Denominator of the sample variance.
    pub open spec fn variance_den(self) -> int {
        if self.count < 2 {
            1
        } else {
            self.count * (self.count - 1)
        }
    }

    /// Holds of every summary of values that fit in 32 bits, and keeps the
    /// arithmetic on the stored numbers within their types.
    pub open spec fn in_range(self) -> bool {
        &&& self.count <= u32::MAX
        &&& -0x8000_0000 * self.count <= self.sum <= 0x8000_0000 * self.count
        &&& 0 <= self.sum_sq <= 0x4000_0000_0000_0000 * self.count
        &&& 0 <= self.spread()
    }
}

/// A fraction `num / den` with a positive denominator.
#[derive(Clone, Copy, Debug)]
pub struct Fraction {
    pub num: i128,
    pub den: u64,
}

/// The running statistics of one clause: at least one value has been seen.
#[derive(Clone, Copy, Debug)]
pub struct ClauseStats {
    count: u32,
    sum: i64,
    sum_sq: u128,
}

impl View for ClauseStats {
    type V = Summary;

    closed spec fn view(&self) -> Summary {
        Summary { count: self.count as nat, sum: self.sum as int, sum_sq: self.sum_sq as int }
    }
}

proof fn lemma_square_bound(x: int)
    by (nonlinear_arith)
    requires
        -0x8000_0000 <= x <= 0x8000_0000,
    ensures
        0 <= x * x <= 0x4000_0000_0000_0000,
{
}

/// One more value changes the spread by the square of `count * x - sum`:
/// the spread after, times the old count, is the spread before, times the
/// new count, plus that square.
proof fn lemma_spread_step(n: int, s: int, q: int, x: int)
    ensures
        n * ((n + 1) * (q + x * x) - (s + x) * (s + x)) == (n + 1) * (n * q - s * s) + (n * x
            - s) * (n * x - s),
{
    let xx: int = x * x;
    let nq: int = n * q;
    let nxx: int = n * xx;
    let ss: int = s * s;
    let sx: int = s * x;
    let nx: int = n * x;
    assert((n + 1) * (q + xx) == nq + q + nxx + xx) by (nonlinear_arith)
        requires
            nq == n * q,
            nxx == n * xx,
    ;
    assert((s + x) * (s + x) == ss + 2 * sx + xx) by (nonlinear_arith)
        requires
            ss == s * s,
            sx == s * x,
            xx == x * x,
    ;
    let after: int = nq + q + nxx - ss - 2 * sx;
    assert(n * after == n * nq + nq + n * nxx - n * ss - 2 * (n * sx)) by (nonlinear_arith)
        requires
            after == nq + q + nxx - ss - 2 * sx,
            nq == n * q,
    ;
    assert((n + 1) * (nq - ss) == n * nq - n * ss + nq - ss) by (nonlinear_arith);
    assert((nx - s) * (nx - s) == nx * nx - 2 * (nx * s) + ss) by (nonlinear_arith)
        requires
            ss == s * s,
    ;
    assert(nx * nx == n * nxx) by (nonlinear_arith)
        requires
            nx == n * x,
            nxx == n * (x * x),
    ;
    assert(nx * s == n * sx) by (nonlinear_arith)
        requires
            nx == n * x,
            sx == s * x,
    ;
}

proof fn lemma_spread_stays_nonnegative(n: int, before: int, after: int, d: int)
    by (nonlinear_arith)
    requires
        n >= 1,
        before >= 0,
        n * after == (n + 1) * before + d * d,
    ensures
        after >= 0,
{
}

proof fn lemma_product_bounds(n: int, q: int, s: int)
    by (nonlinear_arith)
    requires
        0 <= n <= 0xffff_ffff,
        0 <= q <= 0x4000_0000_0000_0000 * n,
        -0x8000_0000 * n <= s <= 0x8000_0000 * n,
    ensures
        0 <= n * q <= 0x4000_0000_0000_0000_0000_0000_0000_0000,
        0 <= s * s <= 0x4000_0000_0000_0000_0000_0000_0000_0000,
        0 <= n * (n - 1) <= 0xffff_ffff_ffff_ffff || n == 0,
{
}

impl ClauseStats {
    /// The stored numbers summarise at least one value, within range.
    pub open spec fn wf(self) -> bool {
        self@.count >= 1 && self@.in_range()
    }

    /// The statistics of a clause seen once, with this metric value.
    pub fn new(first: i32) -> (stats: ClauseStats)
        ensures
            stats.wf(),
            stats@ == Summary::empty().push(first as int),
    {
        let wide: i64 = first as i64;
        proof {
            lemma_square_bound(wide as int);
        }
        let square: i64 = wide * wide;
        ClauseStats { count: 1, sum: wide, sum_sq: square as u128 }
    }

    /// Whether one more value can be counted.
    pub fn has_room(&self) -> (room: bool)
        ensures
            room == (self@.count < u32::MAX),
    {
        self.count < u32::MAX
    }

    /// Takes in one more metric value.
    pub fn update(&mut self, new_value: i32)
        requires
            old(self).wf(),
            old(self)@.count < u32::MAX,
        ensures
            final(self).wf(),
            final(self)@ == old(self)@.push(new_value as int),
    {
        let wide: i64 = new_value as i64;
        proof {
            let n: int = self.count as int;
            let s: int = self.sum as int;
            let q: int = self.sum_sq as int;
            let x: int = wide as int;
            lemma_square_bound(x);
            lemma_spread_step(n, s, q, x);
            lemma_spread_stays_nonnegative(
                n,
                n * q - s * s,
                (n + 1) * (q + x * x) - (s + x) * (s + x),
                n * x - s,
            );
        }
        let square: i64 = wide * wide;
        self.count = self.count + 1;
        self.sum = self.sum + wide;
        self.sum_sq = self.sum_sq + square as u128;
    }

    /// How many values were seen.
    pub fn final_count(&self) -> (count: u32)
        ensures
            count == self@.count,
    {
        self.count
    }

    /// The mean of the values, as their sum over their count.
    pub fn final_mean(&self) -> (mean: Fraction)
        requires
            self.wf(),
        ensures
            mean.num == self@.sum,
            mean.den == self@.count,
            mean.den > 0,
    {
        Fraction { num: self.sum as i128, den: self.count as u64 }
    }

    /// The sample variance of the values: the sum of squared deviations
    /// from the mean over one less than the count, and zero where fewer
    /// than two values were seen.
    pub fn final_variance(&self) -> (variance: Fraction)
        requires
            self.wf(),
        ensures
            variance.num == self@.variance_num(),
            variance.den == self@.variance_den(),
            variance.den > 0,
            variance.num >= 0,
    {
        if self.count < 2 {
            Fraction { num: 0, den: 1 }
        } else {
            proof {
                lemma_product_bounds(self.count as int, self.sum_sq as int, self.sum as int);
                assert(self.count as int * (self.count as int - 1) > 0) by (nonlinear_arith)
                    requires
                        self.count >= 2,
                ;
            }
            let n: u128 = self.count as u128;
            let scaled: u128 = n * self.sum_sq;
            let s: i128 = self.sum as i128;
            let square: i128 = s * s;
            let count: u64 = self.count as u64;
            Fraction { num: scaled as i128 - square, den: count * (count - 1) }
        }
    }

    /// Whether the values seen are worth reporting: there are at least two,
    /// and they are not all the same.
    pub fn is_informative(&self) -> (informative: bool)
        requires
            self.wf(),
        ensures
            informative == (self@.count >= 2 && self@.variance_num() != 0),
    {
        if self.count < 2 {
            false
        } else {
            let variance = self.final_variance();
            variance.num != 0
        }
    }
}

/// The step of the summary as a function, for folding.
pub open spec fn push_step() -> spec_fn(Summary, int) -> Summary {
    |s: Summary, x: int| s.push(x)
}

/// The summary of a series is the fold of its values from the empty summary.
pub proof fn lemma_summary_is_fold(samples: Seq<int>)
    ensures
        Summary::of(samples) == samples.fold_left(Summary::empty(), push_step()),
    decreases samples.len(),
{
    if samples.len() > 0 {
        lemma_summary_is_fold(samples.drop_last());
    }
}

/// The summary of a series does not depend on the order of its values: two
/// series with the same values, each as often in one as in the other, have
/// the same count, sum and sum of squares, and so the same mean and variance.
pub proof fn lemma_summary_order_independent(a: Seq<int>, b: Seq<int>)
    requires
        a.to_multiset() == b.to_multiset(),
    ensures
        Summary::of(a) == Summary::of(b),
{
    lemma_summary_is_fold(a);
    lemma_summary_is_fold(b);
    assert(commutative_foldl(push_step())) by {
        assert forall|x: int, y: int, v: Summary| #[trigger]
            push_step()(push_step()(v, x), y) == push_step()(push_step()(v, y), x) by {}
    }
    lemma_fold_left_permutation(a, b, push_step(), Summary::empty());
}

/// The summary of values that fit in 32 bits, no more of them than a
/// 32-bit count can hold, is in range.
pub proof fn lemma_summary_in_range(samples: Seq<int>)
    requires
        samples.len() <= u32::MAX,
        forall|i: int| 0 <= i < samples.len() ==> i32::MIN <= #[trigger] samples[i] <= i32::MAX,
    ensures
        Summary::of(samples).count == samples.len(),
        Summary::of(samples).in_range(),
    decreases samples.len(),
{
    lemma_spread_not_negative(samples);
    if samples.len() > 0 {
        lemma_summary_in_range(samples.drop_last());
        lemma_square_bound(samples.last());
    }
}

/// The exact form of the online update of mean and squared deviations.
///
/// Write `n` for the count before the value `x` arrives, `mean = sum / n`
/// for the mean before and `mean'` for the mean after. The update moves the
/// mean by `(x - mean) / (n + 1)` and adds `(x - mean) * (x - mean')` to the
/// sum of squared deviations. Cleared of fractions, with `d = n * x - sum`:
/// the new sum times `n` is the old sum times `n + 1` plus `d`, and the new
/// spread times `n` is the old spread times `n + 1` plus `d * d`.
pub proof fn lemma_online_update(before: Summary, x: int)
    requires
        before.count >= 1,
    ensures
        ({
            let n = before.count as int;
            let after = before.push(x);
            let d = n * x - before.sum;
            &&& d == (n + 1) * x - after.sum
            &&& n * after.sum == (n + 1) * before.sum + d
            &&& n * after.spread() == (n + 1) * before.spread() + d * d
        }),
{
    let n: int = before.count as int;
    lemma_spread_step(n, before.sum, before.sum_sq, x);
    assert(n * (before.sum + x) == (n + 1) * before.sum + (n * x - before.sum))
        by (nonlinear_arith);
    assert((n + 1) * x - (before.sum + x) == n * x - before.sum) by (nonlinear_arith);
}

/// A single value has no variance.
pub proof fn lemma_single_value_has_no_variance(x: int)
    ensures
        Summary::empty().push(x).count == 1,
        Summary::empty().push(x).sum == x,
        Summary::empty().push(x).variance_num() == 0,
{
}

/// Whether the values are all the same.
pub open spec fn all_equal(samples: Seq<int>) -> bool {
    forall|i: int, j: int|
        0 <= i < samples.len() && 0 <= j < samples.len() ==> samples[i] == samples[j]
}

/// The spread of a series of values is never negative.
pub proof fn lemma_spread_not_negative(samples: Seq<int>)
    ensures
        Summary::of(samples).count == samples.len(),
        Summary::of(samples).spread() >= 0,
    decreases samples.len(),
{
    if samples.len() > 0 {
        let before = Summary::of(samples.drop_last());
        let x: int = samples.last();
        lemma_spread_not_negative(samples.drop_last());
        if before.count == 0 {
            assert(Summary::of(samples).spread() == 0) by (nonlinear_arith)
                requires
                    Summary::of(samples).count == 1,
                    Summary::of(samples).sum == x,
                    Summary::of(samples).sum_sq == x * x,
            ;
        } else {
            let n: int = before.count as int;
            lemma_spread_step(n, before.sum, before.sum_sq, x);
            lemma_spread_stays_nonnegative(
                n,
                before.spread(),
                Summary::of(samples).spread(),
                n * x - before.sum,
            );
        }
    }
}

/// Values that are all the same add up to so many times the first.
proof fn lemma_constant_summary(samples: Seq<int>)
    requires
        samples.len() > 0,
        all_equal(samples),
    ensures
        Summary::of(samples).count == samples.len(),
        Summary::of(samples).sum == samples.len() * samples[0],
        Summary::of(samples).sum_sq == samples.len() * (samples[0] * samples[0]),
    decreases samples.len(),
{
    let head = samples.drop_last();
    let c: int = samples[0];
    assert(samples.last() == samples[samples.len() - 1]);
    assert(samples.last() == c);
    assert(Summary::of(samples) == Summary::of(head).push(c));
    if head.len() > 0 {
        assert(all_equal(head)) by {
            assert forall|i: int, j: int|
                0 <= i < head.len() && 0 <= j < head.len() implies head[i] == head[j] by {
                assert(samples[i] == samples[j]);
            }
        }
        assert(head[0] == samples[0]);
        lemma_constant_summary(head);
        let n: int = head.len() as int;
        assert((n + 1) * c == n * c + c) by (nonlinear_arith);
        assert((n + 1) * (c * c) == n * (c * c) + c * c) by (nonlinear_arith);
    } else {
        assert(Summary::of(head) == Summary::empty());
    }
}

proof fn lemma_constant_has_no_spread(n: int, c: int)
    by (nonlinear_arith)
    ensures
        n * (n * (c * c)) - (n * c) * (n * c) == 0,
{
}

proof fn lemma_zero_sum_of_squares(n: int, w: int, d: int)
    by (nonlinear_arith)
    requires
        n >= 1,
        w >= 0,
        (n + 1) * w + d * d == 0,
    ensures
        w == 0,
        d == 0,
{
}

proof fn lemma_zero_product(n: int, x: int, c: int)
    by (nonlinear_arith)
    requires
        n >= 1,
        n * x - n * c == 0,
    ensures
        x == c,
{
}

/// The variance of a series of values is zero where the values are all the
/// same, and nowhere else.
pub proof fn lemma_no_spread_iff_all_equal(samples: Seq<int>)
    ensures
        Summary::of(samples).spread() == 0 <==> all_equal(samples),
    decreases samples.len(),
{
    if samples.len() == 0 {
        assert(Summary::of(samples).spread() == 0) by (nonlinear_arith)
            requires
                Summary::of(samples).count == 0,
                Summary::of(samples).sum == 0,
        ;
    } else {
        let head = samples.drop_last();
        let x: int = samples.last();
        let after = Summary::of(samples);
        assert(samples.last() == samples[samples.len() - 1]);
        if all_equal(samples) {
            lemma_constant_summary(samples);
            lemma_constant_has_no_spread(samples.len() as int, samples[0]);
        }
        if after.spread() == 0 {
            if head.len() == 0 {
            } else {
                let before = Summary::of(head);
                let n: int = head.len() as int;
                lemma_spread_not_negative(head);
                lemma_spread_step(n, before.sum, before.sum_sq, x);
                assert(n * after.spread() == 0) by (nonlinear_arith)
                    requires
                        after.spread() == 0,
                ;
                lemma_zero_sum_of_squares(n, before.spread(), n * x - before.sum);
                lemma_no_spread_iff_all_equal(head);
                lemma_constant_summary(head);
                lemma_zero_product(n, x, head[0]);
                assert forall|i: int, j: int|
                    0 <= i < samples.len() && 0 <= j < samples.len() implies samples[i]
                    == samples[j] by {
                    if i < head.len() {
                        assert(head[i] == head[0]);
                    }
                    if j < head.len() {
                        assert(head[j] == head[0]);
                    }
                }
            }
        }
    }
}

/// The squares of `n * x - s`, added up over the values `x`.
///
/// With `n` the count of the values and `s` their sum, `n * x - s` is `n`
/// times the deviation of `x` from the mean `s / n`, so this is `n * n`
/// times the sum of squared deviations from the mean.
pub open spec fn scaled_deviations(samples: Seq<int>, n: int, s: int) -> int
    decreases samples.len(),
{
    if samples.len() == 0 {
        0
    } else {
        scaled_deviations(samples.drop_last(), n, s) + (n * samples.last() - s) * (n
            * samples.last() - s)
    }
}

proof fn lemma_scaled_square(n: int, s: int, x: int)
    ensures
        (n * x - s) * (n * x - s) == (n * n) * (x * x) - 2 * ((n * s) * x) + s * s,
{
    let nx: int = n * x;
    assert((nx - s) * (nx - s) == nx * nx - 2 * (nx * s) + s * s) by (nonlinear_arith);
    assert(nx * nx == (n * n) * (x * x)) by (nonlinear_arith)
        requires
            nx == n * x,
    ;
    assert(nx * s == (n * s) * x) by (nonlinear_arith)
        requires
            nx == n * x,
    ;
}

/// The squares of `n * x - s` written out in count, sum and sum of squares.
proof fn lemma_scaled_deviations_expand(samples: Seq<int>, n: int, s: int)
    ensures
        scaled_deviations(samples, n, s) == (n * n) * Summary::of(samples).sum_sq - 2 * ((n * s)
            * Summary::of(samples).sum) + Summary::of(samples).count * (s * s),
    decreases samples.len(),
{
    let nn: int = n * n;
    let ns: int = n * s;
    let ss: int = s * s;
    if samples.len() == 0 {
        assert(nn * 0 == 0);
        assert(ns * 0 == 0);
        assert(0 * ss == 0);
    } else {
        let head = Summary::of(samples.drop_last());
        let x: int = samples.last();
        let xx: int = x * x;
        lemma_scaled_deviations_expand(samples.drop_last(), n, s);
        lemma_scaled_square(n, s, x);
        assert(nn * (head.sum_sq + xx) == nn * head.sum_sq + nn * xx) by (nonlinear_arith);
        assert(ns * (head.sum + x) == ns * head.sum + ns * x) by (nonlinear_arith);
        assert((head.count + 1) * ss == head.count * ss + ss) by (nonlinear_arith);
    }
}

/// The spread is the count times the sum of squared deviations from the
/// mean.
///
/// Write `n` for the count, `s` for the sum and `mean = s / n`. Each value
/// `x` deviates from the mean by `(n * x - s) / n`. So the squared
/// deviations add up to `scaled_deviations / (n * n)`, and what is shown
/// here, that `scaled_deviations` is `n` times the spread, says that they
/// add up to `spread / n`. The sample variance, spread over
/// `n * (n - 1)`, is therefore the sum of squared deviations over `n - 1`.
pub proof fn lemma_spread_is_squared_deviations(samples: Seq<int>)
    ensures
        scaled_deviations(
            samples,
            Summary::of(samples).count as int,
            Summary::of(samples).sum,
        ) == Summary::of(samples).count * Summary::of(samples).spread(),
{
    let all = Summary::of(samples);
    let n: int = all.count as int;
    let s: int = all.sum;
    let q: int = all.sum_sq;
    lemma_scaled_deviations_expand(samples, n, s);
    assert((n * n) * q - 2 * ((n * s) * s) + n * (s * s) == n * (n * q - s * s))
        by (nonlinear_arith);
}

} // verus!
