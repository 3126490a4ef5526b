//! The autocorrelation engine: a pure function from an ordered snapshot of
//! price samples and a lag to an optional statistic.
//!
//! Present prices are extracted in ascending order (empty buckets are
//! skipped, so adjacency in the return series reflects adjacency among known
//! prices only). Simple returns are computed between consecutive present
//! prices as fixed-point integers at the fine internal scale `RETURN_SCALE`,
//! with division truncated toward zero. The statistic is the ratio of the
//! mean-centered lagged covariance sum to the centered square sum — the
//! common `1/T` factor of autocovariance and variance cancels in the
//! quotient — emitted at the public `SCALE` and truncated toward zero; the
//! internal scale cancels in the ratio. When the square sum is very large
//! (far beyond any realistic series), numerator and denominator are first
//! halved together until the final scaling fits the machine integer, which
//! leaves the ratio essentially unchanged. The result is absent when fewer
//! than two present prices exist, when the lag is not below the number of
//! returns, or when the centered square sum (and so the variance) is exactly
//! zero.

use vstd::prelude::*;
use vstd::arithmetic::div_mod::{
    lemma_div_is_ordered, lemma_div_multiples_vanish, lemma_div_nonincreasing,
    lemma_div_pos_is_pos, lemma_fundamental_div_mod, lemma_mod_bound,
};
use crate::sample::{price_ok, PriceSample, SCALE};
use crate::series::MAX_CAPACITY;

verus! {

/// Internal fixed-point scale of the returns, their mean and the centered
/// deviations: a thousand times finer than the statistic's public `SCALE`,
/// so the truncation of each return stays far below the emitted digits.
pub const RETURN_SCALE: i64 = 1_000_000_000;

/// Largest magnitude of one scaled return: `MAX_PRICE * RETURN_SCALE`.
pub const MAX_RETURN: i64 = 100_000_000_000_000_000;

/// Ceiling on the centered square sum in the final division: above it,
/// numerator and denominator are halved together first, so that the
/// numerator times `SCALE` always fits an `i128`.
pub const DEN_CAP: i128 = 100_000_000_000_000_000_000_000_000_000;

/// The sequence of i64 values as mathematical integers.
pub open spec fn as_ints(s: Seq<i64>) -> Seq<int> {
    s.map_values(|x: i64| x as int)
}

/// The present prices of a snapshot, in order: the fetched-else-estimate
/// price of every sample that has one; samples without a price are skipped.
pub open spec fn present_prices(samples: Seq<PriceSample>) -> Seq<i64>
    decreases samples.len(),
{
    if samples.len() == 0 {
        Seq::empty()
    } else {
        let rest = present_prices(samples.drop_last());
        match samples.last().spec_present_price() {
            Some(p) => rest.push(p),
            None => rest,
        }
    }
}

/// Integer division truncated toward zero (for a positive divisor), as the
/// machine division of the implementation behaves.
pub open spec fn tdiv(a: int, b: int) -> int {
    if a >= 0 {
        a / b
    } else {
        -((-a) / b)
    }
}

/// The simple return from `p1` to `p2`, scaled by `RETURN_SCALE` and
/// truncated toward zero: `(p2 - p1) * RETURN_SCALE / p1`.
pub open spec fn scaled_return(p1: int, p2: int) -> int {
    tdiv((p2 - p1) * RETURN_SCALE, p1)
}

/// Returns between consecutive prices, in order.
pub open spec fn returns_of(prices: Seq<i64>) -> Seq<int>
    decreases prices.len(),
{
    if prices.len() < 2 {
        Seq::empty()
    } else {
        returns_of(prices.drop_last()).push(
            scaled_return(prices[prices.len() - 2] as int, prices.last() as int),
        )
    }
}

/// Left-to-right sum.
pub open spec fn sum_of(s: Seq<int>) -> int
    decreases s.len(),
{
    if s.len() == 0 {
        0
    } else {
        sum_of(s.drop_last()) + s.last()
    }
}

/// Mean of the returns, truncated toward zero.
pub open spec fn mean_of(rets: Seq<int>) -> int
    recommends
        rets.len() > 0,
{
    tdiv(sum_of(rets), rets.len() as int)
}

/// The returns centered on their mean.
pub open spec fn deviations(rets: Seq<int>) -> Seq<int> {
    rets.map_values(|r: int| r - mean_of(rets))
}

/// The products of deviations `lag` positions apart; with a lag of zero,
/// the squared deviations.
pub open spec fn lag_products(d: Seq<int>, lag: int) -> Seq<int>
    recommends
        0 <= lag <= d.len(),
{
    Seq::new((d.len() - lag) as nat, |i: int| d[i] * d[i + lag])
}

/// Numerator and denominator halved together until the denominator is at
/// most `DEN_CAP`: the ratio is preserved up to a vanishing rounding, and
/// the scaled division below cannot overflow.
pub open spec fn reduced(num: int, den: int) -> (int, int)
    decreases den,
{
    if den > DEN_CAP {
        reduced(tdiv(num, 2), den / 2)
    } else {
        (num, den)
    }
}

/// The lag-k autocorrelation of the returns of a snapshot: the centered
/// lagged covariance sum over the centered square sum, scaled by `SCALE`.
/// Absent when fewer than two prices are present, when the lag is not below
/// the number of returns, or when the square sum — hence the variance — is
/// zero.
pub open spec fn autocorrelation_spec(samples: Seq<PriceSample>, lag: int) -> Option<int> {
    let prices = present_prices(samples);
    if prices.len() < 2 {
        None
    } else {
        let rets = returns_of(prices);
        if lag >= rets.len() {
            None
        } else {
            let d = deviations(rets);
            let den = sum_of(lag_products(d, 0));
            if den == 0 {
                None
            } else {
                let r = reduced(sum_of(lag_products(d, lag)), den);
                Some(tdiv(r.0 * SCALE, r.1))
            }
        }
    }
}

/// Truncated division bounded by a multiple of the divisor: if
/// `|a| <= m * b` then `|tdiv(a, b)| <= m`.
proof fn lemma_tdiv_bound(a: int, b: int, m: int)
    requires
        1 <= b,
        0 <= m,
        -(m * b) <= a <= m * b,
    ensures
        -m <= tdiv(a, b) <= m,
{
    lemma_div_multiples_vanish(m, b);
    if a >= 0 {
        lemma_div_is_ordered(a, m * b, b);
        lemma_div_pos_is_pos(a, b);
    } else {
        lemma_div_is_ordered(-a, m * b, b);
        lemma_div_pos_is_pos(-a, b);
    }
}

/// Machine form of `tdiv` on 128-bit values.
fn tdiv_i128(a: i128, b: i128) -> (q: i128)
    requires
        1 <= b,
        i128::MIN < a,
    ensures
        q as int == tdiv(a as int, b as int),
{
    if a >= 0 {
        proof {
            lemma_div_nonincreasing(a as int, b as int);
            lemma_div_pos_is_pos(a as int, b as int);
        }
        ((a as u128) / (b as u128)) as i128
    } else {
        let neg = -a;
        proof {
            lemma_div_nonincreasing(neg as int, b as int);
            lemma_div_pos_is_pos(neg as int, b as int);
        }
        -(((neg as u128) / (b as u128)) as i128)
    }
}

/// The scaled return between two prices.
fn scaled_return_exec(p1: i64, p2: i64) -> (r: i64)
    requires
        price_ok(p1),
        price_ok(p2),
    ensures
        r as int == scaled_return(p1 as int, p2 as int),
        -MAX_RETURN <= r <= MAX_RETURN,
{
    if p2 >= p1 {
        let num = (p2 - p1) * RETURN_SCALE;
        proof {
            lemma_div_nonincreasing(num as int, p1 as int);
            lemma_div_pos_is_pos(num as int, p1 as int);
        }
        ((num as u64) / (p1 as u64)) as i64
    } else {
        let num = (p1 - p2) * RETURN_SCALE;
        proof {
            lemma_div_nonincreasing(num as int, p1 as int);
            lemma_div_pos_is_pos(num as int, p1 as int);
        }
        -(((num as u64) / (p1 as u64)) as i64)
    }
}

/// Lag-k autocorrelation of the returns of `samples`, present prices only,
/// ascending order. Returns a value exactly when the specification does: at
/// least two present prices, `lag` below the number of returns, and a
/// nonzero centered square sum.
#[verifier::rlimit(80)]
pub fn autocorrelation_of_returns(samples: &Vec<PriceSample>, lag: usize) -> (r: Option<i128>)
    requires
        samples@.len() < MAX_CAPACITY,
        forall|i: int| 0 <= i < samples@.len() ==> (#[trigger] samples@[i]).wf(),
    ensures
        r is Some <==> autocorrelation_spec(samples@, lag as int) is Some,
        r is Some ==> r->0 == autocorrelation_spec(samples@, lag as int)->0,
{
    let n = samples.len();
    let mut prices: Vec<i64> = Vec::new();
    let mut i: usize = 0;
    while i < n
        invariant
            0 <= i <= n,
            n == samples@.len() < MAX_CAPACITY,
            forall|k: int| 0 <= k < samples@.len() ==> (#[trigger] samples@[k]).wf(),
            prices@ == present_prices(samples@.take(i as int)),
            prices@.len() <= i,
            forall|k: int| 0 <= k < prices@.len() ==> price_ok(#[trigger] prices@[k]),
        decreases n - i,
    {
        match samples[i].present_price() {
            Some(p) => {
                prices.push(p);
            }
            None => {}
        }
        proof {
            let t = samples@.take(i + 1);
            assert(t.drop_last() =~= samples@.take(i as int));
            assert(t.last() == samples@[i as int]);
        }
        i += 1;
    }
    proof {
        assert(samples@.take(n as int) =~= samples@);
    }
    let m = prices.len();
    if m < 2 {
        return None;
    }
    let ghost pview = prices@;
    let ghost rspec = returns_of(pview);

    let t = m - 1;
    let mut rets: Vec<i64> = Vec::new();
    let mut i: usize = 0;
    while i < t
        invariant
            0 <= i <= t,
            t == pview.len() - 1,
            2 <= pview.len() < MAX_CAPACITY,
            prices@ == pview,
            forall|k: int| 0 <= k < pview.len() ==> price_ok(#[trigger] pview[k]),
            rets@.len() == i,
            as_ints(rets@) == returns_of(pview.take(i + 1)),
            forall|k: int| 0 <= k < i ==> -MAX_RETURN <= #[trigger] rets@[k] <= MAX_RETURN,
        decreases t - i,
    {
        let r = scaled_return_exec(prices[i], prices[i + 1]);
        rets.push(r);
        proof {
            let tk = pview.take(i + 2);
            assert(tk.drop_last() =~= pview.take(i + 1));
            assert(tk.last() == pview[i + 1]);
            assert(tk[tk.len() - 2] == pview[i as int]);
            assert(as_ints(rets@) =~= returns_of(pview.take(i + 1)).push(
                scaled_return(pview[i as int] as int, pview[i + 1] as int),
            ));
        }
        i += 1;
    }
    proof {
        assert(pview.take(t + 1) =~= pview);
        assert(as_ints(rets@) == rspec);
    }
    if lag >= t {
        return None;
    }

    // Sum of the returns, for the mean.
    let mut total: i128 = 0;
    let mut i: usize = 0;
    while i < t
        invariant
            0 <= i <= t,
            t == rets@.len(),
            as_ints(rets@) == rspec,
            forall|k: int| 0 <= k < t ==> -MAX_RETURN <= #[trigger] rets@[k] <= MAX_RETURN,
            t < MAX_CAPACITY,
            total == sum_of(rspec.take(i as int)),
            -(i as int) * MAX_RETURN <= total as int <= (i as int) * MAX_RETURN,
        decreases t - i,
    {
        proof {
            let tk = rspec.take(i + 1);
            assert(tk.drop_last() =~= rspec.take(i as int));
            assert(tk.last() == rspec[i as int]);
        }
        total = total + (rets[i] as i128);
        i += 1;
    }
    proof {
        assert(rspec.take(t as int) =~= rspec);
    }
    let mean_wide = tdiv_i128(total, t as i128);
    proof {
        lemma_tdiv_bound(total as int, t as int, MAX_RETURN as int);
        assert(mean_wide as int == mean_of(rspec));
    }
    let mean = mean_wide as i64;

    // Deviations of the returns from their mean.
    let ghost dspec = deviations(rspec);
    let mut devs: Vec<i64> = Vec::new();
    let mut i: usize = 0;
    while i < t
        invariant
            0 <= i <= t,
            t == rets@.len(),
            as_ints(rets@) == rspec,
            forall|k: int| 0 <= k < t ==> -MAX_RETURN <= #[trigger] rets@[k] <= MAX_RETURN,
            -MAX_RETURN <= mean <= MAX_RETURN,
            mean as int == mean_of(rspec),
            devs@.len() == i,
            forall|k: int| 0 <= k < i ==> #[trigger] devs@[k] as int == rspec[k] - mean_of(rspec),
            forall|k: int| 0 <= k < i ==> -2 * MAX_RETURN <= #[trigger] devs@[k] <= 2 * MAX_RETURN,
        decreases t - i,
    {
        devs.push(rets[i] - mean);
        i += 1;
    }
    proof {
        assert(as_ints(devs@) =~= dspec);
    }

    // Centered square sum: the variance times the number of returns.
    let ghost sq = lag_products(dspec, 0);
    let mut den: i128 = 0;
    let mut i: usize = 0;
    while i < t
        invariant
            0 <= i <= t,
            t == devs@.len() == dspec.len(),
            t < MAX_CAPACITY,
            as_ints(devs@) == dspec,
            forall|k: int| 0 <= k < t ==> -2 * MAX_RETURN <= #[trigger] devs@[k] <= 2 * MAX_RETURN,
            sq == lag_products(dspec, 0),
            den == sum_of(sq.take(i as int)),
            0 <= den as int <= (i as int) * 40_000_000_000_000_000_000_000_000_000_000_000,
        decreases t - i,
    {
        let d = devs[i];
        proof {
            assert(0 <= (d as int) * (d as int) <= 40_000_000_000_000_000_000_000_000_000_000_000int)
                by (nonlinear_arith)
                requires
                    -200_000_000_000_000_000 <= d as int <= 200_000_000_000_000_000,
            ;
        }
        let p = (d as i128) * (d as i128);
        proof {
            let tk = sq.take(i + 1);
            assert(tk.drop_last() =~= sq.take(i as int));
            assert(tk.last() == sq[i as int]);
            assert(sq[i as int] == dspec[i as int] * dspec[i as int]);
        }
        den = den + p;
        i += 1;
    }
    proof {
        assert(sq.take(t as int) =~= sq);
        assert(den as int == sum_of(lag_products(dspec, 0)));
        assert forall|j: int| 0 <= j < sq.len() implies 0 <= #[trigger] sq[j] by {
            assert(sq[j] == dspec[j] * dspec[j]);
            assert(0 <= dspec[j] * dspec[j]) by (nonlinear_arith);
        }
        assert forall|j: int| 0 <= j < sq.len() implies #[trigger] sq[j] <= den as int by {
            lemma_sum_of_element_bound(sq, j);
        }
    }
    if den == 0 {
        return None;
    }

    // Centered lagged covariance sum.
    let ghost lp = lag_products(dspec, lag as int);
    let span = t - lag;
    let mut num: i128 = 0;
    let mut i: usize = 0;
    while i < span
        invariant
            0 <= i <= span,
            span == t - lag,
            lag < t,
            t == devs@.len() == dspec.len(),
            t < MAX_CAPACITY,
            as_ints(devs@) == dspec,
            forall|k: int| 0 <= k < t ==> -2 * MAX_RETURN <= #[trigger] devs@[k] <= 2 * MAX_RETURN,
            lp == lag_products(dspec, lag as int),
            sq == lag_products(dspec, 0),
            1 <= den,
            forall|j: int| 0 <= j < t ==> #[trigger] sq[j] <= den as int,
            num == sum_of(lp.take(i as int)),
            -(i as int) * 40_000_000_000_000_000_000_000_000_000_000_000 <= num as int <= (i as int)
                * 40_000_000_000_000_000_000_000_000_000_000_000,
            -((i as int) * (den as int)) <= num as int <= (i as int) * (den as int),
        decreases span - i,
    {
        let d1 = devs[i];
        let d2 = devs[i + lag];
        proof {
            assert(-40_000_000_000_000_000_000_000_000_000_000_000int <= (d1 as int) * (d2 as int)
                <= 40_000_000_000_000_000_000_000_000_000_000_000int) by (nonlinear_arith)
                requires
                    -200_000_000_000_000_000 <= d1 as int <= 200_000_000_000_000_000,
                    -200_000_000_000_000_000 <= d2 as int <= 200_000_000_000_000_000,
            ;
            assert(sq[i as int] == dspec[i as int] * dspec[i as int]);
            assert(sq[i + lag] == dspec[i + lag] * dspec[i + lag]);
            assert(-(den as int) <= (d1 as int) * (d2 as int) <= den as int) by (nonlinear_arith)
                requires
                    (d1 as int) * (d1 as int) <= den as int,
                    (d2 as int) * (d2 as int) <= den as int,
            ;
            assert((i as int + 1) * (den as int) == (i as int) * (den as int) + den as int)
                by (nonlinear_arith);
            assert(-((i as int + 1) * (den as int)) <= num as int + (d1 as int) * (d2 as int)
                <= (i as int + 1) * (den as int));
        }
        let p = (d1 as i128) * (d2 as i128);
        proof {
            let tk = lp.take(i + 1);
            assert(tk.drop_last() =~= lp.take(i as int));
            assert(tk.last() == lp[i as int]);
            assert(lp[i as int] == dspec[i as int] * dspec[i + lag]);
        }
        num = num + p;
        i += 1;
    }
    proof {
        assert(lp.take(span as int) =~= lp);
        assert(num as int == sum_of(lag_products(dspec, lag as int)));
        assert(-740 * (den as int) <= num as int <= 740 * (den as int)) by (nonlinear_arith)
            requires
                0 <= span < 741,
                1 <= den as int,
                -((span as int) * (den as int)) <= num as int <= (span as int) * (den as int),
        ;
        assert(-(741 * 40_000_000_000_000_000_000_000_000_000_000_000) <= num as int <= 741
            * 40_000_000_000_000_000_000_000_000_000_000_000) by (nonlinear_arith)
            requires
                0 <= span < 741,
                -((span as int) * 40_000_000_000_000_000_000_000_000_000_000_000) <= num as int
                    <= (span as int) * 40_000_000_000_000_000_000_000_000_000_000_000,
        ;
    }

    // Halve numerator and denominator together until the final scaling fits.
    let mut num2 = num;
    let mut den2 = den;
    while den2 > DEN_CAP
        invariant
            1 <= den2,
            -(740 * (den2 as int) + 740) <= num2 as int <= 740 * (den2 as int) + 740,
            -(741 * 40_000_000_000_000_000_000_000_000_000_000_000) <= num2 as int <= 741
                * 40_000_000_000_000_000_000_000_000_000_000_000,
            reduced(num2 as int, den2 as int) == reduced(num as int, den as int),
        decreases den2,
    {
        proof {
            lemma_halving_keeps_bound(num2 as int, den2 as int);
        }
        let halved_num = tdiv_i128(num2, 2);
        let halved_den = ((den2 as u128) / 2) as i128;
        proof {
            assert(halved_den as int == den2 as int / 2);
            assert(reduced(num2 as int, den2 as int) == reduced(
                tdiv(num2 as int, 2),
                den2 as int / 2,
            ));
        }
        num2 = halved_num;
        den2 = halved_den;
    }
    let value = tdiv_i128(num2 * (SCALE as i128), den2);
    Some(value)
}

/// The sum of a sequence of nonnegative values is nonnegative.
proof fn lemma_sum_of_nonneg(s: Seq<int>)
    requires
        forall|k: int| 0 <= k < s.len() ==> 0 <= #[trigger] s[k],
    ensures
        0 <= sum_of(s),
    decreases s.len(),
{
    if s.len() > 0 {
        assert forall|k: int| 0 <= k < s.drop_last().len() implies 0 <= #[trigger] s.drop_last()[k] by {
            assert(s.drop_last()[k] == s[k]);
        }
        lemma_sum_of_nonneg(s.drop_last());
    }
}

/// In a sequence of nonnegative values, every element is at most the sum.
proof fn lemma_sum_of_element_bound(s: Seq<int>, j: int)
    requires
        forall|k: int| 0 <= k < s.len() ==> 0 <= #[trigger] s[k],
        0 <= j < s.len(),
    ensures
        s[j] <= sum_of(s),
    decreases s.len(),
{
    assert forall|k: int| 0 <= k < s.drop_last().len() implies 0 <= #[trigger] s.drop_last()[k] by {
        assert(s.drop_last()[k] == s[k]);
    }
    if j < s.len() - 1 {
        lemma_sum_of_element_bound(s.drop_last(), j);
        assert(s.drop_last()[j] == s[j]);
    } else {
        lemma_sum_of_nonneg(s.drop_last());
    }
}

/// One joint halving keeps the numerator within its denominator-relative
/// bound, and never grows its magnitude.
proof fn lemma_halving_keeps_bound(num: int, den: int)
    requires
        2 <= den,
        -(740 * den + 740) <= num <= 740 * den + 740,
    ensures
        -(740 * (den / 2) + 740) <= tdiv(num, 2) <= 740 * (den / 2) + 740,
        1 <= den / 2,
        den / 2 < den,
        num >= 0 ==> 0 <= tdiv(num, 2) <= num,
        num < 0 ==> num <= tdiv(num, 2) <= 0,
{
    let h = den / 2;
    lemma_fundamental_div_mod(den, 2);
    lemma_mod_bound(den, 2);
    assert(2 * h >= den - 1);
    let half_bound = 370 * den + 370;
    assert((2 * half_bound) / 2 == half_bound) by {
        lemma_div_multiples_vanish(half_bound, 2);
    }
    assert(half_bound <= 740 * h + 740);
    if num >= 0 {
        lemma_div_is_ordered(num, 2 * half_bound, 2);
        lemma_div_pos_is_pos(num, 2);
        lemma_div_nonincreasing(num, 2);
    } else {
        lemma_div_is_ordered(-num, 2 * half_bound, 2);
        lemma_div_pos_is_pos(-num, 2);
        lemma_div_nonincreasing(-num, 2);
    }
}

/// With fewer than two present prices there are no returns, and the
/// statistic is absent.
pub proof fn lemma_autocorrelation_insufficient_data(samples: Seq<PriceSample>, lag: int)
    requires
        present_prices(samples).len() < 2,
    ensures
        autocorrelation_spec(samples, lag) is None,
{
}

/// With a lag at or beyond the number of returns the statistic is absent.
pub proof fn lemma_autocorrelation_lag_too_large(samples: Seq<PriceSample>, lag: int)
    requires
        lag >= returns_of(present_prices(samples)).len(),
    ensures
        autocorrelation_spec(samples, lag) is None,
{
}

/// All returns of a constant price series are zero.
proof fn lemma_returns_of_constant(prices: Seq<i64>)
    requires
        forall|i: int| 0 <= i < prices.len() ==> 1 <= #[trigger] prices[i],
        forall|i: int, j: int|
            0 <= i < prices.len() && 0 <= j < prices.len() ==> prices[i] == prices[j],
    ensures
        forall|k: int| 0 <= k < returns_of(prices).len() ==> returns_of(prices)[k] == 0,
        returns_of(prices).len() == if prices.len() < 2 { 0int } else { prices.len() - 1 },
    decreases prices.len(),
{
    if prices.len() >= 2 {
        let d = prices.drop_last();
        assert forall|i: int| 0 <= i < d.len() implies 1 <= #[trigger] d[i] by {
            assert(d[i] == prices[i]);
        }
        lemma_returns_of_constant(d);
        let p1 = prices[prices.len() - 2] as int;
        let p2 = prices.last() as int;
        assert(p1 == p2);
        assert(1 <= p1);
        assert(scaled_return(p1, p2) == tdiv(0 * RETURN_SCALE, p1));
        assert(tdiv(0, p1) == 0int / p1);
        assert(0int / p1 == 0) by (nonlinear_arith)
            requires
                1 <= p1,
        ;
    }
}

/// The sum of an all-zero sequence is zero.
proof fn lemma_sum_of_zeros(s: Seq<int>)
    requires
        forall|k: int| 0 <= k < s.len() ==> s[k] == 0,
    ensures
        sum_of(s) == 0,
    decreases s.len(),
{
    if s.len() > 0 {
        lemma_sum_of_zeros(s.drop_last());
    }
}

/// For a constant price series the returns, their mean and all deviations
/// are zero, so the variance is zero and the statistic is absent, whatever
/// the lag.
pub proof fn lemma_autocorrelation_constant_prices(samples: Seq<PriceSample>, lag: int)
    requires
        forall|i: int| 0 <= i < present_prices(samples).len() ==> 1 <= #[trigger] present_prices(
            samples,
        )[i],
        forall|i: int, j: int|
            0 <= i < present_prices(samples).len() && 0 <= j < present_prices(samples).len()
                ==> present_prices(samples)[i] == present_prices(samples)[j],
    ensures
        autocorrelation_spec(samples, lag) is None,
{
    let prices = present_prices(samples);
    if prices.len() >= 2 {
        let rets = returns_of(prices);
        lemma_returns_of_constant(prices);
        if lag < rets.len() {
            lemma_sum_of_zeros(rets);
            assert(sum_of(rets) == 0);
            assert(mean_of(rets) == tdiv(0, rets.len() as int));
            assert(0int / rets.len() as int == 0) by (nonlinear_arith)
                requires
                    rets.len() > 0,
            ;
            let d = deviations(rets);
            assert(forall|k: int| 0 <= k < d.len() ==> d[k] == 0);
            let sq = lag_products(d, 0);
            assert forall|k: int| 0 <= k < sq.len() implies sq[k] == 0 by {
                assert(sq[k] == d[k] * d[k]);
            }
            lemma_sum_of_zeros(sq);
        }
    }
}

} // verus!
