//! Interpolated quantiles ("R-7": linear interpolation between order
//! statistics) in exact integer arithmetic.
//!
//! A quantile is asked for as a fraction `numer / denom` of the way through
//! the sorted samples; a percentile is the fraction `p / 100`. The rank
//! `numer / denom * (len - 1)` is then a rational with denominator `denom`,
//! and so is the interpolated value: a quantile is returned times `denom`, a
//! percentile times [`SCALE`].

use vstd::arithmetic::div_mod::{
    lemma_div_multiples_vanish, lemma_fundamental_div_mod, lemma_mod_bound,
    lemma_mod_multiples_basic,
};
use vstd::prelude::*;
use vstd::relations::{sorted_by, total_ordering};
use vstd::seq_lib::{group_to_multiset_ensures, lemma_sorted_unique};

verus! {

/// A percentile is returned in units of `1 / SCALE` of the sample unit.
pub const SCALE: u64 = 100;

/// The order in which samples are ranked: by value.
pub open spec fn by_value() -> spec_fn(u64, u64) -> bool {
    |a: u64, b: u64| a <= b
}

/// `s` never decreases from one position to the next.
pub open spec fn is_ascending(s: Seq<u64>) -> bool {
    forall|i: int, j: int| 0 <= i < j < s.len() ==> s[i] <= s[j]
}

/// The values of `s`, each as often as it occurs in `s`, in ascending order.
pub open spec fn ascending(s: Seq<u64>) -> Seq<u64> {
    s.sort_by(by_value())
}

/// The value at `numer / denom` of the way through an ascending sequence,
/// times `denom`.
///
/// With `r = numer * (len - 1)`, the rank is `r / denom`: its whole part picks
/// the lower order statistic and its remainder `w` weighs the next one.
pub open spec fn interpolate_at(sorted: Seq<u64>, numer: nat, denom: nat) -> nat {
    if sorted.len() == 0 {
        0
    } else if sorted.len() == 1 {
        (denom * sorted[0]) as nat
    } else {
        let r = numer * (sorted.len() - 1);
        let lower = r / (denom as int);
        let w = r % (denom as int);
        if w == 0 {
            (denom * sorted[lower]) as nat
        } else {
            (sorted[lower] * (denom - w) + sorted[lower + 1] * w) as nat
        }
    }
}

/// The value at percentile `p` of an ascending sequence, times [`SCALE`].
pub open spec fn interpolate(sorted: Seq<u64>, p: nat) -> nat {
    interpolate_at(sorted, p, 100)
}

/// The quantile at `numer / denom` of `samples`, in any order, times `denom`.
pub open spec fn quantile_of(samples: Seq<u64>, numer: nat, denom: nat) -> nat {
    interpolate_at(ascending(samples), numer, denom)
}

/// The value at percentile `p` of `samples`, in any order, times [`SCALE`].
pub open spec fn percentile_of(samples: Seq<u64>, p: nat) -> nat {
    quantile_of(samples, p, 100)
}

/// The three percentiles that a report carries, each times [`SCALE`].
#[derive(Clone, Copy, Debug, PartialEq, Eq)]
pub struct Summary {
    pub p50: u128,
    pub p95: u128,
    pub p99: u128,
}

/// Numeric order is a total order.
pub proof fn lemma_by_value_total()
    ensures
        total_ordering(by_value()),
{
}

/// `ascending(s)` is ascending and holds the same values as `s`, and it is the
/// only sequence of which both are true.
pub proof fn lemma_ascending(s: Seq<u64>)
    ensures
        is_ascending(ascending(s)),
        ascending(s).to_multiset() == s.to_multiset(),
        ascending(s).len() == s.len(),
        forall|t: Seq<u64>|
            is_ascending(t) && t.to_multiset() == s.to_multiset() ==> t == ascending(s),
{
    broadcast use group_to_multiset_ensures;

    lemma_by_value_total();
    s.lemma_sort_by_ensures(by_value());
    let a = ascending(s);
    assert(a.to_multiset().len() == s.to_multiset().len());
    assert forall|i: int, j: int| 0 <= i < j < a.len() implies a[i] <= a[j] by {
        assert(by_value()(a[i], a[j]));
    }
    assert forall|t: Seq<u64>|
        is_ascending(t) && t.to_multiset() == s.to_multiset() implies t == a by {
        assert(sorted_by(t, by_value()));
        lemma_sorted_unique(t, a, by_value());
    }
}

/// Putting `x` behind everything that is not greater, and before everything
/// that is, keeps an ascending sequence ascending.
proof fn lemma_insert_keeps_ascending(s: Seq<u64>, at: int, x: u64)
    requires
        is_ascending(s),
        0 <= at <= s.len(),
        forall|i: int| 0 <= i < at ==> s[i] <= x,
        forall|i: int| at <= i < s.len() ==> x < s[i],
    ensures
        is_ascending(s.insert(at, x)),
{
    let t = s.insert(at, x);
    assert forall|i: int, j: int| 0 <= i < j < t.len() implies t[i] <= t[j] by {
        if i < at {
            assert(t[i] == s[i]);
        } else if i > at {
            assert(t[i] == s[i - 1]);
        }
        if j < at {
            assert(t[j] == s[j]);
        } else if j > at {
            assert(t[j] == s[j - 1]);
        }
    }
}

/// An ascending sequence is its own ascending arrangement.
pub proof fn lemma_ascending_fixed(s: Seq<u64>)
    requires
        is_ascending(s),
    ensures
        ascending(s) == s,
{
    lemma_ascending(s);
}

/// The quantile of no samples is zero, whatever the fraction.
pub proof fn lemma_quantile_empty(numer: nat, denom: nat)
    ensures
        quantile_of(Seq::<u64>::empty(), numer, denom) == 0,
{
    lemma_ascending(Seq::<u64>::empty());
}

/// The percentile of no samples is zero, whatever `p`.
pub proof fn lemma_percentile_empty(p: nat)
    ensures
        percentile_of(Seq::<u64>::empty(), p) == 0,
{
    lemma_quantile_empty(p, 100);
}

/// Every quantile of a single sample is that sample.
pub proof fn lemma_quantile_singleton(x: u64, numer: nat, denom: nat)
    ensures
        quantile_of(seq![x], numer, denom) == denom * x,
{
    lemma_ascending_fixed(seq![x]);
}

/// Every percentile of a single sample is that sample.
pub proof fn lemma_percentile_singleton(x: u64, p: nat)
    ensures
        percentile_of(seq![x], p) == SCALE * x,
{
    lemma_quantile_singleton(x, p, 100);
}

/// A quantile depends on which values occur and how often, not on the order
/// in which they were observed.
pub proof fn lemma_quantile_order_free(a: Seq<u64>, b: Seq<u64>, numer: nat, denom: nat)
    requires
        a.to_multiset() == b.to_multiset(),
    ensures
        quantile_of(a, numer, denom) == quantile_of(b, numer, denom),
{
    lemma_ascending(a);
    lemma_ascending(b);
}

/// A percentile depends on which values occur and how often, not on the order
/// in which they were observed.
pub proof fn lemma_percentile_order_free(a: Seq<u64>, b: Seq<u64>, p: nat)
    requires
        a.to_multiset() == b.to_multiset(),
    ensures
        percentile_of(a, p) == percentile_of(b, p),
{
    lemma_quantile_order_free(a, b, p, 100);
}

/// Where the rank `numer * (len - 1) / denom` falls in a sequence of
/// `len >= 2` values: on a position, or strictly between two neighbours.
proof fn lemma_rank_in_range(len: nat, numer: nat, denom: nat)
    requires
        len >= 2,
        0 < denom,
        numer <= denom,
    ensures
        0 <= (numer * (len - 1)) / (denom as int) <= len - 1,
        0 <= (numer * (len - 1)) % (denom as int) < denom,
        (numer * (len - 1)) % (denom as int) != 0 ==> (numer * (len - 1)) / (denom as int) + 1
            <= len - 1,
{
    let d = denom as int;
    let r = numer * (len - 1);
    assert(0 <= r <= d * (len - 1)) by (nonlinear_arith)
        requires
            r == numer * (len - 1),
            numer <= d,
            len >= 2,
    ;
    lemma_fundamental_div_mod(r, d);
    lemma_mod_bound(r, d);
    let q = r / d;
    let w = r % d;
    assert(0 <= q <= len - 1 && (w != 0 ==> q + 1 <= len - 1)) by (nonlinear_arith)
        requires
            r == d * q + w,
            0 <= w < d,
            0 <= r <= d * (len - 1),
    ;
}

/// A rank that is a whole number falls on that position.
proof fn lemma_whole_rank(position: int, denom: int)
    requires
        0 < denom,
    ensures
        (denom * position) / denom == position,
        (denom * position) % denom == 0,
{
    lemma_div_multiples_vanish(position, denom);
    lemma_mod_multiples_basic(position, denom);
    assert(denom * position == position * denom) by (nonlinear_arith);
}

/// A quantile lies between the least and the greatest sample; at the
/// fraction 0 it is the least and at the fraction 1 the greatest.
pub proof fn lemma_quantile_bounds(samples: Seq<u64>, numer: nat, denom: nat)
    requires
        samples.len() > 0,
        0 < denom,
        numer <= denom,
    ensures
        denom * ascending(samples).first() <= quantile_of(samples, numer, denom) <= denom
            * ascending(samples).last(),
        quantile_of(samples, 0, denom) == denom * ascending(samples).first(),
        quantile_of(samples, denom, denom) == denom * ascending(samples).last(),
{
    lemma_ascending(samples);
    let a = ascending(samples);
    if a.len() >= 2 {
        lemma_rank_in_range(a.len(), numer, denom);
        let r = numer * (a.len() - 1);
        let lower = r / (denom as int);
        let w = r % (denom as int);
        let least = a.first();
        let greatest = a.last();
        let lo = a[lower];
        assert(least <= lo <= greatest);
        if w != 0 {
            let hi = a[lower + 1];
            assert(lo <= hi <= greatest);
            assert(denom * least <= lo * (denom - w) + hi * w <= denom * greatest)
                by (nonlinear_arith)
                requires
                    0 < w < denom,
                    0 <= least <= lo <= hi <= greatest,
            ;
        } else {
            assert(denom * least <= denom * lo <= denom * greatest) by (nonlinear_arith)
                requires
                    0 < denom,
                    0 <= least <= lo <= greatest,
            ;
        }
        lemma_whole_rank(0, denom as int);
        assert(0 * (a.len() - 1) == 0);
        assert(denom * 0 == 0);
        lemma_whole_rank(a.len() - 1, denom as int);
    }
}

/// A percentile lies between the least and the greatest sample; the 0th is the
/// least and the 100th the greatest.
pub proof fn lemma_percentile_bounds(samples: Seq<u64>, p: nat)
    requires
        samples.len() > 0,
        p <= 100,
    ensures
        SCALE * ascending(samples).first() <= percentile_of(samples, p) <= SCALE * ascending(
            samples,
        ).last(),
        percentile_of(samples, 0) == SCALE * ascending(samples).first(),
        percentile_of(samples, 100) == SCALE * ascending(samples).last(),
{
    lemma_quantile_bounds(samples, p, 100);
}

/// The first position of `sorted` that holds a value greater than `x`.
fn insertion_point(sorted: &Vec<u64>, x: u64) -> (at: usize)
    requires
        is_ascending(sorted@),
    ensures
        at <= sorted.len(),
        forall|i: int| 0 <= i < at ==> sorted[i] <= x,
        forall|i: int| at <= i < sorted.len() ==> x < sorted[i],
{
    let mut lo: usize = 0;
    let mut hi: usize = sorted.len();
    while lo < hi
        invariant
            lo <= hi <= sorted.len(),
            is_ascending(sorted@),
            forall|i: int| 0 <= i < lo ==> sorted[i] <= x,
            forall|i: int| hi <= i < sorted.len() ==> x < sorted[i],
        decreases hi - lo,
    {
        let mid: usize = lo + (hi - lo) / 2;
        if sorted[mid] <= x {
            lo = mid + 1;
        } else {
            hi = mid;
        }
    }
    lo
}

/// A copy of `samples` in ascending order; `samples` itself is left as it is.
pub fn sorted_copy(samples: &Vec<u64>) -> (out: Vec<u64>)
    ensures
        out@ == ascending(samples@),
{
    let mut out: Vec<u64> = Vec::with_capacity(samples.len());
    let mut k: usize = 0;
    assert(out@ =~= samples@.subrange(0, 0));
    while k < samples.len()
        invariant
            k <= samples.len(),
            is_ascending(out@),
            out@.to_multiset() == samples@.subrange(0, k as int).to_multiset(),
        decreases samples.len() - k,
    {
        let x: u64 = samples[k];
        let at: usize = insertion_point(&out, x);
        proof {
            broadcast use group_to_multiset_ensures;

            assert(samples@.subrange(0, k + 1) == samples@.subrange(0, k as int).push(x));
            lemma_insert_keeps_ascending(out@, at as int, x);
        }
        out.insert(at, x);
        k += 1;
    }
    proof {
        assert(samples@.subrange(0, k as int) == samples@);
        lemma_ascending(samples@);
    }
    out
}

/// The quantile at `numer / denom` of samples that are already in ascending
/// order, times `denom`.
pub fn quantile_sorted(sorted: &Vec<u64>, numer: u64, denom: u64) -> (value: u128)
    requires
        is_ascending(sorted@),
        0 < denom,
        numer <= denom,
    ensures
        value == quantile_of(sorted@, numer as nat, denom as nat),
{
    proof {
        lemma_ascending_fixed(sorted@);
    }
    let len: usize = sorted.len();
    if len == 0 {
        return 0;
    }
    if len == 1 {
        proof {
            assert(denom * sorted@[0] <= 0xffff_ffff_ffff_ffff * 0xffff_ffff_ffff_ffff)
                by (nonlinear_arith)
                requires
                    0 <= denom <= 0xffff_ffff_ffff_ffff,
                    0 <= sorted@[0] <= 0xffff_ffff_ffff_ffff,
            ;
        }
        return (denom as u128) * (sorted[0] as u128);
    }
    proof {
        lemma_rank_in_range(len as nat, numer as nat, denom as nat);
        assert(0 <= numer * (len - 1) <= 0xffff_ffff_ffff_ffff * 0xffff_ffff_ffff_ffff)
            by (nonlinear_arith)
            requires
                0 <= numer <= 0xffff_ffff_ffff_ffff,
                0 <= len - 1 <= 0xffff_ffff_ffff_ffff,
        ;
    }
    let r: u128 = (numer as u128) * ((len - 1) as u128);
    let lower: usize = (r / (denom as u128)) as usize;
    let w: u128 = r % (denom as u128);
    let lo: u128 = sorted[lower] as u128;
    if w == 0 {
        proof {
            assert(denom * lo <= 0xffff_ffff_ffff_ffff * 0xffff_ffff_ffff_ffff)
                by (nonlinear_arith)
                requires
                    0 <= denom <= 0xffff_ffff_ffff_ffff,
                    0 <= lo <= 0xffff_ffff_ffff_ffff,
            ;
        }
        (denom as u128) * lo
    } else {
        let hi: u128 = sorted[lower + 1] as u128;
        proof {
            assert(0 <= lo * (denom - w) && 0 <= hi * w && lo * (denom - w) + hi * w
                <= 0xffff_ffff_ffff_ffff * 0xffff_ffff_ffff_ffff) by (nonlinear_arith)
                requires
                    0 < w < denom,
                    denom <= 0xffff_ffff_ffff_ffff,
                    0 <= lo <= 0xffff_ffff_ffff_ffff,
                    0 <= hi <= 0xffff_ffff_ffff_ffff,
            ;
        }
        lo * ((denom as u128) - w) + hi * w
    }
}

/// The quantile at `numer / denom` of `samples`, which may come in any
/// order, times `denom`. The samples are ranked on a sorted copy.
pub fn quantile(samples: &Vec<u64>, numer: u64, denom: u64) -> (value: u128)
    requires
        0 < denom,
        numer <= denom,
    ensures
        value == quantile_of(samples@, numer as nat, denom as nat),
{
    let sorted = sorted_copy(samples);
    proof {
        lemma_ascending(samples@);
        lemma_quantile_order_free(sorted@, samples@, numer as nat, denom as nat);
    }
    quantile_sorted(&sorted, numer, denom)
}

/// The value at percentile `p` of samples that are already in ascending
/// order, times [`SCALE`].
pub fn percentile_sorted(sorted: &Vec<u64>, p: u64) -> (value: u128)
    requires
        is_ascending(sorted@),
        p <= 100,
    ensures
        value == percentile_of(sorted@, p as nat),
{
    quantile_sorted(sorted, p, SCALE)
}

/// The value at percentile `p` of `samples`, which may come in any order,
/// times [`SCALE`]. The samples are ranked on a sorted copy.
pub fn percentile(samples: &Vec<u64>, p: u64) -> (value: u128)
    requires
        p <= 100,
    ensures
        value == percentile_of(samples@, p as nat),
        samples@.len() == 0 ==> value == 0,
        samples@.len() == 1 ==> value == SCALE * samples@[0],
{
    proof {
        if samples@.len() == 0 {
            assert(samples@ == Seq::<u64>::empty());
            lemma_percentile_empty(p as nat);
        }
        if samples@.len() == 1 {
            assert(samples@ == seq![samples@[0]]);
            lemma_percentile_singleton(samples@[0], p as nat);
        }
    }
    quantile(samples, p, SCALE)
}

/// The 50th, 95th and 99th percentile of `samples`, from one sorted copy.
pub fn summarize(samples: &Vec<u64>) -> (summary: Summary)
    ensures
        summary.p50 == percentile_of(samples@, 50),
        summary.p95 == percentile_of(samples@, 95),
        summary.p99 == percentile_of(samples@, 99),
{
    let sorted = sorted_copy(samples);
    proof {
        lemma_ascending(samples@);
        lemma_percentile_order_free(sorted@, samples@, 50);
        lemma_percentile_order_free(sorted@, samples@, 95);
        lemma_percentile_order_free(sorted@, samples@, 99);
    }
    Summary {
        p50: percentile_sorted(&sorted, 50),
        p95: percentile_sorted(&sorted, 95),
        p99: percentile_sorted(&sorted, 99),
    }
}

} // verus!
