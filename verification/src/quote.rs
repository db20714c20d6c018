//! The age of a timestamped message on arrival, and the mean of the ages that
//! pass for ordinary.
//!
//! Ages are samples like round-trip times: whole, never negative, kept in a
//! [`crate::window::SampleWindow`] as they come. Leaving the outliers out is a
//! matter of reporting and changes nothing that is stored.

use vstd::prelude::*;

verus! {

/// From this age on, in microseconds, a sample counts as an outlier.
pub const OUTLIER_LIMIT_MICROS: u64 = 10_000;

/// The instant that an RFC 3339 date-and-time text denotes, in microseconds
/// since the Unix epoch, as the `chrono` crate reads it; `None` for a text
/// that it does not accept.
pub uninterp spec fn rfc3339_micros(text: Seq<char>) -> Option<i64>;

/// Calls `chrono::DateTime::parse_from_rfc3339` and, on what it accepted,
/// `DateTime::timestamp_micros`.
///
/// Trusted: the result depends on the text alone, and is `None` exactly where
/// the parser returns an error. Nothing is claimed of which texts are accepted
/// or of the instant they denote.
#[verifier::external_body]
fn parse_rfc3339_micros(text: &str) -> (micros: Option<i64>)
    ensures
        micros == rfc3339_micros(text@),
{
    match chrono::DateTime::parse_from_rfc3339(text) {
        Ok(instant) => Some(instant.timestamp_micros()),
        Err(_) => None,
    }
}

/// The time from `stamped` to `received`; zero where the stamp lies ahead of
/// the receiver's clock.
pub open spec fn age_between(stamped: i64, received: i64) -> u64 {
    if received >= stamped {
        (received - stamped) as u64
    } else {
        0
    }
}

/// `age` is at or over the outlier limit.
pub open spec fn is_outlier(age: u64) -> bool {
    age >= OUTLIER_LIMIT_MICROS
}

/// The sum of the samples of `samples` that are under `limit`.
pub open spec fn sum_below(samples: Seq<u64>, limit: u64) -> nat
    decreases samples.len(),
{
    if samples.len() == 0 {
        0
    } else {
        sum_below(samples.drop_last(), limit) + if samples.last() < limit {
            samples.last() as nat
        } else {
            0
        }
    }
}

/// How many samples of `samples` are under `limit`.
pub open spec fn count_below(samples: Seq<u64>, limit: u64) -> nat
    decreases samples.len(),
{
    if samples.len() == 0 {
        0
    } else {
        count_below(samples.drop_last(), limit) + if samples.last() < limit {
            1nat
        } else {
            0
        }
    }
}

/// No more samples are under the limit than there are samples, and their sum
/// is under the limit times their number: the mean of the ordinary samples is
/// itself ordinary.
pub proof fn lemma_below_is_bounded(samples: Seq<u64>, limit: u64)
    ensures
        count_below(samples, limit) <= samples.len(),
        sum_below(samples, limit) <= count_below(samples, limit) * limit,
        count_below(samples, limit) > 0 ==> sum_below(samples, limit) < count_below(
            samples,
            limit,
        ) * limit,
        count_below(samples, limit) == 0 ==> sum_below(samples, limit) == 0,
    decreases samples.len(),
{
    if samples.len() > 0 {
        let front = samples.drop_last();
        lemma_below_is_bounded(front, limit);
        let c = count_below(front, limit);
        assert((c + 1) * limit == c * limit + limit) by (nonlinear_arith);
    }
}

/// A sample at or over the limit changes neither the sum nor the count.
pub proof fn lemma_outlier_is_left_out(samples: Seq<u64>, limit: u64, sample: u64)
    requires
        sample >= limit,
    ensures
        sum_below(samples.push(sample), limit) == sum_below(samples, limit),
        count_below(samples.push(sample), limit) == count_below(samples, limit),
{
    assert(samples.push(sample).drop_last() =~= samples);
}

/// The sum and the number of the samples that a mean is taken over.
#[derive(Clone, Copy, Debug, PartialEq, Eq)]
pub struct Mean {
    pub sum: u128,
    pub count: usize,
}

/// The time from `stamped` to `received`, both in microseconds since the
/// epoch; zero where the stamp lies ahead of the receiver's clock.
pub fn age_since(stamped: i64, received: i64) -> (age: u64)
    ensures
        age == age_between(stamped, received),
{
    if received >= stamped {
        ((received as i128) - (stamped as i128)) as u64
    } else {
        0
    }
}

/// Whether `age`, in microseconds, is at or over [`OUTLIER_LIMIT_MICROS`].
pub fn outlier(age: u64) -> (yes: bool)
    ensures
        yes == is_outlier(age),
{
    age >= OUTLIER_LIMIT_MICROS
}

/// The age at `received` of a message whose RFC 3339 timestamp is `stamp`, in
/// microseconds; `None` where `stamp` is not such a timestamp.
pub fn quote_age(stamp: &str, received: i64) -> (age: Option<u64>)
    ensures
        age == match rfc3339_micros(stamp@) {
            Some(stamped) => Some(age_between(stamped, received)),
            None => None,
        },
{
    match parse_rfc3339_micros(stamp) {
        Some(stamped) => Some(age_since(stamped, received)),
        None => None,
    }
}

/// The sum and the number of the samples under `limit`; what is at or over
/// it is left out, and `samples` is left as it is.
pub fn mean_below(samples: &Vec<u64>, limit: u64) -> (mean: Mean)
    ensures
        mean.sum == sum_below(samples@, limit),
        mean.count == count_below(samples@, limit),
{
    let mut sum: u128 = 0;
    let mut count: usize = 0;
    let mut i: usize = 0;
    assert(samples@.subrange(0, 0) =~= Seq::<u64>::empty());
    while i < samples.len()
        invariant
            i <= samples.len(),
            sum == sum_below(samples@.subrange(0, i as int), limit),
            count == count_below(samples@.subrange(0, i as int), limit),
            count <= i,
            sum <= i * 0xffff_ffff_ffff_ffff,
        decreases samples.len() - i,
    {
        let sample: u64 = samples[i];
        proof {
            assert(samples@.subrange(0, i + 1).drop_last() =~= samples@.subrange(0, i as int));
            assert((i + 1) * 0xffff_ffff_ffff_ffff == i * 0xffff_ffff_ffff_ffff
                + 0xffff_ffff_ffff_ffff) by (nonlinear_arith);
            assert((i + 1) * 0xffff_ffff_ffff_ffff <= 0xffff_ffff_ffff_ffff
                * 0xffff_ffff_ffff_ffff) by (nonlinear_arith)
                requires
                    i + 1 <= 0xffff_ffff_ffff_ffff,
            ;
        }
        if sample < limit {
            sum = sum + (sample as u128);
            count = count + 1;
        }
        i += 1;
    }
    assert(samples@.subrange(0, i as int) =~= samples@);
    Mean { sum, count }
}

} // verus!
