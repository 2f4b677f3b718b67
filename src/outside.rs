//! Declarations of the histogram and quantile types this library stores, and
//! the calls it makes into them.
use hdrhistogram::Histogram;
use metrics_util::Quantile;
use vstd::multiset::Multiset;
use vstd::prelude::*;

verus! {

/// A sample accumulator: an `hdrhistogram::Histogram<u64>`, held opaque.
/// Its type parameter is bound by hdrhistogram's `Counter` trait, so the
/// histogram is kept in a private field rather than declared on its own.
#[verifier::external_body]
pub struct Samples {
    h: Histogram<u64>,
}

/// `metrics_util::Quantile`, held opaque: a fraction with its display label.
#[verifier::external_type_specification]
#[verifier::external_body]
pub struct ExQuantile(Quantile);

/// The samples an accumulator has recorded.
pub uninterp spec fn samples_of(s: Samples) -> Multiset<u64>;

/// The sample count an accumulator reports: the number of samples, saturating
/// at `u64::MAX`.
pub open spec fn reported_count(s: Samples) -> u64 {
    if samples_of(s).len() <= u64::MAX {
        samples_of(s).len() as u64
    } else {
        u64::MAX
    }
}

/// Relies on `Histogram::new(3)`: an empty auto-resizing histogram with three
/// significant figures; with these bounds it is always `Ok`.
#[verifier::external_body]
pub(crate) fn new_histogram() -> (r: Option<Samples>)
    ensures
        r is Some,
        samples_of(r->Some_0) == Multiset::<u64>::empty(),
{
    Histogram::<u64>::new(3).ok().map(|h| Samples { h })
}

/// Relies on `Histogram::record`: adds one sample. The histogram resizes
/// itself to fit any value, so the call succeeds.
#[verifier::external_body]
pub(crate) fn record_sample(s: &mut Samples, value: u64) -> (ok: bool)
    ensures
        ok,
        samples_of(*final(s)) == samples_of(*old(s)).insert(value),
{
    s.h.record(value).is_ok()
}

/// Relies on `Histogram::len`: the number of samples recorded, a total that
/// saturates at `u64::MAX`.
#[verifier::external_body]
pub(crate) fn sample_count(s: &Samples) -> (r: u64)
    ensures
        r == reported_count(*s),
{
    s.h.len()
}

/// Relies on `Histogram::value_at_quantile` and `Quantile::value`: the sample
/// value at the quantile's fraction.
#[verifier::external_body]
pub(crate) fn value_at(s: &Samples, q: &Quantile) -> (r: u64) {
    s.h.value_at_quantile(q.value())
}

/// Relies on `Quantile::label`: the quantile's display label (`min`, `p99`, ...).
#[verifier::external_body]
pub(crate) fn quantile_label(q: &Quantile) -> (r: String) {
    q.label().to_owned()
}

} // verus!
