//! The durations that a run has measured, each under a name. The duration
//! of the whole run is held under the empty name.

use crate::text::{decimal_of, digit_char};
use num_format::{Locale, ToFormattedString};
use vstd::prelude::*;

verus! {

/// One measured duration, in nanoseconds.
pub struct Measurement {
    pub name: String,
    pub nanos: u128,
}

/// The duration of the whole run: that of the first measurement with an
/// empty name, or nothing where there is none.
pub open spec fn default_timing(measurements: Seq<Measurement>) -> u128
    decreases measurements.len(),
{
    if measurements.len() == 0 {
        0
    } else if measurements[0].name@.len() == 0 {
        measurements[0].nanos
    } else {
        default_timing(measurements.drop_first())
    }
}

/// The sum of the durations that have a name.
pub open spec fn named_total(measurements: Seq<Measurement>) -> nat
    decreases measurements.len(),
{
    if measurements.len() == 0 {
        0
    } else if measurements.last().name@.len() == 0 {
        named_total(measurements.drop_last())
    } else {
        named_total(measurements.drop_last()) + measurements.last().nanos as nat
    }
}

/// Adds a measurement at the end of the list.
pub fn push_measurement(measurements: &mut Vec<Measurement>, name: String, nanos: u128)
    ensures
        final(measurements)@ == old(measurements)@.push(Measurement { name, nanos }),
{
    measurements.push(Measurement { name, nanos });
}

/// The duration of the whole run.
pub fn get_default_timing(measurements: &Vec<Measurement>) -> (nanos: u128)
    ensures
        nanos == default_timing(measurements@),
{
    let mut i: usize = 0;
    assert(measurements@.skip(0) == measurements@);
    while i < measurements.len()
        invariant
            i <= measurements.len(),
            default_timing(measurements@) == default_timing(measurements@.skip(i as int)),
        decreases measurements.len() - i,
    {
        let ghost rest = measurements@.skip(i as int);
        assert(rest[0] == measurements@[i as int]);
        assert(rest.drop_first() == measurements@.skip(i + 1));
        if measurements[i].name.as_str().is_empty() {
            return measurements[i].nanos;
        }
        i += 1;
    }
    0
}

/// The sum of the durations that have a name, where it fits in 128 bits.
pub fn total_of_named(measurements: &Vec<Measurement>) -> (sum: Option<u128>)
    ensures
        sum is Some <==> named_total(measurements@) <= u128::MAX,
        sum matches Some(total) ==> total == named_total(measurements@),
{
    let mut sum: u128 = 0;
    let mut i: usize = 0;
    assert(measurements@.take(0) == Seq::<Measurement>::empty());
    while i < measurements.len()
        invariant
            i <= measurements.len(),
            sum == named_total(measurements@.take(i as int)),
        decreases measurements.len() - i,
    {
        proof {
            assert(measurements@.take(i + 1).drop_last() == measurements@.take(i as int));
            assert(measurements@.take(i + 1).last() == measurements@[i as int]);
            lemma_named_total_grows(measurements@, i + 1);
        }
        if !measurements[i].name.as_str().is_empty() {
            match sum.checked_add(measurements[i].nanos) {
                None => {
                    return None;
                },
                Some(more) => {
                    sum = more;
                },
            }
        }
        i += 1;
    }
    assert(measurements@.take(i as int) == measurements@);
    Some(sum)
}

/// The sum over the first measurements is no more than the sum over all.
pub proof fn lemma_named_total_grows(measurements: Seq<Measurement>, n: int)
    requires
        0 <= n <= measurements.len(),
    ensures
        named_total(measurements.take(n)) <= named_total(measurements),
    decreases measurements.len() - n,
{
    if n == measurements.len() {
        assert(measurements.take(n) == measurements);
    } else {
        lemma_named_total_grows(measurements, n + 1);
        assert(measurements.take(n + 1).drop_last() == measurements.take(n));
    }
}

/// The three digits of a number below a thousand.
pub open spec fn three_digits(n: nat) -> Seq<char> {
    seq![digit_char(n / 100 % 10), digit_char(n / 10 % 10), digit_char(n % 10)]
}

/// The digits of a number in groups of three, counted from the right, with
/// a comma between the groups.
pub open spec fn grouped(n: nat) -> Seq<char>
    decreases n,
{
    if n < 1000 {
        decimal_of(n)
    } else {
        grouped(n / 1000) + seq![','] + three_digits(n % 1000)
    }
}

/// The number as `num_format` writes it for the English locale, through
/// `ToFormattedString::to_formatted_string` with `Locale::en`: its decimal
/// digits in groups of three with a comma between the groups. This is
/// taken from the crate, not proved.
#[verifier::external_body]
fn to_formatted(number: u128) -> (text: String)
    ensures
        text@ == grouped(number as nat),
{
    number.to_formatted_string(&Locale::en)
}

/// A line of the table of durations: which measurement it shows, and its
/// nanoseconds as they are written.
pub struct DurationRow {
    pub index: usize,
    pub text: String,
}

/// The places of the measurements with a name among the first `n`.
pub open spec fn named_upto(measurements: Seq<Measurement>, n: nat) -> Seq<int>
    decreases n,
{
    if n == 0 {
        Seq::empty()
    } else if measurements[n - 1].name@.len() == 0 {
        named_upto(measurements, (n - 1) as nat)
    } else {
        named_upto(measurements, (n - 1) as nat).push(n - 1)
    }
}

/// The nanoseconds of the whole run as they are written.
pub fn default_timing_text(measurements: &Vec<Measurement>) -> (text: String)
    ensures
        text@ == grouped(default_timing(measurements@) as nat),
{
    to_formatted(get_default_timing(measurements))
}

/// The table of the durations that have a name: a line for each, in their
/// order, and the sum of them as it is written. Nothing where there is no
/// more than one measurement, or where the sum does not fit in 128 bits.
pub fn named_durations(measurements: &Vec<Measurement>) -> (table: Option<(Vec<DurationRow>, u128, String)>)
    ensures
        table is Some <==> measurements.len() > 1 && named_total(measurements@) <= u128::MAX,
        table matches Some(found) ==> {
            let named = named_upto(measurements@, measurements@.len());
            &&& found.0.len() == named.len()
            &&& forall|k: int|
                0 <= k < named.len() ==> (#[trigger] found.0[k]).index == named[k] && found.0[k].text@
                    == grouped(measurements[named[k]].nanos as nat)
            &&& found.1 == named_total(measurements@)
            &&& found.2@ == grouped(found.1 as nat)
        },
{
    if measurements.len() <= 1 {
        return None;
    }
    let sum = match total_of_named(measurements) {
        None => {
            return None;
        },
        Some(sum) => sum,
    };
    let mut rows: Vec<DurationRow> = Vec::new();
    let mut i: usize = 0;
    while i < measurements.len()
        invariant
            i <= measurements.len(),
            rows.len() == named_upto(measurements@, i as nat).len(),
            forall|k: int|
                0 <= k < rows.len() ==> (#[trigger] rows[k]).index == named_upto(
                    measurements@,
                    i as nat,
                )[k] && 0 <= rows[k].index < i && rows[k].text@ == grouped(
                    measurements[rows[k].index as int].nanos as nat,
                ),
        decreases measurements.len() - i,
    {
        if !measurements[i].name.as_str().is_empty() {
            let text = to_formatted(measurements[i].nanos);
            rows.push(DurationRow { index: i, text });
        }
        i += 1;
    }
    Some((rows, sum, to_formatted(sum)))
}

} // verus!
