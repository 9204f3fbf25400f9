//! The parts of a payload's fraud vector that are not arithmetic on amounts: the
//! timestamps and whether the merchant is one the customer knows.
use vstd::prelude::*;
use vstd::string::StringSliceAdditionalSpecFns;

use crate::http::bytes_equal;
use crate::time::{
    has_timestamp_layout, layout_in_range, parse_utc_timestamp, parsed_from_layout, TimestampError,
};

verus! {

/// Why a payload could not be turned into a vector.
#[derive(Debug)]
pub enum VectorizeError {
    /// One of its timestamps was rejected.
    Timestamp(TimestampError),
}

impl From<TimestampError> for VectorizeError {
    fn from(e: TimestampError) -> (r: Self) {
        VectorizeError::Timestamp(e)
    }
}

impl vstd::std_specs::convert::FromSpecImpl<TimestampError> for VectorizeError {
    open spec fn obeys_from_spec() -> bool {
        true
    }

    open spec fn from_spec(v: TimestampError) -> Self {
        VectorizeError::Timestamp(v)
    }
}

/// `input` is a timestamp that `parse_utc_timestamp` accepts.
pub open spec fn valid_timestamp(input: &str) -> bool {
    has_timestamp_layout(input.spec_bytes()) && layout_in_range(input.spec_bytes())
}

/// `e` is the error `parse_utc_timestamp` gives for the rejected `input`.
pub open spec fn rejection_of(input: &str, e: TimestampError) -> bool {
    let s = input.spec_bytes();
    match e {
        TimestampError::InvalidFormat(text) => !has_timestamp_layout(s) && text@ == input@,
        TimestampError::OutOfRange(text) => has_timestamp_layout(s) && !layout_in_range(s) && text@ == input@,
    }
}

/// The calendar features of a transaction.
#[derive(Debug, Clone, Copy, PartialEq, Eq, Structural)]
pub struct TimingFeatures {
    /// Hour of day of the request, 0 to 23.
    pub hour: u8,
    /// Day of week of the request, Monday being 0.
    pub day_of_week: u8,
    /// Seconds from the previous transaction to this one, when there was one.
    pub seconds_since_last: Option<i64>,
}

/// The timing features of a transaction requested at `requested_at`, whose previous
/// transaction, if any, happened at `last_timestamp`. The first timestamp that is
/// rejected makes the whole call fail with its error.
pub fn timing_features(requested_at: &str, last_timestamp: Option<&str>) -> (r: Result<TimingFeatures, VectorizeError>)
    ensures
        !valid_timestamp(requested_at) ==> (r matches Err(VectorizeError::Timestamp(e)) && rejection_of(requested_at, e)),
        valid_timestamp(requested_at) ==> match last_timestamp {
            Some(last) => if valid_timestamp(last) {
                r == Ok::<TimingFeatures, VectorizeError>(TimingFeatures {
                    hour: parsed_from_layout(requested_at.spec_bytes()).hour,
                    day_of_week: parsed_from_layout(requested_at.spec_bytes()).day_of_week,
                    seconds_since_last: Some((parsed_from_layout(requested_at.spec_bytes()).epoch_seconds
                        - parsed_from_layout(last.spec_bytes()).epoch_seconds) as i64),
                })
            } else {
                r matches Err(VectorizeError::Timestamp(e)) && rejection_of(last, e)
            },
            None => r == Ok::<TimingFeatures, VectorizeError>(TimingFeatures {
                hour: parsed_from_layout(requested_at.spec_bytes()).hour,
                day_of_week: parsed_from_layout(requested_at.spec_bytes()).day_of_week,
                seconds_since_last: None,
            }),
        },
{
    let now = match parse_utc_timestamp(requested_at) {
        Ok(ts) => ts,
        Err(e) => { return Err(VectorizeError::from(e)); }
    };
    let seconds_since_last = match last_timestamp {
        Some(last) => {
            let previous = match parse_utc_timestamp(last) {
                Ok(ts) => ts,
                Err(e) => { return Err(VectorizeError::from(e)); }
            };
            Some(now.epoch_seconds - previous.epoch_seconds)
        },
        None => None,
    };
    Ok(TimingFeatures { hour: now.hour, day_of_week: now.day_of_week, seconds_since_last })
}

/// The merchant `merchant_id` is not among the customer's `known_merchants`.
pub fn merchant_is_unknown(known_merchants: &[String], merchant_id: &str) -> (r: bool)
    ensures
        r == !exists|i: int| 0 <= i < known_merchants@.len() && #[trigger] known_merchants@[i]@ == merchant_id@,
{
    let mut i: usize = 0;
    while i < known_merchants.len()
        invariant
            i <= known_merchants@.len(),
            forall|k: int| 0 <= k < i ==> #[trigger] known_merchants@[k]@ != merchant_id@,
        decreases known_merchants@.len() - i,
    {
        let known = known_merchants[i].as_str();
        if bytes_equal(known.as_bytes(), merchant_id.as_bytes()) {
            proof {
                vstd::utf8::encode_utf8_decode_utf8(known@);
                vstd::utf8::encode_utf8_decode_utf8(merchant_id@);
            }
            return false;
        }
        i = i + 1;
    }
    true
}

} // verus!
