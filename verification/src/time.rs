//! Times as text: the date and the time of day in UTC, as RFC 3339 writes
//! them. The calendar is that of the `chrono` crate.

use vstd::prelude::*;
use crate::tree::Timestamp;
use crate::wire::{lit, push_bytes, push_lit};

verus! {

/// The text that the `chrono` crate writes a time as, given in seconds
/// since 1 January 1970 and nanoseconds of the second: the date, `T`, the
/// time of day with nine digits of the second's fraction, and `Z`, as in
/// `2001-02-03T04:05:06.000000007Z`. There is none where the calendar of
/// the crate has no such time.
pub uninterp spec fn rfc3339_text(secs: i64, nanos: u32) -> Option<Seq<u8>>;

/// `DateTime::from_timestamp` of the `chrono` crate, which makes a time in
/// UTC from seconds and nanoseconds and gives none where they are out of
/// its range, and `DateTime::to_rfc3339_opts`, asked for nanoseconds and
/// `Z`, which writes the time as text. The text depends on the two numbers
/// alone; nothing else is claimed of it.
#[verifier::external_body]
fn rfc3339_of(secs: i64, nanos: u32) -> (r: Option<Vec<u8>>)
    ensures
        r.is_some() == rfc3339_text(secs, nanos).is_some(),
        r.is_some() ==> r.unwrap()@ == rfc3339_text(secs, nanos).unwrap(),
{
    match chrono::DateTime::from_timestamp(secs, nanos) {
        Some(t) => Some(t.to_rfc3339_opts(chrono::SecondsFormat::Nanos, true).into_bytes()),
        None => None,
    }
}

/// The text of a time, where the calendar has the time.
pub open spec fn time_text(t: Option<Timestamp>) -> Option<Seq<u8>> {
    match t {
        Some(t) => rfc3339_text(t.secs, t.nanos),
        None => None,
    }
}

/// A time as RFC 3339 writes it in UTC; `None` where the calendar has no
/// such time.
pub fn rfc3339(t: &Timestamp) -> (r: Option<Vec<u8>>)
    ensures
        r.is_some() == time_text(Some(*t)).is_some(),
        r.is_some() ==> r.unwrap()@ == time_text(Some(*t)).unwrap(),
{
    rfc3339_of(t.secs, t.nanos)
}

/// The text of a time as a stored record holds it: between double quotes,
/// or `null` where there is none.
pub open spec fn text_json(text: Option<Seq<u8>>) -> Seq<u8> {
    match text {
        Some(text) => seq![34u8] + text + seq![34u8],
        None => lit("null"),
    }
}

/// Appends the text of a time as a stored record holds it.
pub fn push_text_json(out: &mut Vec<u8>, text: &Option<Vec<u8>>)
    ensures
        final(out)@ == old(out)@ + text_json(
            match *text {
                Some(bytes) => Some(bytes@),
                None => None,
            },
        ),
{
    match text {
        Some(bytes) => {
            out.push(34);
            push_bytes(out, bytes.as_slice());
            out.push(34);
            assert(out@ =~= old(out)@ + (seq![34u8] + bytes@ + seq![34u8]));
        },
        None => push_lit(out, "null"),
    }
}

/// A time as a stored record holds it: its text between double quotes;
/// `null` where there is no time, or none that the calendar has.
pub open spec fn time_json(t: Option<Timestamp>) -> Seq<u8> {
    text_json(time_text(t))
}

/// Appends a time as a stored record holds it.
pub fn push_time_json(out: &mut Vec<u8>, t: &Option<Timestamp>)
    ensures
        final(out)@ == old(out)@ + time_json(*t),
{
    let text = match t {
        Some(t) => rfc3339(t),
        None => None,
    };
    push_text_json(out, &text);
}

} // verus!
