//! The provider's response: recognizing an error document, and normalizing
//! provider departure records into `Departure`s.

use vstd::prelude::*;

use crate::departure::{Departure, Vehicle};
use crate::text::{push_char, push_decimal, push_str, trim_owned, trimmed, decimal};
use crate::time::UtcTime;

verus! {

/// Free-form detail that accompanies an API error.
#[derive(Debug, Clone, PartialEq, Eq)]
pub struct ApiDetails(Option<String>);

impl View for ApiDetails {
    type V = Option<Seq<char>>;

    closed spec fn view(&self) -> Option<Seq<char>> {
        match self.0 {
            Some(s) => Some(s@),
            None => None,
        }
    }
}

/// The detail as shown after an API error message: ` (detail)` with the
/// detail trimmed, or nothing when it is absent or blank.
pub open spec fn details_suffix(details: Option<Seq<char>>) -> Seq<char> {
    match details {
        Some(text) => if trimmed(text).len() > 0 {
            " ("@ + trimmed(text) + ")"@
        } else {
            seq![]
        },
        None => seq![],
    }
}

impl ApiDetails {
    /// Wraps the detail text, if any.
    pub fn new(value: Option<String>) -> (r: Self)
        ensures
            r@ == match value {
                Some(s) => Some(s@),
                None => None::<Seq<char>>,
            },
    {
        ApiDetails(value)
    }

    /// The detail text, if any.
    pub fn as_deref(&self) -> (r: Option<&str>)
        ensures
            r matches Some(t) ==> self@ == Some(t@),
            r is None ==> self@ is None,
    {
        match &self.0 {
            Some(s) => Some(s.as_str()),
            None => None,
        }
    }

    /// How the detail is displayed after an API error message.
    pub fn to_string(&self) -> (r: String)
        ensures
            r@ == details_suffix(self@),
    {
        let mut s = String::new();
        match &self.0 {
            Some(text) => {
                let t = trim_owned(text.as_str());
                if !t.as_str().is_empty() {
                    push_str(&mut s, " (");
                    push_str(&mut s, t.as_str());
                    push_str(&mut s, ")");
                }
            },
            None => {},
        }
        assert(s@ =~= details_suffix(self@));
        s
    }
}

/// The message of an API error document.
pub open spec fn api_error_message(status: u16, message: Seq<char>, details: Option<Seq<char>>) -> Seq<
    char,
> {
    "PID API returned status "@ + decimal(status as nat) + ": "@ + message + details_suffix(details)
}

/// The message of an API error document.
pub fn api_error_text(status: u16, message: &str, details: &ApiDetails) -> (r: String)
    ensures
        r@ == api_error_message(status, message@, details@),
{
    let mut s = String::new();
    push_str(&mut s, "PID API returned status ");
    push_decimal(&mut s, status as u64);
    push_str(&mut s, ": ");
    push_str(&mut s, message);
    let suffix = details.to_string();
    push_str(&mut s, suffix.as_str());
    s
}

/// A byte is ASCII white space: space, tab, line feed, form feed or
/// carriage return.
pub open spec fn is_ascii_space(b: u8) -> bool {
    b == 0x20 || b == 0x09 || b == 0x0a || b == 0x0c || b == 0x0d
}

/// The first byte at or after `from` that is not ASCII white space.
pub open spec fn first_non_space(input: Seq<u8>, from: nat) -> Option<u8>
    decreases input.len() - from,
{
    if from >= input.len() {
        None
    } else if is_ascii_space(input[from as int]) {
        first_non_space(input, from + 1)
    } else {
        Some(input[from as int])
    }
}

/// The body is a JSON object (an error document) rather than the array of
/// departure groups: its first non-white-space byte is `{`.
pub fn is_error_document(input: &[u8]) -> (r: bool)
    ensures
        r == (first_non_space(input@, 0) == Some(0x7bu8)),
{
    let mut i: usize = 0;
    while i < input.len()
        invariant
            i <= input@.len(),
            first_non_space(input@, 0) == first_non_space(input@, i as nat),
        decreases input@.len() - i,
    {
        let b = input[i];
        if !(b == 0x20 || b == 0x09 || b == 0x0a || b == 0x0c || b == 0x0d) {
            return b == 0x7b;
        }
        i = i + 1;
    }
    false
}

/// The departure times of a provider record.
pub struct ApiDepartureTime {
    pub timestamp_scheduled: UtcTime,
    pub timestamp_predicted: Option<UtcTime>,
    pub delay_seconds: Option<i64>,
}

/// The stop of a provider record.
pub struct ApiStop {
    pub id: String,
    pub platform_code: Option<String>,
}

/// The route of a provider record.
pub struct ApiRoute {
    pub short_name: String,
}

/// The trip of a provider record.
pub struct ApiTrip {
    pub id: String,
    pub headsign: String,
    pub is_canceled: bool,
}

/// The vehicle of a provider record.
pub struct ApiVehicle {
    pub id: Option<String>,
    pub is_wheelchair_accessible: Option<bool>,
    pub is_air_conditioned: Option<bool>,
    pub has_charger: Option<bool>,
}

/// One provider departure record.
pub struct ApiDeparture {
    pub departure: ApiDepartureTime,
    pub stop: ApiStop,
    pub route: ApiRoute,
    pub trip: ApiTrip,
    pub vehicle: Option<ApiVehicle>,
}

/// An optional text trimmed, and absent when it is blank.
pub open spec fn non_blank(value: Option<String>) -> Option<Seq<char>> {
    match value {
        Some(s) => if trimmed(s@).len() > 0 {
            Some(trimmed(s@))
        } else {
            None
        },
        None => None,
    }
}

/// The characters of an optional text.
pub open spec fn optional_text(value: Option<String>) -> Option<Seq<char>> {
    match value {
        Some(s) => Some(s@),
        None => None,
    }
}

/// `d` is the normalized form of the provider record `a`: identifiers and
/// display text trimmed, blank optional texts absent, times and flags kept,
/// and an empty vehicle when the record has none.
pub open spec fn normalizes_to(a: ApiDeparture, d: Departure) -> bool {
    &&& d.trip_id@ == trimmed(a.trip.id@)
    &&& d.line@ == trimmed(a.route.short_name@)
    &&& d.headsign@ == trimmed(a.trip.headsign@)
    &&& d.stop_id@ == trimmed(a.stop.id@)
    &&& optional_text(d.platform_code) == non_blank(a.stop.platform_code)
    &&& d.scheduled_at == a.departure.timestamp_scheduled
    &&& d.predicted_at == a.departure.timestamp_predicted
    &&& d.delay_seconds == a.departure.delay_seconds
    &&& d.is_cancelled == a.trip.is_canceled
    &&& match a.vehicle {
        Some(v) => {
            &&& optional_text(d.vehicle.id) == non_blank(v.id)
            &&& d.vehicle.is_wheelchair_accessible == v.is_wheelchair_accessible
            &&& d.vehicle.is_air_conditioned == v.is_air_conditioned
            &&& d.vehicle.has_charger == v.has_charger
        },
        None => {
            &&& d.vehicle.id is None
            &&& d.vehicle.is_wheelchair_accessible is None
            &&& d.vehicle.is_air_conditioned is None
            &&& d.vehicle.has_charger is None
        },
    }
}

/// Trims an optional text, dropping it when it is blank.
pub fn non_empty(value: Option<String>) -> (r: Option<String>)
    ensures
        optional_text(r) == non_blank(value),
{
    match value {
        Some(text) => {
            let t = normalize_text(text.as_str());
            if t.as_str().is_empty() {
                None
            } else {
                Some(t)
            }
        },
        None => None,
    }
}

/// Removes surrounding white space.
pub fn normalize_text(value: &str) -> (r: String)
    ensures
        r@ == trimmed(value@),
{
    trim_owned(value)
}

impl ApiVehicle {
    /// The vehicle with a trimmed, non-blank identifier.
    pub fn normalize(self) -> (r: Vehicle)
        ensures
            optional_text(r.id) == non_blank(self.id),
            r.is_wheelchair_accessible == self.is_wheelchair_accessible,
            r.is_air_conditioned == self.is_air_conditioned,
            r.has_charger == self.has_charger,
    {
        Vehicle {
            id: non_empty(self.id),
            is_wheelchair_accessible: self.is_wheelchair_accessible,
            is_air_conditioned: self.is_air_conditioned,
            has_charger: self.has_charger,
        }
    }
}

impl ApiDeparture {
    /// The normalized departure of this record.
    pub fn normalize(self) -> (r: Departure)
        ensures
            normalizes_to(self, r),
    {
        let vehicle = match self.vehicle {
            Some(v) => v.normalize(),
            None => Vehicle {
                id: None,
                is_wheelchair_accessible: None,
                is_air_conditioned: None,
                has_charger: None,
            },
        };
        Departure {
            trip_id: normalize_text(self.trip.id.as_str()),
            line: normalize_text(self.route.short_name.as_str()),
            headsign: normalize_text(self.trip.headsign.as_str()),
            stop_id: normalize_text(self.stop.id.as_str()),
            platform_code: non_empty(self.stop.platform_code),
            scheduled_at: self.departure.timestamp_scheduled,
            predicted_at: self.departure.timestamp_predicted,
            delay_seconds: self.departure.delay_seconds,
            is_cancelled: self.trip.is_canceled,
            vehicle,
        }
    }
}

/// The groups flattened into one sequence, group after group.
pub open spec fn flattened(groups: Seq<Vec<ApiDeparture>>) -> Seq<ApiDeparture>
    decreases groups.len(),
{
    if groups.len() == 0 {
        seq![]
    } else {
        flattened(groups.drop_last()) + groups.last()@
    }
}

/// Flatten the response groups and normalize every record. Group order is
/// deliberately not relied upon: departures are matched by their stop.
pub fn normalize_groups(groups: Vec<Vec<ApiDeparture>>) -> (r: Vec<Departure>)
    ensures
        r@.len() == flattened(groups@).len(),
        forall|i: int| 0 <= i < r@.len() ==> normalizes_to(flattened(groups@)[i], #[trigger] r@[i]),
{
    let ghost all = groups@;
    let mut rest = groups;
    let mut out: Vec<Departure> = Vec::new();
    let ghost mut done: int = 0;
    while rest.len() > 0
        invariant
            0 <= done <= all.len(),
            rest@ == all.skip(done),
            out@.len() == flattened(all.take(done)).len(),
            forall|i: int|
                0 <= i < out@.len() ==> normalizes_to(flattened(all.take(done))[i], #[trigger] out@[i]),
        decreases rest@.len(),
    {
        let group = rest.remove(0);
        proof {
            assert(group == all[done]);
            assert(all.take(done + 1).drop_last() =~= all.take(done));
            assert(all.take(done + 1).last() == all[done]);
            assert(rest@ =~= all.skip(done + 1));
        }
        let ghost prefix = flattened(all.take(done));
        let ghost items = group@;
        let mut records = group;
        let ghost mut taken: int = 0;
        while records.len() > 0
            invariant
                0 <= taken <= items.len(),
                records@ == items.skip(taken),
                out@.len() == prefix.len() + taken,
                forall|i: int|
                    0 <= i < out@.len() ==> normalizes_to((prefix + items)[i], #[trigger] out@[i]),
            decreases records@.len(),
        {
            let record = records.remove(0);
            proof {
                assert(record == items[taken]);
                assert(records@ =~= items.skip(taken + 1));
            }
            let d = record.normalize();
            out.push(d);
            proof {
                assert((prefix + items)[prefix.len() + taken] == items[taken]);
                taken = taken + 1;
            }
        }
        proof {
            assert(flattened(all.take(done + 1)) == prefix + items);
            done = done + 1;
        }
    }
    assert(all.take(all.len() as int) =~= all);
    out
}

} // verus!
