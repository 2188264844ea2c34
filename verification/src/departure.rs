//! A normalized departure, independent of the provider's response shape.

use vstd::prelude::*;

use crate::time::UtcTime;

verus! {

/// Vehicle information; absent when a trip is not followed in real time.
#[derive(Debug, Clone, Default, PartialEq, Eq)]
pub struct Vehicle {
    pub id: Option<String>,
    pub is_wheelchair_accessible: Option<bool>,
    pub is_air_conditioned: Option<bool>,
    pub has_charger: Option<bool>,
}

/// A normalized departure independent of the upstream provider response.
#[derive(Debug, Clone, PartialEq, Eq)]
pub struct Departure {
    pub trip_id: String,
    pub line: String,
    pub headsign: String,
    pub stop_id: String,
    pub platform_code: Option<String>,
    pub scheduled_at: UtcTime,
    pub predicted_at: Option<UtcTime>,
    pub delay_seconds: Option<i64>,
    pub is_cancelled: bool,
    pub vehicle: Vehicle,
}

impl Departure {
    /// The predicted time when there is one, else the scheduled time.
    pub open spec fn effective(self) -> UtcTime {
        match self.predicted_at {
            Some(t) => t,
            None => self.scheduled_at,
        }
    }

    /// Both of the departure's times are well-formed instants.
    pub open spec fn wf(self) -> bool {
        &&& self.scheduled_at.wf()
        &&& (self.predicted_at matches Some(t) ==> t.wf())
    }

    /// The time the departure is expected to leave: its prediction when
    /// present, otherwise its schedule.
    pub fn effective_at(&self) -> (t: UtcTime)
        ensures
            t == self.effective(),
    {
        match self.predicted_at {
            Some(t) => t,
            None => self.scheduled_at,
        }
    }
}

/// A copy of an optional string.
pub fn copy_optional_text(value: &Option<String>) -> (r: Option<String>)
    ensures
        r == *value,
{
    match value {
        Some(text) => Some(text.clone()),
        None => None,
    }
}

/// A field-for-field copy of a vehicle record.
pub fn copy_vehicle(vehicle: &Vehicle) -> (r: Vehicle)
    ensures
        r == *vehicle,
{
    Vehicle {
        id: copy_optional_text(&vehicle.id),
        is_wheelchair_accessible: vehicle.is_wheelchair_accessible,
        is_air_conditioned: vehicle.is_air_conditioned,
        has_charger: vehicle.has_charger,
    }
}

/// A field-for-field copy of a departure.
pub fn copy_departure(departure: &Departure) -> (r: Departure)
    ensures
        r == *departure,
{
    Departure {
        trip_id: departure.trip_id.clone(),
        line: departure.line.clone(),
        headsign: departure.headsign.clone(),
        stop_id: departure.stop_id.clone(),
        platform_code: copy_optional_text(&departure.platform_code),
        scheduled_at: departure.scheduled_at,
        predicted_at: departure.predicted_at,
        delay_seconds: departure.delay_seconds,
        is_cancelled: departure.is_cancelled,
        vehicle: copy_vehicle(&departure.vehicle),
    }
}

} // verus!
