use pidjezdy::config::{BoardingPoint, Config, DisplayConfig, FetchConfig, RouteFilter, RouteQuota};
use pidjezdy::departure::{Departure, Vehicle};
use pidjezdy::selection::{select_cancellations, select_departures, SelectedDeparture, SelectionOptions};
use pidjezdy::time::UtcTime;

/// 2026-09-04T12:00:00+02:00.
const NOW: i64 = 1_788_516_000;

fn now() -> UtcTime {
    UtcTime::from_seconds(NOW)
}

fn minutes_after_now(minutes: i64) -> UtcTime {
    UtcTime::from_seconds(NOW + minutes * 60)
}

fn point(name: &str, stop_id: &str, walking_minutes: u32) -> BoardingPoint {
    BoardingPoint {
        name: name.into(),
        stop_ids: vec![stop_id.into()],
        walking_minutes,
        safety_buffer_minutes: 2,
        routes: vec![RouteFilter {
            line: "158".into(),
            headsign: "Letňany".into(),
        }],
    }
}

fn config(points: Vec<BoardingPoint>) -> Config {
    Config {
        display: DisplayConfig {
            max_departures: 3,
            route_quotas: Vec::new(),
        },
        fetch: FetchConfig::default(),
        boarding_points: points,
    }
}

fn departure(trip_id: &str, stop_id: &str, minutes: i64) -> Departure {
    Departure {
        trip_id: trip_id.into(),
        line: "158".into(),
        headsign: "Letňany".into(),
        stop_id: stop_id.into(),
        platform_code: Some("A".into()),
        scheduled_at: minutes_after_now(minutes),
        predicted_at: None,
        delay_seconds: None,
        is_cancelled: false,
        vehicle: Vehicle::default(),
    }
}

fn departure_for(trip_id: &str, line: &str, headsign: &str, minutes: i64) -> Departure {
    let mut departure = departure(trip_id, "U1", minutes);
    departure.line = line.into();
    departure.headsign = headsign.into();
    departure
}

fn options(limit: usize) -> SelectionOptions {
    SelectionOptions {
        limit,
        include_unreachable: false,
    }
}

fn quota_config(max_departures: usize) -> Config {
    Config {
        display: DisplayConfig {
            max_departures,
            route_quotas: Vec::new(),
        },
        fetch: FetchConfig::default(),
        boarding_points: vec![BoardingPoint {
            name: "Near".into(),
            stop_ids: vec!["U1".into()],
            walking_minutes: 1,
            safety_buffer_minutes: 0,
            routes: [
                ("100", "Local"),
                ("158", "Metro"),
                ("195", "Town"),
                ("201", "Station"),
            ]
            .into_iter()
            .map(|(line, headsign)| RouteFilter {
                line: line.into(),
                headsign: headsign.into(),
            })
            .collect(),
        }],
    }
}

fn quota(line: &str, headsign: &str, minimum_departures: usize) -> RouteQuota {
    RouteQuota {
        line: line.into(),
        headsign: headsign.into(),
        minimum_departures,
    }
}

fn trip_ids(departures: &[SelectedDeparture]) -> Vec<&str> {
    departures
        .iter()
        .map(|departure| departure.departure.trip_id.as_str())
        .collect()
}

#[test]
fn scheduled_time_is_effective_without_prediction() {
    let departure = departure("trip-1", "U1", 0);
    assert_eq!(departure.effective_at(), departure.scheduled_at);
}

#[test]
fn prediction_is_effective_when_present() {
    let mut departure = departure("trip-1", "U1", 0);
    departure.predicted_at = Some(minutes_after_now(3));
    assert_eq!(departure.effective_at(), departure.predicted_at.unwrap());
}

#[test]
fn exact_leave_boundary_is_reachable() {
    let selected = select_departures(
        &config(vec![point("Near", "U1", 4)]),
        &[departure("trip", "U1", 6)],
        now(),
        options(3),
    );
    assert_eq!(selected.len(), 1);
    assert_eq!(selected[0].leave_in_seconds, 0);
    assert!(selected[0].reachable);
}

#[test]
fn filters_unreachable_cancelled_and_unconfigured_departures() {
    let config = config(vec![point("Near", "U1", 4)]);
    let mut cancelled = departure("cancelled", "U1", 10);
    cancelled.is_cancelled = true;
    let mut wrong_direction = departure("wrong-direction", "U1", 10);
    wrong_direction.headsign = "Elsewhere".into();
    let departures = [
        departure("too-soon", "U1", 5),
        cancelled,
        wrong_direction,
        departure("wrong-stop", "U2", 10),
        departure("wanted", "U1", 10),
    ];

    let selected = select_departures(&config, &departures, now(), options(3));
    assert_eq!(selected.len(), 1);
    assert_eq!(selected[0].departure.trip_id, "wanted");
}

#[test]
fn can_include_unreachable_departures_for_diagnostics() {
    let selected = select_departures(
        &config(vec![point("Near", "U1", 4)]),
        &[departure("too-soon", "U1", 5)],
        now(),
        SelectionOptions {
            limit: 3,
            include_unreachable: true,
        },
    );
    assert_eq!(selected.len(), 1);
    assert!(!selected[0].reachable);
    assert_eq!(selected[0].leave_in_seconds, -60);
}

#[test]
fn prediction_controls_reachability() {
    let mut delayed = departure("delayed", "U1", 5);
    delayed.predicted_at = Some(minutes_after_now(8));

    let selected = select_departures(
        &config(vec![point("Near", "U1", 4)]),
        &[delayed],
        now(),
        options(3),
    );
    assert_eq!(selected[0].departs_in_seconds, 8 * 60);
    assert_eq!(selected[0].leave_in_seconds, 2 * 60);
}

#[test]
fn duplicate_trip_uses_boarding_point_with_most_slack() {
    let config = config(vec![point("Near", "U1", 4), point("Far", "U2", 8)]);
    let departures = [
        departure("same-trip", "U2", 12),
        departure("same-trip", "U1", 10),
    ];

    let selected = select_departures(&config, &departures, now(), options(3));
    assert_eq!(selected.len(), 1);
    assert_eq!(selected[0].boarding_point_name, "Near");
    assert_eq!(selected[0].leave_in_seconds, 4 * 60);
}

#[test]
fn duplicate_tie_prefers_earlier_departure_then_configuration_order() {
    let configured = config(vec![point("First", "U1", 4), point("Second", "U2", 6)]);
    let departures = [
        departure("same-trip", "U2", 12),
        departure("same-trip", "U1", 10),
    ];

    let selected = select_departures(&configured, &departures, now(), options(3));
    assert_eq!(selected[0].boarding_point_name, "First");

    let equal_points = config(vec![point("First", "U1", 4), point("Second", "U2", 4)]);
    let same_time = [
        departure("same-trip", "U2", 12),
        departure("same-trip", "U1", 12),
    ];
    let selected = select_departures(&equal_points, &same_time, now(), options(3));
    assert_eq!(selected[0].boarding_point_name, "First");
}

#[test]
fn empty_trip_ids_are_not_deduplicated() {
    let selected = select_departures(
        &config(vec![point("Near", "U1", 1)]),
        &[departure("", "U1", 10), departure("", "U1", 11)],
        now(),
        options(3),
    );
    assert_eq!(selected.len(), 2);
}

#[test]
fn sorts_chronologically_then_applies_limit() {
    let selected = select_departures(
        &config(vec![point("Near", "U1", 1)]),
        &[
            departure("third", "U1", 30),
            departure("first", "U1", 10),
            departure("second", "U1", 20),
        ],
        now(),
        options(2),
    );
    assert_eq!(trip_ids(&selected), ["first", "second"]);
}

#[test]
fn reserves_configured_minimums_before_filling_the_global_limit() {
    let mut configured = config(vec![BoardingPoint {
        name: "Near".into(),
        stop_ids: vec!["U1".into()],
        walking_minutes: 1,
        safety_buffer_minutes: 0,
        routes: vec![
            RouteFilter {
                line: "158".into(),
                headsign: "Metro".into(),
            },
            RouteFilter {
                line: "195".into(),
                headsign: "Town".into(),
            },
        ],
    }]);
    configured.display.max_departures = 4;
    configured.display.route_quotas = vec![RouteQuota {
        line: "195".into(),
        headsign: "Town".into(),
        minimum_departures: 2,
    }];
    let departures = [
        departure_for("158-1", "158", "Metro", 10),
        departure_for("158-2", "158", "Metro", 11),
        departure_for("158-3", "158", "Metro", 12),
        departure_for("195-1", "195", "Town", 20),
        departure_for("195-2", "195", "Town", 21),
    ];

    let selected = select_departures(&configured, &departures, now(), options(4));
    assert_eq!(trip_ids(&selected), ["158-1", "158-2", "195-1", "195-2"]);
}

#[test]
fn hard_limit_allocates_quota_slots_fairly_across_routes() {
    let mut configured = config(vec![BoardingPoint {
        name: "Near".into(),
        stop_ids: vec!["U1".into()],
        walking_minutes: 1,
        safety_buffer_minutes: 0,
        routes: vec![
            RouteFilter {
                line: "158".into(),
                headsign: "Metro".into(),
            },
            RouteFilter {
                line: "195".into(),
                headsign: "Town".into(),
            },
            RouteFilter {
                line: "201".into(),
                headsign: "Station".into(),
            },
        ],
    }]);
    configured.display.route_quotas = [("158", "Metro"), ("195", "Town"), ("201", "Station")]
        .into_iter()
        .map(|(line, headsign)| RouteQuota {
            line: line.into(),
            headsign: headsign.into(),
            minimum_departures: 2,
        })
        .collect();
    let departures = [
        departure_for("158-1", "158", "Metro", 10),
        departure_for("158-2", "158", "Metro", 11),
        departure_for("195-1", "195", "Town", 20),
        departure_for("195-2", "195", "Town", 21),
        departure_for("201-1", "201", "Station", 30),
        departure_for("201-2", "201", "Station", 31),
    ];

    let selected = select_departures(&configured, &departures, now(), options(3));
    assert_eq!(trip_ids(&selected), ["158-1", "195-1", "201-1"]);
}

#[test]
fn quota_shortfall_spills_into_chronological_fill() {
    let mut configured = quota_config(4);
    let departures = [
        departure_for("158-1", "158", "Metro", 10),
        departure_for("unreserved", "100", "Local", 11),
        departure_for("195-1", "195", "Town", 20),
        departure_for("195-2", "195", "Town", 21),
    ];

    configured.display.route_quotas = vec![quota("158", "Metro", 2), quota("195", "Town", 2)];
    let selected = select_departures(&configured, &departures, now(), options(4));

    assert_eq!(trip_ids(&selected), ["158-1", "unreserved", "195-1", "195-2"]);
}

#[test]
fn hard_limit_smaller_than_quota_count_uses_earliest_routes() {
    let mut configured = quota_config(3);
    configured.display.route_quotas = vec![
        quota("158", "Metro", 1),
        quota("195", "Town", 1),
        quota("201", "Station", 1),
    ];
    let departures = [
        departure_for("158-1", "158", "Metro", 10),
        departure_for("195-1", "195", "Town", 20),
        departure_for("201-1", "201", "Station", 30),
    ];

    let selected = select_departures(&configured, &departures, now(), options(2));

    assert_eq!(trip_ids(&selected), ["158-1", "195-1"]);
}

#[test]
fn empty_quota_route_does_not_block_generic_fill() {
    let mut configured = quota_config(3);
    configured.display.route_quotas = vec![quota("158", "Metro", 2), quota("201", "Station", 1)];
    let departures = [
        departure_for("158-1", "158", "Metro", 10),
        departure_for("unreserved", "100", "Local", 11),
        departure_for("158-2", "158", "Metro", 12),
    ];

    let selected = select_departures(&configured, &departures, now(), options(3));

    assert_eq!(trip_ids(&selected), ["158-1", "unreserved", "158-2"]);
}

#[test]
fn rounds_minutes_down_conservatively() {
    let mut selected = SelectedDeparture {
        departure: departure("trip", "U1", 10),
        boarding_point_name: "Near".into(),
        walking_minutes: 1,
        safety_buffer_minutes: 0,
        departs_in_seconds: 119,
        leave_in_seconds: 59,
        reachable: true,
    };
    assert_eq!(selected.departs_in_minutes(), 1);
    assert_eq!(selected.leave_in_minutes(), 0);

    selected.leave_in_seconds = -1;
    assert_eq!(selected.leave_in_minutes(), -1);
}

#[test]
fn selection_fills_every_slot_it_can() {
    let config = config(vec![point("Near", "U1", 1)]);
    let departures = [
        departure("a", "U1", 10),
        departure("b", "U1", 20),
        departure("c", "U1", 30),
    ];
    assert_eq!(select_departures(&config, &departures, now(), options(2)).len(), 2);
    assert_eq!(select_departures(&config, &departures, now(), options(5)).len(), 3);
    assert_eq!(select_departures(&config, &departures, now(), options(0)).len(), 0);
}

#[test]
fn quota_minimum_holds_when_the_minimums_fit() {
    let mut configured = quota_config(3);
    configured.display.route_quotas = vec![quota("195", "Town", 2)];
    let departures = [
        departure_for("158-1", "158", "Metro", 10),
        departure_for("158-2", "158", "Metro", 11),
        departure_for("158-3", "158", "Metro", 12),
        departure_for("195-1", "195", "Town", 40),
        departure_for("195-2", "195", "Town", 41),
    ];
    let selected = select_departures(&configured, &departures, now(), options(3));
    let town = selected
        .iter()
        .filter(|item| item.departure.line == "195")
        .count();
    assert_eq!(town, 2);
    assert_eq!(trip_ids(&selected), ["158-1", "195-1", "195-2"]);
}

#[test]
fn cancellation_notes_stay_reachable_before_the_cutoff_and_within_the_limit() {
    let config = config(vec![point("Near", "U1", 1)]);
    let mut departures = Vec::new();
    for (trip, minutes) in [("early", 2), ("a", 10), ("b", 20), ("late", 40)] {
        let mut cancelled = departure(trip, "U1", minutes);
        cancelled.is_cancelled = true;
        departures.push(cancelled);
    }
    departures.push(departure("shown", "U1", 25));

    let notes = select_cancellations(&config, &departures, now(), 3, Some(minutes_after_now(25)));
    assert_eq!(trip_ids(&notes), ["a", "b"]);
    assert!(notes.iter().all(|note| note.departure.is_cancelled && note.reachable));

    let limited = select_cancellations(&config, &departures, now(), 1, None);
    assert_eq!(trip_ids(&limited), ["a"]);

    let unlimited = select_cancellations(&config, &departures, now(), 3, None);
    assert_eq!(trip_ids(&unlimited), ["a", "b", "late"]);
}

#[test]
fn scarce_slots_take_one_departure_per_quota_route() {
    let mut configured = quota_config(4);
    configured.display.route_quotas = vec![quota("158", "Metro", 3), quota("195", "Town", 3)];
    let departures = [
        departure_for("158-1", "158", "Metro", 10),
        departure_for("158-2", "158", "Metro", 11),
        departure_for("158-3", "158", "Metro", 12),
        departure_for("local", "100", "Local", 13),
        departure_for("195-1", "195", "Town", 30),
        departure_for("195-2", "195", "Town", 31),
    ];

    let selected = select_departures(&configured, &departures, now(), options(2));

    assert_eq!(trip_ids(&selected), ["158-1", "195-1"]);
}
