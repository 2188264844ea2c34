use pidjezdy::config::{BoardingPoint, Config, RouteFilter};
use pidjezdy::departure::{Departure, Vehicle};
use pidjezdy::query::{
    api_limit_warnings, finish_query, should_replace_cache, ApiLimitTruncation, DepartureSource,
};
use pidjezdy::time::UtcTime;

/// 2026-09-04T12:00:00+02:00.
const NOW: i64 = 1_788_516_000;

fn now() -> UtcTime {
    UtcTime::from_seconds(NOW)
}

fn point(name: &str, stop_id: &str, walking_minutes: u32, line: &str, headsign: &str) -> BoardingPoint {
    BoardingPoint {
        name: name.into(),
        stop_ids: vec![stop_id.into()],
        walking_minutes,
        safety_buffer_minutes: 2,
        routes: vec![RouteFilter {
            line: line.into(),
            headsign: headsign.into(),
        }],
    }
}

fn fallback_config() -> Config {
    Config {
        boarding_points: vec![point("Nearby stop", "U100Z1P", 4, "158", "Centre")],
        ..Config::default()
    }
}

fn capped_config() -> Config {
    let mut config = fallback_config();
    config.fetch.api_limit = 3;
    config
}

fn departure_at_stop(trip_id: &str, line: &str, headsign: &str, stop_id: &str, minutes: i64) -> Departure {
    Departure {
        trip_id: trip_id.into(),
        line: line.into(),
        headsign: headsign.into(),
        stop_id: stop_id.into(),
        platform_code: Some("A".into()),
        scheduled_at: UtcTime::from_seconds(NOW + minutes * 60),
        predicted_at: None,
        delay_seconds: None,
        is_cancelled: false,
        vehicle: Vehicle::default(),
    }
}

fn departure_at(trip_id: &str, line: &str, headsign: &str, minutes: i64) -> Departure {
    departure_at_stop(trip_id, line, headsign, "U100Z1P", minutes)
}

fn departure() -> Departure {
    departure_at("trip-1", "158", "Centre", 10)
}

fn short_capped_board() -> Vec<Departure> {
    vec![
        departure_at("matching", "158", "Centre", 10),
        departure_at("other-1", "900", "Elsewhere", 20),
        departure_at("other-2", "901", "Elsewhere", 27),
    ]
}

#[test]
fn reselects_cached_departures_at_the_current_time_and_marks_them_stale() {
    let cached_at = UtcTime::from_seconds(NOW - 3 * 60);
    let result = finish_query(
        &fallback_config(),
        3,
        now(),
        DepartureSource::Cached {
            fetched_at: cached_at,
            departures: vec![departure()],
        },
    );

    assert!(result.stale);
    assert_eq!(result.data_updated_at, cached_at);
    assert_eq!(result.departures.len(), 1);
    assert_eq!(result.departures[0].leave_in_seconds, 4 * 60);
    assert!(result.truncations.is_empty());
}

#[test]
fn warns_when_a_live_group_hits_the_api_limit_and_selection_is_short() {
    let result = finish_query(&capped_config(), 3, now(), DepartureSource::Live(short_capped_board()));

    assert_eq!(result.departures.len(), 1);
    assert_eq!(
        result.truncations,
        [ApiLimitTruncation {
            boarding_point_name: "Nearby stop".into(),
            count: 3,
            covered_minutes: 27,
            requested_minutes: 120,
        }]
    );
    assert_eq!(
        result.truncations[0].to_string(),
        [
            "\"Nearby stop\" hit the 3-departure API limit, covering only the next ",
            "27 of 120 requested minutes; matching departures beyond that are not visible"
        ]
        .concat()
    );
}

#[test]
fn warns_for_each_capped_boarding_point() {
    let mut config = Config {
        boarding_points: vec![
            point("First", "U1", 1, "1", "Centre"),
            point("Second", "U2", 1, "2", "Station"),
        ],
        ..Config::default()
    };
    config.fetch.api_limit = 2;
    let departures = vec![
        departure_at_stop("matching", "1", "Centre", "U1", 10),
        departure_at_stop("first-other", "900", "Elsewhere", "U1", 25),
        departure_at_stop("second-other-1", "901", "Elsewhere", "U2", 15),
        departure_at_stop("second-other-2", "902", "Elsewhere", "U2", 35),
    ];
    let result = finish_query(&config, 3, now(), DepartureSource::Live(departures));

    assert_eq!(result.truncations.len(), 2);
    assert_eq!(result.truncations[0].boarding_point_name, "First");
    assert_eq!(result.truncations[0].count, 2);
    assert_eq!(result.truncations[0].covered_minutes, 25);
    assert_eq!(result.truncations[1].boarding_point_name, "Second");
    assert_eq!(result.truncations[1].count, 2);
    assert_eq!(result.truncations[1].covered_minutes, 35);
}

#[test]
fn does_not_warn_when_the_requested_selection_is_full() {
    let departures = vec![
        departure_at("matching-1", "158", "Centre", 10),
        departure_at("matching-2", "158", "Centre", 20),
        departure_at("matching-3", "158", "Centre", 27),
    ];
    let result = finish_query(&capped_config(), 3, now(), DepartureSource::Live(departures));

    assert_eq!(result.departures.len(), 3);
    assert!(result.truncations.is_empty());
}

#[test]
fn does_not_report_api_truncation_from_a_stale_cache() {
    let result = finish_query(
        &capped_config(),
        3,
        now(),
        DepartureSource::Cached {
            fetched_at: UtcTime::from_seconds(NOW - 3 * 60),
            departures: short_capped_board(),
        },
    );

    assert!(result.stale);
    assert_eq!(result.departures.len(), 1);
    assert!(result.truncations.is_empty());
}

#[test]
fn empty_live_result_does_not_overwrite_the_cache() {
    let live = Vec::new();
    assert!(!should_replace_cache(&live));
    let result = finish_query(&fallback_config(), 3, now(), DepartureSource::Live(live));

    assert!(!result.stale);
    assert_eq!(result.data_updated_at, now());
    assert!(result.departures.is_empty());
    assert!(result.truncations.is_empty());
    assert!(should_replace_cache(&vec![departure()]));
}

#[test]
fn cancellations_accompany_the_shown_departures() {
    let mut cancelled_early = departure_at("cancelled-early", "158", "Centre", 12);
    cancelled_early.is_cancelled = true;
    let mut cancelled_late = departure_at("cancelled-late", "158", "Centre", 40);
    cancelled_late.is_cancelled = true;
    let departures = vec![departure(), departure_at("trip-2", "158", "Centre", 20), cancelled_early, cancelled_late];

    let result = finish_query(&fallback_config(), 3, now(), DepartureSource::Live(departures.clone()));
    assert_eq!(result.departures.len(), 2);
    assert_eq!(result.cancelled.len(), 1);
    assert_eq!(result.cancelled[0].departure.trip_id, "cancelled-early");

    let only_cancelled = vec![departures[2].clone(), departures[3].clone()];
    let result = finish_query(&fallback_config(), 1, now(), DepartureSource::Live(only_cancelled));
    assert!(result.departures.is_empty());
    assert_eq!(result.cancelled.len(), 1);
}

#[test]
fn uncapped_points_are_not_reported() {
    let warnings = api_limit_warnings(&capped_config(), &vec![departure()], &now());
    assert!(warnings.is_empty());
}

#[test]
fn cache_write_failure_does_not_hide_fresh_departures() {
    let live = vec![departure()];
    assert!(should_replace_cache(&live));
    let result = finish_query(&fallback_config(), 3, now(), DepartureSource::Live(live));

    assert!(!result.stale);
    assert_eq!(result.data_updated_at, now());
    assert_eq!(result.departures.len(), 1);
}
