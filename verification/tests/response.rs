use pidjezdy::departure::Vehicle;
use pidjezdy::response::{
    api_error_text, is_error_document, non_empty, normalize_groups, normalize_text, ApiDeparture,
    ApiDepartureTime, ApiDetails, ApiRoute, ApiStop, ApiTrip, ApiVehicle,
};
use pidjezdy::time::UtcTime;

/// 2026-09-04T10:10:00Z.
const SCHEDULED: i64 = 1_788_516_600;

fn record(trip: &str, line: &str, headsign: &str, stop: &str, platform: Option<&str>, vehicle: Option<&str>) -> ApiDeparture {
    ApiDeparture {
        departure: ApiDepartureTime {
            timestamp_scheduled: UtcTime::from_seconds(SCHEDULED),
            timestamp_predicted: Some(UtcTime::from_seconds(SCHEDULED + 120)),
            delay_seconds: Some(120),
        },
        stop: ApiStop {
            id: stop.into(),
            platform_code: platform.map(str::to_string),
        },
        route: ApiRoute {
            short_name: line.into(),
        },
        trip: ApiTrip {
            id: trip.into(),
            headsign: headsign.into(),
            is_canceled: false,
        },
        vehicle: vehicle.map(|id| ApiVehicle {
            id: Some(id.into()),
            is_wheelchair_accessible: Some(true),
            is_air_conditioned: Some(true),
            has_charger: None,
        }),
    }
}

fn untracked() -> ApiDeparture {
    ApiDeparture {
        departure: ApiDepartureTime {
            timestamp_scheduled: UtcTime::from_seconds(SCHEDULED + 600),
            timestamp_predicted: None,
            delay_seconds: None,
        },
        stop: ApiStop {
            id: "U200Z1P".into(),
            platform_code: None,
        },
        route: ApiRoute {
            short_name: "195".into(),
        },
        trip: ApiTrip {
            id: "195_1".into(),
            headsign: "Town".into(),
            is_canceled: true,
        },
        vehicle: None,
    }
}

#[test]
fn parses_flattens_and_normalizes_departures() {
    let groups = vec![
        vec![record("158_100_260901", "158", "Centrum", "U100Z1P", Some("A"), Some("vehicle-1"))],
        vec![untracked()],
    ];
    let departures = normalize_groups(groups);
    assert_eq!(departures.len(), 2);

    let live = &departures[0];
    assert_eq!(live.trip_id, "158_100_260901");
    assert_eq!(live.line, "158");
    assert_eq!(live.headsign, "Centrum");
    assert_eq!(live.stop_id, "U100Z1P");
    assert_eq!(live.platform_code.as_deref(), Some("A"));
    assert_eq!(live.scheduled_at, UtcTime::from_seconds(SCHEDULED));
    assert_eq!(live.predicted_at, Some(UtcTime::from_seconds(SCHEDULED + 120)));
    assert_eq!(live.delay_seconds, Some(120));
    assert_eq!(live.vehicle.id.as_deref(), Some("vehicle-1"));
    assert_eq!(live.vehicle.is_air_conditioned, Some(true));

    let untracked = &departures[1];
    assert_eq!(untracked.predicted_at, None);
    assert_eq!(untracked.delay_seconds, None);
    assert_eq!(untracked.platform_code, None);
    assert!(untracked.is_cancelled);
    assert_eq!(untracked.vehicle, Vehicle::default());
}

#[test]
fn trims_provider_identifiers_and_display_text() {
    let live = record(
        " 158_100_260901 ",
        " 158 ",
        " Centrum ",
        " U100Z1P ",
        Some(" A "),
        Some(" vehicle-1 "),
    )
    .normalize();

    assert_eq!(live.trip_id, "158_100_260901");
    assert_eq!(live.line, "158");
    assert_eq!(live.headsign, "Centrum");
    assert_eq!(live.stop_id, "U100Z1P");
    assert_eq!(live.platform_code.as_deref(), Some("A"));
    assert_eq!(live.vehicle.id.as_deref(), Some("vehicle-1"));
}

#[test]
fn reports_structured_api_errors() {
    let body = br#"  {"error_message": "Bad request", "error_status": 400, "error_info": "Invalid value"}"#;
    assert!(is_error_document(body));
    let details = ApiDetails::new(Some(" Invalid value ".into()));
    assert_eq!(details.as_deref(), Some(" Invalid value "));
    let message = api_error_text(400, "Bad request", &details);
    assert_eq!(message, "PID API returned status 400: Bad request (Invalid value)");
    assert!(message.contains("Invalid value"));
}

#[test]
fn error_documents_are_recognized_by_their_first_byte() {
    assert!(is_error_document(b"{}"));
    assert!(is_error_document(b" \t\r\n{"));
    assert!(!is_error_document(b"[[]]"));
    assert!(!is_error_document(b""));
    assert!(!is_error_document(b"   "));
    assert!(!is_error_document(b"not json"));
}

#[test]
fn blank_details_are_not_shown() {
    assert_eq!(ApiDetails::new(None).to_string(), "");
    assert_eq!(ApiDetails::new(Some("  ".into())).to_string(), "");
    assert_eq!(ApiDetails::new(Some(" why ".into())).to_string(), " (why)");
    assert_eq!(
        api_error_text(503, "Unavailable", &ApiDetails::new(None)),
        "PID API returned status 503: Unavailable"
    );
}

#[test]
fn optional_text_is_trimmed_and_dropped_when_blank() {
    assert_eq!(non_empty(None), None);
    assert_eq!(non_empty(Some(" \t".into())), None);
    assert_eq!(non_empty(Some(" A ".into())), Some("A".to_string()));
    assert_eq!(normalize_text("\u{a0}x\u{2003}"), "x");
}
