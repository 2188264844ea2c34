use pidjezdy::cache::{check_snapshot, SnapshotMismatch, CACHE_VERSION};
use pidjezdy::query::configured_request;
use pidjezdy::config::{BoardingPoint, Config, RouteFilter};
use pidjezdy::request::{DepartureBoardRequest, PidRequestError};
use url::Url;

#[test]
fn builds_repeated_encoded_stop_groups() {
    let request = DepartureBoardRequest::new(
        120,
        20,
        vec![
            vec![" U100Z1P ".into()],
            vec!["U200Z2P".into(), "U200Z3P".into()],
        ],
    )
    .unwrap();
    let endpoint = Url::parse("https://example.test/data.php").unwrap();
    let url = request.url(&endpoint);
    let pairs = url.query_pairs().collect::<Vec<_>>();

    assert_eq!(pairs[0], ("minutesAfter".into(), "120".into()));
    assert_eq!(pairs[1], ("limit".into(), "20".into()));
    assert_eq!(pairs[2], ("stopIds[]".into(), r#"{"0":["U100Z1P"]}"#.into()));
    assert_eq!(
        pairs[3],
        ("stopIds[]".into(), r#"{"0":["U200Z2P","U200Z3P"]}"#.into())
    );
}

#[test]
fn rejects_values_outside_the_observed_contract() {
    assert_eq!(
        DepartureBoardRequest::new(0, 20, vec![vec!["U1".into()]]),
        Err(PidRequestError::EmptyTimeWindow)
    );
    assert_eq!(
        DepartureBoardRequest::new(120, 21, vec![vec!["U1".into()]]),
        Err(PidRequestError::InvalidLimit(21))
    );
    assert_eq!(
        DepartureBoardRequest::new(120, 20, Vec::new()),
        Err(PidRequestError::NoStopGroups)
    );
    assert_eq!(
        DepartureBoardRequest::new(120, 20, vec![Vec::new()]),
        Err(PidRequestError::EmptyStopGroup(0))
    );
    assert_eq!(
        DepartureBoardRequest::new(120, 20, vec![vec![" ".into()]]),
        Err(PidRequestError::EmptyStopId { group: 0, stop: 0 })
    );
}

#[test]
fn query_pairs_list_window_limit_and_each_group() {
    let request = DepartureBoardRequest::new(
        30,
        5,
        vec![vec!["A".into()], vec![" B ".into(), "C".into()]],
    )
    .unwrap();
    assert_eq!(request.minutes_after(), 30);
    assert_eq!(request.limit(), 5);
    assert_eq!(request.stop_groups(), &vec![vec!["A".to_string()], vec!["B".to_string(), "C".to_string()]]);
    assert_eq!(
        request.query_pairs(),
        vec![
            ("minutesAfter".to_string(), "30".to_string()),
            ("limit".to_string(), "5".to_string()),
            ("stopIds[]".to_string(), r#"{"0":["A"]}"#.to_string()),
            ("stopIds[]".to_string(), r#"{"0":["B","C"]}"#.to_string()),
        ]
    );
}

#[test]
fn request_errors_have_messages() {
    assert_eq!(
        PidRequestError::InvalidLimit(21).to_string(),
        "PID API limit must be between 1 and 20, got 21"
    );
    assert_eq!(
        PidRequestError::EmptyTimeWindow.to_string(),
        "minutes_after must be greater than 0"
    );
    assert_eq!(
        PidRequestError::NoStopGroups.to_string(),
        "at least one stop group is required"
    );
    assert_eq!(
        PidRequestError::EmptyStopGroup(3).to_string(),
        "stop group 3 must not be empty"
    );
    assert_eq!(
        PidRequestError::EmptyStopId { group: 1, stop: 2 }.to_string(),
        "stop ID at group 1, index 2 must not be empty"
    );
}

fn config() -> Config {
    Config {
        boarding_points: vec![BoardingPoint {
            name: "Nearby stop".into(),
            stop_ids: vec!["U100Z1P".into()],
            walking_minutes: 4,
            safety_buffer_minutes: 2,
            routes: vec![RouteFilter {
                line: "158".into(),
                headsign: "Centre".into(),
            }],
        }],
        ..Config::default()
    }
}

#[test]
fn presentation_changes_do_not_change_the_cache_request() {
    let before = configured_request(&config()).unwrap();
    let mut changed = config();
    changed.display.max_departures = 1;
    changed.boarding_points[0].name = "Renamed stop".into();
    changed.boarding_points[0].walking_minutes = 9;
    changed.boarding_points[0].safety_buffer_minutes = 0;
    changed.boarding_points[0].routes[0].headsign = "Different direction".into();

    let updated = configured_request(&changed).unwrap();

    assert!(before.same_request(&updated));
    assert_eq!(before, updated);
}

#[test]
fn builds_one_independently_limited_group_per_boarding_point() {
    let mut config = Config {
        boarding_points: vec![
            BoardingPoint {
                name: "First".into(),
                stop_ids: vec![" U100Z1P ".into(), "U100Z2P".into()],
                walking_minutes: 4,
                safety_buffer_minutes: 2,
                routes: vec![RouteFilter {
                    line: "1".into(),
                    headsign: "Centre".into(),
                }],
            },
            BoardingPoint {
                name: "Second".into(),
                stop_ids: vec!["U200Z1P".into()],
                walking_minutes: 6,
                safety_buffer_minutes: 2,
                routes: vec![RouteFilter {
                    line: "2".into(),
                    headsign: "Station".into(),
                }],
            },
        ],
        ..Config::default()
    };
    config.fetch.minutes_after = 90;
    config.fetch.api_limit = 7;
    config.normalize();
    config.validate().unwrap();
    let endpoint = Url::parse("https://example.test/data.php").unwrap();
    let url = configured_request(&config).unwrap().url(&endpoint);
    let pairs = url.query_pairs().collect::<Vec<_>>();

    assert_eq!(pairs[0], ("minutesAfter".into(), "90".into()));
    assert_eq!(pairs[1], ("limit".into(), "7".into()));
    assert_eq!(
        pairs[2],
        ("stopIds[]".into(), r#"{"0":["U100Z1P","U100Z2P"]}"#.into())
    );
    assert_eq!(pairs[3], ("stopIds[]".into(), r#"{"0":["U200Z1P"]}"#.into()));
}

#[test]
fn snapshots_stand_in_only_for_the_same_request_and_version() {
    let request = configured_request(&config()).unwrap();
    let mut other_config = config();
    other_config.fetch.minutes_after = 60;
    let other = configured_request(&other_config).unwrap();

    assert_eq!(check_snapshot(CACHE_VERSION, Some(&request), &request), Ok(()));
    assert_eq!(
        check_snapshot(CACHE_VERSION, Some(&other), &request),
        Err(SnapshotMismatch::RequestMismatch)
    );
    assert_eq!(
        check_snapshot(2, Some(&request), &request),
        Err(SnapshotMismatch::UnsupportedVersion(2))
    );
    assert_eq!(
        check_snapshot(CACHE_VERSION, None, &request),
        Err(SnapshotMismatch::RequestMismatch)
    );
    assert_eq!(
        check_snapshot(0, None, &request),
        Err(SnapshotMismatch::UnsupportedVersion(0))
    );
}

#[test]
fn config_check_rejects_limits_above_the_pid_api_cap() {
    let mut config = config();
    config.fetch.api_limit = 21;
    let error = configured_request(&config).unwrap_err();
    assert_eq!(error, PidRequestError::InvalidLimit(21));
    assert_eq!(
        error.to_string(),
        "PID API limit must be between 1 and 20, got 21"
    );
}

#[test]
fn request_round_trips_as_a_cache_key() {
    let request = DepartureBoardRequest::new(
        120,
        20,
        vec![vec![" U100Z1P ".into()], vec!["U200Z2P".into()]],
    )
    .unwrap();

    let decoded = DepartureBoardRequest::new(
        request.minutes_after(),
        request.limit() as usize,
        request.stop_groups().clone(),
    )
    .unwrap();

    assert_eq!(request, decoded);
    assert!(request.same_request(&decoded));
    assert_eq!(check_snapshot(CACHE_VERSION, Some(&decoded), &request), Ok(()));
}
