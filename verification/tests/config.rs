use pidjezdy::config::{
    default_safety_buffer_minutes, BoardingPoint, Config, DisplayConfig, FetchConfig, RouteFilter,
    RouteQuota,
};
use pidjezdy::validation::{format_validation_errors, ValidationErrors};

fn valid_point() -> BoardingPoint {
    BoardingPoint {
        name: "Nearby stop".into(),
        stop_ids: vec!["U123Z1P".into()],
        walking_minutes: 4,
        safety_buffer_minutes: default_safety_buffer_minutes(),
        routes: vec![RouteFilter {
            line: "158".into(),
            headsign: "Centrum".into(),
        }],
    }
}

fn valid() -> Config {
    Config {
        boarding_points: vec![valid_point()],
        ..Config::default()
    }
}

fn quota(line: &str, headsign: &str, minimum_departures: usize) -> RouteQuota {
    RouteQuota {
        line: line.into(),
        headsign: headsign.into(),
        minimum_departures,
    }
}

fn errors_of(config: &Config) -> String {
    config.validate().unwrap_err().to_string()
}

#[test]
fn parses_defaults() {
    let config = valid();
    config.validate().unwrap();
    assert_eq!(config.display.max_departures, 3);
    assert!(config.display.route_quotas.is_empty());
    assert_eq!(config.fetch.minutes_after, 120);
    assert_eq!(config.fetch.api_limit, 20);
    assert_eq!(config.boarding_points[0].safety_buffer_minutes, 2);
}

#[test]
fn normalizes_configured_text_before_validation() {
    let mut config = Config {
        display: DisplayConfig {
            max_departures: 2,
            route_quotas: vec![quota(" 158 ", " Centrum ", 2)],
        },
        fetch: FetchConfig::default(),
        boarding_points: vec![BoardingPoint {
            name: " Nearby stop ".into(),
            stop_ids: vec![" U123Z1P ".into()],
            walking_minutes: 4,
            safety_buffer_minutes: 2,
            routes: vec![RouteFilter {
                line: " 158 ".into(),
                headsign: " Centrum ".into(),
            }],
        }],
    };
    config.validate().unwrap();
    config.normalize();
    config.validate().unwrap();

    let point = &config.boarding_points[0];
    assert_eq!(point.name, "Nearby stop");
    assert_eq!(point.stop_ids, ["U123Z1P"]);
    assert_eq!(point.routes[0].line, "158");
    assert_eq!(point.routes[0].headsign, "Centrum");
    assert_eq!(config.display.route_quotas[0].line, "158");
    assert_eq!(config.display.route_quotas[0].headsign, "Centrum");
}

#[test]
fn programmatic_configs_can_enforce_the_normalized_invariant() {
    let mut config = Config {
        display: DisplayConfig::default(),
        fetch: FetchConfig::default(),
        boarding_points: vec![BoardingPoint {
            name: " Nearby stop ".into(),
            stop_ids: vec![" U123Z1P ".into()],
            walking_minutes: 4,
            safety_buffer_minutes: 2,
            routes: vec![RouteFilter {
                line: " 158 ".into(),
                headsign: " Centrum ".into(),
            }],
        }],
    };

    config.normalize();
    config.validate().unwrap();

    assert_eq!(config.boarding_points[0].name, "Nearby stop");
    assert_eq!(config.boarding_points[0].stop_ids, ["U123Z1P"]);
    assert_eq!(config.boarding_points[0].routes[0].line, "158");
    assert_eq!(config.boarding_points[0].routes[0].headsign, "Centrum");
}

#[test]
fn reports_multiple_validation_errors() {
    let config = Config {
        display: DisplayConfig {
            max_departures: 0,
            route_quotas: Vec::new(),
        },
        fetch: FetchConfig {
            minutes_after: 0,
            api_limit: 21,
        },
        boarding_points: Vec::new(),
    };
    let errors = config.validate().unwrap_err();
    assert_eq!(errors.0.len(), 4);
}

#[test]
fn rejects_duplicate_stop_ids_and_routes() {
    let config = Config {
        boarding_points: vec![BoardingPoint {
            name: "One".into(),
            stop_ids: vec![" U1 ".into(), "U1".into()],
            walking_minutes: 1,
            safety_buffer_minutes: 2,
            routes: vec![
                RouteFilter {
                    line: "1".into(),
                    headsign: "There".into(),
                },
                RouteFilter {
                    line: "1".into(),
                    headsign: "There".into(),
                },
            ],
        }],
        ..Config::default()
    };
    let error = errors_of(&config);
    assert!(error.contains("configured more than once"));
    assert!(error.contains("stop ID \"U1\""));
    assert!(!error.contains("stop ID \" U1 \""));
    assert!(error.contains("duplicates line"));
}

#[test]
fn parses_valid_route_quotas() {
    let mut config = valid();
    config.display.max_departures = 4;
    config.display.route_quotas = vec![quota("158", "Centrum", 2)];
    config.validate().unwrap();
    assert_eq!(config.display.route_quotas.len(), 1);
    assert_eq!(config.display.route_quotas[0].minimum_departures, 2);
}

#[test]
fn validates_route_quotas() {
    let mut config = valid();
    config.display.max_departures = 2;
    config.display.route_quotas = vec![
        quota("158", "Centrum", 2),
        quota("158", "Centrum", 2),
        quota("999", "Nowhere", 0),
    ];
    let error = errors_of(&config);
    assert!(error.contains("duplicates line"));
    assert!(error.contains("must be between 1 and 20"));
    assert!(error.contains("does not match a configured boarding-point route"));
    assert!(error.contains("route minimums total 4"));
}

#[test]
fn validation_errors_are_listed_in_declaration_order() {
    let config = Config {
        display: DisplayConfig {
            max_departures: 0,
            route_quotas: Vec::new(),
        },
        fetch: FetchConfig {
            minutes_after: 0,
            api_limit: 21,
        },
        boarding_points: Vec::new(),
    };
    let errors = config.validate().unwrap_err();
    assert_eq!(
        errors.0,
        [
            "display.max_departures must be between 1 and 20",
            "fetch.minutes_after must be greater than 0",
            "fetch.api_limit must be between 1 and 20",
            "at least one boarding point is required",
        ]
    );
    assert_eq!(
        errors.to_string(),
        "configuration is invalid:\n- display.max_departures must be between 1 and 20\n- fetch.minutes_after must be greater than 0\n- fetch.api_limit must be between 1 and 20\n- at least one boarding point is required"
    );
}

#[test]
fn empty_point_fields_are_reported_by_path() {
    let config = Config {
        boarding_points: vec![BoardingPoint {
            name: "  ".into(),
            stop_ids: vec![" ".into()],
            walking_minutes: 0,
            safety_buffer_minutes: 2,
            routes: vec![RouteFilter {
                line: "".into(),
                headsign: "x".into(),
            }],
        }],
        ..Config::default()
    };
    let errors = config.validate().unwrap_err();
    assert_eq!(
        errors.0,
        [
            "boarding_points[0].name must not be empty",
            "boarding_points[0].walking_minutes must be greater than 0",
            "boarding_points[0].stop_ids[0] must not be empty",
            "boarding_points[0].routes[0].line must not be empty",
        ]
    );
}

#[test]
fn validation_is_the_same_before_and_after_normalizing() {
    let mut config = valid();
    config.boarding_points[0].stop_ids = vec![" U1 ".into(), "U1".into()];
    let before = config.validate();
    config.normalize();
    assert_eq!(before, config.validate());
    let mut again = config.clone();
    again.normalize();
    assert_eq!(again, config);
}

#[test]
fn formats_one_bullet_per_error() {
    let errors = ValidationErrors(vec!["first".into(), "second".into()]);
    assert_eq!(errors.to_string(), "configuration is invalid:\n- first\n- second");
    assert_eq!(format_validation_errors(&["only".to_string()]), "- only");
}

#[test]
fn invalid_configuration_lists_validation_errors() {
    let mut config = Config::default();
    config.display.max_departures = 0;
    config.fetch.minutes_after = 0;
    let errors = config.validate().unwrap_err();
    let report = pidjezdy::report::error_report(&vec![
        "invalid configuration invalid.toml".to_string(),
        errors.to_string(),
    ]);

    assert!(report.contains("invalid configuration"), "{report}");
    assert!(report.contains("display.max_departures must be between 1 and 20"));
    assert!(report.contains("fetch.minutes_after must be greater than 0"));
    assert!(report.contains("at least one boarding point is required"));
}
