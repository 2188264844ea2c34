use pidjezdy::cache::{cache_directory, directory_of_parent, resolve_config_path};
use pidjezdy::cli::{parse_departure_limit, resolve_endpoint, FailureKind, DEFAULT_ENDPOINT};
use pidjezdy::report::{distinct_causes, error_report, split_lines, text_ends_with};

fn chain(messages: &[&str]) -> Vec<String> {
    messages.iter().map(|message| message.to_string()).collect()
}

#[test]
fn endpoint_environment_uses_trimmed_nonempty_overrides() {
    assert_eq!(resolve_endpoint(None), DEFAULT_ENDPOINT);
    assert_eq!(resolve_endpoint(Some("")), DEFAULT_ENDPOINT);
    assert_eq!(resolve_endpoint(Some(" \t\n")), DEFAULT_ENDPOINT);
    assert_eq!(
        resolve_endpoint(Some("  http://127.0.0.1:1234/departures\t")),
        "http://127.0.0.1:1234/departures"
    );
}

#[test]
fn departures_accepts_bounded_limit_and_json_format() {
    assert_eq!(parse_departure_limit("2"), Ok(2));
    assert_eq!(parse_departure_limit("1"), Ok(1));
    assert_eq!(parse_departure_limit("20"), Ok(20));
    assert_eq!(parse_departure_limit("+7"), Ok(7));
    assert_eq!(parse_departure_limit("007"), Ok(7));
}

#[test]
fn departures_rejects_limits_outside_the_supported_range() {
    for limit in ["0", "21", "not-a-number", "", "+", "-1", " 2", "99999999999999999999999"] {
        let error = parse_departure_limit(limit).unwrap_err();
        assert!(error.contains("limit must be an integer between 1 and 20"));
    }
}

#[test]
fn explicit_path_wins_over_environment() {
    assert_eq!(
        resolve_config_path(Some("explicit.toml"), Some("environment.toml"), Some("default.toml".into())),
        Some("explicit.toml".to_string())
    );
}

#[test]
fn environment_wins_over_platform_default() {
    assert_eq!(
        resolve_config_path(None, Some("environment.toml"), Some("default.toml".into())),
        Some("environment.toml".to_string())
    );
}

#[test]
fn empty_explicit_path_falls_back_to_environment() {
    assert_eq!(
        resolve_config_path(Some(""), Some("environment.toml"), Some("default.toml".into())),
        Some("environment.toml".to_string())
    );
}

#[test]
fn empty_environment_path_falls_back_to_platform_default() {
    assert_eq!(
        resolve_config_path(None, Some(""), Some("default.toml".into())),
        resolve_config_path(None, None, Some("default.toml".into()))
    );
    assert_eq!(resolve_config_path(Some(""), Some(""), None), None);
}

#[test]
fn treats_an_empty_relative_parent_as_the_current_directory() {
    assert_eq!(cache_directory("departures.json"), ".");
    assert_eq!(cache_directory("cache/departures.json"), "cache");
}

#[test]
fn a_parent_directory_is_used_as_it_is() {
    assert_eq!(directory_of_parent(None), ".");
    assert_eq!(directory_of_parent(Some(String::new())), ".");
    assert_eq!(directory_of_parent(Some("/var/cache".into())), "/var/cache");
    assert_eq!(cache_directory("/tmp/pidjezdy/departures.json"), "/tmp/pidjezdy");
}

#[test]
fn reports_each_distinct_error_layer() {
    let report = error_report(&chain(&["could not write command output", "closed output"]));
    assert_eq!(
        report,
        "pidjezdy: could not write command output\n  caused by: closed output\n"
    );
}

#[test]
fn skips_a_source_already_included_by_its_wrapper() {
    let report = error_report(&chain(&[
        "invalid configuration config.toml",
        "invalid TOML: TOML parse error at line 1",
        "TOML parse error at line 1",
    ]));
    assert!(report.starts_with("pidjezdy: invalid configuration config.toml\n"));
    assert!(report.contains("  caused by: invalid TOML:"));
    assert_eq!(report.matches("TOML parse error").count(), 1);
}

#[test]
fn indents_every_line_of_a_multiline_cause() {
    let report = error_report(&chain(&[
        "invalid configuration config.toml",
        "configuration is invalid:\n- display.max_departures must be between 1 and 20\n- fetch.api_limit must be between 1 and 20",
    ]));
    assert!(report.contains("  caused by: configuration is invalid:\n"));
    assert!(report
        .lines()
        .skip(2)
        .all(|line| line.starts_with("             - ")));
    assert_eq!(report.lines().count(), 4);
}

#[test]
fn distinct_causes_keep_only_new_messages() {
    assert!(distinct_causes(&Vec::new()).is_empty());
    assert!(distinct_causes(&chain(&["only"])).is_empty());
    assert_eq!(
        distinct_causes(&chain(&["a: b", "b", "c", "c"])),
        chain(&["c"])
    );
    assert_eq!(
        distinct_causes(&chain(&["departures unavailable", "could not fetch PID departures", "connection refused"])),
        chain(&["could not fetch PID departures", "connection refused"])
    );
}

#[test]
fn lines_split_like_str_lines() {
    for text in ["", "a", "a\n", "a\r\nb", "a\n\nb\n", "\n", "x\r", "one\ntwo\r\nthree"] {
        let expected = text.lines().map(str::to_string).collect::<Vec<_>>();
        assert_eq!(split_lines(text), expected, "{text:?}");
    }
    assert!(text_ends_with("wrapper: inner", "inner"));
    assert!(!text_ends_with("inner", "wrapper: inner"));
}

#[test]
fn only_stdout_write_failures_prevent_json_error_reporting() {
    assert!(FailureKind::OutputSerialize.can_report_as_json());
    assert!(!FailureKind::OutputWrite.can_report_as_json());
    assert!(FailureKind::InvalidConfig.can_report_as_json());
}

#[test]
fn failure_kinds_have_stable_names() {
    assert_eq!(FailureKind::ConfigDirectoryUnavailable.json_kind(), "config_directory_unavailable");
    assert_eq!(FailureKind::ConfigAlreadyExists.json_kind(), "config_already_exists");
    assert_eq!(FailureKind::CreateConfigDirectory.json_kind(), "config_directory_create_failed");
    assert_eq!(FailureKind::CreateConfig.json_kind(), "config_create_failed");
    assert_eq!(FailureKind::ReadConfig.json_kind(), "config_unreadable");
    assert_eq!(FailureKind::InvalidConfig.json_kind(), "config_invalid");
    assert_eq!(FailureKind::CacheDirectoryUnavailable.json_kind(), "cache_directory_unavailable");
    assert_eq!(FailureKind::RemoveCache.json_kind(), "cache_remove_failed");
    assert_eq!(FailureKind::RequestInvalid.json_kind(), "request_invalid");
    assert_eq!(FailureKind::DeparturesUnavailable.json_kind(), "departures_unavailable");
    assert_eq!(FailureKind::OutputSerialize.json_kind(), "output_failed");
    assert_eq!(FailureKind::OutputWrite.json_kind(), "output_failed");
    assert_eq!(FailureKind::WriteDiagnostics.json_kind(), "diagnostics_write_failed");
}
