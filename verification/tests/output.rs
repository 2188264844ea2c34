use pidjezdy::departure::{Departure, Vehicle};
use pidjezdy::presentation::{
    cancellation_note, delay_label, layout_text, query_text_with_clocks, render_text,
    stale_age_label, stale_header_line, text_row, DIM_STYLE, EMPHASIS_STYLE, LINE_STYLE,
    RESET_STYLE,
};
use unicode_width::UnicodeWidthStr;
use pidjezdy::query::DepartureQuery;
use pidjezdy::selection::SelectedDeparture;
use pidjezdy::time::UtcTime;

/// 2026-09-04T12:00:00+02:00.
const NOW: i64 = 1_788_516_000;

fn now() -> UtcTime {
    UtcTime::from_seconds(NOW)
}

fn selected() -> SelectedDeparture {
    SelectedDeparture {
        departure: Departure {
            trip_id: "trip-1".into(),
            line: "158".into(),
            headsign: "Centre".into(),
            stop_id: "U100Z1P".into(),
            platform_code: Some(" A ".into()),
            scheduled_at: UtcTime::from_seconds(NOW + 10 * 60),
            predicted_at: None,
            delay_seconds: None,
            is_cancelled: false,
            vehicle: Vehicle::default(),
        },
        boarding_point_name: "Nearby stop".into(),
        walking_minutes: 4,
        safety_buffer_minutes: 2,
        departs_in_seconds: 10 * 60 + 30,
        leave_in_seconds: 4 * 60 + 30,
        reachable: true,
    }
}

fn departure_query(
    departures: Vec<SelectedDeparture>,
    data_updated_at: UtcTime,
    stale: bool,
) -> DepartureQuery {
    DepartureQuery {
        generated_at: now(),
        data_updated_at,
        stale,
        departures,
        cancelled: Vec::new(),
        truncations: Vec::new(),
    }
}

/// The instant on the machine's local clock, as `HH:MM`.
fn local_clock(time: &UtcTime) -> String {
    chrono::DateTime::from_timestamp(time.seconds, time.nanos)
        .unwrap()
        .with_timezone(&chrono::Local)
        .format("%H:%M")
        .to_string()
}

fn departure_clock() -> String {
    local_clock(&selected().departure.effective_at())
}

fn leave_clock() -> String {
    local_clock(&UtcTime::from_seconds(NOW + 4 * 60))
}

#[test]
fn text_output_uses_aligned_two_line_layout() {
    let query = departure_query(vec![selected()], now(), false);
    let output = render_text(&query, false);

    let lines = output.lines().collect::<Vec<_>>();
    assert_eq!(lines.len(), 2);
    assert!(lines[0].starts_with("158  Centre"));
    assert!(lines[0].ends_with(&format!("leave by {} · in 4 min", leave_clock())));
    assert!(lines[1].starts_with("     Nearby stop · platform A"));
    assert!(lines[1].ends_with(&format!("departs {} · in 10 min", departure_clock())));
}

#[test]
fn text_output_separates_full_width_records() {
    let query = departure_query(vec![selected(), selected()], now(), false);
    let output = render_text(&query, false);

    let lines = output.lines().collect::<Vec<_>>();
    assert_eq!(lines.len(), 5);
    assert_eq!(lines[2], "─".repeat(lines[0].width()));
}

#[test]
fn text_output_appends_cancellations_without_using_departure_slots() {
    let mut cancelled = selected();
    cancelled.departure.is_cancelled = true;
    let mut query = departure_query(vec![selected()], now(), false);
    query.cancelled.push(cancelled);

    let output = render_text(&query, false);

    let lines = output.lines().collect::<Vec<_>>();
    assert_eq!(lines[2], "─".repeat(lines[0].width()));
    assert_eq!(
        lines[3],
        format!("cancelled: 158 → Centre from Nearby stop, {} · in 10 min", departure_clock())
    );
}

#[test]
fn text_output_lists_cancellations_after_the_empty_state() {
    let mut cancelled = selected();
    cancelled.departure.is_cancelled = true;
    let mut query = departure_query(Vec::new(), now(), false);
    query.cancelled.push(cancelled);

    assert_eq!(
        render_text(&query, false),
        format!(
            "No reachable departures.\ncancelled: 158 → Centre from Nearby stop, {} · in 10 min\n",
            departure_clock()
        )
    );
}

#[test]
fn display_width_uses_terminal_cells_for_unicode() {
    assert_eq!("Letňany".width(), 7);
    assert_eq!("Ａ".width(), 2);
    assert_eq!("e\u{301}".width(), 1);
}

#[test]
fn styled_text_emphasizes_primary_and_dims_secondary_content() {
    let query = departure_query(vec![selected()], now(), false);
    let output = render_text(&query, true);

    assert!(output.contains(&format!("{LINE_STYLE}158{RESET_STYLE}")));
    assert!(output.contains(&format!("{EMPHASIS_STYLE}Centre")));
    assert!(output.contains(&format!("{DIM_STYLE}     Nearby stop")));
}

#[test]
fn text_output_handles_leave_now_and_no_results() {
    let mut departure = selected();
    departure.leave_in_seconds = 59;
    let query = departure_query(vec![departure], now(), false);
    assert!(render_text(&query, false).contains(&format!("leave by {} · now", leave_clock())));

    let query = departure_query(Vec::new(), now(), false);
    assert_eq!(render_text(&query, false), "No reachable departures.\n");
}

#[test]
fn text_output_labels_stale_data_with_its_age() {
    let updated = UtcTime::from_seconds(NOW - 190);
    let query = departure_query(vec![selected()], updated, true);

    assert!(render_text(&query, false).starts_with(&format!(
        "STALE · last updated {} · 3 min ago\n",
        local_clock(&updated)
    )));
}

#[test]
fn stale_age_uses_human_scale_boundaries() {
    for (seconds, expected) in [
        (0, "just now"),
        (59, "just now"),
        (60, "1 min ago"),
        (3599, "59 min ago"),
        (3600, "1h 0m ago"),
        (7800, "2h 10m ago"),
        (86399, "23h 59m ago"),
        (86400, "1d ago"),
    ] {
        assert_eq!(stale_age_label(seconds), expected);
    }
}

#[test]
fn delay_labels_only_material_late_and_early_running() {
    for (delay, expected) in [
        (None, None),
        (Some(0), None),
        (Some(59), None),
        (Some(60), Some("+1 late")),
        (Some(125), Some("+2 late")),
        (Some(-59), None),
        (Some(-60), Some("-1 early")),
        (Some(-125), Some("-2 early")),
    ] {
        assert_eq!(delay_label(delay).as_deref(), expected);
    }
}

#[test]
fn text_output_includes_material_delay_on_the_secondary_line() {
    let mut departure = selected();
    departure.departure.delay_seconds = Some(125);
    let query = departure_query(vec![departure], now(), false);

    let expected = format!("departs {} · in 10 min · +2 late", departure_clock());
    assert!(render_text(&query, false).contains(&expected));
}

#[test]
fn fixed_clocks_give_an_exact_layout() {
    let mut second = selected();
    second.departure.line = "9".into();
    second.departure.headsign = "Letňany".into();
    second.departure.platform_code = None;
    second.leave_in_seconds = 0;
    let mut cancelled = selected();
    cancelled.departure.is_cancelled = true;
    let mut query = departure_query(vec![selected(), second], UtcTime::from_seconds(NOW - 7800), true);
    query.cancelled.push(cancelled);

    let output = query_text_with_clocks(
        &query,
        &vec!["12:10".to_string(), "12:11".to_string()],
        &vec!["12:04".to_string(), "12:05".to_string()],
        &vec!["12:12".to_string()],
        "09:50",
        false,
    );
    let expected = [
        "STALE · last updated 09:50 · 2h 10m ago\n",
        "158  Centre                    leave by 12:04 · in 4 min\n",
        "     Nearby stop · platform A  departs 12:10 · in 10 min\n",
        "────────────────────────────────────────────────────────\n",
        "9    Letňany                        leave by 12:05 · now\n",
        "     Nearby stop               departs 12:11 · in 10 min\n",
        "────────────────────────────────────────────────────────\n",
        "cancelled: 158 → Centre from Nearby stop, 12:12 · in 10 min\n",
    ]
    .concat();
    assert_eq!(output, expected);
}

#[test]
fn record_texts_and_notes_follow_the_layout_rules() {
    let row = text_row(&selected(), "12:10", "12:04");
    assert_eq!(row.boarding, "Nearby stop · platform A");
    assert_eq!(row.leave, "leave by 12:04 · in 4 min");
    assert_eq!(row.departs, "departs 12:10 · in 10 min");
    assert_eq!(
        cancellation_note(&selected(), "12:10"),
        "cancelled: 158 → Centre from Nearby stop, 12:10 · in 10 min"
    );
    let mut readme = selected();
    readme.departure.line = "123".into();
    readme.departure.headsign = "City centre".into();
    readme.departs_in_seconds = 15 * 60;
    assert_eq!(
        cancellation_note(&readme, "08:42"),
        "cancelled: 123 → City centre from Nearby stop, 08:42 · in 15 min"
    );
    readme.departs_in_seconds = 600;
    readme.leave_in_seconds = 240;
    readme.departure.delay_seconds = Some(125);
    let row = text_row(&readme, "08:37", "08:31");
    assert_eq!(row.leave, "leave by 08:31 · in 4 min");
    assert_eq!(row.departs, "departs 08:37 · in 10 min · +2 late");
    assert_eq!(row.boarding, "Nearby stop · platform A");
    assert_eq!(selected().leave_at(), UtcTime::from_seconds(NOW + 4 * 60));
    assert_eq!(
        stale_header_line("09:50", 59),
        "STALE · last updated 09:50 · just now\n"
    );
    assert_eq!(layout_text(&Vec::new(), &Vec::new(), true), "No reachable departures.\n");
}

#[test]
fn unstyled_output_holds_no_terminal_escapes() {
    let mut cancelled = selected();
    cancelled.departure.is_cancelled = true;
    let mut query = departure_query(vec![selected(), selected()], now(), false);
    query.cancelled.push(cancelled);

    assert!(!render_text(&query, false).contains('\u{1b}'));
    assert!(render_text(&query, true).contains('\u{1b}'));
}
