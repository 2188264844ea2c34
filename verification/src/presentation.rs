//! Human-readable presentation: countdown, delay and stale-age labels, and
//! the aligned two-line text layout of a departure query.

use vstd::prelude::*;

use unicode_width::UnicodeWidthStr;

use crate::query::DepartureQuery;
use crate::selection::{floor_minutes, floor_minutes_of, SelectedDeparture};
use crate::text::{decimal, push_char, push_decimal, push_signed_decimal, push_str, signed_decimal, trim_owned, trimmed};
use crate::time::{seconds_between, whole_seconds_between, UtcTime};

verus! {

/// Terminal style of the line number.
pub const LINE_STYLE: &'static str = "\x1b[1;36m";

/// Terminal style of emphasized text.
pub const EMPHASIS_STYLE: &'static str = "\x1b[1m";

/// Terminal style of secondary text.
pub const DIM_STYLE: &'static str = "\x1b[2m";

/// Terminal style reset.
pub const RESET_STYLE: &'static str = "\x1b[0m";

/// How long ago data was fetched, in human terms: `just now` below a minute,
/// minutes below an hour, hours and minutes below a day, whole days after.
pub open spec fn stale_age(age_seconds: int) -> Seq<char> {
    if age_seconds < 60 {
        "just now"@
    } else if age_seconds < 3600 {
        decimal((age_seconds / 60) as nat) + " min ago"@
    } else if age_seconds < 86400 {
        decimal((age_seconds / 3600) as nat) + "h "@ + decimal((age_seconds % 3600 / 60) as nat)
            + "m ago"@
    } else {
        decimal((age_seconds / 86400) as nat) + "d ago"@
    }
}

/// The age label of stale data.
pub fn stale_age_label(age_seconds: i64) -> (r: String)
    ensures
        r@ == stale_age(age_seconds as int),
{
    let mut s = String::new();
    if age_seconds < 60 {
        push_str(&mut s, "just now");
    } else if age_seconds < 3600 {
        push_decimal(&mut s, (age_seconds / 60) as u64);
        push_str(&mut s, " min ago");
    } else if age_seconds < 86400 {
        push_decimal(&mut s, (age_seconds / 3600) as u64);
        push_str(&mut s, "h ");
        push_decimal(&mut s, (age_seconds % 3600 / 60) as u64);
        push_str(&mut s, "m ago");
    } else {
        push_decimal(&mut s, (age_seconds / 86400) as u64);
        push_str(&mut s, "d ago");
    }
    assert(s@ =~= stale_age(age_seconds as int));
    s
}

/// The label of material late or early running: a delay of at least a
/// minute either way, in whole minutes; none otherwise.
pub open spec fn delay_text(delay_seconds: Option<i64>) -> Option<Seq<char>> {
    match delay_seconds {
        Some(d) => if d >= 60 {
            Some("+"@ + decimal((d / 60) as nat) + " late"@)
        } else if d <= -60 {
            Some("-"@ + decimal(((-d) / 60) as nat) + " early"@)
        } else {
            None
        },
        None => None,
    }
}

/// The label of material late or early running.
pub fn delay_label(delay_seconds: Option<i64>) -> (r: Option<String>)
    ensures
        match r {
            Some(s) => delay_text(delay_seconds) == Some(s@),
            None => delay_text(delay_seconds) is None,
        },
{
    match delay_seconds {
        Some(d) => {
            if d >= 60 {
                let mut s = String::new();
                push_str(&mut s, "+");
                push_decimal(&mut s, (d / 60) as u64);
                push_str(&mut s, " late");
                Some(s)
            } else if d <= -60 {
                let magnitude: u64 = if d == i64::MIN {
                    0x8000_0000_0000_0000u64
                } else {
                    (-d) as u64
                };
                let mut s = String::new();
                push_str(&mut s, "-");
                push_decimal(&mut s, magnitude / 60);
                push_str(&mut s, " early");
                Some(s)
            } else {
                None
            }
        },
        None => None,
    }
}

/// `HH:MM`: two digits, a colon, two digits.
pub open spec fn clock_shaped(clock: Seq<char>) -> bool {
    &&& clock.len() == 5
    &&& clock[2] == ':'
    &&& forall|i: int| 0 <= i < 5 && i != 2 ==> '0' <= #[trigger] clock[i] <= '9'
}

/// A time of day in the machine's local time zone, as `HH:MM`
/// (`chrono`'s conversion to `Local` and `%H:%M` formatting).
///
/// Trusted: the result depends on the machine's time zone, so which clock
/// text comes back for an instant is left unsaid; only its documented shape
/// is stated: two zero-padded digits of the hour, a colon, two zero-padded
/// digits of the minute. Callers can still say which instant a clock text
/// was produced for (`local_clock_of`).
#[verifier::external_body]
pub(crate) fn local_clock(timestamp: &UtcTime) -> (r: String)
    requires
        timestamp.wf(),
    ensures
        clock_shaped(r@),
{
    match chrono::DateTime::from_timestamp(timestamp.seconds, timestamp.nanos) {
        Some(utc) => utc.with_timezone(&chrono::Local).format("%H:%M").to_string(),
        None => String::new(),
    }
}

/// `clock` is a text that `local_clock` gives back for the instant `t`: the
/// time of day of that very instant on the machine's local clock.
pub closed spec fn local_clock_of(t: UtcTime, clock: Seq<char>) -> bool {
    exists|s: String| call_ensures(local_clock, (&t,), s) && s@ == clock
}

/// The number of terminal columns a text occupies, as `unicode-width`
/// measures it.
pub uninterp spec fn display_width(text: Seq<char>) -> nat;

/// Every character is printable ASCII, from space to `~`.
pub open spec fn printable_ascii(text: Seq<char>) -> bool {
    forall|i: int| 0 <= i < text.len() ==> ' ' <= #[trigger] text[i] <= '~'
}

/// The terminal width of a text (`UnicodeWidthStr::width`).
///
/// Trusted: the result is the named width of the text; a text of printable
/// ASCII is one column per character, as the crate documents (no special
/// sequence applies, and each such character has width 1).
#[verifier::external_body]
pub(crate) fn text_width(text: &str) -> (r: usize)
    ensures
        r == display_width(text@),
        printable_ascii(text@) ==> r == text@.len(),
{
    text.width()
}

/// The five texts of one departure's two-line record.
pub struct TextRow {
    pub line: String,
    pub headsign: String,
    pub boarding: String,
    pub leave: String,
    pub departs: String,
}

/// A record's texts as plain values.
pub struct TextRowView {
    pub line: Seq<char>,
    pub headsign: Seq<char>,
    pub boarding: Seq<char>,
    pub leave: Seq<char>,
    pub departs: Seq<char>,
}

impl View for TextRow {
    type V = TextRowView;

    open spec fn view(&self) -> TextRowView {
        TextRowView {
            line: self.line@,
            headsign: self.headsign@,
            boarding: self.boarding@,
            leave: self.leave@,
            departs: self.departs@,
        }
    }
}

/// ` · platform CODE` for a platform code that is not blank once trimmed.
pub open spec fn platform_suffix(code: Option<String>) -> Seq<char> {
    match code {
        Some(c) => if trimmed(c@).len() > 0 {
            " · platform "@ + trimmed(c@)
        } else {
            seq![]
        },
        None => seq![],
    }
}

/// A countdown in whole minutes, rounded down: `now` in the current minute,
/// `in N min` otherwise.
pub open spec fn countdown(minutes: int) -> Seq<char> {
    if minutes == 0 {
        "now"@
    } else {
        "in "@ + signed_decimal(minutes) + " min"@
    }
}

/// `leave by HH:MM · in N min`: the local clock at which one has to leave,
/// and the countdown to it.
pub open spec fn leave_text(clock: Seq<char>, leave_minutes: int) -> Seq<char> {
    "leave by "@ + clock + " · "@ + countdown(leave_minutes)
}

/// `departs HH:MM · in N min`, followed by the delay label when there is
/// one.
pub open spec fn departs_text(clock: Seq<char>, departs_minutes: int, delay_seconds: Option<i64>) -> Seq<
    char,
> {
    let base = "departs "@ + clock + " · "@ + countdown(departs_minutes);
    match delay_text(delay_seconds) {
        Some(d) => base + " · "@ + d,
        None => base,
    }
}

/// The record of a selected departure whose local departure clock is
/// `clock` and whose local leave clock is `leave_clock`.
pub open spec fn row_of(selected: SelectedDeparture, clock: Seq<char>, leave_clock: Seq<char>) -> TextRowView {
    TextRowView {
        line: selected.departure.line@,
        headsign: selected.departure.headsign@,
        boarding: selected.boarding_point_name@ + platform_suffix(selected.departure.platform_code),
        leave: leave_text(leave_clock, floor_minutes_of(selected.leave_in_seconds as int)),
        departs: departs_text(
            clock,
            floor_minutes_of(selected.departs_in_seconds as int),
            selected.departure.delay_seconds,
        ),
    }
}

/// The note of a cancelled departure whose local departure clock is `clock`,
/// with the countdown to its departure.
pub open spec fn note_of(selected: SelectedDeparture, clock: Seq<char>) -> Seq<char> {
    "cancelled: "@ + selected.departure.line@ + " → "@ + selected.departure.headsign@ + " from "@
        + selected.boarding_point_name@ + ", "@ + clock + " · "@ + countdown(
        floor_minutes_of(selected.departs_in_seconds as int),
    )
}

/// Appends the countdown of `minutes`.
fn push_countdown(s: &mut String, minutes: i64)
    ensures
        final(s)@ == old(s)@ + countdown(minutes as int),
{
    if minutes == 0 {
        push_str(s, "now");
    } else {
        push_str(s, "in ");
        push_signed_decimal(s, minutes);
        push_str(s, " min");
    }
    assert(final(s)@ =~= old(s)@ + countdown(minutes as int));
}

/// The header line of stale data.
pub open spec fn stale_header(clock: Seq<char>, age_seconds: int) -> Seq<char> {
    "STALE · last updated "@ + clock + " · "@ + stale_age(age_seconds) + "\n"@
}

/// The record texts of a selected departure.
pub fn text_row(selected: &SelectedDeparture, clock: &str, leave_clock: &str) -> (r: TextRow)
    ensures
        r@ == row_of(*selected, clock@, leave_clock@),
{
    let departure = &selected.departure;
    let mut boarding = selected.boarding_point_name.clone();
    match &departure.platform_code {
        Some(code) => {
            let c = trim_owned(code.as_str());
            if !c.as_str().is_empty() {
                push_str(&mut boarding, " · platform ");
                push_str(&mut boarding, c.as_str());
            }
        },
        None => {},
    }
    let mut leave = String::new();
    push_str(&mut leave, "leave by ");
    push_str(&mut leave, leave_clock);
    push_str(&mut leave, " · ");
    push_countdown(&mut leave, selected.leave_in_minutes());
    let mut departs = String::new();
    push_str(&mut departs, "departs ");
    push_str(&mut departs, clock);
    push_str(&mut departs, " · ");
    push_countdown(&mut departs, selected.departs_in_minutes());
    match delay_label(departure.delay_seconds) {
        Some(delay) => {
            push_str(&mut departs, " · ");
            push_str(&mut departs, delay.as_str());
        },
        None => {},
    }
    let r = TextRow {
        line: departure.line.clone(),
        headsign: departure.headsign.clone(),
        boarding,
        leave,
        departs,
    };
    assert(r@.boarding =~= row_of(*selected, clock@, leave_clock@).boarding);
    assert(r@.leave =~= row_of(*selected, clock@, leave_clock@).leave);
    assert(r@.departs =~= row_of(*selected, clock@, leave_clock@).departs);
    r
}

/// The note of a cancelled departure.
pub fn cancellation_note(selected: &SelectedDeparture, clock: &str) -> (r: String)
    ensures
        r@ == note_of(*selected, clock@),
{
    let mut s = String::new();
    push_str(&mut s, "cancelled: ");
    push_str(&mut s, selected.departure.line.as_str());
    push_str(&mut s, " → ");
    push_str(&mut s, selected.departure.headsign.as_str());
    push_str(&mut s, " from ");
    push_str(&mut s, selected.boarding_point_name.as_str());
    push_str(&mut s, ", ");
    push_str(&mut s, clock);
    push_str(&mut s, " · ");
    push_countdown(&mut s, selected.departs_in_minutes());
    assert(s@ =~= note_of(*selected, clock@));
    s
}

/// The header line of stale data.
pub fn stale_header_line(clock: &str, age_seconds: i64) -> (r: String)
    ensures
        r@ == stale_header(clock@, age_seconds as int),
{
    let mut s = String::new();
    push_str(&mut s, "STALE · last updated ");
    push_str(&mut s, clock);
    push_str(&mut s, " · ");
    let age = stale_age_label(age_seconds);
    push_str(&mut s, age.as_str());
    push_str(&mut s, "\n");
    assert(s@ =~= stale_header(clock@, age_seconds as int));
    s
}

/// `n` spaces.
pub open spec fn spaces(n: nat) -> Seq<char> {
    Seq::new(n, |i: int| ' ')
}

/// A horizontal rule of `n` box-drawing characters.
pub open spec fn rule(n: nat) -> Seq<char> {
    Seq::new(n, |i: int| '─')
}

/// Columns needed to pad `text` to `width`, none when it is already as wide.
pub open spec fn padding_for(text: Seq<char>, width: nat) -> nat {
    if width > display_width(text) {
        (width - display_width(text)) as nat
    } else {
        0
    }
}

/// `text` padded to `width` columns: on the right when left-aligned, on the
/// left when right-aligned.
pub open spec fn padded(text: Seq<char>, width: nat, right_aligned: bool) -> Seq<char> {
    if right_aligned {
        spaces(padding_for(text, width)) + text
    } else {
        text + spaces(padding_for(text, width))
    }
}

/// The style code when styling is on, nothing otherwise.
pub open spec fn style(styled: bool, code: Seq<char>) -> Seq<char> {
    if styled {
        code
    } else {
        seq![]
    }
}

/// A whole line, in the given style when styling is on.
pub open spec fn styled_line(styled: bool, code: Seq<char>, value: Seq<char>) -> Seq<char> {
    if styled {
        code + value + RESET_STYLE@ + "\n"@
    } else {
        value + "\n"@
    }
}

/// The larger of two widths.
pub open spec fn wider(a: nat, b: nat) -> nat {
    if a >= b {
        a
    } else {
        b
    }
}

/// The widest line number among the first `n` records.
pub open spec fn line_column(rows: Seq<TextRowView>, n: int) -> nat
    decreases n,
{
    if n <= 0 {
        0
    } else {
        wider(line_column(rows, n - 1), display_width(rows[n - 1].line))
    }
}

/// The widest headsign or boarding text among the first `n` records.
pub open spec fn detail_column(rows: Seq<TextRowView>, n: int) -> nat
    decreases n,
{
    if n <= 0 {
        0
    } else {
        wider(
            detail_column(rows, n - 1),
            wider(display_width(rows[n - 1].headsign), display_width(rows[n - 1].boarding)),
        )
    }
}

/// The widest leave or departure text among the first `n` records.
pub open spec fn time_column(rows: Seq<TextRowView>, n: int) -> nat
    decreases n,
{
    if n <= 0 {
        0
    } else {
        wider(
            time_column(rows, n - 1),
            wider(display_width(rows[n - 1].leave), display_width(rows[n - 1].departs)),
        )
    }
}

/// One record: the line, headsign and leave time on the first line; the
/// boarding point and departure time, dimmed, below.
pub open spec fn row_block(row: TextRowView, lw: nat, dw: nat, tw: nat, styled: bool) -> Seq<char> {
    row_top(row, lw, dw, tw, styled) + row_bottom(row, lw, dw, tw, styled)
}

/// The first line of a record, with its line ending: the line number, the
/// headsign and the leave text, each in its style.
pub open spec fn row_top(row: TextRowView, lw: nat, dw: nat, tw: nat, styled: bool) -> Seq<char> {
    style(styled, LINE_STYLE@) + padded(row.line, lw, false) + style(styled, RESET_STYLE@) + "  "@
        + style(styled, EMPHASIS_STYLE@) + padded(row.headsign, dw, false) + style(
        styled,
        RESET_STYLE@,
    ) + "  "@ + style(styled, EMPHASIS_STYLE@) + padded(row.leave, tw, true) + style(
        styled,
        RESET_STYLE@,
    ) + "\n"@
}

/// The second line of a record, dimmed, with its line ending: the boarding
/// point and the departure text under the headsign and leave columns.
pub open spec fn row_bottom(row: TextRowView, lw: nat, dw: nat, tw: nat, styled: bool) -> Seq<char> {
    style(styled, DIM_STYLE@) + spaces(lw) + "  "@ + padded(row.boarding, dw, false) + "  "@
        + padded(row.departs, tw, true) + style(styled, RESET_STYLE@) + "\n"@
}

/// The first `n` records, separated by dimmed rules.
pub open spec fn rows_block(
    rows: Seq<TextRowView>,
    n: int,
    lw: nat,
    dw: nat,
    tw: nat,
    styled: bool,
    separator: Seq<char>,
) -> Seq<char>
    decreases n,
{
    if n <= 0 {
        seq![]
    } else {
        rows_block(rows, n - 1, lw, dw, tw, styled, separator) + if n - 1 > 0 {
            styled_line(styled, DIM_STYLE@, separator)
        } else {
            seq![]
        } + row_block(rows[n - 1], lw, dw, tw, styled)
    }
}

/// The first `n` cancellation notes, emphasized, one per line.
pub open spec fn notes_block(notes: Seq<Seq<char>>, n: int, styled: bool) -> Seq<char>
    decreases n,
{
    if n <= 0 {
        seq![]
    } else {
        notes_block(notes, n - 1, styled) + styled_line(styled, EMPHASIS_STYLE@, notes[n - 1])
    }
}

/// Width of the rule between records: the three columns and the two
/// four-column gaps between them, capped at the largest `usize`.
pub open spec fn rule_width(rows: Seq<TextRowView>) -> nat {
    let n = rows.len() as int;
    let w = line_column(rows, n) + detail_column(rows, n) + time_column(rows, n) + 4;
    if w > usize::MAX {
        usize::MAX as nat
    } else {
        w as nat
    }
}

/// The records and notes: an empty-state line when there is no record; the
/// aligned records separated by full-width rules; a rule between records and
/// notes; then the notes.
pub open spec fn departures_text(rows: Seq<TextRowView>, notes: Seq<Seq<char>>, styled: bool) -> Seq<
    char,
> {
    let n = rows.len() as int;
    let separator = rule(rule_width(rows));
    let empty_state = if rows.len() == 0 {
        "No reachable departures.\n"@
    } else {
        seq![]
    };
    if rows.len() == 0 && notes.len() == 0 {
        empty_state
    } else {
        empty_state + rows_block(
            rows,
            n,
            line_column(rows, n),
            detail_column(rows, n),
            time_column(rows, n),
            styled,
            separator,
        ) + if rows.len() > 0 && notes.len() > 0 {
            styled_line(styled, DIM_STYLE@, separator)
        } else {
            seq![]
        } + notes_block(notes, notes.len() as int, styled)
    }
}

fn push_repeated(s: &mut String, c: char, n: usize)
    ensures
        final(s)@ == old(s)@ + Seq::new(n as nat, |i: int| c),
{
    let ghost start = s@;
    let mut i: usize = 0;
    while i < n
        invariant
            i <= n,
            s@ == start + Seq::new(i as nat, |k: int| c),
        decreases n - i,
    {
        push_char(s, c);
        assert(s@ =~= start + Seq::new((i + 1) as nat, |k: int| c));
        i = i + 1;
    }
}

fn push_padded(s: &mut String, text: &str, width: usize, right_aligned: bool)
    ensures
        final(s)@ == old(s)@ + padded(text@, width as nat, right_aligned),
{
    let w = text_width(text);
    let padding = if width > w { width - w } else { 0 };
    if right_aligned {
        push_repeated(s, ' ', padding);
        push_str(s, text);
    } else {
        push_str(s, text);
        push_repeated(s, ' ', padding);
    }
    assert(final(s)@ =~= old(s)@ + padded(text@, width as nat, right_aligned));
}

fn push_style(s: &mut String, styled: bool, code: &str)
    ensures
        final(s)@ == old(s)@ + style(styled, code@),
{
    if styled {
        push_str(s, code);
    } else {
        assert(s@ =~= s@ + style(styled, code@));
    }
}

fn push_styled_line(s: &mut String, styled: bool, code: &str, value: &str)
    ensures
        final(s)@ == old(s)@ + styled_line(styled, code@, value@),
{
    if styled {
        push_str(s, code);
        push_str(s, value);
        push_str(s, RESET_STYLE);
        push_str(s, "\n");
    } else {
        push_str(s, value);
        push_str(s, "\n");
    }
    assert(final(s)@ =~= old(s)@ + styled_line(styled, code@, value@));
}

/// The view of each record.
pub open spec fn row_views(rows: Seq<TextRow>) -> Seq<TextRowView> {
    rows.map_values(|r: TextRow| r@)
}

fn push_row_top(s: &mut String, row: &TextRow, lw: usize, dw: usize, tw: usize, styled: bool)
    ensures
        final(s)@ == old(s)@ + row_top(row@, lw as nat, dw as nat, tw as nat, styled),
{
    push_style(s, styled, LINE_STYLE);
    push_padded(s, row.line.as_str(), lw, false);
    push_style(s, styled, RESET_STYLE);
    push_str(s, "  ");
    push_style(s, styled, EMPHASIS_STYLE);
    push_padded(s, row.headsign.as_str(), dw, false);
    push_style(s, styled, RESET_STYLE);
    push_str(s, "  ");
    push_style(s, styled, EMPHASIS_STYLE);
    push_padded(s, row.leave.as_str(), tw, true);
    push_style(s, styled, RESET_STYLE);
    push_str(s, "\n");
    assert(final(s)@ =~= old(s)@ + row_top(row@, lw as nat, dw as nat, tw as nat, styled));
}

fn push_row_bottom(s: &mut String, row: &TextRow, lw: usize, dw: usize, tw: usize, styled: bool)
    ensures
        final(s)@ == old(s)@ + row_bottom(row@, lw as nat, dw as nat, tw as nat, styled),
{
    push_style(s, styled, DIM_STYLE);
    push_repeated(s, ' ', lw);
    push_str(s, "  ");
    push_padded(s, row.boarding.as_str(), dw, false);
    push_str(s, "  ");
    push_padded(s, row.departs.as_str(), tw, true);
    push_style(s, styled, RESET_STYLE);
    push_str(s, "\n");
    assert(final(s)@ =~= old(s)@ + row_bottom(row@, lw as nat, dw as nat, tw as nat, styled));
}

fn push_row(s: &mut String, row: &TextRow, lw: usize, dw: usize, tw: usize, styled: bool)
    ensures
        final(s)@ == old(s)@ + row_block(row@, lw as nat, dw as nat, tw as nat, styled),
{
    push_row_top(s, row, lw, dw, tw, styled);
    push_row_bottom(s, row, lw, dw, tw, styled);
    assert(final(s)@ =~= old(s)@ + row_block(row@, lw as nat, dw as nat, tw as nat, styled));
}

/// The aligned text of the records and notes.
pub fn layout_text(rows: &Vec<TextRow>, notes: &Vec<String>, styled: bool) -> (r: String)
    ensures
        r@ == departures_text(row_views(rows@), notes@.map_values(|n: String| n@), styled),
{
    let ghost views = row_views(rows@);
    let ghost note_views = notes@.map_values(|n: String| n@);
    let n = rows.len();
    let mut lw: usize = 0;
    let mut dw: usize = 0;
    let mut tw: usize = 0;
    let mut i: usize = 0;
    while i < n
        invariant
            i <= n,
            n == rows@.len(),
            views == row_views(rows@),
            lw == line_column(views, i as int),
            dw == detail_column(views, i as int),
            tw == time_column(views, i as int),
        decreases n - i,
    {
        let row = &rows[i];
        assert(views[i as int] == row@);
        let a = text_width(row.line.as_str());
        if a > lw {
            lw = a;
        }
        let b = text_width(row.headsign.as_str());
        let c = text_width(row.boarding.as_str());
        let bc = if b >= c { b } else { c };
        if bc > dw {
            dw = bc;
        }
        let d = text_width(row.leave.as_str());
        let e = text_width(row.departs.as_str());
        let de = if d >= e { d } else { e };
        if de > tw {
            tw = de;
        }
        i = i + 1;
    }
    let width = lw.saturating_add(dw).saturating_add(tw).saturating_add(4);
    assert(width == rule_width(views));
    let mut separator = String::new();
    push_repeated(&mut separator, '─', width);
    assert(separator@ =~= rule(rule_width(views)));
    let mut out = String::new();
    if n == 0 {
        push_str(&mut out, "No reachable departures.\n");
        if notes.len() == 0 {
            assert(out@ =~= departures_text(views, note_views, styled));
            return out;
        }
    }
    let ghost head = out@;
    let mut k: usize = 0;
    while k < n
        invariant
            k <= n,
            n == rows@.len(),
            views == row_views(rows@),
            separator@ == rule(rule_width(views)),
            out@ == head + rows_block(views, k as int, lw as nat, dw as nat, tw as nat, styled, separator@),
        decreases n - k,
    {
        if k > 0 {
            push_styled_line(&mut out, styled, DIM_STYLE, separator.as_str());
        }
        assert(views[k as int] == rows@[k as int]@);
        push_row(&mut out, &rows[k], lw, dw, tw, styled);
        assert(out@ =~= head + rows_block(views, k + 1, lw as nat, dw as nat, tw as nat, styled, separator@));
        k = k + 1;
    }
    if n > 0 && notes.len() > 0 {
        push_styled_line(&mut out, styled, DIM_STYLE, separator.as_str());
    }
    let ghost mid = out@;
    let mut j: usize = 0;
    while j < notes.len()
        invariant
            j <= notes@.len(),
            note_views == notes@.map_values(|n: String| n@),
            out@ == mid + notes_block(note_views, j as int, styled),
        decreases notes@.len() - j,
    {
        push_styled_line(&mut out, styled, EMPHASIS_STYLE, notes[j].as_str());
        assert(out@ =~= mid + notes_block(note_views, j + 1, styled));
        j = j + 1;
    }
    assert(out@ =~= departures_text(views, note_views, styled));
    out
}

/// The texts of a list of strings.
pub open spec fn clock_texts(clocks: Seq<String>) -> Seq<Seq<char>> {
    clocks.map_values(|c: String| c@)
}

/// Whole seconds since the data was fetched, never negative.
pub open spec fn stale_age_seconds(q: DepartureQuery) -> int {
    let d = whole_seconds_between(q.generated_at, q.data_updated_at);
    if d > 0 {
        d
    } else {
        0
    }
}

/// The text output of a query, given the local clock of each departure and
/// of the time to leave for it, of each cancellation and of the data's fetch
/// time: a stale header when the data came from the cache, then the records
/// and cancellation notes.
pub open spec fn query_text(
    q: DepartureQuery,
    departure_clocks: Seq<Seq<char>>,
    leave_clocks: Seq<Seq<char>>,
    cancellation_clocks: Seq<Seq<char>>,
    updated_clock: Seq<char>,
    styled: bool,
) -> Seq<char> {
    let rows = Seq::new(
        q.departures@.len(),
        |i: int| row_of(q.departures@[i], departure_clocks[i], leave_clocks[i]),
    );
    let notes = Seq::new(
        q.cancelled@.len(),
        |i: int| note_of(q.cancelled@[i], cancellation_clocks[i]),
    );
    (if q.stale {
        stale_header(updated_clock, stale_age_seconds(q))
    } else {
        seq![]
    }) + departures_text(rows, notes, styled)
}

/// The text output of a query whose local clocks were formatted already.
pub fn query_text_with_clocks(
    query: &DepartureQuery,
    departure_clocks: &Vec<String>,
    leave_clocks: &Vec<String>,
    cancellation_clocks: &Vec<String>,
    updated_clock: &str,
    styled: bool,
) -> (r: String)
    requires
        query.generated_at.wf(),
        query.data_updated_at.wf(),
        departure_clocks@.len() == query.departures@.len(),
        leave_clocks@.len() == query.departures@.len(),
        cancellation_clocks@.len() == query.cancelled@.len(),
    ensures
        r@ == query_text(
            *query,
            clock_texts(departure_clocks@),
            clock_texts(leave_clocks@),
            clock_texts(cancellation_clocks@),
            updated_clock@,
            styled,
        ),
{
    let ghost dc = clock_texts(departure_clocks@);
    let ghost lc = clock_texts(leave_clocks@);
    let ghost cc = clock_texts(cancellation_clocks@);
    let ghost want_rows = Seq::new(
        query.departures@.len(),
        |i: int| row_of(query.departures@[i], dc[i], lc[i]),
    );
    let ghost want_notes = Seq::new(
        query.cancelled@.len(),
        |i: int| note_of(query.cancelled@[i], cc[i]),
    );
    let mut rows: Vec<TextRow> = Vec::new();
    let mut i: usize = 0;
    while i < query.departures.len()
        invariant
            i <= query.departures@.len(),
            departure_clocks@.len() == query.departures@.len(),
            leave_clocks@.len() == query.departures@.len(),
            dc == clock_texts(departure_clocks@),
            lc == clock_texts(leave_clocks@),
            want_rows == Seq::new(
                query.departures@.len(),
                |i: int| row_of(query.departures@[i], dc[i], lc[i]),
            ),
            rows@.len() == i,
            row_views(rows@) == want_rows.take(i as int),
        decreases query.departures@.len() - i,
    {
        let row = text_row(
            &query.departures[i],
            departure_clocks[i].as_str(),
            leave_clocks[i].as_str(),
        );
        assert(departure_clocks@[i as int]@ == dc[i as int]);
        assert(leave_clocks@[i as int]@ == lc[i as int]);
        assert(row@ == want_rows[i as int]);
        let ghost before = rows@;
        rows.push(row);
        assert(rows@ == before.push(row));
        assert forall|k: int| 0 <= k < i + 1 implies #[trigger] row_views(rows@)[k] == want_rows.take(i + 1)[k] by {
            if k < i {
                assert(row_views(before)[k] == want_rows.take(i as int)[k]);
                assert(rows@[k] == before[k]);
            } else {
                assert(rows@[k] == row);
                assert(row_views(rows@)[k] == rows@[k]@);
                assert(want_rows.take(i + 1)[k] == want_rows[k]);
            }
        }
        assert(row_views(rows@) =~= want_rows.take(i + 1));
        i = i + 1;
    }
    assert(want_rows.take(i as int) =~= want_rows);
    let mut notes: Vec<String> = Vec::new();
    let mut j: usize = 0;
    while j < query.cancelled.len()
        invariant
            j <= query.cancelled@.len(),
            cancellation_clocks@.len() == query.cancelled@.len(),
            cc == clock_texts(cancellation_clocks@),
            want_notes == Seq::new(
                query.cancelled@.len(),
                |i: int| note_of(query.cancelled@[i], cc[i]),
            ),
            notes@.len() == j,
            clock_texts(notes@) == want_notes.take(j as int),
        decreases query.cancelled@.len() - j,
    {
        let note = cancellation_note(&query.cancelled[j], cancellation_clocks[j].as_str());
        assert(cancellation_clocks@[j as int]@ == cc[j as int]);
        assert(note@ == want_notes[j as int]);
        let ghost before = notes@;
        notes.push(note);
        assert(notes@ == before.push(note));
        assert forall|k: int| 0 <= k < j + 1 implies #[trigger] clock_texts(notes@)[k] == want_notes.take(j + 1)[k] by {
            if k < j {
                assert(clock_texts(before)[k] == want_notes.take(j as int)[k]);
            }
        }
        assert(clock_texts(notes@) =~= want_notes.take(j + 1));
        j = j + 1;
    }
    assert(want_notes.take(j as int) =~= want_notes);
    let mut out = String::new();
    if query.stale {
        let d = seconds_between(&query.generated_at, &query.data_updated_at);
        let age: i64 = if d > 0 {
            d
        } else {
            0
        };
        let header = stale_header_line(updated_clock, age);
        push_str(&mut out, header.as_str());
    }
    let body = layout_text(&rows, &notes, styled);
    assert(notes@.map_values(|n: String| n@) == clock_texts(notes@));
    push_str(&mut out, body.as_str());
    assert(out@ =~= query_text(*query, dc, lc, cc, updated_clock@, styled));
    out
}

/// The text output of a query, with each time shown on the machine's local
/// clock.
///
/// Each record shows the local clock of its own departure's effective time
/// and of its own leave instant; each cancellation note that of its own
/// departure; a stale header that of the fetch time. The clock texts depend
/// on the machine's time zone, so beyond their `HH:MM` shape and the instant
/// each was produced for, the contract holds for whatever clocks came back.
pub fn render_text(query: &DepartureQuery, styled: bool) -> (r: String)
    requires
        query.generated_at.wf(),
        query.data_updated_at.wf(),
        forall|i: int|
            0 <= i < query.departures@.len() ==> (#[trigger] query.departures@[i]).departure.effective().wf()
                && query.departures@[i].leave_instant().wf(),
        forall|i: int|
            0 <= i < query.cancelled@.len() ==> (#[trigger] query.cancelled@[i]).departure.effective().wf(),
    ensures
        exists|dc: Seq<Seq<char>>, lc: Seq<Seq<char>>, cc: Seq<Seq<char>>, uc: Seq<char>|
            {
                &&& dc.len() == query.departures@.len()
                &&& lc.len() == query.departures@.len()
                &&& cc.len() == query.cancelled@.len()
                &&& forall|i: int| 0 <= i < dc.len() ==> clock_shaped(#[trigger] dc[i])
                &&& forall|i: int| 0 <= i < lc.len() ==> clock_shaped(#[trigger] lc[i])
                &&& forall|i: int| 0 <= i < cc.len() ==> clock_shaped(#[trigger] cc[i])
                &&& (query.stale ==> clock_shaped(uc))
                &&& forall|i: int|
                    0 <= i < dc.len() ==> local_clock_of(
                        query.departures@[i].departure.effective(),
                        #[trigger] dc[i],
                    ) && local_clock_of(query.departures@[i].leave_instant(), lc[i])
                &&& forall|i: int|
                    0 <= i < cc.len() ==> local_clock_of(
                        query.cancelled@[i].departure.effective(),
                        #[trigger] cc[i],
                    )
                &&& (query.stale ==> local_clock_of(query.data_updated_at, uc))
                &&& r@ == #[trigger] query_text(*query, dc, lc, cc, uc, styled)
            },
{
    let mut departure_clocks: Vec<String> = Vec::new();
    let mut leave_clocks: Vec<String> = Vec::new();
    let mut i: usize = 0;
    while i < query.departures.len()
        invariant
            i <= query.departures@.len(),
            departure_clocks@.len() == i,
            leave_clocks@.len() == i,
            forall|k: int|
                0 <= k < query.departures@.len() ==> (#[trigger] query.departures@[k]).departure.effective().wf()
                    && query.departures@[k].leave_instant().wf(),
            forall|k: int| 0 <= k < i ==> clock_shaped((#[trigger] departure_clocks@[k])@),
            forall|k: int| 0 <= k < i ==> clock_shaped((#[trigger] leave_clocks@[k])@),
            forall|k: int|
                0 <= k < i ==> local_clock_of(
                    query.departures@[k].departure.effective(),
                    (#[trigger] departure_clocks@[k])@,
                ),
            forall|k: int|
                0 <= k < i ==> local_clock_of(
                    query.departures@[k].leave_instant(),
                    (#[trigger] leave_clocks@[k])@,
                ),
        decreases query.departures@.len() - i,
    {
        let selected = &query.departures[i];
        let t = selected.departure.effective_at();
        departure_clocks.push(local_clock(&t));
        let leave = selected.leave_at();
        leave_clocks.push(local_clock(&leave));
        i = i + 1;
    }
    let mut cancellation_clocks: Vec<String> = Vec::new();
    let mut j: usize = 0;
    while j < query.cancelled.len()
        invariant
            j <= query.cancelled@.len(),
            cancellation_clocks@.len() == j,
            forall|k: int|
                0 <= k < query.cancelled@.len() ==> (#[trigger] query.cancelled@[k]).departure.effective().wf(),
            forall|k: int| 0 <= k < j ==> clock_shaped((#[trigger] cancellation_clocks@[k])@),
            forall|k: int|
                0 <= k < j ==> local_clock_of(
                    query.cancelled@[k].departure.effective(),
                    (#[trigger] cancellation_clocks@[k])@,
                ),
        decreases query.cancelled@.len() - j,
    {
        let t = query.cancelled[j].departure.effective_at();
        cancellation_clocks.push(local_clock(&t));
        j = j + 1;
    }
    let updated_clock = if query.stale {
        local_clock(&query.data_updated_at)
    } else {
        String::new()
    };
    let r = query_text_with_clocks(
        query,
        &departure_clocks,
        &leave_clocks,
        &cancellation_clocks,
        updated_clock.as_str(),
        styled,
    );
    let ghost dc = clock_texts(departure_clocks@);
    let ghost lc = clock_texts(leave_clocks@);
    let ghost cc = clock_texts(cancellation_clocks@);
    assert(forall|k: int| 0 <= k < dc.len() ==> clock_shaped(#[trigger] dc[k]));
    assert(forall|k: int| 0 <= k < lc.len() ==> clock_shaped(#[trigger] lc[k]));
    assert(forall|k: int| 0 <= k < cc.len() ==> clock_shaped(#[trigger] cc[k]));
    assert(forall|k: int|
        0 <= k < dc.len() ==> local_clock_of(
            query.departures@[k].departure.effective(),
            #[trigger] dc[k],
        ) && local_clock_of(query.departures@[k].leave_instant(), lc[k]));
    assert(forall|k: int|
        0 <= k < cc.len() ==> local_clock_of(query.cancelled@[k].departure.effective(), #[trigger] cc[k]));
    assert(r@ == query_text(*query, dc, lc, cc, updated_clock@, styled));
    r
}

/// The text holds no escape character, so no terminal style.
pub open spec fn unstyled(s: Seq<char>) -> bool {
    forall|i: int| 0 <= i < s.len() ==> s[i] != '\x1b'
}

proof fn lemma_unstyled_concat(a: Seq<char>, b: Seq<char>)
    requires
        unstyled(a),
        unstyled(b),
    ensures
        unstyled(a + b),
{
    assert forall|i: int| 0 <= i < (a + b).len() implies (a + b)[i] != '\x1b' by {
        if i < a.len() {
            assert((a + b)[i] == a[i]);
        } else {
            assert((a + b)[i] == b[i - a.len()]);
        }
    }
}

proof fn lemma_unstyled_sums()
    ensures
        forall|a: Seq<char>, b: Seq<char>|
            unstyled(a) && unstyled(b) ==> #[trigger] unstyled(a + b),
        unstyled(Seq::<char>::empty()),
{
    assert forall|a: Seq<char>, b: Seq<char>| unstyled(a) && unstyled(b) implies #[trigger] unstyled(
        a + b,
    ) by {
        lemma_unstyled_concat(a, b);
    }
}

proof fn lemma_unstyled_padded(text: Seq<char>, width: nat, right_aligned: bool)
    requires
        unstyled(text),
    ensures
        unstyled(padded(text, width, right_aligned)),
{
    let pad = spaces(padding_for(text, width));
    assert(unstyled(pad));
    if right_aligned {
        lemma_unstyled_concat(pad, text);
    } else {
        lemma_unstyled_concat(text, pad);
    }
}

/// The texts of a record hold no escape character.
pub open spec fn row_unstyled(row: TextRowView) -> bool {
    &&& unstyled(row.line)
    &&& unstyled(row.headsign)
    &&& unstyled(row.boarding)
    &&& unstyled(row.leave)
    &&& unstyled(row.departs)
}

proof fn lemma_unstyled_row_block(row: TextRowView, lw: nat, dw: nat, tw: nat)
    requires
        row_unstyled(row),
    ensures
        unstyled(row_block(row, lw, dw, tw, false)),
{
    assert(unstyled("  "@)) by {
        reveal_strlit("  ");
    }
    assert(unstyled("\n"@)) by {
        reveal_strlit("\n");
    }
    assert(unstyled(spaces(lw)));
    lemma_unstyled_padded(row.line, lw, false);
    lemma_unstyled_padded(row.headsign, dw, false);
    lemma_unstyled_padded(row.leave, tw, true);
    lemma_unstyled_padded(row.boarding, dw, false);
    lemma_unstyled_padded(row.departs, tw, true);
    lemma_unstyled_sums();
}

proof fn lemma_unstyled_rows(
    rows: Seq<TextRowView>,
    n: int,
    lw: nat,
    dw: nat,
    tw: nat,
    separator: Seq<char>,
)
    requires
        n <= rows.len(),
        unstyled(separator),
        forall|i: int| 0 <= i < rows.len() ==> row_unstyled(#[trigger] rows[i]),
    ensures
        unstyled(rows_block(rows, n, lw, dw, tw, false, separator)),
    decreases n,
{
    lemma_unstyled_sums();
    if n > 0 {
        lemma_unstyled_rows(rows, n - 1, lw, dw, tw, separator);
        lemma_unstyled_row_block(rows[n - 1], lw, dw, tw);
        assert(unstyled("\n"@)) by {
            reveal_strlit("\n");
        }
    }
}

proof fn lemma_unstyled_notes(notes: Seq<Seq<char>>, n: int)
    requires
        n <= notes.len(),
        forall|i: int| 0 <= i < notes.len() ==> unstyled(#[trigger] notes[i]),
    ensures
        unstyled(notes_block(notes, n, false)),
    decreases n,
{
    lemma_unstyled_sums();
    if n > 0 {
        lemma_unstyled_notes(notes, n - 1);
        assert(unstyled("\n"@)) by {
            reveal_strlit("\n");
        }
    }
}

/// Without styling, the layout adds no terminal escape: when no record
/// text or note holds an escape character, neither does the output.
pub proof fn law_unstyled_layout_has_no_escapes(rows: Seq<TextRowView>, notes: Seq<Seq<char>>)
    requires
        forall|i: int| 0 <= i < rows.len() ==> row_unstyled(#[trigger] rows[i]),
        forall|i: int| 0 <= i < notes.len() ==> unstyled(#[trigger] notes[i]),
    ensures
        unstyled(departures_text(rows, notes, false)),
{
    lemma_unstyled_sums();
    let n = rows.len() as int;
    let separator = rule(rule_width(rows));
    assert(unstyled(separator));
    lemma_unstyled_rows(
        rows,
        n,
        line_column(rows, n),
        detail_column(rows, n),
        time_column(rows, n),
        separator,
    );
    lemma_unstyled_notes(notes, notes.len() as int);
    assert(unstyled("No reachable departures.\n"@)) by {
        reveal_strlit("No reachable departures.\n");
    }
    assert(unstyled("\n"@)) by {
        reveal_strlit("\n");
    }
}

/// With no departure to show, the output opens with the empty-state line,
/// also when cancellation notes follow it.
pub proof fn law_empty_state_comes_first(notes: Seq<Seq<char>>, styled: bool)
    ensures
        departures_text(Seq::<TextRowView>::empty(), notes, styled).take(25)
            == "No reachable departures.\n"@,
{
    reveal_strlit("No reachable departures.\n");
    let rows = Seq::<TextRowView>::empty();
    let head = "No reachable departures.\n"@;
    assert(rows_block(rows, 0, 0, 0, 0, styled, rule(rule_width(rows))) == Seq::<char>::empty());
    assert(departures_text(rows, notes, styled) == head + notes_block(notes, notes.len() as int, styled)
        || departures_text(rows, notes, styled) == head);
    assert((head + notes_block(notes, notes.len() as int, styled)).take(25) =~= head);
    assert(head.take(25) =~= head);
}

/// The first line of a record, unstyled: line, headsign and leave text in
/// their columns.
pub open spec fn first_line(row: TextRowView, lw: nat, dw: nat, tw: nat) -> Seq<char> {
    padded(row.line, lw, false) + "  "@ + padded(row.headsign, dw, false) + "  "@ + padded(
        row.leave,
        tw,
        true,
    )
}

/// The second line of a record, unstyled: boarding point and departure text
/// under the headsign and leave columns.
pub open spec fn second_line(row: TextRowView, lw: nat, dw: nat, tw: nat) -> Seq<char> {
    spaces(lw) + "  "@ + padded(row.boarding, dw, false) + "  "@ + padded(row.departs, tw, true)
}

/// Every text of the record is as many columns wide as it has characters,
/// as `unicode-width` measures printable ASCII.
pub open spec fn width_is_length(row: TextRowView) -> bool {
    &&& display_width(row.line) == row.line.len()
    &&& display_width(row.headsign) == row.headsign.len()
    &&& display_width(row.boarding) == row.boarding.len()
    &&& display_width(row.leave) == row.leave.len()
    &&& display_width(row.departs) == row.departs.len()
}

proof fn lemma_columns_cover(rows: Seq<TextRowView>, n: int, k: int)
    requires
        0 <= k < n <= rows.len(),
    ensures
        display_width(rows[k].line) <= line_column(rows, n),
        display_width(rows[k].headsign) <= detail_column(rows, n),
        display_width(rows[k].boarding) <= detail_column(rows, n),
        display_width(rows[k].leave) <= time_column(rows, n),
        display_width(rows[k].departs) <= time_column(rows, n),
    decreases n,
{
    if k < n - 1 {
        lemma_columns_cover(rows, n - 1, k);
    }
}

proof fn lemma_padded_length(text: Seq<char>, width: nat, right_aligned: bool)
    requires
        display_width(text) == text.len(),
        text.len() <= width,
    ensures
        padded(text, width, right_aligned).len() == width,
{
}

/// Unstyled, a record is its first line and its second line.
pub proof fn lemma_row_block_lines(row: TextRowView, lw: nat, dw: nat, tw: nat)
    ensures
        row_block(row, lw, dw, tw, false) =~= first_line(row, lw, dw, tw) + "\n"@ + second_line(
            row,
            lw,
            dw,
            tw,
        ) + "\n"@,
{
}

/// Records are separated at the full rendered width: when each record text
/// is as wide as it is long (as for printable ASCII), both lines of every
/// unstyled record have exactly as many characters as the rule between
/// records.
pub proof fn law_records_span_the_rule(rows: Seq<TextRowView>)
    requires
        forall|k: int| 0 <= k < rows.len() ==> width_is_length(#[trigger] rows[k]),
        line_column(rows, rows.len() as int) + detail_column(rows, rows.len() as int) + time_column(
            rows,
            rows.len() as int,
        ) + 4 <= usize::MAX,
    ensures
        forall|k: int|
            0 <= k < rows.len() ==> {
                let n = rows.len() as int;
                &&& first_line(
                    #[trigger] rows[k],
                    line_column(rows, n),
                    detail_column(rows, n),
                    time_column(rows, n),
                ).len() == rule_width(rows)
                &&& second_line(
                    rows[k],
                    line_column(rows, n),
                    detail_column(rows, n),
                    time_column(rows, n),
                ).len() == rule_width(rows)
            },
        rule(rule_width(rows)).len() == rule_width(rows),
{
    let n = rows.len() as int;
    let lw = line_column(rows, n);
    let dw = detail_column(rows, n);
    let tw = time_column(rows, n);
    reveal_strlit("  ");
    assert forall|k: int| 0 <= k < rows.len() implies {
        &&& first_line(#[trigger] rows[k], lw, dw, tw).len() == rule_width(rows)
        &&& second_line(rows[k], lw, dw, tw).len() == rule_width(rows)
    } by {
        let row = rows[k];
        assert(width_is_length(row));
        lemma_columns_cover(rows, n, k);
        lemma_padded_length(row.line, lw, false);
        lemma_padded_length(row.headsign, dw, false);
        lemma_padded_length(row.leave, tw, true);
        lemma_padded_length(row.boarding, dw, false);
        lemma_padded_length(row.departs, tw, true);
    }
}

} // verus!
