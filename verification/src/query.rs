//! The departure query: the request derived from the configuration, and the
//! decisions taken once live or cached departures are at hand.

use vstd::prelude::*;

use crate::config::{normalized_point_view, normalized_view, BoardingPoint, BoardingPointView, Config, ConfigView};
use crate::validation::{law_accepted_configuration, validation_errors};
use crate::departure::Departure;
use crate::request::{
    groups_texts, lemma_no_group_error, request_error, trimmed_groups, DepartureBoardRequest, PidRequestError,
    RequestView,
};
use crate::selection::{
    departures_wf, select_cancellations, select_departures, selected_cancellations,
    selected_departures, SelectedDeparture, SelectionOptions,
};
use crate::text::{lemma_trimmed_idempotent, trimmed, debug_quote, debug_quoted, decimal, push_decimal, push_signed_decimal, push_str, signed_decimal};
use crate::time::{div_toward_zero, seconds_between, whole_seconds_between, UtcTime};

verus! {

/// The stop IDs of each boarding point, one group per point.
pub open spec fn stop_groups_of(points: Seq<BoardingPointView>) -> Seq<Seq<Seq<char>>> {
    points.map_values(|p: BoardingPointView| p.stop_ids)
}

/// What building the configured request gives: the error of the first
/// problem, or the request for the configured window and limit with one
/// trimmed group per boarding point.
pub open spec fn configured_request_outcome(c: ConfigView) -> Result<RequestView, PidRequestError> {
    let groups = stop_groups_of(c.boarding_points);
    match request_error(c.minutes_after, c.api_limit, groups) {
        Some(e) => Err(e),
        None => Ok(
            RequestView {
                minutes_after: c.minutes_after,
                limit: c.api_limit as u32,
                stop_groups: trimmed_groups(groups),
            },
        ),
    }
}

fn copy_stop_ids(ids: &Vec<String>) -> (r: Vec<String>)
    ensures
        r@ == ids@,
{
    let mut out: Vec<String> = Vec::new();
    let mut k: usize = 0;
    while k < ids.len()
        invariant
            k <= ids@.len(),
            out@ == ids@.take(k as int),
        decreases ids@.len() - k,
    {
        out.push(ids[k].clone());
        assert(out@ =~= ids@.take(k + 1));
        k = k + 1;
    }
    assert(ids@.take(ids@.len() as int) =~= ids@);
    out
}

/// The request for the configured time window and limit, with one stop
/// group per boarding point. Only these settings identify a cached
/// response: names, walks, routes, quotas and display settings do not.
pub fn configured_request(config: &Config) -> (r: Result<DepartureBoardRequest, PidRequestError>)
    ensures
        match configured_request_outcome(config@) {
            Ok(v) => r matches Ok(request) && request@ == v,
            Err(e) => r == Err::<DepartureBoardRequest, PidRequestError>(e),
        },
{
    let mut groups: Vec<Vec<String>> = Vec::new();
    let mut p: usize = 0;
    while p < config.boarding_points.len()
        invariant
            p <= config.boarding_points@.len(),
            groups@.len() == p,
            forall|x: int|
                0 <= x < p ==> (#[trigger] groups@[x])@ == config.boarding_points@[x].stop_ids@,
        decreases config.boarding_points@.len() - p,
    {
        groups.push(copy_stop_ids(&config.boarding_points[p].stop_ids));
        p = p + 1;
    }
    assert(groups_texts(groups@) =~~= stop_groups_of(config@.boarding_points));
    DepartureBoardRequest::new(config.fetch.minutes_after, config.fetch.api_limit, groups)
}

/// Settings that identify a cached response are the same in both
/// configurations: then both build the same request, whatever else differs.
pub proof fn law_request_identity(a: ConfigView, b: ConfigView)
    requires
        a.minutes_after == b.minutes_after,
        a.api_limit == b.api_limit,
        a.boarding_points.len() == b.boarding_points.len(),
        forall|p: int|
            0 <= p < a.boarding_points.len() ==> (#[trigger] a.boarding_points[p]).stop_ids
                == b.boarding_points[p].stop_ids,
    ensures
        configured_request_outcome(a) == configured_request_outcome(b),
{
    assert(stop_groups_of(a.boarding_points) =~= stop_groups_of(b.boarding_points));
}

/// A configuration that validates also builds its departure request: once a
/// configuration is accepted, building the request from it cannot fail.
pub proof fn law_valid_configuration_builds_request(c: ConfigView)
    requires
        validation_errors(normalized_view(c)).len() == 0,
    ensures
        configured_request_outcome(normalized_view(c)) is Ok,
{
    let n = normalized_view(c);
    law_accepted_configuration(n);
    let groups = stop_groups_of(n.boarding_points);
    assert forall|g: int| 0 <= g < groups.len() implies (#[trigger] groups[g]).len() > 0 by {
        assert(groups[g] == n.boarding_points[g].stop_ids);
        assert(n.boarding_points[g].stop_ids.len() > 0);
    }
    assert forall|g: int, k: int|
        0 <= g < groups.len() && 0 <= k < groups[g].len() implies (#[trigger] trimmed(
        groups[g][k],
    )).len() > 0 by {
        assert(groups[g] == n.boarding_points[g].stop_ids);
        assert(n.boarding_points[g] == normalized_point_view(c.boarding_points[g]));
        let untrimmed = c.boarding_points[g].stop_ids[k];
        assert(groups[g][k] == trimmed(untrimmed));
        assert(n.boarding_points[g].stop_ids[k].len() > 0);
        lemma_trimmed_idempotent(untrimmed);
    }
    lemma_no_group_error(groups, 0);
}

/// Where the departures of a query come from.
pub enum DepartureSource {
    /// A successful live response.
    Live(Vec<Departure>),
    /// The cached snapshot of the same request, fetched earlier.
    Cached { fetched_at: UtcTime, departures: Vec<Departure> },
}

/// A boarding point whose group came back full while the selection stayed
/// short: later matching departures may exist but are not visible.
#[derive(Debug, Clone, PartialEq, Eq)]
pub struct ApiLimitTruncation {
    pub boarding_point_name: String,
    pub count: usize,
    pub covered_minutes: i64,
    pub requested_minutes: u32,
}

/// The outcome of a departure query.
#[derive(Debug)]
pub struct DepartureQuery {
    pub generated_at: UtcTime,
    pub data_updated_at: UtcTime,
    pub stale: bool,
    pub departures: Vec<SelectedDeparture>,
    pub cancelled: Vec<SelectedDeparture>,
    pub truncations: Vec<ApiLimitTruncation>,
}

/// One of the point's stop IDs is `stop`.
pub open spec fn lists_stop(point: BoardingPoint, stop: Seq<char>) -> bool {
    exists|k: int| 0 <= k < point.stop_ids@.len() && (#[trigger] point.stop_ids@[k])@ == stop
}

/// How many of the first `n` departures are at one of the point's stops.
pub open spec fn point_count(point: BoardingPoint, departures: Seq<Departure>, n: int) -> nat
    decreases n,
{
    if n <= 0 {
        0
    } else {
        point_count(point, departures, n - 1) + if lists_stop(point, departures[n - 1].stop_id@) {
            1nat
        } else {
            0nat
        }
    }
}

/// The latest effective time among the first `n` departures at one of the
/// point's stops.
pub open spec fn point_latest(point: BoardingPoint, departures: Seq<Departure>, n: int) -> Option<
    UtcTime,
>
    decreases n,
{
    if n <= 0 {
        None
    } else {
        let earlier = point_latest(point, departures, n - 1);
        let d = departures[n - 1];
        if lists_stop(point, d.stop_id@) {
            match earlier {
                Some(t) => if t.total_nanos() > d.effective().total_nanos() {
                    Some(t)
                } else {
                    Some(d.effective())
                },
                None => Some(d.effective()),
            }
        } else {
            earlier
        }
    }
}

/// Whole minutes from `now` to `latest`, rounded toward zero, and never
/// negative.
pub open spec fn covered_minutes(latest: Option<UtcTime>, now: UtcTime) -> int {
    match latest {
        Some(t) => {
            let m = div_toward_zero(whole_seconds_between(t, now), 60);
            if m > 0 {
                m
            } else {
                0
            }
        },
        None => 0,
    }
}

/// The truncation report of one boarding point, when its departures number
/// exactly the configured API limit.
pub open spec fn point_truncation(
    point: BoardingPoint,
    api_limit: usize,
    requested_minutes: u32,
    departures: Seq<Departure>,
    now: UtcTime,
) -> Option<ApiLimitTruncation> {
    let count = point_count(point, departures, departures.len() as int);
    if count != 0 && count == api_limit {
        Some(
            ApiLimitTruncation {
                boarding_point_name: point.name,
                count: count as usize,
                covered_minutes: covered_minutes(
                    point_latest(point, departures, departures.len() as int),
                    now,
                ) as i64,
                requested_minutes,
            },
        )
    } else {
        None
    }
}

/// The truncation reports of the first `n` boarding points, in order.
pub open spec fn api_limit_truncations(
    config: Config,
    departures: Seq<Departure>,
    now: UtcTime,
    n: int,
) -> Seq<ApiLimitTruncation>
    decreases n,
{
    if n <= 0 {
        seq![]
    } else {
        let earlier = api_limit_truncations(config, departures, now, n - 1);
        match point_truncation(
            config.boarding_points@[n - 1],
            config.fetch.api_limit,
            config.fetch.minutes_after,
            departures,
            now,
        ) {
            Some(t) => earlier.push(t),
            None => earlier,
        }
    }
}

/// A departure counts toward a boarding point's API-limit count exactly when
/// its stop is one of the point's stop IDs, at whatever position the point
/// lists it: every platform of a boarding point shares its budget.
pub proof fn law_point_count_takes_every_listed_stop(
    point: BoardingPoint,
    departures: Seq<Departure>,
    j: int,
)
    requires
        0 <= j < departures.len(),
    ensures
        (exists|k: int|
            0 <= k < point.stop_ids@.len() && (#[trigger] point.stop_ids@[k])@
                == departures[j].stop_id@) ==> point_count(point, departures, j + 1) == point_count(
            point,
            departures,
            j,
        ) + 1,
        (forall|k: int|
            0 <= k < point.stop_ids@.len() ==> (#[trigger] point.stop_ids@[k])@
                != departures[j].stop_id@) ==> point_count(point, departures, j + 1) == point_count(
            point,
            departures,
            j,
        ),
{
}

/// A boarding point is reported exactly when the departures at any of its
/// stop IDs number the API limit (and there is at least one).
pub proof fn law_truncation_reported_at_api_limit(
    point: BoardingPoint,
    api_limit: usize,
    requested_minutes: u32,
    departures: Seq<Departure>,
    now: UtcTime,
)
    ensures
        point_truncation(point, api_limit, requested_minutes, departures, now) is Some <==> (
        point_count(point, departures, departures.len() as int) == api_limit && api_limit > 0),
        point_truncation(point, api_limit, requested_minutes, departures, now) matches Some(t) ==> (
        t.count == api_limit && t.boarding_point_name == point.name && t.requested_minutes
            == requested_minutes),
{
}

fn point_lists_stop(point: &BoardingPoint, stop: &String) -> (r: bool)
    ensures
        r == lists_stop(*point, stop@),
{
    let mut k: usize = 0;
    while k < point.stop_ids.len()
        invariant
            k <= point.stop_ids@.len(),
            forall|x: int| 0 <= x < k ==> (#[trigger] point.stop_ids@[x])@ != stop@,
        decreases point.stop_ids@.len() - k,
    {
        if point.stop_ids[k] == *stop {
            return true;
        }
        k = k + 1;
    }
    false
}

fn truncation_of(
    point: &BoardingPoint,
    api_limit: usize,
    requested_minutes: u32,
    departures: &Vec<Departure>,
    now: &UtcTime,
) -> (r: Option<ApiLimitTruncation>)
    requires
        departures_wf(departures@),
        now.wf(),
    ensures
        r == point_truncation(*point, api_limit, requested_minutes, departures@, *now),
{
    let mut count: usize = 0;
    let mut latest: Option<UtcTime> = None;
    let mut i: usize = 0;
    while i < departures.len()
        invariant
            i <= departures@.len(),
            departures_wf(departures@),
            count == point_count(*point, departures@, i as int),
            count <= i,
            latest == point_latest(*point, departures@, i as int),
            latest matches Some(t) ==> t.wf(),
        decreases departures@.len() - i,
    {
        let departure = &departures[i];
        assert(departure.wf());
        if point_lists_stop(point, &departure.stop_id) {
            count = count + 1;
            let at = departure.effective_at();
            latest = match latest {
                Some(t) => if at.is_before(&t) {
                    Some(t)
                } else {
                    Some(at)
                },
                None => Some(at),
            };
        }
        i = i + 1;
    }
    if count != 0 && count == api_limit {
        let covered: i64 = match latest {
            Some(t) => {
                let minutes = seconds_between(&t, now) / 60;
                if minutes > 0 {
                    minutes
                } else {
                    0
                }
            },
            None => 0,
        };
        Some(
            ApiLimitTruncation {
                boarding_point_name: point.name.clone(),
                count,
                covered_minutes: covered,
                requested_minutes,
            },
        )
    } else {
        None
    }
}

/// Reports each boarding point whose departures number exactly the API
/// limit, with how far ahead its last departure reaches.
pub fn api_limit_warnings(config: &Config, departures: &Vec<Departure>, generated_at: &UtcTime) -> (r:
    Vec<ApiLimitTruncation>)
    requires
        departures_wf(departures@),
        generated_at.wf(),
    ensures
        r@ == api_limit_truncations(
            *config,
            departures@,
            *generated_at,
            config.boarding_points@.len() as int,
        ),
{
    let mut out: Vec<ApiLimitTruncation> = Vec::new();
    let mut p: usize = 0;
    while p < config.boarding_points.len()
        invariant
            p <= config.boarding_points@.len(),
            departures_wf(departures@),
            generated_at.wf(),
            out@ == api_limit_truncations(*config, departures@, *generated_at, p as int),
        decreases config.boarding_points@.len() - p,
    {
        match truncation_of(
            &config.boarding_points[p],
            config.fetch.api_limit,
            config.fetch.minutes_after,
            departures,
            generated_at,
        ) {
            Some(t) => out.push(t),
            None => {},
        }
        p = p + 1;
    }
    out
}

/// The message of a truncation report.
pub open spec fn truncation_message(t: ApiLimitTruncation) -> Seq<char> {
    debug_quoted(t.boarding_point_name@) + " hit the "@ + decimal(t.count as nat)
        + "-departure API limit, covering only the next "@ + signed_decimal(
        t.covered_minutes as int,
    ) + " of "@ + decimal(t.requested_minutes as nat)
        + " requested minutes; matching departures beyond that are not visible"@
}

impl ApiLimitTruncation {
    /// The warning shown for this report.
    pub fn to_string(&self) -> (r: String)
        ensures
            r@ == truncation_message(*self),
    {
        let mut s = debug_quote(self.boarding_point_name.as_str());
        push_str(&mut s, " hit the ");
        push_decimal(&mut s, self.count as u64);
        push_str(&mut s, "-departure API limit, covering only the next ");
        push_signed_decimal(&mut s, self.covered_minutes);
        push_str(&mut s, " of ");
        push_decimal(&mut s, self.requested_minutes as u64);
        push_str(&mut s, " requested minutes; matching departures beyond that are not visible");
        s
    }
}

/// A successful live response replaces the cached snapshot only when it
/// holds at least one departure.
pub fn should_replace_cache(live: &Vec<Departure>) -> (r: bool)
    ensures
        r == (live@.len() > 0),
{
    live.len() > 0
}

/// The effective time of the last of the departures, if any.
pub open spec fn last_effective(shown: Seq<SelectedDeparture>) -> Option<UtcTime> {
    if shown.len() == 0 {
        None
    } else {
        Some(shown.last().departure.effective())
    }
}

/// Select departures and cancellation notes from the source, at
/// `generated_at`: live data is fresh, cached data is stale and keeps its
/// fetch time; when fresh data leaves the selection short of `limit`, boarding
/// points whose group hit the API limit are reported.
pub fn finish_query(config: &Config, limit: usize, generated_at: UtcTime, source: DepartureSource) -> (r:
    DepartureQuery)
    requires
        generated_at.wf(),
        match source {
            DepartureSource::Live(ds) => departures_wf(ds@),
            DepartureSource::Cached { fetched_at, departures } => departures_wf(departures@),
        },
    ensures
        ({
            let (ds, updated, stale) = match source {
                DepartureSource::Live(ds) => (ds@, generated_at, false),
                DepartureSource::Cached { fetched_at, departures } => (
                    departures@,
                    fetched_at,
                    true,
                ),
            };
            let shown = selected_departures(
                *config,
                ds,
                generated_at,
                SelectionOptions { limit, include_unreachable: false },
            );
            &&& r.generated_at == generated_at
            &&& r.data_updated_at == updated
            &&& r.stale == stale
            &&& r.departures@ == shown
            &&& r.cancelled@ == selected_cancellations(
                *config,
                ds,
                generated_at,
                limit,
                last_effective(shown),
            )
            &&& r.truncations@ == if !stale && shown.len() < limit {
                api_limit_truncations(*config, ds, generated_at, config.boarding_points@.len() as int)
            } else {
                Seq::<ApiLimitTruncation>::empty()
            }
        }),
{
    let (departures, data_updated_at, stale) = match source {
        DepartureSource::Live(ds) => (ds, generated_at, false),
        DepartureSource::Cached { fetched_at, departures } => (departures, fetched_at, true),
    };
    let shown = select_departures(
        config,
        departures.as_slice(),
        generated_at,
        SelectionOptions { limit, include_unreachable: false },
    );
    let cutoff = if shown.len() == 0 {
        None
    } else {
        Some(shown[shown.len() - 1].departure.effective_at())
    };
    proof {
        if shown@.len() > 0 {
            crate::selection_laws::law_selected_are_served_departures(
                *config,
                departures@,
                generated_at,
                SelectionOptions { limit, include_unreachable: false },
            );
            let i = shown@.len() - 1;
            let k = choose|k: int|
                0 <= k < departures@.len() && !departures@[k].is_cancelled && (
                crate::selection::candidate_for(*config, departures@[k], generated_at) matches Some(
                    c,
                ) && c.selected == #[trigger] shown@[i] && (false || c.selected.reachable));
            assert(departures@[k].wf());
            crate::selection_laws::lemma_candidate_departure(*config, departures@[k], generated_at);
        }
    }
    let cancelled = select_cancellations(config, departures.as_slice(), generated_at, limit, cutoff);
    let truncations = if !stale && shown.len() < limit {
        api_limit_warnings(config, &departures, &generated_at)
    } else {
        Vec::new()
    };
    DepartureQuery {
        generated_at,
        data_updated_at,
        stale,
        departures: shown,
        cancelled,
        truncations,
    }
}

} // verus!
