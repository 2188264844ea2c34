//! Matching, ranking, de-duplication and quota-aware limiting of departures.

use vstd::prelude::*;

use crate::config::{BoardingPoint, Config, RouteQuota};
use crate::departure::{copy_departure, Departure};
use vstd::pervasive::VecAdditionalExecFns;

use crate::time::{seconds_between, whole_seconds_between, UtcTime};

verus! {

/// How many results to keep, and whether unreachable ones count.
#[derive(Debug, Clone, Copy, PartialEq, Eq)]
pub struct SelectionOptions {
    pub limit: usize,
    pub include_unreachable: bool,
}

/// A departure enriched with the configured journey to its boarding point.
#[derive(Debug, Clone, PartialEq, Eq)]
pub struct SelectedDeparture {
    pub departure: Departure,
    pub boarding_point_name: String,
    pub walking_minutes: u32,
    pub safety_buffer_minutes: u32,
    pub departs_in_seconds: i64,
    pub leave_in_seconds: i64,
    pub reachable: bool,
}

/// A selected departure together with the position of its boarding point in
/// the configuration, which breaks ties between otherwise equal options.
#[derive(Debug)]
pub struct Candidate {
    pub selected: SelectedDeparture,
    pub configuration_order: usize,
}

/// Whole minutes in `seconds`, rounded down (toward negative infinity).
pub open spec fn floor_minutes_of(seconds: int) -> int {
    seconds / 60
}

/// `seconds` divided by sixty, rounded down.
pub fn floor_minutes(seconds: i64) -> (r: i64)
    ensures
        r == floor_minutes_of(seconds as int),
{
    if seconds >= 0 {
        seconds / 60
    } else {
        let magnitude: i128 = -(seconds as i128);
        let up: i128 = (magnitude + 59) / 60;
        assert(-up == (seconds as int) / 60) by (nonlinear_arith)
            requires
                magnitude == -(seconds as int),
                magnitude > 0,
                up == (magnitude + 59) / 60,
        ;
        (-up) as i64
    }
}

impl SelectedDeparture {
    /// Minutes until the departure, rounded down so that it never
    /// overpromises.
    pub fn departs_in_minutes(&self) -> (r: i64)
        ensures
            r == floor_minutes_of(self.departs_in_seconds as int),
    {
        floor_minutes(self.departs_in_seconds)
    }

    /// Minutes until one has to leave, rounded down.
    pub fn leave_in_minutes(&self) -> (r: i64)
        ensures
            r == floor_minutes_of(self.leave_in_seconds as int),
    {
        floor_minutes(self.leave_in_seconds)
    }

    /// The instant one has to leave: the departure's expected time less the
    /// walk and the safety buffer.
    pub open spec fn leave_instant(self) -> UtcTime {
        UtcTime {
            seconds: (self.departure.effective().seconds - (self.walking_minutes
                + self.safety_buffer_minutes) * 60) as i64,
            nanos: self.departure.effective().nanos,
        }
    }

    /// The instant one has to leave, for a departure whose time is
    /// well-formed.
    pub fn leave_at(&self) -> (r: UtcTime)
        requires
            self.departure.effective().wf(),
        ensures
            r == self.leave_instant(),
    {
        let at = self.departure.effective_at();
        let journey: i64 = (self.walking_minutes as i64 + self.safety_buffer_minutes as i64) * 60;
        UtcTime { seconds: at.seconds - journey, nanos: at.nanos }
    }
}

/// Seconds needed to walk to a boarding point, safety buffer included.
pub open spec fn journey_seconds(point: BoardingPoint) -> int {
    (point.walking_minutes + point.safety_buffer_minutes) * 60
}

/// The boarding point serves the departure: one of its stop IDs is the
/// departure's stop, and one of its routes is the departure's line toward its
/// headsign.
pub open spec fn serves(point: BoardingPoint, departure: Departure) -> bool {
    &&& exists|k: int|
        0 <= k < point.stop_ids@.len() && (#[trigger] point.stop_ids@[k])@ == departure.stop_id@
    &&& exists|j: int|
        0 <= j < point.routes@.len() && (#[trigger] point.routes@[j]).line@ == departure.line@
            && point.routes@[j].headsign@ == departure.headsign@
}

/// The first boarding point at position `from` or later that serves the
/// departure.
pub open spec fn first_serving_point(
    points: Seq<BoardingPoint>,
    departure: Departure,
    from: nat,
) -> Option<nat>
    decreases points.len() - from,
{
    if from >= points.len() {
        None
    } else if serves(points[from as int], departure) {
        Some(from)
    } else {
        first_serving_point(points, departure, from + 1)
    }
}

/// The departure seen from a boarding point at time `now`.
pub open spec fn selected_at(
    departure: Departure,
    point: BoardingPoint,
    now: UtcTime,
) -> SelectedDeparture {
    let departs = whole_seconds_between(departure.effective(), now);
    let leave = departs - journey_seconds(point);
    SelectedDeparture {
        departure: departure,
        boarding_point_name: point.name,
        walking_minutes: point.walking_minutes,
        safety_buffer_minutes: point.safety_buffer_minutes,
        departs_in_seconds: departs as i64,
        leave_in_seconds: leave as i64,
        reachable: leave >= 0,
    }
}

/// The candidate a departure gives at the first boarding point serving it.
pub open spec fn candidate_for(config: Config, departure: Departure, now: UtcTime) -> Option<
    Candidate,
> {
    match first_serving_point(config.boarding_points@, departure, 0) {
        Some(i) => Some(
            Candidate {
                selected: selected_at(departure, config.boarding_points@[i as int], now),
                configuration_order: i as usize,
            },
        ),
        None => None,
    }
}

/// The candidates of the departures, in their order: departures that are not
/// cancelled and that a boarding point serves, reachable ones only unless
/// `include_unreachable`.
pub open spec fn candidates(
    config: Config,
    departures: Seq<Departure>,
    now: UtcTime,
    include_unreachable: bool,
) -> Seq<Candidate>
    decreases departures.len(),
{
    if departures.len() == 0 {
        seq![]
    } else {
        let rest = candidates(config, departures.drop_last(), now, include_unreachable);
        let departure = departures.last();
        if departure.is_cancelled {
            rest
        } else {
            match candidate_for(config, departure, now) {
                Some(c) => if include_unreachable || c.selected.reachable {
                    rest.push(c)
                } else {
                    rest
                },
                None => rest,
            }
        }
    }
}

/// The stop IDs of every boarding point, and every departure time, are
/// such that the arithmetic of selection stays in range.
pub open spec fn departures_wf(departures: Seq<Departure>) -> bool {
    forall|i: int| 0 <= i < departures.len() ==> (#[trigger] departures[i]).wf()
}

fn point_serves(point: &BoardingPoint, departure: &Departure) -> (r: bool)
    ensures
        r == serves(*point, *departure),
{
    let mut has_stop = false;
    let mut k: usize = 0;
    while k < point.stop_ids.len()
        invariant
            k <= point.stop_ids@.len(),
            has_stop == exists|x: int|
                0 <= x < k && (#[trigger] point.stop_ids@[x])@ == departure.stop_id@,
        decreases point.stop_ids@.len() - k,
    {
        if point.stop_ids[k] == departure.stop_id {
            has_stop = true;
        }
        k = k + 1;
    }
    if !has_stop {
        return false;
    }
    let mut has_route = false;
    let mut j: usize = 0;
    while j < point.routes.len()
        invariant
            j <= point.routes@.len(),
            has_route == exists|x: int|
                0 <= x < j && (#[trigger] point.routes@[x]).line@ == departure.line@
                    && point.routes@[x].headsign@ == departure.headsign@,
        decreases point.routes@.len() - j,
    {
        let route = &point.routes[j];
        if route.line == departure.line && route.headsign == departure.headsign {
            has_route = true;
        }
        j = j + 1;
    }
    has_route
}

fn matching_point(config: &Config, departure: &Departure) -> (r: Option<usize>)
    ensures
        r matches Some(i) ==> i < config.boarding_points@.len(),
        r matches Some(i) ==> first_serving_point(config.boarding_points@, *departure, 0) == Some(
            i as nat,
        ),
        r is None ==> first_serving_point(config.boarding_points@, *departure, 0) is None,
{
    let mut i: usize = 0;
    while i < config.boarding_points.len()
        invariant
            i <= config.boarding_points@.len(),
            first_serving_point(config.boarding_points@, *departure, 0) == first_serving_point(
                config.boarding_points@,
                *departure,
                i as nat,
            ),
        decreases config.boarding_points@.len() - i,
    {
        if point_serves(&config.boarding_points[i], departure) {
            return Some(i);
        }
        i = i + 1;
    }
    None
}

fn candidate(
    departure: &Departure,
    point: &BoardingPoint,
    configuration_order: usize,
    now: &UtcTime,
) -> (r: Candidate)
    requires
        departure.wf(),
        now.wf(),
    ensures
        r == (Candidate {
            selected: selected_at(*departure, *point, *now),
            configuration_order,
        }),
{
    let departs_in_seconds = seconds_between(&departure.effective_at(), now);
    let journey_seconds = (point.walking_minutes as i64 + point.safety_buffer_minutes as i64)
        * 60;
    let leave_in_seconds = departs_in_seconds - journey_seconds;
    Candidate {
        selected: SelectedDeparture {
            departure: copy_departure(departure),
            boarding_point_name: point.name.clone(),
            walking_minutes: point.walking_minutes,
            safety_buffer_minutes: point.safety_buffer_minutes,
            departs_in_seconds,
            leave_in_seconds,
            reachable: leave_in_seconds >= 0,
        },
        configuration_order,
    }
}

fn collect_candidates(config: &Config, departures: &[Departure], now: &UtcTime, options: SelectionOptions) -> (r: Vec<Candidate>)
    requires
        departures_wf(departures@),
        now.wf(),
    ensures
        r@ == candidates(*config, departures@, *now, options.include_unreachable),
        candidates_wf(r@),
{
    let mut out: Vec<Candidate> = Vec::new();
    let mut i: usize = 0;
    while i < departures.len()
        invariant
            i <= departures@.len(),
            departures_wf(departures@),
            now.wf(),
            out@ == candidates(*config, departures@.take(i as int), *now, options.include_unreachable),
            candidates_wf(out@),
        decreases departures@.len() - i,
    {
        let departure = &departures[i];
        assert(departures@.take(i + 1).drop_last() =~= departures@.take(i as int));
        assert(departures@.take(i + 1).last() == departures@[i as int]);
        assert(departure.wf());
        if !departure.is_cancelled {
            match matching_point(config, departure) {
                Some(p) => {
                    let c = candidate(departure, &config.boarding_points[p], p, now);
                    if options.include_unreachable || c.selected.reachable {
                        out.push(c);
                    }
                },
                None => {},
            }
        }
        i = i + 1;
    }
    assert(departures@.take(departures@.len() as int) =~= departures@);
    out
}


/// Every candidate's departure has well-formed times.
pub open spec fn candidates_wf(s: Seq<Candidate>) -> bool {
    forall|i: int| 0 <= i < s.len() ==> (#[trigger] s[i]).selected.departure.wf()
}

/// The nanosecond instant at which a candidate departs.
pub open spec fn departs_at(c: Candidate) -> int {
    c.selected.departure.effective().total_nanos()
}

/// De-duplication order between two options for one trip: more time to
/// leave first, then the earlier departure, then the earlier boarding point.
pub open spec fn dedup_precedes(a: Candidate, b: Candidate) -> bool {
    ||| a.selected.leave_in_seconds > b.selected.leave_in_seconds
    ||| a.selected.leave_in_seconds == b.selected.leave_in_seconds && departs_at(a) < departs_at(b)
    ||| a.selected.leave_in_seconds == b.selected.leave_in_seconds && departs_at(a) == departs_at(b)
        && a.configuration_order < b.configuration_order
}

/// The first position at or after `from` whose candidate belongs to `trip`.
pub open spec fn trip_position(s: Seq<Candidate>, trip: Seq<char>, from: nat) -> Option<nat>
    decreases s.len() - from,
{
    if from >= s.len() {
        None
    } else if s[from as int].selected.departure.trip_id@ == trip {
        Some(from)
    } else {
        trip_position(s, trip, from + 1)
    }
}

/// Adds one candidate to a de-duplicated list: a candidate without a trip ID
/// is appended; one whose trip is already listed replaces the listed option
/// only when it precedes it; any other is appended.
pub open spec fn dedup_step(acc: Seq<Candidate>, c: Candidate) -> Seq<Candidate> {
    let trip = c.selected.departure.trip_id@;
    if trip.len() == 0 {
        acc.push(c)
    } else {
        match trip_position(acc, trip, 0) {
            Some(i) => if dedup_precedes(c, acc[i as int]) {
                acc.update(i as int, c)
            } else {
                acc
            },
            None => acc.push(c),
        }
    }
}

/// The candidates with each trip kept once.
pub open spec fn deduplicated(s: Seq<Candidate>) -> Seq<Candidate>
    decreases s.len(),
{
    if s.len() == 0 {
        seq![]
    } else {
        dedup_step(deduplicated(s.drop_last()), s.last())
    }
}

/// Ranking order: the earlier departure first, then more time to leave, then
/// the earlier boarding point.
pub open spec fn ranks_before(a: Candidate, b: Candidate) -> bool {
    ||| departs_at(a) < departs_at(b)
    ||| departs_at(a) == departs_at(b) && a.selected.leave_in_seconds > b.selected.leave_in_seconds
    ||| departs_at(a) == departs_at(b) && a.selected.leave_in_seconds == b.selected.leave_in_seconds
        && a.configuration_order < b.configuration_order
}

/// Where a candidate goes in a ranked list: before the first entry it ranks
/// before, at or after `from`; at the end when there is none.
pub open spec fn insert_position(sorted: Seq<Candidate>, c: Candidate, from: nat) -> nat
    decreases sorted.len() - from,
{
    if from >= sorted.len() {
        sorted.len()
    } else if ranks_before(c, sorted[from as int]) {
        from
    } else {
        insert_position(sorted, c, from + 1)
    }
}

/// The candidates in ranking order; equally ranked candidates keep their
/// relative order (a stable sort).
pub open spec fn ranked(s: Seq<Candidate>) -> Seq<Candidate>
    decreases s.len(),
{
    if s.len() == 0 {
        seq![]
    } else {
        let sorted = ranked(s.drop_last());
        sorted.insert(insert_position(sorted, s.last(), 0) as int, s.last())
    }
}

fn dedup_key_precedes(a: &Candidate, b: &Candidate) -> (r: bool)
    requires
        a.selected.departure.wf(),
        b.selected.departure.wf(),
    ensures
        r == dedup_precedes(*a, *b),
{
    let ta = a.selected.departure.effective_at();
    let tb = b.selected.departure.effective_at();
    let la = a.selected.leave_in_seconds;
    let lb = b.selected.leave_in_seconds;
    la > lb || (la == lb && ta.is_before(&tb)) || (la == lb && ta.same_instant(&tb)
        && a.configuration_order < b.configuration_order)
}

fn rank_precedes(a: &Candidate, b: &Candidate) -> (r: bool)
    requires
        a.selected.departure.wf(),
        b.selected.departure.wf(),
    ensures
        r == ranks_before(*a, *b),
{
    let ta = a.selected.departure.effective_at();
    let tb = b.selected.departure.effective_at();
    let la = a.selected.leave_in_seconds;
    let lb = b.selected.leave_in_seconds;
    ta.is_before(&tb) || (ta.same_instant(&tb) && la > lb) || (ta.same_instant(&tb) && la == lb
        && a.configuration_order < b.configuration_order)
}

fn find_trip(list: &Vec<Candidate>, trip: &String) -> (r: Option<usize>)
    ensures
        r matches Some(i) ==> i < list@.len() && trip_position(list@, trip@, 0) == Some(i as nat),
        r is None ==> trip_position(list@, trip@, 0) is None,
{
    let mut i: usize = 0;
    while i < list.len()
        invariant
            i <= list@.len(),
            trip_position(list@, trip@, 0) == trip_position(list@, trip@, i as nat),
        decreases list@.len() - i,
    {
        if list[i].selected.departure.trip_id == *trip {
            return Some(i);
        }
        i = i + 1;
    }
    None
}

fn deduplicate(candidates: Vec<Candidate>) -> (r: Vec<Candidate>)
    requires
        candidates_wf(candidates@),
    ensures
        r@ == deduplicated(candidates@),
        candidates_wf(r@),
{
    let ghost all = candidates@;
    let mut rest = candidates;
    let mut out: Vec<Candidate> = Vec::new();
    let ghost mut done: int = 0;
    while rest.len() > 0
        invariant
            0 <= done <= all.len(),
            rest@ == all.skip(done),
            out@ == deduplicated(all.take(done)),
            candidates_wf(all),
            candidates_wf(out@),
        decreases rest@.len(),
    {
        let c = rest.remove(0);
        proof {
            assert(c == all[done]);
            assert(all.take(done + 1).drop_last() =~= all.take(done));
            assert(all.take(done + 1).last() == all[done]);
            assert(rest@ =~= all.skip(done + 1));
            done = done + 1;
        }
        if c.selected.departure.trip_id.as_str().is_empty() {
            out.push(c);
        } else {
            match find_trip(&out, &c.selected.departure.trip_id) {
                Some(i) => {
                    if dedup_key_precedes(&c, &out[i]) {
                        out.set(i, c);
                    }
                },
                None => {
                    out.push(c);
                },
            }
        }
    }
    assert(all.take(all.len() as int) =~= all);
    out
}

fn rank(candidates: Vec<Candidate>) -> (r: Vec<Candidate>)
    requires
        candidates_wf(candidates@),
    ensures
        r@ == ranked(candidates@),
        candidates_wf(r@),
{
    let ghost all = candidates@;
    let mut rest = candidates;
    let mut out: Vec<Candidate> = Vec::new();
    let ghost mut done: int = 0;
    while rest.len() > 0
        invariant
            0 <= done <= all.len(),
            rest@ == all.skip(done),
            out@ == ranked(all.take(done)),
            candidates_wf(all),
            candidates_wf(out@),
        decreases rest@.len(),
    {
        let c = rest.remove(0);
        proof {
            assert(c == all[done]);
            assert(all.take(done + 1).drop_last() =~= all.take(done));
            assert(all.take(done + 1).last() == all[done]);
            assert(rest@ =~= all.skip(done + 1));
        }
        let mut p: usize = 0;
        while p < out.len() && !rank_precedes(&c, &out[p])
            invariant
                p <= out@.len(),
                candidates_wf(out@),
                c.selected.departure.wf(),
                insert_position(out@, c, 0) == insert_position(out@, c, p as nat),
            decreases out@.len() - p,
        {
            p = p + 1;
        }
        let ghost before = out@;
        out.insert(p, c);
        proof {
            done = done + 1;
            assert forall|i: int| 0 <= i < out@.len() implies (#[trigger] out@[i]).selected.departure.wf() by {
                if i < p { } else if i == p { } else { assert(out@[i] == before[i - 1]); }
            }
        }
    }
    assert(all.take(all.len() as int) =~= all);
    out
}

/// The quota is for the departure's line toward its headsign.
pub open spec fn quota_serves(quota: RouteQuota, departure: Departure) -> bool {
    quota.line@ == departure.line@ && quota.headsign@ == departure.headsign@
}

/// The candidate at position `i` is for `line` toward `headsign`.
pub open spec fn on_route(s: Seq<Candidate>, i: int, line: Seq<char>, headsign: Seq<char>) -> bool {
    s[i].selected.departure.line@ == line && s[i].selected.departure.headsign@ == headsign
}

/// How many of the first `i` candidates are for `line` toward `headsign`.
pub open spec fn count_route_before(
    s: Seq<Candidate>,
    line: Seq<char>,
    headsign: Seq<char>,
    i: int,
) -> nat
    decreases i,
{
    if i <= 0 {
        0
    } else {
        count_route_before(s, line, headsign, i - 1) + if on_route(s, i - 1, line, headsign) {
            1nat
        } else {
            0nat
        }
    }
}

/// How many earlier candidates share the route of the candidate at `i`:
/// 0 for its route's first candidate, 1 for the second, and so on.
pub open spec fn route_rank(s: Seq<Candidate>, i: int) -> nat {
    count_route_before(
        s,
        s[i].selected.departure.line@,
        s[i].selected.departure.headsign@,
        i,
    )
}

/// The candidate at `i` is reserved in allocation round `round`: it is its
/// route's `round`-th candidate (from 0), and some quota for that route asks
/// for more than `round` departures.
pub open spec fn in_round(quotas: Seq<RouteQuota>, s: Seq<Candidate>, i: int, round: nat) -> bool {
    &&& route_rank(s, i) == round
    &&& exists|q: int|
        0 <= q < quotas.len() && quota_serves(#[trigger] quotas[q], s[i].selected.departure)
            && round < quotas[q].minimum_departures
}

/// The positions below `n` reserved in round `round`, in increasing order.
pub open spec fn round_members(quotas: Seq<RouteQuota>, s: Seq<Candidate>, round: nat, n: int) -> Seq<
    int,
>
    decreases n,
{
    if n <= 0 {
        seq![]
    } else {
        let earlier = round_members(quotas, s, round, n - 1);
        if in_round(quotas, s, n - 1, round) {
            earlier.push(n - 1)
        } else {
            earlier
        }
    }
}

/// The positions reserved in the first `rounds` rounds, round by round and
/// in increasing position within a round.
pub open spec fn reservation_order(quotas: Seq<RouteQuota>, s: Seq<Candidate>, rounds: nat) -> Seq<
    int,
>
    decreases rounds,
{
    if rounds == 0 {
        seq![]
    } else {
        reservation_order(quotas, s, (rounds - 1) as nat) + round_members(
            quotas,
            s,
            (rounds - 1) as nat,
            s.len() as int,
        )
    }
}

/// The largest minimum of any quota (0 without quotas): the number of
/// allocation rounds.
pub open spec fn max_minimum(quotas: Seq<RouteQuota>) -> nat
    decreases quotas.len(),
{
    if quotas.len() == 0 {
        0
    } else {
        let rest = max_minimum(quotas.drop_last());
        if quotas.last().minimum_departures > rest {
            quotas.last().minimum_departures as nat
        } else {
            rest
        }
    }
}

/// The reserved positions that fit into `limit` slots: the first `limit` of
/// the reservation order.
pub open spec fn reserved(quotas: Seq<RouteQuota>, s: Seq<Candidate>, limit: nat) -> Seq<int> {
    let order = reservation_order(quotas, s, max_minimum(quotas));
    if order.len() <= limit {
        order
    } else {
        order.take(limit as int)
    }
}

/// How many positions below `i` are not in `res`.
pub open spec fn unreserved_before(res: Seq<int>, i: int) -> nat
    decreases i,
{
    if i <= 0 {
        0
    } else {
        unreserved_before(res, i - 1) + if res.contains(i - 1) {
            0nat
        } else {
            1nat
        }
    }
}

/// Whether the candidate at `i` is kept: it holds a reserved slot, or it is
/// among the earliest others that fill the slots left under `limit`.
pub open spec fn keeps(quotas: Seq<RouteQuota>, s: Seq<Candidate>, limit: nat, i: int) -> bool {
    let res = reserved(quotas, s, limit);
    res.contains(i) || unreserved_before(res, i) + res.len() < limit
}

/// The selected departures of the candidates whose flag is set, in order.
pub open spec fn kept(s: Seq<Candidate>, keep: Seq<bool>, n: int) -> Seq<SelectedDeparture>
    decreases n,
{
    if n <= 0 {
        seq![]
    } else {
        let earlier = kept(s, keep, n - 1);
        if keep[n - 1] {
            earlier.push(s[n - 1].selected)
        } else {
            earlier
        }
    }
}

/// The ranked, de-duplicated candidates of the departures.
pub open spec fn ranked_candidates(
    config: Config,
    departures: Seq<Departure>,
    now: UtcTime,
    include_unreachable: bool,
) -> Seq<Candidate> {
    ranked(deduplicated(candidates(config, departures, now, include_unreachable)))
}

/// What `select_departures` returns: the kept ranked candidates.
pub open spec fn selected_departures(
    config: Config,
    departures: Seq<Departure>,
    now: UtcTime,
    options: SelectionOptions,
) -> Seq<SelectedDeparture> {
    let s = ranked_candidates(config, departures, now, options.include_unreachable);
    let quotas = config.display.route_quotas@;
    kept(s, Seq::new(s.len(), |i: int| keeps(quotas, s, options.limit as nat, i)), s.len() as int)
}

pub(crate) proof fn lemma_count_route_monotone(
    s: Seq<Candidate>,
    line: Seq<char>,
    headsign: Seq<char>,
    i: int,
    j: int,
)
    requires
        0 <= i <= j <= s.len(),
    ensures
        count_route_before(s, line, headsign, i) <= count_route_before(s, line, headsign, j),
        i < j && on_route(s, i, line, headsign) ==> count_route_before(s, line, headsign, i)
            < count_route_before(s, line, headsign, j),
    decreases j - i,
{
    if i < j {
        lemma_count_route_monotone(s, line, headsign, i, j - 1);
        if i == j - 1 {
        }
    }
}

pub(crate) proof fn lemma_round_members(quotas: Seq<RouteQuota>, s: Seq<Candidate>, round: nat, n: int)
    ensures
        forall|x: int|
            #![trigger round_members(quotas, s, round, n).contains(x)]
            round_members(quotas, s, round, n).contains(x) <==> (0 <= x < n && in_round(
                quotas,
                s,
                x,
                round,
            )),
        forall|a: int, b: int|
            0 <= a < b < round_members(quotas, s, round, n).len() ==> round_members(
                quotas,
                s,
                round,
                n,
            )[a] < round_members(quotas, s, round, n)[b],
        forall|x: int|
            0 <= x < round_members(quotas, s, round, n).len() ==> round_members(
                quotas,
                s,
                round,
                n,
            )[x] < n,
    decreases n,
{
    if n > 0 {
        lemma_round_members(quotas, s, round, n - 1);
        let earlier = round_members(quotas, s, round, n - 1);
        let all = round_members(quotas, s, round, n);
        if in_round(quotas, s, n - 1, round) {
            assert(all == earlier.push(n - 1));
            assert forall|x: int| #[trigger] all.contains(x) <==> (0 <= x < n && in_round(
                quotas,
                s,
                x,
                round,
            )) by {
                if all.contains(x) {
                    let k = choose|k: int| 0 <= k < all.len() && all[k] == x;
                    if k < earlier.len() {
                        assert(earlier.contains(x));
                    }
                }
                if 0 <= x < n - 1 && in_round(quotas, s, x, round) {
                    assert(earlier.contains(x));
                    let k = choose|k: int| 0 <= k < earlier.len() && earlier[k] == x;
                    assert(all[k] == x);
                }
                if x == n - 1 {
                    assert(all[all.len() - 1] == x);
                }
            }
        }
    }
}

proof fn lemma_round_members_prefix(
    quotas: Seq<RouteQuota>,
    s: Seq<Candidate>,
    round: nat,
    i: int,
    m: int,
)
    requires
        0 <= i <= m,
    ensures
        round_members(quotas, s, round, i).len() <= round_members(quotas, s, round, m).len(),
        round_members(quotas, s, round, m).take(round_members(quotas, s, round, i).len() as int)
            =~= round_members(quotas, s, round, i),
    decreases m - i,
{
    if i < m {
        lemma_round_members_prefix(quotas, s, round, i, m - 1);
    }
}

pub(crate) proof fn lemma_reservation_order(quotas: Seq<RouteQuota>, s: Seq<Candidate>, rounds: nat)
    ensures
        forall|x: int|
            #![trigger reservation_order(quotas, s, rounds).contains(x)]
            reservation_order(quotas, s, rounds).contains(x) ==> 0 <= x < s.len()
                && route_rank(s, x) < rounds && in_round(quotas, s, x, route_rank(s, x)),
        reservation_order(quotas, s, rounds).no_duplicates(),
    decreases rounds,
{
    if rounds > 0 {
        let r = (rounds - 1) as nat;
        lemma_reservation_order(quotas, s, r);
        lemma_round_members(quotas, s, r, s.len() as int);
        let a = reservation_order(quotas, s, r);
        let b = round_members(quotas, s, r, s.len() as int);
        assert forall|x: int| #[trigger] (a + b).contains(x) implies 0 <= x < s.len()
            && route_rank(s, x) < rounds && in_round(quotas, s, x, route_rank(s, x)) by {
            let k = choose|k: int| 0 <= k < (a + b).len() && (a + b)[k] == x;
            if k < a.len() {
                assert(a.contains(x));
            } else {
                assert(b[k - a.len()] == x);
                assert(b.contains(x));
            }
        }
        assert forall|p: int, q: int|
            0 <= p < (a + b).len() && 0 <= q < (a + b).len() && p != q implies (a + b)[p] != (a
                + b)[q] by {
            if p < a.len() && q < a.len() {
            } else if p >= a.len() && q >= a.len() {
                assert(b.contains(b[p - a.len()]));
                if p < q {
                    assert(b[p - a.len()] < b[q - a.len()]);
                } else {
                    assert(b[q - a.len()] < b[p - a.len()]);
                }
            } else if p < a.len() {
                assert(a.contains(a[p]));
                assert(b.contains(b[q - a.len()]));
            } else {
                assert(a.contains(a[q]));
                assert(b.contains(b[p - a.len()]));
            }
        }
    }
}

pub(crate) proof fn lemma_reservation_order_prefix(
    quotas: Seq<RouteQuota>,
    s: Seq<Candidate>,
    a: nat,
    b: nat,
)
    requires
        a <= b,
    ensures
        reservation_order(quotas, s, a).len() <= reservation_order(quotas, s, b).len(),
        reservation_order(quotas, s, b).take(reservation_order(quotas, s, a).len() as int)
            =~= reservation_order(quotas, s, a),
    decreases b - a,
{
    if a < b {
        lemma_reservation_order_prefix(quotas, s, a, (b - 1) as nat);
    }
}

proof fn lemma_unreserved_monotone(res: Seq<int>, i: int, j: int)
    requires
        0 <= i <= j,
    ensures
        unreserved_before(res, i) <= unreserved_before(res, j),
    decreases j - i,
{
    if i < j {
        lemma_unreserved_monotone(res, i, j - 1);
    }
}

fn max_minimum_of(quotas: &Vec<RouteQuota>) -> (r: usize)
    ensures
        r == max_minimum(quotas@),
{
    let mut best: usize = 0;
    let mut i: usize = 0;
    while i < quotas.len()
        invariant
            i <= quotas@.len(),
            best == max_minimum(quotas@.take(i as int)),
        decreases quotas@.len() - i,
    {
        assert(quotas@.take(i + 1).drop_last() =~= quotas@.take(i as int));
        if quotas[i].minimum_departures > best {
            best = quotas[i].minimum_departures;
        }
        i = i + 1;
    }
    assert(quotas@.take(quotas@.len() as int) =~= quotas@);
    best
}

fn quota_matches(quota: &RouteQuota, departure: &Departure) -> (r: bool)
    ensures
        r == quota_serves(*quota, *departure),
{
    quota.line == departure.line && quota.headsign == departure.headsign
}

/// The position of the quota route's `round`-th candidate, if there is one.
fn nth_route_candidate(candidates: &Vec<Candidate>, quota: &RouteQuota, round: usize) -> (r:
    Option<usize>)
    ensures
        r matches Some(i) ==> i < candidates@.len() && quota_serves(
            *quota,
            candidates@[i as int].selected.departure,
        ) && count_route_before(candidates@, quota.line@, quota.headsign@, i as int) == round,
        r is None ==> forall|i: int|
            0 <= i < candidates@.len() && quota_serves(*quota, candidates@[i].selected.departure)
                ==> count_route_before(candidates@, quota.line@, quota.headsign@, i) != round,
{
    let ghost s = candidates@;
    let mut seen: usize = 0;
    let mut j: usize = 0;
    while j < candidates.len()
        invariant
            j <= s.len(),
            s == candidates@,
            seen == count_route_before(s, quota.line@, quota.headsign@, j as int),
            seen <= round,
            forall|i: int|
                0 <= i < j && quota_serves(*quota, s[i].selected.departure) ==> count_route_before(
                    s,
                    quota.line@,
                    quota.headsign@,
                    i,
                ) != round,
        decreases s.len() - j,
    {
        if quota_matches(quota, &candidates[j].selected.departure) {
            if seen == round {
                return Some(j);
            }
            seen = seen + 1;
        }
        j = j + 1;
    }
    proof {
        assert forall|i: int|
            0 <= i < s.len() && quota_serves(*quota, s[i].selected.departure) implies count_route_before(
            s,
            quota.line@,
            quota.headsign@,
            i,
        ) != round by {
        }
    }
    None
}

/// Marks the positions reserved in round `round`.
fn round_marks(quotas: &Vec<RouteQuota>, candidates: &Vec<Candidate>, round: usize) -> (r: Vec<
    bool,
>)
    ensures
        r@.len() == candidates@.len(),
        forall|i: int|
            0 <= i < candidates@.len() ==> #[trigger] r@[i] == in_round(
                quotas@,
                candidates@,
                i,
                round as nat,
            ),
{
    let ghost s = candidates@;
    let ghost qs = quotas@;
    let n = candidates.len();
    let mut marks: Vec<bool> = Vec::new();
    for k in 0..n
        invariant
            marks@.len() == k,
            forall|i: int| 0 <= i < k ==> !#[trigger] marks@[i],
    {
        marks.push(false);
    }
    let mut q: usize = 0;
    while q < quotas.len()
        invariant
            q <= qs.len(),
            s == candidates@,
            qs == quotas@,
            n == s.len(),
            marks@.len() == n,
            forall|i: int|
                0 <= i < n ==> #[trigger] marks@[i] == (exists|x: int|
                    0 <= x < q && quota_serves(#[trigger] qs[x], s[i].selected.departure) && round
                        < qs[x].minimum_departures && route_rank(s, i) == round),
        decreases qs.len() - q,
    {
        let quota = &quotas[q];
        let ghost before = marks@;
        let ghost mut found: Option<usize> = None;
        if round < quota.minimum_departures {
            match nth_route_candidate(candidates, quota, round) {
                Some(i) => {
                    marks.set(i, true);
                    proof {
                        found = Some(i);
                    }
                },
                None => {},
            }
        }
        proof {
            assert forall|i: int| 0 <= i < n implies #[trigger] marks@[i] == (exists|x: int|
                0 <= x < q + 1 && quota_serves(#[trigger] qs[x], s[i].selected.departure) && round
                    < qs[x].minimum_departures && route_rank(s, i) == round) by {
                let qq = qs[q as int];
                let now_here = round < qq.minimum_departures && quota_serves(
                    qq,
                    s[i].selected.departure,
                ) && route_rank(s, i) == round;
                if quota_serves(qq, s[i].selected.departure) {
                    assert(count_route_before(s, qq.line@, qq.headsign@, i) == route_rank(s, i));
                }
                match found {
                    Some(f) => {
                        if f != i && quota_serves(qq, s[i].selected.departure) {
                            if (f as int) < i {
                                lemma_count_route_monotone(s, qq.line@, qq.headsign@, f as int, i);
                            } else {
                                lemma_count_route_monotone(s, qq.line@, qq.headsign@, i, f as int);
                            }
                        }
                        if f == i {
                            assert(count_route_before(s, qq.line@, qq.headsign@, i) == route_rank(
                                s,
                                i,
                            ));
                            assert(now_here);
                        }
                    },
                    None => {},
                }
                if now_here {
                    assert(quota_serves(qs[q as int], s[i].selected.departure));
                }
            }
        }
        q = q + 1;
    }
    marks
}

fn select_candidate_indices(
    quotas: &Vec<RouteQuota>,
    candidates: &Vec<Candidate>,
    limit: usize,
) -> (selected: Vec<bool>)
    ensures
        selected@.len() == candidates@.len(),
        forall|i: int|
            0 <= i < candidates@.len() ==> #[trigger] selected@[i] == keeps(
                quotas@,
                candidates@,
                limit as nat,
                i,
            ),
{
    let ghost s = candidates@;
    let ghost qs = quotas@;
    let n = candidates.len();
    let mut selected: Vec<bool> = Vec::new();
    for k in 0..n
        invariant
            selected@.len() == k,
            forall|i: int| 0 <= i < k ==> !#[trigger] selected@[i],
    {
        selected.push(false);
    }
    let mut selected_count: usize = 0;
    let rounds = max_minimum_of(quotas);
    let ghost full = reservation_order(qs, s, rounds as nat);
    proof {
        lemma_reservation_order(qs, s, rounds as nat);
    }
    let ghost mut order: Seq<int> = seq![];
    let mut round: usize = 0;
    while round < rounds
        invariant
            s == candidates@,
            qs == quotas@,
            n == s.len(),
            selected@.len() == n,
            rounds == max_minimum(qs),
            full == reservation_order(qs, s, rounds as nat),
            round <= rounds,
            order == reservation_order(qs, s, round as nat),
            selected_count == order.len(),
            selected_count <= limit,
            forall|i: int| 0 <= i < n ==> #[trigger] selected@[i] == order.contains(i),
        decreases rounds - round,
    {
        let marks = round_marks(quotas, candidates, round);
        proof {
            lemma_reservation_order(qs, s, round as nat);
            lemma_round_members(qs, s, round as nat, n as int);
        }
        let mut i: usize = 0;
        while i < n
            invariant
                s == candidates@,
                qs == quotas@,
                n == s.len(),
                marks@.len() == n,
                forall|x: int|
                    0 <= x < n ==> #[trigger] marks@[x] == in_round(qs, s, x, round as nat),
                selected@.len() == n,
                rounds == max_minimum(qs),
                full == reservation_order(qs, s, rounds as nat),
                round < rounds,
                order == reservation_order(qs, s, round as nat),
                i <= n,
                selected_count == order.len() + round_members(qs, s, round as nat, i as int).len(),
                selected_count <= limit,
                forall|x: int|
                    0 <= x < n ==> #[trigger] selected@[x] == (order + round_members(
                        qs,
                        s,
                        round as nat,
                        i as int,
                    )).contains(x),
            decreases n - i,
        {
            let ghost cur = order + round_members(qs, s, round as nat, i as int);
            proof {
                lemma_round_members(qs, s, round as nat, i as int);
                lemma_round_members(qs, s, round as nat, i + 1);
                lemma_reservation_order(qs, s, round as nat);
                assert(round_members(qs, s, round as nat, i + 1) == if in_round(
                    qs,
                    s,
                    i as int,
                    round as nat,
                ) {
                    round_members(qs, s, round as nat, i as int).push(i as int)
                } else {
                    round_members(qs, s, round as nat, i as int)
                });
            }
            if marks[i] {
                if selected_count == limit {
                    proof {
                        // `cur` followed by `i` is a prefix of the full order,
                        // which is therefore longer than `limit`.
                        let next = cur.push(i as int);
                        lemma_round_members_prefix(qs, s, round as nat, i + 1, n as int);
                        lemma_reservation_order_prefix(qs, s, (round + 1) as nat, rounds as nat);
                        let r1 = reservation_order(qs, s, (round + 1) as nat);
                        assert(r1 == order + round_members(qs, s, round as nat, n as int));
                        assert(round_members(qs, s, round as nat, i + 1) == round_members(
                            qs,
                            s,
                            round as nat,
                            i as int,
                        ).push(i as int));
                        assert(next =~= order + round_members(qs, s, round as nat, i + 1));
                        assert(r1.take(next.len() as int) =~= next);
                        assert(full.take(next.len() as int) =~= next);
                        assert(full.take(limit as int) =~= cur);
                        assert(reserved(qs, s, limit as nat) =~= cur);
                        assert forall|x: int| 0 <= x < n implies #[trigger] selected@[x] == keeps(
                            qs,
                            s,
                            limit as nat,
                            x,
                        ) by {}
                    }
                    return selected;
                }
                proof {
                    if cur.contains(i as int) {
                        let k = choose|k: int| 0 <= k < cur.len() && cur[k] == i;
                        if k < order.len() {
                            assert(order.contains(i as int));
                        } else {
                            let rm = round_members(qs, s, round as nat, i as int);
                            assert(rm[k - order.len()] == i);
                            assert(rm.contains(i as int));
                        }
                    }
                }
                selected.set(i, true);
                selected_count = selected_count + 1;
            }
            proof {
                let nxt = order + round_members(qs, s, round as nat, i + 1);
                assert forall|x: int| 0 <= x < n implies #[trigger] selected@[x] == nxt.contains(x) by {
                    if in_round(qs, s, i as int, round as nat) {
                        assert(nxt =~= cur.push(i as int));
                        if x == i {
                            assert(nxt[nxt.len() - 1] == x);
                        } else if nxt.contains(x) {
                            let k = choose|k: int| 0 <= k < nxt.len() && nxt[k] == x;
                            assert(cur[k] == x);
                        } else if cur.contains(x) {
                            let k = choose|k: int| 0 <= k < cur.len() && cur[k] == x;
                            assert(nxt[k] == x);
                        }
                    } else {
                        assert(nxt =~= cur);
                    }
                }
            }
            i = i + 1;
        }
        proof {
            assert(reservation_order(qs, s, (round + 1) as nat) =~= order + round_members(
                qs,
                s,
                round as nat,
                n as int,
            ));
            order = reservation_order(qs, s, (round + 1) as nat);
        }
        round = round + 1;
    }
    let ghost res = order;
    proof {
        assert(reserved(qs, s, limit as nat) == res);
    }
    let mut i: usize = 0;
    while i < n && selected_count < limit
        invariant
            s == candidates@,
            qs == quotas@,
            n == s.len(),
            selected@.len() == n,
            res == reserved(qs, s, limit as nat),
            res.len() <= limit,
            i <= n,
            selected_count == res.len() + if unreserved_before(res, i as int) + res.len() <= limit {
                unreserved_before(res, i as int)
            } else {
                (limit - res.len()) as nat
            },
            forall|x: int| 0 <= x < i ==> #[trigger] selected@[x] == keeps(qs, s, limit as nat, x),
            forall|x: int| i <= x < n ==> #[trigger] selected@[x] == res.contains(x),
        decreases n - i,
    {
        if !selected[i] {
            selected.set(i, true);
            selected_count = selected_count + 1;
        }
        i = i + 1;
    }
    proof {
        assert forall|x: int| 0 <= x < n implies #[trigger] selected@[x] == keeps(
            qs,
            s,
            limit as nat,
            x,
        ) by {
            if x >= i {
                lemma_unreserved_monotone(res, i as int, x);
            }
        }
    }
    selected
}

/// Match, rank, de-duplicate and limit provider-independent departures.
///
/// A departure is a candidate when it is not cancelled and a boarding point
/// serves it (the first such point, in configuration order, is used); unless
/// `options.include_unreachable`, only candidates that leave enough time to
/// walk there are kept. Among candidates of one non-empty trip ID the one
/// leaving the most time is kept. Candidates are ranked by departure time,
/// and up to `options.limit` of them are returned in that order: first the
/// slots that the route quotas reserve, allocated round by round, then the
/// earliest others.
///
/// Configuration and departure text is expected to have been normalized.
pub fn select_departures(
    config: &Config,
    departures: &[Departure],
    now: UtcTime,
    options: SelectionOptions,
) -> (r: Vec<SelectedDeparture>)
    requires
        departures_wf(departures@),
        now.wf(),
    ensures
        r@ == selected_departures(*config, departures@, now, options),
{
    let found = collect_candidates(config, departures, &now, options);
    let unique = deduplicate(found);
    let ordered = rank(unique);
    let keep = select_candidate_indices(&config.display.route_quotas, &ordered, options.limit);
    let ghost s = ordered@;
    let ghost flags = Seq::new(
        s.len(),
        |i: int| keeps(config.display.route_quotas@, s, options.limit as nat, i),
    );
    assert(keep@ =~= flags);
    assert(s.len() == ordered.len());
    let mut rest = ordered;
    let mut out: Vec<SelectedDeparture> = Vec::new();
    let mut i: usize = 0;
    while rest.len() > 0
        invariant
            i <= s.len(),
            rest@ == s.skip(i as int),
            keep@ == flags,
            flags.len() == s.len(),
            out@ == kept(s, flags, i as int),
            s.len() <= usize::MAX,
        decreases rest@.len(),
    {
        assert(i < s.len());
        let c = rest.remove(0);
        assert(c == s[i as int]);
        assert(rest@ =~= s.skip(i + 1));
        if keep[i] {
            out.push(c.selected);
        }
        i = i + 1;
    }
    out
}

/// The candidates of the cancelled departures, in their order: those that a
/// boarding point serves and that would still be reachable.
pub open spec fn cancelled_candidates(config: Config, departures: Seq<Departure>, now: UtcTime) -> Seq<
    Candidate,
>
    decreases departures.len(),
{
    if departures.len() == 0 {
        seq![]
    } else {
        let rest = cancelled_candidates(config, departures.drop_last(), now);
        let departure = departures.last();
        if departure.is_cancelled {
            match candidate_for(config, departure, now) {
                Some(c) => if c.selected.reachable {
                    rest.push(c)
                } else {
                    rest
                },
                None => rest,
            }
        } else {
            rest
        }
    }
}

/// The first `n` candidates that depart no later than `cutoff`, when there
/// is a cutoff.
pub open spec fn departing_by(s: Seq<Candidate>, cutoff: Option<UtcTime>, n: int) -> Seq<Candidate>
    decreases n,
{
    if n <= 0 {
        seq![]
    } else {
        let earlier = departing_by(s, cutoff, n - 1);
        match cutoff {
            Some(t) => if departs_at(s[n - 1]) <= t.total_nanos() {
                earlier.push(s[n - 1])
            } else {
                earlier
            },
            None => earlier.push(s[n - 1]),
        }
    }
}

/// The cancellation notes: reachable cancelled departures that a boarding
/// point serves, one per trip, in ranking order, departing no later than
/// `cutoff` when there is one, and at most `limit` of them.
pub open spec fn selected_cancellations(
    config: Config,
    departures: Seq<Departure>,
    now: UtcTime,
    limit: usize,
    cutoff: Option<UtcTime>,
) -> Seq<SelectedDeparture> {
    let s = ranked(deduplicated(cancelled_candidates(config, departures, now)));
    let due = departing_by(s, cutoff, s.len() as int);
    let n = if due.len() <= limit {
        due.len() as int
    } else {
        limit as int
    };
    due.take(n).map_values(|c: Candidate| c.selected)
}

fn collect_cancelled(config: &Config, departures: &[Departure], now: &UtcTime) -> (r: Vec<
    Candidate,
>)
    requires
        departures_wf(departures@),
        now.wf(),
    ensures
        r@ == cancelled_candidates(*config, departures@, *now),
        candidates_wf(r@),
{
    let mut out: Vec<Candidate> = Vec::new();
    let mut i: usize = 0;
    while i < departures.len()
        invariant
            i <= departures@.len(),
            departures_wf(departures@),
            now.wf(),
            out@ == cancelled_candidates(*config, departures@.take(i as int), *now),
            candidates_wf(out@),
        decreases departures@.len() - i,
    {
        let departure = &departures[i];
        assert(departures@.take(i + 1).drop_last() =~= departures@.take(i as int));
        assert(departures@.take(i + 1).last() == departures@[i as int]);
        assert(departure.wf());
        if departure.is_cancelled {
            match matching_point(config, departure) {
                Some(p) => {
                    let c = candidate(departure, &config.boarding_points[p], p, now);
                    if c.selected.reachable {
                        out.push(c);
                    }
                },
                None => {},
            }
        }
        i = i + 1;
    }
    assert(departures@.take(departures@.len() as int) =~= departures@);
    out
}

/// Reachable cancelled departures worth a note beside the selection: one
/// per trip, in ranking order, none departing after `cutoff` (the last
/// shown departure, when there is one), and at most `limit` of them.
pub fn select_cancellations(
    config: &Config,
    departures: &[Departure],
    now: UtcTime,
    limit: usize,
    cutoff: Option<UtcTime>,
) -> (r: Vec<SelectedDeparture>)
    requires
        departures_wf(departures@),
        now.wf(),
        cutoff matches Some(t) ==> t.wf(),
    ensures
        r@ == selected_cancellations(*config, departures@, now, limit, cutoff),
{
    let found = collect_cancelled(config, departures, &now);
    let unique = deduplicate(found);
    let ordered = rank(unique);
    let ghost s = ordered@;
    let ghost due = departing_by(s, cutoff, s.len() as int);
    assert(s.len() == ordered.len());
    let mut rest = ordered;
    let mut out: Vec<SelectedDeparture> = Vec::new();
    let mut i: usize = 0;
    while rest.len() > 0 && out.len() < limit
        invariant
            i <= s.len(),
            s.len() <= usize::MAX,
            rest@ == s.skip(i as int),
            candidates_wf(s),
            cutoff matches Some(t) ==> t.wf(),
            out@.len() <= limit,
            out@ == departing_by(s, cutoff, i as int).map_values(|c: Candidate| c.selected),
        decreases rest@.len(),
    {
        assert(i < s.len());
        let c = rest.remove(0);
        assert(c == s[i as int]);
        assert(rest@ =~= s.skip(i + 1));
        let ghost before = out@;
        let due_now = match &cutoff {
            Some(t) => {
                let at = c.selected.departure.effective_at();
                at.is_before(t) || at.same_instant(t)
            },
            None => true,
        };
        if due_now {
            out.push(c.selected);
        }
        assert(out@ =~= departing_by(s, cutoff, i + 1).map_values(|c: Candidate| c.selected));
        i = i + 1;
    }
    proof {
        lemma_departing_by_prefix(s, cutoff, i as int, s.len() as int);
        let n = if due.len() <= limit { due.len() as int } else { limit as int };
        assert(out@ =~= due.take(n).map_values(|c: Candidate| c.selected));
    }
    out
}

proof fn lemma_departing_by_prefix(s: Seq<Candidate>, cutoff: Option<UtcTime>, i: int, m: int)
    requires
        0 <= i <= m,
    ensures
        departing_by(s, cutoff, i).len() <= departing_by(s, cutoff, m).len(),
        departing_by(s, cutoff, m).take(departing_by(s, cutoff, i).len() as int)
            =~= departing_by(s, cutoff, i),
    decreases m - i,
{
    if i < m {
        lemma_departing_by_prefix(s, cutoff, i, m - 1);
    }
}

} // verus!
