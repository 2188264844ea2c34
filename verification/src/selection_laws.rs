//! Properties of departure selection that hold for every configuration,
//! every list of departures and every instant.

use vstd::prelude::*;

use crate::config::Config;
use crate::departure::Departure;
use crate::selection::{
    candidates, dedup_precedes, dedup_step, deduplicated, insert_position, kept, ranked, ranks_before,
    trip_position, Candidate, candidate_for, first_serving_point, selected_at, serves,
    selected_departures, ranked_candidates, keeps, departs_at, SelectionOptions, reserved,
    reservation_order, max_minimum, unreserved_before, lemma_reservation_order, round_members,
    lemma_round_members, in_round, route_rank, count_route_before, on_route, quota_serves,
    SelectedDeparture, cancelled_candidates, departing_by, selected_cancellations,
    lemma_count_route_monotone, lemma_reservation_order_prefix,
};
use crate::config::{RouteQuota, RouteQuotaView};
use crate::validation::{in_accepted_range, law_accepted_configuration, quota_total, validation_errors};
use crate::time::UtcTime;

verus! {

/// The positions whose flag is set, among the first `n`, in increasing order.
pub open spec fn kept_positions(keep: Seq<bool>, n: int) -> Seq<int>
    decreases n,
{
    if n <= 0 {
        seq![]
    } else {
        let earlier = kept_positions(keep, n - 1);
        if keep[n - 1] {
            earlier.push(n - 1)
        } else {
            earlier
        }
    }
}

proof fn lemma_kept_positions(s: Seq<Candidate>, keep: Seq<bool>, n: int)
    requires
        n <= s.len(),
        n <= keep.len(),
    ensures
        kept(s, keep, n).len() == kept_positions(keep, n).len(),
        forall|a: int|
            0 <= a < kept(s, keep, n).len() ==> 0 <= #[trigger] kept_positions(keep, n)[a] < n
                && kept(s, keep, n)[a] == s[kept_positions(keep, n)[a]].selected
                && keep[kept_positions(keep, n)[a]],
        forall|a: int, b: int|
            0 <= a < b < kept_positions(keep, n).len() ==> kept_positions(keep, n)[a]
                < kept_positions(keep, n)[b],
    decreases n,
{
    if n > 0 {
        lemma_kept_positions(s, keep, n - 1);
    }
}

/// Ranking puts no candidate after one that it ranks before.
proof fn lemma_ranked_sorted(s: Seq<Candidate>)
    ensures
        ranked(s).len() == s.len(),
        forall|i: int| 0 <= i < ranked(s).len() ==> s.contains(#[trigger] ranked(s)[i]),
        forall|i: int, j: int|
            0 <= i < j < ranked(s).len() ==> !ranks_before(ranked(s)[j], ranked(s)[i]),
    decreases s.len(),
{
    if s.len() > 0 {
        let rest = s.drop_last();
        let x = s.last();
        lemma_ranked_sorted(rest);
        let sorted = ranked(rest);
        lemma_insert_position(sorted, x, 0);
        let p = insert_position(sorted, x, 0) as int;
        let r = sorted.insert(p, x);
        assert(r == ranked(s));
        assert forall|i: int| 0 <= i < r.len() implies s.contains(#[trigger] r[i]) by {
            if i < p {
                assert(rest.contains(sorted[i]));
                let k = choose|k: int| 0 <= k < rest.len() && rest[k] == sorted[i];
                assert(s[k] == rest[k]);
            } else if i == p {
                assert(s[s.len() - 1] == x);
            } else {
                assert(r[i] == sorted[i - 1]);
                assert(rest.contains(sorted[i - 1]));
                let k = choose|k: int| 0 <= k < rest.len() && rest[k] == sorted[i - 1];
                assert(s[k] == rest[k]);
            }
        }
        assert forall|i: int, j: int| 0 <= i < j < r.len() implies !ranks_before(r[j], r[i]) by {
            if j < p {
            } else if j == p {
                assert(!ranks_before(x, sorted[i]));
            } else if i < p {
                assert(r[j] == sorted[j - 1]);
            } else if i == p {
                assert(r[j] == sorted[j - 1]);
                assert(ranks_before(x, sorted[p]));
                if j - 1 > p {
                    assert(!ranks_before(sorted[j - 1], sorted[p]));
                }
            } else {
                assert(r[j] == sorted[j - 1]);
                assert(r[i] == sorted[i - 1]);
            }
        }
    }
}

proof fn lemma_insert_position(sorted: Seq<Candidate>, x: Candidate, from: nat)
    requires
        from <= sorted.len(),
    ensures
        from <= insert_position(sorted, x, from) <= sorted.len(),
        forall|i: int| from <= i < insert_position(sorted, x, from) ==> !ranks_before(x, sorted[i]),
        insert_position(sorted, x, from) < sorted.len() ==> ranks_before(
            x,
            sorted[insert_position(sorted, x, from) as int],
        ),
    decreases sorted.len() - from,
{
    if from < sorted.len() && !ranks_before(x, sorted[from as int]) {
        lemma_insert_position(sorted, x, from + 1);
    }
}

/// No two candidates share a non-empty trip ID.
pub open spec fn trips_distinct(s: Seq<Candidate>) -> bool {
    forall|i: int, j: int|
        0 <= i < s.len() && 0 <= j < s.len() && i != j
            && s[i].selected.departure.trip_id@.len() > 0 ==> s[i].selected.departure.trip_id@
            != s[j].selected.departure.trip_id@
}

proof fn lemma_trip_position(s: Seq<Candidate>, trip: Seq<char>, from: nat)
    ensures
        trip_position(s, trip, from) matches Some(i) ==> from <= i < s.len()
            && s[i as int].selected.departure.trip_id@ == trip,
        trip_position(s, trip, from) is None ==> forall|i: int|
            from <= i < s.len() ==> s[i].selected.departure.trip_id@ != trip,
    decreases s.len() - from,
{
    if from < s.len() && s[from as int].selected.departure.trip_id@ != trip {
        lemma_trip_position(s, trip, from + 1);
    }
}

/// De-duplication keeps one entry per non-empty trip; every entry is one of
/// the candidates; and for every candidate with a trip ID, the entry kept for
/// its trip is one that it does not precede.
proof fn lemma_deduplicated(s: Seq<Candidate>)
    ensures
        trips_distinct(deduplicated(s)),
        forall|i: int|
            0 <= i < deduplicated(s).len() ==> s.contains(#[trigger] deduplicated(s)[i]),
        forall|k: int|
            0 <= k < s.len() && (#[trigger] s[k]).selected.departure.trip_id@.len() > 0 ==> exists|
                i: int,
            |
                0 <= i < deduplicated(s).len() && (#[trigger] deduplicated(s)[i]).selected.departure.trip_id@
                    == s[k].selected.departure.trip_id@ && !dedup_precedes(
                    s[k],
                    deduplicated(s)[i],
                ),
    decreases s.len(),
{
    if s.len() > 0 {
        let rest = s.drop_last();
        let c = s.last();
        lemma_deduplicated(rest);
        let acc = deduplicated(rest);
        let d = deduplicated(s);
        assert(d == dedup_step(acc, c));
        let trip = c.selected.departure.trip_id@;
        lemma_trip_position(acc, trip, 0);
        assert forall|i: int| 0 <= i < d.len() implies s.contains(#[trigger] d[i]) by {
            if i < acc.len() && d[i] == acc[i] {
                assert(rest.contains(acc[i]));
                let k = choose|k: int| 0 <= k < rest.len() && rest[k] == acc[i];
                assert(s[k] == rest[k]);
            } else {
                assert(d[i] == c);
                assert(s[s.len() - 1] == c);
            }
        }
        assert forall|k: int|
            0 <= k < s.len() && (#[trigger] s[k]).selected.departure.trip_id@.len()
                > 0 implies exists|i: int|
            0 <= i < d.len() && (#[trigger] d[i]).selected.departure.trip_id@
                == s[k].selected.departure.trip_id@ && !dedup_precedes(s[k], d[i]) by {
            if k == s.len() - 1 {
                match trip_position(acc, trip, 0) {
                    Some(p) => {
                        if dedup_precedes(c, acc[p as int]) {
                            assert(d[p as int] == c);
                        } else {
                            assert(d[p as int] == acc[p as int]);
                        }
                    },
                    None => {
                        assert(d[d.len() - 1] == c);
                    },
                }
            } else {
                assert(s[k] == rest[k]);
                let i = choose|i: int|
                    0 <= i < acc.len() && (#[trigger] acc[i]).selected.departure.trip_id@
                        == rest[k].selected.departure.trip_id@ && !dedup_precedes(rest[k], acc[i]);
                if trip.len() > 0 && trip_position(acc, trip, 0) == Some(i as nat) && dedup_precedes(
                    c,
                    acc[i],
                ) {
                    assert(d[i] == c);
                } else {
                    assert(d[i] == acc[i]);
                }
            }
        }
        assert forall|i: int, j: int|
            0 <= i < d.len() && 0 <= j < d.len() && i != j
                && d[i].selected.departure.trip_id@.len() > 0 implies d[i].selected.departure.trip_id@
            != d[j].selected.departure.trip_id@ by {
            if trip.len() > 0 {
                match trip_position(acc, trip, 0) {
                    Some(p) => {
                        if dedup_precedes(c, acc[p as int]) {
                            if i == p {
                                assert(d[j] == acc[j]);
                            } else if j == p {
                                assert(d[i] == acc[i]);
                            } else {
                                assert(d[i] == acc[i]);
                                assert(d[j] == acc[j]);
                            }
                        }
                    },
                    None => {
                        if i == d.len() - 1 {
                            assert(d[j] == acc[j]);
                        } else if j == d.len() - 1 {
                            assert(d[i] == acc[i]);
                        } else {
                            assert(d[i] == acc[i]);
                            assert(d[j] == acc[j]);
                        }
                    },
                }
            } else {
                if i == d.len() - 1 {
                } else if j == d.len() - 1 {
                    assert(d[i] == acc[i]);
                } else {
                    assert(d[i] == acc[i]);
                    assert(d[j] == acc[j]);
                }
            }
        }
    }
}

proof fn lemma_first_serving_point(
    points: Seq<crate::config::BoardingPoint>,
    d: Departure,
    from: nat,
)
    ensures
        first_serving_point(points, d, from) matches Some(i) ==> from <= i < points.len()
            && serves(points[i as int], d),
    decreases points.len() - from,
{
    if from < points.len() && !serves(points[from as int], d) {
        lemma_first_serving_point(points, d, from + 1);
    }
}

/// Every candidate is one of the departures, not cancelled, seen from a
/// boarding point that serves it; and every such departure whose candidate
/// qualifies is among the candidates.
proof fn lemma_candidates(config: Config, ds: Seq<Departure>, now: UtcTime, inc: bool)
    ensures
        forall|i: int|
            0 <= i < candidates(config, ds, now, inc).len() ==> exists|k: int|
                0 <= k < ds.len() && !ds[k].is_cancelled && candidate_for(config, ds[k], now)
                    == Some(#[trigger] candidates(config, ds, now, inc)[i]),
        forall|k: int|
            0 <= k < ds.len() && !ds[k].is_cancelled && (#[trigger] candidate_for(config, ds[k], now)) is Some
                && (inc || candidate_for(config, ds[k], now)->0.selected.reachable) ==> candidates(
                config,
                ds,
                now,
                inc,
            ).contains(candidate_for(config, ds[k], now)->0),
    decreases ds.len(),
{
    if ds.len() > 0 {
        let rest = ds.drop_last();
        lemma_candidates(config, rest, now, inc);
        let cs = candidates(config, ds, now, inc);
        let prev = candidates(config, rest, now, inc);
        assert forall|i: int| 0 <= i < cs.len() implies exists|k: int|
            0 <= k < ds.len() && !ds[k].is_cancelled && candidate_for(config, ds[k], now) == Some(
                #[trigger] cs[i],
            ) by {
            if i < prev.len() && cs[i] == prev[i] {
                let k = choose|k: int|
                    0 <= k < rest.len() && !rest[k].is_cancelled && candidate_for(
                        config,
                        rest[k],
                        now,
                    ) == Some(#[trigger] prev[i]);
                assert(ds[k] == rest[k]);
            } else {
                assert(ds[ds.len() - 1] == ds.last());
            }
        }
        assert forall|k: int|
            0 <= k < ds.len() && !ds[k].is_cancelled && (#[trigger] candidate_for(
                config,
                ds[k],
                now,
            )) is Some && (inc || candidate_for(config, ds[k], now)->0.selected.reachable) implies cs.contains(
            candidate_for(config, ds[k], now)->0,
        ) by {
            let c = candidate_for(config, ds[k], now)->0;
            if k < rest.len() {
                assert(ds[k] == rest[k]);
                assert(prev.contains(c));
                let x = choose|x: int| 0 <= x < prev.len() && prev[x] == c;
                assert(cs[x] == c);
            } else {
                assert(cs[cs.len() - 1] == c);
            }
        }
    }
}

proof fn lemma_ranked_candidates_members(
    config: Config,
    ds: Seq<Departure>,
    now: UtcTime,
    inc: bool,
)
    ensures
        forall|i: int|
            0 <= i < ranked_candidates(config, ds, now, inc).len() ==> candidates(
                config,
                ds,
                now,
                inc,
            ).contains(#[trigger] ranked_candidates(config, ds, now, inc)[i]),
{
    let cs = candidates(config, ds, now, inc);
    let d = deduplicated(cs);
    lemma_deduplicated(cs);
    lemma_ranked_sorted(d);
    assert forall|i: int| 0 <= i < ranked(d).len() implies cs.contains(#[trigger] ranked(d)[i]) by {
        assert(d.contains(ranked(d)[i]));
        let j = choose|j: int| 0 <= j < d.len() && d[j] == ranked(d)[i];
        assert(cs.contains(d[j]));
    }
}

/// Each selected departure is one of the given departures: it is not
/// cancelled, it is seen from the first configured boarding point that
/// serves it, and it is reachable unless unreachable departures were asked
/// for.
pub proof fn law_selected_are_served_departures(
    config: Config,
    departures: Seq<Departure>,
    now: UtcTime,
    options: SelectionOptions,
)
    ensures
        forall|i: int|
            0 <= i < selected_departures(config, departures, now, options).len() ==> exists|k: int|
                0 <= k < departures.len() && !departures[k].is_cancelled && (candidate_for(
                    config,
                    departures[k],
                    now,
                ) matches Some(c) && c.selected == #[trigger] selected_departures(
                    config,
                    departures,
                    now,
                    options,
                )[i] && (options.include_unreachable || c.selected.reachable)),
{
    let inc = options.include_unreachable;
    let s = ranked_candidates(config, departures, now, inc);
    let keep = Seq::new(
        s.len(),
        |i: int| keeps(config.display.route_quotas@, s, options.limit as nat, i),
    );
    let sel = selected_departures(config, departures, now, options);
    lemma_kept_positions(s, keep, s.len() as int);
    lemma_ranked_candidates_members(config, departures, now, inc);
    lemma_candidates_qualify(config, departures, now, inc);
    lemma_candidates(config, departures, now, inc);
    let cs = candidates(config, departures, now, inc);
    assert forall|i: int| 0 <= i < sel.len() implies exists|k: int|
        0 <= k < departures.len() && !departures[k].is_cancelled && (candidate_for(
            config,
            departures[k],
            now,
        ) matches Some(c) && c.selected == #[trigger] sel[i] && (inc || c.selected.reachable)) by {
        let p = kept_positions(keep, s.len() as int)[i];
        assert(cs.contains(s[p]));
        let x = choose|x: int| 0 <= x < cs.len() && cs[x] == s[p];
        let k = choose|k: int|
            0 <= k < departures.len() && !departures[k].is_cancelled && candidate_for(
                config,
                departures[k],
                now,
            ) == Some(#[trigger] cs[x]);
        assert(inc || cs[x].selected.reachable);
    }
}

proof fn lemma_candidates_qualify(config: Config, ds: Seq<Departure>, now: UtcTime, inc: bool)
    ensures
        forall|i: int|
            0 <= i < candidates(config, ds, now, inc).len() ==> inc || (#[trigger] candidates(
                config,
                ds,
                now,
                inc,
            )[i]).selected.reachable,
    decreases ds.len(),
{
    if ds.len() > 0 {
        lemma_candidates_qualify(config, ds.drop_last(), now, inc);
    }
}

/// Selected departures come in chronological order of their effective
/// (predicted, else scheduled) times.
pub proof fn law_selection_is_chronological(
    config: Config,
    departures: Seq<Departure>,
    now: UtcTime,
    options: SelectionOptions,
)
    ensures
        forall|i: int, j: int|
            0 <= i < j < selected_departures(config, departures, now, options).len() ==> (
            #[trigger] selected_departures(config, departures, now, options)[i]).departure.effective().total_nanos()
                <= (#[trigger] selected_departures(
                config,
                departures,
                now,
                options,
            )[j]).departure.effective().total_nanos(),
{
    let inc = options.include_unreachable;
    let s = ranked_candidates(config, departures, now, inc);
    let keep = Seq::new(
        s.len(),
        |i: int| keeps(config.display.route_quotas@, s, options.limit as nat, i),
    );
    let sel = selected_departures(config, departures, now, options);
    lemma_kept_positions(s, keep, s.len() as int);
    lemma_ranked_sorted(deduplicated(candidates(config, departures, now, inc)));
    assert forall|i: int, j: int| 0 <= i < j < sel.len() implies (
    #[trigger] sel[i]).departure.effective().total_nanos()
        <= (#[trigger] sel[j]).departure.effective().total_nanos() by {
        let p = kept_positions(keep, s.len() as int)[i];
        let q = kept_positions(keep, s.len() as int)[j];
        assert(p < q);
        assert(!ranks_before(s[q], s[p]));
        assert(departs_at(s[p]) <= departs_at(s[q]));
    }
}

proof fn lemma_ranked_trips_distinct(s: Seq<Candidate>)
    requires
        trips_distinct(s),
    ensures
        trips_distinct(ranked(s)),
    decreases s.len(),
{
    if s.len() > 0 {
        let rest = s.drop_last();
        let x = s.last();
        assert(trips_distinct(rest)) by {
            assert forall|i: int, j: int|
                0 <= i < rest.len() && 0 <= j < rest.len() && i != j
                    && rest[i].selected.departure.trip_id@.len() > 0 implies rest[i].selected.departure.trip_id@
                != rest[j].selected.departure.trip_id@ by {
                assert(rest[i] == s[i] && rest[j] == s[j]);
            }
        }
        lemma_ranked_trips_distinct(rest);
        lemma_ranked_sorted(rest);
        let sorted = ranked(rest);
        lemma_insert_position(sorted, x, 0);
        let p = insert_position(sorted, x, 0) as int;
        let r = sorted.insert(p, x);
        assert(r == ranked(s));
        assert forall|e: int|
            0 <= e < sorted.len() implies sorted[e].selected.departure.trip_id@.len() == 0
            || sorted[e].selected.departure.trip_id@ != x.selected.departure.trip_id@ by {
            assert(rest.contains(sorted[e]));
            let k = choose|k: int| 0 <= k < rest.len() && rest[k] == sorted[e];
            assert(s[k] == rest[k]);
            assert(s[s.len() - 1] == x);
        }
        assert forall|i: int, j: int|
            0 <= i < r.len() && 0 <= j < r.len() && i != j
                && r[i].selected.departure.trip_id@.len() > 0 implies r[i].selected.departure.trip_id@
            != r[j].selected.departure.trip_id@ by {
            let ii = if i < p { i } else { i - 1 };
            let jj = if j < p { j } else { j - 1 };
            if i == p {
                assert(r[j] == sorted[jj]);
            } else if j == p {
                assert(r[i] == sorted[ii]);
            } else {
                assert(r[i] == sorted[ii]);
                assert(r[j] == sorted[jj]);
            }
        }
    }
}

/// No two selected departures share a non-empty trip ID.
pub proof fn law_selected_trips_distinct(
    config: Config,
    departures: Seq<Departure>,
    now: UtcTime,
    options: SelectionOptions,
)
    ensures
        forall|i: int, j: int|
            0 <= i < selected_departures(config, departures, now, options).len() && 0 <= j
                < selected_departures(config, departures, now, options).len() && i != j
                && (#[trigger] selected_departures(
                config,
                departures,
                now,
                options,
            )[i]).departure.trip_id@.len() > 0 ==> selected_departures(
                config,
                departures,
                now,
                options,
            )[i].departure.trip_id@ != (#[trigger] selected_departures(
                config,
                departures,
                now,
                options,
            )[j]).departure.trip_id@,
{
    let inc = options.include_unreachable;
    let s = ranked_candidates(config, departures, now, inc);
    let keep = Seq::new(
        s.len(),
        |i: int| keeps(config.display.route_quotas@, s, options.limit as nat, i),
    );
    let sel = selected_departures(config, departures, now, options);
    let d = deduplicated(candidates(config, departures, now, inc));
    lemma_kept_positions(s, keep, s.len() as int);
    lemma_deduplicated(candidates(config, departures, now, inc));
    lemma_ranked_trips_distinct(d);
    assert forall|i: int, j: int|
        0 <= i < sel.len() && 0 <= j < sel.len() && i != j && (
        #[trigger] sel[i]).departure.trip_id@.len() > 0 implies sel[i].departure.trip_id@ != (
    #[trigger] sel[j]).departure.trip_id@ by {
        let p = kept_positions(keep, s.len() as int)[i];
        let q = kept_positions(keep, s.len() as int)[j];
        if i < j {
            assert(p < q);
        } else {
            assert(q < p);
        }
    }
}

/// When one trip is offered by several departures (for example at two
/// boarding points), a selected departure for that trip leaves at least as
/// much time to reach it as any other qualifying offer of the same trip.
pub proof fn law_selected_trip_leaves_most_time(
    config: Config,
    departures: Seq<Departure>,
    now: UtcTime,
    options: SelectionOptions,
)
    ensures
        forall|i: int, k: int|
            0 <= i < selected_departures(config, departures, now, options).len() && 0 <= k
                < departures.len() && !departures[k].is_cancelled && (#[trigger] selected_departures(
                config,
                departures,
                now,
                options,
            )[i]).departure.trip_id@.len() > 0 && (#[trigger] candidate_for(
                config,
                departures[k],
                now,
            )) is Some && (options.include_unreachable || candidate_for(
                config,
                departures[k],
                now,
            )->0.selected.reachable) && departures[k].trip_id@ == selected_departures(
                config,
                departures,
                now,
                options,
            )[i].departure.trip_id@ ==> selected_departures(
                config,
                departures,
                now,
                options,
            )[i].leave_in_seconds >= candidate_for(config, departures[k], now)->0.selected.leave_in_seconds,
{
    let inc = options.include_unreachable;
    let s = ranked_candidates(config, departures, now, inc);
    let keep = Seq::new(
        s.len(),
        |i: int| keeps(config.display.route_quotas@, s, options.limit as nat, i),
    );
    let sel = selected_departures(config, departures, now, options);
    let cs = candidates(config, departures, now, inc);
    let d = deduplicated(cs);
    lemma_kept_positions(s, keep, s.len() as int);
    lemma_deduplicated(cs);
    lemma_ranked_sorted(d);
    lemma_candidates(config, departures, now, inc);
    assert forall|i: int, k: int|
        0 <= i < sel.len() && 0 <= k < departures.len() && !departures[k].is_cancelled && (
        #[trigger] sel[i]).departure.trip_id@.len() > 0 && (#[trigger] candidate_for(
            config,
            departures[k],
            now,
        )) is Some && (inc || candidate_for(config, departures[k], now)->0.selected.reachable)
            && departures[k].trip_id@ == sel[i].departure.trip_id@ implies sel[i].leave_in_seconds
        >= candidate_for(config, departures[k], now)->0.selected.leave_in_seconds by {
        let c = candidate_for(config, departures[k], now)->0;
        lemma_first_serving_point(config.boarding_points@, departures[k], 0);
        assert(c.selected.departure == departures[k]);
        assert(cs.contains(c));
        let x = choose|x: int| 0 <= x < cs.len() && cs[x] == c;
        assert(cs[x].selected.departure.trip_id@.len() > 0);
        let e = choose|e: int|
            0 <= e < d.len() && (#[trigger] d[e]).selected.departure.trip_id@
                == cs[x].selected.departure.trip_id@ && !dedup_precedes(cs[x], d[e]);
        let p = kept_positions(keep, s.len() as int)[i];
        assert(d.contains(s[p]));
        let f = choose|f: int| 0 <= f < d.len() && d[f] == s[p];
        assert(sel[i] == s[p].selected);
        if f != e {
            assert(d[f].selected.departure.trip_id@ != d[e].selected.departure.trip_id@);
        }
    }
}

/// A departure's candidate, when there is one, is that very departure.
pub proof fn lemma_candidate_departure(config: Config, d: Departure, now: UtcTime)
    ensures
        candidate_for(config, d, now) matches Some(c) ==> c.selected.departure == d,
{
}

/// How many positions below `n` are in `res`.
pub open spec fn reserved_below(res: Seq<int>, n: int) -> nat
    decreases n,
{
    if n <= 0 {
        0
    } else {
        reserved_below(res, n - 1) + if res.contains(n - 1) {
            1nat
        } else {
            0nat
        }
    }
}

/// How many of the first `n` flags are set.
pub open spec fn set_flags(keep: Seq<bool>, n: int) -> nat
    decreases n,
{
    if n <= 0 {
        0
    } else {
        set_flags(keep, n - 1) + if keep[n - 1] {
            1nat
        } else {
            0nat
        }
    }
}

proof fn lemma_kept_len(s: Seq<Candidate>, keep: Seq<bool>, n: int)
    ensures
        kept(s, keep, n).len() == set_flags(keep, n),
    decreases n,
{
    if n > 0 {
        lemma_kept_len(s, keep, n - 1);
    }
}

proof fn lemma_reserved_below_partition(res: Seq<int>, n: int)
    requires
        n >= 0,
    ensures
        reserved_below(res, n) + unreserved_before(res, n) == n,
    decreases n,
{
    if n > 0 {
        lemma_reserved_below_partition(res, n - 1);
    }
}

proof fn lemma_reserved_below_push(r: Seq<int>, x: int, n: int)
    requires
        !r.contains(x),
    ensures
        reserved_below(r.push(x), n) == reserved_below(r, n) + if 0 <= x < n {
            1nat
        } else {
            0nat
        },
    decreases n,
{
    if n > 0 {
        lemma_reserved_below_push(r, x, n - 1);
        let i = n - 1;
        assert(r.push(x).contains(i) <==> (r.contains(i) || i == x)) by {
            if r.push(x).contains(i) {
                let k = choose|k: int| 0 <= k < r.push(x).len() && r.push(x)[k] == i;
                if k < r.len() {
                    assert(r[k] == i);
                }
            }
            if r.contains(i) {
                let k = choose|k: int| 0 <= k < r.len() && r[k] == i;
                assert(r.push(x)[k] == i);
            }
            if i == x {
                assert(r.push(x)[r.len() as int] == i);
            }
        }
    }
}

/// Distinct positions below `n` are all counted.
proof fn lemma_reserved_below_distinct(res: Seq<int>, n: int)
    requires
        res.no_duplicates(),
        forall|k: int| 0 <= k < res.len() ==> 0 <= #[trigger] res[k] < n,
    ensures
        reserved_below(res, n) == res.len(),
    decreases res.len(),
{
    if res.len() == 0 {
        assert(reserved_below(res, n) == 0) by {
            lemma_reserved_below_empty(res, n);
        }
    } else {
        let r = res.drop_last();
        let x = res.last();
        assert(r.push(x) =~= res);
        assert(!r.contains(x)) by {
            if r.contains(x) {
                let k = choose|k: int| 0 <= k < r.len() && r[k] == x;
                assert(res[k] == res[res.len() - 1]);
            }
        }
        assert(r.no_duplicates()) by {
            assert forall|a: int, b: int| 0 <= a < r.len() && 0 <= b < r.len() && a != b implies r[a]
                != r[b] by {
                assert(res[a] != res[b]);
            }
        }
        assert forall|k: int| 0 <= k < r.len() implies 0 <= #[trigger] r[k] < n by {
            assert(res[k] == r[k]);
        }
        lemma_reserved_below_distinct(r, n);
        lemma_reserved_below_push(r, x, n);
        assert(0 <= res[res.len() - 1] < n);
    }
}

proof fn lemma_reserved_below_empty(res: Seq<int>, n: int)
    requires
        res.len() == 0,
    ensures
        reserved_below(res, n) == 0,
    decreases n,
{
    if n > 0 {
        lemma_reserved_below_empty(res, n - 1);
    }
}

/// With the reserved positions `res` taking `res.len() <= limit` slots, the
/// flags set among the first `n` are the reserved ones plus the earliest
/// others, up to the slots that are left.
proof fn lemma_keep_count(res: Seq<int>, keep: Seq<bool>, limit: nat, n: int)
    requires
        0 <= n <= keep.len(),
        res.len() <= limit,
        forall|i: int|
            0 <= i < keep.len() ==> #[trigger] keep[i] == (res.contains(i) || unreserved_before(
                res,
                i,
            ) + res.len() < limit),
    ensures
        set_flags(keep, n) == reserved_below(res, n) + if unreserved_before(res, n) < limit
            - res.len() {
            unreserved_before(res, n)
        } else {
            (limit - res.len()) as nat
        },
    decreases n,
{
    if n > 0 {
        lemma_keep_count(res, keep, limit, n - 1);
    }
}

/// The selection fills every slot it can: it holds `limit` departures, or
/// every ranked candidate when there are fewer than that.
pub proof fn law_selection_fills_slots(
    config: Config,
    departures: Seq<Departure>,
    now: UtcTime,
    options: SelectionOptions,
)
    ensures
        selected_departures(config, departures, now, options).len() == if ranked_candidates(
            config,
            departures,
            now,
            options.include_unreachable,
        ).len() < options.limit {
            ranked_candidates(config, departures, now, options.include_unreachable).len()
        } else {
            options.limit as nat
        },
{
    let s = ranked_candidates(config, departures, now, options.include_unreachable);
    let quotas = config.display.route_quotas@;
    let limit = options.limit as nat;
    let keep = Seq::new(s.len(), |i: int| keeps(quotas, s, limit, i));
    let order = reservation_order(quotas, s, max_minimum(quotas));
    let res = reserved(quotas, s, limit);
    lemma_reservation_order(quotas, s, max_minimum(quotas));
    assert(res.no_duplicates() && forall|k: int| 0 <= k < res.len() ==> 0 <= #[trigger] res[k]
        < s.len()) by {
        if order.len() > limit {
            assert forall|a: int, b: int| 0 <= a < res.len() && 0 <= b < res.len() && a != b implies res[a]
                != res[b] by {
                assert(res[a] == order[a] && res[b] == order[b]);
            }
            assert forall|k: int| 0 <= k < res.len() implies 0 <= #[trigger] res[k] < s.len() by {
                assert(res[k] == order[k]);
                assert(order.contains(order[k]));
            }
        } else {
            assert forall|k: int| 0 <= k < res.len() implies 0 <= #[trigger] res[k] < s.len() by {
                assert(order.contains(order[k]));
            }
        }
    }
    lemma_reserved_below_distinct(res, s.len() as int);
    lemma_reserved_below_partition(res, s.len() as int);
    lemma_keep_count(res, keep, limit, s.len() as int);
    lemma_kept_len(s, keep, s.len() as int);
}

/// How many of the departures are for `line` toward `headsign`.
pub open spec fn route_count(sel: Seq<SelectedDeparture>, line: Seq<char>, headsign: Seq<char>) -> nat
    decreases sel.len(),
{
    if sel.len() == 0 {
        0
    } else {
        route_count(sel.drop_last(), line, headsign) + if sel.last().departure.line@ == line
            && sel.last().departure.headsign@ == headsign {
            1nat
        } else {
            0nat
        }
    }
}

/// How many of the first `n` candidates are kept and on the route.
spec fn kept_on_route(s: Seq<Candidate>, keep: Seq<bool>, line: Seq<char>, headsign: Seq<char>, n: int) -> nat
    decreases n,
{
    if n <= 0 {
        0
    } else {
        kept_on_route(s, keep, line, headsign, n - 1) + if keep[n - 1] && on_route(
            s,
            n - 1,
            line,
            headsign,
        ) {
            1nat
        } else {
            0nat
        }
    }
}

/// How many of the first `n` candidates are on the route among its first
/// `m` candidates.
spec fn early_on_route(s: Seq<Candidate>, line: Seq<char>, headsign: Seq<char>, m: nat, n: int) -> nat
    decreases n,
{
    if n <= 0 {
        0
    } else {
        early_on_route(s, line, headsign, m, n - 1) + if on_route(s, n - 1, line, headsign)
            && count_route_before(s, line, headsign, n - 1) < m {
            1nat
        } else {
            0nat
        }
    }
}

proof fn lemma_kept_route_count(
    s: Seq<Candidate>,
    keep: Seq<bool>,
    line: Seq<char>,
    headsign: Seq<char>,
    n: int,
)
    requires
        0 <= n <= s.len(),
        n <= keep.len(),
    ensures
        route_count(kept(s, keep, n), line, headsign) == kept_on_route(s, keep, line, headsign, n),
    decreases n,
{
    if n > 0 {
        lemma_kept_route_count(s, keep, line, headsign, n - 1);
        if keep[n - 1] {
            assert(kept(s, keep, n).drop_last() =~= kept(s, keep, n - 1));
        }
    }
}

proof fn lemma_early_on_route(s: Seq<Candidate>, line: Seq<char>, headsign: Seq<char>, m: nat, n: int)
    requires
        0 <= n <= s.len(),
    ensures
        early_on_route(s, line, headsign, m, n) == if count_route_before(s, line, headsign, n)
            < m {
            count_route_before(s, line, headsign, n)
        } else {
            m
        },
    decreases n,
{
    if n > 0 {
        lemma_early_on_route(s, line, headsign, m, n - 1);
    }
}

proof fn lemma_kept_covers_early(
    s: Seq<Candidate>,
    keep: Seq<bool>,
    line: Seq<char>,
    headsign: Seq<char>,
    m: nat,
    n: int,
)
    requires
        0 <= n <= s.len(),
        n <= keep.len(),
        forall|i: int|
            0 <= i < s.len() && on_route(s, i, line, headsign) && count_route_before(
                s,
                line,
                headsign,
                i,
            ) < m ==> #[trigger] keep[i],
    ensures
        kept_on_route(s, keep, line, headsign, n) >= early_on_route(s, line, headsign, m, n),
    decreases n,
{
    if n > 0 {
        lemma_kept_covers_early(s, keep, line, headsign, m, n - 1);
        if on_route(s, n - 1, line, headsign) && count_route_before(s, line, headsign, n - 1) < m {
            assert(keep[n - 1]);
        }
    }
}

proof fn lemma_max_minimum(quotas: Seq<RouteQuota>, q: int)
    requires
        0 <= q < quotas.len(),
    ensures
        quotas[q].minimum_departures <= max_minimum(quotas),
    decreases quotas.len(),
{
    if q < quotas.len() - 1 {
        lemma_max_minimum(quotas.drop_last(), q);
        assert(quotas.drop_last()[q] == quotas[q]);
    }
}

proof fn lemma_order_contains_round(
    quotas: Seq<RouteQuota>,
    s: Seq<Candidate>,
    rounds: nat,
    round: nat,
    i: int,
)
    requires
        round < rounds,
        round_members(quotas, s, round, s.len() as int).contains(i),
    ensures
        reservation_order(quotas, s, rounds).contains(i),
    decreases rounds,
{
    let r = (rounds - 1) as nat;
    let a = reservation_order(quotas, s, r);
    let b = round_members(quotas, s, r, s.len() as int);
    assert(reservation_order(quotas, s, rounds) == a + b);
    if round < r {
        lemma_order_contains_round(quotas, s, r, round, i);
        let k = choose|k: int| 0 <= k < a.len() && a[k] == i;
        assert((a + b)[k] == i);
    } else {
        let k = choose|k: int| 0 <= k < b.len() && b[k] == i;
        assert((a + b)[a.len() + k] == i);
    }
}

/// When every reserved departure fits under the limit, the selection holds
/// at least a quota's minimum of departures for the quota's line and
/// headsign, or every candidate for that route when fewer are available.
pub proof fn law_quota_minimum_is_reserved(
    config: Config,
    departures: Seq<Departure>,
    now: UtcTime,
    options: SelectionOptions,
    q: int,
)
    requires
        0 <= q < config.display.route_quotas@.len(),
        reservation_order(
            config.display.route_quotas@,
            ranked_candidates(config, departures, now, options.include_unreachable),
            max_minimum(config.display.route_quotas@),
        ).len() <= options.limit,
    ensures
        ({
            let quota = config.display.route_quotas@[q];
            let s = ranked_candidates(config, departures, now, options.include_unreachable);
            let available = count_route_before(s, quota.line@, quota.headsign@, s.len() as int);
            route_count(
                selected_departures(config, departures, now, options),
                quota.line@,
                quota.headsign@,
            ) >= if available < quota.minimum_departures {
                available
            } else {
                quota.minimum_departures as nat
            }
        }),
{
    let quotas = config.display.route_quotas@;
    let quota = quotas[q];
    let line = quota.line@;
    let headsign = quota.headsign@;
    let m = quota.minimum_departures as nat;
    let s = ranked_candidates(config, departures, now, options.include_unreachable);
    let limit = options.limit as nat;
    let keep = Seq::new(s.len(), |i: int| keeps(quotas, s, limit, i));
    let order = reservation_order(quotas, s, max_minimum(quotas));
    assert(reserved(quotas, s, limit) == order);
    lemma_max_minimum(quotas, q);
    assert forall|i: int|
        0 <= i < s.len() && on_route(s, i, line, headsign) && count_route_before(
            s,
            line,
            headsign,
            i,
        ) < m implies #[trigger] keep[i] by {
        let round = route_rank(s, i);
        assert(round == count_route_before(s, line, headsign, i));
        assert(quota_serves(quotas[q], s[i].selected.departure));
        assert(in_round(quotas, s, i, round));
        lemma_round_members(quotas, s, round, s.len() as int);
        assert(round_members(quotas, s, round, s.len() as int).contains(i));
        lemma_order_contains_round(quotas, s, max_minimum(quotas), round, i);
    }
    lemma_kept_covers_early(s, keep, line, headsign, m, s.len() as int);
    lemma_early_on_route(s, line, headsign, m, s.len() as int);
    lemma_kept_route_count(s, keep, line, headsign, s.len() as int);
}

/// The sum of the minimums of the first `k` quotas.
pub open spec fn minimum_sum(quotas: Seq<RouteQuota>, k: int) -> nat
    decreases k,
{
    if k <= 0 {
        0
    } else {
        minimum_sum(quotas, k - 1) + quotas[k - 1].minimum_departures as nat
    }
}

/// Positions below `n` of the quota route's candidates among its first
/// `minimum` ones.
spec fn early_set(s: Seq<Candidate>, quota: RouteQuota, n: int) -> Set<int> {
    Set::new(
        |i: int|
            0 <= i < n && on_route(s, i, quota.line@, quota.headsign@) && count_route_before(
                s,
                quota.line@,
                quota.headsign@,
                i,
            ) < quota.minimum_departures,
    )
}

spec fn early_union(quotas: Seq<RouteQuota>, s: Seq<Candidate>, k: int) -> Set<int>
    decreases k,
{
    if k <= 0 {
        Set::empty()
    } else {
        early_union(quotas, s, k - 1).union(early_set(s, quotas[k - 1], s.len() as int))
    }
}

proof fn lemma_early_set_len(s: Seq<Candidate>, quota: RouteQuota, n: int)
    requires
        0 <= n <= s.len(),
    ensures
        early_set(s, quota, n).finite(),
        early_set(s, quota, n).len() == early_on_route(
            s,
            quota.line@,
            quota.headsign@,
            quota.minimum_departures as nat,
            n,
        ),
    decreases n,
{
    broadcast use vstd::set::group_set_axioms;

    if n == 0 {
        assert(early_set(s, quota, n) =~= Set::<int>::empty());
    } else {
        lemma_early_set_len(s, quota, n - 1);
        let prev = early_set(s, quota, n - 1);
        if on_route(s, n - 1, quota.line@, quota.headsign@) && count_route_before(
            s,
            quota.line@,
            quota.headsign@,
            n - 1,
        ) < quota.minimum_departures {
            assert(early_set(s, quota, n) =~= prev.insert(n - 1));
        } else {
            assert(early_set(s, quota, n) =~= prev);
        }
    }
}

proof fn lemma_early_union(quotas: Seq<RouteQuota>, s: Seq<Candidate>, k: int)
    requires
        0 <= k <= quotas.len(),
    ensures
        early_union(quotas, s, k).finite(),
        early_union(quotas, s, k).len() <= minimum_sum(quotas, k),
        forall|q: int|
            0 <= q < k ==> early_set(s, quotas[q], s.len() as int).subset_of(
                #[trigger] early_union(quotas, s, k),
            ),
    decreases k,
{
    broadcast use vstd::set::group_set_axioms;

    if k > 0 {
        lemma_early_union(quotas, s, k - 1);
        let quota = quotas[k - 1];
        lemma_early_set_len(s, quota, s.len() as int);
        lemma_early_on_route(
            s,
            quota.line@,
            quota.headsign@,
            quota.minimum_departures as nat,
            s.len() as int,
        );
        vstd::set_lib::lemma_len_union(
            early_union(quotas, s, k - 1),
            early_set(s, quota, s.len() as int),
        );
    }
}

/// Each quota reserves at most its minimum, so all reservations together
/// take at most the sum of the minimums.
proof fn lemma_reservations_within_minimums(quotas: Seq<RouteQuota>, s: Seq<Candidate>)
    ensures
        reservation_order(quotas, s, max_minimum(quotas)).len() <= minimum_sum(
            quotas,
            quotas.len() as int,
        ),
{
    let order = reservation_order(quotas, s, max_minimum(quotas));
    let all = early_union(quotas, s, quotas.len() as int);
    lemma_reservation_order(quotas, s, max_minimum(quotas));
    lemma_early_union(quotas, s, quotas.len() as int);
    assert forall|x: int| #[trigger] order.to_set().contains(x) implies all.contains(x) by {
        assert(order.contains(x));
        let q = choose|q: int|
            0 <= q < quotas.len() && quota_serves(#[trigger] quotas[q], s[x].selected.departure)
                && route_rank(s, x) < quotas[q].minimum_departures;
        assert(early_set(s, quotas[q], s.len() as int).contains(x));
        assert(early_set(s, quotas[q], s.len() as int).subset_of(all));
    }
    order.unique_seq_to_set();
    vstd::set_lib::lemma_len_subset(order.to_set(), all);
}

/// When the quotas' minimums together fit under the limit, the selection
/// holds at least a quota's minimum of departures for the quota's line and
/// headsign, or every candidate for that route when fewer are available.
pub proof fn law_quota_minimums_are_reserved(
    config: Config,
    departures: Seq<Departure>,
    now: UtcTime,
    options: SelectionOptions,
    q: int,
)
    requires
        0 <= q < config.display.route_quotas@.len(),
        minimum_sum(config.display.route_quotas@, config.display.route_quotas@.len() as int)
            <= options.limit,
    ensures
        ({
            let quota = config.display.route_quotas@[q];
            let s = ranked_candidates(config, departures, now, options.include_unreachable);
            let available = count_route_before(s, quota.line@, quota.headsign@, s.len() as int);
            route_count(
                selected_departures(config, departures, now, options),
                quota.line@,
                quota.headsign@,
            ) >= if available < quota.minimum_departures {
                available
            } else {
                quota.minimum_departures as nat
            }
        }),
{
    lemma_reservations_within_minimums(
        config.display.route_quotas@,
        ranked_candidates(config, departures, now, options.include_unreachable),
    );
    law_quota_minimum_is_reserved(config, departures, now, options, q);
}

proof fn lemma_cancelled_candidates(config: Config, ds: Seq<Departure>, now: UtcTime)
    ensures
        forall|x: int|
            0 <= x < cancelled_candidates(config, ds, now).len() ==> exists|k: int|
                0 <= k < ds.len() && ds[k].is_cancelled && candidate_for(config, ds[k], now)
                    == Some(#[trigger] cancelled_candidates(config, ds, now)[x])
                    && cancelled_candidates(config, ds, now)[x].selected.reachable,
    decreases ds.len(),
{
    if ds.len() > 0 {
        let rest = ds.drop_last();
        lemma_cancelled_candidates(config, rest, now);
        let prev = cancelled_candidates(config, rest, now);
        let all = cancelled_candidates(config, ds, now);
        assert forall|x: int| 0 <= x < all.len() implies exists|k: int|
            0 <= k < ds.len() && ds[k].is_cancelled && candidate_for(config, ds[k], now) == Some(
                #[trigger] all[x],
            ) && all[x].selected.reachable by {
            if x < prev.len() {
                assert(all[x] == prev[x]);
                let k = choose|k: int|
                    0 <= k < rest.len() && rest[k].is_cancelled && candidate_for(config, rest[k], now)
                        == Some(#[trigger] prev[x]) && prev[x].selected.reachable;
                assert(ds[k] == rest[k]);
            } else {
                assert(ds[ds.len() - 1] == ds.last());
            }
        }
    }
}

proof fn lemma_departing_by(s: Seq<Candidate>, cutoff: Option<UtcTime>, n: int)
    requires
        n <= s.len(),
    ensures
        forall|x: int|
            0 <= x < departing_by(s, cutoff, n).len() ==> s.contains(
                #[trigger] departing_by(s, cutoff, n)[x],
            ) && (cutoff matches Some(t) ==> departs_at(departing_by(s, cutoff, n)[x])
                <= t.total_nanos()),
    decreases n,
{
    if n > 0 {
        lemma_departing_by(s, cutoff, n - 1);
        let prev = departing_by(s, cutoff, n - 1);
        let all = departing_by(s, cutoff, n);
        assert forall|x: int| 0 <= x < all.len() implies s.contains(#[trigger] all[x]) && (
        cutoff matches Some(t) ==> departs_at(all[x]) <= t.total_nanos()) by {
            if x < prev.len() {
                assert(all[x] == prev[x]);
            } else {
                assert(all[x] == s[n - 1]);
            }
        }
    }
}

/// Each cancellation note is a cancelled departure that a boarding point
/// serves and that would still be reachable; none departs after the cutoff
/// (the last shown departure) when there is one; and there are at most
/// `limit` notes.
pub proof fn law_cancellation_notes(
    config: Config,
    departures: Seq<Departure>,
    now: UtcTime,
    limit: usize,
    cutoff: Option<UtcTime>,
)
    ensures
        selected_cancellations(config, departures, now, limit, cutoff).len() <= limit,
        forall|i: int|
            #![trigger selected_cancellations(config, departures, now, limit, cutoff)[i]]
            0 <= i < selected_cancellations(config, departures, now, limit, cutoff).len()
                ==> exists|k: int|
                0 <= k < departures.len() && departures[k].is_cancelled && (#[trigger] candidate_for(
                    config,
                    departures[k],
                    now,
                )) is Some && candidate_for(config, departures[k], now)->0.selected
                    == selected_cancellations(config, departures, now, limit, cutoff)[i]
                    && candidate_for(config, departures[k], now)->0.selected.reachable,
        forall|i: int|
            0 <= i < selected_cancellations(config, departures, now, limit, cutoff).len() && (
            cutoff matches Some(t)) ==> (#[trigger] selected_cancellations(
                config,
                departures,
                now,
                limit,
                cutoff,
            )[i]).departure.effective().total_nanos() <= cutoff->0.total_nanos(),
{
    let cs = cancelled_candidates(config, departures, now);
    let d = deduplicated(cs);
    let s = ranked(d);
    let due = departing_by(s, cutoff, s.len() as int);
    let notes = selected_cancellations(config, departures, now, limit, cutoff);
    lemma_cancelled_candidates(config, departures, now);
    lemma_deduplicated(cs);
    lemma_ranked_sorted(d);
    lemma_departing_by(s, cutoff, s.len() as int);
    assert forall|i: int| #![trigger notes[i]] 0 <= i < notes.len() implies exists|k: int|
        0 <= k < departures.len() && departures[k].is_cancelled && (#[trigger] candidate_for(
            config,
            departures[k],
            now,
        )) is Some && candidate_for(config, departures[k], now)->0.selected == notes[i]
            && candidate_for(config, departures[k], now)->0.selected.reachable by {
        assert(notes[i] == due[i].selected);
        assert(s.contains(due[i]));
        let a = choose|a: int| 0 <= a < s.len() && s[a] == due[i];
        assert(d.contains(s[a]));
        let b = choose|b: int| 0 <= b < d.len() && d[b] == s[a];
        assert(cs.contains(d[b]));
        let x = choose|x: int| 0 <= x < cs.len() && cs[x] == d[b];
        let k = choose|k: int|
            0 <= k < departures.len() && departures[k].is_cancelled && candidate_for(
                config,
                departures[k],
                now,
            ) == Some(#[trigger] cs[x]) && cs[x].selected.reachable;
        assert(candidate_for(config, departures[k], now) == Some(cs[x]));
    }
    assert forall|i: int|
        0 <= i < notes.len() && (cutoff matches Some(t)) implies (#[trigger] notes[i]).departure.effective().total_nanos()
        <= cutoff->0.total_nanos() by {
        assert(notes[i] == due[i].selected);
    }
}

proof fn lemma_quota_total_is_sum(quotas: Seq<RouteQuota>, views: Seq<RouteQuotaView>, n: int)
    requires
        0 <= n <= quotas.len(),
        views.len() == quotas.len(),
        forall|i: int|
            0 <= i < quotas.len() ==> (#[trigger] views[i]).minimum_departures
                == quotas[i].minimum_departures && in_accepted_range(views[i].minimum_departures),
        quota_total(views, n) <= 20,
    ensures
        minimum_sum(quotas, n) == quota_total(views, n),
    decreases n,
{
    if n > 0 {
        let m = views[n - 1].minimum_departures;
        assert(in_accepted_range(m));
        lemma_quota_total_is_sum(quotas, views, n - 1);
    }
}

/// With an accepted configuration and its own display limit, every quota
/// gets its minimum of departures, or every candidate for its route when
/// fewer are available.
pub proof fn law_accepted_configuration_reserves_minimums(
    config: Config,
    departures: Seq<Departure>,
    now: UtcTime,
    options: SelectionOptions,
    q: int,
)
    requires
        validation_errors(config@).len() == 0,
        options.limit >= config.display.max_departures,
        0 <= q < config.display.route_quotas@.len(),
    ensures
        ({
            let quota = config.display.route_quotas@[q];
            let s = ranked_candidates(config, departures, now, options.include_unreachable);
            let available = count_route_before(s, quota.line@, quota.headsign@, s.len() as int);
            route_count(
                selected_departures(config, departures, now, options),
                quota.line@,
                quota.headsign@,
            ) >= if available < quota.minimum_departures {
                available
            } else {
                quota.minimum_departures as nat
            }
        }),
{
    let c = config@;
    let quotas = config.display.route_quotas@;
    law_accepted_configuration(c);
    assert forall|i: int| 0 <= i < quotas.len() implies (#[trigger] c.route_quotas[i]).minimum_departures
        == quotas[i].minimum_departures && in_accepted_range(c.route_quotas[i].minimum_departures) by {
        assert(c.route_quotas[i] == quotas[i]@);
    }
    lemma_quota_total_is_sum(quotas, c.route_quotas, quotas.len() as int);
    law_quota_minimums_are_reserved(config, departures, now, options, q);
}

/// When the limit leaves no more slots than there are quota routes with a
/// departure available, the slots go to the nearest departure of each of
/// those routes: every selected departure is on a quota route, and no two
/// share a line and headsign.
pub proof fn law_scarce_slots_go_one_per_quota_route(
    config: Config,
    departures: Seq<Departure>,
    now: UtcTime,
    options: SelectionOptions,
)
    requires
        options.limit <= round_members(
            config.display.route_quotas@,
            ranked_candidates(config, departures, now, options.include_unreachable),
            0,
            ranked_candidates(config, departures, now, options.include_unreachable).len() as int,
        ).len(),
    ensures
        forall|i: int|
            0 <= i < selected_departures(config, departures, now, options).len() ==> exists|q: int|
                0 <= q < config.display.route_quotas@.len() && quota_serves(
                    config.display.route_quotas@[q],
                    (#[trigger] selected_departures(config, departures, now, options)[i]).departure,
                ) && config.display.route_quotas@[q].minimum_departures >= 1,
        forall|i: int, j: int|
            0 <= i < j < selected_departures(config, departures, now, options).len() ==> !(
            (#[trigger] selected_departures(config, departures, now, options)[i]).departure.line@
                == (#[trigger] selected_departures(
                config,
                departures,
                now,
                options,
            )[j]).departure.line@ && selected_departures(
                config,
                departures,
                now,
                options,
            )[i].departure.headsign@ == selected_departures(
                config,
                departures,
                now,
                options,
            )[j].departure.headsign@),
{
    let quotas = config.display.route_quotas@;
    let s = ranked_candidates(config, departures, now, options.include_unreachable);
    let limit = options.limit as nat;
    let keep = Seq::new(s.len(), |i: int| keeps(quotas, s, limit, i));
    let sel = selected_departures(config, departures, now, options);
    let first = round_members(quotas, s, 0, s.len() as int);
    let rounds = max_minimum(quotas);
    let order = reservation_order(quotas, s, rounds);
    lemma_round_members(quotas, s, 0, s.len() as int);
    lemma_kept_positions(s, keep, s.len() as int);
    if limit == 0 {
        law_selection_fills_slots(config, departures, now, options);
        assert(sel.len() == 0);
        return;
    }
    assert(first.contains(first[0]));
    let q0 = choose|q: int|
        0 <= q < quotas.len() && quota_serves(#[trigger] quotas[q], s[first[0]].selected.departure)
            && 0 < quotas[q].minimum_departures;
    lemma_max_minimum(quotas, q0);
    assert(rounds >= 1);
    lemma_reservation_order_prefix(quotas, s, 1, rounds);
    assert(reservation_order(quotas, s, 1) =~= first) by {
        assert(reservation_order(quotas, s, 0) =~= Seq::<int>::empty());
    }
    let res = reserved(quotas, s, limit);
    assert(res =~= first.take(limit as int));
    assert forall|p: int| 0 <= p < s.len() implies #[trigger] keep[p] == res.contains(p) by {
        if keep[p] && !res.contains(p) {
            assert(unreserved_before(res, p) + res.len() < limit);
        }
    }
    assert forall|p: int| 0 <= p < s.len() && #[trigger] keep[p] implies first.contains(p) by {
        let k = choose|k: int| 0 <= k < res.len() && res[k] == p;
        assert(first[k] == p);
    }
    assert forall|i: int| 0 <= i < sel.len() implies exists|q: int|
        0 <= q < quotas.len() && quota_serves(quotas[q], (#[trigger] sel[i]).departure)
            && quotas[q].minimum_departures >= 1 by {
        let p = kept_positions(keep, s.len() as int)[i];
        assert(keep[p]);
        assert(first.contains(p));
        assert(in_round(quotas, s, p, 0));
        assert(sel[i] == s[p].selected);
    }
    assert forall|i: int, j: int| 0 <= i < j < sel.len() implies !((#[trigger] sel[i]).departure.line@
        == (#[trigger] sel[j]).departure.line@ && sel[i].departure.headsign@
        == sel[j].departure.headsign@) by {
        let p = kept_positions(keep, s.len() as int)[i];
        let p2 = kept_positions(keep, s.len() as int)[j];
        assert(p < p2);
        assert(keep[p] && keep[p2]);
        assert(first.contains(p) && first.contains(p2));
        assert(in_round(quotas, s, p, 0) && in_round(quotas, s, p2, 0));
        assert(sel[i] == s[p].selected && sel[j] == s[p2].selected);
        if sel[i].departure.line@ == sel[j].departure.line@ && sel[i].departure.headsign@
            == sel[j].departure.headsign@ {
            let line = s[p].selected.departure.line@;
            let headsign = s[p].selected.departure.headsign@;
            lemma_count_route_monotone(s, line, headsign, p, p2);
            assert(on_route(s, p, line, headsign));
            assert(route_rank(s, p2) == count_route_before(s, line, headsign, p2));
        }
    }
}

/// The positions of the first `n` candidates that depart no later than the
/// cutoff, in increasing order.
spec fn due_positions(s: Seq<Candidate>, cutoff: Option<UtcTime>, n: int) -> Seq<int>
    decreases n,
{
    if n <= 0 {
        seq![]
    } else {
        let earlier = due_positions(s, cutoff, n - 1);
        match cutoff {
            Some(t) => if departs_at(s[n - 1]) <= t.total_nanos() {
                earlier.push(n - 1)
            } else {
                earlier
            },
            None => earlier.push(n - 1),
        }
    }
}

proof fn lemma_due_positions(s: Seq<Candidate>, cutoff: Option<UtcTime>, n: int)
    requires
        n <= s.len(),
    ensures
        departing_by(s, cutoff, n).len() == due_positions(s, cutoff, n).len(),
        forall|a: int|
            0 <= a < departing_by(s, cutoff, n).len() ==> 0 <= #[trigger] due_positions(
                s,
                cutoff,
                n,
            )[a] < n && departing_by(s, cutoff, n)[a] == s[due_positions(s, cutoff, n)[a]],
        forall|a: int, b: int|
            0 <= a < b < due_positions(s, cutoff, n).len() ==> due_positions(s, cutoff, n)[a]
                < due_positions(s, cutoff, n)[b],
    decreases n,
{
    if n > 0 {
        lemma_due_positions(s, cutoff, n - 1);
    }
}

/// No two cancellation notes share a non-empty trip ID: a cancelled trip
/// seen from several boarding points gets one note.
pub proof fn law_cancellation_trips_distinct(
    config: Config,
    departures: Seq<Departure>,
    now: UtcTime,
    limit: usize,
    cutoff: Option<UtcTime>,
)
    ensures
        forall|i: int, j: int|
            0 <= i < selected_cancellations(config, departures, now, limit, cutoff).len() && 0 <= j
                < selected_cancellations(config, departures, now, limit, cutoff).len() && i != j
                && (#[trigger] selected_cancellations(
                config,
                departures,
                now,
                limit,
                cutoff,
            )[i]).departure.trip_id@.len() > 0 ==> selected_cancellations(
                config,
                departures,
                now,
                limit,
                cutoff,
            )[i].departure.trip_id@ != (#[trigger] selected_cancellations(
                config,
                departures,
                now,
                limit,
                cutoff,
            )[j]).departure.trip_id@,
{
    let cs = cancelled_candidates(config, departures, now);
    let d = deduplicated(cs);
    let s = ranked(d);
    let due = departing_by(s, cutoff, s.len() as int);
    let notes = selected_cancellations(config, departures, now, limit, cutoff);
    lemma_deduplicated(cs);
    lemma_ranked_trips_distinct(d);
    lemma_ranked_sorted(d);
    lemma_due_positions(s, cutoff, s.len() as int);
    let pos = due_positions(s, cutoff, s.len() as int);
    assert forall|i: int, j: int|
        0 <= i < notes.len() && 0 <= j < notes.len() && i != j && (
        #[trigger] notes[i]).departure.trip_id@.len() > 0 implies notes[i].departure.trip_id@ != (
    #[trigger] notes[j]).departure.trip_id@ by {
        assert(notes[i] == due[i].selected && notes[j] == due[j].selected);
        let p = pos[i];
        let q = pos[j];
        if i < j {
            assert(p < q);
        } else {
            assert(q < p);
        }
        assert(due[i] == s[p] && due[j] == s[q]);
    }
}

proof fn lemma_first_serving_point_found(
    points: Seq<crate::config::BoardingPoint>,
    d: Departure,
    from: nat,
    p: int,
)
    requires
        from <= p < points.len(),
        serves(points[p], d),
    ensures
        first_serving_point(points, d, from) matches Some(i) && i <= p,
    decreases p - from,
{
    if from < p && !serves(points[from as int], d) {
        lemma_first_serving_point_found(points, d, from + 1, p);
    }
}

/// Ranking loses no candidate.
proof fn lemma_ranked_contains(s: Seq<Candidate>)
    ensures
        forall|i: int| 0 <= i < s.len() ==> ranked(s).contains(#[trigger] s[i]),
    decreases s.len(),
{
    if s.len() > 0 {
        let rest = s.drop_last();
        let x = s.last();
        lemma_ranked_contains(rest);
        let sorted = ranked(rest);
        lemma_insert_position(sorted, x, 0);
        let p = insert_position(sorted, x, 0) as int;
        let r = sorted.insert(p, x);
        assert(r == ranked(s));
        assert forall|i: int| 0 <= i < s.len() implies r.contains(#[trigger] s[i]) by {
            if i == s.len() - 1 {
                assert(r[p] == x);
            } else {
                assert(s[i] == rest[i]);
                assert(sorted.contains(rest[i]));
                let y = choose|y: int| 0 <= y < sorted.len() && sorted[y] == rest[i];
                if y < p {
                    assert(r[y] == sorted[y]);
                } else {
                    assert(r[y + 1] == sorted[y]);
                }
            }
        }
    }
}

/// De-duplication keeps every candidate that has no trip ID.
proof fn lemma_deduplicated_keeps_tripless(s: Seq<Candidate>)
    ensures
        forall|k: int|
            0 <= k < s.len() && (#[trigger] s[k]).selected.departure.trip_id@.len() == 0
                ==> deduplicated(s).contains(s[k]),
    decreases s.len(),
{
    if s.len() > 0 {
        let rest = s.drop_last();
        let c = s.last();
        lemma_deduplicated_keeps_tripless(rest);
        let acc = deduplicated(rest);
        let d = deduplicated(s);
        assert(d == dedup_step(acc, c));
        let trip = c.selected.departure.trip_id@;
        lemma_trip_position(acc, trip, 0);
        assert forall|k: int|
            0 <= k < s.len() && (#[trigger] s[k]).selected.departure.trip_id@.len()
                == 0 implies d.contains(s[k]) by {
            if k == s.len() - 1 {
                assert(d[d.len() - 1] == c);
            } else {
                assert(s[k] == rest[k]);
                assert(acc.contains(rest[k]));
                let y = choose|y: int| 0 <= y < acc.len() && acc[y] == rest[k];
                if trip.len() > 0 {
                    match trip_position(acc, trip, 0) {
                        Some(i) => {
                            assert(acc[i as int].selected.departure.trip_id@.len() > 0);
                            assert(y != i);
                            assert(d[y] == acc[y]);
                        },
                        None => {
                            assert(d[y] == acc[y]);
                        },
                    }
                } else {
                    assert(d[y] == acc[y]);
                }
            }
        }
    }
}

proof fn lemma_all_flags_set(keep: Seq<bool>, n: int)
    requires
        0 <= n <= keep.len(),
    ensures
        set_flags(keep, n) <= n,
        set_flags(keep, n) == n ==> forall|i: int| 0 <= i < n ==> #[trigger] keep[i],
    decreases n,
{
    if n > 0 {
        lemma_all_flags_set(keep, n - 1);
    }
}

proof fn lemma_kept_all(s: Seq<Candidate>, keep: Seq<bool>, n: int)
    requires
        0 <= n <= s.len(),
        n <= keep.len(),
        forall|i: int| 0 <= i < n ==> #[trigger] keep[i],
    ensures
        kept(s, keep, n).len() == n,
        forall|i: int| 0 <= i < n ==> #[trigger] kept(s, keep, n)[i] == s[i].selected,
    decreases n,
{
    if n > 0 {
        lemma_kept_all(s, keep, n - 1);
        assert(keep[n - 1]);
    }
}

/// A departure that is not cancelled, whose stop is any one of a boarding
/// point's stop IDs (not only the first) and whose line and headsign are one
/// of that point's routes, is matched: it has a candidate, seen from that
/// point or an earlier one that serves it too. When the selection stays
/// short of its limit, such a departure, if it qualifies (reachable, or
/// unreachable ones asked for), is selected: its trip appears, or, without a
/// trip ID, that very option.
pub proof fn law_served_departure_is_selected(
    config: Config,
    departures: Seq<Departure>,
    now: UtcTime,
    options: SelectionOptions,
    k: int,
    p: int,
    x: int,
    r: int,
)
    requires
        0 <= k < departures.len(),
        !departures[k].is_cancelled,
        0 <= p < config.boarding_points@.len(),
        0 <= x < config.boarding_points@[p].stop_ids@.len(),
        config.boarding_points@[p].stop_ids@[x]@ == departures[k].stop_id@,
        0 <= r < config.boarding_points@[p].routes@.len(),
        config.boarding_points@[p].routes@[r].line@ == departures[k].line@,
        config.boarding_points@[p].routes@[r].headsign@ == departures[k].headsign@,
    ensures
        candidate_for(config, departures[k], now) matches Some(c) && c.configuration_order <= p
            && c.selected.departure == departures[k],
        ({
            let sel = selected_departures(config, departures, now, options);
            let c = candidate_for(config, departures[k], now)->0;
            (options.include_unreachable || c.selected.reachable) && sel.len() < options.limit
                ==> if departures[k].trip_id@.len() > 0 {
                exists|i: int|
                    0 <= i < sel.len() && (#[trigger] sel[i]).departure.trip_id@
                        == departures[k].trip_id@
            } else {
                exists|i: int| 0 <= i < sel.len() && #[trigger] sel[i] == c.selected
            }
        }),
{
    let inc = options.include_unreachable;
    let points = config.boarding_points@;
    let dk = departures[k];
    assert(serves(points[p], dk));
    lemma_first_serving_point_found(points, dk, 0, p);
    lemma_first_serving_point(points, dk, 0);
    let c = candidate_for(config, dk, now)->0;
    let sel = selected_departures(config, departures, now, options);
    if (inc || c.selected.reachable) && sel.len() < options.limit {
        let cs = candidates(config, departures, now, inc);
        lemma_candidates(config, departures, now, inc);
        assert(candidate_for(config, departures[k], now) is Some);
        assert(cs.contains(c));
        let y = choose|y: int| 0 <= y < cs.len() && cs[y] == c;
        let d = deduplicated(cs);
        let s = ranked(d);
        let quotas = config.display.route_quotas@;
        let keep = Seq::new(s.len(), |i: int| keeps(quotas, s, options.limit as nat, i));
        law_selection_fills_slots(config, departures, now, options);
        lemma_kept_len(s, keep, s.len() as int);
        lemma_all_flags_set(keep, s.len() as int);
        lemma_kept_all(s, keep, s.len() as int);
        lemma_ranked_contains(d);
        lemma_ranked_sorted(d);
        if dk.trip_id@.len() > 0 {
            lemma_deduplicated(cs);
            assert(cs[y].selected.departure.trip_id@.len() > 0);
            let e = choose|e: int|
                0 <= e < d.len() && (#[trigger] d[e]).selected.departure.trip_id@
                    == cs[y].selected.departure.trip_id@ && !dedup_precedes(cs[y], d[e]);
            assert(s.contains(d[e]));
            let j = choose|j: int| 0 <= j < s.len() && s[j] == d[e];
            assert(sel[j] == s[j].selected);
            assert(sel[j].departure.trip_id@ == dk.trip_id@);
        } else {
            lemma_deduplicated_keeps_tripless(cs);
            assert(cs[y].selected.departure.trip_id@.len() == 0);
            assert(d.contains(cs[y]));
            let e = choose|e: int| 0 <= e < d.len() && d[e] == cs[y];
            assert(s.contains(d[e]));
            let j = choose|j: int| 0 <= j < s.len() && s[j] == d[e];
            assert(sel[j] == s[j].selected);
            assert(sel[j] == c.selected);
        }
    }
}

/// Every reachable cancelled departure that a boarding point serves gives a
/// cancelled candidate.
proof fn lemma_cancelled_candidates_complete(config: Config, ds: Seq<Departure>, now: UtcTime)
    ensures
        forall|k: int|
            0 <= k < ds.len() && ds[k].is_cancelled && (#[trigger] candidate_for(config, ds[k], now)) is Some
                && candidate_for(config, ds[k], now)->0.selected.reachable ==> cancelled_candidates(
                config,
                ds,
                now,
            ).contains(candidate_for(config, ds[k], now)->0),
    decreases ds.len(),
{
    if ds.len() > 0 {
        let rest = ds.drop_last();
        lemma_cancelled_candidates_complete(config, rest, now);
        let prev = cancelled_candidates(config, rest, now);
        let all = cancelled_candidates(config, ds, now);
        assert forall|k: int|
            0 <= k < ds.len() && ds[k].is_cancelled && (#[trigger] candidate_for(
                config,
                ds[k],
                now,
            )) is Some && candidate_for(config, ds[k], now)->0.selected.reachable implies all.contains(
            candidate_for(config, ds[k], now)->0,
        ) by {
            let c = candidate_for(config, ds[k], now)->0;
            if k < rest.len() {
                assert(ds[k] == rest[k]);
                assert(prev.contains(c));
                let y = choose|y: int| 0 <= y < prev.len() && prev[y] == c;
                assert(all[y] == c);
            } else {
                assert(all[all.len() - 1] == c);
            }
        }
    }
}

/// When one cancelled trip is seen from several boarding points, its note is
/// the option that leaves the most time to reach it: at least as much as any
/// other reachable option of that trip.
pub proof fn law_cancellation_note_leaves_most_time(
    config: Config,
    departures: Seq<Departure>,
    now: UtcTime,
    limit: usize,
    cutoff: Option<UtcTime>,
)
    ensures
        forall|i: int, k: int|
            0 <= i < selected_cancellations(config, departures, now, limit, cutoff).len() && 0 <= k
                < departures.len() && departures[k].is_cancelled && (
            #[trigger] selected_cancellations(
                config,
                departures,
                now,
                limit,
                cutoff,
            )[i]).departure.trip_id@.len() > 0 && (#[trigger] candidate_for(
                config,
                departures[k],
                now,
            )) is Some && candidate_for(config, departures[k], now)->0.selected.reachable
                && departures[k].trip_id@ == selected_cancellations(
                config,
                departures,
                now,
                limit,
                cutoff,
            )[i].departure.trip_id@ ==> selected_cancellations(
                config,
                departures,
                now,
                limit,
                cutoff,
            )[i].leave_in_seconds >= candidate_for(config, departures[k], now)->0.selected.leave_in_seconds,
{
    let cs = cancelled_candidates(config, departures, now);
    let d = deduplicated(cs);
    let s = ranked(d);
    let due = departing_by(s, cutoff, s.len() as int);
    let notes = selected_cancellations(config, departures, now, limit, cutoff);
    lemma_deduplicated(cs);
    lemma_ranked_sorted(d);
    lemma_due_positions(s, cutoff, s.len() as int);
    lemma_cancelled_candidates_complete(config, departures, now);
    let pos = due_positions(s, cutoff, s.len() as int);
    assert forall|i: int, k: int|
        0 <= i < notes.len() && 0 <= k < departures.len() && departures[k].is_cancelled && (
        #[trigger] notes[i]).departure.trip_id@.len() > 0 && (#[trigger] candidate_for(
            config,
            departures[k],
            now,
        )) is Some && candidate_for(config, departures[k], now)->0.selected.reachable
            && departures[k].trip_id@ == notes[i].departure.trip_id@ implies notes[i].leave_in_seconds
        >= candidate_for(config, departures[k], now)->0.selected.leave_in_seconds by {
        let c = candidate_for(config, departures[k], now)->0;
        lemma_first_serving_point(config.boarding_points@, departures[k], 0);
        assert(c.selected.departure == departures[k]);
        assert(cs.contains(c));
        let x = choose|x: int| 0 <= x < cs.len() && cs[x] == c;
        assert(cs[x].selected.departure.trip_id@.len() > 0);
        let e = choose|e: int|
            0 <= e < d.len() && (#[trigger] d[e]).selected.departure.trip_id@
                == cs[x].selected.departure.trip_id@ && !dedup_precedes(cs[x], d[e]);
        assert(notes[i] == due[i].selected);
        let p = pos[i];
        assert(due[i] == s[p]);
        assert(d.contains(s[p]));
        let f = choose|f: int| 0 <= f < d.len() && d[f] == s[p];
        if f != e {
            assert(d[f].selected.departure.trip_id@ != d[e].selected.departure.trip_id@);
        }
    }
}

} // verus!
