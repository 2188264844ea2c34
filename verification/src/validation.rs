//! Semantic validation of a configuration, reporting every problem found in
//! declaration order.

use vstd::prelude::*;

use crate::config::{
    BoardingPoint, BoardingPointView, Config, ConfigView, RouteQuotaView, normalized_view,
    law_normalize_idempotent, MAX_DISPLAY_DEPARTURES,
};
use crate::text::{debug_quote, debug_quoted, decimal, push_decimal, push_str};

verus! {

/// Every semantic error found in a configuration, in declaration order.
#[derive(Debug, Clone, PartialEq, Eq)]
pub struct ValidationErrors(pub Vec<String>);

/// The characters of each string.
pub open spec fn texts(v: Seq<String>) -> Seq<Seq<char>> {
    v.map_values(|s: String| s@)
}

/// The value lies in the accepted range `1..=20`.
pub open spec fn in_accepted_range(v: usize) -> bool {
    1 <= v <= MAX_DISPLAY_DEPARTURES
}

/// One message when `condition` holds, none otherwise.
pub open spec fn error_if(condition: bool, message: Seq<char>) -> Seq<Seq<char>> {
    if condition {
        seq![message]
    } else {
        seq![]
    }
}

/// `name[i]`.
pub open spec fn indexed(name: Seq<char>, i: int) -> Seq<char> {
    name + "["@ + decimal(i as nat) + "]"@
}

/// The path of boarding point `p` in messages.
pub open spec fn point_path(p: int) -> Seq<char> {
    indexed("boarding_points"@, p)
}

/// The path of route `j` of boarding point `p` in messages.
pub open spec fn route_path(p: int, j: int) -> Seq<char> {
    indexed(point_path(p) + ".routes"@, j)
}

/// The path of quota `i` in messages.
pub open spec fn quota_path(i: int) -> Seq<char> {
    indexed("display.route_quotas"@, i)
}

/// `line "L" toward "H"`, the tail of a duplicate-route message.
pub open spec fn duplicate_message(path: Seq<char>, line: Seq<char>, headsign: Seq<char>) -> Seq<
    char,
> {
    path + " duplicates line "@ + debug_quoted(line) + " toward "@ + debug_quoted(headsign)
}

/// Stop `k` of boarding point `p` repeats a stop ID listed earlier, in this
/// point or in an earlier one.
pub open spec fn stop_listed_earlier(points: Seq<BoardingPointView>, p: int, k: int) -> bool {
    let id = points[p].stop_ids[k];
    ||| exists|q: int, x: int|
        0 <= q < p && 0 <= x < points[q].stop_ids.len() && #[trigger] points[q].stop_ids[x] == id
    ||| exists|x: int| 0 <= x < k && #[trigger] points[p].stop_ids[x] == id
}

/// The errors of the first `k` stop IDs of boarding point `p`.
pub open spec fn stop_errors(points: Seq<BoardingPointView>, p: int, k: int) -> Seq<Seq<char>>
    decreases k,
{
    if k <= 0 {
        seq![]
    } else {
        let id = points[p].stop_ids[k - 1];
        stop_errors(points, p, k - 1) + if id.len() == 0 {
            seq![indexed(point_path(p) + ".stop_ids"@, k - 1) + " must not be empty"@]
        } else if stop_listed_earlier(points, p, k - 1) {
            seq!["stop ID "@ + debug_quoted(id) + " is configured more than once"@]
        } else {
            seq![]
        }
    }
}

/// Route `j` of the point repeats the line and headsign of an earlier route
/// of the same point.
pub open spec fn route_listed_earlier(point: BoardingPointView, j: int) -> bool {
    exists|x: int|
        0 <= x < j && #[trigger] point.routes[x].line == point.routes[j].line
            && point.routes[x].headsign == point.routes[j].headsign
}

/// The errors of the first `j` routes of boarding point `p`.
pub open spec fn route_errors(points: Seq<BoardingPointView>, p: int, j: int) -> Seq<Seq<char>>
    decreases j,
{
    if j <= 0 {
        seq![]
    } else {
        let route = points[p].routes[j - 1];
        let path = route_path(p, j - 1);
        route_errors(points, p, j - 1) + error_if(
            route.line.len() == 0,
            path + ".line must not be empty"@,
        ) + error_if(route.headsign.len() == 0, path + ".headsign must not be empty"@)
            + error_if(
            route.line.len() > 0 && route.headsign.len() > 0 && route_listed_earlier(
                points[p],
                j - 1,
            ),
            duplicate_message(path, route.line, route.headsign),
        )
    }
}

/// The errors of boarding point `p`.
pub open spec fn point_errors(points: Seq<BoardingPointView>, p: int) -> Seq<Seq<char>> {
    let point = points[p];
    let path = point_path(p);
    error_if(point.name.len() == 0, path + ".name must not be empty"@) + error_if(
        point.walking_minutes == 0,
        path + ".walking_minutes must be greater than 0"@,
    ) + error_if(point.stop_ids.len() == 0, path + ".stop_ids must not be empty"@) + stop_errors(
        points,
        p,
        point.stop_ids.len() as int,
    ) + error_if(point.routes.len() == 0, path + ".routes must not be empty"@) + route_errors(
        points,
        p,
        point.routes.len() as int,
    )
}

/// The errors of the first `n` boarding points.
pub open spec fn points_errors(points: Seq<BoardingPointView>, n: int) -> Seq<Seq<char>>
    decreases n,
{
    if n <= 0 {
        seq![]
    } else {
        points_errors(points, n - 1) + point_errors(points, n - 1)
    }
}

/// Some boarding point has a route for `line` toward `headsign`.
pub open spec fn route_configured(
    points: Seq<BoardingPointView>,
    line: Seq<char>,
    headsign: Seq<char>,
) -> bool {
    exists|p: int, j: int|
        0 <= p < points.len() && 0 <= j < points[p].routes.len() && #[trigger] points[p].routes[j].line
            == line && points[p].routes[j].headsign == headsign
}

/// Quota `i` repeats the line and headsign of an earlier quota.
pub open spec fn quota_listed_earlier(quotas: Seq<RouteQuotaView>, i: int) -> bool {
    exists|x: int|
        0 <= x < i && #[trigger] quotas[x].line == quotas[i].line && quotas[x].headsign
            == quotas[i].headsign
}

/// The errors of the first `n` quotas.
pub open spec fn quota_errors(c: ConfigView, n: int) -> Seq<Seq<char>>
    decreases n,
{
    if n <= 0 {
        seq![]
    } else {
        let q = c.route_quotas[n - 1];
        let path = quota_path(n - 1);
        let complete = q.line.len() > 0 && q.headsign.len() > 0;
        quota_errors(c, n - 1) + error_if(q.line.len() == 0, path + ".line must not be empty"@)
            + error_if(q.headsign.len() == 0, path + ".headsign must not be empty"@) + error_if(
            !in_accepted_range(q.minimum_departures),
            path + ".minimum_departures must be between 1 and 20"@,
        ) + error_if(
            complete && quota_listed_earlier(c.route_quotas, n - 1),
            duplicate_message(path, q.line, q.headsign),
        ) + error_if(
            complete && !route_configured(c.boarding_points, q.line, q.headsign),
            path + " does not match a configured boarding-point route"@,
        )
    }
}

/// The sum of the accepted minimums of the first `n` quotas, saturating at
/// the largest `usize`.
pub open spec fn quota_total(quotas: Seq<RouteQuotaView>, n: int) -> nat
    decreases n,
{
    if n <= 0 {
        0
    } else {
        let before = quota_total(quotas, n - 1);
        if in_accepted_range(quotas[n - 1].minimum_departures) {
            if before + quotas[n - 1].minimum_departures > usize::MAX {
                usize::MAX as nat
            } else {
                (before + quotas[n - 1].minimum_departures) as nat
            }
        } else {
            before
        }
    }
}

/// Every semantic error of a (normalized) configuration, in order: the
/// display and fetch ranges, the presence of boarding points, the errors of
/// each boarding point, the errors of each quota, and quota minimums that
/// exceed the display limit.
pub open spec fn validation_errors(c: ConfigView) -> Seq<Seq<char>> {
    let total = quota_total(c.route_quotas, c.route_quotas.len() as int);
    error_if(
        !in_accepted_range(c.max_departures),
        "display.max_departures must be between 1 and 20"@,
    ) + error_if(c.minutes_after == 0, "fetch.minutes_after must be greater than 0"@) + error_if(
        !in_accepted_range(c.api_limit),
        "fetch.api_limit must be between 1 and 20"@,
    ) + error_if(c.boarding_points.len() == 0, "at least one boarding point is required"@)
        + points_errors(c.boarding_points, c.boarding_points.len() as int) + quota_errors(
        c,
        c.route_quotas.len() as int,
    ) + error_if(
        total > c.max_departures,
        "display route minimums total "@ + decimal(total) + ", exceeding display.max_departures "@
            + decimal(c.max_departures as nat),
    )
}

fn push_error(errors: &mut Vec<String>, message: String)
    ensures
        texts(final(errors)@) == texts(old(errors)@) + seq![message@],
{
    let ghost before = errors@;
    errors.push(message);
    assert(texts(errors@) =~= texts(before) + seq![message@]);
}

fn message(text: &str) -> (r: String)
    ensures
        r@ == text@,
{
    text.to_owned()
}

fn push_index(s: &mut String, i: usize)
    ensures
        final(s)@ == indexed(old(s)@, i as int),
{
    push_str(s, "[");
    push_decimal(s, i as u64);
    push_str(s, "]");
}

fn indexed_text(name: &str, i: usize) -> (r: String)
    ensures
        r@ == indexed(name@, i as int),
{
    let mut s = message(name);
    push_index(&mut s, i);
    s
}

fn with_suffix(mut s: String, suffix: &str) -> (r: String)
    ensures
        r@ == s@ + suffix@,
{
    push_str(&mut s, suffix);
    s
}

fn duplicate_text(path: &String, line: &str, headsign: &str) -> (r: String)
    ensures
        r@ == duplicate_message(path@, line@, headsign@),
{
    let mut s = path.clone();
    push_str(&mut s, " duplicates line ");
    let quoted_line = debug_quote(line);
    push_str(&mut s, quoted_line.as_str());
    push_str(&mut s, " toward ");
    let quoted_headsign = debug_quote(headsign);
    push_str(&mut s, quoted_headsign.as_str());
    s
}

fn stop_listed_before(points: &Vec<BoardingPoint>, p: usize, k: usize) -> (r: bool)
    requires
        p < points@.len(),
        k < points@[p as int].stop_ids@.len(),
    ensures
        r == stop_listed_earlier(points@.map_values(|b: BoardingPoint| b@), p as int, k as int),
{
    let ghost views = points@.map_values(|b: BoardingPoint| b@);
    let id = &points[p].stop_ids[k];
    assert(views[p as int].stop_ids[k as int] == id@);
    let mut q: usize = 0;
    while q < p
        invariant
            q <= p < points@.len(),
            views == points@.map_values(|b: BoardingPoint| b@),
            id == points@[p as int].stop_ids@[k as int],
            views[p as int].stop_ids[k as int] == id@,
            forall|y: int, x: int|
                0 <= y < q && 0 <= x < views[y].stop_ids.len() ==> #[trigger] views[y].stop_ids[x]
                    != id@,
        decreases p - q,
    {
        let stops = &points[q].stop_ids;
        let mut x: usize = 0;
        while x < stops.len()
            invariant
                x <= stops@.len(),
                q < p < points@.len(),
                views == points@.map_values(|b: BoardingPoint| b@),
                stops == points@[q as int].stop_ids,
                id == points@[p as int].stop_ids@[k as int],
                views[p as int].stop_ids[k as int] == id@,
                forall|y: int, z: int|
                    0 <= y < q && 0 <= z < views[y].stop_ids.len() ==> #[trigger] views[y].stop_ids[z]
                        != id@,
                forall|z: int| 0 <= z < x ==> #[trigger] views[q as int].stop_ids[z] != id@,
            decreases stops@.len() - x,
        {
            if stops[x] == *id {
                assert(views[q as int].stop_ids[x as int] == id@);
                return true;
            }
            x = x + 1;
        }
        q = q + 1;
    }
    let stops = &points[p].stop_ids;
    let mut x: usize = 0;
    while x < k
        invariant
            x <= k < stops@.len(),
            p < points@.len(),
            views == points@.map_values(|b: BoardingPoint| b@),
            stops == points@[p as int].stop_ids,
            id == points@[p as int].stop_ids@[k as int],
            views[p as int].stop_ids[k as int] == id@,
            forall|y: int, z: int|
                0 <= y < p && 0 <= z < views[y].stop_ids.len() ==> #[trigger] views[y].stop_ids[z]
                    != id@,
            forall|z: int| 0 <= z < x ==> #[trigger] views[p as int].stop_ids[z] != id@,
        decreases k - x,
    {
        if stops[x] == *id {
            assert(views[p as int].stop_ids[x as int] == id@);
            return true;
        }
        x = x + 1;
    }
    false
}

fn route_listed_before(point: &BoardingPoint, j: usize) -> (r: bool)
    requires
        j < point.routes@.len(),
    ensures
        r == route_listed_earlier(point@, j as int),
{
    let route = &point.routes[j];
    let mut x: usize = 0;
    while x < j
        invariant
            x <= j < point.routes@.len(),
            route == point.routes@[j as int],
            forall|z: int|
                0 <= z < x ==> !(#[trigger] point@.routes[z].line == point@.routes[j as int].line
                    && point@.routes[z].headsign == point@.routes[j as int].headsign),
        decreases j - x,
    {
        let other = &point.routes[x];
        if other.line == route.line && other.headsign == route.headsign {
            assert(point@.routes[x as int].line == point@.routes[j as int].line);
            return true;
        }
        x = x + 1;
    }
    false
}

/// Appends the errors of boarding point `p`.
fn push_point_errors(errors: &mut Vec<String>, points: &Vec<BoardingPoint>, p: usize)
    requires
        p < points@.len(),
    ensures
        texts(final(errors)@) == texts(old(errors)@) + point_errors(
            points@.map_values(|b: BoardingPoint| b@),
            p as int,
        ),
{
    let ghost views = points@.map_values(|b: BoardingPoint| b@);
    let ghost start = texts(errors@);
    let point = &points[p];
    assert(views[p as int] == point@);
    let path = indexed_text("boarding_points", p);
    if point.name.as_str().is_empty() {
        push_error(errors, with_suffix(path.clone(), ".name must not be empty"));
    }
    if point.walking_minutes == 0 {
        push_error(errors, with_suffix(path.clone(), ".walking_minutes must be greater than 0"));
    }
    if point.stop_ids.len() == 0 {
        push_error(errors, with_suffix(path.clone(), ".stop_ids must not be empty"));
    }
    let ghost head = texts(errors@);
    assert(head =~= start + error_if(point@.name.len() == 0, point_path(p as int)
        + ".name must not be empty"@) + error_if(
        point@.walking_minutes == 0,
        point_path(p as int) + ".walking_minutes must be greater than 0"@,
    ) + error_if(point@.stop_ids.len() == 0, point_path(p as int) + ".stop_ids must not be empty"@));
    let mut k: usize = 0;
    while k < point.stop_ids.len()
        invariant
            k <= point.stop_ids@.len(),
            p < points@.len(),
            point == points@[p as int],
            views == points@.map_values(|b: BoardingPoint| b@),
            views[p as int] == point@,
            path@ == point_path(p as int),
            texts(errors@) == head + stop_errors(views, p as int, k as int),
        decreases point.stop_ids@.len() - k,
    {
        let id = &point.stop_ids[k];
        assert(views[p as int].stop_ids[k as int] == id@);
        let ghost before = texts(errors@);
        if id.as_str().is_empty() {
            let mut m = path.clone();
            push_str(&mut m, ".stop_ids");
            push_index(&mut m, k);
            push_str(&mut m, " must not be empty");
            assert(m@ =~= indexed(point_path(p as int) + ".stop_ids"@, k as int)
                + " must not be empty"@);
            push_error(errors, m);
        } else if stop_listed_before(points, p, k) {
            let mut m = message("stop ID ");
            let quoted = debug_quote(id.as_str());
            push_str(&mut m, quoted.as_str());
            push_str(&mut m, " is configured more than once");
            push_error(errors, m);
        }
        assert(texts(errors@) =~= head + stop_errors(views, p as int, k + 1));
        k = k + 1;
    }
    if point.routes.len() == 0 {
        push_error(errors, with_suffix(path.clone(), ".routes must not be empty"));
    }
    let ghost mid = texts(errors@);
    let mut j: usize = 0;
    while j < point.routes.len()
        invariant
            j <= point.routes@.len(),
            p < points@.len(),
            point == points@[p as int],
            views == points@.map_values(|b: BoardingPoint| b@),
            views[p as int] == point@,
            path@ == point_path(p as int),
            texts(errors@) == mid + route_errors(views, p as int, j as int),
        decreases point.routes@.len() - j,
    {
        let route = &point.routes[j];
        assert(views[p as int].routes[j as int] == route@);
        let mut route_path_text = path.clone();
        push_str(&mut route_path_text, ".routes");
        push_index(&mut route_path_text, j);
        assert(route_path_text@ =~= route_path(p as int, j as int));
        let ghost before = texts(errors@);
        let line_empty = route.line.as_str().is_empty();
        let headsign_empty = route.headsign.as_str().is_empty();
        if line_empty {
            push_error(errors, with_suffix(route_path_text.clone(), ".line must not be empty"));
        }
        if headsign_empty {
            push_error(
                errors,
                with_suffix(route_path_text.clone(), ".headsign must not be empty"),
            );
        }
        if !line_empty && !headsign_empty && route_listed_before(point, j) {
            push_error(
                errors,
                duplicate_text(&route_path_text, route.line.as_str(), route.headsign.as_str()),
            );
        }
        assert(texts(errors@) =~= mid + route_errors(views, p as int, j + 1));
        j = j + 1;
    }
    assert(texts(errors@) =~= start + point_errors(views, p as int));
}

fn route_is_configured(points: &Vec<BoardingPoint>, line: &String, headsign: &String) -> (r: bool)
    ensures
        r == route_configured(points@.map_values(|b: BoardingPoint| b@), line@, headsign@),
{
    let ghost views = points@.map_values(|b: BoardingPoint| b@);
    let mut p: usize = 0;
    while p < points.len()
        invariant
            p <= points@.len(),
            views == points@.map_values(|b: BoardingPoint| b@),
            forall|y: int, x: int|
                0 <= y < p && 0 <= x < views[y].routes.len() ==> !(#[trigger] views[y].routes[x].line
                    == line@ && views[y].routes[x].headsign == headsign@),
        decreases points@.len() - p,
    {
        let routes = &points[p].routes;
        assert(views[p as int] == points@[p as int]@);
        let mut j: usize = 0;
        while j < routes.len()
            invariant
                j <= routes@.len(),
                p < points@.len(),
                views == points@.map_values(|b: BoardingPoint| b@),
                views[p as int] == points@[p as int]@,
                routes == points@[p as int].routes,
                forall|y: int, x: int|
                    0 <= y < p && 0 <= x < views[y].routes.len() ==> !(
                    #[trigger] views[y].routes[x].line == line@ && views[y].routes[x].headsign
                        == headsign@),
                forall|x: int|
                    0 <= x < j ==> !(#[trigger] views[p as int].routes[x].line == line@
                        && views[p as int].routes[x].headsign == headsign@),
            decreases routes@.len() - j,
        {
            if routes[j].line == *line && routes[j].headsign == *headsign {
                assert(views[p as int].routes[j as int].line == line@);
                return true;
            }
            j = j + 1;
        }
        p = p + 1;
    }
    false
}

fn quota_listed_before(config: &Config, i: usize) -> (r: bool)
    requires
        i < config.display.route_quotas@.len(),
    ensures
        r == quota_listed_earlier(config@.route_quotas, i as int),
{
    let quotas = &config.display.route_quotas;
    let ghost views = config@.route_quotas;
    let quota = &quotas[i];
    let mut x: usize = 0;
    while x < i
        invariant
            x <= i < quotas@.len(),
            quotas == config.display.route_quotas,
            views == config@.route_quotas,
            quota == quotas@[i as int],
            forall|z: int|
                0 <= z < x ==> !(#[trigger] views[z].line == views[i as int].line
                    && views[z].headsign == views[i as int].headsign),
        decreases i - x,
    {
        let other = &quotas[x];
        if other.line == quota.line && other.headsign == quota.headsign {
            assert(views[x as int].line == views[i as int].line);
            return true;
        }
        x = x + 1;
    }
    false
}

impl Config {
    /// The errors of a configuration whose text is already normalized.
    pub fn validate_normalized(&self) -> (r: Result<(), ValidationErrors>)
        ensures
            r is Ok <==> validation_errors(self@).len() == 0,
            r matches Err(e) ==> texts(e.0@) == validation_errors(self@),
    {
        let ghost c = self@;
        let mut errors: Vec<String> = Vec::new();
        if !(1 <= self.display.max_departures && self.display.max_departures
            <= MAX_DISPLAY_DEPARTURES) {
            push_error(&mut errors, message("display.max_departures must be between 1 and 20"));
        }
        if self.fetch.minutes_after == 0 {
            push_error(&mut errors, message("fetch.minutes_after must be greater than 0"));
        }
        if !(1 <= self.fetch.api_limit && self.fetch.api_limit <= MAX_DISPLAY_DEPARTURES) {
            push_error(&mut errors, message("fetch.api_limit must be between 1 and 20"));
        }
        if self.boarding_points.len() == 0 {
            push_error(&mut errors, message("at least one boarding point is required"));
        }
        let ghost head = texts(errors@);
        assert(texts(Seq::<String>::empty()) =~= Seq::<Seq<char>>::empty());
        let mut p: usize = 0;
        while p < self.boarding_points.len()
            invariant
                p <= self.boarding_points@.len(),
                c == self@,
                c.boarding_points == self.boarding_points@.map_values(|b: BoardingPoint| b@),
                texts(errors@) == head + points_errors(c.boarding_points, p as int),
            decreases self.boarding_points@.len() - p,
        {
            push_point_errors(&mut errors, &self.boarding_points, p);
            assert(texts(errors@) =~= head + points_errors(c.boarding_points, p + 1));
            p = p + 1;
        }
        let ghost mid = texts(errors@);
        let quotas = &self.display.route_quotas;
        let mut total: usize = 0;
        let mut i: usize = 0;
        while i < quotas.len()
            invariant
                i <= quotas@.len(),
                c == self@,
                quotas == self.display.route_quotas,
                c.boarding_points == self.boarding_points@.map_values(|b: BoardingPoint| b@),
                c.route_quotas == quotas@.map_values(|q: crate::config::RouteQuota| q@),
                total == quota_total(c.route_quotas, i as int),
                texts(errors@) == mid + quota_errors(c, i as int),
            decreases quotas@.len() - i,
        {
            let quota = &quotas[i];
            assert(c.route_quotas[i as int] == quota@);
            let path = indexed_text("display.route_quotas", i);
            let line_empty = quota.line.as_str().is_empty();
            let headsign_empty = quota.headsign.as_str().is_empty();
            if line_empty {
                push_error(&mut errors, with_suffix(path.clone(), ".line must not be empty"));
            }
            if headsign_empty {
                push_error(&mut errors, with_suffix(path.clone(), ".headsign must not be empty"));
            }
            if 1 <= quota.minimum_departures && quota.minimum_departures <= MAX_DISPLAY_DEPARTURES {
                total = total.saturating_add(quota.minimum_departures);
            } else {
                push_error(
                    &mut errors,
                    with_suffix(path.clone(), ".minimum_departures must be between 1 and 20"),
                );
            }
            if !line_empty && !headsign_empty {
                if quota_listed_before(self, i) {
                    push_error(
                        &mut errors,
                        duplicate_text(&path, quota.line.as_str(), quota.headsign.as_str()),
                    );
                }
                if !route_is_configured(&self.boarding_points, &quota.line, &quota.headsign) {
                    push_error(
                        &mut errors,
                        with_suffix(
                            path.clone(),
                            " does not match a configured boarding-point route",
                        ),
                    );
                }
            }
            assert(texts(errors@) =~= mid + quota_errors(c, i + 1));
            i = i + 1;
        }
        if total > self.display.max_departures {
            let mut m = message("display route minimums total ");
            push_decimal(&mut m, total as u64);
            push_str(&mut m, ", exceeding display.max_departures ");
            push_decimal(&mut m, self.display.max_departures as u64);
            push_error(&mut errors, m);
        }
        assert(texts(errors@) =~= validation_errors(c));
        if errors.len() == 0 {
            Ok(())
        } else {
            Err(ValidationErrors(errors))
        }
    }

    /// Validate configuration invariants on a normalized copy of this
    /// configuration, which itself is left unchanged.
    ///
    /// Returns every detected semantic error in declaration order.
    pub fn validate(&self) -> (r: Result<(), ValidationErrors>)
        ensures
            r is Ok <==> validation_errors(normalized_view(self@)).len() == 0,
            r matches Err(e) ==> texts(e.0@) == validation_errors(normalized_view(self@)),
    {
        let normalized = self.normalized();
        assert(normalized@ == normalized_view(self@));
        normalized.validate_normalized()
    }
}

/// The messages as a bulleted list: each one after `- `, one per line.
pub open spec fn bullet_list(errors: Seq<Seq<char>>) -> Seq<char>
    decreases errors.len(),
{
    if errors.len() == 0 {
        seq![]
    } else if errors.len() == 1 {
        "- "@ + errors[0]
    } else {
        bullet_list(errors.drop_last()) + "\n- "@ + errors.last()
    }
}

/// The messages as a bulleted list, one per line.
pub fn format_validation_errors(errors: &[String]) -> (r: String)
    ensures
        r@ == bullet_list(texts(errors@)),
{
    let mut out = String::new();
    let mut i: usize = 0;
    while i < errors.len()
        invariant
            i <= errors@.len(),
            out@ == bullet_list(texts(errors@.take(i as int))),
        decreases errors@.len() - i,
    {
        assert(texts(errors@.take(i + 1)).drop_last() =~= texts(errors@.take(i as int)));
        assert(texts(errors@.take(i + 1)).last() == errors@[i as int]@);
        if i == 0 {
            assert(out@ =~= Seq::<char>::empty());
            push_str(&mut out, "- ");
            push_str(&mut out, errors[i].as_str());
            assert(texts(errors@.take(1)) =~= seq![errors@[0]@]);
        } else {
            push_str(&mut out, "\n- ");
            push_str(&mut out, errors[i].as_str());
        }
        i = i + 1;
    }
    assert(errors@.take(errors@.len() as int) =~= errors@);
    out
}

impl ValidationErrors {
    /// The error's message: a heading followed by every error on its own
    /// bulleted line.
    pub fn to_string(&self) -> (r: String)
        ensures
            r@ == "configuration is invalid:\n"@ + bullet_list(texts(self.0@)),
    {
        let mut out = message("configuration is invalid:\n");
        let list = format_validation_errors(self.0.as_slice());
        push_str(&mut out, list.as_str());
        out
    }
}

proof fn lemma_points_errors_empty(points: Seq<BoardingPointView>, n: int, p: int)
    requires
        0 <= p < n,
        points_errors(points, n).len() == 0,
    ensures
        point_errors(points, p).len() == 0,
    decreases n,
{
    if p < n - 1 {
        lemma_points_errors_empty(points, n - 1, p);
    }
}

proof fn lemma_stop_errors_empty(points: Seq<BoardingPointView>, p: int, n: int, k: int)
    requires
        0 <= k < n,
        stop_errors(points, p, n).len() == 0,
    ensures
        points[p].stop_ids[k].len() > 0,
        !stop_listed_earlier(points, p, k),
    decreases n,
{
    if k < n - 1 {
        lemma_stop_errors_empty(points, p, n - 1, k);
    }
}

proof fn lemma_quota_errors_empty(c: ConfigView, n: int, i: int)
    requires
        0 <= i < n,
        quota_errors(c, n).len() == 0,
    ensures
        c.route_quotas[i].line.len() > 0,
        c.route_quotas[i].headsign.len() > 0,
        in_accepted_range(c.route_quotas[i].minimum_departures),
        !quota_listed_earlier(c.route_quotas, i),
        route_configured(c.boarding_points, c.route_quotas[i].line, c.route_quotas[i].headsign),
    decreases n,
{
    if i < n - 1 {
        lemma_quota_errors_empty(c, n - 1, i);
    }
}

proof fn lemma_point_errors_empty(points: Seq<BoardingPointView>, p: int)
    requires
        point_errors(points, p).len() == 0,
    ensures
        points[p].name.len() > 0,
        points[p].walking_minutes > 0,
        points[p].stop_ids.len() > 0,
        points[p].routes.len() > 0,
        stop_errors(points, p, points[p].stop_ids.len() as int).len() == 0,
{
}

proof fn lemma_stop_ids_distinct(points: Seq<BoardingPointView>, p: int, k: int, q: int, x: int)
    requires
        0 <= p < points.len(),
        0 <= q < points.len(),
        0 <= k < points[p].stop_ids.len(),
        0 <= x < points[q].stop_ids.len(),
        q < p || (q == p && x < k),
        !stop_listed_earlier(points, p, k),
    ensures
        points[p].stop_ids[k] != points[q].stop_ids[x],
{
    if q < p {
        if points[q].stop_ids[x] == points[p].stop_ids[k] {
            assert(exists|a: int, b: int|
                0 <= a < p && 0 <= b < points[a].stop_ids.len() && #[trigger] points[a].stop_ids[b]
                    == points[p].stop_ids[k]);
        }
    } else {
        if points[q].stop_ids[x] == points[p].stop_ids[k] {
            assert(exists|b: int| 0 <= b < k && #[trigger] points[p].stop_ids[b] == points[p].stop_ids[k]);
        }
    }
}

proof fn lemma_validation_parts(c: ConfigView)
    requires
        validation_errors(c).len() == 0,
    ensures
        1 <= c.max_departures <= 20,
        1 <= c.api_limit <= 20,
        c.minutes_after > 0,
        c.boarding_points.len() > 0,
        points_errors(c.boarding_points, c.boarding_points.len() as int).len() == 0,
        quota_errors(c, c.route_quotas.len() as int).len() == 0,
        quota_total(c.route_quotas, c.route_quotas.len() as int) <= c.max_departures,
{
}

/// What an accepted configuration guarantees: the display and fetch limits
/// are in range, the time window is not empty, there is a boarding point,
/// every boarding point has a name, a walk, stop IDs and routes, no stop ID
/// is configured twice, every quota names a configured route and has an
/// accepted minimum, and the quota minimums fit in the display limit.
pub proof fn law_accepted_configuration(c: ConfigView)
    requires
        validation_errors(c).len() == 0,
    ensures
        1 <= c.max_departures <= 20,
        1 <= c.api_limit <= 20,
        c.minutes_after > 0,
        c.boarding_points.len() > 0,
        forall|p: int|
            0 <= p < c.boarding_points.len() ==> {
                let point = #[trigger] c.boarding_points[p];
                &&& point.name.len() > 0
                &&& point.walking_minutes > 0
                &&& point.stop_ids.len() > 0
                &&& point.routes.len() > 0
            },
        forall|p: int, k: int|
            0 <= p < c.boarding_points.len() && 0 <= k < c.boarding_points[p].stop_ids.len()
                ==> (#[trigger] c.boarding_points[p].stop_ids[k]).len() > 0,
        forall|p: int, k: int, q: int, x: int|
            0 <= p < c.boarding_points.len() && 0 <= q < c.boarding_points.len() && 0 <= k
                < c.boarding_points[p].stop_ids.len() && 0 <= x
                < c.boarding_points[q].stop_ids.len() && (p != q || k != x) ==> (
            #[trigger] c.boarding_points[p].stop_ids[k]) != (
            #[trigger] c.boarding_points[q].stop_ids[x]),
        forall|i: int|
            0 <= i < c.route_quotas.len() ==> {
                let quota = #[trigger] c.route_quotas[i];
                &&& in_accepted_range(quota.minimum_departures)
                &&& route_configured(c.boarding_points, quota.line, quota.headsign)
            },
        quota_total(c.route_quotas, c.route_quotas.len() as int) <= c.max_departures,
{
    lemma_validation_parts(c);
    let points = c.boarding_points;
    let n = points.len() as int;
    assert forall|p: int| 0 <= p < n implies {
        let point = #[trigger] points[p];
        &&& point.name.len() > 0
        &&& point.walking_minutes > 0
        &&& point.stop_ids.len() > 0
        &&& point.routes.len() > 0
    } by {
        lemma_points_errors_empty(points, n, p);
        lemma_point_errors_empty(points, p);
    }
    assert forall|p: int, k: int|
        0 <= p < n && 0 <= k < points[p].stop_ids.len() implies (
    #[trigger] points[p].stop_ids[k]).len() > 0 by {
        lemma_points_errors_empty(points, n, p);
        lemma_point_errors_empty(points, p);
        lemma_stop_errors_empty(points, p, points[p].stop_ids.len() as int, k);
    }
    assert forall|p: int, k: int, q: int, x: int|
        0 <= p < n && 0 <= q < n && 0 <= k < points[p].stop_ids.len() && 0 <= x
            < points[q].stop_ids.len() && (p != q || k != x) implies (
    #[trigger] points[p].stop_ids[k]) != (#[trigger] points[q].stop_ids[x]) by {
        lemma_points_errors_empty(points, n, p);
        lemma_points_errors_empty(points, n, q);
        lemma_point_errors_empty(points, p);
        lemma_point_errors_empty(points, q);
        lemma_stop_errors_empty(points, p, points[p].stop_ids.len() as int, k);
        lemma_stop_errors_empty(points, q, points[q].stop_ids.len() as int, x);
        if q < p || (q == p && x < k) {
            lemma_stop_ids_distinct(points, p, k, q, x);
        } else {
            lemma_stop_ids_distinct(points, q, x, p, k);
        }
    }
    assert forall|i: int| 0 <= i < c.route_quotas.len() implies {
        let quota = #[trigger] c.route_quotas[i];
        &&& in_accepted_range(quota.minimum_departures)
        &&& route_configured(c.boarding_points, quota.line, quota.headsign)
    } by {
        lemma_quota_errors_empty(c, c.route_quotas.len() as int, i);
    }
}

/// The plain sum of the minimums of the first `n` quotas.
pub open spec fn minimums_sum(quotas: Seq<RouteQuotaView>, n: int) -> nat
    decreases n,
{
    if n <= 0 {
        0
    } else {
        minimums_sum(quotas, n - 1) + quotas[n - 1].minimum_departures as nat
    }
}

proof fn lemma_minimums_sum_monotone(quotas: Seq<RouteQuotaView>, m: int, n: int)
    requires
        m <= n,
    ensures
        minimums_sum(quotas, m) <= minimums_sum(quotas, n),
    decreases n - m,
{
    if m < n {
        lemma_minimums_sum_monotone(quotas, m, n - 1);
    }
}

proof fn lemma_quota_total_unsaturated(quotas: Seq<RouteQuotaView>, n: int)
    requires
        n <= quotas.len(),
        forall|i: int| 0 <= i < n ==> in_accepted_range(#[trigger] quotas[i].minimum_departures),
        minimums_sum(quotas, n) <= usize::MAX,
    ensures
        quota_total(quotas, n) == minimums_sum(quotas, n),
    decreases n,
{
    if n > 0 {
        lemma_minimums_sum_monotone(quotas, n - 1, n);
        lemma_quota_total_unsaturated(quotas, n - 1);
        assert(in_accepted_range(quotas[n - 1].minimum_departures));
    }
}

proof fn lemma_stop_errors_none(points: Seq<BoardingPointView>, p: int, k: int)
    requires
        0 <= p < points.len(),
        0 <= k <= points[p].stop_ids.len(),
        forall|x: int| 0 <= x < k ==> (#[trigger] points[p].stop_ids[x]).len() > 0,
        forall|x: int| 0 <= x < k ==> !stop_listed_earlier(points, p, x),
    ensures
        stop_errors(points, p, k).len() == 0,
    decreases k,
{
    if k > 0 {
        lemma_stop_errors_none(points, p, k - 1);
        assert(points[p].stop_ids[k - 1].len() > 0);
        assert(!stop_listed_earlier(points, p, k - 1));
    }
}

proof fn lemma_route_errors_none(points: Seq<BoardingPointView>, p: int, j: int)
    requires
        0 <= p < points.len(),
        0 <= j <= points[p].routes.len(),
        forall|x: int|
            0 <= x < j ==> (#[trigger] points[p].routes[x]).line.len() > 0
                && points[p].routes[x].headsign.len() > 0,
        forall|x: int| 0 <= x < j ==> !route_listed_earlier(points[p], x),
    ensures
        route_errors(points, p, j).len() == 0,
    decreases j,
{
    if j > 0 {
        lemma_route_errors_none(points, p, j - 1);
        assert(points[p].routes[j - 1].line.len() > 0);
        assert(!route_listed_earlier(points[p], j - 1));
    }
}

proof fn lemma_points_errors_none(points: Seq<BoardingPointView>, n: int)
    requires
        n <= points.len(),
        forall|p: int| 0 <= p < n ==> (#[trigger] point_errors(points, p)).len() == 0,
    ensures
        points_errors(points, n).len() == 0,
    decreases n,
{
    if n > 0 {
        lemma_points_errors_none(points, n - 1);
        assert(point_errors(points, n - 1).len() == 0);
    }
}

proof fn lemma_quota_errors_none(c: ConfigView, n: int)
    requires
        n <= c.route_quotas.len(),
        forall|i: int|
            0 <= i < n ==> {
                let q = #[trigger] c.route_quotas[i];
                &&& q.line.len() > 0
                &&& q.headsign.len() > 0
                &&& in_accepted_range(q.minimum_departures)
                &&& !quota_listed_earlier(c.route_quotas, i)
                &&& route_configured(c.boarding_points, q.line, q.headsign)
            },
    ensures
        quota_errors(c, n).len() == 0,
    decreases n,
{
    if n > 0 {
        lemma_quota_errors_none(c, n - 1);
        assert(in_accepted_range(c.route_quotas[n - 1].minimum_departures));
    }
}

/// A configuration that meets every rule is accepted: validation reports no
/// error when the display and fetch limits lie in `1..=20`, the time window
/// is not empty, there is a boarding point, every boarding point has a name,
/// a walk, non-empty stop IDs and routes with a line and a headsign, no stop
/// ID occurs twice anywhere, no boarding point lists one line and headsign
/// twice (one line toward two headsigns is two routes), every quota names a
/// line and headsign that some boarding point lists, has a minimum in
/// `1..=20` and is the only quota for its line and headsign, and the quota
/// minimums add up to at most the display limit.
pub proof fn law_valid_configuration_is_accepted(c: ConfigView)
    requires
        1 <= c.max_departures <= 20,
        c.minutes_after > 0,
        1 <= c.api_limit <= 20,
        c.boarding_points.len() > 0,
        forall|p: int|
            0 <= p < c.boarding_points.len() ==> {
                let point = #[trigger] c.boarding_points[p];
                &&& point.name.len() > 0
                &&& point.walking_minutes > 0
                &&& point.stop_ids.len() > 0
                &&& point.routes.len() > 0
            },
        forall|p: int, k: int|
            0 <= p < c.boarding_points.len() && 0 <= k < c.boarding_points[p].stop_ids.len()
                ==> (#[trigger] c.boarding_points[p].stop_ids[k]).len() > 0,
        forall|p: int, k: int, q: int, x: int|
            #![trigger c.boarding_points[p].stop_ids[k], c.boarding_points[q].stop_ids[x]]
            0 <= p < c.boarding_points.len() && 0 <= q < c.boarding_points.len() && 0 <= k
                < c.boarding_points[p].stop_ids.len() && 0 <= x
                < c.boarding_points[q].stop_ids.len() && (p != q || k != x)
                ==> c.boarding_points[p].stop_ids[k] != c.boarding_points[q].stop_ids[x],
        forall|p: int, j: int|
            0 <= p < c.boarding_points.len() && 0 <= j < c.boarding_points[p].routes.len() ==> (
            #[trigger] c.boarding_points[p].routes[j]).line.len() > 0
                && c.boarding_points[p].routes[j].headsign.len() > 0,
        forall|p: int, j: int, x: int|
            #![trigger c.boarding_points[p].routes[j], c.boarding_points[p].routes[x]]
            0 <= p < c.boarding_points.len() && 0 <= j < c.boarding_points[p].routes.len() && 0
                <= x < c.boarding_points[p].routes.len() && j != x ==> !(
            c.boarding_points[p].routes[j].line == c.boarding_points[p].routes[x].line
                && c.boarding_points[p].routes[j].headsign
                == c.boarding_points[p].routes[x].headsign),
        forall|i: int|
            0 <= i < c.route_quotas.len() ==> {
                let quota = #[trigger] c.route_quotas[i];
                &&& quota.line.len() > 0
                &&& quota.headsign.len() > 0
                &&& 1 <= quota.minimum_departures <= 20
                &&& exists|p: int, j: int|
                    0 <= p < c.boarding_points.len() && 0 <= j < c.boarding_points[p].routes.len()
                        && #[trigger] c.boarding_points[p].routes[j].line == quota.line
                        && c.boarding_points[p].routes[j].headsign == quota.headsign
            },
        forall|i: int, x: int|
            #![trigger c.route_quotas[i], c.route_quotas[x]]
            0 <= i < c.route_quotas.len() && 0 <= x < c.route_quotas.len() && i != x ==> !(
            c.route_quotas[i].line == c.route_quotas[x].line && c.route_quotas[i].headsign
                == c.route_quotas[x].headsign),
        minimums_sum(c.route_quotas, c.route_quotas.len() as int) <= c.max_departures,
    ensures
        validation_errors(c).len() == 0,
{
    let points = c.boarding_points;
    let n = points.len() as int;
    assert forall|p: int| 0 <= p < n implies (#[trigger] point_errors(points, p)).len() == 0 by {
        let point = points[p];
        assert forall|k: int| 0 <= k < point.stop_ids.len() implies !stop_listed_earlier(
            points,
            p,
            k,
        ) by {
            if exists|q: int, x: int|
                0 <= q < p && 0 <= x < points[q].stop_ids.len() && #[trigger] points[q].stop_ids[x]
                    == points[p].stop_ids[k] {
                let (q, x) = choose|q: int, x: int|
                    0 <= q < p && 0 <= x < points[q].stop_ids.len() && #[trigger] points[q].stop_ids[x]
                        == points[p].stop_ids[k];
                assert(points[p].stop_ids[k] != points[q].stop_ids[x]);
            }
            if exists|x: int| 0 <= x < k && #[trigger] points[p].stop_ids[x] == points[p].stop_ids[k] {
                let x = choose|x: int|
                    0 <= x < k && #[trigger] points[p].stop_ids[x] == points[p].stop_ids[k];
                assert(points[p].stop_ids[k] != points[p].stop_ids[x]);
            }
        }
        assert forall|k: int| 0 <= k < point.stop_ids.len() implies (
        #[trigger] points[p].stop_ids[k]).len() > 0 by {}
        lemma_stop_errors_none(points, p, point.stop_ids.len() as int);
        assert forall|j: int| 0 <= j < point.routes.len() implies !route_listed_earlier(
            points[p],
            j,
        ) by {
            if route_listed_earlier(points[p], j) {
                let x = choose|x: int|
                    0 <= x < j && #[trigger] points[p].routes[x].line == points[p].routes[j].line
                        && points[p].routes[x].headsign == points[p].routes[j].headsign;
                assert(!(points[p].routes[j].line == points[p].routes[x].line
                    && points[p].routes[j].headsign == points[p].routes[x].headsign));
            }
        }
        assert forall|j: int| 0 <= j < point.routes.len() implies (
        #[trigger] points[p].routes[j]).line.len() > 0 && points[p].routes[j].headsign.len() > 0 by {}
        lemma_route_errors_none(points, p, point.routes.len() as int);
        assert(point.name.len() > 0 && point.walking_minutes > 0);
    }
    lemma_points_errors_none(points, n);
    let quotas = c.route_quotas;
    assert forall|i: int| 0 <= i < quotas.len() implies {
        let q = #[trigger] quotas[i];
        &&& q.line.len() > 0
        &&& q.headsign.len() > 0
        &&& in_accepted_range(q.minimum_departures)
        &&& !quota_listed_earlier(quotas, i)
        &&& route_configured(points, q.line, q.headsign)
    } by {
        let q = quotas[i];
        if quota_listed_earlier(quotas, i) {
            let x = choose|x: int|
                0 <= x < i && #[trigger] quotas[x].line == quotas[i].line && quotas[x].headsign
                    == quotas[i].headsign;
            assert(!(quotas[i].line == quotas[x].line && quotas[i].headsign == quotas[x].headsign));
        }
        let (p, j) = choose|p: int, j: int|
            0 <= p < points.len() && 0 <= j < points[p].routes.len() && #[trigger] points[p].routes[j].line
                == q.line && points[p].routes[j].headsign == q.headsign;
        assert(route_configured(points, q.line, q.headsign));
    }
    lemma_quota_errors_none(c, quotas.len() as int);
    lemma_quota_total_unsaturated(quotas, quotas.len() as int);
}

/// Validation looks through surrounding white space: a configuration and its
/// normalized form are accepted or rejected alike, with the same errors.
pub proof fn law_validation_ignores_surrounding_space(c: ConfigView)
    ensures
        validation_errors(normalized_view(normalized_view(c))) == validation_errors(
            normalized_view(c),
        ),
{
    law_normalize_idempotent(c);
    assert(normalized_view(normalized_view(c)) == normalized_view(c));
}

} // verus!
