//! User configuration: its shape, its normalization and its validation.

use vstd::prelude::*;

use crate::text::{lemma_trimmed_idempotent, trim_owned, trimmed};

verus! {

/// Results shown when the configuration does not say.
pub const DEFAULT_MAX_DEPARTURES: usize = 3;

/// Minutes of future departures requested when the configuration does not say.
pub const DEFAULT_MINUTES_AFTER: u32 = 120;

/// Per-group result limit requested when the configuration does not say.
pub const DEFAULT_API_LIMIT: usize = 20;

/// Safety buffer added to the walk when a boarding point does not say.
pub const DEFAULT_SAFETY_BUFFER_MINUTES: u32 = 2;

/// Largest accepted `display.max_departures`, quota minimum and API limit.
pub const MAX_DISPLAY_DEPARTURES: usize = 20;

/// The whole configuration document.
#[derive(Debug, Clone, PartialEq, Eq)]
pub struct Config {
    pub display: DisplayConfig,
    pub fetch: FetchConfig,
    pub boarding_points: Vec<BoardingPoint>,
}

/// What is shown, and how many results each route is guaranteed.
#[derive(Debug, Clone, PartialEq, Eq)]
pub struct DisplayConfig {
    pub max_departures: usize,
    pub route_quotas: Vec<RouteQuota>,
}

/// A minimum number of results reserved for one line toward one headsign.
#[derive(Debug, Clone, PartialEq, Eq)]
pub struct RouteQuota {
    pub line: String,
    pub headsign: String,
    pub minimum_departures: usize,
}

/// What is requested from the provider.
#[derive(Debug, Clone, PartialEq, Eq)]
pub struct FetchConfig {
    pub minutes_after: u32,
    pub api_limit: usize,
}

/// A place one can walk to, with the platforms and routes used there.
#[derive(Debug, Clone, PartialEq, Eq)]
pub struct BoardingPoint {
    pub name: String,
    pub stop_ids: Vec<String>,
    pub walking_minutes: u32,
    pub safety_buffer_minutes: u32,
    pub routes: Vec<RouteFilter>,
}

/// One accepted line toward one headsign.
#[derive(Debug, Clone, PartialEq, Eq)]
pub struct RouteFilter {
    pub line: String,
    pub headsign: String,
}

impl Default for DisplayConfig {
    fn default() -> (r: Self)
        ensures
            r.max_departures == DEFAULT_MAX_DEPARTURES,
            r.route_quotas@.len() == 0,
    {
        DisplayConfig { max_departures: DEFAULT_MAX_DEPARTURES, route_quotas: Vec::new() }
    }
}

impl Default for FetchConfig {
    fn default() -> (r: Self)
        ensures
            r.minutes_after == DEFAULT_MINUTES_AFTER,
            r.api_limit == DEFAULT_API_LIMIT,
    {
        FetchConfig { minutes_after: DEFAULT_MINUTES_AFTER, api_limit: DEFAULT_API_LIMIT }
    }
}

impl Default for Config {
    fn default() -> (r: Self)
        ensures
            r.display.max_departures == DEFAULT_MAX_DEPARTURES,
            r.display.route_quotas@.len() == 0,
            r.fetch.minutes_after == DEFAULT_MINUTES_AFTER,
            r.fetch.api_limit == DEFAULT_API_LIMIT,
            r.boarding_points@.len() == 0,
    {
        Config {
            display: DisplayConfig::default(),
            fetch: FetchConfig::default(),
            boarding_points: Vec::new(),
        }
    }
}

/// The safety buffer of a boarding point whose document omits it.
pub fn default_safety_buffer_minutes() -> (r: u32)
    ensures
        r == DEFAULT_SAFETY_BUFFER_MINUTES,
{
    DEFAULT_SAFETY_BUFFER_MINUTES
}

/// A route quota as plain values.
#[verifier::ext_equal]
pub struct RouteQuotaView {
    pub line: Seq<char>,
    pub headsign: Seq<char>,
    pub minimum_departures: usize,
}

/// A route filter as plain values.
#[verifier::ext_equal]
pub struct RouteFilterView {
    pub line: Seq<char>,
    pub headsign: Seq<char>,
}

/// A boarding point as plain values.
#[verifier::ext_equal]
pub struct BoardingPointView {
    pub name: Seq<char>,
    pub stop_ids: Seq<Seq<char>>,
    pub walking_minutes: u32,
    pub safety_buffer_minutes: u32,
    pub routes: Seq<RouteFilterView>,
}

/// The whole configuration as plain values.
#[verifier::ext_equal]
pub struct ConfigView {
    pub max_departures: usize,
    pub route_quotas: Seq<RouteQuotaView>,
    pub minutes_after: u32,
    pub api_limit: usize,
    pub boarding_points: Seq<BoardingPointView>,
}

impl View for RouteQuota {
    type V = RouteQuotaView;

    open spec fn view(&self) -> RouteQuotaView {
        RouteQuotaView {
            line: self.line@,
            headsign: self.headsign@,
            minimum_departures: self.minimum_departures,
        }
    }
}

impl View for RouteFilter {
    type V = RouteFilterView;

    open spec fn view(&self) -> RouteFilterView {
        RouteFilterView { line: self.line@, headsign: self.headsign@ }
    }
}

impl View for BoardingPoint {
    type V = BoardingPointView;

    open spec fn view(&self) -> BoardingPointView {
        BoardingPointView {
            name: self.name@,
            stop_ids: self.stop_ids@.map_values(|s: String| s@),
            walking_minutes: self.walking_minutes,
            safety_buffer_minutes: self.safety_buffer_minutes,
            routes: self.routes@.map_values(|r: RouteFilter| r@),
        }
    }
}

impl View for Config {
    type V = ConfigView;

    open spec fn view(&self) -> ConfigView {
        ConfigView {
            max_departures: self.display.max_departures,
            route_quotas: self.display.route_quotas@.map_values(|q: RouteQuota| q@),
            minutes_after: self.fetch.minutes_after,
            api_limit: self.fetch.api_limit,
            boarding_points: self.boarding_points@.map_values(|p: BoardingPoint| p@),
        }
    }
}

/// A boarding point with surrounding white space removed from its name, stop
/// IDs, and route lines and headsigns.
pub open spec fn normalized_point_view(p: BoardingPointView) -> BoardingPointView {
    BoardingPointView {
        name: trimmed(p.name),
        stop_ids: p.stop_ids.map_values(|s: Seq<char>| trimmed(s)),
        walking_minutes: p.walking_minutes,
        safety_buffer_minutes: p.safety_buffer_minutes,
        routes: p.routes.map_values(
            |r: RouteFilterView| RouteFilterView { line: trimmed(r.line), headsign: trimmed(r.headsign) },
        ),
    }
}

/// The configuration with surrounding white space removed from every quota
/// line and headsign, boarding-point name, stop ID, and route line and
/// headsign; nothing else changes.
pub open spec fn normalized_view(c: ConfigView) -> ConfigView {
    ConfigView {
        max_departures: c.max_departures,
        route_quotas: c.route_quotas.map_values(
            |q: RouteQuotaView|
                RouteQuotaView {
                    line: trimmed(q.line),
                    headsign: trimmed(q.headsign),
                    minimum_departures: q.minimum_departures,
                },
        ),
        minutes_after: c.minutes_after,
        api_limit: c.api_limit,
        boarding_points: c.boarding_points.map_values(|p: BoardingPointView| normalized_point_view(p)),
    }
}

fn normalized_point(point: &BoardingPoint) -> (r: BoardingPoint)
    ensures
        r@ =~~= normalized_point_view(point@),
{
    let mut stop_ids: Vec<String> = Vec::new();
    for k in 0..point.stop_ids.len()
        invariant
            stop_ids@.len() == k,
            forall|i: int|
                0 <= i < k ==> (#[trigger] stop_ids@[i])@ == trimmed(point.stop_ids@[i]@),
    {
        stop_ids.push(trim_owned(point.stop_ids[k].as_str()));
    }
    let mut routes: Vec<RouteFilter> = Vec::new();
    for j in 0..point.routes.len()
        invariant
            routes@.len() == j,
            forall|i: int|
                0 <= i < j ==> {
                    let n = #[trigger] routes@[i];
                    let o = point.routes@[i];
                    &&& n.line@ == trimmed(o.line@)
                    &&& n.headsign@ == trimmed(o.headsign@)
                },
    {
        let route = &point.routes[j];
        routes.push(
            RouteFilter {
                line: trim_owned(route.line.as_str()),
                headsign: trim_owned(route.headsign.as_str()),
            },
        );
    }
    let r = BoardingPoint {
        name: trim_owned(point.name.as_str()),
        stop_ids,
        walking_minutes: point.walking_minutes,
        safety_buffer_minutes: point.safety_buffer_minutes,
        routes,
    };
    assert(r@.stop_ids =~= normalized_point_view(point@).stop_ids);
    assert(r@.routes =~= normalized_point_view(point@).routes);
    r
}

impl Config {
    /// A normalized copy of this configuration.
    pub fn normalized(&self) -> (r: Config)
        ensures
            r@ =~~= normalized_view(self@),
    {
        let mut quotas: Vec<RouteQuota> = Vec::new();
        for i in 0..self.display.route_quotas.len()
            invariant
                quotas@.len() == i,
                forall|x: int|
                    0 <= x < i ==> {
                        let n = #[trigger] quotas@[x];
                        let o = self.display.route_quotas@[x];
                        &&& n.line@ == trimmed(o.line@)
                        &&& n.headsign@ == trimmed(o.headsign@)
                        &&& n.minimum_departures == o.minimum_departures
                    },
        {
            let quota = &self.display.route_quotas[i];
            quotas.push(
                RouteQuota {
                    line: trim_owned(quota.line.as_str()),
                    headsign: trim_owned(quota.headsign.as_str()),
                    minimum_departures: quota.minimum_departures,
                },
            );
        }
        let mut points: Vec<BoardingPoint> = Vec::new();
        for p in 0..self.boarding_points.len()
            invariant
                points@.len() == p,
                forall|x: int|
                    0 <= x < p ==> (#[trigger] points@[x])@ =~~= normalized_point_view(
                        self.boarding_points@[x]@,
                    ),
        {
            points.push(normalized_point(&self.boarding_points[p]));
        }
        let r = Config {
            display: DisplayConfig {
                max_departures: self.display.max_departures,
                route_quotas: quotas,
            },
            fetch: FetchConfig {
                minutes_after: self.fetch.minutes_after,
                api_limit: self.fetch.api_limit,
            },
            boarding_points: points,
        };
        assert(r@.route_quotas =~~= normalized_view(self@).route_quotas);
        assert(r@.boarding_points =~~= normalized_view(self@).boarding_points);
        r
    }

    /// Normalize user-provided text in place: surrounding white space is
    /// removed from quota lines and headsigns, boarding-point names, stop IDs,
    /// and route lines and headsigns.
    pub fn normalize(&mut self)
        ensures
            final(self)@ =~~= normalized_view(old(self)@),
    {
        *self = self.normalized();
    }
}

/// Normalizing twice is the same as normalizing once.
pub proof fn law_normalize_idempotent(c: ConfigView)
    ensures
        normalized_view(normalized_view(c)) =~~= normalized_view(c),
{
    let once = normalized_view(c);
    let twice = normalized_view(once);
    assert forall|i: int| 0 <= i < c.route_quotas.len() implies #[trigger] twice.route_quotas[i]
        == once.route_quotas[i] by {
        lemma_trimmed_idempotent(c.route_quotas[i].line);
        lemma_trimmed_idempotent(c.route_quotas[i].headsign);
    }
    assert forall|p: int| 0 <= p < c.boarding_points.len() implies #[trigger] twice.boarding_points[p]
        =~~= once.boarding_points[p] by {
        let o = c.boarding_points[p];
        lemma_trimmed_idempotent(o.name);
        assert forall|k: int| 0 <= k < o.stop_ids.len() implies #[trigger] twice.boarding_points[p].stop_ids[k]
            == once.boarding_points[p].stop_ids[k] by {
            lemma_trimmed_idempotent(o.stop_ids[k]);
        }
        assert forall|j: int| 0 <= j < o.routes.len() implies #[trigger] twice.boarding_points[p].routes[j]
            == once.boarding_points[p].routes[j] by {
            lemma_trimmed_idempotent(o.routes[j].line);
            lemma_trimmed_idempotent(o.routes[j].headsign);
        }
    }
}

} // verus!
