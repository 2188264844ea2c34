//! The departure-board request: its validation, its cache identity and its
//! query string.

use vstd::prelude::*;

use url::Url;

use vstd::string::StringExecFns;

use crate::text::{decimal, lemma_trimmed_idempotent, push_decimal, push_str, trim_owned, trimmed};

verus! {

/// Largest per-group result limit that the endpoint accepts.
pub const MAX_API_LIMIT: usize = 20;

/// `url::Url`, carried opaquely as the endpoint and the request's address.
#[verifier::external_type_specification]
#[verifier::external_body]
pub struct ExUrl(Url);

/// A validated request: a positive time window, a limit within the
/// endpoint's range, and non-empty groups of trimmed, non-empty stop IDs.
#[derive(Debug, Clone, PartialEq, Eq)]
pub struct DepartureBoardRequest {
    minutes_after: u32,
    limit: u32,
    stop_groups: Vec<Vec<String>>,
}

/// A request as plain values.
#[verifier::ext_equal]
pub struct RequestView {
    pub minutes_after: u32,
    pub limit: u32,
    pub stop_groups: Seq<Seq<Seq<char>>>,
}

/// Why a request cannot be built.
#[derive(Debug, Clone, PartialEq, Eq)]
pub enum PidRequestError {
    EmptyTimeWindow,
    InvalidLimit(usize),
    NoStopGroups,
    EmptyStopGroup(usize),
    EmptyStopId { group: usize, stop: usize },
}

/// The characters of each string of a group.
pub open spec fn group_texts(group: Seq<String>) -> Seq<Seq<char>> {
    group.map_values(|s: String| s@)
}

/// The characters of every string of every group.
pub open spec fn groups_texts(groups: Seq<Vec<String>>) -> Seq<Seq<Seq<char>>> {
    groups.map_values(|g: Vec<String>| group_texts(g@))
}

impl View for DepartureBoardRequest {
    type V = RequestView;

    closed spec fn view(&self) -> RequestView {
        RequestView {
            minutes_after: self.minutes_after,
            limit: self.limit,
            stop_groups: groups_texts(self.stop_groups@),
        }
    }
}

/// The first stop of a group, at or after `from`, that is empty once
/// trimmed.
pub open spec fn first_blank_stop(group: Seq<Seq<char>>, from: nat) -> Option<nat>
    decreases group.len() - from,
{
    if from >= group.len() {
        None
    } else if trimmed(group[from as int]).len() == 0 {
        Some(from)
    } else {
        first_blank_stop(group, from + 1)
    }
}

/// The first problem among the groups at or after position `from`: an empty
/// group, or a stop ID that is blank once trimmed.
pub open spec fn first_group_error(groups: Seq<Seq<Seq<char>>>, from: nat) -> Option<
    PidRequestError,
>
    decreases groups.len() - from,
{
    if from >= groups.len() {
        None
    } else if groups[from as int].len() == 0 {
        Some(PidRequestError::EmptyStopGroup(from as usize))
    } else {
        match first_blank_stop(groups[from as int], 0) {
            Some(k) => Some(PidRequestError::EmptyStopId { group: from as usize, stop: k as usize }),
            None => first_group_error(groups, from + 1),
        }
    }
}

/// The error that building a request reports, checked in this order: the
/// time window, the limit, the presence of groups, then each group in turn.
pub open spec fn request_error(minutes_after: u32, limit: usize, groups: Seq<Seq<Seq<char>>>) -> Option<
    PidRequestError,
> {
    if minutes_after == 0 {
        Some(PidRequestError::EmptyTimeWindow)
    } else if !(1 <= limit <= MAX_API_LIMIT) {
        Some(PidRequestError::InvalidLimit(limit))
    } else if groups.len() == 0 {
        Some(PidRequestError::NoStopGroups)
    } else {
        first_group_error(groups, 0)
    }
}

pub(crate) proof fn lemma_no_blank_stop(group: Seq<Seq<char>>, from: nat)
    requires
        forall|k: int| 0 <= k < group.len() ==> (#[trigger] trimmed(group[k])).len() > 0,
    ensures
        first_blank_stop(group, from) is None,
    decreases group.len() - from,
{
    if from < group.len() {
        assert(trimmed(group[from as int]).len() > 0);
        lemma_no_blank_stop(group, from + 1);
    }
}

pub(crate) proof fn lemma_no_group_error(groups: Seq<Seq<Seq<char>>>, from: nat)
    requires
        forall|g: int| 0 <= g < groups.len() ==> (#[trigger] groups[g]).len() > 0,
        forall|g: int, k: int|
            0 <= g < groups.len() && 0 <= k < groups[g].len() ==> (#[trigger] trimmed(
                groups[g][k],
            )).len() > 0,
    ensures
        first_group_error(groups, from) is None,
    decreases groups.len() - from,
{
    if from < groups.len() {
        let g = from as int;
        assert(groups[g].len() > 0);
        assert forall|k: int| 0 <= k < groups[g].len() implies (#[trigger] trimmed(groups[g][k])).len()
            > 0 by {
            assert(trimmed(groups[g][k]).len() > 0);
        }
        lemma_no_blank_stop(groups[g], 0);
        lemma_no_group_error(groups, from + 1);
    }
}

proof fn lemma_blank_stop_free(group: Seq<Seq<char>>, from: nat)
    requires
        first_blank_stop(group, from) is None,
    ensures
        forall|k: int| from <= k < group.len() ==> (#[trigger] trimmed(group[k])).len() > 0,
    decreases group.len() - from,
{
    if from < group.len() {
        lemma_blank_stop_free(group, from + 1);
    }
}

proof fn lemma_group_error_free(groups: Seq<Seq<Seq<char>>>, from: nat)
    requires
        first_group_error(groups, from) is None,
    ensures
        forall|g: int| from <= g < groups.len() ==> (#[trigger] groups[g]).len() > 0,
        forall|g: int, k: int|
            from <= g < groups.len() && 0 <= k < groups[g].len() ==> (#[trigger] trimmed(
                groups[g][k],
            )).len() > 0,
    decreases groups.len() - from,
{
    if from < groups.len() {
        lemma_blank_stop_free(groups[from as int], 0);
        lemma_group_error_free(groups, from + 1);
    }
}

/// A request as it can exist: a positive time window, a limit within the
/// endpoint's range, at least one group, no empty group, and stop IDs that
/// are trimmed and not empty.
pub open spec fn request_valid(v: RequestView) -> bool {
    &&& v.minutes_after > 0
    &&& 1 <= v.limit <= MAX_API_LIMIT
    &&& v.stop_groups.len() > 0
    &&& forall|g: int| 0 <= g < v.stop_groups.len() ==> (#[trigger] v.stop_groups[g]).len() > 0
    &&& forall|g: int, k: int|
        0 <= g < v.stop_groups.len() && 0 <= k < v.stop_groups[g].len() ==> {
            let stop = #[trigger] v.stop_groups[g][k];
            &&& stop.len() > 0
            &&& trimmed(stop) == stop
        }
}

/// Building a request from the parts of a valid one gives that request
/// again: none of its parts is refused, and trimming leaves its stop IDs as
/// they are. This is what lets a stored request identify a cached response.
pub proof fn law_valid_request_rebuilds_itself(v: RequestView)
    requires
        request_valid(v),
    ensures
        request_error(v.minutes_after, v.limit as usize, v.stop_groups) is None,
        trimmed_groups(v.stop_groups) =~~= v.stop_groups,
{
    assert forall|g: int, k: int|
        0 <= g < v.stop_groups.len() && 0 <= k < v.stop_groups[g].len() implies (#[trigger] trimmed(
        v.stop_groups[g][k],
    )).len() > 0 by {
        assert(trimmed(v.stop_groups[g][k]) == v.stop_groups[g][k]);
    }
    lemma_no_group_error(v.stop_groups, 0);
    assert forall|g: int| 0 <= g < v.stop_groups.len() implies #[trigger] trimmed_groups(
        v.stop_groups,
    )[g] =~= v.stop_groups[g] by {
        assert forall|k: int| 0 <= k < v.stop_groups[g].len() implies #[trigger] trimmed_groups(
            v.stop_groups,
        )[g][k] == v.stop_groups[g][k] by {
            assert(trimmed(v.stop_groups[g][k]) == v.stop_groups[g][k]);
        }
    }
}

/// Each stop ID of each group, trimmed.
pub open spec fn trimmed_groups(groups: Seq<Seq<Seq<char>>>) -> Seq<Seq<Seq<char>>> {
    groups.map_values(|g: Seq<Seq<char>>| g.map_values(|s: Seq<char>| trimmed(s)))
}

fn trim_group(group: &Vec<String>, index: usize) -> (r: Result<Vec<String>, PidRequestError>)
    requires
        group@.len() > 0,
    ensures
        match first_blank_stop(group_texts(group@), 0) {
            Some(k) => r == Err::<Vec<String>, PidRequestError>(
                PidRequestError::EmptyStopId { group: index, stop: k as usize },
            ),
            None => r matches Ok(g) && group_texts(g@) == group_texts(group@).map_values(
                |s: Seq<char>| trimmed(s),
            ),
        },
{
    let ghost texts = group_texts(group@);
    let mut out: Vec<String> = Vec::new();
    let mut k: usize = 0;
    while k < group.len()
        invariant
            k <= group@.len(),
            texts == group_texts(group@),
            out@.len() == k,
            first_blank_stop(texts, 0) == first_blank_stop(texts, k as nat),
            forall|x: int| 0 <= x < k ==> (#[trigger] out@[x])@ == trimmed(texts[x]),
        decreases group@.len() - k,
    {
        let stop = trim_owned(group[k].as_str());
        assert(texts[k as int] == group@[k as int]@);
        if stop.as_str().is_empty() {
            return Err(PidRequestError::EmptyStopId { group: index, stop: k });
        }
        out.push(stop);
        k = k + 1;
    }
    assert(group_texts(out@) =~= texts.map_values(|s: Seq<char>| trimmed(s)));
    Ok(out)
}

impl DepartureBoardRequest {
    /// Create a validated departure-board request.
    ///
    /// Each stop group becomes a separate repeated `stopIds[]` query value so
    /// the endpoint applies its result limit independently to every group.
    /// Stop IDs are trimmed. An empty time window, a limit outside `1..=20`,
    /// no groups, an empty group or a blank stop ID is refused; the first
    /// such problem is reported.
    pub fn new(minutes_after: u32, limit: usize, stop_groups: Vec<Vec<String>>) -> (r: Result<
        Self,
        PidRequestError,
    >)
        ensures
            match request_error(minutes_after, limit, groups_texts(stop_groups@)) {
                Some(e) => r == Err::<Self, PidRequestError>(e),
                None => r matches Ok(request) && request@ =~~= (RequestView {
                    minutes_after,
                    limit: limit as u32,
                    stop_groups: trimmed_groups(groups_texts(stop_groups@)),
                }),
            },
            r matches Ok(request) ==> request_valid(request@),
    {
        let ghost texts = groups_texts(stop_groups@);
        if minutes_after == 0 {
            return Err(PidRequestError::EmptyTimeWindow);
        }
        if !(1 <= limit && limit <= MAX_API_LIMIT) {
            return Err(PidRequestError::InvalidLimit(limit));
        }
        if stop_groups.len() == 0 {
            return Err(PidRequestError::NoStopGroups);
        }
        let mut groups: Vec<Vec<String>> = Vec::new();
        let mut g: usize = 0;
        while g < stop_groups.len()
            invariant
                g <= stop_groups@.len(),
                texts == groups_texts(stop_groups@),
                minutes_after != 0,
                1 <= limit <= MAX_API_LIMIT,
                stop_groups@.len() > 0,
                groups@.len() == g,
                first_group_error(texts, 0) == first_group_error(texts, g as nat),
                forall|x: int|
                    0 <= x < g ==> group_texts((#[trigger] groups@[x])@) == texts[x].map_values(
                        |s: Seq<char>| trimmed(s),
                    ),
            decreases stop_groups@.len() - g,
        {
            let group = &stop_groups[g];
            assert(texts[g as int] == group_texts(group@));
            if group.len() == 0 {
                return Err(PidRequestError::EmptyStopGroup(g));
            }
            match trim_group(group, g) {
                Ok(trimmed_group) => {
                    groups.push(trimmed_group);
                },
                Err(e) => {
                    return Err(e);
                },
            }
            g = g + 1;
        }
        let request = DepartureBoardRequest {
            minutes_after,
            limit: limit as u32,
            stop_groups: groups,
        };
        assert(request@.stop_groups =~~= trimmed_groups(texts));
        proof {
            lemma_group_error_free(texts, 0);
            let t = trimmed_groups(texts);
            assert forall|x: int, k: int|
                0 <= x < t.len() && 0 <= k < t[x].len() implies {
                let stop = #[trigger] t[x][k];
                &&& stop.len() > 0
                &&& trimmed(stop) == stop
            } by {
                assert(t[x][k] == trimmed(texts[x][k]));
                assert(trimmed(texts[x][k]).len() > 0);
                lemma_trimmed_idempotent(texts[x][k]);
            }
            assert forall|x: int| 0 <= x < t.len() implies (#[trigger] t[x]).len() > 0 by {
                assert(texts[x].len() > 0);
            }
        }
        Ok(request)
    }
}

/// The compact JSON text of an object with one member, `key`, whose value
/// is the array of the given strings, as `serde_json` writes it.
pub uninterp spec fn json_object_of_strings(key: Seq<char>, values: Seq<Seq<char>>) -> Seq<char>;

/// A text that JSON writes between quotes as it is: no quote, no backslash
/// and no control character below U+0020.
pub open spec fn json_plain(text: Seq<char>) -> bool {
    forall|i: int| 0 <= i < text.len() ==> {
        let c = #[trigger] text[i];
        c != '"' && c != '\\' && c as u32 >= 0x20
    }
}

/// The first `n` texts as quoted JSON strings separated by commas.
pub open spec fn json_string_items(values: Seq<Seq<char>>, n: int) -> Seq<char>
    decreases n,
{
    if n <= 0 {
        seq![]
    } else {
        json_string_items(values, n - 1) + (if n > 1 {
            ","@
        } else {
            seq![]
        }) + "\""@ + values[n - 1] + "\""@
    }
}

/// Every stop ID of the group needs no escaping in JSON.
pub open spec fn group_plain(group: Seq<Seq<char>>) -> bool {
    forall|i: int| 0 <= i < group.len() ==> json_plain(#[trigger] group[i])
}

/// The `stopIds[]` value of a group: `{"0":["<stop ID>",...]}`.
pub open spec fn group_json(group: Seq<Seq<char>>) -> Seq<char> {
    "{\"0\":["@ + json_string_items(group, group.len() as int) + "]}"@
}

/// Writes `{"<key>":["<value>",...]}` with `serde_json`.
///
/// Trusted: the result is the named JSON text of the arguments. When the key
/// and every value need no escaping, it is the compact text of that object,
/// as JSON and `serde_json`'s compact writer define it; how other strings
/// are escaped is not stated here.
#[verifier::external_body]
fn json_object_text(key: &str, values: &Vec<String>) -> (r: String)
    ensures
        r@ == json_object_of_strings(key@, group_texts(values@)),
        json_plain(key@) && (forall|i: int|
            0 <= i < values@.len() ==> json_plain(#[trigger] values@[i]@)) ==> r@ == "{\""@
            + key@ + "\":["@ + json_string_items(group_texts(values@), values@.len() as int)
            + "]}"@,
{
    let mut object = serde_json::Map::new();
    object.insert(key.to_owned(), serde_json::Value::from(values.clone()));
    serde_json::Value::Object(object).to_string()
}

/// The text of a URL, as `url::Url::as_str` gives it: a URL is its
/// serialization, which parsing it again gives back.
pub uninterp spec fn url_serialization(url: Url) -> Seq<char>;

/// The text of a URL after one form-urlencoded `name=value` pair is appended
/// to its query, as `url::Url::query_pairs_mut` then `append_pair` leaves it.
pub uninterp spec fn url_with_pair(url: Seq<char>, name: Seq<char>, value: Seq<char>) -> Seq<char>;

/// The text of a URL after each pair is appended to its query in turn.
pub open spec fn url_with_pairs(url: Seq<char>, pairs: Seq<(Seq<char>, Seq<char>)>) -> Seq<char>
    decreases pairs.len(),
{
    if pairs.len() == 0 {
        url
    } else {
        url_with_pair(url_with_pairs(url, pairs.drop_last()), pairs.last().0, pairs.last().1)
    }
}

/// Appends one form-urlencoded `name=value` pair to the URL's query
/// (`url::Url::query_pairs_mut` then `append_pair`).
///
/// Trusted: the URL's text afterwards is the named result of its text before
/// and of the pair; how the pair is encoded and where it is placed (before a
/// fragment, after `?` or `&`) is `url`'s and is not stated here.
#[verifier::external_body]
fn append_query_pair(url: &mut Url, name: &str, value: &str)
    ensures
        url_serialization(*final(url)) == url_with_pair(url_serialization(*old(url)), name@, value@),
{
    url.query_pairs_mut().append_pair(name, value);
}

/// A copy of a URL (`<url::Url as Clone>::clone`).
///
/// Trusted: the copy has the same text as the URL.
#[verifier::external_body]
fn copy_url(url: &Url) -> (r: Url)
    ensures
        url_serialization(r) == url_serialization(*url),
{
    url.clone()
}

/// The characters of both members of each pair.
pub open spec fn pair_texts(pairs: Seq<(String, String)>) -> Seq<(Seq<char>, Seq<char>)> {
    pairs.map_values(|p: (String, String)| (p.0@, p.1@))
}

/// The query of a request: its time window, its limit, then one `stopIds[]`
/// value per group, each the JSON object `{"0": [stop IDs]}`.
pub open spec fn request_query(r: RequestView) -> Seq<(Seq<char>, Seq<char>)> {
    seq![("minutesAfter"@, decimal(r.minutes_after as nat)), ("limit"@, decimal(r.limit as nat))]
        + r.stop_groups.map_values(
        |g: Seq<Seq<char>>| ("stopIds[]"@, json_object_of_strings("0"@, g)),
    )
}

/// The message of a request error.
pub open spec fn request_error_message(e: PidRequestError) -> Seq<char> {
    match e {
        PidRequestError::EmptyTimeWindow => "minutes_after must be greater than 0"@,
        PidRequestError::InvalidLimit(limit) => "PID API limit must be between 1 and 20, got "@
            + decimal(limit as nat),
        PidRequestError::NoStopGroups => "at least one stop group is required"@,
        PidRequestError::EmptyStopGroup(g) => "stop group "@ + decimal(g as nat)
            + " must not be empty"@,
        PidRequestError::EmptyStopId { group, stop } => "stop ID at group "@ + decimal(
            group as nat,
        ) + ", index "@ + decimal(stop as nat) + " must not be empty"@,
    }
}

impl PidRequestError {
    /// The error's message.
    pub fn to_string(&self) -> (r: String)
        ensures
            r@ == request_error_message(*self),
    {
        let mut s = String::new();
        match self {
            PidRequestError::EmptyTimeWindow => {
                push_str(&mut s, "minutes_after must be greater than 0");
            },
            PidRequestError::InvalidLimit(limit) => {
                push_str(&mut s, "PID API limit must be between 1 and 20, got ");
                push_decimal(&mut s, *limit as u64);
            },
            PidRequestError::NoStopGroups => {
                push_str(&mut s, "at least one stop group is required");
            },
            PidRequestError::EmptyStopGroup(g) => {
                push_str(&mut s, "stop group ");
                push_decimal(&mut s, *g as u64);
                push_str(&mut s, " must not be empty");
            },
            PidRequestError::EmptyStopId { group, stop } => {
                push_str(&mut s, "stop ID at group ");
                push_decimal(&mut s, *group as u64);
                push_str(&mut s, ", index ");
                push_decimal(&mut s, *stop as u64);
                push_str(&mut s, " must not be empty");
            },
        }
        assert(s@ =~= request_error_message(*self));
        s
    }
}

fn number_text(n: u32) -> (r: String)
    ensures
        r@ == decimal(n as nat),
{
    let mut s = String::new();
    push_decimal(&mut s, n as u64);
    assert(s@ =~= decimal(n as nat));
    s
}

fn same_group(a: &Vec<String>, b: &Vec<String>) -> (r: bool)
    ensures
        r == (group_texts(a@) == group_texts(b@)),
{
    if a.len() != b.len() {
        assert(group_texts(a@).len() != group_texts(b@).len());
        return false;
    }
    let mut k: usize = 0;
    while k < a.len()
        invariant
            k <= a@.len(),
            a@.len() == b@.len(),
            forall|x: int| 0 <= x < k ==> (#[trigger] a@[x])@ == b@[x]@,
        decreases a@.len() - k,
    {
        if a[k] != b[k] {
            assert(group_texts(a@)[k as int] != group_texts(b@)[k as int]);
            return false;
        }
        k = k + 1;
    }
    assert(group_texts(a@) =~= group_texts(b@));
    true
}

impl DepartureBoardRequest {
    /// The time window in minutes.
    pub fn minutes_after(&self) -> (r: u32)
        ensures
            r == self@.minutes_after,
    {
        self.minutes_after
    }

    /// The per-group result limit.
    pub fn limit(&self) -> (r: u32)
        ensures
            r == self@.limit,
    {
        self.limit
    }

    /// The trimmed stop IDs of each group, in order.
    pub fn stop_groups(&self) -> (r: &Vec<Vec<String>>)
        ensures
            groups_texts(r@) == self@.stop_groups,
    {
        &self.stop_groups
    }

    /// The two requests ask for the same departures; a cached response
    /// belongs to a request exactly when this holds.
    pub fn same_request(&self, other: &DepartureBoardRequest) -> (r: bool)
        ensures
            r == (self@ == other@),
    {
        if self.minutes_after != other.minutes_after || self.limit != other.limit {
            return false;
        }
        if self.stop_groups.len() != other.stop_groups.len() {
            assert(self@.stop_groups.len() != other@.stop_groups.len());
            return false;
        }
        let mut g: usize = 0;
        while g < self.stop_groups.len()
            invariant
                g <= self.stop_groups@.len(),
                self.stop_groups@.len() == other.stop_groups@.len(),
                forall|x: int|
                    0 <= x < g ==> group_texts((#[trigger] self.stop_groups@[x])@) == group_texts(
                        other.stop_groups@[x]@,
                    ),
            decreases self.stop_groups@.len() - g,
        {
            if !same_group(&self.stop_groups[g], &other.stop_groups[g]) {
                assert(self@.stop_groups[g as int] != other@.stop_groups[g as int]);
                return false;
            }
            g = g + 1;
        }
        assert(self@.stop_groups =~= other@.stop_groups);
        true
    }

    /// The query pairs of the request, in order.
    pub fn query_pairs(&self) -> (r: Vec<(String, String)>)
        ensures
            pair_texts(r@) == request_query(self@),
            forall|x: int|
                0 <= x < self@.stop_groups.len() && group_plain(#[trigger] self@.stop_groups[x])
                    ==> pair_texts(r@)[2 + x].1 == group_json(self@.stop_groups[x]),
    {
        let mut pairs: Vec<(String, String)> = Vec::new();
        pairs.push((String::from_str("minutesAfter"), number_text(self.minutes_after)));
        pairs.push((String::from_str("limit"), number_text(self.limit)));
        let ghost head = pair_texts(pairs@);
        let mut g: usize = 0;
        while g < self.stop_groups.len()
            invariant
                g <= self.stop_groups@.len(),
                pairs@.len() == 2 + g,
                head == pair_texts(pairs@.take(2)),
                pair_texts(pairs@) == head + self@.stop_groups.take(g as int).map_values(
                    |grp: Seq<Seq<char>>| ("stopIds[]"@, json_object_of_strings("0"@, grp)),
                ),
                forall|x: int|
                    0 <= x < g && group_plain(#[trigger] self@.stop_groups[x])
                        ==> json_object_of_strings("0"@, self@.stop_groups[x]) == group_json(
                        self@.stop_groups[x],
                    ),
            decreases self.stop_groups@.len() - g,
        {
            let value = json_object_text("0", &self.stop_groups[g]);
            proof {
                reveal_strlit("0");
                reveal_strlit("{\"");
                reveal_strlit("\":[");
                reveal_strlit("{\"0\":[");
                assert(json_plain("0"@));
                assert("{\""@ + "0"@ + "\":["@ =~= "{\"0\":["@);
                assert(self@.stop_groups[g as int] == group_texts(self.stop_groups@[g as int]@));
            }
            assert(group_plain(self@.stop_groups[g as int]) ==> forall|i: int|
                0 <= i < self.stop_groups@[g as int]@.len() ==> json_plain(
                    #[trigger] self.stop_groups@[g as int]@[i]@,
                )) by {
                assert forall|i: int|
                    0 <= i < self.stop_groups@[g as int]@.len() && group_plain(
                        self@.stop_groups[g as int],
                    ) implies json_plain(#[trigger] self.stop_groups@[g as int]@[i]@) by {
                    assert(self@.stop_groups[g as int][i] == self.stop_groups@[g as int]@[i]@);
                }
            }
            let ghost before = pairs@;
            let name = String::from_str("stopIds[]");
            let ghost entry = (name@, value@);
            pairs.push((name, value));
            assert(self@.stop_groups[g as int] == group_texts(self.stop_groups@[g as int]@));
            assert(pair_texts(pairs@) =~= pair_texts(before).push(entry));
            assert(self@.stop_groups.take(g + 1) =~= self@.stop_groups.take(g as int).push(
                self@.stop_groups[g as int],
            ));
            assert(pairs@.take(2) =~= before.take(2));
            assert(pair_texts(pairs@) =~= head + self@.stop_groups.take(g + 1).map_values(
                |grp: Seq<Seq<char>>| ("stopIds[]"@, json_object_of_strings("0"@, grp)),
            ));
            g = g + 1;
        }
        assert(self@.stop_groups.take(self.stop_groups@.len() as int) =~= self@.stop_groups);
        assert(pair_texts(pairs@) =~= request_query(self@));
        assert forall|x: int|
            0 <= x < self@.stop_groups.len() && group_plain(
                #[trigger] self@.stop_groups[x],
            ) implies pair_texts(pairs@)[2 + x].1 == group_json(self@.stop_groups[x]) by {
            assert(pair_texts(pairs@)[2 + x] == request_query(self@)[2 + x]);
        }
        pairs
    }

    /// The endpoint with the request's query pairs appended, in order.
    pub fn url(&self, endpoint: &Url) -> (r: Url)
        ensures
            url_serialization(r) == url_with_pairs(
                url_serialization(*endpoint),
                request_query(self@),
            ),
    {
        let pairs = self.query_pairs();
        let ghost texts = pair_texts(pairs@);
        let mut url = copy_url(endpoint);
        let mut i: usize = 0;
        assert(texts.take(0) =~= Seq::<(Seq<char>, Seq<char>)>::empty());
        while i < pairs.len()
            invariant
                i <= pairs@.len(),
                texts == pair_texts(pairs@),
                url_serialization(url) == url_with_pairs(
                    url_serialization(*endpoint),
                    texts.take(i as int),
                ),
            decreases pairs@.len() - i,
        {
            append_query_pair(&mut url, pairs[i].0.as_str(), pairs[i].1.as_str());
            assert(texts[i as int] == (pairs@[i as int].0@, pairs@[i as int].1@));
            assert(texts.take(i + 1).drop_last() =~= texts.take(i as int));
            i = i + 1;
        }
        assert(texts.take(pairs@.len() as int) =~= texts);
        url
    }
}

} // verus!
