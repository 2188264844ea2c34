//! Command-line decisions: the endpoint override, the `--limit` argument and
//! the machine-readable kind of each command failure.

use vstd::prelude::*;
use vstd::string::StrSliceExecFns;

use crate::config::MAX_DISPLAY_DEPARTURES;
use crate::text::{push_str, trim_owned, trimmed};

verus! {

/// PID's public departure-board endpoint.
pub const DEFAULT_ENDPOINT: &'static str = "https://data.pid.cz/departures/data.php";

/// The endpoint a command uses: the environment's override once trimmed,
/// unless it is blank; the public endpoint otherwise.
pub open spec fn endpoint_for(environment: Option<Seq<char>>) -> Seq<char> {
    match environment {
        Some(e) => if trimmed(e).len() > 0 {
            trimmed(e)
        } else {
            DEFAULT_ENDPOINT@
        },
        None => DEFAULT_ENDPOINT@,
    }
}

/// Resolve the endpoint from the environment's optional override.
pub fn resolve_endpoint(environment: Option<&str>) -> (r: String)
    ensures
        r@ == endpoint_for(
            match environment {
                Some(e) => Some(e@),
                None => None,
            },
        ),
{
    match environment {
        Some(e) => {
            let t = trim_owned(e);
            if t.as_str().unicode_len() > 0 {
                return t;
            }
        },
        None => {},
    }
    let mut r = String::new();
    push_str(&mut r, DEFAULT_ENDPOINT);
    assert(r@ =~= DEFAULT_ENDPOINT@);
    r
}

/// The value of a run of decimal digits.
pub open spec fn digits_value(s: Seq<char>) -> int
    decreases s.len(),
{
    if s.len() == 0 {
        0
    } else {
        digits_value(s.drop_last()) * 10 + (s.last() as int - '0' as int)
    }
}

/// Every character is an ASCII decimal digit.
pub open spec fn all_digits(s: Seq<char>) -> bool {
    forall|i: int| 0 <= i < s.len() ==> '0' <= #[trigger] s[i] <= '9'
}

/// The number an unsigned decimal numeral denotes, as integer parsing reads
/// it: an optional `+`, then at least one digit and nothing else.
pub open spec fn unsigned_decimal(s: Seq<char>) -> Option<int> {
    let digits = if s.len() > 0 && s[0] == '+' {
        s.drop_first()
    } else {
        s
    };
    if digits.len() > 0 && all_digits(digits) {
        Some(digits_value(digits))
    } else {
        None
    }
}

/// The message of a `--limit` value that is not a whole number of results
/// the display supports.
pub open spec fn limit_error_message() -> Seq<char> {
    "limit must be an integer between 1 and 20"@
}

/// The `--limit` value: a decimal numeral between one and the display's
/// maximum.
pub open spec fn departure_limit(value: Seq<char>) -> Option<int> {
    match unsigned_decimal(value) {
        Some(n) => if 1 <= n <= MAX_DISPLAY_DEPARTURES {
            Some(n)
        } else {
            None
        },
        None => None,
    }
}

proof fn lemma_digits_value_nonnegative(s: Seq<char>)
    requires
        all_digits(s),
    ensures
        digits_value(s) >= 0,
    decreases s.len(),
{
    if s.len() > 0 {
        assert(all_digits(s.drop_last())) by {
            assert forall|i: int| 0 <= i < s.drop_last().len() implies '0' <= #[trigger] s.drop_last()[i] <= '9' by {
                assert(s.drop_last()[i] == s[i]);
            }
        }
        lemma_digits_value_nonnegative(s.drop_last());
        assert('0' <= s[s.len() - 1] <= '9');
    }
}

/// Parse the `--limit` argument.
pub fn parse_departure_limit(value: &str) -> (r: Result<usize, String>)
    ensures
        match r {
            Ok(n) => departure_limit(value@) == Some(n as int),
            Err(message) => departure_limit(value@) is None && message@ == limit_error_message(),
        },
{
    let n = value.unicode_len();
    let start: usize = if n > 0 && value.get_char(0) == '+' {
        1
    } else {
        0
    };
    let ghost digits = if value@.len() > 0 && value@[0] == '+' {
        value@.drop_first()
    } else {
        value@
    };
    assert(digits =~= value@.subrange(start as int, n as int));
    let mut total: usize = 0;
    let mut large = false;
    let mut i: usize = start;
    let mut valid = start < n;
    while i < n
        invariant
            n == value@.len(),
            start <= i <= n,
            digits == value@.subrange(start as int, n as int),
            valid ==> start < n,
            valid ==> all_digits(value@.subrange(start as int, i as int)),
            valid && !large ==> total == digits_value(value@.subrange(start as int, i as int)),
            valid && !large ==> total <= MAX_DISPLAY_DEPARTURES,
            valid && large ==> digits_value(value@.subrange(start as int, i as int))
                > MAX_DISPLAY_DEPARTURES,
            !valid ==> !(digits.len() > 0 && all_digits(digits)),
        decreases n - i,
    {
        let c = value.get_char(i);
        let ghost prefix = value@.subrange(start as int, i as int);
        let ghost next = value@.subrange(start as int, i + 1);
        assert(next.drop_last() =~= prefix);
        assert(next.last() == c);
        if !valid {
        } else if '0' <= c && c <= '9' {
            assert(all_digits(next)) by {
                assert forall|k: int| 0 <= k < next.len() implies '0' <= #[trigger] next[k] <= '9' by {
                    if k < prefix.len() {
                        assert(next[k] == prefix[k]);
                    }
                }
            }
            proof {
                lemma_digits_value_nonnegative(prefix);
            }
            if !large {
                let d = (c as u32 - '0' as u32) as usize;
                let t = total * 10 + d;
                if t > MAX_DISPLAY_DEPARTURES {
                    large = true;
                } else {
                    total = t;
                }
            }
        } else {
            assert(digits[i - start] == c);
            valid = false;
        }
        i = i + 1;
    }
    assert(value@.subrange(start as int, n as int) =~= digits);
    if valid && !large && total >= 1 {
        Ok(total)
    } else {
        let mut message = String::new();
        push_str(&mut message, "limit must be an integer between 1 and 20");
        assert(message@ =~= limit_error_message());
        Err(message)
    }
}

/// The failures a command reports, one per way it can fail.
#[derive(Debug, Clone, Copy, PartialEq, Eq)]
pub enum FailureKind {
    ConfigDirectoryUnavailable,
    ConfigAlreadyExists,
    CreateConfigDirectory,
    CreateConfig,
    ReadConfig,
    InvalidConfig,
    CacheDirectoryUnavailable,
    RemoveCache,
    RequestInvalid,
    DeparturesUnavailable,
    OutputSerialize,
    OutputWrite,
    WriteDiagnostics,
}

/// The stable identifier of a failure in a JSON error document.
pub open spec fn kind_name(kind: FailureKind) -> Seq<char> {
    match kind {
        FailureKind::ConfigDirectoryUnavailable => "config_directory_unavailable"@,
        FailureKind::ConfigAlreadyExists => "config_already_exists"@,
        FailureKind::CreateConfigDirectory => "config_directory_create_failed"@,
        FailureKind::CreateConfig => "config_create_failed"@,
        FailureKind::ReadConfig => "config_unreadable"@,
        FailureKind::InvalidConfig => "config_invalid"@,
        FailureKind::CacheDirectoryUnavailable => "cache_directory_unavailable"@,
        FailureKind::RemoveCache => "cache_remove_failed"@,
        FailureKind::RequestInvalid => "request_invalid"@,
        FailureKind::DeparturesUnavailable => "departures_unavailable"@,
        FailureKind::OutputSerialize => "output_failed"@,
        FailureKind::OutputWrite => "output_failed"@,
        FailureKind::WriteDiagnostics => "diagnostics_write_failed"@,
    }
}

impl FailureKind {
    /// The identifier of the failure in a JSON error document.
    pub fn json_kind(&self) -> (r: &'static str)
        ensures
            r@ == kind_name(*self),
    {
        match self {
            FailureKind::ConfigDirectoryUnavailable => "config_directory_unavailable",
            FailureKind::ConfigAlreadyExists => "config_already_exists",
            FailureKind::CreateConfigDirectory => "config_directory_create_failed",
            FailureKind::CreateConfig => "config_create_failed",
            FailureKind::ReadConfig => "config_unreadable",
            FailureKind::InvalidConfig => "config_invalid",
            FailureKind::CacheDirectoryUnavailable => "cache_directory_unavailable",
            FailureKind::RemoveCache => "cache_remove_failed",
            FailureKind::RequestInvalid => "request_invalid",
            FailureKind::DeparturesUnavailable => "departures_unavailable",
            FailureKind::OutputSerialize => "output_failed",
            FailureKind::OutputWrite => "output_failed",
            FailureKind::WriteDiagnostics => "diagnostics_write_failed",
        }
    }

    /// A failure can still be reported as a JSON document unless writing to
    /// the output is what failed.
    pub fn can_report_as_json(&self) -> (r: bool)
        ensures
            r == !(*self is OutputWrite),
    {
        !matches!(self, FailureKind::OutputWrite)
    }
}

} // verus!
