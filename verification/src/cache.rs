//! Where configuration and cached departures live, and which cached
//! snapshots may stand in for a failed live request.

use vstd::prelude::*;
use vstd::string::StrSliceExecFns;

use crate::request::DepartureBoardRequest;
use crate::text::push_str;

verus! {

/// Name of the departure cache file in the platform cache directory.
pub const CACHE_FILE: &'static str = "departures.json";

/// Name of the configuration file in the platform configuration directory.
pub const CONFIG_FILE: &'static str = "config.toml";

/// Format version of the snapshots this program writes and reads.
pub const CACHE_VERSION: u8 = 1;

/// Largest cache file, in bytes, that is written or read.
pub const MAX_CACHE_BYTES: u64 = 4194304;

/// The first of the candidate paths that is not empty: an explicit path
/// wins over the environment's, which wins over the platform default.
pub open spec fn chosen_path(
    explicit: Option<Seq<char>>,
    environment: Option<Seq<char>>,
    platform_default: Option<Seq<char>>,
) -> Option<Seq<char>> {
    if explicit matches Some(p) && p.len() > 0 {
        explicit
    } else if environment matches Some(p) && p.len() > 0 {
        environment
    } else {
        platform_default
    }
}

/// The text of an optional string slice.
pub open spec fn optional_str(value: Option<&str>) -> Option<Seq<char>> {
    match value {
        Some(s) => Some(s@),
        None => None,
    }
}

/// The text of an optional string.
pub open spec fn optional_string(value: Option<String>) -> Option<Seq<char>> {
    match value {
        Some(s) => Some(s@),
        None => None,
    }
}

fn owned(s: &str) -> (r: String)
    ensures
        r@ == s@,
{
    let mut r = String::new();
    push_str(&mut r, s);
    assert(r@ =~= s@);
    r
}

/// Resolve the configuration path without reading it: a non-empty explicit
/// path, else a non-empty path from the environment, else the platform's
/// default path when the platform has one.
pub fn resolve_config_path(
    explicit: Option<&str>,
    environment: Option<&str>,
    platform_default: Option<String>,
) -> (r: Option<String>)
    ensures
        optional_string(r) == chosen_path(
            optional_str(explicit),
            optional_str(environment),
            optional_string(platform_default),
        ),
{
    match explicit {
        Some(p) => {
            if p.unicode_len() > 0 {
                return Some(owned(p));
            }
        },
        None => {},
    }
    match environment {
        Some(p) => {
            if p.unicode_len() > 0 {
                return Some(owned(p));
            }
        },
        None => {},
    }
    platform_default
}

/// A path component that reads the same on every platform: not empty, no
/// `/`, `\\` or `:` (so no separator, root or drive prefix), and neither `.`
/// nor `..`.
pub open spec fn plain_component(c: Seq<char>) -> bool {
    &&& c.len() > 0
    &&& forall|i: int| 0 <= i < c.len() ==> {
        let x = #[trigger] c[i];
        x != '/' && x != '\\' && x != ':'
    }
    &&& c != seq!['.']
    &&& c != seq!['.', '.']
}

/// The path is `d/f` with the separator at `k`, both parts plain components.
pub open spec fn two_plain_components(path: Seq<char>, k: int) -> bool {
    &&& 0 < k < path.len()
    &&& path[k] == '/'
    &&& plain_component(path.take(k))
    &&& plain_component(path.skip(k + 1))
}

/// The parent that every platform gives a path of one or two plain
/// components: empty for `f`, `d` for `d/f`; `None` for other paths.
pub open spec fn plain_parent(path: Seq<char>) -> Option<Seq<char>> {
    if plain_component(path) {
        Some(Seq::<char>::empty())
    } else if exists|k: int| two_plain_components(path, k) {
        Some(path.take(choose|k: int| two_plain_components(path, k)))
    } else {
        None
    }
}

/// The directory of a path as `Path::parent` gives it (`None` for a path
/// that ends in a root or prefix, or is empty).
///
/// Trusted: the parent is the path without its final component, so it is a
/// prefix of the path's text, and an empty path has none; as documented, a
/// relative path of one component has the empty parent, and `d/f` has the
/// parent `d`. Which other characters separate components or form a prefix
/// depends on the platform, so nothing more is stated.
#[verifier::external_body]
fn path_parent(path: &str) -> (r: Option<String>)
    ensures
        r matches Some(p) ==> p@.len() <= path@.len() && p@ == path@.take(p@.len() as int),
        path@.len() == 0 ==> r is None,
        plain_parent(path@) is Some ==> optional_string(r) == plain_parent(path@),
{
    match std::path::Path::new(path).parent() {
        Some(parent) => Some(parent.to_string_lossy().into_owned()),
        None => None,
    }
}

/// The directory that holds a file whose parent is `parent`: the parent
/// itself when it is not empty, the current directory otherwise.
pub open spec fn directory_for(parent: Option<Seq<char>>) -> Seq<char> {
    match parent {
        Some(p) => if p.len() > 0 {
            p
        } else {
            "."@
        },
        None => "."@,
    }
}

/// The directory that holds a file, given the file path's parent.
pub fn directory_of_parent(parent: Option<String>) -> (r: String)
    ensures
        r@ == directory_for(optional_string(parent)),
{
    match parent {
        Some(p) => {
            if p.as_str().unicode_len() > 0 {
                return p;
            }
        },
        None => {},
    }
    let r = owned(".");
    proof {
        reveal_strlit(".");
    }
    r
}

/// The directory in which the cache file at `path` is created; a bare file
/// name lives in the current directory.
pub fn cache_directory(path: &str) -> (r: String)
    ensures
        r@ == "."@ || (r@.len() > 0 && r@ == path@.take(r@.len() as int)),
        plain_component(path@) ==> r@ == "."@,
        forall|k: int| two_plain_components(path@, k) ==> r@ == path@.take(k),
{
    let parent = path_parent(path);
    proof {
        assert forall|k: int| two_plain_components(path@, k) implies plain_parent(path@) == Some(
            path@.take(k),
        ) by {
            assert(!plain_component(path@)) by {
                assert(path@[k] == '/');
            }
            let c = choose|j: int| two_plain_components(path@, j);
            if c < k {
                assert(path@.skip(c + 1)[k - c - 1] == path@[k]);
            } else if k < c {
                assert(path@.skip(k + 1)[c - k - 1] == path@[c]);
            }
        }
    }
    directory_of_parent(parent)
}

/// Why a cached snapshot cannot stand in for the live request.
#[derive(Debug, Clone, PartialEq, Eq)]
pub enum SnapshotMismatch {
    /// The snapshot was written in another format version.
    UnsupportedVersion(u8),
    /// The snapshot answers a different request.
    RequestMismatch,
}

/// A snapshot of `version` fetched for `cached` can stand in for `current`
/// only in this program's format and for exactly the same request; a
/// snapshot whose request cannot be rebuilt (`None`) stands in for none.
pub fn check_snapshot(
    version: u8,
    cached: Option<&DepartureBoardRequest>,
    current: &DepartureBoardRequest,
) -> (r: Result<(), SnapshotMismatch>)
    ensures
        r == if version != CACHE_VERSION {
            Err(SnapshotMismatch::UnsupportedVersion(version))
        } else {
            match cached {
                Some(c) => if c@ != current@ {
                    Err(SnapshotMismatch::RequestMismatch)
                } else {
                    Ok(())
                },
                None => Err(SnapshotMismatch::RequestMismatch),
            }
        },
{
    if version != CACHE_VERSION {
        return Err(SnapshotMismatch::UnsupportedVersion(version));
    }
    match cached {
        Some(c) => {
            if !c.same_request(current) {
                return Err(SnapshotMismatch::RequestMismatch);
            }
            Ok(())
        },
        None => Err(SnapshotMismatch::RequestMismatch),
    }
}

} // verus!
