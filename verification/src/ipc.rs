//! Endpoints and paths of the inter-process sockets: the market feed a
//! process reads, and the record socket it publishes its order records on.
use vstd::prelude::*;
use crate::text::{
    chars_of, has_prefix, split_by_char, split_char, starts_with, string_of_chars,
    string_of_range, trim, trim_end_char, trim_end_matches, trim_ws,
};

verus! {

/// Where the market-feed sockets live.
pub open spec fn market_ipc_prefix() -> Seq<char> {
    "/tmp/mth_pubs/"@
}

/// Where the record sockets live.
pub open spec fn record_ipc_prefix() -> Seq<char> {
    "/tmp/mth_pubs/stream_pairmm/"@
}

/// The scheme of an inter-process socket endpoint.
pub open spec fn ipc_scheme() -> Seq<char> {
    "ipc://"@
}

/// `s` without a leading `ipc://`, if it has one.
pub open spec fn strip_scheme(s: Seq<char>) -> Seq<char> {
    if has_prefix(s, ipc_scheme()) {
        s.skip(ipc_scheme().len() as int)
    } else {
        s
    }
}

/// The record socket path that belongs to a market-feed endpoint: the part
/// of the feed path after the market prefix, placed under the record prefix.
/// `None` when the feed is not under the market prefix or names nothing there.
pub open spec fn record_path_of(market_ipc: Seq<char>) -> Option<Seq<char>> {
    let n = trim_end_char(strip_scheme(trim_ws(market_ipc)), '/');
    if has_prefix(n, market_ipc_prefix()) && n.len() > market_ipc_prefix().len() {
        Some(record_ipc_prefix() + n.skip(market_ipc_prefix().len() as int))
    } else {
        None
    }
}

/// `ipc://` put in front of `s` unless it is there already.
pub open spec fn with_scheme(s: Seq<char>) -> Seq<char> {
    if has_prefix(s, ipc_scheme()) {
        s
    } else {
        ipc_scheme() + s
    }
}

/// `s` without a leading `ipc://`.
fn strip_ipc_scheme(s: &str) -> (r: String)
    ensures
        r@ == strip_scheme(s@),
{
    let v = chars_of(s);
    proof {
        reveal_strlit("ipc://");
    }
    if starts_with(s, "ipc://") {
        string_of_range(&v, 6, v.len())
    } else {
        string_of_chars(&v)
    }
}

/// `ipc://` put in front of `s` unless it is there already.
fn ensure_scheme(s: &str) -> (r: String)
    ensures
        r@ == with_scheme(s@),
{
    if starts_with(s, "ipc://") {
        s.to_owned()
    } else {
        "ipc://".to_owned().concat(s)
    }
}

/// The record socket path that belongs to a market-feed endpoint, such as
/// `/tmp/mth_pubs/stream_pairmm/okx/eth.ipc` for `ipc:///tmp/mth_pubs/okx/eth.ipc`.
pub fn record_path_from_market_ipc(market_ipc: &str) -> (r: Option<String>)
    ensures
        r matches Some(p) ==> record_path_of(market_ipc@) == Some(p@),
        r is None ==> record_path_of(market_ipc@) is None,
{
    let t = trim(market_ipc);
    let stripped = strip_ipc_scheme(t.as_str());
    let n = trim_end_matches(stripped.as_str(), '/');
    let v = chars_of(n.as_str());
    proof {
        reveal_strlit("/tmp/mth_pubs/");
    }
    if !starts_with(n.as_str(), "/tmp/mth_pubs/") {
        return None;
    }
    if v.len() <= 14 {
        return None;
    }
    let rest = string_of_range(&v, 14, v.len());
    proof {
        assert(v@.subrange(14, v@.len() as int) =~= v@.skip(14));
    }
    Some("/tmp/mth_pubs/stream_pairmm/".to_owned().concat(rest.as_str()))
}

/// The endpoint a record socket binds and the file-system path behind it.
pub struct RecordEndpoint {
    pub endpoint: String,
    pub fs_path: String,
}

/// The endpoint to bind for a record socket path (with `ipc://` in front) and
/// the file-system path it names (without).
pub fn record_endpoint(ipc_path: &str) -> (r: RecordEndpoint)
    ensures
        r.endpoint@ == with_scheme(ipc_path@),
        r.fs_path@ == strip_scheme(with_scheme(ipc_path@)),
{
    let endpoint = ensure_scheme(ipc_path);
    let fs_path = strip_ipc_scheme(endpoint.as_str());
    RecordEndpoint { endpoint, fs_path }
}

/// What a process does to set up its record publisher.
pub enum RecordPubInit {
    /// A publisher is set up already: nothing to do.
    AlreadyInitialized,
    /// The market feed is not under the market prefix: warn, publish nothing.
    InvalidPath,
    /// Create the parent directory of `fs_path` and bind `endpoint`.
    Bind { endpoint: String, fs_path: String },
}

/// Decides how to set up the record publisher for a market feed: nothing
/// when one is set up already, a warning when the feed has no record path,
/// else the endpoint to bind.
pub fn init_record_pub_from_market_ipc(already_initialized: bool, market_ipc: &str) -> (r:
    RecordPubInit)
    ensures
        already_initialized ==> r is AlreadyInitialized,
        !already_initialized && record_path_of(market_ipc@) is None ==> r is InvalidPath,
        !already_initialized && record_path_of(market_ipc@) is Some ==> (r matches RecordPubInit::Bind {
            endpoint,
            fs_path,
        } && endpoint@ == with_scheme(record_path_of(market_ipc@)->0) && fs_path@ == strip_scheme(
            with_scheme(record_path_of(market_ipc@)->0),
        )),
{
    if already_initialized {
        return RecordPubInit::AlreadyInitialized;
    }
    match record_path_from_market_ipc(market_ipc) {
        None => RecordPubInit::InvalidPath,
        Some(path) => {
            let e = record_endpoint(path.as_str());
            RecordPubInit::Bind { endpoint: e.endpoint, fs_path: e.fs_path }
        },
    }
}

/// An endpoint with `ipc://` in front and no trailing `/`.
pub open spec fn ipc_prefix_of(raw: Seq<char>) -> Seq<char> {
    trim_end_char(with_scheme(raw), '/')
}

/// Puts `ipc://` in front of a socket prefix unless it is there, and drops
/// trailing `/`.
pub fn normalize_ipc_prefix(raw: &str) -> (r: String)
    ensures
        r@ == ipc_prefix_of(raw@),
{
    let prefixed = ensure_scheme(raw);
    trim_end_matches(prefixed.as_str(), '/')
}

/// The endpoint a feed path names: `None` for a blank path, else the trimmed
/// path without trailing `/`, with `ipc://` in front unless it is there.
pub open spec fn ipc_endpoint_of(raw: Seq<char>) -> Option<Seq<char>> {
    if trim_ws(raw).len() == 0 {
        None
    } else {
        Some(with_scheme(trim_end_char(trim_ws(raw), '/')))
    }
}

/// The endpoint to connect for a feed path given on the command line.
pub fn normalize_ipc_endpoint(raw: &str) -> (r: Option<String>)
    ensures
        r matches Some(e) ==> ipc_endpoint_of(raw@) == Some(e@),
        r is None ==> ipc_endpoint_of(raw@) is None,
{
    let t = trim(raw);
    if t.as_str().is_empty() {
        return None;
    }
    let t2 = trim_end_matches(t.as_str(), '/');
    Some(ensure_scheme(t2.as_str()))
}

/// The last component of a `/`-separated path that names something: empty
/// and `.` components are skipped.
pub open spec fn last_named(parts: Seq<Seq<char>>) -> Option<Seq<char>>
    decreases parts.len(),
{
    if parts.len() == 0 {
        None
    } else if parts.last().len() == 0 || parts.last() == "."@ {
        last_named(parts.drop_last())
    } else {
        Some(parts.last())
    }
}

/// The final component of a path (`Path::file_name`): `None` when the path
/// names no file or ends in `..`.
pub open spec fn file_name_of(path: Seq<char>) -> Option<Seq<char>> {
    let last = last_named(split_char(path, '/'));
    if last is Some && last->0 != ".."@ {
        last
    } else {
        None
    }
}

/// Whether `i` is the position of the last `.` in `s`.
pub open spec fn is_last_dot(s: Seq<char>, i: int) -> bool {
    0 <= i < s.len() && s[i] == '.' && forall|j: int| i < j < s.len() ==> s[j] != '.'
}

/// The stem of a file name (`Path::file_stem`): the part before the last
/// `.`, or the whole name when it has no `.` or only a leading one.
pub open spec fn stem_of(name: Seq<char>) -> Seq<char> {
    if exists|i: int| is_last_dot(name, i) && i > 0 {
        name.take(choose|i: int| is_last_dot(name, i))
    } else {
        name
    }
}

/// The symbol a feed path names: the stem of its file name, trimmed.
pub open spec fn symbol_of_path(path: Seq<char>) -> Option<Seq<char>> {
    match file_name_of(path) {
        Some(n) => if trim_ws(stem_of(n)).len() == 0 {
            None
        } else {
            Some(trim_ws(stem_of(n)))
        },
        None => None,
    }
}

proof fn lemma_last_dot_unique(s: Seq<char>, i: int, j: int)
    requires
        is_last_dot(s, i),
        is_last_dot(s, j),
    ensures
        i == j,
{
}

/// The final component of a path, as `Path::file_name` finds it.
fn file_name(path: &str) -> (r: Option<String>)
    ensures
        r matches Some(n) ==> file_name_of(path@) == Some(n@),
        r is None ==> file_name_of(path@) is None,
{
    let parts = split_by_char(path, '/');
    let ghost ps = split_char(path@, '/');
    let mut k = parts.len();
    proof {
        assert(ps.take(ps.len() as int) =~= ps);
    }
    while k > 0
        invariant
            k <= parts@.len(),
            ps == split_char(path@, '/'),
            parts@.len() == ps.len(),
            forall|i: int| 0 <= i < parts@.len() ==> #[trigger] parts@[i]@ == ps[i],
            last_named(ps.take(k as int)) == last_named(ps),
        decreases k,
    {
        let ghost pre = ps.take(k as int);
        proof {
            assert(pre.drop_last() =~= ps.take(k - 1));
            assert(pre.last() == parts@[k - 1]@);
            reveal_strlit(".");
            reveal_strlit("..");
        }
        let piece = &parts[k - 1];
        if piece.as_str().is_empty() || crate::text::str_eq(piece.as_str(), ".") {
            k = k - 1;
        } else {
            proof {
                assert(pre.last().len() != 0 && pre.last() != "."@);
                assert(last_named(pre) == Some(pre.last()));
            }
            if crate::text::str_eq(piece.as_str(), "..") {
                return None;
            }
            let r = piece.clone();
            proof {
                assert(r@ == pre.last());
                assert(r@ != ".."@);
                assert(last_named(ps) == Some(r@));
            }
            return Some(r);
        }
    }
    proof {
        assert(ps.take(0) =~= Seq::<Seq<char>>::empty());
    }
    None
}

/// The stem of a file name, as `Path::file_stem` finds it.
fn file_stem(name: &str) -> (r: String)
    ensures
        r@ == stem_of(name@),
{
    let v = chars_of(name);
    let mut i = v.len();
    while i > 0
        invariant
            i <= v@.len(),
            v@ == name@,
            forall|j: int| i <= j < v@.len() ==> v@[j] != '.',
        decreases i,
    {
        if v[i - 1] == '.' {
            proof {
                assert(is_last_dot(name@, i - 1));
                assert forall|d: int| is_last_dot(name@, d) implies d == i - 1 by {
                    lemma_last_dot_unique(name@, d, i - 1);
                }
            }
            if i - 1 == 0 {
                return string_of_chars(&v);
            }
            proof {
                assert(v@.subrange(0, i - 1) =~= name@.take(i - 1));
            }
            return string_of_range(&v, 0, i - 1);
        }
        i = i - 1;
    }
    string_of_chars(&v)
}

/// The symbol a feed path names: the stem of its file name, trimmed; `None`
/// when that is empty or the path names no file.
pub fn symbol_from_ipc_path(path: &str) -> (r: Option<String>)
    ensures
        r matches Some(s) ==> symbol_of_path(path@) == Some(s@),
        r is None ==> symbol_of_path(path@) is None,
{
    let name = match file_name(path) {
        Some(n) => n,
        None => return None,
    };
    let stem = file_stem(name.as_str());
    let symbol = trim(stem.as_str());
    if symbol.as_str().is_empty() {
        None
    } else {
        Some(symbol)
    }
}

} // verus!
