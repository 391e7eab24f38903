//! Settings of the rolling-threshold runtime: what its process file resolves
//! to, the redis key a profile writes under, the window each symbol keeps,
//! and which symbol overrides a symbols file may hold.
use std::collections::VecDeque;
use vstd::prelude::*;
use crate::buckets::texts;
use crate::text::{
    is_char, is_white_space, lemma_replace_absent, replace_all, replace_seq, str_eq, trim, trim_char,
    trim_end_by, trim_matches, trim_start_by, trim_ws, white_space,
};

verus! {

/// The process file of the rolling runtime; every entry may be left out.
pub struct RollingProcessConfigFile {
    pub symbols_config: Option<String>,
    pub reload_sec: Option<u64>,
    pub log_factor_thresholds: Option<bool>,
    pub log_redis_write_success: Option<bool>,
    pub redis_url: Option<String>,
    pub redis_key: Option<String>,
}

/// What the process file resolves to.
pub struct RollingSettings {
    pub symbols_config_path: String,
    pub reload_sec: u64,
    pub log_factor_thresholds: bool,
    pub log_redis_write_success: bool,
    pub redis_url: String,
    pub redis_key: String,
}

/// Why a process file cannot be used.
pub enum RollingConfigError {
    /// No redis URL, or a blank one.
    MissingRedisUrl,
}

impl RollingConfigError {
    /// The error's text.
    pub fn message(&self) -> (r: String)
        ensures
            r@ == "redis_url is required for rolling runtime"@,
    {
        match self {
            RollingConfigError::MissingRedisUrl => "redis_url is required for rolling runtime".to_owned(),
        }
    }
}

/// The symbols file used when the process file names none.
pub open spec fn default_symbols_config() -> Seq<char> {
    "pnlu_factor_rolling_symbols.json"@
}

/// The redis key suffix used when neither a profile nor the process file names one.
pub open spec fn default_redis_key() -> Seq<char> {
    "_pnlu_factor_thresholds"@
}

/// A profile name made fit for a key: trimmed of white space, then of `/`
/// at both ends, inner `/` replaced by `-`; `default` when nothing is left.
pub open spec fn sanitized_token(raw: Seq<char>) -> Seq<char> {
    let replaced = replace_seq(trim_char(trim_ws(raw), '/'), "/"@, "-"@);
    if replaced.len() == 0 {
        "default"@
    } else {
        replaced
    }
}

/// The redis key suffix of a profile.
pub open spec fn profile_redis_key(profile: Seq<char>) -> Seq<char> {
    "_pnlu_factor_thresholds_"@ + sanitized_token(profile)
}

/// The reload period: the configured one (5 s when absent), at least 1 s.
pub open spec fn reload_sec_of(v: Option<u64>) -> u64 {
    let s = match v {
        Some(s) => s,
        None => 5,
    };
    if s < 1 {
        1
    } else {
        s
    }
}

/// The redis key suffix: the profile's when a profile is given, else the
/// process file's, else the default.
pub open spec fn redis_key_of(profile: Option<Seq<char>>, configured: Option<Seq<char>>) -> Seq<
    char,
> {
    match profile {
        Some(p) => profile_redis_key(p),
        None => match configured {
            Some(k) => k,
            None => default_redis_key(),
        },
    }
}

/// The view of an optional string.
pub open spec fn opt_view(s: Option<String>) -> Option<Seq<char>> {
    match s {
        Some(v) => Some(v@),
        None => None,
    }
}

/// The view of an optional string slice.
pub open spec fn opt_str_view(s: Option<&str>) -> Option<Seq<char>> {
    match s {
        Some(v) => Some(v@),
        None => None,
    }
}

/// The profile token used in redis keys (see [`sanitized_token`]).
pub fn sanitize_profile_token(raw: &str) -> (r: String)
    ensures
        r@ == sanitized_token(raw@),
{
    let t = trim(raw);
    let t = trim_matches(t.as_str(), '/');
    proof {
        reveal_strlit("/");
    }
    let replaced = replace_all(t.as_str(), "/", "-");
    if replaced.as_str().is_empty() {
        "default".to_owned()
    } else {
        replaced
    }
}

/// The redis key suffix a profile writes under, such as
/// `_pnlu_factor_thresholds_prod-a` for the profile `/prod/a/`.
pub fn redis_key_from_profile(profile: &str) -> (r: String)
    ensures
        r@ == profile_redis_key(profile@),
{
    let token = sanitize_profile_token(profile);
    "_pnlu_factor_thresholds_".to_owned().concat(token.as_str())
}

/// The key a symbol's thresholds are written under: the symbol, then the suffix.
pub open spec fn symbol_key_of(symbol: Seq<char>, suffix: Seq<char>) -> Seq<char> {
    symbol + suffix
}

/// The key a symbol's thresholds are written under, such as
/// `ETHUSDT_pnlu_factor_thresholds_okex-futures-binance-futures`.
pub fn symbol_redis_key(symbol: &str, suffix: &str) -> (r: String)
    ensures
        r@ == symbol_key_of(symbol@, suffix@),
{
    symbol.to_owned().concat(suffix)
}

/// Whether a profile name is already a key token: not empty, and made of
/// lowercase ASCII letters, digits and `-`.
pub open spec fn is_profile_token(p: Seq<char>) -> bool {
    &&& p.len() > 0
    &&& forall|i: int|
        0 <= i < p.len() ==> ('a' <= #[trigger] p[i] <= 'z') || ('0' <= p[i] <= '9') || p[i] == '-'
}

proof fn lemma_token_sanitized(p: Seq<char>)
    requires
        is_profile_token(p),
    ensures
        sanitized_token(p) == p,
{
    assert(!is_white_space(p[0]));
    assert(!is_white_space(p.last()));
    assert(trim_start_by(p, white_space()) == p);
    assert(trim_end_by(p, white_space()) == p);
    assert(trim_start_by(p, is_char('/')) == p);
    assert(trim_end_by(p, is_char('/')) == p);
    reveal_strlit("/");
    assert forall|i: int| 0 <= i < p.len() implies #[trigger] p[i] != '/' by {}
    lemma_replace_absent(p, '/', "-"@);
    assert("/"@ =~= seq!['/']);
}

/// The keys of a symbol under two deployment profiles differ whenever the
/// profiles do, so that no profile overwrites another's thresholds; a
/// profile that is a key token (see [`is_profile_token`]) ends the key as it is.
pub proof fn law_profiles_do_not_collide(symbol: Seq<char>, p1: Seq<char>, p2: Seq<char>)
    requires
        is_profile_token(p1),
        is_profile_token(p2),
    ensures
        profile_redis_key(p1) == "_pnlu_factor_thresholds_"@ + p1,
        symbol_key_of(symbol, profile_redis_key(p1)) == symbol_key_of(symbol, profile_redis_key(p2))
            ==> p1 == p2,
{
    lemma_token_sanitized(p1);
    lemma_token_sanitized(p2);
    let pre = symbol + "_pnlu_factor_thresholds_"@;
    assert(symbol_key_of(symbol, profile_redis_key(p1)) =~= pre + p1);
    assert(symbol_key_of(symbol, profile_redis_key(p2)) =~= pre + p2);
    if pre + p1 == pre + p2 {
        assert(p1 =~= (pre + p1).skip(pre.len() as int));
        assert(p2 =~= (pre + p2).skip(pre.len() as int));
    }
}

/// The symbols file a process file names, or the default one.
pub fn symbols_config_path(cfg: &RollingProcessConfigFile) -> (r: String)
    ensures
        r@ == match cfg.symbols_config {
            Some(p) => p@,
            None => default_symbols_config(),
        },
{
    match &cfg.symbols_config {
        Some(p) => p.clone(),
        None => "pnlu_factor_rolling_symbols.json".to_owned(),
    }
}

/// The reload period a process file sets (see `reload_sec_of`).
pub fn reload_period(cfg: &RollingProcessConfigFile) -> (r: u64)
    ensures
        r == reload_sec_of(cfg.reload_sec),
{
    match cfg.reload_sec {
        Some(s) => if s < 1 {
            1
        } else {
            s
        },
        None => 5,
    }
}

/// Resolves the process file for a run under `profile`. It fails exactly
/// when the redis URL is missing or blank.
pub fn resolve_rolling_settings(cfg: &RollingProcessConfigFile, profile: Option<&str>) -> (r:
    Result<RollingSettings, RollingConfigError>)
    ensures
        (r is Err) <==> match cfg.redis_url {
            Some(u) => trim_ws(u@).len() == 0,
            None => true,
        },
        r matches Ok(s) ==> {
            &&& (cfg.redis_url matches Some(u) && s.redis_url@ == u@ && trim_ws(u@).len() > 0)
            &&& s.symbols_config_path@ == match cfg.symbols_config {
                Some(p) => p@,
                None => default_symbols_config(),
            }
            &&& s.reload_sec == reload_sec_of(cfg.reload_sec)
            &&& s.log_factor_thresholds == (cfg.log_factor_thresholds == Some(true))
            &&& s.log_redis_write_success == (cfg.log_redis_write_success == Some(true))
            &&& s.redis_key@ == redis_key_of(opt_str_view(profile), opt_view(cfg.redis_key))
        },
{
    let redis_url = match &cfg.redis_url {
        Some(u) => u.clone(),
        None => String::new(),
    };
    let trimmed = trim(redis_url.as_str());
    if trimmed.as_str().is_empty() {
        return Err(RollingConfigError::MissingRedisUrl);
    }
    let symbols_config_path = symbols_config_path(cfg);
    let reload_sec = reload_period(cfg);
    let log_factor_thresholds = match cfg.log_factor_thresholds {
        Some(b) => b,
        None => false,
    };
    let log_redis_write_success = match cfg.log_redis_write_success {
        Some(b) => b,
        None => false,
    };
    let redis_key = match profile {
        Some(p) => redis_key_from_profile(p),
        None => match &cfg.redis_key {
            Some(k) => k.clone(),
            None => "_pnlu_factor_thresholds".to_owned(),
        },
    };
    Ok(
        RollingSettings {
            symbols_config_path,
            reload_sec,
            log_factor_thresholds,
            log_redis_write_success,
            redis_url,
            redis_key,
        },
    )
}

/// The window entries of a symbol's settings, each optional.
#[derive(Debug, Clone, Copy)]
pub struct WindowPartial {
    pub rolling_window: Option<usize>,
    pub min_periods: Option<usize>,
}

/// The window a symbol keeps: its last `rolling_window` values, ready once
/// it holds `min_periods` of them.
#[derive(Debug, Clone, Copy)]
pub struct WindowSettings {
    pub rolling_window: usize,
    pub min_periods: usize,
}

/// The defaults used when a symbols file has no `default` entry.
pub open spec fn builtin_default_window() -> WindowPartial {
    WindowPartial { rolling_window: Some(100000), min_periods: Some(10000) }
}

/// The defaults of a symbols file: its `default` entry, else the built-in one.
pub open spec fn default_window_of(default: Option<WindowPartial>) -> WindowPartial {
    match default {
        Some(d) => d,
        None => builtin_default_window(),
    }
}

/// The first of two optional values that is present.
pub open spec fn first_present(a: Option<usize>, b: Option<usize>) -> Option<usize> {
    match a {
        Some(v) => Some(v),
        None => b,
    }
}

/// The window length: the symbol's, else the default's, else 720; at least 1.
pub open spec fn rolling_window_of(default: Option<WindowPartial>, partial: Option<WindowPartial>) -> usize {
    let d = default_window_of(default);
    let own = match partial {
        Some(p) => p.rolling_window,
        None => None,
    };
    let w = match first_present(own, d.rolling_window) {
        Some(w) => w,
        None => 720,
    };
    if w < 1 {
        1
    } else {
        w
    }
}

/// The count that makes a window ready: the symbol's, else the default's,
/// else 1; at most the window length and at least 1.
pub open spec fn min_periods_of(default: Option<WindowPartial>, partial: Option<WindowPartial>) -> usize {
    let d = default_window_of(default);
    let own = match partial {
        Some(p) => p.min_periods,
        None => None,
    };
    let m = match first_present(own, d.min_periods) {
        Some(m) => m,
        None => 1,
    };
    let w = rolling_window_of(default, partial);
    let capped = if m > w {
        w
    } else {
        m
    };
    if capped < 1 {
        1
    } else {
        capped
    }
}

/// A symbol's window settings fall back field by field: the window is the
/// symbol's own when it sets one, else its symbols file's `default` entry's,
/// else 720 (100000 when the file has no `default` entry), at least 1; the
/// ready count likewise is the symbol's own, else the `default` entry's, else
/// 1 (10000 without a `default` entry), kept within 1 and the window. A
/// symbol entry that leaves a field unset never hides the file's default for
/// that field.
pub proof fn law_window_settings_fall_back_per_field(
    default: Option<WindowPartial>,
    partial: Option<WindowPartial>,
)
    ensures
        ({
            let w = rolling_window_of(default, partial);
            let m = min_periods_of(default, partial);
            let own_w = match partial {
                Some(p) => p.rolling_window,
                None => None,
            };
            let own_m = match partial {
                Some(p) => p.min_periods,
                None => None,
            };
            let chosen_w: int = match own_w {
                Some(x) => x as int,
                None => match default {
                    Some(d) => match d.rolling_window {
                        Some(x) => x as int,
                        None => 720,
                    },
                    None => 100000,
                },
            };
            let chosen_m: int = match own_m {
                Some(x) => x as int,
                None => match default {
                    Some(d) => match d.min_periods {
                        Some(x) => x as int,
                        None => 1,
                    },
                    None => 10000,
                },
            };
            &&& w >= 1
            &&& (chosen_w >= 1 ==> w == chosen_w)
            &&& (chosen_w < 1 ==> w == 1)
            &&& 1 <= m <= w
            &&& (1 <= chosen_m <= w ==> m == chosen_m)
            &&& (chosen_m > w ==> m == w)
            &&& (chosen_m < 1 ==> m == 1)
        }),
{
}

/// The defaults of a symbols file (see [`default_window_of`]).
pub fn default_partial(default: &Option<WindowPartial>) -> (r: WindowPartial)
    ensures
        r == default_window_of(*default),
{
    match default {
        Some(d) => *d,
        None => WindowPartial { rolling_window: Some(100000), min_periods: Some(10000) },
    }
}

/// The window of a symbol with settings `partial` in a symbols file whose
/// `default` entry is `default`.
pub fn build_window_settings(default: &Option<WindowPartial>, partial: Option<&WindowPartial>) -> (r:
    WindowSettings)
    ensures
        r.rolling_window == rolling_window_of(*default, match partial {
            Some(p) => Some(*p),
            None => None,
        }),
        r.min_periods == min_periods_of(*default, match partial {
            Some(p) => Some(*p),
            None => None,
        }),
        1 <= r.min_periods <= r.rolling_window,
        match partial {
            Some(p) => match p.rolling_window {
                Some(w) => r.rolling_window == if w < 1 {
                    1
                } else {
                    w
                },
                None => true,
            },
            None => true,
        },
        (match partial {
            Some(p) => p.rolling_window is None,
            None => true,
        }) ==> r.rolling_window == match *default {
            Some(d) => match d.rolling_window {
                Some(w) => if w < 1 {
                    1
                } else {
                    w
                },
                None => 720,
            },
            None => 100000,
        },
        match partial {
            Some(p) => match p.min_periods {
                Some(m) => r.min_periods == if m > r.rolling_window {
                    r.rolling_window
                } else if m < 1 {
                    1
                } else {
                    m
                },
                None => true,
            },
            None => true,
        },
        (match partial {
            Some(p) => p.min_periods is None,
            None => true,
        }) ==> r.min_periods == match *default {
            Some(d) => match d.min_periods {
                Some(m) => if m > r.rolling_window {
                    r.rolling_window
                } else if m < 1 {
                    1
                } else {
                    m
                },
                None => 1,
            },
            None => if 10000 > r.rolling_window {
                r.rolling_window
            } else {
                10000
            },
        },
{
    let d = default_partial(default);
    let own_window = match partial {
        Some(p) => p.rolling_window,
        None => None,
    };
    let own_min = match partial {
        Some(p) => p.min_periods,
        None => None,
    };
    let window = match own_window {
        Some(w) => w,
        None => match d.rolling_window {
            Some(w) => w,
            None => 720,
        },
    };
    let window = if window < 1 {
        1
    } else {
        window
    };
    let min = match own_min {
        Some(m) => m,
        None => match d.min_periods {
            Some(m) => m,
            None => 1,
        },
    };
    let min = if min > window {
        window
    } else {
        min
    };
    let min = if min < 1 {
        1
    } else {
        min
    };
    WindowSettings { rolling_window: window, min_periods: min }
}

/// Whether one of the first `n` strings of `v` is the text `s`.
fn contains_text_upto(v: &Vec<String>, n: usize, s: &str) -> (r: bool)
    requires
        n <= v@.len(),
    ensures
        r == texts(v@).take(n as int).contains(s@),
{
    let ghost pre = texts(v@).take(n as int);
    let mut i: usize = 0;
    while i < n
        invariant
            i <= n <= v@.len(),
            pre == texts(v@).take(n as int),
            forall|j: int| 0 <= j < i ==> pre[j] != s@,
        decreases n - i,
    {
        if str_eq(v[i].as_str(), s) {
            proof {
                assert(pre[i as int] == s@);
            }
            return true;
        }
        i = i + 1;
    }
    proof {
        if pre.contains(s@) {
            let j = choose|j: int| 0 <= j < pre.len() && pre[j] == s@;
            assert(pre[j] != s@);
        }
    }
    false
}

/// Whether `v` holds the text `s`.
fn contains_text(v: &Vec<String>, s: &str) -> (r: bool)
    ensures
        r == texts(v@).contains(s@),
{
    let r = contains_text_upto(v, v.len(), s);
    proof {
        assert(texts(v@).take(v@.len() as int) =~= texts(v@));
    }
    r
}

/// A symbol override that names a symbol the process does not run.
pub struct UnknownOverride {
    pub symbol: String,
}

impl UnknownOverride {
    /// The error's text.
    pub fn message(&self) -> (r: String)
        ensures
            r@ == "symbol "@ + self.symbol@ + " not in config.toml online_symbols"@,
    {
        "symbol ".to_owned().concat(self.symbol.as_str()).concat(" not in config.toml online_symbols")
    }
}

/// Checks that every overridden symbol, in the order given, is one the
/// process runs; the first that is not is the error.
pub fn validate_overrides(override_keys: &Vec<String>, symbols: &Vec<String>) -> (r: Result<
    (),
    UnknownOverride,
>)
    ensures
        r is Ok <==> forall|i: int|
            0 <= i < override_keys@.len() ==> texts(symbols@).contains(#[trigger] texts(override_keys@)[i]),
        r matches Err(e) ==> exists|i: int|
            0 <= i < override_keys@.len() && e.symbol@ == texts(override_keys@)[i] && !texts(
                symbols@,
            ).contains(texts(override_keys@)[i]) && forall|j: int|
                0 <= j < i ==> texts(symbols@).contains(#[trigger] texts(override_keys@)[j]),
{
    let mut i: usize = 0;
    while i < override_keys.len()
        invariant
            i <= override_keys@.len(),
            forall|j: int| 0 <= j < i ==> texts(symbols@).contains(#[trigger] texts(override_keys@)[j]),
        decreases override_keys@.len() - i,
    {
        if !contains_text(symbols, override_keys[i].as_str()) {
            let symbol = override_keys[i].clone();
            proof {
                assert(texts(override_keys@)[i as int] == symbol@);
            }
            return Err(UnknownOverride { symbol });
        }
        i = i + 1;
    }
    Ok(())
}

/// The symbols a symbols file lacks, in the order the process runs them,
/// each once: those with no override.
pub open spec fn missing_symbols_of(keys: Seq<Seq<char>>, symbols: Seq<Seq<char>>) -> Seq<Seq<char>>
    decreases symbols.len(),
{
    if symbols.len() == 0 {
        Seq::empty()
    } else {
        let init = missing_symbols_of(keys, symbols.drop_last());
        let s = symbols.last();
        if keys.contains(s) || symbols.drop_last().contains(s) {
            init
        } else {
            init.push(s)
        }
    }
}

/// The symbols that get the default settings when a symbols file is
/// completed (see [`missing_symbols_of`]); the file changes when any do.
pub fn missing_symbols(override_keys: &Vec<String>, symbols: &Vec<String>) -> (r: Vec<String>)
    ensures
        texts(r@) == missing_symbols_of(texts(override_keys@), texts(symbols@)),
{
    let mut out: Vec<String> = Vec::new();
    let mut i: usize = 0;
    while i < symbols.len()
        invariant
            i <= symbols@.len(),
            texts(out@) == missing_symbols_of(texts(override_keys@), texts(symbols@).take(i as int)),
        decreases symbols@.len() - i,
    {
        let ghost before = texts(symbols@).take(i as int);
        let s = symbols[i].as_str();
        let known = contains_text(override_keys, s);
        let seen = contains_text_upto(symbols, i, s);
        let ghost out_before = texts(out@);
        proof {
            let next = texts(symbols@).take(i + 1);
            assert(next.drop_last() =~= before);
            assert(next.last() == s@);
        }
        if !known && !seen {
            out.push(symbols[i].clone());
            proof {
                assert(texts(out@) =~= out_before.push(s@));
            }
        }
        i = i + 1;
    }
    proof {
        assert(texts(symbols@).take(symbols@.len() as int) =~= texts(symbols@));
    }
    out
}

/// The last `cap` items of `s`, or all of them when there are fewer.
pub open spec fn keep_last<T>(s: Seq<T>, cap: nat) -> Seq<T> {
    if s.len() > cap {
        s.skip(s.len() - cap)
    } else {
        s
    }
}

/// Drops the oldest values until at most `cap` remain.
pub fn trim_window<T>(values: &mut VecDeque<T>, cap: usize)
    ensures
        final(values)@ == keep_last(old(values)@, cap as nat),
{
    let ghost start = values@;
    proof {
        assert(start.skip(0) =~= start);
    }
    while values.len() > cap
        invariant
            values@.len() <= start.len(),
            values@ == start.skip(start.len() - values@.len()),
            start.len() > cap ==> values@.len() >= cap,
            start.len() <= cap ==> values@.len() == start.len(),
        decreases values@.len(),
    {
        let _ = values.pop_front();
        proof {
            assert(values@ =~= start.skip(start.len() - values@.len()));
        }
    }
    proof {
        if start.len() <= cap {
            assert(values@ =~= start);
        }
    }
}

/// Appends a value to a window of at most `cap` values, dropping the oldest.
pub fn push_value<T>(values: &mut VecDeque<T>, value: T, cap: usize)
    ensures
        final(values)@ == keep_last(old(values)@.push(value), cap as nat),
{
    values.push_back(value);
    trim_window(values, cap);
}

/// A window never holds more values than its length, its newest value is
/// the one just pushed, and nothing is dropped while it has room.
pub proof fn law_window_keeps_newest<T>(s: Seq<T>, v: T, cap: nat)
    requires
        cap >= 1,
    ensures
        keep_last(s.push(v), cap).len() <= cap,
        keep_last(s.push(v), cap).last() == v,
        s.len() < cap ==> keep_last(s.push(v), cap) == s.push(v),
{
}

/// A symbol's window of recent values under its settings: ready once it
/// holds at least `min_periods` values.
pub struct SymbolWindow<T> {
    pub values: VecDeque<T>,
    pub settings: WindowSettings,
    pub ready: bool,
}

impl<T> SymbolWindow<T> {
    /// An empty window, not ready.
    pub fn new(settings: WindowSettings) -> (r: Self)
        ensures
            r.values@ == Seq::<T>::empty(),
            r.settings == settings,
            !r.ready,
    {
        SymbolWindow { values: VecDeque::new(), settings, ready: false }
    }

    /// Appends a value, dropping the oldest beyond the window, and notes
    /// whether the window is ready.
    pub fn push(&mut self, value: T)
        ensures
            final(self).values@ == keep_last(old(self).values@.push(value), old(self).settings.rolling_window as nat),
            final(self).settings == old(self).settings,
            final(self).ready == (final(self).values@.len() >= old(self).settings.min_periods),
    {
        push_value(&mut self.values, value, self.settings.rolling_window);
        self.ready = self.values.len() >= self.settings.min_periods;
    }

    /// Takes new settings: the window keeps its newest values up to the new
    /// length, and notes whether it is ready.
    pub fn reconfigure(&mut self, settings: WindowSettings)
        ensures
            final(self).values@ == keep_last(old(self).values@, settings.rolling_window as nat),
            final(self).settings == settings,
            final(self).ready == (final(self).values@.len() >= settings.min_periods),
    {
        self.settings = settings;
        trim_window(&mut self.values, settings.rolling_window);
        self.ready = self.values.len() >= settings.min_periods;
    }
}

/// What a periodic check of the symbols file does.
pub enum ReloadStep {
    /// The reload period has not passed: nothing.
    NotDue,
    /// The period has passed, but the file could not be read or is not newer
    /// than the last one loaded: only the period restarts.
    Unchanged,
    /// The period has passed and the file is newer: it is loaded again.
    Reload,
}

/// The periodic check of the symbols file, `elapsed_ns` after the last one:
/// due once `reload_sec` seconds have passed; the file is loaded again when
/// its modification time `mtime_ns` (if it could be read) is later than the
/// last one loaded, or when none was.
pub fn reload_step(elapsed_ns: u128, reload_sec: u64, last_mtime_ns: Option<i128>, mtime_ns: Option<
    i128,
>) -> (r: ReloadStep)
    ensures
        elapsed_ns < reload_sec * 1_000_000_000 ==> (r is NotDue),
        elapsed_ns >= reload_sec * 1_000_000_000 ==> match mtime_ns {
            None => r is Unchanged,
            Some(m) => match last_mtime_ns {
                Some(l) => if l < m {
                    r is Reload
                } else {
                    r is Unchanged
                },
                None => r is Reload,
            },
        },
{
    let period: u128 = reload_sec as u128 * 1_000_000_000;
    if elapsed_ns < period {
        return ReloadStep::NotDue;
    }
    match mtime_ns {
        None => ReloadStep::Unchanged,
        Some(m) => match last_mtime_ns {
            Some(l) => if l < m {
                ReloadStep::Reload
            } else {
                ReloadStep::Unchanged
            },
            None => ReloadStep::Reload,
        },
    }
}

} // verus!
