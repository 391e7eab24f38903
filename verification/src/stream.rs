//! Decisions of the streaming processes: which lines and symbols an event
//! stream feeds, how a binary feed frame is read and routed, and which time
//! ranges a warm-up, a replay or a CSV run covers.
use vstd::prelude::*;
use crate::factor::fits_i64;
use crate::rolling::opt_view;
use crate::text::{str_eq, trim, trim_end_char, trim_end_matches, trim_ws};

verus! {

/// What a single-symbol process does with an event of some symbol.
pub enum SymbolAdmission {
    /// The first symbol seen: the process starts on it.
    Started,
    /// The symbol the process runs on.
    Continued,
    /// Another symbol: the event is ignored.
    Ignored,
}

/// The symbol a single-symbol process runs on, fixed by the first event.
pub struct StreamState {
    pub symbol: Option<String>,
}

impl StreamState {
    /// A process that has seen no event yet.
    pub fn new() -> (r: Self)
        ensures
            r.symbol is None,
    {
        StreamState { symbol: None }
    }

    /// Admits an event of `symbol`: the first symbol seen becomes the
    /// process's symbol for good; events of any other symbol are ignored.
    pub fn get_tinfo(&mut self, symbol: &str) -> (r: SymbolAdmission)
        ensures
            old(self).symbol is None ==> (r is Started && (final(self).symbol matches Some(s) && s@
                == symbol@)),
            old(self).symbol matches Some(s) ==> final(self).symbol == old(self).symbol && (if s@
                == symbol@ {
                r is Continued
            } else {
                r is Ignored
            }),
    {
        match &self.symbol {
            None => {
                self.symbol = Some(symbol.to_owned());
                SymbolAdmission::Started
            },
            Some(curr) => {
                if str_eq(curr.as_str(), symbol) {
                    SymbolAdmission::Continued
                } else {
                    SymbolAdmission::Ignored
                }
            },
        }
    }
}

/// The content of an event line: the trimmed line, unless it is blank or a
/// comment (begins with `#`).
pub open spec fn event_line_of(line: Seq<char>) -> Option<Seq<char>> {
    let t = trim_ws(line);
    if t.len() == 0 || t[0] == '#' {
        None
    } else {
        Some(t)
    }
}

/// The content of an event line, `None` for a blank line or a comment.
pub fn event_line(line: &str) -> (r: Option<String>)
    ensures
        r matches Some(t) ==> event_line_of(line@) == Some(t@),
        r is None ==> event_line_of(line@) is None,
{
    let t = trim(line);
    let v = crate::text::chars_of(t.as_str());
    if v.len() == 0 || v[0] == '#' {
        None
    } else {
        Some(t)
    }
}

/// The venue a feed frame's origin stands for: origin 0 the first active
/// venue, origin 1 the second; `None` for another origin or when fewer than
/// two venues are active.
pub fn origin_to_sid(origin: u8, vsids: &Vec<i32>) -> (r: Option<i32>)
    ensures
        vsids@.len() < 2 ==> r is None,
        vsids@.len() >= 2 && origin == 0 ==> r == Some(vsids@[0]),
        vsids@.len() >= 2 && origin == 1 ==> r == Some(vsids@[1]),
        vsids@.len() >= 2 && origin > 1 ==> r is None,
{
    if vsids.len() < 2 {
        return None;
    }
    if origin == 0 {
        Some(vsids[0])
    } else if origin == 1 {
        Some(vsids[1])
    } else {
        None
    }
}

/// The unsigned value of little-endian bytes.
pub open spec fn le_value(b: Seq<u8>) -> nat
    decreases b.len(),
{
    if b.len() == 0 {
        0
    } else {
        b[0] as nat + 256 * le_value(b.skip(1))
    }
}

/// The two's-complement value of eight little-endian bytes.
pub open spec fn le_i64(b: Seq<u8>) -> int {
    if le_value(b) >= 0x8000_0000_0000_0000 {
        le_value(b) - 0x1_0000_0000_0000_0000
    } else {
        le_value(b) as int
    }
}

/// A frame of the binary market feed.
pub struct BinaryEvent {
    pub event: u8,
    pub side_id: u8,
    pub is_snapshot: u8,
    pub origin: u8,
    pub ts_us: i64,
    /// The IEEE-754 bits of the price.
    pub price_bits: u64,
    /// The IEEE-754 bits of the amount.
    pub amount_bits: u64,
}

/// 256 to the power `n`.
pub open spec fn pow256(n: nat) -> nat
    decreases n,
{
    if n == 0 {
        1
    } else {
        256 * pow256((n - 1) as nat)
    }
}

proof fn lemma_pow256_mono(a: nat, b: nat)
    requires
        a <= b,
    ensures
        pow256(a) <= pow256(b),
    decreases b,
{
    if a < b {
        lemma_pow256_mono(a, (b - 1) as nat);
    }
}

proof fn lemma_le_value_bound(b: Seq<u8>)
    ensures
        le_value(b) < pow256(b.len()),
    decreases b.len(),
{
    if b.len() > 0 {
        lemma_le_value_bound(b.skip(1));
        let p = pow256((b.len() - 1) as nat);
        assert(b[0] as nat + 256 * le_value(b.skip(1)) < 256 * p) by (nonlinear_arith)
            requires
                b[0] < 256,
                le_value(b.skip(1)) < p,
        ;
    }
}

/// The value of eight little-endian bytes `b[at..at + 8]`.
fn read_le_u64(b: &[u8], at: usize) -> (r: u64)
    requires
        at + 8 <= b@.len(),
    ensures
        r == le_value(b@.subrange(at as int, at + 8)),
{
    let ghost s = b@.subrange(at as int, at + 8);
    proof {
        assert(pow256(8) == 0x1_0000_0000_0000_0000) by {
            reveal_with_fuel(pow256, 9);
        }
    }
    let mut acc: u64 = 0;
    let mut k: usize = 8;
    while k > 0
        invariant
            k <= 8,
            at + 8 <= b.len(),
            s == b@.subrange(at as int, at + 8),
            acc == le_value(s.skip(k as int)),
            pow256(8) == 0x1_0000_0000_0000_0000,
        decreases k,
    {
        let ghost tail = s.skip(k as int);
        proof {
            assert(s.skip(k - 1).skip(1) =~= tail);
            assert(s.skip(k - 1)[0] == b@[at + k - 1]);
            lemma_le_value_bound(s.skip(k - 1));
            lemma_pow256_mono((9 - k) as nat, 8);
            assert(le_value(s.skip(k - 1)) == b@[at + k - 1] as nat + 256 * acc);
            assert(b@[at + k - 1] as nat + 256 * acc < 0x1_0000_0000_0000_0000);
        }
        let i: usize = at + (k - 1);
        let byte: u8 = b[i];
        acc = byte as u64 + 256 * acc;
        k = k - 1;
    }
    proof {
        assert(s.skip(0) =~= s);
    }
    acc
}

/// Reads a frame of the binary market feed: 28 bytes holding the event
/// type, side, snapshot flag and origin (one byte each), then the time in
/// µs, the price and the amount (eight little-endian bytes each). `None` for
/// a frame of another length.
pub fn decode_binary_event(msg: &[u8]) -> (r: Option<BinaryEvent>)
    ensures
        msg@.len() != 28 ==> r is None,
        msg@.len() == 28 ==> (r matches Some(e) && e.event == msg@[0] && e.side_id == msg@[1]
            && e.is_snapshot == msg@[2] && e.origin == msg@[3] && e.ts_us == le_i64(
            msg@.subrange(4, 12),
        ) && e.price_bits == le_value(msg@.subrange(12, 20)) && e.amount_bits == le_value(
            msg@.subrange(20, 28),
        )),
{
    if msg.len() != 28 {
        return None;
    }
    let ts_raw = read_le_u64(msg, 4);
    let ts_us: i64 = if ts_raw >= 0x8000_0000_0000_0000 {
        ((ts_raw - 0x8000_0000_0000_0000) as i64) + i64::MIN
    } else {
        ts_raw as i64
    };
    Some(
        BinaryEvent {
            event: msg[0],
            side_id: msg[1],
            is_snapshot: msg[2],
            origin: msg[3],
            ts_us,
            price_bits: read_le_u64(msg, 12),
            amount_bits: read_le_u64(msg, 20),
        },
    )
}

/// Where a frame of the binary feed goes.
pub enum BinaryRoute {
    /// An order-book row of venue `sid`.
    Book { sid: i32 },
    /// A trade of venue `sid`.
    Trade { sid: i32 },
    /// A signal tick.
    Tick,
    /// Nothing: the origin names no active venue.
    NoVenue,
    /// Nothing: the venue is not active.
    InactiveVenue { sid: i32 },
    /// Nothing: a tick needs two active venues.
    TooFewVenues,
    /// Nothing: an unknown event type.
    UnknownEvent,
}

/// Where a frame goes: type 1 is an order-book row and type 2 a trade, each
/// of the venue its origin names (when active); type 3 is a tick, which needs
/// two active venues.
pub fn route_binary_event(event: u8, origin: u8, vsids: &Vec<i32>) -> (r: BinaryRoute)
    ensures
        (event == 1 || event == 2) && vsids@.len() < 2 ==> (r is NoVenue),
        (event == 1 || event == 2) && vsids@.len() >= 2 && origin > 1 ==> (r is NoVenue),
        event == 1 && vsids@.len() >= 2 && origin <= 1 ==> (r == (BinaryRoute::Book {
            sid: vsids@[origin as int],
        })),
        event == 2 && vsids@.len() >= 2 && origin <= 1 ==> (r == (BinaryRoute::Trade {
            sid: vsids@[origin as int],
        })),
        event == 3 && vsids@.len() < 2 ==> (r is TooFewVenues),
        event == 3 && vsids@.len() >= 2 ==> (r is Tick),
        event != 1 && event != 2 && event != 3 ==> (r is UnknownEvent),
{
    if event == 1 || event == 2 {
        let sid = match origin_to_sid(origin, vsids) {
            Some(v) => v,
            None => return BinaryRoute::NoVenue,
        };
        let mut active = false;
        let mut i: usize = 0;
        while i < vsids.len()
            invariant
                i <= vsids@.len(),
                active == vsids@.take(i as int).contains(sid),
            decreases vsids.len() - i,
        {
            proof {
                assert(vsids@.take(i + 1) =~= vsids@.take(i as int).push(vsids@[i as int]));
                crate::buckets::lemma_push_contains(vsids@.take(i as int), vsids@[i as int], sid);
            }
            if vsids[i] == sid {
                active = true;
            }
            i = i + 1;
        }
        proof {
            assert(vsids@.take(i as int) =~= vsids@);
            assert(vsids@.contains(sid)) by {
                assert(vsids@[origin as int] == sid);
            }
        }
        if !active {
            return BinaryRoute::InactiveVenue { sid };
        }
        if event == 1 {
            BinaryRoute::Book { sid }
        } else {
            BinaryRoute::Trade { sid }
        }
    } else if event == 3 {
        if vsids.len() < 2 {
            BinaryRoute::TooFewVenues
        } else {
            BinaryRoute::Tick
        }
    } else {
        BinaryRoute::UnknownEvent
    }
}

/// Which rows of an order CSV a run feeds and emits.
#[derive(Debug, PartialEq, Eq, Structural, Clone, Copy)]
pub enum CsvMode {
    /// Every row, every output emitted.
    All,
    /// Only rows up to the split time, nothing emitted.
    Warmup,
    /// Every row; outputs emitted for rows after the split time.
    Live,
}

impl CsvMode {
    /// The mode named `all`, `warmup` or `live`; `None` for any other name.
    pub fn parse(raw: &str) -> (r: Option<Self>)
        ensures
            raw@ == "all"@ ==> r == Some(CsvMode::All),
            raw@ == "warmup"@ ==> r == Some(CsvMode::Warmup),
            raw@ == "live"@ ==> r == Some(CsvMode::Live),
            raw@ != "all"@ && raw@ != "warmup"@ && raw@ != "live"@ ==> r is None,
    {
        proof {
            reveal_strlit("all");
            reveal_strlit("warmup");
            reveal_strlit("live");
            assert("all"@.len() == 3);
            assert("warmup"@.len() == 6);
            assert("live"@.len() == 4);
        }
        if str_eq(raw, "all") {
            Some(CsvMode::All)
        } else if str_eq(raw, "warmup") {
            Some(CsvMode::Warmup)
        } else if str_eq(raw, "live") {
            Some(CsvMode::Live)
        } else {
            None
        }
    }
}

/// An integer clamped to the range of `i64` (saturating arithmetic).
pub open spec fn clamp_i64(x: int) -> i64 {
    if x < i64::MIN {
        i64::MIN
    } else if x > i64::MAX {
        i64::MAX
    } else {
        x as i64
    }
}

/// `a - b`, saturating at the bounds of `i64` (`i64::saturating_sub`).
pub fn saturating_sub_i64(a: i64, b: i64) -> (r: i64)
    ensures
        r == clamp_i64(a - b),
{
    let x = a as i128 - b as i128;
    if x < i64::MIN as i128 {
        i64::MIN
    } else if x > i64::MAX as i128 {
        i64::MAX
    } else {
        x as i64
    }
}

/// `a * b`, saturating at the bounds of `i64` (`i64::saturating_mul`).
pub fn saturating_mul_i64(a: i64, b: i64) -> (r: i64)
    ensures
        r == clamp_i64(a * b),
{
    proof {
        assert(-9223372036854775808 * 9223372036854775808 <= a * b <= 9223372036854775808
            * 9223372036854775808) by (nonlinear_arith)
            requires
                -9223372036854775808 <= a <= 9223372036854775807,
                -9223372036854775808 <= b <= 9223372036854775807,
        ;
    }
    let x = a as i128 * b as i128;
    if x < i64::MIN as i128 {
        i64::MIN
    } else if x > i64::MAX as i128 {
        i64::MAX
    } else {
        x as i64
    }
}

/// The split time of a CSV run that holds back the last `tail_minutes`:
/// the latest time in the file minus that many minutes, saturating.
pub fn csv_split_ts(max_ts_ms: i64, tail_minutes: i64) -> (r: i64)
    ensures
        r == clamp_i64(max_ts_ms - clamp_i64(clamp_i64(tail_minutes * 60) * 1000)),
{
    saturating_sub_i64(max_ts_ms, saturating_mul_i64(saturating_mul_i64(tail_minutes, 60), 1000))
}

/// What a CSV run does with a row: whether it skips it, and whether it emits
/// the outputs of the row.
pub struct CsvRowPlan {
    pub skip: bool,
    pub emit: bool,
}

/// What a CSV run in `mode` does with a row at `ts_ms`, given the split time
/// (none in mode `all`): a warm-up skips rows after the split and emits
/// nothing; a live run emits only for rows after the split (or for all rows
/// when there is no split); mode `all` emits everything.
pub fn csv_row_plan(mode: CsvMode, split_ts_ms: Option<i64>, ts_ms: i64) -> (r: CsvRowPlan)
    ensures
        r.emit == match mode {
            CsvMode::All => true,
            CsvMode::Warmup => false,
            CsvMode::Live => match split_ts_ms {
                Some(s) => ts_ms > s,
                None => true,
            },
        },
        r.skip == (mode == CsvMode::Warmup && (split_ts_ms matches Some(s) && ts_ms > s)),
{
    let emit = match mode {
        CsvMode::All => true,
        CsvMode::Warmup => false,
        CsvMode::Live => match split_ts_ms {
            Some(s) => ts_ms > s,
            None => true,
        },
    };
    let skip = match mode {
        CsvMode::Warmup => match split_ts_ms {
            Some(s) => ts_ms > s,
            None => false,
        },
        _ => false,
    };
    CsvRowPlan { skip, emit }
}

/// The seconds of history a factor process replays before it streams:
/// `(rolling_window + shift) * period_s`.
pub open spec fn warmup_seconds_of(rolling_window: int, shift: int, period_s: int) -> int {
    (rolling_window + shift) * period_s
}

/// The time range a warm-up replays: the `warmup_seconds` before the last
/// stored record, up to it.
pub struct WarmupRange {
    pub start_ts_ms: i64,
    pub end_ts_ms: i64,
}

/// The time range a warm-up replays, ending at the last stored record.
pub fn warmup_range(end_ts_ms: i64, warmup_seconds: i64) -> (r: WarmupRange)
    ensures
        r.end_ts_ms == end_ts_ms,
        r.start_ts_ms == clamp_i64(end_ts_ms - clamp_i64(warmup_seconds * 1000)),
{
    let warmup_ms = saturating_mul_i64(warmup_seconds, 1000);
    WarmupRange { start_ts_ms: saturating_sub_i64(end_ts_ms, warmup_ms), end_ts_ms }
}

/// Where a replayed record falls.
pub enum RangeStep {
    /// Before the range: skip it.
    Before,
    /// In the range: process it.
    Within,
    /// After the range: stop.
    After,
}

/// Where a record at `ts` falls relative to `[start, end]`.
pub fn range_step(ts: i64, start: i64, end: i64) -> (r: RangeStep)
    ensures
        ts < start ==> r is Before,
        start <= ts && ts > end ==> r is After,
        start <= ts <= end ==> r is Within,
{
    if ts < start {
        RangeStep::Before
    } else if ts > end {
        RangeStep::After
    } else {
        RangeStep::Within
    }
}

/// Why a replay's number of days is refused.
pub enum ReplayDaysError {
    Missing,
    NotPositive,
}

impl ReplayDaysError {
    /// The message the error is reported with.
    pub fn message(&self) -> (r: &'static str)
        ensures
            self is Missing ==> r@ == "pnlu_factor_replay.days missing"@,
            self is NotPositive ==> r@ == "pnlu_factor_replay.days must be > 0"@,
    {
        match self {
            ReplayDaysError::Missing => "pnlu_factor_replay.days missing",
            ReplayDaysError::NotPositive => "pnlu_factor_replay.days must be > 0",
        }
    }
}

/// The number of days a replay covers: required, at most seven (more is
/// lowered to seven), and positive.
pub fn check_replay_days(days: Option<i64>) -> (r: Result<i64, ReplayDaysError>)
    ensures
        days is None ==> (r matches Err(ReplayDaysError::Missing)),
        days is Some && days->0 > 7 ==> (r matches Ok(v) && v == 7),
        days is Some && 0 < days->0 <= 7 ==> (r matches Ok(v) && v == days->0),
        days is Some && days->0 <= 0 ==> (r matches Err(ReplayDaysError::NotPositive)),
{
    let d = match days {
        Some(v) => v,
        None => return Err(ReplayDaysError::Missing),
    };
    let d = if d > 7 {
        7
    } else {
        d
    };
    if d <= 0 {
        return Err(ReplayDaysError::NotPositive);
    }
    Ok(d)
}

/// The times a replay covers: it outputs from `start_ts_ms` and reads from
/// `warmup_start_ms` to warm its window up.
pub struct ReplayRange {
    pub start_ts_ms: i64,
    pub warmup_start_ms: i64,
}

/// The times a replay covers: `days` back from the last record (not before
/// the first record), and a warm-up of `warmup_ms` before that (not before
/// the first record either).
pub fn replay_range(end_ts_ms: i64, earliest_ts_ms: i64, days: i64, warmup_ms: i64) -> (r:
    ReplayRange)
    ensures
        ({
            let start = clamp_i64(end_ts_ms - clamp_i64(days * 86400000));
            let start = if start < earliest_ts_ms {
                earliest_ts_ms
            } else {
                start
            };
            let ws = clamp_i64(start - warmup_ms);
            &&& r.start_ts_ms == start
            &&& r.warmup_start_ms == if ws < earliest_ts_ms {
                earliest_ts_ms
            } else {
                ws
            }
        }),
{
    let days_ms = saturating_mul_i64(days, 24 * 60 * 60 * 1000);
    let mut start_ts_ms = saturating_sub_i64(end_ts_ms, days_ms);
    if start_ts_ms < earliest_ts_ms {
        start_ts_ms = earliest_ts_ms;
    }
    let mut warmup_start_ms = saturating_sub_i64(start_ts_ms, warmup_ms);
    if warmup_start_ms < earliest_ts_ms {
        warmup_start_ms = earliest_ts_ms;
    }
    ReplayRange { start_ts_ms, warmup_start_ms }
}

/// The settings of the factor stream process; a setting left out of its
/// file takes its default.
pub struct FactorStreamConf {
    pub period_s: i64,
    pub rolling_window: usize,
    pub min_periods: usize,
    pub shift: usize,
    pub max_keep_periods: usize,
    pub ipc_prefix: Option<String>,
    pub db_root: Option<String>,
    pub output_ipc_prefix: Option<String>,
    pub output_topic: Option<String>,
}

/// The default period: 5 s.
pub fn default_period_s() -> (r: i64)
    ensures
        r == 5,
{
    5
}

/// The default rolling window: 360 periods (30 minutes of 5 s periods).
pub fn default_rolling_window() -> (r: usize)
    ensures
        r == 360,
{
    360
}

/// The default fewest values for a mean: 300.
pub fn default_min_periods() -> (r: usize)
    ensures
        r == 300,
{
    300
}

/// The default shift: 120 periods.
pub fn default_shift() -> (r: usize)
    ensures
        r == 120,
{
    120
}

/// The default number of kept periods: 360.
pub fn default_max_keep_periods() -> (r: usize)
    ensures
        r == 360,
{
    360
}

impl Default for FactorStreamConf {
    fn default() -> (r: Self)
        ensures
            r.period_s == 5,
            r.rolling_window == 360,
            r.min_periods == 300,
            r.shift == 120,
            r.max_keep_periods == 360,
            r.ipc_prefix is None,
            r.db_root is None,
            r.output_ipc_prefix is None,
            r.output_topic is None,
    {
        FactorStreamConf {
            period_s: default_period_s(),
            rolling_window: default_rolling_window(),
            min_periods: default_min_periods(),
            shift: default_shift(),
            max_keep_periods: default_max_keep_periods(),
            ipc_prefix: None,
            db_root: None,
            output_ipc_prefix: None,
            output_topic: None,
        }
    }
}

/// The seconds of history a factor process replays before it streams (see
/// [`warmup_seconds_of`]). The product must fit in `i64`.
pub fn warmup_seconds(rolling_window: usize, shift: usize, period_s: i64) -> (r: i64)
    requires
        rolling_window + shift <= i64::MAX,
        fits_i64(warmup_seconds_of(rolling_window as int, shift as int, period_s as int)),
    ensures
        r == warmup_seconds_of(rolling_window as int, shift as int, period_s as int),
{
    let periods = (rolling_window as u128 + shift as u128) as i64;
    let p = period_s as i128;
    proof {
        assert(-9223372036854775808 * 9223372036854775807 <= periods * p <= 9223372036854775807
            * 9223372036854775807) by (nonlinear_arith)
            requires
                0 <= periods <= 9223372036854775807,
                -9223372036854775808 <= p <= 9223372036854775807,
        ;
    }
    ((periods as i128) * p) as i64
}

/// Where a factor stream reads, stores and publishes.
pub struct StreamTargets {
    pub ipc_prefix: String,
    pub db_root: String,
    pub output_endpoint: String,
    pub output_topic: String,
}

/// Why a factor stream cannot start.
pub enum StreamTargetsError {
    /// The output endpoint is blank.
    MissingOutput,
}

impl StreamTargetsError {
    /// The error's text.
    pub fn message(&self) -> (r: &'static str)
        ensures
            r@ == "output_ipc_prefix is required"@,
    {
        match self {
            StreamTargetsError::MissingOutput => "output_ipc_prefix is required",
        }
    }
}

/// The first present of a command-line value, a file value and a default.
pub open spec fn chosen(arg: Option<Seq<char>>, file: Option<Seq<char>>, default: Seq<char>) -> Seq<char> {
    match arg {
        Some(a) => a,
        None => match file {
            Some(f) => f,
            None => default,
        },
    }
}

fn choose_text(arg: &Option<String>, file: &Option<String>, default: &str) -> (r: String)
    ensures
        r@ == chosen(opt_view(*arg), opt_view(*file), default@),
{
    match arg {
        Some(a) => a.clone(),
        None => match file {
            Some(f) => f.clone(),
            None => default.to_owned(),
        },
    }
}

/// The output endpoint and topic of a factor stream, and, for the stream
/// mode, where it reads and stores: the command line first, then the file,
/// then the defaults. A blank output endpoint is refused.
pub fn resolve_stream_targets(conf: &FactorStreamConf, arg_ipc_prefix: &Option<String>, arg_db_root: &Option<String>) -> (r: Result<StreamTargets, StreamTargetsError>)
    ensures
        ({
            let out = match conf.output_ipc_prefix {
                Some(o) => o@,
                None => "ipc:///tmp/mth_pubs/pnlu_factor.ipc"@,
            };
            &&& (r is Err <==> trim_ws(out).len() == 0)
            &&& (r matches Ok(t) ==> {
                &&& t.output_endpoint@ == out
                &&& t.output_topic@ == match conf.output_topic {
                    Some(o) => o@,
                    None => "pnlu_factor"@,
                }
                &&& t.ipc_prefix@ == chosen(
                    opt_view(*arg_ipc_prefix),
                    opt_view(conf.ipc_prefix),
                    "ipc:///tmp/mth_pubs/stream_pairmm/okex-futures-binance-futures"@,
                )
                &&& t.db_root@ == chosen(
                    opt_view(*arg_db_root),
                    opt_view(conf.db_root),
                    "data/record_persist/pairmm/okex-futures-binance-futures"@,
                )
            })
        }),
{
    let output_endpoint = match &conf.output_ipc_prefix {
        Some(o) => o.clone(),
        None => "ipc:///tmp/mth_pubs/pnlu_factor.ipc".to_owned(),
    };
    let trimmed = trim(output_endpoint.as_str());
    if trimmed.as_str().is_empty() {
        return Err(StreamTargetsError::MissingOutput);
    }
    let output_topic = match &conf.output_topic {
        Some(o) => o.clone(),
        None => "pnlu_factor".to_owned(),
    };
    let ipc_prefix = choose_text(
        arg_ipc_prefix,
        &conf.ipc_prefix,
        "ipc:///tmp/mth_pubs/stream_pairmm/okex-futures-binance-futures",
    );
    let db_root = choose_text(
        arg_db_root,
        &conf.db_root,
        "data/record_persist/pairmm/okex-futures-binance-futures",
    );
    Ok(StreamTargets { ipc_prefix, db_root, output_endpoint, output_topic })
}

/// The milliseconds of history a replay reads before its first output:
/// the warm-up seconds times 1000, which must fit in `i64`.
pub fn replay_warmup_ms(rolling_window: usize, shift: usize, period_s: i64) -> (r: i64)
    requires
        rolling_window + shift <= i64::MAX,
        fits_i64(warmup_seconds_of(rolling_window as int, shift as int, period_s as int)),
        fits_i64(warmup_seconds_of(rolling_window as int, shift as int, period_s as int) * 1000),
    ensures
        r == warmup_seconds_of(rolling_window as int, shift as int, period_s as int) * 1000,
{
    let s = warmup_seconds(rolling_window, shift, period_s);
    s * 1000
}

/// Where a replay reads and writes.
pub struct ReplayTargets {
    pub db_root: String,
    pub out_dir: String,
}

/// Where a replay reads and writes: the command line first, then the
/// replay settings, then the defaults; the output directory without
/// trailing `/`.
pub fn resolve_replay_targets(
    arg_db_root: &Option<String>,
    arg_out_dir: &Option<String>,
    conf_db_root: &Option<String>,
    conf_out_dir: &Option<String>,
) -> (r: ReplayTargets)
    ensures
        r.db_root@ == chosen(
            opt_view(*arg_db_root),
            opt_view(*conf_db_root),
            "data/record_persist/pairmm/okex-futures-binance-futures"@,
        ),
        r.out_dir@ == trim_end_char(chosen(opt_view(*arg_out_dir), opt_view(*conf_out_dir), "."@), '/'),
{
    let db_root = choose_text(arg_db_root, conf_db_root, "data/record_persist/pairmm/okex-futures-binance-futures");
    let out_dir = choose_text(arg_out_dir, conf_out_dir, ".");
    let out_dir = trim_end_matches(out_dir.as_str(), '/');
    ReplayTargets { db_root, out_dir }
}

} // verus!
