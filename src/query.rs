//! The query engine: reverse scans of the log, newest key first, that stop at
//! the first key older than the window.
//!
//! A scan is handed the keys (and, where the query reads them, the records)
//! in the order the store yields them backwards. It takes keys while they
//! read as keys of this schema and are not older than the window's start; it
//! stops at the first older key and fails at the first unreadable one.

use vstd::prelude::*;
use vstd::arithmetic::div_mod::lemma_fundamental_div_mod;
use crate::key::{KEY_VERSION, KeyError, decode_key, parse_key};
use crate::timeframe::{
    LabelFormat, Timeframe, buckets_of, format_of, label_at, label_of, span_of, timeframe_named,
};

verus! {

/// Why a query gives no result.
#[derive(Clone, Copy, Debug, PartialEq, Eq, Structural)]
pub enum QueryError {
    /// A key in the window carries another schema tag.
    SchemaMismatch,
    /// A key or a record in the window cannot be read.
    Malformed,
    /// A bucket's start instant cannot be shown as a calendar date.
    TimeOutOfRange,
}

pub open spec fn query_error(e: KeyError) -> QueryError {
    match e {
        KeyError::SchemaMismatch => QueryError::SchemaMismatch,
        KeyError::Malformed => QueryError::Malformed,
    }
}

/// The byte views of a list of keys.
pub open spec fn key_views(keys: Seq<Vec<u8>>) -> Seq<Seq<u8>> {
    keys.map_values(|k: Vec<u8>| k@)
}

/// Whether a scan whose window starts at `start` takes key `k`.
pub open spec fn taken(k: Seq<u8>, start: u128) -> bool {
    &&& parse_key(k, KEY_VERSION) is Ok
    &&& parse_key(k, KEY_VERSION)->Ok_0.timestamp >= start
}

/// The timestamp of a readable key.
pub open spec fn stamp_of(k: Seq<u8>) -> u128 {
    parse_key(k, KEY_VERSION)->Ok_0.timestamp
}

/// How many keys, from the first, a scan takes.
pub open spec fn scan_len(keys: Seq<Seq<u8>>, start: u128) -> nat
    decreases keys.len(),
{
    if keys.len() > 0 && taken(keys[0], start) {
        1 + scan_len(keys.drop_first(), start)
    } else {
        0
    }
}

/// The error a scan meets: that of the key it stops at, if that key is unreadable.
pub open spec fn scan_error(keys: Seq<Seq<u8>>, start: u128) -> Option<QueryError> {
    let n = scan_len(keys, start) as int;
    if n < keys.len() && parse_key(keys[n], KEY_VERSION) is Err {
        Some(query_error(parse_key(keys[n], KEY_VERSION)->Err_0))
    } else {
        None
    }
}

/// The timestamps of the keys a scan takes, newest first.
pub open spec fn scanned_stamps(keys: Seq<Seq<u8>>, start: u128) -> Seq<u128> {
    Seq::new(scan_len(keys, start), |j: int| stamp_of(keys[j]))
}

/// The first instant of the window of a span that ends now.
pub open spec fn window_start(now: u128, span: u128) -> u128 {
    if now >= span {
        (now - span) as u128
    } else {
        0
    }
}

pub(crate) proof fn lemma_scan_len_rows(keys: Seq<Seq<u8>>, start: u128, i: int)
    requires
        0 <= i <= keys.len(),
        forall|j: int| 0 <= j < i ==> #[trigger] taken(keys[j], start),
        i == keys.len() || !taken(keys[i], start),
    ensures
        scan_len(keys, start) == i,
{
    lemma_scan_len(keys, start, i);
}

/// The first instant of the window of the named timeframe ending at `now`.
pub fn timeframe_start(now: u128, timeframe: &str) -> (r: u128)
    ensures
        r == window_start(now, span_of(timeframe_named(timeframe@))),
{
    let span = Timeframe::parse(timeframe).span();
    if now >= span {
        now - span
    } else {
        0
    }
}

proof fn lemma_scan_len(keys: Seq<Seq<u8>>, start: u128, i: int)
    requires
        0 <= i <= keys.len(),
        forall|j: int| 0 <= j < i ==> #[trigger] taken(keys[j], start),
        i == keys.len() || !taken(keys[i], start),
    ensures
        scan_len(keys, start) == i,
    decreases i,
{
    if i > 0 {
        let rest = keys.drop_first();
        assert forall|j: int| 0 <= j < i - 1 implies #[trigger] taken(rest[j], start) by {
            assert(rest[j] == keys[j + 1]);
            assert(taken(keys[j + 1], start));
        }
        if i < keys.len() {
            assert(rest[i - 1] == keys[i]);
        }
        assert(taken(keys[0], start));
        lemma_scan_len(rest, start, i - 1);
    } else {
        assert(keys.len() == 0 || !taken(keys[0], start));
    }
}

/// What a scan does at one key.
#[derive(Clone, Copy, Debug, PartialEq, Eq, Structural)]
pub enum ScanStep {
    /// The key is in the window; this is its timestamp.
    Take(u128),
    /// The key is older than the window: the scan ends here.
    Stop,
    /// The key cannot be read: the scan fails.
    Fail(QueryError),
}

pub open spec fn step_of(k: Seq<u8>, start: u128) -> ScanStep {
    match parse_key(k, KEY_VERSION) {
        Err(e) => ScanStep::Fail(query_error(e)),
        Ok(sk) => if sk.timestamp >= start {
            ScanStep::Take(sk.timestamp)
        } else {
            ScanStep::Stop
        },
    }
}

/// Decides what a scan whose window starts at `start` does at `key`.
pub fn scan_step(key: &[u8], start: u128) -> (r: ScanStep)
    ensures
        r == step_of(key@, start),
{
    match decode_key(key, KEY_VERSION) {
        Err(KeyError::SchemaMismatch) => ScanStep::Fail(QueryError::SchemaMismatch),
        Err(KeyError::Malformed) => ScanStep::Fail(QueryError::Malformed),
        Ok(k) => if k.timestamp >= start {
            ScanStep::Take(k.timestamp)
        } else {
            ScanStep::Stop
        },
    }
}

/// One bucket of a graph: how many records fall in it, its first instant,
/// and that instant's label.
pub struct Point {
    pub count: u64,
    pub at: u128,
    pub label: String,
}

/// How many of the instants `ts` lie in `[lo, hi)`.
pub open spec fn count_in(ts: Seq<u128>, lo: int, hi: int) -> nat
    decreases ts.len(),
{
    if ts.len() == 0 {
        0
    } else {
        count_in(ts.drop_last(), lo, hi) + if lo <= ts.last() < hi {
            1nat
        } else {
            0nat
        }
    }
}

/// Whether instant `at` lies in bucket `i` of the buckets of width `width` from `start`.
pub open spec fn in_bucket(at: int, start: int, width: int, i: int) -> bool {
    start + i * width <= at < start + (i + 1) * width
}

/// The buckets `points` count the instants `ts` in consecutive half-open
/// intervals of width `width` from `start`, and carry the labels `labels`.
pub open spec fn points_match(
    points: Seq<Point>,
    ts: Seq<u128>,
    start: int,
    width: int,
    labels: Seq<Seq<char>>,
) -> bool {
    &&& points.len() == labels.len()
    &&& forall|i: int|
        #![trigger points[i]]
        0 <= i < points.len() ==> {
            &&& points[i].at == start + i * width
            &&& points[i].label@ == labels[i]
            &&& points[i].count == count_in(ts, start + i * width, start + (i + 1) * width)
        }
}

proof fn lemma_bucket_ends(i: int, n: int, width: int)
    requires
        0 <= i < n,
        width >= 0,
    ensures
        0 <= i * width <= (i + 1) * width <= n * width,
        (i + 1) * width == i * width + width,
{
    assert((i + 1) * width == i * width + width) by (nonlinear_arith);
    assert(0 <= i * width <= (i + 1) * width <= n * width) by (nonlinear_arith)
        requires
            0 <= i < n,
            width >= 0,
    ;
}

proof fn lemma_buckets_disjoint(at: int, start: int, width: int, i: int, m: int)
    requires
        width >= 0,
        i != m,
        in_bucket(at, start, width, i),
    ensures
        !in_bucket(at, start, width, m),
{
    if m > i {
        assert((i + 1) * width <= m * width) by (nonlinear_arith)
            requires
                i + 1 <= m,
                width >= 0,
        ;
    } else {
        assert((m + 1) * width <= i * width) by (nonlinear_arith)
            requires
                m + 1 <= i,
                width >= 0,
        ;
    }
}

/// Adds instant `at` to the bucket that holds it, if any.
fn bump(points: &mut Vec<Point>, at: u128, start: u128, width: u128)
    requires
        start + old(points).len() * width <= u128::MAX,
        forall|b: int|
            #![trigger old(points)@[b]]
            0 <= b < old(points).len() ==> {
                &&& old(points)@[b].at == start + b * width
                &&& old(points)@[b].count < u64::MAX
            },
    ensures
        final(points).len() == old(points).len(),
        forall|b: int|
            #![trigger final(points)@[b]]
            0 <= b < final(points).len() ==> {
                &&& final(points)@[b].at == old(points)@[b].at
                &&& final(points)@[b].label == old(points)@[b].label
                &&& final(points)@[b].count == old(points)@[b].count + if in_bucket(
                    at as int,
                    start as int,
                    width as int,
                    b,
                ) {
                    1int
                } else {
                    0int
                }
            },
{
    let n = points.len();
    let mut b: usize = 0;
    let mut found = false;
    while b < n && !found
        invariant
            b <= n,
            n == points.len(),
            n == old(points).len(),
            start + n * width <= u128::MAX,
            forall|m: int|
                #![trigger old(points)@[m]]
                0 <= m < n ==> old(points)@[m].count < u64::MAX,
            forall|m: int|
                #![trigger points@[m]]
                0 <= m < n ==> {
                    &&& points@[m].at == old(points)@[m].at
                    &&& points@[m].label == old(points)@[m].label
                    &&& points@[m].at == start + m * width
                },
            !found ==> forall|m: int|
                #![trigger points@[m]]
                0 <= m < n ==> points@[m].count == old(points)@[m].count,
            !found ==> forall|m: int|
                0 <= m < b ==> !in_bucket(at as int, start as int, width as int, m),
            found ==> b < n && in_bucket(at as int, start as int, width as int, b as int),
            found ==> forall|m: int|
                #![trigger points@[m]]
                0 <= m < n ==> points@[m].count == old(points)@[m].count + if m == b {
                    1int
                } else {
                    0int
                },
        decreases n - b + if found {
            0int
        } else {
            1int
        },
    {
        proof {
            lemma_bucket_ends(b as int, n as int, width as int);
        }
        assert(points@[b as int].at == start + b * width);
        assert(old(points)@[b as int].count < u64::MAX);
        let lo = points[b].at;
        if lo <= at && at < lo + width {
            points[b].count = points[b].count + 1;
            found = true;
        } else {
            b = b + 1;
        }
    }
    proof {
        assert forall|m: int|
            #![trigger points@[m]]
            0 <= m < n implies points@[m].count == old(points)@[m].count + if in_bucket(
                at as int,
                start as int,
                width as int,
                m,
            ) {
                1int
            } else {
                0int
            } by {
            if found && m != b {
                lemma_buckets_disjoint(at as int, start as int, width as int, b as int, m);
            }
        }
    }
}

/// Counts the keys a scan from `start` takes into `labels.len()` buckets of
/// width `width` from `start`; bucket `i` gets label `labels[i]`.
pub fn tally_graph(keys: &Vec<Vec<u8>>, start: u128, width: u128, labels: &Vec<String>) -> (r:
    Result<Vec<Point>, QueryError>)
    requires
        start + labels.len() * width <= u128::MAX,
    ensures
        match scan_error(key_views(keys@), start) {
            Some(e) => r == Err::<Vec<Point>, QueryError>(e),
            None => r is Ok && points_match(
                r->Ok_0@,
                scanned_stamps(key_views(keys@), start),
                start as int,
                width as int,
                labels@.map_values(|s: String| s@),
            ),
        },
{
    let n = labels.len();
    let ghost ls = labels@.map_values(|s: String| s@);
    let mut points: Vec<Point> = Vec::new();
    let mut i: usize = 0;
    while i < n
        invariant
            i <= n,
            n == labels.len(),
            ls == labels@.map_values(|s: String| s@),
            points.len() == i,
            start + n * width <= u128::MAX,
            forall|m: int|
                #![trigger points@[m]]
                0 <= m < i ==> {
                    &&& points@[m].at == start + m * width
                    &&& points@[m].label@ == ls[m]
                    &&& points@[m].count == 0
                },
        decreases n - i,
    {
        proof {
            lemma_bucket_ends(i as int, n as int, width as int);
        }
        let at = start + (i as u128) * width;
        points.push(Point { count: 0, at, label: labels[i].clone() });
        i = i + 1;
    }
    let ghost ks = key_views(keys@);
    let mut j: usize = 0;
    let mut stopped = false;
    while j < keys.len() && !stopped
        invariant
            j <= keys.len(),
            ks == key_views(keys@),
            ks.len() == keys.len(),
            n == labels.len(),
            ls == labels@.map_values(|s: String| s@),
            start + n * width <= u128::MAX,
            forall|m: int| 0 <= m < j ==> #[trigger] taken(ks[m], start),
            stopped ==> j < keys.len() && parse_key(ks[j as int], KEY_VERSION) is Ok && !taken(
                ks[j as int],
                start,
            ),
            points.len() == n,
            forall|b: int|
                #![trigger points@[b]]
                0 <= b < n ==> {
                    &&& points@[b].at == start + b * width
                    &&& points@[b].label@ == ls[b]
                    &&& points@[b].count == count_in(
                        Seq::new(j as nat, |m: int| stamp_of(ks[m])),
                        start + b * width,
                        start + (b + 1) * width,
                    )
                    &&& points@[b].count <= j
                },
        decreases keys.len() - j + if stopped {
            0int
        } else {
            1int
        },
    {
        assert(ks[j as int] == keys@[j as int]@);
        match scan_step(keys[j].as_slice(), start) {
            ScanStep::Fail(e) => {
                proof {
                    lemma_scan_len(ks, start, j as int);
                }
                return Err(e);
            },
            ScanStep::Stop => {
                stopped = true;
            },
            ScanStep::Take(at) => {
                bump(&mut points, at, start, width);
                let ghost f = |m: int| stamp_of(ks[m]);
                assert(Seq::new((j + 1) as nat, f).drop_last() =~= Seq::new(j as nat, f));
                j = j + 1;
            },
        }
    }
    proof {
        lemma_scan_len(ks, start, j as int);
        let ts = scanned_stamps(ks, start);
        assert(ts =~= Seq::new(j as nat, |m: int| stamp_of(ks[m])));
    }
    Ok(points)
}

/// The width of each of `n` buckets that share a span.
pub open spec fn bucket_width(span: u128, n: usize) -> u128 {
    if n == 0 {
        0
    } else {
        (span / (n as u128)) as u128
    }
}

/// The labels of `n` buckets of width `width` from `start`.
pub open spec fn bucket_labels(start: u128, width: u128, n: usize, form: LabelFormat) -> Seq<
    Option<Seq<char>>,
> {
    Seq::new(n as nat, |i: int| label_of((start + i * width) as u128, form))
}

/// What a graph of `n` buckets over the span of `span` milliseconds ending
/// at `now` gives: a failure when a bucket has no label, else the scan's
/// error, else the buckets.
pub open spec fn graph_outcome(
    keys: Seq<Seq<u8>>,
    now: u128,
    span: u128,
    n: usize,
    form: LabelFormat,
    r: Result<Vec<Point>, QueryError>,
) -> bool {
    let start = window_start(now, span);
    let width = bucket_width(span, n);
    let ls = bucket_labels(start, width, n, form);
    if exists|i: int| 0 <= i < n && (#[trigger] ls[i]) is None {
        r == Err::<Vec<Point>, QueryError>(QueryError::TimeOutOfRange)
    } else {
        match scan_error(keys, start) {
            Some(e) => r == Err::<Vec<Point>, QueryError>(e),
            None => r is Ok && points_match(
                r->Ok_0@,
                scanned_stamps(keys, start),
                start as int,
                width as int,
                ls.map_values(|o: Option<Seq<char>>| o->Some_0),
            ),
        }
    }
}

/// A graph of the `span` milliseconds up to `now` in `n` equal buckets,
/// labelled in format `form`.
pub fn past_time(keys: &Vec<Vec<u8>>, now: u128, span: u128, n: usize, form: LabelFormat) -> (r:
    Result<Vec<Point>, QueryError>)
    ensures
        graph_outcome(key_views(keys@), now, span, n, form, r),
{
    let start: u128 = if now >= span {
        now - span
    } else {
        0
    };
    let width: u128 = if n == 0 {
        0
    } else {
        span / (n as u128)
    };
    proof {
        if n > 0 {
            let ghost sp = span as int;
            let ghost nn = n as int;
            lemma_fundamental_div_mod(sp, nn);
            assert(sp / nn == width);
            assert(nn * width <= sp) by (nonlinear_arith)
                requires
                    sp == nn * (sp / nn) + sp % nn,
                    sp % nn >= 0,
                    sp / nn == width,
            ;
        }
    }
    assert(start == window_start(now, span));
    assert(width == bucket_width(span, n));
    let ghost ls = bucket_labels(start, width, n, form);
    let mut labels: Vec<String> = Vec::new();
    let mut i: usize = 0;
    while i < n
        invariant
            i <= n,
            labels.len() == i,
            start + n * width <= u128::MAX,
            ls == bucket_labels(start, width, n, form),
            start == window_start(now, span),
            width == bucket_width(span, n),
            forall|m: int|
                #![trigger labels@[m]]
                0 <= m < i ==> ls[m] == Some(labels@[m]@),
        decreases n - i,
    {
        proof {
            lemma_bucket_ends(i as int, n as int, width as int);
        }
        match label_at(start + (i as u128) * width, form) {
            Some(text) => {
                labels.push(text);
            },
            None => {
                assert(ls[i as int] is None);
                return Err(QueryError::TimeOutOfRange);
            },
        }
        i = i + 1;
    }
    proof {
        assert(labels@.len() == n);
        assert forall|m: int| 0 <= m < n implies (#[trigger] ls[m]) is Some by {
            assert(ls[m] == Some(labels@[m]@));
        }
        assert(ls.map_values(|o: Option<Seq<char>>| o->Some_0) =~= labels@.map_values(
            |s: String| s@,
        ));
    }
    tally_graph(keys, start, width, &labels)
}

/// The graph of a named timeframe up to `now`: 24 hourly buckets for `day`,
/// 7 daily ones for `week`, 30 for `month`, 12 for `year`; any other name
/// means `day`.
pub fn graph(keys: &Vec<Vec<u8>>, now: u128, timeframe: &str) -> (r: Result<
    Vec<Point>,
    QueryError,
>)
    ensures
        ({
            let t = timeframe_named(timeframe@);
            graph_outcome(key_views(keys@), now, span_of(t), buckets_of(t), format_of(t), r)
        }),
{
    let t = Timeframe::parse(timeframe);
    past_time(keys, now, t.span(), t.buckets(), t.label_format())
}

/// The sum of the counts of `n` buckets of width `width` from `start`.
pub open spec fn bucket_total(ts: Seq<u128>, start: int, width: int, n: nat) -> nat
    decreases n,
{
    if n == 0 {
        0
    } else {
        bucket_total(ts, start, width, (n - 1) as nat) + count_in(
            ts,
            start + (n - 1) * width,
            start + n * width,
        )
    }
}

/// The sum of the counts of a list of buckets.
pub open spec fn total_count(points: Seq<Point>) -> nat
    decreases points.len(),
{
    if points.len() == 0 {
        0
    } else {
        (total_count(points.drop_last()) + points.last().count) as nat
    }
}

proof fn lemma_count_split(ts: Seq<u128>, lo: int, mid: int, hi: int)
    requires
        lo <= mid <= hi,
    ensures
        count_in(ts, lo, mid) + count_in(ts, mid, hi) == count_in(ts, lo, hi),
    decreases ts.len(),
{
    if ts.len() > 0 {
        lemma_count_split(ts.drop_last(), lo, mid, hi);
    }
}

proof fn lemma_count_empty(ts: Seq<u128>, lo: int)
    ensures
        count_in(ts, lo, lo) == 0,
    decreases ts.len(),
{
    if ts.len() > 0 {
        lemma_count_empty(ts.drop_last(), lo);
    }
}

/// Bucketing is exhaustive: the `n` buckets of width `width` from `start`
/// count, between them, exactly the instants in `[start, start + n·width)`,
/// each once, and none outside that span.
pub proof fn lemma_bucketing_exhaustive(ts: Seq<u128>, start: int, width: int, n: nat)
    requires
        width >= 0,
    ensures
        bucket_total(ts, start, width, n) == count_in(ts, start, start + n * width),
    decreases n,
{
    if n == 0 {
        lemma_count_empty(ts, start);
        assert(n * width == 0) by (nonlinear_arith)
            requires
                n == 0,
        ;
    } else {
        let k = (n - 1) as nat;
        lemma_bucketing_exhaustive(ts, start, width, k);
        assert(bucket_total(ts, start, width, k) == count_in(ts, start, start + k * width));
        assert(bucket_total(ts, start, width, n) == bucket_total(ts, start, width, k) + count_in(
            ts,
            start + k * width,
            start + n * width,
        ));
        assert(start <= start + k * width <= start + n * width) by (nonlinear_arith)
            requires
                width >= 0,
                k + 1 == n,
        ;
        lemma_count_split(ts, start, start + k * width, start + n * width);
    }
}

/// An instant in the span of `n` buckets of positive width lies in exactly
/// one of them; an instant outside the span lies in none.
pub proof fn lemma_one_bucket(at: int, start: int, width: int, n: nat)
    requires
        width > 0,
    ensures
        (start <= at < start + n * width) == (exists|i: int|
            0 <= i < n && #[trigger] in_bucket(at, start, width, i)),
        forall|i: int, m: int|
            #[trigger] in_bucket(at, start, width, i) && #[trigger] in_bucket(at, start, width, m)
                ==> i == m,
{
    assert forall|i: int, m: int|
        #[trigger] in_bucket(at, start, width, i) && #[trigger] in_bucket(
            at,
            start,
            width,
            m,
        ) implies i == m by {
        if i != m {
            lemma_buckets_disjoint(at, start, width, i, m);
        }
    }
    if start <= at < start + n * width {
        let d = at - start;
        lemma_fundamental_div_mod(d, width);
        let q = d / width;
        assert(0 <= q < n && in_bucket(at, start, width, q)) by (nonlinear_arith)
            requires
                d == width * q + d % width,
                0 <= d % width < width,
                0 <= d < n * width,
                width > 0,
                at == start + d,
        ;
    }
    if exists|i: int| 0 <= i < n && #[trigger] in_bucket(at, start, width, i) {
        let i = choose|i: int| 0 <= i < n && #[trigger] in_bucket(at, start, width, i);
        assert(start <= at < start + n * width) by (nonlinear_arith)
            requires
                0 <= i < n,
                width > 0,
                start + i * width <= at < start + (i + 1) * width,
        ;
    }
}

/// The counts of a graph's buckets add up to the number of scanned instants
/// within the span the buckets cover.
pub proof fn lemma_graph_total(
    points: Seq<Point>,
    ts: Seq<u128>,
    start: int,
    width: int,
    labels: Seq<Seq<char>>,
)
    requires
        width >= 0,
        points_match(points, ts, start, width, labels),
    ensures
        total_count(points) == count_in(ts, start, start + points.len() * width),
{
    lemma_total_prefix(points, ts, start, width, labels, points.len() as nat);
    assert(points.take(points.len() as int) =~= points);
    lemma_bucketing_exhaustive(ts, start, width, points.len() as nat);
}

proof fn lemma_total_prefix(
    points: Seq<Point>,
    ts: Seq<u128>,
    start: int,
    width: int,
    labels: Seq<Seq<char>>,
    k: nat,
)
    requires
        k <= points.len(),
        points_match(points, ts, start, width, labels),
    ensures
        total_count(points.take(k as int)) == bucket_total(ts, start, width, k),
    decreases k,
{
    if k > 0 {
        lemma_total_prefix(points, ts, start, width, labels, (k - 1) as nat);
        assert(points.take(k as int).drop_last() =~= points.take(k - 1));
        assert(points[k - 1] == points[k - 1]);
    } else {
        assert(points.take(0) =~= Seq::<Point>::empty());
    }
}

} // verus!
