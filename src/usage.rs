//! Per-application aggregates: how much each application was played, and
//! which controls were used in one of them.

use vstd::prelude::*;
use std::collections::HashMap;
use vstd::arithmetic::div_mod::lemma_hoist_over_denominator;
use crate::event::{Axis, Button, Event, Record};
use crate::key::{KEY_VERSION, parse_key};
use crate::query::{
    QueryError, ScanStep, lemma_scan_len_rows, scan_error, scan_len, scan_step, taken,
    timeframe_start, window_start,
};
use crate::seqs::{
    first_seen, lemma_first_seen_contains, lemma_first_seen_distinct, lemma_occurrences_absent,
    lemma_occurrences_push, occurrences,
};
use crate::timeframe::{span_of, timeframe_named};

verus! {

/// A stored record with its key, as the store yields them.
pub struct Row {
    pub key: Vec<u8>,
    pub record: Record,
}

/// The byte views of the keys of a list of rows.
pub open spec fn row_keys(rows: Seq<Row>) -> Seq<Seq<u8>> {
    rows.map_values(|r: Row| r.key@)
}

/// The rows a scan whose window starts at `start` takes.
pub open spec fn window(rows: Seq<Row>, start: u128) -> Seq<Row> {
    rows.take(scan_len(row_keys(rows), start) as int)
}

/// The application named by each row.
pub open spec fn app_names(rows: Seq<Row>) -> Seq<Seq<char>> {
    rows.map_values(|r: Row| r.record.app@)
}

/// The device named by the first row of application `name`.
pub open spec fn first_pad(rows: Seq<Row>, name: Seq<char>) -> Seq<char>
    decreases rows.len(),
{
    if rows.len() == 0 {
        Seq::empty()
    } else if app_names(rows.drop_last()).contains(name) {
        first_pad(rows.drop_last(), name)
    } else if rows.last().record.app@ == name {
        rows.last().record.pad@
    } else {
        Seq::empty()
    }
}

/// How much one application was used.
pub struct Application {
    pub name: String,
    /// The device of the first record of the application the scan met.
    pub controller: String,
    /// How many records name the application.
    pub presses: u64,
    pub combos: u64,
}

/// `apps` lists each application of the rows `w` once, in the order the
/// scan first met them, with its number of records.
pub open spec fn apps_match(apps: Seq<Application>, w: Seq<Row>) -> bool {
    let names = first_seen(app_names(w));
    &&& apps.len() == names.len()
    &&& forall|i: int|
        #![trigger apps[i]]
        0 <= i < apps.len() ==> {
            &&& apps[i].name@ == names[i]
            &&& apps[i].presses == occurrences(app_names(w), names[i])
            &&& apps[i].controller@ == first_pad(w, names[i])
            &&& apps[i].combos == 0
        }
}

/// Counts the records of each application among the rows a scan from
/// `start` takes.
pub fn tally_applications(rows: &Vec<Row>, start: u128) -> (r: Result<
    Vec<Application>,
    QueryError,
>)
    ensures
        match scan_error(row_keys(rows@), start) {
            Some(e) => r == Err::<Vec<Application>, QueryError>(e),
            None => r is Ok && apps_match(r->Ok_0@, window(rows@, start)),
        },
{
    let ghost ks = row_keys(rows@);
    let mut apps: Vec<Application> = Vec::new();
    let mut j: usize = 0;
    let mut stopped = false;
    while j < rows.len() && !stopped
        invariant
            j <= rows.len(),
            ks == row_keys(rows@),
            forall|m: int| 0 <= m < j ==> #[trigger] taken(ks[m], start),
            stopped ==> j < rows.len() && parse_key(ks[j as int], KEY_VERSION) is Ok && !taken(ks[j as int], start),
            apps_match(apps@, rows@.take(j as int)),
            forall|i: int| #![trigger apps@[i]] 0 <= i < apps.len() ==> apps@[i].presses <= j,
        decreases rows.len() - j + if stopped {
            0int
        } else {
            1int
        },
    {
        assert(ks[j as int] == rows@[j as int].key@);
        match scan_step(rows[j].key.as_slice(), start) {
            ScanStep::Fail(e) => {
                proof {
                    lemma_scan_len_rows(ks, start, j as int);
                }
                return Err(e);
            },
            ScanStep::Stop => {
                stopped = true;
            },
            ScanStep::Take(_) => {
                let ghost w = rows@.take(j as int);
                let ghost w2 = rows@.take(j + 1);
                let ghost x = rows@[j as int].record.app@;
                proof {
                    assert(app_names(w2) =~= app_names(w).push(x));
                    assert(app_names(w2).drop_last() =~= app_names(w));
                    assert(app_names(w2).last() == x);
                    assert(w2.drop_last() =~= w);
                    lemma_first_seen_distinct(app_names(w));
                    lemma_first_seen_contains(app_names(w), x);
                }
                let n = apps.len();
                let mut m: usize = 0;
                let mut found = false;
                while m < n && !found
                    invariant
                        m <= n,
                        n == apps.len(),
                        j < rows.len(),
                        x == rows@[j as int].record.app@,
                        found ==> m < n && apps@[m as int].name@ == x,
                        !found ==> forall|k: int| 0 <= k < m ==> (#[trigger] apps@[k]).name@ != x,
                    decreases n - m + if found {
                        0int
                    } else {
                        1int
                    },
                {
                    if apps[m].name == rows[j].record.app {
                        found = true;
                    } else {
                        m = m + 1;
                    }
                }
                let ghost names = first_seen(app_names(w));
                if found {
                    assert(names[m as int] == x);
                    assert(names.contains(x));
                    apps[m].presses = apps[m].presses + 1;
                    proof {
                        assert(first_seen(app_names(w2)) == names);
                        assert forall|i: int| #![trigger apps@[i]] 0 <= i < apps.len() implies {
                            &&& apps@[i].name@ == names[i]
                            &&& apps@[i].presses == occurrences(app_names(w2), names[i])
                            &&& apps@[i].controller@ == first_pad(w2, names[i])
                            &&& apps@[i].combos == 0
                        } by {
                            lemma_first_seen_contains(app_names(w), names[i]);
                            assert(names.contains(names[i]));
                        }
                    }
                } else {
                    proof {
                        assert(!names.contains(x)) by {
                            if names.contains(x) {
                                let k = choose|k: int| 0 <= k < names.len() && names[k] == x;
                                assert(apps@[k].name@ == names[k]);
                            }
                        }
                        lemma_occurrences_absent(app_names(w), x);
                    }
                    apps.push(
                        Application {
                            name: rows[j].record.app.clone(),
                            controller: rows[j].record.pad.clone(),
                            presses: 1,
                            combos: 0,
                        },
                    );
                    proof {
                        assert(first_seen(app_names(w2)) == names.push(x));
                        assert forall|i: int| #![trigger apps@[i]] 0 <= i < apps.len() implies {
                            &&& apps@[i].name@ == names.push(x)[i]
                            &&& apps@[i].presses == occurrences(app_names(w2), names.push(x)[i])
                            &&& apps@[i].controller@ == first_pad(w2, names.push(x)[i])
                            &&& apps@[i].combos == 0
                        } by {
                            if i < n {
                                lemma_first_seen_contains(app_names(w), names[i]);
                                assert(names.contains(names[i]));
                            }
                        }
                    }
                }
                j = j + 1;
            },
        }
    }
    proof {
        lemma_scan_len_rows(ks, start, j as int);
    }
    Ok(apps)
}

/// How much each application was used over the named timeframe up to `now`
/// (`day`, `week`, `month` or `year`; any other name means `day`).
pub fn applications(rows: &Vec<Row>, now: u128, timeframe: &str) -> (r: Result<
    Vec<Application>,
    QueryError,
>)
    ensures
        ({
            let start = window_start(now, span_of(timeframe_named(timeframe@)));
            match scan_error(row_keys(rows@), start) {
                Some(e) => r == Err::<Vec<Application>, QueryError>(e),
                None => r is Ok && apps_match(r->Ok_0@, window(rows@, start)),
            }
        }),
{
    tally_applications(rows, timeframe_start(now, timeframe))
}

/// Width of the bins of an axis histogram: a fifth of full scale.
pub const BIN_WIDTH: i32 = 200_000;

/// The histogram bin of an analog level: `floor(v / BIN_WIDTH)`.
pub fn bin_of(v: i32) -> (r: i32)
    ensures
        r as int == v as int / (BIN_WIDTH as int),
{
    // 2_147_600_000 is 10_738 bin widths: enough to make any `i32` level
    // non-negative, and a whole number of bins.
    let shifted: u64 = (v as i64 + 2_147_600_000) as u64;
    let q: u64 = shifted / 200_000;
    proof {
        lemma_hoist_over_denominator(v as int, 10_738, 200_000);
    }
    (q as i64 - 10_738) as i32
}

/// How often one button was pressed.
pub struct ButtonCount {
    pub button: Button,
    pub presses: u64,
}

/// Where one axis was held: bin `k` counts the samples at levels in
/// `[k·width, (k+1)·width)`. Bins that no sample reached are absent.
pub struct AxisHistogram {
    pub axis: Axis,
    pub bins: HashMap<i32, u64>,
    pub width: i32,
}

/// A named sequence of buttons.
pub struct Combo {
    pub name: String,
    pub pattern: Vec<String>,
    pub presses: u64,
}

/// How the controls were used in one application.
pub struct AppStats {
    pub name: String,
    pub presses: Vec<ButtonCount>,
    pub axes: Vec<AxisHistogram>,
    pub combos: Vec<Combo>,
}

/// The buttons pressed in the rows of application `app`, in scan order.
pub open spec fn pressed_buttons(w: Seq<Row>, app: Seq<char>) -> Seq<Button>
    decreases w.len(),
{
    if w.len() == 0 {
        Seq::empty()
    } else {
        let p = pressed_buttons(w.drop_last(), app);
        if w.last().record.app@ == app {
            match w.last().record.event {
                Event::ButtonPressed(b, _) => p.push(b),
                _ => p,
            }
        } else {
            p
        }
    }
}

/// The axis samples in the rows of application `app`, each as its axis and
/// histogram bin, in scan order.
pub open spec fn axis_samples(w: Seq<Row>, app: Seq<char>) -> Seq<(Axis, int)>
    decreases w.len(),
{
    if w.len() == 0 {
        Seq::empty()
    } else {
        let p = axis_samples(w.drop_last(), app);
        if w.last().record.app@ == app {
            match w.last().record.event {
                Event::AxisChanged(a, v, _) => p.push((a, v as int / (BIN_WIDTH as int))),
                _ => p,
            }
        } else {
            p
        }
    }
}

/// The axes of a list of samples.
pub open spec fn sampled_axes(s: Seq<(Axis, int)>) -> Seq<Axis> {
    s.map_values(|p: (Axis, int)| p.0)
}

/// `h` is the histogram of axis `a` over the samples `s`.
pub open spec fn histogram_matches(h: AxisHistogram, s: Seq<(Axis, int)>, a: Axis) -> bool {
    &&& h.axis == a
    &&& h.width == BIN_WIDTH
    &&& forall|k: i32| #[trigger]
        h.bins@.contains_key(k) == (occurrences(s, (a, k as int)) > 0)
    &&& forall|k: i32| #[trigger]
        h.bins@.contains_key(k) ==> h.bins@[k] == occurrences(s, (a, k as int))
}

/// `st` gives, for application `app` over the rows `w`, each pressed button
/// once in the order first met with its number of presses, and each moved
/// axis once in the order first met with its histogram.
pub open spec fn stats_match(st: AppStats, w: Seq<Row>, app: Seq<char>) -> bool {
    let pb = pressed_buttons(w, app);
    let bs = first_seen(pb);
    let sm = axis_samples(w, app);
    let ax = first_seen(sampled_axes(sm));
    &&& st.name@ == app
    &&& st.combos.len() == 0
    &&& st.presses.len() == bs.len()
    &&& forall|i: int|
        #![trigger st.presses@[i]]
        0 <= i < st.presses.len() ==> {
            &&& st.presses@[i].button == bs[i]
            &&& st.presses@[i].presses == occurrences(pb, bs[i])
        }
    &&& st.axes.len() == ax.len()
    &&& forall|i: int|
        #![trigger st.axes@[i]]
        0 <= i < st.axes.len() ==> histogram_matches(st.axes@[i], sm, ax[i])
}

proof fn lemma_no_samples_of(s: Seq<(Axis, int)>, a: Axis, k: int)
    requires
        !sampled_axes(s).contains(a),
    ensures
        occurrences(s, (a, k)) == 0,
{
    if s.contains((a, k)) {
        let i = choose|i: int| 0 <= i < s.len() && s[i] == (a, k);
        assert(sampled_axes(s)[i] == a);
    }
    lemma_occurrences_absent(s, (a, k));
}

/// Counts button presses and axis positions of application `app` among the
/// rows a scan from `start` takes.
pub fn tally_app_stats(rows: &Vec<Row>, start: u128, app: String) -> (r: Result<
    AppStats,
    QueryError,
>)
    ensures
        match scan_error(row_keys(rows@), start) {
            Some(e) => r is Err && r->Err_0 == e,
            None => r is Ok && stats_match(r->Ok_0, window(rows@, start), app@),
        },
{
    broadcast use vstd::std_specs::hash::group_hash_axioms;

    let ghost ks = row_keys(rows@);
    let ghost name = app@;
    let mut presses: Vec<ButtonCount> = Vec::new();
    let mut axes: Vec<AxisHistogram> = Vec::new();
    let mut j: usize = 0;
    let mut stopped = false;
    while j < rows.len() && !stopped
        invariant
            j <= rows.len(),
            ks == row_keys(rows@),
            name == app@,
            forall|m: int| 0 <= m < j ==> #[trigger] taken(ks[m], start),
            stopped ==> j < rows.len() && parse_key(ks[j as int], KEY_VERSION) is Ok && !taken(ks[j as int], start),
            ({
                let w = rows@.take(j as int);
                let pb = pressed_buttons(w, name);
                let bs = first_seen(pb);
                let sm = axis_samples(w, name);
                let ax = first_seen(sampled_axes(sm));
                &&& presses.len() == bs.len()
                &&& forall|i: int|
                    #![trigger presses@[i]]
                    0 <= i < presses.len() ==> {
                        &&& presses@[i].button == bs[i]
                        &&& presses@[i].presses == occurrences(pb, bs[i])
                        &&& presses@[i].presses <= j
                    }
                &&& axes.len() == ax.len()
                &&& forall|i: int|
                    #![trigger axes@[i]]
                    0 <= i < axes.len() ==> {
                        &&& histogram_matches(axes@[i], sm, ax[i])
                        &&& forall|k: i32| #[trigger]
                            axes@[i].bins@.contains_key(k) ==> axes@[i].bins@[k] <= j
                    }
            }),
        decreases rows.len() - j + if stopped {
            0int
        } else {
            1int
        },
    {
        assert(ks[j as int] == rows@[j as int].key@);
        match scan_step(rows[j].key.as_slice(), start) {
            ScanStep::Fail(e) => {
                proof {
                    lemma_scan_len_rows(ks, start, j as int);
                }
                return Err(e);
            },
            ScanStep::Stop => {
                stopped = true;
            },
            ScanStep::Take(_) => {
                let ghost w = rows@.take(j as int);
                let ghost w2 = rows@.take(j + 1);
                proof {
                    assert(w2.drop_last() =~= w);
                    assert(w2.last() == rows@[j as int]);
                }
                if rows[j].record.app == app {
                    match rows[j].record.event {
                        Event::ButtonPressed(b, _) => {
                            count_press(&mut presses, b, Ghost(pressed_buttons(w, name)), Ghost(j as int));
                        },
                        Event::AxisChanged(a, v, _) => {
                            let bin = bin_of(v);
                            count_sample(&mut axes, a, bin, Ghost(axis_samples(w, name)), Ghost(j as int));
                        },
                        _ => {},
                    }
                }
                j = j + 1;
            },
        }
    }
    proof {
        lemma_scan_len_rows(ks, start, j as int);
    }
    Ok(AppStats { name: app, presses, axes, combos: Vec::new() })
}

/// Adds a press of `b` to counts that match the presses `pb`.
fn count_press(presses: &mut Vec<ButtonCount>, b: Button, Ghost(pb): Ghost<Seq<Button>>, Ghost(bound): Ghost<int>)
    requires
        0 <= bound < u64::MAX,
        old(presses).len() == first_seen(pb).len(),
        forall|i: int|
            #![trigger old(presses)@[i]]
            0 <= i < old(presses).len() ==> {
                &&& old(presses)@[i].button == first_seen(pb)[i]
                &&& old(presses)@[i].presses == occurrences(pb, first_seen(pb)[i])
                &&& old(presses)@[i].presses <= bound
            },
    ensures
        final(presses).len() == first_seen(pb.push(b)).len(),
        forall|i: int|
            #![trigger final(presses)@[i]]
            0 <= i < final(presses).len() ==> {
                &&& final(presses)@[i].button == first_seen(pb.push(b))[i]
                &&& final(presses)@[i].presses == occurrences(pb.push(b), first_seen(pb.push(b))[i])
                &&& final(presses)@[i].presses <= bound + 1
            },
{
    let ghost bs = first_seen(pb);
    proof {
        assert(pb.push(b).drop_last() =~= pb);
        lemma_first_seen_distinct(pb);
        lemma_first_seen_contains(pb, b);
    }
    let n = presses.len();
    let mut m: usize = 0;
    let mut found = false;
    while m < n && !found
        invariant
            m <= n,
            n == presses.len(),
            found ==> m < n && presses@[m as int].button == b,
            !found ==> forall|k: int| 0 <= k < m ==> (#[trigger] presses@[k]).button != b,
        decreases n - m + if found {
            0int
        } else {
            1int
        },
    {
        if presses[m].button == b {
            found = true;
        } else {
            m = m + 1;
        }
    }
    if found {
        assert(bs[m as int] == b);
        assert(bs.contains(b));
        presses[m].presses = presses[m].presses + 1;
        proof {
            assert(first_seen(pb.push(b)) == bs);
            assert forall|i: int| #![trigger presses@[i]] 0 <= i < presses.len() implies {
                &&& presses@[i].button == bs[i]
                &&& presses@[i].presses == occurrences(pb.push(b), bs[i])
                &&& presses@[i].presses <= bound + 1
            } by {
                assert(old(presses)@[i].button == bs[i]);
                lemma_occurrences_push(pb, b, bs[i]);
                if i != m {
                    assert(bs[i] != bs[m as int]);
                }
            }
        }
    } else {
        proof {
            assert(!bs.contains(b)) by {
                if bs.contains(b) {
                    let k = choose|k: int| 0 <= k < bs.len() && bs[k] == b;
                    assert(old(presses)@[k].button == bs[k]);
                }
            }
            lemma_occurrences_absent(pb, b);
        }
        presses.push(ButtonCount { button: b, presses: 1 });
        proof {
            assert(first_seen(pb.push(b)) == bs.push(b));
            assert forall|i: int| #![trigger presses@[i]] 0 <= i < presses.len() implies {
                &&& presses@[i].button == bs.push(b)[i]
                &&& presses@[i].presses == occurrences(pb.push(b), bs.push(b)[i])
                &&& presses@[i].presses <= bound + 1
            } by {
                if i < n {
                    assert(presses@[i] == old(presses)@[i]);
                    assert(old(presses)@[i].button == bs[i]);
                    assert(bs.push(b)[i] == bs[i]);
                    lemma_occurrences_push(pb, b, bs[i]);
                } else {
                    assert(bs.push(b)[i] == b);
                    lemma_occurrences_push(pb, b, b);
                }
            }
        }
    }
}

/// Adds a sample of axis `a` in bin `bin` to histograms that match the samples `sm`.
fn count_sample(
    axes: &mut Vec<AxisHistogram>,
    a: Axis,
    bin: i32,
    Ghost(sm): Ghost<Seq<(Axis, int)>>,
    Ghost(bound): Ghost<int>,
)
    requires
        0 <= bound < u64::MAX,
        old(axes).len() == first_seen(sampled_axes(sm)).len(),
        forall|i: int|
            #![trigger old(axes)@[i]]
            0 <= i < old(axes).len() ==> {
                &&& histogram_matches(old(axes)@[i], sm, first_seen(sampled_axes(sm))[i])
                &&& forall|k: i32| #[trigger]
                    old(axes)@[i].bins@.contains_key(k) ==> old(axes)@[i].bins@[k] <= bound
            },
    ensures
        ({
            let sm2 = sm.push((a, bin as int));
            let ax2 = first_seen(sampled_axes(sm2));
            &&& final(axes).len() == ax2.len()
            &&& forall|i: int|
                #![trigger final(axes)@[i]]
                0 <= i < final(axes).len() ==> {
                    &&& histogram_matches(final(axes)@[i], sm2, ax2[i])
                    &&& forall|k: i32| #[trigger]
                        final(axes)@[i].bins@.contains_key(k) ==> final(axes)@[i].bins@[k] <= bound + 1
                }
        }),
{
    broadcast use vstd::std_specs::hash::group_hash_axioms;

    let ghost ax = first_seen(sampled_axes(sm));
    let ghost sm2 = sm.push((a, bin as int));
    proof {
        assert(sampled_axes(sm2) =~= sampled_axes(sm).push(a));
        assert(sampled_axes(sm2).drop_last() =~= sampled_axes(sm));
        lemma_first_seen_distinct(sampled_axes(sm));
        lemma_first_seen_contains(sampled_axes(sm), a);
        assert(sm2.drop_last() =~= sm);
    }
    let n = axes.len();
    let mut m: usize = 0;
    let mut found = false;
    while m < n && !found
        invariant
            m <= n,
            n == axes.len(),
            found ==> m < n && axes@[m as int].axis == a,
            !found ==> forall|k: int| 0 <= k < m ==> (#[trigger] axes@[k]).axis != a,
        decreases n - m + if found {
            0int
        } else {
            1int
        },
    {
        if axes[m].axis == a {
            found = true;
        } else {
            m = m + 1;
        }
    }
    if found {
        assert(ax[m as int] == a);
        assert(ax.contains(a));
        let c: u64 = match axes[m].bins.get(&bin) {
            Some(c) => *c,
            None => 0,
        };
        proof {
            if !old(axes)@[m as int].bins@.contains_key(bin) {
                assert(occurrences(sm, (a, bin as int)) == 0);
            }
        }
        axes[m].bins.insert(bin, c + 1);
        proof {
            assert(first_seen(sampled_axes(sm2)) == ax);
            assert forall|i: int| #![trigger axes@[i]] 0 <= i < axes.len() implies {
                &&& histogram_matches(axes@[i], sm2, ax[i])
                &&& forall|k: i32| #[trigger]
                    axes@[i].bins@.contains_key(k) ==> axes@[i].bins@[k] <= bound + 1
            } by {
                assert(histogram_matches(old(axes)@[i], sm, ax[i]));
                if i != m {
                    assert(ax[i] != ax[m as int]);
                    assert(axes@[i] == old(axes)@[i]);
                    assert forall|k: i32| #[trigger] axes@[i].bins@.contains_key(k) implies axes@[i].bins@[k] == occurrences(sm2, (ax[i], k as int)) by {
                        lemma_occurrences_push(sm, (a, bin as int), (ax[i], k as int));
                    }
                    assert forall|k: i32| #[trigger] axes@[i].bins@.contains_key(k) == (occurrences(sm2, (ax[i], k as int)) > 0) by {
                        lemma_occurrences_push(sm, (a, bin as int), (ax[i], k as int));
                    }
                } else {
                    assert(axes@[i].bins@ == old(axes)@[i].bins@.insert(bin, (c + 1) as u64));
                    assert(axes@[i].axis == a);
                    assert forall|k: i32| #[trigger] axes@[i].bins@.contains_key(k) implies axes@[i].bins@[k] == occurrences(sm2, (a, k as int)) by {
                        lemma_occurrences_push(sm, (a, bin as int), (a, k as int));
                    }
                    assert forall|k: i32| #[trigger] axes@[i].bins@.contains_key(k) == (occurrences(sm2, (a, k as int)) > 0) by {
                        lemma_occurrences_push(sm, (a, bin as int), (a, k as int));
                    }
                }
            }
        }
    } else {
        proof {
            assert(!ax.contains(a)) by {
                if ax.contains(a) {
                    let k = choose|k: int| 0 <= k < ax.len() && ax[k] == a;
                    assert(old(axes)@[k].axis == ax[k]);
                }
            }
            assert forall|k: int| occurrences(sm, (a, k)) == 0 by {
                lemma_no_samples_of(sm, a, k);
            }
        }
        let mut bins: HashMap<i32, u64> = HashMap::new();
        bins.insert(bin, 1);
        axes.push(AxisHistogram { axis: a, bins, width: BIN_WIDTH });
        proof {
            assert(first_seen(sampled_axes(sm2)) == ax.push(a));
            assert forall|i: int| #![trigger axes@[i]] 0 <= i < axes.len() implies {
                &&& histogram_matches(axes@[i], sm2, ax.push(a)[i])
                &&& forall|k: i32| #[trigger]
                    axes@[i].bins@.contains_key(k) ==> axes@[i].bins@[k] <= bound + 1
            } by {
                if i < n {
                    assert(histogram_matches(old(axes)@[i], sm, ax[i]));
                    assert(ax[i] != a);
                    assert(axes@[i] == old(axes)@[i]);
                    assert(ax.push(a)[i] == ax[i]);
                    assert forall|k: i32| #[trigger] axes@[i].bins@.contains_key(k) implies axes@[i].bins@[k] == occurrences(sm2, (ax[i], k as int)) by {
                        lemma_occurrences_push(sm, (a, bin as int), (ax[i], k as int));
                    }
                    assert forall|k: i32| #[trigger] axes@[i].bins@.contains_key(k) == (occurrences(sm2, (ax[i], k as int)) > 0) by {
                        lemma_occurrences_push(sm, (a, bin as int), (ax[i], k as int));
                    }
                } else {
                    assert(ax.push(a)[i] == a);
                    assert(axes@[i].bins@ == Map::<i32, u64>::empty().insert(bin, 1));
                    assert forall|k: i32| #[trigger] axes@[i].bins@.contains_key(k) implies axes@[i].bins@[k] == occurrences(sm2, (a, k as int)) by {
                        lemma_occurrences_push(sm, (a, bin as int), (a, k as int));
                    }
                    assert forall|k: i32| #[trigger] axes@[i].bins@.contains_key(k) == (occurrences(sm2, (a, k as int)) > 0) by {
                        lemma_occurrences_push(sm, (a, bin as int), (a, k as int));
                    }
                }
            }
        }
    }
}

/// How the controls were used in application `app` over the named timeframe
/// up to `now` (`day`, `week`, `month` or `year`; any other name means `day`).
pub fn app_stats(rows: &Vec<Row>, now: u128, app: String, timeframe: &str) -> (r: Result<
    AppStats,
    QueryError,
>)
    ensures
        ({
            let start = window_start(now, span_of(timeframe_named(timeframe@)));
            match scan_error(row_keys(rows@), start) {
                Some(e) => r is Err && r->Err_0 == e,
                None => r is Ok && stats_match(r->Ok_0, window(rows@, start), app@),
            }
        }),
{
    tally_app_stats(rows, timeframe_start(now, timeframe), app)
}

} // verus!
