//! The capture filter: a deadband on analog samples, and the step that turns
//! a device event into a keyed record.

use vstd::prelude::*;
use crate::event::{
    Axis, Button, Event, Record, AXIS_COUNT, BUTTON_COUNT, axis_slot, button_slot,
    lemma_axis_slot, lemma_button_slot,
};
use crate::key::{KEY_VERSION, KeyWriter, StorageKey, key_bytes, next_nonce};

verus! {

/// Whether a sample at level `v` passes the deadband of width `p` around the
/// baseline `last` (the level last persisted for its control, if any).
pub open spec fn admits(last: Option<i32>, v: i32, p: u32) -> bool {
    match last {
        None => true,
        Some(l) => (if v >= l { v - l } else { l - v }) >= p,
    }
}

/// The last level persisted for each analog control. Samples that do not pass
/// the deadband leave the baseline where it was.
pub struct FilterState {
    buttons: Vec<Option<i32>>,
    axes: Vec<Option<i32>>,
}

impl FilterState {
    pub closed spec fn wf(&self) -> bool {
        &&& self.buttons.len() == BUTTON_COUNT
        &&& self.axes.len() == AXIS_COUNT
    }

    /// The level last persisted for button `b`.
    pub closed spec fn button_baseline(&self, b: Button) -> Option<i32> {
        self.buttons@[button_slot(b)]
    }

    /// The level last persisted for axis `a`.
    pub closed spec fn axis_baseline(&self, a: Axis) -> Option<i32> {
        self.axes@[axis_slot(a)]
    }

    /// Whether event `e` is to be persisted under precision `p`.
    pub open spec fn admits_event(&self, e: Event, p: u32) -> bool {
        match e {
            Event::ButtonChanged(b, v, _) => admits(self.button_baseline(b), v, p),
            Event::AxisChanged(a, v, _) => admits(self.axis_baseline(a), v, p),
            _ => true,
        }
    }

    /// A filter that has seen nothing.
    pub fn new() -> (r: FilterState)
        ensures
            r.wf(),
            forall|b: Button| r.button_baseline(b) is None,
            forall|a: Axis| r.axis_baseline(a) is None,
    {
        let mut buttons: Vec<Option<i32>> = Vec::new();
        let mut i: usize = 0;
        while i < BUTTON_COUNT
            invariant
                i <= BUTTON_COUNT,
                buttons.len() == i,
                forall|j: int| 0 <= j < i ==> buttons@[j] is None,
            decreases BUTTON_COUNT - i,
        {
            buttons.push(None);
            i = i + 1;
        }
        let mut axes: Vec<Option<i32>> = Vec::new();
        let mut i: usize = 0;
        while i < AXIS_COUNT
            invariant
                i <= AXIS_COUNT,
                axes.len() == i,
                forall|j: int| 0 <= j < i ==> axes@[j] is None,
            decreases AXIS_COUNT - i,
        {
            axes.push(None);
            i = i + 1;
        }
        let r = FilterState { buttons, axes };
        assert forall|b: Button| r.button_baseline(b) is None by {
            lemma_button_slot(b);
        }
        assert forall|a: Axis| r.axis_baseline(a) is None by {
            lemma_axis_slot(a);
        }
        r
    }

    /// Decides whether `e` is persisted under precision `p`. An analog sample
    /// that is persisted becomes its control's baseline; nothing else changes.
    pub fn screen(&mut self, e: Event, p: u32) -> (r: bool)
        requires
            old(self).wf(),
        ensures
            final(self).wf(),
            r == old(self).admits_event(e, p),
            forall|b: Button| #[trigger]
                final(self).button_baseline(b) == (match e {
                    Event::ButtonChanged(eb, v, _) => if r && eb == b {
                        Some(v)
                    } else {
                        old(self).button_baseline(b)
                    },
                    _ => old(self).button_baseline(b),
                }),
            forall|a: Axis| #[trigger]
                final(self).axis_baseline(a) == (match e {
                    Event::AxisChanged(ea, v, _) => if r && ea == a {
                        Some(v)
                    } else {
                        old(self).axis_baseline(a)
                    },
                    _ => old(self).axis_baseline(a),
                }),
    {
        match e {
            Event::ButtonChanged(b, v, _) => {
                let k = b.slot();
                let pass = passes(self.buttons[k], v, p);
                if pass {
                    self.buttons.set(k, Some(v));
                }
                proof {
                    assert forall|c: Button| #[trigger]
                        self.button_baseline(c) == (if pass && b == c {
                            Some(v)
                        } else {
                            old(self).button_baseline(c)
                        }) by {
                        lemma_button_slot(b);
                        lemma_button_slot(c);
                    }
                }
                pass
            },
            Event::AxisChanged(a, v, _) => {
                let k = a.slot();
                let pass = passes(self.axes[k], v, p);
                if pass {
                    self.axes.set(k, Some(v));
                }
                proof {
                    assert forall|c: Axis| #[trigger]
                        self.axis_baseline(c) == (if pass && a == c {
                            Some(v)
                        } else {
                            old(self).axis_baseline(c)
                        }) by {
                        lemma_axis_slot(a);
                        lemma_axis_slot(c);
                    }
                }
                pass
            },
            _ => true,
        }
    }
}

/// Computes `admits(last, v, p)`.
fn passes(last: Option<i32>, v: i32, p: u32) -> (r: bool)
    ensures
        r == admits(last, v, p),
{
    match last {
        None => true,
        Some(l) => {
            let d: i64 = if v >= l { v as i64 - l as i64 } else { l as i64 - v as i64 };
            d >= p as i64
        },
    }
}

/// The baseline after a run of samples `vs` of one control, starting from `start`.
pub open spec fn baseline_after(start: Option<i32>, vs: Seq<i32>, p: u32) -> Option<i32>
    decreases vs.len(),
{
    if vs.len() == 0 {
        start
    } else {
        let l = baseline_after(start, vs.drop_last(), p);
        if admits(l, vs.last(), p) {
            Some(vs.last())
        } else {
            l
        }
    }
}

/// Whether sample `i` of the run `vs` is persisted.
pub open spec fn persisted(start: Option<i32>, vs: Seq<i32>, p: u32, i: int) -> bool {
    admits(baseline_after(start, vs.take(i), p), vs[i], p)
}

proof fn lemma_baseline_holds(start: Option<i32>, vs: Seq<i32>, p: u32, i: int, k: int)
    requires
        0 <= i < k <= vs.len(),
        persisted(start, vs, p, i),
        forall|m: int| i < m < k ==> !persisted(start, vs, p, m),
    ensures
        baseline_after(start, vs.take(k), p) == Some(vs[i]),
    decreases k - i,
{
    assert(vs.take(k).drop_last() =~= vs.take(k - 1));
    if k - 1 > i {
        lemma_baseline_holds(start, vs, p, i, k - 1);
        assert(!persisted(start, vs, p, k - 1));
    }
}

/// Deadband: when samples `i < j` of one control are persisted and none
/// between them is, they differ by at least the precision. The first
/// persisted sample differs by at least the precision from the baseline the
/// run started with, if there was one.
pub proof fn lemma_deadband(start: Option<i32>, vs: Seq<i32>, p: u32, i: int, j: int)
    requires
        0 <= i < j < vs.len(),
        persisted(start, vs, p, i),
        persisted(start, vs, p, j),
        forall|m: int| i < m < j ==> !persisted(start, vs, p, m),
    ensures
        (if vs[j] >= vs[i] { vs[j] - vs[i] } else { vs[i] - vs[j] }) >= p,
{
    lemma_baseline_holds(start, vs, p, i, j);
}

/// The first persisted sample of a run clears the deadband around the
/// baseline the run started with.
pub proof fn lemma_deadband_first(l: i32, vs: Seq<i32>, p: u32, j: int)
    requires
        0 <= j < vs.len(),
        persisted(Some(l), vs, p, j),
        forall|m: int| 0 <= m < j ==> !persisted(Some(l), vs, p, m),
    ensures
        (if vs[j] >= l { vs[j] - l } else { l - vs[j] }) >= p,
    decreases j,
{
    lemma_baseline_unmoved(l, vs, p, j);
}

proof fn lemma_baseline_unmoved(l: i32, vs: Seq<i32>, p: u32, k: int)
    requires
        0 <= k <= vs.len(),
        forall|m: int| 0 <= m < k ==> !persisted(Some(l), vs, p, m),
    ensures
        baseline_after(Some(l), vs.take(k), p) == Some(l),
    decreases k,
{
    if k > 0 {
        assert(vs.take(k).drop_last() =~= vs.take(k - 1));
        lemma_baseline_unmoved(l, vs, p, k - 1);
        assert(!persisted(Some(l), vs, p, k - 1));
    } else {
        assert(vs.take(0) =~= Seq::<i32>::empty());
    }
}

/// The capture step's memory: the deadband, the name of the device that
/// connected last, and the key writer.
pub struct Capture {
    pub filter: FilterState,
    pub device: String,
    pub writer: KeyWriter,
}

impl Capture {
    /// A capture that has seen nothing; the device is named `?` until one connects.
    pub fn new() -> (r: Capture)
        ensures
            r.filter.wf(),
            forall|b: Button| r.filter.button_baseline(b) is None,
            forall|a: Axis| r.filter.axis_baseline(a) is None,
            r.device@ == seq!['?'],
            r.writer.nonce == 0,
    {
        let device = String::from_str("?");
        proof {
            reveal_strlit("?");
        }
        Capture { filter: FilterState::new(), device, writer: KeyWriter::new() }
    }

    /// Handles one event at instant `at` (milliseconds since the Unix
    /// epoch), reported by the device called `device_name` while `app` had
    /// the focus. A `Connected` event makes that device the one records
    /// name. An event that passes the filter under precision `p` yields its
    /// key and record, and takes the writer's next nonce.
    pub fn observe(
        &mut self,
        at: u128,
        device_name: &String,
        app: &String,
        event: Event,
        p: u32,
    ) -> (r: Option<(Vec<u8>, Record)>)
        requires
            old(self).filter.wf(),
        ensures
            final(self).filter.wf(),
            final(self).device@ == (if event is Connected {
                device_name@
            } else {
                old(self).device@
            }),
            old(self).filter.admits_event(event, p) ==> {
                &&& r is Some
                &&& r->Some_0.0@ == key_bytes(
                    StorageKey { version: KEY_VERSION, nonce: old(self).writer.nonce, timestamp: at },
                )
                &&& r->Some_0.1.at == at
                &&& r->Some_0.1.pad@ == final(self).device@
                &&& r->Some_0.1.app@ == app@
                &&& r->Some_0.1.event == event
                &&& final(self).writer.nonce == next_nonce(old(self).writer.nonce)
            },
            !old(self).filter.admits_event(event, p) ==> {
                &&& r is None
                &&& final(self).writer == old(self).writer
            },
            forall|b: Button| #[trigger]
                final(self).filter.button_baseline(b) == (match event {
                    Event::ButtonChanged(eb, v, _) => if old(self).filter.admits_event(event, p)
                        && eb == b {
                        Some(v)
                    } else {
                        old(self).filter.button_baseline(b)
                    },
                    _ => old(self).filter.button_baseline(b),
                }),
            forall|a: Axis| #[trigger]
                final(self).filter.axis_baseline(a) == (match event {
                    Event::AxisChanged(ea, v, _) => if old(self).filter.admits_event(event, p)
                        && ea == a {
                        Some(v)
                    } else {
                        old(self).filter.axis_baseline(a)
                    },
                    _ => old(self).filter.axis_baseline(a),
                }),
    {
        if let Event::Connected = event {
            self.device = device_name.clone();
        }
        if !self.filter.screen(event, p) {
            return None;
        }
        let key = self.writer.next_key(at);
        let record = Record { at, pad: self.device.clone(), app: app.clone(), event };
        Some((key, record))
    }
}

/// The application name that records carry while a window titled `title`
/// has the focus: the title itself, or `Windows` for an untitled window.
pub fn focus_name(title: String) -> (r: String)
    ensures
        r@ == (if title@.len() == 0 {
            "Windows"@
        } else {
            title@
        }),
{
    if title.as_str().is_empty() {
        "Windows".to_owned()
    } else {
        title
    }
}

} // verus!
