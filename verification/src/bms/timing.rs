//! Timing order: the chart's notes, tempo changes and stops as events in
//! the order they occur, ready for the clock to walk through them.

use vstd::prelude::*;

use super::model::{BmsData, BmsNote};
use crate::channels::{CHANNEL_BPM_CHANGE, CHANNEL_BPM_CHANGE_EXT, CHANNEL_STOP};
use crate::sorting::{lemma_rearrangement_onto, lemma_stable_insert, sorted_by, stable_rearrangement, stable_sorted};

verus! {

/// What happens at an event.
#[derive(Debug, Clone)]
pub enum EventKind {
    /// The note with this index in the chart's notes.
    Note(usize),
    /// Tempo change to this many beats per minute (channel 03).
    BpmValue(u32),
    /// Tempo change to the decimal in this text (channel 08, `#BPMxx`).
    BpmText(String),
    /// Stop for the decimal in this text, in 1/192 of a whole note
    /// (channel 09, `#STOPxx`).
    Stop(String),
}

/// An event at slot `slot` of `slots` in measure `measure`.
#[derive(Debug, Clone)]
pub struct TimingEvent {
    pub measure: u32,
    pub slot: usize,
    pub slots: usize,
    pub kind: EventKind,
}

/// `a` comes no later than `b`: an earlier measure, or the same measure and
/// a fraction `slot / slots` no larger.
pub open spec fn event_le(a: TimingEvent, b: TimingEvent) -> bool {
    a.measure < b.measure || (a.measure == b.measure && a.slot * b.slots <= b.slot * a.slots)
}

/// `event_le` as a relation.
pub open spec fn event_order() -> spec_fn(TimingEvent, TimingEvent) -> bool {
    |a: TimingEvent, b: TimingEvent| event_le(a, b)
}

/// The event of note `i`.
pub open spec fn note_event(n: BmsNote, i: int) -> TimingEvent {
    TimingEvent { measure: n.measure, slot: n.slot, slots: n.slots, kind: EventKind::Note(i as usize) }
}

/// The notes' own events, in chart order.
pub open spec fn note_events(notes: Seq<BmsNote>) -> Seq<TimingEvent> {
    Seq::new(notes.len(), |i: int| note_event(notes[i], i))
}

/// The tempo event that a note places, if any: on channel 03 an id of at
/// least 1 is the new tempo; on channel 08 an id with a `#BPMxx` value, and
/// on channel 09 one with a `#STOPxx` value, names that value.
pub open spec fn tempo_event(n: BmsNote, bpm: Map<u32, String>, stop: Map<u32, String>) -> Option<
    TimingEvent,
> {
    if n.channel == 0x03 {
        if n.obj.0 >= 1 {
            Some(TimingEvent { measure: n.measure, slot: n.slot, slots: n.slots, kind: EventKind::BpmValue(n.obj.0) })
        } else {
            None
        }
    } else if n.channel == 0x08 {
        if bpm.contains_key(n.obj.0) {
            Some(TimingEvent { measure: n.measure, slot: n.slot, slots: n.slots, kind: EventKind::BpmText(bpm[n.obj.0]) })
        } else {
            None
        }
    } else if n.channel == 0x09 {
        if stop.contains_key(n.obj.0) {
            Some(TimingEvent { measure: n.measure, slot: n.slot, slots: n.slots, kind: EventKind::Stop(stop[n.obj.0]) })
        } else {
            None
        }
    } else {
        None
    }
}

/// The tempo events of the first `k` notes, in chart order.
pub open spec fn tempo_events(notes: Seq<BmsNote>, k: int, bpm: Map<u32, String>, stop: Map<u32, String>) -> Seq<
    TimingEvent,
>
    decreases k,
{
    if k <= 0 {
        Seq::empty()
    } else {
        let prev = tempo_events(notes, k - 1, bpm, stop);
        match tempo_event(notes[k - 1], bpm, stop) {
            Some(e) => prev.push(e),
            None => prev,
        }
    }
}

/// All events of a chart before ordering: every note's event in chart
/// order, then every tempo event in chart order.
pub open spec fn chart_events(data: BmsData) -> Seq<TimingEvent> {
    note_events(data.notes@) + tempo_events(
        data.notes@,
        data.notes@.len() as int,
        data.bpm_changes@,
        data.stop_changes@,
    )
}

/// Every note's measure is divided into at least one slot.
pub open spec fn notes_have_slots(notes: Seq<BmsNote>) -> bool {
    forall|i: int| 0 <= i < notes.len() ==> (#[trigger] notes[i]).slots > 0
}

/// Events placed by notes whose measures have slots.
pub open spec fn events_have_slots(s: Seq<TimingEvent>) -> bool {
    forall|i: int| 0 <= i < s.len() ==> (#[trigger] s[i]).slots > 0
}

/// `event_le` is transitive on events with slots.
pub proof fn lemma_event_le_transitive(a: TimingEvent, b: TimingEvent, c: TimingEvent)
    requires
        a.slots > 0,
        b.slots > 0,
        c.slots > 0,
        event_le(a, b),
        event_le(b, c),
    ensures
        event_le(a, c),
{
    if a.measure == b.measure && b.measure == c.measure {
        let (x, y, z) = (a.slot as int, b.slot as int, c.slot as int);
        let (p, q, r) = (a.slots as int, b.slots as int, c.slots as int);
        assert(x * r <= z * p) by (nonlinear_arith)
            requires
                x * q <= y * p,
                y * r <= z * q,
                p > 0,
                q > 0,
                r > 0,
                x >= 0,
                y >= 0,
                z >= 0,
        ;
    }
}

/// `event_le(a, b)` for an exec caller.
pub fn event_le_exec(a: &TimingEvent, b: &TimingEvent) -> (r: bool)
    ensures
        r == event_le(*a, *b),
{
    if a.measure != b.measure {
        a.measure < b.measure
    } else {
        let x = a.slot as u128;
        let y = b.slots as u128;
        let z = b.slot as u128;
        let w = a.slots as u128;
        assert(x * y <= 0xffff_ffff_ffff_ffff * 0xffff_ffff_ffff_ffff) by (nonlinear_arith)
            requires x <= 0xffff_ffff_ffff_ffff, y <= 0xffff_ffff_ffff_ffff;
        assert(z * w <= 0xffff_ffff_ffff_ffff * 0xffff_ffff_ffff_ffff) by (nonlinear_arith)
            requires z <= 0xffff_ffff_ffff_ffff, w <= 0xffff_ffff_ffff_ffff;
        x * y <= z * w
    }
}

/// Inserts `e` into the ordered `out` after every event no later than it.
fn insert_event(out: &mut Vec<TimingEvent>, e: TimingEvent) -> (k: usize)
    requires
        sorted_by(old(out)@, event_order()),
        events_have_slots(old(out)@),
        e.slots > 0,
    ensures
        k <= old(out)@.len(),
        final(out)@ == old(out)@.insert(k as int, e),
        forall|j: int| 0 <= j < k ==> #[trigger] event_le(old(out)@[j], e),
        forall|j: int| k <= j < old(out)@.len() ==> !#[trigger] event_le(old(out)@[j], e),
        forall|j: int| k <= j < old(out)@.len() ==> #[trigger] event_le(e, old(out)@[j]),
{
    let mut j = out.len();
    while j > 0 && !event_le_exec(&out[j - 1], &e)
        invariant
            out@ == old(out)@,
            j <= out@.len(),
            forall|t: int| j <= t < out@.len() ==> !#[trigger] event_le(out@[t], e),
        decreases j,
    {
        j = j - 1;
    }
    proof {
        let o = out@;
        assert forall|i: int| 0 <= i < j implies #[trigger] event_le(o[i], e) by {
            if i < j - 1 {
                assert(event_order()(o[i], o[j - 1]));
                assert(o[i].slots > 0 && o[j - 1].slots > 0);
                lemma_event_le_transitive(o[i], o[j - 1], e);
            }
        }
        assert forall|t: int| j <= t < o.len() implies #[trigger] event_le(e, o[t]) by {
            assert(!event_le(o[t], e));
        }
    }
    out.insert(j, e);
    j
}

/// The chart's events in the order they occur (see `chart_events`),
/// sorted stably by `event_le`: events at the same position keep their
/// order, notes first.
pub fn timing_events(data: &BmsData) -> (r: Vec<TimingEvent>)
    requires
        notes_have_slots(data.notes@),
    ensures
        stable_sorted(r@, chart_events(*data), event_order()),
{
    broadcast use vstd::std_specs::hash::group_hash_axioms;
    let notes = &data.notes;
    let n = notes.len();
    let mut out: Vec<TimingEvent> = Vec::new();
    let ghost mut src: Seq<TimingEvent> = Seq::empty();
    let ghost mut p: Seq<int> = Seq::empty();
    let mut i: usize = 0;
    while i < n
        invariant
            n == notes@.len(),
            notes == data.notes,
            notes_have_slots(notes@),
            i <= n,
            src == note_events(notes@).take(i as int),
            out@.len() == src.len(),
            sorted_by(out@, event_order()),
            events_have_slots(out@),
            stable_rearrangement(p, out@, src, event_order()),
        decreases n - i,
    {
        let note = &notes[i];
        let e = TimingEvent { measure: note.measure, slot: note.slot, slots: note.slots, kind: EventKind::Note(i) };
        assert(e == note_event(notes@[i as int], i as int));
        let ghost before = out@;
        let k = insert_event(&mut out, e);
        proof {
            lemma_stable_insert(p, before, src, event_order(), e, k as int);
            p = p.insert(k as int, src.len() as int);
            src = src.push(e);
            assert(src =~= note_events(notes@).take(i + 1));
            assert forall|t: int| 0 <= t < out@.len() implies (#[trigger] out@[t]).slots > 0 by {
                if t < k {
                    assert(out@[t] == before[t]);
                } else if t > k {
                    assert(out@[t] == before[t - 1]);
                }
            }
        }
        i = i + 1;
    }
    assert(note_events(notes@).take(n as int) =~= note_events(notes@));
    let mut i: usize = 0;
    while i < n
        invariant
            n == notes@.len(),
            notes == data.notes,
            notes_have_slots(notes@),
            i <= n,
            src == note_events(notes@) + tempo_events(notes@, i as int, data.bpm_changes@, data.stop_changes@),
            out@.len() == src.len(),
            sorted_by(out@, event_order()),
            events_have_slots(out@),
            stable_rearrangement(p, out@, src, event_order()),
        decreases n - i,
    {
        let note = &notes[i];
        let ev: Option<TimingEvent> = if note.channel == CHANNEL_BPM_CHANGE {
            if note.obj.0 >= 1 {
                Some(TimingEvent { measure: note.measure, slot: note.slot, slots: note.slots, kind: EventKind::BpmValue(note.obj.0) })
            } else {
                None
            }
        } else if note.channel == CHANNEL_BPM_CHANGE_EXT {
            match data.bpm_changes.get(&note.obj.0) {
                Some(b) => Some(TimingEvent { measure: note.measure, slot: note.slot, slots: note.slots, kind: EventKind::BpmText(b.clone()) }),
                None => None,
            }
        } else if note.channel == CHANNEL_STOP {
            match data.stop_changes.get(&note.obj.0) {
                Some(s) => Some(TimingEvent { measure: note.measure, slot: note.slot, slots: note.slots, kind: EventKind::Stop(s.clone()) }),
                None => None,
            }
        } else {
            None
        };
        assert(ev == tempo_event(notes@[i as int], data.bpm_changes@, data.stop_changes@));
        if let Some(e) = ev {
            let ghost before = out@;
            let k = insert_event(&mut out, e);
            proof {
                lemma_stable_insert(p, before, src, event_order(), e, k as int);
                p = p.insert(k as int, src.len() as int);
                src = src.push(e);
                assert forall|t: int| 0 <= t < out@.len() implies (#[trigger] out@[t]).slots > 0 by {
                    if t < k {
                        assert(out@[t] == before[t]);
                    } else if t > k {
                        assert(out@[t] == before[t - 1]);
                    }
                }
            }
        }
        proof {
            assert(src =~= note_events(notes@) + tempo_events(notes@, i + 1, data.bpm_changes@, data.stop_changes@));
        }
        i = i + 1;
    }
    out
}


proof fn lemma_tempo_events_not_notes(
    notes: Seq<BmsNote>,
    k: int,
    bpm: Map<u32, String>,
    stop: Map<u32, String>,
)
    requires
        0 <= k <= notes.len(),
    ensures
        forall|j: int|
            0 <= j < tempo_events(notes, k, bpm, stop).len() ==> !(#[trigger] tempo_events(
                notes,
                k,
                bpm,
                stop,
            )[j].kind is Note),
    decreases k,
{
    if k > 0 {
        lemma_tempo_events_not_notes(notes, k - 1, bpm, stop);
        let prev = tempo_events(notes, k - 1, bpm, stop);
        let all = tempo_events(notes, k, bpm, stop);
        assert forall|j: int| 0 <= j < all.len() implies !(#[trigger] all[j].kind is Note) by {
            if j < prev.len() {
                assert(all[j] == prev[j]);
            }
        }
    }
}

/// Some event of `r` is that of note `i`.
pub open spec fn has_note_event(r: Seq<TimingEvent>, i: int) -> bool {
    exists|j: int| 0 <= j < r.len() && #[trigger] r[j].kind == EventKind::Note(i as usize)
}

/// Every note of the chart has exactly one event in the timing order, so
/// each note is given exactly one time.
pub proof fn lemma_each_note_once(data: BmsData, r: Seq<TimingEvent>)
    requires
        data.notes@.len() <= usize::MAX,
        stable_sorted(r, chart_events(data), event_order()),
    ensures
        forall|i: int| 0 <= i < data.notes@.len() ==> #[trigger] has_note_event(r, i),
        forall|j1: int, j2: int|
            0 <= j1 < r.len() && 0 <= j2 < r.len() && #[trigger] r[j1].kind is Note && r[j1].kind
                == #[trigger] r[j2].kind ==> j1 == j2,
{
    let s = chart_events(data);
    let notes = data.notes@;
    let n = notes.len() as int;
    let p = choose|p: Seq<int>| stable_rearrangement(p, r, s, event_order());
    lemma_rearrangement_onto(p, r, s, event_order());
    let te = tempo_events(notes, n, data.bpm_changes@, data.stop_changes@);
    lemma_tempo_events_not_notes(notes, n, data.bpm_changes@, data.stop_changes@);
    assert forall|k: int| 0 <= k < s.len() && #[trigger] s[k].kind is Note implies k < n && s[k].kind
        == EventKind::Note(k as usize) by {
        if k >= n {
            assert(s[k] == te[k - n]);
        }
    }
    assert forall|i: int| 0 <= i < n implies #[trigger] has_note_event(r, i) by {
        assert(s[i].kind == EventKind::Note(i as usize));
        assert(vstd::set_lib::set_int_range(0, s.len() as int).contains(i));
        assert(p.to_set().contains(i));
        let j = choose|j: int| 0 <= j < p.len() && p[j] == i;
        assert(r[j] == s[p[j]]);
        assert(r[j].kind == EventKind::Note(i as usize));
    }
    assert forall|j1: int, j2: int|
        0 <= j1 < r.len() && 0 <= j2 < r.len() && #[trigger] r[j1].kind is Note && r[j1].kind
            == #[trigger] r[j2].kind implies j1 == j2 by {
        assert(r[j1] == s[p[j1]] && r[j2] == s[p[j2]]);
        let (a, b) = (p[j1], p[j2]);
        assert(s[a].kind is Note && s[b].kind is Note);
        assert(s[a].kind == EventKind::Note(a as usize));
        assert(s[b].kind == EventKind::Note(b as usize));
        assert(a < n && b < n);
        assert(a == b);
        if j1 < j2 {
            assert(p[j1] != p[j2]);
        } else if j2 < j1 {
            assert(p[j2] != p[j1]);
        }
    }
}

} // verus!
