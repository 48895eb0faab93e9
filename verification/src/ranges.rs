//! Interval reconstruction from the append-only event log.
//!
//! Events, ordered ascending by timestamp, are folded into per-task
//! sequences of intervals: a start event opens an interval, a stop event
//! closes the most recently opened one, and a stop without an open
//! interval yields a degenerate interval with no start rather than an
//! error, tolerating partial history.

use vstd::prelude::*;

verus! {

/// Start or stop marker of a tracking event.
#[derive(Clone, Copy, PartialEq, Eq, Structural)]
pub enum EventKind {
    Start,
    Stop,
}

/// One record of the append-only event log.
pub struct Event {
    pub task_id: String,
    pub timestamp: i64,
    pub kind: EventKind,
}

/// A derived tracking interval.  An absent start or end means the
/// interval is unbounded into history or not yet closed.
#[derive(Clone, Copy)]
pub struct TimeRange {
    pub start: Option<i64>,
    pub end: Option<i64>,
}

/// The mathematical content of one reconstructed task entry: the task
/// key and its interval endpoints.
pub open spec fn entry_view(p: (String, Vec<TimeRange>)) -> (Seq<char>, Seq<(Option<i64>, Option<i64>)>) {
    (p.0@, p.1@.map_values(|t: TimeRange| (t.start, t.end)))
}

/// The mathematical content of a reconstruction result.
pub open spec fn tasks_view(r: Seq<(String, Vec<TimeRange>)>) -> Seq<
    (Seq<char>, Seq<(Option<i64>, Option<i64>)>),
> {
    r.map_values(|p: (String, Vec<TimeRange>)| entry_view(p))
}

/// Index of the entry with the given key, or -1.
pub open spec fn find_task(
    m: Seq<(Seq<char>, Seq<(Option<i64>, Option<i64>)>)>,
    key: Seq<char>,
) -> int
    decreases m.len(),
{
    if m.len() == 0 {
        -1
    } else if m.first().0 == key {
        0
    } else {
        let r = find_task(m.drop_first(), key);
        if r == -1 {
            -1
        } else {
            r + 1
        }
    }
}

pub proof fn lemma_find_task(m: Seq<(Seq<char>, Seq<(Option<i64>, Option<i64>)>)>, key: Seq<char>)
    ensures
        find_task(m, key) == -1 ==> forall|j: int|
            0 <= j < m.len() ==> (#[trigger] m[j]).0 != key,
        find_task(m, key) != -1 ==> 0 <= find_task(m, key) < m.len() && m[find_task(m, key)].0
            == key && forall|j: int| 0 <= j < find_task(m, key) ==> (#[trigger] m[j]).0 != key,
    decreases m.len(),
{
    if m.len() > 0 && m.first().0 != key {
        lemma_find_task(m.drop_first(), key);
        assert forall|j: int| 1 <= j < m.len() implies m.drop_first()[j - 1] == m[j] by {}
    }
}

/// One event folded into the reconstruction.
pub open spec fn apply_event(
    m: Seq<(Seq<char>, Seq<(Option<i64>, Option<i64>)>)>,
    ev: Event,
) -> Seq<(Seq<char>, Seq<(Option<i64>, Option<i64>)>)> {
    let i = find_task(m, ev.task_id@);
    match ev.kind {
        EventKind::Start => {
            if i == -1 {
                m.push((ev.task_id@, seq![(Some(ev.timestamp), None)]))
            } else {
                m.update(i, (m[i].0, m[i].1.push((Some(ev.timestamp), None))))
            }
        },
        EventKind::Stop => {
            if i == -1 {
                m.push((ev.task_id@, seq![(None, Some(ev.timestamp))]))
            } else {
                let rs = m[i].1;
                if rs.len() > 0 && rs.last().1 is None {
                    m.update(
                        i,
                        (m[i].0, rs.update(rs.len() - 1, (rs.last().0, Some(ev.timestamp)))),
                    )
                } else {
                    m.update(i, (m[i].0, rs.push((None, Some(ev.timestamp)))))
                }
            }
        },
    }
}

/// The reconstruction of a whole event sequence.
pub open spec fn reconstruct_model(events: Seq<Event>) -> Seq<
    (Seq<char>, Seq<(Option<i64>, Option<i64>)>),
>
    decreases events.len(),
{
    if events.len() == 0 {
        Seq::empty()
    } else {
        apply_event(reconstruct_model(events.drop_last()), events.last())
    }
}

/// Turns an ascending event log into the per-task interval lists, in
/// order of each task's first appearance.
pub fn reconstruct(events: &Vec<Event>) -> (r: Vec<(String, Vec<TimeRange>)>)
    ensures
        tasks_view(r@) == reconstruct_model(events@),
{
    let mut out: Vec<(String, Vec<TimeRange>)> = Vec::new();
    let mut k: usize = 0;
    proof {
        assert(events@.take(0) =~= Seq::empty());
    }
    while k < events.len()
        invariant
            0 <= k <= events@.len(),
            tasks_view(out@) == reconstruct_model(events@.take(k as int)),
        decreases events@.len() - k,
    {
        let ghost pre_model = tasks_view(out@);
        let ev = &events[k];
        // Linear search for the entry keyed by the event's item.
        let mut i: usize = 0;
        let mut found = false;
        while !found && i < out.len()
            invariant
                0 <= i <= out@.len(),
                forall|j: int| 0 <= j < i ==> (#[trigger] tasks_view(out@)[j]).0 != ev.task_id@,
                found ==> i < out@.len() && tasks_view(out@)[i as int].0 == ev.task_id@,
            decreases 2 * (out@.len() - i) + (if found { 0int } else { 1int }),
        {
            proof {
                assert(tasks_view(out@)[i as int].0 == out@[i as int].0@);
            }
            if out[i].0.eq(&ev.task_id) {
                found = true;
            } else {
                i = i + 1;
            }
        }
        proof {
            lemma_find_task(pre_model, ev.task_id@);
            if found {
                assert(pre_model[i as int].0 == ev.task_id@);
                assert(find_task(pre_model, ev.task_id@) == i as int);
            } else {
                assert(find_task(pre_model, ev.task_id@) == -1);
            }
        }
        if !found {
            let mut ranges: Vec<TimeRange> = Vec::new();
            match ev.kind {
                EventKind::Start => ranges.push(
                    TimeRange { start: Some(ev.timestamp), end: None },
                ),
                EventKind::Stop => ranges.push(TimeRange { start: None, end: Some(ev.timestamp) }),
            }
            let key = ev.task_id.clone();
            out.push((key, ranges));
            proof {
                assert(entry_view(out@.last()).1 =~= seq![
                    (out@.last().1@[0].start, out@.last().1@[0].end),
                ]);
                assert(tasks_view(out@) =~= apply_event(pre_model, *ev));
            }
        } else {
            let (key, mut ranges) = out.remove(i);
            match ev.kind {
                EventKind::Start => {
                    ranges.push(TimeRange { start: Some(ev.timestamp), end: None });
                },
                EventKind::Stop => {
                    let last_open = ranges.len() > 0 && ranges[ranges.len() - 1].end.is_none();
                    if last_open {
                        let last = match ranges.pop() {
                            Some(l) => l,
                            None => vstd::pervasive::unreached(),
                        };
                        ranges.push(TimeRange { start: last.start, end: Some(ev.timestamp) });
                    } else {
                        ranges.push(TimeRange { start: None, end: Some(ev.timestamp) });
                    }
                },
            }
            out.insert(i, (key, ranges));
            proof {
                let expected = apply_event(pre_model, *ev);
                assert(entry_view(out@[i as int]).1 =~= expected[i as int].1);
                assert(tasks_view(out@) =~= expected);
            }
        }
        proof {
            assert(events@.take(k as int + 1).drop_last() =~= events@.take(k as int));
            assert(events@.take(k as int + 1).last() == *ev);
        }
        k = k + 1;
    }
    proof {
        assert(events@.take(events@.len() as int) =~= events@);
    }
    out
}

/// A reconstruction is a mapping: it holds one entry per item, so its
/// keys never repeat.
pub proof fn lemma_reconstruct_keys_distinct(events: Seq<Event>)
    ensures
        forall|i: int, j: int|
            0 <= i < j < reconstruct_model(events).len() ==> (#[trigger] reconstruct_model(
                events,
            )[i]).0 != (#[trigger] reconstruct_model(events)[j]).0,
    decreases events.len(),
{
    if events.len() > 0 {
        lemma_reconstruct_keys_distinct(events.drop_last());
        let m = reconstruct_model(events.drop_last());
        let ev = events.last();
        lemma_find_task(m, ev.task_id@);
        let out = reconstruct_model(events);
        assert forall|i: int, j: int| 0 <= i < j < out.len() implies (#[trigger] out[i]).0 != (
        #[trigger] out[j]).0 by {
            if j < m.len() {
                assert(out[i].0 == m[i].0 && out[j].0 == m[j].0);
            } else {
                assert(out[i].0 == m[i].0);
            }
        }
    }
}

/// Timestamps ascend through the event sequence.
pub open spec fn events_sorted(events: Seq<Event>) -> bool {
    forall|i: int, j: int|
        0 <= i < j < events.len() ==> (#[trigger] events[i]).timestamp <= (
        #[trigger] events[j]).timestamp
}

/// All interval endpoints present in the model are at most `t`.
pub open spec fn model_endpoints_le(
    m: Seq<(Seq<char>, Seq<(Option<i64>, Option<i64>)>)>,
    t: i64,
) -> bool {
    forall|a: int, b: int|
        0 <= a < m.len() && 0 <= b < m[a].1.len() ==> {
            let rg = #[trigger] m[a].1[b];
            (rg.0 is Some ==> rg.0->0 <= t) && (rg.1 is Some ==> rg.1->0 <= t)
        }
}

/// Every closed interval of the model runs forward.
pub open spec fn model_intervals_ordered(
    m: Seq<(Seq<char>, Seq<(Option<i64>, Option<i64>)>)>,
) -> bool {
    forall|a: int, b: int|
        0 <= a < m.len() && 0 <= b < m[a].1.len() ==> {
            let rg = #[trigger] m[a].1[b];
            rg.0 is Some && rg.1 is Some ==> rg.0->0 <= rg.1->0
        }
}

proof fn lemma_apply_event_ordered(
    m: Seq<(Seq<char>, Seq<(Option<i64>, Option<i64>)>)>,
    ev: Event,
    t: i64,
)
    requires
        model_intervals_ordered(m),
        model_endpoints_le(m, t),
        t <= ev.timestamp,
    ensures
        model_intervals_ordered(apply_event(m, ev)),
        model_endpoints_le(apply_event(m, ev), ev.timestamp),
{
    lemma_find_task(m, ev.task_id@);
}

/// From an ascending event log — in particular from any alternating
/// start/stop history of one item — every reconstructed interval with
/// both endpoints present satisfies `start <= end`.
pub proof fn lemma_reconstructed_intervals_ordered(events: Seq<Event>)
    requires
        events_sorted(events),
    ensures
        model_intervals_ordered(reconstruct_model(events)),
        events.len() > 0 ==> model_endpoints_le(
            reconstruct_model(events),
            events.last().timestamp,
        ),
    decreases events.len(),
{
    if events.len() > 0 {
        let pre = events.drop_last();
        assert(events_sorted(pre)) by {
            assert forall|i: int, j: int| 0 <= i < j < pre.len() implies (
            #[trigger] pre[i]).timestamp <= (#[trigger] pre[j]).timestamp by {
                assert(pre[i] == events[i] && pre[j] == events[j]);
            }
        }
        lemma_reconstructed_intervals_ordered(pre);
        if pre.len() == 0 {
            assert(reconstruct_model(pre) =~= Seq::empty());
            lemma_apply_event_ordered(
                reconstruct_model(pre),
                events.last(),
                events.last().timestamp,
            );
        } else {
            assert(pre.last().timestamp <= events.last().timestamp) by {
                assert(pre.last() == events[events.len() - 2]);
            }
            lemma_apply_event_ordered(
                reconstruct_model(pre),
                events.last(),
                pre.last().timestamp,
            );
        }
    }
}

} // verus!
