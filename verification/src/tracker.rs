//! The activation state machine.
//!
//! At most one item is active at a time, and "active" is not stored
//! state: it is derived from the latest event of the append-only log.
//! Activating an item decides which events to append — as one atomic
//! unit — and what to report.

use vstd::prelude::*;
use crate::ranges::{Event, EventKind};

verus! {

/// What an activation reports: the target was already active, it was
/// newly activated, or another item (named) was deactivated to make way.
pub enum ActivationStatus {
    AlreadyActive,
    Activated,
    Deactivated(String),
}

/// The events an activation appends: at most one stop and one start,
/// committed together as one atomic unit or not at all.
pub struct Transition {
    pub stop: Option<Event>,
    pub start: Option<Event>,
}

/// The item the log derives as active from its latest event: the item of
/// that event if and only if it is a start.
pub open spec fn active_of(latest: Option<Event>) -> Option<Seq<char>> {
    match latest {
        Some(ev) => if ev.kind is Start {
            Some(ev.task_id@)
        } else {
            None
        },
        None => None,
    }
}

/// The item active after a transition's events are appended: the item a
/// start event names, none after a lone stop, and the previously active
/// item when nothing was appended.
pub open spec fn active_after(current: Option<Seq<char>>, t: Transition) -> Option<Seq<char>> {
    if t.start is Some {
        Some(t.start->0.task_id@)
    } else if t.stop is Some {
        None
    } else {
        current
    }
}

/// Whether an event carries the given item, instant and kind.
pub open spec fn is_event(ev: Event, task: Seq<char>, ts: i64, kind: EventKind) -> bool {
    ev.task_id@ == task && ev.timestamp == ts && ev.kind == kind
}

/// Derives the currently active item from the latest event of the log.
pub fn active_task_id(latest: &Option<Event>) -> (r: Option<String>)
    ensures
        match active_of(*latest) {
            Some(task) => r is Some && r->0@ == task,
            None => r is None,
        },
{
    match latest {
        Some(ev) => match ev.kind {
            EventKind::Start => Some(ev.task_id.clone()),
            EventKind::Stop => None,
        },
        None => None,
    }
}

/// Decides an activation of `target` at instant `now_ts`, given the
/// currently active item.
///
/// Activating the already-active item is idempotent: it appends nothing
/// and reports `AlreadyActive` — and only then does an activation append
/// nothing.  Activating over another active item appends its stop and
/// the target's start as one unit and reports the deactivated item.
/// Activating with nothing active appends only the start.  In every case
/// the target is the active item afterwards.
pub fn activate(current: Option<String>, target: String, now_ts: i64) -> (r: (
    Transition,
    ActivationStatus,
))
    ensures
        active_after(
            match current {
                Some(c) => Some(c@),
                None => None,
            },
            r.0,
        ) == Some(target@),
        (r.1 is AlreadyActive) <==> (current is Some && current->0@ == target@),
        (r.1 is AlreadyActive) <==> (r.0.start is None && r.0.stop is None),
        current is None ==> r.0.stop is None && r.0.start is Some && is_event(
            r.0.start->0,
            target@,
            now_ts,
            EventKind::Start,
        ) && r.1 is Activated,
        current is Some && current->0@ != target@ ==> r.0.stop is Some && is_event(
            r.0.stop->0,
            current->0@,
            now_ts,
            EventKind::Stop,
        ) && r.0.start is Some && is_event(r.0.start->0, target@, now_ts, EventKind::Start)
            && r.1 is Deactivated && r.1->0@ == current->0@,
{
    match current {
        Some(c) => {
            if c.eq(&target) {
                (Transition { stop: None, start: None }, ActivationStatus::AlreadyActive)
            } else {
                let stop = Event { task_id: c.clone(), timestamp: now_ts, kind: EventKind::Stop };
                let start = Event { task_id: target, timestamp: now_ts, kind: EventKind::Start };
                (
                    Transition { stop: Some(stop), start: Some(start) },
                    ActivationStatus::Deactivated(c),
                )
            }
        },
        None => {
            let start = Event { task_id: target, timestamp: now_ts, kind: EventKind::Start };
            (Transition { stop: None, start: Some(start) }, ActivationStatus::Activated)
        },
    }
}

} // verus!
