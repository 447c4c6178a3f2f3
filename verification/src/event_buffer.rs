//! The append-only record of every event of a session, replayed in order to
//! each browser tab that connects.

use vstd::prelude::*;
use crate::types::{EventView, SseEvent};

verus! {

/// The events of a session in the order they happened.
///
/// One buffer is shared by the PTY reader, the stdin reader and the HTTP
/// server; whoever shares it puts it behind a lock, and each method here
/// runs while that lock is held.
pub struct EventBuffer {
    events: Vec<SseEvent>,
}

/// The views of a list of events.
pub open spec fn event_views(events: Seq<SseEvent>) -> Seq<EventView> {
    events.map_values(|e: SseEvent| e@)
}

impl View for EventBuffer {
    type V = Seq<EventView>;

    closed spec fn view(&self) -> Seq<EventView> {
        event_views(self.events@)
    }
}

impl EventBuffer {
    pub fn new() -> (res: Self)
        ensures
            res@ == Seq::<EventView>::empty(),
    {
        EventBuffer { events: Vec::new() }
    }

    /// Appends `event` after all the events already recorded.
    pub fn push(&mut self, event: SseEvent)
        ensures
            final(self)@ == old(self)@.push(event@),
    {
        let ghost e = event@;
        self.events.push(event);
        assert(event_views(self.events@) =~= event_views(old(self).events@).push(e));
    }

    /// Returns a snapshot clone of all events in insertion order.
    pub fn snapshot(&self) -> (res: Vec<SseEvent>)
        ensures
            event_views(res@) == self@,
    {
        let n = self.events.len();
        let mut res: Vec<SseEvent> = Vec::new();
        let mut i: usize = 0;
        while i < n
            invariant
                n == self.events@.len(),
                i <= n,
                res@ =~= self.events@.take(i as int),
            decreases n - i,
        {
            res.push(self.events[i].clone());
            i += 1;
        }
        assert(res@ =~= self.events@);
        res
    }
}


/// The record after pushing `events`, one at a time and in order, onto a
/// buffer that held `start`.
pub open spec fn after_pushes(start: Seq<EventView>, events: Seq<EventView>) -> Seq<EventView>
    decreases events.len(),
{
    if events.len() == 0 {
        start
    } else {
        after_pushes(start.push(events[0]), events.drop_first())
    }
}

/// The buffer is append-only and keeps the order of arrival: pushing events
/// one by one leaves the earlier record untouched and adds the new events
/// after it, in the order pushed (so from a new, empty buffer a snapshot
/// replays exactly the events pushed).
pub proof fn law_replay_in_order(start: Seq<EventView>, events: Seq<EventView>)
    ensures
        after_pushes(start, events) == start + events,
    decreases events.len(),
{
    if events.len() > 0 {
        law_replay_in_order(start.push(events[0]), events.drop_first());
        assert(start.push(events[0]) + events.drop_first() =~= start + events);
    } else {
        assert(start + events =~= start);
    }
}

} // verus!
