use vstd::prelude::*;

use crate::apply::{apply_spec, fresh_new_order};
use crate::crossing::uncrossed;
use crate::resting::{modifies_to_zero, resting_have_quantity};
use crate::matching::{lemma_events_view_concat, match_spec};
use crate::state::{wf, EngineModel, EngineState};
use crate::types::{events_view, Event, EventView};

verus! {

/// The effect of one input event on the engine: apply it, then match every
/// aggressor it queued. Output: the events of the first stage, then those of
/// the second.
pub open spec fn process_spec(m: EngineModel, e: EventView) -> (EngineModel, Seq<EventView>) {
    let a = apply_spec(m, e);
    let b = match_spec(a.0);
    (b.0, a.1 + b.1)
}

/// The orchestrator: it knows nothing of the rules, it only sequences the stages.
pub struct Engine {
    pub state: EngineState,
}

impl Engine {
    pub fn new(state: EngineState) -> (e: Engine)
        ensures
            e.state == state,
    {
        Engine { state }
    }

    /// Entry point: applies the input event (accepting, rejecting, resting
    /// or queueing), then runs matching until no aggressor is left.
    ///
    /// A new order must not carry the id of an order that still rests in the
    /// book or waits in the aggressor queue (`fresh_new_order`); the id of a
    /// canceled, rejected, expired or filled order may be used again.
    pub fn process(&mut self, event: Event) -> (out: Vec<Event>)
        requires
            wf(old(self).state@),
            fresh_new_order(old(self).state@, event@),
        ensures
            wf(final(self).state@),
            final(self).state@.queue.len() == 0,
            (final(self).state@, events_view(out@)) == process_spec(old(self).state@, event@),
            uncrossed(old(self).state@) ==> uncrossed(final(self).state@),
            resting_have_quantity(old(self).state@) && !modifies_to_zero(event@)
                ==> resting_have_quantity(final(self).state@),
    {
        let mut out_events: Vec<Event> = Vec::new();
        let mut applied = self.state.apply_event(event);
        let ghost a0 = applied@;
        out_events.append(&mut applied);
        assert(out_events@ =~= a0);
        let mut matched = self.state.match_order();
        proof {
            lemma_events_view_concat(out_events@, matched@);
        }
        out_events.append(&mut matched);
        out_events
    }
}

} // verus!
