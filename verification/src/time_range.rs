use crate::event::TimedTracedEvent;
use vstd::prelude::*;

verus! {

/// Tracks the least and greatest event timestamp seen so far, in nanoseconds.
pub struct TimeRangeHandler {
    pub min: Option<u64>,
    pub max: Option<u64>,
}

impl Default for TimeRangeHandler {
    /// A fresh handler that has seen no event.
    fn default() -> (h: TimeRangeHandler)
        ensures
            h.min is None,
            h.max is None,
    {
        TimeRangeHandler { min: Option::None, max: Option::None }
    }
}

impl TimeRangeHandler {
    /// Folds one event's timestamp into the running extremes.
    pub fn handle_event(&mut self, event: &TimedTracedEvent)
        ensures
            final(self).min == match old(self).min {
                Option::Some(mn) => Option::Some(if event.0 < mn {
                    event.0
                } else {
                    mn
                }),
                Option::None => Option::Some(event.0),
            },
            final(self).max == match old(self).max {
                Option::Some(mx) => Option::Some(if event.0 > mx {
                    event.0
                } else {
                    mx
                }),
                Option::None => Option::Some(event.0),
            },
    {
        let ts = event.0;
        match self.min {
            Option::Some(mn) => {
                if ts < mn {
                    self.min = Option::Some(ts);
                }
            },
            Option::None => {
                self.min = Option::Some(ts);
            },
        }
        match self.max {
            Option::Some(mx) => {
                if ts > mx {
                    self.max = Option::Some(ts);
                }
            },
            Option::None => {
                self.max = Option::Some(ts);
            },
        }
    }

    /// The extremes seen so far, when any event has been seen.
    pub fn report(&self) -> (r: Option<(u64, u64)>)
        ensures
            r is Some <==> (self.min is Some && self.max is Some),
            r matches Some(p) ==> self.min == Option::Some(p.0) && self.max == Option::Some(p.1),
    {
        match (self.min, self.max) {
            (Option::Some(mn), Option::Some(mx)) => Option::Some((mn, mx)),
            _ => Option::None,
        }
    }
}

/// The least and greatest timestamp in the trace, or nothing for an empty
/// trace.
pub fn time_range(events: &Vec<TimedTracedEvent>) -> (r: Option<(u64, u64)>)
    ensures
        (r is None) == (events@.len() == 0),
        r matches Some(p) ==> {
            &&& forall|e: int| 0 <= e < events@.len() ==> p.0 <= #[trigger] events@[e].0 <= p.1
            &&& exists|e: int| 0 <= e < events@.len() && #[trigger] events@[e].0 == p.0
            &&& exists|e: int| 0 <= e < events@.len() && #[trigger] events@[e].0 == p.1
        },
{
    let mut handler = TimeRangeHandler::default();
    let mut k: usize = 0;
    while k < events.len()
        invariant
            0 <= k <= events@.len(),
            (handler.min is None) == (k == 0),
            (handler.max is None) == (k == 0),
            handler.min matches Some(mn) ==> {
                &&& forall|e: int| 0 <= e < k ==> mn <= #[trigger] events@[e].0
                &&& exists|e: int| 0 <= e < k && #[trigger] events@[e].0 == mn
            },
            handler.max matches Some(mx) ==> {
                &&& forall|e: int| 0 <= e < k ==> #[trigger] events@[e].0 <= mx
                &&& exists|e: int| 0 <= e < k && #[trigger] events@[e].0 == mx
            },
        decreases events@.len() - k,
    {
        let ghost old_min = handler.min;
        let ghost old_max = handler.max;
        handler.handle_event(&events[k]);
        proof {
            if let Option::Some(mn) = handler.min {
                if events@[k as int].0 == mn {
                    assert(exists|e: int| 0 <= e < k + 1 && #[trigger] events@[e].0 == mn);
                } else {
                    let w = choose|e: int| 0 <= e < k && #[trigger] events@[e].0 == old_min.unwrap();
                    assert(events@[w].0 == mn);
                }
            }
            if let Option::Some(mx) = handler.max {
                if events@[k as int].0 == mx {
                    assert(exists|e: int| 0 <= e < k + 1 && #[trigger] events@[e].0 == mx);
                } else {
                    let w = choose|e: int| 0 <= e < k && #[trigger] events@[e].0 == old_max.unwrap();
                    assert(events@[w].0 == mx);
                }
            }
        }
        k += 1;
    }
    handler.report()
}

} // verus!
