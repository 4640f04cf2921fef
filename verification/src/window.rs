use vstd::prelude::*;

verus! {

/// Decides, per event, whether the event falls inside a caller-specified
/// bound: an inclusive window `[start, end]` over event positions. A position
/// is a slot number or a timestamp in nanoseconds, whichever mode the caller
/// runs the filter in; one filter instance never mixes the two.
///
/// `started` begins `true` if no lower bound is given, and otherwise becomes
/// `true` the first time a position `>= start` is observed; it never resets.
/// `done` begins `false` and becomes `true` once a position exceeds `end`; it
/// never resets either. An event is acted on exactly when the filter is
/// `started` and not `done`.
///
/// The filter is advisory: callers keep feeding every event through it even
/// after `done`, and merely suppress the event's effects.
pub struct WindowFilter {
    /// Inclusive lower bound, if any.
    pub start: Option<u64>,
    /// Inclusive upper bound, if any.
    pub end: Option<u64>,
    /// Whether some observed position has reached `start` (or no lower bound
    /// was given).
    pub started: bool,
    /// Whether some observed position has exceeded `end`.
    pub done: bool,
}

/// Whether observing position `pos` starts a window with lower bound `start`.
pub open spec fn position_starts(start: Option<u64>, pos: u64) -> bool {
    match start {
        Option::None => true,
        Option::Some(s) => pos >= s,
    }
}

/// Whether observing position `pos` finishes a window with upper bound `end`.
pub open spec fn position_ends(end: Option<u64>, pos: u64) -> bool {
    match end {
        Option::None => false,
        Option::Some(e) => pos > e,
    }
}

impl WindowFilter {
    /// The filter state [`new`](Self::new) yields.
    pub open spec fn new_spec(start: Option<u64>, end: Option<u64>) -> WindowFilter {
        WindowFilter { start, end, started: start is None, done: false }
    }

    /// A fresh filter for the window `[start, end]`; either bound may be
    /// absent. With no lower bound the filter starts out active.
    pub fn new(start: Option<u64>, end: Option<u64>) -> (filter: WindowFilter)
        ensures
            filter == WindowFilter::new_spec(start, end),
            filter.start == start,
            filter.end == end,
            filter.started == start is None,
            !filter.done,
    {
        let started = start.is_none();
        WindowFilter { start, end, started, done: false }
    }

    /// The filter state after observing position `pos`: both flags are
    /// monotonic, so each is the old flag joined with what `pos` alone says.
    pub open spec fn spec_observe(self, pos: u64) -> WindowFilter {
        WindowFilter {
            started: self.started || position_starts(self.start, pos),
            done: self.done || position_ends(self.end, pos),
            ..self
        }
    }

    /// Whether the last observed event is to be acted on.
    pub open spec fn active(self) -> bool {
        self.started && !self.done
    }

    /// Observes one event's position and reports whether the event falls
    /// inside the window.
    pub fn observe(&mut self, pos: u64) -> (act: bool)
        ensures
            *final(self) == old(self).spec_observe(pos),
            act == final(self).active(),
    {
        self.started = self.started
            || match self.start {
                Option::None => true,
                Option::Some(s) => pos >= s,
            };
        self.done = self.done
            || match self.end {
                Option::None => false,
                Option::Some(e) => pos > e,
            };
        self.started && !self.done
    }
}

} // verus!
