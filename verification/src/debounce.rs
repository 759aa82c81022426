//! Hysteresis debouncer for a mechanical switch input.
//!
//! The debouncer integrates raw samples into a signed counter and runs a
//! four-state machine (steady low, rising transient, steady high, falling
//! transient). `update` feeds one raw sample and reports whether a debounced
//! edge fired.

use vstd::prelude::*;

verus! {

#[derive(Clone, Copy, PartialEq, Eq, Structural, Debug)]
pub enum DebounceState {
    SteadyStateLow,
    TransientLowHigh,
    SteadyStateHigh,
    TransientHighLow,
}

/// Ghost image of the debouncer: the counter and thresholds as integers.
pub ghost struct DebouncerV {
    pub counter: int,
    pub state: DebounceState,
    pub thres_steady: int,
    pub thres_transient: int,
    pub thres_transient_abs: int,
}

/// The counter after one raw sample: saturating step towards
/// `thres_steady` on a high sample, towards `-thres_steady` on a low one.
pub open spec fn spec_counter_step(d: DebouncerV, input: bool) -> int {
    if input {
        if d.counter < d.thres_steady {
            d.counter + 1
        } else {
            d.counter
        }
    } else {
        if d.counter > -d.thres_steady {
            d.counter - 1
        } else {
            d.counter
        }
    }
}

/// One full step of the state machine: the new debouncer and whether an
/// edge (entry into a transient, or a fall back to steady low) fired.
pub open spec fn spec_update(d: DebouncerV, input: bool) -> (DebouncerV, bool) {
    let c = spec_counter_step(d, input);
    let dc = DebouncerV { counter: c, ..d };
    match d.state {
        DebounceState::SteadyStateLow => {
            if c >= -d.thres_transient_abs {
                (
                    DebouncerV { counter: 0, state: DebounceState::TransientLowHigh, ..d },
                    true,
                )
            } else {
                (dc, false)
            }
        },
        DebounceState::SteadyStateHigh => {
            if c >= d.thres_transient_abs {
                (
                    DebouncerV { counter: 0, state: DebounceState::TransientHighLow, ..d },
                    true,
                )
            } else {
                (dc, false)
            }
        },
        _ => {
            if c == d.thres_steady {
                (DebouncerV { state: DebounceState::SteadyStateHigh, ..dc }, false)
            } else if c == -d.thres_steady {
                (DebouncerV { state: DebounceState::SteadyStateLow, ..dc }, true)
            } else {
                (dc, false)
            }
        },
    }
}

/// The debounced output: high while in the rising transient or steady high.
pub open spec fn spec_output(d: DebouncerV) -> bool {
    d.state == DebounceState::TransientLowHigh || d.state == DebounceState::SteadyStateHigh
}

pub struct Debouncer {
    counter: i8,
    state: DebounceState,
    thres_steady: i8,
    thres_transient: i8,
    thres_transient_abs: i8,
}

impl View for Debouncer {
    type V = DebouncerV;

    closed spec fn view(&self) -> DebouncerV {
        DebouncerV {
            counter: self.counter as int,
            state: self.state,
            thres_steady: self.thres_steady as int,
            thres_transient: self.thres_transient as int,
            thres_transient_abs: self.thres_transient_abs as int,
        }
    }
}

impl Debouncer {
    /// Thresholds consistent: the steady threshold strictly dominates the
    /// transient one and the cached difference is exact.
    pub open spec fn wf(&self) -> bool {
        &&& self@.thres_steady > self@.thres_transient
        &&& self@.thres_transient_abs == self@.thres_steady - self@.thres_transient
    }

    pub fn new(initial_value: bool, thres_transient: i8, thres_steady: i8) -> (r: Debouncer)
        requires
            thres_steady > thres_transient,
            thres_steady - thres_transient <= i8::MAX,
        ensures
            r.wf(),
            r@.thres_steady == thres_steady as int,
            r@.thres_transient == thres_transient as int,
            r@.state == if initial_value {
                DebounceState::SteadyStateHigh
            } else {
                DebounceState::SteadyStateLow
            },
            r@.counter == if initial_value {
                thres_steady as int
            } else {
                -(thres_steady as int)
            },
            spec_output(r@) == initial_value,
    {
        let state = if initial_value {
            DebounceState::SteadyStateHigh
        } else {
            DebounceState::SteadyStateLow
        };

        let counter = if initial_value {
            thres_steady
        } else {
            -thres_steady
        };

        Debouncer {
            counter,
            state,
            thres_steady,
            thres_transient,
            thres_transient_abs: thres_steady - thres_transient,
        }
    }

    /// The current debounced level.
    pub fn output(&self) -> (r: bool)
        ensures
            r == spec_output(self@),
    {
        matches!(
            self.state,
            DebounceState::TransientLowHigh | DebounceState::SteadyStateHigh
        )
    }

    /// Feeds one raw sample; returns true when a debounced edge fired.
    pub fn update(&mut self, input: bool) -> (r: bool)
        requires
            old(self).wf(),
        ensures
            final(self).wf(),
            (final(self)@, r) == spec_update(old(self)@, input),
    {
        if input {
            if self.counter < self.thres_steady {
                self.counter = self.counter + 1;
            }
        } else if self.counter > -self.thres_steady {
            self.counter = self.counter - 1;
        }

        match self.state {
            DebounceState::SteadyStateLow => self.transition_on_threshold(
                -self.thres_transient_abs,
                DebounceState::TransientLowHigh,
            ),
            DebounceState::TransientLowHigh => self.check_transition(
                self.thres_steady,
                DebounceState::SteadyStateHigh,
                -self.thres_steady,
                DebounceState::SteadyStateLow,
            ),
            DebounceState::SteadyStateHigh => self.transition_on_threshold(
                self.thres_transient_abs,
                DebounceState::TransientHighLow,
            ),
            DebounceState::TransientHighLow => self.check_transition(
                self.thres_steady,
                DebounceState::SteadyStateHigh,
                -self.thres_steady,
                DebounceState::SteadyStateLow,
            ),
        }
    }

    fn transition_on_threshold(&mut self, threshold: i8, next_state: DebounceState) -> (r: bool)
        ensures
            r == (old(self)@.counter >= threshold as int),
            final(self)@ == if r {
                DebouncerV { counter: 0, state: next_state, ..old(self)@ }
            } else {
                old(self)@
            },
    {
        if self.counter >= threshold {
            self.counter = 0;
            self.state = next_state;
            true
        } else {
            false
        }
    }

    fn check_transition(
        &mut self,
        high_threshold: i8,
        high_state: DebounceState,
        low_threshold: i8,
        low_state: DebounceState,
    ) -> (r: bool)
        ensures
            final(self)@ == if old(self)@.counter == high_threshold as int {
                DebouncerV { state: high_state, ..old(self)@ }
            } else if old(self)@.counter == low_threshold as int {
                DebouncerV { state: low_state, ..old(self)@ }
            } else {
                old(self)@
            },
            r == (old(self)@.counter != high_threshold as int && old(self)@.counter
                == low_threshold as int),
    {
        if self.counter == high_threshold {
            self.state = high_state;
            false
        } else if self.counter == low_threshold {
            self.state = low_state;
            true
        } else {
            false
        }
    }
}

} // verus!
