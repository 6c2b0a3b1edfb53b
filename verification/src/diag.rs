//! Diagnostics counters: every path that loses something bumps one.
use vstd::prelude::*;

verus! {

/// One set of counters per plugin instance.
#[derive(Clone, Copy, PartialEq, Eq, Structural, Debug)]
pub struct DiagCounters {
    /// Host automation points dropped because the block's staging buffer was
    /// full.
    pub param_events_dropped: u64,
    /// MIDI events dropped because the output was full.
    pub midi_events_dropped: u64,
    /// Commands dropped because the command queue was full.
    pub commands_dropped: u64,
    /// Bus frames lost while no cross-process link existed or a write failed.
    pub bus_frames_dropped: u64,
    /// Retries of racing mirror snapshots. Not an error.
    pub mirror_retries: u64,
    /// State answers dropped because the response queue was full.
    pub state_responses_dropped: u64,
}

impl Default for DiagCounters {
    /// All counters at zero.
    fn default() -> (r: Self)
        ensures
            r == (DiagCounters {
                param_events_dropped: 0,
                midi_events_dropped: 0,
                commands_dropped: 0,
                bus_frames_dropped: 0,
                mirror_retries: 0,
                state_responses_dropped: 0,
            }),
    {
        DiagCounters {
            param_events_dropped: 0,
            midi_events_dropped: 0,
            commands_dropped: 0,
            bus_frames_dropped: 0,
            mirror_retries: 0,
            state_responses_dropped: 0,
        }
    }
}

/// A counter one higher, wrapping at the end of its range.
pub open spec fn bumped(counter: u64) -> u64 {
    if counter == u64::MAX {
        0
    } else {
        (counter + 1) as u64
    }
}

impl DiagCounters {
    /// Count one more.
    pub fn bump(counter: &mut u64)
        ensures
            *final(counter) == bumped(*old(counter)),
    {
        *counter = counter.wrapping_add(1);
    }

    /// Every counter with its name.
    pub fn snapshot(&self) -> (r: [(&'static str, u64); 6])
        ensures
            r@ == seq![
                ("param_events_dropped", self.param_events_dropped),
                ("midi_events_dropped", self.midi_events_dropped),
                ("commands_dropped", self.commands_dropped),
                ("bus_frames_dropped", self.bus_frames_dropped),
                ("mirror_retries", self.mirror_retries),
                ("state_responses_dropped", self.state_responses_dropped),
            ],
    {
        let r = [
            ("param_events_dropped", self.param_events_dropped),
            ("midi_events_dropped", self.midi_events_dropped),
            ("commands_dropped", self.commands_dropped),
            ("bus_frames_dropped", self.bus_frames_dropped),
            ("mirror_retries", self.mirror_retries),
            ("state_responses_dropped", self.state_responses_dropped),
        ];
        r
    }
}

/// A counter goes up by one, and from the top back to zero.
pub proof fn law_counters_go_up_by_one(counter: u64)
    ensures
        bumped(counter) == (counter + 1) % 0x1_0000_0000_0000_0000,
{
}

} // verus!
