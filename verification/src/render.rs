//! One block of a host, from its events to the segments the processor
//! renders.
use vstd::prelude::*;

use crate::block;
use crate::block::{EventStage, ParamEvent, Staged};
use crate::bus;
use crate::bus::BusDirection;
use crate::diag;
use crate::diag::DiagCounters;
use crate::engine;
use crate::engine::{AudioToken, DrainReport, Engine};
use crate::midi::MidiEvent;
use crate::params;
use crate::processor::Processor;
use crate::wire;
use crate::wire::{wire_segment, BusActivation, HostBus};

verus! {

/// A staged event was dropped: nothing but the count changes.
pub open spec fn drop_counted<P>(before: engine::EngineState<P>) -> engine::EngineState<P> {
    engine::EngineState {
        diag: DiagCounters {
            param_events_dropped: diag::bumped(before.diag.param_events_dropped),
            ..before.diag
        },
        ..before
    }
}

impl<P: Processor> Engine<P> {
    /// The top of a block: queued changes take effect, and last block's events
    /// are forgotten.
    pub fn start_block(&mut self, token: &AudioToken, stage: &mut EventStage) -> (report:
        DrainReport)
        requires
            old(self).wf(),
            old(self)@.access is Audio,
        ensures
            final(self).wf(),
            engine::drained(old(self)@, final(self)@, report.notify_main),
            final(self).midi() == old(self).midi(),
            final(self).scratch() == old(self).scratch(),
            final(stage)@ == Seq::<ParamEvent>::empty(),
            final(stage).room() == old(stage).room(),
    {
        stage.clear();
        self.drain_commands()
    }

    /// Stage an event of a time-ordered host list for this block. One that
    /// finds no room is counted.
    pub fn stage_event(&mut self, stage: &mut EventStage, frames: u32, event: ParamEvent)
        requires
            old(self).wf(),
        ensures
            final(self).wf(),
            final(self).midi() == old(self).midi(),
            final(self).scratch() == old(self).scratch(),
            final(stage).room() == old(stage).room(),
            final(self)@ == (if old(stage)@.len() >= old(stage).room() {
                drop_counted(old(self)@)
            } else {
                old(self)@
            }),
            final(stage)@ == (if old(stage)@.len() < old(stage).room() && params::declares(
                P::declared(),
                event.id,
            ) {
                old(stage)@.push(
                    ParamEvent { time: block::within(event.time as int, frames), ..event },
                )
            } else {
                old(stage)@
            }),
    {
        match stage.collect_param_event(P::params(), frames, event) {
            Staged::Dropped => {
                self.count_dropped_param_event();
            },
            _ => {},
        }
    }

    /// Stage a point of one parameter's automation queue for this block. A
    /// point of a declared parameter that finds no room is counted.
    pub fn stage_change(
        &mut self,
        stage: &mut EventStage,
        frames: u32,
        offset: i32,
        id: u32,
        value: u64,
    )
        requires
            old(self).wf(),
        ensures
            final(self).wf(),
            final(self).midi() == old(self).midi(),
            final(self).scratch() == old(self).scratch(),
            final(stage).room() == old(stage).room(),
            final(self)@ == (if params::declares(P::declared(), id) && old(stage)@.len() >= old(stage).room() {
                drop_counted(old(self)@)
            } else {
                old(self)@
            }),
            final(stage)@ == (if params::declares(P::declared(), id) && old(stage)@.len() < old(stage).room() {
                old(stage)@.push(
                    ParamEvent {
                        time: block::within(
                            if offset < 0 {
                                0
                            } else {
                                offset as int
                            },
                            frames,
                        ),
                        id,
                        value,
                    },
                )
            } else {
                old(stage)@
            }),
    {
        match stage.collect_param_change(P::params(), frames, offset, id, value) {
            Staged::Dropped => {
                self.count_dropped_param_event();
            },
            _ => {},
        }
    }

    /// Get ready to render a segment: the buses are wired to the host's
    /// buffers from frame `start` on, and the MIDI of the last segment is
    /// gone.
    pub fn begin_segment(
        &mut self,
        token: &AudioToken,
        activation: &BusActivation,
        inputs: &[HostBus],
        outputs: &[HostBus],
        start: usize,
        len: usize,
    )
        requires
            old(self).wf(),
            old(self)@.access is Audio,
        ensures
            final(self).wf(),
            final(self)@ == old(self)@,
            final(self).midi()@ == Seq::<(u32, MidiEvent)>::empty(),
            final(self).midi().room() == old(self).midi().room(),
            final(self).midi().lost() == 0,
            final(self).scratch().declared() == old(self).scratch().declared(),
            final(self).scratch().loads(BusDirection::Output) == wire::output_loads(
                bus::buses_of(old(self).scratch().declared(), BusDirection::Output),
                *activation,
                outputs@,
                start,
                len,
            ),
            final(self).scratch().loads(BusDirection::Input) == wire::input_loads(
                bus::buses_of(old(self).scratch().declared(), BusDirection::Input),
                *activation,
                inputs@,
                final(self).scratch().loads(BusDirection::Output),
                start,
                len,
            ),
    {
        let core = self.audio_core(token);
        wire_segment(&mut core.bus_scratch, activation, inputs, outputs, start, len);
        core.midi_out.clear();
    }
}

/// A dropped event is counted, once, and nothing else changes.
pub proof fn law_a_dropped_event_is_counted<P>(before: engine::EngineState<P>)
    ensures
        before.diag.param_events_dropped < u64::MAX ==> drop_counted(
            before,
        ).diag.param_events_dropped == before.diag.param_events_dropped + 1,
        before.diag.param_events_dropped == u64::MAX ==> drop_counted(
            before,
        ).diag.param_events_dropped == 0,
        drop_counted(before).diag.midi_events_dropped == before.diag.midi_events_dropped,
        drop_counted(before).diag.commands_dropped == before.diag.commands_dropped,
        drop_counted(before).diag.bus_frames_dropped == before.diag.bus_frames_dropped,
        drop_counted(before).diag.mirror_retries == before.diag.mirror_retries,
        drop_counted(before).diag.state_responses_dropped == before.diag.state_responses_dropped,
        drop_counted(before).live == before.live,
        drop_counted(before).commands == before.commands,
        drop_counted(before).state_commands == before.state_commands,
        drop_counted(before).responses == before.responses,
        drop_counted(before).access == before.access,
{
}

} // verus!
