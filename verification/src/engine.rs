//! The engine: who may touch the processor when, and how everyone else
//! reaches it.
//!
//! While blocks are flowing the audio side owns the processor. The main side
//! touches it directly only while processing is stopped; otherwise changes
//! wait in bounded queues that the audio side drains at the top of a block,
//! and parameter values are read from the mirror.
use vstd::prelude::*;

use crate::block;
use crate::block::{BlockPlan, ParamEvent, Step};
use crate::bus;
use crate::diag;
use crate::diag::DiagCounters;
use crate::midi::MidiOut;
use crate::mirror;
use crate::mirror::ParamMirror;
use crate::params;
use crate::params::find_param;
use crate::processor;
use crate::processor::{snapshot_params, Processor};
use crate::ring;
use crate::ring::Ring;
use crate::scratch;
use crate::scratch::TopologyScratch;
use crate::wire::Span;

verus! {

/// A cheap, bounded command for the audio side.
#[derive(Clone, Copy, PartialEq, Eq, Structural, Debug)]
pub enum Command {
    /// Apply a parameter change at the top of the next block.
    SetParam {
        /// The parameter.
        id: u32,
        /// The new value, as bits; the processor clamps.
        value: u64,
    },
    /// Forget audio history between blocks.
    Reset,
}

/// A potentially expensive state operation for the audio side. These travel
/// on a queue of their own; at most one is serviced per block.
#[derive(Debug)]
pub enum StateCommand {
    /// Restore project state.
    LoadState(Vec<u8>),
    /// Serialize project state.
    SaveState,
}

/// The audio side's answer to a state operation.
#[derive(Debug)]
pub enum StateResponse {
    /// The serialized state.
    Saved(Vec<u8>),
    /// Whether the state was restored, and the payload buffer for reuse.
    Loaded {
        /// The processor's verdict on the payload.
        ok: bool,
        /// The payload's buffer.
        buffer: Vec<u8>,
    },
}

/// How many ordinary commands may wait.
pub const COMMAND_CAPACITY: usize = 1024;

/// How many state commands may wait.
pub const STATE_COMMAND_CAPACITY: usize = 2;

/// How many state answers may wait.
pub const STATE_RESPONSE_CAPACITY: usize = 2;

/// Who holds the processor.
#[derive(Clone, Copy, PartialEq, Eq, Structural, Debug)]
pub enum Access {
    /// Nobody.
    Idle,
    /// The main side, inside a direct access.
    Main,
    /// The audio side: blocks are flowing.
    Audio,
}

/// Proof that the holder entered the audio state and has not left it.
#[derive(Debug)]
pub struct AudioToken(());

/// What draining the queues did.
#[derive(Clone, Copy, PartialEq, Eq, Structural, Debug)]
pub struct DrainReport {
    /// A remote or state-load change landed, or the latency changed: the
    /// main side should tell the host and refresh the editor.
    pub notify_main: bool,
}

/// The processor and what it renders into.
#[derive(Debug)]
pub struct AudioCore<P> {
    /// The plugin itself.
    pub processor: P,
    /// MIDI of the current block.
    pub midi_out: MidiOut,
    /// The buses of the current block.
    pub bus_scratch: TopologyScratch<Span>,
}

/// How saving started.
#[derive(Debug)]
pub enum SaveStart {
    /// Processing is stopped: here is the state.
    Done(Vec<u8>),
    /// The audio side will answer.
    Pending,
    /// The queue is full.
    Refused,
}

/// How loading started.
#[derive(Clone, Copy, PartialEq, Eq, Structural, Debug)]
pub enum LoadStart {
    /// Processing is stopped: the processor's verdict.
    Done(bool),
    /// The audio side will answer.
    Pending,
    /// The queue is full.
    Refused,
}

/// The processor together with the mirror of its parameters.
pub ghost struct Live<P> {
    /// The processor.
    pub processor: P,
    /// The mirrored values.
    pub mirror: Seq<(u32, u64)>,
    /// What each declared parameter read back as when it was last set by the
    /// editor or the bus, or else when the engine was built.
    pub last_set: Map<u32, u64>,
}

/// What an engine holds.
pub ghost struct EngineState<P> {
    /// Who holds the processor.
    pub access: Access,
    /// The processor and its mirror.
    pub live: Live<P>,
    /// Waiting commands.
    pub commands: Seq<Command>,
    /// Waiting state commands.
    pub state_commands: Seq<StateCommand>,
    /// Waiting state answers.
    pub responses: Seq<StateResponse>,
    /// Buffers stashed for reuse.
    pub buffers: Seq<Vec<u8>>,
    /// The counters.
    pub diag: DiagCounters,
    /// The latency last reported.
    pub latency: u32,
    /// Whether a latency change waits to be told to the host.
    pub latency_changed: bool,
}

/// A parameter is set and its readback, not the request, is mirrored.
pub open spec fn lands<P: Processor>(
    before: Live<P>,
    id: u32,
    value: u64,
    after: Live<P>,
) -> bool {
    &&& P::sets(before.processor, id, value, after.processor)
    &&& after.mirror == mirror::published(before.mirror, id, after.processor.value(id))
}

/// A change by the host's automation lands.
pub open spec fn param_lands<P: Processor>(
    before: Live<P>,
    id: u32,
    value: u64,
    after: Live<P>,
) -> bool {
    &&& lands(before, id, value, after)
    &&& after.last_set == before.last_set
}

/// A change by the editor or the bus lands: what it reads back as is noted.
pub open spec fn set_lands<P: Processor>(
    before: Live<P>,
    id: u32,
    value: u64,
    after: Live<P>,
) -> bool {
    &&& lands(before, id, value, after)
    &&& after.last_set == (if before.last_set.contains_key(id) {
        before.last_set.insert(id, after.processor.value(id))
    } else {
        before.last_set
    })
}

/// One command runs.
pub open spec fn command_runs<P: Processor>(
    before: Live<P>,
    command: Command,
    after: Live<P>,
) -> bool {
    match command {
        Command::SetParam { id, value } => set_lands(before, id, value, after),
        Command::Reset => {
            &&& P::resets(before.processor, after.processor)
            &&& after.mirror == before.mirror
            &&& after.last_set == before.last_set
        },
    }
}

/// Commands run in order.
pub open spec fn commands_run<P: Processor>(
    before: Live<P>,
    commands: Seq<Command>,
    after: Live<P>,
) -> bool
    decreases commands.len(),
{
    if commands.len() == 0 {
        before == after
    } else {
        exists|mid: Live<P>|
            commands_run(before, commands.drop_last(), mid) && #[trigger] command_runs(
                mid,
                commands.last(),
                after,
            )
    }
}

/// Whether some command changes a parameter.
pub open spec fn has_change(commands: Seq<Command>) -> bool {
    exists|i: int| 0 <= i < commands.len() && (#[trigger] commands[i]) is SetParam
}

/// State bytes are handed to the processor; only if it takes them is every
/// parameter mirrored anew.
pub open spec fn state_lands<P: Processor>(
    before: Live<P>,
    data: Seq<u8>,
    ok: bool,
    after: Live<P>,
) -> bool {
    &&& P::loads(before.processor, data, ok, after.processor)
    &&& after.last_set == before.last_set
    &&& after.mirror == (if ok {
        mirror::published_all(before.mirror, processor::all_values(after.processor))
    } else {
        before.mirror
    })
}

/// One state command runs and gives an answer.
pub open spec fn state_command_runs<P: Processor>(
    before: Live<P>,
    command: StateCommand,
    after: Live<P>,
    answer: StateResponse,
) -> bool {
    match command {
        StateCommand::LoadState(data) => answer matches StateResponse::Loaded { ok, buffer }
            && buffer == data && state_lands(before, data@, ok, after),
        StateCommand::SaveState => answer matches StateResponse::Saved(data) && after == before
            && before.processor.saves(data@),
    }
}

/// Whether an answer says that state was restored.
pub open spec fn restored(answer: StateResponse) -> bool {
    answer matches StateResponse::Loaded { ok, .. } && ok
}

/// Whether some waiting answer says that state was restored.
pub open spec fn restoring(answers: Seq<StateResponse>) -> bool {
    exists|i: int| 0 <= i < answers.len() && restored(#[trigger] answers[i])
}

/// The steps of a drain: all commands run, leading to `mid`; then the oldest
/// state command, if any, runs and gives `answer`; then the latency is
/// compared with the one last reported.
pub open spec fn drain_steps<P: Processor>(
    before: EngineState<P>,
    mid: Live<P>,
    answer: Option<StateResponse>,
    after: EngineState<P>,
    notify: bool,
) -> bool {
    &&& commands_run(before.live, before.commands, mid)
    &&& after.commands == Seq::<Command>::empty()
    &&& (answer is Some <==> before.state_commands.len() > 0)
    &&& match answer {
        Some(a) => {
            &&& state_command_runs(mid, before.state_commands[0], after.live, a)
            &&& after.state_commands == before.state_commands.drop_first()
            &&& if before.responses.len() < STATE_RESPONSE_CAPACITY {
                after.responses == before.responses.push(a) && after.diag == before.diag
            } else {
                after.responses == before.responses && after.diag == (DiagCounters {
                    state_responses_dropped: diag::bumped(before.diag.state_responses_dropped),
                    ..before.diag
                })
            }
        },
        None => {
            &&& after.live == mid
            &&& after.state_commands == before.state_commands
            &&& after.responses == before.responses
            &&& after.diag == before.diag
        },
    }
    &&& after.latency == after.live.processor.delay()
    &&& after.latency_changed == (before.latency_changed || after.latency != before.latency)
    &&& after.access == before.access
    &&& after.buffers == before.buffers
    &&& notify == (has_change(before.commands) || (answer matches Some(a) && restored(a))
        || after.latency != before.latency)
}

/// A drain leads from one state to the other.
pub open spec fn drained<P: Processor>(
    before: EngineState<P>,
    after: EngineState<P>,
    notify: bool,
) -> bool {
    exists|mid: Live<P>, answer: Option<StateResponse>| #[trigger]
        drain_steps(before, mid, answer, after, notify)
}

/// The ids of the declared parameters.
pub open spec fn declared_ids<P: Processor>() -> Seq<u32> {
    Seq::new(P::declared().len(), |i: int| P::declared()[i].id)
}

/// Whether a change of a parameter waits.
pub open spec fn awaits(commands: Seq<Command>, id: u32) -> bool {
    exists|i: int| 0 <= i < commands.len() && changes(#[trigger] commands[i], id)
}

/// Whether a command changes a parameter.
pub open spec fn changes(command: Command, id: u32) -> bool {
    command matches Command::SetParam { id: changed, value } && changed == id
}

/// Waiting commands after a newer change of a parameter overtook them: each
/// change of that parameter is brought up to date, the rest is as it was.
pub open spec fn overtaken(commands: Seq<Command>, id: u32, value: u64) -> Seq<Command> {
    Seq::new(
        commands.len(),
        |i: int|
            if changes(commands[i], id) {
                Command::SetParam { id, value }
            } else {
                commands[i]
            },
    )
}

/// Whether a parameter's last change by the editor or the bus arrived and
/// left it at this value.
pub open spec fn in_force<P>(state: EngineState<P>, id: u32, value: u64) -> bool {
    &&& !awaits(state.commands, id)
    &&& state.live.last_set.contains_key(id)
    &&& state.live.last_set[id] == value
}

/// Whether the editor or the bus last set a parameter to this value, or to
/// what reads back as it.
pub open spec fn set_to<P>(state: EngineState<P>, id: u32, value: u64) -> bool {
    match waiting(state.commands, id) {
        Some(last) => last == value,
        None => state.live.last_set.contains_key(id) && state.live.last_set[id] == value,
    }
}

/// The values of the declared parameters.
pub open spec fn first_values<P: Processor>(p: P) -> Map<u32, u64> {
    Map::new(|id: u32| params::declares(P::declared(), id), |id: u32| p.value(id))
}

/// Values by declared parameter, as a map.
pub open spec fn by_id<P: Processor>(values: Seq<u64>) -> Map<u32, u64> {
    Map::new(
        |id: u32| params::declares(P::declared(), id),
        |id: u32| values[params::param_index(P::declared(), id)->0],
    )
}

/// One plugin instance.
#[derive(Debug)]
pub struct Engine<P> {
    core: AudioCore<P>,
    access: Access,
    mirror: ParamMirror,
    last_set: Vec<u64>,
    diag: DiagCounters,
    commands: Ring<Command>,
    state_commands: Ring<StateCommand>,
    responses: Ring<StateResponse>,
    buffers: Vec<Vec<u8>>,
    latency: u32,
    latency_changed: bool,
}

proof fn lemma_ring_of_1024(n: u64)
    requires
        ring::is_pow2(n),
        1024 <= n < 2048,
    ensures
        n == 1024,
{
    assert(n == 1024) by (bit_vector)
        requires
            n & ((n - 1) as u64) == 0,
            1024 <= n < 2048,
    ;
}

proof fn lemma_ring_of_2(n: u64)
    requires
        ring::is_pow2(n),
        2 <= n < 4,
    ensures
        n == 2,
{
    assert(n == 2) by (bit_vector)
        requires
            n & ((n - 1) as u64) == 0,
            2 <= n < 4,
    ;
}

impl<P: Processor> View for Engine<P> {
    type V = EngineState<P>;

    closed spec fn view(&self) -> EngineState<P> {
        EngineState {
            access: self.access,
            live: Live {
                processor: self.core.processor,
                mirror: self.mirror@,
                last_set: by_id::<P>(self.last_set@),
            },
            commands: self.commands@,
            state_commands: self.state_commands@,
            responses: self.responses@,
            buffers: self.buffers@,
            diag: self.diag,
            latency: self.latency,
            latency_changed: self.latency_changed,
        }
    }
}

impl<P: Processor> Engine<P> {
    /// The MIDI of the last rendered block.
    pub closed spec fn midi(&self) -> MidiOut {
        self.core.midi_out
    }

    /// The buses of the current block.
    pub closed spec fn scratch(&self) -> TopologyScratch<Span> {
        self.core.bus_scratch
    }

    /// The queues have their capacities and the mirror has one entry per
    /// declared parameter.
    pub closed spec fn wf(&self) -> bool {
        &&& self.core.midi_out.wf()
        &&& self.core.bus_scratch.wf()
        &&& self.mirror.wf()
        &&& mirror::entry_ids(self.mirror@) == declared_ids::<P>()
        &&& self.last_set@.len() == P::declared().len()
        &&& self.commands.wf()
        &&& self.commands.capacity() == COMMAND_CAPACITY
        &&& self.state_commands.wf()
        &&& self.state_commands.capacity() == STATE_COMMAND_CAPACITY
        &&& self.responses.wf()
        &&& self.responses.capacity() == STATE_RESPONSE_CAPACITY
    }

    /// The mirror of a well-formed engine has one entry per declared
    /// parameter, in order.
    pub proof fn lemma_mirrors_what_is_declared(&self)
        requires
            self.wf(),
        ensures
            mirror::entry_ids(self@.live.mirror) == declared_ids::<P>(),
    {
    }

    /// What was last set is known of exactly the declared parameters.
    pub proof fn lemma_notes_what_is_declared(&self, id: u32)
        ensures
            self@.live.last_set.contains_key(id) <==> params::declares(P::declared(), id),
    {
    }

    /// Build an engine around a processor. The mirror starts at the
    /// processor's values and the latency at the one it reports.
    pub fn new(processor: P, midi_capacity: usize) -> (r: Self)
        ensures
            r.wf(),
            r@ == (EngineState {
                access: Access::Idle,
                live: Live {
                    processor,
                    mirror: processor::all_values(processor),
                    last_set: first_values(processor),
                },
                commands: Seq::empty(),
                state_commands: Seq::empty(),
                responses: Seq::empty(),
                buffers: Seq::empty(),
                diag: DiagCounters {
                    param_events_dropped: 0,
                    midi_events_dropped: 0,
                    commands_dropped: 0,
                    bus_frames_dropped: 0,
                    mirror_retries: 0,
                    state_responses_dropped: 0,
                },
                latency: processor.delay(),
                latency_changed: false,
            }),
            r.midi()@.len() == 0,
            r.midi().room() == midi_capacity,
            r.midi().lost() == 0,
            r.scratch().declared() == (if bus::topology_fault(P::buses()) is None {
                P::buses()
            } else {
                Seq::empty()
            }),
            forall|dir: bus::BusDirection| #[trigger]
                r.scratch().loads(dir) == Seq::new(
                    bus::buses_of(r.scratch().declared(), dir).len(),
                    |i: int| scratch::BusLoad::<Span>::idle(),
                ),
    {
        let readback = |id: u32| -> (value: u64)
            ensures
                value == processor.value(id),
            {
                processor.get_param(id)
            };
        let mirror = ParamMirror::new(P::params(), readback);
        let defs = P::params();
        let mut last_set: Vec<u64> = Vec::with_capacity(defs.len());
        let mut i: usize = 0;
        while i < defs.len()
            invariant
                defs@ == P::declared(),
                i <= defs.len(),
                last_set@.len() == i,
                forall|k: int|
                    0 <= k < i ==> (#[trigger] last_set@[k]) == processor.value(defs@[k].id),
            decreases defs.len() - i,
        {
            last_set.push(processor.get_param(defs[i].id));
            i += 1;
        }
        let latency: u32 = processor.latency();
        let commands: Ring<Command> = Ring::new(COMMAND_CAPACITY);
        let state_commands: Ring<StateCommand> = Ring::new(STATE_COMMAND_CAPACITY);
        let responses: Ring<StateResponse> = Ring::new(STATE_RESPONSE_CAPACITY);
        proof {
            lemma_ring_of_1024(commands.capacity() as u64);
            lemma_ring_of_2(state_commands.capacity() as u64);
            lemma_ring_of_2(responses.capacity() as u64);
            assert(mirror@ =~= processor::all_values(processor));
            assert(mirror::entry_ids(mirror@) =~= declared_ids::<P>());
            assert forall|id: u32| params::declares(P::declared(), id) implies #[trigger] by_id::<
                P,
            >(last_set@)[id] == processor.value(id) by {
                params::lemma_param_index(P::declared(), id);
            }
            assert(by_id::<P>(last_set@) =~= first_values(processor));
        }
        Engine {
            core: AudioCore {
                processor,
                midi_out: MidiOut::with_capacity(midi_capacity),
                bus_scratch: TopologyScratch::new(P::audio_buses().as_slice()),
            },
            access: Access::Idle,
            mirror,
            last_set,
            diag: DiagCounters::default(),
            commands,
            state_commands,
            responses,
            buffers: Vec::new(),
            latency,
            latency_changed: false,
        }
    }

    /// Diagnostics counters of this instance.
    pub fn diag(&self) -> (r: &DiagCounters)
        ensures
            *r == self@.diag,
    {
        &self.diag
    }

    /// Count a host automation point that found no room.
    pub(crate) fn count_dropped_param_event(&mut self)
        requires
            old(self).wf(),
        ensures
            final(self).wf(),
            final(self)@ == (EngineState {
                diag: DiagCounters {
                    param_events_dropped: diag::bumped(old(self)@.diag.param_events_dropped),
                    ..old(self)@.diag
                },
                ..old(self)@
            }),
            final(self).midi() == old(self).midi(),
            final(self).scratch() == old(self).scratch(),
    {
        DiagCounters::bump(&mut self.diag.param_events_dropped);
    }

    /// The parameter values, readable at any time.
    pub fn mirror(&self) -> (r: &ParamMirror)
        ensures
            r@ == self@.live.mirror,
    {
        &self.mirror
    }

    /// Enter the audio state if nobody holds the processor.
    pub fn begin_audio(&mut self) -> (r: Option<AudioToken>)
        requires
            old(self).wf(),
        ensures
            final(self).wf(),
            r is Some <==> old(self)@.access is Idle,
            final(self)@ == (if r is Some {
                EngineState { access: Access::Audio, ..old(self)@ }
            } else {
                old(self)@
            }),
            final(self).midi() == old(self).midi(),
            final(self).scratch() == old(self).scratch(),
    {
        match self.access {
            Access::Idle => {
                self.access = Access::Audio;
                Some(AudioToken(()))
            },
            _ => None,
        }
    }

    /// Leave the audio state, giving the token back.
    pub fn end_audio(&mut self, token: AudioToken)
        requires
            old(self).wf(),
            old(self)@.access is Audio,
        ensures
            final(self).wf(),
            final(self)@ == (EngineState { access: Access::Idle, ..old(self)@ }),
            final(self).midi() == old(self).midi(),
            final(self).scratch() == old(self).scratch(),
    {
        self.access = Access::Idle;
    }

    /// Enter a direct access from the main side if nobody holds the
    /// processor.
    pub fn begin_main(&mut self) -> (r: bool)
        requires
            old(self).wf(),
        ensures
            final(self).wf(),
            r <==> old(self)@.access is Idle,
            final(self)@ == (if r {
                EngineState { access: Access::Main, ..old(self)@ }
            } else {
                old(self)@
            }),
            final(self).midi() == old(self).midi(),
            final(self).scratch() == old(self).scratch(),
    {
        match self.access {
            Access::Idle => {
                self.access = Access::Main;
                true
            },
            _ => false,
        }
    }

    /// Leave the direct access.
    pub fn end_main(&mut self)
        requires
            old(self).wf(),
            old(self)@.access is Main,
        ensures
            final(self).wf(),
            final(self)@ == (EngineState { access: Access::Idle, ..old(self)@ }),
            final(self).midi() == old(self).midi(),
            final(self).scratch() == old(self).scratch(),
    {
        self.access = Access::Idle;
    }

    /// Whether blocks are flowing.
    pub fn is_processing(&self) -> (r: bool)
        ensures
            r <==> self@.access is Audio,
    {
        match self.access {
            Access::Audio => true,
            _ => false,
        }
    }

    /// The processor and its MIDI scratch, for the holder of the token.
    pub fn audio_core(&mut self, token: &AudioToken) -> (r: &mut AudioCore<P>)
        requires
            old(self).wf(),
            old(self)@.access is Audio,
        ensures
            r.processor == old(self)@.live.processor,
            r.midi_out == old(self).midi(),
            r.midi_out.wf(),
            r.bus_scratch == old(self).scratch(),
            r.bus_scratch.wf(),
            final(r).midi_out.wf() && final(r).bus_scratch.wf() ==> final(self).wf(),
            final(self)@ == (EngineState {
                live: Live {
                    processor: final(r).processor,
                    mirror: old(self)@.live.mirror,
                    last_set: old(self)@.live.last_set,
                },
                ..old(self)@
            }),
            final(self).midi() == final(r).midi_out,
            final(self).scratch() == final(r).bus_scratch,
    {
        &mut self.core
    }

    /// The processor and its MIDI scratch, if nobody holds the processor.
    pub fn with_main(&mut self) -> (r: Option<&mut AudioCore<P>>)
        requires
            old(self).wf(),
        ensures
            match r {
                Some(core) => {
                    &&& old(self)@.access is Idle
                    &&& core.processor == old(self)@.live.processor
                    &&& core.midi_out == old(self).midi()
                    &&& core.midi_out.wf()
                    &&& core.bus_scratch == old(self).scratch()
                    &&& core.bus_scratch.wf()
                    &&& final(core).midi_out.wf() && final(core).bus_scratch.wf() ==> final(self).wf()
                    &&& final(self)@ == (EngineState {
                        live: Live {
                            processor: final(core).processor,
                            mirror: old(self)@.live.mirror,
                            last_set: old(self)@.live.last_set,
                        },
                        ..old(self)@
                    })
                    &&& final(self).midi() == final(core).midi_out
                    &&& final(self).scratch() == final(core).bus_scratch
                },
                None => {
                    &&& !(old(self)@.access is Idle)
                    &&& final(self).wf()
                    &&& final(self)@ == old(self)@
                    &&& final(self).midi() == old(self).midi()
                    &&& final(self).scratch() == old(self).scratch()
                },
            },
    {
        match self.access {
            Access::Idle => Some(&mut self.core),
            _ => None,
        }
    }

    /// The MIDI of the last rendered block.
    pub fn midi_out(&self, token: &AudioToken) -> (r: &MidiOut)
        requires
            self.wf(),
        ensures
            *r == self.midi(),
            r.wf(),
    {
        &self.core.midi_out
    }

    /// Set a parameter on the processor as the host's automation asks, and
    /// mirror the readback. For the side that holds the processor.
    pub fn apply_param(&mut self, id: u32, value: u64)
        requires
            old(self).wf(),
        ensures
            final(self).wf(),
            param_lands(old(self)@.live, id, value, final(self)@.live),
            final(self)@ == (EngineState { live: final(self)@.live, ..old(self)@ }),
            final(self).midi() == old(self).midi(),
            final(self).scratch() == old(self).scratch(),
    {
        self.core.processor.set_param(id, value);
        let actual: u64 = self.core.processor.get_param(id);
        proof {
            mirror::lemma_published_ids(self.mirror@, id, actual);
        }
        self.mirror.publish(id, actual);
    }

    /// Set a parameter as the editor or the bus asks, mirror the readback and
    /// note it.
    fn set_now(&mut self, id: u32, value: u64)
        requires
            old(self).wf(),
        ensures
            final(self).wf(),
            set_lands(old(self)@.live, id, value, final(self)@.live),
            final(self)@ == (EngineState { live: final(self)@.live, ..old(self)@ }),
            final(self).midi() == old(self).midi(),
            final(self).scratch() == old(self).scratch(),
    {
        self.apply_param(id, value);
        let ghost noted = self.last_set@;
        match find_param(P::params(), id) {
            Some(i) => {
                let actual: u64 = self.core.processor.get_param(id);
                self.last_set[i] = actual;
                proof {
                    let now = by_id::<P>(self.last_set@);
                    let was = by_id::<P>(noted).insert(id, actual);
                    assert forall|other: u32| params::declares(P::declared(), other) implies
                        #[trigger] now[other] == was[other] by {
                        params::lemma_param_index(P::declared(), other);
                        params::lemma_param_index(P::declared(), id);
                    }
                    assert(now =~= was);
                }
            },
            None => {},
        }
    }

    /// Whether a parameter's last change by the editor or the bus arrived and
    /// left it at this value.
    pub fn is_in_force(&self, id: u32, value: u64) -> (r: bool)
        requires
            self.wf(),
        ensures
            r == in_force(self@, id, value),
    {
        proof {
            params::lemma_param_index(P::declared(), id);
        }
        match find_param(P::params(), id) {
            Some(i) => self.last_set[i] == value && self.last_waiting(id).is_none(),
            None => false,
        }
    }

    /// Whether the editor or the bus last set a parameter to this value, or
    /// to what reads back as it.
    pub fn is_set_to(&self, id: u32, value: u64) -> (r: bool)
        requires
            self.wf(),
        ensures
            r == set_to(self@, id, value),
    {
        proof {
            params::lemma_param_index(P::declared(), id);
        }
        match (self.last_waiting(id), find_param(P::params(), id)) {
            (Some(last), _) => last == value,
            (None, Some(i)) => self.last_set[i] == value,
            (None, None) => false,
        }
    }

    /// The last value that waits for a parameter.
    fn last_waiting(&self, id: u32) -> (r: Option<u64>)
        requires
            self.wf(),
        ensures
            r == waiting(self@.commands, id),
            r is Some <==> awaits(self@.commands, id),
    {
        let mut found: Option<u64> = None;
        let mut i: usize = 0;
        proof {
            self.commands.lemma_fits();
            assert(self@.commands.take(0) =~= Seq::empty());
        }
        loop
            invariant
                self.wf(),
                i <= self@.commands.len() <= COMMAND_CAPACITY,
                found == waiting(self@.commands.take(i as int), id),
            ensures
                i == self@.commands.len(),
            decreases self@.commands.len() - i,
        {
            match self.commands.get(i) {
                None => {
                    break;
                },
                Some(command) => {
                    proof {
                        let next = self@.commands.take(i + 1);
                        assert(next.drop_last() =~= self@.commands.take(i as int));
                        assert(next.last() == *command);
                    }
                    match *command {
                        Command::SetParam { id: changed, value } => {
                            if changed == id {
                                found = Some(value);
                            }
                        },
                        Command::Reset => {},
                    }
                },
            }
            i += 1;
        }
        proof {
            assert(self@.commands.take(i as int) =~= self@.commands);
            lemma_waiting(self@.commands, id);
        }
        found
    }

    /// Bring waiting changes of a parameter up to date with a newer one.
    fn overtake(&mut self, id: u32, value: u64)
        requires
            old(self).wf(),
        ensures
            final(self).wf(),
            final(self)@ == (EngineState {
                commands: overtaken(old(self)@.commands, id, value),
                ..old(self)@
            }),
            final(self).midi() == old(self).midi(),
            final(self).scratch() == old(self).scratch(),
    {
        let ghost all = self@.commands;
        let mut i: usize = 0;
        proof {
            self.commands.lemma_fits();
        }
        loop
            invariant
                self.wf(),
                self.midi() == old(self).midi(),
                self.scratch() == old(self).scratch(),
                all == old(self)@.commands,
                i <= all.len() <= COMMAND_CAPACITY,
                self@.commands.len() == all.len(),
                forall|k: int|
                    0 <= k < all.len() ==> (#[trigger] self@.commands[k]) == (if k < i {
                        overtaken(all, id, value)[k]
                    } else {
                        all[k]
                    }),
                self@ == (EngineState { commands: self@.commands, ..old(self)@ }),
            ensures
                i == all.len(),
            decreases all.len() - i,
        {
            let hit: bool = match self.commands.get(i) {
                None => {
                    break;
                },
                Some(Command::SetParam { id: changed, .. }) => *changed == id,
                Some(Command::Reset) => false,
            };
            if hit {
                self.commands.set(i, Command::SetParam { id, value });
            }
            i += 1;
        }
        proof {
            assert(self@.commands =~= overtaken(all, id, value));
        }
    }

    /// Run every waiting command, the oldest first. The result says whether a
    /// parameter was changed.
    fn run_commands(&mut self) -> (notify: bool)
        requires
            old(self).wf(),
        ensures
            final(self).wf(),
            final(self).midi() == old(self).midi(),
            final(self).scratch() == old(self).scratch(),
            commands_run(old(self)@.live, old(self)@.commands, final(self)@.live),
            notify == has_change(old(self)@.commands),
            final(self)@ == (EngineState {
                live: final(self)@.live,
                commands: Seq::empty(),
                ..old(self)@
            }),
    {
        let mut notify: bool = false;
        let ghost all = self@.commands;
        let ghost mut done: int = 0;
        proof {
            assert(all.take(0) =~= Seq::empty());
            assert(all.skip(0) =~= all);
        }
        loop
            invariant
                self.wf(),
                self.midi() == old(self).midi(),
                self.scratch() == old(self).scratch(),
                all == old(self)@.commands,
                0 <= done <= all.len(),
                self@.commands == all.skip(done),
                commands_run(old(self)@.live, all.take(done), self@.live),
                notify == has_change(all.take(done)),
                self@ == (EngineState {
                    live: self@.live,
                    commands: self@.commands,
                    ..old(self)@
                }),
            ensures
                done == all.len(),
            decreases all.len() - done,
        {
            let ghost mid = self@.live;
            match self.commands.pop() {
                None => {
                    break;
                },
                Some(command) => {
                    let ghost before = all.take(done);
                    let ghost next = all.take(done + 1);
                    proof {
                        assert(command == all[done]);
                        assert(next.drop_last() =~= before);
                        assert(next.last() == command);
                        assert(all.skip(done).drop_first() =~= all.skip(done + 1));
                    }
                    match command {
                        Command::SetParam { id, value } => {
                            self.set_now(id, value);
                            notify = true;
                            proof {
                                assert(next[done] is SetParam);
                                assert(has_change(next));
                            }
                        },
                        Command::Reset => {
                            self.core.processor.reset();
                            proof {
                                if has_change(before) {
                                    let i = choose|i: int|
                                        0 <= i < before.len() && (#[trigger] before[i]) is SetParam;
                                    assert(next[i] is SetParam);
                                }
                                if has_change(next) {
                                    let i = choose|i: int|
                                        0 <= i < next.len() && (#[trigger] next[i]) is SetParam;
                                    assert(before[i] is SetParam);
                                }
                            }
                        },
                    }
                    proof {
                        assert(command_runs(mid, next.last(), self@.live));
                        done = done + 1;
                    }
                },
            }
        }
        proof {
            assert(all.take(done) =~= all);
            assert(all.skip(done) =~= Seq::empty());
        }
        notify
    }

    fn push_command(&mut self, command: Command) -> (r: bool)
        requires
            old(self).wf(),
        ensures
            final(self).wf(),
            r <==> old(self)@.commands.len() < COMMAND_CAPACITY,
            final(self)@ == (if r {
                EngineState { commands: old(self)@.commands.push(command), ..old(self)@ }
            } else {
                EngineState {
                    diag: DiagCounters {
                        commands_dropped: diag::bumped(old(self)@.diag.commands_dropped),
                        ..old(self)@.diag
                    },
                    ..old(self)@
                }
            }),
            final(self).midi() == old(self).midi(),
            final(self).scratch() == old(self).scratch(),
    {
        match self.commands.push(command) {
            Ok(()) => true,
            Err(_) => {
                DiagCounters::bump(&mut self.diag.commands_dropped);
                false
            },
        }
    }

    /// A parameter change from the editor or the bus: applied at once when
    /// nobody holds the processor, queued for the next block otherwise.
    /// Older changes of the parameter may still wait from when the processor
    /// was held; they are brought up to date, so that the next block does not
    /// undo this one. `false` means that it went nowhere: the queue is full,
    /// and the loss is counted.
    pub fn set_param(&mut self, id: u32, value: u64) -> (r: bool)
        requires
            old(self).wf(),
        ensures
            final(self).wf(),
            final(self).midi() == old(self).midi(),
            final(self).scratch() == old(self).scratch(),
            set_param_outcome(old(self)@, id, value, final(self)@, r),
    {
        match self.access {
            Access::Idle => {
                self.set_now(id, value);
                self.overtake(id, value);
                true
            },
            _ => self.push_command(Command::SetParam { id, value }),
        }
    }

    /// Forget audio history: at once when nobody holds the processor, at the
    /// top of the next block otherwise. `false` means that the queue is full.
    pub fn reset(&mut self) -> (r: bool)
        requires
            old(self).wf(),
        ensures
            final(self).wf(),
            final(self).midi() == old(self).midi(),
            final(self).scratch() == old(self).scratch(),
            if old(self)@.access is Idle {
                &&& r
                &&& P::resets(old(self)@.live.processor, final(self)@.live.processor)
                &&& final(self)@ == (EngineState {
                    live: Live {
                        processor: final(self)@.live.processor,
                        mirror: old(self)@.live.mirror,
                        last_set: old(self)@.live.last_set,
                    },
                    ..old(self)@
                })
            } else {
                queue_outcome(old(self)@, Command::Reset, final(self)@, r)
            },
    {
        match self.access {
            Access::Idle => {
                self.core.processor.reset();
                true
            },
            _ => self.push_command(Command::Reset),
        }
    }

    /// Start serializing state for the host.
    pub fn save_state(&mut self) -> (r: SaveStart)
        requires
            old(self).wf(),
        ensures
            final(self).wf(),
            final(self).midi() == old(self).midi(),
            final(self).scratch() == old(self).scratch(),
            match r {
                SaveStart::Done(data) => {
                    &&& old(self)@.access is Idle
                    &&& old(self)@.live.processor.saves(data@)
                    &&& final(self)@ == old(self)@
                },
                SaveStart::Pending => {
                    &&& !(old(self)@.access is Idle)
                    &&& old(self)@.state_commands.len() < STATE_COMMAND_CAPACITY
                    &&& final(self)@ == (EngineState {
                        state_commands: old(self)@.state_commands.push(StateCommand::SaveState),
                        ..old(self)@
                    })
                },
                SaveStart::Refused => {
                    &&& !(old(self)@.access is Idle)
                    &&& old(self)@.state_commands.len() == STATE_COMMAND_CAPACITY
                    &&& final(self)@ == old(self)@
                },
            },
    {
        match self.access {
            Access::Idle => SaveStart::Done(self.core.processor.save_state()),
            _ => match self.state_commands.push(StateCommand::SaveState) {
                Ok(()) => SaveStart::Pending,
                Err(_) => SaveStart::Refused,
            },
        }
    }

    /// Collect the answer to a pending save. The outer `None` means that
    /// there is no answer yet; the inner one that the answer is not a saved
    /// state.
    pub fn finish_save(&mut self) -> (r: Option<Option<Vec<u8>>>)
        requires
            old(self).wf(),
        ensures
            final(self).wf(),
            final(self).midi() == old(self).midi(),
            final(self).scratch() == old(self).scratch(),
            match r {
                None => old(self)@.responses.len() == 0 && final(self)@ == old(self)@,
                Some(data) => {
                    &&& old(self)@.responses.len() > 0
                    &&& data == (match old(self)@.responses[0] {
                        StateResponse::Saved(bytes) => Some(bytes),
                        StateResponse::Loaded { .. } => None,
                    })
                    &&& final(self)@ == (EngineState {
                        responses: old(self)@.responses.drop_first(),
                        ..old(self)@
                    })
                },
            },
    {
        match self.responses.pop() {
            None => None,
            Some(StateResponse::Saved(data)) => Some(Some(data)),
            Some(StateResponse::Loaded { .. }) => Some(None),
        }
    }

    /// Publish every parameter's value.
    fn publish_everything(&mut self)
        requires
            old(self).wf(),
        ensures
            final(self).wf(),
            final(self).midi() == old(self).midi(),
            final(self).scratch() == old(self).scratch(),
            final(self)@ == (EngineState {
                live: Live {
                    processor: old(self)@.live.processor,
                    mirror: mirror::published_all(
                        old(self)@.live.mirror,
                        processor::all_values(old(self)@.live.processor),
                    ),
                    last_set: old(self)@.live.last_set,
                },
                ..old(self)@
            }),
    {
        let defs = P::params();
        let ghost values = processor::all_values(self.core.processor);
        let mut i: usize = 0;
        while i < defs.len()
            invariant
                self.wf(),
                self.midi() == old(self).midi(),
                self.scratch() == old(self).scratch(),
                defs@ == P::declared(),
                i <= defs.len(),
                values == processor::all_values(old(self)@.live.processor),
                self@ == (EngineState {
                    live: Live {
                        processor: old(self)@.live.processor,
                        mirror: mirror::published_all(
                            old(self)@.live.mirror,
                            values.take(i as int),
                        ),
                        last_set: old(self)@.live.last_set,
                    },
                    ..old(self)@
                }),
            decreases defs.len() - i,
        {
            let id: u32 = defs[i].id;
            let value: u64 = self.core.processor.get_param(id);
            proof {
                assert(values.take(i + 1).drop_last() =~= values.take(i as int));
                assert(values.take(i + 1).last() == (id, value));
                mirror::lemma_published_ids(self.mirror@, id, value);
            }
            self.mirror.publish(id, value);
            i += 1;
        }
        proof {
            assert(values.take(i as int) =~= values);
        }
    }

    fn apply_state(&mut self, data: &Vec<u8>) -> (ok: bool)
        requires
            old(self).wf(),
        ensures
            final(self).wf(),
            final(self).midi() == old(self).midi(),
            final(self).scratch() == old(self).scratch(),
            state_lands(old(self)@.live, data@, ok, final(self)@.live),
            final(self)@ == (EngineState { live: final(self)@.live, ..old(self)@ }),
    {
        let ok: bool = self.core.processor.load_state(data);
        if ok {
            self.publish_everything();
        }
        ok
    }

    /// Start restoring host state.
    pub fn load_state(&mut self, data: Vec<u8>) -> (r: LoadStart)
        requires
            old(self).wf(),
        ensures
            final(self).wf(),
            final(self).midi() == old(self).midi(),
            final(self).scratch() == old(self).scratch(),
            load_outcome(old(self)@, data@, final(self)@, r),
    {
        match self.access {
            Access::Idle => LoadStart::Done(self.apply_state(&data)),
            _ => {
                let payload: Vec<u8> = match self.buffers.pop() {
                    Some(stashed) => {
                        let mut buffer: Vec<u8> = stashed;
                        buffer.clear();
                        buffer.extend_from_slice(data.as_slice());
                        proof {
                            assert(buffer@ =~= data@);
                        }
                        buffer
                    },
                    None => data,
                };
                proof {
                    assert(self@.buffers =~= stash_after_take(old(self)@.buffers));
                }
                let ghost queued = StateCommand::LoadState(payload);
                match self.state_commands.push(StateCommand::LoadState(payload)) {
                    Ok(()) => {
                        proof {
                            assert(is_load_of(queued, data@));
                            assert(self@.state_commands.last() == queued);
                            assert(self@.state_commands.drop_last() =~= old(self)@.state_commands);
                        }
                        LoadStart::Pending
                    },
                    Err(_) => {
                        DiagCounters::bump(&mut self.diag.commands_dropped);
                        LoadStart::Refused
                    },
                }
            },
        }
    }

    /// Collect the answer to a pending load; `None` means that there is none
    /// yet. The payload's buffer is stashed for the next load.
    pub fn finish_load(&mut self) -> (r: Option<bool>)
        requires
            old(self).wf(),
        ensures
            final(self).wf(),
            final(self).midi() == old(self).midi(),
            final(self).scratch() == old(self).scratch(),
            match r {
                None => old(self)@.responses.len() == 0 && final(self)@ == old(self)@,
                Some(loaded) => {
                    &&& old(self)@.responses.len() > 0
                    &&& loaded == restored(old(self)@.responses[0])
                    &&& final(self)@ == (EngineState {
                        responses: old(self)@.responses.drop_first(),
                        buffers: (match old(self)@.responses[0] {
                            StateResponse::Loaded { ok, buffer } => old(self)@.buffers.push(
                                buffer,
                            ),
                            StateResponse::Saved(_) => old(self)@.buffers,
                        }),
                        ..old(self)@
                    })
                },
            },
    {
        match self.responses.pop() {
            None => None,
            Some(StateResponse::Loaded { ok, buffer }) => {
                self.buffers.push(buffer);
                Some(ok)
            },
            Some(StateResponse::Saved(_)) => Some(false),
        }
    }

    /// Whether state was restored without its answer having been collected
    /// yet.
    pub fn has_restored(&self) -> (r: bool)
        requires
            self.wf(),
        ensures
            r == restoring(self@.responses),
    {
        let mut i: usize = 0;
        while i < STATE_RESPONSE_CAPACITY
            invariant
                self.wf(),
                i <= STATE_RESPONSE_CAPACITY,
                forall|k: int|
                    0 <= k < i && k < self@.responses.len() ==> !restored(
                        #[trigger] self@.responses[k],
                    ),
            decreases STATE_RESPONSE_CAPACITY - i,
        {
            match self.responses.get(i) {
                Some(StateResponse::Loaded { ok, .. }) => {
                    if *ok {
                        proof {
                            assert(restored(self@.responses[i as int]));
                        }
                        return true;
                    }
                },
                Some(StateResponse::Saved(_)) => {},
                None => {},
            }
            i += 1;
        }
        proof {
            self.responses.lemma_fits();
        }
        false
    }

    /// Record the latency to report to hosts.
    pub fn set_latency(&mut self, latency: u32)
        requires
            old(self).wf(),
        ensures
            final(self).wf(),
            final(self)@ == (EngineState { latency, ..old(self)@ }),
            final(self).midi() == old(self).midi(),
            final(self).scratch() == old(self).scratch(),
    {
        self.latency = latency;
    }

    /// The latency to report to hosts.
    pub fn latency(&self) -> (r: u32)
        ensures
            r == self@.latency,
    {
        self.latency
    }

    /// Whether the latency changed since the last call.
    pub fn take_latency_changed(&mut self) -> (r: bool)
        requires
            old(self).wf(),
        ensures
            final(self).wf(),
            r == old(self)@.latency_changed,
            final(self)@ == (EngineState { latency_changed: false, ..old(self)@ }),
            final(self).midi() == old(self).midi(),
            final(self).scratch() == old(self).scratch(),
    {
        let r: bool = self.latency_changed;
        self.latency_changed = false;
        r
    }

    fn answer(&mut self, response: StateResponse)
        requires
            old(self).wf(),
        ensures
            final(self).wf(),
            final(self).midi() == old(self).midi(),
            final(self).scratch() == old(self).scratch(),
            final(self)@ == (if old(self)@.responses.len() < STATE_RESPONSE_CAPACITY {
                EngineState { responses: old(self)@.responses.push(response), ..old(self)@ }
            } else {
                EngineState {
                    diag: DiagCounters {
                        state_responses_dropped: diag::bumped(
                            old(self)@.diag.state_responses_dropped,
                        ),
                        ..old(self)@.diag
                    },
                    ..old(self)@
                }
            }),
    {
        match self.responses.push(response) {
            Ok(()) => {},
            Err(_) => {
                DiagCounters::bump(&mut self.diag.state_responses_dropped);
            },
        }
    }

    /// Apply a change the host wants applied now. While the main side holds
    /// the processor it cannot be; it is then refused and counted rather than
    /// left to surface in some later block.
    pub fn flush_param(&mut self, id: u32, value: u64) -> (r: bool)
        requires
            old(self).wf(),
        ensures
            final(self).wf(),
            final(self).midi() == old(self).midi(),
            final(self).scratch() == old(self).scratch(),
            if old(self)@.access is Main {
                &&& !r
                &&& final(self)@ == (EngineState {
                    diag: DiagCounters {
                        commands_dropped: diag::bumped(old(self)@.diag.commands_dropped),
                        ..old(self)@.diag
                    },
                    ..old(self)@
                })
            } else {
                &&& r
                &&& param_lands(old(self)@.live, id, value, final(self)@.live)
                &&& final(self)@ == (EngineState { live: final(self)@.live, ..old(self)@ })
            },
    {
        match self.access {
            Access::Main => {
                DiagCounters::bump(&mut self.diag.commands_dropped);
                false
            },
            _ => {
                self.apply_param(id, value);
                true
            },
        }
    }

    /// Go on with a block: apply the changes that are due, up to the next
    /// stretch of frames to render. `None` means that the block is done.
    pub fn next_render(&mut self, plan: &mut BlockPlan, events: &Vec<ParamEvent>) -> (r: Option<
        (u32, u32),
    >)
        requires
            old(self).wf(),
            old(self)@.access is Audio,
            old(plan).wf(events@),
        ensures
            final(self).wf(),
            final(self).midi() == old(self).midi(),
            final(self).scratch() == old(self).scratch(),
            final(self)@ == (EngineState { live: final(self)@.live, ..old(self)@ }),
            final(plan).wf(events@),
            ({
                let steps = old(plan).left(events@);
                let n = due(steps);
                &&& changes_land(old(self)@.live, steps.take(n), final(self)@.live)
                &&& match r {
                    Some((start, end)) => {
                        &&& n < steps.len()
                        &&& steps[n] == (Step::Render { start, end })
                        &&& final(plan).left(events@) == steps.skip(n + 1)
                    },
                    None => n == steps.len() && final(plan).left(events@).len() == 0,
                }
            }),
    {
        let ghost steps = plan.left(events@);
        let ghost mut done: int = 0;
        proof {
            assert(steps.take(0) =~= Seq::empty());
            assert(steps.skip(0) =~= steps);
        }
        loop
            invariant
                self.wf(),
                self.midi() == old(self).midi(),
                self.scratch() == old(self).scratch(),
                self@ == (EngineState { live: self@.live, ..old(self)@ }),
                plan.wf(events@),
                steps == old(plan).left(events@),
                0 <= done <= steps.len(),
                plan.left(events@) == steps.skip(done),
                forall|k: int| 0 <= k < done ==> (#[trigger] steps[k]) is Apply,
                changes_land(old(self)@.live, steps.take(done), self@.live),
            decreases steps.len() - done,
        {
            let ghost mid = self@.live;
            match plan.next_step(events) {
                None => {
                    proof {
                        lemma_due(steps, done);
                    }
                    return None;
                },
                Some(Step::Render { start, end }) => {
                    proof {
                        assert(steps[done] == (Step::Render { start, end }));
                        assert(steps.skip(done).drop_first() =~= steps.skip(done + 1));
                        lemma_due(steps, done);
                    }
                    return Some((start, end));
                },
                Some(Step::Apply { id, value }) => {
                    self.apply_param(id, value);
                    proof {
                        let next = steps.take(done + 1);
                        assert(steps[done] == (Step::Apply { id, value }));
                        assert(next.drop_last() =~= steps.take(done));
                        assert(steps.skip(done).drop_first() =~= steps.skip(done + 1));
                        assert(step_lands(mid, next.last(), self@.live));
                        done = done + 1;
                    }
                },
            }
        }
    }

    /// Count the MIDI events that the last segment lost.
    pub fn count_midi_drops(&mut self)
        requires
            old(self).wf(),
        ensures
            final(self).wf(),
            final(self).midi() == old(self).midi(),
            final(self).scratch() == old(self).scratch(),
            final(self)@ == (EngineState {
                diag: DiagCounters {
                    midi_events_dropped: wrapped_sum(
                        old(self)@.diag.midi_events_dropped,
                        old(self).midi().lost(),
                    ),
                    ..old(self)@.diag
                },
                ..old(self)@
            }),
    {
        let lost: u64 = self.core.midi_out.dropped();
        self.diag.midi_events_dropped = self.diag.midi_events_dropped.wrapping_add(lost);
    }

    /// Drain the queues at the top of a block: every ordinary command, then
    /// at most one state command, then the latency check.
    pub fn drain_commands(&mut self) -> (report: DrainReport)
        requires
            old(self).wf(),
            old(self)@.access is Audio,
        ensures
            final(self).wf(),
            final(self).midi() == old(self).midi(),
            final(self).scratch() == old(self).scratch(),
            drained(old(self)@, final(self)@, report.notify_main),
    {
        let mut notify: bool = self.run_commands();
        let ghost mid = self@.live;
        let ghost mut given: Option<StateResponse> = None;
        match self.state_commands.pop() {
            None => {},
            Some(StateCommand::LoadState(data)) => {
                let ok: bool = self.apply_state(&data);
                let response = StateResponse::Loaded { ok, buffer: data };
                proof {
                    given = Some(response);
                }
                self.answer(response);
                if ok {
                    notify = true;
                }
            },
            Some(StateCommand::SaveState) => {
                let response = StateResponse::Saved(self.core.processor.save_state());
                proof {
                    given = Some(response);
                }
                self.answer(response);
            },
        }
        let latency: u32 = self.core.processor.latency();
        if latency != self.latency {
            self.latency = latency;
            self.latency_changed = true;
            notify = true;
        }
        proof {
            assert(drain_steps(old(self)@, mid, given, self@, notify));
        }
        DrainReport { notify_main: notify }
    }
}

/// The sum of two counters, wrapping at the end of their range.
pub open spec fn wrapped_sum(a: u64, b: u64) -> u64 {
    ((a + b) % 0x1_0000_0000_0000_0000) as u64
}

/// How many changes come before the next stretch to render.
pub open spec fn due(steps: Seq<Step>) -> int
    decreases steps.len(),
{
    if steps.len() > 0 && steps[0] is Apply {
        1 + due(steps.drop_first())
    } else {
        0
    }
}

proof fn lemma_due(steps: Seq<Step>, n: int)
    requires
        0 <= n <= steps.len(),
        forall|k: int| 0 <= k < n ==> (#[trigger] steps[k]) is Apply,
        n == steps.len() || !(steps[n] is Apply),
    ensures
        due(steps) == n,
    decreases n,
{
    if n > 0 {
        assert(steps[0] is Apply);
        let rest = steps.drop_first();
        assert forall|k: int| 0 <= k < n - 1 implies (#[trigger] rest[k]) is Apply by {
            assert(rest[k] == steps[k + 1]);
        }
        lemma_due(rest, n - 1);
    }
}

/// One step of a block lands: a change is applied and mirrored.
pub open spec fn step_lands<P: Processor>(before: Live<P>, step: Step, after: Live<P>) -> bool {
    step matches Step::Apply { id, value } && param_lands(before, id, value, after)
}

/// Changes of a block land in order.
pub open spec fn changes_land<P: Processor>(
    before: Live<P>,
    steps: Seq<Step>,
    after: Live<P>,
) -> bool
    decreases steps.len(),
{
    if steps.len() == 0 {
        before == after
    } else {
        exists|mid: Live<P>|
            changes_land(before, steps.drop_last(), mid) && #[trigger] step_lands(
                mid,
                steps.last(),
                after,
            )
    }
}

/// A command is queued, or counted as dropped when there is no room.
pub open spec fn queue_outcome<P: Processor>(
    before: EngineState<P>,
    command: Command,
    after: EngineState<P>,
    r: bool,
) -> bool {
    &&& r <==> before.commands.len() < COMMAND_CAPACITY
    &&& after == (if r {
        EngineState { commands: before.commands.push(command), ..before }
    } else {
        EngineState {
            diag: DiagCounters {
                commands_dropped: diag::bumped(before.diag.commands_dropped),
                ..before.diag
            },
            ..before
        }
    })
}

/// What setting a parameter from outside does: while nobody holds the
/// processor it lands at once and everything else goes on waiting; otherwise
/// it is queued.
pub open spec fn set_param_outcome<P: Processor>(
    before: EngineState<P>,
    id: u32,
    value: u64,
    after: EngineState<P>,
    r: bool,
) -> bool {
    if before.access is Idle {
        &&& r
        &&& set_lands(before.live, id, value, after.live)
        &&& after == (EngineState {
            live: after.live,
            commands: overtaken(before.commands, id, value),
            ..before
        })
    } else {
        queue_outcome(before, Command::SetParam { id, value }, after, r)
    }
}

/// The last value that waits for a parameter.
pub open spec fn waiting(commands: Seq<Command>, id: u32) -> Option<u64>
    decreases commands.len(),
{
    if commands.len() == 0 {
        None
    } else {
        match commands.last() {
            Command::SetParam { id: changed, value } if changed == id => Some(value),
            _ => waiting(commands.drop_last(), id),
        }
    }
}

/// A value waits exactly when a change does.
pub proof fn lemma_waiting(commands: Seq<Command>, id: u32)
    ensures
        waiting(commands, id) is Some <==> awaits(commands, id),
    decreases commands.len(),
{
    if commands.len() > 0 {
        let rest = commands.drop_last();
        lemma_waiting(rest, id);
        assert(commands.last() == commands[commands.len() - 1]);
        if awaits(rest, id) {
            let i = choose|i: int| 0 <= i < rest.len() && changes(#[trigger] rest[i], id);
            assert(changes(commands[i], id));
        }
        if awaits(commands, id) && !changes(commands.last(), id) {
            let i = choose|i: int| 0 <= i < commands.len() && changes(#[trigger] commands[i], id);
            assert(changes(rest[i], id));
        }
    }
}

/// Another command leaves what waits for a parameter alone unless it changes
/// that parameter.
pub proof fn lemma_waiting_push(commands: Seq<Command>, command: Command, id: u32)
    ensures
        waiting(commands.push(command), id) == (match command {
            Command::SetParam { id: changed, value } if changed == id => Some(value),
            _ => waiting(commands, id),
        }),
{
    assert(commands.push(command).drop_last() =~= commands);
}

/// After a newer change overtook what waits, the newer value waits for its
/// parameter if anything does, and nothing changed for the others.
pub proof fn lemma_waiting_overtaken(commands: Seq<Command>, id: u32, value: u64, other: u32)
    ensures
        waiting(overtaken(commands, id, value), other) == (if other == id && waiting(
            commands,
            id,
        ) is Some {
            Some(value)
        } else {
            waiting(commands, other)
        }),
    decreases commands.len(),
{
    if commands.len() > 0 {
        let rest = commands.drop_last();
        lemma_waiting_overtaken(rest, id, value, other);
        assert(overtaken(commands, id, value).drop_last() =~= overtaken(rest, id, value));
        assert(overtaken(commands, id, value).last() == (if changes(commands.last(), id) {
            Command::SetParam { id, value }
        } else {
            commands.last()
        }));
    }
}

/// Whether a state command restores exactly these bytes.
pub open spec fn is_load_of(command: StateCommand, data: Seq<u8>) -> bool {
    command matches StateCommand::LoadState(payload) && payload@ == data
}

/// The buffers left after one was taken for a payload, if there was one.
pub open spec fn stash_after_take(buffers: Seq<Vec<u8>>) -> Seq<Vec<u8>> {
    if buffers.len() > 0 {
        buffers.drop_last()
    } else {
        buffers
    }
}

/// What starting a load does.
pub open spec fn load_outcome<P: Processor>(
    before: EngineState<P>,
    data: Seq<u8>,
    after: EngineState<P>,
    r: LoadStart,
) -> bool {
    match r {
        LoadStart::Done(ok) => {
            &&& before.access is Idle
            &&& state_lands(before.live, data, ok, after.live)
            &&& after == (EngineState { live: after.live, ..before })
        },
        LoadStart::Pending => {
            &&& !(before.access is Idle)
            &&& before.state_commands.len() < STATE_COMMAND_CAPACITY
            &&& after.state_commands.len() == before.state_commands.len() + 1
            &&& after.state_commands.drop_last() == before.state_commands
            &&& is_load_of(after.state_commands.last(), data)
            &&& after == (EngineState {
                state_commands: after.state_commands,
                buffers: stash_after_take(before.buffers),
                ..before
            })
        },
        LoadStart::Refused => {
            &&& !(before.access is Idle)
            &&& before.state_commands.len() == STATE_COMMAND_CAPACITY
            &&& after == (EngineState {
                buffers: stash_after_take(before.buffers),
                diag: DiagCounters {
                    commands_dropped: diag::bumped(before.diag.commands_dropped),
                    ..before.diag
                },
                ..before
            })
        },
    }
}

/// As long as at most as many state operations are under way as answers fit,
/// a drain never loses an answer, and no operation is lost or duplicated.
pub proof fn law_answers_never_overflow<P: Processor>(
    before: EngineState<P>,
    after: EngineState<P>,
    notify: bool,
)
    requires
        drained(before, after, notify),
        before.state_commands.len() + before.responses.len() <= STATE_RESPONSE_CAPACITY,
    ensures
        after.diag == before.diag,
        after.state_commands.len() + after.responses.len() == before.state_commands.len()
            + before.responses.len(),
{
    let (mid, answer) = choose|mid: Live<P>, answer: Option<StateResponse>| #[trigger]
        drain_steps(before, mid, answer, after, notify);
    assert(drain_steps(before, mid, answer, after, notify));
}

/// A drain leaves no ordinary command waiting, however many there were, and
/// takes exactly one state command if one waits, however many commands came
/// with it.
pub proof fn law_neither_queue_starves_the_other<P: Processor>(
    before: EngineState<P>,
    after: EngineState<P>,
    notify: bool,
)
    requires
        drained(before, after, notify),
    ensures
        after.commands.len() == 0,
        before.state_commands.len() > 0 ==> after.state_commands
            == before.state_commands.drop_first(),
        before.state_commands.len() == 0 ==> after.state_commands == before.state_commands,
{
    let (mid, answer) = choose|mid: Live<P>, answer: Option<StateResponse>| #[trigger]
        drain_steps(before, mid, answer, after, notify);
    assert(drain_steps(before, mid, answer, after, notify));
}

/// A latency change is reported by the drain that sees it and by no later
/// one: draining again with nothing waiting changes nothing and notifies
/// nobody.
pub proof fn law_a_latency_change_is_reported_once<P: Processor>(
    before: EngineState<P>,
    mid: EngineState<P>,
    after: EngineState<P>,
    first: bool,
    second: bool,
)
    requires
        drained(before, mid, first),
        mid.state_commands.len() == 0,
        drained(mid, after, second),
    ensures
        mid.latency != before.latency ==> first && mid.latency_changed,
        mid.latency == mid.live.processor.delay(),
        after == mid,
        !second,
{
    let (m1, a1) = choose|m: Live<P>, a: Option<StateResponse>| #[trigger]
        drain_steps(before, m, a, mid, first);
    assert(drain_steps(before, m1, a1, mid, first));
    let (m2, a2) = choose|m: Live<P>, a: Option<StateResponse>| #[trigger]
        drain_steps(mid, m, a, after, second);
    assert(drain_steps(mid, m2, a2, after, second));
    assert(mid.commands =~= Seq::empty());
    assert(!has_change(mid.commands));
    assert(after.live == mid.live);
}

/// A change queued while the processor is held lands at the next drain, right
/// behind whatever was queued before it, and the drain notifies the main side.
pub proof fn law_a_queued_change_lands_at_the_next_drain<P: Processor>(
    before: EngineState<P>,
    id: u32,
    value: u64,
    queued: EngineState<P>,
    after: EngineState<P>,
    notify: bool,
)
    requires
        !(before.access is Idle),
        before.state_commands.len() == 0,
        set_param_outcome(before, id, value, queued, true),
        drained(queued, after, notify),
    ensures
        notify,
        exists|start: Live<P>|
            commands_run(before.live, before.commands, start) && #[trigger] set_lands(
                start,
                id,
                value,
                after.live,
            ),
{
    let (mid, answer) = choose|mid: Live<P>, answer: Option<StateResponse>| #[trigger]
        drain_steps(queued, mid, answer, after, notify);
    assert(drain_steps(queued, mid, answer, after, notify));
    let commands = queued.commands;
    assert(commands.last() == (Command::SetParam { id, value }));
    assert(commands[commands.len() - 1] is SetParam);
    assert(has_change(commands));
    let start = choose|start: Live<P>|
        commands_run(queued.live, commands.drop_last(), start) && #[trigger] command_runs(
            start,
            commands.last(),
            mid,
        );
    assert(commands.drop_last() =~= before.commands);
    assert(set_lands(start, id, value, after.live));
}

/// A change while nobody holds the processor lands at once and leaves
/// everything that waits as it is, unless an older change of the same
/// parameter is among it.
pub proof fn law_a_change_while_stopped_leaves_the_rest_waiting<P: Processor>(
    before: EngineState<P>,
    id: u32,
    value: u64,
    after: EngineState<P>,
    r: bool,
)
    requires
        before.access is Idle,
        set_param_outcome(before, id, value, after, r),
    ensures
        r,
        set_lands(before.live, id, value, after.live),
        after.commands.len() == before.commands.len(),
        !awaits(before.commands, id) ==> after.commands == before.commands,
        forall|i: int|
            0 <= i < before.commands.len() && !changes(#[trigger] before.commands[i], id)
                ==> after.commands[i] == before.commands[i],
{
    if !awaits(before.commands, id) {
        assert forall|i: int| 0 <= i < before.commands.len() implies after.commands[i]
            == before.commands[i] by {
            assert(!changes(before.commands[i], id));
        }
        assert(after.commands =~= before.commands);
    }
}

/// The plugin makes `kept(id, value)` of every value that a parameter is set
/// to: the value itself, or what clamping or rounding leaves of it.
pub open spec fn keeps<P: Processor>(kept: spec_fn(u32, u64) -> u64) -> bool {
    forall|a: P, id: u32, value: u64, b: P| #[trigger]
        P::sets(a, id, value, b) ==> b.value(id) == kept(id, value)
}

/// The value a parameter has once everything that waits has run: what the
/// plugin makes of the last one that waits, or else the one in force.
pub open spec fn pending<P: Processor>(
    commands: Seq<Command>,
    live: Live<P>,
    id: u32,
    kept: spec_fn(u32, u64) -> u64,
) -> u64 {
    match waiting(commands, id) {
        Some(value) => kept(id, value),
        None => live.processor.value(id),
    }
}

/// The value that the editor or the bus last gave a parameter, once everything
/// that waits has run, whatever automation made of it since.
pub open spec fn claimed<P: Processor>(
    commands: Seq<Command>,
    live: Live<P>,
    id: u32,
    kept: spec_fn(u32, u64) -> u64,
) -> u64 {
    match waiting(commands, id) {
        Some(value) => kept(id, value),
        None => live.last_set[id],
    }
}

/// Whatever waits, once it has run each parameter has the value that was
/// pending for it, and what was last set is what was claimed.
pub proof fn law_commands_settle_the_values<P: Processor>(
    before: Live<P>,
    commands: Seq<Command>,
    after: Live<P>,
    kept: spec_fn(u32, u64) -> u64,
    id: u32,
)
    requires
        commands_run(before, commands, after),
        keeps::<P>(kept),
    ensures
        isolated::<P>() ==> after.processor.value(id) == pending(commands, before, id, kept),
        after.last_set.contains_key(id) <==> before.last_set.contains_key(id),
        before.last_set.contains_key(id) ==> after.last_set[id] == claimed(
            commands,
            before,
            id,
            kept,
        ),
    decreases commands.len(),
{
    if commands.len() > 0 {
        let rest = commands.drop_last();
        let mid = choose|mid: Live<P>|
            commands_run(before, rest, mid) && #[trigger] command_runs(mid, commands.last(), after);
        law_commands_settle_the_values(before, rest, mid, kept, id);
        match commands.last() {
            Command::SetParam { id: changed, value } => {
                assert(P::sets(mid.processor, changed, value, after.processor));
                if changed != id && isolated::<P>() {
                    assert(after.processor.value(id) == mid.processor.value(id));
                }
            },
            Command::Reset => {
                assert(P::resets(mid.processor, after.processor));
                if isolated::<P>() {
                    assert(after.processor.value(id) == mid.processor.value(id));
                }
            },
        }
    }
}

/// Whether the next state command restores state.
pub open spec fn loads_next(state_commands: Seq<StateCommand>) -> bool {
    state_commands.len() > 0 && state_commands[0] is LoadState
}

/// A drain that restores no state settles the values: nothing waits any more
/// and each parameter has the value that was pending for it.
pub proof fn law_a_drain_settles_the_values<P: Processor>(
    before: EngineState<P>,
    after: EngineState<P>,
    notify: bool,
    kept: spec_fn(u32, u64) -> u64,
    id: u32,
)
    requires
        drained(before, after, notify),
        !loads_next(before.state_commands),
        isolated::<P>(),
        keeps::<P>(kept),
    ensures
        after.commands == Seq::<Command>::empty(),
        after.live.processor.value(id) == pending(before.commands, before.live, id, kept),
        pending(after.commands, after.live, id, kept) == pending(
            before.commands,
            before.live,
            id,
            kept,
        ),
{
    let (mid, answer) = choose|mid: Live<P>, answer: Option<StateResponse>| #[trigger]
        drain_steps(before, mid, answer, after, notify);
    assert(drain_steps(before, mid, answer, after, notify));
    law_commands_settle_the_values(before.live, before.commands, mid, kept, id);
}

/// Whatever a drain does, restoring state included, what was last set is what
/// was claimed before.
pub proof fn law_a_drain_keeps_the_claims<P: Processor>(
    before: EngineState<P>,
    after: EngineState<P>,
    notify: bool,
    kept: spec_fn(u32, u64) -> u64,
    id: u32,
)
    requires
        drained(before, after, notify),
        keeps::<P>(kept),
        before.live.last_set.contains_key(id),
    ensures
        after.commands == Seq::<Command>::empty(),
        after.live.last_set.contains_key(id),
        claimed(after.commands, after.live, id, kept) == claimed(
            before.commands,
            before.live,
            id,
            kept,
        ),
{
    let (mid, answer) = choose|mid: Live<P>, answer: Option<StateResponse>| #[trigger]
        drain_steps(before, mid, answer, after, notify);
    assert(drain_steps(before, mid, answer, after, notify));
    law_commands_settle_the_values(before.live, before.commands, mid, kept, id);
}

/// A mirror holds the processor's value of every declared parameter.
pub open spec fn truthful<P: Processor>(live: Live<P>) -> bool {
    live.mirror == processor::all_values(live.processor)
}

/// No two declared parameters share an id.
pub open spec fn distinct_ids<P: Processor>() -> bool {
    forall|i: int, j: int|
        0 <= i < j < P::declared().len() ==> (#[trigger] P::declared()[i]).id != (
        #[trigger] P::declared()[j]).id
}

/// Setting a parameter, resetting, and refusing a state disturb no other
/// parameter's value.
pub open spec fn isolated<P: Processor>() -> bool {
    &&& forall|a: P, id: u32, value: u64, b: P, other: u32|
        #![trigger P::sets(a, id, value, b), b.value(other)]
        P::sets(a, id, value, b) && other != id ==> b.value(other) == a.value(other)
    &&& forall|a: P, b: P, id: u32|
        #![trigger P::resets(a, b), b.value(id)]
        P::resets(a, b) ==> b.value(id) == a.value(id)
    &&& forall|a: P, data: Seq<u8>, b: P, id: u32|
        #![trigger P::loads(a, data, false, b), b.value(id)]
        P::loads(a, data, false, b) ==> b.value(id) == a.value(id)
}

proof fn lemma_values_index<P: Processor>(p: P, i: int)
    requires
        distinct_ids::<P>(),
        0 <= i < P::declared().len(),
    ensures
        mirror::entry_index(processor::all_values(p), P::declared()[i].id) == Some(i),
{
    let id = P::declared()[i].id;
    mirror::lemma_entry_index(processor::all_values(p), id);
    assert(processor::all_values(p)[i].0 == id);
}

proof fn lemma_param_keeps_truth<P: Processor>(
    before: Live<P>,
    id: u32,
    value: u64,
    after: Live<P>,
)
    requires
        distinct_ids::<P>(),
        isolated::<P>(),
        truthful(before),
        lands(before, id, value, after),
    ensures
        truthful(after),
{
    let old_values = processor::all_values(before.processor);
    let new_values = processor::all_values(after.processor);
    mirror::lemma_entry_index(old_values, id);
    assert forall|i: int| 0 <= i < P::declared().len() implies after.mirror[i]
        == new_values[i] by {
        if P::declared()[i].id == id {
            lemma_values_index(before.processor, i);
        } else {
            assert(after.processor.value(P::declared()[i].id) == before.processor.value(
                P::declared()[i].id,
            ));
            if let Some(k) = mirror::entry_index(old_values, id) {
                assert(old_values[k].0 == id);
            }
        }
    }
    assert(after.mirror =~= new_values);
}

proof fn lemma_everything_published<P: Processor>(start: Seq<(u32, u64)>, p: P, n: int)
    requires
        distinct_ids::<P>(),
        mirror::entry_ids(start) == declared_ids::<P>(),
        0 <= n <= P::declared().len(),
    ensures
        mirror::published_all(start, processor::all_values(p).take(n)).len() == start.len(),
        mirror::entry_ids(mirror::published_all(start, processor::all_values(p).take(n)))
            == declared_ids::<P>(),
        forall|i: int|
            0 <= i < n ==> (#[trigger] mirror::published_all(
                start,
                processor::all_values(p).take(n),
            )[i]) == processor::all_values(p)[i],
    decreases n,
{
    let values = processor::all_values(p);
    if n > 0 {
        lemma_everything_published(start, p, n - 1);
        let so_far = mirror::published_all(start, values.take(n - 1));
        let d = P::declared()[n - 1];
        assert(values.take(n).drop_last() =~= values.take(n - 1));
        assert(values.take(n).last() == (d.id, p.value(d.id)));
        mirror::lemma_published_ids(so_far, d.id, p.value(d.id));
        assert(mirror::entry_ids(values) =~= declared_ids::<P>());
        mirror::lemma_index_by_ids(so_far, values, d.id);
        lemma_values_index(p, n - 1);
        assert(so_far.len() == mirror::entry_ids(so_far).len());
    } else {
        assert(values.take(0) =~= Seq::empty());
    }
}

/// After a restored state the mirror holds every value anew, whatever it held
/// before.
pub proof fn law_a_restored_state_is_mirrored<P: Processor>(
    before: Live<P>,
    data: Seq<u8>,
    after: Live<P>,
)
    requires
        distinct_ids::<P>(),
        mirror::entry_ids(before.mirror) == declared_ids::<P>(),
        state_lands(before, data, true, after),
    ensures
        truthful(after),
{
    let n = P::declared().len() as int;
    let values = processor::all_values(after.processor);
    lemma_everything_published(before.mirror, after.processor, n);
    assert(values.take(n) =~= values);
    assert(after.mirror.len() == mirror::entry_ids(after.mirror).len());
    assert(after.mirror =~= values);
}

/// For a plugin whose parameters do not disturb each other, the mirror tells
/// the truth at every step: it does after any run of commands if it did
/// before.
pub proof fn law_the_mirror_tells_the_truth<P: Processor>(
    before: Live<P>,
    commands: Seq<Command>,
    after: Live<P>,
)
    requires
        distinct_ids::<P>(),
        isolated::<P>(),
        truthful(before),
        commands_run(before, commands, after),
    ensures
        truthful(after),
    decreases commands.len(),
{
    if commands.len() > 0 {
        let mid = choose|mid: Live<P>|
            commands_run(before, commands.drop_last(), mid) && #[trigger] command_runs(
                mid,
                commands.last(),
                after,
            );
        law_the_mirror_tells_the_truth(before, commands.drop_last(), mid);
        match commands.last() {
            Command::SetParam { id, value } => {
                lemma_param_keeps_truth(mid, id, value, after);
            },
            Command::Reset => {
                assert(processor::all_values(after.processor) =~= processor::all_values(
                    mid.processor,
                )) by {
                    assert forall|i: int| 0 <= i < P::declared().len() implies (
                    #[trigger] processor::all_values(after.processor)[i])
                        == processor::all_values(mid.processor)[i] by {
                        assert(after.processor.value(P::declared()[i].id) == mid.processor.value(
                            P::declared()[i].id,
                        ));
                    }
                }
            },
        }
    }
}

/// The same holds across a whole drain, state command included.
pub proof fn law_a_drain_keeps_the_mirror_truthful<P: Processor>(
    before: EngineState<P>,
    after: EngineState<P>,
    notify: bool,
)
    requires
        distinct_ids::<P>(),
        isolated::<P>(),
        truthful(before.live),
        drained(before, after, notify),
    ensures
        truthful(after.live),
{
    let (mid, answer) = choose|mid: Live<P>, answer: Option<StateResponse>| #[trigger]
        drain_steps(before, mid, answer, after, notify);
    assert(drain_steps(before, mid, answer, after, notify));
    law_the_mirror_tells_the_truth(before.live, before.commands, mid);
    if let Some(a) = answer {
        match before.state_commands[0] {
            StateCommand::LoadState(data) => {
                if restored(a) {
                    assert(mirror::entry_ids(mid.mirror) =~= declared_ids::<P>());
                    law_a_restored_state_is_mirrored(mid, data@, after.live);
                } else {
                    assert forall|i: int| 0 <= i < P::declared().len() implies (
                    #[trigger] processor::all_values(after.live.processor)[i])
                        == processor::all_values(mid.processor)[i] by {
                        assert(P::loads(mid.processor, data@, false, after.live.processor));
                        assert(after.live.processor.value(P::declared()[i].id)
                            == mid.processor.value(P::declared()[i].id));
                    }
                    assert(processor::all_values(after.live.processor) =~= processor::all_values(
                        mid.processor,
                    ));
                }
            },
            StateCommand::SaveState => {},
        }
    }
}

/// The changes that come before a stretch are exactly those up to the first
/// stretch to render.
pub proof fn law_changes_are_due_up_to_the_next_stretch(steps: Seq<Step>, k: int)
    ensures
        0 <= due(steps) <= steps.len(),
        0 <= k < due(steps) ==> steps[k] is Apply,
        due(steps) < steps.len() ==> steps[due(steps)] is Render,
    decreases steps.len(),
{
    if steps.len() > 0 && steps[0] is Apply {
        law_changes_are_due_up_to_the_next_stretch(steps.drop_first(), k - 1);
    }
}

#[verifier::opaque]
spec fn one_change<P: Processor>(a: Live<P>, change: (u32, u64), b: Live<P>) -> bool {
    &&& P::sets(a.processor, change.0, change.1, b.processor)
    &&& b.last_set == a.last_set
    &&& b.mirror.len() == a.mirror.len()
    &&& forall|i: int|
        0 <= i < a.mirror.len() ==> (#[trigger] b.mirror[i]) == (if a.mirror[i].0 == change.0
            && forall|j: int| 0 <= j < i ==> (#[trigger] a.mirror[j]).0 != change.0 {
            (change.0, b.processor.value(change.0))
        } else {
            a.mirror[i]
        })
}

proof fn lemma_one_change<P: Processor>(before: Live<P>, id: u32, value: u64, after: Live<P>)
    requires
        param_lands(before, id, value, after),
    ensures
        one_change(before, (id, value), after),
{
    reveal(one_change);
    mirror::lemma_entry_index(before.mirror, id);
    assert forall|i: int| 0 <= i < before.mirror.len() implies (#[trigger] after.mirror[i]) == (
    if before.mirror[i].0 == id && forall|j: int|
        0 <= j < i ==> (#[trigger] before.mirror[j]).0 != id {
        (id, after.processor.value(id))
    } else {
        before.mirror[i]
    }) by {
        mirror::law_publishing_changes_one_entry(
            before.mirror,
            id,
            after.processor.value(id),
            i,
        );
    }
}

proof fn lemma_changes_run<P: Processor>(
    before: Live<P>,
    steps: Seq<Step>,
    after: Live<P>,
) -> (run: Seq<Live<P>>)
    requires
        changes_land(before, steps, after),
    ensures
        run.len() == steps.len() + 1,
        run[0] == before,
        run[steps.len() as int] == after,
        forall|k: int|
            0 <= k < steps.len() ==> (#[trigger] steps[k]) is Apply && one_change(
                run[k],
                (steps[k]->Apply_id, steps[k]->Apply_value),
                run[k + 1],
            ),
    decreases steps.len(),
{
    if steps.len() == 0 {
        seq![before]
    } else {
        let rest = steps.drop_last();
        let mid = choose|mid: Live<P>|
            changes_land(before, rest, mid) && #[trigger] step_lands(mid, steps.last(), after);
        let front = lemma_changes_run(before, rest, mid);
        let run = front.push(after);
        let n = rest.len() as int;
        assert(run[n] == mid && run[n + 1] == after);
        assert(steps[n] == steps.last());
        assert forall|k: int| 0 <= k < steps.len() implies (#[trigger] steps[k]) is Apply
            && one_change(
            run[k],
            (steps[k]->Apply_id, steps[k]->Apply_value),
            run[k + 1],
        ) by {
            if k < n {
                assert(rest[k] == steps[k]);
                assert(run[k] == front[k] && run[k + 1] == front[k + 1]);
            } else {
                lemma_one_change(mid, steps[n]->Apply_id, steps[n]->Apply_value, after);
            }
        }
        run
    }
}

/// Every change that is handed out reaches the processor, whatever its value:
/// the processor passes through one state after each change, each reached from
/// the one before by setting exactly that parameter to exactly that value, and
/// after each the parameter's mirrored value is what the processor then reads
/// back, with everything else in the mirror left alone.
pub proof fn law_every_change_reaches_the_processor<P: Processor>(
    before: Live<P>,
    steps: Seq<Step>,
    after: Live<P>,
) -> (run: Seq<Live<P>>)
    requires
        changes_land(before, steps, after),
    ensures
        run.len() == steps.len() + 1,
        run[0] == before,
        run[steps.len() as int] == after,
        forall|k: int|
            0 <= k < steps.len() ==> ((#[trigger] steps[k]) matches Step::Apply { id, value }
                && P::sets(run[k].processor, id, value, run[k + 1].processor)),
        forall|k: int|
            0 <= k < steps.len() ==> (#[trigger] run[k + 1]).last_set == run[k].last_set
                && run[k + 1].mirror.len() == run[k].mirror.len(),
        forall|k: int, i: int|
            #![trigger run[k + 1].mirror[i]]
            0 <= k < steps.len() && 0 <= i < run[k].mirror.len() ==> (steps[k] matches Step::Apply {
                id,
                value,
            } && run[k + 1].mirror[i] == (if run[k].mirror[i].0 == id && forall|j: int|
                0 <= j < i ==> (#[trigger] run[k].mirror[j]).0 != id {
                (id, run[k + 1].processor.value(id))
            } else {
                run[k].mirror[i]
            })),
{
    let run = lemma_changes_run(before, steps, after);
    assert forall|k: int| 0 <= k < steps.len() implies ((#[trigger] steps[k]) matches Step::Apply {
        id,
        value,
    } && P::sets(run[k].processor, id, value, run[k + 1].processor)) by {
        reveal(one_change);
    }
    assert forall|k: int| 0 <= k < steps.len() implies (#[trigger] run[k + 1]).last_set
        == run[k].last_set && run[k + 1].mirror.len() == run[k].mirror.len() by {
        assert(steps[k] is Apply);
        reveal(one_change);
    }
    assert forall|k: int, i: int|
        #![trigger run[k + 1].mirror[i]]
        0 <= k < steps.len() && 0 <= i < run[k].mirror.len() implies (steps[k] matches Step::Apply {
        id,
        value,
    } && run[k + 1].mirror[i] == (if run[k].mirror[i].0 == id && forall|j: int|
        0 <= j < i ==> (#[trigger] run[k].mirror[j]).0 != id {
        (id, run[k + 1].processor.value(id))
    } else {
        run[k].mirror[i]
    })) by {
        assert(steps[k] is Apply);
        reveal(one_change);
    }
    run
}

/// Where every set keeps its value and leaves the other parameters alone, the
/// processor holds, after the changes of a block, the value of each parameter's
/// last change, whatever that value is, and so does the mirror; a parameter
/// without a change holds what it held.
pub proof fn law_a_block_leaves_the_last_value_asked_for<P: Processor>(
    before: Live<P>,
    steps: Seq<Step>,
    after: Live<P>,
    id: u32,
    i: int,
)
    requires
        changes_land(before, steps, after),
        forall|b: P, set: u32, value: u64, a: P| #[trigger]
            P::sets(b, set, value, a) ==> a.value(set) == value,
        forall|b: P, set: u32, value: u64, a: P, other: u32|
            #![trigger P::sets(b, set, value, a), a.value(other)]
            P::sets(b, set, value, a) && other != set ==> a.value(other) == b.value(other),
        0 <= i < before.mirror.len(),
        before.mirror[i].0 == id,
        forall|j: int| 0 <= j < i ==> (#[trigger] before.mirror[j]).0 != id,
    ensures
        after.mirror.len() == before.mirror.len(),
        after.mirror[i].0 == id,
        forall|j: int| 0 <= j < i ==> (#[trigger] after.mirror[j]).0 != id,
        forall|k: int|
            #![trigger steps[k]]
            0 <= k < steps.len() && (forall|m: int|
                k < m < steps.len() ==> !((#[trigger] steps[m]) matches Step::Apply { id: set, .. }
                    && set == id)) ==> (steps[k] matches Step::Apply { id: set, value } ==> set == id
                ==> after.processor.value(id) == value && after.mirror[i].1 == value),
        (forall|m: int|
            0 <= m < steps.len() ==> !((#[trigger] steps[m]) matches Step::Apply { id: set, .. }
                && set == id)) ==> after.processor.value(id) == before.processor.value(id)
            && after.mirror[i] == before.mirror[i],
    decreases steps.len(),
{
    if steps.len() > 0 {
        let rest = steps.drop_last();
        let mid = choose|mid: Live<P>|
            changes_land(before, rest, mid) && #[trigger] step_lands(mid, steps.last(), after);
        law_a_block_leaves_the_last_value_asked_for(before, rest, mid, id, i);
        let n = rest.len() as int;
        assert(steps[n] == steps.last());
        let (set, value) = (steps.last()->Apply_id, steps.last()->Apply_value);
        assert(P::sets(mid.processor, set, value, after.processor));
        mirror::lemma_entry_index(mid.mirror, set);
        mirror::law_publishing_changes_one_entry(mid.mirror, set, after.processor.value(set), i);
        assert forall|j: int| 0 <= j < i implies (#[trigger] after.mirror[j]).0 != id by {
            mirror::law_publishing_changes_one_entry(
                mid.mirror,
                set,
                after.processor.value(set),
                j,
            );
            assert(mid.mirror[j].0 != id);
        }
        if set != id {
            assert(after.processor.value(id) == mid.processor.value(id));
        }
        assert forall|k: int|
            #![trigger steps[k]]
            0 <= k < steps.len() && (forall|m: int|
                k < m < steps.len() ==> !((#[trigger] steps[m]) matches Step::Apply { id: set, .. }
                    && set == id)) implies (steps[k] matches Step::Apply { id: set, value } ==> set
            == id ==> after.processor.value(id) == value && after.mirror[i].1 == value) by {
            if k < n {
                assert(!(steps[n] matches Step::Apply { id: set, .. } && set == id));
                assert(rest[k] == steps[k]);
                assert forall|m: int| k < m < rest.len() implies !((
                #[trigger] rest[m]) matches Step::Apply { id: set, .. } && set == id) by {
                    assert(rest[m] == steps[m]);
                }
            }
        }
        if forall|m: int|
            0 <= m < steps.len() ==> !((#[trigger] steps[m]) matches Step::Apply { id: set, .. }
                && set == id) {
            assert(!(steps[n] matches Step::Apply { id: set, .. } && set == id));
            assert forall|m: int| 0 <= m < rest.len() implies !((
            #[trigger] rest[m]) matches Step::Apply { id: set, .. } && set == id) by {
                assert(rest[m] == steps[m]);
            }
        }
    }
}

/// One call that goes on with a block: of what is left of the plan, the changes
/// that are due land, and the stretch that follows them, if there is one, is
/// handed out. `at` says how much of the plan is done before each call, and
/// `lives` what the engine holds then.
pub open spec fn handed_out<P: Processor>(
    plan: Seq<Step>,
    at: Seq<int>,
    lives: Seq<Live<P>>,
    c: int,
) -> bool {
    let left = plan.skip(at[c]);
    &&& 0 <= at[c] <= plan.len()
    &&& changes_land(lives[c], left.take(due(left)), lives[c + 1])
    &&& at[c + 1] == (if due(left) < left.len() {
        at[c] + due(left) + 1
    } else {
        at[c] + due(left)
    })
}

/// A whole block carries every staged event to the processor: as a block is
/// handed out call by call until nothing of its plan is left, the processor
/// passes through one state after each event, in their order, each reached from
/// the one before by setting exactly that event's parameter to exactly its
/// value, and the mirror then holds what the processor reads back.
pub proof fn law_a_whole_block_applies_every_event<P: Processor>(
    events: Seq<ParamEvent>,
    frames: u32,
    at: Seq<int>,
    lives: Seq<Live<P>>,
) -> (run: Seq<Live<P>>)
    requires
        at.len() > 0,
        lives.len() == at.len(),
        at[0] == 0,
        at.last() == block::steps(events, frames, 0).len(),
        forall|c: int|
            0 <= c < at.len() - 1 ==> #[trigger] handed_out(
                block::steps(events, frames, 0),
                at,
                lives,
                c,
            ),
    ensures
        run.len() == events.len() + 1,
        run[0] == lives[0],
        run[events.len() as int] == lives.last(),
        forall|k: int|
            0 <= k < events.len() ==> P::sets(
                run[k].processor,
                (#[trigger] events[k]).id,
                events[k].value,
                run[k + 1].processor,
            ),
        forall|k: int|
            0 <= k < events.len() ==> (#[trigger] run[k + 1]).last_set == run[k].last_set
                && run[k + 1].mirror.len() == run[k].mirror.len(),
        forall|k: int, i: int|
            #![trigger run[k + 1].mirror[i]]
            0 <= k < events.len() && 0 <= i < run[k].mirror.len() ==> run[k + 1].mirror[i] == (if run[k].mirror[i].0
                == events[k].id && forall|j: int|
                0 <= j < i ==> (#[trigger] run[k].mirror[j]).0 != events[k].id {
                (events[k].id, run[k + 1].processor.value(events[k].id))
            } else {
                run[k].mirror[i]
            }),
{
    let plan = block::steps(events, frames, 0);
    block::law_every_change_is_applied_once(events, frames, 0);
    assert(plan.skip(0) =~= plan);
    let run = lemma_block_run(plan, at, lives, 0);
    assert forall|k: int| 0 <= k < events.len() implies P::sets(
        run[k].processor,
        (#[trigger] events[k]).id,
        events[k].value,
        run[k + 1].processor,
    ) by {
        assert(block::changes(plan)[k] == (events[k].id, events[k].value));
        reveal(one_change);
    }
    assert forall|k: int| 0 <= k < events.len() implies (#[trigger] run[k + 1]).last_set
        == run[k].last_set && run[k + 1].mirror.len() == run[k].mirror.len() by {
        assert(block::changes(plan)[k] == (events[k].id, events[k].value));
        reveal(one_change);
    }
    assert forall|k: int, i: int|
        #![trigger run[k + 1].mirror[i]]
        0 <= k < events.len() && 0 <= i < run[k].mirror.len() implies run[k + 1].mirror[i] == (if run[k].mirror[i].0
        == events[k].id && forall|j: int| 0 <= j < i ==> (#[trigger] run[k].mirror[j]).0
        != events[k].id {
        (events[k].id, run[k + 1].processor.value(events[k].id))
    } else {
        run[k].mirror[i]
    }) by {
        assert(block::changes(plan)[k] == (events[k].id, events[k].value));
        reveal(one_change);
    }
    run
}

proof fn lemma_block_run<P: Processor>(
    plan: Seq<Step>,
    at: Seq<int>,
    lives: Seq<Live<P>>,
    c: int,
) -> (run: Seq<Live<P>>)
    requires
        lives.len() == at.len(),
        0 <= c < at.len(),
        at.last() == plan.len(),
        forall|c: int| 0 <= c < at.len() - 1 ==> #[trigger] handed_out(plan, at, lives, c),
    ensures
        run.len() == block::changes(plan.skip(at[c])).len() + 1,
        run[0] == lives[c],
        run.last() == lives.last(),
        forall|k: int|
            #![trigger block::changes(plan.skip(at[c]))[k]]
            0 <= k < run.len() - 1 ==> one_change(
                run[k],
                block::changes(plan.skip(at[c]))[k],
                run[k + 1],
            ),
    decreases at.len() - c,
{
    let left = plan.skip(at[c]);
    if c == at.len() - 1 {
        assert(left =~= Seq::empty());
        seq![lives[c]]
    } else {
        let n = due(left);
        law_changes_are_due_up_to_the_next_stretch(left, 0);
        let now = left.take(n);
        assert(handed_out(plan, at, lives, c));
        let front = lemma_changes_run(lives[c], now, lives[c + 1]);
        let tail = lemma_block_run(plan, at, lives, c + 1);
        let later = plan.skip(at[c + 1]);
        let all = block::changes(left);
        lemma_changes_of_applies(now);
        assert(all == block::changes(now) + block::changes(later)) by {
            if n < left.len() {
                assert(left =~= now + (seq![left[n]] + later));
                lemma_changes_of_both(now, seq![left[n]] + later);
                let next = seq![left[n]] + later;
                assert(next.drop_first() =~= later);
                assert(block::changes(next) == block::changes(later));
            } else {
                assert(left =~= now);
                assert(later =~= Seq::empty());
                assert(block::changes(later) =~= Seq::empty());
            }
        }
        let run = front + tail.skip(1);
        assert forall|k: int| #![trigger all[k]] 0 <= k < run.len() - 1 implies one_change(
            run[k],
            all[k],
            run[k + 1],
        ) by {
            if k < n {
                assert(now[k] is Apply);
                assert(run[k] == front[k] && run[k + 1] == front[k + 1]);
                assert(block::changes(now)[k] == (now[k]->Apply_id, now[k]->Apply_value));
            } else {
                let m = k - n;
                assert(all[k] == block::changes(later)[m]);
                assert(run[k] == tail[m]) by {
                    if m == 0 {
                        assert(front[n] == lives[c + 1]);
                    }
                }
                assert(run[k + 1] == tail[m + 1]);
            }
        }
        assert(run.last() == lives.last()) by {
            if tail.len() > 1 {
                assert(tail.skip(1).last() == tail.last());
            } else {
                assert(run =~= front);
                assert(tail[0] == lives[c + 1]);
            }
        }
        run
    }
}

proof fn lemma_changes_of_applies(now: Seq<Step>)
    requires
        forall|k: int| 0 <= k < now.len() ==> (#[trigger] now[k]) is Apply,
    ensures
        block::changes(now).len() == now.len(),
        forall|k: int|
            0 <= k < now.len() ==> (#[trigger] block::changes(now)[k]) == (
                now[k]->Apply_id,
                now[k]->Apply_value,
            ),
    decreases now.len(),
{
    if now.len() > 0 {
        lemma_changes_of_applies(now.drop_first());
        assert forall|k: int| 0 <= k < now.len() implies (#[trigger] block::changes(now)[k]) == (
            now[k]->Apply_id,
            now[k]->Apply_value,
        ) by {
            if k > 0 {
                assert(block::changes(now)[k] == block::changes(now.drop_first())[k - 1]);
            }
        }
    }
}

proof fn lemma_changes_of_both(a: Seq<Step>, b: Seq<Step>)
    ensures
        block::changes(a + b) == block::changes(a) + block::changes(b),
    decreases a.len(),
{
    if a.len() == 0 {
        assert(a + b =~= b);
        assert(block::changes(a) =~= Seq::empty());
    } else {
        lemma_changes_of_both(a.drop_first(), b);
        assert((a + b).drop_first() =~= a.drop_first() + b);
        assert((a + b)[0] == a[0]);
        assert(block::changes(a + b) =~= block::changes(a) + block::changes(b));
    }
}

/// A command does what it says: a change sets exactly its parameter to exactly
/// its value, whatever that is, and what the processor then reads back is
/// mirrored and noted as last set; a reset resets the processor and touches
/// nothing else.
pub proof fn law_a_command_does_what_it_says<P: Processor>(
    before: Live<P>,
    command: Command,
    after: Live<P>,
    id: u32,
    value: u64,
    i: int,
)
    requires
        command_runs(before, command, after),
    ensures
        command == (Command::SetParam { id, value }) ==> P::sets(
            before.processor,
            id,
            value,
            after.processor,
        ) && after.last_set.dom() == before.last_set.dom() && (before.last_set.contains_key(id)
            ==> after.last_set[id] == after.processor.value(id)) && (forall|other: u32|
            other != id ==> #[trigger] after.last_set[other] == before.last_set[other]),
        command == (Command::SetParam { id, value }) && 0 <= i < before.mirror.len()
            ==> after.mirror.len() == before.mirror.len() && after.mirror[i] == (
        if before.mirror[i].0 == id && forall|j: int|
            0 <= j < i ==> (#[trigger] before.mirror[j]).0 != id {
            (id, after.processor.value(id))
        } else {
            before.mirror[i]
        }),
        command is Reset ==> P::resets(before.processor, after.processor) && after.mirror
            == before.mirror && after.last_set == before.last_set,
{
    if command == (Command::SetParam { id, value }) {
        mirror::lemma_entry_index(before.mirror, id);
        if 0 <= i < before.mirror.len() {
            mirror::law_publishing_changes_one_entry(
                before.mirror,
                id,
                after.processor.value(id),
                i,
            );
        }
        assert(after.last_set.dom() =~= before.last_set.dom());
    }
}

/// Every waiting command runs, in order and once: the engine passes through
/// one state after each of them, and each change reaches the processor,
/// whatever its value.
pub proof fn law_every_command_runs_in_order<P: Processor>(
    before: Live<P>,
    commands: Seq<Command>,
    after: Live<P>,
) -> (run: Seq<Live<P>>)
    requires
        commands_run(before, commands, after),
    ensures
        run.len() == commands.len() + 1,
        run[0] == before,
        run[commands.len() as int] == after,
        forall|k: int|
            0 <= k < commands.len() ==> command_runs(
                run[k],
                #[trigger] commands[k],
                run[k + 1],
            ),
        forall|k: int|
            0 <= k < commands.len() ==> ((#[trigger] commands[k]) matches Command::SetParam {
                id,
                value,
            } ==> P::sets(run[k].processor, id, value, run[k + 1].processor)),
        forall|k: int|
            0 <= k < commands.len() && (#[trigger] commands[k]) is Reset ==> P::resets(
                run[k].processor,
                run[k + 1].processor,
            ),
    decreases commands.len(),
{
    if commands.len() == 0 {
        seq![before]
    } else {
        let rest = commands.drop_last();
        let mid = choose|mid: Live<P>|
            commands_run(before, rest, mid) && #[trigger] command_runs(mid, commands.last(), after);
        let front = law_every_command_runs_in_order(before, rest, mid);
        let run = front.push(after);
        let n = rest.len() as int;
        assert(run[n] == mid && run[n + 1] == after);
        assert(commands[n] == commands.last());
        assert forall|k: int| 0 <= k < commands.len() implies command_runs(
            run[k],
            #[trigger] commands[k],
            run[k + 1],
        ) by {
            if k < n {
                assert(commands[k] == rest[k]);
                assert(run[k] == front[k] && run[k + 1] == front[k + 1]);
            }
        }
        run
    }
}

/// Restoring hands the bytes to the processor. If it takes them, the first
/// mirrored entry of every declared parameter holds what the processor now
/// reads back; if not, the mirror is as it was. What was last set stays noted
/// either way.
pub proof fn law_restored_values_are_mirrored_one_by_one<P: Processor>(
    before: Live<P>,
    data: Seq<u8>,
    ok: bool,
    after: Live<P>,
    d: int,
    i: int,
)
    requires
        state_lands(before, data, ok, after),
        0 <= d < P::declared().len(),
        0 <= i < before.mirror.len(),
        before.mirror[i].0 == P::declared()[d].id,
        forall|j: int| 0 <= j < i ==> (#[trigger] before.mirror[j]).0 != before.mirror[i].0,
    ensures
        P::loads(before.processor, data, ok, after.processor),
        after.last_set == before.last_set,
        !ok ==> after.mirror == before.mirror,
        ok ==> after.mirror.len() == before.mirror.len() && after.mirror[i] == (
            P::declared()[d].id,
            after.processor.value(P::declared()[d].id),
        ),
{
    if ok {
        let values = processor::all_values(after.processor);
        let id = P::declared()[d].id;
        assert(values[d] == (id, after.processor.value(id)));
        let k = lemma_last_change(values, d);
        mirror::law_the_last_of_many_changes_stands(before.mirror, values, i);
        assert(values[k].0 == before.mirror[i].0);
        assert(values[k] == (P::declared()[k].id, after.processor.value(P::declared()[k].id)));
    }
}

proof fn lemma_last_change(changes: Seq<(u32, u64)>, d: int) -> (k: int)
    requires
        0 <= d < changes.len(),
    ensures
        d <= k < changes.len(),
        changes[k].0 == changes[d].0,
        forall|m: int| k < m < changes.len() ==> (#[trigger] changes[m]).0 != changes[d].0,
    decreases changes.len() - d,
{
    if exists|m: int| d < m < changes.len() && (#[trigger] changes[m]).0 == changes[d].0 {
        let m = choose|m: int| d < m < changes.len() && (#[trigger] changes[m]).0 == changes[d].0;
        lemma_last_change(changes, m)
    } else {
        d
    }
}

/// A drain, in full. Every waiting command runs and none is left. The oldest
/// state command, and only that one, is taken: a load hands exactly its bytes
/// to the processor and is answered with the processor's verdict and the same
/// buffer, a save is answered with what the processor saves and changes
/// nothing. The answer waits if fewer than two answers do, and is counted as
/// lost otherwise. The reported latency is the processor's, and a change of it
/// stays noted. The main side is told exactly if a parameter was set, state was
/// restored or the latency changed.
pub proof fn law_a_drain_does_what_waits<P: Processor>(
    before: EngineState<P>,
    after: EngineState<P>,
    notify: bool,
) -> (r: (Live<P>, Option<StateResponse>))
    requires
        drained(before, after, notify),
    ensures
        commands_run(before.live, before.commands, r.0),
        after.commands.len() == 0,
        r.1 is Some <==> before.state_commands.len() > 0,
        before.state_commands.len() == 0 ==> after.live == r.0 && after.state_commands
            == before.state_commands && after.responses == before.responses && after.diag
            == before.diag,
        before.state_commands.len() > 0 ==> after.state_commands.len()
            == before.state_commands.len() - 1 && (forall|k: int|
            0 <= k < after.state_commands.len() ==> #[trigger] after.state_commands[k]
                == before.state_commands[k + 1]),
        before.state_commands.len() > 0 && before.responses.len() < 2 ==> after.responses
            == before.responses + seq![r.1->0] && after.diag == before.diag,
        before.state_commands.len() > 0 && before.responses.len() >= 2 ==> after.responses
            == before.responses && (before.diag.state_responses_dropped < u64::MAX
            ==> after.diag.state_responses_dropped == before.diag.state_responses_dropped + 1)
            && after.diag.commands_dropped == before.diag.commands_dropped
            && after.diag.param_events_dropped == before.diag.param_events_dropped
            && after.diag.midi_events_dropped == before.diag.midi_events_dropped
            && after.diag.bus_frames_dropped == before.diag.bus_frames_dropped
            && after.diag.mirror_retries == before.diag.mirror_retries,
        before.state_commands.len() > 0 ==> (
        before.state_commands[0] matches StateCommand::LoadState(data) ==> (
        r.1->0 matches StateResponse::Loaded { ok, buffer } && buffer == data && state_lands(
            r.0,
            data@,
            ok,
            after.live,
        ) && P::loads(r.0.processor, data@, ok, after.live.processor))),
        before.state_commands.len() > 0 && before.state_commands[0] is SaveState ==> (
        r.1->0 matches StateResponse::Saved(data) && r.0.processor.saves(data@) && after.live
            == r.0),
        after.latency == after.live.processor.delay(),
        after.latency_changed <==> before.latency_changed || before.latency
            != after.live.processor.delay(),
        after.access == before.access,
        after.buffers == before.buffers,
        notify <==> (exists|k: int|
            0 <= k < before.commands.len() && (#[trigger] before.commands[k]) is SetParam) || (
        r.1 matches Some(StateResponse::Loaded { ok: true, .. })) || before.latency
            != after.live.processor.delay(),
{
    let (mid, answer) = choose|mid: Live<P>, answer: Option<StateResponse>| #[trigger]
        drain_steps(before, mid, answer, after, notify);
    assert(drain_steps(before, mid, answer, after, notify));
    (mid, answer)
}

/// Setting a parameter while nobody holds the processor succeeds: the
/// processor is set to exactly that value, its readback is mirrored and noted,
/// the commands that wait keep their places, and a waiting change of the same
/// parameter is brought up to date. Otherwise the change waits behind the
/// others while fewer than 1024 do, and is counted as dropped when there is no
/// room.
pub proof fn law_setting_lands_now_or_waits_its_turn<P: Processor>(
    before: EngineState<P>,
    id: u32,
    value: u64,
    after: EngineState<P>,
    r: bool,
    i: int,
)
    requires
        set_param_outcome(before, id, value, after, r),
    ensures
        before.access is Idle ==> r && P::sets(
            before.live.processor,
            id,
            value,
            after.live.processor,
        ) && after.commands.len() == before.commands.len() && after.diag == before.diag,
        before.access is Idle && 0 <= i < before.live.mirror.len() ==> after.live.mirror.len()
            == before.live.mirror.len() && after.live.mirror[i] == (if before.live.mirror[i].0 == id
            && forall|j: int| 0 <= j < i ==> (#[trigger] before.live.mirror[j]).0 != id {
            (id, after.live.processor.value(id))
        } else {
            before.live.mirror[i]
        }),
        before.access is Idle ==> after.live.last_set.dom() == before.live.last_set.dom() && (
        before.live.last_set.contains_key(id) ==> after.live.last_set[id]
            == after.live.processor.value(id)) && (forall|other: u32|
            other != id ==> #[trigger] after.live.last_set[other] == before.live.last_set[other]),
        before.access is Idle && 0 <= i < before.commands.len() ==> after.commands[i] == (
        if before.commands[i] matches Command::SetParam { id: waits, .. } && waits == id {
            Command::SetParam { id, value }
        } else {
            before.commands[i]
        }),
        !(before.access is Idle) ==> after.live == before.live,
        !(before.access is Idle) ==> (r <==> before.commands.len() < 1024),
        !(before.access is Idle) && r ==> after.commands == before.commands + seq![
            Command::SetParam { id, value },
        ] && after.diag == before.diag,
        !(before.access is Idle) && !r ==> after.commands == before.commands && (
        before.diag.commands_dropped < u64::MAX ==> after.diag.commands_dropped
            == before.diag.commands_dropped + 1),
        !(before.access is Idle) && !r ==> after.diag == (DiagCounters {
            commands_dropped: after.diag.commands_dropped,
            ..before.diag
        }),
        after.access == before.access,
        after.state_commands == before.state_commands,
        after.responses == before.responses,
        after.buffers == before.buffers,
        after.latency == before.latency,
        after.latency_changed == before.latency_changed,
{
    if before.access is Idle {
        mirror::lemma_entry_index(before.live.mirror, id);
        if 0 <= i < before.live.mirror.len() {
            mirror::law_publishing_changes_one_entry(
                before.live.mirror,
                id,
                after.live.processor.value(id),
                i,
            );
        }
        assert(after.live.last_set.dom() =~= before.live.last_set.dom());
    } else if r {
        assert(after.commands =~= before.commands + seq![Command::SetParam { id, value }]);
    }
}

/// A load while nobody holds the processor is done at once. Otherwise its
/// bytes wait, as the last of the state commands, while fewer than two of them
/// wait, and it is refused and counted when two do.
pub proof fn law_loading_is_done_waits_or_is_refused<P: Processor>(
    before: EngineState<P>,
    data: Seq<u8>,
    after: EngineState<P>,
    r: LoadStart,
)
    requires
        load_outcome(before, data, after, r),
        before.state_commands.len() <= 2,
    ensures
        r is Done <==> before.access is Idle,
        r is Pending <==> !(before.access is Idle) && before.state_commands.len() < 2,
        r matches LoadStart::Done(ok) ==> P::loads(
            before.live.processor,
            data,
            ok,
            after.live.processor,
        ) && state_lands(before.live, data, ok, after.live) && after.state_commands
            == before.state_commands && after.buffers == before.buffers,
        !(r is Done) ==> after.live == before.live && after.buffers == (if before.buffers.len()
            > 0 {
            before.buffers.drop_last()
        } else {
            before.buffers
        }),
        r is Pending ==> after.state_commands.len() == before.state_commands.len() + 1 && (forall|
            k: int,
        |
            0 <= k < before.state_commands.len() ==> #[trigger] after.state_commands[k]
                == before.state_commands[k]) && (after.state_commands.last() matches StateCommand::LoadState(
            payload,
        ) && payload@ == data) && after.diag == before.diag,
        r is Refused ==> after.state_commands == before.state_commands && (
        before.diag.commands_dropped < u64::MAX ==> after.diag.commands_dropped
            == before.diag.commands_dropped + 1),
        r is Refused ==> after.diag == (DiagCounters {
            commands_dropped: after.diag.commands_dropped,
            ..before.diag
        }),
        r is Done ==> after.diag == before.diag,
        after.commands == before.commands,
        after.responses == before.responses,
        after.access == before.access,
        after.latency == before.latency,
        after.latency_changed == before.latency_changed,
{
    if r is Pending {
        assert forall|k: int| 0 <= k < before.state_commands.len() implies
            #[trigger] after.state_commands[k] == before.state_commands[k] by {
            assert(after.state_commands.drop_last()[k] == before.state_commands[k]);
        }
    }
}

/// What waits for a parameter is the value of the last command that sets it.
pub proof fn law_the_last_waiting_change_counts(commands: Seq<Command>, id: u32, k: int)
    ensures
        0 <= k < commands.len() && (forall|m: int|
            k < m < commands.len() ==> !((#[trigger] commands[m]) matches Command::SetParam {
                id: set,
                ..
            } && set == id)) ==> (commands[k] matches Command::SetParam { id: set, value } ==> set
            == id ==> waiting(commands, id) == Some(value)),
        waiting(commands, id) is None <==> (forall|m: int|
            0 <= m < commands.len() ==> !((#[trigger] commands[m]) matches Command::SetParam {
                id: set,
                ..
            } && set == id)),
    decreases commands.len(),
{
    if commands.len() > 0 {
        let rest = commands.drop_last();
        let n = rest.len() as int;
        law_the_last_waiting_change_counts(rest, id, k);
        assert(commands[n] == commands.last());
        assert forall|m: int| 0 <= m < n implies #[trigger] commands[m] == rest[m] by {}
        if 0 <= k < n && !(commands[n] matches Command::SetParam { id: set, .. } && set == id) {
            if forall|m: int|
                k < m < commands.len() ==> !((#[trigger] commands[m]) matches Command::SetParam {
                    id: set,
                    ..
                } && set == id) {
                assert forall|m: int| k < m < n implies !((
                #[trigger] rest[m]) matches Command::SetParam { id: set, .. } && set == id) by {
                    assert(commands[m] == rest[m]);
                }
            }
        }
        if waiting(rest, id) is Some {
            let m = choose|m: int|
                0 <= m < rest.len() && ((#[trigger] rest[m]) matches Command::SetParam { id: set, .. }
                    && set == id);
            assert(commands[m] == rest[m]);
        } else {
            assert forall|m: int| 0 <= m < n implies !((
            #[trigger] commands[m]) matches Command::SetParam { id: set, .. } && set == id) by {
                assert(commands[m] == rest[m]);
            }
        }
    }
}

/// A value is in force exactly if it was last set and no command that sets the
/// parameter waits; the parameter is set to a value exactly if the last command
/// that waits for it says so or, where none waits, it was last set to it.
pub proof fn law_what_is_in_force_and_what_is_set<P>(
    state: EngineState<P>,
    id: u32,
    value: u64,
    k: int,
)
    ensures
        in_force(state, id, value) <==> state.live.last_set.contains_key(id)
            && state.live.last_set[id] == value && (forall|m: int|
            0 <= m < state.commands.len() ==> !((
            #[trigger] state.commands[m]) matches Command::SetParam { id: set, .. } && set == id)),
        (forall|m: int|
            0 <= m < state.commands.len() ==> !((
            #[trigger] state.commands[m]) matches Command::SetParam { id: set, .. } && set == id))
            ==> (set_to(state, id, value) <==> state.live.last_set.contains_key(id)
            && state.live.last_set[id] == value),
        0 <= k < state.commands.len() && (forall|m: int|
            k < m < state.commands.len() ==> !((
            #[trigger] state.commands[m]) matches Command::SetParam { id: set, .. } && set == id))
            ==> (state.commands[k] matches Command::SetParam { id: set, value: last } ==> set == id
            ==> (set_to(state, id, value) <==> value == last)),
{
    law_the_last_waiting_change_counts(state.commands, id, k);
    lemma_waiting(state.commands, id);
}

/// State counts as being restored exactly while a waiting answer says that a
/// load went well.
pub proof fn law_restoring_is_a_waiting_good_answer(answers: Seq<StateResponse>)
    ensures
        restoring(answers) <==> (exists|k: int|
            0 <= k < answers.len() && ((#[trigger] answers[k]) matches StateResponse::Loaded {
                ok: true,
                ..
            })),
{
    if restoring(answers) {
        let k = choose|k: int| 0 <= k < answers.len() && restored(#[trigger] answers[k]);
        assert(answers[k] matches StateResponse::Loaded { ok: true, .. });
    }
    if exists|k: int|
        0 <= k < answers.len() && ((#[trigger] answers[k]) matches StateResponse::Loaded {
            ok: true,
            ..
        }) {
        let k = choose|k: int|
            0 <= k < answers.len() && ((#[trigger] answers[k]) matches StateResponse::Loaded {
                ok: true,
                ..
            });
        assert(restored(answers[k]));
    }
}

/// A new engine notes, of every declared parameter and of no other, the value
/// that the processor starts with.
pub proof fn law_a_new_engine_notes_the_first_values<P: Processor>(p: P, id: u32)
    ensures
        first_values(p).contains_key(id) <==> (exists|d: int|
            0 <= d < P::declared().len() && (#[trigger] P::declared()[d]).id == id),
        first_values(p).contains_key(id) ==> first_values(p)[id] == p.value(id),
{
}

/// Dropped MIDI is added up modulo the counter's width.
pub proof fn law_midi_drops_add_up(a: u64, b: u64)
    ensures
        a + b <= u64::MAX ==> wrapped_sum(a, b) == a + b,
        a + b > u64::MAX ==> wrapped_sum(a, b) == a + b - 0x1_0000_0000_0000_0000,
{
}

/// A command waits as the last of the queue while fewer than 1024 do, and is
/// counted as dropped, with the queue as it was, when there is no room.
pub proof fn law_commands_wait_in_line<P: Processor>(
    before: EngineState<P>,
    command: Command,
    after: EngineState<P>,
    r: bool,
)
    requires
        queue_outcome(before, command, after, r),
    ensures
        r <==> before.commands.len() < 1024,
        r ==> after.commands == before.commands + seq![command] && after.diag == before.diag,
        !r ==> after.commands == before.commands && (before.diag.commands_dropped < u64::MAX
            ==> after.diag.commands_dropped == before.diag.commands_dropped + 1),
        !r ==> after.diag == (DiagCounters {
            commands_dropped: after.diag.commands_dropped,
            ..before.diag
        }),
        after.live == before.live,
        after.state_commands == before.state_commands,
        after.responses == before.responses,
        after.access == before.access,
        after.buffers == before.buffers,
        after.latency == before.latency,
        after.latency_changed == before.latency_changed,
{
    if r {
        assert(after.commands =~= before.commands + seq![command]);
    }
}

} // verus!
