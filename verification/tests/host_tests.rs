use skuiz::block::{BlockPlan, EventStage, ParamEvent, Staged, Step, PARAM_EVENT_CAPACITY};
use skuiz::bus::{
    default_effect_buses, validate_buses, AudioBusSpec, BusDirection, BusId, ChannelLayout,
};
use skuiz::engine::{AudioToken, Engine, LoadStart, SaveStart};
use skuiz::hostmidi::{
    emit_event, emit_midi, land, midi_count, midi_event, NoteEvent, WireMidi, AFTER_TOUCH,
    PITCH_BEND,
};
use skuiz::hosttext::{
    copy_cstring, copy_wstring, derive_cid, hash_bytes, read_wstring, trim, utf16_units, wide,
    write_cstr, STRING_UNITS,
};
use skuiz::midi::{control_change, note_off, note_on, note_on2, MidiEvent};
use skuiz::params::{ParamDef, PluginInfo};
use skuiz::ports::{
    arrangement_of, audio_port, audio_port_count, bus_count, bus_info, choice_label, extent,
    get_bus_arrangement, offers, param_info, set_bus_arrangements, typed_value, value_text,
    Extension, Media, TypedValue, EMPTY_ARRANGEMENT,
};
use skuiz::processor::{default_load_state, default_save_state, Processor};
use skuiz::stateio::{
    after_write, answer_size_query, ChunkVerdict, StateReader, WriteVerdict, CHUNK_BYTES,
    MAX_STATE_BYTES,
};
use skuiz::wire::{
    copy_main_into_output, wire_segment, BusActivation, CopyAction, HostBus, Span,
};
use vst3::Steinberg::Vst::{ControllerNumbers_, SpeakerArr};

fn bits(v: f64) -> u64 {
    v.to_bits()
}

#[derive(Debug)]
struct Fixture {
    gain: f64,
    mode: f64,
    blocks: u32,
    resets: u32,
}

fn fixture() -> Fixture {
    Fixture { gain: 1.0, mode: 0.0, blocks: 0, resets: 0 }
}

impl Processor for Fixture {
    fn info() -> PluginInfo {
        PluginInfo {
            id: "test.fixture",
            name: "Fixture",
            vendor: "Skuiz",
            version: "0",
            description: "",
        }
    }
    fn params() -> &'static [ParamDef] {
        const DEFS: &[ParamDef] = &[
            ParamDef {
                id: 0,
                name: "Gain",
                min: 0,
                max: 0x4000_0000_0000_0000,
                default: 0x3FF0_0000_0000_0000,
                choices: &[],
                shared: false,
            },
            ParamDef {
                id: 1,
                name: "Mode",
                min: 0,
                max: 0,
                default: 0,
                choices: &["Off", "On", "Auto"],
                shared: false,
            },
        ];
        DEFS
    }
    fn audio_buses() -> Vec<AudioBusSpec> {
        default_effect_buses()
    }
    fn emits_midi() -> bool {
        true
    }
    fn editor_html() -> Option<&'static str> {
        Some("<!doctype html><body>fixture</body>")
    }
    fn editor_size() -> (u32, u32) {
        (321, 123)
    }
    fn set_param(&mut self, id: u32, v: u64) {
        match id {
            0 => self.gain = f64::from_bits(v),
            1 => self.mode = f64::from_bits(v),
            _ => {}
        }
    }
    fn get_param(&self, id: u32) -> u64 {
        match id {
            0 => self.gain.to_bits(),
            1 => self.mode.to_bits(),
            _ => 0,
        }
    }
    fn reset(&mut self) {
        self.blocks = 0;
        self.resets += 1;
    }
    fn latency(&self) -> u32 {
        0
    }
    fn save_state(&self) -> Vec<u8> {
        default_save_state(self)
    }
    fn load_state(&mut self, data: &Vec<u8>) -> bool {
        default_load_state(self, data)
    }
}

/// A host bus over buffers of the table, from `first` on.
fn host(first: usize, count: usize) -> HostBus {
    let mut bus = HostBus::none();
    bus.connected = true;
    bus.count = count;
    for c in 0..count {
        bus.channels[c] = Some(first + c);
    }
    bus
}

/// What the host does around a block: copy the main input in, then render
/// segment by segment with the changes in between.
fn run_block<P: Processor>(
    engine: &mut Engine<P>,
    token: &AudioToken,
    activation: &BusActivation,
    buffers: &mut Vec<Vec<f32>>,
    inputs: &[HostBus],
    outputs: &[HostBus],
    stage: &EventStage,
    frames: u32,
    mut process: impl FnMut(&mut Engine<P>, &AudioToken, &mut Vec<Vec<f32>>, u32),
) {
    let actions = copy_main_into_output(&engine.audio_core(token).bus_scratch, inputs, outputs);
    for action in actions {
        match action {
            CopyAction::Copy { from, to } => {
                let data = buffers[from].clone();
                buffers[to] = data;
            }
            CopyAction::Silence { to } => buffers[to].iter_mut().for_each(|s| *s = 0.0),
            CopyAction::Leave => {}
        }
    }
    let mut plan = BlockPlan::new(frames);
    while let Some((start, end)) = engine.next_render(&mut plan, stage.events()) {
        let (start_at, len) = (start as usize, (end - start) as usize);
        engine.begin_segment(token, activation, inputs, outputs, start_at, len);
        process(engine, token, buffers, start);
        engine.count_midi_drops();
    }
}

/// Writes a marker into the main output: sidechain sample plus 100 when the
/// sidechain is there, main input sample doubled when only the main pair is,
/// -1 when nothing is.
fn sidechain_dsp(scratch: &skuiz::scratch::TopologyScratch<Span>, buffers: &mut Vec<Vec<f32>>) {
    let (inputs, outputs) = scratch.views();
    let first = |c: skuiz::scratch::Channel<Span>| c.buf.map(|s| buffers[s.buf][s.start]);
    let side = inputs.get(BusId::input("Sidechain")).and_then(|b| b.channel(0)).and_then(first);
    let main_in = inputs.main().and_then(|b| b.channel(0)).and_then(first);
    let Some(out) = outputs.main() else {
        return;
    };
    for channel in out.channels() {
        let span = channel.buf.unwrap();
        for s in buffers[span.buf][span.start..span.start + channel.len].iter_mut() {
            *s = match (side, main_in) {
                (Some(sc), _) => 100.0 + sc,
                (None, Some(m)) => m * 2.0,
                (None, None) => -1.0,
            };
        }
    }
}

#[derive(Debug)]
struct SidechainFx;

fn sidechain() -> Vec<AudioBusSpec> {
    vec![
        AudioBusSpec::input("Main", ChannelLayout::Stereo),
        AudioBusSpec::input("Sidechain", ChannelLayout::Mono).optional(),
        AudioBusSpec::output("Main", ChannelLayout::Stereo),
    ]
}

impl Processor for SidechainFx {
    fn info() -> PluginInfo {
        PluginInfo { id: "test.sidechain-fx", name: "sc", vendor: "t", version: "0", description: "" }
    }
    fn params() -> &'static [ParamDef] {
        &[]
    }
    fn audio_buses() -> Vec<AudioBusSpec> {
        sidechain()
    }
    fn set_param(&mut self, _id: u32, _v: u64) {}
    fn get_param(&self, _id: u32) -> u64 {
        0
    }
    fn reset(&mut self) {}
    fn latency(&self) -> u32 {
        0
    }
    fn save_state(&self) -> Vec<u8> {
        vec![]
    }
    fn load_state(&mut self, _data: &Vec<u8>) -> bool {
        false
    }
}

/// One block over: out L, out R, in L, in R, sidechain.
fn sidechain_block(activation: &BusActivation, inputs: &[HostBus], outputs: &[HostBus]) -> Vec<Vec<f32>> {
    let mut engine = Engine::new(SidechainFx, 8);
    let token = engine.begin_audio().unwrap();
    let mut buffers = vec![
        vec![0.0; 64],
        vec![0.0; 64],
        vec![0.5; 64],
        vec![0.5; 64],
        vec![0.25; 64],
    ];
    let stage = EventStage::with_capacity(4);
    run_block(
        &mut engine,
        &token,
        activation,
        &mut buffers,
        inputs,
        outputs,
        &stage,
        64,
        |engine, token, buffers, _| sidechain_dsp(&engine.audio_core(token).bus_scratch, buffers),
    );
    engine.end_audio(token);
    buffers
}

#[test]
fn bus_topology_declared_buses_are_exposed() {
    let specs = sidechain();
    assert!(validate_buses(&specs).is_ok());
    assert_eq!(audio_port_count(&specs, BusDirection::Input), 2);
    assert_eq!(audio_port_count(&specs, BusDirection::Output), 1);

    let main_in = audio_port(&specs, BusDirection::Input, 0).expect("main input");
    assert_eq!(main_in.id, BusId::from_name("Main").0);
    assert!(main_in.main);
    assert!(!main_in.optional);
    assert_eq!(main_in.layout, ChannelLayout::Stereo);
    assert_eq!(main_in.layout.channels(), 2);
    assert_eq!(main_in.name, "Main");
    // The in-place pair names the matching main output.
    assert_eq!(main_in.in_place_pair, Some(BusId::from_name("Main").0));

    let side = audio_port(&specs, BusDirection::Input, 1).expect("sidechain input");
    assert_eq!(side.id, BusId::from_name("Sidechain").0);
    assert!(!side.main);
    assert!(side.optional);
    assert_eq!(side.layout, ChannelLayout::Mono);
    assert_eq!(side.layout.channels(), 1);
    assert_eq!(side.name, "Sidechain");

    let main_out = audio_port(&specs, BusDirection::Output, 0).expect("main output");
    assert!(main_out.main);
    assert!(!main_out.optional);
    assert_eq!(main_out.layout.channels(), 2);
    assert_eq!(main_out.name, "Main");

    assert!(audio_port(&specs, BusDirection::Input, 2).is_none(), "no third input");
    assert!(audio_port(&specs, BusDirection::Output, 1).is_none(), "no second output");

    // The same buses, as media buses.
    assert_eq!(bus_count(&specs, Media::Audio, BusDirection::Input, false), 2);
    assert_eq!(bus_count(&specs, Media::Audio, BusDirection::Output, false), 1);
    let main_in = bus_info(&specs, Media::Audio, BusDirection::Input, 0, false).unwrap();
    assert_eq!((main_in.channels, main_in.name), (2, "Main"));
    assert!(main_in.main);
    assert!(main_in.default_active, "a non-optional bus is active by default");
    let side = bus_info(&specs, Media::Audio, BusDirection::Input, 1, false).unwrap();
    assert_eq!((side.channels, side.name), (1, "Sidechain"));
    assert!(!side.main, "sidechain is an aux bus");
    assert!(!side.default_active, "an optional bus is not active by default");
    let main_out = bus_info(&specs, Media::Audio, BusDirection::Output, 0, false).unwrap();
    assert_eq!((main_out.channels, main_out.name), (2, "Main"));
    assert!(main_out.main && main_out.default_active);
    assert!(bus_info(&specs, Media::Audio, BusDirection::Input, 2, false).is_none());
    assert!(bus_info(&specs, Media::Audio, BusDirection::Output, 1, false).is_none());
    assert!(bus_info(&specs, Media::Audio, BusDirection::Input, -1, false).is_none());

    // The declared layouts answer for the arrangements.
    let arr = |dir, i| get_bus_arrangement(&specs, dir, i);
    assert_eq!(arr(BusDirection::Input, 0), Some(SpeakerArr::kStereo));
    assert_eq!(arr(BusDirection::Input, 1), Some(SpeakerArr::kMono));
    assert_eq!(arr(BusDirection::Output, 0), Some(SpeakerArr::kStereo));
    assert_eq!(arr(BusDirection::Input, 2), None);
}

#[test]
fn bus_topology_connected_sidechain_reaches_the_dsp() {
    let all = BusActivation::new(true);
    let out = [host(0, 2)];
    let bufs = sidechain_block(&all, &[host(2, 2), host(4, 1)], &out);
    assert_eq!(bufs[0][0], 100.25, "sidechain sample visible in the DSP");

    let bufs = sidechain_block(&all, &[host(2, 2)], &out);
    assert_eq!(bufs[0][0], 1.0, "no sidechain: main input (0.5) doubled by the DSP");
    assert_eq!(bufs[1][63], 1.0, "whole block processed");
}

#[test]
fn activated_sidechain_reaches_the_dsp() {
    let scratch = skuiz::scratch::TopologyScratch::<Span>::new(&sidechain());
    let mut activation = BusActivation::new(false);
    let ins = [host(2, 2), host(4, 1)];
    let outs = [host(0, 2)];

    assert!(activation.activate_bus(&scratch, BusDirection::Input, 1, true));
    let bufs = sidechain_block(&activation, &ins, &outs);
    assert_eq!(bufs[0][0], 100.25, "sidechain sample visible in the DSP");
    assert_eq!(bufs[1][63], 100.25, "whole block processed");

    assert!(activation.activate_bus(&scratch, BusDirection::Input, 1, false));
    let bufs = sidechain_block(&activation, &ins, &outs);
    assert_eq!(bufs[0][0], 1.0, "deactivated sidechain: main input (0.5) doubled by the DSP");

    assert!(activation.activate_bus(&scratch, BusDirection::Input, 1, true));
    let bufs = sidechain_block(&activation, &[host(2, 2)], &outs);
    assert_eq!(bufs[0][0], 1.0, "unconnected sidechain must be inactive");

    // A bus index beyond the declaration is an error.
    assert!(!activation.activate_bus(&scratch, BusDirection::Input, 2, true));
}

#[test]
fn no_output_bus_still_processes() {
    let mut engine = Engine::new(SidechainFx, 8);
    let token = engine.begin_audio().unwrap();
    let mut ran = 0;
    run_block(
        &mut engine,
        &token,
        &BusActivation::new(true),
        &mut vec![],
        &[],
        &[HostBus::none(), HostBus::none()],
        &EventStage::with_capacity(4),
        64,
        |engine, token, _, _| {
            let (inputs, outputs) = engine.audio_core(token).bus_scratch.views();
            assert!(!inputs.main().unwrap().active());
            assert!(!outputs.main().unwrap().active());
            ran += 1;
        },
    );
    assert_eq!(ran, 1);
    engine.end_audio(token);
}

#[test]
fn stale_audio_never_reaches_the_dsp() {
    // Two output channels, one input: the second output is silenced.
    let scratch = skuiz::scratch::TopologyScratch::<Span>::new(&default_effect_buses());
    let actions = copy_main_into_output(&scratch, &[host(4, 1)], &[host(0, 2)]);
    assert!(matches!(actions[0], CopyAction::Copy { from: 4, to: 0 }));
    assert!(matches!(actions[1], CopyAction::Silence { to: 1 }));
    assert!(matches!(actions[2], CopyAction::Leave));
    // In place: nothing to do.
    let actions = copy_main_into_output(&scratch, &[host(0, 2)], &[host(0, 2)]);
    assert!(matches!(actions[0], CopyAction::Leave));
    assert!(matches!(actions[1], CopyAction::Leave));
    // No output at all.
    let actions = copy_main_into_output(&scratch, &[host(0, 2)], &[HostBus::none()]);
    assert!(matches!(actions[0], CopyAction::Leave));
}

#[test]
fn a_missing_channel_ends_the_bus() {
    let mut scratch = skuiz::scratch::TopologyScratch::<Span>::new(&default_effect_buses());
    let mut out = host(0, 2);
    out.channels[1] = None;
    wire_segment(&mut scratch, &BusActivation::new(true), &[], &[out], 3, 5);
    let (inputs, outputs) = scratch.views();
    let main = outputs.main().unwrap();
    assert_eq!(main.channels().len(), 1);
    assert_eq!(main.channel_mut(0).unwrap().buf, Some(Span { buf: 0, start: 3 }));
    assert_eq!(main.frames(), 5);
    assert_eq!(inputs.main().unwrap().channel(0).unwrap().buf, Some(Span { buf: 0, start: 3 }));
}

#[test]
fn arrangements_are_validated_against_the_declaration() {
    let specs = sidechain();
    let (mono, stereo, empty) = (SpeakerArr::kMono, SpeakerArr::kStereo, SpeakerArr::kEmpty);
    assert!(set_bus_arrangements(&specs, &[stereo, mono], &[stereo]));
    assert!(
        set_bus_arrangements(&specs, &[stereo, empty], &[stereo]),
        "empty stands in for a deactivated optional bus"
    );
    let rejects: Vec<(&str, Vec<u64>, Vec<u64>)> = vec![
        ("wrong sidechain layout", vec![stereo, stereo], vec![stereo]),
        ("mono main", vec![mono, mono], vec![stereo]),
        ("main cannot be deactivated", vec![empty, mono], vec![stereo]),
        ("sidechain missing", vec![stereo], vec![stereo]),
        ("wrong output layout", vec![stereo, mono], vec![mono]),
    ];
    for (what, ins, outs) in rejects {
        assert!(!set_bus_arrangements(&specs, &ins, &outs), "{what} must be rejected");
    }
}

#[test]
fn arrangements_are_the_ones_of_the_interface() {
    assert_eq!(arrangement_of(ChannelLayout::Mono), SpeakerArr::kMono);
    assert_eq!(arrangement_of(ChannelLayout::Stereo), SpeakerArr::kStereo);
    assert_eq!(arrangement_of(ChannelLayout::Discrete(6)), 0b11_1111);
    assert_eq!(EMPTY_ARRANGEMENT, SpeakerArr::kEmpty);
    assert_eq!(AFTER_TOUCH as u32, ControllerNumbers_::kAfterTouch as u32);
    assert_eq!(PITCH_BEND as u32, ControllerNumbers_::kPitchBend as u32);
}

#[test]
fn timed_param_events_split_the_block() {
    let mut engine = Engine::new(fixture(), 8);
    let token = engine.begin_audio().unwrap();
    let mut stage = EventStage::with_capacity(PARAM_EVENT_CAPACITY);
    // Out of order on the wire: 0.5 at frame 6, then 0.75 at frame 2.
    assert!(!engine.start_block(&token, &mut stage).notify_main);
    for (time, value) in [(6, 0.5), (2, 0.75)] {
        engine.stage_event(&mut stage, 8, ParamEvent { time, id: 0, value: bits(value) });
    }
    assert_eq!(stage.events().len(), 2);
    stage.sort();
    let mut buffers = vec![vec![0.0f32; 8]];
    run_block(
        &mut engine,
        &token,
        &BusActivation::new(true),
        &mut buffers,
        &[],
        &[host(0, 1)],
        &stage,
        8,
        |engine, token, buffers, _| {
            let core = engine.audio_core(token);
            let gain = core.processor.gain as f32;
            let (_, outputs) = core.bus_scratch.views();
            for channel in outputs.main().unwrap().channels() {
                let span = channel.buf.unwrap();
                buffers[span.buf][span.start..span.start + channel.len].fill(gain);
            }
        },
    );
    assert_eq!(&buffers[0][0..2], &[1.0; 2], "default before frame 2");
    assert_eq!(&buffers[0][2..6], &[0.75; 4], "first event at frame 2");
    assert_eq!(&buffers[0][6..8], &[0.5; 2], "second event at frame 6");
    // The final value sticks for the next block.
    assert_eq!(engine.mirror().get(0), Some(bits(0.5)));
    engine.end_audio(token);
}

#[test]
fn block_plans_alternate_changes_and_segments() {
    let events = vec![
        ParamEvent { time: 0, id: 0, value: 1 },
        ParamEvent { time: 3, id: 0, value: 2 },
        ParamEvent { time: 9, id: 0, value: 3 },
    ];
    let mut plan = BlockPlan::new(8);
    let mut steps = Vec::new();
    while let Some(step) = plan.next_step(&events) {
        steps.push(step);
    }
    assert_eq!(
        steps,
        vec![
            Step::Apply { id: 0, value: 1 },
            Step::Render { start: 0, end: 3 },
            Step::Apply { id: 0, value: 2 },
            Step::Render { start: 3, end: 8 },
            Step::Apply { id: 0, value: 3 },
        ]
    );
}

#[test]
fn staging_is_bounded_and_clamped() {
    let defs = Fixture::params();
    let mut stage = EventStage::with_capacity(1);
    let unknown = ParamEvent { time: 0, id: 9, value: 0 };
    assert_eq!(stage.collect_param_event(defs, 8, unknown), Staged::Ignored);
    assert_eq!(stage.collect_param_change(defs, 8, -4, 0, 5), Staged::Kept);
    assert_eq!(stage.events(), &vec![ParamEvent { time: 0, id: 0, value: 5 }]);
    assert_eq!(stage.collect_param_change(defs, 8, 0, 0, 5), Staged::Dropped);
    // A full stage drops before it looks at the id.
    assert_eq!(stage.collect_param_event(defs, 8, unknown), Staged::Dropped);
    // Points of an unknown parameter are never counted.
    assert_eq!(stage.collect_param_change(defs, 8, 0, 9, 5), Staged::Ignored);
    stage.clear();
    assert_eq!(stage.collect_param_change(defs, 8, 99, 0, 5), Staged::Kept);
    assert_eq!(stage.events()[0].time, 8);
}

#[test]
fn automation_without_room_is_counted() {
    let mut engine = Engine::new(fixture(), 8);
    let mut stage = EventStage::with_capacity(1);
    engine.stage_change(&mut stage, 8, 3, 0, bits(0.5));
    engine.stage_change(&mut stage, 8, 3, 0, bits(0.6));
    engine.stage_change(&mut stage, 8, 3, 9, bits(0.6));
    assert_eq!(stage.events(), &vec![ParamEvent { time: 3, id: 0, value: bits(0.5) }]);
    assert_eq!(engine.diag().param_events_dropped, 1);
    engine.stage_event(&mut stage, 8, ParamEvent { time: 0, id: 9, value: 0 });
    assert_eq!(engine.diag().param_events_dropped, 2);
}

#[test]
fn renders_audio_and_reports_midi() {
    let mut engine = Engine::new(fixture(), 8);
    engine.set_param(0, bits(0.5));
    assert_eq!(engine.mirror().get(0), Some(bits(0.5)));
    engine.set_param(0, bits(0.75));
    assert_eq!(engine.mirror().get(0), Some(bits(0.75)));
    // Unknown ids leave no trace in the mirror.
    engine.set_param(999, bits(0.1));
    assert_eq!(engine.mirror().get(0), Some(bits(0.75)));
    assert_eq!(engine.mirror().get(999), None);
    engine.set_param(0, bits(0.5));

    let token = engine.begin_audio().unwrap();
    let mut buffers = vec![vec![1.0f32; 64], vec![1.0f32; 64]];
    let stage = EventStage::with_capacity(4);
    run_block(
        &mut engine,
        &token,
        &BusActivation::new(false),
        &mut buffers,
        &[host(0, 2)],
        &[host(0, 2)],
        &stage,
        64,
        |engine, token, buffers, _| {
            let core = engine.audio_core(token);
            let (_, outputs) = core.bus_scratch.views();
            for channel in outputs.main().unwrap().channels() {
                let span = channel.buf.unwrap();
                for s in buffers[span.buf][..channel.len].iter_mut() {
                    *s *= core.processor.gain as f32;
                }
            }
            core.midi_out.push(7, MidiEvent::from_midi1([0x90, 64, 100]));
        },
    );
    assert!(buffers[0].iter().all(|s| (s - 0.5).abs() < 1e-6), "audio not processed");
    assert!(buffers[1].iter().all(|s| (s - 0.5).abs() < 1e-6));

    let midi = engine.midi_out(&token);
    assert_eq!(midi_count(midi), 1);
    assert_eq!(midi_event(midi, 0), Some((7, [0x90, 64, 100])));
    assert_eq!(midi_event(midi, 9), None);
    engine.end_audio(token);
}

#[test]
fn midi_past_capacity_is_counted() {
    let mut engine = Engine::new(fixture(), 1);
    let token = engine.begin_audio().unwrap();
    for _ in 0..4 {
        engine.audio_core(&token).midi_out.push(0, note_on(0, 60, 100));
    }
    engine.count_midi_drops();
    assert_eq!(engine.diag().midi_events_dropped, 3);
    engine.end_audio(token);
}

#[test]
fn exposes_parameters_and_choice_labels() {
    let defs = Fixture::params();
    assert_eq!(defs.len(), 2);
    let info = param_info(defs, 1).unwrap();
    assert_eq!(info.def.id, 1);
    assert_eq!(info.def.name, "Mode");
    // Choice params report the index range, not the unused limits.
    assert_eq!(info.def.low(), skuiz::params::Bound::Index(0));
    assert_eq!(info.def.high(), skuiz::params::Bound::Index(2));
    assert_eq!(info.def.choices.len(), 3);
    let labels: Vec<_> = (0..3).map(|i| choice_label(defs, 1, i).unwrap()).collect();
    assert_eq!(labels, ["Off", "On", "Auto"]);
    assert_eq!(choice_label(defs, 1, 99), None);
    assert_eq!(choice_label(defs, 0, 0), None, "continuous param has no labels");
    assert_eq!(choice_label(defs, 7, 0), None);
    assert!(param_info(defs, 2).is_none());
}

#[test]
fn choice_parameters_report_as_stepped_lists() {
    let defs = Fixture::params();
    let info = param_info(defs, 1).unwrap();
    assert_eq!(info.step_count, 2, "three choices means two steps");
    assert!(info.stepped);
    let gain = param_info(defs, 0).unwrap();
    assert_eq!((gain.step_count, gain.stepped), (0, false));

    // The middle choice displays its label, and the label parses back.
    let mut text = [0u16; 128];
    copy_wstring(&value_text(&info.def, 1, "1.000"), &mut text);
    let shown = read_wstring(&text);
    assert_eq!(shown, "On");
    assert!(matches!(typed_value(&info.def, &shown), TypedValue::Choice(1)));
    // Everything else is a number.
    match typed_value(&info.def, " 2.5 ") {
        TypedValue::Number(n) => assert_eq!(n, "2.5"),
        TypedValue::Choice(_) => panic!("not a label"),
    }
    assert_eq!(value_text(&gain.def, 1, "0.500"), "0.500");
}

#[test]
fn state_round_trips_with_size_query() {
    let mut a = Engine::new(fixture(), 8);
    a.set_param(0, bits(1.75));
    a.set_param(1, bits(2.0));
    let SaveStart::Done(data) = a.save_state() else {
        panic!("stopped engines answer at once");
    };
    // Without a buffer only the size is asked for.
    let (size, copy) = answer_size_query(data.len(), None);
    assert!(size > 0 && !copy);
    let (again, copy) = answer_size_query(data.len(), Some(size));
    assert_eq!(again, size);
    assert!(copy);
    // A buffer that is too small gets nothing.
    let (_, copy) = answer_size_query(data.len(), Some(size - 1));
    assert!(!copy);

    let mut b = Engine::new(fixture(), 8);
    assert_eq!(b.load_state(data), LoadStart::Done(true));
    assert_eq!(b.mirror().get(0), Some(bits(1.75)));
    assert_eq!(b.mirror().get(1), Some(bits(2.0)));
    // Garbage is rejected.
    assert_eq!(b.load_state(vec![1, 2, 3]), LoadStart::Done(false));
    assert_eq!(b.load_state(vec![]), LoadStart::Done(false));
}

#[test]
fn param_flush_then_state_roundtrip() {
    let mut a = Engine::new(fixture(), 8);
    assert!(a.flush_param(0, bits(0.0556)));
    assert_eq!(a.mirror().get(0), Some(bits(0.0556)));
    let SaveStart::Done(data) = a.save_state() else {
        panic!("stopped engines answer at once");
    };
    assert!(!data.is_empty(), "state save wrote no bytes");

    // Written a byte at a time.
    let mut sink = Vec::new();
    let mut offset = 0;
    loop {
        sink.push(data[offset]);
        match after_write(offset, 1, data.len()) {
            WriteVerdict::More(next) => offset = next,
            WriteVerdict::Done => break,
            WriteVerdict::Bad => panic!("one byte was written"),
        }
    }
    assert_eq!(sink, data);

    // And read back a byte at a time.
    let mut reader = StateReader::new(Some(MAX_STATE_BYTES));
    for byte in &sink {
        assert_eq!(reader.feed(1, &[*byte]), ChunkVerdict::More);
    }
    assert_eq!(reader.feed(0, &[]), ChunkVerdict::Done);
    let mut b = Engine::new(fixture(), 8);
    assert_eq!(b.load_state(reader.finish()), LoadStart::Done(true));
    assert_eq!(b.mirror().get(0), Some(bits(0.0556)));
}

#[test]
fn state_round_trips_through_a_stream() {
    let mut a = Engine::new(fixture(), 8);
    a.set_param(0, bits(1.5));
    a.set_param(1, bits(2.0));
    let SaveStart::Done(data) = a.save_state() else {
        panic!("stopped engines answer at once");
    };
    assert!(!data.is_empty());
    assert_eq!(after_write(0, data.len() as i64, data.len()), WriteVerdict::Done);
    let mut reader = StateReader::new(None);
    assert_eq!(reader.feed(data.len() as i64, &data), ChunkVerdict::More);
    assert_eq!(reader.feed(0, &data), ChunkVerdict::Done);
    let mut b = Engine::new(fixture(), 8);
    assert_eq!(b.load_state(reader.finish()), LoadStart::Done(true));
    assert_eq!(b.mirror().get(0), Some(bits(1.5)), "gain did not round-trip");
    assert_eq!(b.mirror().get(1), Some(bits(2.0)), "choice did not round-trip");
}

#[test]
fn hostile_streams_are_refused() {
    assert_eq!(CHUNK_BYTES, 4096);
    let chunk = [0u8; 8];
    let mut reader = StateReader::new(Some(10));
    assert_eq!(reader.feed(8, &chunk), ChunkVerdict::More);
    assert_eq!(reader.feed(8, &chunk), ChunkVerdict::Bad);
    let mut reader = StateReader::new(Some(10));
    assert_eq!(reader.feed(-1, &chunk), ChunkVerdict::Bad);
    assert_eq!(after_write(0, 0, 4), WriteVerdict::Bad);
    assert_eq!(after_write(0, -1, 4), WriteVerdict::Bad);
}

#[test]
fn reset_clears_dsp_state_but_not_parameters() {
    let mut engine = Engine::new(fixture(), 8);
    engine.set_param(0, bits(1.5));
    engine.with_main().unwrap().processor.blocks = 2;
    assert!(engine.reset());
    assert_eq!(engine.with_main().unwrap().processor.blocks, 0, "reset did not clear DSP state");
    assert_eq!(engine.with_main().unwrap().processor.gain, 1.5);
    assert_eq!(engine.mirror().get(0), Some(bits(1.5)));
}

#[test]
fn reset_reaches_the_processor_stopped_and_running() {
    let mut engine = Engine::new(fixture(), 8);
    assert!(engine.reset());
    assert_eq!(engine.with_main().unwrap().processor.resets, 1, "stopped: reset applies directly");
    let token = engine.begin_audio().unwrap();
    assert!(engine.reset());
    assert_eq!(engine.audio_core(&token).processor.resets, 1, "running: reset waits for a block");
    engine.drain_commands();
    assert_eq!(engine.audio_core(&token).processor.resets, 2, "landed at the top of the next block");
    engine.end_audio(token);
}

#[test]
fn flush_applies_while_stopped() {
    let mut engine = Engine::new(fixture(), 8);
    assert!(engine.flush_param(0, bits(0.25)));
    assert_eq!(engine.mirror().get(0), Some(bits(0.25)));
}

#[test]
fn flush_applies_while_processing() {
    let mut engine = Engine::new(fixture(), 8);
    let token = engine.begin_audio().unwrap();
    assert!(engine.flush_param(0, bits(0.6)));
    assert_eq!(engine.mirror().get(0), Some(bits(0.6)));
    engine.end_audio(token);
}

#[test]
fn flush_during_a_state_load_neither_wedges_nor_lies() {
    let mut engine = Engine::new(fixture(), 8);
    assert!(engine.begin_main());
    assert!(!engine.flush_param(0, bits(0.9)));
    assert_eq!(engine.mirror().get(0), Some(bits(1.0)), "a refused flush must not half-apply");
    assert_eq!(engine.diag().commands_dropped, 1);
    engine.end_main();

    let mut data = 0u32.to_le_bytes().to_vec();
    data.extend_from_slice(&0.5f64.to_le_bytes());
    assert_eq!(engine.load_state(data), LoadStart::Done(true));
    assert_eq!(engine.mirror().get(0), Some(bits(0.5)));
    assert!(engine.flush_param(0, bits(0.9)));
    assert_eq!(engine.mirror().get(0), Some(bits(0.9)), "a later flush lands normally");
}

#[test]
fn midi1_and_midi2_events_take_their_own_wire_format() {
    assert_eq!(
        emit_midi(3, &note_on(0, 60, 100), 64, 0),
        (3, WireMidi::Midi1([0x90, 60, 100]))
    );
    assert_eq!(
        emit_midi(5, &note_on2(1, 60, 0xF800), 64, 0),
        (5, WireMidi::Ump([0x4091_3C00, 0xF800_0000, 0, 0]))
    );
    // A note port is offered to those who emit.
    assert!(offers(Extension::NotePorts, true, false, true));
    assert!(!offers(Extension::NotePorts, false, false, true));
}

#[test]
fn processes_audio_and_emits_events() {
    let specs = default_effect_buses();
    assert_eq!(bus_count(&specs, Media::Audio, BusDirection::Input, true), 1);
    assert_eq!(bus_count(&specs, Media::Events, BusDirection::Output, true), 1);
    assert_eq!(bus_count(&specs, Media::Events, BusDirection::Output, false), 0);
    assert_eq!(bus_count(&specs, Media::Events, BusDirection::Input, true), 0);
    let events = bus_info(&specs, Media::Events, BusDirection::Output, 0, true).unwrap();
    assert_eq!((events.channels, events.name), (16, "MIDI Out"));
    assert!(events.main && events.default_active);

    let (frame, event) = emit_event(0, &MidiEvent::from_midi1([0x90, 64, 100]), 64, 0).unwrap();
    assert_eq!(frame, 0);
    assert_eq!(event, NoteEvent::NoteOn { channel: 0, pitch: 64, velocity: 100 });
}

#[test]
fn every_message_kind_has_its_event() {
    let event = |bytes| emit_event(1, &MidiEvent::from_midi1(bytes), 8, 2).map(|(_, e)| e);
    assert_eq!(
        event([0x83, 60, 5]),
        Some(NoteEvent::NoteOff { channel: 3, pitch: 60, velocity: 5 })
    );
    assert_eq!(
        event([0xA2, 61, 7]),
        Some(NoteEvent::PolyPressure { channel: 2, pitch: 61, pressure: 7 })
    );
    assert_eq!(
        event([0xB1, 7, 64]),
        Some(NoteEvent::Controller { control: 7, channel: 1, value: 64, value2: 0 })
    );
    assert_eq!(
        event([0xD1, 33, 0]),
        Some(NoteEvent::Controller { control: AFTER_TOUCH, channel: 1, value: 33, value2: 0 })
    );
    assert_eq!(
        event([0xE1, 1, 64]),
        Some(NoteEvent::Controller { control: PITCH_BEND, channel: 1, value: 1, value2: 64 })
    );
    assert!(emit_event(0, &note_on2(0, 60, 1), 8, 0).is_none());
    assert_eq!(control_change(1, 7, 64).midi1_bytes(), Some([0xB1, 7, 64]));
    assert_eq!(note_off(3, 60, 5).midi1_bytes(), Some([0x83, 60, 5]));
}

#[test]
fn events_land_inside_the_block() {
    assert_eq!(land(3, 2, 64), 5);
    assert_eq!(land(60, 10, 64), 63);
    assert_eq!(land(3, 2, 0), 0);
}

#[test]
fn cid_is_stable_and_distinct() {
    let a = derive_cid("org.skuiz.shared-gain");
    assert_eq!(a, derive_cid("org.skuiz.shared-gain"), "cid must be stable");
    assert_ne!(a, derive_cid("org.skuiz.trigger-note"), "different plugins collide");
    assert_ne!(a, derive_cid("org.skuiz.shared-gai"), "near-miss ids collide");
    assert!(a.iter().any(|b| *b != 0), "cid must not be all zeroes");
}

#[test]
fn cids_fold_four_hashes() {
    // An empty id leaves the bases themselves, folded.
    let cid = derive_cid("");
    let word = 0xcbf2_9ce4_8422_2325u64;
    let folded = ((word >> 32) as u32) ^ (word as u32);
    assert_eq!(&cid[0..4], &folded.to_be_bytes());
    // Published FNV-1a test vector.
    assert_eq!(hash_bytes(word, b"foobar"), 0x85944171f73967e8);
}

#[test]
fn text_fields_are_terminated_and_cut() {
    let mut field = [9u8; 4];
    write_cstr(&mut field, "abcdef");
    assert_eq!(field, [b'a', b'b', b'c', 0]);
    let mut field = [9u8; 4];
    copy_cstring("ab", &mut field);
    assert_eq!(&field[..3], &[b'a', b'b', 0]);
    let mut field = [9u16; 4];
    copy_wstring("abcdef", &mut field);
    assert_eq!(field, [97, 98, 99, 0]);
    write_cstr(&mut [], "x");
    copy_wstring("x", &mut []);
}

#[test]
fn wide_text_reads_back() {
    let clef = "G\u{1D11E}!";
    assert_eq!(utf16_units(clef), clef.encode_utf16().collect::<Vec<u16>>());
    let mut field = [7u16; STRING_UNITS];
    copy_wstring(clef, &mut field);
    assert_eq!(read_wstring(&field), clef);
    // A lone surrogate becomes the replacement character.
    assert_eq!(read_wstring(&[0xD834, 0]), "\u{FFFD}");
    assert_eq!(wide("a"), vec![97, 0]);
    assert_eq!(trim("  a b \t"), "a b");
}

#[test]
fn offers_an_editor_view_with_the_right_size() {
    assert!(offers(Extension::Gui, false, Fixture::editor_html().is_some(), true));
    assert!(!offers(Extension::Gui, false, SidechainFx::editor_html().is_some(), true));
    assert!(!offers(Extension::Gui, false, true, false));
    assert_eq!(Fixture::editor_size(), (321, 123));
    assert_eq!(extent(0, 321), 321);
    assert_eq!(extent(10, 4), 0);
}
