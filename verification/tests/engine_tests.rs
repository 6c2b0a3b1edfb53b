use skuiz::block::{EventStage, ParamEvent};
use skuiz::bus::{default_effect_buses, AudioBusSpec};
use skuiz::engine::{
    Command, DrainReport, Engine, LoadStart, SaveStart, COMMAND_CAPACITY, STATE_COMMAND_CAPACITY,
};
use skuiz::handle::EngineHandle;
use skuiz::lww::Lww;
use skuiz::mirror::{judge_snapshot, ParamMirror, SnapshotVerdict, SNAPSHOT_RETRIES};
use skuiz::notice::{Notices, Pending};
use skuiz::params::{Bound, ParamDef, PluginInfo};
use skuiz::processor::{default_load_state, default_save_state, snapshot_params, Processor};
use skuiz::ring::{pop_slot, push_slot, Ring};

#[derive(Debug)]
struct Gain(f64);

impl Processor for Gain {
    fn info() -> PluginInfo {
        PluginInfo { id: "test.gain", name: "g", vendor: "t", version: "0", description: "" }
    }
    fn params() -> &'static [ParamDef] {
        const DEFS: &[ParamDef] = &[ParamDef {
            id: 7,
            name: "gain",
            min: 0,
            max: 0x3FF0_0000_0000_0000,
            default: 0x3FE0_0000_0000_0000,
            choices: &[],
            shared: true,
        }];
        DEFS
    }
    fn audio_buses() -> Vec<AudioBusSpec> {
        default_effect_buses()
    }
    fn set_param(&mut self, _id: u32, v: u64) {
        self.0 = f64::from_bits(v);
    }
    fn get_param(&self, _id: u32) -> u64 {
        self.0.to_bits()
    }
    fn reset(&mut self) {}
    fn latency(&self) -> u32 {
        0
    }
    fn save_state(&self) -> Vec<u8> {
        default_save_state(self)
    }
    fn load_state(&mut self, data: &Vec<u8>) -> bool {
        default_load_state(self, data)
    }
}

/// A processor whose latency moves at runtime.
#[derive(Debug)]
struct DynLatency(u32);

impl Processor for DynLatency {
    fn info() -> PluginInfo {
        PluginInfo { id: "test.dynlat", name: "d", vendor: "t", version: "0", description: "" }
    }
    fn params() -> &'static [ParamDef] {
        &[]
    }
    fn audio_buses() -> Vec<AudioBusSpec> {
        default_effect_buses()
    }
    fn set_param(&mut self, _id: u32, _v: u64) {}
    fn get_param(&self, _id: u32) -> u64 {
        0
    }
    fn reset(&mut self) {}
    fn latency(&self) -> u32 {
        self.0
    }
    fn save_state(&self) -> Vec<u8> {
        default_save_state(self)
    }
    fn load_state(&mut self, data: &Vec<u8>) -> bool {
        default_load_state(self, data)
    }
}

fn bits(v: f64) -> u64 {
    v.to_bits()
}

fn engine() -> Engine<Gain> {
    Engine::new(Gain(0.5), 64)
}

fn mirrored(e: &Engine<Gain>) -> Option<f64> {
    e.mirror().get(7).map(f64::from_bits)
}

fn saved(e: &mut Engine<Gain>) -> Option<Vec<u8>> {
    match e.save_state() {
        SaveStart::Done(data) => Some(data),
        _ => None,
    }
}

#[test]
fn state_roundtrip() {
    let a = Gain(0.25);
    let data = a.save_state();
    let mut b = Gain(0.9);
    assert!(b.load_state(&data));
    assert_eq!(f64::from_bits(b.get_param(7)), 0.25);
    // Corrupt or unknown data is not applied.
    let mut c = Gain(0.9);
    assert!(!c.load_state(&vec![1, 2, 3]));
    assert!(!c.load_state(&vec![]));
    let mut bad = 99u32.to_le_bytes().to_vec();
    bad.extend_from_slice(&0.1f64.to_le_bytes());
    // Valid format, unknown id: fine, skipped.
    assert!(c.load_state(&bad));
    assert_eq!(f64::from_bits(c.get_param(7)), 0.9);
}

#[test]
fn state_is_id_and_value_in_little_endian() {
    let mut want = 7u32.to_le_bytes().to_vec();
    want.extend_from_slice(&0.25f64.to_le_bytes());
    assert_eq!(Gain(0.25).save_state(), want);
    assert_eq!(snapshot_params(&Gain(0.25)), vec![(7, bits(0.25))]);
}

#[test]
fn processors_have_no_editor_and_no_midi_unless_they_say_so() {
    assert!(!Gain::emits_midi());
    assert!(Gain::editor_html().is_none());
    assert_eq!(Gain::editor_size(), (400, 300));
}

#[test]
fn choice_param_range_and_labels() {
    let cont = ParamDef {
        id: 0,
        name: "g",
        min: bits(-6.0),
        max: bits(6.0),
        default: bits(0.0),
        choices: &[],
        shared: true,
    };
    assert_eq!(cont.low(), Bound::Value(bits(-6.0)));
    assert_eq!(cont.high(), Bound::Value(bits(6.0)));
    assert_eq!(cont.label(0), None);

    // The declared limits are ignored for choice params: the range is the
    // index range.
    let modes = ParamDef {
        id: 1,
        name: "Mode",
        min: bits(99.0),
        max: bits(99.0),
        default: bits(0.0),
        choices: &["A", "B", "C"],
        shared: true,
    };
    assert_eq!(modes.low(), Bound::Index(0));
    assert_eq!(modes.high(), Bound::Index(2));
    assert_eq!(modes.label(0), Some("A"));
    assert_eq!(modes.label(2.4f64.round() as i64), Some("C"));
    assert_eq!(modes.label(7), None);
    assert_eq!(modes.label(-1), None);
}

#[test]
fn ring_round_trips_and_reports_full() {
    let mut ring: Ring<u32> = Ring::new(4);
    assert!(ring.pop().is_none());
    for i in 0..4 {
        ring.push(i).unwrap();
    }
    // Full: the value is handed back.
    assert_eq!(ring.push(99), Err(99));
    assert_eq!(ring.pop(), Some(0));
    // Around the end.
    ring.push(4).unwrap();
    for want in 1..=4 {
        assert_eq!(ring.pop(), Some(want));
    }
    assert!(ring.pop().is_none());
}

#[test]
fn rings_keep_order_over_many_turns() {
    let mut ring: Ring<usize> = Ring::new(256);
    let mut got = Vec::new();
    let mut next = 0;
    while got.len() < 10_000 {
        while next < 10_000 && ring.push(next).is_ok() {
            next += 1;
        }
        while let Some(v) = ring.pop() {
            got.push(v);
        }
    }
    assert_eq!(got, (0..10_000).collect::<Vec<_>>());
}

#[test]
fn a_ring_hands_out_the_first_it_took() {
    let mut ring: Ring<u32> = Ring::new(3);
    for v in 0..4 {
        assert_eq!(ring.push(v), Ok(()));
    }
    assert_eq!(ring.push(4), Err(4), "four fit");
    assert_eq!((ring.get(0), ring.get(3), ring.get(4)), (Some(&0), Some(&3), None));
    assert_eq!(ring.pop(), Some(0));
    assert_eq!(ring.push(5), Ok(()));
    assert_eq!((ring.get(0), ring.get(3)), (Some(&1), Some(&5)));
    let rest: Vec<u32> = std::iter::from_fn(|| ring.pop()).collect();
    assert_eq!(rest, vec![1, 2, 3, 5]);
    assert_eq!(ring.pop(), None);
    assert_eq!(ring.get(0), None);
}

#[test]
fn a_change_while_stopped_leaves_the_rest_waiting() {
    let mut engine = engine();
    let token = engine.begin_audio().unwrap();
    assert!(engine.set_param(7, bits(0.1)));
    assert!(engine.reset());
    engine.end_audio(token);
    // The change lands alone; what waits goes on waiting.
    assert!(engine.set_param(7, bits(0.2)));
    assert_eq!(engine.mirror().get(7), Some(bits(0.2)));
    assert!(!engine.is_in_force(7, bits(0.2)), "a change of it still waits");
    assert!(engine.is_set_to(7, bits(0.2)));
    let token = engine.begin_audio().unwrap();
    assert!(engine.drain_commands().notify_main, "the rest runs with the next block");
    assert_eq!(engine.mirror().get(7), Some(bits(0.2)), "and undoes nothing");
    assert!(engine.is_in_force(7, bits(0.2)));
    assert!(!engine.drain_commands().notify_main);
    engine.end_audio(token);
}

#[test]
fn values_that_wait_can_be_replaced() {
    let mut ring: Ring<u32> = Ring::new(2);
    ring.push(1).unwrap();
    ring.pop();
    ring.push(2).unwrap();
    ring.push(3).unwrap();
    ring.set(1, 9);
    assert_eq!((ring.pop(), ring.pop(), ring.pop()), (Some(2), Some(9), None));
}

#[test]
fn command_queue_multi_producer() {
    let mut queue: Ring<Command> = Ring::new(COMMAND_CAPACITY);
    queue.push(Command::SetParam { id: 1, value: bits(0.5) }).unwrap();
    queue.push(Command::Reset).unwrap();
    match queue.pop() {
        Some(Command::SetParam { id, value }) => assert_eq!((id, f64::from_bits(value)), (1, 0.5)),
        _ => panic!("expected SetParam"),
    }
    assert!(matches!(queue.pop(), Some(Command::Reset)));
    assert!(queue.pop().is_none());
}

#[test]
fn mirror_publish_and_snapshot() {
    let defs = [
        ParamDef {
            id: 7,
            name: "a",
            min: bits(0.0),
            max: bits(1.0),
            default: bits(0.5),
            choices: &[],
            shared: true,
        },
        ParamDef {
            id: 9,
            name: "b",
            min: bits(0.0),
            max: bits(1.0),
            default: bits(0.0),
            choices: &[],
            shared: true,
        },
    ];
    let mut m = ParamMirror::new(&defs, |id| if id == 7 { bits(0.5) } else { bits(0.0) });
    assert_eq!(m.get(7), Some(bits(0.5)));
    assert_eq!(m.get(9), Some(bits(0.0)));
    assert_eq!(m.get(42), None);
    m.publish_all(&[(7, bits(0.75)), (9, bits(1.0))]);
    assert_eq!(m.snapshot(), vec![(7, bits(0.75)), (9, bits(1.0))]);
}

#[test]
fn torn_snapshots_are_retried_but_not_forever() {
    assert_eq!(judge_snapshot(4, 4, 0), SnapshotVerdict::Consistent);
    assert_eq!(judge_snapshot(4, 6, 0), SnapshotVerdict::Retry);
    assert_eq!(judge_snapshot(5, 5, 0), SnapshotVerdict::Retry);
    assert_eq!(judge_snapshot(5, 5, SNAPSHOT_RETRIES), SnapshotVerdict::GiveUp);
}

#[test]
fn stopped_engine_applies_directly() {
    let mut e = engine();
    assert!(!e.is_processing());
    assert!(e.set_param(7, bits(0.9)));
    assert_eq!(mirrored(&e), Some(0.9));
    let data = saved(&mut e).unwrap();
    assert_eq!(e.load_state(data), LoadStart::Done(true));
}

#[test]
fn running_engine_round_trips_state_and_params() {
    let mut e = engine();
    let token = e.begin_audio().unwrap();
    assert!(e.is_processing());
    let mut saw_notify = false;

    assert!(e.set_param(7, bits(0.25)));
    assert!(matches!(e.save_state(), SaveStart::Pending));
    saw_notify |= e.drain_commands().notify_main;
    let data = e.finish_save().expect("an answer").expect("the state");
    assert_eq!(e.load_state(data), LoadStart::Pending);
    saw_notify |= e.drain_commands().notify_main;
    assert_eq!(e.finish_load(), Some(true));
    assert_eq!(mirrored(&e), Some(0.25));

    assert!(saw_notify, "the queued change asks for a refresh");
    e.end_audio(token);
    assert!(!e.is_processing());
}

#[test]
fn state_round_trip_works_with_a_full_param_queue() {
    let mut e = engine();
    let token = e.begin_audio().unwrap();
    for _ in 0..COMMAND_CAPACITY {
        assert!(e.set_param(7, bits(0.5)));
    }
    assert!(!e.set_param(7, bits(0.5)), "queue full: push reports it");

    assert!(matches!(e.save_state(), SaveStart::Pending));
    e.drain_commands();
    let data = e.finish_save().expect("an answer").expect("save with full param queue");
    assert_eq!(e.load_state(data), LoadStart::Pending);
    e.drain_commands();
    assert_eq!(e.finish_load(), Some(true));

    assert_eq!(mirrored(&e), Some(0.5));
    assert!(e.diag().commands_dropped >= 1, "the failed push was counted");
    e.end_audio(token);
}

#[test]
fn concurrent_state_round_trips_serialize_and_complete() {
    let mut e = engine();
    let token = e.begin_audio().unwrap();
    // One round trip after the other; each is answered at the next block.
    for _ in 0..2 {
        assert!(matches!(e.save_state(), SaveStart::Pending));
        e.drain_commands();
        assert!(e.finish_save().unwrap().is_some());
        e.drain_commands();
    }
    assert_eq!(e.diag().state_responses_dropped, 0);
    e.end_audio(token);
}

#[test]
fn state_operations_are_bounded_too() {
    let mut e = engine();
    let token = e.begin_audio().unwrap();
    for _ in 0..STATE_COMMAND_CAPACITY {
        assert!(matches!(e.save_state(), SaveStart::Pending));
    }
    assert!(matches!(e.save_state(), SaveStart::Refused));
    assert_eq!(e.load_state(vec![]), LoadStart::Refused);
    // Nothing is answered before a block has run.
    assert!(e.finish_save().is_none());
    assert!(e.finish_load().is_none());
    e.end_audio(token);
}

#[test]
fn a_refused_state_is_reported_stopped_and_running() {
    let mut e = engine();
    assert_eq!(e.load_state(vec![1, 2, 3]), LoadStart::Done(false));
    let token = e.begin_audio().unwrap();
    assert_eq!(e.load_state(vec![1, 2, 3]), LoadStart::Pending);
    assert_eq!(e.drain_commands(), DrainReport { notify_main: false });
    assert_eq!(e.finish_load(), Some(false));
    assert_eq!(mirrored(&e), Some(0.5));
    e.end_audio(token);
}

#[test]
fn ipc_frame_dropped_by_full_queue_is_not_marked_and_heals() {
    let mut e = engine();
    let token = e.begin_audio().unwrap();
    let mut lww = Lww::new(1, 1);

    for seq in 1..=COMMAND_CAPACITY as u64 {
        assert!(lww.accept_with(7, Some((seq, 1)), || e.set_param(7, bits(0.1))));
    }
    // The queue is full: this frame's command goes nowhere...
    let lost = (COMMAND_CAPACITY as u64 + 1, 1);
    assert!(!lww.accept_with(7, Some(lost), || e.set_param(7, bits(0.9))));
    // ...and leaves no mark.
    assert_eq!(lww.known_version(7), Some((COMMAND_CAPACITY as u64, 1)));

    // The queue drains, then the same version arrives again.
    e.drain_commands();
    assert!(lww.accept_with(7, Some(lost), || e.set_param(7, bits(0.9))));
    e.drain_commands();
    assert_eq!(mirrored(&e), Some(0.9), "converged");
    e.end_audio(token);
}

#[test]
fn local_edit_dropped_by_full_queue_is_not_stamped() {
    let mut e = engine();
    let token = e.begin_audio().unwrap();
    let mut lww = Lww::new(1, 1);
    for _ in 0..COMMAND_CAPACITY {
        assert!(e.set_param(7, bits(0.5)));
    }
    assert_eq!(lww.stamp_with(7, || e.set_param(7, bits(0.9))), None);
    assert_eq!(lww.known_version(7), None, "no version was claimed");
    e.end_audio(token);
}

#[test]
fn simultaneous_editors_converge_on_the_highest_version() {
    let mut e = engine();
    let token = e.begin_audio().unwrap();
    let mut lww = Lww::new(1, 1);
    let mut stamped = Vec::new();
    for n in 0..8 {
        let value = 0.5 + n as f64 * 0.01;
        let version = lww.stamp_with(7, || e.set_param(7, bits(value))).expect("room for 8 edits");
        stamped.push((version, value));
    }
    e.drain_commands();
    e.end_audio(token);

    let (best_version, best_value) = stamped.iter().max_by_key(|(v, _)| *v).unwrap();
    assert_eq!(mirrored(&e), Some(*best_value));
    assert_eq!(lww.known_version(7), Some(*best_version));
}

#[test]
fn handle_outlives_engine_safely() {
    let mut handle = EngineHandle::new(engine());
    assert!(handle.close().is_some());
    assert!(!handle.set_param(7, bits(0.5)), "gone instance: not accepted");
    assert!(handle.snapshot_params().is_empty());
    assert!(handle.engine().is_none());
}

#[test]
fn handles_reach_a_living_engine() {
    let mut handle = EngineHandle::new(engine());
    assert!(handle.set_param(7, bits(0.75)));
    assert_eq!(handle.snapshot_params(), vec![(7, bits(0.75))]);
}

#[test]
fn repeated_start_stop_cycles_apply_queued_changes() {
    let mut e = engine();
    for cycle in 0..20 {
        let token = e.begin_audio().unwrap();
        let want = (cycle as f64 + 1.0) / 100.0;
        assert!(e.set_param(7, bits(want)));
        assert!(e.reset());
        e.drain_commands();
        e.end_audio(token);
        assert_eq!(mirrored(&e), Some(want));
    }
}

#[test]
fn rapidly_changing_latency_is_reported_each_time() {
    let mut e = Engine::new(DynLatency(0), 64);
    e.set_latency(0);
    let token = e.begin_audio().unwrap();
    let mut prev = 0;
    for want in [0, 64, 0, 512, 384, 384, 0] {
        e.audio_core(&token).processor.0 = want;
        let report = e.drain_commands();
        assert_eq!(e.latency(), want);
        assert_eq!(report.notify_main, want != prev);
        prev = want;
    }
    e.end_audio(token);
}

#[test]
fn begin_audio_waits_out_a_main_access() {
    let mut e = engine();
    assert!(e.begin_main());
    // The audio side is turned away while the main side holds the processor.
    assert!(e.begin_audio().is_none());
    e.end_main();
    let token = e.begin_audio().expect("free again");
    // And the other way round.
    assert!(!e.begin_main());
    assert!(e.with_main().is_none());
    e.end_audio(token);
    assert!(!e.is_processing());
    e.with_main().unwrap().processor.0 = 0.1;
    assert_eq!(e.with_main().unwrap().processor.0, 0.1);
}

#[test]
fn latency_change_is_reported_and_flagged_once() {
    let mut e = Engine::new(DynLatency(0), 64);
    let initial = e.with_main().unwrap().processor.latency();
    e.set_latency(initial);

    let token = e.begin_audio().unwrap();
    let report = e.drain_commands();
    assert!(!report.notify_main, "unchanged latency must stay quiet");
    assert!(!e.take_latency_changed());

    e.end_audio(token);
    e.with_main().unwrap().processor.0 = 384;
    let token = e.begin_audio().unwrap();
    let report = e.drain_commands();
    assert!(report.notify_main, "a latency change asks for the bounce");
    assert_eq!(e.latency(), 384, "the cached value updates at once");
    assert!(e.take_latency_changed());
    assert!(!e.take_latency_changed(), "the flag is consumed once");
    e.end_audio(token);
}

#[test]
fn notices_are_given_once() {
    let mut e = Engine::new(DynLatency(0), 64);
    let mut pending = Pending::new();
    let quiet = Notices { values_changed: false, latency_changed: false };
    assert_eq!(pending.take(&mut e), quiet);
    let token = e.begin_audio().unwrap();
    e.audio_core(&token).processor.0 = 32;
    let report = e.drain_commands();
    pending.note(&report);
    pending.note(&e.drain_commands());
    assert_eq!(
        pending.take(&mut e),
        Notices { values_changed: true, latency_changed: true }
    );
    assert_eq!(pending.take(&mut e), quiet);
    e.end_audio(token);
}

#[test]
fn diagnostics_are_named() {
    let mut e = engine();
    let token = e.begin_audio().unwrap();
    for _ in 0..COMMAND_CAPACITY + 3 {
        e.set_param(7, bits(0.5));
    }
    let mut stage = EventStage::with_capacity(0);
    e.stage_event(&mut stage, 8, ParamEvent { time: 0, id: 7, value: bits(0.5) });
    let counts = e.diag().snapshot();
    assert_eq!(counts.len(), 6);
    assert!(counts.contains(&("commands_dropped", 3)));
    assert!(counts.contains(&("param_events_dropped", 1)));
    e.end_audio(token);
}

#[test]
fn old_readings_of_a_counter_never_cost_a_value() {
    // Four slots; the writer stands at 3 and last saw the reader at 0, which
    // has come to 2 meanwhile. The value that waits is in slot 2.
    assert_eq!(push_slot(3, 0, 3), Some(3));
    assert_eq!(pop_slot(3, 2, 3), Some(2));
    // One further and the old reading holds the writer back.
    assert_eq!(push_slot(4, 0, 3), None);
    assert_eq!(push_slot(4, 2, 3), Some(0));
    // Counters wrap.
    assert_eq!(push_slot(0, u64::MAX, 3), Some(0));
    assert_eq!(pop_slot(0, u64::MAX, 3), Some(3));
    assert_eq!(pop_slot(5, 5, 3), None);
}
