use skuiz::bus::{default_effect_buses, AudioBusSpec};
use skuiz::engine::{Engine, LoadStart, COMMAND_CAPACITY};
use skuiz::instance::{Edit, Instance};
use skuiz::ipc::{
    group_key, lifecycle, read_frame, sanitize, write_frame, Bus, Endpoint, FrameError, Group,
    LinkAction, LinkEvent, Registry, Remote, MAX_FRAME, RETRY_MILLIS,
};
use skuiz::lww::Lww;
use skuiz::messages::{
    incoming, on_diag_js, read_message, read_post, value_texts, values, with_texts, with_values,
    write_message, EditorPost, Incoming, LINK_UP_FRAME,
};
use skuiz::params::{ParamDef, PluginInfo};
use skuiz::processor::{default_load_state, default_save_state, Processor};
use skuiz::text::{chars_of, is_whitespace, parse_number, push_decimal, split_words};
use skuiz::protocol::{
    on_param_js, parse_set_param, parse_set_param_versioned, parse_sync_request, parse_sync_state,
    set_param, set_param_versioned, sync_request, sync_state, Frame, SyncEntry, DIAG_QUERY,
};

fn bits(v: f64) -> u64 {
    v.to_bits()
}

#[derive(Debug)]
struct Gain {
    gain: f64,
    local: f64,
}

impl Processor for Gain {
    fn info() -> PluginInfo {
        PluginInfo { id: "test.ipcgain", name: "g", vendor: "t", version: "0", description: "" }
    }
    fn params() -> &'static [ParamDef] {
        const DEFS: &[ParamDef] = &[
            ParamDef {
                id: 0,
                name: "Gain",
                min: 0,
                max: 0x3FF0_0000_0000_0000,
                default: 0x3FF0_0000_0000_0000,
                choices: &[],
                shared: true,
            },
            ParamDef {
                id: 1,
                name: "Local",
                min: 0,
                max: 0x3FF0_0000_0000_0000,
                default: 0x3FE0_0000_0000_0000,
                choices: &[],
                shared: false,
            },
        ];
        DEFS
    }
    fn audio_buses() -> Vec<AudioBusSpec> {
        default_effect_buses()
    }
    fn set_param(&mut self, id: u32, v: u64) {
        match id {
            0 => self.gain = f64::from_bits(v),
            1 => self.local = f64::from_bits(v),
            _ => {}
        }
    }
    fn get_param(&self, id: u32) -> u64 {
        match id {
            0 => self.gain.to_bits(),
            1 => self.local.to_bits(),
            _ => 0,
        }
    }
    fn reset(&mut self) {}
    fn latency(&self) -> u32 {
        0
    }
    fn save_state(&self) -> Vec<u8> {
        default_save_state(self)
    }
    fn load_state(&mut self, data: &Vec<u8>) -> bool {
        default_load_state(self, data)
    }
}

/// One shared parameter that goes from 0 to 1.
#[derive(Debug)]
struct Clamped(f64);

impl Processor for Clamped {
    fn info() -> PluginInfo {
        Gain::info()
    }
    fn params() -> &'static [ParamDef] {
        &Gain::params()[..1]
    }
    fn audio_buses() -> Vec<AudioBusSpec> {
        default_effect_buses()
    }
    fn set_param(&mut self, _id: u32, v: u64) {
        self.0 = f64::from_bits(v).clamp(0.0, 1.0);
    }
    fn get_param(&self, _id: u32) -> u64 {
        self.0.to_bits()
    }
    fn reset(&mut self) {}
    fn latency(&self) -> u32 {
        0
    }
    fn save_state(&self) -> Vec<u8> {
        default_save_state(self)
    }
    fn load_state(&mut self, data: &Vec<u8>) -> bool {
        default_load_state(self, data)
    }
}

fn instance(serial: u64) -> Instance<Gain> {
    let engine = Engine::new(Gain { gain: 1.0, local: 0.5 }, 8);
    Instance::new(engine, Lww::new(77, serial))
}

fn value(i: &mut Instance<Gain>, id: u32) -> f64 {
    f64::from_bits(i.engine().unwrap().mirror().get(id).unwrap())
}

/// What a host's callback does with a frame of the bus: read it, turn the
/// number texts into numbers, hand it over, and write the answer out.
fn receive(i: &mut Instance<Gain>, frame: &[u8]) -> Option<String> {
    let text = match incoming(frame) {
        Incoming::LinkUp => return Some(sync_request(i.origin())),
        Incoming::Junk => return None,
        Incoming::Message(m) => m,
    };
    let numbers = value_texts(&text)
        .iter()
        .map(|t| t.parse::<f64>().ok().map(f64::to_bits))
        .collect();
    let reply = i.on_frame(with_values(&text, &numbers)?)?;
    let shown = values(&reply).iter().map(|v| f64::from_bits(*v).to_string()).collect();
    Some(write_message(&with_texts(&reply, &shown)))
}

/// The processor takes what is queued at the top of a block.
fn run_empty_process(i: &mut Instance<Gain>) {
    let engine = i.engine().unwrap();
    if !engine.is_processing() {
        let token = engine.begin_audio().unwrap();
        engine.drain_commands();
        engine.end_audio(token);
    }
}

#[test]
fn round_trips_and_rejects_junk() {
    let parse = |m: &str| {
        parse_set_param(m).and_then(|(id, v)| v.parse::<f64>().ok().map(|v| (id, v)))
    };
    assert_eq!(parse(&set_param(3, &0.25f64.to_string())), Some((3, 0.25)));
    // A value that needs full precision must survive the trip.
    let v = 0.123456789012345f64;
    assert_eq!(parse(&set_param(7, &v.to_string())), Some((7, v)));
    assert_eq!(parse("set_param 3"), None);
    assert_eq!(parse("set_param 3 0.5 extra"), None);
    assert_eq!(parse("other 3 0.5"), None);
    assert_eq!(parse("set_param x 0.5"), None);
    assert_eq!(parse(""), None);
}

#[test]
fn parses_ui_messages() {
    assert_eq!(parse_set_param("set_param 3 0.25"), Some((3, String::from("0.25"))));
    assert_eq!(parse_set_param("set_param 3"), None);
    assert_eq!(parse_set_param("something_else 3 0.25"), None);
    assert_eq!(parse_set_param(""), None);
}

#[test]
fn every_frame_reads_back() {
    assert_eq!(set_param(3, "0.25"), "set_param 3 0.25");
    assert_eq!(
        parse_set_param_versioned(&set_param_versioned(3, "0.25", 9, 42)),
        Some((3, String::from("0.25"), Some((9, 42))))
    );
    assert_eq!(
        parse_set_param_versioned("set_param 3 0.25"),
        Some((3, String::from("0.25"), None))
    );
    assert_eq!(parse_sync_request(&sync_request(u64::MAX)), Some(u64::MAX));
    assert_eq!(parse_sync_request("sync_request"), None);
    let entries = vec![
        SyncEntry { id: 1, value: String::from("0.5"), seq: 3, origin: 4 },
        SyncEntry { id: 2, value: String::from("-1"), seq: 5, origin: 6 },
    ];
    let back = parse_sync_state(&sync_state(&entries)).unwrap();
    assert_eq!(back.len(), 2);
    assert_eq!(
        (back[1].id, back[1].value.as_str(), back[1].seq, back[1].origin),
        (2, "-1", 5, 6)
    );
    assert!(parse_sync_state("sync_state 1 2 3").is_none());
    // Numbers must fit.
    assert_eq!(parse_set_param("set_param 4294967296 1"), None);
}

#[test]
fn editor_pages_are_called_by_script() {
    assert_eq!(
        on_param_js(3, "0.25"),
        "window.skuizOnParam && window.skuizOnParam(3, 0.25)"
    );
    assert!(matches!(read_post(DIAG_QUERY), EditorPost::Diagnostics));
    assert!(matches!(read_post("nonsense"), EditorPost::Junk));
    match read_post("set_param 3 0.25") {
        EditorPost::SetParam { id, value } => assert_eq!((id, value.as_str()), (3, "0.25")),
        _ => panic!("a change"),
    }
    let mut diag = skuiz::diag::DiagCounters::default();
    diag.commands_dropped = 12;
    assert!(on_diag_js(&diag).starts_with("window.skuizOnDiag && window.skuizOnDiag({"));
    assert!(on_diag_js(&diag).contains("\"commands_dropped\": 12"));
}

#[test]
fn frames_must_be_text() {
    assert!(matches!(incoming(LINK_UP_FRAME.as_bytes()), Incoming::LinkUp));
    assert!(matches!(incoming(&[0x73, 0xFF, 0xFE]), Incoming::Junk));
    assert!(matches!(incoming(b"set_param 0"), Incoming::Junk));
    match incoming("set_param 0 \u{00e9}".as_bytes()) {
        Incoming::Message(Frame::SetParam { id: 0, value, version: None }) => {
            assert_eq!(value, "\u{00e9}")
        }
        _ => panic!("a change"),
    }
    assert!(read_message("hello").is_none());
}

#[test]
fn values_that_are_no_numbers_are_dropped() {
    let mut a = instance(1);
    assert_eq!(receive(&mut a, b"set_param 0 loud"), None);
    assert_eq!(value(&mut a, 0), 1.0);
}

#[test]
fn bus_frame_reaches_all_instances() {
    let mut group = Group::new();
    let (bus_a, bus_b, outsider) = (group.join(), group.join(), group.join());
    let (mut a, mut b) = (instance(1), instance(2));
    let delivery = outsider.send(&group);
    assert_eq!(delivery.local, vec![bus_a.number(), bus_b.number()]);
    for i in [&mut a, &mut b] {
        assert_eq!(receive(i, b"set_param 0 0.3"), None);
        run_empty_process(i);
        assert_eq!(value(i, 0), 0.3);
    }
}

#[test]
fn local_params_ignore_bus_frames() {
    let mut a = instance(1);
    for _ in 0..10 {
        receive(&mut a, b"set_param 1 0.9");
        run_empty_process(&mut a);
    }
    assert_eq!(value(&mut a, 1), 0.5, "local parameter changed from a bus frame");
    assert!(!a.offer(1, bits(0.9), None));
}

#[test]
fn late_joiner_converges_to_shared_state() {
    let mut a = instance(1);
    receive(&mut a, set_param_versioned(0, "0.7", 5, 42).as_bytes());
    run_empty_process(&mut a);
    assert_eq!(value(&mut a, 0), 0.7);

    // B joins late, still at the default. Its request pulls A's value across.
    let mut b = instance(2);
    let Frame::SyncRequest { origin } = b.greeting() else {
        panic!("joiners ask");
    };
    let request = sync_request(origin);
    let answer = receive(&mut a, request.as_bytes()).expect("A holds shared state");
    assert_eq!(receive(&mut b, answer.as_bytes()), None);
    run_empty_process(&mut b);
    assert_eq!(value(&mut b, 0), 0.7);
    // A fresh instance has nothing to tell.
    assert_eq!(receive(&mut instance(3), request.as_bytes()), None);
    assert_eq!(value(&mut a, 0), 0.7, "a joiner's untouched default displaced real state");
}

#[test]
fn stale_versioned_frames_lose() {
    let mut a = instance(1);
    receive(&mut a, set_param_versioned(0, "0.7", 5, 42).as_bytes());
    run_empty_process(&mut a);
    assert_eq!(value(&mut a, 0), 0.7);
    for _ in 0..10 {
        receive(&mut a, set_param_versioned(0, "0.1", 3, 99).as_bytes());
        run_empty_process(&mut a);
    }
    assert_eq!(value(&mut a, 0), 0.7, "a stale versioned frame was applied");
}

#[test]
fn project_load_does_not_leak_through_sync_state() {
    let mut a = instance(1);
    receive(&mut a, set_param_versioned(0, "0.7", 5, 42).as_bytes());
    assert_eq!(value(&mut a, 0), 0.7);

    let mut payload = 0u32.to_le_bytes().to_vec();
    payload.extend_from_slice(&0.2f64.to_le_bytes());
    assert_eq!(a.load_state(payload), Some(LoadStart::Done(true)));
    assert_eq!(value(&mut a, 0), 0.2);

    // B joins late. A does not advertise what its project says.
    let mut b = instance(2);
    let request = sync_request(b.origin());
    assert_eq!(receive(&mut a, request.as_bytes()), None);
    assert_eq!(value(&mut b, 0), 1.0, "project state leaked to a joiner");
    assert_eq!(value(&mut a, 0), 0.2, "the load itself was disturbed");
    assert_eq!(a.advertised_version(0), None);
    assert_eq!(a.known_version(0), Some((5, 42)));

    // A fresh shared edit is advertised again, and both converge.
    let edit = set_param_versioned(0, "0.4", 9, 42);
    for i in [&mut a, &mut b] {
        receive(i, edit.as_bytes());
        assert_eq!(value(i, 0), 0.4);
    }
    assert_eq!(a.advertised_version(0), Some((9, 42)));
}

#[test]
fn a_load_while_running_silences_when_it_is_done() {
    let mut a = instance(1);
    assert!(matches!(a.edit(0, bits(0.3)), Edit::Shared { .. }));
    assert!(a.advertised_version(0).is_some());
    let token = a.engine().unwrap().begin_audio().unwrap();
    let mut payload = 0u32.to_le_bytes().to_vec();
    payload.extend_from_slice(&0.2f64.to_le_bytes());
    assert_eq!(a.load_state(payload), Some(LoadStart::Pending));
    assert!(a.advertised_version(0).is_some());
    assert_eq!(a.finish_load(), None);
    a.engine().unwrap().drain_commands();
    assert_eq!(a.finish_load(), Some(true));
    assert_eq!(a.advertised_version(0), None);
    a.engine().unwrap().end_audio(token);
}

#[test]
fn editor_edits_reach_the_host_as_gestures() {
    let mut a = instance(1);
    // A shared parameter is told to the peers under a fresh version.
    let origin = a.origin();
    match a.edit(0, bits(0.75)) {
        Edit::Shared { seq, origin: o } => assert_eq!((seq, o), (1, origin)),
        other => panic!("unexpected {other:?}"),
    }
    assert_eq!(value(&mut a, 0), 0.75);
    assert_eq!(a.edit(1, bits(0.25)), Edit::Local);
    assert_eq!(value(&mut a, 1), 0.25);
    assert_eq!(a.edit(9, bits(0.25)), Edit::Unknown);
}

#[test]
fn a_dropped_edit_claims_nothing() {
    let mut a = instance(1);
    let token = a.engine().unwrap().begin_audio().unwrap();
    for _ in 0..COMMAND_CAPACITY {
        assert!(a.engine().unwrap().set_param(0, bits(0.1)));
    }
    assert_eq!(a.edit(0, bits(0.9)), Edit::Dropped);
    assert_eq!(a.known_version(0), None);
    // The same for a peer's change, which can still win later.
    receive(&mut a, set_param_versioned(0, "0.8", 4, 2).as_bytes());
    assert_eq!(a.known_version(0), None);
    a.engine().unwrap().drain_commands();
    receive(&mut a, set_param_versioned(0, "0.8", 4, 2).as_bytes());
    assert_eq!(a.known_version(0), Some((4, 2)));
    a.engine().unwrap().end_audio(token);
}

#[test]
fn offered_changes_land_once() {
    let mut a = instance(1);
    assert!(a.offer(0, bits(0.7), Some((5, 42))));
    assert_eq!(value(&mut a, 0), 0.7);
    assert!(!a.offer(0, bits(0.7), Some((5, 42))), "the same version again");
    assert!(!a.offer(0, bits(0.1), Some((4, 99))), "an older version");
    assert!(a.offer(0, bits(0.2), None), "without a version it always lands");
    assert!(!a.offer(9, bits(0.7), Some((6, 42))), "not declared");
    assert_eq!(a.known_version(0), Some((5, 42)));
}

fn asked(i: &mut Instance<Gain>) -> Vec<(u32, f64, u64, u64)> {
    match i.on_frame(Frame::SyncRequest { origin: 99 }) {
        None => vec![],
        Some(Frame::SyncState(entries)) => {
            entries.iter().map(|e| (e.id, f64::from_bits(e.value), e.seq, e.origin)).collect()
        }
        Some(_) => panic!("an answer is a state"),
    }
}

#[test]
fn a_running_instance_answers_once_the_value_is_in_force() {
    let mut a = instance(1);
    assert!(a.offer(0, bits(0.3), Some((4, 7))));
    assert_eq!(asked(&mut a), vec![(0, 0.3, 4, 7)]);
    let token = a.engine().unwrap().begin_audio().unwrap();
    // The winning change still waits for a block: neither the old value nor
    // the new one is told under its version.
    assert!(a.offer(0, bits(0.7), Some((5, 42))));
    assert_eq!(value(&mut a, 0), 0.3);
    assert_eq!(asked(&mut a), vec![]);
    a.engine().unwrap().drain_commands();
    assert_eq!(asked(&mut a), vec![(0, 0.7, 5, 42)]);

    // A joiner that runs too holds the same once it has drained.
    let mut b = instance(2);
    let running = b.engine().unwrap().begin_audio().unwrap();
    let answer = a.on_frame(b.greeting()).expect("A holds shared state");
    assert!(b.on_frame(answer).is_none());
    b.engine().unwrap().drain_commands();
    assert_eq!((value(&mut a, 0), value(&mut b, 0)), (0.7, 0.7));
    assert_eq!(asked(&mut a), asked(&mut b));
    a.engine().unwrap().end_audio(token);
    b.engine().unwrap().end_audio(running);
}

#[test]
fn automation_is_not_told_under_a_version() {
    let mut a = instance(1);
    assert!(a.offer(0, bits(0.7), Some((5, 42))));
    // The host repeats the value, as it does after an edit.
    assert!(a.engine().unwrap().flush_param(0, bits(0.7)));
    assert_eq!(asked(&mut a), vec![(0, 0.7, 5, 42)]);
    // It moves away, and the value is its own.
    assert!(a.engine().unwrap().flush_param(0, bits(0.2)));
    assert_eq!(value(&mut a, 0), 0.2);
    assert_eq!(asked(&mut a), vec![]);
    assert!(!a.offer(0, bits(0.7), Some((5, 42))), "automation is not undone");
    assert!(a.offer(0, bits(0.9), Some((6, 42))));
    assert_eq!(asked(&mut a), vec![(0, 0.9, 6, 42)]);
}

#[test]
fn what_the_host_sets_is_told_to_nobody() {
    let mut a = instance(1);
    assert!(a.offer(0, bits(0.7), Some((5, 42))));
    assert!(a.host_change(0, bits(0.7)), "an echo of the value last set");
    assert_eq!(asked(&mut a), vec![(0, 0.7, 5, 42)]);
    assert!(a.host_change(0, bits(0.2)));
    assert_eq!(value(&mut a, 0), 0.2);
    assert_eq!(asked(&mut a), vec![]);
    assert_eq!(a.known_version(0), Some((5, 42)));
    assert!(!a.offer(0, bits(0.7), Some((5, 42))));
}

#[test]
fn the_next_answer_heals_a_displaced_value() {
    let (mut a, mut b) = (instance(1), instance(2));
    for i in [&mut a, &mut b] {
        assert!(i.offer(0, bits(0.7), Some((5, 42))));
    }
    // Only A hears the sender that knows no versions.
    assert_eq!(receive(&mut a, b"set_param 0 0.1"), None);
    assert_eq!(value(&mut a, 0), 0.1);
    assert_eq!(asked(&mut a), vec![]);
    assert!(!a.offer(0, bits(0.3), Some((4, 99))), "stale versions still lose");
    let answer = b.on_frame(a.greeting()).expect("B holds shared state");
    assert!(a.on_frame(answer).is_none());
    assert_eq!(value(&mut a, 0), 0.7);
    assert_eq!(asked(&mut a), vec![(0, 0.7, 5, 42)]);
    assert!(!a.offer(0, bits(0.7), Some((5, 42))), "healed once, a duplicate again");
}

#[test]
fn clamped_values_are_told_as_they_are_in_force() {
    let mut a = Instance::new(Engine::new(Clamped(0.5), 8), Lww::new(77, 1));
    assert!(a.offer(0, bits(1.5), Some((5, 42))));
    match a.on_frame(Frame::SyncRequest { origin: 9 }) {
        Some(Frame::SyncState(entries)) => assert_eq!(f64::from_bits(entries[0].value), 1.0),
        _ => panic!("the value in force is shared"),
    }
}

#[test]
fn a_load_while_running_is_silent_from_its_block_on() {
    let mut a = instance(1);
    assert!(a.offer(0, bits(0.7), Some((5, 42))));
    let token = a.engine().unwrap().begin_audio().unwrap();
    let mut payload = 0u32.to_le_bytes().to_vec();
    payload.extend_from_slice(&0.2f64.to_le_bytes());
    assert_eq!(a.load_state(payload), Some(LoadStart::Pending));
    assert_eq!(asked(&mut a), vec![(0, 0.7, 5, 42)], "nothing is restored yet");
    a.engine().unwrap().drain_commands();
    assert_eq!(value(&mut a, 0), 0.2);
    assert_eq!(asked(&mut a), vec![], "the project's value stays here");
    assert_eq!(a.finish_load(), Some(true));
    assert_eq!(asked(&mut a), vec![]);
    // A shared change is told again.
    assert!(a.offer(0, bits(0.4), Some((9, 42))));
    a.engine().unwrap().drain_commands();
    assert_eq!(asked(&mut a), vec![(0, 0.4, 9, 42)]);

    // A refused load silences nothing.
    assert_eq!(a.load_state(vec![1, 2, 3]), Some(LoadStart::Pending));
    a.engine().unwrap().drain_commands();
    assert_eq!(asked(&mut a), vec![(0, 0.4, 9, 42)]);
    assert_eq!(a.finish_load(), Some(false));
    assert_eq!(asked(&mut a), vec![(0, 0.4, 9, 42)]);
    a.engine().unwrap().end_audio(token);
}

#[test]
fn a_change_left_waiting_cannot_undo_a_newer_one() {
    let mut a = instance(1);
    let token = a.engine().unwrap().begin_audio().unwrap();
    assert!(a.offer(0, bits(0.3), Some((5, 42))));
    // Blocks stop flowing before the change was drained.
    a.engine().unwrap().end_audio(token);
    assert!(a.offer(0, bits(0.7), Some((6, 42))));
    assert_eq!(value(&mut a, 0), 0.7);
    run_empty_process(&mut a);
    assert_eq!(value(&mut a, 0), 0.7, "the newest version stands");
    assert_eq!(asked(&mut a), vec![(0, 0.7, 6, 42)]);
}

#[test]
fn running_replicas_agree_whatever_the_order() {
    let changes = [(0.1, (3, 9)), (0.2, (5, 1)), (0.3, (5, 2)), (0.4, (4, 7))];
    let (mut a, mut b) = (instance(1), instance(2));
    let ta = a.engine().unwrap().begin_audio().unwrap();
    let tb = b.engine().unwrap().begin_audio().unwrap();
    for (v, version) in changes {
        a.offer(0, bits(v), Some(version));
    }
    for (v, version) in changes.iter().rev().chain(&changes) {
        b.offer(0, bits(*v), Some(*version));
        b.engine().unwrap().drain_commands();
    }
    a.engine().unwrap().drain_commands();
    assert_eq!((value(&mut a, 0), value(&mut b, 0)), (0.3, 0.3));
    a.engine().unwrap().end_audio(ta);
    b.engine().unwrap().end_audio(tb);
}

#[test]
fn closed_instances_are_deaf() {
    let mut a = instance(1);
    assert!(a.close().is_some());
    assert_eq!(receive(&mut a, set_param_versioned(0, "0.7", 5, 42).as_bytes()), None);
    assert_eq!(a.known_version(0), None);
    assert_eq!(a.edit(0, bits(0.5)), Edit::Dropped);
    assert!(a.load_state(vec![]).is_none());
    assert_eq!(a.finish_load(), None);
    assert!(a.engine().is_none());
}

#[test]
fn replicas_agree_whatever_the_order() {
    let frames = [
        set_param_versioned(0, "0.1", 3, 9),
        set_param_versioned(0, "0.2", 5, 1),
        set_param_versioned(0, "0.3", 5, 2),
        set_param_versioned(0, "0.4", 4, 7),
    ];
    let (mut a, mut b) = (instance(1), instance(2));
    for frame in &frames {
        receive(&mut a, frame.as_bytes());
    }
    for frame in frames.iter().rev().chain(&frames) {
        receive(&mut b, frame.as_bytes());
    }
    assert_eq!(value(&mut a, 0), 0.3);
    assert_eq!(value(&mut b, 0), 0.3);
}

#[test]
fn in_process_instances_talk_directly() {
    let mut group = Group::new();
    let a = group.join();
    let b = group.join();

    // Same-process delivery goes to the others, never back.
    assert_eq!(b.send(&group).local, vec![a.number()]);
    assert_eq!(a.send(&group).local, vec![b.number()]);

    // One link for the whole process.
    group.won_election();
    assert!(a.is_server(&group));
    assert!(!b.is_server(&group), "exactly one instance owns the role");
    match a.send(&group).remote {
        Remote::Clients(ids) => assert!(ids.is_empty()),
        _ => panic!("the serving process must not also be a client of itself"),
    }

    assert!(group.leave(a).is_none());
    assert!(b.is_server(&group), "the next instance must inherit the role at once");
    let end = group.leave(b).expect("the last one out tears down");
    assert!(end.clients.is_empty());
    assert!(group.is_shut_down());
}

#[test]
fn in_process_sync_survives_an_unusable_socket_directory() {
    let mut group = Group::new();
    let a = group.join();
    let b = group.join();
    // No link ever comes up.
    let delivery = b.send(&group);
    assert_eq!(delivery.local, vec![a.number()]);
    assert!(matches!(delivery.remote, Remote::Nowhere));
    assert!(!a.is_server(&group));
    assert!(!b.is_server(&group));
}

#[test]
fn servers_relay_between_processes() {
    let mut group = Group::new();
    let a = group.join();
    group.won_election();
    let first = group.accept().expect("not shut down");
    let second = group.accept().unwrap();
    let relay = group.serve_conn(first).unwrap();
    assert_eq!(relay.local, vec![a.number()]);
    assert_eq!(relay.remote, vec![second]);
    assert_eq!(group.broadcast_except(None), vec![first, second]);
    assert!(group.conn_closed(second));
    assert!(!group.conn_closed(second));
    group.forget(&vec![first]);
    assert!(group.broadcast_except(None).is_empty());
    group.stopped_serving();
    assert!(!a.is_server(&group));
}

#[test]
fn clients_send_to_their_server_while_linked() {
    let mut group = Group::new();
    let a = group.join();
    let b = group.join();
    group.link_up();
    assert!(matches!(a.send(&group).remote, Remote::Server));
    // What comes from the server reaches everyone here.
    assert_eq!(group.run_client(), Some(vec![a.number(), b.number()]));
    group.link_down();
    assert!(matches!(a.send(&group).remote, Remote::Nowhere));
    group.leave(a);
    assert!(group.leave(b).is_some());
    assert!(group.accept().is_none());
    assert!(group.serve_conn(0).is_none());
    assert!(group.run_client().is_none());
}

#[test]
fn one_instance_on_the_machine_owns_the_role() {
    let mut here = Group::new();
    let a = here.join();
    let b = here.join();
    let mut there = Group::new();
    let c = there.join();
    let d = there.join();
    here.won_election();
    let conn = here.accept().expect("not shut down");
    there.link_up();

    assert!(a.is_server(&here));
    assert!(!b.is_server(&here));
    assert!(!c.is_server(&there));
    assert!(!d.is_server(&there));

    // A frame from either side reaches everyone else on both.
    assert_eq!(c.send(&there).local, vec![d.number()]);
    assert!(matches!(c.send(&there).remote, Remote::Server));
    let relay = here.serve_conn(conn).expect("not shut down");
    assert_eq!(relay.local, vec![a.number(), b.number()]);
    assert!(relay.remote.is_empty(), "never back to where it came from");
    match b.send(&here).remote {
        Remote::Clients(ids) => assert_eq!(ids, vec![conn]),
        _ => panic!("the serving process broadcasts"),
    }
}

#[test]
fn frames_carry_their_length() {
    let wire = write_frame(b"hello");
    assert_eq!(wire, [5, 0, 0, 0, b'h', b'e', b'l', b'l', b'o']);
    assert_eq!(read_frame(&wire), Ok(Some(b"hello".to_vec())));
    assert_eq!(read_frame(&wire[..8]), Ok(None));
    assert_eq!(read_frame(&wire[..3]), Ok(None));
    let huge = (MAX_FRAME + 1).to_le_bytes();
    assert_eq!(read_frame(&huge), Err(FrameError::TooLarge));
}

#[test]
fn socket_directory_is_configurable() {
    let end = Endpoint::new("/tmp/x", "dirtest");
    assert_eq!(end.sock_name, "skuiz-dirtest.sock");
    assert_eq!(end.lock_name, "skuiz-dirtest.lock");
    let pipe = String::from_utf16(&end.pipe_name).unwrap();
    assert!(pipe.starts_with("\\\\.\\pipe\\skuiz-"));
    assert!(pipe.ends_with("-dirtest\0"));
    // Another directory, another pipe.
    assert_ne!(end.pipe_name, Endpoint::new("/tmp/y", "dirtest").pipe_name);
    assert_eq!(sanitize("a/b c.d-e"), "a_b_c.d-e");
    assert_ne!(group_key("/tmp/x", "s"), group_key("/tmp/y", "s"));
}

#[test]
fn instances_of_a_scope_share_a_group() {
    let mut registry = Registry::new();
    let (first, fresh) = registry.join(String::from("k"));
    assert!(fresh);
    assert_eq!(registry.join(String::from("k")), (first, false));
    let (other, fresh) = registry.join(String::from("l"));
    assert!(fresh && other != first);
    registry.remove(&String::from("k"), first);
    let (next, fresh) = registry.join(String::from("k"));
    assert!(fresh && next != first);
    // A group that was replaced does not take its successor along.
    registry.remove(&String::from("k"), first);
    assert_eq!(registry.join(String::from("k")), (next, false));
}

#[test]
fn links_serve_or_connect_until_shut_down() {
    assert_eq!(RETRY_MILLIS, 20);
    assert_eq!(lifecycle(LinkEvent::Ready, false), LinkAction::TryToServe);
    assert_eq!(lifecycle(LinkEvent::Ready, true), LinkAction::Stop);
    assert_eq!(lifecycle(LinkEvent::Won, false), LinkAction::Serve);
    assert_eq!(lifecycle(LinkEvent::ServedOut, true), LinkAction::Release);
    assert_eq!(lifecycle(LinkEvent::Lost, false), LinkAction::Connect);
    assert_eq!(lifecycle(LinkEvent::Connected, false), LinkAction::ReadFrames);
    assert_eq!(lifecycle(LinkEvent::Unreachable, false), LinkAction::Pause);
}

#[test]
fn buses_are_numbered_apart() {
    let mut group = Group::new();
    let a: Bus = group.join();
    let b: Bus = group.join();
    assert_ne!(a.number(), b.number());
    assert_eq!(group.owner_id(), Some(a.number()));
    assert_eq!(group.deliver_locally(None), vec![a.number(), b.number()]);
}

#[test]
fn numbers_and_words_read_as_usual() {
    for n in [0, 7, 10, 4294967295, u64::MAX] {
        let mut text = String::from("n=");
        push_decimal(&mut text, n);
        assert_eq!(text, format!("n={n}"));
        assert_eq!(parse_number(&text[2..], u64::MAX), Some(n));
    }
    for text in ["", "+", "-1", "1x", " 1", "18446744073709551616"] {
        assert_eq!(parse_number(text, u64::MAX), text.parse::<u64>().ok(), "{text:?}");
    }
    assert_eq!(parse_number("+5", u64::MAX), "+5".parse().ok());
    assert_eq!(parse_number("256", 255), None);
    for text in ["", "  ", "a", " a  b\t\u{3000}c\n", "\u{00a0}x\u{2003}"] {
        let words: Vec<String> = text.split_whitespace().map(String::from).collect();
        assert_eq!(split_words(text), words);
    }
    for c in (0..0x11_0000u32).filter_map(char::from_u32) {
        assert_eq!(is_whitespace(c), c.is_whitespace());
    }
    assert_eq!(chars_of("a\u{1D11E}"), vec!['a', '\u{1D11E}']);
}

#[test]
fn sanitized_scopes_stay_as_they_are() {
    let once = sanitize("org.skuiz/shared gain\u{00e9}");
    assert_eq!(once, "org.skuiz_shared_gain_");
    assert_eq!(sanitize(&once), once);
}
