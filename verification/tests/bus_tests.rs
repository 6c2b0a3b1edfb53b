use skuiz::bus::{
    default_effect_buses, instrument_buses, validate_buses, AudioBusSpec, BusDirection, BusError,
    BusId, ChannelLayout,
};
use skuiz::scratch::TopologyScratch;

fn sidechain_fx() -> Vec<AudioBusSpec> {
    vec![
        AudioBusSpec::input("Main", ChannelLayout::Stereo),
        AudioBusSpec::input("Sidechain", ChannelLayout::Mono).optional(),
        AudioBusSpec::output("Main", ChannelLayout::Stereo),
    ]
}

#[test]
fn ids_are_stable_and_name_derived() {
    assert_eq!(BusId::from_name("Main"), BusId::from_name("Main"));
    assert_ne!(BusId::from_name("Main"), BusId::from_name("Sidechain"));
    // with_id pins an explicit value.
    let spec = AudioBusSpec::input("Main", ChannelLayout::Stereo).with_id(42);
    assert_eq!(spec.id, BusId(42));
}

#[test]
fn ids_are_fnv1a_hashes() {
    // Published FNV-1a test vectors.
    assert_eq!(BusId::from_name(""), BusId(0x811c_9dc5));
    assert_eq!(BusId::from_name("a"), BusId(0xe40c_292c));
    assert_eq!(BusId::from_name("foobar"), BusId(0xbf9c_f968));
}

#[test]
fn layouts_report_channel_counts() {
    assert_eq!(ChannelLayout::Mono.channels(), 1);
    assert_eq!(ChannelLayout::Stereo.channels(), 2);
    assert_eq!(ChannelLayout::Discrete(6).channels(), 6);
}

#[test]
fn defaults_are_valid_and_match_legacy_behavior() {
    assert!(validate_buses(&default_effect_buses()).is_ok());
    assert!(validate_buses(&instrument_buses()).is_ok());
    assert_eq!(
        default_effect_buses().iter().filter(|s| s.direction == BusDirection::Input).count(),
        1
    );
    assert_eq!(
        instrument_buses().iter().filter(|s| s.direction == BusDirection::Input).count(),
        0
    );
}

#[test]
fn validation_rejects_bad_topologies() {
    // Duplicate ids within a direction.
    let dup = [
        AudioBusSpec::input("Main", ChannelLayout::Stereo),
        AudioBusSpec::input("Main", ChannelLayout::Mono),
    ];
    assert_eq!(validate_buses(&dup), Err(BusError::DuplicateId));
    // Same id across directions is fine.
    let main_main = [
        AudioBusSpec::input("Main", ChannelLayout::Stereo),
        AudioBusSpec::output("Main", ChannelLayout::Stereo),
    ];
    assert!(validate_buses(&main_main).is_ok());
    // Main bus cannot be optional.
    let opt_main = [AudioBusSpec::input("Main", ChannelLayout::Stereo).optional()];
    assert_eq!(validate_buses(&opt_main), Err(BusError::MainIsOptional));
    // Channel counts are bounded.
    let zero = [AudioBusSpec::output("Main", ChannelLayout::Discrete(0))];
    assert_eq!(validate_buses(&zero), Err(BusError::BadChannelCount));
    let huge = [AudioBusSpec::output("Main", ChannelLayout::Discrete(9))];
    assert_eq!(validate_buses(&huge), Err(BusError::BadChannelCount));
    // Too many buses in one direction.
    let many = [
        AudioBusSpec::input("A", ChannelLayout::Mono),
        AudioBusSpec::input("B", ChannelLayout::Mono),
        AudioBusSpec::input("C", ChannelLayout::Mono),
        AudioBusSpec::input("D", ChannelLayout::Mono),
        AudioBusSpec::input("E", ChannelLayout::Mono),
    ];
    assert_eq!(validate_buses(&many), Err(BusError::TooManyBuses));
    assert!(validate_buses(&sidechain_fx()).is_ok());
}

#[test]
fn first_fault_is_reported_and_inputs_come_first() {
    // The optional main is seen before the duplicate behind it.
    let both = [
        AudioBusSpec::input("Main", ChannelLayout::Stereo).optional(),
        AudioBusSpec::input("Main", ChannelLayout::Stereo),
    ];
    assert_eq!(validate_buses(&both), Err(BusError::MainIsOptional));
    // A bad output is declared first, but inputs are judged first.
    let order = [
        AudioBusSpec::output("Main", ChannelLayout::Discrete(0)),
        AudioBusSpec::input("Main", ChannelLayout::Stereo).optional(),
    ];
    assert_eq!(validate_buses(&order), Err(BusError::MainIsOptional));
    assert_eq!(validate_buses(&[]), Ok(()));
}

#[test]
fn views_reflect_what_the_adapter_filled() {
    // Buffers are named by their index here.
    let mut bufs = [[1.0f32; 8], [2.0f32; 8], [0.5f32; 8], [0.0f32; 8], [0.0f32; 8]];

    let mut scratch: TopologyScratch<usize> = TopologyScratch::new(&sidechain_fx());
    assert_eq!(scratch.bus_count(BusDirection::Input), 2);
    assert_eq!(scratch.bus_count(BusDirection::Output), 1);

    scratch.clear();
    scratch.set_active(BusDirection::Input, 0, true);
    scratch.set_active(BusDirection::Input, 1, true);
    scratch.set_active(BusDirection::Output, 0, true);
    scratch.set_channel(BusDirection::Input, 0, 0, Some(0), 8);
    scratch.set_channel(BusDirection::Input, 0, 1, Some(1), 8);
    scratch.set_channel(BusDirection::Input, 1, 0, Some(2), 8);
    scratch.set_channel(BusDirection::Output, 0, 0, Some(3), 8);
    scratch.set_channel(BusDirection::Output, 0, 1, Some(4), 8);

    let (inputs, outputs) = scratch.views();
    let main = inputs.main().expect("main input");
    assert!(main.active());
    assert_eq!(main.layout(), ChannelLayout::Stereo);
    assert_eq!(bufs[main.channel(0).unwrap().buf.unwrap()], [1.0f32; 8]);
    let side = inputs.get(BusId::from_name("Sidechain")).expect("sidechain");
    assert!(side.active());
    assert_eq!(bufs[side.channel(0).unwrap().buf.unwrap()][0], 0.5);

    let out = outputs.main().expect("main output");
    assert_eq!(out.frames(), 8);
    bufs[out.channel_mut(0).unwrap().buf.unwrap()][0] = 42.0;
    assert_eq!(bufs[3][0], 42.0);
}

#[test]
fn inactive_optional_bus_yields_no_channels() {
    let mut scratch: TopologyScratch<usize> = TopologyScratch::new(&sidechain_fx());
    scratch.clear();
    scratch.set_active(BusDirection::Input, 0, true);
    scratch.set_active(BusDirection::Output, 0, true);
    scratch.set_channel(BusDirection::Input, 0, 0, Some(0), 4);
    scratch.set_channel(BusDirection::Output, 0, 0, Some(1), 4);
    let (inputs, _) = scratch.views();
    let side = inputs.get(BusId::from_name("Sidechain")).expect("sidechain");
    assert!(!side.active());
    assert!(side.channels().is_empty());
    assert_eq!(side.channel(0), None);
}

#[test]
fn instrument_topology_has_no_inputs() {
    let mut scratch: TopologyScratch<usize> = TopologyScratch::new(&instrument_buses());
    scratch.clear();
    scratch.set_active(BusDirection::Output, 0, true);
    scratch.set_channel(BusDirection::Output, 0, 0, Some(0), 4);
    let (inputs, outputs) = scratch.views();
    assert!(inputs.is_empty());
    assert!(inputs.main().is_none());
    assert_eq!(outputs.len(), 1);
}

#[test]
fn invalid_topology_fails_safe_to_empty() {
    let bad = [
        AudioBusSpec::input("Main", ChannelLayout::Stereo),
        AudioBusSpec::input("Main", ChannelLayout::Mono),
    ];
    let scratch: TopologyScratch<usize> = TopologyScratch::new(&bad);
    assert_eq!(scratch.bus_count(BusDirection::Input), 0);
    let (inputs, outputs) = scratch.views();
    assert!(inputs.is_empty());
    assert!(outputs.is_empty());
}

#[test]
fn out_of_range_wiring_is_ignored() {
    let mut scratch: TopologyScratch<usize> = TopologyScratch::new(&default_effect_buses());
    scratch.set_active(BusDirection::Input, 7, true);
    scratch.set_active(BusDirection::Input, 0, true);
    scratch.set_channel(BusDirection::Input, 0, 8, Some(9), 4);
    scratch.set_channel(BusDirection::Input, 0, 0, None, 4);
    scratch.set_channel(BusDirection::Input, 3, 0, Some(1), 4);
    let (inputs, _) = scratch.views();
    assert!(inputs.main().unwrap().channels().is_empty());
    // A channel beyond the declared layout is never shown.
    scratch.set_channel(BusDirection::Input, 0, 5, Some(9), 4);
    let (inputs, _) = scratch.views();
    assert_eq!(inputs.main().unwrap().channels().len(), 2);
    assert_eq!(inputs.main().unwrap().channel(0).unwrap().buf, None);
}
