use skuiz::bus::{
    default_effect_buses, instrument_buses, AudioBusSpec, BusDirection, ChannelLayout,
};
use skuiz::scratch::TopologyScratch;
use skuiz::standalone::{
    main_bus_channels, pass_end, scratch_channels, wire_scratch, Error, Input, Scratch,
    SCRATCH_FRAMES,
};
use skuiz::tick::{common_frames, PdError, TickAdapter};
use skuiz::wire::{HostBus, Span};

/// The input source: a 440 Hz sine, or silence.
struct Tone {
    input: Input,
    phase: f32,
    step: f32,
}

impl Tone {
    fn new(input: Input, sample_rate: f32) -> Self {
        Self { input, phase: 0.0, step: std::f32::consts::TAU * 440.0 / sample_rate }
    }
    fn next(&mut self) -> f32 {
        match self.input {
            Input::TestTone => {
                self.phase = (self.phase + self.step) % std::f32::consts::TAU;
                self.phase.sin() * 0.25
            }
            Input::Silence => 0.0,
        }
    }
}

/// One pass: fill the scratch, wire the main buses onto it, multiply every
/// channel of the main output by `gain`, and play it.
fn render_pass(
    specs: &[AudioBusSpec],
    buses: &mut TopologyScratch<Span>,
    scratch: &mut Scratch<f32>,
    out: &mut [f32],
    device_channels: usize,
    tone: &mut Tone,
    gain: f32,
) {
    let frames = out.len() / device_channels;
    for frame in 0..frames {
        scratch.fill_frame(frame, tone.next());
    }
    let mut pair = HostBus::none();
    (pair.connected, pair.count) = (true, 2);
    (pair.channels[0], pair.channels[1]) = (Some(0), Some(1));
    wire_scratch(buses, &pair, frames);
    let (_, outputs) = buses.views();
    for channel in outputs.main().unwrap().channels() {
        let (start, samples) = scratch.channel_mut(channel.buf.unwrap().buf).unwrap();
        for s in samples[start..start + channel.len].iter_mut() {
            *s *= gain;
        }
    }
    scratch.play(out, device_channels, main_bus_channels(specs, BusDirection::Output));
}

#[test]
fn render_pass_interleaves_and_applies_the_processor() {
    let specs = default_effect_buses();
    let mut buses = TopologyScratch::new(&specs);
    let mut scratch = Scratch::new(2, 0.0f32);
    let mut out = vec![0.0f32; 64 * 2];
    let mut tone = Tone::new(Input::TestTone, 48_000.0);
    render_pass(&specs, &mut buses, &mut scratch, &mut out, 2, &mut tone, 1.0);
    assert!(out.iter().any(|s| s.abs() > 0.0), "test tone produced silence");
    assert!(out.iter().all(|s| s.abs() <= 0.25 + 1e-6), "tone exceeded -12 dBFS");
    for frame in 0..64 {
        assert_eq!(out[frame * 2], out[frame * 2 + 1], "channels must match");
    }

    // Gain of zero must silence it, proving the processor is in the path.
    let loud = out.clone();
    tone.phase = 0.0;
    render_pass(&specs, &mut buses, &mut scratch, &mut out, 2, &mut tone, 0.0);
    assert!(loud.iter().any(|s| s.abs() > 0.0));
    assert!(out.iter().all(|s| *s == 0.0), "gain 0 did not silence the output");
}

#[test]
fn silence_input_produces_silence() {
    let specs = default_effect_buses();
    let mut buses = TopologyScratch::new(&specs);
    let mut scratch = Scratch::new(2, 0.0f32);
    let mut out = vec![1.0f32; 32];
    let mut tone = Tone::new(Input::Silence, 48_000.0);
    render_pass(&specs, &mut buses, &mut scratch, &mut out, 1, &mut tone, 1.0);
    assert!(out.iter().all(|s| *s == 0.0), "Silence input must clear the buffer");
}

#[test]
fn oversized_buffers_are_processed_in_passes() {
    let specs = default_effect_buses();
    let mut buses = TopologyScratch::new(&specs);
    let mut scratch = Scratch::new(2, 0.0f32);
    let mut tone = Tone::new(Input::TestTone, 48_000.0);
    let total = SCRATCH_FRAMES * 2 + 37;
    let mut out = vec![f32::NAN; total];
    let mut at = 0;
    let mut passes = 0;
    while at < total {
        let end = pass_end(at, total, 1);
        render_pass(&specs, &mut buses, &mut scratch, &mut out[at..end], 1, &mut tone, 1.0);
        at = end;
        passes += 1;
    }
    assert_eq!(passes, 3);
    assert!(out.iter().all(|s| s.is_finite()), "some frames were never written");
}

#[test]
fn declared_sidechain_is_always_inactive() {
    let specs = vec![
        AudioBusSpec::input("Main", ChannelLayout::Stereo),
        AudioBusSpec::input("Sidechain", ChannelLayout::Mono).optional(),
        AudioBusSpec::output("Main", ChannelLayout::Stereo),
    ];
    let mut buses = TopologyScratch::new(&specs);
    let mut scratch = Scratch::new(2, 0.0f32);
    let mut out = vec![0.0f32; 32 * 2];
    let mut tone = Tone::new(Input::TestTone, 48_000.0);
    render_pass(&specs, &mut buses, &mut scratch, &mut out, 2, &mut tone, 2.0);
    let (inputs, outputs) = buses.views();
    assert!(!inputs.at(1).unwrap().active(), "the standalone never feeds a sidechain");
    assert_eq!(outputs.main().unwrap().channels().len(), 2, "the main pair still ran, stereo");
    // The main input is the main output's memory.
    assert_eq!(
        inputs.main().unwrap().channel(1).unwrap().buf,
        outputs.main().unwrap().channel_mut(1).unwrap().buf
    );
    assert!(out.iter().any(|s| s.abs() > 0.25 + 1e-6), "the main pair was processed");
}

#[test]
fn wide_devices_hear_the_last_channel_again() {
    let mut scratch = Scratch::new(2, 0i32);
    for (channel, value) in [(0, 7), (1, 9)] {
        let (start, samples) = scratch.channel_mut(channel).unwrap();
        samples[start] = value;
        samples[start + 1] = value * 10;
    }
    assert!(scratch.channel_mut(2).is_none());
    let mut out = vec![0; 9];
    scratch.play(&mut out, 4, 2);
    // Two whole frames; the ninth sample belongs to none.
    assert_eq!(out, [7, 9, 9, 9, 70, 90, 90, 90, 0]);
    // Without a main output the first device channel is spread.
    let mut out = vec![5, 0, 0];
    scratch.play(&mut out, 3, 0);
    assert_eq!(out, [5, 5, 5]);
}

#[test]
fn main_buses_decide_the_width() {
    let fx = default_effect_buses();
    assert_eq!(main_bus_channels(&fx, BusDirection::Input), 2);
    assert_eq!(scratch_channels(&fx), 2);
    let synth = instrument_buses();
    assert_eq!(main_bus_channels(&synth, BusDirection::Input), 0);
    assert_eq!(scratch_channels(&synth), main_bus_channels(&synth, BusDirection::Output));
    assert_eq!(pass_end(3, 10, usize::MAX), 10);
}

#[test]
fn errors_say_what_failed() {
    assert_eq!(Error::NoOutputDevice.message(), "no audio output device is available");
    assert_eq!(
        Error::Config(String::from("x")).message(),
        "audio configuration failed: x"
    );
    assert_eq!(Error::Audio(String::from("x")).message(), "audio stream failed: x");
    assert_eq!(Error::Window(String::from("x")).message(), "window creation failed: x");
    assert_eq!(Error::WebView(String::from("x")).message(), "webview creation failed: x");
    assert_eq!(
        PdError::NoInstanceSupport.message(),
        "libpd was built without multi-instance support"
    );
    assert_eq!(PdError::AudioInit.message(), "Pd refused the audio configuration");
    assert_eq!(PdError::PatchNotFound.message(), "patch path has no file name or parent");
    assert_eq!(PdError::PatchFailed.message(), "Pd could not open the patch");
}

/// Run a block through an adapter whose DSP scales every sample by `gain`.
fn process(pd: &mut TickAdapter<f32>, channels: &mut [&mut [f32]], gain: f32) {
    let lens: Vec<usize> = channels.iter().map(|c| c.len()).collect();
    for f in 0..common_frames(&lens) {
        let mut frame: Vec<f32> = channels.iter().map(|c| c[f]).collect();
        if pd.feed(&frame) {
            let tick: Vec<f32> = pd.input().iter().map(|s| s * gain).collect();
            pd.absorb(&tick);
        }
        pd.pull(&mut frame);
        for (c, s) in channels.iter_mut().zip(frame) {
            c[f] = s;
        }
    }
}

#[test]
fn patch_processes_audio_at_any_block_size() {
    let mut pd = TickAdapter::new(1, 64, 0.0f32);
    let latency = pd.latency_frames() as usize;
    assert_eq!(latency, 64);
    let mut produced = Vec::new();
    for _ in 0..12 {
        let mut buf = vec![1.0f32; 100];
        process(&mut pd, &mut [&mut buf], 0.5);
        produced.extend_from_slice(&buf);
    }
    let steady = &produced[latency + 64..];
    assert!(!steady.is_empty());
    for (i, s) in steady.iter().enumerate() {
        assert!((s - 0.5).abs() < 1e-6, "sample {i} was {s}, expected 0.5");
    }
}

#[test]
fn instances_are_independent() {
    let mut a = TickAdapter::new(1, 64, 0.0f32);
    let mut b = TickAdapter::new(1, 64, 0.0f32);
    let mut out_a = Vec::new();
    let mut out_b = Vec::new();
    for _ in 0..8 {
        let mut buf_a = vec![1.0f32; 128];
        let mut buf_b = vec![1.0f32; 128];
        process(&mut a, &mut [&mut buf_a], 0.5);
        process(&mut b, &mut [&mut buf_b], 0.0);
        out_a.extend_from_slice(&buf_a);
        out_b.extend_from_slice(&buf_b);
    }
    assert!(out_a.iter().any(|s| (s - 0.5).abs() < 1e-6));
    assert!(out_b.iter().all(|s| s.abs() < 1e-6));
}

#[test]
fn stereo_channels_interleave_in_order() {
    let mut pd = TickAdapter::new(2, 64, 0.0f32);
    let latency = pd.latency_frames() as usize;
    let mut left = Vec::new();
    let mut right = Vec::new();
    for _ in 0..12 {
        let mut l = vec![1.0f32; 100];
        let mut r = vec![0.25f32; 100];
        process(&mut pd, &mut [&mut l, &mut r], 0.5);
        left.extend_from_slice(&l);
        right.extend_from_slice(&r);
    }
    for (l, r) in left[latency + 64..].iter().zip(&right[latency + 64..]) {
        assert!((l - 0.5).abs() < 1e-6);
        assert!((r - 0.125).abs() < 1e-6, "swapped or duplicated channels?");
    }
}

#[test]
fn the_delay_is_exactly_one_tick() {
    let mut pd = TickAdapter::new(1, 4, 0i32);
    let mut out = Vec::new();
    for i in 1..=20 {
        let mut frame = [i];
        if pd.feed(&frame) {
            let tick: Vec<i32> = pd.input().iter().map(|s| s * 10).collect();
            pd.absorb(&tick);
        }
        pd.pull(&mut frame);
        out.push(frame[0]);
    }
    let want: Vec<i32> = (0..4).map(|_| 0).chain((1..=16).map(|i| i * 10)).collect();
    assert_eq!(out, want);
}

#[test]
fn missing_channels_are_silent_and_extra_ones_left_alone() {
    let mut pd = TickAdapter::new(2, 1, 0i32);
    assert!(pd.feed(&[5]));
    assert_eq!(pd.input(), &vec![5, 0]);
    pd.absorb(&[6, 7]);
    let mut out = [9, 9, 9];
    pd.pull(&mut out);
    assert_eq!(out, [0, 0, 9]);
    assert!(pd.feed(&[]));
    pd.absorb(&[8, 8]);
    let mut out = [9];
    pd.pull(&mut out);
    assert_eq!(out, [6]);
    // A DSP without channels still gets one.
    assert_eq!(TickAdapter::new(0, 0, 0i32).latency_frames(), 1);
    assert_eq!(common_frames(&[]), 0);
    assert_eq!(common_frames(&[3, 2, 5]), 2);
}
