use skuiz::midi::{
    channel_of, channel_param, control_change, note_off, note_off2, note_on, note_on2, pitch_bend,
    MidiEvent, MidiOut,
};
use skuiz::params::Bound;

#[test]
fn messages_encode_status_and_clamp_data() {
    assert_eq!(note_on(0, 60, 100).midi1_bytes(), Some([0x90, 60, 100]));
    assert_eq!(note_off(3, 60, 0).midi1_bytes(), Some([0x83, 60, 0]));
    assert_eq!(control_change(15, 7, 64).midi1_bytes(), Some([0xBF, 7, 64]));
    // channel and data bytes must never corrupt the status nibble
    assert_eq!(note_on(200, 200, 200).midi1_bytes(), Some([0x98, 127, 127]));
}

#[test]
fn pitch_bend_packs_fourteen_bits() {
    assert_eq!(pitch_bend(0, 8192).midi1_bytes(), Some([0xE0, 0x00, 0x40]));
    assert_eq!(pitch_bend(0, 0).midi1_bytes(), Some([0xE0, 0x00, 0x00]));
    assert_eq!(pitch_bend(0, 16383).midi1_bytes(), Some([0xE0, 0x7F, 0x7F]));
    for raw in [0u16, 1, 127, 128, 5000, 16383, 65535] {
        let m = pitch_bend(0, raw).midi1_bytes().unwrap();
        assert!(m[1] < 128 && m[2] < 128, "data bytes must stay 7-bit");
    }
}

#[test]
fn midi2_notes_are_two_word_ump_with_16_bit_velocity() {
    // Message type 0x4 (MIDI 2.0 channel voice), status 0x9, ch 1,
    // key 60, attribute 0; velocity 0xF800 in the high half of word 1.
    assert_eq!(note_on2(1, 60, 0xF800).words(), &[0x4091_3C00, 0xF800_0000]);
    assert_eq!(note_off2(1, 60, 0).words(), &[0x4081_3C00, 0]);
    // Not reducible to MIDI 1.0 bytes.
    assert_eq!(note_on2(1, 60, 0xF800).midi1_bytes(), None);
    // Velocity 0 is not a legal MIDI 2.0 note on; clamped to 1.
    assert_eq!(note_on2(1, 60, 0).words()[1], 0x0001_0000);
}

#[test]
fn channel_param_round_trips() {
    let p = channel_param(4);
    assert_eq!((p.low(), p.high()), (Bound::Index(0), Bound::Index(15)));
    assert_eq!(f64::from_bits(p.max), 15.0);
    assert_eq!(p.label(0), Some("1"), "channel 0 shows as 1 to users");
    assert_eq!(p.label(15), Some("16"));
    assert_eq!(channel_of(15), 15);
    assert_eq!(channel_of(99), 15, "out-of-range values clamp, not wrap");
    assert_eq!(channel_of(-3), 0);
}

#[test]
fn midi_out_is_bounded_and_never_reallocates() {
    let mut midi = MidiOut::with_capacity(2);
    let ptr = midi.events().as_ptr();
    midi.push(0, MidiEvent::from_midi1([0x90, 60, 100]));
    midi.push(1, MidiEvent::from_midi1([0x80, 60, 0]));
    midi.push(2, MidiEvent::from_midi1([0x90, 62, 100])); // over capacity: dropped, not realloc'd
    assert_eq!(midi.events().len(), 2);
    assert_eq!(midi.dropped(), 1);
    assert_eq!(midi.events().as_ptr(), ptr, "push must never reallocate");
    assert_eq!(midi.events()[0], (0, MidiEvent::from_midi1([0x90, 60, 100])));
    midi.clear();
    assert!(midi.events().is_empty());
    assert_eq!(midi.dropped(), 0);
}

#[test]
fn midi_event_round_trips_midi1_and_ump() {
    let ev = MidiEvent::from_midi1([0x92, 63, 100]);
    assert_eq!(ev.words(), &[0x2092_3F64]);
    assert_eq!(ev.midi1_bytes(), Some([0x92, 63, 100]));

    // A two-word MIDI 2.0 message is not reducible to 3 bytes.
    let wide = MidiEvent::from_ump(&[0x4092_3C00, 0xF800_0000]);
    assert_eq!(wide.words(), &[0x4092_3C00, 0xF800_0000]);
    assert_eq!(wide.midi1_bytes(), None);

    // Over-long input is truncated to four words, never panics.
    assert_eq!(MidiEvent::from_ump(&[0; 6]).words().len(), 4);
    // Events are their words, however they were made.
    assert_eq!(MidiEvent::from_ump(&[0x2090_3C64]), MidiEvent::from_midi1([0x90, 0x3C, 0x64]));
    assert_eq!(MidiEvent::from_ump(&[1, 2, 3, 4, 5]), MidiEvent::from_ump(&[1, 2, 3, 4, 6]));
    assert_ne!(MidiEvent::from_ump(&[1]), MidiEvent::from_ump(&[1, 0]));
    assert!(MidiEvent::from_ump(&[]).words().is_empty());
}

/// Pitch bend from -1 to 1, scaled onto 14 bits.
fn bend(channel: u8, bend: f32) -> skuiz::midi::MidiEvent {
    let raw = ((bend.clamp(-1.0, 1.0) as f64 + 1.0) * 8191.5).round() as u16;
    skuiz::midi::pitch_bend(channel, raw)
}

#[test]
fn pitch_bend_centres_and_saturates() {
    assert_eq!(bend(0, 0.0).midi1_bytes(), Some([0xE0, 0x00, 0x40])); // 8192
    assert_eq!(bend(0, -1.0).midi1_bytes(), Some([0xE0, 0x00, 0x00])); // 0
    assert_eq!(bend(0, 1.0).midi1_bytes(), Some([0xE0, 0x7F, 0x7F])); // 16383
    assert_eq!(bend(0, 9.0).midi1_bytes(), bend(0, 1.0).midi1_bytes()); // clamped
    for b in [-1.0f32, -0.5, 0.0, 0.25, 1.0] {
        let m = bend(0, b).midi1_bytes().unwrap();
        assert!(m[1] < 128 && m[2] < 128, "data bytes must stay 7-bit");
    }
}
