//! Generated MIDI in the shapes hosts want it.
use vstd::prelude::*;

use crate::midi;
use crate::midi::{MidiEvent, MidiOut};

verus! {

/// Where in a block an event lands: its frame counted from the segment's
/// start, moved to the block's, and no later than the block's last frame.
pub open spec fn landing(frame: u32, offset: u32, frames: u32) -> u32 {
    let last = if frames == 0 {
        0
    } else {
        frames - 1
    };
    if frame + offset > last {
        last as u32
    } else {
        (frame + offset) as u32
    }
}

/// Where in a block an event lands. Events past the end are moved into the
/// block rather than dropped.
pub fn land(frame: u32, offset: u32, frames: u32) -> (r: u32)
    ensures
        r == landing(frame, offset, frames),
{
    let last: u32 = frames.saturating_sub(1);
    let at: u32 = frame.saturating_add(offset);
    if at > last {
        last
    } else {
        at
    }
}

/// An event as a stream of MIDI 1.0 and UMP messages carries it.
#[derive(Clone, Copy, PartialEq, Eq, Debug)]
pub enum WireMidi {
    /// A MIDI 1.0 message.
    Midi1([u8; 3]),
    /// Anything wider, padded with zero words.
    Ump([u32; 4]),
}

/// The words of an event, padded to four.
pub open spec fn padded(words: Seq<u32>) -> Seq<u32> {
    Seq::new(4, |i: int| if i < words.len() { words[i] } else { 0 })
}

/// One generated event for the host's output queue: the frame it lands on,
/// and its message. MIDI 1.0 messages go out as such, anything wider as UMP.
pub fn emit_midi(frame: u32, event: &MidiEvent, frames: u32, offset: u32) -> (r: (u32, WireMidi))
    requires
        event.wf(),
    ensures
        r.0 == landing(frame, offset, frames),
        match r.1 {
            WireMidi::Midi1(bytes) => midi::is_midi1(event@) && bytes@ == midi::low_bytes(event@[0]),
            WireMidi::Ump(words) => !midi::is_midi1(event@) && words@ == padded(event@),
        },
{
    let at: u32 = land(frame, offset, frames);
    match event.midi1_bytes() {
        Some(bytes) => (at, WireMidi::Midi1(bytes)),
        None => {
            let words = event.words();
            let mut out: [u32; 4] = [0, 0, 0, 0];
            let mut i: usize = 0;
            proof {
                event.lemma_at_most_four();
            }
            while i < words.len()
                invariant
                    i <= words@.len() <= 4,
                    forall|k: int| 0 <= k < i ==> (#[trigger] out@[k]) == words@[k],
                    forall|k: int| i <= k < 4 ==> (#[trigger] out@[k]) == 0,
                decreases words.len() - i,
            {
                out[i] = words[i];
                i += 1;
            }
            proof {
                assert(out@ =~= padded(event@));
            }
            (at, WireMidi::Ump(out))
        },
    }
}

/// An event in the shape of a host that has typed events for notes and
/// pressure and takes everything else as a legacy controller.
#[derive(Clone, Copy, PartialEq, Eq, Structural, Debug)]
pub enum NoteEvent {
    /// A note starts.
    NoteOn {
        /// Channel.
        channel: u8,
        /// Key.
        pitch: u8,
        /// Velocity, 1 to 127.
        velocity: u8,
    },
    /// A note ends.
    NoteOff {
        /// Channel.
        channel: u8,
        /// Key.
        pitch: u8,
        /// Release velocity.
        velocity: u8,
    },
    /// Pressure on one key.
    PolyPressure {
        /// Channel.
        channel: u8,
        /// Key.
        pitch: u8,
        /// Pressure.
        pressure: u8,
    },
    /// A controller, channel pressure or pitch bend.
    Controller {
        /// Controller number; 128 is channel pressure, 129 pitch bend.
        control: u8,
        /// Channel.
        channel: u8,
        /// First data byte.
        value: u8,
        /// Second data byte, for pitch bend.
        value2: u8,
    },
}

/// The controller number that stands for channel pressure.
pub const AFTER_TOUCH: u8 = 128;

/// The controller number that stands for pitch bend.
pub const PITCH_BEND: u8 = 129;

/// The typed event of three MIDI 1.0 bytes, if there is one. A note-on at
/// velocity 0 is a note-off.
pub open spec fn typed_event(b: Seq<u8>) -> Option<NoteEvent> {
    let kind = b[0] as int / 16;
    let channel = (b[0] as int % 16) as u8;
    if kind == 9 && b[2] > 0 {
        Some(NoteEvent::NoteOn { channel, pitch: b[1], velocity: b[2] })
    } else if kind == 8 || kind == 9 {
        Some(NoteEvent::NoteOff { channel, pitch: b[1], velocity: b[2] })
    } else if kind == 10 {
        Some(NoteEvent::PolyPressure { channel, pitch: b[1], pressure: b[2] })
    } else if kind == 11 {
        Some(NoteEvent::Controller { control: b[1], channel, value: b[2], value2: 0 })
    } else if kind == 13 {
        Some(NoteEvent::Controller { control: AFTER_TOUCH, channel, value: b[1], value2: 0 })
    } else if kind == 14 {
        Some(NoteEvent::Controller { control: PITCH_BEND, channel, value: b[1], value2: b[2] })
    } else {
        None
    }
}

/// One generated event for a host with typed events: the frame it lands on,
/// and the event. UMP messages and kinds without a counterpart are skipped.
pub fn emit_event(frame: u32, event: &MidiEvent, frames: u32, offset: u32) -> (r: Option<
    (u32, NoteEvent),
>)
    requires
        event.wf(),
    ensures
        r == (if midi::is_midi1(event@) && typed_event(midi::low_bytes(event@[0])) is Some {
            Some((landing(frame, offset, frames), typed_event(midi::low_bytes(event@[0]))->0))
        } else {
            None
        }),
{
    let b: [u8; 3] = match event.midi1_bytes() {
        Some(b) => b,
        None => {
            return None;
        },
    };
    let at: u32 = land(frame, offset, frames);
    let kind: u8 = b[0] / 16;
    let channel: u8 = b[0] % 16;
    if kind == 9 && b[2] > 0 {
        Some((at, NoteEvent::NoteOn { channel, pitch: b[1], velocity: b[2] }))
    } else if kind == 8 || kind == 9 {
        Some((at, NoteEvent::NoteOff { channel, pitch: b[1], velocity: b[2] }))
    } else if kind == 10 {
        Some((at, NoteEvent::PolyPressure { channel, pitch: b[1], pressure: b[2] }))
    } else if kind == 11 {
        Some((at, NoteEvent::Controller { control: b[1], channel, value: b[2], value2: 0 }))
    } else if kind == 13 {
        Some((at, NoteEvent::Controller { control: AFTER_TOUCH, channel, value: b[1], value2: 0 }))
    } else if kind == 14 {
        Some(
            (at, NoteEvent::Controller { control: PITCH_BEND, channel, value: b[1], value2: b[2] }),
        )
    } else {
        None
    }
}

/// The MIDI 1.0 events among some events, each with its frame and bytes.
pub open spec fn midi1_events(events: Seq<(u32, MidiEvent)>) -> Seq<(u32, Seq<u8>)>
    decreases events.len(),
{
    if events.len() == 0 {
        Seq::empty()
    } else {
        let front = midi1_events(events.drop_last());
        let (frame, event) = events.last();
        if midi::is_midi1(event@) {
            front.push((frame, midi::low_bytes(event@[0])))
        } else {
            front
        }
    }
}

proof fn lemma_midi1_prefix(events: Seq<(u32, MidiEvent)>, n: int)
    requires
        0 <= n <= events.len(),
    ensures
        midi1_events(events.take(n)).len() <= midi1_events(events).len(),
        forall|k: int|
            0 <= k < midi1_events(events.take(n)).len() ==> (#[trigger] midi1_events(
                events.take(n),
            )[k]) == midi1_events(events)[k],
        midi1_events(events.take(n)).len() <= n,
    decreases events.len(),
{
    if n < events.len() {
        lemma_midi1_prefix(events.drop_last(), n);
        assert(events.drop_last().take(n) =~= events.take(n));
    } else {
        assert(events.take(n) =~= events);
        if n > 0 {
            lemma_midi1_prefix(events.drop_last(), n - 1);
            assert(events.drop_last().take(n - 1) =~= events.drop_last());
        }
    }
}

/// How many MIDI 1.0 events there are; UMP-only events do not count.
pub fn midi_count(midi: &MidiOut) -> (r: usize)
    requires
        midi.wf(),
    ensures
        r == midi1_events(midi@).len(),
{
    let events = midi.events();
    let mut n: usize = 0;
    let mut i: usize = 0;
    proof {
        assert(events@.take(0) =~= Seq::empty());
    }
    while i < events.len()
        invariant
            i <= events@.len(),
            n <= i,
            forall|k: int| 0 <= k < events@.len() ==> (#[trigger] events@[k]).1.wf(),
            n == midi1_events(events@.take(i as int)).len(),
        decreases events.len() - i,
    {
        proof {
            assert(events@.take(i + 1).drop_last() =~= events@.take(i as int));
            assert(events@.take(i + 1).last() == events@[i as int]);
        }
        if events[i].1.midi1_bytes().is_some() {
            n += 1;
        }
        i += 1;
    }
    proof {
        assert(events@.take(i as int) =~= events@);
    }
    n
}

/// The MIDI 1.0 event with this index, counting MIDI 1.0 events only.
pub fn midi_event(midi: &MidiOut, index: usize) -> (r: Option<(u32, [u8; 3])>)
    requires
        midi.wf(),
    ensures
        match r {
            Some((frame, bytes)) => index < midi1_events(midi@).len() && midi1_events(
                midi@,
            )[index as int] == (frame, bytes@),
            None => index >= midi1_events(midi@).len(),
        },
{
    let events = midi.events();
    let mut n: usize = 0;
    let mut i: usize = 0;
    proof {
        assert(events@.take(0) =~= Seq::empty());
    }
    while i < events.len()
        invariant
            i <= events@.len(),
            n <= i,
            n <= index,
            events@ == midi@,
            forall|k: int| 0 <= k < events@.len() ==> (#[trigger] events@[k]).1.wf(),
            n == midi1_events(events@.take(i as int)).len(),
        decreases events.len() - i,
    {
        proof {
            assert(events@.take(i + 1).drop_last() =~= events@.take(i as int));
            assert(events@.take(i + 1).last() == events@[i as int]);
            lemma_midi1_prefix(events@, i + 1);
        }
        if let Some(bytes) = events[i].1.midi1_bytes() {
            if n == index {
                proof {
                    let upto = midi1_events(events@.take(i + 1));
                    assert(upto[n as int] == (events@[i as int].0, bytes@));
                }
                return Some((events[i].0, bytes));
            }
            n += 1;
        }
        i += 1;
    }
    proof {
        assert(events@.take(i as int) =~= events@);
    }
    None
}

/// No event is ever handed to a host outside its block.
pub proof fn law_events_land_in_the_block(frame: u32, offset: u32, frames: u32)
    ensures
        frames > 0 ==> landing(frame, offset, frames) < frames,
        frames > 0 && frame + offset < frames ==> landing(frame, offset, frames) == frame + offset,
{
}

/// An event lands on its own frame, moved by where its segment starts, or on
/// the block's last frame if that is past the end.
pub proof fn law_events_land_on_their_frame(frame: u32, offset: u32, frames: u32)
    ensures
        frame + offset < frames ==> landing(frame, offset, frames) == frame + offset,
        frame + offset >= frames > 0 ==> landing(frame, offset, frames) == frames - 1,
        frames == 0 ==> landing(frame, offset, frames) == 0,
{
}

/// Every MIDI 1.0 message with a counterpart reaches the host with its own
/// channel and data: notes, pressure and controllers by their kind.
pub proof fn law_messages_become_their_events(channel: u8, a: u8, b: u8)
    requires
        channel < 16,
    ensures
        b > 0 ==> typed_event(seq![(0x90 + channel) as u8, a, b]) == Some(
            NoteEvent::NoteOn { channel, pitch: a, velocity: b },
        ),
        typed_event(seq![(0x90 + channel) as u8, a, 0]) == Some(
            NoteEvent::NoteOff { channel, pitch: a, velocity: 0 },
        ),
        typed_event(seq![(0x80 + channel) as u8, a, b]) == Some(
            NoteEvent::NoteOff { channel, pitch: a, velocity: b },
        ),
        typed_event(seq![(0xA0 + channel) as u8, a, b]) == Some(
            NoteEvent::PolyPressure { channel, pitch: a, pressure: b },
        ),
        typed_event(seq![(0xB0 + channel) as u8, a, b]) == Some(
            NoteEvent::Controller { control: a, channel, value: b, value2: 0 },
        ),
        typed_event(seq![(0xD0 + channel) as u8, a, b]) == Some(
            NoteEvent::Controller { control: 128, channel, value: a, value2: 0 },
        ),
        typed_event(seq![(0xE0 + channel) as u8, a, b]) == Some(
            NoteEvent::Controller { control: 129, channel, value: a, value2: b },
        ),
{
}

/// Program changes, system messages and bytes that are no status have no
/// counterpart.
pub proof fn law_other_messages_are_skipped(status: u8, a: u8, b: u8)
    requires
        status < 0x80 || 0xC0 <= status < 0xD0 || status >= 0xF0,
    ensures
        typed_event(seq![status, a, b]) is None,
{
}

/// Words go out as they are, with zeros behind them up to four.
pub proof fn law_words_are_padded_with_zeros(words: Seq<u32>, i: int)
    requires
        words.len() <= 4,
        0 <= i < 4,
    ensures
        padded(words).len() == 4,
        i < words.len() ==> padded(words)[i] == words[i],
        i >= words.len() ==> padded(words)[i] == 0,
{
}

/// Of events, exactly the MIDI 1.0 messages are listed, in order: one event is
/// listed by itself if it is one word of message type 2, and a list of two
/// parts is listed part by part.
pub proof fn law_midi1_events_are_listed_in_order(
    a: Seq<(u32, MidiEvent)>,
    b: Seq<(u32, MidiEvent)>,
    frame: u32,
    event: MidiEvent,
)
    ensures
        midi1_events(Seq::empty()).len() == 0,
        midi1_events(a + b) == midi1_events(a) + midi1_events(b),
        event@.len() == 1 && 0x2000_0000 <= event@[0] < 0x3000_0000 ==> midi1_events(
            seq![(frame, event)],
        ) == seq![(frame, midi::low_bytes(event@[0]))],
        !(event@.len() == 1 && 0x2000_0000 <= event@[0] < 0x3000_0000) ==> midi1_events(
            seq![(frame, event)],
        ).len() == 0,
    decreases b.len(),
{
    let one = seq![(frame, event)];
    assert(one.drop_last() =~= Seq::empty());
    assert(midi1_events(one.drop_last()) =~= Seq::empty());
    if event@.len() == 1 && 0x2000_0000 <= event@[0] < 0x3000_0000 {
        assert(midi1_events(one) =~= seq![(frame, midi::low_bytes(event@[0]))]);
    }
    if b.len() == 0 {
        assert(a + b =~= a);
        assert(midi1_events(a) + midi1_events(b) =~= midi1_events(a));
    } else {
        law_midi1_events_are_listed_in_order(a, b.drop_last(), frame, event);
        assert((a + b).drop_last() =~= a + b.drop_last());
        assert((a + b).last() == b.last());
        assert(midi1_events(a + b) =~= midi1_events(a) + midi1_events(b));
    }
}

} // verus!
