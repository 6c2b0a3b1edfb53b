//! MIDI events and the messages a plugin emits.
//!
//! An event is up to four 32-bit UMP words: a MIDI 1.0 channel message takes
//! one word (message type 2), a MIDI 2.0 one takes more.
use vstd::prelude::*;
use vstd::slice::slice_subrange;
use vstd::array::array_as_slice;

use crate::params::ParamDef;

verus! {

/// The word that carries three MIDI 1.0 bytes: message type 2, group 0.
pub open spec fn midi1_word(b0: u8, b1: u8, b2: u8) -> u32 {
    (0x2000_0000 + b0 * 0x1_0000 + b1 * 0x100 + b2) as u32
}

/// The message type of a word.
pub open spec fn message_type(word: u32) -> int {
    word as int / 0x1000_0000
}

/// The three low bytes of a word, highest first.
pub open spec fn low_bytes(word: u32) -> Seq<u8> {
    seq![
        (word as int / 0x1_0000 % 0x100) as u8,
        (word as int / 0x100 % 0x100) as u8,
        (word as int % 0x100) as u8,
    ]
}

/// Whether words are one MIDI 1.0 channel message.
pub open spec fn is_midi1(words: Seq<u32>) -> bool {
    words.len() == 1 && message_type(words[0]) == 2
}

/// One generated MIDI event.
#[derive(Clone, Copy, PartialEq, Eq, Debug)]
pub struct MidiEvent {
    words: [u32; 4],
    len: u8,
}

impl View for MidiEvent {
    type V = Seq<u32>;

    closed spec fn view(&self) -> Seq<u32> {
        self.words@.take(self.len as int)
    }
}

impl MidiEvent {
    /// At most four words, and zeros behind them.
    pub closed spec fn wf(&self) -> bool {
        &&& self.len <= 4
        &&& forall|k: int| self.len <= k < 4 ==> (#[trigger] self.words@[k]) == 0
    }

    /// A well-formed event has at most four words.
    pub proof fn lemma_at_most_four(&self)
        requires
            self.wf(),
        ensures
            self@.len() <= 4,
    {
    }

    /// Wrap three MIDI 1.0 bytes.
    pub fn from_midi1(bytes: [u8; 3]) -> (r: Self)
        ensures
            r.wf(),
            r@ == seq![midi1_word(bytes@[0], bytes@[1], bytes@[2])],
    {
        let b0: u32 = bytes[0] as u32;
        let b1: u32 = bytes[1] as u32;
        let b2: u32 = bytes[2] as u32;
        let word: u32 = 0x2000_0000u32 | b0 << 16 | b1 << 8 | b2;
        proof {
            assert(0x2000_0000u32 | b0 << 16 | b1 << 8 | b2 == 0x2000_0000 + b0 * 0x1_0000 + b1
                * 0x100 + b2) by (bit_vector)
                requires
                    b0 < 0x100,
                    b1 < 0x100,
                    b2 < 0x100,
            ;
        }
        let r = MidiEvent { words: [word, 0, 0, 0], len: 1 };
        proof {
            assert(r@ =~= seq![midi1_word(bytes@[0], bytes@[1], bytes@[2])]);
        }
        r
    }

    /// Wrap UMP words; anything past four words is dropped.
    pub fn from_ump(words: &[u32]) -> (r: Self)
        ensures
            r.wf(),
            r@ == (if words@.len() > 4 {
                words@.take(4)
            } else {
                words@
            }),
    {
        let mut out: [u32; 4] = [0, 0, 0, 0];
        let mut i: usize = 0;
        while i < words.len() && i < 4
            invariant
                i <= words.len(),
                i <= 4,
                forall|k: int| 0 <= k < i ==> out@[k] == words@[k],
                forall|k: int| i <= k < 4 ==> (#[trigger] out@[k]) == 0,
            decreases 4 - i,
        {
            out[i] = words[i];
            i += 1;
        }
        let r = MidiEvent { words: out, len: i as u8 };
        proof {
            assert(r@ =~= if words@.len() > 4 {
                words@.take(4)
            } else {
                words@
            });
        }
        r
    }

    /// The words.
    pub fn words(&self) -> (r: &[u32])
        requires
            self.wf(),
        ensures
            r@ == self@,
    {
        slice_subrange(array_as_slice(&self.words), 0, self.len as usize)
    }

    /// The three MIDI 1.0 bytes, if this is a MIDI 1.0 channel message.
    pub fn midi1_bytes(&self) -> (r: Option<[u8; 3]>)
        requires
            self.wf(),
        ensures
            match r {
                Some(b) => is_midi1(self@) && b@ == low_bytes(self@[0]),
                None => !is_midi1(self@),
            },
    {
        let w: u32 = self.words[0];
        proof {
            assert(w >> 28 == w / 0x1000_0000) by (bit_vector);
        }
        if self.len == 1 && w >> 28 == 2 {
            let b: [u8; 3] = [((w >> 16) & 0xff) as u8, ((w >> 8) & 0xff) as u8, (w & 0xff) as u8];
            proof {
                assert((w >> 16) & 0xff == w / 0x1_0000 % 0x100) by (bit_vector);
                assert((w >> 8) & 0xff == w / 0x100 % 0x100) by (bit_vector);
                assert(w & 0xff == w % 0x100) by (bit_vector);
                assert(b@ =~= low_bytes(self@[0]));
            }
            Some(b)
        } else {
            None
        }
    }
}

/// Two events are equal exactly when their words are: nothing else tells
/// them apart.
pub proof fn law_events_are_their_words(a: MidiEvent, b: MidiEvent)
    requires
        a.wf(),
        b.wf(),
    ensures
        a == b <==> a@ == b@,
{
    if a@ == b@ {
        assert(a.len == a@.len());
        assert(b.len == b@.len());
        assert forall|k: int| 0 <= k < 4 implies a.words@[k] == b.words@[k] by {
            if k < a.len {
                assert(a@[k] == b@[k]);
            }
        }
        assert(a.words@ =~= b.words@);
        assert(a.words =~= b.words);
    }
}

/// Three bytes come back out of the event that wraps them.
pub proof fn law_midi1_bytes_come_back(b0: u8, b1: u8, b2: u8)
    ensures
        is_midi1(seq![midi1_word(b0, b1, b2)]),
        low_bytes(midi1_word(b0, b1, b2)) == seq![b0, b1, b2],
{
    let w = midi1_word(b0, b1, b2) as int;
    assert(w == 0x2000_0000 + b0 * 0x1_0000 + b1 * 0x100 + b2);
    assert(w / 0x1_0000 == 0x2000 + b0);
    assert(w / 0x100 == 0x20_0000 + b0 * 0x100 + b1);
    assert((0x2000 + b0) % 0x100 == b0);
    assert((0x20_0000 + b0 * 0x100 + b1) % 0x100 == b1);
    assert(w % 0x100 == b2);
    assert(w / 0x1000_0000 == 2);
    assert(low_bytes(midi1_word(b0, b1, b2)) =~= seq![b0, b1, b2]);
}

/// MIDI emitted during one block, each event with the frame it lands on.
/// The capacity is fixed: a push beyond it is dropped and counted.
#[derive(Debug)]
pub struct MidiOut {
    events: Vec<(u32, MidiEvent)>,
    capacity: usize,
    dropped: u64,
}

impl View for MidiOut {
    type V = Seq<(u32, MidiEvent)>;

    closed spec fn view(&self) -> Seq<(u32, MidiEvent)> {
        self.events@
    }
}

impl MidiOut {
    /// How many events fit.
    pub closed spec fn room(&self) -> usize {
        self.capacity
    }

    /// How many events were dropped since the last clear.
    pub closed spec fn lost(&self) -> u64 {
        self.dropped
    }

    /// No more events than fit, each well formed.
    pub closed spec fn wf(&self) -> bool {
        &&& self.events@.len() <= self.capacity
        &&& forall|i: int| 0 <= i < self.events@.len() ==> (#[trigger] self.events@[i]).1.wf()
    }

    /// Allocate room for `capacity` events.
    pub fn with_capacity(capacity: usize) -> (r: Self)
        ensures
            r.wf(),
            r@ == Seq::<(u32, MidiEvent)>::empty(),
            r.room() == capacity,
            r.lost() == 0,
    {
        MidiOut { events: Vec::with_capacity(capacity), capacity, dropped: 0 }
    }

    /// Queue `event` at `frame`, unless there is no room.
    pub fn push(&mut self, frame: u32, event: MidiEvent)
        requires
            old(self).wf(),
            event.wf(),
        ensures
            final(self).wf(),
            final(self).room() == old(self).room(),
            if old(self)@.len() < old(self).room() {
                final(self)@ == old(self)@.push((frame, event)) && final(self).lost() == old(
                    self,
                ).lost()
            } else {
                final(self)@ == old(self)@ && final(self).lost() == (if old(self).lost()
                    == u64::MAX {
                    u64::MAX
                } else {
                    (old(self).lost() + 1) as u64
                })
            },
    {
        if self.events.len() < self.capacity {
            self.events.push((frame, event));
        } else {
            self.dropped = self.dropped.saturating_add(1);
        }
    }

    /// Every queued event, in push order.
    pub fn events(&self) -> (r: &[(u32, MidiEvent)])
        ensures
            r@ == self@,
            self.wf() ==> forall|i: int| 0 <= i < r@.len() ==> (#[trigger] r@[i]).1.wf(),
    {
        self.events.as_slice()
    }

    /// How many events were dropped since the last clear.
    pub fn dropped(&self) -> (r: u64)
        ensures
            r == self.lost(),
    {
        self.dropped
    }

    /// Forget all queued events and the count of dropped ones.
    pub fn clear(&mut self)
        requires
            old(self).wf(),
        ensures
            final(self).wf(),
            final(self)@ == Seq::<(u32, MidiEvent)>::empty(),
            final(self).room() == old(self).room(),
            final(self).lost() == 0,
    {
        self.events.clear();
        self.dropped = 0;
    }
}

/// Channels go from 0 to 15 on the wire.
pub const MAX_CHANNEL: u8 = 15;

/// Clamp to the seven bits a data byte has.
pub open spec fn data_byte(v: u8) -> u8 {
    if v > 127 {
        127
    } else {
        v
    }
}

/// A status byte: a kind in the high nibble, a channel in the low one.
pub open spec fn status_byte(kind: u8, channel: u8) -> u8 {
    (kind + channel % 16) as u8
}

fn data(v: u8) -> (r: u8)
    ensures
        r == data_byte(v),
{
    if v > 127 {
        127
    } else {
        v
    }
}

fn status(kind: u8, channel: u8) -> (r: u8)
    requires
        kind % 16 == 0,
    ensures
        r == status_byte(kind, channel),
{
    proof {
        assert(kind | (channel & 15) == kind + channel % 16) by (bit_vector)
            requires
                kind % 16 == 0,
        ;
    }
    kind | (channel & MAX_CHANNEL)
}

/// Note on. Channels wrap at 16, data bytes clamp at 127.
pub fn note_on(channel: u8, key: u8, velocity: u8) -> (r: MidiEvent)
    ensures
        r.wf(),
        r@ == seq![midi1_word(status_byte(0x90, channel), data_byte(key), data_byte(velocity))],
{
    MidiEvent::from_midi1([status(0x90, channel), data(key), data(velocity)])
}

/// Note off. `velocity` is the release velocity.
pub fn note_off(channel: u8, key: u8, velocity: u8) -> (r: MidiEvent)
    ensures
        r.wf(),
        r@ == seq![midi1_word(status_byte(0x80, channel), data_byte(key), data_byte(velocity))],
{
    MidiEvent::from_midi1([status(0x80, channel), data(key), data(velocity)])
}

/// Control change.
pub fn control_change(channel: u8, controller: u8, value: u8) -> (r: MidiEvent)
    ensures
        r.wf(),
        r@ == seq![
            midi1_word(status_byte(0xB0, channel), data_byte(controller), data_byte(value)),
        ],
{
    MidiEvent::from_midi1([status(0xB0, channel), data(controller), data(value)])
}

/// Pitch bend from its 14-bit value, 8192 being the centre. The low seven
/// bits come first; bits past the fourteenth are ignored.
pub fn pitch_bend(channel: u8, raw: u16) -> (r: MidiEvent)
    ensures
        r.wf(),
        r@ == seq![
            midi1_word(
                status_byte(0xE0, channel),
                (raw as int % 128) as u8,
                (raw as int / 128 % 128) as u8,
            ),
        ],
{
    proof {
        assert(raw & 0x7f == raw % 128) by (bit_vector);
        assert((raw >> 7) & 0x7f == raw / 128 % 128) by (bit_vector);
    }
    MidiEvent::from_midi1([status(0xE0, channel), (raw & 0x7f) as u8, ((raw >> 7) & 0x7f) as u8])
}

/// The two words of a MIDI 2.0 note with the given status nibble.
pub open spec fn note2_words(nibble: u8, channel: u8, key: u8, velocity: u16) -> Seq<u32> {
    seq![
        (0x4000_0000 + nibble * 0x10_0000 + (channel as int % 16) * 0x1_0000 + data_byte(key)
            * 0x100) as u32,
        (velocity * 0x1_0000) as u32,
    ]
}

fn note2(nibble: u8, channel: u8, key: u8, velocity: u16) -> (r: MidiEvent)
    requires
        nibble < 16,
    ensures
        r.wf(),
        r@ == note2_words(nibble, channel, key, velocity),
{
    let n: u32 = nibble as u32;
    let c: u32 = (channel & MAX_CHANNEL) as u32;
    let k: u32 = data(key) as u32;
    let v: u32 = velocity as u32;
    proof {
        assert(channel & 15 == channel % 16) by (bit_vector);
        assert(0x4000_0000u32 | n << 20 | c << 16 | k << 8 == 0x4000_0000 + n * 0x10_0000 + c
            * 0x1_0000 + k * 0x100) by (bit_vector)
            requires
                n < 16,
                c < 16,
                k < 128,
        ;
        assert(v << 16 == v * 0x1_0000) by (bit_vector)
            requires
                v < 0x1_0000,
        ;
    }
    let words: [u32; 2] = [0x4000_0000u32 | n << 20 | c << 16 | k << 8, v << 16];
    let r = MidiEvent::from_ump(array_as_slice(&words));
    proof {
        assert(r@ =~= note2_words(nibble, channel, key, velocity));
    }
    r
}

/// MIDI 2.0 note on. Velocity 0 is not a legal one and becomes 1.
pub fn note_on2(channel: u8, key: u8, velocity: u16) -> (r: MidiEvent)
    ensures
        r.wf(),
        r@ == note2_words(
            9,
            channel,
            key,
            if velocity == 0 {
                1
            } else {
                velocity
            },
        ),
{
    note2(
        9,
        channel,
        key,
        if velocity == 0 {
            1
        } else {
            velocity
        },
    )
}

/// MIDI 2.0 note off, with a 16-bit release velocity.
pub fn note_off2(channel: u8, key: u8, velocity: u16) -> (r: MidiEvent)
    ensures
        r.wf(),
        r@ == note2_words(8, channel, key, velocity),
{
    note2(8, channel, key, velocity)
}

/// No channel and no data byte can disturb the kind of a MIDI 1.0 message,
/// and both data bytes stay within seven bits.
pub proof fn law_messages_keep_their_kind(kind: u8, channel: u8, a: u8, b: u8)
    requires
        kind % 16 == 0,
    ensures
        status_byte(kind, channel) as int / 16 == kind as int / 16,
        status_byte(kind, channel) as int % 16 == channel as int % 16,
        low_bytes(midi1_word(status_byte(kind, channel), data_byte(a), data_byte(b))) == seq![
            status_byte(kind, channel),
            data_byte(a),
            data_byte(b),
        ],
        data_byte(a) < 128,
        data_byte(b) < 128,
{
    law_midi1_bytes_come_back(status_byte(kind, channel), data_byte(a), data_byte(b));
}

/// A MIDI 2.0 note is never mistaken for a MIDI 1.0 message.
pub proof fn law_midi2_notes_are_not_midi1(nibble: u8, channel: u8, key: u8, velocity: u16)
    requires
        nibble < 16,
    ensures
        !is_midi1(note2_words(nibble, channel, key, velocity)),
        message_type(note2_words(nibble, channel, key, velocity)[0]) == 4,
{
}

/// A ready-made output-channel dropdown. Its value is the channel index; the
/// labels count from 1.
pub fn channel_param(id: u32) -> (r: ParamDef)
    ensures
        r.id == id,
        r.name == "MIDI Channel",
        r.min == 0,
        r.max == 0x402E_0000_0000_0000,
        r.default == 0,
        r.shared,
        r.choices@ == seq![
            "1",
            "2",
            "3",
            "4",
            "5",
            "6",
            "7",
            "8",
            "9",
            "10",
            "11",
            "12",
            "13",
            "14",
            "15",
            "16",
        ],
{
    ParamDef {
        id,
        name: "MIDI Channel",
        min: 0,
        max: 0x402E_0000_0000_0000,
        default: 0,
        choices: &[
            "1",
            "2",
            "3",
            "4",
            "5",
            "6",
            "7",
            "8",
            "9",
            "10",
            "11",
            "12",
            "13",
            "14",
            "15",
            "16",
        ],
        shared: true,
    }
}

/// The channel a rounded parameter value names, clamped to 0 to 15.
pub fn channel_of(rounded: i64) -> (r: u8)
    ensures
        r == (if rounded < 0 {
            0
        } else if rounded > 15 {
            15
        } else {
            rounded as int
        }),
{
    if rounded < 0 {
        0
    } else if rounded > 15 {
        MAX_CHANNEL
    } else {
        rounded as u8
    }
}

/// A data byte within seven bits goes out as it is, and anything above as the
/// largest there is.
pub proof fn law_data_bytes_are_clamped(v: u8)
    ensures
        v <= 127 ==> data_byte(v) == v,
        v > 127 ==> data_byte(v) == 127,
{
}

/// A channel within sixteen goes into the status byte as it is; channels wrap.
pub proof fn law_channels_go_into_the_status(kind: u8, channel: u8)
    requires
        kind % 16 == 0,
    ensures
        channel < 16 ==> status_byte(kind, channel) == kind + channel,
        channel >= 16 ==> status_byte(kind, channel) == status_byte(kind, (channel - 16) as u8),
{
}

/// A MIDI 1.0 message of a channel, within seven bits, is one word: message
/// type 2, group 0, and the three bytes, the status first.
pub proof fn law_messages_carry_their_bytes(kind: u8, channel: u8, a: u8, b: u8)
    requires
        kind % 16 == 0,
        channel < 16,
        a <= 127,
        b <= 127,
    ensures
        midi1_word(status_byte(kind, channel), data_byte(a), data_byte(b)) == 0x2000_0000 + (kind
            + channel) * 0x1_0000 + a * 0x100 + b,
        low_bytes(midi1_word(status_byte(kind, channel), data_byte(a), data_byte(b)))[0] == kind
            + channel,
        low_bytes(midi1_word(status_byte(kind, channel), data_byte(a), data_byte(b)))[1] == a,
        low_bytes(midi1_word(status_byte(kind, channel), data_byte(a), data_byte(b)))[2] == b,
{
    law_midi1_bytes_come_back(status_byte(kind, channel), data_byte(a), data_byte(b));
}

/// The bytes of a word are its lower three quarters, highest first, and three
/// bytes make a word of message type 2 that ends in them.
pub proof fn law_words_and_bytes(word: u32, b0: u8, b1: u8, b2: u8)
    ensures
        low_bytes(word).len() == 3,
        low_bytes(word)[0] * 0x1_0000 + low_bytes(word)[1] * 0x100 + low_bytes(word)[2] == word
            % 0x100_0000,
        midi1_word(b0, b1, b2) == 0x2000_0000 + b0 * 0x1_0000 + b1 * 0x100 + b2,
{
}

/// An event is a MIDI 1.0 message exactly when it is one word whose highest
/// four bits are 2.
pub proof fn law_midi1_is_one_word_of_type_two(words: Seq<u32>)
    ensures
        is_midi1(words) <==> words.len() == 1 && 0x2000_0000 <= words[0] < 0x3000_0000,
        words.len() > 0 ==> message_type(words[0]) * 0x1000_0000 <= words[0] < (message_type(
            words[0],
        ) + 1) * 0x1000_0000,
{
}

/// A MIDI 2.0 note carries its kind, channel, key and whole velocity, each in
/// its own place.
pub proof fn law_midi2_notes_carry_their_fields(nibble: u8, channel: u8, key: u8, velocity: u16)
    requires
        nibble < 16,
        channel < 16,
        key <= 127,
    ensures
        note2_words(nibble, channel, key, velocity).len() == 2,
        note2_words(nibble, channel, key, velocity)[0] == 0x4000_0000 + nibble * 0x10_0000
            + channel * 0x1_0000 + key * 0x100,
        note2_words(nibble, channel, key, velocity)[1] == velocity * 0x1_0000,
{
}

/// Channels of a MIDI 2.0 note wrap and keys clamp.
pub proof fn law_midi2_notes_stay_in_range(nibble: u8, channel: u8, key: u8, velocity: u16)
    requires
        nibble < 16,
    ensures
        channel >= 16 ==> note2_words(nibble, channel, key, velocity) == note2_words(
            nibble,
            (channel - 16) as u8,
            key,
            velocity,
        ),
        key > 127 ==> note2_words(nibble, channel, key, velocity) == note2_words(
            nibble,
            channel,
            127,
            velocity,
        ),
{
}

} // verus!
