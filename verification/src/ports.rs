//! What hosts are told about a plugin: its buses, arrangements and
//! parameters.
use vstd::prelude::*;
use vstd::string::*;

use crate::bus;
use crate::bus::{select_buses, AudioBusSpec, BusDirection, ChannelLayout};
use crate::hosttext;
use crate::hosttext::trim;
use crate::params;
use crate::params::{find_param, ParamDef};

verus! {

/// A declared bus as a host sees it.
#[derive(Clone, Copy, Debug)]
pub struct PortInfo {
    /// Stable id.
    pub id: u32,
    /// Display name.
    pub name: &'static str,
    /// Whether it is the main bus of its direction.
    pub main: bool,
    /// Its channel layout.
    pub layout: ChannelLayout,
    /// Whether the host may leave it out.
    pub optional: bool,
    /// The output whose buffers the host may share with this input.
    pub in_place_pair: Option<u32>,
}

/// What a host is told about bus `i` of a direction.
pub open spec fn port_info(specs: Seq<AudioBusSpec>, dir: BusDirection, i: int) -> PortInfo {
    let spec = bus::buses_of(specs, dir)[i];
    let outputs = bus::buses_of(specs, BusDirection::Output);
    PortInfo {
        id: spec.id.0,
        name: spec.name,
        main: i == 0,
        layout: spec.layout,
        optional: spec.optional,
        in_place_pair: if i == 0 && dir is Input && outputs.len() > 0 {
            Some(outputs[0].id.0)
        } else {
            None
        },
    }
}

/// How many buses are declared in a direction.
pub fn audio_port_count(specs: &[AudioBusSpec], dir: BusDirection) -> (r: usize)
    ensures
        r == bus::buses_of(specs@, dir).len(),
{
    select_buses(specs, dir).len()
}

/// A declared bus as a host sees it; `None` past the last one.
pub fn audio_port(specs: &[AudioBusSpec], dir: BusDirection, index: usize) -> (r: Option<PortInfo>)
    ensures
        r == (if index < bus::buses_of(specs@, dir).len() {
            Some(port_info(specs@, dir, index as int))
        } else {
            None
        }),
{
    let buses = select_buses(specs, dir);
    if index >= buses.len() {
        return None;
    }
    let spec: AudioBusSpec = buses[index];
    let pair: Option<u32> = match dir {
        BusDirection::Input => {
            let outputs = select_buses(specs, BusDirection::Output);
            if index == 0 && outputs.len() > 0 {
                Some(outputs[0].id.0)
            } else {
                None
            }
        },
        BusDirection::Output => None,
    };
    Some(
        PortInfo {
            id: spec.id.0,
            name: spec.name,
            main: index == 0,
            layout: spec.layout,
            optional: spec.optional,
            in_place_pair: pair,
        },
    )
}

/// What flows over a bus.
#[derive(Clone, Copy, PartialEq, Eq, Structural, Debug)]
pub enum Media {
    /// Audio.
    Audio,
    /// Note and controller events.
    Events,
}

/// A bus of either medium as a host sees it.
#[derive(Clone, Copy, Debug)]
pub struct MediaBus {
    /// Channels it has; 16 for events.
    pub channels: u8,
    /// Display name.
    pub name: &'static str,
    /// Main, as opposed to auxiliary.
    pub main: bool,
    /// Whether it starts out active.
    pub default_active: bool,
}

/// How many buses of a medium and direction there are. Only a plugin that
/// emits MIDI has an event bus, and only as an output.
pub fn bus_count(specs: &[AudioBusSpec], media: Media, dir: BusDirection, emits_midi: bool) -> (r:
    usize)
    ensures
        r == (match (media, dir) {
            (Media::Audio, _) => bus::buses_of(specs@, dir).len(),
            (Media::Events, BusDirection::Output) => if emits_midi {
                1nat
            } else {
                0
            },
            (Media::Events, BusDirection::Input) => 0,
        }),
{
    match (media, dir) {
        (Media::Audio, _) => audio_port_count(specs, dir),
        (Media::Events, BusDirection::Output) => if emits_midi {
            1
        } else {
            0
        },
        (Media::Events, BusDirection::Input) => 0,
    }
}

/// What a host is told about a bus.
pub open spec fn media_bus(
    specs: Seq<AudioBusSpec>,
    media: Media,
    dir: BusDirection,
    index: int,
    emits_midi: bool,
) -> Option<MediaBus> {
    match media {
        Media::Audio => if 0 <= index < bus::buses_of(specs, dir).len() {
            let spec = bus::buses_of(specs, dir)[index];
            Some(
                MediaBus {
                    channels: spec.layout.count(),
                    name: spec.name,
                    main: index == 0,
                    default_active: !spec.optional,
                },
            )
        } else {
            None
        },
        Media::Events => if index == 0 && emits_midi && dir is Output {
            Some(MediaBus { channels: 16, name: "MIDI Out", main: true, default_active: true })
        } else {
            None
        },
    }
}

/// What a host is told about a bus; `None` if there is no such bus.
pub fn bus_info(
    specs: &[AudioBusSpec],
    media: Media,
    dir: BusDirection,
    index: i32,
    emits_midi: bool,
) -> (r: Option<MediaBus>)
    ensures
        r == media_bus(specs@, media, dir, index as int, emits_midi),
{
    if index < 0 {
        return None;
    }
    match media {
        Media::Audio => {
            let buses = select_buses(specs, dir);
            if index as usize >= buses.len() {
                return None;
            }
            let spec: AudioBusSpec = buses[index as usize];
            Some(
                MediaBus {
                    channels: spec.layout.channels(),
                    name: spec.name,
                    main: index == 0,
                    default_active: !spec.optional,
                },
            )
        },
        Media::Events => if index == 0 && emits_midi && dir == BusDirection::Output {
            Some(MediaBus { channels: 16, name: "MIDI Out", main: true, default_active: true })
        } else {
            None
        },
    }
}

/// The arrangement of a bus that is left out.
pub const EMPTY_ARRANGEMENT: u64 = 0;

/// The speaker bits of a layout: one bit for mono, left and right for
/// stereo, the first `n` for anything else.
pub open spec fn arrangement(layout: ChannelLayout) -> u64 {
    match layout {
        ChannelLayout::Mono => 0x8_0000,
        ChannelLayout::Stereo => 3,
        ChannelLayout::Discrete(n) => (vstd::arithmetic::power2::pow2(n as nat) - 1) as u64,
    }
}

/// The speaker bits of a layout.
pub fn arrangement_of(layout: ChannelLayout) -> (r: u64)
    requires
        layout.count() < 64,
    ensures
        r == arrangement(layout),
{
    match layout {
        ChannelLayout::Mono => 0x8_0000,
        ChannelLayout::Stereo => 3,
        ChannelLayout::Discrete(n) => {
            proof {
                lemma_pow2_fits(n as nat);
                vstd::arithmetic::power2::lemma_pow2_pos(n as nat);
                vstd::bits::lemma_u64_shl_is_mul(1, n as u64);
            }
            (1u64 << (n as u64)) - 1
        },
    }
}

proof fn lemma_pow2_fits(n: nat)
    requires
        n < 64,
    ensures
        vstd::arithmetic::power2::pow2(n) <= u64::MAX,
{
    vstd::arithmetic::power2::lemma2_to64();
    vstd::arithmetic::power2::lemma2_to64_rest();
    if n < 63 {
        vstd::arithmetic::power2::lemma_pow2_strictly_increases(n, 63);
    }
}

/// Whether an offered arrangement suits a bus: its own, or the empty one if
/// it is optional.
pub open spec fn suits(spec: AudioBusSpec, offered: u64) -> bool {
    (offered == EMPTY_ARRANGEMENT && spec.optional) || offered == arrangement(spec.layout)
}

/// Whether offered arrangements suit all buses of a direction.
pub open spec fn all_suit(buses: Seq<AudioBusSpec>, offered: Seq<u64>) -> bool {
    offered.len() == buses.len() && forall|i: int|
        0 <= i < buses.len() ==> suits(#[trigger] buses[i], offered[i])
}

fn check_arrangements(buses: &Vec<AudioBusSpec>, offered: &[u64]) -> (r: bool)
    requires
        forall|i: int| 0 <= i < buses@.len() ==> (#[trigger] buses@[i]).layout.count() < 64,
    ensures
        r == all_suit(buses@, offered@),
{
    if offered.len() != buses.len() {
        return false;
    }
    let mut i: usize = 0;
    while i < buses.len()
        invariant
            i <= buses@.len() == offered@.len(),
            forall|k: int| 0 <= k < buses@.len() ==> (#[trigger] buses@[k]).layout.count() < 64,
            forall|k: int| 0 <= k < i ==> suits(#[trigger] buses@[k], offered@[k]),
        decreases buses.len() - i,
    {
        let spec: AudioBusSpec = buses[i];
        let arr: u64 = offered[i];
        if !((arr == EMPTY_ARRANGEMENT && spec.optional) || arr == arrangement_of(spec.layout)) {
            proof {
                assert(!suits(buses@[i as int], offered@[i as int]));
            }
            return false;
        }
        i += 1;
    }
    true
}

/// Whether every declared bus has few enough channels for an arrangement.
pub open spec fn arrangeable(specs: Seq<AudioBusSpec>) -> bool {
    forall|dir: BusDirection, i: int|
        0 <= i < bus::buses_of(specs, dir).len() ==> (#[trigger] bus::buses_of(
            specs,
            dir,
        )[i]).layout.count() < 64
}

/// Whether a host's offer matches the declaration: exactly the declared
/// number of buses, each with its own arrangement, or with the empty one if
/// it is optional.
pub fn set_bus_arrangements(specs: &[AudioBusSpec], inputs: &[u64], outputs: &[u64]) -> (r: bool)
    requires
        arrangeable(specs@),
    ensures
        r == (all_suit(bus::buses_of(specs@, BusDirection::Input), inputs@) && all_suit(
            bus::buses_of(specs@, BusDirection::Output),
            outputs@,
        )),
{
    let ins = select_buses(specs, BusDirection::Input);
    let outs = select_buses(specs, BusDirection::Output);
    check_arrangements(&ins, inputs) && check_arrangements(&outs, outputs)
}

/// The arrangement of a declared bus; `None` if there is no such bus.
pub fn get_bus_arrangement(specs: &[AudioBusSpec], dir: BusDirection, index: i32) -> (r: Option<
    u64,
>)
    requires
        arrangeable(specs@),
    ensures
        r == (if 0 <= index < bus::buses_of(specs@, dir).len() {
            Some(arrangement(bus::buses_of(specs@, dir)[index as int].layout))
        } else {
            None
        }),
{
    let buses = select_buses(specs, dir);
    if index < 0 || index as usize >= buses.len() {
        return None;
    }
    Some(arrangement_of(buses[index as usize].layout))
}

/// The id that hosts reserve for "no parameter".
pub const INVALID_PARAM_ID: u32 = u32::MAX;

/// A parameter as a host sees it.
#[derive(Clone, Copy, Debug)]
pub struct ParamInfo {
    /// The declaration.
    pub def: ParamDef,
    /// Whether it has discrete steps.
    pub stepped: bool,
    /// How many steps there are above the lowest.
    pub step_count: usize,
}

/// What a parameter is described as.
pub open spec fn described(def: ParamDef) -> ParamInfo {
    ParamInfo {
        def,
        stepped: def.choices@.len() > 0,
        step_count: if def.choices@.len() > 0 {
            (def.choices@.len() - 1) as usize
        } else {
            0
        },
    }
}

/// Describe a parameter.
pub fn describe_param(def: &ParamDef) -> (r: ParamInfo)
    ensures
        r == described(*def),
{
    let n: usize = def.choices.len();
    ParamInfo {
        def: *def,
        stepped: n > 0,
        step_count: if n > 0 {
            n - 1
        } else {
            0
        },
    }
}

/// What a host that reserves an id is told about the parameter with this
/// index. One that has the reserved id is not published.
pub fn param_info(defs: &[ParamDef], index: usize) -> (r: Option<ParamInfo>)
    ensures
        r == (if index < defs@.len() && defs@[index as int].id != INVALID_PARAM_ID {
            Some(described(defs@[index as int]))
        } else {
            None
        }),
{
    if index >= defs.len() || defs[index].id == INVALID_PARAM_ID {
        return None;
    }
    Some(describe_param(&defs[index]))
}

/// The label of a parameter's choice; `None` if the parameter or the choice
/// does not exist.
pub fn choice_label(defs: &[ParamDef], id: u32, choice: usize) -> (r: Option<&'static str>)
    ensures
        r == (match params::param_index(defs@, id) {
            Some(i) => if choice < defs@[i].choices@.len() {
                Some(defs@[i].choices@[choice as int])
            } else {
                None
            },
            None => None,
        }),
{
    match find_param(defs, id) {
        Some(i) => {
            let choices = defs[i].choices;
            if choice < choices.len() {
                Some(choices[choice])
            } else {
                None
            }
        },
        None => None,
    }
}

/// The first choice whose label is this text.
pub open spec fn choice_with_label(choices: Seq<&'static str>, text: Seq<char>, from: int) -> Option<
    int,
>
    decreases choices.len() - from,
{
    if from >= choices.len() {
        None
    } else if choices[from]@ == text {
        Some(from)
    } else {
        choice_with_label(choices, text, from + 1)
    }
}

/// What a text a user typed means.
#[derive(Debug)]
pub enum TypedValue {
    /// The label of a choice.
    Choice(usize),
    /// Anything else, to be read as a number.
    Number(String),
}

/// Read a text a user typed for a parameter: a choice's own label names that
/// choice, anything else is to be read as a number. White space around it
/// does not count.
pub fn typed_value(def: &ParamDef, typed: &str) -> (r: TypedValue)
    ensures
        match r {
            TypedValue::Choice(i) => choice_with_label(
                def.choices@,
                hosttext::trimmed(typed@),
                0,
            ) == Some(i as int),
            TypedValue::Number(s) => s@ == hosttext::trimmed(typed@) && choice_with_label(
                def.choices@,
                hosttext::trimmed(typed@),
                0,
            ) is None,
        },
{
    let word = trim(typed);
    let choices = def.choices;
    let mut i: usize = 0;
    while i < choices.len()
        invariant
            choices@ == def.choices@,
            word@ == hosttext::trimmed(typed@),
            i <= choices@.len(),
            choice_with_label(def.choices@, word@, 0) == choice_with_label(
                def.choices@,
                word@,
                i as int,
            ),
        decreases choices.len() - i,
    {
        if word == String::from_str(choices[i]) {
            return TypedValue::Choice(i);
        }
        i += 1;
    }
    TypedValue::Number(word)
}

/// The text of a value that rounds to `index`: the choice's label if there is
/// one, the number's own text otherwise.
pub fn value_text(def: &ParamDef, index: i64, number: &str) -> (r: String)
    ensures
        r@ == (if 0 <= index < def.choices@.len() {
            def.choices@[index as int]@
        } else {
            number@
        }),
{
    match def.label(index) {
        Some(label) => String::from_str(label),
        None => String::from_str(number),
    }
}

/// Labels as users see them lead back to their own choice.
pub proof fn law_labels_lead_back(choices: Seq<&'static str>, i: int, from: int)
    requires
        0 <= from <= i < choices.len(),
        forall|j: int| 0 <= j < i ==> (#[trigger] choices[j])@ != choices[i]@,
    ensures
        choice_with_label(choices, choices[i]@, from) == Some(i),
    decreases i - from,
{
    if from < i {
        assert(choices[from]@ != choices[i]@);
        law_labels_lead_back(choices, i, from + 1);
    }
}

/// The declared arrangements are always accepted, and so are they with an
/// optional bus left out; a bus that is not optional cannot be left out.
pub proof fn law_the_declared_arrangement_is_accepted(buses: Seq<AudioBusSpec>, out: int)
    requires
        0 <= out < buses.len(),
    ensures
        ({
            let own = Seq::new(buses.len(), |i: int| arrangement(buses[i].layout));
            &&& all_suit(buses, own)
            &&& buses[out].optional ==> all_suit(buses, own.update(out, EMPTY_ARRANGEMENT))
            &&& all_suit(buses, own.update(out, EMPTY_ARRANGEMENT)) && arrangement(
                buses[out].layout,
            ) != EMPTY_ARRANGEMENT ==> buses[out].optional
        }),
{
    let own = Seq::new(buses.len(), |i: int| arrangement(buses[i].layout));
    let without = own.update(out, EMPTY_ARRANGEMENT);
    if all_suit(buses, without) {
        assert(suits(buses[out], without[out]));
    }
}

/// Every sound declaration has arrangements.
pub proof fn law_sound_topologies_have_arrangements(specs: Seq<AudioBusSpec>)
    requires
        bus::sound_topology(specs),
    ensures
        arrangeable(specs),
{
    assert forall|dir: BusDirection, i: int|
        0 <= i < bus::buses_of(specs, dir).len() implies (#[trigger] bus::buses_of(
        specs,
        dir,
    )[i]).layout.count() < 64 by {
        assert(bus::sound_direction(bus::buses_of(specs, dir))) by {
            match dir {
                BusDirection::Input => {},
                BusDirection::Output => {},
            }
        }
    }
}

/// How long an edge of a rectangle is.
pub fn extent(low: i32, high: i32) -> (r: u32)
    ensures
        r == (if high > low {
            high - low
        } else {
            0
        }),
{
    if high > low {
        (high as i64 - low as i64) as u32
    } else {
        0
    }
}

/// What a host can ask a plugin for.
#[derive(Clone, Copy, PartialEq, Eq, Structural, Debug)]
pub enum Extension {
    /// Audio buses.
    AudioPorts,
    /// Parameters.
    Params,
    /// Saving and restoring.
    State,
    /// Latency.
    Latency,
    /// Note output.
    NotePorts,
    /// An editor.
    Gui,
}

/// Whether a plugin offers an extension. Note ports need a plugin that emits
/// MIDI, an editor needs a page and a platform that can show it.
pub fn offers(extension: Extension, emits_midi: bool, has_page: bool, can_show: bool) -> (r: bool)
    ensures
        r == (match extension {
            Extension::NotePorts => emits_midi,
            Extension::Gui => has_page && can_show,
            _ => true,
        }),
{
    match extension {
        Extension::NotePorts => emits_midi,
        Extension::Gui => has_page && can_show,
        _ => true,
    }
}

/// A port shows its declared bus as it is; the first of a direction is the main
/// one, and the main input, and no other port, names the main output to work in
/// place with, if there is an output at all.
pub proof fn law_ports_show_their_buses(specs: Seq<AudioBusSpec>, dir: BusDirection, i: int)
    requires
        0 <= i < bus::buses_of(specs, dir).len(),
    ensures
        port_info(specs, dir, i).id == bus::buses_of(specs, dir)[i].id.0,
        port_info(specs, dir, i).name == bus::buses_of(specs, dir)[i].name,
        port_info(specs, dir, i).layout == bus::buses_of(specs, dir)[i].layout,
        port_info(specs, dir, i).optional == bus::buses_of(specs, dir)[i].optional,
        port_info(specs, dir, i).main <==> i == 0,
        i > 0 || dir is Output || bus::buses_of(specs, BusDirection::Output).len() == 0
            ==> port_info(specs, dir, i).in_place_pair is None,
        i == 0 && dir is Input && bus::buses_of(specs, BusDirection::Output).len() > 0
            ==> port_info(specs, dir, i).in_place_pair == Some(
            bus::buses_of(specs, BusDirection::Output)[0].id.0,
        ),
{
}

/// A media bus shows its declared bus: its number of channels, its name, that
/// it is the main one exactly if it is the first, and that it starts active
/// exactly if it is not optional. There is one event bus, an output of sixteen
/// channels, exactly if the plugin emits MIDI.
pub proof fn law_media_buses_show_their_buses(
    specs: Seq<AudioBusSpec>,
    dir: BusDirection,
    i: int,
    emits_midi: bool,
)
    ensures
        media_bus(specs, Media::Audio, dir, i, emits_midi) is Some <==> 0 <= i < bus::buses_of(
            specs,
            dir,
        ).len(),
        media_bus(specs, Media::Audio, dir, i, emits_midi) matches Some(b) ==> b.channels
            == bus::buses_of(specs, dir)[i].layout.count() && b.name == bus::buses_of(
            specs,
            dir,
        )[i].name && (b.main <==> i == 0) && (b.default_active <==> !bus::buses_of(
            specs,
            dir,
        )[i].optional),
        media_bus(specs, Media::Events, dir, i, emits_midi) is Some <==> i == 0 && emits_midi
            && dir is Output,
        media_bus(specs, Media::Events, dir, i, emits_midi) matches Some(b) ==> b.channels == 16
            && b.name == "MIDI Out" && b.main && b.default_active,
{
}

/// An arrangement has one bit for each channel of a discrete layout, from the
/// lowest on: each channel more doubles it and adds one. Stereo is the two
/// lowest bits, and mono is bit nineteen.
pub proof fn law_arrangements_have_a_bit_per_channel(n: u8)
    requires
        n < 63,
    ensures
        arrangement(ChannelLayout::Mono) == 524288,
        arrangement(ChannelLayout::Stereo) == 3,
        arrangement(ChannelLayout::Discrete(0)) == 0,
        arrangement(ChannelLayout::Discrete((n + 1) as u8)) == 2 * arrangement(
            ChannelLayout::Discrete(n),
        ) + 1,
{
    lemma_pow2_fits(n as nat);
    lemma_pow2_fits((n + 1) as nat);
    vstd::arithmetic::power2::lemma2_to64();
    vstd::arithmetic::power2::lemma_pow2_unfold((n + 1) as nat);
    vstd::arithmetic::power2::lemma_pow2_pos(n as nat);
}

/// Arrangements are accepted exactly if there is one for each bus and each is
/// the bus's own or, on an optional bus, the empty one.
pub proof fn law_which_arrangements_are_accepted(buses: Seq<AudioBusSpec>, offered: Seq<u64>)
    ensures
        all_suit(buses, offered) <==> offered.len() == buses.len() && (forall|i: int|
            0 <= i < buses.len() ==> offered[i] == arrangement((#[trigger] buses[i]).layout) || (
            offered[i] == 0 && buses[i].optional)),
{
    assert forall|i: int| 0 <= i < buses.len() implies suits(#[trigger] buses[i], offered[i]) == (
    offered[i] == arrangement(buses[i].layout) || (offered[i] == 0 && buses[i].optional)) by {}
    if offered.len() == buses.len() && (forall|i: int|
        0 <= i < buses.len() ==> offered[i] == arrangement((#[trigger] buses[i]).layout) || (
        offered[i] == 0 && buses[i].optional)) {
        assert forall|i: int| 0 <= i < buses.len() implies suits(
            #[trigger] buses[i],
            offered[i],
        ) by {}
    }
}

/// A parameter is described as it is declared; one with choices is stepped,
/// with one step fewer than choices.
pub proof fn law_parameters_are_described_as_declared(def: ParamDef)
    ensures
        described(def).def == def,
        described(def).stepped <==> def.choices@.len() > 0,
        def.choices@.len() == 0 ==> described(def).step_count == 0,
        0 < def.choices@.len() <= usize::MAX ==> described(def).step_count + 1
            == def.choices@.len(),
{
}

/// Typed text stands for the first choice with that label; text that is no
/// choice's label stands for none.
pub proof fn law_labels_are_looked_up(choices: Seq<&'static str>, typed: Seq<char>, from: int)
    requires
        0 <= from <= choices.len(),
    ensures
        match choice_with_label(choices, typed, from) {
            Some(i) => from <= i < choices.len() && choices[i]@ == typed && (forall|j: int|
                from <= j < i ==> (#[trigger] choices[j])@ != typed),
            None => forall|j: int| from <= j < choices.len() ==> (#[trigger] choices[j])@ != typed,
        },
    decreases choices.len() - from,
{
    if from < choices.len() && choices[from]@ != typed {
        law_labels_are_looked_up(choices, typed, from + 1);
    }
}

} // verus!
