//! Declarative audio-bus topology.
//!
//! A plugin declares its buses once; the declaration never changes while the
//! plugin is loaded. Hosts may switch an *optional* bus on and off, but no bus
//! is ever created or destroyed. The audio path fills a preallocated
//! [`TopologyScratch`] with the buffers of the current block and reads it
//! back through the views [`AudioInputs`] and [`AudioOutputs`].
use vstd::prelude::*;
use vstd::string::StringSliceAdditionalSpecFns;

verus! {

/// Most channels a single bus may carry.
pub const MAX_BUS_CHANNELS: usize = 8;

/// Most buses per direction.
pub const MAX_BUSES_PER_DIRECTION: usize = 4;

/// Stable identifier of a declared bus. Hosts key saved routings on it.
#[derive(Clone, Copy, PartialEq, Eq, Structural, Hash, Debug)]
pub struct BusId(pub u32);

/// One FNV-1a step over 32 bits.
pub open spec fn fnv32_step(hash: u32, byte: u8) -> u32 {
    ((hash ^ (byte as u32)) as int * 0x0100_0193 % 0x1_0000_0000) as u32
}

/// FNV-1a over 32 bits.
pub open spec fn fnv32(bytes: Seq<u8>) -> u32
    decreases bytes.len(),
{
    if bytes.len() == 0 {
        0x811c_9dc5
    } else {
        fnv32_step(fnv32(bytes.drop_last()), bytes.last())
    }
}

impl BusId {
    /// The id of a bus name: FNV-1a over its UTF-8 bytes.
    pub fn from_name(name: &str) -> (id: Self)
        ensures
            id.0 == fnv32(name.spec_bytes()),
    {
        let bytes = name.as_bytes();
        let mut hash: u32 = 0x811c_9dc5;
        let mut i: usize = 0;
        while i < bytes.len()
            invariant
                i <= bytes.len(),
                hash == fnv32(bytes@.take(i as int)),
            decreases bytes.len() - i,
        {
            proof {
                assert(bytes@.take(i + 1).drop_last() =~= bytes@.take(i as int));
            }
            hash = (hash ^ (bytes[i] as u32)).wrapping_mul(0x0100_0193);
            i += 1;
        }
        proof {
            assert(bytes@.take(i as int) =~= bytes@);
        }
        BusId(hash)
    }

    /// The id an input bus of that name has.
    pub fn input(name: &str) -> (id: Self)
        ensures
            id.0 == fnv32(name.spec_bytes()),
    {
        BusId::from_name(name)
    }
}

/// Which way a bus flows, from the plugin's point of view.
#[derive(Clone, Copy, PartialEq, Eq, Structural, Debug)]
pub enum BusDirection {
    /// Audio the host feeds the plugin.
    Input,
    /// Audio the plugin produces.
    Output,
}

/// Channel arrangement of a bus.
#[derive(Clone, Copy, PartialEq, Eq, Structural, Debug)]
pub enum ChannelLayout {
    /// One channel.
    Mono,
    /// Two channels, left and right.
    Stereo,
    /// Any number of unlabeled channels.
    Discrete(u8),
}

impl ChannelLayout {
    /// How many channels the layout has.
    pub open spec fn count(self) -> u8 {
        match self {
            ChannelLayout::Mono => 1,
            ChannelLayout::Stereo => 2,
            ChannelLayout::Discrete(n) => n,
        }
    }

    /// Channel count of this layout.
    pub fn channels(self) -> (n: u8)
        ensures
            n == self.count(),
    {
        match self {
            ChannelLayout::Mono => 1,
            ChannelLayout::Stereo => 2,
            ChannelLayout::Discrete(n) => n,
        }
    }
}

/// One declared audio bus.
#[derive(Clone, Copy, Debug)]
pub struct AudioBusSpec {
    /// Stable id.
    pub id: BusId,
    /// Display name ("Main", "Sidechain").
    pub name: &'static str,
    /// Input or output.
    pub direction: BusDirection,
    /// Channel arrangement.
    pub layout: ChannelLayout,
    /// Whether the host may leave the bus inactive. Only buses other than the
    /// main one may be optional.
    pub optional: bool,
}

impl AudioBusSpec {
    /// A required input bus whose id is hashed from `name`.
    pub fn input(name: &'static str, layout: ChannelLayout) -> (spec: Self)
        ensures
            spec == (AudioBusSpec {
                id: BusId(fnv32(name.spec_bytes())),
                name,
                direction: BusDirection::Input,
                layout,
                optional: false,
            }),
    {
        AudioBusSpec {
            id: BusId::from_name(name),
            name,
            direction: BusDirection::Input,
            layout,
            optional: false,
        }
    }

    /// A required output bus whose id is hashed from `name`.
    pub fn output(name: &'static str, layout: ChannelLayout) -> (spec: Self)
        ensures
            spec == (AudioBusSpec {
                id: BusId(fnv32(name.spec_bytes())),
                name,
                direction: BusDirection::Output,
                layout,
                optional: false,
            }),
    {
        AudioBusSpec {
            id: BusId::from_name(name),
            name,
            direction: BusDirection::Output,
            layout,
            optional: false,
        }
    }

    /// The same bus, marked optional.
    pub fn optional(self) -> (spec: Self)
        ensures
            spec == (AudioBusSpec { optional: true, ..self }),
    {
        AudioBusSpec { optional: true, ..self }
    }

    /// The same bus under an explicit id, to keep saved projects valid across
    /// a rename.
    pub fn with_id(self, id: u32) -> (spec: Self)
        ensures
            spec == (AudioBusSpec { id: BusId(id), ..self }),
    {
        AudioBusSpec { id: BusId(id), ..self }
    }
}

/// Why a topology declaration is invalid.
#[derive(Clone, Copy, PartialEq, Eq, Structural, Debug)]
pub enum BusError {
    /// Two buses in the same direction share an id.
    DuplicateId,
    /// The first bus of a direction, its main bus, is marked optional.
    MainIsOptional,
    /// More than [`MAX_BUSES_PER_DIRECTION`] buses in one direction.
    TooManyBuses,
    /// No channels, or more than [`MAX_BUS_CHANNELS`].
    BadChannelCount,
}

/// The buses of one direction, in declaration order.
pub open spec fn buses_of(specs: Seq<AudioBusSpec>, dir: BusDirection) -> Seq<AudioBusSpec> {
    specs.filter(|s: AudioBusSpec| s.direction == dir)
}

/// Whether a later bus carries the id of bus `i`.
pub open spec fn repeats_later(buses: Seq<AudioBusSpec>, i: int) -> bool {
    exists|j: int| i < j < buses.len() && (#[trigger] buses[j]).id == buses[i].id
}

/// What is wrong with bus `i` of one direction's buses.
pub open spec fn bus_fault(buses: Seq<AudioBusSpec>, i: int) -> Option<BusError> {
    if i == 0 && buses[i].optional {
        Some(BusError::MainIsOptional)
    } else if repeats_later(buses, i) {
        Some(BusError::DuplicateId)
    } else if buses[i].layout.count() == 0 || buses[i].layout.count() > MAX_BUS_CHANNELS {
        Some(BusError::BadChannelCount)
    } else {
        None
    }
}

/// The fault of the first faulty bus at or after `i`.
pub open spec fn first_bus_fault(buses: Seq<AudioBusSpec>, i: int) -> Option<BusError>
    decreases buses.len() - i,
{
    if i >= buses.len() {
        None
    } else if bus_fault(buses, i) is Some {
        bus_fault(buses, i)
    } else {
        first_bus_fault(buses, i + 1)
    }
}

/// What is wrong with the buses of one direction.
pub open spec fn direction_fault(buses: Seq<AudioBusSpec>) -> Option<BusError> {
    if first_bus_fault(buses, 0) is Some {
        first_bus_fault(buses, 0)
    } else if buses.len() > MAX_BUSES_PER_DIRECTION {
        Some(BusError::TooManyBuses)
    } else {
        None
    }
}

/// What is wrong with a declaration; inputs are judged before outputs.
pub open spec fn topology_fault(specs: Seq<AudioBusSpec>) -> Option<BusError> {
    if direction_fault(buses_of(specs, BusDirection::Input)) is Some {
        direction_fault(buses_of(specs, BusDirection::Input))
    } else {
        direction_fault(buses_of(specs, BusDirection::Output))
    }
}

/// The buses of one direction, in declaration order.
pub fn select_buses(specs: &[AudioBusSpec], dir: BusDirection) -> (out: Vec<AudioBusSpec>)
    ensures
        out@ == buses_of(specs@, dir),
{
    let mut out: Vec<AudioBusSpec> = Vec::new();
    let mut i: usize = 0;
    while i < specs.len()
        invariant
            i <= specs.len(),
            out@ == buses_of(specs@.take(i as int), dir),
        decreases specs.len() - i,
    {
        proof {
            reveal(Seq::filter);
            assert(specs@.take(i + 1).drop_last() =~= specs@.take(i as int));
        }
        if specs[i].direction == dir {
            out.push(specs[i]);
        }
        i += 1;
    }
    proof {
        assert(specs@.take(i as int) =~= specs@);
    }
    out
}

fn check_direction(buses: &Vec<AudioBusSpec>) -> (r: Result<(), BusError>)
    ensures
        r == (match direction_fault(buses@) {
            None => Ok::<(), BusError>(()),
            Some(e) => Err(e),
        }),
{
    let mut i: usize = 0;
    while i < buses.len()
        invariant
            i <= buses.len(),
            first_bus_fault(buses@, 0) == first_bus_fault(buses@, i as int),
        decreases buses.len() - i,
    {
        if i == 0 && buses[i].optional {
            return Err(BusError::MainIsOptional);
        }
        let mut j: usize = i + 1;
        while j < buses.len()
            invariant
                i < j <= buses.len(),
                i < buses.len(),
                first_bus_fault(buses@, 0) == first_bus_fault(buses@, i as int),
                !(i == 0 && buses@[0].optional),
                forall|k: int| i < k < j ==> (#[trigger] buses@[k]).id != buses@[i as int].id,
            decreases buses.len() - j,
        {
            if buses[j].id == buses[i].id {
                proof {
                    assert(repeats_later(buses@, i as int));
                }
                return Err(BusError::DuplicateId);
            }
            j += 1;
        }
        let n: u8 = buses[i].layout.channels();
        if n == 0 || n as usize > MAX_BUS_CHANNELS {
            return Err(BusError::BadChannelCount);
        }
        i += 1;
    }
    if buses.len() > MAX_BUSES_PER_DIRECTION {
        return Err(BusError::TooManyBuses);
    }
    Ok(())
}

/// Check a declaration.
pub fn validate_buses(specs: &[AudioBusSpec]) -> (r: Result<(), BusError>)
    ensures
        r == (match topology_fault(specs@) {
            None => Ok::<(), BusError>(()),
            Some(e) => Err(e),
        }),
{
    let inputs = select_buses(specs, BusDirection::Input);
    match check_direction(&inputs) {
        Err(e) => Err(e),
        Ok(()) => {
            let outputs = select_buses(specs, BusDirection::Output);
            check_direction(&outputs)
        },
    }
}

/// One direction's buses obey every rule: few enough, distinct ids, a main bus
/// that is always there, and a sound channel count on each.
pub open spec fn sound_direction(buses: Seq<AudioBusSpec>) -> bool {
    &&& buses.len() <= MAX_BUSES_PER_DIRECTION
    &&& buses.len() > 0 ==> !buses[0].optional
    &&& forall|i: int, j: int|
        0 <= i < j < buses.len() ==> (#[trigger] buses[i]).id != (#[trigger] buses[j]).id
    &&& forall|i: int|
        0 <= i < buses.len() ==> 1 <= (#[trigger] buses[i]).layout.count() <= MAX_BUS_CHANNELS
}

/// Both directions of a declaration obey every rule.
pub open spec fn sound_topology(specs: Seq<AudioBusSpec>) -> bool {
    &&& sound_direction(buses_of(specs, BusDirection::Input))
    &&& sound_direction(buses_of(specs, BusDirection::Output))
}

proof fn lemma_no_fault_from(buses: Seq<AudioBusSpec>, i: int)
    requires
        0 <= i <= buses.len(),
    ensures
        first_bus_fault(buses, i) is None <==> forall|k: int|
            i <= k < buses.len() ==> (#[trigger] bus_fault(buses, k)) is None,
    decreases buses.len() - i,
{
    if i < buses.len() {
        lemma_no_fault_from(buses, i + 1);
    }
}

proof fn lemma_direction_sound(buses: Seq<AudioBusSpec>)
    ensures
        direction_fault(buses) is None <==> sound_direction(buses),
{
    lemma_no_fault_from(buses, 0);
    if direction_fault(buses) is None {
        if buses.len() > 0 {
            assert(bus_fault(buses, 0) is None);
        }
        assert forall|i: int, j: int| 0 <= i < j < buses.len() implies (#[trigger] buses[i]).id
            != (#[trigger] buses[j]).id by {
            assert(bus_fault(buses, i) is None);
        }
        assert forall|i: int| 0 <= i < buses.len() implies 1
            <= (#[trigger] buses[i]).layout.count() <= MAX_BUS_CHANNELS by {
            assert(bus_fault(buses, i) is None);
        }
    }
    if sound_direction(buses) {
        assert forall|k: int| 0 <= k < buses.len() implies (#[trigger] bus_fault(
            buses,
            k,
        )) is None by {
            assert(1 <= buses[k].layout.count() <= MAX_BUS_CHANNELS);
        }
    }
}

/// A declaration is accepted exactly when, in each direction, there are at
/// most [`MAX_BUSES_PER_DIRECTION`] buses, their ids differ, the first is not
/// optional, and every bus has between one and [`MAX_BUS_CHANNELS`] channels.
pub proof fn law_accepted_topologies_are_the_sound_ones(specs: Seq<AudioBusSpec>)
    ensures
        topology_fault(specs) is None <==> sound_topology(specs),
{
    lemma_direction_sound(buses_of(specs, BusDirection::Input));
    lemma_direction_sound(buses_of(specs, BusDirection::Output));
}

/// Which rule a rejection names is never a coincidence: a duplicate-id
/// verdict comes with two buses of one direction that share an id, an
/// optional-main verdict with a direction whose first bus is optional, and so
/// on for the other two.
pub proof fn law_rejection_names_a_real_fault(specs: Seq<AudioBusSpec>, e: BusError)
    requires
        topology_fault(specs) == Some(e),
    ensures
        exists|dir: BusDirection| #[trigger] has_fault(buses_of(specs, dir), e),
{
    let inputs = buses_of(specs, BusDirection::Input);
    let outputs = buses_of(specs, BusDirection::Output);
    if direction_fault(inputs) is Some {
        lemma_fault_is_real(inputs, 0);
        assert(has_fault(buses_of(specs, BusDirection::Input), e));
    } else {
        lemma_fault_is_real(outputs, 0);
        assert(has_fault(buses_of(specs, BusDirection::Output), e));
    }
}

/// The buses of one direction break the rule that `e` names.
pub open spec fn has_fault(buses: Seq<AudioBusSpec>, e: BusError) -> bool {
    match e {
        BusError::MainIsOptional => buses.len() > 0 && buses[0].optional,
        BusError::DuplicateId => exists|i: int, j: int|
            0 <= i < j < buses.len() && (#[trigger] buses[i]).id == (#[trigger] buses[j]).id,
        BusError::BadChannelCount => exists|i: int|
            0 <= i < buses.len() && !(1 <= (#[trigger] buses[i]).layout.count()
                <= MAX_BUS_CHANNELS),
        BusError::TooManyBuses => buses.len() > MAX_BUSES_PER_DIRECTION,
    }
}

proof fn lemma_fault_is_real(buses: Seq<AudioBusSpec>, i: int)
    requires
        0 <= i,
    ensures
        first_bus_fault(buses, i) matches Some(e) ==> has_fault(buses, e),
    decreases buses.len() - i,
{
    if i < buses.len() {
        lemma_fault_is_real(buses, i + 1);
        if bus_fault(buses, i) == Some(BusError::DuplicateId) {
            let j = choose|j: int|
                i < j < buses.len() && (#[trigger] buses[j]).id == buses[i].id;
            assert(buses[i].id == buses[j].id);
        }
    }
}

/// The topology of an effect that declares nothing: one stereo main input and
/// one stereo main output.
pub fn default_effect_buses() -> (specs: Vec<AudioBusSpec>)
    ensures
        specs@.len() == 2,
        specs@[0] == (AudioBusSpec {
            id: BusId(fnv32("Main".spec_bytes())),
            name: "Main",
            direction: BusDirection::Input,
            layout: ChannelLayout::Stereo,
            optional: false,
        }),
        specs@[1] == (AudioBusSpec {
            id: BusId(fnv32("Main".spec_bytes())),
            name: "Main",
            direction: BusDirection::Output,
            layout: ChannelLayout::Stereo,
            optional: false,
        }),
        topology_fault(specs@) is None,
{
    let mut specs: Vec<AudioBusSpec> = Vec::new();
    specs.push(AudioBusSpec::input("Main", ChannelLayout::Stereo));
    specs.push(AudioBusSpec::output("Main", ChannelLayout::Stereo));
    proof {
        let s = specs@;
        reveal_with_fuel(Seq::filter, 3);
        assert(s.drop_last().drop_last() =~= Seq::empty());
        assert(s.drop_last().last() == s[0]);
        assert(buses_of(s, BusDirection::Input) =~= seq![s[0]]);
        assert(buses_of(s, BusDirection::Output) =~= seq![s[1]]);
        law_accepted_topologies_are_the_sound_ones(s);
    }
    specs
}

/// The topology of an instrument: no inputs, one stereo main output.
pub fn instrument_buses() -> (specs: Vec<AudioBusSpec>)
    ensures
        specs@.len() == 1,
        specs@[0] == (AudioBusSpec {
            id: BusId(fnv32("Main".spec_bytes())),
            name: "Main",
            direction: BusDirection::Output,
            layout: ChannelLayout::Stereo,
            optional: false,
        }),
        topology_fault(specs@) is None,
{
    let mut specs: Vec<AudioBusSpec> = Vec::new();
    specs.push(AudioBusSpec::output("Main", ChannelLayout::Stereo));
    proof {
        let s = specs@;
        reveal_with_fuel(Seq::filter, 2);
        assert(s.drop_last() =~= Seq::empty());
        assert(buses_of(s, BusDirection::Input) =~= Seq::empty());
        assert(buses_of(s, BusDirection::Output) =~= seq![s[0]]);
        law_accepted_topologies_are_the_sound_ones(s);
    }
    specs
}

/// A layout has as many channels as its name says.
pub proof fn law_layouts_count_their_channels(n: u8)
    ensures
        ChannelLayout::Mono.count() == 1,
        ChannelLayout::Stereo.count() == 2,
        ChannelLayout::Discrete(n).count() == n,
{
}

/// The buses of a direction are exactly those declared for it, in the order of
/// their declaration.
pub proof fn law_buses_keep_their_order(
    front: Seq<AudioBusSpec>,
    back: Seq<AudioBusSpec>,
    spec: AudioBusSpec,
    dir: BusDirection,
)
    ensures
        buses_of(Seq::empty(), dir) == Seq::<AudioBusSpec>::empty(),
        spec.direction == dir ==> buses_of(seq![spec], dir) == seq![spec],
        spec.direction != dir ==> buses_of(seq![spec], dir) == Seq::<AudioBusSpec>::empty(),
        buses_of(front + back, dir) == buses_of(front, dir) + buses_of(back, dir),
{
    reveal(Seq::filter);
    let here = |s: AudioBusSpec| s.direction == dir;
    assert(Seq::<AudioBusSpec>::empty().filter(here) =~= Seq::<AudioBusSpec>::empty());
    assert(seq![spec].drop_last() =~= Seq::<AudioBusSpec>::empty());
    assert(seq![spec].last() == spec);
    assert(Seq::<AudioBusSpec>::empty().push(spec) =~= seq![spec]);
    Seq::filter_distributes_over_add(front, back, here);
}

/// Of the faults of a direction, the one of the first faulty bus is named: an
/// optional main bus, before an id that comes again, before a number of
/// channels outside one to eight. Only where no bus is at fault are more than
/// four of them too many.
pub proof fn law_the_first_fault_is_named(buses: Seq<AudioBusSpec>, i: int)
    requires
        0 <= i <= buses.len(),
        forall|j: int|
            0 <= j < i ==> !(j == 0 && (#[trigger] buses[j]).optional) && (forall|k: int|
                j < k < buses.len() ==> (#[trigger] buses[k]).id != buses[j].id) && 1
                <= buses[j].layout.count() <= 8,
    ensures
        i < buses.len() && i == 0 && buses[i].optional ==> direction_fault(buses) == Some(
            BusError::MainIsOptional,
        ),
        i < buses.len() && !(i == 0 && buses[i].optional) && (exists|k: int|
            i < k < buses.len() && (#[trigger] buses[k]).id == buses[i].id) ==> direction_fault(
            buses,
        ) == Some(BusError::DuplicateId),
        i < buses.len() && !(i == 0 && buses[i].optional) && (forall|k: int|
            i < k < buses.len() ==> (#[trigger] buses[k]).id != buses[i].id) && !(1
            <= buses[i].layout.count() <= 8) ==> direction_fault(buses) == Some(
            BusError::BadChannelCount,
        ),
        i == buses.len() && buses.len() > 4 ==> direction_fault(buses) == Some(
            BusError::TooManyBuses,
        ),
        i == buses.len() && buses.len() <= 4 ==> direction_fault(buses) is None,
{
    lemma_no_fault_before(buses, 0, i);
    if i < buses.len() && (forall|k: int|
        i < k < buses.len() ==> (#[trigger] buses[k]).id != buses[i].id) {
        assert(!repeats_later(buses, i));
    }
}

proof fn lemma_no_fault_before(buses: Seq<AudioBusSpec>, from: int, i: int)
    requires
        0 <= from <= i <= buses.len(),
        forall|j: int|
            0 <= j < i ==> !(j == 0 && (#[trigger] buses[j]).optional) && (forall|k: int|
                j < k < buses.len() ==> (#[trigger] buses[k]).id != buses[j].id) && 1
                <= buses[j].layout.count() <= 8,
    ensures
        first_bus_fault(buses, from) == first_bus_fault(buses, i),
    decreases i - from,
{
    if from < i {
        assert(!(from == 0 && buses[from].optional));
        assert(!repeats_later(buses, from));
        lemma_no_fault_before(buses, from + 1, i);
    }
}

/// The faults of the inputs are named before those of the outputs.
pub proof fn law_inputs_are_judged_first(specs: Seq<AudioBusSpec>)
    ensures
        direction_fault(buses_of(specs, BusDirection::Input)) is Some ==> topology_fault(specs)
            == direction_fault(buses_of(specs, BusDirection::Input)),
        direction_fault(buses_of(specs, BusDirection::Input)) is None ==> topology_fault(specs)
            == direction_fault(buses_of(specs, BusDirection::Output)),
{
}

/// Hashing starts from 2166136261; each byte is folded into the low bits, and
/// the result is multiplied by 16777619 modulo the width.
pub proof fn law_hashing_folds_in_one_byte_at_a_time(bytes: Seq<u8>, byte: u8)
    ensures
        fnv32(Seq::empty()) == 2166136261,
        fnv32(bytes.push(byte)) == ((fnv32(bytes) ^ (byte as u32)) * 16777619) % 4294967296,
{
    assert(bytes.push(byte).drop_last() =~= bytes);
}

} // verus!
