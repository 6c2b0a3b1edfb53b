//! Per-block bus scaffolding: which buses the host connected, where their
//! channel buffers are, and the views a processor reads them through.
//!
//! A buffer is named by a handle `B` that the caller chooses (a pointer, an
//! index, a borrowed slice). Nothing here allocates once a
//! [`TopologyScratch`] exists.
use vstd::prelude::*;
use vstd::slice::slice_subrange;
use vstd::array::array_as_slice;

use crate::bus;
use crate::bus::{
    select_buses, validate_buses, AudioBusSpec, BusDirection, BusId, ChannelLayout, MAX_BUS_CHANNELS,
};

verus! {

/// One channel's buffer for the current block: a handle and a length in
/// frames. A channel the host left out has no handle and no frames.
#[derive(Clone, Copy, PartialEq, Eq, Debug)]
pub struct Channel<B> {
    /// The host buffer, if there is one.
    pub buf: Option<B>,
    /// Frames in the buffer.
    pub len: usize,
}

impl<B> Channel<B> {
    /// The channel without a buffer.
    pub open spec fn absent() -> Self {
        Channel { buf: None, len: 0 }
    }
}

/// What one bus holds in the current block.
pub ghost struct BusLoad<B> {
    /// Whether the host has the bus connected.
    pub active: bool,
    /// Its channels, from the first to the last one that has a buffer.
    pub channels: Seq<Channel<B>>,
}

impl<B> BusLoad<B> {
    /// A bus nothing was connected to.
    pub open spec fn idle() -> Self {
        BusLoad { active: false, channels: Seq::empty() }
    }

    /// The same bus with channel `c` replaced; channels skipped over are
    /// absent.
    pub open spec fn with_channel(self, c: int, channel: Channel<B>) -> Self {
        BusLoad {
            active: self.active,
            channels: Seq::new(
                if self.channels.len() > c + 1 {
                    self.channels.len()
                } else {
                    (c + 1) as nat
                },
                |k: int|
                    if k == c {
                        channel
                    } else if k < self.channels.len() {
                        self.channels[k]
                    } else {
                        Channel::absent()
                    },
            ),
        }
    }
}

/// What a view of one bus shows.
pub ghost struct BusView<B> {
    /// The declaration.
    pub spec: AudioBusSpec,
    /// Whether the host has the bus connected.
    pub active: bool,
    /// The channels present.
    pub channels: Seq<Channel<B>>,
}

/// How many channels a view shows: none of an inactive bus, never more than
/// the declared layout has.
pub open spec fn shown_channels<B>(spec: AudioBusSpec, load: BusLoad<B>) -> int {
    if !load.active {
        0
    } else if load.channels.len() > spec.layout.count() {
        spec.layout.count() as int
    } else {
        load.channels.len() as int
    }
}

/// The view of a declared bus under a load.
pub open spec fn bus_view<B>(spec: AudioBusSpec, load: BusLoad<B>) -> BusView<B> {
    BusView {
        spec,
        active: load.active,
        channels: load.channels.take(shown_channels(spec, load)),
    }
}

/// An inactive bus shows no channels, and no bus shows more channels than it
/// was declared with.
pub proof fn law_views_stay_within_the_declaration<B>(spec: AudioBusSpec, load: BusLoad<B>)
    ensures
        !load.active ==> bus_view(spec, load).channels.len() == 0,
        bus_view(spec, load).channels.len() <= spec.layout.count(),
{
}

/// Filling a channel that the declaration has, on an active bus, shows that
/// very buffer at that very place and leaves every other shown channel alone.
pub proof fn law_views_reflect_what_was_filled<B>(
    spec: AudioBusSpec,
    load: BusLoad<B>,
    c: int,
    channel: Channel<B>,
)
    requires
        load.active,
        0 <= c < spec.layout.count(),
    ensures
        c < bus_view(spec, load.with_channel(c, channel)).channels.len(),
        bus_view(spec, load.with_channel(c, channel)).channels[c] == channel,
        forall|k: int|
            0 <= k < bus_view(spec, load).channels.len() && k != c ==> #[trigger] bus_view(
                spec,
                load.with_channel(c, channel),
            ).channels[k] == bus_view(spec, load).channels[k],
{
}

/// Read-only view of one input bus for the current block.
#[derive(Clone, Copy, Debug)]
pub struct InputBus<B> {
    spec: AudioBusSpec,
    active: bool,
    channels: [Channel<B>; 8],
    n_channels: usize,
}

impl<B> View for InputBus<B> {
    type V = BusView<B>;

    closed spec fn view(&self) -> BusView<B> {
        BusView {
            spec: self.spec,
            active: self.active,
            channels: self.channels@.take(self.n_channels as int),
        }
    }
}

impl<B: Copy> InputBus<B> {
    /// The view points at no more channels than there is room for.
    pub closed spec fn wf(&self) -> bool {
        self.n_channels <= 8
    }

    /// The declaration this view comes from.
    pub fn spec(&self) -> (r: AudioBusSpec)
        ensures
            r == self@.spec,
    {
        self.spec
    }

    /// Stable id of this bus.
    pub fn id(&self) -> (r: BusId)
        ensures
            r == self@.spec.id,
    {
        self.spec.id
    }

    /// Whether the host has this bus connected this block.
    pub fn active(&self) -> (r: bool)
        ensures
            r == self@.active,
    {
        self.active
    }

    /// Declared channel layout.
    pub fn layout(&self) -> (r: ChannelLayout)
        ensures
            r == self@.spec.layout,
    {
        self.spec.layout
    }

    /// The channels present this block; none when the bus is inactive.
    pub fn channels(&self) -> (r: &[Channel<B>])
        requires
            self.wf(),
        ensures
            r@ == self@.channels,
    {
        slice_subrange(array_as_slice(&self.channels), 0, self.n_channels)
    }

    /// Channel `i`, if present.
    pub fn channel(&self, i: usize) -> (r: Option<Channel<B>>)
        requires
            self.wf(),
        ensures
            r == (if i < self@.channels.len() {
                Some(self@.channels[i as int])
            } else {
                None
            }),
    {
        if i < self.n_channels {
            Some(self.channels[i])
        } else {
            None
        }
    }
}

/// View of one output bus for the current block. Its handles are the ones to
/// write through.
#[derive(Clone, Copy, Debug)]
pub struct OutputBus<B> {
    spec: AudioBusSpec,
    active: bool,
    channels: [Channel<B>; 8],
    n_channels: usize,
}

impl<B> View for OutputBus<B> {
    type V = BusView<B>;

    closed spec fn view(&self) -> BusView<B> {
        BusView {
            spec: self.spec,
            active: self.active,
            channels: self.channels@.take(self.n_channels as int),
        }
    }
}

impl<B: Copy> OutputBus<B> {
    /// The view points at no more channels than there is room for.
    pub closed spec fn wf(&self) -> bool {
        self.n_channels <= 8
    }

    /// The declaration this view comes from.
    pub fn spec(&self) -> (r: AudioBusSpec)
        ensures
            r == self@.spec,
    {
        self.spec
    }

    /// Stable id of this bus.
    pub fn id(&self) -> (r: BusId)
        ensures
            r == self@.spec.id,
    {
        self.spec.id
    }

    /// Whether the host has this bus connected this block.
    pub fn active(&self) -> (r: bool)
        ensures
            r == self@.active,
    {
        self.active
    }

    /// Declared channel layout.
    pub fn layout(&self) -> (r: ChannelLayout)
        ensures
            r == self@.spec.layout,
    {
        self.spec.layout
    }

    /// The channels present this block.
    pub fn channels(&self) -> (r: &[Channel<B>])
        requires
            self.wf(),
        ensures
            r@ == self@.channels,
    {
        slice_subrange(array_as_slice(&self.channels), 0, self.n_channels)
    }

    /// Channel `i`, if present.
    pub fn channel_mut(&self, i: usize) -> (r: Option<Channel<B>>)
        requires
            self.wf(),
        ensures
            r == (if i < self@.channels.len() {
                Some(self@.channels[i as int])
            } else {
                None
            }),
    {
        if i < self.n_channels {
            Some(self.channels[i])
        } else {
            None
        }
    }

    /// Frames in this block: those of the first channel, none when there is
    /// no channel.
    pub fn frames(&self) -> (r: usize)
        requires
            self.wf(),
        ensures
            r == (if self@.channels.len() > 0 {
                self@.channels[0].len
            } else {
                0
            }),
    {
        if self.n_channels > 0 {
            self.channels[0].len
        } else {
            0
        }
    }
}

/// The position of the first view whose declaration has this id.
pub open spec fn first_with_id<B>(views: Seq<BusView<B>>, id: BusId) -> Option<int>
    decreases views.len(),
{
    if views.len() == 0 {
        None
    } else if first_with_id(views.drop_last(), id) is Some {
        first_with_id(views.drop_last(), id)
    } else if views.last().spec.id == id {
        Some(views.len() - 1)
    } else {
        None
    }
}

/// All input buses for one block, in declaration order.
#[derive(Clone, Copy, Debug)]
pub struct AudioInputs<B> {
    buses: [InputBus<B>; 4],
    len: usize,
}

impl<B> View for AudioInputs<B> {
    type V = Seq<BusView<B>>;

    closed spec fn view(&self) -> Seq<BusView<B>> {
        Seq::new(self.len as nat, |i: int| self.buses[i]@)
    }
}

impl<B: Copy> AudioInputs<B> {
    /// No more buses than there is room for, each well formed.
    pub closed spec fn wf(&self) -> bool {
        &&& self.len <= 4
        &&& forall|i: int| 0 <= i < self.len ==> (#[trigger] self.buses[i]).wf()
    }

    /// Number of declared input buses, active or not.
    pub fn len(&self) -> (r: usize)
        ensures
            r == self@.len(),
    {
        self.len
    }

    /// Whether no input buses are declared.
    pub fn is_empty(&self) -> (r: bool)
        ensures
            r == (self@.len() == 0),
    {
        self.len == 0
    }

    /// Bus by declaration index.
    pub fn at(&self, index: usize) -> (r: Option<&InputBus<B>>)
        requires
            self.wf(),
        ensures
            match r {
                Some(bus) => index < self@.len() && bus.wf() && bus@ == self@[index as int],
                None => index >= self@.len(),
            },
    {
        if index < self.len {
            Some(&self.buses[index])
        } else {
            None
        }
    }

    /// The main input bus, the first declared.
    pub fn main(&self) -> (r: Option<&InputBus<B>>)
        requires
            self.wf(),
        ensures
            match r {
                Some(bus) => self@.len() > 0 && bus.wf() && bus@ == self@[0],
                None => self@.len() == 0,
            },
    {
        self.at(0)
    }

    /// Bus by stable id.
    pub fn get(&self, id: BusId) -> (r: Option<&InputBus<B>>)
        requires
            self.wf(),
        ensures
            match r {
                Some(bus) => first_with_id(self@, id) matches Some(i) && bus.wf() && bus@
                    == self@[i],
                None => first_with_id(self@, id) is None,
            },
    {
        let mut i: usize = 0;
        while i < self.len
            invariant
                self.wf(),
                i <= self.len,
                first_with_id(self@.take(i as int), id) is None,
            decreases self.len - i,
        {
            proof {
                assert(self@.take(i + 1).drop_last() =~= self@.take(i as int));
                assert(self@.take(i + 1).last() == self.buses[i as int]@);
            }
            if self.buses[i].spec.id == id {
                proof {
                    lemma_first_with_id_in_prefix(self@, id, i + 1);
                }
                return Some(&self.buses[i]);
            }
            i += 1;
        }
        proof {
            assert(self@.take(i as int) =~= self@);
        }
        None
    }
}

proof fn lemma_first_with_id_in_prefix<B>(views: Seq<BusView<B>>, id: BusId, n: int)
    requires
        0 <= n <= views.len(),
        first_with_id(views.take(n), id) is Some,
    ensures
        first_with_id(views, id) == first_with_id(views.take(n), id),
    decreases views.len(),
{
    if n < views.len() {
        assert(views.drop_last().take(n) =~= views.take(n));
        lemma_first_with_id_in_prefix(views.drop_last(), id, n);
    } else {
        assert(views.take(n) =~= views);
    }
}

/// All output buses for one block, in declaration order.
#[derive(Clone, Copy, Debug)]
pub struct AudioOutputs<B> {
    buses: [OutputBus<B>; 4],
    len: usize,
}

impl<B> View for AudioOutputs<B> {
    type V = Seq<BusView<B>>;

    closed spec fn view(&self) -> Seq<BusView<B>> {
        Seq::new(self.len as nat, |i: int| self.buses[i]@)
    }
}

impl<B: Copy> AudioOutputs<B> {
    /// No more buses than there is room for, each well formed.
    pub closed spec fn wf(&self) -> bool {
        &&& self.len <= 4
        &&& forall|i: int| 0 <= i < self.len ==> (#[trigger] self.buses[i]).wf()
    }

    /// Number of declared output buses.
    pub fn len(&self) -> (r: usize)
        ensures
            r == self@.len(),
    {
        self.len
    }

    /// Whether no output buses are declared.
    pub fn is_empty(&self) -> (r: bool)
        ensures
            r == (self@.len() == 0),
    {
        self.len == 0
    }

    /// Bus by declaration index.
    pub fn at(&self, index: usize) -> (r: Option<&OutputBus<B>>)
        requires
            self.wf(),
        ensures
            match r {
                Some(bus) => index < self@.len() && bus.wf() && bus@ == self@[index as int],
                None => index >= self@.len(),
            },
    {
        if index < self.len {
            Some(&self.buses[index])
        } else {
            None
        }
    }

    /// The main output bus, the first declared.
    pub fn main(&self) -> (r: Option<&OutputBus<B>>)
        requires
            self.wf(),
        ensures
            match r {
                Some(bus) => self@.len() > 0 && bus.wf() && bus@ == self@[0],
                None => self@.len() == 0,
            },
    {
        self.at(0)
    }

    /// Bus by stable id.
    pub fn get(&self, id: BusId) -> (r: Option<&OutputBus<B>>)
        requires
            self.wf(),
        ensures
            match r {
                Some(bus) => first_with_id(self@, id) matches Some(i) && bus.wf() && bus@
                    == self@[i],
                None => first_with_id(self@, id) is None,
            },
    {
        let mut i: usize = 0;
        while i < self.len
            invariant
                self.wf(),
                i <= self.len,
                first_with_id(self@.take(i as int), id) is None,
            decreases self.len - i,
        {
            proof {
                assert(self@.take(i + 1).drop_last() =~= self@.take(i as int));
                assert(self@.take(i + 1).last() == self.buses[i as int]@);
            }
            if self.buses[i].spec.id == id {
                proof {
                    lemma_first_with_id_in_prefix(self@, id, i + 1);
                }
                return Some(&self.buses[i]);
            }
            i += 1;
        }
        proof {
            assert(self@.take(i as int) =~= self@);
        }
        None
    }
}

#[derive(Clone, Copy, Debug)]
struct BusScratch<B> {
    active: bool,
    channels: [Channel<B>; 8],
    n_channels: usize,
}

impl<B: Copy> BusScratch<B> {
    spec fn load(&self) -> BusLoad<B> {
        BusLoad { active: self.active, channels: self.channels@.take(self.n_channels as int) }
    }

    spec fn wf(&self) -> bool {
        &&& self.n_channels <= 8
        &&& forall|c: int|
            self.n_channels <= c < 8 ==> (#[trigger] self.channels[c]) == Channel::<B>::absent()
    }

    fn new() -> (r: Self)
        ensures
            r.wf(),
            r.load() == BusLoad::<B>::idle(),
    {
        let empty: Channel<B> = Channel { buf: None, len: 0 };
        let r = BusScratch { active: false, channels: [empty; 8], n_channels: 0 };
        proof {
            assert(r.load().channels =~= Seq::empty());
        }
        r
    }
}

/// Audio-thread bus scaffolding: one slot per declared bus, allocated once.
#[derive(Debug)]
pub struct TopologyScratch<B> {
    specs: Vec<AudioBusSpec>,
    input_specs: Vec<AudioBusSpec>,
    output_specs: Vec<AudioBusSpec>,
    inputs: Vec<BusScratch<B>>,
    outputs: Vec<BusScratch<B>>,
}

fn idle_slots<B: Copy>(n: usize) -> (slots: Vec<BusScratch<B>>)
    ensures
        slots@.len() == n,
        forall|i: int|
            0 <= i < n ==> (#[trigger] slots@[i]).wf() && slots@[i].load() == BusLoad::<B>::idle(),
{
    let mut slots: Vec<BusScratch<B>> = Vec::with_capacity(n);
    let mut i: usize = 0;
    while i < n
        invariant
            i <= n,
            slots@.len() == i,
            forall|k: int|
                0 <= k < i ==> (#[trigger] slots@[k]).wf() && slots@[k].load() == BusLoad::<
                    B,
                >::idle(),
        decreases n - i,
    {
        slots.push(BusScratch::new());
        i += 1;
    }
    slots
}

impl<B: Copy> TopologyScratch<B> {
    /// The declaration the scratch was sized from; empty if it was invalid.
    pub closed spec fn declared(&self) -> Seq<AudioBusSpec> {
        self.specs@
    }

    /// What the buses of one direction hold.
    pub closed spec fn loads(&self, dir: BusDirection) -> Seq<BusLoad<B>> {
        match dir {
            BusDirection::Input => Seq::new(self.inputs@.len(), |i: int| self.inputs@[i].load()),
            BusDirection::Output => Seq::new(self.outputs@.len(), |i: int| self.outputs@[i].load()),
        }
    }

    closed spec fn slots_wf(slots: Seq<BusScratch<B>>) -> bool {
        forall|i: int| 0 <= i < slots.len() ==> (#[trigger] slots[i]).wf()
    }

    /// The declaration is sound and there is one slot per declared bus.
    pub closed spec fn wf(&self) -> bool {
        &&& bus::topology_fault(self.specs@) is None
        &&& self.input_specs@ == bus::buses_of(self.specs@, BusDirection::Input)
        &&& self.output_specs@ == bus::buses_of(self.specs@, BusDirection::Output)
        &&& self.inputs@.len() == self.input_specs@.len()
        &&& self.outputs@.len() == self.output_specs@.len()
        &&& Self::slots_wf(self.inputs@)
        &&& Self::slots_wf(self.outputs@)
    }

    /// The declaration obeys every rule.
    pub proof fn lemma_sound(&self)
        requires
            self.wf(),
        ensures
            bus::sound_topology(self.declared()),
            forall|dir: BusDirection| #[trigger]
                self.loads(dir).len() == bus::buses_of(self.declared(), dir).len(),
            forall|dir: BusDirection| (#[trigger] self.loads(dir)).len() <= 4,
    {
        bus::law_accepted_topologies_are_the_sound_ones(self.specs@);
    }

    /// Size the scratch from a declaration. An invalid declaration yields an
    /// empty scratch.
    pub fn new(specs: &[AudioBusSpec]) -> (r: Self)
        ensures
            r.wf(),
            r.declared() == (if bus::topology_fault(specs@) is None {
                specs@
            } else {
                Seq::empty()
            }),
            forall|dir: BusDirection| #[trigger]
                r.loads(dir) == Seq::new(
                    bus::buses_of(r.declared(), dir).len(),
                    |i: int| BusLoad::<B>::idle(),
                ),
    {
        let mut kept: Vec<AudioBusSpec> = Vec::new();
        if validate_buses(specs).is_ok() {
            let mut i: usize = 0;
            while i < specs.len()
                invariant
                    i <= specs.len(),
                    kept@ == specs@.take(i as int),
                decreases specs.len() - i,
            {
                kept.push(specs[i]);
                i += 1;
            }
            proof {
                assert(specs@.take(i as int) =~= specs@);
            }
        }
        let input_specs = select_buses(kept.as_slice(), BusDirection::Input);
        let output_specs = select_buses(kept.as_slice(), BusDirection::Output);
        let inputs = idle_slots::<B>(input_specs.len());
        let outputs = idle_slots::<B>(output_specs.len());
        proof {
            if bus::topology_fault(specs@) is Some {
                reveal(Seq::filter);
                assert(kept@ =~= Seq::empty());
                assert(bus::buses_of(kept@, BusDirection::Input) =~= Seq::empty());
                assert(bus::buses_of(kept@, BusDirection::Output) =~= Seq::empty());
                bus::law_accepted_topologies_are_the_sound_ones(kept@);
            }
        }
        let r = TopologyScratch { specs: kept, input_specs, output_specs, inputs, outputs };
        proof {
            assert forall|dir: BusDirection| #[trigger]
                r.loads(dir) == Seq::new(
                    bus::buses_of(r.declared(), dir).len(),
                    |i: int| BusLoad::<B>::idle(),
                ) by {
                assert(r.loads(dir) =~= Seq::new(
                    bus::buses_of(r.declared(), dir).len(),
                    |i: int| BusLoad::<B>::idle(),
                ));
            }
        }
        r
    }

    /// The validated declaration.
    pub fn specs(&self) -> (r: &[AudioBusSpec])
        ensures
            r@ == self.declared(),
    {
        self.specs.as_slice()
    }

    /// The declaration of one bus, by direction and index.
    pub fn spec_at(&self, dir: BusDirection, index: usize) -> (r: Option<AudioBusSpec>)
        requires
            self.wf(),
        ensures
            r == (if index < bus::buses_of(self.declared(), dir).len() {
                Some(bus::buses_of(self.declared(), dir)[index as int])
            } else {
                None
            }),
    {
        let specs = match dir {
            BusDirection::Input => &self.input_specs,
            BusDirection::Output => &self.output_specs,
        };
        if index < specs.len() {
            Some(specs[index])
        } else {
            None
        }
    }

    /// Number of declared buses in a direction.
    pub fn bus_count(&self, dir: BusDirection) -> (r: usize)
        requires
            self.wf(),
        ensures
            r == bus::buses_of(self.declared(), dir).len(),
            r == self.loads(dir).len(),
    {
        match dir {
            BusDirection::Input => self.inputs.len(),
            BusDirection::Output => self.outputs.len(),
        }
    }

    /// Mark every bus inactive with no channels.
    pub fn clear(&mut self)
        requires
            old(self).wf(),
        ensures
            final(self).wf(),
            final(self).declared() == old(self).declared(),
            forall|dir: BusDirection| #[trigger]
                final(self).loads(dir) == Seq::new(
                    old(self).loads(dir).len(),
                    |i: int| BusLoad::<B>::idle(),
                ),
    {
        let mut i: usize = 0;
        while i < self.inputs.len()
            invariant
                self.wf(),
                self.specs@ == old(self).specs@,
                self.inputs@.len() == old(self).inputs@.len(),
                self.outputs@ == old(self).outputs@,
                i <= self.inputs@.len(),
                forall|k: int|
                    0 <= k < i ==> (#[trigger] self.inputs@[k]).load() == BusLoad::<B>::idle(),
            decreases self.inputs.len() - i,
        {
            self.inputs[i] = BusScratch::new();
            i += 1;
        }
        let mut j: usize = 0;
        while j < self.outputs.len()
            invariant
                self.wf(),
                self.specs@ == old(self).specs@,
                self.inputs@.len() == old(self).inputs@.len(),
                self.outputs@.len() == old(self).outputs@.len(),
                forall|k: int|
                    0 <= k < self.inputs@.len() ==> (#[trigger] self.inputs@[k]).load()
                        == BusLoad::<B>::idle(),
                j <= self.outputs@.len(),
                forall|k: int|
                    0 <= k < j ==> (#[trigger] self.outputs@[k]).load() == BusLoad::<B>::idle(),
            decreases self.outputs.len() - j,
        {
            self.outputs[j] = BusScratch::new();
            j += 1;
        }
        proof {
            assert forall|dir: BusDirection| #[trigger]
                self.loads(dir) == Seq::new(
                    old(self).loads(dir).len(),
                    |i: int| BusLoad::<B>::idle(),
                ) by {
                assert(self.loads(dir) =~= Seq::new(
                    old(self).loads(dir).len(),
                    |i: int| BusLoad::<B>::idle(),
                ));
            }
        }
    }

    /// Mark a bus active or inactive for this block. A bus that was not
    /// declared is ignored.
    pub fn set_active(&mut self, dir: BusDirection, bus: usize, active: bool)
        requires
            old(self).wf(),
        ensures
            final(self).wf(),
            final(self).declared() == old(self).declared(),
            forall|d: BusDirection|
                d != dir ==> #[trigger] final(self).loads(d) == old(self).loads(d),
            final(self).loads(dir) == (if bus < old(self).loads(dir).len() {
                old(self).loads(dir).update(
                    bus as int,
                    (BusLoad { active, ..old(self).loads(dir)[bus as int] }),
                )
            } else {
                old(self).loads(dir)
            }),
    {
        match dir {
            BusDirection::Input => {
                if bus < self.inputs.len() {
                    let mut slot = self.inputs[bus];
                    slot.active = active;
                    self.inputs[bus] = slot;
                    proof {
                        assert(self.loads(dir) =~= old(self).loads(dir).update(
                            bus as int,
                            (BusLoad { active, ..old(self).loads(dir)[bus as int] }),
                        ));
                    }
                }
            },
            BusDirection::Output => {
                if bus < self.outputs.len() {
                    let mut slot = self.outputs[bus];
                    slot.active = active;
                    self.outputs[bus] = slot;
                    proof {
                        assert(self.loads(dir) =~= old(self).loads(dir).update(
                            bus as int,
                            (BusLoad { active, ..old(self).loads(dir)[bus as int] }),
                        ));
                    }
                }
            },
        }
    }

    /// Point one channel of a bus at a host buffer for this block. A missing
    /// buffer, a bus that was not declared and a channel past
    /// [`MAX_BUS_CHANNELS`] are ignored.
    pub fn set_channel(
        &mut self,
        dir: BusDirection,
        bus: usize,
        channel: usize,
        buf: Option<B>,
        len: usize,
    )
        requires
            old(self).wf(),
        ensures
            final(self).wf(),
            final(self).declared() == old(self).declared(),
            forall|d: BusDirection|
                d != dir ==> #[trigger] final(self).loads(d) == old(self).loads(d),
            final(self).loads(dir) == (if bus < old(self).loads(dir).len() && channel
                < MAX_BUS_CHANNELS && buf is Some {
                old(self).loads(dir).update(
                    bus as int,
                    old(self).loads(dir)[bus as int].with_channel(
                        channel as int,
                        Channel { buf, len },
                    ),
                )
            } else {
                old(self).loads(dir)
            }),
    {
        if channel >= MAX_BUS_CHANNELS || buf.is_none() {
            return;
        }
        match dir {
            BusDirection::Input => {
                if bus < self.inputs.len() {
                    let slot = point_channel(self.inputs[bus], channel, buf, len);
                    self.inputs[bus] = slot;
                    proof {
                        assert(self.loads(dir) =~= old(self).loads(dir).update(
                            bus as int,
                            old(self).loads(dir)[bus as int].with_channel(
                                channel as int,
                                Channel { buf, len },
                            ),
                        ));
                    }
                }
            },
            BusDirection::Output => {
                if bus < self.outputs.len() {
                    let slot = point_channel(self.outputs[bus], channel, buf, len);
                    self.outputs[bus] = slot;
                    proof {
                        assert(self.loads(dir) =~= old(self).loads(dir).update(
                            bus as int,
                            old(self).loads(dir)[bus as int].with_channel(
                                channel as int,
                                Channel { buf, len },
                            ),
                        ));
                    }
                }
            },
        }
    }

    /// This block's views over the scratch: one per declared bus, in
    /// declaration order.
    pub fn views(&self) -> (r: (AudioInputs<B>, AudioOutputs<B>))
        requires
            self.wf(),
        ensures
            r.0.wf(),
            r.1.wf(),
            r.0@ == Seq::new(
                self.loads(BusDirection::Input).len(),
                |i: int|
                    bus_view(
                        bus::buses_of(self.declared(), BusDirection::Input)[i],
                        self.loads(BusDirection::Input)[i],
                    ),
            ),
            r.1@ == Seq::new(
                self.loads(BusDirection::Output).len(),
                |i: int|
                    bus_view(
                        bus::buses_of(self.declared(), BusDirection::Output)[i],
                        self.loads(BusDirection::Output)[i],
                    ),
            ),
    {
        proof {
            bus::law_accepted_topologies_are_the_sound_ones(self.specs@);
        }
        let absent: Channel<B> = Channel { buf: None, len: 0 };
        let blank = AudioBusSpec {
            id: BusId(0),
            name: "",
            direction: BusDirection::Input,
            layout: ChannelLayout::Mono,
            optional: false,
        };
        let no_input: InputBus<B> = InputBus {
            spec: blank,
            active: false,
            channels: [absent; 8],
            n_channels: 0,
        };
        let no_output: OutputBus<B> = OutputBus {
            spec: blank,
            active: false,
            channels: [absent; 8],
            n_channels: 0,
        };
        let mut inputs: AudioInputs<B> = AudioInputs { buses: [no_input; 4], len: 0 };
        let mut outputs: AudioOutputs<B> = AudioOutputs { buses: [no_output; 4], len: 0 };
        let mut i: usize = 0;
        while i < self.inputs.len()
            invariant
                self.wf(),
                self.inputs@.len() <= 4,
                i <= self.inputs@.len(),
                inputs.wf(),
                inputs.len == i,
                forall|k: int|
                    0 <= k < i ==> (#[trigger] inputs.buses[k])@ == bus_view(
                        self.input_specs@[k],
                        self.inputs@[k].load(),
                    ),
            decreases self.inputs.len() - i,
        {
            let slot = &self.inputs[i];
            let declared: usize = self.input_specs[i].layout.channels() as usize;
            let view: InputBus<B> = InputBus {
                spec: self.input_specs[i],
                active: slot.active,
                channels: slot.channels,
                n_channels: if !slot.active {
                    0
                } else if slot.n_channels > declared {
                    declared
                } else {
                    slot.n_channels
                },
            };
            proof {
                assert(view@.channels =~= bus_view(
                    self.input_specs@[i as int],
                    self.inputs@[i as int].load(),
                ).channels);
            }
            inputs.buses[i] = view;
            inputs.len = i + 1;
            i += 1;
        }
        let mut j: usize = 0;
        while j < self.outputs.len()
            invariant
                self.wf(),
                self.outputs@.len() <= 4,
                j <= self.outputs@.len(),
                outputs.wf(),
                outputs.len == j,
                forall|k: int|
                    0 <= k < j ==> (#[trigger] outputs.buses[k])@ == bus_view(
                        self.output_specs@[k],
                        self.outputs@[k].load(),
                    ),
            decreases self.outputs.len() - j,
        {
            let slot = &self.outputs[j];
            let declared: usize = self.output_specs[j].layout.channels() as usize;
            let view: OutputBus<B> = OutputBus {
                spec: self.output_specs[j],
                active: slot.active,
                channels: slot.channels,
                n_channels: if !slot.active {
                    0
                } else if slot.n_channels > declared {
                    declared
                } else {
                    slot.n_channels
                },
            };
            proof {
                assert(view@.channels =~= bus_view(
                    self.output_specs@[j as int],
                    self.outputs@[j as int].load(),
                ).channels);
            }
            outputs.buses[j] = view;
            outputs.len = j + 1;
            j += 1;
        }
        proof {
            assert(inputs@ =~= Seq::new(
                self.loads(BusDirection::Input).len(),
                |i: int|
                    bus_view(
                        bus::buses_of(self.declared(), BusDirection::Input)[i],
                        self.loads(BusDirection::Input)[i],
                    ),
            ));
            assert(outputs@ =~= Seq::new(
                self.loads(BusDirection::Output).len(),
                |i: int|
                    bus_view(
                        bus::buses_of(self.declared(), BusDirection::Output)[i],
                        self.loads(BusDirection::Output)[i],
                    ),
            ));
        }
        (inputs, outputs)
    }
}

fn point_channel<B: Copy>(
    slot: BusScratch<B>,
    channel: usize,
    buf: Option<B>,
    len: usize,
) -> (r: BusScratch<B>)
    requires
        slot.wf(),
        channel < 8,
    ensures
        r.wf(),
        r.load() == slot.load().with_channel(channel as int, Channel { buf, len }),
{
    let mut r = slot;
    r.channels[channel] = Channel { buf, len };
    if r.n_channels < channel + 1 {
        r.n_channels = channel + 1;
    }
    proof {
        assert(r.load().channels =~= slot.load().with_channel(
            channel as int,
            Channel { buf, len },
        ).channels);
    }
    r
}

/// A connected bus shows its channels from the first on, as many as are filled
/// but no more than are declared, each as it was filled; one that is not
/// connected shows none. The declaration is shown as it is.
pub proof fn law_views_show_the_filled_channels<B>(spec: AudioBusSpec, load: BusLoad<B>, c: int)
    ensures
        bus_view(spec, load).spec == spec,
        bus_view(spec, load).active == load.active,
        !load.active ==> bus_view(spec, load).channels.len() == 0,
        load.active && load.channels.len() <= spec.layout.count() ==> bus_view(
            spec,
            load,
        ).channels.len() == load.channels.len(),
        load.active && load.channels.len() > spec.layout.count() ==> bus_view(
            spec,
            load,
        ).channels.len() == spec.layout.count(),
        0 <= c < bus_view(spec, load).channels.len() ==> bus_view(spec, load).channels[c]
            == load.channels[c],
{
}

/// Filling a channel puts it exactly there, leaves every other channel as it
/// was, and fills the gap before it, if there is one, with channels that have
/// no buffer.
pub proof fn law_filling_concerns_one_channel<B>(
    load: BusLoad<B>,
    c: int,
    channel: Channel<B>,
    k: int,
)
    requires
        0 <= c,
    ensures
        ({
            let after = load.with_channel(c, channel);
            &&& after.active == load.active
            &&& after.channels.len() >= load.channels.len() && after.channels.len() > c
            &&& after.channels.len() == load.channels.len() || after.channels.len() == c + 1
            &&& after.channels[c] == channel
            &&& 0 <= k < load.channels.len() && k != c ==> after.channels[k] == load.channels[k]
            &&& load.channels.len() <= k < c ==> after.channels[k].buf is None
                && after.channels[k].len == 0
        }),
{
}

/// A bus is found by its id where it comes first, and only an id that no bus
/// has is not found.
pub proof fn law_buses_are_found_by_id<B>(views: Seq<BusView<B>>, id: BusId, i: int)
    ensures
        0 <= i < views.len() && views[i].spec.id == id && (forall|j: int|
            0 <= j < i ==> (#[trigger] views[j]).spec.id != id) ==> first_with_id(views, id) == Some(
            i,
        ),
        first_with_id(views, id) is None <==> (forall|j: int|
            0 <= j < views.len() ==> (#[trigger] views[j]).spec.id != id),
    decreases views.len(),
{
    if views.len() > 0 {
        let rest = views.drop_last();
        let n = rest.len() as int;
        assert(views[n] == views.last());
        assert forall|j: int| 0 <= j < n implies #[trigger] views[j] == rest[j] by {}
        if i < n {
            law_buses_are_found_by_id(rest, id, i);
            if 0 <= i && (forall|j: int| 0 <= j < i ==> (#[trigger] views[j]).spec.id != id) {
                assert forall|j: int| 0 <= j < i implies (#[trigger] rest[j]).spec.id != id by {
                    assert(views[j] == rest[j]);
                }
            }
        } else {
            law_buses_are_found_by_id(rest, id, 0);
            if i == n && (forall|j: int| 0 <= j < i ==> (#[trigger] views[j]).spec.id != id) {
                assert forall|j: int| 0 <= j < n implies (#[trigger] rest[j]).spec.id != id by {
                    assert(views[j] == rest[j]);
                }
            }
        }
        if first_with_id(rest, id) is Some {
            let j = choose|j: int| 0 <= j < rest.len() && (#[trigger] rest[j]).spec.id == id;
            assert(views[j].spec.id == id);
        } else {
            assert forall|j: int| 0 <= j < n implies (#[trigger] views[j]).spec.id != id by {
                assert(views[j] == rest[j]);
            }
        }
    }
}

/// A bus that nothing was connected to is not active and has no channels, and
/// a channel that is not there has no buffer and no frames.
pub proof fn law_idle_buses_hold_nothing<B>()
    ensures
        !BusLoad::<B>::idle().active,
        BusLoad::<B>::idle().channels.len() == 0,
        Channel::<B>::absent().buf is None,
        Channel::<B>::absent().len == 0,
{
}

} // verus!
