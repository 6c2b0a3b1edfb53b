//! Wiring a host's buffers to the declared buses.
//!
//! A host buffer is named by a number: its address, or its index in a table.
//! The main input is heard through the main output's buffers, because the
//! main input is copied there first and processed in place.
use vstd::prelude::*;

use crate::bus;
use crate::bus::{AudioBusSpec, BusDirection};
use crate::scratch::{BusLoad, Channel, TopologyScratch};

verus! {

/// A stretch of a host buffer, from frame `start` on.
#[derive(Clone, Copy, PartialEq, Eq, Structural, Debug)]
pub struct Span {
    /// The buffer.
    pub buf: usize,
    /// The first frame.
    pub start: usize,
}

/// What the host offers for one bus.
#[derive(Clone, Copy, Debug)]
pub struct HostBus {
    /// Whether the host connected the bus at all.
    pub connected: bool,
    /// The buffer of each channel; hosts may leave some out.
    pub channels: [Option<usize>; 8],
    /// How many channels the host says there are.
    pub count: usize,
}

/// How many channels, of at most `limit`, come before the first one left out.
pub open spec fn unbroken(channels: Seq<Option<usize>>, limit: int) -> int
    decreases limit,
{
    if limit <= 0 {
        0
    } else if unbroken(channels, limit - 1) == limit - 1 && channels[limit - 1] is Some {
        limit
    } else {
        unbroken(channels, limit - 1)
    }
}

/// The smaller of two numbers.
pub open spec fn least(a: int, b: int) -> int {
    if a < b {
        a
    } else {
        b
    }
}

impl HostBus {
    /// How many channels count: no more than the host offers, the layout
    /// declares, or there is room for.
    pub open spec fn width(self, declared: u8) -> int {
        least(least(self.count as int, declared as int), 8)
    }

    /// How many channels are usable.
    pub open spec fn usable(self, declared: u8) -> int {
        unbroken(self.channels@, self.width(declared))
    }

    /// A bus the host did not connect.
    pub fn none() -> (r: Self)
        ensures
            !r.connected,
            r.count == 0,
            forall|c: int| 0 <= c < 8 ==> (#[trigger] r.channels@[c]) is None,
    {
        HostBus { connected: false, channels: [None, None, None, None, None, None, None, None], count: 0 }
    }

    fn width_of(&self, declared: u8) -> (r: usize)
        ensures
            r == self.width(declared),
            r <= 8,
    {
        let mut n: usize = self.count;
        if n > declared as usize {
            n = declared as usize;
        }
        if n > 8 {
            n = 8;
        }
        n
    }
}

/// What a bus holds once it is wired to a host bus.
pub open spec fn wired(host: HostBus, declared: u8, start: usize, len: usize) -> BusLoad<Span> {
    BusLoad {
        active: true,
        channels: Seq::new(
            host.usable(declared) as nat,
            |c: int| Channel { buf: Some(Span { buf: host.channels@[c]->0, start }), len },
        ),
    }
}

/// Which buses the host switched on, by direction and declaration index.
#[derive(Clone, Copy, Debug)]
pub struct BusActivation {
    inputs: [bool; 4],
    outputs: [bool; 4],
}

impl BusActivation {
    /// Whether the host switched a bus on.
    pub closed spec fn on(self, dir: BusDirection, index: int) -> bool {
        match dir {
            BusDirection::Input => 0 <= index < 4 && self.inputs@[index],
            BusDirection::Output => 0 <= index < 4 && self.outputs@[index],
        }
    }

    /// Whether a bus is active: one that is not optional always is.
    pub open spec fn active(self, dir: BusDirection, index: int, spec: AudioBusSpec) -> bool {
        !spec.optional || self.on(dir, index)
    }

    /// Nothing is switched on, or everything.
    pub fn new(all: bool) -> (r: Self)
        ensures
            forall|dir: BusDirection, index: int|
                0 <= index < 4 ==> #[trigger] r.on(dir, index) == all,
    {
        BusActivation { inputs: [all, all, all, all], outputs: [all, all, all, all] }
    }

    /// Whether a bus is active.
    pub fn bus_is_active(&self, dir: BusDirection, index: usize, spec: &AudioBusSpec) -> (r: bool)
        ensures
            r == self.active(dir, index as int, *spec),
    {
        if !spec.optional {
            return true;
        }
        if index >= 4 {
            return false;
        }
        match dir {
            BusDirection::Input => self.inputs[index],
            BusDirection::Output => self.outputs[index],
        }
    }

    /// Record what the host wants of a declared bus. `false` means that there
    /// is no such bus. A negative index asks for nothing and is accepted.
    pub fn activate_bus(
        &mut self,
        scratch: &TopologyScratch<Span>,
        dir: BusDirection,
        index: i32,
        state: bool,
    ) -> (r: bool)
        requires
            scratch.wf(),
        ensures
            r == (index < bus::buses_of(scratch.declared(), dir).len()),
            forall|d: BusDirection, i: int|
                #![trigger final(self).on(d, i)]
                final(self).on(d, i) == (if r && d == dir && 0 <= i == index {
                    state
                } else {
                    old(self).on(d, i)
                }),
    {
        if index < 0 {
            return true;
        }
        if index as usize >= scratch.bus_count(dir) {
            return false;
        }
        proof {
            scratch.lemma_sound();
        }
        match dir {
            BusDirection::Input => {
                self.inputs[index as usize] = state;
            },
            BusDirection::Output => {
                self.outputs[index as usize] = state;
            },
        }
        true
    }
}

/// The buses of one direction as the host offers them.
pub open spec fn offered(hosts: Seq<HostBus>, i: int) -> bool {
    0 <= i < hosts.len() && hosts[i].connected
}

/// What declared bus `i` holds when it is wired straight to the host.
pub open spec fn direct_load(
    specs: Seq<AudioBusSpec>,
    hosts: Seq<HostBus>,
    activation: BusActivation,
    dir: BusDirection,
    i: int,
    start: usize,
    len: usize,
) -> BusLoad<Span> {
    if offered(hosts, i) && activation.active(dir, i, specs[i]) {
        wired(hosts[i], specs[i].layout.count(), start, len)
    } else {
        BusLoad::idle()
    }
}

/// What the main input holds: the main output's channels, if it has any.
pub open spec fn main_input_load(main_output: BusLoad<Span>) -> BusLoad<Span> {
    if main_output.channels.len() > 0 {
        BusLoad { active: true, channels: main_output.channels }
    } else {
        BusLoad::idle()
    }
}

/// What the output buses hold in a segment.
pub open spec fn output_loads(
    specs: Seq<AudioBusSpec>,
    activation: BusActivation,
    outputs: Seq<HostBus>,
    start: usize,
    len: usize,
) -> Seq<BusLoad<Span>> {
    Seq::new(
        specs.len(),
        |i: int| direct_load(specs, outputs, activation, BusDirection::Output, i, start, len),
    )
}

/// What the input buses hold in a segment whose outputs hold `outs`.
pub open spec fn input_loads(
    specs: Seq<AudioBusSpec>,
    activation: BusActivation,
    inputs: Seq<HostBus>,
    outs: Seq<BusLoad<Span>>,
    start: usize,
    len: usize,
) -> Seq<BusLoad<Span>> {
    Seq::new(
        specs.len(),
        |i: int|
            if i == 0 {
                if outs.len() > 0 {
                    main_input_load(outs[0])
                } else {
                    BusLoad::idle()
                }
            } else {
                direct_load(specs, inputs, activation, BusDirection::Input, i, start, len)
            },
    )
}

proof fn lemma_unbroken(channels: Seq<Option<usize>>, limit: int)
    requires
        0 <= limit,
    ensures
        0 <= unbroken(channels, limit) <= limit,
        forall|c: int| 0 <= c < unbroken(channels, limit) ==> (#[trigger] channels[c]) is Some,
        unbroken(channels, limit) < limit ==> channels[unbroken(channels, limit)] is None,
    decreases limit,
{
    if limit > 0 {
        lemma_unbroken(channels, limit - 1);
    }
}

/// The usable channels are those before the first one left out.
pub proof fn lemma_unbroken_is(channels: Seq<Option<usize>>, limit: int, n: int)
    requires
        0 <= n <= limit,
        forall|c: int| 0 <= c < n ==> (#[trigger] channels[c]) is Some,
        n < limit ==> channels[n] is None,
    ensures
        unbroken(channels, limit) == n,
{
    lemma_unbroken(channels, limit);
    let m = unbroken(channels, limit);
    if m < n {
        assert(channels[m] is Some);
    }
    if n < m {
        assert(channels[n] is Some);
    }
}

pub(crate) fn wire_bus(
    scratch: &mut TopologyScratch<Span>,
    dir: BusDirection,
    index: usize,
    host: &HostBus,
    declared: u8,
    start: usize,
    len: usize,
) -> (n: usize)
    requires
        old(scratch).wf(),
        index < old(scratch).loads(dir).len(),
        old(scratch).loads(dir)[index as int] == BusLoad::<Span>::idle(),
    ensures
        final(scratch).wf(),
        final(scratch).declared() == old(scratch).declared(),
        forall|d: BusDirection| d != dir ==> #[trigger] final(scratch).loads(d) == old(
            scratch,
        ).loads(d),
        final(scratch).loads(dir) == old(scratch).loads(dir).update(
            index as int,
            wired(*host, declared, start, len),
        ),
        n == host.usable(declared),
        n <= 8,
{
    let width: usize = host.width_of(declared);
    scratch.set_active(dir, index, true);
    let mut c: usize = 0;
    let ghost before = old(scratch).loads(dir);
    proof {
        assert(before[index as int].channels =~= Seq::<Channel<Span>>::empty());
        assert(scratch.loads(dir)[index as int].channels =~= Seq::new(
            0,
            |k: int| Channel { buf: Some(Span { buf: host.channels@[k]->0, start }), len },
        ));
    }
    while c < width && host.channels[c].is_some()
        invariant
            scratch.wf(),
            scratch.declared() == old(scratch).declared(),
            forall|d: BusDirection| d != dir ==> #[trigger] scratch.loads(d) == old(
                scratch,
            ).loads(d),
            before == old(scratch).loads(dir),
            index < before.len(),
            width == host.width(declared),
            width <= 8,
            c <= width,
            forall|k: int| 0 <= k < c ==> (#[trigger] host.channels@[k]) is Some,
            scratch.loads(dir) == before.update(
                index as int,
                BusLoad {
                    active: true,
                    channels: Seq::new(
                        c as nat,
                        |k: int|
                            Channel { buf: Some(Span { buf: host.channels@[k]->0, start }), len },
                    ),
                },
            ),
        decreases width - c,
    {
        let ghost prior = scratch.loads(dir)[index as int];
        match host.channels[c] {
            Some(buf) => {
                scratch.set_channel(dir, index, c, Some(Span { buf, start }), len);
                proof {
                    let channel = Channel { buf: Some(Span { buf, start }), len };
                    assert(prior.with_channel(c as int, channel).channels =~= Seq::new(
                        (c + 1) as nat,
                        |k: int|
                            Channel { buf: Some(Span { buf: host.channels@[k]->0, start }), len },
                    ));
                    assert(scratch.loads(dir) =~= before.update(
                        index as int,
                        prior.with_channel(c as int, channel),
                    ));
                }
            },
            None => {},
        }
        c += 1;
    }
    proof {
        lemma_unbroken_is(host.channels@, width as int, c as int);
        assert(scratch.loads(dir) =~= before.update(
            index as int,
            wired(*host, declared, start, len),
        ));
    }
    c
}

/// Wire one segment of a block: `len` frames from frame `start` on. Every
/// declared output that the host connected and that is active points at the
/// host's buffers; the main input points at the main output's; every further
/// input that the host connected and that is active points at its own.
pub fn wire_segment(
    scratch: &mut TopologyScratch<Span>,
    activation: &BusActivation,
    inputs: &[HostBus],
    outputs: &[HostBus],
    start: usize,
    len: usize,
)
    requires
        old(scratch).wf(),
    ensures
        final(scratch).wf(),
        final(scratch).declared() == old(scratch).declared(),
        final(scratch).loads(BusDirection::Output) == output_loads(
            bus::buses_of(old(scratch).declared(), BusDirection::Output),
            *activation,
            outputs@,
            start,
            len,
        ),
        final(scratch).loads(BusDirection::Input) == input_loads(
            bus::buses_of(old(scratch).declared(), BusDirection::Input),
            *activation,
            inputs@,
            final(scratch).loads(BusDirection::Output),
            start,
            len,
        ),
{
    scratch.clear();
    let n_out: usize = scratch.bus_count(BusDirection::Output);
    let n_in: usize = scratch.bus_count(BusDirection::Input);
    let ghost out_specs = bus::buses_of(scratch.declared(), BusDirection::Output);
    let ghost in_specs = bus::buses_of(scratch.declared(), BusDirection::Input);
    let ghost idle_in = scratch.loads(BusDirection::Input);
    let mut main_out: HostBus = HostBus::none();
    let mut main_n: usize = 0;
    let mut i: usize = 0;
    while i < n_out
        invariant
            scratch.wf(),
            scratch.declared() == old(scratch).declared(),
            out_specs == bus::buses_of(scratch.declared(), BusDirection::Output),
            n_out == out_specs.len(),
            i <= n_out,
            scratch.loads(BusDirection::Input) == idle_in,
            scratch.loads(BusDirection::Output).len() == n_out,
            forall|k: int|
                0 <= k < i ==> (#[trigger] scratch.loads(BusDirection::Output)[k]) == direct_load(
                    out_specs,
                    outputs@,
                    *activation,
                    BusDirection::Output,
                    k,
                    start,
                    len,
                ),
            forall|k: int|
                i <= k < n_out ==> (#[trigger] scratch.loads(BusDirection::Output)[k])
                    == BusLoad::<Span>::idle(),
            main_n <= 8,
            i == 0 ==> main_n == 0,
            main_n > 0 ==> main_out == outputs@[0] && offered(outputs@, 0) && activation.active(
                BusDirection::Output,
                0,
                out_specs[0],
            ) && main_n == outputs@[0].usable(out_specs[0].layout.count()),
            i > 0 && main_n == 0 ==> scratch.loads(BusDirection::Output)[0].channels.len() == 0,
        decreases n_out - i,
    {
        if i < outputs.len() && outputs[i].connected {
            if let Some(spec) = scratch.spec_at(BusDirection::Output, i) {
                if activation.bus_is_active(BusDirection::Output, i, &spec) {
                    let host: HostBus = outputs[i];
                    let n: usize = wire_bus(
                        scratch,
                        BusDirection::Output,
                        i,
                        &host,
                        spec.layout.channels(),
                        start,
                        len,
                    );
                    if i == 0 {
                        main_out = host;
                        main_n = n;
                    }
                }
            }
        }
        i += 1;
    }
    let ghost outs = scratch.loads(BusDirection::Output);
    proof {
        assert(outs =~= output_loads(out_specs, *activation, outputs@, start, len));
    }
    let mut j: usize = 0;
    while j < n_in
        invariant
            scratch.wf(),
            scratch.declared() == old(scratch).declared(),
            in_specs == bus::buses_of(scratch.declared(), BusDirection::Input),
            n_in == in_specs.len(),
            j <= n_in,
            scratch.loads(BusDirection::Output) == outs,
            outs == output_loads(out_specs, *activation, outputs@, start, len),
            n_out == out_specs.len(),
            scratch.loads(BusDirection::Input).len() == n_in,
            main_n <= 8,
            n_out == 0 ==> main_n == 0,
            main_n > 0 ==> main_out == outputs@[0] && offered(outputs@, 0) && activation.active(
                BusDirection::Output,
                0,
                out_specs[0],
            ) && main_n == outputs@[0].usable(out_specs[0].layout.count()),
            n_out > 0 && main_n == 0 ==> outs[0].channels.len() == 0,
            forall|k: int|
                0 <= k < j ==> (#[trigger] scratch.loads(BusDirection::Input)[k]) == input_loads(
                    in_specs,
                    *activation,
                    inputs@,
                    outs,
                    start,
                    len,
                )[k],
            forall|k: int|
                j <= k < n_in ==> (#[trigger] scratch.loads(BusDirection::Input)[k])
                    == BusLoad::<Span>::idle(),
        decreases n_in - j,
    {
        if j == 0 {
            if main_n > 0 {
                proof {
                    lemma_unbroken(main_out.channels@, main_out.width(out_specs[0].layout.count()));
                    lemma_unbroken_is(main_out.channels@, main_n as int, main_n as int);
                    assert(main_out.width(main_n as u8) == main_n);
                    assert(wired(main_out, main_n as u8, start, len).channels
                        =~= outs[0].channels);
                }
                wire_bus(scratch, BusDirection::Input, 0, &main_out, main_n as u8, start, len);
            }
        } else if j < inputs.len() && inputs[j].connected {
            if let Some(spec) = scratch.spec_at(BusDirection::Input, j) {
                if activation.bus_is_active(BusDirection::Input, j, &spec) {
                    let host: HostBus = inputs[j];
                    wire_bus(
                        scratch,
                        BusDirection::Input,
                        j,
                        &host,
                        spec.layout.channels(),
                        start,
                        len,
                    );
                }
            }
        }
        j += 1;
    }
    proof {
        assert(scratch.loads(BusDirection::Input) =~= input_loads(
            in_specs,
            *activation,
            inputs@,
            outs,
            start,
            len,
        ));
    }
}

/// What to do with one channel of the main output before rendering.
#[derive(Clone, Copy, PartialEq, Eq, Structural, Debug)]
pub enum CopyAction {
    /// Copy the input buffer into the output buffer.
    Copy {
        /// The input buffer.
        from: usize,
        /// The output buffer.
        to: usize,
    },
    /// No input covers the channel: silence it.
    Silence {
        /// The output buffer.
        to: usize,
    },
    /// Nothing: the host processes in place, or there is no buffer.
    Leave,
}

/// What to do with channel `c` of the main output, given the main input as
/// far as it is declared and connected.
pub open spec fn copy_action(
    output: HostBus,
    declared: u8,
    input: Option<HostBus>,
    c: int,
) -> CopyAction {
    let covered = match input {
        Some(host) => c < host.count,
        None => false,
    };
    if c >= output.width(declared) || output.channels@[c] is None {
        CopyAction::Leave
    } else if !covered {
        CopyAction::Silence { to: output.channels@[c]->0 }
    } else {
        match (input->0).channels@[c] {
            Some(from) if from != output.channels@[c]->0 => CopyAction::Copy {
                from,
                to: output.channels@[c]->0,
            },
            _ => CopyAction::Leave,
        }
    }
}

/// The main input as far as it is declared and connected.
pub open spec fn main_input(specs: Seq<AudioBusSpec>, inputs: Seq<HostBus>) -> Option<HostBus> {
    if specs.len() > 0 && offered(inputs, 0) {
        Some(inputs[0])
    } else {
        None
    }
}

/// What copying the main input into the main output takes, channel by
/// channel.
pub fn copy_main_into_output(
    scratch: &TopologyScratch<Span>,
    inputs: &[HostBus],
    outputs: &[HostBus],
) -> (r: [CopyAction; 8])
    requires
        scratch.wf(),
    ensures
        ({
            let outs = bus::buses_of(scratch.declared(), BusDirection::Output);
            let ins = bus::buses_of(scratch.declared(), BusDirection::Input);
            forall|c: int|
                0 <= c < 8 ==> (#[trigger] r@[c]) == (if outs.len() > 0 && offered(outputs@, 0) {
                    copy_action(outputs@[0], outs[0].layout.count(), main_input(ins, inputs@), c)
                } else {
                    CopyAction::Leave
                })
        }),
{
    let leave: CopyAction = CopyAction::Leave;
    let mut plan: [CopyAction; 8] = [leave, leave, leave, leave, leave, leave, leave, leave];
    let spec = match scratch.spec_at(BusDirection::Output, 0) {
        Some(spec) => spec,
        None => {
            return plan;
        },
    };
    if outputs.len() == 0 || !outputs[0].connected {
        return plan;
    }
    let out: HostBus = outputs[0];
    let width: usize = out.width_of(spec.layout.channels());
    let input: Option<HostBus> = if scratch.bus_count(BusDirection::Input) > 0 && inputs.len() > 0
        && inputs[0].connected {
        Some(inputs[0])
    } else {
        None
    };
    let ghost declared = spec.layout.count();
    let mut c: usize = 0;
    while c < width
        invariant
            width == out.width(declared),
            width <= 8,
            c <= width,
            forall|k: int| 0 <= k < c ==> (#[trigger] plan@[k]) == copy_action(
                out,
                declared,
                input,
                k,
            ),
            forall|k: int| c <= k < 8 ==> (#[trigger] plan@[k]) == CopyAction::Leave,
        decreases width - c,
    {
        if let Some(to) = out.channels[c] {
            match input {
                Some(host) => {
                    if c < host.count {
                        if let Some(from) = host.channels[c] {
                            if from != to {
                                plan[c] = CopyAction::Copy { from, to };
                            }
                        }
                    } else {
                        plan[c] = CopyAction::Silence { to };
                    }
                },
                None => {
                    plan[c] = CopyAction::Silence { to };
                },
            }
        }
        c += 1;
    }
    plan
}

/// Stale audio never reaches the processor: every output channel that counts
/// and has a buffer is copied into, silenced, or was filled in place by the
/// host, unless the host left the matching input channel out.
pub proof fn law_no_stale_audio(output: HostBus, declared: u8, input: Option<HostBus>, c: int)
    requires
        0 <= c < output.width(declared),
        output.channels@[c] is Some,
    ensures
        match copy_action(output, declared, input, c) {
            CopyAction::Copy { from, to } => to == output.channels@[c]->0 && from != to && (
            input matches Some(host) && host.channels@[c] == Some(from)),
            CopyAction::Silence { to } => to == output.channels@[c]->0 && (input matches Some(
                host,
            ) ==> c >= host.count),
            CopyAction::Leave => input matches Some(host) && c < host.count && (
            host.channels@[c] is None || host.channels@[c] == output.channels@[c]),
        },
{
}

/// A processor sees a sidechain exactly when the host connected it and it is
/// active; the main pair is wired the same either way.
pub proof fn law_a_sidechain_is_seen_exactly_when_connected(
    specs: Seq<AudioBusSpec>,
    activation: BusActivation,
    inputs: Seq<HostBus>,
    outs: Seq<BusLoad<Span>>,
    start: usize,
    len: usize,
    i: int,
)
    requires
        0 < i < specs.len(),
    ensures
        input_loads(specs, activation, inputs, outs, start, len)[i].active <==> offered(inputs, i)
            && activation.active(BusDirection::Input, i, specs[i]),
        forall|other: Seq<HostBus>|
            input_loads(specs, activation, inputs, outs, start, len)[0] == (
            #[trigger] input_loads(specs, activation, other, outs, start, len))[0],
{
}

/// The main input hears exactly what the main output's buffers hold: same
/// buffers, same frames.
pub proof fn law_the_main_pair_is_processed_in_place(
    specs: Seq<AudioBusSpec>,
    activation: BusActivation,
    inputs: Seq<HostBus>,
    outs: Seq<BusLoad<Span>>,
    start: usize,
    len: usize,
)
    requires
        specs.len() > 0,
        outs.len() > 0,
        outs[0].channels.len() > 0,
    ensures
        input_loads(specs, activation, inputs, outs, start, len)[0].active,
        input_loads(specs, activation, inputs, outs, start, len)[0].channels == outs[0].channels,
{
}

/// How many channels of a bus are usable: all that the host offers and the
/// layout declares, eight at most, up to the first one that is left out.
pub proof fn law_channels_are_usable_up_to_the_first_gap(host: HostBus, declared: u8)
    ensures
        0 <= host.usable(declared) <= host.count,
        host.usable(declared) <= declared,
        host.usable(declared) <= 8,
        forall|c: int|
            0 <= c < host.usable(declared) ==> (#[trigger] host.channels@[c]) is Some,
        host.usable(declared) == host.count || host.usable(declared) == declared || host.usable(
            declared,
        ) == 8 || host.channels@[host.usable(declared)] is None,
{
    lemma_unbroken(host.channels@, host.width(declared));
}

/// How many channels of a bus count: as many as the host offers and the layout
/// declares, eight at most.
pub proof fn law_channels_that_count(host: HostBus, declared: u8)
    ensures
        host.width(declared) <= host.count,
        host.width(declared) <= declared,
        host.width(declared) <= 8,
        host.width(declared) == host.count || host.width(declared) == declared || host.width(
            declared,
        ) == 8,
{
}

/// In a segment from frame `start` of `len` frames, every declared output that
/// the host connected and that is active has the host's own buffers for its
/// channels, up to the first one left out, each from that frame on and for that
/// many frames; any other output is absent.
pub proof fn law_outputs_point_at_the_hosts_buffers(
    specs: Seq<AudioBusSpec>,
    activation: BusActivation,
    hosts: Seq<HostBus>,
    start: usize,
    len: usize,
    i: int,
)
    requires
        0 <= i < specs.len(),
    ensures
        ({
            let load = output_loads(specs, activation, hosts, start, len)[i];
            if i < hosts.len() && hosts[i].connected && (!specs[i].optional || activation.on(
                BusDirection::Output,
                i,
            )) {
                &&& load.active
                &&& load.channels.len() <= hosts[i].count
                &&& load.channels.len() <= specs[i].layout.count()
                &&& load.channels.len() <= 8
                &&& load.channels.len() < hosts[i].count && load.channels.len() < specs[i].layout.count()
                    && load.channels.len() < 8
                    ==> hosts[i].channels@[load.channels.len() as int] is None
                &&& forall|c: int|
                    0 <= c < load.channels.len() ==> {
                        &&& hosts[i].channels@[c] is Some
                        &&& (#[trigger] load.channels[c]).buf == Some(
                            Span { buf: hosts[i].channels@[c]->0, start },
                        )
                        &&& load.channels[c].len == len
                    }
            } else {
                !load.active && load.channels.len() == 0
            }
        }),
{
    if i < hosts.len() {
        law_channels_are_usable_up_to_the_first_gap(hosts[i], specs[i].layout.count());
    }
}

/// The same holds of every declared input but the main one, whatever the
/// outputs hold.
pub proof fn law_inputs_point_at_the_hosts_buffers(
    specs: Seq<AudioBusSpec>,
    activation: BusActivation,
    hosts: Seq<HostBus>,
    outs: Seq<BusLoad<Span>>,
    start: usize,
    len: usize,
    i: int,
)
    requires
        0 < i < specs.len(),
    ensures
        ({
            let load = input_loads(specs, activation, hosts, outs, start, len)[i];
            if i < hosts.len() && hosts[i].connected && (!specs[i].optional || activation.on(
                BusDirection::Input,
                i,
            )) {
                &&& load.active
                &&& load.channels.len() <= hosts[i].count
                &&& load.channels.len() <= specs[i].layout.count()
                &&& load.channels.len() <= 8
                &&& load.channels.len() < hosts[i].count && load.channels.len() < specs[i].layout.count()
                    && load.channels.len() < 8
                    ==> hosts[i].channels@[load.channels.len() as int] is None
                &&& forall|c: int|
                    0 <= c < load.channels.len() ==> {
                        &&& hosts[i].channels@[c] is Some
                        &&& (#[trigger] load.channels[c]).buf == Some(
                            Span { buf: hosts[i].channels@[c]->0, start },
                        )
                        &&& load.channels[c].len == len
                    }
            } else {
                !load.active && load.channels.len() == 0
            }
        }),
{
    if i < hosts.len() {
        law_channels_are_usable_up_to_the_first_gap(hosts[i], specs[i].layout.count());
    }
}

/// The main input has the main output's buffers, from the same frame on and
/// for as many frames, whenever the host connected the main output, it is
/// active and it has a channel; otherwise it is absent.
pub proof fn law_the_main_input_points_at_the_main_output(
    ins: Seq<AudioBusSpec>,
    outs: Seq<AudioBusSpec>,
    activation: BusActivation,
    inputs: Seq<HostBus>,
    outputs: Seq<HostBus>,
    start: usize,
    len: usize,
)
    requires
        ins.len() > 0,
    ensures
        ({
            let load = input_loads(
                ins,
                activation,
                inputs,
                output_loads(outs, activation, outputs, start, len),
                start,
                len,
            )[0];
            if outs.len() > 0 && outputs.len() > 0 && outputs[0].connected && (!outs[0].optional
                || activation.on(BusDirection::Output, 0)) && outputs[0].count > 0
                && outs[0].layout.count() > 0 && outputs[0].channels@[0] is Some {
                &&& load.active
                &&& load.channels.len() <= outputs[0].count
                &&& load.channels.len() <= outs[0].layout.count()
                &&& load.channels.len() <= 8
                &&& load.channels.len() < outputs[0].count && load.channels.len() < outs[0].layout.count()
                    && load.channels.len() < 8
                    ==> outputs[0].channels@[load.channels.len() as int] is None
                &&& forall|c: int|
                    0 <= c < load.channels.len() ==> {
                        &&& outputs[0].channels@[c] is Some
                        &&& (#[trigger] load.channels[c]).buf == Some(
                            Span { buf: outputs[0].channels@[c]->0, start },
                        )
                        &&& load.channels[c].len == len
                    }
            } else {
                !load.active && load.channels.len() == 0
            }
        }),
{
    if outs.len() > 0 && outputs.len() > 0 {
        law_outputs_point_at_the_hosts_buffers(outs, activation, outputs, start, len, 0);
        law_channels_are_usable_up_to_the_first_gap(outputs[0], outs[0].layout.count());
        let main = output_loads(outs, activation, outputs, start, len)[0];
        if main.channels.len() > 0 {
            assert(main.channels[0].buf is Some);
        }
    }
}

/// A segment holds one load for each declared bus.
pub proof fn law_segments_hold_every_bus(
    specs: Seq<AudioBusSpec>,
    activation: BusActivation,
    hosts: Seq<HostBus>,
    outs: Seq<BusLoad<Span>>,
    start: usize,
    len: usize,
)
    ensures
        output_loads(specs, activation, hosts, start, len).len() == specs.len(),
        input_loads(specs, activation, hosts, outs, start, len).len() == specs.len(),
{
}

/// A channel of the main output is copied into exactly when the host offers
/// the matching input channel in another buffer, silenced exactly when no
/// input covers it, and otherwise left alone.
pub proof fn law_copying_follows_the_channels(
    output: HostBus,
    declared: u8,
    input: Option<HostBus>,
    c: int,
)
    requires
        0 <= c < 8,
    ensures
        ({
            let there = c < output.count && c < declared && output.channels@[c] is Some;
            let covered = input matches Some(host) && c < host.count;
            &&& !there ==> copy_action(output, declared, input, c) == CopyAction::Leave
            &&& there && !covered ==> copy_action(output, declared, input, c)
                == CopyAction::Silence { to: output.channels@[c]->0 }
            &&& there && covered && (input->0).channels@[c] is Some && (input->0).channels@[c]
                != output.channels@[c] ==> copy_action(output, declared, input, c)
                == CopyAction::Copy {
                from: (input->0).channels@[c]->0,
                to: output.channels@[c]->0,
            }
            &&& there && covered && ((input->0).channels@[c] is None || (input->0).channels@[c]
                == output.channels@[c]) ==> copy_action(output, declared, input, c)
                == CopyAction::Leave
        }),
{
}

/// The main input is the host's first input bus, if the plugin declares one
/// and the host connected it.
pub proof fn law_the_main_input_is_the_first(specs: Seq<AudioBusSpec>, inputs: Seq<HostBus>)
    ensures
        specs.len() > 0 && inputs.len() > 0 && inputs[0].connected ==> main_input(specs, inputs)
            == Some(inputs[0]),
        !(specs.len() > 0 && inputs.len() > 0 && inputs[0].connected) ==> main_input(
            specs,
            inputs,
        ) is None,
{
}

/// A bus is active exactly when it is not optional or the host switched it on.
pub proof fn law_only_optional_buses_can_be_off(
    activation: BusActivation,
    dir: BusDirection,
    index: int,
    spec: AudioBusSpec,
)
    ensures
        !spec.optional ==> activation.active(dir, index, spec),
        spec.optional ==> activation.active(dir, index, spec) == activation.on(dir, index),
{
}

} // verus!
