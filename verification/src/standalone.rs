//! Running a processor as an application of its own: the scratch that its
//! main buses share, and how that maps onto an audio device's channels.
use vstd::prelude::*;
use vstd::arithmetic::div_mod::{lemma_div_is_ordered, lemma_div_multiples_vanish, lemma_fundamental_div_mod, lemma_remainder_upper};
use vstd::arithmetic::mul::{lemma_mul_inequality, lemma_mul_is_commutative};

use crate::bus;
use crate::bus::{AudioBusSpec, BusDirection};
use crate::scratch::{BusLoad, TopologyScratch};
use crate::tick;
use crate::wire;
use crate::wire::{wire_bus, HostBus, Span};

verus! {

/// Frames the scratch can hold. Larger device buffers are processed in
/// several passes.
pub const SCRATCH_FRAMES: usize = 2048;

/// What the processor receives as input.
#[derive(Clone, Copy, PartialEq, Eq, Structural, Debug)]
pub enum Input {
    /// A quiet sine, so that effects are audible without any routing.
    TestTone,
    /// Silence, for processors that generate their own sound.
    Silence,
}

/// Why the application could not start.
#[derive(Debug)]
pub enum Error {
    /// There is no usable audio output device.
    NoOutputDevice,
    /// The device would not describe a usable configuration.
    Config(String),
    /// The audio stream could not be created or started.
    Audio(String),
    /// The window could not be created.
    Window(String),
    /// The web view could not be attached to the window.
    WebView(String),
}

impl Error {
    /// What [`Error::message`] says.
    pub open spec fn told(self) -> Seq<char> {
        match self {
            Error::NoOutputDevice => "no audio output device is available"@,
            Error::Config(e) => "audio configuration failed: "@ + e@,
            Error::Audio(e) => "audio stream failed: "@ + e@,
            Error::Window(e) => "window creation failed: "@ + e@,
            Error::WebView(e) => "webview creation failed: "@ + e@,
        }
    }

    /// What to tell a user.
    pub fn message(&self) -> (r: String)
        ensures
            r@ == self.told(),
    {
        match self {
            Error::NoOutputDevice => String::from_str("no audio output device is available"),
            Error::Config(e) => detailed("audio configuration failed: ", e),
            Error::Audio(e) => detailed("audio stream failed: ", e),
            Error::Window(e) => detailed("window creation failed: ", e),
            Error::WebView(e) => detailed("webview creation failed: ", e),
        }
    }
}

fn detailed(what: &str, why: &String) -> (r: String)
    ensures
        r@ == what@ + why@,
{
    let mut out = String::from_str(what);
    out.append(why.as_str());
    out
}

/// Channels of the main bus in one direction; 0 if there is no bus.
pub open spec fn main_channels(specs: Seq<AudioBusSpec>, dir: BusDirection) -> int {
    let buses = bus::buses_of(specs, dir);
    if buses.len() == 0 {
        0
    } else {
        buses[0].layout.count() as int
    }
}

/// Channel count of the declared main bus in one direction.
pub fn main_bus_channels(specs: &[AudioBusSpec], dir: BusDirection) -> (r: usize)
    ensures
        r == main_channels(specs@, dir),
{
    let buses = bus::select_buses(specs, dir);
    if buses.len() == 0 {
        0
    } else {
        buses[0].layout.channels() as usize
    }
}

/// Channels that the scratch needs: the main input and the main output share
/// it, so it is as wide as the wider one.
pub fn scratch_channels(specs: &[AudioBusSpec]) -> (r: usize)
    ensures
        r == (if main_channels(specs@, BusDirection::Input) > main_channels(
            specs@,
            BusDirection::Output,
        ) {
            main_channels(specs@, BusDirection::Input)
        } else {
            main_channels(specs@, BusDirection::Output)
        }),
{
    let inputs: usize = main_bus_channels(specs, BusDirection::Input);
    let outputs: usize = main_bus_channels(specs, BusDirection::Output);
    if inputs > outputs {
        inputs
    } else {
        outputs
    }
}

/// One buffer per channel, filled with the input, processed in place, and
/// read as the output.
#[derive(Debug)]
pub struct Scratch<S> {
    count: usize,
    samples: Vec<S>,
}

impl<S: Copy> Scratch<S> {
    /// How many channels there are.
    pub closed spec fn channels(&self) -> int {
        self.count as int
    }

    /// Every sample, channel after channel.
    pub closed spec fn all(&self) -> Seq<S> {
        self.samples@
    }

    /// One sample.
    pub open spec fn sample(&self, channel: int, frame: int) -> S {
        self.all()[channel * 2048 + frame]
    }

    /// Every channel has its room.
    pub closed spec fn wf(&self) -> bool {
        self.samples@.len() == self.count * 2048 && self.count * 2048 <= usize::MAX
    }

    /// A scratch of so many channels.
    pub fn new(channel_count: usize, silence: S) -> (r: Self)
        requires
            channel_count * 2048 <= usize::MAX,
        ensures
            r.wf(),
            r.channels() == channel_count,
            forall|c: int, f: int|
                #![trigger r.sample(c, f)]
                0 <= c < channel_count && 0 <= f < 2048 ==> r.sample(c, f) == silence,
    {
        let samples = tick::silent(silence, channel_count * SCRATCH_FRAMES);
        Scratch { count: channel_count, samples }
    }

    /// One channel's buffer.
    pub fn channel_mut(&mut self, channel: usize) -> (r: Option<(usize, &mut Vec<S>)>)
        requires
            old(self).wf(),
        ensures
            match r {
                None => channel >= old(self).channels() && *final(self) == *old(self),
                Some((start, samples)) => {
                    &&& channel < old(self).channels()
                    &&& start == channel * 2048
                    &&& samples@ == old(self).all()
                    &&& final(self).channels() == old(self).channels()
                    &&& final(self).all() == final(samples)@
                    &&& final(samples)@.len() == samples@.len() ==> final(self).wf()
                },
            },
    {
        if channel >= self.count {
            return None;
        }
        Some((channel * SCRATCH_FRAMES, &mut self.samples))
    }

    /// Give every channel the same input sample.
    pub fn fill_frame(&mut self, frame: usize, sample: S)
        requires
            old(self).wf(),
            frame < SCRATCH_FRAMES,
        ensures
            final(self).wf(),
            final(self).channels() == old(self).channels(),
            forall|c: int, f: int|
                #![trigger final(self).sample(c, f)]
                0 <= c < old(self).channels() && 0 <= f < 2048 ==> final(self).sample(c, f) == (if f
                    == frame {
                    sample
                } else {
                    old(self).sample(c, f)
                }),
    {
        let mut c: usize = 0;
        while c < self.count
            invariant
                self.wf(),
                self.count == old(self).count,
                c <= self.count,
                frame < 2048,
                forall|k: int, f: int|
                    #![trigger self.sample(k, f)]
                    0 <= k < self.count && 0 <= f < 2048 ==> self.sample(k, f) == (if f == frame
                        && k < c {
                        sample
                    } else {
                        old(self).sample(k, f)
                    }),
            decreases self.count - c,
        {
            let ghost before = *self;
            self.samples[c * SCRATCH_FRAMES + frame] = sample;
            proof {
                assert forall|k: int, f: int|
                    #![trigger self.sample(k, f)]
                    0 <= k < self.count && 0 <= f < 2048 implies self.sample(k, f) == (if f == frame
                    && k < c + 1 {
                    sample
                } else {
                    old(self).sample(k, f)
                }) by {
                    assert(before.sample(k, f) == before.all()[k * 2048 + f]);
                }
            }
            c += 1;
        }
    }

    /// Write a pass to the device, frame by frame. The device's channels get
    /// the main output's channels in order; a wider device gets the last one
    /// again on each of its further channels. Without a main output the
    /// device's first channel is what there is. Samples that make up no whole
    /// frame are left alone.
    pub fn play(&self, out: &mut [S], device_channels: usize, out_channels: usize)
        requires
            self.wf(),
            device_channels > 0,
            out_channels <= self.channels(),
            old(out)@.len() / device_channels as nat <= SCRATCH_FRAMES,
        ensures
            final(out)@.len() == old(out)@.len(),
            forall|f: int, d: int|
                #![trigger final(out)@[f * device_channels + d]]
                0 <= f < old(out)@.len() / device_channels as nat && 0 <= d < device_channels
                    ==> final(out)@[f * device_channels + d] == (if out_channels == 0 {
                    old(out)@[f * device_channels]
                } else {
                    self.sample(heard(d, out_channels as int), f)
                }),
            forall|i: int|
                (old(out)@.len() / device_channels as nat) * device_channels <= i < old(out)@.len()
                    ==> (#[trigger] final(out)@[i]) == old(out)@[i],
    {
        let frames: usize = out.len() / device_channels;
        let ghost dc = device_channels as int;
        let ghost len = out@.len() as int;
        proof {
            lemma_fundamental_div_mod(len, dc);
            lemma_mul_is_commutative(dc, frames as int);
            lemma_remainder_upper(len, dc);
            assert(frames * dc <= len);
        }
        let mut f: usize = 0;
        while f < frames
            invariant
                self.wf(),
                dc == device_channels,
                dc > 0,
                out_channels <= self.channels(),
                out@.len() == len,
                len == old(out)@.len(),
                len <= usize::MAX,
                frames * dc <= len,
                frames <= 2048,
                f <= frames,
                forall|g: int, d: int|
                    #![trigger out@[g * device_channels + d]]
                    0 <= g < f && 0 <= d < dc ==> out@[g * device_channels + d] == (if out_channels
                        == 0 {
                        old(out)@[g * device_channels]
                    } else {
                        self.sample(heard(d, out_channels as int), g)
                    }),
                forall|i: int| f * dc <= i < len ==> (#[trigger] out@[i]) == old(out)@[i],
            decreases frames - f,
        {
            proof {
                tick::lemma_slot(f as int, 0, frames as int, dc);
                lemma_mul_inequality(0, f as int, dc);
                assert((f + 1) * dc == f * dc + dc) by (nonlinear_arith);
                lemma_mul_inequality(f + 1, frames as int, dc);
            }
            let base: usize = f * device_channels;
            let mut d: usize = 0;
            while d < device_channels
                invariant
                    self.wf(),
                    dc == device_channels,
                    dc > 0,
                    out_channels <= self.channels(),
                    out@.len() == len,
                    len == old(out)@.len(),
                    len <= usize::MAX,
                    frames * dc <= len,
                    f < frames,
                    frames <= 2048,
                    base == f * dc,
                    base + dc <= len,
                    (f + 1) * dc == f * dc + dc,
                    d <= dc,
                    forall|g: int, e: int|
                        #![trigger out@[g * device_channels + e]]
                        (0 <= g < f && 0 <= e < dc) || (g == f && 0 <= e < d) ==> out@[g
                            * device_channels + e] == (if out_channels == 0 {
                            old(out)@[g * device_channels]
                        } else {
                            self.sample(heard(e, out_channels as int), g)
                        }),
                    forall|i: int| f * dc + d <= i < len ==> (#[trigger] out@[i]) == old(out)@[i],
                decreases dc - d,
            {
                let value: S = if out_channels == 0 {
                    proof {
                        assert(f * device_channels + 0 == base);
                        assert(d > 0 ==> out@[f * device_channels + 0] == old(out)@[f
                            * device_channels]);
                    }
                    out[base]
                } else {
                    let c: usize = if d < out_channels {
                        d
                    } else {
                        out_channels - 1
                    };
                    self.samples[c * SCRATCH_FRAMES + f]
                };
                let ghost before = out@;
                out[base + d] = value;
                proof {
                    assert forall|g: int, e: int|
                        #![trigger out@[g * device_channels + e]]
                        (0 <= g < f && 0 <= e < dc) || (g == f && 0 <= e < d + 1) implies out@[g
                        * device_channels + e] == (if out_channels == 0 {
                        old(out)@[g * device_channels]
                    } else {
                        self.sample(heard(e, out_channels as int), g)
                    }) by {
                        if g != f || e != d {
                            tick::lemma_slots_differ(g, e, f as int, d as int, dc);
                            tick::lemma_slot(g, e, frames as int, dc);
                            assert(out@[g * device_channels + e] == before[g * device_channels
                                + e]);
                        }
                    }
                }
                d += 1;
            }
            f += 1;
        }
        proof {
            assert(frames == old(out)@.len() / device_channels as nat);
        }
    }
}

/// Which channel of the main output a device channel plays.
pub open spec fn heard(device_channel: int, out_channels: int) -> int {
    if device_channel < out_channels {
        device_channel
    } else {
        out_channels - 1
    }
}

/// What the buses of one direction hold: only the main bus is fed, with as
/// many of the given buffers as it declares channels.
pub open spec fn main_loads(
    specs: Seq<AudioBusSpec>,
    dir: BusDirection,
    buffers: HostBus,
    frames: usize,
) -> Seq<BusLoad<Span>> {
    let buses = bus::buses_of(specs, dir);
    Seq::new(
        buses.len(),
        |i: int|
            if i == 0 {
                wire::wired(buffers, buses[0].layout.count(), 0, frames)
            } else {
                BusLoad::idle()
            },
    )
}

fn wire_main(
    scratch: &mut TopologyScratch<Span>,
    dir: BusDirection,
    buffers: &HostBus,
    frames: usize,
)
    requires
        old(scratch).wf(),
        old(scratch).loads(dir) == Seq::new(
            bus::buses_of(old(scratch).declared(), dir).len(),
            |i: int| BusLoad::<Span>::idle(),
        ),
    ensures
        final(scratch).wf(),
        final(scratch).declared() == old(scratch).declared(),
        forall|d: BusDirection| d != dir ==> #[trigger] final(scratch).loads(d) == old(scratch).loads(d),
        final(scratch).loads(dir) == main_loads(old(scratch).declared(), dir, *buffers, frames),
{
    match scratch.spec_at(dir, 0) {
        None => {
            proof {
                assert(scratch.loads(dir) =~= main_loads(
                    scratch.declared(),
                    dir,
                    *buffers,
                    frames,
                ));
            }
        },
        Some(spec) => {
            let _: usize = wire_bus(scratch, dir, 0, buffers, spec.layout.channels(), 0, frames);
            proof {
                assert(scratch.loads(dir) =~= main_loads(
                    old(scratch).declared(),
                    dir,
                    *buffers,
                    frames,
                ));
            }
        },
    }
}

/// Wire the main buses onto the scratch's buffers. The main input and the
/// main output get the same ones, so that the processor works in place; every
/// other bus stays inactive, for there is nothing to feed it.
pub fn wire_scratch(scratch: &mut TopologyScratch<Span>, buffers: &HostBus, frames: usize)
    requires
        old(scratch).wf(),
    ensures
        final(scratch).wf(),
        final(scratch).declared() == old(scratch).declared(),
        forall|dir: BusDirection| #[trigger]
            final(scratch).loads(dir) == main_loads(
                old(scratch).declared(),
                dir,
                *buffers,
                frames,
            ),
{
    proof {
        scratch.lemma_sound();
    }
    scratch.clear();
    wire_main(scratch, BusDirection::Output, buffers, frames);
    wire_main(scratch, BusDirection::Input, buffers, frames);
    proof {
        assert forall|dir: BusDirection| #[trigger]
            scratch.loads(dir) == main_loads(old(scratch).declared(), dir, *buffers, frames) by {
            match dir {
                BusDirection::Input => {},
                BusDirection::Output => {},
            }
        }
    }
}

/// Where a pass over a device buffer ends that starts at `at`: after as many
/// whole frames as the scratch holds, or at the end of the buffer.
pub fn pass_end(at: usize, len: usize, device_channels: usize) -> (r: usize)
    requires
        at <= len,
    ensures
        r == (if len - at <= SCRATCH_FRAMES * device_channels {
            len as int
        } else {
            at + SCRATCH_FRAMES * device_channels
        }),
{
    let rest: usize = len - at;
    match SCRATCH_FRAMES.checked_mul(device_channels) {
        Some(most) => if rest <= most {
            len
        } else {
            at + most
        },
        None => len,
    }
}

/// Where a pass ends.
pub open spec fn passed(at: int, len: int, device_channels: int) -> int {
    if len - at <= 2048 * device_channels {
        len
    } else {
        at + 2048 * device_channels
    }
}

/// No buffer size needs a larger scratch: every pass makes progress, stays
/// within the buffer, and holds no more frames than the scratch does.
pub proof fn law_passes_fit_the_scratch(at: nat, len: nat, device_channels: nat)
    requires
        at < len,
        device_channels > 0,
    ensures
        at < passed(at as int, len as int, device_channels as int) <= len,
        (passed(at as int, len as int, device_channels as int) - at) / device_channels as int
            <= 2048,
{
    let dc = device_channels as int;
    let span = passed(at as int, len as int, dc) - at;
    lemma_div_is_ordered(span, 2048 * dc, dc);
    lemma_div_multiples_vanish(2048, dc);
    lemma_mul_is_commutative(2048, dc);
}

/// A sidechain never has a source here, and the main input is the main
/// output's memory: every further bus is idle, and where both main buses have
/// a channel it is the same buffer.
pub proof fn law_only_the_main_pair_is_fed(
    specs: Seq<AudioBusSpec>,
    dir: BusDirection,
    buffers: HostBus,
    frames: usize,
    i: int,
    c: int,
)
    ensures
        0 < i < bus::buses_of(specs, dir).len() ==> main_loads(specs, dir, buffers, frames)[i]
            == BusLoad::<Span>::idle(),
        ({
            let ins = main_loads(specs, BusDirection::Input, buffers, frames);
            let outs = main_loads(specs, BusDirection::Output, buffers, frames);
            ins.len() > 0 && outs.len() > 0 && 0 <= c < ins[0].channels.len() && c
                < outs[0].channels.len() ==> ins[0].channels[c] == outs[0].channels[c]
        }),
{
}

/// An error says what failed, and, where there is one, the reason as it was
/// given.
pub proof fn law_errors_give_their_reason(why: String)
    ensures
        Error::NoOutputDevice.told() == "no audio output device is available"@,
        Error::Config(why).told() == "audio configuration failed: "@ + why@,
        Error::Audio(why).told() == "audio stream failed: "@ + why@,
        Error::Window(why).told() == "window creation failed: "@ + why@,
        Error::WebView(why).told() == "webview creation failed: "@ + why@,
{
}

/// The main bus of a direction is its first, and a direction without a bus has
/// no channels.
pub proof fn law_the_main_bus_is_the_first(specs: Seq<AudioBusSpec>, dir: BusDirection)
    ensures
        bus::buses_of(specs, dir).len() == 0 ==> main_channels(specs, dir) == 0,
        bus::buses_of(specs, dir).len() > 0 ==> main_channels(specs, dir) == bus::buses_of(
            specs,
            dir,
        )[0].layout.count(),
{
}

/// Each channel of the device plays the plugin's channel of the same number,
/// and those past the plugin's last play the last.
pub proof fn law_devices_play_the_same_channel(device_channel: int, out_channels: int)
    requires
        0 <= device_channel,
        0 < out_channels,
    ensures
        0 <= heard(device_channel, out_channels) < out_channels,
        device_channel < out_channels ==> heard(device_channel, out_channels) == device_channel,
        device_channel >= out_channels ==> heard(device_channel, out_channels) == out_channels - 1,
{
}

/// The main bus of each direction is wired to the buffers from their first
/// frame on, as far as it has channels, and every other bus is idle.
pub proof fn law_only_the_main_bus_is_wired(
    specs: Seq<AudioBusSpec>,
    dir: BusDirection,
    buffers: HostBus,
    frames: usize,
    i: int,
)
    requires
        0 <= i < bus::buses_of(specs, dir).len(),
    ensures
        main_loads(specs, dir, buffers, frames).len() == bus::buses_of(specs, dir).len(),
        i == 0 ==> main_loads(specs, dir, buffers, frames)[i] == wire::wired(
            buffers,
            bus::buses_of(specs, dir)[0].layout.count(),
            0,
            frames,
        ),
        i > 0 ==> !main_loads(specs, dir, buffers, frames)[i].active && main_loads(
            specs,
            dir,
            buffers,
            frames,
        )[i].channels.len() == 0,
{
}

/// The scratch holds each channel's frames together, 2048 of them.
pub proof fn law_samples_lie_by_channel<S: Copy>(scratch: Scratch<S>, channel: int, frame: int)
    ensures
        scratch.sample(channel, frame) == scratch.all()[2048 * channel + frame],
{
}

} // verus!
