//! Between a DSP that only ever processes ticks of a fixed size and a host
//! whose blocks have whatever size it likes.
//!
//! Frames are collected until a tick is full; the tick's output waits in a
//! ring. The ring starts out holding one tick of silence, which makes the
//! added delay constant.
use vstd::prelude::*;
use vstd::arithmetic::div_mod::{
    lemma_fundamental_div_mod, lemma_fundamental_div_mod_converse, lemma_mod_bound, lemma_small_mod,
};
use vstd::arithmetic::mul::{
    lemma_mul_basics, lemma_mul_inequality, lemma_mul_is_distributive_add,
    lemma_mul_is_distributive_add_other_way,
};

verus! {

/// Why a DSP engine could not be created or a patch could not be loaded.
#[derive(Clone, Copy, PartialEq, Eq, Structural, Debug)]
pub enum PdError {
    /// The DSP was built without support for several instances.
    NoInstanceSupport,
    /// The DSP refused the requested channel count or sample rate.
    AudioInit,
    /// The patch path had no usable file name or parent directory.
    PatchNotFound,
    /// The DSP could not open the patch.
    PatchFailed,
}

impl PdError {
    /// What to tell a user.
    pub fn message(&self) -> (r: &'static str)
        ensures
            r@ == (match *self {
                PdError::NoInstanceSupport => "libpd was built without multi-instance support"@,
                PdError::AudioInit => "Pd refused the audio configuration"@,
                PdError::PatchNotFound => "patch path has no file name or parent"@,
                PdError::PatchFailed => "Pd could not open the patch"@,
            }),
    {
        match *self {
            PdError::NoInstanceSupport => "libpd was built without multi-instance support",
            PdError::AudioInit => "Pd refused the audio configuration",
            PdError::PatchNotFound => "patch path has no file name or parent",
            PdError::PatchFailed => "Pd could not open the patch",
        }
    }
}

/// Frame `i` of an interleaved buffer.
pub open spec fn frame_of<S>(buf: Seq<S>, i: int, channels: int) -> Seq<S> {
    Seq::new(channels as nat, |c: int| buf[i * channels + c])
}

/// The first `n` frames of an interleaved buffer.
pub open spec fn frames_of<S>(buf: Seq<S>, n: int, channels: int) -> Seq<Seq<S>> {
    Seq::new(n as nat, |i: int| frame_of(buf, i, channels))
}

/// A frame of exactly `channels` samples: missing channels are silent, extra
/// ones are left out.
pub open spec fn fitted<S>(frame: Seq<S>, channels: int, silence: S) -> Seq<S> {
    Seq::new(channels as nat, |c: int| if c < frame.len() { frame[c] } else { silence })
}

/// Where adding `k` to a ring position leads.
pub open spec fn around(at: int, k: int, size: int) -> int {
    if at + k < size {
        at + k
    } else {
        at + k - size
    }
}

/// What an adapter holds.
pub ghost struct TickState<S> {
    /// Output frames that wait to be read, oldest first.
    pub queue: Seq<Seq<S>>,
    /// Input frames that wait for their tick to fill up.
    pub partial: Seq<Seq<S>>,
}

/// Adapts a host's blocks to ticks of `block` frames.
#[derive(Debug)]
pub struct TickAdapter<S> {
    channels: usize,
    block: usize,
    silence: S,
    in_buf: Vec<S>,
    in_fill: usize,
    ring: Vec<S>,
    read: usize,
    write: usize,
}

impl<S: Copy> View for TickAdapter<S> {
    type V = TickState<S>;

    closed spec fn view(&self) -> TickState<S> {
        TickState {
            queue: Seq::new(
                self.waiting() as nat,
                |i: int|
                    frame_of(
                        self.ring@,
                        around(self.read as int, i, self.ring_frames()),
                        self.channels as int,
                    ),
            ),
            partial: frames_of(self.in_buf@, self.in_fill as int, self.channels as int),
        }
    }
}

pub(crate) proof fn lemma_slot(i: int, c: int, frames: int, channels: int)
    requires
        0 <= i < frames,
        0 <= c < channels,
    ensures
        0 <= i * channels + c < frames * channels,
{
    lemma_mul_inequality(i + 1, frames, channels);
    lemma_mul_is_distributive_add_other_way(channels, i, 1);
    lemma_mul_inequality(0, i, channels);
}

pub(crate) proof fn lemma_slots_differ(i: int, c: int, j: int, d: int, channels: int)
    requires
        0 <= c < channels,
        0 <= d < channels,
        i != j || c != d,
    ensures
        i * channels + c != j * channels + d,
{
    if i < j {
        lemma_mul_inequality(i + 1, j, channels);
        lemma_mul_is_distributive_add_other_way(channels, i, 1);
    } else if j < i {
        lemma_mul_inequality(j + 1, i, channels);
        lemma_mul_is_distributive_add_other_way(channels, j, 1);
    }
}

pub(crate) fn silent<S: Copy>(silence: S, n: usize) -> (r: Vec<S>)
    ensures
        r@ == Seq::new(n as nat, |i: int| silence),
{
    let mut out: Vec<S> = Vec::with_capacity(n);
    let mut i: usize = 0;
    while i < n
        invariant
            i <= n,
            out@ == Seq::new(i as nat, |k: int| silence),
        decreases n - i,
    {
        out.push(silence);
        proof {
            assert(out@ =~= Seq::new((i + 1) as nat, |k: int| silence));
        }
        i += 1;
    }
    out
}

impl<S: Copy> TickAdapter<S> {
    /// Channels of every frame.
    pub closed spec fn width(&self) -> int {
        self.channels as int
    }

    /// Frames of a tick.
    pub closed spec fn tick_frames(&self) -> int {
        self.block as int
    }

    /// The silent sample.
    pub closed spec fn silent_sample(&self) -> S {
        self.silence
    }

    spec fn ring_frames(&self) -> int {
        2 * self.block + 1
    }

    spec fn waiting(&self) -> int {
        if self.write >= self.read {
            self.write - self.read
        } else {
            self.write - self.read + self.ring_frames()
        }
    }

    /// The buffers have their sizes and the positions lie within them.
    pub closed spec fn wf(&self) -> bool {
        &&& self.channels > 0
        &&& self.block > 0
        &&& self.block <= u32::MAX
        &&& self.in_buf@.len() == self.block * self.channels
        &&& self.ring@.len() == (2 * self.block + 1) * self.channels
        &&& self.ring@.len() <= usize::MAX
        &&& self.in_fill <= self.block
        &&& self.read < self.ring_frames()
        &&& self.write < self.ring_frames()
    }

    proof fn lemma_sizes(&self)
        requires
            self.wf(),
        ensures
            2 * self.block + 1 <= usize::MAX,
            self.block * self.channels <= usize::MAX,
    {
        let block = self.block as int;
        let channels = self.channels as int;
        assert(block * channels <= (2 * block + 1) * channels) by (nonlinear_arith)
            requires
                block >= 0,
                channels >= 0,
        ;
        assert(2 * block + 1 <= (2 * block + 1) * channels) by (nonlinear_arith)
            requires
                block >= 0,
                channels >= 1,
        ;
    }

    /// Between frames: what waits for output and what waits for a tick make
    /// up one tick.
    pub open spec fn ready(&self) -> bool {
        &&& self.wf()
        &&& self@.queue.len() + self@.partial.len() == self.tick_frames()
        &&& self@.partial.len() < self.tick_frames()
    }

    /// Within a frame: the input is in, the output not yet out.
    pub open spec fn fed(&self) -> bool {
        &&& self.wf()
        &&& self@.queue.len() + self@.partial.len() == self.tick_frames() + 1
    }

    /// An adapter for `channels` channels, at least one, and ticks of `block`
    /// frames, at least one. It starts out with one tick of silence.
    pub fn new(channels: usize, block: usize, silence: S) -> (r: Self)
        requires
            block <= u32::MAX,
            (2 * block + 3) * (channels + 1) <= usize::MAX,
        ensures
            r.ready(),
            r.width() == (if channels == 0 {
                1
            } else {
                channels as int
            }),
            r.tick_frames() == (if block == 0 {
                1
            } else {
                block as int
            }),
            r.silent_sample() == silence,
            r@.partial == Seq::<Seq<S>>::empty(),
            r@.queue == Seq::new(
                r.tick_frames() as nat,
                |i: int| Seq::new(r.width() as nat, |c: int| silence),
            ),
    {
        let ch: usize = if channels == 0 {
            1
        } else {
            channels
        };
        let b: usize = if block == 0 {
            1
        } else {
            block
        };
        proof {
            assert((2 * b + 1) * ch <= (2 * block + 3) * (channels + 1)) by (nonlinear_arith)
                requires
                    b <= block + 1,
                    ch <= channels + 1,
                    b >= 0,
                    ch >= 0,
            ;
            assert(b * ch <= (2 * b + 1) * ch) by (nonlinear_arith)
                requires
                    b >= 0,
                    ch >= 0,
            ;
            assert(2 * b + 1 <= (2 * b + 1) * ch) by (nonlinear_arith)
                requires
                    b >= 0,
                    ch >= 1,
            ;
        }
        let in_buf = silent(silence, b * ch);
        let ring = silent(silence, (2 * b + 1) * ch);
        let r = TickAdapter {
            channels: ch,
            block: b,
            silence,
            in_buf,
            in_fill: 0,
            ring,
            read: 0,
            write: b,
        };
        proof {
            assert(r@.partial =~= Seq::empty());
            assert forall|i: int| 0 <= i < b implies (#[trigger] r@.queue[i]) == Seq::new(
                ch as nat,
                |c: int| silence,
            ) by {
                assert forall|c: int|
                    #![trigger r.ring@[i * ch + c]]
                    0 <= c < ch implies r.ring@[i * ch + c] == silence by {
                    lemma_slot(i, c, 2 * b + 1, ch as int);
                }
                assert(r@.queue[i] =~= Seq::new(ch as nat, |c: int| silence));
            }
            assert(r@.queue =~= Seq::new(b as nat, |i: int| Seq::new(ch as nat, |c: int| silence)));
        }
        r
    }

    /// The constant delay the adapter adds, in frames.
    pub fn latency_frames(&self) -> (r: u32)
        requires
            self.wf(),
        ensures
            r == self.tick_frames(),
    {
        self.block as u32
    }

    /// Take one frame of input. The result says whether a tick is full and
    /// has to be run before output can be had.
    pub fn feed(&mut self, frame: &[S]) -> (due: bool)
        requires
            old(self).ready(),
        ensures
            final(self).fed(),
            final(self).width() == old(self).width(),
            final(self).tick_frames() == old(self).tick_frames(),
            final(self).silent_sample() == old(self).silent_sample(),
            final(self)@.queue == old(self)@.queue,
            final(self)@.partial == old(self)@.partial.push(
                fitted(frame@, old(self).width(), old(self).silent_sample()),
            ),
            due <==> final(self)@.partial.len() == old(self).tick_frames(),
    {
        let ch: usize = self.channels;
        let at: usize = self.in_fill;
        let ghost wanted = fitted(frame@, ch as int, self.silence);
        let mut c: usize = 0;
        while c < ch
            invariant
                self.wf(),
                self.channels == ch,
                self.channels == old(self).channels,
                self.block == old(self).block,
                self.silence == old(self).silence,
                self.in_fill == at,
                at < self.block,
                self.in_fill == old(self).in_fill,
                self.ring@ == old(self).ring@,
                self.read == old(self).read,
                self.write == old(self).write,
                wanted == fitted(frame@, ch as int, self.silence),
                c <= ch,
                forall|k: int| 0 <= k < c ==> self.in_buf@[at * ch + k] == #[trigger] wanted[k],
                forall|i: int, k: int|
                    #![trigger self.in_buf@[i * ch + k]]
                    0 <= i < at && 0 <= k < ch ==> self.in_buf@[i * ch + k] == old(self).in_buf@[i * ch + k],
            decreases ch - c,
        {
            let sample: S = if c < frame.len() {
                frame[c]
            } else {
                self.silence
            };
            proof {
                lemma_slot(at as int, c as int, self.block as int, ch as int);
                self.lemma_sizes();
                lemma_mul_inequality(0, at as int, ch as int);
                assert(wanted[c as int] == sample);
            }
            let slot: usize = at * ch + c;
            let ghost before = self.in_buf@;
            self.in_buf[slot] = sample;
            proof {
                assert forall|k: int| 0 <= k < c + 1 implies self.in_buf@[at * ch + k]
                    == #[trigger] wanted[k] by {
                    lemma_slot(at as int, k, self.block as int, ch as int);
                }
                assert forall|i: int, k: int|
                    #![trigger self.in_buf@[i * ch + k]]
                    0 <= i < at && 0 <= k < ch implies self.in_buf@[i * ch + k] == old(self).in_buf@[i * ch + k] by {
                    lemma_slot(i, k, self.block as int, ch as int);
                    lemma_slots_differ(i, k, at as int, c as int, ch as int);
                }
            }
            c += 1;
        }
        let ghost buf = self.in_buf@;
        self.in_fill = at + 1;
        proof {
            assert(self@.partial =~= old(self)@.partial.push(wanted)) by {
                assert forall|i: int| 0 <= i < at + 1 implies (#[trigger] self@.partial[i])
                    == old(self)@.partial.push(wanted)[i] by {
                    if i < at {
                        assert(frame_of(buf, i, ch as int) =~= frame_of(
                            old(self).in_buf@,
                            i,
                            ch as int,
                        ));
                    } else {
                        assert(frame_of(buf, i, ch as int) =~= wanted);
                    }
                }
            }
            assert(self@.queue =~= old(self)@.queue);
        }
        self.in_fill == self.block
    }

    /// The full tick, interleaved.
    pub fn input(&self) -> (r: &Vec<S>)
        requires
            self.wf(),
        ensures
            r@.len() == self.tick_frames() * self.width(),
            self@.partial.len() == self.tick_frames() ==> frames_of(
                r@,
                self.tick_frames(),
                self.width(),
            ) == self@.partial,
    {
        &self.in_buf
    }

    /// Take the output of a full tick, interleaved.
    pub fn absorb(&mut self, tick: &[S])
        requires
            old(self).fed(),
            old(self)@.partial.len() == old(self).tick_frames(),
            tick@.len() == old(self).tick_frames() * old(self).width(),
        ensures
            final(self).fed(),
            final(self).width() == old(self).width(),
            final(self).tick_frames() == old(self).tick_frames(),
            final(self).silent_sample() == old(self).silent_sample(),
            final(self)@.partial == Seq::<Seq<S>>::empty(),
            final(self)@.queue == old(self)@.queue + frames_of(
                tick@,
                old(self).tick_frames(),
                old(self).width(),
            ),
    {
        self.in_fill = 0;
        let block: usize = self.block;
        let mut f: usize = 0;
        proof {
            assert(frames_of(tick@, 0, self.channels as int) =~= Seq::empty());
            assert(old(self)@.queue + frames_of(tick@, 0, self.channels as int)
                =~= self@.queue);
        }
        while f < block
            invariant
                self.wf(),
                self.in_fill == 0,
                self.block == block,
                self.block == old(self).block,
                self.channels == old(self).channels,
                self.silence == old(self).silence,
                f <= block,
                tick@.len() == block * self.channels,
                old(self)@.queue.len() == 1,
                self@.queue == old(self)@.queue + frames_of(
                    tick@,
                    f as int,
                    self.channels as int,
                ),
            decreases block - f,
        {
            self.push_frame(tick, f);
            proof {
                assert(frames_of(tick@, f + 1, self.channels as int) =~= frames_of(
                    tick@,
                    f as int,
                    self.channels as int,
                ).push(frame_of(tick@, f as int, self.channels as int)));
                assert(self@.queue =~= old(self)@.queue + frames_of(
                    tick@,
                    f + 1,
                    self.channels as int,
                ));
            }
            f += 1;
        }
        proof {
            assert(self@.partial =~= Seq::empty());
        }
    }

    fn push_frame(&mut self, tick: &[S], f: usize)
        requires
            old(self).wf(),
            f < old(self).block,
            tick@.len() == old(self).block * old(self).channels,
            old(self)@.queue.len() < 2 * old(self).block,
        ensures
            final(self).wf(),
            final(self).channels == old(self).channels,
            final(self).block == old(self).block,
            final(self).silence == old(self).silence,
            final(self).in_fill == old(self).in_fill,
            final(self).in_buf@ == old(self).in_buf@,
            final(self)@.queue == old(self)@.queue.push(
                frame_of(tick@, f as int, old(self).channels as int),
            ),
    {
        let ch: usize = self.channels;
        let at: usize = self.write;
        let ghost size = self.ring_frames();
        let mut c: usize = 0;
        while c < ch
            invariant
                self.wf(),
                self.channels == ch,
                self.channels == old(self).channels,
                self.block == old(self).block,
                self.silence == old(self).silence,
                self.in_fill == old(self).in_fill,
                self.in_buf@ == old(self).in_buf@,
                self.read == old(self).read,
                self.write == old(self).write,
                self.write == at,
                size == self.ring_frames(),
                f < self.block,
                tick@.len() == self.block * ch,
                c <= ch,
                forall|k: int|
                    #![trigger self.ring@[at * ch + k]]
                    0 <= k < c ==> self.ring@[at * ch + k] == tick@[f * ch + k],
                forall|i: int, k: int|
                    #![trigger self.ring@[i * ch + k]]
                    0 <= i < size && i != at && 0 <= k < ch ==> self.ring@[i * ch + k] == old(self).ring@[i * ch + k],
            decreases ch - c,
        {
            proof {
                lemma_slot(at as int, c as int, size, ch as int);
                lemma_slot(f as int, c as int, self.block as int, ch as int);
                lemma_mul_inequality(0, at as int, ch as int);
                lemma_mul_inequality(0, f as int, ch as int);
                self.lemma_sizes();
            }
            let from: usize = f * ch + c;
            let to: usize = at * ch + c;
            let ghost before = self.ring@;
            self.ring[to] = tick[from];
            proof {
                assert forall|k: int|
                    #![trigger self.ring@[at * ch + k]]
                    0 <= k < c + 1 implies self.ring@[at * ch + k] == tick@[f * ch + k] by {
                    lemma_slot(at as int, k, size, ch as int);
                    if k < c {
                        lemma_slots_differ(at as int, k, at as int, c as int, ch as int);
                        assert(before[at * ch + k] == tick@[f * ch + k]);
                    }
                }
                assert forall|i: int, k: int|
                    #![trigger self.ring@[i * ch + k]]
                    0 <= i < size && i != at && 0 <= k < ch implies self.ring@[i * ch + k] == old(self).ring@[i * ch + k] by {
                    lemma_slot(i, k, size, ch as int);
                    lemma_slots_differ(i, k, at as int, c as int, ch as int);
                    assert(before[i * ch + k] == old(self).ring@[i * ch + k]);
                }
            }
            c += 1;
        }
        let ghost ring = self.ring@;
        proof {
            self.lemma_sizes();
        }
        let frames: usize = 2 * self.block + 1;
        self.write = if at + 1 == frames {
            0
        } else {
            at + 1
        };
        proof {
            let n = old(self).waiting();
            assert(old(self)@.queue.len() == n);
            assert(self.waiting() == n + 1);
            assert forall|i: int| 0 <= i < n + 1 implies (#[trigger] self@.queue[i]) == old(self)@.queue.push(frame_of(tick@, f as int, ch as int))[i] by {
                let slot = around(self.read as int, i, size);
                assert(0 <= slot < size);
                if i < n {
                    assert(slot != at);
                    assert(frame_of(ring, slot, ch as int) =~= frame_of(
                        old(self).ring@,
                        slot,
                        ch as int,
                    ));
                } else {
                    assert(slot == at);
                    assert(frame_of(ring, slot, ch as int) =~= frame_of(
                        tick@,
                        f as int,
                        ch as int,
                    ));
                }
            }
            assert(self@.queue =~= old(self)@.queue.push(frame_of(tick@, f as int, ch as int)));
        }
    }

    /// Give one frame of output. Samples beyond the adapter's channels are
    /// left alone.
    pub fn pull(&mut self, out: &mut [S])
        requires
            old(self).fed(),
            old(self)@.partial.len() < old(self).tick_frames(),
        ensures
            final(self).ready(),
            final(self).width() == old(self).width(),
            final(self).tick_frames() == old(self).tick_frames(),
            final(self).silent_sample() == old(self).silent_sample(),
            final(self)@.partial == old(self)@.partial,
            final(self)@.queue == old(self)@.queue.drop_first(),
            final(out)@.len() == old(out)@.len(),
            forall|c: int|
                0 <= c < old(out)@.len() ==> (#[trigger] final(out)@[c]) == (if c < old(self).width() {
                    old(self)@.queue[0][c]
                } else {
                    old(out)@[c]
                }),
    {
        let ch: usize = self.channels;
        let at: usize = self.read;
        let ghost size = self.ring_frames();
        let mut c: usize = 0;
        while c < ch && c < out.len()
            invariant
                self.wf(),
                *self == *old(self),
                self.channels == ch,
                self.read == at,
                size == self.ring_frames(),
                out@.len() == old(out)@.len(),
                c <= ch,
                c <= out@.len(),
                forall|k: int|
                    0 <= k < c ==> (#[trigger] out@[k]) == self.ring@[at * ch + k],
                forall|k: int| c <= k < out@.len() ==> (#[trigger] out@[k]) == old(out)@[k],
            decreases ch - c,
        {
            proof {
                lemma_slot(at as int, c as int, size, ch as int);
                lemma_mul_inequality(0, at as int, ch as int);
            }
            out[c] = self.ring[at * ch + c];
            c += 1;
        }
        proof {
            assert(self@.queue[0] == frame_of(self.ring@, at as int, ch as int));
        }
        proof {
            self.lemma_sizes();
        }
        let frames: usize = 2 * self.block + 1;
        self.read = if at + 1 == frames {
            0
        } else {
            at + 1
        };
        proof {
            let n = old(self).waiting();
            assert(self.waiting() == n - 1);
            assert forall|i: int| 0 <= i < n - 1 implies (#[trigger] self@.queue[i]) == old(self)@.queue[i + 1] by {
                assert(around(self.read as int, i, size) == around(at as int, i + 1, size));
            }
            assert(self@.queue =~= old(self)@.queue.drop_first());
            assert(self@.partial =~= old(self)@.partial);
        }
    }
}

/// The shortest of some channels, which is how many frames can be processed;
/// 0 if there is no channel.
pub open spec fn shortest(lens: Seq<usize>) -> usize
    decreases lens.len(),
{
    if lens.len() == 0 {
        0
    } else if lens.len() == 1 {
        lens[0]
    } else if lens.last() < shortest(lens.drop_last()) {
        lens.last()
    } else {
        shortest(lens.drop_last())
    }
}

/// How many frames channels of these lengths have in common.
pub fn common_frames(lens: &[usize]) -> (r: usize)
    ensures
        r == shortest(lens@),
{
    if lens.len() == 0 {
        return 0;
    }
    let mut r: usize = lens[0];
    let mut i: usize = 1;
    proof {
        assert(lens@.take(1).len() == 1);
    }
    while i < lens.len()
        invariant
            1 <= i <= lens@.len(),
            r == shortest(lens@.take(i as int)),
        decreases lens.len() - i,
    {
        proof {
            assert(lens@.take(i + 1).drop_last() =~= lens@.take(i as int));
        }
        if lens[i] < r {
            r = lens[i];
        }
        i += 1;
    }
    proof {
        assert(lens@.take(i as int) =~= lens@);
    }
    r
}

/// What a DSP makes of tick number `k`, given the tick's input frames.
pub type TickFn<S> = spec_fn(int, Seq<Seq<S>>) -> Seq<Seq<S>>;

/// The state after `n` frames of `xs` went through, and the frame that came
/// out last.
pub open spec fn after<S>(
    start: TickState<S>,
    block: int,
    xs: spec_fn(int) -> Seq<S>,
    tick: TickFn<S>,
    n: nat,
) -> (TickState<S>, Seq<S>)
    decreases n,
{
    if n == 0 {
        (start, Seq::empty())
    } else {
        let before = after(start, block, xs, tick, (n - 1) as nat).0;
        let partial = before.partial.push(xs(n - 1));
        let full = partial.len() == block;
        let queue = if full {
            before.queue + tick((n - 1) / block, partial)
        } else {
            before.queue
        };
        (
            TickState {
                queue: queue.drop_first(),
                partial: if full {
                    Seq::empty()
                } else {
                    partial
                },
            },
            queue[0],
        )
    }
}

/// The input frames of tick `k`.
pub open spec fn tick_input<S>(xs: spec_fn(int) -> Seq<S>, block: int, k: int) -> Seq<Seq<S>> {
    Seq::new(block as nat, |i: int| xs(k * block + i))
}

/// What comes out as frame `i`: silence for one tick, then the ticks' output
/// in order.
pub open spec fn stream<S>(
    silence: Seq<S>,
    block: int,
    xs: spec_fn(int) -> Seq<S>,
    tick: TickFn<S>,
    i: int,
) -> Seq<S> {
    if i < block {
        silence
    } else {
        tick((i - block) / block, tick_input(xs, block, (i - block) / block))[(i - block) % block]
    }
}

proof fn lemma_next_frame(n: int, block: int)
    requires
        0 <= n,
        0 < block,
    ensures
        n % block + 1 < block ==> (n + 1) / block == n / block && (n + 1) % block == n % block + 1,
        n % block + 1 == block ==> (n + 1) / block == n / block + 1 && (n + 1) % block == 0,
        0 <= n % block < block,
        n == (n / block) * block + n % block,
{
    lemma_fundamental_div_mod(n, block);
    lemma_mod_bound(n, block);
    assert((n / block) * block == block * (n / block)) by (nonlinear_arith);
    if n % block + 1 < block {
        lemma_fundamental_div_mod_converse(n + 1, block, n / block, n % block + 1);
    } else {
        lemma_mul_is_distributive_add(block, n / block, 1);
        lemma_fundamental_div_mod_converse(n + 1, block, n / block + 1, 0);
    }
}

/// What holds after `n` frames: the frames of the unfinished tick wait for
/// it, and the next frames of the output stream wait to be read.
spec fn on_course<S>(
    state: TickState<S>,
    silence: Seq<S>,
    block: int,
    xs: spec_fn(int) -> Seq<S>,
    tick: TickFn<S>,
    n: int,
) -> bool {
    &&& state.partial.len() == n % block
    &&& forall|i: int|
        0 <= i < n % block ==> (#[trigger] state.partial[i]) == xs((n / block) * block + i)
    &&& state.queue.len() == block - n % block
    &&& forall|i: int|
        0 <= i < state.queue.len() ==> (#[trigger] state.queue[i]) == stream(
            silence,
            block,
            xs,
            tick,
            n + i,
        )
}

proof fn lemma_on_course<S>(
    start: TickState<S>,
    silence: Seq<S>,
    block: int,
    xs: spec_fn(int) -> Seq<S>,
    tick: TickFn<S>,
    n: nat,
)
    requires
        0 < block,
        start.partial.len() == 0,
        start.queue == Seq::new(block as nat, |i: int| silence),
        forall|k: int, input: Seq<Seq<S>>| (#[trigger] tick(k, input)).len() == block,
    ensures
        on_course(after(start, block, xs, tick, n).0, silence, block, xs, tick, n as int),
        n > 0 ==> after(start, block, xs, tick, n).1 == stream(silence, block, xs, tick, n - 1),
    decreases n,
{
    if n == 0 {
        lemma_small_mod(0, block as nat);
        lemma_mul_basics(block);
    } else {
        let m = (n - 1) as int;
        lemma_on_course(start, silence, block, xs, tick, m as nat);
        lemma_next_frame(m, block);
        let before = after(start, block, xs, tick, m as nat).0;
        let partial = before.partial.push(xs(m));
        let (state, out) = after(start, block, xs, tick, n);
        let k = m / block;
        let r = m % block;
        assert(partial.len() == r + 1);
        if partial.len() == block {
            assert(partial =~= tick_input(xs, block, k));
            let given = tick(k, partial);
            let queue = before.queue + given;
            assert forall|i: int| 0 <= i < queue.len() implies (#[trigger] queue[i]) == stream(
                silence,
                block,
                xs,
                tick,
                m + i,
            ) by {
                if i == 0 {
                    assert(queue[0] == before.queue[0]);
                } else {
                    let j = m + i - block;
                    assert(j == k * block + (i - 1)) by {
                        assert(m == k * block + r);
                    }
                    assert(k * block == block * k) by (nonlinear_arith);
                    lemma_fundamental_div_mod_converse(j, block, k, i - 1);
                    assert(m + i >= block) by {
                        lemma_mul_inequality(0, k, block);
                    }
                    assert(queue[i] == given[i - 1]);
                }
            }
            assert(state.queue =~= queue.drop_first());
            assert forall|i: int| 0 <= i < state.queue.len() implies (#[trigger] state.queue[i])
                == stream(silence, block, xs, tick, n + i) by {
                assert(state.queue[i] == queue[i + 1]);
            }
        } else {
            assert forall|i: int| 0 <= i < state.queue.len() implies (#[trigger] state.queue[i])
                == stream(silence, block, xs, tick, n + i) by {
                assert(state.queue[i] == before.queue[i + 1]);
            }
            assert forall|i: int| 0 <= i < n as int % block implies (#[trigger] state.partial[i])
                == xs((n as int / block) * block + i) by {
                if i < r {
                    assert(state.partial[i] == before.partial[i]);
                }
            }
            assert(before.queue[0] == stream(silence, block, xs, tick, m + 0));
        }
    }
}

/// The delay is constant: whatever the sizes of the host's blocks, what comes
/// out as frame `i` is silence for the first tick, and from then on exactly
/// what the DSP made of the frame that went in one tick earlier. There is
/// always a frame to read.
pub proof fn law_the_delay_is_one_tick<S>(
    start: TickState<S>,
    silence: Seq<S>,
    block: int,
    xs: spec_fn(int) -> Seq<S>,
    tick: TickFn<S>,
    i: nat,
)
    requires
        0 < block,
        start.partial.len() == 0,
        start.queue == Seq::new(block as nat, |k: int| silence),
        forall|k: int, input: Seq<Seq<S>>| (#[trigger] tick(k, input)).len() == block,
    ensures
        after(start, block, xs, tick, i + 1).1 == stream(silence, block, xs, tick, i as int),
        after(start, block, xs, tick, i).0.queue.len() > 0,
{
    lemma_on_course(start, silence, block, xs, tick, i + 1);
    lemma_on_course(start, silence, block, xs, tick, i);
    lemma_mod_bound(i as int, block);
}

/// A frame of a buffer is its channels side by side, and frame follows frame.
pub proof fn law_frames_lie_side_by_side<S>(buf: Seq<S>, n: int, channels: int, i: int, c: int)
    requires
        0 <= i < n,
        0 <= c < channels,
    ensures
        frames_of(buf, n, channels).len() == n,
        frames_of(buf, n, channels)[i].len() == channels,
        frames_of(buf, n, channels)[i][c] == buf[i * channels + c],
        frame_of(buf, i, channels).len() == channels,
        frame_of(buf, i, channels)[c] == buf[i * channels + c],
{
}

/// A frame is fitted by cutting what is too much and filling up with silence.
pub proof fn law_frames_are_cut_or_filled_up<S>(frame: Seq<S>, channels: int, silence: S, c: int)
    requires
        0 <= c < channels,
    ensures
        fitted(frame, channels, silence).len() == channels,
        c < frame.len() ==> fitted(frame, channels, silence)[c] == frame[c],
        c >= frame.len() ==> fitted(frame, channels, silence)[c] == silence,
{
}

/// The common number of frames is the smallest of all lengths, and none where
/// there is no length.
pub proof fn law_the_shortest_length_counts(lens: Seq<usize>, i: int)
    ensures
        lens.len() == 0 ==> shortest(lens) == 0,
        lens.len() > 0 ==> lens.contains(shortest(lens)),
        0 <= i < lens.len() ==> shortest(lens) <= lens[i],
    decreases lens.len(),
{
    if lens.len() == 1 {
        assert(lens[0] == shortest(lens));
    } else if lens.len() > 1 {
        let rest = lens.drop_last();
        law_the_shortest_length_counts(rest, i);
        assert(lens[lens.len() - 1] == lens.last());
        if shortest(lens) == shortest(rest) {
            let j = rest.index_of(shortest(rest));
            assert(lens[j] == rest[j]);
        }
        if 0 <= i < rest.len() {
            assert(rest[i] == lens[i]);
        }
    }
}

/// Between frames, what waits to be played and what was gathered make up one
/// tick, so that the next frame can always be played.
pub proof fn law_a_frame_always_waits<S: Copy>(adapter: TickAdapter<S>)
    requires
        adapter.ready() || adapter.fed(),
    ensures
        adapter.ready() ==> adapter@.queue.len() == adapter.tick_frames() - adapter@.partial.len()
            && adapter@.queue.len() > 0,
        !adapter.ready() ==> adapter@.queue.len() == adapter.tick_frames() + 1
            - adapter@.partial.len(),
{
}

} // verus!
