//! Sample-accurate blocks: host automation is staged, ordered by time, and
//! the block is split at event times so that every change lands exactly where
//! the host put it.
use vstd::prelude::*;

use crate::params;
use crate::params::{find_param, ParamDef};

verus! {

/// Timed parameter events one block may carry before the excess is dropped.
pub const PARAM_EVENT_CAPACITY: usize = 256;

/// A parameter change at a frame of the block.
#[derive(Clone, Copy, PartialEq, Eq, Structural, Debug)]
pub struct ParamEvent {
    /// The frame.
    pub time: u32,
    /// The parameter.
    pub id: u32,
    /// The new value, as bits.
    pub value: u64,
}

/// What became of an offered event.
#[derive(Clone, Copy, PartialEq, Eq, Structural, Debug)]
pub enum Staged {
    /// It waits for the block.
    Kept,
    /// It names no declared parameter.
    Ignored,
    /// There was no room; this is to be counted.
    Dropped,
}

/// `time`, but no later than the end of the block.
pub open spec fn within(time: int, frames: u32) -> u32 {
    if time > frames {
        frames
    } else {
        time as u32
    }
}

/// An event goes behind all events that are not later than it.
pub open spec fn inserted(s: Seq<ParamEvent>, e: ParamEvent) -> Seq<ParamEvent>
    decreases s.len(),
{
    if s.len() == 0 || s.last().time <= e.time {
        s.push(e)
    } else {
        inserted(s.drop_last(), e).push(s.last())
    }
}

/// Events in order of time; those of one time stay in the order they came.
pub open spec fn by_time(s: Seq<ParamEvent>) -> Seq<ParamEvent>
    decreases s.len(),
{
    if s.len() == 0 {
        s
    } else {
        inserted(by_time(s.drop_last()), s.last())
    }
}

/// Whether events are in order of time.
pub open spec fn is_ordered(s: Seq<ParamEvent>) -> bool {
    forall|i: int, j: int| 0 <= i <= j < s.len() ==> (#[trigger] s[i]).time <= (#[trigger] s[j]).time
}

/// The events at one time.
pub open spec fn at_time(s: Seq<ParamEvent>, t: u32) -> Seq<ParamEvent> {
    s.filter(|e: ParamEvent| e.time == t)
}

proof fn lemma_inserted_len(s: Seq<ParamEvent>, e: ParamEvent)
    ensures
        inserted(s, e).len() == s.len() + 1,
    decreases s.len(),
{
    if !(s.len() == 0 || s.last().time <= e.time) {
        lemma_inserted_len(s.drop_last(), e);
    }
}

proof fn lemma_by_time_len(s: Seq<ParamEvent>)
    ensures
        by_time(s).len() == s.len(),
    decreases s.len(),
{
    if s.len() > 0 {
        lemma_by_time_len(s.drop_last());
        lemma_inserted_len(by_time(s.drop_last()), s.last());
    }
}

proof fn lemma_inserted_last(s: Seq<ParamEvent>, e: ParamEvent)
    requires
        is_ordered(s),
    ensures
        is_ordered(inserted(s, e)),
        forall|i: int|
            0 <= i < inserted(s, e).len() ==> (#[trigger] inserted(s, e)[i]).time <= e.time || (
            s.len() > 0 && inserted(s, e)[i].time <= s.last().time),
    decreases s.len(),
{
    lemma_inserted_len(s, e);
    let r = inserted(s, e);
    if s.len() == 0 || s.last().time <= e.time {
        assert forall|i: int, j: int| 0 <= i <= j < r.len() implies (#[trigger] r[i]).time <= (
        #[trigger] r[j]).time by {
            if j == s.len() && i < s.len() {
                assert(s[i].time <= s[s.len() - 1].time);
            }
        }
        assert forall|i: int| 0 <= i < r.len() implies (#[trigger] r[i]).time <= e.time || (
        s.len() > 0 && r[i].time <= s.last().time) by {
            if i < s.len() {
                assert(s[i].time <= s[s.len() - 1].time);
            }
        }
    } else {
        let rest = s.drop_last();
        assert forall|i: int, j: int| 0 <= i <= j < rest.len() implies (#[trigger] rest[i]).time
            <= (#[trigger] rest[j]).time by {
            assert(s[i].time <= s[j].time);
        }
        lemma_inserted_len(rest, e);
        lemma_inserted_last(rest, e);
        let front = inserted(rest, e);
        assert(rest.len() > 0 ==> rest.last().time <= s.last().time) by {
            if rest.len() > 0 {
                assert(s[rest.len() - 1].time <= s[s.len() - 1].time);
            }
        }
        assert forall|i: int| 0 <= i < front.len() implies (#[trigger] front[i]).time
            <= s.last().time by {}
        assert forall|i: int, j: int| 0 <= i <= j < r.len() implies (#[trigger] r[i]).time <= (
        #[trigger] r[j]).time by {
            if j < front.len() {
                assert(front[i].time <= front[j].time);
            } else if i < front.len() {
                assert(front[i].time <= s.last().time);
            }
        }
        assert forall|i: int| 0 <= i < r.len() implies (#[trigger] r[i]).time <= e.time || (
        s.len() > 0 && r[i].time <= s.last().time) by {
            if i < front.len() {
                assert(front[i].time <= s.last().time);
            }
        }
    }
}

proof fn lemma_inserted_at_time(s: Seq<ParamEvent>, e: ParamEvent, t: u32)
    ensures
        at_time(inserted(s, e), t) == at_time(s.push(e), t),
    decreases s.len(),
{
    let keep = |x: ParamEvent| x.time == t;
    reveal(Seq::filter);
    if !(s.len() == 0 || s.last().time <= e.time) {
        let rest = s.drop_last();
        lemma_inserted_len(rest, e);
        lemma_inserted_at_time(rest, e, t);
        let r = inserted(s, e);
        assert(r.drop_last() =~= inserted(rest, e));
        assert(rest.push(e).drop_last() =~= rest);
        assert(s.push(e).drop_last() =~= s);
        let a = rest.filter(keep);
        assert(s.filter(keep) == if keep(s.last()) {
            a.push(s.last())
        } else {
            a
        });
        assert(rest.push(e).filter(keep) == if keep(e) {
            a.push(e)
        } else {
            a
        });
        assert(r.filter(keep) == if keep(s.last()) {
            rest.push(e).filter(keep).push(s.last())
        } else {
            rest.push(e).filter(keep)
        });
        assert(s.push(e).filter(keep) == if keep(e) {
            s.filter(keep).push(e)
        } else {
            s.filter(keep)
        });
        assert(!(keep(e) && keep(s.last())));
    }
}

/// Ordering puts events in order of time, loses none, invents none, and
/// keeps events of one time in the order they came.
pub proof fn law_ordering_is_faithful(s: Seq<ParamEvent>, t: u32)
    ensures
        by_time(s).len() == s.len(),
        is_ordered(by_time(s)),
        at_time(by_time(s), t) == at_time(s, t),
    decreases s.len(),
{
    lemma_by_time_len(s);
    if s.len() > 0 {
        let rest = s.drop_last();
        law_ordering_is_faithful(rest, t);
        lemma_inserted_last(by_time(rest), s.last());
        lemma_inserted_at_time(by_time(rest), s.last(), t);
        let keep = |x: ParamEvent| x.time == t;
        reveal(Seq::filter);
        assert(by_time(rest).push(s.last()).drop_last() =~= by_time(rest));
    }
}

proof fn lemma_inserted_split(s: Seq<ParamEvent>, e: ParamEvent, j: int)
    requires
        0 <= j <= s.len(),
        forall|k: int| j <= k < s.len() ==> (#[trigger] s[k]).time > e.time,
    ensures
        inserted(s, e) == inserted(s.take(j), e) + s.skip(j),
    decreases s.len() - j,
{
    if j == s.len() {
        assert(s.take(j) =~= s);
        assert(s.skip(j) =~= Seq::empty());
        assert(inserted(s, e) + Seq::empty() =~= inserted(s, e));
    } else {
        lemma_inserted_split(s, e, j + 1);
        let t = s.take(j + 1);
        assert(t.last() == s[j]);
        assert(t.drop_last() =~= s.take(j));
        assert(inserted(t, e) == inserted(s.take(j), e).push(s[j]));
        assert(inserted(s.take(j), e).push(s[j]) + s.skip(j + 1) =~= inserted(s.take(j), e)
            + s.skip(j));
    }
}

/// The events staged for a block. Capacity is fixed; nothing allocates after
/// construction.
#[derive(Debug)]
pub struct EventStage {
    events: Vec<ParamEvent>,
    capacity: usize,
}

impl View for EventStage {
    type V = Seq<ParamEvent>;

    closed spec fn view(&self) -> Seq<ParamEvent> {
        self.events@
    }
}

impl EventStage {
    /// How many events fit.
    pub closed spec fn room(&self) -> usize {
        self.capacity
    }

    /// Room for `capacity` events.
    pub fn with_capacity(capacity: usize) -> (r: Self)
        ensures
            r@ == Seq::<ParamEvent>::empty(),
            r.room() == capacity,
    {
        EventStage { events: Vec::with_capacity(capacity), capacity }
    }

    /// Forget the last block's events.
    pub fn clear(&mut self)
        ensures
            final(self)@ == Seq::<ParamEvent>::empty(),
            final(self).room() == old(self).room(),
    {
        self.events.clear();
    }

    /// Stage an event from a time-ordered host list. Room is checked before
    /// the parameter is.
    pub fn collect_param_event(&mut self, defs: &[ParamDef], frames: u32, event: ParamEvent) -> (r:
        Staged)
        ensures
            final(self).room() == old(self).room(),
            r == (if old(self)@.len() >= old(self).room() {
                Staged::Dropped
            } else if params::declares(defs@, event.id) {
                Staged::Kept
            } else {
                Staged::Ignored
            }),
            final(self)@ == (if r is Kept {
                old(self)@.push(
                    ParamEvent { time: within(event.time as int, frames), ..event },
                )
            } else {
                old(self)@
            }),
    {
        if self.events.len() >= self.capacity {
            return Staged::Dropped;
        }
        if find_param(defs, event.id).is_none() {
            return Staged::Ignored;
        }
        let time: u32 = if event.time > frames {
            frames
        } else {
            event.time
        };
        self.events.push(ParamEvent { time, id: event.id, value: event.value });
        Staged::Kept
    }

    /// Stage a point of one parameter's automation queue. The parameter is
    /// checked before room is, and offsets before the block count as its
    /// first frame.
    pub fn collect_param_change(
        &mut self,
        defs: &[ParamDef],
        frames: u32,
        offset: i32,
        id: u32,
        value: u64,
    ) -> (r: Staged)
        ensures
            final(self).room() == old(self).room(),
            r == (if !params::declares(defs@, id) {
                Staged::Ignored
            } else if old(self)@.len() >= old(self).room() {
                Staged::Dropped
            } else {
                Staged::Kept
            }),
            final(self)@ == (if r is Kept {
                old(self)@.push(
                    ParamEvent {
                        time: within(
                            if offset < 0 {
                                0
                            } else {
                                offset as int
                            },
                            frames,
                        ),
                        id,
                        value,
                    },
                )
            } else {
                old(self)@
            }),
    {
        if find_param(defs, id).is_none() {
            return Staged::Ignored;
        }
        if self.events.len() >= self.capacity {
            return Staged::Dropped;
        }
        let from_start: u32 = if offset < 0 {
            0
        } else {
            offset as u32
        };
        let time: u32 = if from_start > frames {
            frames
        } else {
            from_start
        };
        self.events.push(ParamEvent { time, id, value });
        Staged::Kept
    }

    /// Put the staged events in order of time.
    pub fn sort(&mut self)
        ensures
            final(self)@ == by_time(old(self)@),
            final(self).room() == old(self).room(),
    {
        let ghost all = self.events@;
        let n: usize = self.events.len();
        let mut i: usize = 0;
        proof {
            assert(all.take(0) =~= Seq::empty());
            assert(all.skip(0) =~= all);
            assert(Seq::empty() + all =~= all);
        }
        while i < n
            invariant
                n == all.len(),
                self.capacity == old(self).capacity,
                i <= n,
                self.events@.len() == n,
                self.events@ == by_time(all.take(i as int)) + all.skip(i as int),
                by_time(all.take(i as int)).len() == i,
            decreases n - i,
        {
            let ghost sorted = by_time(all.take(i as int));
            let ghost rest = all.skip(i + 1);
            let e: ParamEvent = self.events[i];
            let mut j: usize = i;
            proof {
                assert(e == all[i as int]);
                assert(sorted.take(i as int) =~= sorted);
                assert(sorted.skip(i as int) =~= Seq::empty());
                assert(self.events@ =~= sorted.take(j as int) + seq![e] + sorted.skip(j as int)
                    + rest);
            }
            while j > 0 && self.events[j - 1].time > e.time
                invariant
                    n == all.len(),
                    self.capacity == old(self).capacity,
                    i < n,
                    j <= i,
                    sorted.len() == i,
                    rest == all.skip(i + 1),
                    self.events@.len() == n,
                    self.events@ == sorted.take(j as int) + seq![e] + sorted.skip(j as int)
                        + rest,
                    forall|k: int| j <= k < i ==> (#[trigger] sorted[k]).time > e.time,
                decreases j,
            {
                let before: ParamEvent = self.events[j - 1];
                proof {
                    assert(before == sorted[j - 1]);
                }
                self.events[j] = before;
                self.events[j - 1] = e;
                j -= 1;
                proof {
                    assert(self.events@ =~= sorted.take(j as int) + seq![e] + sorted.skip(
                        j as int,
                    ) + rest);
                }
            }
            proof {
                let next = all.take(i + 1);
                assert(next.drop_last() =~= all.take(i as int));
                assert(next.last() == e);
                lemma_inserted_split(sorted, e, j as int);
                let front = sorted.take(j as int);
                assert(front.len() == 0 || front.last().time <= e.time) by {
                    if j > 0 {
                        assert(self.events@[j - 1] == sorted[j - 1]);
                        assert(front.last() == sorted[j - 1]);
                    }
                }
                assert(inserted(front, e) == front.push(e));
                assert(by_time(next) =~= front + seq![e] + sorted.skip(j as int));
                assert(self.events@ =~= by_time(next) + rest);
                lemma_by_time_len(next);
            }
            i += 1;
        }
        proof {
            assert(all.take(i as int) =~= all);
            assert(all.skip(i as int) =~= Seq::empty());
            assert(by_time(all) + Seq::empty() =~= by_time(all));
        }
    }

    /// The staged events.
    pub fn events(&self) -> (r: &Vec<ParamEvent>)
        ensures
            r@ == self@,
    {
        &self.events
    }
}

/// One step of rendering a block.
#[derive(Clone, Copy, PartialEq, Eq, Structural, Debug)]
pub enum Step {
    /// Render the frames from `start` up to, but not including, `end`.
    Render {
        /// First frame.
        start: u32,
        /// The frame after the last.
        end: u32,
    },
    /// Apply a parameter change.
    Apply {
        /// The parameter.
        id: u32,
        /// The new value, as bits.
        value: u64,
    },
}

/// The steps of a block of which `pos` frames are rendered already: render up
/// to the next event, apply it, go on; in the end render what is left.
pub open spec fn steps(events: Seq<ParamEvent>, frames: u32, pos: u32) -> Seq<Step>
    decreases events.len(), frames - pos,
{
    if events.len() == 0 {
        if pos < frames {
            seq![Step::Render { start: pos, end: frames }]
        } else {
            Seq::empty()
        }
    } else {
        let t = within(events[0].time as int, frames);
        if t > pos {
            seq![Step::Render { start: pos, end: t }] + steps(events, frames, t)
        } else {
            seq![Step::Apply { id: events[0].id, value: events[0].value }] + steps(
                events.drop_first(),
                frames,
                pos,
            )
        }
    }
}

/// How far a block has come. Hands out its steps one at a time, without
/// allocating.
#[derive(Clone, Copy, PartialEq, Eq, Structural, Debug)]
pub struct BlockPlan {
    frames: u32,
    pos: u32,
    next: usize,
}

impl BlockPlan {
    /// The steps that are left.
    pub closed spec fn left(&self, events: Seq<ParamEvent>) -> Seq<Step> {
        steps(events.skip(self.next as int), self.frames, self.pos)
    }

    /// The plan has not run past the events.
    pub closed spec fn wf(&self, events: Seq<ParamEvent>) -> bool {
        self.next <= events.len()
    }

    /// A block of `frames` frames, with nothing rendered yet.
    pub fn new(frames: u32) -> (r: Self)
        ensures
            forall|events: Seq<ParamEvent>|
                #![trigger r.left(events)]
                r.left(events) == steps(events, frames, 0) && r.wf(events),
    {
        let r = BlockPlan { frames, pos: 0, next: 0 };
        proof {
            assert forall|events: Seq<ParamEvent>|
                #![trigger r.left(events)]
                r.left(events) == steps(events, frames, 0) && r.wf(events) by {
                assert(events.skip(0) =~= events);
            }
        }
        r
    }

    /// The next step of the block.
    pub fn next_step(&mut self, events: &Vec<ParamEvent>) -> (r: Option<Step>)
        requires
            old(self).wf(events@),
        ensures
            final(self).wf(events@),
            match r {
                Some(step) => {
                    &&& old(self).left(events@).len() > 0
                    &&& step == old(self).left(events@)[0]
                    &&& final(self).left(events@) == old(self).left(events@).drop_first()
                },
                None => old(self).left(events@).len() == 0 && *final(self) == *old(self),
            },
    {
        let ghost before = self.left(events@);
        let ghost rest = events@.skip(self.next as int);
        if self.next == events.len() {
            if self.pos < self.frames {
                let start: u32 = self.pos;
                self.pos = self.frames;
                proof {
                    assert(self.left(events@) =~= before.drop_first());
                }
                return Some(Step::Render { start, end: self.frames });
            }
            return None;
        }
        let e: ParamEvent = events[self.next];
        let t: u32 = if e.time > self.frames {
            self.frames
        } else {
            e.time
        };
        proof {
            assert(rest[0] == e);
        }
        if t > self.pos {
            let start: u32 = self.pos;
            self.pos = t;
            proof {
                assert(before.drop_first() =~= self.left(events@));
            }
            Some(Step::Render { start, end: t })
        } else {
            self.next += 1;
            proof {
                assert(rest.drop_first() =~= events@.skip(self.next as int));
                assert(before.drop_first() =~= self.left(events@));
            }
            Some(Step::Apply { id: e.id, value: e.value })
        }
    }
}

/// How far the first `k` steps have come, starting at `pos`.
pub open spec fn position(plan: Seq<Step>, pos: u32, k: int) -> u32
    decreases k,
{
    if k <= 0 {
        pos
    } else {
        match plan[k - 1] {
            Step::Render { start, end } => end,
            Step::Apply { .. } => position(plan, pos, k - 1),
        }
    }
}

/// The changes among some steps.
pub open spec fn changes(plan: Seq<Step>) -> Seq<(u32, u64)>
    decreases plan.len(),
{
    if plan.len() == 0 {
        Seq::empty()
    } else {
        match plan[0] {
            Step::Apply { id, value } => seq![(id, value)] + changes(plan.drop_first()),
            Step::Render { .. } => changes(plan.drop_first()),
        }
    }
}

/// The changes that events ask for.
pub open spec fn asked(events: Seq<ParamEvent>) -> Seq<(u32, u64)> {
    Seq::new(events.len(), |i: int| (events[i].id, events[i].value))
}

proof fn lemma_position_shift(first: Step, rest: Seq<Step>, pos: u32, k: int)
    requires
        0 <= k <= rest.len(),
    ensures
        position(seq![first] + rest, pos, k + 1) == position(
            rest,
            position(seq![first] + rest, pos, 1),
            k,
        ),
    decreases k,
{
    let plan = seq![first] + rest;
    if k > 0 {
        lemma_position_shift(first, rest, pos, k - 1);
        assert(plan[k] == rest[k - 1]);
    }
}

/// The rendered pieces of a block tile it: the first starts where rendering
/// stood, each starts where the one before ended, none is empty or runs past
/// the block, and together they reach its end.
pub proof fn law_renders_tile_the_block(events: Seq<ParamEvent>, frames: u32, pos: u32, k: int)
    requires
        pos <= frames,
        0 <= k < steps(events, frames, pos).len(),
    ensures
        steps(events, frames, pos)[k] matches Step::Render { start, end } ==> start == position(
            steps(events, frames, pos),
            pos,
            k,
        ) && start < end <= frames,
        position(steps(events, frames, pos), pos, steps(events, frames, pos).len() as int)
            == frames,
    decreases events.len(), frames - pos,
{
    lemma_reaches_the_end(events, frames, pos);
    let plan = steps(events, frames, pos);
    if events.len() > 0 {
        let t = within(events[0].time as int, frames);
        if t > pos {
            let rest = steps(events, frames, t);
            assert(plan.drop_first() =~= rest);
            assert(plan =~= seq![plan[0]] + rest);
            if k > 0 {
                law_renders_tile_the_block(events, frames, t, k - 1);
                lemma_position_shift(plan[0], rest, pos, k - 1);
                assert(plan[k] == rest[k - 1]);
                assert(position(plan, pos, 1) == t);
            }
        } else {
            let rest = steps(events.drop_first(), frames, pos);
            assert(plan =~= seq![plan[0]] + rest);
            if k > 0 {
                law_renders_tile_the_block(events.drop_first(), frames, pos, k - 1);
                lemma_position_shift(plan[0], rest, pos, k - 1);
                assert(plan[k] == rest[k - 1]);
                assert(position(plan, pos, 1) == position(plan, pos, 0));
            }
        }
    }
}

proof fn lemma_reaches_the_end(events: Seq<ParamEvent>, frames: u32, pos: u32)
    requires
        pos <= frames,
    ensures
        position(steps(events, frames, pos), pos, steps(events, frames, pos).len() as int)
            == frames,
    decreases events.len(), frames - pos,
{
    let plan = steps(events, frames, pos);
    if events.len() > 0 {
        let t = within(events[0].time as int, frames);
        if t > pos {
            let rest = steps(events, frames, t);
            assert(plan =~= seq![plan[0]] + rest);
            lemma_reaches_the_end(events, frames, t);
            lemma_position_shift(plan[0], rest, pos, rest.len() as int);
            assert(position(plan, pos, 1) == t);
        } else {
            let rest = steps(events.drop_first(), frames, pos);
            assert(plan =~= seq![plan[0]] + rest);
            lemma_reaches_the_end(events.drop_first(), frames, pos);
            lemma_position_shift(plan[0], rest, pos, rest.len() as int);
            assert(position(plan, pos, 1) == position(plan, pos, 0));
        }
    }
}

/// Every staged change is applied exactly once and in order.
pub proof fn law_every_change_is_applied_once(events: Seq<ParamEvent>, frames: u32, pos: u32)
    ensures
        changes(steps(events, frames, pos)) == asked(events),
    decreases events.len(), frames - pos,
{
    let plan = steps(events, frames, pos);
    if events.len() == 0 {
        assert(asked(events) =~= Seq::empty());
        if pos < frames {
            assert(plan.drop_first() =~= Seq::empty());
            assert(changes(plan.drop_first()) == changes(Seq::<Step>::empty()));
        }
        assert(changes(Seq::<Step>::empty()) =~= Seq::empty());
    } else {
        let t = within(events[0].time as int, frames);
        if t > pos {
            law_every_change_is_applied_once(events, frames, t);
            assert(plan.drop_first() =~= steps(events, frames, t));
        } else {
            law_every_change_is_applied_once(events.drop_first(), frames, pos);
            assert(plan.drop_first() =~= steps(events.drop_first(), frames, pos));
            assert(asked(events) =~= seq![(events[0].id, events[0].value)] + asked(
                events.drop_first(),
            ));
        }
    }
}

/// Where in a plan the `i`-th change stands.
pub open spec fn place_of_change(plan: Seq<Step>, i: int) -> int
    decreases plan.len(),
{
    if plan.len() == 0 {
        0
    } else if plan[0] is Apply {
        if i == 0 {
            0
        } else {
            1 + place_of_change(plan.drop_first(), i - 1)
        }
    } else {
        1 + place_of_change(plan.drop_first(), i)
    }
}

/// Automation is sample accurate: with events in order of time, exactly the
/// frames before an event's own are rendered when it is applied, and no
/// others.
pub proof fn law_automation_is_sample_accurate(
    events: Seq<ParamEvent>,
    frames: u32,
    pos: u32,
    i: int,
)
    requires
        is_ordered(events),
        0 <= i < events.len(),
        pos <= within(events[0].time as int, frames),
    ensures
        ({
            let plan = steps(events, frames, pos);
            let k = place_of_change(plan, i);
            &&& 0 <= k < plan.len()
            &&& plan[k] == (Step::Apply { id: events[i].id, value: events[i].value })
            &&& position(plan, pos, k) == within(events[i].time as int, frames)
        }),
    decreases events.len(), frames - pos,
{
    let plan = steps(events, frames, pos);
    let t = within(events[0].time as int, frames);
    if t > pos {
        let rest = steps(events, frames, t);
        assert(plan =~= seq![plan[0]] + rest);
        assert(plan.drop_first() =~= rest);
        law_automation_is_sample_accurate(events, frames, t, i);
        let k = place_of_change(rest, i);
        lemma_position_shift(plan[0], rest, pos, k);
        assert(position(plan, pos, 1) == t);
        assert(plan[k + 1] == rest[k]);
    } else {
        let tail = events.drop_first();
        let rest = steps(tail, frames, pos);
        assert(plan =~= seq![plan[0]] + rest);
        assert(plan.drop_first() =~= rest);
        if i > 0 {
            assert forall|a: int, b: int| 0 <= a <= b < tail.len() implies (
            #[trigger] tail[a]).time <= (#[trigger] tail[b]).time by {
                assert(events[a + 1].time <= events[b + 1].time);
            }
            assert(events[0].time <= events[1].time);
            law_automation_is_sample_accurate(tail, frames, pos, i - 1);
            let k = place_of_change(rest, i - 1);
            lemma_position_shift(plan[0], rest, pos, k);
            assert(position(plan, pos, 1) == position(plan, pos, 0));
            assert(plan[k + 1] == rest[k]);
            assert(tail[i - 1] == events[i]);
        }
    }
}

/// A time is kept within the block: as it is where it lies inside, and at the
/// end of the block where it lies past it.
pub proof fn law_times_stay_within_the_block(time: int, frames: u32)
    requires
        0 <= time,
    ensures
        time <= frames ==> within(time, frames) == time,
        time > frames ==> within(time, frames) == frames,
{
}

/// Every event becomes one change of exactly its parameter to exactly its
/// value, and the changes come in the order of the events: there is a rising
/// list of their places in the plan, and every other step renders.
pub proof fn law_events_become_changes_in_their_order(
    events: Seq<ParamEvent>,
    frames: u32,
    pos: u32,
) -> (places: Seq<int>)
    ensures
        places.len() == events.len(),
        forall|i: int|
            0 <= i < events.len() ==> 0 <= #[trigger] places[i] < steps(events, frames, pos).len()
                && steps(events, frames, pos)[places[i]] == (Step::Apply {
                id: events[i].id,
                value: events[i].value,
            }),
        forall|i: int, j: int|
            0 <= i < j < events.len() ==> (#[trigger] places[i]) < (#[trigger] places[j]),
        forall|k: int|
            0 <= k < steps(events, frames, pos).len() && (#[trigger] steps(
                events,
                frames,
                pos,
            )[k]) is Apply ==> places.contains(k),
    decreases events.len(), frames - pos,
{
    let plan = steps(events, frames, pos);
    if events.len() == 0 {
        Seq::empty()
    } else {
        let t = within(events[0].time as int, frames);
        if pos < t {
            let rest = steps(events, frames, t);
            let inner = law_events_become_changes_in_their_order(events, frames, t);
            let places = Seq::new(inner.len(), |i: int| inner[i] + 1);
            assert(plan =~= seq![Step::Render { start: pos, end: t }] + rest);
            assert forall|k: int| 0 <= k < plan.len() && (#[trigger] plan[k]) is Apply implies
                places.contains(k) by {
                assert(rest[k - 1] is Apply);
                let i = inner.index_of(k - 1);
                assert(places[i] == k);
            }
            places
        } else {
            let later = events.drop_first();
            let rest = steps(later, frames, pos);
            let inner = law_events_become_changes_in_their_order(later, frames, pos);
            let places = seq![0int] + Seq::new(inner.len(), |i: int| inner[i] + 1);
            assert(plan =~= seq![
                Step::Apply { id: events[0].id, value: events[0].value },
            ] + rest);
            assert forall|i: int| 0 <= i < events.len() implies 0 <= #[trigger] places[i]
                < plan.len() && plan[places[i]] == (Step::Apply {
                id: events[i].id,
                value: events[i].value,
            }) by {
                if i > 0 {
                    assert(places[i] == inner[i - 1] + 1);
                    assert(later[i - 1] == events[i]);
                }
            }
            assert forall|i: int, j: int| 0 <= i < j < events.len() implies (#[trigger] places[i])
                < (#[trigger] places[j]) by {
                assert(places[j] == inner[j - 1] + 1);
                if i > 0 {
                    assert(places[i] == inner[i - 1] + 1);
                }
            }
            assert forall|k: int| 0 <= k < plan.len() && (#[trigger] plan[k]) is Apply implies
                places.contains(k) by {
                if k == 0 {
                    assert(places[0] == 0);
                } else {
                    assert(rest[k - 1] is Apply);
                    let i = inner.index_of(k - 1);
                    assert(places[i + 1] == k);
                }
            }
            places
        }
    }
}

/// A change is applied at its time or, where an earlier listed event is later
/// in time, as soon as that one is: each is applied at the later of its own time
/// and the place of the change before it.
pub proof fn law_changes_are_never_reordered(
    events: Seq<ParamEvent>,
    frames: u32,
    pos: u32,
    i: int,
)
    requires
        0 <= i < events.len(),
    ensures
        ({
            let plan = steps(events, frames, pos);
            let k = place_of_change(plan, i);
            let own = within(events[i].time as int, frames);
            let before = if i == 0 {
                pos
            } else {
                position(plan, pos, place_of_change(plan, i - 1))
            };
            &&& 0 <= k < plan.len()
            &&& plan[k] == (Step::Apply { id: events[i].id, value: events[i].value })
            &&& position(plan, pos, k) == (if own > before {
                own
            } else {
                before
            })
        }),
    decreases events.len(), frames - pos, i,
{
    let plan = steps(events, frames, pos);
    let t = within(events[0].time as int, frames);
    if t > pos {
        let rest = steps(events, frames, t);
        assert(plan =~= seq![plan[0]] + rest);
        assert(plan.drop_first() =~= rest);
        law_changes_are_never_reordered(events, frames, t, i);
        let k = place_of_change(rest, i);
        lemma_position_shift(plan[0], rest, pos, k);
        assert(position(plan, pos, 1) == t);
        assert(plan[k + 1] == rest[k]);
        if i > 0 {
            law_changes_are_never_reordered(events, frames, t, i - 1);
            lemma_position_shift(plan[0], rest, pos, place_of_change(rest, i - 1));
        }
    } else {
        let tail = events.drop_first();
        let rest = steps(tail, frames, pos);
        assert(plan =~= seq![plan[0]] + rest);
        assert(plan.drop_first() =~= rest);
        assert(place_of_change(plan, 0) == 0);
        if i > 0 {
            law_changes_are_never_reordered(tail, frames, pos, i - 1);
            let k = place_of_change(rest, i - 1);
            lemma_position_shift(plan[0], rest, pos, k);
            assert(position(plan, pos, 1) == position(plan, pos, 0));
            assert(plan[k + 1] == rest[k]);
            assert(tail[i - 1] == events[i]);
            if i > 1 {
                law_changes_are_never_reordered(tail, frames, pos, i - 2);
                lemma_position_shift(plan[0], rest, pos, place_of_change(rest, i - 2));
            }
        }
    }
}

} // verus!
