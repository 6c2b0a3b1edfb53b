//! One plugin instance on the bus: which changes it takes from its peers,
//! what it answers them, and which of its own changes it tells them.
use vstd::prelude::*;

use crate::engine;
use crate::engine::{Engine, LoadStart};
use crate::handle::EngineHandle;
use crate::lww;
use crate::lww::Lww;
use crate::params;
use crate::params::{find_param, syncs_over_bus};
use crate::processor;
use crate::processor::Processor;
use crate::protocol::{Frame, SyncEntry};

verus! {

/// What an instance holds: its engine, while there is one, and what it knows
/// about versions.
pub ghost struct InstanceState<P> {
    /// The engine.
    pub engine: Option<engine::EngineState<P>>,
    /// The versions.
    pub book: lww::Book,
}

/// A change is handed to the engine, if there is one; `landed` says whether
/// it entered.
pub open spec fn handed_over<P: Processor>(
    before: Option<engine::EngineState<P>>,
    id: u32,
    value: u64,
    after: Option<engine::EngineState<P>>,
    landed: bool,
) -> bool {
    match (before, after) {
        (Some(b), Some(a)) => engine::set_param_outcome(b, id, value, a, landed),
        (None, None) => !landed,
        _ => false,
    }
}

/// A peer's change is offered. Parameters that are not shared never take one;
/// a version that does not win never reaches the engine; a version is
/// recorded only if its change landed, and a change without a version
/// displaces a value only if it did.
pub open spec fn change_offered<P: Processor>(
    before: InstanceState<P>,
    id: u32,
    value: u64,
    version: Option<lww::Version>,
    after: InstanceState<P>,
    landed: bool,
) -> bool {
    if !params::shares(P::declared(), id) || (version matches Some(v) && !before.book.wins(id, v)) {
        after == before && !landed
    } else {
        &&& handed_over(before.engine, id, value, after.engine, landed)
        &&& after.book == (if landed {
            before.book.offered(id, version)
        } else {
            before.book
        })
    }
}

/// The entries of a state answer are offered in order.
pub open spec fn entries_offered<P: Processor>(
    before: InstanceState<P>,
    entries: Seq<SyncEntry<u64>>,
    after: InstanceState<P>,
) -> bool
    decreases entries.len(),
{
    if entries.len() == 0 {
        after == before
    } else {
        let e = entries.last();
        exists|mid: InstanceState<P>, landed: bool|
            entries_offered(before, entries.drop_last(), mid) && #[trigger] change_offered(
                mid,
                e.id,
                e.value,
                Some((e.seq, e.origin)),
                after,
                landed,
            )
    }
}

/// Whether a parameter and its mirrored value are told: it is shared, its
/// version may be advertised, and the mirrored value is the one that the last
/// change by the editor or the bus left.
pub open spec fn is_told<P: Processor>(
    e: engine::EngineState<P>,
    book: lww::Book,
    id: u32,
    value: u64,
) -> bool {
    &&& params::shares(P::declared(), id)
    &&& book.advertised(id) is Some
    &&& engine::in_force(e, id, value)
}

/// The mirrored values that are told, each with its version.
pub open spec fn answer<P: Processor>(
    mirror: Seq<(u32, u64)>,
    e: engine::EngineState<P>,
    book: lww::Book,
) -> Seq<SyncEntry<u64>>
    decreases mirror.len(),
{
    if mirror.len() == 0 {
        Seq::empty()
    } else {
        let front = answer(mirror.drop_last(), e, book);
        let (id, value) = mirror.last();
        if is_told(e, book, id, value) {
            let version = book.advertised(id)->0;
            front.push(SyncEntry { id, value, seq: version.0, origin: version.1 })
        } else {
            front
        }
    }
}

/// What a request for shared state is answered: the mirrored value and the
/// version of every shared parameter whose value in force is the one that its
/// version refers to. Nothing is told once the engine is gone, nor between the
/// block that restored project state and the end of that load.
pub open spec fn told<P: Processor>(state: InstanceState<P>) -> Seq<SyncEntry<u64>> {
    match state.engine {
        Some(e) if !engine::restoring(e.responses) => answer(e.live.mirror, e, state.book),
        _ => Seq::empty(),
    }
}

/// What came of a local change.
#[derive(Clone, Copy, PartialEq, Eq, Structural, Debug)]
pub enum Edit {
    /// The parameter is not declared.
    Unknown,
    /// The change did not enter the engine; nothing is to be told to anyone.
    Dropped,
    /// The change landed and stays in this instance.
    Local,
    /// The change landed and is to be told to the peers under this version.
    Shared {
        /// Sequence number.
        seq: u64,
        /// Origin.
        origin: u64,
    },
}

/// A change from this instance's own editor is handed to the engine; only one
/// that landed in a shared parameter is stamped.
pub open spec fn edited<P: Processor>(
    before: InstanceState<P>,
    id: u32,
    value: u64,
    after: InstanceState<P>,
    r: Edit,
) -> bool {
    match params::param_index(P::declared(), id) {
        None => r is Unknown && after == before,
        Some(i) => {
            &&& handed_over(before.engine, id, value, after.engine, !(r is Dropped))
            &&& match r {
                Edit::Unknown => false,
                Edit::Dropped => after.book == before.book,
                Edit::Local => !P::declared()[i].shared && after.book == before.book,
                Edit::Shared { seq, origin } => {
                    &&& P::declared()[i].shared
                    &&& (seq, origin) == before.book.next_version()
                    &&& after.book == before.book.stamped(id)
                },
            }
        },
    }
}

/// The host sets a parameter outside of a block. What it sets is its own: no
/// peer is told, and the version on record no longer refers to the value in
/// force, unless that is the very value last set.
pub open spec fn host_set<P: Processor>(
    before: InstanceState<P>,
    id: u32,
    value: u64,
    after: InstanceState<P>,
    landed: bool,
) -> bool {
    &&& handed_over(before.engine, id, value, after.engine, landed)
    &&& after.book == (if landed && !engine::set_to(before.engine->0, id, value) {
        before.book.rewritten(id)
    } else {
        before.book
    })
}

/// A load is started. One that is done at once and was taken silences what
/// may be advertised. `None` means that the engine is gone.
pub open spec fn load_started<P: Processor>(
    before: InstanceState<P>,
    data: Seq<u8>,
    after: InstanceState<P>,
    r: Option<LoadStart>,
) -> bool {
    match r {
        None => before.engine is None && after == before,
        Some(start) => {
            &&& before.engine is Some
            &&& after.engine is Some
            &&& engine::load_outcome(before.engine->0, data, after.engine->0, start)
            &&& after.book == (if start == LoadStart::Done(true) {
                before.book.reloaded()
            } else {
                before.book
            })
        },
    }
}

/// The oldest state answer, if there is one, is collected as that of a load.
/// A load that was taken silences what may be advertised.
pub open spec fn load_finished<P: Processor>(
    before: InstanceState<P>,
    after: InstanceState<P>,
    r: Option<bool>,
) -> bool {
    &&& after.book == (if r == Some(true) {
        before.book.reloaded()
    } else {
        before.book
    })
    &&& match (before.engine, after.engine) {
        (Some(b), Some(a)) => match r {
            None => b.responses.len() == 0 && a == b,
            Some(loaded) => {
                &&& b.responses.len() > 0
                &&& loaded == engine::restored(b.responses[0])
                &&& a == (engine::EngineState {
                    responses: b.responses.drop_first(),
                    buffers: (match b.responses[0] {
                        engine::StateResponse::Loaded { ok, buffer } => b.buffers.push(buffer),
                        engine::StateResponse::Saved(_) => b.buffers,
                    }),
                    ..b
                })
            },
        },
        (None, None) => r is None,
        _ => false,
    }
}

/// A plugin instance.
#[derive(Debug)]
pub struct Instance<P> {
    /// The engine's handle.
    handle: EngineHandle<P>,
    /// The versions of shared parameters.
    lww: Lww,
}

impl<P: Processor> View for Instance<P> {
    type V = InstanceState<P>;

    closed spec fn view(&self) -> InstanceState<P> {
        InstanceState {
            engine: match self.handle.instance() {
                Some(e) => Some(e@),
                None => None,
            },
            book: self.lww@,
        }
    }
}

impl<P: Processor> Instance<P> {
    /// The engine behind the instance, while there is one.
    pub closed spec fn instance(&self) -> Option<Engine<P>> {
        self.handle.instance()
    }

    /// The engine is well formed.
    pub closed spec fn wf(&self) -> bool {
        self.handle.wf()
    }

    /// An instance around an engine and a version tracker.
    pub fn new(engine: Engine<P>, lww: Lww) -> (r: Self)
        requires
            engine.wf(),
        ensures
            r.wf(),
            r.instance() == Some(engine),
            r@ == (InstanceState { engine: Some(engine@), book: lww@ }),
    {
        Instance { handle: EngineHandle::new(engine), lww }
    }

    /// The engine, if it is still there.
    pub fn engine(&mut self) -> (r: Option<&mut Engine<P>>)
        requires
            old(self).wf(),
        ensures
            final(self)@.book == old(self)@.book,
            match r {
                Some(e) => {
                    &&& old(self).instance() == Some(*e)
                    &&& e.wf()
                    &&& old(self)@.engine == Some(e@)
                    &&& final(self).instance() == Some(*final(e))
                    &&& final(self)@.engine == Some(final(e)@)
                    &&& final(e).wf() ==> final(self).wf()
                },
                None => old(self)@.engine is None && final(self)@.engine is None && final(self).wf(),
            },
    {
        self.handle.engine()
    }

    /// Destroy the engine. Frames still on their way then go nowhere.
    pub fn close(&mut self) -> (r: Option<Engine<P>>)
        requires
            old(self).wf(),
        ensures
            final(self).wf(),
            r == old(self).instance(),
            final(self)@ == (InstanceState { engine: None, ..old(self)@ }),
    {
        self.handle.close()
    }

    /// This instance's origin.
    pub fn origin(&self) -> (r: u64)
        ensures
            r == self@.book.origin,
    {
        self.lww.origin()
    }

    /// The version that may be advertised for a parameter.
    pub fn advertised_version(&self, id: u32) -> (r: Option<(u64, u64)>)
        ensures
            r == self@.book.advertised(id),
    {
        self.lww.advertised_version(id)
    }

    /// The last winning version of a parameter.
    pub fn known_version(&self, id: u32) -> (r: Option<(u64, u64)>)
        ensures
            r == self@.book.known(id),
    {
        self.lww.known_version(id)
    }

    /// What to send on joining the bus, and whenever a lost link is up again:
    /// a request for shared state.
    pub fn greeting(&self) -> (r: Frame<u64>)
        ensures
            r == (Frame::<u64>::SyncRequest { origin: self@.book.origin }),
    {
        Frame::SyncRequest { origin: self.lww.origin() }
    }

    /// A peer's change; the result says whether it landed.
    pub fn offer(&mut self, id: u32, value: u64, version: Option<(u64, u64)>) -> (landed: bool)
        requires
            old(self).wf(),
        ensures
            final(self).wf(),
            change_offered(old(self)@, id, value, version, final(self)@, landed),
    {
        if !syncs_over_bus(P::params(), id) {
            return false;
        }
        match version {
            None => {
                if !self.handle.set_param(id, value) {
                    return false;
                }
                self.lww.displace(id);
                true
            },
            Some(v) => {
                if !self.lww.wins(id, v) {
                    return false;
                }
                if !self.handle.set_param(id, value) {
                    return false;
                }
                self.lww.record(id, v);
                true
            },
        }
    }

    fn shared_state(&self) -> (r: Vec<SyncEntry<u64>>)
        requires
            self.wf(),
        ensures
            r@ == told(self@),
    {
        let mut out: Vec<SyncEntry<u64>> = Vec::new();
        let e: &Engine<P> = match self.handle.get() {
            None => {
                return out;
            },
            Some(e) => e,
        };
        if e.has_restored() {
            return out;
        }
        let values = self.handle.snapshot_params();
        let defs = P::params();
        let mut i: usize = 0;
        proof {
            assert(values@.take(0) =~= Seq::empty());
            assert(out@ =~= answer(values@.take(0), e@, self@.book));
        }
        while i < values.len()
            invariant
                e.wf(),
                defs@ == P::declared(),
                i <= values.len(),
                out@ == answer(values@.take(i as int), e@, self@.book),
            decreases values.len() - i,
        {
            proof {
                assert(values@.take(i + 1).drop_last() =~= values@.take(i as int));
                assert(values@.take(i + 1).last() == values@[i as int]);
            }
            let (id, value) = values[i];
            if syncs_over_bus(defs, id) && e.is_in_force(id, value) {
                match self.lww.advertised_version(id) {
                    Some(version) => {
                        out.push(SyncEntry { id, value, seq: version.0, origin: version.1 });
                    },
                    None => {},
                }
            }
            i += 1;
        }
        proof {
            assert(values@.take(i as int) =~= values@);
        }
        out
    }

    /// Take a frame from the bus. The result is what to send in reply.
    pub fn on_frame(&mut self, frame: Frame<u64>) -> (reply: Option<Frame<u64>>)
        requires
            old(self).wf(),
        ensures
            final(self).wf(),
            match frame {
                Frame::SetParam { id, value, version } => {
                    &&& reply is None
                    &&& exists|landed: bool| #[trigger]
                        change_offered(old(self)@, id, value, version, final(self)@, landed)
                },
                Frame::SyncRequest { origin } => {
                    &&& final(self)@ == old(self)@
                    &&& match reply {
                        None => told(old(self)@).len() == 0,
                        Some(Frame::SyncState(entries)) => entries@.len() > 0 && entries@ == told(
                            old(self)@,
                        ),
                        _ => false,
                    }
                },
                Frame::SyncState(entries) => {
                    &&& reply is None
                    &&& entries_offered(old(self)@, entries@, final(self)@)
                },
            },
    {
        match frame {
            Frame::SetParam { id, value, version } => {
                let landed: bool = self.offer(id, value, version);
                proof {
                    assert(change_offered(old(self)@, id, value, version, self@, landed));
                }
                None
            },
            Frame::SyncRequest { origin } => {
                let entries = self.shared_state();
                if entries.len() == 0 {
                    None
                } else {
                    Some(Frame::SyncState(entries))
                }
            },
            Frame::SyncState(entries) => {
                let mut i: usize = 0;
                proof {
                    assert(entries@.take(0) =~= Seq::empty());
                }
                while i < entries.len()
                    invariant
                        self.wf(),
                        i <= entries.len(),
                        entries_offered(old(self)@, entries@.take(i as int), self@),
                    decreases entries.len() - i,
                {
                    let ghost mid = self@;
                    let e: &SyncEntry<u64> = &entries[i];
                    let landed: bool = self.offer(e.id, e.value, Some((e.seq, e.origin)));
                    proof {
                        let so_far = entries@.take(i + 1);
                        assert(so_far.drop_last() =~= entries@.take(i as int));
                        assert(so_far.last() == *e);
                        assert(change_offered(
                            mid,
                            so_far.last().id,
                            so_far.last().value,
                            Some((so_far.last().seq, so_far.last().origin)),
                            self@,
                            landed,
                        ));
                    }
                    i += 1;
                }
                proof {
                    assert(entries@.take(i as int) =~= entries@);
                }
                None
            },
        }
    }

    /// A change from this instance's own editor.
    pub fn edit(&mut self, id: u32, value: u64) -> (r: Edit)
        requires
            old(self).wf(),
        ensures
            final(self).wf(),
            edited(old(self)@, id, value, final(self)@, r),
    {
        let defs = P::params();
        match find_param(defs, id) {
            None => Edit::Unknown,
            Some(i) => {
                if !self.handle.set_param(id, value) {
                    return Edit::Dropped;
                }
                if defs[i].shared {
                    let version: (u64, u64) = self.lww.stamp(id);
                    Edit::Shared { seq: version.0, origin: version.1 }
                } else {
                    Edit::Local
                }
            },
        }
    }

    /// The host sets a parameter outside of a block; `false` means that it
    /// went nowhere.
    pub fn host_change(&mut self, id: u32, value: u64) -> (landed: bool)
        requires
            old(self).wf(),
        ensures
            final(self).wf(),
            host_set(old(self)@, id, value, final(self)@, landed),
    {
        let same: bool = match self.handle.get() {
            Some(e) => e.is_set_to(id, value),
            None => false,
        };
        let landed: bool = self.handle.set_param(id, value);
        if landed && !same {
            self.lww.on_rewrite(id);
        }
        landed
    }

    /// Start restoring project state. A load that is done at once and was
    /// taken silences what may be advertised. `None` means that the engine is
    /// gone.
    pub fn load_state(&mut self, data: Vec<u8>) -> (r: Option<LoadStart>)
        requires
            old(self).wf(),
        ensures
            final(self).wf(),
            load_started(old(self)@, data@, final(self)@, r),
    {
        match self.handle.engine() {
            None => None,
            Some(e) => {
                let start: LoadStart = e.load_state(data);
                match start {
                    LoadStart::Done(true) => {
                        self.lww.on_state_load();
                    },
                    _ => {},
                }
                Some(start)
            },
        }
    }

    /// Collect the answer to a pending load; `None` means that there is none
    /// yet, or never will be because the engine is gone.
    pub fn finish_load(&mut self) -> (r: Option<bool>)
        requires
            old(self).wf(),
        ensures
            final(self).wf(),
            load_finished(old(self)@, final(self)@, r),
    {
        match self.handle.engine() {
            None => None,
            Some(e) => {
                let r: Option<bool> = e.finish_load();
                match r {
                    Some(true) => {
                        self.lww.on_state_load();
                    },
                    _ => {},
                }
                r
            },
        }
    }
}

/// Parameters that are not shared take nothing from the bus, whatever the
/// frame says.
pub proof fn law_local_parameters_ignore_the_bus<P: Processor>(
    before: InstanceState<P>,
    id: u32,
    value: u64,
    version: Option<lww::Version>,
    after: InstanceState<P>,
    landed: bool,
)
    requires
        !params::shares(P::declared(), id),
        change_offered(before, id, value, version, after, landed),
    ensures
        after == before,
        !landed,
{
}

/// A change that did not enter the engine leaves no mark: the very same frame
/// still wins when it is delivered again.
pub proof fn law_a_lost_change_can_still_win<P: Processor>(
    before: InstanceState<P>,
    id: u32,
    value: u64,
    version: lww::Version,
    after: InstanceState<P>,
)
    requires
        before.book.wins(id, version),
        change_offered(before, id, value, Some(version), after, false),
    ensures
        after.book == before.book,
        after.book.wins(id, version),
{
}

/// Everything in an answer is a shared parameter with its mirrored value and
/// the version that may be advertised for it; the last change by the editor or
/// the bus has arrived, and the value is what it left.
pub proof fn law_answers_tell_only_what_is_shared_and_fresh<P: Processor>(
    state: InstanceState<P>,
    k: int,
)
    requires
        0 <= k < told(state).len(),
    ensures
        state.engine matches Some(e) && !engine::restoring(e.responses),
        params::shares(P::declared(), told(state)[k].id),
        state.book.advertised(told(state)[k].id) == Some(
            (told(state)[k].seq, told(state)[k].origin),
        ),
        state.engine->0.live.mirror.contains((told(state)[k].id, told(state)[k].value)),
        engine::in_force(state.engine->0, told(state)[k].id, told(state)[k].value),
{
    let e = state.engine->0;
    lemma_answer_entry(e.live.mirror, e, state.book, k);
}

proof fn lemma_answer_entry<P: Processor>(
    mirror: Seq<(u32, u64)>,
    e: engine::EngineState<P>,
    book: lww::Book,
    k: int,
)
    requires
        0 <= k < answer(mirror, e, book).len(),
    ensures
        ({
            let entry = answer(mirror, e, book)[k];
            &&& is_told(e, book, entry.id, entry.value)
            &&& book.advertised(entry.id) == Some((entry.seq, entry.origin))
            &&& mirror.contains((entry.id, entry.value))
        }),
    decreases mirror.len(),
{
    let rest = mirror.drop_last();
    let front = answer(rest, e, book);
    if k < front.len() {
        lemma_answer_entry(rest, e, book, k);
        let entry = front[k];
        let i = choose|i: int| 0 <= i < rest.len() && rest[i] == (entry.id, entry.value);
        assert(mirror[i] == (entry.id, entry.value));
    } else {
        assert(mirror[mirror.len() - 1] == mirror.last());
    }
}

/// Every mirrored value that is to be told is in the answer, as long as there
/// is an engine and no restored state waits to be collected.
pub proof fn law_answers_are_complete<P: Processor>(state: InstanceState<P>, i: int)
    requires
        state.engine matches Some(e) && !engine::restoring(e.responses),
        0 <= i < state.engine->0.live.mirror.len(),
        is_told(
            state.engine->0,
            state.book,
            state.engine->0.live.mirror[i].0,
            state.engine->0.live.mirror[i].1,
        ),
    ensures
        told(state).contains(
            (SyncEntry {
                id: state.engine->0.live.mirror[i].0,
                value: state.engine->0.live.mirror[i].1,
                seq: (state.book.advertised(state.engine->0.live.mirror[i].0)->0).0,
                origin: (state.book.advertised(state.engine->0.live.mirror[i].0)->0).1,
            }),
        ),
{
    let e = state.engine->0;
    lemma_answer_has(e.live.mirror, e, state.book, i);
}

proof fn lemma_answer_has<P: Processor>(
    mirror: Seq<(u32, u64)>,
    e: engine::EngineState<P>,
    book: lww::Book,
    i: int,
)
    requires
        0 <= i < mirror.len(),
        is_told(e, book, mirror[i].0, mirror[i].1),
    ensures
        answer(mirror, e, book).contains(
            (SyncEntry {
                id: mirror[i].0,
                value: mirror[i].1,
                seq: (book.advertised(mirror[i].0)->0).0,
                origin: (book.advertised(mirror[i].0)->0).1,
            }),
        ),
    decreases mirror.len(),
{
    let rest = mirror.drop_last();
    let all = answer(mirror, e, book);
    let entry = SyncEntry {
        id: mirror[i].0,
        value: mirror[i].1,
        seq: (book.advertised(mirror[i].0)->0).0,
        origin: (book.advertised(mirror[i].0)->0).1,
    };
    if i < rest.len() {
        assert(rest[i] == mirror[i]);
        lemma_answer_has(rest, e, book, i);
        let front = answer(rest, e, book);
        let k = choose|k: int| 0 <= k < front.len() && front[k] == entry;
        assert(all[k] == entry);
    } else {
        assert(all[all.len() - 1] == entry);
    }
}

/// Project state never crosses the bus: from the block that restores it until
/// the load is finished there is nothing to tell, and after that nothing until
/// a shared change lands.
pub proof fn law_project_state_never_crosses_the_bus<P: Processor>(state: InstanceState<P>)
    ensures
        state.engine matches Some(e) && engine::restoring(e.responses) ==> told(state).len() == 0,
        told(InstanceState { book: state.book.reloaded(), ..state }).len() == 0,
{
    let silent = InstanceState { book: state.book.reloaded(), ..state };
    if told(silent).len() > 0 {
        law_answers_tell_only_what_is_shared_and_fresh(silent, 0);
    }
}

/// What an instance plays, seen as a replica: its versions, and the values
/// that the processor has once everything that waits has run.
pub open spec fn pending_replica<P: Processor>(
    state: InstanceState<P>,
    kept: spec_fn(u32, u64) -> u64,
) -> lww::Replica {
    lww::Replica {
        book: state.book,
        values: Map::new(
            |id: u32| true,
            |id: u32| engine::pending(state.engine->0.commands, state.engine->0.live, id, kept),
        ),
    }
}

/// Whether nobody holds the instance's processor.
pub open spec fn stopped<P: Processor>(state: InstanceState<P>) -> bool {
    state.engine matches Some(e) && e.access is Idle
}

/// Setting a parameter decides what is pending and what is claimed for it, and
/// for no other.
proof fn lemma_set<P: Processor>(
    before: engine::EngineState<P>,
    id: u32,
    value: u64,
    after: engine::EngineState<P>,
    landed: bool,
    kept: spec_fn(u32, u64) -> u64,
    other: u32,
)
    requires
        engine::set_param_outcome(before, id, value, after, landed),
        !(before.access is Idle) || engine::keeps::<P>(kept),
    ensures
        landed && (!(before.access is Idle) || engine::isolated::<P>()) ==> engine::pending(
            after.commands,
            after.live,
            other,
            kept,
        ) == (if other == id {
            kept(id, value)
        } else {
            engine::pending(before.commands, before.live, other, kept)
        }),
        after.live.last_set.contains_key(other) <==> before.live.last_set.contains_key(other),
        landed && before.live.last_set.contains_key(other) ==> engine::claimed(
            after.commands,
            after.live,
            other,
            kept,
        ) == (if other == id {
            kept(id, value)
        } else {
            engine::claimed(before.commands, before.live, other, kept)
        }),
        !landed ==> after.commands == before.commands && after.live == before.live,
        after.responses == before.responses,
        after.access == before.access,
{
    if before.access is Idle {
        engine::lemma_waiting_overtaken(before.commands, id, value, other);
        assert(P::sets(before.live.processor, id, value, after.live.processor));
        if other != id && engine::isolated::<P>() {
            assert(after.live.processor.value(other) == before.live.processor.value(other));
        }
    } else {
        engine::lemma_waiting_push(
            before.commands,
            engine::Command::SetParam { id, value },
            other,
        );
    }
}

/// Offered a peer's change of a shared parameter while its processor is held,
/// an instance whose queue has room does exactly what a replica does.
pub proof fn law_a_running_instance_is_a_replica<P: Processor>(
    before: InstanceState<P>,
    id: u32,
    value: u64,
    version: lww::Version,
    after: InstanceState<P>,
    landed: bool,
    kept: spec_fn(u32, u64) -> u64,
)
    requires
        before.engine matches Some(e) && !(e.access is Idle) && e.commands.len()
            < engine::COMMAND_CAPACITY,
        params::shares(P::declared(), id),
        change_offered(before, id, value, Some(version), after, landed),
    ensures
        landed == before.book.wins(id, version),
        pending_replica(after, kept) == lww::received(
            pending_replica(before, kept),
            (id, version, kept(id, value)),
        ),
{
    let expected = lww::received(pending_replica(before, kept), (id, version, kept(id, value)));
    if before.book.wins(id, version) {
        assert forall|other: u32| #[trigger] pending_replica(after, kept).values[other]
            == expected.values[other] by {
            lemma_set(before.engine->0, id, value, after.engine->0, landed, kept, other);
        }
    }
    assert(pending_replica(after, kept).values =~= expected.values);
}

/// Offered a peer's change of a shared parameter, a stopped instance does
/// exactly what a replica does, provided the plugin leaves its other
/// parameters alone, and whatever still waits from when blocks last flowed.
pub proof fn law_a_stopped_instance_is_a_replica<P: Processor>(
    before: InstanceState<P>,
    id: u32,
    value: u64,
    version: lww::Version,
    after: InstanceState<P>,
    landed: bool,
    kept: spec_fn(u32, u64) -> u64,
)
    requires
        stopped(before),
        params::shares(P::declared(), id),
        engine::isolated::<P>(),
        engine::keeps::<P>(kept),
        change_offered(before, id, value, Some(version), after, landed),
    ensures
        stopped(after),
        landed == before.book.wins(id, version),
        landed ==> after.engine->0.live.processor.value(id) == kept(id, value),
        pending_replica(after, kept) == lww::received(
            pending_replica(before, kept),
            (id, version, kept(id, value)),
        ),
{
    let expected = lww::received(pending_replica(before, kept), (id, version, kept(id, value)));
    if before.book.wins(id, version) {
        assert(P::sets(
            before.engine->0.live.processor,
            id,
            value,
            after.engine->0.live.processor,
        ));
        assert forall|other: u32| #[trigger] pending_replica(after, kept).values[other]
            == expected.values[other] by {
            lemma_set(before.engine->0, id, value, after.engine->0, landed, kept, other);
        }
    }
    assert(pending_replica(after, kept).values =~= expected.values);
}

/// Whether `n` changes can enter the engine: nobody holds the processor, or
/// there is room for them to wait.
pub open spec fn takes_changes<P: Processor>(state: InstanceState<P>, n: int) -> bool {
    state.engine matches Some(e) && (e.access is Idle || e.commands.len() + n
        <= engine::COMMAND_CAPACITY)
}

/// Blocks flowing or not, an instance that can take a change does exactly what
/// a replica does.
pub proof fn law_an_instance_is_a_replica<P: Processor>(
    before: InstanceState<P>,
    id: u32,
    value: u64,
    version: lww::Version,
    after: InstanceState<P>,
    landed: bool,
    n: int,
    kept: spec_fn(u32, u64) -> u64,
)
    requires
        n >= 1,
        takes_changes(before, n),
        params::shares(P::declared(), id),
        engine::isolated::<P>(),
        engine::keeps::<P>(kept),
        change_offered(before, id, value, Some(version), after, landed),
    ensures
        landed == before.book.wins(id, version),
        takes_changes(after, n - 1),
        pending_replica(after, kept) == lww::received(
            pending_replica(before, kept),
            (id, version, kept(id, value)),
        ),
{
    if stopped(before) {
        law_a_stopped_instance_is_a_replica(before, id, value, version, after, landed, kept);
    } else {
        law_a_running_instance_is_a_replica(before, id, value, version, after, landed, kept);
    }
}

/// A shared change of an instance's own reaches it like one from a peer, under
/// the version that it then tells them.
pub proof fn law_an_edit_is_a_change_like_any_other<P: Processor>(
    before: InstanceState<P>,
    id: u32,
    value: u64,
    version: lww::Version,
    after: InstanceState<P>,
)
    requires
        before.engine is Some,
        before.book.clocked(),
        before.book.clock < u64::MAX,
        edited(before, id, value, after, Edit::Shared { seq: version.0, origin: version.1 }),
    ensures
        params::shares(P::declared(), id),
        before.book.wins(id, version),
        change_offered(before, id, value, Some(version), after, true),
        after.book.clocked(),
{
    params::lemma_param_index(P::declared(), id);
    let i = params::param_index(P::declared(), id)->0;
    assert(P::declared()[i].id == id && P::declared()[i].shared);
    lww::law_local_changes_beat_everything_seen(before.book, id, id);
    assert(after.book == before.book.recorded(id, version));
}

/// A frame without a version never displaces known state for good: the known
/// version, which the next answer brings again, lands again and its value is
/// back, blocks flowing or not.
pub proof fn law_an_answer_heals_a_displaced_value<P: Processor>(
    before: InstanceState<P>,
    id: u32,
    value: u64,
    version: lww::Version,
    after: InstanceState<P>,
    landed: bool,
    kept: spec_fn(u32, u64) -> u64,
)
    requires
        before.book.known(id) == Some(version),
        before.book.displaced.contains(id),
        takes_changes(before, 1),
        params::shares(P::declared(), id),
        engine::isolated::<P>(),
        engine::keeps::<P>(kept),
        change_offered(before, id, value, Some(version), after, landed),
    ensures
        landed,
        after.book.advertised(id) == Some(version),
        pending_replica(after, kept).values[id] == kept(id, value),
{
    law_an_instance_is_a_replica(before, id, value, version, after, landed, 1, kept);
}

/// Something that happens to an instance.
pub ghost enum Happening {
    /// It hears of a shared change and its engine does not turn it away.
    Heard(u32, lww::Version, u64),
    /// It hears of a shared change that finds its queue full.
    Lost(u32, lww::Version, u64),
    /// It hears of a change without a version.
    Unversioned(u32, u64),
    /// Its own editor makes a change.
    Edited(u32, u64, Edit),
    /// The host sets a parameter outside of a block.
    HostSet(u32, u64),
    /// The host's automation sets a parameter.
    Automated(u32, u64),
    /// A block begins: what waits is drained, and no state is restored.
    Drained,
    /// A block begins that serves a load.
    Served,
    /// The processor changes hands: blocks start or stop flowing, or the main
    /// side enters or leaves.
    Handed(engine::Access),
    /// A load starts.
    LoadStarted(Seq<u8>, Option<LoadStart>),
    /// A load's answer is collected.
    LoadFinished(Option<bool>),
}

/// A block begins.
pub open spec fn block_begins<P: Processor>(
    before: InstanceState<P>,
    after: InstanceState<P>,
) -> bool {
    &&& exists|notify: bool| #[trigger]
        engine::drained(before.engine->0, after.engine->0, notify)
    &&& after.book == before.book
}

/// What a happening does to an instance that has an engine.
pub open spec fn happens<P: Processor>(
    before: InstanceState<P>,
    h: Happening,
    after: InstanceState<P>,
) -> bool {
    &&& before.engine is Some
    &&& after.engine is Some
    &&& match h {
        Happening::Heard(id, version, value) => {
            &&& params::shares(P::declared(), id)
            &&& change_offered(
                before,
                id,
                value,
                Some(version),
                after,
                before.book.wins(id, version),
            )
        },
        Happening::Lost(id, version, value) => change_offered(
            before,
            id,
            value,
            Some(version),
            after,
            false,
        ),
        Happening::Unversioned(id, value) => exists|landed: bool| #[trigger]
            change_offered(before, id, value, None, after, landed),
        Happening::Edited(id, value, r) => {
            &&& r is Shared ==> before.book.clock < u64::MAX
            &&& edited(before, id, value, after, r)
        },
        Happening::HostSet(id, value) => exists|landed: bool| #[trigger]
            host_set(before, id, value, after, landed),
        Happening::Automated(id, value) => {
            &&& engine::param_lands(before.engine->0.live, id, value, after.engine->0.live)
            &&& after == (InstanceState {
                engine: Some(
                    engine::EngineState { live: after.engine->0.live, ..before.engine->0 },
                ),
                ..before
            })
        },
        Happening::Drained => !engine::loads_next(before.engine->0.state_commands) && block_begins(
            before,
            after,
        ),
        Happening::Served => block_begins(before, after),
        Happening::Handed(access) => after == (InstanceState {
            engine: Some(engine::EngineState { access, ..before.engine->0 }),
            ..before
        }),
        Happening::LoadStarted(data, r) => load_started(before, data, after, r),
        Happening::LoadFinished(r) => load_finished(before, after, r),
    }
}

/// Things happen to an instance, one after the other.
pub open spec fn lives<P: Processor>(
    before: InstanceState<P>,
    history: Seq<Happening>,
    after: InstanceState<P>,
) -> bool
    decreases history.len(),
{
    if history.len() == 0 {
        after == before
    } else {
        exists|mid: InstanceState<P>|
            lives(before, history.drop_last(), mid) && #[trigger] happens(
                mid,
                history.last(),
                after,
            )
    }
}

/// The shared change that a happening brings, as parameter, version and value.
pub open spec fn change_in(h: Happening) -> Option<(u32, lww::Version, u64)> {
    match h {
        Happening::Heard(id, version, value) => Some((id, version, value)),
        Happening::Edited(id, value, Edit::Shared { seq, origin }) => Some(
            (id, (seq, origin), value),
        ),
        _ => None,
    }
}

/// The shared changes of one parameter in a history, an instance's own among
/// them, with the values as the plugin keeps them.
pub open spec fn changes_in(
    history: Seq<Happening>,
    id: u32,
    kept: spec_fn(u32, u64) -> u64,
) -> Seq<(lww::Version, u64)>
    decreases history.len(),
{
    if history.len() == 0 {
        Seq::empty()
    } else {
        let front = changes_in(history.drop_last(), id, kept);
        match change_in(history.last()) {
            Some(c) if c.0 == id => front.push((c.1, kept(id, c.2))),
            _ => front,
        }
    }
}

/// Whether a happening leaves a parameter to its shared changes: it is no
/// change of it by the host or without a version, and restores no state.
pub open spec fn is_calm(h: Happening, id: u32) -> bool {
    match h {
        Happening::Unversioned(changed, _) => changed != id,
        Happening::HostSet(changed, _) => changed != id,
        Happening::Automated(changed, _) => changed != id,
        Happening::Served => false,
        Happening::LoadStarted(_, r) => r != Some(LoadStart::Done(true)),
        Happening::LoadFinished(r) => r != Some(true),
        _ => true,
    }
}

/// What an instance holds of a parameter, once everything that waits has run.
pub open spec fn holding<P: Processor>(
    state: InstanceState<P>,
    id: u32,
    kept: spec_fn(u32, u64) -> u64,
) -> lww::Holding {
    lww::held(pending_replica(state, kept), id)
}

proof fn lemma_local_edits_are_not_shared<P: Processor>(id: u32)
    requires
        engine::distinct_ids::<P>(),
        params::param_index(P::declared(), id) matches Some(i) && !P::declared()[i].shared,
    ensures
        !params::shares(P::declared(), id),
{
    params::lemma_param_index(P::declared(), id);
    let i = params::param_index(P::declared(), id)->0;
    if params::shares(P::declared(), id) {
        let j = choose|j: int|
            0 <= j < P::declared().len() && (#[trigger] P::declared()[j]).id == id
                && P::declared()[j].shared;
        if i < j {
            assert(P::declared()[i].id != P::declared()[j].id);
        } else {
            assert(P::declared()[j].id != P::declared()[i].id);
        }
    }
}

proof fn lemma_happening<P: Processor>(
    before: InstanceState<P>,
    h: Happening,
    after: InstanceState<P>,
    id: u32,
    kept: spec_fn(u32, u64) -> u64,
)
    requires
        happens(before, h, after),
        engine::distinct_ids::<P>(),
        engine::isolated::<P>(),
        engine::keeps::<P>(kept),
        before.book.clocked(),
        params::shares(P::declared(), id),
        is_calm(h, id),
    ensures
        after.book.clocked(),
        holding(after, id, kept) == (match change_in(h) {
            Some(c) if c.0 == id => holding(before, id, kept).received((c.1, kept(id, c.2))),
            _ => holding(before, id, kept),
        }),
{
    let b = before.engine->0;
    let a = after.engine->0;
    match h {
        Happening::Heard(changed, version, value) => {
            if before.book.wins(changed, version) {
                law_an_instance_is_a_replica(before, changed, value, version, after, true, 1, kept);
            }
            lww::law_the_clock_stays_caught_up(before.book, changed, Some(version));
            lww::law_changes_concern_one_parameter(
                pending_replica(before, kept),
                (changed, version, kept(changed, value)),
                id,
            );
        },
        Happening::Lost(changed, version, value) => {},
        Happening::Unversioned(changed, value) => {
            let landed = choose|landed: bool| #[trigger]
                change_offered(before, changed, value, None, after, landed);
            if params::shares(P::declared(), changed) {
                lemma_set(b, changed, value, a, landed, kept, id);
            }
            lww::law_the_clock_stays_caught_up(before.book, changed, None);
        },
        Happening::Edited(changed, value, r) => match r {
            Edit::Shared { seq, origin } => {
                law_an_edit_is_a_change_like_any_other(before, changed, value, (seq, origin), after);
                law_an_instance_is_a_replica(
                    before,
                    changed,
                    value,
                    (seq, origin),
                    after,
                    true,
                    1,
                    kept,
                );
                lww::law_changes_concern_one_parameter(
                    pending_replica(before, kept),
                    (changed, (seq, origin), kept(changed, value)),
                    id,
                );
            },
            Edit::Local => {
                lemma_local_edits_are_not_shared::<P>(changed);
                lemma_set(b, changed, value, a, true, kept, id);
            },
            Edit::Dropped => {
                lemma_set(b, changed, value, a, false, kept, id);
            },
            Edit::Unknown => {},
        },
        Happening::HostSet(changed, value) => {
            let landed = choose|landed: bool| #[trigger]
                host_set(before, changed, value, after, landed);
            lemma_set(b, changed, value, a, landed, kept, id);
        },
        Happening::Automated(changed, value) => {
            assert(P::sets(b.live.processor, changed, value, a.live.processor));
            assert(a.live.processor.value(id) == b.live.processor.value(id));
        },
        Happening::Drained => {
            let notify = choose|notify: bool| #[trigger] engine::drained(b, a, notify);
            engine::law_a_drain_settles_the_values(b, a, notify, kept, id);
        },
        Happening::Served => {},
        Happening::Handed(access) => {},
        Happening::LoadStarted(data, r) => {
            if r == Some(LoadStart::Done(false)) {
                assert(P::loads(b.live.processor, data, false, a.live.processor));
                assert(a.live.processor.value(id) == b.live.processor.value(id));
            }
        },
        Happening::LoadFinished(r) => {},
    }
}

/// Whether a history leaves a parameter to its shared changes.
pub open spec fn undisturbed(history: Seq<Happening>, id: u32) -> bool {
    forall|i: int| 0 <= i < history.len() ==> is_calm(#[trigger] history[i], id)
}

/// Through any history that leaves a parameter to its shared changes, blocks
/// flowing or not and whatever happens to the others, an instance holds of it
/// exactly what a replica does that receives the same changes.
pub proof fn law_an_instance_lives_as_a_replica<P: Processor>(
    before: InstanceState<P>,
    history: Seq<Happening>,
    after: InstanceState<P>,
    id: u32,
    kept: spec_fn(u32, u64) -> u64,
)
    requires
        lives(before, history, after),
        before.engine is Some,
        engine::distinct_ids::<P>(),
        engine::isolated::<P>(),
        engine::keeps::<P>(kept),
        before.book.clocked(),
        params::shares(P::declared(), id),
        undisturbed(history, id),
    ensures
        after.engine is Some,
        after.book.clocked(),
        holding(after, id, kept) == lww::received_all(
            holding(before, id, kept),
            changes_in(history, id, kept),
        ),
    decreases history.len(),
{
    if history.len() > 0 {
        let rest = history.drop_last();
        let h = history.last();
        let mid = choose|mid: InstanceState<P>|
            lives(before, rest, mid) && #[trigger] happens(mid, h, after);
        assert forall|i: int| 0 <= i < rest.len() implies is_calm(#[trigger] rest[i], id) by {
            assert(rest[i] == history[i]);
        }
        law_an_instance_lives_as_a_replica(before, rest, mid, id, kept);
        assert(is_calm(history[history.len() - 1], id));
        lemma_happening(mid, h, after, id, kept);
        let front = changes_in(rest, id, kept);
        match change_in(h) {
            Some(c) if c.0 == id => {
                assert(changes_in(history, id, kept).drop_last() =~= front);
            },
            _ => {},
        }
    }
}

/// Sync converges, blocks flowing or not: where each version names one value,
/// two instances that agreed on a parameter's version agree on it again, and
/// on the value they play once nothing waits, as soon as both have had the
/// same changes of it, in whatever order and however often, and whatever
/// happened to their other parameters.
pub proof fn law_instances_converge<P: Processor>(
    a: InstanceState<P>,
    xs: Seq<Happening>,
    a_after: InstanceState<P>,
    b: InstanceState<P>,
    ys: Seq<Happening>,
    b_after: InstanceState<P>,
    id: u32,
    named: spec_fn(lww::Version) -> u64,
    kept: spec_fn(u32, u64) -> u64,
)
    requires
        lives(a, xs, a_after),
        lives(b, ys, b_after),
        a.engine is Some,
        b.engine is Some,
        engine::distinct_ids::<P>(),
        engine::isolated::<P>(),
        engine::keeps::<P>(kept),
        a.book.clocked(),
        b.book.clocked(),
        params::shares(P::declared(), id),
        undisturbed(xs, id),
        undisturbed(ys, id),
        holding(a, id, kept).is_named(named),
        holding(b, id, kept).is_named(named),
        a.book.known(id) == b.book.known(id),
        lww::carry_named_values(changes_in(xs, id, kept), named),
        lww::carry_named_values(changes_in(ys, id, kept), named),
        forall|v: lww::Version| #[trigger]
            lww::has_version(changes_in(xs, id, kept), v) <==> lww::has_version(
                changes_in(ys, id, kept),
                v,
            ),
    ensures
        a_after.book.known(id) == b_after.book.known(id),
        a_after.book.known(id) is Some ==> {
            &&& holding(a_after, id, kept).value == holding(b_after, id, kept).value
            &&& !engine::awaits(a_after.engine->0.commands, id) && !engine::awaits(
                b_after.engine->0.commands,
                id,
            ) ==> a_after.engine->0.live.processor.value(id)
                == b_after.engine->0.live.processor.value(id)
        },
{
    law_an_instance_lives_as_a_replica(a, xs, a_after, id, kept);
    law_an_instance_lives_as_a_replica(b, ys, b_after, id, kept);
    lww::law_replicas_converge(
        holding(a, id, kept),
        holding(b, id, kept),
        changes_in(xs, id, kept),
        changes_in(ys, id, kept),
        named,
    );
    engine::lemma_waiting(a_after.engine->0.commands, id);
    engine::lemma_waiting(b_after.engine->0.commands, id);
}

/// Of every shared parameter whose version may be advertised, the value that
/// the editor or the bus last gave it is the one that the version names.
pub open spec fn claims_are_named<P: Processor>(
    state: InstanceState<P>,
    named: spec_fn(u32, lww::Version) -> u64,
    kept: spec_fn(u32, u64) -> u64,
) -> bool {
    state.engine matches Some(e) ==> forall|id: u32|
        params::shares(P::declared(), id) ==> e.live.last_set.contains_key(id) && ((
        #[trigger] state.book.advertised(id)) matches Some(v) ==> engine::claimed(
            e.commands,
            e.live,
            id,
            kept,
        ) == named(id, v))
}

/// What a version names is what the plugin keeps: setting it to that value
/// once more changes nothing.
pub open spec fn names_what_is_kept(
    named: spec_fn(u32, lww::Version) -> u64,
    kept: spec_fn(u32, u64) -> u64,
) -> bool {
    forall|id: u32, v: lww::Version| kept(id, #[trigger] named(id, v)) == named(id, v)
}

/// Every entry of an answer carries the value that its version names, blocks
/// flowing or not, whatever automation did and whatever state was restored.
pub proof fn law_answers_carry_the_values_their_versions_name<P: Processor>(
    state: InstanceState<P>,
    named: spec_fn(u32, lww::Version) -> u64,
    kept: spec_fn(u32, u64) -> u64,
    k: int,
)
    requires
        claims_are_named(state, named, kept),
        0 <= k < told(state).len(),
    ensures
        told(state)[k].value == named(
            told(state)[k].id,
            (told(state)[k].seq, told(state)[k].origin),
        ),
{
    law_answers_tell_only_what_is_shared_and_fresh(state, k);
    let entry = told(state)[k];
    engine::lemma_waiting(state.engine->0.commands, entry.id);
    assert(state.book.advertised(entry.id) is Some);
}

/// An answer names a parameter only while the value in force is the one that
/// its version refers to.
pub proof fn law_answers_tell_the_values_in_force<P: Processor>(
    state: InstanceState<P>,
    named: spec_fn(u32, lww::Version) -> u64,
    kept: spec_fn(u32, u64) -> u64,
    k: int,
)
    requires
        claims_are_named(state, named, kept),
        state.engine matches Some(e) && engine::truthful(e.live),
        0 <= k < told(state).len(),
    ensures
        state.engine->0.live.processor.value(told(state)[k].id) == told(state)[k].value,
        state.engine->0.live.processor.value(told(state)[k].id) == named(
            told(state)[k].id,
            (told(state)[k].seq, told(state)[k].origin),
        ),
{
    law_answers_tell_only_what_is_shared_and_fresh(state, k);
    law_answers_carry_the_values_their_versions_name(state, named, kept, k);
    let e = state.engine->0;
    let entry = told(state)[k];
    let i = choose|i: int| 0 <= i < e.live.mirror.len() && e.live.mirror[i] == (
        entry.id,
        entry.value,
    );
    assert(e.live.mirror[i] == processor::all_values(e.live.processor)[i]);
}

/// Whatever happens to an instance, by its peers, its editor, its host, its
/// blocks or its project, its answers stay true: a shared change brings the
/// value that its version names, and nothing else is told under a version.
pub proof fn law_whatever_happens_keeps_answers_true<P: Processor>(
    before: InstanceState<P>,
    h: Happening,
    after: InstanceState<P>,
    named: spec_fn(u32, lww::Version) -> u64,
    kept: spec_fn(u32, u64) -> u64,
)
    requires
        claims_are_named(before, named, kept),
        happens(before, h, after),
        engine::distinct_ids::<P>(),
        engine::keeps::<P>(kept),
        names_what_is_kept(named, kept),
        before.book.clocked(),
        change_in(h) matches Some(c) ==> kept(c.0, c.2) == named(c.0, c.1),
    ensures
        claims_are_named(after, named, kept),
{
    let b = before.engine->0;
    let a = after.engine->0;
    match h {
        Happening::Edited(changed, value, Edit::Shared { seq, origin }) => {
            law_an_edit_is_a_change_like_any_other(before, changed, value, (seq, origin), after);
        },
        Happening::Edited(changed, value, Edit::Local) => {
            lemma_local_edits_are_not_shared::<P>(changed);
        },
        _ => {},
    }
    assert forall|id: u32| params::shares(P::declared(), id) implies a.live.last_set.contains_key(
        id,
    ) && ((#[trigger] after.book.advertised(id)) matches Some(v) ==> engine::claimed(
        a.commands,
        a.live,
        id,
        kept,
    ) == named(id, v)) by {
        let earlier = before.book.advertised(id);
        assert(b.live.last_set.contains_key(id));
        match h {
            Happening::Heard(changed, version, value) => {
                if before.book.wins(changed, version) {
                    lemma_set(b, changed, value, a, true, kept, id);
                }
            },
            Happening::Lost(changed, version, value) => {},
            Happening::Unversioned(changed, value) => {
                let landed = choose|landed: bool| #[trigger]
                    change_offered(before, changed, value, None, after, landed);
                if params::shares(P::declared(), changed) {
                    lemma_set(b, changed, value, a, landed, kept, id);
                    lww::law_unversioned_frames_keep_the_record(before.book, changed, (0, 0));
                }
            },
            Happening::Edited(changed, value, r) => {
                if !(r is Unknown) {
                    lemma_set(b, changed, value, a, !(r is Dropped), kept, id);
                }
            },
            Happening::HostSet(changed, value) => {
                let landed = choose|landed: bool| #[trigger]
                    host_set(before, changed, value, after, landed);
                lemma_set(b, changed, value, a, landed, kept, id);
                if let Some(v) = earlier {
                    assert(kept(id, named(id, v)) == named(id, v));
                }
            },
            Happening::Automated(changed, value) => {},
            Happening::Drained => {
                let notify = choose|notify: bool| #[trigger] engine::drained(b, a, notify);
                engine::law_a_drain_keeps_the_claims(b, a, notify, kept, id);
            },
            Happening::Served => {
                let notify = choose|notify: bool| #[trigger] engine::drained(b, a, notify);
                engine::law_a_drain_keeps_the_claims(b, a, notify, kept, id);
            },
            Happening::Handed(access) => {},
            Happening::LoadStarted(data, r) => {},
            Happening::LoadFinished(r) => {},
        }
    }
}

/// An instance that has not seen a shared change yet names nothing wrong and
/// tells nothing, whatever its processor holds.
pub proof fn law_a_new_instance_names_nothing<P: Processor>(
    state: InstanceState<P>,
    id: u32,
    named: spec_fn(u32, lww::Version) -> u64,
    kept: spec_fn(u32, u64) -> u64,
)
    requires
        state.book.versions == Map::<u32, lww::Version>::empty(),
        state.engine matches Some(e) ==> forall|id: u32|
            params::shares(P::declared(), id) ==> #[trigger] e.live.last_set.contains_key(id),
    ensures
        claims_are_named(state, named, kept),
        holding(state, id, kept).is_named(|v: lww::Version| named(id, v)),
        state.book.clocked(),
        told(state).len() == 0,
{
    if told(state).len() > 0 {
        law_answers_tell_only_what_is_shared_and_fresh(state, 0);
    }
}

/// The entries of an answer that concern a parameter, as changes, with the
/// values as the plugin keeps them.
pub open spec fn changes_of(
    entries: Seq<SyncEntry<u64>>,
    id: u32,
    kept: spec_fn(u32, u64) -> u64,
) -> Seq<(lww::Version, u64)>
    decreases entries.len(),
{
    if entries.len() == 0 {
        Seq::empty()
    } else {
        let front = changes_of(entries.drop_last(), id, kept);
        let e = entries.last();
        if e.id == id {
            front.push(((e.seq, e.origin), kept(id, e.value)))
        } else {
            front
        }
    }
}

/// Hearing an answer, an instance that has room for it does exactly what a
/// replica does that receives its entries, blocks flowing or not.
pub proof fn law_an_answer_is_received<P: Processor>(
    before: InstanceState<P>,
    entries: Seq<SyncEntry<u64>>,
    after: InstanceState<P>,
    n: int,
    id: u32,
    kept: spec_fn(u32, u64) -> u64,
)
    requires
        entries.len() <= n,
        takes_changes(before, n),
        forall|k: int|
            0 <= k < entries.len() ==> params::shares(P::declared(), (#[trigger] entries[k]).id),
        engine::isolated::<P>(),
        engine::keeps::<P>(kept),
        entries_offered(before, entries, after),
    ensures
        takes_changes(after, n - entries.len()),
        holding(after, id, kept) == lww::received_all(
            holding(before, id, kept),
            changes_of(entries, id, kept),
        ),
    decreases entries.len(),
{
    if entries.len() > 0 {
        let all = changes_of(entries, id, kept);
        let rest = entries.drop_last();
        let e = entries.last();
        let (mid, landed) = choose|mid: InstanceState<P>, landed: bool|
            entries_offered(before, rest, mid) && #[trigger] change_offered(
                mid,
                e.id,
                e.value,
                Some((e.seq, e.origin)),
                after,
                landed,
            );
        assert forall|k: int| 0 <= k < rest.len() implies params::shares(
            P::declared(),
            (#[trigger] rest[k]).id,
        ) by {
            assert(rest[k] == entries[k]);
        }
        law_an_answer_is_received(before, rest, mid, n, id, kept);
        assert(e == entries[entries.len() - 1]);
        law_an_instance_is_a_replica(
            mid,
            e.id,
            e.value,
            (e.seq, e.origin),
            after,
            landed,
            n - rest.len(),
            kept,
        );
        lww::law_changes_concern_one_parameter(
            pending_replica(mid, kept),
            (e.id, (e.seq, e.origin), kept(e.id, e.value)),
            id,
        );
        if e.id == id {
            assert(all.drop_last() =~= changes_of(rest, id, kept));
        }
    }
}

proof fn lemma_answered_values_are_named<P: Processor>(
    peer: InstanceState<P>,
    n: int,
    id: u32,
    named: spec_fn(u32, lww::Version) -> u64,
    kept: spec_fn(u32, u64) -> u64,
)
    requires
        claims_are_named(peer, named, kept),
        names_what_is_kept(named, kept),
        0 <= n <= told(peer).len(),
    ensures
        lww::carry_named_values(
            changes_of(told(peer).take(n), id, kept),
            |v: lww::Version| named(id, v),
        ),
        forall|k: int|
            0 <= k < n && (#[trigger] told(peer)[k]).id == id ==> lww::has_version(
                changes_of(told(peer).take(n), id, kept),
                (told(peer)[k].seq, told(peer)[k].origin),
            ),
    decreases n,
{
    let entries = told(peer).take(n);
    let all = changes_of(entries, id, kept);
    if n > 0 {
        lemma_answered_values_are_named(peer, n - 1, id, named, kept);
        let rest = told(peer).take(n - 1);
        let front = changes_of(rest, id, kept);
        assert(entries.drop_last() =~= rest);
        let e = entries.last();
        assert(e == told(peer)[n - 1]);
        law_answers_carry_the_values_their_versions_name(peer, named, kept, n - 1);
        assert(kept(e.id, named(e.id, (e.seq, e.origin))) == named(e.id, (e.seq, e.origin)));
        if e.id == id {
            assert forall|i: int| 0 <= i < all.len() implies (#[trigger] all[i]).1 == (
            |v: lww::Version| named(id, v))(all[i].0) by {
                if i < front.len() {
                    assert(all[i] == front[i]);
                }
            }
            assert forall|k: int| 0 <= k < n && (#[trigger] told(peer)[k]).id == id implies
                lww::has_version(all, (told(peer)[k].seq, told(peer)[k].origin)) by {
                if k < n - 1 {
                    let i = choose|i: int|
                        0 <= i < front.len() && (#[trigger] front[i]).0 == (
                            told(peer)[k].seq,
                            told(peer)[k].origin,
                        );
                    assert(all[i] == front[i]);
                } else {
                    assert(all[all.len() - 1].0 == (e.seq, e.origin));
                }
            }
        }
    }
}

/// A late joiner catches up with whoever answers it, blocks flowing or not on
/// either side: of everything that the answer names it then knows a version
/// at least as new, and what it plays once nothing waits is the value that
/// this version names. Where it knew nothing newer, that is the answer's.
pub proof fn law_a_late_joiner_catches_up<P: Processor>(
    peer: InstanceState<P>,
    before: InstanceState<P>,
    after: InstanceState<P>,
    named: spec_fn(u32, lww::Version) -> u64,
    kept: spec_fn(u32, u64) -> u64,
    k: int,
)
    requires
        claims_are_named(peer, named, kept),
        names_what_is_kept(named, kept),
        takes_changes(before, told(peer).len() as int),
        engine::isolated::<P>(),
        engine::keeps::<P>(kept),
        entries_offered(before, told(peer), after),
        0 <= k < told(peer).len(),
        holding(before, told(peer)[k].id, kept).is_named(
            |v: lww::Version| named(told(peer)[k].id, v),
        ),
    ensures
        ({
            let e = told(peer)[k];
            &&& after.book.known(e.id) matches Some(v)
            &&& !lww::newer((e.seq, e.origin), v)
            &&& holding(after, e.id, kept).value == named(e.id, v)
            &&& v == (e.seq, e.origin) ==> holding(after, e.id, kept).value == e.value
        }),
{
    let entries = told(peer);
    let e = entries[k];
    let changes = changes_of(entries, e.id, kept);
    let names = |v: lww::Version| named(e.id, v);
    assert forall|i: int| 0 <= i < entries.len() implies params::shares(
        P::declared(),
        (#[trigger] entries[i]).id,
    ) by {
        law_answers_tell_only_what_is_shared_and_fresh(peer, i);
    }
    law_an_answer_is_received(before, entries, after, entries.len() as int, e.id, kept);
    assert(entries.take(entries.len() as int) =~= entries);
    lemma_answered_values_are_named(peer, entries.len() as int, e.id, named, kept);
    assert(lww::has_version(changes, (e.seq, e.origin)));
    lww::law_the_newest_value_stands(
        holding(before, e.id, kept),
        changes,
        names,
        (e.seq, e.origin),
    );
    law_answers_carry_the_values_their_versions_name(peer, named, kept, k);
}

/// A shared parameter is told, whichever of the declared ones it is: where it
/// is declared as shared, its version may be advertised, no command that sets
/// it waits, and its mirrored value is the one that it was last set to, the
/// answer holds an entry with that parameter, that value and that version.
pub proof fn law_every_settled_shared_parameter_is_told<P: Processor>(
    state: InstanceState<P>,
    e: engine::EngineState<P>,
    d: int,
    i: int,
    seq: u64,
    origin: u64,
)
    requires
        state.engine == Some(e),
        forall|k: int|
            0 <= k < e.responses.len() ==> !((#[trigger] e.responses[k]) matches engine::StateResponse::Loaded {
                ok: true,
                ..
            }),
        0 <= d < P::declared().len(),
        P::declared()[d].shared,
        0 <= i < e.live.mirror.len(),
        e.live.mirror[i].0 == P::declared()[d].id,
        state.book.advertised(P::declared()[d].id) == Some((seq, origin)),
        forall|k: int|
            0 <= k < e.commands.len() ==> !((#[trigger] e.commands[k]) matches engine::Command::SetParam {
                id,
                ..
            } && id == P::declared()[d].id),
        e.live.last_set.contains_key(P::declared()[d].id),
        e.live.last_set[P::declared()[d].id] == e.live.mirror[i].1,
    ensures
        told(state).contains(
            (SyncEntry {
                id: P::declared()[d].id,
                value: e.live.mirror[i].1,
                seq,
                origin,
            }),
        ),
{
    let id = P::declared()[d].id;
    assert(params::shares(P::declared(), id));
    assert(engine::in_force(e, id, e.live.mirror[i].1));
    assert(!engine::restoring(e.responses));
    lemma_answer_has(e.live.mirror, e, state.book, i);
}

/// Nothing else is told: every entry of an answer is the mirrored value of a
/// parameter that is declared as shared, with the version that may be
/// advertised for it; no command that sets it waits, and the value is the one
/// that it was last set to. Nothing at all is told without an engine, nor
/// while restored state waits to be collected.
pub proof fn law_only_settled_shared_parameters_are_told<P: Processor>(
    state: InstanceState<P>,
    entry: SyncEntry<u64>,
)
    requires
        told(state).contains(entry),
    ensures
        state.engine is Some,
        forall|k: int|
            0 <= k < state.engine->0.responses.len() ==> !((
            #[trigger] state.engine->0.responses[k]) matches engine::StateResponse::Loaded { ok: true, .. }),
        exists|d: int|
            0 <= d < P::declared().len() && (#[trigger] P::declared()[d]).id == entry.id
                && P::declared()[d].shared,
        state.book.advertised(entry.id) == Some((entry.seq, entry.origin)),
        state.engine->0.live.mirror.contains((entry.id, entry.value)),
        forall|k: int|
            0 <= k < state.engine->0.commands.len() ==> !((
            #[trigger] state.engine->0.commands[k]) matches engine::Command::SetParam { id, .. } && id
                == entry.id),
        state.engine->0.live.last_set.contains_key(entry.id),
        state.engine->0.live.last_set[entry.id] == entry.value,
{
    let e = state.engine->0;
    let k = told(state).index_of(entry);
    assert(told(state)[k] == entry);
    lemma_answer_is_told(e.live.mirror, e, state.book, k);
    assert forall|k: int| 0 <= k < e.responses.len() implies !((
    #[trigger] e.responses[k]) matches engine::StateResponse::Loaded { ok: true, .. }) by {
        assert(!engine::restored(e.responses[k]));
    }
    assert forall|k: int| 0 <= k < e.commands.len() implies !((
    #[trigger] e.commands[k]) matches engine::Command::SetParam { id, .. } && id == entry.id) by {
        assert(!engine::changes(e.commands[k], entry.id));
    }
}

/// Answers list the parameters in the order of the mirror, and each mirrored
/// value at most once.
pub proof fn law_answers_keep_the_order_of_the_mirror<P: Processor>(
    front: Seq<(u32, u64)>,
    back: Seq<(u32, u64)>,
    e: engine::EngineState<P>,
    book: lww::Book,
)
    ensures
        told((InstanceState { engine: Some(e), book })) == (if engine::restoring(e.responses) {
            Seq::empty()
        } else {
            answer(e.live.mirror, e, book)
        }),
        told((InstanceState::<P> { engine: None, book })).len() == 0,
        answer(front + back, e, book) == answer(front, e, book) + answer(back, e, book),
        answer(back, e, book).len() <= back.len(),
    decreases back.len(),
{
    if back.len() == 0 {
        assert(front + back =~= front);
        assert(answer(back, e, book) =~= Seq::empty());
    } else {
        let rest = back.drop_last();
        law_answers_keep_the_order_of_the_mirror(front, rest, e, book);
        assert((front + back).drop_last() =~= front + rest);
        assert((front + back).last() == back.last());
    }
}

proof fn lemma_answer_is_told<P: Processor>(
    mirror: Seq<(u32, u64)>,
    e: engine::EngineState<P>,
    book: lww::Book,
    k: int,
)
    requires
        0 <= k < answer(mirror, e, book).len(),
    ensures
        ({
            let entry = answer(mirror, e, book)[k];
            &&& mirror.contains((entry.id, entry.value))
            &&& is_told(e, book, entry.id, entry.value)
            &&& book.advertised(entry.id) == Some((entry.seq, entry.origin))
        }),
    decreases mirror.len(),
{
    let rest = mirror.drop_last();
    let front = answer(rest, e, book);
    let entry = answer(mirror, e, book)[k];
    if k < front.len() {
        lemma_answer_is_told(rest, e, book, k);
        let j = rest.index_of((entry.id, entry.value));
        assert(mirror[j] == (entry.id, entry.value));
    } else {
        assert(mirror[mirror.len() - 1] == (entry.id, entry.value));
    }
}

/// A peer's change does nothing where the parameter is not declared as shared,
/// where its version is not above the known one (nor equal to it after the
/// value was displaced), or where there is no engine. Otherwise it goes to the
/// engine: while nobody holds the processor, the processor is set to exactly
/// that value; else it waits as the last command while there is room. What
/// entered, and only that, is recorded.
pub proof fn law_an_offer_lands_or_changes_nothing<P: Processor>(
    before: InstanceState<P>,
    id: u32,
    value: u64,
    version: Option<lww::Version>,
    after: InstanceState<P>,
    landed: bool,
)
    requires
        change_offered(before, id, value, version, after, landed),
    ensures
        (forall|d: int|
            0 <= d < P::declared().len() ==> !((#[trigger] P::declared()[d]).id == id
                && P::declared()[d].shared)) ==> after == before && !landed,
        before.engine is None ==> after == before && !landed,
        (version matches Some(v) && before.book.known(id) matches Some(k) && (v.0 < k.0 || (v.0
            == k.0 && v.1 < k.1) || (v == k && !before.book.displaced.contains(id)))) ==> after
            == before && !landed,
        !landed ==> after.book == before.book,
        landed ==> before.engine is Some && after.engine is Some,
        landed && before.engine->0.access is Idle ==> P::sets(
            before.engine->0.live.processor,
            id,
            value,
            after.engine->0.live.processor,
        ),
        landed && !(before.engine->0.access is Idle) ==> after.engine->0.live
            == before.engine->0.live && after.engine->0.commands == before.engine->0.commands
            + seq![engine::Command::SetParam { id, value }],
        landed ==> engine::set_param_outcome(before.engine->0, id, value, after.engine->0, true),
        !landed && after != before ==> engine::set_param_outcome(
            before.engine->0,
            id,
            value,
            after.engine->0,
            false,
        ),
        landed ==> (version matches Some(v) ==> after.book == before.book.recorded(id, v)),
        landed && version is None ==> after.book == before.book.overridden(id),
        landed ==> (version matches Some(v) ==> after.book.known(id) == Some(v)
            && after.book.advertised(id) == Some(v)),
        landed && version is None ==> after.book.known(id) == before.book.known(id)
            && after.book.advertised(id) is None,
        (exists|d: int|
            0 <= d < P::declared().len() && (#[trigger] P::declared()[d]).id == id
                && P::declared()[d].shared) && before.engine is Some && (
        before.engine->0.access is Idle || before.engine->0.commands.len() < 1024) && (
        version matches Some(v) ==> (before.book.known(id) matches Some(k) ==> v.0 > k.0 || (v.0
            == k.0 && v.1 > k.1) || (v == k && before.book.displaced.contains(id)))) ==> landed,
{
    if before.engine is Some && after.engine is Some {
        let b = before.engine->0;
        let a = after.engine->0;
        if engine::set_param_outcome(b, id, value, a, landed) {
            engine::law_setting_lands_now_or_waits_its_turn(b, id, value, a, landed, 0);
        }
    }
    if version is None {
        lww::law_unversioned_frames_keep_the_record(before.book, id, (0, 0));
    }
}

/// The entries of an answer are offered one after the other, each with its own
/// value and version, and none is left out.
pub proof fn law_every_entry_of_an_answer_is_offered<P: Processor>(
    before: InstanceState<P>,
    entries: Seq<SyncEntry<u64>>,
    after: InstanceState<P>,
) -> (r: (Seq<InstanceState<P>>, Seq<bool>))
    requires
        entries_offered(before, entries, after),
    ensures
        r.0.len() == entries.len() + 1,
        r.1.len() == entries.len(),
        r.0[0] == before,
        r.0[entries.len() as int] == after,
        forall|k: int|
            0 <= k < entries.len() ==> change_offered(
                r.0[k],
                (#[trigger] entries[k]).id,
                entries[k].value,
                Some((entries[k].seq, entries[k].origin)),
                r.0[k + 1],
                r.1[k],
            ),
    decreases entries.len(),
{
    if entries.len() == 0 {
        (seq![before], Seq::empty())
    } else {
        let rest = entries.drop_last();
        let e = entries.last();
        let (mid, landed) = choose|mid: InstanceState<P>, landed: bool|
            entries_offered(before, rest, mid) && #[trigger] change_offered(
                mid,
                e.id,
                e.value,
                Some((e.seq, e.origin)),
                after,
                landed,
            );
        let front = law_every_entry_of_an_answer_is_offered(before, rest, mid);
        let states = front.0.push(after);
        let flags = front.1.push(landed);
        let n = rest.len() as int;
        assert(states[n] == mid && states[n + 1] == after && entries[n] == e);
        assert forall|k: int| 0 <= k < entries.len() implies change_offered(
            states[k],
            (#[trigger] entries[k]).id,
            entries[k].value,
            Some((entries[k].seq, entries[k].origin)),
            states[k + 1],
            flags[k],
        ) by {
            if k < n {
                assert(entries[k] == rest[k]);
                assert(states[k] == front.0[k] && states[k + 1] == front.0[k + 1]);
                assert(flags[k] == front.1[k]);
            }
        }
        (states, flags)
    }
}

/// An edit of an undeclared parameter is unknown and changes nothing. Any other
/// goes to the engine: it is set at once while nobody holds the processor, and
/// waits as the last command otherwise; it is dropped exactly if it did neither.
/// What entered is stamped one past the clock, with the instance's own origin,
/// if the first declaration of the parameter is shared, and leaves the versions
/// alone if it is not.
pub proof fn law_an_edit_lands_and_is_stamped<P: Processor>(
    before: InstanceState<P>,
    id: u32,
    value: u64,
    after: InstanceState<P>,
    r: Edit,
    d: int,
)
    requires
        edited(before, id, value, after, r),
    ensures
        r is Unknown <==> (forall|k: int|
            0 <= k < P::declared().len() ==> (#[trigger] P::declared()[k]).id != id),
        r is Unknown || r is Dropped || r is Local ==> after.book == before.book,
        r is Unknown ==> after == before,
        !(r is Unknown) && (before.engine is None || (!(before.engine->0.access is Idle)
            && before.engine->0.commands.len() >= 1024)) ==> r is Dropped,
        !(r is Unknown) && before.engine is Some && (before.engine->0.access is Idle
            || before.engine->0.commands.len() < 1024) ==> !(r is Dropped),
        (r is Local || r is Shared) && before.engine->0.access is Idle ==> P::sets(
            before.engine->0.live.processor,
            id,
            value,
            after.engine->0.live.processor,
        ),
        (r is Local || r is Shared) && !(before.engine->0.access is Idle) ==> after.engine->0.live
            == before.engine->0.live && after.engine->0.commands == before.engine->0.commands
            + seq![engine::Command::SetParam { id, value }],
        0 <= d < P::declared().len() && P::declared()[d].id == id && (forall|k: int|
            0 <= k < d ==> (#[trigger] P::declared()[k]).id != id) ==> (r is Shared
            ==> P::declared()[d].shared) && (r is Local ==> !P::declared()[d].shared),
        !(r is Unknown) && before.engine is Some ==> engine::set_param_outcome(
            before.engine->0,
            id,
            value,
            after.engine->0,
            !(r is Dropped),
        ),
        before.engine is None ==> after == before,
        r is Shared ==> after.book == before.book.stamped(id),
        r matches Edit::Shared { seq, origin } ==> origin == before.book.origin && (
        before.book.clock < u64::MAX ==> seq == before.book.clock + 1) && after.book.known(id)
            == Some((seq, origin)) && after.book.advertised(id) == Some((seq, origin)),
{
    params::lemma_param_index(P::declared(), id);
    if before.engine is Some && after.engine is Some {
        let b = before.engine->0;
        let a = after.engine->0;
        if engine::set_param_outcome(b, id, value, a, !(r is Dropped)) {
            engine::law_setting_lands_now_or_waits_its_turn(b, id, value, a, !(r is Dropped), 0);
        }
    }
    if r is Shared {
        lww::law_stamping_concerns_one_parameter(before.book, id, id);
    }
}

/// A change by the host goes to the engine as any other. Only where it entered
/// and says something else than the parameter was last set to does it make the
/// parameter's version unfit to be advertised; no version is ever forgotten.
pub proof fn law_a_host_change_lands_and_silences<P: Processor>(
    before: InstanceState<P>,
    id: u32,
    value: u64,
    after: InstanceState<P>,
    landed: bool,
    other: u32,
)
    requires
        host_set(before, id, value, after, landed),
    ensures
        landed <==> before.engine is Some && (before.engine->0.access is Idle
            || before.engine->0.commands.len() < 1024),
        landed && before.engine->0.access is Idle ==> P::sets(
            before.engine->0.live.processor,
            id,
            value,
            after.engine->0.live.processor,
        ),
        landed && !(before.engine->0.access is Idle) ==> after.engine->0.live
            == before.engine->0.live && after.engine->0.commands == before.engine->0.commands
            + seq![engine::Command::SetParam { id, value }],
        before.engine is Some ==> engine::set_param_outcome(
            before.engine->0,
            id,
            value,
            after.engine->0,
            landed,
        ),
        before.engine is None ==> after == before,
        landed && !engine::set_to(before.engine->0, id, value) ==> after.book
            == before.book.rewritten(id),
        after.book.versions == before.book.versions,
        after.book.clock == before.book.clock,
        after.book.origin == before.book.origin,
        !landed || engine::set_to(before.engine->0, id, value) ==> after.book == before.book,
        landed && !engine::set_to(before.engine->0, id, value) ==> after.book.advertised(id) is None
            && !after.book.displaced.contains(id) && !after.book.fresh.contains(id),
        other != id ==> after.book.advertised(other) == before.book.advertised(other)
            && after.book.displaced.contains(other) == before.book.displaced.contains(other),
{
    if before.engine is Some && after.engine is Some {
        let b = before.engine->0;
        let a = after.engine->0;
        engine::law_setting_lands_now_or_waits_its_turn(b, id, value, a, landed, 0);
    }
}

/// A load is started only where there is an engine, with exactly the bytes that
/// were given, and only one that is done and went well makes every version
/// unfit to be advertised; the same holds of the answer that ends a load, and
/// the oldest answer is the one that is taken. No version is ever forgotten.
pub proof fn law_loads_silence_every_version<P: Processor>(
    before: InstanceState<P>,
    data: Seq<u8>,
    after: InstanceState<P>,
    started: Option<LoadStart>,
    finished: Option<bool>,
    id: u32,
)
    ensures
        load_started(before, data, after, started) ==> (started is None <==> before.engine is None),
        load_started(before, data, after, started) && started is Some ==> engine::load_outcome(
            before.engine->0,
            data,
            after.engine->0,
            started->0,
        ),
        load_started(before, data, after, started) && (before.engine is Some && (
        before.engine->0.access is Idle)) ==> (started matches Some(LoadStart::Done(ok))
            && P::loads(
            before.engine->0.live.processor,
            data,
            ok,
            after.engine->0.live.processor,
        ) && (ok ==> after.book.advertised(id) is None && !after.book.displaced.contains(id))),
        load_started(before, data, after, started) && started != Some(LoadStart::Done(true))
            ==> after.book == before.book,
        load_started(before, data, after, started) && started == Some(LoadStart::Done(true))
            ==> after.book == before.book.reloaded(),
        load_finished(before, after, finished) && finished == Some(true) ==> after.book
            == before.book.reloaded(),
        load_finished(before, after, finished) && finished != Some(true) ==> after.book
            == before.book,
        load_finished(before, after, finished) && finished == Some(true) ==> after.book.advertised(
            id,
        ) is None && !after.book.displaced.contains(id),
        load_finished(before, after, finished) ==> (finished is None <==> before.engine is None
            || before.engine->0.responses.len() == 0),
        load_finished(before, after, finished) && finished is Some ==> (finished == Some(true)
            <==> (before.engine->0.responses[0] matches engine::StateResponse::Loaded {
            ok: true,
            ..
        })) && after.engine->0.responses.len() == before.engine->0.responses.len() - 1 && (forall|
            k: int,
        |
            0 <= k < after.engine->0.responses.len() ==> #[trigger] after.engine->0.responses[k]
                == before.engine->0.responses[k + 1]) && after.engine->0.live
            == before.engine->0.live && after.engine->0.commands == before.engine->0.commands,
        load_started(before, data, after, started) || load_finished(before, after, finished)
            ==> after.book.versions == before.book.versions && after.book.clock
            == before.book.clock && after.book.origin == before.book.origin,
{
}

} // verus!
