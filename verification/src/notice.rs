//! What a host still has to be told, for formats in which the plugin may
//! only speak up when the host next asks for something.
use vstd::prelude::*;

use crate::engine;
use crate::engine::{DrainReport, Engine};
use crate::processor::Processor;

verus! {

/// What to tell the host now.
#[derive(Clone, Copy, PartialEq, Eq, Structural, Debug)]
pub struct Notices {
    /// Parameter values changed without an edit; ask for them again.
    pub values_changed: bool,
    /// The latency changed.
    pub latency_changed: bool,
}

/// Remembers changes that the host has not been told of.
#[derive(Debug)]
pub struct Pending {
    dirty: bool,
}

impl Pending {
    /// Whether values changed since the host was last told.
    pub closed spec fn pending(&self) -> bool {
        self.dirty
    }

    /// Nothing to tell.
    pub fn new() -> (r: Self)
        ensures
            !r.pending(),
    {
        Pending { dirty: false }
    }

    /// A block began with queued changes taking effect, or with none.
    pub fn note(&mut self, report: &DrainReport)
        ensures
            final(self).pending() == (old(self).pending() || report.notify_main),
    {
        if report.notify_main {
            self.dirty = true;
        }
    }

    /// What to tell the host. Each change is told once: what is taken here is
    /// forgotten first, so that a host that asks back at once hears nothing
    /// new.
    pub fn take<P: Processor>(&mut self, engine: &mut Engine<P>) -> (r: Notices)
        requires
            old(engine).wf(),
        ensures
            final(engine).wf(),
            !final(self).pending(),
            r.values_changed == old(self).pending(),
            r.latency_changed == old(engine)@.latency_changed,
            final(engine)@ == (engine::EngineState { latency_changed: false, ..old(engine)@ }),
            final(engine).midi() == old(engine).midi(),
            final(engine).scratch() == old(engine).scratch(),
    {
        let values_changed: bool = self.dirty;
        self.dirty = false;
        let latency_changed: bool = engine.take_latency_changed();
        Notices { values_changed, latency_changed }
    }
}

} // verus!
