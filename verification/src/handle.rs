//! A handle that outlives the instance it reaches.
use vstd::prelude::*;

use crate::engine;
use crate::engine::Engine;
use crate::processor::Processor;

verus! {

/// What threads that may outlive an instance hold: the instance, or nothing
/// once it is gone. A change sent to an instance that is gone goes nowhere.
#[derive(Debug)]
pub struct EngineHandle<P> {
    engine: Option<Engine<P>>,
}

impl<P: Processor> EngineHandle<P> {
    /// The instance behind the handle, while there is one.
    pub closed spec fn instance(&self) -> Option<Engine<P>> {
        self.engine
    }

    /// The instance, if there is one, is well formed.
    pub closed spec fn wf(&self) -> bool {
        self.engine matches Some(e) ==> e.wf()
    }

    /// A handle on a live instance.
    pub fn new(engine: Engine<P>) -> (r: Self)
        requires
            engine.wf(),
        ensures
            r.wf(),
            r.instance() == Some(engine),
    {
        EngineHandle { engine: Some(engine) }
    }

    /// The instance, if it is still there.
    pub fn engine(&mut self) -> (r: Option<&mut Engine<P>>)
        requires
            old(self).wf(),
        ensures
            match r {
                Some(e) => {
                    &&& old(self).instance() == Some(*e)
                    &&& e.wf()
                    &&& final(self).instance() == Some(*final(e))
                    &&& final(e).wf() ==> final(self).wf()
                },
                None => old(self).instance() is None && final(self).instance() is None
                    && final(self).wf(),
            },
    {
        self.engine.as_mut()
    }

    /// The instance, to look at, if it is still there.
    pub fn get(&self) -> (r: Option<&Engine<P>>)
        requires
            self.wf(),
        ensures
            match r {
                Some(e) => self.instance() == Some(*e) && e.wf(),
                None => self.instance() is None,
            },
    {
        self.engine.as_ref()
    }

    /// Destroy the instance; the handle stays usable.
    pub fn close(&mut self) -> (r: Option<Engine<P>>)
        requires
            old(self).wf(),
        ensures
            r == old(self).instance(),
            final(self).instance() is None,
            final(self).wf(),
    {
        self.engine.take()
    }

    /// Route a parameter change to the instance. `false` means that it did
    /// not enter the engine: the instance is gone, or its queue is full.
    pub fn set_param(&mut self, id: u32, value: u64) -> (r: bool)
        requires
            old(self).wf(),
        ensures
            final(self).wf(),
            match (old(self).instance(), final(self).instance()) {
                (Some(before), Some(after)) => engine::set_param_outcome(
                    before@,
                    id,
                    value,
                    after@,
                    r,
                ),
                (None, None) => !r,
                _ => false,
            },
    {
        match self.engine.as_mut() {
            Some(e) => e.set_param(id, value),
            None => false,
        }
    }

    /// The mirrored parameter values; none once the instance is gone.
    pub fn snapshot_params(&self) -> (r: Vec<(u32, u64)>)
        ensures
            r@ == (match self.instance() {
                Some(e) => e@.live.mirror,
                None => Seq::empty(),
            }),
    {
        match &self.engine {
            Some(e) => e.mirror().snapshot(),
            None => Vec::new(),
        }
    }
}

} // verus!
