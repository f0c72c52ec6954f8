//! The run loop of one component tree, as the steps that whoever drives it
//! takes in turn: render once, then, each time an event woke the loop,
//! deliver the events, synchronize, and render again.

use crate::builder::{
    built, ran, rebuild_ready, rebuilt, silenced, BuildCx, Builder, Mounted, RebuildCx, State,
};
use crate::compose::{lemma_built_ready, lemma_ran_ready, lemma_rebuilt_ready};
use crate::cx::{chosen, fair, idle, made, remade, with};
use crate::dom::{Dom, DomView, NodeId, Position};
use crate::float::Float;
use crate::local::{Render, ValueChoice};
use vstd::prelude::*;

verus! {

/// Where a run loop stands between two steps.
#[derive(Clone, Copy, PartialEq, Eq, Structural, Debug)]
pub enum Phase {
    /// Nothing was rendered yet.
    NotStarted,
    /// The tree is rendered and the loop waits to be woken.
    Suspended,
    /// The loop was woken and the recorded events were delivered; the data
    /// waits to be synchronized.
    Syncing,
    /// The data was synchronized; the tree waits to be rendered again.
    Rendering,
    /// The synchronization asked for the end; no step follows.
    Terminated,
}

/// What is called on the data after the events of a cycle were delivered:
/// it may write the data elsewhere, and it may end the loop by returning a
/// value.
///
/// Every closure that takes a mutable reference to the data and returns an
/// option is one.
///
/// In verified code, give the callback a type of its own that implements
/// this trait: Verus does not unfold `ready` and `yields` for a closure,
/// so only code that is not verified can hand one over.
pub trait SyncStep<Data> {
    /// What the loop ends with.
    type Done;

    /// Whether the callback can be called, whatever the data.
    spec fn ready(&self) -> bool;

    /// Whether the callback, called on `data`, may leave `after` and return
    /// `done`.
    spec fn yields(&self, data: &Data, after: &Data, done: &Option<Self::Done>) -> bool;

    /// Calls the callback.
    fn sync(&mut self, data: &mut Data) -> (done: Option<Self::Done>)
        requires
            old(self).ready(),
        ensures
            final(self).ready(),
            old(self).yields(old(data), final(data), &done),
    ;
}

impl<Data, R, F: Fn(&mut Data) -> Option<R>> SyncStep<Data> for F {
    type Done = R;

    open spec fn ready(&self) -> bool {
        forall|target: &mut Data| call_requires(*self, (target,))
    }

    /// Holds whatever the closure did: a relation between values cannot
    /// speak of the reference that the closure is lent. What the closure
    /// promises is promised by `sync` below.
    open spec fn yields(&self, data: &Data, after: &Data, done: &Option<R>) -> bool {
        true
    }

    /// Calls the closure with the data and returns what it returns: what
    /// the closure promises of the reference it is lent and of its result
    /// holds of the data as it was and as it is left. The closure itself
    /// stays as it is.
    fn sync(&mut self, data: &mut Data) -> (done: Option<R>)
        ensures
            *final(self) == *old(self),
            exists|target: &mut Data|
                *target == *old(data) && *final(target) == *final(data)
                    && #[trigger] call_ensures(*old(self), (target,), done),
    {
        (*self)(data)
    }
}

/// The run loop of one component tree under the element `parent`.
pub struct RunLoop<S> {
    parent: NodeId,
    phase: Phase,
    state: Option<Float<S>>,
}

impl<S: Mounted> RunLoop<S> {
    /// The element that the tree is rendered into.
    pub closed spec fn parent(&self) -> NodeId {
        self.parent
    }

    /// Where the loop stands.
    pub closed spec fn phase(&self) -> Phase {
        self.phase
    }

    /// The state of the tree, once it is rendered.
    pub closed spec fn state(&self) -> Option<Float<S>> {
        self.state
    }

    /// Whether the loop and the backing structure fit together: a loop that
    /// did not start holds no state, and a started loop holds a state that
    /// is ready to be rebuilt under the parent.
    pub open spec fn inv(&self, dom: DomView) -> bool {
        match self.phase() {
            Phase::NotStarted => self.state() is None && dom.wf() && dom.is_element(self.parent()),
            Phase::Terminated
            | Phase::Suspended
            | Phase::Syncing
            | Phase::Rendering => self.state() is Some && rebuild_ready(
                RebuildCx { parent: self.parent() },
                dom,
                &self.state()->Some_0,
            ),
        }
    }

    /// A loop that will render into `parent`.
    pub fn new(parent: NodeId) -> (run: RunLoop<S>)
        ensures
            run.parent() == parent,
            run.phase() == Phase::NotStarted,
            run.state() is None,
    {
        RunLoop { parent, phase: Phase::NotStarted, state: None }
    }

    /// Where the loop stands.
    pub fn current(&self) -> (phase: Phase)
        ensures
            phase == self.phase(),
    {
        self.phase
    }

    /// The state of the tree, once it is rendered.
    pub fn tree(&self) -> (state: Option<&Float<S>>)
        ensures
            match state {
                Some(tree) => self.state() == Some(*tree),
                None => self.state() is None,
            },
    {
        self.state.as_ref()
    }

    /// The first step: calls `render` for the data with a context that asks
    /// for a first build at the end of the parent's children, keeps the tree
    /// that it completed, and suspends.
    pub fn start<Data, R: Render<Data, S>>(&mut self, dom: &mut Dom, data: &Float<Data>, render: &R)
        requires
            old(self).phase() == Phase::NotStarted,
            old(self).inv(old(dom)@),
            data.is_present(),
            fair(&ValueChoice { render, value: &data.value() }),
        ensures
            final(self).parent() == old(self).parent(),
            final(self).phase() == Phase::Suspended,
            final(self).inv(final(dom)@),
            built(
                BuildCx { position: Position { parent: old(self).parent(), insert_before: None } },
                old(dom)@,
                final(dom)@,
                &final(self).state()->Some_0,
            ),
            (final(self).state()->Some_0).is_present(),
            chosen(
                &ValueChoice { render, value: &data.value() },
                &(final(self).state()->Some_0).value(),
            ),
            made(
                &ValueChoice { render, value: &data.value() },
                BuildCx { position: Position { parent: old(self).parent(), insert_before: None } },
                old(dom)@,
                final(dom)@,
                &(final(self).state()->Some_0).value(),
            ),
    {
        let ghost d0 = dom@;
        let cx = BuildCx { position: Position { parent: self.parent, insert_before: None } };
        let value = data.as_ref().unwrap();
        let state = with(ValueChoice { render, value }).build(cx, dom);
        proof {
            lemma_built_ready(cx, d0, dom@, &state);
        }
        self.state = Some(state);
        self.phase = Phase::Suspended;
    }

    /// The step taken when the loop was woken: delivers the recorded events
    /// to the handlers of the tree.
    pub fn deliver<Data>(&mut self, dom: &mut Dom, data: &mut Float<Data>) where S: State<Data>
        requires
            old(self).phase() == Phase::Suspended,
            old(self).inv(old(dom)@),
            old(data).is_present(),
        ensures
            final(self).parent() == old(self).parent(),
            final(self).phase() == Phase::Syncing,
            final(self).inv(final(dom)@),
            ran(
                &old(self).state()->Some_0,
                old(dom)@,
                &final(self).state()->Some_0,
                final(dom)@,
                final(data),
            ),
            (old(self).state()->Some_0).reacts(
                old(dom)@,
                &old(data).value(),
                &final(self).state()->Some_0,
                &final(data).value(),
            ),
    {
        let ghost d0 = dom@;
        let cx = RebuildCx { parent: self.parent };
        let state = self.state.as_mut().unwrap();
        let ghost s0 = *state;
        state.run(dom, data);
        proof {
            lemma_ran_ready(cx, d0, &s0, dom@, &*state, &*data);
        }
        self.phase = Phase::Syncing;
    }

    /// The step after the events were delivered: calls `sync` on the data.
    /// Where `sync` returns a value the loop is terminated with it;
    /// otherwise the tree waits to be rendered again.
    pub fn synchronize<Data, Y: SyncStep<Data>>(
        &mut self,
        data: &mut Float<Data>,
        sync: &mut Y,
    ) -> (done: Option<Y::Done>)
        requires
            old(self).phase() == Phase::Syncing,
            old(data).is_present(),
            old(sync).ready(),
        ensures
            final(self).parent() == old(self).parent(),
            final(self).state() == old(self).state(),
            final(self).phase() == if done is Some {
                Phase::Terminated
            } else {
                Phase::Rendering
            },
            final(data).is_present(),
            final(sync).ready(),
            old(sync).yields(&old(data).value(), &final(data).value(), &done),
    {
        let done = sync.sync(data.as_mut().unwrap());
        self.phase = if done.is_some() {
            Phase::Terminated
        } else {
            Phase::Rendering
        };
        done
    }

    /// The step after the data was synchronized: calls `render` for the
    /// data with a context that holds the tree, keeps the tree that it
    /// completed, and suspends. A choice that leaves the tree as it is
    /// changes nothing in the backing structure.
    pub fn render<Data, R: Render<Data, S>>(
        &mut self,
        dom: &mut Dom,
        data: &Float<Data>,
        render: &R,
    )
        requires
            old(self).phase() == Phase::Rendering,
            old(self).inv(old(dom)@),
            data.is_present(),
            fair(&ValueChoice { render, value: &data.value() }),
        ensures
            final(self).parent() == old(self).parent(),
            final(self).phase() == Phase::Suspended,
            final(self).inv(final(dom)@),
            rebuilt(
                RebuildCx { parent: old(self).parent() },
                old(dom)@,
                &old(self).state()->Some_0,
                final(dom)@,
                &final(self).state()->Some_0,
            ),
            idle(&ValueChoice { render, value: &data.value() }, &old(self).state()->Some_0)
                ==> final(dom)@ == old(dom)@,
            (final(self).state()->Some_0).is_present(),
            chosen(
                &ValueChoice { render, value: &data.value() },
                &(final(self).state()->Some_0).value(),
            ),
            remade(
                &ValueChoice { render, value: &data.value() },
                RebuildCx { parent: old(self).parent() },
                old(dom)@,
                &(old(self).state()->Some_0).value(),
                final(dom)@,
                &(final(self).state()->Some_0).value(),
            ),
    {
        let ghost d0 = dom@;
        let cx = RebuildCx { parent: self.parent };
        let state = self.state.as_mut().unwrap();
        let ghost s0 = *state;
        let value = data.as_ref().unwrap();
        with(ValueChoice { render, value }).rebuild(cx, dom, state);
        proof {
            lemma_rebuilt_ready(cx, d0, &s0, dom@, &*state);
        }
        self.phase = Phase::Suspended;
    }

    /// One whole cycle after the loop was woken: delivers the events,
    /// synchronizes, and, unless the synchronization ends the loop, renders
    /// again and suspends.
    ///
    /// Where `sync` returns a value, the loop is terminated with it and the
    /// tree is left as the events found it; otherwise the tree is rebuilt
    /// from what the events and `sync` left of the data.
    pub fn resume<Data, Y: SyncStep<Data>, R: Render<Data, S>>(
        &mut self,
        dom: &mut Dom,
        data: &mut Float<Data>,
        sync: &mut Y,
        render: &R,
    ) -> (done: Option<Y::Done>) where S: State<Data>
        requires
            old(self).phase() == Phase::Suspended,
            old(self).inv(old(dom)@),
            old(data).is_present(),
            old(sync).ready(),
            forall|value: Data| fair(&#[trigger] ValueChoice { render, value: &value }),
        ensures
            final(self).parent() == old(self).parent(),
            final(self).inv(final(dom)@),
            final(data).is_present(),
            final(sync).ready(),
            final(self).phase() == if done is Some {
                Phase::Terminated
            } else {
                Phase::Suspended
            },
            exists|heard: Float<S>, mid: Data|
                {
                    &&& #[trigger] (old(self).state()->Some_0).reacts(
                        old(dom)@,
                        &old(data).value(),
                        &heard,
                        &mid,
                    )
                    &&& old(sync).yields(&mid, &final(data).value(), &done)
                    &&& if done is Some {
                        final(self).state() == Some(heard) && final(dom)@ == silenced(
                            old(dom)@,
                            &old(self).state()->Some_0,
                        )
                    } else {
                        &&& rebuilt(
                            RebuildCx { parent: old(self).parent() },
                            silenced(old(dom)@, &old(self).state()->Some_0),
                            &heard,
                            final(dom)@,
                            &final(self).state()->Some_0,
                        )
                        &&& heard.is_present()
                        &&& (final(self).state()->Some_0).is_present()
                        &&& remade(
                            &ValueChoice { render, value: &final(data).value() },
                            RebuildCx { parent: old(self).parent() },
                            silenced(old(dom)@, &old(self).state()->Some_0),
                            &heard.value(),
                            final(dom)@,
                            &(final(self).state()->Some_0).value(),
                        )
                    }
                },
    {
        let ghost d0 = dom@;
        let ghost s0 = self.state()->Some_0;
        let ghost o0 = data.value();
        self.deliver(dom, data);
        let ghost heard = self.state()->Some_0;
        let ghost mid = data.value();
        proof {
            assert(dom@ == silenced(d0, &s0));
            assert(s0.reacts(d0, &o0, &heard, &mid));
        }
        let done = self.synchronize(data, sync);
        if done.is_some() {
            return done;
        }
        self.render(dom, &*data, render);
        None
    }
}

} // verus!
