//! Components whose handlers work on other data than the data of the
//! component they stand in: an adapter hands them the part they work on.

use crate::builder::{
    built, lemma_silenced_same, silenced, BuildCx, Builder, Claims, Mounted, RebuildCx, State,
    ViewMarker,
};
use crate::dom::{Dom, DomView, ListenerId, NodeId};
use crate::float::Float;
use core::marker::PhantomData;
use vstd::prelude::*;

verus! {

/// A state that waits for its events to be delivered, together with the
/// backing structure.
pub struct Thunk<S> {
    state: S,
    dom: Dom,
}

/// What [`Thunk::run`] returns: the state and the backing structure after
/// the events were delivered. An adapter can get one only by running the
/// thunk.
pub struct ThunkResult<S> {
    state: S,
    dom: Dom,
}

impl<S: Mounted> Thunk<S> {
    /// The state that waits.
    pub closed spec fn state(&self) -> S {
        self.state
    }

    /// The backing structure as the adapter gets it.
    pub closed spec fn dom(&self) -> DomView {
        self.dom@
    }

    /// Whether the state holds in the backing structure.
    pub open spec fn wf(&self) -> bool {
        self.dom().wf() && self.state().inv(self.dom())
    }

    /// Delivers the recorded events to the handlers of the state, which
    /// work on `output`.
    pub fn run<Output>(self, output: &mut Float<Output>) -> (result: ThunkResult<S>) where
        S: State<Output>,

        requires
            self.wf(),
            old(output).is_present(),
        ensures
            result.completes(&self),
            final(output).is_present(),
            self.state().reacts(
                self.dom(),
                &old(output).value(),
                &result.state(),
                &final(output).value(),
            ),
    {
        let mut state = self.state;
        let mut dom = self.dom;
        state.run(&mut dom, output);
        ThunkResult { state, dom }
    }
}

impl<S: Mounted> ThunkResult<S> {
    /// The state after the events were delivered.
    pub closed spec fn state(&self) -> S {
        self.state
    }

    /// The backing structure as the adapter leaves it.
    pub closed spec fn dom(&self) -> DomView {
        self.dom@
    }

    /// Whether the result is what running `thunk` gives: the nodes and the
    /// log are untouched, the listeners of the state have handed out their
    /// events, and the state stands for the same nodes and listeners.
    pub open spec fn completes(&self, thunk: &Thunk<S>) -> bool {
        &&& self.dom().wf()
        &&& self.dom().nodes == thunk.dom().nodes
        &&& self.dom().log == thunk.dom().log
        &&& self.dom().listeners == silenced(thunk.dom(), &thunk.state()).listeners
        &&& self.state().inv(self.dom())
        &&& self.state().span() == thunk.state().span()
        &&& self.state().is_view() == thunk.state().is_view()
        &&& self.state().settled() == thunk.state().settled()
        &&& self.state().claims() == thunk.state().claims()
        &&& forall|n: NodeId| self.state().owns(n) == thunk.state().owns(n)
        &&& forall|l: ListenerId| self.state().hears(l) == thunk.state().hears(l)
    }
}

/// What adapts the data: it is handed a thunk and the data of the outer
/// component, and must run the thunk on the data of the inner component.
///
/// Every closure that takes a [`Thunk`] and a mutable reference to the
/// floated data and returns a [`ThunkResult`] is one.
///
/// In verified code, give the callback a type of its own that implements
/// this trait: Verus does not unfold `accepts` and `yields` for a closure,
/// so only code that is not verified can hand one over.
pub trait Adapter<S: Mounted, Output> {
    /// Whether the adapter can be called with these arguments.
    spec fn accepts(&self, thunk: &Thunk<S>, output: &Float<Output>) -> bool;

    /// Whether the adapter, called with `thunk` on `output`, may return
    /// `result` and leave `after`.
    spec fn yields(
        &self,
        thunk: &Thunk<S>,
        output: &Float<Output>,
        result: &ThunkResult<S>,
        after: &Float<Output>,
    ) -> bool;

    /// Calls the adapter.
    fn adapt(&self, thunk: Thunk<S>, output: &mut Float<Output>) -> (result: ThunkResult<S>)
        requires
            self.accepts(&thunk, old(output)),
        ensures
            self.yields(&thunk, old(output), &result, final(output)),
    ;
}

impl<S: Mounted, Output, F: Fn(Thunk<S>, &mut Float<Output>) -> ThunkResult<S>> Adapter<
    S,
    Output,
> for F {
    open spec fn accepts(&self, thunk: &Thunk<S>, output: &Float<Output>) -> bool {
        forall|target: &mut Float<Output>|
            *target == *output ==> call_requires(*self, (*thunk, target))
    }

    /// Holds whatever the closure did: a relation between values cannot
    /// speak of the reference that the closure is lent. What the closure
    /// promises is promised by `adapt` below.
    open spec fn yields(
        &self,
        thunk: &Thunk<S>,
        output: &Float<Output>,
        result: &ThunkResult<S>,
        after: &Float<Output>,
    ) -> bool {
        true
    }

    /// Calls the closure with the thunk and the data and returns what it
    /// returns: what the closure promises of the reference it is lent and
    /// of its result holds of the data as it was and as it is left.
    fn adapt(&self, thunk: Thunk<S>, output: &mut Float<Output>) -> (result: ThunkResult<S>)
        ensures
            exists|target: &mut Float<Output>|
                *target == *old(output) && *final(target) == *final(output)
                    && #[trigger] call_ensures(*self, (thunk, target), result),
    {
        self(thunk, output)
    }
}

/// Whether `adapter` plays by the rules: it can be called with every thunk
/// that is ready and every data that is present, returns what running the
/// thunk gives, and leaves the data present.
pub open spec fn sound<S: Mounted, Output, A: Adapter<S, Output>>(adapter: &A) -> bool {
    &&& forall|thunk: Thunk<S>, output: Float<Output>|
        thunk.wf() && output.is_present() ==> #[trigger] adapter.accepts(&thunk, &output)
    &&& forall|
        thunk: Thunk<S>,
        output: Float<Output>,
        result: ThunkResult<S>,
        after: Float<Output>,
    |
        thunk.wf() && output.is_present() && #[trigger] adapter.yields(
            &thunk,
            &output,
            &result,
            &after,
        ) ==> result.completes(&thunk) && after.is_present()
}

/// An adapter that takes the data of the outer component apart, runs the
/// thunk on one part, and puts the data together again.
pub struct Lens<G, P> {
    pub split: G,
    pub merge: P,
}

impl<S, Output, Part, Rest, G, P> Adapter<S, Output> for Lens<G, P> where
    S: State<Part>,
    G: Fn(Output) -> (Part, Rest),
    P: Fn(Part, Rest) -> Output,
 {
    open spec fn accepts(&self, thunk: &Thunk<S>, output: &Float<Output>) -> bool {
        &&& thunk.wf()
        &&& output.is_present()
        &&& forall|whole: Output| call_requires(self.split, (whole,))
        &&& forall|part: Part, rest: Rest| call_requires(self.merge, (part, rest))
    }

    open spec fn yields(
        &self,
        thunk: &Thunk<S>,
        output: &Float<Output>,
        result: &ThunkResult<S>,
        after: &Float<Output>,
    ) -> bool {
        &&& result.completes(thunk)
        &&& after.is_present()
        &&& exists|part: Part, rest: Rest, left: Part|
            {
                &&& #[trigger] call_ensures(self.split, (output.value(),), (part, rest))
                &&& #[trigger] thunk.state().reacts(thunk.dom(), &part, &result.state(), &left)
                &&& call_ensures(self.merge, (left, rest), after.value())
            }
    }

    fn adapt(&self, thunk: Thunk<S>, output: &mut Float<Output>) -> (result: ThunkResult<S>) {
        let whole = output.take();
        let (part, rest) = (self.split)(whole);
        let mut inner = Float::new(part);
        let result = thunk.run(&mut inner);
        let left = inner.into_inner().unwrap();
        output.put((self.merge)(left, rest));
        proof {
            assert(call_ensures(self.split, (old(output).value(),), (part, rest)));
            assert(thunk.state().reacts(thunk.dom(), &part, &result.state(), &left));
        }
        result
    }
}

/// A component whose handlers are handed their data by an adapter.
pub struct Adapt<B, F, Output> {
    builder: B,
    f: F,
    phantom: PhantomData<Output>,
}

/// The state of an [`Adapt`]: the state of the inner component and the
/// adapter.
pub struct AdaptState<S, F, Output> {
    inner: Float<S>,
    f: F,
    phantom: PhantomData<Output>,
}

impl<S, F, Output> AdaptState<S, F, Output> {
    /// The state of the inner component.
    pub closed spec fn inner(&self) -> Float<S> {
        self.inner
    }

    /// The adapter.
    pub closed spec fn adapter(&self) -> &F {
        &self.f
    }

    /// The state of the inner component.
    pub fn inner_state(&self) -> (inner: &Float<S>)
        ensures
            *inner == self.inner(),
    {
        &self.inner
    }
}

impl<S: Mounted, F: Adapter<S, Output>, Output> Mounted for AdaptState<S, F, Output> {
    open spec fn span(&self) -> Seq<NodeId> {
        self.inner().span()
    }

    open spec fn owns(&self, n: NodeId) -> bool {
        self.inner().owns(n)
    }

    open spec fn inv(&self, dom: DomView) -> bool {
        self.inner().inv(dom) && sound(self.adapter())
    }

    open spec fn is_view(&self) -> bool {
        self.inner().is_view()
    }

    open spec fn claims(&self) -> Claims {
        self.inner().claims()
    }

    open spec fn settled(&self) -> bool {
        self.inner().settled()
    }

    open spec fn hears(&self, l: ListenerId) -> bool {
        self.inner().hears(l)
    }

    proof fn lemma_inv(&self, dom: DomView) {
        self.inner().lemma_inv(dom);
    }

    proof fn lemma_frame(&self, before: DomView, after: DomView) {
        assert forall|n: NodeId| #[trigger] self.inner().owns(n) implies after.nodes[n as int]
            == before.nodes[n as int] by {
            assert(self.owns(n));
        }
        self.inner().lemma_frame(before, after);
    }
}

impl<S: ViewMarker, F: Adapter<S, Output>, Output> ViewMarker for AdaptState<S, F, Output> {
    proof fn lemma_view(&self) {
        self.inner().lemma_view();
    }
}

impl<S: Mounted, F: Adapter<S, Output>, Output> State<Output> for AdaptState<S, F, Output> {
    /// The adapter stays, and what it may return for the inner state and
    /// the data is what is left.
    open spec fn reacts(&self, dom: DomView, output: &Output, after: &Self, done: &Output) -> bool {
        &&& after.adapter() == self.adapter()
        &&& after.inner().is_present()
        &&& exists|
            thunk: Thunk<S>,
            given: Float<Output>,
            result: ThunkResult<S>,
            left: Float<Output>,
        |
            {
                &&& thunk.state() == self.inner().value()
                &&& thunk.dom() == dom
                &&& given.is_present() && given.value() == *output
                &&& result.state() == after.inner().value()
                &&& left.is_present() && left.value() == *done
                &&& #[trigger] self.adapter().yields(&thunk, &given, &result, &left)
            }
    }

    /// Hands the inner state and the data to the adapter, which delivers
    /// the events.
    fn run(&mut self, dom: &mut Dom, output: &mut Float<Output>) {
        let ghost s0 = *self;
        let ghost d0 = dom@;
        let ghost o0 = *output;
        let mut taken = Dom::new();
        core::mem::swap(dom, &mut taken);
        let thunk = Thunk { state: self.inner.take(), dom: taken };
        assert(thunk.wf());
        proof {
            lemma_silenced_same(d0, &s0, &thunk.state());
        }
        let result = self.f.adapt(thunk, output);
        proof {
            assert(s0.adapter().yields(&thunk, &o0, &result, &*output));
        }
        let ThunkResult { state, dom: done } = result;
        *dom = done;
        self.inner.put(state);
        proof {
            assert forall|n: NodeId| self.owns(n) == s0.owns(n) by {
                assert(self.inner()@->Some_0.owns(n) == s0.inner()@->Some_0.owns(n));
            }
        }
    }
}

impl<B: Builder, F: Adapter<B::State, Output>, Output> Adapt<B, F, Output> {
    /// The description of the inner component.
    pub closed spec fn builder(&self) -> &B {
        &self.builder
    }

    /// The adapter.
    pub closed spec fn adapter(&self) -> &F {
        &self.f
    }
}

impl<B: Builder, F: Adapter<B::State, Output>, Output> Builder for Adapt<B, F, Output> {
    type State = AdaptState<B::State, F, Output>;

    /// The inner description can be built and the adapter plays by the
    /// rules.
    open spec fn wf(&self) -> bool {
        self.builder().wf() && sound(self.adapter())
    }

    /// The state keeps this adapter, and its inner state shows what the
    /// inner description asks for.
    open spec fn describes(&self, state: &Self::State) -> bool {
        &&& state.adapter() == self.adapter()
        &&& state.inner()@ matches Some(inner) && self.builder().describes(&inner)
    }

    open spec fn matches(&self, state: &Self::State) -> bool {
        state.inner()@ matches Some(inner) && self.builder().matches(&inner)
    }

    /// The inner component keeps what it keeps.
    open spec fn keeps(&self, old_state: &Self::State, state: &Self::State) -> bool {
        old_state.inner().is_present() && state.inner().is_present() ==> self.builder().keeps(
            &old_state.inner().value(),
            &state.inner().value(),
        )
    }

    open spec fn steady(&self) -> bool {
        self.builder().steady()
    }

    proof fn lemma_steady(&self, state: &Self::State) {
        self.builder().lemma_steady(&state.inner().value());
    }

    /// Builds the inner component and keeps the adapter with its state.
    fn build(self, cx: BuildCx, dom: &mut Dom) -> (state: Self::State) {
        let inner = self.builder.build(cx, dom);
        let state = AdaptState { inner: Float::new(inner), f: self.f, phantom: PhantomData };
        proof {
            assert forall|n: NodeId| #[trigger] state.owns(n) implies old(dom)@.len() <= n
                < dom@.len() by {
                assert(inner.owns(n));
            }
        }
        state
    }

    /// Rebuilds the inner component and replaces the adapter.
    fn rebuild(self, cx: RebuildCx, dom: &mut Dom, state: &mut Self::State) {
        let ghost s0 = *state;
        proof {
            assert forall|n: NodeId| #[trigger] s0.inner()@->Some_0.owns(n) implies cx.parent
                < n by {
                assert(s0.owns(n));
            }
        }
        state.f = self.f;
        self.builder.rebuild(cx, dom, state.inner.as_mut().unwrap());
        proof {
            assert forall|n: NodeId| #[trigger] state.owns(n) implies s0.owns(n) || old(
                dom,
            )@.len() <= n < dom@.len() by {
                assert(state.inner()@->Some_0.owns(n));
            }
            assert forall|n: NodeId|
                n < old(dom)@.len() && n != cx.parent && !s0.owns(n)
                    implies #[trigger] dom@.nodes[n as int]
                == old(dom)@.nodes[n as int] by {
                assert(!s0.inner()@->Some_0.owns(n));
            }
        }
    }
}

/// Adapts `builder` to a component whose handlers work on `Output`: `f`
/// must run the thunk it is handed on the data that the handlers of
/// `builder` work on.
pub fn adapt<B: Builder, F: Adapter<B::State, Output>, Output>(builder: B, f: F) -> (view: Adapt<
    B,
    F,
    Output,
>)
    ensures
        *view.builder() == builder,
        *view.adapter() == f,
{
    Adapt { builder, f, phantom: PhantomData }
}

/// Adapts `builder` to a component whose handlers work on `Output`, for
/// handlers that work on a part of it: `split` takes the part out of the
/// data and `merge` puts it back.
pub fn adapt_ref<B, Output, Part, Rest, G, P>(builder: B, split: G, merge: P) -> (view: Adapt<
    B,
    Lens<G, P>,
    Output,
>) where
    B: Builder,
    B::State: State<Part>,
    G: Fn(Output) -> (Part, Rest),
    P: Fn(Part, Rest) -> Output,

    ensures
        *view.builder() == builder,
        view.adapter().split == split,
        view.adapter().merge == merge,
{
    Adapt { builder, f: Lens { split, merge }, phantom: PhantomData }
}

} // verus!
