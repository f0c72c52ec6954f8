//! Components with a state of their own: a value that the handlers of the
//! component can change and the rest of the application never sees.

use crate::builder::{
    built, lemma_silenced_same, BuildCx, Builder, Claims, Mounted, RebuildCx, State, ViewMarker,
};
use crate::cx::{chosen, fair, idle, made, made_of, remade, with, Choice, Cx, Token};
use crate::dom::{Dom, DomView, ListenerId, NodeId};
use crate::float::Float;
use core::marker::PhantomData;
use vstd::prelude::*;

verus! {

/// A callback that renders a value: it chooses a description for the value
/// and builds it with the context it is handed.
///
/// Every closure that takes a [`Cx`] and a reference to the value and
/// returns a [`Token`] is one.
///
/// In verified code, give the callback a type of its own that implements
/// this trait: Verus does not unfold `accepts` and `yields` for a closure,
/// so only code that is not verified can hand one over.
pub trait Render<T, S: Mounted> {
    /// Whether the callback can be called with these arguments.
    spec fn accepts(&self, cx: &Cx<S>, value: &T) -> bool;

    /// Whether the callback, called with these arguments, may return
    /// `token`.
    spec fn yields(&self, cx: &Cx<S>, value: &T, token: &Token<S>) -> bool;

    /// Calls the callback.
    fn render(&self, cx: Cx<S>, value: &T) -> (token: Token<S>)
        requires
            self.accepts(&cx, value),
        ensures
            self.yields(&cx, value, &token),
    ;
}

impl<T, S: Mounted, F: Fn(Cx<S>, &T) -> Token<S>> Render<T, S> for F {
    open spec fn accepts(&self, cx: &Cx<S>, value: &T) -> bool {
        call_requires(*self, (*cx, value))
    }

    open spec fn yields(&self, cx: &Cx<S>, value: &T, token: &Token<S>) -> bool {
        call_ensures(*self, (*cx, value), *token)
    }

    fn render(&self, cx: Cx<S>, value: &T) -> (token: Token<S>) {
        self(cx, value)
    }
}

/// The choice that a [`Render`] makes for one value.
pub struct ValueChoice<'a, R, T> {
    pub render: &'a R,
    pub value: &'a T,
}

impl<'a, R: Render<T, S>, T, S: Mounted> Choice<S> for ValueChoice<'a, R, T> {
    open spec fn accepts(&self, cx: &Cx<S>) -> bool {
        self.render.accepts(cx, self.value)
    }

    open spec fn yields(&self, cx: &Cx<S>, token: &Token<S>) -> bool {
        self.render.yields(cx, self.value, token)
    }

    fn pick(self, cx: Cx<S>) -> (token: Token<S>) {
        self.render.render(cx, self.value)
    }
}

/// A callback that makes the first value of a local state.
///
/// Every closure without parameters is one.
///
/// In verified code, give the callback a type of its own that implements
/// this trait: Verus does not unfold `accepts` and `yields` for a closure,
/// so only code that is not verified can hand one over.
pub trait Init: Sized {
    /// The type of the local state.
    type Value;

    /// Whether the callback can be called.
    spec fn accepts(&self) -> bool;

    /// Whether the callback may return `value`.
    spec fn yields(&self, value: &Self::Value) -> bool;

    /// Calls the callback.
    fn init(self) -> (value: Self::Value)
        requires
            self.accepts(),
        ensures
            self.yields(&value),
    ;
}

impl<T, F: FnOnce() -> T> Init for F {
    type Value = T;

    open spec fn accepts(&self) -> bool {
        call_requires(*self, ())
    }

    open spec fn yields(&self, value: &T) -> bool {
        call_ensures(*self, (), *value)
    }

    fn init(self) -> (value: T) {
        self()
    }
}

/// A component with a local state.
pub struct WithLocal<I, F, S> {
    init: I,
    f: F,
    phantom: PhantomData<S>,
}

/// The state of a [`WithLocal`]: the local value and the state of what was
/// rendered for it.
pub struct WithLocalState<T, S> {
    pub value: Float<T>,
    pub inner: Float<S>,
}

impl<T, S: Mounted> Mounted for WithLocalState<T, S> {
    open spec fn span(&self) -> Seq<NodeId> {
        self.inner.span()
    }

    open spec fn owns(&self, n: NodeId) -> bool {
        self.inner.owns(n)
    }

    open spec fn inv(&self, dom: DomView) -> bool {
        self.value.is_present() && self.inner.inv(dom)
    }

    open spec fn is_view(&self) -> bool {
        self.inner.is_view()
    }

    open spec fn claims(&self) -> Claims {
        self.inner.claims()
    }

    open spec fn settled(&self) -> bool {
        self.inner.settled()
    }

    open spec fn hears(&self, l: ListenerId) -> bool {
        self.inner.hears(l)
    }

    proof fn lemma_inv(&self, dom: DomView) {
        self.inner.lemma_inv(dom);
    }

    proof fn lemma_frame(&self, before: DomView, after: DomView) {
        assert forall|n: NodeId| #[trigger] self.inner.owns(n) implies after.nodes[n as int]
            == before.nodes[n as int] by {
            assert(self.owns(n));
        }
        self.inner.lemma_frame(before, after);
    }
}

impl<T, S: ViewMarker> ViewMarker for WithLocalState<T, S> {
    proof fn lemma_view(&self) {
        self.inner.lemma_view();
    }
}

impl<Output, T, S: State<(Output, T)>> State<Output> for WithLocalState<T, S> {
    /// What was rendered reacts on the pair of the shared data and the
    /// local value.
    open spec fn reacts(&self, dom: DomView, output: &Output, after: &Self, done: &Output) -> bool {
        &&& after.value.is_present()
        &&& self.inner.reacts(
            dom,
            &(*output, self.value.value()),
            &after.inner,
            &(*done, after.value.value()),
        )
    }

    /// Floats the shared data and the local value out, delivers the events
    /// to the inner component on the pair of them, and puts each back where
    /// it came from.
    fn run(&mut self, dom: &mut Dom, output: &mut Float<Output>) {
        let ghost s0 = *self;
        proof {
            lemma_silenced_same(dom@, &s0, &s0.inner);
        }
        let shared = output.take();
        let local = self.value.take();
        let mut data = Float::new((shared, local));
        self.inner.run(dom, &mut data);
        let (shared, local) = data.into_inner().unwrap();
        output.put(shared);
        self.value.put(local);
        proof {
            assert forall|n: NodeId| self.owns(n) == s0.owns(n) by {
                assert(self.inner.owns(n) == s0.inner.owns(n));
            }
        }
    }
}

impl<I: Init, F: Render<I::Value, S>, S: Mounted> WithLocal<I, F, S> {
    /// The callback that makes the first local value.
    pub closed spec fn init(&self) -> I {
        self.init
    }

    /// The callback that renders the local value.
    pub closed spec fn render(&self) -> &F {
        &self.f
    }

    /// The choice made for the local value `value`.
    pub open spec fn choice(&self, value: &I::Value) -> ValueChoice<'_, F, I::Value> {
        ValueChoice { render: self.render(), value }
    }
}

impl<I: Init, F: Render<I::Value, S>, S: Mounted> Builder for WithLocal<I, F, S> {
    type State = WithLocalState<I::Value, S>;

    /// The first value can be made, and the callback plays by the rules for
    /// every local value.
    open spec fn wf(&self) -> bool {
        &&& self.init().accepts()
        &&& forall|value: I::Value| fair(&#[trigger] self.choice(&value))
    }

    /// The state was completed by the callback for the local value.
    open spec fn describes(&self, state: &Self::State) -> bool {
        state.inner@ matches Some(inner) && chosen(&self.choice(&state.value.value()), &inner)
    }

    /// The callback, asked to rebuild the state for its local value, leaves
    /// the backing structure as it is.
    open spec fn matches(&self, state: &Self::State) -> bool {
        idle(&self.choice(&state.value.value()), &state.inner)
    }

    /// The local value stays, and the inner state is what the callback made
    /// of the inner state that was.
    open spec fn keeps(&self, old_state: &Self::State, state: &Self::State) -> bool {
        &&& state.value == old_state.value
        &&& state.inner.is_present()
        &&& old_state.inner.is_present() ==> exists|cx: RebuildCx| #[trigger]
            made_of(
                &self.choice(&old_state.value.value()),
                cx,
                &old_state.inner.value(),
                &state.inner.value(),
            )
    }

    /// The callback, asked to rebuild a state that it completed for a local
    /// value, leaves the backing structure as it is.
    open spec fn steady(&self) -> bool {
        forall|value: I::Value, state: Float<S>|
            state@ is Some && chosen(&self.choice(&value), &state.value()) ==> #[trigger] idle(
                &self.choice(&value),
                &state,
            )
    }

    proof fn lemma_steady(&self, state: &Self::State) {
        assert(idle(&self.choice(&state.value.value()), &state.inner));
    }

    /// Makes the first local value and builds what is rendered for it.
    fn build(self, cx: BuildCx, dom: &mut Dom) -> (state: Self::State)
        ensures
            self.init().yields(&state.value.value()),
            state.inner.is_present(),
            made(
                &self.choice(&state.value.value()),
                cx,
                old(dom)@,
                final(dom)@,
                &state.inner.value(),
            ),
    {
        let value = self.init.init();
        let choice = ValueChoice { render: &self.f, value: &value };
        proof {
            assert(choice == self.choice(&value));
        }
        let inner = with(choice).build(cx, dom);
        let state = WithLocalState { value: Float::new(value), inner };
        proof {
            assert forall|n: NodeId| #[trigger] state.owns(n) implies old(dom)@.len() <= n
                < dom@.len() by {
                assert(inner.owns(n));
            }
        }
        state
    }

    /// Rebuilds what is rendered for the local value as it is now.
    fn rebuild(self, cx: RebuildCx, dom: &mut Dom, state: &mut Self::State)
        ensures
            final(state).value == old(state).value,
            final(state).inner.is_present(),
            remade(
                &self.choice(&old(state).value.value()),
                cx,
                old(dom)@,
                &old(state).inner.value(),
                final(dom)@,
                &final(state).inner.value(),
            ),
    {
        let ghost s0 = *state;
        proof {
            assert forall|n: NodeId| #[trigger] s0.inner.owns(n) implies cx.parent < n by {
                assert(s0.owns(n));
            }
        }
        let value = state.value.as_ref().unwrap();
        let choice = ValueChoice { render: &self.f, value };
        proof {
            assert(choice == self.choice(value));
        }
        with(choice).rebuild(cx, dom, &mut state.inner);
        proof {
            assert forall|n: NodeId| #[trigger] state.owns(n) implies s0.owns(n) || old(
                dom,
            )@.len() <= n < dom@.len() by {
                assert(state.inner.owns(n));
            }
            assert forall|n: NodeId|
                n < old(dom)@.len() && n != cx.parent && !s0.owns(n)
                    implies #[trigger] dom@.nodes[n as int]
                == old(dom)@.nodes[n as int] by {
                assert(!s0.inner.owns(n));
            }
        }
    }
}

/// A component with a local state: `init` makes the first value when the
/// component is built, and `f` renders the value as it is on every cycle.
pub fn with_local<I: Init, F: Render<I::Value, S>, S: Mounted>(init: I, f: F) -> (view: WithLocal<
    I,
    F,
    S,
>)
    ensures
        view.init() == init,
        *view.render() == f,
{
    WithLocal { init, f, phantom: PhantomData }
}

} // verus!
