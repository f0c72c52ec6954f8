//! Choosing a component inside a callback: the callback is handed a context,
//! builds exactly one description with it, and returns the token it gets
//! back. The type of the description never shows in the callback's type.

use crate::builder::{
    build_ready, built, lemma_silenced_same, rebuild_ready, rebuilt, BuildCx, Builder, Claims,
    Mounted, RebuildCx, State, ViewMarker,
};
use crate::dom::{Dom, DomView, ListenerId, NodeId};
use crate::float::Float;
use core::marker::PhantomData;
use vstd::prelude::*;

verus! {

enum CxInner<S> {
    Build { place: BuildCx, dom: Dom },
    Rebuild { parent: RebuildCx, dom: Dom, state: S },
}

/// The context handed to the callback of [`with`]: it holds the backing
/// structure and either a place to build at or a state to rebuild.
pub struct Cx<S> {
    inner: CxInner<S>,
}

/// What [`Cx::build`] returns: the backing structure and the completed
/// state. A callback can get one only by building.
pub struct Token<S> {
    dom: Dom,
    state: S,
}

impl<S: Mounted> Cx<S> {
    /// Whether the context asks for a first build.
    pub closed spec fn is_build(&self) -> bool {
        self.inner is Build
    }

    /// The backing structure as the callback gets it.
    pub closed spec fn dom(&self) -> DomView {
        match self.inner {
            CxInner::Build { place, dom } => dom@,
            CxInner::Rebuild { parent, dom, state } => dom@,
        }
    }

    /// Where to build; meaningful when [`Self::is_build`].
    pub closed spec fn build_cx(&self) -> BuildCx {
        self.inner->place
    }

    /// Where to rebuild; meaningful unless [`Self::is_build`].
    pub closed spec fn rebuild_cx(&self) -> RebuildCx {
        self.inner->parent
    }

    /// The state to rebuild; meaningful unless [`Self::is_build`].
    pub closed spec fn state(&self) -> S {
        self.inner->state
    }

    /// Whether a description can be built with this context.
    pub open spec fn wf(&self) -> bool {
        if self.is_build() {
            build_ready(self.build_cx(), self.dom())
        } else {
            rebuild_ready(self.rebuild_cx(), self.dom(), &self.state())
        }
    }

    /// Builds `builder` where the context asks for a first build, rebuilds
    /// the context's state with it otherwise, and returns the token that
    /// completes the callback.
    pub fn build<B: Builder<State = S>>(self, builder: B) -> (token: Token<S>)
        requires
            self.wf(),
            builder.wf(),
        ensures
            token.completes(&self),
            builder.describes(&token.state()),
            !self.is_build() && builder.matches(&self.state()) ==> token.dom() == self.dom()
                && token.state().span() == self.state().span(),
            !self.is_build() ==> builder.keeps(&self.state(), &token.state()),
    {
        match self.inner {
            CxInner::Build { place, dom } => {
                let mut dom = dom;
                let state = builder.build(place, &mut dom);
                Token { dom, state }
            },
            CxInner::Rebuild { parent, dom, state } => {
                let mut dom = dom;
                let mut state = state;
                builder.rebuild(parent, &mut dom, &mut state);
                Token { dom, state }
            },
        }
    }
}

impl<S: Mounted> Token<S> {
    /// The backing structure as the callback leaves it.
    pub closed spec fn dom(&self) -> DomView {
        self.dom@
    }

    /// The completed state.
    pub closed spec fn state(&self) -> S {
        self.state
    }

    /// Whether the token is what building with `cx` gives: the state was
    /// built at the context's place, or rebuilt from the context's state.
    pub open spec fn completes(&self, cx: &Cx<S>) -> bool {
        if cx.is_build() {
            built(cx.build_cx(), cx.dom(), self.dom(), &self.state())
        } else {
            rebuilt(cx.rebuild_cx(), cx.dom(), &cx.state(), self.dom(), &self.state())
        }
    }
}

/// A callback that chooses a description and builds it with the context it
/// is handed.
///
/// Every closure that takes a [`Cx`] and returns a [`Token`] is one.
///
/// In verified code, give the callback a type of its own that implements
/// this trait and says in `accepts` and `yields` what it asks for and
/// gives: Verus does not unfold the two for a closure, so only code that
/// is not verified can hand one over.
pub trait Choice<S: Mounted>: Sized {
    /// Whether the callback can be called with `cx`.
    spec fn accepts(&self, cx: &Cx<S>) -> bool;

    /// Whether the callback, called with `cx`, may return `token`.
    spec fn yields(&self, cx: &Cx<S>, token: &Token<S>) -> bool;

    /// Calls the callback.
    fn pick(self, cx: Cx<S>) -> (token: Token<S>)
        requires
            self.accepts(&cx),
        ensures
            self.yields(&cx, &token),
    ;
}

impl<S: Mounted, F: FnOnce(Cx<S>) -> Token<S>> Choice<S> for F {
    open spec fn accepts(&self, cx: &Cx<S>) -> bool {
        call_requires(*self, (*cx,))
    }

    open spec fn yields(&self, cx: &Cx<S>, token: &Token<S>) -> bool {
        call_ensures(*self, (*cx,), *token)
    }

    fn pick(self, cx: Cx<S>) -> (token: Token<S>) {
        self(cx)
    }
}

/// Whether `choice` plays by the rules: it can be called with every context
/// that is ready, and the token it returns completes the context it was
/// called with.
pub open spec fn fair<F: Choice<S>, S: Mounted>(choice: &F) -> bool {
    &&& forall|cx: Cx<S>| #[trigger] cx.wf() ==> choice.accepts(&cx)
    &&& forall|cx: Cx<S>, token: Token<S>|
        cx.wf() && #[trigger] choice.yields(&cx, &token) ==> token.completes(&cx)
}

/// Whether `choice`, asked to rebuild `state`, leaves the backing structure
/// as it is.
pub open spec fn idle<F: Choice<S>, S: Mounted>(choice: &F, state: &Float<S>) -> bool {
    forall|cx: Cx<S>, token: Token<S>|
        cx.wf() && !cx.is_build() && Some(cx.state()) == state@ && #[trigger] choice.yields(
            &cx,
            &token,
        ) ==> token.dom() == cx.dom() && token.state().span() == cx.state().span()
}

/// Whether `state` is a state that `choice` completed: one that it returned
/// in the token for a context that was ready.
pub open spec fn chosen<F: Choice<S>, S: Mounted>(choice: &F, state: &S) -> bool {
    exists|cx: Cx<S>, token: Token<S>|
        cx.wf() && #[trigger] choice.yields(&cx, &token) && token.state() == *state
}

/// Whether `state` is what `choice` built at `cx` in `before`, leaving
/// `after`: the callback, handed a context that asks for a first build
/// there, returned the token that holds them.
pub open spec fn made<F: Choice<S>, S: Mounted>(
    choice: &F,
    cx: BuildCx,
    before: DomView,
    after: DomView,
    state: &S,
) -> bool {
    exists|asked: Cx<S>, token: Token<S>|
        {
            &&& asked.wf() && asked.is_build() && asked.build_cx() == cx && asked.dom() == before
            &&& #[trigger] choice.yields(&asked, &token)
            &&& token.dom() == after && token.state() == *state
        }
}

/// Whether `state` is what `choice` made of `old_state` under `cx` in
/// `before`, leaving `after`: the callback, handed a context that holds
/// `old_state` to rebuild, returned the token that holds them.
pub open spec fn remade<F: Choice<S>, S: Mounted>(
    choice: &F,
    cx: RebuildCx,
    before: DomView,
    old_state: &S,
    after: DomView,
    state: &S,
) -> bool {
    exists|asked: Cx<S>, token: Token<S>|
        {
            &&& asked.wf() && !asked.is_build() && asked.rebuild_cx() == cx
            &&& asked.dom() == before && asked.state() == *old_state
            &&& #[trigger] choice.yields(&asked, &token)
            &&& token.dom() == after && token.state() == *state
        }
}

/// Whether `state` is what `choice` built somewhere: the callback, handed
/// a context that asks for a first build, returned the token that holds it.
pub open spec fn made_anew<F: Choice<S>, S: Mounted>(choice: &F, state: &S) -> bool {
    exists|cx: BuildCx, before: DomView, after: DomView| #[trigger]
        made(choice, cx, before, after, state)
}

/// Whether `state` is what `choice` made of `old_state` under `cx`: the
/// callback, handed a context that holds `old_state` to rebuild, returned
/// the token that holds `state`.
pub open spec fn made_of<F: Choice<S>, S: Mounted>(
    choice: &F,
    cx: RebuildCx,
    old_state: &S,
    state: &S,
) -> bool {
    exists|before: DomView, after: DomView| #[trigger]
        remade(choice, cx, before, old_state, after, state)
}

/// A component whose description is chosen by a callback.
pub struct With<F, S> {
    f: F,
    phantom: PhantomData<S>,
}

impl<F: Choice<S>, S: Mounted> With<F, S> {
    /// The callback.
    pub closed spec fn callback(&self) -> F {
        self.f
    }
}

impl<S: Mounted> Mounted for Float<S> {
    open spec fn span(&self) -> Seq<NodeId> {
        self@.span()
    }

    open spec fn owns(&self, n: NodeId) -> bool {
        self@.owns(n)
    }

    open spec fn inv(&self, dom: DomView) -> bool {
        self@ is Some && self@.inv(dom)
    }

    open spec fn is_view(&self) -> bool {
        self@.is_view()
    }

    open spec fn claims(&self) -> Claims {
        self@.claims()
    }

    open spec fn settled(&self) -> bool {
        self@.settled()
    }

    open spec fn hears(&self, l: ListenerId) -> bool {
        self@.hears(l)
    }

    proof fn lemma_inv(&self, dom: DomView) {
        self@.lemma_inv(dom);
    }

    proof fn lemma_frame(&self, before: DomView, after: DomView) {
        assert forall|n: NodeId| #[trigger] self@.owns(n) implies after.nodes[n as int]
            == before.nodes[n as int] by {
            assert(self.owns(n));
        }
        self@.lemma_frame(before, after);
    }
}

impl<S: ViewMarker> ViewMarker for Float<S> {
    proof fn lemma_view(&self) {
        match self@ {
            Some(state) => {
                state.lemma_view();
            },
            None => {},
        }
    }
}

impl<Output, S: State<Output>> State<Output> for Float<S> {
    /// The state that is held reacts, and is held afterwards.
    open spec fn reacts(&self, dom: DomView, output: &Output, after: &Self, done: &Output) -> bool {
        after.is_present() && self.value().reacts(dom, output, &after.value(), done)
    }

    fn run(&mut self, dom: &mut Dom, output: &mut Float<Output>) {
        let ghost s0 = *self;
        proof {
            lemma_silenced_same(dom@, &s0, &s0.value());
        }
        match self.as_mut() {
            Ok(state) => {
                state.run(dom, output);
            },
            Err(_) => {},
        }
        proof {
            assert forall|n: NodeId| self.owns(n) == s0.owns(n) by {
                assert(self@->Some_0.owns(n) == s0@->Some_0.owns(n));
            }
        }
    }
}

impl<F: Choice<S>, S: Mounted> Builder for With<F, S> {
    type State = Float<S>;

    open spec fn wf(&self) -> bool {
        fair(&self.callback())
    }

    /// The state was completed by the callback.
    open spec fn describes(&self, state: &Float<S>) -> bool {
        state@ matches Some(inner) && chosen(&self.callback(), &inner)
    }

    open spec fn matches(&self, state: &Float<S>) -> bool {
        idle(&self.callback(), state)
    }

    /// The state is what the callback made of the state that was.
    open spec fn keeps(&self, old_state: &Self::State, state: &Self::State) -> bool {
        &&& state.is_present()
        &&& old_state.is_present() ==> exists|cx: RebuildCx| #[trigger]
            made_of(&self.callback(), cx, &old_state.value(), &state.value())
    }

    /// The callback, asked to rebuild a state that it completed, leaves the
    /// backing structure as it is.
    open spec fn steady(&self) -> bool {
        forall|state: Float<S>|
            state@ is Some && chosen(&self.callback(), &state.value()) ==> #[trigger] idle(
                &self.callback(),
                &state,
            )
    }

    proof fn lemma_steady(&self, state: &Float<S>) {
        assert(idle(&self.callback(), state));
    }

    /// Hands the callback a context that asks for a first build, and keeps
    /// the state of the token that it returns.
    fn build(self, cx: BuildCx, dom: &mut Dom) -> (state: Float<S>)
        ensures
            state.is_present(),
            made(&self.callback(), cx, old(dom)@, final(dom)@, &state.value()),
    {
        let mut taken = Dom::new();
        core::mem::swap(dom, &mut taken);
        let context = Cx { inner: CxInner::Build { place: cx, dom: taken } };
        assert(context.wf());
        let ghost asked = context;
        let token = self.f.pick(context);
        assert(self.callback().yields(&asked, &token));
        let Token { dom: done, state } = token;
        *dom = done;
        let state = Float::new(state);
        proof {
            assert forall|n: NodeId| #[trigger] state.owns(n) implies old(dom)@.len() <= n
                < dom@.len() by {
                assert(state@->Some_0.owns(n));
            }
        }
        state
    }

    /// Hands the callback a context that holds the state, and keeps the
    /// state of the token that it returns.
    fn rebuild(self, cx: RebuildCx, dom: &mut Dom, state: &mut Float<S>)
        ensures
            final(state).is_present(),
            remade(
                &self.callback(),
                cx,
                old(dom)@,
                &old(state).value(),
                final(dom)@,
                &final(state).value(),
            ),
    {
        let ghost s0 = *state;
        let mut taken = Dom::new();
        core::mem::swap(dom, &mut taken);
        proof {
            assert forall|n: NodeId| #[trigger] s0@->Some_0.owns(n) implies cx.parent < n by {
                assert(s0.owns(n));
            }
        }
        let inner = CxInner::Rebuild { parent: cx, dom: taken, state: state.take() };
        let context = Cx { inner };
        assert(context.wf());
        let ghost asked = context;
        let token = self.f.pick(context);
        assert(self.callback().yields(&asked, &token));
        let Token { dom: done, state: rebuilt } = token;
        *dom = done;
        state.put(rebuilt);
        proof {
            assert forall|n: NodeId| #[trigger] state.owns(n) implies s0.owns(n) || old(
                dom,
            )@.len() <= n < dom@.len() by {
                assert(state@->Some_0.owns(n));
            }
            assert forall|n: NodeId|
                n < old(dom)@.len() && n != cx.parent && !s0.owns(n)
                    implies #[trigger] dom@.nodes[n as int]
                == old(dom)@.nodes[n as int] by {
                assert(!s0@->Some_0.owns(n));
            }
            assert(remade(
                &self.callback(),
                cx,
                old(dom)@,
                &s0.value(),
                dom@,
                &state.value(),
            ));
            assert(made_of(&self.callback(), cx, &s0.value(), &state.value()));
        }
    }
}

/// A component whose description is chosen by `f`: `f` must build one
/// description with the context it is handed and return the token.
pub fn with<F: Choice<S>, S: Mounted>(f: F) -> (view: With<F, S>)
    ensures
        view.callback() == f,
{
    With { f, phantom: PhantomData }
}

} // verus!
