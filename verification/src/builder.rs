//! The protocol every component follows: a description is built once into a
//! state and rebuilt into that state on every later cycle.

use crate::dom::{lemma_index_of, Dom, DomView, ListenerId, ListenerView, NodeId, Position};
use crate::float::Float;
use vstd::prelude::*;

verus! {

/// The backend whose backing structure is a [`Dom`].
#[derive(Clone, Copy, Debug)]
pub struct Web;

/// What a component needs to build itself: where to put its nodes.
#[derive(Clone, Copy, Debug)]
pub struct BuildCx {
    pub position: Position,
}

/// What a component needs to rebuild itself: the element it lives under.
#[derive(Clone, Copy, Debug)]
pub struct RebuildCx {
    pub parent: NodeId,
}

/// What a state holds of the attributes it wrote on the element it lives
/// under: for each name the text it last gave the attribute, or `None` where
/// it last asked for the attribute to be absent.
pub type Claims = Map<Seq<char>, Option<Seq<char>>>;

/// The text of the attribute `name`, or `None` where it is absent.
pub open spec fn value_at(attrs: Map<Seq<char>, Seq<char>>, name: Seq<char>) -> Option<
    Seq<char>,
> {
    if attrs.contains_key(name) {
        Some(attrs[name])
    } else {
        None
    }
}

/// The text that `claims` hold for the attribute `name`, or `None` where
/// they hold none.
pub open spec fn claimed(claims: Claims, name: Seq<char>) -> Option<Seq<char>> {
    if claims.contains_key(name) {
        claims[name]
    } else {
        None
    }
}

/// What building does to the attribute `name` of the parent: it has the text
/// that the state claims for it, and is as it was where the state claims
/// none.
pub open spec fn attr_built(
    before: Map<Seq<char>, Seq<char>>,
    claims: Claims,
    after: Map<Seq<char>, Seq<char>>,
    name: Seq<char>,
) -> bool {
    value_at(after, name) == if claimed(claims, name) is Some {
        claimed(claims, name)
    } else {
        value_at(before, name)
    }
}

/// What rebuilding does to the attribute `name` of the parent: an attribute
/// that the state does not claim is as it was; one that it claims is as it
/// was or as the new claim has it, and as the new claim has it where the
/// claim changed.
pub open spec fn attr_rebuilt(
    before: Map<Seq<char>, Seq<char>>,
    old_claims: Claims,
    claims: Claims,
    after: Map<Seq<char>, Seq<char>>,
    name: Seq<char>,
) -> bool {
    if old_claims.contains_key(name) {
        &&& value_at(after, name) == value_at(before, name) || value_at(after, name)
            == claims[name]
        &&& old_claims[name] != claims[name] ==> value_at(after, name) == claims[name]
    } else {
        value_at(after, name) == value_at(before, name)
    }
}

/// The index at which `span` starts in `children`; 0 for an empty span,
/// which has no place of its own.
pub open spec fn offset(children: Seq<NodeId>, span: Seq<NodeId>) -> int {
    if span.len() == 0 {
        0
    } else {
        children.index_of(span[0])
    }
}

/// Whether `span` stands in `children` as one run, starting at its
/// [`offset`].
pub open spec fn located(children: Seq<NodeId>, span: Seq<NodeId>) -> bool {
    let at = offset(children, span);
    0 <= at && at + span.len() <= children.len() && children.subrange(
        at,
        at + span.len(),
    ) == span
}

/// `children` with the `old_len` nodes from index `at` on replaced by
/// `span`.
pub open spec fn spliced(children: Seq<NodeId>, at: int, old_len: int, span: Seq<NodeId>) -> Seq<
    NodeId,
> {
    children.take(at) + span + children.skip(at + old_len)
}

/// A run found at `at` in a list without duplicates is located there.
pub proof fn lemma_located(children: Seq<NodeId>, span: Seq<NodeId>, at: int)
    requires
        children.no_duplicates(),
        0 <= at,
        at + span.len() <= children.len(),
        children.subrange(at, at + span.len()) == span,
    ensures
        located(children, span),
        span.len() > 0 ==> offset(children, span) == at,
{
    if span.len() > 0 {
        assert(children.subrange(at, at + span.len())[0] == span[0]);
        lemma_index_of(children, at);
    } else {
        assert(children.subrange(0, 0) =~= span);
    }
}

/// The state of a component as far as the backing structure is concerned:
/// which nodes it stands for and what must hold of them.
pub trait Mounted {
    /// The nodes that this state contributes to the children of the element
    /// it lives under, first to last.
    spec fn span(&self) -> Seq<NodeId>;

    /// Whether node `n` belongs to this state: it is in the span or below a
    /// node of the span.
    spec fn owns(&self, n: NodeId) -> bool;

    /// Whether the backing structure holds what this state stands for.
    spec fn inv(&self, dom: DomView) -> bool;

    /// Whether the span is all that this state put into the backing
    /// structure: it wrote no attribute of the element it lives under.
    spec fn is_view(&self) -> bool;

    /// What this state holds of the attributes it wrote on the element it
    /// lives under.
    spec fn claims(&self) -> Claims;

    /// Whether no attribute is claimed by two parts of this state.
    spec fn settled(&self) -> bool;

    /// Whether the events recorded at listener `l` go to a handler of this
    /// state.
    spec fn hears(&self, l: ListenerId) -> bool;

    /// A state owns its span, and only nodes that exist; it hears only
    /// listeners that exist.
    proof fn lemma_inv(&self, dom: DomView)
        requires
            self.inv(dom),
        ensures
            forall|i: int| 0 <= i < self.span().len() ==> self.owns(#[trigger] self.span()[i]),
            forall|n: NodeId| #[trigger] self.owns(n) ==> n < dom.len(),
            forall|l: ListenerId| #[trigger] self.hears(l) ==> l < dom.listeners.len(),
    ;

    /// The invariant depends on the owned nodes alone: a structure that
    /// grew and left them as they were keeps it.
    proof fn lemma_frame(&self, before: DomView, after: DomView)
        requires
            self.inv(before),
            before.nodes.len() <= after.nodes.len(),
            before.listeners.len() <= after.listeners.len(),
            forall|n: NodeId| #[trigger]
                self.owns(n) ==> after.nodes[n as int] == before.nodes[n as int],
        ensures
            self.inv(after),
    ;
}

/// Whether a component can be built at `cx` in `dom`.
pub open spec fn build_ready(cx: BuildCx, dom: DomView) -> bool {
    dom.wf() && cx.position.wf(dom)
}

/// What building a component at `cx` does to the backing structure: the
/// state's span is put at the position, every owned node and every listener
/// heard is new, and no other node but the parent is touched. Of the parent, a view changes the
/// children alone, and a settled state the attributes it claims besides.
pub open spec fn built<S: Mounted>(
    cx: BuildCx,
    before: DomView,
    after: DomView,
    state: &S,
) -> bool {
    let parent = cx.position.parent;
    &&& after.wf()
    &&& after.grown_from(before)
    &&& state.inv(after)
    &&& forall|n: NodeId| #[trigger] state.owns(n) ==> before.len() <= n < after.len()
    &&& forall|l: ListenerId| #[trigger]
        state.hears(l) ==> before.listeners.len() <= l < after.listeners.len()
    &&& after.children(parent) == spliced(
        before.children(parent),
        cx.position.index(before),
        0,
        state.span(),
    )
    &&& same_place(before, after, parent)
    &&& (state.is_view() ==> after.attrs(parent) == before.attrs(parent))
    &&& (state.settled() ==> forall|name: Seq<char>| #[trigger]
        attr_built(before.attrs(parent), state.claims(), after.attrs(parent), name))
    &&& forall|n: NodeId|
        n < before.len() && n != parent ==> #[trigger] after.nodes[n as int]
            == before.nodes[n as int]
}

/// The parent keeps its kind, its name and its own parent.
pub open spec fn same_place(before: DomView, after: DomView, parent: NodeId) -> bool {
    &&& after.kind(parent) == before.kind(parent)
    &&& after.text(parent) == before.text(parent)
    &&& after.parent(parent) == before.parent(parent)
}

/// Whether `state` can be rebuilt under `cx.parent` in `dom`: it holds
/// there, its span stands among the parent's children as one run, and all
/// its nodes are younger than the parent.
pub open spec fn rebuild_ready<S: Mounted>(cx: RebuildCx, dom: DomView, state: &S) -> bool {
    &&& dom.wf()
    &&& dom.is_element(cx.parent)
    &&& state.inv(dom)
    &&& located(dom.children(cx.parent), state.span())
    &&& forall|n: NodeId| #[trigger] state.owns(n) ==> cx.parent < n
}

/// What rebuilding a component does to the backing structure: the new span
/// stands where the old one stood, every owned node was owned before or is
/// new, and so is every listener heard, and no node but the parent and the
/// old state's own is touched. Of
/// the parent, a view changes the children alone, and a settled state the
/// attributes it claims besides.
pub open spec fn rebuilt<S: Mounted>(
    cx: RebuildCx,
    before: DomView,
    old_state: &S,
    after: DomView,
    state: &S,
) -> bool {
    let parent = cx.parent;
    &&& after.wf()
    &&& after.grown_from(before)
    &&& state.inv(after)
    &&& forall|n: NodeId| #[trigger]
        state.owns(n) ==> old_state.owns(n) || before.len() <= n < after.len()
    &&& forall|l: ListenerId| #[trigger]
        state.hears(l) ==> old_state.hears(l) || before.listeners.len() <= l
            < after.listeners.len()
    &&& (old_state.span().len() == 0 ==> state.span().len() == 0)
    &&& after.children(parent) == spliced(
        before.children(parent),
        offset(before.children(parent), old_state.span()),
        old_state.span().len() as int,
        state.span(),
    )
    &&& same_place(before, after, parent)
    &&& (old_state.is_view() ==> state.is_view() && after.attrs(parent) == before.attrs(parent))
    &&& state.settled() == old_state.settled()
    &&& forall|name: Seq<char>| #[trigger]
        state.claims().contains_key(name) == old_state.claims().contains_key(name)
    &&& (old_state.settled() ==> forall|name: Seq<char>| #[trigger]
        attr_rebuilt(
            before.attrs(parent),
            old_state.claims(),
            state.claims(),
            after.attrs(parent),
            name,
        ))
    &&& forall|n: NodeId|
        n < before.len() && n != parent && !old_state.owns(n) ==> #[trigger] after.nodes[n as int]
            == before.nodes[n as int]
}

/// A description of a component: it can be built into a state once, and
/// rebuilt into that state any number of times.
pub trait Builder: Sized {
    /// The state of the component.
    type State: Mounted;

    /// Whether the description can be built: what it was given to call can
    /// be called.
    spec fn wf(&self) -> bool;

    /// Whether `state` shows what this description asks for.
    spec fn describes(&self, state: &Self::State) -> bool;

    /// Whether `state` was last built or rebuilt from a description equal in
    /// value to this one.
    spec fn matches(&self, state: &Self::State) -> bool;

    /// What a rebuild with this description keeps of a state: the nodes and
    /// listeners that stay the same, and whose work the new state is.
    spec fn keeps(&self, old_state: &Self::State, state: &Self::State) -> bool;

    /// Whether the description asks for the same every time it is asked: a
    /// description made of plain values does, and one that calls a callback
    /// does where the callback, asked to rebuild a state that it completed,
    /// leaves the backing structure as it is.
    spec fn steady(&self) -> bool;

    /// A steady description matches every state that shows what it asks
    /// for, so rebuilding such a state with it changes nothing.
    proof fn lemma_steady(&self, state: &Self::State)
        requires
            self.steady(),
            self.describes(state),
        ensures
            self.matches(state),
    ;

    /// Creates the component at `cx.position`.
    fn build(self, cx: BuildCx, dom: &mut Dom) -> (state: Self::State)
        requires
            self.wf(),
            build_ready(cx, old(dom)@),
        ensures
            built(cx, old(dom)@, final(dom)@, &state),
            self.describes(&state),
    ;

    /// Updates the component in place. A description that matches the state
    /// changes nothing in the backing structure.
    fn rebuild(self, cx: RebuildCx, dom: &mut Dom, state: &mut Self::State)
        requires
            self.wf(),
            rebuild_ready(cx, old(dom)@, old(state)),
        ensures
            rebuilt(cx, old(dom)@, old(state), final(dom)@, final(state)),
            self.describes(final(state)),
            self.keeps(old(state), final(state)),
            self.matches(old(state)) ==> final(dom)@ == old(dom)@ && final(state).span() == old(
                state,
            ).span(),
    ;
}

/// Whether `state` is the state of a view: the span is all that it put into
/// the backing structure, and it claims no attribute.
pub open spec fn plain<S: Mounted + ?Sized>(state: &S) -> bool {
    &&& state.is_view()
    &&& state.settled()
    &&& forall|name: Seq<char>| !state.claims().contains_key(name)
}

/// Marks the states of views: components that can be taken out of the
/// backing structure by removing the nodes of their span, because the span is
/// all they put there.
pub trait ViewMarker: Mounted {
    /// The state of a view is a view.
    proof fn lemma_view(&self)
        ensures
            plain(self),
    ;
}

/// A component whose state is the state of a view.
///
/// Elements, text and what is made of them are views; attributes and event
/// handlers, which stay with the element they were put on, are not.
pub trait Fragment: Builder<State = Self::ViewState> {
    type ViewState: ViewMarker;
}

impl<T, S: ViewMarker> Fragment for T where T: Builder<State = S> {
    type ViewState = S;
}

/// `dom` once the events recorded at the listeners of `state` were handed
/// out: none is pending there, and all else is as it was.
pub open spec fn silenced<S: Mounted + ?Sized>(dom: DomView, state: &S) -> DomView {
    DomView {
        listeners: Seq::new(
            dom.listeners.len(),
            |l: int|
                if state.hears(l as ListenerId) {
                    ListenerView { pending: None, ..dom.listeners[l] }
                } else {
                    dom.listeners[l]
                },
        ),
        ..dom
    }
}

/// A state that hears nothing silences nothing.
pub proof fn lemma_silenced_none<S: Mounted + ?Sized>(dom: DomView, state: &S)
    requires
        forall|l: ListenerId| !#[trigger] state.hears(l),
    ensures
        silenced(dom, state) == dom,
{
    assert(silenced(dom, state).listeners =~= dom.listeners);
}

/// States that hear the same listeners silence the same.
pub proof fn lemma_silenced_same<S: Mounted + ?Sized, T: Mounted + ?Sized>(
    dom: DomView,
    state: &S,
    other: &T,
)
    requires
        forall|l: ListenerId| #[trigger] state.hears(l) == other.hears(l),
    ensures
        silenced(dom, state) == silenced(dom, other),
{
    assert(silenced(dom, state).listeners =~= silenced(dom, other).listeners);
}

/// Silencing for one state and then for another is silencing for a state
/// that hears what either of them hears.
pub proof fn lemma_silenced_both<S: Mounted + ?Sized, T: Mounted + ?Sized, U: Mounted + ?Sized>(
    dom: DomView,
    first: &S,
    second: &T,
    both: &U,
)
    requires
        forall|l: ListenerId| #[trigger] both.hears(l) == (first.hears(l) || second.hears(l)),
    ensures
        silenced(silenced(dom, first), second) == silenced(dom, both),
{
    assert(silenced(silenced(dom, first), second).listeners =~= silenced(dom, both).listeners);
}

/// What must hold for events to be delivered to `state`.
pub open spec fn run_ready<S: Mounted + ?Sized, Output>(
    state: &S,
    dom: DomView,
    output: &Float<Output>,
) -> bool {
    dom.wf() && state.inv(dom) && output.is_present()
}

/// What delivering events does to the backing structure: the nodes and the
/// log are untouched, the listeners of the state have handed out the events
/// they had recorded, and the state stands for the same nodes and listeners.
pub open spec fn ran<S: Mounted + ?Sized, Output>(
    old_state: &S,
    before: DomView,
    state: &S,
    after: DomView,
    output: &Float<Output>,
) -> bool {
    &&& after.wf()
    &&& after.nodes == before.nodes
    &&& after.log == before.log
    &&& after.listeners == silenced(before, old_state).listeners
    &&& state.inv(after)
    &&& state.span() == old_state.span()
    &&& state.is_view() == old_state.is_view()
    &&& state.settled() == old_state.settled()
    &&& state.claims() == old_state.claims()
    &&& forall|n: NodeId| state.owns(n) == old_state.owns(n)
    &&& forall|l: ListenerId| state.hears(l) == old_state.hears(l)
    &&& output.is_present()
}

/// The state of a component whose event handlers work on an `Output`.
pub trait State<Output>: Mounted {
    /// Whether delivering the events recorded in `dom` to the handlers of
    /// this state, which find the data as `output`, may leave the state as
    /// `after` and the data as `done`.
    spec fn reacts(&self, dom: DomView, output: &Output, after: &Self, done: &Output) -> bool;

    /// Delivers the events recorded since the last pass to the handlers of
    /// this component, in the order in which the handlers were declared.
    fn run(&mut self, dom: &mut Dom, output: &mut Float<Output>)
        requires
            run_ready(old(self), old(dom)@, old(output)),
        ensures
            ran(old(self), old(dom)@, final(self), final(dom)@, final(output)),
            old(self).reacts(
                old(dom)@,
                &old(output).value(),
                final(self),
                &final(output).value(),
            ),
    ;
}

} // verus!
