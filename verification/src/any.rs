//! Views whose type is chosen at run time: one slot holds a state of the one
//! view or of the other, between two markers. Rebuilding with the view whose
//! state the slot holds updates it in place; rebuilding with the other view
//! replaces everything between the markers.

use crate::builder::{
    built, lemma_silenced_same, rebuilt, BuildCx, Builder, Claims, Fragment, Mounted, RebuildCx,
    State, ViewMarker,
};
use crate::compose::{
    bracket, build_marker, lemma_bracket_ends, lemma_build_between, lemma_build_next,
    lemma_build_pair, lemma_built_as, lemma_clear_between, lemma_first_ready, lemma_first_rebuilt,
    lemma_front_child, lemma_ready_as, lemma_rebuilt_as, lemma_rebuilt_ready, lemma_rebuilt_twice,
    lemma_second_ready, lemma_second_rebuilt, same_nodes, Marker,
};
use crate::dom::{clear, Dom, DomView, ListenerId, NodeId, Position};
use crate::float::Float;
use core::marker::PhantomData;
use vstd::prelude::*;

verus! {

/// What the slot of a dynamic view holds: a state of the first view or a
/// state of the second.
pub enum AnySlot<A, B> {
    First(A),
    Second(B),
}

impl<A: Mounted, B: Mounted> Mounted for AnySlot<A, B> {
    open spec fn span(&self) -> Seq<NodeId> {
        match self {
            AnySlot::First(state) => state.span(),
            AnySlot::Second(state) => state.span(),
        }
    }

    open spec fn owns(&self, n: NodeId) -> bool {
        match self {
            AnySlot::First(state) => state.owns(n),
            AnySlot::Second(state) => state.owns(n),
        }
    }

    open spec fn inv(&self, dom: DomView) -> bool {
        match self {
            AnySlot::First(state) => state.inv(dom),
            AnySlot::Second(state) => state.inv(dom),
        }
    }

    open spec fn is_view(&self) -> bool {
        match self {
            AnySlot::First(state) => state.is_view(),
            AnySlot::Second(state) => state.is_view(),
        }
    }

    open spec fn claims(&self) -> Claims {
        match self {
            AnySlot::First(state) => state.claims(),
            AnySlot::Second(state) => state.claims(),
        }
    }

    open spec fn settled(&self) -> bool {
        match self {
            AnySlot::First(state) => state.settled(),
            AnySlot::Second(state) => state.settled(),
        }
    }

    open spec fn hears(&self, l: ListenerId) -> bool {
        match self {
            AnySlot::First(state) => state.hears(l),
            AnySlot::Second(state) => state.hears(l),
        }
    }

    proof fn lemma_inv(&self, dom: DomView) {
        match self {
            AnySlot::First(state) => {
                state.lemma_inv(dom);
            },
            AnySlot::Second(state) => {
                state.lemma_inv(dom);
            },
        }
    }

    proof fn lemma_frame(&self, before: DomView, after: DomView) {
        match self {
            AnySlot::First(state) => {
                assert forall|n: NodeId| #[trigger] state.owns(n) implies after.nodes[n as int]
                    == before.nodes[n as int] by {
                    assert(self.owns(n));
                }
                state.lemma_frame(before, after);
            },
            AnySlot::Second(state) => {
                assert forall|n: NodeId| #[trigger] state.owns(n) implies after.nodes[n as int]
                    == before.nodes[n as int] by {
                    assert(self.owns(n));
                }
                state.lemma_frame(before, after);
            },
        }
    }
}

/// The state of a dynamic view: the two markers and the slot between them.
pub struct AnyState<A, B> {
    state: AnySlot<A, B>,
    start: NodeId,
    end: NodeId,
}

impl<A, B> AnyState<A, B> {
    /// The marker in front of the region.
    pub closed spec fn start(&self) -> NodeId {
        self.start
    }

    /// The marker behind the region.
    pub closed spec fn end(&self) -> NodeId {
        self.end
    }

    /// What the slot holds.
    pub closed spec fn slot(&self) -> AnySlot<A, B> {
        self.state
    }

    /// The state seen as what it is made of: the start marker, the slot,
    /// the end marker.
    pub open spec fn parts(&self) -> ((Marker, Option<AnySlot<A, B>>), Marker) {
        (
            (Marker { node: self.start(), data: "{" }, Some(self.slot())),
            Marker { node: self.end(), data: "}" },
        )
    }

    /// The marker in front of the region.
    pub fn start_id(&self) -> (node: NodeId)
        ensures
            node == self.start(),
    {
        self.start
    }

    /// The marker behind the region.
    pub fn end_id(&self) -> (node: NodeId)
        ensures
            node == self.end(),
    {
        self.end
    }

    /// What the slot holds.
    pub fn slot_ref(&self) -> (slot: &AnySlot<A, B>)
        ensures
            *slot == self.slot(),
    {
        &self.state
    }
}

impl<A: Mounted, B: Mounted> Mounted for AnyState<A, B> {
    open spec fn span(&self) -> Seq<NodeId> {
        self.parts().span()
    }

    open spec fn owns(&self, n: NodeId) -> bool {
        self.parts().owns(n)
    }

    open spec fn inv(&self, dom: DomView) -> bool {
        self.parts().inv(dom)
    }

    open spec fn is_view(&self) -> bool {
        true
    }

    open spec fn claims(&self) -> Claims {
        self.parts().claims()
    }

    open spec fn settled(&self) -> bool {
        self.parts().settled()
    }

    open spec fn hears(&self, l: ListenerId) -> bool {
        self.parts().hears(l)
    }

    proof fn lemma_inv(&self, dom: DomView) {
        self.parts().lemma_inv(dom);
    }

    proof fn lemma_frame(&self, before: DomView, after: DomView) {
        assert forall|n: NodeId| #[trigger] self.parts().owns(n) implies after.nodes[n as int]
            == before.nodes[n as int] by {
            assert(self.owns(n));
        }
        self.parts().lemma_frame(before, after);
    }
}

impl<A: ViewMarker, B: ViewMarker> ViewMarker for AnySlot<A, B> {
    proof fn lemma_view(&self) {
        match self {
            AnySlot::First(state) => {
                state.lemma_view();
            },
            AnySlot::Second(state) => {
                state.lemma_view();
            },
        }
    }
}

impl<A: ViewMarker, B: ViewMarker> ViewMarker for AnyState<A, B> {
    proof fn lemma_view(&self) {
        self.slot().lemma_view();
        assert(self.claims() =~= Map::empty());
    }
}

/// A dynamic view stands for the same nodes as its parts.
pub proof fn lemma_any_parts<A: ViewMarker, B: ViewMarker>(state: &AnyState<A, B>)
    ensures
        same_nodes(state, &state.parts()),
        same_nodes(&state.parts(), state),
{
    match state.slot() {
        AnySlot::First(inner) => {
            inner.lemma_view();
        },
        AnySlot::Second(inner) => {
            inner.lemma_view();
        },
    }
}

impl<Output, A: State<Output>, B: State<Output>> State<Output> for AnyState<A, B> {
    /// The markers stay, and the state between them reacts.
    open spec fn reacts(&self, dom: DomView, output: &Output, after: &Self, done: &Output) -> bool {
        &&& after.start() == self.start()
        &&& after.end() == self.end()
        &&& match self.slot() {
            AnySlot::First(state) => after.slot() matches AnySlot::First(next) && state.reacts(
                dom,
                output,
                &next,
                done,
            ),
            AnySlot::Second(state) => after.slot() matches AnySlot::Second(next) && state.reacts(
                dom,
                output,
                &next,
                done,
            ),
        }
    }

    fn run(&mut self, dom: &mut Dom, output: &mut Float<Output>) {
        let ghost d0 = dom@;
        let ghost s0 = *self;
        proof {
            match s0.slot() {
                AnySlot::First(state) => {
                    lemma_silenced_same(d0, &s0, &state);
                },
                AnySlot::Second(state) => {
                    lemma_silenced_same(d0, &s0, &state);
                },
            }
        }
        match &mut self.state {
            AnySlot::First(state) => {
                state.run(dom, output);
            },
            AnySlot::Second(state) => {
                state.run(dom, output);
            },
        }
        proof {
            let d1 = dom@;
            let old_parts = s0.parts();
            let new_parts = self.parts();
            assert(self.start() == s0.start() && self.end() == s0.end());
            assert forall|n: NodeId| self.slot().owns(n) == s0.slot().owns(n) by {}
            assert(new_parts.0.0.inv(d1));
            assert(new_parts.1.inv(d1));
            assert(new_parts.0.1.inv(d1));
            assert forall|n: NodeId|
                !(#[trigger] new_parts.0.0.owns(n) && new_parts.0.1.owns(n)) by {
                assert(!(old_parts.0.0.owns(n) && old_parts.0.1.owns(n)));
            }
            assert forall|n: NodeId| !(#[trigger] new_parts.0.owns(n) && new_parts.1.owns(n)) by {
                assert(new_parts.0.owns(n) == old_parts.0.owns(n));
                assert(!(old_parts.0.owns(n) && old_parts.1.owns(n)));
            }
            assert forall|n: NodeId| self.owns(n) == s0.owns(n) by {}
        }
    }
}

/// Whether the content of the slot was fully replaced: every node the old
/// content had among the parent's children is detached, and every node of
/// the new content is new.
pub open spec fn replaced<A: Mounted, B: Mounted>(
    before: DomView,
    old_slot: &AnySlot<A, B>,
    after: DomView,
    slot: &AnySlot<A, B>,
) -> bool {
    &&& forall|i: int|
        0 <= i < old_slot.span().len() ==> after.parent(#[trigger] old_slot.span()[i]) is None
    &&& forall|n: NodeId| #[trigger] slot.owns(n) ==> before.len() <= n
}

/// A view in the first place of a dynamic view whose other place is for
/// states of type `Other`.
pub struct AnyView<V, Other> {
    inner: V,
    phantom: PhantomData<Other>,
}

/// A view in the second place of a dynamic view whose first place is for
/// states of type `First`.
pub struct AnyOther<V, First> {
    inner: V,
    phantom: PhantomData<First>,
}

impl<V: Fragment, Other: ViewMarker> AnyView<V, Other> {
    /// The view that is wrapped.
    pub closed spec fn inner(&self) -> &V {
        &self.inner
    }
}

impl<V: Fragment, Other: ViewMarker> Builder for AnyView<V, Other> {
    type State = AnyState<V::State, Other>;

    open spec fn wf(&self) -> bool {
        self.inner().wf()
    }

    /// The state holds a state of this view, and that state shows the view.
    open spec fn describes(&self, state: &Self::State) -> bool {
        state.slot() matches AnySlot::First(inner) && self.inner().describes(&inner)
    }

    /// The state holds a state of this view that matches the view.
    open spec fn matches(&self, state: &Self::State) -> bool {
        state.slot() matches AnySlot::First(inner) && self.inner().matches(&inner)
    }

    /// The markers stay, and a view that stays keeps what it keeps.
    open spec fn keeps(&self, old_state: &Self::State, state: &Self::State) -> bool {
        &&& state.start() == old_state.start()
        &&& state.end() == old_state.end()
        &&& match (old_state.slot(), state.slot()) {
            (AnySlot::First(before), AnySlot::First(after)) => self.inner().keeps(&before, &after),
            _ => true,
        }
    }

    open spec fn steady(&self) -> bool {
        self.inner().steady()
    }

    proof fn lemma_steady(&self, state: &Self::State) {
        match state.slot() {
            AnySlot::First(inner) => {
                self.inner().lemma_steady(&inner);
            },
            AnySlot::Second(_) => {},
        }
    }

    /// Builds the view between two new markers.
    fn build(self, cx: BuildCx, dom: &mut Dom) -> (state: Self::State)
        ensures
            final(dom)@.text(state.start()) == "{"@,
            final(dom)@.text(state.end()) == "}"@,
    {
        let ghost d0 = dom@;
        let start = build_marker("{", cx, dom);
        let ghost d1 = dom@;
        proof {
            lemma_build_next(cx, d0, d1, &start);
        }
        let inner = self.inner.build(cx, dom);
        let slot = AnySlot::First(inner);
        let ghost d2 = dom@;
        proof {
            inner.lemma_view();
            lemma_built_as(cx, d1, d2, &inner, &Some(slot));
            lemma_build_pair(cx, d0, d1, d2, &(start, Some(slot)));
            lemma_build_next(cx, d0, d2, &(start, Some(slot)));
        }
        let end = build_marker("}", cx, dom);
        let state = AnyState { state: slot, start: start.node, end: end.node };
        proof {
            lemma_build_pair(cx, d0, d2, dom@, &state.parts());
            lemma_any_parts(&state);
            lemma_built_as(cx, d0, dom@, &state.parts(), &state);
        }
        state
    }

    /// Rebuilds in place where the state holds a state of this view. Where
    /// it holds a state of the other view, everything between the markers is
    /// detached and this view is built afresh in its place.
    fn rebuild(self, cx: RebuildCx, dom: &mut Dom, state: &mut Self::State)
        ensures
            final(state).start() == old(state).start(),
            final(state).end() == old(state).end(),
            old(state).slot() is Second ==> replaced(
                old(dom)@,
                &old(state).slot(),
                final(dom)@,
                &final(state).slot(),
            ),
            old(state).slot() matches AnySlot::First(before) ==> final(state).slot() is First
                && rebuilt(cx, old(dom)@, &before, final(dom)@, &final(state).slot()->First_0),
    {
        let ghost d0 = dom@;
        let ghost s0 = *state;
        let ghost old_parts = s0.parts();
        let ghost first = Marker { node: s0.start(), data: "{" };
        let ghost last = Marker { node: s0.end(), data: "}" };
        proof {
            lemma_any_parts(&s0);
            lemma_ready_as(cx, d0, &s0, &old_parts);
        }
        match &mut state.state {
            AnySlot::First(inner) => {
                let ghost i0 = *inner;
                proof {
                    lemma_first_ready(cx, d0, &old_parts);
                    lemma_second_ready(cx, d0, &old_parts.0);
                    lemma_ready_as(cx, d0, &old_parts.0.1, &i0);
                }
                self.inner.rebuild(cx, dom, inner);
                proof {
                    let d1 = dom@;
                    let i1 = *inner;
                    let slot = Some(AnySlot::<V::State, Other>::First(i1));
                    i0.lemma_view();
                    lemma_rebuilt_as(cx, d0, &i0, d1, &i1, &old_parts.0.1, &slot);
                    lemma_second_rebuilt(cx, d0, &old_parts.0, d1, &slot);
                    lemma_first_rebuilt(cx, d0, &old_parts, d1, &(first, slot));
                }
            },
            AnySlot::Second(_) => {
                proof {
                    s0.slot().lemma_view();
                    assert(old_parts == bracket(s0.start(), Some(s0.slot()), s0.end()));
                    lemma_bracket_ends(cx, d0, s0.start(), &s0.slot(), s0.end());
                }
                clear(dom, cx.parent, state.start, state.end);
                let ghost d1 = dom@;
                let position = Position { parent: cx.parent, insert_before: Some(state.end) };
                proof {
                    lemma_clear_between(cx, d0, s0.start(), &s0.slot(), s0.end(), d1);
                    lemma_rebuilt_ready(
                        cx,
                        d0,
                        &old_parts,
                        d1,
                        &bracket(s0.start(), None::<AnySlot<V::State, Other>>, s0.end()),
                    );
                    lemma_second_ready(
                        cx,
                        d1,
                        &bracket(s0.start(), None::<AnySlot<V::State, Other>>, s0.end()),
                    );
                    lemma_front_child(cx, d1, &last);
                }
                let inner = self.inner.build(BuildCx { position }, dom);
                proof {
                    let d2 = dom@;
                    let slot = AnySlot::<V::State, Other>::First(inner);
                    inner.lemma_view();
                    lemma_built_as((BuildCx { position }), d1, d2, &inner, &slot);
                    lemma_build_between(cx, d1, s0.start(), s0.end(), d2, &slot);
                    lemma_rebuilt_twice(
                        cx,
                        d0,
                        &old_parts,
                        d1,
                        &bracket(s0.start(), None::<AnySlot<V::State, Other>>, s0.end()),
                        d2,
                        &bracket(s0.start(), Some(slot), s0.end()),
                    );
                    s0.slot().lemma_inv(d0);
                    assert forall|i: int| 0 <= i < s0.slot().span().len() implies d2.parent(
                        #[trigger] s0.slot().span()[i],
                    ) is None by {
                        let n = s0.slot().span()[i];
                        assert(s0.slot().owns(n));
                        assert(old_parts.owns(n));
                        assert(d2.nodes[n as int] == d1.nodes[n as int]);
                    }
                }
                state.state = AnySlot::First(inner);
            },
        }
        proof {
            lemma_any_parts(&*state);
            lemma_rebuilt_as(cx, d0, &old_parts, dom@, &state.parts(), &s0, &*state);
        }
    }
}

impl<V: Fragment, First: ViewMarker> AnyOther<V, First> {
    /// The view that is wrapped.
    pub closed spec fn inner(&self) -> &V {
        &self.inner
    }
}

impl<V: Fragment, First: ViewMarker> Builder for AnyOther<V, First> {
    type State = AnyState<First, V::State>;

    open spec fn wf(&self) -> bool {
        self.inner().wf()
    }

    /// The state holds a state of this view, and that state shows the view.
    open spec fn describes(&self, state: &Self::State) -> bool {
        state.slot() matches AnySlot::Second(inner) && self.inner().describes(&inner)
    }

    /// The state holds a state of this view that matches the view.
    open spec fn matches(&self, state: &Self::State) -> bool {
        state.slot() matches AnySlot::Second(inner) && self.inner().matches(&inner)
    }

    /// The markers stay, and a view that stays keeps what it keeps.
    open spec fn keeps(&self, old_state: &Self::State, state: &Self::State) -> bool {
        &&& state.start() == old_state.start()
        &&& state.end() == old_state.end()
        &&& match (old_state.slot(), state.slot()) {
            (AnySlot::Second(before), AnySlot::Second(after)) => self.inner().keeps(
                &before,
                &after,
            ),
            _ => true,
        }
    }

    open spec fn steady(&self) -> bool {
        self.inner().steady()
    }

    proof fn lemma_steady(&self, state: &Self::State) {
        match state.slot() {
            AnySlot::Second(inner) => {
                self.inner().lemma_steady(&inner);
            },
            AnySlot::First(_) => {},
        }
    }

    /// Builds the view between two new markers.
    fn build(self, cx: BuildCx, dom: &mut Dom) -> (state: Self::State)
        ensures
            final(dom)@.text(state.start()) == "{"@,
            final(dom)@.text(state.end()) == "}"@,
    {
        let ghost d0 = dom@;
        let start = build_marker("{", cx, dom);
        let ghost d1 = dom@;
        proof {
            lemma_build_next(cx, d0, d1, &start);
        }
        let inner = self.inner.build(cx, dom);
        let slot = AnySlot::Second(inner);
        let ghost d2 = dom@;
        proof {
            inner.lemma_view();
            lemma_built_as(cx, d1, d2, &inner, &Some(slot));
            lemma_build_pair(cx, d0, d1, d2, &(start, Some(slot)));
            lemma_build_next(cx, d0, d2, &(start, Some(slot)));
        }
        let end = build_marker("}", cx, dom);
        let state = AnyState { state: slot, start: start.node, end: end.node };
        proof {
            lemma_build_pair(cx, d0, d2, dom@, &state.parts());
            lemma_any_parts(&state);
            lemma_built_as(cx, d0, dom@, &state.parts(), &state);
        }
        state
    }

    /// Rebuilds in place where the state holds a state of this view. Where
    /// it holds a state of the other view, everything between the markers is
    /// detached and this view is built afresh in its place.
    fn rebuild(self, cx: RebuildCx, dom: &mut Dom, state: &mut Self::State)
        ensures
            final(state).start() == old(state).start(),
            final(state).end() == old(state).end(),
            old(state).slot() is First ==> replaced(
                old(dom)@,
                &old(state).slot(),
                final(dom)@,
                &final(state).slot(),
            ),
            old(state).slot() matches AnySlot::Second(before) ==> final(state).slot() is Second
                && rebuilt(cx, old(dom)@, &before, final(dom)@, &final(state).slot()->Second_0),
    {
        let ghost d0 = dom@;
        let ghost s0 = *state;
        let ghost old_parts = s0.parts();
        let ghost first = Marker { node: s0.start(), data: "{" };
        let ghost last = Marker { node: s0.end(), data: "}" };
        proof {
            lemma_any_parts(&s0);
            lemma_ready_as(cx, d0, &s0, &old_parts);
        }
        match &mut state.state {
            AnySlot::Second(inner) => {
                let ghost i0 = *inner;
                proof {
                    lemma_first_ready(cx, d0, &old_parts);
                    lemma_second_ready(cx, d0, &old_parts.0);
                    lemma_ready_as(cx, d0, &old_parts.0.1, &i0);
                }
                self.inner.rebuild(cx, dom, inner);
                proof {
                    let d1 = dom@;
                    let i1 = *inner;
                    let slot = Some(AnySlot::<First, V::State>::Second(i1));
                    i0.lemma_view();
                    lemma_rebuilt_as(cx, d0, &i0, d1, &i1, &old_parts.0.1, &slot);
                    lemma_second_rebuilt(cx, d0, &old_parts.0, d1, &slot);
                    lemma_first_rebuilt(cx, d0, &old_parts, d1, &(first, slot));
                }
            },
            AnySlot::First(_) => {
                proof {
                    s0.slot().lemma_view();
                    assert(old_parts == bracket(s0.start(), Some(s0.slot()), s0.end()));
                    lemma_bracket_ends(cx, d0, s0.start(), &s0.slot(), s0.end());
                }
                clear(dom, cx.parent, state.start, state.end);
                let ghost d1 = dom@;
                let position = Position { parent: cx.parent, insert_before: Some(state.end) };
                proof {
                    lemma_clear_between(cx, d0, s0.start(), &s0.slot(), s0.end(), d1);
                    lemma_rebuilt_ready(
                        cx,
                        d0,
                        &old_parts,
                        d1,
                        &bracket(s0.start(), None::<AnySlot<First, V::State>>, s0.end()),
                    );
                    lemma_second_ready(
                        cx,
                        d1,
                        &bracket(s0.start(), None::<AnySlot<First, V::State>>, s0.end()),
                    );
                    lemma_front_child(cx, d1, &last);
                }
                let inner = self.inner.build(BuildCx { position }, dom);
                proof {
                    let d2 = dom@;
                    let slot = AnySlot::<First, V::State>::Second(inner);
                    inner.lemma_view();
                    lemma_built_as((BuildCx { position }), d1, d2, &inner, &slot);
                    lemma_build_between(cx, d1, s0.start(), s0.end(), d2, &slot);
                    lemma_rebuilt_twice(
                        cx,
                        d0,
                        &old_parts,
                        d1,
                        &bracket(s0.start(), None::<AnySlot<First, V::State>>, s0.end()),
                        d2,
                        &bracket(s0.start(), Some(slot), s0.end()),
                    );
                    s0.slot().lemma_inv(d0);
                    assert forall|i: int| 0 <= i < s0.slot().span().len() implies d2.parent(
                        #[trigger] s0.slot().span()[i],
                    ) is None by {
                        let n = s0.slot().span()[i];
                        assert(s0.slot().owns(n));
                        assert(old_parts.owns(n));
                        assert(d2.nodes[n as int] == d1.nodes[n as int]);
                    }
                }
                state.state = AnySlot::Second(inner);
            },
        }
        proof {
            lemma_any_parts(&*state);
            lemma_rebuilt_as(cx, d0, &old_parts, dom@, &state.parts(), &s0, &*state);
        }
    }
}

/// Wraps `view` as the first of the two views that a dynamic view can
/// show.
pub fn any<V: Fragment, Other: ViewMarker>(view: V) -> (wrapped: AnyView<V, Other>)
    ensures
        *wrapped.inner() == view,
{
    AnyView { inner: view, phantom: PhantomData }
}

/// Wraps `view` as the second of the two views that a dynamic view can
/// show.
pub fn any_other<V: Fragment, First: ViewMarker>(view: V) -> (wrapped: AnyOther<V, First>)
    ensures
        *wrapped.inner() == view,
{
    AnyOther { inner: view, phantom: PhantomData }
}

} // verus!
