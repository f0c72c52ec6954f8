//! Optional components: `Some` mounts a view between two markers, `None`
//! leaves the markers next to each other.

use crate::builder::{
    built, lemma_silenced_none, lemma_silenced_same, located, offset, rebuilt, BuildCx, Builder,
    Claims, Fragment, Mounted, RebuildCx, State, ViewMarker,
};
use crate::compose::{
    bracket, build_marker, lemma_bracket_ends, lemma_build_between, lemma_build_next,
    lemma_build_pair, lemma_built_as, lemma_built_nothing, lemma_clear_between, lemma_first_ready,
    lemma_first_rebuilt, lemma_front_child, lemma_ready_as, lemma_rebuilt_as, lemma_rebuilt_same,
    lemma_second_ready, lemma_second_rebuilt, same_nodes, Marker,
};
use crate::dom::{clear, lemma_index_of, Dom, DomView, ListenerId, NodeId, Position};
use crate::float::Float;
use vstd::prelude::*;

verus! {

/// The state of an optional component: the two markers and, while the
/// component is present, its state.
pub struct OptionState<S> {
    state: Option<S>,
    start: NodeId,
    end: NodeId,
}

impl<S> OptionState<S> {
    /// The marker in front of the region.
    pub closed spec fn start(&self) -> NodeId {
        self.start
    }

    /// The marker behind the region.
    pub closed spec fn end(&self) -> NodeId {
        self.end
    }

    /// The state of the component, while it is present.
    pub closed spec fn inner(&self) -> Option<S> {
        self.state
    }

    /// The state seen as what it is made of: the start marker, the
    /// component, the end marker.
    pub open spec fn parts(&self) -> ((Marker, Option<S>), Marker) {
        (
            (Marker { node: self.start(), data: "{" }, self.inner()),
            Marker { node: self.end(), data: "}" },
        )
    }

    /// The marker in front of the region.
    pub fn start_id(&self) -> (node: NodeId)
        ensures
            node == self.start(),
    {
        self.start
    }

    /// The marker behind the region.
    pub fn end_id(&self) -> (node: NodeId)
        ensures
            node == self.end(),
    {
        self.end
    }

    /// The state of the component, while it is present.
    pub fn inner_state(&self) -> (inner: Option<&S>)
        ensures
            inner == match self.inner() {
                Some(state) => Some(&state),
                None => None::<&S>,
            },
    {
        self.state.as_ref()
    }
}

impl<S: Mounted> Mounted for OptionState<S> {
    open spec fn span(&self) -> Seq<NodeId> {
        self.parts().span()
    }

    open spec fn owns(&self, n: NodeId) -> bool {
        self.parts().owns(n)
    }

    open spec fn inv(&self, dom: DomView) -> bool {
        self.parts().inv(dom)
    }

    open spec fn is_view(&self) -> bool {
        true
    }

    open spec fn claims(&self) -> Claims {
        self.parts().claims()
    }

    open spec fn settled(&self) -> bool {
        self.parts().settled()
    }

    open spec fn hears(&self, l: ListenerId) -> bool {
        self.parts().hears(l)
    }

    proof fn lemma_inv(&self, dom: DomView) {
        self.parts().lemma_inv(dom);
    }

    proof fn lemma_frame(&self, before: DomView, after: DomView) {
        assert forall|n: NodeId| #[trigger] self.parts().owns(n) implies after.nodes[n as int]
            == before.nodes[n as int] by {
            assert(self.owns(n));
        }
        self.parts().lemma_frame(before, after);
    }
}

/// An optional component stands for the same nodes as its parts.
pub proof fn lemma_parts<S: ViewMarker>(state: &OptionState<S>)
    ensures
        same_nodes(state, &state.parts()),
        same_nodes(&state.parts(), state),
{
    match state.inner() {
        Some(inner) => {
            inner.lemma_view();
        },
        None => {},
    }
}

impl<S: ViewMarker> ViewMarker for OptionState<S> {
    proof fn lemma_view(&self) {
        self.inner().lemma_view();
        assert(self.claims() =~= Map::empty());
    }
}

impl<Output, S: State<Output>> State<Output> for OptionState<S> {
    /// The markers stay; the state between them reacts where there is one.
    open spec fn reacts(&self, dom: DomView, output: &Output, after: &Self, done: &Output) -> bool {
        &&& after.start() == self.start()
        &&& after.end() == self.end()
        &&& match self.inner() {
            Some(state) => after.inner() matches Some(next) && state.reacts(
                dom,
                output,
                &next,
                done,
            ),
            None => after.inner() is None && *done == *output,
        }
    }

    fn run(&mut self, dom: &mut Dom, output: &mut Float<Output>) {
        let ghost d0 = dom@;
        let ghost s0 = *self;
        proof {
            match s0.inner() {
                Some(state) => {
                    lemma_silenced_same(d0, &s0, &state);
                },
                None => {
                    lemma_silenced_none(d0, &s0);
                },
            }
        }
        match &mut self.state {
            Some(state) => {
                state.run(dom, output);
            },
            None => {},
        }
        proof {
            let d1 = dom@;
            let old_parts = s0.parts();
            let new_parts = self.parts();
            assert(self.start() == s0.start() && self.end() == s0.end());
            assert forall|n: NodeId| self.inner().owns(n) == s0.inner().owns(n) by {}
            assert(new_parts.0.0.inv(d1));
            assert(new_parts.1.inv(d1));
            assert(new_parts.0.1.inv(d1));
            assert forall|n: NodeId|
                !(#[trigger] new_parts.0.0.owns(n) && new_parts.0.1.owns(n)) by {
                assert(!(old_parts.0.0.owns(n) && old_parts.0.1.owns(n)));
            }
            assert forall|n: NodeId| !(#[trigger] new_parts.0.owns(n) && new_parts.1.owns(n)) by {
                assert(new_parts.0.owns(n) == old_parts.0.owns(n));
                assert(!(old_parts.0.owns(n) && old_parts.1.owns(n)));
            }
        }
    }
}

impl<V: Fragment> Builder for Option<V> {
    type State = OptionState<V::State>;

    open spec fn wf(&self) -> bool {
        match self {
            Some(view) => view.wf(),
            None => true,
        }
    }

    open spec fn describes(&self, state: &Self::State) -> bool {
        match (self, state.inner()) {
            (Some(view), Some(inner)) => view.describes(&inner),
            (None, None) => true,
            _ => false,
        }
    }

    open spec fn matches(&self, state: &Self::State) -> bool {
        match (self, state.inner()) {
            (Some(view), Some(inner)) => view.matches(&inner),
            (None, None) => true,
            _ => false,
        }
    }

    /// The markers stay, and a view that stays keeps what it keeps.
    open spec fn keeps(&self, old_state: &Self::State, state: &Self::State) -> bool {
        &&& state.start() == old_state.start()
        &&& state.end() == old_state.end()
        &&& match (self, old_state.inner(), state.inner()) {
            (Some(view), Some(before), Some(after)) => view.keeps(&before, &after),
            _ => true,
        }
    }

    open spec fn steady(&self) -> bool {
        match self {
            Some(view) => view.steady(),
            None => true,
        }
    }

    proof fn lemma_steady(&self, state: &Self::State) {
        match (self, state.inner()) {
            (Some(view), Some(inner)) => {
                view.lemma_steady(&inner);
            },
            _ => {},
        }
    }

    /// Puts two markers at the position and, where there is a view, builds
    /// it between them.
    fn build(self, cx: BuildCx, dom: &mut Dom) -> (state: Self::State)
        ensures
            final(dom)@.text(state.start()) == "{"@,
            final(dom)@.text(state.end()) == "}"@,
    {
        let ghost d0 = dom@;
        let start = build_marker("{", cx, dom);
        let ghost d1 = dom@;
        proof {
            lemma_build_next(cx, d0, d1, &start);
        }
        let inner = match self {
            Some(view) => {
                let inner = view.build(cx, dom);
                proof {
                    inner.lemma_view();
                    lemma_built_as(cx, d1, dom@, &inner, &Some(inner));
                }
                Some(inner)
            },
            None => {
                proof {
                    lemma_built_nothing(cx, d1, &None::<V::State>);
                }
                None
            },
        };
        let ghost d2 = dom@;
        proof {
            lemma_build_pair(cx, d0, d1, d2, &(start, inner));
            lemma_build_next(cx, d0, d2, &(start, inner));
        }
        let end = build_marker("}", cx, dom);
        let state = OptionState { state: inner, start: start.node, end: end.node };
        proof {
            lemma_build_pair(cx, d0, d2, dom@, &state.parts());
            lemma_parts(&state);
            lemma_built_as(cx, d0, dom@, &state.parts(), &state);
        }
        state
    }

    /// Mounts the view where it was absent: builds it in front of the end
    /// marker. Takes it out where it was present: detaches what stands
    /// between the markers. Hands on to the rebuild of the view where it
    /// stays. The markers stay.
    fn rebuild(self, cx: RebuildCx, dom: &mut Dom, state: &mut Self::State)
        ensures
            final(state).start() == old(state).start(),
            final(state).end() == old(state).end(),
            self is None && old(state).inner() is Some ==> forall|i: int|
                0 <= i < old(state).inner().span().len() ==> final(dom)@.parent(
                    #[trigger] old(state).inner().span()[i],
                ) is None,
            self is None && old(state).inner() is Some ==> final(dom)@ == old(dom)@.cleared(
                cx.parent,
                old(dom)@.children(cx.parent).index_of(old(state).start()) + 1,
                old(dom)@.children(cx.parent).index_of(old(state).end()),
            ),
            self is Some && old(state).inner() is Some ==> final(state).inner() is Some
                && rebuilt(
                cx,
                old(dom)@,
                &old(state).inner()->Some_0,
                final(dom)@,
                &final(state).inner()->Some_0,
            ),
            self is Some && old(state).inner() is None ==> final(state).inner() is Some && built(
                BuildCx {
                    position: Position {
                        parent: cx.parent,
                        insert_before: Some(old(state).end()),
                    },
                },
                old(dom)@,
                final(dom)@,
                &final(state).inner()->Some_0,
            ),
    {
        let ghost d0 = dom@;
        let ghost s0 = *state;
        let ghost old_parts = s0.parts();
        proof {
            lemma_parts(&s0);
            lemma_ready_as(cx, d0, &s0, &old_parts);
        }
        match self {
            None => {
                if state.state.is_some() {
                    let ghost inner = s0.inner()->Some_0;
                    proof {
                        inner.lemma_view();
                        assert(old_parts == bracket(s0.start(), Some(inner), s0.end()));
                        lemma_bracket_ends(cx, d0, s0.start(), &inner, s0.end());
                    }
                    state.state = None;
                    clear(dom, cx.parent, state.start, state.end);
                    proof {
                        lemma_clear_between(cx, d0, s0.start(), &inner, s0.end(), dom@);
                    }
                } else {
                    proof {
                        lemma_rebuilt_same(cx, d0, &old_parts);
                    }
                }
            },
            Some(view) => {
                match &mut state.state {
                    Some(inner) => {
                        let ghost i0 = *inner;
                        proof {
                            lemma_first_ready(cx, d0, &old_parts);
                            lemma_second_ready(cx, d0, &old_parts.0);
                            lemma_ready_as(cx, d0, &old_parts.0.1, &i0);
                        }
                        view.rebuild(cx, dom, inner);
                        proof {
                            let d1 = dom@;
                            let i1 = *inner;
                            lemma_rebuilt_as(cx, d0, &i0, d1, &i1, &Some(i0), &Some(i1));
                            lemma_second_rebuilt(cx, d0, &old_parts.0, d1, &Some(i1));
                            lemma_first_rebuilt(cx, d0, &old_parts, d1, &(old_parts.0.0, Some(i1)));
                        }
                    },
                    None => {
                        let position = Position {
                            parent: cx.parent,
                            insert_before: Some(state.end),
                        };
                        proof {
                            lemma_second_ready(cx, d0, &old_parts);
                            lemma_front_child(cx, d0, &old_parts.1);
                        }
                        let inner = view.build(BuildCx { position }, dom);
                        proof {
                            inner.lemma_view();
                            assert(old_parts == bracket(s0.start(), None::<V::State>, s0.end()));
                            lemma_build_between(cx, d0, s0.start(), s0.end(), dom@, &inner);
                        }
                        state.state = Some(inner);
                    },
                }
            },
        }
        proof {
            lemma_parts(&*state);
            lemma_rebuilt_as(cx, d0, &old_parts, dom@, &state.parts(), &s0, &*state);
        }
    }
}

/// Where the two markers of a located region stand.
pub proof fn lemma_markers(kids: Seq<NodeId>, start: NodeId, inner: Seq<NodeId>, end: NodeId)
    requires
        kids.no_duplicates(),
        located(kids, seq![start] + inner + seq![end]),
    ensures
        ({
            let at = offset(kids, seq![start] + inner + seq![end]);
            &&& 0 <= at
            &&& at + inner.len() + 1 < kids.len()
            &&& kids[at] == start
            &&& kids[at + inner.len() + 1] == end
            &&& kids.index_of(start) == at
            &&& kids.index_of(end) == at + inner.len() + 1
            &&& kids.subrange(at + 1, at + 1 + inner.len()) == inner
        }),
{
    let span = seq![start] + inner + seq![end];
    let at = offset(kids, span);
    assert(kids.subrange(at, at + span.len())[0] == span[0]);
    let last = inner.len() as int + 1;
    assert(kids.subrange(at, at + span.len())[last] == span[last]);
    lemma_index_of(kids, at);
    lemma_index_of(kids, at + inner.len() + 1);
    assert(kids.subrange(at + 1, at + 1 + inner.len()) =~= inner) by {
        assert forall|i: int| 0 <= i < inner.len() implies kids[at + 1 + i] == inner[i] by {
            assert(kids.subrange(at, at + span.len())[i + 1] == span[i + 1]);
        }
    }
}

} // verus!
