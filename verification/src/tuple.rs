//! Composite components: a tuple of components is built and rebuilt
//! element by element, left to right, and its nodes stand in that order.

use crate::builder::{
    built, lemma_silenced_both, lemma_silenced_none, lemma_silenced_same, rebuilt, silenced,
    BuildCx, Builder, Claims, Mounted, RebuildCx, State, ViewMarker,
};
use crate::compose::{
    lemma_build_next, lemma_build_pair, lemma_built_as, lemma_built_nothing, lemma_first_ready,
    lemma_ready_as, lemma_rebuild_next, lemma_rebuild_pair, lemma_rebuilt_as, lemma_rebuilt_same,
    same_nodes,
};
use crate::dom::{Dom, DomView, ListenerId, NodeId};
use crate::float::Float;
use vstd::prelude::*;

pub mod wide;

verus! {

impl Mounted for () {
    open spec fn span(&self) -> Seq<NodeId> {
        Seq::empty()
    }

    open spec fn owns(&self, n: NodeId) -> bool {
        false
    }

    open spec fn inv(&self, dom: DomView) -> bool {
        true
    }

    open spec fn is_view(&self) -> bool {
        true
    }

    open spec fn claims(&self) -> Claims {
        Map::empty()
    }

    open spec fn settled(&self) -> bool {
        true
    }

    open spec fn hears(&self, l: ListenerId) -> bool {
        false
    }

    proof fn lemma_inv(&self, dom: DomView) {
    }

    proof fn lemma_frame(&self, before: DomView, after: DomView) {
    }
}

impl Builder for () {
    type State = ();

    open spec fn wf(&self) -> bool {
        true
    }

    open spec fn describes(&self, state: &()) -> bool {
        true
    }

    open spec fn matches(&self, state: &()) -> bool {
        true
    }

    /// The state holds no node and no listener.
    open spec fn keeps(&self, old_state: &Self::State, state: &Self::State) -> bool {
        true
    }

    open spec fn steady(&self) -> bool {
        true
    }

    proof fn lemma_steady(&self, state: &()) {
    }

    /// Builds nothing.
    fn build(self, cx: BuildCx, dom: &mut Dom) -> (state: ())
        ensures
            final(dom)@ == old(dom)@,
    {
        proof {
            lemma_built_nothing(cx, dom@, &());
        }
    }

    /// Changes nothing.
    fn rebuild(self, cx: RebuildCx, dom: &mut Dom, state: &mut ())
        ensures
            final(dom)@ == old(dom)@,
    {
        proof {
            lemma_rebuilt_same(cx, dom@, &());
        }
    }
}

impl ViewMarker for () {
    proof fn lemma_view(&self) {
    }
}

impl<Output> State<Output> for () {
    open spec fn reacts(&self, dom: DomView, output: &Output, after: &Self, done: &Output) -> bool {
        *after == *self && *done == *output
    }

    fn run(&mut self, dom: &mut Dom, output: &mut Float<Output>) {
        proof {
            lemma_silenced_none(dom@, &*self);
        }
    }
}

impl<A: Mounted> Mounted for (A,) {
    open spec fn span(&self) -> Seq<NodeId> {
        self.0.span()
    }

    open spec fn owns(&self, n: NodeId) -> bool {
        self.0.owns(n)
    }

    open spec fn inv(&self, dom: DomView) -> bool {
        self.0.inv(dom)
    }

    open spec fn is_view(&self) -> bool {
        self.0.is_view()
    }

    open spec fn claims(&self) -> Claims {
        self.0.claims()
    }

    open spec fn settled(&self) -> bool {
        self.0.settled()
    }

    open spec fn hears(&self, l: ListenerId) -> bool {
        self.0.hears(l)
    }

    proof fn lemma_inv(&self, dom: DomView) {
        self.0.lemma_inv(dom);
    }

    proof fn lemma_frame(&self, before: DomView, after: DomView) {
        assert forall|n: NodeId| #[trigger] self.0.owns(n) implies after.nodes[n as int]
            == before.nodes[n as int] by {
            assert(self.owns(n));
        }
        self.0.lemma_frame(before, after);
    }
}

impl<A: Builder> Builder for (A,) {
    type State = (A::State,);

    open spec fn wf(&self) -> bool {
        self.0.wf()
    }

    open spec fn describes(&self, state: &Self::State) -> bool {
        self.0.describes(&state.0)
    }

    open spec fn matches(&self, state: &Self::State) -> bool {
        self.0.matches(&state.0)
    }

    /// The part keeps what it keeps.
    open spec fn keeps(&self, old_state: &Self::State, state: &Self::State) -> bool {
        self.0.keeps(&old_state.0, &state.0)
    }

    open spec fn steady(&self) -> bool {
        self.0.steady()
    }

    proof fn lemma_steady(&self, state: &Self::State) {
        self.0.lemma_steady(&state.0);
    }

    /// Builds the parts in order, left to right.
    fn build(self, cx: BuildCx, dom: &mut Dom) -> (state: Self::State) {
        let first = self.0.build(cx, dom);
        proof {
            assert forall|n: NodeId| #[trigger] (first,).owns(n) implies old(dom)@.len() <= n
                < dom@.len() by {
                assert(first.owns(n));
            }
        }
        (first,)
    }

    /// Rebuilds the parts in order, left to right.
    fn rebuild(self, cx: RebuildCx, dom: &mut Dom, state: &mut Self::State) {
        let ghost s0 = *state;
        proof {
            assert forall|n: NodeId| #[trigger] s0.0.owns(n) implies cx.parent < n by {
                assert(s0.owns(n));
            }
        }
        self.0.rebuild(cx, dom, &mut state.0);
        proof {
            assert forall|n: NodeId| #[trigger] state.owns(n) implies s0.owns(n) || old(
                dom,
            )@.len() <= n < dom@.len() by {
                assert(state.0.owns(n));
            }
            assert forall|n: NodeId|
                n < old(dom)@.len() && n != cx.parent && !s0.owns(n)
                    implies #[trigger] dom@.nodes[n as int]
                == old(dom)@.nodes[n as int] by {
                assert(!s0.0.owns(n));
            }
        }
    }
}

impl<A: ViewMarker> ViewMarker for (A,) {
    proof fn lemma_view(&self) {
        self.0.lemma_view();
    }
}

impl<Output, A: State<Output>> State<Output> for (A,) {
    open spec fn reacts(&self, dom: DomView, output: &Output, after: &Self, done: &Output) -> bool {
        self.0.reacts(dom, output, &after.0, done)
    }

    fn run(&mut self, dom: &mut Dom, output: &mut Float<Output>) {
        let ghost s0 = *self;
        proof {
            lemma_silenced_same(dom@, &s0, &s0.0);
        }
        self.0.run(dom, output);
    }
}

impl<A: Mounted, B: Mounted> Mounted for (A, B) {
    open spec fn span(&self) -> Seq<NodeId> {
        self.0.span() + self.1.span()
    }

    open spec fn owns(&self, n: NodeId) -> bool {
        self.0.owns(n) || self.1.owns(n)
    }

    open spec fn inv(&self, dom: DomView) -> bool {
        &&& self.0.inv(dom)
        &&& self.1.inv(dom)
        &&& forall|n: NodeId| !(#[trigger] self.0.owns(n) && self.1.owns(n))
        &&& forall|l: ListenerId| !(#[trigger] self.0.hears(l) && self.1.hears(l))
    }

    open spec fn is_view(&self) -> bool {
        self.0.is_view() && self.1.is_view()
    }

    open spec fn claims(&self) -> Claims {
        self.0.claims().union_prefer_right(self.1.claims())
    }

    open spec fn settled(&self) -> bool {
        &&& self.0.settled()
        &&& self.1.settled()
        &&& forall|name: Seq<char>|
            !(#[trigger] self.0.claims().contains_key(name) && self.1.claims().contains_key(name))
    }

    open spec fn hears(&self, l: ListenerId) -> bool {
        self.0.hears(l) || self.1.hears(l)
    }

    proof fn lemma_inv(&self, dom: DomView) {
        self.0.lemma_inv(dom);
        self.1.lemma_inv(dom);
        assert forall|i: int| 0 <= i < self.span().len() implies self.owns(
            #[trigger] self.span()[i],
        ) by {
            if i < self.0.span().len() {
                assert(self.span()[i] == self.0.span()[i]);
            } else {
                assert(self.span()[i] == self.1.span()[i - self.0.span().len()]);
            }
        }
    }

    proof fn lemma_frame(&self, before: DomView, after: DomView) {
        assert forall|n: NodeId| #[trigger] self.0.owns(n) implies after.nodes[n as int]
            == before.nodes[n as int] by {
            assert(self.owns(n));
        }
        assert forall|n: NodeId| #[trigger] self.1.owns(n) implies after.nodes[n as int]
            == before.nodes[n as int] by {
            assert(self.owns(n));
        }
        self.0.lemma_frame(before, after);
        self.1.lemma_frame(before, after);
    }
}

impl<A: Builder, B: Builder> Builder for (A, B) {
    type State = (A::State, B::State);

    open spec fn wf(&self) -> bool {
        self.0.wf() && self.1.wf()
    }

    open spec fn describes(&self, state: &Self::State) -> bool {
        self.0.describes(&state.0) && self.1.describes(&state.1)
    }

    open spec fn matches(&self, state: &Self::State) -> bool {
        self.0.matches(&state.0) && self.1.matches(&state.1)
    }

    /// Each part keeps what it keeps.
    open spec fn keeps(&self, old_state: &Self::State, state: &Self::State) -> bool {
        self.0.keeps(&old_state.0, &state.0) && self.1.keeps(&old_state.1, &state.1)
    }

    open spec fn steady(&self) -> bool {
        self.0.steady() && self.1.steady()
    }

    proof fn lemma_steady(&self, state: &Self::State) {
        self.0.lemma_steady(&state.0);
        self.1.lemma_steady(&state.1);
    }

    /// Builds the parts in order, left to right.
    fn build(self, cx: BuildCx, dom: &mut Dom) -> (state: Self::State) {
        let ghost d0 = dom@;
        let (a, b) = self;
        let first = a.build(cx, dom);
        let ghost d1 = dom@;
        proof {
            lemma_build_next(cx, d0, d1, &first);
        }
        let second = b.build(cx, dom);
        let state = (first, second);
        proof {
            lemma_build_pair(cx, d0, d1, dom@, &state);
        }
        state
    }

    /// Rebuilds the parts in order, left to right.
    fn rebuild(self, cx: RebuildCx, dom: &mut Dom, state: &mut Self::State) {
        let ghost d0 = dom@;
        let ghost s0 = *state;
        let (a, b) = self;
        proof {
            lemma_first_ready(cx, d0, &s0);
        }
        a.rebuild(cx, dom, &mut state.0);
        let ghost d1 = dom@;
        proof {
            lemma_rebuild_next(cx, d0, &s0, d1, &state.0);
        }
        b.rebuild(cx, dom, &mut state.1);
        proof {
            lemma_rebuild_pair(cx, d0, &s0, d1, dom@, state);
        }
    }
}

impl<A: ViewMarker, B: ViewMarker> ViewMarker for (A, B) {
    proof fn lemma_view(&self) {
        self.0.lemma_view();
        self.1.lemma_view();
    }
}

impl<Output, A: State<Output>, B: State<Output>> State<Output> for (A, B) {
    /// The first part reacts, and the second reacts to what the first left.
    open spec fn reacts(&self, dom: DomView, output: &Output, after: &Self, done: &Output) -> bool {
        exists|mid: Output|
            {
                &&& #[trigger] self.0.reacts(dom, output, &after.0, &mid)
                &&& self.1.reacts(silenced(dom, &self.0), &mid, &after.1, done)
            }
    }

    fn run(&mut self, dom: &mut Dom, output: &mut Float<Output>) {
        let ghost d0 = dom@;
        let ghost s0 = *self;
        let ghost o0 = output.value();
        self.0.run(dom, output);
        proof {
            s0.1.lemma_frame(d0, dom@);
        }
        let ghost d1 = dom@;
        let ghost o1 = output.value();
        self.1.run(dom, output);
        proof {
            self.0.lemma_frame(d1, dom@);
            lemma_silenced_both(d0, &s0.0, &s0.1, &s0);
            assert(s0.0.reacts(d0, &o0, &self.0, &o1));
        }
    }
}

impl<A: Mounted, B: Mounted, C: Mounted> Mounted for (A, B, C) {
    open spec fn span(&self) -> Seq<NodeId> {
        self.0.span() + self.1.span() + self.2.span()
    }

    open spec fn owns(&self, n: NodeId) -> bool {
        self.0.owns(n) || self.1.owns(n) || self.2.owns(n)
    }

    open spec fn inv(&self, dom: DomView) -> bool {
        &&& self.0.inv(dom)
        &&& self.1.inv(dom)
        &&& self.2.inv(dom)
        &&& forall|n: NodeId| !(#[trigger] self.0.owns(n) && self.1.owns(n))
        &&& forall|n: NodeId| !(#[trigger] self.0.owns(n) && self.2.owns(n))
        &&& forall|n: NodeId| !(#[trigger] self.1.owns(n) && self.2.owns(n))
        &&& forall|l: ListenerId| !(#[trigger] self.0.hears(l) && self.1.hears(l))
        &&& forall|l: ListenerId| !(#[trigger] self.0.hears(l) && self.2.hears(l))
        &&& forall|l: ListenerId| !(#[trigger] self.1.hears(l) && self.2.hears(l))
    }

    open spec fn is_view(&self) -> bool {
        self.0.is_view() && self.1.is_view() && self.2.is_view()
    }

    open spec fn claims(&self) -> Claims {
        (self.0, self.1).claims().union_prefer_right(self.2.claims())
    }

    open spec fn settled(&self) -> bool {
        &&& (self.0, self.1).settled()
        &&& self.2.settled()
        &&& forall|name: Seq<char>|
            !(#[trigger] (self.0, self.1).claims().contains_key(name)
                && self.2.claims().contains_key(name))
    }

    open spec fn hears(&self, l: ListenerId) -> bool {
        self.0.hears(l) || self.1.hears(l) || self.2.hears(l)
    }

    proof fn lemma_inv(&self, dom: DomView) {
        self.0.lemma_inv(dom);
        self.1.lemma_inv(dom);
        self.2.lemma_inv(dom);
        let a = self.0.span().len();
        let b = self.1.span().len();
        assert forall|i: int| 0 <= i < self.span().len() implies self.owns(
            #[trigger] self.span()[i],
        ) by {
            if i < a {
                assert(self.span()[i] == self.0.span()[i]);
            } else if i < a + b {
                assert(self.span()[i] == self.1.span()[i - a]);
            } else {
                assert(self.span()[i] == self.2.span()[i - a - b]);
            }
        }
    }

    proof fn lemma_frame(&self, before: DomView, after: DomView) {
        assert forall|n: NodeId| #[trigger] self.0.owns(n) implies after.nodes[n as int]
            == before.nodes[n as int] by {
            assert(self.owns(n));
        }
        assert forall|n: NodeId| #[trigger] self.1.owns(n) implies after.nodes[n as int]
            == before.nodes[n as int] by {
            assert(self.owns(n));
        }
        assert forall|n: NodeId| #[trigger] self.2.owns(n) implies after.nodes[n as int]
            == before.nodes[n as int] by {
            assert(self.owns(n));
        }
        self.0.lemma_frame(before, after);
        self.1.lemma_frame(before, after);
        self.2.lemma_frame(before, after);
    }
}

/// The first two elements of a triple, paired with its third.
pub open spec fn nested<A, B, C>(triple: &(A, B, C)) -> ((A, B), C) {
    ((triple.0, triple.1), triple.2)
}

/// A triple stands for the same nodes as its first two elements paired
/// with its third, and holds exactly when that pair does.
pub proof fn lemma_nested<A: Mounted, B: Mounted, C: Mounted>(triple: &(A, B, C))
    ensures
        same_nodes(triple, &nested(triple)),
        same_nodes(&nested(triple), triple),
        forall|dom: DomView| #[trigger] triple.inv(dom) == nested(triple).inv(dom),
{
    let nested = ((triple.0, triple.1), triple.2);
    assert forall|dom: DomView| #[trigger] triple.inv(dom) == nested.inv(dom) by {
        if triple.inv(dom) {
            assert forall|n: NodeId| !(#[trigger] nested.0.owns(n) && nested.1.owns(n)) by {
                if triple.0.owns(n) {
                    assert(!triple.2.owns(n));
                }
                if triple.1.owns(n) {
                    assert(!triple.2.owns(n));
                }
            }
            assert forall|l: ListenerId| !(#[trigger] nested.0.hears(l) && nested.1.hears(l)) by {
                if triple.0.hears(l) {
                    assert(!triple.2.hears(l));
                }
                if triple.1.hears(l) {
                    assert(!triple.2.hears(l));
                }
            }
        }
        if nested.inv(dom) {
            assert forall|n: NodeId| !(#[trigger] triple.0.owns(n) && triple.2.owns(n)) by {
                if triple.0.owns(n) {
                    assert(nested.0.owns(n));
                }
            }
            assert forall|l: ListenerId| !(#[trigger] triple.0.hears(l) && triple.2.hears(l)) by {
                if triple.0.hears(l) {
                    assert(nested.0.hears(l));
                }
            }
            assert forall|n: NodeId| !(#[trigger] triple.1.owns(n) && triple.2.owns(n)) by {
                if triple.1.owns(n) {
                    assert(nested.0.owns(n));
                }
            }
            assert forall|l: ListenerId| !(#[trigger] triple.1.hears(l) && triple.2.hears(l)) by {
                if triple.1.hears(l) {
                    assert(nested.0.hears(l));
                }
            }
        }
    }
}

impl<A: Builder, B: Builder, C: Builder> Builder for (A, B, C) {
    type State = (A::State, B::State, C::State);

    open spec fn wf(&self) -> bool {
        self.0.wf() && self.1.wf() && self.2.wf()
    }

    open spec fn describes(&self, state: &Self::State) -> bool {
        self.0.describes(&state.0) && self.1.describes(&state.1) && self.2.describes(&state.2)
    }

    open spec fn matches(&self, state: &Self::State) -> bool {
        self.0.matches(&state.0) && self.1.matches(&state.1) && self.2.matches(&state.2)
    }

    /// Each part keeps what it keeps.
    open spec fn keeps(&self, old_state: &Self::State, state: &Self::State) -> bool {
        &&& self.0.keeps(&old_state.0, &state.0)
        &&& self.1.keeps(&old_state.1, &state.1)
        &&& self.2.keeps(&old_state.2, &state.2)
    }

    open spec fn steady(&self) -> bool {
        self.0.steady() && self.1.steady() && self.2.steady()
    }

    proof fn lemma_steady(&self, state: &Self::State) {
        self.0.lemma_steady(&state.0);
        self.1.lemma_steady(&state.1);
        self.2.lemma_steady(&state.2);
    }

    /// Builds the parts in order, left to right.
    fn build(self, cx: BuildCx, dom: &mut Dom) -> (state: Self::State) {
        let ghost d0 = dom@;
        let (a, b, c) = self;
        let first = a.build(cx, dom);
        let ghost d1 = dom@;
        proof {
            lemma_build_next(cx, d0, d1, &first);
        }
        let second = b.build(cx, dom);
        let ghost d2 = dom@;
        proof {
            lemma_build_pair(cx, d0, d1, d2, &(first, second));
            lemma_build_next(cx, d0, d2, &(first, second));
        }
        let third = c.build(cx, dom);
        let state = (first, second, third);
        proof {
            let nested = ((first, second), third);
            lemma_build_pair(cx, d0, d2, dom@, &nested);
            lemma_nested(&state);
            lemma_built_as(cx, d0, dom@, &nested, &state);
        }
        state
    }

    /// Rebuilds the parts in order, left to right.
    fn rebuild(self, cx: RebuildCx, dom: &mut Dom, state: &mut Self::State) {
        let ghost d0 = dom@;
        let ghost s0 = *state;
        let ghost n0 = ((s0.0, s0.1), s0.2);
        let (a, b, c) = self;
        proof {
            lemma_nested(&s0);
            lemma_ready_as(cx, d0, &s0, &n0);
            lemma_first_ready(cx, d0, &n0);
            lemma_first_ready(cx, d0, &n0.0);
        }
        a.rebuild(cx, dom, &mut state.0);
        let ghost d1 = dom@;
        proof {
            lemma_rebuild_next(cx, d0, &n0.0, d1, &state.0);
        }
        b.rebuild(cx, dom, &mut state.1);
        let ghost d2 = dom@;
        proof {
            lemma_rebuild_pair(cx, d0, &n0.0, d1, d2, &(state.0, state.1));
            lemma_rebuild_next(cx, d0, &n0, d2, &(state.0, state.1));
        }
        c.rebuild(cx, dom, &mut state.2);
        proof {
            let n1 = ((state.0, state.1), state.2);
            lemma_rebuild_pair(cx, d0, &n0, d2, dom@, &n1);
            lemma_nested(&*state);
            lemma_rebuilt_as(cx, d0, &n0, dom@, &n1, &s0, &*state);
        }
    }
}

impl<A: ViewMarker, B: ViewMarker, C: ViewMarker> ViewMarker for (A, B, C) {
    proof fn lemma_view(&self) {
        self.0.lemma_view();
        self.1.lemma_view();
        self.2.lemma_view();
    }
}

impl<Output, A: State<Output>, B: State<Output>, C: State<Output>> State<Output> for (A, B, C) {
    /// The first two parts react as a pair, and the third reacts to what
    /// they left.
    open spec fn reacts(&self, dom: DomView, output: &Output, after: &Self, done: &Output) -> bool {
        exists|mid: Output|
            {
                &&& #[trigger] (self.0, self.1).reacts(dom, output, &(after.0, after.1), &mid)
                &&& self.2.reacts(silenced(dom, &(self.0, self.1)), &mid, &after.2, done)
            }
    }

    fn run(&mut self, dom: &mut Dom, output: &mut Float<Output>) {
        let ghost d0 = dom@;
        let ghost s0 = *self;
        let ghost o0 = output.value();
        self.0.run(dom, output);
        let ghost d1 = dom@;
        let ghost o1 = output.value();
        proof {
            s0.1.lemma_frame(d0, d1);
            s0.2.lemma_frame(d0, d1);
        }
        self.1.run(dom, output);
        let ghost d2 = dom@;
        let ghost o2 = output.value();
        proof {
            self.0.lemma_frame(d1, d2);
            s0.2.lemma_frame(d1, d2);
            lemma_silenced_both(d0, &s0.0, &s0.1, &(s0.0, s0.1));
            assert(d1 == silenced(d0, &s0.0));
            let pair = (s0.0, s0.1);
            let next = (self.0, self.1);
            assert(pair.0.reacts(d0, &o0, &next.0, &o1));
            assert(pair.reacts(d0, &o0, &next, &o2));
            assert(d2 == silenced(d0, &(s0.0, s0.1)));
        }
        self.2.run(dom, output);
        proof {
            self.0.lemma_frame(d2, dom@);
            self.1.lemma_frame(d2, dom@);
            assert((self.0, self.1).claims() == (s0.0, s0.1).claims());
            assert((self.0, self.1).settled() == (s0.0, s0.1).settled());
            lemma_silenced_both(d0, &(s0.0, s0.1), &s0.2, &s0);
        }
    }
}

} // verus!
