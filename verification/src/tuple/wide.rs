//! Composite components of four to eight elements.

use crate::builder::{
    lemma_silenced_both, silenced, BuildCx, Builder, Claims, Mounted, RebuildCx, State, ViewMarker,
};
use crate::compose::{
    lemma_build_next, lemma_build_pair, lemma_built_as, lemma_first_ready, lemma_ready_as,
    lemma_rebuild_next, lemma_rebuild_pair, lemma_rebuilt_as, same_nodes,
};
use crate::dom::{Dom, DomView, ListenerId, NodeId};
use crate::float::Float;
use crate::tuple::{lemma_nested, nested};
use vstd::prelude::*;

verus! {

impl<A: Mounted, B: Mounted, C: Mounted, D: Mounted> Mounted for (A, B, C, D) {
    open spec fn span(&self) -> Seq<NodeId> {
        self.0.span() + self.1.span() + self.2.span() + self.3.span()
    }

    open spec fn owns(&self, n: NodeId) -> bool {
        self.0.owns(n) || self.1.owns(n) || self.2.owns(n) || self.3.owns(n)
    }

    open spec fn inv(&self, dom: DomView) -> bool {
        &&& self.0.inv(dom)
        &&& self.1.inv(dom)
        &&& self.2.inv(dom)
        &&& self.3.inv(dom)
        &&& forall|n: NodeId| !(#[trigger] self.0.owns(n) && self.1.owns(n))
        &&& forall|n: NodeId| !(#[trigger] self.0.owns(n) && self.2.owns(n))
        &&& forall|n: NodeId| !(#[trigger] self.0.owns(n) && self.3.owns(n))
        &&& forall|n: NodeId| !(#[trigger] self.1.owns(n) && self.2.owns(n))
        &&& forall|n: NodeId| !(#[trigger] self.1.owns(n) && self.3.owns(n))
        &&& forall|n: NodeId| !(#[trigger] self.2.owns(n) && self.3.owns(n))
        &&& forall|l: ListenerId| !(#[trigger] self.0.hears(l) && self.1.hears(l))
        &&& forall|l: ListenerId| !(#[trigger] self.0.hears(l) && self.2.hears(l))
        &&& forall|l: ListenerId| !(#[trigger] self.0.hears(l) && self.3.hears(l))
        &&& forall|l: ListenerId| !(#[trigger] self.1.hears(l) && self.2.hears(l))
        &&& forall|l: ListenerId| !(#[trigger] self.1.hears(l) && self.3.hears(l))
        &&& forall|l: ListenerId| !(#[trigger] self.2.hears(l) && self.3.hears(l))
    }

    open spec fn is_view(&self) -> bool {
        self.0.is_view() && self.1.is_view() && self.2.is_view() && self.3.is_view()
    }

    open spec fn claims(&self) -> Claims {
        (self.0, self.1, self.2).claims().union_prefer_right(self.3.claims())
    }

    open spec fn settled(&self) -> bool {
        &&& (self.0, self.1, self.2).settled()
        &&& self.3.settled()
        &&& forall|name: Seq<char>|
            !(#[trigger] (self.0, self.1, self.2).claims().contains_key(name)
                && self.3.claims().contains_key(name))
    }

    open spec fn hears(&self, l: ListenerId) -> bool {
        self.0.hears(l) || self.1.hears(l) || self.2.hears(l) || self.3.hears(l)
    }

    proof fn lemma_inv(&self, dom: DomView) {
        self.0.lemma_inv(dom);
        self.1.lemma_inv(dom);
        self.2.lemma_inv(dom);
        self.3.lemma_inv(dom);
        let end0 = self.0.span().len();
        let end1 = end0 + self.1.span().len();
        let end2 = end1 + self.2.span().len();
        assert forall|i: int| 0 <= i < self.span().len() implies self.owns(
            #[trigger] self.span()[i],
        ) by {
            if i < end0 {
                assert(self.span()[i] == self.0.span()[i]);
            } else if i < end1 {
                assert(self.span()[i] == self.1.span()[i - end0]);
            } else if i < end2 {
                assert(self.span()[i] == self.2.span()[i - end1]);
            } else {
                assert(self.span()[i] == self.3.span()[i - end2]);
            }
        }
    }

    proof fn lemma_frame(&self, before: DomView, after: DomView) {
        assert forall|n: NodeId| #[trigger] self.0.owns(n) implies after.nodes[n as int]
            == before.nodes[n as int] by {
            assert(self.owns(n));
        }
        self.0.lemma_frame(before, after);
        assert forall|n: NodeId| #[trigger] self.1.owns(n) implies after.nodes[n as int]
            == before.nodes[n as int] by {
            assert(self.owns(n));
        }
        self.1.lemma_frame(before, after);
        assert forall|n: NodeId| #[trigger] self.2.owns(n) implies after.nodes[n as int]
            == before.nodes[n as int] by {
            assert(self.owns(n));
        }
        self.2.lemma_frame(before, after);
        assert forall|n: NodeId| #[trigger] self.3.owns(n) implies after.nodes[n as int]
            == before.nodes[n as int] by {
            assert(self.owns(n));
        }
        self.3.lemma_frame(before, after);
    }
}

impl<A: ViewMarker, B: ViewMarker, C: ViewMarker, D: ViewMarker> ViewMarker for (A, B, C, D) {
    proof fn lemma_view(&self) {
        self.0.lemma_view();
        self.1.lemma_view();
        self.2.lemma_view();
        self.3.lemma_view();
    }
}

/// A tuple of 4 stands for the same nodes as its first 3 elements
/// paired with its last, and holds exactly when that pair does.
pub proof fn lemma_nested_4<A: Mounted, B: Mounted, C: Mounted, D: Mounted>(tuple: &(A, B, C, D))
    ensures
        same_nodes(tuple, &nested_4(tuple)),
        same_nodes(&nested_4(tuple), tuple),
        forall|dom: DomView| #[trigger] tuple.inv(dom) == nested_4(tuple).inv(dom),
{
    let nested = nested_4(tuple);
    assert(tuple.span() =~= nested.span());
    assert forall|dom: DomView| #[trigger] tuple.inv(dom) == nested.inv(dom) by {
        if tuple.inv(dom) {
            assert forall|n: NodeId| !(#[trigger] nested.0.owns(n) && nested.1.owns(n)) by {
                if tuple.0.owns(n) {
                    assert(!tuple.3.owns(n));
                }
                if tuple.1.owns(n) {
                    assert(!tuple.3.owns(n));
                }
                if tuple.2.owns(n) {
                    assert(!tuple.3.owns(n));
                }
            }
            assert forall|l: ListenerId| !(#[trigger] nested.0.hears(l) && nested.1.hears(l)) by {
                if tuple.0.hears(l) {
                    assert(!tuple.3.hears(l));
                }
                if tuple.1.hears(l) {
                    assert(!tuple.3.hears(l));
                }
                if tuple.2.hears(l) {
                    assert(!tuple.3.hears(l));
                }
            }
        }
        if nested.inv(dom) {
            assert forall|n: NodeId| !(#[trigger] tuple.0.owns(n) && tuple.3.owns(n)) by {
                if tuple.0.owns(n) {
                    assert(nested.0.owns(n));
                }
            }
            assert forall|n: NodeId| !(#[trigger] tuple.1.owns(n) && tuple.3.owns(n)) by {
                if tuple.1.owns(n) {
                    assert(nested.0.owns(n));
                }
            }
            assert forall|n: NodeId| !(#[trigger] tuple.2.owns(n) && tuple.3.owns(n)) by {
                if tuple.2.owns(n) {
                    assert(nested.0.owns(n));
                }
            }
            assert forall|l: ListenerId|
                !(#[trigger] tuple.0.hears(l) && tuple.3.hears(l)) by {
                if tuple.0.hears(l) {
                    assert(nested.0.hears(l));
                }
            }
            assert forall|l: ListenerId|
                !(#[trigger] tuple.1.hears(l) && tuple.3.hears(l)) by {
                if tuple.1.hears(l) {
                    assert(nested.0.hears(l));
                }
            }
            assert forall|l: ListenerId|
                !(#[trigger] tuple.2.hears(l) && tuple.3.hears(l)) by {
                if tuple.2.hears(l) {
                    assert(nested.0.hears(l));
                }
            }
        }
    }
}

/// The first 3 elements of a tuple of 4, paired with its last.
pub open spec fn nested_4<A, B, C, D>(tuple: &(A, B, C, D)) -> ((A, B, C), D) {
    ((tuple.0, tuple.1, tuple.2), tuple.3)
}

impl<A: Builder, B: Builder, C: Builder, D: Builder> Builder for (A, B, C, D) {
    type State = (A::State, B::State, C::State, D::State);

    open spec fn wf(&self) -> bool {
        self.0.wf() && self.1.wf() && self.2.wf() && self.3.wf()
    }

    open spec fn describes(&self, state: &Self::State) -> bool {
        &&& self.0.describes(&state.0)
        &&& self.1.describes(&state.1)
        &&& self.2.describes(&state.2)
        &&& self.3.describes(&state.3)
    }

    open spec fn matches(&self, state: &Self::State) -> bool {
        &&& self.0.matches(&state.0)
        &&& self.1.matches(&state.1)
        &&& self.2.matches(&state.2)
        &&& self.3.matches(&state.3)
    }

    /// Each part keeps what it keeps.
    open spec fn keeps(&self, old_state: &Self::State, state: &Self::State) -> bool {
        &&& self.0.keeps(&old_state.0, &state.0)
        &&& self.1.keeps(&old_state.1, &state.1)
        &&& self.2.keeps(&old_state.2, &state.2)
        &&& self.3.keeps(&old_state.3, &state.3)
    }

    open spec fn steady(&self) -> bool {
        self.0.steady() && self.1.steady() && self.2.steady() && self.3.steady()
    }

    proof fn lemma_steady(&self, state: &Self::State) {
        self.0.lemma_steady(&state.0);
        self.1.lemma_steady(&state.1);
        self.2.lemma_steady(&state.2);
        self.3.lemma_steady(&state.3);
    }

    /// Builds the parts in order, left to right.
    fn build(self, cx: BuildCx, dom: &mut Dom) -> (state: Self::State) {
        let ghost d0 = dom@;
        let (a, b, c, d) = self;
        let s0 = a.build(cx, dom);
        let ghost d1 = dom@;
        proof {
            lemma_build_next(cx, d0, d1, &s0);
        }
        let s1 = b.build(cx, dom);
        let ghost d2 = dom@;
        proof {
            lemma_build_pair(cx, d0, d1, d2, &(s0, s1));
            lemma_build_next(cx, d0, d2, &(s0, s1));
        }
        let s2 = c.build(cx, dom);
        let ghost d3 = dom@;
        proof {
            let built = (s0, s1, s2);
            lemma_build_pair(cx, d0, d2, d3, &nested(&built));
            lemma_nested(&built);
            lemma_built_as(cx, d0, d3, &nested(&built), &built);
            lemma_build_next(cx, d0, d3, &built);
        }
        let s3 = d.build(cx, dom);
        let ghost d4 = dom@;
        proof {
            let built = (s0, s1, s2, s3);
            lemma_build_pair(cx, d0, d3, d4, &nested_4(&built));
            lemma_nested_4(&built);
            lemma_built_as(cx, d0, d4, &nested_4(&built), &built);
        }
        (s0, s1, s2, s3)
    }

    /// Rebuilds the parts in order, left to right.
    fn rebuild(self, cx: RebuildCx, dom: &mut Dom, state: &mut Self::State) {
        let ghost d0 = dom@;
        let ghost before = *state;
        let ghost before2 = (before.0, before.1);
        let ghost before3 = (before.0, before.1, before.2);
        let (a, b, c, d) = self;
        proof {
            lemma_nested_4(&before);
            lemma_ready_as(cx, d0, &before, &nested_4(&before));
            lemma_first_ready(cx, d0, &nested_4(&before));
            lemma_nested(&before3);
            lemma_ready_as(cx, d0, &before3, &nested(&before3));
            lemma_first_ready(cx, d0, &nested(&before3));
            lemma_first_ready(cx, d0, &before2);
        }
        a.rebuild(cx, dom, &mut state.0);
        let ghost d1 = dom@;
        proof {
            lemma_rebuild_next(cx, d0, &before2, d1, &state.0);
        }
        b.rebuild(cx, dom, &mut state.1);
        let ghost d2 = dom@;
        let ghost new2 = (state.0, state.1);
        proof {
            lemma_rebuild_pair(cx, d0, &before2, d1, d2, &new2);
            lemma_rebuild_next(cx, d0, &nested(&before3), d2, &new2);
        }
        c.rebuild(cx, dom, &mut state.2);
        let ghost d3 = dom@;
        let ghost new3 = (state.0, state.1, state.2);
        proof {
            lemma_rebuild_pair(cx, d0, &nested(&before3), d2, d3, &nested(&new3));
            lemma_nested(&before3);
            lemma_nested(&new3);
            lemma_rebuilt_as(cx, d0, &nested(&before3), d3, &nested(&new3), &before3, &new3);
            lemma_rebuild_next(cx, d0, &nested_4(&before), d3, &new3);
        }
        d.rebuild(cx, dom, &mut state.3);
        let ghost d4 = dom@;
        let ghost new4 = (state.0, state.1, state.2, state.3);
        proof {
            lemma_rebuild_pair(cx, d0, &nested_4(&before), d3, d4, &nested_4(&new4));
            lemma_nested_4(&before);
            lemma_nested_4(&new4);
            lemma_rebuilt_as(cx, d0, &nested_4(&before), d4, &nested_4(&new4), &before, &new4);
        }
    }
}

impl<
    Output,
    A: State<Output>,
    B: State<Output>,
    C: State<Output>,
    D: State<Output>,
> State<Output> for (A, B, C, D) {
    /// The first 3 parts react as a tuple, and the last reacts to what
    /// they left.
    open spec fn reacts(&self, dom: DomView, output: &Output, after: &Self, done: &Output) -> bool {
        exists|mid: Output|
            {
                &&& #[trigger] (self.0, self.1, self.2).reacts(
                    dom,
                    output,
                    &(after.0, after.1, after.2),
                    &mid,
                )
                &&& self.3.reacts(
                    silenced(dom, &(self.0, self.1, self.2)),
                    &mid,
                    &after.3,
                    done,
                )
            }
    }

    fn run(&mut self, dom: &mut Dom, output: &mut Float<Output>) {
        let ghost before = *self;
        let ghost o0 = output.value();
        let ghost d0 = dom@;
        self.0.run(dom, output);
        let ghost o1 = output.value();
        proof {
            before.1.lemma_frame(d0, dom@);
            before.2.lemma_frame(d0, dom@);
            before.3.lemma_frame(d0, dom@);
            assert(before.0.reacts(d0, &o0, &self.0, &o1));
            assert(dom@ == silenced(d0, &before.0));
        }
        let ghost d1 = dom@;
        self.1.run(dom, output);
        let ghost o2 = output.value();
        let ghost front2 = (before.0, before.1);
        let ghost next2 = (self.0, self.1);
        proof {
            self.0.lemma_frame(d1, dom@);
            before.2.lemma_frame(d1, dom@);
            before.3.lemma_frame(d1, dom@);
            lemma_silenced_both(d0, &before.0, &before.1, &front2);
            assert(dom@ == silenced(d0, &front2));
            assert(next2.claims() == front2.claims());
            assert(next2.settled() == front2.settled());
            assert(front2.0.reacts(d0, &o0, &next2.0, &o1));
            assert(front2.reacts(d0, &o0, &next2, &o2));
        }
        let ghost d2 = dom@;
        self.2.run(dom, output);
        let ghost o3 = output.value();
        let ghost front3 = (before.0, before.1, before.2);
        let ghost next3 = (self.0, self.1, self.2);
        proof {
            self.0.lemma_frame(d2, dom@);
            self.1.lemma_frame(d2, dom@);
            before.3.lemma_frame(d2, dom@);
            lemma_silenced_both(d0, &front2, &before.2, &front3);
            assert(dom@ == silenced(d0, &front3));
            assert(next3.claims() == front3.claims());
            assert(next3.settled() == front3.settled());
            assert((front3.0, front3.1) == front2);
            assert((next3.0, next3.1) == next2);
            assert(front2.reacts(d0, &o0, &next2, &o2));
            assert(front3.reacts(d0, &o0, &next3, &o3));
        }
        let ghost d3 = dom@;
        self.3.run(dom, output);
        let ghost o4 = output.value();
        proof {
            self.0.lemma_frame(d3, dom@);
            self.1.lemma_frame(d3, dom@);
            self.2.lemma_frame(d3, dom@);
            lemma_silenced_both(d0, &front3, &before.3, &before);
            assert(dom@ == silenced(d0, &before));
        }
    }
}

impl<A: Mounted, B: Mounted, C: Mounted, D: Mounted, E: Mounted> Mounted for (A, B, C, D, E) {
    open spec fn span(&self) -> Seq<NodeId> {
        self.0.span() + self.1.span() + self.2.span() + self.3.span() + self.4.span()
    }

    open spec fn owns(&self, n: NodeId) -> bool {
        self.0.owns(n) || self.1.owns(n) || self.2.owns(n) || self.3.owns(n) || self.4.owns(n)
    }

    open spec fn inv(&self, dom: DomView) -> bool {
        &&& self.0.inv(dom)
        &&& self.1.inv(dom)
        &&& self.2.inv(dom)
        &&& self.3.inv(dom)
        &&& self.4.inv(dom)
        &&& forall|n: NodeId| !(#[trigger] self.0.owns(n) && self.1.owns(n))
        &&& forall|n: NodeId| !(#[trigger] self.0.owns(n) && self.2.owns(n))
        &&& forall|n: NodeId| !(#[trigger] self.0.owns(n) && self.3.owns(n))
        &&& forall|n: NodeId| !(#[trigger] self.0.owns(n) && self.4.owns(n))
        &&& forall|n: NodeId| !(#[trigger] self.1.owns(n) && self.2.owns(n))
        &&& forall|n: NodeId| !(#[trigger] self.1.owns(n) && self.3.owns(n))
        &&& forall|n: NodeId| !(#[trigger] self.1.owns(n) && self.4.owns(n))
        &&& forall|n: NodeId| !(#[trigger] self.2.owns(n) && self.3.owns(n))
        &&& forall|n: NodeId| !(#[trigger] self.2.owns(n) && self.4.owns(n))
        &&& forall|n: NodeId| !(#[trigger] self.3.owns(n) && self.4.owns(n))
        &&& forall|l: ListenerId| !(#[trigger] self.0.hears(l) && self.1.hears(l))
        &&& forall|l: ListenerId| !(#[trigger] self.0.hears(l) && self.2.hears(l))
        &&& forall|l: ListenerId| !(#[trigger] self.0.hears(l) && self.3.hears(l))
        &&& forall|l: ListenerId| !(#[trigger] self.0.hears(l) && self.4.hears(l))
        &&& forall|l: ListenerId| !(#[trigger] self.1.hears(l) && self.2.hears(l))
        &&& forall|l: ListenerId| !(#[trigger] self.1.hears(l) && self.3.hears(l))
        &&& forall|l: ListenerId| !(#[trigger] self.1.hears(l) && self.4.hears(l))
        &&& forall|l: ListenerId| !(#[trigger] self.2.hears(l) && self.3.hears(l))
        &&& forall|l: ListenerId| !(#[trigger] self.2.hears(l) && self.4.hears(l))
        &&& forall|l: ListenerId| !(#[trigger] self.3.hears(l) && self.4.hears(l))
    }

    open spec fn is_view(&self) -> bool {
        &&& self.0.is_view()
        &&& self.1.is_view()
        &&& self.2.is_view()
        &&& self.3.is_view()
        &&& self.4.is_view()
    }

    open spec fn claims(&self) -> Claims {
        (self.0, self.1, self.2, self.3).claims().union_prefer_right(self.4.claims())
    }

    open spec fn settled(&self) -> bool {
        &&& (self.0, self.1, self.2, self.3).settled()
        &&& self.4.settled()
        &&& forall|name: Seq<char>|
            !(#[trigger] (self.0, self.1, self.2, self.3).claims().contains_key(name)
                && self.4.claims().contains_key(name))
    }

    open spec fn hears(&self, l: ListenerId) -> bool {
        ||| self.0.hears(l)
        ||| self.1.hears(l)
        ||| self.2.hears(l)
        ||| self.3.hears(l)
        ||| self.4.hears(l)
    }

    proof fn lemma_inv(&self, dom: DomView) {
        self.0.lemma_inv(dom);
        self.1.lemma_inv(dom);
        self.2.lemma_inv(dom);
        self.3.lemma_inv(dom);
        self.4.lemma_inv(dom);
        let end0 = self.0.span().len();
        let end1 = end0 + self.1.span().len();
        let end2 = end1 + self.2.span().len();
        let end3 = end2 + self.3.span().len();
        assert forall|i: int| 0 <= i < self.span().len() implies self.owns(
            #[trigger] self.span()[i],
        ) by {
            if i < end0 {
                assert(self.span()[i] == self.0.span()[i]);
            } else if i < end1 {
                assert(self.span()[i] == self.1.span()[i - end0]);
            } else if i < end2 {
                assert(self.span()[i] == self.2.span()[i - end1]);
            } else if i < end3 {
                assert(self.span()[i] == self.3.span()[i - end2]);
            } else {
                assert(self.span()[i] == self.4.span()[i - end3]);
            }
        }
    }

    proof fn lemma_frame(&self, before: DomView, after: DomView) {
        assert forall|n: NodeId| #[trigger] self.0.owns(n) implies after.nodes[n as int]
            == before.nodes[n as int] by {
            assert(self.owns(n));
        }
        self.0.lemma_frame(before, after);
        assert forall|n: NodeId| #[trigger] self.1.owns(n) implies after.nodes[n as int]
            == before.nodes[n as int] by {
            assert(self.owns(n));
        }
        self.1.lemma_frame(before, after);
        assert forall|n: NodeId| #[trigger] self.2.owns(n) implies after.nodes[n as int]
            == before.nodes[n as int] by {
            assert(self.owns(n));
        }
        self.2.lemma_frame(before, after);
        assert forall|n: NodeId| #[trigger] self.3.owns(n) implies after.nodes[n as int]
            == before.nodes[n as int] by {
            assert(self.owns(n));
        }
        self.3.lemma_frame(before, after);
        assert forall|n: NodeId| #[trigger] self.4.owns(n) implies after.nodes[n as int]
            == before.nodes[n as int] by {
            assert(self.owns(n));
        }
        self.4.lemma_frame(before, after);
    }
}

impl<
    A: ViewMarker,
    B: ViewMarker,
    C: ViewMarker,
    D: ViewMarker,
    E: ViewMarker,
> ViewMarker for (A, B, C, D, E) {
    proof fn lemma_view(&self) {
        self.0.lemma_view();
        self.1.lemma_view();
        self.2.lemma_view();
        self.3.lemma_view();
        self.4.lemma_view();
    }
}

/// A tuple of 5 stands for the same nodes as its first 4 elements
/// paired with its last, and holds exactly when that pair does.
pub proof fn lemma_nested_5<
    A: Mounted,
    B: Mounted,
    C: Mounted,
    D: Mounted,
    E: Mounted,
>(tuple: &(A, B, C, D, E))
    ensures
        same_nodes(tuple, &nested_5(tuple)),
        same_nodes(&nested_5(tuple), tuple),
        forall|dom: DomView| #[trigger] tuple.inv(dom) == nested_5(tuple).inv(dom),
{
    let nested = nested_5(tuple);
    assert(tuple.span() =~= nested.span());
    assert forall|dom: DomView| #[trigger] tuple.inv(dom) == nested.inv(dom) by {
        if tuple.inv(dom) {
            assert forall|n: NodeId| !(#[trigger] nested.0.owns(n) && nested.1.owns(n)) by {
                if tuple.0.owns(n) {
                    assert(!tuple.4.owns(n));
                }
                if tuple.1.owns(n) {
                    assert(!tuple.4.owns(n));
                }
                if tuple.2.owns(n) {
                    assert(!tuple.4.owns(n));
                }
                if tuple.3.owns(n) {
                    assert(!tuple.4.owns(n));
                }
            }
            assert forall|l: ListenerId| !(#[trigger] nested.0.hears(l) && nested.1.hears(l)) by {
                if tuple.0.hears(l) {
                    assert(!tuple.4.hears(l));
                }
                if tuple.1.hears(l) {
                    assert(!tuple.4.hears(l));
                }
                if tuple.2.hears(l) {
                    assert(!tuple.4.hears(l));
                }
                if tuple.3.hears(l) {
                    assert(!tuple.4.hears(l));
                }
            }
        }
        if nested.inv(dom) {
            assert forall|n: NodeId| !(#[trigger] tuple.0.owns(n) && tuple.4.owns(n)) by {
                if tuple.0.owns(n) {
                    assert(nested.0.owns(n));
                }
            }
            assert forall|n: NodeId| !(#[trigger] tuple.1.owns(n) && tuple.4.owns(n)) by {
                if tuple.1.owns(n) {
                    assert(nested.0.owns(n));
                }
            }
            assert forall|n: NodeId| !(#[trigger] tuple.2.owns(n) && tuple.4.owns(n)) by {
                if tuple.2.owns(n) {
                    assert(nested.0.owns(n));
                }
            }
            assert forall|n: NodeId| !(#[trigger] tuple.3.owns(n) && tuple.4.owns(n)) by {
                if tuple.3.owns(n) {
                    assert(nested.0.owns(n));
                }
            }
            assert forall|l: ListenerId|
                !(#[trigger] tuple.0.hears(l) && tuple.4.hears(l)) by {
                if tuple.0.hears(l) {
                    assert(nested.0.hears(l));
                }
            }
            assert forall|l: ListenerId|
                !(#[trigger] tuple.1.hears(l) && tuple.4.hears(l)) by {
                if tuple.1.hears(l) {
                    assert(nested.0.hears(l));
                }
            }
            assert forall|l: ListenerId|
                !(#[trigger] tuple.2.hears(l) && tuple.4.hears(l)) by {
                if tuple.2.hears(l) {
                    assert(nested.0.hears(l));
                }
            }
            assert forall|l: ListenerId|
                !(#[trigger] tuple.3.hears(l) && tuple.4.hears(l)) by {
                if tuple.3.hears(l) {
                    assert(nested.0.hears(l));
                }
            }
        }
    }
}

/// The first 4 elements of a tuple of 5, paired with its last.
pub open spec fn nested_5<A, B, C, D, E>(tuple: &(A, B, C, D, E)) -> ((A, B, C, D), E) {
    ((tuple.0, tuple.1, tuple.2, tuple.3), tuple.4)
}

impl<A: Builder, B: Builder, C: Builder, D: Builder, E: Builder> Builder for (A, B, C, D, E) {
    type State = (A::State, B::State, C::State, D::State, E::State);

    open spec fn wf(&self) -> bool {
        self.0.wf() && self.1.wf() && self.2.wf() && self.3.wf() && self.4.wf()
    }

    open spec fn describes(&self, state: &Self::State) -> bool {
        &&& self.0.describes(&state.0)
        &&& self.1.describes(&state.1)
        &&& self.2.describes(&state.2)
        &&& self.3.describes(&state.3)
        &&& self.4.describes(&state.4)
    }

    open spec fn matches(&self, state: &Self::State) -> bool {
        &&& self.0.matches(&state.0)
        &&& self.1.matches(&state.1)
        &&& self.2.matches(&state.2)
        &&& self.3.matches(&state.3)
        &&& self.4.matches(&state.4)
    }

    /// Each part keeps what it keeps.
    open spec fn keeps(&self, old_state: &Self::State, state: &Self::State) -> bool {
        &&& self.0.keeps(&old_state.0, &state.0)
        &&& self.1.keeps(&old_state.1, &state.1)
        &&& self.2.keeps(&old_state.2, &state.2)
        &&& self.3.keeps(&old_state.3, &state.3)
        &&& self.4.keeps(&old_state.4, &state.4)
    }

    open spec fn steady(&self) -> bool {
        self.0.steady() && self.1.steady() && self.2.steady() && self.3.steady() && self.4.steady()
    }

    proof fn lemma_steady(&self, state: &Self::State) {
        self.0.lemma_steady(&state.0);
        self.1.lemma_steady(&state.1);
        self.2.lemma_steady(&state.2);
        self.3.lemma_steady(&state.3);
        self.4.lemma_steady(&state.4);
    }

    /// Builds the parts in order, left to right.
    fn build(self, cx: BuildCx, dom: &mut Dom) -> (state: Self::State) {
        let ghost d0 = dom@;
        let (a, b, c, d, e) = self;
        let s0 = a.build(cx, dom);
        let ghost d1 = dom@;
        proof {
            lemma_build_next(cx, d0, d1, &s0);
        }
        let s1 = b.build(cx, dom);
        let ghost d2 = dom@;
        proof {
            lemma_build_pair(cx, d0, d1, d2, &(s0, s1));
            lemma_build_next(cx, d0, d2, &(s0, s1));
        }
        let s2 = c.build(cx, dom);
        let ghost d3 = dom@;
        proof {
            let built = (s0, s1, s2);
            lemma_build_pair(cx, d0, d2, d3, &nested(&built));
            lemma_nested(&built);
            lemma_built_as(cx, d0, d3, &nested(&built), &built);
            lemma_build_next(cx, d0, d3, &built);
        }
        let s3 = d.build(cx, dom);
        let ghost d4 = dom@;
        proof {
            let built = (s0, s1, s2, s3);
            lemma_build_pair(cx, d0, d3, d4, &nested_4(&built));
            lemma_nested_4(&built);
            lemma_built_as(cx, d0, d4, &nested_4(&built), &built);
            lemma_build_next(cx, d0, d4, &built);
        }
        let s4 = e.build(cx, dom);
        let ghost d5 = dom@;
        proof {
            let built = (s0, s1, s2, s3, s4);
            lemma_build_pair(cx, d0, d4, d5, &nested_5(&built));
            lemma_nested_5(&built);
            lemma_built_as(cx, d0, d5, &nested_5(&built), &built);
        }
        (s0, s1, s2, s3, s4)
    }

    /// Rebuilds the parts in order, left to right.
    fn rebuild(self, cx: RebuildCx, dom: &mut Dom, state: &mut Self::State) {
        let ghost d0 = dom@;
        let ghost before = *state;
        let ghost before2 = (before.0, before.1);
        let ghost before3 = (before.0, before.1, before.2);
        let ghost before4 = (before.0, before.1, before.2, before.3);
        let (a, b, c, d, e) = self;
        proof {
            lemma_nested_5(&before);
            lemma_ready_as(cx, d0, &before, &nested_5(&before));
            lemma_first_ready(cx, d0, &nested_5(&before));
            lemma_nested_4(&before4);
            lemma_ready_as(cx, d0, &before4, &nested_4(&before4));
            lemma_first_ready(cx, d0, &nested_4(&before4));
            lemma_nested(&before3);
            lemma_ready_as(cx, d0, &before3, &nested(&before3));
            lemma_first_ready(cx, d0, &nested(&before3));
            lemma_first_ready(cx, d0, &before2);
        }
        a.rebuild(cx, dom, &mut state.0);
        let ghost d1 = dom@;
        proof {
            lemma_rebuild_next(cx, d0, &before2, d1, &state.0);
        }
        b.rebuild(cx, dom, &mut state.1);
        let ghost d2 = dom@;
        let ghost new2 = (state.0, state.1);
        proof {
            lemma_rebuild_pair(cx, d0, &before2, d1, d2, &new2);
            lemma_rebuild_next(cx, d0, &nested(&before3), d2, &new2);
        }
        c.rebuild(cx, dom, &mut state.2);
        let ghost d3 = dom@;
        let ghost new3 = (state.0, state.1, state.2);
        proof {
            lemma_rebuild_pair(cx, d0, &nested(&before3), d2, d3, &nested(&new3));
            lemma_nested(&before3);
            lemma_nested(&new3);
            lemma_rebuilt_as(cx, d0, &nested(&before3), d3, &nested(&new3), &before3, &new3);
            lemma_rebuild_next(cx, d0, &nested_4(&before4), d3, &new3);
        }
        d.rebuild(cx, dom, &mut state.3);
        let ghost d4 = dom@;
        let ghost new4 = (state.0, state.1, state.2, state.3);
        proof {
            lemma_rebuild_pair(cx, d0, &nested_4(&before4), d3, d4, &nested_4(&new4));
            lemma_nested_4(&before4);
            lemma_nested_4(&new4);
            lemma_rebuilt_as(cx, d0, &nested_4(&before4), d4, &nested_4(&new4), &before4, &new4);
            lemma_rebuild_next(cx, d0, &nested_5(&before), d4, &new4);
        }
        e.rebuild(cx, dom, &mut state.4);
        let ghost d5 = dom@;
        let ghost new5 = (state.0, state.1, state.2, state.3, state.4);
        proof {
            lemma_rebuild_pair(cx, d0, &nested_5(&before), d4, d5, &nested_5(&new5));
            lemma_nested_5(&before);
            lemma_nested_5(&new5);
            lemma_rebuilt_as(cx, d0, &nested_5(&before), d5, &nested_5(&new5), &before, &new5);
        }
    }
}

impl<
    Output,
    A: State<Output>,
    B: State<Output>,
    C: State<Output>,
    D: State<Output>,
    E: State<Output>,
> State<Output> for (A, B, C, D, E) {
    /// The first 4 parts react as a tuple, and the last reacts to what
    /// they left.
    open spec fn reacts(&self, dom: DomView, output: &Output, after: &Self, done: &Output) -> bool {
        exists|mid: Output|
            {
                &&& #[trigger] (self.0, self.1, self.2, self.3).reacts(
                    dom,
                    output,
                    &(after.0, after.1, after.2, after.3),
                    &mid,
                )
                &&& self.4.reacts(
                    silenced(dom, &(self.0, self.1, self.2, self.3)),
                    &mid,
                    &after.4,
                    done,
                )
            }
    }

    fn run(&mut self, dom: &mut Dom, output: &mut Float<Output>) {
        let ghost before = *self;
        let ghost o0 = output.value();
        let ghost d0 = dom@;
        self.0.run(dom, output);
        let ghost o1 = output.value();
        proof {
            before.1.lemma_frame(d0, dom@);
            before.2.lemma_frame(d0, dom@);
            before.3.lemma_frame(d0, dom@);
            before.4.lemma_frame(d0, dom@);
            assert(before.0.reacts(d0, &o0, &self.0, &o1));
            assert(dom@ == silenced(d0, &before.0));
        }
        let ghost d1 = dom@;
        self.1.run(dom, output);
        let ghost o2 = output.value();
        let ghost front2 = (before.0, before.1);
        let ghost next2 = (self.0, self.1);
        proof {
            self.0.lemma_frame(d1, dom@);
            before.2.lemma_frame(d1, dom@);
            before.3.lemma_frame(d1, dom@);
            before.4.lemma_frame(d1, dom@);
            lemma_silenced_both(d0, &before.0, &before.1, &front2);
            assert(dom@ == silenced(d0, &front2));
            assert(next2.claims() == front2.claims());
            assert(next2.settled() == front2.settled());
            assert(front2.0.reacts(d0, &o0, &next2.0, &o1));
            assert(front2.reacts(d0, &o0, &next2, &o2));
        }
        let ghost d2 = dom@;
        self.2.run(dom, output);
        let ghost o3 = output.value();
        let ghost front3 = (before.0, before.1, before.2);
        let ghost next3 = (self.0, self.1, self.2);
        proof {
            self.0.lemma_frame(d2, dom@);
            self.1.lemma_frame(d2, dom@);
            before.3.lemma_frame(d2, dom@);
            before.4.lemma_frame(d2, dom@);
            lemma_silenced_both(d0, &front2, &before.2, &front3);
            assert(dom@ == silenced(d0, &front3));
            assert(next3.claims() == front3.claims());
            assert(next3.settled() == front3.settled());
            assert((front3.0, front3.1) == front2);
            assert((next3.0, next3.1) == next2);
            assert(front2.reacts(d0, &o0, &next2, &o2));
            assert(front3.reacts(d0, &o0, &next3, &o3));
        }
        let ghost d3 = dom@;
        self.3.run(dom, output);
        let ghost o4 = output.value();
        let ghost front4 = (before.0, before.1, before.2, before.3);
        let ghost next4 = (self.0, self.1, self.2, self.3);
        proof {
            self.0.lemma_frame(d3, dom@);
            self.1.lemma_frame(d3, dom@);
            self.2.lemma_frame(d3, dom@);
            before.4.lemma_frame(d3, dom@);
            lemma_silenced_both(d0, &front3, &before.3, &front4);
            assert(dom@ == silenced(d0, &front4));
            assert(next4.claims() == front4.claims());
            assert(next4.settled() == front4.settled());
            assert((front4.0, front4.1, front4.2) == front3);
            assert((next4.0, next4.1, next4.2) == next3);
            assert(front3.reacts(d0, &o0, &next3, &o3));
            assert(front4.reacts(d0, &o0, &next4, &o4));
        }
        let ghost d4 = dom@;
        self.4.run(dom, output);
        let ghost o5 = output.value();
        proof {
            self.0.lemma_frame(d4, dom@);
            self.1.lemma_frame(d4, dom@);
            self.2.lemma_frame(d4, dom@);
            self.3.lemma_frame(d4, dom@);
            lemma_silenced_both(d0, &front4, &before.4, &before);
            assert(dom@ == silenced(d0, &before));
        }
    }
}

impl<
    A: Mounted,
    B: Mounted,
    C: Mounted,
    D: Mounted,
    E: Mounted,
    F: Mounted,
> Mounted for (A, B, C, D, E, F) {
    open spec fn span(&self) -> Seq<NodeId> {
        self.0.span() + self.1.span() + self.2.span() + self.3.span()
            + self.4.span() + self.5.span()
    }

    open spec fn owns(&self, n: NodeId) -> bool {
        ||| self.0.owns(n)
        ||| self.1.owns(n)
        ||| self.2.owns(n)
        ||| self.3.owns(n)
        ||| self.4.owns(n)
        ||| self.5.owns(n)
    }

    open spec fn inv(&self, dom: DomView) -> bool {
        &&& self.0.inv(dom)
        &&& self.1.inv(dom)
        &&& self.2.inv(dom)
        &&& self.3.inv(dom)
        &&& self.4.inv(dom)
        &&& self.5.inv(dom)
        &&& forall|n: NodeId| !(#[trigger] self.0.owns(n) && self.1.owns(n))
        &&& forall|n: NodeId| !(#[trigger] self.0.owns(n) && self.2.owns(n))
        &&& forall|n: NodeId| !(#[trigger] self.0.owns(n) && self.3.owns(n))
        &&& forall|n: NodeId| !(#[trigger] self.0.owns(n) && self.4.owns(n))
        &&& forall|n: NodeId| !(#[trigger] self.0.owns(n) && self.5.owns(n))
        &&& forall|n: NodeId| !(#[trigger] self.1.owns(n) && self.2.owns(n))
        &&& forall|n: NodeId| !(#[trigger] self.1.owns(n) && self.3.owns(n))
        &&& forall|n: NodeId| !(#[trigger] self.1.owns(n) && self.4.owns(n))
        &&& forall|n: NodeId| !(#[trigger] self.1.owns(n) && self.5.owns(n))
        &&& forall|n: NodeId| !(#[trigger] self.2.owns(n) && self.3.owns(n))
        &&& forall|n: NodeId| !(#[trigger] self.2.owns(n) && self.4.owns(n))
        &&& forall|n: NodeId| !(#[trigger] self.2.owns(n) && self.5.owns(n))
        &&& forall|n: NodeId| !(#[trigger] self.3.owns(n) && self.4.owns(n))
        &&& forall|n: NodeId| !(#[trigger] self.3.owns(n) && self.5.owns(n))
        &&& forall|n: NodeId| !(#[trigger] self.4.owns(n) && self.5.owns(n))
        &&& forall|l: ListenerId| !(#[trigger] self.0.hears(l) && self.1.hears(l))
        &&& forall|l: ListenerId| !(#[trigger] self.0.hears(l) && self.2.hears(l))
        &&& forall|l: ListenerId| !(#[trigger] self.0.hears(l) && self.3.hears(l))
        &&& forall|l: ListenerId| !(#[trigger] self.0.hears(l) && self.4.hears(l))
        &&& forall|l: ListenerId| !(#[trigger] self.0.hears(l) && self.5.hears(l))
        &&& forall|l: ListenerId| !(#[trigger] self.1.hears(l) && self.2.hears(l))
        &&& forall|l: ListenerId| !(#[trigger] self.1.hears(l) && self.3.hears(l))
        &&& forall|l: ListenerId| !(#[trigger] self.1.hears(l) && self.4.hears(l))
        &&& forall|l: ListenerId| !(#[trigger] self.1.hears(l) && self.5.hears(l))
        &&& forall|l: ListenerId| !(#[trigger] self.2.hears(l) && self.3.hears(l))
        &&& forall|l: ListenerId| !(#[trigger] self.2.hears(l) && self.4.hears(l))
        &&& forall|l: ListenerId| !(#[trigger] self.2.hears(l) && self.5.hears(l))
        &&& forall|l: ListenerId| !(#[trigger] self.3.hears(l) && self.4.hears(l))
        &&& forall|l: ListenerId| !(#[trigger] self.3.hears(l) && self.5.hears(l))
        &&& forall|l: ListenerId| !(#[trigger] self.4.hears(l) && self.5.hears(l))
    }

    open spec fn is_view(&self) -> bool {
        &&& self.0.is_view()
        &&& self.1.is_view()
        &&& self.2.is_view()
        &&& self.3.is_view()
        &&& self.4.is_view()
        &&& self.5.is_view()
    }

    open spec fn claims(&self) -> Claims {
        (self.0, self.1, self.2, self.3, self.4).claims().union_prefer_right(self.5.claims())
    }

    open spec fn settled(&self) -> bool {
        &&& (self.0, self.1, self.2, self.3, self.4).settled()
        &&& self.5.settled()
        &&& forall|name: Seq<char>|
            !(#[trigger] (self.0, self.1, self.2, self.3, self.4).claims().contains_key(name)
                && self.5.claims().contains_key(name))
    }

    open spec fn hears(&self, l: ListenerId) -> bool {
        ||| self.0.hears(l)
        ||| self.1.hears(l)
        ||| self.2.hears(l)
        ||| self.3.hears(l)
        ||| self.4.hears(l)
        ||| self.5.hears(l)
    }

    proof fn lemma_inv(&self, dom: DomView) {
        self.0.lemma_inv(dom);
        self.1.lemma_inv(dom);
        self.2.lemma_inv(dom);
        self.3.lemma_inv(dom);
        self.4.lemma_inv(dom);
        self.5.lemma_inv(dom);
        let end0 = self.0.span().len();
        let end1 = end0 + self.1.span().len();
        let end2 = end1 + self.2.span().len();
        let end3 = end2 + self.3.span().len();
        let end4 = end3 + self.4.span().len();
        assert forall|i: int| 0 <= i < self.span().len() implies self.owns(
            #[trigger] self.span()[i],
        ) by {
            if i < end0 {
                assert(self.span()[i] == self.0.span()[i]);
            } else if i < end1 {
                assert(self.span()[i] == self.1.span()[i - end0]);
            } else if i < end2 {
                assert(self.span()[i] == self.2.span()[i - end1]);
            } else if i < end3 {
                assert(self.span()[i] == self.3.span()[i - end2]);
            } else if i < end4 {
                assert(self.span()[i] == self.4.span()[i - end3]);
            } else {
                assert(self.span()[i] == self.5.span()[i - end4]);
            }
        }
    }

    proof fn lemma_frame(&self, before: DomView, after: DomView) {
        assert forall|n: NodeId| #[trigger] self.0.owns(n) implies after.nodes[n as int]
            == before.nodes[n as int] by {
            assert(self.owns(n));
        }
        self.0.lemma_frame(before, after);
        assert forall|n: NodeId| #[trigger] self.1.owns(n) implies after.nodes[n as int]
            == before.nodes[n as int] by {
            assert(self.owns(n));
        }
        self.1.lemma_frame(before, after);
        assert forall|n: NodeId| #[trigger] self.2.owns(n) implies after.nodes[n as int]
            == before.nodes[n as int] by {
            assert(self.owns(n));
        }
        self.2.lemma_frame(before, after);
        assert forall|n: NodeId| #[trigger] self.3.owns(n) implies after.nodes[n as int]
            == before.nodes[n as int] by {
            assert(self.owns(n));
        }
        self.3.lemma_frame(before, after);
        assert forall|n: NodeId| #[trigger] self.4.owns(n) implies after.nodes[n as int]
            == before.nodes[n as int] by {
            assert(self.owns(n));
        }
        self.4.lemma_frame(before, after);
        assert forall|n: NodeId| #[trigger] self.5.owns(n) implies after.nodes[n as int]
            == before.nodes[n as int] by {
            assert(self.owns(n));
        }
        self.5.lemma_frame(before, after);
    }
}

impl<
    A: ViewMarker,
    B: ViewMarker,
    C: ViewMarker,
    D: ViewMarker,
    E: ViewMarker,
    F: ViewMarker,
> ViewMarker for (A, B, C, D, E, F) {
    proof fn lemma_view(&self) {
        self.0.lemma_view();
        self.1.lemma_view();
        self.2.lemma_view();
        self.3.lemma_view();
        self.4.lemma_view();
        self.5.lemma_view();
    }
}

/// A tuple of 6 stands for the same nodes as its first 5 elements
/// paired with its last, and holds exactly when that pair does.
pub proof fn lemma_nested_6<
    A: Mounted,
    B: Mounted,
    C: Mounted,
    D: Mounted,
    E: Mounted,
    F: Mounted,
>(tuple: &(A, B, C, D, E, F))
    ensures
        same_nodes(tuple, &nested_6(tuple)),
        same_nodes(&nested_6(tuple), tuple),
        forall|dom: DomView| #[trigger] tuple.inv(dom) == nested_6(tuple).inv(dom),
{
    let nested = nested_6(tuple);
    assert(tuple.span() =~= nested.span());
    assert forall|dom: DomView| #[trigger] tuple.inv(dom) == nested.inv(dom) by {
        if tuple.inv(dom) {
            assert forall|n: NodeId| !(#[trigger] nested.0.owns(n) && nested.1.owns(n)) by {
                if tuple.0.owns(n) {
                    assert(!tuple.5.owns(n));
                }
                if tuple.1.owns(n) {
                    assert(!tuple.5.owns(n));
                }
                if tuple.2.owns(n) {
                    assert(!tuple.5.owns(n));
                }
                if tuple.3.owns(n) {
                    assert(!tuple.5.owns(n));
                }
                if tuple.4.owns(n) {
                    assert(!tuple.5.owns(n));
                }
            }
            assert forall|l: ListenerId| !(#[trigger] nested.0.hears(l) && nested.1.hears(l)) by {
                if tuple.0.hears(l) {
                    assert(!tuple.5.hears(l));
                }
                if tuple.1.hears(l) {
                    assert(!tuple.5.hears(l));
                }
                if tuple.2.hears(l) {
                    assert(!tuple.5.hears(l));
                }
                if tuple.3.hears(l) {
                    assert(!tuple.5.hears(l));
                }
                if tuple.4.hears(l) {
                    assert(!tuple.5.hears(l));
                }
            }
        }
        if nested.inv(dom) {
            assert forall|n: NodeId| !(#[trigger] tuple.0.owns(n) && tuple.5.owns(n)) by {
                if tuple.0.owns(n) {
                    assert(nested.0.owns(n));
                }
            }
            assert forall|n: NodeId| !(#[trigger] tuple.1.owns(n) && tuple.5.owns(n)) by {
                if tuple.1.owns(n) {
                    assert(nested.0.owns(n));
                }
            }
            assert forall|n: NodeId| !(#[trigger] tuple.2.owns(n) && tuple.5.owns(n)) by {
                if tuple.2.owns(n) {
                    assert(nested.0.owns(n));
                }
            }
            assert forall|n: NodeId| !(#[trigger] tuple.3.owns(n) && tuple.5.owns(n)) by {
                if tuple.3.owns(n) {
                    assert(nested.0.owns(n));
                }
            }
            assert forall|n: NodeId| !(#[trigger] tuple.4.owns(n) && tuple.5.owns(n)) by {
                if tuple.4.owns(n) {
                    assert(nested.0.owns(n));
                }
            }
            assert forall|l: ListenerId|
                !(#[trigger] tuple.0.hears(l) && tuple.5.hears(l)) by {
                if tuple.0.hears(l) {
                    assert(nested.0.hears(l));
                }
            }
            assert forall|l: ListenerId|
                !(#[trigger] tuple.1.hears(l) && tuple.5.hears(l)) by {
                if tuple.1.hears(l) {
                    assert(nested.0.hears(l));
                }
            }
            assert forall|l: ListenerId|
                !(#[trigger] tuple.2.hears(l) && tuple.5.hears(l)) by {
                if tuple.2.hears(l) {
                    assert(nested.0.hears(l));
                }
            }
            assert forall|l: ListenerId|
                !(#[trigger] tuple.3.hears(l) && tuple.5.hears(l)) by {
                if tuple.3.hears(l) {
                    assert(nested.0.hears(l));
                }
            }
            assert forall|l: ListenerId|
                !(#[trigger] tuple.4.hears(l) && tuple.5.hears(l)) by {
                if tuple.4.hears(l) {
                    assert(nested.0.hears(l));
                }
            }
        }
    }
}

/// The first 5 elements of a tuple of 6, paired with its last.
pub open spec fn nested_6<A, B, C, D, E, F>(tuple: &(A, B, C, D, E, F)) -> ((A, B, C, D, E), F) {
    ((tuple.0, tuple.1, tuple.2, tuple.3, tuple.4), tuple.5)
}

impl<
    A: Builder,
    B: Builder,
    C: Builder,
    D: Builder,
    E: Builder,
    F: Builder,
> Builder for (A, B, C, D, E, F) {
    type State = (A::State, B::State, C::State, D::State, E::State, F::State);

    open spec fn wf(&self) -> bool {
        self.0.wf() && self.1.wf() && self.2.wf() && self.3.wf() && self.4.wf() && self.5.wf()
    }

    open spec fn describes(&self, state: &Self::State) -> bool {
        &&& self.0.describes(&state.0)
        &&& self.1.describes(&state.1)
        &&& self.2.describes(&state.2)
        &&& self.3.describes(&state.3)
        &&& self.4.describes(&state.4)
        &&& self.5.describes(&state.5)
    }

    open spec fn matches(&self, state: &Self::State) -> bool {
        &&& self.0.matches(&state.0)
        &&& self.1.matches(&state.1)
        &&& self.2.matches(&state.2)
        &&& self.3.matches(&state.3)
        &&& self.4.matches(&state.4)
        &&& self.5.matches(&state.5)
    }

    /// Each part keeps what it keeps.
    open spec fn keeps(&self, old_state: &Self::State, state: &Self::State) -> bool {
        &&& self.0.keeps(&old_state.0, &state.0)
        &&& self.1.keeps(&old_state.1, &state.1)
        &&& self.2.keeps(&old_state.2, &state.2)
        &&& self.3.keeps(&old_state.3, &state.3)
        &&& self.4.keeps(&old_state.4, &state.4)
        &&& self.5.keeps(&old_state.5, &state.5)
    }

    open spec fn steady(&self) -> bool {
        &&& self.0.steady()
        &&& self.1.steady()
        &&& self.2.steady()
        &&& self.3.steady()
        &&& self.4.steady()
        &&& self.5.steady()
    }

    proof fn lemma_steady(&self, state: &Self::State) {
        self.0.lemma_steady(&state.0);
        self.1.lemma_steady(&state.1);
        self.2.lemma_steady(&state.2);
        self.3.lemma_steady(&state.3);
        self.4.lemma_steady(&state.4);
        self.5.lemma_steady(&state.5);
    }

    /// Builds the parts in order, left to right.
    fn build(self, cx: BuildCx, dom: &mut Dom) -> (state: Self::State) {
        let ghost d0 = dom@;
        let (a, b, c, d, e, f) = self;
        let s0 = a.build(cx, dom);
        let ghost d1 = dom@;
        proof {
            lemma_build_next(cx, d0, d1, &s0);
        }
        let s1 = b.build(cx, dom);
        let ghost d2 = dom@;
        proof {
            lemma_build_pair(cx, d0, d1, d2, &(s0, s1));
            lemma_build_next(cx, d0, d2, &(s0, s1));
        }
        let s2 = c.build(cx, dom);
        let ghost d3 = dom@;
        proof {
            let built = (s0, s1, s2);
            lemma_build_pair(cx, d0, d2, d3, &nested(&built));
            lemma_nested(&built);
            lemma_built_as(cx, d0, d3, &nested(&built), &built);
            lemma_build_next(cx, d0, d3, &built);
        }
        let s3 = d.build(cx, dom);
        let ghost d4 = dom@;
        proof {
            let built = (s0, s1, s2, s3);
            lemma_build_pair(cx, d0, d3, d4, &nested_4(&built));
            lemma_nested_4(&built);
            lemma_built_as(cx, d0, d4, &nested_4(&built), &built);
            lemma_build_next(cx, d0, d4, &built);
        }
        let s4 = e.build(cx, dom);
        let ghost d5 = dom@;
        proof {
            let built = (s0, s1, s2, s3, s4);
            lemma_build_pair(cx, d0, d4, d5, &nested_5(&built));
            lemma_nested_5(&built);
            lemma_built_as(cx, d0, d5, &nested_5(&built), &built);
            lemma_build_next(cx, d0, d5, &built);
        }
        let s5 = f.build(cx, dom);
        let ghost d6 = dom@;
        proof {
            let built = (s0, s1, s2, s3, s4, s5);
            lemma_build_pair(cx, d0, d5, d6, &nested_6(&built));
            lemma_nested_6(&built);
            lemma_built_as(cx, d0, d6, &nested_6(&built), &built);
        }
        (s0, s1, s2, s3, s4, s5)
    }

    /// Rebuilds the parts in order, left to right.
    fn rebuild(self, cx: RebuildCx, dom: &mut Dom, state: &mut Self::State) {
        let ghost d0 = dom@;
        let ghost before = *state;
        let ghost before2 = (before.0, before.1);
        let ghost before3 = (before.0, before.1, before.2);
        let ghost before4 = (before.0, before.1, before.2, before.3);
        let ghost before5 = (before.0, before.1, before.2, before.3, before.4);
        let (a, b, c, d, e, f) = self;
        proof {
            lemma_nested_6(&before);
            lemma_ready_as(cx, d0, &before, &nested_6(&before));
            lemma_first_ready(cx, d0, &nested_6(&before));
            lemma_nested_5(&before5);
            lemma_ready_as(cx, d0, &before5, &nested_5(&before5));
            lemma_first_ready(cx, d0, &nested_5(&before5));
            lemma_nested_4(&before4);
            lemma_ready_as(cx, d0, &before4, &nested_4(&before4));
            lemma_first_ready(cx, d0, &nested_4(&before4));
            lemma_nested(&before3);
            lemma_ready_as(cx, d0, &before3, &nested(&before3));
            lemma_first_ready(cx, d0, &nested(&before3));
            lemma_first_ready(cx, d0, &before2);
        }
        a.rebuild(cx, dom, &mut state.0);
        let ghost d1 = dom@;
        proof {
            lemma_rebuild_next(cx, d0, &before2, d1, &state.0);
        }
        b.rebuild(cx, dom, &mut state.1);
        let ghost d2 = dom@;
        let ghost new2 = (state.0, state.1);
        proof {
            lemma_rebuild_pair(cx, d0, &before2, d1, d2, &new2);
            lemma_rebuild_next(cx, d0, &nested(&before3), d2, &new2);
        }
        c.rebuild(cx, dom, &mut state.2);
        let ghost d3 = dom@;
        let ghost new3 = (state.0, state.1, state.2);
        proof {
            lemma_rebuild_pair(cx, d0, &nested(&before3), d2, d3, &nested(&new3));
            lemma_nested(&before3);
            lemma_nested(&new3);
            lemma_rebuilt_as(cx, d0, &nested(&before3), d3, &nested(&new3), &before3, &new3);
            lemma_rebuild_next(cx, d0, &nested_4(&before4), d3, &new3);
        }
        d.rebuild(cx, dom, &mut state.3);
        let ghost d4 = dom@;
        let ghost new4 = (state.0, state.1, state.2, state.3);
        proof {
            lemma_rebuild_pair(cx, d0, &nested_4(&before4), d3, d4, &nested_4(&new4));
            lemma_nested_4(&before4);
            lemma_nested_4(&new4);
            lemma_rebuilt_as(cx, d0, &nested_4(&before4), d4, &nested_4(&new4), &before4, &new4);
            lemma_rebuild_next(cx, d0, &nested_5(&before5), d4, &new4);
        }
        e.rebuild(cx, dom, &mut state.4);
        let ghost d5 = dom@;
        let ghost new5 = (state.0, state.1, state.2, state.3, state.4);
        proof {
            lemma_rebuild_pair(cx, d0, &nested_5(&before5), d4, d5, &nested_5(&new5));
            lemma_nested_5(&before5);
            lemma_nested_5(&new5);
            lemma_rebuilt_as(cx, d0, &nested_5(&before5), d5, &nested_5(&new5), &before5, &new5);
            lemma_rebuild_next(cx, d0, &nested_6(&before), d5, &new5);
        }
        f.rebuild(cx, dom, &mut state.5);
        let ghost d6 = dom@;
        let ghost new6 = (state.0, state.1, state.2, state.3, state.4, state.5);
        proof {
            lemma_rebuild_pair(cx, d0, &nested_6(&before), d5, d6, &nested_6(&new6));
            lemma_nested_6(&before);
            lemma_nested_6(&new6);
            lemma_rebuilt_as(cx, d0, &nested_6(&before), d6, &nested_6(&new6), &before, &new6);
        }
    }
}

impl<
    Output,
    A: State<Output>,
    B: State<Output>,
    C: State<Output>,
    D: State<Output>,
    E: State<Output>,
    F: State<Output>,
> State<Output> for (A, B, C, D, E, F) {
    /// The first 5 parts react as a tuple, and the last reacts to what
    /// they left.
    open spec fn reacts(&self, dom: DomView, output: &Output, after: &Self, done: &Output) -> bool {
        exists|mid: Output|
            {
                &&& #[trigger] (self.0, self.1, self.2, self.3, self.4).reacts(
                    dom,
                    output,
                    &(after.0, after.1, after.2, after.3, after.4),
                    &mid,
                )
                &&& self.5.reacts(
                    silenced(dom, &(self.0, self.1, self.2, self.3, self.4)),
                    &mid,
                    &after.5,
                    done,
                )
            }
    }

    fn run(&mut self, dom: &mut Dom, output: &mut Float<Output>) {
        let ghost before = *self;
        let ghost o0 = output.value();
        let ghost d0 = dom@;
        self.0.run(dom, output);
        let ghost o1 = output.value();
        proof {
            before.1.lemma_frame(d0, dom@);
            before.2.lemma_frame(d0, dom@);
            before.3.lemma_frame(d0, dom@);
            before.4.lemma_frame(d0, dom@);
            before.5.lemma_frame(d0, dom@);
            assert(before.0.reacts(d0, &o0, &self.0, &o1));
            assert(dom@ == silenced(d0, &before.0));
        }
        let ghost d1 = dom@;
        self.1.run(dom, output);
        let ghost o2 = output.value();
        let ghost front2 = (before.0, before.1);
        let ghost next2 = (self.0, self.1);
        proof {
            self.0.lemma_frame(d1, dom@);
            before.2.lemma_frame(d1, dom@);
            before.3.lemma_frame(d1, dom@);
            before.4.lemma_frame(d1, dom@);
            before.5.lemma_frame(d1, dom@);
            lemma_silenced_both(d0, &before.0, &before.1, &front2);
            assert(dom@ == silenced(d0, &front2));
            assert(next2.claims() == front2.claims());
            assert(next2.settled() == front2.settled());
            assert(front2.0.reacts(d0, &o0, &next2.0, &o1));
            assert(front2.reacts(d0, &o0, &next2, &o2));
        }
        let ghost d2 = dom@;
        self.2.run(dom, output);
        let ghost o3 = output.value();
        let ghost front3 = (before.0, before.1, before.2);
        let ghost next3 = (self.0, self.1, self.2);
        proof {
            self.0.lemma_frame(d2, dom@);
            self.1.lemma_frame(d2, dom@);
            before.3.lemma_frame(d2, dom@);
            before.4.lemma_frame(d2, dom@);
            before.5.lemma_frame(d2, dom@);
            lemma_silenced_both(d0, &front2, &before.2, &front3);
            assert(dom@ == silenced(d0, &front3));
            assert(next3.claims() == front3.claims());
            assert(next3.settled() == front3.settled());
            assert((front3.0, front3.1) == front2);
            assert((next3.0, next3.1) == next2);
            assert(front2.reacts(d0, &o0, &next2, &o2));
            assert(front3.reacts(d0, &o0, &next3, &o3));
        }
        let ghost d3 = dom@;
        self.3.run(dom, output);
        let ghost o4 = output.value();
        let ghost front4 = (before.0, before.1, before.2, before.3);
        let ghost next4 = (self.0, self.1, self.2, self.3);
        proof {
            self.0.lemma_frame(d3, dom@);
            self.1.lemma_frame(d3, dom@);
            self.2.lemma_frame(d3, dom@);
            before.4.lemma_frame(d3, dom@);
            before.5.lemma_frame(d3, dom@);
            lemma_silenced_both(d0, &front3, &before.3, &front4);
            assert(dom@ == silenced(d0, &front4));
            assert(next4.claims() == front4.claims());
            assert(next4.settled() == front4.settled());
            assert((front4.0, front4.1, front4.2) == front3);
            assert((next4.0, next4.1, next4.2) == next3);
            assert(front3.reacts(d0, &o0, &next3, &o3));
            assert(front4.reacts(d0, &o0, &next4, &o4));
        }
        let ghost d4 = dom@;
        self.4.run(dom, output);
        let ghost o5 = output.value();
        let ghost front5 = (before.0, before.1, before.2, before.3, before.4);
        let ghost next5 = (self.0, self.1, self.2, self.3, self.4);
        proof {
            self.0.lemma_frame(d4, dom@);
            self.1.lemma_frame(d4, dom@);
            self.2.lemma_frame(d4, dom@);
            self.3.lemma_frame(d4, dom@);
            before.5.lemma_frame(d4, dom@);
            lemma_silenced_both(d0, &front4, &before.4, &front5);
            assert(dom@ == silenced(d0, &front5));
            assert(next5.claims() == front5.claims());
            assert(next5.settled() == front5.settled());
            assert((front5.0, front5.1, front5.2, front5.3) == front4);
            assert((next5.0, next5.1, next5.2, next5.3) == next4);
            assert(front4.reacts(d0, &o0, &next4, &o4));
            assert(front5.reacts(d0, &o0, &next5, &o5));
        }
        let ghost d5 = dom@;
        self.5.run(dom, output);
        let ghost o6 = output.value();
        proof {
            self.0.lemma_frame(d5, dom@);
            self.1.lemma_frame(d5, dom@);
            self.2.lemma_frame(d5, dom@);
            self.3.lemma_frame(d5, dom@);
            self.4.lemma_frame(d5, dom@);
            lemma_silenced_both(d0, &front5, &before.5, &before);
            assert(dom@ == silenced(d0, &before));
        }
    }
}

impl<
    A: Mounted,
    B: Mounted,
    C: Mounted,
    D: Mounted,
    E: Mounted,
    F: Mounted,
    G: Mounted,
> Mounted for (A, B, C, D, E, F, G) {
    open spec fn span(&self) -> Seq<NodeId> {
        self.0.span() + self.1.span() + self.2.span() + self.3.span()
            + self.4.span() + self.5.span() + self.6.span()
    }

    open spec fn owns(&self, n: NodeId) -> bool {
        ||| self.0.owns(n)
        ||| self.1.owns(n)
        ||| self.2.owns(n)
        ||| self.3.owns(n)
        ||| self.4.owns(n)
        ||| self.5.owns(n)
        ||| self.6.owns(n)
    }

    open spec fn inv(&self, dom: DomView) -> bool {
        &&& self.0.inv(dom)
        &&& self.1.inv(dom)
        &&& self.2.inv(dom)
        &&& self.3.inv(dom)
        &&& self.4.inv(dom)
        &&& self.5.inv(dom)
        &&& self.6.inv(dom)
        &&& forall|n: NodeId| !(#[trigger] self.0.owns(n) && self.1.owns(n))
        &&& forall|n: NodeId| !(#[trigger] self.0.owns(n) && self.2.owns(n))
        &&& forall|n: NodeId| !(#[trigger] self.0.owns(n) && self.3.owns(n))
        &&& forall|n: NodeId| !(#[trigger] self.0.owns(n) && self.4.owns(n))
        &&& forall|n: NodeId| !(#[trigger] self.0.owns(n) && self.5.owns(n))
        &&& forall|n: NodeId| !(#[trigger] self.0.owns(n) && self.6.owns(n))
        &&& forall|n: NodeId| !(#[trigger] self.1.owns(n) && self.2.owns(n))
        &&& forall|n: NodeId| !(#[trigger] self.1.owns(n) && self.3.owns(n))
        &&& forall|n: NodeId| !(#[trigger] self.1.owns(n) && self.4.owns(n))
        &&& forall|n: NodeId| !(#[trigger] self.1.owns(n) && self.5.owns(n))
        &&& forall|n: NodeId| !(#[trigger] self.1.owns(n) && self.6.owns(n))
        &&& forall|n: NodeId| !(#[trigger] self.2.owns(n) && self.3.owns(n))
        &&& forall|n: NodeId| !(#[trigger] self.2.owns(n) && self.4.owns(n))
        &&& forall|n: NodeId| !(#[trigger] self.2.owns(n) && self.5.owns(n))
        &&& forall|n: NodeId| !(#[trigger] self.2.owns(n) && self.6.owns(n))
        &&& forall|n: NodeId| !(#[trigger] self.3.owns(n) && self.4.owns(n))
        &&& forall|n: NodeId| !(#[trigger] self.3.owns(n) && self.5.owns(n))
        &&& forall|n: NodeId| !(#[trigger] self.3.owns(n) && self.6.owns(n))
        &&& forall|n: NodeId| !(#[trigger] self.4.owns(n) && self.5.owns(n))
        &&& forall|n: NodeId| !(#[trigger] self.4.owns(n) && self.6.owns(n))
        &&& forall|n: NodeId| !(#[trigger] self.5.owns(n) && self.6.owns(n))
        &&& forall|l: ListenerId| !(#[trigger] self.0.hears(l) && self.1.hears(l))
        &&& forall|l: ListenerId| !(#[trigger] self.0.hears(l) && self.2.hears(l))
        &&& forall|l: ListenerId| !(#[trigger] self.0.hears(l) && self.3.hears(l))
        &&& forall|l: ListenerId| !(#[trigger] self.0.hears(l) && self.4.hears(l))
        &&& forall|l: ListenerId| !(#[trigger] self.0.hears(l) && self.5.hears(l))
        &&& forall|l: ListenerId| !(#[trigger] self.0.hears(l) && self.6.hears(l))
        &&& forall|l: ListenerId| !(#[trigger] self.1.hears(l) && self.2.hears(l))
        &&& forall|l: ListenerId| !(#[trigger] self.1.hears(l) && self.3.hears(l))
        &&& forall|l: ListenerId| !(#[trigger] self.1.hears(l) && self.4.hears(l))
        &&& forall|l: ListenerId| !(#[trigger] self.1.hears(l) && self.5.hears(l))
        &&& forall|l: ListenerId| !(#[trigger] self.1.hears(l) && self.6.hears(l))
        &&& forall|l: ListenerId| !(#[trigger] self.2.hears(l) && self.3.hears(l))
        &&& forall|l: ListenerId| !(#[trigger] self.2.hears(l) && self.4.hears(l))
        &&& forall|l: ListenerId| !(#[trigger] self.2.hears(l) && self.5.hears(l))
        &&& forall|l: ListenerId| !(#[trigger] self.2.hears(l) && self.6.hears(l))
        &&& forall|l: ListenerId| !(#[trigger] self.3.hears(l) && self.4.hears(l))
        &&& forall|l: ListenerId| !(#[trigger] self.3.hears(l) && self.5.hears(l))
        &&& forall|l: ListenerId| !(#[trigger] self.3.hears(l) && self.6.hears(l))
        &&& forall|l: ListenerId| !(#[trigger] self.4.hears(l) && self.5.hears(l))
        &&& forall|l: ListenerId| !(#[trigger] self.4.hears(l) && self.6.hears(l))
        &&& forall|l: ListenerId| !(#[trigger] self.5.hears(l) && self.6.hears(l))
    }

    open spec fn is_view(&self) -> bool {
        &&& self.0.is_view()
        &&& self.1.is_view()
        &&& self.2.is_view()
        &&& self.3.is_view()
        &&& self.4.is_view()
        &&& self.5.is_view()
        &&& self.6.is_view()
    }

    open spec fn claims(&self) -> Claims {
        (self.0, self.1, self.2, self.3, self.4, self.5).claims().union_prefer_right(
            self.6.claims(),
        )
    }

    open spec fn settled(&self) -> bool {
        &&& (self.0, self.1, self.2, self.3, self.4, self.5).settled()
        &&& self.6.settled()
        &&& forall|name: Seq<char>|
            !(#[trigger] (self.0, self.1, self.2, self.3, self.4, self.5).claims().contains_key(
                name,
            ) && self.6.claims().contains_key(name))
    }

    open spec fn hears(&self, l: ListenerId) -> bool {
        ||| self.0.hears(l)
        ||| self.1.hears(l)
        ||| self.2.hears(l)
        ||| self.3.hears(l)
        ||| self.4.hears(l)
        ||| self.5.hears(l)
        ||| self.6.hears(l)
    }

    proof fn lemma_inv(&self, dom: DomView) {
        self.0.lemma_inv(dom);
        self.1.lemma_inv(dom);
        self.2.lemma_inv(dom);
        self.3.lemma_inv(dom);
        self.4.lemma_inv(dom);
        self.5.lemma_inv(dom);
        self.6.lemma_inv(dom);
        let end0 = self.0.span().len();
        let end1 = end0 + self.1.span().len();
        let end2 = end1 + self.2.span().len();
        let end3 = end2 + self.3.span().len();
        let end4 = end3 + self.4.span().len();
        let end5 = end4 + self.5.span().len();
        assert forall|i: int| 0 <= i < self.span().len() implies self.owns(
            #[trigger] self.span()[i],
        ) by {
            if i < end0 {
                assert(self.span()[i] == self.0.span()[i]);
            } else if i < end1 {
                assert(self.span()[i] == self.1.span()[i - end0]);
            } else if i < end2 {
                assert(self.span()[i] == self.2.span()[i - end1]);
            } else if i < end3 {
                assert(self.span()[i] == self.3.span()[i - end2]);
            } else if i < end4 {
                assert(self.span()[i] == self.4.span()[i - end3]);
            } else if i < end5 {
                assert(self.span()[i] == self.5.span()[i - end4]);
            } else {
                assert(self.span()[i] == self.6.span()[i - end5]);
            }
        }
    }

    proof fn lemma_frame(&self, before: DomView, after: DomView) {
        assert forall|n: NodeId| #[trigger] self.0.owns(n) implies after.nodes[n as int]
            == before.nodes[n as int] by {
            assert(self.owns(n));
        }
        self.0.lemma_frame(before, after);
        assert forall|n: NodeId| #[trigger] self.1.owns(n) implies after.nodes[n as int]
            == before.nodes[n as int] by {
            assert(self.owns(n));
        }
        self.1.lemma_frame(before, after);
        assert forall|n: NodeId| #[trigger] self.2.owns(n) implies after.nodes[n as int]
            == before.nodes[n as int] by {
            assert(self.owns(n));
        }
        self.2.lemma_frame(before, after);
        assert forall|n: NodeId| #[trigger] self.3.owns(n) implies after.nodes[n as int]
            == before.nodes[n as int] by {
            assert(self.owns(n));
        }
        self.3.lemma_frame(before, after);
        assert forall|n: NodeId| #[trigger] self.4.owns(n) implies after.nodes[n as int]
            == before.nodes[n as int] by {
            assert(self.owns(n));
        }
        self.4.lemma_frame(before, after);
        assert forall|n: NodeId| #[trigger] self.5.owns(n) implies after.nodes[n as int]
            == before.nodes[n as int] by {
            assert(self.owns(n));
        }
        self.5.lemma_frame(before, after);
        assert forall|n: NodeId| #[trigger] self.6.owns(n) implies after.nodes[n as int]
            == before.nodes[n as int] by {
            assert(self.owns(n));
        }
        self.6.lemma_frame(before, after);
    }
}

impl<
    A: ViewMarker,
    B: ViewMarker,
    C: ViewMarker,
    D: ViewMarker,
    E: ViewMarker,
    F: ViewMarker,
    G: ViewMarker,
> ViewMarker for (A, B, C, D, E, F, G) {
    proof fn lemma_view(&self) {
        self.0.lemma_view();
        self.1.lemma_view();
        self.2.lemma_view();
        self.3.lemma_view();
        self.4.lemma_view();
        self.5.lemma_view();
        self.6.lemma_view();
    }
}

/// A tuple of 7 stands for the same nodes as its first 6 elements
/// paired with its last, and holds exactly when that pair does.
pub proof fn lemma_nested_7<
    A: Mounted,
    B: Mounted,
    C: Mounted,
    D: Mounted,
    E: Mounted,
    F: Mounted,
    G: Mounted,
>(tuple: &(A, B, C, D, E, F, G))
    ensures
        same_nodes(tuple, &nested_7(tuple)),
        same_nodes(&nested_7(tuple), tuple),
        forall|dom: DomView| #[trigger] tuple.inv(dom) == nested_7(tuple).inv(dom),
{
    let nested = nested_7(tuple);
    assert(tuple.span() =~= nested.span());
    assert forall|dom: DomView| #[trigger] tuple.inv(dom) == nested.inv(dom) by {
        if tuple.inv(dom) {
            assert forall|n: NodeId| !(#[trigger] nested.0.owns(n) && nested.1.owns(n)) by {
                if tuple.0.owns(n) {
                    assert(!tuple.6.owns(n));
                }
                if tuple.1.owns(n) {
                    assert(!tuple.6.owns(n));
                }
                if tuple.2.owns(n) {
                    assert(!tuple.6.owns(n));
                }
                if tuple.3.owns(n) {
                    assert(!tuple.6.owns(n));
                }
                if tuple.4.owns(n) {
                    assert(!tuple.6.owns(n));
                }
                if tuple.5.owns(n) {
                    assert(!tuple.6.owns(n));
                }
            }
            assert forall|l: ListenerId| !(#[trigger] nested.0.hears(l) && nested.1.hears(l)) by {
                if tuple.0.hears(l) {
                    assert(!tuple.6.hears(l));
                }
                if tuple.1.hears(l) {
                    assert(!tuple.6.hears(l));
                }
                if tuple.2.hears(l) {
                    assert(!tuple.6.hears(l));
                }
                if tuple.3.hears(l) {
                    assert(!tuple.6.hears(l));
                }
                if tuple.4.hears(l) {
                    assert(!tuple.6.hears(l));
                }
                if tuple.5.hears(l) {
                    assert(!tuple.6.hears(l));
                }
            }
        }
        if nested.inv(dom) {
            assert forall|n: NodeId| !(#[trigger] tuple.0.owns(n) && tuple.6.owns(n)) by {
                if tuple.0.owns(n) {
                    assert(nested.0.owns(n));
                }
            }
            assert forall|n: NodeId| !(#[trigger] tuple.1.owns(n) && tuple.6.owns(n)) by {
                if tuple.1.owns(n) {
                    assert(nested.0.owns(n));
                }
            }
            assert forall|n: NodeId| !(#[trigger] tuple.2.owns(n) && tuple.6.owns(n)) by {
                if tuple.2.owns(n) {
                    assert(nested.0.owns(n));
                }
            }
            assert forall|n: NodeId| !(#[trigger] tuple.3.owns(n) && tuple.6.owns(n)) by {
                if tuple.3.owns(n) {
                    assert(nested.0.owns(n));
                }
            }
            assert forall|n: NodeId| !(#[trigger] tuple.4.owns(n) && tuple.6.owns(n)) by {
                if tuple.4.owns(n) {
                    assert(nested.0.owns(n));
                }
            }
            assert forall|n: NodeId| !(#[trigger] tuple.5.owns(n) && tuple.6.owns(n)) by {
                if tuple.5.owns(n) {
                    assert(nested.0.owns(n));
                }
            }
            assert forall|l: ListenerId|
                !(#[trigger] tuple.0.hears(l) && tuple.6.hears(l)) by {
                if tuple.0.hears(l) {
                    assert(nested.0.hears(l));
                }
            }
            assert forall|l: ListenerId|
                !(#[trigger] tuple.1.hears(l) && tuple.6.hears(l)) by {
                if tuple.1.hears(l) {
                    assert(nested.0.hears(l));
                }
            }
            assert forall|l: ListenerId|
                !(#[trigger] tuple.2.hears(l) && tuple.6.hears(l)) by {
                if tuple.2.hears(l) {
                    assert(nested.0.hears(l));
                }
            }
            assert forall|l: ListenerId|
                !(#[trigger] tuple.3.hears(l) && tuple.6.hears(l)) by {
                if tuple.3.hears(l) {
                    assert(nested.0.hears(l));
                }
            }
            assert forall|l: ListenerId|
                !(#[trigger] tuple.4.hears(l) && tuple.6.hears(l)) by {
                if tuple.4.hears(l) {
                    assert(nested.0.hears(l));
                }
            }
            assert forall|l: ListenerId|
                !(#[trigger] tuple.5.hears(l) && tuple.6.hears(l)) by {
                if tuple.5.hears(l) {
                    assert(nested.0.hears(l));
                }
            }
        }
    }
}

/// The first 6 elements of a tuple of 7, paired with its last.
pub open spec fn nested_7<A, B, C, D, E, F, G>(tuple: &(A, B, C, D, E, F, G)) -> (
    (A, B, C, D, E, F),
    G,
) {
    ((tuple.0, tuple.1, tuple.2, tuple.3, tuple.4, tuple.5), tuple.6)
}

impl<
    A: Builder,
    B: Builder,
    C: Builder,
    D: Builder,
    E: Builder,
    F: Builder,
    G: Builder,
> Builder for (A, B, C, D, E, F, G) {
    type State = (A::State, B::State, C::State, D::State, E::State, F::State, G::State);

    open spec fn wf(&self) -> bool {
        &&& self.0.wf()
        &&& self.1.wf()
        &&& self.2.wf()
        &&& self.3.wf()
        &&& self.4.wf()
        &&& self.5.wf()
        &&& self.6.wf()
    }

    open spec fn describes(&self, state: &Self::State) -> bool {
        &&& self.0.describes(&state.0)
        &&& self.1.describes(&state.1)
        &&& self.2.describes(&state.2)
        &&& self.3.describes(&state.3)
        &&& self.4.describes(&state.4)
        &&& self.5.describes(&state.5)
        &&& self.6.describes(&state.6)
    }

    open spec fn matches(&self, state: &Self::State) -> bool {
        &&& self.0.matches(&state.0)
        &&& self.1.matches(&state.1)
        &&& self.2.matches(&state.2)
        &&& self.3.matches(&state.3)
        &&& self.4.matches(&state.4)
        &&& self.5.matches(&state.5)
        &&& self.6.matches(&state.6)
    }

    /// Each part keeps what it keeps.
    open spec fn keeps(&self, old_state: &Self::State, state: &Self::State) -> bool {
        &&& self.0.keeps(&old_state.0, &state.0)
        &&& self.1.keeps(&old_state.1, &state.1)
        &&& self.2.keeps(&old_state.2, &state.2)
        &&& self.3.keeps(&old_state.3, &state.3)
        &&& self.4.keeps(&old_state.4, &state.4)
        &&& self.5.keeps(&old_state.5, &state.5)
        &&& self.6.keeps(&old_state.6, &state.6)
    }

    open spec fn steady(&self) -> bool {
        &&& self.0.steady()
        &&& self.1.steady()
        &&& self.2.steady()
        &&& self.3.steady()
        &&& self.4.steady()
        &&& self.5.steady()
        &&& self.6.steady()
    }

    proof fn lemma_steady(&self, state: &Self::State) {
        self.0.lemma_steady(&state.0);
        self.1.lemma_steady(&state.1);
        self.2.lemma_steady(&state.2);
        self.3.lemma_steady(&state.3);
        self.4.lemma_steady(&state.4);
        self.5.lemma_steady(&state.5);
        self.6.lemma_steady(&state.6);
    }

    /// Builds the parts in order, left to right.
    fn build(self, cx: BuildCx, dom: &mut Dom) -> (state: Self::State) {
        let ghost d0 = dom@;
        let (a, b, c, d, e, f, g) = self;
        let s0 = a.build(cx, dom);
        let ghost d1 = dom@;
        proof {
            lemma_build_next(cx, d0, d1, &s0);
        }
        let s1 = b.build(cx, dom);
        let ghost d2 = dom@;
        proof {
            lemma_build_pair(cx, d0, d1, d2, &(s0, s1));
            lemma_build_next(cx, d0, d2, &(s0, s1));
        }
        let s2 = c.build(cx, dom);
        let ghost d3 = dom@;
        proof {
            let built = (s0, s1, s2);
            lemma_build_pair(cx, d0, d2, d3, &nested(&built));
            lemma_nested(&built);
            lemma_built_as(cx, d0, d3, &nested(&built), &built);
            lemma_build_next(cx, d0, d3, &built);
        }
        let s3 = d.build(cx, dom);
        let ghost d4 = dom@;
        proof {
            let built = (s0, s1, s2, s3);
            lemma_build_pair(cx, d0, d3, d4, &nested_4(&built));
            lemma_nested_4(&built);
            lemma_built_as(cx, d0, d4, &nested_4(&built), &built);
            lemma_build_next(cx, d0, d4, &built);
        }
        let s4 = e.build(cx, dom);
        let ghost d5 = dom@;
        proof {
            let built = (s0, s1, s2, s3, s4);
            lemma_build_pair(cx, d0, d4, d5, &nested_5(&built));
            lemma_nested_5(&built);
            lemma_built_as(cx, d0, d5, &nested_5(&built), &built);
            lemma_build_next(cx, d0, d5, &built);
        }
        let s5 = f.build(cx, dom);
        let ghost d6 = dom@;
        proof {
            let built = (s0, s1, s2, s3, s4, s5);
            lemma_build_pair(cx, d0, d5, d6, &nested_6(&built));
            lemma_nested_6(&built);
            lemma_built_as(cx, d0, d6, &nested_6(&built), &built);
            lemma_build_next(cx, d0, d6, &built);
        }
        let s6 = g.build(cx, dom);
        let ghost d7 = dom@;
        proof {
            let built = (s0, s1, s2, s3, s4, s5, s6);
            lemma_build_pair(cx, d0, d6, d7, &nested_7(&built));
            lemma_nested_7(&built);
            lemma_built_as(cx, d0, d7, &nested_7(&built), &built);
        }
        (s0, s1, s2, s3, s4, s5, s6)
    }

    /// Rebuilds the parts in order, left to right.
    fn rebuild(self, cx: RebuildCx, dom: &mut Dom, state: &mut Self::State) {
        let ghost d0 = dom@;
        let ghost before = *state;
        let ghost before2 = (before.0, before.1);
        let ghost before3 = (before.0, before.1, before.2);
        let ghost before4 = (before.0, before.1, before.2, before.3);
        let ghost before5 = (before.0, before.1, before.2, before.3, before.4);
        let ghost before6 = (before.0, before.1, before.2, before.3, before.4, before.5);
        let (a, b, c, d, e, f, g) = self;
        proof {
            lemma_nested_7(&before);
            lemma_ready_as(cx, d0, &before, &nested_7(&before));
            lemma_first_ready(cx, d0, &nested_7(&before));
            lemma_nested_6(&before6);
            lemma_ready_as(cx, d0, &before6, &nested_6(&before6));
            lemma_first_ready(cx, d0, &nested_6(&before6));
            lemma_nested_5(&before5);
            lemma_ready_as(cx, d0, &before5, &nested_5(&before5));
            lemma_first_ready(cx, d0, &nested_5(&before5));
            lemma_nested_4(&before4);
            lemma_ready_as(cx, d0, &before4, &nested_4(&before4));
            lemma_first_ready(cx, d0, &nested_4(&before4));
            lemma_nested(&before3);
            lemma_ready_as(cx, d0, &before3, &nested(&before3));
            lemma_first_ready(cx, d0, &nested(&before3));
            lemma_first_ready(cx, d0, &before2);
        }
        a.rebuild(cx, dom, &mut state.0);
        let ghost d1 = dom@;
        proof {
            lemma_rebuild_next(cx, d0, &before2, d1, &state.0);
        }
        b.rebuild(cx, dom, &mut state.1);
        let ghost d2 = dom@;
        let ghost new2 = (state.0, state.1);
        proof {
            lemma_rebuild_pair(cx, d0, &before2, d1, d2, &new2);
            lemma_rebuild_next(cx, d0, &nested(&before3), d2, &new2);
        }
        c.rebuild(cx, dom, &mut state.2);
        let ghost d3 = dom@;
        let ghost new3 = (state.0, state.1, state.2);
        proof {
            lemma_rebuild_pair(cx, d0, &nested(&before3), d2, d3, &nested(&new3));
            lemma_nested(&before3);
            lemma_nested(&new3);
            lemma_rebuilt_as(cx, d0, &nested(&before3), d3, &nested(&new3), &before3, &new3);
            lemma_rebuild_next(cx, d0, &nested_4(&before4), d3, &new3);
        }
        d.rebuild(cx, dom, &mut state.3);
        let ghost d4 = dom@;
        let ghost new4 = (state.0, state.1, state.2, state.3);
        proof {
            lemma_rebuild_pair(cx, d0, &nested_4(&before4), d3, d4, &nested_4(&new4));
            lemma_nested_4(&before4);
            lemma_nested_4(&new4);
            lemma_rebuilt_as(cx, d0, &nested_4(&before4), d4, &nested_4(&new4), &before4, &new4);
            lemma_rebuild_next(cx, d0, &nested_5(&before5), d4, &new4);
        }
        e.rebuild(cx, dom, &mut state.4);
        let ghost d5 = dom@;
        let ghost new5 = (state.0, state.1, state.2, state.3, state.4);
        proof {
            lemma_rebuild_pair(cx, d0, &nested_5(&before5), d4, d5, &nested_5(&new5));
            lemma_nested_5(&before5);
            lemma_nested_5(&new5);
            lemma_rebuilt_as(cx, d0, &nested_5(&before5), d5, &nested_5(&new5), &before5, &new5);
            lemma_rebuild_next(cx, d0, &nested_6(&before6), d5, &new5);
        }
        f.rebuild(cx, dom, &mut state.5);
        let ghost d6 = dom@;
        let ghost new6 = (state.0, state.1, state.2, state.3, state.4, state.5);
        proof {
            lemma_rebuild_pair(cx, d0, &nested_6(&before6), d5, d6, &nested_6(&new6));
            lemma_nested_6(&before6);
            lemma_nested_6(&new6);
            lemma_rebuilt_as(cx, d0, &nested_6(&before6), d6, &nested_6(&new6), &before6, &new6);
            lemma_rebuild_next(cx, d0, &nested_7(&before), d6, &new6);
        }
        g.rebuild(cx, dom, &mut state.6);
        let ghost d7 = dom@;
        let ghost new7 = (state.0, state.1, state.2, state.3, state.4, state.5, state.6);
        proof {
            lemma_rebuild_pair(cx, d0, &nested_7(&before), d6, d7, &nested_7(&new7));
            lemma_nested_7(&before);
            lemma_nested_7(&new7);
            lemma_rebuilt_as(cx, d0, &nested_7(&before), d7, &nested_7(&new7), &before, &new7);
        }
    }
}

impl<
    Output,
    A: State<Output>,
    B: State<Output>,
    C: State<Output>,
    D: State<Output>,
    E: State<Output>,
    F: State<Output>,
    G: State<Output>,
> State<Output> for (A, B, C, D, E, F, G) {
    /// The first 6 parts react as a tuple, and the last reacts to what
    /// they left.
    open spec fn reacts(&self, dom: DomView, output: &Output, after: &Self, done: &Output) -> bool {
        exists|mid: Output|
            {
                &&& #[trigger] (self.0, self.1, self.2, self.3, self.4, self.5).reacts(
                    dom,
                    output,
                    &(after.0, after.1, after.2, after.3, after.4, after.5),
                    &mid,
                )
                &&& self.6.reacts(
                    silenced(dom, &(self.0, self.1, self.2, self.3, self.4, self.5)),
                    &mid,
                    &after.6,
                    done,
                )
            }
    }

    fn run(&mut self, dom: &mut Dom, output: &mut Float<Output>) {
        let ghost before = *self;
        let ghost o0 = output.value();
        let ghost d0 = dom@;
        self.0.run(dom, output);
        let ghost o1 = output.value();
        proof {
            before.1.lemma_frame(d0, dom@);
            before.2.lemma_frame(d0, dom@);
            before.3.lemma_frame(d0, dom@);
            before.4.lemma_frame(d0, dom@);
            before.5.lemma_frame(d0, dom@);
            before.6.lemma_frame(d0, dom@);
            assert(before.0.reacts(d0, &o0, &self.0, &o1));
            assert(dom@ == silenced(d0, &before.0));
        }
        let ghost d1 = dom@;
        self.1.run(dom, output);
        let ghost o2 = output.value();
        let ghost front2 = (before.0, before.1);
        let ghost next2 = (self.0, self.1);
        proof {
            self.0.lemma_frame(d1, dom@);
            before.2.lemma_frame(d1, dom@);
            before.3.lemma_frame(d1, dom@);
            before.4.lemma_frame(d1, dom@);
            before.5.lemma_frame(d1, dom@);
            before.6.lemma_frame(d1, dom@);
            lemma_silenced_both(d0, &before.0, &before.1, &front2);
            assert(dom@ == silenced(d0, &front2));
            assert(next2.claims() == front2.claims());
            assert(next2.settled() == front2.settled());
            assert(front2.0.reacts(d0, &o0, &next2.0, &o1));
            assert(front2.reacts(d0, &o0, &next2, &o2));
        }
        let ghost d2 = dom@;
        self.2.run(dom, output);
        let ghost o3 = output.value();
        let ghost front3 = (before.0, before.1, before.2);
        let ghost next3 = (self.0, self.1, self.2);
        proof {
            self.0.lemma_frame(d2, dom@);
            self.1.lemma_frame(d2, dom@);
            before.3.lemma_frame(d2, dom@);
            before.4.lemma_frame(d2, dom@);
            before.5.lemma_frame(d2, dom@);
            before.6.lemma_frame(d2, dom@);
            lemma_silenced_both(d0, &front2, &before.2, &front3);
            assert(dom@ == silenced(d0, &front3));
            assert(next3.claims() == front3.claims());
            assert(next3.settled() == front3.settled());
            assert((front3.0, front3.1) == front2);
            assert((next3.0, next3.1) == next2);
            assert(front2.reacts(d0, &o0, &next2, &o2));
            assert(front3.reacts(d0, &o0, &next3, &o3));
        }
        let ghost d3 = dom@;
        self.3.run(dom, output);
        let ghost o4 = output.value();
        let ghost front4 = (before.0, before.1, before.2, before.3);
        let ghost next4 = (self.0, self.1, self.2, self.3);
        proof {
            self.0.lemma_frame(d3, dom@);
            self.1.lemma_frame(d3, dom@);
            self.2.lemma_frame(d3, dom@);
            before.4.lemma_frame(d3, dom@);
            before.5.lemma_frame(d3, dom@);
            before.6.lemma_frame(d3, dom@);
            lemma_silenced_both(d0, &front3, &before.3, &front4);
            assert(dom@ == silenced(d0, &front4));
            assert(next4.claims() == front4.claims());
            assert(next4.settled() == front4.settled());
            assert((front4.0, front4.1, front4.2) == front3);
            assert((next4.0, next4.1, next4.2) == next3);
            assert(front3.reacts(d0, &o0, &next3, &o3));
            assert(front4.reacts(d0, &o0, &next4, &o4));
        }
        let ghost d4 = dom@;
        self.4.run(dom, output);
        let ghost o5 = output.value();
        let ghost front5 = (before.0, before.1, before.2, before.3, before.4);
        let ghost next5 = (self.0, self.1, self.2, self.3, self.4);
        proof {
            self.0.lemma_frame(d4, dom@);
            self.1.lemma_frame(d4, dom@);
            self.2.lemma_frame(d4, dom@);
            self.3.lemma_frame(d4, dom@);
            before.5.lemma_frame(d4, dom@);
            before.6.lemma_frame(d4, dom@);
            lemma_silenced_both(d0, &front4, &before.4, &front5);
            assert(dom@ == silenced(d0, &front5));
            assert(next5.claims() == front5.claims());
            assert(next5.settled() == front5.settled());
            assert((front5.0, front5.1, front5.2, front5.3) == front4);
            assert((next5.0, next5.1, next5.2, next5.3) == next4);
            assert(front4.reacts(d0, &o0, &next4, &o4));
            assert(front5.reacts(d0, &o0, &next5, &o5));
        }
        let ghost d5 = dom@;
        self.5.run(dom, output);
        let ghost o6 = output.value();
        let ghost front6 = (before.0, before.1, before.2, before.3, before.4, before.5);
        let ghost next6 = (self.0, self.1, self.2, self.3, self.4, self.5);
        proof {
            self.0.lemma_frame(d5, dom@);
            self.1.lemma_frame(d5, dom@);
            self.2.lemma_frame(d5, dom@);
            self.3.lemma_frame(d5, dom@);
            self.4.lemma_frame(d5, dom@);
            before.6.lemma_frame(d5, dom@);
            lemma_silenced_both(d0, &front5, &before.5, &front6);
            assert(dom@ == silenced(d0, &front6));
            assert(next6.claims() == front6.claims());
            assert(next6.settled() == front6.settled());
            assert((front6.0, front6.1, front6.2, front6.3, front6.4) == front5);
            assert((next6.0, next6.1, next6.2, next6.3, next6.4) == next5);
            assert(front5.reacts(d0, &o0, &next5, &o5));
            assert(front6.reacts(d0, &o0, &next6, &o6));
        }
        let ghost d6 = dom@;
        self.6.run(dom, output);
        let ghost o7 = output.value();
        proof {
            self.0.lemma_frame(d6, dom@);
            self.1.lemma_frame(d6, dom@);
            self.2.lemma_frame(d6, dom@);
            self.3.lemma_frame(d6, dom@);
            self.4.lemma_frame(d6, dom@);
            self.5.lemma_frame(d6, dom@);
            lemma_silenced_both(d0, &front6, &before.6, &before);
            assert(dom@ == silenced(d0, &before));
        }
    }
}

impl<
    A: Mounted,
    B: Mounted,
    C: Mounted,
    D: Mounted,
    E: Mounted,
    F: Mounted,
    G: Mounted,
    H: Mounted,
> Mounted for (A, B, C, D, E, F, G, H) {
    open spec fn span(&self) -> Seq<NodeId> {
        self.0.span() + self.1.span() + self.2.span() + self.3.span()
            + self.4.span() + self.5.span() + self.6.span() + self.7.span()
    }

    open spec fn owns(&self, n: NodeId) -> bool {
        ||| self.0.owns(n)
        ||| self.1.owns(n)
        ||| self.2.owns(n)
        ||| self.3.owns(n)
        ||| self.4.owns(n)
        ||| self.5.owns(n)
        ||| self.6.owns(n)
        ||| self.7.owns(n)
    }

    open spec fn inv(&self, dom: DomView) -> bool {
        &&& self.0.inv(dom)
        &&& self.1.inv(dom)
        &&& self.2.inv(dom)
        &&& self.3.inv(dom)
        &&& self.4.inv(dom)
        &&& self.5.inv(dom)
        &&& self.6.inv(dom)
        &&& self.7.inv(dom)
        &&& forall|n: NodeId| !(#[trigger] self.0.owns(n) && self.1.owns(n))
        &&& forall|n: NodeId| !(#[trigger] self.0.owns(n) && self.2.owns(n))
        &&& forall|n: NodeId| !(#[trigger] self.0.owns(n) && self.3.owns(n))
        &&& forall|n: NodeId| !(#[trigger] self.0.owns(n) && self.4.owns(n))
        &&& forall|n: NodeId| !(#[trigger] self.0.owns(n) && self.5.owns(n))
        &&& forall|n: NodeId| !(#[trigger] self.0.owns(n) && self.6.owns(n))
        &&& forall|n: NodeId| !(#[trigger] self.0.owns(n) && self.7.owns(n))
        &&& forall|n: NodeId| !(#[trigger] self.1.owns(n) && self.2.owns(n))
        &&& forall|n: NodeId| !(#[trigger] self.1.owns(n) && self.3.owns(n))
        &&& forall|n: NodeId| !(#[trigger] self.1.owns(n) && self.4.owns(n))
        &&& forall|n: NodeId| !(#[trigger] self.1.owns(n) && self.5.owns(n))
        &&& forall|n: NodeId| !(#[trigger] self.1.owns(n) && self.6.owns(n))
        &&& forall|n: NodeId| !(#[trigger] self.1.owns(n) && self.7.owns(n))
        &&& forall|n: NodeId| !(#[trigger] self.2.owns(n) && self.3.owns(n))
        &&& forall|n: NodeId| !(#[trigger] self.2.owns(n) && self.4.owns(n))
        &&& forall|n: NodeId| !(#[trigger] self.2.owns(n) && self.5.owns(n))
        &&& forall|n: NodeId| !(#[trigger] self.2.owns(n) && self.6.owns(n))
        &&& forall|n: NodeId| !(#[trigger] self.2.owns(n) && self.7.owns(n))
        &&& forall|n: NodeId| !(#[trigger] self.3.owns(n) && self.4.owns(n))
        &&& forall|n: NodeId| !(#[trigger] self.3.owns(n) && self.5.owns(n))
        &&& forall|n: NodeId| !(#[trigger] self.3.owns(n) && self.6.owns(n))
        &&& forall|n: NodeId| !(#[trigger] self.3.owns(n) && self.7.owns(n))
        &&& forall|n: NodeId| !(#[trigger] self.4.owns(n) && self.5.owns(n))
        &&& forall|n: NodeId| !(#[trigger] self.4.owns(n) && self.6.owns(n))
        &&& forall|n: NodeId| !(#[trigger] self.4.owns(n) && self.7.owns(n))
        &&& forall|n: NodeId| !(#[trigger] self.5.owns(n) && self.6.owns(n))
        &&& forall|n: NodeId| !(#[trigger] self.5.owns(n) && self.7.owns(n))
        &&& forall|n: NodeId| !(#[trigger] self.6.owns(n) && self.7.owns(n))
        &&& forall|l: ListenerId| !(#[trigger] self.0.hears(l) && self.1.hears(l))
        &&& forall|l: ListenerId| !(#[trigger] self.0.hears(l) && self.2.hears(l))
        &&& forall|l: ListenerId| !(#[trigger] self.0.hears(l) && self.3.hears(l))
        &&& forall|l: ListenerId| !(#[trigger] self.0.hears(l) && self.4.hears(l))
        &&& forall|l: ListenerId| !(#[trigger] self.0.hears(l) && self.5.hears(l))
        &&& forall|l: ListenerId| !(#[trigger] self.0.hears(l) && self.6.hears(l))
        &&& forall|l: ListenerId| !(#[trigger] self.0.hears(l) && self.7.hears(l))
        &&& forall|l: ListenerId| !(#[trigger] self.1.hears(l) && self.2.hears(l))
        &&& forall|l: ListenerId| !(#[trigger] self.1.hears(l) && self.3.hears(l))
        &&& forall|l: ListenerId| !(#[trigger] self.1.hears(l) && self.4.hears(l))
        &&& forall|l: ListenerId| !(#[trigger] self.1.hears(l) && self.5.hears(l))
        &&& forall|l: ListenerId| !(#[trigger] self.1.hears(l) && self.6.hears(l))
        &&& forall|l: ListenerId| !(#[trigger] self.1.hears(l) && self.7.hears(l))
        &&& forall|l: ListenerId| !(#[trigger] self.2.hears(l) && self.3.hears(l))
        &&& forall|l: ListenerId| !(#[trigger] self.2.hears(l) && self.4.hears(l))
        &&& forall|l: ListenerId| !(#[trigger] self.2.hears(l) && self.5.hears(l))
        &&& forall|l: ListenerId| !(#[trigger] self.2.hears(l) && self.6.hears(l))
        &&& forall|l: ListenerId| !(#[trigger] self.2.hears(l) && self.7.hears(l))
        &&& forall|l: ListenerId| !(#[trigger] self.3.hears(l) && self.4.hears(l))
        &&& forall|l: ListenerId| !(#[trigger] self.3.hears(l) && self.5.hears(l))
        &&& forall|l: ListenerId| !(#[trigger] self.3.hears(l) && self.6.hears(l))
        &&& forall|l: ListenerId| !(#[trigger] self.3.hears(l) && self.7.hears(l))
        &&& forall|l: ListenerId| !(#[trigger] self.4.hears(l) && self.5.hears(l))
        &&& forall|l: ListenerId| !(#[trigger] self.4.hears(l) && self.6.hears(l))
        &&& forall|l: ListenerId| !(#[trigger] self.4.hears(l) && self.7.hears(l))
        &&& forall|l: ListenerId| !(#[trigger] self.5.hears(l) && self.6.hears(l))
        &&& forall|l: ListenerId| !(#[trigger] self.5.hears(l) && self.7.hears(l))
        &&& forall|l: ListenerId| !(#[trigger] self.6.hears(l) && self.7.hears(l))
    }

    open spec fn is_view(&self) -> bool {
        &&& self.0.is_view()
        &&& self.1.is_view()
        &&& self.2.is_view()
        &&& self.3.is_view()
        &&& self.4.is_view()
        &&& self.5.is_view()
        &&& self.6.is_view()
        &&& self.7.is_view()
    }

    open spec fn claims(&self) -> Claims {
        (self.0, self.1, self.2, self.3, self.4, self.5, self.6).claims().union_prefer_right(
            self.7.claims(),
        )
    }

    open spec fn settled(&self) -> bool {
        &&& (self.0, self.1, self.2, self.3, self.4, self.5, self.6).settled()
        &&& self.7.settled()
        &&& forall|name: Seq<char>|
            !(#[trigger] (
                self.0, self.1, self.2, self.3, self.4, self.5, self.6,
            ).claims().contains_key(name) && self.7.claims().contains_key(name))
    }

    open spec fn hears(&self, l: ListenerId) -> bool {
        ||| self.0.hears(l)
        ||| self.1.hears(l)
        ||| self.2.hears(l)
        ||| self.3.hears(l)
        ||| self.4.hears(l)
        ||| self.5.hears(l)
        ||| self.6.hears(l)
        ||| self.7.hears(l)
    }

    proof fn lemma_inv(&self, dom: DomView) {
        self.0.lemma_inv(dom);
        self.1.lemma_inv(dom);
        self.2.lemma_inv(dom);
        self.3.lemma_inv(dom);
        self.4.lemma_inv(dom);
        self.5.lemma_inv(dom);
        self.6.lemma_inv(dom);
        self.7.lemma_inv(dom);
        let end0 = self.0.span().len();
        let end1 = end0 + self.1.span().len();
        let end2 = end1 + self.2.span().len();
        let end3 = end2 + self.3.span().len();
        let end4 = end3 + self.4.span().len();
        let end5 = end4 + self.5.span().len();
        let end6 = end5 + self.6.span().len();
        assert forall|i: int| 0 <= i < self.span().len() implies self.owns(
            #[trigger] self.span()[i],
        ) by {
            if i < end0 {
                assert(self.span()[i] == self.0.span()[i]);
            } else if i < end1 {
                assert(self.span()[i] == self.1.span()[i - end0]);
            } else if i < end2 {
                assert(self.span()[i] == self.2.span()[i - end1]);
            } else if i < end3 {
                assert(self.span()[i] == self.3.span()[i - end2]);
            } else if i < end4 {
                assert(self.span()[i] == self.4.span()[i - end3]);
            } else if i < end5 {
                assert(self.span()[i] == self.5.span()[i - end4]);
            } else if i < end6 {
                assert(self.span()[i] == self.6.span()[i - end5]);
            } else {
                assert(self.span()[i] == self.7.span()[i - end6]);
            }
        }
    }

    proof fn lemma_frame(&self, before: DomView, after: DomView) {
        assert forall|n: NodeId| #[trigger] self.0.owns(n) implies after.nodes[n as int]
            == before.nodes[n as int] by {
            assert(self.owns(n));
        }
        self.0.lemma_frame(before, after);
        assert forall|n: NodeId| #[trigger] self.1.owns(n) implies after.nodes[n as int]
            == before.nodes[n as int] by {
            assert(self.owns(n));
        }
        self.1.lemma_frame(before, after);
        assert forall|n: NodeId| #[trigger] self.2.owns(n) implies after.nodes[n as int]
            == before.nodes[n as int] by {
            assert(self.owns(n));
        }
        self.2.lemma_frame(before, after);
        assert forall|n: NodeId| #[trigger] self.3.owns(n) implies after.nodes[n as int]
            == before.nodes[n as int] by {
            assert(self.owns(n));
        }
        self.3.lemma_frame(before, after);
        assert forall|n: NodeId| #[trigger] self.4.owns(n) implies after.nodes[n as int]
            == before.nodes[n as int] by {
            assert(self.owns(n));
        }
        self.4.lemma_frame(before, after);
        assert forall|n: NodeId| #[trigger] self.5.owns(n) implies after.nodes[n as int]
            == before.nodes[n as int] by {
            assert(self.owns(n));
        }
        self.5.lemma_frame(before, after);
        assert forall|n: NodeId| #[trigger] self.6.owns(n) implies after.nodes[n as int]
            == before.nodes[n as int] by {
            assert(self.owns(n));
        }
        self.6.lemma_frame(before, after);
        assert forall|n: NodeId| #[trigger] self.7.owns(n) implies after.nodes[n as int]
            == before.nodes[n as int] by {
            assert(self.owns(n));
        }
        self.7.lemma_frame(before, after);
    }
}

impl<
    A: ViewMarker,
    B: ViewMarker,
    C: ViewMarker,
    D: ViewMarker,
    E: ViewMarker,
    F: ViewMarker,
    G: ViewMarker,
    H: ViewMarker,
> ViewMarker for (A, B, C, D, E, F, G, H) {
    proof fn lemma_view(&self) {
        self.0.lemma_view();
        self.1.lemma_view();
        self.2.lemma_view();
        self.3.lemma_view();
        self.4.lemma_view();
        self.5.lemma_view();
        self.6.lemma_view();
        self.7.lemma_view();
    }
}

/// A tuple of 8 stands for the same nodes as its first 7 elements
/// paired with its last, and holds exactly when that pair does.
pub proof fn lemma_nested_8<
    A: Mounted,
    B: Mounted,
    C: Mounted,
    D: Mounted,
    E: Mounted,
    F: Mounted,
    G: Mounted,
    H: Mounted,
>(tuple: &(A, B, C, D, E, F, G, H))
    ensures
        same_nodes(tuple, &nested_8(tuple)),
        same_nodes(&nested_8(tuple), tuple),
        forall|dom: DomView| #[trigger] tuple.inv(dom) == nested_8(tuple).inv(dom),
{
    let nested = nested_8(tuple);
    assert(tuple.span() =~= nested.span());
    assert forall|dom: DomView| #[trigger] tuple.inv(dom) == nested.inv(dom) by {
        if tuple.inv(dom) {
            assert forall|n: NodeId| !(#[trigger] nested.0.owns(n) && nested.1.owns(n)) by {
                if tuple.0.owns(n) {
                    assert(!tuple.7.owns(n));
                }
                if tuple.1.owns(n) {
                    assert(!tuple.7.owns(n));
                }
                if tuple.2.owns(n) {
                    assert(!tuple.7.owns(n));
                }
                if tuple.3.owns(n) {
                    assert(!tuple.7.owns(n));
                }
                if tuple.4.owns(n) {
                    assert(!tuple.7.owns(n));
                }
                if tuple.5.owns(n) {
                    assert(!tuple.7.owns(n));
                }
                if tuple.6.owns(n) {
                    assert(!tuple.7.owns(n));
                }
            }
            assert forall|l: ListenerId| !(#[trigger] nested.0.hears(l) && nested.1.hears(l)) by {
                if tuple.0.hears(l) {
                    assert(!tuple.7.hears(l));
                }
                if tuple.1.hears(l) {
                    assert(!tuple.7.hears(l));
                }
                if tuple.2.hears(l) {
                    assert(!tuple.7.hears(l));
                }
                if tuple.3.hears(l) {
                    assert(!tuple.7.hears(l));
                }
                if tuple.4.hears(l) {
                    assert(!tuple.7.hears(l));
                }
                if tuple.5.hears(l) {
                    assert(!tuple.7.hears(l));
                }
                if tuple.6.hears(l) {
                    assert(!tuple.7.hears(l));
                }
            }
        }
        if nested.inv(dom) {
            assert forall|n: NodeId| !(#[trigger] tuple.0.owns(n) && tuple.7.owns(n)) by {
                if tuple.0.owns(n) {
                    assert(nested.0.owns(n));
                }
            }
            assert forall|n: NodeId| !(#[trigger] tuple.1.owns(n) && tuple.7.owns(n)) by {
                if tuple.1.owns(n) {
                    assert(nested.0.owns(n));
                }
            }
            assert forall|n: NodeId| !(#[trigger] tuple.2.owns(n) && tuple.7.owns(n)) by {
                if tuple.2.owns(n) {
                    assert(nested.0.owns(n));
                }
            }
            assert forall|n: NodeId| !(#[trigger] tuple.3.owns(n) && tuple.7.owns(n)) by {
                if tuple.3.owns(n) {
                    assert(nested.0.owns(n));
                }
            }
            assert forall|n: NodeId| !(#[trigger] tuple.4.owns(n) && tuple.7.owns(n)) by {
                if tuple.4.owns(n) {
                    assert(nested.0.owns(n));
                }
            }
            assert forall|n: NodeId| !(#[trigger] tuple.5.owns(n) && tuple.7.owns(n)) by {
                if tuple.5.owns(n) {
                    assert(nested.0.owns(n));
                }
            }
            assert forall|n: NodeId| !(#[trigger] tuple.6.owns(n) && tuple.7.owns(n)) by {
                if tuple.6.owns(n) {
                    assert(nested.0.owns(n));
                }
            }
            assert forall|l: ListenerId|
                !(#[trigger] tuple.0.hears(l) && tuple.7.hears(l)) by {
                if tuple.0.hears(l) {
                    assert(nested.0.hears(l));
                }
            }
            assert forall|l: ListenerId|
                !(#[trigger] tuple.1.hears(l) && tuple.7.hears(l)) by {
                if tuple.1.hears(l) {
                    assert(nested.0.hears(l));
                }
            }
            assert forall|l: ListenerId|
                !(#[trigger] tuple.2.hears(l) && tuple.7.hears(l)) by {
                if tuple.2.hears(l) {
                    assert(nested.0.hears(l));
                }
            }
            assert forall|l: ListenerId|
                !(#[trigger] tuple.3.hears(l) && tuple.7.hears(l)) by {
                if tuple.3.hears(l) {
                    assert(nested.0.hears(l));
                }
            }
            assert forall|l: ListenerId|
                !(#[trigger] tuple.4.hears(l) && tuple.7.hears(l)) by {
                if tuple.4.hears(l) {
                    assert(nested.0.hears(l));
                }
            }
            assert forall|l: ListenerId|
                !(#[trigger] tuple.5.hears(l) && tuple.7.hears(l)) by {
                if tuple.5.hears(l) {
                    assert(nested.0.hears(l));
                }
            }
            assert forall|l: ListenerId|
                !(#[trigger] tuple.6.hears(l) && tuple.7.hears(l)) by {
                if tuple.6.hears(l) {
                    assert(nested.0.hears(l));
                }
            }
        }
    }
}

/// The first 7 elements of a tuple of 8, paired with its last.
pub open spec fn nested_8<A, B, C, D, E, F, G, H>(tuple: &(A, B, C, D, E, F, G, H)) -> (
    (A, B, C, D, E, F, G),
    H,
) {
    ((tuple.0, tuple.1, tuple.2, tuple.3, tuple.4, tuple.5, tuple.6), tuple.7)
}

impl<
    A: Builder,
    B: Builder,
    C: Builder,
    D: Builder,
    E: Builder,
    F: Builder,
    G: Builder,
    H: Builder,
> Builder for (A, B, C, D, E, F, G, H) {
    type State = (A::State, B::State, C::State, D::State, E::State, F::State, G::State, H::State);

    open spec fn wf(&self) -> bool {
        &&& self.0.wf()
        &&& self.1.wf()
        &&& self.2.wf()
        &&& self.3.wf()
        &&& self.4.wf()
        &&& self.5.wf()
        &&& self.6.wf()
        &&& self.7.wf()
    }

    open spec fn describes(&self, state: &Self::State) -> bool {
        &&& self.0.describes(&state.0)
        &&& self.1.describes(&state.1)
        &&& self.2.describes(&state.2)
        &&& self.3.describes(&state.3)
        &&& self.4.describes(&state.4)
        &&& self.5.describes(&state.5)
        &&& self.6.describes(&state.6)
        &&& self.7.describes(&state.7)
    }

    open spec fn matches(&self, state: &Self::State) -> bool {
        &&& self.0.matches(&state.0)
        &&& self.1.matches(&state.1)
        &&& self.2.matches(&state.2)
        &&& self.3.matches(&state.3)
        &&& self.4.matches(&state.4)
        &&& self.5.matches(&state.5)
        &&& self.6.matches(&state.6)
        &&& self.7.matches(&state.7)
    }

    /// Each part keeps what it keeps.
    open spec fn keeps(&self, old_state: &Self::State, state: &Self::State) -> bool {
        &&& self.0.keeps(&old_state.0, &state.0)
        &&& self.1.keeps(&old_state.1, &state.1)
        &&& self.2.keeps(&old_state.2, &state.2)
        &&& self.3.keeps(&old_state.3, &state.3)
        &&& self.4.keeps(&old_state.4, &state.4)
        &&& self.5.keeps(&old_state.5, &state.5)
        &&& self.6.keeps(&old_state.6, &state.6)
        &&& self.7.keeps(&old_state.7, &state.7)
    }

    open spec fn steady(&self) -> bool {
        &&& self.0.steady()
        &&& self.1.steady()
        &&& self.2.steady()
        &&& self.3.steady()
        &&& self.4.steady()
        &&& self.5.steady()
        &&& self.6.steady()
        &&& self.7.steady()
    }

    proof fn lemma_steady(&self, state: &Self::State) {
        self.0.lemma_steady(&state.0);
        self.1.lemma_steady(&state.1);
        self.2.lemma_steady(&state.2);
        self.3.lemma_steady(&state.3);
        self.4.lemma_steady(&state.4);
        self.5.lemma_steady(&state.5);
        self.6.lemma_steady(&state.6);
        self.7.lemma_steady(&state.7);
    }

    /// Builds the parts in order, left to right.
    fn build(self, cx: BuildCx, dom: &mut Dom) -> (state: Self::State) {
        let ghost d0 = dom@;
        let (a, b, c, d, e, f, g, h) = self;
        let s0 = a.build(cx, dom);
        let ghost d1 = dom@;
        proof {
            lemma_build_next(cx, d0, d1, &s0);
        }
        let s1 = b.build(cx, dom);
        let ghost d2 = dom@;
        proof {
            lemma_build_pair(cx, d0, d1, d2, &(s0, s1));
            lemma_build_next(cx, d0, d2, &(s0, s1));
        }
        let s2 = c.build(cx, dom);
        let ghost d3 = dom@;
        proof {
            let built = (s0, s1, s2);
            lemma_build_pair(cx, d0, d2, d3, &nested(&built));
            lemma_nested(&built);
            lemma_built_as(cx, d0, d3, &nested(&built), &built);
            lemma_build_next(cx, d0, d3, &built);
        }
        let s3 = d.build(cx, dom);
        let ghost d4 = dom@;
        proof {
            let built = (s0, s1, s2, s3);
            lemma_build_pair(cx, d0, d3, d4, &nested_4(&built));
            lemma_nested_4(&built);
            lemma_built_as(cx, d0, d4, &nested_4(&built), &built);
            lemma_build_next(cx, d0, d4, &built);
        }
        let s4 = e.build(cx, dom);
        let ghost d5 = dom@;
        proof {
            let built = (s0, s1, s2, s3, s4);
            lemma_build_pair(cx, d0, d4, d5, &nested_5(&built));
            lemma_nested_5(&built);
            lemma_built_as(cx, d0, d5, &nested_5(&built), &built);
            lemma_build_next(cx, d0, d5, &built);
        }
        let s5 = f.build(cx, dom);
        let ghost d6 = dom@;
        proof {
            let built = (s0, s1, s2, s3, s4, s5);
            lemma_build_pair(cx, d0, d5, d6, &nested_6(&built));
            lemma_nested_6(&built);
            lemma_built_as(cx, d0, d6, &nested_6(&built), &built);
            lemma_build_next(cx, d0, d6, &built);
        }
        let s6 = g.build(cx, dom);
        let ghost d7 = dom@;
        proof {
            let built = (s0, s1, s2, s3, s4, s5, s6);
            lemma_build_pair(cx, d0, d6, d7, &nested_7(&built));
            lemma_nested_7(&built);
            lemma_built_as(cx, d0, d7, &nested_7(&built), &built);
            lemma_build_next(cx, d0, d7, &built);
        }
        let s7 = h.build(cx, dom);
        let ghost d8 = dom@;
        proof {
            let built = (s0, s1, s2, s3, s4, s5, s6, s7);
            lemma_build_pair(cx, d0, d7, d8, &nested_8(&built));
            lemma_nested_8(&built);
            lemma_built_as(cx, d0, d8, &nested_8(&built), &built);
        }
        (s0, s1, s2, s3, s4, s5, s6, s7)
    }

    /// Rebuilds the parts in order, left to right.
    fn rebuild(self, cx: RebuildCx, dom: &mut Dom, state: &mut Self::State) {
        let ghost d0 = dom@;
        let ghost before = *state;
        let ghost before2 = (before.0, before.1);
        let ghost before3 = (before.0, before.1, before.2);
        let ghost before4 = (before.0, before.1, before.2, before.3);
        let ghost before5 = (before.0, before.1, before.2, before.3, before.4);
        let ghost before6 = (before.0, before.1, before.2, before.3, before.4, before.5);
        let ghost before7 = (before.0, before.1, before.2, before.3, before.4, before.5, before.6);
        let (a, b, c, d, e, f, g, h) = self;
        proof {
            lemma_nested_8(&before);
            lemma_ready_as(cx, d0, &before, &nested_8(&before));
            lemma_first_ready(cx, d0, &nested_8(&before));
            lemma_nested_7(&before7);
            lemma_ready_as(cx, d0, &before7, &nested_7(&before7));
            lemma_first_ready(cx, d0, &nested_7(&before7));
            lemma_nested_6(&before6);
            lemma_ready_as(cx, d0, &before6, &nested_6(&before6));
            lemma_first_ready(cx, d0, &nested_6(&before6));
            lemma_nested_5(&before5);
            lemma_ready_as(cx, d0, &before5, &nested_5(&before5));
            lemma_first_ready(cx, d0, &nested_5(&before5));
            lemma_nested_4(&before4);
            lemma_ready_as(cx, d0, &before4, &nested_4(&before4));
            lemma_first_ready(cx, d0, &nested_4(&before4));
            lemma_nested(&before3);
            lemma_ready_as(cx, d0, &before3, &nested(&before3));
            lemma_first_ready(cx, d0, &nested(&before3));
            lemma_first_ready(cx, d0, &before2);
        }
        a.rebuild(cx, dom, &mut state.0);
        let ghost d1 = dom@;
        proof {
            lemma_rebuild_next(cx, d0, &before2, d1, &state.0);
        }
        b.rebuild(cx, dom, &mut state.1);
        let ghost d2 = dom@;
        let ghost new2 = (state.0, state.1);
        proof {
            lemma_rebuild_pair(cx, d0, &before2, d1, d2, &new2);
            lemma_rebuild_next(cx, d0, &nested(&before3), d2, &new2);
        }
        c.rebuild(cx, dom, &mut state.2);
        let ghost d3 = dom@;
        let ghost new3 = (state.0, state.1, state.2);
        proof {
            lemma_rebuild_pair(cx, d0, &nested(&before3), d2, d3, &nested(&new3));
            lemma_nested(&before3);
            lemma_nested(&new3);
            lemma_rebuilt_as(cx, d0, &nested(&before3), d3, &nested(&new3), &before3, &new3);
            lemma_rebuild_next(cx, d0, &nested_4(&before4), d3, &new3);
        }
        d.rebuild(cx, dom, &mut state.3);
        let ghost d4 = dom@;
        let ghost new4 = (state.0, state.1, state.2, state.3);
        proof {
            lemma_rebuild_pair(cx, d0, &nested_4(&before4), d3, d4, &nested_4(&new4));
            lemma_nested_4(&before4);
            lemma_nested_4(&new4);
            lemma_rebuilt_as(cx, d0, &nested_4(&before4), d4, &nested_4(&new4), &before4, &new4);
            lemma_rebuild_next(cx, d0, &nested_5(&before5), d4, &new4);
        }
        e.rebuild(cx, dom, &mut state.4);
        let ghost d5 = dom@;
        let ghost new5 = (state.0, state.1, state.2, state.3, state.4);
        proof {
            lemma_rebuild_pair(cx, d0, &nested_5(&before5), d4, d5, &nested_5(&new5));
            lemma_nested_5(&before5);
            lemma_nested_5(&new5);
            lemma_rebuilt_as(cx, d0, &nested_5(&before5), d5, &nested_5(&new5), &before5, &new5);
            lemma_rebuild_next(cx, d0, &nested_6(&before6), d5, &new5);
        }
        f.rebuild(cx, dom, &mut state.5);
        let ghost d6 = dom@;
        let ghost new6 = (state.0, state.1, state.2, state.3, state.4, state.5);
        proof {
            lemma_rebuild_pair(cx, d0, &nested_6(&before6), d5, d6, &nested_6(&new6));
            lemma_nested_6(&before6);
            lemma_nested_6(&new6);
            lemma_rebuilt_as(cx, d0, &nested_6(&before6), d6, &nested_6(&new6), &before6, &new6);
            lemma_rebuild_next(cx, d0, &nested_7(&before7), d6, &new6);
        }
        g.rebuild(cx, dom, &mut state.6);
        let ghost d7 = dom@;
        let ghost new7 = (state.0, state.1, state.2, state.3, state.4, state.5, state.6);
        proof {
            lemma_rebuild_pair(cx, d0, &nested_7(&before7), d6, d7, &nested_7(&new7));
            lemma_nested_7(&before7);
            lemma_nested_7(&new7);
            lemma_rebuilt_as(cx, d0, &nested_7(&before7), d7, &nested_7(&new7), &before7, &new7);
            lemma_rebuild_next(cx, d0, &nested_8(&before), d7, &new7);
        }
        h.rebuild(cx, dom, &mut state.7);
        let ghost d8 = dom@;
        let ghost new8 = (state.0, state.1, state.2, state.3, state.4, state.5, state.6, state.7);
        proof {
            lemma_rebuild_pair(cx, d0, &nested_8(&before), d7, d8, &nested_8(&new8));
            lemma_nested_8(&before);
            lemma_nested_8(&new8);
            lemma_rebuilt_as(cx, d0, &nested_8(&before), d8, &nested_8(&new8), &before, &new8);
        }
    }
}

impl<
    Output,
    A: State<Output>,
    B: State<Output>,
    C: State<Output>,
    D: State<Output>,
    E: State<Output>,
    F: State<Output>,
    G: State<Output>,
    H: State<Output>,
> State<Output> for (A, B, C, D, E, F, G, H) {
    /// The first 7 parts react as a tuple, and the last reacts to what
    /// they left.
    open spec fn reacts(&self, dom: DomView, output: &Output, after: &Self, done: &Output) -> bool {
        exists|mid: Output|
            {
                &&& #[trigger] (self.0, self.1, self.2, self.3, self.4, self.5, self.6).reacts(
                    dom,
                    output,
                    &(after.0, after.1, after.2, after.3, after.4, after.5, after.6),
                    &mid,
                )
                &&& self.7.reacts(
                    silenced(dom, &(self.0, self.1, self.2, self.3, self.4, self.5, self.6)),
                    &mid,
                    &after.7,
                    done,
                )
            }
    }

    fn run(&mut self, dom: &mut Dom, output: &mut Float<Output>) {
        let ghost before = *self;
        let ghost o0 = output.value();
        let ghost d0 = dom@;
        self.0.run(dom, output);
        let ghost o1 = output.value();
        proof {
            before.1.lemma_frame(d0, dom@);
            before.2.lemma_frame(d0, dom@);
            before.3.lemma_frame(d0, dom@);
            before.4.lemma_frame(d0, dom@);
            before.5.lemma_frame(d0, dom@);
            before.6.lemma_frame(d0, dom@);
            before.7.lemma_frame(d0, dom@);
            assert(before.0.reacts(d0, &o0, &self.0, &o1));
            assert(dom@ == silenced(d0, &before.0));
        }
        let ghost d1 = dom@;
        self.1.run(dom, output);
        let ghost o2 = output.value();
        let ghost front2 = (before.0, before.1);
        let ghost next2 = (self.0, self.1);
        proof {
            self.0.lemma_frame(d1, dom@);
            before.2.lemma_frame(d1, dom@);
            before.3.lemma_frame(d1, dom@);
            before.4.lemma_frame(d1, dom@);
            before.5.lemma_frame(d1, dom@);
            before.6.lemma_frame(d1, dom@);
            before.7.lemma_frame(d1, dom@);
            lemma_silenced_both(d0, &before.0, &before.1, &front2);
            assert(dom@ == silenced(d0, &front2));
            assert(next2.claims() == front2.claims());
            assert(next2.settled() == front2.settled());
            assert(front2.0.reacts(d0, &o0, &next2.0, &o1));
            assert(front2.reacts(d0, &o0, &next2, &o2));
        }
        let ghost d2 = dom@;
        self.2.run(dom, output);
        let ghost o3 = output.value();
        let ghost front3 = (before.0, before.1, before.2);
        let ghost next3 = (self.0, self.1, self.2);
        proof {
            self.0.lemma_frame(d2, dom@);
            self.1.lemma_frame(d2, dom@);
            before.3.lemma_frame(d2, dom@);
            before.4.lemma_frame(d2, dom@);
            before.5.lemma_frame(d2, dom@);
            before.6.lemma_frame(d2, dom@);
            before.7.lemma_frame(d2, dom@);
            lemma_silenced_both(d0, &front2, &before.2, &front3);
            assert(dom@ == silenced(d0, &front3));
            assert(next3.claims() == front3.claims());
            assert(next3.settled() == front3.settled());
            assert((front3.0, front3.1) == front2);
            assert((next3.0, next3.1) == next2);
            assert(front2.reacts(d0, &o0, &next2, &o2));
            assert(front3.reacts(d0, &o0, &next3, &o3));
        }
        let ghost d3 = dom@;
        self.3.run(dom, output);
        let ghost o4 = output.value();
        let ghost front4 = (before.0, before.1, before.2, before.3);
        let ghost next4 = (self.0, self.1, self.2, self.3);
        proof {
            self.0.lemma_frame(d3, dom@);
            self.1.lemma_frame(d3, dom@);
            self.2.lemma_frame(d3, dom@);
            before.4.lemma_frame(d3, dom@);
            before.5.lemma_frame(d3, dom@);
            before.6.lemma_frame(d3, dom@);
            before.7.lemma_frame(d3, dom@);
            lemma_silenced_both(d0, &front3, &before.3, &front4);
            assert(dom@ == silenced(d0, &front4));
            assert(next4.claims() == front4.claims());
            assert(next4.settled() == front4.settled());
            assert((front4.0, front4.1, front4.2) == front3);
            assert((next4.0, next4.1, next4.2) == next3);
            assert(front3.reacts(d0, &o0, &next3, &o3));
            assert(front4.reacts(d0, &o0, &next4, &o4));
        }
        let ghost d4 = dom@;
        self.4.run(dom, output);
        let ghost o5 = output.value();
        let ghost front5 = (before.0, before.1, before.2, before.3, before.4);
        let ghost next5 = (self.0, self.1, self.2, self.3, self.4);
        proof {
            self.0.lemma_frame(d4, dom@);
            self.1.lemma_frame(d4, dom@);
            self.2.lemma_frame(d4, dom@);
            self.3.lemma_frame(d4, dom@);
            before.5.lemma_frame(d4, dom@);
            before.6.lemma_frame(d4, dom@);
            before.7.lemma_frame(d4, dom@);
            lemma_silenced_both(d0, &front4, &before.4, &front5);
            assert(dom@ == silenced(d0, &front5));
            assert(next5.claims() == front5.claims());
            assert(next5.settled() == front5.settled());
            assert((front5.0, front5.1, front5.2, front5.3) == front4);
            assert((next5.0, next5.1, next5.2, next5.3) == next4);
            assert(front4.reacts(d0, &o0, &next4, &o4));
            assert(front5.reacts(d0, &o0, &next5, &o5));
        }
        let ghost d5 = dom@;
        self.5.run(dom, output);
        let ghost o6 = output.value();
        let ghost front6 = (before.0, before.1, before.2, before.3, before.4, before.5);
        let ghost next6 = (self.0, self.1, self.2, self.3, self.4, self.5);
        proof {
            self.0.lemma_frame(d5, dom@);
            self.1.lemma_frame(d5, dom@);
            self.2.lemma_frame(d5, dom@);
            self.3.lemma_frame(d5, dom@);
            self.4.lemma_frame(d5, dom@);
            before.6.lemma_frame(d5, dom@);
            before.7.lemma_frame(d5, dom@);
            lemma_silenced_both(d0, &front5, &before.5, &front6);
            assert(dom@ == silenced(d0, &front6));
            assert(next6.claims() == front6.claims());
            assert(next6.settled() == front6.settled());
            assert((front6.0, front6.1, front6.2, front6.3, front6.4) == front5);
            assert((next6.0, next6.1, next6.2, next6.3, next6.4) == next5);
            assert(front5.reacts(d0, &o0, &next5, &o5));
            assert(front6.reacts(d0, &o0, &next6, &o6));
        }
        let ghost d6 = dom@;
        self.6.run(dom, output);
        let ghost o7 = output.value();
        let ghost front7 = (before.0, before.1, before.2, before.3, before.4, before.5, before.6);
        let ghost next7 = (self.0, self.1, self.2, self.3, self.4, self.5, self.6);
        proof {
            self.0.lemma_frame(d6, dom@);
            self.1.lemma_frame(d6, dom@);
            self.2.lemma_frame(d6, dom@);
            self.3.lemma_frame(d6, dom@);
            self.4.lemma_frame(d6, dom@);
            self.5.lemma_frame(d6, dom@);
            before.7.lemma_frame(d6, dom@);
            lemma_silenced_both(d0, &front6, &before.6, &front7);
            assert(dom@ == silenced(d0, &front7));
            assert(next7.claims() == front7.claims());
            assert(next7.settled() == front7.settled());
            assert((front7.0, front7.1, front7.2, front7.3, front7.4, front7.5) == front6);
            assert((next7.0, next7.1, next7.2, next7.3, next7.4, next7.5) == next6);
            assert(front6.reacts(d0, &o0, &next6, &o6));
            assert(front7.reacts(d0, &o0, &next7, &o7));
        }
        let ghost d7 = dom@;
        self.7.run(dom, output);
        let ghost o8 = output.value();
        proof {
            self.0.lemma_frame(d7, dom@);
            self.1.lemma_frame(d7, dom@);
            self.2.lemma_frame(d7, dom@);
            self.3.lemma_frame(d7, dom@);
            self.4.lemma_frame(d7, dom@);
            self.5.lemma_frame(d7, dom@);
            self.6.lemma_frame(d7, dom@);
            lemma_silenced_both(d0, &front7, &before.7, &before);
            assert(dom@ == silenced(d0, &before));
        }
    }
}

} // verus!
