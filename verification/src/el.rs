//! Elements.

use crate::builder::{
    attr_built, attr_rebuilt, claimed, lemma_located, lemma_silenced_same, offset, spliced,
    value_at, BuildCx, Builder, Claims, Mounted, RebuildCx, State, ViewMarker,
};
use crate::dom::{lemma_index_of, Dom, DomView, ListenerId, NodeId, Position};
use crate::float::Float;
use core::marker::PhantomData;
use vstd::prelude::*;

verus! {

/// Identifies a type of element.
pub trait ElKind {
    /// The tag name of the element.
    const NAME: &'static str;
}

/// An element of type `Kind` whose children and attributes are described by
/// `Body`.
pub struct El<Kind: ElKind, Body> {
    kind: PhantomData<Kind>,
    body: Body,
}

/// The state of an [`El`] of type `Kind`: the element and the state of its
/// body.
pub struct ElState<Kind, S> {
    node: NodeId,
    body: S,
    kind: PhantomData<Kind>,
}

impl<Kind, S> ElState<Kind, S> {
    /// The element.
    pub closed spec fn node(&self) -> NodeId {
        self.node
    }

    /// The state of what the element contains.
    pub closed spec fn body(&self) -> &S {
        &self.body
    }

    /// The element.
    pub fn node_id(&self) -> (node: NodeId)
        ensures
            node == self.node(),
    {
        self.node
    }

    /// The state of what the element contains.
    pub fn body_state(&self) -> (body: &S)
        ensures
            body == self.body(),
    {
        &self.body
    }
}

impl<Kind: ElKind, S: Mounted> Mounted for ElState<Kind, S> {
    open spec fn span(&self) -> Seq<NodeId> {
        seq![self.node()]
    }

    open spec fn owns(&self, n: NodeId) -> bool {
        n == self.node() || self.body().owns(n)
    }

    /// The element has the tag of its type, its children are the span of
    /// its body, and, where the body is settled, its attributes are
    /// exactly those that the body claims.
    open spec fn inv(&self, dom: DomView) -> bool {
        &&& dom.is_element(self.node())
        &&& dom.text(self.node()) == Kind::NAME@
        &&& dom.children(self.node()) == self.body().span()
        &&& self.body().inv(dom)
        &&& forall|n: NodeId| #[trigger] self.body().owns(n) ==> self.node() < n
        &&& self.body().settled() ==> forall|name: Seq<char>| #[trigger]
            value_at(dom.attrs(self.node()), name) == claimed(self.body().claims(), name)
    }

    open spec fn is_view(&self) -> bool {
        true
    }

    open spec fn claims(&self) -> Claims {
        Map::empty()
    }

    open spec fn settled(&self) -> bool {
        true
    }

    open spec fn hears(&self, l: ListenerId) -> bool {
        self.body().hears(l)
    }

    proof fn lemma_inv(&self, dom: DomView) {
        self.body().lemma_inv(dom);
    }

    proof fn lemma_frame(&self, before: DomView, after: DomView) {
        assert(self.owns(self.node()));
        assert forall|n: NodeId| #[trigger] self.body().owns(n) implies after.nodes[n as int]
            == before.nodes[n as int] by {
            assert(self.owns(n));
        }
        self.body().lemma_frame(before, after);
        assert(after.attrs(self.node()) == before.attrs(self.node()));
    }
}

impl<Kind: ElKind, S: Mounted> ViewMarker for ElState<Kind, S> {
    proof fn lemma_view(&self) {
    }
}

impl<Kind: ElKind, Output, S: State<Output>> State<Output> for ElState<Kind, S> {
    /// The element stays and its body reacts.
    open spec fn reacts(&self, dom: DomView, output: &Output, after: &Self, done: &Output) -> bool {
        after.node() == self.node() && self.body().reacts(dom, output, after.body(), done)
    }

    fn run(&mut self, dom: &mut Dom, output: &mut Float<Output>) {
        proof {
            lemma_silenced_same(dom@, &*self, self.body());
        }
        self.body.run(dom, output);
        assert(dom@.attrs(self.node()) == old(dom)@.attrs(self.node()));
    }
}

impl<Kind: ElKind, Body: Builder> El<Kind, Body> {
    /// The description of what the element contains.
    pub closed spec fn body(&self) -> &Body {
        &self.body
    }
}

impl<Kind: ElKind, Body: Builder> Builder for El<Kind, Body> {
    type State = ElState<Kind, Body::State>;

    open spec fn wf(&self) -> bool {
        self.body().wf()
    }

    open spec fn describes(&self, state: &Self::State) -> bool {
        self.body().describes(state.body())
    }

    open spec fn matches(&self, state: &Self::State) -> bool {
        self.body().matches(state.body())
    }

    /// The element stays, and the body keeps what it keeps.
    open spec fn keeps(&self, old_state: &Self::State, state: &Self::State) -> bool {
        state.node() == old_state.node() && self.body().keeps(old_state.body(), state.body())
    }

    open spec fn steady(&self) -> bool {
        self.body().steady()
    }

    proof fn lemma_steady(&self, state: &Self::State) {
        self.body().lemma_steady(state.body());
    }

    /// Creates the element, builds the body into it, and puts it at the
    /// position.
    fn build(self, cx: BuildCx, dom: &mut Dom) -> (state: Self::State)
        ensures
            state.node() == old(dom)@.len(),
    {
        let ghost d0 = dom@;
        let node = dom.create_element(Kind::NAME);
        let ghost d1 = dom@;
        let inner = BuildCx { position: Position { parent: node, insert_before: None } };
        let body = self.body.build(inner, dom);
        let ghost d2 = dom@;
        proof {
            let parent = cx.position.parent;
            assert(d2.nodes[parent as int] == d0.nodes[parent as int]);
            match cx.position.insert_before {
                Some(r) => {
                    assert(d0.node_wf(r));
                    assert(d2.nodes[r as int] == d0.nodes[r as int]);
                },
                None => {},
            }
        }
        cx.position.insert(dom, node);
        let state = ElState { node, body, kind: PhantomData };
        proof {
            let d3 = dom@;
            let parent = cx.position.parent;
            let at = cx.position.index(d0);
            body.lemma_inv(d2);
            assert forall|n: NodeId| #[trigger] body.owns(n) implies d3.nodes[n as int]
                == d2.nodes[n as int] by {}
            body.lemma_frame(d2, d3);
            assert(d2.children(node) =~= body.span());
            assert(d3.children(parent) =~= spliced(d0.children(parent), at, 0, state.span()));
            assert forall|n: NodeId| n < d0.len() && n != parent
                implies #[trigger] d3.nodes[n as int]
                == d0.nodes[n as int] by {
                assert(d2.nodes[n as int] == d1.nodes[n as int]);
            }
            assert(d3.attrs(node) == d2.attrs(node));
            if body.settled() {
                assert forall|name: Seq<char>| #[trigger]
                    value_at(d3.attrs(node), name) == claimed(body.claims(), name) by {
                    assert(attr_built(d1.attrs(node), body.claims(), d2.attrs(node), name));
                }
            }
        }
        state
    }

    /// Rebuilds the body inside the element, which stays.
    fn rebuild(self, cx: RebuildCx, dom: &mut Dom, state: &mut Self::State)
        ensures
            final(state).node() == old(state).node(),
    {
        let ghost d0 = dom@;
        let ghost s0 = *state;
        let inner = RebuildCx { parent: state.node };
        proof {
            let kids = d0.children(state.node);
            assert(d0.node_wf(state.node));
            assert(kids.subrange(0, kids.len() as int) =~= kids);
            lemma_located(kids, state.body.span(), 0);
        }
        self.body.rebuild(inner, dom, &mut state.body);
        proof {
            let d1 = dom@;
            let parent = cx.parent;
            let kids = d0.children(parent);
            let at = offset(kids, s0.span());
            assert(s0.owns(s0.node()));
            s0.body().lemma_inv(d0);
            assert(!s0.body().owns(parent));
            assert(d1.nodes[parent as int] == d0.nodes[parent as int]);
            assert(kids.subrange(at, at + 1)[0] == s0.node());
            assert(kids =~= spliced(kids, at, 1, state.span()));
            let inner_kids = d0.children(s0.node());
            assert(d1.children(s0.node()) =~= state.body().span()) by {
                if inner_kids.len() > 0 {
                    lemma_index_of(inner_kids, 0);
                }
            }
            if s0.body().settled() {
                assert forall|name: Seq<char>| #[trigger]
                    value_at(d1.attrs(s0.node()), name) == claimed(state.body().claims(), name) by {
                    assert(attr_rebuilt(
                        d0.attrs(s0.node()),
                        s0.body().claims(),
                        state.body().claims(),
                        d1.attrs(s0.node()),
                        name,
                    ));
                    assert(value_at(d0.attrs(s0.node()), name) == claimed(
                        s0.body().claims(),
                        name,
                    ));
                    assert(state.body().claims().contains_key(name)
                        == s0.body().claims().contains_key(name));
                }
            }
        }
    }
}

/// An element of type `Kind` containing `body`.
pub fn el<Kind: ElKind, Body: Builder>(_kind: Kind, body: Body) -> (view: El<Kind, Body>)
    ensures
        view.body() == body,
{
    El { kind: PhantomData, body }
}

} // verus!
