//! How components stand side by side: what building and rebuilding two
//! neighbours, one after the other, does to the backing structure.

use crate::builder::{
    attr_built, attr_rebuilt, build_ready, built, lemma_located, located, offset, plain,
    rebuild_ready, rebuilt, spliced, BuildCx, Claims, Mounted, RebuildCx, ViewMarker,
};
use crate::dom::{lemma_index_of, Dom, DomView, ListenerId, NodeId, NodeKind};
use vstd::prelude::*;

verus! {

/// A comment node that marks a boundary of a region whose content comes and
/// goes, and the text that it carries.
pub struct Marker {
    pub node: NodeId,
    pub data: &'static str,
}

impl Mounted for Marker {
    open spec fn span(&self) -> Seq<NodeId> {
        seq![self.node]
    }

    open spec fn owns(&self, n: NodeId) -> bool {
        n == self.node
    }

    open spec fn inv(&self, dom: DomView) -> bool {
        &&& dom.has(self.node)
        &&& dom.kind(self.node) == NodeKind::Comment
        &&& dom.text(self.node) == self.data@
    }

    open spec fn is_view(&self) -> bool {
        true
    }

    open spec fn claims(&self) -> Claims {
        Map::empty()
    }

    open spec fn settled(&self) -> bool {
        true
    }

    open spec fn hears(&self, l: ListenerId) -> bool {
        false
    }

    proof fn lemma_inv(&self, dom: DomView) {
    }

    proof fn lemma_frame(&self, before: DomView, after: DomView) {
        assert(self.owns(self.node));
    }
}

/// Creates a marker carrying `data` at `cx.position`.
pub fn build_marker(data: &'static str, cx: BuildCx, dom: &mut Dom) -> (marker: Marker)
    requires
        build_ready(cx, old(dom)@),
    ensures
        built(cx, old(dom)@, final(dom)@, &marker),
        marker.node == old(dom)@.len(),
        marker.data == data,
{
    let ghost before = dom@;
    let node = dom.create_comment(data);
    cx.position.insert(dom, node);
    let marker = Marker { node, data };
    proof {
        let parent = cx.position.parent;
        let at = cx.position.index(before);
        assert(dom@.children(parent) =~= spliced(before.children(parent), at, 0, marker.span()));
    }
    marker
}

impl<S: Mounted> Mounted for Option<S> {
    open spec fn span(&self) -> Seq<NodeId> {
        match self {
            Some(state) => state.span(),
            None => Seq::empty(),
        }
    }

    open spec fn owns(&self, n: NodeId) -> bool {
        match self {
            Some(state) => state.owns(n),
            None => false,
        }
    }

    open spec fn inv(&self, dom: DomView) -> bool {
        match self {
            Some(state) => state.inv(dom),
            None => true,
        }
    }

    open spec fn is_view(&self) -> bool {
        match self {
            Some(state) => state.is_view(),
            None => true,
        }
    }

    open spec fn claims(&self) -> Claims {
        match self {
            Some(state) => state.claims(),
            None => Map::empty(),
        }
    }

    open spec fn settled(&self) -> bool {
        match self {
            Some(state) => state.settled(),
            None => true,
        }
    }

    open spec fn hears(&self, l: ListenerId) -> bool {
        match self {
            Some(state) => state.hears(l),
            None => false,
        }
    }

    proof fn lemma_inv(&self, dom: DomView) {
        match self {
            Some(state) => {
                state.lemma_inv(dom);
            },
            None => {},
        }
    }

    proof fn lemma_frame(&self, before: DomView, after: DomView) {
        match self {
            Some(state) => {
                assert forall|n: NodeId| #[trigger] state.owns(n) implies after.nodes[n as int]
                    == before.nodes[n as int] by {
                    assert(self.owns(n));
                }
                state.lemma_frame(before, after);
            },
            None => {},
        }
    }
}

impl<S: ViewMarker> ViewMarker for Option<S> {
    proof fn lemma_view(&self) {
        match self {
            Some(state) => {
                state.lemma_view();
            },
            None => {},
        }
    }
}

/// Whether two states stand for the same nodes.
pub open spec fn same_nodes<A: Mounted, B: Mounted>(a: &A, b: &B) -> bool {
    &&& a.span() == b.span()
    &&& a.is_view() == b.is_view()
    &&& a.claims() == b.claims()
    &&& a.settled() == b.settled()
    &&& forall|n: NodeId| a.owns(n) == b.owns(n)
    &&& forall|l: ListenerId| a.hears(l) == b.hears(l)
}

/// What was built as one state was built as any state that stands for the
/// same nodes and holds.
pub proof fn lemma_built_as<A: Mounted, B: Mounted>(
    cx: BuildCx,
    before: DomView,
    after: DomView,
    a: &A,
    b: &B,
)
    requires
        built(cx, before, after, a),
        same_nodes(a, b),
        b.inv(after),
    ensures
        built(cx, before, after, b),
{
    assert forall|n: NodeId| #[trigger] b.owns(n) implies before.len() <= n < after.len() by {
        assert(a.owns(n));
    }
}

/// What is ready to be rebuilt as one state is ready as any state that
/// stands for the same nodes and holds.
pub proof fn lemma_ready_as<A: Mounted, B: Mounted>(cx: RebuildCx, dom: DomView, a: &A, b: &B)
    requires
        rebuild_ready(cx, dom, a),
        same_nodes(a, b),
        b.inv(dom),
    ensures
        rebuild_ready(cx, dom, b),
{
    assert forall|n: NodeId| #[trigger] b.owns(n) implies cx.parent < n by {
        assert(a.owns(n));
    }
}

/// What was rebuilt as one state was rebuilt as any state that stands for
/// the same nodes and holds.
pub proof fn lemma_rebuilt_as<A: Mounted, B: Mounted>(
    cx: RebuildCx,
    before: DomView,
    a0: &A,
    after: DomView,
    a1: &A,
    b0: &B,
    b1: &B,
)
    requires
        rebuilt(cx, before, a0, after, a1),
        same_nodes(a0, b0),
        same_nodes(a1, b1),
        b1.inv(after),
    ensures
        rebuilt(cx, before, b0, after, b1),
{
    assert forall|n: NodeId| #[trigger] b1.owns(n) implies b0.owns(n) || before.len() <= n
        < after.len() by {
        assert(a1.owns(n));
        assert(a0.owns(n) == b0.owns(n));
    }
    assert forall|n: NodeId|
        n < before.len() && n != cx.parent && !b0.owns(n) implies #[trigger] after.nodes[n as int]
        == before.nodes[n as int] by {
        assert(a0.owns(n) == b0.owns(n));
    }
}

/// The index of a build position lies within the parent's children, and the
/// reference, if any, stands at it.
pub proof fn lemma_position(dom: DomView, cx: BuildCx)
    requires
        build_ready(cx, dom),
    ensures
        0 <= cx.position.index(dom) <= dom.children(cx.position.parent).len(),
        cx.position.insert_before matches Some(r) ==> cx.position.index(dom) < dom.children(
            cx.position.parent,
        ).len() && dom.children(cx.position.parent)[cx.position.index(dom)] == r,
{
    match cx.position.insert_before {
        Some(r) => {
            assert(dom.node_wf(r));
        },
        None => {},
    }
}

/// Building nothing is building a state without nodes.
pub proof fn lemma_built_nothing<S: Mounted>(cx: BuildCx, dom: DomView, state: &S)
    requires
        build_ready(cx, dom),
        state.span().len() == 0,
        forall|n: NodeId| !state.owns(n),
        forall|l: ListenerId| !state.hears(l),
        forall|name: Seq<char>| !state.claims().contains_key(name),
        state.inv(dom),
    ensures
        built(cx, dom, dom, state),
{
    let kids = dom.children(cx.position.parent);
    lemma_position(dom, cx);
    assert(kids =~= spliced(kids, cx.position.index(dom), 0, state.span()));
}

/// Leaving a state as it is is rebuilding it.
pub proof fn lemma_rebuilt_same<S: Mounted>(cx: RebuildCx, dom: DomView, state: &S)
    requires
        rebuild_ready(cx, dom, state),
    ensures
        rebuilt(cx, dom, state, dom, state),
{
    let kids = dom.children(cx.parent);
    let at = offset(kids, state.span());
    assert(kids =~= spliced(kids, at, state.span().len() as int, state.span())) by {
        assert forall|i: int| 0 <= i < state.span().len()
            implies kids[at + i] == state.span()[i] by {
            assert(kids.subrange(at, at + state.span().len())[i] == state.span()[i]);
        }
    }
}

/// A component built right after another at the same position stands right
/// behind it.
pub proof fn lemma_build_next<S: Mounted>(cx: BuildCx, before: DomView, after: DomView, state: &S)
    requires
        build_ready(cx, before),
        built(cx, before, after, state),
    ensures
        build_ready(cx, after),
        cx.position.index(after) == cx.position.index(before) + state.span().len(),
{
    let parent = cx.position.parent;
    let at = cx.position.index(before);
    lemma_position(before, cx);
    match cx.position.insert_before {
        Some(r) => {
            assert(before.node_wf(r));
            assert(after.nodes[r as int] == before.nodes[r as int]);
            assert(after.node_wf(parent));
            assert(after.children(parent)[at + state.span().len()] == r);
            lemma_index_of(after.children(parent), at + state.span().len());
        },
        None => {},
    }
}

/// Two components built one after the other at the same position were
/// built as a pair.
pub proof fn lemma_build_pair<A: Mounted, B: Mounted>(
    cx: BuildCx,
    d0: DomView,
    d1: DomView,
    d2: DomView,
    pair: &(A, B),
)
    requires
        build_ready(cx, d0),
        built(cx, d0, d1, &pair.0),
        built(cx, d1, d2, &pair.1),
    ensures
        built(cx, d0, d2, pair),
{
    let parent = cx.position.parent;
    let at = cx.position.index(d0);
    lemma_build_next(cx, d0, d1, &pair.0);
    lemma_position(d0, cx);
    pair.0.lemma_inv(d1);
    assert forall|n: NodeId| #[trigger] pair.0.owns(n) implies d2.nodes[n as int]
        == d1.nodes[n as int] by {}
    pair.0.lemma_frame(d1, d2);
    assert(d2.children(parent) =~= spliced(d0.children(parent), at, 0, pair.span()));
    assert forall|n: NodeId| n < d0.len() && n != parent implies #[trigger] d2.nodes[n as int]
        == d0.nodes[n as int] by {
        assert(d1.nodes[n as int] == d0.nodes[n as int]);
    }
    if pair.settled() {
        assert forall|name: Seq<char>| #[trigger]
            attr_built(d0.attrs(parent), pair.claims(), d2.attrs(parent), name) by {
            assert(attr_built(d0.attrs(parent), pair.0.claims(), d1.attrs(parent), name));
            assert(attr_built(d1.attrs(parent), pair.1.claims(), d2.attrs(parent), name));
            assert(!(pair.0.claims().contains_key(name) && pair.1.claims().contains_key(name)));
        }
    }
}

/// The first part of a located run is located where the run is.
pub proof fn lemma_first_located(kids: Seq<NodeId>, first: Seq<NodeId>, second: Seq<NodeId>)
    requires
        kids.no_duplicates(),
        located(kids, first + second),
    ensures
        located(kids, first),
        first.len() > 0 ==> offset(kids, first) == offset(kids, first + second),
        offset(kids, first + second) + first.len() + second.len() <= kids.len(),
{
    let both = first + second;
    let at = offset(kids, both);
    if first.len() > 0 {
        assert(both[0] == first[0]);
        assert(kids.subrange(at, at + first.len()) =~= first) by {
            assert forall|i: int| 0 <= i < first.len() implies kids[at + i] == first[i] by {
                assert(kids.subrange(at, at + both.len())[i] == both[i]);
            }
        }
    } else {
        assert(kids.subrange(0, 0) =~= first);
        assert(both =~= second);
    }
}

/// A pair that is ready to be rebuilt has a first half that is.
pub proof fn lemma_first_ready<A: Mounted, B: Mounted>(
    cx: RebuildCx,
    dom: DomView,
    pair: &(A, B),
)
    requires
        rebuild_ready(cx, dom, pair),
    ensures
        rebuild_ready(cx, dom, &pair.0),
{
    assert(dom.node_wf(cx.parent));
    lemma_first_located(dom.children(cx.parent), pair.0.span(), pair.1.span());
    assert forall|n: NodeId| #[trigger] pair.0.owns(n) implies cx.parent < n by {
        assert(pair.owns(n));
    }
}

/// Rebuilding the first of two neighbours leaves the second ready to be
/// rebuilt, right behind the first one's new span.
pub proof fn lemma_rebuild_next<A: Mounted, B: Mounted>(
    cx: RebuildCx,
    before: DomView,
    pair: &(A, B),
    after: DomView,
    first: &A,
)
    requires
        rebuild_ready(cx, before, pair),
        rebuilt(cx, before, &pair.0, after, first),
    ensures
        rebuild_ready(cx, after, &pair.1),
        forall|n: NodeId| !(#[trigger] first.owns(n) && pair.1.owns(n)),
        pair.1.span().len() > 0 ==> offset(after.children(cx.parent), pair.1.span()) == offset(
            before.children(cx.parent),
            pair.span(),
        ) + first.span().len(),
        after.children(cx.parent) == spliced(
            before.children(cx.parent),
            offset(before.children(cx.parent), pair.span()),
            pair.0.span().len() as int,
            first.span(),
        ),
{
    let parent = cx.parent;
    let kids = before.children(parent);
    let both = pair.span();
    let at = offset(kids, both);
    assert(before.node_wf(parent));
    assert(after.node_wf(parent));
    pair.0.lemma_inv(before);
    pair.1.lemma_inv(before);
    assert forall|n: NodeId| #[trigger] pair.1.owns(n) implies cx.parent < n by {
        assert(pair.owns(n));
    }
    assert forall|n: NodeId| #[trigger] pair.0.owns(n) implies cx.parent < n by {
        assert(pair.owns(n));
    }
    lemma_first_located(kids, pair.0.span(), pair.1.span());
    let new_kids = after.children(parent);
    if pair.0.span().len() == 0 {
        assert(new_kids =~= kids);
        assert(both =~= pair.1.span());
    } else {
        assert(new_kids =~= spliced(kids, at, pair.0.span().len() as int, first.span()));
        let next = at + first.span().len();
        assert(new_kids.subrange(next, next + pair.1.span().len()) =~= pair.1.span()) by {
            assert forall|i: int| 0 <= i < pair.1.span().len() implies new_kids[next + i]
                == pair.1.span()[i] by {
                assert(kids.subrange(at, at + both.len())[pair.0.span().len() + i] == both[
                    pair.0.span().len() + i
                ]);
            }
        }
        lemma_located(new_kids, pair.1.span(), next);
    }
    assert forall|n: NodeId| #[trigger] pair.1.owns(n) implies after.nodes[n as int]
        == before.nodes[n as int] by {
        assert(!pair.0.owns(n));
    }
    pair.1.lemma_frame(before, after);
}

/// Two neighbours rebuilt one after the other were rebuilt as a pair.
pub proof fn lemma_rebuild_pair<A: Mounted, B: Mounted>(
    cx: RebuildCx,
    d0: DomView,
    old_pair: &(A, B),
    d1: DomView,
    d2: DomView,
    pair: &(A, B),
)
    requires
        rebuild_ready(cx, d0, old_pair),
        rebuilt(cx, d0, &old_pair.0, d1, &pair.0),
        rebuilt(cx, d1, &old_pair.1, d2, &pair.1),
    ensures
        rebuilt(cx, d0, old_pair, d2, pair),
{
    let parent = cx.parent;
    let kids = d0.children(parent);
    let at = offset(kids, old_pair.span());
    lemma_rebuild_next(cx, d0, old_pair, d1, &pair.0);
    pair.0.lemma_inv(d1);
    old_pair.1.lemma_inv(d0);
    assert forall|n: NodeId| #[trigger] pair.0.owns(n) implies d2.nodes[n as int]
        == d1.nodes[n as int] by {
        assert(!old_pair.1.owns(n));
        if old_pair.0.owns(n) {
            assert(old_pair.owns(n));
        }
    }
    pair.0.lemma_frame(d1, d2);
    assert forall|n: NodeId|
        n < d0.len() && n != parent && !old_pair.owns(n) implies #[trigger] d2.nodes[n as int]
        == d0.nodes[n as int] by {
        assert(d1.nodes[n as int] == d0.nodes[n as int]);
    }
    let c1 = d1.children(parent);
    let c2 = d2.children(parent);
    let a0 = old_pair.0.span();
    let b0 = old_pair.1.span();
    let a1 = pair.0.span();
    let b1 = pair.1.span();
    assert(d0.node_wf(parent));
    lemma_first_located(kids, a0, b0);
    assert(c1 == spliced(kids, at, a0.len() as int, a1));
    assert(at + a0.len() + b0.len() <= kids.len());
    if b0.len() == 0 {
        assert(old_pair.span() =~= a0);
        assert(pair.span() =~= a1);
        assert(c2 =~= c1);
    } else {
        assert(c2 == spliced(c1, at + a1.len(), b0.len() as int, b1));
        assert(c2 =~= spliced(kids, at, old_pair.span().len() as int, pair.span()));
    }
    lemma_pair_claims(cx, d0, old_pair, d1, d2, pair);
}

/// What two neighbours rebuilt one after the other did to the attributes of
/// the parent is what the pair did.
proof fn lemma_pair_claims<A: Mounted, B: Mounted>(
    cx: RebuildCx,
    d0: DomView,
    old_pair: &(A, B),
    d1: DomView,
    d2: DomView,
    pair: &(A, B),
)
    requires
        rebuilt(cx, d0, &old_pair.0, d1, &pair.0),
        rebuilt(cx, d1, &old_pair.1, d2, &pair.1),
    ensures
        pair.settled() == old_pair.settled(),
        forall|name: Seq<char>| #[trigger]
            pair.claims().contains_key(name) == old_pair.claims().contains_key(name),
        old_pair.settled() ==> forall|name: Seq<char>| #[trigger]
            attr_rebuilt(
                d0.attrs(cx.parent),
                old_pair.claims(),
                pair.claims(),
                d2.attrs(cx.parent),
                name,
            ),
{
    let parent = cx.parent;
    assert forall|name: Seq<char>| #[trigger]
        pair.claims().contains_key(name) == old_pair.claims().contains_key(name) by {
        assert(pair.0.claims().contains_key(name) == old_pair.0.claims().contains_key(name));
        assert(pair.1.claims().contains_key(name) == old_pair.1.claims().contains_key(name));
    }
    assert(pair.settled() == old_pair.settled()) by {
        if old_pair.settled() {
            assert forall|name: Seq<char>|
                !(#[trigger] pair.0.claims().contains_key(name) && pair.1.claims().contains_key(
                    name,
                )) by {
                assert(pair.1.claims().contains_key(name) == old_pair.1.claims().contains_key(
                    name,
                ));
                assert(!(old_pair.0.claims().contains_key(name)
                    && old_pair.1.claims().contains_key(name)));
            }
        }
        if pair.settled() {
            assert forall|name: Seq<char>|
                !(#[trigger] old_pair.0.claims().contains_key(name)
                    && old_pair.1.claims().contains_key(name)) by {
                assert(pair.0.claims().contains_key(name) == old_pair.0.claims().contains_key(
                    name,
                ));
                assert(pair.1.claims().contains_key(name) == old_pair.1.claims().contains_key(
                    name,
                ));
                assert(!(pair.0.claims().contains_key(name) && pair.1.claims().contains_key(
                    name,
                )));
            }
        }
    }
    if old_pair.settled() {
        assert forall|name: Seq<char>| #[trigger]
            attr_rebuilt(
                d0.attrs(parent),
                old_pair.claims(),
                pair.claims(),
                d2.attrs(parent),
                name,
            ) by {
            assert(attr_rebuilt(
                d0.attrs(parent),
                old_pair.0.claims(),
                pair.0.claims(),
                d1.attrs(parent),
                name,
            ));
            assert(attr_rebuilt(
                d1.attrs(parent),
                old_pair.1.claims(),
                pair.1.claims(),
                d2.attrs(parent),
                name,
            ));
            assert(pair.0.claims().contains_key(name) == old_pair.0.claims().contains_key(name));
            assert(pair.1.claims().contains_key(name) == old_pair.1.claims().contains_key(name));
            assert(!(old_pair.0.claims().contains_key(name)
                && old_pair.1.claims().contains_key(name)));
        }
    }
}

/// Whether two states are the same as far as the backing structure is
/// concerned: they stand for the same nodes and hold in the same
/// structures.
pub open spec fn equiv<A: Mounted, B: Mounted>(a: &A, b: &B) -> bool {
    &&& same_nodes(a, b)
    &&& forall|dom: DomView| #![trigger a.inv(dom)] #![trigger b.inv(dom)] a.inv(dom) == b.inv(dom)
}

/// Pairs of states that are the same are the same.
pub proof fn lemma_equiv_pair<A: Mounted, B: Mounted, C: Mounted, D: Mounted>(
    a: &A,
    b: &B,
    c: &C,
    d: &D,
)
    requires
        equiv(a, c),
        equiv(b, d),
    ensures
        equiv(&(*a, *b), &(*c, *d)),
{
    let left = (*a, *b);
    let right = (*c, *d);
    assert forall|n: NodeId| left.owns(n) == right.owns(n) by {
        assert(a.owns(n) == c.owns(n));
        assert(b.owns(n) == d.owns(n));
    }
    assert forall|dom: DomView| #![trigger left.inv(dom)] #![trigger right.inv(dom)] left.inv(dom)
        == right.inv(dom) by {
        assert(a.inv(dom) == c.inv(dom));
        assert(b.inv(dom) == d.inv(dom));
        if left.inv(dom) {
            assert forall|n: NodeId| !(#[trigger] c.owns(n) && d.owns(n)) by {
                assert(a.owns(n) == c.owns(n));
                assert(b.owns(n) == d.owns(n));
                assert(!(a.owns(n) && b.owns(n)));
            }
        }
        if right.inv(dom) {
            assert forall|n: NodeId| !(#[trigger] a.owns(n) && b.owns(n)) by {
                assert(a.owns(n) == c.owns(n));
                assert(b.owns(n) == d.owns(n));
                assert(!(c.owns(n) && d.owns(n)));
            }
        }
    }
}

/// Pairing is associative.
pub proof fn lemma_equiv_assoc<A: Mounted, B: Mounted, C: Mounted>(a: &A, b: &B, c: &C)
    ensures
        equiv(&(*a, (*b, *c)), &((*a, *b), *c)),
        equiv(&((*a, *b), *c), &(*a, (*b, *c))),
{
    let right = (*a, (*b, *c));
    let left = ((*a, *b), *c);
    assert(right.span() =~= left.span());
    assert(right.claims() =~= left.claims());
    assert(right.settled() == left.settled()) by {
        if right.settled() {
            assert forall|name: Seq<char>|
                !(#[trigger] a.claims().contains_key(name) && b.claims().contains_key(name)) by {
                if b.claims().contains_key(name) {
                    assert(right.1.claims().contains_key(name));
                }
                assert(!(right.0.claims().contains_key(name) && right.1.claims().contains_key(
                    name,
                )));
            }
            assert forall|name: Seq<char>|
                !(#[trigger] left.0.claims().contains_key(name)
                    && c.claims().contains_key(name)) by {
                if c.claims().contains_key(name) {
                    assert(right.1.claims().contains_key(name));
                    assert(!(b.claims().contains_key(name) && c.claims().contains_key(name)));
                    assert(!(right.0.claims().contains_key(name)
                        && right.1.claims().contains_key(name)));
                }
            }
        }
        if left.settled() {
            assert forall|name: Seq<char>|
                !(#[trigger] b.claims().contains_key(name) && c.claims().contains_key(name)) by {
                if b.claims().contains_key(name) {
                    assert(left.0.claims().contains_key(name));
                }
                assert(!(left.0.claims().contains_key(name) && c.claims().contains_key(name)));
            }
            assert forall|name: Seq<char>|
                !(#[trigger] a.claims().contains_key(name) && right.1.claims().contains_key(
                    name,
                )) by {
                if a.claims().contains_key(name) {
                    assert(left.0.claims().contains_key(name));
                    assert(!(a.claims().contains_key(name) && b.claims().contains_key(name)));
                    assert(!(left.0.claims().contains_key(name) && c.claims().contains_key(
                        name,
                    )));
                }
            }
        }
    }
    assert forall|dom: DomView| #![trigger left.inv(dom)] #![trigger right.inv(dom)] left.inv(dom)
        == right.inv(dom) by {
        if left.inv(dom) {
            assert forall|n: NodeId| !(#[trigger] b.owns(n) && c.owns(n)) by {
                if b.owns(n) {
                    assert(left.0.owns(n));
                }
            }
            assert forall|l: ListenerId| !(#[trigger] b.hears(l) && c.hears(l)) by {
                if b.hears(l) {
                    assert(left.0.hears(l));
                }
            }
            assert forall|n: NodeId| !(#[trigger] a.owns(n) && right.1.owns(n)) by {
                if a.owns(n) {
                    assert(left.0.owns(n));
                    assert(!b.owns(n));
                }
            }
            assert forall|l: ListenerId| !(#[trigger] a.hears(l) && right.1.hears(l)) by {
                if a.hears(l) {
                    assert(left.0.hears(l));
                    assert(!b.hears(l));
                }
            }
        }
        if right.inv(dom) {
            assert forall|n: NodeId| !(#[trigger] a.owns(n) && b.owns(n)) by {
                if a.owns(n) {
                    assert(!right.1.owns(n));
                }
            }
            assert forall|l: ListenerId| !(#[trigger] a.hears(l) && b.hears(l)) by {
                if a.hears(l) {
                    assert(!right.1.hears(l));
                }
            }
            assert forall|n: NodeId| !(#[trigger] left.0.owns(n) && c.owns(n)) by {
                if a.owns(n) {
                    assert(!right.1.owns(n));
                }
                if b.owns(n) {
                    assert(!c.owns(n));
                }
            }
            assert forall|l: ListenerId| !(#[trigger] left.0.hears(l) && c.hears(l)) by {
                if a.hears(l) {
                    assert(!right.1.hears(l));
                }
                if b.hears(l) {
                    assert(!c.hears(l));
                }
            }
        }
    }
}

/// What is ready to be rebuilt is ready as any state that is the same.
pub proof fn lemma_ready_equiv<A: Mounted, B: Mounted>(cx: RebuildCx, dom: DomView, a: &A, b: &B)
    requires
        rebuild_ready(cx, dom, a),
        equiv(a, b),
    ensures
        rebuild_ready(cx, dom, b),
{
    assert(b.inv(dom) == a.inv(dom));
    lemma_ready_as(cx, dom, a, b);
}

/// What was rebuilt was rebuilt as any states that are the same.
pub proof fn lemma_rebuilt_equiv<A: Mounted, B: Mounted>(
    cx: RebuildCx,
    before: DomView,
    a0: &A,
    after: DomView,
    a1: &A,
    b0: &B,
    b1: &B,
)
    requires
        rebuilt(cx, before, a0, after, a1),
        equiv(a0, b0),
        equiv(a1, b1),
    ensures
        rebuilt(cx, before, b0, after, b1),
{
    assert(b1.inv(after) == a1.inv(after));
    lemma_rebuilt_as(cx, before, a0, after, a1, b0, b1);
}

/// What was built was built as any state that is the same.
pub proof fn lemma_built_equiv<A: Mounted, B: Mounted>(
    cx: BuildCx,
    before: DomView,
    after: DomView,
    a: &A,
    b: &B,
)
    requires
        built(cx, before, after, a),
        equiv(a, b),
    ensures
        built(cx, before, after, b),
{
    assert(b.inv(after) == a.inv(after));
    lemma_built_as(cx, before, after, a, b);
}

/// A state that was rebuilt is ready to be rebuilt again.
pub proof fn lemma_rebuilt_ready<S: Mounted>(
    cx: RebuildCx,
    before: DomView,
    old_state: &S,
    after: DomView,
    state: &S,
)
    requires
        rebuild_ready(cx, before, old_state),
        rebuilt(cx, before, old_state, after, state),
    ensures
        rebuild_ready(cx, after, state),
        state.span().len() > 0 ==> offset(after.children(cx.parent), state.span()) == offset(
            before.children(cx.parent),
            old_state.span(),
        ),
{
    let kids = before.children(cx.parent);
    let at = offset(kids, old_state.span());
    let new_kids = after.children(cx.parent);
    assert(after.node_wf(cx.parent));
    if state.span().len() > 0 {
        assert(new_kids.subrange(at, at + state.span().len()) =~= state.span());
        lemma_located(new_kids, state.span(), at);
    } else {
        assert(new_kids.subrange(0, 0) =~= state.span());
    }
}

/// Rebuilding twice is rebuilding.
pub proof fn lemma_rebuilt_twice<S: Mounted>(
    cx: RebuildCx,
    d0: DomView,
    s0: &S,
    d1: DomView,
    s1: &S,
    d2: DomView,
    s2: &S,
)
    requires
        rebuild_ready(cx, d0, s0),
        rebuilt(cx, d0, s0, d1, s1),
        rebuilt(cx, d1, s1, d2, s2),
    ensures
        rebuilt(cx, d0, s0, d2, s2),
{
    let parent = cx.parent;
    let c0 = d0.children(parent);
    let c1 = d1.children(parent);
    let c2 = d2.children(parent);
    let at = offset(c0, s0.span());
    lemma_rebuilt_ready(cx, d0, s0, d1, s1);
    s1.lemma_inv(d1);
    assert forall|n: NodeId| #[trigger] s2.owns(n) implies s0.owns(n) || d0.len() <= n
        < d2.len() by {
        if s1.owns(n) {
        }
    }
    assert forall|n: NodeId|
        n < d0.len() && n != parent && !s0.owns(n) implies #[trigger] d2.nodes[n as int]
        == d0.nodes[n as int] by {
        assert(d1.nodes[n as int] == d0.nodes[n as int]);
        assert(!s1.owns(n));
    }
    if s1.span().len() == 0 {
        assert(c2 =~= c1);
    } else {
        assert(c2 =~= spliced(c0, at, s0.span().len() as int, s2.span()));
    }
    assert forall|name: Seq<char>| #[trigger]
        s2.claims().contains_key(name) == s0.claims().contains_key(name) by {
        assert(s1.claims().contains_key(name) == s0.claims().contains_key(name));
    }
    if s0.settled() {
        assert forall|name: Seq<char>| #[trigger]
            attr_rebuilt(d0.attrs(parent), s0.claims(), s2.claims(), d2.attrs(parent), name) by {
            let (a0, a1, a2) = (d0.attrs(parent), d1.attrs(parent), d2.attrs(parent));
            assert(attr_rebuilt(a0, s0.claims(), s1.claims(), a1, name));
            assert(attr_rebuilt(a1, s1.claims(), s2.claims(), a2, name));
            assert(s1.claims().contains_key(name) == s0.claims().contains_key(name));
        }
    }
}

/// A pair that is ready to be rebuilt has a second half that is.
pub proof fn lemma_second_ready<A: Mounted, B: Mounted>(
    cx: RebuildCx,
    dom: DomView,
    pair: &(A, B),
)
    requires
        rebuild_ready(cx, dom, pair),
    ensures
        rebuild_ready(cx, dom, &pair.1),
{
    lemma_first_ready(cx, dom, pair);
    lemma_rebuilt_same(cx, dom, &pair.0);
    lemma_rebuild_next(cx, dom, pair, dom, &pair.0);
}

/// Rebuilding the first half of a pair rebuilds the pair.
pub proof fn lemma_first_rebuilt<A: Mounted, B: Mounted>(
    cx: RebuildCx,
    before: DomView,
    pair: &(A, B),
    after: DomView,
    first: &A,
)
    requires
        rebuild_ready(cx, before, pair),
        rebuilt(cx, before, &pair.0, after, first),
    ensures
        rebuilt(cx, before, pair, after, &(*first, pair.1)),
{
    lemma_rebuild_next(cx, before, pair, after, first);
    lemma_rebuilt_same(cx, after, &pair.1);
    lemma_rebuild_pair(cx, before, pair, after, after, &(*first, pair.1));
}

/// Rebuilding the second half of a pair rebuilds the pair.
pub proof fn lemma_second_rebuilt<A: Mounted, B: Mounted>(
    cx: RebuildCx,
    before: DomView,
    pair: &(A, B),
    after: DomView,
    second: &B,
)
    requires
        rebuild_ready(cx, before, pair),
        rebuilt(cx, before, &pair.1, after, second),
    ensures
        rebuilt(cx, before, pair, after, &(pair.0, *second)),
{
    lemma_first_ready(cx, before, pair);
    lemma_rebuilt_same(cx, before, &pair.0);
    lemma_rebuild_pair(cx, before, pair, before, after, &(pair.0, *second));
}

/// States that are the same as a third are the same.
pub proof fn lemma_equiv_trans<A: Mounted, B: Mounted, C: Mounted>(a: &A, b: &B, c: &C)
    requires
        equiv(a, b),
        equiv(b, c),
    ensures
        equiv(a, c),
        equiv(c, a),
{
    assert forall|n: NodeId| a.owns(n) == c.owns(n) by {
        assert(a.owns(n) == b.owns(n));
    }
    assert forall|dom: DomView| #![trigger a.inv(dom)] #![trigger c.inv(dom)] a.inv(dom) == c.inv(
        dom,
    ) by {
        assert(a.inv(dom) == b.inv(dom));
    }
}

/// A state next to nothing is that state.
pub proof fn lemma_equiv_none<E: Mounted, X: Mounted>(x: &X)
    ensures
        equiv(&(None::<E>, *x), x),
        equiv(x, &(None::<E>, *x)),
{
    let pair = (None::<E>, *x);
    assert(pair.span() =~= x.span());
    assert(pair.claims() =~= x.claims());
}

/// A state that is present is that state.
pub proof fn lemma_equiv_some<E: Mounted>(e: &E)
    ensures
        equiv(&Some(*e), e),
        equiv(e, &Some(*e)),
{
}

/// Where the first node of a state that is ready to be rebuilt stands.
pub proof fn lemma_front_child<X: Mounted>(cx: RebuildCx, dom: DomView, x: &X)
    requires
        rebuild_ready(cx, dom, x),
        x.span().len() > 0,
    ensures
        dom.is_child(cx.parent, x.span()[0]),
        dom.children(cx.parent).index_of(x.span()[0]) == offset(dom.children(cx.parent), x.span()),
        dom.children(cx.parent)[offset(dom.children(cx.parent), x.span())] == x.span()[0],
{
    let kids = dom.children(cx.parent);
    let at = offset(kids, x.span());
    assert(kids.subrange(at, at + x.span().len())[0] == x.span()[0]);
    assert(dom.node_wf(cx.parent));
}

/// Building a view right in front of a state puts the two side by side.
pub proof fn lemma_build_front<E: Mounted, X: Mounted>(
    cx: RebuildCx,
    before: DomView,
    x: &X,
    after: DomView,
    e: &E,
)
    requires
        rebuild_ready(cx, before, x),
        x.span().len() > 0,
        plain(e),
        built(
            BuildCx {
                position: crate::dom::Position {
                    parent: cx.parent,
                    insert_before: Some(x.span()[0]),
                },
            },
            before,
            after,
            e,
        ),
    ensures
        rebuilt(cx, before, &(None::<E>, *x), after, &(Some(*e), *x)),
{
    let parent = cx.parent;
    let kids = before.children(parent);
    let at = offset(kids, x.span());
    let old_pair = (None::<E>, *x);
    let pair = (Some(*e), *x);
    lemma_front_child(cx, before, x);
    x.lemma_inv(before);
    assert forall|n: NodeId| #[trigger] x.owns(n) implies after.nodes[n as int]
        == before.nodes[n as int] by {}
    x.lemma_frame(before, after);
    assert(old_pair.span() =~= x.span());
    assert(after.children(parent) =~= spliced(
        kids,
        at,
        old_pair.span().len() as int,
        pair.span(),
    )) by {
        assert forall|i: int| 0 <= i < x.span().len() implies kids[at + i] == x.span()[i] by {
            assert(kids.subrange(at, at + x.span().len())[i] == x.span()[i]);
        }
    }
}

/// Clearing a state that starts with a marker and detaching the marker
/// leaves what stood behind it.
pub proof fn lemma_remove_front<E: Mounted, X: Mounted>(
    cx: RebuildCx,
    before: DomView,
    e: &E,
    x: &X,
    cleared: DomView,
    after: DomView,
)
    requires
        rebuild_ready(cx, before, &(Some(*e), *x)),
        plain(e),
        e.span().len() > 0,
        x.span().len() > 0,
        cleared == before.cleared(
            cx.parent,
            offset(before.children(cx.parent), e.span() + x.span()) + 1,
            offset(before.children(cx.parent), e.span() + x.span()) + e.span().len(),
        ),
        after.nodes == cleared.without_child(cx.parent, e.span()[0]),
        after.listeners == cleared.listeners,
        after.log == cleared.log.push(
            crate::dom::MutationView::RemoveChild { parent: cx.parent, node: e.span()[0] },
        ),
        after.wf(),
        cleared.wf(),
    ensures
        rebuilt(cx, before, &(Some(*e), *x), after, &(None::<E>, *x)),
        forall|i: int| 0 <= i < e.span().len() ==> after.parent(#[trigger] e.span()[i]) is None,
        forall|n: NodeId|
            n < before.len() && n != cx.parent && !e.owns(n) ==> #[trigger] after.nodes[n as int]
                == before.nodes[n as int],
{
    let parent = cx.parent;
    let kids = before.children(parent);
    let old_pair = (Some(*e), *x);
    let pair = (None::<E>, *x);
    let at = offset(kids, old_pair.span());
    let from = at + 1;
    let to = at + e.span().len();
    let header = e.span()[0];
    assert(old_pair.span() =~= e.span() + x.span());
    assert(pair.span() =~= x.span());
    assert(before.node_wf(parent));
    assert forall|i: int| 0 <= i < old_pair.span().len() implies kids[at + i]
        == old_pair.span()[i] by {
        assert(kids.subrange(at, at + old_pair.span().len())[i] == old_pair.span()[i]);
    }
    assert(kids[at] == header);
    lemma_index_of(kids, at);
    e.lemma_inv(before);
    x.lemma_inv(before);
    assert(old_pair.owns(header));
    assert(e.owns(header));
    let mid_kids = cleared.children(parent);
    assert(mid_kids =~= kids.take(from) + kids.skip(to));
    assert(mid_kids[at] == header);
    assert(cleared.node_wf(parent));
    lemma_index_of(mid_kids, at);
    assert(parent < header);
    assert(after.children(parent) == mid_kids.remove(at));
    assert(mid_kids.remove(at) =~= kids.take(at) + kids.skip(to));
    assert(kids.skip(to) =~= x.span() + kids.skip(to + x.span().len())) by {
        assert forall|i: int| 0 <= i < x.span().len() implies kids[to + i] == x.span()[i] by {
            assert(kids[at + (e.span().len() + i)] == old_pair.span()[e.span().len() + i]);
        }
    }
    assert(after.children(parent) =~= spliced(
        kids,
        at,
        old_pair.span().len() as int,
        pair.span(),
    ));
    assert forall|n: NodeId|
        before.has(n) && before.nodes[n as int].parent == Some(parent) && from <= kids.index_of(n)
            < to implies e.owns(n) by {
        assert(before.node_wf(n));
        let k = kids.index_of(n);
        assert(kids.contains(n));
        assert(kids[k] == n);
        assert(kids[at + (k - at)] == old_pair.span()[k - at]);
        assert(e.span()[k - at] == n);
    }
    assert forall|n: NodeId|
        n < before.len() && n != parent && !e.owns(n) implies #[trigger] after.nodes[n as int]
        == before.nodes[n as int] by {
        assert(n != header);
        assert(after.nodes[n as int] == cleared.nodes[n as int]);
        if before.nodes[n as int].parent == Some(parent) && from <= kids.index_of(n) < to {
            assert(before.has(n));
            assert(e.owns(n));
        }
        assert(cleared.nodes[n as int] == before.nodes[n as int]);
    }
    assert forall|n: NodeId| #[trigger] x.owns(n) implies after.nodes[n as int]
        == before.nodes[n as int] by {
        assert(old_pair.owns(n));
        assert(!(old_pair.0.owns(n) && old_pair.1.owns(n)));
        assert(!e.owns(n));
    }
    x.lemma_frame(before, after);
    assert forall|i: int| 0 <= i < before.log.len() implies #[trigger] after.log[i]
        == before.log[i] by {
        assert(cleared.log[i] == before.log[i]);
    }
    assert forall|i: int| 0 <= i < e.span().len() implies after.parent(
        #[trigger] e.span()[i],
    ) is None by {
        let n = e.span()[i];
        assert(kids[at + i] == old_pair.span()[i]);
        assert(n == kids[at + i]);
        if i > 0 {
            lemma_index_of(kids, at + i);
            assert(before.nodes[n as int].parent == Some(parent));
            assert(n != header);
            assert(n != parent);
            assert(cleared.nodes[n as int].parent is None);
            assert(after.nodes[n as int] == cleared.nodes[n as int]);
        }
    }
}

/// A region between two markers, with or without content.
pub open spec fn bracket<E: Mounted>(start: NodeId, inner: Option<E>, end: NodeId) -> (
    (Marker, Option<E>),
    Marker,
) {
    ((Marker { node: start, data: "{" }, inner), Marker { node: end, data: "}" })
}

/// Where the two markers of a filled region stand among the children of the
/// parent.
pub proof fn lemma_bracket_ends<E: Mounted>(
    cx: RebuildCx,
    dom: DomView,
    start: NodeId,
    e: &E,
    end: NodeId,
)
    requires
        rebuild_ready(cx, dom, &bracket(start, Some(*e), end)),
    ensures
        dom.is_child(cx.parent, start),
        dom.is_child(cx.parent, end),
        dom.children(cx.parent).index_of(start) == offset(
            dom.children(cx.parent),
            bracket(start, Some(*e), end).span(),
        ),
        dom.children(cx.parent).index_of(end) == offset(
            dom.children(cx.parent),
            bracket(start, Some(*e), end).span(),
        ) + 1 + e.span().len(),
{
    let kids = dom.children(cx.parent);
    let full = bracket(start, Some(*e), end);
    let at = offset(kids, full.span());
    let to = at + 1 + e.span().len();
    assert(full.span() =~= seq![start] + e.span() + seq![end]);
    assert(dom.node_wf(cx.parent));
    assert(kids.subrange(at, at + full.span().len())[0] == full.span()[0]);
    let last = 1 + e.span().len() as int;
    assert(kids.subrange(at, at + full.span().len())[last] == full.span()[last]);
    lemma_index_of(kids, at);
    lemma_index_of(kids, to);
}

/// Building a view in front of the end marker of an empty region fills the
/// region with it.
pub proof fn lemma_build_between<E: Mounted>(
    cx: RebuildCx,
    before: DomView,
    start: NodeId,
    end: NodeId,
    after: DomView,
    e: &E,
)
    requires
        rebuild_ready(cx, before, &bracket(start, None::<E>, end)),
        plain(e),
        built(
            BuildCx {
                position: crate::dom::Position { parent: cx.parent, insert_before: Some(end) },
            },
            before,
            after,
            e,
        ),
    ensures
        rebuilt(cx, before, &bracket(start, None::<E>, end), after, &bracket(start, Some(*e), end)),
{
    let first = Marker { node: start, data: "{" };
    let last = Marker { node: end, data: "}" };
    let empty = bracket(start, None::<E>, end);
    let full = bracket(start, Some(*e), end);
    let nested = (first, (None::<E>, last));
    lemma_equiv_assoc(&first, &None::<E>, &last);
    lemma_ready_equiv(cx, before, &empty, &nested);
    lemma_second_ready(cx, before, &nested);
    lemma_equiv_none::<E, Marker>(&last);
    lemma_ready_equiv(cx, before, &(None::<E>, last), &last);
    lemma_build_front(cx, before, &last, after, e);
    lemma_second_rebuilt(cx, before, &nested, after, &(Some(*e), last));
    lemma_equiv_assoc(&first, &Some(*e), &last);
    lemma_rebuilt_equiv(cx, before, &nested, after, &(first, (Some(*e), last)), &empty, &full);
}

/// Clearing what stands between the two markers of a region empties the
/// region.
pub proof fn lemma_clear_between<E: Mounted>(
    cx: RebuildCx,
    before: DomView,
    start: NodeId,
    e: &E,
    end: NodeId,
    after: DomView,
)
    requires
        rebuild_ready(cx, before, &bracket(start, Some(*e), end)),
        plain(e),
        after == before.cleared(
            cx.parent,
            offset(before.children(cx.parent), bracket(start, Some(*e), end).span()) + 1,
            offset(before.children(cx.parent), bracket(start, Some(*e), end).span()) + 1
                + e.span().len(),
        ),
        after.wf(),
    ensures
        rebuilt(cx, before, &bracket(start, Some(*e), end), after, &bracket(start, None::<E>, end)),
        forall|i: int|
            0 <= i < e.span().len() ==> after.parent(#[trigger] e.span()[i]) is None,
{
    let parent = cx.parent;
    let kids = before.children(parent);
    let full = bracket(start, Some(*e), end);
    let empty = bracket(start, None::<E>, end);
    let at = offset(kids, full.span());
    let from = at + 1;
    let to = at + 1 + e.span().len();
    assert(full.span() =~= seq![start] + e.span() + seq![end]);
    assert(empty.span() =~= seq![start, end]);
    assert(before.node_wf(parent));
    assert forall|i: int| 0 <= i < full.span().len() implies kids[at + i] == full.span()[i] by {
        assert(kids.subrange(at, at + full.span().len())[i] == full.span()[i]);
    }
    assert(kids[at] == start);
    assert(kids[to] == end) by {
        assert(kids[at + (1 + e.span().len())] == full.span()[1 + e.span().len() as int]);
    }
    lemma_index_of(kids, at);
    lemma_index_of(kids, to);
    e.lemma_inv(before);
    assert(full.owns(start) && full.owns(end));
    assert(full.0.owns(start));
    assert(!(full.0.owns(end) && full.1.owns(end)));
    assert(!(full.0.0.owns(start) && full.0.1.owns(start)));
    assert forall|n: NodeId|
        before.has(n) && before.nodes[n as int].parent == Some(parent) && from <= kids.index_of(n)
            < to implies e.owns(n) by {
        assert(before.node_wf(n));
        let k = kids.index_of(n);
        assert(kids.contains(n));
        assert(kids[k] == n);
        assert(kids[at + (k - at)] == full.span()[k - at]);
        assert(e.span()[k - at - 1] == n);
    }
    assert forall|n: NodeId|
        n < before.len() && n != parent && !e.owns(n) implies #[trigger] after.nodes[n as int]
        == before.nodes[n as int] by {
        if before.nodes[n as int].parent == Some(parent) && from <= kids.index_of(n) < to {
            assert(before.has(n));
            assert(e.owns(n));
        }
    }
    assert(after.children(parent) =~= spliced(
        kids,
        at,
        full.span().len() as int,
        empty.span(),
    ));
    assert(!e.owns(start));
    assert(!e.owns(end));
    assert(after.nodes[start as int] == before.nodes[start as int]);
    assert(after.nodes[end as int] == before.nodes[end as int]);
    assert forall|i: int| 0 <= i < e.span().len() implies after.parent(
        #[trigger] e.span()[i],
    ) is None by {
        let n = e.span()[i];
        assert(kids[at + (1 + i)] == full.span()[1 + i]);
        assert(kids[from + i] == n);
        lemma_index_of(kids, from + i);
        assert(before.nodes[n as int].parent == Some(parent));
        assert(e.owns(n));
        assert(full.owns(n));
    }
}

/// Whether `after` came out of `before` by writing attributes of `node`
/// and nothing else.
pub open spec fn attrs_written(before: DomView, after: DomView, node: NodeId) -> bool {
    &&& after.wf()
    &&& after.grown_from(before)
    &&& after.nodes == before.nodes.update(
        node as int,
        crate::dom::NodeView { attrs: after.attrs(node), ..before.nodes[node as int] },
    )
}

/// A component without nodes that wrote attributes of the parent was
/// built.
pub proof fn lemma_attrs_built<S: Mounted>(cx: BuildCx, before: DomView, after: DomView, state: &S)
    requires
        build_ready(cx, before),
        attrs_written(before, after, cx.position.parent),
        state.span().len() == 0,
        forall|n: NodeId| !state.owns(n),
        forall|l: ListenerId| !state.hears(l),
        state.inv(after),
        !state.is_view(),
        forall|name: Seq<char>| #[trigger]
            attr_built(
                before.attrs(cx.position.parent),
                state.claims(),
                after.attrs(cx.position.parent),
                name,
            ),
    ensures
        built(cx, before, after, state),
{
    let kids = before.children(cx.position.parent);
    lemma_position(before, cx);
    assert(kids =~= spliced(kids, cx.position.index(before), 0, state.span()));
}

/// A component without nodes that wrote attributes of the parent was
/// rebuilt.
pub proof fn lemma_attrs_rebuilt<S: Mounted>(
    cx: RebuildCx,
    before: DomView,
    old_state: &S,
    after: DomView,
    state: &S,
)
    requires
        rebuild_ready(cx, before, old_state),
        attrs_written(before, after, cx.parent),
        old_state.span().len() == 0,
        state.span().len() == 0,
        forall|n: NodeId| !state.owns(n),
        forall|l: ListenerId| !state.hears(l),
        state.inv(after),
        !old_state.is_view(),
        state.settled() == old_state.settled(),
        forall|name: Seq<char>| #[trigger]
            state.claims().contains_key(name) == old_state.claims().contains_key(name),
        forall|name: Seq<char>| #[trigger]
            attr_rebuilt(
                before.attrs(cx.parent),
                old_state.claims(),
                state.claims(),
                after.attrs(cx.parent),
                name,
            ),
    ensures
        rebuilt(cx, before, old_state, after, state),
{
    let kids = before.children(cx.parent);
    assert(kids =~= spliced(kids, 0, 0, state.span()));
}

/// A state that was built is ready to be rebuilt under the same parent.
pub proof fn lemma_built_ready<S: Mounted>(cx: BuildCx, before: DomView, after: DomView, state: &S)
    requires
        build_ready(cx, before),
        built(cx, before, after, state),
    ensures
        rebuild_ready(RebuildCx { parent: cx.position.parent }, after, state),
{
    let parent = cx.position.parent;
    let at = cx.position.index(before);
    lemma_position(before, cx);
    assert(after.node_wf(parent));
    let kids = after.children(parent);
    assert(kids.subrange(at, at + state.span().len()) =~= state.span());
    lemma_located(kids, state.span(), at);
}

/// A state to which events were delivered is as ready to be rebuilt as it
/// was.
pub proof fn lemma_ran_ready<S: Mounted, Output>(
    cx: RebuildCx,
    before: DomView,
    old_state: &S,
    after: DomView,
    state: &S,
    output: &crate::float::Float<Output>,
)
    requires
        rebuild_ready(cx, before, old_state),
        crate::builder::ran(old_state, before, state, after, output),
    ensures
        rebuild_ready(cx, after, state),
{
    assert forall|n: NodeId| #[trigger] state.owns(n) implies cx.parent < n by {
        assert(old_state.owns(n));
    }
}

} // verus!
