//! Text nodes.

use crate::builder::{
    build_ready, built, lemma_silenced_none, offset, rebuild_ready, rebuilt, spliced, BuildCx,
    Builder, Claims, Mounted, RebuildCx, State, ViewMarker,
};
use crate::dom::{Dom, DomView, ListenerId, NodeId, NodeKind};
use crate::float::Float;
use vstd::prelude::*;

verus! {

/// `<str as PartialEq>::eq` of std: two string slices are equal exactly
/// when they hold the same characters.
#[verifier::external_body]
pub(crate) fn same_text(a: &str, b: &str) -> (same: bool)
    ensures
        same == (a@ == b@),
{
    a == b
}

/// A text node displaying `value`.
pub struct Text<'a> {
    value: &'a str,
}

/// The state of a text node: the node and the characters it displays.
pub struct TextState {
    node: NodeId,
    value: String,
}

impl TextState {
    /// The text node.
    pub closed spec fn node(&self) -> NodeId {
        self.node
    }

    /// The characters last written to the node.
    pub closed spec fn value(&self) -> Seq<char> {
        self.value@
    }

    /// The text node.
    pub fn node_id(&self) -> (node: NodeId)
        ensures
            node == self.node(),
    {
        self.node
    }
}

impl Mounted for TextState {
    open spec fn span(&self) -> Seq<NodeId> {
        seq![self.node()]
    }

    open spec fn owns(&self, n: NodeId) -> bool {
        n == self.node()
    }

    open spec fn inv(&self, dom: DomView) -> bool {
        &&& dom.has(self.node())
        &&& dom.kind(self.node()) == NodeKind::Text
        &&& dom.text(self.node()) == self.value()
    }

    open spec fn is_view(&self) -> bool {
        true
    }

    open spec fn claims(&self) -> Claims {
        Map::empty()
    }

    open spec fn settled(&self) -> bool {
        true
    }

    open spec fn hears(&self, l: ListenerId) -> bool {
        false
    }

    proof fn lemma_inv(&self, dom: DomView) {
    }

    proof fn lemma_frame(&self, before: DomView, after: DomView) {
        assert(self.owns(self.node()));
    }
}

impl ViewMarker for TextState {
    proof fn lemma_view(&self) {
    }
}

impl<Output> State<Output> for TextState {
    open spec fn reacts(&self, dom: DomView, output: &Output, after: &Self, done: &Output) -> bool {
        *after == *self && *done == *output
    }

    fn run(&mut self, dom: &mut Dom, output: &mut Float<Output>) {
        proof {
            lemma_silenced_none(dom@, &*self);
        }
    }
}

/// Creates the text node for `value` at `cx.position`.
fn build_text(value: &str, cx: BuildCx, dom: &mut Dom) -> (state: TextState)
    requires
        build_ready(cx, old(dom)@),
    ensures
        built(cx, old(dom)@, final(dom)@, &state),
        state.value() == value@,
        state.node() == old(dom)@.len(),
{
    let ghost before = dom@;
    let node = dom.create_text(value);
    cx.position.insert(dom, node);
    let state = TextState { node, value: value.to_owned() };
    proof {
        let parent = cx.position.parent;
        let at = cx.position.index(before);
        assert(dom@.children(parent) =~= spliced(before.children(parent), at, 0, state.span()));
    }
    state
}

/// Writes `value` to the text node of `state` unless the node displays it
/// already.
fn rebuild_text(value: &str, cx: RebuildCx, dom: &mut Dom, state: &mut TextState)
    requires
        rebuild_ready(cx, old(dom)@, old(state)),
    ensures
        rebuilt(cx, old(dom)@, old(state), final(dom)@, final(state)),
        final(state).value() == value@,
        final(state).node() == old(state).node(),
        old(state).value() == value@ ==> final(dom)@ == old(dom)@,
        old(state).value() != value@ ==> final(dom)@ == old(dom)@.with_data(
            old(state).node(),
            value@,
        ),
{
    let ghost before = dom@;
    proof {
        let kids = before.children(cx.parent);
        let at = offset(kids, state.span());
        assert(kids.subrange(at, at + 1)[0] == state.node());
        assert(kids =~= spliced(kids, at, 1, state.span()));
    }
    if !same_text(state.value.as_str(), value) {
        dom.set_data(state.node, value);
        state.value = value.to_owned();
    }
}

impl<'a> Builder for Text<'a> {
    type State = TextState;

    open spec fn wf(&self) -> bool {
        true
    }

    open spec fn describes(&self, state: &TextState) -> bool {
        state.value() == self.value()
    }

    open spec fn matches(&self, state: &TextState) -> bool {
        state.value() == self.value()
    }

    /// The node stays.
    open spec fn keeps(&self, old_state: &Self::State, state: &Self::State) -> bool {
        state.node() == old_state.node()
    }

    open spec fn steady(&self) -> bool {
        true
    }

    proof fn lemma_steady(&self, state: &TextState) {
    }

    /// Creates a text node that displays the value.
    fn build(self, cx: BuildCx, dom: &mut Dom) -> (state: TextState)
        ensures
            state.node() == old(dom)@.len(),
    {
        build_text(self.value, cx, dom)
    }

    /// Writes the text node again where the value is not the one it
    /// displays.
    fn rebuild(self, cx: RebuildCx, dom: &mut Dom, state: &mut TextState)
        ensures
            final(state).node() == old(state).node(),
            !self.matches(old(state)) ==> final(dom)@ == old(dom)@.with_data(
                old(state).node(),
                self.value(),
            ),
    {
        rebuild_text(self.value, cx, dom, state)
    }
}

/// A string that lives as long as the program is a text node displaying
/// it.
impl Builder for &'static str {
    type State = TextState;

    open spec fn wf(&self) -> bool {
        true
    }

    open spec fn describes(&self, state: &TextState) -> bool {
        state.value() == self@
    }

    open spec fn matches(&self, state: &TextState) -> bool {
        state.value() == self@
    }

    /// The node stays.
    open spec fn keeps(&self, old_state: &Self::State, state: &Self::State) -> bool {
        state.node() == old_state.node()
    }

    open spec fn steady(&self) -> bool {
        true
    }

    proof fn lemma_steady(&self, state: &TextState) {
    }

    /// Creates a text node that displays the value.
    fn build(self, cx: BuildCx, dom: &mut Dom) -> (state: TextState)
        ensures
            state.node() == old(dom)@.len(),
    {
        build_text(self, cx, dom)
    }

    /// Writes the text node again where the value is not the one it
    /// displays.
    fn rebuild(self, cx: RebuildCx, dom: &mut Dom, state: &mut TextState)
        ensures
            final(state).node() == old(state).node(),
            old(state).value() != self@ ==> final(dom)@ == old(dom)@.with_data(
                old(state).node(),
                self@,
            ),
    {
        rebuild_text(self, cx, dom, state)
    }
}

impl<'a> Text<'a> {
    /// The characters to display.
    pub closed spec fn value(&self) -> Seq<char> {
        self.value@
    }
}

/// The pieces put one behind the other.
pub open spec fn pieced(pieces: Seq<Seq<char>>) -> Seq<char>
    decreases pieces.len(),
{
    if pieces.len() == 0 {
        Seq::empty()
    } else {
        pieced(pieces.drop_last()) + pieces.last()
    }
}

/// The first pieces put one behind the other are the beginning of all of
/// them put one behind the other.
pub proof fn lemma_pieced_prefix(pieces: Seq<Seq<char>>, count: int)
    requires
        0 <= count <= pieces.len(),
    ensures
        pieced(pieces.take(count)).is_prefix_of(pieced(pieces)),
    decreases pieces.len(),
{
    if count == pieces.len() {
        assert(pieces.take(count) =~= pieces);
    } else {
        lemma_pieced_prefix(pieces.drop_last(), count);
        assert(pieces.drop_last().take(count) =~= pieces.take(count));
    }
}

/// Writes `s` over `value` from the position `index` on, and moves `index`
/// behind it: where `value` holds `s` there already it stays as it is;
/// otherwise what stands from `index` on is replaced by `s`, and `changed`
/// is set.
pub fn write_str(value: &mut String, index: &mut usize, changed: &mut bool, s: &str)
    requires
        *old(index) <= old(value)@.len(),
        *old(index) + s@.len() <= usize::MAX,
    ensures
        *final(index) == *old(index) + s@.len(),
        s@.is_prefix_of(old(value)@.skip(*old(index) as int)) ==> final(value)@ == old(value)@
            && *final(changed) == *old(changed),
        !s@.is_prefix_of(old(value)@.skip(*old(index) as int)) ==> final(value)@ == old(
            value,
        )@.take(*old(index) as int) + s@ && *final(changed),
{
    let from = *index;
    let len = s.unicode_len();
    let total = value.as_str().unicode_len();
    let ghost rest = value@.skip(from as int);
    let held = if len <= total - from {
        let there = value.as_str().substring_char(from, from + len);
        proof {
            assert(there@ =~= rest.subrange(0, len as int));
        }
        same_text(there, s)
    } else {
        false
    };
    if !held {
        let mut written = value.as_str().substring_char(0, from).to_owned();
        written.append(s);
        proof {
            assert(value@.subrange(0, from as int) =~= value@.take(from as int));
        }
        *value = written;
        *changed = true;
    }
    *index = from + len;
}

/// A text node displaying pieces put one behind the other, as the parts of
/// a formatted text come.
pub struct Pieces<'a> {
    pieces: &'a [&'a str],
}

impl<'a> Pieces<'a> {
    /// The pieces.
    pub closed spec fn pieces(&self) -> Seq<Seq<char>> {
        Seq::new(self.pieces@.len(), |i: int| self.pieces@[i]@)
    }

    /// The text displayed.
    pub open spec fn value(&self) -> Seq<char> {
        pieced(self.pieces())
    }
}

impl<'a> Builder for Pieces<'a> {
    type State = TextState;

    /// The text is no longer than a string can be.
    open spec fn wf(&self) -> bool {
        self.value().len() <= usize::MAX
    }

    open spec fn describes(&self, state: &TextState) -> bool {
        state.value() == self.value()
    }

    open spec fn matches(&self, state: &TextState) -> bool {
        state.value() == self.value()
    }

    /// The node stays.
    open spec fn keeps(&self, old_state: &Self::State, state: &Self::State) -> bool {
        state.node() == old_state.node()
    }

    open spec fn steady(&self) -> bool {
        true
    }

    proof fn lemma_steady(&self, state: &TextState) {
    }

    /// Puts the pieces one behind the other and creates a text node that
    /// displays them.
    fn build(self, cx: BuildCx, dom: &mut Dom) -> (state: TextState)
        ensures
            state.node() == old(dom)@.len(),
    {
        let mut value = String::new();
        let count = self.pieces.len();
        let mut i: usize = 0;
        proof {
            assert(self.pieces().take(0) =~= Seq::empty());
        }
        while i < count
            invariant
                i <= count == self.pieces().len(),
                count == self.pieces@.len(),
                value@ == pieced(self.pieces().take(i as int)),
            decreases count - i,
        {
            value.append(self.pieces[i]);
            proof {
                let grown = self.pieces().take(i + 1);
                assert(grown.drop_last() =~= self.pieces().take(i as int));
                assert(grown.last() == self.pieces@[i as int]@);
            }
            i = i + 1;
        }
        proof {
            assert(self.pieces().take(count as int) =~= self.pieces());
        }
        build_text(value.as_str(), cx, dom)
    }

    /// Writes the pieces over the text that the node displays, piece by
    /// piece, and writes the node again only where a piece was not there
    /// already or the text got shorter.
    fn rebuild(self, cx: RebuildCx, dom: &mut Dom, state: &mut TextState)
        ensures
            final(state).node() == old(state).node(),
            !self.matches(old(state)) ==> final(dom)@ == old(dom)@.with_data(
                old(state).node(),
                self.value(),
            ),
    {
        let ghost before = dom@;
        let ghost s0 = *state;
        let ghost all = self.pieces();
        proof {
            let kids = before.children(cx.parent);
            let at = offset(kids, state.span());
            assert(kids.subrange(at, at + 1)[0] == state.node());
            assert(kids =~= spliced(kids, at, 1, state.span()));
            assert(all.take(0) =~= Seq::empty());
        }
        let count = self.pieces.len();
        let mut index: usize = 0;
        let mut changed = false;
        let mut i: usize = 0;
        while i < count
            invariant
                i <= count == all.len(),
                count == self.pieces@.len(),
                all == self.pieces(),
                pieced(all).len() <= usize::MAX,
                state.node == s0.node,
                index == pieced(all.take(i as int)).len(),
                index <= state.value@.len(),
                state.value@.take(index as int) == pieced(all.take(i as int)),
                !changed ==> state.value@ == s0.value@,
                s0.value@ == pieced(all) ==> !changed,
            decreases count - i,
        {
            let ghost v1 = state.value@;
            let ghost at = index as int;
            let piece = self.pieces[i];
            proof {
                let grown = all.take(i + 1);
                assert(grown.drop_last() =~= all.take(i as int));
                assert(grown.last() == piece@);
                lemma_pieced_prefix(all, i + 1);
                if s0.value@ == pieced(all) {
                    assert(piece@.is_prefix_of(v1.skip(at))) by {
                        assert(pieced(grown).is_prefix_of(v1));
                        assert forall|k: int| 0 <= k < piece@.len() implies piece@[k] == v1.skip(
                            at,
                        )[k] by {
                            assert(pieced(grown)[at + k] == v1[at + k]);
                        }
                    }
                }
            }
            write_str(&mut state.value, &mut index, &mut changed, piece);
            proof {
                let grown = all.take(i + 1);
                if piece@.is_prefix_of(v1.skip(at)) {
                    assert(state.value@.take(index as int) =~= v1.take(at) + piece@);
                } else {
                    assert(state.value@.take(index as int) =~= v1.take(at) + piece@);
                }
            }
            i = i + 1;
        }
        proof {
            assert(all.take(count as int) =~= all);
        }
        if index < state.value.as_str().unicode_len() {
            let written = state.value.as_str().substring_char(0, index).to_owned();
            proof {
                assert(state.value@.subrange(0, index as int) =~= state.value@.take(index as int));
            }
            state.value = written;
            changed = true;
        }
        proof {
            assert(state.value@ =~= state.value@.take(index as int));
        }
        if changed {
            dom.set_data(state.node, state.value.as_str());
        }
    }
}

/// A text node displaying `pieces` put one behind the other.
pub fn pieces<'a>(parts: &'a [&'a str]) -> (view: Pieces<'a>)
    ensures
        view.pieces() == Seq::new(parts@.len(), |i: int| parts@[i]@),
{
    Pieces { pieces: parts }
}

/// A text node displaying `value`.
pub fn text(value: &str) -> (view: Text<'_>)
    ensures
        view.value() == value@,
{
    Text { value }
}

} // verus!
