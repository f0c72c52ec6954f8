//! What follows from the contracts of the components, stated for whole
//! sequences of cycles.

use crate::builder::{
    located, offset, rebuild_ready, rebuilt, spliced, Builder, Mounted, RebuildCx, ViewMarker,
};
use crate::collections::btree_map::{ascending, BTreeMapState};
use crate::collections::entries::{region, spans, Entry};
use crate::compose::lemma_rebuilt_ready;
use crate::dom::{DomView, NodeId};
use crate::option::{lemma_markers, OptionState};
use vstd::prelude::*;

verus! {

/// A steady description matches the state that it was last built or rebuilt
/// into, and every other state that shows what it asks for. Rebuilding with
/// a description that matches leaves the backing structure as it is, the log
/// of operations included: that is what [`Builder::rebuild`] promises.
pub proof fn lemma_idempotent_rebuild<B: Builder>(view: &B, state: &B::State)
    requires
        view.steady(),
        view.describes(state),
    ensures
        view.matches(state),
{
    view.lemma_steady(state);
}

/// Toggling an optional view on and off again leaves the children of the
/// parent exactly as they were, and toggling it on once more puts exactly
/// the new content between the two markers.
///
/// The four states are those of the cycles `None`, `Some(x)`, `None`,
/// `Some(y)`.
pub proof fn lemma_toggle_round_trip<S: ViewMarker>(
    cx: RebuildCx,
    d0: DomView,
    s0: &OptionState<S>,
    d1: DomView,
    s1: &OptionState<S>,
    d2: DomView,
    s2: &OptionState<S>,
    d3: DomView,
    s3: &OptionState<S>,
)
    requires
        rebuild_ready(cx, d0, s0),
        rebuilt(cx, d0, s0, d1, s1),
        rebuilt(cx, d1, s1, d2, s2),
        rebuilt(cx, d2, s2, d3, s3),
        s0.inner() is None,
        s1.inner() is Some,
        s2.inner() is None,
        s3.inner() is Some,
        s1.start() == s0.start() && s1.end() == s0.end(),
        s2.start() == s0.start() && s2.end() == s0.end(),
        s3.start() == s0.start() && s3.end() == s0.end(),
    ensures
        d2.children(cx.parent) == d0.children(cx.parent),
        d3.children(cx.parent) == spliced(
            d0.children(cx.parent),
            d0.children(cx.parent).index_of(s0.start()),
            2,
            seq![s0.start()] + s3.inner().span() + seq![s0.end()],
        ),
        d0.children(cx.parent)[d0.children(cx.parent).index_of(s0.start())] == s0.start(),
        d0.children(cx.parent)[d0.children(cx.parent).index_of(s0.start()) + 1] == s0.end(),
{
    let parent = cx.parent;
    let c0 = d0.children(parent);
    let c1 = d1.children(parent);
    let c2 = d2.children(parent);
    let at = offset(c0, s0.span());
    assert(d0.node_wf(parent));
    lemma_markers(c0, s0.start(), s0.inner().span(), s0.end());
    lemma_rebuilt_ready(cx, d0, s0, d1, s1);
    lemma_rebuilt_ready(cx, d1, s1, d2, s2);
    assert(s0.span() =~= seq![s0.start(), s0.end()]);
    assert(s2.span() =~= seq![s0.start(), s0.end()]);
    assert(c2 =~= c0) by {
        assert(c1 == spliced(c0, at, 2, s1.span()));
        assert(c2 == spliced(c1, at, s1.span().len() as int, s2.span()));
        assert forall|i: int| 0 <= i < c0.len() implies c2[i] == c0[i] by {
            if at <= i < at + 2 {
                assert(c0.subrange(at, at + 2)[i - at] == s0.span()[i - at]);
            }
        }
    }
    assert(offset(c2, s2.span()) == at);
    assert(s3.span() =~= seq![s0.start()] + s3.inner().span() + seq![s0.end()]);
}

/// Where the entry at `index` starts in the span of a region: behind the
/// nodes of all the entries before it.
pub open spec fn entry_start<S: Mounted>(entries: Seq<Entry<S>>, index: int) -> int {
    spans(entries.take(index)).len() as int
}

/// The layout of a region: every entry starts with its own leading marker,
/// followed by the nodes of its view, and the footer marker is the last
/// node.
pub proof fn lemma_region_layout<S: Mounted>(entries: Seq<Entry<S>>, footer: NodeId, index: int)
    requires
        0 <= index < entries.len(),
    ensures
        entry_start(entries, index + 1) == entry_start(entries, index) + 1
            + entries[index].state().span().len(),
        entry_start(entries, index + 1) < region(entries, footer).span().len(),
        region(entries, footer).span()[entry_start(entries, index)] == entries[index].header(),
        region(entries, footer).span().subrange(
            entry_start(entries, index) + 1,
            entry_start(entries, index + 1),
        ) == entries[index].state().span(),
        region(entries, footer).span().last() == footer,
        region(entries, footer).span().len() == entry_start(entries, entries.len() as int) + 1,
{
    let head = entries.take(index);
    let entry = entries[index];
    let tail = entries.skip(index + 1);
    let span = region(entries, footer).span();
    crate::collections::entries::lemma_spans_concat(head, seq![entry]);
    crate::collections::entries::lemma_spans_concat(head.push(entry), tail);
    assert(head + seq![entry] =~= entries.take(index + 1));
    assert(head.push(entry) =~= entries.take(index + 1));
    assert(entries.take(index + 1) + tail =~= entries);
    assert(entries.take(entries.len() as int) =~= entries);
    assert(spans(seq![entry]) =~= entry.span()) by {
        assert(seq![entry].drop_first() =~= Seq::<Entry<S>>::empty());
        assert(spans(seq![entry].drop_first()) =~= Seq::<NodeId>::empty());
    }
    assert(entry.span() =~= seq![entry.header()] + entry.state().span());
    let start = entry_start(entries, index);
    assert(span =~= spans(head) + entry.span() + spans(tail) + seq![footer]);
    assert(span.subrange(start + 1, start + 1 + entry.state().span().len())
        =~= entry.state().span());
}

/// After a keyed view was rebuilt, the children of the parent hold the
/// region of the view as one run: for each key, in ascending order, the
/// leading marker of its entry followed by the nodes of its view, and the
/// footer marker at the end.
pub proof fn lemma_keyed_order<S: ViewMarker>(
    cx: RebuildCx,
    before: DomView,
    old_state: &BTreeMapState<S>,
    after: DomView,
    state: &BTreeMapState<S>,
    index: int,
)
    requires
        rebuild_ready(cx, before, old_state),
        rebuilt(cx, before, old_state, after, state),
        0 <= index < state.entries().len(),
    ensures
        ascending(state.keys()),
        state.keys().len() == state.entries().len(),
        located(after.children(cx.parent), state.span()),
        ({
            let kids = after.children(cx.parent);
            let at = offset(kids, state.span());
            let start = at + entry_start(state.entries(), index);
            let end = at + entry_start(state.entries(), index + 1);
            &&& 0 <= at <= start < end < kids.len()
            &&& kids[start] == state.entries()[index].header()
            &&& kids.subrange(start + 1, end) == state.entries()[index].state().span()
            &&& kids[at + state.span().len() - 1] == state.footer()
        }),
{
    lemma_rebuilt_ready(cx, before, old_state, after, state);
    let kids = after.children(cx.parent);
    let span = state.span();
    let at = offset(kids, span);
    lemma_region_layout(state.entries(), state.footer(), index);
    let from = entry_start(state.entries(), index);
    let to = entry_start(state.entries(), index + 1);
    assert forall|i: int| 0 <= i < span.len() implies kids[at + i] == span[i] by {
        assert(kids.subrange(at, at + span.len())[i] == span[i]);
    }
    assert(kids.subrange(at + from + 1, at + to) =~= span.subrange(from + 1, to));
    assert(span.last() == span[span.len() - 1]);
}

} // verus!
