//! What the collection views share: a region of entries, each led by its own
//! marker, closed by one footer marker.

use crate::builder::{
    build_ready, built, lemma_silenced_both, lemma_silenced_none, lemma_silenced_same, offset, ran,
    rebuild_ready, rebuilt, run_ready, silenced, BuildCx, Builder, Claims, Mounted, RebuildCx,
    State, ViewMarker,
};
use crate::compose::{
    build_marker, equiv, lemma_build_front, lemma_build_next, lemma_build_pair, lemma_built_equiv,
    lemma_equiv_assoc, lemma_equiv_none, lemma_equiv_pair, lemma_equiv_some, lemma_equiv_trans,
    lemma_first_ready, lemma_first_rebuilt, lemma_front_child, lemma_ready_equiv,
    lemma_rebuilt_equiv, lemma_remove_front, lemma_second_ready, lemma_second_rebuilt, Marker,
};
use crate::cx::{chosen, fair, idle, made, made_anew, made_of, remade, with, Choice};
use crate::dom::{clear, lemma_index_of, Dom, DomView, ListenerId, NodeId, Position};
use crate::float::Float;
use vstd::prelude::*;

verus! {

/// One entry of a collection view: its leading marker and the state of what
/// was rendered for it.
pub struct Entry<S> {
    header: NodeId,
    state: Float<S>,
}

impl<S> Entry<S> {
    /// The leading marker.
    pub closed spec fn header(&self) -> NodeId {
        self.header
    }

    /// The state of what was rendered for the entry.
    pub closed spec fn state(&self) -> Float<S> {
        self.state
    }

    /// The entry seen as what it is made of.
    pub open spec fn parts(&self) -> (Marker, Float<S>) {
        (Marker { node: self.header(), data: "|" }, self.state())
    }

    /// The leading marker.
    pub fn header_id(&self) -> (node: NodeId)
        ensures
            node == self.header(),
    {
        self.header
    }

    /// The state of what was rendered for the entry.
    pub fn state_ref(&self) -> (state: &Float<S>)
        ensures
            *state == self.state(),
    {
        &self.state
    }
}

impl<S: Mounted> Entry<S> {
    /// Whether the state of the entry was completed by `choice`.
    pub open spec fn shows<C: Choice<S>>(&self, choice: &C) -> bool {
        self.state()@ matches Some(inner) && chosen(choice, &inner)
    }
}

impl<S: Mounted> Mounted for Entry<S> {
    open spec fn span(&self) -> Seq<NodeId> {
        self.parts().span()
    }

    open spec fn owns(&self, n: NodeId) -> bool {
        self.parts().owns(n)
    }

    open spec fn inv(&self, dom: DomView) -> bool {
        self.parts().inv(dom)
    }

    open spec fn is_view(&self) -> bool {
        self.parts().is_view()
    }

    open spec fn claims(&self) -> Claims {
        self.parts().claims()
    }

    open spec fn settled(&self) -> bool {
        self.parts().settled()
    }

    open spec fn hears(&self, l: ListenerId) -> bool {
        self.parts().hears(l)
    }

    proof fn lemma_inv(&self, dom: DomView) {
        self.parts().lemma_inv(dom);
    }

    proof fn lemma_frame(&self, before: DomView, after: DomView) {
        assert forall|n: NodeId| #[trigger] self.parts().owns(n) implies after.nodes[n as int]
            == before.nodes[n as int] by {
            assert(self.owns(n));
        }
        self.parts().lemma_frame(before, after);
    }
}

impl<S: ViewMarker> ViewMarker for Entry<S> {
    proof fn lemma_view(&self) {
        self.state().lemma_view();
        assert(self.claims() =~= Map::empty());
    }
}

/// The spans of `entries`, one after the other.
pub open spec fn spans<S: Mounted>(entries: Seq<Entry<S>>) -> Seq<NodeId>
    decreases entries.len(),
{
    if entries.len() == 0 {
        Seq::empty()
    } else {
        entries[0].span() + spans(entries.drop_first())
    }
}

/// A run of entries, seen as one state.
pub struct Run<S> {
    pub entries: Seq<Entry<S>>,
}

impl<S: Mounted> Mounted for Run<S> {
    open spec fn span(&self) -> Seq<NodeId> {
        spans(self.entries)
    }

    open spec fn owns(&self, n: NodeId) -> bool {
        exists|i: int| 0 <= i < self.entries.len() && (#[trigger] self.entries[i]).owns(n)
    }

    open spec fn inv(&self, dom: DomView) -> bool {
        &&& forall|i: int| 0 <= i < self.entries.len() ==> (#[trigger] self.entries[i]).inv(dom)
        &&& forall|i: int, j: int, n: NodeId|
            0 <= i < self.entries.len() && 0 <= j < self.entries.len() && i != j ==> !(
            #[trigger] self.entries[i].owns(n) && #[trigger] self.entries[j].owns(n))
        &&& forall|i: int, j: int, l: ListenerId|
            0 <= i < self.entries.len() && 0 <= j < self.entries.len() && i != j ==> !(
            #[trigger] self.entries[i].hears(l) && #[trigger] self.entries[j].hears(l))
    }

    open spec fn is_view(&self) -> bool {
        forall|i: int| 0 <= i < self.entries.len() ==> (#[trigger] self.entries[i]).is_view()
    }

    open spec fn claims(&self) -> Claims {
        Map::empty()
    }

    open spec fn settled(&self) -> bool {
        true
    }

    open spec fn hears(&self, l: ListenerId) -> bool {
        exists|i: int| 0 <= i < self.entries.len() && (#[trigger] self.entries[i]).hears(l)
    }

    proof fn lemma_inv(&self, dom: DomView) {
        lemma_spans_owned(self.entries, dom);
        assert forall|n: NodeId| #[trigger] self.owns(n) implies n < dom.len() by {
            let i = choose|i: int|
                0 <= i < self.entries.len() && (#[trigger] self.entries[i]).owns(n);
            self.entries[i].lemma_inv(dom);
        }
        assert forall|l: ListenerId| #[trigger] self.hears(l) implies l
            < dom.listeners.len() by {
            let i = choose|i: int|
                0 <= i < self.entries.len() && (#[trigger] self.entries[i]).hears(l);
            self.entries[i].lemma_inv(dom);
        }
    }

    proof fn lemma_frame(&self, before: DomView, after: DomView) {
        assert forall|i: int| 0 <= i < self.entries.len() implies (#[trigger] self.entries[i]).inv(
            after,
        ) by {
            assert forall|n: NodeId| #[trigger] self.entries[i].owns(n)
                implies after.nodes[n as int]
                == before.nodes[n as int] by {
                assert(self.owns(n));
            }
            self.entries[i].lemma_frame(before, after);
        }
    }
}

/// Every node of the spans of entries that hold belongs to one of them.
pub proof fn lemma_spans_owned<S: Mounted>(entries: Seq<Entry<S>>, dom: DomView)
    requires
        forall|i: int| 0 <= i < entries.len() ==> (#[trigger] entries[i]).inv(dom),
    ensures
        forall|k: int|
            0 <= k < spans(entries).len() ==> (Run { entries }).owns(#[trigger] spans(entries)[k]),
    decreases entries.len(),
{
    if entries.len() > 0 {
        let rest = entries.drop_first();
        assert forall|i: int| 0 <= i < rest.len() implies (#[trigger] rest[i]).inv(dom) by {
            assert(rest[i] == entries[i + 1]);
        }
        lemma_spans_owned(rest, dom);
        entries[0].lemma_inv(dom);
        let run = Run { entries };
        let rest_run = Run { entries: rest };
        assert(run.entries == entries && rest_run.entries == rest);
        assert forall|k: int| 0 <= k < spans(entries).len() implies (Run { entries }).owns(
            #[trigger] spans(entries)[k],
        ) by {
            let n = spans(entries)[k];
            if k < entries[0].span().len() {
                assert(n == entries[0].span()[k]);
                assert(entries[0].owns(n));
                assert(run.owns(n));
            } else {
                assert(n == spans(rest)[k - entries[0].span().len()]);
                assert(rest_run.owns(n));
                let i = choose|i: int| 0 <= i < rest.len() && (#[trigger] rest[i]).owns(n);
                assert(entries[i + 1].owns(n));
                assert(run.owns(n));
            }
        }
    }
}

/// The spans of two runs put together are the spans of the first followed
/// by those of the second.
pub proof fn lemma_spans_concat<S: Mounted>(a: Seq<Entry<S>>, b: Seq<Entry<S>>)
    ensures
        spans(a + b) == spans(a) + spans(b),
    decreases a.len(),
{
    if a.len() == 0 {
        assert(a + b =~= b);
        assert(spans(a) + spans(b) =~= spans(b));
    } else {
        assert((a + b).drop_first() =~= a.drop_first() + b);
        lemma_spans_concat(a.drop_first(), b);
        assert(spans(a + b) =~= spans(a) + spans(b));
    }
}

/// A run of one entry is that entry.
pub proof fn lemma_run_single<S: ViewMarker>(entry: &Entry<S>)
    ensures
        equiv(&Run { entries: seq![*entry] }, entry),
        equiv(entry, &Run { entries: seq![*entry] }),
{
    let run = Run { entries: seq![*entry] };
    entry.lemma_view();
    assert(run.entries == seq![*entry]);
    assert(run.entries.drop_first() =~= Seq::empty());
    assert(spans(run.entries.drop_first()) =~= Seq::empty());
    assert(run.span() =~= entry.span());
    assert(run.claims() =~= entry.claims());
    assert forall|n: NodeId| run.owns(n) == entry.owns(n) by {
        if entry.owns(n) {
            assert(run.entries[0].owns(n));
        }
    }
    assert(run.is_view() == entry.is_view()) by {
        if entry.is_view() {
            assert forall|i: int| 0 <= i < run.entries.len()
                implies (#[trigger] run.entries[i]).is_view() by {}
        } else {
            assert(!run.entries[0].is_view());
        }
    }
    assert forall|dom: DomView| #![trigger run.inv(dom)] #![trigger entry.inv(dom)] run.inv(dom)
        == entry.inv(dom) by {
        if run.inv(dom) {
            assert(run.entries[0].inv(dom));
        }
    }
}

/// Two runs side by side are the run of the entries of both.
pub proof fn lemma_run_append<S: Mounted>(a: Seq<Entry<S>>, b: Seq<Entry<S>>)
    ensures
        equiv(&(Run { entries: a }, Run { entries: b }), &Run { entries: a + b }),
        equiv(&Run { entries: a + b }, &(Run { entries: a }, Run { entries: b })),
{
    let pair = (Run { entries: a }, Run { entries: b });
    let run = Run { entries: a + b };
    let all = a + b;
    lemma_spans_concat(a, b);
    assert(pair.claims() =~= run.claims());
    assert(pair.0.entries == a && pair.1.entries == b && run.entries == all);
    assert forall|n: NodeId| pair.owns(n) == run.owns(n) by {
        if pair.0.owns(n) {
            let i = choose|i: int| 0 <= i < a.len() && (#[trigger] a[i]).owns(n);
            assert(all[i].owns(n));
        }
        if pair.1.owns(n) {
            let i = choose|i: int| 0 <= i < b.len() && (#[trigger] b[i]).owns(n);
            assert(all[a.len() + i].owns(n));
        }
        if run.owns(n) {
            let i = choose|i: int| 0 <= i < all.len() && (#[trigger] all[i]).owns(n);
            if i < a.len() {
                assert(a[i].owns(n));
            } else {
                assert(b[i - a.len()].owns(n));
            }
        }
    }
    assert forall|l: ListenerId| pair.hears(l) == run.hears(l) by {
        if pair.0.hears(l) {
            let i = choose|i: int| 0 <= i < a.len() && (#[trigger] a[i]).hears(l);
            assert(all[i].hears(l));
        }
        if pair.1.hears(l) {
            let i = choose|i: int| 0 <= i < b.len() && (#[trigger] b[i]).hears(l);
            assert(all[a.len() + i].hears(l));
        }
        if run.hears(l) {
            let i = choose|i: int| 0 <= i < all.len() && (#[trigger] all[i]).hears(l);
            if i < a.len() {
                assert(a[i].hears(l));
            } else {
                assert(b[i - a.len()].hears(l));
            }
        }
    }
    assert(pair.is_view() == run.is_view()) by {
        if pair.is_view() {
            assert forall|i: int| 0 <= i < all.len() implies (#[trigger] all[i]).is_view() by {
                if i < a.len() {
                    assert(a[i].is_view());
                } else {
                    assert(b[i - a.len()].is_view());
                }
            }
        }
        if run.is_view() {
            assert forall|i: int| 0 <= i < a.len() implies (#[trigger] a[i]).is_view() by {
                assert(all[i].is_view());
            }
            assert forall|i: int| 0 <= i < b.len() implies (#[trigger] b[i]).is_view() by {
                assert(all[a.len() + i].is_view());
            }
        }
    }
    assert forall|dom: DomView| #![trigger pair.inv(dom)] #![trigger run.inv(dom)] pair.inv(dom)
        == run.inv(dom) by {
        if pair.inv(dom) {
            assert forall|i: int| 0 <= i < all.len() implies (#[trigger] all[i]).inv(dom) by {
                if i < a.len() {
                    assert(a[i].inv(dom));
                } else {
                    assert(b[i - a.len()].inv(dom));
                }
            }
            assert forall|i: int, j: int, n: NodeId|
                0 <= i < all.len() && 0 <= j < all.len() && i != j implies !(
                #[trigger] all[i].owns(n) && #[trigger] all[j].owns(n)) by {
                if all[i].owns(n) && all[j].owns(n) {
                    if i < a.len() && j < a.len() {
                        assert(a[i].owns(n) && a[j].owns(n));
                    } else if i >= a.len() && j >= a.len() {
                        assert(b[i - a.len()].owns(n) && b[j - a.len()].owns(n));
                    } else if i < a.len() {
                        assert(a[i].owns(n) && b[j - a.len()].owns(n));
                        assert(pair.0.owns(n) && pair.1.owns(n));
                    } else {
                        assert(a[j].owns(n) && b[i - a.len()].owns(n));
                        assert(pair.0.owns(n) && pair.1.owns(n));
                    }
                }
            }
            assert forall|i: int, j: int, l: ListenerId|
                0 <= i < all.len() && 0 <= j < all.len() && i != j implies !(
                #[trigger] all[i].hears(l) && #[trigger] all[j].hears(l)) by {
                if all[i].hears(l) && all[j].hears(l) {
                    if i < a.len() && j < a.len() {
                        assert(a[i].hears(l) && a[j].hears(l));
                    } else if i >= a.len() && j >= a.len() {
                        assert(b[i - a.len()].hears(l) && b[j - a.len()].hears(l));
                    } else if i < a.len() {
                        assert(a[i].hears(l) && b[j - a.len()].hears(l));
                        assert(pair.0.hears(l) && pair.1.hears(l));
                    } else {
                        assert(a[j].hears(l) && b[i - a.len()].hears(l));
                        assert(pair.0.hears(l) && pair.1.hears(l));
                    }
                }
            }
        }
        if run.inv(dom) {
            assert forall|i: int| 0 <= i < a.len() implies (#[trigger] a[i]).inv(dom) by {
                assert(all[i].inv(dom));
            }
            assert forall|i: int| 0 <= i < b.len() implies (#[trigger] b[i]).inv(dom) by {
                assert(all[a.len() + i].inv(dom));
            }
            assert forall|i: int, j: int, n: NodeId|
                0 <= i < a.len() && 0 <= j < a.len() && i != j implies !(#[trigger] a[i].owns(n)
                && #[trigger] a[j].owns(n)) by {
                assert(!(all[i].owns(n) && all[j].owns(n)));
            }
            assert forall|i: int, j: int, l: ListenerId|
                0 <= i < a.len() && 0 <= j < a.len() && i != j implies !(#[trigger] a[i].hears(l)
                && #[trigger] a[j].hears(l)) by {
                assert(!(all[i].hears(l) && all[j].hears(l)));
            }
            assert forall|i: int, j: int, n: NodeId|
                0 <= i < b.len() && 0 <= j < b.len() && i != j implies !(#[trigger] b[i].owns(n)
                && #[trigger] b[j].owns(n)) by {
                assert(!(all[a.len() + i].owns(n) && all[a.len() + j].owns(n)));
            }
            assert forall|i: int, j: int, l: ListenerId|
                0 <= i < b.len() && 0 <= j < b.len() && i != j implies !(#[trigger] b[i].hears(l)
                && #[trigger] b[j].hears(l)) by {
                assert(!(all[a.len() + i].hears(l) && all[a.len() + j].hears(l)));
            }
            assert forall|n: NodeId| !(#[trigger] pair.0.owns(n) && pair.1.owns(n)) by {
                if pair.0.owns(n) && pair.1.owns(n) {
                    let i = choose|i: int| 0 <= i < a.len() && (#[trigger] a[i]).owns(n);
                    let j = choose|j: int| 0 <= j < b.len() && (#[trigger] b[j]).owns(n);
                    assert(all[i].owns(n) && all[a.len() + j].owns(n));
                }
            }
            assert forall|l: ListenerId| !(#[trigger] pair.0.hears(l) && pair.1.hears(l)) by {
                if pair.0.hears(l) && pair.1.hears(l) {
                    let i = choose|i: int| 0 <= i < a.len() && (#[trigger] a[i]).hears(l);
                    let j = choose|j: int| 0 <= j < b.len() && (#[trigger] b[j]).hears(l);
                    assert(all[i].hears(l) && all[a.len() + j].hears(l));
                }
            }
        }
    }
}

/// The region of a collection view: its entries and the footer marker.
pub open spec fn region<S: Mounted>(entries: Seq<Entry<S>>, footer: NodeId) -> (Run<S>, Marker) {
    (Run { entries }, Marker { node: footer, data: "|" })
}

/// An entry is what it is made of.
pub proof fn lemma_entry_parts<S: Mounted>(entry: &Entry<S>)
    ensures
        equiv(entry, &entry.parts()),
        equiv(&entry.parts(), entry),
{
}

/// An entry in front of a region is the region that starts with it.
pub proof fn lemma_region_front<S: ViewMarker>(
    entry: &Entry<S>,
    rest: Seq<Entry<S>>,
    footer: NodeId,
)
    ensures
        equiv(&(*entry, region(rest, footer)), &region(seq![*entry] + rest, footer)),
        equiv(&region(seq![*entry] + rest, footer), &(*entry, region(rest, footer))),
{
    let marker = Marker { node: footer, data: "|" };
    let single = Run { entries: seq![*entry] };
    let tail = Run { entries: rest };
    let whole = Run { entries: seq![*entry] + rest };
    lemma_equiv_assoc(entry, &tail, &marker);
    lemma_run_single(entry);
    lemma_equiv_pair(entry, &tail, &single, &tail);
    lemma_run_append(seq![*entry], rest);
    lemma_equiv_trans(&(*entry, tail), &(single, tail), &whole);
    lemma_equiv_pair(&(*entry, tail), &marker, &whole, &marker);
    lemma_equiv_trans(&(*entry, (tail, marker)), &((*entry, tail), marker), &(whole, marker));
}

/// A run in front of a region is the region of the entries of both.
pub proof fn lemma_region_split<S: Mounted>(a: Seq<Entry<S>>, b: Seq<Entry<S>>, footer: NodeId)
    ensures
        equiv(&(Run { entries: a }, region(b, footer)), &region(a + b, footer)),
        equiv(&region(a + b, footer), &(Run { entries: a }, region(b, footer))),
{
    let marker = Marker { node: footer, data: "|" };
    let first = Run { entries: a };
    let second = Run { entries: b };
    let whole = Run { entries: a + b };
    lemma_equiv_assoc(&first, &second, &marker);
    lemma_run_append(a, b);
    lemma_equiv_pair(&(first, second), &marker, &whole, &marker);
    lemma_equiv_trans(&(first, (second, marker)), &((first, second), marker), &(whole, marker));
}

/// The first node of a region: the leading marker of its first entry, or
/// the footer when it has no entry.
pub open spec fn front<S: Mounted>(entries: Seq<Entry<S>>, footer: NodeId) -> NodeId {
    if entries.len() > 0 {
        entries[0].header()
    } else {
        footer
    }
}

/// A region starts with its front.
pub proof fn lemma_front<S: Mounted>(entries: Seq<Entry<S>>, footer: NodeId)
    ensures
        region(entries, footer).span().len() > 0,
        region(entries, footer).span()[0] == front(entries, footer),
{
    if entries.len() > 0 {
        assert(spans(entries)[0] == entries[0].span()[0]);
    } else {
        assert(spans(entries) =~= Seq::empty());
    }
}

/// Whether `entry` is `old_entry` rebuilt with `choice` under `cx`: it has
/// the leading marker it had, its state is what the callback made of the
/// state it had, its nodes are those it had or younger than `floor`, and
/// where the callback was idle it stands for the nodes it stood for.
#[verifier::opaque]
pub open spec fn reused<C: Choice<S>, S: Mounted>(
    choice: &C,
    cx: RebuildCx,
    floor: nat,
    old_entry: &Entry<S>,
    entry: &Entry<S>,
) -> bool {
    &&& entry.header() == old_entry.header()
    &&& old_entry.state().is_present() && entry.state().is_present()
    &&& made_of(choice, cx, &old_entry.state().value(), &entry.state().value())
    &&& forall|n: NodeId| #[trigger] entry.owns(n) ==> old_entry.owns(n) || floor <= n
    &&& idle(choice, &old_entry.state()) ==> entry.span() == old_entry.span()
}

/// Whether `entry` is `old_entry` rebuilt with `choice` under some parent.
pub open spec fn carried<C: Choice<S>, S: Mounted>(
    choice: &C,
    old_entry: &Entry<S>,
    entry: &Entry<S>,
) -> bool {
    exists|cx: RebuildCx, floor: nat| #[trigger] reused(choice, cx, floor, old_entry, entry)
}

/// Whether `entry` was built with `choice`: its state is what the callback
/// built, and its leading marker and all its nodes are younger than
/// `floor`.
#[verifier::opaque]
pub open spec fn added<C: Choice<S>, S: Mounted>(choice: &C, floor: nat, entry: &Entry<S>) -> bool {
    &&& entry.header() >= floor
    &&& entry.state().is_present()
    &&& made_anew(choice, &entry.state().value())
    &&& forall|n: NodeId| #[trigger] entry.owns(n) ==> floor <= n
}

/// Builds one entry at `cx.position`: its leading marker, then what
/// `choice` renders.
pub fn build_entry<C: Choice<S>, S: ViewMarker>(choice: C, cx: BuildCx, dom: &mut Dom) -> (entry:
    Entry<S>)
    requires
        fair(&choice),
        build_ready(cx, old(dom)@),
    ensures
        built(cx, old(dom)@, final(dom)@, &entry),
        entry.header() == old(dom)@.len(),
        entry.shows(&choice),
        added(&choice, old(dom)@.len(), &entry),
{
    let ghost d0 = dom@;
    let header = build_marker("|", cx, dom);
    let ghost d1 = dom@;
    proof {
        lemma_build_next(cx, d0, d1, &header);
    }
    let state = with(choice).build(cx, dom);
    let entry = Entry { header: header.node, state };
    proof {
        reveal(added);
        assert(made(&choice, cx, d1, dom@, &entry.state().value()));
        assert forall|n: NodeId| #[trigger] entry.owns(n) implies d0.len() <= n by {
            if entry.state().owns(n) {
                assert(d1.len() <= n);
            }
        }
        lemma_build_pair(cx, d0, d1, dom@, &entry.parts());
        lemma_built_equiv(cx, d0, dom@, &entry.parts(), &entry);
    }
    entry
}

/// Puts a new entry at index `at` of the region: builds it in front of the
/// entry that stands there, or in front of the footer.
pub fn insert_entry<C: Choice<S>, S: ViewMarker>(
    entries: &mut Vec<Entry<S>>,
    footer: NodeId,
    at: usize,
    choice: C,
    cx: RebuildCx,
    dom: &mut Dom,
)
    requires
        fair(&choice),
        rebuild_ready(cx, old(dom)@, &region(old(entries)@, footer)),
        at <= old(entries)@.len(),
    ensures
        final(entries)@ == old(entries)@.insert(at as int, final(entries)@[at as int]),
        final(entries)@.len() == old(entries)@.len() + 1,
        final(entries)@[at as int].header() == old(dom)@.len(),
        final(entries)@[at as int].shows(&choice),
        added(&choice, old(dom)@.len(), &final(entries)@[at as int]),
        framed(cx.parent, old(dom)@, final(dom)@, &()),
        rebuilt(
            cx,
            old(dom)@,
            &region(old(entries)@, footer),
            final(dom)@,
            &region(final(entries)@, footer),
        ),
{
    let ghost d0 = dom@;
    let ghost e0 = entries@;
    let ghost head = Run { entries: e0.take(at as int) };
    let ghost tail = region(e0.skip(at as int), footer);
    proof {
        assert(e0.take(at as int) + e0.skip(at as int) =~= e0);
        lemma_region_split(e0.take(at as int), e0.skip(at as int), footer);
        lemma_ready_equiv(cx, d0, &region(e0, footer), &(head, tail));
        lemma_second_ready(cx, d0, &(head, tail));
        lemma_front(e0.skip(at as int), footer);
        lemma_front_child(cx, d0, &tail);
    }
    let before = if at < entries.len() {
        entries[at].header
    } else {
        footer
    };
    let position = Position { parent: cx.parent, insert_before: Some(before) };
    let entry = build_entry(choice, BuildCx { position }, dom);
    entries.insert(at, entry);
    proof {
        let d1 = dom@;
        assert(framed(cx.parent, d0, d1, &())) by {
            reveal(framed);
        }
        let grown = region(seq![entry] + e0.skip(at as int), footer);
        entry.lemma_view();
        lemma_build_front(cx, d0, &tail, d1, &entry);
        lemma_equiv_none::<Entry<S>, (Run<S>, Marker)>(&tail);
        lemma_equiv_some(&entry);
        lemma_equiv_pair(&Some(entry), &tail, &entry, &tail);
        lemma_region_front(&entry, e0.skip(at as int), footer);
        lemma_equiv_trans(&(Some(entry), tail), &(entry, tail), &grown);
        lemma_rebuilt_equiv(
            cx,
            d0,
            &(None::<Entry<S>>, tail),
            d1,
            &(Some(entry), tail),
            &tail,
            &grown,
        );
        lemma_second_rebuilt(cx, d0, &(head, tail), d1, &grown);
        assert(e0.take(at as int) + (seq![entry] + e0.skip(at as int)) =~= entries@);
        assert(entries@ =~= e0.insert(at as int, entry));
        lemma_region_split(e0.take(at as int), seq![entry] + e0.skip(at as int), footer);
        lemma_rebuilt_equiv(
            cx,
            d0,
            &(head, tail),
            d1,
            &(head, grown),
            &region(e0, footer),
            &region(entries@, footer),
        );
    }
}

/// An entry whose state the callback made of the state it had, under the
/// marker it had, was kept.
pub proof fn lemma_reused<C: Choice<S>, S: Mounted>(
    choice: &C,
    cx: RebuildCx,
    before: DomView,
    old_entry: &Entry<S>,
    after: DomView,
    entry: &Entry<S>,
)
    requires
        entry.header() == old_entry.header(),
        old_entry.state().is_present(),
        entry.state().is_present(),
        rebuilt(cx, before, &old_entry.state(), after, &entry.state()),
        remade(choice, cx, before, &old_entry.state().value(), after, &entry.state().value()),
        idle(choice, &old_entry.state()) ==> entry.state().span() == old_entry.state().span(),
    ensures
        reused(choice, cx, before.len(), old_entry, entry),
{
    reveal(reused);
    assert forall|n: NodeId| #[trigger] entry.owns(n) implies old_entry.owns(n) || before.len()
        <= n by {
        if entry.state().owns(n) {
            assert(old_entry.state().owns(n) || before.len() <= n);
        }
    }
}

/// An entry that was kept with nodes younger than one floor was kept with
/// nodes younger than any lower floor.
pub proof fn lemma_reused_lower<C: Choice<S>, S: Mounted>(
    choice: &C,
    cx: RebuildCx,
    floor: nat,
    lower: nat,
    old_entry: &Entry<S>,
    entry: &Entry<S>,
)
    requires
        reused(choice, cx, floor, old_entry, entry),
        lower <= floor,
    ensures
        reused(choice, cx, lower, old_entry, entry),
{
    reveal(reused);
    assert forall|n: NodeId| #[trigger] entry.owns(n) implies old_entry.owns(n) || lower <= n by {
        assert(old_entry.owns(n) || floor <= n);
    }
}

/// An entry that was added above one floor was added above any lower
/// floor.
pub proof fn lemma_added_lower<C: Choice<S>, S: Mounted>(
    choice: &C,
    floor: nat,
    lower: nat,
    entry: &Entry<S>,
)
    requires
        added(choice, floor, entry),
        lower <= floor,
    ensures
        added(choice, lower, entry),
{
    reveal(added);
    assert forall|n: NodeId| #[trigger] entry.owns(n) implies lower <= n by {
        assert(floor <= n);
    }
}

/// Rebuilds the entry at index `at` of the region in place with what
/// `choice` renders.
pub fn rebuild_entry<C: Choice<S>, S: ViewMarker>(
    entries: &mut Vec<Entry<S>>,
    footer: NodeId,
    at: usize,
    choice: C,
    cx: RebuildCx,
    dom: &mut Dom,
)
    requires
        fair(&choice),
        rebuild_ready(cx, old(dom)@, &region(old(entries)@, footer)),
        at < old(entries)@.len(),
    ensures
        final(entries)@ == old(entries)@.update(at as int, final(entries)@[at as int]),
        final(entries)@[at as int].header() == old(entries)@[at as int].header(),
        final(entries)@[at as int].shows(&choice),
        reused(
            &choice,
            cx,
            old(dom)@.len(),
            &old(entries)@[at as int],
            &final(entries)@[at as int],
        ),
        framed(cx.parent, old(dom)@, final(dom)@, &old(entries)@[at as int]),
        rebuilt(
            cx,
            old(dom)@,
            &region(old(entries)@, footer),
            final(dom)@,
            &region(final(entries)@, footer),
        ),
        idle(&choice, &old(entries)@[at as int].state()) ==> final(dom)@ == old(dom)@
            && final(entries)@[at as int].span() == old(entries)@[at as int].span(),
{
    let ghost d0 = dom@;
    let ghost e0 = entries@;
    let ghost old_entry = e0[at as int];
    let ghost head = Run { entries: e0.take(at as int) };
    let ghost rest = region(e0.skip(at + 1), footer);
    let ghost tail = (old_entry, rest);
    proof {
        assert(e0.take(at as int) + (seq![old_entry] + e0.skip(at + 1)) =~= e0);
        lemma_region_front(&old_entry, e0.skip(at + 1), footer);
        lemma_region_split(e0.take(at as int), seq![old_entry] + e0.skip(at + 1), footer);
        lemma_equiv_pair(&head, &region(seq![old_entry] + e0.skip(at + 1), footer), &head, &tail);
        lemma_equiv_trans(
            &region(e0, footer),
            &(head, region(seq![old_entry] + e0.skip(at + 1), footer)),
            &(head, tail),
        );
        lemma_ready_equiv(cx, d0, &region(e0, footer), &(head, tail));
        lemma_second_ready(cx, d0, &(head, tail));
        lemma_first_ready(cx, d0, &tail);
        lemma_entry_parts(&old_entry);
        lemma_ready_equiv(cx, d0, &old_entry, &old_entry.parts());
        lemma_second_ready(cx, d0, &old_entry.parts());
    }
    with(choice).rebuild(cx, dom, &mut entries[at].state);
    proof {
        let d1 = dom@;
        let entry = entries@[at as int];
        lemma_reused(&choice, cx, d0, &old_entry, d1, &entry);
        assert(framed(cx.parent, d0, d1, &old_entry)) by {
            reveal(framed);
            assert forall|n: NodeId|
                n < d0.len() && n != cx.parent && !old_entry.owns(n)
                    implies #[trigger] d1.nodes[n as int]
                == d0.nodes[n as int] by {
                assert(!old_entry.state().owns(n));
            }
        }
        assert(entries@ =~= e0.update(at as int, entry));
        lemma_second_rebuilt(cx, d0, &old_entry.parts(), d1, &entry.state());
        lemma_entry_parts(&entry);
        lemma_rebuilt_equiv(cx, d0, &old_entry.parts(), d1, &entry.parts(), &old_entry, &entry);
        lemma_first_rebuilt(cx, d0, &tail, d1, &entry);
        lemma_second_rebuilt(cx, d0, &(head, tail), d1, &(entry, rest));
        assert(e0.take(at as int) + (seq![entry] + e0.skip(at + 1)) =~= entries@);
        lemma_region_front(&entry, e0.skip(at + 1), footer);
        lemma_region_split(e0.take(at as int), seq![entry] + e0.skip(at + 1), footer);
        lemma_equiv_pair(
            &head,
            &(entry, rest),
            &head,
            &region(seq![entry] + e0.skip(at + 1), footer),
        );
        lemma_equiv_trans(
            &(head, (entry, rest)),
            &(head, region(seq![entry] + e0.skip(at + 1), footer)),
            &region(entries@, footer),
        );
        lemma_rebuilt_equiv(
            cx,
            d0,
            &(head, tail),
            d1,
            &(head, (entry, rest)),
            &region(e0, footer),
            &region(entries@, footer),
        );
    }
}

/// Whether the nodes of `entry` are in `after` as they are in `before`.
#[verifier::opaque]
pub open spec fn untouched<S: Mounted>(before: DomView, after: DomView, entry: &Entry<S>) -> bool {
    forall|n: NodeId| #[trigger] entry.owns(n) ==> after.nodes[n as int] == before.nodes[n as int]
}

/// Whether a step under `parent` left every node but the parent and those
/// of `touched` as it was.
#[verifier::opaque]
pub open spec fn framed<T: Mounted>(
    parent: NodeId,
    before: DomView,
    after: DomView,
    touched: &T,
) -> bool {
    forall|n: NodeId|
        n < before.len() && n != parent && !touched.owns(n) ==> #[trigger] after.nodes[n as int]
            == before.nodes[n as int]
}

/// No step has touched anything yet.
pub proof fn lemma_untouched_yet<S: Mounted>(dom: DomView, entry: &Entry<S>)
    ensures
        untouched(dom, dom, entry),
{
    reveal(untouched);
}

/// A step that touched another state leaves an untouched entry untouched.
pub proof fn lemma_untouched_step<S: Mounted, R: Mounted, T: Mounted>(
    cx: RebuildCx,
    floor: DomView,
    whole: &R,
    entry: &Entry<S>,
    before: DomView,
    after: DomView,
    touched: &T,
)
    requires
        rebuild_ready(cx, floor, whole),
        entry.inv(floor),
        forall|n: NodeId| #[trigger] entry.owns(n) ==> whole.owns(n),
        floor.len() <= before.len(),
        untouched(floor, before, entry),
        framed(cx.parent, before, after, touched),
        forall|n: NodeId| !(#[trigger] entry.owns(n) && touched.owns(n)),
    ensures
        untouched(floor, after, entry),
{
    reveal(untouched);
    reveal(framed);
    entry.lemma_inv(floor);
    assert forall|n: NodeId| #[trigger] entry.owns(n) implies after.nodes[n as int]
        == floor.nodes[n as int] by {
        assert(whole.owns(n));
        assert(n < floor.len() && cx.parent < n);
        assert(!touched.owns(n));
        assert(after.nodes[n as int] == before.nodes[n as int]);
    }
}

/// A step that touched one entry of a region leaves another entry of the
/// region untouched.
pub proof fn lemma_untouched_other<S: Mounted>(
    cx: RebuildCx,
    floor: DomView,
    entries: Seq<Entry<S>>,
    footer: NodeId,
    kept: int,
    touched: int,
    before: DomView,
    after: DomView,
)
    requires
        rebuild_ready(cx, floor, &region(entries, footer)),
        0 <= kept < entries.len(),
        0 <= touched < entries.len(),
        kept != touched,
        floor.len() <= before.len(),
        untouched(floor, before, &entries[kept]),
        framed(cx.parent, before, after, &entries[touched]),
    ensures
        untouched(floor, after, &entries[kept]),
{
    let run = Run { entries };
    assert(run.entries == entries);
    assert(region(entries, footer).0 == run);
    assert(run.inv(floor));
    assert(run.entries[kept].inv(floor));
    assert forall|n: NodeId| #[trigger] entries[kept].owns(n) implies region(
        entries,
        footer,
    ).owns(n) by {
        assert(run.entries[kept].owns(n));
        assert(run.owns(n));
    }
    assert forall|n: NodeId| !(#[trigger] entries[kept].owns(n) && entries[touched].owns(n)) by {
        assert(!(run.entries[kept].owns(n) && run.entries[touched].owns(n)));
    }
    lemma_untouched_step(
        cx,
        floor,
        &region(entries, footer),
        &entries[kept],
        before,
        after,
        &entries[touched],
    );
}

/// A step that touched no entry of a region leaves every entry of the
/// region untouched.
pub proof fn lemma_untouched_all<S: Mounted>(
    cx: RebuildCx,
    floor: DomView,
    entries: Seq<Entry<S>>,
    footer: NodeId,
    kept: int,
    before: DomView,
    after: DomView,
)
    requires
        rebuild_ready(cx, floor, &region(entries, footer)),
        0 <= kept < entries.len(),
        floor.len() <= before.len(),
        untouched(floor, before, &entries[kept]),
        framed(cx.parent, before, after, &()),
    ensures
        untouched(floor, after, &entries[kept]),
{
    let run = Run { entries };
    assert(run.entries == entries);
    assert(region(entries, footer).0 == run);
    assert(run.inv(floor));
    assert(run.entries[kept].inv(floor));
    assert forall|n: NodeId| #[trigger] entries[kept].owns(n) implies region(
        entries,
        footer,
    ).owns(n) by {
        assert(run.entries[kept].owns(n));
        assert(run.owns(n));
    }
    lemma_untouched_step(cx, floor, &region(entries, footer), &entries[kept], before, after, &());
}

/// Whether `entry` was taken out of `region`: its leading marker and the
/// nodes of its view are detached, and the region owns none of its nodes.
#[verifier::opaque]
pub open spec fn gone<S: Mounted, R: Mounted>(dom: DomView, region: &R, entry: &Entry<S>) -> bool {
    &&& forall|j: int|
        0 <= j < entry.span().len() ==> dom.parent(#[trigger] entry.span()[j]) is None
    &&& forall|n: NodeId| #[trigger] entry.owns(n) ==> !region.owns(n)
}

/// An entry that was taken out of a region stays out when the region is
/// rebuilt.
pub proof fn lemma_gone<S: Mounted, R: Mounted>(
    cx: RebuildCx,
    floor: DomView,
    whole: &R,
    before: DomView,
    old_region: &R,
    after: DomView,
    region: &R,
    entry: &Entry<S>,
)
    requires
        rebuild_ready(cx, floor, whole),
        entry.inv(floor),
        forall|n: NodeId| #[trigger] entry.owns(n) ==> whole.owns(n),
        floor.len() <= before.len(),
        rebuilt(cx, before, old_region, after, region),
        gone(before, old_region, entry),
    ensures
        gone(after, region, entry),
{
    reveal(gone);
    entry.lemma_inv(floor);
    assert forall|n: NodeId| #[trigger] entry.owns(n) implies !region.owns(n)
        && after.nodes[n as int] == before.nodes[n as int] by {
        assert(whole.owns(n));
        assert(n < floor.len() && cx.parent < n);
        assert(!old_region.owns(n));
    }
    assert forall|j: int| 0 <= j < entry.span().len() implies after.parent(
        #[trigger] entry.span()[j],
    ) is None by {
        assert(entry.owns(entry.span()[j]));
        assert(before.parent(entry.span()[j]) is None);
    }
}

/// An entry that was taken out of a region was taken out of whatever owns
/// no more than the region.
pub proof fn lemma_gone_as<S: Mounted, A: Mounted, B: Mounted>(
    dom: DomView,
    region: &A,
    other: &B,
    entry: &Entry<S>,
)
    requires
        gone(dom, region, entry),
        forall|n: NodeId| #[trigger] other.owns(n) ==> region.owns(n),
    ensures
        gone(dom, other, entry),
{
    reveal(gone);
}

/// Takes the entry at index `at` out of the region: detaches its nodes and
/// its leading marker, and drops its state.
pub fn remove_entry<S: ViewMarker>(
    entries: &mut Vec<Entry<S>>,
    footer: NodeId,
    at: usize,
    cx: RebuildCx,
    dom: &mut Dom,
)
    requires
        rebuild_ready(cx, old(dom)@, &region(old(entries)@, footer)),
        at < old(entries)@.len(),
    ensures
        final(entries)@ == old(entries)@.remove(at as int),
        final(dom)@.len() == old(dom)@.len(),
        final(dom)@.parent(old(entries)@[at as int].header()) is None,
        !region(final(entries)@, footer).owns(old(entries)@[at as int].header()),
        gone(final(dom)@, &region(final(entries)@, footer), &old(entries)@[at as int]),
        framed(cx.parent, old(dom)@, final(dom)@, &old(entries)@[at as int]),
        rebuilt(
            cx,
            old(dom)@,
            &region(old(entries)@, footer),
            final(dom)@,
            &region(final(entries)@, footer),
        ),
{
    let ghost d0 = dom@;
    let ghost e0 = entries@;
    let ghost old_entry = e0[at as int];
    let ghost head = Run { entries: e0.take(at as int) };
    let ghost rest = region(e0.skip(at + 1), footer);
    let ghost tail = (Some(old_entry), rest);
    let ghost kids = d0.children(cx.parent);
    proof {
        assert(e0.take(at as int) + (seq![old_entry] + e0.skip(at + 1)) =~= e0);
        lemma_region_front(&old_entry, e0.skip(at + 1), footer);
        lemma_region_split(e0.take(at as int), seq![old_entry] + e0.skip(at + 1), footer);
        lemma_equiv_some(&old_entry);
        lemma_equiv_pair(&old_entry, &rest, &Some(old_entry), &rest);
        lemma_equiv_trans(
            &region(seq![old_entry] + e0.skip(at + 1), footer),
            &(old_entry, rest),
            &tail,
        );
        lemma_equiv_pair(&head, &region(seq![old_entry] + e0.skip(at + 1), footer), &head, &tail);
        lemma_equiv_trans(
            &region(e0, footer),
            &(head, region(seq![old_entry] + e0.skip(at + 1), footer)),
            &(head, tail),
        );
        lemma_ready_equiv(cx, d0, &region(e0, footer), &(head, tail));
        lemma_second_ready(cx, d0, &(head, tail));
        lemma_first_ready(cx, d0, &tail);
        lemma_second_ready(cx, d0, &tail);
        lemma_front(e0.skip(at + 1), footer);
        lemma_front_child(cx, d0, &rest);
        lemma_front_child(cx, d0, &tail);
        assert(tail.span() =~= old_entry.span() + rest.span());
        assert(d0.node_wf(cx.parent));
        let start = offset(kids, tail.span());
        let len = old_entry.span().len() as int;
        assert(kids.subrange(start, start + tail.span().len())[len] == tail.span()[len]);
        lemma_index_of(kids, start + len);
    }
    let count = entries.len();
    let end = if at < count - 1 {
        entries[at + 1].header
    } else {
        footer
    };
    let entry = entries.remove(at);
    clear(dom, cx.parent, entry.header, end);
    let ghost d1 = dom@;
    proof {
        let start = offset(kids, tail.span());
        let len = old_entry.span().len() as int;
        assert(d1.children(cx.parent) =~= kids.take(start + 1) + kids.skip(start + len));
        assert(d1.nodes[entry.header as int] == d0.nodes[entry.header as int]) by {
            old_entry.lemma_inv(d0);
            assert(tail.owns(entry.header));
            lemma_index_of(kids, start);
        }
    }
    dom.remove_child(cx.parent, entry.header);
    proof {
        let d2 = dom@;
        old_entry.lemma_view();
        lemma_remove_front(cx, d0, &old_entry, &rest, d1, d2);
        lemma_equiv_none::<Entry<S>, (Run<S>, Marker)>(&rest);
        lemma_second_rebuilt(cx, d0, &(head, tail), d2, &(None::<Entry<S>>, rest));
        assert(e0.take(at as int) + e0.skip(at + 1) =~= entries@);
        assert(entries@ =~= e0.remove(at as int));
        lemma_region_split(e0.take(at as int), e0.skip(at + 1), footer);
        lemma_equiv_pair(&head, &(None::<Entry<S>>, rest), &head, &rest);
        lemma_equiv_trans(
            &(head, (None::<Entry<S>>, rest)),
            &(head, rest),
            &region(entries@, footer),
        );
        lemma_rebuilt_equiv(
            cx,
            d0,
            &(head, tail),
            d2,
            &(head, (None::<Entry<S>>, rest)),
            &region(e0, footer),
            &region(entries@, footer),
        );
        let header = old_entry.header();
        assert(old_entry.owns(header));
        assert(tail.0.owns(header));
        assert(!(tail.0.owns(header) && tail.1.owns(header)));
        assert(!head.owns(header)) by {
            assert((head, tail).1.owns(header));
            assert(!((head, tail).0.owns(header) && (head, tail).1.owns(header)));
        }
        assert(!(head, (None::<Entry<S>>, rest)).owns(header));
        assert(gone(d2, &region(entries@, footer), &old_entry)) by {
            reveal(gone);
        }
        assert(framed(cx.parent, d0, d2, &old_entry)) by {
            reveal(framed);
        }
    }
}

/// A run with one more entry at its end is the run next to that entry.
pub proof fn lemma_run_push<S: ViewMarker>(entries: Seq<Entry<S>>, entry: &Entry<S>)
    ensures
        equiv(&(Run { entries }, *entry), &Run { entries: entries.push(*entry) }),
{
    let run = Run { entries };
    let single = Run { entries: seq![*entry] };
    lemma_run_single(entry);
    lemma_equiv_pair(&run, entry, &run, &single);
    lemma_run_append(entries, seq![*entry]);
    assert(entries + seq![*entry] =~= entries.push(*entry));
    lemma_equiv_trans(&(run, *entry), &(run, single), &Run { entries: entries.push(*entry) });
}

/// Replacing an entry by one with the same span leaves the spans as they
/// are.
pub proof fn lemma_spans_update<S: Mounted>(entries: Seq<Entry<S>>, at: int, entry: Entry<S>)
    requires
        0 <= at < entries.len(),
        entry.span() == entries[at].span(),
    ensures
        spans(entries.update(at, entry)) == spans(entries),
    decreases entries.len(),
{
    let updated = entries.update(at, entry);
    if at == 0 {
        assert(updated.drop_first() =~= entries.drop_first());
    } else {
        assert(updated.drop_first() =~= entries.drop_first().update(at - 1, entry));
        lemma_spans_update(entries.drop_first(), at - 1, entry);
    }
}

/// Whether delivering the events recorded in `dom` to `entries`, first to
/// last, with handlers that find the data as `output`, may leave the entries
/// as `after` and the data as `done`: every entry reacts to what the
/// entries before it left.
pub open spec fn entries_react<Output, S: State<Output>>(
    entries: Seq<Entry<S>>,
    dom: DomView,
    output: Output,
    after: Seq<Entry<S>>,
    done: Output,
) -> bool
    decreases entries.len(),
{
    &&& after.len() == entries.len()
    &&& if entries.len() == 0 {
        done == output
    } else {
        exists|mid: Output|
            {
                &&& entries_react(entries.drop_last(), dom, output, after.drop_last(), mid)
                &&& after.last().header() == entries.last().header()
                &&& #[trigger] entries.last().state().reacts(
                    silenced(dom, &Run { entries: entries.drop_last() }),
                    &mid,
                    &after.last().state(),
                    &done,
                )
            }
    }
}

/// Delivers the recorded events to every entry, first to last.
pub fn run_entries<Output, S: State<Output>>(
    entries: &mut Vec<Entry<S>>,
    footer: NodeId,
    dom: &mut Dom,
    output: &mut Float<Output>,
)
    requires
        run_ready(&region(old(entries)@, footer), old(dom)@, old(output)),
    ensures
        ran(
            &region(old(entries)@, footer),
            old(dom)@,
            &region(final(entries)@, footer),
            final(dom)@,
            final(output),
        ),
        final(entries)@.len() == old(entries)@.len(),
        forall|i: int|
            0 <= i < final(entries)@.len() ==> (#[trigger] final(entries)@[i]).header() == old(
                entries,
            )@[i].header(),
        entries_react(
            old(entries)@,
            old(dom)@,
            old(output).value(),
            final(entries)@,
            final(output).value(),
        ),
{
    let ghost d0 = dom@;
    let ghost e0 = entries@;
    let ghost o0 = output.value();
    let count = entries.len();
    let mut i: usize = 0;
    proof {
        let r0 = Run { entries: e0 };
        assert(r0.entries == e0);
        let none = Run { entries: e0.take(0) };
        assert(none.entries == e0.take(0));
        lemma_silenced_none(d0, &none);
        assert(entries_react(e0.take(0), d0, o0, entries@.take(0), o0));
    }
    while i < count
        invariant
            i <= count == entries@.len() == e0.len(),
            dom@.wf(),
            dom@.nodes == d0.nodes,
            dom@.log == d0.log,
            dom@.listeners == silenced(d0, &Run { entries: e0.take(i as int) }).listeners,
            entries_react(e0.take(i as int), d0, o0, entries@.take(i as int), output.value()),
            forall|k: int| i <= k < count ==> #[trigger] entries@[k] == e0[k],
            forall|k: int, l: ListenerId|
                0 <= k < count ==> #[trigger] entries@[k].hears(l) == e0[k].hears(l),
            output.is_present(),
            forall|k: int| 0 <= k < count ==> (#[trigger] entries@[k]).inv(dom@),
            forall|k: int| 0 <= k < count ==> (#[trigger] entries@[k]).span() == e0[k].span(),
            forall|k: int| 0 <= k < count ==> (#[trigger] entries@[k]).header() == e0[k].header(),
            forall|k: int| 0 <= k < count ==> (#[trigger] entries@[k]).is_view() == e0[k].is_view(),
            forall|k: int, n: NodeId|
                0 <= k < count ==> #[trigger] entries@[k].owns(n) == e0[k].owns(n),
        decreases count - i,
    {
        let ghost d1 = dom@;
        let ghost e1 = entries@;
        let ghost o1 = output.value();
        assert(e1[i as int].inv(d1));
        entries[i].state.run(dom, output);
        proof {
            let d2 = dom@;
            let at = i as int;
            let front = Run { entries: e0.take(at) };
            let next = Run { entries: e0.take(at + 1) };
            assert(front.entries == e0.take(at) && next.entries == e0.take(at + 1));
            assert(e0.take(at + 1).drop_last() =~= e0.take(at));
            assert(entries@.take(at + 1).drop_last() =~= e1.take(at));
            assert(e0.take(at + 1).last() == e0[at]);
            assert(entries@.take(at + 1).last() == entries@[at]);
            assert forall|l: ListenerId| #[trigger]
                next.hears(l) == (front.hears(l) || e0[at].state().hears(l)) by {
                if next.hears(l) {
                    let k = choose|k: int|
                        0 <= k < next.entries.len() && (#[trigger] next.entries[k]).hears(l);
                    if k < at {
                        assert(front.entries[k].hears(l));
                    }
                }
                if front.hears(l) {
                    let k = choose|k: int|
                        0 <= k < front.entries.len() && (#[trigger] front.entries[k]).hears(l);
                    assert(next.entries[k].hears(l));
                }
                if e0[at].state().hears(l) {
                    assert(next.entries[at].hears(l));
                }
            }
            lemma_silenced_both(d0, &front, &e0[at].state(), &next);
            assert(d1 == silenced(d0, &front));
            assert(Run { entries: e0.take(at + 1).drop_last() } == front);
            assert(entries@[at].header() == e0[at].header());
            assert(e0[at].state().reacts(d1, &o1, &entries@[at].state(), &output.value()));
            assert(entries_react(e0.take(at), d0, o0, e1.take(at), o1));
            let grown = e0.take(at + 1);
            let shown = entries@.take(at + 1);
            assert(grown.drop_last() == e0.take(at));
            assert(shown.drop_last() == e1.take(at));
            assert(entries_react(grown.drop_last(), d0, o0, shown.drop_last(), o1));
            assert(shown.last().header() == grown.last().header());
            assert(grown.last().state().reacts(
                silenced(d0, &Run { entries: grown.drop_last() }),
                &o1,
                &shown.last().state(),
                &output.value(),
            ));
            assert(entries_react(grown, d0, o0, shown, output.value()));
            assert forall|k: int, l: ListenerId|
                0 <= k < count implies #[trigger] entries@[k].hears(l) == e0[k].hears(l) by {
                if k != i {
                    assert(entries@[k] == e1[k]);
                }
                assert(e1[k].hears(l) == e0[k].hears(l));
            }
            assert forall|k: int| 0 <= k < count implies (#[trigger] entries@[k]).inv(d2) by {
                if k != i {
                    assert(entries@[k] == e1[k]);
                    e1[k].lemma_frame(d1, d2);
                }
            }
            assert forall|k: int, n: NodeId| 0 <= k < count implies #[trigger] entries@[k].owns(n)
                == e0[k].owns(n) by {
                if k != i {
                    assert(entries@[k] == e1[k]);
                }
                assert(e1[k].owns(n) == e0[k].owns(n));
            }
            assert forall|k: int| 0 <= k < count implies (#[trigger] entries@[k]).span()
                == e0[k].span() by {
                if k != i {
                    assert(entries@[k] == e1[k]);
                }
                assert(e1[k].span() == e0[k].span());
            }
            assert forall|k: int| 0 <= k < count implies (#[trigger] entries@[k]).is_view()
                == e0[k].is_view() by {
                if k != i {
                    assert(entries@[k] == e1[k]);
                }
                assert(e1[k].is_view() == e0[k].is_view());
            }
            assert forall|k: int| 0 <= k < count implies (#[trigger] entries@[k]).header()
                == e0[k].header() by {
                if k != i {
                    assert(entries@[k] == e1[k]);
                }
                assert(e1[k].header() == e0[k].header());
            }
        }
        i = i + 1;
    }
    proof {
        let r0 = Run { entries: e0 };
        let r1 = Run { entries: entries@ };
        assert(r0.entries == e0 && r1.entries == entries@);
        assert(e0.take(count as int) =~= e0);
        assert(entries@.take(count as int) =~= entries@);
        lemma_silenced_same(d0, &r0, &region(e0, footer));
        assert forall|l: ListenerId| r1.hears(l) == r0.hears(l) by {
            if r1.hears(l) {
                let k = choose|k: int| 0 <= k < entries@.len() && (#[trigger] entries@[k]).hears(l);
                assert(e0[k].hears(l));
            }
            if r0.hears(l) {
                let k = choose|k: int| 0 <= k < e0.len() && (#[trigger] e0[k]).hears(l);
                assert(entries@[k].hears(l));
            }
        }
        lemma_spans_same(e0, entries@);
        assert forall|n: NodeId| r1.owns(n) == r0.owns(n) by {
            if r1.owns(n) {
                let k = choose|k: int| 0 <= k < entries@.len() && (#[trigger] entries@[k]).owns(n);
                assert(e0[k].owns(n));
            }
            if r0.owns(n) {
                let k = choose|k: int| 0 <= k < e0.len() && (#[trigger] e0[k]).owns(n);
                assert(entries@[k].owns(n));
            }
        }
        assert forall|a: int, b: int, n: NodeId|
            0 <= a < entries@.len() && 0 <= b < entries@.len() && a != b implies !(
            #[trigger] entries@[a].owns(n) && #[trigger] entries@[b].owns(n)) by {
            assert(!(e0[a].owns(n) && e0[b].owns(n)));
        }
        assert(r1.is_view() == r0.is_view()) by {
            if r0.is_view() {
                assert forall|k: int| 0 <= k < entries@.len()
                    implies (#[trigger] entries@[k]).is_view() by {
                    assert(e0[k].is_view());
                }
            }
            if r1.is_view() {
                assert forall|k: int| 0 <= k < e0.len() implies (#[trigger] e0[k]).is_view() by {
                    assert(entries@[k].is_view());
                }
            }
        }
        assert forall|n: NodeId|
            !(#[trigger] r1.owns(n) && (Marker { node: footer, data: "|" }).owns(n)) by {
            assert(r1.owns(n) == r0.owns(n));
            assert(!(r0.owns(n) && (Marker { node: footer, data: "|" }).owns(n)));
        }
    }
}

/// Runs of entries with the same spans have the same spans.
pub proof fn lemma_spans_same<S: Mounted>(a: Seq<Entry<S>>, b: Seq<Entry<S>>)
    requires
        a.len() == b.len(),
        forall|k: int| 0 <= k < a.len() ==> (#[trigger] b[k]).span() == a[k].span(),
    ensures
        spans(a) == spans(b),
    decreases a.len(),
{
    if a.len() > 0 {
        assert(b[0].span() == a[0].span());
        assert forall|k: int| 0 <= k < a.drop_first().len()
            implies (#[trigger] b.drop_first()[k]).span()
            == a.drop_first()[k].span() by {
            assert(b[k + 1].span() == a[k + 1].span());
        }
        lemma_spans_same(a.drop_first(), b.drop_first());
    }
}

} // verus!
