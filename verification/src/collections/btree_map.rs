//! A view over an ordered map: one entry for each key, in ascending order
//! of the keys. An entry lives as long as its key stays in the map.

use crate::builder::{
    build_ready, built, lemma_silenced_same, rebuild_ready, rebuilt, BuildCx, Builder, Claims,
    Mounted, RebuildCx, State, ViewMarker,
};
use crate::collections::entries::{
    added, build_entry, carried, entries_react, gone, insert_entry, lemma_added_lower, lemma_gone,
    lemma_gone_as, lemma_reused_lower, lemma_run_push, lemma_spans_update, lemma_untouched_all,
    lemma_untouched_other, lemma_untouched_yet, rebuild_entry, region, remove_entry, reused,
    run_entries, spans, untouched, Entry, Run,
};
use crate::collections::ordered::ordered;
use crate::compose::{
    build_marker, lemma_build_next, lemma_build_pair, lemma_built_as, lemma_built_equiv,
    lemma_built_nothing, lemma_ready_as, lemma_rebuilt_as, lemma_rebuilt_ready, lemma_rebuilt_same,
    lemma_rebuilt_twice,
};
use crate::cx::{chosen, fair, idle, Choice, Cx, Token};
use crate::dom::{Dom, DomView, ListenerId, NodeId};
use crate::float::Float;
use core::marker::PhantomData;
use std::collections::BTreeMap;
use vstd::prelude::*;

verus! {

/// A callback that renders one entry of a map: it chooses a description for
/// the entry and builds it with the context it is handed.
///
/// Every closure that takes a [`Cx`] and references to a key and a value
/// and returns a [`Token`] is one.
///
/// In verified code, give the callback a type of its own that implements
/// this trait: Verus does not unfold `accepts` and `yields` for a closure,
/// so only code that is not verified can hand one over.
pub trait RenderEntry<V, S: Mounted> {
    /// Whether the callback can be called with these arguments.
    spec fn accepts(&self, cx: &Cx<S>, key: &u64, value: &V) -> bool;

    /// Whether the callback, called with these arguments, may return
    /// `token`.
    spec fn yields(&self, cx: &Cx<S>, key: &u64, value: &V, token: &Token<S>) -> bool;

    /// Calls the callback.
    fn render(&self, cx: Cx<S>, key: &u64, value: &V) -> (token: Token<S>)
        requires
            self.accepts(&cx, key, value),
        ensures
            self.yields(&cx, key, value, &token),
    ;
}

impl<V, S: Mounted, F: Fn(Cx<S>, &u64, &V) -> Token<S>> RenderEntry<V, S> for F {
    open spec fn accepts(&self, cx: &Cx<S>, key: &u64, value: &V) -> bool {
        call_requires(*self, (*cx, key, value))
    }

    open spec fn yields(&self, cx: &Cx<S>, key: &u64, value: &V, token: &Token<S>) -> bool {
        call_ensures(*self, (*cx, key, value), *token)
    }

    fn render(&self, cx: Cx<S>, key: &u64, value: &V) -> (token: Token<S>) {
        self(cx, key, value)
    }
}

/// The choice that a [`RenderEntry`] makes for one entry.
pub struct EntryChoice<'a, R, V> {
    pub render: &'a R,
    pub key: u64,
    pub value: &'a V,
}

impl<'a, R: RenderEntry<V, S>, V, S: Mounted> Choice<S> for EntryChoice<'a, R, V> {
    open spec fn accepts(&self, cx: &Cx<S>) -> bool {
        self.render.accepts(cx, &self.key, self.value)
    }

    open spec fn yields(&self, cx: &Cx<S>, token: &Token<S>) -> bool {
        self.render.yields(cx, &self.key, self.value, token)
    }

    fn pick(self, cx: Cx<S>) -> (token: Token<S>) {
        self.render.render(cx, &self.key, self.value)
    }
}

/// Whether `keys` are in strictly ascending order.
pub open spec fn ascending(keys: Seq<u64>) -> bool {
    forall|i: int, j: int| 0 <= i < j < keys.len() ==> keys[i] < keys[j]
}

/// A view over an ordered map.
pub struct BTreeMapBuilder<'data, V, R, S> {
    data: Vec<(u64, &'data V)>,
    render_item: R,
    phantom: PhantomData<S>,
}

/// The state of a [`BTreeMapBuilder`]: the keys last rendered in ascending
/// order, one entry for each, and the footer marker.
pub struct BTreeMapState<S> {
    keys: Vec<u64>,
    data: Vec<Entry<S>>,
    footer: NodeId,
}

impl<S> BTreeMapState<S> {
    /// The keys, in ascending order.
    pub closed spec fn keys(&self) -> Seq<u64> {
        self.keys@
    }

    /// The entries, in the order of their keys.
    pub closed spec fn entries(&self) -> Seq<Entry<S>> {
        self.data@
    }

    /// The marker that closes the region.
    pub closed spec fn footer(&self) -> NodeId {
        self.footer
    }

    /// The number of entries.
    pub fn len(&self) -> (len: usize)
        ensures
            len == self.entries().len(),
    {
        self.data.len()
    }

    /// The key of the entry at `index`.
    pub fn key(&self, index: usize) -> (key: u64)
        requires
            index < self.keys().len(),
        ensures
            key == self.keys()[index as int],
    {
        self.keys[index]
    }

    /// The entry at `index`.
    pub fn entry(&self, index: usize) -> (entry: &Entry<S>)
        requires
            index < self.entries().len(),
        ensures
            *entry == self.entries()[index as int],
    {
        &self.data[index]
    }

    /// The marker that closes the region.
    pub fn footer_id(&self) -> (node: NodeId)
        ensures
            node == self.footer(),
    {
        self.footer
    }
}

impl<S: Mounted> Mounted for BTreeMapState<S> {
    open spec fn span(&self) -> Seq<NodeId> {
        region(self.entries(), self.footer()).span()
    }

    open spec fn owns(&self, n: NodeId) -> bool {
        region(self.entries(), self.footer()).owns(n)
    }

    open spec fn inv(&self, dom: DomView) -> bool {
        &&& region(self.entries(), self.footer()).inv(dom)
        &&& self.keys().len() == self.entries().len()
        &&& ascending(self.keys())
    }

    open spec fn is_view(&self) -> bool {
        region(self.entries(), self.footer()).is_view()
    }

    open spec fn claims(&self) -> Claims {
        region(self.entries(), self.footer()).claims()
    }

    open spec fn settled(&self) -> bool {
        region(self.entries(), self.footer()).settled()
    }

    open spec fn hears(&self, l: ListenerId) -> bool {
        region(self.entries(), self.footer()).hears(l)
    }

    proof fn lemma_inv(&self, dom: DomView) {
        region(self.entries(), self.footer()).lemma_inv(dom);
    }

    proof fn lemma_frame(&self, before: DomView, after: DomView) {
        assert forall|n: NodeId| #[trigger]
            region(self.entries(), self.footer()).owns(n) implies after.nodes[n as int]
            == before.nodes[n as int] by {
            assert(self.owns(n));
        }
        region(self.entries(), self.footer()).lemma_frame(before, after);
    }
}

impl<S: ViewMarker> ViewMarker for BTreeMapState<S> {
    proof fn lemma_view(&self) {
        let run = Run { entries: self.entries() };
        assert(run.entries == self.entries());
        assert forall|i: int| 0 <= i < run.entries.len()
            implies (#[trigger] run.entries[i]).is_view() by {
            run.entries[i].state().lemma_view();
        }
        assert(self.claims() =~= Map::empty());
    }
}

impl<Output, S: State<Output>> State<Output> for BTreeMapState<S> {
    /// The keys and the trailing marker stay, and the entries react in the
    /// order of their keys.
    open spec fn reacts(&self, dom: DomView, output: &Output, after: &Self, done: &Output) -> bool {
        &&& after.keys() == self.keys()
        &&& after.footer() == self.footer()
        &&& entries_react(self.entries(), dom, *output, after.entries(), *done)
    }

    fn run(&mut self, dom: &mut Dom, output: &mut Float<Output>) {
        proof {
            lemma_silenced_same(dom@, &*self, &region(self.entries(), self.footer()));
        }
        run_entries(&mut self.data, self.footer, dom, output);
    }
}

impl<'data, V, R: RenderEntry<V, S>, S: ViewMarker> BTreeMapBuilder<'data, V, R, S> {
    /// The keys to render, in the order of the map.
    pub closed spec fn keys(&self) -> Seq<u64> {
        self.data@.map_values(|pair: (u64, &V)| pair.0)
    }

    /// The values to render, in the order of their keys.
    pub closed spec fn values(&self) -> Seq<V> {
        self.data@.map_values(|pair: (u64, &V)| *pair.1)
    }

    /// The callback that renders an entry.
    pub closed spec fn render_item(&self) -> &R {
        &self.render_item
    }

    /// The choice made for the entry at `index`.
    pub open spec fn choice(&self, index: int) -> EntryChoice<'data, R, V> {
        EntryChoice {
            render: self.render_item(),
            key: self.keys()[index],
            value: &self.values()[index],
        }
    }
}

/// Whether every entry of the new state whose key was among the old keys
/// has the leading marker that the key had before, and every other entry a
/// marker created since.
pub open spec fn kept_or_new<S>(
    old_keys: Seq<u64>,
    old_entries: Seq<Entry<S>>,
    old_len: nat,
    keys: Seq<u64>,
    entries: Seq<Entry<S>>,
) -> bool {
    forall|a: int|
        0 <= a < keys.len() ==> if old_keys.contains(#[trigger] keys[a]) {
            entries[a].header() == old_entries[old_keys.index_of(keys[a])].header()
        } else {
            entries[a].header() >= old_len
        }
}

impl<'data, V, R: RenderEntry<V, S>, S: ViewMarker> Builder for BTreeMapBuilder<'data, V, R, S> {
    type State = BTreeMapState<S>;

    /// The keys are in ascending order and the callback plays by the rules
    /// for every entry.
    open spec fn wf(&self) -> bool {
        &&& ascending(self.keys())
        &&& self.keys().len() == self.values().len()
        &&& forall|i: int| 0 <= i < self.keys().len() ==> fair(&#[trigger] self.choice(i))
    }

    /// The state holds the keys of the map, in the order of the map, and
    /// for each key an entry completed by the callback for that key.
    open spec fn describes(&self, state: &BTreeMapState<S>) -> bool {
        &&& state.keys() == self.keys()
        &&& forall|i: int|
            0 <= i < self.keys().len() ==> (#[trigger] state.entries()[i]).shows(&self.choice(i))
    }

    /// The state holds the keys of the map, and the callback, asked to
    /// rebuild any entry, leaves the backing structure as it is.
    open spec fn matches(&self, state: &BTreeMapState<S>) -> bool {
        &&& state.keys() == self.keys()
        &&& forall|i: int|
            0 <= i < self.keys().len() ==> idle(
                &#[trigger] self.choice(i),
                &state.entries()[i].state(),
            )
    }

    /// The footer stays, and the entry of a key that was there is the entry
    /// that was, rebuilt.
    open spec fn keeps(&self, old_state: &Self::State, state: &Self::State) -> bool {
        &&& state.footer() == old_state.footer()
        &&& forall|a: int|
            0 <= a < state.keys().len() && old_state.keys().contains(#[trigger] state.keys()[a])
                ==> carried(
                &self.choice(a),
                &old_state.entries()[old_state.keys().index_of(state.keys()[a])],
                &state.entries()[a],
            )
    }

    /// The callback, asked to rebuild a state that it completed for an
    /// element, leaves the backing structure as it is.
    open spec fn steady(&self) -> bool {
        forall|i: int, state: Float<S>|
            0 <= i < self.keys().len() && state@ is Some && chosen(&self.choice(i), &state.value())
                ==> #[trigger] idle(&self.choice(i), &state)
    }

    proof fn lemma_steady(&self, state: &BTreeMapState<S>) {
        assert forall|i: int| 0 <= i < self.keys().len() implies idle(
            &#[trigger] self.choice(i),
            &state.entries()[i].state(),
        ) by {
            assert(state.entries()[i].shows(&self.choice(i)));
        }
    }

    /// Builds an entry for each key in ascending order, each behind a
    /// leading marker of its own, and the footer marker behind them all.
    fn build(self, cx: BuildCx, dom: &mut Dom) -> (state: BTreeMapState<S>)
        ensures
            forall|k: int|
                0 <= k < state.entries().len() ==> added(
                    &self.choice(k),
                    old(dom)@.len(),
                    &#[trigger] state.entries()[k],
                ),
    {
        let ghost d0 = dom@;
        let mut keys: Vec<u64> = Vec::new();
        let mut data: Vec<Entry<S>> = Vec::new();
        let count = self.data.len();
        let mut i: usize = 0;
        proof {
            let run = Run { entries: data@ };
            assert(run.entries == data@);
            assert(spans(data@) =~= Seq::empty());
            lemma_built_nothing(cx, d0, &run);
        }
        while i < count
            invariant
                i <= count == self.keys().len(),
                count == self.data@.len(),
                i == data@.len(),
                keys@ == self.keys().take(i as int),
                self.wf(),
                build_ready(cx, d0),
                built(cx, d0, dom@, &Run { entries: data@ }),
                forall|k: int| 0 <= k < i ==> (#[trigger] data@[k]).shows(&self.choice(k)),
                forall|k: int|
                    0 <= k < i ==> added(&self.choice(k), d0.len(), &#[trigger] data@[k]),
            decreases count - i,
        {
            let ghost d1 = dom@;
            let ghost e1 = data@;
            let key = self.data[i].0;
            let choice = EntryChoice { render: &self.render_item, key, value: self.data[i].1 };
            proof {
                assert(choice == self.choice(i as int));
                lemma_build_next(cx, d0, d1, &Run { entries: e1 });
            }
            let entry = build_entry(choice, cx, dom);
            data.push(entry);
            keys.push(key);
            proof {
                lemma_build_pair(cx, d0, d1, dom@, &(Run { entries: e1 }, entry));
                lemma_run_push(e1, &entry);
                lemma_built_equiv(
                    cx,
                    d0,
                    dom@,
                    &(Run { entries: e1 }, entry),
                    &Run { entries: data@ },
                );
                assert(keys@ =~= self.keys().take(i + 1));
                assert forall|k: int| 0 <= k < i + 1 implies (#[trigger] data@[k]).shows(
                    &self.choice(k),
                ) by {
                    if k < i {
                        assert(data@[k] == e1[k]);
                    }
                }
                assert forall|k: int| 0 <= k < i + 1 implies added(
                    &self.choice(k),
                    d0.len(),
                    &#[trigger] data@[k],
                ) by {
                    if k < i {
                        assert(data@[k] == e1[k]);
                    } else {
                        lemma_added_lower(&self.choice(k), d1.len(), d0.len(), &data@[k]);
                    }
                }
            }
            i = i + 1;
        }
        let ghost d2 = dom@;
        proof {
            lemma_build_next(cx, d0, d2, &Run { entries: data@ });
            assert(keys@ =~= self.keys());
        }
        let footer = build_marker("|", cx, dom);
        let state = BTreeMapState { keys, data, footer: footer.node };
        proof {
            lemma_build_pair(cx, d0, d2, dom@, &region(state.entries(), state.footer()));
            lemma_built_as(cx, d0, dom@, &region(state.entries(), state.footer()), &state);
        }
        state
    }

    /// Merges the keys last rendered with the keys of the map, both in
    /// ascending order: an entry whose key is still there is rebuilt in
    /// place, an entry whose key is gone is taken out together with its
    /// leading marker, and an entry for a new key is built in front of the
    /// entry with the next greater key, or in front of the footer.
    ///
    /// The entry of a key that stays keeps its leading marker, and its state
    /// is what the callback made of the state it had; where the callback
    /// was idle, its nodes are as they were. The entry of a new key is made
    /// of new nodes, and the nodes of an entry that was taken out are
    /// detached.
    #[verifier::rlimit(60)]
    fn rebuild(self, cx: RebuildCx, dom: &mut Dom, state: &mut BTreeMapState<S>)
        ensures
            final(state).footer() == old(state).footer(),
            kept_or_new(
                old(state).keys(),
                old(state).entries(),
                old(dom)@.len(),
                final(state).keys(),
                final(state).entries(),
            ),
            forall|b: int|
                0 <= b < old(state).keys().len() && !final(state).keys().contains(
                    #[trigger] old(state).keys()[b],
                ) ==> final(dom)@.parent(old(state).entries()[b].header()) is None,
            forall|a: int|
                0 <= a < final(state).keys().len() ==> if old(state).keys().contains(
                    #[trigger] final(state).keys()[a],
                ) {
                    reused(
                        &self.choice(a),
                        cx,
                        old(dom)@.len(),
                        &old(state).entries()[old(state).keys().index_of(final(state).keys()[a])],
                        &final(state).entries()[a],
                    )
                } else {
                    added(&self.choice(a), old(dom)@.len(), &final(state).entries()[a])
                },
            forall|b: int|
                0 <= b < old(state).keys().len() && !final(state).keys().contains(
                    #[trigger] old(state).keys()[b],
                ) ==> gone(final(dom)@, final(state), &old(state).entries()[b]),
            forall|a: int|
                0 <= a < final(state).keys().len() && old(state).keys().contains(
                    #[trigger] final(state).keys()[a],
                ) && idle(
                    &self.choice(a),
                    &old(state).entries()[old(state).keys().index_of(
                        final(state).keys()[a],
                    )].state(),
                ) ==> untouched(
                    old(dom)@,
                    final(dom)@,
                    &old(state).entries()[old(state).keys().index_of(final(state).keys()[a])],
                ),
    {
        let ghost d0 = dom@;
        let ghost s0 = *state;
        let ghost k0 = state.keys@;
        let ghost e0 = state.data@;
        let ghost src = self.keys();
        let footer = state.footer;
        let ghost r0 = region(e0, footer);
        let count = self.data.len();
        proof {
            lemma_ready_as(cx, d0, &s0, &r0);
            lemma_rebuilt_same(cx, d0, &r0);
            assert(state.keys@.skip(0) =~= k0);
            assert(state.data@.skip(0) =~= e0);
            assert(state.keys@.take(0) =~= src.take(0));
        }
        proof {
            assert forall|b: int| 0 <= b < e0.len() implies untouched(
                d0,
                d0,
                &#[trigger] e0[b],
            ) by {
                lemma_untouched_yet(d0, &e0[b]);
            }
        }
        let mut i: usize = 0;
        let mut j: usize = 0;
        let ghost mut c: int = 0;
        while i < state.data.len() || j < count
            invariant
                i <= state.data@.len() == state.keys@.len(),
                j <= count == src.len(),
                count == self.data@.len(),
                src == self.keys(),
                0 <= c <= e0.len() == k0.len(),
                state.footer == footer,
                s0.keys() == k0,
                s0.entries() == e0,
                r0 == region(e0, footer),
                self.wf(),
                ascending(k0),
                state.keys@.take(i as int) == src.take(j as int),
                state.keys@.skip(i as int) == k0.skip(c),
                state.data@.skip(i as int) == e0.skip(c),
                rebuild_ready(cx, d0, &r0),
                rebuilt(cx, d0, &r0, dom@, &region(state.data@, footer)),
                forall|b: int, a: int| 0 <= b < c && j <= a < count ==> k0[b] < src[a],
                forall|a: int|
                    0 <= a < i ==> if k0.contains(#[trigger] state.keys@[a]) {
                        state.data@[a].header() == e0[k0.index_of(state.keys@[a])].header()
                    } else {
                        state.data@[a].header() >= d0.len()
                    },
                self.matches(&s0) ==> i == j && c == i && dom@ == d0 && spans(state.data@)
                    == spans(e0),
                i == j,
                dom@.len() >= d0.len(),
                forall|a: int, b: int| 0 <= a < i && c <= b < k0.len() ==> state.keys@[a] < k0[b],
                forall|b: int| c <= b < e0.len() ==> untouched(d0, dom@, &#[trigger] e0[b]),
                forall|a: int|
                    0 <= a < i && k0.contains(#[trigger] state.keys@[a]) && idle(
                        &self.choice(a),
                        &e0[k0.index_of(state.keys@[a])].state(),
                    ) ==> untouched(d0, dom@, &e0[k0.index_of(state.keys@[a])]),
                forall|a: int|
                    0 <= a < i ==> if k0.contains(#[trigger] state.keys@[a]) {
                        reused(
                            &self.choice(a),
                            cx,
                            d0.len(),
                            &e0[k0.index_of(state.keys@[a])],
                            &state.data@[a],
                        )
                    } else {
                        added(&self.choice(a), d0.len(), &state.data@[a])
                    },
                forall|b: int|
                    0 <= b < c ==> state.keys@.take(i as int).contains(#[trigger] k0[b]) || gone(
                        dom@,
                        &region(state.data@, footer),
                        &e0[b],
                    ),
                forall|a: int| 0 <= a < i ==> (#[trigger] state.data@[a]).shows(&self.choice(a)),
                forall|b: int|
                    0 <= b < c ==> state.keys@.take(i as int).contains(#[trigger] k0[b]) || (
                    dom@.parent(e0[b].header()) is None && !region(state.data@, footer).owns(
                        e0[b].header(),
                    ) && e0[b].header() < d0.len() && e0[b].header() != cx.parent),
            decreases (state.data@.len() - i) + (count - j),
        {
            let ghost d1 = dom@;
            let ghost e1 = state.data@;
            let ghost k1 = state.keys@;
            let existing = i < state.data.len();
            proof {
                lemma_rebuilt_ready(cx, d0, &r0, d1, &region(e1, footer));
                if existing {
                    assert(k1[i as int] == k1.skip(i as int)[0]);
                    assert(e1[i as int] == e1.skip(i as int)[0]);
                    assert(k1[i as int] == k0[c]);
                    assert(e1[i as int] == e0[c]);
                }
                if j < count {
                    assert(self.data@[j as int].0 == src[j as int]);
                }
            }
            if j < count && existing && self.data[j].0 == state.keys[i] {
                let key = self.data[j].0;
                let choice = EntryChoice { render: &self.render_item, key, value: self.data[j].1 };
                proof {
                    assert(choice == self.choice(j as int));
                }
                rebuild_entry(&mut state.data, footer, i, choice, cx, dom);
                proof {
                    lemma_rebuilt_twice(
                        cx,
                        d0,
                        &r0,
                        d1,
                        &region(e1, footer),
                        dom@,
                        &region(state.data@, footer),
                    );
                    assert forall|a: int| 0 <= a < i + 1 implies (#[trigger] state.data@[a]).shows(
                        &self.choice(a),
                    ) by {
                        if a != i {
                            assert(state.data@[a] == e1[a]);
                        }
                    }
                    assert(k1.take(i + 1) =~= src.take(j + 1)) by {
                        assert(k1.take(i + 1) =~= k1.take(i as int).push(k1[i as int]));
                        assert(src.take(j + 1) =~= src.take(j as int).push(src[j as int]));
                    }
                    assert(k1.skip(i + 1) =~= k0.skip(c + 1)) by {
                        assert(k1.skip(i + 1) =~= k1.skip(i as int).skip(1));
                        assert(k0.skip(c + 1) =~= k0.skip(c).skip(1));
                    }
                    assert(state.data@.skip(i + 1) =~= e0.skip(c + 1)) by {
                        assert(state.data@.skip(i + 1) =~= e1.skip(i as int).skip(1));
                        assert(e0.skip(c + 1) =~= e0.skip(c).skip(1));
                    }
                    assert(k0.contains(k1[i as int]));
                    lemma_ascending_index(k0, c);
                    assert forall|a: int| 0 <= a < i + 1 implies if k0.contains(
                        #[trigger] state.keys@[a],
                    ) {
                        state.data@[a].header() == e0[k0.index_of(state.keys@[a])].header()
                    } else {
                        state.data@[a].header() >= d0.len()
                    } by {
                        if a < i {
                            assert(state.data@[a] == e1[a]);
                        }
                    }
                    if self.matches(&s0) {
                        assert(idle(&self.choice(j as int), &s0.entries()[j as int].state()));
                        lemma_spans_update(e1, i as int, state.data@[i as int]);
                    }
                    assert forall|a: int, b: int|
                        0 <= a < i + 1 && c + 1 <= b < k0.len() implies state.keys@[a] < k0[b] by {
                        if a < i {
                            assert(state.keys@[a] == k1[a]);
                        } else {
                            assert(state.keys@[a] == k0[c]);
                        }
                    }
                    assert forall|b: int| c + 1 <= b < e0.len() implies untouched(
                        d0,
                        dom@,
                        &#[trigger] e0[b],
                    ) by {
                        lemma_untouched_other(cx, d0, e0, footer, b, c, d1, dom@);
                    }
                    assert forall|a: int|
                        0 <= a < i + 1 && k0.contains(#[trigger] state.keys@[a]) && idle(
                            &self.choice(a),
                            &e0[k0.index_of(state.keys@[a])].state(),
                        ) implies untouched(d0, dom@, &e0[k0.index_of(state.keys@[a])]) by {
                        let at = k0.index_of(state.keys@[a]);
                        assert(k0[at] == state.keys@[a]);
                        if a < i {
                            assert(state.keys@[a] == k1[a]);
                            assert(k1[a] < k0[c]);
                            lemma_untouched_other(cx, d0, e0, footer, at, c, d1, dom@);
                        } else {
                            assert(at == c);
                            assert(dom@ == d1);
                        }
                    }
                    assert forall|a: int| 0 <= a < i + 1 implies if k0.contains(
                        #[trigger] state.keys@[a],
                    ) {
                        reused(
                            &self.choice(a),
                            cx,
                            d0.len(),
                            &e0[k0.index_of(state.keys@[a])],
                            &state.data@[a],
                        )
                    } else {
                        added(&self.choice(a), d0.len(), &state.data@[a])
                    } by {
                        if a < i {
                            assert(state.data@[a] == e1[a]);
                        } else {
                            lemma_reused_lower(
                                &self.choice(a),
                                cx,
                                d1.len(),
                                d0.len(),
                                &e0[c],
                                &state.data@[a],
                            );
                        }
                    }
                    assert forall|b: int| 0 <= b < c + 1 implies state.keys@.take(
                        i + 1,
                    ).contains(#[trigger] k0[b]) || gone(
                        dom@,
                        &region(state.data@, footer),
                        &e0[b],
                    ) by {
                        if b == c {
                            assert(state.keys@.take(i + 1)[i as int] == k0[c]);
                        } else {
                            lemma_step_gone(
                                cx,
                                d0,
                                e0,
                                footer,
                                d1,
                                e1,
                                dom@,
                                state.data@,
                                k1.take(i as int),
                                state.keys@.take(i + 1),
                                k0[b],
                                b,
                            );
                        }
                    }
                    assert forall|b: int| 0 <= b < c + 1 implies state.keys@.take(
                        i + 1,
                    ).contains(#[trigger] k0[b]) || (dom@.parent(e0[b].header()) is None
                        && !region(state.data@, footer).owns(e0[b].header()) && e0[b].header()
                        < d0.len() && e0[b].header() != cx.parent) by {
                        if b == c {
                            assert(state.keys@.take(i + 1)[i as int] == k0[c]);
                        } else {
                            lemma_step_keeps(
                                cx,
                                d1,
                                e1,
                                footer,
                                dom@,
                                state.data@,
                                k1.take(i as int),
                                state.keys@.take(i + 1),
                                k0[b],
                                e0[b].header(),
                                d0.len(),
                            );
                        }
                    }
                    c = c + 1;
                }
                i = i + 1;
                j = j + 1;
            } else if j < count && (!existing || self.data[j].0 < state.keys[i]) {
                let key = self.data[j].0;
                let choice = EntryChoice { render: &self.render_item, key, value: self.data[j].1 };
                proof {
                    assert(choice == self.choice(j as int));
                    if self.matches(&s0) {
                        assert(k0 == src);
                        assert(k1.take(i as int).len() == i);
                    }
                }
                insert_entry(&mut state.data, footer, i, choice, cx, dom);
                state.keys.insert(i, key);
                proof {
                    lemma_rebuilt_twice(
                        cx,
                        d0,
                        &r0,
                        d1,
                        &region(e1, footer),
                        dom@,
                        &region(state.data@, footer),
                    );
                    assert forall|a: int| 0 <= a < i + 1 implies (#[trigger] state.data@[a]).shows(
                        &self.choice(a),
                    ) by {
                        if a < i {
                            assert(state.data@[a] == e1[a]);
                        }
                    }
                    assert(state.keys@.take(i + 1) =~= src.take(j + 1)) by {
                        assert(state.keys@.take(i + 1) =~= k1.take(i as int).push(key));
                        assert(src.take(j + 1) =~= src.take(j as int).push(src[j as int]));
                    }
                    assert(state.keys@.skip(i + 1) =~= k1.skip(i as int));
                    assert(state.data@.skip(i + 1) =~= e1.skip(i as int));
                    assert(!k0.contains(key)) by {
                        if k0.contains(key) {
                            let b = k0.index_of(key);
                            assert(k0[b] == key);
                            if b < c {
                                assert(k0[b] < src[j as int]);
                            } else if existing {
                                assert(key < k0[c]);
                                assert(b == c || k0[c] < k0[b]);
                            }
                        }
                    }
                    assert forall|a: int, b: int|
                        0 <= a < i + 1 && c <= b < k0.len() implies state.keys@[a] < k0[b] by {
                        if a < i {
                            assert(state.keys@[a] == k1[a]);
                        } else {
                            assert(state.keys@[a] == key);
                            assert(existing);
                            assert(key < k0[c]);
                        }
                    }
                    assert forall|b: int| c <= b < e0.len() implies untouched(
                        d0,
                        dom@,
                        &#[trigger] e0[b],
                    ) by {
                        lemma_untouched_all(cx, d0, e0, footer, b, d1, dom@);
                    }
                    assert forall|a: int|
                        0 <= a < i + 1 && k0.contains(#[trigger] state.keys@[a]) && idle(
                            &self.choice(a),
                            &e0[k0.index_of(state.keys@[a])].state(),
                        ) implies untouched(d0, dom@, &e0[k0.index_of(state.keys@[a])]) by {
                        let at = k0.index_of(state.keys@[a]);
                        assert(k0[at] == state.keys@[a]);
                        if a < i {
                            assert(state.keys@[a] == k1[a]);
                        }
                        lemma_untouched_all(cx, d0, e0, footer, at, d1, dom@);
                    }
                    assert forall|a: int| 0 <= a < i + 1 implies if k0.contains(
                        #[trigger] state.keys@[a],
                    ) {
                        reused(
                            &self.choice(a),
                            cx,
                            d0.len(),
                            &e0[k0.index_of(state.keys@[a])],
                            &state.data@[a],
                        )
                    } else {
                        added(&self.choice(a), d0.len(), &state.data@[a])
                    } by {
                        if a < i {
                            assert(state.data@[a] == e1[a]);
                            assert(state.keys@[a] == k1[a]);
                        } else {
                            lemma_added_lower(
                                &self.choice(a),
                                d1.len(),
                                d0.len(),
                                &state.data@[a],
                            );
                        }
                    }
                    assert forall|b: int| 0 <= b < c implies state.keys@.take(
                        i + 1,
                    ).contains(#[trigger] k0[b]) || gone(
                        dom@,
                        &region(state.data@, footer),
                        &e0[b],
                    ) by {
                            lemma_step_gone(
                                cx,
                                d0,
                                e0,
                                footer,
                                d1,
                                e1,
                                dom@,
                                state.data@,
                                k1.take(i as int),
                                state.keys@.take(i + 1),
                                k0[b],
                                b,
                            );
                    }
                    assert forall|a: int| 0 <= a < i + 1 implies if k0.contains(
                        #[trigger] state.keys@[a],
                    ) {
                        state.data@[a].header() == e0[k0.index_of(state.keys@[a])].header()
                    } else {
                        state.data@[a].header() >= d0.len()
                    } by {
                        if a < i {
                            assert(state.data@[a] == e1[a]);
                            assert(state.keys@[a] == k1[a]);
                        }
                    }
                    assert forall|b: int| 0 <= b < c implies state.keys@.take(i + 1).contains(
                        #[trigger] k0[b],
                    ) || (dom@.parent(e0[b].header()) is None && !region(
                        state.data@,
                        footer,
                    ).owns(e0[b].header()) && e0[b].header() < d0.len() && e0[b].header()
                        != cx.parent) by {
                        lemma_step_keeps(
                            cx,
                            d1,
                            e1,
                            footer,
                            dom@,
                            state.data@,
                            k1.take(i as int),
                            state.keys@.take(i + 1),
                            k0[b],
                            e0[b].header(),
                            d0.len(),
                        );
                    }
                }
                i = i + 1;
                j = j + 1;
            } else {
                proof {
                    if self.matches(&s0) {
                        assert(k0 == src);
                        assert(k1.take(i as int).len() == i);
                    }
                }
                remove_entry(&mut state.data, footer, i, cx, dom);
                state.keys.remove(i);
                proof {
                    lemma_rebuilt_twice(
                        cx,
                        d0,
                        &r0,
                        d1,
                        &region(e1, footer),
                        dom@,
                        &region(state.data@, footer),
                    );
                    assert forall|a: int| 0 <= a < i implies (#[trigger] state.data@[a]).shows(
                        &self.choice(a),
                    ) by {
                        assert(state.data@[a] == e1[a]);
                    }
                    assert(state.keys@.take(i as int) =~= k1.take(i as int));
                    assert(state.keys@.skip(i as int) =~= k0.skip(c + 1)) by {
                        assert(state.keys@.skip(i as int) =~= k1.skip(i as int).skip(1));
                        assert(k0.skip(c + 1) =~= k0.skip(c).skip(1));
                    }
                    assert(state.data@.skip(i as int) =~= e0.skip(c + 1)) by {
                        assert(state.data@.skip(i as int) =~= e1.skip(i as int).skip(1));
                        assert(e0.skip(c + 1) =~= e0.skip(c).skip(1));
                    }
                    assert forall|a: int, b: int|
                        0 <= a < i && c + 1 <= b < k0.len() implies state.keys@[a] < k0[b] by {
                        assert(state.keys@[a] == k1[a]);
                    }
                    assert forall|b: int| c + 1 <= b < e0.len() implies untouched(
                        d0,
                        dom@,
                        &#[trigger] e0[b],
                    ) by {
                        lemma_untouched_other(cx, d0, e0, footer, b, c, d1, dom@);
                    }
                    assert forall|a: int|
                        0 <= a < i && k0.contains(#[trigger] state.keys@[a]) && idle(
                            &self.choice(a),
                            &e0[k0.index_of(state.keys@[a])].state(),
                        ) implies untouched(d0, dom@, &e0[k0.index_of(state.keys@[a])]) by {
                        let at = k0.index_of(state.keys@[a]);
                        assert(k0[at] == state.keys@[a]);
                        assert(state.keys@[a] == k1[a]);
                        assert(k1[a] < k0[c]);
                        lemma_untouched_other(cx, d0, e0, footer, at, c, d1, dom@);
                    }
                    assert forall|a: int| 0 <= a < i implies if k0.contains(
                        #[trigger] state.keys@[a],
                    ) {
                        reused(
                            &self.choice(a),
                            cx,
                            d0.len(),
                            &e0[k0.index_of(state.keys@[a])],
                            &state.data@[a],
                        )
                    } else {
                        added(&self.choice(a), d0.len(), &state.data@[a])
                    } by {
                        assert(state.data@[a] == e1[a]);
                        assert(state.keys@[a] == k1[a]);
                    }
                    assert forall|b: int| 0 <= b < c + 1 implies state.keys@.take(
                        i as int,
                    ).contains(#[trigger] k0[b]) || gone(
                        dom@,
                        &region(state.data@, footer),
                        &e0[b],
                    ) by {
                        if b < c {
                            lemma_step_gone(
                                cx,
                                d0,
                                e0,
                                footer,
                                d1,
                                e1,
                                dom@,
                                state.data@,
                                k1.take(i as int),
                                state.keys@.take(i as int),
                                k0[b],
                                b,
                            );
                        } else {
                            assert(e0[c] == e1[i as int]);
                        }
                    }
                    assert forall|a: int| 0 <= a < i implies if k0.contains(
                        #[trigger] state.keys@[a],
                    ) {
                        state.data@[a].header() == e0[k0.index_of(state.keys@[a])].header()
                    } else {
                        state.data@[a].header() >= d0.len()
                    } by {
                        assert(state.data@[a] == e1[a]);
                        assert(state.keys@[a] == k1[a]);
                    }
                    assert forall|b: int| 0 <= b < c + 1 implies state.keys@.take(
                        i as int,
                    ).contains(#[trigger] k0[b]) || (dom@.parent(e0[b].header()) is None
                        && !region(state.data@, footer).owns(e0[b].header()) && e0[b].header()
                        < d0.len() && e0[b].header() != cx.parent) by {
                        if b < c {
                            lemma_step_keeps(
                                cx,
                                d1,
                                e1,
                                footer,
                                dom@,
                                state.data@,
                                k1.take(i as int),
                                state.keys@.take(i as int),
                                k0[b],
                                e0[b].header(),
                                d0.len(),
                            );
                        } else {
                            let gone = e0[c];
                            assert(gone == e1[i as int]);
                            r0.lemma_inv(d0);
                            assert(r0.0.entries == e0);
                            assert(gone.owns(gone.header()));
                            assert(r0.0.entries[c].owns(gone.header()));
                            assert(r0.0.owns(gone.header()));
                            assert(r0.owns(gone.header()));
                        }
                    }
                    c = c + 1;
                }
            }
        }
        proof {
            assert(state.keys@ =~= state.keys@.take(i as int));
            assert(src =~= src.take(j as int));
            lemma_rebuilt_as(cx, d0, &r0, dom@, &region(state.data@, footer), &s0, &*state);
            assert forall|b: int|
                0 <= b < k0.len() && !state.keys@.contains(#[trigger] k0[b]) implies gone(
                dom@,
                &*state,
                &e0[b],
            ) by {
                assert(e0.skip(c).len() == 0);
                lemma_gone_as(dom@, &region(state.data@, footer), &*state, &e0[b]);
            }
        }
    }
}

/// One step of a rebuild keeps what holds of a key that was dealt with: it
/// is still among the keys that were kept, or its entry is still taken out
/// of the region.
pub proof fn lemma_step_gone<S: Mounted>(
    cx: RebuildCx,
    floor: DomView,
    whole: Seq<Entry<S>>,
    footer: NodeId,
    before: DomView,
    old_entries: Seq<Entry<S>>,
    after: DomView,
    entries: Seq<Entry<S>>,
    old_kept: Seq<u64>,
    kept: Seq<u64>,
    key: u64,
    at: int,
)
    requires
        rebuild_ready(cx, floor, &region(whole, footer)),
        0 <= at < whole.len(),
        floor.len() <= before.len(),
        rebuilt(cx, before, &region(old_entries, footer), after, &region(entries, footer)),
        old_kept.is_prefix_of(kept),
        old_kept.contains(key) || gone(before, &region(old_entries, footer), &whole[at]),
    ensures
        kept.contains(key) || gone(after, &region(entries, footer), &whole[at]),
{
    if old_kept.contains(key) {
        let a = old_kept.index_of(key);
        assert(kept[a] == key);
    } else {
        let run = Run { entries: whole };
        assert(run.entries == whole);
        assert(region(whole, footer).0 == run);
        assert(run.inv(floor));
        assert(run.entries[at].inv(floor));
        assert forall|n: NodeId| #[trigger] whole[at].owns(n) implies region(whole, footer).owns(
            n,
        ) by {
            assert(run.entries[at].owns(n));
            assert(run.owns(n));
        }
        lemma_gone(
            cx,
            floor,
            &region(whole, footer),
            before,
            &region(old_entries, footer),
            after,
            &region(entries, footer),
            &whole[at],
        );
    }
}

/// One step of a rebuild keeps what holds of a key that was dealt with: it
/// is still among the keys that were kept, or its leading marker is still
/// detached and not part of the region.
pub proof fn lemma_step_keeps<S: Mounted>(
    cx: RebuildCx,
    before: DomView,
    old_entries: Seq<Entry<S>>,
    footer: NodeId,
    after: DomView,
    entries: Seq<Entry<S>>,
    old_kept: Seq<u64>,
    kept: Seq<u64>,
    key: u64,
    header: NodeId,
    floor: nat,
)
    requires
        rebuilt(cx, before, &region(old_entries, footer), after, &region(entries, footer)),
        floor <= before.len(),
        old_kept.is_prefix_of(kept),
        old_kept.contains(key) || (before.parent(header) is None && !region(
            old_entries,
            footer,
        ).owns(header) && header < floor && header != cx.parent),
    ensures
        kept.contains(key) || (after.parent(header) is None && !region(entries, footer).owns(
            header,
        ) && header < floor && header != cx.parent),
{
    if old_kept.contains(key) {
        let a = old_kept.index_of(key);
        assert(kept[a] == key);
    } else {
        assert(after.nodes[header as int] == before.nodes[header as int]);
    }
}

/// In an ascending sequence a key is found where it is.
pub proof fn lemma_ascending_index(keys: Seq<u64>, at: int)
    requires
        ascending(keys),
        0 <= at < keys.len(),
    ensures
        keys.index_of(keys[at]) == at,
{
    let found = keys.index_of(keys[at]);
    assert(keys.contains(keys[at]));
    if found < at {
        assert(keys[found] < keys[at]);
    } else if found > at {
        assert(keys[at] < keys[found]);
    }
}

/// A view over `data` that renders each entry with `render_item`, in
/// ascending order of the keys.
pub fn btree_map<'data, V, R: RenderEntry<V, S>, S: ViewMarker>(
    data: &'data BTreeMap<u64, V>,
    render_item: R,
) -> (view: BTreeMapBuilder<'data, V, R, S>)
    ensures
        ascending(view.keys()),
        view.keys().len() == data@.len(),
        view.values().len() == data@.len(),
        forall|i: int|
            0 <= i < view.keys().len() ==> data@.contains_key(#[trigger] view.keys()[i])
                && data@[view.keys()[i]] == view.values()[i],
        *view.render_item() == render_item,
{
    let pairs = ordered(data);
    let view = BTreeMapBuilder { data: pairs, render_item, phantom: PhantomData };
    proof {
        assert(view.keys() =~= pairs@.map_values(|pair: (u64, &V)| pair.0));
        assert forall|i: int| 0 <= i < view.keys().len() implies data@.contains_key(
            #[trigger] view.keys()[i],
        ) && data@[view.keys()[i]] == view.values()[i] by {
            assert(view.keys()[i] == pairs@[i].0);
            assert(view.values()[i] == *pairs@[i].1);
        }
    }
    view
}

} // verus!
