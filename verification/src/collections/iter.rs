//! A view over a sequence of owned items: one entry for each item,
//! addressed by position.

use crate::builder::{
    build_ready, built, rebuild_ready, rebuilt, BuildCx, Builder, Mounted, RebuildCx, State,
    ViewMarker,
};
use crate::collections::entries::{
    added, build_entry, carried, gone, insert_entry, lemma_added_lower, lemma_gone, lemma_gone_as,
    lemma_reused_lower, lemma_run_push, lemma_spans_update, lemma_untouched_all,
    lemma_untouched_other, lemma_untouched_yet, rebuild_entry, region, remove_entry, reused, spans,
    untouched, Entry, Run,
};
use crate::collections::slice::{kept_or_appended, lemma_state_region, SliceState};
use crate::compose::{
    build_marker, lemma_build_next, lemma_build_pair, lemma_built_equiv, lemma_built_nothing,
    lemma_ready_equiv, lemma_rebuilt_equiv, lemma_rebuilt_ready, lemma_rebuilt_same,
    lemma_rebuilt_twice,
};
use crate::cx::{chosen, fair, idle, Choice, Cx, Token};
use crate::dom::{Dom, NodeId};
use crate::float::Float;
use core::marker::PhantomData;
use vstd::prelude::*;

verus! {

/// A callback that renders one owned item of a sequence: it chooses a
/// description for the item and builds it with the context it is handed.
///
/// Every closure that takes a [`Cx`], an index and an item and returns a
/// [`Token`] is one.
///
/// In verified code, give the callback a type of its own that implements
/// this trait: Verus does not unfold `accepts` and `yields` for a closure,
/// so only code that is not verified can hand one over.
pub trait RenderOwned<T, S: Mounted> {
    /// Whether the callback can be called with these arguments.
    spec fn accepts(&self, cx: &Cx<S>, index: usize, item: &T) -> bool;

    /// Whether the callback, called with these arguments, may return
    /// `token`.
    spec fn yields(&self, cx: &Cx<S>, index: usize, item: &T, token: &Token<S>) -> bool;

    /// Calls the callback.
    fn render(&self, cx: Cx<S>, index: usize, item: T) -> (token: Token<S>)
        requires
            self.accepts(&cx, index, &item),
        ensures
            self.yields(&cx, index, &item, &token),
    ;
}

impl<T, S: Mounted, F: Fn(Cx<S>, usize, T) -> Token<S>> RenderOwned<T, S> for F {
    open spec fn accepts(&self, cx: &Cx<S>, index: usize, item: &T) -> bool {
        call_requires(*self, (*cx, index, *item))
    }

    open spec fn yields(&self, cx: &Cx<S>, index: usize, item: &T, token: &Token<S>) -> bool {
        call_ensures(*self, (*cx, index, *item), *token)
    }

    fn render(&self, cx: Cx<S>, index: usize, item: T) -> (token: Token<S>) {
        self(cx, index, item)
    }
}

/// The choice that a [`RenderOwned`] makes for one item.
pub struct OwnedChoice<'a, R, T> {
    pub render: &'a R,
    pub index: usize,
    pub item: T,
}

impl<'a, R: RenderOwned<T, S>, T, S: Mounted> Choice<S> for OwnedChoice<'a, R, T> {
    open spec fn accepts(&self, cx: &Cx<S>) -> bool {
        self.render.accepts(cx, self.index, &self.item)
    }

    open spec fn yields(&self, cx: &Cx<S>, token: &Token<S>) -> bool {
        self.render.yields(cx, self.index, &self.item, token)
    }

    fn pick(self, cx: Cx<S>) -> (token: Token<S>) {
        self.render.render(cx, self.index, self.item)
    }
}

/// A view over a sequence of owned items.
pub struct IterBuilder<T, R, S> {
    items: Vec<T>,
    render_item: R,
    phantom: PhantomData<S>,
}

/// The state of an [`IterBuilder`]: one entry for each item last rendered,
/// and the footer marker.
pub type IterState<S> = SliceState<S>;

/// The items in reverse order, so that they can be taken off the end first
/// to last.
fn reversed<T>(items: Vec<T>) -> (rest: Vec<T>)
    ensures
        rest@.len() == items@.len(),
        forall|k: int| 0 <= k < rest@.len() ==> rest@[k] == items@[items@.len() - 1 - k],
{
    let ghost all = items@;
    let mut items = items;
    let mut rest: Vec<T> = Vec::new();
    while items.len() > 0
        invariant
            items@.len() + rest@.len() == all.len(),
            items@ == all.take(items@.len() as int),
            forall|k: int| 0 <= k < rest@.len() ==> rest@[k] == all[all.len() - 1 - k],
        decreases items@.len(),
    {
        let ghost before = items@;
        match items.pop() {
            Some(item) => {
                rest.push(item);
                proof {
                    assert(items@ =~= all.take(items@.len() as int));
                    assert(item == before[before.len() - 1]);
                }
            },
            None => {},
        }
    }
    rest
}

impl<T, R: RenderOwned<T, S>, S: ViewMarker> IterBuilder<T, R, S> {
    /// The items to render.
    pub closed spec fn items(&self) -> Seq<T> {
        self.items@
    }

    /// The callback that renders an item.
    pub closed spec fn render_item(&self) -> &R {
        &self.render_item
    }

    /// The choice made for the item at `index`.
    pub open spec fn choice(&self, index: int) -> OwnedChoice<'_, R, T> {
        OwnedChoice { render: self.render_item(), index: index as usize, item: self.items()[index] }
    }
}

impl<T, R: RenderOwned<T, S>, S: ViewMarker> Builder for IterBuilder<T, R, S> {
    type State = SliceState<S>;

    /// The callback plays by the rules for every item.
    open spec fn wf(&self) -> bool {
        forall|i: int| 0 <= i < self.items().len() ==> fair(&#[trigger] self.choice(i))
    }

    /// There is one entry for each item, completed by the callback for
    /// that item.
    open spec fn describes(&self, state: &SliceState<S>) -> bool {
        &&& state.entries().len() == self.items().len()
        &&& forall|i: int|
            0 <= i < self.items().len() ==> (#[trigger] state.entries()[i]).shows(&self.choice(i))
    }

    /// There is one entry for each item, and the callback, asked to
    /// rebuild any of them, leaves the backing structure as it is.
    open spec fn matches(&self, state: &SliceState<S>) -> bool {
        &&& state.entries().len() == self.items().len()
        &&& forall|i: int|
            0 <= i < self.items().len() ==> idle(
                &#[trigger] self.choice(i),
                &state.entries()[i].state(),
            )
    }

    /// The footer stays, and an entry at a position that had one is the
    /// entry that was, rebuilt.
    open spec fn keeps(&self, old_state: &Self::State, state: &Self::State) -> bool {
        &&& state.footer() == old_state.footer()
        &&& forall|k: int|
            0 <= k < state.entries().len() && k < old_state.entries().len() ==> carried(
                &self.choice(k),
                &old_state.entries()[k],
                &#[trigger] state.entries()[k],
            )
    }

    /// The callback, asked to rebuild a state that it completed for an
    /// element, leaves the backing structure as it is.
    open spec fn steady(&self) -> bool {
        forall|i: int, state: Float<S>|
            0 <= i < self.items().len() && state@ is Some && chosen(&self.choice(i), &state.value())
                ==> #[trigger] idle(&self.choice(i), &state)
    }

    proof fn lemma_steady(&self, state: &SliceState<S>) {
        assert forall|i: int| 0 <= i < self.items().len() implies idle(
            &#[trigger] self.choice(i),
            &state.entries()[i].state(),
        ) by {
            assert(state.entries()[i].shows(&self.choice(i)));
        }
    }

    /// Builds an entry for each item in order, each behind a leading marker
    /// of its own, and the footer marker behind them all.
    fn build(self, cx: BuildCx, dom: &mut Dom) -> (state: SliceState<S>)
        ensures
            forall|k: int|
                0 <= k < state.entries().len() ==> added(
                    &self.choice(k),
                    old(dom)@.len(),
                    &#[trigger] state.entries()[k],
                ),
    {
        let ghost d0 = dom@;
        let mut data: Vec<Entry<S>> = Vec::new();
        let count = self.items.len();
        let ghost all = self.items@;
        let render_item = self.render_item;
        let ghost view = self;
        let mut rest = reversed(self.items);
        let mut i: usize = 0;
        proof {
            let run = Run { entries: data@ };
            assert(run.entries == data@);
            assert(spans(data@) =~= Seq::empty());
            lemma_built_nothing(cx, d0, &run);
        }
        while i < count
            invariant
                i <= count == all.len(),
                i == data@.len(),
                all == view.items(),
                render_item == *view.render_item(),
                view.wf(),
                rest@.len() == count - i,
                forall|k: int| 0 <= k < rest@.len() ==> rest@[k] == all[all.len() - 1 - k],
                build_ready(cx, d0),
                built(cx, d0, dom@, &Run { entries: data@ }),
                forall|k: int| 0 <= k < i ==> (#[trigger] data@[k]).shows(&view.choice(k)),
                forall|k: int|
                    0 <= k < i ==> added(&view.choice(k), d0.len(), &#[trigger] data@[k]),
            decreases count - i,
        {
            let ghost d1 = dom@;
            let ghost e1 = data@;
            let item = rest.pop().unwrap();
            let choice = OwnedChoice { render: &render_item, index: i, item };
            proof {
                assert(choice == view.choice(i as int));
                lemma_build_next(cx, d0, d1, &Run { entries: e1 });
            }
            let entry = build_entry(choice, cx, dom);
            data.push(entry);
            proof {
                lemma_build_pair(cx, d0, d1, dom@, &(Run { entries: e1 }, entry));
                lemma_run_push(e1, &entry);
                lemma_built_equiv(
                    cx,
                    d0,
                    dom@,
                    &(Run { entries: e1 }, entry),
                    &Run { entries: data@ },
                );
                assert forall|k: int| 0 <= k < i + 1 implies (#[trigger] data@[k]).shows(
                    &view.choice(k),
                ) by {
                    if k < i {
                        assert(data@[k] == e1[k]);
                    }
                }
                assert forall|k: int| 0 <= k < i + 1 implies added(
                    &view.choice(k),
                    d0.len(),
                    &#[trigger] data@[k],
                ) by {
                    if k < i {
                        assert(data@[k] == e1[k]);
                    } else {
                        lemma_added_lower(&view.choice(k), d1.len(), d0.len(), &data@[k]);
                    }
                }
            }
            i = i + 1;
        }
        let ghost d2 = dom@;
        proof {
            lemma_build_next(cx, d0, d2, &Run { entries: data@ });
        }
        let footer = build_marker("|", cx, dom);
        let state = SliceState { data, footer: footer.node };
        proof {
            lemma_build_pair(cx, d0, d2, dom@, &region(state.entries(), state.footer()));
            lemma_state_region(&state);
            lemma_built_equiv(cx, d0, dom@, &region(state.entries(), state.footer()), &state);
        }
        state
    }

    /// Rebuilds the entries that stay in place, builds an entry in front of
    /// the footer for each element that the state has no entry for, and
    /// takes out the entries that no element is left for. An entry that
    /// stays keeps its leading marker, and its state is what the callback
    /// made of the state it had; where the callback was idle, its nodes are
    /// as they were. An entry that is added is made of new nodes, and an
    /// entry that is taken out is detached, leading marker and all.
    fn rebuild(self, cx: RebuildCx, dom: &mut Dom, state: &mut SliceState<S>)
        ensures
            final(state).footer() == old(state).footer(),
            kept_or_appended(
                old(state).entries(),
                old(dom)@.len(),
                final(state).entries(),
            ),
            forall|k: int|
                0 <= k < final(state).entries().len() && k < old(state).entries().len()
                    ==> reused(
                    &self.choice(k),
                    cx,
                    old(dom)@.len(),
                    &old(state).entries()[k],
                    &#[trigger] final(state).entries()[k],
                ),
            forall|k: int|
                old(state).entries().len() <= k < final(state).entries().len() ==> added(
                    &self.choice(k),
                    old(dom)@.len(),
                    &#[trigger] final(state).entries()[k],
                ),
            forall|k: int|
                0 <= k < final(state).entries().len() && k < old(state).entries().len() && idle(
                    &self.choice(k),
                    &old(state).entries()[k].state(),
                ) ==> untouched(old(dom)@, final(dom)@, &#[trigger] old(state).entries()[k]),
            forall|k: int|
                self.items().len() <= k < old(state).entries().len() ==> gone(
                    final(dom)@,
                    final(state),
                    &#[trigger] old(state).entries()[k],
                ),
    {
        let ghost d0 = dom@;
        let ghost s0 = *state;
        let ghost e0 = state.data@;
        let footer = state.footer;
        let ghost r0 = region(e0, footer);
        let count = self.items.len();
        let ghost all = self.items@;
        let render_item = self.render_item;
        let ghost view = self;
        let mut rest = reversed(self.items);
        let kept = if state.data.len() < count {
            state.data.len()
        } else {
            count
        };
        proof {
            lemma_state_region(&s0);
            lemma_ready_equiv(cx, d0, &s0, &r0);
            lemma_rebuilt_same(cx, d0, &r0);
        }
        proof {
            assert forall|k: int| 0 <= k < e0.len() implies untouched(
                d0,
                d0,
                &#[trigger] e0[k],
            ) by {
                lemma_untouched_yet(d0, &e0[k]);
            }
        }
        let mut i: usize = 0;
        while i < kept
            invariant
                r0 == region(e0, footer),
                dom@.len() >= d0.len(),
                forall|k: int| i <= k < e0.len() ==> untouched(d0, dom@, &#[trigger] e0[k]),
                forall|k: int|
                    0 <= k < i && idle(&view.choice(k), &e0[k].state()) ==> untouched(
                        d0,
                        dom@,
                        &#[trigger] e0[k],
                    ),
                i <= kept <= count == all.len(),
                all == view.items(),
                render_item == *view.render_item(),
                rest@.len() == count - i,
                forall|k: int| 0 <= k < rest@.len() ==> rest@[k] == all[all.len() - 1 - k],
                kept <= e0.len() == state.data@.len(),
                state.footer == footer,
                s0.entries() == e0,
                view.wf(),
                rebuild_ready(cx, d0, &r0),
                rebuilt(cx, d0, &r0, dom@, &region(state.data@, footer)),
                forall|k: int| i <= k < e0.len() ==> state.data@[k] == e0[k],
                forall|k: int| 0 <= k < i ==> (#[trigger] state.data@[k]).shows(&view.choice(k)),
                forall|k: int|
                    0 <= k < e0.len() ==> (#[trigger] state.data@[k]).header() == e0[k].header(),
                forall|k: int|
                    0 <= k < i ==> reused(
                        &view.choice(k),
                        cx,
                        d0.len(),
                        &e0[k],
                        &#[trigger] state.data@[k],
                    ),
                view.matches(&s0) ==> dom@ == d0 && spans(state.data@) == spans(e0),
            decreases kept - i,
        {
            let ghost d1 = dom@;
            let ghost e1 = state.data@;
            let item = rest.pop().unwrap();
            let choice = OwnedChoice { render: &render_item, index: i, item };
            proof {
                assert(choice == view.choice(i as int));
                lemma_rebuilt_ready(cx, d0, &r0, d1, &region(e1, footer));
            }
            rebuild_entry(&mut state.data, footer, i, choice, cx, dom);
            proof {
                assert(e1[i as int] == e0[i as int]);
                assert forall|k: int| i + 1 <= k < e0.len() implies untouched(
                    d0,
                    dom@,
                    &#[trigger] e0[k],
                ) by {
                    lemma_untouched_other(cx, d0, e0, footer, k, i as int, d1, dom@);
                }
                assert forall|k: int|
                    0 <= k < i + 1 && idle(&view.choice(k), &e0[k].state()) implies untouched(
                    d0,
                    dom@,
                    &#[trigger] e0[k],
                ) by {
                    if k < i {
                        lemma_untouched_other(cx, d0, e0, footer, k, i as int, d1, dom@);
                    } else {
                        assert(dom@ == d1);
                    }
                }
                assert forall|k: int| 0 <= k < i + 1 implies reused(
                    &view.choice(k),
                    cx,
                    d0.len(),
                    &e0[k],
                    &#[trigger] state.data@[k],
                ) by {
                    if k != i {
                        assert(state.data@[k] == e1[k]);
                    } else {
                        assert(e1[k] == e0[k]);
                        lemma_reused_lower(
                            &view.choice(k),
                            cx,
                            d1.len(),
                            d0.len(),
                            &e0[k],
                            &state.data@[k],
                        );
                    }
                }
                assert forall|k: int| 0 <= k < i + 1 implies (#[trigger] state.data@[k]).shows(
                    &view.choice(k),
                ) by {
                    if k != i {
                        assert(state.data@[k] == e1[k]);
                    }
                }
                assert forall|k: int| 0 <= k < e0.len() implies (#[trigger] state.data@[k]).header()
                    == e0[k].header() by {
                    if k != i {
                        assert(state.data@[k] == e1[k]);
                    }
                }
                lemma_rebuilt_twice(
                    cx,
                    d0,
                    &r0,
                    d1,
                    &region(e1, footer),
                    dom@,
                    &region(state.data@, footer),
                );
                if view.matches(&s0) {
                    assert(e1[i as int] == e0[i as int]);
                    assert(idle(&view.choice(i as int), &s0.entries()[i as int].state()));
                    lemma_spans_update(e1, i as int, state.data@[i as int]);
                }
            }
            i = i + 1;
        }
        if state.data.len() < count {
            while state.data.len() < count
                invariant
                    e0.len() < count == all.len(),
                    all == view.items(),
                    render_item == *view.render_item(),
                    rest@.len() == count - state.data@.len(),
                    forall|k: int| 0 <= k < rest@.len() ==> rest@[k] == all[all.len() - 1 - k],
                    s0.entries() == e0,
                    state.data@.len() <= count,
                    e0.len() <= state.data@.len(),
                    dom@.len() >= d0.len(),
                    r0 == region(e0, footer),
                    forall|k: int|
                        0 <= k < e0.len() && idle(&view.choice(k), &e0[k].state()) ==> untouched(
                            d0,
                            dom@,
                            &#[trigger] e0[k],
                        ),
                    forall|k: int|
                        0 <= k < state.data@.len() ==> (#[trigger] state.data@[k]).shows(
                            &view.choice(k),
                        ),
                    forall|k: int|
                        0 <= k < state.data@.len() ==> if k < e0.len() {
                            (#[trigger] state.data@[k]).header() == e0[k].header()
                        } else {
                            state.data@[k].header() >= d0.len()
                        },
                    forall|k: int|
                        0 <= k < e0.len() ==> reused(
                            &view.choice(k),
                            cx,
                            d0.len(),
                            &e0[k],
                            &#[trigger] state.data@[k],
                        ),
                    forall|k: int|
                        e0.len() <= k < state.data@.len() ==> added(
                            &view.choice(k),
                            d0.len(),
                            &#[trigger] state.data@[k],
                        ),
                    state.footer == footer,
                    view.wf(),
                    rebuild_ready(cx, d0, &r0),
                    rebuilt(cx, d0, &r0, dom@, &region(state.data@, footer)),
                decreases count - state.data@.len(),
            {
                let ghost d1 = dom@;
                let ghost e1 = state.data@;
                let at = state.data.len();
                let item = rest.pop().unwrap();
                let choice = OwnedChoice { render: &render_item, index: at, item };
                proof {
                    assert(choice == view.choice(at as int));
                    lemma_rebuilt_ready(cx, d0, &r0, d1, &region(e1, footer));
                }
                insert_entry(&mut state.data, footer, at, choice, cx, dom);
                proof {
                    assert forall|k: int|
                        0 <= k < e0.len() && idle(&view.choice(k), &e0[k].state())
                            implies untouched(
                        d0,
                        dom@,
                        &#[trigger] e0[k],
                    ) by {
                        lemma_untouched_all(cx, d0, e0, footer, k, d1, dom@);
                    }
                    assert forall|k: int| 0 <= k < e0.len() implies reused(
                        &view.choice(k),
                        cx,
                        d0.len(),
                        &e0[k],
                        &#[trigger] state.data@[k],
                    ) by {
                        assert(state.data@[k] == e1[k]);
                    }
                    assert forall|k: int| e0.len() <= k < state.data@.len() implies added(
                        &view.choice(k),
                        d0.len(),
                        &#[trigger] state.data@[k],
                    ) by {
                        if k < at {
                            assert(state.data@[k] == e1[k]);
                        } else {
                            lemma_added_lower(
                                &view.choice(k),
                                d1.len(),
                                d0.len(),
                                &state.data@[k],
                            );
                        }
                    }
                    assert forall|k: int| 0 <= k < state.data@.len() implies (
                    #[trigger] state.data@[k]).shows(&view.choice(k)) by {
                        if k < at {
                            assert(state.data@[k] == e1[k]);
                        }
                    }
                    assert forall|k: int| 0 <= k < state.data@.len() implies if k < e0.len() {
                        (#[trigger] state.data@[k]).header() == e0[k].header()
                    } else {
                        state.data@[k].header() >= d0.len()
                    } by {
                        if k < at {
                            assert(state.data@[k] == e1[k]);
                        }
                    }
                    lemma_rebuilt_twice(
                        cx,
                        d0,
                        &r0,
                        d1,
                        &region(e1, footer),
                        dom@,
                        &region(state.data@, footer),
                    );
                }
            }
        } else {
            while state.data.len() > count
                invariant
                    count == all.len(),
                    all == view.items(),
                    count <= state.data@.len(),
                    s0.entries() == e0,
                    state.data@.len() > count ==> e0.len() > count,
                    state.data@.len() <= e0.len(),
                    forall|k: int|
                        0 <= k < state.data@.len() && k < count ==> (
                        #[trigger] state.data@[k]).header() == e0[k].header(),
                    forall|k: int|
                        0 <= k < count ==> (#[trigger] state.data@[k]).shows(&view.choice(k)),
                    forall|k: int|
                        0 <= k < count ==> reused(
                            &view.choice(k),
                            cx,
                            d0.len(),
                            &e0[k],
                            &#[trigger] state.data@[k],
                        ),
                    r0 == region(e0, footer),
                    dom@.len() >= d0.len(),
                    forall|k: int|
                        0 <= k < count && idle(&view.choice(k), &e0[k].state()) ==> untouched(
                            d0,
                            dom@,
                            &#[trigger] e0[k],
                        ),
                    forall|k: int|
                        count <= k < state.data@.len() ==> #[trigger] state.data@[k] == e0[k
                            + e0.len() - state.data@.len()],
                    forall|k: int|
                        count <= k < count + e0.len() - state.data@.len() ==> gone(
                            dom@,
                            &region(state.data@, footer),
                            &#[trigger] e0[k],
                        ),
                    state.footer == footer,
                    rebuild_ready(cx, d0, &r0),
                    rebuilt(cx, d0, &r0, dom@, &region(state.data@, footer)),
                    view.matches(&s0) ==> dom@ == d0 && spans(state.data@) == spans(e0),
                decreases state.data@.len(),
            {
                let ghost d1 = dom@;
                let ghost e1 = state.data@;
                proof {
                    lemma_rebuilt_ready(cx, d0, &r0, d1, &region(e1, footer));
                }
                remove_entry(&mut state.data, footer, count, cx, dom);
                proof {
                    let taken = e0.len() - e1.len();
                    assert(e1[count as int] == e0[count + taken]);
                    assert forall|k: int|
                        0 <= k < count && idle(&view.choice(k), &e0[k].state()) implies untouched(
                        d0,
                        dom@,
                        &#[trigger] e0[k],
                    ) by {
                        lemma_untouched_other(cx, d0, e0, footer, k, count + taken, d1, dom@);
                    }
                    assert forall|k: int| 0 <= k < count implies reused(
                        &view.choice(k),
                        cx,
                        d0.len(),
                        &e0[k],
                        &#[trigger] state.data@[k],
                    ) by {
                        assert(state.data@[k] == e1[k]);
                    }
                    assert forall|k: int|
                        count <= k < state.data@.len() implies #[trigger] state.data@[k] == e0[k
                        + e0.len() - state.data@.len()] by {
                        assert(state.data@[k] == e1[k + 1]);
                    }
                    let r0_run = Run { entries: e0 };
                    assert(r0_run.entries == e0);
                    assert forall|k: int| count <= k < count + taken + 1 implies gone(
                        dom@,
                        &region(state.data@, footer),
                        &#[trigger] e0[k],
                    ) by {
                        if k < count + taken {
                            assert(r0.0 == r0_run);
                            assert(r0_run.inv(d0));
                            assert(r0_run.entries[k].inv(d0));
                            assert forall|n: NodeId| #[trigger] e0[k].owns(n) implies r0.owns(
                                n,
                            ) by {
                                assert(r0_run.entries[k].owns(n));
                                assert(r0_run.owns(n));
                            }
                            lemma_gone(
                                cx,
                                d0,
                                &r0,
                                d1,
                                &region(e1, footer),
                                dom@,
                                &region(state.data@, footer),
                                &e0[k],
                            );
                        }
                    }
                    assert forall|k: int| 0 <= k < count implies (
                    #[trigger] state.data@[k]).shows(&view.choice(k)) by {
                        assert(state.data@[k] == e1[k]);
                    }
                    assert forall|k: int|
                        0 <= k < state.data@.len() && k < count implies (
                    #[trigger] state.data@[k]).header() == e0[k].header() by {
                        assert(state.data@[k] == e1[k]);
                    }
                    lemma_rebuilt_twice(
                        cx,
                        d0,
                        &r0,
                        d1,
                        &region(e1, footer),
                        dom@,
                        &region(state.data@, footer),
                    );
                }
            }
        }
        proof {
            lemma_state_region(&*state);
            lemma_rebuilt_equiv(cx, d0, &r0, dom@, &region(state.data@, footer), &s0, &*state);
            assert forall|k: int| count <= k < e0.len() implies gone(
                dom@,
                &*state,
                &#[trigger] e0[k],
            ) by {
                lemma_gone_as(dom@, &region(state.data@, footer), &*state, &e0[k]);
            }
            assert forall|k: int| 0 <= k < state.entries().len() && k < e0.len() implies carried(
                &view.choice(k),
                &e0[k],
                &#[trigger] state.entries()[k],
            ) by {
                assert(reused(&view.choice(k), cx, d0.len(), &e0[k], &state.data@[k]));
            }
        }
    }
}

/// A view over `items` that renders each item with `render_item`.
pub fn iter<T, R: RenderOwned<T, S>, S: ViewMarker>(items: Vec<T>, render_item: R) -> (view:
    IterBuilder<T, R, S>)
    ensures
        view.items() == items@,
        *view.render_item() == render_item,
{
    IterBuilder { items, render_item, phantom: PhantomData }
}

} // verus!
