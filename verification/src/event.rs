//! Event handlers.

use crate::builder::{silenced, spliced, BuildCx, Builder, Claims, Mounted, RebuildCx, State};
use crate::compose::{lemma_position, lemma_rebuilt_same};
use crate::dom::{Dom, DomView, Event, EventView, ListenerId, NodeId};
use crate::float::Float;
use core::marker::PhantomData;
use vstd::prelude::*;

verus! {

/// Identifies a type of event.
pub trait EventKind {
    /// The name of the event.
    const NAME: &'static str;

    /// Whether a listener for the event may suppress the default action. A
    /// listener that may not is registered as passive.
    const ACTIVE: bool;
}

/// The active version of an event type: its listeners may suppress the
/// default action.
pub struct Active<K: EventKind>(pub K);

impl<K: EventKind> EventKind for Active<K> {
    const NAME: &'static str = K::NAME;

    const ACTIVE: bool = true;
}

/// What handles an event: it is given the data the application shares and
/// the event.
///
/// Every closure that takes a mutable reference to the data and an
/// [`Event`] is one.
///
/// In verified code, give the callback a type of its own that implements
/// this trait: Verus does not unfold `accepts` and `yields` for a closure,
/// so only code that is not verified can hand one over.
pub trait Handler<Output> {
    /// Whether the handler can be called with these arguments.
    spec fn accepts(&self, output: &Output, event: &EventView) -> bool;

    /// Whether the handler, called with `event` on `output`, may leave
    /// `after`.
    spec fn yields(&self, output: &Output, event: &EventView, after: &Output) -> bool;

    /// Handles `event`.
    fn handle(&self, output: &mut Output, event: Event)
        requires
            self.accepts(old(output), &event@),
        ensures
            self.yields(old(output), &event@, final(output)),
    ;
}

impl<Output, F: Fn(&mut Output, Event)> Handler<Output> for F {
    open spec fn accepts(&self, output: &Output, event: &EventView) -> bool {
        forall|target: &mut Output, given: Event|
            *target == *output && given@ == *event ==> call_requires(*self, (target, given))
    }

    /// Holds whatever the closure did: a relation between values cannot
    /// speak of the reference that the closure is lent. What the closure
    /// promises is promised by `handle` below.
    open spec fn yields(&self, output: &Output, event: &EventView, after: &Output) -> bool {
        true
    }

    /// Calls the closure with the data and the event: what the closure
    /// promises of the reference it is lent holds of the data as it was and
    /// as it is left.
    fn handle(&self, output: &mut Output, event: Event)
        ensures
            exists|target: &mut Output|
                *target == *old(output) && *final(target) == *final(output)
                    && #[trigger] call_ensures(*self, (target, event), ()),
    {
        self(output, event)
    }
}

/// A handler that has no use for the event itself.
pub struct WithoutEvent<F> {
    pub action: F,
}

impl<Output, F: Fn(&mut Output)> Handler<Output> for WithoutEvent<F> {
    open spec fn accepts(&self, output: &Output, event: &EventView) -> bool {
        forall|target: &mut Output| *target == *output ==> call_requires(self.action, (target,))
    }

    /// Holds whatever the closure did: a relation between values cannot
    /// speak of the reference that the closure is lent. What the closure
    /// promises is promised by `handle` below.
    open spec fn yields(&self, output: &Output, event: &EventView, after: &Output) -> bool {
        true
    }

    /// Calls the closure with the data and drops the event: what the
    /// closure promises of the reference it is lent holds of the data as it
    /// was and as it is left.
    fn handle(&self, output: &mut Output, event: Event)
        ensures
            exists|target: &mut Output|
                *target == *old(output) && *final(target) == *final(output)
                    && #[trigger] call_ensures(self.action, (target,), ()),
    {
        (self.action)(output)
    }
}

/// Whether `action` can handle every event on every value of the data.
pub open spec fn total<Output, A: Handler<Output>>(action: &A) -> bool {
    forall|output: Output, event: EventView| #[trigger] action.accepts(&output, &event)
}

/// An event handler on the element it is put on.
pub struct On<Kind: EventKind, Action, Output> {
    action: Action,
    kind: PhantomData<Kind>,
    output: PhantomData<Output>,
}

/// The state of an [`On`]: the listener and the handler its events go to.
pub struct OnState<Action, Output> {
    listener: ListenerId,
    action: Action,
    output: PhantomData<Output>,
}

impl<Action, Output> OnState<Action, Output> {
    /// The listener.
    pub closed spec fn listener(&self) -> ListenerId {
        self.listener
    }

    /// The handler.
    pub closed spec fn action(&self) -> &Action {
        &self.action
    }

    /// The listener.
    pub fn listener_id(&self) -> (listener: ListenerId)
        ensures
            listener == self.listener(),
    {
        self.listener
    }
}

impl<Action: Handler<Output>, Output> Mounted for OnState<Action, Output> {
    open spec fn span(&self) -> Seq<NodeId> {
        Seq::empty()
    }

    open spec fn owns(&self, n: NodeId) -> bool {
        false
    }

    open spec fn inv(&self, dom: DomView) -> bool {
        self.listener() < dom.listeners.len() && total(self.action())
    }

    open spec fn is_view(&self) -> bool {
        false
    }

    open spec fn claims(&self) -> Claims {
        Map::empty()
    }

    open spec fn settled(&self) -> bool {
        true
    }

    open spec fn hears(&self, l: ListenerId) -> bool {
        l == self.listener()
    }

    proof fn lemma_inv(&self, dom: DomView) {
    }

    proof fn lemma_frame(&self, before: DomView, after: DomView) {
    }
}

impl<Action: Handler<Output>, Output> State<Output> for OnState<Action, Output> {
    /// The state stays as it is; the handler is called with the event
    /// recorded at the listener, if there is one.
    open spec fn reacts(&self, dom: DomView, output: &Output, after: &Self, done: &Output) -> bool {
        &&& *after == *self
        &&& match dom.listeners[self.listener() as int].pending {
            Some(event) => self.action().yields(output, &event, done),
            None => *done == *output,
        }
    }

    /// Delivers the event recorded at the listener, if there is one, to the
    /// handler.
    fn run(&mut self, dom: &mut Dom, output: &mut Float<Output>)
        ensures
            final(dom)@ == old(dom)@.with_pending(old(self).listener(), None),
    {
        proof {
            assert(dom@.with_pending(self.listener(), None).listeners =~= silenced(
                dom@,
                &*self,
            ).listeners);
        }
        match dom.take_event(self.listener) {
            Some(event) => {
                match output.as_mut() {
                    Ok(data) => {
                        assert(self.action().accepts(data, &event@));
                        self.action.handle(data, event);
                    },
                    Err(_) => {},
                }
            },
            None => {},
        }
    }
}

impl<Kind: EventKind, Action: Handler<Output>, Output> On<Kind, Action, Output> {
    /// The handler.
    pub closed spec fn action(&self) -> &Action {
        &self.action
    }
}

impl<Kind: EventKind, Action: Handler<Output>, Output> Builder for On<Kind, Action, Output> {
    type State = OnState<Action, Output>;

    /// The handler can handle every event on every value of the data.
    open spec fn wf(&self) -> bool {
        total(self.action())
    }

    open spec fn describes(&self, state: &Self::State) -> bool {
        state.action() == self.action()
    }

    open spec fn matches(&self, state: &Self::State) -> bool {
        true
    }

    /// The listener stays.
    open spec fn keeps(&self, old_state: &Self::State, state: &Self::State) -> bool {
        state.listener() == old_state.listener()
    }

    open spec fn steady(&self) -> bool {
        true
    }

    proof fn lemma_steady(&self, state: &Self::State) {
    }

    /// Registers a listener for the events of this kind on the parent.
    fn build(self, cx: BuildCx, dom: &mut Dom) -> (state: Self::State)
        ensures
            state.listener() == old(dom)@.listeners.len(),
            final(dom)@ == old(dom)@.with_listener(cx.position.parent, Kind::NAME@, !Kind::ACTIVE),
    {
        let ghost d0 = dom@;
        let listener = dom.listen(cx.position.parent, Kind::NAME, !Kind::ACTIVE);
        let state = OnState { listener, action: self.action, output: PhantomData };
        proof {
            let kids = d0.children(cx.position.parent);
            lemma_position(d0, cx);
            assert(kids =~= spliced(kids, cx.position.index(d0), 0, state.span()));
        }
        state
    }

    /// Replaces the handler; the listener stays.
    fn rebuild(self, cx: RebuildCx, dom: &mut Dom, state: &mut Self::State)
        ensures
            final(dom)@ == old(dom)@,
            final(state).listener() == old(state).listener(),
    {
        proof {
            lemma_rebuilt_same(cx, dom@, &*state);
        }
        state.action = self.action;
    }
}

/// An event handler for the events of type `Kind`.
pub fn on<Kind: EventKind, Action: Handler<Output>, Output>(_kind: Kind, action: Action) -> (view:
    On<Kind, Action, Output>)
    ensures
        *view.action() == action,
{
    On { action, kind: PhantomData, output: PhantomData }
}

/// An event handler for the events of type `Kind` that has no use for the
/// event itself.
pub fn on_<Kind: EventKind, Action: Fn(&mut Output), Output>(_kind: Kind, action: Action) -> (view:
    On<Kind, WithoutEvent<Action>, Output>)
    ensures
        view.action().action == action,
{
    On { action: WithoutEvent { action }, kind: PhantomData, output: PhantomData }
}

/// `dblclick` event.
#[derive(Clone, Copy)]
pub struct DblClick;

impl EventKind for DblClick {
    const NAME: &'static str = "dblclick";

    const ACTIVE: bool = false;
}

/// `click` event.
#[derive(Clone, Copy)]
pub struct Click;

impl EventKind for Click {
    const NAME: &'static str = "click";

    const ACTIVE: bool = false;
}

/// `input` event.
#[derive(Clone, Copy)]
pub struct InputEvent;

impl EventKind for InputEvent {
    const NAME: &'static str = "input";

    const ACTIVE: bool = false;
}

/// `submit` event.
#[derive(Clone, Copy)]
pub struct Submit;

impl EventKind for Submit {
    const NAME: &'static str = "submit";

    const ACTIVE: bool = false;
}

/// An [`Active`] event type has the name of the type it wraps.
pub proof fn lemma_active<K: EventKind>()
    ensures
        Active::<K>::NAME@ == K::NAME@,
        Active::<K>::ACTIVE,
{
}

/// The names of the event types of this module, none of them active.
pub proof fn lemma_kinds()
    ensures
        DblClick::NAME@ == "dblclick"@ && !DblClick::ACTIVE,
        Click::NAME@ == "click"@ && !Click::ACTIVE,
        InputEvent::NAME@ == "input"@ && !InputEvent::ACTIVE,
        Submit::NAME@ == "submit"@ && !Submit::ACTIVE,
{
}

} // verus!
