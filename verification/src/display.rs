//! Text nodes that display a value, written again only when the value
//! changes.

use crate::builder::{
    build_ready, built, lemma_silenced_none, offset, rebuild_ready, rebuilt, spliced, BuildCx,
    Builder, Claims, Mounted, RebuildCx, State, ViewMarker,
};
use crate::dom::{Dom, DomView, ListenerId, NodeId, NodeKind};
use crate::float::Float;
use crate::text::same_text;
use vstd::prelude::*;

verus! {

/// The character for the digit `d`.
pub open spec fn digit(d: nat) -> char {
    if d == 0 {
        '0'
    } else if d == 1 {
        '1'
    } else if d == 2 {
        '2'
    } else if d == 3 {
        '3'
    } else if d == 4 {
        '4'
    } else if d == 5 {
        '5'
    } else if d == 6 {
        '6'
    } else if d == 7 {
        '7'
    } else if d == 8 {
        '8'
    } else {
        '9'
    }
}

/// The decimal digits of `n`, most significant first.
pub open spec fn decimal(n: nat) -> Seq<char>
    decreases n,
{
    if n < 10 {
        seq![digit(n)]
    } else {
        decimal(n / 10).push(digit(n % 10))
    }
}

/// The decimal notation of `n`: a minus sign in front of a negative number.
pub open spec fn signed_decimal(n: int) -> Seq<char> {
    if n < 0 {
        seq!['-'] + decimal((-n) as nat)
    } else {
        decimal(n as nat)
    }
}

/// Puts the digit `d` behind `text`.
fn push_digit(text: &mut String, d: u64)
    requires
        d < 10,
    ensures
        final(text)@ == old(text)@.push(digit(d as nat)),
{
    proof {
        reveal_strlit("0");
        reveal_strlit("1");
        reveal_strlit("2");
        reveal_strlit("3");
        reveal_strlit("4");
        reveal_strlit("5");
        reveal_strlit("6");
        reveal_strlit("7");
        reveal_strlit("8");
        reveal_strlit("9");
    }
    let piece = if d == 0 {
        "0"
    } else if d == 1 {
        "1"
    } else if d == 2 {
        "2"
    } else if d == 3 {
        "3"
    } else if d == 4 {
        "4"
    } else if d == 5 {
        "5"
    } else if d == 6 {
        "6"
    } else if d == 7 {
        "7"
    } else if d == 8 {
        "8"
    } else {
        "9"
    };
    assert(piece@ =~= seq![digit(d as nat)]);
    text.append(piece);
    assert(text@ =~= old(text)@.push(digit(d as nat)));
}

/// Puts the decimal digits of `n` behind `text`.
fn push_decimal(text: &mut String, n: u64)
    ensures
        final(text)@ == old(text)@ + decimal(n as nat),
    decreases n,
{
    if n >= 10 {
        push_decimal(text, n / 10);
    }
    push_digit(text, n % 10);
    proof {
        if n >= 10 {
            assert(text@ =~= old(text)@ + decimal(n as nat));
        } else {
            assert(text@ =~= old(text)@ + decimal(n as nat));
        }
    }
}

/// The decimal notation of `n`.
pub fn unsigned_text(n: u64) -> (text: String)
    ensures
        text@ == decimal(n as nat),
{
    let mut text = String::new();
    push_decimal(&mut text, n);
    proof {
        assert(text@ =~= decimal(n as nat));
    }
    text
}

/// The decimal notation of `n`.
pub fn signed_text(n: i64) -> (text: String)
    ensures
        text@ == signed_decimal(n as int),
{
    let mut text = String::new();
    if n < 0 {
        proof {
            reveal_strlit("-");
        }
        text.append("-");
        let magnitude: u64 = if n == i64::MIN {
            9223372036854775808u64
        } else {
            (-n) as u64
        };
        push_decimal(&mut text, magnitude);
        proof {
            assert(text@ =~= signed_decimal(n as int));
        }
    } else {
        push_decimal(&mut text, n as u64);
        proof {
            assert(text@ =~= signed_decimal(n as int));
        }
    }
    text
}

/// A value that can be displayed as text.
pub trait Shown: Sized {
    /// The text that displays the value.
    spec fn shown(&self) -> Seq<char>;

    /// The text that displays the value.
    fn show(&self) -> (text: String)
        ensures
            text@ == self.shown(),
    ;

    /// Whether the two values are displayed by the same text.
    fn same(&self, other: &Self) -> (same: bool)
        ensures
            same == (self.shown() == other.shown()),
    ;

    /// A copy of the value to keep.
    fn keep(&self) -> (kept: Self)
        ensures
            kept.shown() == self.shown(),
    ;
}

/// Numbers with different values have different decimal digits.
pub proof fn lemma_decimal_injective(a: nat, b: nat)
    requires
        decimal(a) == decimal(b),
    ensures
        a == b,
    decreases a,
{
    lemma_decimal_len(a);
    lemma_decimal_len(b);
    if a < 10 {
        if b >= 10 {
            lemma_decimal_len(b / 10);
        }
        assert(decimal(a)[0] == decimal(b)[0]);
    } else {
        if b < 10 {
            lemma_decimal_len(a / 10);
        } else {
            let x = decimal(a / 10);
            let y = decimal(b / 10);
            assert(x.push(digit(a % 10)).drop_last() =~= x);
            assert(y.push(digit(b % 10)).drop_last() =~= y);
            assert(x.push(digit(a % 10)).last() == digit(a % 10));
            assert(y.push(digit(b % 10)).last() == digit(b % 10));
            lemma_decimal_injective(a / 10, b / 10);
        }
    }
}

/// A number has at least one decimal digit, and none of them is a minus
/// sign.
pub proof fn lemma_decimal_len(n: nat)
    ensures
        decimal(n).len() >= 1,
        decimal(n)[0] != '-',
    decreases n,
{
    if n >= 10 {
        lemma_decimal_len(n / 10);
    }
}

/// Integers with different values have different decimal notations.
pub proof fn lemma_signed_injective(a: int, b: int)
    requires
        signed_decimal(a) == signed_decimal(b),
    ensures
        a == b,
{
    let x = signed_decimal(a);
    let y = signed_decimal(b);
    if a < 0 {
        lemma_decimal_len((-a) as nat);
        assert(x[0] == '-');
        if b >= 0 {
            lemma_decimal_len(b as nat);
        } else {
            assert(x.drop_first() =~= decimal((-a) as nat));
            assert(y.drop_first() =~= decimal((-b) as nat));
            lemma_decimal_injective((-a) as nat, (-b) as nat);
        }
    } else {
        lemma_decimal_len(a as nat);
        if b < 0 {
            assert(y[0] == '-');
        } else {
            lemma_decimal_injective(a as nat, b as nat);
        }
    }
}

impl Shown for u64 {
    open spec fn shown(&self) -> Seq<char> {
        decimal(*self as nat)
    }

    fn show(&self) -> (text: String) {
        unsigned_text(*self)
    }

    fn same(&self, other: &Self) -> (same: bool) {
        proof {
            if self.shown() == other.shown() {
                lemma_decimal_injective(*self as nat, *other as nat);
            }
        }
        *self == *other
    }

    fn keep(&self) -> (kept: Self) {
        *self
    }
}

impl Shown for u32 {
    open spec fn shown(&self) -> Seq<char> {
        decimal(*self as nat)
    }

    fn show(&self) -> (text: String) {
        unsigned_text(*self as u64)
    }

    fn same(&self, other: &Self) -> (same: bool) {
        proof {
            if self.shown() == other.shown() {
                lemma_decimal_injective(*self as nat, *other as nat);
            }
        }
        *self == *other
    }

    fn keep(&self) -> (kept: Self) {
        *self
    }
}

impl Shown for usize {
    open spec fn shown(&self) -> Seq<char> {
        decimal(*self as nat)
    }

    fn show(&self) -> (text: String) {
        unsigned_text(*self as u64)
    }

    fn same(&self, other: &Self) -> (same: bool) {
        proof {
            if self.shown() == other.shown() {
                lemma_decimal_injective(*self as nat, *other as nat);
            }
        }
        *self == *other
    }

    fn keep(&self) -> (kept: Self) {
        *self
    }
}

impl Shown for i64 {
    open spec fn shown(&self) -> Seq<char> {
        signed_decimal(*self as int)
    }

    fn show(&self) -> (text: String) {
        signed_text(*self)
    }

    fn same(&self, other: &Self) -> (same: bool) {
        proof {
            if self.shown() == other.shown() {
                lemma_signed_injective(*self as int, *other as int);
            }
        }
        *self == *other
    }

    fn keep(&self) -> (kept: Self) {
        *self
    }
}

impl Shown for i32 {
    open spec fn shown(&self) -> Seq<char> {
        signed_decimal(*self as int)
    }

    fn show(&self) -> (text: String) {
        signed_text(*self as i64)
    }

    fn same(&self, other: &Self) -> (same: bool) {
        proof {
            if self.shown() == other.shown() {
                lemma_signed_injective(*self as int, *other as int);
            }
        }
        *self == *other
    }

    fn keep(&self) -> (kept: Self) {
        *self
    }
}

impl Shown for String {
    open spec fn shown(&self) -> Seq<char> {
        self@
    }

    fn show(&self) -> (text: String) {
        self.clone()
    }

    fn same(&self, other: &Self) -> (same: bool) {
        same_text(self.as_str(), other.as_str())
    }

    fn keep(&self) -> (kept: Self) {
        self.clone()
    }
}

/// The state of a [`Display`] or a [`DisplayRef`]: the text node and the
/// value it displays.
pub struct DisplayState<T> {
    node: NodeId,
    value: T,
}

impl<T> DisplayState<T> {
    /// The text node.
    pub closed spec fn node(&self) -> NodeId {
        self.node
    }

    /// The value last displayed.
    pub closed spec fn value(&self) -> &T {
        &self.value
    }

    /// The text node.
    pub fn node_id(&self) -> (node: NodeId)
        ensures
            node == self.node(),
    {
        self.node
    }
}

impl<T: Shown> Mounted for DisplayState<T> {
    open spec fn span(&self) -> Seq<NodeId> {
        seq![self.node()]
    }

    open spec fn owns(&self, n: NodeId) -> bool {
        n == self.node()
    }

    open spec fn inv(&self, dom: DomView) -> bool {
        &&& dom.has(self.node())
        &&& dom.kind(self.node()) == NodeKind::Text
        &&& dom.text(self.node()) == self.value().shown()
    }

    open spec fn is_view(&self) -> bool {
        true
    }

    open spec fn claims(&self) -> Claims {
        Map::empty()
    }

    open spec fn settled(&self) -> bool {
        true
    }

    open spec fn hears(&self, l: ListenerId) -> bool {
        false
    }

    proof fn lemma_inv(&self, dom: DomView) {
    }

    proof fn lemma_frame(&self, before: DomView, after: DomView) {
        assert(self.owns(self.node()));
    }
}

impl<T: Shown> ViewMarker for DisplayState<T> {
    proof fn lemma_view(&self) {
    }
}

impl<Output, T: Shown> State<Output> for DisplayState<T> {
    open spec fn reacts(&self, dom: DomView, output: &Output, after: &Self, done: &Output) -> bool {
        *after == *self && *done == *output
    }

    fn run(&mut self, dom: &mut Dom, output: &mut Float<Output>) {
        proof {
            lemma_silenced_none(dom@, &*self);
        }
    }
}

/// Creates the text node that displays `value` at `cx.position`.
fn build_display<T: Shown>(value: &T, cx: BuildCx, dom: &mut Dom) -> (state: DisplayState<T>)
    requires
        build_ready(cx, old(dom)@),
    ensures
        built(cx, old(dom)@, final(dom)@, &state),
        state.value().shown() == value.shown(),
        state.node() == old(dom)@.len(),
{
    let ghost before = dom@;
    let text = value.show();
    let node = dom.create_text(text.as_str());
    cx.position.insert(dom, node);
    let state = DisplayState { node, value: value.keep() };
    proof {
        let parent = cx.position.parent;
        let at = cx.position.index(before);
        assert(dom@.children(parent) =~= spliced(before.children(parent), at, 0, state.span()));
    }
    state
}

/// Writes the text of `value` to the text node of `state` unless the node
/// displays it already.
fn rebuild_display<T: Shown>(value: &T, cx: RebuildCx, dom: &mut Dom, state: &mut DisplayState<T>)
    requires
        rebuild_ready(cx, old(dom)@, old(state)),
    ensures
        rebuilt(cx, old(dom)@, old(state), final(dom)@, final(state)),
        final(state).value().shown() == value.shown(),
        final(state).node() == old(state).node(),
        final(dom)@ == if old(state).value().shown() == value.shown() {
            old(dom)@
        } else {
            old(dom)@.with_data(old(state).node(), value.shown())
        },
{
    proof {
        let kids = dom@.children(cx.parent);
        let at = offset(kids, state.span());
        assert(kids.subrange(at, at + 1)[0] == state.node());
        assert(kids =~= spliced(kids, at, 1, state.span()));
    }
    if value.same(&state.value) {
        return ;
    }
    let text = value.show();
    dom.set_data(state.node, text.as_str());
    state.value = value.keep();
}

/// A text node that displays a value.
pub struct Display<T> {
    value: T,
}

/// A text node that displays a borrowed value.
pub struct DisplayRef<'a, T> {
    value: &'a T,
}

impl<T: Shown> Display<T> {
    /// The value to display.
    pub closed spec fn value(&self) -> &T {
        &self.value
    }
}

impl<'a, T: Shown> DisplayRef<'a, T> {
    /// The value to display.
    pub closed spec fn value(&self) -> &T {
        self.value
    }
}

impl<T: Shown> Builder for Display<T> {
    type State = DisplayState<T>;

    open spec fn wf(&self) -> bool {
        true
    }

    open spec fn describes(&self, state: &DisplayState<T>) -> bool {
        state.value().shown() == self.value().shown()
    }

    open spec fn matches(&self, state: &DisplayState<T>) -> bool {
        state.value().shown() == self.value().shown()
    }

    /// The node stays.
    open spec fn keeps(&self, old_state: &Self::State, state: &Self::State) -> bool {
        state.node() == old_state.node()
    }

    open spec fn steady(&self) -> bool {
        true
    }

    proof fn lemma_steady(&self, state: &DisplayState<T>) {
    }

    /// Creates a text node that displays the value.
    fn build(self, cx: BuildCx, dom: &mut Dom) -> (state: DisplayState<T>)
        ensures
            state.node() == old(dom)@.len(),
    {
        build_display(&self.value, cx, dom)
    }

    /// Writes the text node again where the value is not the one it
    /// displays.
    fn rebuild(self, cx: RebuildCx, dom: &mut Dom, state: &mut DisplayState<T>)
        ensures
            final(state).node() == old(state).node(),
            !self.matches(old(state)) ==> final(dom)@ == old(dom)@.with_data(
                old(state).node(),
                self.value().shown(),
            ),
    {
        rebuild_display(&self.value, cx, dom, state)
    }
}

impl<'a, T: Shown> Builder for DisplayRef<'a, T> {
    type State = DisplayState<T>;

    open spec fn wf(&self) -> bool {
        true
    }

    open spec fn describes(&self, state: &DisplayState<T>) -> bool {
        state.value().shown() == self.value().shown()
    }

    open spec fn matches(&self, state: &DisplayState<T>) -> bool {
        state.value().shown() == self.value().shown()
    }

    /// The node stays.
    open spec fn keeps(&self, old_state: &Self::State, state: &Self::State) -> bool {
        state.node() == old_state.node()
    }

    open spec fn steady(&self) -> bool {
        true
    }

    proof fn lemma_steady(&self, state: &DisplayState<T>) {
    }

    /// Creates a text node that displays the value.
    fn build(self, cx: BuildCx, dom: &mut Dom) -> (state: DisplayState<T>)
        ensures
            state.node() == old(dom)@.len(),
    {
        build_display(self.value, cx, dom)
    }

    /// Writes the text node again where the value is not the one it
    /// displays.
    fn rebuild(self, cx: RebuildCx, dom: &mut Dom, state: &mut DisplayState<T>)
        ensures
            final(state).node() == old(state).node(),
            !self.matches(old(state)) ==> final(dom)@ == old(dom)@.with_data(
                old(state).node(),
                self.value().shown(),
            ),
    {
        rebuild_display(self.value, cx, dom, state)
    }
}

/// A text node that displays `value`.
pub fn display<T: Shown>(value: T) -> (view: Display<T>)
    ensures
        *view.value() == value,
{
    Display { value }
}

/// A text node that displays the value behind `value`.
pub fn display_ref<T: Shown>(value: &T) -> (view: DisplayRef<'_, T>)
    ensures
        view.value() == value,
{
    DisplayRef { value }
}

} // verus!
