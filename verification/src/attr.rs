//! Attributes of the element they are put on.

use crate::builder::{lemma_silenced_none, BuildCx, Builder, Claims, Mounted, RebuildCx, State};
use crate::class::{class_string, class_text, joined, ClassValue};
use crate::compose::{attrs_written, lemma_attrs_built, lemma_attrs_rebuilt};
use crate::dom::{Dom, DomView, ListenerId, NodeId};
use crate::float::Float;
use crate::text::same_text;
use core::marker::PhantomData;
use vstd::prelude::*;

pub mod kinds;

verus! {

/// Identifies an attribute.
pub trait AttrKind {
    /// The name of the attribute.
    const NAME: &'static str;
}

/// What is kept of the value of an attribute.
pub trait Kept {
    /// The text that the attribute was set to, or `None` where the value
    /// asked for the attribute to be absent.
    spec fn text(&self) -> Option<Seq<char>>;
}

impl Kept for String {
    open spec fn text(&self) -> Option<Seq<char>> {
        Some(self@)
    }
}

impl Kept for &'static str {
    open spec fn text(&self) -> Option<Seq<char>> {
        Some(self@)
    }
}

impl Kept for bool {
    open spec fn text(&self) -> Option<Seq<char>> {
        if *self {
            Some(Seq::empty())
        } else {
            None
        }
    }
}

impl<K: Kept> Kept for Option<K> {
    open spec fn text(&self) -> Option<Seq<char>> {
        match self {
            Some(kept) => kept.text(),
            None => None,
        }
    }
}

/// A value that an attribute can be given.
pub trait AttrValue: Sized {
    /// What is kept of the value in the state, to tell on the next cycle
    /// whether the attribute has to be written again.
    type Saved: Kept;

    /// The text that the attribute is set to, or `None` where the value
    /// asks for the attribute to be absent.
    spec fn text(&self) -> Option<Seq<char>>;

    /// Whether the value is the one that `saved` was kept of.
    spec fn unchanged(&self, saved: &Self::Saved) -> bool;

    /// An unchanged value asks for the same text.
    proof fn lemma_unchanged(&self, saved: &Self::Saved)
        requires
            self.unchanged(saved),
        ensures
            self.text() == saved.text(),
    ;

    /// Keeps what is needed of the value.
    fn save(self) -> (saved: Self::Saved)
        ensures
            saved.text() == self.text(),
            self.unchanged(&saved),
    ;

    /// Whether the attribute has to be written again.
    fn changed(&self, saved: &Self::Saved) -> (changed: bool)
        ensures
            changed == !self.unchanged(saved),
    ;

    /// The text that the attribute is set to, if it is to be present.
    fn to_text(&self) -> (text: Option<String>)
        ensures
            match text {
                Some(t) => self.text() == Some(t@),
                None => self.text() is None,
            },
    ;
}

impl<V: AttrValue> AttrValue for Option<V> {
    type Saved = Option<V::Saved>;

    open spec fn text(&self) -> Option<Seq<char>> {
        match self {
            Some(value) => value.text(),
            None => None,
        }
    }


    open spec fn unchanged(&self, saved: &Self::Saved) -> bool {
        match (self, saved) {
            (None, None) => true,
            (Some(value), Some(inner)) => value.unchanged(inner),
            _ => false,
        }
    }

    proof fn lemma_unchanged(&self, saved: &Self::Saved) {
        match (self, saved) {
            (Some(value), Some(inner)) => {
                value.lemma_unchanged(inner);
            },
            _ => {},
        }
    }

    fn save(self) -> (saved: Self::Saved) {
        match self {
            Some(value) => Some(value.save()),
            None => None,
        }
    }

    fn changed(&self, saved: &Self::Saved) -> (changed: bool) {
        match (self, saved) {
            (None, None) => false,
            (None, Some(_)) => true,
            (Some(_), None) => true,
            (Some(value), Some(inner)) => value.changed(inner),
        }
    }

    fn to_text(&self) -> (text: Option<String>) {
        match self {
            Some(value) => value.to_text(),
            None => None,
        }
    }
}

/// A borrowed string that is cloned into the state of the attribute it is
/// the value of.
#[derive(Clone, Copy, Debug)]
pub struct CloneString<'a>(pub &'a str);

impl<'a> AttrValue for CloneString<'a> {
    type Saved = String;

    open spec fn text(&self) -> Option<Seq<char>> {
        Some(self.0@)
    }


    open spec fn unchanged(&self, saved: &String) -> bool {
        self.0@ == saved@
    }

    proof fn lemma_unchanged(&self, saved: &String) {
    }

    fn save(self) -> (saved: String) {
        self.0.to_owned()
    }

    fn changed(&self, saved: &String) -> (changed: bool) {
        !same_text(self.0, saved.as_str())
    }

    fn to_text(&self) -> (text: Option<String>) {
        Some(self.0.to_owned())
    }
}

impl AttrValue for String {
    type Saved = String;

    open spec fn text(&self) -> Option<Seq<char>> {
        Some(self@)
    }


    open spec fn unchanged(&self, saved: &String) -> bool {
        self@ == saved@
    }

    proof fn lemma_unchanged(&self, saved: &String) {
    }

    fn save(self) -> (saved: String) {
        self
    }

    fn changed(&self, saved: &String) -> (changed: bool) {
        !same_text(self.as_str(), saved.as_str())
    }

    fn to_text(&self) -> (text: Option<String>) {
        Some(self.clone())
    }
}

impl AttrValue for &'static str {
    type Saved = &'static str;

    open spec fn text(&self) -> Option<Seq<char>> {
        Some(self@)
    }


    open spec fn unchanged(&self, saved: &&'static str) -> bool {
        self@ == saved@
    }

    proof fn lemma_unchanged(&self, saved: &&'static str) {
    }

    fn save(self) -> (saved: &'static str) {
        self
    }

    fn changed(&self, saved: &&'static str) -> (changed: bool) {
        !same_text(*self, *saved)
    }

    fn to_text(&self) -> (text: Option<String>) {
        Some((*self).to_owned())
    }
}

/// The value of a boolean attribute: present with an empty text, or absent.
#[derive(Clone, Copy, Debug)]
pub struct BooleanAttrValue(pub bool);

impl AttrValue for BooleanAttrValue {
    type Saved = bool;

    open spec fn text(&self) -> Option<Seq<char>> {
        if self.0 {
            Some(Seq::empty())
        } else {
            None
        }
    }


    open spec fn unchanged(&self, saved: &bool) -> bool {
        self.0 == *saved
    }

    proof fn lemma_unchanged(&self, saved: &bool) {
    }

    fn save(self) -> (saved: bool) {
        self.0
    }

    fn changed(&self, saved: &bool) -> (changed: bool) {
        self.0 != *saved
    }

    fn to_text(&self) -> (text: Option<String>) {
        if self.0 {
            Some(String::new())
        } else {
            None
        }
    }
}

/// The state of an [`Attr`] of kind `Kind`: what was kept of the value last
/// written.
pub struct AttrState<Kind, Saved> {
    value: Saved,
    kind: PhantomData<Kind>,
}

impl<Kind, Saved> AttrState<Kind, Saved> {
    /// What was kept of the value last written.
    pub closed spec fn saved(&self) -> &Saved {
        &self.value
    }

    /// What was kept of the value last written.
    pub fn saved_ref(&self) -> (saved: &Saved)
        ensures
            saved == self.saved(),
    {
        &self.value
    }
}

impl<Kind: AttrKind, Saved: Kept> Mounted for AttrState<Kind, Saved> {
    open spec fn span(&self) -> Seq<NodeId> {
        Seq::empty()
    }

    open spec fn owns(&self, n: NodeId) -> bool {
        false
    }

    open spec fn inv(&self, dom: DomView) -> bool {
        true
    }

    open spec fn is_view(&self) -> bool {
        false
    }

    open spec fn claims(&self) -> Claims {
        map![Kind::NAME@ => self.saved().text()]
    }

    open spec fn settled(&self) -> bool {
        true
    }

    open spec fn hears(&self, l: ListenerId) -> bool {
        false
    }

    proof fn lemma_inv(&self, dom: DomView) {
    }

    proof fn lemma_frame(&self, before: DomView, after: DomView) {
    }
}

impl<Kind: AttrKind, Saved: Kept, Output> State<Output> for AttrState<Kind, Saved> {
    open spec fn reacts(&self, dom: DomView, output: &Output, after: &Self, done: &Output) -> bool {
        *after == *self && *done == *output
    }

    fn run(&mut self, dom: &mut Dom, output: &mut Float<Output>) {
        proof {
            lemma_silenced_none(dom@, &*self);
        }
    }
}

/// The structure after the attribute `name` of `node` was given `text`: set
/// to it, or removed where there is none.
pub open spec fn written(
    dom: DomView,
    node: NodeId,
    name: Seq<char>,
    text: Option<Seq<char>>,
) -> DomView {
    match text {
        Some(t) => dom.with_attr(node, name, t),
        None => dom.without_attr(node, name),
    }
}

/// Gives the attribute `name` of `node` the text of `value`.
fn write<V: AttrValue>(dom: &mut Dom, node: NodeId, name: &str, value: &V)
    requires
        old(dom)@.wf(),
        old(dom)@.is_element(node),
    ensures
        final(dom)@ == written(old(dom)@, node, name@, value.text()),
        attrs_written(old(dom)@, final(dom)@, node),
{
    match value.to_text() {
        Some(text) => {
            dom.set_attribute(node, name, text.as_str());
        },
        None => {
            dom.remove_attribute(node, name);
        },
    }
    proof {
        assert(dom@.nodes =~= old(dom)@.nodes.update(
            node as int,
            crate::dom::NodeView { attrs: dom@.attrs(node), ..old(dom)@.nodes[node as int] },
        ));
    }
}

impl<Kind: AttrKind, Saved: Kept> AttrState<Kind, Saved> {
    /// Sets the attribute of `parent` where `value` asks for it to be
    /// present.
    fn build<V: AttrValue<Saved = Saved>>(dom: &mut Dom, parent: NodeId, value: V) -> (state: Self)
        requires
            old(dom)@.wf(),
            old(dom)@.is_element(parent),
        ensures
            state.saved().text() == value.text(),
            value.unchanged(state.saved()),
            final(dom)@ == match value.text() {
                Some(t) => old(dom)@.with_attr(parent, Kind::NAME@, t),
                None => old(dom)@,
            },
            attrs_written(old(dom)@, final(dom)@, parent),
    {
        match value.to_text() {
            Some(text) => {
                dom.set_attribute(parent, Kind::NAME, text.as_str());
            },
            None => {},
        }
        proof {
            assert(dom@.nodes =~= old(dom)@.nodes.update(
                parent as int,
                crate::dom::NodeView {
                    attrs: dom@.attrs(parent),
                    ..old(dom)@.nodes[parent as int]
                },
            ));
        }
        AttrState { value: value.save(), kind: PhantomData }
    }

    /// Writes the attribute of `parent` again where `value` is not the
    /// value last written.
    fn rebuild<V: AttrValue<Saved = Saved>>(&mut self, dom: &mut Dom, parent: NodeId, value: V)
        requires
            old(dom)@.wf(),
            old(dom)@.is_element(parent),
        ensures
            final(self).saved().text() == value.text(),
            value.unchanged(final(self).saved()),
            final(dom)@ == if value.unchanged(old(self).saved()) {
                old(dom)@
            } else {
                written(old(dom)@, parent, Kind::NAME@, value.text())
            },
            attrs_written(old(dom)@, final(dom)@, parent),
    {
        if !value.changed(&self.value) {
            proof {
                assert(dom@.nodes =~= old(dom)@.nodes.update(
                    parent as int,
                    crate::dom::NodeView {
                        attrs: dom@.attrs(parent),
                        ..old(dom)@.nodes[parent as int]
                    },
                ));
            }
            self.value = value.save();
            return ;
        }
        write(dom, parent, Kind::NAME, &value);
        self.value = value.save();
    }
}

/// An attribute of kind `Kind` with the value `Value`.
pub struct Attr<Kind: AttrKind, Value> {
    value: Value,
    kind: PhantomData<Kind>,
}

impl<Kind: AttrKind, Value: AttrValue> Attr<Kind, Value> {
    /// The value.
    pub closed spec fn value(&self) -> &Value {
        &self.value
    }
}

impl<Kind: AttrKind, Value: AttrValue> Builder for Attr<Kind, Value> {
    type State = AttrState<Kind, Value::Saved>;

    open spec fn wf(&self) -> bool {
        true
    }

    /// The state keeps this value.
    open spec fn describes(&self, state: &Self::State) -> bool {
        state.saved().text() == self.value().text() && self.value().unchanged(state.saved())
    }

    /// The state keeps this value.
    open spec fn matches(&self, state: &Self::State) -> bool {
        self.value().unchanged(state.saved())
    }

    /// The state holds no node and no listener.
    open spec fn keeps(&self, old_state: &Self::State, state: &Self::State) -> bool {
        true
    }

    open spec fn steady(&self) -> bool {
        true
    }

    proof fn lemma_steady(&self, state: &Self::State) {
    }

    /// Sets the attribute of the parent where the value asks for it to be
    /// present.
    fn build(self, cx: BuildCx, dom: &mut Dom) -> (state: Self::State)
        ensures
            final(dom)@ == match self.value().text() {
                Some(t) => old(dom)@.with_attr(cx.position.parent, Kind::NAME@, t),
                None => old(dom)@,
            },
    {
        let ghost d0 = dom@;
        let state = AttrState::build(dom, cx.position.parent, self.value);
        proof {
            lemma_attrs_built(cx, d0, dom@, &state);
        }
        state
    }

    /// Writes the attribute of the parent again where the value is not the
    /// one last written.
    fn rebuild(self, cx: RebuildCx, dom: &mut Dom, state: &mut Self::State)
        ensures
            !self.matches(old(state)) ==> final(dom)@ == written(
                old(dom)@,
                cx.parent,
                Kind::NAME@,
                self.value().text(),
            ),
    {
        let ghost d0 = dom@;
        let ghost s0 = *state;
        proof {
            if self.value().unchanged(s0.saved()) {
                self.value().lemma_unchanged(s0.saved());
            }
        }
        state.rebuild(dom, cx.parent, self.value);
        proof {
            lemma_attrs_rebuilt(cx, d0, &s0, dom@, &*state);
        }
    }
}

/// An attribute of kind `Kind` with the value `value`.
pub fn attr<Kind: AttrKind, Value: AttrValue>(_kind: Kind, value: Value) -> (view: Attr<
    Kind,
    Value,
>)
    ensures
        *view.value() == value,
{
    Attr { value, kind: PhantomData }
}

/// A class value as the value of an attribute: a value without any name
/// asks for the attribute to be absent.
pub struct Classes<V: ClassValue>(pub V);

/// What is kept of a class value that was the value of an attribute.
pub struct KeptClasses<V>(pub V);

impl<V: ClassValue> Kept for KeptClasses<V> {
    open spec fn text(&self) -> Option<Seq<char>> {
        classes_text(&self.0)
    }
}

impl<V: ClassValue> AttrValue for Classes<V> {
    type Saved = KeptClasses<V>;

    open spec fn text(&self) -> Option<Seq<char>> {
        classes_text(&self.0)
    }


    open spec fn unchanged(&self, saved: &KeptClasses<V>) -> bool {
        self.0.alike(&saved.0)
    }

    proof fn lemma_unchanged(&self, saved: &KeptClasses<V>) {
        self.0.lemma_alike(&saved.0);
    }

    fn save(self) -> (saved: KeptClasses<V>) {
        proof {
            self.0.lemma_alike_self();
        }
        KeptClasses(self.0)
    }

    fn changed(&self, saved: &KeptClasses<V>) -> (changed: bool) {
        !self.0.same(&saved.0)
    }

    fn to_text(&self) -> (text: Option<String>) {
        match self.0.as_str() {
            Some(literal) => Some(literal.to_owned()),
            None => {
                let mut text = String::new();
                self.0.append_to(&mut text);
                if text.as_str().is_empty() {
                    None
                } else {
                    Some(text)
                }
            },
        }
    }
}

/// The text that a class value asks for as the value of an attribute: its
/// literal where it has one; otherwise its names parted by single spaces, or
/// no attribute where there is no name.
pub open spec fn classes_text<V: ClassValue>(value: &V) -> Option<Seq<char>> {
    match value.literal() {
        Some(text) => Some(text),
        None => if joined(value.names()).len() == 0 {
            None
        } else {
            Some(joined(value.names()))
        },
    }
}

/// The `class` attribute.
pub struct AttrClass<Value> {
    value: Value,
}

/// The state of an [`AttrClass`]: the value last written.
pub struct AttrClassState<Value> {
    value: Value,
}

impl<Value> AttrClassState<Value> {
    /// The value last written.
    pub closed spec fn value(&self) -> &Value {
        &self.value
    }
}

impl<Value: ClassValue> Mounted for AttrClassState<Value> {
    open spec fn span(&self) -> Seq<NodeId> {
        Seq::empty()
    }

    open spec fn owns(&self, n: NodeId) -> bool {
        false
    }

    open spec fn inv(&self, dom: DomView) -> bool {
        true
    }

    open spec fn is_view(&self) -> bool {
        false
    }

    open spec fn claims(&self) -> Claims {
        map!["class"@ => Some(class_text(self.value()))]
    }

    open spec fn settled(&self) -> bool {
        true
    }

    open spec fn hears(&self, l: ListenerId) -> bool {
        false
    }

    proof fn lemma_inv(&self, dom: DomView) {
    }

    proof fn lemma_frame(&self, before: DomView, after: DomView) {
    }
}

impl<Value: ClassValue, Output> State<Output> for AttrClassState<Value> {
    open spec fn reacts(&self, dom: DomView, output: &Output, after: &Self, done: &Output) -> bool {
        *after == *self && *done == *output
    }

    fn run(&mut self, dom: &mut Dom, output: &mut Float<Output>) {
        proof {
            lemma_silenced_none(dom@, &*self);
        }
    }
}

impl<Value: ClassValue> AttrClass<Value> {
    /// The value.
    pub closed spec fn value(&self) -> &Value {
        &self.value
    }

    /// Sets the `class` attribute of `parent` to the text of the value, and
    /// hands the value back.
    fn set_on(self, dom: &mut Dom, parent: NodeId) -> (value: Value)
        requires
            old(dom)@.wf(),
            old(dom)@.is_element(parent),
        ensures
            value == *self.value(),
            final(dom)@ == old(dom)@.with_attr(parent, "class"@, class_text(self.value())),
            attrs_written(old(dom)@, final(dom)@, parent),
    {
        let text = class_string(&self.value);
        dom.set_attribute(parent, "class", text.as_str());
        proof {
            assert(dom@.nodes =~= old(dom)@.nodes.update(
                parent as int,
                crate::dom::NodeView {
                    attrs: dom@.attrs(parent),
                    ..old(dom)@.nodes[parent as int]
                },
            ));
        }
        self.value
    }
}

impl<Value: ClassValue> Builder for AttrClass<Value> {
    type State = AttrClassState<Value>;

    open spec fn wf(&self) -> bool {
        true
    }

    /// The state keeps a value that is the same as this one.
    open spec fn describes(&self, state: &Self::State) -> bool {
        self.value().alike(state.value()) && state.value().alike(self.value())
    }

    /// The state keeps a value that is the same as this one.
    open spec fn matches(&self, state: &Self::State) -> bool {
        state.value().alike(self.value())
    }

    /// The state holds no node and no listener.
    open spec fn keeps(&self, old_state: &Self::State, state: &Self::State) -> bool {
        true
    }

    open spec fn steady(&self) -> bool {
        true
    }

    proof fn lemma_steady(&self, state: &Self::State) {
    }

    /// Sets the `class` attribute of the parent.
    fn build(self, cx: BuildCx, dom: &mut Dom) -> (state: Self::State)
        ensures
            final(dom)@ == old(dom)@.with_attr(
                cx.position.parent,
                "class"@,
                class_text(self.value()),
            ),
    {
        let ghost d0 = dom@;
        proof {
            self.value().lemma_alike_self();
        }
        let state = AttrClassState { value: self.set_on(dom, cx.position.parent) };
        proof {
            lemma_attrs_built(cx, d0, dom@, &state);
        }
        state
    }

    /// Sets the `class` attribute of the parent again unless the value is
    /// the same as the one last written.
    fn rebuild(self, cx: RebuildCx, dom: &mut Dom, state: &mut Self::State)
        ensures
            !self.matches(old(state)) ==> final(dom)@ == old(dom)@.with_attr(
                cx.parent,
                "class"@,
                class_text(self.value()),
            ),
    {
        let ghost d0 = dom@;
        let ghost s0 = *state;
        if !state.value.same(&self.value) {
            proof {
                self.value().lemma_alike_self();
            }
            state.value = self.set_on(dom, cx.parent);
        } else {
            proof {
                assert(dom@.nodes =~= d0.nodes.update(
                    cx.parent as int,
                    crate::dom::NodeView {
                        attrs: dom@.attrs(cx.parent),
                        ..d0.nodes[cx.parent as int]
                    },
                ));
                state.value().lemma_alike(self.value());
                self.value().lemma_alike_self();
            }
            state.value = self.value;
        }
        proof {
            lemma_attrs_rebuilt(cx, d0, &s0, dom@, &*state);
        }
    }
}

/// The `class` attribute with the names of `value`.
pub fn class<Value: ClassValue>(value: Value) -> (view: AttrClass<Value>)
    ensures
        *view.value() == value,
{
    AttrClass { value }
}

/// A boolean attribute of kind `Kind`: present while the value is true.
pub struct BooleanAttr<Kind: AttrKind> {
    value: bool,
    kind: PhantomData<Kind>,
}

/// The state of a boolean attribute of kind `Kind`: whether the attribute
/// is present.
pub struct BooleanAttrState<Kind> {
    value: bool,
    kind: PhantomData<Kind>,
}

impl<Kind: AttrKind> BooleanAttrState<Kind> {
    /// Whether the attribute was last written as present.
    pub closed spec fn value(&self) -> bool {
        self.value
    }

    /// Sets the attribute of `parent` where `value` is true.
    pub(crate) fn build(dom: &mut Dom, parent: NodeId, value: bool) -> (state: Self)
        requires
            old(dom)@.wf(),
            old(dom)@.is_element(parent),
        ensures
            state.value() == value,
            final(dom)@ == if value {
                old(dom)@.with_attr(parent, Kind::NAME@, Seq::empty())
            } else {
                old(dom)@
            },
            attrs_written(old(dom)@, final(dom)@, parent),
    {
        if value {
            proof {
                reveal_strlit("");
                assert(""@ =~= Seq::empty());
            }
            dom.set_attribute(parent, Kind::NAME, "");
        }
        proof {
            assert(dom@.nodes =~= old(dom)@.nodes.update(
                parent as int,
                crate::dom::NodeView {
                    attrs: dom@.attrs(parent),
                    ..old(dom)@.nodes[parent as int]
                },
            ));
        }
        BooleanAttrState { value, kind: PhantomData }
    }

    /// Sets the attribute of `parent` where `value` became true, removes it
    /// where `value` became false.
    pub(crate) fn rebuild(&mut self, dom: &mut Dom, parent: NodeId, value: bool)
        requires
            old(dom)@.wf(),
            old(dom)@.is_element(parent),
        ensures
            final(self).value() == value,
            final(dom)@ == if value && !old(self).value() {
                old(dom)@.with_attr(parent, Kind::NAME@, Seq::empty())
            } else if !value && old(self).value() {
                old(dom)@.without_attr(parent, Kind::NAME@)
            } else {
                old(dom)@
            },
            attrs_written(old(dom)@, final(dom)@, parent),
    {
        if value && !self.value {
            proof {
                reveal_strlit("");
                assert(""@ =~= Seq::empty());
            }
            dom.set_attribute(parent, Kind::NAME, "");
        } else if !value && self.value {
            dom.remove_attribute(parent, Kind::NAME);
        }
        proof {
            assert(dom@.nodes =~= old(dom)@.nodes.update(
                parent as int,
                crate::dom::NodeView {
                    attrs: dom@.attrs(parent),
                    ..old(dom)@.nodes[parent as int]
                },
            ));
        }
        self.value = value;
    }
}

impl<Kind: AttrKind> Mounted for BooleanAttrState<Kind> {
    open spec fn span(&self) -> Seq<NodeId> {
        Seq::empty()
    }

    open spec fn owns(&self, n: NodeId) -> bool {
        false
    }

    open spec fn inv(&self, dom: DomView) -> bool {
        true
    }

    open spec fn is_view(&self) -> bool {
        false
    }

    open spec fn claims(&self) -> Claims {
        map![Kind::NAME@ => self.value().text()]
    }

    open spec fn settled(&self) -> bool {
        true
    }

    open spec fn hears(&self, l: ListenerId) -> bool {
        false
    }

    proof fn lemma_inv(&self, dom: DomView) {
    }

    proof fn lemma_frame(&self, before: DomView, after: DomView) {
    }
}

impl<Kind: AttrKind, Output> State<Output> for BooleanAttrState<Kind> {
    open spec fn reacts(&self, dom: DomView, output: &Output, after: &Self, done: &Output) -> bool {
        *after == *self && *done == *output
    }

    fn run(&mut self, dom: &mut Dom, output: &mut Float<Output>) {
        proof {
            lemma_silenced_none(dom@, &*self);
        }
    }
}

impl<Kind: AttrKind> BooleanAttr<Kind> {
    /// Whether the attribute is to be present.
    pub closed spec fn value(&self) -> bool {
        self.value
    }
}

impl<Kind: AttrKind> Builder for BooleanAttr<Kind> {
    type State = BooleanAttrState<Kind>;

    open spec fn wf(&self) -> bool {
        true
    }

    open spec fn describes(&self, state: &BooleanAttrState<Kind>) -> bool {
        state.value() == self.value()
    }

    open spec fn matches(&self, state: &BooleanAttrState<Kind>) -> bool {
        state.value() == self.value()
    }

    /// The state holds no node and no listener.
    open spec fn keeps(&self, old_state: &Self::State, state: &Self::State) -> bool {
        true
    }

    open spec fn steady(&self) -> bool {
        true
    }

    proof fn lemma_steady(&self, state: &BooleanAttrState<Kind>) {
    }

    /// Sets the attribute of the parent where the value is true.
    fn build(self, cx: BuildCx, dom: &mut Dom) -> (state: BooleanAttrState<Kind>)
        ensures
            final(dom)@ == if self.value() {
                old(dom)@.with_attr(cx.position.parent, Kind::NAME@, Seq::empty())
            } else {
                old(dom)@
            },
    {
        let ghost d0 = dom@;
        let state = BooleanAttrState::build(dom, cx.position.parent, self.value);
        proof {
            lemma_attrs_built(cx, d0, dom@, &state);
        }
        state
    }

    /// Sets the attribute of the parent where the value became true, removes
    /// it where the value became false.
    fn rebuild(self, cx: RebuildCx, dom: &mut Dom, state: &mut BooleanAttrState<Kind>)
        ensures
            final(dom)@ == if self.value() && !old(state).value() {
                old(dom)@.with_attr(cx.parent, Kind::NAME@, Seq::empty())
            } else if !self.value() && old(state).value() {
                old(dom)@.without_attr(cx.parent, Kind::NAME@)
            } else {
                old(dom)@
            },
    {
        let ghost d0 = dom@;
        let ghost s0 = *state;
        state.rebuild(dom, cx.parent, self.value);
        proof {
            lemma_attrs_rebuilt(cx, d0, &s0, dom@, &*state);
        }
    }
}

/// A boolean attribute of kind `Kind`, present while `value` is true.
pub fn boolean_attr<Kind: AttrKind>(_kind: Kind, value: bool) -> (view: BooleanAttr<Kind>)
    ensures
        view.value() == value,
{
    BooleanAttr { value, kind: PhantomData }
}

} // verus!
