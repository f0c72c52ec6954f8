//! The attributes that have a name of their own.

use crate::attr::{attr, Attr, AttrKind, AttrValue, BooleanAttrState};
use crate::builder::{BuildCx, Builder, RebuildCx};
use crate::compose::{lemma_attrs_built, lemma_attrs_rebuilt};
use crate::dom::Dom;
use vstd::prelude::*;

verus! {

/// `aria-hidden` attribute.
#[derive(Clone, Copy)]
pub struct AriaHidden;

impl AttrKind for AriaHidden {
    const NAME: &'static str = "aria-hidden";
}

/// `aria-hidden` attribute.
pub fn aria_hidden<Value: AttrValue>(value: Value) -> (view: Attr<AriaHidden, Value>)
    ensures
        *view.value() == value,
        AriaHidden::NAME@ == "aria-hidden"@,
{
    attr(AriaHidden, value)
}

/// `for` attribute.
#[derive(Clone, Copy)]
pub struct For;

impl AttrKind for For {
    const NAME: &'static str = "for";
}

/// `for` attribute.
pub fn for_<Value: AttrValue>(value: Value) -> (view: Attr<For, Value>)
    ensures
        *view.value() == value,
        For::NAME@ == "for"@,
{
    attr(For, value)
}

/// `href` attribute.
#[derive(Clone, Copy)]
pub struct Href;

impl AttrKind for Href {
    const NAME: &'static str = "href";
}

/// `href` attribute.
pub fn href<Value: AttrValue>(value: Value) -> (view: Attr<Href, Value>)
    ensures
        *view.value() == value,
        Href::NAME@ == "href"@,
{
    attr(Href, value)
}

/// `id` attribute.
#[derive(Clone, Copy)]
pub struct Id;

impl AttrKind for Id {
    const NAME: &'static str = "id";
}

/// `id` attribute.
pub fn id<Value: AttrValue>(value: Value) -> (view: Attr<Id, Value>)
    ensures
        *view.value() == value,
        Id::NAME@ == "id"@,
{
    attr(Id, value)
}

/// `max` attribute.
#[derive(Clone, Copy)]
pub struct Max;

impl AttrKind for Max {
    const NAME: &'static str = "max";
}

/// `max` attribute.
pub fn max<Value: AttrValue>(value: Value) -> (view: Attr<Max, Value>)
    ensures
        *view.value() == value,
        Max::NAME@ == "max"@,
{
    attr(Max, value)
}

/// `min` attribute.
#[derive(Clone, Copy)]
pub struct Min;

impl AttrKind for Min {
    const NAME: &'static str = "min";
}

/// `min` attribute.
pub fn min<Value: AttrValue>(value: Value) -> (view: Attr<Min, Value>)
    ensures
        *view.value() == value,
        Min::NAME@ == "min"@,
{
    attr(Min, value)
}

/// `value` attribute.
#[derive(Clone, Copy)]
pub struct Value_;

impl AttrKind for Value_ {
    const NAME: &'static str = "value";
}

/// `value` attribute.
pub fn value_<Value: AttrValue>(value: Value) -> (view: Attr<Value_, Value>)
    ensures
        *view.value() == value,
        Value_::NAME@ == "value"@,
{
    attr(Value_, value)
}

/// `placeholder` attribute.
#[derive(Clone, Copy)]
pub struct Placeholder;

impl AttrKind for Placeholder {
    const NAME: &'static str = "placeholder";
}

/// `placeholder` attribute.
pub fn placeholder<Value: AttrValue>(value: Value) -> (view: Attr<Placeholder, Value>)
    ensures
        *view.value() == value,
        Placeholder::NAME@ == "placeholder"@,
{
    attr(Placeholder, value)
}

/// `style` attribute.
#[derive(Clone, Copy)]
pub struct Style;

impl AttrKind for Style {
    const NAME: &'static str = "style";
}

/// `style` attribute.
pub fn style<Value: AttrValue>(value: Value) -> (view: Attr<Style, Value>)
    ensures
        *view.value() == value,
        Style::NAME@ == "style"@,
{
    attr(Style, value)
}

/// `type` attribute.
#[derive(Clone, Copy)]
pub struct Type;

impl AttrKind for Type {
    const NAME: &'static str = "type";
}

/// `type` attribute.
pub fn type_<Value: AttrValue>(value: Value) -> (view: Attr<Type, Value>)
    ensures
        *view.value() == value,
        Type::NAME@ == "type"@,
{
    attr(Type, value)
}

/// `autofocus` attribute.
#[derive(Clone, Copy, Debug)]
pub struct Autofocus(pub bool);

impl AttrKind for Autofocus {
    const NAME: &'static str = "autofocus";
}

impl Builder for Autofocus {
    type State = BooleanAttrState<Autofocus>;

    open spec fn wf(&self) -> bool {
        true
    }

    open spec fn describes(&self, state: &BooleanAttrState<Autofocus>) -> bool {
        state.value() == self.0
    }

    open spec fn matches(&self, state: &BooleanAttrState<Autofocus>) -> bool {
        state.value() == self.0
    }

    /// The state holds no node and no listener.
    open spec fn keeps(&self, old_state: &Self::State, state: &Self::State) -> bool {
        true
    }

    open spec fn steady(&self) -> bool {
        true
    }

    proof fn lemma_steady(&self, state: &BooleanAttrState<Autofocus>) {
    }

    /// Sets the attribute of the parent where the value is true.
    fn build(self, cx: BuildCx, dom: &mut Dom) -> (state: BooleanAttrState<Autofocus>)
        ensures
            final(dom)@ == if self.0 {
                old(dom)@.with_attr(cx.position.parent, "autofocus"@, Seq::empty())
            } else {
                old(dom)@
            },
    {
        let ghost d0 = dom@;
        let state = BooleanAttrState::build(dom, cx.position.parent, self.0);
        proof {
            lemma_attrs_built(cx, d0, dom@, &state);
        }
        state
    }

    /// Sets the attribute of the parent where the value became true, removes
    /// it where the value became false.
    fn rebuild(self, cx: RebuildCx, dom: &mut Dom, state: &mut BooleanAttrState<Autofocus>)
        ensures
            final(dom)@ == if self.0 && !old(state).value() {
                old(dom)@.with_attr(cx.parent, "autofocus"@, Seq::empty())
            } else if !self.0 && old(state).value() {
                old(dom)@.without_attr(cx.parent, "autofocus"@)
            } else {
                old(dom)@
            },
    {
        let ghost d0 = dom@;
        let ghost s0 = *state;
        state.rebuild(dom, cx.parent, self.0);
        proof {
            lemma_attrs_rebuilt(cx, d0, &s0, dom@, &*state);
        }
    }
}

/// `autofocus` attribute.
pub fn autofocus(value: bool) -> (view: Autofocus)
    ensures
        view.0 == value,
        Autofocus::NAME@ == "autofocus"@,
{
    Autofocus(value)
}

/// `checked` attribute.
#[derive(Clone, Copy, Debug)]
pub struct Checked(pub bool);

impl AttrKind for Checked {
    const NAME: &'static str = "checked";
}

impl Builder for Checked {
    type State = BooleanAttrState<Checked>;

    open spec fn wf(&self) -> bool {
        true
    }

    open spec fn describes(&self, state: &BooleanAttrState<Checked>) -> bool {
        state.value() == self.0
    }

    open spec fn matches(&self, state: &BooleanAttrState<Checked>) -> bool {
        state.value() == self.0
    }

    /// The state holds no node and no listener.
    open spec fn keeps(&self, old_state: &Self::State, state: &Self::State) -> bool {
        true
    }

    open spec fn steady(&self) -> bool {
        true
    }

    proof fn lemma_steady(&self, state: &BooleanAttrState<Checked>) {
    }

    /// Sets the attribute of the parent where the value is true.
    fn build(self, cx: BuildCx, dom: &mut Dom) -> (state: BooleanAttrState<Checked>)
        ensures
            final(dom)@ == if self.0 {
                old(dom)@.with_attr(cx.position.parent, "checked"@, Seq::empty())
            } else {
                old(dom)@
            },
    {
        let ghost d0 = dom@;
        let state = BooleanAttrState::build(dom, cx.position.parent, self.0);
        proof {
            lemma_attrs_built(cx, d0, dom@, &state);
        }
        state
    }

    /// Sets the attribute of the parent where the value became true, removes
    /// it where the value became false.
    fn rebuild(self, cx: RebuildCx, dom: &mut Dom, state: &mut BooleanAttrState<Checked>)
        ensures
            final(dom)@ == if self.0 && !old(state).value() {
                old(dom)@.with_attr(cx.parent, "checked"@, Seq::empty())
            } else if !self.0 && old(state).value() {
                old(dom)@.without_attr(cx.parent, "checked"@)
            } else {
                old(dom)@
            },
    {
        let ghost d0 = dom@;
        let ghost s0 = *state;
        state.rebuild(dom, cx.parent, self.0);
        proof {
            lemma_attrs_rebuilt(cx, d0, &s0, dom@, &*state);
        }
    }
}

/// `checked` attribute.
pub fn checked(value: bool) -> (view: Checked)
    ensures
        view.0 == value,
        Checked::NAME@ == "checked"@,
{
    Checked(value)
}

/// The names of the attributes of this module.
pub proof fn lemma_names()
    ensures
        AriaHidden::NAME@ == "aria-hidden"@,
        For::NAME@ == "for"@,
        Href::NAME@ == "href"@,
        Id::NAME@ == "id"@,
        Max::NAME@ == "max"@,
        Min::NAME@ == "min"@,
        Value_::NAME@ == "value"@,
        Placeholder::NAME@ == "placeholder"@,
        Style::NAME@ == "style"@,
        Type::NAME@ == "type"@,
        Autofocus::NAME@ == "autofocus"@,
        Checked::NAME@ == "checked"@,
{
}

} // verus!
