//! Values of the `class` attribute: a space separated list of names, put
//! together from strings, options and tuples.

use crate::text::same_text;
use vstd::prelude::*;

pub mod wide;

verus! {

/// `names` put behind `text`, each parted from what stands before it by one
/// space.
pub open spec fn joined_onto(text: Seq<char>, names: Seq<Seq<char>>) -> Seq<char>
    decreases names.len(),
{
    if names.len() == 0 {
        text
    } else if text.len() == 0 {
        joined_onto(names[0], names.drop_first())
    } else {
        joined_onto(text + seq![' '] + names[0], names.drop_first())
    }
}

/// `names` parted by single spaces.
pub open spec fn joined(names: Seq<Seq<char>>) -> Seq<char> {
    joined_onto(Seq::empty(), names)
}

/// Putting two lists of names behind a text, one after the other, is
/// putting the names of both behind it.
pub proof fn lemma_joined_concat(text: Seq<char>, a: Seq<Seq<char>>, b: Seq<Seq<char>>)
    ensures
        joined_onto(joined_onto(text, a), b) == joined_onto(text, a + b),
    decreases a.len(),
{
    if a.len() == 0 {
        assert(a + b =~= b);
    } else {
        assert((a + b).drop_first() =~= a.drop_first() + b);
        assert((a + b)[0] == a[0]);
        if text.len() == 0 {
            lemma_joined_concat(a[0], a.drop_first(), b);
        } else {
            lemma_joined_concat(text + seq![' '] + a[0], a.drop_first(), b);
        }
    }
}

/// A value of the `class` attribute.
///
/// A string is one class name, a tuple stands for the names of its
/// elements, one after the other, and an option for its names or for none.
pub trait ClassValue: Sized {
    /// The whole text of the attribute, where the value is one string that
    /// lives as long as the program.
    spec fn literal(&self) -> Option<Seq<char>>;

    /// The class names, in order.
    spec fn names(&self) -> Seq<Seq<char>>;

    /// Whether the two values are the same.
    spec fn alike(&self, other: &Self) -> bool;

    /// Values that are the same stand for the same names.
    proof fn lemma_alike(&self, other: &Self)
        requires
            self.alike(other),
        ensures
            self.literal() == other.literal(),
            self.names() == other.names(),
    ;

    /// A value is the same as itself.
    proof fn lemma_alike_self(&self)
        ensures
            self.alike(self),
    ;

    /// The whole text of the attribute, where the value is one string that
    /// lives as long as the program.
    fn as_str(&self) -> (text: Option<&'static str>)
        ensures
            match text {
                Some(t) => self.literal() == Some(t@),
                None => self.literal() is None,
            },
    ;

    /// Puts the class names behind `text`, each parted from what stands
    /// before it by one space.
    fn append_to(&self, text: &mut String)
        ensures
            final(text)@ == joined_onto(old(text)@, self.names()),
    ;

    /// Whether the two values are the same.
    fn same(&self, other: &Self) -> (same: bool)
        ensures
            same == self.alike(other),
    ;
}

/// Puts `name` behind `text`, parted from it by one space unless `text` is
/// empty.
fn append_name(text: &mut String, name: &str)
    ensures
        final(text)@ == joined_onto(old(text)@, seq![name@]),
{
    proof {
        reveal_strlit(" ");
        assert(seq![name@].drop_first() =~= Seq::<Seq<char>>::empty());
        assert(" "@ =~= seq![' ']);
    }
    if !text.as_str().is_empty() {
        text.append(" ");
    }
    text.append(name);
    proof {
        let names = seq![name@];
        let rest = names.drop_first();
        assert(rest.len() == 0);
        assert(names[0] == name@);
        if old(text)@.len() == 0 {
            assert(text@ =~= name@);
            assert(joined_onto(name@, rest) == name@);
        } else {
            assert(text@ =~= old(text)@ + seq![' '] + name@);
            assert(joined_onto(old(text)@ + seq![' '] + name@, rest) == old(text)@ + seq![' ']
                + name@);
        }
    }
}

impl ClassValue for &'static str {
    open spec fn literal(&self) -> Option<Seq<char>> {
        Some(self@)
    }

    open spec fn names(&self) -> Seq<Seq<char>> {
        seq![self@]
    }

    open spec fn alike(&self, other: &Self) -> bool {
        self@ == other@
    }

    proof fn lemma_alike(&self, other: &Self) {
    }

    proof fn lemma_alike_self(&self) {
    }

    fn as_str(&self) -> (text: Option<&'static str>) {
        Some(*self)
    }

    fn append_to(&self, text: &mut String) {
        append_name(text, *self);
    }

    fn same(&self, other: &Self) -> (same: bool) {
        same_text(*self, *other)
    }
}

impl ClassValue for String {
    open spec fn literal(&self) -> Option<Seq<char>> {
        None
    }

    open spec fn names(&self) -> Seq<Seq<char>> {
        seq![self@]
    }

    open spec fn alike(&self, other: &Self) -> bool {
        self@ == other@
    }

    proof fn lemma_alike(&self, other: &Self) {
    }

    proof fn lemma_alike_self(&self) {
    }

    fn as_str(&self) -> (text: Option<&'static str>) {
        None
    }

    fn append_to(&self, text: &mut String) {
        append_name(text, self.as_str());
    }

    fn same(&self, other: &Self) -> (same: bool) {
        same_text(self.as_str(), other.as_str())
    }
}

impl<C: ClassValue> ClassValue for Option<C> {
    open spec fn literal(&self) -> Option<Seq<char>> {
        match self {
            Some(value) => value.literal(),
            None => None,
        }
    }

    open spec fn names(&self) -> Seq<Seq<char>> {
        match self {
            Some(value) => value.names(),
            None => Seq::empty(),
        }
    }

    open spec fn alike(&self, other: &Self) -> bool {
        match (self, other) {
            (Some(a), Some(b)) => a.alike(b),
            (None, None) => true,
            _ => false,
        }
    }

    proof fn lemma_alike(&self, other: &Self) {
        match (self, other) {
            (Some(a), Some(b)) => {
                a.lemma_alike(b);
            },
            _ => {},
        }
    }

    proof fn lemma_alike_self(&self) {
        match self {
            Some(a) => {
                a.lemma_alike_self();
            },
            None => {},
        }
    }

    fn as_str(&self) -> (text: Option<&'static str>) {
        match self {
            Some(value) => value.as_str(),
            None => None,
        }
    }

    fn append_to(&self, text: &mut String) {
        match self {
            Some(value) => {
                value.append_to(text);
            },
            None => {},
        }
    }

    fn same(&self, other: &Self) -> (same: bool) {
        match (self, other) {
            (Some(a), Some(b)) => a.same(b),
            (None, None) => true,
            _ => false,
        }
    }
}

impl ClassValue for () {
    open spec fn literal(&self) -> Option<Seq<char>> {
        None
    }

    open spec fn names(&self) -> Seq<Seq<char>> {
        Seq::empty()
    }

    open spec fn alike(&self, other: &Self) -> bool {
        true
    }

    proof fn lemma_alike(&self, other: &Self) {
    }

    proof fn lemma_alike_self(&self) {
    }

    fn as_str(&self) -> (text: Option<&'static str>) {
        None
    }

    fn append_to(&self, text: &mut String) {
    }

    fn same(&self, other: &Self) -> (same: bool) {
        true
    }
}

impl<A: ClassValue> ClassValue for (A,) {
    open spec fn literal(&self) -> Option<Seq<char>> {
        None
    }

    open spec fn names(&self) -> Seq<Seq<char>> {
        self.0.names()
    }

    open spec fn alike(&self, other: &Self) -> bool {
        self.0.alike(&other.0)
    }

    proof fn lemma_alike(&self, other: &Self) {
        self.0.lemma_alike(&other.0);
    }

    proof fn lemma_alike_self(&self) {
        self.0.lemma_alike_self();
    }

    fn as_str(&self) -> (text: Option<&'static str>) {
        None
    }

    fn append_to(&self, text: &mut String) {
        self.0.append_to(text);
    }

    fn same(&self, other: &Self) -> (same: bool) {
        self.0.same(&other.0)
    }
}

impl<A: ClassValue, B: ClassValue> ClassValue for (A, B) {
    open spec fn literal(&self) -> Option<Seq<char>> {
        None
    }

    open spec fn names(&self) -> Seq<Seq<char>> {
        self.0.names() + self.1.names()
    }

    open spec fn alike(&self, other: &Self) -> bool {
        self.0.alike(&other.0) && self.1.alike(&other.1)
    }

    proof fn lemma_alike(&self, other: &Self) {
        self.0.lemma_alike(&other.0);
        self.1.lemma_alike(&other.1);
    }

    proof fn lemma_alike_self(&self) {
        self.0.lemma_alike_self();
        self.1.lemma_alike_self();
    }

    fn as_str(&self) -> (text: Option<&'static str>) {
        None
    }

    fn append_to(&self, text: &mut String) {
        self.0.append_to(text);
        self.1.append_to(text);
        proof {
            lemma_joined_concat(old(text)@, self.0.names(), self.1.names());
        }
    }

    fn same(&self, other: &Self) -> (same: bool) {
        self.0.same(&other.0) && self.1.same(&other.1)
    }
}

impl<A: ClassValue, B: ClassValue, C: ClassValue> ClassValue for (A, B, C) {
    open spec fn literal(&self) -> Option<Seq<char>> {
        None
    }

    open spec fn names(&self) -> Seq<Seq<char>> {
        self.0.names() + self.1.names() + self.2.names()
    }

    open spec fn alike(&self, other: &Self) -> bool {
        self.0.alike(&other.0) && self.1.alike(&other.1) && self.2.alike(&other.2)
    }

    proof fn lemma_alike(&self, other: &Self) {
        self.0.lemma_alike(&other.0);
        self.1.lemma_alike(&other.1);
        self.2.lemma_alike(&other.2);
    }

    proof fn lemma_alike_self(&self) {
        self.0.lemma_alike_self();
        self.1.lemma_alike_self();
        self.2.lemma_alike_self();
    }

    fn as_str(&self) -> (text: Option<&'static str>) {
        None
    }

    fn append_to(&self, text: &mut String) {
        self.0.append_to(text);
        self.1.append_to(text);
        self.2.append_to(text);
        proof {
            lemma_joined_concat(old(text)@, self.0.names(), self.1.names());
            lemma_joined_concat(old(text)@, self.0.names() + self.1.names(), self.2.names());
        }
    }

    fn same(&self, other: &Self) -> (same: bool) {
        self.0.same(&other.0) && self.1.same(&other.1) && self.2.same(&other.2)
    }
}

/// The text that a class value sets the attribute to: its literal where it
/// has one, its names parted by single spaces otherwise.
pub open spec fn class_text<V: ClassValue>(value: &V) -> Seq<char> {
    match value.literal() {
        Some(text) => text,
        None => joined(value.names()),
    }
}

/// The text that a class value sets the attribute to.
pub fn class_string<V: ClassValue>(value: &V) -> (text: String)
    ensures
        text@ == class_text(value),
{
    match value.as_str() {
        Some(literal) => literal.to_owned(),
        None => {
            let mut text = String::new();
            value.append_to(&mut text);
            text
        },
    }
}

} // verus!
