//! Class values of four to eight elements.

use crate::class::{lemma_joined_concat, ClassValue};
use vstd::prelude::*;

verus! {

impl<A: ClassValue, B: ClassValue, C: ClassValue, D: ClassValue> ClassValue for (A, B, C, D) {
    open spec fn literal(&self) -> Option<Seq<char>> {
        None
    }

    open spec fn names(&self) -> Seq<Seq<char>> {
        self.0.names() + self.1.names() + self.2.names() + self.3.names()
    }

    open spec fn alike(&self, other: &Self) -> bool {
        &&& self.0.alike(&other.0)
        &&& self.1.alike(&other.1)
        &&& self.2.alike(&other.2)
        &&& self.3.alike(&other.3)
    }

    proof fn lemma_alike(&self, other: &Self) {
        self.0.lemma_alike(&other.0);
        self.1.lemma_alike(&other.1);
        self.2.lemma_alike(&other.2);
        self.3.lemma_alike(&other.3);
    }

    proof fn lemma_alike_self(&self) {
        self.0.lemma_alike_self();
        self.1.lemma_alike_self();
        self.2.lemma_alike_self();
        self.3.lemma_alike_self();
    }

    fn as_str(&self) -> (text: Option<&'static str>) {
        None
    }

    fn append_to(&self, text: &mut String) {
        self.0.append_to(text);
        self.1.append_to(text);
        self.2.append_to(text);
        self.3.append_to(text);
        proof {
            let start = old(text)@;
            let names1 = self.0.names();
            lemma_joined_concat(start, names1, self.1.names());
            let names2 = names1 + self.1.names();
            lemma_joined_concat(start, names2, self.2.names());
            let names3 = names2 + self.2.names();
            lemma_joined_concat(start, names3, self.3.names());
        }
    }

    fn same(&self, other: &Self) -> (same: bool) {
        self.0.same(&other.0)
            && self.1.same(&other.1)
            && self.2.same(&other.2)
            && self.3.same(&other.3)
    }
}

impl<
    A: ClassValue,
    B: ClassValue,
    C: ClassValue,
    D: ClassValue,
    E: ClassValue,
> ClassValue for (A, B, C, D, E) {
    open spec fn literal(&self) -> Option<Seq<char>> {
        None
    }

    open spec fn names(&self) -> Seq<Seq<char>> {
        self.0.names() + self.1.names() + self.2.names() + self.3.names() + self.4.names()
    }

    open spec fn alike(&self, other: &Self) -> bool {
        &&& self.0.alike(&other.0)
        &&& self.1.alike(&other.1)
        &&& self.2.alike(&other.2)
        &&& self.3.alike(&other.3)
        &&& self.4.alike(&other.4)
    }

    proof fn lemma_alike(&self, other: &Self) {
        self.0.lemma_alike(&other.0);
        self.1.lemma_alike(&other.1);
        self.2.lemma_alike(&other.2);
        self.3.lemma_alike(&other.3);
        self.4.lemma_alike(&other.4);
    }

    proof fn lemma_alike_self(&self) {
        self.0.lemma_alike_self();
        self.1.lemma_alike_self();
        self.2.lemma_alike_self();
        self.3.lemma_alike_self();
        self.4.lemma_alike_self();
    }

    fn as_str(&self) -> (text: Option<&'static str>) {
        None
    }

    fn append_to(&self, text: &mut String) {
        self.0.append_to(text);
        self.1.append_to(text);
        self.2.append_to(text);
        self.3.append_to(text);
        self.4.append_to(text);
        proof {
            let start = old(text)@;
            let names1 = self.0.names();
            lemma_joined_concat(start, names1, self.1.names());
            let names2 = names1 + self.1.names();
            lemma_joined_concat(start, names2, self.2.names());
            let names3 = names2 + self.2.names();
            lemma_joined_concat(start, names3, self.3.names());
            let names4 = names3 + self.3.names();
            lemma_joined_concat(start, names4, self.4.names());
        }
    }

    fn same(&self, other: &Self) -> (same: bool) {
        self.0.same(&other.0)
            && self.1.same(&other.1)
            && self.2.same(&other.2)
            && self.3.same(&other.3)
            && self.4.same(&other.4)
    }
}

impl<
    A: ClassValue,
    B: ClassValue,
    C: ClassValue,
    D: ClassValue,
    E: ClassValue,
    F: ClassValue,
> ClassValue for (A, B, C, D, E, F) {
    open spec fn literal(&self) -> Option<Seq<char>> {
        None
    }

    open spec fn names(&self) -> Seq<Seq<char>> {
        self.0.names() + self.1.names() + self.2.names() + self.3.names()
            + self.4.names() + self.5.names()
    }

    open spec fn alike(&self, other: &Self) -> bool {
        &&& self.0.alike(&other.0)
        &&& self.1.alike(&other.1)
        &&& self.2.alike(&other.2)
        &&& self.3.alike(&other.3)
        &&& self.4.alike(&other.4)
        &&& self.5.alike(&other.5)
    }

    proof fn lemma_alike(&self, other: &Self) {
        self.0.lemma_alike(&other.0);
        self.1.lemma_alike(&other.1);
        self.2.lemma_alike(&other.2);
        self.3.lemma_alike(&other.3);
        self.4.lemma_alike(&other.4);
        self.5.lemma_alike(&other.5);
    }

    proof fn lemma_alike_self(&self) {
        self.0.lemma_alike_self();
        self.1.lemma_alike_self();
        self.2.lemma_alike_self();
        self.3.lemma_alike_self();
        self.4.lemma_alike_self();
        self.5.lemma_alike_self();
    }

    fn as_str(&self) -> (text: Option<&'static str>) {
        None
    }

    fn append_to(&self, text: &mut String) {
        self.0.append_to(text);
        self.1.append_to(text);
        self.2.append_to(text);
        self.3.append_to(text);
        self.4.append_to(text);
        self.5.append_to(text);
        proof {
            let start = old(text)@;
            let names1 = self.0.names();
            lemma_joined_concat(start, names1, self.1.names());
            let names2 = names1 + self.1.names();
            lemma_joined_concat(start, names2, self.2.names());
            let names3 = names2 + self.2.names();
            lemma_joined_concat(start, names3, self.3.names());
            let names4 = names3 + self.3.names();
            lemma_joined_concat(start, names4, self.4.names());
            let names5 = names4 + self.4.names();
            lemma_joined_concat(start, names5, self.5.names());
        }
    }

    fn same(&self, other: &Self) -> (same: bool) {
        self.0.same(&other.0)
            && self.1.same(&other.1)
            && self.2.same(&other.2)
            && self.3.same(&other.3)
            && self.4.same(&other.4)
            && self.5.same(&other.5)
    }
}

impl<
    A: ClassValue,
    B: ClassValue,
    C: ClassValue,
    D: ClassValue,
    E: ClassValue,
    F: ClassValue,
    G: ClassValue,
> ClassValue for (A, B, C, D, E, F, G) {
    open spec fn literal(&self) -> Option<Seq<char>> {
        None
    }

    open spec fn names(&self) -> Seq<Seq<char>> {
        self.0.names() + self.1.names() + self.2.names() + self.3.names()
            + self.4.names() + self.5.names() + self.6.names()
    }

    open spec fn alike(&self, other: &Self) -> bool {
        &&& self.0.alike(&other.0)
        &&& self.1.alike(&other.1)
        &&& self.2.alike(&other.2)
        &&& self.3.alike(&other.3)
        &&& self.4.alike(&other.4)
        &&& self.5.alike(&other.5)
        &&& self.6.alike(&other.6)
    }

    proof fn lemma_alike(&self, other: &Self) {
        self.0.lemma_alike(&other.0);
        self.1.lemma_alike(&other.1);
        self.2.lemma_alike(&other.2);
        self.3.lemma_alike(&other.3);
        self.4.lemma_alike(&other.4);
        self.5.lemma_alike(&other.5);
        self.6.lemma_alike(&other.6);
    }

    proof fn lemma_alike_self(&self) {
        self.0.lemma_alike_self();
        self.1.lemma_alike_self();
        self.2.lemma_alike_self();
        self.3.lemma_alike_self();
        self.4.lemma_alike_self();
        self.5.lemma_alike_self();
        self.6.lemma_alike_self();
    }

    fn as_str(&self) -> (text: Option<&'static str>) {
        None
    }

    fn append_to(&self, text: &mut String) {
        self.0.append_to(text);
        self.1.append_to(text);
        self.2.append_to(text);
        self.3.append_to(text);
        self.4.append_to(text);
        self.5.append_to(text);
        self.6.append_to(text);
        proof {
            let start = old(text)@;
            let names1 = self.0.names();
            lemma_joined_concat(start, names1, self.1.names());
            let names2 = names1 + self.1.names();
            lemma_joined_concat(start, names2, self.2.names());
            let names3 = names2 + self.2.names();
            lemma_joined_concat(start, names3, self.3.names());
            let names4 = names3 + self.3.names();
            lemma_joined_concat(start, names4, self.4.names());
            let names5 = names4 + self.4.names();
            lemma_joined_concat(start, names5, self.5.names());
            let names6 = names5 + self.5.names();
            lemma_joined_concat(start, names6, self.6.names());
        }
    }

    fn same(&self, other: &Self) -> (same: bool) {
        self.0.same(&other.0)
            && self.1.same(&other.1)
            && self.2.same(&other.2)
            && self.3.same(&other.3)
            && self.4.same(&other.4)
            && self.5.same(&other.5)
            && self.6.same(&other.6)
    }
}

impl<
    A: ClassValue,
    B: ClassValue,
    C: ClassValue,
    D: ClassValue,
    E: ClassValue,
    F: ClassValue,
    G: ClassValue,
    H: ClassValue,
> ClassValue for (A, B, C, D, E, F, G, H) {
    open spec fn literal(&self) -> Option<Seq<char>> {
        None
    }

    open spec fn names(&self) -> Seq<Seq<char>> {
        self.0.names() + self.1.names() + self.2.names() + self.3.names()
            + self.4.names() + self.5.names() + self.6.names() + self.7.names()
    }

    open spec fn alike(&self, other: &Self) -> bool {
        &&& self.0.alike(&other.0)
        &&& self.1.alike(&other.1)
        &&& self.2.alike(&other.2)
        &&& self.3.alike(&other.3)
        &&& self.4.alike(&other.4)
        &&& self.5.alike(&other.5)
        &&& self.6.alike(&other.6)
        &&& self.7.alike(&other.7)
    }

    proof fn lemma_alike(&self, other: &Self) {
        self.0.lemma_alike(&other.0);
        self.1.lemma_alike(&other.1);
        self.2.lemma_alike(&other.2);
        self.3.lemma_alike(&other.3);
        self.4.lemma_alike(&other.4);
        self.5.lemma_alike(&other.5);
        self.6.lemma_alike(&other.6);
        self.7.lemma_alike(&other.7);
    }

    proof fn lemma_alike_self(&self) {
        self.0.lemma_alike_self();
        self.1.lemma_alike_self();
        self.2.lemma_alike_self();
        self.3.lemma_alike_self();
        self.4.lemma_alike_self();
        self.5.lemma_alike_self();
        self.6.lemma_alike_self();
        self.7.lemma_alike_self();
    }

    fn as_str(&self) -> (text: Option<&'static str>) {
        None
    }

    fn append_to(&self, text: &mut String) {
        self.0.append_to(text);
        self.1.append_to(text);
        self.2.append_to(text);
        self.3.append_to(text);
        self.4.append_to(text);
        self.5.append_to(text);
        self.6.append_to(text);
        self.7.append_to(text);
        proof {
            let start = old(text)@;
            let names1 = self.0.names();
            lemma_joined_concat(start, names1, self.1.names());
            let names2 = names1 + self.1.names();
            lemma_joined_concat(start, names2, self.2.names());
            let names3 = names2 + self.2.names();
            lemma_joined_concat(start, names3, self.3.names());
            let names4 = names3 + self.3.names();
            lemma_joined_concat(start, names4, self.4.names());
            let names5 = names4 + self.4.names();
            lemma_joined_concat(start, names5, self.5.names());
            let names6 = names5 + self.5.names();
            lemma_joined_concat(start, names6, self.6.names());
            let names7 = names6 + self.6.names();
            lemma_joined_concat(start, names7, self.7.names());
        }
    }

    fn same(&self, other: &Self) -> (same: bool) {
        self.0.same(&other.0)
            && self.1.same(&other.1)
            && self.2.same(&other.2)
            && self.3.same(&other.3)
            && self.4.same(&other.4)
            && self.5.same(&other.5)
            && self.6.same(&other.6)
            && self.7.same(&other.7)
    }
}

} // verus!
