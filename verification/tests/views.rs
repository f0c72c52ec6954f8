use ravel::attr::kinds::{autofocus, checked, href, id, Href};
use ravel::attr::{attr, boolean_attr, class, AttrKind, BooleanAttrValue, Classes, CloneString};
use ravel::builder::{BuildCx, Builder, RebuildCx, State};
use ravel::dom::{Dom, NodeId, NodeKind, Position};
use ravel::el::{el, ElKind};
use ravel::float::Float;
use ravel::text::text;

struct Div;

impl ElKind for Div {
    const NAME: &'static str = "div";
}

struct Anchor;

impl ElKind for Anchor {
    const NAME: &'static str = "a";
}

struct Disabled;

impl AttrKind for Disabled {
    const NAME: &'static str = "disabled";
}

struct Title;

impl AttrKind for Title {
    const NAME: &'static str = "title";
}

fn fresh() -> (Dom, NodeId, BuildCx, RebuildCx) {
    let mut dom = Dom::new();
    let root = dom.create_element("body");
    dom.take_mutations();
    (
        dom,
        root,
        BuildCx { position: Position { parent: root, insert_before: None } },
        RebuildCx { parent: root },
    )
}

#[test]
fn text_builds_one_text_node() {
    let (mut dom, root, cx, _) = fresh();
    let state = text("hello").build(cx, &mut dom);
    assert_eq!(dom.children(root), &vec![state.node_id()]);
    assert_eq!(dom.kind(state.node_id()), NodeKind::Text);
    assert_eq!(dom.text(state.node_id()), "hello");
    assert_eq!(dom.mutation_count(), 2);
}

#[test]
fn text_rebuild_writes_only_a_changed_value() {
    let (mut dom, root, cx, again) = fresh();
    let mut state = text("0").build(cx, &mut dom);
    let node = state.node_id();
    dom.take_mutations();
    text("0").rebuild(again, &mut dom, &mut state);
    assert_eq!(dom.mutation_count(), 0);
    text("1").rebuild(again, &mut dom, &mut state);
    assert_eq!(dom.mutation_count(), 1);
    assert_eq!(state.node_id(), node);
    assert_eq!(dom.text(node), "1");
    assert_eq!(dom.children(root), &vec![node]);
    text("1").rebuild(again, &mut dom, &mut state);
    assert_eq!(dom.mutation_count(), 1);
}

#[test]
fn a_static_string_is_a_text_node() {
    let (mut dom, root, cx, again) = fresh();
    let mut state = "Ravel tutorial".build(cx, &mut dom);
    assert_eq!(dom.text(state.node_id()), "Ravel tutorial");
    dom.take_mutations();
    "Ravel tutorial".rebuild(again, &mut dom, &mut state);
    assert_eq!(dom.mutation_count(), 0);
    "Ravel".rebuild(again, &mut dom, &mut state);
    assert_eq!(dom.text(state.node_id()), "Ravel");
    assert_eq!(dom.children(root).len(), 1);
}

#[test]
fn text_is_built_in_front_of_the_reference() {
    let (mut dom, root, cx, _) = fresh();
    let last = text("last").build(cx, &mut dom);
    let position = Position { parent: root, insert_before: Some(last.node_id()) };
    let first = text("first").build(BuildCx { position }, &mut dom);
    assert_eq!(dom.children(root), &vec![first.node_id(), last.node_id()]);
}

#[test]
fn element_holds_its_body_as_children() {
    let (mut dom, root, cx, again) = fresh();
    let mut state = el(Div, (text("a"), el(Anchor, text("b")), text("c"))).build(cx, &mut dom);
    let div = state.node_id();
    assert_eq!(dom.children(root), &vec![div]);
    assert_eq!(dom.kind(div), NodeKind::Element);
    assert_eq!(dom.text(div), "div");
    let kids = dom.children(div).clone();
    assert_eq!(kids.len(), 3);
    assert_eq!(dom.text(kids[0]), "a");
    assert_eq!(dom.text(kids[1]), "a");
    assert_eq!(dom.kind(kids[1]), NodeKind::Element);
    assert_eq!(dom.text(dom.children(kids[1])[0]), "b");
    assert_eq!(dom.text(kids[2]), "c");
    dom.take_mutations();
    el(Div, (text("a"), el(Anchor, text("b")), text("c"))).rebuild(again, &mut dom, &mut state);
    assert_eq!(dom.mutation_count(), 0);
    el(Div, (text("a"), el(Anchor, text("B")), text("c"))).rebuild(again, &mut dom, &mut state);
    assert_eq!(dom.mutation_count(), 1);
    assert_eq!(dom.children(div), &kids);
    assert_eq!(dom.text(dom.children(kids[1])[0]), "B");
    assert_eq!(state.node_id(), div);
}

#[test]
fn tuples_build_left_to_right() {
    let (mut dom, root, cx, again) = fresh();
    let mut unit = ().build(cx, &mut dom);
    assert!(dom.children(root).is_empty());
    ().rebuild(again, &mut dom, &mut unit);
    let mut one = (text("1"),).build(cx, &mut dom);
    let mut two = (text("2"), text("3")).build(cx, &mut dom);
    let mut three = (text("4"), (), text("5")).build(cx, &mut dom);
    let texts: Vec<String> =
        dom.children(root).iter().map(|node| dom.text(*node).to_string()).collect();
    assert_eq!(texts, vec!["1", "2", "3", "4", "5"]);
    (text("one"),).rebuild(again, &mut dom, &mut one);
    (text("two"), text("three")).rebuild(again, &mut dom, &mut two);
    (text("four"), (), text("five")).rebuild(again, &mut dom, &mut three);
    let texts: Vec<String> =
        dom.children(root).iter().map(|node| dom.text(*node).to_string()).collect();
    assert_eq!(texts, vec!["one", "two", "three", "four", "five"]);
    assert_eq!(dom.children(root).len(), 5);
}

#[test]
fn running_views_without_handlers_changes_nothing() {
    let (mut dom, _, cx, _) = fresh();
    let mut state = el(Div, (text("a"), href("x"))).build(cx, &mut dom);
    dom.take_mutations();
    let mut data = Float::new(5u32);
    state.run(&mut dom, &mut data);
    assert_eq!(dom.mutation_count(), 0);
    assert_eq!(data.into_inner(), Ok(5));
}

#[test]
fn attribute_is_written_only_when_it_changes() {
    let (mut dom, _, cx, again) = fresh();
    let mut state = el(Anchor, (href("https://a"), text("a"))).build(cx, &mut dom);
    let a = state.node_id();
    assert_eq!(dom.attribute(a, "href"), Some("https://a".to_string()));
    dom.take_mutations();
    el(Anchor, (href("https://a"), text("a"))).rebuild(again, &mut dom, &mut state);
    assert_eq!(dom.mutation_count(), 0);
    el(Anchor, (href("https://b"), text("a"))).rebuild(again, &mut dom, &mut state);
    assert_eq!(dom.mutation_count(), 1);
    assert_eq!(dom.attribute(a, "href"), Some("https://b".to_string()));
}

#[test]
fn attribute_values_of_every_kind() {
    let (mut dom, root, cx, again) = fresh();
    let owned = String::from("borrowed");
    let mut state = (
        attr(Href, "static"),
        id(CloneString(&owned)),
        attr(Title, Some("there")),
        attr(Disabled, BooleanAttrValue(true)),
    )
        .build(cx, &mut dom);
    assert_eq!(dom.attribute(root, "href"), Some("static".to_string()));
    assert_eq!(dom.attribute(root, "id"), Some("borrowed".to_string()));
    assert_eq!(dom.attribute(root, "title"), Some("there".to_string()));
    assert_eq!(dom.attribute(root, "disabled"), Some(String::new()));
    dom.take_mutations();
    let same = String::from("borrowed");
    (
        attr(Href, "static"),
        id(CloneString(&same)),
        attr(Title, Some("there")),
        attr(Disabled, BooleanAttrValue(true)),
    )
        .rebuild(again, &mut dom, &mut state);
    assert_eq!(dom.mutation_count(), 0);
    (
        attr(Href, "other"),
        id(CloneString("changed")),
        attr(Title, None::<&'static str>),
        attr(Disabled, BooleanAttrValue(false)),
    )
        .rebuild(again, &mut dom, &mut state);
    assert_eq!(dom.mutation_count(), 4);
    assert_eq!(dom.attribute(root, "href"), Some("other".to_string()));
    assert_eq!(dom.attribute(root, "id"), Some("changed".to_string()));
    assert_eq!(dom.attribute(root, "title"), None);
    assert_eq!(dom.attribute(root, "disabled"), None);
}

#[test]
fn an_absent_attribute_value_writes_nothing_on_build() {
    let (mut dom, root, cx, _) = fresh();
    (attr(Title, None::<&'static str>), attr(Disabled, BooleanAttrValue(false))).build(cx, &mut dom);
    assert_eq!(dom.mutation_count(), 0);
    assert_eq!(dom.attribute(root, "title"), None);
}

#[test]
fn boolean_attribute_is_set_and_removed() {
    let (mut dom, root, cx, again) = fresh();
    let mut state = boolean_attr(Disabled, false).build(cx, &mut dom);
    assert_eq!(dom.mutation_count(), 0);
    assert_eq!(dom.attribute(root, "disabled"), None);
    boolean_attr(Disabled, true).rebuild(again, &mut dom, &mut state);
    assert_eq!(dom.attribute(root, "disabled"), Some(String::new()));
    assert_eq!(dom.mutation_count(), 1);
    boolean_attr(Disabled, true).rebuild(again, &mut dom, &mut state);
    assert_eq!(dom.mutation_count(), 1);
    boolean_attr(Disabled, false).rebuild(again, &mut dom, &mut state);
    assert_eq!(dom.attribute(root, "disabled"), None);
    assert_eq!(dom.mutation_count(), 2);
    boolean_attr(Disabled, false).rebuild(again, &mut dom, &mut state);
    assert_eq!(dom.mutation_count(), 2);
}

#[test]
fn named_boolean_attributes() {
    let (mut dom, root, cx, again) = fresh();
    let mut state = (autofocus(true), checked(false)).build(cx, &mut dom);
    assert_eq!(dom.attribute(root, "autofocus"), Some(String::new()));
    assert_eq!(dom.attribute(root, "checked"), None);
    (autofocus(false), checked(true)).rebuild(again, &mut dom, &mut state);
    assert_eq!(dom.attribute(root, "autofocus"), None);
    assert_eq!(dom.attribute(root, "checked"), Some(String::new()));
}

#[test]
fn class_joins_the_names_with_spaces() {
    let (mut dom, root, cx, again) = fresh();
    let mut state =
        class(("todo", Some("completed"), None::<&'static str>, (String::from("x"), ()))).build(cx, &mut dom);
    assert_eq!(dom.attribute(root, "class"), Some("todo completed x".to_string()));
    dom.take_mutations();
    class(("todo", Some("completed"), None::<&'static str>, (String::from("x"), ())))
        .rebuild(again, &mut dom, &mut state);
    assert_eq!(dom.mutation_count(), 0);
    class(("todo", None::<&'static str>, Some("editing"), (String::from("x"), ())))
        .rebuild(again, &mut dom, &mut state);
    assert_eq!(dom.mutation_count(), 1);
    assert_eq!(dom.attribute(root, "class"), Some("todo editing x".to_string()));
}

#[test]
fn class_of_one_static_string_is_that_string() {
    let (mut dom, root, cx, _) = fresh();
    class("a  b").build(cx, &mut dom);
    assert_eq!(dom.attribute(root, "class"), Some("a  b".to_string()));
    class(()).build(cx, &mut dom);
    assert_eq!(dom.attribute(root, "class"), Some(String::new()));
}

#[test]
fn classes_without_a_name_remove_the_attribute() {
    let (mut dom, root, cx, again) = fresh();
    let mut state = attr(Title, Classes((Some("selected"),))).build(cx, &mut dom);
    assert_eq!(dom.attribute(root, "title"), Some("selected".to_string()));
    attr(Title, Classes((None::<&'static str>,))).rebuild(again, &mut dom, &mut state);
    assert_eq!(dom.attribute(root, "title"), None);
    let mut other = attr(Title, Classes(("a", "b"))).build(cx, &mut dom);
    assert_eq!(dom.attribute(root, "title"), Some("a b".to_string()));
    dom.take_mutations();
    attr(Title, Classes(("a", "b"))).rebuild(again, &mut dom, &mut other);
    assert_eq!(dom.mutation_count(), 0);
}

#[test]
fn write_str_keeps_what_is_there_and_replaces_what_is_not() {
    let mut value = String::from("Count: 10");
    let (mut index, mut changed) = (0, false);
    ravel::text::write_str(&mut value, &mut index, &mut changed, "Count: ");
    assert_eq!((value.as_str(), index, changed), ("Count: 10", 7, false));
    ravel::text::write_str(&mut value, &mut index, &mut changed, "1");
    assert_eq!((value.as_str(), index, changed), ("Count: 10", 8, false));
    ravel::text::write_str(&mut value, &mut index, &mut changed, "2");
    assert_eq!((value.as_str(), index, changed), ("Count: 12", 9, true));
    ravel::text::write_str(&mut value, &mut index, &mut changed, "!?");
    assert_eq!((value.as_str(), index, changed), ("Count: 12!?", 11, true));
    let mut accents = String::from("é-è");
    let (mut index, mut changed) = (2, false);
    ravel::text::write_str(&mut accents, &mut index, &mut changed, "è");
    assert_eq!((accents.as_str(), index, changed), ("é-è", 3, false));
}

#[test]
fn pieces_are_written_only_where_they_changed() {
    let (mut dom, root, cx, again) = fresh();
    let mut state = ravel::text::pieces(&["Count: ", "10"]).build(cx, &mut dom);
    let node = state.node_id();
    assert_eq!(dom.text(node), "Count: 10");
    dom.take_mutations();
    ravel::text::pieces(&["Count: ", "10"]).rebuild(again, &mut dom, &mut state);
    ravel::text::pieces(&["Count", ": 1", "0"]).rebuild(again, &mut dom, &mut state);
    assert_eq!(dom.mutation_count(), 0);
    ravel::text::pieces(&["Count: ", "1"]).rebuild(again, &mut dom, &mut state);
    assert_eq!(dom.text(node), "Count: 1");
    assert_eq!(dom.mutation_count(), 1);
    ravel::text::pieces(&["Count: ", "12", "!"]).rebuild(again, &mut dom, &mut state);
    assert_eq!(dom.text(node), "Count: 12!");
    ravel::text::pieces(&[]).rebuild(again, &mut dom, &mut state);
    assert_eq!(dom.text(node), "");
    assert_eq!(state.node_id(), node);
    assert_eq!(dom.children(root), &vec![node]);
}

#[test]
fn floats_compare_by_what_they_hold() {
    assert!(Float::new(1) == Float::new(1));
    assert!(Float::new(1) < Float::new(2));
    assert!(Float::<u8>::poisoned() < Float::new(0));
}
