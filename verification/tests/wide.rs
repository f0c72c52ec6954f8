use ravel::attr::kinds::{
    aria_hidden, for_, max, min, placeholder, style, type_, value_, AriaHidden,
};
use ravel::attr::{attr, class, CloneString};
use ravel::builder::{BuildCx, Builder, RebuildCx, State};
use ravel::collections::slice;
use ravel::cx::Cx;
use ravel::dom::{Dom, NodeId, Position};
use ravel::el::{el, ElKind};
use ravel::float::Float;
use ravel::option::OptionState;
use ravel::text::{text, Text, TextState};

struct Input;

impl ElKind for Input {
    const NAME: &'static str = "input";
}

fn fresh() -> (Dom, NodeId, BuildCx, RebuildCx) {
    let mut dom = Dom::new();
    let root = dom.create_element("body");
    dom.take_mutations();
    (
        dom,
        root,
        BuildCx { position: Position { parent: root, insert_before: None } },
        RebuildCx { parent: root },
    )
}

fn texts(dom: &Dom, parent: NodeId) -> Vec<String> {
    dom.children(parent).iter().map(|node| dom.text(*node).to_string()).collect()
}

#[test]
fn named_attributes_use_their_names() {
    let (mut dom, _, cx, again) = fresh();
    let owned = String::from("name");
    let mut state = el(
        Input,
        (
            aria_hidden("true"),
            for_("other"),
            max("10"),
            min("1"),
            placeholder("What needs to be done?"),
            style("color:red"),
            type_("checkbox"),
            value_(CloneString(&owned)),
        ),
    )
    .build(cx, &mut dom);
    let input = state.node_id();
    for (name, value) in [
        ("aria-hidden", "true"),
        ("for", "other"),
        ("max", "10"),
        ("min", "1"),
        ("placeholder", "What needs to be done?"),
        ("style", "color:red"),
        ("type", "checkbox"),
        ("value", "name"),
    ] {
        assert_eq!(dom.attribute(input, name), Some(value.to_string()));
    }
    assert!(dom.children(input).is_empty());
    dom.take_mutations();
    el(
        Input,
        (
            aria_hidden("true"),
            for_("other"),
            max("11"),
            min("1"),
            placeholder("What needs to be done?"),
            style("color:red"),
            type_("checkbox"),
            value_(CloneString("changed")),
        ),
    )
    .rebuild(again, &mut dom, &mut state);
    assert_eq!(dom.mutation_count(), 2);
    assert_eq!(dom.attribute(input, "max"), Some("11".to_string()));
    assert_eq!(dom.attribute(input, "value"), Some("changed".to_string()));
    let saved = &state.body_state().7;
    assert_eq!(saved.saved_ref(), "changed");
    assert_eq!(attr(AriaHidden, "x").build(BuildCx { position: Position { parent: input, insert_before: None } }, &mut dom).saved_ref(), &"x");
}

#[test]
fn tuples_of_every_width_keep_their_order() {
    let (mut dom, root, cx, again) = fresh();
    let mut four = (text("a"), text("b"), text("c"), text("d")).build(cx, &mut dom);
    let mut five = (text("e"), text("f"), text("g"), text("h"), text("i")).build(cx, &mut dom);
    let mut six = (text("j"), text("k"), text("l"), text("m"), text("n"), text("o")).build(cx, &mut dom);
    let mut seven =
        (text("p"), text("q"), text("r"), text("s"), text("t"), text("u"), text("v")).build(cx, &mut dom);
    let mut eight = (
        text("w"),
        text("x"),
        Some(text("y")),
        text("z"),
        None::<Text>,
        text("0"),
        class("ignored"),
        text("1"),
    )
        .build(cx, &mut dom);
    let all: String = texts(&dom, root).concat();
    assert_eq!(all, "abcdefghijklmnopqrstuvwx{y}z{}01");
    let before = dom.children(root).clone();
    dom.take_mutations();

    (text("a"), text("b"), text("c"), text("d")).rebuild(again, &mut dom, &mut four);
    (text("e"), text("f"), text("g"), text("h"), text("i")).rebuild(again, &mut dom, &mut five);
    (text("j"), text("k"), text("l"), text("m"), text("n"), text("o")).rebuild(again, &mut dom, &mut six);
    (text("p"), text("q"), text("r"), text("s"), text("t"), text("u"), text("v"))
        .rebuild(again, &mut dom, &mut seven);
    (
        text("w"),
        text("x"),
        Some(text("y")),
        text("z"),
        None::<Text>,
        text("0"),
        class("ignored"),
        text("1"),
    )
        .rebuild(again, &mut dom, &mut eight);
    assert_eq!(dom.mutation_count(), 0);

    (text("A"), text("b"), text("c"), text("D")).rebuild(again, &mut dom, &mut four);
    (text("e"), text("f"), text("G"), text("h"), text("i")).rebuild(again, &mut dom, &mut five);
    (text("j"), text("K"), text("l"), text("m"), text("n"), text("O")).rebuild(again, &mut dom, &mut six);
    (text("P"), text("q"), text("r"), text("s"), text("t"), text("u"), text("V"))
        .rebuild(again, &mut dom, &mut seven);
    (
        text("w"),
        text("X"),
        None::<Text>,
        text("z"),
        Some(text("!")),
        text("0"),
        class("seen"),
        text("9"),
    )
        .rebuild(again, &mut dom, &mut eight);
    let all: String = texts(&dom, root).concat();
    assert_eq!(all, "AbcDefGhijKlmnOPqrstuVwX{}z{!}09");
    assert_eq!(dom.attribute(root, "class"), Some("seen".to_string()));
    assert_eq!(&dom.children(root)[..24], &before[..24]);

    let mut data = Float::new(());
    four.run(&mut dom, &mut data);
    five.run(&mut dom, &mut data);
    six.run(&mut dom, &mut data);
    seven.run(&mut dom, &mut data);
    eight.run(&mut dom, &mut data);
    assert!(data.as_ref().is_ok());
    let toggled: &OptionState<TextState> = &eight.2;
    assert!(toggled.inner_state().is_none());
}

#[test]
fn class_values_of_every_width() {
    let (mut dom, root, cx, _) = fresh();
    class(("a", "b", "c", "d")).build(cx, &mut dom);
    assert_eq!(dom.attribute(root, "class"), Some("a b c d".to_string()));
    class(("a", None::<&'static str>, "c", "d", "e")).build(cx, &mut dom);
    assert_eq!(dom.attribute(root, "class"), Some("a c d e".to_string()));
    class(("a", "b", "c", "d", "e", "f")).build(cx, &mut dom);
    assert_eq!(dom.attribute(root, "class"), Some("a b c d e f".to_string()));
    class(("a", "b", "c", "d", "e", "f", String::from("g"))).build(cx, &mut dom);
    assert_eq!(dom.attribute(root, "class"), Some("a b c d e f g".to_string()));
    class(((), "b", ("c",), "d", "e", "f", "g", Some("h"))).build(cx, &mut dom);
    assert_eq!(dom.attribute(root, "class"), Some("b c d e f g h".to_string()));
    class((None::<String>, ())).build(cx, &mut dom);
    assert_eq!(dom.attribute(root, "class"), Some(String::new()));
}

#[test]
fn views_nest_inside_collections_and_options() {
    let (mut dom, root, cx, again) = fresh();
    let data = vec![Some("a"), None, Some("c")];
    let mut state = slice(&data, |cx: Cx<OptionState<TextState>>, _: usize, item: &Option<&str>| {
        cx.build(item.map(text))
    })
    .build(cx, &mut dom);
    assert_eq!(texts(&dom, root).concat(), "|{a}|{}|{c}|");
    let data = vec![None, Some("b"), Some("c"), Some("d")];
    slice(&data, |cx: Cx<OptionState<TextState>>, _: usize, item: &Option<&str>| {
        cx.build(item.map(text))
    })
    .rebuild(again, &mut dom, &mut state);
    assert_eq!(texts(&dom, root).concat(), "|{}|{b}|{c}|{d}|");
    assert_eq!(state.len(), 4);
}
