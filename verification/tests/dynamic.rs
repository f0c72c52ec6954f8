use ravel::any::{any, any_other, AnySlot, AnyState};
use ravel::builder::{BuildCx, Builder, RebuildCx, State};
use ravel::cx::{with, Cx};
use ravel::dom::{Dom, NodeId, NodeKind, Position};
use ravel::el::{el, ElKind, ElState};
use ravel::float::Float;
use ravel::text::{text, Text, TextState};

struct Bold;

impl ElKind for Bold {
    const NAME: &'static str = "b";
}

fn fresh() -> (Dom, NodeId, BuildCx, RebuildCx) {
    let mut dom = Dom::new();
    let root = dom.create_element("body");
    dom.take_mutations();
    (
        dom,
        root,
        BuildCx { position: Position { parent: root, insert_before: None } },
        RebuildCx { parent: root },
    )
}

fn texts(dom: &Dom, parent: NodeId) -> Vec<String> {
    dom.children(parent).iter().map(|node| dom.text(*node).to_string()).collect()
}

#[test]
fn option_none_builds_two_adjacent_markers() {
    let (mut dom, root, cx, _) = fresh();
    let state = None::<Text>.build(cx, &mut dom);
    assert_eq!(dom.children(root), &vec![state.start_id(), state.end_id()]);
    assert_eq!(dom.kind(state.start_id()), NodeKind::Comment);
    assert_eq!(texts(&dom, root), vec!["{", "}"]);
    assert!(state.inner_state().is_none());
}

#[test]
fn option_some_builds_the_view_between_the_markers() {
    let (mut dom, root, cx, _) = fresh();
    let state = Some(text("x")).build(cx, &mut dom);
    assert_eq!(texts(&dom, root), vec!["{", "x", "}"]);
    let inner = state.inner_state().unwrap().node_id();
    assert_eq!(dom.children(root), &vec![state.start_id(), inner, state.end_id()]);
}

#[test]
fn option_toggle_round_trip() {
    let (mut dom, root, cx, again) = fresh();
    let before = text("before").build(cx, &mut dom);
    let mut state = None::<(Text, Text)>.build(cx, &mut dom);
    let after = text("after").build(cx, &mut dom);
    let baseline = dom.children(root).clone();
    assert_eq!(baseline.len(), 4);

    None::<(Text, Text)>.rebuild(again, &mut dom, &mut state);
    assert_eq!(dom.children(root), &baseline);

    Some((text("x"), text("more x"))).rebuild(again, &mut dom, &mut state);
    assert_eq!(texts(&dom, root), vec!["before", "{", "x", "more x", "}", "after"]);
    let x = dom.children(root)[2];
    let more = dom.children(root)[3];

    None::<(Text, Text)>.rebuild(again, &mut dom, &mut state);
    assert_eq!(dom.children(root), &baseline);
    assert_eq!(dom.parent(x), None);
    assert_eq!(dom.parent(more), None);
    assert!(state.inner_state().is_none());

    Some((text("y"), text("more y"))).rebuild(again, &mut dom, &mut state);
    assert_eq!(texts(&dom, root), vec!["before", "{", "y", "more y", "}", "after"]);
    let kids = dom.children(root).clone();
    assert_eq!((kids[0], kids[1], kids[4], kids[5]), (baseline[0], baseline[1], baseline[2], baseline[3]));
    assert_ne!(kids[2], x);
    assert_eq!(kids[0], before.node_id());
    assert_eq!(kids[5], after.node_id());
}

#[test]
fn option_some_to_some_rebuilds_in_place() {
    let (mut dom, root, cx, again) = fresh();
    let mut state = Some(text("x")).build(cx, &mut dom);
    let kids = dom.children(root).clone();
    dom.take_mutations();
    Some(text("x")).rebuild(again, &mut dom, &mut state);
    assert_eq!(dom.mutation_count(), 0);
    Some(text("y")).rebuild(again, &mut dom, &mut state);
    assert_eq!(dom.mutation_count(), 1);
    assert_eq!(dom.children(root), &kids);
    assert_eq!(texts(&dom, root), vec!["{", "y", "}"]);
}

#[test]
fn option_run_is_a_no_op_when_absent() {
    let (mut dom, _, cx, _) = fresh();
    let mut state = None::<Text>.build(cx, &mut dom);
    dom.take_mutations();
    let mut data = Float::new(1u8);
    state.run(&mut dom, &mut data);
    assert_eq!(dom.mutation_count(), 0);
    assert_eq!(data.into_inner(), Ok(1));
}

type Either = AnyState<ElState<Bold, TextState>, TextState>;

#[test]
fn any_builds_its_view_between_markers() {
    let (mut dom, root, cx, _) = fresh();
    let state: Either = any(el(Bold, text("Even!"))).build(cx, &mut dom);
    assert_eq!(texts(&dom, root), vec!["{", "b", "}"]);
    assert!(matches!(state.slot_ref(), AnySlot::First(_)));
    assert_eq!(dom.children(root)[0], state.start_id());
    assert_eq!(dom.children(root)[2], state.end_id());
}

#[test]
fn any_rebuilds_the_same_view_in_place() {
    let (mut dom, root, cx, again) = fresh();
    let mut state: Either = any(el(Bold, text("Even!"))).build(cx, &mut dom);
    let kids = dom.children(root).clone();
    dom.take_mutations();
    any(el(Bold, text("Even!"))).rebuild(again, &mut dom, &mut state);
    assert_eq!(dom.mutation_count(), 0);
    any(el(Bold, text("Still even"))).rebuild(again, &mut dom, &mut state);
    assert_eq!(dom.mutation_count(), 1);
    assert_eq!(dom.children(root), &kids);
    assert_eq!(dom.text(dom.children(kids[1])[0]), "Still even");
}

#[test]
fn any_replaces_the_content_when_the_view_changes() {
    let (mut dom, root, cx, again) = fresh();
    let mut state: Either = any(el(Bold, text("Even!"))).build(cx, &mut dom);
    let old = dom.children(root).clone();
    let count = dom.len();

    any_other(text("Odd.")).rebuild(again, &mut dom, &mut state);
    let new = dom.children(root).clone();
    assert_eq!(texts(&dom, root), vec!["{", "Odd.", "}"]);
    assert_eq!((new[0], new[2]), (old[0], old[2]));
    assert_eq!(dom.parent(old[1]), None);
    assert!(new[1] >= count);
    assert_eq!(dom.kind(new[1]), NodeKind::Text);
    assert!(matches!(state.slot_ref(), AnySlot::Second(_)));

    dom.take_mutations();
    any_other(text("Odd.")).rebuild(again, &mut dom, &mut state);
    assert_eq!(dom.mutation_count(), 0);

    any(el(Bold, text("Even again"))).rebuild(again, &mut dom, &mut state);
    assert_eq!(texts(&dom, root), vec!["{", "b", "}"]);
    assert_eq!(dom.parent(new[1]), None);
    assert!(matches!(state.slot_ref(), AnySlot::First(_)));
}

#[test]
fn with_builds_what_the_callback_chooses() {
    let (mut dom, root, cx, again) = fresh();
    let count = 2u32;
    let mut state = with(|cx: Cx<Either>| {
        if count % 2 == 0 {
            cx.build(any(el(Bold, text("Even!"))))
        } else {
            cx.build(any_other(text("Odd.")))
        }
    })
    .build(cx, &mut dom);
    assert_eq!(texts(&dom, root), vec!["{", "b", "}"]);

    let count = 3u32;
    with(|cx: Cx<Either>| {
        if count % 2 == 0 {
            cx.build(any(el(Bold, text("Even!"))))
        } else {
            cx.build(any_other(text("Odd.")))
        }
    })
    .rebuild(again, &mut dom, &mut state);
    assert_eq!(texts(&dom, root), vec!["{", "Odd.", "}"]);
    assert!(matches!(state.as_ref().unwrap().slot_ref(), AnySlot::Second(_)));
}

#[test]
fn with_lets_the_description_borrow_local_data() {
    let (mut dom, root, cx, again) = fresh();
    let mut state = {
        let message = String::from("local");
        with(|cx: Cx<TextState>| cx.build(text(&message))).build(cx, &mut dom)
    };
    assert_eq!(texts(&dom, root), vec!["local"]);
    dom.take_mutations();
    {
        let message = String::from("local");
        with(|cx: Cx<TextState>| cx.build(text(&message))).rebuild(again, &mut dom, &mut state);
    }
    assert_eq!(dom.mutation_count(), 0);
    {
        let message = String::from("other");
        with(|cx: Cx<TextState>| cx.build(text(&message))).rebuild(again, &mut dom, &mut state);
    }
    assert_eq!(texts(&dom, root), vec!["other"]);
    assert_eq!(dom.children(root).len(), 1);
}

#[test]
fn with_displays_formatted_text() {
    let (mut dom, root, cx, again) = fresh();
    let count = 10;
    let mut state = with(move |cx: Cx<TextState>| {
        let shown = format!("Count: {}", count);
        cx.build(text(&shown))
    })
    .build(cx, &mut dom);
    assert_eq!(texts(&dom, root), vec!["Count: 10"]);
    dom.take_mutations();
    with(move |cx: Cx<TextState>| {
        let shown = format!("Count: {}", count);
        cx.build(text(&shown))
    })
    .rebuild(again, &mut dom, &mut state);
    assert_eq!(dom.mutation_count(), 0);
    let count = 1;
    with(move |cx: Cx<TextState>| {
        let shown = format!("Count: {}", count);
        cx.build(text(&shown))
    })
    .rebuild(again, &mut dom, &mut state);
    assert_eq!(texts(&dom, root), vec!["Count: 1"]);
    assert_eq!(dom.mutation_count(), 1);
    assert_eq!(dom.children(root).len(), 1);
}
