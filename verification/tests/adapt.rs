use ravel::adapt::{adapt, adapt_ref, Thunk, ThunkResult};
use ravel::builder::{BuildCx, Builder, RebuildCx, State};
use ravel::display::{display, display_ref, signed_text, unsigned_text};
use ravel::dom::{Dom, Event, NodeId, NodeKind, Position};
use ravel::event::{on, Click, OnState};
use ravel::float::Float;

fn fresh() -> (Dom, NodeId, BuildCx, RebuildCx) {
    let mut dom = Dom::new();
    let root = dom.create_element("body");
    dom.take_mutations();
    (
        dom,
        root,
        BuildCx { position: Position { parent: root, insert_before: None } },
        RebuildCx { parent: root },
    )
}

struct Model {
    name: String,
    clicks: u32,
}

type Count = fn(&mut u32, Event);

fn count(clicks: &mut u32, _: Event) {
    *clicks += 1;
}

fn through(thunk: Thunk<OnState<Count, u32>>, model: &mut Float<Model>) -> ThunkResult<OnState<Count, u32>> {
    let mut result = None;
    model
        .float_(|model| {
            let Model { name, clicks } = model;
            let mut part = Float::new(clicks);
            result = Some(thunk.run(&mut part));
            Model { name, clicks: part.into_inner().unwrap() }
        })
        .unwrap();
    result.unwrap()
}

#[test]
fn adapt_runs_the_inner_handlers_on_their_part_of_the_data() {
    let (mut dom, root, cx, again) = fresh();
    let mut state = adapt(on(Click, count as Count), through).build(cx, &mut dom);
    let mut model = Float::new(Model { name: "m".to_string(), clicks: 0 });
    state.run(&mut dom, &mut model);
    assert_eq!(model.as_ref().unwrap().clicks, 0);
    dom.record(0, Event { target: root, data: String::new() });
    state.run(&mut dom, &mut model);
    assert_eq!(model.as_ref().unwrap().clicks, 1);
    assert_eq!(model.as_ref().unwrap().name, "m");
    dom.take_mutations();
    adapt(on(Click, count as Count), through).rebuild(again, &mut dom, &mut state);
    assert_eq!(dom.mutation_count(), 0);
    assert!(state.inner_state().as_ref().is_ok());
}

type Split = fn(Model) -> (u32, String);
type Merge = fn(u32, String) -> Model;

#[test]
fn adapt_ref_splits_and_merges_the_data() {
    let (mut dom, root, cx, _) = fresh();
    let split: Split = |model| (model.clicks, model.name);
    let merge: Merge = |clicks, name| Model { name, clicks };
    let mut state = adapt_ref(on(Click, count as Count), split, merge).build(cx, &mut dom);
    let mut model = Float::new(Model { name: "kept".to_string(), clicks: 4 });
    dom.record(0, Event { target: root, data: String::new() });
    state.run(&mut dom, &mut model);
    let model = model.into_inner().unwrap();
    assert_eq!(model.clicks, 5);
    assert_eq!(model.name, "kept");
}

#[test]
fn decimal_notation() {
    assert_eq!(unsigned_text(0), "0");
    assert_eq!(unsigned_text(7), "7");
    assert_eq!(unsigned_text(10), "10");
    assert_eq!(unsigned_text(1234567890), "1234567890");
    assert_eq!(unsigned_text(u64::MAX), "18446744073709551615");
    assert_eq!(signed_text(0), "0");
    assert_eq!(signed_text(-1), "-1");
    assert_eq!(signed_text(-120), "-120");
    assert_eq!(signed_text(i64::MAX), "9223372036854775807");
    assert_eq!(signed_text(i64::MIN), "-9223372036854775808");
}

#[test]
fn display_writes_the_node_only_when_the_value_changes() {
    let (mut dom, root, cx, again) = fresh();
    let mut state = display(0usize).build(cx, &mut dom);
    let node = state.node_id();
    assert_eq!(dom.kind(node), NodeKind::Text);
    assert_eq!(dom.text(node), "0");
    dom.take_mutations();
    display(0usize).rebuild(again, &mut dom, &mut state);
    assert_eq!(dom.mutation_count(), 0);
    display(12usize).rebuild(again, &mut dom, &mut state);
    assert_eq!(dom.mutation_count(), 1);
    assert_eq!(dom.text(node), "12");
    assert_eq!(dom.children(root), &vec![node]);
}

#[test]
fn display_ref_displays_a_borrowed_value() {
    let (mut dom, _, cx, again) = fresh();
    let first = -5i64;
    let mut state = display_ref(&first).build(cx, &mut dom);
    assert_eq!(dom.text(state.node_id()), "-5");
    let second = 5i64;
    display_ref(&second).rebuild(again, &mut dom, &mut state);
    assert_eq!(dom.text(state.node_id()), "5");
    let mut name = display_ref(&"a".to_string()).build(cx, &mut dom);
    display(String::from("b")).rebuild(again, &mut dom, &mut name);
    assert_eq!(dom.text(name.node_id()), "b");
    let mut small = display(3u32).build(cx, &mut dom);
    display(4u32).rebuild(again, &mut dom, &mut small);
    assert_eq!(dom.text(small.node_id()), "4");
    let mut wide = display(3u64).build(cx, &mut dom);
    display(40u64).rebuild(again, &mut dom, &mut wide);
    assert_eq!(dom.text(wide.node_id()), "40");
    let mut signed = display(-3i32).build(cx, &mut dom);
    display(-30i32).rebuild(again, &mut dom, &mut signed);
    assert_eq!(dom.text(signed.node_id()), "-30");
}
