use ravel::builder::{BuildCx, Builder, RebuildCx, State};
use ravel::collections::btree_map;
use ravel::cx::{Cx, Token};
use ravel::dom::{Dom, Event, Mutation, NodeId, NodeKind, Position};
use ravel::el::{el, ElKind, ElState};
use ravel::event::{on, on_, Active, Click, EventKind, InputEvent, OnState, Submit, WithoutEvent};
use ravel::float::Float;
use ravel::local::{with_local, WithLocalState};
use ravel::run::{Phase, RunLoop};
use ravel::text::{text, TextState};
use std::collections::BTreeMap;

struct Button;

impl ElKind for Button {
    const NAME: &'static str = "button";
}

struct Row;

impl ElKind for Row {
    const NAME: &'static str = "li";
}

struct Counter {
    count: u32,
}

fn texts(dom: &Dom, parent: NodeId) -> Vec<String> {
    dom.children(parent).iter().map(|node| dom.text(*node).to_string()).collect()
}

fn click(dom: &mut Dom, listener: usize, target: NodeId) {
    dom.record(listener, Event { target, data: String::new() });
}

type CounterState = (TextState, ElState<Button, OnState<WithoutEvent<fn(&mut Counter)>, Counter>>);

fn increment(counter: &mut Counter) {
    counter.count += 1;
}

fn counter(cx: Cx<CounterState>, data: &Counter) -> Token<CounterState> {
    let shown = data.count.to_string();
    cx.build((text(&shown), el(Button, on_(Click, increment as fn(&mut Counter)))))
}

#[test]
fn counter_app() {
    let mut dom = Dom::new();
    let body = dom.create_element("body");
    let mut data = Float::new(Counter { count: 0 });
    let mut run: RunLoop<CounterState> = RunLoop::new(body);
    assert_eq!(run.current(), Phase::NotStarted);
    run.start(&mut dom, &data, &counter);
    assert_eq!(run.current(), Phase::Suspended);

    let kids = dom.children(body).clone();
    assert_eq!(kids.len(), 2);
    let shown = kids[0];
    assert_eq!(dom.kind(shown), NodeKind::Text);
    assert_eq!(dom.text(shown), "0");
    assert_eq!(dom.listener_count(), 1);

    click(&mut dom, 0, kids[1]);
    let mut sync = |_: &mut Counter| None::<()>;
    let created = dom.len();
    dom.take_mutations();
    assert_eq!(run.resume(&mut dom, &mut data, &mut sync, &counter), None);
    assert_eq!(run.current(), Phase::Suspended);
    assert_eq!(data.as_ref().unwrap().count, 1);
    assert_eq!(dom.children(body), &kids);
    assert_eq!(dom.text(shown), "1");
    assert_eq!(dom.len(), created);
    let log = dom.take_mutations();
    assert_eq!(log.len(), 1);
    assert!(matches!(&log[0], Mutation::SetData { node, data } if *node == shown && data == "1"));

    assert_eq!(run.resume(&mut dom, &mut data, &mut sync, &counter), None);
    assert_eq!(data.as_ref().unwrap().count, 1);
    assert_eq!(dom.mutation_count(), 0);
}

#[test]
fn run_loop_steps_one_by_one() {
    let mut dom = Dom::new();
    let body = dom.create_element("body");
    let mut data = Float::new(Counter { count: 0 });
    let mut run: RunLoop<CounterState> = RunLoop::new(body);
    run.start(&mut dom, &data, &counter);
    let button = dom.children(body)[1];
    click(&mut dom, 0, button);

    run.deliver(&mut dom, &mut data);
    assert_eq!(run.current(), Phase::Syncing);
    assert_eq!(data.as_ref().unwrap().count, 1);
    assert_eq!(texts(&dom, body), vec!["0", "button"]);

    let mut sync = |_: &mut Counter| None::<()>;
    assert_eq!(run.synchronize(&mut data, &mut sync), None);
    assert_eq!(run.current(), Phase::Rendering);

    run.render(&mut dom, &data, &counter);
    assert_eq!(run.current(), Phase::Suspended);
    assert_eq!(texts(&dom, body), vec!["1", "button"]);
    assert!(run.tree().is_some());
}

#[test]
fn run_loop_ends_when_sync_returns_a_value() {
    let mut dom = Dom::new();
    let body = dom.create_element("body");
    let mut data = Float::new(Counter { count: 0 });
    let mut run: RunLoop<CounterState> = RunLoop::new(body);
    run.start(&mut dom, &data, &counter);
    let mut sync = |counter: &mut Counter| if counter.count >= 2 { Some(counter.count) } else { None };

    let button = dom.children(body)[1];
    click(&mut dom, 0, button);
    assert_eq!(run.resume(&mut dom, &mut data, &mut sync, &counter), None);
    assert_eq!(texts(&dom, body), vec!["1", "button"]);

    click(&mut dom, 0, button);
    dom.take_mutations();
    assert_eq!(run.resume(&mut dom, &mut data, &mut sync, &counter), Some(2));
    assert_eq!(run.current(), Phase::Terminated);
    assert_eq!(texts(&dom, body), vec!["1", "button"]);
    assert_eq!(dom.mutation_count(), 0);
}

#[test]
fn sync_can_change_the_data_before_it_is_rendered() {
    let mut dom = Dom::new();
    let body = dom.create_element("body");
    let mut data = Float::new(Counter { count: 0 });
    let mut run: RunLoop<CounterState> = RunLoop::new(body);
    run.start(&mut dom, &data, &counter);
    let mut sync = |counter: &mut Counter| {
        counter.count += 10;
        None::<()>
    };
    assert_eq!(run.resume(&mut dom, &mut data, &mut sync, &counter), None);
    assert_eq!(texts(&dom, body), vec!["10", "button"]);
}

#[test]
fn handlers_see_the_event() {
    let mut dom = Dom::new();
    let input = dom.create_element("input");
    let cx = BuildCx { position: Position { parent: input, insert_before: None } };
    let replace: fn(&mut String, Event) = |message, event| *message = event.data;
    let exclaim: fn(&mut String, Event) = |message, _| message.push('!');
    let mut state = on(InputEvent, replace).build(cx, &mut dom);
    assert_eq!(state.listener_id(), 0);
    let log = dom.take_mutations();
    assert!(matches!(&log[1], Mutation::Listen { listener: 0, node, event, passive: true } if *node == input && event == "input"));

    let mut message = Float::new(String::new());
    state.run(&mut dom, &mut message);
    assert_eq!(message.as_ref().unwrap(), "");
    dom.record(0, Event { target: input, data: "typed".to_string() });
    state.run(&mut dom, &mut message);
    assert_eq!(message.as_ref().unwrap(), "typed");
    state.run(&mut dom, &mut message);
    assert_eq!(message.as_ref().unwrap(), "typed");

    on(InputEvent, exclaim).rebuild(RebuildCx { parent: input }, &mut dom, &mut state);
    assert_eq!(dom.mutation_count(), 0);
    dom.record(0, Event { target: input, data: "ignored".to_string() });
    state.run(&mut dom, &mut message);
    assert_eq!(message.into_inner(), Ok("typed!".to_string()));
}

#[test]
fn active_events_are_not_passive() {
    assert_eq!(<Active<Submit> as EventKind>::NAME, "submit");
    assert!(<Active<Submit> as EventKind>::ACTIVE);
    assert!(!<Submit as EventKind>::ACTIVE);
    let mut dom = Dom::new();
    let form = dom.create_element("form");
    let cx = BuildCx { position: Position { parent: form, insert_before: None } };
    on(Active(Submit), |_: &mut u8, _: Event| {}).build(cx, &mut dom);
    let log = dom.take_mutations();
    assert!(matches!(&log[1], Mutation::Listen { passive: false, event, .. } if event == "submit"));
}

#[test]
fn events_are_delivered_in_declaration_order() {
    let mut dom = Dom::new();
    let root = dom.create_element("div");
    let cx = BuildCx { position: Position { parent: root, insert_before: None } };
    let mut state = (
        on(Click, |trace: &mut Vec<u8>, _: Event| trace.push(1u8)),
        el(Button, on(Click, |trace: &mut Vec<u8>, _: Event| trace.push(2u8))),
        on(Click, |trace: &mut Vec<u8>, _: Event| trace.push(3u8)),
    )
        .build(cx, &mut dom);
    for listener in [2, 0, 1] {
        click(&mut dom, listener, root);
    }
    let mut trace: Float<Vec<u8>> = Float::new(Vec::new());
    state.run(&mut dom, &mut trace);
    assert_eq!(trace.as_ref().unwrap(), &vec![1u8, 2, 3]);
    state.run(&mut dom, &mut trace);
    assert_eq!(trace.into_inner(), Ok(vec![1u8, 2, 3]));
}

type LocalState = WithLocalState<u32, (TextState, ElState<Button, OnState<WithoutEvent<fn(&mut (u8, u32))>, (u8, u32)>>)>;

fn bump_local(pair: &mut (u8, u32)) {
    pair.1 += 1;
}

#[test]
fn local_state_is_changed_by_handlers_and_kept_out_of_the_shared_data() {
    let mut dom = Dom::new();
    let root = dom.create_element("div");
    let cx = BuildCx { position: Position { parent: root, insert_before: None } };
    let again = RebuildCx { parent: root };
    let mut inits = 0;
    let mut state: LocalState = with_local(
        || {
            inits += 1;
            40u32
        },
        |cx: Cx<_>, local: &u32| {
            let shown = local.to_string();
            cx.build((text(&shown), el(Button, on_(Click, bump_local as fn(&mut (u8, u32))))))
        },
    )
    .build(cx, &mut dom);
    assert_eq!(inits, 1);
    assert_eq!(texts(&dom, root), vec!["40", "button"]);
    assert_eq!(state.value.as_ref(), Ok(&40));

    let mut shared = Float::new(7u8);
    click(&mut dom, 0, root);
    state.run(&mut dom, &mut shared);
    assert_eq!(shared.as_ref(), Ok(&7));
    assert_eq!(state.value.as_ref(), Ok(&41));
    assert_eq!(texts(&dom, root), vec!["40", "button"]);

    let kids = dom.children(root).clone();
    with_local(
        || -> u32 { unreachable!() },
        |cx: Cx<_>, local: &u32| {
            let shown = local.to_string();
            cx.build((text(&shown), el(Button, on_(Click, bump_local as fn(&mut (u8, u32))))))
        },
    )
    .rebuild(again, &mut dom, &mut state);
    assert_eq!(texts(&dom, root), vec!["41", "button"]);
    assert_eq!(dom.children(root), &kids);
}

struct Model {
    entries: BTreeMap<u64, String>,
}

type RowState = ElState<Row, TextState>;

fn list(cx: Cx<ravel::collections::btree_map::BTreeMapState<RowState>>, model: &Model)
    -> Token<ravel::collections::btree_map::BTreeMapState<RowState>>
{
    cx.build(btree_map(&model.entries, |cx: Cx<RowState>, _: &u64, value: &String| {
        cx.build(el(Row, text(value)))
    }))
}

#[test]
fn keyed_list() {
    let mut dom = Dom::new();
    let body = dom.create_element("ul");
    let mut entries = BTreeMap::new();
    entries.insert(0, "a".to_string());
    entries.insert(1, "b".to_string());
    let mut data = Float::new(Model { entries });
    let mut run = RunLoop::new(body);
    run.start(&mut dom, &data, &list);
    assert_eq!(texts(&dom, body), vec!["|", "li", "|", "li", "|"]);
    let before = dom.children(body).clone();
    let (survivor, survivor_row) = {
        let tree = run.tree().unwrap().as_ref().unwrap();
        (tree.entry(1).header_id(), tree.entry(1).state_ref().as_ref().unwrap().node_id())
    };
    assert_eq!(survivor, before[2]);

    let mut sync = |model: &mut Model| {
        model.entries.remove(&0);
        None::<()>
    };
    dom.take_mutations();
    assert_eq!(run.resume(&mut dom, &mut data, &mut sync, &list), None);

    let tree = run.tree().unwrap().as_ref().unwrap();
    assert_eq!(tree.len(), 1);
    assert_eq!(tree.key(0), 1);
    assert_eq!(tree.entry(0).header_id(), survivor);
    assert_eq!(tree.entry(0).state_ref().as_ref().unwrap().node_id(), survivor_row);
    assert_eq!(dom.children(body), &vec![before[2], before[3], before[4]]);
    let log = dom.take_mutations();
    assert_eq!(log.len(), 2);
    assert!(matches!(&log[0], Mutation::RemoveChild { parent, node } if *parent == body && *node == before[1]));
    assert!(matches!(&log[1], Mutation::RemoveChild { parent, node } if *parent == body && *node == before[0]));
    assert_eq!(dom.text(dom.children(survivor_row)[0]), "b");
}
