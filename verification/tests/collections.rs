use ravel::builder::{BuildCx, Builder, RebuildCx, State};
use ravel::collections::{btree_map, iter, slice};
use ravel::cx::Cx;
use ravel::dom::{Dom, NodeId, Position};
use ravel::el::{el, ElKind, ElState};
use ravel::float::Float;
use ravel::text::{text, TextState};
use std::collections::BTreeMap;

struct Row;

impl ElKind for Row {
    const NAME: &'static str = "tr";
}

fn fresh() -> (Dom, NodeId, BuildCx, RebuildCx) {
    let mut dom = Dom::new();
    let root = dom.create_element("tbody");
    dom.take_mutations();
    (
        dom,
        root,
        BuildCx { position: Position { parent: root, insert_before: None } },
        RebuildCx { parent: root },
    )
}

fn texts(dom: &Dom, parent: NodeId) -> Vec<String> {
    dom.children(parent).iter().map(|node| dom.text(*node).to_string()).collect()
}

fn render(cx: Cx<TextState>, _key: &u64, value: &String) -> ravel::cx::Token<TextState> {
    cx.build(text(value))
}

fn map_of(entries: &[(u64, &str)]) -> BTreeMap<u64, String> {
    entries.iter().map(|(key, value)| (*key, value.to_string())).collect()
}

#[test]
fn slice_builds_a_marker_and_a_view_for_each_element() {
    let (mut dom, root, cx, _) = fresh();
    let data = vec!["a".to_string(), "b".to_string()];
    let state = slice(&data, |cx: Cx<TextState>, _: usize, v: &String| cx.build(text(v)))
        .build(cx, &mut dom);
    assert_eq!(texts(&dom, root), vec!["|", "a", "|", "b", "|"]);
    assert_eq!(state.len(), 2);
    assert_eq!(dom.children(root)[0], state.entry(0).header_id());
    assert_eq!(dom.children(root)[2], state.entry(1).header_id());
    assert_eq!(dom.children(root)[4], state.footer_id());
}

#[test]
fn slice_of_nothing_builds_only_the_footer() {
    let (mut dom, root, cx, _) = fresh();
    let data: Vec<String> = Vec::new();
    let state = slice(&data, |cx: Cx<TextState>, _: usize, v: &String| cx.build(text(v)))
        .build(cx, &mut dom);
    assert_eq!(dom.children(root), &vec![state.footer_id()]);
}

#[test]
fn slice_passes_the_index_to_the_callback() {
    let (mut dom, root, cx, _) = fresh();
    let data = vec!["x", "y", "z"];
    let labels = ["0", "1", "2"];
    slice(&data, |cx: Cx<TextState>, i: usize, _: &&str| cx.build(text(labels[i])))
        .build(cx, &mut dom);
    assert_eq!(texts(&dom, root), vec!["|", "0", "|", "1", "|", "2", "|"]);
}

#[test]
fn slice_rebuild_updates_appends_and_truncates() {
    let (mut dom, root, cx, again) = fresh();
    let data = vec!["a".to_string(), "b".to_string()];
    let mut state = slice(&data, |cx: Cx<TextState>, _: usize, v: &String| cx.build(text(v)))
        .build(cx, &mut dom);
    let first = dom.children(root).clone();

    dom.take_mutations();
    slice(&data, |cx: Cx<TextState>, _: usize, v: &String| cx.build(text(v)))
        .rebuild(again, &mut dom, &mut state);
    assert_eq!(dom.mutation_count(), 0);
    assert_eq!(dom.children(root), &first);

    let swapped = vec!["b".to_string(), "a".to_string()];
    slice(&swapped, |cx: Cx<TextState>, _: usize, v: &String| cx.build(text(v)))
        .rebuild(again, &mut dom, &mut state);
    assert_eq!(dom.children(root), &first);
    assert_eq!(texts(&dom, root), vec!["|", "b", "|", "a", "|"]);
    assert_eq!(dom.mutation_count(), 2);

    let longer = vec!["b".to_string(), "a".to_string(), "c".to_string(), "d".to_string()];
    slice(&longer, |cx: Cx<TextState>, _: usize, v: &String| cx.build(text(v)))
        .rebuild(again, &mut dom, &mut state);
    assert_eq!(texts(&dom, root), vec!["|", "b", "|", "a", "|", "c", "|", "d", "|"]);
    let grown = dom.children(root).clone();
    assert_eq!(&grown[..4], &first[..4]);
    assert_eq!(grown[8], first[4]);
    assert_eq!(state.len(), 4);

    let shorter = vec!["b".to_string()];
    slice(&shorter, |cx: Cx<TextState>, _: usize, v: &String| cx.build(text(v)))
        .rebuild(again, &mut dom, &mut state);
    assert_eq!(texts(&dom, root), vec!["|", "b", "|"]);
    assert_eq!(dom.children(root), &vec![first[0], first[1], first[4]]);
    assert_eq!(state.len(), 1);
    for node in &grown[2..8] {
        assert_eq!(dom.parent(*node), None);
    }

    let none: Vec<String> = Vec::new();
    slice(&none, |cx: Cx<TextState>, _: usize, v: &String| cx.build(text(v)))
        .rebuild(again, &mut dom, &mut state);
    assert_eq!(dom.children(root), &vec![first[4]]);
    assert_eq!(state.len(), 0);
}

#[test]
fn slice_stands_where_it_was_built_among_its_neighbours() {
    let (mut dom, root, cx, again) = fresh();
    let data = vec!["a".to_string()];
    let mut state = (
        text("before"),
        slice(&data, |cx: Cx<TextState>, _: usize, v: &String| cx.build(text(v))),
        text("after"),
    )
        .build(cx, &mut dom);
    assert_eq!(texts(&dom, root), vec!["before", "|", "a", "|", "after"]);
    let longer = vec!["a".to_string(), "b".to_string()];
    (
        text("before"),
        slice(&longer, |cx: Cx<TextState>, _: usize, v: &String| cx.build(text(v))),
        text("after!"),
    )
        .rebuild(again, &mut dom, &mut state);
    assert_eq!(texts(&dom, root), vec!["before", "|", "a", "|", "b", "|", "after!"]);
    let none: Vec<String> = Vec::new();
    (
        text("before"),
        slice(&none, |cx: Cx<TextState>, _: usize, v: &String| cx.build(text(v))),
        text("after"),
    )
        .rebuild(again, &mut dom, &mut state);
    assert_eq!(texts(&dom, root), vec!["before", "|", "after"]);
}

#[test]
fn iter_renders_owned_items_in_order() {
    let (mut dom, root, cx, again) = fresh();
    let items = vec![1u32, 2, 3];
    let names = ["zero", "one", "two", "three", "four"];
    let mut state = iter(items, |cx: Cx<TextState>, _: usize, v: u32| {
        cx.build(text(names[v as usize]))
    })
    .build(cx, &mut dom);
    assert_eq!(texts(&dom, root), vec!["|", "one", "|", "two", "|", "three", "|"]);
    let first = dom.children(root).clone();

    dom.take_mutations();
    iter(vec![1u32, 2, 3], |cx: Cx<TextState>, _: usize, v: u32| cx.build(text(names[v as usize])))
        .rebuild(again, &mut dom, &mut state);
    assert_eq!(dom.mutation_count(), 0);

    iter(vec![4u32, 2, 3, 0], |cx: Cx<TextState>, _: usize, v: u32| {
        cx.build(text(names[v as usize]))
    })
    .rebuild(again, &mut dom, &mut state);
    assert_eq!(texts(&dom, root), vec!["|", "four", "|", "two", "|", "three", "|", "zero", "|"]);
    assert_eq!(&dom.children(root)[..6], &first[..6]);

    iter(vec![4u32], |cx: Cx<TextState>, i: usize, _: u32| cx.build(text(names[i])))
        .rebuild(again, &mut dom, &mut state);
    assert_eq!(texts(&dom, root), vec!["|", "zero", "|"]);
    assert_eq!(dom.children(root), &vec![first[0], first[1], first[6]]);

    iter(Vec::<u32>::new(), |cx: Cx<TextState>, i: usize, _: u32| cx.build(text(names[i])))
        .rebuild(again, &mut dom, &mut state);
    assert_eq!(dom.children(root), &vec![first[6]]);
}

#[test]
fn btree_map_builds_entries_in_key_order() {
    let (mut dom, root, cx, _) = fresh();
    let data = map_of(&[(5, "e"), (1, "a"), (3, "c")]);
    let state = btree_map(&data, render).build(cx, &mut dom);
    assert_eq!(texts(&dom, root), vec!["|", "a", "|", "c", "|", "e", "|"]);
    assert_eq!(state.len(), 3);
    assert_eq!((state.key(0), state.key(1), state.key(2)), (1, 3, 5));
    assert_eq!(dom.children(root)[2], state.entry(1).header_id());
    assert_eq!(dom.children(root)[6], state.footer_id());
}

#[test]
fn btree_map_rebuild_with_the_same_map_changes_nothing() {
    let (mut dom, root, cx, again) = fresh();
    let data = map_of(&[(0, "a"), (1, "b")]);
    let mut state = btree_map(&data, render).build(cx, &mut dom);
    let kids = dom.children(root).clone();
    dom.take_mutations();
    btree_map(&data, render).rebuild(again, &mut dom, &mut state);
    assert_eq!(dom.mutation_count(), 0);
    assert_eq!(dom.children(root), &kids);
}

#[test]
fn btree_map_removing_a_key_keeps_the_others() {
    let (mut dom, root, cx, again) = fresh();
    let mut data = map_of(&[(0, "a"), (1, "b")]);
    let mut state = btree_map(&data, |cx: Cx<ElState<Row, TextState>>, _: &u64, v: &String| {
        cx.build(el(Row, text(v)))
    })
    .build(cx, &mut dom);
    let before = dom.children(root).clone();
    assert_eq!(texts(&dom, root), vec!["|", "tr", "|", "tr", "|"]);
    let survivor = state.entry(1).header_id();
    let survivor_row = state.entry(1).state_ref().as_ref().unwrap().node_id();

    data.remove(&0);
    dom.take_mutations();
    btree_map(&data, |cx: Cx<ElState<Row, TextState>>, _: &u64, v: &String| cx.build(el(Row, text(v))))
        .rebuild(again, &mut dom, &mut state);
    assert_eq!(state.len(), 1);
    assert_eq!(state.key(0), 1);
    assert_eq!(state.entry(0).header_id(), survivor);
    assert_eq!(state.entry(0).state_ref().as_ref().unwrap().node_id(), survivor_row);
    assert_eq!(dom.children(root), &vec![before[2], before[3], before[4]]);
    assert_eq!(dom.parent(before[0]), None);
    assert_eq!(dom.parent(before[1]), None);
    assert_eq!(dom.mutation_count(), 2);
}

#[test]
fn btree_map_inserts_updates_and_removes_in_one_rebuild() {
    let (mut dom, root, cx, again) = fresh();
    let mut state = btree_map(&map_of(&[(2, "b"), (4, "d"), (6, "f")]), render).build(cx, &mut dom);
    assert_eq!(texts(&dom, root), vec!["|", "b", "|", "d", "|", "f", "|"]);
    let old = dom.children(root).clone();
    let count = dom.len();

    btree_map(&map_of(&[(1, "a"), (4, "D"), (5, "e"), (7, "g")]), render)
        .rebuild(again, &mut dom, &mut state);
    assert_eq!(texts(&dom, root), vec!["|", "a", "|", "D", "|", "e", "|", "g", "|"]);
    assert_eq!((state.key(0), state.key(1), state.key(2), state.key(3)), (1, 4, 5, 7));
    let new = dom.children(root).clone();
    assert_eq!((new[2], new[3]), (old[2], old[3]));
    assert_eq!(new[8], old[6]);
    for fresh in [new[0], new[1], new[4], new[5], new[6], new[7]] {
        assert!(fresh >= count);
    }
    for gone in [old[0], old[1], old[4], old[5]] {
        assert_eq!(dom.parent(gone), None);
    }
    for index in 0..4 {
        assert_eq!(new[2 * index], state.entry(index).header_id());
    }
}

#[test]
fn btree_map_keeps_identity_over_many_cycles() {
    let (mut dom, root, cx, again) = fresh();
    let mut data = BTreeMap::new();
    let mut state = btree_map(&data, render).build(cx, &mut dom);
    let footer = state.footer_id();
    let mut headers: BTreeMap<u64, NodeId> = BTreeMap::new();
    let steps: [(u64, Option<&str>); 12] = [
        (5, Some("e")),
        (1, Some("a")),
        (9, Some("i")),
        (5, Some("E")),
        (3, Some("c")),
        (1, None),
        (7, Some("g")),
        (9, None),
        (0, Some("z")),
        (5, None),
        (3, None),
        (4, Some("d")),
    ];
    for (key, change) in steps {
        match change {
            Some(value) => {
                data.insert(key, value.to_string());
            }
            None => {
                data.remove(&key);
                headers.remove(&key);
            }
        }
        btree_map(&data, render).rebuild(again, &mut dom, &mut state);
        assert_eq!(state.len(), data.len());
        assert_eq!(state.footer_id(), footer);
        let kids = dom.children(root).clone();
        assert_eq!(kids.len(), 2 * data.len() + 1);
        assert_eq!(kids[2 * data.len()], footer);
        for (index, (key, value)) in data.iter().enumerate() {
            assert_eq!(state.key(index), *key);
            let header = state.entry(index).header_id();
            assert_eq!(kids[2 * index], header);
            assert_eq!(dom.text(header), "|");
            assert_eq!(dom.text(kids[2 * index + 1]), value.as_str());
            match headers.get(key) {
                Some(known) => assert_eq!(*known, header),
                None => {
                    headers.insert(*key, header);
                }
            }
        }
    }
}

#[test]
fn collections_deliver_events_to_every_entry() {
    let (mut dom, _, cx, _) = fresh();
    let data = map_of(&[(0, "a"), (1, "b")]);
    let mut state = btree_map(&data, render).build(cx, &mut dom);
    dom.take_mutations();
    let mut shared = Float::new(0u8);
    state.run(&mut dom, &mut shared);
    assert_eq!(dom.mutation_count(), 0);
    assert_eq!(shared.into_inner(), Ok(0));
}
