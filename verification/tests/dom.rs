use ravel::dom::{clear, Dom, Event, Mutation, NodeKind, Position};

#[test]
fn created_nodes_are_detached_and_numbered_in_order() {
    let mut dom = Dom::new();
    assert_eq!(dom.len(), 0);
    let div = dom.create_element("div");
    let text = dom.create_text("hello");
    let mark = dom.create_comment("|");
    assert_eq!((div, text, mark), (0, 1, 2));
    assert_eq!(dom.len(), 3);
    assert_eq!(dom.kind(div), NodeKind::Element);
    assert_eq!(dom.kind(text), NodeKind::Text);
    assert_eq!(dom.kind(mark), NodeKind::Comment);
    assert_eq!(dom.text(div), "div");
    assert_eq!(dom.text(text), "hello");
    assert_eq!(dom.text(mark), "|");
    assert_eq!(dom.parent(text), None);
    assert!(dom.children(div).is_empty());
}

#[test]
fn insert_before_puts_the_node_in_front_of_the_reference() {
    let mut dom = Dom::new();
    let root = dom.create_element("ul");
    let a = dom.create_text("a");
    let b = dom.create_text("b");
    let c = dom.create_text("c");
    dom.insert_before(root, a, None);
    dom.insert_before(root, c, None);
    dom.insert_before(root, b, Some(c));
    assert_eq!(dom.children(root), &vec![a, b, c]);
    assert_eq!(dom.parent(b), Some(root));
    assert_eq!(dom.index_in(root, b), 1);
    assert_eq!(dom.next_sibling(a), Some(b));
    assert_eq!(dom.next_sibling(c), None);
    assert_eq!(dom.next_sibling(root), None);
}

#[test]
fn position_insert_puts_the_node_at_the_position() {
    let mut dom = Dom::new();
    let root = dom.create_element("ul");
    let a = dom.create_text("a");
    let b = dom.create_text("b");
    Position { parent: root, insert_before: None }.insert(&mut dom, b);
    Position { parent: root, insert_before: Some(b) }.insert(&mut dom, a);
    assert_eq!(dom.children(root), &vec![a, b]);
}

#[test]
fn remove_child_detaches_the_node() {
    let mut dom = Dom::new();
    let root = dom.create_element("ul");
    let a = dom.create_text("a");
    let b = dom.create_text("b");
    dom.insert_before(root, a, None);
    dom.insert_before(root, b, None);
    dom.remove_child(root, a);
    assert_eq!(dom.children(root), &vec![b]);
    assert_eq!(dom.parent(a), None);
    assert_eq!(dom.len(), 3);
}

#[test]
fn clear_detaches_what_stands_between_two_nodes() {
    let mut dom = Dom::new();
    let root = dom.create_element("ul");
    let mut nodes = Vec::new();
    for name in ["a", "b", "c", "d", "e"] {
        let node = dom.create_text(name);
        dom.insert_before(root, node, None);
        nodes.push(node);
    }
    clear(&mut dom, root, nodes[1], nodes[4]);
    assert_eq!(dom.children(root), &vec![nodes[0], nodes[1], nodes[4]]);
    assert_eq!(dom.parent(nodes[2]), None);
    assert_eq!(dom.parent(nodes[3]), None);
    let before = dom.mutation_count();
    clear(&mut dom, root, nodes[1], nodes[4]);
    assert_eq!(dom.mutation_count(), before);
    assert_eq!(dom.children(root), &vec![nodes[0], nodes[1], nodes[4]]);
}

#[test]
fn set_data_replaces_the_text() {
    let mut dom = Dom::new();
    let text = dom.create_text("0");
    dom.set_data(text, "1");
    assert_eq!(dom.text(text), "1");
}

#[test]
fn attributes_are_set_overwritten_and_removed() {
    let mut dom = Dom::new();
    let a = dom.create_element("a");
    assert_eq!(dom.attribute(a, "href"), None);
    dom.set_attribute(a, "href", "x");
    dom.set_attribute(a, "id", "link");
    assert_eq!(dom.attribute(a, "href"), Some("x".to_string()));
    dom.set_attribute(a, "href", "y");
    assert_eq!(dom.attribute(a, "href"), Some("y".to_string()));
    assert_eq!(dom.attribute(a, "id"), Some("link".to_string()));
    dom.remove_attribute(a, "href");
    assert_eq!(dom.attribute(a, "href"), None);
    assert_eq!(dom.attribute(a, "id"), Some("link".to_string()));
    dom.set_attribute(a, "href", "");
    assert_eq!(dom.attribute(a, "href"), Some(String::new()));
}

#[test]
fn listeners_record_one_event_until_it_is_taken() {
    let mut dom = Dom::new();
    let button = dom.create_element("button");
    let listener = dom.listen(button, "click", true);
    assert_eq!(listener, 0);
    assert_eq!(dom.listener_count(), 1);
    assert!(dom.take_event(listener).is_none());
    dom.record(listener, Event { target: button, data: "first".to_string() });
    dom.record(listener, Event { target: button, data: "second".to_string() });
    let event = dom.take_event(listener).unwrap();
    assert_eq!(event.target, button);
    assert_eq!(event.data, "second");
    assert!(dom.take_event(listener).is_none());
}

#[test]
fn every_operation_is_logged_in_order() {
    let mut dom = Dom::new();
    let root = dom.create_element("p");
    let text = dom.create_text("a");
    let mark = dom.create_comment("|");
    dom.insert_before(root, text, None);
    dom.insert_before(root, mark, Some(text));
    dom.set_data(text, "b");
    dom.set_attribute(root, "id", "x");
    dom.remove_attribute(root, "id");
    dom.remove_child(root, mark);
    let listener = dom.listen(root, "click", false);
    assert_eq!(dom.mutation_count(), 10);
    let log = dom.take_mutations();
    assert_eq!(dom.mutation_count(), 0);
    assert_eq!(log.len(), 10);
    assert!(matches!(&log[0], Mutation::CreateElement { node, tag } if *node == root && tag == "p"));
    assert!(matches!(&log[1], Mutation::CreateText { node, data } if *node == text && data == "a"));
    assert!(matches!(&log[2], Mutation::CreateComment { node, data } if *node == mark && data == "|"));
    assert!(matches!(&log[3], Mutation::InsertBefore { parent, node, reference: None } if *parent == root && *node == text));
    assert!(matches!(&log[4], Mutation::InsertBefore { parent, node, reference: Some(r) } if *parent == root && *node == mark && *r == text));
    assert!(matches!(&log[5], Mutation::SetData { node, data } if *node == text && data == "b"));
    assert!(matches!(&log[6], Mutation::SetAttribute { node, name, value } if *node == root && name == "id" && value == "x"));
    assert!(matches!(&log[7], Mutation::RemoveAttribute { node, name } if *node == root && name == "id"));
    assert!(matches!(&log[8], Mutation::RemoveChild { parent, node } if *parent == root && *node == mark));
    assert!(matches!(&log[9], Mutation::Listen { listener: l, node, event, passive: false } if *l == listener && *node == root && event == "click"));
    assert_eq!(dom.children(root), &vec![text]);
}
