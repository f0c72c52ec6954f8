use ravel::builder::{BuildCx, Builder, RebuildCx};
use ravel::dom::{Dom, Position};
use ravel::style::{style, style_of, StyleError};

#[test]
fn style_minifies_the_declarations() {
    let mut dom = Dom::new();
    let root = dom.create_element("p");
    let cx = BuildCx { position: Position { parent: root, insert_before: None } };
    let mut state = style("color: red;  background-color: #0000ff").unwrap().build(cx, &mut dom);
    assert_eq!(dom.attribute(root, "style"), Some("color:red;background-color:#00f".to_string()));
    dom.take_mutations();
    style("color:red;background-color:#00f")
        .unwrap()
        .rebuild(RebuildCx { parent: root }, &mut dom, &mut state);
    assert_eq!(dom.mutation_count(), 0);
    style("margin: 0px").unwrap().rebuild(RebuildCx { parent: root }, &mut dom, &mut state);
    assert_eq!(dom.attribute(root, "style"), Some("margin:0".to_string()));
}

#[test]
fn style_of_nothing_is_empty() {
    let mut dom = Dom::new();
    let root = dom.create_element("p");
    let cx = BuildCx { position: Position { parent: root, insert_before: None } };
    style("").unwrap().build(cx, &mut dom);
    assert_eq!(dom.attribute(root, "style"), Some(String::new()));
}

#[test]
fn style_rejects_what_is_no_css() {
    assert_eq!(style("color red").err(), Some(StyleError));
    assert_eq!(style("color: red; 5").err(), Some(StyleError));
    assert_eq!(style("{").err(), Some(StyleError));
}

#[test]
fn style_of_takes_the_minified_text_as_it_is() {
    let mut dom = Dom::new();
    let root = dom.create_element("p");
    let cx = BuildCx { position: Position { parent: root, insert_before: None } };
    style_of(Some("color:red".to_string())).unwrap().build(cx, &mut dom);
    assert_eq!(dom.attribute(root, "style"), Some("color:red".to_string()));
    assert_eq!(style_of(None).err(), Some(StyleError));
}
