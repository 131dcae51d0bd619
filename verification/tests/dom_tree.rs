use saba_core::attribute::Attribute;
use saba_core::node::DomError;
use saba_core::node::Element;
use saba_core::node::ElementKind;
use saba_core::node::Node;
use saba_core::node::NodeKind;
use saba_core::node::Window;

#[test]
fn recognized_tags_construct() {
    let cases = vec![
        ("html", ElementKind::Html),
        ("head", ElementKind::Head),
        ("style", ElementKind::Style),
        ("script", ElementKind::Script),
        ("body", ElementKind::Body),
        ("p", ElementKind::P),
    ];
    for (name, kind) in cases {
        let element = Element::new(name, vec![]).unwrap();
        assert_eq!(element.kind(), kind);
        assert_eq!(ElementKind::from_str(name).unwrap(), kind);
    }
}

#[test]
fn unknown_tag_reports_failure() {
    assert_eq!(
        ElementKind::from_str("div"),
        Err("invalid element kind: div".to_string())
    );
    assert_eq!(
        Element::new("table", vec![]).unwrap_err(),
        "invalid element kind: table".to_string()
    );
    assert!(Element::new("", vec![]).is_err());
    assert!(Element::new("HTML", vec![]).is_err());
}

#[test]
fn element_keeps_attributes_in_order() {
    let attributes = vec![
        Attribute::new("id".to_string(), "x".to_string()),
        Attribute::new("class".to_string(), "y".to_string()),
    ];
    let element = Element::new("p", attributes).unwrap();
    let attrs = element.attributes();
    assert_eq!(attrs.len(), 2);
    assert_eq!(attrs[0].name(), "id");
    assert_eq!(attrs[0].value(), "x");
    assert_eq!(attrs[1].name(), "class");
    assert_eq!(attrs[1].value(), "y");
}

#[test]
fn window_owns_document() {
    let w = Window::new();
    let doc = w.document();
    assert_eq!(doc, 0);
    assert_eq!(w.node_count(), 1);
    let node = w.node(doc).unwrap();
    assert!(matches!(node.kind(), NodeKind::Document));
    assert_eq!(w.owning_window_of(doc), Some(0));
    assert_eq!(w.parent_of(doc), None);
    assert_eq!(w.first_child_of(doc), None);
}

#[test]
fn created_nodes_share_the_owner_handle() {
    let mut w = Window::new();
    let t = w.create(NodeKind::Text("hi".to_string()));
    assert_eq!(w.owning_window_of(t), Some(0));
    assert_eq!(w.parent_of(t), None);
}

#[test]
fn append_siblings_traverse_both_ways() {
    let mut w = Window::new();
    let doc = w.document();
    let a = w.create(NodeKind::Text("a".to_string()));
    let b = w.create(NodeKind::Text("b".to_string()));
    let c = w.create(NodeKind::Text("c".to_string()));
    let d = w.create(NodeKind::Text("d".to_string()));
    assert_eq!(w.link_as_first_child(doc, a), Ok(()));
    assert_eq!(w.append_sibling(a, b), Ok(()));
    assert_eq!(w.append_sibling(b, c), Ok(()));
    assert_eq!(w.append_sibling(c, d), Ok(()));
    // forward traversal: append order; backward traversal: the reverse
    assert_eq!(w.children_forward(doc), vec![a, b, c, d]);
    assert_eq!(w.children_backward(doc), vec![d, c, b, a]);
    assert_eq!(w.first_child_of(doc), Some(a));
    assert_eq!(w.next_sibling_of(a), Some(b));
    assert_eq!(w.next_sibling_of(d), None);
    assert_eq!(w.previous_sibling_of(d), Some(c));
    assert_eq!(w.previous_sibling_of(a), None);
    assert_eq!(w.node(doc).unwrap().last_child(), Some(d));
}

#[test]
fn parent_roundtrip_finds_node_once() {
    let mut w = Window::new();
    let doc = w.document();
    let a = w.create(NodeKind::Text("a".to_string()));
    let b = w.create(NodeKind::Text("b".to_string()));
    assert_eq!(w.link_as_first_child(doc, a), Ok(()));
    assert_eq!(w.append_sibling(a, b), Ok(()));
    for id in [a, b] {
        let p = w.parent_of(id).unwrap();
        let hits = w.children_forward(p).iter().filter(|&&x| x == id).count();
        assert_eq!(hits, 1);
    }
}

#[test]
fn linking_preconditions_are_reported() {
    let mut w = Window::new();
    let doc = w.document();
    let a = w.create(NodeKind::Text("a".to_string()));
    let b = w.create(NodeKind::Text("b".to_string()));
    let c = w.create(NodeKind::Text("c".to_string()));
    assert_eq!(w.link_as_first_child(doc, 99), Err(DomError::UnknownNode));
    assert_eq!(w.append_sibling(99, a), Err(DomError::UnknownNode));
    assert_eq!(w.link_as_first_child(a, doc), Err(DomError::DocumentNode));
    assert_eq!(w.link_as_first_child(a, a), Err(DomError::SelfLink));
    assert_eq!(w.append_sibling(a, b), Err(DomError::AnchorDetached));
    assert_eq!(w.link_as_first_child(doc, a), Ok(()));
    assert_eq!(w.link_as_first_child(doc, b), Err(DomError::FirstChildPresent));
    assert_eq!(w.link_as_first_child(b, a), Err(DomError::NotDetached));
    assert_eq!(w.append_sibling(a, b), Ok(()));
    assert_eq!(w.append_sibling(a, c), Err(DomError::AnchorNotLast));
    assert_eq!(w.append_sibling(b, a), Err(DomError::NotDetached));
    // a failed operation leaves the tree as it was
    assert_eq!(w.children_forward(doc), vec![a, b]);
}

#[test]
fn element_nodes_expose_their_payload() {
    let mut w = Window::new();
    let doc = w.document();
    let element = Element::new("body", vec![Attribute::new(
        "class".to_string(),
        "main".to_string(),
    )])
    .unwrap();
    let e = w.create(NodeKind::Element(element));
    assert_eq!(w.link_as_first_child(doc, e), Ok(()));
    let payload = w.element_view(e).unwrap();
    assert_eq!(payload.kind(), ElementKind::Body);
    assert_eq!(payload.attributes()[0].name(), "class");
    assert!(w.element_view(doc).is_none());
    assert!(w.element_view(99).is_none());
    let node = w.node(e).unwrap();
    assert_eq!(node.element_kind(), Some(ElementKind::Body));
    assert!(node.get_element().is_some());
}

#[test]
fn detached_node_reads_are_optional_results() {
    let n = Node::new(NodeKind::Text("t".to_string()));
    assert_eq!(n.parent(), None);
    assert_eq!(n.first_child(), None);
    assert_eq!(n.last_child(), None);
    assert_eq!(n.previous_sibling(), None);
    assert_eq!(n.next_sibling(), None);
    assert_eq!(n.element_kind(), None);
    assert!(n.get_element().is_none());
}

#[test]
fn node_setters_update_links() {
    let mut n = Node::new(NodeKind::Document);
    n.set_parent(Some(1));
    n.set_first_child(Some(2));
    n.set_last_child(Some(3));
    n.set_previous_sibling(Some(4));
    n.set_next_sibling(Some(5));
    n.set_window(Some(6));
    assert_eq!(n.parent(), Some(1));
    assert_eq!(n.first_child(), Some(2));
    assert_eq!(n.last_child(), Some(3));
    assert_eq!(n.previous_sibling(), Some(4));
    assert_eq!(n.next_sibling(), Some(5));
    assert!(matches!(n.kind(), NodeKind::Document));
}
