use francois::dom::{comment, document, elem, root, text, AttrMap, DocumentType, ElementType, NodeType};

fn map(entries: &[(&str, &str)]) -> AttrMap {
    let mut m = AttrMap::new();
    for (k, v) in entries {
        m.insert(k.to_string(), v.to_string());
    }
    m
}

#[test]
fn attribute_map_last_insert_wins() {
    let m = map(&[("a", "1"), ("b", "2"), ("a", "3")]);
    assert_eq!(m.get(&"a".to_string()), Some(&"3".to_string()));
    assert_eq!(m.get(&"b".to_string()), Some(&"2".to_string()));
    assert_eq!(m.get(&"c".to_string()), None);
}

#[test]
fn attribute_map_equality_ignores_order() {
    assert_eq!(map(&[("a", "1"), ("b", "2")]), map(&[("b", "2"), ("a", "1")]));
    assert_ne!(map(&[("a", "1")]), map(&[("a", "2")]));
    assert_ne!(map(&[("a", "1")]), map(&[("a", "1"), ("b", "2")]));
    assert_eq!(AttrMap::new(), AttrMap::new());
}

#[test]
fn constructors_build_the_variants() {
    assert_eq!(root().node_type, NodeType::Root);
    assert!(root().children.is_empty());
    assert_eq!(text("t".to_string()).node_type, NodeType::Text("t".to_string()));
    assert_eq!(comment("c".to_string()).node_type, NodeType::Comment("c".to_string()));
    let d = document("html".to_string(), Vec::new());
    assert_eq!(d.node_type, NodeType::Document(DocumentType { doctype: "html".to_string() }));
    let e = elem("p".to_string(), map(&[("k", "v")]), vec![text("x".to_string())]);
    assert_eq!(
        e.node_type,
        NodeType::Element(ElementType { tag_name: "p".to_string(), attributes: map(&[("k", "v")]) })
    );
    assert_eq!(e.children, vec![text("x".to_string())]);
}

#[test]
fn descriptions_of_element_and_doctype() {
    let e = ElementType { tag_name: "img".to_string(), attributes: map(&[("src", "a"), ("alt", "b")]) };
    assert_eq!(e.to_string(), "ElementType : tag_name - img, attributes - src_a , alt_b");
    let d = DocumentType { doctype: "html".to_string() };
    assert_eq!(d.to_string(), "DocumentType doctype - html");
}
