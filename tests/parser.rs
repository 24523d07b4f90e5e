use francois::dom::{comment, document, elem, text, AttrMap, Node, NodeType};
use francois::parser::node::{
    p_comment, p_doctype, p_node, p_tag_autocloseable, p_tag_close, p_tag_open, p_text_content,
    resolve_doctype,
    parse_tag,
};
use francois::parser::{parse, ParseError};
use francois::parser::raw_type::attributes_to_map;
use francois::tools::pretty_print;

fn map(entries: &[(&str, &str)]) -> AttrMap {
    let mut m = AttrMap::new();
    for (k, v) in entries {
        m.insert(k.to_string(), v.to_string());
    }
    m
}

fn children_of(input: &str) -> Vec<Node> {
    let tree = parse(input.to_string()).unwrap();
    assert_eq!(tree.node_type, NodeType::Root);
    tree.children
}

#[test]
fn doctype_scenario() {
    assert_eq!(children_of("<!DOCTYPE html>"), vec![document("html".to_string(), Vec::new())]);
}

#[test]
fn comment_scenario() {
    assert_eq!(children_of("<!-- hello -->"), vec![comment("hello".to_string())]);
}

#[test]
fn self_closing_scenario() {
    assert_eq!(
        children_of(r#"<img src="a.png"/>"#),
        vec![elem("img".to_string(), map(&[("src", "a.png")]), Vec::new())]
    );
}

#[test]
fn element_with_text_scenario() {
    assert_eq!(
        children_of(r#"<div class="x"> hi </div>"#),
        vec![elem("div".to_string(), map(&[("class", "x")]), vec![text("hi".to_string())])]
    );
}

#[test]
fn unclosed_element_scenario() {
    assert_eq!(parse("<p>".to_string()), Err(ParseError::UnclosedElement));
}

#[test]
fn flag_attribute_scenario() {
    let (rest, node) = p_tag_open(" <tag html>").unwrap();
    assert_eq!(rest, "");
    assert_eq!(node, elem("tag".to_string(), map(&[("html", "yes")]), Vec::new()));
}

#[test]
fn tag_matching_law_examples() {
    let (rest, node) = parse_tag(r#"<T a="1">body</T>"#).unwrap();
    assert_eq!(rest, "");
    assert_eq!(node, elem("T".to_string(), map(&[("a", "1")]), vec![text("body".to_string())]));
    assert_eq!(parse(r#"<T a="1">body</U>"#.to_string()), Err(ParseError::UnclosedElement));
    assert_eq!(parse(r#"<T a="1">body"#.to_string()), Err(ParseError::UnclosedElement));
    assert_eq!(parse(r#"<Ta a="1">body</T>"#.to_string()), Err(ParseError::UnclosedElement));
}

#[test]
fn determinism_example() {
    let input = r#"<!DOCTYPE html><html lang="fr"><body><p>a</p><br/></body></html>"#;
    assert_eq!(parse(input.to_string()), parse(input.to_string()));
}

#[test]
fn progress_on_fragments() {
    let fragments = ["<!-- x -->y", "<a/>z", "text<", "<b>c</b>d", "<!DOCTYPE html>e", " <i>x</i>"];
    for f in fragments.iter() {
        if let Ok((rest, _)) = p_node(f) {
            assert!(rest.len() < f.len(), "{}", f);
        }
    }
    assert_eq!(p_node(""), Err(ParseError::NoMatch));
    assert_eq!(p_node("</x>"), Err(ParseError::NoMatch));
}

#[test]
fn attribute_round_trip_example() {
    let original = map(&[("a", "1"), ("title", "say \"hi\""), ("c", "it's")]);
    let quoted = r#"<e a="1" title='say "hi"' c="it's">"#;
    let (_, node) = p_tag_open(quoted).unwrap();
    assert_eq!(node, elem("e".to_string(), original, Vec::new()));
}

#[test]
fn node_recognizers_on_their_own() {
    assert_eq!(p_node(" ceci est un text"), Ok(("", text("ceci est un text".to_string()))));
    assert_eq!(
        p_node("<!-- je suis venu, j'ai vu, j'ai vaincu -->"),
        Ok(("", comment("je suis venu, j'ai vu, j'ai vaincu".to_string())))
    );
    assert_eq!(
        p_node(r#"<img src="dd"/>"#),
        Ok(("", elem("img".to_string(), map(&[("src", "dd")]), Vec::new())))
    );
    assert_eq!(
        p_text_content(" octave est un mouflon. "),
        Ok(("", text("octave est un mouflon.".to_string())))
    );
    assert_eq!(
        p_tag_autocloseable("<img type=jpg />"),
        Ok(("", elem("img".to_string(), map(&[("type", "jpg")]), Vec::new())))
    );
    assert_eq!(p_doctype("<!DOCTYPE html >"), Ok(("", document("html".to_string(), Vec::new()))));
    assert_eq!(p_comment("<!-- d d -->"), Ok(("", comment("d d".to_string()))));
    assert_eq!(
        p_tag_open(r#"<body class="ok">"#),
        Ok(("", elem("body".to_string(), map(&[("class", "ok")]), Vec::new())))
    );
    assert_eq!(p_tag_close(" </div> x", "div"), Ok((" x", "div")));
    assert_eq!(p_tag_close("</divx>", "div"), Err(ParseError::NoMatch));
}

#[test]
fn doctype_takes_a_valued_attribute_name() {
    assert_eq!(
        p_doctype(r#"<!DOCTYPE html xhtml="strict">"#),
        Ok(("", document("xhtml".to_string(), Vec::new())))
    );
    assert_eq!(p_doctype("<!DOCTYPE>"), Ok(("", document("html".to_string(), Vec::new()))));
}

#[test]
fn text_fails_only_where_nothing_precedes_a_chevron() {
    assert_eq!(p_text_content(""), Err(ParseError::NoMatch));
    assert_eq!(p_text_content("<p>"), Err(ParseError::NoMatch));
    assert_eq!(p_text_content("   <p>"), Ok(("<p>", text("".to_string()))));
}

#[test]
fn nested_elements_and_skipped_units() {
    let children = children_of("<ul><li>a</li><li>b</li></ul>");
    assert_eq!(
        children,
        vec![elem(
            "ul".to_string(),
            AttrMap::new(),
            vec![
                elem("li".to_string(), AttrMap::new(), vec![text("a".to_string())]),
                elem("li".to_string(), AttrMap::new(), vec![text("b".to_string())]),
            ]
        )]
    );
    assert_eq!(children_of("</x>"), vec![text("/x>".to_string())]);
    assert_eq!(children_of(""), Vec::<Node>::new());
}

#[test]
fn malformed_attribute_is_dropped() {
    assert_eq!(
        children_of("<a x=+y/>"),
        vec![elem("a".to_string(), AttrMap::new(), Vec::new())]
    );
    assert_eq!(
        children_of("<a x=+ k=v/>"),
        vec![elem("a".to_string(), map(&[("k", "v")]), Vec::new())]
    );
}

#[test]
fn pretty_print_lines() {
    let tree = parse("<!DOCTYPE html><!-- c --><p>t</p>".to_string()).unwrap();
    assert_eq!(
        pretty_print(&tree),
        vec![
            "Root".to_string(),
            "\t├─DocumentType doctype - html".to_string(),
            "\t├─Comment c".to_string(),
            "\t├─ElementType : tag_name - p, attributes - ".to_string(),
            "\t│ \t└─Text t".to_string(),
        ]
    );
    let single = parse("<b>x</b>".to_string()).unwrap();
    assert_eq!(
        pretty_print(&single),
        vec![
            "Root".to_string(),
            "\t└─ElementType : tag_name - b, attributes - ".to_string(),
            "\t└─\t└─Text x".to_string(),
        ]
    );
}

#[test]
fn later_attribute_of_a_name_wins() {
    let list = vec![
        ("a".to_string(), "1".to_string()),
        ("b".to_string(), "2".to_string()),
        ("a".to_string(), "3".to_string()),
    ];
    assert_eq!(attributes_to_map(&list), map(&[("a", "3"), ("b", "2")]));
    let (_, node) = p_tag_open("<p a=1 a=2>").unwrap();
    assert_eq!(node, elem("p".to_string(), map(&[("a", "2")]), Vec::new()));
}

#[test]
fn doctype_resolution_rule() {
    let pairs = |v: &[(&str, &str)]| -> Vec<(String, String)> {
        v.iter().map(|(k, x)| (k.to_string(), x.to_string())).collect()
    };
    assert_eq!(resolve_doctype(&pairs(&[])), "html");
    assert_eq!(resolve_doctype(&pairs(&[("html", "yes")])), "html");
    assert_eq!(resolve_doctype(&pairs(&[("svg", "1"), ("html", "yes")])), "svg");
    assert_eq!(resolve_doctype(&pairs(&[("svg", "1"), ("math", "2")])), "math");
}
