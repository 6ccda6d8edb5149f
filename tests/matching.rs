use dom_query::matching::{
    first_element_child, has_class_name, has_id, has_local_name, is_empty, is_html_element, is_link,
    is_same_type, match_non_ts_pseudo_class, matchable_text_of, texts_equal, PseudoClass,
};
use dom_query::matching::has_descendant_match;
use dom_query::{AttrValue, Attrib, Element, NodeData, NodeId, NodeRef, Text, Tree};

fn attr(name: &str, v: &str) -> Attrib {
    Attrib { name: name.to_string(), value: AttrValue::Str(v.to_string()) }
}

/// root > div#Main.box.wide > (a[href] > text "go here"), (text "tail")
fn page() -> (Tree<NodeData>, NodeId, NodeId, NodeId, NodeId) {
    let mut t = Tree::new(NodeData::Document);
    let root = t.root_id();
    t.append_child_data_of(&root, NodeData::Element(Element::with_attrs("div", vec![attr("id", "Main"), attr("class", "box  wide")])));
    let div = NodeId::new(1);
    t.append_child_data_of(&div, NodeData::Element(Element::with_attrs("a", vec![attr("href", "/x")])));
    let a = NodeId::new(2);
    t.append_child_data_of(&a, NodeData::Text(Text::new("go here")));
    let inner = NodeId::new(3);
    t.append_child_data_of(&div, NodeData::Text(Text::new("tail")));
    (t, div, a, inner, NodeId::new(4))
}

#[test]
fn names_and_kinds() {
    let (t, div, a, inner, tail) = page();
    assert!(has_local_name(&t, &div, "div"));
    assert!(!has_local_name(&t, &div, "DIV"));
    assert!(has_local_name(&t, &inner, "text"));
    assert!(!has_local_name(&t, &t.root_id(), "text"));
    assert!(is_html_element(&t, &inner));
    assert!(!is_html_element(&t, &t.root_id()));
    assert!(is_same_type(&t, &inner, &tail));
    assert!(!is_same_type(&t, &div, &a));
}

#[test]
fn id_and_class_with_case_rules() {
    let (t, div, a, _, _) = page();
    assert!(has_id(&t, &div, "Main", false));
    assert!(!has_id(&t, &div, "main", false));
    assert!(has_id(&t, &div, "main", true));
    assert!(!has_id(&t, &a, "Main", true));
    assert!(has_class_name(&t, &div, "wide", false));
    assert!(has_class_name(&t, &div, "BOX", true));
    assert!(!has_class_name(&t, &div, "BOX", false));
    assert!(texts_equal("AbC", "aBc", true));
    assert!(!texts_equal("AbC", "aBc", false));
}

#[test]
fn links_and_pseudo_classes() {
    let (t, div, a, _, _) = page();
    assert!(is_link(&t, &a));
    assert!(!is_link(&t, &div));
    assert!(match_non_ts_pseudo_class(&t, &a, &PseudoClass::Link));
    assert!(!match_non_ts_pseudo_class(&t, &a, &PseudoClass::Hover));
    assert!(match_non_ts_pseudo_class(&t, &div, &PseudoClass::Contains("heretail".to_string())));
    assert!(!match_non_ts_pseudo_class(&t, &div, &PseudoClass::Contains("here tail".to_string())));
    assert!(!match_non_ts_pseudo_class(&t, &div, &PseudoClass::HasText("here tail".to_string())));
    assert!(match_non_ts_pseudo_class(&t, &div, &PseudoClass::HasText("tail".to_string())));
}

#[test]
fn attribute_text_for_selectors() {
    assert_eq!(matchable_text_of(&AttrValue::Str("x".to_string())), Some(&"x".to_string()));
    assert_eq!(matchable_text_of(&AttrValue::Json("12".to_string())), Some(&"12".to_string()));
    assert_eq!(matchable_text_of(&AttrValue::Json("false".to_string())), Some(&"false".to_string()));
    assert_eq!(matchable_text_of(&AttrValue::Json("[1]".to_string())), None);
    assert_eq!(matchable_text_of(&AttrValue::Json("{}".to_string())), None);
    assert_eq!(matchable_text_of(&AttrValue::Json("null".to_string())), None);
}

#[test]
fn empty_and_first_element_child() {
    let (t, div, a, inner, _) = page();
    assert!(!is_empty(&t, &div));
    assert!(is_empty(&t, &inner));
    assert_eq!(first_element_child(&t, &div).map(|r| r.id), Some(a));
    assert_eq!(first_element_child(&t, &inner), None);
}

#[test]
fn descendant_search_stops_at_text_runs() {
    let (t, div, a, inner, _) = page();
    let named_a = |id: NodeId| NodeRef::new(id).node_name(&t).as_deref() == Some("a");
    assert!(has_descendant_match(&t, &t.root_id(), named_a));
    assert!(has_descendant_match(&t, &div, |id: NodeId| id == inner));
    assert!(!has_descendant_match(&t, &a, |id: NodeId| id == a));
}
