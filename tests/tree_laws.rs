use dom_query::attrs::{parse_json_or_use_as_string, value_or_text};
use dom_query::classes::{add_class, has_class, remove_class, split_tokens};
use dom_query::serialize::serialize_events;
use dom_query::{
    AttrValue, Attrib, DocumentTreeSink, Element, NodeData, NodeId, NodeOrText, NodeRef,
    SerializeEvent, Selection, Text, TraversalScope, Tree,
};

fn elem(name: &str) -> NodeData {
    NodeData::Element(Element::new(name))
}

fn ids(v: Vec<NodeRef>) -> Vec<usize> {
    v.into_iter().map(|r| r.id.value).collect()
}

/// A root with one element `p` holding three elements.
fn three_children() -> (Tree<NodeData>, NodeId, Vec<NodeId>) {
    let mut t = Tree::new(NodeData::Document);
    let root = t.root_id();
    t.append_child_data_of(&root, elem("p"));
    let p = NodeId::new(1);
    let mut kids = vec![];
    for name in ["a", "b", "c"] {
        let c = t.create_node(elem(name));
        t.append_child_of(&p, &c);
        kids.push(c);
    }
    (t, p, kids)
}

/// The links of every node, for comparing whole trees.
fn shape(t: &Tree<NodeData>) -> Vec<(Option<usize>, Option<usize>, Option<usize>, Option<usize>, Option<usize>)> {
    let v = |o: Option<NodeRef>| o.map(|r| r.id.value);
    (0..t.len())
        .map(|i| {
            let id = NodeId::new(i);
            (
                v(t.parent_of(&id)),
                v(t.prev_sibling_of(&id)),
                v(t.next_sibling_of(&id)),
                v(t.first_child_of(&id)),
                v(t.last_child_of(&id)),
            )
        })
        .collect()
}

#[test]
fn sibling_walks_match_child_list() {
    let (t, p, kids) = three_children();
    let mut forward = vec![];
    let mut cur = t.first_child_of(&p);
    while let Some(c) = cur {
        forward.push(c.id.value);
        cur = t.next_sibling_of(&c.id);
    }
    let mut backward = vec![];
    let mut cur = t.last_child_of(&p);
    while let Some(c) = cur {
        backward.push(c.id.value);
        cur = t.prev_sibling_of(&c.id);
    }
    let expected: Vec<usize> = kids.iter().map(|k| k.value).collect();
    assert_eq!(forward, expected);
    assert_eq!(ids(t.children_of(&p)), expected);
    backward.reverse();
    assert_eq!(backward, expected);
}

#[test]
fn detach_twice_equals_once() {
    let (mut once, _, kids) = three_children();
    once.remove_from_parent(&kids[1]);
    let (mut twice, _, _) = three_children();
    twice.remove_from_parent(&kids[1]);
    twice.remove_from_parent(&kids[1]);
    assert_eq!(shape(&once), shape(&twice));
    assert_eq!(ids(once.children_of(&NodeId::new(1))), vec![kids[0].value, kids[2].value]);
    assert!(once.parent_of(&kids[1]).is_none());
}

#[test]
fn detach_unknown_or_root_changes_nothing() {
    let (mut t, _, _) = three_children();
    let before = shape(&t);
    t.remove_from_parent(&NodeId::new(99));
    t.remove_from_parent(&NodeId::new(0));
    assert_eq!(shape(&t), before);
}

/// A fragment as a fragment parse lays it out: the document, a detached
/// context element, the root element under the document, then `k`
/// top-level elements under that root.
fn fragment(k: usize) -> Tree<NodeData> {
    let mut f = Tree::new(NodeData::Document);
    let root = f.root_id();
    f.create_node(elem("body"));
    f.append_child_data_of(&root, elem("html"));
    for i in 0..k {
        f.append_child_data_of(&NodeId::new(2), elem(&format!("x{}", i)));
    }
    f
}

#[test]
fn graft_adds_k_children_under_parent() {
    let (mut t, p, kids) = three_children();
    let size = t.len();
    t.append_children_from_another_tree(&p, fragment(2));
    let now = ids(t.children_of(&p));
    assert_eq!(now.len(), kids.len() + 2);
    assert_eq!(&now[3..], &[size + 3, size + 4]);
    for c in &now {
        assert_eq!(t.parent_of(&NodeId::new(*c)).map(|r| r.id), Some(p));
    }
    assert!(t.first_child_of(&NodeId::new(size + 2)).is_none());
    assert_eq!(t.len(), size + 5);
}

#[test]
fn graft_before_anchor_keeps_order() {
    let (mut t, p, kids) = three_children();
    let size = t.len();
    t.append_prev_siblings_from_another_tree(&kids[1], fragment(2));
    assert_eq!(
        ids(t.children_of(&p)),
        vec![kids[0].value, size + 3, size + 4, kids[1].value, kids[2].value]
    );
}

#[test]
fn fragment_shape_is_recognised() {
    assert!(fragment(2).is_fragment());
    let mut short = Tree::new(NodeData::Document);
    let root = short.root_id();
    short.append_child_data_of(&root, elem("html"));
    assert!(!short.is_fragment());
    let mut nested = Tree::new(NodeData::Document);
    nested.append_child_data_of(&root, elem("html"));
    nested.append_child_data_of(&NodeId::new(1), elem("body"));
    assert!(!nested.is_fragment());
}

#[test]
fn text_merges_into_last_text_child() {
    let mut sink = DocumentTreeSink::new();
    let root = sink.get_document();
    let p = sink.create_element("p", vec![]);
    sink.append(&root, NodeOrText::AppendNode(p));
    sink.append(&p, NodeOrText::AppendText("ab".to_string()));
    let count = sink.document.tree.children_of(&p).len();
    sink.append(&p, NodeOrText::AppendText("cd".to_string()));
    assert_eq!(sink.document.tree.children_of(&p).len(), count);
    let t = NodeRef::new(p).text(&sink.document.tree);
    assert_eq!(t, "abcd");
}

#[test]
fn text_after_element_makes_new_run() {
    let mut sink = DocumentTreeSink::new();
    let root = sink.get_document();
    let p = sink.create_element("p", vec![]);
    sink.append(&root, NodeOrText::AppendNode(p));
    let b = sink.create_element("b", vec![]);
    sink.append(&p, NodeOrText::AppendNode(b));
    sink.append(&p, NodeOrText::AppendText("x".to_string()));
    assert_eq!(sink.document.tree.children_of(&p).len(), 2);
}

#[test]
fn text_before_sibling_merges_into_previous_run() {
    let mut sink = DocumentTreeSink::new();
    let root = sink.get_document();
    let p = sink.create_element("p", vec![]);
    sink.append(&root, NodeOrText::AppendNode(p));
    sink.append(&p, NodeOrText::AppendText("a".to_string()));
    let b = sink.create_element("b", vec![]);
    sink.append(&p, NodeOrText::AppendNode(b));
    sink.append_before_sibling(&b, NodeOrText::AppendText("z".to_string()));
    assert_eq!(sink.document.tree.children_of(&p).len(), 2);
    assert_eq!(NodeRef::new(p).text(&sink.document.tree), "az");
}

#[test]
fn ignored_handles_do_nothing() {
    let mut sink = DocumentTreeSink::new();
    let c = sink.create_comment("note");
    assert!(sink.is_ignored(&c));
    let root = sink.get_document();
    sink.append(&root, NodeOrText::AppendNode(c));
    sink.append(&c, NodeOrText::AppendText("x".to_string()));
    assert_eq!(sink.document.tree.len(), 1);
    assert!(sink.document.tree.children_of(&root).is_empty());
}

#[test]
fn element_named_text_becomes_text_run() {
    let mut sink = DocumentTreeSink::new();
    let t = sink.create_element("text", vec![]);
    assert!(NodeRef::new(t).is_text(&sink.document.tree));
    assert_eq!(sink.elem_name(&t), Some("text".to_string()));
    let e = sink.create_element("div", vec![]);
    assert!(NodeRef::new(e).is_element(&sink.document.tree));
}

#[test]
fn add_attrs_if_missing_keeps_existing() {
    let mut sink = DocumentTreeSink::new();
    let e = sink.create_element(
        "div",
        vec![Attrib { name: "a".to_string(), value: AttrValue::Str("1".to_string()) }],
    );
    sink.add_attrs_if_missing(
        &e,
        vec![
            Attrib { name: "a".to_string(), value: AttrValue::Str("2".to_string()) },
            Attrib { name: "b".to_string(), value: AttrValue::Str("3".to_string()) },
        ],
    );
    let attrs = NodeRef::new(e).attrs(&sink.document.tree);
    let pairs: Vec<(String, String)> = attrs.iter().map(|a| (a.name.clone(), a.value.text().clone())).collect();
    assert_eq!(pairs, vec![("a".to_string(), "1".to_string()), ("b".to_string(), "3".to_string())]);
}

#[test]
fn reparent_appends_children_in_order() {
    let (mut t, p, kids) = three_children();
    let root = t.root_id();
    t.append_child_data_of(&root, elem("q"));
    let q = NodeId::new(t.len() - 1);
    let z = t.create_node(elem("z"));
    t.append_child_of(&q, &z);
    t.reparent_children_of(&p, Some(q));
    assert!(t.children_of(&p).is_empty());
    assert_eq!(ids(t.children_of(&q)), vec![z.value, kids[0].value, kids[1].value, kids[2].value]);
    t.remove_children_of(&q);
    assert!(t.children_of(&q).is_empty());
    assert!(t.parent_of(&kids[0]).is_none());
}

#[test]
fn insert_before_moves_existing_node() {
    let (mut t, p, kids) = three_children();
    t.append_prev_sibling_of(&kids[0], &kids[2]);
    assert_eq!(ids(t.children_of(&p)), vec![kids[2].value, kids[0].value, kids[1].value]);
    t.append_prev_sibling_of(&kids[0], &kids[0]);
    assert_eq!(ids(t.children_of(&p)), vec![kids[2].value, kids[0].value, kids[1].value]);
}

#[test]
fn serialize_events_in_document_order() {
    let mut t = Tree::new(NodeData::Document);
    let root = t.root_id();
    t.append_child_data_of(&root, elem("a"));
    let a = NodeId::new(1);
    t.append_child_data_of(&a, NodeData::Text(Text::new("hi")));
    let x = NodeId::new(2);
    let all = serialize_events(&t, &root, TraversalScope::IncludeNode);
    assert_eq!(
        all,
        vec![
            SerializeEvent::Start(a),
            SerializeEvent::Start(x),
            SerializeEvent::Text(x),
            SerializeEvent::End(x),
            SerializeEvent::End(a),
        ]
    );
    let inner = serialize_events(&t, &a, TraversalScope::ChildrenOnly);
    assert_eq!(inner, vec![SerializeEvent::Start(x), SerializeEvent::Text(x), SerializeEvent::End(x)]);
}

#[test]
fn json_decoding_of_attribute_text() {
    assert_eq!(parse_json_or_use_as_string("1"), AttrValue::Json("1".to_string()));
    assert_eq!(parse_json_or_use_as_string("true"), AttrValue::Json("true".to_string()));
    assert_eq!(parse_json_or_use_as_string("[1, 2]"), AttrValue::Json("[1,2]".to_string()));
    assert_eq!(parse_json_or_use_as_string("\"q\""), AttrValue::Str("q".to_string()));
    assert_eq!(parse_json_or_use_as_string("plain words"), AttrValue::Str("plain words".to_string()));
    assert_eq!(parse_json_or_use_as_string(""), AttrValue::Str(String::new()));
    assert_eq!(value_or_text(None, "raw"), AttrValue::Str("raw".to_string()));
    assert_eq!(value_or_text(Some(AttrValue::Json("2".to_string())), "raw"), AttrValue::Json("2".to_string()));
}

#[test]
fn set_and_remove_attributes() {
    let mut e = Element::new("div");
    e.set_attr("a", AttrValue::Str("1".to_string()));
    e.set_attr("b", AttrValue::Str("2".to_string()));
    e.set_attr("a", AttrValue::Str("3".to_string()));
    let names: Vec<&str> = e.attrs.iter().map(|a| a.name.as_str()).collect();
    assert_eq!(names, vec!["a", "b"]);
    assert_eq!(e.attrs[0].value, AttrValue::Str("3".to_string()));
    e.attrs.push(Attrib { name: "a".to_string(), value: AttrValue::Str("4".to_string()) });
    e.remove_attr("a");
    let names: Vec<&str> = e.attrs.iter().map(|a| a.name.as_str()).collect();
    assert_eq!(names, vec!["b"]);
}

#[test]
fn class_words_are_added_once() {
    let mut attrs: Vec<Attrib> = vec![];
    add_class(&mut attrs, "  a b a ");
    assert_eq!(attrs[0].value, AttrValue::Str("a b".to_string()));
    add_class(&mut attrs, "b c");
    assert_eq!(attrs[0].value, AttrValue::Str("a b c".to_string()));
    assert!(has_class(&attrs, "c"));
    assert!(!has_class(&attrs, "d"));
    add_class(&mut attrs, "   ");
    assert_eq!(attrs.len(), 1);
}

#[test]
fn class_removal_rebuilds_value() {
    let mut attrs = vec![Attrib { name: "class".to_string(), value: AttrValue::Str("x y x z".to_string()) }];
    remove_class(&mut attrs, "y");
    assert_eq!(attrs[0].value, AttrValue::Str("x z".to_string()));
    let mut nums = vec![Attrib { name: "class".to_string(), value: AttrValue::Str("7 k".to_string()) }];
    remove_class(&mut nums, "k");
    assert_eq!(nums[0].value, AttrValue::Str("7".to_string()));
    assert!(has_class(&nums, "7"));
}

#[test]
fn tokens_split_on_whitespace() {
    assert_eq!(split_tokens(" a\tb\n\nc "), vec!["a".to_string(), "b".to_string(), "c".to_string()]);
    assert!(split_tokens("   ").is_empty());
}

#[test]
fn selection_class_edits() {
    let (mut t, _, kids) = three_children();
    let mut sel = Selection::new(vec![NodeRef::new(kids[0]), NodeRef::new(kids[2])]);
    assert_eq!(sel.length(), 2);
    assert_eq!(sel.size(), 2);
    assert!(sel.is_nonempty());
    sel.add_class(&mut t, "on");
    assert!(sel.has_class(&t, "on"));
    assert!(!NodeRef::new(kids[1]).has_class(&t, "on"));
    sel.remove_class(&mut t, "on");
    assert!(!sel.has_class(&t, "on"));
    sel.set_attr(&mut t, "k", AttrValue::Json("5".to_string()));
    assert_eq!(NodeRef::new(kids[2]).attr(&t, "k"), Some(AttrValue::Json("5".to_string())));
    sel.remove_attr(&mut t, "k");
    assert_eq!(NodeRef::new(kids[2]).attr(&t, "k"), None);
    assert_eq!(sel.attr_or(&t, "k", AttrValue::Str("d".to_string())), AttrValue::Str("d".to_string()));
}

#[test]
fn selection_remove_and_append() {
    let (mut t, p, kids) = three_children();
    let mut sel = Selection::new(vec![NodeRef::new(kids[0]), NodeRef::new(kids[1])]);
    sel.remove(&mut t);
    assert_eq!(ids(t.children_of(&p)), vec![kids[2].value]);
    let mut target = Selection::new(vec![NodeRef::new(kids[2])]);
    target.append_selection(&mut t, &sel);
    assert_eq!(ids(t.children_of(&kids[2])), vec![kids[0].value, kids[1].value]);
    let mut old = Selection::new(vec![NodeRef::new(kids[2])]);
    let repl = Selection::new(vec![NodeRef::new(kids[0])]);
    old.replace_with_selection(&mut t, &repl);
    assert!(t.parent_of(&kids[2]).is_none());
}

#[test]
fn element_siblings_and_text_search() {
    let mut t = Tree::new(NodeData::Document);
    let root = t.root_id();
    t.append_child_data_of(&root, elem("p"));
    let p = NodeId::new(1);
    t.append_child_data_of(&p, elem("a"));
    t.append_child_data_of(&p, NodeData::Text(Text::new("needle here")));
    t.append_child_data_of(&p, elem("b"));
    let a = NodeRef::new(NodeId::new(2));
    let b = NodeRef::new(NodeId::new(4));
    assert_eq!(a.next_element_sibling(&t).map(|r| r.id.value), Some(3));
    assert_eq!(b.prev_element_sibling(&t).map(|r| r.id.value), Some(3));
    assert_eq!(b.next_element_sibling(&t), None);
    let pr = NodeRef::new(p);
    assert!(pr.has_text(&t, "needle"));
    assert!(!pr.has_text(&t, "haystack"));
    assert_eq!(pr.text(&t), "needle here");
    assert_eq!(pr.node_name(&t), Some("p".to_string()));
}

#[test]
fn closures_read_and_edit_payloads() {
    let (mut t, p, kids) = three_children();
    assert_eq!(t.query_node(&p, |n| n.is_element()), Some(true));
    assert_eq!(t.query_node(&NodeId::new(99), |n| n.is_element()), None);
    let same = t.compare_node(&kids[0], &kids[1], |a, b| a.parent == b.parent);
    assert_eq!(same, Some(true));
    let before = shape(&t);
    let out = t.update_node(&kids[1], |d| (NodeData::Text(Text::new("t")), d.is_element()));
    assert_eq!(out, Some(true));
    assert!(NodeRef::new(kids[1]).is_text(&t));
    assert!(NodeRef::new(kids[0]).is_element(&t));
    assert_eq!(shape(&t), before);
    let last = NodeRef::new(kids[2]).update(&mut t, |d| (d, 7));
    assert_eq!(last, Some(7));
    assert_eq!(t.update_node(&NodeId::new(99), |d| (d, 0)), None);
    assert_eq!(NodeRef::new(p).query(&t, |n| n.first_child), Some(Some(kids[0])));
}

#[test]
fn element_names_read_and_set() {
    let (mut t, p, _) = three_children();
    assert_eq!(t.get_name(&p), Some("p".to_string()));
    t.set_name(p, "section".to_string());
    assert_eq!(t.get_name(&p), Some("section".to_string()));
    assert_eq!(t.get_name(&t.root_id()), None);
}

#[test]
fn document_text_passes_through_root() {
    let mut sink = DocumentTreeSink::new();
    let root = sink.get_document();
    let p = sink.create_element("p", vec![]);
    sink.append(&root, NodeOrText::AppendNode(p));
    sink.append(&p, NodeOrText::AppendText("hello".to_string()));
    let doc = sink.finish();
    assert_eq!(doc.text(), "hello");
    assert_eq!(NodeRef::new(root).text(&doc.tree), "hello");
    assert!(NodeRef::new(root).has_text(&doc.tree, "ell"));
}

#[test]
fn repeated_node_gets_text_twice_but_class_once() {
    let mut t = Tree::new(NodeData::Document);
    let root = t.root_id();
    t.append_child_data_of(&root, NodeData::Text(Text::new("a")));
    let x = NodeRef::new(NodeId::new(1));
    let mut sel = Selection::new(vec![x, x]);
    sel.append_text_contents(&mut t, "b");
    assert_eq!(x.text(&t), "abb");
    sel.add_class(&mut t, "k");
    assert_eq!(x.attr(&t, "class"), Some(AttrValue::Str("k".to_string())));
    sel.set_attr(&mut t, "z", AttrValue::Str("1".to_string()));
    sel.set_attr(&mut t, "class", AttrValue::Str("m k".to_string()));
    let names: Vec<String> = x.attrs(&t).iter().map(|a| a.name.clone()).collect();
    assert_eq!(names, vec!["class".to_string(), "z".to_string()]);
    sel.remove_class(&mut t, "m");
    assert_eq!(x.attr(&t, "class"), Some(AttrValue::Str("k".to_string())));
}

#[test]
fn selection_grafts_a_copy_per_node() {
    let (mut t, p, kids) = three_children();
    let size = t.len();
    let f = fragment(1);
    let mut sel = Selection::new(vec![NodeRef::new(kids[0]), NodeRef::new(kids[1])]);
    sel.append_tree(&mut t, &f);
    assert_eq!(t.len(), size + 2 * f.len());
    assert_eq!(ids(t.children_of(&kids[0])), vec![size + 3]);
    assert_eq!(ids(t.children_of(&kids[1])), vec![size + f.len() + 3]);
    sel.set_tree(&mut t, &f);
    assert_eq!(t.children_of(&kids[0]).len(), 1);
    let mut one = Selection::new(vec![NodeRef::new(kids[2])]);
    let before = t.len();
    one.replace_with_tree(&mut t, &f);
    let now = ids(t.children_of(&p));
    assert_eq!(now, vec![kids[0].value, kids[1].value, before + 3]);
    assert!(t.parent_of(&kids[2]).is_none());
}

#[test]
fn duplicate_copies_links_and_payloads() {
    let (t, p, kids) = three_children();
    let d = t.duplicate();
    assert_eq!(shape(&d), shape(&t));
    assert_eq!(ids(d.children_of(&p)), kids.iter().map(|k| k.value).collect::<Vec<_>>());
    assert_eq!(d.get_name(&kids[1]), Some("b".to_string()));
}
