use dom_query::attrs::parse_json_or_use_as_string;
use dom_query::serialize::serialize_events;
use dom_query::{
    AttrValue, Attrib, Document, DocumentTreeSink, Element, NodeData, NodeId, NodeOrText, NodeRef,
    SerializeEvent, Selection, Text, TraversalScope, Tree,
};

fn escape(s: &str, in_attr: bool) -> String {
    let mut out = String::new();
    for c in s.chars() {
        match c {
            '&' => out.push_str("&amp;"),
            '"' if in_attr => out.push_str("&quot;"),
            '<' if !in_attr => out.push_str("&lt;"),
            '>' if !in_attr => out.push_str("&gt;"),
            _ => out.push(c),
        }
    }
    out
}

fn open_tag(name: &str, attrs: &[Attrib]) -> String {
    let mut s = format!("<{}", name);
    for a in attrs {
        s.push_str(&format!(" {}=\"{}\"", a.name, escape(a.value.text(), true)));
    }
    s.push('>');
    s
}

/// Markup of what is below `id`, written from the serializer's events.
fn inner_html(tree: &Tree<NodeData>, id: NodeId) -> String {
    let mut out = String::new();
    for ev in serialize_events(tree, &id, TraversalScope::ChildrenOnly) {
        match ev {
            SerializeEvent::Start(n) => match tree.data_of(&n) {
                Some(NodeData::Element(e)) => out.push_str(&open_tag(&e.name, &e.attrs)),
                Some(NodeData::Text(t)) => out.push_str(&open_tag("text", &t.attrs)),
                _ => {}
            },
            SerializeEvent::Text(n) => {
                if let Some(NodeData::Text(t)) = tree.data_of(&n) {
                    out.push_str(&escape(&t.contents, false));
                }
            }
            SerializeEvent::End(n) => match tree.data_of(&n) {
                Some(NodeData::Element(e)) => out.push_str(&format!("</{}>", e.name)),
                Some(NodeData::Text(_)) => out.push_str("</text>"),
                _ => {}
            },
        }
    }
    out
}

fn attrs_of(pairs: &[(&str, &str)]) -> Vec<Attrib> {
    pairs
        .iter()
        .map(|(n, v)| Attrib { name: n.to_string(), value: parse_json_or_use_as_string(v) })
        .collect()
}

/// The document `<html><body>…</body></html>` as a parser builds it, with
/// `body` returned for filling in.
fn empty_page() -> (DocumentTreeSink, NodeId) {
    let mut sink = DocumentTreeSink::new();
    let root = sink.get_document();
    let html = sink.create_element("html", vec![]);
    sink.append(&root, NodeOrText::AppendNode(html));
    let body = sink.create_element("body", vec![]);
    sink.append(&html, NodeOrText::AppendNode(body));
    (sink, body)
}

/// `<foo …attrs></foo>` as the only content of the body.
fn page_with_foo(pairs: &[(&str, &str)]) -> (Document, NodeId, NodeId) {
    let (mut sink, body) = empty_page();
    let foo = sink.create_element("foo", attrs_of(pairs));
    sink.append(&body, NodeOrText::AppendNode(foo));
    (sink.finish(), body, foo)
}

#[test]
fn test_num_attr() {
    let (document, _, foo) = page_with_foo(&[("num", "1")]);
    let sel = Selection::new(vec![NodeRef::new(foo)]);
    assert_eq!(sel.attr(&document.tree, "num"), Some(AttrValue::Json("1".to_string())));
}

#[test]
fn test_bool_attr() {
    let (document, _, foo) = page_with_foo(&[("b", "true")]);
    let sel = Selection::new(vec![NodeRef::new(foo)]);
    assert_eq!(sel.attr(&document.tree, "b"), Some(AttrValue::Json("true".to_string())));
}

#[test]
fn test_string_attr() {
    let (document, _, foo) = page_with_foo(&[("bar", "baz")]);
    let sel = Selection::new(vec![NodeRef::new(foo)]);
    assert_eq!(sel.attr(&document.tree, "bar"), Some(AttrValue::Str("baz".to_string())));
}

#[test]
fn test_array() {
    let (mut document, body, foo) = page_with_foo(&[("bar", "[\"bar\"]")]);
    let mut sel = Selection::new(vec![NodeRef::new(foo)]);
    assert_eq!(sel.attr(&document.tree, "bar"), Some(AttrValue::Json("[\"bar\"]".to_string())));

    sel.set_attr(&mut document.tree, "baz", AttrValue::Json("[\"baz\"]".to_string()));
    assert_eq!(
        inner_html(&document.tree, body),
        r#"<foo bar="[&quot;bar&quot;]" baz="[&quot;baz&quot;]"></foo>"#
    );
}

#[test]
fn test_text_contents() {
    let (mut sink, body) = empty_page();
    let foo = sink.create_element("foo", vec![]);
    sink.append(&body, NodeOrText::AppendNode(foo));
    sink.append(&foo, NodeOrText::AppendText("bar".to_string()));
    let document = sink.finish();
    let sel = Selection::new(vec![NodeRef::new(foo)]);
    assert_eq!(sel.text(&document.tree), "bar");
}

#[test]
fn test_text_append() {
    let (mut sink, body) = empty_page();
    let foo = sink.create_element("foo", vec![]);
    sink.append(&body, NodeOrText::AppendNode(foo));
    let bold = sink.create_element("text", attrs_of(&[("bold", "true")]));
    sink.append(&foo, NodeOrText::AppendNode(bold));
    sink.append(&bold, NodeOrText::AppendText("bar".to_string()));
    let italic = sink.create_element("text", attrs_of(&[("italic", "true")]));
    sink.append(&foo, NodeOrText::AppendNode(italic));
    sink.append(&italic, NodeOrText::AppendText("bar".to_string()));
    let mut document = sink.finish();

    let mut txt = Selection::new(vec![NodeRef::new(bold)]);
    assert_eq!(txt.text(&document.tree), "bar");
    txt.append_text_contents(&mut document.tree, "-baz");
    assert_eq!(txt.text(&document.tree), "bar-baz");

    txt.set_text_contents(&mut document.tree, "cat");
    assert_eq!(txt.text(&document.tree), "cat");

    let txt = Selection::new(vec![NodeRef::new(italic)]);
    assert_eq!(txt.text(&document.tree), "bar");
}

#[test]
fn test_element_append() {
    let (mut document, body, foo) = page_with_foo(&[]);
    let mut sel = Selection::new(vec![NodeRef::new(foo)]);
    sel.append_first_child(&mut document.tree, NodeData::Text(Text::new("before")));
    sel.append_last_child(&mut document.tree, NodeData::Text(Text::new("after")));

    assert_eq!(
        r#"<foo><text>before</text><text>after</text></foo>"#,
        inner_html(&document.tree, body)
    );
}

#[test]
fn test_element_insert_before_after() {
    let (mut document, body, foo) = page_with_foo(&[]);
    let mut sel = Selection::new(vec![NodeRef::new(foo)]);
    sel.insert_before(&mut document.tree, NodeData::Element(Element::new("before")));
    sel.insert_after(&mut document.tree, NodeData::Element(Element::new("after")));
    assert_eq!(
        r#"<before></before><foo></foo><after></after>"#,
        inner_html(&document.tree, body)
    );
}
