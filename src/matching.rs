use vstd::prelude::*;
use vstd::string::StringExecFns;
use crate::attrs::{AttrValue, Attrib, attrs_view, lookup, find_attr};
use crate::classes::{split_tokens, strs_view, tokens};
use crate::dom_tree::{NodeId, NodeRef, Tree, ref_ids};
use crate::node::{NodeData, data_at, element_like, occurs_in, text_of};

verus! {

/// Pseudo-classes that depend on the node alone.
pub enum PseudoClass {
    Active,
    Focus,
    Hover,
    Enabled,
    Disabled,
    Checked,
    Indeterminate,
    Visited,
    AnyLink,
    Link,
    /// A text run below the node holds the text.
    HasText(String),
    /// The node's gathered text holds the text.
    Contains(String),
}

/// `c` with ASCII upper case letters made lower case.
pub open spec fn ascii_lower(c: char) -> char {
    if 'A' <= c && c <= 'Z' {
        (((c as u32) + 32) as u8) as char
    } else {
        c
    }
}

/// Equality of two texts, ignoring ASCII case when `ignore_case` holds.
pub open spec fn text_eq(a: Seq<char>, b: Seq<char>, ignore_case: bool) -> bool {
    if ignore_case {
        a.len() == b.len() && forall|i: int| 0 <= i < a.len() ==> ascii_lower(#[trigger] a[i]) == ascii_lower(b[i])
    } else {
        a == b
    }
}

fn lower_char(c: char) -> (r: char)
    ensures
        r == ascii_lower(c),
{
    if 'A' <= c && c <= 'Z' {
        (((c as u32) + 32) as u8) as char
    } else {
        c
    }
}

/// Compares two texts, ignoring ASCII case when `ignore_case` holds.
pub fn texts_equal(a: &str, b: &str, ignore_case: bool) -> (r: bool)
    ensures
        r == text_eq(a@, b@, ignore_case),
{
    if !ignore_case {
        return String::from_str(a) == String::from_str(b);
    }
    let n = a.unicode_len();
    if n != b.unicode_len() {
        return false;
    }
    let mut i: usize = 0;
    while i < n
        invariant
            n == a@.len(),
            n == b@.len(),
            0 <= i <= n,
            forall|j: int| 0 <= j < i ==> ascii_lower(#[trigger] a@[j]) == ascii_lower(b@[j]),
        decreases n - i,
    {
        if lower_char(a.get_char(i)) != lower_char(b.get_char(i)) {
            return false;
        }
        i = i + 1;
    }
    true
}

/// The text an attribute selector compares against: a string's contents, or
/// the JSON text of a number or boolean; arrays, objects and null give none.
pub open spec fn matchable_text(v: AttrValue) -> Option<Seq<char>> {
    match v {
        AttrValue::Str(t) => Some(t@),
        AttrValue::Json(t) => if t@.len() == 0 || t@[0] == '[' || t@[0] == '{' || t@ == "null"@ {
            None
        } else {
            Some(t@)
        },
    }
}

/// The text an attribute selector compares against.
pub fn matchable_text_of(v: &AttrValue) -> (r: Option<&String>)
    ensures
        match r {
            Some(s) => matchable_text(*v) == Some(s@),
            None => matchable_text(*v) is None,
        },
{
    proof {
        reveal_strlit("null");
    }
    match v {
        AttrValue::Str(t) => Some(t),
        AttrValue::Json(t) => {
            let n = t.as_str().unicode_len();
            if n == 0 {
                return None;
            }
            let c = t.as_str().get_char(0);
            let null = String::from_str("null");
            if c == '[' || c == '{' || *t == null {
                None
            } else {
                Some(t)
            }
        },
    }
}

/// Whether the node answers to the tag name `name`: an element by its own
/// name, a text run by `text`.
pub open spec fn local_name_is(t: &Tree<NodeData>, id: NodeId, name: Seq<char>) -> bool {
    t.valid(id) && match data_at(t, id) {
        NodeData::Element(e) => e.name@ == name,
        NodeData::Text(_) => name == "text"@,
        NodeData::Document => false,
    }
}

pub fn has_local_name(tree: &Tree<NodeData>, id: &NodeId, name: &str) -> (r: bool)
    ensures
        r == local_name_is(tree, *id, name@),
{
    let key = String::from_str(name);
    proof {
        reveal_strlit("text");
    }
    match tree.data_of(id) {
        Some(NodeData::Element(e)) => e.name == key,
        Some(NodeData::Text(_)) => key == String::from_str("text"),
        _ => false,
    }
}

/// Elements and text runs count as HTML elements.
pub fn is_html_element(tree: &Tree<NodeData>, id: &NodeId) -> (r: bool)
    ensures
        r == (tree.valid(*id) && element_like(data_at(tree, *id))),
{
    match tree.data_of(id) {
        Some(NodeData::Element(_)) => true,
        Some(NodeData::Text(_)) => true,
        _ => false,
    }
}

/// Two elements of one name, or two text runs.
pub fn is_same_type(tree: &Tree<NodeData>, a: &NodeId, b: &NodeId) -> (r: bool)
    ensures
        r == (tree.valid(*a) && tree.valid(*b) && match (data_at(tree, *a), data_at(tree, *b)) {
            (NodeData::Element(x), NodeData::Element(y)) => x.name@ == y.name@,
            (NodeData::Text(_), NodeData::Text(_)) => true,
            _ => false,
        }),
{
    match (tree.data_of(a), tree.data_of(b)) {
        (Some(NodeData::Element(x)), Some(NodeData::Element(y))) => x.name == y.name,
        (Some(NodeData::Text(_)), Some(NodeData::Text(_))) => true,
        _ => false,
    }
}

/// Some attribute named `id` of element `n` holds, as a string, `name`.
pub open spec fn id_is(t: &Tree<NodeData>, n: NodeId, name: Seq<char>, ignore_case: bool) -> bool {
    t.valid(n) && match data_at(t, n) {
        NodeData::Element(e) => exists|k: int| 0 <= k < e.attrs@.len() && (#[trigger] e.attrs@[k]).name@ == "id"@
            && (e.attrs@[k].value matches AttrValue::Str(v) && text_eq(name, v@, ignore_case)),
        _ => false,
    }
}

pub fn has_id(tree: &Tree<NodeData>, n: &NodeId, name: &str, ignore_case: bool) -> (r: bool)
    ensures
        r == id_is(tree, *n, name@, ignore_case),
{
    let key = String::from_str("id");
    let attrs: &Vec<Attrib> = match tree.data_of(n) {
        Some(NodeData::Element(e)) => &e.attrs,
        _ => {
            return false;
        },
    };
    let mut i: usize = 0;
    while i < attrs.len()
        invariant
            0 <= i <= attrs@.len(),
            key@ == "id"@,
            tree.valid(*n),
            data_at(tree, *n) is Element,
            data_at(tree, *n)->Element_0.attrs@ == attrs@,
            forall|k: int| 0 <= k < i ==> !((#[trigger] attrs@[k]).name@ == "id"@
                && (attrs@[k].value matches AttrValue::Str(v) && text_eq(name@, v@, ignore_case))),
        decreases attrs@.len() - i,
    {
        if attrs[i].name == key {
            match &attrs[i].value {
                AttrValue::Str(v) => {
                    if texts_equal(name, v.as_str(), ignore_case) {
                        proof {
                            let e = data_at(tree, *n)->Element_0;
                            assert(e.attrs@[i as int].name@ == "id"@);
                        }
                        return true;
                    }
                },
                AttrValue::Json(_) => {},
            }
        }
        i = i + 1;
    }
    false
}

/// The first `class` attribute of element `n` holds, as a string, a word
/// equal to `name`.
pub open spec fn class_is(t: &Tree<NodeData>, n: NodeId, name: Seq<char>, ignore_case: bool) -> bool {
    t.valid(n) && match data_at(t, n) {
        NodeData::Element(e) => match lookup(attrs_view(e.attrs@), "class"@) {
            Some(AttrValue::Str(v)) => exists|k: int| 0 <= k < tokens(v@).len() && text_eq(name, #[trigger] tokens(v@)[k], ignore_case),
            _ => false,
        },
        _ => false,
    }
}

pub fn has_class_name(tree: &Tree<NodeData>, n: &NodeId, name: &str, ignore_case: bool) -> (r: bool)
    ensures
        r == class_is(tree, *n, name@, ignore_case),
{
    let attrs: &Vec<Attrib> = match tree.data_of(n) {
        Some(NodeData::Element(e)) => &e.attrs,
        _ => {
            return false;
        },
    };
    let i = match find_attr(attrs, "class") {
        Some(i) => i,
        None => {
            return false;
        },
    };
    let v: &String = match &attrs[i].value {
        AttrValue::Str(v) => v,
        AttrValue::Json(_) => {
            return false;
        },
    };
    let words = split_tokens(v.as_str());
    proof {
        crate::attrs::lemma_first_named_some(attrs_view(attrs@), "class"@);
    }
    let mut k: usize = 0;
    while k < words.len()
        invariant
            0 <= k <= words@.len(),
            tree.valid(*n),
            data_at(tree, *n) is Element,
            match lookup(attrs_view(data_at(tree, *n)->Element_0.attrs@), "class"@) {
                Some(AttrValue::Str(x)) => x@ == v@,
                _ => false,
            },
            strs_view(words@) == tokens(v@),
            forall|j: int| 0 <= j < k ==> !text_eq(name@, #[trigger] tokens(v@)[j], ignore_case),
        decreases words@.len() - k,
    {
        if texts_equal(name, words[k].as_str(), ignore_case) {
            proof {
                assert(strs_view(words@)[k as int] == words@[k as int]@);
                assert(text_eq(name@, tokens(v@)[k as int], ignore_case));
            }
            return true;
        }
        proof {
            assert(strs_view(words@)[k as int] == words@[k as int]@);
        }
        k = k + 1;
    }
    false
}

/// An `a`, `area` or `link` element with an `href` attribute.
pub open spec fn is_link_node(t: &Tree<NodeData>, n: NodeId) -> bool {
    t.valid(n) && match data_at(t, n) {
        NodeData::Element(e) => (e.name@ == "a"@ || e.name@ == "area"@ || e.name@ == "link"@)
            && exists|k: int| 0 <= k < e.attrs@.len() && (#[trigger] e.attrs@[k]).name@ == "href"@,
        _ => false,
    }
}

pub fn is_link(tree: &Tree<NodeData>, n: &NodeId) -> (r: bool)
    ensures
        r == is_link_node(tree, *n),
{
    let e = match tree.data_of(n) {
        Some(NodeData::Element(e)) => e,
        _ => {
            return false;
        },
    };
    let linkish = e.name == String::from_str("a") || e.name == String::from_str("area") || e.name == String::from_str("link");
    if !linkish {
        return false;
    }
    let key = String::from_str("href");
    let mut i: usize = 0;
    while i < e.attrs.len()
        invariant
            0 <= i <= e.attrs@.len(),
            key@ == "href"@,
            tree.valid(*n),
            data_at(tree, *n) == NodeData::Element(*e),
            e.name@ == "a"@ || e.name@ == "area"@ || e.name@ == "link"@,
            forall|k: int| 0 <= k < i ==> (#[trigger] e.attrs@[k]).name@ != "href"@,
        decreases e.attrs@.len() - i,
    {
        if e.attrs[i].name == key {
            proof {
                assert(e.attrs@[i as int].name@ == "href"@);
            }
            return true;
        }
        i = i + 1;
    }
    false
}

/// Whether `pseudo` holds of node `n`. Interactive states never hold: there
/// is no rendering.
pub open spec fn pseudo_holds(t: &Tree<NodeData>, n: NodeId, pseudo: PseudoClass) -> bool {
    match pseudo {
        PseudoClass::AnyLink | PseudoClass::Link => is_link_node(t, n),
        PseudoClass::HasText(s) => crate::node::has_text_in(t, n, s@, t.size() as nat),
        PseudoClass::Contains(s) => occurs_in(s@, text_of(t, n, t.size() as nat)),
        _ => false,
    }
}

pub fn match_non_ts_pseudo_class(tree: &Tree<NodeData>, n: &NodeId, pseudo: &PseudoClass) -> (r: bool)
    requires
        tree.wf(),
    ensures
        r == pseudo_holds(tree, *n, *pseudo),
{
    match pseudo {
        PseudoClass::AnyLink | PseudoClass::Link => is_link(tree, n),
        PseudoClass::HasText(s) => NodeRef::new(*n).has_text(tree, s.as_str()),
        PseudoClass::Contains(s) => {
            let text = NodeRef::new(*n).text(tree);
            crate::node::text_contains(text.as_str(), s.as_str())
        },
        _ => false,
    }
}

/// `f` answers `true` for `x`.
pub open spec fn holds<F: Fn(NodeId) -> bool>(f: F, x: NodeId) -> bool {
    call_ensures(f, (x,), true)
}

/// Some node below `n` satisfies `f`, searching through elements and text
/// runs; `fuel` bounds the depth.
pub open spec fn descendant_holds<F: Fn(NodeId) -> bool>(t: &Tree<NodeData>, n: NodeId, f: F, fuel: nat) -> bool
    decreases fuel, 0nat,
{
    if fuel == 0 || !t.valid(n) {
        false
    } else {
        some_below(t, t.kids(n), f, (fuel - 1) as nat)
    }
}

/// Some node of `l`, or below one of its elements and text runs, satisfies
/// `f`.
pub open spec fn some_below<F: Fn(NodeId) -> bool>(t: &Tree<NodeData>, l: Seq<NodeId>, f: F, fuel: nat) -> bool
    decreases fuel, l.len() + 1,
{
    if l.len() == 0 {
        false
    } else {
        some_below(t, l.drop_last(), f, fuel) || holds(f, l.last()) || (t.valid(l.last()) && element_like(data_at(t, l.last()))
            && descendant_holds(t, l.last(), f, fuel))
    }
}

proof fn lemma_some_below_prefix<F: Fn(NodeId) -> bool>(t: &Tree<NodeData>, l: Seq<NodeId>, i: int, f: F, fuel: nat)
    requires
        0 <= i <= l.len(),
        some_below(t, l.subrange(0, i), f, fuel),
    ensures
        some_below(t, l, f, fuel),
    decreases l.len() - i,
{
    if i < l.len() {
        assert(l.subrange(0, i + 1).drop_last() =~= l.subrange(0, i));
        lemma_some_below_prefix(t, l, i + 1, f, fuel);
    } else {
        assert(l.subrange(0, i) =~= l);
    }
}

fn search_below<F: Fn(NodeId) -> bool>(tree: &Tree<NodeData>, n: NodeId, f: &F, fuel: usize) -> (r: bool)
    requires
        tree.wf(),
        forall|x: NodeId| call_requires(*f, (x,)),
        forall|x: NodeId, b: bool| call_ensures(*f, (x,), b) ==> (b == holds(*f, x)),
    ensures
        r == descendant_holds(tree, n, *f, fuel as nat),
    decreases fuel,
{
    if fuel == 0 || n.value >= tree.len() {
        return false;
    }
    let ids = tree.child_ids_of(&n);
    let mut i: usize = 0;
    proof {
        assert(ids@.subrange(0, 0) =~= Seq::<NodeId>::empty());
    }
    while i < ids.len()
        invariant
            tree.wf(),
            fuel > 0,
            tree.valid(n),
            ids@ == tree.kids(n),
            0 <= i <= ids@.len(),
            forall|x: NodeId| call_requires(*f, (x,)),
            forall|x: NodeId, b: bool| call_ensures(*f, (x,), b) ==> (b == holds(*f, x)),
            !some_below(tree, ids@.subrange(0, i as int), *f, (fuel - 1) as nat),
        decreases ids@.len() - i,
    {
        let c = ids[i];
        let found = f(c) || (is_html_element(tree, &c) && search_below(tree, c, f, fuel - 1));
        proof {
            assert(ids@.subrange(0, i + 1).drop_last() =~= ids@.subrange(0, i as int));
        }
        if found {
            proof {
                lemma_some_below_prefix(tree, ids@, i as int + 1, *f, (fuel - 1) as nat);
            }
            return true;
        }
        i = i + 1;
    }
    proof {
        assert(ids@.subrange(0, ids@.len() as int) =~= ids@);
    }
    false
}

/// Whether a node below `n` matches, as `f` decides for one node; the search
/// goes down through elements and text runs and stops at the first match.
/// This is how `:has(...)` is evaluated, with `f` the selector engine's match
/// of the selector list.
pub fn has_descendant_match<F: Fn(NodeId) -> bool>(tree: &Tree<NodeData>, n: &NodeId, f: F) -> (r: bool)
    requires
        tree.wf(),
        forall|x: NodeId| call_requires(f, (x,)),
        forall|x: NodeId, b: bool| call_ensures(f, (x,), b) ==> (b == holds(f, x)),
    ensures
        r == descendant_holds(tree, *n, f, tree.size() as nat),
{
    search_below(tree, *n, &f, tree.len())
}

/// No child is an element or a text run.
pub fn is_empty(tree: &Tree<NodeData>, n: &NodeId) -> (r: bool)
    requires
        tree.wf(),
    ensures
        r == forall|k: int| 0 <= k < (if tree.valid(*n) { tree.kids(*n).len() as int } else { 0 }) ==> !(tree.valid(#[trigger] tree.kids(*n)[k]) && element_like(data_at(tree, tree.kids(*n)[k]))),
{
    let kids = tree.child_ids_of(n);
    let mut i: usize = 0;
    while i < kids.len()
        invariant
            0 <= i <= kids@.len(),
            kids@ == (if tree.valid(*n) { tree.kids(*n) } else { Seq::<NodeId>::empty() }),
            forall|k: int| 0 <= k < i ==> !(tree.valid(#[trigger] kids@[k]) && element_like(data_at(tree, kids@[k]))),
        decreases kids@.len() - i,
    {
        if is_html_element(tree, &kids[i]) {
            return false;
        }
        i = i + 1;
    }
    true
}

/// The first child that is an element or a text run.
pub fn first_element_child(tree: &Tree<NodeData>, n: &NodeId) -> (r: Option<NodeRef>)
    requires
        tree.wf(),
    ensures
        crate::node::ref_id(r) == (if tree.valid(*n) { crate::node::first_element_from(tree, tree.kids(*n), 0) } else { None }),
{
    let kids = tree.child_ids_of(n);
    let ghost l = kids@;
    let mut i: usize = 0;
    while i < kids.len()
        invariant
            0 <= i <= kids@.len(),
            l == kids@,
            kids@ == (if tree.valid(*n) { tree.kids(*n) } else { Seq::<NodeId>::empty() }),
            crate::node::first_element_from(tree, l, 0) == crate::node::first_element_from(tree, l, i as int),
        decreases kids@.len() - i,
    {
        if is_html_element(tree, &kids[i]) {
            return Some(NodeRef::new(kids[i]));
        }
        i = i + 1;
    }
    None
}

} // verus!
