use vstd::prelude::*;
use vstd::string::StringExecFns;
use crate::attrs::{AttrValue, Attrib, attrs_view, upserted, without_name, lookup, get_attr};
use crate::classes::{classes_added, classes_removed, class_words};
use crate::dom_tree::{InnerNode, NodeId, NodeRef, Tree, nid};

verus! {

/// An element: a tag name and its attributes.
#[derive(Clone, Debug)]
pub struct Element {
    pub name: String,
    pub attrs: Vec<Attrib>,
}

/// A run of text with its own attributes.
#[derive(Clone, Debug)]
pub struct Text {
    pub contents: String,
    pub attrs: Vec<Attrib>,
}

/// The payload of a node.
#[derive(Clone, Debug)]
pub enum NodeData {
    /// The root of a tree.
    Document,
    /// Text with attributes.
    Text(Text),
    /// An element with attributes.
    Element(Element),
}

impl Element {
    pub fn new(name: &str) -> (r: Self)
        ensures
            r.name@ == name@,
            r.attrs@.len() == 0,
    {
        Element { name: String::from_str(name), attrs: Vec::new() }
    }

    pub fn with_attrs(name: &str, attrs: Vec<Attrib>) -> (r: Self)
        ensures
            r.name@ == name@,
            r.attrs == attrs,
    {
        Element { name: String::from_str(name), attrs }
    }

    pub fn set_attr(&mut self, name: &str, value: AttrValue)
        ensures
            final(self).name == old(self).name,
            attrs_view(final(self).attrs@) == upserted(attrs_view(old(self).attrs@), name@, value),
    {
        crate::attrs::set_attr(&mut self.attrs, name, value);
    }

    pub fn remove_attr(&mut self, name: &str)
        ensures
            final(self).name == old(self).name,
            attrs_view(final(self).attrs@) == without_name(attrs_view(old(self).attrs@), name@),
    {
        crate::attrs::remove_attr(&mut self.attrs, name);
    }
}

impl Text {
    pub fn new(contents: &str) -> (r: Self)
        ensures
            r.contents@ == contents@,
            r.attrs@.len() == 0,
    {
        Text { contents: String::from_str(contents), attrs: Vec::new() }
    }

    pub fn with_attrs(contents: &str, attrs: Vec<Attrib>) -> (r: Self)
        ensures
            r.contents@ == contents@,
            r.attrs == attrs,
    {
        Text { contents: String::from_str(contents), attrs }
    }

    pub fn set_attr(&mut self, name: &str, value: AttrValue)
        ensures
            final(self).contents == old(self).contents,
            attrs_view(final(self).attrs@) == upserted(attrs_view(old(self).attrs@), name@, value),
    {
        crate::attrs::set_attr(&mut self.attrs, name, value);
    }

    pub fn remove_attr(&mut self, name: &str)
        ensures
            final(self).contents == old(self).contents,
            attrs_view(final(self).attrs@) == without_name(attrs_view(old(self).attrs@), name@),
    {
        crate::attrs::remove_attr(&mut self.attrs, name);
    }
}

impl InnerNode<NodeData> {
    pub fn is_document(&self) -> (r: bool)
        ensures
            r == (self.data is Document),
    {
        self.data.is_document()
    }

    pub fn is_element(&self) -> (r: bool)
        ensures
            r == (self.data is Element),
    {
        self.data.is_element()
    }

    pub fn is_text(&self) -> (r: bool)
        ensures
            r == (self.data is Text),
    {
        self.data.is_text()
    }
}

impl Tree<NodeData> {
    /// Renames element `id`; other nodes are left as they are.
    pub fn set_name(&mut self, id: NodeId, name: String)
        requires
            old(self).wf(),
        ensures
            payload_edit(&*old(self), &*final(self), id),
            old(self).valid(id) ==> match data_at(&*old(self), id) {
                NodeData::Element(a) => (data_at(&*final(self), id) matches NodeData::Element(b) && b.name == name && b.attrs == a.attrs),
                other => data_at(&*final(self), id) == other,
            },
    {
        if id.value >= self.len() {
            return;
        }
        let d = self.replace_data(&id, NodeData::Document);
        let d2 = match d {
            NodeData::Element(e) => NodeData::Element(Element { name, attrs: e.attrs }),
            other => other,
        };
        self.replace_data(&id, d2);
    }

    /// The tag name of element `id`.
    pub fn get_name(&self, id: &NodeId) -> (r: Option<String>)
        ensures
            match r {
                Some(n) => self.valid(*id) && data_at(self, *id) is Element && n@ == data_at(self, *id)->Element_0.name@,
                None => !(self.valid(*id) && data_at(self, *id) is Element),
            },
    {
        NodeRef::new(*id).node_name(self)
    }
}

/// The attributes a payload carries; a document carries none.
pub open spec fn attr_list(d: NodeData) -> Seq<Attrib> {
    match d {
        NodeData::Element(e) => e.attrs@,
        NodeData::Text(t) => t.attrs@,
        NodeData::Document => Seq::empty(),
    }
}

/// Same kind of payload, same tag name or text.
pub open spec fn same_kind(a: NodeData, b: NodeData) -> bool {
    match (a, b) {
        (NodeData::Document, NodeData::Document) => true,
        (NodeData::Element(x), NodeData::Element(y)) => x.name@ == y.name@,
        (NodeData::Text(x), NodeData::Text(y)) => x.contents@ == y.contents@,
        _ => false,
    }
}

/// Elements and text runs are what selectors see as elements.
pub open spec fn element_like(d: NodeData) -> bool {
    d is Element || d is Text
}

pub open spec fn data_at(t: &Tree<NodeData>, id: NodeId) -> NodeData {
    t.node(id).data
}

/// `new` differs from `old` at most in the payload of `id`.
pub open spec fn payload_edit(old: &Tree<NodeData>, new: &Tree<NodeData>, id: NodeId) -> bool {
    &&& new.wf()
    &&& new.size() == old.size()
    &&& new.child_lists() == old.child_lists()
    &&& forall|j: int| 0 <= j < old.size() && j != id.value ==> #[trigger] new.spec_nodes()[j].data == old.spec_nodes()[j].data
    &&& !old.valid(id) ==> new.spec_nodes() == old.spec_nodes()
}

/// The text gathered below `id`: a text run gives its contents, an element
/// or a document the text of its children in order. `fuel` bounds the
/// depth.
pub open spec fn text_of(t: &Tree<NodeData>, id: NodeId, fuel: nat) -> Seq<char>
    decreases fuel, 0nat,
{
    if fuel == 0 || !t.valid(id) {
        Seq::empty()
    } else {
        match data_at(t, id) {
            NodeData::Text(x) => x.contents@,
            _ => texts_of(t, t.kids(id), (fuel - 1) as nat),
        }
    }
}

pub open spec fn texts_of(t: &Tree<NodeData>, l: Seq<NodeId>, fuel: nat) -> Seq<char>
    decreases fuel, l.len() + 1,
{
    if l.len() == 0 {
        Seq::empty()
    } else {
        texts_of(t, l.drop_last(), fuel) + text_of(t, l.last(), fuel)
    }
}

/// `needle` occurs in `hay`.
pub open spec fn occurs_in(needle: Seq<char>, hay: Seq<char>) -> bool {
    exists|i: int| 0 <= i && i + needle.len() <= hay.len() && #[trigger] hay.subrange(i, i + needle.len()) == needle
}

/// Relies on str::contains with a `&str` pattern: whether `needle` occurs in
/// `hay`.
#[verifier::external_body]
fn str_contains(hay: &str, needle: &str) -> (r: bool)
    ensures
        r == occurs_in(needle@, hay@),
{
    hay.contains(needle)
}

/// Whether `needle` occurs in `hay`.
pub fn text_contains(hay: &str, needle: &str) -> (r: bool)
    ensures
        r == occurs_in(needle@, hay@),
{
    str_contains(hay, needle)
}

/// Whether a text run below `id`, reached through elements, holds `needle`.
pub open spec fn has_text_in(t: &Tree<NodeData>, id: NodeId, needle: Seq<char>, fuel: nat) -> bool
    decreases fuel, 0nat,
{
    if fuel == 0 || !t.valid(id) {
        false
    } else {
        match data_at(t, id) {
            NodeData::Text(x) => occurs_in(needle, x.contents@),
            _ => has_text_in_list(t, t.kids(id), needle, (fuel - 1) as nat),
        }
    }
}

pub open spec fn has_text_in_list(t: &Tree<NodeData>, l: Seq<NodeId>, needle: Seq<char>, fuel: nat) -> bool
    decreases fuel, l.len() + 1,
{
    if l.len() == 0 {
        false
    } else {
        has_text_in_list(t, l.drop_last(), needle, fuel) || has_text_in(t, l.last(), needle, fuel)
    }
}

impl NodeData {
    /// Upserts an attribute of an element or text run.
    pub fn set_attr(&mut self, name: &str, value: AttrValue)
        ensures
            same_kind(*old(self), *final(self)),
            attrs_view(attr_list(*final(self))) == (if *old(self) is Document {
                Seq::empty()
            } else {
                upserted(attrs_view(attr_list(*old(self))), name@, value)
            }),
    {
        match self {
            NodeData::Element(e) => e.set_attr(name, value),
            NodeData::Text(t) => t.set_attr(name, value),
            NodeData::Document => {},
        }
    }

    /// Removes the attributes named `name` of an element or text run.
    pub fn remove_attr(&mut self, name: &str)
        ensures
            same_kind(*old(self), *final(self)),
            attrs_view(attr_list(*final(self))) == (if *old(self) is Document {
                Seq::empty()
            } else {
                without_name(attrs_view(attr_list(*old(self))), name@)
            }),
    {
        match self {
            NodeData::Element(e) => e.remove_attr(name),
            NodeData::Text(t) => t.remove_attr(name),
            NodeData::Document => {},
        }
    }

    pub fn add_class(&mut self, class: &str)
        ensures
            same_kind(*old(self), *final(self)),
            !(*old(self) is Document) ==> classes_added(attr_list(*old(self)), attr_list(*final(self)), class@),
    {
        match self {
            NodeData::Element(e) => crate::classes::add_class(&mut e.attrs, class),
            NodeData::Text(t) => crate::classes::add_class(&mut t.attrs, class),
            NodeData::Document => {},
        }
    }

    pub fn remove_class(&mut self, class: &str)
        ensures
            same_kind(*old(self), *final(self)),
            classes_removed(attr_list(*old(self)), attr_list(*final(self)), class@),
    {
        match self {
            NodeData::Element(e) => crate::classes::remove_class(&mut e.attrs, class),
            NodeData::Text(t) => crate::classes::remove_class(&mut t.attrs, class),
            NodeData::Document => {},
        }
    }

    pub fn is_document(&self) -> (r: bool)
        ensures
            r == (*self is Document),
    {
        match self {
            NodeData::Document => true,
            _ => false,
        }
    }

    pub fn is_element(&self) -> (r: bool)
        ensures
            r == (*self is Element),
    {
        match self {
            NodeData::Element(_) => true,
            _ => false,
        }
    }

    pub fn is_text(&self) -> (r: bool)
        ensures
            r == (*self is Text),
    {
        match self {
            NodeData::Text(_) => true,
            _ => false,
        }
    }

    /// The attributes of the payload, copied.
    pub fn attrs(&self) -> (r: Vec<Attrib>)
        ensures
            attrs_view(r@) == attrs_view(attr_list(*self)),
    {
        let src: &Vec<Attrib> = match self {
            NodeData::Element(e) => &e.attrs,
            NodeData::Text(t) => &t.attrs,
            NodeData::Document => {
                let out: Vec<Attrib> = Vec::new();
                proof {
                    assert(attrs_view(out@) =~= attrs_view(attr_list(*self)));
                }
                return out;
            },
        };
        copy_attrs(src)
    }
}

/// A copy of an attribute list.
pub fn copy_attrs(src: &Vec<Attrib>) -> (r: Vec<Attrib>)
    ensures
        attrs_view(r@) == attrs_view(src@),
{
    let mut out: Vec<Attrib> = Vec::new();
    let mut i: usize = 0;
    while i < src.len()
        invariant
            0 <= i <= src@.len(),
            out@.len() == i,
            forall|k: int| 0 <= k < i ==> (#[trigger] out@[k]).name@ == src@[k].name@ && out@[k].value == src@[k].value,
        decreases src@.len() - i,
    {
        out.push(Attrib { name: src[i].name.clone(), value: src[i].value.copy() });
        i = i + 1;
    }
    proof {
        assert(attrs_view(out@) =~= attrs_view(src@));
    }
    out
}

fn collect_text(tree: &Tree<NodeData>, id: NodeId, fuel: usize, out: &mut String)
    requires
        tree.wf(),
    ensures
        final(out)@ == old(out)@ + text_of(tree, id, fuel as nat),
    decreases fuel,
{
    if fuel == 0 {
        proof {
            assert(old(out)@ + text_of(tree, id, fuel as nat) =~= old(out)@);
        }
        return;
    }
    match tree.data_of(&id) {
        None => {
            proof {
                assert(old(out)@ + text_of(tree, id, fuel as nat) =~= old(out)@);
            }
        },
        Some(NodeData::Element(_)) | Some(NodeData::Document) => {
            let ids = tree.child_ids_of(&id);
            let mut i: usize = 0;
            proof {
                assert(ids@.subrange(0, 0) =~= Seq::<NodeId>::empty());
                assert(*out == *old(out));
                assert(out@ =~= old(out)@ + texts_of(tree, ids@.subrange(0, 0), (fuel - 1) as nat));
            }
            while i < ids.len()
                invariant
                    tree.wf(),
                    fuel > 0,
                    0 <= i <= ids@.len(),
                    out@ == old(out)@ + texts_of(tree, ids@.subrange(0, i as int), (fuel - 1) as nat),
                decreases ids@.len() - i,
            {
                collect_text(tree, ids[i], fuel - 1, out);
                proof {
                    assert(ids@.subrange(0, i + 1).drop_last() =~= ids@.subrange(0, i as int));
                    assert(out@ =~= old(out)@ + texts_of(tree, ids@.subrange(0, i + 1), (fuel - 1) as nat));
                }
                i = i + 1;
            }
            proof {
                assert(ids@.subrange(0, ids@.len() as int) =~= ids@);
            }
        },
        Some(NodeData::Text(t)) => {
            out.append(t.contents.as_str());
        },
    }
}

fn find_text(tree: &Tree<NodeData>, id: NodeId, needle: &str, fuel: usize) -> (r: bool)
    requires
        tree.wf(),
    ensures
        r == has_text_in(tree, id, needle@, fuel as nat),
    decreases fuel,
{
    if fuel == 0 {
        return false;
    }
    match tree.data_of(&id) {
        None => false,
        Some(NodeData::Element(_)) | Some(NodeData::Document) => {
            let ids = tree.child_ids_of(&id);
            let mut i: usize = 0;
            proof {
                assert(ids@.subrange(0, 0) =~= Seq::<NodeId>::empty());
            }
            while i < ids.len()
                invariant
                    tree.wf(),
                    fuel > 0,
                    tree.valid(id),
                    !(data_at(tree, id) is Text),
                    ids@ == tree.kids(id),
                    0 <= i <= ids@.len(),
                    !has_text_in_list(tree, ids@.subrange(0, i as int), needle@, (fuel - 1) as nat),
                decreases ids@.len() - i,
            {
                let found = find_text(tree, ids[i], needle, fuel - 1);
                proof {
                    assert(ids@.subrange(0, i + 1).drop_last() =~= ids@.subrange(0, i as int));
                }
                if found {
                    proof {
                        lemma_list_has_prefix(tree, ids@, i as int + 1, needle@, (fuel - 1) as nat);
                    }
                    return true;
                }
                i = i + 1;
            }
            proof {
                assert(ids@.subrange(0, ids@.len() as int) =~= ids@);
            }
            false
        },
        Some(NodeData::Text(t)) => str_contains(t.contents.as_str(), needle),
    }
}

/// The first element-like node of `l` from position `j` on.
pub open spec fn first_element_from(t: &Tree<NodeData>, l: Seq<NodeId>, j: int) -> Option<NodeId>
    decreases l.len() - j,
{
    if j < 0 || j >= l.len() {
        None
    } else if t.valid(l[j]) && element_like(data_at(t, l[j])) {
        Some(l[j])
    } else {
        first_element_from(t, l, j + 1)
    }
}

/// The last element-like node of `l` before position `j`.
pub open spec fn last_element_before(t: &Tree<NodeData>, l: Seq<NodeId>, j: int) -> Option<NodeId>
    decreases j,
{
    if j <= 0 || j > l.len() {
        None
    } else if t.valid(l[j - 1]) && element_like(data_at(t, l[j - 1])) {
        Some(l[j - 1])
    } else {
        last_element_before(t, l, j - 1)
    }
}

/// The nearest following sibling of `id` that is an element or a text run.
pub open spec fn next_element_of(t: &Tree<NodeData>, id: NodeId) -> Option<NodeId> {
    if t.valid(id) && t.node(id).parent is Some {
        let l = t.kids(t.node(id).parent.unwrap());
        first_element_from(t, l, l.index_of(id) + 1)
    } else {
        None
    }
}

/// The nearest preceding sibling of `id` that is an element or a text run.
pub open spec fn prev_element_of(t: &Tree<NodeData>, id: NodeId) -> Option<NodeId> {
    if t.valid(id) && t.node(id).parent is Some {
        let l = t.kids(t.node(id).parent.unwrap());
        last_element_before(t, l, l.index_of(id))
    } else {
        None
    }
}

impl NodeRef {
    pub fn is_document(&self, tree: &Tree<NodeData>) -> (r: bool)
        ensures
            r == (tree.valid(self.id) && data_at(tree, self.id) is Document),
    {
        match tree.data_of(&self.id) {
            Some(d) => d.is_document(),
            None => false,
        }
    }

    pub fn is_element(&self, tree: &Tree<NodeData>) -> (r: bool)
        ensures
            r == (tree.valid(self.id) && data_at(tree, self.id) is Element),
    {
        match tree.data_of(&self.id) {
            Some(d) => d.is_element(),
            None => false,
        }
    }

    pub fn is_text(&self, tree: &Tree<NodeData>) -> (r: bool)
        ensures
            r == (tree.valid(self.id) && data_at(tree, self.id) is Text),
    {
        match tree.data_of(&self.id) {
            Some(d) => d.is_text(),
            None => false,
        }
    }

    /// The tag name of an element.
    pub fn node_name(&self, tree: &Tree<NodeData>) -> (r: Option<String>)
        ensures
            match r {
                Some(n) => tree.valid(self.id) && data_at(tree, self.id) is Element && n@ == data_at(tree, self.id)->Element_0.name@,
                None => !(tree.valid(self.id) && data_at(tree, self.id) is Element),
            },
    {
        match tree.data_of(&self.id) {
            Some(NodeData::Element(e)) => Some(e.name.clone()),
            _ => None,
        }
    }

    /// The value of the first attribute named `name`.
    pub fn attr(&self, tree: &Tree<NodeData>, name: &str) -> (r: Option<AttrValue>)
        ensures
            r == (if tree.valid(self.id) { lookup(attrs_view(attr_list(data_at(tree, self.id))), name@) } else { None }),
    {
        let list: &Vec<Attrib> = match tree.data_of(&self.id) {
            Some(NodeData::Element(e)) => &e.attrs,
            Some(NodeData::Text(t)) => &t.attrs,
            Some(NodeData::Document) => {
                proof {
                    assert(attrs_view(Seq::<Attrib>::empty()) =~= Seq::empty());
                }
                return None;
            },
            None => {
                return None;
            },
        };
        match get_attr(list, name) {
            Some(v) => Some(v.copy()),
            None => None,
        }
    }

    /// The text of the first attribute named `name`, when it holds a string.
    pub fn attr_str(&self, tree: &Tree<NodeData>, name: &str) -> (r: Option<String>)
        ensures
            match r {
                Some(s) => tree.valid(self.id) && (lookup(attrs_view(attr_list(data_at(tree, self.id))), name@) matches Some(AttrValue::Str(t)) && s@ == t@),
                None => !(tree.valid(self.id) && lookup(attrs_view(attr_list(data_at(tree, self.id))), name@) matches Some(AttrValue::Str(_))),
            },
    {
        match self.attr(tree, name) {
            Some(AttrValue::Str(t)) => Some(t),
            _ => None,
        }
    }

    /// A copy of the node's attributes.
    pub fn attrs(&self, tree: &Tree<NodeData>) -> (r: Vec<Attrib>)
        ensures
            attrs_view(r@) == (if tree.valid(self.id) { attrs_view(attr_list(data_at(tree, self.id))) } else { Seq::empty() }),
    {
        match tree.data_of(&self.id) {
            Some(d) => d.attrs(),
            None => {
                let out: Vec<Attrib> = Vec::new();
                proof {
                    assert(attrs_view(out@) =~= Seq::empty());
                }
                out
            },
        }
    }

    pub fn set_attr(&self, tree: &mut Tree<NodeData>, name: &str, value: AttrValue)
        requires
            old(tree).wf(),
        ensures
            payload_edit(&*old(tree), &*final(tree), self.id),
            old(tree).valid(self.id) ==> {
                let a = data_at(&*old(tree), self.id);
                let b = data_at(&*final(tree), self.id);
                &&& same_kind(a, b)
                &&& attrs_view(attr_list(b)) == (if a is Document { Seq::empty() } else { upserted(attrs_view(attr_list(a)), name@, value) })
            },
    {
        if self.id.value >= tree.len() {
            return;
        }
        let mut d = tree.replace_data(&self.id, NodeData::Document);
        d.set_attr(name, value);
        tree.replace_data(&self.id, d);
    }

    pub fn remove_attr(&self, tree: &mut Tree<NodeData>, name: &str)
        requires
            old(tree).wf(),
        ensures
            payload_edit(&*old(tree), &*final(tree), self.id),
            old(tree).valid(self.id) ==> {
                let a = data_at(&*old(tree), self.id);
                let b = data_at(&*final(tree), self.id);
                &&& same_kind(a, b)
                &&& attrs_view(attr_list(b)) == (if a is Document { Seq::empty() } else { without_name(attrs_view(attr_list(a)), name@) })
            },
    {
        if self.id.value >= tree.len() {
            return;
        }
        let mut d = tree.replace_data(&self.id, NodeData::Document);
        d.remove_attr(name);
        tree.replace_data(&self.id, d);
    }

    pub fn has_class(&self, tree: &Tree<NodeData>, class: &str) -> (r: bool)
        ensures
            r == (tree.valid(self.id) && class_words(attrs_view(attr_list(data_at(tree, self.id)))).contains(class@)),
    {
        match tree.data_of(&self.id) {
            Some(NodeData::Element(e)) => crate::classes::has_class(&e.attrs, class),
            Some(NodeData::Text(t)) => crate::classes::has_class(&t.attrs, class),
            Some(NodeData::Document) => {
                proof {
                    assert(attrs_view(Seq::<Attrib>::empty()) =~= Seq::empty());
                }
                false
            },
            None => false,
        }
    }

    pub fn add_class(&self, tree: &mut Tree<NodeData>, class: &str)
        requires
            old(tree).wf(),
        ensures
            payload_edit(&*old(tree), &*final(tree), self.id),
            old(tree).valid(self.id) ==> {
                let a = data_at(&*old(tree), self.id);
                let b = data_at(&*final(tree), self.id);
                &&& same_kind(a, b)
                &&& !(a is Document) ==> classes_added(attr_list(a), attr_list(b), class@)
            },
    {
        if self.id.value >= tree.len() {
            return;
        }
        let mut d = tree.replace_data(&self.id, NodeData::Document);
        d.add_class(class);
        tree.replace_data(&self.id, d);
    }

    pub fn remove_class(&self, tree: &mut Tree<NodeData>, class: &str)
        requires
            old(tree).wf(),
        ensures
            payload_edit(&*old(tree), &*final(tree), self.id),
            old(tree).valid(self.id) ==> {
                let a = data_at(&*old(tree), self.id);
                let b = data_at(&*final(tree), self.id);
                &&& same_kind(a, b)
                &&& classes_removed(attr_list(a), attr_list(b), class@)
            },
    {
        if self.id.value >= tree.len() {
            return;
        }
        let mut d = tree.replace_data(&self.id, NodeData::Document);
        d.remove_class(class);
        tree.replace_data(&self.id, d);
    }

    /// The text gathered below this node.
    pub fn text(&self, tree: &Tree<NodeData>) -> (r: String)
        requires
            tree.wf(),
        ensures
            r@ == text_of(tree, self.id, tree.size() as nat),
    {
        let mut out = String::new();
        collect_text(tree, self.id, tree.len(), &mut out);
        proof {
            assert(out@ =~= text_of(tree, self.id, tree.size() as nat));
        }
        out
    }

    /// Whether a text run below this node holds `needle`.
    pub fn has_text(&self, tree: &Tree<NodeData>, needle: &str) -> (r: bool)
        requires
            tree.wf(),
        ensures
            r == has_text_in(tree, self.id, needle@, tree.size() as nat),
    {
        find_text(tree, self.id, needle, tree.len())
    }

    /// Appends `text` to the contents of a text run.
    pub fn append_text_contents(&self, tree: &mut Tree<NodeData>, text: &str)
        requires
            old(tree).wf(),
        ensures
            payload_edit(&*old(tree), &*final(tree), self.id),
            old(tree).valid(self.id) ==> match data_at(&*old(tree), self.id) {
                NodeData::Text(a) => (data_at(&*final(tree), self.id) matches NodeData::Text(b) && b.contents@ == a.contents@ + text@ && b.attrs == a.attrs),
                other => data_at(&*final(tree), self.id) == other,
            },
    {
        if self.id.value >= tree.len() {
            return;
        }
        let d = tree.replace_data(&self.id, NodeData::Document);
        let d2 = match d {
            NodeData::Text(t) => {
                let mut c = t.contents;
                c.append(text);
                NodeData::Text(Text { contents: c, attrs: t.attrs })
            },
            other => other,
        };
        tree.replace_data(&self.id, d2);
    }

    /// Replaces the contents of a text run.
    pub fn set_text_contents(&self, tree: &mut Tree<NodeData>, text: &str)
        requires
            old(tree).wf(),
        ensures
            payload_edit(&*old(tree), &*final(tree), self.id),
            old(tree).valid(self.id) ==> match data_at(&*old(tree), self.id) {
                NodeData::Text(a) => (data_at(&*final(tree), self.id) matches NodeData::Text(b) && b.contents@ == text@ && b.attrs == a.attrs),
                other => data_at(&*final(tree), self.id) == other,
            },
    {
        if self.id.value >= tree.len() {
            return;
        }
        let d = tree.replace_data(&self.id, NodeData::Document);
        let d2 = match d {
            NodeData::Text(t) => NodeData::Text(Text { contents: String::from_str(text), attrs: t.attrs }),
            other => other,
        };
        tree.replace_data(&self.id, d2);
    }

    /// Replaces the attributes of a text run.
    pub fn set_text_attrs(&self, tree: &mut Tree<NodeData>, attrs: Vec<Attrib>)
        requires
            old(tree).wf(),
        ensures
            payload_edit(&*old(tree), &*final(tree), self.id),
            old(tree).valid(self.id) ==> match data_at(&*old(tree), self.id) {
                NodeData::Text(a) => (data_at(&*final(tree), self.id) matches NodeData::Text(b) && b.contents == a.contents && b.attrs == attrs),
                other => data_at(&*final(tree), self.id) == other,
            },
    {
        if self.id.value >= tree.len() {
            return;
        }
        let d = tree.replace_data(&self.id, NodeData::Document);
        let d2 = match d {
            NodeData::Text(t) => NodeData::Text(Text { contents: t.contents, attrs }),
            other => other,
        };
        tree.replace_data(&self.id, d2);
    }
}

pub open spec fn ref_id(r: Option<NodeRef>) -> Option<NodeId> {
    match r {
        Some(x) => Some(x.id),
        None => None,
    }
}

fn is_element_like(tree: &Tree<NodeData>, id: &NodeId) -> (r: bool)
    ensures
        r == (tree.valid(*id) && element_like(data_at(tree, *id))),
{
    match tree.data_of(id) {
        Some(NodeData::Element(_)) => true,
        Some(NodeData::Text(_)) => true,
        _ => false,
    }
}

impl NodeRef {
    /// The nearest following sibling that is an element or a text run.
    pub fn next_element_sibling(&self, tree: &Tree<NodeData>) -> (r: Option<NodeRef>)
        requires
            tree.wf(),
        ensures
            ref_id(r) == next_element_of(tree, self.id),
    {
        if self.id.value >= tree.len() {
            return None;
        }
        let parent = tree.parent_of(&self.id);
        let p = match parent {
            Some(p) => p.id,
            None => {
                return None;
            },
        };
        let ghost l = tree.kids(p);
        proof {
            tree.lemma_parent_link(self.id);
        }
        let ghost k = l.index_of(self.id);
        proof {
            assert(l[k] == self.id);
            tree.lemma_child_links(p, k);
        }
        let mut cur = tree.next_sibling_of(&self.id);
        let ghost mut j: int = k + 1;
        while cur.is_some()
            invariant
                tree.wf(),
                tree.valid(p),
                tree.valid(self.id),
                tree.node(self.id).parent == Some(p),
                k == l.index_of(self.id),
                l == tree.kids(p),
                0 <= k < l.len(),
                k + 1 <= j <= l.len(),
                ref_id(cur) == (if j < l.len() { Some(l[j]) } else { None::<NodeId> }),
                first_element_from(tree, l, k + 1) == first_element_from(tree, l, j),
            decreases l.len() - j,
        {
            let c = cur.unwrap();
            proof {
                tree.lemma_child_links(p, j);
            }
            if is_element_like(tree, &c.id) {
                return Some(c);
            }
            cur = tree.next_sibling_of(&c.id);
            proof {
                j = j + 1;
            }
        }
        None
    }

    /// The nearest preceding sibling that is an element or a text run.
    pub fn prev_element_sibling(&self, tree: &Tree<NodeData>) -> (r: Option<NodeRef>)
        requires
            tree.wf(),
        ensures
            ref_id(r) == prev_element_of(tree, self.id),
    {
        if self.id.value >= tree.len() {
            return None;
        }
        let parent = tree.parent_of(&self.id);
        let p = match parent {
            Some(p) => p.id,
            None => {
                return None;
            },
        };
        let ghost l = tree.kids(p);
        proof {
            tree.lemma_parent_link(self.id);
        }
        let ghost k = l.index_of(self.id);
        proof {
            assert(l[k] == self.id);
            tree.lemma_child_links(p, k);
        }
        let mut cur = tree.prev_sibling_of(&self.id);
        let ghost mut j: int = k;
        while cur.is_some()
            invariant
                tree.wf(),
                tree.valid(p),
                tree.valid(self.id),
                tree.node(self.id).parent == Some(p),
                k == l.index_of(self.id),
                l == tree.kids(p),
                0 <= k < l.len(),
                0 <= j <= k,
                ref_id(cur) == (if j > 0 { Some(l[j - 1]) } else { None::<NodeId> }),
                last_element_before(tree, l, k) == last_element_before(tree, l, j),
            decreases j,
        {
            let c = cur.unwrap();
            proof {
                tree.lemma_child_links(p, j - 1);
            }
            if is_element_like(tree, &c.id) {
                return Some(c);
            }
            cur = tree.prev_sibling_of(&c.id);
            proof {
                j = j - 1;
            }
        }
        None
    }

    /// Creates a node holding `content` as the first child of this node.
    pub fn append_first_child(&self, tree: &mut Tree<NodeData>, content: NodeData)
        requires
            old(tree).wf(),
            old(tree).size() < usize::MAX,
        ensures
            final(tree).wf(),
            final(tree).size() == old(tree).size() + 1,
            old(tree).same_data(&*final(tree)),
            data_at(&*final(tree), nid(old(tree).size())) == content,
            final(tree).child_lists() == (if old(tree).valid(self.id) {
                old(tree).child_lists().push(Seq::<NodeId>::empty()).update(
                    self.id.value as int,
                    seq![nid(old(tree).size())] + old(tree).kids(self.id),
                )
            } else {
                old(tree).child_lists().push(Seq::<NodeId>::empty())
            }),
    {
        let new_node = tree.create_node(content);
        proof {
            assert(tree.detached(new_node) == tree.child_lists());
            assert(new_node == nid(old(tree).size()));
            old(tree).lemma_wf_facts();
            if old(tree).valid(self.id) {
                assert(tree.kids(self.id) == old(tree).kids(self.id));
            }
        }
        match tree.first_child_of(&self.id) {
            Some(first_child) => {
                let ghost l = tree.kids(self.id);
                proof {
                    tree.lemma_parent_link(self.id);
                    tree.lemma_child_links(self.id, 0);
                    tree.lemma_parent_link(first_child.id);
                    assert(l.index_of(first_child.id) == 0) by {
                        let i = l.index_of(first_child.id);
                        assert(l.contains(first_child.id));
                        assert(l[i] == first_child.id);
                    }
                    assert(first_child.id != new_node);
                }
                tree.append_prev_sibling_of(&first_child.id, &new_node);
                proof {
                    assert(l.insert(0, new_node) =~= seq![new_node] + l);
                }
            },
            None => {
                proof {
                    if old(tree).valid(self.id) {
                        tree.lemma_parent_link(self.id);
                        assert(seq![new_node] + tree.kids(self.id) =~= tree.kids(self.id).push(new_node));
                    }
                }
                tree.append_child_of(&self.id, &new_node);
            },
        }
    }

    /// Creates a node holding `content` as the last child of this node.
    pub fn append_last_child(&self, tree: &mut Tree<NodeData>, content: NodeData)
        requires
            old(tree).wf(),
            old(tree).size() < usize::MAX,
        ensures
            final(tree).wf(),
            final(tree).size() == old(tree).size() + 1,
            old(tree).same_data(&*final(tree)),
            data_at(&*final(tree), nid(old(tree).size())) == content,
            final(tree).child_lists() == (if old(tree).valid(self.id) {
                old(tree).child_lists().push(Seq::<NodeId>::empty()).update(self.id.value as int, old(tree).kids(self.id).push(nid(old(tree).size())))
            } else {
                old(tree).child_lists().push(Seq::<NodeId>::empty())
            }),
    {
        let new_node = tree.create_node(content);
        proof {
            assert(tree.detached(new_node) == tree.child_lists());
            assert(new_node == nid(old(tree).size()));
            old(tree).lemma_wf_facts();
            if old(tree).valid(self.id) {
                assert(tree.kids(self.id) == old(tree).kids(self.id));
            }
        }
        tree.append_child_of(&self.id, &new_node);
    }

    /// Creates a node holding `content` right before this node, under the
    /// same parent; without a parent the new node stays detached.
    pub fn insert_before(&self, tree: &mut Tree<NodeData>, content: NodeData)
        requires
            old(tree).wf(),
            old(tree).size() < usize::MAX,
        ensures
            final(tree).wf(),
            final(tree).size() == old(tree).size() + 1,
            old(tree).same_data(&*final(tree)),
            data_at(&*final(tree), nid(old(tree).size())) == content,
            final(tree).child_lists() == (if old(tree).valid(self.id) && old(tree).node(self.id).parent is Some {
                let q = old(tree).node(self.id).parent.unwrap().value as int;
                let l = old(tree).child_lists()[q];
                old(tree).child_lists().push(Seq::<NodeId>::empty()).update(q, l.insert(l.index_of(self.id), nid(old(tree).size())))
            } else {
                old(tree).child_lists().push(Seq::<NodeId>::empty())
            }),
    {
        let new_node = tree.create_node(content);
        proof {
            assert(tree.detached(new_node) == tree.child_lists());
            assert(new_node == nid(old(tree).size()));
            old(tree).lemma_wf_facts();
            if old(tree).valid(self.id) && old(tree).node(self.id).parent is Some {
                old(tree).lemma_parent_link(self.id);
                let q = old(tree).node(self.id).parent.unwrap();
                assert(tree.kids(q) == old(tree).kids(q));
                assert(tree.node(self.id).parent == old(tree).node(self.id).parent);
            }
        }
        tree.append_prev_sibling_of(&self.id, &new_node);
    }

    /// Creates a node holding `content` right after this node, under the same
    /// parent; a node without a parent (or an unknown handle) gets it as the
    /// root's last child instead.
    pub fn insert_after(&self, tree: &mut Tree<NodeData>, content: NodeData)
        requires
            old(tree).wf(),
            old(tree).size() < usize::MAX,
        ensures
            final(tree).wf(),
            final(tree).size() == old(tree).size() + 1,
            old(tree).same_data(&*final(tree)),
            data_at(&*final(tree), nid(old(tree).size())) == content,
            final(tree).child_lists() == (if old(tree).valid(self.id) && old(tree).node(self.id).parent is Some {
                let q = old(tree).node(self.id).parent.unwrap().value as int;
                let l = old(tree).child_lists()[q];
                old(tree).child_lists().push(Seq::<NodeId>::empty()).update(q, l.insert(l.index_of(self.id) + 1, nid(old(tree).size())))
            } else {
                old(tree).child_lists().push(Seq::<NodeId>::empty()).update(0, old(tree).kids(nid(0)).push(nid(old(tree).size())))
            }),
    {
        let ghost t0 = *tree;
        let new_node = tree.create_node(content);
        proof {
            assert(tree.detached(new_node) == tree.child_lists());
            assert(new_node == nid(old(tree).size()));
            t0.lemma_wf_facts();
            t0.lemma_parent_link(nid(0));
            assert(tree.kids(nid(0)) == t0.kids(nid(0)));
            if t0.valid(self.id) && t0.node(self.id).parent is Some {
                t0.lemma_parent_link(self.id);
                let q = t0.node(self.id).parent.unwrap();
                assert(tree.kids(q) == t0.kids(q));
                assert(tree.node(self.id).parent == t0.node(self.id).parent);
            }
        }
        match tree.next_sibling_of(&self.id) {
            Some(next_sibling) => {
                proof {
                    tree.lemma_parent_link(self.id);
                    assert(self.id.value < t0.size());
                    assert(t0.valid(self.id));
                    assert(t0.node(self.id) == tree.node(self.id));
                }
                let ghost q = t0.node(self.id).parent.unwrap();
                let ghost l = t0.kids(q);
                let ghost k = l.index_of(self.id);
                proof {
                    t0.lemma_parent_link(self.id);
                    assert(l[k] == self.id);
                    t0.lemma_child_links(q, k);
                    t0.lemma_child_links(q, k + 1);
                    assert(l.index_of(next_sibling.id) == k + 1) by {
                        let i = l.index_of(next_sibling.id);
                        assert(l.contains(next_sibling.id));
                        assert(l[i] == next_sibling.id);
                    }
                }
                tree.append_prev_sibling_of(&next_sibling.id, &new_node);
            },
            None => {
                match tree.parent_of(&self.id) {
                    Some(parent) => {
                        let ghost l = t0.kids(parent.id);
                        let ghost k = l.index_of(self.id);
                        proof {
                            t0.lemma_parent_link(self.id);
                            assert(l[k] == self.id);
                            t0.lemma_child_links(parent.id, k);
                            assert(k + 1 == l.len());
                            assert(l.insert(k + 1, new_node) =~= l.push(new_node));
                        }
                        tree.append_child_of(&parent.id, &new_node);
                    },
                    None => {
                        let root = tree.root_id();
                        tree.append_child_of(&root, &new_node);
                    },
                }
            },
        }
    }
}

proof fn lemma_list_has_prefix(t: &Tree<NodeData>, l: Seq<NodeId>, i: int, needle: Seq<char>, fuel: nat)
    requires
        0 <= i <= l.len(),
        has_text_in_list(t, l.subrange(0, i), needle, fuel),
    ensures
        has_text_in_list(t, l, needle, fuel),
    decreases l.len() - i,
{
    if i < l.len() {
        assert(l.subrange(0, i + 1).drop_last() =~= l.subrange(0, i));
        lemma_list_has_prefix(t, l, i + 1, needle, fuel);
    } else {
        assert(l.subrange(0, i) =~= l);
    }
}

} // verus!
