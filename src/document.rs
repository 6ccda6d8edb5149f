use vstd::prelude::*;
use vstd::string::StringExecFns;
use crate::attrs::{Attrib, attrs_view};
use crate::dom_tree::{NodeId, NodeRef, Tree, nid};
use crate::node::{NodeData, Element, Text, data_at, payload_edit, texts_of};

verus! {

/// How standards-conforming the parsed markup declared itself.
#[derive(Clone, Copy, Debug, PartialEq, Eq, Structural)]
pub enum QuirksMode {
    Quirks,
    LimitedQuirks,
    NoQuirks,
}

/// A parsed document: its tree, the parse errors reported, and its quirks
/// mode.
pub struct Document {
    pub tree: Tree<NodeData>,
    pub errors: Vec<String>,
    pub quirks_mode: QuirksMode,
}

impl Document {
    pub open spec fn wf(&self) -> bool {
        &&& self.tree.wf()
        &&& data_at(&self.tree, nid(0)) is Document
    }

    /// An empty document: the root alone, no errors, no quirks.
    pub fn new() -> (r: Document)
        ensures
            r.wf(),
            r.tree.size() == 1,
            r.tree.kids(nid(0)).len() == 0,
            r.errors@.len() == 0,
            r.quirks_mode == QuirksMode::NoQuirks,
    {
        Document { tree: Tree::new(NodeData::Document), errors: Vec::new(), quirks_mode: QuirksMode::NoQuirks }
    }

    /// The root node.
    #[inline]
    pub fn root(&self) -> (r: NodeRef)
        ensures
            r.id.value == 0,
    {
        self.tree.root()
    }

    /// The text gathered below the root: every text run, in document order.
    pub fn text(&self) -> (r: String)
        requires
            self.wf(),
        ensures
            r@ == texts_of(&self.tree, self.tree.kids(nid(0)), (self.tree.size() - 1) as nat),
    {
        let root = self.tree.root();
        proof {
            assert(root.id == nid(0));
        }
        root.text(&self.tree)
    }
}

impl Default for Document {
    fn default() -> (r: Document)
        ensures
            r.wf(),
            r.tree.size() == 1,
            r.errors@.len() == 0,
            r.quirks_mode == QuirksMode::NoQuirks,
    {
        Document::new()
    }
}

/// An edit that keeps every payload keeps the root a document.
pub proof fn lemma_root_kept(t0: &Tree<NodeData>, t1: &Tree<NodeData>)
    requires
        t0.wf(),
        t0.same_data(t1),
    ensures
        data_at(t1, nid(0)) == data_at(t0, nid(0)),
{
    t0.lemma_wf_facts();
    assert(t1.spec_nodes()[0].data == t0.spec_nodes()[0].data);
}

/// A payload edit away from the root keeps the root a document.
pub proof fn lemma_root_kept_edit(t0: &Tree<NodeData>, t1: &Tree<NodeData>, id: NodeId)
    requires
        t0.wf(),
        payload_edit(t0, t1, id),
        data_at(t0, nid(0)) is Document,
        t0.valid(id) && id.value == 0 ==> data_at(t1, id) is Document,
    ensures
        data_at(t1, nid(0)) is Document,
{
    t0.lemma_wf_facts();
    if id.value != 0 {
        assert(t1.spec_nodes()[0].data == t0.spec_nodes()[0].data);
    }
}

/// The attributes of `added` whose names `existing` lacks, in order.
pub open spec fn missing_attrs(existing: Seq<(Seq<char>, crate::attrs::AttrValue)>, added: Seq<(Seq<char>, crate::attrs::AttrValue)>) -> Seq<(Seq<char>, crate::attrs::AttrValue)>
    decreases added.len(),
{
    if added.len() == 0 {
        added
    } else {
        let m = missing_attrs(existing, added.drop_last());
        if exists|i: int| 0 <= i < existing.len() && (#[trigger] existing[i]).0 == added.last().0 {
            m
        } else {
            m.push(added.last())
        }
    }
}

/// Whether one of the first `n` attributes is named `name`.
fn name_in_prefix(attrs: &Vec<Attrib>, n: usize, name: &str) -> (r: bool)
    requires
        n <= attrs@.len(),
    ensures
        r == exists|i: int| 0 <= i < n && (#[trigger] attrs_view(attrs@)[i]).0 == name@,
{
    let key = String::from_str(name);
    let mut i: usize = 0;
    while i < n
        invariant
            n <= attrs@.len(),
            0 <= i <= n,
            key@ == name@,
            forall|j: int| 0 <= j < i ==> (#[trigger] attrs_view(attrs@)[j]).0 != name@,
        decreases n - i,
    {
        if attrs[i].name == key {
            proof {
                assert(attrs_view(attrs@)[i as int].0 == name@);
            }
            return true;
        }
        i = i + 1;
    }
    false
}

/// A child handed to the sink: a node made earlier, or text.
pub enum NodeOrText {
    AppendNode(NodeId),
    AppendText(String),
}

/// The handle given for what the tree does not model (comments, processing
/// instructions, template contents). Edits naming it do nothing.
pub const IGNORED: usize = usize::MAX;

/// Where appended text goes: into `parent` itself when it is a text run,
/// else into its last child when that is a text run.
pub open spec fn text_target(t: &Tree<NodeData>, parent: NodeId) -> Option<NodeId> {
    if data_at(t, parent) is Text {
        Some(parent)
    } else if t.kids(parent).len() > 0 && data_at(t, t.kids(parent).last()) is Text {
        Some(t.kids(parent).last())
    } else {
        None
    }
}

/// `new` is `old` with `text` added to the end of text run `x`.
pub open spec fn text_grown(old: &Tree<NodeData>, new: &Tree<NodeData>, x: NodeId, text: Seq<char>) -> bool {
    &&& payload_edit(old, new, x)
    &&& data_at(old, x) matches NodeData::Text(a)
    &&& data_at(new, x) matches NodeData::Text(b)
    &&& b.contents@ == a.contents@ + text
    &&& b.attrs == a.attrs
}

/// `new` is `old` with a fresh node holding `text` and no attributes.
pub open spec fn text_created(old: &Tree<NodeData>, new: &Tree<NodeData>, text: Seq<char>) -> bool {
    &&& new.wf()
    &&& new.size() == old.size() + 1
    &&& old.same_data(new)
    &&& data_at(new, nid(old.size())) matches NodeData::Text(b)
    &&& b.contents@ == text
    &&& b.attrs@.len() == 0
}

/// What appending `child` to `parent` does to the tree.
pub open spec fn appended(t0: &Tree<NodeData>, t1: &Tree<NodeData>, parent: NodeId, child: NodeOrText) -> bool {
    if parent.value == IGNORED || !t0.valid(parent) {
        t1 == t0
    } else {
        match child {
            NodeOrText::AppendNode(c) => if c.value == IGNORED {
                t1 == t0
            } else {
                &&& t1.wf()
                &&& t1.size() == t0.size()
                &&& t0.same_data(t1)
                &&& t1.child_lists() == (if t0.valid(c) && parent != c && c.value != 0 {
                    let d = t0.detached(c);
                    d.update(parent.value as int, d[parent.value as int].push(c))
                } else {
                    t0.child_lists()
                })
            },
            NodeOrText::AppendText(s) => match text_target(t0, parent) {
                Some(x) => text_grown(t0, t1, x, s@),
                None => if t0.size() < IGNORED {
                    &&& text_created(t0, t1, s@)
                    &&& t1.child_lists() == t0.child_lists().push(Seq::<NodeId>::empty()).update(
                        parent.value as int,
                        t0.kids(parent).push(nid(t0.size())),
                    )
                } else {
                    t1 == t0
                },
            },
        }
    }
}

/// Appending text to a node that ends with a text run (or is one) adds no
/// child: the parent keeps its child count, and the run's contents become
/// exactly its old contents followed by the text.
pub proof fn lemma_text_append_merges(t0: &Tree<NodeData>, t1: &Tree<NodeData>, parent: NodeId, s: String)
    requires
        t0.wf(),
        t0.valid(parent),
        parent.value != IGNORED,
        text_target(t0, parent) is Some,
        appended(t0, t1, parent, NodeOrText::AppendText(s)),
    ensures
        t1.kids(parent).len() == t0.kids(parent).len(),
        ({
            let x = text_target(t0, parent).unwrap();
            &&& data_at(t0, x) matches NodeData::Text(a)
            &&& data_at(t1, x) matches NodeData::Text(b)
            &&& b.contents@ == a.contents@ + s@
        }),
{
}

/// What inserting `child` before `sibling` does to the tree.
pub open spec fn placed_before(t0: &Tree<NodeData>, t1: &Tree<NodeData>, sibling: NodeId, child: NodeOrText) -> bool {
    if sibling.value == IGNORED {
        t1 == t0
    } else {
        match child {
            NodeOrText::AppendNode(c) => if c.value == IGNORED {
                t1 == t0
            } else {
                &&& t1.size() == t0.size()
                &&& t0.same_data(t1)
                &&& t1.child_lists() == t0.inserted_before(sibling, c)
            },
            NodeOrText::AppendText(s) => if t0.valid(sibling) && t0.node(sibling).prev_sibling is Some
                && data_at(t0, t0.node(sibling).prev_sibling.unwrap()) is Text {
                text_grown(t0, t1, t0.node(sibling).prev_sibling.unwrap(), s@)
            } else if t0.size() < IGNORED {
                &&& text_created(t0, t1, s@)
                &&& t1.child_lists() == (if t0.valid(sibling) && t0.node(sibling).parent is Some {
                    let q = t0.node(sibling).parent.unwrap().value as int;
                    let l = t0.child_lists()[q];
                    t0.child_lists().push(Seq::<NodeId>::empty()).update(q, l.insert(l.index_of(sibling), nid(t0.size())))
                } else {
                    t0.child_lists().push(Seq::<NodeId>::empty())
                })
            } else {
                t1 == t0
            },
        }
    }
}

/// The receiving end of a markup parser: it builds a `Document` from the
/// parser's requests.
pub struct DocumentTreeSink {
    pub document: Document,
}

impl DocumentTreeSink {
    pub open spec fn wf(&self) -> bool {
        self.document.wf()
    }

    pub fn new() -> (r: DocumentTreeSink)
        ensures
            r.wf(),
            r.document.tree.size() == 1,
    {
        DocumentTreeSink { document: Document::new() }
    }

    /// The finished document.
    pub fn finish(self) -> (r: Document)
        ensures
            r == self.document,
    {
        self.document
    }

    pub fn ignored(&self) -> (r: NodeId)
        ensures
            r.value == IGNORED,
    {
        NodeId::new(IGNORED)
    }

    pub fn is_ignored(&self, id: &NodeId) -> (r: bool)
        ensures
            r == (id.value == IGNORED),
    {
        id.value == IGNORED
    }

    pub fn parse_error(&mut self, msg: String)
        ensures
            final(self).document.tree == old(self).document.tree,
            final(self).document.errors@ == old(self).document.errors@.push(msg),
            final(self).document.quirks_mode == old(self).document.quirks_mode,
    {
        self.document.errors.push(msg);
    }

    pub fn get_document(&self) -> (r: NodeId)
        ensures
            r.value == 0,
    {
        self.document.tree.root_id()
    }

    pub fn set_quirks_mode(&mut self, mode: QuirksMode)
        ensures
            final(self).document.tree == old(self).document.tree,
            final(self).document.errors == old(self).document.errors,
            final(self).document.quirks_mode == mode,
    {
        self.document.quirks_mode = mode;
    }

    pub fn same_node(&self, x: &NodeId, y: &NodeId) -> (r: bool)
        ensures
            r == (*x == *y),
    {
        x.value == y.value
    }

    /// Creates a detached node for an element named `name`: an element named
    /// `text` becomes a text run carrying the attributes. When storage is full
    /// the element is ignored.
    pub fn create_element(&mut self, name: &str, attrs: Vec<Attrib>) -> (r: NodeId)
        requires
            old(self).wf(),
        ensures
            final(self).wf(),
            final(self).document.errors == old(self).document.errors,
            if old(self).document.tree.size() < IGNORED {
                let t = &final(self).document.tree;
                &&& r.value == old(self).document.tree.size()
                &&& t.size() == old(self).document.tree.size() + 1
                &&& old(self).document.tree.same_data(t)
                &&& t.child_lists() == old(self).document.tree.child_lists().push(Seq::<NodeId>::empty())
                &&& if name@ == "text"@ {
                    data_at(t, r) matches NodeData::Text(x) && x.contents@.len() == 0 && x.attrs == attrs
                } else {
                    data_at(t, r) matches NodeData::Element(x) && x.name@ == name@ && x.attrs == attrs
                }
            } else {
                r.value == IGNORED && final(self).document.tree == old(self).document.tree
            },
    {
        if self.document.tree.len() >= IGNORED {
            return self.ignored();
        }
        let is_text_run = String::from_str(name) == String::from_str("text");
        proof {
            reveal_strlit("text");
        }
        let data = if is_text_run {
            NodeData::Text(Text::with_attrs("", attrs))
        } else {
            NodeData::Element(Element::with_attrs(name, attrs))
        };
        proof {
            reveal_strlit("");
        }
        let r = self.document.tree.create_node(data);
        proof {
            lemma_root_kept(&old(self).document.tree, &self.document.tree);
        }
        r
    }

    pub fn create_comment(&mut self, _text: &str) -> (r: NodeId)
        ensures
            r.value == IGNORED,
            *final(self) == *old(self),
    {
        self.ignored()
    }

    pub fn create_pi(&mut self, _target: &str, _data: &str) -> (r: NodeId)
        ensures
            r.value == IGNORED,
            *final(self) == *old(self),
    {
        self.ignored()
    }

    pub fn get_template_contents(&mut self, _target: &NodeId) -> (r: NodeId)
        ensures
            r.value == IGNORED,
            *final(self) == *old(self),
    {
        self.ignored()
    }

    /// Adds `text` to the end of text run `x`.
    fn grow_text(&mut self, x: &NodeId, text: &str)
        requires
            old(self).wf(),
            old(self).document.tree.valid(*x),
            data_at(&old(self).document.tree, *x) is Text,
        ensures
            final(self).wf(),
            final(self).document.errors == old(self).document.errors,
            text_grown(&old(self).document.tree, &final(self).document.tree, *x, text@),
    {
        let r = NodeRef::new(*x);
        proof {
            assert(x.value != 0);
        }
        r.append_text_contents(&mut self.document.tree, text);
        proof {
            assert(self.document.tree.spec_nodes()[0].data == old(self).document.tree.spec_nodes()[0].data);
        }
    }

    /// Appends `child` as the last child of `parent`. Text merges into
    /// `parent` when that is a text run, else into `parent`'s last child when
    /// that is a text run; otherwise it becomes a new text run.
    pub fn append(&mut self, parent: &NodeId, child: NodeOrText)
        requires
            old(self).wf(),
        ensures
            final(self).wf(),
            final(self).document.errors == old(self).document.errors,
            appended(&old(self).document.tree, &final(self).document.tree, *parent, child),
    {
        if parent.value == IGNORED || parent.value >= self.document.tree.len() {
            return;
        }
        match &child {
            NodeOrText::AppendNode(cref) => {
                let c = *cref;
                if c.value == IGNORED {
                    return;
                }
                self.document.tree.append_child_of(parent, &c);
                proof {
                    lemma_root_kept(&old(self).document.tree, &self.document.tree);
                }
            },
            NodeOrText::AppendText(text) => {
                let p = NodeRef::new(*parent);
                if p.is_text(&self.document.tree) {
                    self.grow_text(parent, text.as_str());
                    return;
                }
                match self.document.tree.last_child_of(parent) {
                    Some(last) => {
                        proof {
                            self.document.tree.lemma_parent_link(*parent);
                            let n = self.document.tree.kids(*parent).len();
                            self.document.tree.lemma_child_links(*parent, n - 1);
                        }
                        if last.is_text(&self.document.tree) {
                            self.grow_text(&last.id, text.as_str());
                            return;
                        }
                    },
                    None => {
                        proof {
                            self.document.tree.lemma_parent_link(*parent);
                        }
                    },
                }
                if self.document.tree.len() >= IGNORED {
                    return;
                }
                let node = NodeRef::new(*parent);
                node.append_last_child(&mut self.document.tree, NodeData::Text(Text::new(text.as_str())));
                proof {
                    lemma_root_kept(&old(self).document.tree, &self.document.tree);
                }
            },
        }
    }

    /// Places `child` before `element` when `element` has a parent, else
    /// appends it to `prev_element`.
    pub fn append_based_on_parent_node(&mut self, element: &NodeId, prev_element: &NodeId, child: NodeOrText)
        requires
            old(self).wf(),
        ensures
            final(self).wf(),
            final(self).document.errors == old(self).document.errors,
            element.value == IGNORED ==> final(self).document.tree == old(self).document.tree,
            element.value != IGNORED ==> if old(self).document.tree.valid(*element) && old(self).document.tree.node(*element).parent is Some {
                placed_before(&old(self).document.tree, &final(self).document.tree, *element, child)
            } else {
                appended(&old(self).document.tree, &final(self).document.tree, *prev_element, child)
            },
    {
        if element.value == IGNORED {
            return;
        }
        let has_parent = self.document.tree.parent_of(element).is_some();
        if has_parent {
            self.append_before_sibling(element, child);
        } else {
            self.append(prev_element, child);
        }
    }

    /// Adds to element `target` each attribute of `attrs` whose name the
    /// element does not have yet.
    pub fn add_attrs_if_missing(&mut self, target: &NodeId, attrs: Vec<Attrib>)
        requires
            old(self).wf(),
        ensures
            final(self).wf(),
            final(self).document.errors == old(self).document.errors,
            payload_edit(&old(self).document.tree, &final(self).document.tree, *target),
            old(self).document.tree.valid(*target) ==> match data_at(&old(self).document.tree, *target) {
                NodeData::Element(e) => (data_at(&final(self).document.tree, *target) matches NodeData::Element(f)
                    && f.name == e.name
                    && attrs_view(f.attrs@) == attrs_view(e.attrs@) + missing_attrs(attrs_view(e.attrs@), attrs_view(attrs@))),
                other => data_at(&final(self).document.tree, *target) == other,
            },
    {
        if target.value >= self.document.tree.len() {
            return;
        }
        let d = self.document.tree.replace_data(target, NodeData::Document);
        let d2 = match d {
            NodeData::Element(e) => {
                let mut existing = e.attrs;
                let ghost names = attrs_view(existing@);
                let n0 = existing.len();
                let mut i: usize = 0;
                proof {
                    assert(attrs_view(attrs@).subrange(0, 0) =~= Seq::<(Seq<char>, crate::attrs::AttrValue)>::empty());
                    assert(attrs_view(existing@) =~= names + missing_attrs(names, attrs_view(attrs@).subrange(0, 0)));
                }
                while i < attrs.len()
                    invariant
                        0 <= i <= attrs@.len(),
                        n0 as int == names.len(),
                        existing@.len() >= n0,
                        attrs_view(existing@).subrange(0, n0 as int) == names,
                        attrs_view(existing@) == names + missing_attrs(names, attrs_view(attrs@).subrange(0, i as int)),
                    decreases attrs@.len() - i,
                {
                    let ghost before = existing@;
                    let known = name_in_prefix(&existing, n0, attrs[i].name.as_str());
                    proof {
                        assert(attrs_view(attrs@).subrange(0, i + 1).drop_last() =~= attrs_view(attrs@).subrange(0, i as int));
                        assert(attrs_view(existing@).subrange(0, n0 as int) =~= names);
                    }
                    if !known {
                        existing.push(Attrib { name: attrs[i].name.clone(), value: attrs[i].value.copy() });
                        proof {
                            assert(attrs_view(existing@) =~= attrs_view(before).push(attrs_view(attrs@)[i as int]));
                            assert(attrs_view(existing@).subrange(0, n0 as int) =~= attrs_view(before).subrange(0, n0 as int));
                        }
                    }
                    proof {
                        assert(attrs_view(existing@) =~= names + missing_attrs(names, attrs_view(attrs@).subrange(0, i + 1)));
                    }
                    i = i + 1;
                }
                proof {
                    assert(attrs_view(attrs@).subrange(0, attrs@.len() as int) =~= attrs_view(attrs@));
                }
                NodeData::Element(Element { name: e.name, attrs: existing })
            },
            other => other,
        };
        self.document.tree.replace_data(target, d2);
        proof {
            lemma_root_kept_edit(&old(self).document.tree, &self.document.tree, *target);
        }
    }

    /// Detaches `target` from its parent.
    pub fn remove_from_parent(&mut self, target: &NodeId)
        requires
            old(self).wf(),
        ensures
            final(self).wf(),
            final(self).document.errors == old(self).document.errors,
            target.value == IGNORED ==> final(self).document.tree == old(self).document.tree,
            target.value != IGNORED ==> {
                &&& final(self).document.tree.size() == old(self).document.tree.size()
                &&& old(self).document.tree.same_data(&final(self).document.tree)
                &&& final(self).document.tree.child_lists() == old(self).document.tree.detached(*target)
            },
    {
        if target.value == IGNORED {
            return;
        }
        self.document.tree.remove_from_parent(target);
        proof {
            lemma_root_kept(&old(self).document.tree, &self.document.tree);
        }
    }

    /// Moves all children of `node` to the end of `new_parent`'s children;
    /// when `new_parent` is ignored they are detached instead.
    pub fn reparent_children(&mut self, node: &NodeId, new_parent: &NodeId)
        requires
            old(self).wf(),
        ensures
            final(self).wf(),
            final(self).document.errors == old(self).document.errors,
            node.value == IGNORED ==> final(self).document.tree == old(self).document.tree,
            node.value != IGNORED ==> {
                &&& final(self).document.tree.size() == old(self).document.tree.size()
                &&& old(self).document.tree.same_data(&final(self).document.tree)
                &&& final(self).document.tree.child_lists() == old(self).document.tree.reparented(
                    *node,
                    if new_parent.value == IGNORED { None } else { Some(*new_parent) },
                )
            },
    {
        if node.value == IGNORED {
            return;
        }
        if new_parent.value == IGNORED {
            self.document.tree.reparent_children_of(node, None);
        } else {
            self.document.tree.reparent_children_of(node, Some(*new_parent));
        }
        proof {
            lemma_root_kept(&old(self).document.tree, &self.document.tree);
        }
    }

    /// The name a parsed element was created with: its tag name, or `text`
    /// for a text run.
    pub fn elem_name(&self, target: &NodeId) -> (r: Option<String>)
        ensures
            match r {
                Some(n) => self.document.tree.valid(*target) && match data_at(&self.document.tree, *target) {
                    NodeData::Element(e) => n@ == e.name@,
                    NodeData::Text(_) => n@ == "text"@,
                    NodeData::Document => false,
                },
                None => !self.document.tree.valid(*target) || data_at(&self.document.tree, *target) is Document,
            },
    {
        match self.document.tree.data_of(target) {
            Some(NodeData::Element(e)) => Some(e.name.clone()),
            Some(NodeData::Text(_)) => Some(String::from_str("text")),
            _ => None,
        }
    }

    /// Inserts `child` right before `sibling`. Text merges into the text run
    /// right before `sibling`, if there is one.
    pub fn append_before_sibling(&mut self, sibling: &NodeId, child: NodeOrText)
        requires
            old(self).wf(),
        ensures
            final(self).wf(),
            final(self).document.errors == old(self).document.errors,
            placed_before(&old(self).document.tree, &final(self).document.tree, *sibling, child),
    {
        if sibling.value == IGNORED {
            return;
        }
        match child {
            NodeOrText::AppendText(text) => {
                match self.document.tree.prev_sibling_of(sibling) {
                    Some(prev) => {
                        proof {
                            self.document.tree.lemma_parent_link(*sibling);
                            if self.document.tree.node(*sibling).parent is Some {
                                let q = self.document.tree.node(*sibling).parent.unwrap();
                                let l = self.document.tree.kids(q);
                                let k = l.index_of(*sibling);
                                assert(l[k] == *sibling);
                                self.document.tree.lemma_child_links(q, k);
                                self.document.tree.lemma_child_links(q, k - 1);
                            }
                        }
                        if prev.is_text(&self.document.tree) {
                            self.grow_text(&prev.id, text.as_str());
                            return;
                        }
                    },
                    None => {},
                }
                if self.document.tree.len() >= IGNORED {
                    return;
                }
                let r = NodeRef::new(*sibling);
                r.insert_before(&mut self.document.tree, NodeData::Text(Text::new(text.as_str())));
                proof {
                    lemma_root_kept(&old(self).document.tree, &self.document.tree);
                }
            },
            NodeOrText::AppendNode(id) => {
                if id.value == IGNORED {
                    return;
                }
                self.document.tree.append_prev_sibling_of(sibling, &id);
                proof {
                    lemma_root_kept(&old(self).document.tree, &self.document.tree);
                }
            },
        }
    }
}

} // verus!
