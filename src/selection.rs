use vstd::prelude::*;
use vstd::string::StringExecFns;
use crate::attrs::{AttrValue, Attrib, attrs_view, lookup, upserted, without_name};
use crate::dom_tree::{NodeId, NodeRef, Tree, ref_ids, drop_id, nid, shift_list, TRUE_ROOT_ID};
use crate::node::{NodeData, data_at, attr_list, same_kind, text_of, copy_attrs};
use crate::classes::{class_words, classes_added, classes_removed};

verus! {

/// A set of matched nodes, in order.
pub struct Selection {
    pub nodes: Vec<NodeRef>,
}

/// `new` differs from `old` only in payloads of the nodes in `sel`.
pub open spec fn payloads_edited(old: &Tree<NodeData>, new: &Tree<NodeData>, sel: Seq<NodeRef>) -> bool {
    &&& new.wf()
    &&& new.size() == old.size()
    &&& new.child_lists() == old.child_lists()
    &&& forall|j: int| 0 <= j < old.size() && !ref_ids(sel).contains(crate::dom_tree::nid(j)) ==> #[trigger] new.spec_nodes()[j].data == old.spec_nodes()[j].data
}

/// `new` differs from `old` only in links: every payload is kept.
pub open spec fn links_edited(old: &Tree<NodeData>, new: &Tree<NodeData>) -> bool {
    &&& new.wf()
    &&& new.size() == old.size()
    &&& old.same_data(new)
}

/// The child lists with each of `xs` taken out, one after another.
pub open spec fn drop_all(ls: Seq<Seq<NodeId>>, xs: Seq<NodeId>) -> Seq<Seq<NodeId>>
    decreases xs.len(),
{
    if xs.len() == 0 {
        ls
    } else {
        drop_id(drop_all(ls, xs.drop_last()), xs.last())
    }
}

/// The child lists after `c` is made the last child of `p`; unchanged when
/// a handle is unknown, when they are equal, or when `c` is the root.
pub open spec fn append_lists(ls: Seq<Seq<NodeId>>, p: NodeId, c: NodeId) -> Seq<Seq<NodeId>> {
    if p.value < ls.len() && c.value < ls.len() && p != c && c.value != 0 {
        let d = drop_id(ls, c);
        d.update(p.value as int, d[p.value as int].push(c))
    } else {
        ls
    }
}

/// The child lists after each of `cs`, in order, is appended to `p`.
pub open spec fn append_each(ls: Seq<Seq<NodeId>>, p: NodeId, cs: Seq<NodeId>) -> Seq<Seq<NodeId>>
    decreases cs.len(),
{
    if cs.len() == 0 {
        ls
    } else {
        append_lists(append_each(ls, p, cs.drop_last()), p, cs.last())
    }
}

/// The child lists after `cs` is appended to each of `ps` in turn.
pub open spec fn append_all(ls: Seq<Seq<NodeId>>, ps: Seq<NodeId>, cs: Seq<NodeId>) -> Seq<Seq<NodeId>>
    decreases ps.len(),
{
    if ps.len() == 0 {
        ls
    } else {
        append_each(append_all(ls, ps.drop_last(), cs), ps.last(), cs)
    }
}

/// The node whose child list holds `a`, if any.
pub open spec fn parent_in(ls: Seq<Seq<NodeId>>, a: NodeId) -> Option<int> {
    if exists|q: int| 0 <= q < ls.len() && (#[trigger] ls[q]).contains(a) {
        Some(choose|q: int| 0 <= q < ls.len() && (#[trigger] ls[q]).contains(a))
    } else {
        None
    }
}

/// The child lists after `x` is moved right before `a`; `x` is only taken
/// out when `a` has no parent, or when the move would make `x` its own
/// parent or give the root a parent; nothing changes for an unknown `x` or
/// for `x == a`.
pub open spec fn insert_before_lists(ls: Seq<Seq<NodeId>>, a: NodeId, x: NodeId) -> Seq<Seq<NodeId>> {
    if x.value >= ls.len() || a == x {
        ls
    } else {
        let d = drop_id(ls, x);
        match parent_in(ls, a) {
            Some(q) => if a.value < ls.len() && x.value != 0 && q != x.value {
                d.update(q, d[q].insert(d[q].index_of(a), x))
            } else {
                d
            },
            None => d,
        }
    }
}

/// The child lists after each of `xs`, in order, is moved before `a`.
pub open spec fn insert_each(ls: Seq<Seq<NodeId>>, a: NodeId, xs: Seq<NodeId>) -> Seq<Seq<NodeId>>
    decreases xs.len(),
{
    if xs.len() == 0 {
        ls
    } else {
        insert_before_lists(insert_each(ls, a, xs.drop_last()), a, xs.last())
    }
}

/// The child lists after `xs` is moved before each of `as_` in turn.
pub open spec fn insert_all(ls: Seq<Seq<NodeId>>, anchors: Seq<NodeId>, xs: Seq<NodeId>) -> Seq<Seq<NodeId>>
    decreases anchors.len(),
{
    if anchors.len() == 0 {
        ls
    } else {
        insert_each(insert_all(ls, anchors.drop_last(), xs), anchors.last(), xs)
    }
}

proof fn lemma_inserted_before_lists(t: &Tree<NodeData>, a: NodeId, x: NodeId)
    requires
        t.wf(),
    ensures
        t.inserted_before(a, x) == insert_before_lists(t.child_lists(), a, x),
{
    t.lemma_detached_is_drop(x);
    let ls = t.child_lists();
    if x.value < ls.len() && a != x && a.value < ls.len() {
        t.lemma_parent_by_lists(a);
        match t.node(a).parent {
            Some(p) => {
                assert(ls[p.value as int].contains(a));
                let q = parent_in(ls, a).unwrap();
                assert(ls[q].contains(a));
                assert(t.node(a).parent == Some(crate::dom_tree::nid(q)));
                assert(p.value == q);
            },
            None => {
                assert(parent_in(ls, a) is None);
            },
        }
    }
}

/// `new` is `old` with the payload of each of the first `n` selected nodes
/// changed as `r` relates its old and new payload, and nothing else changed.
pub open spec fn edited_by(
    old: &Tree<NodeData>,
    new: &Tree<NodeData>,
    sel: Seq<NodeRef>,
    n: int,
    r: spec_fn(NodeData, NodeData) -> bool,
) -> bool {
    &&& new.wf()
    &&& new.size() == old.size()
    &&& new.child_lists() == old.child_lists()
    &&& forall|j: int| 0 <= j < old.size() && !ref_ids(sel.subrange(0, n)).contains(nid(j)) ==> #[trigger] new.spec_nodes()[j].data == old.spec_nodes()[j].data
    &&& forall|k: int| 0 <= k < n && old.valid(#[trigger] sel[k].id) ==> r(data_at(old, sel[k].id), data_at(new, sel[k].id))
}

proof fn lemma_edited_by_start(t: &Tree<NodeData>, sel: Seq<NodeRef>, r: spec_fn(NodeData, NodeData) -> bool)
    requires
        t.wf(),
    ensures
        edited_by(t, t, sel, 0, r),
{
}

proof fn lemma_edited_by_step(
    t_start: &Tree<NodeData>,
    t0: &Tree<NodeData>,
    t1: &Tree<NodeData>,
    sel: Seq<NodeRef>,
    i: int,
    r: spec_fn(NodeData, NodeData) -> bool,
)
    requires
        0 <= i < sel.len(),
        edited_by(t_start, t0, sel, i, r),
        ref_ids(sel.subrange(0, i)).contains(sel[i].id) ==> t1 == t0,
        !ref_ids(sel.subrange(0, i)).contains(sel[i].id) ==> {
            &&& crate::node::payload_edit(t0, t1, sel[i].id)
            &&& t0.valid(sel[i].id) ==> r(data_at(t0, sel[i].id), data_at(t1, sel[i].id))
        },
    ensures
        edited_by(t_start, t1, sel, i + 1, r),
{
    let x = sel[i].id;
    let pre = ref_ids(sel.subrange(0, i));
    let post = ref_ids(sel.subrange(0, i + 1));
    assert(post =~= pre.push(x));
    crate::dom_tree::lemma_nid_range(t_start.size());
    if !pre.contains(x) && t0.valid(x) {
        assert(!pre.contains(nid(x.value as int)));
        assert(t0.spec_nodes()[x.value as int].data == t_start.spec_nodes()[x.value as int].data);
    }
    assert forall|j: int| 0 <= j < t_start.size() && !post.contains(nid(j)) implies #[trigger] t1.spec_nodes()[j].data == t_start.spec_nodes()[j].data by {
        assert(nid(j) != x) by {
            assert(post[i] == x);
        }
        if !pre.contains(nid(j)) {
            assert(t0.spec_nodes()[j].data == t_start.spec_nodes()[j].data);
        } else {
            assert(pre.contains(nid(j))) ;
            assert(post.contains(nid(j))) by {
                let m = choose|m: int| 0 <= m < pre.len() && pre[m] == nid(j);
                assert(post[m] == nid(j));
            }
        }
        if !pre.contains(x) {
            assert(nid(j).value == j);
            assert(j != x.value);
        }
    }
    assert forall|k: int| 0 <= k < i + 1 && t_start.valid(#[trigger] sel[k].id) implies r(data_at(t_start, sel[k].id), data_at(t1, sel[k].id)) by {
        let y = sel[k].id;
        if pre.contains(x) {
            if k == i {
                let m = choose|m: int| 0 <= m < pre.len() && pre[m] == x;
                assert(sel[m].id == x);
                assert(r(data_at(t_start, sel[m].id), data_at(t0, sel[m].id)));
            }
        } else {
            if k < i {
                assert(pre[k] == y);
                assert(y != x);
                assert(t1.spec_nodes()[y.value as int].data == t0.spec_nodes()[y.value as int].data);
            }
        }
    }
}

/// Whether the node at position `i` already occurs before it.
fn listed_before(nodes: &Vec<NodeRef>, i: usize) -> (r: bool)
    requires
        i < nodes@.len(),
    ensures
        r == ref_ids(nodes@.subrange(0, i as int)).contains(nodes@[i as int].id),
{
    let x = nodes[i].id;
    let mut k: usize = 0;
    while k < i
        invariant
            0 <= k <= i < nodes@.len(),
            x == nodes@[i as int].id,
            forall|m: int| 0 <= m < k ==> (#[trigger] nodes@[m]).id != x,
        decreases i - k,
    {
        if nodes[k].id.value == x.value {
            proof {
                assert(ref_ids(nodes@.subrange(0, i as int))[k as int] == x);
            }
            return true;
        }
        k = k + 1;
    }
    proof {
        if ref_ids(nodes@.subrange(0, i as int)).contains(x) {
            let m = choose|m: int| 0 <= m < i && ref_ids(nodes@.subrange(0, i as int))[m] == x;
            assert(nodes@[m].id == x);
        }
    }
    false
}

/// Where a new node goes relative to a selected node.
#[derive(Clone, Copy, Debug, PartialEq, Eq, Structural)]
pub enum Placement {
    FirstChild,
    LastChild,
    Before,
    After,
}

/// The child lists once a new node, stored in the next free slot, is placed
/// relative to `p`: first or last child of `p`, or right before or after `p`
/// under its parent. Before an unknown or parentless `p` the new node stays
/// detached; after one it becomes the root's last child.
pub open spec fn placed_lists(ls: Seq<Seq<NodeId>>, p: NodeId, how: Placement) -> Seq<Seq<NodeId>> {
    let x = nid(ls.len() as int);
    let l2 = ls.push(Seq::<NodeId>::empty());
    let known = p.value < ls.len();
    match how {
        Placement::FirstChild => if known { l2.update(p.value as int, seq![x] + ls[p.value as int]) } else { l2 },
        Placement::LastChild => if known { l2.update(p.value as int, ls[p.value as int].push(x)) } else { l2 },
        Placement::Before => if known && parent_in(ls, p) is Some {
            let q = parent_in(ls, p).unwrap();
            l2.update(q, ls[q].insert(ls[q].index_of(p), x))
        } else {
            l2
        },
        Placement::After => if known && parent_in(ls, p) is Some {
            let q = parent_in(ls, p).unwrap();
            l2.update(q, ls[q].insert(ls[q].index_of(p) + 1, x))
        } else {
            l2.update(0, ls[0].push(x))
        },
    }
}

/// The child lists after a new node is placed relative to each of `ps` in
/// turn.
pub open spec fn place_all(ls: Seq<Seq<NodeId>>, ps: Seq<NodeId>, how: Placement) -> Seq<Seq<NodeId>>
    decreases ps.len(),
{
    if ps.len() == 0 {
        ls
    } else {
        placed_lists(place_all(ls, ps.drop_last(), how), ps.last(), how)
    }
}

/// `new` is `old` with one new node per entry of `ps`, the `k`-th holding a
/// copy of `content` and placed relative to `ps[k]`; old payloads are kept.
pub open spec fn placed(old: &Tree<NodeData>, new: &Tree<NodeData>, ps: Seq<NodeId>, how: Placement, content: NodeData) -> bool {
    &&& new.wf()
    &&& new.size() == old.size() + ps.len()
    &&& old.same_data(new)
    &&& new.child_lists() == place_all(old.child_lists(), ps, how)
    &&& forall|k: int| 0 <= k < ps.len() ==> {
        let d = #[trigger] data_at(new, nid(old.size() + k));
        same_kind(content, d) && attrs_view(attr_list(d)) == attrs_view(attr_list(content))
    }
}

/// Under well-formedness a node's parent is read off the child lists.
proof fn lemma_parent_in(t: &Tree<NodeData>, a: NodeId)
    requires
        t.wf(),
    ensures
        t.valid(a) ==> (t.node(a).parent is Some <==> parent_in(t.child_lists(), a) is Some),
        t.valid(a) && t.node(a).parent is Some ==> parent_in(t.child_lists(), a) == Some(t.node(a).parent.unwrap().value as int),
{
    let ls = t.child_lists();
    if t.valid(a) {
        t.lemma_parent_by_lists(a);
        crate::dom_tree::lemma_nid_range(t.size());
        match t.node(a).parent {
            Some(p) => {
                t.lemma_parent_link(a);
                assert(ls[p.value as int].contains(a));
                let q = parent_in(ls, a).unwrap();
                assert(ls[q].contains(a));
                assert(t.node(a).parent == Some(nid(q)));
            },
            None => {},
        }
    }
}

proof fn lemma_placed_step(
    t_start: &Tree<NodeData>,
    t0: &Tree<NodeData>,
    t1: &Tree<NodeData>,
    ps: Seq<NodeId>,
    p: NodeId,
    how: Placement,
    content: NodeData,
)
    requires
        placed(t_start, t0, ps, how, content),
        t0.wf(),
        t0.valid(p) ==> (t0.node(p).parent is Some <==> parent_in(t0.child_lists(), p) is Some),
        t0.valid(p) && t0.node(p).parent is Some ==> parent_in(t0.child_lists(), p) == Some(t0.node(p).parent.unwrap().value as int),
        t1.wf(),
        t1.size() == t0.size() + 1,
        t0.same_data(t1),
        same_kind(content, data_at(t1, nid(t0.size()))),
        attrs_view(attr_list(data_at(t1, nid(t0.size())))) == attrs_view(attr_list(content)),
        t1.child_lists() == (match how {
            Placement::FirstChild => if t0.valid(p) {
                t0.child_lists().push(Seq::<NodeId>::empty()).update(p.value as int, seq![nid(t0.size())] + t0.kids(p))
            } else {
                t0.child_lists().push(Seq::<NodeId>::empty())
            },
            Placement::LastChild => if t0.valid(p) {
                t0.child_lists().push(Seq::<NodeId>::empty()).update(p.value as int, t0.kids(p).push(nid(t0.size())))
            } else {
                t0.child_lists().push(Seq::<NodeId>::empty())
            },
            Placement::Before => if t0.valid(p) && t0.node(p).parent is Some {
                let q = t0.node(p).parent.unwrap().value as int;
                let l = t0.child_lists()[q];
                t0.child_lists().push(Seq::<NodeId>::empty()).update(q, l.insert(l.index_of(p), nid(t0.size())))
            } else {
                t0.child_lists().push(Seq::<NodeId>::empty())
            },
            Placement::After => if t0.valid(p) && t0.node(p).parent is Some {
                let q = t0.node(p).parent.unwrap().value as int;
                let l = t0.child_lists()[q];
                t0.child_lists().push(Seq::<NodeId>::empty()).update(q, l.insert(l.index_of(p) + 1, nid(t0.size())))
            } else {
                t0.child_lists().push(Seq::<NodeId>::empty()).update(0, t0.kids(nid(0)).push(nid(t0.size())))
            },
        }),
    ensures
        placed(t_start, t1, ps.push(p), how, content),
{
    let ps2 = ps.push(p);
    assert(ps2.drop_last() =~= ps);
    assert(t_start.same_data(t1)) by {
        assert forall|i: int| 0 <= i < t_start.size() implies #[trigger] t1.spec_nodes()[i].data == t_start.spec_nodes()[i].data by {
            assert(t0.spec_nodes()[i].data == t_start.spec_nodes()[i].data);
            assert(t1.spec_nodes()[i].data == t0.spec_nodes()[i].data);
        }
    }
    assert forall|k: int| 0 <= k < ps2.len() implies {
        let d = #[trigger] data_at(t1, nid(t_start.size() + k));
        same_kind(content, d) && attrs_view(attr_list(d)) == attrs_view(attr_list(content))
    } by {
        if k < ps.len() {
            let j = t_start.size() + k;
            assert(data_at(t0, nid(j)) == data_at(t0, nid(t_start.size() + k)));
            crate::dom_tree::lemma_nid_range(t1.size());
            assert(t1.spec_nodes()[j].data == t0.spec_nodes()[j].data);
        }
    }
    assert(nid(t0.child_lists().len() as int) == nid(t0.size()));
}

/// The child lists once the content of a fragment with child lists `fls`
/// is grafted at `p`: at the end of `p`'s children, or right before `p`
/// under its parent. The fragment's slots follow the old ones. Nothing
/// changes for an unknown `p`, nor, before `p`, for a parentless one.
pub open spec fn graft_lists(ls: Seq<Seq<NodeId>>, p: NodeId, fls: Seq<Seq<NodeId>>, before: bool) -> Seq<Seq<NodeId>> {
    let off = ls.len() as int;
    let g = ls + fls.map_values(|l: Seq<NodeId>| shift_list(l, off));
    let w = off + TRUE_ROOT_ID;
    if p.value >= off {
        ls
    } else if !before {
        g.update(w, Seq::<NodeId>::empty()).update(p.value as int, g[p.value as int] + g[w])
    } else if parent_in(ls, p) is Some {
        let q = parent_in(ls, p).unwrap();
        let a = g[q].index_of(p);
        g.update(w, Seq::<NodeId>::empty()).update(q, g[q].subrange(0, a) + g[w] + g[q].subrange(a, g[q].len() as int))
    } else {
        ls
    }
}

/// The child lists after grafting the fragment at each of `ps` in turn.
pub open spec fn graft_all(ls: Seq<Seq<NodeId>>, ps: Seq<NodeId>, fls: Seq<Seq<NodeId>>, before: bool) -> Seq<Seq<NodeId>>
    decreases ps.len(),
{
    if ps.len() == 0 {
        ls
    } else {
        graft_lists(graft_all(ls, ps.drop_last(), fls, before), ps.last(), fls, before)
    }
}

/// The child lists after the children of each of `ps` are detached in turn.
pub open spec fn orphan_all(ls: Seq<Seq<NodeId>>, ps: Seq<NodeId>) -> Seq<Seq<NodeId>>
    decreases ps.len(),
{
    if ps.len() == 0 {
        ls
    } else {
        let l = orphan_all(ls, ps.drop_last());
        if ps.last().value < l.len() {
            l.update(ps.last().value as int, Seq::<NodeId>::empty())
        } else {
            l
        }
    }
}

/// How often `x` occurs in `s`.
pub open spec fn count_of(s: Seq<NodeId>, x: NodeId) -> nat
    decreases s.len(),
{
    if s.len() == 0 {
        0
    } else {
        count_of(s.drop_last(), x) + if s.last() == x { 1nat } else { 0nat }
    }
}

/// `t` written `n` times.
pub open spec fn repeat(t: Seq<char>, n: nat) -> Seq<char>
    decreases n,
{
    if n == 0 {
        Seq::empty()
    } else {
        repeat(t, (n - 1) as nat) + t
    }
}

/// `b` is payload `a` after `text` was appended `n` times: a text run grows,
/// anything else stays.
pub open spec fn text_grown_by(a: NodeData, b: NodeData, text: Seq<char>, n: nat) -> bool {
    match a {
        NodeData::Text(x) => (b matches NodeData::Text(y) && y.contents@ == x.contents@ + repeat(text, n) && y.attrs == x.attrs
            && (n == 0 ==> b == a)),
        _ => b == a,
    }
}

/// `new` is `old` with `text` appended to each text run once for each time
/// it occurs in `ids`, and nothing else changed.
pub open spec fn text_appended(old: &Tree<NodeData>, new: &Tree<NodeData>, ids: Seq<NodeId>, text: Seq<char>) -> bool {
    &&& new.wf()
    &&& new.size() == old.size()
    &&& new.child_lists() == old.child_lists()
    &&& forall|j: int| 0 <= j < old.size() ==> #[trigger] text_grown_by(old.spec_nodes()[j].data, new.spec_nodes()[j].data, text, count_of(ids, nid(j)))
}

/// The text of each selected node, one after another.
pub open spec fn texts_of_sel(t: &Tree<NodeData>, s: Seq<NodeRef>) -> Seq<char>
    decreases s.len(),
{
    if s.len() == 0 {
        Seq::empty()
    } else {
        texts_of_sel(t, s.drop_last()) + text_of(t, s.last().id, t.size() as nat)
    }
}

impl NodeData {
    /// A copy of the payload: same kind, name or text, and attributes.
    pub fn copy(&self) -> (r: NodeData)
        ensures
            same_kind(*self, r),
            attrs_view(attr_list(r)) == attrs_view(attr_list(*self)),
    {
        match self {
            NodeData::Document => NodeData::Document,
            NodeData::Element(e) => NodeData::Element(crate::node::Element { name: e.name.clone(), attrs: copy_attrs(&e.attrs) }),
            NodeData::Text(t) => NodeData::Text(crate::node::Text { contents: t.contents.clone(), attrs: copy_attrs(&t.attrs) }),
        }
    }
}

impl Selection {
    pub fn new(nodes: Vec<NodeRef>) -> (r: Selection)
        ensures
            r.nodes == nodes,
    {
        Selection { nodes }
    }

    pub fn nodes(&self) -> (r: &Vec<NodeRef>)
        ensures
            r == &self.nodes,
    {
        &self.nodes
    }

    /// The number of selected nodes.
    pub fn length(&self) -> (r: usize)
        ensures
            r == self.nodes@.len(),
    {
        self.nodes.len()
    }

    /// The number of selected nodes.
    pub fn size(&self) -> (r: usize)
        ensures
            r == self.nodes@.len(),
    {
        self.length()
    }

    /// Whether anything is selected.
    pub fn is_nonempty(&self) -> (r: bool)
        ensures
            r == (self.nodes@.len() > 0),
    {
        self.length() > 0
    }

    /// Detaches every selected node from its parent.
    pub fn remove(&mut self, tree: &mut Tree<NodeData>)
        requires
            old(tree).wf(),
        ensures
            links_edited(&*old(tree), &*final(tree)),
            final(self).nodes == old(self).nodes,
            final(tree).child_lists() == drop_all(old(tree).child_lists(), ref_ids(old(self).nodes@)),
            forall|k: int| 0 <= k < old(self).nodes@.len() && old(tree).valid(#[trigger] old(self).nodes@[k].id) ==> final(tree).node(old(self).nodes@[k].id).parent is None,
    {
        let mut i: usize = 0;
        proof {
            assert(ref_ids(self.nodes@.subrange(0, 0)) =~= Seq::<NodeId>::empty());
        }
        while i < self.nodes.len()
            invariant
                tree.wf(),
                links_edited(&*old(tree), &*tree),
                0 <= i <= self.nodes@.len(),
                tree.child_lists() == drop_all(old(tree).child_lists(), ref_ids(self.nodes@.subrange(0, i as int))),
                forall|k: int| 0 <= k < i && old(tree).valid(#[trigger] self.nodes@[k].id) ==> tree.node(self.nodes@[k].id).parent is None,
            decreases self.nodes@.len() - i,
        {
            let node = self.nodes[i];
            let ghost t0 = *tree;
            proof {
                t0.lemma_detached_is_drop(node.id);
            }
            node.remove_from_parent(tree);
            proof {
                let pre = ref_ids(self.nodes@.subrange(0, i as int));
                let post = ref_ids(self.nodes@.subrange(0, i + 1));
                assert(post.drop_last() =~= pre);
                assert(post.last() == node.id);
                assert forall|k: int| 0 <= k < i + 1 && old(tree).valid(#[trigger] self.nodes@[k].id) implies tree.node(self.nodes@[k].id).parent is None by {
                    let x = self.nodes@[k].id;
                    if x != node.id {
                        tree.lemma_wf_facts();
                        t0.lemma_wf_facts();
                        assert(tree.spec_nodes()[x.value as int].parent == t0.spec_nodes()[x.value as int].parent);
                    }
                }
            }
            i = i + 1;
        }
        proof {
            assert(self.nodes@.subrange(0, self.nodes@.len() as int) =~= self.nodes@);
        }
    }

    /// Moves the nodes of `sel`, in order, before each selected node in turn,
    /// then detaches the selected nodes.
    pub fn replace_with_selection(&mut self, tree: &mut Tree<NodeData>, sel: &Selection)
        requires
            old(tree).wf(),
        ensures
            links_edited(&*old(tree), &*final(tree)),
            final(self).nodes == old(self).nodes,
            final(tree).child_lists() == drop_all(
                insert_all(old(tree).child_lists(), ref_ids(old(self).nodes@), ref_ids(sel.nodes@)),
                ref_ids(old(self).nodes@),
            ),
            forall|k: int| 0 <= k < old(self).nodes@.len() && old(tree).valid(#[trigger] old(self).nodes@[k].id) ==> final(tree).node(old(self).nodes@[k].id).parent is None,
    {
        let mut i: usize = 0;
        proof {
            assert(ref_ids(self.nodes@.subrange(0, 0)) =~= Seq::<NodeId>::empty());
        }
        while i < self.nodes.len()
            invariant
                tree.wf(),
                links_edited(&*old(tree), &*tree),
                0 <= i <= self.nodes@.len(),
                tree.child_lists() == insert_all(old(tree).child_lists(), ref_ids(self.nodes@.subrange(0, i as int)), ref_ids(sel.nodes@)),
            decreases self.nodes@.len() - i,
        {
            let node = self.nodes[i];
            let ghost base = tree.child_lists();
            let mut j: usize = 0;
            proof {
                assert(ref_ids(sel.nodes@.subrange(0, 0)) =~= Seq::<NodeId>::empty());
            }
            while j < sel.nodes.len()
                invariant
                    tree.wf(),
                    links_edited(&*old(tree), &*tree),
                    0 <= j <= sel.nodes@.len(),
                    tree.child_lists() == insert_each(base, node.id, ref_ids(sel.nodes@.subrange(0, j as int))),
                decreases sel.nodes@.len() - j,
            {
                let x = sel.nodes[j].id;
                let ghost t0 = *tree;
                proof {
                    lemma_inserted_before_lists(&t0, node.id, x);
                }
                node.append_prev_sibling(tree, &x);
                proof {
                    let pre = ref_ids(sel.nodes@.subrange(0, j as int));
                    let post = ref_ids(sel.nodes@.subrange(0, j + 1));
                    assert(post.drop_last() =~= pre);
                    assert(post.last() == x);
                }
                j = j + 1;
            }
            proof {
                assert(sel.nodes@.subrange(0, sel.nodes@.len() as int) =~= sel.nodes@);
                let pre = ref_ids(self.nodes@.subrange(0, i as int));
                let post = ref_ids(self.nodes@.subrange(0, i + 1));
                assert(post.drop_last() =~= pre);
                assert(post.last() == node.id);
            }
            i = i + 1;
        }
        proof {
            assert(self.nodes@.subrange(0, self.nodes@.len() as int) =~= self.nodes@);
        }
        self.remove(tree);
    }

    /// Appends the nodes of `sel`, in order, to each selected node in turn.
    pub fn append_selection(&mut self, tree: &mut Tree<NodeData>, sel: &Selection)
        requires
            old(tree).wf(),
        ensures
            links_edited(&*old(tree), &*final(tree)),
            final(self).nodes == old(self).nodes,
            final(tree).child_lists() == append_all(old(tree).child_lists(), ref_ids(old(self).nodes@), ref_ids(sel.nodes@)),
    {
        let ghost cs = ref_ids(sel.nodes@);
        let mut i: usize = 0;
        proof {
            assert(ref_ids(self.nodes@.subrange(0, 0)) =~= Seq::<NodeId>::empty());
            assert(sel.nodes@.subrange(0, sel.nodes@.len() as int) =~= sel.nodes@);
        }
        while i < self.nodes.len()
            invariant
                tree.wf(),
                links_edited(&*old(tree), &*tree),
                0 <= i <= self.nodes@.len(),
                cs == ref_ids(sel.nodes@),
                tree.child_lists() == append_all(old(tree).child_lists(), ref_ids(self.nodes@.subrange(0, i as int)), cs),
            decreases self.nodes@.len() - i,
        {
            let node = self.nodes[i];
            let ghost base = tree.child_lists();
            let mut j: usize = 0;
            proof {
                assert(ref_ids(sel.nodes@.subrange(0, 0)) =~= Seq::<NodeId>::empty());
            }
            while j < sel.nodes.len()
                invariant
                    tree.wf(),
                    links_edited(&*old(tree), &*tree),
                    0 <= j <= sel.nodes@.len(),
                    tree.child_lists() == append_each(base, node.id, ref_ids(sel.nodes@.subrange(0, j as int))),
                decreases sel.nodes@.len() - j,
            {
                let c = sel.nodes[j].id;
                let ghost t0 = *tree;
                proof {
                    t0.lemma_detached_is_drop(c);
                }
                node.append_child(tree, &c);
                proof {
                    let pre = ref_ids(sel.nodes@.subrange(0, j as int));
                    let post = ref_ids(sel.nodes@.subrange(0, j + 1));
                    assert(post.drop_last() =~= pre);
                    assert(post.last() == c);
                }
                j = j + 1;
            }
            proof {
                assert(sel.nodes@.subrange(0, sel.nodes@.len() as int) =~= sel.nodes@);
                let pre = ref_ids(self.nodes@.subrange(0, i as int));
                let post = ref_ids(self.nodes@.subrange(0, i + 1));
                assert(post.drop_last() =~= pre);
                assert(post.last() == node.id);
            }
            i = i + 1;
        }
        proof {
            assert(self.nodes@.subrange(0, self.nodes@.len() as int) =~= self.nodes@);
        }
    }

    /// The value of attribute `name` of the first selected node.
    pub fn attr(&self, tree: &Tree<NodeData>, name: &str) -> (r: Option<AttrValue>)
        ensures
            r == (if self.nodes@.len() > 0 && tree.valid(self.nodes@[0].id) {
                lookup(attrs_view(attr_list(data_at(tree, self.nodes@[0].id))), name@)
            } else {
                None
            }),
    {
        if self.nodes.len() == 0 {
            return None;
        }
        self.nodes[0].attr(tree, name)
    }

    /// Like `attr`, with `default` when the attribute is missing.
    pub fn attr_or(&self, tree: &Tree<NodeData>, name: &str, default: AttrValue) -> (r: AttrValue)
        ensures
            r == (match self.attr_spec(tree, name@) {
                Some(v) => v,
                None => default,
            }),
    {
        match self.attr(tree, name) {
            Some(v) => v,
            None => default,
        }
    }

    pub open spec fn attr_spec(&self, tree: &Tree<NodeData>, name: Seq<char>) -> Option<AttrValue> {
        if self.nodes@.len() > 0 && tree.valid(self.nodes@[0].id) {
            lookup(attrs_view(attr_list(data_at(tree, self.nodes@[0].id))), name)
        } else {
            None
        }
    }

    /// The attributes of the first selected node.
    pub fn attrs(&self, tree: &Tree<NodeData>) -> (r: Option<Vec<Attrib>>)
        ensures
            match r {
                Some(v) => self.nodes@.len() > 0 && attrs_view(v@) == (if tree.valid(self.nodes@[0].id) {
                    attrs_view(attr_list(data_at(tree, self.nodes@[0].id)))
                } else {
                    Seq::empty()
                }),
                None => self.nodes@.len() == 0,
            },
    {
        if self.nodes.len() == 0 {
            return None;
        }
        Some(self.nodes[0].attrs(tree))
    }

    /// Sets attribute `name` to `val` on every selected element and text run.
    /// A node listed more than once is edited once: a repeat would change
    /// nothing.
    pub fn set_attr(&mut self, tree: &mut Tree<NodeData>, name: &str, val: AttrValue)
        requires
            old(tree).wf(),
        ensures
            final(self).nodes == old(self).nodes,
            edited_by(&*old(tree), &*final(tree), old(self).nodes@, old(self).nodes@.len() as int, |a: NodeData, b: NodeData| same_kind(a, b) && attrs_view(attr_list(b)) == (if a is Document { Seq::empty() } else { upserted(attrs_view(attr_list(a)), name@, val) })),
    {
        let ghost r = |a: NodeData, b: NodeData| same_kind(a, b) && attrs_view(attr_list(b)) == (if a is Document { Seq::empty() } else { upserted(attrs_view(attr_list(a)), name@, val) });
        let mut i: usize = 0;
        proof {
            lemma_edited_by_start(&*tree, self.nodes@, r);
        }
        while i < self.nodes.len()
            invariant
                0 <= i <= self.nodes@.len(),
                edited_by(&*old(tree), &*tree, self.nodes@, i as int, r),
                r == |a: NodeData, b: NodeData| same_kind(a, b) && attrs_view(attr_list(b)) == (if a is Document { Seq::empty() } else { upserted(attrs_view(attr_list(a)), name@, val) }),
            decreases self.nodes@.len() - i,
        {
            let node = self.nodes[i];
            let ghost t0 = *tree;
            if !listed_before(&self.nodes, i) {
                node.set_attr(tree, name, val.copy());
            }
            proof {
                lemma_edited_by_step(&*old(tree), &t0, &*tree, self.nodes@, i as int, r);
            }
            i = i + 1;
        }
    }

    /// Removes the attributes named `name` from every selected node.
    /// A node listed more than once is edited once: a repeat would change
    /// nothing.
    pub fn remove_attr(&mut self, tree: &mut Tree<NodeData>, name: &str)
        requires
            old(tree).wf(),
        ensures
            final(self).nodes == old(self).nodes,
            edited_by(&*old(tree), &*final(tree), old(self).nodes@, old(self).nodes@.len() as int, |a: NodeData, b: NodeData| same_kind(a, b) && attrs_view(attr_list(b)) == (if a is Document { Seq::empty() } else { without_name(attrs_view(attr_list(a)), name@) })),
    {
        let ghost r = |a: NodeData, b: NodeData| same_kind(a, b) && attrs_view(attr_list(b)) == (if a is Document { Seq::empty() } else { without_name(attrs_view(attr_list(a)), name@) });
        let mut i: usize = 0;
        proof {
            lemma_edited_by_start(&*tree, self.nodes@, r);
        }
        while i < self.nodes.len()
            invariant
                0 <= i <= self.nodes@.len(),
                edited_by(&*old(tree), &*tree, self.nodes@, i as int, r),
                r == |a: NodeData, b: NodeData| same_kind(a, b) && attrs_view(attr_list(b)) == (if a is Document { Seq::empty() } else { without_name(attrs_view(attr_list(a)), name@) }),
            decreases self.nodes@.len() - i,
        {
            let node = self.nodes[i];
            let ghost t0 = *tree;
            if !listed_before(&self.nodes, i) {
                node.remove_attr(tree, name);
            }
            proof {
                lemma_edited_by_step(&*old(tree), &t0, &*tree, self.nodes@, i as int, r);
            }
            i = i + 1;
        }
    }

    /// Adds the class names of `class` to every selected element and text run.
    /// A node listed more than once is edited once: a repeat would change
    /// nothing.
    pub fn add_class(&mut self, tree: &mut Tree<NodeData>, class: &str)
        requires
            old(tree).wf(),
        ensures
            final(self).nodes == old(self).nodes,
            edited_by(&*old(tree), &*final(tree), old(self).nodes@, old(self).nodes@.len() as int, |a: NodeData, b: NodeData| same_kind(a, b) && (!(a is Document) ==> classes_added(attr_list(a), attr_list(b), class@))),
    {
        let ghost r = |a: NodeData, b: NodeData| same_kind(a, b) && (!(a is Document) ==> classes_added(attr_list(a), attr_list(b), class@));
        let mut i: usize = 0;
        proof {
            lemma_edited_by_start(&*tree, self.nodes@, r);
        }
        while i < self.nodes.len()
            invariant
                0 <= i <= self.nodes@.len(),
                edited_by(&*old(tree), &*tree, self.nodes@, i as int, r),
                r == |a: NodeData, b: NodeData| same_kind(a, b) && (!(a is Document) ==> classes_added(attr_list(a), attr_list(b), class@)),
            decreases self.nodes@.len() - i,
        {
            let node = self.nodes[i];
            let ghost t0 = *tree;
            if !listed_before(&self.nodes, i) {
                node.add_class(tree, class);
            }
            proof {
                lemma_edited_by_step(&*old(tree), &t0, &*tree, self.nodes@, i as int, r);
            }
            i = i + 1;
        }
    }

    /// Removes the class names of `class` from every selected node.
    /// A node listed more than once is edited once: a repeat would change
    /// nothing.
    pub fn remove_class(&mut self, tree: &mut Tree<NodeData>, class: &str)
        requires
            old(tree).wf(),
        ensures
            final(self).nodes == old(self).nodes,
            edited_by(&*old(tree), &*final(tree), old(self).nodes@, old(self).nodes@.len() as int, |a: NodeData, b: NodeData| same_kind(a, b) && classes_removed(attr_list(a), attr_list(b), class@)),
    {
        let ghost r = |a: NodeData, b: NodeData| same_kind(a, b) && classes_removed(attr_list(a), attr_list(b), class@);
        let mut i: usize = 0;
        proof {
            lemma_edited_by_start(&*tree, self.nodes@, r);
        }
        while i < self.nodes.len()
            invariant
                0 <= i <= self.nodes@.len(),
                edited_by(&*old(tree), &*tree, self.nodes@, i as int, r),
                r == |a: NodeData, b: NodeData| same_kind(a, b) && classes_removed(attr_list(a), attr_list(b), class@),
            decreases self.nodes@.len() - i,
        {
            let node = self.nodes[i];
            let ghost t0 = *tree;
            if !listed_before(&self.nodes, i) {
                node.remove_class(tree, class);
            }
            proof {
                lemma_edited_by_step(&*old(tree), &t0, &*tree, self.nodes@, i as int, r);
            }
            i = i + 1;
        }
    }

    /// Appends `text` to every selected text run, once per time it is
    /// listed.
    pub fn append_text_contents(&mut self, tree: &mut Tree<NodeData>, text: &str)
        requires
            old(tree).wf(),
        ensures
            final(self).nodes == old(self).nodes,
            text_appended(&*old(tree), &*final(tree), ref_ids(old(self).nodes@), text@),
    {
        let mut i: usize = 0;
        proof {
            assert(ref_ids(self.nodes@.subrange(0, 0)) =~= Seq::<NodeId>::empty());
            assert forall|j: int| 0 <= j < tree.size() implies #[trigger] count_of(Seq::<NodeId>::empty(), nid(j)) == 0 by {}
        }
        while i < self.nodes.len()
            invariant
                0 <= i <= self.nodes@.len(),
                text_appended(&*old(tree), &*tree, ref_ids(self.nodes@.subrange(0, i as int)), text@),
            decreases self.nodes@.len() - i,
        {
            let node = self.nodes[i];
            let ghost t0 = *tree;
            node.append_text_contents(tree, text);
            proof {
                let pre = ref_ids(self.nodes@.subrange(0, i as int));
                let post = ref_ids(self.nodes@.subrange(0, i + 1));
                assert(post.drop_last() =~= pre);
                assert(post.last() == node.id);
                crate::dom_tree::lemma_nid_range(t0.size());
                assert forall|j: int| 0 <= j < old(tree).size() implies #[trigger] text_grown_by(
                    old(tree).spec_nodes()[j].data,
                    tree.spec_nodes()[j].data,
                    text@,
                    count_of(post, nid(j)),
                ) by {
                    assert(text_grown_by(old(tree).spec_nodes()[j].data, t0.spec_nodes()[j].data, text@, count_of(pre, nid(j))));
                    if j != node.id.value {
                        assert(nid(j) != node.id);
                        assert(tree.spec_nodes()[j].data == t0.spec_nodes()[j].data);
                    } else {
                        assert(nid(j) == node.id);
                        let c = count_of(pre, nid(j));
                        assert(repeat(text@, c + 1) == repeat(text@, c) + text@);
                        match old(tree).spec_nodes()[j].data {
                            NodeData::Text(a0) => {
                                assert(a0.contents@ + repeat(text@, c) + text@ =~= a0.contents@ + repeat(text@, c + 1));
                            },
                            _ => {},
                        }
                    }
                }
            }
            i = i + 1;
        }
        proof {
            assert(self.nodes@.subrange(0, self.nodes@.len() as int) =~= self.nodes@);
        }
    }

    /// Replaces the contents of every selected text run.
    pub fn set_text_contents(&mut self, tree: &mut Tree<NodeData>, text: &str)
        requires
            old(tree).wf(),
        ensures
            payloads_edited(&*old(tree), &*final(tree), old(self).nodes@),
            final(self).nodes == old(self).nodes,
            forall|k: int| 0 <= k < old(self).nodes@.len() && old(tree).valid(#[trigger] old(self).nodes@[k].id)
                && data_at(&*old(tree), old(self).nodes@[k].id) is Text ==> (data_at(&*final(tree), old(self).nodes@[k].id) matches NodeData::Text(b) && b.contents@ == text@),
    {
        let mut i: usize = 0;
        while i < self.nodes.len()
            invariant
                payloads_edited(&*old(tree), &*tree, self.nodes@),
                0 <= i <= self.nodes@.len(),
                forall|j: int| 0 <= j < old(tree).size() ==> (#[trigger] tree.spec_nodes()[j].data is Text) == (old(tree).spec_nodes()[j].data is Text),
                forall|k: int| 0 <= k < i && old(tree).valid(#[trigger] self.nodes@[k].id)
                    && data_at(&*old(tree), self.nodes@[k].id) is Text ==> (data_at(&*tree, self.nodes@[k].id) matches NodeData::Text(b) && b.contents@ == text@),
            decreases self.nodes@.len() - i,
        {
            let node = self.nodes[i];
            let ghost t0 = *tree;
            node.set_text_contents(tree, text);
            proof {
                lemma_edit_in_sel(&*old(tree), &t0, &*tree, self.nodes@, i as int);
                assert forall|j: int| 0 <= j < old(tree).size() implies (#[trigger] tree.spec_nodes()[j].data is Text) == (old(tree).spec_nodes()[j].data is Text) by {
                    assert(t0.spec_nodes()[j].data is Text == (old(tree).spec_nodes()[j].data is Text));
                    if j != node.id.value {
                        assert(tree.spec_nodes()[j].data == t0.spec_nodes()[j].data);
                    }
                }
                assert forall|k: int| 0 <= k < i + 1 && old(tree).valid(#[trigger] self.nodes@[k].id)
                    && data_at(&*old(tree), self.nodes@[k].id) is Text implies (data_at(&*tree, self.nodes@[k].id) matches NodeData::Text(b) && b.contents@ == text@) by {
                    let x = self.nodes@[k].id;
                    assert(t0.spec_nodes()[x.value as int].data is Text == (old(tree).spec_nodes()[x.value as int].data is Text));
                    if x != node.id {
                        assert(tree.spec_nodes()[x.value as int].data == t0.spec_nodes()[x.value as int].data);
                    }
                }
            }
            i = i + 1;
        }
    }

    /// Replaces the attributes of every selected text run with copies of
    /// `attrs`.
    pub fn set_text_attrs(&mut self, tree: &mut Tree<NodeData>, attrs: Vec<Attrib>)
        requires
            old(tree).wf(),
        ensures
            payloads_edited(&*old(tree), &*final(tree), old(self).nodes@),
            final(self).nodes == old(self).nodes,
            forall|k: int| 0 <= k < old(self).nodes@.len() && old(tree).valid(#[trigger] old(self).nodes@[k].id)
                && data_at(&*old(tree), old(self).nodes@[k].id) is Text ==> (data_at(&*final(tree), old(self).nodes@[k].id) matches NodeData::Text(b) && attrs_view(b.attrs@) == attrs_view(attrs@)),
    {
        let mut i: usize = 0;
        while i < self.nodes.len()
            invariant
                payloads_edited(&*old(tree), &*tree, self.nodes@),
                0 <= i <= self.nodes@.len(),
                forall|j: int| 0 <= j < old(tree).size() ==> (#[trigger] tree.spec_nodes()[j].data is Text) == (old(tree).spec_nodes()[j].data is Text),
                forall|k: int| 0 <= k < i && old(tree).valid(#[trigger] self.nodes@[k].id)
                    && data_at(&*old(tree), self.nodes@[k].id) is Text ==> (data_at(&*tree, self.nodes@[k].id) matches NodeData::Text(b) && attrs_view(b.attrs@) == attrs_view(attrs@)),
            decreases self.nodes@.len() - i,
        {
            let node = self.nodes[i];
            let ghost t0 = *tree;
            node.set_text_attrs(tree, copy_attrs(&attrs));
            proof {
                lemma_edit_in_sel(&*old(tree), &t0, &*tree, self.nodes@, i as int);
                assert forall|j: int| 0 <= j < old(tree).size() implies (#[trigger] tree.spec_nodes()[j].data is Text) == (old(tree).spec_nodes()[j].data is Text) by {
                    assert(t0.spec_nodes()[j].data is Text == (old(tree).spec_nodes()[j].data is Text));
                    if j != node.id.value {
                        assert(tree.spec_nodes()[j].data == t0.spec_nodes()[j].data);
                    }
                }
                assert forall|k: int| 0 <= k < i + 1 && old(tree).valid(#[trigger] self.nodes@[k].id)
                    && data_at(&*old(tree), self.nodes@[k].id) is Text implies (data_at(&*tree, self.nodes@[k].id) matches NodeData::Text(b) && attrs_view(b.attrs@) == attrs_view(attrs@)) by {
                    let x = self.nodes@[k].id;
                    assert(t0.spec_nodes()[x.value as int].data is Text == (old(tree).spec_nodes()[x.value as int].data is Text));
                    if x != node.id {
                        assert(tree.spec_nodes()[x.value as int].data == t0.spec_nodes()[x.value as int].data);
                    }
                }
            }
            i = i + 1;
        }
    }

    /// Gives every selected node, in order, a new first child holding a copy
    /// of `content`.
    pub fn append_first_child(&mut self, tree: &mut Tree<NodeData>, content: NodeData)
        requires
            old(tree).wf(),
            old(tree).size() + old(self).nodes@.len() < usize::MAX,
        ensures
            final(self).nodes == old(self).nodes,
            placed(&*old(tree), &*final(tree), ref_ids(old(self).nodes@), Placement::FirstChild, content),
    {
        let mut i: usize = 0;
        proof {
            assert(ref_ids(self.nodes@.subrange(0, 0)) =~= Seq::<NodeId>::empty());
            assert(old(tree).same_data(&*tree));
        }
        while i < self.nodes.len()
            invariant
                0 <= i <= self.nodes@.len(),
                old(tree).size() + self.nodes@.len() < usize::MAX,
                placed(&*old(tree), &*tree, ref_ids(self.nodes@.subrange(0, i as int)), Placement::FirstChild, content),
            decreases self.nodes@.len() - i,
        {
            let node = self.nodes[i];
            let ghost t0 = *tree;
            proof {
                lemma_parent_in(&t0, node.id);
            }
            node.append_first_child(tree, content.copy());
            proof {
                lemma_placed_step(&*old(tree), &t0, &*tree, ref_ids(self.nodes@.subrange(0, i as int)), node.id, Placement::FirstChild, content);
                assert(ref_ids(self.nodes@.subrange(0, i + 1)) =~= ref_ids(self.nodes@.subrange(0, i as int)).push(node.id));
            }
            i = i + 1;
        }
        proof {
            assert(self.nodes@.subrange(0, self.nodes@.len() as int) =~= self.nodes@);
        }
    }

    /// Gives every selected node, in order, a new last child holding a copy of
    /// `content`.
    pub fn append_last_child(&mut self, tree: &mut Tree<NodeData>, content: NodeData)
        requires
            old(tree).wf(),
            old(tree).size() + old(self).nodes@.len() < usize::MAX,
        ensures
            final(self).nodes == old(self).nodes,
            placed(&*old(tree), &*final(tree), ref_ids(old(self).nodes@), Placement::LastChild, content),
    {
        let mut i: usize = 0;
        proof {
            assert(ref_ids(self.nodes@.subrange(0, 0)) =~= Seq::<NodeId>::empty());
            assert(old(tree).same_data(&*tree));
        }
        while i < self.nodes.len()
            invariant
                0 <= i <= self.nodes@.len(),
                old(tree).size() + self.nodes@.len() < usize::MAX,
                placed(&*old(tree), &*tree, ref_ids(self.nodes@.subrange(0, i as int)), Placement::LastChild, content),
            decreases self.nodes@.len() - i,
        {
            let node = self.nodes[i];
            let ghost t0 = *tree;
            proof {
                lemma_parent_in(&t0, node.id);
            }
            node.append_last_child(tree, content.copy());
            proof {
                lemma_placed_step(&*old(tree), &t0, &*tree, ref_ids(self.nodes@.subrange(0, i as int)), node.id, Placement::LastChild, content);
                assert(ref_ids(self.nodes@.subrange(0, i + 1)) =~= ref_ids(self.nodes@.subrange(0, i as int)).push(node.id));
            }
            i = i + 1;
        }
        proof {
            assert(self.nodes@.subrange(0, self.nodes@.len() as int) =~= self.nodes@);
        }
    }

    /// Puts a new node holding a copy of `content` right before every selected
    /// node, in order.
    pub fn insert_before(&mut self, tree: &mut Tree<NodeData>, content: NodeData)
        requires
            old(tree).wf(),
            old(tree).size() + old(self).nodes@.len() < usize::MAX,
        ensures
            final(self).nodes == old(self).nodes,
            placed(&*old(tree), &*final(tree), ref_ids(old(self).nodes@), Placement::Before, content),
    {
        let mut i: usize = 0;
        proof {
            assert(ref_ids(self.nodes@.subrange(0, 0)) =~= Seq::<NodeId>::empty());
            assert(old(tree).same_data(&*tree));
        }
        while i < self.nodes.len()
            invariant
                0 <= i <= self.nodes@.len(),
                old(tree).size() + self.nodes@.len() < usize::MAX,
                placed(&*old(tree), &*tree, ref_ids(self.nodes@.subrange(0, i as int)), Placement::Before, content),
            decreases self.nodes@.len() - i,
        {
            let node = self.nodes[i];
            let ghost t0 = *tree;
            proof {
                lemma_parent_in(&t0, node.id);
            }
            node.insert_before(tree, content.copy());
            proof {
                lemma_placed_step(&*old(tree), &t0, &*tree, ref_ids(self.nodes@.subrange(0, i as int)), node.id, Placement::Before, content);
                assert(ref_ids(self.nodes@.subrange(0, i + 1)) =~= ref_ids(self.nodes@.subrange(0, i as int)).push(node.id));
            }
            i = i + 1;
        }
        proof {
            assert(self.nodes@.subrange(0, self.nodes@.len() as int) =~= self.nodes@);
        }
    }

    /// Puts a new node holding a copy of `content` right after every selected
    /// node, in order (under the root for a node without a parent).
    pub fn insert_after(&mut self, tree: &mut Tree<NodeData>, content: NodeData)
        requires
            old(tree).wf(),
            old(tree).size() + old(self).nodes@.len() < usize::MAX,
        ensures
            final(self).nodes == old(self).nodes,
            placed(&*old(tree), &*final(tree), ref_ids(old(self).nodes@), Placement::After, content),
    {
        let mut i: usize = 0;
        proof {
            assert(ref_ids(self.nodes@.subrange(0, 0)) =~= Seq::<NodeId>::empty());
            assert(old(tree).same_data(&*tree));
        }
        while i < self.nodes.len()
            invariant
                0 <= i <= self.nodes@.len(),
                old(tree).size() + self.nodes@.len() < usize::MAX,
                placed(&*old(tree), &*tree, ref_ids(self.nodes@.subrange(0, i as int)), Placement::After, content),
            decreases self.nodes@.len() - i,
        {
            let node = self.nodes[i];
            let ghost t0 = *tree;
            proof {
                lemma_parent_in(&t0, node.id);
            }
            node.insert_after(tree, content.copy());
            proof {
                lemma_placed_step(&*old(tree), &t0, &*tree, ref_ids(self.nodes@.subrange(0, i as int)), node.id, Placement::After, content);
                assert(ref_ids(self.nodes@.subrange(0, i + 1)) =~= ref_ids(self.nodes@.subrange(0, i as int)).push(node.id));
            }
            i = i + 1;
        }
        proof {
            assert(self.nodes@.subrange(0, self.nodes@.len() as int) =~= self.nodes@);
        }
    }

    /// Grafts a fresh copy of the content of the parsed fragment `fragment`
    /// at the end of each selected node's children, in order.
    pub fn append_tree(&mut self, tree: &mut Tree<NodeData>, fragment: &Tree<NodeData>)
        requires
            old(tree).wf(),
            fragment.wf(),
            Tree::<NodeData>::has_wrapper(fragment),
            old(tree).size() + old(self).nodes@.len() * fragment.size() <= usize::MAX,
        ensures
            final(self).nodes == old(self).nodes,
            final(tree).wf(),
            old(tree).same_data(&*final(tree)),
            final(tree).child_lists() == graft_all(old(tree).child_lists(), ref_ids(old(self).nodes@), fragment.child_lists(), false),
    {
        self.graft_each(tree, fragment, false);
    }

    /// Grafts a fresh copy of the content of the parsed fragment `fragment`
    /// right before each selected node, then detaches the selected nodes.
    pub fn replace_with_tree(&mut self, tree: &mut Tree<NodeData>, fragment: &Tree<NodeData>)
        requires
            old(tree).wf(),
            fragment.wf(),
            Tree::<NodeData>::has_wrapper(fragment),
            old(tree).size() + old(self).nodes@.len() * fragment.size() <= usize::MAX,
        ensures
            final(self).nodes == old(self).nodes,
            final(tree).wf(),
            old(tree).same_data(&*final(tree)),
            final(tree).child_lists() == drop_all(
                graft_all(old(tree).child_lists(), ref_ids(old(self).nodes@), fragment.child_lists(), true),
                ref_ids(old(self).nodes@),
            ),
    {
        self.graft_each(tree, fragment, true);
        let ghost t1 = *tree;
        self.remove(tree);
        proof {
            assert(old(tree).same_data(&*tree)) by {
                assert forall|i: int| 0 <= i < old(tree).size() implies #[trigger] tree.spec_nodes()[i].data == old(tree).spec_nodes()[i].data by {
                    assert(t1.spec_nodes()[i].data == old(tree).spec_nodes()[i].data);
                    assert(tree.spec_nodes()[i].data == t1.spec_nodes()[i].data);
                }
            }
        }
    }

    /// Detaches the children of each selected node, then grafts a fresh copy
    /// of the content of `fragment` under each.
    pub fn set_tree(&mut self, tree: &mut Tree<NodeData>, fragment: &Tree<NodeData>)
        requires
            old(tree).wf(),
            fragment.wf(),
            Tree::<NodeData>::has_wrapper(fragment),
            old(tree).size() + old(self).nodes@.len() * fragment.size() <= usize::MAX,
        ensures
            final(self).nodes == old(self).nodes,
            final(tree).wf(),
            old(tree).same_data(&*final(tree)),
            final(tree).child_lists() == graft_all(
                orphan_all(old(tree).child_lists(), ref_ids(old(self).nodes@)),
                ref_ids(old(self).nodes@),
                fragment.child_lists(),
                false,
            ),
    {
        let mut i: usize = 0;
        proof {
            assert(ref_ids(self.nodes@.subrange(0, 0)) =~= Seq::<NodeId>::empty());
        }
        while i < self.nodes.len()
            invariant
                0 <= i <= self.nodes@.len(),
                tree.wf(),
                tree.size() == old(tree).size(),
                old(tree).same_data(&*tree),
                tree.child_lists() == orphan_all(old(tree).child_lists(), ref_ids(self.nodes@.subrange(0, i as int))),
            decreases self.nodes@.len() - i,
        {
            let node = self.nodes[i];
            let ghost t0 = *tree;
            node.remove_children(tree);
            proof {
                assert(ref_ids(self.nodes@.subrange(0, i + 1)).drop_last() =~= ref_ids(self.nodes@.subrange(0, i as int)));
                assert(old(tree).same_data(&*tree)) by {
                    assert forall|k: int| 0 <= k < old(tree).size() implies #[trigger] tree.spec_nodes()[k].data == old(tree).spec_nodes()[k].data by {
                        assert(t0.spec_nodes()[k].data == old(tree).spec_nodes()[k].data);
                        assert(tree.spec_nodes()[k].data == t0.spec_nodes()[k].data);
                    }
                }
            }
            i = i + 1;
        }
        proof {
            assert(self.nodes@.subrange(0, self.nodes@.len() as int) =~= self.nodes@);
        }
        let ghost t1 = *tree;
        self.graft_each(tree, fragment, false);
        proof {
            assert(old(tree).same_data(&*tree)) by {
                assert forall|k: int| 0 <= k < old(tree).size() implies #[trigger] tree.spec_nodes()[k].data == old(tree).spec_nodes()[k].data by {
                    assert(t1.spec_nodes()[k].data == old(tree).spec_nodes()[k].data);
                    assert(tree.spec_nodes()[k].data == t1.spec_nodes()[k].data);
                }
            }
        }
    }

    fn graft_each(&self, tree: &mut Tree<NodeData>, fragment: &Tree<NodeData>, before: bool)
        requires
            old(tree).wf(),
            fragment.wf(),
            Tree::<NodeData>::has_wrapper(fragment),
            old(tree).size() + self.nodes@.len() * fragment.size() <= usize::MAX,
        ensures
            final(tree).wf(),
            old(tree).same_data(&*final(tree)),
            final(tree).child_lists() == graft_all(old(tree).child_lists(), ref_ids(self.nodes@), fragment.child_lists(), before),
    {
        let mut i: usize = 0;
        proof {
            assert(ref_ids(self.nodes@.subrange(0, 0)) =~= Seq::<NodeId>::empty());
        }
        while i < self.nodes.len()
            invariant
                0 <= i <= self.nodes@.len(),
                tree.wf(),
                fragment.wf(),
                Tree::<NodeData>::has_wrapper(fragment),
                old(tree).size() + self.nodes@.len() * fragment.size() <= usize::MAX,
                tree.size() <= old(tree).size() + i * fragment.size(),
                old(tree).same_data(&*tree),
                tree.child_lists() == graft_all(old(tree).child_lists(), ref_ids(self.nodes@.subrange(0, i as int)), fragment.child_lists(), before),
            decreases self.nodes@.len() - i,
        {
            let node = self.nodes[i];
            let copy = fragment.duplicate();
            let ghost t0 = *tree;
            proof {
                crate::dom_tree::lemma_nid_range(fragment.size());
                assert(copy.spec_nodes()[1].parent == fragment.spec_nodes()[1].parent);
                assert(copy.spec_nodes()[2].parent == fragment.spec_nodes()[2].parent);
                assert(i * fragment.size() + fragment.size() <= self.nodes@.len() * fragment.size()) by (nonlinear_arith)
                    requires i < self.nodes@.len(), fragment.size() >= 0;
                lemma_parent_in(&t0, node.id);
            }
            if before {
                node.append_prev_siblings_from_another_tree(tree, copy);
            } else {
                node.append_children_from_another_tree(tree, copy);
            }
            proof {
                let ls = t0.child_lists();
                let off = ls.len() as int;
                assert(t0.grafted(&copy) =~= ls + fragment.child_lists().map_values(|l: Seq<NodeId>| shift_list(l, off)));
                assert(ref_ids(self.nodes@.subrange(0, i + 1)).drop_last() =~= ref_ids(self.nodes@.subrange(0, i as int)));
                assert(ref_ids(self.nodes@.subrange(0, i + 1)).last() == node.id);
                assert((i + 1) * fragment.size() == i * fragment.size() + fragment.size()) by (nonlinear_arith);
                assert(old(tree).same_data(&*tree)) by {
                    assert forall|k: int| 0 <= k < old(tree).size() implies #[trigger] tree.spec_nodes()[k].data == old(tree).spec_nodes()[k].data by {
                        assert(t0.spec_nodes()[k].data == old(tree).spec_nodes()[k].data);
                        assert(tree.spec_nodes()[k].data == t0.spec_nodes()[k].data);
                    }
                }
            }
            i = i + 1;
        }
        proof {
            assert(self.nodes@.subrange(0, self.nodes@.len() as int) =~= self.nodes@);
        }
    }

    /// Whether some selected node has class `class`.
    pub fn has_class(&self, tree: &Tree<NodeData>, class: &str) -> (r: bool)
        ensures
            r == exists|k: int| 0 <= k < self.nodes@.len() && tree.valid(#[trigger] self.nodes@[k].id)
                && class_words(attrs_view(attr_list(data_at(tree, self.nodes@[k].id)))).contains(class@),
    {
        let mut i: usize = 0;
        while i < self.nodes.len()
            invariant
                0 <= i <= self.nodes@.len(),
                forall|k: int| 0 <= k < i ==> !(tree.valid(#[trigger] self.nodes@[k].id)
                    && class_words(attrs_view(attr_list(data_at(tree, self.nodes@[k].id)))).contains(class@)),
            decreases self.nodes@.len() - i,
        {
            if self.nodes[i].has_class(tree, class) {
                return true;
            }
            i = i + 1;
        }
        false
    }

    /// The text of every selected node, one after another.
    pub fn text(&self, tree: &Tree<NodeData>) -> (r: String)
        requires
            tree.wf(),
        ensures
            r@ == texts_of_sel(tree, self.nodes@),
    {
        let mut s = String::new();
        let mut i: usize = 0;
        proof {
            assert(self.nodes@.subrange(0, 0) =~= Seq::<NodeRef>::empty());
            assert(s@ =~= texts_of_sel(tree, self.nodes@.subrange(0, 0)));
        }
        while i < self.nodes.len()
            invariant
                tree.wf(),
                0 <= i <= self.nodes@.len(),
                s@ == texts_of_sel(tree, self.nodes@.subrange(0, i as int)),
            decreases self.nodes@.len() - i,
        {
            let t = self.nodes[i].text(tree);
            s.append(t.as_str());
            proof {
                assert(self.nodes@.subrange(0, i + 1).drop_last() =~= self.nodes@.subrange(0, i as int));
            }
            i = i + 1;
        }
        proof {
            assert(self.nodes@.subrange(0, self.nodes@.len() as int) =~= self.nodes@);
        }
        s
    }
}

proof fn lemma_edit_in_sel(t_start: &Tree<NodeData>, t0: &Tree<NodeData>, t1: &Tree<NodeData>, sel: Seq<NodeRef>, i: int)
    requires
        payloads_edited(t_start, t0, sel),
        crate::node::payload_edit(t0, t1, sel[i].id),
        0 <= i < sel.len(),
    ensures
        payloads_edited(t_start, t1, sel),
{
    assert forall|j: int| 0 <= j < t_start.size() && !ref_ids(sel).contains(crate::dom_tree::nid(j)) implies #[trigger] t1.spec_nodes()[j].data == t_start.spec_nodes()[j].data by {
        assert(ref_ids(sel)[i] == sel[i].id);
        if j == sel[i].id.value {
            assert(crate::dom_tree::nid(j) == sel[i].id);
        }
        assert(t0.spec_nodes()[j].data == t_start.spec_nodes()[j].data);
    }
}

} // verus!
