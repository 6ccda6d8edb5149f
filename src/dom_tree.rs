use vstd::prelude::*;

verus! {

/// A stable handle into a tree's node storage. Handles are dense indices and
/// are never reused.
#[derive(Clone, Copy, Debug, PartialEq, Eq, Hash, Structural)]
pub struct NodeId {
    pub value: usize,
}

impl NodeId {
    pub fn new(value: usize) -> (r: NodeId)
        ensures
            r.value == value,
    {
        NodeId { value }
    }
}

/// The handle of the node stored at index `i`.
pub open spec fn nid(i: int) -> NodeId {
    NodeId { value: i as usize }
}

/// One storage slot: the node's links and its payload.
#[derive(Clone, Debug)]
pub struct InnerNode<T> {
    pub id: Option<NodeId>,
    pub parent: Option<NodeId>,
    pub prev_sibling: Option<NodeId>,
    pub next_sibling: Option<NodeId>,
    pub first_child: Option<NodeId>,
    pub last_child: Option<NodeId>,
    pub data: T,
}

impl<T> InnerNode<T> {
    pub fn new(id: NodeId, data: T) -> (r: Self)
        ensures
            r.id == Some(id),
            r.parent is None,
            r.prev_sibling is None,
            r.next_sibling is None,
            r.first_child is None,
            r.last_child is None,
            r.data == data,
    {
        InnerNode {
            id: Some(id),
            parent: None,
            prev_sibling: None,
            next_sibling: None,
            first_child: None,
            last_child: None,
            data,
        }
    }
}

/// The first/last child links of a node agree with its child list.
pub open spec fn heads_ok<T>(nd: InnerNode<T>, l: Seq<NodeId>) -> bool {
    &&& l.no_duplicates()
    &&& if l.len() == 0 {
        nd.first_child is None && nd.last_child is None
    } else {
        nd.first_child == Some(l[0]) && nd.last_child == Some(l.last())
    }
}

/// The `k`-th child of node `i` points back to `i` and to its neighbours.
pub open spec fn child_ok<T>(ns: Seq<InnerNode<T>>, ls: Seq<Seq<NodeId>>, i: int, k: int) -> bool {
    let c = ls[i][k];
    &&& c.value < ns.len()
    &&& ns[c.value as int].parent == Some(nid(i))
    &&& ns[c.value as int].prev_sibling == (if k == 0 {
        None
    } else {
        Some(ls[i][k - 1])
    })
    &&& ns[c.value as int].next_sibling == (if k + 1 == ls[i].len() {
        None
    } else {
        Some(ls[i][k + 1])
    })
}

/// A node's parent lists it as a child; a node without parent has no siblings.
pub open spec fn parent_ok<T>(ns: Seq<InnerNode<T>>, ls: Seq<Seq<NodeId>>, c: int) -> bool {
    match ns[c].parent {
        Some(p) => p.value < ns.len() && ls[p.value as int].contains(nid(c)),
        None => ns[c].prev_sibling is None && ns[c].next_sibling is None,
    }
}

/// Well-formedness of node storage `ns` against the child lists `ls`.
pub open spec fn tree_wf<T>(ns: Seq<InnerNode<T>>, ls: Seq<Seq<NodeId>>) -> bool {
    &&& ns.len() == ls.len()
    &&& 1 <= ns.len() <= usize::MAX
    &&& ns[0].parent is None
    &&& forall|i: int| 0 <= i < ns.len() ==> (#[trigger] ns[i]).id == Some(nid(i))
    &&& forall|i: int| 0 <= i < ns.len() ==> heads_ok(ns[i], #[trigger] ls[i])
    &&& forall|i: int, k: int|
        0 <= i < ns.len() && 0 <= k < ls[i].len() ==> #[trigger] child_ok(ns, ls, i, k)
    &&& forall|c: int| 0 <= c < ns.len() ==> #[trigger] parent_ok(ns, ls, c)
    &&& forall|c: int| 0 <= c < ns.len() ==> (#[trigger] ns[c]).parent != Some(nid(c))
}

/// The child lists after node `id` has been taken out of its parent's list.
pub open spec fn lists_without<T>(ns: Seq<InnerNode<T>>, ls: Seq<Seq<NodeId>>, id: NodeId) -> Seq<Seq<NodeId>> {
    if id.value < ns.len() && ns[id.value as int].parent is Some {
        let p = ns[id.value as int].parent.unwrap().value as int;
        ls.update(p, ls[p].remove(ls[p].index_of(id)))
    } else {
        ls
    }
}

/// Small handles map back to their index.
pub proof fn lemma_nid_range(n: int)
    requires
        n <= usize::MAX + 1,
    ensures
        forall|x: int| 0 <= x < n ==> (#[trigger] nid(x)).value == x,
{
}

/// The slot of a parsed fragment that holds its content.
pub const TRUE_ROOT_ID: usize = 2;

/// A link moved up by `off` slots.
pub open spec fn shift(o: Option<NodeId>, off: int) -> Option<NodeId> {
    match o {
        Some(x) => Some(nid(x.value + off)),
        None => None,
    }
}

/// A child list moved up by `off` slots.
pub open spec fn shift_list(l: Seq<NodeId>, off: int) -> Seq<NodeId> {
    l.map_values(|x: NodeId| nid(x.value + off))
}

/// A node whose links are all moved up by `off` slots.
pub open spec fn shift_node<T>(nd: InnerNode<T>, off: int) -> InnerNode<T> {
    InnerNode {
        id: shift(nd.id, off),
        parent: shift(nd.parent, off),
        prev_sibling: shift(nd.prev_sibling, off),
        next_sibling: shift(nd.next_sibling, off),
        first_child: shift(nd.first_child, off),
        last_child: shift(nd.last_child, off),
        data: nd.data,
    }
}

/// Adds `offset` to a link.
fn fix_id(id: Option<NodeId>, offset: usize) -> (r: Option<NodeId>)
    requires
        id is Some ==> id.unwrap().value + offset <= usize::MAX,
    ensures
        r == shift(id, offset as int),
{
    match id {
        Some(old_id) => Some(NodeId::new(old_id.value + offset)),
        None => None,
    }
}

/// The nodes met by following `next_sibling` links from `from`, at most
/// `fuel` of them.
pub open spec fn walk_next<T>(ns: Seq<InnerNode<T>>, from: Option<NodeId>, fuel: nat) -> Seq<NodeId>
    decreases fuel,
{
    if fuel == 0 {
        Seq::empty()
    } else {
        match from {
            Some(x) => if x.value < ns.len() {
                seq![x] + walk_next(ns, ns[x.value as int].next_sibling, (fuel - 1) as nat)
            } else {
                Seq::empty()
            },
            None => Seq::empty(),
        }
    }
}

/// The nodes met by following `prev_sibling` links from `from`, at most
/// `fuel` of them.
pub open spec fn walk_prev<T>(ns: Seq<InnerNode<T>>, from: Option<NodeId>, fuel: nat) -> Seq<NodeId>
    decreases fuel,
{
    if fuel == 0 {
        Seq::empty()
    } else {
        match from {
            Some(x) => if x.value < ns.len() {
                seq![x] + walk_prev(ns, ns[x.value as int].prev_sibling, (fuel - 1) as nat)
            } else {
                Seq::empty()
            },
            None => Seq::empty(),
        }
    }
}

/// Holds of every handle but `x`.
pub open spec fn not_id(x: NodeId) -> spec_fn(NodeId) -> bool {
    |c: NodeId| c != x
}

/// The child lists with `x` taken out of each.
pub open spec fn drop_id(ls: Seq<Seq<NodeId>>, x: NodeId) -> Seq<Seq<NodeId>> {
    ls.map_values(|l: Seq<NodeId>| l.filter(not_id(x)))
}

proof fn lemma_filter_absent(l: Seq<NodeId>, x: NodeId)
    requires
        !l.contains(x),
    ensures
        l.filter(not_id(x)) == l,
    decreases l.len(),
{
    reveal_with_fuel(Seq::filter, 1);
    if l.len() > 0 {
        assert(!l.drop_last().contains(x)) by {
            if l.drop_last().contains(x) {
                let i = choose|i: int| 0 <= i < l.drop_last().len() && l.drop_last()[i] == x;
                assert(l[i] == x);
            }
        }
        lemma_filter_absent(l.drop_last(), x);
        assert(l.last() != x) by {
            assert(l[l.len() - 1] == l.last());
        }
        assert(l.drop_last().push(l.last()) =~= l);
    }
}

proof fn lemma_filter_remove_once(l: Seq<NodeId>, x: NodeId, k: int)
    requires
        0 <= k < l.len(),
        l[k] == x,
        l.no_duplicates(),
    ensures
        l.filter(not_id(x)) == l.remove(k),
    decreases l.len(),
{
    reveal_with_fuel(Seq::filter, 1);
    let d = l.drop_last();
    if k == l.len() - 1 {
        assert(!d.contains(x)) by {
            if d.contains(x) {
                let i = choose|i: int| 0 <= i < d.len() && d[i] == x;
                assert(l[i] == l[k]);
            }
        }
        lemma_filter_absent(d, x);
        assert(l.remove(k) =~= d);
    } else {
        assert(d.no_duplicates()) by {
            assert forall|a: int, b: int| 0 <= a < d.len() && 0 <= b < d.len() && a != b implies d[a] != d[b] by {
                assert(d[a] == l[a]);
                assert(d[b] == l[b]);
            }
        }
        lemma_filter_remove_once(d, x, k);
        assert(l.last() != x) by {
            assert(l[l.len() - 1] == l.last());
        }
        assert(d.remove(k).push(l.last()) =~= l.remove(k));
    }
}

/// A child reference: a handle to read or edit a node through its tree.
#[derive(Clone, Copy, Debug, PartialEq, Eq, Structural)]
pub struct NodeRef {
    pub id: NodeId,
}

pub open spec fn ref_ids(v: Seq<NodeRef>) -> Seq<NodeId> {
    v.map_values(|r: NodeRef| r.id)
}

pub open spec fn opt_ref(o: Option<NodeId>) -> Option<NodeRef> {
    match o {
        Some(x) => Some(NodeRef { id: x }),
        None => None,
    }
}

/// Changing one payload keeps a well-formed storage well-formed.
proof fn lemma_payload_only<T>(ns0: Seq<InnerNode<T>>, ns: Seq<InnerNode<T>>, ls: Seq<Seq<NodeId>>, i: int)
    requires
        tree_wf(ns0, ls),
        0 <= i < ns0.len(),
        ns.len() == ns0.len(),
        forall|j: int| 0 <= j < ns0.len() && j != i ==> #[trigger] ns[j] == ns0[j],
        ns[i] == (InnerNode { data: ns[i].data, ..ns0[i] }),
    ensures
        tree_wf(ns, ls),
{
    assert forall|j: int| 0 <= j < ns.len() implies #[trigger] ns[j] == (InnerNode { data: ns[j].data, ..ns0[j] }) by {}
    assert forall|a: int, k: int| 0 <= a < ns.len() && 0 <= k < ls[a].len() implies #[trigger] child_ok(ns, ls, a, k) by {
        assert(child_ok(ns0, ls, a, k));
    }
    assert forall|c: int| 0 <= c < ns.len() implies #[trigger] parent_ok(ns, ls, c) by {
        assert(parent_ok(ns0, ls, c));
    }
    assert forall|a: int| 0 <= a < ns.len() implies heads_ok(ns[a], #[trigger] ls[a]) by {
        assert(heads_ok(ns0[a], ls[a]));
    }
    assert forall|a: int| 0 <= a < ns.len() implies (#[trigger] ns[a]).id == Some(nid(a)) by {
        assert(ns0[a].id == Some(nid(a)));
    }
    assert forall|c: int| 0 <= c < ns.len() implies (#[trigger] ns[c]).parent != Some(nid(c)) by {
        assert(ns0[c].parent != Some(nid(c)));
    }
}

/// Nodes with the links of `ns0` are well-formed against the same lists,
/// whatever their payloads.
proof fn lemma_links_only<T>(ns0: Seq<InnerNode<T>>, ns: Seq<InnerNode<T>>, ls: Seq<Seq<NodeId>>)
    requires
        tree_wf(ns0, ls),
        ns.len() == ns0.len(),
        forall|j: int| 0 <= j < ns0.len() ==> #[trigger] ns[j] == (InnerNode { data: ns[j].data, ..ns0[j] }),
    ensures
        tree_wf(ns, ls),
{
    assert forall|a: int, k: int| 0 <= a < ns.len() && 0 <= k < ls[a].len() implies #[trigger] child_ok(ns, ls, a, k) by {
        assert(child_ok(ns0, ls, a, k));
        let c = ls[a][k].value as int;
        assert(ns[c] == (InnerNode { data: ns[c].data, ..ns0[c] }));
    }
    assert forall|c: int| 0 <= c < ns.len() implies #[trigger] parent_ok(ns, ls, c) by {
        assert(parent_ok(ns0, ls, c));
        assert(ns[c] == (InnerNode { data: ns[c].data, ..ns0[c] }));
    }
    assert forall|a: int| 0 <= a < ns.len() implies heads_ok(ns[a], #[trigger] ls[a]) by {
        assert(heads_ok(ns0[a], ls[a]));
        assert(ns[a] == (InnerNode { data: ns[a].data, ..ns0[a] }));
    }
    assert forall|a: int| 0 <= a < ns.len() implies (#[trigger] ns[a]).id == Some(nid(a)) by {
        assert(ns0[a].id == Some(nid(a)));
        assert(ns[a] == (InnerNode { data: ns[a].data, ..ns0[a] }));
    }
    assert forall|c: int| 0 <= c < ns.len() implies (#[trigger] ns[c]).parent != Some(nid(c)) by {
        assert(ns0[c].parent != Some(nid(c)));
        assert(ns[c] == (InnerNode { data: ns[c].data, ..ns0[c] }));
    }
}

/// An arena of nodes linked into a tree. Slot 0 is the root. A clone copies
/// every slot.
#[derive(Clone)]
pub struct Tree<T> {
    nodes: Vec<InnerNode<T>>,
    children: Ghost<Seq<Seq<NodeId>>>,
}

impl<T> Tree<T> {
    /// The stored nodes.
    pub closed spec fn spec_nodes(&self) -> Seq<InnerNode<T>> {
        self.nodes@
    }

    /// The child list of every node, in sibling order.
    pub closed spec fn child_lists(&self) -> Seq<Seq<NodeId>> {
        self.children@
    }

    /// Well-formedness: one child list per node, the root present, and the
    /// links in agreement with the child lists.
    pub open spec fn wf(&self) -> bool {
        &&& self.child_lists().len() == self.size()
        &&& 1 <= self.size() <= usize::MAX
        &&& self.links_wf()
    }

    /// The links agree with the child lists (see `tree_wf`).
    pub closed spec fn links_wf(&self) -> bool {
        tree_wf(self.nodes@, self.children@)
    }

    pub open spec fn size(&self) -> int {
        self.spec_nodes().len() as int
    }

    pub open spec fn valid(&self, id: NodeId) -> bool {
        id.value < self.size()
    }

    pub open spec fn node(&self, id: NodeId) -> InnerNode<T> {
        self.spec_nodes()[id.value as int]
    }

    pub open spec fn kids(&self, id: NodeId) -> Seq<NodeId> {
        self.child_lists()[id.value as int]
    }

    /// Every node keeps its payload.
    pub open spec fn same_data(&self, other: &Tree<T>) -> bool {
        &&& self.size() <= other.size()
        &&& forall|i: int| 0 <= i < self.size() ==> #[trigger] other.spec_nodes()[i].data == self.spec_nodes()[i].data
    }

    /// A well-formed tree has a child list per node and at least the root.
    pub proof fn lemma_wf_facts(&self)
        requires
            self.wf(),
        ensures
            self.spec_nodes().len() == self.child_lists().len(),
            self.size() >= 1,
    {
    }

    pub fn root_id(&self) -> (r: NodeId)
        ensures
            r.value == 0,
    {
        NodeId { value: 0 }
    }

    pub fn new(root: T) -> (r: Self)
        ensures
            r.wf(),
            r.size() == 1,
            r.spec_nodes()[0].data == root,
            r.kids(nid(0)) == Seq::<NodeId>::empty(),
    {
        let mut nodes: Vec<InnerNode<T>> = Vec::new();
        nodes.push(InnerNode::new(NodeId::new(0), root));
        let ghost lists = seq![Seq::<NodeId>::empty()];
        let r = Tree { nodes, children: Ghost(lists) };
        assert(parent_ok(r.nodes@, r.children@, 0));
        r
    }

    /// The child lists once `id` is detached from its parent.
    pub open spec fn detached(&self, id: NodeId) -> Seq<Seq<NodeId>> {
        lists_without(self.spec_nodes(), self.child_lists(), id)
    }

    /// Appends a new detached node holding `data` and returns its handle.
    pub fn create_node(&mut self, data: T) -> (r: NodeId)
        requires
            old(self).wf(),
            old(self).size() < usize::MAX,
        ensures
            final(self).wf(),
            r.value == old(self).size(),
            final(self).size() == old(self).size() + 1,
            old(self).same_data(&*final(self)),
            final(self).spec_nodes()[r.value as int].data == data,
            final(self).spec_nodes()[r.value as int].parent is None,
            final(self).child_lists() == old(self).child_lists().push(Seq::<NodeId>::empty()),
            forall|j: int| 0 <= j < old(self).size() ==> #[trigger] final(self).spec_nodes()[j] == old(self).spec_nodes()[j],
    {
        let ghost ns0 = self.nodes@;
        let ghost ls0 = self.children@;
        let id = NodeId::new(self.nodes.len());
        self.nodes.push(InnerNode::new(id, data));
        self.children = Ghost(self.children@.push(Seq::<NodeId>::empty()));
        proof {
            let ns = self.nodes@;
            let ls = self.children@;
            assert forall|i: int, k: int| 0 <= i < ns.len() && 0 <= k < ls[i].len() implies #[trigger] child_ok(ns, ls, i, k) by {
                assert(i < ns0.len());
                assert(child_ok(ns0, ls0, i, k));
            }
            assert forall|c: int| 0 <= c < ns.len() implies #[trigger] parent_ok(ns, ls, c) by {
                if c < ns0.len() {
                    assert(parent_ok(ns0, ls0, c));
                    if ns[c].parent is Some {
                        let p = ns[c].parent.unwrap().value as int;
                        assert(ls[p] == ls0[p]);
                    }
                }
            }
            assert forall|i: int| 0 <= i < ns.len() implies heads_ok(ns[i], #[trigger] ls[i]) by {
                if i < ns0.len() {
                    assert(heads_ok(ns0[i], ls0[i]));
                }
            }
        }
        id
    }

    /// Takes node `id` out of its parent's child list and clears its parent
    /// and sibling links; its own children stay. Does nothing to a detached or
    /// unknown node.
    pub fn remove_from_parent(&mut self, id: &NodeId)
        requires
            old(self).wf(),
        ensures
            final(self).wf(),
            final(self).size() == old(self).size(),
            old(self).same_data(&*final(self)),
            final(self).child_lists() == old(self).detached(*id),
            old(self).valid(*id) ==> final(self).node(*id).parent is None,
            forall|j: int| 0 <= j < old(self).size() && j != id.value ==> #[trigger] final(self).spec_nodes()[j].parent == old(self).spec_nodes()[j].parent,
    {
        let i = id.value;
        if i >= self.nodes.len() {
            return;
        }
        let parent_id = self.nodes[i].parent;
        let prev_sibling_id = self.nodes[i].prev_sibling;
        let next_sibling_id = self.nodes[i].next_sibling;
        let ghost ns0 = self.nodes@;
        let ghost ls0 = self.children@;
        match parent_id {
            None => {
                proof {
                    assert(parent_ok(ns0, ls0, i as int));
                }
                return;
            },
            Some(p) => {
                proof {
                    assert(parent_ok(ns0, ls0, i as int));
                    assert(nid(i as int) == *id);
                    assert(heads_ok(ns0[p.value as int], ls0[p.value as int]));
                }
                let ghost pl = ls0[p.value as int];
                let ghost k = pl.index_of(*id);
                proof {
                    assert(child_ok(ns0, ls0, p.value as int, k));
                }
                self.nodes[i].parent = None;
                self.nodes[i].next_sibling = None;
                self.nodes[i].prev_sibling = None;
                let pi = p.value;
                if self.nodes[pi].first_child == Some(*id) {
                    self.nodes[pi].first_child = next_sibling_id;
                }
                if self.nodes[pi].last_child == Some(*id) {
                    self.nodes[pi].last_child = prev_sibling_id;
                }
                if let Some(pv) = prev_sibling_id {
                    proof {
                        assert(child_ok(ns0, ls0, p.value as int, k - 1));
                    }
                    self.nodes[pv.value].next_sibling = next_sibling_id;
                }
                if let Some(nx) = next_sibling_id {
                    proof {
                        assert(child_ok(ns0, ls0, p.value as int, k + 1));
                    }
                    self.nodes[nx.value].prev_sibling = prev_sibling_id;
                }
                self.children = Ghost(ls0.update(p.value as int, pl.remove(k)));
                proof {
                    self.lemma_remove_wf(ns0, ls0, i as int, p.value as int, k);
                }
            },
        }
    }

    proof fn lemma_remove_wf(&self, ns0: Seq<InnerNode<T>>, ls0: Seq<Seq<NodeId>>, i: int, p: int, k: int)
        requires
            tree_wf(ns0, ls0),
            0 <= i < ns0.len(),
            0 <= p < ns0.len(),
            0 <= k < ls0[p].len(),
            ls0[p][k] == nid(i),
            ns0[i].parent == Some(nid(p)),
            self.children@ == ls0.update(p, ls0[p].remove(k)),
            self.nodes@.len() == ns0.len(),
            ns0.len() <= usize::MAX,
            self.nodes@[i] == (InnerNode { parent: None, prev_sibling: None, next_sibling: None, ..ns0[i] }),
            self.nodes@[p].first_child == (if k == 0 { if k + 1 == ls0[p].len() { None } else { Some(ls0[p][k + 1]) } } else { ns0[p].first_child }),
            self.nodes@[p].last_child == (if k + 1 == ls0[p].len() { if k == 0 { None } else { Some(ls0[p][k - 1]) } } else { ns0[p].last_child }),
            forall|j: int| 0 <= j < ns0.len() && j != i ==> (#[trigger] self.nodes@[j]).parent == ns0[j].parent && self.nodes@[j].id == ns0[j].id && self.nodes@[j].data == ns0[j].data,
            forall|j: int| 0 <= j < ns0.len() && j != p ==> (#[trigger] self.nodes@[j]).first_child == ns0[j].first_child && self.nodes@[j].last_child == ns0[j].last_child,
            forall|j: int| 0 <= j < ns0.len() && j != i && (k == 0 || j != ls0[p][k - 1].value) ==> (#[trigger] self.nodes@[j]).next_sibling == ns0[j].next_sibling,
            forall|j: int| 0 <= j < ns0.len() && j != i && (k + 1 == ls0[p].len() || j != ls0[p][k + 1].value) ==> (#[trigger] self.nodes@[j]).prev_sibling == ns0[j].prev_sibling,
            k > 0 ==> self.nodes@[ls0[p][k - 1].value as int].next_sibling == (if k + 1 == ls0[p].len() { None } else { Some(ls0[p][k + 1]) }),
            k + 1 < ls0[p].len() ==> self.nodes@[ls0[p][k + 1].value as int].prev_sibling == (if k == 0 { None } else { Some(ls0[p][k - 1]) }),
        ensures
            tree_wf(self.nodes@, self.children@),
    {
        let ns = self.nodes@;
        let ls = self.children@;
        let pl = ls0[p];
        let npl = ls[p];
        lemma_nid_range(ns.len() as int);
        assert(npl.len() == pl.len() - 1);
        assert forall|j: int| 0 <= j < npl.len() implies #[trigger] npl[j] == (if j < k { pl[j] } else { pl[j + 1] }) by {}
        assert(heads_ok(ns0[p], pl));
        assert forall|i2: int| 0 <= i2 < ns.len() implies heads_ok(ns[i2], #[trigger] ls[i2]) by {
            assert(heads_ok(ns0[i2], ls0[i2]));
            if i2 == p {
                assert forall|a: int, b: int| 0 <= a < b < npl.len() implies npl[a] != npl[b] by {
                    assert(npl[a] == (if a < k { pl[a] } else { pl[a + 1] }));
                    assert(npl[b] == (if b < k { pl[b] } else { pl[b + 1] }));
                }
            }
        }
        assert forall|i2: int, k2: int| 0 <= i2 < ns.len() && 0 <= k2 < ls[i2].len() implies #[trigger] child_ok(ns, ls, i2, k2) by {
            if i2 == p {
                let j = if k2 < k { k2 } else { k2 + 1 };
                assert(npl[k2] == pl[j]);
                assert(child_ok(ns0, ls0, p, j));
                assert(pl[j] != pl[k]);
                if k2 > 0 {
                    assert(npl[k2 - 1] == (if k2 - 1 < k { pl[k2 - 1] } else { pl[k2] }));
                }
                if k2 + 1 < npl.len() {
                    assert(npl[k2 + 1] == (if k2 + 1 < k { pl[k2 + 1] } else { pl[k2 + 2] }));
                }
                if k > 0 {
                    assert(child_ok(ns0, ls0, p, k - 1));
                }
                if k + 1 < pl.len() {
                    assert(child_ok(ns0, ls0, p, k + 1));
                }
            } else {
                assert(child_ok(ns0, ls0, i2, k2));
                if k > 0 {
                    assert(child_ok(ns0, ls0, p, k - 1));
                }
                if k + 1 < pl.len() {
                    assert(child_ok(ns0, ls0, p, k + 1));
                }
            }
        }
        assert forall|c: int| 0 <= c < ns.len() implies #[trigger] parent_ok(ns, ls, c) by {
            assert(parent_ok(ns0, ls0, c));
            if c != i {
                if ns0[c].parent is Some {
                    let q = ns0[c].parent.unwrap().value as int;
                    if q == p {
                        let j = pl.index_of(nid(c));
                        assert(pl[j] == nid(c));
                        assert(j != k);
                        let j2 = if j < k { j } else { j - 1 };
                        assert(npl[j2] == nid(c));
                    }
                } else {
                    if k > 0 {
                        assert(child_ok(ns0, ls0, p, k - 1));
                    }
                    if k + 1 < pl.len() {
                        assert(child_ok(ns0, ls0, p, k + 1));
                    }
                }
            }
        }
        assert forall|c: int| 0 <= c < ns.len() implies (#[trigger] ns[c]).parent != Some(nid(c)) by {
            assert(ns0[c].parent != Some(nid(c)));
        }
        assert forall|i2: int| 0 <= i2 < ns.len() implies (#[trigger] ns[i2]).id == Some(nid(i2)) by {
            assert(ns0[i2].id == Some(nid(i2)));
        }
    }

    /// Links the detached node `c` into the child list of `p` at position `pos`,
    /// between `prev` and `next`.
    fn link_at(&mut self, p: NodeId, c: NodeId, prev: Option<NodeId>, next: Option<NodeId>, Ghost(pos): Ghost<int>)
        requires
            old(self).wf(),
            old(self).valid(p),
            old(self).valid(c),
            c.value != 0,
            c != p,
            old(self).node(c).parent is None,
            0 <= pos <= old(self).kids(p).len(),
            prev == (if pos == 0 { None } else { Some(old(self).kids(p)[pos - 1]) }),
            next == (if pos == old(self).kids(p).len() { None } else { Some(old(self).kids(p)[pos]) }),
        ensures
            final(self).wf(),
            final(self).size() == old(self).size(),
            old(self).same_data(&*final(self)),
            final(self).child_lists() == old(self).child_lists().update(p.value as int, old(self).kids(p).insert(pos, c)),
    {
        let ghost ns0 = self.nodes@;
        let ghost ls0 = self.children@;
        proof {
            lemma_nid_range(ns0.len() as int);
            assert(parent_ok(ns0, ls0, c.value as int));
            assert(heads_ok(ns0[p.value as int], ls0[p.value as int]));
            if pos > 0 {
                assert(child_ok(ns0, ls0, p.value as int, pos - 1));
            }
            if pos < ls0[p.value as int].len() {
                assert(child_ok(ns0, ls0, p.value as int, pos));
            }
        }
        self.nodes[c.value].parent = Some(p);
        self.nodes[c.value].prev_sibling = prev;
        self.nodes[c.value].next_sibling = next;
        match prev {
            Some(pv) => {
                self.nodes[pv.value].next_sibling = Some(c);
            },
            None => {
                self.nodes[p.value].first_child = Some(c);
            },
        }
        match next {
            Some(nx) => {
                self.nodes[nx.value].prev_sibling = Some(c);
            },
            None => {
                self.nodes[p.value].last_child = Some(c);
            },
        }
        self.children = Ghost(ls0.update(p.value as int, ls0[p.value as int].insert(pos, c)));
        proof {
            self.lemma_link_wf(ns0, ls0, p.value as int, c.value as int, pos);
        }
    }

    proof fn lemma_link_wf(&self, ns0: Seq<InnerNode<T>>, ls0: Seq<Seq<NodeId>>, p: int, c: int, pos: int)
        requires
            tree_wf(ns0, ls0),
            ns0.len() <= usize::MAX,
            0 <= p < ns0.len(),
            0 < c < ns0.len(),
            c != p,
            ns0[c].parent is None,
            0 <= pos <= ls0[p].len(),
            self.children@ == ls0.update(p, ls0[p].insert(pos, nid(c))),
            self.nodes@.len() == ns0.len(),
            self.nodes@[c] == (InnerNode {
                parent: Some(nid(p)),
                prev_sibling: if pos == 0 { None } else { Some(ls0[p][pos - 1]) },
                next_sibling: if pos == ls0[p].len() { None } else { Some(ls0[p][pos]) },
                ..ns0[c]
            }),
            self.nodes@[p].first_child == (if pos == 0 { Some(nid(c)) } else { ns0[p].first_child }),
            self.nodes@[p].last_child == (if pos == ls0[p].len() { Some(nid(c)) } else { ns0[p].last_child }),
            forall|j: int| 0 <= j < ns0.len() && j != c ==> (#[trigger] self.nodes@[j]).parent == ns0[j].parent && self.nodes@[j].id == ns0[j].id && self.nodes@[j].data == ns0[j].data,
            forall|j: int| 0 <= j < ns0.len() && j != p && j != c ==> (#[trigger] self.nodes@[j]).first_child == ns0[j].first_child && self.nodes@[j].last_child == ns0[j].last_child,
            forall|j: int| 0 <= j < ns0.len() && j != c && (pos == 0 || j != ls0[p][pos - 1].value) ==> (#[trigger] self.nodes@[j]).next_sibling == ns0[j].next_sibling,
            forall|j: int| 0 <= j < ns0.len() && j != c && (pos == ls0[p].len() || j != ls0[p][pos].value) ==> (#[trigger] self.nodes@[j]).prev_sibling == ns0[j].prev_sibling,
            pos > 0 ==> self.nodes@[ls0[p][pos - 1].value as int].next_sibling == Some(nid(c)),
            pos < ls0[p].len() ==> self.nodes@[ls0[p][pos].value as int].prev_sibling == Some(nid(c)),
        ensures
            tree_wf(self.nodes@, self.children@),
    {
        let ns = self.nodes@;
        let ls = self.children@;
        let pl = ls0[p];
        let npl = ls[p];
        lemma_nid_range(ns.len() as int);
        assert(parent_ok(ns0, ls0, c));
        assert(heads_ok(ns0[p], pl));
        assert(npl.len() == pl.len() + 1);
        assert forall|j: int| 0 <= j < npl.len() implies #[trigger] npl[j] == (if j < pos { pl[j] } else if j == pos { nid(c) } else { pl[j - 1] }) by {}
        // `c` is in no child list
        assert forall|i2: int, k2: int| 0 <= i2 < ns0.len() && 0 <= k2 < ls0[i2].len() implies #[trigger] ls0[i2][k2] != nid(c) by {
            assert(child_ok(ns0, ls0, i2, k2));
        }
        if pos > 0 {
            assert(child_ok(ns0, ls0, p, pos - 1));
        }
        if pos < pl.len() {
            assert(child_ok(ns0, ls0, p, pos));
        }
        assert forall|i2: int| 0 <= i2 < ns.len() implies heads_ok(ns[i2], #[trigger] ls[i2]) by {
            assert(heads_ok(ns0[i2], ls0[i2]));
            if i2 == p {
                assert forall|a: int, b: int| 0 <= a < b < npl.len() implies npl[a] != npl[b] by {
                    assert(npl[a] == (if a < pos { pl[a] } else if a == pos { nid(c) } else { pl[a - 1] }));
                    assert(npl[b] == (if b < pos { pl[b] } else if b == pos { nid(c) } else { pl[b - 1] }));
                    if a != pos && b != pos {
                        let a0 = if a < pos { a } else { a - 1 };
                        assert(pl[a0] != nid(c));
                    } else if a == pos {
                        assert(pl[b - 1] != nid(c));
                    } else {
                        let a0 = if a < pos { a } else { a - 1 };
                        assert(pl[a0] != nid(c));
                    }
                }
                if npl.len() > 0 && pos < pl.len() {
                    assert(npl.last() == pl.last());
                }
            }
        }
        assert forall|i2: int, k2: int| 0 <= i2 < ns.len() && 0 <= k2 < ls[i2].len() implies #[trigger] child_ok(ns, ls, i2, k2) by {
            if i2 == p {
                if k2 != pos {
                    let j = if k2 < pos { k2 } else { k2 - 1 };
                    assert(npl[k2] == pl[j]);
                    assert(child_ok(ns0, ls0, p, j));
                    if k2 > 0 {
                        assert(npl[k2 - 1] == (if k2 - 1 < pos { pl[k2 - 1] } else if k2 - 1 == pos { nid(c) } else { pl[k2 - 2] }));
                    }
                    if k2 + 1 < npl.len() {
                        assert(npl[k2 + 1] == (if k2 + 1 < pos { pl[k2 + 1] } else if k2 + 1 == pos { nid(c) } else { pl[k2] }));
                    }
                } else {
                    if k2 > 0 {
                        assert(npl[k2 - 1] == pl[pos - 1]);
                    }
                    if k2 + 1 < npl.len() {
                        assert(npl[k2 + 1] == pl[pos]);
                    }
                }
            } else {
                assert(child_ok(ns0, ls0, i2, k2));
                assert(ls0[i2][k2] != nid(c));
            }
        }
        assert forall|x: int| 0 <= x < ns.len() implies #[trigger] parent_ok(ns, ls, x) by {
            assert(parent_ok(ns0, ls0, x));
            if x == c {
                assert(npl[pos] == nid(c));
            } else if ns0[x].parent is Some {
                let q = ns0[x].parent.unwrap().value as int;
                if q == p {
                    let j = pl.index_of(nid(x));
                    assert(pl[j] == nid(x));
                    let j2 = if j < pos { j } else { j + 1 };
                    assert(npl[j2] == nid(x));
                }
            }
        }
        assert forall|x: int| 0 <= x < ns.len() implies (#[trigger] ns[x]).parent != Some(nid(x)) by {
            assert(ns0[x].parent != Some(nid(x)));
        }
        assert forall|i2: int| 0 <= i2 < ns.len() implies (#[trigger] ns[i2]).id == Some(nid(i2)) by {
            assert(ns0[i2].id == Some(nid(i2)));
        }
    }

    /// Makes `new_child` the last child of `id`, detaching it first. Does
    /// nothing when either handle is unknown, when they are equal, or when
    /// `new_child` is the root.
    pub fn append_child_of(&mut self, id: &NodeId, new_child: &NodeId)
        requires
            old(self).wf(),
        ensures
            final(self).wf(),
            final(self).size() == old(self).size(),
            old(self).same_data(&*final(self)),
            final(self).child_lists() == (if old(self).valid(*id) && old(self).valid(*new_child) && *id != *new_child && new_child.value != 0 {
                let d = old(self).detached(*new_child);
                d.update(id.value as int, d[id.value as int].push(*new_child))
            } else {
                old(self).child_lists()
            }),
    {
        let n = self.nodes.len();
        if id.value >= n || new_child.value >= n || id.value == new_child.value || new_child.value == 0 {
            return;
        }
        self.remove_from_parent(new_child);
        let ghost ls1 = self.children@;
        proof {
            assert(heads_ok(self.nodes@[id.value as int], ls1[id.value as int]));
        }
        let last = self.nodes[id.value].last_child;
        self.link_at(*id, *new_child, last, None, Ghost(ls1[id.value as int].len() as int));
        proof {
            assert(ls1[id.value as int].insert(ls1[id.value as int].len() as int, *new_child) =~= ls1[id.value as int].push(*new_child));
        }
    }

    /// Creates a node holding `data` and makes it the last child of `id`.
    pub fn append_child_data_of(&mut self, id: &NodeId, data: T)
        requires
            old(self).wf(),
            old(self).size() < usize::MAX,
        ensures
            final(self).wf(),
            final(self).size() == old(self).size() + 1,
            old(self).same_data(&*final(self)),
            final(self).spec_nodes()[old(self).size()].data == data,
            final(self).child_lists() == (if old(self).valid(*id) {
                old(self).child_lists().push(Seq::<NodeId>::empty()).update(id.value as int, old(self).kids(*id).push(nid(old(self).size())))
            } else {
                old(self).child_lists().push(Seq::<NodeId>::empty())
            }),
    {
        let c = self.create_node(data);
        proof {
            assert(self.detached(c) == self.child_lists());
        }
        self.append_child_of(id, &c);
    }

    /// The child lists once `new_sibling` has been moved right before `id`.
    pub open spec fn inserted_before(&self, id: NodeId, new_sibling: NodeId) -> Seq<Seq<NodeId>> {
        if !self.valid(new_sibling) || id == new_sibling {
            self.child_lists()
        } else {
            let d = self.detached(new_sibling);
            if self.valid(id) && self.node(id).parent is Some && new_sibling.value != 0 && self.node(id).parent != Some(new_sibling) {
                let q = self.node(id).parent.unwrap().value as int;
                d.update(q, d[q].insert(d[q].index_of(id), new_sibling))
            } else {
                d
            }
        }
    }

    /// Detaches `new_sibling` and links it right before `id` under the same
    /// parent. When `id` is unknown or has no parent, or when the move would
    /// make a node its own parent or give the root a parent, `new_sibling` is
    /// only detached.
    pub fn append_prev_sibling_of(&mut self, id: &NodeId, new_sibling: &NodeId)
        requires
            old(self).wf(),
        ensures
            final(self).wf(),
            final(self).size() == old(self).size(),
            old(self).same_data(&*final(self)),
            final(self).child_lists() == old(self).inserted_before(*id, *new_sibling),
    {
        let n = self.nodes.len();
        if new_sibling.value >= n || id.value == new_sibling.value {
            return;
        }
        self.remove_from_parent(new_sibling);
        if id.value >= n || new_sibling.value == 0 {
            return;
        }
        let parent_id = self.nodes[id.value].parent;
        let ghost ns1 = self.nodes@;
        let ghost ls1 = self.children@;
        match parent_id {
            None => {},
            Some(q) => {
                if q.value == new_sibling.value {
                    return;
                }
                proof {
                    lemma_nid_range(ns1.len() as int);
                    assert(parent_ok(ns1, ls1, id.value as int));
                    assert(nid(id.value as int) == *id);
                }
                let ghost ql = ls1[q.value as int];
                let ghost k = ql.index_of(*id);
                proof {
                    assert(child_ok(ns1, ls1, q.value as int, k));
                    if k > 0 {
                        assert(child_ok(ns1, ls1, q.value as int, k - 1));
                    }
                }
                let prev = self.nodes[id.value].prev_sibling;
                self.link_at(q, *new_sibling, prev, Some(*id), Ghost(k));
            },
        }
    }

    /// Moves the children of `from`, in order, into the child list of `q` at
    /// position `pos`, right before `next`.
    fn move_children(&mut self, from: NodeId, q: NodeId, next: Option<NodeId>, Ghost(pos): Ghost<int>)
        requires
            old(self).wf(),
            old(self).valid(from),
            old(self).valid(q),
            from != q,
            old(self).node(q).parent != Some(from),
            0 <= pos <= old(self).kids(q).len(),
            next == (if pos == old(self).kids(q).len() { None } else { Some(old(self).kids(q)[pos]) }),
        ensures
            final(self).wf(),
            final(self).size() == old(self).size(),
            old(self).same_data(&*final(self)),
            final(self).child_lists() == old(self).child_lists().update(from.value as int, Seq::<NodeId>::empty()).update(
                q.value as int,
                old(self).kids(q).subrange(0, pos) + old(self).kids(from) + old(self).kids(q).subrange(pos, old(self).kids(q).len() as int),
            ),
    {
        let ghost ns0 = self.nodes@;
        let ghost ls0 = self.children@;
        let ghost fl = ls0[from.value as int];
        let ghost ql = ls0[q.value as int];
        let ghost f = from.value as int;
        let ghost qi = q.value as int;
        proof {
            lemma_nid_range(ns0.len() as int);
            assert(heads_ok(ns0[qi], ql));
            assert(heads_ok(ns0[f], fl));
            if pos < ql.len() {
                assert(child_ok(ns0, ls0, qi, pos));
            }
            if pos > 0 && pos < ql.len() {
                assert(child_ok(ns0, ls0, qi, pos - 1));
            }
            assert forall|k: int| 0 <= k < fl.len() implies #[trigger] fl[k] != q by {
                assert(child_ok(ns0, ls0, f, k));
            }
        }
        let mut prev: Option<NodeId> = match next {
            Some(a) => self.nodes[a.value].prev_sibling,
            None => self.nodes[q.value].last_child,
        };
        let ghost mut j: int = 0;
        proof {
            assert(fl.subrange(0, fl.len() as int) =~= fl);
            assert(ql.subrange(0, pos) + fl.subrange(0, 0) + ql.subrange(pos, ql.len() as int) =~= ql);
            assert(ls0 =~= ls0.update(f, fl.subrange(0, fl.len() as int)).update(qi, ql.subrange(0, pos) + fl.subrange(0, 0) + ql.subrange(pos, ql.len() as int)));
        }
        while self.nodes[from.value].first_child.is_some()
            invariant
                self.wf(),
                self.size() == old(self).size(),
                old(self).same_data(&*self),
                0 <= j <= fl.len(),
                ls0 == old(self).child_lists(),
                fl == ls0[f],
                ql == ls0[qi],
                f == from.value,
                qi == q.value,
                f != qi,
                0 <= f < ls0.len(),
                0 <= qi < ls0.len(),
                0 <= pos <= ql.len(),
                forall|k: int| 0 <= k < fl.len() ==> #[trigger] fl[k] != q,
                self.child_lists() == ls0.update(f, fl.subrange(j, fl.len() as int)).update(
                    qi,
                    ql.subrange(0, pos) + fl.subrange(0, j) + ql.subrange(pos, ql.len() as int),
                ),
                prev == (if pos + j == 0 { None } else { Some(self.child_lists()[qi][pos + j - 1]) }),
                next == (if pos == ql.len() { None } else { Some(ql[pos]) }),
            decreases fl.len() - j,
        {
            let ghost ns1 = self.nodes@;
            let ghost ls1 = self.children@;
            proof {
                assert(heads_ok(ns1[f], ls1[f]));
                assert(ls1[f] == fl.subrange(j, fl.len() as int));
            }
            let c = self.nodes[from.value].first_child.unwrap();
            proof {
                assert(c == fl[j]);
                assert(ls1[f][0] == c);
                assert(ls1[f].index_of(c) == 0) by {
                    let k = ls1[f].index_of(c);
                    assert(ls1[f].contains(c));
                    assert(ls1[f][k] == c);
                }
                assert(child_ok(ns1, ls1, f, 0));
                assert(c.value != 0);
            }
            self.remove_from_parent(&c);
            let ghost ls2 = self.children@;
            proof {
                assert(ls2[f] =~= fl.subrange(j + 1, fl.len() as int));
                assert(ls2[qi] == ls1[qi]);
                let ml = ls1[qi];
                assert(ml.len() == ql.len() + j);
                if pos + j < ml.len() {
                    assert(ml[pos + j] == ql[pos]);
                }
            }
            self.link_at(q, c, prev, next, Ghost(pos + j));
            prev = Some(c);
            proof {
                let ml = ls1[qi];
                assert(ml.insert(pos + j, c) =~= ql.subrange(0, pos) + fl.subrange(0, j + 1) + ql.subrange(pos, ql.len() as int));
                j = j + 1;
                assert(self.child_lists() =~= ls0.update(f, fl.subrange(j, fl.len() as int)).update(
                    qi,
                    ql.subrange(0, pos) + fl.subrange(0, j) + ql.subrange(pos, ql.len() as int),
                ));
            }
        }
        proof {
            let ls1 = self.children@;
            assert(heads_ok(self.nodes@[f], ls1[f]));
            assert(j == fl.len());
            assert(fl.subrange(0, j) == fl);
            assert(fl.subrange(j, fl.len() as int) =~= Seq::<NodeId>::empty());
        }
    }

    /// The child lists once the nodes of `tree` are stored after this tree's
    /// own nodes.
    pub open spec fn grafted(&self, tree: &Tree<T>) -> Seq<Seq<NodeId>> {
        self.child_lists() + tree.child_lists().map_values(|l: Seq<NodeId>| shift_list(l, self.size()))
    }

    proof fn lemma_union_wf(ns: Seq<InnerNode<T>>, ls: Seq<Seq<NodeId>>, fs: Seq<InnerNode<T>>, fls: Seq<Seq<NodeId>>)
        requires
            tree_wf(ns, ls),
            tree_wf(fs, fls),
            ns.len() + fs.len() <= usize::MAX,
        ensures
            tree_wf(
                ns + fs.map_values(|nd: InnerNode<T>| shift_node(nd, ns.len() as int)),
                ls + fls.map_values(|l: Seq<NodeId>| shift_list(l, ns.len() as int)),
            ),
    {
        let off = ns.len() as int;
        let ns2 = ns + fs.map_values(|nd: InnerNode<T>| shift_node(nd, off));
        let ls2 = ls + fls.map_values(|l: Seq<NodeId>| shift_list(l, off));
        lemma_nid_range(ns2.len() as int);
        assert forall|i: int| off <= i < ns2.len() implies #[trigger] ns2[i] == shift_node(fs[i - off], off) && ls2[i] == shift_list(fls[i - off], off) by {}
        assert forall|i: int| 0 <= i < ns2.len() implies (#[trigger] ns2[i]).id == Some(nid(i)) by {
            if i < off {
                assert(ns[i].id == Some(nid(i)));
            } else {
                assert(fs[i - off].id == Some(nid(i - off)));
            }
        }
        assert forall|i: int| 0 <= i < ns2.len() implies heads_ok(ns2[i], #[trigger] ls2[i]) by {
            if i < off {
                assert(heads_ok(ns[i], ls[i]));
            } else {
                let l = fls[i - off];
                assert(heads_ok(fs[i - off], l));
                let l2 = shift_list(l, off);
                assert forall|a: int, b: int| 0 <= a < b < l2.len() implies l2[a] != l2[b] by {
                    assert(l[a] != l[b]);
                    let ca = l[a];
                    let cb = l[b];
                    assert(child_ok(fs, fls, i - off, a));
                    assert(child_ok(fs, fls, i - off, b));
                }
            }
        }
        assert forall|i: int, k: int| 0 <= i < ns2.len() && 0 <= k < ls2[i].len() implies #[trigger] child_ok(ns2, ls2, i, k) by {
            if i < off {
                assert(child_ok(ns, ls, i, k));
            } else {
                assert(child_ok(fs, fls, i - off, k));
                let c = fls[i - off][k];
                assert(ns2[c.value + off] == shift_node(fs[c.value as int], off));
            }
        }
        assert forall|c: int| 0 <= c < ns2.len() implies #[trigger] parent_ok(ns2, ls2, c) by {
            if c < off {
                assert(parent_ok(ns, ls, c));
            } else {
                assert(parent_ok(fs, fls, c - off));
                if fs[c - off].parent is Some {
                    let p = fs[c - off].parent.unwrap().value as int;
                    let l = fls[p];
                    let k = l.index_of(nid(c - off));
                    assert(l[k] == nid(c - off));
                    assert(ls2[p + off][k] == nid(c));
                }
            }
        }
        assert forall|c: int| 0 <= c < ns2.len() implies (#[trigger] ns2[c]).parent != Some(nid(c)) by {
            if c < off {
                assert(ns[c].parent != Some(nid(c)));
            } else {
                assert(fs[c - off].parent != Some(nid(c - off)));
                assert(parent_ok(fs, fls, c - off));
                assert(ns2[c] == shift_node(fs[c - off], off));
            }
        }
    }

    /// Stores every node of `tree` after this tree's nodes, with all links
    /// moved up by the old size. Nothing is linked to the old nodes.
    fn absorb(&mut self, tree: Tree<T>) -> (offset: usize)
        requires
            old(self).wf(),
            tree.wf(),
            old(self).size() + tree.size() <= usize::MAX,
        ensures
            final(self).wf(),
            offset == old(self).size(),
            final(self).size() == old(self).size() + tree.size(),
            old(self).same_data(&*final(self)),
            forall|j: int| 0 <= j < tree.size() ==> #[trigger] final(self).spec_nodes()[offset + j].data == tree.spec_nodes()[j].data,
            forall|j: int| 0 <= j < old(self).size() ==> #[trigger] final(self).spec_nodes()[j] == old(self).spec_nodes()[j],
            final(self).child_lists() == old(self).grafted(&tree),
    {
        let offset = self.nodes.len();
        let ghost ns0 = self.nodes@;
        let ghost fs = tree.nodes@;
        let ghost fls = tree.children@;
        let mut fresh = tree.nodes;
        let m = fresh.len();
        let mut j: usize = 0;
        while j < m
            invariant
                0 <= j <= m,
                m == fs.len(),
                fresh@.len() == m,
                offset + m <= usize::MAX,
                tree_wf(fs, fls),
                forall|k: int| 0 <= k < j ==> #[trigger] fresh@[k] == shift_node(fs[k], offset as int),
                forall|k: int| j <= k < m ==> #[trigger] fresh@[k] == fs[k],
            decreases m - j,
        {
            proof {
                assert(fresh@[j as int] == fs[j as int]);
                assert(parent_ok(fs, fls, j as int));
                assert(heads_ok(fs[j as int], fls[j as int]));
                if fs[j as int].prev_sibling is Some || fs[j as int].next_sibling is Some {
                    let p = fs[j as int].parent.unwrap().value as int;
                    let k = fls[p].index_of(nid(j as int));
                    assert(fls[p][k] == nid(j as int));
                    assert(child_ok(fs, fls, p, k));
                    if k > 0 {
                        assert(child_ok(fs, fls, p, k - 1));
                    }
                    if k + 1 < fls[p].len() {
                        assert(child_ok(fs, fls, p, k + 1));
                    }
                }
                if fls[j as int].len() > 0 {
                    assert(child_ok(fs, fls, j as int, 0));
                    assert(child_ok(fs, fls, j as int, fls[j as int].len() - 1));
                }
            }
            let v = fix_id(fresh[j].id, offset);
            fresh[j].id = v;
            let v = fix_id(fresh[j].parent, offset);
            fresh[j].parent = v;
            let v = fix_id(fresh[j].prev_sibling, offset);
            fresh[j].prev_sibling = v;
            let v = fix_id(fresh[j].next_sibling, offset);
            fresh[j].next_sibling = v;
            let v = fix_id(fresh[j].first_child, offset);
            fresh[j].first_child = v;
            let v = fix_id(fresh[j].last_child, offset);
            fresh[j].last_child = v;
            j = j + 1;
        }
        proof {
            assert(fresh@ =~= fs.map_values(|nd: InnerNode<T>| shift_node(nd, offset as int)));
            Self::lemma_union_wf(ns0, self.children@, fs, fls);
        }
        self.nodes.append(&mut fresh);
        self.children = Ghost(self.children@ + fls.map_values(|l: Seq<NodeId>| shift_list(l, offset as int)));
        offset
    }

    /// The child lists once the children of `id` have been moved to the end
    /// of `new_parent`'s list, or orphaned when there is no new parent.
    pub open spec fn reparented(&self, id: NodeId, new_parent: Option<NodeId>) -> Seq<Seq<NodeId>> {
        if !self.valid(id) {
            self.child_lists()
        } else {
            match new_parent {
                None => self.child_lists().update(id.value as int, Seq::<NodeId>::empty()),
                Some(np) => if self.valid(np) && np != id && self.node(np).parent != Some(id) {
                    self.child_lists().update(id.value as int, Seq::<NodeId>::empty()).update(
                        np.value as int,
                        self.kids(np) + self.kids(id),
                    )
                } else {
                    self.child_lists()
                },
            }
        }
    }

    /// Moves all children of `id`, in order, to the end of `new_parent`'s
    /// child list, or detaches them all when `new_parent` is `None`. Does
    /// nothing when a handle is unknown, or when `new_parent` is `id` itself
    /// or one of its children.
    pub fn reparent_children_of(&mut self, id: &NodeId, new_parent: Option<NodeId>)
        requires
            old(self).wf(),
        ensures
            final(self).wf(),
            final(self).size() == old(self).size(),
            old(self).same_data(&*final(self)),
            final(self).child_lists() == old(self).reparented(*id, new_parent),
    {
        let n = self.nodes.len();
        if id.value >= n {
            return;
        }
        match new_parent {
            Some(np) => {
                if np.value >= n || np.value == id.value || self.nodes[np.value].parent == Some(*id) {
                    return;
                }
                let ghost ls0 = self.children@;
                let len = Ghost(ls0[np.value as int].len() as int);
                self.move_children(*id, np, None, len);
                proof {
                    let ql = ls0[np.value as int];
                    assert(ql.subrange(0, ql.len() as int) + ls0[id.value as int] + ql.subrange(ql.len() as int, ql.len() as int) =~= ql + ls0[id.value as int]);
                }
            },
            None => {
                let ghost ls0 = self.children@;
                let ghost fl = ls0[id.value as int];
                let ghost f = id.value as int;
                let ghost mut j: int = 0;
                proof {
                    assert(ls0.len() == self.nodes@.len());
                    assert(fl.subrange(0, fl.len() as int) =~= fl);
                    assert(ls0 =~= ls0.update(f, fl.subrange(0, fl.len() as int)));
                }
                while self.nodes[id.value].first_child.is_some()
                    invariant
                        self.wf(),
                        self.size() == old(self).size(),
                        old(self).same_data(&*self),
                        ls0 == old(self).child_lists(),
                        fl == ls0[f],
                        f == id.value,
                        0 <= f < ls0.len(),
                        0 <= j <= fl.len(),
                        self.child_lists() == ls0.update(f, fl.subrange(j, fl.len() as int)),
                    decreases fl.len() - j,
                {
                    let ghost ls1 = self.children@;
                    proof {
                        assert(heads_ok(self.nodes@[f], ls1[f]));
                    }
                    let c = self.nodes[id.value].first_child.unwrap();
                    proof {
                        assert(ls1[f][0] == c);
                        assert(ls1[f].index_of(c) == 0) by {
                            let k = ls1[f].index_of(c);
                            assert(ls1[f].contains(c));
                            assert(ls1[f][k] == c);
                        }
                        assert(child_ok(self.nodes@, ls1, f, 0));
                        lemma_nid_range(self.nodes@.len() as int);
                    }
                    self.remove_from_parent(&c);
                    proof {
                        assert(self.children@[f] =~= fl.subrange(j + 1, fl.len() as int));
                        j = j + 1;
                        assert(self.child_lists() =~= ls0.update(f, fl.subrange(j, fl.len() as int)));
                    }
                }
                proof {
                    assert(heads_ok(self.nodes@[f], self.children@[f]));
                    assert(fl.subrange(j, fl.len() as int) =~= Seq::<NodeId>::empty());
                }
            },
        }
    }

    /// Detaches every child of `id`.
    pub fn remove_children_of(&mut self, id: &NodeId)
        requires
            old(self).wf(),
        ensures
            final(self).wf(),
            final(self).size() == old(self).size(),
            old(self).same_data(&*final(self)),
            final(self).child_lists() == old(self).reparented(*id, None),
    {
        self.reparent_children_of(id, None)
    }

    /// Whether a fragment tree has the shape a fragment parse gives it: the
    /// document at slot 0, the detached context element at slot 1, and at
    /// slot `TRUE_ROOT_ID` the root element, a child of the document, which
    /// holds the content.
    pub open spec fn has_wrapper(tree: &Tree<T>) -> bool {
        &&& tree.size() > TRUE_ROOT_ID
        &&& tree.node(nid(1)).parent is None
        &&& tree.node(nid(TRUE_ROOT_ID as int)).parent == Some(nid(0))
    }

    /// Whether this tree has the shape of a parsed fragment.
    pub fn is_fragment(&self) -> (r: bool)
        ensures
            r == Self::has_wrapper(self),
    {
        self.nodes.len() > TRUE_ROOT_ID && self.nodes[1].parent.is_none()
            && self.nodes[TRUE_ROOT_ID].parent == Some(NodeId { value: 0 })
    }

    /// Grafts the content of the fragment `tree` (the children of its node
    /// `TRUE_ROOT_ID`) at the end of `id`'s child list. All fragment nodes are
    /// stored after this tree's nodes, their handles moved up by the old size.
    /// Does nothing when `id` is unknown.
    pub fn append_children_from_another_tree(&mut self, id: &NodeId, tree: Tree<T>)
        requires
            old(self).wf(),
            tree.wf(),
            Self::has_wrapper(&tree),
            old(self).size() + tree.size() <= usize::MAX,
        ensures
            final(self).wf(),
            old(self).same_data(&*final(self)),
            if old(self).valid(*id) {
                let g = old(self).grafted(&tree);
                let w = old(self).size() + TRUE_ROOT_ID;
                &&& final(self).size() == old(self).size() + tree.size()
                &&& forall|j: int| 0 <= j < tree.size() ==> #[trigger] final(self).spec_nodes()[old(self).size() + j].data == tree.spec_nodes()[j].data
                &&& final(self).child_lists() == g.update(w, Seq::<NodeId>::empty()).update(id.value as int, g[id.value as int] + g[w])
            } else {
                &&& final(self).size() == old(self).size()
                &&& final(self).child_lists() == old(self).child_lists()
            },
    {
        if id.value >= self.nodes.len() {
            return;
        }
        let ghost old_self = *self;
        let offset = self.absorb(tree);
        let w = NodeId::new(offset + TRUE_ROOT_ID);
        proof {
            lemma_nid_range(self.nodes@.len() as int);
            assert(self.spec_nodes()[id.value as int] == old_self.spec_nodes()[id.value as int]);
            assert(parent_ok(old_self.nodes@, old_self.children@, id.value as int));
        }
        self.reparent_children_of(&w, Some(*id));
    }

    /// Grafts the content of the fragment `tree` (the children of its node
    /// `TRUE_ROOT_ID`) right before `id`, under `id`'s parent. All fragment
    /// nodes are stored after this tree's nodes, their handles moved up by the
    /// old size. Does nothing when `id` is unknown or has no parent.
    pub fn append_prev_siblings_from_another_tree(&mut self, id: &NodeId, tree: Tree<T>)
        requires
            old(self).wf(),
            tree.wf(),
            Self::has_wrapper(&tree),
            old(self).size() + tree.size() <= usize::MAX,
        ensures
            final(self).wf(),
            old(self).same_data(&*final(self)),
            if old(self).valid(*id) && old(self).node(*id).parent is Some {
                let g = old(self).grafted(&tree);
                let w = old(self).size() + TRUE_ROOT_ID;
                let q = old(self).node(*id).parent.unwrap().value as int;
                let a = g[q].index_of(*id);
                &&& final(self).size() == old(self).size() + tree.size()
                &&& forall|j: int| 0 <= j < tree.size() ==> #[trigger] final(self).spec_nodes()[old(self).size() + j].data == tree.spec_nodes()[j].data
                &&& final(self).child_lists() == g.update(w, Seq::<NodeId>::empty()).update(
                    q,
                    g[q].subrange(0, a) + g[w] + g[q].subrange(a, g[q].len() as int),
                )
            } else {
                &&& final(self).size() == old(self).size()
                &&& final(self).child_lists() == old(self).child_lists()
            },
    {
        if id.value >= self.nodes.len() {
            return;
        }
        let parent_id = self.nodes[id.value].parent;
        let q = match parent_id {
            Some(q) => q,
            None => {
                return;
            },
        };
        let ghost ns0 = self.nodes@;
        let ghost ls0 = self.children@;
        proof {
            lemma_nid_range(ns0.len() as int);
            assert(parent_ok(ns0, ls0, id.value as int));
            assert(parent_ok(ns0, ls0, q.value as int));
            assert(nid(id.value as int) == *id);
        }
        let ghost a = ls0[q.value as int].index_of(*id);
        proof {
            assert(ls0[q.value as int][a] == *id);
        }
        let offset = self.absorb(tree);
        let w = NodeId::new(offset + TRUE_ROOT_ID);
        proof {
            lemma_nid_range(self.nodes@.len() as int);
            assert(self.spec_nodes()[q.value as int] == ns0[q.value as int]);
            assert(self.child_lists()[q.value as int] == ls0[q.value as int]);
        }
        self.move_children(w, q, Some(*id), Ghost(a));
    }

    proof fn lemma_walk_next(&self, p: int, j: int)
        requires
            self.wf(),
            0 <= p < self.size(),
            0 <= j <= self.child_lists()[p].len(),
        ensures
            ({
                let l = self.child_lists()[p];
                walk_next(
                    self.spec_nodes(),
                    if j == l.len() { None } else { Some(l[j]) },
                    (l.len() - j + 1) as nat,
                ) == l.subrange(j, l.len() as int)
            }),
        decreases self.child_lists()[p].len() - j,
    {
        let l = self.child_lists()[p];
        if j < l.len() {
            assert(child_ok(self.nodes@, self.children@, p, j));
            self.lemma_walk_next(p, j + 1);
            assert(l.subrange(j, l.len() as int) =~= seq![l[j]] + l.subrange(j + 1, l.len() as int));
        } else {
            assert(l.subrange(j, l.len() as int) =~= Seq::<NodeId>::empty());
        }
    }

    proof fn lemma_walk_prev(&self, p: int, j: int)
        requires
            self.wf(),
            0 <= p < self.size(),
            0 <= j <= self.child_lists()[p].len(),
        ensures
            ({
                let l = self.child_lists()[p];
                walk_prev(
                    self.spec_nodes(),
                    if j == 0 { None } else { Some(l[j - 1]) },
                    (j + 1) as nat,
                ) == l.subrange(0, j).reverse()
            }),
        decreases j,
    {
        let l = self.child_lists()[p];
        if j > 0 {
            assert(child_ok(self.nodes@, self.children@, p, j - 1));
            self.lemma_walk_prev(p, j - 1);
            assert(l.subrange(0, j).reverse() =~= seq![l[j - 1]] + l.subrange(0, j - 1).reverse());
        } else {
            assert(l.subrange(0, j).reverse() =~= Seq::<NodeId>::empty());
        }
    }

    /// For every node `n` with a parent `p`, following `next_sibling` from
    /// `p`'s first child visits exactly `p`'s child list, which holds `n` exactly
    /// once, and then stops; following `prev_sibling` from `p`'s last child visits
    /// the same list in reverse.
    pub proof fn lemma_sibling_walks(&self, n: NodeId)
        requires
            self.wf(),
            self.valid(n),
            self.node(n).parent is Some,
        ensures
            ({
                let p = self.node(n).parent.unwrap();
                let l = self.kids(p);
                &&& self.valid(p)
                &&& walk_next(self.spec_nodes(), self.node(p).first_child, (l.len() + 1) as nat) == l
                &&& walk_prev(self.spec_nodes(), self.node(p).last_child, (l.len() + 1) as nat) == l.reverse()
                &&& exists|k: int| 0 <= k < l.len() && l[k] == n && forall|j: int| 0 <= j < l.len() && j != k ==> l[j] != n
            }),
    {
        let p = self.node(n).parent.unwrap();
        let pi = p.value as int;
        let l = self.kids(p);
        lemma_nid_range(self.size());
        assert(parent_ok(self.nodes@, self.children@, n.value as int));
        assert(heads_ok(self.nodes@[pi], l));
        self.lemma_walk_next(pi, 0);
        self.lemma_walk_prev(pi, l.len() as int);
        assert(l.subrange(0, l.len() as int) =~= l);
        assert(nid(n.value as int) == n);
        let k = l.index_of(n);
        assert(l[k] == n);
    }

    /// Every listed child of `p` has `p` as its parent.
    pub proof fn lemma_child_parent(&self, p: NodeId, k: int)
        requires
            self.wf(),
            self.valid(p),
            0 <= k < self.kids(p).len(),
        ensures
            self.valid(self.kids(p)[k]),
            self.node(self.kids(p)[k]).parent == Some(p),
    {
        lemma_nid_range(self.size());
        assert(child_ok(self.nodes@, self.children@, p.value as int, k));
        assert(nid(p.value as int) == p);
    }

    /// The sibling links of the `k`-th child of `p` point to its neighbours in
    /// `p`'s child list.
    pub proof fn lemma_child_links(&self, p: NodeId, k: int)
        requires
            self.wf(),
            self.valid(p),
            0 <= k < self.kids(p).len(),
        ensures
            self.valid(self.kids(p)[k]),
            self.node(self.kids(p)[k]).parent == Some(p),
            self.node(self.kids(p)[k]).next_sibling == (if k + 1 == self.kids(p).len() { None } else { Some(self.kids(p)[k + 1]) }),
            self.node(self.kids(p)[k]).prev_sibling == (if k == 0 { None } else { Some(self.kids(p)[k - 1]) }),
            self.node(p).first_child == Some(self.kids(p)[0]),
    {
        lemma_nid_range(self.size());
        assert(child_ok(self.nodes@, self.children@, p.value as int, k));
        assert(heads_ok(self.nodes@[p.value as int], self.children@[p.value as int]));
        assert(nid(p.value as int) == p);
    }

    /// A node with a parent sits in its parent's child list, once; a node
    /// without one has no siblings.
    pub proof fn lemma_parent_link(&self, n: NodeId)
        requires
            self.wf(),
            self.valid(n),
        ensures
            match self.node(n).parent {
                Some(p) => self.valid(p) && self.kids(p).contains(n) && self.kids(p).no_duplicates(),
                None => self.node(n).prev_sibling is None && self.node(n).next_sibling is None,
            },
            self.node(n).first_child is None <==> self.kids(n).len() == 0,
            self.node(n).last_child is None <==> self.kids(n).len() == 0,
            self.kids(n).len() > 0 ==> self.node(n).first_child == Some(self.kids(n)[0]) && self.node(n).last_child == Some(self.kids(n).last()),
    {
        lemma_nid_range(self.size());
        assert(parent_ok(self.nodes@, self.children@, n.value as int));
        assert(heads_ok(self.nodes@[n.value as int], self.children@[n.value as int]));
        if self.node(n).parent is Some {
            let p = self.node(n).parent.unwrap();
            assert(heads_ok(self.nodes@[p.value as int], self.children@[p.value as int]));
        }
        assert(nid(n.value as int) == n);
    }

    /// A node's parent is the node whose child list holds it, and it has no
    /// parent when no child list holds it.
    pub proof fn lemma_parent_by_lists(&self, n: NodeId)
        requires
            self.wf(),
            self.valid(n),
        ensures
            forall|p: int| 0 <= p < self.size() ==> (self.node(n).parent == Some(nid(p)) <==> #[trigger] self.child_lists()[p].contains(n)),
            self.node(n).parent is None <==> forall|p: int| 0 <= p < self.size() ==> !(#[trigger] self.child_lists()[p].contains(n)),
    {
        let ns = self.nodes@;
        let ls = self.children@;
        lemma_nid_range(ns.len() as int);
        assert(parent_ok(ns, ls, n.value as int));
        assert(nid(n.value as int) == n);
        assert forall|p: int| 0 <= p < self.size() implies (self.node(n).parent == Some(nid(p)) <==> #[trigger] self.child_lists()[p].contains(n)) by {
            if ls[p].contains(n) {
                let k = ls[p].index_of(n);
                assert(ls[p][k] == n);
                assert(child_ok(ns, ls, p, k));
            }
        }
        if self.node(n).parent is Some {
            let q = self.node(n).parent.unwrap();
            assert(self.child_lists()[q.value as int].contains(n));
        }
    }

    /// No node is its own parent, nor in its own child list.
    pub proof fn lemma_not_own_parent(&self, n: NodeId)
        requires
            self.wf(),
            self.valid(n),
        ensures
            self.node(n).parent != Some(n),
            !self.kids(n).contains(n),
    {
        lemma_nid_range(self.size());
        assert(nid(n.value as int) == n);
        assert(self.nodes@[n.value as int].parent != Some(nid(n.value as int)));
        if self.kids(n).contains(n) {
            let k = self.kids(n).index_of(n);
            assert(self.kids(n)[k] == n);
            assert(child_ok(self.nodes@, self.children@, n.value as int, k));
        }
    }

    /// Detaching `x` takes it out of whichever child list holds it.
    pub proof fn lemma_detached_is_drop(&self, x: NodeId)
        requires
            self.wf(),
        ensures
            self.detached(x) == drop_id(self.child_lists(), x),
    {
        let ls = self.children@;
        let ns = self.nodes@;
        lemma_nid_range(ns.len() as int);
        let d = self.detached(x);
        let e = drop_id(ls, x);
        assert forall|i: int| 0 <= i < ls.len() implies #[trigger] d[i] == e[i] by {
            assert(heads_ok(ns[i], ls[i]));
            assert(e[i] == ls[i].filter(not_id(x)));
            let in_list = ls[i].contains(x);
            if in_list {
                let k = ls[i].index_of(x);
                assert(ls[i][k] == x);
                assert(child_ok(ns, ls, i, k));
                assert(nid(i) == ns[x.value as int].parent.unwrap());
                lemma_filter_remove_once(ls[i], x, k);
            } else {
                lemma_filter_absent(ls[i], x);
                if x.value < ns.len() && ns[x.value as int].parent is Some {
                    let p = ns[x.value as int].parent.unwrap().value as int;
                    assert(parent_ok(ns, ls, x.value as int));
                    assert(nid(x.value as int) == x);
                    assert(p != i);
                }
            }
        }
        assert(e.len() == ls.len());
        assert(d.len() == ls.len()) by {
            if x.value < ns.len() && ns[x.value as int].parent is Some {
                assert(parent_ok(ns, ls, x.value as int));
            }
        }
        assert(d =~= e);
    }

    /// Two well-formed trees with the same child lists and payloads store
    /// identical nodes: the links are fixed by the child lists.
    pub proof fn lemma_lists_fix_nodes(&self, other: &Tree<T>)
        requires
            self.wf(),
            other.wf(),
            self.size() == other.size(),
            self.same_data(other),
            self.child_lists() == other.child_lists(),
        ensures
            self.spec_nodes() == other.spec_nodes(),
    {
        let a = self.nodes@;
        let b = other.nodes@;
        let ls = self.children@;
        lemma_nid_range(self.size());
        assert forall|c: int| 0 <= c < a.len() implies a[c] == b[c] by {
            assert(parent_ok(a, ls, c));
            assert(parent_ok(b, ls, c));
            assert(heads_ok(a[c], ls[c]));
            assert(heads_ok(b[c], ls[c]));
            assert(a[c].id == Some(nid(c)));
            assert(b[c].id == Some(nid(c)));
            assert(other.spec_nodes()[c].data == self.spec_nodes()[c].data);
            if a[c].parent is Some {
                let p = a[c].parent.unwrap().value as int;
                let k = ls[p].index_of(nid(c));
                assert(ls[p][k] == nid(c));
                assert(child_ok(a, ls, p, k));
                assert(child_ok(b, ls, p, k));
            } else if b[c].parent is Some {
                let p = b[c].parent.unwrap().value as int;
                let k = ls[p].index_of(nid(c));
                assert(ls[p][k] == nid(c));
                assert(child_ok(a, ls, p, k));
            }
        }
        assert(a =~= b);
    }

    /// Detaching a node a second time leaves the tree exactly as the first
    /// detach left it.
    pub proof fn lemma_detach_idempotent(t0: &Tree<T>, t1: &Tree<T>, t2: &Tree<T>, n: NodeId)
        requires
            t0.wf(),
            t1.wf(),
            t1.size() == t0.size(),
            t0.same_data(t1),
            t1.child_lists() == t0.detached(n),
            t0.valid(n) ==> t1.node(n).parent is None,
            t2.wf(),
            t2.size() == t1.size(),
            t1.same_data(t2),
            t2.child_lists() == t1.detached(n),
        ensures
            t2.spec_nodes() == t1.spec_nodes(),
            t2.child_lists() == t1.child_lists(),
    {
        assert(t1.detached(n) == t1.child_lists());
        t1.lemma_lists_fix_nodes(t2);
    }

    /// Grafting a fragment whose content holder has `k` children at the end of
    /// `p` gives `p` exactly `k` more children, each with `p` as its parent.
    pub proof fn lemma_graft_adds_children(t0: &Tree<T>, tree: &Tree<T>, t1: &Tree<T>, p: NodeId)
        requires
            t0.wf(),
            tree.wf(),
            t1.wf(),
            t0.valid(p),
            Self::has_wrapper(tree),
            t1.size() == t0.size() + tree.size(),
            ({
                let g = t0.grafted(tree);
                let w = t0.size() + TRUE_ROOT_ID;
                t1.child_lists() == g.update(w, Seq::<NodeId>::empty()).update(p.value as int, g[p.value as int] + g[w])
            }),
        ensures
            t1.kids(p).len() == t0.kids(p).len() + tree.kids(nid(TRUE_ROOT_ID as int)).len(),
            forall|j: int| t0.kids(p).len() <= j < t1.kids(p).len() ==> t1.node(#[trigger] t1.kids(p)[j]).parent == Some(p),
    {
        assert(t0.child_lists().len() == t0.size()) by {
            t0.lemma_wf_facts();
        }
        assert(tree.child_lists().len() == tree.size()) by {
            tree.lemma_wf_facts();
        }
        let w = t0.size() + TRUE_ROOT_ID;
        let g = t0.grafted(tree);
        assert(g[w] == shift_list(tree.child_lists()[TRUE_ROOT_ID as int], t0.size()));
        assert forall|j: int| t0.kids(p).len() <= j < t1.kids(p).len() implies t1.node(#[trigger] t1.kids(p)[j]).parent == Some(p) by {
            t1.lemma_child_parent(p, j);
        }
    }

    /// The handles of the children of `id`, in order; empty for an unknown
    /// handle.
    pub fn child_ids_of(&self, id: &NodeId) -> (r: Vec<NodeId>)
        requires
            self.wf(),
        ensures
            r@ == (if self.valid(*id) { self.kids(*id) } else { Seq::<NodeId>::empty() }),
    {
        let mut children: Vec<NodeId> = Vec::new();
        if id.value >= self.nodes.len() {
            return children;
        }
        let ghost l = self.children@[id.value as int];
        proof {
            assert(heads_ok(self.nodes@[id.value as int], l));
        }
        let mut next_child_id = self.nodes[id.value].first_child;
        let ghost mut j: int = 0;
        while next_child_id.is_some()
            invariant
                self.wf(),
                l == self.kids(*id),
                self.valid(*id),
                0 <= j <= l.len(),
                children@ == l.subrange(0, j),
                next_child_id == (if j < l.len() { Some(l[j]) } else { None::<NodeId> }),
            decreases l.len() - j,
        {
            let c = next_child_id.unwrap();
            proof {
                assert(child_ok(self.nodes@, self.children@, id.value as int, j));
            }
            children.push(c);
            next_child_id = self.nodes[c.value].next_sibling;
            proof {
                assert(children@ =~= l.subrange(0, j + 1));
                j = j + 1;
            }
        }
        proof {
            assert(children@ =~= l);
        }
        children
    }

    /// References to the children of `id`, in order.
    pub fn children_of(&self, id: &NodeId) -> (r: Vec<NodeRef>)
        requires
            self.wf(),
        ensures
            ref_ids(r@) == (if self.valid(*id) { self.kids(*id) } else { Seq::<NodeId>::empty() }),
    {
        let ids = self.child_ids_of(id);
        let mut out: Vec<NodeRef> = Vec::new();
        let mut i: usize = 0;
        while i < ids.len()
            invariant
                0 <= i <= ids@.len(),
                out@.len() == i,
                ref_ids(out@) == ids@.subrange(0, i as int),
            decreases ids@.len() - i,
        {
            let ghost before = out@;
            out.push(NodeRef { id: ids[i] });
            proof {
                assert forall|k: int| 0 <= k < i + 1 implies #[trigger] ref_ids(out@)[k] == ids@[k] by {
                    if k < i {
                        assert(ref_ids(before)[k] == ids@.subrange(0, i as int)[k]);
                        assert(out@[k] == before[k]);
                    }
                }
                assert(ref_ids(out@) =~= ids@.subrange(0, i + 1));
            }
            i = i + 1;
        }
        proof {
            assert(ids@.subrange(0, ids@.len() as int) =~= ids@);
        }
        out
    }

    pub fn get(&self, id: &NodeId) -> (r: Option<NodeRef>)
        ensures
            r == (if self.valid(*id) { Some(NodeRef { id: *id }) } else { None }),
    {
        if id.value < self.nodes.len() {
            Some(NodeRef { id: *id })
        } else {
            None
        }
    }

    pub fn get_unchecked(&self, id: &NodeId) -> (r: NodeRef)
        ensures
            r.id == *id,
    {
        NodeRef { id: *id }
    }

    pub fn root(&self) -> (r: NodeRef)
        ensures
            r.id.value == 0,
    {
        self.get_unchecked(&NodeId::new(0))
    }

    pub fn first_child_of(&self, id: &NodeId) -> (r: Option<NodeRef>)
        ensures
            r == (if self.valid(*id) { opt_ref(self.node(*id).first_child) } else { None }),
    {
        if id.value >= self.nodes.len() {
            return None;
        }
        match self.nodes[id.value].first_child {
            Some(c) => Some(NodeRef { id: c }),
            None => None,
        }
    }

    pub fn last_child_of(&self, id: &NodeId) -> (r: Option<NodeRef>)
        ensures
            r == (if self.valid(*id) { opt_ref(self.node(*id).last_child) } else { None }),
    {
        if id.value >= self.nodes.len() {
            return None;
        }
        match self.nodes[id.value].last_child {
            Some(c) => Some(NodeRef { id: c }),
            None => None,
        }
    }

    pub fn parent_of(&self, id: &NodeId) -> (r: Option<NodeRef>)
        ensures
            r == (if self.valid(*id) { opt_ref(self.node(*id).parent) } else { None }),
    {
        if id.value >= self.nodes.len() {
            return None;
        }
        match self.nodes[id.value].parent {
            Some(c) => Some(NodeRef { id: c }),
            None => None,
        }
    }

    pub fn prev_sibling_of(&self, id: &NodeId) -> (r: Option<NodeRef>)
        ensures
            r == (if self.valid(*id) { opt_ref(self.node(*id).prev_sibling) } else { None }),
    {
        if id.value >= self.nodes.len() {
            return None;
        }
        match self.nodes[id.value].prev_sibling {
            Some(c) => Some(NodeRef { id: c }),
            None => None,
        }
    }

    pub fn next_sibling_of(&self, id: &NodeId) -> (r: Option<NodeRef>)
        ensures
            r == (if self.valid(*id) { opt_ref(self.node(*id).next_sibling) } else { None }),
    {
        if id.value >= self.nodes.len() {
            return None;
        }
        match self.nodes[id.value].next_sibling {
            Some(c) => Some(NodeRef { id: c }),
            None => None,
        }
    }

    /// Read access to the node `id`, or `None` for an unknown handle.
    pub fn node_at(&self, id: &NodeId) -> (r: Option<&InnerNode<T>>)
        ensures
            r == (if self.valid(*id) { Some(&self.node(*id)) } else { None }),
    {
        if id.value < self.nodes.len() {
            Some(&self.nodes[id.value])
        } else {
            None
        }
    }

    /// Puts `data` into node `id` and returns the payload it held. Links are
    /// untouched.
    pub fn replace_data(&mut self, id: &NodeId, data: T) -> (r: T)
        requires
            old(self).wf(),
            old(self).valid(*id),
        ensures
            final(self).wf(),
            final(self).size() == old(self).size(),
            final(self).child_lists() == old(self).child_lists(),
            r == old(self).node(*id).data,
            final(self).node(*id).data == data,
            forall|j: int| 0 <= j < old(self).size() ==> {
                let a = #[trigger] final(self).spec_nodes()[j];
                let b = old(self).spec_nodes()[j];
                &&& a.parent == b.parent
                &&& a.prev_sibling == b.prev_sibling
                &&& a.next_sibling == b.next_sibling
                &&& a.first_child == b.first_child
                &&& a.last_child == b.last_child
                &&& j != id.value ==> a.data == b.data
            },
    {
        let ghost ns0 = self.nodes@;
        let mut data = data;
        core::mem::swap(&mut self.nodes[id.value].data, &mut data);
        proof {
            lemma_payload_only(ns0, self.nodes@, self.children@, id.value as int);
        }
        data
    }

    /// Hands the payload of node `id` to `f`, which gives back the new payload
    /// and a result; `None` for an unknown handle. Links cannot be changed
    /// this way.
    pub fn update_node<F, B>(&mut self, id: &NodeId, f: F) -> (r: Option<B>)
        where
            F: FnOnce(T) -> (T, B),
        requires
            old(self).wf(),
            old(self).valid(*id) ==> call_requires(f, (old(self).node(*id).data,)),
        ensures
            final(self).wf(),
            final(self).size() == old(self).size(),
            final(self).child_lists() == old(self).child_lists(),
            r is Some <==> old(self).valid(*id),
            forall|j: int| 0 <= j < old(self).size() && j != id.value ==> #[trigger] final(self).spec_nodes()[j] == old(self).spec_nodes()[j],
            r matches Some(b) ==> call_ensures(f, (old(self).node(*id).data,), (final(self).node(*id).data, b)),
    {
        let n = self.nodes.len();
        if id.value >= n {
            return None;
        }
        let i = id.value;
        let ghost ns0 = self.nodes@;
        let slot = self.nodes.swap_remove(i);
        let InnerNode { id: own_id, parent, prev_sibling, next_sibling, first_child, last_child, data } = slot;
        let (new_data, b) = f(data);
        self.nodes.push(InnerNode { id: own_id, parent, prev_sibling, next_sibling, first_child, last_child, data: new_data });
        if i + 1 < n {
            let displaced = self.nodes.swap_remove(i);
            self.nodes.push(displaced);
        }
        proof {
            let target = ns0.update(i as int, InnerNode { data: new_data, ..ns0[i as int] });
            assert(self.nodes@ =~= target);
            lemma_payload_only(ns0, self.nodes@, self.children@, i as int);
        }
        Some(b)
    }

    /// The payload of node `id`.
    pub fn data_of(&self, id: &NodeId) -> (r: Option<&T>)
        ensures
            r == (if self.valid(*id) { Some(&self.node(*id).data) } else { None }),
    {
        if id.value < self.nodes.len() {
            Some(&self.nodes[id.value].data)
        } else {
            None
        }
    }

    /// Calls `f` on node `id` and returns its result, or `None` for an
    /// unknown handle.
    pub fn query_node<F, B>(&self, id: &NodeId, f: F) -> (r: Option<B>)
        where
            F: FnOnce(&InnerNode<T>) -> B,
        requires
            self.valid(*id) ==> call_requires(f, (&self.node(*id),)),
        ensures
            r is Some <==> self.valid(*id),
            r matches Some(b) ==> call_ensures(f, (&self.node(*id),), b),
    {
        if id.value >= self.nodes.len() {
            return None;
        }
        let node = &self.nodes[id.value];
        Some(f(node))
    }

    /// Calls `f` on nodes `a` and `b`, or gives `None` when either handle is
    /// unknown.
    pub fn compare_node<F, B>(&self, a: &NodeId, b: &NodeId, f: F) -> (r: Option<B>)
        where
            F: FnOnce(&InnerNode<T>, &InnerNode<T>) -> B,
        requires
            self.valid(*a) && self.valid(*b) ==> call_requires(f, (&self.node(*a), &self.node(*b))),
        ensures
            r is Some <==> (self.valid(*a) && self.valid(*b)),
            r matches Some(v) ==> call_ensures(f, (&self.node(*a), &self.node(*b)), v),
    {
        if a.value >= self.nodes.len() || b.value >= self.nodes.len() {
            return None;
        }
        Some(f(&self.nodes[a.value], &self.nodes[b.value]))
    }

    pub fn len(&self) -> (r: usize)
        ensures
            r == self.size(),
    {
        self.nodes.len()
    }
}

} // verus!

verus! {

impl NodeRef {
    pub fn new(id: NodeId) -> (r: NodeRef)
        ensures
            r.id == id,
    {
        NodeRef { id }
    }

    /// Calls `f` on this node, or gives `None` for an unknown handle.
    #[inline]
    pub fn query<T, F, B>(&self, tree: &Tree<T>, f: F) -> (r: Option<B>)
        where
            F: FnOnce(&InnerNode<T>) -> B,
        requires
            tree.valid(self.id) ==> call_requires(f, (&tree.node(self.id),)),
        ensures
            r is Some <==> tree.valid(self.id),
            r matches Some(b) ==> call_ensures(f, (&tree.node(self.id),), b),
    {
        tree.query_node(&self.id, f)
    }

    /// Hands this node's payload to `f`, which gives back the new payload and
    /// a result; `None` for an unknown handle.
    #[inline]
    pub fn update<T, F, B>(&self, tree: &mut Tree<T>, f: F) -> (r: Option<B>)
        where
            F: FnOnce(T) -> (T, B),
        requires
            old(tree).wf(),
            old(tree).valid(self.id) ==> call_requires(f, (old(tree).node(self.id).data,)),
        ensures
            final(tree).wf(),
            final(tree).size() == old(tree).size(),
            final(tree).child_lists() == old(tree).child_lists(),
            r is Some <==> old(tree).valid(self.id),
            forall|j: int| 0 <= j < old(tree).size() && j != self.id.value ==> #[trigger] final(tree).spec_nodes()[j] == old(tree).spec_nodes()[j],
            r matches Some(b) ==> call_ensures(f, (old(tree).node(self.id).data,), (final(tree).node(self.id).data, b)),
    {
        tree.update_node(&self.id, f)
    }

    #[inline]
    pub fn parent<T>(&self, tree: &Tree<T>) -> (r: Option<NodeRef>)
        ensures
            r == (if tree.valid(self.id) { opt_ref(tree.node(self.id).parent) } else { None }),
    {
        tree.parent_of(&self.id)
    }

    #[inline]
    pub fn children<T>(&self, tree: &Tree<T>) -> (r: Vec<NodeRef>)
        requires
            tree.wf(),
        ensures
            ref_ids(r@) == (if tree.valid(self.id) { tree.kids(self.id) } else { Seq::<NodeId>::empty() }),
    {
        tree.children_of(&self.id)
    }

    #[inline]
    pub fn first_child<T>(&self, tree: &Tree<T>) -> (r: Option<NodeRef>)
        ensures
            r == (if tree.valid(self.id) { opt_ref(tree.node(self.id).first_child) } else { None }),
    {
        tree.first_child_of(&self.id)
    }

    #[inline]
    pub fn next_sibling<T>(&self, tree: &Tree<T>) -> (r: Option<NodeRef>)
        ensures
            r == (if tree.valid(self.id) { opt_ref(tree.node(self.id).next_sibling) } else { None }),
    {
        tree.next_sibling_of(&self.id)
    }

    #[inline]
    pub fn remove_from_parent<T>(&self, tree: &mut Tree<T>)
        requires
            old(tree).wf(),
        ensures
            final(tree).wf(),
            final(tree).size() == old(tree).size(),
            old(tree).same_data(&*final(tree)),
            final(tree).child_lists() == old(tree).detached(self.id),
            old(tree).valid(self.id) ==> final(tree).node(self.id).parent is None,
            forall|j: int| 0 <= j < old(tree).size() && j != self.id.value ==> #[trigger] final(tree).spec_nodes()[j].parent == old(tree).spec_nodes()[j].parent,
    {
        tree.remove_from_parent(&self.id)
    }

    #[inline]
    pub fn remove_children<T>(&self, tree: &mut Tree<T>)
        requires
            old(tree).wf(),
        ensures
            final(tree).wf(),
            final(tree).size() == old(tree).size(),
            old(tree).same_data(&*final(tree)),
            final(tree).child_lists() == old(tree).reparented(self.id, None),
    {
        tree.remove_children_of(&self.id)
    }

    #[inline]
    pub fn append_prev_sibling<T>(&self, tree: &mut Tree<T>, id: &NodeId)
        requires
            old(tree).wf(),
        ensures
            final(tree).wf(),
            final(tree).size() == old(tree).size(),
            old(tree).same_data(&*final(tree)),
            final(tree).child_lists() == old(tree).inserted_before(self.id, *id),
    {
        tree.append_prev_sibling_of(&self.id, id)
    }

    #[inline]
    pub fn append_child<T>(&self, tree: &mut Tree<T>, id: &NodeId)
        requires
            old(tree).wf(),
        ensures
            final(tree).wf(),
            final(tree).size() == old(tree).size(),
            old(tree).same_data(&*final(tree)),
            final(tree).child_lists() == (if old(tree).valid(self.id) && old(tree).valid(*id) && self.id != *id && id.value != 0 {
                let d = old(tree).detached(*id);
                d.update(self.id.value as int, d[self.id.value as int].push(*id))
            } else {
                old(tree).child_lists()
            }),
    {
        tree.append_child_of(&self.id, id)
    }

    #[inline]
    pub fn append_children_from_another_tree<T>(&self, tree: &mut Tree<T>, other: Tree<T>)
        requires
            old(tree).wf(),
            other.wf(),
            Tree::<T>::has_wrapper(&other),
            old(tree).size() + other.size() <= usize::MAX,
        ensures
            final(tree).wf(),
            old(tree).same_data(&*final(tree)),
            if old(tree).valid(self.id) {
                let g = old(tree).grafted(&other);
                let w = old(tree).size() + TRUE_ROOT_ID;
                &&& final(tree).size() == old(tree).size() + other.size()
                &&& final(tree).child_lists() == g.update(w, Seq::<NodeId>::empty()).update(self.id.value as int, g[self.id.value as int] + g[w])
            } else {
                &&& final(tree).size() == old(tree).size()
                &&& final(tree).child_lists() == old(tree).child_lists()
            },
    {
        tree.append_children_from_another_tree(&self.id, other)
    }

    #[inline]
    pub fn append_prev_siblings_from_another_tree<T>(&self, tree: &mut Tree<T>, other: Tree<T>)
        requires
            old(tree).wf(),
            other.wf(),
            Tree::<T>::has_wrapper(&other),
            old(tree).size() + other.size() <= usize::MAX,
        ensures
            final(tree).wf(),
            old(tree).same_data(&*final(tree)),
            if old(tree).valid(self.id) && old(tree).node(self.id).parent is Some {
                let g = old(tree).grafted(&other);
                let w = old(tree).size() + TRUE_ROOT_ID;
                let q = old(tree).node(self.id).parent.unwrap().value as int;
                let a = g[q].index_of(self.id);
                &&& final(tree).size() == old(tree).size() + other.size()
                &&& final(tree).child_lists() == g.update(w, Seq::<NodeId>::empty()).update(
                    q,
                    g[q].subrange(0, a) + g[w] + g[q].subrange(a, g[q].len() as int),
                )
            } else {
                &&& final(tree).size() == old(tree).size()
                &&& final(tree).child_lists() == old(tree).child_lists()
            },
    {
        tree.append_prev_siblings_from_another_tree(&self.id, other)
    }
}

} // verus!

verus! {

impl Tree<crate::node::NodeData> {
    /// A deep copy: the same links and child lists, each payload copied.
    pub fn duplicate(&self) -> (r: Tree<crate::node::NodeData>)
        requires
            self.wf(),
        ensures
            r.wf(),
            r.size() == self.size(),
            r.child_lists() == self.child_lists(),
            forall|j: int| 0 <= j < self.size() ==> {
                let a = #[trigger] r.spec_nodes()[j];
                let b = self.spec_nodes()[j];
                &&& a == (InnerNode { data: a.data, ..b })
                &&& crate::node::same_kind(b.data, a.data)
                &&& crate::attrs::attrs_view(crate::node::attr_list(a.data)) == crate::attrs::attrs_view(crate::node::attr_list(b.data))
            },
    {
        let mut nodes: Vec<InnerNode<crate::node::NodeData>> = Vec::new();
        let mut i: usize = 0;
        while i < self.nodes.len()
            invariant
                0 <= i <= self.nodes@.len(),
                nodes@.len() == i,
                forall|j: int| 0 <= j < i ==> {
                    let a = #[trigger] nodes@[j];
                    let b = self.nodes@[j];
                    &&& a == (InnerNode { data: a.data, ..b })
                    &&& crate::node::same_kind(b.data, a.data)
                    &&& crate::attrs::attrs_view(crate::node::attr_list(a.data)) == crate::attrs::attrs_view(crate::node::attr_list(b.data))
                },
            decreases self.nodes@.len() - i,
        {
            let n = &self.nodes[i];
            nodes.push(InnerNode {
                id: n.id,
                parent: n.parent,
                prev_sibling: n.prev_sibling,
                next_sibling: n.next_sibling,
                first_child: n.first_child,
                last_child: n.last_child,
                data: n.data.copy(),
            });
            i = i + 1;
        }
        proof {
            lemma_links_only(self.nodes@, nodes@, self.children@);
        }
        Tree { nodes, children: Ghost(self.children@) }
    }
}

} // verus!
