use vstd::prelude::*;
use crate::dom_tree::{NodeId, Tree};
use crate::node::{NodeData, data_at};

verus! {

/// Which nodes a serialization covers.
#[derive(Clone, Copy, Debug, PartialEq, Eq, Structural)]
pub enum TraversalScope {
    /// The node itself and everything below it.
    IncludeNode,
    /// Only what is below the node.
    ChildrenOnly,
}

/// One step of output, in document order. A text run is written as an
/// element of its own around its text.
#[derive(Clone, Copy, Debug, PartialEq, Eq, Structural)]
pub enum SerializeEvent {
    /// Opening tag of an element or of a text run's wrapper.
    Start(NodeId),
    /// The contents of a text run.
    Text(NodeId),
    /// Closing tag of an element or of a text run's wrapper.
    End(NodeId),
}

#[derive(Clone, Copy, Debug, PartialEq, Eq, Structural)]
enum SerializeOp {
    Open(NodeId, usize),
    Close(NodeId),
}

/// The events that serializing `id` gives: an element wraps the events of its
/// children, a text run gives its wrapper and text, a document only the
/// events of its children. `fuel` bounds the depth.
pub open spec fn events_of(t: &Tree<NodeData>, id: NodeId, fuel: nat) -> Seq<SerializeEvent>
    decreases fuel, 0nat,
{
    if fuel == 0 || !t.valid(id) {
        Seq::empty()
    } else {
        match data_at(t, id) {
            NodeData::Element(_) => seq![SerializeEvent::Start(id)] + events_list(t, t.kids(id), (fuel - 1) as nat) + seq![SerializeEvent::End(id)],
            NodeData::Text(_) => seq![SerializeEvent::Start(id), SerializeEvent::Text(id), SerializeEvent::End(id)],
            NodeData::Document => events_list(t, t.kids(id), (fuel - 1) as nat),
        }
    }
}

pub open spec fn events_list(t: &Tree<NodeData>, l: Seq<NodeId>, fuel: nat) -> Seq<SerializeEvent>
    decreases fuel, l.len() + 1,
{
    if l.len() == 0 {
        Seq::empty()
    } else {
        events_of(t, l[0], fuel) + events_list(t, l.drop_first(), fuel)
    }
}

spec fn node_weight(t: &Tree<NodeData>, id: NodeId, fuel: nat) -> nat
    decreases fuel, 0nat,
{
    if fuel == 0 || !t.valid(id) {
        1
    } else {
        match data_at(t, id) {
            NodeData::Element(_) => 2 + list_weight(t, t.kids(id), (fuel - 1) as nat),
            NodeData::Text(_) => 1,
            NodeData::Document => 1 + list_weight(t, t.kids(id), (fuel - 1) as nat),
        }
    }
}

spec fn list_weight(t: &Tree<NodeData>, l: Seq<NodeId>, fuel: nat) -> nat
    decreases fuel, l.len() + 1,
{
    if l.len() == 0 {
        0
    } else {
        node_weight(t, l[0], fuel) + list_weight(t, l.drop_first(), fuel)
    }
}

spec fn op_events(t: &Tree<NodeData>, op: SerializeOp) -> Seq<SerializeEvent> {
    match op {
        SerializeOp::Open(id, f) => events_of(t, id, f as nat),
        SerializeOp::Close(id) => seq![SerializeEvent::End(id)],
    }
}

spec fn op_weight(t: &Tree<NodeData>, op: SerializeOp) -> nat {
    match op {
        SerializeOp::Open(id, f) => node_weight(t, id, f as nat),
        SerializeOp::Close(_) => 1,
    }
}

/// The events still owed by a stack of operations, top (last) first.
spec fn stack_events(t: &Tree<NodeData>, s: Seq<SerializeOp>) -> Seq<SerializeEvent>
    decreases s.len(),
{
    if s.len() == 0 {
        Seq::empty()
    } else {
        op_events(t, s.last()) + stack_events(t, s.drop_last())
    }
}

spec fn stack_weight(t: &Tree<NodeData>, s: Seq<SerializeOp>) -> nat
    decreases s.len(),
{
    if s.len() == 0 {
        0
    } else {
        op_weight(t, s.last()) + stack_weight(t, s.drop_last())
    }
}

/// Pushes an Open operation per child, last child first, so that the first
/// child is on top.
fn push_children(tree: &Tree<NodeData>, ops: &mut Vec<SerializeOp>, ids: &Vec<NodeId>, fuel: usize)
    ensures
        stack_events(tree, final(ops)@) == events_list(tree, ids@, fuel as nat) + stack_events(tree, old(ops)@),
        stack_weight(tree, final(ops)@) == list_weight(tree, ids@, fuel as nat) + stack_weight(tree, old(ops)@),
{
    let mut i: usize = ids.len();
    proof {
        assert(ids@.subrange(i as int, ids@.len() as int) =~= Seq::<NodeId>::empty());
        assert(stack_events(tree, ops@) =~= events_list(tree, ids@.subrange(i as int, ids@.len() as int), fuel as nat) + stack_events(tree, old(ops)@));
    }
    while i > 0
        invariant
            0 <= i <= ids@.len(),
            stack_events(tree, ops@) == events_list(tree, ids@.subrange(i as int, ids@.len() as int), fuel as nat) + stack_events(tree, old(ops)@),
            stack_weight(tree, ops@) == list_weight(tree, ids@.subrange(i as int, ids@.len() as int), fuel as nat) + stack_weight(tree, old(ops)@),
        decreases i,
    {
        let ghost before = ops@;
        ops.push(SerializeOp::Open(ids[i - 1], fuel));
        proof {
            assert(ops@.drop_last() =~= before);
            let tail = ids@.subrange(i - 1, ids@.len() as int);
            assert(tail.drop_first() =~= ids@.subrange(i as int, ids@.len() as int));
            assert(tail[0] == ids@[i - 1]);
            assert(stack_events(tree, ops@) =~= events_list(tree, tail, fuel as nat) + stack_events(tree, old(ops)@));
        }
        i = i - 1;
    }
    proof {
        assert(ids@.subrange(0, ids@.len() as int) =~= ids@);
    }
}

/// The events of serializing `id` within `scope`, produced with an explicit
/// stack, so the depth of the tree does not bound the call stack.
pub fn serialize_events(tree: &Tree<NodeData>, id: &NodeId, scope: TraversalScope) -> (r: Vec<SerializeEvent>)
    requires
        tree.wf(),
    ensures
        r@ == (match scope {
            TraversalScope::IncludeNode => events_of(tree, *id, tree.size() as nat),
            TraversalScope::ChildrenOnly => if tree.valid(*id) {
                events_list(tree, tree.kids(*id), tree.size() as nat)
            } else {
                Seq::empty()
            },
        }),
{
    let fuel = tree.len();
    let mut ops: Vec<SerializeOp> = Vec::new();
    match scope {
        TraversalScope::IncludeNode => {
            ops.push(SerializeOp::Open(*id, fuel));
            proof {
                assert(ops@.drop_last() =~= Seq::<SerializeOp>::empty());
                assert(stack_events(tree, ops@.drop_last()) =~= Seq::<SerializeEvent>::empty());
                assert(ops@.last() == SerializeOp::Open(*id, fuel));
                assert(stack_events(tree, ops@) =~= events_of(tree, *id, fuel as nat));
            }
        },
        TraversalScope::ChildrenOnly => {
            let ids = tree.child_ids_of(id);
            push_children(tree, &mut ops, &ids, fuel);
            proof {
                assert(stack_events(tree, ops@) =~= events_list(tree, ids@, fuel as nat));
                if !tree.valid(*id) {
                    assert(events_list(tree, ids@, fuel as nat) =~= Seq::empty());
                }
            }
        },
    }
    let ghost target = stack_events(tree, ops@);
    let mut out: Vec<SerializeEvent> = Vec::new();
    proof {
        assert(out@ + stack_events(tree, ops@) =~= target);
    }
    while ops.len() > 0
        invariant
            tree.wf(),
            out@ + stack_events(tree, ops@) == target,
        decreases stack_weight(tree, ops@),
    {
        let ghost before = ops@;
        let ghost rest = before.drop_last();
        let op = ops.pop().unwrap();
        proof {
            assert(ops@ == rest);
            assert(stack_events(tree, before) == op_events(tree, op) + stack_events(tree, rest));
            assert(stack_weight(tree, before) == op_weight(tree, op) + stack_weight(tree, rest));
        }
        match op {
            SerializeOp::Close(n) => {
                out.push(SerializeEvent::End(n));
                proof {
                    assert(out@ + stack_events(tree, ops@) =~= target);
                }
            },
            SerializeOp::Open(n, f) => {
                if f > 0 {
                    match tree.data_of(&n) {
                        None => {
                            proof {
                                assert(out@ + stack_events(tree, ops@) =~= target);
                            }
                        },
                        Some(NodeData::Element(_)) => {
                            let ghost o0 = out@;
                            out.push(SerializeEvent::Start(n));
                            let ghost s0 = ops@;
                            ops.push(SerializeOp::Close(n));
                            proof {
                                assert(ops@.drop_last() =~= s0);
                            }
                            let ids = tree.child_ids_of(&n);
                            push_children(tree, &mut ops, &ids, f - 1);
                            proof {
                                assert(out@ + stack_events(tree, ops@) =~= o0 + op_events(tree, op) + stack_events(tree, rest));
                            }
                        },
                        Some(NodeData::Text(_)) => {
                            let ghost o0 = out@;
                            out.push(SerializeEvent::Start(n));
                            out.push(SerializeEvent::Text(n));
                            out.push(SerializeEvent::End(n));
                            proof {
                                assert(out@ =~= o0 + op_events(tree, op));
                                assert(out@ + stack_events(tree, ops@) =~= target);
                            }
                        },
                        Some(NodeData::Document) => {
                            let ghost o0 = out@;
                            let ids = tree.child_ids_of(&n);
                            push_children(tree, &mut ops, &ids, f - 1);
                            proof {
                                assert(out@ + stack_events(tree, ops@) =~= o0 + op_events(tree, op) + stack_events(tree, rest));
                            }
                        },
                    }
                } else {
                    proof {
                        assert(out@ + stack_events(tree, ops@) =~= target);
                    }
                }
            },
        }
    }
    proof {
        assert(out@ =~= target);
    }
    out
}

} // verus!
