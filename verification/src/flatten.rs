use vstd::prelude::*;
use std::collections::VecDeque;
use crate::error::SvoError;
use crate::bits::{bit_set, lemma_set_bit, lemma_zero_mask};
use crate::gpu::{GpuNode, PLACEHOLDER_COLOR};
use crate::tree::{Node, BRANCH_WIDTH};

verus! {

/// A node waiting to be written, with the index of the record reserved for it.
pub type Pending = (Node, int);

/// Number of nodes of a tree.
pub open spec fn node_count(n: Node) -> nat
    decreases n,
{
    match n {
        Node::Branch(b) => 1 + forest_count(b.children@),
        _ => 1,
    }
}

/// Number of nodes of a sequence of trees.
pub open spec fn forest_count(s: Seq<Node>) -> nat
    decreases s,
{
    if s.len() == 0 {
        0
    } else {
        node_count(s.last()) + forest_count(s.drop_last())
    }
}

/// The nodes of a queue, without their indices.
pub open spec fn queue_nodes(queue: Seq<Pending>) -> Seq<Node> {
    queue.map_values(|p: Pending| p.0)
}

/// `n` records that hold nothing.
pub open spec fn blank(n: nat) -> Seq<GpuNode> {
    Seq::new(n, |i: int| GpuNode::empty())
}

/// The children of a branch, each with the index of its record: child `c`
/// goes to `base + c`.
pub open spec fn child_queue(children: Seq<Node>, base: int) -> Seq<Pending> {
    Seq::new(children.len(), |c: int| (children[c], base + c))
}

/// The presence bits of the first `n` children: bit `i` is set exactly if
/// child `i` is not empty.
pub open spec fn presence_upto(children: Seq<Node>, n: nat) -> u64
    decreases n,
{
    if n == 0 {
        0
    } else {
        let below = presence_upto(children, (n - 1) as nat);
        if n <= 64 && n <= children.len() && !(children[n - 1] is Empty) {
            below | (1u64 << ((n - 1) as u64))
        } else {
            below
        }
    }
}

/// The presence mask of a branch.
pub open spec fn presence(children: Seq<Node>) -> u64 {
    presence_upto(children, 64)
}

/// The record of a branch whose 64 children start at `base`.
pub open spec fn branch_record(children: Seq<Node>, base: int) -> GpuNode {
    GpuNode::branch(presence(children), base as u32)
}

/// The record of a leaf.
pub open spec fn leaf_record(mask: u64) -> GpuNode {
    GpuNode::leaf(mask, PLACEHOLDER_COLOR)
}

/// Serving the head of the queue. An empty node leaves its record as it was
/// reserved. A leaf replaces its record. A branch writes its presence mask
/// and the index of the end of the buffer into its record, appends one blank
/// record there for each of its 64 children, empty or not, and queues the
/// children for them, in order.
pub open spec fn serve(nodes: Seq<GpuNode>, queue: Seq<Pending>) -> (Seq<GpuNode>, Seq<Pending>)
    recommends
        queue.len() > 0,
{
    let (node, index) = queue[0];
    let rest = queue.drop_first();
    match node {
        Node::Empty => (nodes, rest),
        Node::Leaf(mask) => (nodes.update(index, leaf_record(mask)), rest),
        Node::Branch(b) => (
            nodes.update(index, branch_record(b.children@, nodes.len() as int)) + blank(
                b.children@.len(),
            ),
            rest + child_queue(b.children@, nodes.len() as int),
        ),
    }
}

/// Breadth-first flattening: the queue is served first in, first out, until
/// nothing is left in it.
pub open spec fn drain(nodes: Seq<GpuNode>, queue: Seq<Pending>) -> Seq<GpuNode>
    decreases forest_count(queue_nodes(queue)),
    via drain_terminates
{
    if queue.len() == 0 {
        nodes
    } else {
        let next = serve(nodes, queue);
        drain(next.0, next.1)
    }
}

#[via_fn]
proof fn drain_terminates(nodes: Seq<GpuNode>, queue: Seq<Pending>) {
    if queue.len() > 0 {
        lemma_serving_shrinks(queue, nodes.len() as int);
    }
}

/// Flattening one chunk into the root slot `index`: nothing for a missing
/// chunk, else the breadth-first flattening of its tree.
pub open spec fn flatten_root(nodes: Seq<GpuNode>, chunk: Option<Node>, index: int) -> Seq<GpuNode> {
    match chunk {
        None => nodes,
        Some(root) => drain(nodes, seq![(root, index)]),
    }
}

/// The trees of two sequences are counted one sequence after the other.
pub proof fn lemma_forest_count_append(a: Seq<Node>, b: Seq<Node>)
    ensures
        forest_count(a + b) == forest_count(a) + forest_count(b),
    decreases b.len(),
{
    if b.len() == 0 {
        assert(a + b =~= a);
    } else {
        assert((a + b).last() == b.last());
        assert((a + b).drop_last() =~= a + b.drop_last());
        lemma_forest_count_append(a, b.drop_last());
    }
}

/// The first tree of a sequence counts like any other.
pub proof fn lemma_forest_count_first(s: Seq<Node>)
    requires
        s.len() > 0,
    ensures
        forest_count(s) == node_count(s[0]) + forest_count(s.drop_first()),
{
    let head = seq![s[0]];
    assert(s =~= head + s.drop_first());
    lemma_forest_count_append(head, s.drop_first());
    assert(head.drop_last() =~= Seq::<Node>::empty());
    assert(forest_count(head) == node_count(head.last()) + forest_count(head.drop_last()));
}

/// Serving the head of the queue leaves less to do, whatever the head is.
pub proof fn lemma_serving_shrinks(queue: Seq<Pending>, base: int)
    requires
        queue.len() > 0,
    ensures
        forest_count(queue_nodes(queue.drop_first())) < forest_count(queue_nodes(queue)),
        queue[0].0 matches Node::Branch(b) ==> forest_count(
            queue_nodes(queue.drop_first() + child_queue(b.children@, base)),
        ) < forest_count(queue_nodes(queue)),
{
    let rest = queue.drop_first();
    lemma_forest_count_first(queue_nodes(queue));
    assert(queue_nodes(queue).drop_first() =~= queue_nodes(rest));
    match queue[0].0 {
        Node::Branch(b) => {
            let kids = child_queue(b.children@, base);
            assert(queue_nodes(rest + kids) =~= queue_nodes(rest) + b.children@);
            lemma_forest_count_append(queue_nodes(rest), b.children@);
        },
        _ => {},
    }
}

/// Bit `i` of the presence bits of the first `n` children is set exactly if
/// child `i` is one of them and is not empty.
pub proof fn lemma_presence_bits(children: Seq<Node>, n: nat, i: int)
    ensures
        bit_set(presence_upto(children, n), i) <==> (0 <= i < n && i < 64 && i < children.len()
            && !(children[i] is Empty)),
    decreases n,
{
    if n == 0 {
        lemma_zero_mask(i);
    } else {
        lemma_presence_bits(children, (n - 1) as nat, i);
        if n <= 64 && n <= children.len() && !(children[n - 1] is Empty) {
            lemma_set_bit(presence_upto(children, (n - 1) as nat), n - 1, i);
        }
    }
}

/// Flattening an empty tree changes nothing, whatever its root slot.
pub proof fn lemma_empty_root(nodes: Seq<GpuNode>, index: int)
    ensures
        flatten_root(nodes, Some(Node::Empty), index) == nodes,
{
    let queue = seq![(Node::Empty, index)];
    let next = serve(nodes, queue);
    assert(queue.drop_first() =~= Seq::<Pending>::empty());
    assert(drain(nodes, queue) == drain(next.0, next.1));
    assert(drain(next.0, next.1) == next.0);
}

/// The queue of the executable flattening, as the model sees it.
pub open spec fn pending(queue: Seq<(&Node, usize)>) -> Seq<Pending> {
    queue.map_values(|p: (&Node, usize)| (*p.0, p.1 as int))
}

/// The flattening never shortens the buffer.
pub proof fn lemma_drain_grows(nodes: Seq<GpuNode>, queue: Seq<Pending>)
    requires
        forall|i: int| 0 <= i < queue.len() ==> 0 <= (#[trigger] queue[i]).1 < nodes.len(),
    ensures
        drain(nodes, queue).len() >= nodes.len(),
        queue.len() > 0 ==> (queue[0].0 matches Node::Branch(b) ==> drain(nodes, queue).len()
            >= nodes.len() + b.children@.len()),
    decreases forest_count(queue_nodes(queue)),
{
    if queue.len() > 0 {
        lemma_serving_shrinks(queue, nodes.len() as int);
        let (node, index) = queue[0];
        let rest = queue.drop_first();
        assert forall|i: int| 0 <= i < rest.len() implies 0 <= (#[trigger] rest[i]).1
            < nodes.len() by {
            assert(rest[i] == queue[i + 1]);
        }
        match node {
            Node::Empty => {
                lemma_drain_grows(nodes, rest);
            },
            Node::Leaf(mask) => {
                lemma_drain_grows(nodes.update(index, leaf_record(mask)), rest);
            },
            Node::Branch(b) => {
                let next = nodes.update(index, branch_record(b.children@, nodes.len() as int))
                    + blank(b.children@.len());
                let more = rest + child_queue(b.children@, nodes.len() as int);
                assert forall|i: int| 0 <= i < more.len() implies 0 <= (#[trigger] more[i]).1
                    < next.len() by {
                    if i < rest.len() {
                        assert(more[i] == rest[i]);
                    }
                }
                lemma_drain_grows(next, more);
            },
        }
    }
}

/// The presence mask of a branch: bit `i` is set exactly if child `i` is not
/// empty.
pub fn presence_mask(children: &Vec<Node>) -> (mask: u64)
    requires
        children@.len() == 64,
    ensures
        mask == presence(children@),
        forall|i: int| bit_set(mask, i) <==> (0 <= i < 64 && !(children@[i] is Empty)),
{
    let mut mask: u64 = 0;
    let mut i: usize = 0;
    while i < BRANCH_WIDTH
        invariant
            i <= 64,
            children@.len() == 64,
            mask == presence_upto(children@, i as nat),
        decreases 64 - i,
    {
        let present = match &children[i] {
            Node::Empty => false,
            _ => true,
        };
        if present {
            mask = mask | (1u64 << (i as u64));
        }
        i += 1;
    }
    proof {
        assert forall|j: int| bit_set(mask, j) <==> (0 <= j < 64 && !(children@[j] is Empty)) by {
            lemma_presence_bits(children@, 64, j);
        }
    }
    mask
}

/// Flattens one chunk into the buffer, breadth first, starting at the root
/// slot `root_offset`. A missing chunk and an empty one leave the buffer as
/// it is, whatever the slot. The buffer never grows beyond `capacity`
/// records: where the flattening would need more, the call fails and what
/// it leaves in the buffer is of no use.
pub fn flatten(
    chunk: Option<&Node>,
    nodes: &mut Vec<GpuNode>,
    root_offset: usize,
    capacity: u32,
) -> (r: Result<(), SvoError>)
    requires
        old(nodes)@.len() <= capacity,
        chunk matches Some(root) ==> root.well_formed(),
        chunk matches Some(root) ==> root is Empty || root_offset < old(nodes)@.len(),
    ensures
        r is Ok <==> flatten_root(old(nodes)@, option_node(chunk), root_offset as int).len()
            <= capacity,
        r is Ok ==> final(nodes)@ == flatten_root(
            old(nodes)@,
            option_node(chunk),
            root_offset as int,
        ),
        r is Err ==> r == Err::<(), SvoError>(SvoError::CapacityExceeded),
        old(nodes)@.len() <= final(nodes)@.len() <= capacity,
        (chunk matches Some(root) ==> root is Empty) ==> r is Ok && final(nodes)@ == old(nodes)@,
{
    let ghost target = flatten_root(old(nodes)@, option_node(chunk), root_offset as int);
    let mut queue: VecDeque<(&Node, usize)> = VecDeque::new();
    match chunk {
        None => {
            return Ok(());
        },
        Some(root) => {
            match root {
                Node::Empty => {
                    proof {
                        lemma_empty_root(nodes@, root_offset as int);
                    }
                    return Ok(());
                },
                _ => {
                    queue.push_back((root, root_offset));
                },
            }
        },
    }
    assert(pending(queue@) =~= seq![(*chunk.unwrap(), root_offset as int)]);
    loop
        invariant
            chunk matches Some(root) && !(root is Empty),
            target == flatten_root(old(nodes)@, option_node(chunk), root_offset as int),
            drain(nodes@, pending(queue@)) == target,
            old(nodes)@.len() <= nodes@.len() <= capacity,
            forall|i: int| 0 <= i < queue@.len() ==> (#[trigger] queue@[i]).1 < nodes@.len(),
            forall|i: int| 0 <= i < queue@.len() ==> (*(#[trigger] queue@[i]).0).well_formed(),
        ensures
            nodes@ == target,
        decreases forest_count(queue_nodes(pending(queue@))),
    {
        let ghost before = pending(queue@);
        let ghost full = queue@;
        let (node, index) = match queue.pop_front() {
            Some(head) => head,
            None => {
                break ;
            },
        };
        proof {
            assert(pending(queue@) =~= before.drop_first());
            assert(before[0] == (*node, index as int));
            lemma_serving_shrinks(before, nodes@.len() as int);
            assert forall|i: int| 0 <= i < queue@.len() implies (#[trigger] queue@[i]).1
                < nodes@.len() && (*queue@[i].0).well_formed() by {
                assert(queue@[i] == full[i + 1]);
            }
            assert(node.well_formed()) by {
                assert(full[0].0 == node);
            }
            assert(index < nodes@.len()) by {
                assert(full[0].1 == index);
            }
        }
        match node {
            Node::Empty => {},
            Node::Leaf(mask) => {
                nodes[index] = GpuNode::set_leaf(*mask, PLACEHOLDER_COLOR);
            },
            Node::Branch(branch) => {
                let base = nodes.len();
                if capacity as usize - base < BRANCH_WIDTH {
                    proof {
                        assert forall|i: int| 0 <= i < before.len() implies 0 <= (
                        #[trigger] before[i]).1 < nodes@.len() by {
                            assert(before[i] == (*full[i].0, full[i].1 as int));
                        }
                        lemma_drain_grows(nodes@, before);
                    }
                    return Err(SvoError::CapacityExceeded);
                }
                let mask = presence_mask(&branch.children);
                nodes[index] = GpuNode::set_branch(mask, base as u32);
                let ghost marked = nodes@;
                let ghost rest = queue@;
                let mut c: usize = 0;
                while c < BRANCH_WIDTH
                    invariant
                        c <= 64,
                        base + 64 <= capacity,
                        branch.children@.len() == 64,
                        nodes@ == marked + blank(c as nat),
                        marked.len() == base,
                        queue@.len() == rest.len() + c,
                        forall|i: int| 0 <= i < rest.len() ==> queue@[i] == rest[i],
                        forall|i: int|
                            0 <= i < c ==> (#[trigger] queue@[rest.len() + i]) == (
                                &branch.children@[i],
                                (base + i) as usize,
                            ),
                    decreases 64 - c,
                {
                    nodes.push(GpuNode::default());
                    queue.push_back((&branch.children[c], base + c));
                    c += 1;
                    assert(nodes@ =~= marked + blank(c as nat));
                }
                proof {
                    let kids = child_queue(branch.children@, base as int);
                    assert forall|i: int| 0 <= i < queue@.len() implies #[trigger] pending(
                        queue@,
                    )[i] == (pending(rest) + kids)[i] by {
                        if i < rest.len() {
                            assert(queue@[i] == rest[i]);
                        } else {
                            let k = i - rest.len();
                            assert(queue@[rest.len() + k] == (
                                &branch.children@[k],
                                (base + k) as usize,
                            ));
                            assert(kids[k] == (branch.children@[k], base + k));
                        }
                    }
                    assert(pending(queue@) =~= pending(rest) + kids);
                    assert forall|i: int| 0 <= i < queue@.len() implies (#[trigger] queue@[i]).1
                        < nodes@.len() && (*queue@[i].0).well_formed() by {
                        if i < rest.len() {
                            assert(queue@[i] == rest[i]);
                        } else {
                            assert(queue@[rest.len() + (i - rest.len())] == (
                                &branch.children@[i - rest.len()],
                                (base + (i - rest.len())) as usize,
                            ));
                        }
                    }
                }
            },
        }
    }
    Ok(())
}

/// The tree behind an optional reference.
pub open spec fn option_node(chunk: Option<&Node>) -> Option<Node> {
    match chunk {
        Some(root) => Some(*root),
        None => None,
    }
}

} // verus!
