use vstd::prelude::*;
use crate::flatten::{
    blank, branch_record, child_queue, drain, flatten_root, forest_count, leaf_record,
    lemma_drain_grows, lemma_presence_bits, lemma_serving_shrinks, presence, queue_nodes, serve,
    Pending,
};
use crate::bits::{bit_set, lemma_some_bit, lemma_split_join, lemma_zero_mask};
use crate::gpu::GpuNode;
use crate::reader::flat_occupied;
use crate::region::{in_region, lemma_coord_at, lemma_row_major, row_major, valid_region, volume, Coord};
use crate::stager::{chunk_at, lemma_staged_grows, stage_output, staged};
use crate::tree::{digit, lemma_slot_range, place, same_path, slot, Node};

verus! {

/// Whether the buffer spells out the tree `node` at `index`: the record there
/// is the node's, and for a branch the 64 records from its `base` on spell
/// out its children, child `c` at `base + c`. Every block of children lies
/// behind its parent, at `lo` or later, and inside the buffer.
pub open spec fn represents(out: Seq<GpuNode>, lo: int, index: int, node: Node) -> bool
    decreases node,
{
    &&& 0 <= index < out.len()
    &&& match node {
        Node::Empty => out[index] == GpuNode::empty(),
        Node::Leaf(mask) => out[index] == leaf_record(mask),
        Node::Branch(b) => {
            let base = out[index].base as int;
            &&& out[index] == branch_record(b.children@, base)
            &&& b.children@.len() == 64
            &&& lo <= base
            &&& index < base
            &&& base + 64 <= out.len()
            &&& forall|c: int|
                0 <= c < 64 ==> represents(out, lo, base + c, #[trigger] b.children@[c])
        },
    }
}

/// The tree that a root slot stands for: the chunk, or nothing.
pub open spec fn tree_of(chunk: Option<Node>) -> Node {
    match chunk {
        Some(root) => root,
        None => Node::Empty,
    }
}

/// The state of a flattening in which the queue holds exactly the last
/// records of the buffer, in order, all of them still blank.
pub open spec fn tail_ok(nodes: Seq<GpuNode>, queue: Seq<Pending>) -> bool {
    &&& queue.len() <= nodes.len()
    &&& forall|i: int|
        0 <= i < queue.len() ==> (#[trigger] queue[i]).1 == nodes.len() - queue.len() + i
    &&& forall|i: int|
        0 <= i < queue.len() ==> #[trigger] nodes[nodes.len() - queue.len() + i]
            == GpuNode::empty()
    &&& forall|i: int| 0 <= i < queue.len() ==> (#[trigger] queue[i]).0.well_formed()
}

/// A buffer that spells out a tree still does so when it is extended and
/// changed anywhere but at the tree's own record and from `lo` on.
pub proof fn lemma_represents_frame(a: Seq<GpuNode>, b: Seq<GpuNode>, lo: int, index: int, node: Node)
    requires
        represents(a, lo, index, node),
        a.len() <= b.len(),
        b[index] == a[index],
        forall|i: int| lo <= i < a.len() ==> b[i] == a[i],
        0 <= lo,
    ensures
        represents(b, lo, index, node),
    decreases node,
{
    match node {
        Node::Branch(branch) => {
            let base = a[index].base as int;
            assert forall|c: int| 0 <= c < 64 implies represents(
                b,
                lo,
                base + c,
                #[trigger] branch.children@[c],
            ) by {
                lemma_represents_frame(a, b, lo, base + c, branch.children@[c]);
            }
        },
        _ => {},
    }
}

/// A tree spelled out from `hi` on is spelled out from any earlier bound on.
pub proof fn lemma_represents_weaken(out: Seq<GpuNode>, lo: int, hi: int, index: int, node: Node)
    requires
        represents(out, hi, index, node),
        lo <= hi,
    ensures
        represents(out, lo, index, node),
    decreases node,
{
    match node {
        Node::Branch(branch) => {
            let base = out[index].base as int;
            assert forall|c: int| 0 <= c < 64 implies represents(
                out,
                lo,
                base + c,
                #[trigger] branch.children@[c],
            ) by {
                lemma_represents_weaken(out, lo, hi, base + c, branch.children@[c]);
            }
        },
        _ => {},
    }
}

/// Serving the head of a queue that holds the last records of the buffer
/// leaves a queue that holds the last records of the new buffer. Nothing
/// before the head's record changes, and the head's record becomes the
/// head's.
pub proof fn lemma_serve_tail(nodes: Seq<GpuNode>, queue: Seq<Pending>)
    requires
        tail_ok(nodes, queue),
        queue.len() > 0,
        nodes.len() <= u32::MAX,
    ensures
        ({
            let next = serve(nodes, queue);
            let h = nodes.len() - queue.len();
            &&& tail_ok(next.0, next.1)
            &&& next.0.len() - next.1.len() == h + 1
            &&& next.0.len() >= nodes.len()
            &&& forall|j: int| 0 <= j < h ==> next.0[j] == nodes[j]
            &&& match queue[0].0 {
                Node::Empty => next.0[h] == GpuNode::empty(),
                Node::Leaf(mask) => next.0[h] == leaf_record(mask),
                Node::Branch(b) => {
                    &&& next.0[h] == branch_record(b.children@, nodes.len() as int)
                    &&& next.0[h].base == nodes.len()
                    &&& next.0.len() == nodes.len() + 64
                    &&& b.children@.len() == 64
                    &&& forall|c: int|
                        0 <= c < 64 ==> #[trigger] next.1[queue.len() - 1 + c] == (
                            b.children@[c],
                            nodes.len() + c,
                        )
                },
            }
        }),
{
    let next = serve(nodes, queue);
    let h = nodes.len() - queue.len();
    let (node, index) = queue[0];
    let rest = queue.drop_first();
    assert(index == h);
    assert forall|i: int| 0 <= i < rest.len() implies (#[trigger] rest[i]).1 == h + 1 + i
        && rest[i].0.well_formed() by {
        assert(rest[i] == queue[i + 1]);
    }
    match node {
        Node::Empty => {
            assert(nodes[nodes.len() - queue.len() + 0] == GpuNode::empty());
            assert forall|i: int| 0 <= i < rest.len() implies #[trigger] next.0[next.0.len()
                - next.1.len() + i] == GpuNode::empty() by {
                assert(nodes[nodes.len() - queue.len() + (i + 1)] == GpuNode::empty());
            }
        },
        Node::Leaf(mask) => {
            assert forall|i: int| 0 <= i < rest.len() implies #[trigger] next.0[next.0.len()
                - next.1.len() + i] == GpuNode::empty() by {
                assert(nodes[nodes.len() - queue.len() + (i + 1)] == GpuNode::empty());
            }
        },
        Node::Branch(b) => {
            let kids = child_queue(b.children@, nodes.len() as int);
            assert(b.children@.len() == 64);
            assert forall|i: int| 0 <= i < next.1.len() implies (#[trigger] next.1[i]).1
                == next.0.len() - next.1.len() + i && next.1[i].0.well_formed() by {
                if i < rest.len() {
                    assert(next.1[i] == rest[i]);
                } else {
                    assert(next.1[i] == kids[i - rest.len()]);
                    assert(b.children@[i - rest.len()].well_formed());
                }
            }
            assert forall|i: int| 0 <= i < next.1.len() implies #[trigger] next.0[next.0.len()
                - next.1.len() + i] == GpuNode::empty() by {
                if i < rest.len() {
                    assert(nodes[nodes.len() - queue.len() + (i + 1)] == GpuNode::empty());
                }
            }
            assert forall|c: int| 0 <= c < 64 implies #[trigger] next.1[queue.len() - 1 + c] == (
                b.children@[c],
                nodes.len() + c,
            ) by {
                assert(next.1[rest.len() + c] == kids[c]);
            }
        },
    }
}

/// What the flattening of a queue of trailing blank records leaves: the
/// records before the queue's are untouched, every queued tree is spelled out
/// at its record, and the bases of the branches written grow by at least 64
/// from one branch to the next in index order.
pub proof fn lemma_drain_tail(nodes: Seq<GpuNode>, queue: Seq<Pending>)
    requires
        tail_ok(nodes, queue),
        drain(nodes, queue).len() <= u32::MAX,
    ensures
        ({
            let out = drain(nodes, queue);
            let h = nodes.len() - queue.len();
            &&& out.len() >= nodes.len()
            &&& forall|j: int| 0 <= j < h ==> out[j] == nodes[j]
            &&& forall|i: int|
                0 <= i < queue.len() ==> represents(out, nodes.len() as int, h + i, (
                #[trigger] queue[i]).0)
            &&& forall|j: int|
                h <= j < out.len() && (#[trigger] out[j]).base != 0 ==> nodes.len() <= out[j].base
                    && j < out[j].base && out[j].base + 64 <= out.len()
            &&& forall|j: int, k: int|
                h <= j < k < out.len() && (#[trigger] out[j]).base != 0 && (#[trigger] out[k]).base
                    != 0 ==> out[j].base + 64 <= out[k].base
        }),
    decreases forest_count(queue_nodes(queue)),
{
    let out = drain(nodes, queue);
    let h = nodes.len() - queue.len();
    assert forall|i: int| 0 <= i < queue.len() implies 0 <= (#[trigger] queue[i]).1
        < nodes.len() by {}
    lemma_drain_grows(nodes, queue);
    if queue.len() > 0 {
        let next = serve(nodes, queue);
        lemma_serving_shrinks(queue, nodes.len() as int);
        lemma_serve_tail(nodes, queue);
        lemma_drain_tail(next.0, next.1);
        assert(out == drain(next.0, next.1));
        assert(out[h] == next.0[h]);
        assert forall|i: int| 0 <= i < queue.len() implies represents(
            out,
            nodes.len() as int,
            h + i,
            (#[trigger] queue[i]).0,
        ) by {
            if i > 0 {
                assert(queue[i] == next.1[i - 1]);
                lemma_represents_weaken(
                    out,
                    nodes.len() as int,
                    next.0.len() as int,
                    h + i,
                    queue[i].0,
                );
            } else {
                match queue[0].0 {
                    Node::Branch(b) => {
                        assert forall|c: int| 0 <= c < 64 implies represents(
                            out,
                            nodes.len() as int,
                            nodes.len() + c,
                            #[trigger] b.children@[c],
                        ) by {
                            let at = queue.len() - 1 + c;
                            assert(next.1[at] == (b.children@[c], nodes.len() + c));
                            assert(represents(out, next.0.len() as int, h + 1 + at, next.1[at].0));
                            lemma_represents_weaken(
                                out,
                                nodes.len() as int,
                                next.0.len() as int,
                                nodes.len() + c,
                                b.children@[c],
                            );
                        }
                    },
                    _ => {},
                }
            }
        }
    }
}

/// What flattening one tree into a blank root slot leaves: every other
/// record that was there is untouched, and the tree is spelled out at the
/// slot, its blocks of children all behind the records that were there.
pub proof fn lemma_flatten_root(pre: Seq<GpuNode>, root: Node, index: int)
    requires
        0 <= index < pre.len(),
        pre[index] == GpuNode::empty(),
        root.well_formed(),
        flatten_root(pre, Some(root), index).len() <= u32::MAX,
    ensures
        ({
            let out = flatten_root(pre, Some(root), index);
            &&& out.len() >= pre.len()
            &&& forall|j: int| 0 <= j < pre.len() && j != index ==> out[j] == pre[j]
            &&& represents(out, pre.len() as int, index, root)
        }),
{
    let queue = seq![(root, index)];
    let out = drain(pre, queue);
    let next = serve(pre, queue);
    assert(out == drain(next.0, next.1));
    assert(queue.drop_first() =~= Seq::<Pending>::empty());
    lemma_drain_grows(pre, queue);
    match root {
        Node::Branch(b) => {
            let kids = child_queue(b.children@, pre.len() as int);
            assert(next.1 =~= kids);
            assert(tail_ok(next.0, next.1)) by {
                assert forall|i: int| 0 <= i < kids.len() implies (#[trigger] kids[i]).0.well_formed() by {
                    assert(kids[i].0 == b.children@[i]);
                }
            }
            lemma_drain_tail(next.0, next.1);
            assert(out[index] == next.0[index]);
            assert forall|c: int| 0 <= c < 64 implies represents(
                out,
                pre.len() as int,
                pre.len() + c,
                #[trigger] b.children@[c],
            ) by {
                assert(kids[c] == (b.children@[c], pre.len() + c));
                assert(represents(out, next.0.len() as int, pre.len() + c, next.1[c].0));
                lemma_represents_weaken(
                    out,
                    pre.len() as int,
                    next.0.len() as int,
                    pre.len() + c,
                    b.children@[c],
                );
            }
        },
        _ => {
            assert(drain(next.0, next.1) == next.0);
        },
    }
}

/// A buffer that spells out a tree of a chunk's shape answers every
/// occupancy query as the tree does.
pub proof fn lemma_represents_occupancy(
    out: Seq<GpuNode>,
    lo: int,
    index: int,
    node: Node,
    level: nat,
    x: u8,
    y: u8,
    z: u8,
)
    requires
        represents(out, lo, index, node),
        node.shaped(level),
    ensures
        flat_occupied(out, index, level, x, y, z) == node.occupied_at(level, x, y, z),
    decreases node,
{
    let s = slot(x, y, z, level);
    lemma_slot_range(x, y, z, level);
    match node {
        Node::Empty => {
            assert(GpuNode::empty().spec_mask() == 0) by {
                assert(((0u32 as u64) << 32) | (0u32 as u64) == 0) by (bit_vector);
            }
            lemma_zero_mask(s);
        },
        Node::Leaf(mask) => {
            lemma_split_join(mask);
        },
        Node::Branch(b) => {
            let base = out[index].base as int;
            lemma_split_join(presence(b.children@));
            lemma_presence_bits(b.children@, 64, s);
            let child = b.children@[s];
            assert(represents(out, lo, base + s, child));
            lemma_represents_occupancy(out, lo, base + s, child, (level - 1) as nat, x, y, z);
        },
    }
}

/// Flattening a tree of a chunk's shape into a blank root slot and reading
/// the records back, by following `base` and the voxel's slots from the root
/// slot, gives the occupancy of the tree for every voxel.
pub proof fn lemma_tree_round_trip(pre: Seq<GpuNode>, root: Node, index: int, x: u8, y: u8, z: u8)
    requires
        0 <= index < pre.len(),
        pre[index] == GpuNode::empty(),
        root.shaped(3),
        flatten_root(pre, Some(root), index).len() <= u32::MAX,
    ensures
        flat_occupied(flatten_root(pre, Some(root), index), index, 3, x, y, z) == root.occupied(
            x,
            y,
            z,
        ),
{
    crate::tree::lemma_shaped_well_formed(root, 3);
    lemma_flatten_root(pre, root, index);
    lemma_represents_occupancy(
        flatten_root(pre, Some(root), index),
        pre.len() as int,
        index,
        root,
        3,
        x,
        y,
        z,
    );
}

/// In the records that flattening one tree appends, a record with a `base`
/// is a branch, and the bases grow with the index: each block of 64 children
/// lies behind its parent, inside the buffer, and wholly before the block of
/// any later branch. The first block is the root's and starts where the
/// buffer ended.
pub proof fn lemma_bases_increase(pre: Seq<GpuNode>, root: Node, index: int)
    requires
        0 <= index < pre.len(),
        pre[index] == GpuNode::empty(),
        root.well_formed(),
        flatten_root(pre, Some(root), index).len() <= u32::MAX,
    ensures
        ({
            let out = flatten_root(pre, Some(root), index);
            &&& root is Branch ==> out[index].base == pre.len() && pre.len() + 64 <= out.len()
            &&& !(root is Branch) ==> out[index].base == 0 && out.len() == pre.len()
            &&& forall|j: int|
                pre.len() <= j < out.len() && (#[trigger] out[j]).base != 0 ==> j < out[j].base
                    && out[index].base + 64 <= out[j].base && out[j].base + 64 <= out.len()
            &&& forall|j: int, k: int|
                pre.len() <= j < k < out.len() && (#[trigger] out[j]).base != 0 && (
                #[trigger] out[k]).base != 0 ==> out[j].base + 64 <= out[k].base
        }),
{
    let queue = seq![(root, index)];
    let out = drain(pre, queue);
    let next = serve(pre, queue);
    assert(out == drain(next.0, next.1));
    assert(queue.drop_first() =~= Seq::<Pending>::empty());
    lemma_drain_grows(pre, queue);
    match root {
        Node::Branch(b) => {
            let kids = child_queue(b.children@, pre.len() as int);
            assert(next.1 =~= kids);
            assert(tail_ok(next.0, next.1)) by {
                assert forall|i: int| 0 <= i < kids.len() implies (#[trigger] kids[i]).0.well_formed() by {
                    assert(kids[i].0 == b.children@[i]);
                }
            }
            lemma_drain_tail(next.0, next.1);
            assert(out[index] == next.0[index]);
        },
        _ => {
            assert(drain(next.0, next.1) == next.0);
        },
    }
}

/// Whether record `i` lies in the block of children of the record `j`.
pub open spec fn in_block(out: Seq<GpuNode>, j: int, i: int) -> bool {
    &&& 0 <= j < out.len()
    &&& out[j].base != 0
    &&& out[j].base <= i < out[j].base + 64
}

/// Whether record `i` lies in the block of children of some record at `from`
/// or later.
pub open spec fn has_parent(out: Seq<GpuNode>, from: int, i: int) -> bool {
    exists|j: int| from <= j && #[trigger] in_block(out, j, i)
}

/// Every record that the flattening of a queue of trailing blank records
/// appends lies in the block of a branch that was queued or appended.
proof fn lemma_drain_tail_covers(nodes: Seq<GpuNode>, queue: Seq<Pending>)
    requires
        tail_ok(nodes, queue),
        drain(nodes, queue).len() <= u32::MAX,
    ensures
        forall|i: int|
            nodes.len() <= i < drain(nodes, queue).len() ==> #[trigger] has_parent(
                drain(nodes, queue),
                nodes.len() - queue.len(),
                i,
            ),
    decreases forest_count(queue_nodes(queue)),
{
    let out = drain(nodes, queue);
    let h = nodes.len() - queue.len();
    if queue.len() > 0 {
        let next = serve(nodes, queue);
        assert forall|i: int| 0 <= i < queue.len() implies 0 <= (#[trigger] queue[i]).1
            < nodes.len() by {}
        lemma_drain_grows(nodes, queue);
        lemma_serving_shrinks(queue, nodes.len() as int);
        lemma_serve_tail(nodes, queue);
        lemma_drain_tail(next.0, next.1);
        lemma_drain_tail_covers(next.0, next.1);
        assert(out == drain(next.0, next.1));
        assert(out[h] == next.0[h]);
        assert forall|i: int| nodes.len() <= i < out.len() implies #[trigger] has_parent(
            out,
            h,
            i,
        ) by {
            if i < next.0.len() {
                assert(queue[0].0 is Branch);
                assert(in_block(out, h, i));
            } else {
                assert(has_parent(out, h + 1, i));
                let j = choose|j: int| h + 1 <= j && #[trigger] in_block(out, j, i);
                assert(in_block(out, j, i));
            }
        }
    }
}

/// The blocks of children leave no gap: every record that flattening one
/// tree appends lies in the block of a branch, the root's or an appended
/// one's. With [`lemma_bases_increase`], each block begins where the block
/// before it ends, 64 records on, and the last block ends the buffer.
pub proof fn lemma_blocks_tile(pre: Seq<GpuNode>, root: Node, index: int)
    requires
        0 <= index < pre.len(),
        pre[index] == GpuNode::empty(),
        root.well_formed(),
        flatten_root(pre, Some(root), index).len() <= u32::MAX,
    ensures
        forall|i: int|
            pre.len() <= i < flatten_root(pre, Some(root), index).len() ==> in_block(
                flatten_root(pre, Some(root), index),
                index,
                i,
            ) || #[trigger] has_parent(flatten_root(pre, Some(root), index), pre.len() as int, i),
{
    let queue = seq![(root, index)];
    let out = drain(pre, queue);
    let next = serve(pre, queue);
    assert(out == drain(next.0, next.1));
    assert(queue.drop_first() =~= Seq::<Pending>::empty());
    lemma_drain_grows(pre, queue);
    match root {
        Node::Branch(b) => {
            let kids = child_queue(b.children@, pre.len() as int);
            assert(next.1 =~= kids);
            assert(tail_ok(next.0, next.1)) by {
                assert forall|i: int| 0 <= i < kids.len() implies (#[trigger] kids[i]).0.well_formed() by {
                    assert(kids[i].0 == b.children@[i]);
                }
            }
            lemma_drain_tail(next.0, next.1);
            lemma_drain_tail_covers(next.0, next.1);
            assert(out[index] == next.0[index]);
            assert forall|i: int| pre.len() <= i < out.len() implies in_block(out, index, i)
                || #[trigger] has_parent(out, pre.len() as int, i) by {
                if i >= next.0.len() {
                    assert(has_parent(out, next.0.len() - next.1.len(), i));
                }
            }
        },
        _ => {
            assert(drain(next.0, next.1) == next.0);
        },
    }
}

/// Whether every chunk of the region has 64 children in every branch.
pub open spec fn region_well_formed(chunks: Map<Coord, Node>, start: Coord, end: Coord) -> bool {
    forall|c: Coord|
        in_region(c, start, end) && #[trigger] chunks.contains_key(c) ==> chunks[c].well_formed()
}

/// After the chunks of the first `k` root slots are flattened, each of those
/// slots spells out its chunk, and the other root slots are still blank.
pub proof fn lemma_staged_spells(chunks: Map<Coord, Node>, start: Coord, end: Coord, k: nat)
    requires
        k <= volume(start, end),
        region_well_formed(chunks, start, end),
        staged(chunks, start, end, k).len() <= u32::MAX,
    ensures
        forall|j: int|
            0 <= j < k ==> represents(
                staged(chunks, start, end, k),
                volume(start, end) as int,
                j,
                tree_of(#[trigger] chunk_at(chunks, j, start, end)),
            ),
        forall|j: int|
            k <= j < volume(start, end) ==> #[trigger] staged(chunks, start, end, k)[j]
                == GpuNode::empty(),
    decreases k,
{
    if k > 0 {
        let fewer = (k - 1) as nat;
        let prev = staged(chunks, start, end, fewer);
        let out = staged(chunks, start, end, k);
        let vol = volume(start, end) as int;
        lemma_staged_grows(chunks, start, end, fewer, k);
        lemma_staged_spells(chunks, start, end, fewer);
        assert(prev[k - 1] == GpuNode::empty());
        let chunk = chunk_at(chunks, k - 1, start, end);
        match chunk {
            None => {
                assert(out == prev);
            },
            Some(root) => {
                lemma_coord_at(k - 1, start, end);
                let c = crate::region::coord_at(k - 1, start, end);
                let coord = (c.0 as i32, c.1 as i32, c.2 as i32);
                assert(in_region(coord, start, end));
                assert(chunks.contains_key(coord));
                lemma_flatten_root(prev, root, k - 1);
                lemma_represents_weaken(out, vol, prev.len() as int, k - 1, root);
                assert forall|j: int| 0 <= j < k - 1 implies represents(
                    out,
                    vol,
                    j,
                    tree_of(#[trigger] chunk_at(chunks, j, start, end)),
                ) by {
                    lemma_represents_frame(
                        prev,
                        out,
                        vol,
                        j,
                        tree_of(chunk_at(chunks, j, start, end)),
                    );
                }
            },
        }
    }
}

/// Round trip. In the flattened region, reading the records back from the
/// root slot of a chunk coordinate, by following `base` and the voxel's
/// slots, finds a voxel exactly if the grid has a chunk there that holds it.
pub proof fn lemma_round_trip(
    chunks: Map<Coord, Node>,
    start: Coord,
    end: Coord,
    coord: Coord,
    x: u8,
    y: u8,
    z: u8,
)
    requires
        in_region(coord, start, end),
        region_well_formed(chunks, start, end),
        chunks.contains_key(coord) ==> chunks[coord].shaped(3),
        stage_output(chunks, start, end).len() <= u32::MAX,
    ensures
        flat_occupied(
            stage_output(chunks, start, end),
            row_major(coord, start, end),
            3,
            x,
            y,
            z,
        ) == (chunks.contains_key(coord) && chunks[coord].occupied(x, y, z)),
{
    let out = stage_output(chunks, start, end);
    let j = row_major(coord, start, end);
    lemma_row_major(coord, start, end);
    lemma_staged_spells(chunks, start, end, volume(start, end));
    let tree = tree_of(chunk_at(chunks, j, start, end));
    assert(represents(out, volume(start, end) as int, j, tree));
    lemma_represents_occupancy(out, volume(start, end) as int, j, tree, 3, x, y, z);
}

/// A region that is empty on some axis flattens to no record at all.
pub proof fn lemma_empty_region(chunks: Map<Coord, Node>, start: Coord, end: Coord)
    requires
        valid_region(start, end),
        start.0 == end.0 || start.1 == end.1 || start.2 == end.2,
    ensures
        volume(start, end) == 0,
        stage_output(chunks, start, end) == Seq::<GpuNode>::empty(),
{
    let w = crate::region::extent(start.0, end.0);
    let h = crate::region::extent(start.1, end.1);
    let d = crate::region::extent(start.2, end.2);
    assert(w * h * d == 0) by (nonlinear_arith)
        requires
            w == 0 || h == 0 || d == 0,
    ;
    assert(stage_output(chunks, start, end) =~= Seq::<GpuNode>::empty());
}

/// A region in which no chunk is populated flattens to its root slots alone:
/// one blank record per chunk coordinate.
pub proof fn lemma_unpopulated_region(chunks: Map<Coord, Node>, start: Coord, end: Coord)
    requires
        forall|c: Coord|
            in_region(c, start, end) && #[trigger] chunks.contains_key(c) ==> chunks[c] is Empty,
    ensures
        stage_output(chunks, start, end) == blank(volume(start, end)),
        stage_output(chunks, start, end).len() == volume(start, end),
{
    lemma_unpopulated_prefix(chunks, start, end, volume(start, end));
}

proof fn lemma_unpopulated_prefix(chunks: Map<Coord, Node>, start: Coord, end: Coord, k: nat)
    requires
        k <= volume(start, end),
        forall|c: Coord|
            in_region(c, start, end) && #[trigger] chunks.contains_key(c) ==> chunks[c] is Empty,
    ensures
        staged(chunks, start, end, k) == blank(volume(start, end)),
    decreases k,
{
    if k > 0 {
        lemma_unpopulated_prefix(chunks, start, end, (k - 1) as nat);
        let prev = staged(chunks, start, end, (k - 1) as nat);
        match chunk_at(chunks, k - 1, start, end) {
            None => {},
            Some(root) => {
                lemma_coord_at(k - 1, start, end);
                let c = crate::region::coord_at(k - 1, start, end);
                let coord = (c.0 as i32, c.1 as i32, c.2 as i32);
                assert(in_region(coord, start, end));
                assert(chunks.contains_key(coord));
                assert(root is Empty);
                let queue = seq![(root, k - 1)];
                let next = serve(prev, queue);
                assert(queue.drop_first() =~= Seq::<Pending>::empty());
                assert(drain(prev, queue) == drain(next.0, next.1));
                assert(drain(next.0, next.1) == next.0);
            },
        }
    }
}

/// The flattened region depends on the chunks of the region only: two grids
/// that hold the same chunks there flatten to the same records.
pub proof fn lemma_stage_reads_region_only(
    a: Map<Coord, Node>,
    b: Map<Coord, Node>,
    start: Coord,
    end: Coord,
)
    requires
        forall|c: Coord| in_region(c, start, end) ==> a.contains_key(c) == b.contains_key(c),
        forall|c: Coord| in_region(c, start, end) && a.contains_key(c) ==> a[c] == b[c],
    ensures
        stage_output(a, start, end) == stage_output(b, start, end),
{
    lemma_staged_reads_region_only(a, b, start, end, volume(start, end));
}

proof fn lemma_staged_reads_region_only(
    a: Map<Coord, Node>,
    b: Map<Coord, Node>,
    start: Coord,
    end: Coord,
    k: nat,
)
    requires
        k <= volume(start, end),
        forall|c: Coord| in_region(c, start, end) ==> a.contains_key(c) == b.contains_key(c),
        forall|c: Coord| in_region(c, start, end) && a.contains_key(c) ==> a[c] == b[c],
    ensures
        staged(a, start, end, k) == staged(b, start, end, k),
    decreases k,
{
    if k > 0 {
        lemma_staged_reads_region_only(a, b, start, end, (k - 1) as nat);
        lemma_coord_at(k - 1, start, end);
        let c = crate::region::coord_at(k - 1, start, end);
        let coord = (c.0 as i32, c.1 as i32, c.2 as i32);
        assert(in_region(coord, start, end));
        assert(chunk_at(a, k - 1, start, end) == chunk_at(b, k - 1, start, end));
    }
}

/// Number of branches of a tree.
pub open spec fn branch_count(n: Node) -> nat
    decreases n,
{
    match n {
        Node::Branch(b) => 1 + forest_branches(b.children@),
        _ => 0,
    }
}

/// Number of branches of a sequence of trees.
pub open spec fn forest_branches(s: Seq<Node>) -> nat
    decreases s,
{
    if s.len() == 0 {
        0
    } else {
        branch_count(s.last()) + forest_branches(s.drop_last())
    }
}

/// Number of branches of the chunks of the first `k` root slots.
pub open spec fn region_branches(chunks: Map<Coord, Node>, start: Coord, end: Coord, k: nat) -> nat
    decreases k,
{
    if k == 0 {
        0
    } else {
        region_branches(chunks, start, end, (k - 1) as nat) + branch_count(
            tree_of(chunk_at(chunks, k - 1, start, end)),
        )
    }
}

/// The branches of two sequences are counted one sequence after the other.
proof fn lemma_forest_branches_append(a: Seq<Node>, b: Seq<Node>)
    ensures
        forest_branches(a + b) == forest_branches(a) + forest_branches(b),
    decreases b.len(),
{
    if b.len() == 0 {
        assert(a + b =~= a);
    } else {
        assert((a + b).last() == b.last());
        assert((a + b).drop_last() =~= a + b.drop_last());
        lemma_forest_branches_append(a, b.drop_last());
    }
}

/// The first tree of a sequence counts like any other.
proof fn lemma_forest_branches_first(s: Seq<Node>)
    requires
        s.len() > 0,
    ensures
        forest_branches(s) == branch_count(s[0]) + forest_branches(s.drop_first()),
{
    let head = seq![s[0]];
    assert(s =~= head + s.drop_first());
    lemma_forest_branches_append(head, s.drop_first());
    assert(head.drop_last() =~= Seq::<Node>::empty());
    assert(forest_branches(head) == branch_count(head.last()) + forest_branches(head.drop_last()));
}

/// Flattening appends 64 records for every branch that is queued or lies
/// below a queued node, and nothing else.
pub proof fn lemma_drain_length(nodes: Seq<GpuNode>, queue: Seq<Pending>)
    requires
        forall|i: int| 0 <= i < queue.len() ==> 0 <= (#[trigger] queue[i]).1 < nodes.len(),
        forall|i: int| 0 <= i < queue.len() ==> (#[trigger] queue[i]).0.well_formed(),
    ensures
        drain(nodes, queue).len() == nodes.len() + 64 * forest_branches(queue_nodes(queue)),
    decreases forest_count(queue_nodes(queue)),
{
    if queue.len() > 0 {
        lemma_serving_shrinks(queue, nodes.len() as int);
        let next = serve(nodes, queue);
        let (node, index) = queue[0];
        let rest = queue.drop_first();
        lemma_forest_branches_first(queue_nodes(queue));
        assert(queue_nodes(queue).drop_first() =~= queue_nodes(rest));
        assert forall|i: int| 0 <= i < next.1.len() implies 0 <= (#[trigger] next.1[i]).1
            < next.0.len() && next.1[i].0.well_formed() by {
            if i < rest.len() {
                assert(next.1[i] == queue[i + 1]);
            } else {
                match node {
                    Node::Branch(b) => {
                        assert(next.1[i].0 == b.children@[i - rest.len()]);
                    },
                    _ => {},
                }
            }
        }
        match node {
            Node::Branch(b) => {
                let kids = child_queue(b.children@, nodes.len() as int);
                assert(queue_nodes(rest + kids) =~= queue_nodes(rest) + b.children@);
                lemma_forest_branches_append(queue_nodes(rest), b.children@);
            },
            _ => {},
        }
        lemma_drain_length(next.0, next.1);
    } else {
        assert(queue_nodes(queue) =~= Seq::<Node>::empty());
    }
}

/// The flattened region has one record for every root slot and 64 for every
/// branch of a chunk of the region.
pub proof fn lemma_stage_length(chunks: Map<Coord, Node>, start: Coord, end: Coord)
    requires
        region_well_formed(chunks, start, end),
    ensures
        stage_output(chunks, start, end).len() == volume(start, end) + 64 * region_branches(
            chunks,
            start,
            end,
            volume(start, end),
        ),
{
    lemma_staged_length(chunks, start, end, volume(start, end));
}

proof fn lemma_staged_length(chunks: Map<Coord, Node>, start: Coord, end: Coord, k: nat)
    requires
        k <= volume(start, end),
        region_well_formed(chunks, start, end),
    ensures
        staged(chunks, start, end, k).len() == volume(start, end) + 64 * region_branches(
            chunks,
            start,
            end,
            k,
        ),
    decreases k,
{
    if k > 0 {
        lemma_staged_length(chunks, start, end, (k - 1) as nat);
        let prev = staged(chunks, start, end, (k - 1) as nat);
        match chunk_at(chunks, k - 1, start, end) {
            None => {},
            Some(root) => {
                lemma_coord_at(k - 1, start, end);
                let c = crate::region::coord_at(k - 1, start, end);
                let coord = (c.0 as i32, c.1 as i32, c.2 as i32);
                assert(in_region(coord, start, end));
                assert(chunks.contains_key(coord));
                let queue = seq![(root, k - 1)];
                lemma_drain_length(prev, queue);
                assert(queue_nodes(queue) =~= seq![root]);
                lemma_forest_branches_first(seq![root]);
                assert(seq![root].drop_first() =~= Seq::<Node>::empty());
            },
        }
    }
}

/// Whether a voxel is present below a node depends on the voxel's slots from
/// the node's level down only.
pub proof fn lemma_occupied_by_path(node: Node, level: nat, p: (u8, u8, u8), q: (u8, u8, u8))
    requires
        same_path(p, q, level),
        level <= 3,
    ensures
        node.occupied_at(level, p.0, p.1, p.2) == node.occupied_at(level, q.0, q.1, q.2),
    decreases node,
{
    match node {
        Node::Branch(b) => {
            if level > 0 {
                let s = slot(p.0, p.1, p.2, level);
                lemma_slot_range(p.0, p.1, p.2, level);
                if s < b.children@.len() {
                    lemma_occupied_by_path(b.children@[s], (level - 1) as nat, p, q);
                }
            }
        },
        _ => {},
    }
}

/// The coordinate that has the digit `d` on `level` and the digits of `c`
/// below it.
spec fn with_digit(c: u8, level: nat, d: int) -> u8 {
    ((c as int) % place(level) + place(level) * d) as u8
}

/// Putting a digit on a level of a coordinate leaves the digits below as
/// they were.
proof fn lemma_with_digit(c: u8, level: nat, d: int)
    requires
        level <= 3,
        0 <= d < 4,
    ensures
        digit(with_digit(c, level, d), level) == d,
        forall|k: nat| k < level ==> digit(with_digit(c, level, d), k) == digit(c, k),
{
    let du = d as u8;
    if level == 0 {
        assert(((c % 1 + 1 * du) as u8 / 1) % 4 == du) by (bit_vector)
            requires
                du < 4,
        ;
    } else if level == 1 {
        assert(((c % 4 + 4 * du) as u8 / 4) % 4 == du && ((c % 4 + 4 * du) as u8 / 1) % 4 == (c / 1)
            % 4) by (bit_vector)
            requires
                du < 4,
        ;
    } else if level == 2 {
        assert(((c % 16 + 16 * du) as u8 / 16) % 4 == du && ((c % 16 + 16 * du) as u8 / 4) % 4 == (c
            / 4) % 4 && ((c % 16 + 16 * du) as u8 / 1) % 4 == (c / 1) % 4) by (bit_vector)
            requires
                du < 4,
        ;
    } else {
        assert(((c % 64 + 64 * du) as u8 / 64) % 4 == du && ((c % 64 + 64 * du) as u8 / 16) % 4 == (
        c / 16) % 4 && ((c % 64 + 64 * du) as u8 / 4) % 4 == (c / 4) % 4 && ((c % 64 + 64 * du) as u8
            / 1) % 4 == (c / 1) % 4) by (bit_vector)
            requires
                du < 4,
        ;
    }
}

/// The three digits that make up a slot.
spec fn slot_digits(s: int) -> (int, int, int) {
    (s % 4, (s / 4) % 4, s / 16)
}

/// A slot is made up of three digits.
proof fn lemma_slot_digits_range(s: int)
    requires
        0 <= s < 64,
    ensures
        0 <= slot_digits(s).0 < 4,
        0 <= slot_digits(s).1 < 4,
        0 <= slot_digits(s).2 < 4,
        slot_digits(s).0 + 4 * slot_digits(s).1 + 16 * slot_digits(s).2 == s,
{
}

/// The voxel that has the slot `s` on `level` and the slots of `w` below.
spec fn with_slot(w: (u8, u8, u8), level: nat, s: int) -> (u8, u8, u8) {
    let d = slot_digits(s);
    (with_digit(w.0, level, d.0), with_digit(w.1, level, d.1), with_digit(w.2, level, d.2))
}

/// Putting a slot on a level of a voxel leaves the slots below as they were.
proof fn lemma_with_slot(w: (u8, u8, u8), level: nat, s: int)
    requires
        level <= 3,
        0 <= s < 64,
    ensures
        slot(with_slot(w, level, s).0, with_slot(w, level, s).1, with_slot(w, level, s).2, level)
            == s,
        level > 0 ==> same_path(with_slot(w, level, s), w, (level - 1) as nat),
{
    let d = slot_digits(s);
    lemma_slot_digits_range(s);
    lemma_with_digit(w.0, level, d.0);
    lemma_with_digit(w.1, level, d.1);
    lemma_with_digit(w.2, level, d.2);
    let v = with_slot(w, level, s);
    assert(digit(v.0, level) == d.0);
    assert(digit(v.1, level) == d.1);
    assert(digit(v.2, level) == d.2);
    if level > 0 {
        assert(digit(v.0, 0) == digit(w.0, 0) && digit(v.1, 0) == digit(w.1, 0) && digit(v.2, 0)
            == digit(w.2, 0));
        if level > 1 {
            assert(digit(v.0, 1) == digit(w.0, 1) && digit(v.1, 1) == digit(w.1, 1) && digit(
                v.2,
                1,
            ) == digit(w.2, 1));
        }
        if level > 2 {
            assert(digit(v.0, 2) == digit(w.0, 2) && digit(v.1, 2) == digit(w.1, 2) && digit(
                v.2,
                2,
            ) == digit(w.2, 2));
        }
    }
}

/// A tree that keeps nothing for nothing holds a voxel unless it is empty.
pub proof fn lemma_has_voxel(node: Node, level: nat) -> (v: (u8, u8, u8))
    requires
        node.shaped(level),
        node.tight(),
        !(node is Empty),
        level <= 3,
    ensures
        node.occupied_at(level, v.0, v.1, v.2),
    decreases node,
{
    match node {
        Node::Leaf(mask) => {
            assert(mask >> 0u64 == mask) by (bit_vector);
            let i = lemma_some_bit(mask, 0);
            let v = with_slot((0, 0, 0), 0, i);
            lemma_with_slot((0, 0, 0), 0, i);
            v
        },
        Node::Branch(b) => {
            let j = choose|j: int| 0 <= j < b.children@.len() && !(#[trigger] b.children@[j] is Empty);
            let child = b.children@[j];
            let w = lemma_has_voxel(child, (level - 1) as nat);
            let v = with_slot(w, level, j);
            lemma_with_slot(w, level, j);
            lemma_occupied_by_path(child, (level - 1) as nat, v, w);
            assert(node.occupied_at(level, v.0, v.1, v.2) == child.occupied_at(
                (level - 1) as nat,
                v.0,
                v.1,
                v.2,
            ));
            v
        },
        Node::Empty => (0, 0, 0),
    }
}

/// In a tree as insertion builds it, a node is empty exactly if no voxel is
/// present below it.
pub proof fn lemma_empty_iff_no_voxel(node: Node, level: nat)
    requires
        node.shaped(level),
        node.tight(),
        level <= 3,
    ensures
        node is Empty <==> forall|x: u8, y: u8, z: u8| !node.occupied_at(level, x, y, z),
{
    if !(node is Empty) {
        let v = lemma_has_voxel(node, level);
    }
}

} // verus!
