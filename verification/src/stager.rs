use vstd::prelude::*;
use crate::error::SvoError;
use crate::flatten::{blank, flatten, flatten_root, lemma_drain_grows, option_node};
use crate::gpu::{GpuNode, GpuSceneHeader, GPU_NODE_BYTES};
use crate::region::{
    coord_at, extent, lemma_row_major, region_volume, reserve_roots, root_offset, row_major,
    valid_region, volume, Coord,
};
use crate::scene::Scene;
use crate::tree::Node;

verus! {

/// The chunk, if any, whose root slot is `k`.
pub open spec fn chunk_at(chunks: Map<Coord, Node>, k: int, start: Coord, end: Coord) -> Option<
    Node,
> {
    let c = coord_at(k, start, end);
    let coord = (c.0 as i32, c.1 as i32, c.2 as i32);
    if chunks.contains_key(coord) {
        Some(chunks[coord])
    } else {
        None
    }
}

/// The buffer after the chunks of the first `k` root slots are flattened:
/// one blank record per root slot to begin with, then each chunk in the order
/// of its slot, a chunk's records all appended before the next chunk's.
pub open spec fn staged(chunks: Map<Coord, Node>, start: Coord, end: Coord, k: nat) -> Seq<GpuNode>
    decreases k,
{
    if k == 0 {
        blank(volume(start, end))
    } else {
        flatten_root(
            staged(chunks, start, end, (k - 1) as nat),
            chunk_at(chunks, k - 1, start, end),
            k - 1,
        )
    }
}

/// The flattened region: every chunk of it flattened.
pub open spec fn stage_output(chunks: Map<Coord, Node>, start: Coord, end: Coord) -> Seq<GpuNode> {
    staged(chunks, start, end, volume(start, end))
}

/// The buffer only grows while the chunks are flattened, and it starts with
/// the root slots.
pub proof fn lemma_staged_grows(chunks: Map<Coord, Node>, start: Coord, end: Coord, i: nat, j: nat)
    requires
        i <= j <= volume(start, end),
    ensures
        volume(start, end) <= staged(chunks, start, end, i).len() <= staged(
            chunks,
            start,
            end,
            j,
        ).len(),
    decreases j,
{
    if j > 0 {
        let fewer = (j - 1) as nat;
        if i < j {
            lemma_staged_grows(chunks, start, end, i, fewer);
        } else {
            lemma_staged_grows(chunks, start, end, fewer, fewer);
        }
        let before = staged(chunks, start, end, fewer);
        match chunk_at(chunks, j - 1, start, end) {
            Some(root) => {
                lemma_drain_grows(before, seq![(root, j - 1)]);
            },
            None => {},
        }
    }
}

/// The root slot of the chunk at `(x, y, z)`, also for a coordinate one
/// beyond the end of its row, plane or region.
spec fn slot_of(x: int, y: int, z: int, start: Coord, end: Coord) -> int {
    (x - start.0) + (y - start.1) * extent(start.0, end.0) + (z - start.2) * (extent(
        start.0,
        end.0,
    ) * extent(start.1, end.1))
}

/// The slot after the last of a row is the first of the next row, the slot
/// after the last row of a plane is the first of the next plane, and the slot
/// after the last plane is the region's volume.
proof fn lemma_slot_steps(y: int, z: int, start: Coord, end: Coord)
    requires
        valid_region(start, end),
    ensures
        slot_of(end.0 as int, y, z, start, end) == slot_of(start.0 as int, y + 1, z, start, end),
        slot_of(start.0 as int, end.1 as int, z, start, end) == slot_of(
            start.0 as int,
            start.1 as int,
            z + 1,
            start,
            end,
        ),
        slot_of(start.0 as int, start.1 as int, start.2 as int, start, end) == 0,
        slot_of(start.0 as int, start.1 as int, end.2 as int, start, end) == volume(start, end),
{
    let w = extent(start.0, end.0) as int;
    let h = extent(start.1, end.1) as int;
    let d = extent(start.2, end.2) as int;
    assert((y + 1 - start.1) * w == (y - start.1) * w + w) by (nonlinear_arith);
    assert((z + 1 - start.2) * (w * h) == (z - start.2) * (w * h) + h * w) by (nonlinear_arith);
    assert(d * (w * h) == w * h * d) by (nonlinear_arith);
}

/// Flattens a region of the grid into one sequence of node records and the
/// header that describes it.
pub struct Stager {
    /// The header of the sequence staged last.
    pub header: GpuSceneHeader,
    /// The sequence staged last: the root slots, then the appended records.
    pub gpu_nodes: Vec<GpuNode>,
    /// The colour table that leaf records point into.
    pub colors: Vec<u32>,
    /// The largest number of records that a staged sequence may have.
    pub capacity: u32,
}

impl Stager {
    /// A stager that has staged nothing. Its capacity is the most that the
    /// record format can address: `base` and `size` are 32-bit.
    pub fn new() -> (stager: Self)
        ensures
            stager.gpu_nodes@.len() == 0,
            stager.header.describes((0, 0, 0), (0, 0, 0), 0),
            stager.capacity == u32::MAX,
            stager.colors@.len() == 0,
    {
        Self {
            header: GpuSceneHeader::default(),
            gpu_nodes: Vec::new(),
            colors: Vec::new(),
            capacity: u32::MAX,
        }
    }

    /// A stager for a destination that holds `capacity` records.
    pub fn with_capacity(capacity: u32) -> (stager: Self)
        ensures
            stager.gpu_nodes@.len() == 0,
            stager.header.describes((0, 0, 0), (0, 0, 0), 0),
            stager.capacity == capacity,
            stager.colors@.len() == 0,
    {
        Self {
            header: GpuSceneHeader::default(),
            gpu_nodes: Vec::new(),
            colors: Vec::new(),
            capacity,
        }
    }

    /// A stager for a destination buffer of `bytes` bytes: it holds as many
    /// records as fit into the buffer whole, and no more than the record
    /// format can address.
    pub fn with_byte_capacity(bytes: u64) -> (stager: Self)
        ensures
            stager.gpu_nodes@.len() == 0,
            stager.header.describes((0, 0, 0), (0, 0, 0), 0),
            stager.colors@.len() == 0,
            stager.capacity == if bytes / GPU_NODE_BYTES <= u32::MAX {
                bytes / GPU_NODE_BYTES
            } else {
                u32::MAX as u64
            },
    {
        let records = bytes / GPU_NODE_BYTES;
        if records <= u32::MAX as u64 {
            Stager::with_capacity(records as u32)
        } else {
            Stager::with_capacity(u32::MAX)
        }
    }

    /// Flattens the chunks of the region from `start` up to, not including,
    /// `end`. On success the stager holds the flattened sequence and its
    /// header. A region whose start lies beyond its end on some axis is
    /// refused, and so is one whose flattened sequence would have more
    /// records than the capacity; the stager then keeps what it held.
    pub fn stage(&mut self, chunks: &Scene, start: Coord, end: Coord) -> (r: Result<(), SvoError>)
        ensures
            !valid_region(start, end) ==> r == Err::<(), SvoError>(SvoError::InvalidRegion),
            valid_region(start, end) && stage_output(chunks@, start, end).len() > old(self).capacity
                ==> r == Err::<(), SvoError>(SvoError::CapacityExceeded),
            valid_region(start, end) && stage_output(chunks@, start, end).len() <= old(self).capacity
                ==> r is Ok,
            r is Err ==> *final(self) == *old(self),
            chunks.chunks_well_formed(),
            r is Ok ==> {
                &&& final(self).gpu_nodes@ == stage_output(chunks@, start, end)
                &&& final(self).header.describes(
                    start,
                    end,
                    stage_output(chunks@, start, end).len() as int,
                )
                &&& final(self).capacity == old(self).capacity
                &&& final(self).colors == old(self).colors
            },
    {
        proof {
            use_type_invariant(chunks);
            chunks.lemma_chunks_well_formed();
        }
        if start.0 > end.0 || start.1 > end.1 || start.2 > end.2 {
            return Err(SvoError::InvalidRegion);
        }
        let capacity = self.capacity;
        let count = region_volume(start, end);
        proof {
            lemma_staged_grows(chunks@, start, end, 0, volume(start, end));
        }
        if count > capacity as u128 {
            return Err(SvoError::CapacityExceeded);
        }
        let mut nodes: Vec<GpuNode> = Vec::new();
        reserve_roots(&mut nodes, start, end);
        assert(nodes@ =~= blank(volume(start, end)));
        let ghost mut k: nat = 0;
        proof {
            lemma_slot_steps(0, 0, start, end);
        }
        let mut z: i32 = start.2;
        while z < end.2
            invariant
                valid_region(start, end),
                start.2 <= z <= end.2,
                k == slot_of(start.0 as int, start.1 as int, z as int, start, end),
                k <= volume(start, end) <= capacity,
                nodes@ == staged(chunks@, start, end, k),
                nodes@.len() <= capacity,
                capacity == self.capacity,
                *self == *old(self),
            decreases end.2 - z,
        {
            let mut y: i32 = start.1;
            while y < end.1
                invariant
                    valid_region(start, end),
                    start.2 <= z < end.2,
                    start.1 <= y <= end.1,
                    k == slot_of(start.0 as int, y as int, z as int, start, end),
                    k <= volume(start, end) <= capacity,
                    nodes@ == staged(chunks@, start, end, k),
                    nodes@.len() <= capacity,
                    capacity == self.capacity,
                    *self == *old(self),
                decreases end.1 - y,
            {
                let mut x: i32 = start.0;
                while x < end.0
                    invariant
                        valid_region(start, end),
                        start.2 <= z < end.2,
                        start.1 <= y < end.1,
                        start.0 <= x <= end.0,
                        k == slot_of(x as int, y as int, z as int, start, end),
                        k <= volume(start, end) <= capacity,
                        nodes@ == staged(chunks@, start, end, k),
                        nodes@.len() <= capacity,
                        capacity == self.capacity,
                        *self == *old(self),
                    decreases end.0 - x,
                {
                    proof {
                        lemma_row_major((x, y, z), start, end);
                        lemma_staged_grows(chunks@, start, end, k, k);
                    }
                    let offset = root_offset((x, y, z), start, end);
                    let chunk = chunks.get_chunk((x, y, z));
                    assert(option_node(chunk) == chunk_at(chunks@, k as int, start, end));
                    let flattened = flatten(chunk, &mut nodes, offset, capacity);
                    proof {
                        k = k + 1;
                    }
                    if flattened.is_err() {
                        proof {
                            lemma_staged_grows(chunks@, start, end, k, volume(start, end));
                        }
                        return Err(SvoError::CapacityExceeded);
                    }
                    x = x + 1;
                }
                proof {
                    lemma_slot_steps(y as int, z as int, start, end);
                }
                y = y + 1;
            }
            proof {
                lemma_slot_steps(y as int, z as int, start, end);
            }
            z = z + 1;
        }
        proof {
            lemma_slot_steps(0, 0, start, end);
        }
        self.header = GpuSceneHeader {
            start: [start.0, start.1, start.2, 0],
            end: [end.0, end.1, end.2, 0],
            size: nodes.len() as u32,
        };
        self.gpu_nodes = nodes;
        Ok(())
    }
}

} // verus!
