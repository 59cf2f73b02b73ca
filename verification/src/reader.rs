use vstd::prelude::*;
use crate::bits::bit_set;
use crate::gpu::GpuNode;
use crate::tree::{slot, slot_index};

verus! {

/// Whether a reader of the buffer finds the voxel `(x, y, z)` below the
/// record at `index`, which stands `level` branch levels above the leaves:
/// above the leaves it follows `base` and the voxel's slot to the child, as
/// long as the slot's presence bit is set; at the leaves it reads the voxel's
/// bit. Outside the buffer there is no voxel.
pub open spec fn flat_occupied(buf: Seq<GpuNode>, index: int, level: nat, x: u8, y: u8, z: u8) -> bool
    decreases level,
{
    if 0 <= index < buf.len() {
        let record = buf[index];
        let s = slot(x, y, z, level);
        bit_set(record.spec_mask(), s) && (level == 0 || flat_occupied(
            buf,
            record.base + s,
            (level - 1) as nat,
            x,
            y,
            z,
        ))
    } else {
        false
    }
}

/// Reads the occupancy of the voxel `(x, y, z)` out of a flattened buffer,
/// below the record at `index`, which stands `level` branch levels above the
/// leaves.
pub fn read_at(nodes: &Vec<GpuNode>, index: u64, level: u8, x: u8, y: u8, z: u8) -> (present: bool)
    requires
        level <= 3,
    ensures
        present == flat_occupied(nodes@, index as int, level as nat, x, y, z),
    decreases level,
{
    if index >= nodes.len() as u64 {
        return false;
    }
    let record = &nodes[index as usize];
    let s = slot_index(x, y, z, level) as u64;
    let mask = record.mask();
    if (mask >> s) & 1 != 1 {
        return false;
    }
    if level == 0 {
        true
    } else {
        read_at(nodes, record.base as u64 + s, level - 1, x, y, z)
    }
}

/// Reads the occupancy of the voxel `(x, y, z)` of the chunk whose root slot
/// is `root`.
pub fn read_voxel(nodes: &Vec<GpuNode>, root: usize, x: u8, y: u8, z: u8) -> (present: bool)
    ensures
        present == flat_occupied(nodes@, root as int, 3, x, y, z),
{
    read_at(nodes, root as u64, 3, x, y, z)
}

} // verus!
