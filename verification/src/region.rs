use vstd::prelude::*;
use vstd::arithmetic::div_mod::lemma_fundamental_div_mod_converse;
use crate::flatten::blank;
use crate::gpu::GpuNode;

verus! {

/// A chunk coordinate.
pub type Coord = (i32, i32, i32);

/// Number of chunk coordinates from `lo` up to, not including, `hi`.
pub open spec fn extent(lo: i32, hi: i32) -> nat {
    if hi > lo {
        (hi - lo) as nat
    } else {
        0
    }
}

/// Number of chunk coordinates of the region from `start` up to, not
/// including, `end`: the number of its root slots.
pub open spec fn volume(start: Coord, end: Coord) -> nat {
    extent(start.0, end.0) * extent(start.1, end.1) * extent(start.2, end.2)
}

/// A region whose start does not lie beyond its end on any axis.
pub open spec fn valid_region(start: Coord, end: Coord) -> bool {
    start.0 <= end.0 && start.1 <= end.1 && start.2 <= end.2
}

/// Whether `coord` lies in the region.
pub open spec fn in_region(coord: Coord, start: Coord, end: Coord) -> bool {
    &&& start.0 <= coord.0 < end.0
    &&& start.1 <= coord.1 < end.1
    &&& start.2 <= coord.2 < end.2
}

/// The root slot of `coord`: row-major, x running fastest.
pub open spec fn row_major(coord: Coord, start: Coord, end: Coord) -> int {
    (coord.0 - start.0) + (coord.1 - start.1) * extent(start.0, end.0) + (coord.2 - start.2) * (
    extent(start.0, end.0) * extent(start.1, end.1))
}

/// The chunk coordinate of root slot `k`.
pub open spec fn coord_at(k: int, start: Coord, end: Coord) -> (int, int, int) {
    let width = extent(start.0, end.0) as int;
    let height = extent(start.1, end.1) as int;
    (start.0 + k % width, start.1 + (k / width) % height, start.2 + (k / width) / height)
}

/// Inside the region, the root slot of a coordinate is one of the region's
/// slots, and it is the slot of that coordinate only.
pub proof fn lemma_row_major(coord: Coord, start: Coord, end: Coord)
    requires
        in_region(coord, start, end),
    ensures
        0 <= row_major(coord, start, end) < volume(start, end),
        coord_at(row_major(coord, start, end), start, end) == (
            coord.0 as int,
            coord.1 as int,
            coord.2 as int,
        ),
{
    let w = extent(start.0, end.0) as int;
    let h = extent(start.1, end.1) as int;
    let d = extent(start.2, end.2) as int;
    let dx = coord.0 - start.0;
    let dy = coord.1 - start.1;
    let dz = coord.2 - start.2;
    let k = row_major(coord, start, end);
    let rows = dy + dz * h;
    assert(dz * (w * h) == (dz * h) * w) by (nonlinear_arith);
    assert((dy + dz * h) * w == dy * w + (dz * h) * w) by (nonlinear_arith);
    assert(k == rows * w + dx);
    assert(0 <= rows) by (nonlinear_arith)
        requires
            0 <= dy,
            0 <= dz,
            0 <= h,
            rows == dy + dz * h,
    ;
    assert(rows <= h * d - 1) by (nonlinear_arith)
        requires
            0 <= dy < h,
            0 <= dz < d,
            rows == dy + dz * h,
    ;
    assert(0 <= rows * w + dx < w * h * d) by (nonlinear_arith)
        requires
            0 <= dx < w,
            0 <= rows <= h * d - 1,
    ;
    lemma_fundamental_div_mod_converse(k, w, rows, dx);
    lemma_fundamental_div_mod_converse(rows, h, dz, dy);
}

/// Every root slot of the region belongs to one coordinate of the region.
pub proof fn lemma_coord_at(k: int, start: Coord, end: Coord)
    requires
        0 <= k < volume(start, end),
    ensures
        ({
            let c = coord_at(k, start, end);
            &&& start.0 <= c.0 < end.0
            &&& start.1 <= c.1 < end.1
            &&& start.2 <= c.2 < end.2
            &&& row_major((c.0 as i32, c.1 as i32, c.2 as i32), start, end) == k
        }),
{
    let w = extent(start.0, end.0) as int;
    let h = extent(start.1, end.1) as int;
    let d = extent(start.2, end.2) as int;
    assert(w > 0 && h > 0 && d > 0) by (nonlinear_arith)
        requires
            0 <= k < w * h * d,
            w >= 0,
            h >= 0,
            d >= 0,
    ;
    let rows = k / w;
    let dx = k % w;
    let dy = rows % h;
    let dz = rows / h;
    vstd::arithmetic::div_mod::lemma_fundamental_div_mod(k, w);
    vstd::arithmetic::div_mod::lemma_fundamental_div_mod(rows, h);
    vstd::arithmetic::div_mod::lemma_mod_bound(k, w);
    vstd::arithmetic::div_mod::lemma_mod_bound(rows, h);
    assert(k == w * rows + dx);
    assert(rows == h * dz + dy);
    assert(0 <= rows) by (nonlinear_arith)
        requires
            k == w * rows + dx,
            0 <= dx < w,
            0 <= k,
    ;
    assert(0 <= dz) by (nonlinear_arith)
        requires
            rows == h * dz + dy,
            0 <= dy < h,
            0 <= rows,
    ;
    assert(dz < d) by (nonlinear_arith)
        requires
            k == w * rows + dx,
            rows == h * dz + dy,
            0 <= dx < w,
            0 <= dy < h,
            k < w * h * d,
            0 <= dz,
    ;
    assert(dz * (w * h) == w * (h * dz)) by (nonlinear_arith);
    assert(w * (h * dz + dy) == w * (h * dz) + dy * w) by (nonlinear_arith);
}

/// Number of coordinates from `lo` up to `hi`.
pub fn axis_extent(lo: i32, hi: i32) -> (e: u64)
    ensures
        e == extent(lo, hi),
        e <= u32::MAX,
{
    if hi > lo {
        (hi as i64 - lo as i64) as u64
    } else {
        0
    }
}

/// Number of root slots of the region.
pub fn region_volume(start: Coord, end: Coord) -> (v: u128)
    ensures
        v == volume(start, end),
{
    let w = axis_extent(start.0, end.0) as u128;
    let h = axis_extent(start.1, end.1) as u128;
    let d = axis_extent(start.2, end.2) as u128;
    assert(w * h <= 0xffff_ffff * 0xffff_ffff) by (nonlinear_arith)
        requires
            w <= 0xffff_ffff,
            h <= 0xffff_ffff,
    ;
    assert(w * h * d <= 0xffff_ffff * 0xffff_ffff * 0xffff_ffff) by (nonlinear_arith)
        requires
            w * h <= 0xffff_ffff * 0xffff_ffff,
            d <= 0xffff_ffff,
    ;
    w * h * d
}

/// Appends one blank record for every chunk coordinate of the region.
pub fn reserve_roots(nodes: &mut Vec<GpuNode>, start: Coord, end: Coord)
    requires
        old(nodes)@.len() + volume(start, end) <= usize::MAX,
    ensures
        final(nodes)@ == old(nodes)@ + blank(volume(start, end)),
{
    let count = region_volume(start, end) as usize;
    let mut i: usize = 0;
    while i < count
        invariant
            i <= count,
            count == volume(start, end),
            old(nodes)@.len() + count <= usize::MAX,
            nodes@ == old(nodes)@ + blank(i as nat),
        decreases count - i,
    {
        nodes.push(GpuNode::default());
        i += 1;
        assert(nodes@ =~= old(nodes)@ + blank(i as nat));
    }
}

/// The root slot of `coord` in the region: the offset of the coordinate from
/// the region's start on each axis, x running fastest, then y, then z.
pub fn root_offset(coord: Coord, start: Coord, end: Coord) -> (offset: usize)
    requires
        in_region(coord, start, end),
        volume(start, end) <= usize::MAX,
    ensures
        offset == row_major(coord, start, end),
        offset < volume(start, end),
{
    let x_size = axis_extent(start.0, end.0) as u128;
    let y_size = axis_extent(start.1, end.1) as u128;
    let dx = (coord.0 as i64 - start.0 as i64) as u128;
    let dy = (coord.1 as i64 - start.1 as i64) as u128;
    let dz = (coord.2 as i64 - start.2 as i64) as u128;
    proof {
        lemma_row_major(coord, start, end);
        assert(dy * x_size <= 0xffff_ffff * 0xffff_ffff) by (nonlinear_arith)
            requires
                dy <= 0xffff_ffff,
                x_size <= 0xffff_ffff,
        ;
        assert(x_size * y_size <= 0xffff_ffff * 0xffff_ffff) by (nonlinear_arith)
            requires
                y_size <= 0xffff_ffff,
                x_size <= 0xffff_ffff,
        ;
        assert(dz * (x_size * y_size) <= 0xffff_ffff * (0xffff_ffff * 0xffff_ffff))
            by (nonlinear_arith)
            requires
                dz <= 0xffff_ffff,
                x_size * y_size <= 0xffff_ffff * 0xffff_ffff,
        ;
    }
    (dx + dy * x_size + dz * (x_size * y_size)) as usize
}

} // verus!
