use voxel_svo::error::SvoError;
use voxel_svo::flatten::{flatten, presence_mask};
use voxel_svo::gpu::{GpuNode, GpuSceneHeader, PLACEHOLDER_COLOR};
use voxel_svo::loader::chunk_from_voxels;
use voxel_svo::reader::read_voxel;
use voxel_svo::region::{axis_extent, region_volume, reserve_roots, root_offset};
use voxel_svo::scene::Scene;
use voxel_svo::stager::Stager;
use voxel_svo::tree::{Node, Node64};

const BLANK: GpuNode = GpuNode { mask_h: 0, mask_l: 0, base: 0, color_index: 0 };

fn full_tree(level: u8) -> Node {
    if level == 0 {
        Node::Leaf(u64::MAX)
    } else {
        let mut b = Node64::new();
        for i in 0..64 {
            b.children[i] = full_tree(level - 1);
        }
        Node::Branch(b)
    }
}

#[test]
fn root_offset_is_row_major_from_the_start() {
    assert_eq!(root_offset((3, 3, 3), (0, 0, 0), (8, 8, 8)), 3 + 3 * 8 + 3 * 64);
    assert_eq!(root_offset((3, 3, 3), (0, 0, 0), (8, 8, 8)), 219);
    assert_eq!(root_offset((0, 0, 0), (0, 0, 0), (8, 8, 8)), 0);
    assert_eq!(root_offset((7, 7, 7), (0, 0, 0), (8, 8, 8)), 511);
    // the offset counts from the region's start, not from the origin
    assert_eq!(root_offset((-4, -4, -4), (-4, -4, -4), (4, 4, 4)), 0);
    assert_eq!(root_offset((-3, -4, -4), (-4, -4, -4), (4, 4, 4)), 1);
    assert_eq!(root_offset((3, 3, 3), (-4, -4, -4), (4, 4, 4)), 511);
    assert_eq!(root_offset((11, 21, 31), (10, 20, 30), (13, 25, 32)), 1 + 1 * 3 + 1 * 15);
}

#[test]
fn extents_and_volume() {
    assert_eq!(axis_extent(0, 8), 8);
    assert_eq!(axis_extent(-4, 4), 8);
    assert_eq!(axis_extent(5, 5), 0);
    assert_eq!(axis_extent(5, 2), 0);
    assert_eq!(axis_extent(i32::MIN, i32::MAX), u32::MAX as u64);
    assert_eq!(region_volume((0, 0, 0), (8, 8, 8)), 512);
    assert_eq!(region_volume((10, 20, 30), (13, 25, 32)), 3 * 5 * 2);
    assert_eq!(region_volume((0, 0, 0), (8, 0, 8)), 0);
    let side = u32::MAX as u128;
    assert_eq!(
        region_volume((i32::MIN, i32::MIN, i32::MIN), (i32::MAX, i32::MAX, i32::MAX)),
        side * side * side
    );
}

#[test]
fn reserve_roots_appends_one_blank_per_coordinate() {
    let mut nodes = vec![GpuNode::set_leaf(5, 1)];
    reserve_roots(&mut nodes, (0, 0, 0), (2, 3, 4));
    assert_eq!(nodes.len(), 1 + 24);
    assert_eq!(nodes[0], GpuNode::set_leaf(5, 1));
    assert!(nodes[1..].iter().all(|n| *n == BLANK));
    reserve_roots(&mut nodes, (0, 0, 0), (0, 3, 4));
    assert_eq!(nodes.len(), 25);
}

#[test]
fn presence_mask_has_a_bit_per_child_that_is_not_empty() {
    let mut b = Node64::new();
    assert_eq!(presence_mask(&b.children), 0);
    b.children[0] = Node::Leaf(1);
    b.children[5] = Node::Branch(Node64::new());
    b.children[63] = Node::Leaf(0);
    assert_eq!(presence_mask(&b.children), 1 | (1 << 5) | (1 << 63));
}

#[test]
fn single_voxel_chunk_in_an_eight_cubed_region() {
    let mut scene = Scene::new();
    scene.add_chunk(chunk_from_voxels(&vec![(0, 0, 0)]), (3, 3, 3));
    let mut stager = Stager::new();
    assert_eq!(stager.stage(&scene, (0, 0, 0), (8, 8, 8)), Ok(()));
    let nodes = &stager.gpu_nodes;
    assert_eq!(nodes.len(), 512 + 3 * 64);
    assert_eq!(
        stager.header,
        GpuSceneHeader { start: [0, 0, 0, 0], end: [8, 8, 8, 0], size: 704 }
    );
    for (i, n) in nodes.iter().enumerate() {
        let expected = match i {
            219 => GpuNode { mask_h: 0, mask_l: 1, base: 512, color_index: 0 },
            512 => GpuNode { mask_h: 0, mask_l: 1, base: 576, color_index: 0 },
            576 => GpuNode { mask_h: 0, mask_l: 1, base: 640, color_index: 0 },
            640 => GpuNode { mask_h: 0, mask_l: 1, base: 0, color_index: PLACEHOLDER_COLOR },
            _ => BLANK,
        };
        assert_eq!(*n, expected, "record {}", i);
    }
    assert!(read_voxel(nodes, 219, 0, 0, 0));
    assert!(!read_voxel(nodes, 219, 1, 0, 0));
    assert!(!read_voxel(nodes, 218, 0, 0, 0));
}

#[test]
fn invalid_region_fails_and_touches_nothing() {
    let mut scene = Scene::new();
    scene.add_chunk(chunk_from_voxels(&vec![(1, 1, 1)]), (0, 0, 0));
    scene.reset_changed();
    let mut stager = Stager::new();
    assert_eq!(stager.stage(&scene, (0, 0, 0), (1, 1, 1)), Ok(()));
    let nodes_before = stager.gpu_nodes.clone();
    let header_before = stager.header;

    assert_eq!(stager.stage(&scene, (5, 0, 0), (2, 0, 0)), Err(SvoError::InvalidRegion));
    assert_eq!(stager.gpu_nodes, nodes_before);
    assert_eq!(stager.header, header_before);
    assert!(!scene.world_changed());
    assert!(scene.get_chunk((0, 0, 0)).unwrap().has_voxel(1, 1, 1));

    assert_eq!(stager.stage(&scene, (0, 1, 0), (0, 0, 0)), Err(SvoError::InvalidRegion));
    assert_eq!(stager.stage(&scene, (0, 0, 9), (0, 0, 8)), Err(SvoError::InvalidRegion));
    assert_eq!(stager.gpu_nodes, nodes_before);
}

#[test]
fn empty_region_stages_nothing() {
    let mut scene = Scene::new();
    scene.add_chunk(chunk_from_voxels(&vec![(1, 1, 1)]), (0, 0, 0));
    for (start, end) in [
        ((0, 0, 0), (0, 0, 0)),
        ((0, 0, 0), (0, 4, 4)),
        ((0, 0, 0), (4, 0, 4)),
        ((0, 0, 0), (4, 4, 0)),
        ((-2, 3, 7), (5, 3, 9)),
    ] {
        let mut stager = Stager::new();
        assert_eq!(stager.stage(&scene, start, end), Ok(()));
        assert_eq!(stager.gpu_nodes.len(), 0);
        assert_eq!(stager.header.size, 0);
        assert_eq!(stager.header.start, [start.0, start.1, start.2, 0]);
        assert_eq!(stager.header.end, [end.0, end.1, end.2, 0]);
    }
}

#[test]
fn region_without_populated_chunks_is_all_blank() {
    let mut scene = Scene::new();
    // chunks outside the region, and an empty one inside
    scene.add_chunk(chunk_from_voxels(&vec![(1, 1, 1)]), (10, 0, 0));
    scene.add_chunk(Node::Empty, (1, 1, 1));
    let mut stager = Stager::new();
    assert_eq!(stager.stage(&scene, (0, 0, 0), (3, 4, 5)), Ok(()));
    assert_eq!(stager.gpu_nodes.len(), 60);
    assert_eq!(stager.header.size, 60);
    assert!(stager.gpu_nodes.iter().all(|n| *n == BLANK));
}

#[test]
fn restaging_replaces_the_previous_sequence() {
    let mut scene = Scene::new();
    scene.add_chunk(chunk_from_voxels(&vec![(1, 1, 1)]), (0, 0, 0));
    let mut stager = Stager::new();
    assert_eq!(stager.stage(&scene, (0, 0, 0), (2, 2, 2)), Ok(()));
    assert_eq!(stager.gpu_nodes.len(), 8 + 192);
    assert_eq!(stager.stage(&scene, (1, 0, 0), (2, 2, 2)), Ok(()));
    assert_eq!(stager.gpu_nodes.len(), 4);
    assert_eq!(stager.header.size, 4);
}

#[test]
fn a_leaf_at_the_root_replaces_its_slot() {
    let mut scene = Scene::new();
    scene.add_chunk(Node::Leaf(0xdead_beef_0000_0001), (0, 0, 0));
    let mut stager = Stager::new();
    assert_eq!(stager.stage(&scene, (0, 0, 0), (2, 1, 1)), Ok(()));
    assert_eq!(
        stager.gpu_nodes,
        vec![GpuNode::set_leaf(0xdead_beef_0000_0001, PLACEHOLDER_COLOR), BLANK]
    );
}

#[test]
fn a_branch_reserves_64_records_whatever_its_children() {
    let mut scene = Scene::new();
    scene.add_chunk(Node::Branch(Node64::new()), (0, 0, 0));
    let mut stager = Stager::new();
    assert_eq!(stager.stage(&scene, (0, 0, 0), (1, 1, 1)), Ok(()));
    assert_eq!(stager.gpu_nodes.len(), 65);
    assert_eq!(stager.gpu_nodes[0], GpuNode { mask_h: 0, mask_l: 0, base: 1, color_index: 0 });
    assert!(stager.gpu_nodes[1..].iter().all(|n| *n == BLANK));
}

#[test]
fn children_are_laid_out_breadth_first() {
    // two populated children on the first level: the blocks of both come
    // before the block of any grandchild
    let tree = chunk_from_voxels(&vec![(0, 0, 0), (64, 0, 0), (0, 0, 16)]);
    let mut nodes = vec![BLANK];
    assert_eq!(flatten(Some(&tree), &mut nodes, 0, u32::MAX), Ok(()));
    // root: children 0 and 1
    assert_eq!(nodes[0], GpuNode { mask_h: 0, mask_l: 0b11, base: 1, color_index: 0 });
    // level 2, in order: child 0 (slots 0 and 16), child 1 (slot 0)
    assert_eq!(nodes[1], GpuNode { mask_h: 0, mask_l: 1 | (1 << 16), base: 65, color_index: 0 });
    assert_eq!(nodes[2], GpuNode { mask_h: 0, mask_l: 1, base: 129, color_index: 0 });
    // level 1: the two children of node 1, then the child of node 2
    assert_eq!(nodes[65], GpuNode { mask_h: 0, mask_l: 1, base: 193, color_index: 0 });
    assert_eq!(nodes[65 + 16], GpuNode { mask_h: 0, mask_l: 1, base: 257, color_index: 0 });
    assert_eq!(nodes[129], GpuNode { mask_h: 0, mask_l: 1, base: 321, color_index: 0 });
    // leaves
    assert_eq!(nodes[193], GpuNode::set_leaf(1, PLACEHOLDER_COLOR));
    assert_eq!(nodes[257], GpuNode::set_leaf(1, PLACEHOLDER_COLOR));
    assert_eq!(nodes[321], GpuNode::set_leaf(1, PLACEHOLDER_COLOR));
    assert_eq!(nodes.len(), 1 + 6 * 64);
}

#[test]
fn flatten_of_a_missing_chunk_changes_nothing() {
    let mut nodes = vec![BLANK, GpuNode::set_leaf(3, 3)];
    assert_eq!(flatten(None, &mut nodes, 0, 2), Ok(()));
    assert_eq!(nodes, vec![BLANK, GpuNode::set_leaf(3, 3)]);
    assert_eq!(flatten(Some(&Node::Empty), &mut nodes, 0, 2), Ok(()));
    assert_eq!(nodes, vec![BLANK, GpuNode::set_leaf(3, 3)]);
}

#[test]
fn bases_increase_in_a_tree_without_empty_subtrees() {
    let tree = full_tree(2);
    let mut nodes = vec![BLANK];
    assert_eq!(flatten(Some(&tree), &mut nodes, 0, u32::MAX), Ok(()));
    assert_eq!(nodes.len(), 1 + 64 + 64 * 64);
    let bases: Vec<u32> = nodes.iter().map(|n| n.base).filter(|b| *b != 0).collect();
    assert_eq!(bases.len(), 1 + 64);
    assert_eq!(bases[0], 1);
    for pair in bases.windows(2) {
        assert_eq!(pair[0] + 64, pair[1]);
    }
    for (i, n) in nodes.iter().enumerate() {
        if i <= 64 {
            assert_eq!(n.mask(), u64::MAX);
            assert_eq!(n.base as usize, 1 + 64 * i);
        } else {
            assert_eq!(*n, GpuNode::set_leaf(u64::MAX, PLACEHOLDER_COLOR));
        }
    }
}

#[test]
fn bases_increase_in_a_sparse_tree() {
    let tree = chunk_from_voxels(&vec![(0, 0, 0), (63, 63, 63), (9, 40, 22), (200, 100, 50)]);
    let mut nodes = vec![BLANK; 5];
    assert_eq!(flatten(Some(&tree), &mut nodes, 2, u32::MAX), Ok(()));
    let mut last = nodes[2].base;
    assert_eq!(last, 5);
    for (i, n) in nodes.iter().enumerate().skip(5) {
        if n.base != 0 {
            assert!(n.base >= last + 64);
            assert!(n.base as usize > i);
            assert!(n.base as usize + 64 <= nodes.len());
            last = n.base;
        }
    }
}

#[test]
fn round_trip_through_the_flat_buffer() {
    let a = vec![(0, 0, 0), (1, 0, 0), (63, 63, 63), (31, 32, 33), (12, 0, 60)];
    let b = vec![(5, 5, 5), (0, 0, 0), (40, 41, 42)];
    let mut scene = Scene::new();
    scene.add_chunk(chunk_from_voxels(&a), (-1, 0, 2));
    scene.add_chunk(chunk_from_voxels(&b), (0, 1, 2));
    scene.add_chunk(chunk_from_voxels(&Vec::new()), (0, 0, 2));
    let (start, end) = ((-1, 0, 1), (1, 2, 3));
    let mut stager = Stager::new();
    assert_eq!(stager.stage(&scene, start, end), Ok(()));
    assert_eq!(stager.header.size as usize, stager.gpu_nodes.len());
    for cz in start.2..end.2 {
        for cy in start.1..end.1 {
            for cx in start.0..end.0 {
                let slot = root_offset((cx, cy, cz), start, end);
                let chunk = scene.get_chunk((cx, cy, cz));
                for x in (0..64u8).step_by(1) {
                    for y in (0..64u8).step_by(3) {
                        for z in (0..64u8).step_by(3) {
                            let in_tree = chunk.map_or(false, |c| c.has_voxel(x, y, z));
                            assert_eq!(read_voxel(&stager.gpu_nodes, slot, x, y, z), in_tree);
                        }
                    }
                }
            }
        }
    }
    let first = root_offset((-1, 0, 2), start, end);
    for v in &a {
        assert!(read_voxel(&stager.gpu_nodes, first, v.0, v.1, v.2));
    }
    let second = root_offset((0, 1, 2), start, end);
    for v in &b {
        assert!(read_voxel(&stager.gpu_nodes, second, v.0, v.1, v.2));
    }
}

#[test]
fn chunks_are_flattened_in_slot_order() {
    let mut scene = Scene::new();
    scene.add_chunk(chunk_from_voxels(&vec![(0, 0, 0)]), (1, 0, 0));
    scene.add_chunk(chunk_from_voxels(&vec![(0, 0, 0)]), (0, 1, 0));
    scene.add_chunk(chunk_from_voxels(&vec![(0, 0, 0)]), (0, 0, 1));
    let mut stager = Stager::new();
    assert_eq!(stager.stage(&scene, (0, 0, 0), (2, 2, 2)), Ok(()));
    // slots 1 (x), 2 (y), 4 (z): x runs fastest
    assert_eq!(stager.gpu_nodes[1].base, 8);
    assert_eq!(stager.gpu_nodes[2].base, 8 + 192);
    assert_eq!(stager.gpu_nodes[4].base, 8 + 2 * 192);
    assert_eq!(stager.gpu_nodes.len(), 8 + 3 * 192);
}

#[test]
fn capacity_is_the_largest_sequence_accepted() {
    let mut scene = Scene::new();
    scene.add_chunk(chunk_from_voxels(&vec![(0, 0, 0)]), (3, 3, 3));
    let mut exact = Stager::with_capacity(704);
    assert_eq!(exact.stage(&scene, (0, 0, 0), (8, 8, 8)), Ok(()));
    assert_eq!(exact.gpu_nodes.len(), 704);
    assert_eq!(exact.capacity, 704);

    let mut short = Stager::with_capacity(703);
    assert_eq!(short.stage(&scene, (0, 0, 0), (8, 8, 8)), Err(SvoError::CapacityExceeded));
    assert_eq!(short.gpu_nodes.len(), 0);
    assert_eq!(short.header, GpuSceneHeader::default());

    let mut tiny = Stager::with_capacity(511);
    assert_eq!(tiny.stage(&scene, (0, 0, 0), (8, 8, 8)), Err(SvoError::CapacityExceeded));
    assert_eq!(tiny.gpu_nodes.len(), 0);
}

#[test]
fn capacity_failure_keeps_the_previous_sequence() {
    let mut scene = Scene::new();
    scene.add_chunk(chunk_from_voxels(&vec![(0, 0, 0)]), (0, 0, 0));
    let mut stager = Stager::with_capacity(200);
    assert_eq!(stager.stage(&scene, (0, 0, 0), (1, 1, 1)), Ok(()));
    let before = stager.gpu_nodes.clone();
    let header = stager.header;
    assert_eq!(before.len(), 193);
    scene.add_chunk(chunk_from_voxels(&vec![(0, 0, 0), (4, 0, 0)]), (0, 0, 0));
    // two leaves need one record more than fits? no: the same blocks; a
    // second chunk does not fit
    scene.add_chunk(chunk_from_voxels(&vec![(0, 0, 0)]), (1, 0, 0));
    assert_eq!(stager.stage(&scene, (0, 0, 0), (2, 1, 1)), Err(SvoError::CapacityExceeded));
    assert_eq!(stager.gpu_nodes, before);
    assert_eq!(stager.header, header);
    assert_eq!(stager.capacity, 200);
}

#[test]
fn huge_region_exceeds_every_capacity() {
    let scene = Scene::new();
    let mut stager = Stager::new();
    assert_eq!(stager.capacity, u32::MAX);
    assert_eq!(
        stager.stage(&scene, (i32::MIN, i32::MIN, i32::MIN), (i32::MAX, i32::MAX, i32::MAX)),
        Err(SvoError::CapacityExceeded)
    );
    assert_eq!(stager.stage(&scene, (0, 0, 0), (65536, 65536, 1)), Err(SvoError::CapacityExceeded));
}

#[test]
fn flatten_fails_where_a_block_does_not_fit() {
    let tree = chunk_from_voxels(&vec![(0, 0, 0)]);
    let mut nodes = vec![BLANK];
    assert_eq!(flatten(Some(&tree), &mut nodes, 0, 192), Err(SvoError::CapacityExceeded));
    let mut nodes = vec![BLANK];
    assert_eq!(flatten(Some(&tree), &mut nodes, 0, 193), Ok(()));
    assert_eq!(nodes.len(), 193);
}

#[test]
fn new_scene_is_dirty_and_empty() {
    let scene = Scene::new();
    assert!(scene.world_changed());
    assert!(scene.get_chunk((0, 0, 0)).is_none());
}

#[test]
fn add_chunk_sets_the_flag_and_reset_clears_it() {
    let mut scene = Scene::new();
    scene.reset_changed();
    assert!(!scene.world_changed());
    scene.add_chunk(Node::Leaf(1), (1, -2, 3));
    assert!(scene.world_changed());
    assert_eq!(scene.get_chunk((1, -2, 3)), Some(&Node::Leaf(1)));
    scene.reset_changed();
    assert!(!scene.world_changed());
    assert_eq!(scene.get_chunk((1, -2, 3)), Some(&Node::Leaf(1)));
}

#[test]
fn add_chunk_overwrites_and_keeps_other_chunks() {
    let mut scene = Scene::new();
    scene.add_chunk(Node::Leaf(1), (0, 0, 0));
    scene.add_chunk(Node::Leaf(2), (0, 0, 1));
    scene.add_chunk(Node::Leaf(3), (0, 0, 0));
    assert_eq!(scene.get_chunk((0, 0, 0)), Some(&Node::Leaf(3)));
    assert_eq!(scene.get_chunk((0, 0, 1)), Some(&Node::Leaf(2)));
    assert_eq!(scene.get_chunk((1, 0, 0)), None);
    assert_eq!(scene.get_chunk((0, 1, 0)), None);
}

#[test]
fn every_coordinate_has_its_own_chunk() {
    let mut scene = Scene::new();
    let coords = [
        (i32::MIN, i32::MIN, i32::MIN),
        (i32::MAX, i32::MAX, i32::MAX),
        (-1, 0, 0),
        (0, -1, 0),
        (0, 0, -1),
        (0, 0, 0),
        (1, 0, 0),
        (0, 1, 0),
        (0, 0, 1),
    ];
    for (i, c) in coords.iter().enumerate() {
        scene.add_chunk(Node::Leaf(i as u64 + 1), *c);
    }
    for (i, c) in coords.iter().enumerate() {
        assert_eq!(scene.get_chunk(*c), Some(&Node::Leaf(i as u64 + 1)));
    }
}

#[test]
fn staging_does_not_clear_the_flag() {
    let mut scene = Scene::new();
    scene.add_chunk(Node::Leaf(1), (0, 0, 0));
    let mut stager = Stager::new();
    assert_eq!(stager.stage(&scene, (0, 0, 0), (1, 1, 1)), Ok(()));
    assert!(scene.world_changed());
}

#[test]
fn new_stager_holds_nothing() {
    let stager = Stager::new();
    assert_eq!(stager.gpu_nodes.len(), 0);
    assert_eq!(stager.colors.len(), 0);
    assert_eq!(stager.header, GpuSceneHeader::default());
    assert!(!read_voxel(&stager.gpu_nodes, 0, 0, 0, 0));
}

#[test]
fn fill_empty_covers_the_region_and_nothing_else() {
    let mut scene = Scene::new();
    scene.add_chunk(Node::Leaf(1), (0, 0, 0));
    scene.add_chunk(Node::Leaf(2), (4, 0, 0));
    scene.add_chunk(Node::Leaf(3), (-5, -4, -4));
    scene.reset_changed();
    scene.fill_empty((-4, -4, -4), (4, 4, 4));
    assert!(scene.world_changed());
    for z in -5..=4 {
        for y in -5..=4 {
            for x in -5..=4 {
                let inside = (-4..4).contains(&x) && (-4..4).contains(&y) && (-4..4).contains(&z);
                let expected = if inside {
                    Some(Node::Empty)
                } else if (x, y, z) == (4, 0, 0) {
                    Some(Node::Leaf(2))
                } else if (x, y, z) == (-5, -4, -4) {
                    Some(Node::Leaf(3))
                } else {
                    None
                };
                assert_eq!(scene.get_chunk((x, y, z)), expected.as_ref());
            }
        }
    }
}

#[test]
fn fill_empty_of_an_empty_region_adds_nothing() {
    let mut scene = Scene::new();
    scene.fill_empty((0, 0, 0), (3, 0, 3));
    scene.fill_empty((2, 2, 2), (1, 5, 5));
    for z in -1..6 {
        for y in -1..6 {
            for x in -1..6 {
                assert!(scene.get_chunk((x, y, z)).is_none());
            }
        }
    }
}

#[test]
fn byte_capacity_counts_whole_records() {
    assert_eq!(Stager::with_byte_capacity(131_072).capacity, 8192);
    assert_eq!(Stager::with_byte_capacity(0).capacity, 0);
    assert_eq!(Stager::with_byte_capacity(15).capacity, 0);
    assert_eq!(Stager::with_byte_capacity(16).capacity, 1);
    assert_eq!(Stager::with_byte_capacity(31).capacity, 1);
    assert_eq!(Stager::with_byte_capacity(16 * u32::MAX as u64).capacity, u32::MAX);
    assert_eq!(Stager::with_byte_capacity(u64::MAX).capacity, u32::MAX);
}

#[test]
fn staged_scene_fits_the_device_buffer_or_is_refused() {
    let mut scene = Scene::new();
    scene.add_chunk(chunk_from_voxels(&vec![(0, 0, 0)]), (3, 3, 3));
    let mut stager = Stager::with_byte_capacity(131_072);
    assert_eq!(stager.stage(&scene, (0, 0, 0), (8, 8, 8)), Ok(()));
    assert!(stager.gpu_nodes.len() * 16 <= 131_072);
    let mut small = Stager::with_byte_capacity(704 * 16 - 1);
    assert_eq!(small.stage(&scene, (0, 0, 0), (8, 8, 8)), Err(SvoError::CapacityExceeded));
}

fn branches(node: &Node) -> usize {
    match node {
        Node::Branch(b) => 1 + b.children.iter().map(branches).sum::<usize>(),
        _ => 0,
    }
}

#[test]
fn every_branch_costs_64_records() {
    let a = chunk_from_voxels(&vec![(0, 0, 0), (1, 0, 0), (63, 63, 63), (200, 32, 33)]);
    let b = chunk_from_voxels(&vec![(5, 5, 5), (100, 100, 100)]);
    let count = branches(&a) + branches(&b) + 1;
    let mut scene = Scene::new();
    scene.add_chunk(a, (0, 0, 0));
    scene.add_chunk(b, (1, 1, 0));
    scene.add_chunk(Node::Branch(Node64::new()), (2, 0, 0));
    scene.add_chunk(Node::Leaf(9), (2, 1, 0));
    scene.add_chunk(chunk_from_voxels(&vec![(1, 1, 1)]), (3, 0, 0));
    let mut stager = Stager::new();
    assert_eq!(stager.stage(&scene, (0, 0, 0), (3, 2, 1)), Ok(()));
    assert_eq!(stager.gpu_nodes.len(), 6 + 64 * count);
}

#[test]
fn flatten_of_nothing_needs_no_root_slot() {
    let mut nodes = vec![BLANK, GpuNode::set_leaf(3, 3)];
    for offset in [0usize, 1, 2, 3, 1000, usize::MAX] {
        assert_eq!(flatten(None, &mut nodes, offset, 2), Ok(()));
        assert_eq!(flatten(Some(&Node::Empty), &mut nodes, offset, 2), Ok(()));
        assert_eq!(nodes, vec![BLANK, GpuNode::set_leaf(3, 3)]);
    }
    let mut none: Vec<GpuNode> = Vec::new();
    assert_eq!(flatten(None, &mut none, 0, 0), Ok(()));
    assert_eq!(flatten(Some(&Node::Empty), &mut none, 7, 0), Ok(()));
    assert!(none.is_empty());
}

#[test]
fn blocks_leave_no_gap() {
    let tree = chunk_from_voxels(&vec![(0, 0, 0), (63, 63, 63), (9, 40, 22), (200, 100, 50)]);
    let mut nodes = vec![BLANK; 5];
    assert_eq!(flatten(Some(&tree), &mut nodes, 2, u32::MAX), Ok(()));
    // the root's block begins where the buffer ended, each later block where
    // the one before ends, and the last one ends the buffer
    let mut next = 5;
    assert_eq!(nodes[2].base, 5);
    next += 64;
    for n in nodes.iter().skip(5) {
        if n.base != 0 {
            assert_eq!(n.base as usize, next);
            next += 64;
        }
    }
    assert_eq!(next, nodes.len());
}
