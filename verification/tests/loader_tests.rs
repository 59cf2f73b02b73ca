use voxel_svo::error::SvoError;
use voxel_svo::loader::Loader;
use voxel_svo::tree::Node;
use voxel_svo::vox::{nesting_within, MAX_NESTING};

fn chunk(id: &str, content: &[u8], children: &[u8]) -> Vec<u8> {
    let mut out = Vec::new();
    out.extend_from_slice(id.as_bytes());
    out.extend_from_slice(&(content.len() as u32).to_le_bytes());
    out.extend_from_slice(&(children.len() as u32).to_le_bytes());
    out.extend_from_slice(content);
    out.extend_from_slice(children);
    out
}

fn model(voxels: &[(u8, u8, u8)]) -> Vec<u8> {
    let mut size = Vec::new();
    for _ in 0..3 {
        size.extend_from_slice(&64u32.to_le_bytes());
    }
    let mut xyzi = Vec::new();
    xyzi.extend_from_slice(&(voxels.len() as u32).to_le_bytes());
    for v in voxels {
        xyzi.extend_from_slice(&[v.0, v.1, v.2, 1]);
    }
    let mut out = chunk("SIZE", &size, &[]);
    out.extend_from_slice(&chunk("XYZI", &xyzi, &[]));
    out
}

fn vox_file(models: &[Vec<(u8, u8, u8)>]) -> Vec<u8> {
    let mut children = Vec::new();
    for m in models {
        children.extend_from_slice(&model(m));
    }
    let mut out = Vec::new();
    out.extend_from_slice(b"VOX ");
    out.extend_from_slice(&150u32.to_le_bytes());
    out.extend_from_slice(&chunk("MAIN", &[], &children));
    out
}

#[test]
fn make_chunk_before_load_fails() {
    let loader = Loader::new();
    assert_eq!(loader.make_chunk(0), Err(SvoError::NoModelLoaded));
    assert_eq!(loader.model_count(), None);
}

#[test]
fn garbage_is_a_load_error() {
    let mut loader = Loader::new();
    assert_eq!(loader.load_data(b"not a voxel file"), Err(SvoError::LoadError));
    assert_eq!(loader.load_data(&[]), Err(SvoError::LoadError));
    assert_eq!(loader.make_chunk(0), Err(SvoError::NoModelLoaded));
}

#[test]
fn loaded_model_becomes_a_chunk() {
    let voxels = vec![(0, 0, 0), (1, 2, 3), (63, 63, 63), (20, 0, 41)];
    let bytes = vox_file(&[voxels.clone()]);
    let mut loader = Loader::new();
    assert_eq!(loader.load_data(&bytes), Ok(()));
    assert_eq!(loader.model_count(), Some(1));
    let tree = loader.make_chunk(0).unwrap();
    for x in 0..64u8 {
        for y in 0..64u8 {
            for z in 0..64u8 {
                assert_eq!(tree.has_voxel(x, y, z), voxels.contains(&(x, y, z)));
            }
        }
    }
}

#[test]
fn model_index_selects_the_model() {
    let bytes = vox_file(&[vec![(1, 1, 1)], vec![(2, 2, 2), (3, 3, 3)], vec![]]);
    let mut loader = Loader::new();
    assert_eq!(loader.load_data(&bytes), Ok(()));
    assert_eq!(loader.model_count(), Some(3));
    let first = loader.make_chunk(0).unwrap();
    assert!(first.has_voxel(1, 1, 1));
    assert!(!first.has_voxel(2, 2, 2));
    let second = loader.make_chunk(1).unwrap();
    assert!(!second.has_voxel(1, 1, 1));
    assert!(second.has_voxel(2, 2, 2));
    assert!(second.has_voxel(3, 3, 3));
    assert_eq!(loader.make_chunk(2), Ok(Node::Empty));
}

#[test]
fn model_index_out_of_range_fails() {
    let bytes = vox_file(&[vec![(1, 1, 1)]]);
    let mut loader = Loader::new();
    assert_eq!(loader.load_data(&bytes), Ok(()));
    assert_eq!(loader.make_chunk(1), Err(SvoError::ModelIndexOutOfRange));
    assert_eq!(loader.make_chunk(usize::MAX), Err(SvoError::ModelIndexOutOfRange));
    assert!(loader.make_chunk(0).is_ok());
}

#[test]
fn file_without_models_has_no_model_zero() {
    let bytes = vox_file(&[]);
    let mut loader = Loader::new();
    assert_eq!(loader.load_data(&bytes), Ok(()));
    assert_eq!(loader.model_count(), Some(0));
    assert_eq!(loader.make_chunk(0), Err(SvoError::ModelIndexOutOfRange));
}

#[test]
fn failed_load_keeps_the_models_loaded_before() {
    let bytes = vox_file(&[vec![(9, 9, 9)]]);
    let mut loader = Loader::new();
    assert_eq!(loader.load_data(&bytes), Ok(()));
    assert_eq!(loader.load_data(b"VOX"), Err(SvoError::LoadError));
    let tree = loader.make_chunk(0).unwrap();
    assert!(tree.has_voxel(9, 9, 9));
}

#[test]
fn second_load_replaces_the_first() {
    let mut loader = Loader::new();
    assert_eq!(loader.load_data(&vox_file(&[vec![(9, 9, 9)]])), Ok(()));
    assert_eq!(loader.load_data(&vox_file(&[vec![(5, 5, 5)]])), Ok(()));
    let tree = loader.make_chunk(0).unwrap();
    assert!(!tree.has_voxel(9, 9, 9));
    assert!(tree.has_voxel(5, 5, 5));
}

#[test]
fn file_written_by_the_parser_crate_loads() {
    let data = dot_vox::DotVoxData {
        version: 150,
        index_map: Vec::new(),
        models: vec![dot_vox::Model {
            size: dot_vox::Size { x: 64, y: 64, z: 64 },
            voxels: vec![
                dot_vox::Voxel { x: 7, y: 8, z: 9, i: 3 },
                dot_vox::Voxel { x: 60, y: 1, z: 33, i: 0 },
            ],
        }],
        palette: Vec::new(),
        materials: Vec::new(),
        scenes: Vec::new(),
        layers: Vec::new(),
    };
    let mut bytes = Vec::new();
    data.write_vox(&mut bytes).unwrap();
    let mut loader = Loader::new();
    assert_eq!(loader.load_data(&bytes), Ok(()));
    let tree = loader.make_chunk(0).unwrap();
    assert!(tree.has_voxel(7, 8, 9));
    assert!(tree.has_voxel(60, 1, 33));
    assert!(!tree.has_voxel(8, 7, 9));
    assert!(!tree.has_voxel(3, 3, 3));
}

/// A file of `depth` chunks, each the only child of the one before.
fn nested_file(depth: usize) -> Vec<u8> {
    let mut out = Vec::new();
    out.extend_from_slice(b"VOX ");
    out.extend_from_slice(&150u32.to_le_bytes());
    for level in 0..depth {
        out.extend_from_slice(if level == 0 { b"MAIN" } else { b"nest" });
        out.extend_from_slice(&0u32.to_le_bytes());
        out.extend_from_slice(&((12 * (depth - level - 1)) as u32).to_le_bytes());
    }
    out
}

/// The least limit within which the file nests.
fn nesting_of(bytes: &[u8]) -> usize {
    (0..).find(|limit| nesting_within(bytes, *limit)).unwrap()
}

#[test]
fn model_files_nest_two_deep() {
    let bytes = vox_file(&[vec![(1, 1, 1)], vec![(2, 2, 2)]]);
    assert!(!nesting_within(&bytes, 0));
    assert!(!nesting_within(&bytes, 1));
    assert!(nesting_within(&bytes, 2));
    assert!(nesting_within(&bytes, MAX_NESTING));
    assert_eq!(nesting_of(&bytes), 2);
    // a main chunk without children
    assert_eq!(nesting_of(&vox_file(&[])), 1);
}

#[test]
fn bytes_without_a_whole_chunk_do_not_nest() {
    assert_eq!(nesting_of(&[]), 0);
    assert_eq!(nesting_of(b"VOX "), 0);
    assert_eq!(nesting_of(b"not a voxel file"), 0);
    // nineteen bytes: the chunk header is one byte short
    assert_eq!(nesting_of(&nested_file(1)[..19]), 0);
    assert_eq!(nesting_of(&nested_file(1)), 1);
    // a header that announces more than is there
    let mut short = nested_file(3);
    short.pop();
    assert_eq!(nesting_of(&short), 0);
    let mut content = nested_file(1);
    content[12..16].copy_from_slice(&1u32.to_le_bytes());
    assert_eq!(nesting_of(&content), 0);
    content.push(0);
    assert_eq!(nesting_of(&content), 1);
}

#[test]
fn nesting_counts_the_deepest_child() {
    for depth in 1..40 {
        assert_eq!(nesting_of(&nested_file(depth)), depth);
    }
    // main { a { b { c } }, d }: the sibling behind the deep child adds nothing
    let c = chunk("cccc", &[], &[]);
    let b = chunk("bbbb", &[1, 2, 3], &c);
    let a = chunk("aaaa", &[], &b);
    let d = chunk("dddd", &[9; 5], &[]);
    let mut kids = a.clone();
    kids.extend_from_slice(&d);
    let mut file = b"VOX ".to_vec();
    file.extend_from_slice(&150u32.to_le_bytes());
    file.extend_from_slice(&chunk("MAIN", &[], &kids));
    assert_eq!(nesting_of(&file), 4);
    // main { d, a { b { c } } }: nor does the one before it
    let mut kids = d.clone();
    kids.extend_from_slice(&a);
    let mut file = b"VOX ".to_vec();
    file.extend_from_slice(&150u32.to_le_bytes());
    file.extend_from_slice(&chunk("MAIN", &[], &kids));
    assert_eq!(nesting_of(&file), 4);
    // what stands behind the first chunk of the file is not looked at
    let mut file = nested_file(2);
    file.extend_from_slice(&nested_file(9)[8..]);
    assert_eq!(nesting_of(&file), 2);
    // children that are no whole chunk end the run
    let mut file = b"VOX ".to_vec();
    file.extend_from_slice(&150u32.to_le_bytes());
    file.extend_from_slice(&chunk("MAIN", &[], &[0; 11]));
    assert_eq!(nesting_of(&file), 1);
}

#[test]
fn file_nested_to_the_limit_loads() {
    let bytes = nested_file(MAX_NESTING);
    assert!(nesting_within(&bytes, MAX_NESTING));
    let mut loader = Loader::new();
    assert_eq!(loader.load_data(&bytes), Ok(()));
    assert_eq!(loader.model_count(), Some(0));
}

#[test]
fn file_nested_beyond_the_limit_is_a_load_error() {
    let mut loader = Loader::new();
    assert_eq!(loader.load_data(&vox_file(&[vec![(9, 9, 9)]])), Ok(()));
    let bytes = nested_file(MAX_NESTING + 1);
    assert!(!nesting_within(&bytes, MAX_NESTING));
    assert_eq!(loader.load_data(&bytes), Err(SvoError::LoadError));
    // the models loaded before stay
    assert!(loader.make_chunk(0).unwrap().has_voxel(9, 9, 9));
}

#[test]
fn very_deep_file_is_refused_without_descending() {
    let depth = 200_000;
    let bytes = nested_file(depth);
    assert!(!nesting_within(&bytes, MAX_NESTING));
    assert!(!nesting_within(&bytes, depth - 1));
    assert!(nesting_within(&bytes, depth));
    let mut loader = Loader::new();
    assert_eq!(loader.load_data(&bytes), Err(SvoError::LoadError));
    assert_eq!(loader.model_count(), None);
}
