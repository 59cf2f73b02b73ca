use vstd::prelude::*;
use crate::error::SvoError;
use crate::tree::Node;
use crate::vox::{nesting, nesting_within, MAX_NESTING};

verus! {

/// The position `(x, y, z)` of a voxel in its model.
pub type Voxel = (u8, u8, u8);

/// The models of a voxel file: for each model the positions of its voxels,
/// in the order of the file.
pub type Models = Seq<Seq<Voxel>>;

/// What `dot_vox::load_bytes` makes of the bytes of a file: the voxel
/// positions of each model that it holds, or nothing where the bytes are not
/// a voxel file.
pub uninterp spec fn vox_models(bytes: Seq<u8>) -> Option<Models>;

/// The voxel positions held by parsed models.
pub open spec fn models_of(data: Option<Vec<Vec<Voxel>>>) -> Option<Models> {
    match data {
        Some(models) => Some(models@.map_values(|m: Vec<Voxel>| m@)),
        None => None,
    }
}

/// Calls `dot_vox::load_bytes` and keeps, of each model it returns, the
/// position of every voxel in the order given; the colour indices, palette
/// and scene graph are dropped. The parser reads nothing but `bytes`, so its
/// result is a function of them, named [`vox_models`]; nothing else is
/// claimed of it. A file that the parser refuses gives `None`. The parser
/// calls itself on the children of every whole chunk that announces
/// children, and on nothing else, so its calls nest at most one deeper than
/// the chunks do; a file that nests deeper than [`MAX_NESTING`] is kept from
/// it.
#[verifier::external_body]
fn parse_models(bytes: &[u8]) -> (data: Option<Vec<Vec<Voxel>>>)
    requires
        nesting(bytes@) <= MAX_NESTING,
    ensures
        models_of(data) == vox_models(bytes@),
{
    match dot_vox::load_bytes(bytes) {
        Ok(parsed) => Some(
            parsed.models.iter().map(|m| m.voxels.iter().map(|v| (v.x, v.y, v.z)).collect()).collect(),
        ),
        Err(_) => None,
    }
}

/// The tree of a chunk that holds exactly the given voxels.
pub fn chunk_from_voxels(voxels: &Vec<Voxel>) -> (chunk: Node)
    ensures
        chunk.is_chunk(),
        forall|x: u8, y: u8, z: u8| #[trigger] chunk.occupied(x, y, z) <==> voxels@.contains((x, y, z)),
        chunk is Empty <==> voxels@.len() == 0,
{
    let mut chunk = Node::Empty;
    let mut i: usize = 0;
    while i < voxels.len()
        invariant
            i <= voxels@.len(),
            chunk.is_chunk(),
            forall|x: u8, y: u8, z: u8| #[trigger]
                chunk.occupied(x, y, z) <==> voxels@.take(i as int).contains((x, y, z)),
            chunk is Empty <==> i == 0,
        decreases voxels@.len() - i,
    {
        let (vx, vy, vz) = voxels[i];
        chunk.set_voxel(vx, vy, vz);
        proof {
            let seen = voxels@.take(i as int);
            let more = voxels@.take(i + 1);
            assert(more =~= seen.push((vx, vy, vz)));
            assert forall|x: u8, y: u8, z: u8| #[trigger]
                chunk.occupied(x, y, z) <==> more.contains((x, y, z)) by {
                if seen.contains((x, y, z)) {
                    let j = choose|j: int| 0 <= j < seen.len() && seen[j] == (x, y, z);
                    assert(more[j] == (x, y, z));
                }
                if (x, y, z) == (vx, vy, vz) {
                    assert(more[i as int] == (x, y, z));
                }
                if more.contains((x, y, z)) {
                    let j = choose|j: int| 0 <= j < more.len() && more[j] == (x, y, z);
                    if j < i {
                        assert(seen[j] == (x, y, z));
                    }
                }
            }
        }
        i += 1;
    }
    proof {
        assert(voxels@.take(voxels@.len() as int) =~= voxels@);
    }
    chunk
}

/// Turns the bytes of a voxel model file into chunk trees.
pub struct Loader {
    data: Option<Vec<Vec<Voxel>>>,
}

impl Loader {
    /// The models of the file loaded last, if one was loaded.
    pub closed spec fn models(&self) -> Option<Models> {
        models_of(self.data)
    }

    /// A loader that has loaded nothing.
    pub fn new() -> (loader: Self)
        ensures
            loader.models() is None,
    {
        Loader { data: None }
    }

    /// Parses the bytes of a voxel model file and keeps its models. Where
    /// the bytes are not such a file, or their chunks nest deeper than
    /// [`MAX_NESTING`], the call fails and the loader keeps what it held.
    pub fn load_data(&mut self, bytes: &[u8]) -> (r: Result<(), SvoError>)
        ensures
            r is Ok <==> nesting(bytes@) <= MAX_NESTING && vox_models(bytes@) is Some,
            r is Ok ==> final(self).models() == vox_models(bytes@),
            r is Err ==> r == Err::<(), SvoError>(SvoError::LoadError) && final(self).models()
                == old(self).models(),
    {
        if !nesting_within(bytes, MAX_NESTING) {
            return Err(SvoError::LoadError);
        }
        match parse_models(bytes) {
            Some(models) => {
                self.data = Some(models);
                Ok(())
            },
            None => Err(SvoError::LoadError),
        }
    }

    /// Number of models of the file loaded last.
    pub fn model_count(&self) -> (count: Option<usize>)
        ensures
            match self.models() {
                Some(models) => count == Some(models.len() as usize),
                None => count is None,
            },
    {
        match &self.data {
            Some(models) => Some(models.len()),
            None => None,
        }
    }

    /// Builds the tree of the model `model_index` of the loaded file: the
    /// chunk that holds exactly the voxels of that model.
    pub fn make_chunk(&self, model_index: usize) -> (r: Result<Node, SvoError>)
        ensures
            match self.models() {
                None => r matches Err(e) && e == SvoError::NoModelLoaded,
                Some(models) => if model_index < models.len() {
                    &&& r matches Ok(chunk)
                    &&& chunk.is_chunk()
                    &&& forall|x: u8, y: u8, z: u8| #[trigger]
                        chunk.occupied(x, y, z) <==> models[model_index as int].contains((x, y, z))
                    &&& chunk is Empty <==> models[model_index as int].len() == 0
                } else {
                    r matches Err(e) && e == SvoError::ModelIndexOutOfRange
                },
            },
    {
        match &self.data {
            None => Err(SvoError::NoModelLoaded),
            Some(models) => {
                if model_index < models.len() {
                    Ok(chunk_from_voxels(&models[model_index]))
                } else {
                    Err(SvoError::ModelIndexOutOfRange)
                }
            },
        }
    }
}

} // verus!
