use vstd::prelude::*;

verus! {

/// The ways a call into the octree pipeline can fail. Every failure is local
/// to the call that reports it: neither the grid nor a previously staged
/// buffer is touched.
#[derive(Clone, Copy, Debug, PartialEq, Eq, Structural)]
pub enum SvoError {
    /// The bytes handed to the loader are not a voxel model file.
    LoadError,
    /// A chunk was requested before any model file was loaded.
    NoModelLoaded,
    /// The requested model does not exist in the loaded file.
    ModelIndexOutOfRange,
    /// The region's start lies beyond its end on some axis.
    InvalidRegion,
    /// The flattened sequence has more records than the destination holds.
    CapacityExceeded,
}

impl SvoError {
    /// The words that describe each failure.
    pub open spec fn description(self) -> Seq<char> {
        match self {
            SvoError::LoadError => "not a readable voxel model file"@,
            SvoError::NoModelLoaded => "no model file has been loaded"@,
            SvoError::ModelIndexOutOfRange => "model index out of range"@,
            SvoError::InvalidRegion => "region start exceeds region end"@,
            SvoError::CapacityExceeded => "flattened nodes exceed the buffer capacity"@,
        }
    }

    /// A short description, for callers that show the failure to a user.
    pub fn message(&self) -> (text: &'static str)
        ensures
            text@ == self.description(),
    {
        match self {
            SvoError::LoadError => "not a readable voxel model file",
            SvoError::NoModelLoaded => "no model file has been loaded",
            SvoError::ModelIndexOutOfRange => "model index out of range",
            SvoError::InvalidRegion => "region start exceeds region end",
            SvoError::CapacityExceeded => "flattened nodes exceed the buffer capacity",
        }
    }
}

} // verus!
