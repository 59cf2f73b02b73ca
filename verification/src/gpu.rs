use vstd::prelude::*;
use crate::bits::{high_word, lemma_split_join, low_word};

verus! {

/// Size in bytes of one [`GpuNode`] as the shader reads it: four 32-bit words.
pub const GPU_NODE_BYTES: u64 = 16;

/// Size in bytes of a [`GpuSceneHeader`] as the shader reads it: nine 32-bit
/// words.
pub const GPU_HEADER_BYTES: u64 = 36;

/// Colour index given to every leaf until materials are assigned.
pub const PLACEHOLDER_COLOR: u32 = 10;

/// Per-chunk summary record of the shader interface.
#[derive(Clone, Copy, Debug, PartialEq, Eq, Structural)]
pub struct GpuRoot {
    pub mask: u64,
    pub offset: u32,
    /// Number of [`GpuNode`]s in the whole subtree.
    pub size: u32,
}

impl Default for GpuRoot {
    fn default() -> (r: Self)
        ensures
            r == (GpuRoot { mask: 0, offset: 0, size: 0 }),
    {
        GpuRoot { mask: 0, offset: 0, size: 0 }
    }
}

/// One record of the flat node buffer, in the field order the shader expects.
///
/// The 64-bit mask is split over two words. For a branch, bit `i` says that
/// child `i` is not empty and `base` is the index of child 0; the 64 children
/// lie at `base .. base + 64`. For a leaf, bit `i` is the occupancy of voxel
/// `i` of a 4x4x4 block and `base` is unused. Which of the two a record is
/// follows from its depth, not from the record.
#[derive(Clone, Copy, Debug, PartialEq, Eq, Structural)]
pub struct GpuNode {
    pub mask_h: u32,
    pub mask_l: u32,
    pub base: u32,
    pub color_index: u32,
}

impl GpuNode {
    /// The record of a slot that holds nothing: all words zero.
    pub open spec fn empty() -> GpuNode {
        GpuNode { mask_h: 0, mask_l: 0, base: 0, color_index: 0 }
    }

    /// The record of a leaf with occupancy `mask`.
    pub open spec fn leaf(mask: u64, color_index: u32) -> GpuNode {
        GpuNode { mask_h: high_word(mask), mask_l: low_word(mask), base: 0, color_index }
    }

    /// The record of a branch whose children start at `base`.
    pub open spec fn branch(mask: u64, base: u32) -> GpuNode {
        GpuNode { mask_h: high_word(mask), mask_l: low_word(mask), base, color_index: 0 }
    }

    /// The four words of the record, in the order the shader reads them.
    pub open spec fn words(self) -> Seq<u32> {
        seq![self.mask_h, self.mask_l, self.base, self.color_index]
    }

    /// The 64-bit mask that the two mask words stand for.
    pub open spec fn spec_mask(&self) -> u64 {
        ((self.mask_h as u64) << 32) | (self.mask_l as u64)
    }

    /// The 64-bit mask that the two mask words stand for.
    #[verifier::when_used_as_spec(spec_mask)]
    pub fn mask(&self) -> (m: u64)
        ensures
            m == self.spec_mask(),
    {
        ((self.mask_h as u64) << 32) | (self.mask_l as u64)
    }

    /// Builds a leaf record: `mask` split over the two mask words, no
    /// children, the given colour.
    pub fn set_leaf(mask: u64, color_index: u32) -> (r: Self)
        ensures
            r == GpuNode::leaf(mask, color_index),
            r.spec_mask() == mask,
    {
        proof {
            lemma_split_join(mask);
        }
        Self {
            mask_h: (mask >> 32) as u32,
            mask_l: (mask & 0xffff_ffff) as u32,
            base: 0,
            color_index,
        }
    }

    /// Builds a branch record: the presence mask split over the two mask
    /// words and the index of the first child.
    pub fn set_branch(mask: u64, base: u32) -> (r: Self)
        ensures
            r == GpuNode::branch(mask, base),
            r.spec_mask() == mask,
    {
        proof {
            lemma_split_join(mask);
        }
        Self { mask_h: (mask >> 32) as u32, mask_l: (mask & 0xffff_ffff) as u32, base, color_index: 0 }
    }
}

/// The words of a sequence of records: four for each record, one record
/// after the other, nothing between them.
pub open spec fn node_words(nodes: Seq<GpuNode>) -> Seq<u32> {
    Seq::new(4 * nodes.len(), |i: int| nodes[i / 4].words()[i % 4])
}

/// Lays a sequence of records out as the words that go to the device.
pub fn encode_nodes(nodes: &Vec<GpuNode>) -> (words: Vec<u32>)
    requires
        4 * nodes@.len() <= usize::MAX,
    ensures
        words@ == node_words(nodes@),
{
    let mut words: Vec<u32> = Vec::new();
    let mut i: usize = 0;
    while i < nodes.len()
        invariant
            i <= nodes@.len(),
            4 * nodes@.len() <= usize::MAX,
            words@.len() == 4 * i,
            forall|k: int| 0 <= k < 4 * i ==> #[trigger] words@[k] == nodes@[k / 4].words()[k % 4],
        decreases nodes@.len() - i,
    {
        let node = &nodes[i];
        words.push(node.mask_h);
        words.push(node.mask_l);
        words.push(node.base);
        words.push(node.color_index);
        i += 1;
    }
    assert(words@ =~= node_words(nodes@));
    words
}

impl Default for GpuNode {
    fn default() -> (r: Self)
        ensures
            r == GpuNode::empty(),
    {
        GpuNode { mask_h: 0, mask_l: 0, base: 0, color_index: 0 }
    }
}

/// What precedes the node records: the staged region, lower bound inclusive
/// and upper bound exclusive, each padded to four words, and the number of
/// records.
#[derive(Clone, Copy, Debug, PartialEq, Eq)]
pub struct GpuSceneHeader {
    pub start: [i32; 4],
    pub end: [i32; 4],
    pub size: u32,
}

impl GpuSceneHeader {
    /// The nine words of the header, in the order the shader reads them: the
    /// start and the end of the region, each padded to four words, and the
    /// number of records. A negative coordinate goes as its two's complement.
    pub open spec fn words(self) -> Seq<u32> {
        seq![
            self.start@[0] as u32,
            self.start@[1] as u32,
            self.start@[2] as u32,
            self.start@[3] as u32,
            self.end@[0] as u32,
            self.end@[1] as u32,
            self.end@[2] as u32,
            self.end@[3] as u32,
            self.size,
        ]
    }

    /// Lays the header out as the words that go to the device.
    pub fn encode(&self) -> (words: Vec<u32>)
        ensures
            words@ == self.words(),
    {
        let mut words: Vec<u32> = Vec::new();
        words.push(self.start[0] as u32);
        words.push(self.start[1] as u32);
        words.push(self.start[2] as u32);
        words.push(self.start[3] as u32);
        words.push(self.end[0] as u32);
        words.push(self.end[1] as u32);
        words.push(self.end[2] as u32);
        words.push(self.end[3] as u32);
        words.push(self.size);
        assert(words@ =~= self.words());
        words
    }

    /// The header of a region with `size` records.
    pub open spec fn describes(self, start: (i32, i32, i32), end: (i32, i32, i32), size: int) -> bool {
        &&& self.start@ == seq![start.0, start.1, start.2, 0i32]
        &&& self.end@ == seq![end.0, end.1, end.2, 0i32]
        &&& self.size == size
    }
}

impl Default for GpuSceneHeader {
    fn default() -> (r: Self)
        ensures
            r.describes((0, 0, 0), (0, 0, 0), 0),
    {
        GpuSceneHeader { start: [0, 0, 0, 0], end: [0, 0, 0, 0], size: 0 }
    }
}

} // verus!
