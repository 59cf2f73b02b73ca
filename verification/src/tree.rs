use vstd::prelude::*;
use crate::bits::{bit_set, lemma_set_bit, lemma_zero_mask};

verus! {

/// Number of children of a branch: a 4x4x4 subdivision.
pub const BRANCH_WIDTH: usize = 64;

/// Number of branch levels between a chunk's root and its leaves.
pub const CHUNK_LEVELS: u8 = 3;

/// The 64 child slots of a branch.
#[derive(Debug, PartialEq, Eq)]
pub struct Node64 {
    pub children: Vec<Node>,
}

/// A node of a chunk's sparse tree.
#[derive(Debug, PartialEq, Eq)]
pub enum Node {
    /// No voxel below this node.
    Empty,
    /// Sixty-four children, each a node of the level below.
    Branch(Node64),
    /// Occupancy of a 4x4x4 block of voxels, one bit per voxel.
    Leaf(u64),
}

/// The weight of the base-4 digit `level` of a coordinate.
pub open spec fn place(level: nat) -> int {
    if level == 0 {
        1
    } else if level == 1 {
        4
    } else if level == 2 {
        16
    } else {
        64
    }
}

/// The base-4 digit `level` of a coordinate; digit 0 is the lowest.
pub open spec fn digit(c: u8, level: nat) -> int {
    (c as int / place(level)) % 4
}

/// The child slot (for `level > 0`) or the leaf bit (for `level == 0`) that
/// the voxel `(x, y, z)` falls into: its three digits of that level, x lowest.
pub open spec fn slot(x: u8, y: u8, z: u8, level: nat) -> int {
    digit(x, level) + 4 * digit(y, level) + 16 * digit(z, level)
}

/// Whether two voxels share their slots on every level from 0 to `level`.
pub open spec fn same_path(p: (u8, u8, u8), q: (u8, u8, u8), level: nat) -> bool {
    &&& slot(p.0, p.1, p.2, 0) == slot(q.0, q.1, q.2, 0)
    &&& level >= 1 ==> slot(p.0, p.1, p.2, 1) == slot(q.0, q.1, q.2, 1)
    &&& level >= 2 ==> slot(p.0, p.1, p.2, 2) == slot(q.0, q.1, q.2, 2)
    &&& level >= 3 ==> slot(p.0, p.1, p.2, 3) == slot(q.0, q.1, q.2, 3)
}

impl Node64 {
    /// Every slot holds an empty node.
    pub open spec fn all_empty(self) -> bool {
        &&& self.children@.len() == 64
        &&& forall|i: int| 0 <= i < 64 ==> #[trigger] self.children@[i] is Empty
    }

    /// A branch without any voxel: 64 empty children.
    pub fn new() -> (r: Self)
        ensures
            r.all_empty(),
    {
        let mut children: Vec<Node> = Vec::new();
        let mut i: usize = 0;
        while i < BRANCH_WIDTH
            invariant
                i <= 64,
                children@.len() == i,
                forall|j: int| 0 <= j < i ==> #[trigger] children@[j] is Empty,
            decreases 64 - i,
        {
            children.push(Node::Empty);
            i += 1;
        }
        Node64 { children }
    }
}

impl Node {
    /// Every branch of the tree has exactly 64 children.
    pub open spec fn well_formed(self) -> bool
        decreases self,
    {
        match self {
            Node::Branch(b) => {
                &&& b.children@.len() == 64
                &&& forall|i: int| 0 <= i < 64 ==> (#[trigger] b.children@[i]).well_formed()
            },
            _ => true,
        }
    }

    /// The tree has the shape of a subtree `level` branch levels above the
    /// leaves: leaves stand on level 0 only, branches above it only.
    pub open spec fn shaped(self, level: nat) -> bool
        decreases self,
    {
        match self {
            Node::Empty => true,
            Node::Leaf(_) => level == 0,
            Node::Branch(b) => {
                &&& level > 0
                &&& b.children@.len() == 64
                &&& forall|i: int| 0 <= i < 64 ==> (#[trigger] b.children@[i]).shaped((level - 1) as nat)
            },
        }
    }

    /// Nothing in the tree is kept for nothing: every leaf has a voxel and
    /// every branch a child that is not empty.
    pub open spec fn tight(self) -> bool
        decreases self,
    {
        match self {
            Node::Empty => true,
            Node::Leaf(m) => m != 0,
            Node::Branch(b) => {
                &&& exists|i: int| 0 <= i < b.children@.len() && !(#[trigger] b.children@[i] is Empty)
                &&& forall|i: int| 0 <= i < b.children@.len() ==> (#[trigger] b.children@[i]).tight()
            },
        }
    }

    /// The tree of a whole chunk as insertion builds it.
    pub open spec fn is_chunk(self) -> bool {
        self.shaped(3) && self.tight()
    }

    /// Whether the voxel `(x, y, z)` is present below this node, which stands
    /// `level` branch levels above the leaves.
    pub open spec fn occupied_at(self, level: nat, x: u8, y: u8, z: u8) -> bool
        decreases self,
    {
        match self {
            Node::Empty => false,
            Node::Leaf(m) => level == 0 && bit_set(m, slot(x, y, z, 0)),
            Node::Branch(b) => {
                &&& level > 0
                &&& 0 <= slot(x, y, z, level) < b.children@.len()
                &&& b.children@[slot(x, y, z, level)].occupied_at((level - 1) as nat, x, y, z)
            },
        }
    }

    /// Whether the voxel `(x, y, z)` is present in this chunk.
    pub open spec fn occupied(self, x: u8, y: u8, z: u8) -> bool {
        self.occupied_at(3, x, y, z)
    }
}

/// The digit `level` of `c`, by shifting and masking.
fn digit_of(c: u8, level: u8) -> (d: usize)
    requires
        level <= 3,
    ensures
        d == digit(c, level as nat),
        d < 4,
{
    assert((c >> 0u8) & 3 == (c / 1) % 4) by (bit_vector);
    assert((c >> 2u8) & 3 == (c / 4) % 4) by (bit_vector);
    assert((c >> 4u8) & 3 == (c / 16) % 4) by (bit_vector);
    assert((c >> 6u8) & 3 == (c / 64) % 4) by (bit_vector);
    let shifted: u8 = if level == 0 {
        c
    } else if level == 1 {
        c >> 2u8
    } else if level == 2 {
        c >> 4u8
    } else {
        c >> 6u8
    };
    assert(c >> 0u8 == c) by (bit_vector);
    (shifted & 3) as usize
}

/// The slot of the voxel `(x, y, z)` on `level`: each coordinate is masked
/// to its digit first, and the three digits are then combined.
pub fn slot_index(x: u8, y: u8, z: u8, level: u8) -> (s: usize)
    requires
        level <= 3,
    ensures
        s == slot(x, y, z, level as nat),
        s < 64,
{
    digit_of(x, level) + 4 * digit_of(y, level) + 16 * digit_of(z, level)
}

/// A branch of 64 empty children has any shape above the leaves and holds
/// no voxel.
proof fn lemma_fresh_branch(b: Node64, level: nat)
    requires
        b.all_empty(),
        level > 0,
    ensures
        Node::Branch(b).shaped(level),
        forall|px: u8, py: u8, pz: u8| !#[trigger] Node::Branch(b).occupied_at(level, px, py, pz),
{
    assert forall|i: int| 0 <= i < 64 implies (#[trigger] b.children@[i]).shaped(
        (level - 1) as nat,
    ) by {
        assert(b.children@[i] is Empty);
    }
    assert forall|px: u8, py: u8, pz: u8| !#[trigger] Node::Branch(b).occupied_at(
        level,
        px,
        py,
        pz,
    ) by {
        lemma_slot_range(px, py, pz, level);
        let child = b.children@[slot(px, py, pz, level)];
        assert(child is Empty);
        assert(!child.occupied_at((level - 1) as nat, px, py, pz));
    }
}

/// Adds the voxel `(x, y, z)` below `node`, which stands `level` branch levels
/// above the leaves. An empty node on the way becomes a branch of 64 empty
/// children, or a leaf on level 0.
fn insert_at(node: &mut Node, level: u8, x: u8, y: u8, z: u8)
    requires
        level <= 3,
        old(node).shaped(level as nat),
    ensures
        final(node).shaped(level as nat),
        !(*final(node) is Empty),
        old(node).tight() ==> final(node).tight(),
        forall|px: u8, py: u8, pz: u8|
            #[trigger] final(node).occupied_at(level as nat, px, py, pz) == (old(node).occupied_at(
                level as nat,
                px,
                py,
                pz,
            ) || same_path((px, py, pz), (x, y, z), level as nat)),
    decreases level,
{
    let s = slot_index(x, y, z, level);
    if level == 0 {
        let bit: u64 = 1u64 << (s as u64);
        let ghost before: u64 = match *node {
            Node::Leaf(m) => m,
            _ => 0,
        };
        match node {
            Node::Leaf(m) => {
                *m = *m | bit;
            },
            _ => {
                *node = Node::Leaf(bit);
            },
        }
        proof {
            assert(0u64 | bit == bit) by (bit_vector);
            assert(*node == Node::Leaf(before | bit));
            lemma_set_bit(before, s as int, 0);
            assert forall|px: u8, py: u8, pz: u8|
                #[trigger] node.occupied_at(0, px, py, pz) == (old(node).occupied_at(0, px, py, pz)
                    || same_path((px, py, pz), (x, y, z), 0)) by {
                let j = slot(px, py, pz, 0);
                lemma_slot_range(px, py, pz, 0);
                lemma_set_bit(before, s as int, j);
                lemma_zero_mask(j);
                assert(node.occupied_at(0, px, py, pz) == bit_set(before | bit, j));
                assert(old(node).occupied_at(0, px, py, pz) == bit_set(before, j));
                assert(same_path((px, py, pz), (x, y, z), 0) == (j == s));
            }
        }
    } else {
        let ghost fresh = *node is Empty;
        match node {
            Node::Empty => {
                let b = Node64::new();
                proof {
                    lemma_fresh_branch(b, level as nat);
                }
                *node = Node::Branch(b);
            },
            _ => {},
        }
        let ghost grown = *node;
        assert(grown.shaped(level as nat));
        assert(forall|px: u8, py: u8, pz: u8|
            #[trigger] grown.occupied_at(level as nat, px, py, pz) == old(node).occupied_at(
                level as nat,
                px,
                py,
                pz,
            ));
        match node {
            Node::Branch(b) => {
                let ghost kids = b.children@;
                insert_at(&mut b.children[s], level - 1, x, y, z);
                proof {
                    let after = b.children@;
                    assert(after == kids.update(s as int, after[s as int]));
                    assert forall|i: int| 0 <= i < 64 implies (#[trigger] after[i]).shaped(
                        (level - 1) as nat,
                    ) by {
                        if i != s {
                            assert(after[i] == kids[i]);
                        }
                    }
                    assert(!(after[s as int] is Empty));
                    if old(node).tight() {
                        assert forall|i: int| 0 <= i < 64 implies (#[trigger] after[i]).tight() by {
                            if i != s {
                                assert(after[i] == kids[i]);
                                if fresh {
                                    assert(kids[i] is Empty);
                                } else {
                                    assert(kids[i].tight());
                                }
                            } else {
                                if fresh {
                                    assert(kids[i] is Empty);
                                } else {
                                    assert(kids[i].tight());
                                }
                            }
                        }
                    }
                    assert forall|px: u8, py: u8, pz: u8|
                        (#[trigger] Node::Branch(*b).occupied_at(level as nat, px, py, pz)) == (
                        grown.occupied_at(level as nat, px, py, pz) || same_path(
                            (px, py, pz),
                            (x, y, z),
                            level as nat,
                        )) by {
                        let j = slot(px, py, pz, level as nat);
                        lemma_slot_range(px, py, pz, level as nat);
                        assert(same_path((px, py, pz), (x, y, z), level as nat) == (same_path(
                            (px, py, pz),
                            (x, y, z),
                            (level - 1) as nat,
                        ) && j == s));
                        assert(Node::Branch(*b).occupied_at(level as nat, px, py, pz)
                            == after[j].occupied_at((level - 1) as nat, px, py, pz));
                        assert(grown.occupied_at(level as nat, px, py, pz) == kids[j].occupied_at(
                            (level - 1) as nat,
                            px,
                            py,
                            pz,
                        ));
                        if j != s {
                            assert(after[j] == kids[j]);
                        }
                    }
                }
            },
            _ => {},
        }
    }
}

/// Whether the voxel `(x, y, z)` is present below `node`, which stands
/// `level` branch levels above the leaves.
fn lookup_at(node: &Node, level: u8, x: u8, y: u8, z: u8) -> (present: bool)
    requires
        level <= 3,
    ensures
        present == node.occupied_at(level as nat, x, y, z),
    decreases level,
{
    let s = slot_index(x, y, z, level);
    match node {
        Node::Empty => false,
        Node::Leaf(mask) => level == 0 && (*mask >> (s as u64)) & 1 == 1,
        Node::Branch(b) => {
            if level > 0 && s < b.children.len() {
                lookup_at(&b.children[s], level - 1, x, y, z)
            } else {
                false
            }
        },
    }
}

/// Whether the tree below `node` has the shape of a subtree `level` branch
/// levels above the leaves.
fn shaped_at(node: &Node, level: u8) -> (ok: bool)
    ensures
        ok == node.shaped(level as nat),
    decreases node,
{
    match node {
        Node::Empty => true,
        Node::Leaf(_) => level == 0,
        Node::Branch(b) => {
            if level == 0 || b.children.len() != BRANCH_WIDTH {
                return false;
            }
            let mut i: usize = 0;
            while i < BRANCH_WIDTH
                invariant
                    i <= 64,
                    level > 0,
                    *node == Node::Branch(*b),
                    b.children@.len() == 64,
                    forall|j: int| 0 <= j < i ==> (#[trigger] b.children@[j]).shaped((level - 1) as nat),
                decreases 64 - i,
            {
                assert(decreases_to!(b.children => b.children[i as int]));
                assert(decreases_to!(*node => node->Branch_0));
                if !shaped_at(&b.children[i], level - 1) {
                    return false;
                }
                i += 1;
            }
            true
        },
    }
}

impl Node {
    /// Whether every branch of the tree has exactly 64 children.
    pub fn is_well_formed(&self) -> (ok: bool)
        ensures
            ok == self.well_formed(),
        decreases self,
    {
        match self {
            Node::Branch(b) => {
                if b.children.len() != BRANCH_WIDTH {
                    return false;
                }
                let mut i: usize = 0;
                while i < BRANCH_WIDTH
                    invariant
                        i <= 64,
                        *self == Node::Branch(*b),
                        b.children@.len() == 64,
                        forall|j: int| 0 <= j < i ==> (#[trigger] b.children@[j]).well_formed(),
                    decreases 64 - i,
                {
                    assert(decreases_to!(b.children => b.children[i as int]));
                    assert(decreases_to!(*self => self->Branch_0));
                    if !b.children[i].is_well_formed() {
                        return false;
                    }
                    i += 1;
                }
                true
            },
            _ => true,
        }
    }

    /// Whether the tree has the shape of a chunk: three levels of branches
    /// above the leaves, with nothing out of its level.
    pub fn is_chunk_shaped(&self) -> (ok: bool)
        ensures
            ok == self.shaped(3),
    {
        shaped_at(self, CHUNK_LEVELS)
    }

    /// Whether the voxel `(x, y, z)` is present in this chunk's tree.
    pub fn has_voxel(&self, x: u8, y: u8, z: u8) -> (present: bool)
        ensures
            present == self.occupied(x, y, z),
    {
        lookup_at(self, CHUNK_LEVELS, x, y, z)
    }

    /// Adds the voxel `(x, y, z)` to a chunk's tree. The voxel is present
    /// afterwards, and every other voxel is present exactly if it was before.
    pub fn set_voxel(&mut self, x: u8, y: u8, z: u8)
        requires
            old(self).shaped(3),
        ensures
            final(self).shaped(3),
            !(*final(self) is Empty),
            old(self).tight() ==> final(self).tight(),
            forall|px: u8, py: u8, pz: u8|
                #[trigger] final(self).occupied(px, py, pz) == (old(self).occupied(px, py, pz) || (
                px,
                py,
                pz,
            ) == (x, y, z)),
    {
        insert_at(self, CHUNK_LEVELS, x, y, z);
        proof {
            assert forall|px: u8, py: u8, pz: u8|
                #[trigger] self.occupied(px, py, pz) == (old(self).occupied(px, py, pz) || (
                    px,
                    py,
                    pz,
                ) == (x, y, z)) by {
                lemma_path_names_voxel((px, py, pz), (x, y, z));
            }
        }
    }
}

/// A tree of any chunk shape has 64 children in every branch.
pub proof fn lemma_shaped_well_formed(n: Node, level: nat)
    requires
        n.shaped(level),
    ensures
        n.well_formed(),
    decreases n,
{
    match n {
        Node::Branch(b) => {
            assert forall|i: int| 0 <= i < 64 implies (#[trigger] b.children@[i]).well_formed() by {
                lemma_shaped_well_formed(b.children@[i], (level - 1) as nat);
            }
        },
        _ => {},
    }
}

/// A slot is one of 64.
pub proof fn lemma_slot_range(x: u8, y: u8, z: u8, level: nat)
    ensures
        0 <= slot(x, y, z, level) < 64,
{
}

/// A digit is one of 0, 1, 2, 3.
pub proof fn lemma_digit_range(c: u8, level: nat)
    ensures
        0 <= digit(c, level) < 4,
{
}

/// Equal slots have equal digits on each axis.
proof fn lemma_slot_digits(p: (u8, u8, u8), q: (u8, u8, u8), level: nat)
    requires
        slot(p.0, p.1, p.2, level) == slot(q.0, q.1, q.2, level),
    ensures
        digit(p.0, level) == digit(q.0, level),
        digit(p.1, level) == digit(q.1, level),
        digit(p.2, level) == digit(q.2, level),
{
    lemma_digit_range(p.0, level);
    lemma_digit_range(p.1, level);
    lemma_digit_range(p.2, level);
    lemma_digit_range(q.0, level);
    lemma_digit_range(q.1, level);
    lemma_digit_range(q.2, level);
}

/// A coordinate is the sum of its four digits, each times its place.
proof fn lemma_digits_sum(a: u8)
    ensures
        a == digit(a, 0) + 4 * digit(a, 1) + 16 * digit(a, 2) + 64 * digit(a, 3),
{
    assert(a == (a / 1) % 4 + 4 * ((a / 4) % 4) + 16 * ((a / 16) % 4) + 64 * ((a / 64) % 4))
        by (bit_vector);
}

/// Two voxels with the same slot on all four levels are the same voxel.
pub proof fn lemma_path_names_voxel(p: (u8, u8, u8), q: (u8, u8, u8))
    ensures
        same_path(p, q, 3) <==> p == q,
{
    if same_path(p, q, 3) {
        assert(slot(p.0, p.1, p.2, 0) == slot(q.0, q.1, q.2, 0));
        assert(slot(p.0, p.1, p.2, 1) == slot(q.0, q.1, q.2, 1));
        assert(slot(p.0, p.1, p.2, 2) == slot(q.0, q.1, q.2, 2));
        assert(slot(p.0, p.1, p.2, 3) == slot(q.0, q.1, q.2, 3));
        lemma_slot_digits(p, q, 0);
        lemma_slot_digits(p, q, 1);
        lemma_slot_digits(p, q, 2);
        lemma_slot_digits(p, q, 3);
        lemma_digits_sum(p.0);
        lemma_digits_sum(p.1);
        lemma_digits_sum(p.2);
        lemma_digits_sum(q.0);
        lemma_digits_sum(q.1);
        lemma_digits_sum(q.2);
    }
}

} // verus!
