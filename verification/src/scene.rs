use vstd::prelude::*;
use std::collections::HashMap;
use crate::region::{in_region, Coord};
use crate::tree::Node;

verus! {

broadcast use vstd::std_specs::hash::group_hash_axioms;

/// The key under which the grid files a chunk coordinate: the three
/// components, each moved into the unsigned range, side by side.
pub open spec fn key_of(coord: Coord) -> u128 {
    ((coord.0 + 0x8000_0000) * 0x1_0000_0000_0000_0000 + (coord.1 + 0x8000_0000) * 0x1_0000_0000 + (
    coord.2 + 0x8000_0000)) as u128
}

/// Different coordinates have different keys.
pub proof fn lemma_key_names_coord(a: Coord, b: Coord)
    ensures
        key_of(a) == key_of(b) <==> a == b,
{
}

/// Computes the key of a chunk coordinate.
fn chunk_key(coord: Coord) -> (key: u128)
    ensures
        key == key_of(coord),
{
    let x = (coord.0 as i64 + 0x8000_0000) as u128;
    let y = (coord.1 as i64 + 0x8000_0000) as u128;
    let z = (coord.2 as i64 + 0x8000_0000) as u128;
    x * 0x1_0000_0000_0000_0000 + y * 0x1_0000_0000 + z
}

/// The grid of chunks: one tree per chunk coordinate, and one flag for the
/// whole grid that says whether it changed since it was last flattened.
pub struct Scene {
    world: HashMap<u128, Node>,
    world_changed: bool,
}

impl View for Scene {
    type V = Map<Coord, Node>;

    /// The chunks of the grid, by coordinate.
    closed spec fn view(&self) -> Map<Coord, Node> {
        Map::new(
            |coord: Coord| self.world@.contains_key(key_of(coord)),
            |coord: Coord| self.world@[key_of(coord)],
        )
    }
}

impl Scene {
    /// What the grid keeps of its map at all times. It holds of every grid
    /// that a program holds.
    #[verifier::type_invariant]
    pub closed spec fn every_branch_is_full(&self) -> bool {
        forall|key: u128| #[trigger]
            self.world@.contains_key(key) ==> self.world@[key].well_formed()
    }

    /// Every chunk of the grid has 64 children in every branch. The grid
    /// takes no other chunk, so this holds of every grid that a program
    /// holds; each function of the grid says so of the grid it leaves.
    pub open spec fn chunks_well_formed(&self) -> bool {
        forall|c: Coord| self@.contains_key(c) ==> (#[trigger] self@[c]).well_formed()
    }

    /// A grid that keeps its map as it must has 64 children in every branch
    /// of every chunk.
    pub proof fn lemma_chunks_well_formed(&self)
        requires
            self.every_branch_is_full(),
        ensures
            self.chunks_well_formed(),
            forall|c: Coord| self@.contains_key(c) ==> (#[trigger] self@[c]).well_formed(),
    {
    }

    /// Whether the grid changed since the flag was last cleared.
    pub closed spec fn dirty(&self) -> bool {
        self.world_changed
    }

    /// A grid without chunks. It counts as changed, so that the first cycle
    /// flattens it.
    pub fn new() -> (scene: Self)
        ensures
            scene@ == Map::<Coord, Node>::empty(),
            scene.dirty(),
            scene.chunks_well_formed(),
    {
        let scene = Self { world: HashMap::new(), world_changed: true };
        assert(scene@ =~= Map::<Coord, Node>::empty());
        scene
    }

    /// Puts `root` at `coords`, in place of the chunk that was there, and
    /// marks the grid as changed.
    pub fn add_chunk(&mut self, root: Node, coords: Coord)
        requires
            root.well_formed(),
        ensures
            final(self)@ == old(self)@.insert(coords, root),
            final(self).dirty(),
            final(self).chunks_well_formed(),
    {
        proof {
            use_type_invariant(&*self);
        }
        let key = chunk_key(coords);
        // The map is taken out for the insertion, so that the grid holds a
        // sound map at every point.
        let mut world: HashMap<u128, Node> = HashMap::new();
        std::mem::swap(&mut self.world, &mut world);
        world.insert(key, root);
        std::mem::swap(&mut self.world, &mut world);
        self.world_changed = true;
        proof {
            assert forall|c: Coord| key_of(c) == key_of(coords) <==> c == coords by {
                lemma_key_names_coord(c, coords);
            }
            assert(self@ =~= old(self)@.insert(coords, root));
            use_type_invariant(&*self);
        }
    }

    /// Whether the grid changed since the flag was last cleared.
    pub fn world_changed(&self) -> (changed: bool)
        ensures
            changed == self.dirty(),
            self.chunks_well_formed(),
    {
        proof {
            use_type_invariant(self);
        }
        self.world_changed
    }

    /// The chunk at `coord`, if there is one.
    pub fn get_chunk(&self, coord: Coord) -> (chunk: Option<&Node>)
        ensures
            match chunk {
                Some(root) => self@.contains_key(coord) && *root == self@[coord]
                    && root.well_formed(),
                None => !self@.contains_key(coord),
            },
            self.chunks_well_formed(),
    {
        proof {
            use_type_invariant(self);
        }
        let key = chunk_key(coord);
        self.world.get(&key)
    }

    /// Clears the changed flag; the chunks stay.
    pub fn reset_changed(&mut self)
        ensures
            final(self)@ == old(self)@,
            !final(self).dirty(),
            final(self).chunks_well_formed(),
    {
        proof {
            use_type_invariant(&*self);
        }
        self.world_changed = false;
    }

    /// Puts an empty chunk at every coordinate of the region from `start` up
    /// to, not including, `end`, in place of what was there, and marks the
    /// grid as changed.
    pub fn fill_empty(&mut self, start: Coord, end: Coord)
        ensures
            final(self)@ == filled(old(self)@, start, end),
            final(self).dirty(),
            final(self).chunks_well_formed(),
    {
        let ghost before = self@;
        proof {
            use_type_invariant(&*self);
        }
        self.world_changed = true;
        assert(self@ =~= filled_to(before, start, end, (start.0, start.1, start.2)));
        let mut z: i32 = start.2;
        while z < end.2
            invariant
                start.2 <= z,
                self.dirty(),
                self@ == filled_to(before, start, end, (start.0, start.1, z)),
            decreases end.2 - z,
        {
            let mut y: i32 = start.1;
            while y < end.1
                invariant
                    start.2 <= z < end.2,
                    start.1 <= y,
                    self.dirty(),
                    self@ == filled_to(before, start, end, (start.0, y, z)),
                decreases end.1 - y,
            {
                let mut x: i32 = start.0;
                while x < end.0
                    invariant
                        start.2 <= z < end.2,
                        start.1 <= y < end.1,
                        start.0 <= x,
                        self.dirty(),
                        self@ == filled_to(before, start, end, (x, y, z)),
                    decreases end.0 - x,
                {
                    self.add_chunk(Node::Empty, (x, y, z));
                    x = x + 1;
                    assert(self@ =~= filled_to(before, start, end, (x, y, z)));
                }
                y = y + 1;
                assert(self@ =~= filled_to(before, start, end, (start.0, y, z)));
            }
            z = z + 1;
            assert(self@ =~= filled_to(before, start, end, (start.0, start.1, z)));
        }
        assert(self@ =~= filled(before, start, end));
        proof {
            use_type_invariant(&*self);
        }
    }
}

/// Whether the walk over the region, x running fastest, then y, then z, has
/// passed `c` when it stands at `at`.
spec fn reached(c: Coord, start: Coord, end: Coord, at: Coord) -> bool {
    &&& in_region(c, start, end)
    &&& c.2 < at.2 || (c.2 == at.2 && (c.1 < at.1 || (c.1 == at.1 && c.0 < at.0)))
}

/// The grid with an empty chunk at every coordinate of the region that the
/// walk has passed when it stands at `at`.
spec fn filled_to(chunks: Map<Coord, Node>, start: Coord, end: Coord, at: Coord) -> Map<
    Coord,
    Node,
> {
    Map::new(
        |c: Coord| chunks.contains_key(c) || reached(c, start, end, at),
        |c: Coord|
            if reached(c, start, end, at) {
                Node::Empty
            } else {
                chunks[c]
            },
    )
}

/// The grid with an empty chunk at every coordinate of the region.
pub open spec fn filled(chunks: Map<Coord, Node>, start: Coord, end: Coord) -> Map<Coord, Node> {
    Map::new(
        |c: Coord| chunks.contains_key(c) || in_region(c, start, end),
        |c: Coord|
            if in_region(c, start, end) {
                Node::Empty
            } else {
                chunks[c]
            },
    )
}

} // verus!
