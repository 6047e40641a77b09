//! Block storage for one chunk: a 16-subchunk column of 16x16x16 cells.

use vstd::prelude::*;

verus! {

/// The material of one voxel cell.
#[derive(Clone, Copy, Debug, PartialEq, Eq, Structural)]
pub enum BlockId {
    Empty,
    Grass,
}

impl BlockId {
    /// Whether this block hides faces behind it and counts toward occlusion.
    pub open spec fn spec_is_opaque(&self) -> bool {
        !(self is Empty)
    }

    #[verifier::when_used_as_spec(spec_is_opaque)]
    pub fn is_opaque(&self) -> (r: bool)
        ensures
            r == self.spec_is_opaque(),
    {
        match self {
            BlockId::Empty => false,
            _ => true,
        }
    }
}

impl Default for BlockId {
    fn default() -> (r: Self)
        ensures
            r == BlockId::Empty,
    {
        BlockId::Empty
    }
}

/// Block data for a 16x16x16 region, row-major: index `sy * 256 + z * 16 + x`.
#[derive(Debug, Clone, PartialEq, Eq)]
pub struct SubChunk {
    pub blocks: Vec<BlockId>,
}

impl SubChunk {
    pub open spec fn wf(self) -> bool {
        self.blocks.len() == 4096
    }
}

/// A 16x16x256 column of blocks, split into 16 vertical subchunks.
#[derive(Debug, Clone, PartialEq, Eq)]
pub struct Chunk {
    pub subchunks: Vec<SubChunk>,
}

/// True when `(x, y, z)` addresses a cell of a single chunk.
pub open spec fn in_chunk_bounds(x: int, y: int, z: int) -> bool {
    &&& 0 <= x < 16
    &&& 0 <= y < 256
    &&& 0 <= z < 16
}

impl View for Chunk {
    type V = Seq<Seq<BlockId>>;

    open spec fn view(&self) -> Seq<Seq<BlockId>> {
        self.subchunks@.map(|i: int, s: SubChunk| s.blocks@)
    }
}

impl Chunk {
    pub open spec fn wf(self) -> bool {
        &&& self.subchunks.len() == 16
        &&& forall|i: int| 0 <= i < 16 ==> (#[trigger] self.subchunks@[i]).wf()
    }

    /// The block stored at local coordinates `(x, y, z)`.
    pub open spec fn spec_block_at(self, x: int, y: int, z: int) -> BlockId
        recommends
            self.wf(),
            in_chunk_bounds(x, y, z),
    {
        self@[y / 16][(y % 16) * 256 + z * 16 + x]
    }

    /// A chunk with every cell `Empty`.
    pub fn new() -> (r: Chunk)
        ensures
            r.wf(),
            forall|x: int, y: int, z: int|
                in_chunk_bounds(x, y, z) ==> r.spec_block_at(x, y, z) == BlockId::Empty,
    {
        let mut subchunks: Vec<SubChunk> = Vec::new();
        let mut i: usize = 0;
        while i < 16
            invariant
                i <= 16,
                subchunks.len() == i,
                forall|j: int|
                    0 <= j < i ==> (#[trigger] subchunks@[j]).wf() && forall|k: int|
                        0 <= k < 4096 ==> subchunks@[j].blocks@[k] == BlockId::Empty,
            decreases 16 - i,
        {
            let mut blocks: Vec<BlockId> = Vec::new();
            let mut k: usize = 0;
            while k < 4096
                invariant
                    k <= 4096,
                    blocks.len() == k,
                    forall|m: int| 0 <= m < k ==> blocks@[m] == BlockId::Empty,
                decreases 4096 - k,
            {
                blocks.push(BlockId::Empty);
                k = k + 1;
            }
            subchunks.push(SubChunk { blocks });
            i = i + 1;
        }
        Chunk { subchunks }
    }

    /// Writes `block` at local coordinates `(x, y, z)`.
    pub fn set(&mut self, coord: (usize, usize, usize), block: BlockId)
        requires
            old(self).wf(),
            in_chunk_bounds(coord.0 as int, coord.1 as int, coord.2 as int),
        ensures
            final(self).wf(),
            final(self)@ == old(self)@.update(
                coord.1 as int / 16,
                old(self)@[coord.1 as int / 16].update(
                    (coord.1 as int % 16) * 256 + coord.2 as int * 16 + coord.0 as int,
                    block,
                ),
            ),
            final(self).spec_block_at(coord.0 as int, coord.1 as int, coord.2 as int) == block,
            forall|x2: int, y2: int, z2: int|
                in_chunk_bounds(x2, y2, z2) && (x2, y2, z2) != (
                    coord.0 as int,
                    coord.1 as int,
                    coord.2 as int,
                ) ==> #[trigger] final(self).spec_block_at(x2, y2, z2) == old(self).spec_block_at(
                    x2,
                    y2,
                    z2,
                ),
    {
        let (x, y, z) = coord;
        let si = y / 16;
        let sy = y % 16;
        self.subchunks[si].blocks[sy * 256 + z * 16 + x] = block;
        proof {
            let xi = x as int;
            let yi = y as int;
            let zi = z as int;
            assert(self@ =~= old(self)@.update(
                yi / 16,
                old(self)@[yi / 16].update((yi % 16) * 256 + zi * 16 + xi, block),
            ));
            assert forall|x2: int, y2: int, z2: int|
                in_chunk_bounds(x2, y2, z2) && (x2, y2, z2) != (xi, yi, zi) implies self
                .spec_block_at(x2, y2, z2) == old(self).spec_block_at(x2, y2, z2) by {
                if y2 / 16 == yi / 16 {
                    if (y2 % 16) * 256 + z2 * 16 + x2 == (yi % 16) * 256 + zi * 16 + xi {
                        assert(x2 == xi && z2 == zi && y2 % 16 == yi % 16);
                        assert(y2 == 16 * (y2 / 16) + y2 % 16);
                        assert(yi == 16 * (yi / 16) + yi % 16);
                        assert(false);
                    }
                }
            }
        }
    }

    /// Reads the block at local coordinates `(x, y, z)`.
    pub fn get(&self, coord: (usize, usize, usize)) -> (r: BlockId)
        requires
            self.wf(),
            in_chunk_bounds(coord.0 as int, coord.1 as int, coord.2 as int),
        ensures
            r == self.spec_block_at(coord.0 as int, coord.1 as int, coord.2 as int),
    {
        let (x, y, z) = coord;
        let si = y / 16;
        let sy = y % 16;
        self.subchunks[si].blocks[sy * 256 + z * 16 + x]
    }

    /// A deep copy, cell for cell.
    pub fn snapshot(&self) -> (r: Chunk)
        requires
            self.wf(),
        ensures
            r.wf(),
            r@ == self@,
    {
        let mut subchunks: Vec<SubChunk> = Vec::new();
        let mut i: usize = 0;
        while i < 16
            invariant
                self.wf(),
                i <= 16,
                subchunks.len() == i,
                forall|j: int| 0 <= j < i ==> #[trigger] subchunks@[j].blocks@ == self@[j],
            decreases 16 - i,
        {
            let mut blocks: Vec<BlockId> = Vec::new();
            let mut k: usize = 0;
            while k < 4096
                invariant
                    self.wf(),
                    i < 16,
                    k <= 4096,
                    blocks.len() == k,
                    forall|m: int| 0 <= m < k ==> blocks@[m] == self.subchunks@[i as int].blocks@[m],
                decreases 4096 - k,
            {
                blocks.push(self.subchunks[i].blocks[k]);
                k = k + 1;
            }
            proof {
                assert(blocks@ =~= self@[i as int]);
            }
            subchunks.push(SubChunk { blocks });
            i = i + 1;
        }
        let r = Chunk { subchunks };
        proof {
            assert(r@ =~= self@);
        }
        r
    }
}

impl Default for Chunk {
    fn default() -> (r: Self)
        ensures
            r.wf(),
            forall|x: int, y: int, z: int|
                in_chunk_bounds(x, y, z) ==> r.spec_block_at(x, y, z) == BlockId::Empty,
    {
        Chunk::new()
    }
}

/// The block that a column-height terrain oracle assigns to a cell: solid
/// ground strictly below the column's height, air above it.
pub open spec fn height_block(heights: Seq<usize>, x: int, y: int, z: int) -> BlockId
    recommends
        heights.len() == 256,
        in_chunk_bounds(x, y, z),
{
    if y < heights[x * 16 + z] {
        BlockId::Grass
    } else {
        BlockId::Empty
    }
}

/// Builds a chunk from 256 column heights, indexed `x * 16 + z`.
pub fn chunk_from_heights(heights: &Vec<usize>) -> (r: Chunk)
    requires
        heights@.len() == 256,
        forall|i: int| 0 <= i < 256 ==> #[trigger] heights@[i] <= 256,
    ensures
        r.wf(),
        forall|x: int, y: int, z: int|
            in_chunk_bounds(x, y, z) ==> #[trigger] r.spec_block_at(x, y, z) == height_block(heights@, x, y, z),
{
    let mut c = Chunk::new();
    let mut lx: usize = 0;
    while lx < 16
        invariant
            heights@.len() == 256,
            forall|i: int| 0 <= i < 256 ==> #[trigger] heights@[i] <= 256,
            lx <= 16,
            c.wf(),
            forall|x: int, y: int, z: int|
                in_chunk_bounds(x, y, z) && x < lx ==> #[trigger] c.spec_block_at(x, y, z) == height_block(
                    heights@,
                    x,
                    y,
                    z,
                ),
            forall|x: int, y: int, z: int|
                in_chunk_bounds(x, y, z) && x >= lx ==> #[trigger] c.spec_block_at(x, y, z) == BlockId::Empty,
        decreases 16 - lx,
    {
        let mut lz: usize = 0;
        while lz < 16
            invariant
                heights@.len() == 256,
                forall|i: int| 0 <= i < 256 ==> #[trigger] heights@[i] <= 256,
                lx < 16,
                lz <= 16,
                c.wf(),
                forall|x: int, y: int, z: int|
                    in_chunk_bounds(x, y, z) && (x < lx || (x == lx && z < lz)) ==> #[trigger] c
                        .spec_block_at(x, y, z) == height_block(heights@, x, y, z),
                forall|x: int, y: int, z: int|
                    in_chunk_bounds(x, y, z) && (x > lx || (x == lx && z >= lz)) ==> #[trigger] c
                        .spec_block_at(x, y, z) == BlockId::Empty,
            decreases 16 - lz,
        {
            let h = heights[lx * 16 + lz];
            let mut y: usize = 0;
            while y < h
                invariant
                    heights@.len() == 256,
                    forall|i: int| 0 <= i < 256 ==> #[trigger] heights@[i] <= 256,
                    lx < 16,
                    lz < 16,
                    h == heights@[lx * 16 + lz],
                    h <= 256,
                    y <= h,
                    c.wf(),
                    forall|x2: int, y2: int, z2: int|
                        in_chunk_bounds(x2, y2, z2) && (x2 < lx || (x2 == lx && z2 < lz))
                            ==> #[trigger] c.spec_block_at(x2, y2, z2) == height_block(
                            heights@,
                            x2,
                            y2,
                            z2,
                        ),
                    forall|x2: int, y2: int, z2: int|
                        in_chunk_bounds(x2, y2, z2) && (x2 > lx || (x2 == lx && z2 > lz))
                            ==> #[trigger] c.spec_block_at(x2, y2, z2) == BlockId::Empty,
                    forall|y2: int|
                        0 <= y2 < y ==> #[trigger] c.spec_block_at(lx as int, y2, lz as int)
                            == BlockId::Grass,
                    forall|y2: int|
                        y <= y2 < 256 ==> #[trigger] c.spec_block_at(lx as int, y2, lz as int)
                            == BlockId::Empty,
                decreases h - y,
            {
                c.set((lx, y, lz), BlockId::Grass);
                y = y + 1;
            }
            lz = lz + 1;
        }
        lx = lx + 1;
    }
    c
}

} // verus!
