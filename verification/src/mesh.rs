//! The mesh builder: turns one dirty 16x16x16 slab of the chunk directory
//! into a vertex/index buffer, emitting only exposed faces and shading each
//! vertex by a corner-occlusion count.

use vstd::prelude::*;

use crate::directory::{spec_get_block, ChunkCollection, DirEntryView, MaybeLoadedBlock};

verus! {

/// Chunk coordinates this far from the origin keep every derived world
/// coordinate well inside `i64`.
pub const COORD_LIMIT: i64 = 0x0080_0000_0000_0000;

/// One vertex of a face quad: integer cube-corner position within a slab
/// (each component `0..=16`), texture corner, and brightness in quarters of
/// full brightness (`4` is fully lit, `0` black).
#[derive(Debug, Clone, Copy, PartialEq, Eq)]
pub struct Vertex {
    pub pos: (u8, u8, u8),
    pub texcoord: (u8, u8),
    pub brightness: u8,
}

impl Vertex {
    /// The vertex position as signed integers.
    pub fn pos_i64(self) -> (r: (i64, i64, i64))
        ensures
            r == (self.pos.0 as i64, self.pos.1 as i64, self.pos.2 as i64),
    {
        (self.pos.0 as i64, self.pos.1 as i64, self.pos.2 as i64)
    }
}

/// The six axis-aligned face directions of a unit cube.
#[derive(Debug, Clone, Copy, PartialEq, Eq, Structural)]
pub enum FaceDir {
    Top,
    Bottom,
    Right,
    Left,
    Front,
    Rear,
}

/// The neighbour-cell offset that a face looks toward.
pub open spec fn spec_dir_offset(d: FaceDir) -> (int, int, int) {
    match d {
        FaceDir::Top => (0, 1, 0),
        FaceDir::Bottom => (0, -1, 0),
        FaceDir::Right => (1, 0, 0),
        FaceDir::Left => (-1, 0, 0),
        FaceDir::Front => (0, 0, 1),
        FaceDir::Rear => (0, 0, -1),
    }
}

/// The quad of a face on the unit cube, counter-clockwise as seen from
/// outside, with brightness not yet applied.
pub open spec fn spec_face_vertices(d: FaceDir) -> Seq<Vertex> {
    match d {
        FaceDir::Top => seq![
            Vertex { pos: (0, 1, 0), texcoord: (0, 0), brightness: 0 },
            Vertex { pos: (0, 1, 1), texcoord: (0, 1), brightness: 0 },
            Vertex { pos: (1, 1, 1), texcoord: (1, 1), brightness: 0 },
            Vertex { pos: (1, 1, 0), texcoord: (1, 0), brightness: 0 },
        ],
        FaceDir::Bottom => seq![
            Vertex { pos: (0, 0, 1), texcoord: (0, 0), brightness: 0 },
            Vertex { pos: (0, 0, 0), texcoord: (0, 1), brightness: 0 },
            Vertex { pos: (1, 0, 0), texcoord: (1, 1), brightness: 0 },
            Vertex { pos: (1, 0, 1), texcoord: (1, 0), brightness: 0 },
        ],
        FaceDir::Right => seq![
            Vertex { pos: (1, 1, 1), texcoord: (0, 0), brightness: 0 },
            Vertex { pos: (1, 0, 1), texcoord: (0, 1), brightness: 0 },
            Vertex { pos: (1, 0, 0), texcoord: (1, 1), brightness: 0 },
            Vertex { pos: (1, 1, 0), texcoord: (1, 0), brightness: 0 },
        ],
        FaceDir::Left => seq![
            Vertex { pos: (0, 1, 0), texcoord: (0, 0), brightness: 0 },
            Vertex { pos: (0, 0, 0), texcoord: (0, 1), brightness: 0 },
            Vertex { pos: (0, 0, 1), texcoord: (1, 1), brightness: 0 },
            Vertex { pos: (0, 1, 1), texcoord: (1, 0), brightness: 0 },
        ],
        FaceDir::Front => seq![
            Vertex { pos: (0, 1, 1), texcoord: (0, 0), brightness: 0 },
            Vertex { pos: (0, 0, 1), texcoord: (0, 1), brightness: 0 },
            Vertex { pos: (1, 0, 1), texcoord: (1, 1), brightness: 0 },
            Vertex { pos: (1, 1, 1), texcoord: (1, 0), brightness: 0 },
        ],
        FaceDir::Rear => seq![
            Vertex { pos: (1, 1, 0), texcoord: (0, 0), brightness: 0 },
            Vertex { pos: (1, 0, 0), texcoord: (0, 1), brightness: 0 },
            Vertex { pos: (0, 0, 0), texcoord: (1, 1), brightness: 0 },
            Vertex { pos: (0, 1, 0), texcoord: (1, 0), brightness: 0 },
        ],
    }
}

/// The base quad of a face, as a vector.
pub fn face_vertices(d: FaceDir) -> (r: Vec<Vertex>)
    ensures
        r@ == spec_face_vertices(d),
{
    let r = match d {
        FaceDir::Top => vec![
            Vertex { pos: (0, 1, 0), texcoord: (0, 0), brightness: 0 },
            Vertex { pos: (0, 1, 1), texcoord: (0, 1), brightness: 0 },
            Vertex { pos: (1, 1, 1), texcoord: (1, 1), brightness: 0 },
            Vertex { pos: (1, 1, 0), texcoord: (1, 0), brightness: 0 },
        ],
        FaceDir::Bottom => vec![
            Vertex { pos: (0, 0, 1), texcoord: (0, 0), brightness: 0 },
            Vertex { pos: (0, 0, 0), texcoord: (0, 1), brightness: 0 },
            Vertex { pos: (1, 0, 0), texcoord: (1, 1), brightness: 0 },
            Vertex { pos: (1, 0, 1), texcoord: (1, 0), brightness: 0 },
        ],
        FaceDir::Right => vec![
            Vertex { pos: (1, 1, 1), texcoord: (0, 0), brightness: 0 },
            Vertex { pos: (1, 0, 1), texcoord: (0, 1), brightness: 0 },
            Vertex { pos: (1, 0, 0), texcoord: (1, 1), brightness: 0 },
            Vertex { pos: (1, 1, 0), texcoord: (1, 0), brightness: 0 },
        ],
        FaceDir::Left => vec![
            Vertex { pos: (0, 1, 0), texcoord: (0, 0), brightness: 0 },
            Vertex { pos: (0, 0, 0), texcoord: (0, 1), brightness: 0 },
            Vertex { pos: (0, 0, 1), texcoord: (1, 1), brightness: 0 },
            Vertex { pos: (0, 1, 1), texcoord: (1, 0), brightness: 0 },
        ],
        FaceDir::Front => vec![
            Vertex { pos: (0, 1, 1), texcoord: (0, 0), brightness: 0 },
            Vertex { pos: (0, 0, 1), texcoord: (0, 1), brightness: 0 },
            Vertex { pos: (1, 0, 1), texcoord: (1, 1), brightness: 0 },
            Vertex { pos: (1, 1, 1), texcoord: (1, 0), brightness: 0 },
        ],
        FaceDir::Rear => vec![
            Vertex { pos: (1, 1, 0), texcoord: (0, 0), brightness: 0 },
            Vertex { pos: (1, 0, 0), texcoord: (0, 1), brightness: 0 },
            Vertex { pos: (0, 0, 0), texcoord: (1, 1), brightness: 0 },
            Vertex { pos: (0, 1, 0), texcoord: (1, 0), brightness: 0 },
        ],
    };
    proof {
        assert(r@ =~= spec_face_vertices(d));
    }
    r
}

/// Whether the cell at world coordinates `(x, y, z)` holds an opaque block;
/// unloaded cells count as non-opaque.
pub open spec fn opaque_at(m: Map<(i64, i64), DirEntryView>, x: int, y: int, z: int) -> bool
    recommends
        i64::MIN <= x <= i64::MAX,
        i64::MIN <= y <= i64::MAX,
        i64::MIN <= z <= i64::MAX,
{
    match spec_get_block(m, x as i64, y as i64, z as i64) {
        MaybeLoadedBlock::Loaded(b) => b.spec_is_opaque(),
        MaybeLoadedBlock::Unloaded => false,
    }
}

pub open spec fn b2i(b: bool) -> int {
    if b {
        1
    } else {
        0
    }
}

/// How many of the 8 cells around the vertex `(vx, vy, vz)` of the cell at
/// `(x, y, z)` hold an opaque block.
#[verifier::opaque]
pub open spec fn spec_corner_count(
    m: Map<(i64, i64), DirEntryView>,
    x: int,
    y: int,
    z: int,
    vx: int,
    vy: int,
    vz: int,
) -> int
    recommends
        0 <= vx <= 1,
        0 <= vy <= 1,
        0 <= vz <= 1,
{
    b2i(opaque_at(m, x + vx - 1, y + vy - 1, z + vz - 1)) + b2i(
        opaque_at(m, x + vx - 1, y + vy - 1, z + vz),
    ) + b2i(opaque_at(m, x + vx - 1, y + vy, z + vz - 1)) + b2i(
        opaque_at(m, x + vx - 1, y + vy, z + vz),
    ) + b2i(opaque_at(m, x + vx, y + vy - 1, z + vz - 1)) + b2i(
        opaque_at(m, x + vx, y + vy - 1, z + vz),
    ) + b2i(opaque_at(m, x + vx, y + vy, z + vz - 1)) + b2i(opaque_at(m, x + vx, y + vy, z + vz))
}

/// Index of the offset `(dx, dy, dz)` in the flattened 3x3x3 neighbourhood.
pub open spec fn nb_index(dx: int, dy: int, dz: int) -> int
    recommends
        -1 <= dx <= 1,
        -1 <= dy <= 1,
        -1 <= dz <= 1,
{
    (dx + 1) * 9 + (dy + 1) * 3 + (dz + 1)
}

/// True when a chunk coordinate pair is close enough to the origin for mesh
/// arithmetic.
pub open spec fn chunk_coord_in_range(cx: int, cz: int) -> bool {
    &&& -COORD_LIMIT < cx < COORD_LIMIT
    &&& -COORD_LIMIT < cz < COORD_LIMIT
}

/// True when a world coordinate triple is safe for neighbourhood queries.
pub open spec fn world_coord_in_range(x: int, y: int, z: int) -> bool {
    &&& -0x1000_0000_0000_0000 < x < 0x1000_0000_0000_0000
    &&& -0x1000_0000_0000_0000 < y < 0x1000_0000_0000_0000
    &&& -0x1000_0000_0000_0000 < z < 0x1000_0000_0000_0000
}

/// The 3x3x3 block neighbourhood of one cell, sampled once and then read
/// for face culling and all corner-occlusion counts of that cell.
pub struct NearbyBlocks {
    blocks: Vec<MaybeLoadedBlock>,
    center: (i64, i64, i64),
    world: Ghost<Map<(i64, i64), DirEntryView>>,
}

impl NearbyBlocks {
    pub closed spec fn spec_center(self) -> (i64, i64, i64) {
        self.center
    }

    pub closed spec fn spec_world(self) -> Map<(i64, i64), DirEntryView> {
        self.world@
    }

    pub closed spec fn wf(self) -> bool {
        &&& self.blocks.len() == 27
        &&& world_coord_in_range(self.center.0 as int, self.center.1 as int, self.center.2 as int)
        &&& forall|dx: int, dy: int, dz: int|
            -1 <= dx <= 1 && -1 <= dy <= 1 && -1 <= dz <= 1 ==> self.blocks@[#[trigger] nb_index(
                dx,
                dy,
                dz,
            )] == spec_get_block(
                self.world@,
                (self.center.0 + dx) as i64,
                (self.center.1 + dy) as i64,
                (self.center.2 + dz) as i64,
            )
    }

    /// Samples the neighbourhood of `center` from the directory.
    pub fn new(center: (i64, i64, i64), chunks: &ChunkCollection) -> (r: NearbyBlocks)
        requires
            chunks.wf(),
            world_coord_in_range(center.0 as int, center.1 as int, center.2 as int),
        ensures
            r.wf(),
            r.spec_world() == chunks@,
            r.spec_center() == center,
    {
        let (x, y, z) = center;
        let mut blocks: Vec<MaybeLoadedBlock> = Vec::new();
        let mut du: usize = 0;
        while du < 3
            invariant
                chunks.wf(),
                world_coord_in_range(x as int, y as int, z as int),
                du <= 3,
                blocks.len() == du * 9,
                forall|dx: int, dy: int, dz: int|
                    -1 <= dx < du - 1 && -1 <= dy <= 1 && -1 <= dz <= 1 ==> blocks@[#[trigger] nb_index(
                        dx,
                        dy,
                        dz,
                    )] == spec_get_block(
                        chunks@,
                        (x + dx) as i64,
                        (y + dy) as i64,
                        (z + dz) as i64,
                    ),
            decreases 3 - du,
        {
            let mut ev: usize = 0;
            while ev < 3
                invariant
                    chunks.wf(),
                    world_coord_in_range(x as int, y as int, z as int),
                    du < 3,
                    ev <= 3,
                    blocks.len() == du * 9 + ev * 3,
                    forall|dx: int, dy: int, dz: int|
                        -1 <= dx <= 1 && -1 <= dy <= 1 && -1 <= dz <= 1 && (dx < du - 1 || (dx == du
                            - 1 && dy < ev - 1)) ==> blocks@[#[trigger] nb_index(dx, dy, dz)]
                            == spec_get_block(
                            chunks@,
                            (x + dx) as i64,
                            (y + dy) as i64,
                            (z + dz) as i64,
                        ),
                decreases 3 - ev,
            {
                let mut fw: usize = 0;
                while fw < 3
                    invariant
                        chunks.wf(),
                        world_coord_in_range(x as int, y as int, z as int),
                        du < 3,
                        ev < 3,
                        fw <= 3,
                        blocks.len() == du * 9 + ev * 3 + fw,
                        forall|dx: int, dy: int, dz: int|
                            -1 <= dx <= 1 && -1 <= dy <= 1 && -1 <= dz <= 1 && (dx < du - 1 || (dx
                                == du - 1 && dy < ev - 1) || (dx == du - 1 && dy == ev - 1 && dz < fw
                                - 1)) ==> blocks@[#[trigger] nb_index(dx, dy, dz)]
                                == spec_get_block(
                                chunks@,
                                (x + dx) as i64,
                                (y + dy) as i64,
                                (z + dz) as i64,
                            ),
                    decreases 3 - fw,
                {
                    let dx = du as i64 - 1;
                    let dy = ev as i64 - 1;
                    let dz = fw as i64 - 1;
                    let b = chunks.get_block((x + dx, y + dy, z + dz));
                    blocks.push(b);
                    fw = fw + 1;
                }
                ev = ev + 1;
            }
            du = du + 1;
        }
        NearbyBlocks { blocks, center, world: Ghost(chunks@) }
    }

    /// The sampled block at offset `(dx, dy, dz)` from the centre.
    pub fn at(&self, d: (i64, i64, i64)) -> (r: MaybeLoadedBlock)
        requires
            self.wf(),
            -1 <= d.0 <= 1,
            -1 <= d.1 <= 1,
            -1 <= d.2 <= 1,
        ensures
            r == spec_get_block(
                self.spec_world(),
                (self.spec_center().0 + d.0) as i64,
                (self.spec_center().1 + d.1) as i64,
                (self.spec_center().2 + d.2) as i64,
            ),
    {
        let idx = ((d.0 + 1) * 9 + (d.1 + 1) * 3 + (d.2 + 1)) as usize;
        proof {
            assert(idx == nb_index(d.0 as int, d.1 as int, d.2 as int));
        }
        self.blocks[idx]
    }

    /// Whether the sampled cell at offset `(dx, dy, dz)` is opaque.
    fn opaque_nb(&self, d: (i64, i64, i64)) -> (r: bool)
        requires
            self.wf(),
            -1 <= d.0 <= 1,
            -1 <= d.1 <= 1,
            -1 <= d.2 <= 1,
        ensures
            r == opaque_at(
                self.spec_world(),
                self.spec_center().0 + d.0,
                self.spec_center().1 + d.1,
                self.spec_center().2 + d.2,
            ),
    {
        match self.at(d) {
            MaybeLoadedBlock::Loaded(b) => b.is_opaque(),
            MaybeLoadedBlock::Unloaded => false,
        }
    }

    /// The occlusion count at corner `(vx, vy, vz)` of the centre cell: how
    /// many of the 2x2x2 cells whose near corner is that vertex are opaque.
    pub fn opaque_count(&self, v: (i64, i64, i64)) -> (r: u8)
        requires
            self.wf(),
            0 <= v.0 <= 1,
            0 <= v.1 <= 1,
            0 <= v.2 <= 1,
        ensures
            r as int == spec_corner_count(
                self.spec_world(),
                self.spec_center().0 as int,
                self.spec_center().1 as int,
                self.spec_center().2 as int,
                v.0 as int,
                v.1 as int,
                v.2 as int,
            ),
            r <= 8,
    {
        proof {
            reveal(spec_corner_count);
        }
        let mut count: u8 = 0;
        if self.opaque_nb((v.0 - 1, v.1 - 1, v.2 - 1)) {
            count = count + 1;
        }
        if self.opaque_nb((v.0 - 1, v.1 - 1, v.2)) {
            count = count + 1;
        }
        if self.opaque_nb((v.0 - 1, v.1, v.2 - 1)) {
            count = count + 1;
        }
        if self.opaque_nb((v.0 - 1, v.1, v.2)) {
            count = count + 1;
        }
        if self.opaque_nb((v.0, v.1 - 1, v.2 - 1)) {
            count = count + 1;
        }
        if self.opaque_nb((v.0, v.1 - 1, v.2)) {
            count = count + 1;
        }
        if self.opaque_nb((v.0, v.1, v.2 - 1)) {
            count = count + 1;
        }
        if self.opaque_nb((v.0, v.1, v.2)) {
            count = count + 1;
        }
        count
    }
}

/// Brightness of a vertex, in quarters of full, from its occlusion count:
/// counts up to 4 are fully lit, higher counts darken linearly to black at 8.
pub open spec fn spec_brightness(c: int) -> int
    recommends
        0 <= c <= 8,
{
    if c <= 4 {
        4
    } else {
        8 - c
    }
}

/// Brightness in quarters from an occlusion count.
pub fn brightness_quarters(count: u8) -> (r: u8)
    requires
        count <= 8,
    ensures
        r as int == spec_brightness(count as int),
{
    if count <= 4 {
        4
    } else {
        8 - count
    }
}

/// Occlusion counts up to 4 give full brightness, a count of 8 gives black,
/// and brightness never increases as the count grows.
pub proof fn lemma_brightness_bounds(c1: int, c2: int)
    requires
        0 <= c1 <= c2 <= 8,
    ensures
        0 <= spec_brightness(c1) <= 4,
        c1 <= 4 ==> spec_brightness(c1) == 4,
        c2 == 8 ==> spec_brightness(c2) == 0,
        spec_brightness(c1) >= spec_brightness(c2),
{
}

/// One emitted face: its direction, the four corner occlusion counts (in
/// base-quad vertex order), and the cell's slab-local coordinates.
#[derive(Debug, Clone, Copy, PartialEq, Eq)]
pub struct FaceData {
    pub dir: FaceDir,
    pub counts: (u8, u8, u8, u8),
    pub shift: (u8, u8, u8),
}

/// The occlusion count of vertex `i` of a face.
pub open spec fn spec_count_at(f: FaceData, i: int) -> u8
    recommends
        0 <= i < 4,
{
    if i == 0 {
        f.counts.0
    } else if i == 1 {
        f.counts.1
    } else if i == 2 {
        f.counts.2
    } else {
        f.counts.3
    }
}

/// A base-quad vertex moved to its cell and shaded by its occlusion count.
pub open spec fn spec_shifted_vertex(base: Vertex, shift: (u8, u8, u8), count: u8) -> Vertex
    recommends
        base.pos.0 <= 1 && base.pos.1 <= 1 && base.pos.2 <= 1,
        shift.0 <= 15 && shift.1 <= 15 && shift.2 <= 15,
        count <= 8,
{
    Vertex {
        pos: (
            (base.pos.0 + shift.0) as u8,
            (base.pos.1 + shift.1) as u8,
            (base.pos.2 + shift.2) as u8,
        ),
        texcoord: base.texcoord,
        brightness: spec_brightness(count as int) as u8,
    }
}

/// The four vertices that one emitted face contributes.
pub open spec fn spec_face_quad(f: FaceData) -> Seq<Vertex> {
    Seq::new(4, |i: int| spec_shifted_vertex(spec_face_vertices(f.dir)[i], f.shift, spec_count_at(f, i)))
}

/// The vertex sequence of a whole face list.
pub open spec fn spec_vertices_of(fs: Seq<FaceData>) -> Seq<Vertex>
    decreases fs.len(),
{
    if fs.len() == 0 {
        Seq::empty()
    } else {
        spec_vertices_of(fs.drop_last()) + spec_face_quad(fs.last())
    }
}

/// The six indices of face number `k`: two triangles with fixed winding
/// `0, 1, 2, 2, 3, 0` over that face's four vertices.
pub open spec fn spec_face_indices(k: int) -> Seq<u32>
    recommends
        0 <= k,
        4 * k + 3 <= u32::MAX,
{
    seq![
        (4 * k) as u32,
        (4 * k + 1) as u32,
        (4 * k + 2) as u32,
        (4 * k + 2) as u32,
        (4 * k + 3) as u32,
        (4 * k) as u32,
    ]
}

/// The index sequence of a whole face list.
pub open spec fn spec_indices_of(fs: Seq<FaceData>) -> Seq<u32>
    decreases fs.len(),
{
    if fs.len() == 0 {
        Seq::empty()
    } else {
        spec_indices_of(fs.drop_last()) + spec_face_indices(fs.len() - 1)
    }
}

/// A host-side mesh buffer for one slab: the vertices and triangle indices
/// of the faces pushed so far.
pub struct RenderedBuffer {
    pub vertices: Vec<Vertex>,
    pub indices: Vec<u32>,
    pub max_index: Option<u32>,
    pub faces: Ghost<Seq<FaceData>>,
}

impl RenderedBuffer {
    /// The buffer holds exactly the vertices and indices of its face list.
    pub open spec fn wf(self) -> bool {
        &&& self.faces@.len() <= 0x0100_0000
        &&& self.vertices@ == spec_vertices_of(self.faces@)
        &&& self.indices@ == spec_indices_of(self.faces@)
        &&& self.max_index == (if self.faces@.len() == 0 {
            None::<u32>
        } else {
            Some((4 * self.faces@.len() - 1) as u32)
        })
    }

    pub fn new() -> (r: RenderedBuffer)
        ensures
            r.wf(),
            r.faces@ == Seq::<FaceData>::empty(),
            r.vertices@.len() == 0,
            r.indices@.len() == 0,
    {
        RenderedBuffer {
            vertices: Vec::new(),
            indices: Vec::new(),
            max_index: None,
            faces: Ghost(Seq::empty()),
        }
    }

    /// Appends one face: four shifted, shaded vertices and six indices.
    pub fn push_face(&mut self, dir: FaceDir, counts: (u8, u8, u8, u8), shift: (u8, u8, u8))
        requires
            old(self).wf(),
            old(self).faces@.len() < 0x0100_0000,
            counts.0 <= 8 && counts.1 <= 8 && counts.2 <= 8 && counts.3 <= 8,
            shift.0 <= 15 && shift.1 <= 15 && shift.2 <= 15,
        ensures
            final(self).wf(),
            final(self).faces@ == old(self).faces@.push(FaceData { dir, counts, shift }),
    {
        let ghost f = FaceData { dir, counts, shift };
        let base = face_vertices(dir);
        proof {
            assert(base@[0].pos.0 <= 1 && base@[0].pos.1 <= 1 && base@[0].pos.2 <= 1);
            assert(base@[1].pos.0 <= 1 && base@[1].pos.1 <= 1 && base@[1].pos.2 <= 1);
            assert(base@[2].pos.0 <= 1 && base@[2].pos.1 <= 1 && base@[2].pos.2 <= 1);
            assert(base@[3].pos.0 <= 1 && base@[3].pos.1 <= 1 && base@[3].pos.2 <= 1);
        }
        let v0 = shifted_vertex(base[0], shift, counts.0);
        let v1 = shifted_vertex(base[1], shift, counts.1);
        let v2 = shifted_vertex(base[2], shift, counts.2);
        let v3 = shifted_vertex(base[3], shift, counts.3);
        self.vertices.push(v0);
        self.vertices.push(v1);
        self.vertices.push(v2);
        self.vertices.push(v3);
        let start: u32 = match self.max_index {
            Some(i) => i + 1,
            None => 0,
        };
        self.indices.push(start);
        self.indices.push(start + 1);
        self.indices.push(start + 2);
        self.indices.push(start + 2);
        self.indices.push(start + 3);
        self.indices.push(start);
        self.max_index = Some(start + 3);
        proof {
            let fs = old(self).faces@;
            self.faces@ = fs.push(f);
            assert(fs.push(f).drop_last() =~= fs);
            assert(fs.push(f).last() == f);
            assert(spec_face_quad(f)[0] == v0);
            assert(spec_face_quad(f)[1] == v1);
            assert(spec_face_quad(f)[2] == v2);
            assert(spec_face_quad(f)[3] == v3);
            assert(self.vertices@ =~= spec_vertices_of(fs) + spec_face_quad(f));
            assert(start == 4 * fs.len());
            assert(self.indices@ =~= spec_indices_of(fs) + spec_face_indices(fs.len() as int));
        }
    }
}

/// Two rebuilds of a slab from the same directory state produce identical
/// vertex and index sequences.
pub proof fn lemma_mesh_rebuild_deterministic(b1: RenderedBuffer, b2: RenderedBuffer)
    requires
        b1.wf(),
        b2.wf(),
        b1.faces@ == b2.faces@,
    ensures
        b1.vertices@ == b2.vertices@,
        b1.indices@ == b2.indices@,
{
}

/// A base-quad vertex moved to its cell and shaded by its occlusion count.
fn shifted_vertex(base: Vertex, shift: (u8, u8, u8), count: u8) -> (r: Vertex)
    requires
        base.pos.0 <= 1 && base.pos.1 <= 1 && base.pos.2 <= 1,
        shift.0 <= 15 && shift.1 <= 15 && shift.2 <= 15,
        count <= 8,
    ensures
        r == spec_shifted_vertex(base, shift, count),
{
    Vertex {
        pos: (base.pos.0 + shift.0, base.pos.1 + shift.1, base.pos.2 + shift.2),
        texcoord: base.texcoord,
        brightness: brightness_quarters(count),
    }
}


/// Whether a face of the cell at `(x, y, z)` is emitted: the neighbour it
/// looks toward must be loaded and non-opaque. An unloaded neighbour emits
/// nothing, so boundaries of loaded terrain are simply not drawn.
pub open spec fn spec_face_visible(
    m: Map<(i64, i64), DirEntryView>,
    x: int,
    y: int,
    z: int,
    d: FaceDir,
) -> bool {
    let o = spec_dir_offset(d);
    match spec_get_block(m, (x + o.0) as i64, (y + o.1) as i64, (z + o.2) as i64) {
        MaybeLoadedBlock::Loaded(b) => !b.spec_is_opaque(),
        MaybeLoadedBlock::Unloaded => false,
    }
}

/// The four corner occlusion counts of a face, in base-quad vertex order.
#[verifier::opaque]
pub open spec fn spec_face_counts(
    m: Map<(i64, i64), DirEntryView>,
    x: int,
    y: int,
    z: int,
    d: FaceDir,
) -> (u8, u8, u8, u8) {
    let vs = spec_face_vertices(d);
    (
        spec_corner_count(
            m,
            x,
            y,
            z,
            vs[0].pos.0 as int,
            vs[0].pos.1 as int,
            vs[0].pos.2 as int,
        ) as u8,
        spec_corner_count(
            m,
            x,
            y,
            z,
            vs[1].pos.0 as int,
            vs[1].pos.1 as int,
            vs[1].pos.2 as int,
        ) as u8,
        spec_corner_count(
            m,
            x,
            y,
            z,
            vs[2].pos.0 as int,
            vs[2].pos.1 as int,
            vs[2].pos.2 as int,
        ) as u8,
        spec_corner_count(
            m,
            x,
            y,
            z,
            vs[3].pos.0 as int,
            vs[3].pos.1 as int,
            vs[3].pos.2 as int,
        ) as u8,
    )
}

/// The face that direction `d` of the cell at `(x, y, z)` contributes:
/// one face if visible, nothing otherwise.
pub open spec fn spec_dir_face(
    m: Map<(i64, i64), DirEntryView>,
    x: int,
    y: int,
    z: int,
    d: FaceDir,
) -> Seq<FaceData> {
    if spec_face_visible(m, x, y, z, d) {
        seq![
            FaceData {
                dir: d,
                counts: spec_face_counts(m, x, y, z, d),
                shift: ((x % 16) as u8, (y % 16) as u8, (z % 16) as u8),
            },
        ]
    } else {
        Seq::empty()
    }
}

/// All faces of the cell at `(x, y, z)`, in the fixed direction order
/// top, bottom, right, left, front, rear; nothing for a non-opaque cell.
#[verifier::opaque]
pub open spec fn spec_cell_faces(
    m: Map<(i64, i64), DirEntryView>,
    x: int,
    y: int,
    z: int,
) -> Seq<FaceData> {
    if opaque_at(m, x, y, z) {
        spec_dir_face(m, x, y, z, FaceDir::Top) + spec_dir_face(m, x, y, z, FaceDir::Bottom)
            + spec_dir_face(m, x, y, z, FaceDir::Right) + spec_dir_face(m, x, y, z, FaceDir::Left)
            + spec_dir_face(m, x, y, z, FaceDir::Front) + spec_dir_face(m, x, y, z, FaceDir::Rear)
    } else {
        Seq::empty()
    }
}

/// World coordinates of cell number `n` of slab `(cx, s, cz)`, in the
/// iteration order x outermost, then y, then z.
pub open spec fn slab_cell_coords(cx: int, s: int, cz: int, n: int) -> (int, int, int)
    recommends
        0 <= n < 4096,
{
    (16 * cx + n / 256, 16 * s + (n / 16) % 16, 16 * cz + n % 16)
}

/// The faces of the first `n` cells of slab `(cx, s, cz)`.
pub open spec fn spec_slab_faces_prefix(
    m: Map<(i64, i64), DirEntryView>,
    cx: int,
    s: int,
    cz: int,
    n: int,
) -> Seq<FaceData>
    decreases n,
{
    if n <= 0 {
        Seq::empty()
    } else {
        let c = slab_cell_coords(cx, s, cz, n - 1);
        spec_slab_faces_prefix(m, cx, s, cz, n - 1) + spec_cell_faces(m, c.0, c.1, c.2)
    }
}

/// Every face of slab `(cx, s, cz)` on directory state `m`, in emission
/// order. The mesh of a slab is a function of the block data alone.
pub open spec fn spec_slab_faces(
    m: Map<(i64, i64), DirEntryView>,
    cx: int,
    s: int,
    cz: int,
) -> Seq<FaceData> {
    spec_slab_faces_prefix(m, cx, s, cz, 4096)
}

/// Emits the face of one direction of the centre cell, if visible.
fn emit_dir_face(
    buffer: &mut RenderedBuffer,
    nearbys: &NearbyBlocks,
    d: FaceDir,
    off: (i64, i64, i64),
    shift: (u8, u8, u8),
)
    requires
        old(buffer).wf(),
        old(buffer).faces@.len() < 0x00ff_ffff,
        nearbys.wf(),
        (off.0 as int, off.1 as int, off.2 as int) == spec_dir_offset(d),
        shift.0 as int == nearbys.spec_center().0 as int % 16,
        shift.1 as int == nearbys.spec_center().1 as int % 16,
        shift.2 as int == nearbys.spec_center().2 as int % 16,
    ensures
        final(buffer).wf(),
        final(buffer).faces@ == old(buffer).faces@ + spec_dir_face(
            nearbys.spec_world(),
            nearbys.spec_center().0 as int,
            nearbys.spec_center().1 as int,
            nearbys.spec_center().2 as int,
            d,
        ),
{
    let ghost m = nearbys.spec_world();
    let ghost xi = nearbys.spec_center().0 as int;
    let ghost yi = nearbys.spec_center().1 as int;
    let ghost zi = nearbys.spec_center().2 as int;
    proof {
        assert(-1 <= off.0 <= 1 && -1 <= off.1 <= 1 && -1 <= off.2 <= 1);
    }
    let nb = nearbys.at(off);
    let visible = match nb {
        MaybeLoadedBlock::Loaded(b) => !b.is_opaque(),
        MaybeLoadedBlock::Unloaded => false,
    };
    proof {
        assert(visible == spec_face_visible(m, xi, yi, zi, d));
    }
    if visible {
        let base = face_vertices(d);
        proof {
            assert(base@[0].pos.0 <= 1 && base@[0].pos.1 <= 1 && base@[0].pos.2 <= 1);
            assert(base@[1].pos.0 <= 1 && base@[1].pos.1 <= 1 && base@[1].pos.2 <= 1);
            assert(base@[2].pos.0 <= 1 && base@[2].pos.1 <= 1 && base@[2].pos.2 <= 1);
            assert(base@[3].pos.0 <= 1 && base@[3].pos.1 <= 1 && base@[3].pos.2 <= 1);
        }
        let c0 = nearbys.opaque_count(base[0].pos_i64());
        let c1 = nearbys.opaque_count(base[1].pos_i64());
        let c2 = nearbys.opaque_count(base[2].pos_i64());
        let c3 = nearbys.opaque_count(base[3].pos_i64());
        buffer.push_face(d, (c0, c1, c2, c3), shift);
        proof {
            reveal(spec_face_counts);
            assert((c0, c1, c2, c3) == spec_face_counts(m, xi, yi, zi, d));
            assert(shift == ((xi % 16) as u8, (yi % 16) as u8, (zi % 16) as u8));
            assert(buffer.faces@ =~= old(buffer).faces@ + spec_dir_face(m, xi, yi, zi, d));
        }
    } else {
        proof {
            assert(buffer.faces@ =~= old(buffer).faces@ + spec_dir_face(m, xi, yi, zi, d));
        }
    }
}

/// Builds the mesh of slab `(cx, s, cz)`: visits every cell in order, skips
/// non-opaque cells, and emits each visible face with its corner occlusion
/// shading. The result is a function of the directory's block data alone.
/// Emits every visible face of the cell at world coordinates `(x, y, z)`.
#[verifier::rlimit(100)]
#[verifier::spinoff_prover]
fn emit_cell(buffer: &mut RenderedBuffer, chunks: &ChunkCollection, c: (i64, i64, i64), shift: (
    u8,
    u8,
    u8,
))
    requires
        old(buffer).wf(),
        old(buffer).faces@.len() < 0x00ff_fff0,
        chunks.wf(),
        world_coord_in_range(c.0 as int, c.1 as int, c.2 as int),
        shift.0 as int == c.0 as int % 16,
        shift.1 as int == c.1 as int % 16,
        shift.2 as int == c.2 as int % 16,
    ensures
        final(buffer).wf(),
        final(buffer).faces@ == old(buffer).faces@ + spec_cell_faces(
            chunks@,
            c.0 as int,
            c.1 as int,
            c.2 as int,
        ),
        final(buffer).faces@.len() <= old(buffer).faces@.len() + 6,
{
    let (x, y, z) = c;
    let ghost m = chunks@;
    let ghost xi = x as int;
    let ghost yi = y as int;
    let ghost zi = z as int;
    let center = chunks.get_block((x, y, z));
    let center_opaque = match center {
        MaybeLoadedBlock::Loaded(b) => b.is_opaque(),
        MaybeLoadedBlock::Unloaded => false,
    };
    let ghost fs0 = buffer.faces@;
    if center_opaque {
        let nearbys = NearbyBlocks::new((x, y, z), chunks);
        emit_dir_face(buffer, &nearbys, FaceDir::Top, (0, 1, 0), shift);
        emit_dir_face(buffer, &nearbys, FaceDir::Bottom, (0, -1, 0), shift);
        emit_dir_face(buffer, &nearbys, FaceDir::Right, (1, 0, 0), shift);
        emit_dir_face(buffer, &nearbys, FaceDir::Left, (-1, 0, 0), shift);
        emit_dir_face(buffer, &nearbys, FaceDir::Front, (0, 0, 1), shift);
        emit_dir_face(buffer, &nearbys, FaceDir::Rear, (0, 0, -1), shift);
        proof {
            reveal(spec_cell_faces);
            assert(opaque_at(m, xi, yi, zi));
            assert(buffer.faces@ =~= fs0 + spec_cell_faces(m, xi, yi, zi));
        }
    } else {
        proof {
            reveal(spec_cell_faces);
            assert(!opaque_at(m, xi, yi, zi));
            assert(buffer.faces@ =~= fs0 + spec_cell_faces(m, xi, yi, zi));
        }
    }
}

/// Builds the mesh of slab `(cx, s, cz)`: visits every cell in order, skips
/// non-opaque cells, and emits each visible face with its corner occlusion
/// shading. The result is a function of the directory's block data alone.
#[verifier::rlimit(100)]
#[verifier::spinoff_prover]
pub fn build_subchunk_mesh(chunks: &ChunkCollection, coord: (i64, i64), s: usize) -> (r:
    RenderedBuffer)
    requires
        chunks.wf(),
        s < 16,
        chunk_coord_in_range(coord.0 as int, coord.1 as int),
    ensures
        r.wf(),
        r.faces@ == spec_slab_faces(chunks@, coord.0 as int, s as int, coord.1 as int),
{
    let (cx, cz) = coord;
    let mut buffer = RenderedBuffer::new();
    let mut n: usize = 0;
    while n < 4096
        invariant
            chunks.wf(),
            chunk_coord_in_range(cx as int, cz as int),
            s < 16,
            n <= 4096,
            buffer.wf(),
            buffer.faces@.len() <= 6 * n,
            buffer.faces@ == spec_slab_faces_prefix(
                chunks@,
                cx as int,
                s as int,
                cz as int,
                n as int,
            ),
        decreases 4096 - n,
    {
        let lx = n / 256;
        let ly = (n / 16) % 16;
        let lz = n % 16;
        let x = cx * 16 + lx as i64;
        let y = (s * 16 + ly) as i64;
        let z = cz * 16 + lz as i64;
        let ghost m = chunks@;
        let ghost xi = x as int;
        let ghost yi = y as int;
        let ghost zi = z as int;
        proof {
            assert(lx < 16 && ly < 16 && lz < 16);
            assert(slab_cell_coords(cx as int, s as int, cz as int, n as int) == (xi, yi, zi));
            assert(xi % 16 == lx as int && yi % 16 == ly as int && zi % 16 == lz as int) by (nonlinear_arith)
                requires
                    xi == 16 * (cx as int) + lx,
                    yi == 16 * (s as int) + ly,
                    zi == 16 * (cz as int) + lz,
                    0 <= lx < 16,
                    0 <= ly < 16,
                    0 <= lz < 16,
            ;
            assert(world_coord_in_range(xi, yi, zi));
        }
        emit_cell(&mut buffer, chunks, (x, y, z), (lx as u8, ly as u8, lz as u8));
        proof {
            assert(buffer.faces@ == spec_slab_faces_prefix(
                m,
                cx as int,
                s as int,
                cz as int,
                n as int + 1,
            ));
        }
        n = n + 1;
    }
    buffer
}

/// The mesh of a slab depends only on which chunks are loaded and their
/// block data, never on dirty flags.
#[verifier::rlimit(100)]
#[verifier::spinoff_prover]
pub proof fn lemma_slab_faces_blocks_only(
    m1: Map<(i64, i64), DirEntryView>,
    m2: Map<(i64, i64), DirEntryView>,
    cx: int,
    s: int,
    cz: int,
)
    requires
        m1.dom() == m2.dom(),
        forall|k: (i64, i64)| #[trigger] m1.contains_key(k) ==> m1[k].blocks == m2[k].blocks,
    ensures
        spec_slab_faces(m1, cx, s, cz) == spec_slab_faces(m2, cx, s, cz),
{
    assert forall|x: i64, y: i64, z: i64| #[trigger] spec_get_block(m1, x, y, z) == spec_get_block(
        m2,
        x,
        y,
        z,
    ) by {
        lemma_get_block_blocks_only(m1, m2, x, y, z);
    }
    lemma_prefix_congruent(m1, m2, cx, s, cz, 4096);
}

proof fn lemma_get_block_blocks_only(
    m1: Map<(i64, i64), DirEntryView>,
    m2: Map<(i64, i64), DirEntryView>,
    x: i64,
    y: i64,
    z: i64,
)
    requires
        m1.dom() == m2.dom(),
        forall|k: (i64, i64)| #[trigger] m1.contains_key(k) ==> m1[k].blocks == m2[k].blocks,
    ensures
        spec_get_block(m1, x, y, z) == spec_get_block(m2, x, y, z),
{
    if m2.contains_key(crate::directory::chunk_key(x, z)) {
        assert(m1.contains_key(crate::directory::chunk_key(x, z)));
    }
}

#[verifier::rlimit(100)]
#[verifier::spinoff_prover]
proof fn lemma_prefix_congruent(
    m1: Map<(i64, i64), DirEntryView>,
    m2: Map<(i64, i64), DirEntryView>,
    cx: int,
    s: int,
    cz: int,
    n: int,
)
    requires
        forall|x: i64, y: i64, z: i64| #[trigger] spec_get_block(m1, x, y, z) == spec_get_block(
            m2,
            x,
            y,
            z,
        ),
    ensures
        spec_slab_faces_prefix(m1, cx, s, cz, n) == spec_slab_faces_prefix(m2, cx, s, cz, n),
    decreases n,
{
    if n > 0 {
        lemma_prefix_congruent(m1, m2, cx, s, cz, n - 1);
        let c = slab_cell_coords(cx, s, cz, n - 1);
        lemma_cell_faces_congruent(m1, m2, c.0, c.1, c.2);
    }
}

proof fn lemma_cell_faces_congruent(
    m1: Map<(i64, i64), DirEntryView>,
    m2: Map<(i64, i64), DirEntryView>,
    x: int,
    y: int,
    z: int,
)
    requires
        forall|x2: i64, y2: i64, z2: i64| #[trigger] spec_get_block(m1, x2, y2, z2)
            == spec_get_block(m2, x2, y2, z2),
    ensures
        spec_cell_faces(m1, x, y, z) == spec_cell_faces(m2, x, y, z),
{
    reveal(spec_cell_faces);
    lemma_dir_face_congruent(m1, m2, x, y, z, FaceDir::Top);
    lemma_dir_face_congruent(m1, m2, x, y, z, FaceDir::Bottom);
    lemma_dir_face_congruent(m1, m2, x, y, z, FaceDir::Right);
    lemma_dir_face_congruent(m1, m2, x, y, z, FaceDir::Left);
    lemma_dir_face_congruent(m1, m2, x, y, z, FaceDir::Front);
    lemma_dir_face_congruent(m1, m2, x, y, z, FaceDir::Rear);
}

proof fn lemma_dir_face_congruent(
    m1: Map<(i64, i64), DirEntryView>,
    m2: Map<(i64, i64), DirEntryView>,
    x: int,
    y: int,
    z: int,
    d: FaceDir,
)
    requires
        forall|x2: i64, y2: i64, z2: i64| #[trigger] spec_get_block(m1, x2, y2, z2)
            == spec_get_block(m2, x2, y2, z2),
    ensures
        spec_dir_face(m1, x, y, z, d) == spec_dir_face(m2, x, y, z, d),
{
    lemma_face_counts_congruent(m1, m2, x, y, z, d);
}

proof fn lemma_face_counts_congruent(
    m1: Map<(i64, i64), DirEntryView>,
    m2: Map<(i64, i64), DirEntryView>,
    x: int,
    y: int,
    z: int,
    d: FaceDir,
)
    requires
        forall|x2: i64, y2: i64, z2: i64| #[trigger] spec_get_block(m1, x2, y2, z2)
            == spec_get_block(m2, x2, y2, z2),
    ensures
        spec_face_counts(m1, x, y, z, d) == spec_face_counts(m2, x, y, z, d),
{
    reveal(spec_face_counts);
    let vs = spec_face_vertices(d);
    lemma_corner_count_congruent(
        m1,
        m2,
        x,
        y,
        z,
        vs[0].pos.0 as int,
        vs[0].pos.1 as int,
        vs[0].pos.2 as int,
    );
    lemma_corner_count_congruent(
        m1,
        m2,
        x,
        y,
        z,
        vs[1].pos.0 as int,
        vs[1].pos.1 as int,
        vs[1].pos.2 as int,
    );
    lemma_corner_count_congruent(
        m1,
        m2,
        x,
        y,
        z,
        vs[2].pos.0 as int,
        vs[2].pos.1 as int,
        vs[2].pos.2 as int,
    );
    lemma_corner_count_congruent(
        m1,
        m2,
        x,
        y,
        z,
        vs[3].pos.0 as int,
        vs[3].pos.1 as int,
        vs[3].pos.2 as int,
    );
}

proof fn lemma_corner_count_congruent(
    m1: Map<(i64, i64), DirEntryView>,
    m2: Map<(i64, i64), DirEntryView>,
    x: int,
    y: int,
    z: int,
    vx: int,
    vy: int,
    vz: int,
)
    requires
        forall|x2: i64, y2: i64, z2: i64| #[trigger] spec_get_block(m1, x2, y2, z2)
            == spec_get_block(m2, x2, y2, z2),
    ensures
        spec_corner_count(m1, x, y, z, vx, vy, vz) == spec_corner_count(m2, x, y, z, vx, vy, vz),
{
    reveal(spec_corner_count);
}

/// What one entry of `re_render_chunks`'s output promises, against the
/// directory state `m0` as it stood when the pass began: its slab was
/// loaded and dirty, and its buffer is the mesh of that slab's block data.
pub open spec fn rendered_slab_ok(
    e: ((i64, i64, i64), RenderedBuffer),
    m0: Map<(i64, i64), DirEntryView>,
) -> bool {
    &&& m0.contains_key((e.0.0, e.0.2))
    &&& 0 <= e.0.1 < 16
    &&& m0[(e.0.0, e.0.2)].dirty[e.0.1 as int]
    &&& e.1.wf()
    &&& e.1.faces@ == spec_slab_faces(m0, e.0.0 as int, e.0.1 as int, e.0.2 as int)
}

/// The render key of subchunk `t` of the chunk at `k`.
pub open spec fn slab_key(k: (i64, i64), t: int) -> (i64, i64, i64) {
    (k.0, t as i64, k.1)
}

/// Rebuilds every dirty slab of one loaded chunk, clears its flags, and
/// appends the rebuilt buffers (keyed by rising slab index) to `out`.
#[verifier::rlimit(100)]
#[verifier::spinoff_prover]
fn re_render_one_chunk(
    chunks: &mut ChunkCollection,
    out: &mut Vec<((i64, i64, i64), RenderedBuffer)>,
    k: (i64, i64),
    Ghost(m0): Ghost<Map<(i64, i64), DirEntryView>>,
)
    requires
        old(chunks).wf(),
        old(chunks)@.dom() == m0.dom(),
        forall|k2: (i64, i64)|
            #[trigger] old(chunks)@.contains_key(k2) ==> old(chunks)@[k2].blocks == m0[k2].blocks,
        forall|k2: (i64, i64)| #[trigger] m0.contains_key(k2) ==> m0[k2].wf(),
        m0.contains_key(k),
        chunk_coord_in_range(k.0 as int, k.1 as int),
        old(chunks)@[k].dirty == m0[k].dirty,
    ensures
        final(chunks).wf(),
        final(chunks)@.dom() == m0.dom(),
        forall|k2: (i64, i64)|
            #[trigger] final(chunks)@.contains_key(k2) ==> final(chunks)@[k2].blocks
                == m0[k2].blocks,
        forall|t: int| 0 <= t < 16 ==> !(#[trigger] final(chunks)@[k].dirty[t]),
        forall|k2: (i64, i64)|
            final(chunks)@.contains_key(k2) && k2 != k ==> #[trigger] final(chunks)@[k2].dirty
                == old(chunks)@[k2].dirty,
        final(out)@.len() >= old(out)@.len(),
        forall|i: int| 0 <= i < old(out)@.len() ==> #[trigger] final(out)@[i] == old(out)@[i],
        forall|i: int|
            old(out)@.len() <= i < final(out)@.len() ==> rendered_slab_ok(
                #[trigger] final(out)@[i],
                m0,
            ) && (final(out)@[i]).0.0 == k.0 && (final(out)@[i]).0.2 == k.1,
        forall|i1: int, i2: int|
            old(out)@.len() <= i1 < i2 < final(out)@.len() ==> (#[trigger] final(out)@[i1]).0.1 < (
            #[trigger] final(out)@[i2]).0.1,
        forall|t: int|
            0 <= t < 16 && #[trigger] m0[k].dirty[t] ==> exists|i: int|
                old(out)@.len() <= i < final(out)@.len() && (#[trigger] final(out)@[i]).0
                    == slab_key(k, t),
{
    let (cx, cz) = k;
    let ghost len0 = out@.len() as int;
    let mut s: usize = 0;
    while s < 16
        invariant
            chunks.wf(),
            chunks@.dom() == m0.dom(),
            forall|k2: (i64, i64)|
                #[trigger] chunks@.contains_key(k2) ==> chunks@[k2].blocks == m0[k2].blocks,
            forall|k2: (i64, i64)| #[trigger] m0.contains_key(k2) ==> m0[k2].wf(),
            m0.contains_key((cx, cz)),
            (cx, cz) == k,
            chunk_coord_in_range(cx as int, cz as int),
            s <= 16,
            forall|t: int| 0 <= t < s ==> !(#[trigger] chunks@[k].dirty[t]),
            forall|t: int| s <= t < 16 ==> #[trigger] chunks@[k].dirty[t] == m0[k].dirty[t],
            forall|k2: (i64, i64)|
                chunks@.contains_key(k2) && k2 != k ==> #[trigger] chunks@[k2].dirty == old(
                    chunks,
                )@[k2].dirty,
            len0 == old(out)@.len(),
            out@.len() >= len0,
            forall|i: int| 0 <= i < len0 ==> #[trigger] out@[i] == old(out)@[i],
            forall|i: int|
                len0 <= i < out@.len() ==> rendered_slab_ok(#[trigger] out@[i], m0) && (out@[i]).0.0
                    == cx && (out@[i]).0.2 == cz && 0 <= (out@[i]).0.1 < s,
            forall|i1: int, i2: int|
                len0 <= i1 < i2 < out@.len() ==> (#[trigger] out@[i1]).0.1 < (
                #[trigger] out@[i2]).0.1,
            forall|t: int|
                0 <= t < s && #[trigger] m0[k].dirty[t] ==> exists|i: int|
                    len0 <= i < out@.len() && (#[trigger] out@[i]).0 == slab_key(k, t),
        decreases 16 - s,
    {
        let dirty = chunks.get_chunk((cx, cz)).is_subchunk_dirty(s);
        if dirty {
            proof {
                assert(m0[k].dirty[s as int]);
            }
            let buf = build_subchunk_mesh(chunks, (cx, cz), s);
            proof {
                lemma_slab_faces_blocks_only(chunks@, m0, cx as int, s as int, cz as int);
            }
            let ghost out0 = out@;
            out.push(((cx, s as i64, cz), buf));
            chunks.get_chunk_mut((cx, cz)).unmark_subchunk_dirty(s);
            proof {
                assert(out@ == out0.push(((cx, s as i64, cz), buf)));
                assert(out@[out0.len() as int].0 == slab_key(k, s as int));
                assert(rendered_slab_ok(out@[out0.len() as int], m0));
                assert forall|t: int|
                    0 <= t < s + 1 && #[trigger] m0[k].dirty[t] implies exists|i: int|
                    len0 <= i < out@.len() && (#[trigger] out@[i]).0 == slab_key(k, t) by {
                    if t < s {
                        let i0 = choose|i: int|
                            len0 <= i < out0.len() && (out0[i]).0 == slab_key(k, t);
                        assert(out@[i0] == out0[i0]);
                    } else {
                        assert(out@[out0.len() as int].0 == slab_key(k, t));
                    }
                }
            }
        } else {
            proof {
                assert(!m0[k].dirty[s as int]);
            }
        }
        s = s + 1;
    }
}

/// Rebuilds every dirty slab of every loaded chunk and clears its dirty
/// flag. Each dirty slab is rebuilt exactly once, keyed `(cx, s, cz)`;
/// clean slabs are left alone and produce no buffer.
#[verifier::rlimit(100)]
#[verifier::spinoff_prover]
pub fn re_render_chunks(chunks: &mut ChunkCollection) -> (r: Vec<(
    (i64, i64, i64),
    RenderedBuffer,
)>)
    requires
        old(chunks).wf(),
        forall|k: (i64, i64)|
            #[trigger] old(chunks)@.contains_key(k) ==> chunk_coord_in_range(
                k.0 as int,
                k.1 as int,
            ),
    ensures
        final(chunks).wf(),
        final(chunks)@.dom() == old(chunks)@.dom(),
        forall|k: (i64, i64)|
            #[trigger] final(chunks)@.contains_key(k)
                ==> final(chunks)@[k].blocks == old(chunks)@[k].blocks,
        forall|k: (i64, i64), t: int|
            final(chunks)@.contains_key(k) && 0 <= t < 16
                ==> !(#[trigger] final(chunks)@[k].dirty[t]),
        forall|i: int| 0 <= i < r@.len() ==> rendered_slab_ok(#[trigger] r@[i], old(chunks)@),
        forall|i: int, j: int|
            0 <= i < j < r@.len() ==> (#[trigger] r@[i]).0 != (#[trigger] r@[j]).0,
        forall|k: (i64, i64), t: int|
            old(chunks)@.contains_key(k) && 0 <= t < 16 && #[trigger] old(chunks)@[k].dirty[t]
                ==> exists|i: int|
                0 <= i < r@.len() && (#[trigger] r@[i]).0 == slab_key(k, t),
{
    let ghost m0 = old(chunks)@;
    proof {
        chunks.lemma_wf_entries();
    }
    let coords = chunks.loaded_chunk_coordinates();
    let mut out: Vec<((i64, i64, i64), RenderedBuffer)> = Vec::new();
    let mut ci: usize = 0;
    while ci < coords.len()
        invariant
            chunks.wf(),
            chunks@.dom() == m0.dom(),
            forall|k: (i64, i64)|
                #[trigger] chunks@.contains_key(k) ==> chunks@[k].blocks == m0[k].blocks,
            forall|k: (i64, i64)| #[trigger] m0.contains_key(k) ==> m0[k].wf(),
            forall|k: (i64, i64)|
                #[trigger] m0.contains_key(k) ==> chunk_coord_in_range(k.0 as int, k.1 as int),
            forall|k: (i64, i64)| coords@.contains(k) <==> m0.contains_key(k),
            forall|i: int, j: int| 0 <= i < j < coords@.len() ==> coords@[i] != coords@[j],
            ci <= coords@.len(),
            forall|j: int, t: int|
                0 <= j < ci && 0 <= t < 16 ==> !(#[trigger] chunks@[coords@[j]].dirty[t]),
            forall|j: int|
                ci <= j < coords@.len() ==> #[trigger] chunks@[coords@[j]].dirty
                    == m0[coords@[j]].dirty,
            forall|i: int| 0 <= i < out@.len() ==> rendered_slab_ok(#[trigger] out@[i], m0),
            forall|i: int|
                0 <= i < out@.len() ==> exists|j: int|
                    0 <= j < ci && ((#[trigger] out@[i]).0.0, (out@[i]).0.2) == #[trigger] coords@[j],
            forall|i: int, j: int|
                0 <= i < j < out@.len() ==> (#[trigger] out@[i]).0 != (#[trigger] out@[j]).0,
            forall|j: int, t: int|
                0 <= j < ci && 0 <= t < 16 && #[trigger] m0[coords@[j]].dirty[t] ==> exists|i: int|
                    0 <= i < out@.len() && (#[trigger] out@[i]).0 == slab_key(coords@[j], t),
        decreases coords@.len() - ci,
    {
        let k = coords[ci];
        proof {
            assert(coords@.contains(coords@[ci as int]));
        }
        let ghost out0 = out@;
        let ghost chunks0 = chunks@;
        re_render_one_chunk(chunks, &mut out, k, Ghost(m0));
        proof {
            let cil = ci as int;
            assert forall|j: int, t: int| 0 <= j < cil + 1 && 0 <= t < 16 implies !(
            #[trigger] chunks@[coords@[j]].dirty[t]) by {
                if j < cil {
                    assert(coords@[j] != coords@[cil]);
                    assert(chunks@[coords@[j]].dirty == chunks0[coords@[j]].dirty);
                }
            }
            assert forall|j: int| cil + 1 <= j < coords@.len() implies #[trigger] chunks@[coords@[j]].dirty
                == m0[coords@[j]].dirty by {
                assert(coords@[j] != coords@[cil]);
                assert(chunks@[coords@[j]].dirty == chunks0[coords@[j]].dirty);
            }
            assert forall|i: int| 0 <= i < out@.len() implies exists|j: int|
                0 <= j < cil + 1 && ((#[trigger] out@[i]).0.0, (out@[i]).0.2) == #[trigger] coords@[j] by {
                if i < out0.len() {
                    assert(out@[i] == out0[i]);
                    let j0 = choose|j: int|
                        0 <= j < cil && ((out0[i]).0.0, (out0[i]).0.2) == coords@[j];
                    assert(((out@[i]).0.0, (out@[i]).0.2) == coords@[j0]);
                } else {
                    assert(((out@[i]).0.0, (out@[i]).0.2) == coords@[cil]);
                }
            }
            assert forall|i1: int, i2: int| 0 <= i1 < i2 < out@.len() implies (
            #[trigger] out@[i1]).0 != (#[trigger] out@[i2]).0 by {
                if i2 < out0.len() {
                    assert(out@[i1] == out0[i1] && out@[i2] == out0[i2]);
                } else if i1 >= out0.len() {
                    assert(out@[i1].0.1 < out@[i2].0.1);
                } else {
                    assert(out@[i1] == out0[i1]);
                    let j0 = choose|j: int|
                        0 <= j < cil && ((out0[i1]).0.0, (out0[i1]).0.2) == coords@[j];
                    assert(coords@[j0] != coords@[cil]);
                    assert(((out@[i2]).0.0, (out@[i2]).0.2) == coords@[cil]);
                }
            }
            assert forall|j: int, t: int|
                0 <= j < cil + 1 && 0 <= t < 16 && #[trigger] m0[coords@[j]].dirty[t] implies exists|
                i: int,
            |
                0 <= i < out@.len() && (#[trigger] out@[i]).0 == slab_key(coords@[j], t) by {
                if j < cil {
                    let i0 = choose|i: int|
                        0 <= i < out0.len() && (out0[i]).0 == slab_key(coords@[j], t);
                    assert(out@[i0] == out0[i0]);
                } else {
                    assert(chunks0[coords@[cil]].dirty == m0[coords@[cil]].dirty);
                    let i0 = choose|i: int|
                        out0.len() <= i < out@.len() && (out@[i]).0 == slab_key(
                            coords@[cil],
                            t,
                        );
                    assert(out@[i0].0 == slab_key(coords@[j], t));
                }
            }
        }
        ci = ci + 1;
    }
    proof {
        assert forall|k: (i64, i64), t: int|
            final(chunks)@.contains_key(k) && 0 <= t < 16
                implies !(#[trigger] final(chunks)@[k].dirty[t]) by {
            assert(coords@.contains(k));
            let j = choose|j: int| 0 <= j < coords@.len() && coords@[j] == k;
            assert(!chunks@[coords@[j]].dirty[t]);
        }
        assert forall|k: (i64, i64), t: int|
            old(chunks)@.contains_key(k) && 0 <= t < 16 && #[trigger] old(chunks)@[k].dirty[t]
                implies exists|i: int|
            0 <= i < out@.len() && (#[trigger] out@[i]).0 == slab_key(k, t) by {
            assert(coords@.contains(k));
            let j = choose|j: int| 0 <= j < coords@.len() && coords@[j] == k;
            assert(m0[coords@[j]].dirty[t]);
            assert(slab_key(coords@[j], t) == slab_key(k, t));
        }
    }
    out
}

} // verus!
