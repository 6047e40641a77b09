//! The chunk directory: loaded chunks keyed by chunk coordinates, with
//! per-subchunk dirty flags and world-coordinate block access.

use vstd::prelude::*;

use crate::chunk::{in_chunk_bounds, BlockId, Chunk};

verus! {

/// Outcome of a world-coordinate block query: the chunk holding the cell is
/// loaded (and this is its block), or it is not present at all.
#[derive(Clone, Copy, Debug, PartialEq, Eq, Structural)]
pub enum MaybeLoadedBlock {
    Loaded(BlockId),
    Unloaded,
}

/// Ghost image of one directory entry: block data and dirty flags.
pub struct DirEntryView {
    pub blocks: Seq<Seq<BlockId>>,
    pub dirty: Seq<bool>,
}

impl DirEntryView {
    pub open spec fn wf(self) -> bool {
        &&& self.blocks.len() == 16
        &&& forall|i: int| 0 <= i < 16 ==> (#[trigger] self.blocks[i]).len() == 4096
        &&& self.dirty.len() == 16
    }

    /// The block at local coordinates `(x, y, z)` of this entry.
    pub open spec fn block_at(self, x: int, y: int, z: int) -> BlockId
        recommends
            self.wf(),
            in_chunk_bounds(x, y, z),
    {
        self.blocks[y / 16][(y % 16) * 256 + z * 16 + x]
    }
}

/// A loaded chunk together with its per-subchunk dirty flags.
pub struct ClientChunk {
    pub chunk: Chunk,
    pub dirty: Vec<bool>,
}

impl View for ClientChunk {
    type V = DirEntryView;

    open spec fn view(&self) -> DirEntryView {
        DirEntryView { blocks: self.chunk@, dirty: self.dirty@ }
    }
}

impl ClientChunk {
    pub open spec fn wf(self) -> bool {
        &&& self.chunk.wf()
        &&& self.dirty.len() == 16
    }

    /// Writes `block` at local coordinates; dirty flags are untouched.
    pub fn set(&mut self, coord: (usize, usize, usize), block: BlockId)
        requires
            old(self).wf(),
            in_chunk_bounds(coord.0 as int, coord.1 as int, coord.2 as int),
        ensures
            final(self).wf(),
            final(self)@.dirty == old(self)@.dirty,
            final(self).chunk.spec_block_at(coord.0 as int, coord.1 as int, coord.2 as int)
                == block,
            final(self)@.blocks == old(self)@.blocks.update(
                coord.1 as int / 16,
                old(self)@.blocks[coord.1 as int / 16].update(
                    (coord.1 as int % 16) * 256 + coord.2 as int * 16 + coord.0 as int,
                    block,
                ),
            ),
    {
        self.chunk.set(coord, block)
    }

    /// Reads the block at local coordinates.
    pub fn get(&self, coord: (usize, usize, usize)) -> (r: BlockId)
        requires
            self.wf(),
            in_chunk_bounds(coord.0 as int, coord.1 as int, coord.2 as int),
        ensures
            r == self@.block_at(coord.0 as int, coord.1 as int, coord.2 as int),
    {
        self.chunk.get(coord)
    }

    pub fn is_subchunk_dirty(&self, s: usize) -> (r: bool)
        requires
            self.wf(),
            s < 16,
        ensures
            r == self@.dirty[s as int],
    {
        self.dirty[s]
    }

    pub fn unmark_subchunk_dirty(&mut self, s: usize)
        requires
            old(self).wf(),
            s < 16,
        ensures
            final(self).wf(),
            final(self)@.blocks == old(self)@.blocks,
            final(self)@.dirty == old(self)@.dirty.update(s as int, false),
    {
        self.dirty[s] = false;
    }
}

impl Default for ClientChunk {
    fn default() -> (r: Self)
        ensures
            r.wf(),
            forall|x: int, y: int, z: int|
                in_chunk_bounds(x, y, z) ==> r.chunk.spec_block_at(x, y, z) == BlockId::Empty,
            forall|s: int| 0 <= s < 16 ==> !(#[trigger] r@.dirty[s]),
    {
        let chunk = Chunk::new();
        let mut dirty: Vec<bool> = Vec::new();
        let mut i: usize = 0;
        while i < 16
            invariant
                i <= 16,
                dirty.len() == i,
                forall|j: int| 0 <= j < i ==> !(#[trigger] dirty@[j]),
            decreases 16 - i,
        {
            dirty.push(false);
            i = i + 1;
        }
        ClientChunk { chunk, dirty }
    }
}

/// The chunk coordinates of the chunk owning world column `(x, z)`.
pub open spec fn chunk_key(x: i64, z: i64) -> (i64, i64) {
    (((x as int) / 16) as i64, ((z as int) / 16) as i64)
}

/// All 16 dirty flags raised, as they are right after a chunk loads.
pub open spec fn all_dirty() -> Seq<bool> {
    Seq::new(16, |i: int| true)
}

/// What a world-coordinate block query answers on directory state `m`:
/// vertically out-of-range cells are always `Loaded(Empty)`; otherwise the
/// owning chunk must be present, else the cell is `Unloaded`.
pub open spec fn spec_get_block(
    m: Map<(i64, i64), DirEntryView>,
    x: i64,
    y: i64,
    z: i64,
) -> MaybeLoadedBlock {
    if y < 0 || y >= 256 {
        MaybeLoadedBlock::Loaded(BlockId::Empty)
    } else if m.contains_key(chunk_key(x, z)) {
        MaybeLoadedBlock::Loaded(
            m[chunk_key(x, z)].block_at((x as int) % 16, y as int, (z as int) % 16),
        )
    } else {
        MaybeLoadedBlock::Unloaded
    }
}

/// Directory state after a world-coordinate block write: a no-op when `y` is
/// out of range or the owning chunk is not loaded; otherwise the cell is
/// replaced and exactly the owning subchunk's dirty flag is raised.
pub open spec fn spec_set_block(
    m: Map<(i64, i64), DirEntryView>,
    x: i64,
    y: i64,
    z: i64,
    block: BlockId,
) -> Map<(i64, i64), DirEntryView> {
    if y < 0 || y >= 256 {
        m
    } else if m.contains_key(chunk_key(x, z)) {
        let e = m[chunk_key(x, z)];
        let s = (y as int) / 16;
        let idx = ((y as int) % 16) * 256 + ((z as int) % 16) * 16 + (x as int) % 16;
        m.insert(
            chunk_key(x, z),
            DirEntryView {
                blocks: e.blocks.update(s, e.blocks[s].update(idx, block)),
                dirty: e.dirty.update(s, true),
            },
        )
    } else {
        m
    }
}

/// No chunk coordinate occurs twice.
pub open spec fn unique_keys(s: Seq<((i64, i64), ClientChunk)>) -> bool {
    forall|i: int, j: int| 0 <= i < j < s.len() ==> (#[trigger] s[i]).0 != (#[trigger] s[j]).0
}

/// The entry stored under key `k`, if any.
pub open spec fn find_entry(s: Seq<((i64, i64), ClientChunk)>, k: (i64, i64)) -> Option<ClientChunk>
    decreases s.len(),
{
    if s.len() == 0 {
        None
    } else if s.last().0 == k {
        Some(s.last().1)
    } else {
        find_entry(s.drop_last(), k)
    }
}

proof fn lemma_find_entry_char(s: Seq<((i64, i64), ClientChunk)>, k: (i64, i64))
    ensures
        (find_entry(s, k) is None) <==> (forall|i: int| 0 <= i < s.len() ==> (#[trigger] s[i]).0
            != k),
        (find_entry(s, k) is Some) ==> exists|i: int|
            0 <= i < s.len() && (#[trigger] s[i]).0 == k && s[i].1 == find_entry(s, k)->0,
    decreases s.len(),
{
    if s.len() > 0 {
        lemma_find_entry_char(s.drop_last(), k);
        if s.last().0 == k {
            assert(s[s.len() - 1].0 == k);
        } else {
            assert(forall|i: int|
                0 <= i < s.len() - 1 ==> (#[trigger] s[i]).0 == s.drop_last()[i].0);
        }
    }
}

proof fn lemma_find_entry_at(s: Seq<((i64, i64), ClientChunk)>, k: (i64, i64), i: int)
    requires
        unique_keys(s),
        0 <= i < s.len(),
        s[i].0 == k,
    ensures
        find_entry(s, k) == Some(s[i].1),
    decreases s.len(),
{
    if i == s.len() - 1 {
        assert(s.last() == s[i]);
    } else {
        assert(s.last().0 != k);
        assert(s.drop_last()[i] == s[i]);
        lemma_find_entry_at(s.drop_last(), k, i);
    }
}

proof fn lemma_find_entry_update(
    s: Seq<((i64, i64), ClientChunk)>,
    i: int,
    v: ((i64, i64), ClientChunk),
    k: (i64, i64),
)
    requires
        unique_keys(s),
        0 <= i < s.len(),
        s[i].0 == v.0,
    ensures
        unique_keys(s.update(i, v)),
        find_entry(s.update(i, v), k) == if k == v.0 {
            Some(v.1)
        } else {
            find_entry(s, k)
        },
    decreases s.len(),
{
    let t = s.update(i, v);
    assert(forall|j: int| 0 <= j < s.len() && j != i ==> t[j] == s[j]);
    assert(unique_keys(t));
    if i == s.len() - 1 {
        assert(t.drop_last() =~= s.drop_last());
        if k != v.0 && s.last().0 == k {
            lemma_find_entry_char(s.drop_last(), k);
            assert(forall|j: int| 0 <= j < s.len() - 1 ==> (#[trigger] s[j]).0 != k);
        }
    } else {
        assert(t.last() == s.last());
        assert(t.drop_last() =~= s.drop_last().update(i, v));
        lemma_find_entry_update(s.drop_last(), i, v, k);
        if s.last().0 == k {
            assert(find_entry(t, k) == Some(t.last().1));
        }
    }
}

proof fn lemma_find_entry_push(
    s: Seq<((i64, i64), ClientChunk)>,
    v: ((i64, i64), ClientChunk),
    k: (i64, i64),
)
    ensures
        find_entry(s.push(v), k) == if k == v.0 {
            Some(v.1)
        } else {
            find_entry(s, k)
        },
{
    assert(s.push(v).drop_last() =~= s);
    assert(s.push(v).last() == v);
}

proof fn lemma_find_entry_remove(s: Seq<((i64, i64), ClientChunk)>, i: int, k: (i64, i64))
    requires
        unique_keys(s),
        0 <= i < s.len(),
    ensures
        unique_keys(s.remove(i)),
        find_entry(s.remove(i), k) == if k == s[i].0 {
            None::<ClientChunk>
        } else {
            find_entry(s, k)
        },
    decreases s.len(),
{
    let t = s.remove(i);
    s.remove_ensures(i);
    assert(unique_keys(t)) by {
        assert forall|a: int, b: int| 0 <= a < b < t.len() implies (#[trigger] t[a]).0 != (
        #[trigger] t[b]).0 by {
            let a2 = if a < i {
                a
            } else {
                a + 1
            };
            let b2 = if b < i {
                b
            } else {
                b + 1
            };
            assert(t[a] == s[a2] && t[b] == s[b2]);
        }
    }
    if k == s[i].0 {
        lemma_find_entry_char(t, k);
        assert forall|j: int| 0 <= j < t.len() implies (#[trigger] t[j]).0 != k by {
            let j2 = if j < i {
                j
            } else {
                j + 1
            };
            assert(t[j] == s[j2]);
            assert(j2 != i);
        }
    } else {
        if i == s.len() - 1 {
            assert(t =~= s.drop_last());
            assert(s.last().0 != k);
        } else {
            assert(t.last() == s.last());
            assert(t.drop_last() =~= s.drop_last().remove(i));
            lemma_find_entry_remove(s.drop_last(), i, k);
            assert(s.drop_last()[i] == s[i]);
        }
    }
}

/// The directory state that a sequence of entries denotes.
pub open spec fn map_of(s: Seq<((i64, i64), ClientChunk)>) -> Map<(i64, i64), DirEntryView> {
    Map::new(
        |k: (i64, i64)| find_entry(s, k) is Some,
        |k: (i64, i64)| (find_entry(s, k)->0)@,
    )
}

/// A collection of loaded chunks, indexed by chunk coordinates `(cx, cz)`.
pub struct ChunkCollection {
    chunks: Vec<((i64, i64), ClientChunk)>,
}

impl View for ChunkCollection {
    type V = Map<(i64, i64), DirEntryView>;

    closed spec fn view(&self) -> Map<(i64, i64), DirEntryView> {
        map_of(self.chunks@)
    }
}

impl ChunkCollection {
    pub closed spec fn wf(self) -> bool {
        &&& unique_keys(self.chunks@)
        &&& forall|i: int| 0 <= i < self.chunks.len() ==> (#[trigger] self.chunks@[i]).1.wf()
    }

    /// The loaded chunk coordinates, in storage order.
    pub closed spec fn spec_keys(self) -> Seq<(i64, i64)> {
        self.chunks@.map(|i: int, e: ((i64, i64), ClientChunk)| e.0)
    }

    /// Every entry of a well-formed directory is itself well-formed.
    pub proof fn lemma_wf_entries(self)
        requires
            self.wf(),
        ensures
            forall|k: (i64, i64)| self@.contains_key(k) ==> (#[trigger] self@[k]).wf(),
    {
        assert forall|k: (i64, i64)| self@.contains_key(k) implies (#[trigger] self@[k]).wf() by {
            lemma_find_entry_char(self.chunks@, k);
        }
    }

    pub fn new() -> (r: ChunkCollection)
        ensures
            r.wf(),
            r@ == Map::<(i64, i64), DirEntryView>::empty(),
            r.spec_keys() == Seq::<(i64, i64)>::empty(),
    {
        let r = ChunkCollection { chunks: Vec::new() };
        proof {
            assert(r@ =~= Map::<(i64, i64), DirEntryView>::empty());
            assert(r.spec_keys() =~= Seq::<(i64, i64)>::empty());
        }
        r
    }

    /// The position of `k` among the stored entries, if present.
    fn find_index(&self, k: (i64, i64)) -> (r: Option<usize>)
        requires
            self.wf(),
        ensures
            match r {
                Some(i) => i < self.chunks@.len() && self.chunks@[i as int].0 == k
                    && self@.contains_key(k) && self@[k] == self.chunks@[i as int].1@,
                None => !self@.contains_key(k),
            },
    {
        let mut i: usize = 0;
        while i < self.chunks.len()
            invariant
                self.wf(),
                i <= self.chunks.len(),
                forall|j: int| 0 <= j < i ==> (#[trigger] self.chunks@[j]).0 != k,
            decreases self.chunks.len() - i,
        {
            if self.chunks[i].0.0 == k.0 && self.chunks[i].0.1 == k.1 {
                proof {
                    lemma_find_entry_at(self.chunks@, k, i as int);
                }
                return Some(i);
            }
            i = i + 1;
        }
        proof {
            lemma_find_entry_char(self.chunks@, k);
        }
        None
    }

    /// Inserts (or replaces) the chunk at `coord`, with every subchunk dirty.
    pub fn load_chunk(&mut self, coord: (i64, i64), chunk: Chunk)
        requires
            old(self).wf(),
            chunk.wf(),
        ensures
            final(self).wf(),
            final(self)@ == old(self)@.insert(
                coord,
                DirEntryView { blocks: chunk@, dirty: all_dirty() },
            ),
    {
        let mut dirty: Vec<bool> = Vec::new();
        let mut i: usize = 0;
        while i < 16
            invariant
                i <= 16,
                dirty.len() == i,
                forall|j: int| 0 <= j < i ==> #[trigger] dirty@[j],
            decreases 16 - i,
        {
            dirty.push(true);
            i = i + 1;
        }
        proof {
            assert(dirty@ =~= all_dirty());
        }
        let entry = ClientChunk { chunk, dirty };
        match self.find_index(coord) {
            Some(i) => {
                self.chunks[i] = (coord, entry);
                proof {
                    assert forall|k: (i64, i64)| true implies find_entry(self.chunks@, k)
                        == find_entry(old(self).chunks@.update(i as int, (coord, entry)), k) by {}
                    assert forall|k: (i64, i64)| true implies #[trigger] find_entry(
                        self.chunks@,
                        k,
                    ) == if k == coord {
                        Some(entry)
                    } else {
                        find_entry(old(self).chunks@, k)
                    } by {
                        lemma_find_entry_update(old(self).chunks@, i as int, (coord, entry), k);
                    }
                    lemma_find_entry_update(
                        old(self).chunks@,
                        i as int,
                        (coord, entry),
                        coord,
                    );
                    assert(self@ =~= old(self)@.insert(coord, entry@));
                }
            },
            None => {
                self.chunks.push((coord, entry));
                proof {
                    assert forall|k: (i64, i64)| true implies #[trigger] find_entry(
                        self.chunks@,
                        k,
                    ) == if k == coord {
                        Some(entry)
                    } else {
                        find_entry(old(self).chunks@, k)
                    } by {
                        lemma_find_entry_push(old(self).chunks@, (coord, entry), k);
                    }
                    lemma_find_entry_char(old(self).chunks@, coord);
                    assert(unique_keys(self.chunks@)) by {
                        assert(forall|j: int|
                            0 <= j < old(self).chunks@.len() ==> #[trigger] self.chunks@[j] == old(
                                self,
                            ).chunks@[j]);
                    }
                    assert(self@ =~= old(self)@.insert(coord, entry@));
                }
            },
        }
    }

    /// Removes the chunk at `coord`; a no-op when it is not loaded.
    pub fn unload_chunk(&mut self, coord: (i64, i64))
        requires
            old(self).wf(),
        ensures
            final(self).wf(),
            final(self)@ == old(self)@.remove(coord),
    {
        match self.find_index(coord) {
            Some(i) => {
                self.chunks.remove(i);
                proof {
                    assert forall|k: (i64, i64)| true implies #[trigger] find_entry(
                        self.chunks@,
                        k,
                    ) == if k == coord {
                        None::<ClientChunk>
                    } else {
                        find_entry(old(self).chunks@, k)
                    } by {
                        lemma_find_entry_remove(old(self).chunks@, i as int, k);
                    }
                    lemma_find_entry_remove(old(self).chunks@, i as int, coord);
                    assert(self@ =~= old(self)@.remove(coord));
                }
            },
            None => {
                proof {
                    assert(self@ =~= old(self)@.remove(coord));
                }
            },
        }
    }

    /// The loaded chunk at `coord`; callers must know it is loaded.
    pub fn get_chunk(&self, coord: (i64, i64)) -> (r: &ClientChunk)
        requires
            self.wf(),
            self@.contains_key(coord),
        ensures
            r.wf(),
            r@ == self@[coord],
    {
        match self.find_index(coord) {
            Some(i) => &self.chunks[i].1,
            None => {
                proof {
                    assert(false);
                }
                &self.chunks[0].1
            },
        }
    }

    /// Mutable access to the loaded chunk at `coord`.
    pub fn get_chunk_mut(&mut self, coord: (i64, i64)) -> (r: &mut ClientChunk)
        requires
            old(self).wf(),
            old(self)@.contains_key(coord),
        ensures
            r.wf(),
            r@ == old(self)@[coord],
            final(self)@ == old(self)@.insert(coord, final(r)@),
            final(r).wf() ==> final(self).wf(),
    {
        let idx = match self.find_index(coord) {
            Some(i) => i,
            None => {
                proof {
                    assert(false);
                }
                0
            },
        };
        proof {
            let s0 = self.chunks@;
            assert forall|v: ClientChunk|
                {
                    &&& #[trigger] map_of(s0.update(idx as int, (coord, v))) == self@.insert(
                        coord,
                        v@,
                    )
                    &&& unique_keys(s0.update(idx as int, (coord, v)))
                    &&& (v.wf() ==> forall|j: int|
                        0 <= j < s0.len() ==> (#[trigger] s0.update(
                            idx as int,
                            (coord, v),
                        )[j]).1.wf())
                } by {
                assert forall|k: (i64, i64)| true implies #[trigger] find_entry(
                    s0.update(idx as int, (coord, v)),
                    k,
                ) == if k == coord {
                    Some(v)
                } else {
                    find_entry(s0, k)
                } by {
                    lemma_find_entry_update(s0, idx as int, (coord, v), k);
                }
                lemma_find_entry_update(s0, idx as int, (coord, v), coord);
                assert(map_of(s0.update(idx as int, (coord, v))) =~= self@.insert(coord, v@));
            }
        }
        &mut self.chunks[idx].1
    }

    /// Reads the block at world coordinates `(x, y, z)`.
    pub fn get_block(&self, pos: (i64, i64, i64)) -> (r: MaybeLoadedBlock)
        requires
            self.wf(),
        ensures
            r == spec_get_block(self@, pos.0, pos.1, pos.2),
    {
        let (x, y, z) = pos;
        if y < 0 || y >= 256 {
            return MaybeLoadedBlock::Loaded(BlockId::Empty);
        }
        let cx = div16_floor(x);
        let cz = div16_floor(z);
        match self.find_index((cx, cz)) {
            Some(i) => {
                let lx = rem16(x);
                let lz = rem16(z);
                proof {
                    self.lemma_wf_entries();
                }
                MaybeLoadedBlock::Loaded(self.chunks[i].1.get((lx, y as usize, lz)))
            },
            None => MaybeLoadedBlock::Unloaded,
        }
    }

    /// Writes the block at world coordinates `(x, y, z)`, raising the owning
    /// subchunk's dirty flag; silently dropped when the chunk is not loaded
    /// or `y` is out of range.
    pub fn set_block(&mut self, pos: (i64, i64, i64), block: BlockId)
        requires
            old(self).wf(),
        ensures
            final(self).wf(),
            final(self)@ == spec_set_block(old(self)@, pos.0, pos.1, pos.2, block),
    {
        let (x, y, z) = pos;
        if y < 0 || y >= 256 {
            return ;
        }
        let cx = div16_floor(x);
        let cz = div16_floor(z);
        let s = (y / 16) as usize;
        match self.find_index((cx, cz)) {
            Some(i) => {
                let lx = rem16(x);
                let lz = rem16(z);
                proof {
                    self.lemma_wf_entries();
                }
                let c = &mut self.chunks[i].1;
                c.set((lx, y as usize, lz), block);
                c.dirty[s] = true;
                proof {
                    let coord = (cx, cz);
                    assert forall|k: (i64, i64)| true implies #[trigger] find_entry(
                        self.chunks@,
                        k,
                    ) == if k == coord {
                        Some(self.chunks@[i as int].1)
                    } else {
                        find_entry(old(self).chunks@, k)
                    } by {
                        lemma_find_entry_update(
                            old(self).chunks@,
                            i as int,
                            (coord, self.chunks@[i as int].1),
                            k,
                        );
                        assert(self.chunks@ =~= old(self).chunks@.update(
                            i as int,
                            (coord, self.chunks@[i as int].1),
                        ));
                    }
                    lemma_find_entry_update(
                        old(self).chunks@,
                        i as int,
                        (coord, self.chunks@[i as int].1),
                        coord,
                    );
                    assert(self@ =~= spec_set_block(old(self)@, x, y, z, block));
                }
            },
            None => {
                proof {
                    assert(self@ =~= spec_set_block(old(self)@, x, y, z, block));
                }
            },
        }
    }

    /// A snapshot of the loaded chunk coordinates, in storage order.
    pub fn loaded_chunk_coordinates(&self) -> (r: Vec<(i64, i64)>)
        requires
            self.wf(),
        ensures
            r@ == self.spec_keys(),
            forall|k: (i64, i64)| r@.contains(k) <==> self@.contains_key(k),
            forall|i: int, j: int| 0 <= i < j < r@.len() ==> r@[i] != r@[j],
    {
        let mut r: Vec<(i64, i64)> = Vec::new();
        let mut i: usize = 0;
        while i < self.chunks.len()
            invariant
                self.wf(),
                i <= self.chunks.len(),
                r.len() == i,
                forall|j: int| 0 <= j < i ==> r@[j] == (#[trigger] self.chunks@[j]).0,
            decreases self.chunks.len() - i,
        {
            r.push(self.chunks[i].0);
            i = i + 1;
        }
        proof {
            assert(r@ =~= self.spec_keys());
            assert forall|k: (i64, i64)| r@.contains(k) <==> self@.contains_key(k) by {
                lemma_find_entry_char(self.chunks@, k);
                if self@.contains_key(k) {
                    let j = choose|j: int|
                        0 <= j < self.chunks@.len() && (#[trigger] self.chunks@[j]).0 == k
                            && self.chunks@[j].1 == find_entry(self.chunks@, k)->0;
                    assert(r@[j] == k);
                }
                if r@.contains(k) {
                    let j = choose|j: int| 0 <= j < r@.len() && r@[j] == k;
                    assert(self.chunks@[j].0 == k);
                }
            }
        }
        r
    }
}

/// Floor division by 16 on world coordinates, matching `int` division.
fn div16_floor(v: i64) -> (r: i64)
    ensures
        r as int == (v as int) / 16,
{
    if v >= 0 {
        let q = (v as u64) / 16;
        q as i64
    } else {
        let n = ((-(v + 1)) as u64) / 16;
        proof {
            let vi = v as int;
            let m = -vi - 1;
            assert(m >= 0);
            assert(vi / 16 == -(m / 16) - 1) by {
                assert(m == 16 * (m / 16) + m % 16);
                assert(0 <= m % 16 < 16);
                assert(vi == 16 * (-(m / 16) - 1) + (15 - m % 16));
                assert(0 <= 15 - m % 16 < 16);
            }
        }
        -(n as i64) - 1
    }
}

/// Euclidean remainder by 16, matching `int` remainder.
fn rem16(v: i64) -> (r: usize)
    ensures
        r as int == (v as int) % 16,
        r < 16,
{
    let q = div16_floor(v);
    proof {
        let vi = v as int;
        assert(vi == 16 * (vi / 16) + vi % 16);
        assert(0 <= vi % 16 < 16);
    }
    (v - 16 * q) as usize
}

/// Vertically out-of-range coordinates always read as a loaded `Empty`
/// block, whatever chunks are loaded.
pub proof fn lemma_get_block_vertical_bounds(
    m: Map<(i64, i64), DirEntryView>,
    x: i64,
    y: i64,
    z: i64,
)
    requires
        y < 0 || y >= 256,
    ensures
        spec_get_block(m, x, y, z) == MaybeLoadedBlock::Loaded(BlockId::Empty),
{
}

/// Writing a block of a loaded chunk and reading it back yields the written
/// block; exactly the owning subchunk's dirty flag is raised, every other
/// flag, cell and chunk is untouched.
pub proof fn lemma_set_then_get(
    m: Map<(i64, i64), DirEntryView>,
    x: i64,
    y: i64,
    z: i64,
    block: BlockId,
)
    requires
        0 <= y < 256,
        m.contains_key(chunk_key(x, z)),
        m[chunk_key(x, z)].wf(),
    ensures
        spec_get_block(spec_set_block(m, x, y, z, block), x, y, z) == MaybeLoadedBlock::Loaded(
            block,
        ),
        spec_set_block(m, x, y, z, block).dom() == m.dom(),
        spec_set_block(m, x, y, z, block)[chunk_key(x, z)].dirty == m[chunk_key(x, z)].dirty.update(
            (y as int) / 16,
            true,
        ),
        forall|k: (i64, i64)|
            m.contains_key(k) && k != chunk_key(x, z) ==> #[trigger] spec_set_block(
                m,
                x,
                y,
                z,
                block,
            )[k] == m[k],
        forall|x2: i64, y2: i64, z2: i64|
            (x2, y2, z2) != (x, y, z) ==> #[trigger] spec_get_block(
                spec_set_block(m, x, y, z, block),
                x2,
                y2,
                z2,
            ) == spec_get_block(m, x2, y2, z2),
{
    let ck = chunk_key(x, z);
    let m2 = spec_set_block(m, x, y, z, block);
    assert(m2.dom() =~= m.dom());
    let xi = x as int;
    let yi = y as int;
    let zi = z as int;
    assert(xi == 16 * (xi / 16) + xi % 16 && 0 <= xi % 16 < 16);
    assert(zi == 16 * (zi / 16) + zi % 16 && 0 <= zi % 16 < 16);
    assert forall|x2: i64, y2: i64, z2: i64| (x2, y2, z2) != (x, y, z) implies #[trigger] spec_get_block(
        m2,
        x2,
        y2,
        z2,
    ) == spec_get_block(m, x2, y2, z2) by {
        if 0 <= y2 < 256 && chunk_key(x2, z2) == ck && m.contains_key(ck) {
            let x2i = x2 as int;
            let y2i = y2 as int;
            let z2i = z2 as int;
            assert(x2i == 16 * (x2i / 16) + x2i % 16 && 0 <= x2i % 16 < 16);
            assert(z2i == 16 * (z2i / 16) + z2i % 16 && 0 <= z2i % 16 < 16);
            if y2i / 16 == yi / 16 {
                if (y2i % 16) * 256 + (z2i % 16) * 16 + x2i % 16 == (yi % 16) * 256 + (zi % 16) * 16
                    + xi % 16 {
                    assert(x2i % 16 == xi % 16 && z2i % 16 == zi % 16 && y2i % 16 == yi % 16);
                    assert(y2i == 16 * (y2i / 16) + y2i % 16);
                    assert(yi == 16 * (yi / 16) + yi % 16);
                    assert(x2i == xi && y2i == yi && z2i == zi);
                }
            }
        }
    }
}

/// When the owning chunk is not loaded, a block write is a no-op and a
/// subsequent in-range read still answers `Unloaded`.
pub proof fn lemma_set_block_unloaded_noop(
    m: Map<(i64, i64), DirEntryView>,
    x: i64,
    y: i64,
    z: i64,
    block: BlockId,
)
    requires
        !m.contains_key(chunk_key(x, z)),
    ensures
        spec_set_block(m, x, y, z, block) == m,
        0 <= y < 256 ==> spec_get_block(m, x, y, z) == MaybeLoadedBlock::Unloaded,
{
}

} // verus!
