use vstd::prelude::*;
use crate::chunk::{Block, Chunk, cell_block, local_index, in_chunk, solid_count, filled_by, lemma_visit_fills, lemma_solid_count_update};
use crate::noise::{Noise2DContext, noise_value};
use crate::common::{Vec3, TripleFloor, floor_cell, floor_div, floor_mod, div, rem, CHUNK_SIZE, UNIT};

verus! {

/// Key of the chunk holding world cell `cc`: each coordinate floor-divided by 16.
pub open spec fn chunk_key(cc: (i64, i64, i64)) -> (i64, i64, i64) {
    (
        floor_div(cc.0 as int, 16) as i64,
        floor_div(cc.1 as int, 16) as i64,
        floor_div(cc.2 as int, 16) as i64,
    )
}

/// Local cell of world cell `cc` inside its chunk: each coordinate modulo 16,
/// always in `[0, 16)`.
pub open spec fn local_cell(cc: (i64, i64, i64)) -> (int, int, int) {
    (floor_mod(cc.0 as int, 16), floor_mod(cc.1 as int, 16), floor_mod(cc.2 as int, 16))
}

/// What a lookup of world cell `cc` reports on the loaded chunks `m`.
pub open spec fn world_block(m: Map<(i64, i64, i64), Chunk>, cc: (i64, i64, i64)) -> Option<Block> {
    let key = chunk_key(cc);
    let (x, y, z) = local_cell(cc);
    if m.contains_key(key) {
        cell_block(m[key]@, x, y, z)
    } else {
        None
    }
}

/// `new` is `old` with world cell `cc` set to `b` and the geometry cache of
/// its chunk recomputed; every other chunk is unchanged.
pub open spec fn block_replaced(old: Map<(i64, i64, i64), Chunk>, new: Map<(i64, i64, i64), Chunk>, cc: (i64, i64, i64), b: Block) -> bool {
    let key = chunk_key(cc);
    let (x, y, z) = local_cell(cc);
    &&& new.dom() == old.dom()
    &&& forall|k: (i64, i64, i64)| k != key && #[trigger] old.contains_key(k) ==> new[k] == old[k]
    &&& new[key]@ == old[key]@.update(local_index(x, y, z), b)
    &&& new[key].cache_fresh()
}

/// Every world cell splits into a chunk key and an in-range local cell, and
/// a world lookup is the lookup of that local cell in that chunk, or nothing
/// when the chunk is not loaded.
pub proof fn lemma_world_block_decomposes(m: Map<(i64, i64, i64), Chunk>, cc: (i64, i64, i64))
    ensures
        in_chunk(local_cell(cc).0, local_cell(cc).1, local_cell(cc).2),
        chunk_key(cc).0 * 16 + local_cell(cc).0 == cc.0,
        chunk_key(cc).1 * 16 + local_cell(cc).1 == cc.1,
        chunk_key(cc).2 * 16 + local_cell(cc).2 == cc.2,
        world_block(m, cc) == if m.contains_key(chunk_key(cc)) {
            cell_block(m[chunk_key(cc)]@, local_cell(cc).0, local_cell(cc).1, local_cell(cc).2)
        } else {
            None
        },
{
    lemma_key_fits(cc.0 as int);
    lemma_key_fits(cc.1 as int);
    lemma_key_fits(cc.2 as int);
}

proof fn lemma_key_fits(a: int)
    requires
        i64::MIN <= a <= i64::MAX,
    ensures
        i64::MIN <= a / 16 <= i64::MAX,
        (a / 16) * 16 + a % 16 == a,
        0 <= a % 16 < 16,
{
    vstd::arithmetic::div_mod::lemma_fundamental_div_mod(a, 16);
    vstd::arithmetic::div_mod::lemma_mod_bound(a, 16);
    vstd::arithmetic::div_mod::lemma_div_is_ordered(a, i64::MAX as int, 16);
    vstd::arithmetic::div_mod::lemma_div_is_ordered(i64::MIN as int, a, 16);
}

/// After a block is replaced, reading its cell gives the new block, and the
/// chunk's cached vertex count gains a cube's 24 vertices when air becomes
/// solid and loses them when solid becomes air.
pub proof fn lemma_replace_then_read(w: &World, w2: &World, cc: (i64, i64, i64), b: Block)
    requires
        w.wf(),
        w@.contains_key(chunk_key(cc)),
        block_replaced(w@, w2@, cc, b),
    ensures
        world_block(w2@, cc) == Some(b),
        w2@[chunk_key(cc)].cache() matches Some(c) && c.vertex_no as int == 24 * solid_count(w@[chunk_key(cc)]@)
            + 24 * ((if b.is_solid() { 1int } else { 0int }) - (if world_block(w@, cc).unwrap().is_solid() { 1int } else { 0int })),
{
    let key = chunk_key(cc);
    let (x, y, z) = local_cell(cc);
    lemma_world_block_decomposes(w@, cc);
    assert(w@[key].wf());
    lemma_solid_count_update(w@[key]@, local_index(x, y, z), b);
}

/// Distance between neighbouring terrain samples: a tenth of a unit of noise
/// space per block.
pub const SAMPLE_STEP: i64 = 100_000;

/// Block of a generated terrain chunk at local cell `(x, y, z)`, the chunk's
/// noise samples being offset by `(x_offs, z_offs)`: dirt at the bottom
/// layer, then grass below the fifth layer and stone above it up to six
/// times the noise height, and air higher up.
pub open spec fn terrain_block(noise: Noise2DContext, x_offs: int, z_offs: int, x: int, y: int, z: int) -> Block {
    let h = noise_value(noise.gradients(), noise.permutation(), x_offs + x * SAMPLE_STEP, z_offs + z * SAMPLE_STEP);
    if y == 0 {
        Block::Dirt
    } else if y * UNIT < 6 * h {
        if y < 5 {
            Block::Grass
        } else {
            Block::Stone
        }
    } else {
        Block::Air
    }
}

/// A chunk of air only.
pub fn new_empty_chunk() -> (c: Chunk)
    ensures
        c.wf(),
        filled_by(c@, |x: int, y: int, z: int| Block::Air),
        c.cache_fresh(),
{
    let mut c = Chunk::new();
    let ghost start = c@;
    let f = |pos: (usize, usize, usize), b: Block| -> (r: (Block, bool))
        ensures
            r == (Block::Air, true),
        { (Block::Air, true) };
    c.each_block_mut(f);
    proof {
        lemma_visit_fills(f, start, c@, |x: int, y: int, z: int| Block::Air);
    }
    c.update_buffer_cache();
    c
}

/// A chunk with a floor of stone at its bottom layer and air above.
pub fn new_test_chunk() -> (c: Chunk)
    ensures
        c.wf(),
        filled_by(c@, |x: int, y: int, z: int| if y == 0 { Block::Stone } else { Block::Air }),
        c.cache_fresh(),
{
    let mut c = Chunk::new();
    let ghost start = c@;
    let f = |pos: (usize, usize, usize), b: Block| -> (r: (Block, bool))
        ensures
            r == (if pos.1 == 0 { Block::Stone } else { Block::Air }, true),
        { (if pos.1 == 0 { Block::Stone } else { Block::Air }, true) };
    c.each_block_mut(f);
    proof {
        lemma_visit_fills(f, start, c@, |x: int, y: int, z: int| if y == 0 { Block::Stone } else { Block::Air });
    }
    c.update_buffer_cache();
    c
}

/// A chunk holding a staircase of stone descending along x, with a stone
/// wall at `x == 0`.
pub fn new_stair_chunk() -> (c: Chunk)
    ensures
        c.wf(),
        filled_by(c@, |x: int, y: int, z: int| if x == 0 || 16 - x == y { Block::Stone } else { Block::Air }),
        c.cache_fresh(),
{
    let mut c = Chunk::new();
    let ghost start = c@;
    let f = |pos: (usize, usize, usize), b: Block| -> (r: (Block, bool))
        requires
            pos.0 < 16,
        ensures
            r == (if pos.0 == 0 || 16 - pos.0 == pos.1 { Block::Stone } else { Block::Air }, true),
        {
            let (x, y, _) = pos;
            (if x == 0 || 16 - x == y { Block::Stone } else { Block::Air }, true)
        };
    c.each_block_mut(f);
    proof {
        lemma_visit_fills(f, start, c@, |x: int, y: int, z: int| if x == 0 || 16 - x == y { Block::Stone } else { Block::Air });
    }
    c.update_buffer_cache();
    c
}

/// A terrain chunk generated from `noise`, its samples offset by
/// `(x_offs, z_offs)` in noise space.
pub fn new_noise_chunk(noise: &Noise2DContext, x_offs: i64, z_offs: i64) -> (c: Chunk)
    requires
        noise.wf(),
        x_offs <= i64::MAX - 16 * SAMPLE_STEP,
        z_offs <= i64::MAX - 16 * SAMPLE_STEP,
    ensures
        c.wf(),
        filled_by(c@, |x: int, y: int, z: int| terrain_block(*noise, x_offs as int, z_offs as int, x, y, z)),
        c.cache_fresh(),
{
    let mut c = Chunk::new();
    let ghost start = c@;
    let f = |pos: (usize, usize, usize), b: Block| -> (r: (Block, bool))
        requires
            noise.wf(),
            x_offs <= i64::MAX - 16 * SAMPLE_STEP,
            z_offs <= i64::MAX - 16 * SAMPLE_STEP,
            pos.0 < 16 && pos.1 < 16 && pos.2 < 16,
        ensures
            r == (terrain_block(*noise, x_offs as int, z_offs as int, pos.0 as int, pos.1 as int, pos.2 as int), true),
        {
            let (x, y, z) = pos;
            let h = noise.get(x_offs + x as i64 * SAMPLE_STEP, z_offs + z as i64 * SAMPLE_STEP);
            let block = if y == 0 {
                Block::Dirt
            } else if (y as i64) * UNIT < 6 * h {
                if y < 5 {
                    Block::Grass
                } else {
                    Block::Stone
                }
            } else {
                Block::Air
            };
            (block, true)
        };
    c.each_block_mut(f);
    proof {
        lemma_visit_fills(f, start, c@, |x: int, y: int, z: int| terrain_block(*noise, x_offs as int, z_offs as int, x, y, z));
    }
    c.update_buffer_cache();
    c
}

/// The loaded chunks, keyed by chunk-grid coordinate.
pub struct World {
    loaded_chunks: Vec<((i64, i64, i64), Chunk)>,
}

impl View for World {
    type V = Map<(i64, i64, i64), Chunk>;

    closed spec fn view(&self) -> Map<(i64, i64, i64), Chunk> {
        Map::new(
            |k: (i64, i64, i64)| exists|j: int| 0 <= j < self.loaded_chunks@.len() && #[trigger] self.loaded_chunks@[j].0 == k,
            |k: (i64, i64, i64)| self.loaded_chunks@[choose|j: int| 0 <= j < self.loaded_chunks@.len() && #[trigger] self.loaded_chunks@[j].0 == k].1,
        )
    }
}

impl World {
    /// Keys are distinct.
    pub closed spec fn entries_wf(&self) -> bool {
        forall|i: int, j: int| 0 <= i < j < self.loaded_chunks@.len() ==> #[trigger] self.loaded_chunks@[i].0 != #[trigger] self.loaded_chunks@[j].0
    }

    pub open spec fn wf(&self) -> bool {
        &&& self.entries_wf()
        &&& forall|k: (i64, i64, i64)| #[trigger] self@.contains_key(k) ==> self@[k].wf()
    }

    proof fn lemma_view_at(&self, j: int)
        requires
            self.entries_wf(),
            0 <= j < self.loaded_chunks@.len(),
        ensures
            self@.contains_key(self.loaded_chunks@[j].0),
            self@[self.loaded_chunks@[j].0] == self.loaded_chunks@[j].1,
    {
        let k = self.loaded_chunks@[j].0;
        assert(self.loaded_chunks@[j].0 == k);
        let c = choose|i: int| 0 <= i < self.loaded_chunks@.len() && #[trigger] self.loaded_chunks@[i].0 == k;
        if c != j {
            if c < j {
                assert(self.loaded_chunks@[c].0 != self.loaded_chunks@[j].0);
            } else {
                assert(self.loaded_chunks@[j].0 != self.loaded_chunks@[c].0);
            }
        }
    }

    proof fn lemma_view_all(&self)
        requires
            self.entries_wf(),
        ensures
            forall|j: int| 0 <= j < self.loaded_chunks@.len() ==> #[trigger] self@.contains_key(self.loaded_chunks@[j].0)
                && self@[self.loaded_chunks@[j].0] == self.loaded_chunks@[j].1,
            forall|k: (i64, i64, i64)| #[trigger] self@.contains_key(k) ==> exists|j: int| 0 <= j < self.loaded_chunks@.len() && self.loaded_chunks@[j].0 == k,
    {
        assert forall|j: int| 0 <= j < self.loaded_chunks@.len() implies #[trigger] self@.contains_key(self.loaded_chunks@[j].0)
            && self@[self.loaded_chunks@[j].0] == self.loaded_chunks@[j].1 by {
            self.lemma_view_at(j);
        }
    }

    /// The initial world: an empty chunk at the origin, and below it a
    /// three-by-three ring of terrain chunks generated from `noise`, each
    /// sampling the stretch of noise space next to its neighbours'.
    pub fn new(noise: &Noise2DContext) -> (r: World)
        requires
            noise.wf(),
        ensures
            r.wf(),
            forall|k: (i64, i64, i64)| #[trigger] r@.contains_key(k) <==> k == (0i64, 0i64, 0i64) || (k.1 == -1 && -1 <= k.0 <= 1 && -1 <= k.2 <= 1),
            filled_by(r@[(0i64, 0i64, 0i64)]@, |x: int, y: int, z: int| Block::Air),
            forall|kx: i64, kz: i64| -1 <= kx <= 1 && -1 <= kz <= 1 ==> filled_by(
                #[trigger] r@[(kx, -1i64, kz)]@,
                |x: int, y: int, z: int| terrain_block(*noise, kx * 16 * SAMPLE_STEP, kz * 16 * SAMPLE_STEP, x, y, z),
            ),
            forall|k: (i64, i64, i64)| #[trigger] r@.contains_key(k) ==> r@[k].cache_fresh(),
    {
        let span = 16 * SAMPLE_STEP;
        let mut v: Vec<((i64, i64, i64), Chunk)> = Vec::new();
        v.push(((0, 0, 0), new_empty_chunk()));
        v.push(((0, -1, 0), new_noise_chunk(noise, 0, 0)));
        v.push(((1, -1, 0), new_noise_chunk(noise, span, 0)));
        v.push(((-1, -1, 0), new_noise_chunk(noise, -span, 0)));
        v.push(((0, -1, 1), new_noise_chunk(noise, 0, span)));
        v.push(((0, -1, -1), new_noise_chunk(noise, 0, -span)));
        v.push(((1, -1, 1), new_noise_chunk(noise, span, span)));
        v.push(((-1, -1, 1), new_noise_chunk(noise, -span, span)));
        v.push(((1, -1, -1), new_noise_chunk(noise, span, -span)));
        v.push(((-1, -1, -1), new_noise_chunk(noise, -span, -span)));
        let w = World { loaded_chunks: v };
        proof {
            assert(w.entries_wf());
            w.lemma_view_all();
            assert forall|k: (i64, i64, i64)| #[trigger] w@.contains_key(k) <==> k == (0i64, 0i64, 0i64) || (k.1 == -1 && -1 <= k.0 <= 1 && -1 <= k.2 <= 1) by {
                if k == (0i64, 0i64, 0i64) || (k.1 == -1 && -1 <= k.0 <= 1 && -1 <= k.2 <= 1) {
                    let j: int = if k.1 == 0 { 0 } else if k.2 == 0 { if k.0 == 0 { 1 } else if k.0 == 1 { 2 } else { 3 } }
                        else if k.0 == 0 { if k.2 == 1 { 4 } else { 5 } }
                        else if k.2 == 1 { if k.0 == 1 { 6 } else { 7 } }
                        else { if k.0 == 1 { 8 } else { 9 } };
                    assert(w.loaded_chunks@[j].0 == k);
                }
            }
            assert forall|kx: i64, kz: i64| -1 <= kx <= 1 && -1 <= kz <= 1 implies filled_by(
                #[trigger] w@[(kx, -1i64, kz)]@,
                |x: int, y: int, z: int| terrain_block(*noise, kx * 16 * SAMPLE_STEP, kz * 16 * SAMPLE_STEP, x, y, z),
            ) by {
                let j: int = if kz == 0 { if kx == 0 { 1 } else if kx == 1 { 2 } else { 3 } }
                    else if kx == 0 { if kz == 1 { 4 } else { 5 } }
                    else if kz == 1 { if kx == 1 { 6 } else { 7 } }
                    else { if kx == 1 { 8 } else { 9 } };
                assert(w.loaded_chunks@[j].0 == (kx, -1i64, kz));
                assert(w@.contains_key(w.loaded_chunks@[j].0));
                let rule = |x: int, y: int, z: int| terrain_block(*noise, kx * 16 * SAMPLE_STEP, kz * 16 * SAMPLE_STEP, x, y, z);
                assert(filled_by(w.loaded_chunks@[j].1@, rule));
            }
            assert(w.loaded_chunks@[0].0 == (0i64, 0i64, 0i64));
        }
        w
    }

    /// Position of the entry with key `key`.
    fn find(&self, key: (i64, i64, i64)) -> (r: Option<usize>)
        requires
            self.entries_wf(),
        ensures
            r matches Some(j) ==> j < self.loaded_chunks@.len() && self.loaded_chunks@[j as int].0 == key,
            r is None <==> !self@.contains_key(key),
    {
        let mut j: usize = 0;
        while j < self.loaded_chunks.len()
            invariant
                j <= self.loaded_chunks@.len(),
                forall|i: int| 0 <= i < j ==> self.loaded_chunks@[i].0 != key,
            decreases self.loaded_chunks@.len() - j,
        {
            let k = self.loaded_chunks[j].0;
            if k.0 == key.0 && k.1 == key.1 && k.2 == key.2 {
                return Some(j);
            }
            j += 1;
        }
        None
    }

    /// The chunk loaded at chunk-grid coordinate `key`, if any.
    pub fn chunk_at(&self, key: (i64, i64, i64)) -> (r: Option<&Chunk>)
        requires
            self.wf(),
        ensures
            r matches Some(c) ==> self@.contains_key(key) && self@[key] == *c,
            r is None <==> !self@.contains_key(key),
    {
        match self.find(key) {
            Some(j) => {
                proof {
                    self.lemma_view_at(j as int);
                }
                Some(&self.loaded_chunks[j].1)
            },
            None => None,
        }
    }

    /// The block at world cell `cc`: its chunk is found by floor division and
    /// the cell inside it by floor modulo; `None` when that chunk is not loaded.
    pub fn block_at(&self, cc: (i64, i64, i64)) -> (r: Option<Block>)
        requires
            self.wf(),
        ensures
            r == world_block(self@, cc),
    {
        let (x, y, z) = cc;
        let key = (div(x, CHUNK_SIZE), div(y, CHUNK_SIZE), div(z, CHUNK_SIZE));
        match self.chunk_at(key) {
            Some(chunk) => chunk.block_at((rem(x, CHUNK_SIZE), rem(y, CHUNK_SIZE), rem(z, CHUNK_SIZE))),
            None => None,
        }
    }

    /// The block at the cell holding the fixed-point position `pos`.
    pub fn block_at_vec(&self, pos: &Vec3) -> (r: Option<Block>)
        requires
            self.wf(),
        ensures
            r == world_block(self@, floor_cell(*pos)),
    {
        let cc = pos.floor();
        self.block_at(cc)
    }

    /// Sets world cell `cc` to `new_block` and recomputes the geometry cache
    /// of its chunk, which must be loaded.
    pub fn replace_block(&mut self, cc: (i64, i64, i64), new_block: Block)
        requires
            old(self).wf(),
            old(self)@.contains_key(chunk_key(cc)),
        ensures
            final(self).wf(),
            block_replaced(old(self)@, final(self)@, cc, new_block),
    {
        let (x, y, z) = cc;
        let key = (div(x, CHUNK_SIZE), div(y, CHUNK_SIZE), div(z, CHUNK_SIZE));
        let j = match self.find(key) {
            Some(j) => j,
            None => {
                return;
            },
        };
        proof {
            self.lemma_view_at(j as int);
        }
        let ghost old_entries = self.loaded_chunks@;
        let entry = &mut self.loaded_chunks[j];
        match entry.1.block_at_mut((rem(x, CHUNK_SIZE), rem(y, CHUNK_SIZE), rem(z, CHUNK_SIZE))) {
            Some(b) => {
                *b = new_block;
            },
            None => {},
        }
        entry.1.update_buffer_cache();
        proof {
            assert(self.loaded_chunks@ == old_entries.update(j as int, (key, self.loaded_chunks@[j as int].1)));
            assert(self.entries_wf());
            assert forall|k: (i64, i64, i64)| #[trigger] self@.contains_key(k) <==> old(self)@.contains_key(k) by {
                if old(self)@.contains_key(k) {
                    let i = choose|i: int| 0 <= i < old_entries.len() && #[trigger] old_entries[i].0 == k;
                    assert(self.loaded_chunks@[i].0 == k);
                }
                if self@.contains_key(k) {
                    let i = choose|i: int| 0 <= i < self.loaded_chunks@.len() && #[trigger] self.loaded_chunks@[i].0 == k;
                    assert(old_entries[i].0 == k);
                }
            }
            assert(self@.dom() =~= old(self)@.dom());
            assert forall|k: (i64, i64, i64)| #[trigger] self@.contains_key(k) implies self@[k].wf() && (k != key ==> self@[k] == old(self)@[k]) by {
                let i = choose|i: int| 0 <= i < self.loaded_chunks@.len() && #[trigger] self.loaded_chunks@[i].0 == k;
                self.lemma_view_at(i);
                old(self).lemma_view_at(i);
            }
            self.lemma_view_at(j as int);
        }
    }

    /// The loaded keys in the order `each_chunk` visits them.
    pub closed spec fn key_order(&self) -> Seq<(i64, i64, i64)> {
        self.loaded_chunks@.map_values(|e: ((i64, i64, i64), Chunk)| e.0)
    }

    /// Calls `f` on each loaded chunk with its key, in no particular order,
    /// until `f` returns `false`.
    pub fn each_chunk<F: Fn(&(i64, i64, i64), &Chunk) -> bool>(&self, f: F)
        requires
            self.wf(),
            forall|k: &(i64, i64, i64), c: &Chunk| #[trigger] f.requires((k, c)),
        ensures
            self.key_order().no_duplicates(),
            forall|k: (i64, i64, i64)| self@.contains_key(k) <==> #[trigger] self.key_order().contains(k),
            exists|n: int| 0 <= n <= self.key_order().len() && #[trigger] self.chunks_visited(f, n),
    {
        proof {
            self.lemma_view_all();
            assert forall|k: (i64, i64, i64)| self@.contains_key(k) <==> #[trigger] self.key_order().contains(k) by {
                if self@.contains_key(k) {
                    let j = choose|j: int| 0 <= j < self.loaded_chunks@.len() && self.loaded_chunks@[j].0 == k;
                    assert(self.key_order()[j] == k);
                }
                if self.key_order().contains(k) {
                    let j = choose|j: int| 0 <= j < self.key_order().len() && self.key_order()[j] == k;
                    assert(self@.contains_key(self.loaded_chunks@[j].0));
                }
            }
        }
        let mut j: usize = 0;
        while j < self.loaded_chunks.len()
            invariant
                self.wf(),
                j <= self.loaded_chunks@.len(),
                forall|k: (i64, i64, i64)| self@.contains_key(k) <==> #[trigger] self.key_order().contains(k),
                forall|k: &(i64, i64, i64), c: &Chunk| #[trigger] f.requires((k, c)),
                forall|i: int| 0 <= i < j ==> #[trigger] self.chunk_answered(f, i, true),
            decreases self.loaded_chunks@.len() - j,
        {
            let entry = &self.loaded_chunks[j];
            proof {
                self.lemma_view_at(j as int);
            }
            let go_on = f(&entry.0, &entry.1);
            assert(self.chunk_answered(f, j as int, go_on));
            if !go_on {
                assert(self.chunks_visited(f, j + 1));
                return;
            }
            j += 1;
        }
        assert(self.chunks_visited(f, j as int));
    }

    /// `f` was handed the `i`-th loaded key with its chunk and answered `go_on`.
    pub open spec fn chunk_answered<F: Fn(&(i64, i64, i64), &Chunk) -> bool>(&self, f: F, i: int, go_on: bool) -> bool {
        f.ensures((&self.key_order()[i], &self@[self.key_order()[i]]), go_on)
    }

    /// A traversal visited the first `n` loaded keys: `f` asked to go on at
    /// each but the last, and to stop at the last unless every key was
    /// visited.
    pub open spec fn chunks_visited<F: Fn(&(i64, i64, i64), &Chunk) -> bool>(&self, f: F, n: int) -> bool {
        let len = self.key_order().len() as int;
        &&& forall|i: int| 0 <= i < n - 1 ==> #[trigger] self.chunk_answered(f, i, true)
        &&& (n < len ==> n > 0 && self.chunk_answered(f, n - 1, false))
        &&& (n == len && n > 0 ==> self.chunk_answered(f, n - 1, true) || self.chunk_answered(f, n - 1, false))
    }
}

} // verus!
