use vstd::prelude::*;
use crate::world::chunk::{in_column_chunk, Chunk, CHUNK_SIZE};
use crate::world::generation::{clamp_height, column_fill, fill_chunk};

verus! {

/// Chunk column coordinates `(x, z)`.
pub type ChunkPos = (i32, i32);

/// A column world: its seed and the chunk columns generated so far.
pub struct World {
    pub seed: u32,
    chunks: Vec<(ChunkPos, Chunk)>,
}

impl World {
    pub closed spec fn seed_value(&self) -> u32 {
        self.seed
    }

    pub closed spec fn has(&self, cx: i32, cz: i32) -> bool {
        exists|i: int| 0 <= i < self.chunks@.len() && self.chunks@[i].0 == (cx, cz)
    }

    /// The stored chunk at `(cx, cz)`.
    pub closed spec fn chunk_at(&self, cx: i32, cz: i32) -> Chunk {
        self.chunks@[choose|i: int| 0 <= i < self.chunks@.len() && self.chunks@[i].0 == (cx, cz)].1
    }

    pub closed spec fn wf(&self) -> bool {
        &&& forall|i: int, j: int|
            0 <= i < self.chunks@.len() && 0 <= j < self.chunks@.len() && i != j ==> self.chunks@[i].0
                != self.chunks@[j].0
        &&& forall|i: int| 0 <= i < self.chunks@.len() ==> (#[trigger] self.chunks@[i]).1.wf()
    }

    pub proof fn lemma_stored_chunk_wf(&self, cx: i32, cz: i32)
        requires
            self.wf(),
            self.has(cx, cz),
        ensures
            self.chunk_at(cx, cz).wf(),
    {
    }

    pub fn new(seed: u32) -> (w: World)
        ensures
            w.wf(),
            w.seed_value() == seed,
            forall|cx: i32, cz: i32| !#[trigger] w.has(cx, cz),
    {
        World { seed, chunks: Vec::new() }
    }

    fn find(&self, cx: i32, cz: i32) -> (r: Option<usize>)
        requires
            self.wf(),
        ensures
            match r {
                Some(i) => i < self.chunks@.len() && self.chunks@[i as int].0 == (cx, cz),
                None => !self.has(cx, cz),
            },
    {
        let mut i: usize = 0;
        while i < self.chunks.len()
            invariant
                i <= self.chunks@.len(),
                forall|j: int| 0 <= j < i ==> self.chunks@[j].0 != (cx, cz),
            decreases self.chunks@.len() - i,
        {
            let k = self.chunks[i].0;
            if k.0 == cx && k.1 == cz {
                return Some(i);
            }
            i = i + 1;
        }
        None
    }

    /// Generates the chunk column at `(cx, cz)` from its raw column heights
    /// unless it is already there; chunks already there stay as they are.
    pub fn ensure_chunk(&mut self, cx: i32, cz: i32, raw_heights: &Vec<i64>)
        requires
            old(self).wf(),
            raw_heights@.len() == CHUNK_SIZE * CHUNK_SIZE,
        ensures
            final(self).wf(),
            final(self).seed_value() == old(self).seed_value(),
            final(self).has(cx, cz),
            forall|ax: i32, az: i32|
                #[trigger] old(self).has(ax, az) ==> final(self).has(ax, az) && final(self).chunk_at(ax, az)
                    == old(self).chunk_at(ax, az),
            forall|ax: i32, az: i32| #[trigger] final(self).has(ax, az) ==> old(self).has(ax, az) || (ax, az) == (cx, cz),
            final(self).chunk_at(cx, cz).wf(),
            !old(self).has(cx, cz) ==> forall|x: int, y: int, z: int|
                in_column_chunk(x, y, z) ==> #[trigger] final(self).chunk_at(cx, cz).at(x, y, z) == column_fill(
                    clamp_height(raw_heights@[z * 16 + x] as int),
                    y,
                ),
    {
        match self.find(cx, cz) {
            Some(_) => {},
            None => {
                let c = fill_chunk(raw_heights);
                let ghost before = self.chunks@;
                self.chunks.push(((cx, cz), c));
                proof {
                    let n = before.len() as int;
                    assert(self.chunks@[n].0 == (cx, cz));
                    assert forall|ax: i32, az: i32| #[trigger] old(self).has(ax, az) implies self.has(ax, az)
                        && self.chunk_at(ax, az) == old(self).chunk_at(ax, az) by {
                        let i = choose|i: int| 0 <= i < before.len() && before[i].0 == (ax, az);
                        assert(self.chunks@[i] == before[i]);
                        let j = choose|j: int| 0 <= j < self.chunks@.len() && self.chunks@[j].0 == (ax, az);
                        if j != i {
                            if j == n {
                                assert((ax, az) == (cx, cz));
                            } else {
                                assert(before[j].0 == before[i].0);
                            }
                        }
                    }
                    assert forall|ax: i32, az: i32| #[trigger] self.has(ax, az) implies old(self).has(ax, az) || (
                        ax,
                        az,
                    ) == (cx, cz) by {
                        let j = choose|j: int| 0 <= j < self.chunks@.len() && self.chunks@[j].0 == (ax, az);
                        if j < n {
                            assert(before[j].0 == (ax, az));
                        }
                    }
                    let j = choose|j: int| 0 <= j < self.chunks@.len() && self.chunks@[j].0 == (cx, cz);
                    if j < n {
                        assert(before[j].0 == (cx, cz));
                    }
                    assert(self.chunk_at(cx, cz) == c);
                }
            },
        }
    }

    pub fn get_chunk(&self, cx: i32, cz: i32) -> (r: Option<&Chunk>)
        requires
            self.wf(),
        ensures
            match r {
                Some(c) => self.has(cx, cz) && *c == self.chunk_at(cx, cz),
                None => !self.has(cx, cz),
            },
    {
        match self.find(cx, cz) {
            Some(i) => {
                proof {
                    let j = choose|j: int| 0 <= j < self.chunks@.len() && self.chunks@[j].0 == (cx, cz);
                    assert(j == i);
                }
                Some(&self.chunks[i].1)
            },
            None => None,
        }
    }
}

} // verus!
