//! Entity handles, locations, and the entity allocator.
//!
//! An `Entity` is a stable (index, generation) handle. Indices are grouped
//! into blocks of `BLOCK_SPAN` consecutive values; each allocator owns one or
//! more mutually disjoint blocks, so entities created by different allocators
//! of one factory never collide. A deleted index may be reused with an
//! incremented generation, so stale handles are never mistaken for live ones.

use vstd::prelude::*;

verus! {

/// Number of consecutive entity indices covered by one block.
pub const BLOCK_SPAN: u64 = 0x1_0000_0000;

/// A stable handle to a live entity: a dense index plus a generation counter.
/// Equality uses both fields.
#[derive(Clone, Copy, PartialEq, Eq, Structural, Debug, Hash)]
pub struct Entity {
    pub index: u64,
    pub generation: u64,
}

impl Entity {
    pub fn new(index: u64, generation: u64) -> (e: Entity)
        ensures
            e.index == index,
            e.generation == generation,
    {
        Entity { index, generation }
    }

    pub fn index(&self) -> (i: u64)
        ensures
            i == self.index,
    {
        self.index
    }

    pub fn generation(&self) -> (g: u64)
        ensures
            g == self.generation,
    {
        self.generation
    }
}

/// Where a live entity's data is stored: archetype index, chunk-set index
/// within the archetype, chunk index within the set, and slot within the
/// chunk.
#[derive(Clone, Copy, PartialEq, Eq, Structural, Debug)]
pub struct EntityLocation {
    pub archetype: usize,
    pub set: usize,
    pub chunk: usize,
    pub component: usize,
}

impl EntityLocation {
    pub fn new(archetype: usize, set: usize, chunk: usize, component: usize) -> (l: EntityLocation)
        ensures
            l == (EntityLocation { archetype, set, chunk, component }),
    {
        EntityLocation { archetype, set, chunk, component }
    }

    pub fn archetype(&self) -> (r: usize)
        ensures
            r == self.archetype,
    {
        self.archetype
    }

    pub fn set(&self) -> (r: usize)
        ensures
            r == self.set,
    {
        self.set
    }

    pub fn chunk(&self) -> (r: usize)
        ensures
            r == self.chunk,
    {
        self.chunk
    }

    pub fn component(&self) -> (r: usize)
        ensures
            r == self.component,
    {
        self.component
    }
}

/// Book-keeping for one entity index: its current generation, whether the
/// index is live, and (when `located`) where its data is stored.
#[derive(Clone, Copy, PartialEq, Eq, Structural, Debug)]
pub struct EntityEntry {
    pub generation: u64,
    pub alive: bool,
    pub located: bool,
    pub location: EntityLocation,
}

/// A dense run of entity indices starting at `base`; `entries[i]` describes
/// index `base + i`.
pub struct EntityBlock {
    pub base: u64,
    pub entries: Vec<EntityEntry>,
}

/// Hands out disjoint index blocks to the allocators of one factory.
pub struct BlockAllocator {
    pub next: u64,
}

impl BlockAllocator {
    pub fn new() -> (r: BlockAllocator)
        ensures
            r.next == 0,
    {
        BlockAllocator { next: 0 }
    }

    /// Grants the next unclaimed block and advances past it, so that every
    /// block granted by one `BlockAllocator` is disjoint from every other.
    pub fn allocate(&mut self) -> (base: u64)
        requires
            old(self).next <= u64::MAX - BLOCK_SPAN,
        ensures
            base == old(self).next,
            final(self).next == old(self).next + BLOCK_SPAN,
    {
        let base = self.next;
        self.next = self.next + BLOCK_SPAN;
        base
    }
}

/// Creates entity handles, tracks which are live, and maps each live index to
/// its storage location. Owns one growable block plus any blocks absorbed by
/// `merge`.
pub struct EntityAllocator {
    pub blocks: Vec<EntityBlock>,
    pub free: Vec<u64>,
    pub buffer: Vec<Entity>,
}

/// Block `b1` is `b0` with every entry's recorded location cleared.
pub open spec fn block_cleared(b1: EntityBlock, b0: EntityBlock) -> bool {
    &&& b1.base == b0.base
    &&& b1.entries@.len() == b0.entries@.len()
    &&& forall|j: int| 0 <= j < b0.entries@.len()
            ==> #[trigger] b1.entries@[j] == (EntityEntry { located: false, ..b0.entries@[j] })
}

/// Clears the recorded location of every entry in the block.
fn clear_block_locations(b: &mut EntityBlock)
    ensures
        block_cleared(*final(b), *old(b)),
{
    let n = b.entries.len();
    let mut j: usize = 0;
    while j < n
        invariant
            n == b.entries@.len(),
            j <= n,
            b.base == old(b).base,
            b.entries@.len() == old(b).entries@.len(),
            forall|m: int| 0 <= m < j
                ==> #[trigger] b.entries@[m]
                    == (EntityEntry { located: false, ..old(b).entries@[m] }),
            forall|m: int| j <= m < n ==> #[trigger] b.entries@[m] == old(b).entries@[m],
        decreases n - j,
    {
        let entry: &mut EntityEntry = &mut b.entries[j];
        entry.located = false;
        j += 1;
    }
}

/// Appending an element that is not present keeps a sequence duplicate-free.
pub proof fn lemma_push_no_duplicates_u64(s: Seq<u64>, x: u64)
    requires
        s.no_duplicates(),
        !s.contains(x),
    ensures
        s.push(x).no_duplicates(),
{
    let t = s.push(x);
    assert forall|i: int, j: int| 0 <= i < t.len() && 0 <= j < t.len() && i != j implies
        t[i] != t[j] by {
        if i < s.len() && j < s.len() {
            assert(s[i] == t[i] && s[j] == t[j]);
        } else if i < s.len() {
            assert(t[j] == x && t[i] == s[i]);
            assert(s.contains(s[i]));
        } else if j < s.len() {
            assert(t[i] == x && t[j] == s[j]);
            assert(s.contains(s[j]));
        }
    }
}

/// No handle can be live in both of two range-disjoint allocators.
pub proof fn lemma_allocs_disjoint_alive(a1: EntityAllocator, a2: EntityAllocator, e: Entity)
    requires
        a1.wf(),
        a2.wf(),
        a1.disjoint_from(a2),
        a2.spec_is_alive(e),
    ensures
        !a1.spec_is_alive(e),
{
    if a1.has_index(e.index) {
        lemma_disjoint_not_shared(a1, a2, e.index);
    }
}

/// An index covered by one of two range-disjoint allocators is not covered
/// by the other.
proof fn lemma_disjoint_not_shared(a1: EntityAllocator, a2: EntityAllocator, idx: u64)
    requires
        a1.wf_blocks(),
        a2.wf_blocks(),
        a1.disjoint_from(a2),
        a1.has_index(idx),
    ensures
        !a2.has_index(idx),
{
    let i = a1.block_of(idx);
    if a2.has_index(idx) {
        let j = a2.block_of(idx);
        assert(blocks_disjoint(a1.blocks@[i], a2.blocks@[j]));
    }
}

/// True when index `idx` falls inside block `b`.
pub open spec fn block_contains(b: EntityBlock, idx: u64) -> bool {
    b.base <= idx < b.base + b.entries@.len()
}

/// Blocks `b1` and `b2` occupy disjoint index ranges (each block reserves the
/// whole span starting at its base).
pub open spec fn blocks_disjoint(b1: EntityBlock, b2: EntityBlock) -> bool {
    b1.base + BLOCK_SPAN <= b2.base || b2.base + BLOCK_SPAN <= b1.base
}

impl EntityAllocator {
    /// Some block of this allocator covers index `idx`.
    pub open spec fn has_index(self, idx: u64) -> bool {
        exists|i: int| 0 <= i < self.blocks@.len() && block_contains(#[trigger] self.blocks@[i], idx)
    }

    /// The index of the block covering `idx` (unique under `wf`).
    pub open spec fn block_of(self, idx: u64) -> int {
        choose|i: int| 0 <= i < self.blocks@.len() && block_contains(#[trigger] self.blocks@[i], idx)
    }

    /// The entry recorded for index `idx`.
    pub open spec fn entry_of(self, idx: u64) -> EntityEntry {
        let b = self.blocks@[self.block_of(idx)];
        b.entries@[idx - b.base]
    }

    /// The handle `e` is live: its index is known and its generation matches
    /// the entry's current generation.
    pub open spec fn spec_is_alive(self, e: Entity) -> bool {
        &&& self.has_index(e.index)
        &&& self.entry_of(e.index).alive
        &&& self.entry_of(e.index).generation == e.generation
    }

    /// The live handle `e` has a recorded location.
    pub open spec fn spec_located(self, e: Entity) -> bool {
        self.spec_is_alive(e) && self.entry_of(e.index).located
    }

    /// The recorded location of `e`.
    pub open spec fn spec_loc(self, e: Entity) -> EntityLocation {
        self.entry_of(e.index).location
    }

    /// The block structure is sound: at least one (growable) block; block
    /// ranges mutually disjoint and bounded.
    pub open spec fn wf_blocks(self) -> bool {
        &&& self.blocks@.len() >= 1
        &&& forall|i: int| 0 <= i < self.blocks@.len()
                ==> (#[trigger] self.blocks@[i]).entries@.len() <= BLOCK_SPAN
        &&& forall|i: int| 0 <= i < self.blocks@.len()
                ==> (#[trigger] self.blocks@[i]).base + BLOCK_SPAN <= u64::MAX + 1
        &&& forall|i: int, j: int|
                0 <= i < self.blocks@.len() && 0 <= j < self.blocks@.len() && i != j
                    ==> blocks_disjoint(#[trigger] self.blocks@[i], #[trigger] self.blocks@[j])
    }

    /// Structural invariant: sound blocks, and a free list that names dead
    /// indices, each at most once.
    pub open spec fn wf(self) -> bool {
        &&& self.wf_blocks()
        &&& forall|k: int| 0 <= k < self.free@.len()
                ==> self.has_index(#[trigger] self.free@[k])
                    && !self.entry_of(self.free@[k]).alive
        &&& self.free@.no_duplicates()
    }

    /// A fresh index can still be carved out of the growable block.
    pub open spec fn can_create(self) -> bool {
        self.blocks@[0].entries@.len() < BLOCK_SPAN || self.free@.len() > 0
    }

    /// Under `wf_blocks`, the block covering an index is unique, so any block
    /// found to contain `idx` is `block_of(idx)`.
    pub proof fn lemma_block_unique(self, idx: u64, i: int)
        requires
            self.wf_blocks(),
            0 <= i < self.blocks@.len(),
            block_contains(self.blocks@[i], idx),
        ensures
            self.has_index(idx),
            self.block_of(idx) == i,
    {
        assert(self.has_index(idx));
        let j = self.block_of(idx);
        if i != j {
            assert(blocks_disjoint(self.blocks@[i], self.blocks@[j]));
        }
    }

    /// Replacing the entry at position `ei` of block `bi` changes the entry
    /// recorded for exactly one index and leaves the index coverage as it was.
    pub proof fn lemma_update_entry(self, post: EntityAllocator, bi: int, ei: int, v: EntityEntry)
        requires
            self.wf_blocks(),
            0 <= bi < self.blocks@.len(),
            0 <= ei < self.blocks@[bi].entries@.len(),
            post.blocks@.len() == self.blocks@.len(),
            forall|k: int| 0 <= k < self.blocks@.len() && k != bi
                ==> post.blocks@[k] == self.blocks@[k],
            post.blocks@[bi].base == self.blocks@[bi].base,
            post.blocks@[bi].entries@ == self.blocks@[bi].entries@.update(ei, v),
        ensures
            post.wf_blocks(),
            forall|idx: u64| #[trigger] post.has_index(idx) == self.has_index(idx),
            forall|idx: u64| self.has_index(idx) ==> #[trigger] post.block_of(idx) == self.block_of(idx),
            forall|idx: u64|
                self.has_index(idx) && idx != self.blocks@[bi].base + ei
                    ==> #[trigger] post.entry_of(idx) == self.entry_of(idx),
            post.has_index((self.blocks@[bi].base + ei) as u64),
            post.entry_of((self.blocks@[bi].base + ei) as u64) == v,
    {
        assert forall|k: int| 0 <= k < post.blocks@.len() implies
            (#[trigger] post.blocks@[k]).base == self.blocks@[k].base
                && post.blocks@[k].entries@.len() == self.blocks@[k].entries@.len() by {}
        assert(post.wf_blocks());
        assert forall|idx: u64| #[trigger] post.has_index(idx) == self.has_index(idx) by {
            if self.has_index(idx) {
                let i = self.block_of(idx);
                assert(block_contains(post.blocks@[i], idx));
                post.lemma_block_unique(idx, i);
            }
            if post.has_index(idx) {
                let i = post.block_of(idx);
                assert(block_contains(self.blocks@[i], idx));
                self.lemma_block_unique(idx, i);
            }
        }
        assert forall|idx: u64| self.has_index(idx) implies
            #[trigger] post.block_of(idx) == self.block_of(idx) by {
            let i = self.block_of(idx);
            assert(block_contains(post.blocks@[i], idx));
            post.lemma_block_unique(idx, i);
        }
        let t = (self.blocks@[bi].base + ei) as u64;
        self.lemma_block_unique(t, bi);
        assert(block_contains(post.blocks@[bi], t));
        post.lemma_block_unique(t, bi);
        assert(post.entry_of(t) == v);
        assert forall|idx: u64|
            self.has_index(idx) && idx != self.blocks@[bi].base + ei implies
            #[trigger] post.entry_of(idx) == self.entry_of(idx) by {
            let i = self.block_of(idx);
            if i == bi {
                assert(idx - self.blocks@[bi].base != ei);
            }
        }
    }

    pub fn new(base: u64) -> (r: EntityAllocator)
        requires
            base + BLOCK_SPAN <= u64::MAX + 1,
        ensures
            r.wf(),
            r.blocks@.len() == 1,
            r.blocks@[0].base == base,
            r.blocks@[0].entries@.len() == 0,
            r.free@.len() == 0,
            r.buffer@.len() == 0,
            forall|e: Entity| !r.spec_is_alive(e),
            forall|idx: u64| !r.has_index(idx),
    {
        let mut blocks: Vec<EntityBlock> = Vec::new();
        blocks.push(EntityBlock { base, entries: Vec::new() });
        let r = EntityAllocator { blocks, free: Vec::new(), buffer: Vec::new() };
        assert(forall|idx: u64| !r.has_index(idx)) by {
            assert(forall|i: int| 0 <= i < r.blocks@.len()
                ==> (#[trigger] r.blocks@[i]).entries@.len() == 0);
        }
        r
    }

    /// Looks up the block covering `idx`.
    fn find_block(&self, idx: u64) -> (r: Option<usize>)
        requires
            self.wf(),
        ensures
            match r {
                Some(i) => i < self.blocks@.len() && block_contains(self.blocks@[i as int], idx)
                    && self.has_index(idx) && self.block_of(idx) == i,
                None => !self.has_index(idx),
            },
    {
        let n = self.blocks.len();
        let mut i: usize = 0;
        while i < n
            invariant
                self.wf(),
                n == self.blocks@.len(),
                i <= n,
                forall|k: int| 0 <= k < i ==> !block_contains(#[trigger] self.blocks@[k], idx),
            decreases n - i,
        {
            let b = &self.blocks[i];
            if b.base <= idx {
                let off = idx - b.base;
                if off < b.entries.len() as u64 {
                    proof {
                        self.lemma_block_unique(idx, i as int);
                    }
                    return Some(i);
                }
            }
            i += 1;
        }
        None
    }

    /// True when `e` is a live handle of this allocator.
    pub fn is_alive(&self, e: Entity) -> (r: bool)
        requires
            self.wf(),
        ensures
            r == self.spec_is_alive(e),
    {
        match self.find_block(e.index) {
            Some(i) => {
                let b = &self.blocks[i];
                let entry = &b.entries[(e.index - b.base) as usize];
                entry.alive && entry.generation == e.generation
            }
            None => false,
        }
    }

    /// The location recorded for index `idx`, when one has been recorded.
    pub fn get_location(&self, idx: u64) -> (r: Option<EntityLocation>)
        requires
            self.wf(),
        ensures
            match r {
                Some(l) => self.has_index(idx) && self.entry_of(idx).located
                    && l == self.entry_of(idx).location,
                None => !(self.has_index(idx) && self.entry_of(idx).located),
            },
    {
        match self.find_block(idx) {
            Some(i) => {
                let b = &self.blocks[i];
                let entry = &b.entries[(idx - b.base) as usize];
                if entry.located {
                    Some(entry.location)
                } else {
                    None
                }
            }
            None => None,
        }
    }

    /// A mutable borrow of the entry at position `ei` of block `bi`.
    fn entry_mut(&mut self, bi: usize, ei: usize) -> (r: &mut EntityEntry)
        requires
            bi < old(self).blocks@.len(),
            ei < old(self).blocks@[bi as int].entries@.len(),
        ensures
            *r == old(self).blocks@[bi as int].entries@[ei as int],
            final(self).blocks@.len() == old(self).blocks@.len(),
            forall|k: int| 0 <= k < old(self).blocks@.len() && k != bi
                ==> final(self).blocks@[k] == old(self).blocks@[k],
            final(self).blocks@[bi as int].base == old(self).blocks@[bi as int].base,
            final(self).blocks@[bi as int].entries@
                == old(self).blocks@[bi as int].entries@.update(ei as int, *final(r)),
            final(self).free@ == old(self).free@,
            final(self).buffer@ == old(self).buffer@,
    {
        let b: &mut EntityBlock = &mut self.blocks[bi];
        &mut b.entries[ei]
    }

    /// Records the storage location of index `idx`.
    pub fn set_location(&mut self, idx: u64, loc: EntityLocation)
        requires
            old(self).wf(),
            old(self).has_index(idx),
        ensures
            final(self).wf(),
            final(self).free@ == old(self).free@,
            final(self).buffer@ == old(self).buffer@,
            final(self).blocks@.len() == old(self).blocks@.len(),
            forall|k: int| 0 <= k < old(self).blocks@.len()
                ==> (#[trigger] final(self).blocks@[k]).base == old(self).blocks@[k].base
                    && final(self).blocks@[k].entries@.len()
                        == old(self).blocks@[k].entries@.len(),
            forall|i: u64| #[trigger] final(self).has_index(i) == old(self).has_index(i),
            forall|i: u64| old(self).has_index(i) && i != idx
                ==> #[trigger] final(self).entry_of(i) == old(self).entry_of(i),
            final(self).entry_of(idx) == (EntityEntry {
                located: true,
                location: loc,
                ..old(self).entry_of(idx)
            }),
            forall|e: Entity| #[trigger] final(self).spec_is_alive(e) == old(self).spec_is_alive(e),
    {
        let ghost pre = *self;
        let bi = match self.find_block(idx) {
            Some(i) => i,
            None => {
                proof {
                    assert(false);
                }
                0
            }
        };
        let base = self.blocks[bi].base;
        let ei = (idx - base) as usize;
        let ghost v = EntityEntry { located: true, location: loc, ..pre.entry_of(idx) };
        let entry = self.entry_mut(bi, ei);
        entry.located = true;
        entry.location = loc;
        proof {
            pre.lemma_update_entry(*self, bi as int, ei as int, self.blocks@[bi as int].entries@[ei as int]);
            assert(self.entry_of(idx) == v);
            assert forall|k: int| 0 <= k < self.free@.len() implies
                self.has_index(#[trigger] self.free@[k])
                    && !self.entry_of(self.free@[k]).alive by {
                if self.free@[k] == idx {
                    assert(self.entry_of(idx).alive == pre.entry_of(idx).alive);
                }
            }
            assert forall|e: Entity| #[trigger] final(self).spec_is_alive(e)
                == pre.spec_is_alive(e) by {
                if e.index == idx {
                    assert(self.entry_of(idx).alive == pre.entry_of(idx).alive);
                    assert(self.entry_of(idx).generation == pre.entry_of(idx).generation);
                }
            }
        }
    }

    /// Forgets the recorded location of index `idx`, ahead of re-homing its
    /// data.
    pub fn clear_location(&mut self, idx: u64)
        requires
            old(self).wf(),
            old(self).has_index(idx),
        ensures
            final(self).wf(),
            final(self).free@ == old(self).free@,
            final(self).buffer@ == old(self).buffer@,
            final(self).blocks@.len() == old(self).blocks@.len(),
            forall|k: int| 0 <= k < old(self).blocks@.len()
                ==> (#[trigger] final(self).blocks@[k]).base == old(self).blocks@[k].base
                    && final(self).blocks@[k].entries@.len()
                        == old(self).blocks@[k].entries@.len(),
            forall|i: u64| #[trigger] final(self).has_index(i) == old(self).has_index(i),
            forall|i: u64| old(self).has_index(i) && i != idx
                ==> #[trigger] final(self).entry_of(i) == old(self).entry_of(i),
            final(self).entry_of(idx) == (EntityEntry {
                located: false,
                ..old(self).entry_of(idx)
            }),
            forall|e: Entity| #[trigger] final(self).spec_is_alive(e) == old(self).spec_is_alive(e),
    {
        let ghost pre = *self;
        let bi = match self.find_block(idx) {
            Some(i) => i,
            None => {
                proof {
                    assert(false);
                }
                0
            }
        };
        let base = self.blocks[bi].base;
        let ei = (idx - base) as usize;
        let entry = self.entry_mut(bi, ei);
        entry.located = false;
        proof {
            pre.lemma_update_entry(*self, bi as int, ei as int, self.blocks@[bi as int].entries@[ei as int]);
            assert forall|k: int| 0 <= k < self.free@.len() implies
                self.has_index(#[trigger] self.free@[k])
                    && !self.entry_of(self.free@[k]).alive by {
                if self.free@[k] == idx {
                    assert(self.entry_of(idx).alive == pre.entry_of(idx).alive);
                }
            }
            assert forall|e: Entity| #[trigger] final(self).spec_is_alive(e)
                == pre.spec_is_alive(e) by {
                if e.index == idx {
                    assert(self.entry_of(idx).alive == pre.entry_of(idx).alive);
                    assert(self.entry_of(idx).generation == pre.entry_of(idx).generation);
                }
            }
        }
    }

    /// Creates a live entity, reusing a freed index (with its generation
    /// advanced) when one is available, else carving a fresh index out of the
    /// growable block. The new handle was not previously live; no other
    /// handle's liveness changes. The handle is appended to the allocation
    /// buffer and starts without a recorded location.
    pub fn create_entity(&mut self) -> (e: Entity)
        requires
            old(self).wf(),
            old(self).can_create(),
        ensures
            final(self).wf(),
            !old(self).spec_is_alive(e),
            old(self).has_index(e.index) ==> !old(self).entry_of(e.index).alive,
            final(self).spec_is_alive(e),
            !final(self).entry_of(e.index).located,
            forall|e2: Entity| e2 != e
                ==> #[trigger] final(self).spec_is_alive(e2) == old(self).spec_is_alive(e2),
            forall|i: u64| old(self).has_index(i) ==> #[trigger] final(self).has_index(i),
            forall|i: u64| #[trigger] final(self).has_index(i)
                ==> old(self).has_index(i) || i == e.index,
            forall|i: u64| old(self).has_index(i) && i != e.index
                ==> #[trigger] final(self).entry_of(i) == old(self).entry_of(i),
            final(self).buffer@ == old(self).buffer@.push(e),
            final(self).blocks@[0].base == old(self).blocks@[0].base,
            final(self).blocks@.len() == old(self).blocks@.len(),
            final(self).blocks@[0].entries@.len() <= old(self).blocks@[0].entries@.len() + 1,
    {
        let ghost pre = *self;
        if self.free.len() > 0 {
            let idx = match self.free.pop() {
                Some(x) => x,
                None => {
                    proof {
                        assert(false);
                    }
                    0
                }
            };
            proof {
                assert(pre.free@.last() == idx);
                assert(pre.has_index(idx) && !pre.entry_of(idx).alive);
            }
            let bi = match self.find_block(idx) {
                Some(i) => i,
                None => {
                    proof {
                        assert(false);
                    }
                    0
                }
            };
            let base = self.blocks[bi].base;
            let ei = (idx - base) as usize;
            let entry = self.entry_mut(bi, ei);
            let g0 = entry.generation;
            let gen = if g0 == u64::MAX { 0 } else { g0 + 1 };
            entry.generation = gen;
            entry.alive = true;
            entry.located = false;
            let e = Entity::new(idx, gen);
            self.buffer.push(e);
            proof {
                pre.lemma_update_entry(
                    *self,
                    bi as int,
                    ei as int,
                    self.blocks@[bi as int].entries@[ei as int],
                );
                assert(self.entry_of(idx).alive && self.entry_of(idx).generation == gen);
                assert(self.spec_is_alive(e));
                assert(!pre.spec_is_alive(e));
                assert(self.free@ == pre.free@.drop_last());
                assert forall|k: int| 0 <= k < self.free@.len() implies
                    self.has_index(#[trigger] self.free@[k])
                        && !self.entry_of(self.free@[k]).alive by {
                    assert(self.free@[k] == pre.free@[k]);
                    assert(pre.free@[k] != idx) by {
                        assert(pre.free@.no_duplicates());
                        assert(pre.free@[pre.free@.len() - 1] == idx);
                    }
                }
                assert(self.free@.no_duplicates());
                assert forall|e2: Entity| e2 != e implies
                    #[trigger] self.spec_is_alive(e2) == pre.spec_is_alive(e2) by {
                    if e2.index == idx {
                        assert(!pre.entry_of(idx).alive);
                        if self.spec_is_alive(e2) {
                            assert(e2.generation == gen);
                        }
                    }
                }
            }
            e
        } else {
            let base = self.blocks[0].base;
            let n = self.blocks[0].entries.len();
            let idx = base + (n as u64);
            let b: &mut EntityBlock = &mut self.blocks[0];
            b.entries.push(EntityEntry {
                generation: 0,
                alive: true,
                located: false,
                location: EntityLocation::new(0, 0, 0, 0),
            });
            let e = Entity::new(idx, 0);
            self.buffer.push(e);
            proof {
                assert(self.blocks@[0].entries@.len() == n + 1);
                assert forall|k: int| 0 <= k < self.blocks@.len() implies
                    (#[trigger] self.blocks@[k]).base == pre.blocks@[k].base
                        && self.blocks@[k].entries@.len() >= pre.blocks@[k].entries@.len() by {}
                assert(self.wf_blocks());
                // The fresh index was covered by no block before the push.
                assert(!pre.has_index(idx)) by {
                    assert forall|i: int| 0 <= i < pre.blocks@.len() implies
                        !block_contains(#[trigger] pre.blocks@[i], idx) by {
                        if i != 0 {
                            assert(blocks_disjoint(pre.blocks@[0], pre.blocks@[i]));
                        }
                    }
                }
                assert(block_contains(self.blocks@[0], idx));
                self.lemma_block_unique(idx, 0);
                assert(self.entry_of(idx).alive && self.entry_of(idx).generation == 0);
                assert(!self.entry_of(idx).located);
                assert forall|i: u64| pre.has_index(i) implies #[trigger] self.has_index(i) by {
                    let k = pre.block_of(i);
                    assert(block_contains(self.blocks@[k], i));
                    self.lemma_block_unique(i, k);
                }
                assert forall|i: u64| #[trigger] self.has_index(i) implies
                    pre.has_index(i) || i == idx by {
                    let k = self.block_of(i);
                    if k != 0 {
                        assert(block_contains(pre.blocks@[k], i));
                        pre.lemma_block_unique(i, k);
                    } else {
                        if i != idx {
                            assert(block_contains(pre.blocks@[0], i));
                            pre.lemma_block_unique(i, 0);
                        }
                    }
                }
                assert forall|i: u64| pre.has_index(i) && i != idx implies
                    #[trigger] self.entry_of(i) == pre.entry_of(i) by {
                    let k = pre.block_of(i);
                    assert(block_contains(self.blocks@[k], i));
                    self.lemma_block_unique(i, k);
                    if k == 0 {
                        assert(i - base < n);
                    }
                }
                assert forall|k: int| 0 <= k < self.free@.len() implies
                    self.has_index(#[trigger] self.free@[k])
                        && !self.entry_of(self.free@[k]).alive by {
                    assert(pre.has_index(self.free@[k]));
                    assert(pre.free@[k] != idx);
                }
                assert forall|e2: Entity| e2 != e implies
                    #[trigger] self.spec_is_alive(e2) == pre.spec_is_alive(e2) by {
                    if e2.index == idx {
                        assert(!pre.has_index(idx));
                        if self.spec_is_alive(e2) {
                            assert(e2.generation == 0);
                        }
                    }
                }
                assert(!pre.spec_is_alive(e));
            }
            e
        }
    }

    /// Deletes `e` when it is live. Returns the location it had exactly when
    /// it was live; afterwards `e` is dead, its index is free for reuse, and
    /// no other handle's liveness or entry changes.
    pub fn delete_entity(&mut self, e: Entity) -> (r: Option<EntityLocation>)
        requires
            old(self).wf(),
            old(self).spec_is_alive(e) ==> old(self).spec_located(e),
        ensures
            final(self).wf(),
            old(self).spec_is_alive(e) ==> r == Some(old(self).spec_loc(e)),
            !old(self).spec_is_alive(e) ==> r is None,
            !final(self).spec_is_alive(e),
            forall|e2: Entity| e2 != e
                ==> #[trigger] final(self).spec_is_alive(e2) == old(self).spec_is_alive(e2),
            forall|i: u64| #[trigger] final(self).has_index(i) == old(self).has_index(i),
            forall|i: u64| old(self).has_index(i) && i != e.index
                ==> #[trigger] final(self).entry_of(i) == old(self).entry_of(i),
            final(self).buffer@ == old(self).buffer@,
            old(self).spec_is_alive(e) ==> final(self).free@ == old(self).free@.push(e.index),
            !old(self).spec_is_alive(e) ==> *final(self) == *old(self),
    {
        let ghost pre = *self;
        if !self.is_alive(e) {
            return None;
        }
        let bi = match self.find_block(e.index) {
            Some(i) => i,
            None => {
                proof {
                    assert(false);
                }
                0
            }
        };
        let base = self.blocks[bi].base;
        let ei = (e.index - base) as usize;
        let loc = self.blocks[bi].entries[ei].location;
        let entry = self.entry_mut(bi, ei);
        entry.alive = false;
        self.free.push(e.index);
        proof {
            pre.lemma_update_entry(
                *self,
                bi as int,
                ei as int,
                self.blocks@[bi as int].entries@[ei as int],
            );
            assert(!self.entry_of(e.index).alive);
            assert forall|k: int| 0 <= k < self.free@.len() implies
                self.has_index(#[trigger] self.free@[k])
                    && !self.entry_of(self.free@[k]).alive by {
                if k < pre.free@.len() {
                    assert(self.free@[k] == pre.free@[k]);
                    assert(pre.free@[k] != e.index) by {
                        assert(!pre.entry_of(pre.free@[k]).alive);
                        assert(pre.entry_of(e.index).alive);
                    }
                } else {
                    assert(self.free@[k] == e.index);
                }
            }
            assert(self.free@.no_duplicates()) by {
                assert forall|k: int| 0 <= k < pre.free@.len() implies
                    pre.free@[k] != e.index by {
                    assert(!pre.entry_of(pre.free@[k]).alive);
                    assert(pre.entry_of(e.index).alive);
                }
            }
            assert forall|e2: Entity| e2 != e implies
                #[trigger] self.spec_is_alive(e2) == pre.spec_is_alive(e2) by {
                if e2.index == e.index {
                    assert(pre.entry_of(e.index).generation == e.generation);
                }
            }
        }
        Some(loc)
    }

    /// Every block of `self` is range-disjoint from every block of `other`,
    /// so the two allocators share no entity index.
    pub open spec fn disjoint_from(self, other: EntityAllocator) -> bool {
        forall|i: int, j: int|
            0 <= i < self.blocks@.len() && 0 <= j < other.blocks@.len()
                ==> blocks_disjoint(#[trigger] self.blocks@[i], #[trigger] other.blocks@[j])
    }

    /// Absorbs `other`'s blocks and free list. Every handle live in either
    /// allocator is live in the result; absorbed entries keep their
    /// generation and liveness but lose their recorded location, which the
    /// caller re-records as it re-homes the absorbed entities' data.
    pub fn merge(&mut self, other: EntityAllocator)
        requires
            old(self).wf(),
            other.wf(),
            old(self).disjoint_from(other),
        ensures
            final(self).wf(),
            final(self).buffer@ == old(self).buffer@,
            final(self).blocks@[0].base == old(self).blocks@[0].base,
            forall|i: u64| #[trigger] final(self).has_index(i)
                == (old(self).has_index(i) || other.has_index(i)),
            forall|i: u64| old(self).has_index(i)
                ==> #[trigger] final(self).entry_of(i) == old(self).entry_of(i),
            forall|i: u64| other.has_index(i)
                ==> #[trigger] final(self).entry_of(i)
                    == (EntityEntry { located: false, ..other.entry_of(i) }),
            forall|e: Entity| #[trigger] final(self).spec_is_alive(e)
                == (old(self).spec_is_alive(e) || other.spec_is_alive(e)),
    {
        let ghost pre = *self;
        let EntityAllocator { blocks: mut ob, free: mut of, buffer: _ } = other;
        let ghost oblocks = ob@;
        let n0 = self.blocks.len();
        let ghost nother = ob@.len();
        proof {
            assert(ob@ =~= oblocks.subrange(nother - ob@.len(), nother as int));
        }
        while ob.len() > 0
            invariant
                n0 == pre.blocks@.len(),
                nother == oblocks.len(),
                self.blocks@.len() == n0 + nother - ob@.len(),
                ob@.len() <= nother,
                forall|m: int| 0 <= m < n0 ==> #[trigger] self.blocks@[m] == pre.blocks@[m],
                forall|m: int| n0 <= m < self.blocks@.len()
                    ==> block_cleared(#[trigger] self.blocks@[m], oblocks[m - n0]),
                ob@ == oblocks.subrange(nother - ob@.len(), nother as int),
                self.free@ == pre.free@,
                self.buffer@ == pre.buffer@,
            decreases ob@.len(),
        {
            let ghost k = nother - ob@.len();
            let ghost obpre = ob@;
            let mut b = ob.remove(0);
            proof {
                assert(obpre == oblocks.subrange(k, nother as int));
                assert(b == obpre[0]);
                assert(oblocks.subrange(k, nother as int)[0] == oblocks[k]);
                assert(b == oblocks[k]);
                assert(ob@ == obpre.remove(0));
                assert forall|m: int| 0 <= m < ob@.len() implies ob@[m] == oblocks[k + 1 + m] by {
                    assert(ob@[m] == obpre[m + 1]);
                    assert(oblocks.subrange(k, nother as int)[m + 1] == oblocks[k + 1 + m]);
                }
                assert(ob@ =~= oblocks.subrange(k + 1, nother as int));
            }
            clear_block_locations(&mut b);
            self.blocks.push(b);
        }
        let ghost nf = of@.len();
        proof {
            assert(of@ =~= other.free@.subrange(0, of@.len() as int));
        }
        while of.len() > 0
            invariant
                pre.wf(),
                other.wf(),
                pre.disjoint_from(other),
                self.blocks@.len() == n0 + nother,
                n0 == pre.blocks@.len(),
                nother == oblocks.len(),
                forall|m: int| 0 <= m < n0 ==> #[trigger] self.blocks@[m] == pre.blocks@[m],
                forall|m: int| n0 <= m < self.blocks@.len()
                    ==> block_cleared(#[trigger] self.blocks@[m], oblocks[m - n0]),
                self.buffer@ == pre.buffer@,
                nf == other.free@.len(),
                of@.len() <= nf,
                of@ == other.free@.subrange(0, of@.len() as int),
                self.free@.len() == pre.free@.len() + nf - of@.len(),
                forall|m: int| 0 <= m < pre.free@.len()
                    ==> #[trigger] self.free@[m] == pre.free@[m],
                forall|m: int| pre.free@.len() <= m < self.free@.len()
                    ==> #[trigger] self.free@[m]
                        == other.free@[nf - 1 - (m - pre.free@.len())],
                self.free@.no_duplicates(),
            decreases of@.len(),
        {
            let ghost fpre = self.free@;
            let ghost oflen = of@.len();
            let ghost ofpre = of@;
            let x = match of.pop() {
                Some(x) => x,
                None => {
                    proof {
                        assert(false);
                    }
                    0
                }
            };
            proof {
                assert(ofpre == other.free@.subrange(0, oflen as int));
                assert(x == ofpre[oflen - 1]);
                assert(other.free@.subrange(0, oflen as int)[oflen - 1] == other.free@[oflen - 1]);
                assert(x == other.free@[oflen - 1]);
                assert(of@ == ofpre.drop_last());
                assert forall|m: int| 0 <= m < of@.len() implies of@[m] == other.free@[m] by {
                    assert(of@[m] == ofpre[m]);
                    assert(other.free@.subrange(0, oflen as int)[m] == other.free@[m]);
                }
                assert(of@ =~= other.free@.subrange(0, of@.len() as int));
                assert(other.has_index(x));
                assert(!fpre.contains(x)) by {
                    if fpre.contains(x) {
                        let m = choose|m: int| 0 <= m < fpre.len() && fpre[m] == x;
                        if m < pre.free@.len() {
                            assert(pre.has_index(x));
                            lemma_disjoint_not_shared(pre, other, x);
                        } else {
                            let j = nf - 1 - (m - pre.free@.len());
                            assert(other.free@[j] == x);
                            assert(j > oflen - 1);
                            assert(other.free@.no_duplicates());
                        }
                    }
                }
            }
            self.free.push(x);
            proof {
                lemma_push_no_duplicates_u64(fpre, x);
            }
        }
        proof {
            let post = *self;
            // Index coverage and entries of the combined allocator.
            assert(post.wf_blocks()) by {
                assert forall|i: int| 0 <= i < post.blocks@.len() implies
                    (#[trigger] post.blocks@[i]).entries@.len() <= BLOCK_SPAN
                        && post.blocks@[i].base + BLOCK_SPAN <= u64::MAX + 1 by {
                    if i >= n0 {
                        assert(block_cleared(post.blocks@[i], oblocks[i - n0]));
                        assert(other.wf_blocks());
                    }
                }
                assert forall|i: int, j: int|
                    0 <= i < post.blocks@.len() && 0 <= j < post.blocks@.len() && i != j implies
                    blocks_disjoint(#[trigger] post.blocks@[i], #[trigger] post.blocks@[j]) by {
                    if i >= n0 {
                        assert(block_cleared(post.blocks@[i], oblocks[i - n0]));
                    }
                    if j >= n0 {
                        assert(block_cleared(post.blocks@[j], oblocks[j - n0]));
                    }
                }
            }
            assert forall|i: u64| #[trigger] post.has_index(i)
                == (pre.has_index(i) || other.has_index(i)) by {
                if pre.has_index(i) {
                    let k = pre.block_of(i);
                    assert(block_contains(post.blocks@[k], i));
                    post.lemma_block_unique(i, k);
                }
                if other.has_index(i) {
                    let k = other.block_of(i);
                    assert(block_cleared(post.blocks@[n0 + k], oblocks[k]));
                    assert(block_contains(post.blocks@[n0 + k], i));
                    post.lemma_block_unique(i, n0 + k);
                }
                if post.has_index(i) {
                    let k = post.block_of(i);
                    if k < n0 {
                        pre.lemma_block_unique(i, k);
                    } else {
                        assert(block_cleared(post.blocks@[k], oblocks[k - n0]));
                        assert(block_contains(other.blocks@[k - n0], i));
                        other.lemma_block_unique(i, k - n0);
                    }
                }
            }
            assert forall|i: u64| pre.has_index(i) implies
                #[trigger] post.entry_of(i) == pre.entry_of(i) by {
                let k = pre.block_of(i);
                assert(block_contains(post.blocks@[k], i));
                post.lemma_block_unique(i, k);
            }
            assert forall|i: u64| other.has_index(i) implies
                #[trigger] post.entry_of(i)
                    == (EntityEntry { located: false, ..other.entry_of(i) }) by {
                let k = other.block_of(i);
                assert(block_cleared(post.blocks@[n0 + k], oblocks[k]));
                assert(block_contains(post.blocks@[n0 + k], i));
                post.lemma_block_unique(i, n0 + k);
            }
            assert forall|k: int| 0 <= k < post.free@.len() implies
                post.has_index(#[trigger] post.free@[k])
                    && !post.entry_of(post.free@[k]).alive by {
                if k < pre.free@.len() {
                    assert(pre.has_index(post.free@[k]));
                } else {
                    assert(post.free@[k] == other.free@[nf - 1 - (k - pre.free@.len())]);
                    assert(other.has_index(post.free@[k]));
                }
            }
            assert forall|e: Entity| #[trigger] post.spec_is_alive(e)
                == (pre.spec_is_alive(e) || other.spec_is_alive(e)) by {
                if pre.has_index(e.index) {
                    lemma_disjoint_not_shared(pre, other, e.index);
                }
            }
        }
    }

    /// The entities created by the batch since the buffer was last cleared.
    pub fn allocation_buffer(&self) -> (r: &Vec<Entity>)
        ensures
            r@ == self.buffer@,
    {
        &self.buffer
    }

    /// Empties the allocation buffer ahead of a new batch.
    pub fn clear_allocation_buffer(&mut self)
        ensures
            final(self).blocks@ == old(self).blocks@,
            final(self).free@ == old(self).free@,
            final(self).buffer@ == Seq::<Entity>::empty(),
            final(self).wf() == old(self).wf(),
            forall|e: Entity| #[trigger] final(self).spec_is_alive(e) == old(self).spec_is_alive(e),
            forall|i: u64| #[trigger] final(self).has_index(i) == old(self).has_index(i),
            forall|i: u64| old(self).has_index(i)
                ==> #[trigger] final(self).entry_of(i) == old(self).entry_of(i),
    {
        let ghost pre = *self;
        self.buffer.clear();
        proof {
            assert forall|i: u64| #[trigger] self.has_index(i) == pre.has_index(i) by {
                if pre.has_index(i) {
                    let k = pre.block_of(i);
                    assert(block_contains(self.blocks@[k], i));
                    assert(self.has_index(i));
                }
                if self.has_index(i) {
                    let k = self.block_of(i);
                    assert(block_contains(pre.blocks@[k], i));
                    assert(pre.has_index(i));
                }
            }
            assert forall|i: u64| pre.has_index(i) implies
                #[trigger] self.entry_of(i) == pre.entry_of(i) by {
                let k = self.block_of(i);
                assert(block_contains(pre.blocks@[k], i));
                let k2 = pre.block_of(i);
                assert(block_contains(self.blocks@[k2], i));
            }
        }
    }
}

} // verus!
