//! Identifiers for archetypes and chunks, the signature side-tables, and the
//! storage that owns every archetype of a world.

use vstd::prelude::*;
use crate::meta::ComponentTypeId;
use crate::meta::TagTypeId;
use crate::world::WorldId;

verus! {

/// Unique ID of an archetype: the world it belongs to and its index there.
#[derive(Clone, Copy, PartialEq, Eq, Structural, Debug, Hash)]
pub struct ArchetypeId(pub WorldId, pub usize);

impl ArchetypeId {
    pub fn new(world_id: WorldId, index: usize) -> (r: ArchetypeId)
        ensures
            r == ArchetypeId(world_id, index),
    {
        ArchetypeId(world_id, index)
    }

    pub fn index(self) -> (r: usize)
        ensures
            r == self.1,
    {
        self.1
    }

    pub fn world(self) -> (r: WorldId)
        ensures
            r == self.0,
    {
        self.0
    }
}

/// Unique ID of a chunk: its archetype, its chunk-set's ordinal, and its
/// index within the set.
#[derive(Clone, Copy, PartialEq, Eq, Structural, Debug, Hash)]
pub struct ChunkId(pub ArchetypeId, pub usize, pub usize);

impl ChunkId {
    pub fn new(archetype: ArchetypeId, set: usize, index: usize) -> (r: ChunkId)
        ensures
            r == ChunkId(archetype, set, index),
    {
        ChunkId(archetype, set, index)
    }

    pub fn archetype_id(&self) -> (r: ArchetypeId)
        ensures
            r == self.0,
    {
        self.0
    }

    pub fn set(&self) -> (r: usize)
        ensures
            r == self.1,
    {
        self.1
    }

    pub fn index(&self) -> (r: usize)
        ensures
            r == self.2,
    {
        self.2
    }
}

/// A vector of slices stored inline: slice `i` holds `counts[i]` elements of
/// `data`, immediately after the elements of the slices before it.
pub struct SliceVec<T> {
    pub data: Vec<T>,
    pub counts: Vec<usize>,
}

/// Total number of elements covered by `counts`.
pub open spec fn counts_total(counts: Seq<usize>) -> int
    decreases counts.len(),
{
    if counts.len() == 0 {
        0
    } else {
        counts_total(counts.drop_last()) + counts.last()
    }
}

/// Element count of the first `i` slices: where slice `i` starts in `data`.
pub open spec fn slice_start(counts: Seq<usize>, i: int) -> int {
    counts_total(counts.subrange(0, i))
}

/// A prefix of the counts never covers more elements than the whole.
pub proof fn lemma_counts_total_prefix(counts: Seq<usize>, i: int)
    requires
        0 <= i <= counts.len(),
    ensures
        counts_total(counts.subrange(0, i)) <= counts_total(counts),
        i < counts.len()
            ==> counts_total(counts.subrange(0, i)) + counts[i]
                <= counts_total(counts),
        counts_total(counts.subrange(0, i)) >= 0,
        i < counts.len()
            ==> counts_total(counts.subrange(0, i + 1))
                == counts_total(counts.subrange(0, i)) + counts[i],
    decreases counts.len(),
{
    if counts.len() == 0 {
        assert(counts.subrange(0, i) =~= counts);
    } else if i == counts.len() {
        assert(counts.subrange(0, i) =~= counts);
        lemma_counts_total_prefix(counts.drop_last(), i - 1);
        assert(counts.drop_last().subrange(0, i - 1) =~= counts.drop_last());
    } else {
        lemma_counts_total_prefix(counts.drop_last(), i);
        assert(counts.drop_last().subrange(0, i) =~= counts.subrange(0, i));
        if i < counts.len() - 1 {
            assert(counts.drop_last().subrange(0, i + 1) =~= counts.subrange(0, i + 1));
            assert(counts.drop_last()[i] == counts[i]);
        } else {
            assert(counts.subrange(0, i + 1) =~= counts);
        }
    }
}

impl<T: Copy> SliceVec<T> {
    /// All slices together cover `data` exactly.
    pub open spec fn wf(self) -> bool {
        counts_total(self.counts@) == self.data@.len()
    }

    /// The elements of slice `i`.
    pub open spec fn slice_seq(self, i: int) -> Seq<T> {
        self.data@.subrange(
            slice_start(self.counts@, i),
            slice_start(self.counts@, i) + self.counts@[i],
        )
    }

    pub fn new() -> (r: SliceVec<T>)
        ensures
            r.wf(),
            r.counts@.len() == 0,
            r.data@.len() == 0,
    {
        SliceVec { data: Vec::new(), counts: Vec::new() }
    }

    /// The number of slices stored.
    pub fn len(&self) -> (r: usize)
        ensures
            r == self.counts@.len(),
    {
        self.counts.len()
    }

    /// Whether no slice is stored.
    pub fn is_empty(&self) -> (r: bool)
        ensures
            r == (self.counts@.len() == 0),
    {
        self.len() < 1
    }

    /// Appends the elements of `items` as one new slice.
    pub fn push(&mut self, items: &Vec<T>)
        requires
            old(self).wf(),
        ensures
            final(self).wf(),
            final(self).counts@.len() == old(self).counts@.len() + 1,
            forall|i: int| 0 <= i < old(self).counts@.len()
                ==> #[trigger] final(self).slice_seq(i) == old(self).slice_seq(i),
            final(self).slice_seq(old(self).counts@.len() as int) == items@,
            final(self).counts@[old(self).counts@.len() as int] == items@.len(),
            forall|i: int| 0 <= i < old(self).counts@.len()
                ==> #[trigger] final(self).counts@[i] == old(self).counts@[i],
    {
        let ghost pre = *self;
        let n = items.len();
        let mut count: usize = 0;
        while count < n
            invariant
                n == items@.len(),
                count <= n,
                self.counts@ == pre.counts@,
                self.data@ == pre.data@ + items@.subrange(0, count as int),
            decreases n - count,
        {
            self.data.push(items[count]);
            count += 1;
            proof {
                assert(self.data@ =~= pre.data@ + items@.subrange(0, count as int));
            }
        }
        self.counts.push(count);
        proof {
            assert(self.data@ =~= pre.data@ + items@);
            let post = *self;
            let m = pre.counts@.len() as int;
            assert(post.counts@.drop_last() =~= pre.counts@);
            assert(counts_total(post.counts@)
                == counts_total(pre.counts@) + items@.len());
            assert(post.wf());
            assert forall|i: int| 0 <= i < m implies
                #[trigger] post.slice_seq(i) == pre.slice_seq(i) by {
                assert(post.counts@.subrange(0, i) =~= pre.counts@.subrange(0, i));
                lemma_counts_total_prefix(pre.counts@, i);
                assert forall|j: int|
                    slice_start(pre.counts@, i) <= j
                        < slice_start(pre.counts@, i) + pre.counts@[i] implies
                    post.data@[j] == pre.data@[j] by {}
                assert(post.slice_seq(i) =~= pre.slice_seq(i));
            }
            assert(post.counts@.subrange(0, m) =~= pre.counts@);
            assert(post.slice_seq(m) =~= items@);
        }
    }

    /// The length of slice `i`.
    pub fn slice_len(&self, i: usize) -> (r: usize)
        requires
            i < self.counts@.len(),
        ensures
            r == self.counts@[i as int],
    {
        self.counts[i]
    }

    /// Element `j` of slice `i`.
    pub fn get(&self, i: usize, j: usize) -> (r: T)
        requires
            self.wf(),
            i < self.counts@.len(),
            j < self.counts@[i as int],
        ensures
            r == self.slice_seq(i as int)[j as int],
    {
        let dlen = self.data.len();
        let mut start: usize = 0;
        let mut k: usize = 0;
        while k < i
            invariant
                self.wf(),
                i < self.counts@.len(),
                k <= i,
                start == slice_start(self.counts@, k as int),
                dlen == self.data@.len(),
                start <= dlen,
            decreases i - k,
        {
            proof {
                lemma_counts_total_prefix(self.counts@, k as int);
                lemma_counts_total_prefix(self.counts@, k + 1);
                assert(slice_start(self.counts@, k as int) + self.counts@[k as int]
                    <= self.data@.len());
            }
            start = start + self.counts[k];
            k += 1;
        }
        proof {
            lemma_counts_total_prefix(self.counts@, i as int);
            assert(slice_start(self.counts@, i as int) + self.counts@[i as int]
                <= self.data@.len());
        }
        self.data[start + j]
    }
}

/// The component-type signature of each archetype, side by side: slice `i`
/// lists the component types of archetype `i`.
pub struct ComponentTypes(pub SliceVec<ComponentTypeId>);

impl ComponentTypes {
    pub fn new() -> (r: ComponentTypes)
        ensures
            r.0.wf(),
            r.0.counts@.len() == 0,
    {
        ComponentTypes(SliceVec::new())
    }

    /// Gets the number of slices stored within the set.
    pub fn len(&self) -> (r: usize)
        ensures
            r == self.0.counts@.len(),
    {
        self.0.len()
    }

    /// Determines if the set is empty.
    pub fn is_empty(&self) -> (r: bool)
        ensures
            r == (self.0.counts@.len() == 0),
    {
        self.len() < 1
    }
}

/// The component type ids of a description, as typed ids in registration
/// order.
pub open spec fn desc_comp_id_seq(d: crate::meta::ArchetypeDescription) -> Seq<ComponentTypeId> {
    d.components@.map_values(|p: (ComponentTypeId, crate::meta::ComponentMeta)| p.0)
}

/// The tag type ids of a description, as typed ids in registration order.
pub open spec fn desc_tag_id_seq(d: crate::meta::ArchetypeDescription) -> Seq<TagTypeId> {
    d.tags@.map_values(|p: (TagTypeId, crate::meta::TagMeta)| p.0)
}

/// The tag-type signature of each archetype, side by side: slice `i` lists
/// the tag types of archetype `i`.
pub struct TagTypes(pub SliceVec<TagTypeId>);

impl TagTypes {
    pub fn new() -> (r: TagTypes)
        ensures
            r.0.wf(),
            r.0.counts@.len() == 0,
    {
        TagTypes(SliceVec::new())
    }

    /// Gets the number of slices stored within the set.
    pub fn len(&self) -> (r: usize)
        ensures
            r == self.0.counts@.len(),
    {
        self.0.len()
    }

    /// Determines if the set is empty.
    pub fn is_empty(&self) -> (r: bool)
        ensures
            r == (self.0.counts@.len() == 0),
    {
        self.len() < 1
    }
}

/// Stores all entity data for a world: its archetypes, plus the two
/// signature side-tables that mirror each archetype's component and tag
/// types so that matching can scan signatures without touching archetype
/// bodies.
pub struct Storage {
    pub world_id: WorldId,
    pub component_types: ComponentTypes,
    pub tag_types: TagTypes,
    pub archetypes: Vec<crate::archetype::ArchetypeData>,
}

impl Storage {
    /// Structural invariant: every archetype is well-formed, numbered by its
    /// index, and mirrored exactly by the side-tables.
    pub open spec fn wf(self) -> bool {
        &&& self.component_types.0.wf()
        &&& self.tag_types.0.wf()
        &&& self.component_types.0.counts@.len() == self.archetypes@.len()
        &&& self.tag_types.0.counts@.len() == self.archetypes@.len()
        &&& forall|a: int| 0 <= a < self.archetypes@.len()
                ==> (#[trigger] self.archetypes@[a]).wf()
        &&& forall|a: int| 0 <= a < self.archetypes@.len()
                ==> (#[trigger] self.archetypes@[a]).id == ArchetypeId(self.world_id, a as usize)
        &&& forall|a: int| 0 <= a < self.archetypes@.len()
                ==> #[trigger] self.component_types.0.slice_seq(a)
                    == desc_comp_id_seq(self.archetypes@[a].desc)
        &&& forall|a: int| 0 <= a < self.archetypes@.len()
                ==> #[trigger] self.tag_types.0.slice_seq(a)
                    == desc_tag_id_seq(self.archetypes@[a].desc)
    }

    /// Creates an empty `Storage`.
    pub fn new(world_id: WorldId) -> (r: Storage)
        ensures
            r.wf(),
            r.world_id == world_id,
            r.archetypes@.len() == 0,
    {
        Storage {
            world_id,
            component_types: ComponentTypes::new(),
            tag_types: TagTypes::new(),
            archetypes: Vec::new(),
        }
    }

    /// Creates a new archetype for `desc` and appends it, updating the
    /// signature side-tables. Returns the new archetype's index.
    pub fn alloc_archetype(&mut self, desc: crate::meta::ArchetypeDescription) -> (index: usize)
        requires
            old(self).wf(),
            desc.wf(),
            crate::archetype::layout_ok(
                desc.components@,
                crate::archetype::spec_capacity(desc.components@),
            ),
        ensures
            final(self).wf(),
            final(self).world_id == old(self).world_id,
            index == old(self).archetypes@.len(),
            final(self).archetypes@.len() == old(self).archetypes@.len() + 1,
            forall|a: int| 0 <= a < old(self).archetypes@.len()
                ==> #[trigger] final(self).archetypes@[a] == old(self).archetypes@[a],
            final(self).archetypes@[index as int].wf(),
            final(self).archetypes@[index as int].desc == desc,
            final(self).archetypes@[index as int].chunk_sets@.len() == 0,
    {
        let ghost pre = *self;
        let index = self.archetypes.len();
        let mut cids: Vec<ComponentTypeId> = Vec::new();
        let n = desc.components.len();
        let mut i: usize = 0;
        while i < n
            invariant
                n == desc.components@.len(),
                i <= n,
                cids@ == desc_comp_id_seq(desc).subrange(0, i as int),
            decreases n - i,
        {
            cids.push(desc.components[i].0);
            proof {
                assert(cids@ =~= desc_comp_id_seq(desc).subrange(0, i + 1));
            }
            i += 1;
        }
        proof {
            assert(cids@ =~= desc_comp_id_seq(desc));
        }
        let mut tids: Vec<TagTypeId> = Vec::new();
        let m = desc.tags.len();
        let mut j: usize = 0;
        while j < m
            invariant
                m == desc.tags@.len(),
                j <= m,
                tids@ == desc_tag_id_seq(desc).subrange(0, j as int),
            decreases m - j,
        {
            tids.push(desc.tags[j].0);
            proof {
                assert(tids@ =~= desc_tag_id_seq(desc).subrange(0, j + 1));
            }
            j += 1;
        }
        proof {
            assert(tids@ =~= desc_tag_id_seq(desc));
        }
        self.component_types.0.push(&cids);
        self.tag_types.0.push(&tids);
        let arch = crate::archetype::ArchetypeData::new(
            ArchetypeId::new(self.world_id, index),
            desc,
        );
        self.archetypes.push(arch);
        index
    }

    /// Gets a vector of slices of all component types for all archetypes.
    pub fn component_types(&self) -> (r: &ComponentTypes)
        ensures
            r.0 == self.component_types.0,
    {
        &self.component_types
    }

    /// Gets a vector of slices of all tag types for all archetypes.
    pub fn tag_types(&self) -> (r: &TagTypes)
        ensures
            r.0 == self.tag_types.0,
    {
        &self.tag_types
    }

    /// Gets a reference to all archetypes.
    pub fn archetypes(&self) -> (r: &Vec<crate::archetype::ArchetypeData>)
        ensures
            r@ == self.archetypes@,
    {
        &self.archetypes
    }
}

} // verus!
