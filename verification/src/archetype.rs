//! Archetypes: tag storage, chunk layout planning, chunk-sets, and the
//! archetype data that owns them.
//!
//! An archetype fixes one combination of component and tag types. Its tag
//! values are kept densely, one vector per tag type, indexed by chunk-set
//! ordinal: all chunks of one chunk-set share the tag values stored at the
//! set's ordinal. The chunk memory plan (capacity and per-type offsets) is
//! computed once from the description.

use vstd::prelude::*;
use crate::entity::Entity;
use crate::dict::dict_find;
use crate::dict::dict_has;
use crate::dict::dict_idx;
use crate::dict::dict_insert;
use crate::dict::dict_sorted;
use crate::dict::dict_val;
use crate::dict::dict_val_mut;
use crate::dict::lemma_dict_idx;
use crate::meta::ArchetypeDescription;
use crate::meta::ComponentMeta;
use crate::meta::ComponentTypeId;
use crate::meta::TagMeta;
use crate::meta::TagTypeId;
use crate::meta::copy_bytes;
use crate::meta::ENTITY_DATA_SIZE;
use crate::meta::MAX_CHUNK_SIZE;
use crate::meta::COMPONENT_STORAGE_ALIGNMENT;
use crate::meta::spec_align_up;
use crate::meta::align_up;
use crate::meta::comp_ids;
use crate::meta::tag_ids;
use crate::chunk::ComponentAccessor;
use crate::chunk::ComponentStorage;
use crate::storage::ArchetypeId;
use crate::storage::ChunkId;

verus! {

/// A dense vector of erased tag values of one type: element `s` is the value
/// shared by every chunk of chunk-set `s`. Non-zero-sized storage grows by
/// doubling from an initial capacity of four; zero-sized values occupy no
/// bytes so capacity is unbounded.
pub struct TagStorage {
    pub element: TagMeta,
    pub capacity: usize,
    pub data: Vec<Vec<u8>>,
}

impl TagStorage {
    /// Every value has the element size; the stored count never exceeds the
    /// capacity.
    pub open spec fn wf(self) -> bool {
        &&& forall|i: int| 0 <= i < self.data@.len()
                ==> (#[trigger] self.data@[i])@.len() == self.element.size
        &&& self.element.size == 0 ==> self.capacity == usize::MAX
        &&& self.element.size > 0 ==> self.capacity >= 4
        &&& self.data@.len() <= self.capacity
    }

    /// The stored values as byte strings.
    pub open spec fn values(self) -> Seq<Seq<u8>> {
        self.data@.map_values(|v: Vec<u8>| v@)
    }

    /// An empty storage for values described by `element`.
    pub fn new(element: TagMeta) -> (r: TagStorage)
        ensures
            r.wf(),
            r.element == element,
            r.data@.len() == 0,
    {
        let capacity = if element.size == 0 {
            usize::MAX
        } else {
            4
        };
        TagStorage { element, capacity, data: Vec::new() }
    }

    /// Gets the element metadata.
    pub fn element(&self) -> (r: &TagMeta)
        ensures
            *r == self.element,
    {
        &self.element
    }

    /// Gets the number of tags contained within the vector.
    pub fn len(&self) -> (r: usize)
        ensures
            r == self.data@.len(),
    {
        self.data.len()
    }

    /// Determines if the vector is empty.
    pub fn is_empty(&self) -> (r: bool)
        ensures
            r == (self.data@.len() == 0),
    {
        self.len() < 1
    }

    /// Appends a value, doubling the capacity when it is exhausted.
    pub fn push(&mut self, value: Vec<u8>)
        requires
            old(self).wf(),
            value@.len() == old(self).element.size,
        ensures
            final(self).wf(),
            final(self).element == old(self).element,
            final(self).data@ == old(self).data@.push(value),
    {
        if self.element.size > 0 && self.data.len() == self.capacity {
            self.grow();
        }
        self.data.push(value);
        proof {
            vstd::std_specs::vec::axiom_spec_len(&self.data);
        }
    }

    /// Doubles the capacity of a non-zero-sized storage, saturating at the
    /// address-space limit.
    fn grow(&mut self)
        requires
            old(self).wf(),
            old(self).element.size > 0,
        ensures
            final(self).wf(),
            final(self).element == old(self).element,
            final(self).data@ == old(self).data@,
            final(self).capacity > final(self).data@.len() || final(self).capacity == usize::MAX,
    {
        if self.capacity <= usize::MAX / 2 {
            self.capacity = self.capacity * 2;
        } else {
            self.capacity = usize::MAX;
        }
    }

    /// The value at ordinal `i`.
    pub fn get(&self, i: usize) -> (r: &Vec<u8>)
        requires
            i < self.data@.len(),
        ensures
            r@ == self.data@[i as int]@,
    {
        &self.data[i]
    }

    /// The stored values, in ordinal order.
    pub fn data_slice(&self) -> (r: &Vec<Vec<u8>>)
        ensures
            r@ == self.data@,
    {
        &self.data
    }

    /// Removes and returns the last value.
    pub fn pop(&mut self) -> (r: Vec<u8>)
        requires
            old(self).wf(),
            old(self).data@.len() > 0,
        ensures
            final(self).wf(),
            final(self).element == old(self).element,
            final(self).data@ == old(self).data@.drop_last(),
            r@ == old(self).data@.last()@,
    {
        match self.data.pop() {
            Some(v) => v,
            None => {
                proof {
                    assert(false);
                }
                Vec::new()
            }
        }
    }
}

/// The largest component size among the first `i` registered components.
pub open spec fn spec_max_size(s: Seq<(ComponentTypeId, ComponentMeta)>, i: int) -> int
    decreases i,
{
    if i <= 0 {
        0
    } else {
        let prev = spec_max_size(s, i - 1);
        let cur = s[i - 1].1.size as int;
        if cur > prev {
            cur
        } else {
            prev
        }
    }
}

/// How many entities one chunk of this component set holds: the chunk byte
/// budget divided by the largest element (component or entity handle), and
/// at least one.
pub open spec fn spec_capacity(s: Seq<(ComponentTypeId, ComponentMeta)>) -> int {
    let m = spec_max_size(s, s.len() as int);
    let d = if m > ENTITY_DATA_SIZE {
        m
    } else {
        ENTITY_DATA_SIZE as int
    };
    let c = MAX_CHUNK_SIZE as int / d;
    if c < 1 {
        1
    } else {
        c
    }
}

/// The end of the chunk buffer after laying out the first `i` component
/// slices: each slice starts at the previous end rounded up to the chunk
/// alignment floor and then to the component's own alignment, and spans
/// `size * capacity` bytes.
pub open spec fn spec_offset_end(
    s: Seq<(ComponentTypeId, ComponentMeta)>,
    cap: int,
    i: int,
) -> int
    decreases i,
{
    if i <= 0 {
        0
    } else {
        spec_align_up(
            spec_align_up(spec_offset_end(s, cap, i - 1), COMPONENT_STORAGE_ALIGNMENT as int),
            s[i - 1].1.align as int,
        ) + s[i - 1].1.size * cap
    }
}

/// The byte offset of component slice `i` in the chunk buffer.
pub open spec fn spec_offset(s: Seq<(ComponentTypeId, ComponentMeta)>, cap: int, i: int) -> int {
    spec_align_up(
        spec_align_up(spec_offset_end(s, cap, i), COMPONENT_STORAGE_ALIGNMENT as int),
        s[i].1.align as int,
    )
}

/// Offsets are non-negative and grow along the layout.
pub proof fn lemma_offsets_nonneg(s: Seq<(ComponentTypeId, ComponentMeta)>, cap: int, i: int)
    requires
        cap >= 0,
        0 <= i <= s.len(),
        forall|j: int| 0 <= j < s.len() ==> (#[trigger] s[j]).1.align >= 1,
    ensures
        spec_offset_end(s, cap, i) >= 0,
        i < s.len() ==> spec_offset(s, cap, i) >= spec_offset_end(s, cap, i),
        i > 0 ==> spec_offset_end(s, cap, i - 1) <= spec_offset_end(s, cap, i),
    decreases i,
{
    if i > 0 {
        lemma_offsets_nonneg(s, cap, i - 1);
        crate::meta::lemma_align_up(
            spec_offset_end(s, cap, i - 1),
            COMPONENT_STORAGE_ALIGNMENT as int,
        );
        crate::meta::lemma_align_up(
            spec_align_up(spec_offset_end(s, cap, i - 1), COMPONENT_STORAGE_ALIGNMENT as int),
            s[i - 1].1.align as int,
        );
        assert(s[i - 1].1.size * cap >= 0) by (nonlinear_arith)
            requires
                s[i - 1].1.size >= 0,
                cap >= 0,
        ;
    }
    if 0 <= i < s.len() {
        crate::meta::lemma_align_up(
            spec_offset_end(s, cap, i),
            COMPONENT_STORAGE_ALIGNMENT as int,
        );
        crate::meta::lemma_align_up(
            spec_align_up(spec_offset_end(s, cap, i), COMPONENT_STORAGE_ALIGNMENT as int),
            s[i].1.align as int,
        );
    }
}

/// Laying out component slice `i` stays within the address space.
pub open spec fn step_ok(s: Seq<(ComponentTypeId, ComponentMeta)>, cap: int, i: int) -> bool {
    &&& spec_offset_end(s, cap, i) + COMPONENT_STORAGE_ALIGNMENT - 1 <= usize::MAX
    &&& spec_align_up(spec_offset_end(s, cap, i), COMPONENT_STORAGE_ALIGNMENT as int)
            + s[i].1.align - 1 <= usize::MAX
    &&& spec_offset(s, cap, i) + s[i].1.size * cap <= usize::MAX
}

/// The whole chunk layout stays within the address space. This is the one
/// machine limit a description must satisfy before an archetype can be built
/// from it.
pub open spec fn layout_ok(s: Seq<(ComponentTypeId, ComponentMeta)>, cap: int) -> bool {
    forall|i: int| 0 <= i < s.len() ==> #[trigger] step_ok(s, cap, i)
}

/// Describes the data layout for a chunk: its entity capacity, the size of
/// its single backing allocation, and each component's offset in it.
pub struct ComponentStorageLayout {
    pub capacity: usize,
    pub alloc_size: usize,
    pub data_layout: Vec<(ComponentTypeId, usize, ComponentMeta)>,
}

impl ComponentStorageLayout {
    /// The layout is exactly the plan computed from `desc`.
    pub open spec fn matches_desc(self, desc: ArchetypeDescription) -> bool {
        &&& self.capacity == spec_capacity(desc.components@)
        &&& self.data_layout@.len() == desc.components@.len()
        &&& forall|i: int| 0 <= i < desc.components@.len()
                ==> (#[trigger] self.data_layout@[i]).0 == desc.components@[i].0
                    && self.data_layout@[i].1
                        == spec_offset(desc.components@, self.capacity as int, i)
                    && self.data_layout@[i].2 == desc.components@[i].1
        &&& self.alloc_size
                == spec_offset_end(desc.components@, self.capacity as int, desc.components@.len() as int)
    }

    /// The maximum number of entities that can be stored in each chunk.
    pub fn capacity(&self) -> (r: usize)
        ensures
            r == self.capacity,
    {
        self.capacity
    }

    /// The components in each chunk: type, byte offset, metadata.
    pub fn components(&self) -> (r: &Vec<(ComponentTypeId, usize, ComponentMeta)>)
        ensures
            r@ == self.data_layout@,
    {
        &self.data_layout
    }

    /// Builds the chunk memory plan for `desc`: capacity from the chunk byte
    /// budget, then one aligned offset per component in registration order.
    pub fn plan(desc: &ArchetypeDescription) -> (r: ComponentStorageLayout)
        requires
            desc.wf(),
            layout_ok(desc.components@, spec_capacity(desc.components@)),
        ensures
            r.matches_desc(*desc),
            r.capacity >= 1,
    {
        let ghost s = desc.components@;
        let n = desc.components.len();
        let mut max_size: usize = 0;
        let mut k: usize = 0;
        while k < n
            invariant
                n == desc.components@.len(),
                k <= n,
                max_size == spec_max_size(desc.components@, k as int),
            decreases n - k,
        {
            let sz = desc.components[k].1.size;
            if sz > max_size {
                max_size = sz;
            }
            k += 1;
        }
        let divisor = if max_size > ENTITY_DATA_SIZE {
            max_size
        } else {
            ENTITY_DATA_SIZE
        };
        let q = MAX_CHUNK_SIZE / divisor;
        let capacity = if q < 1 {
            1
        } else {
            q
        };
        proof {
            assert(capacity == spec_capacity(s));
        }
        let mut offset: usize = 0;
        let mut data_layout: Vec<(ComponentTypeId, usize, ComponentMeta)> = Vec::new();
        let mut i: usize = 0;
        while i < n
            invariant
                desc.wf(),
                layout_ok(s, capacity as int),
                s == desc.components@,
                capacity == spec_capacity(s),
                capacity >= 1,
                n == desc.components@.len(),
                i <= n,
                offset == spec_offset_end(s, capacity as int, i as int),
                data_layout@.len() == i,
                forall|j: int| 0 <= j < i
                    ==> (#[trigger] data_layout@[j]).0 == s[j].0
                        && data_layout@[j].1 == spec_offset(s, capacity as int, j)
                        && data_layout@[j].2 == s[j].1,
            decreases n - i,
        {
            let meta = desc.components[i].1;
            proof {
                assert(step_ok(s, capacity as int, i as int));
                lemma_offsets_nonneg(s, capacity as int, i as int);
            }
            let aligned = align_up(offset, COMPONENT_STORAGE_ALIGNMENT);
            let aligned = align_up(aligned, meta.align);
            data_layout.push((desc.components[i].0, aligned, meta));
            proof {
                assert(aligned == spec_offset(s, capacity as int, i as int));
                assert(meta.size * capacity >= 0) by (nonlinear_arith)
                    requires
                        meta.size >= 0,
                        capacity >= 0,
                ;
                assert(spec_offset_end(s, capacity as int, i + 1)
                    == spec_offset(s, capacity as int, i as int)
                        + s[i as int].1.size * (capacity as int));
            }
            offset = aligned + meta.size * capacity;
            i += 1;
        }
        ComponentStorageLayout { capacity, alloc_size: offset, data_layout }
    }

    /// Creates an empty, unallocated chunk laid out to this plan: one column
    /// per component, sorted by type id, each with version zero and its
    /// change flag clear.
    pub fn alloc_storage(&self, id: ChunkId) -> (c: ComponentStorage)
        requires
            self.capacity >= 1,
            self.data_layout@.map_values(
                |p: (ComponentTypeId, usize, ComponentMeta)| p.0.0).no_duplicates(),
        ensures
            c.wf(),
            c.id == id,
            c.capacity == self.capacity,
            c.entities@.len() == 0,
            !c.allocated,
            c.components@.len() == self.data_layout@.len(),
            forall|t: u64| #[trigger] c.has_type(t)
                == exists|j: int|
                    0 <= j < self.data_layout@.len() && (#[trigger] self.data_layout@[j]).0.0 == t,
            forall|j: int| 0 <= j < self.data_layout@.len()
                ==> c.has_type((#[trigger] self.data_layout@[j]).0.0)
                    && dict_val(c.components@, self.data_layout@[j].0.0).element_size
                        == self.data_layout@[j].2.size
                    && dict_val(c.components@, self.data_layout@[j].0.0).version == 0
                    && !dict_val(c.components@, self.data_layout@[j].0.0).changed,
    {
        let ghost keys = self.data_layout@.map_values(
            |p: (ComponentTypeId, usize, ComponentMeta)| p.0.0);
        let n = self.data_layout.len();
        let mut components: Vec<(u64, ComponentAccessor)> = Vec::new();
        let mut k: usize = 0;
        while k < n
            invariant
                n == self.data_layout@.len(),
                keys == self.data_layout@.map_values(
                    |p: (ComponentTypeId, usize, ComponentMeta)| p.0.0),
                keys.no_duplicates(),
                k <= n,
                dict_sorted(components@),
                components@.len() == k,
                forall|t: u64| #[trigger] dict_has(components@, t)
                    == exists|j: int| 0 <= j < k && keys[j] == t,
                forall|j: int| 0 <= j < k
                    ==> dict_has(components@, #[trigger] keys[j])
                        && dict_val(components@, keys[j]).element_size
                            == self.data_layout@[j].2.size
                        && dict_val(components@, keys[j]).version == 0
                        && !dict_val(components@, keys[j]).changed
                        && dict_val(components@, keys[j]).data@.len() == 0,
                forall|p: int| 0 <= p < components@.len()
                    ==> (#[trigger] components@[p]).1.data@.len() == 0
                        && components@[p].1.wf(),
            decreases n - k,
        {
            let ghost cpre = components@;
            let t = self.data_layout[k].0.0;
            let meta = self.data_layout[k].2;
            proof {
                assert(keys[k as int] == t);
                if dict_has(components@, t) {
                    let j = choose|j: int| 0 <= j < k && keys[j] == t;
                    assert(keys[j] == keys[k as int]);
                }
            }
            let acc = ComponentAccessor {
                element_size: meta.size,
                data: Vec::new(),
                version: 0,
                changed: false,
            };
            let ghost accg = acc;
            dict_insert(&mut components, t, acc);
            k += 1;
            proof {
                assert forall|t2: u64| #[trigger] dict_has(components@, t2)
                    == exists|j: int| 0 <= j < k && keys[j] == t2 by {
                    if dict_has(components@, t2) {
                        if t2 == t {
                            assert(keys[k - 1] == t2);
                        }
                    }
                    if exists|j: int| 0 <= j < k && keys[j] == t2 {
                        let j = choose|j: int| 0 <= j < k && keys[j] == t2;
                        if j < k - 1 {
                            assert(dict_has(components@, t2));
                        } else {
                            assert(t2 == t);
                        }
                    }
                }
                assert forall|p: int| 0 <= p < components@.len() implies
                    (#[trigger] components@[p]).1.data@.len() == 0
                        && components@[p].1.wf() by {
                    if components@[p] != (t, accg) {
                        assert(cpre.contains(components@[p]));
                        let q = choose|q: int| 0 <= q < cpre.len() && cpre[q] == components@[p];
                    }
                }
            }
        }
        let c = ComponentStorage {
            id,
            capacity: self.capacity,
            entities: Vec::new(),
            components,
            allocated: false,
        };
        proof {
            assert forall|j: int| 0 <= j < self.data_layout@.len() implies
                c.has_type((#[trigger] self.data_layout@[j]).0.0)
                    && dict_val(c.components@, self.data_layout@[j].0.0).element_size
                        == self.data_layout@[j].2.size
                    && dict_val(c.components@, self.data_layout@[j].0.0).version == 0
                    && !dict_val(c.components@, self.data_layout@[j].0.0).changed by {
                assert(keys[j] == self.data_layout@[j].0.0);
                assert(dict_has(components@, keys[j]));
            }
        }
        c
    }
}

/// The tag storages of one archetype, sorted by tag type id. All storages
/// have the same length: the archetype's chunk-set count.
pub struct Tags {
    pub data: Vec<(u64, TagStorage)>,
}

impl Tags {
    /// Sorted, with well-formed storages.
    pub open spec fn wf(self) -> bool {
        &&& dict_sorted(self.data@)
        &&& forall|k: int| 0 <= k < self.data@.len()
                ==> (#[trigger] self.data@[k]).1.wf()
    }

    /// Every storage holds exactly `n` values (one per chunk-set).
    pub open spec fn all_len(self, n: int) -> bool {
        forall|k: int| 0 <= k < self.data@.len()
            ==> (#[trigger] self.data@[k]).1.data@.len() == n
    }

    /// The tag-value assignment of chunk-set `s`: tag type to value.
    pub open spec fn tuple_at(self, s: int) -> Map<u64, Seq<u8>> {
        Map::new(
            |t: u64| dict_has(self.data@, t),
            |t: u64| dict_val(self.data@, t).data@[s]@,
        )
    }

    /// Chunk-sets `s1` and `s2` carry bytewise-equal values for every tag
    /// type.
    pub open spec fn tuples_equal(self, s1: int, s2: int) -> bool {
        forall|k: int| 0 <= k < self.data@.len()
            ==> (#[trigger] self.data@[k]).1.data@[s1]@ == self.data@[k].1.data@[s2]@
    }

    /// Gets the set of tag values of the specified type attached to all
    /// chunk-sets.
    pub fn get(&self, type_id: TagTypeId) -> (r: Option<&TagStorage>)
        requires
            self.wf(),
        ensures
            match r {
                Some(s) => dict_has(self.data@, type_id.0)
                    && *s == dict_val(self.data@, type_id.0),
                None => !dict_has(self.data@, type_id.0),
            },
    {
        match dict_find(&self.data, type_id.0) {
            Some(i) => Some(&self.data[i].1),
            None => None,
        }
    }

    /// Appends one value to every storage, in storage (sorted) order:
    /// registers the tag values of a new chunk-set.
    pub fn push_values(&mut self, values: &Vec<(u64, Vec<u8>)>)
        requires
            old(self).wf(),
            values@.len() == old(self).data@.len(),
            forall|k: int| 0 <= k < values@.len()
                ==> (#[trigger] values@[k]).0 == old(self).data@[k].0
                    && values@[k].1@.len() == old(self).data@[k].1.element.size,
        ensures
            final(self).wf(),
            final(self).data@.len() == old(self).data@.len(),
            forall|k: int| 0 <= k < old(self).data@.len()
                ==> (#[trigger] final(self).data@[k]).0 == old(self).data@[k].0
                    && final(self).data@[k].1.element == old(self).data@[k].1.element
                    && final(self).data@[k].1.values()
                        == old(self).data@[k].1.values().push(values@[k].1@),
    {
        let ghost pre = *self;
        let n = self.data.len();
        let mut k: usize = 0;
        while k < n
            invariant
                n == self.data@.len(),
                n == pre.data@.len(),
                k <= n,
                values@.len() == n,
                forall|m: int| 0 <= m < n
                    ==> (#[trigger] values@[m]).0 == pre.data@[m].0
                        && values@[m].1@.len() == pre.data@[m].1.element.size,
                forall|m: int| 0 <= m < n ==> (#[trigger] pre.data@[m]).1.wf(),
                forall|m: int| k <= m < n
                    ==> #[trigger] self.data@[m] == pre.data@[m],
                forall|m: int| 0 <= m < k
                    ==> (#[trigger] self.data@[m]).0 == pre.data@[m].0
                        && self.data@[m].1.wf()
                        && self.data@[m].1.element == pre.data@[m].1.element
                        && self.data@[m].1.values()
                            == pre.data@[m].1.values().push(values@[m].1@),
            decreases n - k,
        {
            let v = copy_bytes(&values[k].1);
            let ghost vview = v@;
            let st = dict_val_mut(&mut self.data, k);
            let ghost stpre = *st;
            st.push(v);
            proof {
                assert(st.values() =~= stpre.values().push(vview));
            }
            k += 1;
        }
        proof {
            assert(dict_sorted(self.data@)) by {
                assert forall|i: int, j: int| 0 <= i < j < self.data@.len() implies
                    (#[trigger] self.data@[i]).0 < (#[trigger] self.data@[j]).0 by {
                    assert(self.data@[i].0 == pre.data@[i].0);
                    assert(self.data@[j].0 == pre.data@[j].0);
                }
            }
        }
    }

    /// Removes the last value of every storage: un-registers the last
    /// chunk-set's tag values. Returns them in storage order.
    pub fn pop_values(&mut self) -> (r: Vec<(u64, Vec<u8>)>)
        requires
            old(self).wf(),
            forall|k: int| 0 <= k < old(self).data@.len()
                ==> (#[trigger] old(self).data@[k]).1.data@.len() > 0,
        ensures
            final(self).wf(),
            final(self).data@.len() == old(self).data@.len(),
            r@.len() == old(self).data@.len(),
            forall|k: int| 0 <= k < old(self).data@.len()
                ==> (#[trigger] final(self).data@[k]).0 == old(self).data@[k].0
                    && final(self).data@[k].1.element == old(self).data@[k].1.element
                    && final(self).data@[k].1.data@
                        == old(self).data@[k].1.data@.drop_last(),
            forall|k: int| 0 <= k < r@.len()
                ==> (#[trigger] r@[k]).0 == old(self).data@[k].0
                    && r@[k].1@ == old(self).data@[k].1.data@.last()@,
    {
        let ghost pre = *self;
        let n = self.data.len();
        let mut r: Vec<(u64, Vec<u8>)> = Vec::new();
        let mut k: usize = 0;
        while k < n
            invariant
                n == self.data@.len(),
                n == pre.data@.len(),
                k <= n,
                r@.len() == k,
                forall|m: int| 0 <= m < n
                    ==> (#[trigger] pre.data@[m]).1.wf()
                        && pre.data@[m].1.data@.len() > 0,
                forall|m: int| k <= m < n
                    ==> #[trigger] self.data@[m] == pre.data@[m],
                forall|m: int| 0 <= m < k
                    ==> (#[trigger] self.data@[m]).0 == pre.data@[m].0
                        && self.data@[m].1.wf()
                        && self.data@[m].1.element == pre.data@[m].1.element
                        && self.data@[m].1.data@
                            == pre.data@[m].1.data@.drop_last(),
                forall|m: int| 0 <= m < k
                    ==> (#[trigger] r@[m]).0 == pre.data@[m].0
                        && r@[m].1@ == pre.data@[m].1.data@.last()@,
            decreases n - k,
        {
            let t = self.data[k].0;
            let st = dict_val_mut(&mut self.data, k);
            let v = st.pop();
            r.push((t, v));
            k += 1;
        }
        proof {
            assert(dict_sorted(self.data@)) by {
                assert forall|i: int, j: int| 0 <= i < j < self.data@.len() implies
                    (#[trigger] self.data@[i]).0 < (#[trigger] self.data@[j]).0 by {
                    assert(self.data@[i].0 == pre.data@[i].0);
                    assert(self.data@[j].0 == pre.data@[j].0);
                }
            }
        }
        r
    }
}

/// The chunks of one archetype that share one tag-value assignment.
pub struct Chunkset {
    pub chunks: Vec<ComponentStorage>,
}

/// Chunks `c1` and `c2` have the same column layout: equally many columns,
/// with equal type ids and element sizes, and equal capacity.
pub open spec fn same_chunk_layout(c1: ComponentStorage, c2: ComponentStorage) -> bool {
    &&& c1.capacity == c2.capacity
    &&& c1.components@.len() == c2.components@.len()
    &&& forall|k: int| 0 <= k < c1.components@.len()
            ==> (#[trigger] c1.components@[k]).0 == c2.components@[k].0
                && c1.components@[k].1.element_size == c2.components@[k].1.element_size
}

impl Chunkset {
    /// Every chunk is well-formed and all share one column layout.
    pub open spec fn wf(self) -> bool {
        &&& forall|c: int| 0 <= c < self.chunks@.len()
                ==> (#[trigger] self.chunks@[c]).wf()
        &&& forall|c1: int, c2: int|
                0 <= c1 < self.chunks@.len() && 0 <= c2 < self.chunks@.len()
                    ==> same_chunk_layout(
                        #[trigger] self.chunks@[c1],
                        #[trigger] self.chunks@[c2],
                    )
    }

    /// Compaction is done: every chunk strictly before a non-empty chunk is
    /// full, so the occupied chunks form a packed prefix.
    pub open spec fn spec_defragmented(self) -> bool {
        forall|f: int, l: int|
            0 <= f < l < self.chunks@.len() && (#[trigger] self.chunks@[l]).entities@.len() > 0
                ==> (#[trigger] self.chunks@[f]).entities@.len() >= self.chunks@[f].capacity
    }

    pub fn new() -> (r: Chunkset)
        ensures
            r.wf(),
            r.chunks@.len() == 0,
    {
        Chunkset { chunks: Vec::new() }
    }

    /// Pushes a new chunk into the set.
    pub fn push(&mut self, chunk: ComponentStorage)
        ensures
            final(self).chunks@ == old(self).chunks@.push(chunk),
    {
        self.chunks.push(chunk);
    }

    /// The number of chunks in the set.
    pub fn len(&self) -> (r: usize)
        ensures
            r == self.chunks@.len(),
    {
        self.chunks.len()
    }

    /// The length of the occupied prefix: the least `n` such that every
    /// chunk at or beyond `n` is empty.
    pub fn occupied_len(&self) -> (r: usize)
        ensures
            r <= self.chunks@.len(),
            forall|c: int| r <= c < self.chunks@.len()
                ==> (#[trigger] self.chunks@[c]).entities@.len() == 0,
            r > 0 ==> self.chunks@[r - 1].entities@.len() > 0,
    {
        let mut len = self.chunks.len();
        while len > 0
            invariant
                len <= self.chunks@.len(),
                forall|c: int| len <= c < self.chunks@.len()
                    ==> (#[trigger] self.chunks@[c]).entities@.len() == 0,
            decreases len,
        {
            if self.chunks[len - 1].len() > 0 {
                return len;
            }
            len -= 1;
        }
        len
    }

    /// Whether the set is already compact: every chunk strictly before a
    /// non-empty chunk is full.
    pub fn is_compact(&self) -> (r: bool)
        ensures
            r == self.spec_defragmented(),
    {
        let occ = self.occupied_len();
        if occ == 0 {
            return true;
        }
        let l = occ - 1;
        let mut f: usize = 0;
        while f < l
            invariant
                l < self.chunks@.len(),
                self.chunks@[l as int].entities@.len() > 0,
                f <= l,
                forall|c: int| 0 <= c < f
                    ==> (#[trigger] self.chunks@[c]).entities@.len()
                        >= self.chunks@[c].capacity,
                forall|c: int| occ <= c < self.chunks@.len()
                    ==> (#[trigger] self.chunks@[c]).entities@.len() == 0,
            decreases l - f,
        {
            if !self.chunks[f].is_full() {
                return false;
            }
            f += 1;
        }
        proof {
            assert forall|f2: int, l2: int|
                0 <= f2 < l2 < self.chunks@.len()
                    && (#[trigger] self.chunks@[l2]).entities@.len() > 0 implies
                (#[trigger] self.chunks@[f2]).entities@.len()
                    >= self.chunks@[f2].capacity by {
                assert(l2 <= l);
            }
        }
        true
    }

    /// Moves one entity from the last non-empty chunk into the first
    /// non-full chunk before it, when the set is not yet compact. Returns
    /// the moved entity, the index of the chunk it moved into, its new slot
    /// there, and the index of the chunk it left; `None` means the set is
    /// already defragmented.
    pub fn defrag_step(&mut self) -> (r: Option<(Entity, usize, usize, usize)>)
        requires
            old(self).wf(),
        ensures
            final(self).wf(),
            final(self).chunks@.len() == old(self).chunks@.len(),
            r is None ==> *final(self) == *old(self) && old(self).spec_defragmented(),
            match r {
                Some((e, f, pos, l)) => {
                    &&& 0 <= f < l < old(self).chunks@.len()
                    &&& old(self).chunks@[l as int].entities@.len() > 0
                    &&& old(self).chunks@[f as int].entities@.len()
                            < old(self).chunks@[f as int].capacity
                    &&& e == old(self).chunks@[l as int].entities@.last()
                    &&& pos == old(self).chunks@[f as int].entities@.len()
                    &&& forall|c: int| 0 <= c < old(self).chunks@.len() && c != f && c != l
                            ==> #[trigger] final(self).chunks@[c] == old(self).chunks@[c]
                    &&& final(self).chunks@[f as int].components@.len()
                            == old(self).chunks@[f as int].components@.len()
                    &&& final(self).chunks@[l as int].components@.len()
                            == old(self).chunks@[l as int].components@.len()
                    &&& final(self).chunks@[f as int].entities@
                            == old(self).chunks@[f as int].entities@.push(e)
                    &&& forall|k: int| 0 <= k < old(self).chunks@[f as int].components@.len()
                            ==> (#[trigger] final(self).chunks@[f as int].components@[k]).0
                                    == old(self).chunks@[f as int].components@[k].0
                                && final(self).chunks@[f as int].components@[k].1.element_size
                                    == old(self).chunks@[f as int].components@[k]
                                        .1.element_size
                                && final(self).chunks@[f as int].components@[k].1.values()
                                    == old(self).chunks@[f as int].components@[k].1.values()
                                        .push(old(self).chunks@[l as int].components@[k]
                                            .1.data@.last()@)
                    &&& final(self).chunks@[l as int].entities@
                            == old(self).chunks@[l as int].entities@.drop_last()
                    &&& forall|k: int| 0 <= k < old(self).chunks@[l as int].components@.len()
                            ==> (#[trigger] final(self).chunks@[l as int].components@[k]).0
                                    == old(self).chunks@[l as int].components@[k].0
                                && final(self).chunks@[l as int].components@[k].1.element_size
                                    == old(self).chunks@[l as int].components@[k]
                                        .1.element_size
                                && final(self).chunks@[l as int].components@[k].1.data@
                                    == old(self).chunks@[l as int].components@[k].1.data@
                                        .drop_last()
                    &&& final(self).chunks@[f as int].id == old(self).chunks@[f as int].id
                    &&& final(self).chunks@[l as int].id == old(self).chunks@[l as int].id
                    &&& final(self).chunks@[f as int].capacity
                            == old(self).chunks@[f as int].capacity
                    &&& final(self).chunks@[l as int].capacity
                            == old(self).chunks@[l as int].capacity
                }
                None => true,
            },
    {
        let ghost pre = *self;
        let occ = self.occupied_len();
        if occ == 0 {
            return None;
        }
        let l = occ - 1;
        let mut f: usize = 0;
        let mut found = false;
        while f < l && !found
            invariant
                self.wf(),
                *self == pre,
                l < self.chunks@.len(),
                f <= l,
                !found ==> forall|c: int| 0 <= c < f
                    ==> (#[trigger] self.chunks@[c]).entities@.len()
                        >= self.chunks@[c].capacity,
                found ==> f < l && self.chunks@[f as int].entities@.len()
                    < self.chunks@[f as int].capacity,
            decreases l - f + (if found { 0int } else { 1int }),
        {
            if !self.chunks[f].is_full() {
                found = true;
            } else {
                f += 1;
            }
        }
        if !found {
            proof {
                assert forall|f2: int, l2: int|
                    0 <= f2 < l2 < self.chunks@.len()
                        && (#[trigger] self.chunks@[l2]).entities@.len() > 0 implies
                    (#[trigger] self.chunks@[f2]).entities@.len()
                        >= self.chunks@[f2].capacity by {
                    assert(l2 <= l);
                }
            }
            return None;
        }
        let mut src = self.chunks.remove(l);
        let n = src.len();
        proof {
            assert(same_chunk_layout(pre.chunks@[l as int], pre.chunks@[f as int]));
            assert(self.chunks@[f as int] == pre.chunks@[f as int]);
        }
        let e = src.entities[n - 1];
        let tgt: &mut ComponentStorage = &mut self.chunks[f];
        let pos = tgt.len();
        let moved = src.move_entity(tgt, n - 1);
        proof {
            assert(moved is None);
        }
        self.chunks.insert(l, src);
        proof {
            let post = *self;
            assert forall|c: int| 0 <= c < pre.chunks@.len() && c != f && c != l implies
                #[trigger] post.chunks@[c] == pre.chunks@[c] by {
                if c < l {
                    assert(post.chunks@[c] == pre.chunks@.remove(l as int)[c]);
                } else {
                    assert(post.chunks@[c] == pre.chunks@.remove(l as int)[c - 1]);
                }
            }
            assert(post.chunks@[l as int].entities@
                == pre.chunks@[l as int].entities@.drop_last()) by {
                assert(pre.chunks@[l as int].entities@
                    .update(n - 1, pre.chunks@[l as int].entities@.last()).drop_last()
                    =~= pre.chunks@[l as int].entities@.drop_last());
            }
            assert forall|k: int| 0 <= k < pre.chunks@[l as int].components@.len() implies
                (#[trigger] post.chunks@[l as int].components@[k]).0
                        == pre.chunks@[l as int].components@[k].0
                    && post.chunks@[l as int].components@[k].1.data@
                        == pre.chunks@[l as int].components@[k].1.data@.drop_last() by {
                let d0 = pre.chunks@[l as int].components@[k].1.data@;
                assert(post.chunks@[l as int].components@[k].1.data@
                    == d0.update(n - 1, d0.last()).drop_last());
                assert(d0.update(n - 1, d0.last()).drop_last() =~= d0.drop_last());
            }
            assert(post.wf()) by {
                assert forall|c: int| 0 <= c < post.chunks@.len() implies
                    (#[trigger] post.chunks@[c]).wf() by {
                    if c != f && c != l {
                        assert(post.chunks@[c] == pre.chunks@[c]);
                    }
                }
                assert forall|c1: int, c2: int|
                    0 <= c1 < post.chunks@.len() && 0 <= c2 < post.chunks@.len() implies
                    same_chunk_layout(
                        #[trigger] post.chunks@[c1],
                        #[trigger] post.chunks@[c2],
                    ) by {
                    assert(same_chunk_layout(pre.chunks@[c1], pre.chunks@[c2]));
                    if c1 != f && c1 != l {
                        assert(post.chunks@[c1] == pre.chunks@[c1]);
                    }
                    if c2 != f && c2 != l {
                        assert(post.chunks@[c2] == pre.chunks@[c2]);
                    }
                }
            }
        }
        Some((e, f, pos, l))
    }
}

/// The largest size among the first `i` components bounds each of them.
proof fn lemma_max_size_ge(s: Seq<(ComponentTypeId, ComponentMeta)>, i: int, k: int)
    requires
        0 <= k < i <= s.len(),
    ensures
        s[k].1.size <= spec_max_size(s, i),
    decreases i,
{
    if k + 1 < i {
        lemma_max_size_ge(s, i - 1, k);
    }
}

/// The planned chunk buffer grows by at most a bounded amount per
/// component slice.
proof fn lemma_layout_small_rec(s: Seq<(ComponentTypeId, ComponentMeta)>, cap: int, i: int)
    requires
        0 <= i <= s.len(),
        1 <= cap,
        forall|k: int| 0 <= k < s.len()
            ==> 1 <= (#[trigger] s[k]).1.align <= COMPONENT_STORAGE_ALIGNMENT,
        forall|k: int| 0 <= k < s.len() ==> (#[trigger] s[k]).1.size * cap <= MAX_CHUNK_SIZE,
    ensures
        0 <= spec_offset_end(s, cap, i) <= i * (MAX_CHUNK_SIZE + 126),
    decreases i,
{
    if i > 0 {
        lemma_layout_small_rec(s, cap, i - 1);
        crate::meta::lemma_align_up(
            spec_offset_end(s, cap, i - 1),
            COMPONENT_STORAGE_ALIGNMENT as int,
        );
        crate::meta::lemma_align_up(
            spec_align_up(spec_offset_end(s, cap, i - 1), COMPONENT_STORAGE_ALIGNMENT as int),
            s[i - 1].1.align as int,
        );
        assert(s[i - 1].1.size * cap >= 0) by (nonlinear_arith)
            requires
                s[i - 1].1.size >= 0,
                cap >= 1,
        ;
        assert((i - 1) * (MAX_CHUNK_SIZE + 126) + (MAX_CHUNK_SIZE + 126)
            == i * (MAX_CHUNK_SIZE + 126)) by (nonlinear_arith);
    }
}

/// Every ordinary description fits the address space: when each component
/// is at most the chunk byte budget in size, at most chunk-aligned, and the
/// description is not absurdly long, the planned layout satisfies
/// `layout_ok`. Callers use this to discharge the layout machine limit of
/// the description-changing operations.
pub proof fn lemma_layout_ok_small(s: Seq<(ComponentTypeId, ComponentMeta)>)
    requires
        s.len() <= 65536,
        forall|k: int| 0 <= k < s.len()
            ==> 1 <= (#[trigger] s[k]).1.align <= COMPONENT_STORAGE_ALIGNMENT,
        forall|k: int| 0 <= k < s.len() ==> (#[trigger] s[k]).1.size <= MAX_CHUNK_SIZE,
    ensures
        layout_ok(s, spec_capacity(s)),
{
    let cap = spec_capacity(s);
    let m = spec_max_size(s, s.len() as int);
    let d = if m > ENTITY_DATA_SIZE {
        m
    } else {
        ENTITY_DATA_SIZE as int
    };
    assert(1 <= cap);
    // Each slice spans at most the chunk byte budget.
    assert forall|k: int| 0 <= k < s.len() implies
        (#[trigger] s[k]).1.size * cap <= MAX_CHUNK_SIZE by {
        lemma_max_size_ge(s, s.len() as int, k);
        assert(s[k].1.size <= d);
        if MAX_CHUNK_SIZE as int / d < 1 {
            assert(cap == 1);
        } else {
            assert(cap == MAX_CHUNK_SIZE as int / d);
            vstd::arithmetic::div_mod::lemma_fundamental_div_mod(
                MAX_CHUNK_SIZE as int, d);
            vstd::arithmetic::div_mod::lemma_mod_bound(MAX_CHUNK_SIZE as int, d);
            assert(d * cap <= MAX_CHUNK_SIZE);
            assert(s[k].1.size * cap <= d * cap) by (nonlinear_arith)
                requires
                    s[k].1.size <= d,
                    cap >= 0,
            ;
        }
    }
    assert forall|i: int| 0 <= i < s.len() implies #[trigger] step_ok(s, cap, i) by {
        lemma_layout_small_rec(s, cap, i);
        lemma_layout_small_rec(s, cap, i + 1);
        crate::meta::lemma_align_up(
            spec_offset_end(s, cap, i),
            COMPONENT_STORAGE_ALIGNMENT as int,
        );
        crate::meta::lemma_align_up(
            spec_align_up(spec_offset_end(s, cap, i), COMPONENT_STORAGE_ALIGNMENT as int),
            s[i].1.align as int,
        );
        assert(i * (MAX_CHUNK_SIZE + 126) <= 65536 * (MAX_CHUNK_SIZE + 126))
            by (nonlinear_arith)
            requires
                0 <= i <= 65536,
        ;
        assert((i + 1) * (MAX_CHUNK_SIZE + 126) <= 65537 * (MAX_CHUNK_SIZE + 126))
            by (nonlinear_arith)
            requires
                0 <= i + 1 <= 65537,
        ;
    }
}

/// Stores all entity data for one archetype: its description, the chunk
/// memory plan computed from it, its tag storages, and its chunk-sets.
pub struct ArchetypeData {
    pub id: ArchetypeId,
    pub desc: ArchetypeDescription,
    pub tags: Tags,
    pub component_layout: ComponentStorageLayout,
    pub chunk_sets: Vec<Chunkset>,
}

impl ArchetypeData {
    /// Chunk `c` is laid out for this archetype: well-formed, with the
    /// planned capacity, and one column per described component type with
    /// the described size.
    pub open spec fn chunk_matches(self, c: ComponentStorage) -> bool {
        &&& c.wf()
        &&& c.capacity == self.component_layout.capacity
        &&& c.components@.len() == self.desc.components@.len()
        &&& forall|i: int| 0 <= i < self.desc.components@.len()
                ==> c.has_type((#[trigger] self.desc.components@[i]).0.0)
                    && dict_val(c.components@, self.desc.components@[i].0.0).element_size
                        == self.desc.components@[i].1.size
    }

    /// The tag storages carry exactly the described tag types, with the
    /// described metadata.
    pub open spec fn tags_match(self) -> bool {
        &&& self.tags.wf()
        &&& self.tags.data@.len() == self.desc.tags@.len()
        &&& forall|i: int| 0 <= i < self.desc.tags@.len()
                ==> dict_has(self.tags.data@, (#[trigger] self.desc.tags@[i]).0.0)
                    && dict_val(self.tags.data@, self.desc.tags@[i].0.0).element
                        == self.desc.tags@[i].1
    }

    /// Structural invariant of an archetype: a well-formed description whose
    /// layout fits in memory, the plan computed from it, matching tag
    /// storages with one value per chunk-set, matching chunks carrying their
    /// own ids, and pairwise-distinct chunk-set tag assignments.
    pub open spec fn wf(self) -> bool {
        &&& self.desc.wf()
        &&& layout_ok(self.desc.components@, spec_capacity(self.desc.components@))
        &&& self.component_layout.matches_desc(self.desc)
        &&& self.component_layout.capacity >= 1
        &&& self.tags_match()
        &&& self.tags.all_len(self.chunk_sets@.len() as int)
        &&& forall|s: int| 0 <= s < self.chunk_sets@.len()
                ==> (#[trigger] self.chunk_sets@[s]).wf()
        &&& forall|s: int, c: int|
                0 <= s < self.chunk_sets@.len()
                    && 0 <= c < self.chunk_sets@[s].chunks@.len()
                    ==> self.chunk_matches(#[trigger] self.chunk_sets@[s].chunks@[c])
                        && self.chunk_sets@[s].chunks@[c].id == ChunkId(self.id, s as usize, c as usize)
        &&& forall|s1: int, s2: int|
                0 <= s1 < s2 < self.chunk_sets@.len()
                    ==> !self.tags.tuples_equal(s1, s2)
    }

    /// Creates an empty archetype for `desc`: tag storages for each
    /// described tag type, the chunk plan, and no chunk-sets yet.
    pub fn new(id: ArchetypeId, desc: ArchetypeDescription) -> (r: ArchetypeData)
        requires
            desc.wf(),
            layout_ok(desc.components@, spec_capacity(desc.components@)),
        ensures
            r.wf(),
            r.id == id,
            r.desc == desc,
            r.chunk_sets@.len() == 0,
    {
        let ghost keys = tag_ids(desc.tags@);
        let layout = ComponentStorageLayout::plan(&desc);
        let n = desc.tags.len();
        let mut tags: Vec<(u64, TagStorage)> = Vec::new();
        let mut k: usize = 0;
        while k < n
            invariant
                n == desc.tags@.len(),
                keys == tag_ids(desc.tags@),
                keys.no_duplicates(),
                forall|i: int| 0 <= i < n ==> (#[trigger] desc.tags@[i]).1.align >= 1,
                k <= n,
                dict_sorted(tags@),
                tags@.len() == k,
                forall|t: u64| #[trigger] dict_has(tags@, t)
                    == exists|j: int| 0 <= j < k && keys[j] == t,
                forall|j: int| 0 <= j < k
                    ==> dict_has(tags@, #[trigger] keys[j])
                        && dict_val(tags@, keys[j]).element == desc.tags@[j].1
                        && dict_val(tags@, keys[j]).data@.len() == 0,
                forall|p: int| 0 <= p < tags@.len()
                    ==> (#[trigger] tags@[p]).1.wf() && tags@[p].1.data@.len() == 0,
            decreases n - k,
        {
            let t = desc.tags[k].0.0;
            let meta = desc.tags[k].1;
            proof {
                assert(keys[k as int] == t);
                if dict_has(tags@, t) {
                    let j = choose|j: int| 0 <= j < k && keys[j] == t;
                    assert(keys[j] == keys[k as int]);
                }
            }
            let ghost tpre = tags@;
            let st = TagStorage::new(meta);
            let ghost stg = st;
            dict_insert(&mut tags, t, st);
            k += 1;
            proof {
                assert forall|t2: u64| #[trigger] dict_has(tags@, t2)
                    == exists|j: int| 0 <= j < k && keys[j] == t2 by {
                    if dict_has(tags@, t2) {
                        if t2 == t {
                            assert(keys[k - 1] == t2);
                        }
                    }
                    if exists|j: int| 0 <= j < k && keys[j] == t2 {
                        let j = choose|j: int| 0 <= j < k && keys[j] == t2;
                        if j < k - 1 {
                            assert(dict_has(tags@, t2));
                        } else {
                            assert(t2 == t);
                        }
                    }
                }
                assert forall|p: int| 0 <= p < tags@.len() implies
                    (#[trigger] tags@[p]).1.wf() && tags@[p].1.data@.len() == 0 by {
                    if tags@[p] != (t, stg) {
                        assert(tpre.contains(tags@[p]));
                        let q = choose|q: int| 0 <= q < tpre.len() && tpre[q] == tags@[p];
                    }
                }
            }
        }
        let r = ArchetypeData {
            id,
            desc,
            tags: Tags { data: tags },
            component_layout: layout,
            chunk_sets: Vec::new(),
        };
        proof {
            assert forall|i: int| 0 <= i < r.desc.tags@.len() implies
                dict_has(r.tags.data@, (#[trigger] r.desc.tags@[i]).0.0)
                    && dict_val(r.tags.data@, r.desc.tags@[i].0.0).element
                        == r.desc.tags@[i].1 by {
                assert(keys[i] == r.desc.tags@[i].0.0);
            }
        }
        r
    }

    /// Gets the unique ID of this archetype.
    pub fn id(&self) -> (r: ArchetypeId)
        ensures
            r == self.id,
    {
        self.id
    }

    /// Gets the number of chunk sets stored within this archetype.
    pub fn len(&self) -> (r: usize)
        ensures
            r == self.chunk_sets@.len(),
    {
        self.chunk_sets.len()
    }

    /// Determines whether this archetype has any chunk sets.
    pub fn is_empty(&self) -> (r: bool)
        ensures
            r == (self.chunk_sets@.len() == 0),
    {
        self.len() < 1
    }

    /// Gets the tag storage for all chunks in the archetype.
    pub fn tags(&self) -> (r: &Tags)
        ensures
            *r == self.tags,
    {
        &self.tags
    }

    /// Gets a description of the component and tag types in the archetype.
    pub fn description(&self) -> (r: &ArchetypeDescription)
        ensures
            *r == self.desc,
    {
        &self.desc
    }

    /// Gets the chunk sets of the archetype.
    pub fn chunksets(&self) -> (r: &Vec<Chunkset>)
        ensures
            r@ == self.chunk_sets@,
    {
        &self.chunk_sets
    }

    /// The tag values of the candidate chunk-set `vals` (given per storage
    /// in storage order) equal those of chunk-set `s`.
    pub open spec fn values_match_set(self, vals: Seq<(u64, Vec<u8>)>, s: int) -> bool {
        forall|k: int| 0 <= k < self.tags.data@.len()
            ==> (#[trigger] self.tags.data@[k]).1.data@[s]@ == vals[k].1@
    }

    /// Allocates a new chunk set with the given tag values (one per tag
    /// storage, in storage order). Requires that no existing set carries the
    /// same values, so chunk-set tag assignments stay pairwise distinct.
    /// Returns the index of the new set.
    pub fn alloc_chunk_set(&mut self, values: &Vec<(u64, Vec<u8>)>) -> (s: usize)
        requires
            old(self).wf(),
            values@.len() == old(self).tags.data@.len(),
            forall|k: int| 0 <= k < values@.len()
                ==> (#[trigger] values@[k]).0 == old(self).tags.data@[k].0
                    && values@[k].1@.len() == old(self).tags.data@[k].1.element.size,
            forall|s: int| 0 <= s < old(self).chunk_sets@.len()
                ==> !(#[trigger] old(self).values_match_set(values@, s)),
        ensures
            final(self).wf(),
            final(self).id == old(self).id,
            final(self).desc == old(self).desc,
            final(self).component_layout == old(self).component_layout,
            s == old(self).chunk_sets@.len(),
            final(self).chunk_sets@.len() == old(self).chunk_sets@.len() + 1,
            forall|s2: int| 0 <= s2 < old(self).chunk_sets@.len()
                ==> #[trigger] final(self).chunk_sets@[s2] == old(self).chunk_sets@[s2],
            final(self).chunk_sets@[s as int].chunks@.len() == 0,
            final(self).tags.data@.len() == old(self).tags.data@.len(),
            forall|k: int| 0 <= k < old(self).tags.data@.len()
                ==> (#[trigger] final(self).tags.data@[k]).0 == old(self).tags.data@[k].0
                    && final(self).tags.data@[k].1.element == old(self).tags.data@[k].1.element
                    && final(self).tags.data@[k].1.values()
                        == old(self).tags.data@[k].1.values().push(values@[k].1@),
    {
        let ghost pre = *self;
        let s = self.chunk_sets.len();
        self.tags.push_values(values);
        self.chunk_sets.push(Chunkset::new());
        proof {
            let post = *self;
            let ghost n = pre.chunk_sets@.len() as int;
            assert forall|k: int| 0 <= k < post.tags.data@.len() implies
                (#[trigger] post.tags.data@[k]).1.data@.len() == post.chunk_sets@.len() by {
                assert(post.tags.data@[k].1.values().len()
                    == pre.tags.data@[k].1.values().len() + 1);
                assert(pre.tags.data@[k].1.data@.len() == n);
            }
            assert forall|i: int| 0 <= i < post.desc.tags@.len() implies
                dict_has(post.tags.data@, (#[trigger] post.desc.tags@[i]).0.0)
                    && dict_val(post.tags.data@, post.desc.tags@[i].0.0).element
                        == post.desc.tags@[i].1 by {
                assert(dict_has(pre.tags.data@, post.desc.tags@[i].0.0));
                let k = dict_idx(pre.tags.data@, post.desc.tags@[i].0.0);
                lemma_dict_idx(pre.tags.data@, post.desc.tags@[i].0.0, k);
                assert(post.tags.data@[k].0 == pre.tags.data@[k].0);
                lemma_dict_idx(post.tags.data@, post.desc.tags@[i].0.0, k);
            }
            assert forall|s1: int, s2: int|
                0 <= s1 < s2 < post.chunk_sets@.len() implies
                !post.tags.tuples_equal(s1, s2) by {
                if s2 < n {
                    assert(!pre.tags.tuples_equal(s1, s2));
                    let k = choose|k: int|
                        0 <= k < pre.tags.data@.len()
                            && (#[trigger] pre.tags.data@[k]).1.data@[s1]@
                                != pre.tags.data@[k].1.data@[s2]@;
                    assert(post.tags.data@[k].1.values()
                        == pre.tags.data@[k].1.values().push(values@[k].1@));
                    assert(pre.tags.data@[k].1.data@.len() == n);
                    assert(post.tags.data@[k].1.values()[s1]
                        == pre.tags.data@[k].1.values()[s1]);
                    assert(post.tags.data@[k].1.values()[s1]
                        == post.tags.data@[k].1.data@[s1]@);
                    assert(pre.tags.data@[k].1.values()[s1]
                        == pre.tags.data@[k].1.data@[s1]@);
                    assert(post.tags.data@[k].1.values()[s2]
                        == post.tags.data@[k].1.data@[s2]@);
                    assert(pre.tags.data@[k].1.values()[s2]
                        == pre.tags.data@[k].1.data@[s2]@);
                } else {
                    // The new set differs from every earlier set in some tag.
                    assert(!pre.values_match_set(values@, s1));
                    let k = choose|k: int|
                        0 <= k < pre.tags.data@.len()
                            && (#[trigger] pre.tags.data@[k]).1.data@[s1]@
                                != values@[k].1@;
                    assert(post.tags.data@[k].1.values()
                        == pre.tags.data@[k].1.values().push(values@[k].1@));
                    assert(pre.tags.data@[k].1.data@.len() == n);
                    assert(post.tags.data@[k].1.values()[s1]
                        == pre.tags.data@[k].1.values()[s1]);
                    assert(post.tags.data@[k].1.values()[s1]
                        == post.tags.data@[k].1.data@[s1]@);
                    assert(pre.tags.data@[k].1.values()[s1]
                        == pre.tags.data@[k].1.data@[s1]@);
                    assert(post.tags.data@[k].1.values()[s2] == values@[k].1@);
                    assert(post.tags.data@[k].1.values()[s2]
                        == post.tags.data@[k].1.data@[s2]@);
                }
            }
            assert forall|s2: int, c: int|
                0 <= s2 < post.chunk_sets@.len()
                    && 0 <= c < post.chunk_sets@[s2].chunks@.len() implies
                post.chunk_matches(#[trigger] post.chunk_sets@[s2].chunks@[c])
                    && post.chunk_sets@[s2].chunks@[c].id
                        == ChunkId(post.id, s2 as usize, c as usize) by {
                assert(s2 < n);
                assert(post.chunk_sets@[s2] == pre.chunk_sets@[s2]);
                assert(pre.chunk_matches(pre.chunk_sets@[s2].chunks@[c]));
            }
        }
        s
    }

    /// Finds the index of a chunk with space for at least one entity in the
    /// given set, appending a new unallocated chunk when every existing one
    /// is full.
    pub fn get_free_chunk(&mut self, set_index: usize) -> (c: usize)
        requires
            old(self).wf(),
            set_index < old(self).chunk_sets@.len(),
        ensures
            final(self).wf(),
            final(self).id == old(self).id,
            final(self).desc == old(self).desc,
            final(self).component_layout == old(self).component_layout,
            final(self).tags == old(self).tags,
            final(self).chunk_sets@.len() == old(self).chunk_sets@.len(),
            forall|s: int| 0 <= s < old(self).chunk_sets@.len() && s != set_index
                ==> #[trigger] final(self).chunk_sets@[s] == old(self).chunk_sets@[s],
            c < final(self).chunk_sets@[set_index as int].chunks@.len(),
            final(self).chunk_sets@[set_index as int].chunks@[c as int].entities@.len()
                < final(self).chunk_sets@[set_index as int].chunks@[c as int].capacity,
            forall|c2: int| 0 <= c2 < c
                ==> (#[trigger] old(self).chunk_sets@[set_index as int].chunks@[c2])
                        .entities@.len()
                    >= old(self).chunk_sets@[set_index as int].chunks@[c2].capacity,
            forall|c2: int| 0 <= c2 < old(self).chunk_sets@[set_index as int].chunks@.len()
                ==> #[trigger] final(self).chunk_sets@[set_index as int].chunks@[c2]
                    == old(self).chunk_sets@[set_index as int].chunks@[c2],
            final(self).chunk_sets@[set_index as int].chunks@.len()
                >= old(self).chunk_sets@[set_index as int].chunks@.len(),
            final(self).chunk_sets@[set_index as int].chunks@.len()
                <= old(self).chunk_sets@[set_index as int].chunks@.len() + 1,
            forall|c2: int| old(self).chunk_sets@[set_index as int].chunks@.len() <= c2
                < final(self).chunk_sets@[set_index as int].chunks@.len()
                ==> (#[trigger] final(self).chunk_sets@[set_index as int].chunks@[c2])
                    .entities@.len() == 0,
    {
        let ghost pre = *self;
        let n = self.chunk_sets[set_index].chunks.len();
        let mut i: usize = 0;
        while i < n
            invariant
                pre.wf(),
                *self == pre,
                set_index < self.chunk_sets@.len(),
                n == self.chunk_sets@[set_index as int].chunks@.len(),
                i <= n,
                forall|c2: int| 0 <= c2 < i
                    ==> (#[trigger] self.chunk_sets@[set_index as int].chunks@[c2])
                            .entities@.len()
                        >= self.chunk_sets@[set_index as int].chunks@[c2].capacity,
            decreases n - i,
        {
            if !self.chunk_sets[set_index].chunks[i].is_full() {
                return i;
            }
            i += 1;
        }
        let id = ChunkId::new(self.id, set_index, n);
        proof {
            assert(self.component_layout.data_layout@.map_values(
                |p: (ComponentTypeId, usize, ComponentMeta)| p.0.0).no_duplicates()) by {
                let keys = self.component_layout.data_layout@.map_values(
                    |p: (ComponentTypeId, usize, ComponentMeta)| p.0.0);
                let cids = comp_ids(self.desc.components@);
                assert(keys =~= cids);
            }
        }
        let chunk = self.component_layout.alloc_storage(id);
        let ghost chunkg = chunk;
        let set: &mut Chunkset = &mut self.chunk_sets[set_index];
        set.push(chunk);
        proof {
            let post = *self;
            assert(post.chunk_sets@[set_index as int].chunks@
                == pre.chunk_sets@[set_index as int].chunks@.push(chunkg));
            assert(post.chunk_matches(chunkg)) by {
                assert forall|i2: int| 0 <= i2 < post.desc.components@.len() implies
                    chunkg.has_type((#[trigger] post.desc.components@[i2]).0.0)
                        && dict_val(chunkg.components@, post.desc.components@[i2].0.0)
                            .element_size == post.desc.components@[i2].1.size by {
                    assert(post.component_layout.data_layout@[i2].0
                        == post.desc.components@[i2].0);
                    assert(post.component_layout.data_layout@[i2].2
                        == post.desc.components@[i2].1);
                    assert(chunkg.has_type(post.component_layout.data_layout@[i2].0.0));
                }
            }
            assert forall|s2: int, c2: int|
                0 <= s2 < post.chunk_sets@.len()
                    && 0 <= c2 < post.chunk_sets@[s2].chunks@.len() implies
                post.chunk_matches(#[trigger] post.chunk_sets@[s2].chunks@[c2])
                    && post.chunk_sets@[s2].chunks@[c2].id
                        == ChunkId(post.id, s2 as usize, c2 as usize) by {
                if s2 == set_index && c2 == n {
                } else {
                    assert(post.chunk_sets@[s2].chunks@[c2]
                        == pre.chunk_sets@[s2].chunks@[c2]);
                    assert(pre.chunk_matches(pre.chunk_sets@[s2].chunks@[c2]));
                }
            }
            assert forall|s2: int| 0 <= s2 < post.chunk_sets@.len() implies
                (#[trigger] post.chunk_sets@[s2]).wf() by {
                if s2 == set_index {
                    assert forall|c1: int, c2: int|
                        0 <= c1 < post.chunk_sets@[s2].chunks@.len()
                            && 0 <= c2 < post.chunk_sets@[s2].chunks@.len() implies
                        same_chunk_layout(
                            #[trigger] post.chunk_sets@[s2].chunks@[c1],
                            #[trigger] post.chunk_sets@[s2].chunks@[c2],
                        ) by {
                        assert(post.chunk_matches(post.chunk_sets@[s2].chunks@[c1]));
                        assert(post.chunk_matches(post.chunk_sets@[s2].chunks@[c2]));
                        lemma_same_layout_of_matches(
                            post,
                            post.chunk_sets@[s2].chunks@[c1],
                            post.chunk_sets@[s2].chunks@[c2],
                        );
                    }
                    assert forall|c2: int| 0 <= c2 < post.chunk_sets@[s2].chunks@.len() implies
                        (#[trigger] post.chunk_sets@[s2].chunks@[c2]).wf() by {
                        assert(post.chunk_matches(post.chunk_sets@[s2].chunks@[c2]));
                    }
                }
            }
        }
        n
    }
}

/// Two chunks that both match one archetype's layout have the same column
/// layout as each other.
pub proof fn lemma_same_layout_of_matches(
    a: ArchetypeData,
    c1: ComponentStorage,
    c2: ComponentStorage,
)
    requires
        a.desc.wf(),
        a.chunk_matches(c1),
        a.chunk_matches(c2),
    ensures
        same_chunk_layout(c1, c2),
{
    assert forall|k: int| 0 <= k < c1.components@.len() implies
        (#[trigger] c1.components@[k]).0 == c2.components@[k].0
            && c1.components@[k].1.element_size == c2.components@[k].1.element_size by {
        lemma_chunk_cols_are_desc(a, c1);
        lemma_chunk_cols_are_desc(a, c2);
        let t = c1.components@[k].0;
        assert(desc_has_comp(a, t));
        let i = choose|i: int|
            0 <= i < a.desc.components@.len() && (#[trigger] a.desc.components@[i]).0.0 == t;
        assert(dict_has(c2.components@, t));
        let k2 = dict_idx(c2.components@, t);
        lemma_dict_idx(c1.components@, t, k);
        assert(dict_val(c1.components@, t) == c1.components@[k].1);
        // Both dictionaries have the same key set and are sorted, so the
        // keys agree position by position.
        lemma_sorted_same_keys(c1.components@, c2.components@);
        assert(c2.components@[k].0 == t);
        lemma_dict_idx(c2.components@, t, k);
        assert(c1.components@[k].1.element_size == a.desc.components@[i].1.size);
        assert(c2.components@[k].1.element_size == a.desc.components@[i].1.size);
    }
}

/// Some described component carries type id `t`.
pub open spec fn desc_has_comp(a: ArchetypeData, t: u64) -> bool {
    exists|i: int|
        0 <= i < a.desc.components@.len() && (#[trigger] a.desc.components@[i]).0.0 == t
}

/// Every column of a chunk that matches an archetype carries one of the
/// described component types.
pub proof fn lemma_chunk_cols_are_desc(a: ArchetypeData, c: ComponentStorage)
    requires
        a.desc.wf(),
        a.chunk_matches(c),
    ensures
        forall|k: int| 0 <= k < c.components@.len()
            ==> desc_has_comp(a, (#[trigger] c.components@[k]).0),
{
    broadcast use vstd::seq_lib::seq_to_set_is_finite;

    let s = c.components@;
    let keys = s.map_values(|p: (u64, ComponentAccessor)| p.0);
    let ids = comp_ids(a.desc.components@);
    assert(keys.no_duplicates()) by {
        assert forall|i: int, j: int|
            0 <= i < keys.len() && 0 <= j < keys.len() && i != j implies
            keys[i] != keys[j] by {
            if i < j {
                assert(s[i].0 < s[j].0);
            } else {
                assert(s[j].0 < s[i].0);
            }
        }
    }
    keys.unique_seq_to_set();
    ids.unique_seq_to_set();
    assert(ids.to_set().subset_of(keys.to_set())) by {
        assert forall|t: u64| ids.to_set().contains(t) implies keys.to_set().contains(t) by {
            let i = choose|i: int| 0 <= i < ids.len() && ids[i] == t;
            assert(a.desc.components@[i].0.0 == t);
            assert(dict_has(s, t));
            let k = dict_idx(s, t);
            lemma_dict_idx(s, t, k);
            assert(keys[k] == t);
            assert(keys.contains(t));
        }
    }
    vstd::set_lib::lemma_len_subset(ids.to_set(), keys.to_set());
    assert(ids.to_set().len() == keys.to_set().len());
    lemma_subset_same_len(ids.to_set(), keys.to_set());
    assert forall|k: int| 0 <= k < c.components@.len() implies
        desc_has_comp(a, (#[trigger] c.components@[k]).0) by {
        assert(keys[k] == c.components@[k].0);
        assert(keys.contains(keys[k]));
        assert(keys.to_set().contains(keys[k]));
        assert(ids.to_set().contains(keys[k]));
        assert(ids.contains(keys[k]));
        let i = choose|i: int| 0 <= i < ids.len() && ids[i] == keys[k];
        assert(a.desc.components@[i].0.0 == c.components@[k].0);
    }
}

/// Some described tag carries type id `t`.
pub open spec fn desc_has_tag(a: ArchetypeData, t: u64) -> bool {
    exists|i: int|
        0 <= i < a.desc.tags@.len() && (#[trigger] a.desc.tags@[i]).0.0 == t
}

/// Every tag storage of an archetype carries one of the described tag
/// types.
pub proof fn lemma_tag_key_in_desc(a: ArchetypeData, k: int)
    requires
        a.desc.wf(),
        a.tags_match(),
        0 <= k < a.tags.data@.len(),
    ensures
        desc_has_tag(a, a.tags.data@[k].0),
{
    broadcast use vstd::seq_lib::seq_to_set_is_finite;

    let s = a.tags.data@;
    let keys = s.map_values(|p: (u64, TagStorage)| p.0);
    let ids = tag_ids(a.desc.tags@);
    assert(keys.no_duplicates()) by {
        assert forall|i: int, j: int|
            0 <= i < keys.len() && 0 <= j < keys.len() && i != j implies
            keys[i] != keys[j] by {
            if i < j {
                assert(s[i].0 < s[j].0);
            } else {
                assert(s[j].0 < s[i].0);
            }
        }
    }
    keys.unique_seq_to_set();
    ids.unique_seq_to_set();
    assert(ids.to_set().subset_of(keys.to_set())) by {
        assert forall|t: u64| ids.to_set().contains(t) implies keys.to_set().contains(t) by {
            let i = choose|i: int| 0 <= i < ids.len() && ids[i] == t;
            assert(a.desc.tags@[i].0.0 == t);
            assert(dict_has(s, t));
            let k2 = dict_idx(s, t);
            lemma_dict_idx(s, t, k2);
            assert(keys[k2] == t);
            assert(keys.contains(t));
        }
    }
    vstd::set_lib::lemma_len_subset(ids.to_set(), keys.to_set());
    lemma_subset_same_len(ids.to_set(), keys.to_set());
    assert(keys[k] == s[k].0);
    assert(keys.contains(keys[k]));
    assert(keys.to_set().contains(keys[k]));
    assert(ids.to_set().contains(keys[k]));
    assert(ids.contains(keys[k]));
    let i = choose|i: int| 0 <= i < ids.len() && ids[i] == keys[k];
    assert(a.desc.tags@[i].0.0 == s[k].0);
}

/// A subset of a finite set with the same cardinality is the whole set.
proof fn lemma_subset_same_len<A>(s1: Set<A>, s2: Set<A>)
    requires
        s1.subset_of(s2),
        s2.finite(),
        s1.len() == s2.len(),
    ensures
        s1 =~= s2,
{
    if exists|x: A| s2.contains(x) && !s1.contains(x) {
        let x = choose|x: A| s2.contains(x) && !s1.contains(x);
        assert(s1.subset_of(s2.remove(x)));
        vstd::set_lib::lemma_len_subset(s1, s2.remove(x));
        assert(s2.remove(x).len() == s2.len() - 1);
    }
}

/// Two sorted dictionaries with the same key set have equal keys position by
/// position.
pub proof fn lemma_sorted_same_keys<V1, V2>(s1: Seq<(u64, V1)>, s2: Seq<(u64, V2)>)
    requires
        dict_sorted(s1),
        dict_sorted(s2),
        s1.len() == s2.len(),
        forall|t: u64| #[trigger] dict_has(s1, t) == dict_has(s2, t),
    ensures
        forall|k: int| 0 <= k < s1.len() ==> (#[trigger] s1[k]).0 == (#[trigger] s2[k]).0,
    decreases s1.len(),
{
    if s1.len() > 0 {
        // The greatest keys agree: each side's last key is present in the
        // other, and anything below the last position holds a smaller key.
        let n = s1.len() as int;
        assert(dict_has(s1, s1[n - 1].0));
        assert(dict_has(s2, s1[n - 1].0));
        assert(dict_has(s2, s2[n - 1].0));
        assert(dict_has(s1, s2[n - 1].0));
        let i1 = dict_idx(s1, s2[n - 1].0);
        let i2 = dict_idx(s2, s1[n - 1].0);
        lemma_dict_idx(s1, s2[n - 1].0, i1);
        lemma_dict_idx(s2, s1[n - 1].0, i2);
        assert(s1[n - 1].0 == s2[n - 1].0) by {
            if s1[n - 1].0 < s2[n - 1].0 {
                assert(s1[i1].0 == s2[n - 1].0);
                assert(i1 < n - 1 ==> s1[i1].0 < s1[n - 1].0);
            } else if s2[n - 1].0 < s1[n - 1].0 {
                assert(s2[i2].0 == s1[n - 1].0);
                assert(i2 < n - 1 ==> s2[i2].0 < s2[n - 1].0);
            }
        }
        let t1 = s1.drop_last();
        let t2 = s2.drop_last();
        assert forall|t: u64| #[trigger] dict_has(t1, t) == dict_has(t2, t) by {
            if dict_has(t1, t) {
                let k = dict_idx(t1, t);
                lemma_dict_idx(t1, t, k);
                assert(s1[k].0 == t);
                assert(dict_has(s1, t));
                assert(dict_has(s2, t));
                let k2 = dict_idx(s2, t);
                lemma_dict_idx(s2, t, k2);
                assert(k2 < n - 1) by {
                    if k2 == n - 1 {
                        assert(s2[n - 1].0 == t);
                        assert(s1[k].0 < s1[n - 1].0);
                    }
                }
                assert(t2[k2].0 == t);
                assert(dict_has(t2, t));
            }
            if dict_has(t2, t) {
                let k = dict_idx(t2, t);
                lemma_dict_idx(t2, t, k);
                assert(s2[k].0 == t);
                assert(dict_has(s2, t));
                assert(dict_has(s1, t));
                let k2 = dict_idx(s1, t);
                lemma_dict_idx(s1, t, k2);
                assert(k2 < n - 1) by {
                    if k2 == n - 1 {
                        assert(s1[n - 1].0 == t);
                        assert(s2[k].0 < s2[n - 1].0);
                    }
                }
                assert(t1[k2].0 == t);
                assert(dict_has(t1, t));
            }
        }
        lemma_sorted_same_keys(t1, t2);
        assert forall|k: int| 0 <= k < s1.len() implies
            (#[trigger] s1[k]).0 == (#[trigger] s2[k]).0 by {
            if k < n - 1 {
                assert(t1[k].0 == t2[k].0);
            }
        }
    }
}

} // verus!
