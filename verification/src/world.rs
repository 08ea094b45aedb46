//! The world: the public mutation and query surface of the store.
//!
//! Every public operation is specified against the world's abstract model: a
//! map from each live entity to its record, the values of its components and
//! tags. Insertion extends the model with fresh entities, deletion removes
//! exactly one, structural edits update exactly one record's component or
//! tag map, defragmentation and merging preserve records while relocating
//! them.

use vstd::prelude::*;
use crate::entity::BLOCK_SPAN;
use crate::entity::BlockAllocator;
use crate::entity::Entity;
use crate::entity::EntityAllocator;
use crate::entity::EntityLocation;
use crate::meta::ArchetypeDescription;
use crate::meta::ComponentMeta;
use crate::meta::ComponentTypeId;
use crate::meta::TagMeta;
use crate::meta::TagTypeId;
use crate::archetype::ArchetypeData;
use crate::archetype::Chunkset;
use crate::archetype::TagStorage;
use crate::archetype::Tags;
use crate::archetype::layout_ok;
use crate::archetype::spec_capacity;
use crate::chunk::ComponentStorage;
use crate::dict::dict_has;
use crate::dict::dict_sorted;
use crate::dict::dict_idx;
use crate::dict::dict_val;
use crate::dict::lemma_dict_idx;
use crate::storage::Storage;

verus! {

broadcast use vstd::std_specs::vec::axiom_spec_len;

/// Identifies a world within its factory.
#[derive(Clone, Copy, PartialEq, Eq, Structural, Debug, Hash)]
pub struct WorldId(pub u64);

/// What one live entity holds: the value of each of its components, and the
/// value of each of its tags, both keyed by raw type id.
pub ghost struct EntityRecord {
    pub components: Map<u64, Seq<u8>>,
    pub tags: Map<u64, Seq<u8>>,
}

/// A factory for worlds. Entities inserted into worlds created by one
/// factory never collide: each world receives its own disjoint block of
/// entity indices.
pub struct Universe {
    pub allocator: BlockAllocator,
    pub world_count: u64,
}

impl Universe {
    /// Creates a new `Universe`.
    pub fn new() -> (r: Universe)
        ensures
            r.allocator.next == 0,
            r.world_count == 0,
    {
        Universe { allocator: BlockAllocator::new(), world_count: 0 }
    }

    /// Creates a new empty world whose entity indices are disjoint from
    /// those of every world previously created by this factory.
    pub fn create_world(&mut self) -> (w: World)
        requires
            old(self).allocator.next <= u64::MAX - BLOCK_SPAN,
            old(self).world_count < u64::MAX,
        ensures
            w.wf(),
            w.model() == Map::<Entity, EntityRecord>::empty(),
            w.id == WorldId(old(self).world_count),
            w.entity_allocator.blocks@.len() == 1,
            w.entity_allocator.blocks@[0].base == old(self).allocator.next,
            w.entity_allocator.blocks@[0].entries@.len() == 0,
            w.storage.archetypes@.len() == 0,
            final(self).allocator.next == old(self).allocator.next + BLOCK_SPAN,
            final(self).world_count == old(self).world_count + 1,
    {
        let id = WorldId(self.world_count);
        self.world_count = self.world_count + 1;
        let base = self.allocator.allocate();
        let w = World {
            id,
            storage: Storage::new(id),
            entity_allocator: EntityAllocator::new(base),
            defrag_progress: 0,
        };
        proof {
            assert forall|e: Entity| !(w.entity_allocator.spec_is_alive(e)
                && w.entity_allocator.spec_located(e)) by {}
            assert(w.model() =~= Map::<Entity, EntityRecord>::empty());
        }
        w
    }
}

impl Default for Universe {
    /// A fresh factory with no worlds yet.
    fn default() -> (r: Self)
        ensures
            r.allocator.next == 0,
            r.world_count == 0,
    {
        Universe::new()
    }
}

/// Some pair in a component-type list carries raw id `t`.
pub open spec fn ctypes_has(s: Seq<(ComponentTypeId, ComponentMeta)>, t: u64) -> bool {
    exists|k: int| 0 <= k < s.len() && (#[trigger] s[k]).0.0 == t
}

/// The position of raw id `t` in a component-type list.
pub open spec fn ctypes_idx(s: Seq<(ComponentTypeId, ComponentMeta)>, t: u64) -> int {
    choose|k: int| 0 <= k < s.len() && (#[trigger] s[k]).0.0 == t
}

/// Some pair in a tag-type list carries raw id `t`.
pub open spec fn tpair_has(s: Seq<(TagTypeId, TagMeta)>, t: u64) -> bool {
    exists|k: int| 0 <= k < s.len() && (#[trigger] s[k]).0.0 == t
}

/// Some (type, meta, value) triple carries raw id `t`.
pub open spec fn ttrip_has(s: Seq<(TagTypeId, TagMeta, Vec<u8>)>, t: u64) -> bool {
    exists|k: int| 0 <= k < s.len() && (#[trigger] s[k]).0.0 == t
}

/// The position of raw id `t` among (type, meta, value) triples.
pub open spec fn ttrip_idx(s: Seq<(TagTypeId, TagMeta, Vec<u8>)>, t: u64) -> int {
    choose|k: int| 0 <= k < s.len() && (#[trigger] s[k]).0.0 == t
}

/// The raw ids of a component-type list, in order.
pub open spec fn ctype_raw_ids(s: Seq<(ComponentTypeId, ComponentMeta)>) -> Seq<u64> {
    s.map_values(|p: (ComponentTypeId, ComponentMeta)| p.0.0)
}

/// The raw ids of a tag triple list, in order.
pub open spec fn ttrip_raw_ids(s: Seq<(TagTypeId, TagMeta, Vec<u8>)>) -> Seq<u64> {
    s.map_values(|p: (TagTypeId, TagMeta, Vec<u8>)| p.0.0)
}

/// The raw ids of a tag-type list, in order.
pub open spec fn tpair_raw_ids(s: Seq<(TagTypeId, TagMeta)>) -> Seq<u64> {
    s.map_values(|p: (TagTypeId, TagMeta)| p.0.0)
}

/// One inserted row as a map: each component type id to that row's value.
pub open spec fn row_map(
    types: Seq<(ComponentTypeId, ComponentMeta)>,
    row: Seq<Vec<u8>>,
) -> Map<u64, Seq<u8>> {
    Map::new(|t: u64| ctypes_has(types, t), |t: u64| row[ctypes_idx(types, t)]@)
}

/// A batch's tag assignment as a map: each tag type id to its value.
pub open spec fn trip_tags_map(tags: Seq<(TagTypeId, TagMeta, Vec<u8>)>) -> Map<u64, Seq<u8>> {
    Map::new(|t: u64| ttrip_has(tags, t), |t: u64| tags[ttrip_idx(tags, t)].2@)
}

/// With duplicate-free ids, any position carrying id `t` is `ctypes_idx`.
pub proof fn lemma_ctypes_idx(s: Seq<(ComponentTypeId, ComponentMeta)>, t: u64, k: int)
    requires
        ctype_raw_ids(s).no_duplicates(),
        0 <= k < s.len(),
        s[k].0.0 == t,
    ensures
        ctypes_has(s, t),
        ctypes_idx(s, t) == k,
{
    assert(ctypes_has(s, t));
    let j = ctypes_idx(s, t);
    if j != k {
        assert(ctype_raw_ids(s)[j] == t && ctype_raw_ids(s)[k] == t);
    }
}

/// With duplicate-free ids, any position carrying id `t` is `ttrip_idx`.
pub proof fn lemma_ttrip_idx(s: Seq<(TagTypeId, TagMeta, Vec<u8>)>, t: u64, k: int)
    requires
        ttrip_raw_ids(s).no_duplicates(),
        0 <= k < s.len(),
        s[k].0.0 == t,
    ensures
        ttrip_has(s, t),
        ttrip_idx(s, t) == k,
{
    assert(ttrip_has(s, t));
    let j = ttrip_idx(s, t);
    if j != k {
        assert(ttrip_raw_ids(s)[j] == t && ttrip_raw_ids(s)[k] == t);
    }
}

/// Whether a component-type list carries `t`.
fn contains_comp_id(v: &Vec<(ComponentTypeId, ComponentMeta)>, t: ComponentTypeId) -> (r: bool)
    ensures
        r == ctypes_has(v@, t.0),
{
    let n = v.len();
    let mut k: usize = 0;
    while k < n
        invariant
            n == v@.len(),
            k <= n,
            forall|j: int| 0 <= j < k ==> (#[trigger] v@[j]).0.0 != t.0,
        decreases n - k,
    {
        if v[k].0.0 == t.0 {
            return true;
        }
        k += 1;
    }
    proof {
        if ctypes_has(v@, t.0) {
            let j = ctypes_idx(v@, t.0);
        }
    }
    false
}

/// Whether a tag triple list carries `t`.
fn contains_tag_id(v: &Vec<(TagTypeId, TagMeta, Vec<u8>)>, t: TagTypeId) -> (r: bool)
    ensures
        r == ttrip_has(v@, t.0),
{
    let n = v.len();
    let mut k: usize = 0;
    while k < n
        invariant
            n == v@.len(),
            k <= n,
            forall|j: int| 0 <= j < k ==> (#[trigger] v@[j]).0.0 != t.0,
        decreases n - k,
    {
        if v[k].0.0 == t.0 {
            return true;
        }
        k += 1;
    }
    proof {
        if ttrip_has(v@, t.0) {
            let j = ttrip_idx(v@, t.0);
        }
    }
    false
}

/// Two duplicate-free component-type lists carrying the same id set have the
/// same length.
pub proof fn lemma_ctypes_len_eq(
    s1: Seq<(ComponentTypeId, ComponentMeta)>,
    s2: Seq<(ComponentTypeId, ComponentMeta)>,
)
    requires
        ctype_raw_ids(s1).no_duplicates(),
        ctype_raw_ids(s2).no_duplicates(),
        forall|t: u64| #[trigger] ctypes_has(s1, t) == ctypes_has(s2, t),
    ensures
        s1.len() == s2.len(),
{
    broadcast use vstd::seq_lib::seq_to_set_is_finite;

    let ids1 = ctype_raw_ids(s1);
    let ids2 = ctype_raw_ids(s2);
    ids1.unique_seq_to_set();
    ids2.unique_seq_to_set();
    assert(ids1.to_set() =~= ids2.to_set()) by {
        assert forall|t: u64| ids1.to_set().contains(t) == ids2.to_set().contains(t) by {
            if ids1.contains(t) {
                let k = choose|k: int| 0 <= k < ids1.len() && ids1[k] == t;
                assert(s1[k].0.0 == t);
                assert(ctypes_has(s1, t));
                assert(ctypes_has(s2, t));
                let j = ctypes_idx(s2, t);
                assert(ids2[j] == t);
                assert(ids2.contains(t));
            }
            if ids2.contains(t) {
                let k = choose|k: int| 0 <= k < ids2.len() && ids2[k] == t;
                assert(s2[k].0.0 == t);
                assert(ctypes_has(s2, t));
                assert(ctypes_has(s1, t));
                let j = ctypes_idx(s1, t);
                assert(ids1[j] == t);
                assert(ids1.contains(t));
            }
        }
    }
}

/// The component-type list without the entries of type `t`.
pub open spec fn comps_without(
    s: Seq<(ComponentTypeId, ComponentMeta)>,
    t: u64,
) -> Seq<(ComponentTypeId, ComponentMeta)> {
    s.filter(|p: (ComponentTypeId, ComponentMeta)| p.0.0 != t)
}

/// A duplicate-free tag-pair list and a duplicate-free tag-triple list
/// carrying the same id set have the same length.
pub proof fn lemma_tpair_len_eq(
    s1: Seq<(TagTypeId, TagMeta)>,
    s2: Seq<(TagTypeId, TagMeta, Vec<u8>)>,
)
    requires
        tpair_raw_ids(s1).no_duplicates(),
        ttrip_raw_ids(s2).no_duplicates(),
        forall|t: u64| #[trigger] tpair_has(s1, t) == ttrip_has(s2, t),
    ensures
        s1.len() == s2.len(),
{
    broadcast use vstd::seq_lib::seq_to_set_is_finite;

    let ids1 = tpair_raw_ids(s1);
    let ids2 = ttrip_raw_ids(s2);
    ids1.unique_seq_to_set();
    ids2.unique_seq_to_set();
    assert(ids1.to_set() =~= ids2.to_set()) by {
        assert forall|t: u64| ids1.to_set().contains(t) == ids2.to_set().contains(t) by {
            if ids1.contains(t) {
                let k = choose|k: int| 0 <= k < ids1.len() && ids1[k] == t;
                assert(s1[k].0.0 == t);
                assert(tpair_has(s1, t));
                assert(ttrip_has(s2, t));
                let j = ttrip_idx(s2, t);
                assert(ids2[j] == t);
                assert(ids2.contains(t));
            }
            if ids2.contains(t) {
                let k = choose|k: int| 0 <= k < ids2.len() && ids2[k] == t;
                assert(s2[k].0.0 == t);
                assert(ttrip_has(s2, t));
                assert(tpair_has(s1, t));
                let j = choose|j: int| 0 <= j < s1.len() && (#[trigger] s1[j]).0.0 == t;
                assert(ids1[j] == t);
                assert(ids1.contains(t));
            }
        }
    }
}

/// One row of component values, keyed by raw type id and sorted, ready to
/// append to a chunk whose columns are sorted the same way.
fn build_sorted_row(
    types: &Vec<(ComponentTypeId, ComponentMeta)>,
    row: &Vec<Vec<u8>>,
) -> (r: Vec<(u64, Vec<u8>)>)
    requires
        ctype_raw_ids(types@).no_duplicates(),
        row@.len() == types@.len(),
    ensures
        crate::dict::dict_sorted(r@),
        r@.len() == types@.len(),
        forall|t: u64| #[trigger] dict_has(r@, t) == ctypes_has(types@, t),
        forall|k: int| 0 <= k < r@.len()
            ==> ctypes_has(types@, (#[trigger] r@[k]).0)
                && r@[k].1@ == row@[ctypes_idx(types@, r@[k].0)]@,
{
    let n = types.len();
    let mut r: Vec<(u64, Vec<u8>)> = Vec::new();
    let mut k: usize = 0;
    while k < n
        invariant
            ctype_raw_ids(types@).no_duplicates(),
            row@.len() == types@.len(),
            n == types@.len(),
            k <= n,
            crate::dict::dict_sorted(r@),
            r@.len() == k,
            forall|t: u64| #[trigger] dict_has(r@, t)
                == exists|j: int| 0 <= j < k && (#[trigger] types@[j]).0.0 == t,
            forall|j: int| 0 <= j < k
                ==> dict_has(r@, (#[trigger] types@[j]).0.0)
                    && dict_val(r@, types@[j].0.0)@ == row@[j]@,
        decreases n - k,
    {
        let t = types[k].0.0;
        proof {
            if dict_has(r@, t) {
                let j = choose|j: int| 0 <= j < k && (#[trigger] types@[j]).0.0 == t;
                assert(ctype_raw_ids(types@)[j] == t && ctype_raw_ids(types@)[k as int] == t);
            }
        }
        let v = crate::meta::copy_bytes(&row[k]);
        let ghost vg = v;
        crate::dict::dict_insert(&mut r, t, v);
        k += 1;
        proof {
            assert forall|t2: u64| #[trigger] dict_has(r@, t2)
                == exists|j: int| 0 <= j < k && (#[trigger] types@[j]).0.0 == t2 by {
                if dict_has(r@, t2) {
                    if t2 == t {
                        assert(types@[k - 1].0.0 == t2);
                    }
                }
                if exists|j: int| 0 <= j < k && (#[trigger] types@[j]).0.0 == t2 {
                    let j = choose|j: int| 0 <= j < k && (#[trigger] types@[j]).0.0 == t2;
                    if j < k - 1 {
                        assert(dict_has(r@, t2));
                    } else {
                        assert(t2 == t);
                    }
                }
            }
            assert(dict_val(r@, t) == vg);
        }
    }
    proof {
        assert forall|k2: int| 0 <= k2 < r@.len() implies
            ctypes_has(types@, (#[trigger] r@[k2]).0)
                && r@[k2].1@ == row@[ctypes_idx(types@, r@[k2].0)]@ by {
            let t = r@[k2].0;
            assert(dict_has(r@, t));
            let j = choose|j: int| 0 <= j < n && (#[trigger] types@[j]).0.0 == t;
            assert(ctypes_has(types@, t));
            lemma_ctypes_idx(types@, t, j);
            crate::dict::lemma_dict_idx(r@, t, k2);
            assert(dict_val(r@, t) == r@[k2].1);
            assert(dict_val(r@, t)@ == row@[j]@);
        }
    }
    r
}

/// Identity of inserted values: the record built for one inserted row maps
/// each registered component type to exactly the value given for it, so a
/// live entity always reads back what was originally inserted for it.
pub proof fn lemma_inserted_value(
    types: Seq<(ComponentTypeId, ComponentMeta)>,
    row: Seq<Vec<u8>>,
    k: int,
)
    requires
        ctype_raw_ids(types).no_duplicates(),
        0 <= k < types.len(),
        row.len() == types.len(),
    ensures
        row_map(types, row).contains_key(types[k].0.0),
        row_map(types, row)[types[k].0.0] == row[k]@,
{
    lemma_ctypes_idx(types, types[k].0.0, k);
}

/// Identity of inserted tag values: the tag assignment built for a batch
/// maps each tag type to exactly the value given for it.
pub proof fn lemma_inserted_tag(tags: Seq<(TagTypeId, TagMeta, Vec<u8>)>, k: int)
    requires
        ttrip_raw_ids(tags).no_duplicates(),
        0 <= k < tags.len(),
    ensures
        trip_tags_map(tags).contains_key(tags[k].0.0),
        trip_tags_map(tags)[tags[k].0.0] == tags[k].2@,
{
    lemma_ttrip_idx(tags, tags[k].0.0, k);
}

/// Swap-remove correctness: deleting one entity leaves every other
/// previously-live entity in the model with its record unchanged.
pub proof fn lemma_delete_preserves_others(
    pre: Map<Entity, EntityRecord>,
    e: Entity,
    e2: Entity,
)
    requires
        pre.dom().contains(e2),
        e2 != e,
    ensures
        pre.remove(e).dom().contains(e2),
        pre.remove(e)[e2] == pre[e2],
{
}

/// Structural move round trip: adding a component a live entity does not
/// have and then removing it again restores the whole model, so every other
/// component and tag of the entity (and every other entity) is unchanged.
pub proof fn lemma_add_remove_component_round_trip(
    m1: Map<Entity, EntityRecord>,
    m2: Map<Entity, EntityRecord>,
    m3: Map<Entity, EntityRecord>,
    e: Entity,
    t: u64,
    v: Seq<u8>,
)
    requires
        m1.dom().contains(e),
        !m1[e].components.contains_key(t),
        m2 == m1.insert(e, EntityRecord {
            components: m1[e].components.insert(t, v),
            tags: m1[e].tags,
        }),
        m3 == m2.insert(e, EntityRecord {
            components: m2[e].components.remove(t),
            tags: m2[e].tags,
        }),
    ensures
        m3 == m1,
{
    assert(m2[e].components.remove(t) =~= m1[e].components);
    assert(m1[e] == (EntityRecord { components: m1[e].components, tags: m1[e].tags }));
    assert(m3 =~= m1);
}

/// The converse round trip: removing a tag a live entity carries and then
/// adding it back with its old value restores the whole model.
pub proof fn lemma_remove_add_tag_round_trip(
    m1: Map<Entity, EntityRecord>,
    m2: Map<Entity, EntityRecord>,
    m3: Map<Entity, EntityRecord>,
    e: Entity,
    t: u64,
)
    requires
        m1.dom().contains(e),
        m1[e].tags.contains_key(t),
        m2 == m1.insert(e, EntityRecord {
            components: m1[e].components,
            tags: m1[e].tags.remove(t),
        }),
        m3 == m2.insert(e, EntityRecord {
            components: m2[e].components,
            tags: m2[e].tags.insert(t, m1[e].tags[t]),
        }),
    ensures
        m3 == m1,
{
    assert(m2[e].tags.insert(t, m1[e].tags[t]) =~= m1[e].tags);
    assert(m1[e] == (EntityRecord { components: m1[e].components, tags: m1[e].tags }));
    assert(m3 =~= m1);
}

/// Tag-value distinctness: in a well-formed world, two distinct chunk-sets
/// of one archetype never carry bytewise-equal tag assignments, so adding a
/// tag with an existing value reuses the matching chunk-set instead of
/// creating a new one.
pub proof fn lemma_chunk_sets_distinct(w: World, a: int, s1: int, s2: int)
    requires
        w.wf(),
        0 <= a < w.storage.archetypes@.len(),
        0 <= s1 < w.storage.archetypes@[a].chunk_sets@.len(),
        0 <= s2 < w.storage.archetypes@[a].chunk_sets@.len(),
        s1 != s2,
    ensures
        !w.storage.archetypes@[a].tags.tuples_equal(s1, s2),
        w.storage.archetypes@[a].desc.tags@.len() > 0
            ==> w.storage.archetypes@[a].tags.tuple_at(s1)
                != w.storage.archetypes@[a].tags.tuple_at(s2),
{
    let arch = w.storage.archetypes@[a];
    if s1 < s2 {
        assert(!arch.tags.tuples_equal(s1, s2));
    } else {
        assert(!arch.tags.tuples_equal(s2, s1));
        assert(!arch.tags.tuples_equal(s1, s2)) by {
            if arch.tags.tuples_equal(s1, s2) {
                assert forall|k: int| 0 <= k < arch.tags.data@.len() implies
                    (#[trigger] arch.tags.data@[k]).1.data@[s2]@
                        == arch.tags.data@[k].1.data@[s1]@ by {}
            }
        }
    }
    if arch.desc.tags@.len() > 0 {
        let k = choose|k: int|
            0 <= k < arch.tags.data@.len()
                && (#[trigger] arch.tags.data@[k]).1.data@[s1]@
                    != arch.tags.data@[k].1.data@[s2]@;
        let t = arch.tags.data@[k].0;
        crate::dict::lemma_dict_idx(arch.tags.data@, t, k);
        assert(arch.tags.tuple_at(s1)[t] != arch.tags.tuple_at(s2)[t]);
        assert(arch.tags.tuple_at(s1).contains_key(t));
    }
}

/// Signature distinctness depends only on the archetype descriptions, so it
/// survives any change that keeps them.
pub proof fn lemma_sigs_distinct_same_descs(pre: World, post: World)
    requires
        pre.sigs_distinct(),
        post.storage.archetypes@.len() == pre.storage.archetypes@.len(),
        forall|a: int| 0 <= a < pre.storage.archetypes@.len()
            ==> (#[trigger] post.storage.archetypes@[a]).desc
                == pre.storage.archetypes@[a].desc,
    ensures
        post.sigs_distinct(),
{
    assert forall|a1: int, a2: int|
        0 <= a1 < a2 < post.storage.archetypes@.len() implies
        !(#[trigger] post.archs_sig_equal(a1, a2)) by {
        assert(pre.storage.archetypes@[a1].desc == post.storage.archetypes@[a1].desc);
        assert(pre.storage.archetypes@[a2].desc == post.storage.archetypes@[a2].desc);
        assert(!pre.archs_sig_equal(a1, a2));
        if post.archs_sig_equal(a1, a2) {
            assert forall|t: u64|
                #[trigger] ctypes_has(pre.storage.archetypes@[a1].desc.components@, t)
                    == ctypes_has(pre.storage.archetypes@[a2].desc.components@, t) by {
                assert(pre.storage.archetypes@[a1].desc == post.storage.archetypes@[a1].desc);
                assert(pre.storage.archetypes@[a2].desc == post.storage.archetypes@[a2].desc);
            }
            assert forall|t: u64|
                #[trigger] tpair_has(pre.storage.archetypes@[a1].desc.tags@, t)
                    == tpair_has(pre.storage.archetypes@[a2].desc.tags@, t) by {
                assert(pre.storage.archetypes@[a1].desc == post.storage.archetypes@[a1].desc);
                assert(pre.storage.archetypes@[a2].desc == post.storage.archetypes@[a2].desc);
            }
            assert(pre.archs_sig_equal(a1, a2));
        }
    }
}

/// Metadata consistency depends only on the archetype descriptions, so it
/// survives any change that keeps them.
pub proof fn lemma_metas_consistent_same_descs(pre: World, post: World)
    requires
        pre.metas_consistent(),
        post.storage.archetypes@.len() == pre.storage.archetypes@.len(),
        forall|a: int| 0 <= a < pre.storage.archetypes@.len()
            ==> (#[trigger] post.storage.archetypes@[a]).desc
                == pre.storage.archetypes@[a].desc,
    ensures
        post.metas_consistent(),
{
    assert forall|a1: int, i1: int, a2: int, i2: int|
        0 <= a1 < post.storage.archetypes@.len()
            && 0 <= i1 < post.storage.archetypes@[a1].desc.components@.len()
            && 0 <= a2 < post.storage.archetypes@.len()
            && 0 <= i2 < post.storage.archetypes@[a2].desc.components@.len()
            && (#[trigger] post.storage.archetypes@[a1].desc.components@[i1]).0.0
                == (#[trigger] post.storage.archetypes@[a2].desc.components@[i2]).0.0
        implies post.storage.archetypes@[a1].desc.components@[i1].1
            == post.storage.archetypes@[a2].desc.components@[i2].1 by {
        assert(pre.storage.archetypes@[a1].desc.components@[i1]
            == post.storage.archetypes@[a1].desc.components@[i1]);
        assert(pre.storage.archetypes@[a2].desc.components@[i2]
            == post.storage.archetypes@[a2].desc.components@[i2]);
    }
    assert forall|a1: int, i1: int, a2: int, i2: int|
        0 <= a1 < post.storage.archetypes@.len()
            && 0 <= i1 < post.storage.archetypes@[a1].desc.tags@.len()
            && 0 <= a2 < post.storage.archetypes@.len()
            && 0 <= i2 < post.storage.archetypes@[a2].desc.tags@.len()
            && (#[trigger] post.storage.archetypes@[a1].desc.tags@[i1]).0.0
                == (#[trigger] post.storage.archetypes@[a2].desc.tags@[i2]).0.0
        implies post.storage.archetypes@[a1].desc.tags@[i1].1
            == post.storage.archetypes@[a2].desc.tags@[i2].1 by {
        assert(pre.storage.archetypes@[a1].desc.tags@[i1]
            == post.storage.archetypes@[a1].desc.tags@[i1]);
        assert(pre.storage.archetypes@[a2].desc.tags@[i2]
            == post.storage.archetypes@[a2].desc.tags@[i2]);
    }
}

/// A copy of a description's component-type list.
fn clone_desc_components(desc: &ArchetypeDescription)
    -> (r: Vec<(ComponentTypeId, ComponentMeta)>)
    ensures
        r@ == desc.components@,
{
    let n = desc.components.len();
    let mut r: Vec<(ComponentTypeId, ComponentMeta)> = Vec::new();
    let mut k: usize = 0;
    while k < n
        invariant
            n == desc.components@.len(),
            k <= n,
            r@ == desc.components@.subrange(0, k as int),
        decreases n - k,
    {
        r.push(desc.components[k]);
        proof {
            assert(r@ =~= desc.components@.subrange(0, k + 1));
        }
        k += 1;
    }
    proof {
        assert(r@ =~= desc.components@);
    }
    r
}

/// The tag types of an archetype with the values of its chunk-set `s`, in
/// registration order.
fn clone_set_tags(arch: &ArchetypeData, s: usize) -> (r: Vec<(TagTypeId, TagMeta, Vec<u8>)>)
    requires
        arch.wf(),
        s < arch.chunk_sets@.len(),
    ensures
        ttrip_raw_ids(r@).no_duplicates(),
        forall|t: u64| #[trigger] ttrip_has(r@, t) == tpair_has(arch.desc.tags@, t),
        r@.len() == arch.desc.tags@.len(),
        forall|k: int| 0 <= k < r@.len()
            ==> ((#[trigger] r@[k]).0, r@[k].1) == arch.desc.tags@[k],
        forall|k: int| 0 <= k < r@.len()
            ==> (#[trigger] r@[k]).1.align >= 1
                && r@[k].2@.len() == r@[k].1.size
                && r@[k].2@ == arch.tags.tuple_at(s as int)[r@[k].0.0],
{
    let n = arch.desc.tags.len();
    let mut out: Vec<(TagTypeId, TagMeta, Vec<u8>)> = Vec::new();
    let mut k: usize = 0;
    while k < n
        invariant
            arch.wf(),
            s < arch.chunk_sets@.len(),
            n == arch.desc.tags@.len(),
            k <= n,
            out@.len() == k,
            forall|t: u64| #[trigger] ttrip_has(out@, t)
                == exists|i: int| 0 <= i < k && (#[trigger] arch.desc.tags@[i]).0.0 == t,
            forall|j: int| 0 <= j < out@.len()
                ==> ((#[trigger] out@[j]).0, out@[j].1) == arch.desc.tags@[j],
            forall|j: int| 0 <= j < out@.len()
                ==> (#[trigger] out@[j]).1.align >= 1
                    && out@[j].2@.len() == out@[j].1.size
                    && out@[j].2@ == arch.tags.tuple_at(s as int)[out@[j].0.0],
            ttrip_raw_ids(out@).no_duplicates(),
        decreases n - k,
    {
        let (tid, meta) = arch.desc.tags[k];
        proof {
            assert(arch.tags_match());
            assert(dict_has(arch.tags.data@, arch.desc.tags@[k as int].0.0));
        }
        let sti = match crate::dict::dict_find(&arch.tags.data, tid.0) {
            Some(i) => i,
            None => {
                proof {
                    assert(false);
                }
                0
            }
        };
        let st = &arch.tags.data[sti].1;
        proof {
            assert(st.data@.len() == arch.chunk_sets@.len());
            assert(dict_val(arch.tags.data@, tid.0).element
                == arch.desc.tags@[k as int].1);
        }
        let v = crate::meta::copy_bytes(st.get(s));
        let ghost outpre = out@;
        proof {
            if ttrip_has(out@, tid.0) {
                let i = choose|i: int| 0 <= i < k
                    && (#[trigger] arch.desc.tags@[i]).0.0 == tid.0;
                assert(crate::meta::tag_ids(arch.desc.tags@)[i] == tid.0);
                assert(crate::meta::tag_ids(arch.desc.tags@)[k as int] == tid.0);
            }
        }
        out.push((tid, meta, v));
        proof {
            assert(((out@[out@.len() - 1]).0, out@[out@.len() - 1].1)
                == arch.desc.tags@[k as int]);
            assert(ttrip_raw_ids(out@) =~= ttrip_raw_ids(outpre).push(tid.0));
            crate::entity::lemma_push_no_duplicates_u64(ttrip_raw_ids(outpre), tid.0);
            assert forall|t: u64| #[trigger] ttrip_has(out@, t)
                == (exists|i: int| 0 <= i < k + 1
                    && (#[trigger] arch.desc.tags@[i]).0.0 == t) by {
                if ttrip_has(out@, t) {
                    let j = ttrip_idx(out@, t);
                    if j < outpre.len() {
                        assert(ttrip_has(outpre, t));
                    } else {
                        assert(t == tid.0);
                        assert(arch.desc.tags@[k as int].0.0 == t);
                    }
                }
                if exists|i: int| 0 <= i < k + 1
                    && (#[trigger] arch.desc.tags@[i]).0.0 == t {
                    let i = choose|i: int| 0 <= i < k + 1
                        && (#[trigger] arch.desc.tags@[i]).0.0 == t;
                    if i < k {
                        assert(ttrip_has(outpre, t));
                        let j = ttrip_idx(outpre, t);
                        assert(out@[j].0.0 == t);
                        assert(ttrip_has(out@, t));
                    } else {
                        assert(out@[out@.len() - 1].0.0 == t);
                        assert(ttrip_has(out@, t));
                    }
                }
            }
        }
        k += 1;
    }
    proof {
        assert forall|t: u64| #[trigger] ttrip_has(out@, t)
            == tpair_has(arch.desc.tags@, t) by {
            if tpair_has(arch.desc.tags@, t) {
                let i = choose|i: int| 0 <= i < arch.desc.tags@.len()
                    && (#[trigger] arch.desc.tags@[i]).0.0 == t;
            }
        }
    }
    out
}

/// The values of slot `i` of a chunk, ordered to match `types`.
fn chunk_row_by_types(
    chunk: &ComponentStorage,
    types: &Vec<(ComponentTypeId, ComponentMeta)>,
    i: usize,
) -> (r: Vec<Vec<u8>>)
    requires
        chunk.wf(),
        i < chunk.entities@.len(),
        forall|k: int| 0 <= k < types@.len()
            ==> chunk.has_type((#[trigger] types@[k]).0.0)
                && chunk.size_of(types@[k].0.0) == types@[k].1.size,
    ensures
        r@.len() == types@.len(),
        forall|k: int| 0 <= k < types@.len()
            ==> (#[trigger] r@[k])@ == chunk.value_at(types@[k].0.0, i as int)
                && r@[k]@.len() == types@[k].1.size,
{
    let n = types.len();
    let mut r: Vec<Vec<u8>> = Vec::new();
    let mut k: usize = 0;
    while k < n
        invariant
            chunk.wf(),
            i < chunk.entities@.len(),
            n == types@.len(),
            forall|k2: int| 0 <= k2 < types@.len()
                ==> chunk.has_type((#[trigger] types@[k2]).0.0)
                    && chunk.size_of(types@[k2].0.0) == types@[k2].1.size,
            k <= n,
            r@.len() == k,
            forall|k2: int| 0 <= k2 < k
                ==> (#[trigger] r@[k2])@ == chunk.value_at(types@[k2].0.0, i as int)
                    && r@[k2]@.len() == types@[k2].1.size,
        decreases n - k,
    {
        let v = match chunk.component_value(types[k].0, i) {
            Some(v) => crate::meta::copy_bytes(v),
            None => {
                proof {
                    assert(false);
                }
                Vec::new()
            }
        };
        proof {
            let t = types@[k as int].0.0;
            let ci = dict_idx(chunk.components@, t);
            lemma_dict_idx(chunk.components@, t, ci);
            assert(chunk.components@[ci].1.wf());
        }
        r.push(v);
        k += 1;
    }
    r
}

/// Contains queryable collections of data associated with entities.
pub struct World {
    pub id: WorldId,
    pub storage: Storage,
    pub entity_allocator: EntityAllocator,
    pub defrag_progress: usize,
}

impl World {
    /// The location points at an existing entity slot.
    pub open spec fn loc_ok(self, l: EntityLocation) -> bool {
        &&& (l.archetype as int) < self.storage.archetypes@.len()
        &&& (l.set as int) < self.storage.archetypes@[l.archetype as int].chunk_sets@.len()
        &&& (l.chunk as int)
                < self.storage.archetypes@[l.archetype as int]
                    .chunk_sets@[l.set as int].chunks@.len()
        &&& (l.component as int)
                < self.storage.archetypes@[l.archetype as int]
                    .chunk_sets@[l.set as int].chunks@[l.chunk as int].entities@.len()
    }

    /// The chunk a location points into.
    pub open spec fn chunk_at(self, l: EntityLocation) -> ComponentStorage {
        self.storage.archetypes@[l.archetype as int].chunk_sets@[l.set as int]
            .chunks@[l.chunk as int]
    }

    /// The record stored at a location: the chunk row plus the chunk-set's
    /// tag assignment.
    pub open spec fn record_at(self, l: EntityLocation) -> EntityRecord {
        EntityRecord {
            components: self.chunk_at(l).row(l.component as int),
            tags: self.storage.archetypes@[l.archetype as int].tags.tuple_at(l.set as int),
        }
    }

    /// Each live, located entity is stored exactly where its location says
    /// (identity invariant), and conversely each stored entity is live with
    /// that location.
    pub open spec fn links_ok(self) -> bool {
        &&& forall|e: Entity|
                #[trigger] self.entity_allocator.spec_is_alive(e)
                    && self.entity_allocator.spec_located(e)
                    ==> self.loc_ok(self.entity_allocator.spec_loc(e))
                        && self.chunk_at(self.entity_allocator.spec_loc(e))
                            .entities@[self.entity_allocator.spec_loc(e).component as int] == e
        &&& forall|a: int, s: int, c: int, i: int|
                0 <= a < self.storage.archetypes@.len()
                    && 0 <= s < self.storage.archetypes@[a].chunk_sets@.len()
                    && 0 <= c < self.storage.archetypes@[a].chunk_sets@[s].chunks@.len()
                    && 0 <= i < self.storage.archetypes@[a].chunk_sets@[s]
                        .chunks@[c].entities@.len()
                    ==> {
                        let e = #[trigger] self.storage.archetypes@[a].chunk_sets@[s].chunks@[c]
                            .entities@[i];
                        &&& self.entity_allocator.spec_is_alive(e)
                        &&& self.entity_allocator.spec_located(e)
                        &&& self.entity_allocator.spec_loc(e).archetype == a
                        &&& self.entity_allocator.spec_loc(e).set == s
                        &&& self.entity_allocator.spec_loc(e).chunk == c
                        &&& self.entity_allocator.spec_loc(e).component == i
                    }
    }

    /// Every live entity has a recorded location.
    pub open spec fn all_located(self) -> bool {
        forall|e: Entity| #[trigger] self.entity_allocator.spec_is_alive(e)
            ==> self.entity_allocator.spec_located(e)
    }

    /// One component or tag type id always carries one metadata, across all
    /// archetypes: metadata is a function of the type.
    pub open spec fn metas_consistent(self) -> bool {
        &&& forall|a1: int, i1: int, a2: int, i2: int|
                0 <= a1 < self.storage.archetypes@.len()
                    && 0 <= i1 < self.storage.archetypes@[a1].desc.components@.len()
                    && 0 <= a2 < self.storage.archetypes@.len()
                    && 0 <= i2 < self.storage.archetypes@[a2].desc.components@.len()
                    && (#[trigger] self.storage.archetypes@[a1].desc.components@[i1]).0.0
                        == (#[trigger] self.storage.archetypes@[a2].desc.components@[i2]).0.0
                    ==> self.storage.archetypes@[a1].desc.components@[i1].1
                        == self.storage.archetypes@[a2].desc.components@[i2].1
        &&& forall|a1: int, i1: int, a2: int, i2: int|
                0 <= a1 < self.storage.archetypes@.len()
                    && 0 <= i1 < self.storage.archetypes@[a1].desc.tags@.len()
                    && 0 <= a2 < self.storage.archetypes@.len()
                    && 0 <= i2 < self.storage.archetypes@[a2].desc.tags@.len()
                    && (#[trigger] self.storage.archetypes@[a1].desc.tags@[i1]).0.0
                        == (#[trigger] self.storage.archetypes@[a2].desc.tags@[i2]).0.0
                    ==> self.storage.archetypes@[a1].desc.tags@[i1].1
                        == self.storage.archetypes@[a2].desc.tags@[i2].1
    }

    /// Archetypes `a1` and `a2` have the same signature: equal component
    /// type sets and equal tag type sets.
    pub open spec fn archs_sig_equal(self, a1: int, a2: int) -> bool {
        &&& forall|t: u64|
                #[trigger] ctypes_has(self.storage.archetypes@[a1].desc.components@, t)
                    == ctypes_has(self.storage.archetypes@[a2].desc.components@, t)
        &&& forall|t: u64|
                #[trigger] tpair_has(self.storage.archetypes@[a1].desc.tags@, t)
                    == tpair_has(self.storage.archetypes@[a2].desc.tags@, t)
    }

    /// No two archetypes share one signature: an archetype is only created
    /// when no existing one matches.
    pub open spec fn sigs_distinct(self) -> bool {
        forall|a1: int, a2: int|
            0 <= a1 < a2 < self.storage.archetypes@.len()
                ==> !(#[trigger] self.archs_sig_equal(a1, a2))
    }

    /// The structural invariant except that some live entities may not have
    /// been assigned a location yet; merging re-homes absorbed entities one
    /// by one and restores full well-formedness at the end.
    pub open spec fn wf_base(self) -> bool {
        &&& self.storage.wf()
        &&& self.storage.world_id == self.id
        &&& self.entity_allocator.wf()
        &&& self.links_ok()
        &&& self.metas_consistent()
        &&& self.sigs_distinct()
    }

    /// The world's structural invariant, maintained by every public
    /// operation.
    pub open spec fn wf(self) -> bool {
        &&& self.wf_base()
        &&& self.all_located()
    }

    /// The world's abstract state: each live entity mapped to the values of
    /// its components and tags.
    pub open spec fn model(self) -> Map<Entity, EntityRecord> {
        Map::new(
            |e: Entity| self.entity_allocator.spec_is_alive(e)
                && self.entity_allocator.spec_located(e),
            |e: Entity| self.record_at(self.entity_allocator.spec_loc(e)),
        )
    }

    /// Archetype `a`'s component and tag type sets equal those of the
    /// batch being inserted.
    pub open spec fn arch_sig_matches(
        self,
        a: int,
        tags: Seq<(TagTypeId, TagMeta, Vec<u8>)>,
        types: Seq<(ComponentTypeId, ComponentMeta)>,
    ) -> bool {
        &&& forall|t: u64| #[trigger] ctypes_has(self.storage.archetypes@[a].desc.components@, t)
                == ctypes_has(types, t)
        &&& forall|t: u64| #[trigger] tpair_has(self.storage.archetypes@[a].desc.tags@, t)
                == ttrip_has(tags, t)
    }

    /// Metadata `m` agrees with every archetype that stores component `t`:
    /// one component type id always has one metadata.
    pub open spec fn comp_meta_ok(self, t: u64, m: ComponentMeta) -> bool {
        forall|a: int, i: int|
            0 <= a < self.storage.archetypes@.len()
                && 0 <= i < self.storage.archetypes@[a].desc.components@.len()
                && (#[trigger] self.storage.archetypes@[a].desc.components@[i]).0.0 == t
                ==> self.storage.archetypes@[a].desc.components@[i].1 == m
    }

    /// Metadata `m` agrees with every archetype that stores tag `t`.
    pub open spec fn tag_meta_ok(self, t: u64, m: TagMeta) -> bool {
        forall|a: int, i: int|
            0 <= a < self.storage.archetypes@.len()
                && 0 <= i < self.storage.archetypes@[a].desc.tags@.len()
                && (#[trigger] self.storage.archetypes@[a].desc.tags@[i]).0.0 == t
                ==> self.storage.archetypes@[a].desc.tags@[i].1 == m
    }

    /// Searches for an archetype whose component and tag type sets equal
    /// the batch's, scanning the signature side-tables.
    fn find_archetype(
        &self,
        tags: &Vec<(TagTypeId, TagMeta, Vec<u8>)>,
        types: &Vec<(ComponentTypeId, ComponentMeta)>,
    ) -> (r: Option<usize>)
        requires
            self.wf_base(),
            ctype_raw_ids(types@).no_duplicates(),
            ttrip_raw_ids(tags@).no_duplicates(),
        ensures
            match r {
                Some(a) => a < self.storage.archetypes@.len()
                    && self.arch_sig_matches(a as int, tags@, types@)
                    && (forall|a2: int| 0 <= a2 < a
                        ==> !(#[trigger] self.arch_sig_matches(a2, tags@, types@))),
                None => forall|a2: int| 0 <= a2 < self.storage.archetypes@.len()
                    ==> !(#[trigger] self.arch_sig_matches(a2, tags@, types@)),
            },
    {
        let n = self.storage.archetypes.len();
        let mut a: usize = 0;
        while a < n
            invariant
                self.wf_base(),
                ctype_raw_ids(types@).no_duplicates(),
                ttrip_raw_ids(tags@).no_duplicates(),
                n == self.storage.archetypes@.len(),
                a <= n,
                forall|a2: int| 0 <= a2 < a
                    ==> !(#[trigger] self.arch_sig_matches(a2, tags@, types@)),
            decreases n - a,
        {
            if self.sig_matches(a, tags, types) {
                return Some(a);
            }
            a += 1;
        }
        None
    }

    /// Checks archetype `a`'s signature slices against the batch's types.
    #[verifier::rlimit(60)]
    fn sig_matches(
        &self,
        a: usize,
        tags: &Vec<(TagTypeId, TagMeta, Vec<u8>)>,
        types: &Vec<(ComponentTypeId, ComponentMeta)>,
    ) -> (r: bool)
        requires
            self.wf_base(),
            a < self.storage.archetypes@.len(),
            ctype_raw_ids(types@).no_duplicates(),
            ttrip_raw_ids(tags@).no_duplicates(),
        ensures
            r == self.arch_sig_matches(a as int, tags@, types@),
    {
        let ghost desc = self.storage.archetypes@[a as int].desc;
        proof {
            crate::storage::lemma_counts_total_prefix(
                self.storage.component_types.0.counts@, a as int);
            crate::storage::lemma_counts_total_prefix(
                self.storage.tag_types.0.counts@, a as int);
            assert(self.storage.component_types.0.slice_seq(a as int)
                == crate::storage::desc_comp_id_seq(desc));
            assert(self.storage.tag_types.0.slice_seq(a as int)
                == crate::storage::desc_tag_id_seq(desc));
            assert(self.storage.component_types.0.counts@[a as int]
                == desc.components@.len());
            assert(self.storage.tag_types.0.counts@[a as int] == desc.tags@.len());
            if self.arch_sig_matches(a as int, tags@, types@) {
                // Matching signatures have equal lengths.
                lemma_ctypes_len_eq(desc.components@, types@);
                lemma_tpair_len_eq(desc.tags@, tags@);
            }
        }
        if self.storage.component_types.0.slice_len(a) != types.len() {
            return false;
        }
        if self.storage.tag_types.0.slice_len(a) != tags.len() {
            return false;
        }
        let cn = types.len();
        let mut j: usize = 0;
        while j < cn
            invariant
                self.wf_base(),
                a < self.storage.archetypes@.len(),
                cn == self.storage.component_types.0.counts@[a as int],
                cn == types@.len(),
                j <= cn,
                desc == self.storage.archetypes@[a as int].desc,
                forall|i: int| 0 <= i < j
                    ==> ctypes_has(types@,
                        (#[trigger] self.storage.component_types.0.slice_seq(a as int)[i]).0),
            decreases cn - j,
        {
            let t = self.storage.component_types.0.get(a, j);
            if !contains_comp_id(types, t) {
                proof {
                    assert(ctypes_has(desc.components@, t.0)) by {
                        crate::storage::lemma_counts_total_prefix(
                            self.storage.component_types.0.counts@, a as int);
                        assert(crate::storage::slice_start(
                            self.storage.component_types.0.counts@, a as int)
                            + self.storage.component_types.0.counts@[a as int]
                            <= self.storage.component_types.0.data@.len());
                        assert(self.storage.component_types.0.slice_seq(a as int).len()
                            == cn);
                        assert(self.storage.component_types.0.slice_seq(a as int)
                            == crate::storage::desc_comp_id_seq(desc));
                        assert(desc.components@.len() == cn);
                        assert(crate::storage::desc_comp_id_seq(desc)[j as int]
                            == desc.components@[j as int].0);
                        assert(desc.components@[j as int].0 == t);
                    }
                }
                return false;
            }
            j += 1;
        }
        let tn = tags.len();
        let mut j2: usize = 0;
        while j2 < tn
            invariant
                self.wf_base(),
                a < self.storage.archetypes@.len(),
                tn == self.storage.tag_types.0.counts@[a as int],
                tn == tags@.len(),
                j2 <= tn,
                desc == self.storage.archetypes@[a as int].desc,
                forall|i: int| 0 <= i < j2
                    ==> ttrip_has(tags@,
                        (#[trigger] self.storage.tag_types.0.slice_seq(a as int)[i]).0),
            decreases tn - j2,
        {
            let t = self.storage.tag_types.0.get(a, j2);
            if !contains_tag_id(tags, t) {
                proof {
                    assert(tpair_has(desc.tags@, t.0)) by {
                        crate::storage::lemma_counts_total_prefix(
                            self.storage.tag_types.0.counts@, a as int);
                        assert(crate::storage::slice_start(
                            self.storage.tag_types.0.counts@, a as int)
                            + self.storage.tag_types.0.counts@[a as int]
                            <= self.storage.tag_types.0.data@.len());
                        assert(self.storage.tag_types.0.slice_seq(a as int).len()
                            == tn);
                        assert(self.storage.tag_types.0.slice_seq(a as int)
                            == crate::storage::desc_tag_id_seq(desc));
                        assert(desc.tags@.len() == tn);
                        assert(crate::storage::desc_tag_id_seq(desc)[j2 as int]
                            == desc.tags@[j2 as int].0);
                        assert(desc.tags@[j2 as int].0 == t);
                    }
                }
                return false;
            }
            j2 += 1;
        }
        proof {
            let cslice = self.storage.component_types.0.slice_seq(a as int);
            let dcomp = desc.components@;
            assert(cslice == crate::storage::desc_comp_id_seq(desc));
            crate::storage::lemma_counts_total_prefix(
                self.storage.component_types.0.counts@, a as int);
            assert(cslice.len() == cn);
            let dids = crate::meta::comp_ids(dcomp);
            let tids = ctype_raw_ids(types@);
            assert(dids.len() == cslice.len());
            assert forall|k: int| 0 <= k < dids.len() implies
                tids.contains(#[trigger] dids[k]) by {
                assert(cslice[k].0 == dids[k]);
                assert(ctypes_has(types@, cslice[k].0));
                let i = ctypes_idx(types@, cslice[k].0);
                assert(tids[i] == dids[k]);
            }
            crate::dict::lemma_ids_set_equal(dids, tids);
            assert forall|t: u64| #[trigger] ctypes_has(desc.components@, t)
                == ctypes_has(types@, t) by {
                if ctypes_has(desc.components@, t) {
                    let i = ctypes_idx(desc.components@, t);
                    assert(dids[i] == t);
                    assert(dids.contains(t));
                    assert(tids.contains(t));
                    let k = choose|k: int| 0 <= k < tids.len() && tids[k] == t;
                    assert(types@[k].0.0 == t);
                    assert(ctypes_has(types@, t));
                }
                if ctypes_has(types@, t) {
                    let i = ctypes_idx(types@, t);
                    assert(tids[i] == t);
                    assert(tids.contains(t));
                    assert(dids.contains(t));
                    let k = choose|k: int| 0 <= k < dids.len() && dids[k] == t;
                    assert(desc.components@[k].0.0 == t);
                    assert(ctypes_has(desc.components@, t));
                }
            }
            let tslice = self.storage.tag_types.0.slice_seq(a as int);
            let dtag = desc.tags@;
            assert(tslice == crate::storage::desc_tag_id_seq(desc));
            crate::storage::lemma_counts_total_prefix(
                self.storage.tag_types.0.counts@, a as int);
            assert(tslice.len() == tn);
            let dtids = crate::meta::tag_ids(dtag);
            let ttids = ttrip_raw_ids(tags@);
            assert(dtids.len() == tslice.len());
            assert forall|k: int| 0 <= k < dtids.len() implies
                ttids.contains(#[trigger] dtids[k]) by {
                assert(tslice[k].0 == dtids[k]);
                assert(ttrip_has(tags@, tslice[k].0));
                let i = ttrip_idx(tags@, tslice[k].0);
                assert(ttids[i] == dtids[k]);
            }
            crate::dict::lemma_ids_set_equal(dtids, ttids);
            assert forall|t: u64| #[trigger] tpair_has(desc.tags@, t)
                == ttrip_has(tags@, t) by {
                if tpair_has(desc.tags@, t) {
                    let i = choose|i: int|
                        0 <= i < desc.tags@.len() && (#[trigger] desc.tags@[i]).0.0 == t;
                    assert(dtids[i] == t);
                    assert(dtids.contains(t));
                    assert(ttids.contains(t));
                    let k = choose|k: int| 0 <= k < ttids.len() && ttids[k] == t;
                    assert(tags@[k].0.0 == t);
                    assert(ttrip_has(tags@, t));
                }
                if ttrip_has(tags@, t) {
                    let i = ttrip_idx(tags@, t);
                    assert(ttids[i] == t);
                    assert(ttids.contains(t));
                    assert(dtids.contains(t));
                    let k = choose|k: int| 0 <= k < dtids.len() && dtids[k] == t;
                    assert(desc.tags@[k].0.0 == t);
                    assert(tpair_has(desc.tags@, t));
                }
            }
        }
        true
    }

    /// Creates a new archetype described by the batch's tag and component
    /// types, in registration order.
    fn create_archetype(
        &mut self,
        tags: &Vec<(TagTypeId, TagMeta, Vec<u8>)>,
        types: &Vec<(ComponentTypeId, ComponentMeta)>,
    ) -> (a: usize)
        requires
            old(self).wf_base(),
            ctype_raw_ids(types@).no_duplicates(),
            ttrip_raw_ids(tags@).no_duplicates(),
            forall|k: int| 0 <= k < types@.len() ==> (#[trigger] types@[k]).1.align >= 1,
            forall|k: int| 0 <= k < tags@.len() ==> (#[trigger] tags@[k]).1.align >= 1,
            layout_ok(types@, spec_capacity(types@)),
            forall|k: int| 0 <= k < types@.len()
                ==> old(self).comp_meta_ok((#[trigger] types@[k]).0.0, types@[k].1),
            forall|k: int| 0 <= k < tags@.len()
                ==> old(self).tag_meta_ok((#[trigger] tags@[k]).0.0, tags@[k].1),
            forall|a2: int| 0 <= a2 < old(self).storage.archetypes@.len()
                ==> !(#[trigger] old(self).arch_sig_matches(a2, tags@, types@)),
        ensures
            final(self).wf_base(),
            final(self).id == old(self).id,
            final(self).entity_allocator == old(self).entity_allocator,
            final(self).defrag_progress == old(self).defrag_progress,
            a == old(self).storage.archetypes@.len(),
            final(self).storage.archetypes@.len() == old(self).storage.archetypes@.len() + 1,
            forall|a2: int| 0 <= a2 < old(self).storage.archetypes@.len()
                ==> #[trigger] final(self).storage.archetypes@[a2]
                    == old(self).storage.archetypes@[a2],
            final(self).storage.archetypes@[a as int].chunk_sets@.len() == 0,
            final(self).model() == old(self).model(),
            final(self).storage.archetypes@[a as int].desc.components@
                == types@,
            tpair_raw_ids(final(self).storage.archetypes@[a as int].desc.tags@)
                == ttrip_raw_ids(tags@),
            forall|k: int| 0 <= k < tags@.len()
                ==> #[trigger] final(self).storage.archetypes@[a as int].desc.tags@[k]
                    == ((tags@[k].0, tags@[k].1)),
            final(self).arch_sig_matches(a as int, tags@, types@),
    {
        let ghost pre = *self;
        let mut desc = ArchetypeDescription::default();
        let tn = tags.len();
        let mut k: usize = 0;
        while k < tn
            invariant
                tn == tags@.len(),
                k <= tn,
                desc.components@.len() == 0,
                desc.tags@.len() == k,
                forall|j: int| 0 <= j < k
                    ==> #[trigger] desc.tags@[j] == ((tags@[j].0, tags@[j].1)),
            decreases tn - k,
        {
            desc.register_tag_raw(tags[k].0, tags[k].1);
            k += 1;
        }
        let cn = types.len();
        let mut k2: usize = 0;
        while k2 < cn
            invariant
                tn == tags@.len(),
                cn == types@.len(),
                k2 <= cn,
                desc.tags@.len() == tn,
                forall|j: int| 0 <= j < tn
                    ==> #[trigger] desc.tags@[j] == ((tags@[j].0, tags@[j].1)),
                desc.components@.len() == k2,
                forall|j: int| 0 <= j < k2
                    ==> #[trigger] desc.components@[j] == types@[j],
            decreases cn - k2,
        {
            desc.register_component_raw(types[k2].0, types[k2].1);
            k2 += 1;
        }
        proof {
            assert(desc.components@ =~= types@);
            assert(crate::meta::comp_ids(desc.components@) =~= ctype_raw_ids(types@));
            assert(crate::meta::tag_ids(desc.tags@) =~= ttrip_raw_ids(tags@));
            assert(tpair_raw_ids(desc.tags@) =~= ttrip_raw_ids(tags@));
            assert(desc.wf());
        }
        let ghost descg = desc;
        let a = self.storage.alloc_archetype(desc);
        proof {
            let post = *self;
            assert(post.storage.archetypes@[a as int].desc == descg);
            assert forall|t: u64|
                #[trigger] ctypes_has(post.storage.archetypes@[a as int].desc.components@, t)
                    == ctypes_has(types@, t) by {}
            assert forall|t: u64|
                #[trigger] tpair_has(post.storage.archetypes@[a as int].desc.tags@, t)
                    == ttrip_has(tags@, t) by {
                if tpair_has(descg.tags@, t) {
                    let i = choose|i: int|
                        0 <= i < descg.tags@.len() && (#[trigger] descg.tags@[i]).0.0 == t;
                    assert(tags@[i].0.0 == t);
                }
                if ttrip_has(tags@, t) {
                    let i = ttrip_idx(tags@, t);
                    assert(descg.tags@[i].0.0 == t);
                }
            }
            assert(post.links_ok()) by {
                assert forall|e: Entity|
                    #[trigger] post.entity_allocator.spec_is_alive(e)
                        && post.entity_allocator.spec_located(e) implies
                    post.loc_ok(post.entity_allocator.spec_loc(e))
                        && post.chunk_at(post.entity_allocator.spec_loc(e))
                            .entities@[post.entity_allocator.spec_loc(e).component as int]
                                == e by {
                    assert(pre.entity_allocator.spec_is_alive(e));
                    let l = pre.entity_allocator.spec_loc(e);
                    assert(pre.loc_ok(l));
                    assert(post.chunk_at(l) == pre.chunk_at(l));
                }
            }
            assert(post.model() =~= pre.model()) by {
                assert forall|e: Entity| #[trigger] pre.model().dom().contains(e) implies
                    post.model().dom().contains(e)
                        && post.model()[e] == pre.model()[e] by {
                    let l = pre.entity_allocator.spec_loc(e);
                    assert(pre.loc_ok(l));
                    assert(post.chunk_at(l) == pre.chunk_at(l));
                    assert(post.storage.archetypes@[l.archetype as int].tags
                        == pre.storage.archetypes@[l.archetype as int].tags);
                    assert(post.record_at(l) == pre.record_at(l));
                }
            }
            // The new archetype's signature differs from every existing
            // one, since none matched the batch.
            assert(post.sigs_distinct()) by {
                let n0 = pre.storage.archetypes@.len();
                assert forall|a1: int, a2: int|
                    0 <= a1 < a2 < post.storage.archetypes@.len() implies
                    !(#[trigger] post.archs_sig_equal(a1, a2)) by {
                    if a2 < n0 {
                        assert(pre.storage.archetypes@[a1].desc
                            == post.storage.archetypes@[a1].desc);
                        assert(pre.storage.archetypes@[a2].desc
                            == post.storage.archetypes@[a2].desc);
                        assert(!pre.archs_sig_equal(a1, a2));
                        if post.archs_sig_equal(a1, a2) {
                            assert forall|t: u64|
                                #[trigger] ctypes_has(
                                    pre.storage.archetypes@[a1].desc.components@, t)
                                    == ctypes_has(
                                        pre.storage.archetypes@[a2].desc.components@, t) by {
                                assert(pre.storage.archetypes@[a1].desc
                                    == post.storage.archetypes@[a1].desc);
                                assert(pre.storage.archetypes@[a2].desc
                                    == post.storage.archetypes@[a2].desc);
                            }
                            assert forall|t: u64|
                                #[trigger] tpair_has(
                                    pre.storage.archetypes@[a1].desc.tags@, t)
                                    == tpair_has(
                                        pre.storage.archetypes@[a2].desc.tags@, t) by {
                                assert(pre.storage.archetypes@[a1].desc
                                    == post.storage.archetypes@[a1].desc);
                                assert(pre.storage.archetypes@[a2].desc
                                    == post.storage.archetypes@[a2].desc);
                            }
                            assert(pre.archs_sig_equal(a1, a2));
                        }
                    } else {
                        assert(!pre.arch_sig_matches(a1, tags@, types@));
                        if post.archs_sig_equal(a1, a2) {
                            assert(post.arch_sig_matches(a2 as int, tags@, types@));
                            assert forall|t: u64|
                                #[trigger] ctypes_has(
                                    pre.storage.archetypes@[a1].desc.components@, t)
                                    == ctypes_has(types@, t) by {
                                assert(pre.storage.archetypes@[a1].desc
                                    == post.storage.archetypes@[a1].desc);
                            }
                            assert forall|t: u64|
                                #[trigger] tpair_has(
                                    pre.storage.archetypes@[a1].desc.tags@, t)
                                    == ttrip_has(tags@, t) by {
                                assert(pre.storage.archetypes@[a1].desc
                                    == post.storage.archetypes@[a1].desc);
                            }
                            assert(pre.arch_sig_matches(a1, tags@, types@));
                        }
                    }
                }
            }
            // Metadata stays a function of the type: the new description's
            // entries agree with every archetype by the agreement
            // preconditions, and with themselves by distinctness.
            assert(post.metas_consistent()) by {
                let n0 = pre.storage.archetypes@.len();
                assert forall|a1: int, i1: int, a2: int, i2: int|
                    0 <= a1 < post.storage.archetypes@.len()
                        && 0 <= i1 < post.storage.archetypes@[a1].desc.components@.len()
                        && 0 <= a2 < post.storage.archetypes@.len()
                        && 0 <= i2 < post.storage.archetypes@[a2].desc.components@.len()
                        && (#[trigger] post.storage.archetypes@[a1].desc.components@[i1]).0.0
                            == (#[trigger] post.storage.archetypes@[a2]
                                .desc.components@[i2]).0.0
                    implies post.storage.archetypes@[a1].desc.components@[i1].1
                        == post.storage.archetypes@[a2].desc.components@[i2].1 by {
                    if a1 < n0 && a2 < n0 {
                        assert(post.storage.archetypes@[a1] == pre.storage.archetypes@[a1]);
                        assert(post.storage.archetypes@[a2] == pre.storage.archetypes@[a2]);
                    } else if a1 < n0 {
                        assert(post.storage.archetypes@[a2].desc.components@[i2]
                            == types@[i2]);
                        assert(pre.comp_meta_ok(types@[i2].0.0, types@[i2].1));
                        assert(post.storage.archetypes@[a1] == pre.storage.archetypes@[a1]);
                    } else if a2 < n0 {
                        assert(post.storage.archetypes@[a1].desc.components@[i1]
                            == types@[i1]);
                        assert(pre.comp_meta_ok(types@[i1].0.0, types@[i1].1));
                        assert(post.storage.archetypes@[a2] == pre.storage.archetypes@[a2]);
                    } else {
                        if i1 != i2 {
                            assert(ctype_raw_ids(types@)[i1] == ctype_raw_ids(types@)[i2]);
                        }
                    }
                }
                assert forall|a1: int, i1: int, a2: int, i2: int|
                    0 <= a1 < post.storage.archetypes@.len()
                        && 0 <= i1 < post.storage.archetypes@[a1].desc.tags@.len()
                        && 0 <= a2 < post.storage.archetypes@.len()
                        && 0 <= i2 < post.storage.archetypes@[a2].desc.tags@.len()
                        && (#[trigger] post.storage.archetypes@[a1].desc.tags@[i1]).0.0
                            == (#[trigger] post.storage.archetypes@[a2].desc.tags@[i2]).0.0
                    implies post.storage.archetypes@[a1].desc.tags@[i1].1
                        == post.storage.archetypes@[a2].desc.tags@[i2].1 by {
                    if a1 < n0 && a2 < n0 {
                        assert(post.storage.archetypes@[a1] == pre.storage.archetypes@[a1]);
                        assert(post.storage.archetypes@[a2] == pre.storage.archetypes@[a2]);
                    } else if a1 < n0 {
                        assert(post.storage.archetypes@[a2].desc.tags@[i2]
                            == ((tags@[i2].0, tags@[i2].1)));
                        assert(pre.tag_meta_ok(tags@[i2].0.0, tags@[i2].1));
                        assert(post.storage.archetypes@[a1] == pre.storage.archetypes@[a1]);
                    } else if a2 < n0 {
                        assert(post.storage.archetypes@[a1].desc.tags@[i1]
                            == ((tags@[i1].0, tags@[i1].1)));
                        assert(pre.tag_meta_ok(tags@[i1].0.0, tags@[i1].1));
                        assert(post.storage.archetypes@[a2] == pre.storage.archetypes@[a2]);
                    } else {
                        if i1 != i2 {
                            assert(ttrip_raw_ids(tags@)[i1] == ttrip_raw_ids(tags@)[i2]);
                        }
                    }
                }
            }
        }
        a
    }

    /// The batch's tag values, keyed and ordered to match archetype `a`'s
    /// tag storages.
    fn build_tag_values(
        &self,
        a: usize,
        tags: &Vec<(TagTypeId, TagMeta, Vec<u8>)>,
    ) -> (vals: Vec<(u64, Vec<u8>)>)
        requires
            self.wf_base(),
            a < self.storage.archetypes@.len(),
            ttrip_raw_ids(tags@).no_duplicates(),
            forall|t: u64| #[trigger] tpair_has(self.storage.archetypes@[a as int].desc.tags@, t)
                == ttrip_has(tags@, t),
        ensures
            vals@.len() == self.storage.archetypes@[a as int].tags.data@.len(),
            forall|k: int| 0 <= k < vals@.len()
                ==> (#[trigger] vals@[k]).0
                        == self.storage.archetypes@[a as int].tags.data@[k].0
                    && ttrip_has(tags@, vals@[k].0)
                    && vals@[k].1@ == tags@[ttrip_idx(tags@, vals@[k].0)].2@,
    {
        let ghost arch = self.storage.archetypes@[a as int];
        let n = self.storage.archetypes[a].tags.data.len();
        let mut vals: Vec<(u64, Vec<u8>)> = Vec::new();
        let mut k: usize = 0;
        while k < n
            invariant
                self.wf_base(),
                a < self.storage.archetypes@.len(),
                arch == self.storage.archetypes@[a as int],
                ttrip_raw_ids(tags@).no_duplicates(),
                forall|t: u64| #[trigger] tpair_has(arch.desc.tags@, t) == ttrip_has(tags@, t),
                n == arch.tags.data@.len(),
                k <= n,
                vals@.len() == k,
                forall|j: int| 0 <= j < k
                    ==> (#[trigger] vals@[j]).0 == arch.tags.data@[j].0
                        && ttrip_has(tags@, vals@[j].0)
                        && vals@[j].1@ == tags@[ttrip_idx(tags@, vals@[j].0)].2@,
            decreases n - k,
        {
            let key = self.storage.archetypes[a].tags.data[k].0;
            proof {
                // The storage key is one of the description's tags, hence
                // present in the batch.
                assert(arch.tags_match());
                crate::archetype::lemma_tag_key_in_desc(arch, k as int);
                assert(crate::archetype::desc_has_tag(arch, key));
                let i = choose|i: int|
                    0 <= i < arch.desc.tags@.len()
                        && (#[trigger] arch.desc.tags@[i]).0.0 == key;
                assert(tpair_has(arch.desc.tags@, key));
                assert(ttrip_has(tags@, key));
            }
            let tn = tags.len();
            let mut j: usize = 0;
            let mut found: usize = 0;
            let mut any = false;
            while j < tn
                invariant
                    tn == tags@.len(),
                    j <= tn,
                    !any ==> forall|i: int| 0 <= i < j ==> (#[trigger] tags@[i]).0.0 != key,
                    any ==> found < tn && tags@[found as int].0.0 == key,
                ensures
                    any ==> found < tn && tags@[found as int].0.0 == key,
                    !any ==> forall|i: int| 0 <= i < tn ==> (#[trigger] tags@[i]).0.0 != key,
                decreases tn - j + (if any { 0int } else { 1int }),
            {
                if tags[j].0.0 == key {
                    found = j;
                    any = true;
                    break;
                }
                j += 1;
            }
            proof {
                if !any {
                    assert(ttrip_has(tags@, key));
                    let i = choose|i: int|
                        0 <= i < tags@.len() && (#[trigger] tags@[i]).0.0 == key;
                    assert(tags@[i].0.0 == key);
                    assert(tags@[i].0.0 != key);
                }
                lemma_ttrip_idx(tags@, key, found as int);
            }
            let v = crate::meta::copy_bytes(&tags[found].2);
            vals.push((key, v));
            k += 1;
        }
        vals
    }

    /// Searches archetype `a` for a chunk-set whose tag values equal `vals`
    /// (given per storage in storage order).
    fn find_chunk_set(&self, a: usize, vals: &Vec<(u64, Vec<u8>)>) -> (r: Option<usize>)
        requires
            self.wf_base(),
            a < self.storage.archetypes@.len(),
            vals@.len() == self.storage.archetypes@[a as int].tags.data@.len(),
        ensures
            match r {
                Some(s) => s < self.storage.archetypes@[a as int].chunk_sets@.len()
                    && self.storage.archetypes@[a as int].values_match_set(vals@, s as int),
                None => forall|s: int|
                    0 <= s < self.storage.archetypes@[a as int].chunk_sets@.len()
                        ==> !(#[trigger] self.storage.archetypes@[a as int]
                            .values_match_set(vals@, s)),
            },
    {
        let ghost arch = self.storage.archetypes@[a as int];
        let ns = self.storage.archetypes[a].chunk_sets.len();
        let mut s: usize = 0;
        while s < ns
            invariant
                self.wf_base(),
                a < self.storage.archetypes@.len(),
                arch == self.storage.archetypes@[a as int],
                vals@.len() == arch.tags.data@.len(),
                ns == arch.chunk_sets@.len(),
                s <= ns,
                forall|s2: int| 0 <= s2 < s
                    ==> !(#[trigger] arch.values_match_set(vals@, s2)),
            decreases ns - s,
        {
            let n = vals.len();
            let mut k: usize = 0;
            let mut matches = true;
            while k < n && matches
                invariant
                    self.wf_base(),
                    a < self.storage.archetypes@.len(),
                    arch == self.storage.archetypes@[a as int],
                    vals@.len() == arch.tags.data@.len(),
                    n == vals@.len(),
                    ns == arch.chunk_sets@.len(),
                    s < ns,
                    k <= n,
                    matches ==> forall|m: int| 0 <= m < k
                        ==> (#[trigger] arch.tags.data@[m]).1.data@[s as int]@
                            == vals@[m].1@,
                    !matches ==> exists|m: int| 0 <= m < n
                        && (#[trigger] arch.tags.data@[m]).1.data@[s as int]@
                            != vals@[m].1@,
                decreases n - k + (if matches { 1int } else { 0int }),
            {
                proof {
                    assert(arch.tags.data@[k as int].1.data@.len() == ns);
                }
                let st = &self.storage.archetypes[a].tags.data[k].1;
                if !crate::meta::bytes_equal(st.get(s), &vals[k].1) {
                    matches = false;
                } else {
                    k += 1;
                }
            }
            if matches {
                return Some(s);
            }
            s += 1;
        }
        None
    }

    /// Writes the row of a live but not-yet-located entity into chunk-set
    /// `s` of archetype `a` and records its location. Extends the model by
    /// exactly this entity's record.
    fn place_absorbed_row(
        &mut self,
        e: Entity,
        a: usize,
        s: usize,
        types: &Vec<(ComponentTypeId, ComponentMeta)>,
        row: &Vec<Vec<u8>>,
    )
        requires
            old(self).wf_base(),
            old(self).entity_allocator.spec_is_alive(e),
            !old(self).entity_allocator.spec_located(e),
            a < old(self).storage.archetypes@.len(),
            s < old(self).storage.archetypes@[a as int].chunk_sets@.len(),
            ctype_raw_ids(types@).no_duplicates(),
            row@.len() == types@.len(),
            forall|k: int| 0 <= k < types@.len()
                ==> (#[trigger] row@[k])@.len() == types@[k].1.size,
            forall|t: u64| #[trigger] ctypes_has(
                old(self).storage.archetypes@[a as int].desc.components@, t)
                == ctypes_has(types@, t),
            forall|i: int, k: int|
                0 <= i < old(self).storage.archetypes@[a as int].desc.components@.len()
                    && 0 <= k < types@.len()
                    && (#[trigger] old(self).storage.archetypes@[a as int]
                        .desc.components@[i]).0.0 == (#[trigger] types@[k]).0.0
                    ==> old(self).storage.archetypes@[a as int].desc.components@[i].1
                        == types@[k].1,
        ensures
            final(self).wf_base(),
            final(self).id == old(self).id,
            final(self).defrag_progress == old(self).defrag_progress,
            final(self).storage.archetypes@.len() == old(self).storage.archetypes@.len(),
            forall|a2: int| 0 <= a2 < old(self).storage.archetypes@.len() && a2 != a
                ==> #[trigger] final(self).storage.archetypes@[a2]
                    == old(self).storage.archetypes@[a2],
            final(self).storage.archetypes@[a as int].desc
                == old(self).storage.archetypes@[a as int].desc,
            final(self).storage.archetypes@[a as int].tags
                == old(self).storage.archetypes@[a as int].tags,
            final(self).storage.archetypes@[a as int].chunk_sets@.len()
                == old(self).storage.archetypes@[a as int].chunk_sets@.len(),
            forall|e2: Entity| #[trigger] final(self).entity_allocator.spec_is_alive(e2)
                == old(self).entity_allocator.spec_is_alive(e2),
            forall|e2: Entity| e2 != e
                ==> #[trigger] final(self).entity_allocator.spec_located(e2)
                    == old(self).entity_allocator.spec_located(e2),
            final(self).entity_allocator.spec_located(e),
            forall|e2: Entity| #[trigger] old(self).model().dom().contains(e2)
                ==> final(self).model().dom().contains(e2)
                    && final(self).model()[e2] == old(self).model()[e2],
            forall|e2: Entity| #[trigger] final(self).model().dom().contains(e2)
                ==> old(self).model().dom().contains(e2) || e2 == e,
            final(self).model().dom().contains(e),
            final(self).model()[e] == (EntityRecord {
                components: row_map(types@, row@),
                tags: old(self).storage.archetypes@[a as int].tags.tuple_at(s as int),
            }),
            final(self).entity_allocator.buffer@ == old(self).entity_allocator.buffer@,
            final(self).entity_allocator.free@ == old(self).entity_allocator.free@,
    {
        let ghost pre = *self;
        let c = {
            let arch: &mut ArchetypeData = &mut self.storage.archetypes[a];
            arch.get_free_chunk(s)
        };
        let ghost mid2 = *self;
        let srow = build_sorted_row(types, row);
        let ghost srowg = srow@;
        let ghost archpre = pre.storage.archetypes@[a as int];
        let ghost chunkpre = mid2.storage.archetypes@[a as int].chunk_sets@[s as int]
            .chunks@[c as int];
        proof {
            assert(archpre.chunk_matches(chunkpre)) by {
                assert(mid2.storage.archetypes@[a as int].desc == archpre.desc);
                assert(mid2.storage.archetypes@[a as int].component_layout
                    == archpre.component_layout);
            }
            assert(chunkpre.components@.len() == types@.len()) by {
                lemma_ctypes_len_eq(archpre.desc.components@, types@);
            }
            assert forall|t: u64| #[trigger] dict_has(chunkpre.components@, t)
                == dict_has(srowg, t) by {
                if dict_has(chunkpre.components@, t) {
                    crate::archetype::lemma_chunk_cols_are_desc(
                        mid2.storage.archetypes@[a as int], chunkpre);
                    let k = dict_idx(chunkpre.components@, t);
                    lemma_dict_idx(chunkpre.components@, t, k);
                    assert(crate::archetype::desc_has_comp(
                        mid2.storage.archetypes@[a as int], t));
                    let i = choose|i: int|
                        0 <= i < archpre.desc.components@.len()
                            && (#[trigger] archpre.desc.components@[i]).0.0 == t;
                    assert(ctypes_has(archpre.desc.components@, t));
                    assert(ctypes_has(types@, t));
                    assert(dict_has(srowg, t));
                }
                if dict_has(srowg, t) {
                    assert(ctypes_has(types@, t));
                    assert(ctypes_has(archpre.desc.components@, t));
                    let i = ctypes_idx(archpre.desc.components@, t);
                    assert(chunkpre.has_type(archpre.desc.components@[i].0.0));
                }
            }
            crate::archetype::lemma_sorted_same_keys(chunkpre.components@, srowg);
            assert forall|k: int| 0 <= k < srowg.len() implies
                (#[trigger] srowg[k]).0 == chunkpre.components@[k].0
                    && srowg[k].1@.len() == chunkpre.components@[k].1.element_size by {
                let t = srowg[k].0;
                let j = ctypes_idx(types@, t);
                assert(ctypes_has(types@, t));
                assert(srowg[k].1@ == row@[j]@);
                assert(row@[j]@.len() == types@[j].1.size);
                assert(ctypes_has(archpre.desc.components@, t));
                let i = ctypes_idx(archpre.desc.components@, t);
                assert(archpre.desc.components@[i].0.0 == t);
                assert(archpre.desc.components@[i].1 == types@[j].1);
                assert(dict_val(chunkpre.components@, archpre.desc.components@[i].0.0)
                    .element_size == archpre.desc.components@[i].1.size);
                lemma_dict_idx(chunkpre.components@, t, k);
            }
        }
        let pos = {
            let arch: &mut ArchetypeData = &mut self.storage.archetypes[a];
            let set: &mut Chunkset = &mut arch.chunk_sets[s];
            let chunk: &mut ComponentStorage = &mut set.chunks[c];
            let pos = chunk.len();
            chunk.push_row(e, srow);
            pos
        };
        let ghost mid3 = *self;
        self.entity_allocator.set_location(e.index, EntityLocation::new(a, s, c, pos));
        proof {
            let post = *self;
            let ghost chunkpost = mid3.storage.archetypes@[a as int].chunk_sets@[s as int]
                .chunks@[c as int];
            let ghost newloc = EntityLocation {
                archetype: a,
                set: s,
                chunk: c,
                component: pos,
            };
            crate::dict::lemma_dict_resolve(chunkpre.components@, chunkpost.components@);
            assert(post.storage.wf()) by {
                assert forall|a2: int| 0 <= a2 < post.storage.archetypes@.len() implies
                    (#[trigger] post.storage.archetypes@[a2]).wf() by {
                    if a2 == a {
                        let archpost = post.storage.archetypes@[a as int];
                        let archmid = mid2.storage.archetypes@[a as int];
                        assert(archmid.wf());
                        assert(archpost.chunk_matches(chunkpost)) by {
                            assert forall|i: int|
                                0 <= i < archpost.desc.components@.len() implies
                                chunkpost.has_type(
                                    (#[trigger] archpost.desc.components@[i]).0.0)
                                    && dict_val(chunkpost.components@,
                                        archpost.desc.components@[i].0.0).element_size
                                        == archpost.desc.components@[i].1.size by {
                                let t = archpost.desc.components@[i].0.0;
                                assert(dict_has(chunkpre.components@, t));
                                let k = dict_idx(chunkpre.components@, t);
                                assert(dict_val(chunkpost.components@, t)
                                    == chunkpost.components@[k].1);
                                assert(dict_val(chunkpre.components@, t)
                                    == chunkpre.components@[k].1);
                            }
                        }
                        assert forall|s2: int, c2: int|
                            0 <= s2 < archpost.chunk_sets@.len()
                                && 0 <= c2 < archpost.chunk_sets@[s2].chunks@.len() implies
                            archpost.chunk_matches(
                                #[trigger] archpost.chunk_sets@[s2].chunks@[c2])
                                && archpost.chunk_sets@[s2].chunks@[c2].id
                                    == crate::storage::ChunkId(
                                        archpost.id, s2 as usize, c2 as usize) by {
                            if s2 == s && c2 == c {
                            } else {
                                assert(archpost.chunk_sets@[s2].chunks@[c2]
                                    == archmid.chunk_sets@[s2].chunks@[c2]);
                                assert(archmid.chunk_matches(
                                    archmid.chunk_sets@[s2].chunks@[c2]));
                            }
                        }
                        assert forall|s2: int| 0 <= s2 < archpost.chunk_sets@.len() implies
                            (#[trigger] archpost.chunk_sets@[s2]).wf() by {
                            if s2 == s {
                                assert forall|c1: int, c2: int|
                                    0 <= c1 < archpost.chunk_sets@[s2].chunks@.len()
                                        && 0 <= c2 < archpost.chunk_sets@[s2].chunks@.len()
                                    implies crate::archetype::same_chunk_layout(
                                        #[trigger] archpost.chunk_sets@[s2].chunks@[c1],
                                        #[trigger] archpost.chunk_sets@[s2].chunks@[c2],
                                    ) by {
                                    assert(archpost.chunk_matches(
                                        archpost.chunk_sets@[s2].chunks@[c1]));
                                    assert(archpost.chunk_matches(
                                        archpost.chunk_sets@[s2].chunks@[c2]));
                                    crate::archetype::lemma_same_layout_of_matches(
                                        archpost,
                                        archpost.chunk_sets@[s2].chunks@[c1],
                                        archpost.chunk_sets@[s2].chunks@[c2],
                                    );
                                }
                                assert forall|c2: int|
                                    0 <= c2 < archpost.chunk_sets@[s2].chunks@.len() implies
                                    (#[trigger] archpost.chunk_sets@[s2].chunks@[c2]).wf()
                                by {
                                    if c2 != c {
                                        assert(archpost.chunk_sets@[s2].chunks@[c2]
                                            == archmid.chunk_sets@[s2].chunks@[c2]);
                                    }
                                }
                            } else {
                                assert(archpost.chunk_sets@[s2] == archmid.chunk_sets@[s2]);
                            }
                        }
                        assert(archpost.wf());
                    } else {
                        assert(post.storage.archetypes@[a2] == pre.storage.archetypes@[a2]);
                    }
                }
            }
            assert(post.links_ok()) by {
                assert forall|e2: Entity|
                    #[trigger] post.entity_allocator.spec_is_alive(e2)
                        && post.entity_allocator.spec_located(e2) implies
                    post.loc_ok(post.entity_allocator.spec_loc(e2))
                        && post.chunk_at(post.entity_allocator.spec_loc(e2))
                            .entities@[post.entity_allocator.spec_loc(e2).component as int]
                                == e2 by {
                    if e2 == e {
                        assert(post.entity_allocator.spec_loc(e) == newloc);
                        assert(post.chunk_at(newloc).entities@
                            == chunkpre.entities@.push(e));
                    } else {
                        assert(pre.entity_allocator.spec_is_alive(e2));
                        assert(pre.entity_allocator.spec_located(e2)) by {
                            if e2.index == e.index {
                                assert(pre.entity_allocator.entry_of(e.index).generation
                                    == e.generation);
                                assert(e2 == e);
                            }
                        }
                        let l = pre.entity_allocator.spec_loc(e2);
                        assert(post.entity_allocator.spec_loc(e2) == l);
                        assert(pre.loc_ok(l));
                        if l.archetype == a && l.set == s && l.chunk == c {
                            assert(post.chunk_at(l).entities@[l.component as int]
                                == chunkpre.entities@[l.component as int]);
                        } else {
                            assert(post.chunk_at(l) == pre.chunk_at(l));
                        }
                    }
                }
                assert forall|a2: int, s2: int, c2: int, i: int|
                    0 <= a2 < post.storage.archetypes@.len()
                        && 0 <= s2 < post.storage.archetypes@[a2].chunk_sets@.len()
                        && 0 <= c2 < post.storage.archetypes@[a2].chunk_sets@[s2]
                            .chunks@.len()
                        && 0 <= i < post.storage.archetypes@[a2].chunk_sets@[s2]
                            .chunks@[c2].entities@.len() implies {
                    let e2 = #[trigger] post.storage.archetypes@[a2].chunk_sets@[s2]
                        .chunks@[c2].entities@[i];
                    &&& post.entity_allocator.spec_is_alive(e2)
                    &&& post.entity_allocator.spec_located(e2)
                    &&& post.entity_allocator.spec_loc(e2).archetype == a2
                    &&& post.entity_allocator.spec_loc(e2).set == s2
                    &&& post.entity_allocator.spec_loc(e2).chunk == c2
                    &&& post.entity_allocator.spec_loc(e2).component == i
                } by {
                    let e2 = post.storage.archetypes@[a2].chunk_sets@[s2]
                        .chunks@[c2].entities@[i];
                    if a2 == a && s2 == s && c2 == c && i == pos {
                        assert(e2 == e);
                    } else {
                        assert(e2 == pre.storage.archetypes@[a2].chunk_sets@[s2]
                            .chunks@[c2].entities@[i]) by {
                            if a2 == a {
                                if s2 == s && c2 == c {
                                    assert(post.storage.archetypes@[a2].chunk_sets@[s2]
                                        .chunks@[c2].entities@
                                        == chunkpre.entities@.push(e));
                                } else {
                                    assert(post.storage.archetypes@[a2].chunk_sets@[s2]
                                        .chunks@[c2]
                                        == mid2.storage.archetypes@[a2].chunk_sets@[s2]
                                            .chunks@[c2]);
                                }
                            }
                        }
                        assert(pre.entity_allocator.spec_is_alive(e2));
                        assert(pre.entity_allocator.spec_located(e2));
                        assert(e2 != e) by {
                            assert(!pre.entity_allocator.spec_located(e));
                        }
                        assert(post.entity_allocator.spec_loc(e2)
                            == pre.entity_allocator.spec_loc(e2)) by {
                            if e2.index == e.index {
                                assert(pre.entity_allocator.entry_of(e.index).generation
                                    == e.generation);
                                assert(e2 == e);
                            }
                        }
                    }
                }
            }
            assert forall|e2: Entity| #[trigger] pre.model().dom().contains(e2) implies
                post.model().dom().contains(e2)
                    && post.model()[e2] == pre.model()[e2] by {
                assert(e2 != e);
                if e2.index == e.index {
                    assert(pre.entity_allocator.entry_of(e.index).generation
                        == e.generation);
                    assert(e2 == e);
                }
                let l = pre.entity_allocator.spec_loc(e2);
                assert(post.entity_allocator.spec_loc(e2) == l);
                assert(pre.loc_ok(l));
                assert(post.record_at(l) == pre.record_at(l)) by {
                    assert(post.storage.archetypes@[l.archetype as int].tags
                        == pre.storage.archetypes@[l.archetype as int].tags);
                    assert(post.record_at(l).tags =~= pre.record_at(l).tags);
                    if l.archetype == a && l.set == s && l.chunk == c {
                        assert(post.chunk_at(l).row(l.component as int)
                            =~= pre.chunk_at(l).row(l.component as int)) by {
                            assert forall|t: u64|
                                #[trigger] dict_has(chunkpost.components@, t)
                                    == dict_has(chunkpre.components@, t)
                                    && (dict_has(chunkpre.components@, t)
                                        ==> chunkpost.value_at(t, l.component as int)
                                            == chunkpre.value_at(t, l.component as int))
                            by {
                                if dict_has(chunkpre.components@, t) {
                                    let k = dict_idx(chunkpre.components@, t);
                                    assert(dict_val(chunkpost.components@, t)
                                        == chunkpost.components@[k].1);
                                    assert(dict_val(chunkpre.components@, t)
                                        == chunkpre.components@[k].1);
                                    assert(chunkpost.components@[k].1.data@
                                        == chunkpre.components@[k].1.data@.push(srowg[k].1));
                                }
                            }
                        }
                    } else {
                        assert(post.chunk_at(l) == pre.chunk_at(l));
                    }
                }
            }
            assert forall|e2: Entity| #[trigger] post.model().dom().contains(e2) implies
                pre.model().dom().contains(e2) || e2 == e by {
                if e2 != e {
                    assert(pre.entity_allocator.spec_is_alive(e2));
                    if e2.index == e.index {
                        assert(pre.entity_allocator.entry_of(e.index).generation
                            == e.generation);
                        assert(e2 == e);
                    }
                }
            }
            assert(post.model().dom().contains(e));
            assert(post.model()[e] == (EntityRecord {
                components: row_map(types@, row@),
                tags: archpre.tags.tuple_at(s as int),
            })) by {
                assert(post.entity_allocator.spec_loc(e) == newloc);
                assert(post.record_at(newloc).components =~= row_map(types@, row@)) by {
                    assert forall|t: u64|
                        #[trigger] dict_has(chunkpost.components@, t)
                            == ctypes_has(types@, t)
                            && (ctypes_has(types@, t)
                                ==> chunkpost.value_at(t, pos as int)
                                    == row@[ctypes_idx(types@, t)]@) by {
                        assert(dict_has(chunkpost.components@, t)
                            == dict_has(chunkpre.components@, t));
                        assert(dict_has(chunkpre.components@, t) == dict_has(srowg, t));
                        if ctypes_has(types@, t) {
                            let k = dict_idx(chunkpre.components@, t);
                            lemma_dict_idx(srowg, t, k);
                            assert(dict_val(chunkpost.components@, t)
                                == chunkpost.components@[k].1);
                            assert(chunkpost.components@[k].1.data@
                                == chunkpre.components@[k].1.data@.push(srowg[k].1));
                            assert(chunkpost.value_at(t, pos as int) == srowg[k].1@);
                            assert(srowg[k].1@ == row@[ctypes_idx(types@, t)]@) by {
                                assert(srowg[k].1@ == row@[ctypes_idx(types@, srowg[k].0)]@);
                            }
                        }
                    }
                }
                assert(post.record_at(newloc).tags =~= archpre.tags.tuple_at(s as int)) by {
                    assert(post.storage.archetypes@[a as int].tags == archpre.tags);
                }
            }
            lemma_sigs_distinct_same_descs(pre, post);
            assert(post.wf_base());
        }
    }

    /// Removes a live entity's row from its chunk (swap-relocating the
    /// entity that filled its slot) and forgets its location, ahead of
    /// re-homing it in another archetype. The entity stays live; the model
    /// loses exactly its record.
    #[verifier::rlimit(100)]
    fn detach_row(&mut self, entity: Entity)
        requires
            old(self).wf(),
            old(self).model().dom().contains(entity),
        ensures
            final(self).wf_base(),
            final(self).id == old(self).id,
            final(self).defrag_progress == old(self).defrag_progress,
            final(self).entity_allocator.spec_is_alive(entity),
            !final(self).entity_allocator.spec_located(entity),
            forall|e2: Entity| #[trigger] final(self).entity_allocator.spec_is_alive(e2)
                == old(self).entity_allocator.spec_is_alive(e2),
            forall|e2: Entity| e2 != entity
                ==> #[trigger] final(self).entity_allocator.spec_located(e2)
                    == old(self).entity_allocator.spec_located(e2),
            final(self).model() == old(self).model().remove(entity),
            final(self).storage.archetypes@.len() == old(self).storage.archetypes@.len(),
            forall|a2: int| 0 <= a2 < old(self).storage.archetypes@.len()
                ==> (#[trigger] final(self).storage.archetypes@[a2]).desc
                        == old(self).storage.archetypes@[a2].desc
                    && final(self).storage.archetypes@[a2].tags
                        == old(self).storage.archetypes@[a2].tags
                    && final(self).storage.archetypes@[a2].chunk_sets@.len()
                        == old(self).storage.archetypes@[a2].chunk_sets@.len(),
            final(self).entity_allocator.buffer@ == old(self).entity_allocator.buffer@,
            final(self).entity_allocator.free@ == old(self).entity_allocator.free@,
    {
        let ghost pre = *self;
        let loc = match self.entity_allocator.get_location(entity.index) {
            Some(l) => l,
            None => {
                proof {
                    assert(false);
                }
                EntityLocation::new(0, 0, 0, 0)
            }
        };
        proof {
            assert(loc == pre.entity_allocator.spec_loc(entity)) by {
                assert(pre.entity_allocator.spec_is_alive(entity));
            }
            assert(pre.loc_ok(loc));
            assert(pre.chunk_at(loc).entities@[loc.component as int] == entity);
        }
        let ghost chunkpre = pre.chunk_at(loc);
        let victim = {
            let arch: &mut ArchetypeData = &mut self.storage.archetypes[loc.archetype];
            let set: &mut Chunkset = &mut arch.chunk_sets[loc.set];
            let chunk: &mut ComponentStorage = &mut set.chunks[loc.chunk];
            chunk.swap_remove(loc.component, false)
        };
        let ghost mid2 = *self;
        let ghost chunkpost = mid2.chunk_at(loc);
        let ghost n = chunkpre.entities@.len();
        if let Some(swapped) = victim {
            proof {
                assert(swapped == chunkpre.entities@[n - 1]);
                assert(pre.entity_allocator.spec_is_alive(swapped));
                assert(pre.entity_allocator.spec_loc(swapped).archetype == loc.archetype
                    && pre.entity_allocator.spec_loc(swapped).set == loc.set
                    && pre.entity_allocator.spec_loc(swapped).chunk == loc.chunk
                    && pre.entity_allocator.spec_loc(swapped).component == n - 1);
                assert(swapped != entity) by {
                    assert(pre.entity_allocator.spec_loc(entity) == loc);
                    assert(loc.component < n);
                }
                assert(mid2.entity_allocator.has_index(swapped.index));
            }
            self.entity_allocator.set_location(swapped.index, loc);
        }
        proof {
            assert(self.entity_allocator.has_index(entity.index)) by {
                assert(pre.entity_allocator.spec_is_alive(entity));
            }
        }
        self.entity_allocator.clear_location(entity.index);
        proof {
            let post = *self;
            crate::dict::lemma_dict_resolve(chunkpre.components@, chunkpost.components@);
            let archpre = pre.storage.archetypes@[loc.archetype as int];
            let archpost = post.storage.archetypes@[loc.archetype as int];
            assert(post.storage.wf()) by {
                assert forall|a2: int| 0 <= a2 < post.storage.archetypes@.len() implies
                    (#[trigger] post.storage.archetypes@[a2]).wf() by {
                    if a2 == loc.archetype as int {
                        assert(archpre.wf());
                        assert(archpost.chunk_matches(chunkpost)) by {
                            assert(archpre.chunk_matches(chunkpre));
                            assert forall|i: int|
                                0 <= i < archpost.desc.components@.len() implies
                                chunkpost.has_type(
                                    (#[trigger] archpost.desc.components@[i]).0.0)
                                    && dict_val(chunkpost.components@,
                                        archpost.desc.components@[i].0.0).element_size
                                        == archpost.desc.components@[i].1.size by {
                                let t = archpost.desc.components@[i].0.0;
                                assert(dict_has(chunkpre.components@, t));
                                let k = dict_idx(chunkpre.components@, t);
                                assert(dict_val(chunkpost.components@, t)
                                    == chunkpost.components@[k].1);
                                assert(dict_val(chunkpre.components@, t)
                                    == chunkpre.components@[k].1);
                            }
                        }
                        assert forall|s2: int, c2: int|
                            0 <= s2 < archpost.chunk_sets@.len()
                                && 0 <= c2 < archpost.chunk_sets@[s2].chunks@.len() implies
                            archpost.chunk_matches(
                                #[trigger] archpost.chunk_sets@[s2].chunks@[c2])
                                && archpost.chunk_sets@[s2].chunks@[c2].id
                                    == crate::storage::ChunkId(
                                        archpost.id, s2 as usize, c2 as usize) by {
                            if s2 == loc.set as int && c2 == loc.chunk as int {
                            } else {
                                assert(archpost.chunk_sets@[s2].chunks@[c2]
                                    == archpre.chunk_sets@[s2].chunks@[c2]);
                                assert(archpre.chunk_matches(
                                    archpre.chunk_sets@[s2].chunks@[c2]));
                            }
                        }
                        assert forall|s2: int| 0 <= s2 < archpost.chunk_sets@.len() implies
                            (#[trigger] archpost.chunk_sets@[s2]).wf() by {
                            if s2 == loc.set as int {
                                assert forall|c1: int, c2: int|
                                    0 <= c1 < archpost.chunk_sets@[s2].chunks@.len()
                                        && 0 <= c2 < archpost.chunk_sets@[s2].chunks@.len()
                                    implies crate::archetype::same_chunk_layout(
                                        #[trigger] archpost.chunk_sets@[s2].chunks@[c1],
                                        #[trigger] archpost.chunk_sets@[s2].chunks@[c2],
                                    ) by {
                                    assert(archpost.chunk_matches(
                                        archpost.chunk_sets@[s2].chunks@[c1]));
                                    assert(archpost.chunk_matches(
                                        archpost.chunk_sets@[s2].chunks@[c2]));
                                    crate::archetype::lemma_same_layout_of_matches(
                                        archpost,
                                        archpost.chunk_sets@[s2].chunks@[c1],
                                        archpost.chunk_sets@[s2].chunks@[c2],
                                    );
                                }
                                assert forall|c2: int|
                                    0 <= c2 < archpost.chunk_sets@[s2].chunks@.len() implies
                                    (#[trigger] archpost.chunk_sets@[s2].chunks@[c2]).wf()
                                by {
                                    if c2 != loc.chunk as int {
                                        assert(archpost.chunk_sets@[s2].chunks@[c2]
                                            == archpre.chunk_sets@[s2].chunks@[c2]);
                                    }
                                }
                            } else {
                                assert(archpost.chunk_sets@[s2] == archpre.chunk_sets@[s2]);
                            }
                        }
                        assert(archpost.wf());
                    } else {
                        assert(post.storage.archetypes@[a2] == pre.storage.archetypes@[a2]);
                    }
                }
            }
            assert(post.links_ok()) by {
                assert forall|e2: Entity|
                    #[trigger] post.entity_allocator.spec_is_alive(e2)
                        && post.entity_allocator.spec_located(e2) implies
                    post.loc_ok(post.entity_allocator.spec_loc(e2))
                        && post.chunk_at(post.entity_allocator.spec_loc(e2))
                            .entities@[post.entity_allocator.spec_loc(e2).component as int]
                                == e2 by {
                    assert(e2 != entity);
                    assert(pre.entity_allocator.spec_is_alive(e2));
                    if e2.index == entity.index {
                        assert(pre.entity_allocator.entry_of(entity.index).generation
                            == entity.generation);
                        assert(e2 == entity);
                    }
                    assert(pre.entity_allocator.spec_located(e2));
                    let l = pre.entity_allocator.spec_loc(e2);
                    if victim is Some && e2 == victim->0 {
                        assert(post.entity_allocator.spec_loc(e2) == loc);
                        assert(post.chunk_at(loc).entities@[loc.component as int]
                            == chunkpre.entities@[n - 1]);
                    } else {
                        assert(post.entity_allocator.spec_loc(e2) == l) by {
                            if victim is Some {
                                if e2.index == victim->0.index {
                                    assert(pre.entity_allocator.spec_is_alive(victim->0));
                                    assert(e2 == victim->0);
                                }
                            }
                        }
                        assert(pre.loc_ok(l));
                        if l.archetype == loc.archetype && l.set == loc.set
                            && l.chunk == loc.chunk {
                            assert(l.component != loc.component) by {
                                if l.component == loc.component {
                                    assert(chunkpre.entities@[l.component as int] == e2);
                                    assert(e2 == entity);
                                }
                            }
                            assert((l.component as int) != n - 1) by {
                                if l.component as int == n - 1 {
                                    assert(chunkpre.entities@[n - 1] == e2);
                                    if victim is Some {
                                        assert(e2 == victim->0);
                                    } else {
                                        assert(loc.component as int == n - 1);
                                        assert(e2 == entity);
                                    }
                                }
                            }
                            assert(post.chunk_at(l).entities@[l.component as int]
                                == chunkpre.entities@[l.component as int]);
                        } else {
                            assert(post.chunk_at(l) == pre.chunk_at(l));
                        }
                    }
                }
                assert forall|a2: int, s2: int, c2: int, i: int|
                    0 <= a2 < post.storage.archetypes@.len()
                        && 0 <= s2 < post.storage.archetypes@[a2].chunk_sets@.len()
                        && 0 <= c2 < post.storage.archetypes@[a2].chunk_sets@[s2]
                            .chunks@.len()
                        && 0 <= i < post.storage.archetypes@[a2].chunk_sets@[s2]
                            .chunks@[c2].entities@.len() implies {
                    let e2 = #[trigger] post.storage.archetypes@[a2].chunk_sets@[s2]
                        .chunks@[c2].entities@[i];
                    &&& post.entity_allocator.spec_is_alive(e2)
                    &&& post.entity_allocator.spec_located(e2)
                    &&& post.entity_allocator.spec_loc(e2).archetype == a2
                    &&& post.entity_allocator.spec_loc(e2).set == s2
                    &&& post.entity_allocator.spec_loc(e2).chunk == c2
                    &&& post.entity_allocator.spec_loc(e2).component == i
                } by {
                    let e2 = post.storage.archetypes@[a2].chunk_sets@[s2]
                        .chunks@[c2].entities@[i];
                    if a2 == loc.archetype as int && s2 == loc.set as int
                        && c2 == loc.chunk as int && i == loc.component as int {
                        assert(victim is Some);
                        assert(e2 == chunkpre.entities@[n - 1]);
                        assert(e2 == victim->0);
                        assert(post.entity_allocator.spec_loc(e2) == loc) by {
                            assert(e2 != entity);
                            if e2.index == entity.index {
                                assert(pre.entity_allocator.entry_of(entity.index)
                                    .generation == entity.generation);
                            }
                        }
                    } else {
                        let olde = pre.storage.archetypes@[a2].chunk_sets@[s2]
                            .chunks@[c2].entities@[i];
                        assert(e2 == olde) by {
                            if a2 == loc.archetype as int && s2 == loc.set as int
                                && c2 == loc.chunk as int {
                                assert(post.storage.archetypes@[a2].chunk_sets@[s2]
                                    .chunks@[c2].entities@
                                    == chunkpre.entities@
                                        .update(loc.component as int,
                                            chunkpre.entities@.last()).drop_last());
                            }
                        }
                        assert(pre.entity_allocator.spec_is_alive(e2));
                        assert(e2 != entity) by {
                            assert(pre.entity_allocator.spec_loc(e2).archetype == a2
                                && pre.entity_allocator.spec_loc(e2).set == s2
                                && pre.entity_allocator.spec_loc(e2).chunk == c2
                                && pre.entity_allocator.spec_loc(e2).component == i);
                            assert(pre.entity_allocator.spec_loc(entity) == loc);
                        }
                        assert(!(victim is Some && e2 == victim->0)) by {
                            if victim is Some && e2 == victim->0 {
                                assert(pre.entity_allocator.spec_loc(e2).archetype == a2
                                    && pre.entity_allocator.spec_loc(e2).set == s2
                                    && pre.entity_allocator.spec_loc(e2).chunk == c2
                                    && pre.entity_allocator.spec_loc(e2).component == i);
                                assert(pre.entity_allocator.spec_loc(e2).component
                                    == n - 1);
                                assert(i == n - 1);
                                assert(i < chunkpost.entities@.len());
                            }
                        }
                        assert(post.entity_allocator.spec_loc(e2)
                            == pre.entity_allocator.spec_loc(e2)
                            && post.entity_allocator.spec_located(e2)
                            && post.entity_allocator.spec_is_alive(e2)) by {
                            if victim is Some && e2.index == victim->0.index {
                                assert(pre.entity_allocator.spec_is_alive(victim->0));
                                assert(e2 == victim->0);
                            }
                            if e2.index == entity.index {
                                assert(pre.entity_allocator.entry_of(entity.index)
                                    .generation == entity.generation);
                                assert(e2 == entity);
                            }
                        }
                    }
                }
            }
            assert(post.model() =~= pre.model().remove(entity)) by {
                assert forall|e2: Entity| #[trigger] post.model().dom().contains(e2)
                    == (pre.model().dom().contains(e2) && e2 != entity) by {
                    if e2 != entity {
                        if victim is Some && e2.index == victim->0.index
                            && pre.entity_allocator.spec_is_alive(e2) {
                            assert(e2 == victim->0);
                        }
                        if e2.index == entity.index
                            && pre.entity_allocator.spec_is_alive(e2) {
                            assert(pre.entity_allocator.entry_of(entity.index).generation
                                == entity.generation);
                            assert(e2 == entity);
                        }
                    }
                }
                assert forall|e2: Entity|
                    post.model().dom().contains(e2) implies
                    #[trigger] post.model()[e2] == pre.model()[e2] by {
                    let l = pre.entity_allocator.spec_loc(e2);
                    let lp = post.entity_allocator.spec_loc(e2);
                    assert(pre.loc_ok(l));
                    assert(post.storage.archetypes@[l.archetype as int].tags
                        == pre.storage.archetypes@[l.archetype as int].tags);
                    if victim is Some && e2 == victim->0 {
                        assert(lp == loc);
                        assert(l.archetype == loc.archetype && l.set == loc.set
                            && l.chunk == loc.chunk && l.component == n - 1);
                        assert(post.record_at(lp).components =~= pre.record_at(l).components)
                        by {
                            assert forall|t: u64|
                                #[trigger] dict_has(chunkpost.components@, t)
                                    == dict_has(chunkpre.components@, t)
                                    && (dict_has(chunkpre.components@, t)
                                        ==> chunkpost.value_at(t, loc.component as int)
                                            == chunkpre.value_at(t, n - 1)) by {
                                if dict_has(chunkpre.components@, t) {
                                    let k = dict_idx(chunkpre.components@, t);
                                    assert(dict_val(chunkpost.components@, t)
                                        == chunkpost.components@[k].1);
                                    assert(dict_val(chunkpre.components@, t)
                                        == chunkpre.components@[k].1);
                                    assert(chunkpost.components@[k].1.data@
                                        == chunkpre.components@[k].1.data@
                                            .update(loc.component as int,
                                                chunkpre.components@[k].1.data@.last())
                                            .drop_last());
                                }
                            }
                        }
                        assert(post.record_at(lp).tags =~= pre.record_at(l).tags);
                        assert(post.record_at(lp) == pre.record_at(l));
                    } else {
                        assert(lp == l) by {
                            if victim is Some && e2.index == victim->0.index {
                                assert(pre.entity_allocator.spec_is_alive(victim->0));
                                assert(e2 == victim->0);
                            }
                            if e2.index == entity.index {
                                assert(pre.entity_allocator.entry_of(entity.index)
                                    .generation == entity.generation);
                                assert(e2 == entity);
                            }
                        }
                        if l.archetype == loc.archetype && l.set == loc.set
                            && l.chunk == loc.chunk {
                            assert(l.component != loc.component) by {
                                if l.component == loc.component {
                                    assert(chunkpre.entities@[l.component as int] == e2);
                                }
                            }
                            assert((l.component as int) != n - 1) by {
                                if l.component as int == n - 1 {
                                    assert(chunkpre.entities@[n - 1] == e2);
                                    if victim is Some {
                                        assert(e2 == victim->0);
                                    } else {
                                        assert(loc.component as int == n - 1);
                                    }
                                }
                            }
                            assert(post.record_at(l).components
                                =~= pre.record_at(l).components) by {
                                assert forall|t: u64|
                                    #[trigger] dict_has(chunkpost.components@, t)
                                        == dict_has(chunkpre.components@, t)
                                        && (dict_has(chunkpre.components@, t)
                                            ==> chunkpost.value_at(t, l.component as int)
                                                == chunkpre.value_at(t, l.component as int))
                                by {
                                    if dict_has(chunkpre.components@, t) {
                                        let k = dict_idx(chunkpre.components@, t);
                                        assert(dict_val(chunkpost.components@, t)
                                            == chunkpost.components@[k].1);
                                        assert(dict_val(chunkpre.components@, t)
                                            == chunkpre.components@[k].1);
                                        assert(chunkpost.components@[k].1.data@
                                            == chunkpre.components@[k].1.data@
                                                .update(loc.component as int,
                                                    chunkpre.components@[k].1.data@.last())
                                                .drop_last());
                                    }
                                }
                            }
                            assert(post.record_at(l).tags =~= pre.record_at(l).tags);
                            assert(post.record_at(l) == pre.record_at(l));
                        } else {
                            assert(post.chunk_at(l) == pre.chunk_at(l));
                            assert(post.record_at(l).components
                                =~= pre.record_at(l).components);
                            assert(post.record_at(l).tags =~= pre.record_at(l).tags);
                            assert(post.record_at(l) == pre.record_at(l));
                        }
                    }
                }
            }
            lemma_sigs_distinct_same_descs(pre, post);
            assert(post.wf_base());
        }
    }

    /// Creates one entity in chunk-set `s` of archetype `a`, writing its
    /// row of component values. The archetype must store exactly the given
    /// component types. Extends the model by exactly this entity.
    fn insert_row(
        &mut self,
        a: usize,
        s: usize,
        types: &Vec<(ComponentTypeId, ComponentMeta)>,
        row: &Vec<Vec<u8>>,
    ) -> (e: Entity)
        requires
            old(self).wf(),
            a < old(self).storage.archetypes@.len(),
            s < old(self).storage.archetypes@[a as int].chunk_sets@.len(),
            ctype_raw_ids(types@).no_duplicates(),
            row@.len() == types@.len(),
            forall|k: int| 0 <= k < types@.len()
                ==> (#[trigger] row@[k])@.len() == types@[k].1.size,
            forall|t: u64| #[trigger] ctypes_has(
                old(self).storage.archetypes@[a as int].desc.components@, t)
                == ctypes_has(types@, t),
            forall|i: int, k: int|
                0 <= i < old(self).storage.archetypes@[a as int].desc.components@.len()
                    && 0 <= k < types@.len()
                    && (#[trigger] old(self).storage.archetypes@[a as int]
                        .desc.components@[i]).0.0 == (#[trigger] types@[k]).0.0
                    ==> old(self).storage.archetypes@[a as int].desc.components@[i].1
                        == types@[k].1,
            old(self).entity_allocator.can_create(),
        ensures
            final(self).wf(),
            final(self).id == old(self).id,
            final(self).defrag_progress == old(self).defrag_progress,
            final(self).storage.archetypes@.len() == old(self).storage.archetypes@.len(),
            forall|a2: int| 0 <= a2 < old(self).storage.archetypes@.len() && a2 != a
                ==> #[trigger] final(self).storage.archetypes@[a2]
                    == old(self).storage.archetypes@[a2],
            final(self).storage.archetypes@[a as int].desc
                == old(self).storage.archetypes@[a as int].desc,
            final(self).storage.archetypes@[a as int].tags
                == old(self).storage.archetypes@[a as int].tags,
            final(self).storage.archetypes@[a as int].chunk_sets@.len()
                == old(self).storage.archetypes@[a as int].chunk_sets@.len(),
            !old(self).model().dom().contains(e),
            forall|e2: Entity| #[trigger] old(self).model().dom().contains(e2)
                ==> final(self).model().dom().contains(e2)
                    && final(self).model()[e2] == old(self).model()[e2],
            forall|e2: Entity| #[trigger] final(self).model().dom().contains(e2)
                ==> old(self).model().dom().contains(e2) || e2 == e,
            final(self).model().dom().contains(e),
            final(self).model()[e] == (EntityRecord {
                components: row_map(types@, row@),
                tags: old(self).storage.archetypes@[a as int].tags.tuple_at(s as int),
            }),
            final(self).entity_allocator.buffer@
                == old(self).entity_allocator.buffer@.push(e),
            final(self).entity_allocator.blocks@[0].base
                == old(self).entity_allocator.blocks@[0].base,
            final(self).entity_allocator.blocks@[0].entries@.len()
                <= old(self).entity_allocator.blocks@[0].entries@.len() + 1,
            final(self).entity_allocator.blocks@.len()
                == old(self).entity_allocator.blocks@.len(),
    {
        let ghost pre = *self;
        let e = self.entity_allocator.create_entity();
        let ghost mid1 = *self;
        proof {
            assert(!pre.model().dom().contains(e)) by {
                assert(!pre.entity_allocator.spec_is_alive(e));
            }
            assert(mid1.storage == pre.storage);
        }
        let c = {
            let arch: &mut ArchetypeData = &mut self.storage.archetypes[a];
            arch.get_free_chunk(s)
        };
        let ghost mid2 = *self;
        let srow = build_sorted_row(types, row);
        let ghost srowg = srow@;
        let ghost archpre = pre.storage.archetypes@[a as int];
        let ghost chunkpre = mid2.storage.archetypes@[a as int].chunk_sets@[s as int]
            .chunks@[c as int];
        proof {
            // The sorted row's keys coincide with the chunk's column keys.
            assert(archpre.chunk_matches(chunkpre)) by {
                assert(mid2.storage.archetypes@[a as int].desc == archpre.desc);
                assert(mid2.storage.archetypes@[a as int].component_layout
                    == archpre.component_layout);
            }
            assert(chunkpre.components@.len() == types@.len()) by {
                lemma_ctypes_len_eq(archpre.desc.components@, types@);
            }
            assert forall|t: u64| #[trigger] dict_has(chunkpre.components@, t)
                == dict_has(srowg, t) by {
                if dict_has(chunkpre.components@, t) {
                    crate::archetype::lemma_chunk_cols_are_desc(
                        mid2.storage.archetypes@[a as int], chunkpre);
                    let k = dict_idx(chunkpre.components@, t);
                    lemma_dict_idx(chunkpre.components@, t, k);
                    assert(crate::archetype::desc_has_comp(
                        mid2.storage.archetypes@[a as int], t));
                    let i = choose|i: int|
                        0 <= i < archpre.desc.components@.len()
                            && (#[trigger] archpre.desc.components@[i]).0.0 == t;
                    assert(ctypes_has(archpre.desc.components@, t));
                    assert(ctypes_has(types@, t));
                    assert(dict_has(srowg, t));
                }
                if dict_has(srowg, t) {
                    assert(ctypes_has(types@, t));
                    assert(ctypes_has(archpre.desc.components@, t));
                    let i = ctypes_idx(archpre.desc.components@, t);
                    assert(chunkpre.has_type(archpre.desc.components@[i].0.0));
                }
            }
            crate::archetype::lemma_sorted_same_keys(chunkpre.components@, srowg);
            assert forall|k: int| 0 <= k < srowg.len() implies
                (#[trigger] srowg[k]).0 == chunkpre.components@[k].0
                    && srowg[k].1@.len() == chunkpre.components@[k].1.element_size by {
                let t = srowg[k].0;
                let j = ctypes_idx(types@, t);
                assert(ctypes_has(types@, t));
                assert(srowg[k].1@ == row@[j]@);
                assert(row@[j]@.len() == types@[j].1.size);
                // The chunk's column size equals the description's meta
                // size, which agrees with the given meta.
                assert(ctypes_has(archpre.desc.components@, t));
                let i = ctypes_idx(archpre.desc.components@, t);
                assert(archpre.desc.components@[i].0.0 == t);
                assert(archpre.desc.components@[i].1 == types@[j].1);
                assert(dict_val(chunkpre.components@, archpre.desc.components@[i].0.0)
                    .element_size == archpre.desc.components@[i].1.size);
                lemma_dict_idx(chunkpre.components@, t, k);
            }
        }
        let pos = {
            let arch: &mut ArchetypeData = &mut self.storage.archetypes[a];
            let set: &mut Chunkset = &mut arch.chunk_sets[s];
            let chunk: &mut ComponentStorage = &mut set.chunks[c];
            let pos = chunk.len();
            chunk.push_row(e, srow);
            pos
        };
        let ghost mid3 = *self;
        self.entity_allocator.set_location(e.index, EntityLocation::new(a, s, c, pos));
        proof {
            let post = *self;
            let ghost chunkpost = mid3.storage.archetypes@[a as int].chunk_sets@[s as int]
                .chunks@[c as int];
            let ghost newloc = EntityLocation {
                archetype: a,
                set: s,
                chunk: c,
                component: pos,
            };
            // Dictionary resolution is stable across the push.
            crate::dict::lemma_dict_resolve(chunkpre.components@, chunkpost.components@);
            // The archetype still matches all its chunks.
            assert(post.storage.wf()) by {
                assert forall|a2: int| 0 <= a2 < post.storage.archetypes@.len() implies
                    (#[trigger] post.storage.archetypes@[a2]).wf() by {
                    if a2 == a {
                        let archpost = post.storage.archetypes@[a as int];
                        let archmid = mid2.storage.archetypes@[a as int];
                        assert(archmid.wf());
                        assert(archpost.chunk_matches(chunkpost)) by {
                            assert forall|i: int|
                                0 <= i < archpost.desc.components@.len() implies
                                chunkpost.has_type(
                                    (#[trigger] archpost.desc.components@[i]).0.0)
                                    && dict_val(chunkpost.components@,
                                        archpost.desc.components@[i].0.0).element_size
                                        == archpost.desc.components@[i].1.size by {
                                let t = archpost.desc.components@[i].0.0;
                                assert(dict_has(chunkpre.components@, t));
                                let k = dict_idx(chunkpre.components@, t);
                                assert(dict_val(chunkpost.components@, t)
                                    == chunkpost.components@[k].1);
                                assert(dict_val(chunkpre.components@, t)
                                    == chunkpre.components@[k].1);
                            }
                        }
                        assert forall|s2: int, c2: int|
                            0 <= s2 < archpost.chunk_sets@.len()
                                && 0 <= c2 < archpost.chunk_sets@[s2].chunks@.len() implies
                            archpost.chunk_matches(
                                #[trigger] archpost.chunk_sets@[s2].chunks@[c2])
                                && archpost.chunk_sets@[s2].chunks@[c2].id
                                    == crate::storage::ChunkId(
                                        archpost.id, s2 as usize, c2 as usize) by {
                            if s2 == s && c2 == c {
                            } else {
                                assert(archpost.chunk_sets@[s2].chunks@[c2]
                                    == archmid.chunk_sets@[s2].chunks@[c2]);
                                assert(archmid.chunk_matches(
                                    archmid.chunk_sets@[s2].chunks@[c2]));
                            }
                        }
                        assert forall|s2: int| 0 <= s2 < archpost.chunk_sets@.len() implies
                            (#[trigger] archpost.chunk_sets@[s2]).wf() by {
                            if s2 == s {
                                assert forall|c1: int, c2: int|
                                    0 <= c1 < archpost.chunk_sets@[s2].chunks@.len()
                                        && 0 <= c2 < archpost.chunk_sets@[s2].chunks@.len()
                                    implies crate::archetype::same_chunk_layout(
                                        #[trigger] archpost.chunk_sets@[s2].chunks@[c1],
                                        #[trigger] archpost.chunk_sets@[s2].chunks@[c2],
                                    ) by {
                                    assert(archpost.chunk_matches(
                                        archpost.chunk_sets@[s2].chunks@[c1]));
                                    assert(archpost.chunk_matches(
                                        archpost.chunk_sets@[s2].chunks@[c2]));
                                    crate::archetype::lemma_same_layout_of_matches(
                                        archpost,
                                        archpost.chunk_sets@[s2].chunks@[c1],
                                        archpost.chunk_sets@[s2].chunks@[c2],
                                    );
                                }
                                assert forall|c2: int|
                                    0 <= c2 < archpost.chunk_sets@[s2].chunks@.len() implies
                                    (#[trigger] archpost.chunk_sets@[s2].chunks@[c2]).wf()
                                by {
                                    if c2 != c {
                                        assert(archpost.chunk_sets@[s2].chunks@[c2]
                                            == archmid.chunk_sets@[s2].chunks@[c2]);
                                    }
                                }
                            } else {
                                assert(archpost.chunk_sets@[s2] == archmid.chunk_sets@[s2]);
                            }
                        }
                        assert(archpost.wf());
                    } else {
                        assert(post.storage.archetypes@[a2] == pre.storage.archetypes@[a2]);
                    }
                }
            }
            // Links: every previously stored entity is untouched; the new
            // slot holds `e`.
            assert(post.links_ok() && post.all_located()) by {
                assert forall|e2: Entity|
                    #[trigger] post.entity_allocator.spec_is_alive(e2)
                        && post.entity_allocator.spec_located(e2) implies
                    post.loc_ok(post.entity_allocator.spec_loc(e2))
                        && post.chunk_at(post.entity_allocator.spec_loc(e2))
                            .entities@[post.entity_allocator.spec_loc(e2).component as int]
                                == e2 by {
                    if e2 == e {
                        assert(post.entity_allocator.spec_loc(e) == newloc);
                        assert(post.chunk_at(newloc).entities@
                            == chunkpre.entities@.push(e));
                    } else {
                        assert(pre.entity_allocator.spec_is_alive(e2));
                        if e2.index == e.index {
                            assert(!pre.entity_allocator.spec_is_alive(e2));
                        }
                        assert(pre.entity_allocator.spec_located(e2));
                        let l = pre.entity_allocator.spec_loc(e2);
                        assert(post.entity_allocator.spec_loc(e2) == l);
                        assert(pre.loc_ok(l));
                        if l.archetype == a && l.set == s && l.chunk == c {
                            assert(post.chunk_at(l).entities@[l.component as int]
                                == chunkpre.entities@[l.component as int]);
                        } else {
                            assert(post.chunk_at(l) == pre.chunk_at(l));
                        }
                    }
                }
                assert forall|a2: int, s2: int, c2: int, i: int|
                    0 <= a2 < post.storage.archetypes@.len()
                        && 0 <= s2 < post.storage.archetypes@[a2].chunk_sets@.len()
                        && 0 <= c2 < post.storage.archetypes@[a2].chunk_sets@[s2]
                            .chunks@.len()
                        && 0 <= i < post.storage.archetypes@[a2].chunk_sets@[s2]
                            .chunks@[c2].entities@.len() implies {
                    let e2 = #[trigger] post.storage.archetypes@[a2].chunk_sets@[s2]
                        .chunks@[c2].entities@[i];
                    &&& post.entity_allocator.spec_is_alive(e2)
                    &&& post.entity_allocator.spec_located(e2)
                    &&& post.entity_allocator.spec_loc(e2).archetype == a2
                    &&& post.entity_allocator.spec_loc(e2).set == s2
                    &&& post.entity_allocator.spec_loc(e2).chunk == c2
                    &&& post.entity_allocator.spec_loc(e2).component == i
                } by {
                    let e2 = post.storage.archetypes@[a2].chunk_sets@[s2]
                        .chunks@[c2].entities@[i];
                    if a2 == a && s2 == s && c2 == c && i == pos {
                        assert(e2 == e);
                    } else {
                        assert(e2 == pre.storage.archetypes@[a2].chunk_sets@[s2]
                            .chunks@[c2].entities@[i]) by {
                            if a2 == a {
                                if s2 == s && c2 == c {
                                    assert(post.storage.archetypes@[a2].chunk_sets@[s2]
                                        .chunks@[c2].entities@
                                        == chunkpre.entities@.push(e));
                                } else {
                                    assert(post.storage.archetypes@[a2].chunk_sets@[s2]
                                        .chunks@[c2]
                                        == mid2.storage.archetypes@[a2].chunk_sets@[s2]
                                            .chunks@[c2]);
                                }
                            }
                        }
                        assert(pre.entity_allocator.spec_is_alive(e2));
                        assert(e2 != e) by {
                            assert(!pre.entity_allocator.spec_is_alive(e));
                        }
                        if e2.index == e.index {
                            assert(!pre.entity_allocator.spec_is_alive(e2));
                        }
                    }
                }
                assert forall|e2: Entity|
                    #[trigger] post.entity_allocator.spec_is_alive(e2) implies
                    post.entity_allocator.spec_located(e2) by {
                    if e2 != e {
                        assert(pre.entity_allocator.spec_is_alive(e2));
                        if e2.index == e.index {
                            assert(!pre.entity_allocator.spec_is_alive(e2));
                        }
                    }
                }
            }
            // Model: old records are untouched; the new record is the row
            // plus the set's tag assignment.
            assert forall|e2: Entity| #[trigger] pre.model().dom().contains(e2) implies
                post.model().dom().contains(e2)
                    && post.model()[e2] == pre.model()[e2] by {
                assert(e2 != e);
                if e2.index == e.index {
                    assert(!pre.entity_allocator.spec_is_alive(e2));
                }
                let l = pre.entity_allocator.spec_loc(e2);
                assert(post.entity_allocator.spec_loc(e2) == l);
                assert(pre.loc_ok(l));
                assert(post.record_at(l) == pre.record_at(l)) by {
                    assert(post.storage.archetypes@[l.archetype as int].tags
                        == pre.storage.archetypes@[l.archetype as int].tags);
                    assert(post.record_at(l).tags =~= pre.record_at(l).tags);
                    if l.archetype == a && l.set == s && l.chunk == c {
                        assert(post.chunk_at(l).row(l.component as int)
                            =~= pre.chunk_at(l).row(l.component as int)) by {
                            assert forall|t: u64|
                                #[trigger] dict_has(chunkpost.components@, t)
                                    == dict_has(chunkpre.components@, t)
                                    && (dict_has(chunkpre.components@, t)
                                        ==> chunkpost.value_at(t, l.component as int)
                                            == chunkpre.value_at(t, l.component as int))
                            by {
                                if dict_has(chunkpre.components@, t) {
                                    let k = dict_idx(chunkpre.components@, t);
                                    assert(dict_val(chunkpost.components@, t)
                                        == chunkpost.components@[k].1);
                                    assert(dict_val(chunkpre.components@, t)
                                        == chunkpre.components@[k].1);
                                    assert(chunkpost.components@[k].1.data@
                                        == chunkpre.components@[k].1.data@.push(srowg[k].1));
                                }
                            }
                        }
                    } else {
                        assert(post.chunk_at(l) == pre.chunk_at(l));
                    }
                }
            }
            assert forall|e2: Entity| #[trigger] post.model().dom().contains(e2) implies
                pre.model().dom().contains(e2) || e2 == e by {
                if e2 != e {
                    assert(pre.entity_allocator.spec_is_alive(e2));
                    if e2.index == e.index {
                        assert(!pre.entity_allocator.spec_is_alive(e2));
                    }
                }
            }
            assert(post.model().dom().contains(e));
            assert(post.model()[e] == (EntityRecord {
                components: row_map(types@, row@),
                tags: archpre.tags.tuple_at(s as int),
            })) by {
                assert(post.entity_allocator.spec_loc(e) == newloc);
                assert(post.record_at(newloc).components =~= row_map(types@, row@)) by {
                    assert forall|t: u64|
                        #[trigger] dict_has(chunkpost.components@, t)
                            == ctypes_has(types@, t)
                            && (ctypes_has(types@, t)
                                ==> chunkpost.value_at(t, pos as int)
                                    == row@[ctypes_idx(types@, t)]@) by {
                        assert(dict_has(chunkpost.components@, t)
                            == dict_has(chunkpre.components@, t));
                        assert(dict_has(chunkpre.components@, t) == dict_has(srowg, t));
                        if ctypes_has(types@, t) {
                            let k = dict_idx(chunkpre.components@, t);
                            lemma_dict_idx(srowg, t, k);
                            assert(dict_val(chunkpost.components@, t)
                                == chunkpost.components@[k].1);
                            assert(chunkpost.components@[k].1.data@
                                == chunkpre.components@[k].1.data@.push(srowg[k].1));
                            assert(chunkpost.value_at(t, pos as int) == srowg[k].1@);
                            assert(srowg[k].1@ == row@[ctypes_idx(types@, t)]@) by {
                                assert(srowg[k].1@ == row@[ctypes_idx(types@, srowg[k].0)]@);
                            }
                        }
                    }
                }
                assert(post.record_at(newloc).tags =~= archpre.tags.tuple_at(s as int)) by {
                    assert(post.storage.archetypes@[a as int].tags == archpre.tags);
                }
            }
            lemma_sigs_distinct_same_descs(pre, post);
            assert(post.wf());
        }
        e
    }

    /// The component types of the entity at `loc`, with its values, in the
    /// source archetype's registration order, optionally leaving one type
    /// out.
    fn read_source_components(
        &self,
        loc: EntityLocation,
        exclude: Option<u64>,
    ) -> (r: (Vec<(ComponentTypeId, ComponentMeta)>, Vec<Vec<u8>>))
        requires
            self.wf(),
            self.loc_ok(loc),
        ensures
            r.0@.len() == r.1@.len(),
            ctype_raw_ids(r.0@).no_duplicates(),
            forall|t: u64| #[trigger] ctypes_has(r.0@, t)
                == (ctypes_has(self.storage.archetypes@[loc.archetype as int]
                        .desc.components@, t)
                    && (exclude is Some ==> t != exclude->0)),
            forall|k: int| 0 <= k < r.0@.len()
                ==> self.comp_meta_ok((#[trigger] r.0@[k]).0.0, r.0@[k].1),
            exclude is None
                ==> r.0@ == self.storage.archetypes@[loc.archetype as int].desc.components@,
            exclude is Some
                ==> r.0@ == comps_without(
                    self.storage.archetypes@[loc.archetype as int].desc.components@,
                    exclude->0),
            forall|k: int| 0 <= k < r.0@.len()
                ==> (#[trigger] r.1@[k])@ == self.chunk_at(loc)
                        .value_at(r.0@[k].0.0, loc.component as int)
                    && r.1@[k]@.len() == r.0@[k].1.size,
            forall|k: int| 0 <= k < r.0@.len() ==> (#[trigger] r.0@[k]).1.align >= 1,
    {
        let ghost arch = self.storage.archetypes@[loc.archetype as int];
        let n = self.storage.archetypes[loc.archetype].desc.components.len();
        let mut types: Vec<(ComponentTypeId, ComponentMeta)> = Vec::new();
        let mut vals: Vec<Vec<u8>> = Vec::new();
        let mut k: usize = 0;
        while k < n
            invariant
                self.wf(),
                self.loc_ok(loc),
                arch == self.storage.archetypes@[loc.archetype as int],
                n == arch.desc.components@.len(),
                k <= n,
                types@.len() == vals@.len(),
                forall|t: u64| #[trigger] ctypes_has(types@, t)
                    == (exists|i: int| 0 <= i < k
                        && (#[trigger] arch.desc.components@[i]).0.0 == t
                        && (exclude is Some ==> t != exclude->0)),
                forall|j: int| 0 <= j < types@.len()
                    ==> self.comp_meta_ok((#[trigger] types@[j]).0.0, types@[j].1)
                        && types@[j].1.align >= 1,
                exclude is None ==> types@ == arch.desc.components@.subrange(0, k as int),
                exclude is Some ==> types@ == comps_without(
                    arch.desc.components@.subrange(0, k as int), exclude->0),
                forall|j: int| 0 <= j < types@.len()
                    ==> (#[trigger] vals@[j])@ == self.chunk_at(loc)
                            .value_at(types@[j].0.0, loc.component as int)
                        && vals@[j]@.len() == types@[j].1.size,
                ctype_raw_ids(types@).no_duplicates(),
            decreases n - k,
        {
            let (tid, meta) = self.storage.archetypes[loc.archetype].desc.components[k];
            let skip = match exclude {
                Some(x) => x == tid.0,
                None => false,
            };
            if !skip {
                let chunk = &self.storage.archetypes[loc.archetype]
                    .chunk_sets[loc.set].chunks[loc.chunk];
                proof {
                    assert(arch.chunk_matches(self.chunk_at(loc)));
                    assert(self.chunk_at(loc).has_type(arch.desc.components@[k as int].0.0));
                }
                let v = match chunk.component_value(tid, loc.component) {
                    Some(v) => crate::meta::copy_bytes(v),
                    None => {
                        proof {
                            assert(false);
                        }
                        Vec::new()
                    }
                };
                let ghost typespre = types@;
                proof {
                    // No duplicate: the description's ids are distinct.
                    if ctypes_has(types@, tid.0) {
                        let i = choose|i: int| 0 <= i < k
                            && (#[trigger] arch.desc.components@[i]).0.0 == tid.0;
                        assert(crate::meta::comp_ids(arch.desc.components@)[i] == tid.0);
                        assert(crate::meta::comp_ids(arch.desc.components@)[k as int]
                            == tid.0);
                    }
                }
                types.push((tid, meta));
                vals.push(v);
                proof {
                    if exclude is None {
                        assert(types@ =~= arch.desc.components@.subrange(0, k + 1));
                    }
                    if exclude is Some {
                        reveal(Seq::filter);
                        let x = exclude->0;
                        let p1 = arch.desc.components@.subrange(0, k as int);
                        let p2 = arch.desc.components@.subrange(0, k + 1);
                        assert(p2.drop_last() =~= p1);
                        assert(p2.last() == arch.desc.components@[k as int]);
                        assert(p2.last().0.0 != x);
                        assert(comps_without(p2, x) == comps_without(p1, x).push(p2.last()));
                        assert(types@ == comps_without(p2, x));
                    }
                    assert(self.comp_meta_ok(tid.0, meta)) by {
                        assert(arch.desc.components@[k as int]
                            == self.storage.archetypes@[loc.archetype as int]
                                .desc.components@[k as int]);
                        assert forall|a2: int, i2: int|
                            0 <= a2 < self.storage.archetypes@.len()
                                && 0 <= i2 < self.storage.archetypes@[a2]
                                    .desc.components@.len()
                                && (#[trigger] self.storage.archetypes@[a2]
                                    .desc.components@[i2]).0.0 == tid.0
                            implies self.storage.archetypes@[a2].desc.components@[i2].1
                                == meta by {
                            assert(self.storage.archetypes@[loc.archetype as int]
                                .desc.components@[k as int].0.0 == tid.0);
                        }
                    }
                    assert(ctype_raw_ids(types@)
                        =~= ctype_raw_ids(typespre).push(tid.0));
                    crate::entity::lemma_push_no_duplicates_u64(
                        ctype_raw_ids(typespre), tid.0);
                    assert forall|t: u64| #[trigger] ctypes_has(types@, t)
                        == (exists|i: int| 0 <= i < k + 1
                            && (#[trigger] arch.desc.components@[i]).0.0 == t
                            && (exclude is Some ==> t != exclude->0)) by {
                        if ctypes_has(types@, t) {
                            let j = ctypes_idx(types@, t);
                            if j < typespre.len() {
                                assert(ctypes_has(typespre, t));
                            } else {
                                assert(t == tid.0);
                                assert(arch.desc.components@[k as int].0.0 == t);
                            }
                        }
                        if exists|i: int| 0 <= i < k + 1
                            && (#[trigger] arch.desc.components@[i]).0.0 == t
                            && (exclude is Some ==> t != exclude->0) {
                            let i = choose|i: int| 0 <= i < k + 1
                                && (#[trigger] arch.desc.components@[i]).0.0 == t
                                && (exclude is Some ==> t != exclude->0);
                            if i < k {
                                assert(ctypes_has(typespre, t));
                                let j = ctypes_idx(typespre, t);
                                assert(types@[j].0.0 == t);
                                assert(ctypes_has(types@, t));
                            } else {
                                assert(types@[types@.len() - 1].0.0 == t);
                                assert(ctypes_has(types@, t));
                            }
                        }
                    }
                }
            } else {
                proof {
                    assert forall|t: u64| #[trigger] ctypes_has(types@, t)
                        == (exists|i: int| 0 <= i < k + 1
                            && (#[trigger] arch.desc.components@[i]).0.0 == t
                            && (exclude is Some ==> t != exclude->0)) by {
                        if exists|i: int| 0 <= i < k + 1
                            && (#[trigger] arch.desc.components@[i]).0.0 == t
                            && (exclude is Some ==> t != exclude->0) {
                            let i = choose|i: int| 0 <= i < k + 1
                                && (#[trigger] arch.desc.components@[i]).0.0 == t
                                && (exclude is Some ==> t != exclude->0);
                            if i == k as int {
                                assert(t == tid.0);
                                assert(false);
                            }
                        }
                    }
                    if exclude is Some {
                        reveal(Seq::filter);
                        let x = exclude->0;
                        let p1 = arch.desc.components@.subrange(0, k as int);
                        let p2 = arch.desc.components@.subrange(0, k + 1);
                        assert(p2.drop_last() =~= p1);
                        assert(p2.last() == arch.desc.components@[k as int]);
                        assert(p2.last().0.0 == x);
                        assert(comps_without(p2, x) == comps_without(p1, x));
                        assert(types@ == comps_without(p2, x));
                    }
                }
            }
            k += 1;
        }
        proof {
            assert forall|t: u64| #[trigger] ctypes_has(types@, t)
                == (ctypes_has(arch.desc.components@, t)
                    && (exclude is Some ==> t != exclude->0)) by {
                if ctypes_has(arch.desc.components@, t) {
                    let i = ctypes_idx(arch.desc.components@, t);
                }
            }
            if exclude is None {
                assert(types@ =~= arch.desc.components@);
            }
            if exclude is Some {
                assert(arch.desc.components@.subrange(0, n as int)
                    =~= arch.desc.components@);
            }
        }
        (types, vals)
    }

    /// The tag types of the entity at `loc`, with the metadata and values of
    /// its chunk-set, in the source archetype's registration order,
    /// optionally leaving one tag out.
    fn read_source_tags(
        &self,
        loc: EntityLocation,
        exclude: Option<u64>,
    ) -> (r: Vec<(TagTypeId, TagMeta, Vec<u8>)>)
        requires
            self.wf(),
            self.loc_ok(loc),
        ensures
            ttrip_raw_ids(r@).no_duplicates(),
            forall|t: u64| #[trigger] ttrip_has(r@, t)
                == (tpair_has(self.storage.archetypes@[loc.archetype as int].desc.tags@, t)
                    && (exclude is Some ==> t != exclude->0)),
            forall|k: int| 0 <= k < r@.len()
                ==> self.tag_meta_ok((#[trigger] r@[k]).0.0, r@[k].1),
            forall|k: int| 0 <= k < r@.len()
                ==> (#[trigger] r@[k]).2@ == self.storage.archetypes@[loc.archetype as int]
                        .tags.tuple_at(loc.set as int)[r@[k].0.0]
                    && r@[k].2@.len() == r@[k].1.size,
            forall|k: int| 0 <= k < r@.len() ==> (#[trigger] r@[k]).1.align >= 1,
    {
        let ghost arch = self.storage.archetypes@[loc.archetype as int];
        let n = self.storage.archetypes[loc.archetype].desc.tags.len();
        let mut out: Vec<(TagTypeId, TagMeta, Vec<u8>)> = Vec::new();
        let mut k: usize = 0;
        while k < n
            invariant
                self.wf(),
                self.loc_ok(loc),
                arch == self.storage.archetypes@[loc.archetype as int],
                n == arch.desc.tags@.len(),
                k <= n,
                forall|t: u64| #[trigger] ttrip_has(out@, t)
                    == (exists|i: int| 0 <= i < k
                        && (#[trigger] arch.desc.tags@[i]).0.0 == t
                        && (exclude is Some ==> t != exclude->0)),
                forall|j: int| 0 <= j < out@.len()
                    ==> self.tag_meta_ok((#[trigger] out@[j]).0.0, out@[j].1)
                        && out@[j].1.align >= 1,
                forall|j: int| 0 <= j < out@.len()
                    ==> (#[trigger] out@[j]).2@
                            == arch.tags.tuple_at(loc.set as int)[out@[j].0.0]
                        && out@[j].2@.len() == out@[j].1.size,
                ttrip_raw_ids(out@).no_duplicates(),
            decreases n - k,
        {
            let (tid, meta) = self.storage.archetypes[loc.archetype].desc.tags[k];
            let skip = match exclude {
                Some(x) => x == tid.0,
                None => false,
            };
            if !skip {
                proof {
                    assert(arch.tags_match());
                    assert(dict_has(arch.tags.data@, arch.desc.tags@[k as int].0.0));
                }
                let sti = match crate::dict::dict_find(
                    &self.storage.archetypes[loc.archetype].tags.data, tid.0) {
                    Some(i) => i,
                    None => {
                        proof {
                            assert(false);
                        }
                        0
                    }
                };
                let st = &self.storage.archetypes[loc.archetype].tags.data[sti].1;
                proof {
                    assert(st.data@.len() == arch.chunk_sets@.len());
                    assert(dict_val(arch.tags.data@, tid.0).element
                        == arch.desc.tags@[k as int].1);
                }
                let v = crate::meta::copy_bytes(st.get(loc.set));
                let ghost outpre = out@;
                proof {
                    if ttrip_has(out@, tid.0) {
                        let i = choose|i: int| 0 <= i < k
                            && (#[trigger] arch.desc.tags@[i]).0.0 == tid.0;
                        assert(crate::meta::tag_ids(arch.desc.tags@)[i] == tid.0);
                        assert(crate::meta::tag_ids(arch.desc.tags@)[k as int] == tid.0);
                    }
                }
                out.push((tid, meta, v));
                proof {
                    assert(self.tag_meta_ok(tid.0, meta)) by {
                        assert(arch.desc.tags@[k as int]
                            == self.storage.archetypes@[loc.archetype as int]
                                .desc.tags@[k as int]);
                        assert forall|a2: int, i2: int|
                            0 <= a2 < self.storage.archetypes@.len()
                                && 0 <= i2 < self.storage.archetypes@[a2].desc.tags@.len()
                                && (#[trigger] self.storage.archetypes@[a2]
                                    .desc.tags@[i2]).0.0 == tid.0
                            implies self.storage.archetypes@[a2].desc.tags@[i2].1
                                == meta by {
                            assert(self.storage.archetypes@[loc.archetype as int]
                                .desc.tags@[k as int].0.0 == tid.0);
                        }
                    }
                    assert(ttrip_raw_ids(out@)
                        =~= ttrip_raw_ids(outpre).push(tid.0));
                    crate::entity::lemma_push_no_duplicates_u64(
                        ttrip_raw_ids(outpre), tid.0);
                    assert forall|t: u64| #[trigger] ttrip_has(out@, t)
                        == (exists|i: int| 0 <= i < k + 1
                            && (#[trigger] arch.desc.tags@[i]).0.0 == t
                            && (exclude is Some ==> t != exclude->0)) by {
                        if ttrip_has(out@, t) {
                            let j = ttrip_idx(out@, t);
                            if j < outpre.len() {
                                assert(ttrip_has(outpre, t));
                            } else {
                                assert(t == tid.0);
                                assert(arch.desc.tags@[k as int].0.0 == t);
                            }
                        }
                        if exists|i: int| 0 <= i < k + 1
                            && (#[trigger] arch.desc.tags@[i]).0.0 == t
                            && (exclude is Some ==> t != exclude->0) {
                            let i = choose|i: int| 0 <= i < k + 1
                                && (#[trigger] arch.desc.tags@[i]).0.0 == t
                                && (exclude is Some ==> t != exclude->0);
                            if i < k {
                                assert(ttrip_has(outpre, t));
                                let j = ttrip_idx(outpre, t);
                                assert(out@[j].0.0 == t);
                                assert(ttrip_has(out@, t));
                            } else {
                                assert(out@[out@.len() - 1].0.0 == t);
                                assert(ttrip_has(out@, t));
                            }
                        }
                    }
                }
            } else {
                proof {
                    assert forall|t: u64| #[trigger] ttrip_has(out@, t)
                        == (exists|i: int| 0 <= i < k + 1
                            && (#[trigger] arch.desc.tags@[i]).0.0 == t
                            && (exclude is Some ==> t != exclude->0)) by {
                        if exists|i: int| 0 <= i < k + 1
                            && (#[trigger] arch.desc.tags@[i]).0.0 == t
                            && (exclude is Some ==> t != exclude->0) {
                            let i = choose|i: int| 0 <= i < k + 1
                                && (#[trigger] arch.desc.tags@[i]).0.0 == t
                                && (exclude is Some ==> t != exclude->0);
                            if i == k as int {
                                assert(false);
                            }
                        }
                    }
                }
            }
            k += 1;
        }
        proof {
            assert forall|t: u64| #[trigger] ttrip_has(out@, t)
                == (tpair_has(arch.desc.tags@, t)
                    && (exclude is Some ==> t != exclude->0)) by {
                if tpair_has(arch.desc.tags@, t) {
                    let i = choose|i: int| 0 <= i < arch.desc.tags@.len()
                        && (#[trigger] arch.desc.tags@[i]).0.0 == t;
                }
            }
        }
        out
    }

    /// Finds or creates the archetype and chunk-set for the given tag
    /// values and component types. Leaves every record, and the contents of
    /// every existing chunk, unchanged.
    #[verifier::rlimit(100)]
    fn resolve_target(
        &mut self,
        tags: &Vec<(TagTypeId, TagMeta, Vec<u8>)>,
        component_types: &Vec<(ComponentTypeId, ComponentMeta)>,
    ) -> (r: (usize, usize))
        requires
            old(self).wf_base(),
            ctype_raw_ids(component_types@).no_duplicates(),
            ttrip_raw_ids(tags@).no_duplicates(),
            forall|k: int| 0 <= k < component_types@.len()
                ==> (#[trigger] component_types@[k]).1.align >= 1,
            forall|k: int| 0 <= k < tags@.len() ==> (#[trigger] tags@[k]).1.align >= 1,
            layout_ok(component_types@, spec_capacity(component_types@)),
            forall|k: int| 0 <= k < tags@.len()
                ==> (#[trigger] tags@[k]).2@.len() == tags@[k].1.size,
            forall|k: int| 0 <= k < component_types@.len()
                ==> old(self).comp_meta_ok(
                    (#[trigger] component_types@[k]).0.0, component_types@[k].1),
            forall|k: int| 0 <= k < tags@.len()
                ==> old(self).tag_meta_ok((#[trigger] tags@[k]).0.0, tags@[k].1),
        ensures
            final(self).wf_base(),
            final(self).model() == old(self).model(),
            final(self).id == old(self).id,
            final(self).defrag_progress == old(self).defrag_progress,
            final(self).entity_allocator == old(self).entity_allocator,
            r.0 < final(self).storage.archetypes@.len(),
            r.1 < final(self).storage.archetypes@[r.0 as int].chunk_sets@.len(),
            final(self).arch_sig_matches(r.0 as int, tags@, component_types@),
            forall|i: int, k: int|
                0 <= i < final(self).storage.archetypes@[r.0 as int]
                        .desc.components@.len()
                    && 0 <= k < component_types@.len()
                    && (#[trigger] final(self).storage.archetypes@[r.0 as int]
                        .desc.components@[i]).0.0
                        == (#[trigger] component_types@[k]).0.0
                    ==> final(self).storage.archetypes@[r.0 as int].desc.components@[i].1
                        == component_types@[k].1,
            final(self).storage.archetypes@[r.0 as int].tags.tuple_at(r.1 as int)
                == trip_tags_map(tags@),
            forall|i: int, k: int|
                0 <= i < final(self).storage.archetypes@[r.0 as int].desc.tags@.len()
                    && 0 <= k < tags@.len()
                    && (#[trigger] final(self).storage.archetypes@[r.0 as int]
                        .desc.tags@[i]).0.0 == (#[trigger] tags@[k]).0.0
                    ==> final(self).storage.archetypes@[r.0 as int].desc.tags@[i].1
                        == tags@[k].1,
            final(self).storage.archetypes@.len() >= old(self).storage.archetypes@.len(),
            final(self).storage.archetypes@.len() <= old(self).storage.archetypes@.len() + 1,
            final(self).storage.archetypes@.len() == old(self).storage.archetypes@.len() + 1
                ==> r.0 == old(self).storage.archetypes@.len()
                    && (forall|a2: int| 0 <= a2 < old(self).storage.archetypes@.len()
                        ==> !(#[trigger] old(self).arch_sig_matches(
                            a2, tags@, component_types@)))
                    && final(self).storage.archetypes@[r.0 as int].desc.components@
                        == component_types@
                    && final(self).storage.archetypes@[r.0 as int].desc.tags@.len()
                        == tags@.len()
                    && (forall|j: int| 0 <= j < tags@.len()
                        ==> #[trigger] final(self).storage.archetypes@[r.0 as int]
                            .desc.tags@[j] == ((tags@[j].0, tags@[j].1))),
            r.0 < old(self).storage.archetypes@.len()
                ==> old(self).arch_sig_matches(r.0 as int, tags@, component_types@),
            forall|a2: int| 0 <= a2 < old(self).storage.archetypes@.len() && a2 != r.0
                ==> (#[trigger] final(self).storage.archetypes@[a2]).chunk_sets@.len()
                    == old(self).storage.archetypes@[a2].chunk_sets@.len(),
            r.0 < old(self).storage.archetypes@.len()
                ==> final(self).storage.archetypes@[r.0 as int].chunk_sets@.len()
                    <= old(self).storage.archetypes@[r.0 as int].chunk_sets@.len() + 1,
            r.0 < old(self).storage.archetypes@.len()
                    && (exists|s2: int|
                        0 <= s2 < old(self).storage.archetypes@[r.0 as int]
                            .chunk_sets@.len()
                            && (#[trigger] old(self).storage.archetypes@[r.0 as int]
                                .tags.tuple_at(s2)) == trip_tags_map(tags@))
                ==> final(self).storage.archetypes@[r.0 as int].chunk_sets@.len()
                    == old(self).storage.archetypes@[r.0 as int].chunk_sets@.len(),
            forall|a2: int| 0 <= a2 < old(self).storage.archetypes@.len()
                ==> (#[trigger] final(self).storage.archetypes@[a2]).desc
                        == old(self).storage.archetypes@[a2].desc
                    && final(self).storage.archetypes@[a2].chunk_sets@.len()
                        >= old(self).storage.archetypes@[a2].chunk_sets@.len(),
            forall|a2: int, s2: int|
                0 <= a2 < old(self).storage.archetypes@.len()
                    && 0 <= s2 < old(self).storage.archetypes@[a2].chunk_sets@.len()
                    ==> (#[trigger] final(self).storage.archetypes@[a2].chunk_sets@[s2])
                        == old(self).storage.archetypes@[a2].chunk_sets@[s2],
            forall|a2: int, s2: int|
                0 <= a2 < old(self).storage.archetypes@.len()
                    && 0 <= s2 < old(self).storage.archetypes@[a2].chunk_sets@.len()
                    ==> (#[trigger] final(self).storage.archetypes@[a2].tags.tuple_at(s2))
                        == old(self).storage.archetypes@[a2].tags.tuple_at(s2),
    {
        let ghost pre = *self;
        let a = match self.find_archetype(&tags, &component_types) {
            Some(a) => a,
            None => self.create_archetype(&tags, &component_types),
        };
        let ghost mid1 = *self;
        proof {
            assert(mid1.wf_base());
            assert(mid1.model() == pre.model());
            assert(mid1.arch_sig_matches(a as int, tags@, component_types@));
            assert(a < mid1.storage.archetypes@.len());
            // The archetype's metadata agrees with the batch's.
            assert forall|i: int, k: int|
                0 <= i < mid1.storage.archetypes@[a as int].desc.components@.len()
                    && 0 <= k < component_types@.len()
                    && (#[trigger] mid1.storage.archetypes@[a as int]
                        .desc.components@[i]).0.0
                        == (#[trigger] component_types@[k]).0.0 implies
                mid1.storage.archetypes@[a as int].desc.components@[i].1
                    == component_types@[k].1 by {
                if a < pre.storage.archetypes@.len() {
                    assert(pre.comp_meta_ok(component_types@[k].0.0, component_types@[k].1));
                    assert(pre.storage.archetypes@[a as int]
                        == mid1.storage.archetypes@[a as int]);
                } else {
                    // Freshly created: the description is the batch itself.
                    assert(mid1.storage.archetypes@[a as int].desc.components@
                        == component_types@);
                    if i != k {
                        assert(ctype_raw_ids(component_types@)[i]
                            == ctype_raw_ids(component_types@)[k]);
                    }
                }
            }
            assert forall|i: int, k: int|
                0 <= i < mid1.storage.archetypes@[a as int].desc.tags@.len()
                    && 0 <= k < tags@.len()
                    && (#[trigger] mid1.storage.archetypes@[a as int].desc.tags@[i]).0.0
                        == (#[trigger] tags@[k]).0.0 implies
                mid1.storage.archetypes@[a as int].desc.tags@[i].1 == tags@[k].1 by {
                if a < pre.storage.archetypes@.len() {
                    assert(pre.tag_meta_ok(tags@[k].0.0, tags@[k].1));
                    assert(pre.storage.archetypes@[a as int]
                        == mid1.storage.archetypes@[a as int]);
                } else {
                    assert(mid1.storage.archetypes@[a as int].desc.tags@[i]
                        == ((tags@[i].0, tags@[i].1)));
                    if i != k {
                        assert(ttrip_raw_ids(tags@)[i] == ttrip_raw_ids(tags@)[k]);
                    }
                }
            }
        }
        let vals = self.build_tag_values(a, &tags);
        let ghost valsg = vals@;
        let ghost archg = mid1.storage.archetypes@[a as int];
        proof {
            // Each sorted tag value has its storage's element size.
            assert forall|k: int| 0 <= k < valsg.len() implies
                (#[trigger] valsg[k]).0 == archg.tags.data@[k].0
                    && valsg[k].1@.len() == archg.tags.data@[k].1.element.size by {
                let key = valsg[k].0;
                let j = ttrip_idx(tags@, key);
                assert(valsg[k].1@ == tags@[j].2@);
                assert(tags@[j].2@.len() == tags@[j].1.size);
                crate::archetype::lemma_tag_key_in_desc(archg, k);
                let i = choose|i: int|
                    0 <= i < archg.desc.tags@.len()
                        && (#[trigger] archg.desc.tags@[i]).0.0 == key;
                assert(archg.desc.tags@[i].1 == tags@[j].1);
                assert(dict_val(archg.tags.data@, archg.desc.tags@[i].0.0).element
                    == archg.desc.tags@[i].1);
                lemma_dict_idx(archg.tags.data@, key, k);
            }
        }
        let s = match self.find_chunk_set(a, &vals) {
            Some(s) => s,
            None => {
                let arch: &mut ArchetypeData = &mut self.storage.archetypes[a];
                arch.alloc_chunk_set(&vals)
            }
        };
        let ghost mid2 = *self;
        proof {
            // A created chunk-set leaves every existing record unchanged.
            assert(mid2.wf_base()) by {
                if mid2.storage.archetypes@[a as int].chunk_sets@.len()
                    == mid1.storage.archetypes@[a as int].chunk_sets@.len() {
                    assert(mid2 == mid1);
                } else {
                    lemma_sigs_distinct_same_descs(mid1, mid2);
                    assert(mid2.storage.wf()) by {
                        assert forall|a2: int| 0 <= a2 < mid2.storage.archetypes@.len()
                            implies (#[trigger] mid2.storage.archetypes@[a2]).wf() by {
                            if a2 != a {
                                assert(mid2.storage.archetypes@[a2]
                                    == mid1.storage.archetypes@[a2]);
                            }
                        }
                        assert forall|a2: int| 0 <= a2 < mid2.storage.archetypes@.len()
                            implies #[trigger] mid2.storage.component_types.0.slice_seq(a2)
                                == crate::storage::desc_comp_id_seq(
                                    mid2.storage.archetypes@[a2].desc)
                                && mid2.storage.tag_types.0.slice_seq(a2)
                                    == crate::storage::desc_tag_id_seq(
                                        mid2.storage.archetypes@[a2].desc) by {
                            assert(mid2.storage.archetypes@[a2].desc
                                == mid1.storage.archetypes@[a2].desc);
                        }
                    }
                    assert(mid2.links_ok()) by {
                        assert forall|e: Entity|
                            #[trigger] mid2.entity_allocator.spec_is_alive(e)
                                && mid2.entity_allocator.spec_located(e) implies
                            mid2.loc_ok(mid2.entity_allocator.spec_loc(e))
                                && mid2.chunk_at(mid2.entity_allocator.spec_loc(e))
                                    .entities@[mid2.entity_allocator.spec_loc(e)
                                        .component as int] == e by {
                            let l = mid1.entity_allocator.spec_loc(e);
                            assert(mid1.loc_ok(l));
                            assert(mid2.chunk_at(l) == mid1.chunk_at(l)) by {
                                if l.archetype == a {
                                    assert(l.set
                                        < mid1.storage.archetypes@[a as int]
                                            .chunk_sets@.len());
                                }
                            }
                        }
                    }
                }
            }
            assert(mid2.model() == pre.model()) by {
                if mid2.storage.archetypes@[a as int].chunk_sets@.len()
                    == mid1.storage.archetypes@[a as int].chunk_sets@.len() {
                    assert(mid2 == mid1);
                } else {
                    assert forall|e: Entity| #[trigger] mid1.model().dom().contains(e)
                        implies mid2.model().dom().contains(e)
                            && mid2.model()[e] == mid1.model()[e] by {
                        let l = mid1.entity_allocator.spec_loc(e);
                        assert(mid1.loc_ok(l));
                        assert(mid2.chunk_at(l) == mid1.chunk_at(l)) by {
                            if l.archetype == a {
                                assert(l.set < mid1.storage.archetypes@[a as int]
                                    .chunk_sets@.len());
                            }
                        }
                        assert(mid2.record_at(l).tags =~= mid1.record_at(l).tags) by {
                            if l.archetype == a {
                                let tpre = mid1.storage.archetypes@[a as int].tags;
                                let tpost = mid2.storage.archetypes@[a as int].tags;
                                assert forall|t: u64|
                                    #[trigger] dict_has(tpost.data@, t)
                                        == dict_has(tpre.data@, t)
                                        && (dict_has(tpre.data@, t)
                                            ==> dict_val(tpost.data@, t)
                                                    .data@[l.set as int]@
                                                == dict_val(tpre.data@, t)
                                                    .data@[l.set as int]@) by {
                                    crate::dict::lemma_dict_resolve(
                                        tpre.data@, tpost.data@);
                                    if dict_has(tpre.data@, t) {
                                        let k = dict_idx(tpre.data@, t);
                                        assert(tpost.data@[k].1.values()
                                            == tpre.data@[k].1.values()
                                                .push(valsg[k].1@));
                                        assert(tpre.data@[k].1.data@.len()
                                            == mid1.storage.archetypes@[a as int]
                                                .chunk_sets@.len());
                                        assert(tpost.data@[k].1.values()[l.set as int]
                                            == tpre.data@[k].1.values()[l.set as int]);
                                    }
                                }
                            }
                        }
                        assert(mid2.record_at(l) == mid1.record_at(l)) by {
                            assert(mid2.record_at(l).components
                                =~= mid1.record_at(l).components);
                        }
                    }
                    assert forall|e: Entity| #[trigger] mid2.model().dom().contains(e)
                        implies mid1.model().dom().contains(e) by {}
                    assert(mid2.model() =~= mid1.model());
                }
            }
            assert(s < mid2.storage.archetypes@[a as int].chunk_sets@.len());
            // The chosen chunk-set's tag assignment is the batch's.
            assert(mid2.storage.archetypes@[a as int].tags.tuple_at(s as int)
                =~= trip_tags_map(tags@)) by {
                let tg = mid2.storage.archetypes@[a as int].tags;
                assert forall|t: u64| #[trigger] dict_has(tg.data@, t)
                    == ttrip_has(tags@, t) by {
                    if dict_has(tg.data@, t) {
                        let k = dict_idx(tg.data@, t);
                        lemma_dict_idx(tg.data@, t, k);
                        crate::archetype::lemma_tag_key_in_desc(
                            mid2.storage.archetypes@[a as int], k);
                        let i = choose|i: int|
                            0 <= i < mid2.storage.archetypes@[a as int].desc.tags@.len()
                                && (#[trigger] mid2.storage.archetypes@[a as int]
                                    .desc.tags@[i]).0.0 == t;
                        assert(tpair_has(
                            mid2.storage.archetypes@[a as int].desc.tags@, t));
                        assert(mid2.storage.archetypes@[a as int].desc
                            == mid1.storage.archetypes@[a as int].desc);
                    }
                    if ttrip_has(tags@, t) {
                        assert(tpair_has(
                            mid1.storage.archetypes@[a as int].desc.tags@, t));
                        let i = choose|i: int|
                            0 <= i < mid1.storage.archetypes@[a as int].desc.tags@.len()
                                && (#[trigger] mid1.storage.archetypes@[a as int]
                                    .desc.tags@[i]).0.0 == t;
                        assert(dict_has(tg.data@,
                            mid1.storage.archetypes@[a as int].desc.tags@[i].0.0));
                    }
                }
                assert forall|t: u64| dict_has(tg.data@, t) implies
                    #[trigger] dict_val(tg.data@, t).data@[s as int]@
                        == tags@[ttrip_idx(tags@, t)].2@ by {
                    let k = dict_idx(tg.data@, t);
                    lemma_dict_idx(tg.data@, t, k);
                    // The set's stored values are the sorted batch values.
                    assert(mid2.storage.archetypes@[a as int]
                        .values_match_set(valsg, s as int)) by {
                        if mid2.storage.archetypes@[a as int].chunk_sets@.len()
                            == mid1.storage.archetypes@[a as int].chunk_sets@.len() {
                        } else {
                            assert forall|k2: int| 0 <= k2 < tg.data@.len() implies
                                (#[trigger] tg.data@[k2]).1.data@[s as int]@
                                    == valsg[k2].1@ by {
                                let vpre = mid1.storage.archetypes@[a as int]
                                    .tags.data@[k2].1;
                                assert(tg.data@[k2].1.values()
                                    == vpre.values().push(valsg[k2].1@));
                                assert(vpre.data@.len() == s as int);
                                assert(tg.data@[k2].1.values()[s as int]
                                    == valsg[k2].1@);
                            }
                        }
                    }
                    assert(tg.data@[k].1.data@[s as int]@ == valsg[k].1@);
                    assert(valsg[k].0 == tg.data@[k].0) by {
                        if mid2.storage.archetypes@[a as int].chunk_sets@.len()
                            != mid1.storage.archetypes@[a as int].chunk_sets@.len() {
                            assert(tg.data@[k].0
                                == mid1.storage.archetypes@[a as int].tags.data@[k].0);
                        }
                    }
                    assert(valsg[k].1@ == tags@[ttrip_idx(tags@, valsg[k].0)].2@);
                }
            }
        }
        proof {
            let post = *self;
            assert(post.model() == pre.model());
            assert forall|a2: int, s2: int|
                0 <= a2 < pre.storage.archetypes@.len()
                    && 0 <= s2 < pre.storage.archetypes@[a2].chunk_sets@.len() implies
                (#[trigger] post.storage.archetypes@[a2].chunk_sets@[s2])
                    == pre.storage.archetypes@[a2].chunk_sets@[s2] by {
                if a2 == a as int {
                    assert(mid2.storage.archetypes@[a2].chunk_sets@[s2]
                        == mid1.storage.archetypes@[a2].chunk_sets@[s2]);
                }
            }
            // Existing chunk-sets keep their tag assignments.
            assert forall|a2: int, s2: int|
                0 <= a2 < pre.storage.archetypes@.len()
                    && 0 <= s2 < pre.storage.archetypes@[a2].chunk_sets@.len() implies
                (#[trigger] post.storage.archetypes@[a2].tags.tuple_at(s2))
                    == pre.storage.archetypes@[a2].tags.tuple_at(s2) by {
                if a2 == a as int
                    && post.storage.archetypes@[a2].chunk_sets@.len()
                        != pre.storage.archetypes@[a2].chunk_sets@.len() {
                    let tpre = mid1.storage.archetypes@[a2].tags;
                    let tpost = post.storage.archetypes@[a2].tags;
                    crate::dict::lemma_dict_resolve(tpre.data@, tpost.data@);
                    assert forall|t: u64|
                        #[trigger] dict_has(tpost.data@, t) == dict_has(tpre.data@, t)
                            && (dict_has(tpre.data@, t)
                                ==> dict_val(tpost.data@, t).data@[s2]@
                                    == dict_val(tpre.data@, t).data@[s2]@) by {
                        if dict_has(tpre.data@, t) {
                            let k = dict_idx(tpre.data@, t);
                            assert(tpost.data@[k].1.values()
                                == tpre.data@[k].1.values().push(valsg[k].1@));
                            assert(tpre.data@[k].1.data@.len()
                                == mid1.storage.archetypes@[a2].chunk_sets@.len());
                            assert(tpost.data@[k].1.values()[s2]
                                == tpre.data@[k].1.values()[s2]);
                        }
                    }
                    assert(post.storage.archetypes@[a2].tags.tuple_at(s2)
                        =~= pre.storage.archetypes@[a2].tags.tuple_at(s2));
                } else {
                    assert(post.storage.archetypes@[a2].tags
                        == pre.storage.archetypes@[a2].tags);
                }
            }
            // A matching pre-existing chunk-set is always reused: had one
            // existed while a new set was allocated, the set search would
            // have had to refute it.
            if a < pre.storage.archetypes@.len()
                && post.storage.archetypes@[a as int].chunk_sets@.len()
                    != pre.storage.archetypes@[a as int].chunk_sets@.len() {
                assert forall|s2: int|
                    0 <= s2 < pre.storage.archetypes@[a as int].chunk_sets@.len() implies
                    (#[trigger] pre.storage.archetypes@[a as int].tags.tuple_at(s2))
                        != trip_tags_map(tags@) by {
                    if pre.storage.archetypes@[a as int].tags.tuple_at(s2)
                        == trip_tags_map(tags@) {
                        // The stored values at s2 then equal the sorted batch
                        // values, so the search would have matched s2.
                        let tg = mid1.storage.archetypes@[a as int].tags;
                        assert(!mid1.storage.archetypes@[a as int]
                            .values_match_set(valsg, s2));
                        let k = choose|k: int|
                            0 <= k < tg.data@.len()
                                && (#[trigger] tg.data@[k]).1.data@[s2]@ != valsg[k].1@;
                        let t = tg.data@[k].0;
                        lemma_dict_idx(tg.data@, t, k);
                        assert(tg.tuple_at(s2)[t] == tg.data@[k].1.data@[s2]@);
                        assert(ttrip_has(tags@, t)) by {
                            crate::archetype::lemma_tag_key_in_desc(
                                mid1.storage.archetypes@[a as int], k);
                            let i = choose|i: int|
                                0 <= i < mid1.storage.archetypes@[a as int]
                                    .desc.tags@.len()
                                    && (#[trigger] mid1.storage.archetypes@[a as int]
                                        .desc.tags@[i]).0.0 == t;
                            assert(tpair_has(
                                mid1.storage.archetypes@[a as int].desc.tags@, t));
                        }
                        assert(trip_tags_map(tags@)[t] == tags@[ttrip_idx(tags@, t)].2@);
                        assert(valsg[k].1@ == tags@[ttrip_idx(tags@, valsg[k].0)].2@);
                        assert(valsg[k].0 == t);
                        assert(mid1.storage.archetypes@[a as int].tags
                            == pre.storage.archetypes@[a as int].tags);
                    }
                }
            }
        }
        (a, s)
    }

    /// Inserts new entities into the world.
    ///
    /// The batch's tag types and values select (or create) an archetype and
    /// a chunk-set; each row of component values becomes one new entity.
    /// Returns the freshly created entities, in row order; the same batch is
    /// readable afterwards from the allocation buffer. The model gains
    /// exactly one record per row, carrying that row's component values and
    /// the batch's tag values; every existing record is unchanged.
    pub fn insert(
        &mut self,
        tags: Vec<(TagTypeId, TagMeta, Vec<u8>)>,
        component_types: Vec<(ComponentTypeId, ComponentMeta)>,
        rows: Vec<Vec<Vec<u8>>>,
    ) -> (r: Vec<Entity>)
        requires
            old(self).wf(),
            ctype_raw_ids(component_types@).no_duplicates(),
            ttrip_raw_ids(tags@).no_duplicates(),
            forall|k: int| 0 <= k < component_types@.len()
                ==> (#[trigger] component_types@[k]).1.align >= 1,
            forall|k: int| 0 <= k < tags@.len() ==> (#[trigger] tags@[k]).1.align >= 1,
            layout_ok(component_types@, spec_capacity(component_types@)),
            forall|k: int| 0 <= k < tags@.len()
                ==> (#[trigger] tags@[k]).2@.len() == tags@[k].1.size,
            forall|i: int| 0 <= i < rows@.len()
                ==> (#[trigger] rows@[i])@.len() == component_types@.len(),
            forall|i: int, k: int|
                0 <= i < rows@.len() && 0 <= k < component_types@.len()
                    ==> (#[trigger] rows@[i]@[k])@.len() == component_types@[k].1.size,
            old(self).entity_allocator.blocks@[0].entries@.len() + rows@.len() <= BLOCK_SPAN,
            forall|k: int| 0 <= k < component_types@.len()
                ==> old(self).comp_meta_ok(
                    (#[trigger] component_types@[k]).0.0, component_types@[k].1),
            forall|k: int| 0 <= k < tags@.len()
                ==> old(self).tag_meta_ok((#[trigger] tags@[k]).0.0, tags@[k].1),
        ensures
            final(self).wf(),
            r@.len() == rows@.len(),
            r@.no_duplicates(),
            forall|i: int| 0 <= i < r@.len()
                ==> !old(self).model().dom().contains(#[trigger] r@[i]),
            forall|e2: Entity| #[trigger] old(self).model().dom().contains(e2)
                ==> final(self).model().dom().contains(e2)
                    && final(self).model()[e2] == old(self).model()[e2],
            forall|e2: Entity| #[trigger] final(self).model().dom().contains(e2)
                ==> old(self).model().dom().contains(e2) || r@.contains(e2),
            forall|i: int| 0 <= i < r@.len()
                ==> final(self).model().dom().contains(#[trigger] r@[i])
                    && final(self).model()[r@[i]] == (EntityRecord {
                        components: row_map(component_types@, rows@[i]@),
                        tags: trip_tags_map(tags@),
                    }),
            final(self).entity_allocator.buffer@ == r@,
            final(self).storage.archetypes@.len()
                <= old(self).storage.archetypes@.len() + 1,
            final(self).storage.archetypes@.len()
                    == old(self).storage.archetypes@.len() + 1
                ==> (forall|a2: int| 0 <= a2 < old(self).storage.archetypes@.len()
                        ==> !(#[trigger] old(self).arch_sig_matches(
                            a2, tags@, component_types@)))
                    && final(self).storage.archetypes@[
                            old(self).storage.archetypes@.len() as int]
                        .desc.components@ == component_types@
                    && final(self).storage.archetypes@[
                            old(self).storage.archetypes@.len() as int]
                        .desc.tags@.len() == tags@.len()
                    && (forall|j: int| 0 <= j < tags@.len()
                        ==> #[trigger] final(self).storage.archetypes@[
                                old(self).storage.archetypes@.len() as int]
                            .desc.tags@[j] == ((tags@[j].0, tags@[j].1))),
            (exists|a2: int, s2: int|
                0 <= a2 < old(self).storage.archetypes@.len()
                    && 0 <= s2 < old(self).storage.archetypes@[a2].chunk_sets@.len()
                    && old(self).arch_sig_matches(a2, tags@, component_types@)
                    && (#[trigger] old(self).storage.archetypes@[a2].tags.tuple_at(s2))
                        == trip_tags_map(tags@))
                ==> final(self).storage.archetypes@.len()
                        == old(self).storage.archetypes@.len()
                    && (forall|a3: int| 0 <= a3 < old(self).storage.archetypes@.len()
                        ==> (#[trigger] final(self).storage.archetypes@[a3])
                            .chunk_sets@.len()
                            == old(self).storage.archetypes@[a3].chunk_sets@.len()),
            forall|a2: int| 0 <= a2 < old(self).storage.archetypes@.len()
                ==> (#[trigger] final(self).storage.archetypes@[a2]).desc
                        == old(self).storage.archetypes@[a2].desc
                    && final(self).storage.archetypes@[a2].chunk_sets@.len()
                        >= old(self).storage.archetypes@[a2].chunk_sets@.len(),
            forall|a2: int, s2: int|
                0 <= a2 < old(self).storage.archetypes@.len()
                    && 0 <= s2 < old(self).storage.archetypes@[a2].chunk_sets@.len()
                    ==> (#[trigger] final(self).storage.archetypes@[a2].tags.tuple_at(s2))
                        == old(self).storage.archetypes@[a2].tags.tuple_at(s2),
    {
        let ghost pre = *self;
        let (a, s) = self.resolve_target(&tags, &component_types);
        let ghost mid3pre = *self;
        self.entity_allocator.clear_allocation_buffer();
        let ghost mid3 = *self;
        proof {
            assert(mid3.wf()) by {
                assert(mid3.storage == mid3pre.storage);
                lemma_sigs_distinct_same_descs(mid3pre, mid3);
                assert forall|e: Entity|
                    #[trigger] mid3.entity_allocator.spec_is_alive(e)
                        && mid3.entity_allocator.spec_located(e) implies
                    mid3.loc_ok(mid3.entity_allocator.spec_loc(e))
                        && mid3.chunk_at(mid3.entity_allocator.spec_loc(e))
                            .entities@[mid3.entity_allocator.spec_loc(e).component as int]
                                == e by {
                    assert(mid3pre.entity_allocator.spec_is_alive(e));
                    assert(mid3.entity_allocator.spec_loc(e)
                        == mid3pre.entity_allocator.spec_loc(e));
                }
            }
            assert(mid3.model() =~= mid3pre.model()) by {
                assert forall|e: Entity| #[trigger] mid3.model().dom().contains(e)
                    == mid3pre.model().dom().contains(e) by {}
                assert forall|e: Entity| mid3pre.model().dom().contains(e) implies
                    #[trigger] mid3.model()[e] == mid3pre.model()[e] by {
                    assert(mid3.entity_allocator.spec_loc(e)
                        == mid3pre.entity_allocator.spec_loc(e));
                    assert(mid3.storage == mid3pre.storage);
                }
            }
        }
        let n = rows.len();
        let mut result: Vec<Entity> = Vec::new();
        let mut i: usize = 0;
        while i < n
            invariant
                self.wf(),
                n == rows@.len(),
                i <= n,
                result@.len() == i,
                a < self.storage.archetypes@.len(),
                s < self.storage.archetypes@[a as int].chunk_sets@.len(),
                self.storage.archetypes@[a as int].desc
                    == mid3.storage.archetypes@[a as int].desc,
                self.storage.archetypes@[a as int].tags
                    == mid3.storage.archetypes@[a as int].tags,
                self.storage.archetypes@.len() == mid3.storage.archetypes@.len(),
                forall|a2: int| 0 <= a2 < mid3.storage.archetypes@.len()
                    ==> (#[trigger] self.storage.archetypes@[a2]).desc
                            == mid3.storage.archetypes@[a2].desc
                        && self.storage.archetypes@[a2].tags
                            == mid3.storage.archetypes@[a2].tags
                        && self.storage.archetypes@[a2].chunk_sets@.len()
                            == mid3.storage.archetypes@[a2].chunk_sets@.len(),
                ctype_raw_ids(component_types@).no_duplicates(),
                forall|i2: int| 0 <= i2 < rows@.len()
                    ==> (#[trigger] rows@[i2])@.len() == component_types@.len(),
                forall|i2: int, k: int|
                    0 <= i2 < rows@.len() && 0 <= k < component_types@.len()
                        ==> (#[trigger] rows@[i2]@[k])@.len()
                            == component_types@[k].1.size,
                forall|t: u64| #[trigger] ctypes_has(
                    self.storage.archetypes@[a as int].desc.components@, t)
                    == ctypes_has(component_types@, t),
                forall|i2: int, k: int|
                    0 <= i2 < self.storage.archetypes@[a as int].desc.components@.len()
                        && 0 <= k < component_types@.len()
                        && (#[trigger] self.storage.archetypes@[a as int]
                            .desc.components@[i2]).0.0
                            == (#[trigger] component_types@[k]).0.0
                        ==> self.storage.archetypes@[a as int].desc.components@[i2].1
                            == component_types@[k].1,
                self.storage.archetypes@[a as int].tags.tuple_at(s as int)
                    == trip_tags_map(tags@),
                self.entity_allocator.blocks@.len()
                    == mid3.entity_allocator.blocks@.len(),
                self.entity_allocator.blocks@[0].base
                    == mid3.entity_allocator.blocks@[0].base,
                self.entity_allocator.blocks@[0].entries@.len()
                    <= mid3.entity_allocator.blocks@[0].entries@.len() + i,
                mid3.entity_allocator.blocks@[0].entries@.len() + n <= BLOCK_SPAN,
                self.entity_allocator.buffer@ == result@,
                result@.no_duplicates(),
                forall|j: int| 0 <= j < i
                    ==> !pre.model().dom().contains(#[trigger] result@[j]),
                forall|e2: Entity| #[trigger] pre.model().dom().contains(e2)
                    ==> self.model().dom().contains(e2)
                        && self.model()[e2] == pre.model()[e2],
                forall|e2: Entity| #[trigger] self.model().dom().contains(e2)
                    ==> pre.model().dom().contains(e2) || result@.contains(e2),
                forall|j: int| 0 <= j < i
                    ==> self.model().dom().contains(#[trigger] result@[j])
                        && self.model()[result@[j]] == (EntityRecord {
                            components: row_map(component_types@, rows@[j]@),
                            tags: trip_tags_map(tags@),
                        }),
            decreases n - i,
        {
            let ghost iterpre = *self;
            proof {
                assert(iterpre.entity_allocator.can_create());
            }
            let e = self.insert_row(a, s, &component_types, &rows[i]);
            result.push(e);
            proof {
                assert(self.storage.archetypes@[a as int].tags.tuple_at(s as int)
                    == iterpre.storage.archetypes@[a as int].tags.tuple_at(s as int));
                assert forall|j: int| 0 <= j < i + 1 implies
                    self.model().dom().contains(#[trigger] result@[j])
                        && self.model()[result@[j]] == (EntityRecord {
                            components: row_map(component_types@, rows@[j]@),
                            tags: trip_tags_map(tags@),
                        }) by {
                    if j < i {
                        assert(result@[j] == iterpre.entity_allocator.buffer@[j]);
                        assert(iterpre.model().dom().contains(result@[j]));
                    }
                }
                assert(result@.no_duplicates()) by {
                    assert forall|j: int, j2: int|
                        0 <= j < result@.len() && 0 <= j2 < result@.len() && j != j2
                        implies result@[j] != result@[j2] by {
                        if j < i && j2 == i as int {
                            assert(iterpre.model().dom().contains(result@[j]));
                            assert(!iterpre.model().dom().contains(e));
                        } else if j2 < i && j == i as int {
                            assert(iterpre.model().dom().contains(result@[j2]));
                            assert(!iterpre.model().dom().contains(e));
                        }
                    }
                }
                assert forall|j: int| 0 <= j < i + 1 implies
                    !pre.model().dom().contains(#[trigger] result@[j]) by {
                    if j == i as int {
                        if pre.model().dom().contains(e) {
                            assert(iterpre.model().dom().contains(e));
                        }
                    }
                }
                assert forall|e2: Entity| #[trigger] self.model().dom().contains(e2)
                    implies pre.model().dom().contains(e2) || result@.contains(e2) by {
                    if !pre.model().dom().contains(e2) {
                        if e2 == e {
                            assert(result@[i as int] == e2);
                            assert(result@.contains(e2));
                        } else {
                            assert(iterpre.model().dom().contains(e2));
                            let ghost oldres = iterpre.entity_allocator.buffer@;
                            assert(oldres.contains(e2));
                            let j = choose|j: int|
                                0 <= j < oldres.len() && oldres[j] == e2;
                            assert(result@[j] == e2);
                            assert(result@.contains(e2));
                        }
                    }
                }
            }
            i += 1;
        }
        proof {
            let post = *self;
            // When a signature-matching archetype already carried a chunk-set
            // with the batch's tag assignment, nothing structural was
            // allocated: the resolution reused both.
            if exists|a2: int, s2: int|
                0 <= a2 < pre.storage.archetypes@.len()
                    && 0 <= s2 < pre.storage.archetypes@[a2].chunk_sets@.len()
                    && pre.arch_sig_matches(a2, tags@, component_types@)
                    && (#[trigger] pre.storage.archetypes@[a2].tags.tuple_at(s2))
                        == trip_tags_map(tags@) {
                let (a2, s2) = choose|a2: int, s2: int|
                    0 <= a2 < pre.storage.archetypes@.len()
                        && 0 <= s2 < pre.storage.archetypes@[a2].chunk_sets@.len()
                        && pre.arch_sig_matches(a2, tags@, component_types@)
                        && (#[trigger] pre.storage.archetypes@[a2].tags.tuple_at(s2))
                            == trip_tags_map(tags@);
                assert(mid3pre.storage.archetypes@.len()
                    == pre.storage.archetypes@.len()) by {
                    if mid3pre.storage.archetypes@.len()
                        == pre.storage.archetypes@.len() + 1 {
                        assert(!pre.arch_sig_matches(a2, tags@, component_types@));
                    }
                }
                assert(a < pre.storage.archetypes@.len());
                assert(pre.arch_sig_matches(a as int, tags@, component_types@));
                // Signatures are unique, so the found archetype is the witness.
                assert(a as int == a2) by {
                    if a as int != a2 {
                        assert forall|t: u64|
                            #[trigger] ctypes_has(
                                pre.storage.archetypes@[a as int].desc.components@, t)
                                == ctypes_has(
                                    pre.storage.archetypes@[a2].desc.components@, t) by {}
                        assert forall|t: u64|
                            #[trigger] tpair_has(
                                pre.storage.archetypes@[a as int].desc.tags@, t)
                                == tpair_has(
                                    pre.storage.archetypes@[a2].desc.tags@, t) by {}
                        assert forall|t: u64|
                            #[trigger] ctypes_has(
                                pre.storage.archetypes@[a2].desc.components@, t)
                                == ctypes_has(
                                    pre.storage.archetypes@[a as int].desc.components@,
                                    t) by {}
                        assert forall|t: u64|
                            #[trigger] tpair_has(
                                pre.storage.archetypes@[a2].desc.tags@, t)
                                == tpair_has(
                                    pre.storage.archetypes@[a as int].desc.tags@, t) by {}
                        if (a as int) < a2 {
                            assert(pre.archs_sig_equal(a as int, a2));
                            assert(!pre.archs_sig_equal(a as int, a2));
                        } else {
                            assert(pre.archs_sig_equal(a2, a as int));
                            assert(!pre.archs_sig_equal(a2, a as int));
                        }
                    }
                }
                assert(mid3pre.storage.archetypes@[a as int].chunk_sets@.len()
                    == pre.storage.archetypes@[a as int].chunk_sets@.len());
                assert forall|a3: int| 0 <= a3 < pre.storage.archetypes@.len() implies
                    (#[trigger] post.storage.archetypes@[a3]).chunk_sets@.len()
                        == pre.storage.archetypes@[a3].chunk_sets@.len() by {
                    assert(post.storage.archetypes@[a3].chunk_sets@.len()
                        == mid3.storage.archetypes@[a3].chunk_sets@.len());
                    assert(mid3.storage.archetypes@[a3].chunk_sets@.len()
                        == mid3pre.storage.archetypes@[a3].chunk_sets@.len());
                }
            }
            // Tag assignments of pre-existing chunk-sets survive the whole
            // insertion.
            assert forall|a2: int, s2: int|
                0 <= a2 < pre.storage.archetypes@.len()
                    && 0 <= s2 < pre.storage.archetypes@[a2].chunk_sets@.len() implies
                (#[trigger] post.storage.archetypes@[a2].tags.tuple_at(s2))
                    == pre.storage.archetypes@[a2].tags.tuple_at(s2) by {
                assert(post.storage.archetypes@[a2].tags
                    == mid3pre.storage.archetypes@[a2].tags);
            }
        }
        result
    }

    /// Adds a component to an entity, or sets its value if the component is
    /// already present. When the component is new, the entity moves to the
    /// archetype extending its current one by the component's type.
    pub fn add_component(
        &mut self,
        entity: Entity,
        component_type: ComponentTypeId,
        meta: ComponentMeta,
        value: Vec<u8>,
    )
        requires
            old(self).wf(),
            old(self).model().dom().contains(entity),
            value@.len() == meta.size,
            meta.align >= 1,
            old(self).comp_meta_ok(component_type.0, meta),
            !old(self).model()[entity].components.contains_key(component_type.0)
                ==> layout_ok(
                    old(self).storage.archetypes@[
                        old(self).entity_allocator.spec_loc(entity).archetype as int]
                        .desc.components@.push((component_type, meta)),
                    spec_capacity(old(self).storage.archetypes@[
                        old(self).entity_allocator.spec_loc(entity).archetype as int]
                        .desc.components@.push((component_type, meta))),
                ),
        ensures
            final(self).wf(),
            final(self).model() == old(self).model().insert(entity, EntityRecord {
                components: old(self).model()[entity].components
                    .insert(component_type.0, value@),
                tags: old(self).model()[entity].tags,
            }),
            final(self).storage.archetypes@.len()
                <= old(self).storage.archetypes@.len() + 1,
            forall|a2: int| 0 <= a2 < old(self).storage.archetypes@.len()
                ==> (#[trigger] final(self).storage.archetypes@[a2]).desc
                        == old(self).storage.archetypes@[a2].desc
                    && final(self).storage.archetypes@[a2].chunk_sets@.len()
                        >= old(self).storage.archetypes@[a2].chunk_sets@.len(),
            forall|a2: int, s2: int|
                0 <= a2 < old(self).storage.archetypes@.len()
                    && 0 <= s2 < old(self).storage.archetypes@[a2].chunk_sets@.len()
                    ==> (#[trigger] final(self).storage.archetypes@[a2].tags.tuple_at(s2))
                        == old(self).storage.archetypes@[a2].tags.tuple_at(s2),
            old(self).model()[entity].components.contains_key(component_type.0)
                ==> final(self).entity_allocator == old(self).entity_allocator
                    && final(self).storage.archetypes@.len()
                        == old(self).storage.archetypes@.len()
                    && (forall|a2: int| 0 <= a2 < old(self).storage.archetypes@.len()
                        ==> (#[trigger] final(self).storage.archetypes@[a2]).tags
                                == old(self).storage.archetypes@[a2].tags
                            && final(self).storage.archetypes@[a2].chunk_sets@.len()
                                == old(self).storage.archetypes@[a2].chunk_sets@.len())
                    && (forall|a2: int, s2: int, c2: int|
                        0 <= a2 < old(self).storage.archetypes@.len()
                            && 0 <= s2 < old(self).storage.archetypes@[a2]
                                .chunk_sets@.len()
                            && 0 <= c2 < old(self).storage.archetypes@[a2]
                                .chunk_sets@[s2].chunks@.len()
                            ==> (#[trigger] final(self).storage.archetypes@[a2]
                                    .chunk_sets@[s2].chunks@[c2]).entities@
                                    == old(self).storage.archetypes@[a2]
                                        .chunk_sets@[s2].chunks@[c2].entities@
                                && final(self).storage.archetypes@[a2]
                                    .chunk_sets@[s2].chunks@[c2].allocated
                                    == old(self).storage.archetypes@[a2]
                                        .chunk_sets@[s2].chunks@[c2].allocated),
    {
        let ghost pre = *self;
        let loc = match self.entity_allocator.get_location(entity.index) {
            Some(l) => l,
            None => {
                proof {
                    assert(false);
                }
                EntityLocation::new(0, 0, 0, 0)
            }
        };
        proof {
            assert(loc == pre.entity_allocator.spec_loc(entity));
            assert(pre.loc_ok(loc));
            assert(pre.chunk_at(loc).entities@[loc.component as int] == entity);
            assert(pre.model()[entity].components
                =~= pre.chunk_at(loc).row(loc.component as int));
        }
        let present = {
            let chunk = &self.storage.archetypes[loc.archetype].chunk_sets[loc.set]
                .chunks[loc.chunk];
            match chunk.components(component_type) {
                Some(_) => true,
                None => false,
            }
        };
        if present {
            proof {
                // The stored value has the column's element size, which by
                // metadata agreement is the given meta's size.
                let arch = pre.storage.archetypes@[loc.archetype as int];
                assert(pre.chunk_at(loc).has_type(component_type.0));
                crate::archetype::lemma_chunk_cols_are_desc(arch, pre.chunk_at(loc));
                let k = dict_idx(pre.chunk_at(loc).components@, component_type.0);
                lemma_dict_idx(pre.chunk_at(loc).components@, component_type.0, k);
                assert(crate::archetype::desc_has_comp(arch, component_type.0));
                let i = choose|i: int|
                    0 <= i < arch.desc.components@.len()
                        && (#[trigger] arch.desc.components@[i]).0.0 == component_type.0;
                assert(dict_val(pre.chunk_at(loc).components@, component_type.0)
                    .element_size == arch.desc.components@[i].1.size);
                assert(arch.desc.components@[i].1 == meta);
                assert(pre.model()[entity].components.contains_key(component_type.0));
                assert(pre.model()[entity].components[component_type.0]
                    == pre.chunk_at(loc).value_at(component_type.0, loc.component as int));
                assert(dict_val(pre.chunk_at(loc).components@, component_type.0)
                    == pre.chunk_at(loc).components@[k].1);
                assert(pre.chunk_at(loc).components@[k].1.wf());
                assert(pre.chunk_at(loc).value_at(component_type.0, loc.component as int)
                    .len() == meta.size);
            }
            self.set_component_in_place(entity, loc, component_type, value);
            return;
        }
        proof {
            assert(!pre.model()[entity].components.contains_key(component_type.0));
        }
        let (mut types, mut row) = self.read_source_components(loc, None);
        proof {
            assert(!ctypes_has(types@, component_type.0)) by {
                if ctypes_has(types@, component_type.0) {
                    assert(ctypes_has(pre.storage.archetypes@[loc.archetype as int]
                        .desc.components@, component_type.0));
                    let arch = pre.storage.archetypes@[loc.archetype as int];
                    let i = ctypes_idx(arch.desc.components@, component_type.0);
                    assert(pre.chunk_at(loc).has_type(arch.desc.components@[i].0.0));
                    assert(pre.model()[entity].components.contains_key(component_type.0));
                }
            }
        }
        let ghost typespre = types@;
        let ghost rowpre = row@;
        types.push((component_type, meta));
        row.push(value);
        proof {
            assert(ctype_raw_ids(types@) =~= ctype_raw_ids(typespre).push(component_type.0));
            assert forall|k: int| 0 <= k < typespre.len() implies
                ctype_raw_ids(typespre)[k] != component_type.0 by {
                if ctype_raw_ids(typespre)[k] == component_type.0 {
                    assert(typespre[k].0.0 == component_type.0);
                    assert(ctypes_has(typespre, component_type.0));
                }
            }
            assert(!ctype_raw_ids(typespre).contains(component_type.0)) by {
                if ctype_raw_ids(typespre).contains(component_type.0) {
                    let k = choose|k: int| 0 <= k < ctype_raw_ids(typespre).len()
                        && ctype_raw_ids(typespre)[k] == component_type.0;
                }
            }
            crate::entity::lemma_push_no_duplicates_u64(
                ctype_raw_ids(typespre), component_type.0);
            assert(types@ == pre.storage.archetypes@[loc.archetype as int]
                .desc.components@.push((component_type, meta)));
        }
        let trips = self.read_source_tags(loc, None);
        let ghost tripsg = trips@;
        let (a2, s2) = self.resolve_target(&trips, &types);
        let ghost mid1 = *self;
        proof {
            assert(mid1.wf()) by {
                assert(mid1.entity_allocator == pre.entity_allocator);
            }
            assert(mid1.model() == pre.model());
        }
        self.detach_row(entity);
        let ghost mid2 = *self;
        proof {
            // The target archetype and chunk-set survive the detach.
            assert(mid2.storage.archetypes@[a2 as int].desc
                == mid1.storage.archetypes@[a2 as int].desc);
            assert(mid2.storage.archetypes@[a2 as int].tags
                == mid1.storage.archetypes@[a2 as int].tags);
            assert forall|t: u64| #[trigger] ctypes_has(
                mid2.storage.archetypes@[a2 as int].desc.components@, t)
                == ctypes_has(types@, t) by {}
        }
        self.place_absorbed_row(entity, a2, s2, &types, &row);
        proof {
            let post = *self;
            assert(post.wf()) by {
                assert forall|e2: Entity|
                    #[trigger] post.entity_allocator.spec_is_alive(e2) implies
                    post.entity_allocator.spec_located(e2) by {
                    if e2 != entity {
                        assert(mid1.entity_allocator.spec_is_alive(e2));
                        assert(mid1.entity_allocator.spec_located(e2));
                    }
                }
            }
            let ghost newrec = EntityRecord {
                components: row_map(types@, row@),
                tags: mid2.storage.archetypes@[a2 as int].tags.tuple_at(s2 as int),
            };
            assert(newrec.components =~= pre.model()[entity].components
                .insert(component_type.0, value@)) by {
                assert forall|t: u64| #[trigger] ctypes_has(types@, t)
                    == (pre.model()[entity].components.contains_key(t)
                        || t == component_type.0) by {
                    if ctypes_has(types@, t) && t != component_type.0 {
                        let k = ctypes_idx(types@, t);
                        assert(k < typespre.len());
                        assert(ctypes_has(typespre, t));
                        assert(pre.chunk_at(loc).has_type(t)) by {
                            let arch = pre.storage.archetypes@[loc.archetype as int];
                            assert(ctypes_has(arch.desc.components@, t));
                            let i = ctypes_idx(arch.desc.components@, t);
                            assert(pre.chunk_at(loc).has_type(arch.desc.components@[i].0.0));
                        }
                    }
                    if pre.model()[entity].components.contains_key(t) {
                        assert(pre.chunk_at(loc).has_type(t));
                        assert(ctypes_has(pre.storage.archetypes@[loc.archetype as int]
                            .desc.components@, t)) by {
                            crate::archetype::lemma_chunk_cols_are_desc(
                                pre.storage.archetypes@[loc.archetype as int],
                                pre.chunk_at(loc));
                            let k = dict_idx(pre.chunk_at(loc).components@, t);
                            lemma_dict_idx(pre.chunk_at(loc).components@, t, k);
                            assert(crate::archetype::desc_has_comp(
                                pre.storage.archetypes@[loc.archetype as int], t));
                            let i = choose|i: int|
                                0 <= i < pre.storage.archetypes@[loc.archetype as int]
                                    .desc.components@.len()
                                    && (#[trigger] pre.storage.archetypes@[
                                        loc.archetype as int].desc.components@[i]).0.0 == t;
                        }
                        assert(ctypes_has(typespre, t));
                        let k = ctypes_idx(typespre, t);
                        assert(types@[k].0.0 == t);
                        assert(ctypes_has(types@, t));
                    }
                }
                assert forall|t: u64| ctypes_has(types@, t) implies
                    #[trigger] row_map(types@, row@)[t]
                        == pre.model()[entity].components
                            .insert(component_type.0, value@)[t] by {
                    let k = ctypes_idx(types@, t);
                    if t == component_type.0 {
                        lemma_ctypes_idx(types@, t, typespre.len() as int);
                        assert(row_map(types@, row@)[t] == value@);
                    } else {
                        assert(k < typespre.len());
                        lemma_ctypes_idx(typespre, t, k);
                        assert(row@[k] == rowpre[k]);
                        assert(rowpre[k]@ == pre.chunk_at(loc)
                            .value_at(typespre[k].0.0, loc.component as int));
                        assert(pre.model()[entity].components[t]
                            == pre.chunk_at(loc).row(loc.component as int)[t]);
                    }
                }
            }
            assert(newrec.tags =~= pre.model()[entity].tags) by {
                assert(newrec.tags == trip_tags_map(tripsg));
                let arch = pre.storage.archetypes@[loc.archetype as int];
                assert forall|t: u64| #[trigger] ttrip_has(tripsg, t)
                    == dict_has(arch.tags.data@, t) by {
                    if ttrip_has(tripsg, t) {
                        assert(tpair_has(arch.desc.tags@, t));
                        let i = choose|i: int| 0 <= i < arch.desc.tags@.len()
                            && (#[trigger] arch.desc.tags@[i]).0.0 == t;
                        assert(dict_has(arch.tags.data@, t));
                    }
                    if dict_has(arch.tags.data@, t) {
                        let k = dict_idx(arch.tags.data@, t);
                        lemma_dict_idx(arch.tags.data@, t, k);
                        crate::archetype::lemma_tag_key_in_desc(arch, k);
                        let i = choose|i: int| 0 <= i < arch.desc.tags@.len()
                            && (#[trigger] arch.desc.tags@[i]).0.0 == t;
                        assert(tpair_has(arch.desc.tags@, t));
                    }
                }
                assert forall|t: u64| ttrip_has(tripsg, t) implies
                    #[trigger] trip_tags_map(tripsg)[t]
                        == arch.tags.tuple_at(loc.set as int)[t] by {
                    let k = ttrip_idx(tripsg, t);
                    assert(tripsg[k].2@ == arch.tags.tuple_at(loc.set as int)[tripsg[k].0.0]);
                }
            }
            assert(post.model() =~= pre.model().insert(entity, EntityRecord {
                components: pre.model()[entity].components
                    .insert(component_type.0, value@),
                tags: pre.model()[entity].tags,
            })) by {
                assert forall|e2: Entity| #[trigger] post.model().dom().contains(e2)
                    == (pre.model().dom().contains(e2) || e2 == entity) by {
                    if post.model().dom().contains(e2) && e2 != entity {
                        assert(mid2.model().dom().contains(e2));
                        assert(mid1.model().dom().contains(e2));
                    }
                    if pre.model().dom().contains(e2) && e2 != entity {
                        assert(mid2.model().dom().contains(e2));
                    }
                }
                assert forall|e2: Entity| post.model().dom().contains(e2) implies
                    #[trigger] post.model()[e2] == pre.model().insert(entity, EntityRecord {
                        components: pre.model()[entity].components
                            .insert(component_type.0, value@),
                        tags: pre.model()[entity].tags,
                    })[e2] by {
                    if e2 == entity {
                        assert(post.model()[entity] == newrec);
                        assert(newrec == (EntityRecord {
                            components: pre.model()[entity].components
                                .insert(component_type.0, value@),
                            tags: pre.model()[entity].tags,
                        }));
                    } else {
                        assert(mid2.model().dom().contains(e2));
                        assert(post.model()[e2] == mid2.model()[e2]);
                        assert(mid2.model()[e2] == mid1.model()[e2]);
                    }
                }
            }
        }
    }

    /// Removes a component from an entity; a no-op when the entity does not
    /// have it. Otherwise the entity moves to the archetype of its current
    /// one without the component's type.
    pub fn remove_component(&mut self, entity: Entity, component_type: ComponentTypeId)
        requires
            old(self).wf(),
            old(self).model().dom().contains(entity)
                && old(self).model()[entity].components.contains_key(component_type.0)
                ==> layout_ok(
                    comps_without(
                        old(self).storage.archetypes@[
                            old(self).entity_allocator.spec_loc(entity).archetype as int]
                            .desc.components@,
                        component_type.0,
                    ),
                    spec_capacity(comps_without(
                        old(self).storage.archetypes@[
                            old(self).entity_allocator.spec_loc(entity).archetype as int]
                            .desc.components@,
                        component_type.0,
                    )),
                ),
        ensures
            final(self).wf(),
            old(self).model().dom().contains(entity)
                ==> final(self).model() == old(self).model().insert(entity, EntityRecord {
                    components: old(self).model()[entity].components
                        .remove(component_type.0),
                    tags: old(self).model()[entity].tags,
                }),
            !old(self).model().dom().contains(entity) ==> *final(self) == *old(self),
            final(self).storage.archetypes@.len()
                <= old(self).storage.archetypes@.len() + 1,
            forall|a2: int| 0 <= a2 < old(self).storage.archetypes@.len()
                ==> (#[trigger] final(self).storage.archetypes@[a2]).desc
                        == old(self).storage.archetypes@[a2].desc
                    && final(self).storage.archetypes@[a2].chunk_sets@.len()
                        >= old(self).storage.archetypes@[a2].chunk_sets@.len(),
            forall|a2: int, s2: int|
                0 <= a2 < old(self).storage.archetypes@.len()
                    && 0 <= s2 < old(self).storage.archetypes@[a2].chunk_sets@.len()
                    ==> (#[trigger] final(self).storage.archetypes@[a2].tags.tuple_at(s2))
                        == old(self).storage.archetypes@[a2].tags.tuple_at(s2),
    {
        let ghost pre = *self;
        if !self.entity_allocator.is_alive(entity) {
            return;
        }
        let loc = match self.entity_allocator.get_location(entity.index) {
            Some(l) => l,
            None => {
                proof {
                    assert(false);
                }
                EntityLocation::new(0, 0, 0, 0)
            }
        };
        proof {
            assert(loc == pre.entity_allocator.spec_loc(entity));
            assert(pre.loc_ok(loc));
            assert(pre.chunk_at(loc).entities@[loc.component as int] == entity);
            assert(pre.model()[entity].components
                =~= pre.chunk_at(loc).row(loc.component as int));
        }
        let present = {
            let chunk = &self.storage.archetypes[loc.archetype].chunk_sets[loc.set]
                .chunks[loc.chunk];
            match chunk.components(component_type) {
                Some(_) => true,
                None => false,
            }
        };
        if !present {
            proof {
                assert(!pre.model()[entity].components.contains_key(component_type.0));
                assert(pre.model()[entity].components.remove(component_type.0)
                    =~= pre.model()[entity].components);
                assert(pre.model()[entity] == (EntityRecord {
                    components: pre.model()[entity].components.remove(component_type.0),
                    tags: pre.model()[entity].tags,
                }));
                assert(pre.model().insert(entity, EntityRecord {
                    components: pre.model()[entity].components.remove(component_type.0),
                    tags: pre.model()[entity].tags,
                }) =~= pre.model());
            }
            return;
        }
        let (types, row) = self.read_source_components(loc, Some(component_type.0));
        let ghost typesg = types@;
        let ghost rowg = row@;
        let trips = self.read_source_tags(loc, None);
        let ghost tripsg = trips@;
        proof {
            assert(typesg == comps_without(pre.storage.archetypes@[loc.archetype as int]
                .desc.components@, component_type.0));
            assert(pre.model()[entity].components.contains_key(component_type.0));
        }
        let (a2, s2) = self.resolve_target(&trips, &types);
        let ghost mid1 = *self;
        proof {
            assert(mid1.wf()) by {
                assert(mid1.entity_allocator == pre.entity_allocator);
            }
            assert(mid1.model() == pre.model());
        }
        self.detach_row(entity);
        let ghost mid2 = *self;
        proof {
            assert(mid2.storage.archetypes@[a2 as int].desc
                == mid1.storage.archetypes@[a2 as int].desc);
            assert(mid2.storage.archetypes@[a2 as int].tags
                == mid1.storage.archetypes@[a2 as int].tags);
        }
        self.place_absorbed_row(entity, a2, s2, &types, &row);
        proof {
            let post = *self;
            assert(post.wf()) by {
                assert forall|e2: Entity|
                    #[trigger] post.entity_allocator.spec_is_alive(e2) implies
                    post.entity_allocator.spec_located(e2) by {
                    if e2 != entity {
                        assert(mid1.entity_allocator.spec_is_alive(e2));
                        assert(mid1.entity_allocator.spec_located(e2));
                    }
                }
            }
            let ghost newrec = EntityRecord {
                components: row_map(typesg, rowg),
                tags: mid2.storage.archetypes@[a2 as int].tags.tuple_at(s2 as int),
            };
            let ghost arch = pre.storage.archetypes@[loc.archetype as int];
            assert(newrec.components =~= pre.model()[entity].components
                .remove(component_type.0)) by {
                assert forall|t: u64| #[trigger] ctypes_has(typesg, t)
                    == (pre.model()[entity].components.contains_key(t)
                        && t != component_type.0) by {
                    if ctypes_has(typesg, t) {
                        assert(ctypes_has(arch.desc.components@, t) && t != component_type.0);
                        let i = ctypes_idx(arch.desc.components@, t);
                        assert(pre.chunk_at(loc).has_type(arch.desc.components@[i].0.0));
                    }
                    if pre.model()[entity].components.contains_key(t)
                        && t != component_type.0 {
                        assert(pre.chunk_at(loc).has_type(t));
                        assert(ctypes_has(arch.desc.components@, t)) by {
                            crate::archetype::lemma_chunk_cols_are_desc(
                                arch, pre.chunk_at(loc));
                            let k = dict_idx(pre.chunk_at(loc).components@, t);
                            lemma_dict_idx(pre.chunk_at(loc).components@, t, k);
                            assert(crate::archetype::desc_has_comp(arch, t));
                            let i = choose|i: int|
                                0 <= i < arch.desc.components@.len()
                                    && (#[trigger] arch.desc.components@[i]).0.0 == t;
                        }
                    }
                }
                assert forall|t: u64| ctypes_has(typesg, t) implies
                    #[trigger] row_map(typesg, rowg)[t]
                        == pre.model()[entity].components.remove(component_type.0)[t] by {
                    let k = ctypes_idx(typesg, t);
                    assert(rowg[k]@ == pre.chunk_at(loc)
                        .value_at(typesg[k].0.0, loc.component as int));
                    assert(pre.model()[entity].components[t]
                        == pre.chunk_at(loc).row(loc.component as int)[t]);
                }
            }
            assert(newrec.tags =~= pre.model()[entity].tags) by {
                assert(newrec.tags == trip_tags_map(tripsg));
                assert forall|t: u64| #[trigger] ttrip_has(tripsg, t)
                    == dict_has(arch.tags.data@, t) by {
                    if ttrip_has(tripsg, t) {
                        assert(tpair_has(arch.desc.tags@, t));
                        let i = choose|i: int| 0 <= i < arch.desc.tags@.len()
                            && (#[trigger] arch.desc.tags@[i]).0.0 == t;
                        assert(dict_has(arch.tags.data@, t));
                    }
                    if dict_has(arch.tags.data@, t) {
                        let k = dict_idx(arch.tags.data@, t);
                        lemma_dict_idx(arch.tags.data@, t, k);
                        crate::archetype::lemma_tag_key_in_desc(arch, k);
                        let i = choose|i: int| 0 <= i < arch.desc.tags@.len()
                            && (#[trigger] arch.desc.tags@[i]).0.0 == t;
                        assert(tpair_has(arch.desc.tags@, t));
                    }
                }
                assert forall|t: u64| ttrip_has(tripsg, t) implies
                    #[trigger] trip_tags_map(tripsg)[t]
                        == arch.tags.tuple_at(loc.set as int)[t] by {
                    let k = ttrip_idx(tripsg, t);
                    assert(tripsg[k].2@ == arch.tags.tuple_at(loc.set as int)[tripsg[k].0.0]);
                }
            }
            assert(post.model() =~= pre.model().insert(entity, EntityRecord {
                components: pre.model()[entity].components.remove(component_type.0),
                tags: pre.model()[entity].tags,
            })) by {
                assert forall|e2: Entity| #[trigger] post.model().dom().contains(e2)
                    == (pre.model().dom().contains(e2) || e2 == entity) by {
                    if post.model().dom().contains(e2) && e2 != entity {
                        assert(mid2.model().dom().contains(e2));
                        assert(mid1.model().dom().contains(e2));
                    }
                    if pre.model().dom().contains(e2) && e2 != entity {
                        assert(mid2.model().dom().contains(e2));
                    }
                }
                assert forall|e2: Entity| post.model().dom().contains(e2) implies
                    #[trigger] post.model()[e2] == pre.model().insert(entity, EntityRecord {
                        components: pre.model()[entity].components.remove(component_type.0),
                        tags: pre.model()[entity].tags,
                    })[e2] by {
                    if e2 == entity {
                        assert(post.model()[entity] == newrec);
                    } else {
                        assert(mid2.model().dom().contains(e2));
                        assert(post.model()[e2] == mid2.model()[e2]);
                        assert(mid2.model()[e2] == mid1.model()[e2]);
                    }
                }
            }
        }
    }

    /// Adds a tag to an entity, or replaces its value if the tag is already
    /// present: the entity moves to the chunk-set carrying its current tag
    /// values plus the new one.
    pub fn add_tag(&mut self, entity: Entity, tag_type: TagTypeId, meta: TagMeta, value: Vec<u8>)
        requires
            old(self).wf(),
            old(self).model().dom().contains(entity),
            value@.len() == meta.size,
            meta.align >= 1,
            old(self).tag_meta_ok(tag_type.0, meta),
        ensures
            final(self).wf(),
            final(self).model() == old(self).model().insert(entity, EntityRecord {
                components: old(self).model()[entity].components,
                tags: old(self).model()[entity].tags.insert(tag_type.0, value@),
            }),
            final(self).storage.archetypes@.len()
                <= old(self).storage.archetypes@.len() + 1,
            forall|a2: int| 0 <= a2 < old(self).storage.archetypes@.len()
                ==> (#[trigger] final(self).storage.archetypes@[a2]).desc
                        == old(self).storage.archetypes@[a2].desc
                    && final(self).storage.archetypes@[a2].chunk_sets@.len()
                        >= old(self).storage.archetypes@[a2].chunk_sets@.len(),
            forall|a2: int, s2: int|
                0 <= a2 < old(self).storage.archetypes@.len()
                    && 0 <= s2 < old(self).storage.archetypes@[a2].chunk_sets@.len()
                    ==> (#[trigger] final(self).storage.archetypes@[a2].tags.tuple_at(s2))
                        == old(self).storage.archetypes@[a2].tags.tuple_at(s2),
            (exists|a2: int, s2: int|
                0 <= a2 < old(self).storage.archetypes@.len()
                    && 0 <= s2 < old(self).storage.archetypes@[a2].chunk_sets@.len()
                    && (forall|t: u64| #[trigger] ctypes_has(
                        old(self).storage.archetypes@[a2].desc.components@, t)
                        == old(self).model()[entity].components.contains_key(t))
                    && (forall|t: u64| #[trigger] tpair_has(
                        old(self).storage.archetypes@[a2].desc.tags@, t)
                        == old(self).model()[entity].tags
                            .insert(tag_type.0, value@).dom().contains(t))
                    && (#[trigger] old(self).storage.archetypes@[a2].tags.tuple_at(s2))
                        == old(self).model()[entity].tags.insert(tag_type.0, value@))
                ==> final(self).storage.archetypes@.len()
                        == old(self).storage.archetypes@.len()
                    && (forall|a3: int| 0 <= a3 < old(self).storage.archetypes@.len()
                        ==> (#[trigger] final(self).storage.archetypes@[a3])
                            .chunk_sets@.len()
                            == old(self).storage.archetypes@[a3].chunk_sets@.len()),
    {
        let ghost pre = *self;
        let loc = match self.entity_allocator.get_location(entity.index) {
            Some(l) => l,
            None => {
                proof {
                    assert(false);
                }
                EntityLocation::new(0, 0, 0, 0)
            }
        };
        proof {
            assert(loc == pre.entity_allocator.spec_loc(entity));
            assert(pre.loc_ok(loc));
            assert(pre.chunk_at(loc).entities@[loc.component as int] == entity);
            assert(pre.model()[entity].components
                =~= pre.chunk_at(loc).row(loc.component as int));
        }
        let (types, row) = self.read_source_components(loc, None);
        let ghost typesg = types@;
        let ghost rowg = row@;
        let mut trips = self.read_source_tags(loc, Some(tag_type.0));
        let ghost tripspre = trips@;
        trips.push((tag_type, meta, value));
        let ghost vg = value@;
        let ghost tripsg = trips@;
        proof {
            assert forall|k: int| 0 <= k < tripspre.len() implies
                ttrip_raw_ids(tripspre)[k] != tag_type.0 by {
                if ttrip_raw_ids(tripspre)[k] == tag_type.0 {
                    assert(tripspre[k].0.0 == tag_type.0);
                    assert(ttrip_has(tripspre, tag_type.0));
                }
            }
            assert(!ttrip_raw_ids(tripspre).contains(tag_type.0)) by {
                if ttrip_raw_ids(tripspre).contains(tag_type.0) {
                    let k = choose|k: int| 0 <= k < ttrip_raw_ids(tripspre).len()
                        && ttrip_raw_ids(tripspre)[k] == tag_type.0;
                }
            }
            assert(ttrip_raw_ids(tripsg) =~= ttrip_raw_ids(tripspre).push(tag_type.0));
            crate::entity::lemma_push_no_duplicates_u64(
                ttrip_raw_ids(tripspre), tag_type.0);
            // The component layout is the source archetype's own.
            assert(typesg == pre.storage.archetypes@[loc.archetype as int]
                .desc.components@);
            assert(layout_ok(typesg, spec_capacity(typesg))) by {
                assert(pre.storage.archetypes@[loc.archetype as int].wf());
            }
        }
        let (a2, s2) = self.resolve_target(&trips, &types);
        let ghost mid1 = *self;
        proof {
            assert(mid1.wf()) by {
                assert(mid1.entity_allocator == pre.entity_allocator);
            }
            assert(mid1.model() == pre.model());
        }
        self.detach_row(entity);
        let ghost mid2 = *self;
        proof {
            assert(mid2.storage.archetypes@[a2 as int].desc
                == mid1.storage.archetypes@[a2 as int].desc);
            assert(mid2.storage.archetypes@[a2 as int].tags
                == mid1.storage.archetypes@[a2 as int].tags);
        }
        self.place_absorbed_row(entity, a2, s2, &types, &row);
        proof {
            let post = *self;
            assert(post.wf()) by {
                assert forall|e2: Entity|
                    #[trigger] post.entity_allocator.spec_is_alive(e2) implies
                    post.entity_allocator.spec_located(e2) by {
                    if e2 != entity {
                        assert(mid1.entity_allocator.spec_is_alive(e2));
                        assert(mid1.entity_allocator.spec_located(e2));
                    }
                }
            }
            let ghost newrec = EntityRecord {
                components: row_map(typesg, rowg),
                tags: mid2.storage.archetypes@[a2 as int].tags.tuple_at(s2 as int),
            };
            let ghost arch = pre.storage.archetypes@[loc.archetype as int];
            assert(newrec.components =~= pre.model()[entity].components) by {
                assert forall|t: u64| #[trigger] ctypes_has(typesg, t)
                    == pre.model()[entity].components.contains_key(t) by {
                    if ctypes_has(typesg, t) {
                        let i = ctypes_idx(arch.desc.components@, t);
                        assert(pre.chunk_at(loc).has_type(arch.desc.components@[i].0.0));
                    }
                    if pre.model()[entity].components.contains_key(t) {
                        assert(pre.chunk_at(loc).has_type(t));
                        assert(ctypes_has(arch.desc.components@, t)) by {
                            crate::archetype::lemma_chunk_cols_are_desc(
                                arch, pre.chunk_at(loc));
                            let k = dict_idx(pre.chunk_at(loc).components@, t);
                            lemma_dict_idx(pre.chunk_at(loc).components@, t, k);
                            assert(crate::archetype::desc_has_comp(arch, t));
                            let i = choose|i: int|
                                0 <= i < arch.desc.components@.len()
                                    && (#[trigger] arch.desc.components@[i]).0.0 == t;
                        }
                    }
                }
                assert forall|t: u64| ctypes_has(typesg, t) implies
                    #[trigger] row_map(typesg, rowg)[t]
                        == pre.model()[entity].components[t] by {
                    let k = ctypes_idx(typesg, t);
                    assert(rowg[k]@ == pre.chunk_at(loc)
                        .value_at(typesg[k].0.0, loc.component as int));
                    assert(pre.model()[entity].components[t]
                        == pre.chunk_at(loc).row(loc.component as int)[t]);
                }
            }
            assert(newrec.tags =~= pre.model()[entity].tags.insert(tag_type.0, vg)) by {
                assert(newrec.tags == trip_tags_map(tripsg));
                assert forall|t: u64| #[trigger] ttrip_has(tripsg, t)
                    == (dict_has(arch.tags.data@, t) || t == tag_type.0) by {
                    if ttrip_has(tripsg, t) && t != tag_type.0 {
                        let k = ttrip_idx(tripsg, t);
                        assert(k < tripspre.len());
                        assert(ttrip_has(tripspre, t));
                        assert(tpair_has(arch.desc.tags@, t));
                        let i = choose|i: int| 0 <= i < arch.desc.tags@.len()
                            && (#[trigger] arch.desc.tags@[i]).0.0 == t;
                        assert(dict_has(arch.tags.data@, t));
                    }
                    if dict_has(arch.tags.data@, t) && t != tag_type.0 {
                        let k = dict_idx(arch.tags.data@, t);
                        lemma_dict_idx(arch.tags.data@, t, k);
                        crate::archetype::lemma_tag_key_in_desc(arch, k);
                        let i = choose|i: int| 0 <= i < arch.desc.tags@.len()
                            && (#[trigger] arch.desc.tags@[i]).0.0 == t;
                        assert(tpair_has(arch.desc.tags@, t));
                        assert(ttrip_has(tripspre, t));
                        let j = ttrip_idx(tripspre, t);
                        assert(tripsg[j].0.0 == t);
                        assert(ttrip_has(tripsg, t));
                    }
                    if t == tag_type.0 {
                        assert(tripsg[tripsg.len() - 1].0.0 == t);
                        assert(ttrip_has(tripsg, t));
                    }
                }
                assert forall|t: u64| ttrip_has(tripsg, t) implies
                    #[trigger] trip_tags_map(tripsg)[t]
                        == pre.model()[entity].tags.insert(tag_type.0, vg)[t] by {
                    if t == tag_type.0 {
                        lemma_ttrip_idx(tripsg, t, tripspre.len() as int);
                        assert(trip_tags_map(tripsg)[t] == vg);
                    } else {
                        let k = ttrip_idx(tripsg, t);
                        assert(k < tripspre.len()) by {
                            if k == tripspre.len() {
                                assert(tripsg[k].0.0 == tag_type.0);
                            }
                        }
                        assert(tripsg[k] == tripspre[k]);
                        lemma_ttrip_idx(tripspre, t, k);
                        assert(tripspre[k].2@
                            == arch.tags.tuple_at(loc.set as int)[tripspre[k].0.0]);
                    }
                }
            }
            assert(post.model() =~= pre.model().insert(entity, EntityRecord {
                components: pre.model()[entity].components,
                tags: pre.model()[entity].tags.insert(tag_type.0, vg),
            })) by {
                assert forall|e2: Entity| #[trigger] post.model().dom().contains(e2)
                    == (pre.model().dom().contains(e2) || e2 == entity) by {
                    if post.model().dom().contains(e2) && e2 != entity {
                        assert(mid2.model().dom().contains(e2));
                        assert(mid1.model().dom().contains(e2));
                    }
                    if pre.model().dom().contains(e2) && e2 != entity {
                        assert(mid2.model().dom().contains(e2));
                    }
                }
                assert forall|e2: Entity| post.model().dom().contains(e2) implies
                    #[trigger] post.model()[e2] == pre.model().insert(entity, EntityRecord {
                        components: pre.model()[entity].components,
                        tags: pre.model()[entity].tags.insert(tag_type.0, vg),
                    })[e2] by {
                    if e2 == entity {
                        assert(post.model()[entity] == newrec);
                    } else {
                        assert(mid2.model().dom().contains(e2));
                        assert(post.model()[e2] == mid2.model()[e2]);
                        assert(mid2.model()[e2] == mid1.model()[e2]);
                    }
                }
            }
            // When some archetype already carried a chunk-set with the
            // entity's retained tags plus the new value, the move reused it:
            // nothing structural was allocated.
            let tmap = pre.model()[entity].tags.insert(tag_type.0, vg);
            if exists|aw: int, sw: int|
                0 <= aw < pre.storage.archetypes@.len()
                    && 0 <= sw < pre.storage.archetypes@[aw].chunk_sets@.len()
                    && (forall|t: u64| #[trigger] ctypes_has(
                        pre.storage.archetypes@[aw].desc.components@, t)
                        == pre.model()[entity].components.contains_key(t))
                    && (forall|t: u64| #[trigger] tpair_has(
                        pre.storage.archetypes@[aw].desc.tags@, t)
                        == tmap.dom().contains(t))
                    && (#[trigger] pre.storage.archetypes@[aw].tags.tuple_at(sw)) == tmap {
                let (aw, sw) = choose|aw: int, sw: int|
                    0 <= aw < pre.storage.archetypes@.len()
                        && 0 <= sw < pre.storage.archetypes@[aw].chunk_sets@.len()
                        && (forall|t: u64| #[trigger] ctypes_has(
                            pre.storage.archetypes@[aw].desc.components@, t)
                            == pre.model()[entity].components.contains_key(t))
                        && (forall|t: u64| #[trigger] tpair_has(
                            pre.storage.archetypes@[aw].desc.tags@, t)
                            == tmap.dom().contains(t))
                        && (#[trigger] pre.storage.archetypes@[aw].tags.tuple_at(sw))
                            == tmap;
                assert(pre.arch_sig_matches(aw, tripsg, typesg)) by {
                    assert forall|t: u64| #[trigger] ctypes_has(
                        pre.storage.archetypes@[aw].desc.components@, t)
                        == ctypes_has(typesg, t) by {
                        assert(row_map(typesg, rowg).dom().contains(t)
                            == ctypes_has(typesg, t));
                        assert(row_map(typesg, rowg).dom().contains(t)
                            == pre.model()[entity].components.contains_key(t));
                    }
                    assert forall|t: u64| #[trigger] tpair_has(
                        pre.storage.archetypes@[aw].desc.tags@, t)
                        == ttrip_has(tripsg, t) by {
                        assert(trip_tags_map(tripsg).dom().contains(t)
                            == ttrip_has(tripsg, t));
                        assert(trip_tags_map(tripsg).dom().contains(t)
                            == tmap.dom().contains(t));
                    }
                }
                assert(mid1.storage.archetypes@.len()
                    == pre.storage.archetypes@.len()) by {
                    if mid1.storage.archetypes@.len()
                        == pre.storage.archetypes@.len() + 1 {
                        assert(!pre.arch_sig_matches(aw, tripsg, typesg));
                    }
                }
                assert(a2 < pre.storage.archetypes@.len());
                assert(pre.arch_sig_matches(a2 as int, tripsg, typesg));
                assert(a2 as int == aw) by {
                    if a2 as int != aw {
                        assert forall|t: u64|
                            #[trigger] ctypes_has(
                                pre.storage.archetypes@[a2 as int].desc.components@, t)
                                == ctypes_has(
                                    pre.storage.archetypes@[aw].desc.components@, t) by {}
                        assert forall|t: u64|
                            #[trigger] tpair_has(
                                pre.storage.archetypes@[a2 as int].desc.tags@, t)
                                == tpair_has(
                                    pre.storage.archetypes@[aw].desc.tags@, t) by {}
                        assert forall|t: u64|
                            #[trigger] ctypes_has(
                                pre.storage.archetypes@[aw].desc.components@, t)
                                == ctypes_has(
                                    pre.storage.archetypes@[a2 as int].desc.components@,
                                    t) by {}
                        assert forall|t: u64|
                            #[trigger] tpair_has(
                                pre.storage.archetypes@[aw].desc.tags@, t)
                                == tpair_has(
                                    pre.storage.archetypes@[a2 as int].desc.tags@,
                                    t) by {}
                        if (a2 as int) < aw {
                            assert(pre.archs_sig_equal(a2 as int, aw));
                            assert(!pre.archs_sig_equal(a2 as int, aw));
                        } else {
                            assert(pre.archs_sig_equal(aw, a2 as int));
                            assert(!pre.archs_sig_equal(aw, a2 as int));
                        }
                    }
                }
                assert(pre.storage.archetypes@[a2 as int].tags.tuple_at(sw)
                    == trip_tags_map(tripsg)) by {
                    assert(newrec.tags == trip_tags_map(tripsg));
                    assert(newrec.tags =~= tmap);
                }
                assert(mid1.storage.archetypes@[a2 as int].chunk_sets@.len()
                    == pre.storage.archetypes@[a2 as int].chunk_sets@.len());
                assert forall|a3: int| 0 <= a3 < pre.storage.archetypes@.len() implies
                    (#[trigger] post.storage.archetypes@[a3]).chunk_sets@.len()
                        == pre.storage.archetypes@[a3].chunk_sets@.len() by {
                    assert(post.storage.archetypes@[a3].chunk_sets@.len()
                        == mid2.storage.archetypes@[a3].chunk_sets@.len());
                    assert(mid2.storage.archetypes@[a3].chunk_sets@.len()
                        == mid1.storage.archetypes@[a3].chunk_sets@.len());
                }
            }
        }
    }

    /// Removes a tag from an entity; a no-op when the entity does not carry
    /// it. Otherwise the entity moves to the chunk-set carrying its
    /// remaining tag values.
    pub fn remove_tag(&mut self, entity: Entity, tag_type: TagTypeId)
        requires
            old(self).wf(),
        ensures
            final(self).wf(),
            old(self).model().dom().contains(entity)
                ==> final(self).model() == old(self).model().insert(entity, EntityRecord {
                    components: old(self).model()[entity].components,
                    tags: old(self).model()[entity].tags.remove(tag_type.0),
                }),
            !old(self).model().dom().contains(entity) ==> *final(self) == *old(self),
            final(self).storage.archetypes@.len()
                <= old(self).storage.archetypes@.len() + 1,
            forall|a2: int| 0 <= a2 < old(self).storage.archetypes@.len()
                ==> (#[trigger] final(self).storage.archetypes@[a2]).desc
                        == old(self).storage.archetypes@[a2].desc
                    && final(self).storage.archetypes@[a2].chunk_sets@.len()
                        >= old(self).storage.archetypes@[a2].chunk_sets@.len(),
            forall|a2: int, s2: int|
                0 <= a2 < old(self).storage.archetypes@.len()
                    && 0 <= s2 < old(self).storage.archetypes@[a2].chunk_sets@.len()
                    ==> (#[trigger] final(self).storage.archetypes@[a2].tags.tuple_at(s2))
                        == old(self).storage.archetypes@[a2].tags.tuple_at(s2),
    {
        let ghost pre = *self;
        if !self.entity_allocator.is_alive(entity) {
            return;
        }
        let loc = match self.entity_allocator.get_location(entity.index) {
            Some(l) => l,
            None => {
                proof {
                    assert(false);
                }
                EntityLocation::new(0, 0, 0, 0)
            }
        };
        proof {
            assert(loc == pre.entity_allocator.spec_loc(entity));
            assert(pre.loc_ok(loc));
            assert(pre.chunk_at(loc).entities@[loc.component as int] == entity);
            assert(pre.model()[entity].components
                =~= pre.chunk_at(loc).row(loc.component as int));
            assert(pre.model()[entity].tags
                =~= pre.storage.archetypes@[loc.archetype as int].tags
                    .tuple_at(loc.set as int));
        }
        let present = {
            let arch = &self.storage.archetypes[loc.archetype];
            match arch.tags.get(tag_type) {
                Some(_) => true,
                None => false,
            }
        };
        if !present {
            proof {
                assert(!pre.model()[entity].tags.contains_key(tag_type.0));
                assert(pre.model()[entity].tags.remove(tag_type.0)
                    =~= pre.model()[entity].tags);
                assert(pre.model()[entity] == (EntityRecord {
                    components: pre.model()[entity].components,
                    tags: pre.model()[entity].tags.remove(tag_type.0),
                }));
                assert(pre.model().insert(entity, EntityRecord {
                    components: pre.model()[entity].components,
                    tags: pre.model()[entity].tags.remove(tag_type.0),
                }) =~= pre.model());
            }
            return;
        }
        let (types, row) = self.read_source_components(loc, None);
        let ghost typesg = types@;
        let ghost rowg = row@;
        let trips = self.read_source_tags(loc, Some(tag_type.0));
        let ghost tripsg = trips@;
        proof {
            assert(typesg == pre.storage.archetypes@[loc.archetype as int]
                .desc.components@);
            assert(layout_ok(typesg, spec_capacity(typesg))) by {
                assert(pre.storage.archetypes@[loc.archetype as int].wf());
            }
        }
        let (a2, s2) = self.resolve_target(&trips, &types);
        let ghost mid1 = *self;
        proof {
            assert(mid1.wf()) by {
                assert(mid1.entity_allocator == pre.entity_allocator);
            }
            assert(mid1.model() == pre.model());
        }
        self.detach_row(entity);
        let ghost mid2 = *self;
        proof {
            assert(mid2.storage.archetypes@[a2 as int].desc
                == mid1.storage.archetypes@[a2 as int].desc);
            assert(mid2.storage.archetypes@[a2 as int].tags
                == mid1.storage.archetypes@[a2 as int].tags);
        }
        self.place_absorbed_row(entity, a2, s2, &types, &row);
        proof {
            let post = *self;
            assert(post.wf()) by {
                assert forall|e2: Entity|
                    #[trigger] post.entity_allocator.spec_is_alive(e2) implies
                    post.entity_allocator.spec_located(e2) by {
                    if e2 != entity {
                        assert(mid1.entity_allocator.spec_is_alive(e2));
                        assert(mid1.entity_allocator.spec_located(e2));
                    }
                }
            }
            let ghost newrec = EntityRecord {
                components: row_map(typesg, rowg),
                tags: mid2.storage.archetypes@[a2 as int].tags.tuple_at(s2 as int),
            };
            let ghost arch = pre.storage.archetypes@[loc.archetype as int];
            assert(newrec.components =~= pre.model()[entity].components) by {
                assert forall|t: u64| #[trigger] ctypes_has(typesg, t)
                    == pre.model()[entity].components.contains_key(t) by {
                    if ctypes_has(typesg, t) {
                        let i = ctypes_idx(arch.desc.components@, t);
                        assert(pre.chunk_at(loc).has_type(arch.desc.components@[i].0.0));
                    }
                    if pre.model()[entity].components.contains_key(t) {
                        assert(pre.chunk_at(loc).has_type(t));
                        assert(ctypes_has(arch.desc.components@, t)) by {
                            crate::archetype::lemma_chunk_cols_are_desc(
                                arch, pre.chunk_at(loc));
                            let k = dict_idx(pre.chunk_at(loc).components@, t);
                            lemma_dict_idx(pre.chunk_at(loc).components@, t, k);
                            assert(crate::archetype::desc_has_comp(arch, t));
                            let i = choose|i: int|
                                0 <= i < arch.desc.components@.len()
                                    && (#[trigger] arch.desc.components@[i]).0.0 == t;
                        }
                    }
                }
                assert forall|t: u64| ctypes_has(typesg, t) implies
                    #[trigger] row_map(typesg, rowg)[t]
                        == pre.model()[entity].components[t] by {
                    let k = ctypes_idx(typesg, t);
                    assert(rowg[k]@ == pre.chunk_at(loc)
                        .value_at(typesg[k].0.0, loc.component as int));
                    assert(pre.model()[entity].components[t]
                        == pre.chunk_at(loc).row(loc.component as int)[t]);
                }
            }
            assert(newrec.tags =~= pre.model()[entity].tags.remove(tag_type.0)) by {
                assert(newrec.tags == trip_tags_map(tripsg));
                assert forall|t: u64| #[trigger] ttrip_has(tripsg, t)
                    == (dict_has(arch.tags.data@, t) && t != tag_type.0) by {
                    if ttrip_has(tripsg, t) {
                        assert(tpair_has(arch.desc.tags@, t) && t != tag_type.0);
                        let i = choose|i: int| 0 <= i < arch.desc.tags@.len()
                            && (#[trigger] arch.desc.tags@[i]).0.0 == t;
                        assert(dict_has(arch.tags.data@, t));
                    }
                    if dict_has(arch.tags.data@, t) && t != tag_type.0 {
                        let k = dict_idx(arch.tags.data@, t);
                        lemma_dict_idx(arch.tags.data@, t, k);
                        crate::archetype::lemma_tag_key_in_desc(arch, k);
                        let i = choose|i: int| 0 <= i < arch.desc.tags@.len()
                            && (#[trigger] arch.desc.tags@[i]).0.0 == t;
                        assert(tpair_has(arch.desc.tags@, t));
                    }
                }
                assert forall|t: u64| ttrip_has(tripsg, t) implies
                    #[trigger] trip_tags_map(tripsg)[t]
                        == arch.tags.tuple_at(loc.set as int)[t] by {
                    let k = ttrip_idx(tripsg, t);
                    assert(tripsg[k].2@ == arch.tags.tuple_at(loc.set as int)[tripsg[k].0.0]);
                }
            }
            assert(post.model() =~= pre.model().insert(entity, EntityRecord {
                components: pre.model()[entity].components,
                tags: pre.model()[entity].tags.remove(tag_type.0),
            })) by {
                assert forall|e2: Entity| #[trigger] post.model().dom().contains(e2)
                    == (pre.model().dom().contains(e2) || e2 == entity) by {
                    if post.model().dom().contains(e2) && e2 != entity {
                        assert(mid2.model().dom().contains(e2));
                        assert(mid1.model().dom().contains(e2));
                    }
                    if pre.model().dom().contains(e2) && e2 != entity {
                        assert(mid2.model().dom().contains(e2));
                    }
                }
                assert forall|e2: Entity| post.model().dom().contains(e2) implies
                    #[trigger] post.model()[e2] == pre.model().insert(entity, EntityRecord {
                        components: pre.model()[entity].components,
                        tags: pre.model()[entity].tags.remove(tag_type.0),
                    })[e2] by {
                    if e2 == entity {
                        assert(post.model()[entity] == newrec);
                    } else {
                        assert(mid2.model().dom().contains(e2));
                        assert(post.model()[e2] == mid2.model()[e2]);
                        assert(mid2.model()[e2] == mid1.model()[e2]);
                    }
                }
            }
        }
    }

    /// The version counter of the column holding entity `e`'s component of
    /// type `t`; it advances (wrapping) on every write.
    pub open spec fn version_of(self, e: Entity, t: u64) -> u64 {
        dict_val(self.chunk_at(self.entity_allocator.spec_loc(e)).components@, t).version
    }

    /// The change flag of the column holding entity `e`'s component of type
    /// `t`: set by every write, cleared by a change-tracking reader.
    pub open spec fn changed_of(self, e: Entity, t: u64) -> bool {
        dict_val(self.chunk_at(self.entity_allocator.spec_loc(e)).components@, t).changed
    }

    /// Overwrites a component of the given entity in place. Returns `true`
    /// exactly when the entity is live, has the component, and the value has
    /// the component's size; then the model records the new value, the
    /// column's version advances by one (wrapping) and its change flag is
    /// set. Otherwise nothing changes.
    pub fn get_component_mut(
        &mut self,
        entity: Entity,
        component_type: ComponentTypeId,
        value: Vec<u8>,
    ) -> (r: bool)
        requires
            old(self).wf(),
        ensures
            final(self).wf(),
            r == (old(self).model().dom().contains(entity)
                && old(self).model()[entity].components.contains_key(component_type.0)
                && value@.len()
                    == old(self).model()[entity].components[component_type.0].len()),
            r ==> final(self).model() == old(self).model().insert(entity, EntityRecord {
                components: old(self).model()[entity].components
                    .insert(component_type.0, value@),
                tags: old(self).model()[entity].tags,
            }),
            r ==> final(self).version_of(entity, component_type.0)
                == crate::chunk::wrap_inc(old(self).version_of(entity, component_type.0))
                && final(self).changed_of(entity, component_type.0),
            !r ==> final(self).model() == old(self).model(),
            !r ==> *final(self) == *old(self),
    {
        let ghost pre = *self;
        if !self.entity_allocator.is_alive(entity) {
            return false;
        }
        let loc = match self.entity_allocator.get_location(entity.index) {
            Some(l) => l,
            None => {
                proof {
                    assert(false);
                }
                EntityLocation::new(0, 0, 0, 0)
            }
        };
        proof {
            assert(loc == pre.entity_allocator.spec_loc(entity));
            assert(pre.loc_ok(loc));
            assert(pre.model()[entity].components
                =~= pre.chunk_at(loc).row(loc.component as int));
        }
        let stored_len = {
            let chunk = &self.storage.archetypes[loc.archetype].chunk_sets[loc.set]
                .chunks[loc.chunk];
            match chunk.component_value(component_type, loc.component) {
                Some(v) => v.len(),
                None => {
                    return false;
                }
            }
        };
        if value.len() != stored_len {
            return false;
        }
        proof {
            let k = dict_idx(pre.chunk_at(loc).components@, component_type.0);
            lemma_dict_idx(pre.chunk_at(loc).components@, component_type.0, k);
        }
        self.set_component_in_place(entity, loc, component_type, value);
        true
    }

    /// Borrows a component of the given entity only when its column has
    /// changed since the flag was last cleared; with `mark_unchanged` the
    /// flag is cleared for the next reader. Returns a copy of the value
    /// exactly when the entity is live, has the component, and the column's
    /// change flag is set. Never changes any record.
    pub fn get_component_changed(
        &mut self,
        entity: Entity,
        component_type: ComponentTypeId,
        mark_unchanged: bool,
    ) -> (r: Option<Vec<u8>>)
        requires
            old(self).wf(),
        ensures
            final(self).wf(),
            final(self).model() == old(self).model(),
            match r {
                Some(v) => old(self).model().dom().contains(entity)
                    && old(self).model()[entity].components.contains_key(component_type.0)
                    && old(self).changed_of(entity, component_type.0)
                    && v@ == old(self).model()[entity].components[component_type.0],
                None => !(old(self).model().dom().contains(entity)
                    && old(self).model()[entity].components.contains_key(component_type.0)
                    && old(self).changed_of(entity, component_type.0)),
            },
            mark_unchanged && r is Some
                ==> !final(self).changed_of(entity, component_type.0)
                    && final(self).version_of(entity, component_type.0)
                        == old(self).version_of(entity, component_type.0),
            !(mark_unchanged && r is Some) ==> *final(self) == *old(self),
    {
        let ghost pre = *self;
        if !self.entity_allocator.is_alive(entity) {
            return None;
        }
        let loc = match self.entity_allocator.get_location(entity.index) {
            Some(l) => l,
            None => {
                proof {
                    assert(false);
                }
                EntityLocation::new(0, 0, 0, 0)
            }
        };
        proof {
            assert(loc == pre.entity_allocator.spec_loc(entity));
            assert(pre.loc_ok(loc));
            assert(pre.model()[entity].components
                =~= pre.chunk_at(loc).row(loc.component as int));
        }
        let ghost chunkpre = pre.chunk_at(loc);
        let (found, changed, v) = {
            let chunk = &self.storage.archetypes[loc.archetype].chunk_sets[loc.set]
                .chunks[loc.chunk];
            match crate::dict::dict_find(&chunk.components, component_type.0) {
                Some(i) => {
                    let acc = &chunk.components[i].1;
                    if acc.changed() {
                        (true, true, crate::meta::copy_bytes(&acc.data[loc.component]))
                    } else {
                        (true, false, Vec::new())
                    }
                }
                None => (false, false, Vec::new()),
            }
        };
        if !found || !changed {
            return None;
        }
        if mark_unchanged {
            let ghost ci = dict_idx(chunkpre.components@, component_type.0);
            {
                let arch: &mut ArchetypeData = &mut self.storage.archetypes[loc.archetype];
                let set: &mut Chunkset = &mut arch.chunk_sets[loc.set];
                let chunk: &mut ComponentStorage = &mut set.chunks[loc.chunk];
                let i = match crate::dict::dict_find(&chunk.components, component_type.0) {
                    Some(i) => i,
                    None => {
                        proof {
                            assert(false);
                        }
                        0
                    }
                };
                let acc = crate::dict::dict_val_mut(&mut chunk.components, i);
                acc.mark_unchanged();
                proof {
                    assert(dict_sorted(chunk.components@)) by {
                        assert forall|i2: int, j2: int|
                            0 <= i2 < j2 < chunk.components@.len() implies
                            (#[trigger] chunk.components@[i2]).0
                                < (#[trigger] chunk.components@[j2]).0 by {
                            assert(chunk.components@[i2].0 == chunkpre.components@[i2].0);
                            assert(chunk.components@[j2].0 == chunkpre.components@[j2].0);
                        }
                    }
                    assert forall|k: int| 0 <= k < chunk.components@.len() implies
                        (#[trigger] chunk.components@[k]).1.wf()
                            && chunk.components@[k].1.data@.len()
                                == chunk.entities@.len() by {
                        if k != i as int {
                            assert(chunk.components@[k] == chunkpre.components@[k]);
                        } else {
                            assert(chunk.components@[k].1.data@
                                == chunkpre.components@[k].1.data@);
                        }
                    }
                }
            }
            proof {
                let post = *self;
                let chunkpost = post.chunk_at(loc);
                crate::dict::lemma_dict_resolve(chunkpre.components@, chunkpost.components@);
                let archpre = pre.storage.archetypes@[loc.archetype as int];
                let archpost = post.storage.archetypes@[loc.archetype as int];
                assert(post.storage.wf()) by {
                    assert forall|a2: int| 0 <= a2 < post.storage.archetypes@.len() implies
                        (#[trigger] post.storage.archetypes@[a2]).wf() by {
                        if a2 == loc.archetype as int {
                            assert(archpre.wf());
                            assert(archpost.chunk_matches(chunkpost)) by {
                                assert(archpre.chunk_matches(chunkpre));
                                assert forall|i2: int|
                                    0 <= i2 < archpost.desc.components@.len() implies
                                    chunkpost.has_type(
                                        (#[trigger] archpost.desc.components@[i2]).0.0)
                                        && dict_val(chunkpost.components@,
                                            archpost.desc.components@[i2].0.0).element_size
                                            == archpost.desc.components@[i2].1.size by {
                                    let t = archpost.desc.components@[i2].0.0;
                                    assert(dict_has(chunkpre.components@, t));
                                    let k = dict_idx(chunkpre.components@, t);
                                    assert(dict_val(chunkpost.components@, t)
                                        == chunkpost.components@[k].1);
                                    assert(dict_val(chunkpre.components@, t)
                                        == chunkpre.components@[k].1);
                                    assert(chunkpost.components@[k].1.element_size
                                        == chunkpre.components@[k].1.element_size);
                                }
                            }
                            assert forall|s2: int, c2: int|
                                0 <= s2 < archpost.chunk_sets@.len()
                                    && 0 <= c2 < archpost.chunk_sets@[s2].chunks@.len()
                                implies archpost.chunk_matches(
                                    #[trigger] archpost.chunk_sets@[s2].chunks@[c2])
                                    && archpost.chunk_sets@[s2].chunks@[c2].id
                                        == crate::storage::ChunkId(
                                            archpost.id, s2 as usize, c2 as usize) by {
                                if s2 == loc.set as int && c2 == loc.chunk as int {
                                } else {
                                    assert(archpost.chunk_sets@[s2].chunks@[c2]
                                        == archpre.chunk_sets@[s2].chunks@[c2]);
                                    assert(archpre.chunk_matches(
                                        archpre.chunk_sets@[s2].chunks@[c2]));
                                }
                            }
                            assert forall|s2: int| 0 <= s2 < archpost.chunk_sets@.len()
                                implies (#[trigger] archpost.chunk_sets@[s2]).wf() by {
                                if s2 == loc.set as int {
                                    assert forall|c1: int, c2: int|
                                        0 <= c1 < archpost.chunk_sets@[s2].chunks@.len()
                                            && 0 <= c2 < archpost.chunk_sets@[s2]
                                                .chunks@.len()
                                        implies crate::archetype::same_chunk_layout(
                                            #[trigger] archpost.chunk_sets@[s2].chunks@[c1],
                                            #[trigger] archpost.chunk_sets@[s2].chunks@[c2],
                                        ) by {
                                        assert(archpost.chunk_matches(
                                            archpost.chunk_sets@[s2].chunks@[c1]));
                                        assert(archpost.chunk_matches(
                                            archpost.chunk_sets@[s2].chunks@[c2]));
                                        crate::archetype::lemma_same_layout_of_matches(
                                            archpost,
                                            archpost.chunk_sets@[s2].chunks@[c1],
                                            archpost.chunk_sets@[s2].chunks@[c2],
                                        );
                                    }
                                    assert forall|c2: int|
                                        0 <= c2 < archpost.chunk_sets@[s2].chunks@.len()
                                        implies (#[trigger] archpost.chunk_sets@[s2]
                                            .chunks@[c2]).wf() by {
                                        if c2 != loc.chunk as int {
                                            assert(archpost.chunk_sets@[s2].chunks@[c2]
                                                == archpre.chunk_sets@[s2].chunks@[c2]);
                                        }
                                    }
                                } else {
                                    assert(archpost.chunk_sets@[s2]
                                        == archpre.chunk_sets@[s2]);
                                }
                            }
                            assert(archpost.wf());
                        } else {
                            assert(post.storage.archetypes@[a2]
                                == pre.storage.archetypes@[a2]);
                        }
                    }
                }
                assert(post.links_ok()) by {
                    assert forall|e2: Entity|
                        #[trigger] post.entity_allocator.spec_is_alive(e2)
                            && post.entity_allocator.spec_located(e2) implies
                        post.loc_ok(post.entity_allocator.spec_loc(e2))
                            && post.chunk_at(post.entity_allocator.spec_loc(e2))
                                .entities@[post.entity_allocator.spec_loc(e2)
                                    .component as int] == e2 by {
                        let l = pre.entity_allocator.spec_loc(e2);
                        assert(pre.loc_ok(l));
                        if l.archetype == loc.archetype && l.set == loc.set
                            && l.chunk == loc.chunk {
                            assert(post.chunk_at(l).entities@ == chunkpre.entities@);
                        } else {
                            assert(post.chunk_at(l) == pre.chunk_at(l));
                        }
                    }
                    assert forall|a2: int, s2: int, c2: int, i2: int|
                        0 <= a2 < post.storage.archetypes@.len()
                            && 0 <= s2 < post.storage.archetypes@[a2].chunk_sets@.len()
                            && 0 <= c2 < post.storage.archetypes@[a2].chunk_sets@[s2]
                                .chunks@.len()
                            && 0 <= i2 < post.storage.archetypes@[a2].chunk_sets@[s2]
                                .chunks@[c2].entities@.len() implies {
                        let e2 = #[trigger] post.storage.archetypes@[a2].chunk_sets@[s2]
                            .chunks@[c2].entities@[i2];
                        &&& post.entity_allocator.spec_is_alive(e2)
                        &&& post.entity_allocator.spec_located(e2)
                        &&& post.entity_allocator.spec_loc(e2).archetype == a2
                        &&& post.entity_allocator.spec_loc(e2).set == s2
                        &&& post.entity_allocator.spec_loc(e2).chunk == c2
                        &&& post.entity_allocator.spec_loc(e2).component == i2
                    } by {
                        let e2 = post.storage.archetypes@[a2].chunk_sets@[s2]
                            .chunks@[c2].entities@[i2];
                        assert(e2 == pre.storage.archetypes@[a2].chunk_sets@[s2]
                            .chunks@[c2].entities@[i2]) by {
                            if a2 == loc.archetype as int && s2 == loc.set as int
                                && c2 == loc.chunk as int {
                                assert(post.chunk_at(loc).entities@ == chunkpre.entities@);
                            }
                        }
                    }
                }
                assert(post.model() =~= pre.model()) by {
                    assert forall|e2: Entity| #[trigger] post.model().dom().contains(e2)
                        == pre.model().dom().contains(e2) by {}
                    assert forall|e2: Entity| pre.model().dom().contains(e2) implies
                        #[trigger] post.model()[e2] == pre.model()[e2] by {
                        let l = pre.entity_allocator.spec_loc(e2);
                        assert(pre.loc_ok(l));
                        assert(post.storage.archetypes@[l.archetype as int].tags
                            == pre.storage.archetypes@[l.archetype as int].tags);
                        assert(post.record_at(l).tags =~= pre.record_at(l).tags);
                        assert(post.record_at(l).components
                            =~= pre.record_at(l).components) by {
                            if l.archetype == loc.archetype && l.set == loc.set
                                && l.chunk == loc.chunk {
                                let chunkpost = post.chunk_at(loc);
                                assert forall|t: u64|
                                    #[trigger] dict_has(chunkpost.components@, t)
                                        == dict_has(chunkpre.components@, t)
                                        && (dict_has(chunkpre.components@, t)
                                            ==> chunkpost.value_at(t, l.component as int)
                                                == chunkpre.value_at(
                                                    t, l.component as int)) by {
                                    if dict_has(chunkpre.components@, t) {
                                        let k = dict_idx(chunkpre.components@, t);
                                        assert(dict_val(chunkpost.components@, t)
                                            == chunkpost.components@[k].1);
                                        assert(dict_val(chunkpre.components@, t)
                                            == chunkpre.components@[k].1);
                                        if k == ci {
                                            assert(chunkpost.components@[k].1.data@
                                                == chunkpre.components@[k].1.data@);
                                        } else {
                                            assert(chunkpost.components@[k]
                                                == chunkpre.components@[k]);
                                        }
                                    }
                                }
                            } else {
                                assert(post.chunk_at(l) == pre.chunk_at(l));
                            }
                        }
                        assert(post.record_at(l) == pre.record_at(l));
                    }
                }
                lemma_sigs_distinct_same_descs(pre, post);
                assert(post.wf());
                assert(post.entity_allocator.spec_loc(entity)
                    == pre.entity_allocator.spec_loc(entity));
                assert(dict_val(chunkpost.components@, component_type.0)
                    == chunkpost.components@[ci].1);
                assert(dict_val(chunkpre.components@, component_type.0)
                    == chunkpre.components@[ci].1);
                assert(chunkpost.components@[ci].1.version
                    == chunkpre.components@[ci].1.version);
            }
        }
        Some(v)
    }

    /// Overwrites a component of the given entity only when its column has
    /// changed since the flag was last cleared; with `mark_unchanged` the
    /// flag is cleared afterwards. Returns `true` exactly when the entity is
    /// live, has the component, the column's change flag is set, and the
    /// value has the component's size; then the model records the new value
    /// and the column's version advances by one (wrapping).
    pub fn get_component_changed_mut(
        &mut self,
        entity: Entity,
        component_type: ComponentTypeId,
        value: Vec<u8>,
        mark_unchanged: bool,
    ) -> (r: bool)
        requires
            old(self).wf(),
        ensures
            final(self).wf(),
            r == (old(self).model().dom().contains(entity)
                && old(self).model()[entity].components.contains_key(component_type.0)
                && old(self).changed_of(entity, component_type.0)
                && value@.len()
                    == old(self).model()[entity].components[component_type.0].len()),
            r ==> final(self).model() == old(self).model().insert(entity, EntityRecord {
                components: old(self).model()[entity].components
                    .insert(component_type.0, value@),
                tags: old(self).model()[entity].tags,
            }),
            r ==> final(self).version_of(entity, component_type.0)
                == crate::chunk::wrap_inc(old(self).version_of(entity, component_type.0)),
            r && mark_unchanged ==> !final(self).changed_of(entity, component_type.0),
            r && !mark_unchanged ==> final(self).changed_of(entity, component_type.0),
            !r ==> *final(self) == *old(self),
    {
        match self.get_component_changed(entity, component_type, false) {
            None => false,
            Some(_) => {
                let wrote = self.get_component_mut(entity, component_type, value);
                if wrote && mark_unchanged {
                    let cleared = self.get_component_changed(entity, component_type, true);
                    proof {
                        assert(cleared is Some);
                    }
                }
                wrote
            }
        }
    }

    /// Overwrites the value of a component the entity already has, in
    /// place.
    fn set_component_in_place(
        &mut self,
        entity: Entity,
        loc: EntityLocation,
        component_type: ComponentTypeId,
        value: Vec<u8>,
    )
        requires
            old(self).wf(),
            old(self).model().dom().contains(entity),
            loc == old(self).entity_allocator.spec_loc(entity),
            old(self).model()[entity].components.contains_key(component_type.0),
            value@.len() == old(self).model()[entity].components[component_type.0].len(),
        ensures
            final(self).wf(),
            final(self).model() == old(self).model().insert(entity, EntityRecord {
                components: old(self).model()[entity].components
                    .insert(component_type.0, value@),
                tags: old(self).model()[entity].tags,
            }),
            final(self).version_of(entity, component_type.0)
                == crate::chunk::wrap_inc(old(self).version_of(entity, component_type.0)),
            final(self).changed_of(entity, component_type.0),
            final(self).entity_allocator == old(self).entity_allocator,
            final(self).storage.archetypes@.len() == old(self).storage.archetypes@.len(),
            forall|a2: int| 0 <= a2 < old(self).storage.archetypes@.len()
                ==> (#[trigger] final(self).storage.archetypes@[a2]).desc
                        == old(self).storage.archetypes@[a2].desc
                    && final(self).storage.archetypes@[a2].tags
                        == old(self).storage.archetypes@[a2].tags
                    && final(self).storage.archetypes@[a2].chunk_sets@.len()
                        == old(self).storage.archetypes@[a2].chunk_sets@.len(),
            forall|a2: int, s2: int, c2: int|
                0 <= a2 < old(self).storage.archetypes@.len()
                    && 0 <= s2 < old(self).storage.archetypes@[a2].chunk_sets@.len()
                    && 0 <= c2 < old(self).storage.archetypes@[a2].chunk_sets@[s2]
                        .chunks@.len()
                    ==> (#[trigger] final(self).storage.archetypes@[a2].chunk_sets@[s2]
                            .chunks@[c2]).entities@
                            == old(self).storage.archetypes@[a2].chunk_sets@[s2]
                                .chunks@[c2].entities@
                        && final(self).storage.archetypes@[a2].chunk_sets@[s2]
                            .chunks@[c2].allocated
                            == old(self).storage.archetypes@[a2].chunk_sets@[s2]
                                .chunks@[c2].allocated,
    {
        let ghost pre = *self;
        proof {
            assert(pre.loc_ok(loc));
            assert(pre.model()[entity].components
                =~= pre.chunk_at(loc).row(loc.component as int));
            assert(pre.chunk_at(loc).has_type(component_type.0));
        }
        let ghost chunkpre = pre.chunk_at(loc);
        let ghost vg = value@;
        {
            let arch: &mut ArchetypeData = &mut self.storage.archetypes[loc.archetype];
            let set: &mut Chunkset = &mut arch.chunk_sets[loc.set];
            let chunk: &mut ComponentStorage = &mut set.chunks[loc.chunk];
            chunk.set_value(component_type, loc.component, value);
        }
        proof {
            let post = *self;
            let ghost chunkpost = post.chunk_at(loc);
            let archpre = pre.storage.archetypes@[loc.archetype as int];
            let archpost = post.storage.archetypes@[loc.archetype as int];
            let ghost ci = dict_idx(chunkpre.components@, component_type.0);
            crate::dict::lemma_dict_resolve(chunkpre.components@, chunkpost.components@);
            assert(post.storage.wf()) by {
                assert forall|a2: int| 0 <= a2 < post.storage.archetypes@.len() implies
                    (#[trigger] post.storage.archetypes@[a2]).wf() by {
                    if a2 == loc.archetype as int {
                        assert(archpre.wf());
                        assert(archpost.chunk_matches(chunkpost)) by {
                            assert(archpre.chunk_matches(chunkpre));
                            assert forall|i: int|
                                0 <= i < archpost.desc.components@.len() implies
                                chunkpost.has_type(
                                    (#[trigger] archpost.desc.components@[i]).0.0)
                                    && dict_val(chunkpost.components@,
                                        archpost.desc.components@[i].0.0).element_size
                                        == archpost.desc.components@[i].1.size by {
                                let t = archpost.desc.components@[i].0.0;
                                assert(dict_has(chunkpre.components@, t));
                                let k = dict_idx(chunkpre.components@, t);
                                assert(dict_val(chunkpost.components@, t)
                                    == chunkpost.components@[k].1);
                                assert(dict_val(chunkpre.components@, t)
                                    == chunkpre.components@[k].1);
                            }
                        }
                        assert forall|s2: int, c2: int|
                            0 <= s2 < archpost.chunk_sets@.len()
                                && 0 <= c2 < archpost.chunk_sets@[s2].chunks@.len() implies
                            archpost.chunk_matches(
                                #[trigger] archpost.chunk_sets@[s2].chunks@[c2])
                                && archpost.chunk_sets@[s2].chunks@[c2].id
                                    == crate::storage::ChunkId(
                                        archpost.id, s2 as usize, c2 as usize) by {
                            if s2 == loc.set as int && c2 == loc.chunk as int {
                            } else {
                                assert(archpost.chunk_sets@[s2].chunks@[c2]
                                    == archpre.chunk_sets@[s2].chunks@[c2]);
                                assert(archpre.chunk_matches(
                                    archpre.chunk_sets@[s2].chunks@[c2]));
                            }
                        }
                        assert forall|s2: int| 0 <= s2 < archpost.chunk_sets@.len() implies
                            (#[trigger] archpost.chunk_sets@[s2]).wf() by {
                            if s2 == loc.set as int {
                                assert forall|c1: int, c2: int|
                                    0 <= c1 < archpost.chunk_sets@[s2].chunks@.len()
                                        && 0 <= c2 < archpost.chunk_sets@[s2].chunks@.len()
                                    implies crate::archetype::same_chunk_layout(
                                        #[trigger] archpost.chunk_sets@[s2].chunks@[c1],
                                        #[trigger] archpost.chunk_sets@[s2].chunks@[c2],
                                    ) by {
                                    assert(archpost.chunk_matches(
                                        archpost.chunk_sets@[s2].chunks@[c1]));
                                    assert(archpost.chunk_matches(
                                        archpost.chunk_sets@[s2].chunks@[c2]));
                                    crate::archetype::lemma_same_layout_of_matches(
                                        archpost,
                                        archpost.chunk_sets@[s2].chunks@[c1],
                                        archpost.chunk_sets@[s2].chunks@[c2],
                                    );
                                }
                                assert forall|c2: int|
                                    0 <= c2 < archpost.chunk_sets@[s2].chunks@.len() implies
                                    (#[trigger] archpost.chunk_sets@[s2].chunks@[c2]).wf()
                                by {
                                    if c2 != loc.chunk as int {
                                        assert(archpost.chunk_sets@[s2].chunks@[c2]
                                            == archpre.chunk_sets@[s2].chunks@[c2]);
                                    }
                                }
                            } else {
                                assert(archpost.chunk_sets@[s2] == archpre.chunk_sets@[s2]);
                            }
                        }
                        assert(archpost.wf());
                    } else {
                        assert(post.storage.archetypes@[a2] == pre.storage.archetypes@[a2]);
                    }
                }
            }
            assert(post.links_ok()) by {
                assert forall|e2: Entity|
                    #[trigger] post.entity_allocator.spec_is_alive(e2)
                        && post.entity_allocator.spec_located(e2) implies
                    post.loc_ok(post.entity_allocator.spec_loc(e2))
                        && post.chunk_at(post.entity_allocator.spec_loc(e2))
                            .entities@[post.entity_allocator.spec_loc(e2).component as int]
                                == e2 by {
                    let l = pre.entity_allocator.spec_loc(e2);
                    assert(pre.loc_ok(l));
                    if l.archetype == loc.archetype && l.set == loc.set
                        && l.chunk == loc.chunk {
                        assert(post.chunk_at(l).entities@ == chunkpre.entities@);
                    } else {
                        assert(post.chunk_at(l) == pre.chunk_at(l));
                    }
                }
                assert forall|a2: int, s2: int, c2: int, i: int|
                    0 <= a2 < post.storage.archetypes@.len()
                        && 0 <= s2 < post.storage.archetypes@[a2].chunk_sets@.len()
                        && 0 <= c2 < post.storage.archetypes@[a2].chunk_sets@[s2]
                            .chunks@.len()
                        && 0 <= i < post.storage.archetypes@[a2].chunk_sets@[s2]
                            .chunks@[c2].entities@.len() implies {
                    let e2 = #[trigger] post.storage.archetypes@[a2].chunk_sets@[s2]
                        .chunks@[c2].entities@[i];
                    &&& post.entity_allocator.spec_is_alive(e2)
                    &&& post.entity_allocator.spec_located(e2)
                    &&& post.entity_allocator.spec_loc(e2).archetype == a2
                    &&& post.entity_allocator.spec_loc(e2).set == s2
                    &&& post.entity_allocator.spec_loc(e2).chunk == c2
                    &&& post.entity_allocator.spec_loc(e2).component == i
                } by {
                    let e2 = post.storage.archetypes@[a2].chunk_sets@[s2]
                        .chunks@[c2].entities@[i];
                    assert(e2 == pre.storage.archetypes@[a2].chunk_sets@[s2]
                        .chunks@[c2].entities@[i]) by {
                        if a2 == loc.archetype as int && s2 == loc.set as int
                            && c2 == loc.chunk as int {
                            assert(post.chunk_at(loc).entities@ == chunkpre.entities@);
                        }
                    }
                }
            }
            assert(post.model() =~= pre.model().insert(entity, EntityRecord {
                components: pre.model()[entity].components
                    .insert(component_type.0, vg),
                tags: pre.model()[entity].tags,
            })) by {
                assert forall|e2: Entity| #[trigger] post.model().dom().contains(e2)
                    == (pre.model().dom().contains(e2) || e2 == entity) by {}
                assert forall|e2: Entity| post.model().dom().contains(e2) implies
                    #[trigger] post.model()[e2] == pre.model().insert(entity, EntityRecord {
                        components: pre.model()[entity].components
                            .insert(component_type.0, vg),
                        tags: pre.model()[entity].tags,
                    })[e2] by {
                    let l = pre.entity_allocator.spec_loc(e2);
                    assert(pre.loc_ok(l));
                    assert(post.entity_allocator.spec_loc(e2) == l);
                    assert(post.storage.archetypes@[l.archetype as int].tags
                        == pre.storage.archetypes@[l.archetype as int].tags);
                    assert(post.record_at(l).tags =~= pre.record_at(l).tags);
                    if e2 == entity {
                        assert(l == loc) by {
                            assert(pre.chunk_at(l).entities@[l.component as int] == e2);
                        }
                        assert(post.record_at(loc).components
                            =~= pre.model()[entity].components
                                .insert(component_type.0, vg)) by {
                            assert forall|t: u64|
                                #[trigger] dict_has(chunkpost.components@, t)
                                    == dict_has(chunkpre.components@, t) by {}
                            assert forall|t: u64| dict_has(chunkpre.components@, t) implies
                                #[trigger] chunkpost.value_at(t, loc.component as int)
                                    == (if t == component_type.0 {
                                        vg
                                    } else {
                                        chunkpre.value_at(t, loc.component as int)
                                    }) by {
                                let k = dict_idx(chunkpre.components@, t);
                                assert(dict_val(chunkpost.components@, t)
                                    == chunkpost.components@[k].1);
                                assert(dict_val(chunkpre.components@, t)
                                    == chunkpre.components@[k].1);
                                if t == component_type.0 {
                                    assert(k == ci);
                                    assert(chunkpost.components@[k].1.data@
                                        == chunkpre.components@[k].1.data@
                                            .update(loc.component as int, chunkpre.components@[k].1.data@[loc.component as int]).update(loc.component as int, chunkpost.components@[k].1.data@[loc.component as int]));
                                    assert(chunkpost.components@[k].1.data@[loc.component as int]@ == vg);
                                } else {
                                    assert(k != ci);
                                    assert(chunkpost.components@[k]
                                        == chunkpre.components@[k]);
                                }
                            }
                        }
                    } else {
                        assert(e2 != entity);
                        assert(post.record_at(l).components
                            =~= pre.record_at(l).components) by {
                            if l.archetype == loc.archetype && l.set == loc.set
                                && l.chunk == loc.chunk {
                                assert(l.component != loc.component) by {
                                    if l.component == loc.component {
                                        assert(chunkpre.entities@[l.component as int]
                                            == e2);
                                        assert(chunkpre.entities@[loc.component as int]
                                            == entity);
                                    }
                                }
                                assert forall|t: u64|
                                    #[trigger] dict_has(chunkpost.components@, t)
                                        == dict_has(chunkpre.components@, t)
                                        && (dict_has(chunkpre.components@, t)
                                            ==> chunkpost.value_at(t, l.component as int)
                                                == chunkpre.value_at(
                                                    t, l.component as int)) by {
                                    if dict_has(chunkpre.components@, t) {
                                        let k = dict_idx(chunkpre.components@, t);
                                        assert(dict_val(chunkpost.components@, t)
                                            == chunkpost.components@[k].1);
                                        assert(dict_val(chunkpre.components@, t)
                                            == chunkpre.components@[k].1);
                                        if k == ci {
                                            assert(chunkpost.components@[k].1.data@
                                                == chunkpre.components@[k].1.data@
                                                    .update(loc.component as int,
                                                        chunkpost.components@[k]
                                                            .1.data@[loc.component as int]));
                                        } else {
                                            assert(chunkpost.components@[k]
                                                == chunkpre.components@[k]);
                                        }
                                    }
                                }
                            } else {
                                assert(post.chunk_at(l) == pre.chunk_at(l));
                            }
                        }
                    }
                    assert(post.record_at(l) == (EntityRecord {
                        components: post.record_at(l).components,
                        tags: post.record_at(l).tags,
                    }));
                }
            }
            lemma_sigs_distinct_same_descs(pre, post);
            assert(post.wf());
            assert forall|a2: int, s2: int, c2: int|
                0 <= a2 < pre.storage.archetypes@.len()
                    && 0 <= s2 < pre.storage.archetypes@[a2].chunk_sets@.len()
                    && 0 <= c2 < pre.storage.archetypes@[a2].chunk_sets@[s2]
                        .chunks@.len() implies
                (#[trigger] post.storage.archetypes@[a2].chunk_sets@[s2]
                        .chunks@[c2]).entities@
                        == pre.storage.archetypes@[a2].chunk_sets@[s2]
                            .chunks@[c2].entities@
                    && post.storage.archetypes@[a2].chunk_sets@[s2].chunks@[c2].allocated
                        == pre.storage.archetypes@[a2].chunk_sets@[s2]
                            .chunks@[c2].allocated by {
                if a2 == loc.archetype as int && s2 == loc.set as int
                    && c2 == loc.chunk as int {
                    assert(post.chunk_at(loc).entities@ == chunkpre.entities@);
                    assert(post.chunk_at(loc).allocated == chunkpre.allocated);
                } else {
                    assert(post.storage.archetypes@[a2].chunk_sets@[s2].chunks@[c2]
                        == pre.storage.archetypes@[a2].chunk_sets@[s2].chunks@[c2]);
                }
            }
        }
    }

    /// Moves one entity of chunk-set `s` of archetype `a` from the last
    /// occupied chunk into the first non-full one, updating its recorded
    /// location. Returns `false` when the set is already compact (and leaves
    /// the world unchanged). Never changes any record: defragmentation only
    /// relocates.
    #[verifier::rlimit(100)]
    fn defrag_step_world(&mut self, a: usize, s: usize) -> (moved: bool)
        requires
            old(self).wf(),
            a < old(self).storage.archetypes@.len(),
            s < old(self).storage.archetypes@[a as int].chunk_sets@.len(),
        ensures
            final(self).wf(),
            final(self).model() == old(self).model(),
            final(self).id == old(self).id,
            final(self).defrag_progress == old(self).defrag_progress,
            final(self).storage.archetypes@.len() == old(self).storage.archetypes@.len(),
            forall|a2: int| 0 <= a2 < old(self).storage.archetypes@.len()
                ==> (#[trigger] final(self).storage.archetypes@[a2]).chunk_sets@.len()
                    == old(self).storage.archetypes@[a2].chunk_sets@.len(),
            final(self).entity_allocator.buffer@ == old(self).entity_allocator.buffer@,
            forall|a2: int| 0 <= a2 < old(self).storage.archetypes@.len() && a2 != a
                ==> #[trigger] final(self).storage.archetypes@[a2]
                    == old(self).storage.archetypes@[a2],
            forall|s2: int|
                0 <= s2 < old(self).storage.archetypes@[a as int].chunk_sets@.len()
                    && s2 != s
                ==> #[trigger] final(self).storage.archetypes@[a as int].chunk_sets@[s2]
                    == old(self).storage.archetypes@[a as int].chunk_sets@[s2],
            !moved ==> *final(self) == *old(self)
                && final(self).storage.archetypes@[a as int].chunk_sets@[s as int]
                    .spec_defragmented(),
    {
        let ghost pre = *self;
        if self.storage.archetypes[a].chunk_sets[s].is_compact() {
            return false;
        }
        let step = {
            let arch: &mut ArchetypeData = &mut self.storage.archetypes[a];
            let set: &mut Chunkset = &mut arch.chunk_sets[s];
            set.defrag_step()
        };
        let (e, f, pos, l) = match step {
            None => {
                proof {
                    assert(false);
                }
                return false;
            }
            Some(q) => q,
        };
        let ghost mid = *self;
        let ghost setpre = pre.storage.archetypes@[a as int].chunk_sets@[s as int];
        let ghost chunkfpre = setpre.chunks@[f as int];
        let ghost chunklpre = setpre.chunks@[l as int];
        let ghost n = chunklpre.entities@.len();
        proof {
            assert(e == chunklpre.entities@[n - 1]);
            assert(pre.entity_allocator.spec_is_alive(e));
            assert(pre.entity_allocator.spec_loc(e).archetype == a
                && pre.entity_allocator.spec_loc(e).set == s
                && pre.entity_allocator.spec_loc(e).chunk == l
                && pre.entity_allocator.spec_loc(e).component == n - 1);
            assert(mid.entity_allocator.has_index(e.index));
        }
        self.entity_allocator.set_location(e.index, EntityLocation::new(a, s, f, pos));
        proof {
            let post = *self;
            let ghost chunkfpost = post.storage.archetypes@[a as int]
                .chunk_sets@[s as int].chunks@[f as int];
            let ghost chunklpost = post.storage.archetypes@[a as int]
                .chunk_sets@[s as int].chunks@[l as int];
            crate::dict::lemma_dict_resolve(chunkfpre.components@, chunkfpost.components@);
            crate::dict::lemma_dict_resolve(chunklpre.components@, chunklpost.components@);
            let archpre = pre.storage.archetypes@[a as int];
            let archpost = post.storage.archetypes@[a as int];
            assert(post.storage.wf()) by {
                assert forall|a2: int| 0 <= a2 < post.storage.archetypes@.len() implies
                    (#[trigger] post.storage.archetypes@[a2]).wf() by {
                    if a2 == a {
                        assert(archpre.wf());
                        assert(archpost.chunk_matches(chunkfpost)) by {
                            assert(archpre.chunk_matches(chunkfpre));
                            assert forall|i: int|
                                0 <= i < archpost.desc.components@.len() implies
                                chunkfpost.has_type(
                                    (#[trigger] archpost.desc.components@[i]).0.0)
                                    && dict_val(chunkfpost.components@,
                                        archpost.desc.components@[i].0.0).element_size
                                        == archpost.desc.components@[i].1.size by {
                                let t = archpost.desc.components@[i].0.0;
                                assert(dict_has(chunkfpre.components@, t));
                                let k = dict_idx(chunkfpre.components@, t);
                                assert(dict_val(chunkfpost.components@, t)
                                    == chunkfpost.components@[k].1);
                                assert(dict_val(chunkfpre.components@, t)
                                    == chunkfpre.components@[k].1);
                            }
                            assert(chunkfpost.entities@.len() <= chunkfpost.capacity);
                        }
                        assert(archpost.chunk_matches(chunklpost)) by {
                            assert(archpre.chunk_matches(chunklpre));
                            assert forall|i: int|
                                0 <= i < archpost.desc.components@.len() implies
                                chunklpost.has_type(
                                    (#[trigger] archpost.desc.components@[i]).0.0)
                                    && dict_val(chunklpost.components@,
                                        archpost.desc.components@[i].0.0).element_size
                                        == archpost.desc.components@[i].1.size by {
                                let t = archpost.desc.components@[i].0.0;
                                assert(dict_has(chunklpre.components@, t));
                                let k = dict_idx(chunklpre.components@, t);
                                assert(dict_val(chunklpost.components@, t)
                                    == chunklpost.components@[k].1);
                                assert(dict_val(chunklpre.components@, t)
                                    == chunklpre.components@[k].1);
                            }
                        }
                        assert forall|s2: int, c2: int|
                            0 <= s2 < archpost.chunk_sets@.len()
                                && 0 <= c2 < archpost.chunk_sets@[s2].chunks@.len() implies
                            archpost.chunk_matches(
                                #[trigger] archpost.chunk_sets@[s2].chunks@[c2])
                                && archpost.chunk_sets@[s2].chunks@[c2].id
                                    == crate::storage::ChunkId(
                                        archpost.id, s2 as usize, c2 as usize) by {
                            if s2 == s as int && (c2 == f as int || c2 == l as int) {
                            } else {
                                assert(archpost.chunk_sets@[s2].chunks@[c2]
                                    == archpre.chunk_sets@[s2].chunks@[c2]);
                                assert(archpre.chunk_matches(
                                    archpre.chunk_sets@[s2].chunks@[c2]));
                            }
                        }
                        assert forall|s2: int| 0 <= s2 < archpost.chunk_sets@.len() implies
                            (#[trigger] archpost.chunk_sets@[s2]).wf() by {
                            if s2 == s as int {
                            } else {
                                assert(archpost.chunk_sets@[s2] == archpre.chunk_sets@[s2]);
                            }
                        }
                        assert(archpost.wf());
                    } else {
                        assert(post.storage.archetypes@[a2] == pre.storage.archetypes@[a2]);
                    }
                }
            }
            assert(post.links_ok() && post.all_located()) by {
                assert forall|e2: Entity|
                    #[trigger] post.entity_allocator.spec_is_alive(e2)
                        && post.entity_allocator.spec_located(e2) implies
                    post.loc_ok(post.entity_allocator.spec_loc(e2))
                        && post.chunk_at(post.entity_allocator.spec_loc(e2))
                            .entities@[post.entity_allocator.spec_loc(e2).component as int]
                                == e2 by {
                    if e2 == e {
                        assert(post.entity_allocator.spec_loc(e)
                            == (EntityLocation { archetype: a, set: s, chunk: f, component: pos }));
                        assert(post.chunk_at(post.entity_allocator.spec_loc(e)).entities@
                            == chunkfpre.entities@.push(e));
                    } else {
                        assert(pre.entity_allocator.spec_is_alive(e2));
                        assert(post.entity_allocator.spec_loc(e2)
                            == pre.entity_allocator.spec_loc(e2)) by {
                            if e2.index == e.index {
                                assert(pre.entity_allocator.entry_of(e.index).generation
                                    == e.generation);
                                assert(e2 == e);
                            }
                        }
                        let lloc = pre.entity_allocator.spec_loc(e2);
                        assert(pre.loc_ok(lloc));
                        if lloc.archetype == a && lloc.set == s && lloc.chunk == f {
                            assert(post.chunk_at(lloc).entities@[lloc.component as int]
                                == chunkfpre.entities@[lloc.component as int]);
                        } else if lloc.archetype == a && lloc.set == s && lloc.chunk == l {
                            assert((lloc.component as int) != n - 1) by {
                                if lloc.component as int == n - 1 {
                                    assert(chunklpre.entities@[n - 1] == e2);
                                }
                            }
                            assert(post.chunk_at(lloc).entities@[lloc.component as int]
                                == chunklpre.entities@[lloc.component as int]);
                        } else {
                            assert(post.chunk_at(lloc) == pre.chunk_at(lloc));
                        }
                    }
                }
                assert forall|a2: int, s2: int, c2: int, i: int|
                    0 <= a2 < post.storage.archetypes@.len()
                        && 0 <= s2 < post.storage.archetypes@[a2].chunk_sets@.len()
                        && 0 <= c2 < post.storage.archetypes@[a2].chunk_sets@[s2]
                            .chunks@.len()
                        && 0 <= i < post.storage.archetypes@[a2].chunk_sets@[s2]
                            .chunks@[c2].entities@.len() implies {
                    let e2 = #[trigger] post.storage.archetypes@[a2].chunk_sets@[s2]
                        .chunks@[c2].entities@[i];
                    &&& post.entity_allocator.spec_is_alive(e2)
                    &&& post.entity_allocator.spec_located(e2)
                    &&& post.entity_allocator.spec_loc(e2).archetype == a2
                    &&& post.entity_allocator.spec_loc(e2).set == s2
                    &&& post.entity_allocator.spec_loc(e2).chunk == c2
                    &&& post.entity_allocator.spec_loc(e2).component == i
                } by {
                    let e2 = post.storage.archetypes@[a2].chunk_sets@[s2]
                        .chunks@[c2].entities@[i];
                    if a2 == a && s2 == s && c2 == f && i == pos {
                        assert(e2 == e);
                    } else {
                        assert(e2 == pre.storage.archetypes@[a2].chunk_sets@[s2]
                            .chunks@[c2].entities@[i]) by {
                            if a2 == a && s2 == s as int {
                                if c2 == f as int {
                                    assert(post.storage.archetypes@[a2].chunk_sets@[s2]
                                        .chunks@[c2].entities@
                                        == chunkfpre.entities@.push(e));
                                } else if c2 == l as int {
                                    assert(post.storage.archetypes@[a2].chunk_sets@[s2]
                                        .chunks@[c2].entities@
                                        == chunklpre.entities@.drop_last());
                                }
                            }
                        }
                        assert(pre.entity_allocator.spec_is_alive(e2));
                        assert(e2 != e) by {
                            assert(pre.entity_allocator.spec_loc(e2).archetype == a2
                                && pre.entity_allocator.spec_loc(e2).set == s2
                                && pre.entity_allocator.spec_loc(e2).chunk == c2
                                && pre.entity_allocator.spec_loc(e2).component == i);
                            if e2 == e {
                                assert(a2 == a && s2 == s && c2 == l && i == n - 1);
                                assert(i < chunklpost.entities@.len());
                            }
                        }
                        assert(post.entity_allocator.spec_loc(e2)
                            == pre.entity_allocator.spec_loc(e2)
                            && post.entity_allocator.spec_is_alive(e2)
                            && post.entity_allocator.spec_located(e2)) by {
                            if e2.index == e.index {
                                assert(pre.entity_allocator.entry_of(e.index).generation
                                    == e.generation);
                                assert(e2 == e);
                            }
                        }
                    }
                }
                assert forall|e2: Entity|
                    #[trigger] post.entity_allocator.spec_is_alive(e2) implies
                    post.entity_allocator.spec_located(e2) by {
                    if e2 != e {
                        assert(pre.entity_allocator.spec_is_alive(e2));
                        if e2.index == e.index {
                            assert(pre.entity_allocator.entry_of(e.index).generation
                                == e.generation);
                            assert(e2 == e);
                        }
                    }
                }
            }
            assert(post.model() =~= pre.model()) by {
                assert forall|e2: Entity| #[trigger] post.model().dom().contains(e2)
                    == pre.model().dom().contains(e2) by {
                    if e2.index == e.index && pre.entity_allocator.spec_is_alive(e2) {
                        assert(pre.entity_allocator.entry_of(e.index).generation
                            == e.generation);
                        assert(e2 == e);
                    }
                }
                assert forall|e2: Entity| post.model().dom().contains(e2) implies
                    #[trigger] post.model()[e2] == pre.model()[e2] by {
                    let lpre = pre.entity_allocator.spec_loc(e2);
                    let lpost = post.entity_allocator.spec_loc(e2);
                    assert(pre.loc_ok(lpre));
                    assert(post.storage.archetypes@[lpre.archetype as int].tags
                        == pre.storage.archetypes@[lpre.archetype as int].tags);
                    if e2 == e {
                        assert(lpost == (EntityLocation {
                            archetype: a, set: s, chunk: f, component: pos }));
                        assert(post.record_at(lpost).components
                            =~= pre.record_at(lpre).components) by {
                            assert forall|t: u64|
                                #[trigger] dict_has(chunkfpost.components@, t)
                                    == dict_has(chunklpre.components@, t)
                                    && (dict_has(chunklpre.components@, t)
                                        ==> chunkfpost.value_at(t, pos as int)
                                            == chunklpre.value_at(t, n - 1)) by {
                                assert(crate::archetype::same_chunk_layout(
                                    chunklpre, chunkfpre));
                                crate::dict::lemma_dict_resolve(
                                    chunklpre.components@, chunkfpre.components@);
                                if dict_has(chunklpre.components@, t) {
                                    let k = dict_idx(chunklpre.components@, t);
                                    assert(dict_val(chunkfpost.components@, t)
                                        == chunkfpost.components@[k].1);
                                    assert(chunkfpost.components@[k].1.values()
                                        == chunkfpre.components@[k].1.values()
                                            .push(chunklpre.components@[k].1.data@.last()@));
                                    assert(chunkfpost.value_at(t, pos as int)
                                        == chunkfpost.components@[k].1.values()[pos as int]);
                                    assert(dict_val(chunklpre.components@, t)
                                        == chunklpre.components@[k].1);
                                }
                            }
                        }
                        assert(post.record_at(lpost).tags =~= pre.record_at(lpre).tags);
                        assert(post.record_at(lpost) == pre.record_at(lpre));
                    } else {
                        assert(lpost == lpre) by {
                            if e2.index == e.index {
                                assert(pre.entity_allocator.entry_of(e.index).generation
                                    == e.generation);
                                assert(e2 == e);
                            }
                        }
                        if lpre.archetype == a && lpre.set == s
                            && (lpre.chunk == f || lpre.chunk == l) {
                            let cpre = if lpre.chunk == f {
                                chunkfpre
                            } else {
                                chunklpre
                            };
                            let cpost = if lpre.chunk == f {
                                chunkfpost
                            } else {
                                chunklpost
                            };
                            assert((lpre.chunk == l)
                                ==> (lpre.component as int) != n - 1) by {
                                if lpre.chunk == l && lpre.component as int == n - 1 {
                                    assert(chunklpre.entities@[n - 1] == e2);
                                }
                            }
                            assert(post.record_at(lpre).components
                                =~= pre.record_at(lpre).components) by {
                                assert forall|t: u64|
                                    #[trigger] dict_has(cpost.components@, t)
                                        == dict_has(cpre.components@, t)
                                        && (dict_has(cpre.components@, t)
                                            ==> cpost.value_at(t, lpre.component as int)
                                                == cpre.value_at(
                                                    t, lpre.component as int)) by {
                                    if dict_has(cpre.components@, t) {
                                        let k = dict_idx(cpre.components@, t);
                                        assert(dict_val(cpost.components@, t)
                                            == cpost.components@[k].1);
                                        assert(dict_val(cpre.components@, t)
                                            == cpre.components@[k].1);
                                        if lpre.chunk == f {
                                            assert(cpost.components@[k].1.values()
                                                == cpre.components@[k].1.values().push(
                                                    chunklpre.components@[k].1.data@.last()@));
                                            assert(cpost.value_at(t, lpre.component as int)
                                                == cpost.components@[k].1.values()[
                                                    lpre.component as int]);
                                            assert(cpre.value_at(t, lpre.component as int)
                                                == cpre.components@[k].1.values()[
                                                    lpre.component as int]);
                                        } else {
                                            assert(cpost.components@[k].1.data@
                                                == cpre.components@[k].1.data@.drop_last());
                                        }
                                    }
                                }
                            }
                            assert(post.record_at(lpre).tags =~= pre.record_at(lpre).tags);
                            assert(post.record_at(lpre) == pre.record_at(lpre));
                        } else {
                            assert(post.chunk_at(lpre) == pre.chunk_at(lpre));
                            assert(post.record_at(lpre).components
                                =~= pre.record_at(lpre).components);
                            assert(post.record_at(lpre).tags =~= pre.record_at(lpre).tags);
                            assert(post.record_at(lpre) == pre.record_at(lpre));
                        }
                    }
                }
            }
            lemma_sigs_distinct_same_descs(pre, post);
            assert(post.wf());
        }
        true
    }

    /// Every chunk-set of every archetype is compact: the occupied chunks
    /// of each set form a packed prefix.
    pub open spec fn all_compact(self) -> bool {
        forall|a: int, s: int|
            0 <= a < self.storage.archetypes@.len()
                && 0 <= s < self.storage.archetypes@[a].chunk_sets@.len()
                ==> (#[trigger] self.storage.archetypes@[a].chunk_sets@[s])
                    .spec_defragmented()
    }

    /// The number of entity moves a budget allows.
    pub open spec fn spec_budget(budget: Option<usize>) -> int {
        match budget {
            Some(b) => b as int,
            None => usize::MAX as int,
        }
    }

    /// Iteratively defragments the world's chunk storage, compacting the
    /// entities of each chunk-set into its low-index chunks. Returns the
    /// number of entities moved.
    ///
    /// `budget` caps the number of entities moved in this call (`None`
    /// caps it only by the address space). Progress round-robins across
    /// archetypes and resumes where the previous call stopped, so repeated
    /// bounded calls converge: whenever a call moves fewer entities than its
    /// budget allows, every chunk-set is compact afterwards.
    /// Defragmentation never changes the model: every record is preserved,
    /// only relocated.
    pub fn defrag(&mut self, budget: Option<usize>) -> (moved: usize)
        requires
            old(self).wf(),
        ensures
            final(self).wf(),
            final(self).model() == old(self).model(),
            moved <= Self::spec_budget(budget),
            moved < Self::spec_budget(budget) ==> final(self).all_compact(),
    {
        let n = self.storage.archetypes.len();
        if n == 0 {
            return 0;
        }
        let b0: usize = match budget {
            Some(b) => b,
            None => usize::MAX,
        };
        let mut left: usize = b0;
        if self.defrag_progress >= n {
            self.defrag_progress = 0;
        }
        proof {
            assert(self.model() =~= old(self).model());
            lemma_sigs_distinct_same_descs(*old(self), *self);
        }
        let start = self.defrag_progress;
        proof {
            vstd::arithmetic::div_mod::lemma_small_mod(start as nat, n as nat);
        }
        let mut round: usize = 0;
        while round < n
            invariant
                self.wf(),
                self.model() == old(self).model(),
                n == self.storage.archetypes@.len(),
                round <= n,
                start < n,
                self.defrag_progress < n,
                self.defrag_progress == (start + round) % (n as int),
                left <= b0,
                b0 == Self::spec_budget(budget),
                forall|j: int, s2: int|
                    0 <= j < round
                        && 0 <= s2 < self.storage.archetypes@[
                            (start + j) % (n as int)].chunk_sets@.len()
                        ==> (#[trigger] self.storage.archetypes@[
                                (start + j) % (n as int)].chunk_sets@[s2])
                            .spec_defragmented(),
            decreases n - round,
        {
            if left == 0 {
                proof {
                    assert(b0 - left >= b0);
                }
                return b0 - left;
            }
            let a = self.defrag_progress;
            let ghost iterpre = *self;
            let complete = self.defrag_archetype(a, &mut left);
            proof {
                // Archetypes compacted in earlier rounds are untouched.
                assert forall|j: int, s2: int|
                    0 <= j < round
                        && 0 <= s2 < self.storage.archetypes@[
                            (start + j) % (n as int)].chunk_sets@.len() implies
                    (#[trigger] self.storage.archetypes@[
                            (start + j) % (n as int)].chunk_sets@[s2])
                        .spec_defragmented() by {
                    let a2 = (start + j) % (n as int);
                    vstd::arithmetic::div_mod::lemma_mod_bound(start + j, n as int);
                    // A slot visited in an earlier round differs from the
                    // one just processed: residues of distinct offsets
                    // within one cycle differ.
                    assert(a2 != a) by {
                        if a2 == a {
                            vstd::arithmetic::div_mod::lemma_mod_equivalence(
                                start + j, start + round, n as int);
                            vstd::arithmetic::div_mod::lemma_mod_equivalence(
                                0, round - j, n as int);
                            vstd::arithmetic::div_mod::lemma_small_mod(
                                (round - j) as nat, n as nat);
                            vstd::arithmetic::div_mod::lemma_small_mod(0nat, n as nat);
                        }
                    }
                    assert(self.storage.archetypes@[a2]
                        == iterpre.storage.archetypes@[a2]);
                }
            }
            if !complete {
                return b0 - left;
            }
            let ghost p_old = (start + round) % (n as int);
            let ghost preinc = *self;
            self.defrag_progress = (self.defrag_progress + 1) % n;
            round += 1;
            proof {
                lemma_sigs_distinct_same_descs(preinc, *self);
                let x = start + round - 1;
                vstd::arithmetic::div_mod::lemma_fundamental_div_mod(x, n as int);
                vstd::arithmetic::div_mod::lemma_mod_equivalence(
                    p_old + 1, x + 1, n as int);
                vstd::arithmetic::div_mod::lemma_mod_multiples_basic(
                    -(x / (n as int)), n as int);
                assert(p_old + 1 - (x + 1) == (-(x / (n as int))) * (n as int)) by {
                    assert(x == (n as int) * (x / (n as int)) + p_old);
                    assert((-(x / (n as int))) * (n as int)
                        == -((n as int) * (x / (n as int)))) by (nonlinear_arith);
                }
                assert((p_old + 1 - (x + 1)) % (n as int) == 0);
                assert(self.defrag_progress == (start + round) % (n as int));
            }
        }
        proof {
            // A full cycle visited every archetype, so all are compact.
            assert forall|a2: int, s2: int|
                0 <= a2 < self.storage.archetypes@.len()
                    && 0 <= s2 < self.storage.archetypes@[a2].chunk_sets@.len() implies
                (#[trigger] self.storage.archetypes@[a2].chunk_sets@[s2])
                    .spec_defragmented() by {
                let j = if a2 >= start {
                    a2 - start
                } else {
                    a2 + n - start
                };
                assert(0 <= j < n);
                assert((start + j) % (n as int) == a2) by {
                    if a2 >= start {
                        vstd::arithmetic::div_mod::lemma_small_mod(
                            a2 as nat, n as nat);
                    } else {
                        assert(start + j == a2 + n);
                        vstd::arithmetic::div_mod::lemma_mod_multiples_vanish(
                            1, a2, n as int);
                        vstd::arithmetic::div_mod::lemma_small_mod(
                            a2 as nat, n as nat);
                    }
                }
            }
        }
        b0 - left
    }

    /// Defragments every chunk-set of archetype `a` until done or until the
    /// budget runs out; returns whether the archetype is fully compacted.
    fn defrag_archetype(&mut self, a: usize, budget: &mut usize) -> (complete: bool)
        requires
            old(self).wf(),
            a < old(self).storage.archetypes@.len(),
        ensures
            final(self).wf(),
            final(self).model() == old(self).model(),
            final(self).id == old(self).id,
            final(self).defrag_progress == old(self).defrag_progress,
            final(self).storage.archetypes@.len() == old(self).storage.archetypes@.len(),
            *final(budget) <= *old(budget),
            forall|a2: int| 0 <= a2 < old(self).storage.archetypes@.len() && a2 != a
                ==> #[trigger] final(self).storage.archetypes@[a2]
                    == old(self).storage.archetypes@[a2],
            complete ==> forall|s2: int|
                0 <= s2 < final(self).storage.archetypes@[a as int].chunk_sets@.len()
                    ==> (#[trigger] final(self).storage.archetypes@[a as int]
                        .chunk_sets@[s2]).spec_defragmented(),
            !complete ==> *final(budget) == 0,
    {
        let ns = self.storage.archetypes[a].chunk_sets.len();
        let mut s: usize = 0;
        while s < ns
            invariant
                self.wf(),
                self.model() == old(self).model(),
                self.id == old(self).id,
                self.defrag_progress == old(self).defrag_progress,
                self.storage.archetypes@.len() == old(self).storage.archetypes@.len(),
                a < self.storage.archetypes@.len(),
                ns == self.storage.archetypes@[a as int].chunk_sets@.len(),
                s <= ns,
                *budget <= *old(budget),
                forall|a2: int| 0 <= a2 < old(self).storage.archetypes@.len() && a2 != a
                    ==> #[trigger] self.storage.archetypes@[a2]
                        == old(self).storage.archetypes@[a2],
                forall|s2: int| 0 <= s2 < s
                    ==> (#[trigger] self.storage.archetypes@[a as int].chunk_sets@[s2])
                        .spec_defragmented(),
            decreases ns - s,
        {
            let mut done = false;
            while !done
                invariant
                    self.wf(),
                    self.model() == old(self).model(),
                    self.id == old(self).id,
                    self.defrag_progress == old(self).defrag_progress,
                    self.storage.archetypes@.len() == old(self).storage.archetypes@.len(),
                    a < self.storage.archetypes@.len(),
                    ns == self.storage.archetypes@[a as int].chunk_sets@.len(),
                    s < ns,
                    *budget <= *old(budget),
                    forall|a2: int|
                        0 <= a2 < old(self).storage.archetypes@.len() && a2 != a
                        ==> #[trigger] self.storage.archetypes@[a2]
                            == old(self).storage.archetypes@[a2],
                    forall|s2: int| 0 <= s2 < s
                        ==> (#[trigger] self.storage.archetypes@[a as int].chunk_sets@[s2])
                            .spec_defragmented(),
                    done ==> (#[trigger] self.storage.archetypes@[a as int]
                        .chunk_sets@[s as int]).spec_defragmented(),
                decreases *budget + (if done { 0int } else { 1int }),
            {
                if *budget == 0 {
                    return false;
                }
                let moved = self.defrag_step_world(a, s);
                if moved {
                    *budget = *budget - 1;
                } else {
                    done = true;
                }
            }
            s += 1;
        }
        true
    }

    /// Removes the given `Entity` from the `World`, swap-removing its data
    /// and relocating the entity that was swapped into its slot.
    ///
    /// Returns `true` exactly when the entity was live; afterwards the model
    /// is the old model without that entity, every other record unchanged.
    #[verifier::rlimit(100)]
    pub fn delete(&mut self, entity: Entity) -> (r: bool)
        requires
            old(self).wf(),
        ensures
            final(self).wf(),
            r == old(self).model().dom().contains(entity),
            final(self).model() == old(self).model().remove(entity),
            !r ==> *final(self) == *old(self),
    {
        let ghost pre = *self;
        let loc = match self.entity_allocator.delete_entity(entity) {
            None => {
                proof {
                    assert(*self == pre);
                    assert(pre.model().remove(entity) =~= pre.model());
                }
                return false;
            }
            Some(loc) => loc,
        };
        let ghost mid1 = *self;
        let ghost chunkpre = pre.chunk_at(loc);
        proof {
            assert(pre.entity_allocator.spec_is_alive(entity));
            assert(pre.loc_ok(loc));
            assert(chunkpre.entities@[loc.component as int] == entity);
        }
        let victim = {
            let arch: &mut ArchetypeData = &mut self.storage.archetypes[loc.archetype];
            let set: &mut Chunkset = &mut arch.chunk_sets[loc.set];
            let chunk: &mut ComponentStorage = &mut set.chunks[loc.chunk];
            chunk.swap_remove(loc.component, true)
        };
        let ghost mid2 = *self;
        let ghost chunkpost = mid2.chunk_at(loc);
        let ghost n = chunkpre.entities@.len();
        if let Some(swapped) = victim {
            proof {
                // The swapped-in entity sat in the last slot; it is live,
                // distinct from the deleted one, and needs its location
                // updated to the freed slot.
                assert(swapped == chunkpre.entities@[n - 1]);
                assert(pre.entity_allocator.spec_is_alive(swapped));
                assert(pre.entity_allocator.spec_loc(swapped).archetype == loc.archetype
                    && pre.entity_allocator.spec_loc(swapped).set == loc.set
                    && pre.entity_allocator.spec_loc(swapped).chunk == loc.chunk
                    && pre.entity_allocator.spec_loc(swapped).component == n - 1);
                assert(swapped != entity) by {
                    assert(pre.entity_allocator.spec_loc(entity) == loc);
                    assert(loc.component < n);
                }
                assert(mid2.entity_allocator.has_index(swapped.index));
            }
            self.entity_allocator.set_location(swapped.index, loc);
        }
        proof {
            let post = *self;
            crate::dict::lemma_dict_resolve(chunkpre.components@, chunkpost.components@);
            let archpre = pre.storage.archetypes@[loc.archetype as int];
            let archpost = post.storage.archetypes@[loc.archetype as int];
            // Storage stays well-formed: only one chunk changed, keeping its
            // column layout.
            assert(post.storage.wf()) by {
                assert forall|a2: int| 0 <= a2 < post.storage.archetypes@.len() implies
                    (#[trigger] post.storage.archetypes@[a2]).wf() by {
                    if a2 == loc.archetype as int {
                        assert(archpre.wf());
                        assert(archpost.chunk_matches(chunkpost)) by {
                            assert(archpre.chunk_matches(chunkpre));
                            assert forall|i: int|
                                0 <= i < archpost.desc.components@.len() implies
                                chunkpost.has_type(
                                    (#[trigger] archpost.desc.components@[i]).0.0)
                                    && dict_val(chunkpost.components@,
                                        archpost.desc.components@[i].0.0).element_size
                                        == archpost.desc.components@[i].1.size by {
                                let t = archpost.desc.components@[i].0.0;
                                assert(dict_has(chunkpre.components@, t));
                                let k = dict_idx(chunkpre.components@, t);
                                assert(dict_val(chunkpost.components@, t)
                                    == chunkpost.components@[k].1);
                                assert(dict_val(chunkpre.components@, t)
                                    == chunkpre.components@[k].1);
                            }
                        }
                        assert forall|s2: int, c2: int|
                            0 <= s2 < archpost.chunk_sets@.len()
                                && 0 <= c2 < archpost.chunk_sets@[s2].chunks@.len() implies
                            archpost.chunk_matches(
                                #[trigger] archpost.chunk_sets@[s2].chunks@[c2])
                                && archpost.chunk_sets@[s2].chunks@[c2].id
                                    == crate::storage::ChunkId(
                                        archpost.id, s2 as usize, c2 as usize) by {
                            if s2 == loc.set as int && c2 == loc.chunk as int {
                            } else {
                                assert(archpost.chunk_sets@[s2].chunks@[c2]
                                    == archpre.chunk_sets@[s2].chunks@[c2]);
                                assert(archpre.chunk_matches(
                                    archpre.chunk_sets@[s2].chunks@[c2]));
                            }
                        }
                        assert forall|s2: int| 0 <= s2 < archpost.chunk_sets@.len() implies
                            (#[trigger] archpost.chunk_sets@[s2]).wf() by {
                            if s2 == loc.set as int {
                                assert forall|c1: int, c2: int|
                                    0 <= c1 < archpost.chunk_sets@[s2].chunks@.len()
                                        && 0 <= c2 < archpost.chunk_sets@[s2].chunks@.len()
                                    implies crate::archetype::same_chunk_layout(
                                        #[trigger] archpost.chunk_sets@[s2].chunks@[c1],
                                        #[trigger] archpost.chunk_sets@[s2].chunks@[c2],
                                    ) by {
                                    assert(archpost.chunk_matches(
                                        archpost.chunk_sets@[s2].chunks@[c1]));
                                    assert(archpost.chunk_matches(
                                        archpost.chunk_sets@[s2].chunks@[c2]));
                                    crate::archetype::lemma_same_layout_of_matches(
                                        archpost,
                                        archpost.chunk_sets@[s2].chunks@[c1],
                                        archpost.chunk_sets@[s2].chunks@[c2],
                                    );
                                }
                                assert forall|c2: int|
                                    0 <= c2 < archpost.chunk_sets@[s2].chunks@.len() implies
                                    (#[trigger] archpost.chunk_sets@[s2].chunks@[c2]).wf()
                                by {
                                    if c2 != loc.chunk as int {
                                        assert(archpost.chunk_sets@[s2].chunks@[c2]
                                            == archpre.chunk_sets@[s2].chunks@[c2]);
                                    }
                                }
                            } else {
                                assert(archpost.chunk_sets@[s2] == archpre.chunk_sets@[s2]);
                            }
                        }
                        assert(archpost.wf());
                    } else {
                        assert(post.storage.archetypes@[a2] == pre.storage.archetypes@[a2]);
                    }
                }
            }
            // Within a well-formed world, two distinct slots hold distinct
            // entities, so the victim analysis below is sound.
            assert(post.links_ok() && post.all_located()) by {
                assert forall|e2: Entity|
                    #[trigger] post.entity_allocator.spec_is_alive(e2)
                        && post.entity_allocator.spec_located(e2) implies
                    post.loc_ok(post.entity_allocator.spec_loc(e2))
                        && post.chunk_at(post.entity_allocator.spec_loc(e2))
                            .entities@[post.entity_allocator.spec_loc(e2).component as int]
                                == e2 by {
                    assert(e2 != entity);
                    assert(pre.entity_allocator.spec_is_alive(e2));
                    let l = pre.entity_allocator.spec_loc(e2);
                    if victim is Some && e2 == victim->0 {
                        assert(post.entity_allocator.spec_loc(e2) == loc);
                        assert(post.chunk_at(loc).entities@[loc.component as int]
                            == chunkpre.entities@[n - 1]);
                    } else {
                        assert(post.entity_allocator.spec_loc(e2) == l) by {
                            if victim is Some {
                                if e2.index == victim->0.index {
                                    assert(pre.entity_allocator.spec_is_alive(victim->0));
                                    assert(e2 == victim->0);
                                }
                            }
                        }
                        assert(pre.loc_ok(l));
                        if l.archetype == loc.archetype && l.set == loc.set
                            && l.chunk == loc.chunk {
                            // Not the deleted slot and not the last slot.
                            assert(l.component != loc.component) by {
                                if l.component == loc.component {
                                    assert(chunkpre.entities@[l.component as int] == e2);
                                    assert(e2 == entity);
                                }
                            }
                            assert((l.component as int) != n - 1) by {
                                if l.component as int == n - 1 {
                                    assert(chunkpre.entities@[n - 1] == e2);
                                    if victim is Some {
                                        assert(e2 == victim->0);
                                    } else {
                                        assert(loc.component as int == n - 1);
                                        assert(e2 == entity);
                                    }
                                }
                            }
                            assert(post.chunk_at(l).entities@[l.component as int]
                                == chunkpre.entities@[l.component as int]);
                        } else {
                            assert(post.chunk_at(l) == pre.chunk_at(l));
                        }
                    }
                }
                assert forall|a2: int, s2: int, c2: int, i: int|
                    0 <= a2 < post.storage.archetypes@.len()
                        && 0 <= s2 < post.storage.archetypes@[a2].chunk_sets@.len()
                        && 0 <= c2 < post.storage.archetypes@[a2].chunk_sets@[s2]
                            .chunks@.len()
                        && 0 <= i < post.storage.archetypes@[a2].chunk_sets@[s2]
                            .chunks@[c2].entities@.len() implies {
                    let e2 = #[trigger] post.storage.archetypes@[a2].chunk_sets@[s2]
                        .chunks@[c2].entities@[i];
                    &&& post.entity_allocator.spec_is_alive(e2)
                    &&& post.entity_allocator.spec_located(e2)
                    &&& post.entity_allocator.spec_loc(e2).archetype == a2
                    &&& post.entity_allocator.spec_loc(e2).set == s2
                    &&& post.entity_allocator.spec_loc(e2).chunk == c2
                    &&& post.entity_allocator.spec_loc(e2).component == i
                } by {
                    let e2 = post.storage.archetypes@[a2].chunk_sets@[s2]
                        .chunks@[c2].entities@[i];
                    if a2 == loc.archetype as int && s2 == loc.set as int
                        && c2 == loc.chunk as int && i == loc.component as int {
                        // The freed slot now holds the victim.
                        assert(victim is Some);
                        assert(e2 == chunkpre.entities@[n - 1]);
                        assert(e2 == victim->0);
                        assert(post.entity_allocator.spec_loc(e2) == loc);
                        assert(post.entity_allocator.spec_loc(e2).archetype == a2
                            && post.entity_allocator.spec_loc(e2).set == s2
                            && post.entity_allocator.spec_loc(e2).chunk == c2
                            && post.entity_allocator.spec_loc(e2).component == i);
                    } else {
                        let olde = pre.storage.archetypes@[a2].chunk_sets@[s2]
                            .chunks@[c2].entities@[i];
                        assert(e2 == olde) by {
                            if a2 == loc.archetype as int && s2 == loc.set as int
                                && c2 == loc.chunk as int {
                                assert(post.storage.archetypes@[a2].chunk_sets@[s2]
                                    .chunks@[c2].entities@
                                    == chunkpre.entities@
                                        .update(loc.component as int,
                                            chunkpre.entities@.last()).drop_last());
                            }
                        }
                        assert(pre.entity_allocator.spec_is_alive(e2));
                        assert(e2 != entity) by {
                            assert(pre.entity_allocator.spec_loc(e2).archetype == a2
                                && pre.entity_allocator.spec_loc(e2).set == s2
                                && pre.entity_allocator.spec_loc(e2).chunk == c2
                                && pre.entity_allocator.spec_loc(e2).component == i);
                            assert(pre.entity_allocator.spec_loc(entity) == loc);
                        }
                        assert(!(victim is Some && e2 == victim->0)) by {
                            if victim is Some && e2 == victim->0 {
                                // The victim sat in the last slot, which is
                                // gone now.
                                assert(pre.entity_allocator.spec_loc(e2).archetype == a2
                                    && pre.entity_allocator.spec_loc(e2).set == s2
                                    && pre.entity_allocator.spec_loc(e2).chunk == c2
                                    && pre.entity_allocator.spec_loc(e2).component == i);
                                assert(pre.entity_allocator.spec_loc(e2).component
                                    == n - 1);
                                assert(i == n - 1);
                                assert(i < chunkpost.entities@.len());
                            }
                        }
                        assert(post.entity_allocator.spec_is_alive(e2)) by {
                            if e2.index == entity.index {
                                assert(e2 == entity);
                            }
                        }
                        assert(post.entity_allocator.spec_loc(e2)
                            == pre.entity_allocator.spec_loc(e2)) by {
                            if victim is Some && e2.index == victim->0.index {
                                assert(pre.entity_allocator.spec_is_alive(victim->0));
                                assert(e2 == victim->0);
                            }
                            if e2.index == entity.index {
                                assert(e2 == entity);
                            }
                        }
                    }
                }
                assert forall|e2: Entity|
                    #[trigger] post.entity_allocator.spec_is_alive(e2) implies
                    post.entity_allocator.spec_located(e2) by {
                    assert(e2 != entity);
                    assert(pre.entity_allocator.spec_is_alive(e2));
                    if victim is Some && e2.index == victim->0.index {
                        assert(pre.entity_allocator.spec_is_alive(victim->0));
                    }
                    if e2.index == entity.index {
                        assert(e2 == entity);
                    }
                }
            }
            // The model loses exactly the deleted entity.
            assert(post.model() =~= pre.model().remove(entity)) by {
                assert forall|e2: Entity| #[trigger] post.model().dom().contains(e2)
                    == (pre.model().dom().contains(e2) && e2 != entity) by {
                    if e2 != entity {
                        if victim is Some && e2.index == victim->0.index
                            && pre.entity_allocator.spec_is_alive(e2) {
                            assert(e2 == victim->0);
                        }
                        if e2.index == entity.index
                            && pre.entity_allocator.spec_is_alive(e2) {
                            assert(e2 == entity);
                        }
                    }
                }
                assert forall|e2: Entity|
                    post.model().dom().contains(e2) implies
                    #[trigger] post.model()[e2] == pre.model()[e2] by {
                    let l = pre.entity_allocator.spec_loc(e2);
                    let lp = post.entity_allocator.spec_loc(e2);
                    assert(pre.loc_ok(l));
                    // Tag assignments are untouched.
                    assert(post.storage.archetypes@[l.archetype as int].tags
                        == pre.storage.archetypes@[l.archetype as int].tags);
                    if victim is Some && e2 == victim->0 {
                        assert(lp == loc);
                        assert(l == (EntityLocation {
                            archetype: loc.archetype,
                            set: loc.set,
                            chunk: loc.chunk,
                            component: (n - 1) as usize,
                        }));
                        assert(post.record_at(lp).components =~= pre.record_at(l).components)
                        by {
                            assert forall|t: u64|
                                #[trigger] dict_has(chunkpost.components@, t)
                                    == dict_has(chunkpre.components@, t)
                                    && (dict_has(chunkpre.components@, t)
                                        ==> chunkpost.value_at(t, loc.component as int)
                                            == chunkpre.value_at(t, n - 1)) by {
                                if dict_has(chunkpre.components@, t) {
                                    let k = dict_idx(chunkpre.components@, t);
                                    assert(dict_val(chunkpost.components@, t)
                                        == chunkpost.components@[k].1);
                                    assert(dict_val(chunkpre.components@, t)
                                        == chunkpre.components@[k].1);
                                    assert(chunkpost.components@[k].1.data@
                                        == chunkpre.components@[k].1.data@
                                            .update(loc.component as int,
                                                chunkpre.components@[k].1.data@.last())
                                            .drop_last());
                                }
                            }
                        }
                        assert(post.record_at(lp).tags =~= pre.record_at(l).tags);
                        assert(post.record_at(lp) == pre.record_at(l));
                    } else {
                        assert(lp == l) by {
                            if victim is Some && e2.index == victim->0.index {
                                assert(pre.entity_allocator.spec_is_alive(victim->0));
                                assert(e2 == victim->0);
                            }
                            if e2.index == entity.index {
                                assert(e2 == entity);
                            }
                        }
                        if l.archetype == loc.archetype && l.set == loc.set
                            && l.chunk == loc.chunk {
                            assert(l.component != loc.component) by {
                                if l.component == loc.component {
                                    assert(chunkpre.entities@[l.component as int] == e2);
                                }
                            }
                            assert((l.component as int) != n - 1) by {
                                if l.component as int == n - 1 {
                                    assert(chunkpre.entities@[n - 1] == e2);
                                    if victim is Some {
                                        assert(e2 == victim->0);
                                    } else {
                                        assert(loc.component as int == n - 1);
                                    }
                                }
                            }
                            assert(post.record_at(l).components
                                =~= pre.record_at(l).components) by {
                                assert forall|t: u64|
                                    #[trigger] dict_has(chunkpost.components@, t)
                                        == dict_has(chunkpre.components@, t)
                                        && (dict_has(chunkpre.components@, t)
                                            ==> chunkpost.value_at(t, l.component as int)
                                                == chunkpre.value_at(t, l.component as int))
                                by {
                                    if dict_has(chunkpre.components@, t) {
                                        let k = dict_idx(chunkpre.components@, t);
                                        assert(dict_val(chunkpost.components@, t)
                                            == chunkpost.components@[k].1);
                                        assert(dict_val(chunkpre.components@, t)
                                            == chunkpre.components@[k].1);
                                        assert(chunkpost.components@[k].1.data@
                                            == chunkpre.components@[k].1.data@
                                                .update(loc.component as int,
                                                    chunkpre.components@[k].1.data@.last())
                                                .drop_last());
                                    }
                                }
                            }
                            assert(post.record_at(l).tags =~= pre.record_at(l).tags);
                            assert(post.record_at(l) == pre.record_at(l));
                        } else {
                            assert(post.chunk_at(l) == pre.chunk_at(l));
                            assert(post.record_at(l).components
                                =~= pre.record_at(l).components);
                            assert(post.record_at(l).tags =~= pre.record_at(l).tags);
                            assert(post.record_at(l) == pre.record_at(l));
                        }
                    }
                }
            }
            lemma_sigs_distinct_same_descs(pre, post);
            assert(post.wf());
        }
        true
    }

    /// The entity at slot (`a`, `s`, `c`, `i`) of `og`'s storage has not
    /// been re-homed yet: its slot lies at or after the merge walk's cursor.
    pub open spec fn og_pending(og: World, e: Entity, a: int, s: int, c: int, i: int) -> bool {
        let l = og.entity_allocator.spec_loc(e);
        ||| l.archetype > a
        ||| (l.archetype == a && l.set > s)
        ||| (l.archetype == a && l.set == s && l.chunk > c)
        ||| (l.archetype == a && l.set == s && l.chunk == c && l.component >= i)
    }

    /// Absorbs all entities of `other` into this world. Both worlds must
    /// come from allocators with disjoint index blocks (as worlds of one
    /// factory do) and agree on the metadata of shared type ids. Afterwards
    /// every entity of either world is live here with its record unchanged.
    pub fn merge(&mut self, other: World)
        requires
            old(self).wf(),
            other.wf(),
            old(self).entity_allocator.disjoint_from(other.entity_allocator),
            forall|a: int, i: int|
                0 <= a < other.storage.archetypes@.len()
                    && 0 <= i < other.storage.archetypes@[a].desc.components@.len()
                    ==> old(self).comp_meta_ok(
                        (#[trigger] other.storage.archetypes@[a].desc.components@[i]).0.0,
                        other.storage.archetypes@[a].desc.components@[i].1,
                    ),
            forall|a: int, i: int|
                0 <= a < other.storage.archetypes@.len()
                    && 0 <= i < other.storage.archetypes@[a].desc.tags@.len()
                    ==> old(self).tag_meta_ok(
                        (#[trigger] other.storage.archetypes@[a].desc.tags@[i]).0.0,
                        other.storage.archetypes@[a].desc.tags@[i].1,
                    ),
        ensures
            final(self).wf(),
            forall|e: Entity| #[trigger] final(self).model().dom().contains(e)
                == (old(self).model().dom().contains(e)
                    || other.model().dom().contains(e)),
            forall|e: Entity| #[trigger] old(self).model().dom().contains(e)
                ==> final(self).model()[e] == old(self).model()[e],
            forall|e: Entity| #[trigger] other.model().dom().contains(e)
                ==> final(self).model()[e] == other.model()[e],
    {
        let ghost og = other;
        let World { id: _, storage: ostorage, entity_allocator: oalloc, defrag_progress: _ } =
            other;
        self.entity_allocator.merge(oalloc);
        let oarchs = ostorage.archetypes;
        let ghost pre = *old(self);
        proof {
            assert(oarchs@ == og.storage.archetypes@);
            lemma_metas_consistent_same_descs(pre, *self);
            lemma_sigs_distinct_same_descs(pre, *self);
            assert(self.wf_base()) by {
                assert forall|e: Entity|
                    #[trigger] self.entity_allocator.spec_is_alive(e)
                        && self.entity_allocator.spec_located(e) implies
                    self.loc_ok(self.entity_allocator.spec_loc(e))
                        && self.chunk_at(self.entity_allocator.spec_loc(e))
                            .entities@[self.entity_allocator.spec_loc(e).component as int]
                                == e by {
                    assert(pre.entity_allocator.spec_is_alive(e)
                        || og.entity_allocator.spec_is_alive(e));
                    if og.entity_allocator.spec_is_alive(e) {
                        assert(og.entity_allocator.has_index(e.index));
                        assert(self.entity_allocator.entry_of(e.index)
                            == (crate::entity::EntityEntry {
                                located: false,
                                ..og.entity_allocator.entry_of(e.index)
                            }));
                        assert(!self.entity_allocator.spec_located(e));
                    } else {
                        assert(pre.entity_allocator.has_index(e.index));
                        assert(self.entity_allocator.entry_of(e.index)
                            == pre.entity_allocator.entry_of(e.index));
                        assert(pre.entity_allocator.spec_located(e));
                        let l = pre.entity_allocator.spec_loc(e);
                        assert(pre.loc_ok(l));
                    }
                }
                assert forall|a2: int, s2: int, c2: int, i2: int|
                    0 <= a2 < self.storage.archetypes@.len()
                        && 0 <= s2 < self.storage.archetypes@[a2].chunk_sets@.len()
                        && 0 <= c2 < self.storage.archetypes@[a2].chunk_sets@[s2]
                            .chunks@.len()
                        && 0 <= i2 < self.storage.archetypes@[a2].chunk_sets@[s2]
                            .chunks@[c2].entities@.len() implies {
                    let e2 = #[trigger] self.storage.archetypes@[a2].chunk_sets@[s2]
                        .chunks@[c2].entities@[i2];
                    &&& self.entity_allocator.spec_is_alive(e2)
                    &&& self.entity_allocator.spec_located(e2)
                    &&& self.entity_allocator.spec_loc(e2).archetype == a2
                    &&& self.entity_allocator.spec_loc(e2).set == s2
                    &&& self.entity_allocator.spec_loc(e2).chunk == c2
                    &&& self.entity_allocator.spec_loc(e2).component == i2
                } by {
                    let e2 = self.storage.archetypes@[a2].chunk_sets@[s2]
                        .chunks@[c2].entities@[i2];
                    assert(pre.entity_allocator.spec_is_alive(e2));
                    assert(pre.entity_allocator.has_index(e2.index));
                    assert(self.entity_allocator.entry_of(e2.index)
                        == pre.entity_allocator.entry_of(e2.index));
                }
            }
            assert forall|e: Entity| #[trigger] self.model().dom().contains(e)
                == pre.model().dom().contains(e) by {
                if og.entity_allocator.spec_is_alive(e) {
                    assert(!self.entity_allocator.spec_located(e));
                    crate::entity::lemma_allocs_disjoint_alive(
                        pre.entity_allocator, og.entity_allocator, e);
                }
                if pre.entity_allocator.spec_is_alive(e) {
                    assert(self.entity_allocator.entry_of(e.index)
                        == pre.entity_allocator.entry_of(e.index));
                }
            }
            assert forall|e: Entity| pre.model().dom().contains(e) implies
                #[trigger] self.model()[e] == pre.model()[e] by {
                assert(self.entity_allocator.entry_of(e.index)
                    == pre.entity_allocator.entry_of(e.index));
                assert(self.storage == pre.storage);
            }
        }
        let na = oarchs.len();
        let mut a: usize = 0;
        while a < na
            invariant
                self.wf_base(),
                og.wf(),
                pre.wf(),
                na == oarchs@.len(),
                oarchs@ == og.storage.archetypes@,
                a <= na,
                forall|e: Entity| #[trigger] self.entity_allocator.spec_is_alive(e)
                    == (pre.entity_allocator.spec_is_alive(e)
                        || og.entity_allocator.spec_is_alive(e)),
                forall|e: Entity| #[trigger] pre.model().dom().contains(e)
                    ==> self.model().dom().contains(e)
                        && self.model()[e] == pre.model()[e],
                forall|e: Entity| #[trigger] self.model().dom().contains(e)
                    ==> pre.model().dom().contains(e)
                        || (og.model().dom().contains(e)
                            && self.model()[e] == og.model()[e]),
                forall|e: Entity| #[trigger] og.model().dom().contains(e)
                    ==> (Self::og_pending(og, e, a as int, 0, 0, 0)
                            ==> !self.entity_allocator.spec_located(e))
                        && (!Self::og_pending(og, e, a as int, 0, 0, 0)
                            ==> self.model().dom().contains(e)
                                && self.model()[e] == og.model()[e]),                forall|a3: int, i3: int|
                    0 <= a3 < og.storage.archetypes@.len()
                        && 0 <= i3 < og.storage.archetypes@[a3].desc.components@.len()
                        ==> self.comp_meta_ok(
                            (#[trigger] og.storage.archetypes@[a3].desc.components@[i3]).0.0,
                            og.storage.archetypes@[a3].desc.components@[i3].1),
                forall|a3: int, i3: int|
                    0 <= a3 < og.storage.archetypes@.len()
                        && 0 <= i3 < og.storage.archetypes@[a3].desc.tags@.len()
                        ==> self.tag_meta_ok(
                            (#[trigger] og.storage.archetypes@[a3].desc.tags@[i3]).0.0,
                            og.storage.archetypes@[a3].desc.tags@[i3].1),

            decreases na - a,
        {
            let ns = oarchs[a].chunk_sets.len();
            let types = clone_desc_components(&oarchs[a].desc);
            let mut s: usize = 0;
            while s < ns
                invariant
                    self.wf_base(),
                    og.wf(),
                    pre.wf(),
                    na == oarchs@.len(),
                    oarchs@ == og.storage.archetypes@,
                    a < na,
                    ns == oarchs@[a as int].chunk_sets@.len(),
                    s <= ns,
                    types@ == oarchs@[a as int].desc.components@,
                    forall|e: Entity| #[trigger] self.entity_allocator.spec_is_alive(e)
                        == (pre.entity_allocator.spec_is_alive(e)
                            || og.entity_allocator.spec_is_alive(e)),
                    forall|e: Entity| #[trigger] pre.model().dom().contains(e)
                        ==> self.model().dom().contains(e)
                            && self.model()[e] == pre.model()[e],
                    forall|e: Entity| #[trigger] self.model().dom().contains(e)
                        ==> pre.model().dom().contains(e)
                            || (og.model().dom().contains(e)
                                && self.model()[e] == og.model()[e]),
                    forall|e: Entity| #[trigger] og.model().dom().contains(e)
                        ==> (Self::og_pending(og, e, a as int, s as int, 0, 0)
                                ==> !self.entity_allocator.spec_located(e))
                            && (!Self::og_pending(og, e, a as int, s as int, 0, 0)
                                ==> self.model().dom().contains(e)
                                    && self.model()[e] == og.model()[e]),                    forall|a3: int, i3: int|
                        0 <= a3 < og.storage.archetypes@.len()
                            && 0 <= i3 < og.storage.archetypes@[a3].desc.components@.len()
                            ==> self.comp_meta_ok(
                                (#[trigger] og.storage.archetypes@[a3].desc.components@[i3]).0.0,
                                og.storage.archetypes@[a3].desc.components@[i3].1),
                    forall|a3: int, i3: int|
                        0 <= a3 < og.storage.archetypes@.len()
                            && 0 <= i3 < og.storage.archetypes@[a3].desc.tags@.len()
                            ==> self.tag_meta_ok(
                                (#[trigger] og.storage.archetypes@[a3].desc.tags@[i3]).0.0,
                                og.storage.archetypes@[a3].desc.tags@[i3].1),

                decreases ns - s,
            {
                let trips = clone_set_tags(&oarchs[a], s);
                let nc = oarchs[a].chunk_sets[s].chunks.len();
                let mut c: usize = 0;
                while c < nc
                    invariant
                        self.wf_base(),
                        og.wf(),
                        pre.wf(),
                        na == oarchs@.len(),
                        oarchs@ == og.storage.archetypes@,
                        a < na,
                        ns == oarchs@[a as int].chunk_sets@.len(),
                        s < ns,
                        nc == oarchs@[a as int].chunk_sets@[s as int].chunks@.len(),
                        c <= nc,
                        types@ == oarchs@[a as int].desc.components@,
                        ttrip_raw_ids(trips@).no_duplicates(),
                        trips@.len() == oarchs@[a as int].desc.tags@.len(),
                        forall|k: int| 0 <= k < trips@.len()
                            ==> ((#[trigger] trips@[k]).0, trips@[k].1)
                                == oarchs@[a as int].desc.tags@[k],
                        forall|t: u64| #[trigger] ttrip_has(trips@, t)
                            == tpair_has(oarchs@[a as int].desc.tags@, t),
                        forall|k: int| 0 <= k < trips@.len()
                            ==> og.tag_meta_ok((#[trigger] trips@[k]).0.0, trips@[k].1)
                                && trips@[k].1.align >= 1
                                && trips@[k].2@.len() == trips@[k].1.size
                                && trips@[k].2@ == oarchs@[a as int].tags
                                    .tuple_at(s as int)[trips@[k].0.0],
                        forall|e: Entity| #[trigger] self.entity_allocator.spec_is_alive(e)
                            == (pre.entity_allocator.spec_is_alive(e)
                                || og.entity_allocator.spec_is_alive(e)),
                        forall|e: Entity| #[trigger] pre.model().dom().contains(e)
                            ==> self.model().dom().contains(e)
                                && self.model()[e] == pre.model()[e],
                        forall|e: Entity| #[trigger] self.model().dom().contains(e)
                            ==> pre.model().dom().contains(e)
                                || (og.model().dom().contains(e)
                                    && self.model()[e] == og.model()[e]),
                        forall|e: Entity| #[trigger] og.model().dom().contains(e)
                            ==> (Self::og_pending(og, e, a as int, s as int, c as int, 0)
                                    ==> !self.entity_allocator.spec_located(e))
                                && (!Self::og_pending(
                                        og, e, a as int, s as int, c as int, 0)
                                    ==> self.model().dom().contains(e)
                                        && self.model()[e] == og.model()[e]),                        forall|a3: int, i3: int|
                            0 <= a3 < og.storage.archetypes@.len()
                                && 0 <= i3 < og.storage.archetypes@[a3].desc.components@.len()
                                ==> self.comp_meta_ok(
                                    (#[trigger] og.storage.archetypes@[a3].desc.components@[i3]).0.0,
                                    og.storage.archetypes@[a3].desc.components@[i3].1),
                        forall|a3: int, i3: int|
                            0 <= a3 < og.storage.archetypes@.len()
                                && 0 <= i3 < og.storage.archetypes@[a3].desc.tags@.len()
                                ==> self.tag_meta_ok(
                                    (#[trigger] og.storage.archetypes@[a3].desc.tags@[i3]).0.0,
                                    og.storage.archetypes@[a3].desc.tags@[i3].1),

                    decreases nc - c,
                {
                    let ni = oarchs[a].chunk_sets[s].chunks[c].entities.len();
                    let mut i: usize = 0;
                    while i < ni
                        invariant
                            self.wf_base(),
                            og.wf(),
                            pre.wf(),
                            na == oarchs@.len(),
                            oarchs@ == og.storage.archetypes@,
                            a < na,
                            ns == oarchs@[a as int].chunk_sets@.len(),
                            s < ns,
                            nc == oarchs@[a as int].chunk_sets@[s as int].chunks@.len(),
                            c < nc,
                            ni == oarchs@[a as int].chunk_sets@[s as int]
                                .chunks@[c as int].entities@.len(),
                            i <= ni,
                            types@ == oarchs@[a as int].desc.components@,
                            ttrip_raw_ids(trips@).no_duplicates(),
                            trips@.len() == oarchs@[a as int].desc.tags@.len(),
                            forall|k: int| 0 <= k < trips@.len()
                                ==> ((#[trigger] trips@[k]).0, trips@[k].1)
                                    == oarchs@[a as int].desc.tags@[k],
                            forall|t: u64| #[trigger] ttrip_has(trips@, t)
                                == tpair_has(oarchs@[a as int].desc.tags@, t),
                            forall|k: int| 0 <= k < trips@.len()
                                ==> og.tag_meta_ok((#[trigger] trips@[k]).0.0, trips@[k].1)
                                    && trips@[k].1.align >= 1
                                    && trips@[k].2@.len() == trips@[k].1.size
                                    && trips@[k].2@ == oarchs@[a as int].tags
                                        .tuple_at(s as int)[trips@[k].0.0],
                            forall|e: Entity|
                                #[trigger] self.entity_allocator.spec_is_alive(e)
                                == (pre.entity_allocator.spec_is_alive(e)
                                    || og.entity_allocator.spec_is_alive(e)),
                            forall|e: Entity| #[trigger] pre.model().dom().contains(e)
                                ==> self.model().dom().contains(e)
                                    && self.model()[e] == pre.model()[e],
                            forall|e: Entity| #[trigger] self.model().dom().contains(e)
                                ==> pre.model().dom().contains(e)
                                    || (og.model().dom().contains(e)
                                        && self.model()[e] == og.model()[e]),
                            forall|e: Entity| #[trigger] og.model().dom().contains(e)
                                ==> (Self::og_pending(
                                        og, e, a as int, s as int, c as int, i as int)
                                        ==> !self.entity_allocator.spec_located(e))
                                    && (!Self::og_pending(
                                            og, e, a as int, s as int, c as int, i as int)
                                        ==> self.model().dom().contains(e)
                                            && self.model()[e] == og.model()[e]),                            forall|a3: int, i3: int|
                                0 <= a3 < og.storage.archetypes@.len()
                                    && 0 <= i3 < og.storage.archetypes@[a3].desc.components@.len()
                                    ==> self.comp_meta_ok(
                                        (#[trigger] og.storage.archetypes@[a3].desc.components@[i3]).0.0,
                                        og.storage.archetypes@[a3].desc.components@[i3].1),
                            forall|a3: int, i3: int|
                                0 <= a3 < og.storage.archetypes@.len()
                                    && 0 <= i3 < og.storage.archetypes@[a3].desc.tags@.len()
                                    ==> self.tag_meta_ok(
                                        (#[trigger] og.storage.archetypes@[a3].desc.tags@[i3]).0.0,
                                        og.storage.archetypes@[a3].desc.tags@[i3].1),

                        decreases ni - i,
                    {
                        let e = oarchs[a].chunk_sets[s].chunks[c].entities[i];
                        let ghost ogloc = EntityLocation {
                            archetype: a,
                            set: s,
                            chunk: c,
                            component: i,
                        };
                        proof {
                            assert(og.entity_allocator.spec_is_alive(e)
                                && og.entity_allocator.spec_loc(e).archetype == a
                                && og.entity_allocator.spec_loc(e).set == s
                                && og.entity_allocator.spec_loc(e).chunk == c
                                && og.entity_allocator.spec_loc(e).component == i);
                            assert(og.model().dom().contains(e));
                            assert(Self::og_pending(
                                og, e, a as int, s as int, c as int, i as int));
                            assert(!self.entity_allocator.spec_located(e));
                            assert(!self.model().dom().contains(e));
                            // Metadata preconditions for resolving the target.
                            assert forall|k: int| 0 <= k < types@.len() implies
                                self.comp_meta_ok(
                                    (#[trigger] types@[k]).0.0, types@[k].1) by {
                                assert(types@[k]
                                    == og.storage.archetypes@[a as int]
                                        .desc.components@[k]);
                            }
                            assert forall|k: int| 0 <= k < trips@.len() implies
                                self.tag_meta_ok(
                                    (#[trigger] trips@[k]).0.0, trips@[k].1) by {
                                assert((trips@[k].0, trips@[k].1)
                                    == og.storage.archetypes@[a as int].desc.tags@[k]);
                            }
                            assert(ctype_raw_ids(types@).no_duplicates()) by {
                                assert(og.storage.archetypes@[a as int].desc.wf());
                                assert(ctype_raw_ids(types@)
                                    =~= crate::meta::comp_ids(
                                        og.storage.archetypes@[a as int]
                                            .desc.components@));
                            }
                            assert(layout_ok(types@, spec_capacity(types@))) by {
                                assert(og.storage.archetypes@[a as int].wf());
                            }
                            assert forall|k: int| 0 <= k < types@.len() implies
                                (#[trigger] types@[k]).1.align >= 1 by {
                                assert(og.storage.archetypes@[a as int].desc.wf());
                                assert(types@[k]
                                    == og.storage.archetypes@[a as int]
                                        .desc.components@[k]);
                            }
                        }
                        let row = chunk_row_by_types(
                            &oarchs[a].chunk_sets[s].chunks[c], &types, i);
                        let ghost iterpre = *self;
                        let (a2, s2) = self.resolve_target(&trips, &types);
                        let ghost rpost = *self;
                        self.place_absorbed_row(e, a2, s2, &types, &row);
                        proof {
                            let post = *self;
                            // Metadata agreement with the other world's
                            // descriptions survives: any archetype created by
                            // the resolution has its metas pinned to the
                            // batch's, which are the other world's own.
                            assert forall|a3: int, i3: int|
                                0 <= a3 < og.storage.archetypes@.len()
                                    && 0 <= i3 < og.storage.archetypes@[a3]
                                        .desc.components@.len() implies
                                post.comp_meta_ok(
                                    (#[trigger] og.storage.archetypes@[a3]
                                        .desc.components@[i3]).0.0,
                                    og.storage.archetypes@[a3].desc.components@[i3].1)
                            by {
                                let t = og.storage.archetypes@[a3]
                                    .desc.components@[i3].0.0;
                                let m = og.storage.archetypes@[a3]
                                    .desc.components@[i3].1;
                                assert forall|a4: int, i4: int|
                                    0 <= a4 < post.storage.archetypes@.len()
                                        && 0 <= i4 < post.storage.archetypes@[a4]
                                            .desc.components@.len()
                                        && (#[trigger] post.storage.archetypes@[a4]
                                            .desc.components@[i4]).0.0 == t implies
                                    post.storage.archetypes@[a4].desc.components@[i4].1
                                        == m by {
                                    assert(post.storage.archetypes@[a4].desc
                                        == rpost.storage.archetypes@[a4].desc);
                                    if a4 < iterpre.storage.archetypes@.len() {
                                        assert(rpost.storage.archetypes@[a4].desc
                                            == iterpre.storage.archetypes@[a4].desc);
                                        assert(iterpre.comp_meta_ok(t, m));
                                    } else {
                                        assert(a4 == a2);
                                        assert(ctypes_has(rpost.storage.archetypes@[
                                            a2 as int].desc.components@, t));
                                        assert(ctypes_has(types@, t));
                                        let k = ctypes_idx(types@, t);
                                        assert(types@[k].0.0 == t);
                                        assert(rpost.storage.archetypes@[a2 as int]
                                            .desc.components@[i4].1 == types@[k].1);
                                        assert(types@[k]
                                            == og.storage.archetypes@[a as int]
                                                .desc.components@[k]);
                                        assert(og.metas_consistent());
                                    }
                                }
                            }
                            assert forall|a3: int, i3: int|
                                0 <= a3 < og.storage.archetypes@.len()
                                    && 0 <= i3 < og.storage.archetypes@[a3]
                                        .desc.tags@.len() implies
                                post.tag_meta_ok(
                                    (#[trigger] og.storage.archetypes@[a3]
                                        .desc.tags@[i3]).0.0,
                                    og.storage.archetypes@[a3].desc.tags@[i3].1)
                            by {
                                let t = og.storage.archetypes@[a3].desc.tags@[i3].0.0;
                                let m = og.storage.archetypes@[a3].desc.tags@[i3].1;
                                assert forall|a4: int, i4: int|
                                    0 <= a4 < post.storage.archetypes@.len()
                                        && 0 <= i4 < post.storage.archetypes@[a4]
                                            .desc.tags@.len()
                                        && (#[trigger] post.storage.archetypes@[a4]
                                            .desc.tags@[i4]).0.0 == t implies
                                    post.storage.archetypes@[a4].desc.tags@[i4].1
                                        == m by {
                                    assert(post.storage.archetypes@[a4].desc
                                        == rpost.storage.archetypes@[a4].desc);
                                    if a4 < iterpre.storage.archetypes@.len() {
                                        assert(rpost.storage.archetypes@[a4].desc
                                            == iterpre.storage.archetypes@[a4].desc);
                                        assert(iterpre.tag_meta_ok(t, m));
                                    } else {
                                        assert(a4 == a2);
                                        assert(tpair_has(rpost.storage.archetypes@[
                                            a2 as int].desc.tags@, t));
                                        assert(ttrip_has(trips@, t));
                                        let k = ttrip_idx(trips@, t);
                                        assert(trips@[k].0.0 == t);
                                        assert(rpost.storage.archetypes@[a2 as int]
                                            .desc.tags@[i4].1 == trips@[k].1);
                                        assert((trips@[k].0, trips@[k].1)
                                            == og.storage.archetypes@[a as int]
                                                .desc.tags@[k]);
                                        assert(og.metas_consistent());
                                    }
                                }
                            }
                            assert(post.model()[e] == og.model()[e]) by {
                                assert(og.model()[e] == og.record_at(ogloc));
                                let newrec = post.model()[e];
                                assert(newrec.components =~= og.record_at(ogloc).components)
                                by {
                                    let arch = og.storage.archetypes@[a as int];
                                    let ch = og.chunk_at(ogloc);
                                    assert forall|t: u64| #[trigger] ctypes_has(types@, t)
                                        == ch.has_type(t) by {
                                        if ctypes_has(types@, t) {
                                            let i2 = ctypes_idx(
                                                arch.desc.components@, t);
                                            assert(ch.has_type(
                                                arch.desc.components@[i2].0.0));
                                        }
                                        if ch.has_type(t) {
                                            crate::archetype::lemma_chunk_cols_are_desc(
                                                arch, ch);
                                            let k = dict_idx(ch.components@, t);
                                            lemma_dict_idx(ch.components@, t, k);
                                            assert(crate::archetype::desc_has_comp(
                                                arch, t));
                                            let i2 = choose|i2: int|
                                                0 <= i2 < arch.desc.components@.len()
                                                    && (#[trigger] arch.desc
                                                        .components@[i2]).0.0 == t;
                                        }
                                    }
                                    assert forall|t: u64| ctypes_has(types@, t) implies
                                        #[trigger] row_map(types@, row@)[t]
                                            == ch.row(i as int)[t] by {
                                        let k = ctypes_idx(types@, t);
                                        assert(row@[k]@ == ch.value_at(
                                            types@[k].0.0, i as int));
                                    }
                                }
                                assert(newrec.tags =~= og.record_at(ogloc).tags) by {
                                    let arch = og.storage.archetypes@[a as int];
                                    assert(newrec.tags == trip_tags_map(trips@));
                                    assert forall|t: u64| #[trigger] ttrip_has(trips@, t)
                                        == dict_has(arch.tags.data@, t) by {
                                        if ttrip_has(trips@, t) {
                                            assert(tpair_has(arch.desc.tags@, t));
                                            let i2 = choose|i2: int|
                                                0 <= i2 < arch.desc.tags@.len()
                                                    && (#[trigger] arch.desc.tags@[i2])
                                                        .0.0 == t;
                                            assert(dict_has(arch.tags.data@, t));
                                        }
                                        if dict_has(arch.tags.data@, t) {
                                            let k = dict_idx(arch.tags.data@, t);
                                            lemma_dict_idx(arch.tags.data@, t, k);
                                            crate::archetype::lemma_tag_key_in_desc(
                                                arch, k);
                                            let i2 = choose|i2: int|
                                                0 <= i2 < arch.desc.tags@.len()
                                                    && (#[trigger] arch.desc.tags@[i2])
                                                        .0.0 == t;
                                            assert(tpair_has(arch.desc.tags@, t));
                                        }
                                    }
                                    assert forall|t: u64| ttrip_has(trips@, t) implies
                                        #[trigger] trip_tags_map(trips@)[t]
                                            == arch.tags.tuple_at(s as int)[t] by {
                                        let k = ttrip_idx(trips@, t);
                                        assert(trips@[k].2@ == arch.tags
                                            .tuple_at(s as int)[trips@[k].0.0]);
                                    }
                                }
                                assert(og.record_at(ogloc) == (EntityRecord {
                                    components: og.record_at(ogloc).components,
                                    tags: og.record_at(ogloc).tags,
                                }));
                            }
                            assert forall|e2: Entity|
                                #[trigger] og.model().dom().contains(e2) implies
                                (post.model().dom().contains(e2)
                                    || (!post.entity_allocator.spec_located(e2)
                                        && Self::og_pending(
                                            og, e2, a as int, s as int, c as int,
                                            i + 1))) by {
                                if e2 != e {
                                    if iterpre.model().dom().contains(e2) {
                                        assert(post.model().dom().contains(e2));
                                    } else {
                                        assert(!iterpre.entity_allocator
                                            .spec_located(e2));
                                        assert(Self::og_pending(og, e2, a as int,
                                            s as int, c as int, i as int));
                                        assert(post.entity_allocator.spec_located(e2)
                                            == iterpre.entity_allocator
                                                .spec_located(e2));
                                        assert(Self::og_pending(og, e2, a as int,
                                            s as int, c as int, i + 1)) by {
                                            let l2 = og.entity_allocator.spec_loc(e2);
                                            if l2.archetype == a && l2.set == s
                                                && l2.chunk == c
                                                && l2.component == i {
                                                assert(og.loc_ok(l2));
                                                assert(og.chunk_at(l2).entities@[
                                                    i as int] == e2);
                                                assert(e2 == e);
                                            }
                                        }
                                    }
                                }
                            }
                        }
                        i += 1;
                    }
                    c += 1;
                    proof {
                        assert forall|e2: Entity|
                            #[trigger] og.model().dom().contains(e2) implies
                            (self.model().dom().contains(e2)
                                || (!self.entity_allocator.spec_located(e2)
                                    && Self::og_pending(og, e2, a as int, s as int,
                                        c as int, 0))) by {
                            if !self.model().dom().contains(e2) {
                                assert(Self::og_pending(og, e2, a as int, s as int,
                                    (c - 1) as int, ni as int));
                                let l2 = og.entity_allocator.spec_loc(e2);
                                if l2.archetype == a && l2.set == s
                                    && l2.chunk == c - 1 {
                                    assert(og.loc_ok(l2));
                                }
                            }
                        }
                    }
                }
                s += 1;
                proof {
                    assert forall|e2: Entity|
                        #[trigger] og.model().dom().contains(e2) implies
                        (self.model().dom().contains(e2)
                            || (!self.entity_allocator.spec_located(e2)
                                && Self::og_pending(og, e2, a as int, s as int, 0, 0)))
                    by {
                        if !self.model().dom().contains(e2) {
                            assert(Self::og_pending(og, e2, a as int, (s - 1) as int,
                                nc as int, 0));
                            let l2 = og.entity_allocator.spec_loc(e2);
                            if l2.archetype == a && l2.set == s - 1 {
                                assert(og.loc_ok(l2));
                            }
                        }
                    }
                }
            }
            a += 1;
            proof {
                assert forall|e2: Entity| #[trigger] og.model().dom().contains(e2) implies
                    (self.model().dom().contains(e2)
                        || (!self.entity_allocator.spec_located(e2)
                            && Self::og_pending(og, e2, a as int, 0, 0, 0))) by {
                    if !self.model().dom().contains(e2) {
                        assert(Self::og_pending(og, e2, (a - 1) as int, ns as int, 0, 0));
                        let l2 = og.entity_allocator.spec_loc(e2);
                        if l2.archetype == a - 1 {
                            assert(og.loc_ok(l2));
                        }
                    }
                }
            }
        }
        proof {
            let post = *self;
            assert(post.wf()) by {
                assert forall|e: Entity|
                    #[trigger] post.entity_allocator.spec_is_alive(e) implies
                    post.entity_allocator.spec_located(e) by {
                    if og.model().dom().contains(e) {
                        assert(post.model().dom().contains(e)
                            || Self::og_pending(og, e, na as int, 0, 0, 0));
                        let l2 = og.entity_allocator.spec_loc(e);
                        if !post.model().dom().contains(e) {
                            assert(og.loc_ok(l2));
                        }
                    } else if pre.model().dom().contains(e) {
                        assert(post.model().dom().contains(e));
                    } else {
                        assert(pre.entity_allocator.spec_is_alive(e)
                            || og.entity_allocator.spec_is_alive(e));
                        assert(pre.all_located() && og.all_located());
                    }
                }
            }
            assert forall|e: Entity| #[trigger] og.model().dom().contains(e) implies
                post.model().dom().contains(e) && post.model()[e] == og.model()[e] by {
                if !post.model().dom().contains(e) {
                    assert(Self::og_pending(og, e, na as int, 0, 0, 0));
                    let l2 = og.entity_allocator.spec_loc(e);
                    assert(og.loc_ok(l2));
                }
            }
            assert forall|e: Entity| #[trigger] post.model().dom().contains(e)
                == (pre.model().dom().contains(e) || og.model().dom().contains(e)) by {}
        }
    }

    /// Gets the unique ID of this world.
    pub fn id(&self) -> (r: WorldId)
        ensures
            r == self.id,
    {
        self.id
    }

    /// Determines if the given `Entity` is alive within this `World`.
    pub fn is_alive(&self, entity: Entity) -> (r: bool)
        requires
            self.wf(),
        ensures
            r == self.model().dom().contains(entity),
    {
        self.entity_allocator.is_alive(entity)
    }

    /// Borrows component data for the given entity.
    ///
    /// Returns `Some(data)` exactly when the entity is live and has a
    /// component of the given type; the bytes are the entity's current value
    /// of that component.
    pub fn get_component(&self, entity: Entity, component_type: ComponentTypeId)
        -> (r: Option<&Vec<u8>>)
        requires
            self.wf(),
        ensures
            match r {
                Some(v) => self.model().dom().contains(entity)
                    && self.model()[entity].components.contains_key(component_type.0)
                    && v@ == self.model()[entity].components[component_type.0],
                None => !(self.model().dom().contains(entity)
                    && self.model()[entity].components.contains_key(component_type.0)),
            },
    {
        if !self.entity_allocator.is_alive(entity) {
            return None;
        }
        let loc = match self.entity_allocator.get_location(entity.index) {
            Some(l) => l,
            None => {
                return None;
            }
        };
        let arch = &self.storage.archetypes[loc.archetype];
        let set = &arch.chunk_sets[loc.set];
        let chunk = &set.chunks[loc.chunk];
        let r = chunk.component_value(component_type, loc.component);
        proof {
            assert(self.model().dom().contains(entity));
            assert(self.model()[entity].components =~= self.chunk_at(loc).row(loc.component as int));
        }
        r
    }

    /// Gets tag data for the given entity.
    ///
    /// Returns `Some(data)` exactly when the entity is live and its
    /// archetype carries a tag of the given type; the bytes are the tag
    /// value shared by the entity's chunk-set.
    pub fn get_tag(&self, entity: Entity, tag_type: TagTypeId) -> (r: Option<&Vec<u8>>)
        requires
            self.wf(),
        ensures
            match r {
                Some(v) => self.model().dom().contains(entity)
                    && self.model()[entity].tags.contains_key(tag_type.0)
                    && v@ == self.model()[entity].tags[tag_type.0],
                None => !(self.model().dom().contains(entity)
                    && self.model()[entity].tags.contains_key(tag_type.0)),
            },
    {
        if !self.entity_allocator.is_alive(entity) {
            return None;
        }
        let loc = match self.entity_allocator.get_location(entity.index) {
            Some(l) => l,
            None => {
                return None;
            }
        };
        let arch = &self.storage.archetypes[loc.archetype];
        match arch.tags.get(tag_type) {
            Some(st) => {
                proof {
                    assert(self.model().dom().contains(entity));
                    assert(st.data@.len() == arch.chunk_sets@.len());
                    assert(dict_val(arch.tags.data@, tag_type.0) == *st);
                }
                Some(st.get(loc.set))
            }
            None => {
                proof {
                    assert(self.model().dom().contains(entity));
                    assert(!self.model()[entity].tags.contains_key(tag_type.0));
                }
                None
            }
        }
    }
}

} // verus!
