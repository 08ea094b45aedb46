//! Chunks: fixed-capacity structure-of-arrays blocks.
//!
//! A chunk stores up to `capacity` entities of one archetype. Beside the
//! entity handles it keeps one column per component type, sorted by type id;
//! slot `i` of every column belongs to the entity at `entities[i]`, so all
//! columns always have the same length. Component values are erased byte
//! strings of the column's fixed element size. A chunk's backing store is
//! allocated lazily on first write and released when the chunk empties.

use vstd::prelude::*;
use crate::dict::dict_find;
use crate::dict::dict_has;
use crate::dict::dict_idx;
use crate::dict::lemma_dict_idx;
use crate::dict::dict_sorted;
use crate::dict::dict_val;
use crate::dict::dict_val_mut;
use crate::entity::Entity;
use crate::meta::ComponentTypeId;
use crate::meta::copy_bytes;
use crate::storage::ChunkId;

verus! {

/// The successor of `v` modulo the width of `u64`.
pub open spec fn wrap_inc(v: u64) -> u64 {
    if v == u64::MAX {
        0
    } else {
        (v + 1) as u64
    }
}

/// One component column of a chunk: the erased values of one component type
/// for every entity slot, plus change tracking.
pub struct ComponentAccessor {
    pub element_size: usize,
    pub data: Vec<Vec<u8>>,
    pub version: u64,
    pub changed: bool,
}

impl ComponentAccessor {
    /// Every stored value has the column's element size.
    pub open spec fn wf(self) -> bool {
        forall|i: int| 0 <= i < self.data@.len()
            ==> (#[trigger] self.data@[i])@.len() == self.element_size
    }

    /// The column's values as byte strings.
    pub open spec fn values(self) -> Seq<Seq<u8>> {
        self.data@.map_values(|v: Vec<u8>| v@)
    }

    /// The column's version counter; it advances (wrapping) on every
    /// mutation of the column.
    pub fn version(&self) -> (r: u64)
        ensures
            r == self.version,
    {
        self.version
    }

    /// Whether the column has been written since `mark_unchanged`.
    pub fn changed(&self) -> (r: bool)
        ensures
            r == self.changed,
    {
        self.changed
    }

    /// Clears the change flag; a reader calls this after inspecting the
    /// column.
    pub fn mark_unchanged(&mut self)
        ensures
            *final(self) == (ComponentAccessor { changed: false, ..*old(self) }),
    {
        self.changed = false;
    }

    /// The stored values.
    pub fn data_slice(&self) -> (r: &Vec<Vec<u8>>)
        ensures
            r@ == self.data@,
    {
        &self.data
    }
}

/// A chunk: entity handles plus one sorted component column per type.
pub struct ComponentStorage {
    pub id: ChunkId,
    pub capacity: usize,
    pub entities: Vec<Entity>,
    pub components: Vec<(u64, ComponentAccessor)>,
    pub allocated: bool,
}

impl ComponentStorage {
    /// Structural invariant: capacity at least one; columns sorted by type
    /// id, each as long as the entity list, all values correctly sized; an
    /// unallocated chunk is empty.
    pub open spec fn wf(self) -> bool {
        &&& self.capacity >= 1
        &&& self.entities@.len() <= self.capacity
        &&& dict_sorted(self.components@)
        &&& forall|k: int| 0 <= k < self.components@.len()
                ==> (#[trigger] self.components@[k]).1.wf()
                    && self.components@[k].1.data@.len() == self.entities@.len()
        &&& !self.allocated ==> self.entities@.len() == 0
    }

    /// The chunk stores component type `t`.
    pub open spec fn has_type(self, t: u64) -> bool {
        dict_has(self.components@, t)
    }

    /// The byte size of one value of component type `t` here.
    pub open spec fn size_of(self, t: u64) -> int {
        dict_val(self.components@, t).element_size as int
    }

    /// The value of component `t` in slot `i`.
    pub open spec fn value_at(self, t: u64, i: int) -> Seq<u8> {
        dict_val(self.components@, t).data@[i]@
    }

    /// Slot `i` as a map from component type to value.
    pub open spec fn row(self, i: int) -> Map<u64, Seq<u8>> {
        Map::new(|t: u64| self.has_type(t), |t: u64| self.value_at(t, i))
    }

    /// The chunk's component type ids, in column order (ascending).
    pub open spec fn type_ids(self) -> Seq<u64> {
        self.components@.map_values(|p: (u64, ComponentAccessor)| p.0)
    }

    /// Gets the unique ID of the chunk.
    pub fn id(&self) -> (r: ChunkId)
        ensures
            r == self.id,
    {
        self.id
    }

    /// Gets the number of entities stored in the chunk.
    pub fn len(&self) -> (r: usize)
        ensures
            r == self.entities@.len(),
    {
        self.entities.len()
    }

    /// Gets the maximum number of entities that can be stored in the chunk.
    pub fn capacity(&self) -> (r: usize)
        ensures
            r == self.capacity,
    {
        self.capacity
    }

    /// Determines if the chunk is full.
    pub fn is_full(&self) -> (r: bool)
        ensures
            r == (self.entities@.len() >= self.capacity),
    {
        self.entities.len() >= self.capacity
    }

    /// Determines if the chunk is empty.
    pub fn is_empty(&self) -> (r: bool)
        ensures
            r == (self.entities@.len() == 0),
    {
        self.entities.len() == 0
    }

    /// Determines if the backing store for this chunk has been allocated.
    pub fn is_allocated(&self) -> (r: bool)
        ensures
            r == self.allocated,
    {
        self.allocated
    }

    /// The IDs of all entities stored in the chunk, in slot order.
    pub fn entities(&self) -> (r: &Vec<Entity>)
        ensures
            r@ == self.entities@,
    {
        &self.entities
    }

    /// The column for component type `t`, when the chunk stores it.
    pub fn components(&self, component_type: ComponentTypeId) -> (r: Option<&ComponentAccessor>)
        requires
            self.wf(),
        ensures
            match r {
                Some(a) => self.has_type(component_type.0)
                    && *a == dict_val(self.components@, component_type.0),
                None => !self.has_type(component_type.0),
            },
    {
        match dict_find(&self.components, component_type.0) {
            Some(i) => Some(&self.components[i].1),
            None => None,
        }
    }

    /// Marks the chunk's backing store as allocated; entity and component
    /// writes require it.
    pub fn write(&mut self)
        ensures
            *final(self) == (ComponentStorage { allocated: true, ..*old(self) }),
    {
        self.allocated = true;
    }

    /// The value of component `t` for the entity in slot `index`.
    pub fn component_value(&self, t: ComponentTypeId, index: usize) -> (r: Option<&Vec<u8>>)
        requires
            self.wf(),
            index < self.entities@.len(),
        ensures
            match r {
                Some(v) => self.has_type(t.0) && v@ == self.value_at(t.0, index as int),
                None => !self.has_type(t.0),
            },
    {
        match dict_find(&self.components, t.0) {
            Some(i) => Some(&self.components[i].1.data[index]),
            None => None,
        }
    }

    /// Overwrites the value of component `t` in slot `index`, advancing the
    /// column's version and setting its change flag.
    pub fn set_value(&mut self, t: ComponentTypeId, index: usize, value: Vec<u8>)
        requires
            old(self).wf(),
            index < old(self).entities@.len(),
            old(self).has_type(t.0),
            value@.len() == old(self).size_of(t.0),
        ensures
            final(self).wf(),
            final(self).id == old(self).id,
            final(self).capacity == old(self).capacity,
            final(self).allocated == old(self).allocated,
            final(self).entities@ == old(self).entities@,
            final(self).components@.len() == old(self).components@.len(),
            forall|k: int| 0 <= k < old(self).components@.len()
                ==> (#[trigger] final(self).components@[k]).0 == old(self).components@[k].0
                    && final(self).components@[k].1.element_size
                        == old(self).components@[k].1.element_size,
            forall|k: int| 0 <= k < old(self).components@.len()
                    && k != dict_idx(old(self).components@, t.0)
                ==> (#[trigger] final(self).components@[k]) == old(self).components@[k],
            final(self).components@[dict_idx(old(self).components@, t.0)].1.data@
                == old(self).components@[dict_idx(old(self).components@, t.0)].1.data@
                    .update(index as int, value),
            final(self).components@[dict_idx(old(self).components@, t.0)].1.version
                == wrap_inc(old(self).components@[dict_idx(old(self).components@, t.0)]
                    .1.version),
            final(self).components@[dict_idx(old(self).components@, t.0)].1.changed,
    {
        let ghost pre = *self;
        let i = match dict_find(&self.components, t.0) {
            Some(i) => i,
            None => {
                proof {
                    assert(false);
                }
                0
            }
        };
        let acc = dict_val_mut(&mut self.components, i);
        acc.data[index] = value;
        acc.version = acc.version.wrapping_add(1);
        acc.changed = true;
        proof {
            assert(dict_sorted(self.components@)) by {
                assert forall|i2: int, j2: int|
                    0 <= i2 < j2 < self.components@.len() implies
                    (#[trigger] self.components@[i2]).0
                        < (#[trigger] self.components@[j2]).0 by {
                    assert(self.components@[i2].0 == pre.components@[i2].0);
                    assert(self.components@[j2].0 == pre.components@[j2].0);
                }
            }
            assert forall|k: int| 0 <= k < self.components@.len() implies
                (#[trigger] self.components@[k]).1.wf()
                    && self.components@[k].1.data@.len() == self.entities@.len() by {
                if k == i as int {
                    assert(self.components@[k].1.data@
                        == pre.components@[k].1.data@.update(index as int, value));
                    assert(pre.components@[k].1.wf());
                    assert forall|m: int| 0 <= m < self.components@[k].1.data@.len() implies
                        (#[trigger] self.components@[k].1.data@[m])@.len()
                            == self.components@[k].1.element_size by {
                        if m != index {
                            assert(self.components@[k].1.data@[m]
                                == pre.components@[k].1.data@[m]);
                        }
                    }
                } else {
                    assert(self.components@[k] == pre.components@[k]);
                }
            }
        }
    }

    /// A copy of slot `index`: each component type paired with its value, in
    /// column order.
    pub fn read_row(&self, index: usize) -> (r: Vec<(u64, Vec<u8>)>)
        requires
            self.wf(),
            index < self.entities@.len(),
        ensures
            r@.len() == self.components@.len(),
            forall|k: int| 0 <= k < r@.len()
                ==> (#[trigger] r@[k]).0 == self.components@[k].0
                    && r@[k].1@ == self.components@[k].1.data@[index as int]@,
    {
        let n = self.components.len();
        let mut r: Vec<(u64, Vec<u8>)> = Vec::new();
        let mut k: usize = 0;
        while k < n
            invariant
                self.wf(),
                index < self.entities@.len(),
                n == self.components@.len(),
                k <= n,
                r@.len() == k,
                forall|m: int| 0 <= m < k
                    ==> (#[trigger] r@[m]).0 == self.components@[m].0
                        && r@[m].1@ == self.components@[m].1.data@[index as int]@,
            decreases n - k,
        {
            let t = self.components[k].0;
            let v = copy_bytes(&self.components[k].1.data[index]);
            r.push((t, v));
            k += 1;
        }
        r
    }

    /// Appends entity `e` with the given row of component values, one per
    /// column in column order. Allocates the backing store if needed; every
    /// column's version advances and its change flag is set.
    pub fn push_row(&mut self, e: Entity, row: Vec<(u64, Vec<u8>)>)
        requires
            old(self).wf(),
            old(self).entities@.len() < old(self).capacity,
            row@.len() == old(self).components@.len(),
            forall|k: int| 0 <= k < row@.len()
                ==> (#[trigger] row@[k]).0 == old(self).components@[k].0
                    && row@[k].1@.len() == old(self).components@[k].1.element_size,
        ensures
            final(self).wf(),
            final(self).id == old(self).id,
            final(self).capacity == old(self).capacity,
            final(self).allocated,
            final(self).entities@ == old(self).entities@.push(e),
            final(self).components@.len() == old(self).components@.len(),
            forall|k: int| 0 <= k < old(self).components@.len()
                ==> (#[trigger] final(self).components@[k]).0 == old(self).components@[k].0
                    && final(self).components@[k].1.element_size
                        == old(self).components@[k].1.element_size
                    && final(self).components@[k].1.data@
                        == old(self).components@[k].1.data@.push(row@[k].1)
                    && final(self).components@[k].1.version
                        == wrap_inc(old(self).components@[k].1.version)
                    && final(self).components@[k].1.changed,
    {
        let ghost pre = *self;
        let ghost row0 = row@;
        self.allocated = true;
        self.entities.push(e);
        let n = self.components.len();
        let mut row = row;
        let mut k: usize = 0;
        while k < n
            invariant
                n == self.components@.len(),
                n == pre.components@.len(),
                k <= n,
                self.id == pre.id,
                self.capacity == pre.capacity,
                self.allocated,
                self.entities@ == pre.entities@.push(e),
                row@ == row0.subrange(k as int, n as int),
                row0.len() == n,
                forall|m: int| 0 <= m < n
                    ==> (#[trigger] row0[m]).0 == pre.components@[m].0,
                forall|m: int| k <= m < n
                    ==> #[trigger] self.components@[m] == pre.components@[m],
                forall|m: int| 0 <= m < k
                    ==> (#[trigger] self.components@[m]).0 == pre.components@[m].0
                        && self.components@[m].1.element_size
                            == pre.components@[m].1.element_size
                        && self.components@[m].1.data@
                            == pre.components@[m].1.data@.push(row0[m].1)
                        && self.components@[m].1.version
                            == wrap_inc(pre.components@[m].1.version)
                        && self.components@[m].1.changed,
            decreases n - k,
        {
            let ghost rowpre = row@;
            let (t, v) = row.remove(0);
            proof {
                assert(rowpre[0] == row0[k as int]);
                assert(row@ =~= row0.subrange(k + 1, n as int));
            }
            let acc = dict_val_mut(&mut self.components, k);
            acc.data.push(v);
            acc.version = acc.version.wrapping_add(1);
            acc.changed = true;
            k += 1;
        }
        proof {
            assert forall|k2: int| 0 <= k2 < self.components@.len() implies
                (#[trigger] self.components@[k2]).1.wf()
                    && self.components@[k2].1.data@.len()
                        == self.entities@.len() by {
                assert(self.components@[k2].1.data@
                    == pre.components@[k2].1.data@.push(row0[k2].1));
                assert(pre.components@[k2].1.wf());
                assert(row0[k2].1@.len() == pre.components@[k2].1.element_size);
            }
            assert(dict_sorted(self.components@)) by {
                assert forall|i: int, j: int|
                    0 <= i < j < self.components@.len() implies
                    (#[trigger] self.components@[i]).0
                        < (#[trigger] self.components@[j]).0 by {
                    assert(self.components@[i].0 == pre.components@[i].0);
                    assert(self.components@[j].0 == pre.components@[j].0);
                }
            }
        }
    }

    /// Removes the entity in slot `index`, swapping the last slot into its
    /// place. Returns the entity that was moved into `index`, when one was.
    /// A column's version advances exactly when a value actually shifted.
    /// A chunk that becomes empty releases its backing store.
    pub fn swap_remove(&mut self, index: usize, drop_removed: bool) -> (r: Option<Entity>)
        requires
            old(self).wf(),
            index < old(self).entities@.len(),
        ensures
            final(self).wf(),
            final(self).id == old(self).id,
            final(self).capacity == old(self).capacity,
            final(self).entities@ == old(self).entities@
                .update(index as int, old(self).entities@.last()).drop_last(),
            final(self).components@.len() == old(self).components@.len(),
            forall|k: int| 0 <= k < old(self).components@.len()
                ==> (#[trigger] final(self).components@[k]).0 == old(self).components@[k].0
                    && final(self).components@[k].1.element_size
                        == old(self).components@[k].1.element_size
                    && final(self).components@[k].1.data@
                        == old(self).components@[k].1.data@
                            .update(index as int, old(self).components@[k].1.data@.last())
                            .drop_last(),
            index + 1 < old(self).entities@.len()
                ==> r == Some(old(self).entities@.last())
                    && (forall|k: int| 0 <= k < old(self).components@.len()
                        ==> (#[trigger] final(self).components@[k]).1.version
                                == wrap_inc(old(self).components@[k].1.version)
                            && final(self).components@[k].1.changed),
            index + 1 == old(self).entities@.len()
                ==> r is None
                    && (forall|k: int| 0 <= k < old(self).components@.len()
                        ==> (#[trigger] final(self).components@[k]).1.version
                                == old(self).components@[k].1.version
                            && final(self).components@[k].1.changed
                                == old(self).components@[k].1.changed),
            final(self).allocated == (old(self).allocated && old(self).entities@.len() > 1),
    {
        let ghost pre = *self;
        let n = self.entities.len();
        let _removed = self.entities.swap_remove(index);
        let shifted = index < n - 1;
        let r: Option<Entity> = if shifted {
            Some(self.entities[index])
        } else {
            None
        };
        let m = self.components.len();
        let mut k: usize = 0;
        while k < m
            invariant
                m == self.components@.len(),
                m == pre.components@.len(),
                k <= m,
                n == pre.entities@.len(),
                index < n,
                shifted == (index < n - 1),
                self.id == pre.id,
                self.capacity == pre.capacity,
                self.allocated == pre.allocated,
                self.entities@ == pre.entities@
                    .update(index as int, pre.entities@.last()).drop_last(),
                forall|j: int| k <= j < m
                    ==> #[trigger] self.components@[j] == pre.components@[j],
                forall|j: int| 0 <= j < k
                    ==> (#[trigger] self.components@[j]).0 == pre.components@[j].0
                        && self.components@[j].1.element_size
                            == pre.components@[j].1.element_size
                        && self.components@[j].1.data@
                            == pre.components@[j].1.data@
                                .update(index as int, pre.components@[j].1.data@.last())
                                .drop_last()
                        && (shifted ==> self.components@[j].1.version
                                == wrap_inc(pre.components@[j].1.version)
                            && self.components@[j].1.changed)
                        && (!shifted ==> self.components@[j].1.version
                                == pre.components@[j].1.version
                            && self.components@[j].1.changed
                                == pre.components@[j].1.changed),
                forall|j: int| 0 <= j < m
                    ==> (#[trigger] pre.components@[j]).1.data@.len() == n,
            decreases m - k,
        {
            let acc = dict_val_mut(&mut self.components, k);
            let _removed_value = acc.data.swap_remove(index);
            if shifted {
                acc.version = acc.version.wrapping_add(1);
                acc.changed = true;
            }
            k += 1;
        }
        if self.entities.len() == 0 {
            self.allocated = false;
        }
        proof {
            let post = *self;
            assert(dict_sorted(post.components@)) by {
                assert forall|i: int, j: int|
                    0 <= i < j < post.components@.len() implies
                    (#[trigger] post.components@[i]).0 < (#[trigger] post.components@[j]).0 by {
                    assert(post.components@[i].0 == pre.components@[i].0);
                    assert(post.components@[j].0 == pre.components@[j].0);
                }
            }
            assert forall|j: int| 0 <= j < post.components@.len() implies
                (#[trigger] post.components@[j]).1.wf()
                    && post.components@[j].1.data@.len() == post.entities@.len() by {
                let d0 = pre.components@[j].1.data@;
                assert(post.components@[j].1.data@
                    == d0.update(index as int, d0.last()).drop_last());
                assert forall|i: int| 0 <= i < post.components@[j].1.data@.len() implies
                    (#[trigger] post.components@[j].1.data@[i])@.len()
                        == post.components@[j].1.element_size by {
                    assert(pre.components@[j].1.wf());
                    if i == index {
                        assert(post.components@[j].1.data@[i] == d0[n - 1]);
                    } else {
                        assert(post.components@[j].1.data@[i] == d0[i]);
                    }
                }
            }
        }
        let _ = drop_removed;
        r
    }

    /// Moves the entity in slot `index` into `target`, a chunk with the same
    /// column layout, appending it there and swap-removing it here. Returns
    /// the entity swapped into `index`, when one was.
    pub fn move_entity(&mut self, target: &mut ComponentStorage, index: usize) -> (r: Option<Entity>)
        requires
            old(self).wf(),
            old(target).wf(),
            index < old(self).entities@.len(),
            old(target).entities@.len() < old(target).capacity,
            forall|k: int| 0 <= k < old(target).components@.len()
                ==> old(self).has_type((#[trigger] old(target).components@[k]).0)
                    && old(self).size_of(old(target).components@[k].0)
                        == old(target).components@[k].1.element_size,
        ensures
            final(self).wf(),
            final(target).wf(),
            final(self).id == old(self).id,
            final(target).id == old(target).id,
            final(self).capacity == old(self).capacity,
            final(target).capacity == old(target).capacity,
            final(target).allocated,
            final(target).entities@
                == old(target).entities@.push(old(self).entities@[index as int]),
            final(target).components@.len() == old(target).components@.len(),
            forall|k: int| 0 <= k < old(target).components@.len()
                ==> (#[trigger] final(target).components@[k]).0 == old(target).components@[k].0
                    && final(target).components@[k].1.element_size
                        == old(target).components@[k].1.element_size
                    && final(target).components@[k].1.values()
                        == old(target).components@[k].1.values().push(
                            old(self).value_at(old(target).components@[k].0, index as int))
                    && final(target).components@[k].1.version
                        == wrap_inc(old(target).components@[k].1.version)
                    && final(target).components@[k].1.changed,
            final(self).entities@ == old(self).entities@
                .update(index as int, old(self).entities@.last()).drop_last(),
            final(self).components@.len() == old(self).components@.len(),
            forall|k: int| 0 <= k < old(self).components@.len()
                ==> (#[trigger] final(self).components@[k]).0 == old(self).components@[k].0
                    && final(self).components@[k].1.element_size
                        == old(self).components@[k].1.element_size
                    && final(self).components@[k].1.data@
                        == old(self).components@[k].1.data@
                            .update(index as int, old(self).components@[k].1.data@.last())
                            .drop_last(),
            index + 1 < old(self).entities@.len() ==> r == Some(old(self).entities@.last()),
            index + 1 == old(self).entities@.len() ==> r is None,
            final(self).allocated == (old(self).allocated && old(self).entities@.len() > 1),
    {
        let e = self.entities[index];
        // Collect the values of exactly the target's component types, in the
        // target's column order; component types present only in this chunk
        // are dropped with the removed slot.
        let n = target.components.len();
        let mut row: Vec<(u64, Vec<u8>)> = Vec::new();
        let mut k: usize = 0;
        while k < n
            invariant
                self.wf(),
                *self == *old(self),
                index < self.entities@.len(),
                n == target.components@.len(),
                target.components@ == old(target).components@,
                forall|k2: int| 0 <= k2 < n
                    ==> self.has_type((#[trigger] target.components@[k2]).0)
                        && self.size_of(target.components@[k2].0)
                            == target.components@[k2].1.element_size,
                k <= n,
                row@.len() == k,
                forall|k2: int| 0 <= k2 < k
                    ==> (#[trigger] row@[k2]).0 == target.components@[k2].0
                        && row@[k2].1@ == self.value_at(target.components@[k2].0, index as int)
                        && row@[k2].1@.len() == target.components@[k2].1.element_size,
            decreases n - k,
        {
            let t = target.components[k].0;
            let v = match self.component_value(ComponentTypeId(t), index) {
                Some(v) => copy_bytes(v),
                None => {
                    proof {
                        assert(false);
                    }
                    Vec::new()
                }
            };
            proof {
                let ci = dict_idx(self.components@, t);
                lemma_dict_idx(self.components@, t, ci);
                assert(self.components@[ci].1.wf());
            }
            row.push((t, v));
            k += 1;
        }
        let ghost tpre = *old(target);
        let ghost rowv = row@;
        target.push_row(e, row);
        proof {
            assert forall|k2: int| 0 <= k2 < target.components@.len() implies
                (#[trigger] target.components@[k2]).1.values()
                    == tpre.components@[k2].1.values().push(
                        old(self).value_at(tpre.components@[k2].0, index as int)) by {
                assert(target.components@[k2].1.data@
                    == tpre.components@[k2].1.data@.push(rowv[k2].1));
                assert(rowv[k2].1@
                    == old(self).value_at(tpre.components@[k2].0, index as int));
                assert(target.components@[k2].1.values()
                    =~= tpre.components@[k2].1.values().push(rowv[k2].1@));
            }
        }
        self.swap_remove(index, false)
    }
}

} // verus!
