//! Erased type identifiers and metadata for components and tags, and the
//! archetype description built from them.
//!
//! A component or tag type is known to the store only through a numeric
//! identifier and its metadata: the byte size of one value and the alignment
//! the chunk planner must honour. Values themselves travel as byte strings of
//! exactly `size` bytes, so tag equality is bytewise and cloning is a byte
//! copy.

use vstd::prelude::*;

verus! {

/// Target byte budget of one chunk's component data.
pub const MAX_CHUNK_SIZE: usize = 16 * 1024;

/// Alignment floor applied before each component slice in a chunk.
pub const COMPONENT_STORAGE_ALIGNMENT: usize = 64;

/// Bytes taken by one `Entity` handle (two 8-byte fields); the chunk
/// capacity heuristic never divides by less than this.
pub const ENTITY_DATA_SIZE: usize = 16;

/// Identifies a component type.
#[derive(Clone, Copy, PartialEq, Eq, Structural, Debug, Hash)]
pub struct ComponentTypeId(pub u64);

impl ComponentTypeId {
    /// The component type ID with raw value `raw`.
    pub fn of(raw: u64) -> (r: ComponentTypeId)
        ensures
            r.0 == raw,
    {
        ComponentTypeId(raw)
    }
}

/// Identifies a tag type.
#[derive(Clone, Copy, PartialEq, Eq, Structural, Debug, Hash)]
pub struct TagTypeId(pub u64);

impl TagTypeId {
    /// The tag type ID with raw value `raw`.
    pub fn of(raw: u64) -> (r: TagTypeId)
        ensures
            r.0 == raw,
    {
        TagTypeId(raw)
    }
}

/// Metadata describing a component type: the byte size of one value and its
/// alignment requirement.
#[derive(Clone, Copy, PartialEq, Eq, Structural, Debug)]
pub struct ComponentMeta {
    pub size: usize,
    pub align: usize,
}

impl ComponentMeta {
    /// Metadata for a component type of `size` bytes aligned to `align`.
    pub fn of(size: usize, align: usize) -> (r: ComponentMeta)
        requires
            align >= 1,
        ensures
            r.size == size,
            r.align == align,
    {
        ComponentMeta { size, align }
    }
}

/// Metadata describing a tag type. Tag values are compared bytewise and
/// duplicated by byte copy, so size and alignment suffice.
#[derive(Clone, Copy, PartialEq, Eq, Structural, Debug)]
pub struct TagMeta {
    pub size: usize,
    pub align: usize,
}

impl TagMeta {
    /// Metadata for a tag type of `size` bytes aligned to `align`.
    pub fn of(size: usize, align: usize) -> (r: TagMeta)
        requires
            align >= 1,
        ensures
            r.size == size,
            r.align == align,
    {
        TagMeta { size, align }
    }

    /// Bytewise equality of two erased tag values.
    pub fn equals(&self, a: &Vec<u8>, b: &Vec<u8>) -> (r: bool)
        ensures
            r == (a@ == b@),
    {
        bytes_equal(a, b)
    }

    /// Duplicates an erased tag value.
    pub fn clone_value(&self, v: &Vec<u8>) -> (r: Vec<u8>)
        ensures
            r@ == v@,
    {
        copy_bytes(v)
    }

    /// A zero-sized tag stores no bytes per value.
    pub fn is_zero_sized(&self) -> (r: bool)
        ensures
            r == (self.size == 0),
    {
        self.size == 0
    }
}

/// Bytewise equality of two byte strings.
pub fn bytes_equal(a: &Vec<u8>, b: &Vec<u8>) -> (r: bool)
    ensures
        r == (a@ == b@),
{
    if a.len() != b.len() {
        proof {
            assert(a@.len() != b@.len());
        }
        return false;
    }
    let n = a.len();
    let mut i: usize = 0;
    while i < n
        invariant
            n == a@.len(),
            n == b@.len(),
            i <= n,
            forall|k: int| 0 <= k < i ==> a@[k] == b@[k],
        decreases n - i,
    {
        if a[i] != b[i] {
            return false;
        }
        i += 1;
    }
    proof {
        assert(a@ =~= b@);
    }
    true
}

/// A fresh copy of a byte string.
pub fn copy_bytes(v: &Vec<u8>) -> (r: Vec<u8>)
    ensures
        r@ == v@,
{
    let n = v.len();
    let mut r: Vec<u8> = Vec::new();
    let mut i: usize = 0;
    while i < n
        invariant
            n == v@.len(),
            i <= n,
            r@ == v@.subrange(0, i as int),
        decreases n - i,
    {
        r.push(v[i]);
        proof {
            assert(r@ =~= v@.subrange(0, i + 1));
        }
        i += 1;
    }
    proof {
        assert(r@ =~= v@);
    }
    r
}

/// Advances `addr` to the next multiple of `align` (which may be `addr`
/// itself).
pub open spec fn spec_align_up(addr: int, align: int) -> int {
    addr + ((align - addr % align) % align)
}

/// The rounded address is the least multiple of `align` at or above `addr`.
pub proof fn lemma_align_up(addr: int, align: int)
    requires
        addr >= 0,
        align >= 1,
    ensures
        spec_align_up(addr, align) % align == 0,
        addr <= spec_align_up(addr, align) < addr + align,
{
    let r = addr % align;
    vstd::arithmetic::div_mod::lemma_mod_bound(addr, align);
    vstd::arithmetic::div_mod::lemma_fundamental_div_mod(addr, align);
    let q = addr / align;
    if r == 0 {
        assert((align - r) % align == 0) by {
            vstd::arithmetic::div_mod::lemma_mod_self_0(align);
        }
        assert(spec_align_up(addr, align) == addr);
        assert(addr % align == 0);
    } else {
        assert(0 < align - r < align);
        assert((align - r) % align == align - r) by {
            vstd::arithmetic::div_mod::lemma_small_mod((align - r) as nat, align as nat);
        }
        assert(spec_align_up(addr, align) == addr + align - r);
        assert(addr + align - r == (q + 1) * align) by {
            assert(addr == align * q + r);
            assert((q + 1) * align == align * q + align) by (nonlinear_arith);
        }
        assert(((q + 1) * align) % align == 0) by {
            vstd::arithmetic::div_mod::lemma_mod_multiples_basic(q + 1, align);
        }
    }
}

/// Rounds `addr` up to the next multiple of `align`.
pub fn align_up(addr: usize, align: usize) -> (r: usize)
    requires
        align >= 1,
        addr + align - 1 <= usize::MAX,
    ensures
        r == spec_align_up(addr as int, align as int),
        addr <= r < addr + align,
        r % align == 0,
{
    proof {
        lemma_align_up(addr as int, align as int);
    }
    let rem = addr % align;
    if rem == 0 {
        proof {
            vstd::arithmetic::div_mod::lemma_mod_self_0(align as int);
            assert(spec_align_up(addr as int, align as int) == addr);
        }
        addr
    } else {
        proof {
            vstd::arithmetic::div_mod::lemma_small_mod((align - rem) as nat, align as nat);
            assert(spec_align_up(addr as int, align as int) == addr + (align - rem));
        }
        addr + (align - rem)
    }
}

/// The set of component and tag types an archetype stores, with their
/// metadata, in registration order. Registration order fixes the packing
/// order of component slices within a chunk.
pub struct ArchetypeDescription {
    pub tags: Vec<(TagTypeId, TagMeta)>,
    pub components: Vec<(ComponentTypeId, ComponentMeta)>,
}

/// The raw component type ids of a description, in registration order.
pub open spec fn comp_ids(s: Seq<(ComponentTypeId, ComponentMeta)>) -> Seq<u64> {
    s.map_values(|p: (ComponentTypeId, ComponentMeta)| p.0.0)
}

/// The raw tag type ids of a description, in registration order.
pub open spec fn tag_ids(s: Seq<(TagTypeId, TagMeta)>) -> Seq<u64> {
    s.map_values(|p: (TagTypeId, TagMeta)| p.0.0)
}

impl ArchetypeDescription {
    /// A description fit to build an archetype from: no type registered
    /// twice, every alignment at least one.
    pub open spec fn wf(self) -> bool {
        &&& comp_ids(self.components@).no_duplicates()
        &&& tag_ids(self.tags@).no_duplicates()
        &&& forall|i: int| 0 <= i < self.components@.len()
                ==> (#[trigger] self.components@[i]).1.align >= 1
        &&& forall|i: int| 0 <= i < self.tags@.len()
                ==> (#[trigger] self.tags@[i]).1.align >= 1
    }

    /// The registered tags, in registration order.
    pub fn tags(&self) -> (r: &Vec<(TagTypeId, TagMeta)>)
        ensures
            r@ == self.tags@,
    {
        &self.tags
    }

    /// The registered components, in registration order.
    pub fn components(&self) -> (r: &Vec<(ComponentTypeId, ComponentMeta)>)
        ensures
            r@ == self.components@,
    {
        &self.components
    }

    /// Registers a tag type.
    pub fn register_tag_raw(&mut self, type_id: TagTypeId, type_meta: TagMeta)
        ensures
            final(self).tags@ == old(self).tags@.push((type_id, type_meta)),
            final(self).components@ == old(self).components@,
    {
        self.tags.push((type_id, type_meta));
    }

    /// Registers a component type.
    pub fn register_component_raw(&mut self, type_id: ComponentTypeId, type_meta: ComponentMeta)
        ensures
            final(self).components@ == old(self).components@.push((type_id, type_meta)),
            final(self).tags@ == old(self).tags@,
    {
        self.components.push((type_id, type_meta));
    }
}

impl Default for ArchetypeDescription {
    /// An empty description: no tags, no components.
    fn default() -> (d: Self)
        ensures
            d.tags@.len() == 0,
            d.components@.len() == 0,
    {
        ArchetypeDescription { tags: Vec::new(), components: Vec::new() }
    }
}

} // verus!
