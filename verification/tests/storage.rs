use archetype_store::archetype::ArchetypeData;
use archetype_store::entity::Entity;
use archetype_store::meta::ArchetypeDescription;
use archetype_store::meta::ComponentMeta;
use archetype_store::meta::ComponentTypeId;
use archetype_store::meta::TagMeta;
use archetype_store::meta::TagTypeId;
use archetype_store::storage::Storage;
use archetype_store::world::WorldId;

const TAG_USIZE: u64 = 1;
const TAG_ISIZE: u64 = 2;
const TAG_ZERO: u64 = 3;
const COMP_ISIZE: u64 = 11;
const COMP_USIZE: u64 = 12;
const COMP_ZERO: u64 = 13;

fn word(v: i64) -> Vec<u8> {
    v.to_le_bytes().to_vec()
}

fn tag_usize_meta() -> TagMeta {
    TagMeta::of(8, 8)
}

fn tag_zero_meta() -> TagMeta {
    TagMeta::of(0, 1)
}

fn comp_word_meta() -> ComponentMeta {
    ComponentMeta::of(8, 8)
}

fn comp_zero_meta() -> ComponentMeta {
    ComponentMeta::of(0, 1)
}

fn storage_with(desc: ArchetypeDescription) -> Storage {
    let mut storage = Storage::new(WorldId(0));
    storage.alloc_archetype(desc);
    storage
}

fn arch(storage: &mut Storage) -> &mut ArchetypeData {
    &mut storage.archetypes[0]
}

#[test]
pub fn create() {
    let mut desc = ArchetypeDescription::default();
    desc.register_tag_raw(TagTypeId::of(TAG_USIZE), tag_usize_meta());
    desc.register_component_raw(ComponentTypeId::of(COMP_ISIZE), comp_word_meta());
    let mut storage = storage_with(desc);
    let data = arch(&mut storage);

    let set = data.alloc_chunk_set(&vec![(TAG_USIZE, word(1))]);
    let chunk_index = data.get_free_chunk(set);
    let chunk = &mut data.chunk_sets[set].chunks[chunk_index];
    chunk.push_row(Entity::new(1, 0), vec![(COMP_ISIZE, word(1))]);
    assert_eq!(chunk.len(), 1);
}

#[test]
pub fn create_lazy_allocated() {
    let mut desc = ArchetypeDescription::default();
    desc.register_tag_raw(TagTypeId::of(TAG_USIZE), tag_usize_meta());
    desc.register_component_raw(ComponentTypeId::of(COMP_ISIZE), comp_word_meta());
    let mut storage = storage_with(desc);
    let data = arch(&mut storage);

    let set = data.alloc_chunk_set(&vec![(TAG_USIZE, word(1))]);
    let chunk_index = data.get_free_chunk(set);
    let chunk = &mut data.chunk_sets[set].chunks[chunk_index];

    assert!(!chunk.is_allocated());
    chunk.write();
    assert!(chunk.is_allocated());
}

#[test]
pub fn create_free_when_empty() {
    let mut desc = ArchetypeDescription::default();
    desc.register_tag_raw(TagTypeId::of(TAG_USIZE), tag_usize_meta());
    desc.register_component_raw(ComponentTypeId::of(COMP_ISIZE), comp_word_meta());
    let mut storage = storage_with(desc);
    let data = arch(&mut storage);

    let set = data.alloc_chunk_set(&vec![(TAG_USIZE, word(1))]);
    let chunk_index = data.get_free_chunk(set);
    let chunk = &mut data.chunk_sets[set].chunks[chunk_index];

    assert!(!chunk.is_allocated());
    chunk.push_row(Entity::new(1, 0), vec![(COMP_ISIZE, word(1))]);
    assert!(chunk.is_allocated());
    chunk.swap_remove(0, true);
    assert!(!chunk.is_allocated());
}

#[test]
pub fn read_components() {
    let mut desc = ArchetypeDescription::default();
    desc.register_component_raw(ComponentTypeId::of(COMP_ISIZE), comp_word_meta());
    desc.register_component_raw(ComponentTypeId::of(COMP_USIZE), comp_word_meta());
    desc.register_component_raw(ComponentTypeId::of(COMP_ZERO), comp_zero_meta());
    let mut storage = storage_with(desc);
    let data = arch(&mut storage);

    let set = data.alloc_chunk_set(&Vec::new());
    let chunk_index = data.get_free_chunk(set);
    let chunk = &mut data.chunk_sets[set].chunks[chunk_index];

    let entities = [
        (Entity::new(1, 0), 1i64, 1i64),
        (Entity::new(2, 0), 2i64, 2i64),
        (Entity::new(3, 0), 3i64, 3i64),
    ];
    for (entity, c1, c2) in entities.iter() {
        chunk.push_row(*entity, vec![
            (COMP_ISIZE, word(*c1)),
            (COMP_USIZE, word(*c2)),
            (COMP_ZERO, Vec::new()),
        ]);
    }

    let slice1 = chunk
        .components(ComponentTypeId::of(COMP_ISIZE))
        .unwrap()
        .data_slice();
    for (i, c) in slice1.iter().enumerate() {
        assert_eq!(&word(entities[i].1), c);
    }
    let slice2 = chunk
        .components(ComponentTypeId::of(COMP_USIZE))
        .unwrap()
        .data_slice();
    for (i, c) in slice2.iter().enumerate() {
        assert_eq!(&word(entities[i].2), c);
    }
    let slice3 = chunk
        .components(ComponentTypeId::of(COMP_ZERO))
        .unwrap()
        .data_slice();
    assert_eq!(slice3.len(), 3);
    for c in slice3.iter() {
        assert!(c.is_empty());
    }
}

#[test]
pub fn read_tags() {
    let mut desc = ArchetypeDescription::default();
    desc.register_tag_raw(TagTypeId::of(TAG_ISIZE), tag_usize_meta());
    desc.register_tag_raw(TagTypeId::of(TAG_ZERO), tag_zero_meta());
    let mut storage = storage_with(desc);
    let data = arch(&mut storage);

    let tag_values = [0i64, 1i64, 2i64];
    for t1 in tag_values.iter() {
        data.alloc_chunk_set(&vec![(TAG_ISIZE, word(*t1)), (TAG_ZERO, Vec::new())]);
    }

    let tags1 = data.tags().get(TagTypeId::of(TAG_ISIZE)).unwrap().data_slice();
    assert_eq!(tags1.len(), tag_values.len());
    for (i, t) in tags1.iter().enumerate() {
        assert_eq!(&word(tag_values[i]), t);
    }

    let tags2 = data.tags().get(TagTypeId::of(TAG_ZERO)).unwrap().data_slice();
    assert_eq!(tags2.len(), tag_values.len());
    for t in tags2.iter() {
        assert!(t.is_empty());
    }
}

#[test]
pub fn create_zero_size_tags() {
    let mut desc = ArchetypeDescription::default();
    desc.register_tag_raw(TagTypeId::of(TAG_ZERO), tag_zero_meta());
    desc.register_component_raw(ComponentTypeId::of(COMP_ISIZE), comp_word_meta());
    let mut storage = storage_with(desc);
    let data = arch(&mut storage);

    let set = data.alloc_chunk_set(&vec![(TAG_ZERO, Vec::new())]);
    let chunk_index = data.get_free_chunk(set);
    let chunk = &mut data.chunk_sets[set].chunks[chunk_index];
    chunk.push_row(Entity::new(1, 0), vec![(COMP_ISIZE, word(1))]);
    assert_eq!(chunk.len(), 1);
}

#[test]
pub fn create_zero_size_components() {
    let mut desc = ArchetypeDescription::default();
    desc.register_tag_raw(TagTypeId::of(TAG_USIZE), tag_usize_meta());
    desc.register_component_raw(ComponentTypeId::of(COMP_ZERO), comp_zero_meta());
    let mut storage = storage_with(desc);
    let data = arch(&mut storage);

    let set = data.alloc_chunk_set(&vec![(TAG_USIZE, word(1))]);
    let chunk_index = data.get_free_chunk(set);
    let chunk = &mut data.chunk_sets[set].chunks[chunk_index];
    chunk.push_row(Entity::new(1, 0), vec![(COMP_ZERO, Vec::new())]);
    assert_eq!(chunk.len(), 1);
}

#[test]
pub fn chunk_capacity_heuristic() {
    // One 8-byte component: the divisor is the entity handle's 16 bytes, so
    // a chunk holds 16 KiB / 16 = 1024 entities.
    let mut desc = ArchetypeDescription::default();
    desc.register_component_raw(ComponentTypeId::of(COMP_ISIZE), comp_word_meta());
    let mut storage = storage_with(desc);
    let data = arch(&mut storage);
    let set = data.alloc_chunk_set(&Vec::new());
    let chunk_index = data.get_free_chunk(set);
    let chunk = &data.chunk_sets[set].chunks[chunk_index];
    assert_eq!(chunk.capacity(), 1024);

    // A component larger than the whole chunk budget still gets capacity 1.
    let mut desc2 = ArchetypeDescription::default();
    desc2.register_component_raw(ComponentTypeId::of(COMP_USIZE), ComponentMeta::of(32768, 8));
    let mut storage2 = storage_with(desc2);
    let data2 = arch(&mut storage2);
    let set2 = data2.alloc_chunk_set(&Vec::new());
    let ci2 = data2.get_free_chunk(set2);
    assert_eq!(data2.chunk_sets[set2].chunks[ci2].capacity(), 1);
}

#[test]
pub fn align_up_rounds_to_multiples() {
    assert_eq!(archetype_store::meta::align_up(0, 64), 0);
    assert_eq!(archetype_store::meta::align_up(1, 64), 64);
    assert_eq!(archetype_store::meta::align_up(64, 64), 64);
    assert_eq!(archetype_store::meta::align_up(65, 16), 80);
}
