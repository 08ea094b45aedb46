use archetype_store::meta::ComponentMeta;
use archetype_store::meta::ComponentTypeId;
use archetype_store::meta::TagMeta;
use archetype_store::meta::TagTypeId;
use archetype_store::world::Universe;
use archetype_store::world::World;

const POS: u64 = 1;
const ROT: u64 = 2;
const SCALE: u64 = 3;
const MODEL: u64 = 10;
const STATIC: u64 = 11;

fn vec3(x: f32, y: f32, z: f32) -> Vec<u8> {
    let mut v = Vec::new();
    v.extend_from_slice(&x.to_le_bytes());
    v.extend_from_slice(&y.to_le_bytes());
    v.extend_from_slice(&z.to_le_bytes());
    v
}

fn model(n: u32) -> Vec<u8> {
    n.to_le_bytes().to_vec()
}

fn vec3_meta() -> ComponentMeta {
    ComponentMeta::of(12, 4)
}

fn model_meta() -> TagMeta {
    TagMeta::of(4, 4)
}

fn static_meta() -> TagMeta {
    TagMeta::of(0, 1)
}

fn pos_rot_types() -> Vec<(ComponentTypeId, ComponentMeta)> {
    vec![
        (ComponentTypeId::of(POS), vec3_meta()),
        (ComponentTypeId::of(ROT), vec3_meta()),
    ]
}

fn static_model_tags() -> Vec<(TagTypeId, TagMeta, Vec<u8>)> {
    vec![
        (TagTypeId::of(STATIC), static_meta(), Vec::new()),
        (TagTypeId::of(MODEL), model_meta(), model(5)),
    ]
}

fn two_pos_rot_rows() -> Vec<Vec<Vec<u8>>> {
    vec![
        vec![vec3(1., 2., 3.), vec3(0.1, 0.2, 0.3)],
        vec![vec3(4., 5., 6.), vec3(0.4, 0.5, 0.6)],
    ]
}

fn create() -> World {
    let mut universe = Universe::new();
    universe.create_world()
}

#[test]
fn create_universe() {
    let _ = Universe::default();
}

#[test]
fn create_world() {
    let mut universe = Universe::new();
    universe.create_world();
}

#[test]
fn insert() {
    let mut world = create();
    let entities = world.insert(static_model_tags(), pos_rot_types(), two_pos_rot_rows());
    assert_eq!(2, entities.len());
    assert_eq!(2, world.entity_allocator.allocation_buffer().len());
}

#[test]
fn get_component() {
    let mut world = create();
    let rows = two_pos_rot_rows();
    let entities = world.insert(static_model_tags(), pos_rot_types(), rows.clone());
    for (i, e) in entities.iter().enumerate() {
        assert_eq!(
            world.get_component(*e, ComponentTypeId::of(POS)),
            Some(&rows[i][0])
        );
        assert_eq!(
            world.get_component(*e, ComponentTypeId::of(ROT)),
            Some(&rows[i][1])
        );
    }
}

#[test]
fn get_component_wrong_type() {
    let mut world = create();
    let entities = world.insert(
        Vec::new(),
        vec![(ComponentTypeId::of(POS), vec3_meta())],
        vec![vec![vec3(0., 0., 0.)]],
    );
    assert!(world.get_component(entities[0], ComponentTypeId::of(SCALE)).is_none());
}

#[test]
fn get_tag() {
    let mut world = create();
    let entities = world.insert(static_model_tags(), pos_rot_types(), two_pos_rot_rows());
    for e in entities.iter() {
        assert_eq!(world.get_tag(*e, TagTypeId::of(STATIC)), Some(&Vec::new()));
        assert_eq!(world.get_tag(*e, TagTypeId::of(MODEL)), Some(&model(5)));
    }
}

#[test]
fn get_tag_wrong_type() {
    let mut world = create();
    let entities = world.insert(
        vec![(TagTypeId::of(STATIC), static_meta(), Vec::new())],
        vec![(ComponentTypeId::of(POS), vec3_meta())],
        vec![vec![vec3(0., 0., 0.)]],
    );
    assert!(world.get_tag(entities[0], TagTypeId::of(MODEL)).is_none());
}

#[test]
fn delete() {
    let mut world = create();
    let entities = world.insert(static_model_tags(), pos_rot_types(), two_pos_rot_rows());
    for e in entities.iter() {
        assert!(world.get_component(*e, ComponentTypeId::of(POS)).is_some());
    }
    for e in entities.iter() {
        world.delete(*e);
        assert!(world.get_component(*e, ComponentTypeId::of(POS)).is_none());
        assert!(!world.is_alive(*e));
    }
}

#[test]
fn delete_last() {
    let mut world = create();
    let rows = two_pos_rot_rows();
    let entities = world.insert(static_model_tags(), pos_rot_types(), rows.clone());
    let last = *entities.last().unwrap();
    assert!(world.delete(last));
    for (i, e) in entities.iter().take(entities.len() - 1).enumerate() {
        assert_eq!(
            world.get_component(*e, ComponentTypeId::of(POS)),
            Some(&rows[i][0])
        );
        assert_eq!(
            world.get_component(*e, ComponentTypeId::of(ROT)),
            Some(&rows[i][1])
        );
    }
}

#[test]
fn delete_first() {
    let mut world = create();
    let rows = two_pos_rot_rows();
    let entities = world.insert(static_model_tags(), pos_rot_types(), rows.clone());
    let first = entities[0];
    assert!(world.delete(first));
    assert!(!world.delete(first));
    for (i, e) in entities.iter().skip(1).enumerate() {
        assert_eq!(
            world.get_component(*e, ComponentTypeId::of(POS)),
            Some(&rows[i + 1][0])
        );
        assert_eq!(
            world.get_component(*e, ComponentTypeId::of(ROT)),
            Some(&rows[i + 1][1])
        );
    }
}

#[test]
fn add_component() {
    let mut world = create();
    let rows = two_pos_rot_rows();
    let entities = world.insert(
        vec![(TagTypeId::of(STATIC), static_meta(), Vec::new())],
        pos_rot_types(),
        rows.clone(),
    );
    for (i, e) in entities.iter().enumerate() {
        world.add_component(*e, ComponentTypeId::of(SCALE), vec3_meta(), vec3(2., 2., 2.));
        assert_eq!(
            world.get_component(*e, ComponentTypeId::of(POS)),
            Some(&rows[i][0])
        );
        assert_eq!(
            world.get_component(*e, ComponentTypeId::of(ROT)),
            Some(&rows[i][1])
        );
        assert_eq!(
            world.get_component(*e, ComponentTypeId::of(SCALE)),
            Some(&vec3(2., 2., 2.))
        );
        assert_eq!(world.get_tag(*e, TagTypeId::of(STATIC)), Some(&Vec::new()));
    }
}

#[test]
fn remove_component() {
    let mut world = create();
    let rows = two_pos_rot_rows();
    let entities = world.insert(
        vec![(TagTypeId::of(STATIC), static_meta(), Vec::new())],
        pos_rot_types(),
        rows.clone(),
    );
    for (i, e) in entities.iter().enumerate() {
        world.remove_component(*e, ComponentTypeId::of(ROT));
        assert_eq!(
            world.get_component(*e, ComponentTypeId::of(POS)),
            Some(&rows[i][0])
        );
        assert!(world.get_component(*e, ComponentTypeId::of(ROT)).is_none());
    }
}

#[test]
fn add_tag() {
    let mut world = create();
    let rows = two_pos_rot_rows();
    let entities = world.insert(
        vec![(TagTypeId::of(STATIC), static_meta(), Vec::new())],
        pos_rot_types(),
        rows.clone(),
    );
    for (i, e) in entities.iter().enumerate() {
        world.add_tag(*e, TagTypeId::of(MODEL), model_meta(), model(2));
        assert_eq!(
            world.get_component(*e, ComponentTypeId::of(POS)),
            Some(&rows[i][0])
        );
        assert_eq!(
            world.get_component(*e, ComponentTypeId::of(ROT)),
            Some(&rows[i][1])
        );
        assert_eq!(world.get_tag(*e, TagTypeId::of(STATIC)), Some(&Vec::new()));
        assert_eq!(world.get_tag(*e, TagTypeId::of(MODEL)), Some(&model(2)));
    }
}

#[test]
fn remove_tag() {
    let mut world = create();
    let rows = two_pos_rot_rows();
    let entities = world.insert(
        vec![(TagTypeId::of(STATIC), static_meta(), Vec::new())],
        pos_rot_types(),
        rows.clone(),
    );
    for (i, e) in entities.iter().enumerate() {
        world.remove_tag(*e, TagTypeId::of(STATIC));
        assert_eq!(
            world.get_component(*e, ComponentTypeId::of(POS)),
            Some(&rows[i][0])
        );
        assert_eq!(
            world.get_component(*e, ComponentTypeId::of(ROT)),
            Some(&rows[i][1])
        );
        assert!(world.get_tag(*e, TagTypeId::of(STATIC)).is_none());
    }
}

#[test]
fn add_tag_reuses_matching_chunk_set() {
    // Adding a tag value that another chunk-set already carries must not
    // create a new chunk-set for the archetype.
    let mut world = create();
    let e1 = world.insert(
        vec![(TagTypeId::of(MODEL), model_meta(), model(7))],
        vec![(ComponentTypeId::of(POS), vec3_meta())],
        vec![vec![vec3(1., 1., 1.)]],
    )[0];
    let e2 = world.insert(
        Vec::new(),
        vec![(ComponentTypeId::of(POS), vec3_meta())],
        vec![vec![vec3(2., 2., 2.)]],
    )[0];
    // Moving e2 under Model(7) lands it in e1's archetype and chunk-set.
    world.add_tag(e2, TagTypeId::of(MODEL), model_meta(), model(7));
    let arch_count = world.storage.archetypes.len();
    let sets_before: usize = world.storage.archetypes.iter().map(|a| a.chunk_sets.len()).sum();
    world.add_tag(e1, TagTypeId::of(MODEL), model_meta(), model(7));
    assert_eq!(world.storage.archetypes.len(), arch_count);
    let sets_after: usize = world.storage.archetypes.iter().map(|a| a.chunk_sets.len()).sum();
    assert_eq!(sets_before, sets_after);
    assert_eq!(world.get_tag(e1, TagTypeId::of(MODEL)), Some(&model(7)));
    assert_eq!(world.get_tag(e2, TagTypeId::of(MODEL)), Some(&model(7)));
}

#[test]
fn overwrite_component_in_place() {
    let mut world = create();
    let entities = world.insert(
        Vec::new(),
        vec![(ComponentTypeId::of(POS), vec3_meta())],
        vec![vec![vec3(1., 2., 3.)]],
    );
    let e = entities[0];
    world.add_component(e, ComponentTypeId::of(POS), vec3_meta(), vec3(9., 9., 9.));
    assert_eq!(world.get_component(e, ComponentTypeId::of(POS)), Some(&vec3(9., 9., 9.)));
}

#[test]
fn change_tracking() {
    let mut world = create();
    let entities = world.insert(
        Vec::new(),
        vec![(ComponentTypeId::of(POS), vec3_meta())],
        vec![vec![vec3(1., 2., 3.)]],
    );
    let e = entities[0];
    // The insert itself marks the column changed; read and clear.
    let seen = world.get_component_changed(e, ComponentTypeId::of(POS), true);
    assert_eq!(seen, Some(vec3(1., 2., 3.)));
    // Cleared: no change to report.
    assert!(world.get_component_changed(e, ComponentTypeId::of(POS), true).is_none());
    // A write sets the flag again.
    assert!(world.get_component_mut(e, ComponentTypeId::of(POS), vec3(4., 4., 4.)));
    assert_eq!(
        world.get_component_changed(e, ComponentTypeId::of(POS), false),
        Some(vec3(4., 4., 4.))
    );
    // A wrong-sized write is rejected and changes nothing.
    assert!(!world.get_component_mut(e, ComponentTypeId::of(POS), vec![1, 2]));
    assert_eq!(world.get_component(e, ComponentTypeId::of(POS)), Some(&vec3(4., 4., 4.)));
}

#[test]
fn defrag_packs_occupied_prefix() {
    let mut world = create();
    let types = vec![(ComponentTypeId::of(POS), vec3_meta())];
    // Chunk capacity for this archetype is 1024; fill three chunks.
    let total = 3 * 1024;
    let mut rows = Vec::new();
    for i in 0..total {
        rows.push(vec![vec3(i as f32, 0., 0.)]);
    }
    let entities = world.insert(Vec::new(), types, rows.clone());
    // Delete every third entity, then compact with a bounded budget.
    for (i, e) in entities.iter().enumerate() {
        if i % 3 == 0 {
            world.delete(*e);
        }
    }
    for _ in 0..16 {
        world.defrag(Some(512));
    }
    // Every survivor still reads back its original value.
    for (i, e) in entities.iter().enumerate() {
        if i % 3 == 0 {
            assert!(world.get_component(*e, ComponentTypeId::of(POS)).is_none());
        } else {
            assert_eq!(
                world.get_component(*e, ComponentTypeId::of(POS)),
                Some(&rows[i][0])
            );
        }
    }
    // The occupied chunks form a packed prefix: in each chunk-set, every
    // chunk before a non-empty chunk is full.
    for arch in world.storage.archetypes.iter() {
        for set in arch.chunk_sets.iter() {
            assert!(set.is_compact());
        }
    }
}

#[test]
fn lazy_alloc_through_world() {
    let mut world = create();
    let entities = world.insert(
        Vec::new(),
        vec![(ComponentTypeId::of(POS), vec3_meta())],
        vec![vec![vec3(1., 2., 3.)]],
    );
    // The one chunk holding the entity is allocated; deleting its only
    // entity releases the backing store.
    assert!(world.storage.archetypes[0].chunk_sets[0].chunks[0].is_allocated());
    world.delete(entities[0]);
    assert!(!world.storage.archetypes[0].chunk_sets[0].chunks[0].is_allocated());
}

#[test]
fn index_reuse_bumps_generation() {
    let mut world = create();
    let types = vec![(ComponentTypeId::of(POS), vec3_meta())];
    let e1 = world.insert(Vec::new(), types.clone(), vec![vec![vec3(1., 0., 0.)]])[0];
    world.delete(e1);
    let e2 = world.insert(Vec::new(), types, vec![vec![vec3(2., 0., 0.)]])[0];
    assert_eq!(e1.index(), e2.index());
    assert_ne!(e1.generation(), e2.generation());
    assert!(!world.is_alive(e1));
    assert!(world.is_alive(e2));
    assert!(world.get_component(e1, ComponentTypeId::of(POS)).is_none());
    assert_eq!(world.get_component(e2, ComponentTypeId::of(POS)), Some(&vec3(2., 0., 0.)));
}

#[test]
fn worlds_get_disjoint_entities() {
    let mut universe = Universe::new();
    let mut w1 = universe.create_world();
    let mut w2 = universe.create_world();
    let types = vec![(ComponentTypeId::of(POS), vec3_meta())];
    let e1 = w1.insert(Vec::new(), types.clone(), vec![vec![vec3(1., 0., 0.)]])[0];
    let e2 = w2.insert(Vec::new(), types, vec![vec![vec3(2., 0., 0.)]])[0];
    assert_ne!(e1, e2);
    assert!(w1.is_alive(e1));
    assert!(!w1.is_alive(e2));
    assert!(w2.is_alive(e2));
    assert!(!w2.is_alive(e1));
}

#[test]
fn merge_worlds() {
    let mut universe = Universe::new();
    let mut w1 = universe.create_world();
    let mut w2 = universe.create_world();
    let e1 = w1.insert(
        static_model_tags(),
        pos_rot_types(),
        vec![vec![vec3(1., 2., 3.), vec3(0.1, 0.2, 0.3)]],
    )[0];
    let e2 = w2.insert(
        vec![(TagTypeId::of(MODEL), model_meta(), model(9))],
        vec![(ComponentTypeId::of(POS), vec3_meta())],
        vec![vec![vec3(7., 8., 9.)]],
    )[0];
    w1.merge(w2);
    // Every original entity remains readable from the merged world with the
    // same components and tags.
    assert_eq!(w1.get_component(e1, ComponentTypeId::of(POS)), Some(&vec3(1., 2., 3.)));
    assert_eq!(w1.get_component(e1, ComponentTypeId::of(ROT)), Some(&vec3(0.1, 0.2, 0.3)));
    assert_eq!(w1.get_tag(e1, TagTypeId::of(MODEL)), Some(&model(5)));
    assert_eq!(w1.get_component(e2, ComponentTypeId::of(POS)), Some(&vec3(7., 8., 9.)));
    assert_eq!(w1.get_tag(e2, TagTypeId::of(MODEL)), Some(&model(9)));
    assert!(w1.is_alive(e1) && w1.is_alive(e2));
}

#[test]
fn change_tracked_write() {
    let mut world = create();
    let e = world.insert(
        Vec::new(),
        vec![(ComponentTypeId::of(POS), vec3_meta())],
        vec![vec![vec3(1., 1., 1.)]],
    )[0];
    // The column is marked changed by the insert, so the gated write fires
    // and clears the flag.
    assert!(world.get_component_changed_mut(e, ComponentTypeId::of(POS), vec3(2., 2., 2.), true));
    assert_eq!(world.get_component(e, ComponentTypeId::of(POS)), Some(&vec3(2., 2., 2.)));
    // Flag cleared: the gated write refuses and changes nothing.
    assert!(!world.get_component_changed_mut(e, ComponentTypeId::of(POS), vec3(3., 3., 3.), true));
    assert_eq!(world.get_component(e, ComponentTypeId::of(POS)), Some(&vec3(2., 2., 2.)));
}

#[test]
fn defrag_reports_moves() {
    let mut world = create();
    let types = vec![(ComponentTypeId::of(POS), vec3_meta())];
    let mut rows = Vec::new();
    for i in 0..2048 {
        rows.push(vec![vec3(i as f32, 0., 0.)]);
    }
    let entities = world.insert(Vec::new(), types, rows);
    for (i, e) in entities.iter().enumerate() {
        if i % 2 == 0 {
            world.delete(*e);
        }
    }
    // A bounded call moves at most its budget; an unbounded call finishes
    // the compaction.
    let first = world.defrag(Some(100));
    assert!(first <= 100);
    let rest = world.defrag(None);
    for arch in world.storage.archetypes.iter() {
        for set in arch.chunk_sets.iter() {
            assert!(set.is_compact());
        }
    }
    let after = world.defrag(Some(1000));
    assert_eq!(after, 0);
    assert!(first + rest >= 1);
}

#[test]
fn remove_on_dead_entity_is_noop() {
    let mut world = create();
    let e = world.insert(
        vec![(TagTypeId::of(STATIC), static_meta(), Vec::new())],
        vec![(ComponentTypeId::of(POS), vec3_meta())],
        vec![vec![vec3(1., 2., 3.)]],
    )[0];
    world.delete(e);
    world.remove_component(e, ComponentTypeId::of(POS));
    world.remove_tag(e, TagTypeId::of(STATIC));
    assert!(!world.is_alive(e));
}
