//! Behaviour tests for `EntityId` and `GenerationalArena`, including their
//! serialized form.

use std::collections::BTreeSet;

use crpg_core::entity::{
    ArenaRepr, Slot, DEFECT_FREE_INDEX_RANGE, DEFECT_GENERATION_ZERO, DEFECT_OCCUPIED_BUT_FREE,
    DEFECT_RETIRED_BUT_FREE, DEFECT_SLOT_COUNT, DEFECT_VACANT_NOT_FREE, FIRST_GENERATION,
    ID_GENERATION_RETIRED, ID_GENERATION_ZERO,
};
use crpg_core::{CoreError, EntityId, GenerationalArena};
use serde_json::Value;

/// The JSON form of an arena: `{"slots":[{"generation":g,"value":v}],"free":[..]}`.
fn arena_to_json(arena: &GenerationalArena<u32>) -> String {
    let repr = arena.clone().into_repr();
    let slots: Vec<Value> = repr
        .slots
        .iter()
        .map(|slot| {
            let mut object = serde_json::Map::new();
            object.insert("generation".to_string(), Value::from(slot.generation));
            let value = match slot.value {
                Some(v) => Value::from(v),
                None => Value::Null,
            };
            object.insert("value".to_string(), value);
            Value::Object(object)
        })
        .collect();
    let free: Vec<Value> = repr.free.iter().map(|&k| Value::from(k)).collect();
    let mut object = serde_json::Map::new();
    object.insert("slots".to_string(), Value::Array(slots));
    object.insert("free".to_string(), Value::Array(free));
    serde_json::to_string(&Value::Object(object)).expect("serialize")
}

/// Loads an arena from its JSON form.
fn arena_from_json(json: &str) -> Result<GenerationalArena<u32>, CoreError> {
    let value: Value = serde_json::from_str(json).expect("well-formed json");
    let slots: Vec<Slot<u32>> = value["slots"]
        .as_array()
        .expect("slots")
        .iter()
        .map(|slot| Slot {
            generation: u32::try_from(slot["generation"].as_u64().expect("generation"))
                .expect("u32 generation"),
            value: slot["value"]
                .as_u64()
                .map(|v| u32::try_from(v).expect("u32 value")),
        })
        .collect();
    let free: BTreeSet<u32> = value["free"]
        .as_array()
        .expect("free")
        .iter()
        .map(|k| u32::try_from(k.as_u64().expect("index")).expect("u32 index"))
        .collect();
    GenerationalArena::try_from_repr(ArenaRepr { slots, free })
}

/// The JSON form of an id: `{"index":i,"generation":g}`.
fn id_to_json(id: EntityId) -> String {
    let mut object = serde_json::Map::new();
    object.insert("index".to_string(), Value::from(id.index()));
    object.insert("generation".to_string(), Value::from(id.generation()));
    serde_json::to_string(&Value::Object(object)).expect("serialize")
}

/// Loads an id from its JSON form.
fn id_from_json(json: &str) -> Result<EntityId, CoreError> {
    let value: Value = serde_json::from_str(json).expect("well-formed json");
    let index = u32::try_from(value["index"].as_u64().expect("index")).expect("u32");
    let generation = u32::try_from(value["generation"].as_u64().expect("generation")).expect("u32");
    EntityId::try_from_parts(index, generation)
}

#[test]
fn exhausted_generation_retires_the_slot_instead_of_wrapping() {
    let mut arena = GenerationalArena::new();
    let filler = arena.insert("filler");
    let doomed = arena.insert("doomed");
    let doomed = arena.force_generation(doomed, u32::MAX);

    assert_eq!(arena.remove(doomed), Some("doomed"));

    // Not wrapped to 0, and not handed back to the free list.
    assert_eq!(arena.slots()[doomed.index() as usize].generation, u32::MAX);
    assert!(arena.free_slots().is_empty());
    assert!(!arena.contains(doomed));

    // The next insert appends rather than reusing the retired slot.
    let next = arena.insert("next");
    assert_ne!(next.index(), doomed.index());
    assert_eq!(next.index(), 2);
    assert_eq!(next.generation(), FIRST_GENERATION);
    assert_eq!(arena.len(), 2);
    assert!(arena.contains(filler));

    // Retirement is permanent: a further remove does not resurrect it.
    assert_eq!(arena.remove(doomed), None);
    assert!(arena.free_slots().is_empty());
}

#[test]
fn clear_retires_an_exhausted_slot() {
    let mut arena = GenerationalArena::new();
    let doomed = arena.insert(1u32);
    let doomed = arena.force_generation(doomed, u32::MAX);
    let ordinary = arena.insert(2u32);

    arena.clear();

    assert!(arena.is_empty());
    assert!(!arena.contains(doomed));
    assert!(!arena.contains(ordinary));
    // Only the ordinary slot came back.
    assert_eq!(arena.free_slots().iter().copied().collect::<Vec<_>>(), vec![1]);
    assert_eq!(arena.slots()[0].generation, u32::MAX);
}

#[test]
fn retired_slot_round_trips() {
    let mut arena = GenerationalArena::new();
    let doomed = arena.insert(7u32);
    let doomed = arena.force_generation(doomed, u32::MAX);
    arena.remove(doomed);

    let json = arena_to_json(&arena);
    let back = arena_from_json(&json).expect("deserialize");

    assert_eq!(back, arena);
    assert!(back.free_slots().is_empty());
    assert_eq!(back.slots()[0].generation, u32::MAX);
}

#[test]
fn deserialization_rejects_an_inconsistent_arena() {
    // Sanity: a consistent arena loads.
    let ok = arena_from_json(r#"{"slots":[{"generation":1,"value":5}],"free":[]}"#)
        .expect("valid arena");
    assert_eq!(ok.len(), 1);

    assert_eq!(
        arena_from_json(r#"{"slots":[{"generation":1,"value":null}],"free":[1]}"#),
        Err(CoreError::CorruptArena(DEFECT_FREE_INDEX_RANGE))
    );
    assert_eq!(
        arena_from_json(r#"{"slots":[{"generation":0,"value":5}],"free":[]}"#),
        Err(CoreError::CorruptArena(DEFECT_GENERATION_ZERO))
    );
    assert_eq!(
        arena_from_json(r#"{"slots":[{"generation":1,"value":5}],"free":[0]}"#),
        Err(CoreError::CorruptArena(DEFECT_OCCUPIED_BUT_FREE))
    );
    assert_eq!(
        arena_from_json(r#"{"slots":[{"generation":2,"value":null}],"free":[]}"#),
        Err(CoreError::CorruptArena(DEFECT_VACANT_NOT_FREE))
    );
    assert_eq!(
        arena_from_json(r#"{"slots":[{"generation":4294967295,"value":null}],"free":[0]}"#),
        Err(CoreError::CorruptArena(DEFECT_RETIRED_BUT_FREE))
    );
}

#[test]
fn a_new_arena_is_empty() {
    let arena: GenerationalArena<u32> = GenerationalArena::new();
    assert_eq!(arena.len(), 0);
    assert!(arena.is_empty());
    assert_eq!(arena.iter().count(), 0);
    assert_eq!(arena.ids().count(), 0);
    assert_eq!(arena, GenerationalArena::default());
    assert_eq!(arena, GenerationalArena::with_capacity(16));
}

#[test]
fn generations_start_at_one() {
    let mut arena = GenerationalArena::new();
    let id = arena.insert("first");
    assert_eq!(id.index(), 0);
    assert_eq!(id.generation(), 1);
}

#[test]
fn insert_appends_when_nothing_is_free() {
    let mut arena = GenerationalArena::new();
    let ids: Vec<EntityId> = (0..4).map(|n| arena.insert(n)).collect();
    let indices: Vec<u32> = ids.iter().map(|id| id.index()).collect();
    assert_eq!(indices, vec![0, 1, 2, 3]);
    assert!(ids.iter().all(|id| id.generation() == 1));
    assert_eq!(arena.len(), 4);
}

#[test]
fn insert_reuses_the_lowest_free_index_not_the_most_recent() {
    let mut arena = GenerationalArena::new();
    let a = arena.insert(0);
    let b = arena.insert(1);
    let c = arena.insert(2);

    // Free them out of order: highest index first.
    assert_eq!(arena.remove(c), Some(2));
    assert_eq!(arena.remove(a), Some(0));
    assert_eq!(arena.remove(b), Some(1));

    let x = arena.insert(10);
    let y = arena.insert(11);
    let z = arena.insert(12);
    assert_eq!(
        vec![x.index(), y.index(), z.index()],
        vec![0, 1, 2],
        "reuse order must be lowest-index, independent of free order"
    );
    // Each reused slot advanced one generation.
    assert!([x, y, z].iter().all(|id| id.generation() == 2));
}

#[test]
fn reuse_order_does_not_depend_on_free_order() {
    let mut ascending = GenerationalArena::new();
    let mut descending = GenerationalArena::new();
    let a_ids: Vec<EntityId> = (0..5).map(|n| ascending.insert(n)).collect();
    let d_ids: Vec<EntityId> = (0..5).map(|n| descending.insert(n)).collect();

    for &i in &[1usize, 3, 4] {
        ascending.remove(a_ids[i]);
    }
    for &i in &[4usize, 3, 1] {
        descending.remove(d_ids[i]);
    }

    assert_eq!(ascending, descending);
    for _ in 0..3 {
        assert_eq!(ascending.insert(99), descending.insert(99));
    }
    assert_eq!(ascending, descending);
}

#[test]
fn a_stale_id_never_resolves_against_the_reissued_slot() {
    let mut arena = GenerationalArena::new();
    let old = arena.insert("old");
    assert_eq!(arena.remove(old), Some("old"));

    let new = arena.insert("new");
    assert_eq!(new.index(), old.index());
    assert_ne!(new, old);
    assert_eq!(arena.get(old), None);
    assert_eq!(arena.get(new), Some(&"new"));
    assert!(!arena.contains(old));
    assert!(arena.contains(new));
    assert_eq!(arena.remove(old), None);
    assert_eq!(arena.len(), 1);
}

#[test]
fn an_id_from_another_arena_does_not_resolve() {
    let mut a = GenerationalArena::new();
    let mut b = GenerationalArena::new();
    let _ = a.insert("a0");
    let foreign = b.insert("b0");

    let mut small: GenerationalArena<&str> = GenerationalArena::new();
    assert_eq!(small.get(foreign), None);
    assert_eq!(small.get_mut(foreign), None);
    assert_eq!(small.remove(foreign), None);
    assert!(!small.contains(foreign));
    let _: EntityId = small.insert("only");
}

#[test]
fn get_mut_mutates_in_place() {
    let mut arena = GenerationalArena::new();
    let id = arena.insert(1u32);
    *arena.get_mut(id).expect("live") += 41;
    assert_eq!(arena.get(id), Some(&42));

    for (_, value) in arena.iter_mut() {
        *value *= 2;
    }
    assert_eq!(arena.get(id), Some(&84));
}

#[test]
fn clear_empties_the_arena_and_kills_outstanding_ids() {
    let mut arena = GenerationalArena::new();
    let ids: Vec<EntityId> = (0..3).map(|n| arena.insert(n)).collect();

    arena.clear();

    assert!(arena.is_empty());
    assert_eq!(arena.len(), 0);
    assert_eq!(arena.iter().count(), 0);
    for &id in &ids {
        assert!(!arena.contains(id));
        assert_eq!(arena.get(id), None);
        assert_eq!(arena.remove(id), None);
    }

    // Slots are recycled lowest-first, with advanced generations.
    let reused = arena.insert(9);
    assert_eq!(reused.index(), 0);
    assert_eq!(reused.generation(), 2);
}

#[test]
fn clear_on_an_empty_arena_is_a_no_op() {
    let mut arena: GenerationalArena<u32> = GenerationalArena::new();
    arena.clear();
    assert!(arena.is_empty());
    assert_eq!(arena, GenerationalArena::new());
}

#[test]
fn iteration_skips_holes_and_stays_ascending() {
    let mut arena = GenerationalArena::new();
    let ids: Vec<EntityId> = (0..5).map(|n| arena.insert(n)).collect();
    arena.remove(ids[1]);
    arena.remove(ids[3]);

    let seen: Vec<(u32, u32)> = arena.iter().map(|(id, &v)| (id.index(), v)).collect();
    assert_eq!(seen, vec![(0, 0), (2, 2), (4, 4)]);
    assert_eq!(arena.ids().collect::<Vec<_>>(), vec![ids[0], ids[2], ids[4]]);
}

#[test]
fn entity_id_orders_by_index_then_generation() {
    let mut arena = GenerationalArena::new();
    let first = arena.insert(0);
    let second = arena.insert(1);
    assert!(first < second, "lower index must order first");

    arena.remove(first);
    let regenerated = arena.insert(2);
    assert_eq!(regenerated.index(), first.index());
    assert!(first < regenerated, "same index orders by generation");
    assert!(regenerated < second, "index still dominates generation");
}

#[test]
fn entity_id_round_trips_through_serde() {
    let mut arena = GenerationalArena::new();
    let id = arena.insert("x");
    let json = id_to_json(id);
    let back = id_from_json(&json).expect("deserialize");
    assert_eq!(back, id);
    assert_eq!(back.index(), id.index());
    assert_eq!(back.generation(), id.generation());
}

#[test]
fn an_empty_arena_round_trips() {
    let arena: GenerationalArena<u32> = GenerationalArena::new();
    let json = arena_to_json(&arena);
    let back = arena_from_json(&json).expect("deserialize");
    assert_eq!(back, arena);
    assert!(back.is_empty());
}

#[test]
fn loaded_ids_reject_generations_no_arena_issues() {
    assert_eq!(
        id_from_json(r#"{"index":3,"generation":0}"#),
        Err(CoreError::InvalidEntityId(ID_GENERATION_ZERO))
    );
    assert_eq!(
        id_from_json(r#"{"index":3,"generation":4294967295}"#),
        Err(CoreError::InvalidEntityId(ID_GENERATION_RETIRED))
    );
    let id = id_from_json(r#"{"index":3,"generation":4294967294}"#).expect("valid id");
    assert_eq!((id.index(), id.generation()), (3, u32::MAX - 1));
}

#[test]
fn the_generation_before_the_tombstone_is_the_last_one_issued() {
    // Removing at generation u32::MAX - 1 retires the slot: the tombstone
    // itself is never handed out.
    let mut arena = GenerationalArena::new();
    let id = arena.insert(5u32);
    let last = arena.force_generation(id, u32::MAX - 1);
    assert_eq!(last.generation(), u32::MAX - 1);
    assert!(arena.contains(last));
    assert_eq!(arena.remove(last), Some(5));
    assert_eq!(arena.slots()[0].generation, u32::MAX);
    let fresh = arena.insert(6);
    assert_eq!((fresh.index(), fresh.generation()), (1, 1));
}

#[test]
fn dead_ids_stay_dead_across_many_reuses() {
    let mut arena = GenerationalArena::new();
    let mut dead = Vec::new();
    for round in 0..50u32 {
        let id = arena.insert(round);
        assert_eq!(id.index(), 0);
        assert_eq!(id.generation(), round + 1);
        for &d in &dead {
            assert!(!arena.contains(d));
            assert_eq!(arena.remove(d), None);
        }
        assert_eq!(arena.remove(id), Some(round));
        dead.push(id);
    }
    let unique: BTreeSet<EntityId> = dead.iter().copied().collect();
    assert_eq!(unique.len(), dead.len());
}

#[test]
fn removals_commute() {
    let build = || {
        let mut arena = GenerationalArena::new();
        let ids: Vec<EntityId> = (0..4).map(|n| arena.insert(n)).collect();
        (arena, ids)
    };
    let (mut first, ids) = build();
    let (mut second, _) = build();
    first.remove(ids[0]);
    first.remove(ids[2]);
    second.remove(ids[2]);
    second.remove(ids[0]);
    assert_eq!(first, second);
}

#[test]
fn a_round_tripped_arena_allocates_the_same_next_id() {
    let mut arena = GenerationalArena::new();
    let ids: Vec<EntityId> = (0..6).map(|n| arena.insert(n)).collect();
    arena.remove(ids[4]);
    arena.remove(ids[1]);
    let mut restored = arena_from_json(&arena_to_json(&arena)).expect("deserialize");
    assert_eq!(restored, arena);
    assert_eq!(restored.len(), arena.len());
    assert_eq!(restored.insert(77), arena.insert(77));
    assert_eq!(restored, arena);
    assert_eq!(arena_to_json(&restored), arena_to_json(&arena));
}

#[test]
fn loading_rejects_more_slots_than_ids_can_name() {
    // The slot-count defect is only reachable with 2^32 slots; its message is
    // still part of the contract.
    assert_eq!(DEFECT_SLOT_COUNT, "more than u32::MAX slots");
    assert_eq!(
        CoreError::CorruptArena(DEFECT_SLOT_COUNT).to_string(),
        "corrupt generational arena: more than u32::MAX slots"
    );
}

#[test]
fn clear_is_removing_each_live_id() {
    let mut arena = GenerationalArena::new();
    let ids: Vec<EntityId> = (0..5).map(|n| arena.insert(n)).collect();
    arena.remove(ids[1]);
    let _ = arena.force_generation(ids[3], u32::MAX - 1);
    let mut removed = arena.clone();
    let live: Vec<EntityId> = removed.ids().collect();
    for id in live {
        assert!(removed.remove(id).is_some());
    }
    arena.clear();
    assert_eq!(arena, removed);
    assert_eq!(arena.slots()[3].generation, u32::MAX);
    assert_eq!(arena.free_slots().iter().copied().collect::<Vec<_>>(), vec![0, 1, 2, 4]);
}
