//! Interning, lookup and persistence tests for runtime string tables.

use std::collections::BTreeSet;

use crpg_core::{Interner, Interners};
use serde_json::Value;

/// The JSON form of a table: its strings in handle order.
fn interner_to_json(interner: &Interner) -> String {
    let strings: Vec<Value> = interner.to_strings().into_iter().map(Value::from).collect();
    serde_json::to_string(&Value::Array(strings)).expect("serialize")
}

/// Loads a table from its JSON form; `None` when a string repeats.
fn interner_from_json(json: &str) -> Option<Interner> {
    let value: Value = serde_json::from_str(json).expect("well-formed json");
    let strings: Vec<String> = value
        .as_array()
        .expect("array")
        .iter()
        .map(|s| s.as_str().expect("string").to_string())
        .collect();
    Interner::try_from_strings(strings)
}

#[test]
fn empty_unicode_case_distinct_strings_round_trip() {
    let mut interner = Interner::new();
    for value in ["", "frightened", "FRIGHTENED", "恐慌", "é", "e\u{301}"] {
        let handle = interner.intern(value);
        assert_eq!(interner.resolve(handle), Some(value));
    }
    assert_eq!(interner.len(), 6);
}

#[test]
fn handles_are_dense_and_iteration_follows_first_intern_order() {
    let mut interner = Interner::new();
    let values = ["hp", "ac", "speed", "initiative"];
    let handles: Vec<_> = values.iter().map(|value| interner.intern(value)).collect();

    assert_eq!(handles, [0, 1, 2, 3]);
    assert_eq!(
        interner.iter().collect::<Vec<_>>(),
        vec![(0, "hp"), (1, "ac"), (2, "speed"), (3, "initiative")]
    );
}

#[test]
fn lookup_and_invalid_resolution_do_not_mutate() {
    let mut interner = Interner::new();
    interner.intern("hp");
    let before = interner.clone();

    assert_eq!(interner.get("missing"), None);
    assert_eq!(interner.resolve(1), None);
    assert_eq!(interner.resolve(u32::MAX), None);
    assert_eq!(interner, before);
    assert!(!interner.is_empty());
}

#[test]
fn stat_and_tag_namespaces_move_independently() {
    let mut interners = Interners::new();
    let stat = interners.intern_stat("hp");
    assert_eq!(stat.index(), 0);
    assert_eq!(interners.stats().len(), 1);
    assert!(interners.tags().is_empty());
    assert_eq!(interners.stat("hp"), Some(stat));
    assert_eq!(interners.tag("hp"), None);

    let tag = interners.intern_tag("hp");
    assert_eq!(tag.index(), 0);
    assert_eq!(interners.stats().len(), 1);
    assert_eq!(interners.tags().len(), 1);
    assert_eq!(interners.resolve_stat(stat), Some("hp"));
    assert_eq!(interners.resolve_tag(tag), Some("hp"));
}

#[test]
fn serde_round_trip_preserves_order_and_handle_assignment() {
    let mut interner = Interner::new();
    for value in ["speed", "hp", "ac"] {
        interner.intern(value);
    }

    let json = interner_to_json(&interner);
    assert_eq!(json, r#"["speed","hp","ac"]"#);
    let mut restored = interner_from_json(&json).expect("deserialize");

    assert_eq!(restored, interner);
    assert_eq!(
        restored.iter().collect::<Vec<_>>(),
        interner.iter().collect::<Vec<_>>()
    );
    assert_eq!(restored.intern("new"), 3);
}

#[test]
fn equality_includes_handle_assignment() {
    let mut first = Interner::new();
    first.intern("hp");
    first.intern("ac");

    let mut reversed = Interner::new();
    reversed.intern("ac");
    reversed.intern("hp");

    assert_ne!(first, reversed);
    assert_ne!(first.get("hp"), reversed.get("hp"));
}

#[test]
fn serde_rejects_duplicate_strings() {
    assert!(interner_from_json(r#"["hp","hp","ac"]"#).is_none());
}

#[test]
fn interning_again_returns_the_first_handle() {
    let values = ["hp", "ac", "hp", "speed", "ac", "", "hp"];
    let mut interner = Interner::new();
    let first: Vec<u32> = values.iter().map(|v| interner.intern(v)).collect();
    let distinct: BTreeSet<&str> = values.iter().copied().collect();
    for (value, handle) in values.iter().zip(first) {
        assert_eq!(interner.intern(value), handle);
        assert_eq!(interner.get(value), Some(handle));
        assert_eq!(interner.resolve(handle), Some(*value));
    }
    assert_eq!(interner.len(), distinct.len());
}

#[test]
fn tables_compare_and_clone_by_their_strings() {
    let mut interners = Interners::new();
    interners.intern_stat("hp");
    interners.intern_tag("undead");
    let copy = interners.clone();
    assert_eq!(copy, interners);
    assert_eq!(Interners::default(), Interners::new());
    assert_eq!(Interner::default(), Interner::new());
    let rebuilt = Interners::from_tables(interners.stats().clone(), interners.tags().clone());
    assert_eq!(rebuilt, interners);
    interners.intern_tag("flying");
    assert_ne!(copy, interners);
}
