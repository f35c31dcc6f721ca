use hive::knowledge::{
    EntryMetadata, IndexConfig, InMemoryStorage, KnowledgeBase, KnowledgeError, StorageBackend,
};

#[test]
fn query_unknown_type_is_refused() {
    let kb = KnowledgeBase::new();
    assert_eq!(kb.query("planner", &vec![], 3).err(), Some(KnowledgeError::UnknownType));
}

#[test]
fn register_twice_is_refused() {
    let mut kb = KnowledgeBase::new();
    assert_eq!(kb.register_type("planner", IndexConfig), Ok(()));
    assert_eq!(
        kb.register_type("planner", IndexConfig),
        Err(KnowledgeError::TypeAlreadyRegistered)
    );
    assert_eq!(kb.query("planner", &vec![], 10).unwrap().len(), 0);
}

#[test]
fn index_into_unknown_type_is_refused() {
    let mut kb = KnowledgeBase::new();
    assert_eq!(
        kb.index("planner", "plan", EntryMetadata),
        Err(KnowledgeError::UnknownType)
    );
}

#[test]
fn query_returns_indexed_entries_in_order() {
    let mut kb = KnowledgeBase::new();
    kb.register_type("planner", IndexConfig).unwrap();
    kb.register_type("retriever", IndexConfig).unwrap();
    kb.index("planner", "first", EntryMetadata).unwrap();
    kb.index("retriever", "other", EntryMetadata).unwrap();
    kb.index("planner", "second", EntryMetadata).unwrap();
    kb.index("planner", "third", EntryMetadata).unwrap();

    let all = kb.entries("planner").unwrap();
    let texts: Vec<&str> = all.iter().map(|e| e.content.as_str()).collect();
    assert_eq!(texts, vec!["first", "second", "third"]);

    let top = kb.query("planner", &vec![5, 5, 5], 2).unwrap();
    assert_eq!(top.len(), 2);
    assert_eq!(top[0].content, "first");
    assert_eq!(top[1].content, "second");

    let other = kb.query("retriever", &vec![1], 5).unwrap();
    assert_eq!(other.len(), 1);
    assert_eq!(other[0].content, "other");
    assert_eq!(kb.query("retriever", &vec![1], 0).unwrap().len(), 0);
}

#[test]
fn entry_ids_are_distinct() {
    let mut kb = KnowledgeBase::new();
    kb.register_type("a", IndexConfig).unwrap();
    kb.register_type("b", IndexConfig).unwrap();
    kb.index("a", "x", EntryMetadata).unwrap();
    kb.index("b", "y", EntryMetadata).unwrap();
    kb.index("a", "z", EntryMetadata).unwrap();
    let mut ids = Vec::new();
    for t in ["a", "b"] {
        for e in kb.entries(t).unwrap() {
            ids.push(e.id);
        }
    }
    assert_eq!(ids.len(), 3);
    for i in 0..ids.len() {
        for j in 0..ids.len() {
            if i != j {
                assert_ne!(ids[i], ids[j]);
            }
        }
    }
}

#[test]
fn feedback_counts_votes() {
    let mut kb = KnowledgeBase::new();
    kb.register_type("planner", IndexConfig).unwrap();
    kb.index("planner", "plan A", EntryMetadata).unwrap();
    kb.index("planner", "plan B", EntryMetadata).unwrap();
    let entries = kb.entries("planner").unwrap();
    let a = entries[0].id;
    assert_eq!(kb.feedback(a, true), Ok(()));
    assert_eq!(kb.feedback(a, true), Ok(()));
    assert_eq!(kb.feedback(a, false), Ok(()));
    let entries = kb.entries("planner").unwrap();
    assert_eq!(entries[0].useful, 2);
    assert_eq!(entries[0].not_useful, 1);
    assert_eq!(entries[1].useful, 0);
    assert_eq!(entries[1].not_useful, 0);
    assert_eq!(entries[0].content, "plan A");
}

#[test]
fn feedback_on_unknown_entry_is_refused() {
    let mut kb = KnowledgeBase::new();
    kb.register_type("planner", IndexConfig).unwrap();
    kb.index("planner", "plan", EntryMetadata).unwrap();
    let id = kb.entries("planner").unwrap()[0].id;
    let mut other = KnowledgeBase::new();
    other.register_type("planner", IndexConfig).unwrap();
    assert_eq!(other.feedback(id, true), Err(KnowledgeError::UnknownEntry));
}

#[test]
fn query_ranks_by_relevance() {
    let mut kb = KnowledgeBase::new();
    kb.register_type("planner", IndexConfig).unwrap();
    kb.index("planner", "apple", EntryMetadata).unwrap();
    kb.index("planner", "banana", EntryMetadata).unwrap();
    kb.index("planner", "cherry", EntryMetadata).unwrap();
    kb.index("planner", "banana bread", EntryMetadata).unwrap();

    let top = kb.query("planner", &vec![1, 9, 0, 9], 3).unwrap();
    let texts: Vec<&str> = top.iter().map(|e| e.content.as_str()).collect();
    assert_eq!(texts, vec!["banana", "banana bread", "apple"]);

    let best = kb.query("planner", &vec![0, 0, 7, 0], 1).unwrap();
    assert_eq!(best.len(), 1);
    assert_eq!(best[0].content, "cherry");
}

#[test]
fn query_with_wrong_relevance_length_is_refused() {
    let mut kb = KnowledgeBase::new();
    kb.register_type("planner", IndexConfig).unwrap();
    kb.index("planner", "plan", EntryMetadata).unwrap();
    assert_eq!(
        kb.query("planner", &vec![1, 2], 1).err(),
        Some(KnowledgeError::RelevanceMismatch)
    );
    assert_eq!(
        kb.query("planner", &vec![], 1).err(),
        Some(KnowledgeError::RelevanceMismatch)
    );
}

#[test]
fn entries_of_unknown_type_are_refused() {
    let kb = KnowledgeBase::new();
    assert_eq!(kb.entries("planner").err(), Some(KnowledgeError::UnknownType));
}

#[test]
fn index_after_query_sees_new_entry() {
    let mut kb = KnowledgeBase::new();
    kb.register_type("planner", IndexConfig).unwrap();
    kb.index("planner", "old", EntryMetadata).unwrap();
    kb.index("planner", "new", EntryMetadata).unwrap();
    let all = kb.query("planner", &vec![3, 3], 5).unwrap();
    let texts: Vec<&str> = all.iter().map(|e| e.content.as_str()).collect();
    assert_eq!(texts, vec!["old", "new"]);
}

#[test]
fn save_then_load_gives_back_the_knowledge_base() {
    let mut kb = KnowledgeBase::new();
    kb.register_type("planner", IndexConfig).unwrap();
    kb.register_type("coder", IndexConfig).unwrap();
    kb.index("planner", "plan A", EntryMetadata).unwrap();
    kb.index("coder", "fn main", EntryMetadata).unwrap();
    kb.index("planner", "plan B", EntryMetadata).unwrap();
    let id = kb.entries("planner").unwrap()[1].id;
    kb.feedback(id, true).unwrap();

    let mut storage = InMemoryStorage::new();
    assert_eq!(kb.save(&mut storage), Ok(()));
    let mut loaded = KnowledgeBase::load(&storage).unwrap();

    for t in ["planner", "coder"] {
        let a = kb.entries(t).unwrap();
        let b = loaded.entries(t).unwrap();
        assert_eq!(a.len(), b.len());
        for i in 0..a.len() {
            assert_eq!(a[i].id, b[i].id);
            assert_eq!(a[i].content, b[i].content);
            assert_eq!(a[i].useful, b[i].useful);
            assert_eq!(a[i].not_useful, b[i].not_useful);
        }
    }
    assert_eq!(loaded.entries("planner").unwrap()[1].useful, 1);
    assert_eq!(
        loaded.register_type("coder", IndexConfig),
        Err(KnowledgeError::TypeAlreadyRegistered)
    );

    // New entries after a load get identifiers no stored entry has.
    loaded.index("coder", "fn helper", EntryMetadata).unwrap();
    let fresh = loaded.entries("coder").unwrap()[1].id;
    for t in ["planner", "coder"] {
        for e in kb.entries(t).unwrap() {
            assert_ne!(e.id, fresh);
        }
    }
}

#[test]
fn load_from_empty_storage_gives_an_empty_base() {
    let storage = InMemoryStorage::new();
    let loaded = KnowledgeBase::load(&storage).unwrap();
    assert_eq!(loaded.entries("planner").err(), Some(KnowledgeError::UnknownType));
}

#[test]
fn in_memory_storage_holds_what_was_saved() {
    let mut storage = InMemoryStorage::new();
    assert!(storage.load().unwrap().is_empty());
    assert!(storage.save(&[]).is_ok());
    assert!(storage.load().unwrap().is_empty());

    let mut kb = KnowledgeBase::new();
    kb.register_type("planner", IndexConfig).unwrap();
    kb.index("planner", "plan", EntryMetadata).unwrap();
    kb.save(&mut storage).unwrap();
    let stored = storage.load().unwrap();
    assert_eq!(stored.len(), 1);
    assert_eq!(stored[0].0, "planner");
    assert_eq!(stored[0].1.len(), 1);
    assert_eq!(stored[0].1[0].content, "plan");
}

#[test]
fn from_stored_rebuilds_and_refuses_corrupt_indices() {
    let mut kb = KnowledgeBase::new();
    kb.register_type("planner", IndexConfig).unwrap();
    kb.index("planner", "plan A", EntryMetadata).unwrap();
    kb.index("planner", "plan B", EntryMetadata).unwrap();
    let entries = kb.entries("planner").unwrap();

    let good = vec![("planner".to_string(), kb.entries("planner").unwrap())];
    let rebuilt = KnowledgeBase::from_stored(&good).unwrap();
    let again = rebuilt.entries("planner").unwrap();
    assert_eq!(again.len(), 2);
    assert_eq!(again[0].id, entries[0].id);
    assert_eq!(again[1].content, "plan B");

    let same_type_twice = vec![
        ("planner".to_string(), vec![entries[0].duplicate()]),
        ("planner".to_string(), vec![entries[1].duplicate()]),
    ];
    assert_eq!(
        KnowledgeBase::from_stored(&same_type_twice).err(),
        Some(KnowledgeError::CorruptSnapshot)
    );

    let same_id_twice = vec![
        ("planner".to_string(), vec![entries[0].duplicate()]),
        ("coder".to_string(), vec![entries[0].duplicate()]),
    ];
    assert_eq!(
        KnowledgeBase::from_stored(&same_id_twice).err(),
        Some(KnowledgeError::CorruptSnapshot)
    );

    let empty: Vec<(String, Vec<hive::knowledge::KnowledgeEntry>)> = vec![];
    let none = KnowledgeBase::from_stored(&empty).unwrap();
    assert_eq!(none.entries("planner").err(), Some(KnowledgeError::UnknownType));
}
