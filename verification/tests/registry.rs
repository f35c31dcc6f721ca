use hive::pod::PodRegistry;

#[test]
fn registry_starts_empty() {
    let reg = PodRegistry::new();
    assert!(reg.type_names().is_empty());
    assert_eq!(reg.get("speaker"), None);
}

#[test]
fn registry_lists_names_sorted_without_duplicates() {
    let mut reg = PodRegistry::new();
    reg.register("summarizer");
    reg.register("planner");
    reg.register("retriever");
    reg.register("planner");
    reg.register("code-gen");
    assert_eq!(
        reg.type_names(),
        vec!["code-gen", "planner", "retriever", "summarizer"]
    );
    assert_eq!(reg.get("planner"), Some(()));
    assert_eq!(reg.get("plan"), None);
}

#[test]
fn registry_orders_like_string_sort() {
    let mut reg = PodRegistry::new();
    let mut names = vec!["b", "a", "ab", "", "Z", "\u{e9}t\u{e9}", "aa", "a"];
    for n in &names {
        reg.register(n);
    }
    names.sort();
    names.dedup();
    assert_eq!(reg.type_names(), names);
}
