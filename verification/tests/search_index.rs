use atlas621::search::{by_name, entries, shard_key, Entry};
use atlas621::tags::Tags;

#[test]
fn keys_are_two_safe_chars() {
    assert_eq!(shard_key("dragon"), "dr");
    assert_eq!(shard_key("a"), "a_");
    assert_eq!(shard_key(":3"), "_3");
    assert_eq!(shard_key("ñandu"), "_a");
    assert_eq!(shard_key(""), "__");
}

#[test]
fn search_keys_are_two_safe_chars() {
    assert_eq!(shard_key("dragon"), "dr");
    assert_eq!(shard_key("a"), "a_");
    assert_eq!(shard_key(":3"), "_3");
    assert_eq!(shard_key("ñandu"), "_a");
    assert_eq!(shard_key(""), "__");
}

#[test]
fn capitals_and_marks_become_underscores() {
    assert_eq!(shard_key("Zebra"), "_e");
    assert_eq!(shard_key("9lives"), "9l");
    assert_eq!(shard_key("__"), "__");
}

#[test]
fn index_rows_carry_their_targets() {
    let tags = Tags::from_parts(
        vec![1, 2, 3],
        vec!["dragon".into(), "wyvern".into(), "drake".into()],
        vec![0, 5, 0],
        vec![90, 40, 3],
        2,
        1,
        10,
    );
    let tail = vec![1, u32::MAX];
    let aliases = vec![("dragons".to_string(), 0u32), ("Drakes".to_string(), 2u32)];
    let rows = entries(&tags, &aliases, &tail, 2);
    assert_eq!(rows.len(), 5);
    let keys: Vec<&str> = rows.iter().map(|(k, _)| k.as_str()).collect();
    assert_eq!(keys, vec!["dr", "wy", "dr", "dr", "_r"]);
    let (_, wyvern) = &rows[1];
    assert_eq!((wyvern.post_count, wyvern.category, wyvern.node), (40, 5, 1));
    assert!(wyvern.tail.is_empty() && wyvern.alias.is_none());
    let (_, drake) = &rows[2];
    assert_eq!(drake.node, -1);
    assert_eq!(drake.tail, vec![1]);
    let (_, alias) = &rows[4];
    assert_eq!(alias.name, "Drakes");
    assert_eq!((alias.post_count, alias.node), (3, -1));
    assert_eq!(alias.tail, vec![1]);
    assert_eq!(alias.alias.as_deref(), Some("drake"));
}

#[test]
fn shard_rows_run_by_name_then_by_count() {
    let row = |name: &str, count: u32, node: i32| {
        (
            "xx".to_string(),
            Entry {
                name: name.to_string(),
                post_count: count,
                category: 0,
                node,
                tail: vec![],
                alias: None,
            },
        )
    };
    let rows = vec![
        row("cat", 5, 0),
        row("bat", 9, 1),
        row("cat", 7, 2),
        row("cat", 5, 3),
        row("ñu", 1, 4),
        row("zebra", 2, 5),
    ];
    let seen: Vec<(String, u32, i32)> = by_name(rows)
        .into_iter()
        .map(|(_, e)| (e.name, e.post_count, e.node))
        .collect();
    assert_eq!(
        seen,
        vec![
            ("bat".to_string(), 9, 1),
            ("cat".to_string(), 7, 2),
            ("cat".to_string(), 5, 0),
            ("cat".to_string(), 5, 3),
            ("zebra".to_string(), 2, 5),
            ("ñu".to_string(), 1, 4),
        ]
    );
}
