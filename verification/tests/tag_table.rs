use atlas621::tags::{name_offsets, tag_row, RowError, Tags};

#[test]
fn offsets_count_bytes_not_characters() {
    let names: Vec<String> = vec!["ab".into(), "ñ".into(), "".into(), "xyz".into()];
    assert_eq!(name_offsets(&names), vec![0, 2, 4, 4, 7]);
    assert_eq!(name_offsets(&[]), vec![0]);
}

#[test]
fn a_name_finds_its_last_position() {
    let t = Tags::from_parts(
        vec![1, 2, 3],
        vec!["a".into(), "b".into(), "a".into()],
        vec![0, 0, 0],
        vec![3, 2, 1],
        1,
        1,
        2,
    );
    assert_eq!(t.index_of("a"), Some(2));
    assert_eq!(t.index_of("b"), Some(1));
    assert_eq!(t.index_of("c"), None);
}

#[test]
fn rows_are_ranked_by_posts_then_name_and_split_at_the_floor() {
    let rows: Vec<(u32, String, u8, u32)> = vec![
        (1, "zebra".into(), 5, 50),
        (2, "ant".into(), 5, 0),
        (3, "bee".into(), 1, 50),
        (4, "cat".into(), 0, 7),
        (5, "dog".into(), 0, 200),
    ];
    let t = Tags::from_rows(&rows, 20);
    assert_eq!(t.ids, vec![5, 3, 1, 4, 2]);
    assert_eq!(t.names, vec!["dog", "bee", "zebra", "cat", "ant"]);
    assert_eq!(t.categories, vec![0, 1, 5, 0, 5]);
    assert_eq!(t.post_counts, vec![200, 50, 50, 7, 0]);
    assert_eq!(t.n_nodes, 3);
    assert_eq!(t.n_tail, 1);
    assert_eq!(t.index_of("cat"), Some(3));
}

#[test]
fn a_tag_row_reads_its_numbers_and_falls_back_to_general() {
    let (row, bad) = tag_row(b"12", "fox".to_string(), b"5", b"+300").unwrap();
    assert_eq!(row, (12, "fox".to_string(), 5, 300));
    assert!(!bad);
    let (row, bad) = tag_row(b"7", "odd".to_string(), b"x", b"0").unwrap();
    assert_eq!(row, (7, "odd".to_string(), 0, 0));
    assert!(bad);
    let (row, bad) = tag_row(b"7", "big".to_string(), b"256", b"1").unwrap();
    assert_eq!(row.2, 0);
    assert!(bad);
    assert_eq!(tag_row(b"-1", "a".to_string(), b"0", b"1"), Err(RowError::BadId));
    assert_eq!(tag_row(b"4294967296", "a".to_string(), b"0", b"1"), Err(RowError::BadId));
    assert_eq!(tag_row(b"1", "a".to_string(), b"0", b""), Err(RowError::BadCount));
    assert_eq!(tag_row(b"", "a".to_string(), b"0", b""), Err(RowError::BadId));
}

#[test]
fn offsets_cut_the_joined_names_back_apart() {
    let names: Vec<String> = ["fox", "", "éclair", "cat"].iter().map(|s| s.to_string()).collect();
    let offsets = name_offsets(&names);
    let blob = names.concat();
    for (i, name) in names.iter().enumerate() {
        assert_eq!(&blob[offsets[i] as usize..offsets[i + 1] as usize], name.as_str());
    }
}
