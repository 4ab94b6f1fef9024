use atlas621::communities::by_size;
use atlas621::edges::{threshold, unique_links};
use atlas621::emit::{base_scene, display_name, gather, year_cells};
use atlas621::exports::{find, Export, ExportError};
use atlas621::num::parse_unsigned;
use atlas621::sorting::sorted_set;

fn export(name: &str, size: u64) -> Export {
    Export {
        name: name.into(),
        file_name: format!("{name}.csv.gz"),
        file_size: size,
        checksum: String::new(),
        updated_at: String::new(),
        url: String::new(),
    }
}

#[test]
fn the_manifest_is_searched_by_name() {
    let manifest = vec![export("tags", 1), export("posts", 2), export("tags", 3)];
    assert_eq!(find(&manifest, "posts").map(|e| e.file_size), Ok(2));
    assert_eq!(find(&manifest, "tags").map(|e| e.file_size), Ok(1));
    assert_eq!(
        find(&manifest, "wiki_pages").map(|e| e.file_size),
        Err(ExportError::NotInManifest)
    );
}

#[test]
fn numbers_read_as_std_reads_them() {
    assert_eq!(parse_unsigned(b"2020", 0xffff), Some(2020));
    assert_eq!(parse_unsigned(b"+42", 255), Some(42));
    assert_eq!(parse_unsigned(b"256", 255), None);
    assert_eq!(parse_unsigned(b"", 255), None);
    assert_eq!(parse_unsigned(b"+", 255), None);
    assert_eq!(parse_unsigned(b"-1", 255), None);
    assert_eq!(parse_unsigned(b"1 2", 255), None);
    assert_eq!(parse_unsigned(b"007", 255), Some(7));
    assert_eq!(parse_unsigned(b"18446744073709551615", u64::MAX), Some(u64::MAX));
    assert_eq!(parse_unsigned(b"18446744073709551616", u64::MAX), None);
}

#[test]
fn communities_are_numbered_by_size() {
    let (membership, sizes) = by_size(&[5, 2, 5, 9, 2, 5]);
    assert_eq!(membership, vec![0, 1, 0, 2, 1, 0]);
    assert_eq!(sizes, vec![3, 2, 1]);
}

#[test]
fn names_show_spaces_for_underscores() {
    assert_eq!(display_name("red_fox"), "red fox");
    assert_eq!(display_name("_ñ_"), " ñ ");
    assert_eq!(display_name(""), "");
}

#[test]
fn gather_picks_by_key() {
    assert_eq!(gather(&[2, 0, 2], &[10u16, 20, 30]), vec![30, 10, 30]);
}

#[test]
fn sets_come_sorted_and_once() {
    assert_eq!(sorted_set(&vec![5, 1, 5, 3, 1]), vec![1, 3, 5]);
    assert_eq!(sorted_set(&vec![]), Vec::<u32>::new());
}

#[test]
fn the_base_scene_takes_first_edges_then_the_rest() {
    // nodes 0..4; node 3 has no posts of its own
    let a = [0u32, 0, 1, 2, 0];
    let b = [1u32, 2, 2, 3, 3];
    let posts = [5u32, 5, 5, 0];
    // first edges: node 0 -> 0, node 1 -> 0 (already brought), node 2 -> 1, node 3 -> 3 (hidden)
    assert_eq!(base_scene(&a, &b, &posts, 10), vec![0, 1, 2]);
    assert_eq!(base_scene(&a, &b, &posts, 1), vec![0]);
    assert_eq!(base_scene(&a, &b, &posts, 0), Vec::<u32>::new());
}

#[test]
fn year_counts_that_overflow_a_u16_are_listed_apart() {
    let (rows, over) = year_cells(&[3, 70000, 65535, 65536]);
    assert_eq!(rows, vec![3, u16::MAX, u16::MAX, u16::MAX]);
    assert_eq!(over, vec![1, 70000, 3, 65536]);
}

#[test]
fn rare_tags_are_judged_against_half_their_posts() {
    assert_eq!(threshold(20, 1000, 500), 20);
    assert_eq!(threshold(20, 1000, 7), 4);
    assert_eq!(threshold(20, 8, 1000), 4);
    assert_eq!(threshold(20, 0, 0), 1);
    assert_eq!(threshold(0, 50, 50), 1);
}

#[test]
fn communities_take_their_first_tag_unless_overridden() {
    let tags = atlas621::tags::Tags::from_parts(
        vec![1, 2, 3],
        vec!["red_fox".into(), "wolf".into(), "cat".into()],
        vec![0, 0, 0],
        vec![9, 8, 7],
        3,
        0,
        1,
    );
    let meta = vec![
        atlas621::territories::RegionInfo { size: 2, name_tags: vec![0, 1] },
        atlas621::territories::RegionInfo { size: 1, name_tags: vec![] },
        atlas621::territories::RegionInfo { size: 0, name_tags: vec![2] },
    ];
    let membership = [0u32, 0, 1];
    let overrides = vec![
        ("cat".to_string(), "Cats".to_string()),
        ("dodo".to_string(), "Birds".to_string()),
        ("wolf".to_string(), "Canids".to_string()),
        ("red_fox".to_string(), "Foxes".to_string()),
    ];
    let (out, ignored) = atlas621::emit::named(&meta, &tags, &membership, &overrides);
    assert_eq!(out.len(), 3);
    assert_eq!(out[0].name, "Foxes");
    assert_eq!(out[0].tags, vec!["red_fox", "wolf"]);
    assert_eq!(out[0].size, 2);
    assert_eq!(out[1].name, "Cats");
    assert_eq!(out[2].name, "cat");
    assert_eq!(ignored, vec![1]);
    let (out, _) = atlas621::emit::named(&meta, &tags, &membership, &[]);
    assert_eq!(out[0].name, "red fox");
    assert_eq!(out[1].name, "unnamed");
}

#[test]
fn each_pair_of_ends_is_kept_once_in_order() {
    let a = [3u32, 1, 3, 0, 1, 1];
    let b = [4u32, 2, 4, 9, 2, 0];
    assert_eq!(unique_links(&a, &b), vec![3, 5, 1, 0]);
    assert_eq!(unique_links(&[], &[]), Vec::<u32>::new());
}

#[test]
fn the_base_scene_keeps_to_its_budget_and_shown_edges() {
    let a = [0u32, 0, 1, 2, 0];
    let b = [1u32, 2, 2, 3, 3];
    let posts = [5u32, 5, 5, 0];
    for budget in 0..7 {
        let scene = base_scene(&a, &b, &posts, budget);
        assert!(scene.len() <= budget);
        for &k in &scene {
            assert!(posts[a[k as usize] as usize] > 0 && posts[b[k as usize] as usize] > 0);
        }
        if budget >= 2 {
            assert!(scene.contains(&0) && scene.contains(&1));
        }
    }
}
