use atlas621::checksum::{checksum_matches, hex_lower, Hasher};
use atlas621::exports::{column_index, Export};

fn export(checksum: &str) -> Export {
    Export {
        name: "tags".to_string(),
        file_name: "tags.csv.gz".to_string(),
        file_size: 3,
        checksum: checksum.to_string(),
        updated_at: String::new(),
        url: String::new(),
    }
}

const ABC: &str = "ba7816bf8f01cfea414140de5dae2223b00361a396177a9cb410ff61f20015ad";

#[test]
fn the_hasher_digests_what_it_was_fed_in_chunks() {
    let mut h = Hasher::new();
    h.update(b"a");
    h.update(b"");
    h.update(b"bc");
    assert_eq!(hex_lower(&h.finish()), ABC);
    let h = Hasher::new();
    assert_eq!(
        hex_lower(&h.finish()),
        "e3b0c44298fc1c149afbf4c8996fb92427ae41e4649b934ca495991b7852b855"
    );
}

#[test]
fn hex_is_two_lowercase_digits_a_byte() {
    assert_eq!(hex_lower(&[0x00, 0x0f, 0xa0, 0xff, 0x3c]), "000fa0ff3c");
    assert_eq!(hex_lower(&[]), "");
}

#[test]
fn a_checksum_matches_only_its_own_digest() {
    let mut h = Hasher::new();
    h.update(b"abc");
    let d = h.finish();
    assert!(checksum_matches(&d, &export(ABC)));
    assert!(!checksum_matches(&d, &export(&ABC.to_uppercase())));
    assert!(!checksum_matches(&d, &export(&ABC[1..])));
    assert!(!checksum_matches(&d[..31], &export(ABC)));
}

#[test]
fn a_column_is_found_by_its_first_header() {
    let headers: Vec<String> = ["id", "name", "id"].iter().map(|s| s.to_string()).collect();
    assert_eq!(column_index(&headers, "id"), Some(0));
    assert_eq!(column_index(&headers, "name"), Some(1));
    assert_eq!(column_index(&headers, "post_count"), None);
}
