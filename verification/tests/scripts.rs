use atlas621::text::{date_part, day_slot, days_since_2007, parse_op};

#[test]
fn bulk_update_lines() {
    assert_eq!(
        parse_op("implicate fox -> canine"),
        Some(["implicate".into(), "fox".into(), "canine".into()])
    );
    assert_eq!(
        parse_op("create alias tits -> breasts"),
        Some(["alias".into(), "tits".into(), "breasts".into()])
    );
    assert_eq!(
        parse_op("unimplicate a -> b # reason"),
        Some(["unimplicate".into(), "a".into(), "b".into()])
    );
    assert_eq!(
        parse_op("category foo -> species"),
        Some(["category".into(), "foo".into(), "species".into()])
    );
    assert_eq!(
        parse_op("nuke bad_tag"),
        Some(["nuke".into(), "bad_tag".into(), "".into()])
    );
    assert_eq!(parse_op("# comment"), None);
    assert_eq!(parse_op("frobnicate x -> y"), None);
}

#[test]
fn script_lines_are_trimmed_and_lowercased() {
    assert_eq!(
        parse_op("  Imply Red_Fox -> Fox  "),
        Some(["implicate".into(), "red_fox".into(), "fox".into()])
    );
    assert_eq!(parse_op("   "), None);
    assert_eq!(parse_op("alias ->"), None);
    assert_eq!(
        parse_op("remove implication a->b->c"),
        Some(["unimplicate".into(), "a".into(), "b".into()])
    );
    assert_eq!(
        parse_op("mass update x -> "),
        Some(["update".into(), "x".into(), "".into()])
    );
}

#[test]
fn day_numbers() {
    assert_eq!(days_since_2007("2007-01-01"), Some(0));
    assert_eq!(days_since_2007("2007-03-01"), Some(59));
    assert_eq!(days_since_2007("2008-03-01"), Some(425));
    assert_eq!(days_since_2007("2020-03-12 08:53:27.845484"), Some(4819));
    assert_eq!(days_since_2007(""), None);
}

#[test]
fn days_before_the_start_or_past_the_slot_do_not_fit() {
    assert_eq!(days_since_2007("2006-12-31"), None);
    assert_eq!(days_since_2007("not a date"), None);
    assert_eq!(day_slot(Some(-1)), None);
    assert_eq!(day_slot(Some(65535)), Some(65535));
    assert_eq!(day_slot(Some(65536)), None);
    assert_eq!(day_slot(None), None);
}

#[test]
fn the_date_is_the_first_ten_bytes() {
    assert_eq!(date_part("2020-03-12 08:53:27"), "2020-03-12");
    assert_eq!(date_part("2020-03"), "");
    assert_eq!(date_part("2020-03-1ñ"), "");
}

#[test]
fn a_script_line_reads_the_same_in_capitals() {
    let line = "Imply Fox -> Canine";
    let upper = parse_op(&line.to_ascii_uppercase());
    assert_eq!(parse_op(line), upper);
    assert_eq!(
        parse_op(line),
        Some(["implicate".to_string(), "fox".to_string(), "canine".to_string()])
    );
}

#[test]
fn an_operation_names_a_known_kind_and_word_tags() {
    let kinds = [
        "alias", "implicate", "unalias", "unimplicate", "category", "update", "rename", "nuke",
        "deprecate", "undeprecate",
    ];
    for line in ["Mass Update Big_Cat -> Lion", "RENAME Wolf", "deprecate  x ->", "alias a -> b -> c"] {
        let [kind, a, b] = parse_op(line).unwrap();
        assert!(kinds.contains(&kind.as_str()));
        assert!(!a.is_empty() && !a.chars().any(char::is_whitespace));
        assert!(!b.chars().any(char::is_whitespace));
        assert!(!a.chars().any(|c| c.is_ascii_uppercase()) && !b.chars().any(|c| c.is_ascii_uppercase()));
    }
    assert_eq!(
        parse_op("Mass Update Big_Cat -> Lion"),
        Some(["update".to_string(), "big_cat".to_string(), "lion".to_string()])
    );
    assert_eq!(parse_op("rename"), None);
}
