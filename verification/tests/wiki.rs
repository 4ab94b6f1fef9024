use atlas621::tags::Tags;
use atlas621::wiki::{excerpt_of, lines_of, link_label, see_also, split_on, squeeze, tidy_line, Dtext};

#[test]
fn dtext_excerpt() {
    let d = Dtext::new().expect("the DText patterns compile");
    let body = "h4. Nav\n\n[Back: [[e621:index]]]\n\nA [[canid|canine]] that is \"red\":/wiki_pages/red and [b]bold[/b]. See {{fox solo}}.\n\nSecond paragraph.";
    assert_eq!(d.excerpt(body, 300).as_deref(), Some("[Back: e621:index]"));
    let body2 =
        "A [[canid|canine]] that is \"red\":/wiki_pages/red and [b]bold[/b]. See {{fox solo}}.";
    assert_eq!(
        d.excerpt(body2, 300).as_deref(),
        Some("A canine that is red and bold. See fox solo.")
    );
    assert_eq!(
        d.links("see [[Red Fox]] and [[canid|dogs]]"),
        vec!["red_fox", "canid"]
    );
    let long = "word ".repeat(100);
    let e = d.excerpt(&long, 40).unwrap();
    assert!(e.ends_with("...") && e.len() <= 44, "{e}");
}

#[test]
fn a_text_splits_as_str_split_splits_it() {
    for (s, sep) in [
        ("a\n\nb\n\n\n\nc", "\n\n"),
        ("", "\n\n"),
        ("\n\n", "\n\n"),
        ("abc", "\r\n\r\n"),
        ("x\r\n\r\ny\r\n\r\n", "\r\n\r\n"),
        ("aaa", "aa"),
    ] {
        let want: Vec<&str> = s.split(sep).collect();
        assert_eq!(split_on(s, sep), want);
    }
}

#[test]
fn lines_come_out_as_str_lines_gives_them() {
    for s in ["", "a", "a\n", "a\r\nb", "\n\nc\r", "x\r\r\ny", "one\ntwo\n\n"] {
        let want: Vec<&str> = s.lines().collect();
        assert_eq!(lines_of(s), want);
    }
}

#[test]
fn whitespace_is_squeezed_to_single_spaces() {
    for s in ["", "  a  b\t\tc \n", "word", "\u{3000}x\u{a0}y ", "   "] {
        let want = s.split_whitespace().collect::<Vec<_>>().join(" ");
        assert_eq!(squeeze(s), want);
    }
}

#[test]
fn a_line_loses_its_marks_and_outer_whitespace() {
    assert_eq!(tidy_line("** # item one  "), "item one");
    assert_eq!(tidy_line("\t* indented"), "* indented");
    assert_eq!(tidy_line("###"), "");
    assert_eq!(tidy_line("plain"), "plain");
}

#[test]
fn an_excerpt_is_cut_back_to_a_space() {
    assert_eq!(excerpt_of("too short".to_string(), 3).as_deref(), Some("too..."));
    assert_eq!(excerpt_of("short".to_string(), 100), None);
    assert_eq!(excerpt_of("just eight".to_string(), 10).as_deref(), Some("just eight"));
    assert_eq!(excerpt_of("alpha beta gamma".to_string(), 12).as_deref(), Some("alpha beta..."));
    assert_eq!(excerpt_of("abcdefghijkl".to_string(), 9).as_deref(), Some("abcdefghi..."));
}

#[test]
fn a_link_shows_its_label_when_it_has_one() {
    assert_eq!(link_label("canid", Some("dogs")), "dogs");
    assert_eq!(link_label("canid", None), "canid");
}

#[test]
fn see_also_keeps_each_other_node_once() {
    let tags = Tags::from_parts(
        vec![1, 2, 3, 4],
        vec!["cat".into(), "dog".into(), "fox".into(), "rare".into()],
        vec![0, 0, 0, 0],
        vec![90, 80, 70, 1],
        3,
        1,
        10,
    );
    let links: Vec<String> = ["fox", "cat", "rare", "fox", "nothing", "dog", "cat"]
        .iter()
        .map(|s| s.to_string())
        .collect();
    assert_eq!(see_also(&tags, 0, &links), vec![2, 1]);
    assert_eq!(see_also(&tags, 2, &links), vec![0, 1]);
}
