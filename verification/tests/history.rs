use atlas621::history::{date_implication, lump_days, push_decimal, tidy_history};
use atlas621::text::Event;

fn event(date: &str, kind: &str, other: &str, source: &str) -> Event {
    Event {
        date: date.to_string(),
        kind: kind.to_string(),
        other: other.to_string(),
        source: source.to_string(),
        approx: false,
    }
}

#[test]
fn decimals_are_written_as_format_writes_them() {
    for n in [0u32, 7, 10, 99, 100, 4096, 65535, u32::MAX] {
        let mut s = String::from("bur:");
        push_decimal(&mut s, n);
        assert_eq!(s, format!("bur:{n}"));
    }
}

#[test]
fn a_busy_day_is_a_lump_and_an_empty_day_never_is() {
    let days: Vec<String> = ["2012-01-01", "2012-01-01", "2012-01-01", "2015-05-05", "", "", "", ""]
        .iter()
        .map(|d| d.to_string())
        .collect();
    assert_eq!(
        lump_days(&days, 2),
        vec![true, true, true, false, false, false, false, false]
    );
    assert_eq!(lump_days(&days, 3), vec![false; 8]);
    assert_eq!(lump_days(&days, 0)[3], true);
}

#[test]
fn an_implication_takes_its_request_day_first() {
    let (date, approx, source) = date_implication(
        Some(("2019-03-04".to_string(), 1234)),
        "2010-01-01".to_string(),
        true,
    );
    assert_eq!(date.as_deref(), Some("2019-03-04"));
    assert!(!approx);
    assert_eq!(source, "bur:1234");

    let (date, approx, source) = date_implication(None, "2010-01-01".to_string(), true);
    assert_eq!(date.as_deref(), Some("2010-01-01"));
    assert!(approx);
    assert_eq!(source, "created_at");

    let (date, approx, source) = date_implication(None, "2010-01-01".to_string(), false);
    assert_eq!(date.as_deref(), Some("2010-01-01"));
    assert!(!approx);
    assert_eq!(source, "created_at");

    let (date, approx, source) = date_implication(None, String::new(), false);
    assert_eq!(date, None);
    assert!(approx);
    assert_eq!(source, "");
}

#[test]
fn a_history_is_ordered_and_keeps_the_first_of_each_change() {
    let history = vec![
        event("2020-01-02", "implicate", "cat", "bur:5"),
        event("2019-12-31", "alias", "kitty", "created_at"),
        event("2020-01-02", "alias", "cat", "bur:6"),
        event("2020-01-02", "implicate", "cat", "created_at"),
        event("2020-01-02", "implicate", "ant", "bur:7"),
        event("2019-12-31", "alias", "kitty", "bur:8"),
    ];
    let tidy = tidy_history(&history);
    let seen: Vec<(&str, &str, &str, &str)> = tidy
        .iter()
        .map(|e| (e.date.as_str(), e.kind.as_str(), e.other.as_str(), e.source.as_str()))
        .collect();
    assert_eq!(
        seen,
        vec![
            ("2019-12-31", "alias", "kitty", "created_at"),
            ("2020-01-02", "alias", "cat", "bur:6"),
            ("2020-01-02", "implicate", "ant", "bur:7"),
            ("2020-01-02", "implicate", "cat", "bur:5"),
        ]
    );
}

#[test]
fn history_order_follows_the_characters_as_std_orders_strings() {
    let history = vec![
        event("2020-01-01", "alias", "é", "a"),
        event("2020-01-01", "alias", "z", "b"),
        event("2020-01-01", "alias", "", "c"),
        event("2020-01-01", "alias", "zz", "d"),
    ];
    let tidy = tidy_history(&history);
    let mut want: Vec<&str> = history.iter().map(|e| e.other.as_str()).collect();
    want.sort();
    let got: Vec<&str> = tidy.iter().map(|e| e.other.as_str()).collect();
    assert_eq!(got, want);
}

use atlas621::history::{
    alias_event, implication_record, newest_first, node_of_name, request_events, FirstRequests,
};
use atlas621::tags::Tags;
use atlas621::text::{read_request, read_script, Bur, NodeImplication};

fn table() -> Tags {
    // cat, dog and mammal are nodes; rare_tag is not
    Tags::from_parts(
        vec![1, 2, 3, 4],
        vec!["cat".into(), "dog".into(), "mammal".into(), "rare_tag".into()],
        vec![5, 5, 5, 0],
        vec![900, 800, 700, 3],
        3,
        1,
        10,
    )
}

fn ops(script: &str) -> Vec<[String; 3]> {
    read_script(script).0
}

#[test]
fn a_script_is_read_line_by_line_as_str_lines_splits_it() {
    let (ops, unknown) = read_script("imply cat -> mammal\r\n\n   \nfrobnicate x\nalias kitty -> cat\n");
    assert_eq!(ops.len(), 2);
    assert_eq!(ops[0], ["implicate".to_string(), "cat".into(), "mammal".into()]);
    assert_eq!(ops[1], ["alias".to_string(), "kitty".into(), "cat".into()]);
    assert_eq!(unknown, 1);
    assert_eq!(read_script(""), (vec![], 0));
    assert_eq!(read_script("x\ry"), (vec![], 1));
    assert_eq!(read_script("\n\n"), (vec![], 0));
    assert_eq!(read_script("nuke a\rnuke b").1, 0);
}

#[test]
fn a_request_is_dated_by_its_update_or_else_its_creation() {
    let (bur, unknown) = read_request(
        7,
        "2015-02-03 10:00:00",
        "2016-04-05 11:00:00",
        "title".to_string(),
        "imply cat -> mammal\nwhat is this",
    );
    assert_eq!(bur.id, 7);
    assert_eq!(bur.date, "2016-04-05");
    assert_eq!(bur.title, "title");
    assert_eq!(bur.ops.len(), 1);
    assert_eq!(unknown, 1);
    let (bur, _) = read_request(8, "2015-02-03 10:00:00", "", String::new(), "");
    assert_eq!(bur.date, "2015-02-03");
    let (bur, _) = read_request(9, "short", "", String::new(), "");
    assert_eq!(bur.date, "");
}

#[test]
fn the_earliest_request_dates_an_operation() {
    let mut first = FirstRequests::new();
    let op = ["implicate".to_string(), "cat".to_string(), "mammal".to_string()];
    first.note(&op, &"2015-01-01".to_string(), 5);
    first.note(&op, &"2016-01-01".to_string(), 6);
    assert_eq!(first.get("implicate", "cat", "mammal"), Some(("2015-01-01".to_string(), 5)));
    first.note(&op, &"2015-01-01".to_string(), 4);
    assert_eq!(first.get("implicate", "cat", "mammal"), Some(("2015-01-01".to_string(), 5)));
    first.note(&op, &"2014-12-31".to_string(), 9);
    assert_eq!(first.get("implicate", "cat", "mammal"), Some(("2014-12-31".to_string(), 9)));
    assert_eq!(first.get("implicate", "mammal", "cat"), None);
    assert_eq!(first.get("alias", "cat", "mammal"), None);
}

fn bur(id: u32, date: &str) -> Bur {
    Bur { id, date: date.to_string(), title: String::new(), ops: vec![] }
}

#[test]
fn a_changelog_runs_newest_first() {
    let burs = vec![
        bur(1, "2015-01-01"),
        bur(2, "2016-01-01"),
        bur(3, "2015-01-01"),
        bur(4, "2014-06-01"),
        Bur { id: 3, date: "2015-01-01".to_string(), title: "again".to_string(), ops: vec![] },
    ];
    let out = newest_first(burs);
    let seen: Vec<(u32, &str, &str)> =
        out.iter().map(|b| (b.id, b.date.as_str(), b.title.as_str())).collect();
    assert_eq!(
        seen,
        vec![
            (2, "2016-01-01", ""),
            (3, "2015-01-01", ""),
            (3, "2015-01-01", "again"),
            (1, "2015-01-01", ""),
            (4, "2014-06-01", ""),
        ]
    );
}

#[test]
fn a_request_writes_history_on_the_nodes_it_touches() {
    let tags = table();
    let b = Bur {
        id: 42,
        date: "2018-08-08".to_string(),
        title: String::new(),
        ops: ops("imply cat -> mammal\nalias rare_tag -> dog\nnuke cat\nalias cat -> cat"),
    };
    let events = request_events(&tags, &b);
    let seen: Vec<(u32, &str, &str, &str)> = events
        .iter()
        .map(|(i, e)| (*i, e.kind.as_str(), e.other.as_str(), e.source.as_str()))
        .collect();
    assert_eq!(
        seen,
        vec![
            (0, "implicate", "mammal", "bur:42"),
            (2, "implicate", "cat", "bur:42"),
            (1, "alias", "rare_tag", "bur:42"),
            (0, "nuke", "", "bur:42"),
        ]
    );
    assert!(events.iter().all(|(_, e)| e.date == "2018-08-08" && !e.approx));
    assert_eq!(node_of_name(&tags, "rare_tag"), None);
    assert_eq!(node_of_name(&tags, "dog"), Some(1));
}

#[test]
fn an_alias_no_request_made_is_dated_by_its_row() {
    let mut first = FirstRequests::new();
    let e = alias_event(&first, &"kitty".to_string(), &"cat".to_string(), "2011-02-03 04:05:06");
    let e = e.unwrap();
    assert_eq!(
        (e.date.as_str(), e.kind.as_str(), e.other.as_str(), e.source.as_str(), e.approx),
        ("2011-02-03", "alias", "kitty", "created_at", false)
    );
    assert!(alias_event(&first, &"kitty".to_string(), &"cat".to_string(), "").is_none());
    first.note(&["alias".to_string(), "kitty".to_string(), "cat".to_string()], &"2012-01-01".to_string(), 3);
    assert!(alias_event(&first, &"kitty".to_string(), &"cat".to_string(), "2011-02-03").is_none());
}

#[test]
fn an_implication_row_leaves_history_and_a_link() {
    let tags = table();
    let (events, link) = implication_record(
        &tags,
        &"cat".to_string(),
        &"mammal".to_string(),
        &"2007-01-11".to_string(),
        None,
        true,
    );
    assert_eq!(events.len(), 2);
    assert_eq!((events[0].0, events[0].1.other.as_str()), (0, "mammal"));
    assert_eq!((events[1].0, events[1].1.other.as_str()), (2, "cat"));
    assert!(events.iter().all(|(_, e)| e.approx && e.source == "created_at" && e.kind == "implicate"));
    let NodeImplication(c, p, day, approx) = link.unwrap();
    assert_eq!((c, p, day, approx), (0, 2, Some(10), true));

    let (events, link) = implication_record(
        &tags,
        &"cat".to_string(),
        &"mammal".to_string(),
        &"2007-01-11".to_string(),
        Some(("2008-01-01".to_string(), 9)),
        true,
    );
    assert!(events.is_empty());
    let NodeImplication(_, _, day, approx) = link.unwrap();
    assert_eq!((day, approx), (Some(365), false));

    let (events, link) = implication_record(
        &tags,
        &"rare_tag".to_string(),
        &"dog".to_string(),
        &String::new(),
        None,
        false,
    );
    assert!(events.is_empty());
    assert!(link.is_none());
}
