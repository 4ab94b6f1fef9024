use atlas621::posts::{
    classify, count_batch, count_post, post_tags, Batch, Partial, PostError, RawBatch, MAX_YEARS,
    YEAR0,
};
use atlas621::pairs::Pairs;
use atlas621::tags::Tags;
use rustc_hash::FxHashMap;

fn table() -> Tags {
    let names = ["fox", "canine", "red", "solo", "rare"];
    Tags::from_parts(
        vec![10, 11, 12, 13, 14],
        names.iter().map(|s| s.to_string()).collect(),
        vec![5, 5, 0, 0, 0],
        vec![900, 800, 700, 2, 0],
        3,
        1,
        100,
    )
}

#[test]
fn rows_are_read_as_deleted_or_dated_and_rated() {
    assert_eq!(classify(b"t", b"", b""), Ok(None));
    assert_eq!(classify(b"f", b"2010-05-01 10:00:00", b"s"), Ok(Some((2010, 0))));
    assert_eq!(classify(b"f", b"2038-01-01", b"q"), Ok(Some((2038, 1))));
    assert_eq!(classify(b"f", b"2007-01-01", b"explicit"), Ok(Some((2007, 2))));
}

#[test]
fn rows_that_cannot_be_counted_say_why() {
    assert_eq!(classify(b"f", b"201", b"s"), Err(PostError::BadDate));
    assert_eq!(classify(b"f", b"20x0-01-01", b"s"), Err(PostError::BadDate));
    assert_eq!(classify(b"f", b"2006-12-31", b"s"), Err(PostError::YearOutOfRange(2006)));
    assert_eq!(classify(b"f", b"2039-01-01", b"s"), Err(PostError::YearOutOfRange(2039)));
    assert_eq!(classify(b"f", b"2010-01-01", b""), Err(PostError::UnknownRating));
    assert_eq!(classify(b"f", b"2010-01-01", b"x"), Err(PostError::UnknownRating));
    assert_eq!(classify(b"tt", b"2010-01-01", b"s"), Ok(Some((2010, 0))));
}

#[test]
fn a_post_names_its_nodes_once_and_its_tail_tags_as_often_as_written() {
    let tags = table();
    let (nodes, tails, bad) = post_tags(b"red  fox unknown fox solo solo canine", &tags);
    assert_eq!(nodes, vec![0, 1, 2]);
    assert_eq!(tails, vec![0, 0]);
    assert_eq!(bad, 0);
    let (nodes, tails, bad) = post_tags(b"rare \xff\xfe fox", &tags);
    assert_eq!(nodes, vec![0]);
    assert_eq!(tails, Vec::<u32>::new());
    assert_eq!(bad, 1);
    let (nodes, tails, bad) = post_tags(b"", &tags);
    assert!(nodes.is_empty() && tails.is_empty() && bad == 0);
}

#[test]
fn tallies_count_posts_per_node_year_and_rating() {
    let mut p = Partial::new(3, 2);
    p.record(&[0, 2], &[1, 1], 2010, 2);
    p.record(&[2], &[], 2008, 0);
    assert_eq!(p.kept, 2);
    assert_eq!(p.year_totals[3], 1);
    assert_eq!(p.year_totals[1], 1);
    assert_eq!(p.node_posts, vec![1, 0, 2]);
    assert_eq!(p.node_year[2 * MAX_YEARS + 3], 1);
    assert_eq!(p.node_year[2 * MAX_YEARS + 1], 1);
    assert_eq!(p.node_rating, vec![0, 0, 1, 0, 0, 0, 1, 0, 1]);
    assert_eq!(p.node_first_year, vec![2010, u16::MAX, 2008]);
    assert_eq!(p.tail_posts, vec![0, 2]);
    let mut q = Partial::new(3, 2);
    q.record(&[1], &[0], YEAR0, 1);
    q.bad_utf8 = 4;
    p.merge(q);
    assert_eq!(p.kept, 3);
    assert_eq!(p.bad_utf8, 4);
    assert_eq!(p.node_posts, vec![1, 1, 2]);
    assert_eq!(p.node_first_year, vec![2010, 2007, 2008]);
    assert_eq!(p.tail_posts, vec![1, 2]);
    let s = p.finish(3, 10, 7, 42);
    assert_eq!(s.years, 4);
    assert_eq!(s.year_totals, vec![1, 1, 0, 1]);
    assert_eq!(s.node_year, vec![0, 0, 0, 1, 1, 0, 0, 0, 0, 1, 0, 1]);
    assert_eq!(s.posts_total, 10);
    assert_eq!(s.posts_deleted, 7);
    assert_eq!(s.posts_kept, 3);
    assert_eq!(s.pair_increments, 42);
}

#[test]
fn no_posts_leave_no_years() {
    let s = Partial::new(2, 0).finish(2, 5, 5, 0);
    assert_eq!(s.years, 0);
    assert!(s.year_totals.is_empty() && s.node_year.is_empty());
}

#[test]
fn a_shard_counts_the_pairs_its_nodes_open() {
    let mut nodes: FxHashMap<u64, usize> = FxHashMap::default();
    let mut tails: FxHashMap<u64, usize> = FxHashMap::default();
    let inc = count_post(&[1, 2, 4], &[3, 0], 0, 2, &mut nodes, &mut tails);
    assert_eq!(inc, 1);
    assert_eq!(nodes.len(), 1);
    assert_eq!(nodes[&Pairs::key(2, 4)], 1);
    assert_eq!(tails.len(), 3);
    assert_eq!(tails[&Pairs::key(0, 1)], 1);
    assert_eq!(tails[&Pairs::key(0, 4)], 1);
    let inc = count_post(&[1, 2, 4], &[], 1, 2, &mut nodes, &mut tails);
    assert_eq!(inc, 2);
    assert_eq!(nodes[&Pairs::key(1, 2)], 1);
    assert_eq!(nodes[&Pairs::key(1, 4)], 1);
}

#[test]
fn a_batch_is_counted_post_by_post() {
    let mut batch = Batch::new();
    batch.push(&[0, 1, 2], &[0]);
    batch.push(&[1, 2], &[]);
    assert_eq!(batch.len(), 2);
    let mut nodes: FxHashMap<u64, usize> = FxHashMap::default();
    let mut tails: FxHashMap<u64, usize> = FxHashMap::default();
    let inc = count_batch(&batch, 0, 1, &mut nodes, &mut tails);
    assert_eq!(inc, 4);
    assert_eq!(nodes[&Pairs::key(1, 2)], 2);
    assert_eq!(nodes[&Pairs::key(0, 2)], 1);
    assert_eq!(tails[&Pairs::key(0, 2)], 1);
    let mut raw = RawBatch::new();
    raw.push(b"fox red", 2010, 1);
    raw.push(b"solo", 2011, 0);
    assert_eq!(raw.len(), 2);
    assert_eq!(raw.off, vec![0, 7, 11]);
    assert_eq!(raw.text, b"fox redsolo".to_vec());
}

#[test]
fn merging_two_workers_counts_as_one_worker_counting_both() {
    let posts: [(&[u32], &[u32], u16, u8); 4] = [
        (&[0, 2], &[1], 2010, 0),
        (&[1], &[], 2008, 2),
        (&[2, 2], &[0, 1], 2007, 1),
        (&[0], &[1], 2012, 0),
    ];
    let mut a = Partial::new(3, 2);
    let mut b = Partial::new(3, 2);
    let mut c = Partial::new(3, 2);
    for (k, (nodes, tails, year, rating)) in posts.iter().enumerate() {
        if k < 2 {
            a.record(nodes, tails, *year, *rating);
        } else {
            b.record(nodes, tails, *year, *rating);
        }
        c.record(nodes, tails, *year, *rating);
    }
    a.bad_utf8 = 1;
    b.bad_utf8 = 2;
    a.merge(b);
    assert_eq!(a.kept, c.kept);
    assert_eq!(a.year_totals, c.year_totals);
    assert_eq!(a.node_year, c.node_year);
    assert_eq!(a.node_rating, c.node_rating);
    assert_eq!(a.node_first_year, c.node_first_year);
    assert_eq!(a.node_posts, c.node_posts);
    assert_eq!(a.tail_posts, c.tail_posts);
    assert_eq!(a.bad_utf8, 3);
}
