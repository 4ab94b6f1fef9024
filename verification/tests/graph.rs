use atlas621::bin::{read_all, write_all, ReadError};
use atlas621::csr::Csr;
use atlas621::pairs::Pairs;

#[test]
fn rows_hold_the_right_neighbors() {
    let links = [(0u32, 1u32, 1.0f32), (1, 2, 2.0), (0, 3, 3.0)];
    let both = Csr::symmetric(4, &links);
    assert_eq!(both.row(0), vec![(1, 1.0), (3, 3.0)]);
    assert_eq!(both.row(1), vec![(0, 1.0), (2, 2.0)]);
    assert_eq!(both.row(2), vec![(1, 2.0)]);
    assert_eq!(both.row(3), vec![(0, 3.0)]);
    assert_eq!(both.len(), 6);
    let one_way = Csr::directed(4, &links);
    assert_eq!(one_way.row(0), vec![(1, 1.0), (3, 3.0)]);
    assert_eq!(one_way.degree(1), 1);
    assert_eq!(one_way.degree(3), 0);
}

#[test]
fn a_directed_graph_keeps_the_order_links_came_in() {
    let links = [(2u32, 0u32, 7u32), (0, 1, 5), (2, 1, 9), (0, 2, 4)];
    let g = Csr::directed(3, &links);
    assert_eq!(g.row(0), vec![(1, 5), (2, 4)]);
    assert_eq!(g.row(1), vec![]);
    assert_eq!(g.row(2), vec![(0, 7), (1, 9)]);
    assert_eq!(g.len(), 4);
    assert_eq!(g.degree(2), 2);
}

#[test]
fn a_symmetric_graph_has_two_entries_per_link() {
    let links = [(0u32, 0u32, 1u8), (1, 0, 2)];
    let g = Csr::symmetric(2, &links);
    assert_eq!(g.len(), 4);
    assert_eq!(g.row(0), vec![(0, 1), (0, 1), (1, 2)]);
    assert_eq!(g.row(1), vec![(0, 2)]);
}

#[test]
fn pair_keys_pack_the_high_half_first() {
    assert_eq!(Pairs::key(1, 2), (1u64 << 32) | 2);
    assert_eq!(Pairs::key(0, u32::MAX), u32::MAX as u64);
    assert_eq!(Pairs::key(u32::MAX, 0), (u32::MAX as u64) << 32);
    let p = Pairs {
        keys: vec![Pairs::key(7, 3), Pairs::key(0, 9)],
        counts: vec![11, 4],
    };
    assert_eq!(p.iter(), vec![(7, 3, 11), (0, 9, 4)]);
}

#[test]
fn pairs_with_uneven_columns_stop_at_the_shorter() {
    let p = Pairs {
        keys: vec![Pairs::key(1, 1), Pairs::key(2, 2)],
        counts: vec![5],
    };
    assert_eq!(p.iter(), vec![(1, 1, 5)]);
}

#[test]
fn values_read_back_as_they_were_written() {
    let values: Vec<u32> = vec![0, 1, 0x0102_0304, u32::MAX];
    let mut bytes = Vec::new();
    write_all(&mut bytes, &values);
    assert_eq!(bytes.len(), 16);
    assert_eq!(&bytes[8..12], &[4, 3, 2, 1]);
    assert_eq!(read_all::<u32>(&bytes), Ok(values));
    let wide: Vec<u64> = vec![1 << 40, 3];
    let mut bytes = Vec::new();
    write_all(&mut bytes, &wide);
    assert_eq!(read_all::<u64>(&bytes), Ok(wide));
    let small: Vec<u16> = vec![0xabcd];
    let mut bytes = Vec::new();
    write_all(&mut bytes, &small);
    assert_eq!(bytes, vec![0xcd, 0xab]);
    assert_eq!(read_all::<u16>(&bytes), Ok(small));
}

#[test]
fn a_ragged_file_is_refused() {
    let bytes = vec![1u8, 2, 3, 4, 5];
    assert_eq!(read_all::<u32>(&bytes), Err(ReadError::Misaligned));
    assert_eq!(read_all::<u8>(&bytes), Ok(bytes.clone()));
}
