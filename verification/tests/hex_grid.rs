use atlas621::hex::{basins, continent_of_region, cut_cells, disc, hex_distance, watershed, Cut};
use rustc_hash::FxHashMap;

const DIRS: [(i32, i32); 6] = [(1, 0), (0, 1), (-1, 1), (-1, 0), (0, -1), (1, -1)];

#[test]
fn disc_has_the_hex_count_of_its_rings() {
    assert_eq!(disc(0, 0, 0), vec![(0, 0)]);
    assert_eq!(disc(2, -1, 1).len(), 7);
    assert_eq!(disc(0, 0, 2).len(), 19);
    for h in disc(2, -1, 1) {
        assert!(DIRS.contains(&(h.0 - 2, h.1 + 1)) || h == (2, -1));
    }
}

#[test]
fn a_disc_comes_sorted_and_within_reach() {
    let d = disc(5, -3, 3);
    assert_eq!(d.len(), 37);
    for w in d.windows(2) {
        assert!(w[0] < w[1]);
    }
    for &h in &d {
        assert!(hex_distance(h, (5, -3)) <= 3);
    }
}

#[test]
fn hex_distances() {
    assert_eq!(hex_distance((0, 0), (0, 0)), 0);
    assert_eq!(hex_distance((0, 0), (2, -1)), 2);
    assert_eq!(hex_distance((0, 0), (3, 3)), 6);
    assert_eq!(hex_distance((-2, 1), (1, -1)), 3);
}

#[test]
fn two_peaks_split_at_the_valley_and_a_small_one_merges() {
    let hexes: Vec<(i32, i32)> = (0..12).map(|q| (q, 0)).collect();
    let counts = [1u32, 5, 30, 5, 1, 1, 5, 30, 5, 1, 1, 9];
    let b = basins(&hexes, &counts, 0, 0);
    assert!(b[..5].iter().all(|&x| x == b[0]));
    assert!(b[5..10].iter().all(|&x| x == b[5]));
    assert!(b[10..].iter().all(|&x| x == b[10]));
    assert!(b[0] != b[5] && b[5] != b[10] && b[0] != b[10]);
    let b = basins(&hexes, &counts, 0, 20);
    assert!(b[5..].iter().all(|&x| x == b[5]));
    assert!(b[0] != b[5]);
}

#[test]
fn an_island_joins_the_coast_it_can_reach_or_else_the_nearest_one() {
    let hexes: Vec<(i32, i32)> = (0..5)
        .map(|q| (q, 0))
        .chain((30..36).map(|q| (q, 0)))
        .chain([(7, 0), (20, 0)])
        .collect();
    let counts = [10u32, 10, 10, 10, 10, 10, 10, 10, 10, 10, 10, 1, 1];
    let b = basins(&hexes, &counts, 1, 5);
    assert!(b[..5].iter().all(|&x| x == b[0]));
    assert!(b[5..11].iter().all(|&x| x == b[5]));
    assert!(b[0] != b[5]);
    assert_eq!(
        b[11], b[0],
        "two hexes off the first coast, one smoothing ring each side"
    );
    assert_eq!(
        b[12], b[5],
        "out of reach of both, eight hexes from the second coast, eleven from the first"
    );
}

#[test]
fn basins_are_numbered_from_the_largest() {
    let hexes: Vec<(i32, i32)> = (0..7).map(|q| (q, 0)).collect();
    let counts = [9u32, 20, 9, 0, 1, 3, 1];
    let b = basins(&hexes, &counts, 0, 0);
    assert_eq!(b[1], 0);
    assert_eq!(b[5], 1);
    assert_eq!(b[0], b[1]);
    assert_eq!(b[6], b[5]);
}

#[test]
fn regions_follow_their_majority_continent() {
    let regions = Cut {
        membership: vec![0, 0, 0, 1, 1, 2],
        sizes: vec![3, 2, 1, 0],
    };
    let continents = Cut {
        membership: vec![4, 2, 2, 7, 3, 5],
        sizes: vec![],
    };
    assert_eq!(continent_of_region(&regions, &continents), vec![2, 3, 5, 0]);
}

#[test]
fn a_floor_above_every_basin_leaves_a_single_one() {
    let hexes: Vec<(i32, i32)> = (0..12).map(|q| (q, 0)).collect();
    let counts = [1u32, 5, 30, 5, 1, 1, 5, 30, 5, 1, 1, 9];
    let b = basins(&hexes, &counts, 0, 1000);
    assert!(b.iter().all(|&x| x == 0));
}

#[test]
fn hexes_without_nodes_get_no_number() {
    let hexes: Vec<(i32, i32)> = (0..6).map(|q| (q, 1)).collect();
    let counts = [0u32; 6];
    let b = basins(&hexes, &counts, 1, 0);
    assert!(b.iter().all(|&x| x == u32::MAX));
}

#[test]
fn each_hex_drains_into_its_densest_drained_neighbour() {
    let hexes: Vec<(i32, i32)> = (0..5).map(|q| (q, 0)).collect();
    let mut index: FxHashMap<(i32, i32), usize> = FxHashMap::default();
    for (i, &h) in hexes.iter().enumerate() {
        index.insert(h, i);
    }
    let total: Vec<u64> = vec![5, 2, 0, 1, 6];
    let order: Vec<u32> = vec![4, 0, 1, 3, 2];
    let (basin, next) = watershed(&hexes, &index, &total, &order);
    assert_eq!(next, 2);
    assert_eq!(basin, vec![1, 1, 1, 0, 0]);
}

#[test]
fn a_cut_of_cells_counts_the_nodes_of_each_hex_and_territory() {
    let per_hex = [1u32, 5, 30, 5, 1, 1, 5, 30, 5, 1, 1, 9];
    let mut cells: Vec<(i32, i32)> = Vec::new();
    for round in 0..30u32 {
        for (q, &c) in per_hex.iter().enumerate() {
            if round < c {
                cells.push((11 - q as i32, 0));
            }
        }
    }
    let cut = cut_cells(&cells, 0, 0).expect("within the limits");
    let hexes: Vec<(i32, i32)> = (0..12).map(|q| (q, 0)).collect();
    assert_eq!(cut.hexes, hexes);
    let counts: Vec<u32> = (0..12).map(|q| per_hex[11 - q]).collect();
    assert_eq!(cut.basin, basins(&hexes, &counts, 0, 0));
    for (t, c) in cells.iter().enumerate() {
        assert_eq!(cut.membership[t], cut.basin[c.0 as usize]);
    }
    assert_eq!(cut.sizes.len(), 3);
    assert_eq!(cut.sizes.iter().sum::<usize>(), cells.len());
    assert_eq!(cut.sizes, vec![42, 42, 10]);
    assert_eq!(cut.by_basin.len(), 3);
    for (b, hs) in cut.by_basin.iter().enumerate() {
        let want: Vec<(i32, i32)> = hexes.iter().copied().filter(|h| cut.basin[h.0 as usize] == b as u32).collect();
        assert_eq!(hs, &want);
    }
}

#[test]
fn a_cut_past_the_limits_is_refused() {
    assert!(cut_cells(&[(0, 0), (1 << 30, 0)], 0, 0).is_none());
    assert!(cut_cells(&[(0, 0), (1 << 28, 0)], 0, 0).is_some());
    assert!(cut_cells(&[(0, 0)], (1 << 24) + 1, 0).is_none());
    assert!(cut_cells(&[(0, 0), (5, 5)], 1 << 20, 0).is_none());
    assert!(cut_cells(&[], 3, 0).is_some());
}

#[test]
fn the_basins_of_a_cut_hold_cells_and_come_largest_first() {
    let mut cells: Vec<(i32, i32)> = Vec::new();
    for (q, n) in [(0, 2usize), (1, 7), (2, 1), (6, 4), (7, 9), (12, 3)] {
        for _ in 0..n {
            cells.push((q, 0));
        }
    }
    for rings in 0..3 {
        let cut = cut_cells(&cells, rings, 0).expect("within the limits");
        assert!(cut.sizes.iter().all(|&s| s >= 1));
        assert!(cut.sizes.windows(2).all(|w| w[0] >= w[1]));
        assert_eq!(cut.sizes.iter().sum::<usize>(), cells.len());
    }
}
