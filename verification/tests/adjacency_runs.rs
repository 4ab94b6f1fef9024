use atlas621::emit::{
    adjacency, edge_ranking, kept_subgraph, max_degree, pack_text, path_adjacency, shard_offsets,
    similar_rows, tie_neighbours, tile_level, tile_members,
};

#[test]
fn each_edge_lands_in_the_runs_of_both_its_ends() {
    let (off, far, w) = adjacency(4, &[0, 1, 0], &[1, 2, 2], &[10, 20, 30]);
    assert_eq!(off, vec![0, 2, 4, 6, 6]);
    assert_eq!(far, vec![1, 2, 0, 2, 1, 0]);
    assert_eq!(w, vec![10, 30, 10, 20, 20, 30]);
}

#[test]
fn shard_offsets_count_from_the_shard_start() {
    assert_eq!(shard_offsets(&[0, 2, 4, 6, 6], 2, 4), vec![0, 2, 2]);
    assert_eq!(shard_offsets(&[0, 2, 4, 6, 6], 0, 1), vec![0, 2]);
}

#[test]
fn the_path_graph_keeps_edges_between_kept_nodes() {
    let post_counts = [5u32, 1, 9, 7];
    let (nodes, off, far, w) = path_adjacency(&[0, 2, 0, 1], &[1, 3, 3, 2], &[1, 2, 3, 4], &post_counts, 5);
    assert_eq!(nodes, vec![0, 2, 3]);
    assert_eq!(off, vec![0, 1, 2, 4]);
    assert_eq!(far, vec![3, 3, 2, 0]);
    assert_eq!(w, vec![3, 2, 2, 3]);
}

#[test]
fn text_entries_pack_into_objects_under_the_target() {
    let pieces: Vec<Vec<u8>> = ["\"0\":1", "\"1\":2", "\"2\":3"]
        .iter()
        .map(|p| p.as_bytes().to_vec())
        .collect();
    let (shards, starts) = pack_text(&pieces, 13);
    assert_eq!(shards, vec![b"{\"0\":1,\"1\":2}".to_vec(), b"{\"2\":3}".to_vec()]);
    assert_eq!(starts, vec![0, 2]);
    let (shards, starts) = pack_text(&pieces, 100);
    assert_eq!(shards, vec![b"{\"0\":1,\"1\":2,\"2\":3}".to_vec()]);
    assert_eq!(starts, vec![0]);
    let (shards, starts) = pack_text(&pieces, 1);
    assert_eq!(shards.len(), 3);
    assert_eq!(starts, vec![0, 1, 2]);
    let (shards, starts) = pack_text(&Vec::new(), 10);
    assert!(shards.is_empty() && starts.is_empty());
}

#[test]
fn the_core_keeps_its_nodes_and_the_edges_between_them() {
    let (nodes, row, ids) = kept_subgraph(&[0, 2, 0, 1], &[1, 3, 3, 2], &[5, 1, 9, 7], 5);
    assert_eq!(nodes, vec![0, 2, 3]);
    assert_eq!(row, vec![0, u32::MAX, 1, 2]);
    assert_eq!(ids, vec![1, 2]);
}

#[test]
fn edges_rank_heaviest_first_then_by_their_ends() {
    let weight = [5u16, 9, 5, 5, 9];
    let a = [3u32, 1, 2, 2, 0];
    let b = [4u32, 2, 7, 3, 5];
    assert_eq!(edge_ranking(&weight, &a, &b), vec![4, 1, 3, 2, 0]);
    let order = edge_ranking(&[1, 1], &[0, 0], &[1, 1]);
    assert_eq!(order, vec![0, 1]);
}

#[test]
fn the_largest_degree_counts_both_ends() {
    assert_eq!(max_degree(4, &[0, 1, 1], &[1, 2, 3]), 3);
    assert_eq!(max_degree(3, &[], &[]), 0);
    assert_eq!(max_degree(0, &[], &[]), 0);
}

#[test]
fn each_node_keeps_its_first_ties() {
    let lists = tie_neighbours(&[2, 0, 1], &[0, 0, 1], &[1, 2, 2], &[10, 20, 30], &[4, 5, 6], 3, 1);
    assert_eq!(lists, vec![vec![(1, 10, 4)], vec![(2, 30, 6)], vec![(1, 30, 6)]]);
    let lists = tie_neighbours(&[2, 0, 1], &[0, 0, 1], &[1, 2, 2], &[10, 20, 30], &[4, 5, 6], 3, 5);
    assert_eq!(lists[0], vec![(1, 10, 4), (2, 20, 5)]);
    assert_eq!(lists[1], vec![(2, 30, 6), (0, 10, 4)]);
    assert_eq!(lists[2], vec![(1, 30, 6), (0, 20, 5)]);
}

#[test]
fn ranks_fall_into_the_level_of_their_first_cutoff_and_their_cell() {
    assert_eq!(tile_level(&[2, 5], 0), 0);
    assert_eq!(tile_level(&[2, 5], 2), 1);
    assert_eq!(tile_level(&[2, 5], 4), 1);
    assert_eq!(tile_level(&[2, 5], 5), 2);
    assert_eq!(tile_level(&[], 7), 0);
    let members = tile_members(&[0, 1, 1, 0, 1], &[0, 3, 0, 0, 3], &[1, 4]);
    assert_eq!(members, vec![vec![vec![0, 3]], vec![vec![2], vec![], vec![], vec![1, 4]]]);
}

#[test]
fn similar_rows_name_core_nodes_and_skip_missing_neighbours() {
    let mut lists: Vec<Vec<(u32, u16)>> = vec![Vec::new(); 6];
    // three core nodes with rows of two neighbours each
    similar_rows(&mut lists, &[4, 0, 2], &[1, 2, 0, 2, 1, 0], &[9, 8, 7, 6, 5, 4], &[4, 0, 2], 1, false);
    assert_eq!(lists[4], vec![(0, 9)]);
    assert_eq!(lists[0], vec![(4, 7)]);
    assert_eq!(lists[2], vec![(0, 5)]);
    // two tail nodes, one row holding a missing neighbour
    similar_rows(&mut lists, &[1, 3], &[u32::MAX, 2, 0, 1], &[3, 2, 1, 0], &[4, 0, 2], 5, true);
    assert_eq!(lists[1], vec![(2, 2)]);
    assert_eq!(lists[3], vec![(4, 1), (0, 0)]);
    assert!(lists[5].is_empty());
}
