use atlas621::names::names;

#[test]
fn hubs_name_their_family_and_the_rest_fall_back_to_members() {
    let membership = [0u32, 0, 0, 0, 1, 1, 1];
    let post_counts = [50u32, 40, 30, 20, 500, 200, 150];
    let categories = [0u8; 7];
    let fit_ranked = vec![vec![4u32, 0], vec![]];
    let out = names(&[0, 1], &[true, false], &fit_ranked, &membership, &post_counts, &categories, 2);
    assert_eq!(out[0], vec![4, 0]);
    assert_eq!(out[1], vec![5, 6]);
}

#[test]
fn a_taken_first_name_falls_through_to_the_family() {
    let membership = [0u32, 0, 1, 1, 2];
    let post_counts = [50u32, 50, 50, 50, 1000];
    let categories = [0u8; 5];
    let fit_ranked = vec![vec![4u32], vec![4], vec![]];
    let out = names(
        &[0, 1, 2],
        &[true, true, false],
        &fit_ranked,
        &membership,
        &post_counts,
        &categories,
        2,
    );
    assert_eq!(out[0], vec![4]);
    assert_eq!(out[1], vec![2, 3]);
    assert_eq!(out[2], vec![4]);
}

#[test]
fn general_members_come_before_the_others() {
    let membership = [0u32, 0, 0];
    let post_counts = [10u32, 900, 5];
    let categories = [0u8, 4, 0];
    let out = names(&[0], &[false], &[vec![]], &membership, &post_counts, &categories, 3);
    assert_eq!(out[0], vec![0, 2]);
    let categories = [1u8, 4, 3];
    let out = names(&[0], &[false], &[vec![]], &membership, &post_counts, &categories, 3);
    assert_eq!(out[0], vec![1, 0, 2]);
}

#[test]
fn when_every_name_is_taken_the_candidates_stay() {
    let membership = [0u32, 1];
    let post_counts = [5u32, 9];
    let categories = [0u8; 2];
    let fit_ranked = vec![vec![1u32], vec![]];
    let out = names(&[0, 1], &[true, false], &fit_ranked, &membership, &post_counts, &categories, 1);
    assert_eq!(out, vec![vec![1], vec![1]]);
}

#[test]
fn no_names_are_taken_when_none_are_asked_for() {
    let membership = [0u32, 1];
    let post_counts = [5u32, 9];
    let categories = [0u8; 2];
    let out = names(&[1, 0], &[false, false], &[vec![], vec![]], &membership, &post_counts, &categories, 0);
    assert_eq!(out, vec![Vec::<u32>::new(), Vec::new()]);
}

#[test]
fn ties_in_posts_go_by_id() {
    let membership = [0u32, 0, 0];
    let post_counts = [7u32, 7, 8];
    let categories = [0u8; 3];
    let out = names(&[0], &[false], &[vec![]], &membership, &post_counts, &categories, 3);
    assert_eq!(out[0], vec![2, 0, 1]);
}
