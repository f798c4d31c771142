use greenfield_engine::clumps::{
    consumed_indices, friends_of_friends, group_members, link_components, Clump,
};

#[test]
fn linked_particles_share_a_component_and_unlinked_do_not() {
    let links = vec![(0, 1), (1, 2), (4, 5)];
    let labels = link_components(7, &links);
    assert_eq!(labels.len(), 7);
    assert_eq!(labels[0], labels[1]);
    assert_eq!(labels[1], labels[2]);
    assert_eq!(labels[4], labels[5]);
    assert_ne!(labels[0], labels[4]);
    assert_ne!(labels[3], labels[0]);
    assert_ne!(labels[3], labels[4]);
    assert_ne!(labels[6], labels[3]);
}

#[test]
fn friends_of_friends_finds_two_blobs_and_singletons() {
    // Two chained blobs (0..4 and 5..9) plus five isolated particles 10..14, links given out of order.
    let links = vec![(3, 4), (0, 1), (2, 3), (1, 2), (9, 8), (5, 6), (7, 8), (6, 7), (0, 4)];
    let clumps = friends_of_friends(15, &links);
    assert_eq!(clumps.len(), 2 + 5, "2 bodies + 5 residual singletons");
    assert_eq!(clumps[0], vec![0, 1, 2, 3, 4]);
    assert_eq!(clumps[1], vec![5, 6, 7, 8, 9]);
    for (g, c) in clumps[2..].iter().enumerate() {
        assert_eq!(c, &vec![10 + g]);
    }
}

#[test]
fn no_links_means_every_particle_alone() {
    let clumps = friends_of_friends(4, &Vec::new());
    assert_eq!(clumps, vec![vec![0], vec![1], vec![2], vec![3]]);
    assert!(friends_of_friends(0, &Vec::new()).is_empty());
}

#[test]
fn grouping_is_ordered_by_smallest_member() {
    let labels = vec![2, 2, 0, 2, 0];
    assert_eq!(group_members(&labels), vec![vec![0, 1, 3], vec![2, 4]]);
}

#[test]
fn only_bound_multi_member_clumps_outside_roche_accrete() {
    let c = |m: Vec<usize>, bound: bool, out: bool| Clump { members: m, bound, outside_roche: out };
    assert!(c(vec![0, 1], true, true).accretes());
    assert!(!c(vec![0], true, true).accretes(), "singletons never accrete");
    assert!(!c(vec![0, 1, 2], false, true).accretes(), "hot unbound group must not accrete");
    assert!(!c(vec![0, 1, 2], true, false).accretes(), "inside Roche it shreds instead");
}

#[test]
fn consumed_indices_are_the_sorted_members_of_accreting_clumps() {
    let clumps = vec![
        Clump { members: vec![7, 2, 9], bound: true, outside_roche: true },
        Clump { members: vec![4], bound: true, outside_roche: true },
        Clump { members: vec![0, 5], bound: false, outside_roche: true },
        Clump { members: vec![3, 1], bound: true, outside_roche: true },
    ];
    assert_eq!(consumed_indices(&clumps, 10), vec![1, 2, 3, 7, 9]);
    assert!(consumed_indices(&Vec::new(), 10).is_empty());
}
