use cmpe524_network_designer::algorithms::placement::{
    cluster_sizes, placement_layout, reassign, PlacementLayout,
};

#[test]
fn layout_depends_on_uavs_and_users() {
    assert_eq!(placement_layout(0, 10), PlacementLayout::NoUavs);
    assert_eq!(placement_layout(0, 0), PlacementLayout::NoUavs);
    assert_eq!(placement_layout(3, 3), PlacementLayout::OnePerUser);
    assert_eq!(placement_layout(5, 2), PlacementLayout::OnePerUser);
    assert_eq!(placement_layout(2, 5), PlacementLayout::Clustered);
}

#[test]
fn cluster_sizes_count_members() {
    let assignments = vec![0, 2, 2, 1, 2, 0];
    let counts = cluster_sizes(&assignments, 4);
    assert_eq!(counts, vec![2, 1, 3, 0]);
    assert_eq!(counts.iter().sum::<usize>(), assignments.len());
}

#[test]
fn cluster_sizes_of_no_users_are_zero() {
    let counts = cluster_sizes(&vec![], 3);
    assert_eq!(counts, vec![0, 0, 0]);
}

#[test]
fn reassign_reports_changes() {
    let mut assignments = vec![0, 1, 1];
    assert!(reassign(&mut assignments, &vec![0, 0, 1]));
    assert_eq!(assignments, vec![0, 0, 1]);
    assert!(!reassign(&mut assignments, &vec![0, 0, 1]));
    assert_eq!(assignments, vec![0, 0, 1]);
}
