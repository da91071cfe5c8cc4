use cmpe524_network_designer::algorithms::association::{connections, AssociationPlan, IlpAssociation};

#[test]
fn empty_requests_need_no_optimisation() {
    let strategy = IlpAssociation;
    assert_eq!(strategy.plan(0, 0, 5), Ok(AssociationPlan::Empty));
    assert_eq!(strategy.plan(0, 3, 5), Ok(AssociationPlan::Empty));
}

#[test]
fn users_without_uavs_are_infeasible() {
    let strategy = IlpAssociation;
    assert_eq!(
        strategy.plan(1, 0, 5),
        Err("Infeasible: 1 users exceed total network capacity of 0".to_string())
    );
    assert_eq!(
        strategy.plan(4, 0, 5),
        Err("Infeasible: 4 users exceed total network capacity of 0".to_string())
    );
}

#[test]
fn users_beyond_capacity_are_infeasible() {
    let strategy = IlpAssociation;
    let result = strategy.plan(5, 2, 2);
    assert_eq!(
        result,
        Err("Infeasible: 5 users exceed total network capacity of 4".to_string())
    );
    let result = strategy.plan(1, 3, 0);
    assert_eq!(
        result,
        Err("Infeasible: 1 users exceed total network capacity of 0".to_string())
    );
    let result = strategy.plan(12345, 10, 100);
    assert_eq!(
        result,
        Err("Infeasible: 12345 users exceed total network capacity of 1000".to_string())
    );
}

#[test]
fn users_within_capacity_are_optimised() {
    let strategy = IlpAssociation;
    assert_eq!(strategy.plan(2, 2, 5), Ok(AssociationPlan::Optimize));
    assert_eq!(strategy.plan(3, 2, 2), Ok(AssociationPlan::Optimize));
    assert_eq!(strategy.plan(4, 2, 2), Ok(AssociationPlan::Optimize));
}

#[test]
fn capacity_beyond_usize_is_never_exceeded() {
    let strategy = IlpAssociation;
    assert_eq!(
        strategy.plan(usize::MAX, usize::MAX, usize::MAX),
        Ok(AssociationPlan::Optimize)
    );
    assert_eq!(strategy.plan(usize::MAX, 2, usize::MAX / 2 + 1), Ok(AssociationPlan::Optimize));
}

#[test]
fn connections_follow_the_matrix() {
    let matrix = vec![
        vec![true, false],
        vec![false, true],
        vec![true, false],
    ];
    let (uav_of_user, users_of_uav) = connections(&matrix, 2);
    assert_eq!(uav_of_user, vec![Some(0), Some(1), Some(0)]);
    assert_eq!(users_of_uav, vec![vec![0, 2], vec![1]]);
}

#[test]
fn a_user_marked_twice_ends_on_the_last_uav() {
    let matrix = vec![vec![true, false, true], vec![false, false, false]];
    let (uav_of_user, users_of_uav) = connections(&matrix, 3);
    assert_eq!(uav_of_user, vec![Some(2), None]);
    assert_eq!(users_of_uav, vec![vec![0], vec![], vec![0]]);
}

#[test]
fn unmarked_columns_beyond_the_uavs_are_ignored() {
    let matrix = vec![vec![false, true, false, false], vec![true]];
    let (uav_of_user, users_of_uav) = connections(&matrix, 2);
    assert_eq!(uav_of_user, vec![Some(1), Some(0)]);
    assert_eq!(users_of_uav, vec![vec![1], vec![0]]);
}

#[test]
fn an_empty_matrix_connects_nobody() {
    let matrix: Vec<Vec<bool>> = vec![];
    let (uav_of_user, users_of_uav) = connections(&matrix, 2);
    assert!(uav_of_user.is_empty());
    assert_eq!(users_of_uav, vec![Vec::<usize>::new(), Vec::new()]);
}
