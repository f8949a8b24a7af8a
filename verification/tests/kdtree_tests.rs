use kdtree::circle::Circle;
use kdtree::{
    create_from_vector, eucladian_distance, eucladian_distance_squared, nearest_neighbour_search,
    KdTree, Node, TreeError,
};

fn sample_tree() -> KdTree {
    let mut tree = KdTree::new();
    tree.insert(vec![6, 4], 0);
    tree.insert(vec![5, 2], 0);
    tree.insert(vec![4, 7], 0);
    tree.insert(vec![8, 6], 0);
    tree.insert(vec![2, 1], 0);
    tree.insert(vec![9, 3], 0);
    tree.insert(vec![2, 8], 0);
    tree
}

fn point_of(node: &Node) -> Vec<i32> {
    node.point().clone()
}

#[test]
fn insert_test() {
    let mut root = KdTree::new();
    root.insert(vec![51, 75], 0);
    root.insert(vec![25, 40], 0);
    root.insert(vec![70, 70], 0);
    root.insert(vec![10, 30], 0);
    root.insert(vec![35, 90], 0);
    root.insert(vec![55, 1], 0);

    let n = root.root().as_ref().unwrap();
    assert_eq!(point_of(n), vec![51, 75]);
    assert_eq!(n.discriminant(), 0);

    let left = n.left().unwrap();
    assert_eq!(point_of(left), vec![25, 40]);
    assert_eq!(left.discriminant(), 1);
    let ll = left.left().unwrap();
    assert_eq!(point_of(ll), vec![10, 30]);
    assert_eq!(ll.discriminant(), 0);
    assert!(ll.left().is_none() && ll.right().is_none());
    let lr = left.right().unwrap();
    assert_eq!(point_of(lr), vec![35, 90]);
    assert_eq!(lr.discriminant(), 0);
    assert!(lr.left().is_none() && lr.right().is_none());

    let right = n.right().unwrap();
    assert_eq!(point_of(right), vec![70, 70]);
    assert_eq!(right.discriminant(), 1);
    let rl = right.left().unwrap();
    assert_eq!(point_of(rl), vec![55, 1]);
    assert_eq!(rl.discriminant(), 0);
    assert!(rl.left().is_none() && rl.right().is_none());
    assert!(right.right().is_none());
}

#[test]
fn range_search_test() {
    let tree = sample_tree();
    // Radius 1.5 around [3, 7], carried exactly as the fraction 3/2.
    let range: Circle = Circle::new(vec![3, 7], 3, 2);

    let range_search_result: Vec<Vec<i32>> = KdTree::range_search(&range, tree.root());
    let expected_result: Vec<Vec<i32>> = vec![vec![4, 7], vec![2, 8]];
    assert_eq!(range_search_result, expected_result);
}

#[test]
fn ortogonal_rsearch_test() {
    let tree = sample_tree();

    let lower_bound = vec![1, 5];
    let upper_bound = vec![5, 9];
    let range_search_result: Vec<Vec<i32>> =
        KdTree::ortogonal_rsearch(&lower_bound, tree.root().as_ref(), &upper_bound, 0);

    let expected_result: Vec<Vec<i32>> = vec![vec![4, 7], vec![2, 8]];
    assert_eq!(range_search_result, expected_result);
}

#[test]
fn create_from_vector_test() {
    let tree = create_from_vector(
        &vec![
            vec![7, 2],
            vec![5, 4],
            vec![9, 6],
            vec![2, 3],
            vec![4, 7],
            vec![8, 1],
        ],
        0,
    );

    let root = tree.unwrap();
    let n = root.as_ref().unwrap();
    assert_eq!(point_of(n), vec![7, 2]);
    assert_eq!(n.discriminant(), 0);

    let left = n.left().unwrap();
    assert_eq!(point_of(left), vec![5, 4]);
    assert_eq!(left.discriminant(), 1);
    let ll = left.left().unwrap();
    assert_eq!(point_of(ll), vec![2, 3]);
    assert_eq!(ll.discriminant(), 0);
    assert!(ll.left().is_none() && ll.right().is_none());
    let lr = left.right().unwrap();
    assert_eq!(point_of(lr), vec![4, 7]);
    assert_eq!(lr.discriminant(), 0);
    assert!(lr.left().is_none() && lr.right().is_none());

    let right = n.right().unwrap();
    assert_eq!(point_of(right), vec![9, 6]);
    assert_eq!(right.discriminant(), 1);
    let rl = right.left().unwrap();
    assert_eq!(point_of(rl), vec![8, 1]);
    assert_eq!(rl.discriminant(), 0);
    assert!(rl.left().is_none() && rl.right().is_none());
    assert!(right.right().is_none());
}

#[test]
fn minimun_node_test() {
    let tree = sample_tree();

    let min_result: Vec<i32> = KdTree::find_min(tree.root(), 0, 0);
    let expected_result: Vec<i32> = vec![2, 8];

    assert_eq!(expected_result, min_result);
}

#[test]
fn nearest_neighbour_search_test() {
    let tree = sample_tree();
    let query_point: Vec<i32> = vec![9, 8];

    let result = nearest_neighbour_search(tree.root().as_ref(), &query_point).unwrap();
    let expected_result = vec![8, 6];
    assert_eq!(expected_result, result);
}

#[test]
fn nearest_on_empty_tree_fails() {
    let tree = KdTree::new();
    let query_point: Vec<i32> = vec![0, 0];
    let result = nearest_neighbour_search(tree.root().as_ref(), &query_point);
    assert_eq!(result, Err(TreeError::Empty));
}

#[test]
fn create_from_vector_empty_fails() {
    let empty: Vec<Vec<i32>> = Vec::new();
    let result = create_from_vector(&empty, 0);
    assert!(matches!(result, Err(TreeError::InvalidInput)));
}

#[test]
fn duplicate_points_are_both_kept() {
    let mut tree = KdTree::new();
    tree.insert(vec![5, 5], 0);
    tree.insert(vec![5, 5], 0);
    tree.insert(vec![3, 1], 0);

    let all = KdTree::ortogonal_rsearch(
        &vec![i32::MIN, i32::MIN],
        tree.root().as_ref(),
        &vec![i32::MAX, i32::MAX],
        0,
    );
    assert_eq!(all.len(), 3);
    assert_eq!(all.iter().filter(|p| *p == &vec![5, 5]).count(), 2);
    assert_eq!(all.iter().filter(|p| *p == &vec![3, 1]).count(), 1);
}

#[test]
fn bulk_build_round_trip() {
    let points = vec![
        vec![6, 4],
        vec![5, 2],
        vec![4, 7],
        vec![8, 6],
        vec![2, 1],
        vec![9, 3],
    ];
    let root = create_from_vector(&points, 0).unwrap();

    let mut all = KdTree::ortogonal_rsearch(
        &vec![i32::MIN, i32::MIN],
        root.as_ref(),
        &vec![i32::MAX, i32::MAX],
        0,
    );
    let mut expected = points.clone();
    all.sort();
    expected.sort();
    assert_eq!(all, expected);
}

#[test]
fn distances_are_exact() {
    assert_eq!(eucladian_distance_squared(&vec![0, 0], &vec![3, 4]), 25);
    assert_eq!(eucladian_distance_squared(&vec![-2, 1], &vec![1, -3]), 25);
    assert_eq!(eucladian_distance_squared(&vec![7, 7], &vec![7, 7]), 0);
    assert_eq!(eucladian_distance(&vec![0, 0], &vec![3, 4]), 5);
    // Squared distance 2: the unsquared distance rounds down to 1.
    assert_eq!(eucladian_distance(&vec![0, 0], &vec![1, 1]), 1);
}

#[test]
fn equal_points_compares_coordinates() {
    let mut tree = KdTree::new();
    tree.insert(vec![4, 9], 0);
    let n = tree.root().as_ref().unwrap();
    assert!(KdTree::equal_points(n, &vec![4, 9]));
    assert!(!KdTree::equal_points(n, &vec![4, 8]));
    assert!(!KdTree::equal_points(n, &vec![9, 4]));
}

#[test]
fn is_empty_reports_storage() {
    let mut tree = KdTree::new();
    assert!(tree.is_empty());
    tree.insert(vec![1, 2], 0);
    assert!(!tree.is_empty());
}

#[test]
fn range_search_on_empty_tree_is_empty() {
    let tree = KdTree::new();
    let circle = Circle::new(vec![0, 0], 10, 1);
    let result = KdTree::range_search(&circle, tree.root());
    assert!(result.is_empty());
}

#[test]
fn distance_helper_tests_open_disk() {
    let mut tree = KdTree::new();
    tree.insert(vec![4, 7], 0);
    let n = tree.root().as_ref().unwrap();
    // Distance from [4,7] to [3,7] is 1; inside radius 3/2, outside radius 1
    // (the disk is open), outside radius 1/2.
    assert!(KdTree::distance_helper(&Circle::new(vec![3, 7], 3, 2), n));
    assert!(!KdTree::distance_helper(&Circle::new(vec![3, 7], 1, 1), n));
    assert!(!KdTree::distance_helper(&Circle::new(vec![3, 7], 1, 2), n));
}

#[test]
fn find_min_on_second_axis() {
    let tree = sample_tree();
    let min_result: Vec<i32> = KdTree::find_min(tree.root(), 0, 1);
    assert_eq!(min_result, vec![2, 1]);
}

#[test]
fn orthogonal_box_straddles_root_plane() {
    // The box straddles the root's splitting plane, so both subtrees must
    // be visited.
    let tree = sample_tree();
    let mut result = KdTree::ortogonal_rsearch(&vec![2, 1], tree.root().as_ref(), &vec![8, 6], 0);
    let mut expected = vec![vec![6, 4], vec![5, 2], vec![8, 6], vec![2, 1]];
    result.sort();
    expected.sort();
    assert_eq!(result, expected);
}

#[test]
fn insert_rejects_wrong_dimensionality() {
    let mut tree = KdTree::new();
    assert_eq!(tree.insert(vec![1, 2, 3], 0), Err(TreeError::InvalidInput));
    assert_eq!(tree.insert(vec![7], 0), Err(TreeError::InvalidInput));
    assert!(tree.is_empty());
    assert_eq!(tree.insert(vec![1, 2], 0), Ok(()));
    assert!(!tree.is_empty());
}

#[test]
fn create_from_vector_rejects_median_ties() {
    // The point just before the median shares the median's coordinate on
    // the sort axis: the strict left-partition rule cannot hold under
    // positional median splitting.
    let tied = vec![vec![1, 1], vec![1, 2]];
    assert!(matches!(
        create_from_vector(&tied, 0),
        Err(TreeError::InvalidInput)
    ));
    // Identical duplicate points are rejected for the same reason.
    let dup = vec![vec![2, 2], vec![2, 2]];
    assert!(matches!(
        create_from_vector(&dup, 0),
        Err(TreeError::InvalidInput)
    ));
}

#[test]
fn create_from_vector_accepts_off_axis_ties() {
    // A shared coordinate away from the sort axis is no obstacle: the
    // median split is decided on the first axis here.
    let tied_y = vec![vec![3, 5], vec![4, 5]];
    let root = create_from_vector(&tied_y, 0).unwrap();
    let n = root.as_ref().unwrap();
    assert_eq!(point_of(n), vec![4, 5]);
    assert_eq!(point_of(n.left().unwrap()), vec![3, 5]);
    assert!(n.right().is_none());

    // A collinear point set builds as well.
    let collinear = vec![vec![1, 5], vec![2, 5], vec![3, 5]];
    let root = create_from_vector(&collinear, 0).unwrap();
    let n = root.as_ref().unwrap();
    assert_eq!(point_of(n), vec![2, 5]);
    assert_eq!(point_of(n.left().unwrap()), vec![1, 5]);
    assert_eq!(point_of(n.right().unwrap()), vec![3, 5]);
}

#[test]
fn create_from_vector_rejects_wrong_dimensionality() {
    let bad = vec![vec![1, 2], vec![3, 4, 5]];
    assert!(matches!(
        create_from_vector(&bad, 0),
        Err(TreeError::InvalidInput)
    ));
}

#[test]
fn nearest_rejects_wrong_dimensionality() {
    let tree = sample_tree();
    let bad_query: Vec<i32> = vec![1, 2, 3];
    let result = nearest_neighbour_search(tree.root().as_ref(), &bad_query);
    assert_eq!(result, Err(TreeError::InvalidInput));
}
