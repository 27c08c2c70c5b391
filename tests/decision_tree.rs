use rustml::impurity::{gini, plurality_of, same_pairs_of};
use rustml::split::{best_split, partition, split_cost};
use rustml::tree::{DecisionTree, TreeError, TreeNode};

fn column(values: &[i64]) -> Vec<Vec<i64>> {
    values.iter().map(|v| vec![*v]).collect()
}

fn height(node: &TreeNode) -> usize {
    match node {
        TreeNode::Leaf { .. } => 0,
        TreeNode::Decision { left, right, .. } => 1 + height(left).max(height(right)),
    }
}

fn leaf_value(node: &TreeNode) -> Option<i64> {
    match node {
        TreeNode::Leaf { value } => Some(*value),
        _ => None,
    }
}

#[test]
fn uniform_labels_make_one_leaf() {
    let x = vec![vec![3, 9], vec![1, 4], vec![7, 2], vec![5, 5], vec![0, 8]];
    let y = vec![0, 0, 0, 0, 0];
    let mut tree = DecisionTree::new(5);
    assert_eq!(tree.fit(&x, &y), Ok(()));
    assert_eq!(leaf_value(tree.root().unwrap()), Some(0));
    let q = vec![vec![100, -100], vec![-5, 6]];
    assert_eq!(tree.predict(&q), Ok(vec![0, 0]));
}

#[test]
fn uniform_labels_any_depth() {
    let x = column(&[4, 2, 9]);
    let y = vec![7, 7, 7];
    for d in [1usize, 2, 10] {
        let mut tree = DecisionTree::new(d);
        assert_eq!(tree.fit(&x, &y), Ok(()));
        assert_eq!(leaf_value(tree.root().unwrap()), Some(7));
    }
}

#[test]
fn one_split_on_four_points() {
    let x = column(&[1, 2, 3, 4]);
    let y = vec![0, 0, 1, 1];
    let mut tree = DecisionTree::new(1);
    assert_eq!(tree.fit(&x, &y), Ok(()));
    match tree.root().unwrap() {
        TreeNode::Decision { feature, threshold, left, right } => {
            assert_eq!(*feature, 0);
            assert_eq!(*threshold, 2);
            assert_eq!(leaf_value(left), Some(0));
            assert_eq!(leaf_value(right), Some(1));
        }
        TreeNode::Leaf { .. } => panic!("expected a decision at the root"),
    }
    assert_eq!(tree.predict(&column(&[0, 2, 3, 10])), Ok(vec![0, 0, 1, 1]));
}

#[test]
fn zero_depth_gives_plurality_leaf() {
    let x = column(&[1, 2, 3, 4, 5]);
    let y = vec![1, 2, 2, 1, 2];
    let mut tree = DecisionTree::new(0);
    assert_eq!(tree.fit(&x, &y), Ok(()));
    assert_eq!(leaf_value(tree.root().unwrap()), Some(2));
}

#[test]
fn zero_depth_tie_goes_to_first_seen() {
    let x = column(&[1, 2, 3, 4]);
    let y = vec![3, 1, 1, 3];
    let mut tree = DecisionTree::new(0);
    assert_eq!(tree.fit(&x, &y), Ok(()));
    assert_eq!(leaf_value(tree.root().unwrap()), Some(3));
}

#[test]
fn predict_with_wrong_column_count() {
    let x = column(&[1, 2, 3, 4]);
    let y = vec![0, 0, 1, 1];
    let mut tree = DecisionTree::new(2);
    assert_eq!(tree.fit(&x, &y), Ok(()));
    assert_eq!(tree.predict(&vec![vec![1, 2]]), Err(TreeError::ShapeMismatch));
    assert_eq!(tree.predict(&vec![vec![1], vec![]]), Err(TreeError::ShapeMismatch));
}

#[test]
fn predict_before_fit() {
    let tree = DecisionTree::new(3);
    assert_eq!(tree.predict(&column(&[1])), Err(TreeError::NotTrained));
    assert!(tree.root().is_none());
}

#[test]
fn refitting_gives_same_predictions() {
    let x = vec![vec![1, 8], vec![2, 7], vec![3, 6], vec![4, 5], vec![5, 4], vec![6, 3]];
    let y = vec![0, 1, 0, 1, 1, 0];
    let q = vec![vec![0, 0], vec![3, 3], vec![6, 9], vec![2, 7]];
    let mut a = DecisionTree::new(3);
    let mut b = DecisionTree::new(3);
    assert_eq!(a.fit(&x, &y), Ok(()));
    assert_eq!(b.fit(&x, &y), Ok(()));
    let first = a.predict(&q);
    assert_eq!(a.fit(&x, &y), Ok(()));
    assert_eq!(a.predict(&q), first);
    assert_eq!(b.predict(&q), first);
}

#[test]
fn depth_bound_holds() {
    let x = column(&[1, 2, 3, 4, 5, 6, 7, 8]);
    let y = vec![0, 1, 0, 1, 0, 1, 0, 1];
    for d in 0..5usize {
        let mut tree = DecisionTree::new(d);
        assert_eq!(tree.fit(&x, &y), Ok(()));
        assert!(height(tree.root().unwrap()) <= d);
    }
    let mut deep = DecisionTree::new(20);
    assert_eq!(deep.fit(&x, &y), Ok(()));
    assert_eq!(deep.predict(&x), Ok(y.clone()));
}

#[test]
fn partition_routes_every_row_once() {
    let rows = vec![vec![5, 1], vec![2, 2], vec![9, 3], vec![2, 4], vec![7, 5]];
    let idx = vec![0usize, 1, 2, 3, 4];
    let (lo, hi) = partition(&rows, &idx, 0, 5);
    assert_eq!(lo, vec![0, 1, 3]);
    assert_eq!(hi, vec![2, 4]);
    assert_eq!(lo.len() + hi.len(), idx.len());
    let (lo, hi) = partition(&rows, &vec![4usize, 2], 1, 3);
    assert_eq!(lo, vec![2]);
    assert_eq!(hi, vec![4]);
}

#[test]
fn chosen_split_does_not_raise_impurity() {
    let rows = column(&[1, 2, 3, 4, 5, 6]);
    let labels = vec![0, 1, 1, 0, 1, 1];
    let idx: Vec<usize> = (0..6).collect();
    let (f, t) = best_split(&rows, &labels, &idx, 1).unwrap();
    let (cn, cd) = split_cost(&rows, &labels, &idx, 1, f, t).unwrap();
    let (gn, gd) = gini(&labels);
    assert!(cn * gd as u128 <= gn as u128 * cd);
}

#[test]
fn gini_exact_values() {
    assert_eq!(gini(&vec![0, 0, 1, 1]), (8, 16));
    assert_eq!(gini(&vec![4, 4, 4]), (0, 9));
    assert_eq!(gini(&vec![1, 2, 3]), (6, 9));
    assert_eq!(same_pairs_of(&vec![5, 6, 5, 5]), 10);
}

#[test]
fn plurality_counts_and_ties() {
    assert_eq!(plurality_of(&vec![4, 9, 9, 4, 9]), 9);
    assert_eq!(plurality_of(&vec![2, 8, 8, 2]), 2);
    assert_eq!(plurality_of(&vec![-1]), -1);
}

#[test]
fn split_cost_exact_and_empty_side() {
    let rows = column(&[1, 2, 3, 4]);
    let labels = vec![0, 0, 1, 1];
    let idx: Vec<usize> = vec![0, 1, 2, 3];
    assert_eq!(split_cost(&rows, &labels, &idx, 1, 0, 2), Some((0, 16)));
    assert_eq!(split_cost(&rows, &labels, &idx, 1, 0, 1), Some((4, 12)));
    assert_eq!(split_cost(&rows, &labels, &idx, 1, 0, 4), None);
}

#[test]
fn best_split_ties_go_to_lowest_feature() {
    let rows = vec![vec![1, 1], vec![2, 2], vec![3, 3], vec![4, 4]];
    let labels = vec![0, 0, 1, 1];
    let idx: Vec<usize> = vec![0, 1, 2, 3];
    assert_eq!(best_split(&rows, &labels, &idx, 2), Some((0, 2)));
    let rows = vec![vec![9, 4], vec![9, 3], vec![9, 2], vec![9, 1]];
    assert_eq!(best_split(&rows, &labels, &idx, 2), Some((1, 2)));
}

#[test]
fn best_split_ties_go_to_lowest_threshold() {
    let rows = column(&[3, 1, 2, 4]);
    let labels = vec![1, 0, 1, 0];
    let idx: Vec<usize> = vec![0, 1, 2, 3];
    assert_eq!(best_split(&rows, &labels, &idx, 1), Some((0, 1)));
}

#[test]
fn constant_feature_gives_leaf() {
    let x = column(&[5, 5, 5, 5]);
    let y = vec![1, 0, 1, 0];
    assert_eq!(best_split(&x, &y, &vec![0usize, 1, 2, 3], 1), None);
    let mut tree = DecisionTree::new(4);
    assert_eq!(tree.fit(&x, &y), Ok(()));
    assert_eq!(leaf_value(tree.root().unwrap()), Some(1));
}

#[test]
fn fit_rejects_bad_shapes() {
    let mut tree = DecisionTree::new(2);
    assert_eq!(tree.fit(&column(&[1, 2]), &vec![0]), Err(TreeError::ShapeMismatch));
    assert_eq!(tree.fit(&vec![vec![1, 2], vec![3]], &vec![0, 1]), Err(TreeError::ShapeMismatch));
    assert_eq!(tree.fit(&vec![], &vec![]), Err(TreeError::EmptyData));
    assert_eq!(tree.fit(&vec![vec![], vec![]], &vec![0, 1]), Err(TreeError::EmptyData));
    assert!(tree.root().is_none());
    assert_eq!(tree.max_depth(), 2);
}

#[test]
fn failed_fit_keeps_previous_tree() {
    let mut tree = DecisionTree::new(1);
    assert_eq!(tree.fit(&column(&[1, 2, 3, 4]), &vec![0, 0, 1, 1]), Ok(()));
    assert_eq!(tree.fit(&column(&[1, 2]), &vec![0]), Err(TreeError::ShapeMismatch));
    assert_eq!(tree.predict(&column(&[1, 4])), Ok(vec![0, 1]));
}

#[test]
fn fit_rejects_too_many_rows() {
    let n = rustml::impurity::MAX_ROWS + 1;
    let x: Vec<Vec<i64>> = (0..n).map(|i| vec![i as i64]).collect();
    let y: Vec<i64> = (0..n).map(|i| (i % 2) as i64).collect();
    let mut tree = DecisionTree::new(1);
    assert_eq!(tree.fit(&x, &y), Err(TreeError::TooManyRows));
    assert!(tree.root().is_none());
}

#[test]
fn uniform_tree_predicts_its_label_everywhere() {
    let x = column(&[1, 2, 3, 4, 5]);
    let y = vec![0, 0, 0, 0, 0];
    let mut tree = DecisionTree::new(5);
    assert_eq!(tree.fit(&x, &y), Ok(()));
    assert_eq!(tree.predict(&column(&[-7, 3, 100])), Ok(vec![0, 0, 0]));
}

#[test]
fn threshold_is_inclusive_on_the_left() {
    let x = column(&[2, 4, 6, 8]);
    let y = vec![0, 0, 1, 1];
    let mut tree = DecisionTree::new(1);
    assert_eq!(tree.fit(&x, &y), Ok(()));
    assert_eq!(tree.predict(&column(&[2, 4, 5, 6, 8])), Ok(vec![0, 0, 1, 1, 1]));
    assert_eq!(tree.predict(&vec![]), Ok(vec![]));
}
