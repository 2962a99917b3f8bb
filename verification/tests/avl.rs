use phylo2vec::tree_vec::ops::avl::AVLTree;
use phylo2vec::tree_vec::types::Pair;

fn tree_of(inserts: &[(usize, Pair)]) -> AVLTree {
    let mut tree = AVLTree::new();
    for &(index, value) in inserts {
        tree.insert_by_index(index, value);
    }
    tree
}

fn sample_tree() -> AVLTree {
    tree_of(&[(0, (1, 1)), (1, (2, 2)), (2, (3, 3))])
}

#[test]
fn test_lookup() {
    let tree = sample_tree();
    assert_eq!(tree.lookup(0), (1, 1));
    assert_eq!(tree.lookup(1), (2, 2));
    assert_eq!(tree.lookup(2), (3, 3));
}

#[test]
fn test_insert_with_lookup() {
    assert_eq!(tree_of(&[(0, (1, 1))]).lookup(0), (1, 1));
    assert_eq!(tree_of(&[(0, (1, 1)), (1, (2, 2))]).lookup(1), (2, 2));
    assert_eq!(tree_of(&[(0, (1, 1)), (0, (2, 2)), (0, (3, 3))]).lookup(0), (3, 3));
    assert_eq!(tree_of(&[(0, (1, 1)), (0, (2, 2)), (0, (3, 3))]).lookup(2), (1, 1));
}

#[test]
fn test_inorder_traversal() {
    let expected = vec![(1, 1), (2, 2), (3, 3)];
    assert_eq!(tree_of(&[(0, (1, 1)), (1, (2, 2)), (2, (3, 3))]).inorder_traversal(), expected);
    assert_eq!(tree_of(&[(0, (3, 3)), (0, (2, 2)), (0, (1, 1))]).inorder_traversal(), expected);
    assert_eq!(tree_of(&[(0, (2, 2)), (1, (3, 3)), (0, (1, 1))]).inorder_traversal(), expected);
}

#[test]
fn test_empty_tree() {
    let tree = AVLTree::new();
    assert!(tree.inorder_traversal().is_empty());
    assert_eq!(tree.lookup(0), (0, 0));
}

#[test]
fn test_single_element_insert() {
    assert_eq!(tree_of(&[(0, (1, 1))]).inorder_traversal(), vec![(1, 1)]);
}

#[test]
fn test_two_elements_insert() {
    assert_eq!(tree_of(&[(0, (1, 1)), (1, (2, 2))]).inorder_traversal(), vec![(1, 1), (2, 2)]);
    assert_eq!(tree_of(&[(0, (2, 2)), (0, (1, 1))]).inorder_traversal(), vec![(1, 1), (2, 2)]);
}

#[test]
fn test_lookup_out_of_bounds() {
    let tree = sample_tree();
    assert_eq!(tree.lookup(3), (0, 0));
    assert_eq!(tree.lookup(10), (0, 0));
    assert_eq!(tree.lookup(usize::MAX), (0, 0));
}

#[test]
fn test_insert_duplicates() {
    let tree = tree_of(&[(0, (1, 1)), (1, (1, 1)), (2, (1, 1))]);
    assert_eq!(tree.inorder_traversal(), vec![(1, 1), (1, 1), (1, 1)]);
}

#[test]
fn test_get_pairs() {
    let expected = vec![(1, 1), (2, 2), (3, 3)];
    assert_eq!(tree_of(&[(0, (1, 1)), (1, (2, 2)), (2, (3, 3))]).get_pairs(), expected);
    assert_eq!(tree_of(&[(0, (3, 3)), (0, (2, 2)), (0, (1, 1))]).get_pairs(), expected);
}

#[test]
fn insert_is_the_same_as_insert_by_index() {
    let mut tree = AVLTree::new();
    tree.insert(0, (7, 8));
    tree.insert(0, (5, 6));
    tree.insert(1, (1, 2));
    assert_eq!(tree.get_pairs(), vec![(5, 6), (1, 2), (7, 8)]);
}

/// Inserting at every rank in turn agrees with a plain vector, whatever
/// rotations the tree makes on the way.
#[test]
fn inserts_agree_with_a_vector() {
    let mut tree = AVLTree::new();
    let mut model: Vec<Pair> = Vec::new();
    let mut seed: usize = 12345;
    for step in 0..500 {
        seed = seed.wrapping_mul(6364136223846793005).wrapping_add(1442695040888963407);
        let index = (seed >> 33) % (model.len() + 1);
        tree.insert_by_index(index, (step, index));
        model.insert(index, (step, index));
        assert_eq!(tree.lookup(index), (step, index));
    }
    assert_eq!(tree.inorder_traversal(), model);
    assert_eq!(tree.inorder_traversal().len(), 500);
    for (rank, pair) in model.iter().enumerate() {
        assert_eq!(tree.lookup(rank), *pair);
    }
    assert_eq!(tree.lookup(500), (0, 0));
}

/// Appending, prepending and inserting in the middle keep the order.
#[test]
fn inserts_at_both_ends_keep_the_order() {
    let mut tree = AVLTree::new();
    for i in 0..64 {
        tree.insert_by_index(i, (i, i));
    }
    for i in 0..64 {
        tree.insert_by_index(0, (100 + i, 0));
    }
    let pairs = tree.get_pairs();
    assert_eq!(pairs.len(), 128);
    for i in 0..64 {
        assert_eq!(pairs[i], (163 - i, 0));
        assert_eq!(pairs[64 + i], (i, i));
    }
}

#[test]
fn test_balance_after_insert() {
    for insert_order in [[0, 1, 2, 3, 4, 5], [0, 0, 0, 0, 0, 0], [0, 1, 1, 0, 2, 5]] {
        let mut tree = AVLTree::new();
        for (i, &index) in insert_order.iter().enumerate() {
            tree.insert_by_index(index, (i, i));
        }
        assert!(tree.height() <= 4);
        assert!(tree.height() >= 3);
    }
}

/// A tree of n pairs is no higher than twice the logarithm of n + 1.
#[test]
fn the_height_stays_logarithmic() {
    let mut tree = AVLTree::new();
    assert_eq!(tree.height(), 0);
    tree.insert_by_index(0, (0, 0));
    assert_eq!(tree.height(), 1);
    for i in 1..1023 {
        tree.insert_by_index(i, (i, i));
    }
    assert_eq!(tree.get_pairs().len(), 1023);
    assert_eq!(tree.height(), 10);
    let mut tree = AVLTree::new();
    for i in 0..4096usize {
        tree.insert_by_index(i / 3, (i, i));
        let n = i + 1;
        let h = tree.height();
        assert!(h <= 64 && (1usize << (h / 2)) <= n + 1);
    }
}
