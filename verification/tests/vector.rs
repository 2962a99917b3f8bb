use phylo2vec::tree_vec::ops;
use phylo2vec::tree_vec::ops::newick::{build_newick, NewickError};
use phylo2vec::tree_vec::ops::vector::{
    build_vector, find_coords_of_first_leaf, get_ancestry, get_pairs, order_cherries,
    order_cherries_no_parents, to_cherries, to_newick, to_vector,
};
use phylo2vec::tree_vec::{add_leaf, remove_leaf};
use phylo2vec::utils::{check_v, sample, SampleOrdering};

#[test]
fn test_to_newick() {
    assert_eq!(to_newick(&vec![0, 0, 0, 1, 3]), "(((0,(3,5)6)8,2)9,(1,4)7)10;");
    assert_eq!(to_newick(&vec![0, 1, 2, 3, 4]), "(0,(1,(2,(3,(4,5)6)7)8)9)10;");
    assert_eq!(to_newick(&vec![0, 0, 1]), "((0,2)5,(1,3)4)6;");
}

#[test]
fn test_get_ancestry() {
    assert_eq!(
        get_ancestry(&vec![0, 0, 0, 1, 3]),
        vec![[3, 5, 6], [1, 4, 7], [0, 6, 8], [8, 2, 9], [9, 7, 10]]
    );
    assert_eq!(
        get_ancestry(&vec![0, 1, 2, 3]),
        vec![[3, 4, 5], [2, 5, 6], [1, 6, 7], [0, 7, 8]]
    );
    assert_eq!(get_ancestry(&vec![0, 0, 1]), vec![[1, 3, 4], [0, 2, 5], [5, 4, 6]]);
}

#[test]
fn get_pairs_puts_the_deepest_pair_first() {
    assert_eq!(get_pairs(&vec![]), vec![]);
    assert_eq!(get_pairs(&vec![0]), vec![(0, 1)]);
    assert_eq!(get_pairs(&vec![0, 0, 0, 1, 3]), vec![(3, 5), (1, 4), (0, 3), (0, 2), (0, 1)]);
    assert_eq!(get_pairs(&vec![0, 2, 4]), vec![(0, 1), (0, 2), (0, 3)]);
    assert_eq!(get_pairs(&vec![0, 1, 3]), vec![(1, 2), (1, 3), (0, 1)]);
}

#[test]
fn ancestry_parents_count_up_from_the_number_of_leaves() {
    let v = sample(60, SampleOrdering::NotOrdered);
    let ancestry = get_ancestry(&v);
    assert_eq!(ancestry.len(), 59);
    for (k, row) in ancestry.iter().enumerate() {
        assert_eq!(row[2], 60 + k);
        assert!(row[0] < row[2] && row[1] < row[2]);
    }
}

#[test]
fn build_vector_inverts_get_ancestry() {
    for v in [
        vec![0],
        vec![0, 0],
        vec![0, 2],
        vec![0, 0, 0, 1, 3],
        vec![0, 1, 2, 3, 4],
        vec![0, 2, 4, 6, 8],
        vec![0, 0, 1],
        vec![0, 1, 2, 5, 4, 2],
        vec![0, 0, 0, 3, 2, 9, 4, 1, 12],
    ] {
        assert_eq!(build_vector(&get_ancestry(&v)), v);
    }
    for n in [2usize, 3, 5, 17, 120] {
        let v = sample(n, SampleOrdering::NotOrdered);
        assert_eq!(build_vector(&get_ancestry(&v)), v);
        let v = sample(n, SampleOrdering::Ordered);
        assert_eq!(build_vector(&get_ancestry(&v)), v);
    }
}

#[test]
fn to_vector_inverts_to_newick() {
    for v in [
        vec![0],
        vec![0, 2],
        vec![0, 0, 0, 1, 3],
        vec![0, 1, 2, 3, 4],
        vec![0, 0, 1],
        vec![0, 0, 0, 3, 2, 9, 4, 1, 12],
    ] {
        assert_eq!(to_vector(&to_newick(&v)).unwrap(), v);
    }
    for n in [2usize, 3, 5, 17, 120] {
        let v = sample(n, SampleOrdering::NotOrdered);
        assert_eq!(to_vector(&to_newick(&v)).unwrap(), v);
    }
}

#[test]
fn to_vector_reads_text_without_parent_labels() {
    assert_eq!(to_vector("(((0,(3,5)),2),(1,4));").unwrap(), vec![0, 0, 0, 1, 3]);
    assert_eq!(to_vector("(0,(1,(2,(3,(4,5)))));").unwrap(), vec![0, 1, 2, 3, 4]);
    assert_eq!(to_vector("((0,2),(1,3));").unwrap(), vec![0, 0, 1]);
    assert_eq!(to_vector("").unwrap(), Vec::<usize>::new());
}

#[test]
fn to_vector_hands_on_the_errors_of_the_text() {
    assert!(matches!(to_vector("(0,1)2)3;"), Err(NewickError::StackUnderflow)));
    assert!(matches!(to_vector("(0,1x)2;"), Err(NewickError::ParseIntError(t)) if t == "1x"));
    assert!(matches!(to_vector("(0,1));"), Err(NewickError::StackUnderflow)));
}

#[test]
fn order_cherries_sorts_by_parent_and_keeps_ties() {
    let mut ancestry = vec![[9, 7, 10], [3, 5, 6], [8, 2, 9], [1, 4, 7], [0, 6, 8]];
    order_cherries(&mut ancestry);
    assert_eq!(ancestry, vec![[3, 5, 6], [1, 4, 7], [0, 6, 8], [8, 2, 9], [9, 7, 10]]);
    let mut ties = vec![[1, 1, 5], [2, 2, 4], [3, 3, 5], [4, 4, 4]];
    order_cherries(&mut ties);
    assert_eq!(ties, vec![[2, 2, 4], [4, 4, 4], [1, 1, 5], [3, 3, 5]]);
    let mut empty: Vec<[usize; 3]> = vec![];
    order_cherries(&mut empty);
    assert!(empty.is_empty());
}

#[test]
fn order_cherries_no_parents_gives_the_ancestry() {
    let mut cherries = vec![[3, 5, 5], [0, 3, 3], [0, 2, 2], [1, 4, 4], [0, 1, 1]];
    order_cherries_no_parents(&mut cherries);
    assert_eq!(cherries, vec![[3, 5, 6], [1, 4, 7], [0, 6, 8], [8, 2, 9], [9, 7, 10]]);
}

#[test]
fn to_cherries_names_each_side_by_its_least_leaf() {
    let ancestry = vec![[3, 5, 6], [1, 4, 7], [0, 6, 8], [8, 2, 9], [9, 7, 10]];
    assert_eq!(
        to_cherries(&ancestry),
        vec![[3, 5, 5], [1, 4, 4], [0, 3, 3], [0, 2, 2], [0, 1, 1]]
    );
}

#[test]
fn find_coords_finds_the_first_place() {
    let ancestry = vec![[3, 5, 6], [1, 4, 7], [0, 6, 8], [8, 2, 9], [9, 7, 10]];
    assert_eq!(find_coords_of_first_leaf(&ancestry, 5), Some((0, 1)));
    assert_eq!(find_coords_of_first_leaf(&ancestry, 6), Some((0, 2)));
    assert_eq!(find_coords_of_first_leaf(&ancestry, 0), Some((2, 0)));
    assert_eq!(find_coords_of_first_leaf(&ancestry, 11), None);
}

#[test]
fn test_add_leaf() {
    let mut v = vec![0, 1, 2, 5, 4, 2];
    assert_eq!(add_leaf(&mut v, 5, 3), vec![0, 1, 2, 5, 3, 4, 2]);
    assert_eq!(v, vec![0, 1, 2, 5, 4, 2, 3]);
    let mut v = vec![0, 1, 2, 5, 4, 2];
    assert_eq!(add_leaf(&mut v, 7, 0), vec![0, 1, 2, 5, 4, 2, 0]);
    let mut v = vec![0, 1, 2, 5, 4, 2];
    assert_eq!(add_leaf(&mut v, 7, 2), vec![0, 1, 2, 5, 4, 2, 2]);
}

#[test]
fn remove_leaf_undoes_add_leaf() {
    let mut v = vec![0, 1, 2, 5, 4, 2];
    let added = add_leaf(&mut v, 5, 3);
    assert_eq!(check_v(&added), Ok(()));
    let (removed, _sister) = remove_leaf(&added, 5).unwrap();
    assert_eq!(removed, vec![0, 1, 2, 5, 4, 2]);
}

#[test]
fn remove_leaf_returns_the_sister() {
    // ((0,2)5,(1,3)4)6; without leaf 3 is ((0,2),1);
    let (v, sister) = remove_leaf(&vec![0, 0, 1], 3).unwrap();
    assert_eq!(sister, 1);
    assert_eq!(to_vector("((0,2),1);").unwrap(), v);
    let (v, sister) = remove_leaf(&vec![0], 1).unwrap();
    assert_eq!(sister, 0);
    assert!(v.is_empty());
    assert_eq!(remove_leaf(&vec![0, 0, 1], 4), None);
    assert_eq!(remove_leaf(&vec![0, 0, 1], 9), None);
    assert_eq!(remove_leaf(&vec![], 0), None);
}

#[test]
fn build_newick_of_get_ancestry_is_to_newick() {
    let v = vec![0, 0, 0, 1, 3];
    assert_eq!(build_newick(&get_ancestry(&v)), to_newick(&v));
    assert_eq!(
        build_newick(&vec![[3, 5, 6], [1, 4, 7], [0, 6, 8], [8, 2, 9], [9, 7, 10]]),
        "(((0,(3,5)6)8,2)9,(1,4)7)10;"
    );
    assert_eq!(build_newick(&vec![[0, 1, 2]]), "(0,1)2;");
}

#[test]
fn large_trees_go_there_and_back() {
    let v = sample(5000, SampleOrdering::NotOrdered);
    let newick = to_newick(&v);
    assert_eq!(to_vector(&newick).unwrap(), v);
    assert_eq!(build_vector(&get_ancestry(&v)), v);
    let v = sample(1500, SampleOrdering::NotOrdered);
    let newick = phylo2vec::tree_vec::ops::newick::remove_parent_labels(&to_newick(&v));
    assert_eq!(to_vector(&newick).unwrap(), v);
}

#[test]
fn the_vector_of_two_leaves() {
    assert_eq!(to_newick(&vec![0]), "(0,1)2;");
    assert_eq!(to_vector("(0,1)2;").unwrap(), vec![0]);
    assert_eq!(to_vector("(0,1);").unwrap(), vec![0]);
    assert_eq!(get_ancestry(&vec![0]), vec![[0, 1, 2]]);
    assert_eq!(get_ancestry(&vec![]), Vec::<[usize; 3]>::new());
    assert_eq!(build_vector(&vec![]), Vec::<usize>::new());
}

#[test]
fn add_leaf_then_remove_leaf_on_sampled_trees() {
    for n in [2usize, 3, 8, 40] {
        let v = sample(n, SampleOrdering::NotOrdered);
        for leaf in 0..=n {
            for branch in [0, n - 1, 2 * (n - 1)] {
                let mut w = v.clone();
                let added = add_leaf(&mut w, leaf, branch);
                assert_eq!(added.len(), n);
                assert_eq!(check_v(&added), Ok(()));
                let (removed, _) = remove_leaf(&added, leaf).unwrap();
                assert_eq!(removed, v);
            }
        }
    }
}

#[test]
fn the_operations_are_at_hand_under_ops() {
    let v = vec![0, 0, 1];
    assert_eq!(ops::to_vector(&ops::to_newick(&v)).unwrap(), v);
    assert_eq!(ops::build_newick(&ops::get_ancestry(&v)), "((0,2)5,(1,3)4)6;");
}
