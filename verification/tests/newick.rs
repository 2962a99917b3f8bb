use phylo2vec::tree_vec::ops::newick::{
    find_num_leaves, get_cherries, get_cherries_no_parents, has_parents, remove_parent_labels,
    NewickError,
};
use phylo2vec::tree_vec::ops::vector::to_newick;
use phylo2vec::utils::{sample, SampleOrdering};

#[test]
fn test_remove_parent_labels() {
    assert_eq!(remove_parent_labels("(((0,(3,5)6)8,2)9,(1,4)7)10;"), "(((0,(3,5)),2),(1,4));");
    assert_eq!(remove_parent_labels("(0,(1,(2,(3,(4,5)6)7)8)9)10;"), "(0,(1,(2,(3,(4,5)))));");
    assert_eq!(remove_parent_labels("((0,2)5,(1,3)4)6;"), "((0,2),(1,3));");
}

#[test]
fn test_has_parents() {
    for n_leaves in [10usize, 100, 1000] {
        let v = sample(n_leaves, SampleOrdering::NotOrdered);
        let newick = to_newick(&v);
        assert_eq!(has_parents(&newick), true);
        assert_eq!(has_parents(&remove_parent_labels(&newick)), false);
    }
}

#[test]
fn test_find_num_leaves() {
    for n_leaves in [10usize, 100, 1000] {
        let v = sample(n_leaves, SampleOrdering::NotOrdered);
        let newick = to_newick(&v);
        assert_eq!(find_num_leaves(&newick), n_leaves);
    }
    assert_eq!(find_num_leaves("(((0,(3,5)6)8,2)9,(1,4)7)10;"), 6);
}

#[test]
fn has_parents_of_the_golden_text() {
    let newick = "(((0,(3,5)6)8,2)9,(1,4)7)10;";
    assert!(has_parents(newick));
    let stripped = remove_parent_labels(newick);
    assert_eq!(stripped, "(((0,(3,5)),2),(1,4));");
    assert!(!has_parents(&stripped));
    assert!(!has_parents(""));
    assert!(!has_parents(")"));
    assert!(has_parents(")0"));
    assert!(!has_parents(")a0"));
}

#[test]
fn remove_parent_labels_keeps_everything_else() {
    assert_eq!(remove_parent_labels(""), "");
    assert_eq!(remove_parent_labels("12)34x5)6)"), "12)x5))");
    assert_eq!(remove_parent_labels("(1:0.5,2:0.7)1:0.9;"), "(1:0.5,2:0.7):0.9;");
    assert_eq!(remove_parent_labels("(a,\u{e9})12\u{e9}3;"), "(a,\u{e9})\u{e9}3;");
    // only ASCII digits make a label
    assert_eq!(remove_parent_labels("(0,1)\u{663}2;"), "(0,1)\u{663}2;");
}

#[test]
fn get_cherries_reads_the_rows_in_text_order() {
    assert_eq!(
        get_cherries("(((0,(3,5)6)8,2)9,(1,4)7)10;").unwrap(),
        vec![[3, 5, 6], [0, 6, 8], [8, 2, 9], [1, 4, 7], [9, 7, 10]]
    );
    assert_eq!(get_cherries("").unwrap(), Vec::<[usize; 3]>::new());
    assert_eq!(get_cherries("(0,1)+2;").unwrap(), vec![[0, 1, 2]]);
    assert_eq!(get_cherries("(007,1)2;").unwrap(), vec![[7, 1, 2]]);
}

#[test]
fn get_cherries_no_parents_keeps_the_smaller_child() {
    assert_eq!(
        get_cherries_no_parents("(((0,(3,5)),2),(1,4));").unwrap(),
        vec![[3, 5, 5], [0, 3, 3], [0, 2, 2], [1, 4, 4], [0, 1, 1]]
    );
    assert_eq!(get_cherries_no_parents("(4,2);").unwrap(), vec![[4, 2, 4]]);
    assert_eq!(get_cherries_no_parents("").unwrap(), Vec::<[usize; 3]>::new());
}

#[test]
fn get_cherries_reports_each_kind_of_error() {
    assert!(matches!(get_cherries("(0)1;"), Err(NewickError::StackUnderflow)));
    assert!(matches!(get_cherries(");"), Err(NewickError::StackUnderflow)));
    assert!(matches!(get_cherries("(0,1);"), Err(NewickError::ParseIntError(t)) if t.is_empty()));
    assert!(matches!(get_cherries("(0,1)2x;"), Err(NewickError::ParseIntError(t)) if t == "2x"));
    assert!(matches!(get_cherries("(0,1:0.5)2;"), Err(NewickError::ParseIntError(t)) if t == "1:0.5"));
    assert!(matches!(
        get_cherries("(0,99999999999999999999999999)2;"),
        Err(NewickError::ParseIntError(t)) if t == "99999999999999999999999999"
    ));
    // a number that no delimiter ends is an empty node
    assert!(matches!(get_cherries("(0,1)2"), Err(NewickError::ParseIntError(t)) if t.is_empty()));
    assert!(matches!(get_cherries_no_parents("(0,1"), Err(NewickError::ParseIntError(t)) if t.is_empty()));
    assert!(matches!(get_cherries_no_parents("0)"), Err(NewickError::StackUnderflow)));
}

#[test]
fn the_largest_number_is_read() {
    let text = format!("(0,1){};", usize::MAX);
    assert_eq!(get_cherries(&text).unwrap(), vec![[0, 1, usize::MAX]]);
}

#[test]
fn errors_say_what_could_not_be_read() {
    assert_eq!(get_cherries("(0,1)2x;").unwrap_err().message(), "ParseIntError: 2x");
    assert_eq!(get_cherries(");").unwrap_err().message(), "Stack underflow error encountered");
    assert_eq!(
        NewickError::ParseFloatError(String::from("1.0.0")).message(),
        "ParseFloatError: 1.0.0"
    );
}

#[test]
fn a_semicolon_ends_the_reading() {
    assert_eq!(get_cherries("(0,1)2;(3,4)5;").unwrap(), vec![[0, 1, 2]]);
    assert_eq!(get_cherries_no_parents("(0,1);)").unwrap(), vec![[0, 1, 1]]);
    assert_eq!(get_cherries(";)").unwrap(), Vec::<[usize; 3]>::new());
}

#[test]
fn leaves_are_counted_behind_brackets_and_commas() {
    assert_eq!(find_num_leaves(""), 0);
    assert_eq!(find_num_leaves("(0,1);"), 2);
    assert_eq!(find_num_leaves("((0,2),(1,3));"), 4);
    assert_eq!(find_num_leaves("(0:0.5,1:0.25)2:0.1;"), 2);
    assert_eq!(find_num_leaves("(a,1)"), 1);
    assert_eq!(find_num_leaves("(,"), 0);
}
