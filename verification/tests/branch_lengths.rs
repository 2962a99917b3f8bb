use phylo2vec::tree_vec::ops::matrix::{to_matrix, MatrixRow};
use phylo2vec::tree_vec::ops::newick::branch_lengths::{
    get_cherries_no_parents_with_bls, get_cherries_with_bls, is_float, Span,
};
use phylo2vec::tree_vec::ops::newick::{has_parents, NewickError};
use phylo2vec::tree_vec::ops::vector::_get_sorted_indices;

fn text_at(newick: &str, span: Span) -> &str {
    &newick[span.start..span.end]
}

fn values(newick: &str, spans: &[[Span; 2]]) -> Vec<[f32; 2]> {
    spans
        .iter()
        .map(|[a, b]| [text_at(newick, *a).parse().unwrap(), text_at(newick, *b).parse().unwrap()])
        .collect()
}

#[test]
fn test_get_cherries_with_bls() {
    let newick = "((1:0.5,2:0.7)1:0.9,3:0.8)2:0.8;";
    assert!(has_parents(newick));
    let (ancestry, bls) = get_cherries_with_bls(newick).unwrap();
    assert_eq!(ancestry, vec![[1, 2, 1], [1, 3, 2]]);
    assert_eq!(values(newick, &bls), vec![[0.5, 0.7], [0.9, 0.8]]);

    let newick = "(1:0.5,2:0.7);";
    assert!(!has_parents(newick));
    let (ancestry, bls) = get_cherries_no_parents_with_bls(newick).unwrap();
    assert_eq!(ancestry, vec![[1, 2, 2]]);
    assert_eq!(values(newick, &bls), vec![[0.5, 0.7]]);
}

#[test]
fn branch_lengths_are_given_by_their_place() {
    let newick = "(0:1.5,1:2e-3)2;";
    let (ancestry, bls) = get_cherries_with_bls(newick).unwrap();
    assert_eq!(ancestry, vec![[0, 1, 2]]);
    assert_eq!(bls, vec![[Span { start: 3, end: 6 }, Span { start: 9, end: 13 }]]);
    assert_eq!(text_at(newick, bls[0][1]), "2e-3");
}

#[test]
fn cherries_without_parents_carry_the_length_of_the_cherry() {
    let newick = "((1:0.5,2:0.6):0.7,(3:0.8,4:0.9):1.0);";
    let (ancestry, bls) = get_cherries_no_parents_with_bls(newick).unwrap();
    assert_eq!(ancestry, vec![[1, 2, 2], [3, 4, 4], [1, 3, 3]]);
    assert_eq!(values(newick, &bls), vec![[0.5, 0.6], [0.8, 0.9], [0.7, 1.0]]);
}

#[test]
fn empty_text_has_no_cherries_and_no_matrix() {
    let (ancestry, bls) = get_cherries_with_bls("").unwrap();
    assert!(ancestry.is_empty() && bls.is_empty());
    let (ancestry, bls) = get_cherries_no_parents_with_bls("").unwrap();
    assert!(ancestry.is_empty() && bls.is_empty());
    assert_eq!(to_matrix("").unwrap(), Vec::<MatrixRow>::new());
}

#[test]
fn branch_length_errors() {
    assert!(matches!(
        get_cherries_with_bls("(0:x,1:1)2;"),
        Err(NewickError::ParseFloatError(t)) if t == "x"
    ));
    assert!(matches!(
        get_cherries_with_bls("(0,1:1)2;"),
        Err(NewickError::ParseFloatError(t)) if t.is_empty()
    ));
    // a letter is passed over, and the digit behind the colon starts a node
    assert!(matches!(
        get_cherries_with_bls("(a:1,1:1)2;"),
        Err(NewickError::ParseFloatError(t)) if t.is_empty()
    ));
    assert!(matches!(
        get_cherries_with_bls("(0a:1,1:1)2;"),
        Err(NewickError::ParseIntError(t)) if t == "0a"
    ));
    assert!(matches!(get_cherries_with_bls("(0:1)2;"), Err(NewickError::StackUnderflow)));
    assert!(matches!(
        get_cherries_with_bls("((0:1,1:1)x:1,2:1)4;"),
        Err(NewickError::ParseIntError(t)) if t == "x"
    ));
    assert!(matches!(
        get_cherries_no_parents_with_bls("((0:1,1:1):,2:1);"),
        Err(NewickError::ParseFloatError(t)) if t.is_empty()
    ));
    assert!(matches!(
        get_cherries_no_parents_with_bls("((0:1,1:1),2:1);"),
        Err(NewickError::ParseFloatError(t)) if t.is_empty()
    ));
    assert!(matches!(
        get_cherries_no_parents_with_bls("(0:1.0.0,1:1);"),
        Err(NewickError::ParseFloatError(t)) if t == "1.0.0"
    ));
    assert!(matches!(get_cherries_no_parents_with_bls("0:1)"), Err(NewickError::StackUnderflow)));
    assert!(matches!(to_matrix("(0:1,1:z);"), Err(NewickError::ParseFloatError(t)) if t == "z"));
}

/// The library takes a text for a number exactly where the standard
/// library reads one.
#[test]
fn is_float_agrees_with_the_standard_parser() {
    let texts = [
        "", "0", "1", "12", "0.5", "1.", ".5", ".", "+", "-", "+1", "-1", "+.5", "-5.", "1e5",
        "1E5", "1e+5", "1e-5", "1e", "1e+", "e5", ".e5", "1.e5", "1.5e10", "1.5e1.0", "inf",
        "+inf", "-inf", "Inf", "INF", "infinity", "Infinity", "-INFINITY", "infinit", "nan",
        "NaN", "+nan", "-NAN", "nana", "in", "1 ", " 1", "1_0", "0x10", "1f32", "--1", "+-1",
        "1..2", "1e5e5", "١", "1:2", "00012.5000", "9999999999999999999999999999",
        "1e999999", "1.0.0", "a", "1,0", "5e", "e", "E1", "1.e", "1.E+3", "+.e1", "infinitye1",
    ];
    for text in texts {
        assert_eq!(is_float(text), text.parse::<f32>().is_ok(), "{:?}", text);
    }
}

#[test]
fn sorted_indices_are_stable() {
    assert_eq!(_get_sorted_indices(&vec![[0, 0, 7], [0, 0, 5], [0, 0, 7], [0, 0, 5]]), vec![1, 3, 0, 2]);
    assert_eq!(_get_sorted_indices(&vec![]), Vec::<usize>::new());
    assert_eq!(_get_sorted_indices(&vec![[3, 5, 6], [0, 6, 8], [8, 2, 9], [1, 4, 7], [9, 7, 10]]), vec![0, 3, 1, 2, 4]);
}

#[test]
fn test_to_matrix() {
    // leaves 0..3, no parent labels: the cherry (2,3) comes first
    let newick = "((0:0.5,1:0.6):0.7,(2:0.8,3:0.9):1.0);";
    let rows = to_matrix(newick).unwrap();
    let got: Vec<(usize, f32, f32)> = rows
        .iter()
        .map(|r| {
            (
                r.value,
                text_at(newick, r.length_a).parse().unwrap(),
                text_at(newick, r.length_b).parse().unwrap(),
            )
        })
        .collect();
    assert_eq!(got, vec![(0, 0.8, 0.9), (2, 0.5, 0.6), (2, 0.7, 1.0)]);

    // the same tree with parent labels
    let newick = "((0:0.5,1:0.6)5:0.7,(2:0.8,3:0.9)4:1.0)6;";
    let rows = to_matrix(newick).unwrap();
    let got: Vec<(usize, f32, f32)> = rows
        .iter()
        .map(|r| {
            (
                r.value,
                text_at(newick, r.length_a).parse().unwrap(),
                text_at(newick, r.length_b).parse().unwrap(),
            )
        })
        .collect();
    assert_eq!(got, vec![(0, 0.8, 0.9), (2, 0.5, 0.6), (2, 0.7, 1.0)]);
}

/// The same on many short texts over the characters that numbers are
/// written with.
#[test]
fn is_float_agrees_with_the_standard_parser_on_many_texts() {
    let alphabet: Vec<char> = "0123456789..eE+-infatyINFATY_ x".chars().collect();
    let mut seed: u64 = 0x2545F4914F6CDD1D;
    let mut accepted = 0;
    for _ in 0..300_000 {
        seed ^= seed << 13;
        seed ^= seed >> 7;
        seed ^= seed << 17;
        let len = (seed % 7) as usize;
        let mut text = String::new();
        let mut bits = seed >> 3;
        for _ in 0..len {
            text.push(alphabet[(bits % alphabet.len() as u64) as usize]);
            bits /= alphabet.len() as u64;
        }
        let expected = text.parse::<f32>().is_ok();
        assert_eq!(is_float(&text), expected, "{:?}", text);
        if expected {
            accepted += 1;
        }
    }
    assert!(accepted > 1000);
}

/// Numbers are read as the standard parser reads them.
#[test]
fn numbers_are_read_as_the_standard_parser_reads_them() {
    let alphabet: Vec<char> = "0123456789+-1 a".chars().collect();
    let mut seed: u64 = 0x9E3779B97F4A7C15;
    for _ in 0..100_000 {
        seed ^= seed << 13;
        seed ^= seed >> 7;
        seed ^= seed << 17;
        let len = 1 + (seed % 5) as usize;
        let mut text = String::from("(0,1)");
        let mut bits = seed >> 3;
        let mut label = String::new();
        for _ in 0..len {
            label.push(alphabet[(bits % alphabet.len() as u64) as usize]);
            bits /= alphabet.len() as u64;
        }
        text.push_str(&label);
        text.push(';');
        match (label.parse::<usize>(), phylo2vec::tree_vec::ops::newick::get_cherries(&text)) {
            (Ok(p), Ok(rows)) => assert_eq!(rows, vec![[0, 1, p]], "{:?}", label),
            (Err(_), Err(NewickError::ParseIntError(t))) => assert_eq!(t, label),
            (a, b) => panic!("{:?}: {:?} but {:?}", label, a, b),
        }
    }
    for label in ["18446744073709551615", "18446744073709551616", "00000000000000000000001", "+0"] {
        let text = format!("(0,1){};", label);
        assert_eq!(
            label.parse::<usize>().ok(),
            phylo2vec::tree_vec::ops::newick::get_cherries(&text).ok().map(|rows| rows[0][2]),
        );
    }
}
