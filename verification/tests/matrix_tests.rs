use loalfind::similarity_matrix::{create_similarity_matrix, SimilarityMatrix};

fn lines(v: &[&str]) -> Vec<String> {
    v.iter().map(|s| s.to_string()).collect()
}

fn identity_acgt() -> SimilarityMatrix {
    let text = lines(&[
        "# identity matrix: match +2, mismatch -1",
        "",
        "A C G T",
        "A  2 -1 -1 -1",
        "C -1  2 -1 -1",
        "G -1 -1  2 -1",
        "T -1 -1 -1  2",
    ]);
    create_similarity_matrix(&text).expect("matrix should load")
}

#[test]
fn lookup_symmetric_full_matrix() {
    let m = identity_acgt();
    let alphabet = ['A', 'C', 'G', 'T'];
    for &a in alphabet.iter() {
        for &b in alphabet.iter() {
            assert_eq!(m.get_score(a, b), m.get_score(b, a));
            let expected = if a == b { 2 } else { -1 };
            assert_eq!(m.get_score(a, b), Some(expected));
        }
    }
}

#[test]
fn lookup_single_direction_row() {
    let m = create_similarity_matrix(&lines(&["A C", "A 1 5"])).expect("load");
    assert_eq!(m.get_score('A', 'C'), Some(5));
    assert_eq!(m.get_score('C', 'A'), Some(5));
    assert_eq!(m.get_score('A', 'A'), Some(1));
}

#[test]
fn comments_and_blank_lines_ignored() {
    let m = create_similarity_matrix(&lines(&[
        "   ",
        "# a comment",
        "A C",
        "",
        "  # another comment, indented",
        "A 3 -2",
        "C -2 4",
    ]))
    .expect("load");
    assert_eq!(m.get_score('C', 'C'), Some(4));
    assert_eq!(m.get_score('A', 'C'), Some(-2));
}

#[test]
fn parse_error_cites_line_number_and_text() {
    let e = create_similarity_matrix(&lines(&["# header next", "A C", "A 2 x"]))
        .expect_err("bad token must fail");
    assert_eq!(e.line, 3);
    assert_eq!(e.text, "A 2 x");
}

#[test]
fn short_row_is_an_error() {
    let e = create_similarity_matrix(&lines(&["A C G", "A 1 2"]))
        .expect_err("short row must fail");
    assert_eq!(e.line, 2);
    assert_eq!(e.text, "A 1 2");
}

#[test]
fn overflow_token_is_an_error() {
    let e = create_similarity_matrix(&lines(&["A", "A 99999999999"]))
        .expect_err("token outside 32 bits must fail");
    assert_eq!(e.line, 2);
}

#[test]
fn signed_tokens_parse() {
    let m = create_similarity_matrix(&lines(&["A C", "A +4 -3"])).expect("load");
    assert_eq!(m.get_score('A', 'A'), Some(4));
    assert_eq!(m.get_score('A', 'C'), Some(-3));
}

#[test]
fn missing_pair_is_none() {
    let m = identity_acgt();
    assert_eq!(m.get_score('A', 'X'), None);
    assert_eq!(m.get_score('X', 'Y'), None);
}

#[test]
fn header_only_gives_empty_table() {
    let m = create_similarity_matrix(&lines(&["A C G T"])).expect("load");
    assert_eq!(m.get_score('A', 'A'), None);
}

#[test]
fn later_row_overrides_earlier() {
    let m = create_similarity_matrix(&lines(&["A", "A 1", "A 7"])).expect("load");
    assert_eq!(m.get_score('A', 'A'), Some(7));
}

#[test]
fn extra_row_tokens_are_ignored() {
    let m = create_similarity_matrix(&lines(&["A C", "A 1 2 9"])).expect("load");
    assert_eq!(m.get_score('A', 'A'), Some(1));
    assert_eq!(m.get_score('A', 'C'), Some(2));
}
