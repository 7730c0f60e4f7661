use loalfind::similarity_matrix::{create_similarity_matrix, SimilarityMatrix};
use loalfind::smith_waterman::smith_waterman;
use loalfind::spaced_string;

fn lines(v: &[&str]) -> Vec<String> {
    v.iter().map(|s| s.to_string()).collect()
}

fn identity_acgt() -> SimilarityMatrix {
    let text = lines(&[
        "A C G T",
        "A  2 -1 -1 -1",
        "C -1  2 -1 -1",
        "G -1 -1  2 -1",
        "T -1 -1 -1  2",
    ]);
    create_similarity_matrix(&text).expect("matrix should load")
}

fn annotation_is_consistent(a1: &str, a2: &str, ann: &str) {
    let c1: Vec<char> = a1.chars().collect();
    let c2: Vec<char> = a2.chars().collect();
    let ca: Vec<char> = ann.chars().collect();
    assert_eq!(c1.len(), c2.len());
    assert_eq!(c1.len(), ca.len());
    for k in 0..ca.len() {
        if ca[k] == '|' {
            assert!(c1[k] == c2[k] && c1[k] != '-');
        } else if ca[k] == ':' {
            assert!(c1[k] != '-' && c2[k] != '-' && c1[k] != c2[k]);
        } else {
            assert_eq!(ca[k], ' ');
            assert!(c1[k] == '-' || c2[k] == '-');
        }
    }
}

#[test]
fn classic_local_alignment() {
    let m = identity_acgt();
    let (score, a1, a2, ann) = smith_waterman("ACACACTA", "AGCACACA", &m, 1, 1);
    assert!(score > 0);
    assert_eq!(score, 10);
    annotation_is_consistent(&a1, &a2, &ann);
}

#[test]
fn empty_first_sequence() {
    let m = identity_acgt();
    let (score, a1, a2, ann) = smith_waterman("", "ACGT", &m, 1, 1);
    assert_eq!(score, 0);
    assert_eq!(a1, "");
    assert_eq!(a2, "");
    assert_eq!(ann, "");
}

#[test]
fn empty_second_sequence() {
    let m = identity_acgt();
    let (score, a1, a2, ann) = smith_waterman("ACGT", "", &m, 1, 1);
    assert_eq!(score, 0);
    assert_eq!(a1, "");
    assert_eq!(a2, "");
    assert_eq!(ann, "");
}

#[test]
fn identical_sequences_align_fully() {
    let m = identity_acgt();
    let (score, a1, a2, ann) = smith_waterman("GATTACA", "GATTACA", &m, 1, 1);
    assert_eq!(score, 14);
    assert_eq!(a1, "GATTACA");
    assert_eq!(a2, "GATTACA");
    assert_eq!(ann, "|||||||");
}

#[test]
fn unknown_symbols_score_zero() {
    let m = identity_acgt();
    let (score, a1, a2, ann) = smith_waterman("AXA", "AXA", &m, 1, 1);
    assert_eq!(score, 4);
    assert_eq!(a1, "AXA");
    assert_eq!(a2, "AXA");
    assert_eq!(ann, "|||");
}

#[test]
fn all_mismatches_give_zero_and_empty() {
    let m = identity_acgt();
    let (score, a1, a2, ann) = smith_waterman("AAAA", "CCCC", &m, 1, 1);
    assert_eq!(score, 0);
    assert_eq!(a1, "");
    assert_eq!(a2, "");
    assert_eq!(ann, "");
}

#[test]
fn result_rows_share_one_length() {
    let m = identity_acgt();
    let (_, a1, a2, ann) = smith_waterman("ACGTACGT", "ACGGGGCT", &m, 2, 1);
    assert_eq!(a1.chars().count(), a2.chars().count());
    assert_eq!(a1.chars().count(), ann.chars().count());
    annotation_is_consistent(&a1, &a2, &ann);
}

#[test]
fn rerun_is_identical() {
    let m = identity_acgt();
    let first = smith_waterman("ACACACTA", "AGCACACA", &m, 1, 1);
    let second = smith_waterman("ACACACTA", "AGCACACA", &m, 1, 1);
    assert_eq!(first, second);
}

#[test]
fn gapped_alignment_is_reported_with_gap_markers() {
    // One sequence holds an inserted stretch; the optimum bridges it with a
    // gap rather than paying three mismatches.
    let m = identity_acgt();
    let (score, a1, a2, ann) = smith_waterman("ACGTTTACGT", "ACGACGT", &m, 1, 1);
    assert!(score > 0);
    annotation_is_consistent(&a1, &a2, &ann);
    assert!(a2.contains('-') || a1.contains('-'));
}

#[test]
fn single_gap_alignment_exact() {
    // With match +3, mismatch -2 and a single-position gap costing 2, bridging
    // the C of the first sequence beats every gapless substring: four matches
    // minus one gap give 10, while TTG alone gives only 9.
    let m = create_similarity_matrix(&lines(&[
        "A C G T",
        "A  3 -2 -2 -2",
        "C -2  3 -2 -2",
        "G -2 -2  3 -2",
        "T -2 -2 -2  3",
    ]))
    .expect("load");
    let (score, a1, a2, ann) = smith_waterman("ACTTG", "ATTG", &m, 1, 1);
    assert_eq!(score, 10);
    assert_eq!(a1, "ACTTG");
    assert_eq!(a2, "A-TTG");
    assert_eq!(ann, "| |||");
    // the mirrored call puts the gap into the first row instead
    let (score2, b1, b2, ann2) = smith_waterman("ATTG", "ACTTG", &m, 1, 1);
    assert_eq!(score2, 10);
    assert_eq!(b1, "A-TTG");
    assert_eq!(b2, "ACTTG");
    assert_eq!(ann2, "| |||");
}

#[test]
fn spaced_string_writes_spaces_between_characters() {
    assert_eq!(spaced_string(&String::new()), "");
    assert_eq!(spaced_string(&"A".to_string()), "A");
    assert_eq!(spaced_string(&"ACT".to_string()), "A C T");
    assert_eq!(spaced_string(&"A-C".to_string()), "A - C");
}
