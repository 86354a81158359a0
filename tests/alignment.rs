use bioinformatics::needleman_wunsch::needleman_wunsch;
use bioinformatics::smith_waterman::{smith_waterman, LocalAlignment};

fn strip(s: &[u8]) -> Vec<u8> {
    s.iter().copied().filter(|&c| c != b'-').collect()
}

#[test]
fn global_similarity_molarity() {
    let (a, b) = needleman_wunsch(b"similarity", b"molarity");
    assert_eq!(a, b"similarity".to_vec());
    assert_eq!(b, b"--molarity".to_vec());
}

#[test]
fn global_runs_of_gaps() {
    let (a, b) = needleman_wunsch(b"GAAAATAAAT", b"GATAAT");
    assert_eq!(a, b"GAAAATAAAT".to_vec());
    assert_eq!(b, b"G---AT-AAT".to_vec());
}

#[test]
fn global_keeps_argument_order() {
    let (a, b) = needleman_wunsch(b"molarity", b"similarity");
    assert_eq!(a, b"--molarity".to_vec());
    assert_eq!(b, b"similarity".to_vec());
}

#[test]
fn global_rows_strip_back_to_inputs() {
    let (a, b) = needleman_wunsch(b"ACCGTTGA", b"AGTTCA");
    assert_eq!(a.len(), b.len());
    assert_eq!(strip(&a), b"ACCGTTGA".to_vec());
    assert_eq!(strip(&b), b"AGTTCA".to_vec());
}

#[test]
fn global_self_alignment_has_no_gap() {
    let (a, b) = needleman_wunsch(b"GATTACA", b"GATTACA");
    assert_eq!(a, b"GATTACA".to_vec());
    assert_eq!(b, b"GATTACA".to_vec());
}

#[test]
fn global_against_empty() {
    let (a, b) = needleman_wunsch(b"ACG", b"");
    assert_eq!(a, b"ACG".to_vec());
    assert_eq!(b, b"---".to_vec());
    let (c, d) = needleman_wunsch(b"", b"");
    assert!(c.is_empty() && d.is_empty());
}

#[test]
fn local_self_alignment_covers_everything() {
    let r = smith_waterman(b"GATTACA", b"GATTACA");
    assert_eq!(
        r,
        LocalAlignment {
            aligned1: b"GATTACA".to_vec(),
            aligned2: b"GATTACA".to_vec(),
            start1: 0,
            end1: 7,
            start2: 0,
            end2: 7,
        }
    );
}

#[test]
fn local_alignment_with_gaps() {
    let r = smith_waterman(b"TGTTACGG", b"GGTTGACTA");
    assert_eq!(r.aligned1, b"-GTT-AC".to_vec());
    assert_eq!(r.aligned2, b"GGTTGAC".to_vec());
    assert_eq!((r.start1, r.end1), (1, 6));
    assert_eq!((r.start2, r.end2), (0, 7));
    assert_eq!(strip(&r.aligned1), b"TGTTACGG"[1..6].to_vec());
    assert_eq!(strip(&r.aligned2), b"GGTTGACTA"[0..7].to_vec());
}

#[test]
fn local_anchor_is_first_best_cell() {
    let r = smith_waterman(b"ACGT", b"TTTT");
    assert_eq!(r.aligned1, b"T".to_vec());
    assert_eq!(r.aligned2, b"T".to_vec());
    assert_eq!((r.start1, r.end1, r.start2, r.end2), (3, 4, 0, 1));
}

#[test]
fn local_alignment_of_unrelated_sequences_is_empty() {
    let r = smith_waterman(b"AAAA", b"CCC");
    assert!(r.aligned1.is_empty() && r.aligned2.is_empty());
    assert_eq!((r.start1, r.end1, r.start2, r.end2), (0, 0, 0, 0));
}
