use std::cmp::Ordering;

use minimizer_sa::compare::compare_minimizer_sequences;

#[test]
fn equal_suffixes_compare_equal() {
    let s = b"ACGTACGT";
    let pos = vec![0usize, 4];
    let c = compare_minimizer_sequences(None, None, &pos, &pos, s, s, 3);
    assert_eq!(c, Ordering::Equal);
}

#[test]
fn prefix_is_less() {
    let s = b"ACGTACGT";
    let long = vec![0usize, 4];
    let short = vec![0usize];
    assert_eq!(
        compare_minimizer_sequences(None, None, &short, &long, s, s, 3),
        Ordering::Less
    );
    assert_eq!(
        compare_minimizer_sequences(None, None, &long, &short, s, s, 3),
        Ordering::Greater
    );
}

#[test]
fn first_differing_kmer_decides() {
    let s = b"ACGT";
    // AC at 0 against GT at 2
    let a = vec![0usize];
    let b = vec![2usize];
    assert_eq!(
        compare_minimizer_sequences(None, None, &a, &b, s, s, 2),
        Ordering::Less
    );
    assert_eq!(
        compare_minimizer_sequences(None, None, &b, &a, s, s, 2),
        Ordering::Greater
    );
}

#[test]
fn different_backing_strings() {
    let r = b"TTTTACGT";
    let q = b"ACGA";
    // ACGT at 4 of r against ACGA at 0 of q
    let a = vec![4usize];
    let b = vec![0usize];
    assert_eq!(
        compare_minimizer_sequences(None, None, &a, &b, r, q, 4),
        Ordering::Greater
    );
}

#[test]
fn kmer_clipped_at_end_of_string() {
    let s = b"ACGT";
    // the 3-mer at 2 is clipped to GT, a proper prefix of GTA elsewhere
    let long = b"GTA";
    let a = vec![2usize];
    let b = vec![0usize];
    assert_eq!(
        compare_minimizer_sequences(None, None, &a, &b, s, long, 3),
        Ordering::Less
    );
}

#[test]
fn start_offsets_select_suffixes() {
    let s = b"ACGTACGT";
    let pos = vec![0usize, 1, 4];
    // suffix from index 2 of pos is [4]; against the full list the first
    // k-mer already differs: ACG at 4 vs ACG at 0 are equal, then the
    // shorter runs out
    let c = compare_minimizer_sequences(Some(2), None, &pos, &pos, s, s, 3);
    assert_eq!(c, Ordering::Less);
    let c2 = compare_minimizer_sequences(Some(2), Some(2), &pos, &pos, s, s, 3);
    assert_eq!(c2, Ordering::Equal);
    let c3 = compare_minimizer_sequences(None, Some(3), &pos, &pos, s, s, 3);
    assert_eq!(c3, Ordering::Greater);
}

#[test]
fn both_empty_lists_are_equal() {
    let s = b"ACGT";
    let none: Vec<usize> = Vec::new();
    assert_eq!(
        compare_minimizer_sequences(None, None, &none, &none, s, s, 2),
        Ordering::Equal
    );
}
