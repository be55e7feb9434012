use std::cmp::Ordering;

use minimizer_sa::compare::compare_minimizer_sequences;
use minimizer_sa::index::{build_index, build_minimizer_sa, check_index};

#[test]
fn build_extends_reference_and_anchors() {
    let d = build_index(b"ACGTACGTAC".to_vec(), 3, 4);
    assert_eq!(d.reference, b"ACGTACGTAC$$$".to_vec());
    // the minimizer sequence plus the terminal anchor at the old length
    assert_eq!(d.minimizer_sequence, vec![0, 1, 2, 4, 5, 6, 10]);
    assert_eq!(d.minimizer_k, 3);
    assert_eq!(d.window_w, 4);
    assert_eq!(d.minimizer_sa.len(), d.minimizer_sequence.len());
}

#[test]
fn built_index_passes_the_checker() {
    let d = build_index(b"ACGTACGTAC".to_vec(), 3, 4);
    assert!(check_index(&d));
    let d2 = build_index(b"GATTACA".to_vec(), 2, 3);
    assert!(check_index(&d2));
    let d3 = build_index(b"AAAAAAAA".to_vec(), 2, 3);
    assert!(check_index(&d3));
}

#[test]
fn suffix_array_is_a_permutation() {
    let d = build_index(b"ACGTACGTAC".to_vec(), 3, 4);
    let n = d.minimizer_sa.len();
    let mut sorted = d.minimizer_sa.clone();
    sorted.sort();
    let expected: Vec<usize> = (0..n).collect();
    assert_eq!(sorted, expected);
}

#[test]
fn suffix_array_is_sorted_under_the_comparator() {
    let d = build_index(b"GATTACAGATTACA".to_vec(), 2, 4);
    for t in 0..d.minimizer_sa.len() - 1 {
        let c = compare_minimizer_sequences(
            Some(d.minimizer_sa[t]),
            Some(d.minimizer_sa[t + 1]),
            &d.minimizer_sequence,
            &d.minimizer_sequence,
            &d.reference,
            &d.reference,
            d.minimizer_k,
        );
        assert_ne!(c, Ordering::Greater);
    }
}

#[test]
fn terminal_suffix_sorts_first() {
    // the terminal $-run anchor is below every other suffix
    let d = build_index(b"ACGT".to_vec(), 2, 4);
    assert_eq!(d.minimizer_sequence, vec![0, 4]);
    assert_eq!(d.minimizer_sa, vec![1, 0]);
}

#[test]
fn checker_rejects_corrupted_indices() {
    let good = build_index(b"ACGTACGTAC".to_vec(), 3, 4);

    let mut bad_k = build_index(b"ACGTACGTAC".to_vec(), 3, 4);
    bad_k.minimizer_k = 0;
    assert!(!check_index(&bad_k));

    let mut bad_w = build_index(b"ACGTACGTAC".to_vec(), 3, 4);
    bad_w.window_w = 2;
    assert!(!check_index(&bad_w));

    let mut bad_sa = build_index(b"ACGTACGTAC".to_vec(), 3, 4);
    bad_sa.minimizer_sa[0] = 999;
    assert!(!check_index(&bad_sa));

    let mut dup_sa = build_index(b"ACGTACGTAC".to_vec(), 3, 4);
    dup_sa.minimizer_sa[0] = dup_sa.minimizer_sa[1];
    assert!(!check_index(&dup_sa));

    let mut unsorted = build_index(b"ACGTACGTAC".to_vec(), 3, 4);
    unsorted.minimizer_sa.reverse();
    assert!(!check_index(&unsorted));

    let mut bad_anchor = build_index(b"ACGTACGTAC".to_vec(), 3, 4);
    bad_anchor.minimizer_sequence[0] = good.reference.len();
    assert!(!check_index(&bad_anchor));

    let mut short_sa = build_index(b"ACGTACGTAC".to_vec(), 3, 4);
    short_sa.minimizer_sa.pop();
    assert!(!check_index(&short_sa));
}

#[test]
fn sorting_indices_directly() {
    // sort the three suffixes of GATTACA's minimizer sequence by hand
    let reference = b"GATTACA".to_vec();
    let ms = vec![1usize, 3, 4];
    // suffixes: [AT,TA,AC] at 0, [TA,AC] at 1, [AC] at 2
    let sa = build_minimizer_sa(&ms, &reference, 2);
    assert_eq!(sa, vec![2, 0, 1]);
}
