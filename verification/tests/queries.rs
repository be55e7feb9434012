use minimizer_sa::index::build_index;
use minimizer_sa::query::{bin_search, process_query, process_query_full};

#[test]
fn repeated_pattern_found_at_both_occurrences() {
    let d = build_index(b"ACGTACGTAC".to_vec(), 3, 4);
    let mut hits = process_query(&d, &b"ACGT".to_vec(), 0, 0);
    assert!(hits.len() >= 2);
    assert!(hits.contains(&0));
    assert!(hits.contains(&4));
    hits.sort();
    assert_eq!(hits, vec![0, 4]);
}

#[test]
fn single_window_reference_query() {
    let d = build_index(b"ACGT".to_vec(), 2, 4);
    let hits = process_query(&d, &b"ACGT".to_vec(), 0, 0);
    assert_eq!(hits, vec![0]);
}

#[test]
fn query_shorter_than_window_has_no_candidates() {
    let d = build_index(b"GATTACA".to_vec(), 2, 3);
    let hits = process_query(&d, &b"TT".to_vec(), 0, 0);
    assert!(hits.is_empty());
}

#[test]
fn sentinels_produce_no_spurious_hits() {
    let d = build_index(b"AAAA".to_vec(), 2, 3);
    let hits = process_query(&d, &b"AAA".to_vec(), 0, 0);
    assert_eq!(hits, vec![0]);
    let full = process_query_full(&d, &b"AAA".to_vec());
    assert_eq!(full, vec![0]);
}

#[test]
fn partial_verification_drops_a_false_candidate() {
    // AAC matches AAAAAAAA in minimizer space (both anchor the 2-mer AA)
    // but its uncovered third byte differs from the reference
    let d = build_index(b"AAAAAAAA".to_vec(), 2, 3);
    let unchecked = process_query(&d, &b"AAC".to_vec(), 0, 0);
    assert_eq!(unchecked, vec![0]);
    let checked = process_query(&d, &b"AAC".to_vec(), 1, 0);
    assert!(checked.is_empty());
}

#[test]
fn delta_filter_keeps_consistent_spacing() {
    let d = build_index(b"ACGTACGTAC".to_vec(), 3, 4);
    let plain = process_query(&d, &b"ACGTACG".to_vec(), 0, 0);
    let with_delta = process_query(&d, &b"ACGTACG".to_vec(), 0, 5);
    assert_eq!(plain, with_delta);
    assert_eq!(plain, vec![0]);
}

#[test]
fn full_verification_is_exact() {
    let d = build_index(b"ACGTACGTAC".to_vec(), 3, 4);
    let mut hits = process_query_full(&d, &b"ACGT".to_vec());
    hits.sort();
    assert_eq!(hits, vec![0, 4]);
    for &p in hits.iter() {
        assert_eq!(&d.reference[p..p + 4], b"ACGT");
    }
    let none = process_query_full(&d, &b"ACGG".to_vec());
    assert!(none.is_empty());
}

#[test]
fn homopolymer_query() {
    let d = build_index(b"AAAAAAAA".to_vec(), 2, 3);
    // the collapse leaves a single anchor, so a single candidate survives
    let hits = process_query(&d, &b"AAA".to_vec(), 0, 0);
    assert_eq!(hits, vec![0]);
    let full = process_query_full(&d, &b"AAA".to_vec());
    assert_eq!(full, vec![0]);
}

#[test]
fn lower_bound_search_brackets_the_interval() {
    let d = build_index(b"ACGT".to_vec(), 2, 4);
    // minimizer sequence [0, 4]; suffix array [1, 0]
    let mut pattern = vec![0usize];
    let mut low = b"ACGT".to_vec();
    low.extend_from_slice(b"##");
    pattern.push(4);
    let l = bin_search(
        0,
        d.minimizer_sa.len(),
        &d.minimizer_sequence,
        &d.minimizer_sa,
        &pattern,
        &d.reference,
        &low,
        2,
    );
    assert_eq!(l, 1);
    let mut high = b"ACGT".to_vec();
    high.extend_from_slice(b"}}");
    let r = bin_search(
        l,
        d.minimizer_sa.len(),
        &d.minimizer_sequence,
        &d.minimizer_sa,
        &pattern,
        &d.reference,
        &high,
        2,
    );
    assert_eq!(r, 2);
}

#[test]
fn query_absent_from_reference() {
    let d = build_index(b"GATTACA".to_vec(), 2, 3);
    let hits = process_query_full(&d, &b"CCCC".to_vec());
    assert!(hits.is_empty());
}
