use minimizer_sa::minimizers::compute_minimizers;

#[test]
fn repeating_acgt_reference() {
    // windows of length 4 over ACGTACGTAC, 3-mers, leftmost smallest wins
    let m = compute_minimizers(b"ACGTACGTAC", 3, 4);
    assert_eq!(m, vec![0, 1, 2, 4, 5, 6]);
}

#[test]
fn gattaca_reference() {
    let m = compute_minimizers(b"GATTACA", 2, 3);
    assert_eq!(m, vec![1, 3, 4]);
}

#[test]
fn homopolymer_collapses_to_one_anchor() {
    let m = compute_minimizers(b"AAAAAAAA", 2, 3);
    assert_eq!(m, vec![0]);
}

#[test]
fn single_window_exact_length() {
    // |S| == w: exactly one window, the smallest 2-mer is AC at 0
    let m = compute_minimizers(b"ACGT", 2, 4);
    assert_eq!(m, vec![0]);
}

#[test]
fn shorter_than_window_is_empty() {
    let m = compute_minimizers(b"AC", 2, 4);
    assert!(m.is_empty());
    let m2 = compute_minimizers(b"", 2, 3);
    assert!(m2.is_empty());
}

#[test]
fn leftmost_wins_on_ties() {
    // both 2-mers of every window are AB/BA alternating; ties inside a
    // window keep the leftmost occurrence
    let m = compute_minimizers(b"ABABAB", 2, 4);
    // windows at 0,1,2: window 0 has AB@0 BA@1 AB@2 -> AB@0;
    // window 1 has BA@1 AB@2 BA@3 -> AB@2, same k-mer as last -> collapsed;
    // window 2 has AB@2 BA@3 AB@4 -> AB@2 -> collapsed again
    assert_eq!(m, vec![0]);
}

#[test]
fn anchors_leave_room_for_kmer() {
    let s = b"TTGACCAGTAGACCA";
    let k = 4;
    let m = compute_minimizers(s, k, 6);
    for &p in m.iter() {
        assert!(p + k <= s.len());
    }
}

#[test]
fn adjacent_anchors_have_distinct_kmers() {
    let s = b"ACGTACGTACGTTTTACGT";
    let k = 3;
    let m = compute_minimizers(s, k, 5);
    for pair in m.windows(2) {
        assert_ne!(&s[pair[0]..pair[0] + k], &s[pair[1]..pair[1] + k]);
    }
}

#[test]
fn every_window_minimum_is_represented() {
    // window coverage: each window's smallest k-mer occurs at some anchor
    let s = b"GATTACAGATTACA";
    let k = 2;
    let w = 4;
    let m = compute_minimizers(s, k, w);
    for i in 0..=(s.len() - w) {
        let mut best = i;
        for j in i..=(i + w - k) {
            if s[j..j + k] < s[best..best + k] {
                best = j;
            }
        }
        assert!(m.iter().any(|&p| s[p..p + k] == s[best..best + k]));
    }
}
