//! Minimizer extraction: projecting a base string into the ordered list of
//! its window-minimizer anchor positions.
//!
//! A window of length `w` slides over the string; each window contributes
//! the position of its lexicographically smallest k-mer, leftmost wins on
//! ties. A candidate is appended only when its k-mer differs from the k-mer
//! of the last appended anchor, so runs of windows that agree on their
//! minimizer collapse to one entry. A string shorter than `w` has no window
//! and an empty minimizer sequence.

use vstd::prelude::*;

verus! {

use core::cmp::Ordering;
use crate::order::{
    bytes_cmp,
    kmer_at,
    kmer_compare,
    lemma_bytes_cmp_eq,
    lemma_bytes_cmp_ge_trans,
    lemma_bytes_cmp_le_trans,
    lemma_bytes_cmp_opposite,
    lemma_bytes_cmp_refl,
};
use crate::to_ints;

/// Scans window offsets `j ..= w - k` of the window starting at `i`,
/// carrying the position `best` of the leftmost smallest k-mer seen so far,
/// and returns the position of the leftmost smallest k-mer of the whole
/// window.
pub open spec fn win_min_from(s: Seq<u8>, i: int, j: int, k: int, w: int, best: int) -> int
    decreases w - k - j + 1,
{
    if j > w - k || w - k - j + 1 <= 0 {
        best
    } else if bytes_cmp(kmer_at(s, i + j, k), kmer_at(s, best, k)) == Ordering::Less {
        win_min_from(s, i, j + 1, k, w, i + j)
    } else {
        win_min_from(s, i, j + 1, k, w, best)
    }
}

/// The anchor of the window starting at `i`: the position of its leftmost
/// lexicographically smallest k-mer.
pub open spec fn window_anchor(s: Seq<u8>, i: int, k: int, w: int) -> int {
    win_min_from(s, i, 1, k, w, i)
}

/// The minimizer positions contributed by windows `i` onward, when the
/// k-mer of the most recently appended anchor is the one at `last` (`None`
/// before the first append).
pub open spec fn minimizers_from(s: Seq<u8>, k: int, w: int, i: int, last: Option<int>) -> Seq<int>
    decreases s.len() - i,
{
    if !(0 <= i && 1 <= w && i + w <= s.len()) {
        Seq::empty()
    } else {
        let a = window_anchor(s, i, k, w);
        let add = match last {
            None => true,
            Some(lp) => kmer_at(s, a, k) != kmer_at(s, lp, k),
        };
        if add {
            seq![a] + minimizers_from(s, k, w, i + 1, Some(a))
        } else {
            minimizers_from(s, k, w, i + 1, last)
        }
    }
}

/// The minimizer sequence of `s` under parameters `k` and `w`: one anchor
/// per window, consecutive duplicates collapsed by k-mer equality.
pub open spec fn minimizer_seq(s: Seq<u8>, k: int, w: int) -> Seq<int> {
    minimizers_from(s, k, w, 0, None)
}

/// Produces the minimizer sequence of `sequence`: for each window of length
/// `w`, the position of its leftmost smallest k-mer, appended only when its
/// k-mer differs from the k-mer at the last appended position. Returns the
/// empty vector when the string is shorter than one window.
pub fn compute_minimizers(sequence: &[u8], k: usize, w: usize) -> (r: Vec<usize>)
    requires
        1 <= k <= w,
    ensures
        to_ints(r@) == minimizer_seq(sequence@, k as int, w as int),
        forall|t: int| 0 <= t < r@.len() ==> #[trigger] r@[t] + k <= sequence@.len(),
{
    let mut result: Vec<usize> = Vec::new();
    let n = sequence.len();
    if n < w {
        proof {
            assert(to_ints(result@) =~= Seq::<int>::empty());
            assert(minimizer_seq(sequence@, k as int, w as int) =~= Seq::<int>::empty());
        }
        return result;
    }
    let mut last_added: Option<usize> = None;
    let mut i: usize = 0;
    while i <= n - w
        invariant
            1 <= k <= w <= n == sequence@.len(),
            0 <= i <= n - w + 1,
            (match last_added {
                Some(lp) => lp + k <= n,
                None => true,
            }),
            forall|t: int| 0 <= t < result@.len() ==> #[trigger] result@[t] + k <= n,
            minimizer_seq(sequence@, k as int, w as int) == to_ints(result@) + minimizers_from(
                sequence@,
                k as int,
                w as int,
                i as int,
                match last_added {
                    Some(lp) => Some(lp as int),
                    None => None,
                },
            ),
        decreases n - w + 1 - i,
    {
        let mut best: usize = i;
        let mut j: usize = 1;
        while j <= w - k
            invariant
                1 <= k <= w <= n == sequence@.len(),
                i + w <= n,
                1 <= j <= w - k + 1,
                i <= best <= i + j - 1,
                best <= i + w - k,
                window_anchor(sequence@, i as int, k as int, w as int) == win_min_from(
                    sequence@,
                    i as int,
                    j as int,
                    k as int,
                    w as int,
                    best as int,
                ),
            decreases w - k + 1 - j,
        {
            let c = kmer_compare(sequence, i + j, sequence, best, k);
            match c {
                Ordering::Less => {
                    best = i + j;
                },
                _ => {
                },
            }
            j = j + 1;
        }
        proof {
            assert(win_min_from(
                sequence@,
                i as int,
                j as int,
                k as int,
                w as int,
                best as int,
            ) == best as int);
        }
        let ghost a = window_anchor(sequence@, i as int, k as int, w as int);
        let ghost lastv: Option<int> = match last_added {
            Some(lp) => Some(lp as int),
            None => None,
        };
        let add = match last_added {
            None => true,
            Some(lp) => {
                let c = kmer_compare(sequence, best, sequence, lp, k);
                proof {
                    if c == Ordering::Equal {
                        lemma_bytes_cmp_eq(
                            kmer_at(sequence@, best as int, k as int),
                            kmer_at(sequence@, lp as int, k as int),
                        );
                    } else {
                        if kmer_at(sequence@, best as int, k as int) == kmer_at(
                            sequence@,
                            lp as int,
                            k as int,
                        ) {
                            lemma_bytes_cmp_refl(kmer_at(sequence@, best as int, k as int));
                        }
                    }
                }
                !matches!(c, Ordering::Equal)
            },
        };
        proof {
            assert(minimizers_from(sequence@, k as int, w as int, i as int, lastv) == (if (match lastv {
                None => true,
                Some(lp) => kmer_at(sequence@, a, k as int) != kmer_at(sequence@, lp, k as int),
            }) {
                seq![a] + minimizers_from(sequence@, k as int, w as int, i as int + 1, Some(a))
            } else {
                minimizers_from(sequence@, k as int, w as int, i as int + 1, lastv)
            }));
        }
        if add {
            let ghost old_result = result@;
            result.push(best);
            last_added = Some(best);
            proof {
                assert(to_ints(result@) =~= to_ints(old_result).push(best as int));
                assert(to_ints(old_result) + (seq![a] + minimizers_from(
                    sequence@,
                    k as int,
                    w as int,
                    i as int + 1,
                    Some(a),
                )) =~= to_ints(old_result).push(best as int) + minimizers_from(
                    sequence@,
                    k as int,
                    w as int,
                    i as int + 1,
                    Some(a),
                ));
            }
        }
        i = i + 1;
    }
    proof {
        assert(minimizers_from(
            sequence@,
            k as int,
            w as int,
            i as int,
            match last_added {
                Some(lp) => Some(lp as int),
                None => None,
            },
        ) =~= Seq::<int>::empty());
        assert(to_ints(result@) + Seq::<int>::empty() =~= to_ints(result@));
    }
    result
}

/// No two adjacent positions of `ps` name the same k-mer of `s`.
pub open spec fn adjacent_kmers_differ(s: Seq<u8>, ps: Seq<int>, k: int) -> bool {
    forall|t: int|
        0 <= t < ps.len() - 1 ==> kmer_at(s, #[trigger] ps[t], k) != kmer_at(s, ps[t + 1], k)
}

proof fn lemma_win_min_from_props(s: Seq<u8>, i: int, j: int, k: int, w: int, best: int)
    requires
        1 <= k <= w,
        1 <= j <= w - k + 1,
        i <= best <= i + j - 1,
        best <= i + w - k,
        forall|p: int|
            i <= p <= i + j - 1 ==> bytes_cmp(kmer_at(s, best, k), #[trigger] kmer_at(s, p, k))
                != Ordering::Greater,
        forall|p: int|
            i <= p < best ==> bytes_cmp(#[trigger] kmer_at(s, p, k), kmer_at(s, best, k))
                == Ordering::Greater,
    ensures
        ({
            let a = win_min_from(s, i, j, k, w, best);
            &&& i <= a <= i + w - k
            &&& forall|p: int|
                i <= p <= i + w - k ==> bytes_cmp(kmer_at(s, a, k), #[trigger] kmer_at(s, p, k))
                    != Ordering::Greater
            &&& forall|p: int|
                i <= p < a ==> bytes_cmp(#[trigger] kmer_at(s, p, k), kmer_at(s, a, k))
                    == Ordering::Greater
        }),
    decreases w - k - j + 1,
{
    if j > w - k {
        // all offsets scanned: the carried best is the window anchor
    } else if bytes_cmp(kmer_at(s, i + j, k), kmer_at(s, best, k)) == Ordering::Less {
        let nb = i + j;
        assert forall|p: int| i <= p <= i + j implies bytes_cmp(
            kmer_at(s, nb, k),
            #[trigger] kmer_at(s, p, k),
        ) != Ordering::Greater by {
            if p < nb {
                lemma_bytes_cmp_le_trans(kmer_at(s, nb, k), kmer_at(s, best, k), kmer_at(s, p, k));
            } else {
                lemma_bytes_cmp_refl(kmer_at(s, nb, k));
            }
        }
        assert forall|p: int| i <= p < nb implies bytes_cmp(
            #[trigger] kmer_at(s, p, k),
            kmer_at(s, nb, k),
        ) == Ordering::Greater by {
            lemma_bytes_cmp_opposite(kmer_at(s, nb, k), kmer_at(s, best, k));
            if p < best {
                lemma_bytes_cmp_ge_trans(kmer_at(s, p, k), kmer_at(s, best, k), kmer_at(s, nb, k));
            } else {
                lemma_bytes_cmp_opposite(kmer_at(s, nb, k), kmer_at(s, p, k));
                lemma_bytes_cmp_le_trans(kmer_at(s, nb, k), kmer_at(s, best, k), kmer_at(s, p, k));
            }
        }
        lemma_win_min_from_props(s, i, j + 1, k, w, nb);
    } else {
        assert forall|p: int| i <= p <= i + j implies bytes_cmp(
            kmer_at(s, best, k),
            #[trigger] kmer_at(s, p, k),
        ) != Ordering::Greater by {
            if p == i + j {
                lemma_bytes_cmp_opposite(kmer_at(s, i + j, k), kmer_at(s, best, k));
            }
        }
        lemma_win_min_from_props(s, i, j + 1, k, w, best);
    }
}

/// The anchor of the window at `i` lies inside the window, leaves room for
/// a whole k-mer, carries a k-mer no greater than any k-mer of the window,
/// and every position left of it in the window has a strictly greater
/// k-mer: the leftmost-minimum rule.
pub proof fn lemma_window_anchor_minimal(s: Seq<u8>, i: int, k: int, w: int)
    requires
        1 <= k <= w,
        0 <= i,
        i + w <= s.len(),
    ensures
        i <= window_anchor(s, i, k, w) <= i + w - k,
        forall|p: int|
            i <= p <= i + w - k ==> bytes_cmp(
                kmer_at(s, window_anchor(s, i, k, w), k),
                #[trigger] kmer_at(s, p, k),
            ) != Ordering::Greater,
        forall|p: int|
            i <= p < window_anchor(s, i, k, w) ==> bytes_cmp(
                #[trigger] kmer_at(s, p, k),
                kmer_at(s, window_anchor(s, i, k, w), k),
            ) == Ordering::Greater,
{
    assert forall|p: int| i <= p <= i implies bytes_cmp(
        kmer_at(s, i, k),
        #[trigger] kmer_at(s, p, k),
    ) != Ordering::Greater by {
        lemma_bytes_cmp_refl(kmer_at(s, i, k));
    }
    lemma_win_min_from_props(s, i, 1, k, w, i);
}

proof fn lemma_minimizers_from_bounds(s: Seq<u8>, k: int, w: int, i: int, last: Option<int>)
    requires
        1 <= k <= w,
    ensures
        forall|t: int|
            0 <= t < minimizers_from(s, k, w, i, last).len() ==> i <= #[trigger] minimizers_from(
                s,
                k,
                w,
                i,
                last,
            )[t] && minimizers_from(s, k, w, i, last)[t] + k <= s.len(),
    decreases s.len() - i,
{
    if 0 <= i && i + w <= s.len() {
        let a = window_anchor(s, i, k, w);
        let res = minimizers_from(s, k, w, i, last);
        lemma_window_anchor_minimal(s, i, k, w);
        lemma_minimizers_from_bounds(s, k, w, i + 1, Some(a));
        lemma_minimizers_from_bounds(s, k, w, i + 1, last);
        let add = match last {
            None => true,
            Some(lp) => kmer_at(s, a, k) != kmer_at(s, lp, k),
        };
        let rest = if add {
            minimizers_from(s, k, w, i + 1, Some(a))
        } else {
            minimizers_from(s, k, w, i + 1, last)
        };
        assert forall|t: int| 0 <= t < res.len() implies i <= #[trigger] res[t] && res[t] + k
            <= s.len() by {
            if add {
                if t == 0 {
                    assert(res[t] == a);
                } else {
                    assert(res[t] == rest[t - 1]);
                }
            } else {
                assert(res[t] == rest[t]);
            }
        }
    }
}

/// Anchor bounds: every position of the minimizer sequence lies in
/// `[0, |s| - k]`, so a whole k-mer can be read there.
pub proof fn lemma_minimizer_seq_bounds(s: Seq<u8>, k: int, w: int)
    requires
        1 <= k <= w,
    ensures
        forall|t: int|
            0 <= t < minimizer_seq(s, k, w).len() ==> 0 <= #[trigger] minimizer_seq(s, k, w)[t]
                && minimizer_seq(s, k, w)[t] + k <= s.len(),
{
    lemma_minimizers_from_bounds(s, k, w, 0, None);
}

proof fn lemma_minimizers_from_distinct(s: Seq<u8>, k: int, w: int, i: int, last: Option<int>)
    requires
        1 <= k <= w,
    ensures
        adjacent_kmers_differ(s, minimizers_from(s, k, w, i, last), k),
        ({
            let res = minimizers_from(s, k, w, i, last);
            match last {
                Some(lp) => res.len() > 0 ==> kmer_at(s, res[0], k) != kmer_at(s, lp, k),
                None => true,
            }
        }),
    decreases s.len() - i,
{
    if 0 <= i && i + w <= s.len() {
        let a = window_anchor(s, i, k, w);
        let res = minimizers_from(s, k, w, i, last);
        let add = match last {
            None => true,
            Some(lp) => kmer_at(s, a, k) != kmer_at(s, lp, k),
        };
        if add {
            let rest = minimizers_from(s, k, w, i + 1, Some(a));
            lemma_minimizers_from_distinct(s, k, w, i + 1, Some(a));
            assert(res == seq![a] + rest);
            assert(res[0] == a);
            assert forall|t: int| 0 <= t < res.len() - 1 implies kmer_at(s, #[trigger] res[t], k)
                != kmer_at(s, res[t + 1], k) by {
                if t == 0 {
                    assert(rest.len() > 0 && res[1] == rest[0]);
                } else {
                    assert(res[t] == rest[t - 1] && res[t + 1] == rest[t]);
                    assert(kmer_at(s, rest[t - 1], k) != kmer_at(s, rest[t - 1 + 1], k));
                }
            }
        } else {
            lemma_minimizers_from_distinct(s, k, w, i + 1, last);
        }
    }
}

/// Duplicate collapse: adjacent entries of the minimizer sequence always
/// name different k-mers.
pub proof fn lemma_minimizer_seq_distinct(s: Seq<u8>, k: int, w: int)
    requires
        1 <= k <= w,
    ensures
        adjacent_kmers_differ(s, minimizer_seq(s, k, w), k),
{
    lemma_minimizers_from_distinct(s, k, w, 0, None);
}

proof fn lemma_minimizers_from_coverage(s: Seq<u8>, k: int, w: int, i: int, last: Option<int>)
    requires
        1 <= k <= w,
        0 <= i,
    ensures
        forall|x: int|
            i <= x && x + w <= s.len() ==> ({
                let res = minimizers_from(s, k, w, i, last);
                let ak = kmer_at(s, #[trigger] window_anchor(s, x, k, w), k);
                (exists|t: int| 0 <= t < res.len() && kmer_at(s, #[trigger] res[t], k) == ak) || (
                last matches Some(lp) && kmer_at(s, lp, k) == ak)
            }),
    decreases s.len() - i,
{
    if 0 <= i && i + w <= s.len() {
        let a = window_anchor(s, i, k, w);
        let res = minimizers_from(s, k, w, i, last);
        let add = match last {
            None => true,
            Some(lp) => kmer_at(s, a, k) != kmer_at(s, lp, k),
        };
        if add {
            let rest = minimizers_from(s, k, w, i + 1, Some(a));
            lemma_minimizers_from_coverage(s, k, w, i + 1, Some(a));
            assert(res == seq![a] + rest);
            assert forall|x: int| i <= x && x + w <= s.len() implies ({
                let ak = kmer_at(s, #[trigger] window_anchor(s, x, k, w), k);
                exists|t: int| 0 <= t < res.len() && kmer_at(s, #[trigger] res[t], k) == ak
            }) by {
                let ak = kmer_at(s, window_anchor(s, x, k, w), k);
                if x == i {
                    assert(res[0] == a && kmer_at(s, res[0], k) == ak);
                } else {
                    if exists|t: int| 0 <= t < rest.len() && kmer_at(s, #[trigger] rest[t], k)
                        == ak {
                        let t = choose|t: int|
                            0 <= t < rest.len() && kmer_at(s, #[trigger] rest[t], k) == ak;
                        assert(res[t + 1] == rest[t]);
                        assert(kmer_at(s, res[t + 1], k) == ak);
                    } else {
                        assert(kmer_at(s, a, k) == ak);
                        assert(kmer_at(s, res[0], k) == ak);
                    }
                }
            }
        } else {
            let rest = minimizers_from(s, k, w, i + 1, last);
            lemma_minimizers_from_coverage(s, k, w, i + 1, last);
            assert forall|x: int| i <= x && x + w <= s.len() implies ({
                let ak = kmer_at(s, #[trigger] window_anchor(s, x, k, w), k);
                (exists|t: int| 0 <= t < res.len() && kmer_at(s, #[trigger] res[t], k) == ak) || (
                last matches Some(lp) && kmer_at(s, lp, k) == ak)
            }) by {
                let ak = kmer_at(s, window_anchor(s, x, k, w), k);
                if x == i {
                    assert(last matches Some(lp) && kmer_at(s, lp, k) == ak);
                } else {
                    if exists|t: int|
                        0 <= t < rest.len() && kmer_at(s, #[trigger] rest[t], k) == ak {
                        let t = choose|t: int|
                            0 <= t < rest.len() && kmer_at(s, #[trigger] rest[t], k) == ak;
                        assert(res[t] == rest[t]);
                        assert(kmer_at(s, res[t], k) == ak);
                    }
                }
            }
        }
    }
}

/// Every window start `x` of `s` finds its anchor's k-mer among the k-mers
/// named by `ps`.
pub open spec fn covers_window_kmers(s: Seq<u8>, ps: Seq<int>, k: int, w: int) -> bool {
    forall|x: int|
        0 <= x && x + w <= s.len() ==> (exists|t: int|
            0 <= t < ps.len() && kmer_at(s, #[trigger] ps[t], k) == kmer_at(
                s,
                #[trigger] window_anchor(s, x, k, w),
                k,
            ))
}

/// Window coverage: every window of `s` has some entry of the minimizer
/// sequence that names the same k-mer as that window's anchor.
pub proof fn lemma_minimizer_seq_window_coverage(s: Seq<u8>, k: int, w: int)
    requires
        1 <= k <= w,
    ensures
        covers_window_kmers(s, minimizer_seq(s, k, w), k, w),
{
    lemma_minimizers_from_coverage(s, k, w, 0, None);
    let res = minimizer_seq(s, k, w);
    assert forall|x: int| #![trigger window_anchor(s, x, k, w)] 0 <= x && x + w <= s.len() implies (
    exists|t: int|
        0 <= t < res.len() && kmer_at(s, #[trigger] res[t], k) == kmer_at(
            s,
            window_anchor(s, x, k, w),
            k,
        )) by {
        let ak = kmer_at(s, window_anchor(s, x, k, w), k);
        assert(exists|t: int|
            0 <= t < minimizers_from(s, k, w, 0, None).len() && kmer_at(
                s,
                #[trigger] minimizers_from(s, k, w, 0, None)[t],
                k,
            ) == ak);
        let t0 = choose|t: int|
            0 <= t < minimizers_from(s, k, w, 0, None).len() && kmer_at(
                s,
                #[trigger] minimizers_from(s, k, w, 0, None)[t],
                k,
            ) == ak;
        assert(0 <= t0 < res.len() && kmer_at(s, res[t0], k) == ak);
    }
}

} // verus!
